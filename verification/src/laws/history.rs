//! How operations come about.
//!
//! The other laws speak of sound logs: ones whose answers are answers to what
//! was asked for. Every log that a driver can bring about is sound, because a
//! log that was only just started is, and every fitting answer keeps it so.
use vstd::prelude::*;

use crate::batch::ReadManyLog;
use crate::cache::{LoadLog, LoadReply, LookupLog, LookupReply};
use crate::delete::{DeleteLog, RemoveLog};
use crate::fetch::{ExistsLog, GetLog};
use crate::rollover::Reply;
use crate::router::Route;
use crate::write::WriteLog;

verus! {

/// A write starts with a sound log, and the log stays sound as long as the
/// answers are ones to what was asked for.
pub proof fn law_write_logs_are_sound<K, V, E>(
    route: Route,
    entries: Seq<(K, V)>,
    log: WriteLog<K, V, E>,
    reply: Reply<K, V, E>,
)
    requires
        log.sound(),
        log.step().fits(reply),
    ensures
        WriteLog::<K, V, E>::begin(route, entries).sound(),
        log.answered(reply).sound(),
        log.answered(reply).asked() == log.asked().push(log.step()),
{
    let longer = log.answered(reply);
    assert(log.prefix(log.replies.len() as int) =~= log);
    assert forall|i: int| 0 <= i <= log.replies.len() implies #[trigger] longer.prefix(i)
        == log.prefix(i) by {
        assert(longer.replies.take(i) =~= log.replies.take(i));
    }
    assert(longer.asked() =~= log.asked().push(log.step()));
    assert forall|i: int| 0 <= i < longer.replies.len() implies (
    #[trigger] longer.asked()[i]).fits(longer.replies[i]) by {
        if i < log.replies.len() {
            assert(log.asked()[i].fits(log.replies[i]));
        }
    }
}

/// A read starts with a sound log, and the log stays sound as long as the
/// answers are ones to what was asked for.
pub proof fn law_read_logs_are_sound<K, V, E>(
    route: Route,
    key: K,
    log: GetLog<K, V, E>,
    reply: Reply<K, V, E>,
)
    requires
        log.sound(),
        log.step().fits(reply),
    ensures
        GetLog::<K, V, E>::begin(route, key).sound(),
        log.answered(reply).sound(),
        log.answered(reply).asked() == log.asked().push(log.step()),
{
    let longer = log.answered(reply);
    assert(log.prefix(log.replies.len() as int) =~= log);
    assert forall|i: int| 0 <= i <= log.replies.len() implies #[trigger] longer.prefix(i)
        == log.prefix(i) by {
        assert(longer.replies.take(i) =~= log.replies.take(i));
    }
    assert(longer.asked() =~= log.asked().push(log.step()));
    assert forall|i: int| 0 <= i < longer.replies.len() implies (
    #[trigger] longer.asked()[i]).fits(longer.replies[i]) by {
        if i < log.replies.len() {
            assert(log.asked()[i].fits(log.replies[i]));
        }
    }
}

/// A batched read starts with a sound log, and the log stays sound as long as the
/// answers are ones to what was asked for.
pub proof fn law_batched_read_logs_are_sound<K, V, E>(
    route: Route,
    keys: Seq<K>,
    log: ReadManyLog<K, V, E>,
    reply: Reply<K, V, E>,
)
    requires
        log.sound(),
        log.step().fits(reply),
    ensures
        ReadManyLog::<K, V, E>::begin(route, keys).sound(),
        log.answered(reply).sound(),
        log.answered(reply).asked() == log.asked().push(log.step()),
{
    let longer = log.answered(reply);
    assert(log.prefix(log.replies.len() as int) =~= log);
    assert forall|i: int| 0 <= i <= log.replies.len() implies #[trigger] longer.prefix(i)
        == log.prefix(i) by {
        assert(longer.replies.take(i) =~= log.replies.take(i));
    }
    assert(longer.asked() =~= log.asked().push(log.step()));
    assert forall|i: int| 0 <= i < longer.replies.len() implies (
    #[trigger] longer.asked()[i]).fits(longer.replies[i]) by {
        if i < log.replies.len() {
            assert(log.asked()[i].fits(log.replies[i]));
        }
    }
}

/// An existence check starts with a sound log, and the log stays sound as long as
/// only requests are answered.
pub proof fn law_existence_check_logs_are_sound<K, E>(
    route: Route,
    key: K,
    log: ExistsLog<K, E>,
    reply: Result<bool, E>,
)
    requires
        log.sound(),
        log.step() is Exists,
    ensures
        ExistsLog::<K, E>::begin(route, key).sound(),
        log.answered(reply).sound(),
{
    let longer = log.answered(reply);
    assert(log.prefix(log.replies.len() as int) =~= log);
    assert forall|i: int| 0 <= i < longer.replies.len() implies (
    #[trigger] longer.prefix(i)).step() is Exists by {
        assert(longer.prefix(i) =~= log.prefix(i));
    }
}

/// A delete starts with a sound log, and the log stays sound as long as
/// only requests are answered.
pub proof fn law_delete_logs_are_sound<K, E>(
    route: Route,
    key: K,
    log: DeleteLog<K, E>,
    reply: Result<bool, E>,
)
    requires
        log.sound(),
        log.step() is Delete,
    ensures
        DeleteLog::<K, E>::begin(route, key).sound(),
        log.answered(reply).sound(),
{
    let longer = log.answered(reply);
    assert(log.prefix(log.replies.len() as int) =~= log);
    assert forall|i: int| 0 <= i < longer.replies.len() implies (
    #[trigger] longer.prefix(i)).step() is Delete by {
        assert(longer.prefix(i) =~= log.prefix(i));
    }
}

/// A batched delete starts with a sound log, and the log stays sound as long as
/// only requests are answered.
pub proof fn law_batched_delete_logs_are_sound<K, E>(
    route: Route,
    keys: Seq<K>,
    log: RemoveLog<K, E>,
    reply: Result<Seq<bool>, E>,
)
    requires
        log.sound(),
        log.step() is DeleteMany,
    ensures
        RemoveLog::<K, E>::begin(route, keys).sound(),
        log.answered(reply).sound(),
{
    let longer = log.answered(reply);
    assert(log.prefix(log.replies.len() as int) =~= log);
    assert forall|i: int| 0 <= i < longer.replies.len() implies (
    #[trigger] longer.prefix(i)).step() is DeleteMany by {
        assert(longer.prefix(i) =~= log.prefix(i));
    }
}

/// A lookup starts with a sound log, and the log stays sound as long as the
/// answers are ones to what was asked for.
pub proof fn law_lookup_logs_are_sound<K, V, E>(
    key: K,
    coalesced: bool,
    log: LookupLog<K, V, E>,
    reply: LookupReply<V, E>,
)
    requires
        log.sound(),
        log.step().fits(reply),
    ensures
        LookupLog::<K, V, E>::begin(key, coalesced).sound(),
        log.answered(reply).sound(),
{
    let longer = log.answered(reply);
    assert(log.prefix(log.replies.len() as int) =~= log);
    assert forall|i: int| 0 <= i < longer.replies.len() implies (
    #[trigger] longer.prefix(i)).step().fits(longer.replies[i]) by {
        assert(longer.prefix(i) =~= log.prefix(i));
        if i < log.replies.len() {
            assert(longer.replies[i] == log.replies[i]);
        }
    }
}

/// A load starts with a sound log, and the log stays sound as long as the
/// answers are ones to what was asked for.
pub proof fn law_load_logs_are_sound<K, V, E, L>(
    key: K,
    coalesced: bool,
    log: LoadLog<K, V, E, L>,
    reply: LoadReply<V, E, L>,
)
    requires
        log.sound(),
        log.step().fits(reply),
    ensures
        LoadLog::<K, V, E, L>::begin(key, coalesced).sound(),
        log.answered(reply).sound(),
{
    let longer = log.answered(reply);
    assert(log.prefix(log.replies.len() as int) =~= log);
    assert forall|i: int| 0 <= i < longer.replies.len() implies (
    #[trigger] longer.prefix(i)).step().fits(longer.replies[i]) by {
        assert(longer.prefix(i) =~= log.prefix(i));
        if i < log.replies.len() {
            assert(longer.replies[i] == log.replies[i]);
        }
    }
}

} // verus!
