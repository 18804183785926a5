//! Routed operations over in-memory stand-ins for tiers, each flow driven by
//! plain calls.
use std::cell::RefCell;
use std::rc::Rc;

use tierstore::{
    answer, Count, Counters, DeleteFlow, DeleteReport, DeleteStep, Displaced, ExistsStep, GetStep, KeyStatus,
    LoadStep, LookupStep, MemoryTier, OnReadError, OnWriteError, Policy, Promote, ReadManyFlow,
    ReadManyStep, ReadOneReport, ReadPolicy, ReadReport, RemoveManyFlow, RemoveStep, Router, RouterError, Tier,
    TieredCache, WriteFlow, WriteMode, WriteStep,
};

/// What a tier does when it is called.
trait Backend<K, V> {
    fn get(&mut self, key: &K) -> Result<Option<V>, String>;
    fn contains(&mut self, key: &K) -> Result<bool, String>;
    fn put(&mut self, key: K, value: V) -> Result<Displaced<K, V>, String>;
    fn delete(&mut self, key: &K) -> Result<bool, String>;

    fn get_many(&mut self, keys: &[K]) -> Result<Vec<Option<V>>, String> {
        keys.iter().map(|key| self.get(key)).collect()
    }

    fn put_many(&mut self, entries: Vec<(K, V)>) -> Result<Displaced<K, V>, String> {
        let mut displaced = Vec::new();
        for (key, value) in entries {
            displaced.extend(self.put(key, value)?);
        }
        Ok(displaced)
    }

    fn delete_many(&mut self, keys: &[K]) -> Result<Vec<bool>, String> {
        keys.iter().map(|key| self.delete(key)).collect()
    }
}

/// A shared handle to a tier.
struct Handle<K, V> {
    name: &'static str,
    backend: Rc<RefCell<dyn Backend<K, V>>>,
}

impl<K, V> Handle<K, V> {
    fn new<B: Backend<K, V> + 'static>(name: &'static str, backend: &Rc<RefCell<B>>) -> Self {
        let backend: Rc<RefCell<B>> = Rc::clone(backend);
        Handle { name, backend }
    }

    fn share(&self) -> Rc<RefCell<dyn Backend<K, V>>> {
        Rc::clone(&self.backend)
    }
}

impl<K, V> Tier for Handle<K, V> {
    type Key = K;
    type Value = V;
    type Error = String;

    fn name(&self) -> &str {
        self.name
    }
}

fn shared<B>(backend: B) -> Rc<RefCell<B>> {
    Rc::new(RefCell::new(backend))
}

impl<K: Eq + std::hash::Hash + Clone, V: Clone> Backend<K, V> for MemoryTier<K, V> {
    fn get(&mut self, key: &K) -> Result<Option<V>, String> {
        Ok(MemoryTier::get(self, key).expect("infallible"))
    }

    fn contains(&mut self, key: &K) -> Result<bool, String> {
        Ok(MemoryTier::contains(self, key).expect("infallible"))
    }

    fn put(&mut self, key: K, value: V) -> Result<Displaced<K, V>, String> {
        Ok(MemoryTier::put(self, key, value).expect("infallible"))
    }

    fn delete(&mut self, key: &K) -> Result<bool, String> {
        Ok(MemoryTier::delete(self, key).expect("infallible"))
    }

    fn get_many(&mut self, keys: &[K]) -> Result<Vec<Option<V>>, String> {
        Ok(MemoryTier::get_many(self, keys).expect("infallible"))
    }

    fn put_many(&mut self, entries: Vec<(K, V)>) -> Result<Displaced<K, V>, String> {
        Ok(MemoryTier::put_many(self, entries).expect("infallible"))
    }

    fn delete_many(&mut self, keys: &[K]) -> Result<Vec<bool>, String> {
        Ok(MemoryTier::delete_many(self, keys).expect("infallible"))
    }
}

/// Fails every call.
struct Failing;

impl<K, V> Backend<K, V> for Failing {
    fn get(&mut self, _key: &K) -> Result<Option<V>, String> {
        Err("down".to_owned())
    }

    fn contains(&mut self, _key: &K) -> Result<bool, String> {
        Err("down".to_owned())
    }

    fn put(&mut self, _key: K, _value: V) -> Result<Displaced<K, V>, String> {
        Err("down".to_owned())
    }

    fn delete(&mut self, _key: &K) -> Result<bool, String> {
        Err("down".to_owned())
    }

    fn get_many(&mut self, _keys: &[K]) -> Result<Vec<Option<V>>, String> {
        Err("down".to_owned())
    }

    fn put_many(&mut self, _entries: Vec<(K, V)>) -> Result<Displaced<K, V>, String> {
        Err("down".to_owned())
    }

    fn delete_many(&mut self, _keys: &[K]) -> Result<Vec<bool>, String> {
        Err("down".to_owned())
    }
}

/// Counts the keys it is asked for.
struct Counting<B> {
    inner: B,
    gets: usize,
}

impl<B> Counting<B> {
    fn new(inner: B) -> Self {
        Counting { inner, gets: 0 }
    }
}

impl<K, V, B: Backend<K, V>> Backend<K, V> for Counting<B> {
    fn get(&mut self, key: &K) -> Result<Option<V>, String> {
        self.gets += 1;
        self.inner.get(key)
    }

    fn contains(&mut self, key: &K) -> Result<bool, String> {
        self.inner.contains(key)
    }

    fn put(&mut self, key: K, value: V) -> Result<Displaced<K, V>, String> {
        self.inner.put(key, value)
    }

    fn delete(&mut self, key: &K) -> Result<bool, String> {
        self.inner.delete(key)
    }
}

/// Rejects values at a trust boundary: a rejected value is a failure.
struct Verified<B, F> {
    inner: B,
    check: F,
}

impl<K, V, B: Backend<K, V>, F: Fn(&V) -> bool> Backend<K, V> for Verified<B, F> {
    fn get(&mut self, key: &K) -> Result<Option<V>, String> {
        match self.inner.get(key)? {
            Some(value) if !(self.check)(&value) => Err("checksum mismatch".to_owned()),
            other => Ok(other),
        }
    }

    fn contains(&mut self, key: &K) -> Result<bool, String> {
        self.inner.contains(key)
    }

    fn put(&mut self, key: K, value: V) -> Result<Displaced<K, V>, String> {
        self.inner.put(key, value)
    }

    fn delete(&mut self, key: &K) -> Result<bool, String> {
        self.inner.delete(key)
    }
}

type Stack<K, V> = Router<Handle<K, V>>;

fn backend<K, V>(router: &Stack<K, V>, tier: usize) -> Rc<RefCell<dyn Backend<K, V>>> {
    router.tier(tier).share()
}

fn get<K: Clone, V: Clone>(
    router: &mut Stack<K, V>,
    key: &K,
) -> Result<Option<V>, RouterError<String>> {
    let (mut flow, mut step) = router.get(key);
    loop {
        step = match step {
            GetStep::Get { tier } => {
                let reply = backend(router, tier).borrow_mut().get(flow.key());
                flow.on_get(router, reply)
            }
            GetStep::Promote { tier } => {
                let value = flow.hit().expect("a promotion has a value").clone();
                let reply = backend(router, tier).borrow_mut().put(key.clone(), value);
                flow.on_put(router, reply)
            }
            GetStep::Demote { tier, key, value } => {
                let reply = backend(router, tier).borrow_mut().put(key, value);
                flow.on_put(router, reply)
            }
            GetStep::Done(result) => return result,
        };
    }
}

fn contains<K, V>(router: &mut Stack<K, V>, key: &K) -> Result<bool, RouterError<String>> {
    let (mut flow, mut step) = router.contains(key);
    loop {
        step = match step {
            ExistsStep::Exists { tier } => {
                let reply = backend(router, tier).borrow_mut().contains(flow.key());
                flow.on_exists(router, reply)
            }
            ExistsStep::Done(result) => return result,
        };
    }
}

fn drive_read<K: Clone, V: Clone>(
    router: &mut Stack<K, V>,
    started: (
        ReadManyFlow<'_, K, V, String>,
        ReadManyStep<K, V, String>,
    ),
) -> Result<ReadReport<V, String>, RouterError<String>> {
    let (mut flow, mut step) = started;
    loop {
        step = match step {
            ReadManyStep::GetMany { tier, pending } => {
                let keys = flow.keys_at(&pending);
                let reply = backend(router, tier).borrow_mut().get_many(&keys);
                flow.on_get_many(router, reply)
            }
            ReadManyStep::Promote { tier, hits } => {
                let entries = flow.entries_at(&hits);
                let reply = backend(router, tier).borrow_mut().put_many(entries);
                flow.on_put(router, reply)
            }
            ReadManyStep::Demote { tier, key, value } => {
                let reply = backend(router, tier).borrow_mut().put(key, value);
                flow.on_put(router, reply)
            }
            ReadManyStep::Done(result) => return result,
        };
    }
}

fn read_many<K: Clone, V: Clone>(
    router: &mut Stack<K, V>,
    keys: &[K],
) -> Result<ReadReport<V, String>, RouterError<String>> {
    let started = router.read_many(keys);
    drive_read(router, started)
}

fn read_one<K: Clone, V: Clone>(
    router: &mut Stack<K, V>,
    key: &K,
) -> Result<ReadOneReport<V, String>, RouterError<String>> {
    let started = router.read_one(key);
    drive_read(router, started).map(ReadReport::into_one)
}

fn drive_write<K: Clone, V: Clone>(
    router: &mut Stack<K, V>,
    started: (WriteFlow<K, V, String>, WriteStep<K, V, String>),
) -> Result<Displaced<K, V>, RouterError<String>> {
    let (mut flow, mut step) = started;
    loop {
        step = match step {
            WriteStep::Put { tier } => {
                let entries = flow.entries().clone();
                let reply = backend(router, tier).borrow_mut().put_many(entries);
                flow.on_put(router, reply)
            }
            WriteStep::Demote { tier, key, value } => {
                let reply = backend(router, tier).borrow_mut().put(key, value);
                flow.on_put(router, reply)
            }
            WriteStep::Delete { tier } => {
                let keys = flow.keys();
                let reply = backend(router, tier).borrow_mut().delete_many(&keys);
                flow.on_delete(router, reply.map(|_| ()))
            }
            WriteStep::Done(result) => return result,
        };
    }
}

fn put<K: Clone, V: Clone>(
    router: &mut Stack<K, V>,
    key: K,
    value: V,
) -> Result<Displaced<K, V>, RouterError<String>> {
    let started = router.put(key, value);
    drive_write(router, started)
}

fn put_many<K: Clone, V: Clone>(
    router: &mut Stack<K, V>,
    entries: Vec<(K, V)>,
) -> Result<Displaced<K, V>, RouterError<String>> {
    let started = router.put_many(entries);
    drive_write(router, started)
}

fn drive_delete<K, V>(
    router: &mut Stack<K, V>,
    started: (DeleteFlow<'_, K, String>, DeleteStep<String>),
) -> Result<bool, RouterError<String>> {
    let (mut flow, mut step) = started;
    loop {
        step = match step {
            DeleteStep::Delete { tier } => {
                let reply = backend(router, tier).borrow_mut().delete(flow.key());
                flow.on_delete(router, reply)
            }
            DeleteStep::Done(result) => return result,
        };
    }
}

fn delete<K, V>(router: &mut Stack<K, V>, key: &K) -> Result<bool, RouterError<String>> {
    let started = router.delete(key);
    drive_delete(router, started)
}

fn drive_remove<K, V>(
    router: &mut Stack<K, V>,
    started: (RemoveManyFlow<'_, K, String>, RemoveStep<String>),
) -> DeleteReport<String> {
    let (mut flow, mut step) = started;
    loop {
        step = match step {
            RemoveStep::DeleteMany { tier } => {
                let reply = backend(router, tier).borrow_mut().delete_many(flow.keys());
                flow.on_delete_many(router, reply)
            }
            RemoveStep::Done(report) => return report,
        };
    }
}

fn remove_many<K, V>(router: &mut Stack<K, V>, keys: &[K]) -> DeleteReport<String> {
    let started = router.remove_many(keys);
    drive_remove(router, started)
}

fn lookup<K: Clone, V: Clone>(
    cache: &mut TieredCache<Handle<K, V>>,
    key: &K,
) -> Result<ReadOneReport<V, String>, RouterError<String>> {
    let mut held = false;
    let (mut flow, mut step) = cache.lookup(key);
    loop {
        step = match step {
            LookupStep::Acquire => {
                held = true;
                flow.on_acquired()
            }
            LookupStep::Read => {
                let result = read_one(cache.router_mut(), flow.key());
                flow.on_read(result)
            }
            LookupStep::Release => {
                assert!(held);
                held = false;
                flow.on_released()
            }
            LookupStep::Done(result) => {
                assert!(!held);
                return result;
            }
        };
    }
}

fn cache_get<K: Clone, V: Clone>(
    cache: &mut TieredCache<Handle<K, V>>,
    key: &K,
) -> Result<Option<V>, RouterError<String>> {
    answer(lookup(cache, key))
}

fn get_or_load<K: Clone, V: Clone, L>(
    cache: &mut TieredCache<Handle<K, V>>,
    key: &K,
    load: impl FnOnce() -> Result<V, L>,
) -> Result<V, L> {
    let mut load = Some(load);
    let (mut flow, mut step) = cache.get_or_load(key);
    loop {
        step = match step {
            LoadStep::Probe => {
                let result = get(cache.router_mut(), flow.key());
                flow.on_probe(result)
            }
            LoadStep::Acquire => flow.on_acquired(),
            LoadStep::Load => {
                let load = load.take().expect("the loader runs once");
                flow.on_load(load())
            }
            LoadStep::Fill => {
                let value = flow.value().expect("a fill has a value").clone();
                let _ = put(cache.router_mut(), key.clone(), value);
                flow.on_filled()
            }
            LoadStep::Release => flow.on_released(),
            LoadStep::Done(result) => return result,
        };
    }
}

fn key(s: &str) -> String {
    s.to_owned()
}

fn val(s: &str) -> Vec<u8> {
    s.as_bytes().to_vec()
}

fn policy(promote: Promote, write: WriteMode, demote: bool) -> Policy {
    Policy {
        read: ReadPolicy {
            promote,
            on_error: OnReadError::FallThrough,
        },
        write,
        on_write_error: OnWriteError::FailFast,
        demote_displaced: demote,
    }
}

#[test]
fn hot_warm_cold_rollover_cache() {
    // Hot: two-entry in-memory tier. Warm: unbounded. Cold: a counting
    // wrapper standing in for a remote database.
    let hot = shared(MemoryTier::bounded(2));
    let warm = shared(MemoryTier::unbounded());
    let cold = shared(Counting::new(MemoryTier::unbounded()));
    for name in ["ada", "grace", "barbara"] {
        cold.borrow_mut()
            .put(key(name), val(&format!("record for {name}")))
            .expect("seed cold");
    }

    let mut cache = TieredCache::builder()
        .tier(Handle::new("hot", &hot))
        .tier(Handle::new("warm", &warm))
        .tier(Handle::new("cold", &cold))
        .build();

    // First read fetches from the remote and promotes into hot (exclusive
    // promotion: warm stays untouched).
    assert_eq!(
        cache_get(&mut cache, &key("ada")).expect("get ada"),
        Some(val("record for ada"))
    );
    assert_eq!(cold.borrow().gets, 1);
    assert_eq!(warm.borrow_mut().get(&key("ada")).expect("warm peek"), None);

    // Second read is a pure hot hit: the remote is not consulted again.
    assert_eq!(
        cache_get(&mut cache, &key("ada")).expect("get ada again"),
        Some(val("record for ada"))
    );
    assert_eq!(cold.borrow().gets, 1);

    // Two more distinct reads overflow the two-entry hot tier: "ada" (the
    // oldest) is displaced and must roll over into warm, not vanish.
    assert_eq!(
        cache_get(&mut cache, &key("grace")).expect("get grace"),
        Some(val("record for grace"))
    );
    assert_eq!(
        cache_get(&mut cache, &key("barbara")).expect("get barbara"),
        Some(val("record for barbara"))
    );
    assert_eq!(cold.borrow().gets, 3);
    assert_eq!(hot.borrow_mut().get(&key("ada")).expect("hot peek"), None);
    assert_eq!(
        warm.borrow_mut().get(&key("ada")).expect("warm peek"),
        Some(val("record for ada"))
    );

    // Reading the rolled-over key is served from warm (still no new remote
    // fetch) and it climbs back into hot.
    assert_eq!(
        cache_get(&mut cache, &key("ada")).expect("get ada from warm"),
        Some(val("record for ada"))
    );
    assert_eq!(cold.borrow().gets, 3);
    assert_eq!(
        hot.borrow_mut().get(&key("ada")).expect("hot peek"),
        Some(val("record for ada"))
    );

    // Write-through put lands everywhere down to the remote.
    let started = cache.put(key("mary"), val("record for mary"));
    drive_write(cache.router_mut(), started).expect("put mary");
    assert_eq!(
        cold.borrow_mut().get(&key("mary")).expect("cold peek"),
        Some(val("record for mary"))
    );

    // Invalidation removes the key from every tier, including the remote.
    let ada = key("ada");
    let started = cache.invalidate(&ada);
    assert!(drive_delete(cache.router_mut(), started).expect("invalidate"));
    assert_eq!(
        cache_get(&mut cache, &key("ada")).expect("get after invalidate"),
        None
    );
}

#[test]
fn batched_cache_round_trip() {
    let hot = shared(MemoryTier::bounded(2));
    let cold = shared(MemoryTier::unbounded());
    let mut cache = TieredCache::builder()
        .tier(Handle::new("hot", &hot))
        .tier(Handle::new("cold", &cold))
        .build();

    let started = cache.put_many(vec![
        (key("a"), val("1")),
        (key("b"), val("2")),
        (key("c"), val("3")),
    ]);
    drive_write(cache.router_mut(), started).expect("batched put");

    let wanted = [key("a"), key("b"), key("nope")];
    let started = cache.get_many(&wanted);
    let report = drive_read(cache.router_mut(), started).expect("batched get");
    assert!(report.is_complete());
    // A confirmed miss, not merely "no value".
    assert_eq!(report.statuses[2], KeyStatus::Miss);
    assert_eq!(
        report.into_values(),
        vec![Some(val("1")), Some(val("2")), None]
    );

    let unwanted = [key("a"), key("nope")];
    let started = cache.invalidate_many(&unwanted);
    let report = drive_remove(cache.router_mut(), started);
    assert!(report.is_complete());
    assert_eq!(report.removed, vec![true, false]);
    assert_eq!(
        cache_get(&mut cache, &key("a")).expect("get after invalidate"),
        None
    );
}

#[test]
fn single_lookup_reports_serving_tier_and_routed_failures() {
    let cold = shared(MemoryTier::unbounded());
    cold.borrow_mut().put(key("k"), val("v")).expect("seed cold");
    let mut cache = TieredCache::builder()
        .tier(Handle::new("failing", &shared(Failing)))
        .tier(Handle::new("cold", &cold))
        .single_flight(false)
        .build();

    let report = lookup(&mut cache, &key("k")).expect("lookup");
    assert_eq!(report.status.tier(), Some(1));
    assert_eq!(report.value(), Some(&val("v")));
    assert!(!report.is_complete());
    assert_eq!(report.failures.len(), 1);
    assert_eq!(report.failures[0].tier(), 0);
}

#[test]
fn get_or_load_fills_once_and_never_caches_errors() {
    let hot = shared(MemoryTier::unbounded());
    let mut cache: TieredCache<Handle<String, String>> =
        TieredCache::builder().tier(Handle::new("hot", &hot)).build();

    // Loader errors are returned and not cached.
    let err = get_or_load(&mut cache, &key("k"), || Err::<String, _>("origin down"));
    assert_eq!(err, Err("origin down"));
    assert_eq!(hot.borrow_mut().get(&key("k")).expect("hot peek"), None);

    // A successful load fills the tiers...
    let value = get_or_load(&mut cache, &key("k"), || Ok::<_, String>(key("v")));
    assert_eq!(value, Ok(key("v")));
    assert_eq!(
        hot.borrow_mut().get(&key("k")).expect("hot peek"),
        Some(key("v"))
    );

    // ...and subsequent calls are served without consulting the loader.
    let served = get_or_load(&mut cache, &key("k"), || {
        Err::<String, _>("loader must not run".to_owned())
    });
    assert_eq!(served, Ok(key("v")));
}

#[test]
fn get_or_load_coalesces_concurrent_loads() {
    let hot = shared(MemoryTier::unbounded());
    let mut cache: TieredCache<Handle<String, String>> =
        TieredCache::builder().tier(Handle::new("hot", &hot)).build();
    let wanted = key("k");
    let mut loads = 0;
    let mut owner: Option<usize> = None;
    let mut results: Vec<Option<Result<String, String>>> = vec![None; 4];

    // Four readers, one step at a time in turn; a reader that wants the lock
    // waits while another holds it.
    let mut flows = Vec::new();
    for _ in 0..4 {
        let (flow, step) = cache.get_or_load::<String>(&wanted);
        flows.push((flow, Some(step)));
    }
    while results.iter().any(Option::is_none) {
        for reader in 0..4 {
            let (flow, pending) = &mut flows[reader];
            let Some(step) = pending.take() else {
                continue;
            };
            *pending = match step {
                LoadStep::Probe => {
                    let result = get(cache.router_mut(), &wanted);
                    Some(flow.on_probe(result))
                }
                LoadStep::Acquire => {
                    if owner.is_none() {
                        owner = Some(reader);
                        Some(flow.on_acquired())
                    } else {
                        Some(LoadStep::Acquire)
                    }
                }
                LoadStep::Load => {
                    assert_eq!(owner, Some(reader));
                    loads += 1;
                    Some(flow.on_load(Ok(key("v"))))
                }
                LoadStep::Fill => {
                    let value = flow.value().expect("a fill has a value").clone();
                    let _ = put(cache.router_mut(), wanted.clone(), value);
                    Some(flow.on_filled())
                }
                LoadStep::Release => {
                    assert_eq!(owner, Some(reader));
                    owner = None;
                    Some(flow.on_released())
                }
                LoadStep::Done(result) => {
                    results[reader] = Some(result);
                    None
                }
            };
        }
    }
    for result in results {
        assert_eq!(result, Some(Ok(key("v"))));
    }
    assert_eq!(loads, 1, "concurrent misses must share one load");
}

#[test]
fn single_flight_coalesces_concurrent_misses() {
    let hot = shared(MemoryTier::unbounded());
    let cold = shared(Counting::new(MemoryTier::unbounded()));
    cold.borrow_mut().put(key("k"), val("v")).expect("seed cold");
    let mut cache = TieredCache::builder()
        .tier(Handle::new("hot", &hot))
        .tier(Handle::new("cold", &cold))
        .build();
    let wanted = key("k");

    let mut owner: Option<usize> = None;
    let mut served = Vec::new();
    let mut flows = Vec::new();
    for _ in 0..4 {
        let (flow, step) = cache.get(&wanted);
        flows.push((flow, Some(step)));
    }
    while served.len() < 4 {
        for reader in 0..4 {
            let (flow, pending) = &mut flows[reader];
            let Some(step) = pending.take() else {
                continue;
            };
            *pending = match step {
                LookupStep::Acquire => {
                    if owner.is_none() {
                        owner = Some(reader);
                        Some(flow.on_acquired())
                    } else {
                        Some(LookupStep::Acquire)
                    }
                }
                LookupStep::Read => {
                    assert_eq!(owner, Some(reader));
                    let result = read_one(cache.router_mut(), &wanted);
                    Some(flow.on_read(result))
                }
                LookupStep::Release => {
                    owner = None;
                    Some(flow.on_released())
                }
                LookupStep::Done(result) => {
                    served.push(answer(result).expect("cache get"));
                    None
                }
            };
        }
    }
    assert_eq!(served, vec![Some(val("v")); 4]);

    // One leader fetched and promoted; the other three waited for the lock
    // and were then served from hot.
    assert_eq!(
        cold.borrow().gets,
        1,
        "concurrent misses for one key must coalesce into a single cold fetch"
    );
}

#[test]
fn verification_rejects_corrupt_cold_values() {
    let hot = shared(MemoryTier::unbounded());
    let mut origin = MemoryTier::unbounded();
    origin.put(key("good"), val("data")).expect("seed");
    origin
        .put(key("bad"), b"corrupt payload".to_vec())
        .expect("seed");
    // Trust boundary: values served by the origin must pass the check once,
    // at the boundary.
    let cold = shared(Verified {
        inner: origin,
        check: |value: &Vec<u8>| !value.starts_with(b"corrupt"),
    });

    let mut cache = TieredCache::builder()
        .tier(Handle::new("hot", &hot))
        .tier(Handle::new("verified(memory)", &cold))
        .build();

    assert_eq!(
        cache_get(&mut cache, &key("good")).expect("verified get"),
        Some(val("data"))
    );

    // The corrupt value surfaces as the verified tier *failing*: the read is
    // inconclusive, never a wrong answer.
    match cache_get(&mut cache, &key("bad")) {
        Err(RouterError::Inconclusive(failures)) => {
            assert_eq!(failures.len(), 1);
            assert!(failures[0].tier_name().contains("verified"));
        }
        other => panic!("corrupt value must not be served, got {other:?}"),
    }
    // And it was never promoted into hot.
    assert_eq!(hot.borrow_mut().get(&key("bad")).expect("hot peek"), None);
}

#[test]
fn write_through_goes_bottom_up_and_reads_back() {
    let top = shared(MemoryTier::unbounded());
    let bottom = shared(MemoryTier::unbounded());
    let mut router = Router::builder()
        .tier(Handle::new("top", &top))
        .tier(Handle::new("bottom", &bottom))
        .build();
    let (mut flow, step) = router.put(1_u64, "one");
    assert!(matches!(step, WriteStep::Put { tier: 1 }));
    let step = flow.on_put(&mut router, Ok(vec![]));
    assert!(matches!(step, WriteStep::Put { tier: 0 }));
    let step = flow.on_put(&mut router, Ok(vec![]));
    assert!(matches!(step, WriteStep::Done(Ok(evicted)) if evicted.is_empty()));

    assert_eq!(put(&mut router, 1, "one").expect("put"), vec![]);
    assert_eq!(get(&mut router, &1).expect("get"), Some("one"));
    assert!(contains(&mut router, &1).expect("contains"));
    assert!(!contains(&mut router, &2).expect("contains"));
    assert_eq!(bottom.borrow_mut().get(&1), Ok(Some("one")));
    assert_eq!(top.borrow_mut().get(&1), Ok(Some("one")));
}

#[test]
fn batches_read_back_the_last_value() {
    let hot = shared(MemoryTier::bounded(1));
    let cold = shared(MemoryTier::unbounded());
    let mut router = Router::builder()
        .tier(Handle::new("hot", &hot))
        .tier(Handle::new("cold", &cold))
        .policy(policy(Promote::Never, WriteMode::WriteThrough, true))
        .build();
    put(&mut router, key("k"), val("old")).unwrap();

    // Writing `a` pushes the old value of `k` out of the hot tier before the
    // batch gets to `k`; it sinks, but stays below the new one.
    let batch = vec![(key("a"), val("1")), (key("k"), val("new"))];
    assert_eq!(put_many(&mut router, batch).unwrap(), vec![]);
    assert_eq!(cold.borrow().peek(&key("k")), Some(&val("old")));
    assert_eq!(get(&mut router, &key("k")).unwrap(), Some(val("new")));
    assert_eq!(get(&mut router, &key("a")).unwrap(), Some(val("1")));

    let repeated = vec![(key("x"), val("1")), (key("x"), val("2"))];
    assert_eq!(put_many(&mut router, repeated).unwrap(), vec![]);
    assert_eq!(get(&mut router, &key("x")).unwrap(), Some(val("2")));
}

#[test]
fn aborted_write_leaves_upper_tiers_alone() {
    let top = shared(MemoryTier::unbounded());
    let bottom = shared(MemoryTier::unbounded());
    let mut router = Router::builder()
        .tier(Handle::new("top", &top))
        .tier(Handle::new("middle", &shared(Failing)))
        .tier(Handle::new("bottom", &bottom))
        .build();
    match put(&mut router, 1_u64, "one") {
        Err(RouterError::Tier(failure)) => {
            assert_eq!(failure.tier(), 1);
            assert_eq!(failure.tier_name(), "middle");
            assert_eq!(failure.source(), "down");
        }
        other => panic!("expected the middle tier's failure, got {other:?}"),
    }
    assert_eq!(top.borrow_mut().get(&1), Ok(None));
    assert_eq!(bottom.borrow_mut().get(&1), Ok(Some("one")));
}

#[test]
fn best_effort_write_skips_failing_tiers() {
    let top = shared(MemoryTier::unbounded());
    let mut router = Router::builder()
        .policy(Policy {
            on_write_error: OnWriteError::BestEffort,
            ..Policy::default()
        })
        .tier(Handle::new("top", &top))
        .tier(Handle::new("bottom", &shared(Failing)))
        .build();
    assert_eq!(put(&mut router, 1_u64, "one").expect("put"), vec![]);
    assert_eq!(top.borrow_mut().get(&1), Ok(Some("one")));
    assert_eq!(router.stats()[1].errors, 1);
}

#[test]
fn writes_without_a_writable_tier_are_refused() {
    let origin: Rc<RefCell<MemoryTier<u64, &'static str>>> = shared(MemoryTier::unbounded());
    for write in [WriteMode::WriteThrough, WriteMode::WriteAround] {
        let mut router = Router::builder()
            .policy(policy(Promote::Never, write, false))
            .read_only_tier(Handle::new("origin", &origin))
            .build();
        assert!(matches!(
            put(&mut router, 1, "one"),
            Err(RouterError::ReadOnly)
        ));
        assert!(matches!(delete(&mut router, &1), Ok(false)));
    }
}

#[test]
fn read_only_tiers_are_never_written() {
    let local = shared(MemoryTier::bounded(1));
    let origin = shared(MemoryTier::unbounded());
    origin.borrow_mut().put(1_u64, "origin").expect("seed");
    let mut router = Router::builder()
        .policy(policy(Promote::AllAbove, WriteMode::WriteThrough, true))
        .tier(Handle::new("local", &local))
        .read_only_tier(Handle::new("origin", &origin))
        .build();
    assert_eq!(
        router.tier_names(),
        vec!["local".to_owned(), "origin (read-only)".to_owned()]
    );
    // Displaced entries pass over the origin and come back to the caller.
    assert_eq!(put(&mut router, 2, "two").expect("put"), vec![]);
    assert_eq!(put(&mut router, 3, "three").expect("put"), vec![(2, "two")]);
    assert_eq!(origin.borrow().len(), 1);
    // A deleted key that the origin holds is served again.
    assert_eq!(get(&mut router, &1).expect("get"), Some("origin"));
    assert!(delete(&mut router, &1).expect("delete"));
    assert_eq!(get(&mut router, &1).expect("get"), Some("origin"));
}

#[test]
fn displaced_entries_cascade_and_fall_off_the_bottom() {
    let top = shared(MemoryTier::bounded(1));
    let middle = shared(MemoryTier::bounded(1));
    let mut router = Router::builder()
        .policy(policy(Promote::Never, WriteMode::WriteThrough, true))
        .tier(Handle::new("top", &top))
        .tier(Handle::new("middle", &middle))
        .build();
    assert_eq!(put(&mut router, 1_u64, "one").expect("put"), vec![]);
    // Middle takes `2` and displaces `1`, which falls off the bottom; then
    // top takes `2` and displaces its own copy of `1`, which sinks into the
    // middle and displaces `2` from there.
    assert_eq!(
        put(&mut router, 2, "two").expect("put"),
        vec![(1, "one"), (2, "two")]
    );
    assert_eq!(top.borrow_mut().get(&2), Ok(Some("two")));
    assert_eq!(middle.borrow_mut().get(&1), Ok(Some("one")));
    assert_eq!(get(&mut router, &2).expect("get"), Some("two"));

    // Without demotion the displaced entries come straight back.
    let single = shared(MemoryTier::bounded(1));
    let mut plain = Router::builder()
        .tier(Handle::new("single", &single))
        .build();
    put(&mut plain, 1_u64, "one").expect("put");
    assert_eq!(put(&mut plain, 2, "two").expect("put"), vec![(1, "one")]);
}

#[test]
fn write_around_writes_the_bottom_and_invalidates_above() {
    let top = shared(MemoryTier::unbounded());
    let origin = shared(MemoryTier::unbounded());
    let bottom = shared(MemoryTier::unbounded());
    top.borrow_mut().put(1_u64, "stale").expect("seed");
    let mut router = Router::builder()
        .policy(policy(Promote::Never, WriteMode::WriteAround, true))
        .tier(Handle::new("top", &top))
        .tier(Handle::new("bottom", &bottom))
        .read_only_tier(Handle::new("origin", &origin))
        .build();
    assert_eq!(put(&mut router, 1, "fresh").expect("put"), vec![]);
    assert_eq!(top.borrow_mut().get(&1), Ok(None));
    assert_eq!(get(&mut router, &1).expect("get"), Some("fresh"));
    let stats = router.stats();
    assert_eq!((stats[0].puts, stats[0].deletes), (0, 1));
    assert_eq!((stats[1].puts, stats[1].deletes), (1, 0));

    assert_eq!(
        put_many(&mut router, vec![(2, "two"), (3, "three")]).expect("put"),
        vec![]
    );
    assert_eq!(router.stats()[0].deletes, 3);
    assert_eq!(router.stats()[1].puts, 3);
}

#[test]
fn failed_invalidation_is_partial() {
    let bottom = shared(MemoryTier::unbounded());
    let mut router = Router::builder()
        .policy(policy(Promote::Never, WriteMode::WriteAround, false))
        .tier(Handle::new("first", &shared(Failing)))
        .tier(Handle::new("second", &shared(Failing)))
        .tier(Handle::new("bottom", &bottom))
        .build();
    match put(&mut router, 1_u64, "one") {
        Err(RouterError::Partial(failures)) => {
            let tiers: Vec<usize> = failures.iter().map(|failure| failure.tier()).collect();
            assert_eq!(tiers, vec![0, 1]);
        }
        other => panic!("expected a partial write, got {other:?}"),
    }
    assert_eq!(bottom.borrow_mut().get(&1), Ok(Some("one")));

    // The bottom write is the only real one: it always fails loudly.
    let mut dead: Stack<u64, &str> = Router::builder()
        .policy(Policy {
            on_write_error: OnWriteError::BestEffort,
            ..policy(Promote::Never, WriteMode::WriteAround, false)
        })
        .tier(Handle::new("dead", &shared(Failing)))
        .build();
    assert!(matches!(
        put(&mut dead, 1, "one"),
        Err(RouterError::Tier(failure)) if failure.tier() == 0
    ));
}

#[test]
fn misses_are_honest() {
    let empty: Rc<RefCell<MemoryTier<u64, &'static str>>> = shared(MemoryTier::unbounded());
    let full = shared(MemoryTier::unbounded());
    full.borrow_mut().put(1, "one").expect("seed");

    let mut router = Router::builder()
        .tier(Handle::new("empty", &empty))
        .tier(Handle::new("failing", &shared(Failing)))
        .build();
    match get(&mut router, &1) {
        Err(RouterError::Inconclusive(failures)) => {
            assert_eq!(failures.len(), 1);
            assert_eq!(failures[0].tier(), 1);
        }
        other => panic!("expected an inconclusive read, got {other:?}"),
    }
    assert!(matches!(
        contains(&mut router, &1),
        Err(RouterError::Inconclusive(failures)) if failures.len() == 1
    ));
    let report = read_many(&mut router, &[1, 2]).expect("falls through");
    assert_eq!(
        report.statuses,
        vec![KeyStatus::Inconclusive, KeyStatus::Inconclusive]
    );
    assert!(matches!(
        report.into_result(),
        Err(RouterError::Inconclusive(_))
    ));

    // A hit below a failing tier is still a hit.
    let mut routed = Router::builder()
        .tier(Handle::new("failing", &shared(Failing)))
        .tier(Handle::new("full", &full))
        .build();
    assert_eq!(get(&mut routed, &1).expect("get"), Some("one"));
    assert!(contains(&mut routed, &1).expect("contains"));
}

#[test]
fn fail_fast_reads_stop_at_the_first_failure() {
    let full = shared(MemoryTier::unbounded());
    full.borrow_mut().put(1_u64, "one").expect("seed");
    let mut router = Router::builder()
        .policy(Policy {
            read: ReadPolicy {
                promote: Promote::Never,
                on_error: OnReadError::FailFast,
            },
            ..Policy::default()
        })
        .tier(Handle::new("failing", &shared(Failing)))
        .tier(Handle::new("full", &full))
        .build();
    assert!(matches!(
        get(&mut router, &1),
        Err(RouterError::Tier(failure)) if failure.tier_name() == "failing"
    ));
    assert!(matches!(
        contains(&mut router, &1),
        Err(RouterError::Tier(failure)) if failure.tier() == 0
    ));
    assert!(matches!(
        read_many(&mut router, &[1]),
        Err(RouterError::Tier(failure)) if failure.tier() == 0
    ));
    assert!(matches!(
        answer(read_one(&mut router, &1)),
        Err(RouterError::Tier(_))
    ));
}

#[test]
fn batches_probe_only_what_is_missing_and_agree_with_single_reads() {
    let top = shared(Counting::new(MemoryTier::unbounded()));
    let bottom = shared(Counting::new(MemoryTier::unbounded()));
    top.borrow_mut().put(1_u64, "top").expect("seed");
    bottom.borrow_mut().put(1, "shadowed").expect("seed");
    bottom.borrow_mut().put(2, "bottom").expect("seed");
    let mut router = Router::builder()
        .tier(Handle::new("top", &top))
        .tier(Handle::new("bottom", &bottom))
        .build();
    let report = read_many(&mut router, &[3, 1, 2]).expect("read");
    assert_eq!(
        report.statuses,
        vec![
            KeyStatus::Miss,
            KeyStatus::Hit {
                tier: 0,
                value: "top"
            },
            KeyStatus::Hit {
                tier: 1,
                value: "bottom"
            },
        ]
    );
    assert_eq!((top.borrow().gets, bottom.borrow().gets), (3, 2));
    let stats = router.stats();
    assert_eq!((stats[0].hits, stats[0].misses), (1, 2));
    assert_eq!((stats[1].hits, stats[1].misses), (1, 1));
    for (wanted, value) in [(1, Some("top")), (2, Some("bottom")), (3, None)] {
        assert_eq!(get(&mut router, &wanted).expect("get"), value);
        let one = read_one(&mut router, &wanted).expect("read");
        assert_eq!(one.into_value(), value);
    }
    assert!(read_many(&mut router, &[]).expect("read").statuses.is_empty());
}

#[test]
fn batched_hits_are_promoted_together() {
    let top = shared(MemoryTier::bounded(2));
    let middle = shared(MemoryTier::unbounded());
    let bottom = shared(MemoryTier::unbounded());
    top.borrow_mut().put(9_u64, "nine").expect("seed");
    middle.borrow_mut().put(1, "one").expect("seed");
    bottom.borrow_mut().put(2, "two").expect("seed");
    bottom.borrow_mut().put(3, "three").expect("seed");
    let mut router = Router::builder()
        .policy(policy(Promote::AllAbove, WriteMode::WriteThrough, true))
        .tier(Handle::new("top", &top))
        .tier(Handle::new("middle", &middle))
        .tier(Handle::new("bottom", &bottom))
        .build();
    let report = read_many(&mut router, &[2, 1, 3]).expect("read");
    assert_eq!(
        report.into_values(),
        vec![Some("two"), Some("one"), Some("three")]
    );
    // `1` climbs to the top first; then `2` and `3` push `9` and `1` down,
    // and are copied into the middle as well.
    assert_eq!(top.borrow().list(None, 9).expect("infallible").keys, vec![2, 3]);
    let mut kept = middle.borrow().list(None, 9).expect("infallible").keys;
    kept.sort_unstable();
    assert_eq!(kept, vec![1, 2, 3, 9]);
    let stats = router.stats();
    assert_eq!((stats[0].puts, stats[1].puts), (3, 4));
}

#[test]
fn failed_promotions_do_not_fail_reads() {
    let bottom = shared(MemoryTier::unbounded());
    bottom.borrow_mut().put(1_u64, "one").expect("seed");
    let mut router = Router::builder()
        .policy(policy(Promote::AllAbove, WriteMode::WriteThrough, true))
        .tier(Handle::new("top", &shared(Failing)))
        .tier(Handle::new("bottom", &bottom))
        .build();
    assert_eq!(get(&mut router, &1).expect("get"), Some("one"));
    // One failed probe and one failed promotion.
    assert_eq!(router.stats()[0].errors, 2);
    assert_eq!(
        read_many(&mut router, &[1]).expect("read").into_values(),
        vec![Some("one")]
    );
    assert_eq!(router.stats()[0].errors, 4);
}

#[test]
fn promotion_skips_read_only_tiers() {
    let snapshot: Rc<RefCell<MemoryTier<u64, &'static str>>> = shared(MemoryTier::unbounded());
    let top = shared(MemoryTier::unbounded());
    let bottom = shared(MemoryTier::unbounded());
    bottom.borrow_mut().put(1, "one").expect("seed");
    let mut router = Router::builder()
        .policy(policy(Promote::AllAbove, WriteMode::WriteThrough, true))
        .read_only_tier(Handle::new("snapshot", &snapshot))
        .tier(Handle::new("top", &top))
        .tier(Handle::new("bottom", &bottom))
        .build();
    assert_eq!(get(&mut router, &1).expect("get"), Some("one"));
    assert!(snapshot.borrow().is_empty());
    assert_eq!(top.borrow().len(), 1);
    assert_eq!(router.stats()[0].puts, 0);
}

#[test]
fn deletes_attempt_every_writable_tier() {
    let top = shared(MemoryTier::unbounded());
    let bottom = shared(MemoryTier::unbounded());
    top.borrow_mut().put(1_u64, "one").expect("seed");
    bottom.borrow_mut().put(1, "one").expect("seed");
    let mut router = Router::builder()
        .tier(Handle::new("top", &top))
        .tier(Handle::new("middle", &shared(Failing)))
        .tier(Handle::new("bottom", &bottom))
        .build();
    match delete(&mut router, &1) {
        Err(RouterError::Partial(failures)) => {
            assert_eq!(failures.len(), 1);
            assert_eq!(failures[0].tier(), 1);
        }
        other => panic!("expected a partial delete, got {other:?}"),
    }
    assert!(top.borrow().is_empty());
    assert!(bottom.borrow().is_empty());

    bottom.borrow_mut().put(2, "two").expect("seed");
    let report = remove_many(&mut router, &[1, 2]);
    assert_eq!(report.removed, vec![false, true]);
    assert!(!report.is_complete());
    assert!(matches!(report.into_result(), Err(RouterError::Partial(f)) if f.len() == 1));
    let stats = router.stats();
    assert_eq!((stats[0].deletes, stats[1].errors, stats[2].deletes), (3, 2, 3));
}

#[test]
fn flags_of_a_batched_delete_are_combined() {
    let top = shared(MemoryTier::unbounded());
    let bottom = shared(MemoryTier::unbounded());
    top.borrow_mut().put(1_u64, "one").expect("seed");
    bottom.borrow_mut().put(2, "two").expect("seed");
    let mut router = Router::builder()
        .tier(Handle::new("top", &top))
        .tier(Handle::new("bottom", &bottom))
        .build();
    let report = remove_many(&mut router, &[1, 2, 3]);
    assert_eq!(report.removed, vec![true, true, false]);
    assert!(matches!(report.into_result(), Ok(flags) if flags.len() == 3));
}

#[test]
fn stats_describe_every_tier() {
    let local: Rc<RefCell<MemoryTier<u64, &'static str>>> = shared(MemoryTier::unbounded());
    let mut router = Router::builder()
        .tier(Handle::new("local", &local))
        .read_only_tier(Handle::new("origin", &local))
        .build();
    assert_eq!(router.tier_count(), 2);
    assert_eq!(router.policy(), Policy::default());
    assert_eq!(router.name(), "router");
    put(&mut router, 1, "one").expect("put");
    put_many(&mut router, vec![(2, "two"), (3, "three")]).expect("put");
    get(&mut router, &1).expect("get");
    get(&mut router, &9).expect("get");
    contains(&mut router, &2).expect("contains");
    delete(&mut router, &1).expect("delete");
    let stats = router.stats();
    assert_eq!(stats[0].name, "local");
    assert!(!stats[0].read_only);
    assert!(stats[1].read_only);
    assert_eq!(
        (
            stats[0].hits,
            stats[0].misses,
            stats[0].errors,
            stats[0].puts,
            stats[0].deletes
        ),
        (2, 1, 0, 3, 1)
    );
    assert_eq!((stats[1].hits, stats[1].misses), (0, 1));
}

#[test]
fn counters_wrap_around() {
    let mut counter = u64::MAX;
    Counters::bump(&mut counter, 2);
    assert_eq!(counter, 1);
    assert_eq!(Counters::default().puts, 0);

    let local: Rc<RefCell<MemoryTier<u64, u64>>> = shared(MemoryTier::unbounded());
    let mut router = Router::builder()
        .tier(Handle::new("local", &local))
        .build();
    router.record(0, Count::Hits, u64::MAX);
    router.record(0, Count::Hits, 3);
    assert_eq!(router.stats()[0].hits, 2);
}

#[test]
fn caches_start_from_the_cache_policy() {
    let hot: Rc<RefCell<MemoryTier<u64, u64>>> = shared(MemoryTier::unbounded());
    let cache = TieredCache::builder()
        .tier(Handle::new("hot", &hot))
        .read_only_tier(Handle::new("origin", &hot))
        .build();
    let preset = TieredCache::<Handle<u64, u64>>::default_policy();
    assert_eq!(cache.router().policy(), preset);
    assert_eq!(preset.read.promote, Promote::TopOnly);
    assert_eq!(preset.read.on_error, OnReadError::FallThrough);
    assert_eq!(preset.write, WriteMode::WriteThrough);
    assert_eq!(preset.on_write_error, OnWriteError::BestEffort);
    assert!(preset.demote_displaced);
    assert_eq!(cache.stats().len(), 2);
    assert!(matches!(cache.lookup(&1).1, LookupStep::Acquire));

    let plain = TieredCache::builder()
        .policy(Policy::default())
        .single_flight(false)
        .tier(Handle::new("hot", &hot))
        .build();
    assert_eq!(plain.router().policy(), Policy::default());
    assert!(matches!(plain.lookup(&1).1, LookupStep::Read));
}

#[test]
fn cache_operations_route_through_the_hierarchy() {
    let hot = shared(MemoryTier::unbounded());
    let mut cache = TieredCache::builder()
        .tier(Handle::new("hot", &hot))
        .build();
    let started = cache.put(1_u64, "one");
    assert_eq!(drive_write(cache.router_mut(), started).expect("put"), vec![]);
    let started = cache.put_many(vec![(2, "two")]);
    drive_write(cache.router_mut(), started).expect("put");
    assert_eq!(hot.borrow().len(), 2);
    let wanted = [1, 2, 3];
    let started = cache.get_many(&wanted);
    let report = drive_read(cache.router_mut(), started).expect("read");
    assert_eq!(report.into_values(), vec![Some("one"), Some("two"), None]);
    assert!(matches!(cache.contains(&1).1, ExistsStep::Exists { tier: 0 }));
    assert!(matches!(
        cache.invalidate(&1).1,
        DeleteStep::Delete { tier: 0 }
    ));
    assert!(matches!(
        cache.invalidate_many(&wanted).1,
        RemoveStep::DeleteMany { tier: 0 }
    ));
}

#[test]
fn uncoalesced_loads_take_no_lock() {
    let hot: Rc<RefCell<MemoryTier<u64, &'static str>>> = shared(MemoryTier::unbounded());
    let cache = TieredCache::builder()
        .single_flight(false)
        .tier(Handle::new("hot", &hot))
        .build();
    let wanted = 1;
    let (mut flow, step) = cache.get_or_load::<String>(&wanted);
    assert!(matches!(step, LoadStep::Probe));
    // A failed probe counts as a miss.
    assert!(matches!(
        flow.on_probe(Err(RouterError::Inconclusive(vec![]))),
        LoadStep::Load
    ));
    assert!(flow.value().is_none());
    assert!(matches!(flow.on_load(Ok("loaded")), LoadStep::Fill));
    assert_eq!(flow.value(), Some(&"loaded"));
    assert!(matches!(flow.on_filled(), LoadStep::Done(Ok("loaded"))));

    let (mut failing, _) = cache.get_or_load::<String>(&wanted);
    failing.on_probe(Ok(None));
    assert!(matches!(
        failing.on_load(Err("down".to_owned())),
        LoadStep::Done(Err(error)) if error == "down"
    ));
}

#[test]
fn followers_reuse_the_leaders_fill() {
    let hot: Rc<RefCell<MemoryTier<u64, &'static str>>> = shared(MemoryTier::unbounded());
    let cache = TieredCache::builder()
        .tier(Handle::new("hot", &hot))
        .build();
    let wanted = 1;
    let (mut flow, _) = cache.get_or_load::<String>(&wanted);
    assert!(matches!(flow.on_probe(Ok(None)), LoadStep::Acquire));
    assert!(matches!(flow.on_acquired(), LoadStep::Probe));
    assert!(matches!(flow.on_probe(Ok(Some("filled"))), LoadStep::Release));
    assert!(matches!(flow.on_released(), LoadStep::Done(Ok("filled"))));

    // A failed load gives the lock back before the error is returned.
    let (mut failing, _) = cache.get_or_load::<&str>(&wanted);
    failing.on_probe(Ok(None));
    failing.on_acquired();
    failing.on_probe(Ok(None));
    assert!(matches!(failing.on_load(Err("down")), LoadStep::Release));
    assert!(matches!(failing.on_released(), LoadStep::Done(Err("down"))));
}

#[test]
fn a_full_hot_tier_does_not_bring_the_stampede_back() {
    let hot = shared(MemoryTier::bounded(1));
    let warm = shared(MemoryTier::unbounded());
    let cold = shared(Counting::new(MemoryTier::unbounded()));
    hot.borrow_mut().put(9_u64, "old").expect("seed");
    cold.borrow_mut().put(1, "one").expect("seed");
    let mut cache = TieredCache::builder()
        .tier(Handle::new("hot", &hot))
        .tier(Handle::new("warm", &warm))
        .tier(Handle::new("cold", &cold))
        .build();
    let mut tiers = Vec::new();
    for _ in 0..3 {
        let report = lookup(&mut cache, &1).expect("lookup");
        tiers.push(report.status.tier());
        assert_eq!(report.into_value(), Some("one"));
    }
    assert_eq!(tiers, vec![Some(2), Some(0), Some(0)]);
    assert_eq!(cold.borrow().gets, 1);
    assert_eq!(warm.borrow_mut().get(&9), Ok(Some("old")));
}

#[test]
fn a_batch_of_one_is_a_single_write() {
    for write in [WriteMode::WriteThrough, WriteMode::WriteAround] {
        for demote in [false, true] {
            let build = || {
                let top = shared(MemoryTier::bounded(1));
                let bottom = shared(MemoryTier::bounded(2));
                let router = Router::builder()
                    .policy(policy(Promote::TopOnly, write, demote))
                    .tier(Handle::new("top", &top))
                    .tier(Handle::new("bottom", &bottom))
                    .build();
                (router, top, bottom)
            };
            let (mut single, single_top, single_bottom) = build();
            let (mut batched, batched_top, batched_bottom) = build();
            for (key, value) in [(1_u64, "a"), (2, "b"), (1, "c"), (3, "d"), (4, "e")] {
                let one = put(&mut single, key, value).expect("put");
                let many = put_many(&mut batched, vec![(key, value)]).expect("put");
                assert_eq!(one, many);
            }
            for (one, many) in [(&single_top, &batched_top), (&single_bottom, &batched_bottom)] {
                let one = one.borrow().list(None, 9).expect("list").keys;
                assert_eq!(one, many.borrow().list(None, 9).expect("list").keys);
            }
            for (one, many) in single.stats().iter().zip(batched.stats()) {
                assert_eq!((one.puts, one.deletes), (many.puts, many.deletes));
            }
        }
    }
}

#[test]
fn no_key_is_lost_silently() {
    for demote in [false, true] {
        for promote in [Promote::Never, Promote::TopOnly, Promote::AllAbove] {
            let top = shared(MemoryTier::bounded(1));
            let bottom = shared(MemoryTier::bounded(2));
            let mut router = Router::builder()
                .policy(policy(promote, WriteMode::WriteThrough, demote))
                .tier(Handle::new("top", &top))
                .tier(Handle::new("bottom", &bottom))
                .build();
            let mut known: Vec<u64> = Vec::new();
            for wanted in 0..6 {
                let evicted = put(&mut router, wanted, "v").expect("put");
                known.push(wanted);
                // What is gone was handed back.
                for gone in known.clone() {
                    if !contains(&mut router, &gone).expect("contains") {
                        assert!(evicted.iter().any(|(key, _)| *key == gone));
                        known.retain(|key| *key != gone);
                    }
                }
            }
            assert!(known.contains(&5));
        }
    }
}

#[test]
fn origins_serve_keys_deleted_in_a_batch_again() {
    let local = shared(MemoryTier::unbounded());
    let origin = shared(MemoryTier::unbounded());
    origin.borrow_mut().put(1_u64, "one").expect("seed");
    origin.borrow_mut().put(2, "two").expect("seed");
    let mut cache = TieredCache::builder()
        .tier(Handle::new("local", &local))
        .read_only_tier(Handle::new("origin", &origin))
        .build();
    let wanted = [1, 2];
    for _ in 0..2 {
        let started = cache.get_many(&wanted);
        let report = drive_read(cache.router_mut(), started).expect("read");
        assert_eq!(
            report.statuses,
            vec![
                KeyStatus::Hit {
                    tier: 1,
                    value: "one"
                },
                KeyStatus::Hit {
                    tier: 1,
                    value: "two"
                },
            ]
        );
        assert_eq!(local.borrow().len(), 2);
        let started = cache.invalidate_many(&wanted);
        let report = drive_remove(cache.router_mut(), started);
        assert_eq!(report.removed, vec![true, true]);
        assert!(local.borrow().is_empty());
        assert_eq!(origin.borrow().len(), 2);
    }
    let started = cache.put(1, "mine");
    assert_eq!(drive_write(cache.router_mut(), started).expect("put"), vec![]);
    assert_eq!(origin.borrow_mut().get(&1), Ok(Some("one")));
}

#[test]
fn reads_with_provenance_agree_with_plain_reads() {
    let full = shared(MemoryTier::unbounded());
    full.borrow_mut().put(1_u64, "one").expect("seed");
    let mut router = Router::builder()
        .tier(Handle::new("first", &shared(Failing)))
        .tier(Handle::new("full", &full))
        .tier(Handle::new("third", &shared(Failing)))
        .build();
    let report = read_one(&mut router, &1).expect("falls through");
    assert_eq!(
        report.status,
        KeyStatus::Hit {
            tier: 1,
            value: "one"
        }
    );
    // The tier below the hit was not asked.
    assert_eq!(report.failures.iter().map(|f| f.tier()).collect::<Vec<_>>(), vec![0]);
    assert_eq!(get(&mut router, &1).expect("get"), Some("one"));

    // Where the key is nowhere, every failed tier is listed, top-down.
    let report = read_one(&mut router, &2).expect("falls through");
    assert_eq!(report.status, KeyStatus::Inconclusive);
    let listed: Vec<usize> = report.failures.iter().map(|f| f.tier()).collect();
    assert_eq!(listed, vec![0, 2]);
    match get(&mut router, &2) {
        Err(RouterError::Inconclusive(failures)) => {
            assert_eq!(failures.iter().map(|f| f.tier()).collect::<Vec<_>>(), listed);
        }
        other => panic!("expected an inconclusive read, got {other:?}"),
    }
    let report = read_many(&mut router, &[1, 2]).expect("falls through");
    assert_eq!(report.failures.iter().map(|f| f.tier()).collect::<Vec<_>>(), listed);
}

#[test]
fn inclusive_promotion_fills_every_tier_above() {
    let stack = || {
        let tiers: Vec<Rc<RefCell<MemoryTier<u64, &'static str>>>> =
            (0..4).map(|_| shared(MemoryTier::unbounded())).collect();
        tiers[3].borrow_mut().put(1, "one").expect("seed");
        tiers[2].borrow_mut().put(2, "two").expect("seed");
        let router = Router::builder()
            .policy(policy(Promote::AllAbove, WriteMode::WriteThrough, true))
            .tier(Handle::new("first", &tiers[0]))
            .read_only_tier(Handle::new("second", &tiers[1]))
            .tier(Handle::new("third", &tiers[2]))
            .tier(Handle::new("fourth", &tiers[3]))
            .build();
        (tiers, router)
    };
    let (tiers, mut router) = stack();
    assert_eq!(get(&mut router, &1).expect("get"), Some("one"));
    assert_eq!(get(&mut router, &2).expect("get"), Some("two"));
    let (batched, mut many) = stack();
    let report = read_many(&mut many, &[1, 2, 1]).expect("read");
    assert_eq!(report.into_values(), vec![Some("one"), Some("two"), Some("one")]);
    for tiers in [tiers, batched] {
        // Every writable tier above the serving one, and no other.
        let held = |tier: usize, key: u64| tiers[tier].borrow_mut().contains(&key).expect("ask");
        assert_eq!([held(0, 1), held(1, 1), held(2, 1), held(3, 1)], [true, false, true, true]);
        assert_eq!([held(0, 2), held(1, 2), held(2, 2), held(3, 2)], [true, false, true, false]);
        assert_eq!(tiers[0].borrow_mut().get(&1), Ok(Some("one")));
        assert_eq!(tiers[2].borrow_mut().get(&1), Ok(Some("one")));
        assert_eq!(tiers[0].borrow_mut().get(&2), Ok(Some("two")));
    }
}

#[test]
fn inclusive_caches_fetch_once_too() {
    let hot = shared(MemoryTier::bounded(1));
    let warm = shared(MemoryTier::bounded(1));
    let cold = shared(Counting::new(MemoryTier::unbounded()));
    hot.borrow_mut().put(8_u64, "eight").expect("seed");
    warm.borrow_mut().put(9, "nine").expect("seed");
    cold.borrow_mut().put(1, "one").expect("seed");
    let mut cache = TieredCache::builder()
        .policy(policy(Promote::AllAbove, WriteMode::WriteThrough, true))
        .tier(Handle::new("hot", &hot))
        .tier(Handle::new("warm", &warm))
        .tier(Handle::new("cold", &cold))
        .build();
    for _ in 0..3 {
        assert_eq!(cache_get(&mut cache, &1).expect("get"), Some("one"));
    }
    assert_eq!(cold.borrow().gets, 1);
    assert_eq!(hot.borrow_mut().get(&1), Ok(Some("one")));
    assert_eq!(warm.borrow_mut().get(&1), Ok(Some("one")));
}
