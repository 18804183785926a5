use tierstore::{OnReadError, Probe, Promote, ReadFlow, ReadOutcome, ReadPolicy, ReadStep};

fn policy(promote: Promote, on_error: OnReadError) -> ReadPolicy {
    ReadPolicy { promote, on_error }
}

#[test]
fn flow_probes_down_and_promotes_up() {
    let mut flow = ReadFlow::new(3, policy(Promote::AllAbove, OnReadError::FallThrough));
    assert_eq!(flow.step(), ReadStep::Get { tier: 0 });
    flow.on_get(Probe::Miss);
    assert_eq!(flow.step(), ReadStep::Get { tier: 1 });
    flow.on_get(Probe::Hit);
    assert_eq!(flow.step(), ReadStep::Promote { tier: 0 });
    flow.on_promote();
    assert_eq!(flow.step(), ReadStep::Done(ReadOutcome::Hit { tier: 1 }));
}

#[test]
fn flow_reaches_as_far_as_the_policy_says() {
    for (promote, promotions) in [
        (Promote::Never, 0),
        (Promote::TopOnly, 1),
        (Promote::AllAbove, 2),
    ] {
        let mut flow = ReadFlow::new(3, policy(promote, OnReadError::FallThrough));
        flow.on_get(Probe::Miss);
        flow.on_get(Probe::Miss);
        flow.on_get(Probe::Hit);
        let mut tiers = Vec::new();
        while let ReadStep::Promote { tier } = flow.step() {
            tiers.push(tier);
            flow.on_promote();
        }
        assert_eq!(tiers, (0..promotions).collect::<Vec<usize>>());
        assert_eq!(flow.step(), ReadStep::Done(ReadOutcome::Hit { tier: 2 }));
    }
}

#[test]
fn flow_classifies_absence() {
    let mut confirmed = ReadFlow::new(2, policy(Promote::TopOnly, OnReadError::FallThrough));
    confirmed.on_get(Probe::Miss);
    confirmed.on_get(Probe::Miss);
    assert_eq!(confirmed.step(), ReadStep::Done(ReadOutcome::Miss));

    let mut open = ReadFlow::new(2, policy(Promote::TopOnly, OnReadError::FallThrough));
    open.on_get(Probe::Error);
    open.on_get(Probe::Miss);
    assert_eq!(open.step(), ReadStep::Done(ReadOutcome::Inconclusive));

    let mut aborted = ReadFlow::new(2, policy(Promote::TopOnly, OnReadError::FailFast));
    aborted.on_get(Probe::Miss);
    aborted.on_get(Probe::Error);
    assert_eq!(aborted.step(), ReadStep::Done(ReadOutcome::Failed { tier: 1 }));

    let empty = ReadFlow::new(0, policy(Promote::TopOnly, OnReadError::FallThrough));
    assert_eq!(empty.step(), ReadStep::Done(ReadOutcome::Miss));
}

#[test]
fn defaults_are_the_neutral_fallback_chain() {
    let neutral = tierstore::Policy::default();
    assert_eq!(neutral.read.promote, Promote::Never);
    assert_eq!(neutral.read.on_error, OnReadError::FallThrough);
    assert_eq!(neutral.write, tierstore::WriteMode::WriteThrough);
    assert_eq!(neutral.on_write_error, tierstore::OnWriteError::FailFast);
    assert!(!neutral.demote_displaced);
    assert_eq!(tierstore::Eviction::default(), tierstore::Eviction::Fifo);
}
