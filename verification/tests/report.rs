use tierstore::{DeleteReport, KeyStatus, ReadOneReport, ReadReport, RouterError, TierFailure};

fn failure(tier: usize) -> TierFailure<String> {
    TierFailure::new(tier, "flaky", "down".to_owned())
}

#[test]
fn statuses_expose_tier_and_value() {
    let hit = KeyStatus::Hit { tier: 2, value: 7 };
    assert_eq!(hit.tier(), Some(2));
    assert_eq!(hit.value(), Some(&7));
    assert_eq!(hit.into_value(), Some(7));
    let miss: KeyStatus<i32> = KeyStatus::Miss;
    assert_eq!(miss.tier(), None);
    assert_eq!(miss.value(), None);
    assert_eq!(KeyStatus::<i32>::Inconclusive.into_value(), None);
}

#[test]
fn failures_name_their_tier() {
    let failed = failure(3);
    assert_eq!(failed.tier(), 3);
    assert_eq!(failed.tier_name(), "flaky");
    assert_eq!(failed.source(), "down");
}

#[test]
fn single_reports_collapse() {
    let hit = ReadOneReport {
        status: KeyStatus::Hit { tier: 1, value: 7 },
        failures: vec![failure(0)],
    };
    assert!(!hit.is_complete());
    assert_eq!(hit.value(), Some(&7));
    assert!(matches!(hit.into_result(), Ok(Some(7))));

    let miss: ReadOneReport<i32, String> = ReadOneReport {
        status: KeyStatus::Miss,
        failures: vec![],
    };
    assert!(miss.is_complete());
    assert!(matches!(miss.into_result(), Ok(None)));

    let unknown: ReadOneReport<i32, String> = ReadOneReport {
        status: KeyStatus::Inconclusive,
        failures: vec![failure(0)],
    };
    match unknown.into_result() {
        Err(RouterError::Inconclusive(failures)) => assert_eq!(failures.len(), 1),
        other => panic!("expected an inconclusive read, got {other:?}"),
    }
}

#[test]
fn batch_reports_collapse() {
    let report: ReadReport<i32, String> = ReadReport {
        statuses: vec![KeyStatus::Hit { tier: 0, value: 1 }, KeyStatus::Miss],
        failures: vec![],
    };
    assert!(report.is_complete());
    assert!(!report.has_inconclusive());
    match report.into_result() {
        Ok(values) => assert_eq!(values, vec![Some(1), None]),
        Err(error) => panic!("complete report failed: {error:?}"),
    }

    // A failure that left no key open does not fail the batch.
    let routed: ReadReport<i32, String> = ReadReport {
        statuses: vec![KeyStatus::Hit { tier: 1, value: 1 }],
        failures: vec![failure(0)],
    };
    assert!(!routed.is_complete());
    assert!(routed.into_result().is_ok());

    let open: ReadReport<i32, String> = ReadReport {
        statuses: vec![KeyStatus::Hit { tier: 1, value: 1 }, KeyStatus::Inconclusive],
        failures: vec![failure(0)],
    };
    assert!(open.has_inconclusive());
    assert!(matches!(open.into_result(), Err(RouterError::Inconclusive(f)) if f.len() == 1));
}

#[test]
fn one_key_batches_unpack() {
    let report: ReadReport<i32, String> = ReadReport {
        statuses: vec![KeyStatus::Hit { tier: 1, value: 5 }],
        failures: vec![failure(0)],
    };
    let one = report.into_one();
    assert_eq!(one.status, KeyStatus::Hit { tier: 1, value: 5 });
    assert_eq!(one.failures.len(), 1);

    let none: ReadReport<i32, String> = ReadReport {
        statuses: vec![],
        failures: vec![],
    };
    assert_eq!(none.into_one().into_value(), None);
}

#[test]
fn delete_reports_collapse() {
    let report: DeleteReport<String> = DeleteReport {
        removed: vec![true, false],
        failures: vec![],
    };
    assert!(matches!(report.into_result(), Ok(flags) if flags == vec![true, false]));
    let partial = DeleteReport {
        removed: vec![true],
        failures: vec![failure(2)],
    };
    assert!(!partial.is_complete());
    assert!(matches!(partial.into_result(), Err(RouterError::Partial(f)) if f[0].tier() == 2));
}
