use reposcan::fetch::classify_fetch;
use reposcan::fetch::needs_fallback;
use reposcan::fetch::usable_names;
use reposcan::fetch::FallbackRun;
use reposcan::fetch::FetchOutcome;
use reposcan::fetch::FetchReport;
use reposcan::status::classify_status;

fn cv(s: &str) -> Vec<char> {
    s.chars().collect()
}

fn cs(v: &[char]) -> String {
    v.iter().collect()
}

#[test]
fn direct_success_needs_no_fallback() {
    assert!(!needs_fallback(true));
    assert_eq!(classify_fetch(true, None), FetchOutcome::Direct);
}

#[test]
fn fallback_exit_status_decides_the_outcome() {
    assert!(needs_fallback(false));
    assert_eq!(
        classify_fetch(false, Some(FallbackRun::Completed { exit_ok: true })),
        FetchOutcome::ViaFallback
    );
    assert_eq!(
        classify_fetch(false, Some(FallbackRun::Completed { exit_ok: false })),
        FetchOutcome::Failed { command_started: true }
    );
    assert_eq!(
        classify_fetch(false, Some(FallbackRun::SpawnFailed)),
        FetchOutcome::Failed { command_started: false }
    );
}

#[test]
fn one_failing_remote_does_not_stop_the_batch() {
    let mut report = FetchReport::new();
    report.record(cv("origin"), false, Some(FallbackRun::Completed { exit_ok: false }));
    report.record(cv("mirror"), true, None);
    report.record(cv("backup"), false, Some(FallbackRun::Completed { exit_ok: true }));
    assert_eq!(report.len(), 3);
    assert_eq!(cs(report.remote_at(0)), "origin");
    assert_eq!(report.outcome_at(0), FetchOutcome::Failed { command_started: true });
    assert_eq!(cs(report.remote_at(1)), "mirror");
    assert_eq!(report.outcome_at(1), FetchOutcome::Direct);
    assert_eq!(cs(report.remote_at(2)), "backup");
    assert_eq!(report.outcome_at(2), FetchOutcome::ViaFallback);
}

#[test]
fn unresolvable_names_are_dropped_silently() {
    let items = vec![Some(cv("main")), None, Some(cv("dev"))];
    let names = usable_names(&items);
    assert_eq!(names.len(), 2);
    assert_eq!(cs(&names[0]), "main");
    assert_eq!(cs(&names[1]), "dev");
}

#[test]
fn clean_repository_is_reported_clean() {
    let report = classify_status(true, &vec![true, true]);
    assert!(report.clean);
    assert_eq!(report.changed, 0);
}

#[test]
fn one_changed_entry_is_reported_unclean_with_count_one() {
    let report = classify_status(true, &vec![true, false, true]);
    assert!(!report.clean);
    assert_eq!(report.changed, 1);
}

#[test]
fn pending_operation_is_unclean_even_without_changes() {
    let report = classify_status(false, &Vec::new());
    assert!(!report.clean);
    assert_eq!(report.changed, 0);
}

#[test]
fn ignored_entries_do_not_count_as_changes() {
    let report = classify_status(true, &vec![true, true, true]);
    assert!(report.clean);
    let report = classify_status(true, &vec![false, false]);
    assert!(!report.clean);
    assert_eq!(report.changed, 2);
}
