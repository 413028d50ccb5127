use tank_matchmaker::report::Report;

const NORMAL_TEAM_SIZE: usize = 15;
const NORMAL_WAIT: u128 = 30_000_000_000;

#[test]
fn report_counts_abnormal_matches() {
    let mut report = Report::new();
    assert!(!report.record(15, 1_000, NORMAL_TEAM_SIZE, NORMAL_WAIT));
    assert!(report.record(12, 1_000, NORMAL_TEAM_SIZE, NORMAL_WAIT));
    assert!(report.record(15, NORMAL_WAIT + 1, NORMAL_TEAM_SIZE, NORMAL_WAIT));
    assert!(report.record(9, NORMAL_WAIT * 2, NORMAL_TEAM_SIZE, NORMAL_WAIT));
    assert!(!report.record(15, NORMAL_WAIT, NORMAL_TEAM_SIZE, NORMAL_WAIT));
    assert_eq!(report.match_count(), 5);
    assert_eq!(report.abnormal_team_size_count(), 2);
    assert_eq!(report.abnormal_wait_duration_count(), 2);
}

#[test]
fn report_starts_at_zero() {
    let report = Report::new();
    assert_eq!(report.match_count(), 0);
    assert_eq!(report.abnormal_team_size_count(), 0);
    assert_eq!(report.abnormal_wait_duration_count(), 0);
}
