use fleetwatch::machine::MachineState;

fn fresh() -> MachineState {
    MachineState::default()
}

#[test]
fn parity_follows_latest_check() {
    let mut m = fresh();
    m.checked(true, 100);
    assert!(m.up());
    m.checked(true, 200);
    assert!(m.up());
    m.checked(false, 300);
    assert!(!m.up());
    m.checked(true, 400);
    assert!(m.up());
    assert_eq!(m.changes, vec![100, 300, 400]);
}

#[test]
fn bootstrap_down_on_fresh_entry() {
    let mut m = fresh();
    m.checked(false, 1000);
    assert!(!m.up());
    assert_eq!(m.changes, vec![1000, 1000]);
    assert_eq!(m.times_since(999, 1000), (false, 0, 0));
}

#[test]
fn repeated_same_observation_appends_nothing() {
    let mut m = fresh();
    m.checked(true, 100);
    let after_first = m.changes.clone();
    m.checked(true, 150);
    assert_eq!(m.changes, after_first);
    m.checked(false, 200);
    let after_down = m.changes.clone();
    m.checked(false, 250);
    assert_eq!(m.changes, after_down);
    assert_eq!(m.changes, vec![100, 200]);
    assert_eq!(m.last_checked(), 250);
}

#[test]
fn window_splits_into_uptime_and_downtime() {
    let mut m = fresh();
    m.checked(true, 100);
    m.checked(false, 200);
    m.checked(true, 300);
    // window [150, 400): up on [150,200) and [300,400), down on [200,300)
    let (up, uptime, downtime) = m.times_since(150, 400);
    assert!(up);
    assert_eq!(uptime, 150);
    assert_eq!(downtime, 100);
    assert_eq!(uptime + downtime, 400 - 150);
}

#[test]
fn point_query_at_last_transition_matches_current_state() {
    let mut m = fresh();
    m.checked(true, 500);
    assert_eq!(m.up_at(500), m.up());
    m.checked(false, 600);
    assert_eq!(m.up_at(600), m.up());
    assert!(!m.up_at(600));
}

#[test]
fn two_hosts_scenario_window_accounting() {
    // host A: probed up at t=100, then down at t=200
    let mut a = fresh();
    a.checked(true, 100);
    a.checked(false, 200);
    assert_eq!(a.changes, vec![100, 200]);
    // the window [0, 200) holds the whole up interval and nothing after it
    assert_eq!(a.times_since(0, 200), (false, 100, 0));
    // extending the window past the down transition shows the down time
    assert_eq!(a.times_since(0, 300), (false, 100, 100));
    // host B: never probed; contributes nothing
    let b = fresh();
    assert_eq!(b.times_since(0, 200), (false, 0, 0));
}

#[test]
fn never_seen_host_reports_recent_change_and_stays_down() {
    let m = fresh();
    let before = chrono::Utc::now().timestamp() as u64;
    let reported = m.last_change();
    let after = chrono::Utc::now().timestamp() as u64;
    assert!(before <= reported && reported <= after + 1);
    assert!(!m.up());
    assert!(!m.up_at(0));
    assert!(!m.up_at(before));
    assert!(!m.up_at(u64::MAX));
    assert_eq!(m.times_since(0, before), (false, 0, 0));
}

#[test]
fn point_queries_between_transitions() {
    let mut m = fresh();
    m.checked(true, 100);
    m.checked(false, 200);
    assert!(!m.up_at(50));
    assert!(m.up_at(100));
    assert!(m.up_at(150));
    assert!(!m.up_at(200));
    assert!(!m.up_at(5000));
}

#[test]
fn bootstrap_pair_is_down_at_its_own_instant() {
    let mut m = fresh();
    m.checked(false, 700);
    assert!(!m.up_at(700));
    assert!(!m.up_at(699));
    assert!(!m.up_at(701));
}

#[test]
fn last_change_reports_last_transition() {
    let mut m = fresh();
    m.checked(true, 100);
    m.checked(false, 250);
    assert_eq!(m.last_change(), 250);
    m.checked(false, 300);
    assert_eq!(m.last_change(), 250);
    assert_eq!(m.last_checked(), 300);
}

#[test]
fn window_before_any_transition_counts_nothing() {
    let mut m = fresh();
    m.checked(true, 1000);
    assert_eq!(m.times_since(0, 500), (true, 0, 0));
}

#[test]
fn wellformedness_check_accepts_and_rejects() {
    let mut m = fresh();
    m.checked(true, 100);
    m.checked(false, 200);
    assert!(m.check_wf());
    let unsorted = MachineState { changes: vec![200, 100], last_checked: 300, extended_info: None };
    assert!(!unsorted.check_wf());
    let stale_check = MachineState { changes: vec![100, 200], last_checked: 150, extended_info: None };
    assert!(!stale_check.check_wf());
}

#[test]
fn default_entry_is_empty() {
    let m = fresh();
    assert!(m.changes.is_empty());
    assert_eq!(m.last_checked(), 0);
    assert!(m.extended_info.is_none());
}
