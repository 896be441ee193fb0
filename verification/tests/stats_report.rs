use fleetwatch::info::ExtendedInfo;
use fleetwatch::machine::MachineState;
use fleetwatch::stats::{duration_parts, stats_row, stats_window_start, DurationUnit};

#[test]
fn window_start_is_thirty_days_back_clamped() {
    assert_eq!(stats_window_start(0), 0);
    assert_eq!(stats_window_start(2591999), 0);
    assert_eq!(stats_window_start(2592000), 0);
    assert_eq!(stats_window_start(2592001), 1);
    assert_eq!(stats_window_start(10000000), 10000000 - 2592000);
}

#[test]
fn hosts_never_up_in_window_get_no_row() {
    let never = MachineState::default();
    assert!(stats_row(7, &never, 5000000).is_none());

    let mut down_long_ago = MachineState::default();
    down_long_ago.checked(true, 100);
    down_long_ago.checked(false, 200);
    // thirty-day window far past the up interval
    assert!(stats_row(7, &down_long_ago, 100000000).is_none());
    // but a currently-up host always gets a row
    let mut up_now = MachineState::default();
    up_now.checked(true, 100);
    assert!(stats_row(7, &up_now, 100000000).is_some());
}

#[test]
fn row_carries_window_split_and_facts() {
    let mut m = MachineState::default();
    m.checked(true, 3000000);
    m.checked(false, 3500000);
    m.extended_info = Some(ExtendedInfo {
        hostname: "host-a".to_string(),
        cpuinfo: "model name\t: CPU Z\n".to_string(),
        meminfo: "MemTotal: 2048 kB\nSwapTotal: 512 kB\n".to_string(),
        ipaddr: "    link/ether 01:02:03:04:05:06 brd ff\n".to_string(),
    });
    let now = 4000000u64;
    let row = stats_row(9, &m, now).expect("host was up in the window");
    assert_eq!(row.ip, 9);
    assert!(!row.up);
    // window starts at 1408000; up on [3000000, 3500000), down afterwards
    assert_eq!(row.uptime, 500000);
    assert_eq!(row.downtime, 500000);
    assert_eq!(row.last_change_utc, 3500000);
    assert_eq!(row.last_checked_utc, 3500000);
    assert_eq!(row.hostname, "host-a");
    assert_eq!(row.cpu, "CPU Z");
    assert_eq!(row.mem, 2048000);
    assert_eq!(row.swap, 512000);
    assert_eq!(row.mac, "01:02:03:04:05:06");
}

#[test]
fn row_defaults_when_facts_are_missing() {
    let mut m = MachineState::default();
    m.checked(true, 3000000);
    let row = stats_row(1, &m, 3000500).expect("up host gets a row");
    assert!(row.up);
    assert_eq!(row.hostname, "");
    assert_eq!(row.cpu, "");
    assert_eq!(row.mem, 0);
    assert_eq!(row.swap, 0);
    assert_eq!(row.mac, "");
    assert_eq!(row.uptime, 500);
    assert_eq!(row.downtime, 0);
}

#[test]
fn ages_pick_the_documented_units() {
    assert_eq!(duration_parts(0), (0, DurationUnit::Second));
    assert_eq!(duration_parts(1), (1, DurationUnit::Second));
    assert_eq!(duration_parts(2), (2, DurationUnit::Seconds));
    assert_eq!(duration_parts(120), (120, DurationUnit::Seconds));
    assert_eq!(duration_parts(121), (2, DurationUnit::Minutes));
    assert_eq!(duration_parts(7200), (120, DurationUnit::Minutes));
    assert_eq!(duration_parts(7201), (2, DurationUnit::Hours));
    assert_eq!(duration_parts(172800), (48, DurationUnit::Hours));
    assert_eq!(duration_parts(172801), (2, DurationUnit::Days));
    assert_eq!(duration_parts(10 * 86400), (10, DurationUnit::Days));
}
