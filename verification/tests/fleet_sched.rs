use fleetwatch::fleet::{
    generate_ips, ip_from_octets, ip_octets, is_blacklisted, Fleet, InfoOutcome, UNIVERSE_BASE,
};
use fleetwatch::sched::{
    build_candidates, probe_timeout_secs, select_candidates, should_fetch_info, sleep_remainder,
    snapshot_due, sort_candidates, Candidate, Sweep, PROBE_POOL_SIZE, SWEEP_INTERVAL_SECS,
};

#[test]
fn octets_round_trip() {
    let ip = ip_from_octets(172, 29, 4, 250);
    assert_eq!(ip_octets(ip), (172, 29, 4, 250));
    assert_eq!(ip_from_octets(172, 29, 0, 0), UNIVERSE_BASE);
    assert_eq!(ip_octets(u32::MAX), (255, 255, 255, 255));
    assert_eq!(ip_octets(0), (0, 0, 0, 0));
}

#[test]
fn denylist_covers_subnets_and_known_bad_host() {
    assert!(is_blacklisted(ip_from_octets(172, 29, 0, 5)));
    assert!(is_blacklisted(ip_from_octets(172, 29, 33, 1)));
    assert!(is_blacklisted(ip_from_octets(172, 29, 4, 250)));
    assert!(!is_blacklisted(ip_from_octets(172, 29, 5, 5)));
    assert!(!is_blacklisted(ip_from_octets(172, 29, 4, 249)));
}

#[test]
fn universe_is_the_whole_network() {
    let ips = generate_ips();
    assert_eq!(ips.len(), 65536);
    assert_eq!(ips[0], UNIVERSE_BASE);
    assert_eq!(ips[65535], ip_from_octets(172, 29, 255, 255));
    assert_eq!(ips[4 * 256 + 250], ip_from_octets(172, 29, 4, 250));
}

#[test]
fn fleet_tracks_hosts_and_probe_results() {
    let mut fleet = Fleet::new();
    let a = ip_from_octets(172, 29, 5, 1);
    let b = ip_from_octets(172, 29, 5, 2);
    fleet.ensure_host(b);
    fleet.ensure_host(a);
    fleet.ensure_host(a);
    assert_eq!(fleet.len(), 2);
    assert!(fleet.find(a).is_some());
    assert!(fleet.find(b).is_some());
    assert!(fleet.find(ip_from_octets(172, 29, 5, 3)).is_none());

    fleet.apply_result(a, true, InfoOutcome::Unchanged, 100);
    let ia = fleet.find(a).unwrap();
    assert!(fleet.entries[ia].state.up());
    assert_eq!(fleet.entries[ia].state.last_checked(), 100);

    fleet.apply_result(a, false, InfoOutcome::Unchanged, 200);
    let ia = fleet.find(a).unwrap();
    assert!(!fleet.entries[ia].state.up());
    assert_eq!(fleet.entries[ia].state.changes, vec![100, 200]);

    let ib = fleet.find(b).unwrap();
    assert!(fleet.entries[ib].state.changes.is_empty());
}

#[test]
fn probe_result_updates_system_facts() {
    let mut fleet = Fleet::new();
    let a = ip_from_octets(172, 29, 5, 1);
    let info = fleetwatch::info::ExtendedInfo {
        hostname: "host-a".to_string(),
        cpuinfo: String::new(),
        meminfo: String::new(),
        ipaddr: String::new(),
    };
    fleet.apply_result(a, true, InfoOutcome::Loaded(info), 100);
    let ia = fleet.find(a).unwrap();
    let stored = fleet.entries[ia].state.extended_info.as_ref().unwrap();
    assert_eq!(stored.hostname, "host-a");

    fleet.apply_result(a, true, InfoOutcome::Unchanged, 200);
    let ia = fleet.find(a).unwrap();
    assert!(fleet.entries[ia].state.extended_info.is_some());

    fleet.apply_result(a, false, InfoOutcome::Failed, 300);
    let ia = fleet.find(a).unwrap();
    assert!(fleet.entries[ia].state.extended_info.is_none());
}

#[test]
fn inserting_a_known_host_replaces_its_entry() {
    let mut fleet = Fleet::new();
    let a = ip_from_octets(172, 29, 5, 1);
    fleet.apply_result(a, true, InfoOutcome::Unchanged, 100);
    let mut replacement = fleetwatch::machine::MachineState::default();
    replacement.checked(false, 700);
    fleet.insert_state(a, replacement);
    assert_eq!(fleet.len(), 1);
    let ia = fleet.find(a).unwrap();
    assert_eq!(fleet.entries[ia].state.changes, vec![700, 700]);
}

#[test]
fn an_empty_fleet_yields_an_empty_sweep() {
    let fleet = Fleet::new();
    let picked = select_candidates(&fleet);
    assert!(picked.is_empty());
    let mut sweep = Sweep::new(picked, 200);
    assert!(sweep.done());
    assert!(sweep.launch().is_none());
}

#[test]
fn denylisted_hosts_are_dropped_from_the_table() {
    let mut fleet = Fleet::new();
    fleet.ensure_host(ip_from_octets(172, 29, 0, 1));
    fleet.ensure_host(ip_from_octets(172, 29, 5, 1));
    fleet.ensure_host(ip_from_octets(172, 29, 33, 7));
    fleet.ensure_host(ip_from_octets(172, 29, 4, 250));
    fleet.ensure_host(ip_from_octets(172, 29, 9, 9));
    fleet.remove_blacklisted();
    assert_eq!(fleet.len(), 2);
    assert!(fleet.find(ip_from_octets(172, 29, 5, 1)).is_some());
    assert!(fleet.find(ip_from_octets(172, 29, 9, 9)).is_some());
    assert!(fleet.find(ip_from_octets(172, 29, 0, 1)).is_none());
}

fn cand(ip: u32, up: bool, last_checked: u64) -> Candidate {
    Candidate { ip, up, last_checked }
}

#[test]
fn priority_puts_down_hosts_first_and_stalest_first() {
    let v = vec![
        cand(1, true, 50),
        cand(2, false, 90),
        cand(3, true, 10),
        cand(4, false, 20),
    ];
    let sorted = sort_candidates(v);
    let ips: Vec<u32> = sorted.iter().map(|c| c.ip).collect();
    assert_eq!(ips, vec![4, 2, 3, 1]);
}

#[test]
fn candidates_mirror_the_fleet() {
    let mut fleet = Fleet::new();
    let a = ip_from_octets(172, 29, 5, 1);
    let b = ip_from_octets(172, 29, 5, 2);
    fleet.apply_result(a, true, InfoOutcome::Unchanged, 100);
    fleet.ensure_host(b);
    let cands = build_candidates(&fleet);
    assert_eq!(cands.len(), 2);
    assert_eq!(cands[0], cand(a, true, 100));
    assert_eq!(cands[1], cand(b, false, 0));
}

#[test]
fn selection_keeps_a_sixth_in_priority_order() {
    let mut fleet = Fleet::new();
    // twelve hosts; two should be selected: the stalest down hosts
    for i in 0..12u8 {
        let ip = ip_from_octets(172, 29, 5, i);
        let up = i % 2 == 0;
        fleet.apply_result(ip, up, InfoOutcome::Unchanged, 1000 + i as u64);
    }
    let picked = select_candidates(&fleet);
    assert_eq!(picked.len(), 2);
    assert!(!picked[0].up && !picked[1].up);
    assert_eq!(picked[0].last_checked, 1001);
    assert_eq!(picked[1].last_checked, 1003);
    assert_ne!(picked[0].ip, picked[1].ip);
}

#[test]
fn sweep_pool_hands_out_each_candidate_once_within_bounds() {
    let queue = vec![
        cand(1, false, 10),
        cand(2, false, 20),
        cand(3, true, 30),
        cand(4, true, 40),
        cand(5, true, 50),
    ];
    let mut sweep = Sweep::new(queue, 2);
    let first = sweep.launch().unwrap();
    let second = sweep.launch().unwrap();
    assert_eq!(first.ip, 1);
    assert_eq!(second.ip, 2);
    // the pool is full: nothing more may start
    assert!(sweep.launch().is_none());
    assert_eq!(sweep.in_flight_count(), 2);
    assert!(!sweep.done());
    // one probe finishes; exactly one replacement may start
    sweep.complete();
    let third = sweep.launch().unwrap();
    assert_eq!(third.ip, 3);
    assert!(sweep.launch().is_none());
    sweep.complete();
    sweep.complete();
    assert_eq!(sweep.in_flight_count(), 0);
    let fourth = sweep.launch().unwrap();
    let fifth = sweep.launch().unwrap();
    assert_eq!((fourth.ip, fifth.ip), (4, 5));
    assert!(sweep.launch().is_none());
    assert!(!sweep.done());
    sweep.complete();
    sweep.complete();
    assert!(sweep.done());
    // every host was handed out exactly once
    let mut seen = vec![first.ip, second.ip, third.ip, fourth.ip, fifth.ip];
    seen.sort();
    assert_eq!(seen, vec![1, 2, 3, 4, 5]);
}

#[test]
fn probe_policies_match_the_documented_values() {
    assert_eq!(probe_timeout_secs(true), 12);
    assert_eq!(probe_timeout_secs(false), 4);
    assert!(should_fetch_info(false, true));
    assert!(!should_fetch_info(true, true));
    assert!(!should_fetch_info(false, false));
    assert!(!should_fetch_info(true, false));
    assert!(snapshot_due(0));
    assert!(snapshot_due(500));
    assert!(!snapshot_due(1));
    assert!(!snapshot_due(499));
    assert_eq!(PROBE_POOL_SIZE, 200);
    assert_eq!(SWEEP_INTERVAL_SECS, 600);
}

#[test]
fn pause_after_a_pass_is_the_remainder_never_negative() {
    assert_eq!(sleep_remainder(600, 0), 600);
    assert_eq!(sleep_remainder(600, 599), 1);
    assert_eq!(sleep_remainder(600, 600), 0);
    assert_eq!(sleep_remainder(600, 10000), 0);
}
