use vstd::prelude::*;

use crate::info::{cpu_spec, mac_spec, ram_spec, swap_spec, ExtendedInfo};
use crate::machine::{downtime_spec, uptime_spec, MachineState};

verus! {

/// The rolling report window: thirty days of seconds.
pub const STATS_WINDOW_SECS: u64 = 2592000;

/// Where the rolling window ending at `now_utc` begins, clamped at the
/// epoch.
pub open spec fn window_start_spec(now_utc: u64) -> u64 {
    if now_utc >= STATS_WINDOW_SECS {
        (now_utc - STATS_WINDOW_SECS) as u64
    } else {
        0u64
    }
}

pub fn stats_window_start(now_utc: u64) -> (r: u64)
    ensures
        r == window_start_spec(now_utc),
{
    if now_utc >= STATS_WINDOW_SECS {
        now_utc - STATS_WINDOW_SECS
    } else {
        0
    }
}

/// Seconds a host spent up within the window; a host with no history spent
/// none.
pub open spec fn row_uptime(state: MachineState, since: int, now: int) -> int {
    if state.changes@.len() == 0 {
        0
    } else {
        uptime_spec(state.changes@, since, now)
    }
}

pub open spec fn row_downtime(state: MachineState, since: int, now: int) -> int {
    if state.changes@.len() == 0 {
        0
    } else {
        downtime_spec(state.changes@, since, now)
    }
}

/// A host earns a report row only when it is up now or was up at some point
/// of the window.
pub open spec fn include_row(state: MachineState, since: int, now: int) -> bool {
    row_uptime(state, since, now) != 0 || state.up_spec()
}

pub open spec fn hostname_text(info: Option<ExtendedInfo>) -> Seq<char> {
    match info {
        Some(i) => i.hostname@,
        None => Seq::empty(),
    }
}

pub open spec fn cpu_text(info: Option<ExtendedInfo>) -> Seq<char> {
    match info {
        Some(i) => match cpu_spec(i.cpuinfo@) {
            Some(s) => s,
            None => Seq::empty(),
        },
        None => Seq::empty(),
    }
}

pub open spec fn mac_text(info: Option<ExtendedInfo>) -> Seq<char> {
    match info {
        Some(i) => match mac_spec(i.ipaddr@) {
            Some(s) => s,
            None => Seq::empty(),
        },
        None => Seq::empty(),
    }
}

pub open spec fn ram_bytes(info: Option<ExtendedInfo>) -> u64 {
    match info {
        Some(i) => match ram_spec(i.meminfo@) {
            Some(v) => v,
            None => 0u64,
        },
        None => 0u64,
    }
}

pub open spec fn swap_bytes(info: Option<ExtendedInfo>) -> u64 {
    match info {
        Some(i) => match swap_spec(i.meminfo@) {
            Some(v) => v,
            None => 0u64,
        },
        None => 0u64,
    }
}

/// One line of the availability report, as plain values.
pub struct StatsRow {
    pub ip: u32,
    pub up: bool,
    pub uptime: u64,
    pub downtime: u64,
    pub last_change_utc: u64,
    pub last_checked_utc: u64,
    pub hostname: String,
    pub cpu: String,
    pub mem: u64,
    pub swap: u64,
    pub mac: String,
}

/// The report row of one host over the thirty-day window ending now, or
/// nothing for a host that was never up in the window and is down.
pub fn stats_row(ip: u32, state: &MachineState, now_utc: u64) -> (r: Option<StatsRow>)
    requires
        state.wf(),
    ensures
        r is Some <==> include_row(
            *state,
            window_start_spec(now_utc) as int,
            now_utc as int,
        ),
        r matches Some(row) ==> {
            let since = window_start_spec(now_utc) as int;
            let now = now_utc as int;
            &&& row.ip == ip
            &&& row.up == state.up_spec()
            &&& row.uptime == row_uptime(*state, since, now)
            &&& row.downtime == row_downtime(*state, since, now)
            &&& state.changes@.len() > 0 && row.last_change_utc == state.changes@.last()
            &&& row.last_checked_utc == state.last_checked
            &&& row.hostname@ == hostname_text(state.extended_info)
            &&& row.cpu@ == cpu_text(state.extended_info)
            &&& row.mem == ram_bytes(state.extended_info)
            &&& row.swap == swap_bytes(state.extended_info)
            &&& row.mac@ == mac_text(state.extended_info)
        },
{
    let since = stats_window_start(now_utc);
    let (up, uptime, downtime) = state.times_since(since, now_utc);
    if uptime == 0 && !up {
        return None;
    }
    proof {
        assert(state.changes@.len() > 0) by {
            if state.changes@.len() == 0 {
                assert(!state.up_spec());
            }
        }
    }
    let hostname = match &state.extended_info {
        Some(i) => i.hostname.clone(),
        None => String::new(),
    };
    let cpu = match &state.extended_info {
        Some(i) => match i.cpu() {
            Some(s) => s.to_owned(),
            None => String::new(),
        },
        None => String::new(),
    };
    let mem = match &state.extended_info {
        Some(i) => match i.ram() {
            Some(v) => v,
            None => 0,
        },
        None => 0,
    };
    let swap = match &state.extended_info {
        Some(i) => match i.swap() {
            Some(v) => v,
            None => 0,
        },
        None => 0,
    };
    let mac = match &state.extended_info {
        Some(i) => match i.mac() {
            Some(s) => s.to_owned(),
            None => String::new(),
        },
        None => String::new(),
    };
    Some(
        StatsRow {
            ip,
            up,
            uptime,
            downtime,
            last_change_utc: state.last_change(),
            last_checked_utc: state.last_checked(),
            hostname,
            cpu,
            mem,
            swap,
            mac,
        },
    )
}

/// A humane unit for an age: days over two days, hours over two hours,
/// minutes over two minutes, whole seconds otherwise, with the singular kept
/// apart for an age of at most one second.
#[derive(Clone, Copy, Debug, PartialEq, Eq, Structural)]
pub enum DurationUnit {
    Days,
    Hours,
    Minutes,
    Seconds,
    Second,
}

/// The value and unit an age is reported with.
pub fn duration_parts(seconds: u64) -> (r: (u64, DurationUnit))
    ensures
        seconds > 172800 ==> r == (seconds / 86400, DurationUnit::Days),
        7200 < seconds <= 172800 ==> r == (seconds / 3600, DurationUnit::Hours),
        120 < seconds <= 7200 ==> r == (seconds / 60, DurationUnit::Minutes),
        1 < seconds <= 120 ==> r == (seconds, DurationUnit::Seconds),
        seconds <= 1 ==> r == (seconds, DurationUnit::Second),
{
    if seconds > 86400 * 2 {
        (seconds / 86400, DurationUnit::Days)
    } else if seconds > 3600 * 2 {
        (seconds / 3600, DurationUnit::Hours)
    } else if seconds > 60 * 2 {
        (seconds / 60, DurationUnit::Minutes)
    } else if seconds > 1 {
        (seconds, DurationUnit::Seconds)
    } else {
        (seconds, DurationUnit::Second)
    }
}

} // verus!
