use vstd::prelude::*;

use crate::clock;
use crate::info::ExtendedInfo;

verus! {

/// Transition timestamps are kept in non-decreasing order.
pub open spec fn sorted_times(cs: Seq<u64>) -> bool {
    forall|i: int, j: int| 0 <= i <= j < cs.len() ==> cs[i] <= cs[j]
}

/// A host is up exactly when an odd number of transitions has been recorded:
/// the first transition marks "became up".
pub open spec fn parity_up(cs: Seq<u64>) -> bool {
    cs.len() % 2 == 1
}

/// What one completed check does to the transition log: append `now` when the
/// observed state differs from the recorded one; on the very first check of a
/// host that is already down, append `now` twice, standing for a zero-length
/// up interval, so that interval arithmetic is well defined for hosts never
/// seen up.
pub open spec fn record_spec(cs: Seq<u64>, up: bool, now: u64) -> Seq<u64> {
    if up != parity_up(cs) {
        cs.push(now)
    } else if !up && cs.len() == 0 {
        cs.push(now).push(now)
    } else {
        cs
    }
}

/// How many transitions happened at or before `t`.
pub open spec fn count_le(cs: Seq<u64>, t: u64) -> int
    decreases cs.len(),
{
    if cs.len() == 0 {
        0
    } else {
        count_le(cs.drop_last(), t) + if cs.last() <= t {
            1int
        } else {
            0int
        }
    }
}

/// Length of the overlap of `[a, b)` with the window `[since, now)`.
pub open spec fn seg(a: int, b: int, since: int, now: int) -> int {
    let lo = if a > since {
        a
    } else {
        since
    };
    let hi = if b < now {
        b
    } else {
        now
    };
    if hi > lo {
        hi - lo
    } else {
        0
    }
}

/// Time within `[since, now)` during which the alternating state is true,
/// where the state on `[cs[0], cs[1])` is `up0` and flips at each transition;
/// the interval opened by the last transition runs to `now`. Time before
/// `cs[0]` contributes nothing.
pub open spec fn state_time(cs: Seq<u64>, up0: bool, since: int, now: int) -> int
    decreases cs.len(),
{
    if cs.len() == 0 {
        0
    } else if cs.len() == 1 {
        if up0 {
            seg(cs[0] as int, now, since, now)
        } else {
            0
        }
    } else {
        (if up0 {
            seg(cs[0] as int, cs[1] as int, since, now)
        } else {
            0
        }) + state_time(cs.drop_first(), !up0, since, now)
    }
}

/// Seconds of the window `[since, now)` spent up.
pub open spec fn uptime_spec(cs: Seq<u64>, since: int, now: int) -> int {
    state_time(cs, true, since, now)
}

/// Seconds of the window `[since, now)` spent down (after the first
/// transition).
pub open spec fn downtime_spec(cs: Seq<u64>, since: int, now: int) -> int {
    state_time(cs, false, since, now)
}

pub proof fn lemma_state_time_nonneg(cs: Seq<u64>, up0: bool, since: int, now: int)
    ensures
        state_time(cs, up0, since, now) >= 0,
    decreases cs.len(),
{
    if cs.len() > 1 {
        lemma_state_time_nonneg(cs.drop_first(), !up0, since, now);
    }
}

/// Splitting `[a, now)` at a point `b` after `a` splits its overlap with the
/// window exactly, the window itself ending at `now`.
proof fn lemma_seg_additive(a: int, b: int, since: int, now: int)
    requires
        a <= b,
    ensures
        seg(a, b, since, now) + seg(b, now, since, now) == seg(a, now, since, now),
{
}

/// The up share and the down share of a window partition the overlap of
/// `[cs[0], now)` with the window.
pub proof fn lemma_state_time_total(cs: Seq<u64>, since: int, now: int)
    requires
        sorted_times(cs),
        cs.len() > 0,
    ensures
        state_time(cs, true, since, now) + state_time(cs, false, since, now) == seg(
            cs[0] as int,
            now,
            since,
            now,
        ),
    decreases cs.len(),
{
    if cs.len() > 1 {
        let tail = cs.drop_first();
        assert(sorted_times(tail)) by {
            assert(forall|i: int, j: int|
                0 <= i <= j < tail.len() ==> cs[i + 1] <= cs[j + 1] && tail[i] == cs[i + 1]
                    && tail[j] == cs[j + 1]);
        }
        lemma_state_time_total(tail, since, now);
        lemma_seg_additive(cs[0] as int, cs[1] as int, since, now);
    }
}

/// Up time plus down time equals the window length whenever the window starts
/// at or after the first recorded transition.
pub proof fn lemma_window_partition(cs: Seq<u64>, since: u64, now: u64)
    requires
        sorted_times(cs),
        cs.len() > 0,
        cs[0] <= since <= now,
    ensures
        uptime_spec(cs, since as int, now as int) + downtime_spec(cs, since as int, now as int)
            == now - since,
{
    lemma_state_time_total(cs, since as int, now as int);
}

/// Recording a check always leaves the parity equal to the observed state.
pub proof fn lemma_record_parity(cs: Seq<u64>, up: bool, now: u64)
    ensures
        parity_up(record_spec(cs, up, now)) == up,
        record_spec(cs, up, now).len() > 0,
{
}

/// Recording the same observation twice appends nothing the second time:
/// the log only grows on a change of state.
pub proof fn lemma_record_idempotent(cs: Seq<u64>, up: bool, t1: u64, t2: u64)
    ensures
        record_spec(record_spec(cs, up, t1), up, t2) == record_spec(cs, up, t1),
{
    lemma_record_parity(cs, up, t1);
}

/// When every transition lies at or before `t`, all of them count.
pub proof fn lemma_count_le_all(cs: Seq<u64>, t: u64)
    requires
        forall|i: int| 0 <= i < cs.len() ==> cs[i] <= t,
    ensures
        count_le(cs, t) == cs.len(),
    decreases cs.len(),
{
    if cs.len() > 0 {
        lemma_count_le_all(cs.drop_last(), t);
    }
}

/// In a sorted log split at `k` between the transitions at or before `t` and
/// those after it, exactly `k` transitions count.
pub proof fn lemma_count_le_split(cs: Seq<u64>, t: u64, k: int)
    requires
        0 <= k <= cs.len(),
        forall|i: int| 0 <= i < k ==> cs[i] <= t,
        forall|i: int| k <= i < cs.len() ==> cs[i] > t,
    ensures
        count_le(cs, t) == k,
    decreases cs.len(),
{
    if cs.len() > 0 {
        let head = cs.drop_last();
        if k == cs.len() {
            lemma_count_le_split(head, t, k - 1);
        } else {
            lemma_count_le_split(head, t, k);
        }
    }
}

/// Standing at the instant of the last transition, the point query agrees
/// with the current parity.
pub proof fn lemma_up_at_last(cs: Seq<u64>)
    requires
        sorted_times(cs),
        cs.len() > 0,
    ensures
        (count_le(cs, cs.last()) % 2 == 1) == parity_up(cs),
{
    lemma_count_le_all(cs, cs.last());
}

/// Neighbour-wise order over a whole log amounts to full sortedness.
proof fn lemma_adjacent_sorted(cs: Seq<u64>)
    requires
        forall|k: int| 0 <= k < cs.len() - 1 ==> #[trigger] cs[k] <= cs[k + 1],
    ensures
        sorted_times(cs),
    decreases cs.len(),
{
    if cs.len() > 1 {
        let head = cs.drop_last();
        assert forall|k: int| 0 <= k < head.len() - 1 implies #[trigger] head[k] <= head[k + 1] by {
            assert(cs[k] <= cs[k + 1]);
        }
        lemma_adjacent_sorted(head);
        assert forall|i: int, j: int| 0 <= i <= j < cs.len() implies cs[i] <= cs[j] by {
            if j < cs.len() - 1 {
                assert(head[i] <= head[j]);
            } else if i < j {
                assert(head[i] <= head[j - 1]);
                assert(cs[j - 1] <= cs[j]);
            }
        }
    }
}

/// A host with no recorded transitions is down, both now and at every
/// instant one may ask about.
pub proof fn lemma_no_history_down(t: u64)
    ensures
        !parity_up(Seq::<u64>::empty()),
        count_le(Seq::<u64>::empty(), t) == 0,
{
}

/// Per-host liveness ledger: an append-only log of up/down transition
/// timestamps, the time of the most recent check, and the last known system
/// facts.
#[derive(Debug)]
pub struct MachineState {
    /// Transition instants in non-decreasing order; the first one marks the
    /// instant the host was first seen up.
    pub changes: Vec<u64>,
    /// When the host was last probed, whether or not its state changed.
    pub last_checked: u64,
    pub extended_info: Option<ExtendedInfo>,
}

impl MachineState {
    /// The internal invariant: transitions are ordered, and none is more
    /// recent than the last completed check.
    pub open spec fn wf(self) -> bool {
        &&& sorted_times(self.changes@)
        &&& self.changes@.len() > 0 ==> self.changes@.last() <= self.last_checked
    }

    pub open spec fn up_spec(self) -> bool {
        parity_up(self.changes@)
    }

    /// Record the outcome of one completed probe at time `now_utc`.
    pub fn checked(&mut self, up: bool, now_utc: u64)
        requires
            old(self).wf(),
            now_utc >= old(self).last_checked,
        ensures
            final(self).wf(),
            final(self).changes@ == record_spec(old(self).changes@, up, now_utc),
            final(self).last_checked == now_utc,
            final(self).extended_info == old(self).extended_info,
            final(self).up_spec() == up,
    {
        if up != self.up() {
            self.changes.push(now_utc);
        } else if !up && self.changes.len() == 0 {
            self.changes.push(now_utc);
            self.changes.push(now_utc);
        }
        self.last_checked = now_utc;
    }

    pub fn up(&self) -> (r: bool)
        ensures
            r == self.up_spec(),
    {
        self.changes.len() % 2 == 1
    }

    /// Was the host up at time `time_utc`? A transition at exactly `time_utc`
    /// counts as already taken. Runs in O(log n).
    pub fn up_at(&self, time_utc: u64) -> (r: bool)
        requires
            self.wf(),
        ensures
            r == (count_le(self.changes@, time_utc) % 2 == 1),
    {
        let cs = &self.changes;
        let mut lo: usize = 0;
        let mut hi: usize = cs.len();
        while lo < hi
            invariant
                lo <= hi <= cs@.len(),
                sorted_times(cs@),
                forall|i: int| 0 <= i < lo ==> cs@[i] <= time_utc,
                forall|i: int| hi <= i < cs@.len() ==> cs@[i] > time_utc,
            decreases hi - lo,
        {
            let mid = lo + (hi - lo) / 2;
            if cs[mid] <= time_utc {
                lo = mid + 1;
            } else {
                hi = mid;
            }
        }
        proof {
            lemma_count_le_split(cs@, time_utc, lo as int);
        }
        lo % 2 == 1
    }

    /// The instant of the most recent transition; a host with no recorded
    /// transitions reports the present, so that it never shows an absurd age.
    pub fn last_change(&self) -> (r: u64)
        ensures
            self.changes@.len() > 0 ==> r == self.changes@.last(),
    {
        let n = self.changes.len();
        if n > 0 {
            self.changes[n - 1]
        } else {
            clock::now_utc()
        }
    }

    pub fn last_checked(&self) -> (r: u64)
        ensures
            r == self.last_checked,
    {
        self.last_checked
    }

    /// Does this entry satisfy the ledger invariant? Lets data restored from
    /// elsewhere be validated before it is trusted.
    pub fn check_wf(&self) -> (r: bool)
        ensures
            r == self.wf(),
    {
        let n = self.changes.len();
        if n == 0 {
            return true;
        }
        let mut i: usize = 0;
        while i + 1 < n
            invariant
                0 <= i < n == self.changes@.len(),
                forall|k: int| 0 <= k < i ==> #[trigger] self.changes@[k] <= self.changes@[k + 1],
            decreases n - i,
        {
            if self.changes[i] > self.changes[i + 1] {
                return false;
            }
            i = i + 1;
        }
        proof {
            lemma_adjacent_sorted(self.changes@);
        }
        self.changes[n - 1] <= self.last_checked
    }

    /// Availability split of the window `[since, now_utc)`: current state,
    /// seconds spent up and seconds spent down. A host with no history
    /// reports `(false, 0, 0)`; otherwise the alternating intervals of the
    /// log, clipped to the window, are accumulated, and time before the first
    /// transition contributes nothing.
    pub fn times_since(&self, since: u64, now_utc: u64) -> (r: (bool, u64, u64))
        requires
            self.wf(),
        ensures
            r.0 == self.up_spec(),
            self.changes@.len() == 0 ==> r.1 == 0 && r.2 == 0,
            self.changes@.len() > 0 ==> r.1 == uptime_spec(
                self.changes@,
                since as int,
                now_utc as int,
            ) && r.2 == downtime_spec(self.changes@, since as int, now_utc as int),
    {
        let cs = &self.changes;
        let n = cs.len();
        if n == 0 {
            return (false, 0, 0);
        }
        let ghost csv = cs@;
        let ghost sincei = since as int;
        let ghost nowi = now_utc as int;
        proof {
            lemma_state_time_total(csv, sincei, nowi);
            lemma_state_time_nonneg(csv, true, sincei, nowi);
            lemma_state_time_nonneg(csv, false, sincei, nowi);
        }
        let mut uptime: u64 = 0;
        let mut downtime: u64 = 0;
        let mut i: usize = 0;
        proof {
            assert(csv.skip(0) =~= csv);
        }
        while i < n - 1
            invariant
                0 <= i < n == csv.len(),
                csv == cs@,
                cs == &self.changes,
                sincei == since as int,
                nowi == now_utc as int,
                sorted_times(csv),
                uptime + state_time(csv.skip(i as int), i % 2 == 0, sincei, nowi) == uptime_spec(
                    csv,
                    sincei,
                    nowi,
                ),
                downtime + state_time(csv.skip(i as int), i % 2 == 1, sincei, nowi)
                    == downtime_spec(csv, sincei, nowi),
                uptime <= uptime_spec(csv, sincei, nowi),
                downtime <= downtime_spec(csv, sincei, nowi),
                uptime_spec(csv, sincei, nowi) + downtime_spec(csv, sincei, nowi) == seg(
                    csv[0] as int,
                    nowi,
                    sincei,
                    nowi,
                ),
            decreases n - i,
        {
            let ghost rest = csv.skip(i as int);
            proof {
                assert(rest.len() >= 2);
                assert(rest[0] == csv[i as int]);
                assert(rest[1] == csv[i as int + 1]);
                assert(rest.drop_first() =~= csv.skip(i as int + 1));
                lemma_state_time_nonneg(rest.drop_first(), !(i % 2 == 0), sincei, nowi);
                lemma_state_time_nonneg(rest.drop_first(), !(i % 2 == 1), sincei, nowi);
                assert(state_time(rest, i % 2 == 0, sincei, nowi) == (if i % 2 == 0 {
                    seg(rest[0] as int, rest[1] as int, sincei, nowi)
                } else {
                    0int
                }) + state_time(rest.drop_first(), !(i % 2 == 0), sincei, nowi));
                assert(state_time(rest, i % 2 == 1, sincei, nowi) == (if i % 2 == 1 {
                    seg(rest[0] as int, rest[1] as int, sincei, nowi)
                } else {
                    0int
                }) + state_time(rest.drop_first(), !(i % 2 == 1), sincei, nowi));
            }
            let segment = seg_len(cs[i], cs[i + 1], since, now_utc);
            if i % 2 == 0 {
                proof {
                    assert(uptime + segment <= uptime_spec(csv, sincei, nowi));
                    assert(seg(csv[0] as int, nowi, sincei, nowi) <= u64::MAX);
                }
                uptime = uptime + segment;
            } else {
                proof {
                    assert(downtime + segment <= downtime_spec(csv, sincei, nowi));
                    assert(seg(csv[0] as int, nowi, sincei, nowi) <= u64::MAX);
                }
                downtime = downtime + segment;
            }
            i = i + 1;
        }
        proof {
            let rest = csv.skip(i as int);
            assert(rest.len() == 1);
            assert(rest[0] == csv.last());
        }
        let up_now = self.up();
        let final_segment = seg_len(self.last_change(), now_utc, since, now_utc);
        if up_now {
            uptime = uptime + final_segment;
        } else {
            downtime = downtime + final_segment;
        }
        (up_now, uptime, downtime)
    }
}

impl Default for MachineState {
    /// A fresh entry: never probed, no history, no known facts.
    fn default() -> (r: Self)
        ensures
            r.changes@.len() == 0,
            r.last_checked == 0,
            r.extended_info is None,
            r.wf(),
    {
        MachineState { changes: Vec::new(), last_checked: 0, extended_info: None }
    }
}

/// Overlap of `[a, b)` with the window `[since, now)`, in seconds.
fn seg_len(a: u64, b: u64, since: u64, now: u64) -> (r: u64)
    ensures
        r == seg(a as int, b as int, since as int, now as int),
{
    let lo = if a > since {
        a
    } else {
        since
    };
    let hi = if b < now {
        b
    } else {
        now
    };
    if hi > lo {
        hi - lo
    } else {
        0
    }
}

} // verus!
