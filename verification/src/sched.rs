use vstd::prelude::*;

use vstd::multiset::Multiset;

use crate::fleet::{Fleet, HostEntry};

verus! {

// ---------------------------------------------------------------------------
// Sweep policies
// ---------------------------------------------------------------------------
/// How many probes may be outstanding at once during a sweep.
pub const PROBE_POOL_SIZE: usize = 200;

/// How often a sweep starts, in seconds.
pub const SWEEP_INTERVAL_SECS: u64 = 600;

/// How many completed probes lie between two snapshot exports.
pub const SNAPSHOT_EVERY: u64 = 500;

/// How long to pause after a pass: the remainder of the interval, or nothing
/// at all when the pass overran it — never a negative wait.
pub fn sleep_remainder(interval: u64, elapsed: u64) -> (r: u64)
    ensures
        r == if elapsed < interval {
            (interval - elapsed) as u64
        } else {
            0u64
        },
{
    if elapsed < interval {
        interval - elapsed
    } else {
        0
    }
}

/// Connect timeout for one probe, in seconds: a host recently believed up is
/// given longer, so a loaded machine is not declared dead; a host believed
/// down gets a short retry.
pub fn probe_timeout_secs(was_up: bool) -> (r: u64)
    ensures
        r == if was_up {
            12u64
        } else {
            4u64
        },
{
    if was_up {
        12
    } else {
        4
    }
}

/// System facts are fetched only when a host comes back up: they are assumed
/// stable while it stays up.
pub fn should_fetch_info(was_up: bool, up: bool) -> (r: bool)
    ensures
        r == (!was_up && up),
{
    !was_up && up
}

/// A snapshot export is due every `SNAPSHOT_EVERY` completed probes,
/// counting from the first.
pub fn snapshot_due(completed: u64) -> (r: bool)
    ensures
        r == (completed % SNAPSHOT_EVERY == 0),
{
    completed % SNAPSHOT_EVERY == 0
}

// ---------------------------------------------------------------------------
// Candidate selection
// ---------------------------------------------------------------------------
/// One host picked for probing this sweep, with what was believed of it when
/// the sweep was planned.
#[derive(Clone, Copy, Debug, PartialEq, Eq, Structural)]
pub struct Candidate {
    pub ip: u32,
    pub up: bool,
    pub last_checked: u64,
}

/// Probe priority: hosts believed down come before hosts believed up, and
/// within each group the least recently checked host comes first.
pub open spec fn cand_le(a: Candidate, b: Candidate) -> bool {
    (!a.up && b.up) || (a.up == b.up && a.last_checked <= b.last_checked)
}

pub open spec fn sorted_cands(s: Seq<Candidate>) -> bool {
    forall|i: int, j: int| 0 <= i <= j < s.len() ==> cand_le(s[i], s[j])
}

pub open spec fn distinct_ips(s: Seq<Candidate>) -> bool {
    forall|i: int, j: int| 0 <= i < j < s.len() ==> s[i].ip != s[j].ip
}

/// How one ledger entry shows up on the candidate list.
pub open spec fn cand_of(e: HostEntry) -> Candidate {
    Candidate { ip: e.ip, up: e.state.up_spec(), last_checked: e.state.last_checked }
}

pub open spec fn fleet_cands(f: Fleet) -> Seq<Candidate> {
    f.entries@.map_values(|e: HostEntry| cand_of(e))
}

/// The whole fleet as candidates, one per host, in table order.
pub fn build_candidates(fleet: &Fleet) -> (r: Vec<Candidate>)
    requires
        fleet.wf(),
    ensures
        r@ == fleet_cands(*fleet),
        distinct_ips(r@),
{
    let n = fleet.entries.len();
    let mut out: Vec<Candidate> = Vec::new();
    let mut i: usize = 0;
    while i < n
        invariant
            0 <= i <= n == fleet.entries@.len(),
            fleet.wf(),
            out@.len() == i,
            forall|j: int| 0 <= j < i ==> out@[j] == cand_of(fleet.entries@[j]),
        decreases n - i,
    {
        let e = &fleet.entries[i];
        out.push(Candidate { ip: e.ip, up: e.state.up(), last_checked: e.state.last_checked() });
        i = i + 1;
    }
    proof {
        assert(out@ =~= fleet_cands(*fleet));
    }
    out
}

fn cand_le_exec(a: &Candidate, b: &Candidate) -> (r: bool)
    ensures
        r == cand_le(*a, *b),
{
    (!a.up && b.up) || (a.up == b.up && a.last_checked <= b.last_checked)
}

/// Insert one candidate into an already prioritised list, keeping the order.
fn sorted_insert(out: &mut Vec<Candidate>, x: Candidate)
    requires
        sorted_cands(old(out)@),
    ensures
        sorted_cands(final(out)@),
        final(out)@.to_multiset() == old(out)@.to_multiset().insert(x),
        final(out)@.len() == old(out)@.len() + 1,
{
    broadcast use vstd::seq_lib::group_to_multiset_ensures;
    broadcast use vstd::seq_lib::lemma_multiset_commutative;

    let ghost pre = old(out)@;
    let n = out.len();
    let mut pos: usize = 0;
    while pos < n && cand_le_exec(&out[pos], &x)
        invariant
            0 <= pos <= n == out@.len(),
            out@ == pre,
            forall|i: int| 0 <= i < pos ==> cand_le(out@[i], x),
        decreases n - pos,
    {
        pos = pos + 1;
    }
    out.insert(pos, x);
    proof {
        let post = out@;
        pre.insert_ensures(pos as int, x);
        assert forall|i: int, j: int| 0 <= i <= j < post.len() implies cand_le(post[i], post[j]) by {
            if i < pos && j > pos {
                assert(post[j] == pre[j - 1]);
            } else if i == pos && j > pos {
                assert(post[j] == pre[j - 1]);
                assert(cand_le(pre[pos as int], pre[j - 1]));
            }
        }
        assert(post =~= pre.take(pos as int) + (seq![x] + pre.skip(pos as int)));
        assert(pre =~= pre.take(pos as int) + pre.skip(pos as int));
        assert(seq![x] =~= Seq::<Candidate>::empty().push(x));
        assert(post.to_multiset() =~= pre.to_multiset().insert(x)) by {
            assert((pre.take(pos as int) + (seq![x] + pre.skip(pos as int))).to_multiset()
                == pre.take(pos as int).to_multiset().add(
                (seq![x] + pre.skip(pos as int)).to_multiset(),
            ));
            assert((seq![x] + pre.skip(pos as int)).to_multiset() == seq![x].to_multiset().add(
                pre.skip(pos as int).to_multiset(),
            ));
            assert(seq![x].to_multiset() =~= Multiset::<Candidate>::empty().insert(x));
        }
    }
}

/// Arrange candidates in probe priority order; nothing is added or lost.
pub fn sort_candidates(v: Vec<Candidate>) -> (r: Vec<Candidate>)
    ensures
        sorted_cands(r@),
        r@.to_multiset() == v@.to_multiset(),
        r@.len() == v@.len(),
{
    broadcast use vstd::seq_lib::group_to_multiset_ensures;

    let n = v.len();
    let mut out: Vec<Candidate> = Vec::new();
    let mut i: usize = 0;
    proof {
        assert(v@.take(0) =~= Seq::<Candidate>::empty());
        assert(Seq::<Candidate>::empty().to_multiset() =~= Multiset::<Candidate>::empty());
    }
    while i < n
        invariant
            0 <= i <= n == v@.len(),
            sorted_cands(out@),
            out@.to_multiset() == v@.take(i as int).to_multiset(),
            out@.len() == i,
        decreases n - i,
    {
        proof {
            broadcast use vstd::seq_lib::group_to_multiset_ensures;

            assert(v@.take(i as int + 1) =~= v@.take(i as int).push(v@[i as int]));
            assert(v@.take(i as int).push(v@[i as int]).to_multiset() =~= v@.take(
                i as int,
            ).to_multiset().insert(v@[i as int]));
        }
        sorted_insert(&mut out, v[i]);
        i = i + 1;
    }
    proof {
        assert(v@.take(n as int) =~= v@);
    }
    out
}

/// A rearrangement of candidates with pairwise distinct hosts still has
/// pairwise distinct hosts.
proof fn lemma_perm_distinct_ips(a: Seq<Candidate>, b: Seq<Candidate>)
    requires
        a.to_multiset() == b.to_multiset(),
        distinct_ips(a),
    ensures
        distinct_ips(b),
{
    broadcast use vstd::seq_lib::group_to_multiset_ensures;

    assert forall|i: int, j: int| 0 <= i < j < a.len() && i != j implies a[i] != a[j] by {
        assert(a[i].ip != a[j].ip);
    }
    assert(a.no_duplicates());
    a.lemma_multiset_has_no_duplicates();
    b.lemma_multiset_has_no_duplicates_conv();
    assert forall|i: int, j: int| 0 <= i < j < b.len() implies b[i].ip != b[j].ip by {
        if b[i].ip == b[j].ip {
            assert(b[i] != b[j]);
            assert(b.contains(b[i]));
            assert(b.contains(b[j]));
            assert(b.to_multiset().count(b[i]) > 0);
            assert(b.to_multiset().count(b[j]) > 0);
            assert(a.to_multiset().count(b[i]) > 0);
            assert(a.to_multiset().count(b[j]) > 0);
            assert(a.contains(b[i]));
            assert(a.contains(b[j]));
            let p = choose|p: int| 0 <= p < a.len() && a[p] == b[i];
            let q = choose|q: int| 0 <= q < a.len() && a[q] == b[j];
            assert(a[p].ip == a[q].ip && p != q);
        }
    }
}

/// Plan one sweep: list every host, order the list by probe priority, and
/// keep only the first sixth of the universe for this pass.
pub fn select_candidates(fleet: &Fleet) -> (r: Vec<Candidate>)
    requires
        fleet.wf(),
    ensures
        sorted_cands(r@),
        distinct_ips(r@),
        r@.len() == fleet.entries@.len() / 6,
        exists|full: Seq<Candidate>|
            (#[trigger] full.to_multiset()) == fleet_cands(*fleet).to_multiset() && sorted_cands(
                full,
            ) && r@ == full.take((fleet.entries@.len() / 6) as int),
{
    let all = build_candidates(fleet);
    let ghost allv = all@;
    let mut picked = sort_candidates(all);
    let ghost full = picked@;
    let k = picked.len() / 6;
    picked.truncate(k);
    proof {
        assert(picked@ == full.take(k as int));
        lemma_perm_distinct_ips(allv, full);
        assert forall|i: int, j: int|
            0 <= i < j < picked@.len() implies picked@[i].ip != picked@[j].ip by {
            assert(full[i].ip != full[j].ip);
        }
        assert(sorted_cands(picked@)) by {
            assert(forall|i: int, j: int|
                0 <= i <= j < picked@.len() ==> cand_le(full[i], full[j]) && picked@[i] == full[i]
                    && picked@[j] == full[j]);
        }
    }
    picked
}

// ---------------------------------------------------------------------------
// The bounded probe pool
// ---------------------------------------------------------------------------
/// The running state of one sweep: a prioritised queue of candidates handed
/// out one by one, and a count of probes launched but not yet completed,
/// never exceeding the pool size.
pub struct Sweep {
    pub queue: Vec<Candidate>,
    pub next: usize,
    pub in_flight: usize,
    pub pool: usize,
}

impl Sweep {
    /// The sweep invariant: the cursor stays within the queue, no more
    /// probes are outstanding than the pool allows, nor than were ever
    /// handed out, and no host is queued twice.
    pub open spec fn wf(self) -> bool {
        &&& self.next <= self.queue@.len()
        &&& self.in_flight <= self.pool
        &&& self.in_flight <= self.next
        &&& distinct_ips(self.queue@)
    }

    pub fn new(queue: Vec<Candidate>, pool: usize) -> (r: Sweep)
        requires
            distinct_ips(queue@),
        ensures
            r.wf(),
            r.queue@ == queue@,
            r.next == 0,
            r.in_flight == 0,
            r.pool == pool,
    {
        Sweep { queue, next: 0, in_flight: 0, pool }
    }

    /// Hand out the next probe to start, when a pool slot is free and
    /// candidates remain. A host handed out here was never handed out
    /// before.
    pub fn launch(&mut self) -> (r: Option<Candidate>)
        requires
            old(self).wf(),
        ensures
            final(self).wf(),
            final(self).queue@ == old(self).queue@,
            final(self).pool == old(self).pool,
            if old(self).in_flight < old(self).pool && old(self).next < old(self).queue@.len() {
                r == Some(old(self).queue@[old(self).next as int]) && final(self).next == old(
                    self,
                ).next + 1 && final(self).in_flight == old(self).in_flight + 1
            } else {
                r is None && final(self).next == old(self).next && final(self).in_flight == old(
                    self,
                ).in_flight
            },
            r matches Some(c) ==> forall|j: int|
                0 <= j < old(self).next ==> old(self).queue@[j].ip != c.ip,
    {
        if self.in_flight < self.pool && self.next < self.queue.len() {
            let c = self.queue[self.next];
            self.next = self.next + 1;
            self.in_flight = self.in_flight + 1;
            Some(c)
        } else {
            None
        }
    }

    /// One outstanding probe finished, freeing its pool slot.
    pub fn complete(&mut self)
        requires
            old(self).wf(),
            old(self).in_flight > 0,
        ensures
            final(self).wf(),
            final(self).queue@ == old(self).queue@,
            final(self).pool == old(self).pool,
            final(self).next == old(self).next,
            final(self).in_flight == old(self).in_flight - 1,
    {
        self.in_flight = self.in_flight - 1;
    }

    /// The sweep ends only when the queue is exhausted and every launched
    /// probe has completed.
    pub fn done(&self) -> (r: bool)
        ensures
            r == (self.next == self.queue@.len() && self.in_flight == 0),
    {
        self.next == self.queue.len() && self.in_flight == 0
    }

    pub fn in_flight_count(&self) -> (r: usize)
        ensures
            r == self.in_flight,
    {
        self.in_flight
    }
}

/// Across one sweep no host is a candidate more than once, and the probes
/// outstanding at any moment never exceed the configured pool size.
pub proof fn lemma_sweep_bounds(s: Sweep)
    requires
        s.wf(),
    ensures
        s.in_flight <= s.pool,
        forall|i: int, j: int| 0 <= i < j < s.queue@.len() ==> s.queue@[i].ip != s.queue@[j].ip,
{
}

} // verus!
