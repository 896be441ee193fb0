use vstd::prelude::*;

use crate::machine::{record_spec, MachineState};

verus! {

// ---------------------------------------------------------------------------
// Addresses
// ---------------------------------------------------------------------------
/// First address of the monitored /16 network (172.29.0.0), as the usual
/// big-endian integer form of a dotted quad.
pub const UNIVERSE_BASE: u32 = 2887581696;

/// How many addresses the monitored network holds.
pub const UNIVERSE_SIZE: usize = 65536;

pub open spec fn ip_from_octets_spec(a: u8, b: u8, c: u8, d: u8) -> u32 {
    (a * 16777216 + b * 65536 + c * 256 + d) as u32
}

/// The third octet of a dotted quad, the one that names the subnet.
pub open spec fn ip_octet3(ip: u32) -> u32 {
    ((ip / 256) % 256) as u32
}

/// Addresses never probed: two administrative subnets and one known-bad
/// host, 172.29.4.250.
pub open spec fn is_blacklisted_spec(ip: u32) -> bool {
    ip_octet3(ip) == 0 || ip_octet3(ip) == 33 || ip == ip_from_octets_spec(172, 29, 4, 250)
}

pub fn ip_from_octets(a: u8, b: u8, c: u8, d: u8) -> (r: u32)
    ensures
        r == ip_from_octets_spec(a, b, c, d),
{
    (a as u32) * 16777216 + (b as u32) * 65536 + (c as u32) * 256 + (d as u32)
}

/// The dotted quad of an address, most significant octet first.
pub fn ip_octets(ip: u32) -> (r: (u8, u8, u8, u8))
    ensures
        r == (
            (ip / 16777216) as u8,
            ((ip / 65536) % 256) as u8,
            ((ip / 256) % 256) as u8,
            (ip % 256) as u8,
        ),
        ip_from_octets_spec(r.0, r.1, r.2, r.3) == ip,
{
    proof {
        assert((ip / 16777216) * 16777216 + ((ip / 65536) % 256) * 65536 + ((ip / 256) % 256) * 256
            + (ip % 256) == ip) by (bit_vector);
        assert(ip / 16777216 < 256) by (bit_vector);
    }
    ((ip / 16777216) as u8, ((ip / 65536) % 256) as u8, ((ip / 256) % 256) as u8, (ip % 256) as u8)
}

pub fn is_blacklisted(ip: u32) -> (r: bool)
    ensures
        r == is_blacklisted_spec(ip),
{
    let octet3 = (ip / 256) % 256;
    octet3 == 0 || octet3 == 33 || ip == ip_from_octets(172, 29, 4, 250)
}

/// Every address of the monitored network, in ascending order.
pub fn generate_ips() -> (r: Vec<u32>)
    ensures
        r@.len() == UNIVERSE_SIZE,
        forall|k: int| 0 <= k < UNIVERSE_SIZE ==> r@[k] == UNIVERSE_BASE + k,
{
    let mut out: Vec<u32> = Vec::new();
    let mut k: usize = 0;
    while k < UNIVERSE_SIZE
        invariant
            0 <= k <= UNIVERSE_SIZE,
            out@.len() == k,
            forall|j: int| 0 <= j < k ==> out@[j] == UNIVERSE_BASE + j,
        decreases UNIVERSE_SIZE - k,
    {
        out.push(UNIVERSE_BASE + k as u32);
        k = k + 1;
    }
    out
}

// ---------------------------------------------------------------------------
// The fleet table
// ---------------------------------------------------------------------------
/// One monitored host and its ledger entry.
pub struct HostEntry {
    pub ip: u32,
    pub state: MachineState,
}

/// Which entries the denylist leaves standing, in their original order.
pub open spec fn retained(s: Seq<HostEntry>) -> Seq<HostEntry>
    decreases s.len(),
{
    if s.len() == 0 {
        s
    } else {
        let head = retained(s.drop_last());
        if is_blacklisted_spec(s.last().ip) {
            head
        } else {
            head.push(s.last())
        }
    }
}

proof fn lemma_retained_members(s: Seq<HostEntry>)
    ensures
        forall|i: int| 0 <= i < retained(s).len() ==> s.contains(#[trigger] retained(s)[i]),
        retained(s).len() <= s.len(),
    decreases s.len(),
{
    if s.len() > 0 {
        lemma_retained_members(s.drop_last());
        assert(forall|i: int|
            0 <= i < s.drop_last().len() ==> s.drop_last()[i] == s[i] && s.contains(s[i]));
        assert(s.contains(s.last())) by {
            assert(s[s.len() - 1] == s.last());
        }
    }
}

/// In the surviving sequence, the relative order of entries is the original
/// one, so strict address order survives the denylist.
proof fn lemma_retained_order(s: Seq<HostEntry>, a: int, b: int)
    requires
        forall|i: int, j: int| 0 <= i < j < s.len() ==> s[i].ip < s[j].ip,
        0 <= a < b < retained(s).len(),
    ensures
        retained(s)[a].ip < retained(s)[b].ip,
    decreases s.len(),
{
    let kept = retained(s);
    if s.len() > 0 {
        let head = retained(s.drop_last());
        if is_blacklisted_spec(s.last().ip) {
            lemma_retained_order(s.drop_last(), a, b);
        } else {
            if b == kept.len() - 1 {
                lemma_retained_members(s.drop_last());
                assert(s.drop_last().contains(head[a]));
                let i = choose|i: int| 0 <= i < s.drop_last().len() && s.drop_last()[i] == head[a];
                assert(s[i] == head[a]);
                assert(s[i].ip < s.last().ip);
            } else {
                lemma_retained_order(s.drop_last(), a, b);
            }
        }
    }
}

/// The ledger: one entry per monitored host, kept in strictly ascending
/// address order.
pub struct Fleet {
    pub entries: Vec<HostEntry>,
}

impl Fleet {
    /// Entries are strictly sorted by address (so each host appears once)
    /// and every per-host ledger is itself well formed.
    pub open spec fn wf(self) -> bool {
        &&& forall|i: int, j: int|
            0 <= i < j < self.entries@.len() ==> self.entries@[i].ip < self.entries@[j].ip
        &&& forall|i: int| 0 <= i < self.entries@.len() ==> (#[trigger] self.entries@[i]).state.wf()
    }

    pub open spec fn has_ip(self, ip: u32) -> bool {
        exists|i: int| 0 <= i < self.entries@.len() && self.entries@[i].ip == ip
    }

    /// The position of a host's entry; meaningful only when `has_ip`.
    pub open spec fn index_of(self, ip: u32) -> int {
        choose|i: int| 0 <= i < self.entries@.len() && self.entries@[i].ip == ip
    }

    /// The ledger entry of a host; meaningful only when `has_ip`.
    pub open spec fn state_of(self, ip: u32) -> MachineState {
        self.entries@[self.index_of(ip)].state
    }

    /// In a well-formed fleet any entry carrying `ip` sits at `index_of(ip)`.
    proof fn lemma_lookup(self, ip: u32)
        requires
            self.wf(),
        ensures
            forall|i: int|
                0 <= i < self.entries@.len() && (#[trigger] self.entries@[i]).ip == ip ==> i
                    == self.index_of(ip) && self.has_ip(ip),
    {
        assert forall|i: int|
            0 <= i < self.entries@.len() && (#[trigger] self.entries@[i]).ip == ip implies i
            == self.index_of(ip) && self.has_ip(ip) by {
            assert(self.has_ip(ip));
            let j = self.index_of(ip);
            if i < j {
                assert(self.entries@[i].ip < self.entries@[j].ip);
            } else if j < i {
                assert(self.entries@[j].ip < self.entries@[i].ip);
            }
        }
    }

    pub fn new() -> (r: Fleet)
        ensures
            r.wf(),
            r.entries@.len() == 0,
    {
        Fleet { entries: Vec::new() }
    }

    pub fn len(&self) -> (r: usize)
        ensures
            r == self.entries@.len(),
    {
        self.entries.len()
    }

    /// Position of the entry for `ip`, by binary search over the sorted
    /// table.
    pub fn find(&self, ip: u32) -> (r: Option<usize>)
        requires
            self.wf(),
        ensures
            match r {
                Some(i) => i < self.entries@.len() && self.entries@[i as int].ip == ip,
                None => !self.has_ip(ip),
            },
    {
        let mut lo: usize = 0;
        let mut hi: usize = self.entries.len();
        while lo < hi
            invariant
                lo <= hi <= self.entries@.len(),
                self.wf(),
                forall|i: int| 0 <= i < lo ==> self.entries@[i].ip < ip,
                forall|i: int| hi <= i < self.entries@.len() ==> self.entries@[i].ip > ip,
            decreases hi - lo,
        {
            let mid = lo + (hi - lo) / 2;
            let at = self.entries[mid].ip;
            if at == ip {
                return Some(mid);
            } else if at < ip {
                lo = mid + 1;
            } else {
                hi = mid;
            }
        }
        None
    }

    /// The unique index where an entry for `ip` either sits or belongs.
    fn insert_position(&self, ip: u32) -> (r: usize)
        requires
            self.wf(),
        ensures
            r <= self.entries@.len(),
            forall|i: int| 0 <= i < r ==> self.entries@[i].ip < ip,
            forall|i: int| r <= i < self.entries@.len() ==> self.entries@[i].ip >= ip,
    {
        let mut lo: usize = 0;
        let mut hi: usize = self.entries.len();
        while lo < hi
            invariant
                lo <= hi <= self.entries@.len(),
                self.wf(),
                forall|i: int| 0 <= i < lo ==> self.entries@[i].ip < ip,
                forall|i: int| hi <= i < self.entries@.len() ==> self.entries@[i].ip >= ip,
            decreases hi - lo,
        {
            let mid = lo + (hi - lo) / 2;
            if self.entries[mid].ip < ip {
                lo = mid + 1;
            } else {
                hi = mid;
            }
        }
        lo
    }

    /// Insert or replace the full ledger entry of one host.
    pub fn insert_state(&mut self, ip: u32, state: MachineState)
        requires
            old(self).wf(),
            state.wf(),
        ensures
            final(self).wf(),
            final(self).has_ip(ip),
            forall|x: u32| final(self).has_ip(x) <==> old(self).has_ip(x) || x == ip,
            final(self).state_of(ip) == state,
            forall|x: u32|
                x != ip && old(self).has_ip(x) ==> final(self).has_ip(x) && final(self).state_of(x)
                    == old(self).state_of(x),
    {
        let ghost pre = old(self).entries@;
        let pos = self.insert_position(ip);
        let replace = pos < self.entries.len() && self.entries[pos].ip == ip;
        let entry = HostEntry { ip, state };
        let ghost v = entry;
        if replace {
            let slot = &mut self.entries[pos];
            *slot = entry;
            proof {
                assert(self.entries@ == pre.update(pos as int, v));
            }
        } else {
            self.entries.insert(pos, entry);
            proof {
                pre.insert_ensures(pos as int, v);
            }
        }
        proof {
            let post = self.entries@;
            if !replace {
                assert(pos == pre.len() || pre[pos as int].ip > ip);
            }
            assert forall|i: int, j: int| 0 <= i < j < post.len() implies post[i].ip < post[j].ip by {
                if replace {
                    assert(pre[pos as int].ip == ip);
                } else {
                    if i < pos && j > pos {
                        assert(post[j] == pre[j - 1]);
                    }
                }
            }
            assert forall|i: int| 0 <= i < post.len() implies (#[trigger] post[i]).state.wf() by {
                if replace {
                    if i != pos {
                        assert(post[i] == pre[i]);
                    }
                } else {
                    if i > pos {
                        assert(post[i] == pre[i - 1]);
                    }
                }
            }
            assert(post[pos as int] == v);
            self.lemma_lookup(ip);
            assert(self.has_ip(ip) && self.index_of(ip) == pos);
            assert forall|x: u32| self.has_ip(x) implies old(self).has_ip(x) || x == ip by {
                let i = choose|i: int| 0 <= i < post.len() && post[i].ip == x;
                if replace {
                    if i != pos {
                        assert(pre[i].ip == x);
                    }
                } else {
                    if i < pos {
                        assert(pre[i].ip == x);
                    } else if i > pos {
                        assert(pre[i - 1].ip == x);
                    }
                }
            }
            assert forall|x: u32|
                x != ip && old(self).has_ip(x) implies self.has_ip(x) && self.state_of(x) == old(self).state_of(x) by {
                let i = choose|i: int| 0 <= i < pre.len() && pre[i].ip == x;
                old(self).lemma_lookup(x);
                if replace {
                    assert(pre[pos as int].ip == ip);
                    assert(post[i] == pre[i]);
                } else {
                    if i < pos {
                        assert(post[i] == pre[i]);
                    } else {
                        assert(post[i + 1] == pre[i]);
                    }
                }
                self.lemma_lookup(x);
            }
        }
    }

    /// Create a default entry for a host not seen before; leave a known host
    /// alone.
    pub fn ensure_host(&mut self, ip: u32)
        requires
            old(self).wf(),
        ensures
            final(self).wf(),
            final(self).has_ip(ip),
            forall|x: u32| final(self).has_ip(x) <==> old(self).has_ip(x) || x == ip,
            old(self).has_ip(ip) ==> *final(self) == *old(self),
            !old(self).has_ip(ip) ==> final(self).state_of(ip).changes@.len() == 0,
            !old(self).has_ip(ip) ==> final(self).state_of(ip).last_checked == 0,
            !old(self).has_ip(ip) ==> final(self).state_of(ip).extended_info is None,
            forall|x: u32|
                x != ip && old(self).has_ip(x) ==> final(self).has_ip(x) && final(self).state_of(x)
                    == old(self).state_of(x),
    {
        match self.find(ip) {
            Some(_found) => {
                proof {
                    self.lemma_lookup(ip);
                }
            },
            None => {
                self.insert_state(ip, MachineState::default());
            },
        }
    }

    /// Fold one finished probe into the ledger: update the host's system
    /// facts according to the fetch outcome, then record the check itself.
    /// A host not yet in the table gets a fresh entry first.
    pub fn apply_result(&mut self, ip: u32, up: bool, outcome: InfoOutcome, now_utc: u64)
        requires
            old(self).wf(),
            old(self).has_ip(ip) ==> now_utc >= old(self).state_of(ip).last_checked,
        ensures
            final(self).wf(),
            final(self).has_ip(ip),
            forall|x: u32| final(self).has_ip(x) <==> old(self).has_ip(x) || x == ip,
            final(self).state_of(ip).changes@ == record_spec(
                if old(self).has_ip(ip) {
                    old(self).state_of(ip).changes@
                } else {
                    Seq::<u64>::empty()
                },
                up,
                now_utc,
            ),
            final(self).state_of(ip).up_spec() == up,
            final(self).state_of(ip).last_checked == now_utc,
            final(self).state_of(ip).extended_info == (match outcome {
                InfoOutcome::Unchanged => if old(self).has_ip(ip) {
                    old(self).state_of(ip).extended_info
                } else {
                    None
                },
                InfoOutcome::Loaded(info) => Some(info),
                InfoOutcome::Failed => None,
            }),
            forall|x: u32|
                x != ip && old(self).has_ip(x) ==> final(self).has_ip(x) && final(self).state_of(x)
                    == old(self).state_of(x),
    {
        self.ensure_host(ip);
        let idx = if let Some(found) = self.find(ip) {
            found
        } else {
            proof {
                assert(false);
            }
            0
        };
        proof {
            self.lemma_lookup(ip);
            if old(self).has_ip(ip) {
                old(self).lemma_lookup(ip);
            }
        }
        let ghost mid = *self;
        let entry = &mut self.entries[idx];
        match outcome {
            InfoOutcome::Unchanged => {},
            InfoOutcome::Loaded(info) => {
                entry.state.extended_info = Some(info);
            },
            InfoOutcome::Failed => {
                entry.state.extended_info = None;
            },
        }
        entry.state.checked(up, now_utc);
        proof {
            let post = self.entries@;
            assert(post == mid.entries@.update(idx as int, post[idx as int]));
            assert forall|i: int, j: int| 0 <= i < j < post.len() implies post[i].ip < post[j].ip by {
                assert(mid.entries@[i].ip < mid.entries@[j].ip);
            }
            assert forall|i: int| 0 <= i < post.len() implies (#[trigger] post[i]).state.wf() by {
                if i != idx {
                    assert(post[i] == mid.entries@[i]);
                }
            }
            self.lemma_lookup(ip);
            assert forall|x: u32| self.has_ip(x) implies mid.has_ip(x) by {
                let i = choose|i: int| 0 <= i < post.len() && post[i].ip == x;
                assert(mid.entries@[i].ip == x);
            }
            assert forall|x: u32| mid.has_ip(x) implies self.has_ip(x) by {
                let i = choose|i: int| 0 <= i < mid.entries@.len() && mid.entries@[i].ip == x;
                assert(post[i].ip == x);
            }
            assert forall|x: u32|
                x != ip && old(self).has_ip(x) implies self.has_ip(x) && self.state_of(x) == old(self).state_of(x) by {
                assert(mid.has_ip(x));
                let i = mid.index_of(x);
                assert(0 <= i < mid.entries@.len() && mid.entries@[i].ip == x);
                assert(post[i].ip == x);
                self.lemma_lookup(x);
                assert(mid.state_of(x) == old(self).state_of(x));
            }
        }
    }

    /// Drop every denylisted host from the table.
    pub fn remove_blacklisted(&mut self)
        requires
            old(self).wf(),
        ensures
            final(self).wf(),
            final(self).entries@ == retained(old(self).entries@),
    {
        let ghost pre = old(self).entries@;
        let n = self.entries.len();
        let mut out: Vec<HostEntry> = Vec::new();
        let mut i: usize = 0;
        proof {
            assert(pre.take(0) =~= Seq::<HostEntry>::empty());
            assert(pre.skip(0) =~= pre);
        }
        while i < n
            invariant
                0 <= i <= n == pre.len(),
                self.entries@ == pre.skip(i as int),
                out@ == retained(pre.take(i as int)),
            decreases n - i,
        {
            let e = self.entries.remove(0);
            proof {
                assert(pre.skip(i as int).remove(0) =~= pre.skip(i as int + 1));
                assert(e == pre[i as int]);
                let prefix = pre.take(i as int + 1);
                assert(prefix.drop_last() =~= pre.take(i as int));
                assert(prefix.last() == pre[i as int]);
            }
            if !is_blacklisted(e.ip) {
                out.push(e);
            }
            i = i + 1;
        }
        proof {
            assert(pre.take(n as int) =~= pre);
        }
        self.entries = out;
        proof {
            lemma_retained_members(pre);
            let kept = retained(pre);
            assert forall|a: int, b: int| 0 <= a < b < kept.len() implies kept[a].ip < kept[b].ip by {
                lemma_retained_order(pre, a, b);
            }
            assert forall|a: int| 0 <= a < kept.len() implies (#[trigger] kept[a]).state.wf() by {
                assert(pre.contains(kept[a]));
                let i = choose|i: int| 0 <= i < pre.len() && pre[i] == kept[a];
                assert(old(self).entries@[i].state.wf());
            }
        }
    }
}

/// What became of the extended-info fetch tied to one probe.
pub enum InfoOutcome {
    /// No fetch was attempted; keep what is known.
    Unchanged,
    /// A fetch succeeded; replace what is known.
    Loaded(crate::info::ExtendedInfo),
    /// A fetch failed; stale facts are dropped rather than kept.
    Failed,
}

} // verus!
