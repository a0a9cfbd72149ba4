//! The receiver's table of fragment groups: joins fragments back into
//! payloads, drops duplicates and conflicting fragments, and forgets groups
//! that stay incomplete too long.
use vstd::prelude::*;
use crate::frame::append_bytes;

verus! {

/// How long an incomplete group is kept, in milliseconds.
pub const REASSEMBLY_TTL_MS: u64 = 30000;

/// The default cap on concurrent groups.
pub const DEFAULT_MAX_GROUPS: usize = 1000;

/// A datagram peer: an IPv6 address (IPv4 mapped into it) and a port.
#[derive(Debug, Clone, Copy, PartialEq, Eq, Structural)]
pub struct PeerAddr {
    pub ip: u128,
    pub port: u16,
}

/// One fragment as read from a fragment frame.
#[derive(Debug)]
pub struct FragmentInfo {
    pub frag_id: u64,
    pub index: usize,
    pub total: usize,
    pub data: Vec<u8>,
    /// Whether this fragment asked for an acknowledgement.
    pub req_ack: bool,
}

pub ghost struct FragmentView {
    pub frag_id: u64,
    pub index: nat,
    pub total: nat,
    pub data: Seq<u8>,
    pub req_ack: bool,
}

impl View for FragmentInfo {
    type V = FragmentView;

    open spec fn view(&self) -> FragmentView {
        FragmentView {
            frag_id: self.frag_id,
            index: self.index as nat,
            total: self.total as nat,
            data: self.data@,
            req_ack: self.req_ack,
        }
    }
}

/// The state of one group, keyed by peer and fragment-group id.
pub ghost struct GroupView {
    pub peer: PeerAddr,
    pub frag_id: u64,
    pub total: nat,
    /// One entry per index: the chunk received for it, if any.
    pub slots: Seq<Option<Seq<u8>>>,
    pub first_seen: nat,
    /// Whether a fragment of the group asked for an acknowledgement.
    pub req_ack: bool,
}

pub open spec fn done_view(o: Option<(Vec<u8>, bool)>) -> Option<(Seq<u8>, bool)> {
    match o {
        Some((v, a)) => Some((v@, a)),
        None => None,
    }
}

pub open spec fn opt_view(o: Option<Vec<u8>>) -> Option<Seq<u8>> {
    match o {
        Some(v) => Some(v@),
        None => None,
    }
}

/// The number of indices that hold a chunk.
pub open spec fn count_some(s: Seq<Option<Seq<u8>>>) -> nat
    decreases s.len(),
{
    if s.len() == 0 {
        0
    } else {
        count_some(s.drop_last()) + if s.last() is Some {
            1nat
        } else {
            0nat
        }
    }
}

pub open spec fn all_some(s: Seq<Option<Seq<u8>>>) -> bool {
    forall|i: int| 0 <= i < s.len() ==> #[trigger] s[i] is Some
}

/// The chunks joined in index order.
pub open spec fn join(s: Seq<Option<Seq<u8>>>) -> Seq<u8>
    decreases s.len(),
{
    if s.len() == 0 {
        Seq::empty()
    } else {
        join(s.drop_last()) + match s.last() {
            Some(d) => d,
            None => Seq::empty(),
        }
    }
}

pub open spec fn expired(g: GroupView, now: nat, ttl: nat) -> bool {
    now > g.first_seen + ttl
}

/// The groups that survive a sweep at time `now`, in their order.
pub open spec fn live(s: Seq<GroupView>, now: nat, ttl: nat) -> Seq<GroupView>
    decreases s.len(),
{
    if s.len() == 0 {
        s
    } else {
        let l = live(s.drop_last(), now, ttl);
        if expired(s.last(), now, ttl) {
            l
        } else {
            l.push(s.last())
        }
    }
}

/// The first group at or after `i` that belongs to `peer` and `frag_id`.
pub open spec fn find_from(s: Seq<GroupView>, peer: PeerAddr, frag_id: u64, i: int) -> Option<int>
    decreases s.len() - i,
{
    if i < 0 || i >= s.len() {
        None
    } else if s[i].peer == peer && s[i].frag_id == frag_id {
        Some(i)
    } else {
        find_from(s, peer, frag_id, i + 1)
    }
}

/// A group made by the first fragment that arrives for it.
pub open spec fn new_group(peer: PeerAddr, fr: FragmentView, now: nat) -> GroupView {
    GroupView {
        peer,
        frag_id: fr.frag_id,
        total: fr.total,
        slots: Seq::new(fr.total, |i: int| None::<Seq<u8>>).update(fr.index as int, Some(fr.data)),
        first_seen: now,
        req_ack: fr.req_ack,
    }
}

/// What the arrival of fragment `fr` from `peer` at time `now` does to the
/// groups `s` of a table that keeps at most `max` groups for `ttl`
/// milliseconds: the groups afterwards and, when the fragment completes its
/// group, the joined payload and whether the group asked for an acknowledgement.
pub open spec fn add_spec(
    s: Seq<GroupView>,
    max: nat,
    ttl: nat,
    peer: PeerAddr,
    fr: FragmentView,
    now: nat,
) -> (Seq<GroupView>, Option<(Seq<u8>, bool)>) {
    let s1 = live(s, now, ttl);
    match find_from(s1, peer, fr.frag_id, 0) {
        Some(k) => {
            let g = s1[k];
            if g.total != fr.total || g.slots[fr.index as int] is Some {
                (s1, None)
            } else {
                let g2 = GroupView {
                    slots: g.slots.update(fr.index as int, Some(fr.data)),
                    req_ack: g.req_ack || fr.req_ack,
                    ..g
                };
                if all_some(g2.slots) {
                    (s1.remove(k), Some((join(g2.slots), g2.req_ack)))
                } else {
                    (s1.update(k, g2), None)
                }
            }
        },
        None => {
            let g2 = new_group(peer, fr, now);
            if all_some(g2.slots) {
                (s1, Some((join(g2.slots), g2.req_ack)))
            } else {
                let s2 = if s1.len() >= max && s1.len() > 0 {
                    s1.drop_first()
                } else {
                    s1
                };
                (s2.push(g2), None)
            }
        },
    }
}

/// A group of the executable table. Slots are allocated up to the highest
/// index seen; indices past them hold nothing yet.
pub struct ReassemblyGroup {
    peer: PeerAddr,
    frag_id: u64,
    total: usize,
    slots: Vec<Option<Vec<u8>>>,
    received: usize,
    first_seen_ms: u64,
    req_ack: bool,
}

impl View for ReassemblyGroup {
    type V = GroupView;

    closed spec fn view(&self) -> GroupView {
        GroupView {
            peer: self.peer,
            frag_id: self.frag_id,
            total: self.total as nat,
            slots: Seq::new(
                self.total as nat,
                |i: int|
                    if i < self.slots@.len() {
                        opt_view(self.slots@[i])
                    } else {
                        None
                    },
            ),
            first_seen: self.first_seen_ms as nat,
            req_ack: self.req_ack,
        }
    }
}

impl ReassemblyGroup {
    pub closed spec fn wf(&self) -> bool {
        &&& self.slots@.len() <= self.total
        &&& self.received as nat == count_some(self@.slots)
    }
}

pub open spec fn groups_view(gs: Seq<ReassemblyGroup>) -> Seq<GroupView> {
    gs.map_values(|g: ReassemblyGroup| g@)
}

proof fn lemma_find_from(s: Seq<GroupView>, peer: PeerAddr, frag_id: u64, i: int)
    requires
        0 <= i,
    ensures
        match find_from(s, peer, frag_id, i) {
            Some(k) => i <= k < s.len() && s[k].peer == peer && s[k].frag_id == frag_id && forall|j: int|
                i <= j < k ==> !(#[trigger] s[j].peer == peer && s[j].frag_id == frag_id),
            None => forall|j: int|
                i <= j < s.len() ==> !(#[trigger] s[j].peer == peer && s[j].frag_id == frag_id),
        },
    decreases s.len() - i,
{
    if i < s.len() {
        lemma_find_from(s, peer, frag_id, i + 1);
    }
}

proof fn lemma_count_update(s: Seq<Option<Seq<u8>>>, i: int, d: Seq<u8>)
    requires
        0 <= i < s.len(),
        s[i] is None,
    ensures
        count_some(s.update(i, Some(d))) == count_some(s) + 1,
    decreases s.len(),
{
    let t = s.update(i, Some(d));
    if i == s.len() - 1 {
        assert(t.drop_last() =~= s.drop_last());
    } else {
        lemma_count_update(s.drop_last(), i, d);
        assert(t.drop_last() =~= s.drop_last().update(i, Some(d)));
    }
}

proof fn lemma_count_full(s: Seq<Option<Seq<u8>>>)
    ensures
        count_some(s) <= s.len(),
        count_some(s) == s.len() <==> all_some(s),
    decreases s.len(),
{
    if s.len() > 0 {
        lemma_count_full(s.drop_last());
        if all_some(s) {
            assert(all_some(s.drop_last())) by {
                assert forall|i: int| 0 <= i < s.drop_last().len() implies #[trigger] s.drop_last()[i] is Some by {
                    assert(s[i] is Some);
                }
            }
        }
        if count_some(s) == s.len() {
            assert forall|i: int| 0 <= i < s.len() implies #[trigger] s[i] is Some by {
                if i < s.len() - 1 {
                    assert(s.drop_last()[i] is Some);
                }
            }
        }
    }
}

proof fn lemma_count_none(n: nat)
    ensures
        count_some(Seq::new(n, |i: int| None::<Seq<u8>>)) == 0,
    decreases n,
{
    if n > 0 {
        lemma_count_none((n - 1) as nat);
        assert(Seq::new(n, |i: int| None::<Seq<u8>>).drop_last() =~= Seq::new(
            (n - 1) as nat,
            |i: int| None::<Seq<u8>>,
        ));
    }
}

proof fn lemma_live_all_fresh(s: Seq<GroupView>, now: nat, ttl: nat)
    ensures
        forall|i: int| 0 <= i < live(s, now, ttl).len() ==> !expired(#[trigger] live(s, now, ttl)[i], now, ttl),
        live(live(s, now, ttl), now, ttl) == live(s, now, ttl),
    decreases s.len(),
{
    if s.len() > 0 {
        lemma_live_all_fresh(s.drop_last(), now, ttl);
    }
    lemma_live_of_fresh(live(s, now, ttl), now, ttl);
}

proof fn lemma_live_of_fresh(s: Seq<GroupView>, now: nat, ttl: nat)
    requires
        forall|i: int| 0 <= i < s.len() ==> !expired(#[trigger] s[i], now, ttl),
    ensures
        live(s, now, ttl) == s,
    decreases s.len(),
{
    if s.len() > 0 {
        assert forall|i: int| 0 <= i < s.drop_last().len() implies !expired(#[trigger] s.drop_last()[i], now, ttl) by {
            assert(s.drop_last()[i] == s[i]);
        }
        lemma_live_of_fresh(s.drop_last(), now, ttl);
        assert(s.drop_last().push(s.last()) =~= s);
    } else {
        assert(s =~= Seq::<GroupView>::empty());
    }
}

proof fn lemma_find_first(s: Seq<GroupView>, peer: PeerAddr, frag_id: u64, i: int, m: int)
    requires
        0 <= i <= m < s.len(),
        forall|j: int| i <= j < m ==> !(#[trigger] s[j].peer == peer && s[j].frag_id == frag_id),
        s[m].peer == peer && s[m].frag_id == frag_id,
    ensures
        find_from(s, peer, frag_id, i) == Some(m),
    decreases m - i,
{
    if i < m {
        lemma_find_first(s, peer, frag_id, i + 1, m);
    }
}

proof fn lemma_find_none(s: Seq<GroupView>, peer: PeerAddr, frag_id: u64, i: int)
    requires
        0 <= i,
        forall|j: int| i <= j < s.len() ==> !(#[trigger] s[j].peer == peer && s[j].frag_id == frag_id),
    ensures
        find_from(s, peer, frag_id, i) is None,
    decreases s.len() - i,
{
    if i < s.len() {
        lemma_find_none(s, peer, frag_id, i + 1);
    }
}

/// Whether every group has one slot per index.
pub open spec fn groups_valid(s: Seq<GroupView>) -> bool {
    forall|i: int| 0 <= i < s.len() ==> (#[trigger] s[i]).slots.len() == s[i].total
}

/// Delivering a fragment a second time at the same moment changes nothing
/// and surfaces nothing, where the first delivery did not complete its group.
pub proof fn lemma_duplicate_ignored(
    s: Seq<GroupView>,
    max: nat,
    ttl: nat,
    peer: PeerAddr,
    fr: FragmentView,
    now: nat,
)
    requires
        groups_valid(s),
        fr.index < fr.total,
        add_spec(s, max, ttl, peer, fr, now).1 is None,
    ensures
        add_spec(add_spec(s, max, ttl, peer, fr, now).0, max, ttl, peer, fr, now) == (
            add_spec(s, max, ttl, peer, fr, now).0,
            None::<(Seq<u8>, bool)>,
        ),
{
    let s1 = live(s, now, ttl);
    let after = add_spec(s, max, ttl, peer, fr, now).0;
    lemma_live_all_fresh(s, now, ttl);
    lemma_live_valid(s, now, ttl);
    lemma_find_from(s1, peer, fr.frag_id, 0);
    match find_from(s1, peer, fr.frag_id, 0) {
        Some(k) => {
            let g = s1[k];
            if g.total != fr.total || g.slots[fr.index as int] is Some {
                assert(after == s1);
            } else {
                let g2 = GroupView {
                    slots: g.slots.update(fr.index as int, Some(fr.data)),
                    req_ack: g.req_ack || fr.req_ack,
                    ..g
                };
                assert(after == s1.update(k, g2));
                assert forall|i: int| 0 <= i < after.len() implies !expired(#[trigger] after[i], now, ttl) by {
                    if i != k {
                        assert(after[i] == s1[i]);
                    }
                }
                lemma_live_of_fresh(after, now, ttl);
                assert forall|j: int| 0 <= j < k implies !(#[trigger] after[j].peer == peer && after[j].frag_id == fr.frag_id) by {
                    assert(after[j] == s1[j]);
                }
                lemma_find_first(after, peer, fr.frag_id, 0, k);
            }
        },
        None => {
            let g2 = new_group(peer, fr, now);
            let s2 = if s1.len() >= max && s1.len() > 0 {
                s1.drop_first()
            } else {
                s1
            };
            assert(after == s2.push(g2));
            assert forall|i: int| 0 <= i < after.len() implies !expired(#[trigger] after[i], now, ttl) by {
                if i < s2.len() {
                    if s1.len() >= max && s1.len() > 0 {
                        assert(after[i] == s1[i + 1]);
                    } else {
                        assert(after[i] == s1[i]);
                    }
                }
            }
            lemma_live_of_fresh(after, now, ttl);
            assert forall|j: int| 0 <= j < s2.len() implies !(#[trigger] after[j].peer == peer && after[j].frag_id == fr.frag_id) by {
                if s1.len() >= max && s1.len() > 0 {
                    assert(after[j] == s1[j + 1]);
                } else {
                    assert(after[j] == s1[j]);
                }
            }
            lemma_find_first(after, peer, fr.frag_id, 0, s2.len() as int);
        },
    }
}

proof fn lemma_live_valid(s: Seq<GroupView>, now: nat, ttl: nat)
    requires
        groups_valid(s),
    ensures
        groups_valid(live(s, now, ttl)),
        forall|i: int| 0 <= i < live(s, now, ttl).len() ==> s.contains(#[trigger] live(s, now, ttl)[i]),
    decreases s.len(),
{
    if s.len() > 0 {
        assert(groups_valid(s.drop_last())) by {
            assert forall|i: int| 0 <= i < s.drop_last().len() implies (#[trigger] s.drop_last()[i]).slots.len() == s.drop_last()[i].total by {
                assert(s.drop_last()[i] == s[i]);
            }
        }
        lemma_live_valid(s.drop_last(), now, ttl);
        let l = live(s.drop_last(), now, ttl);
        assert forall|i: int| 0 <= i < live(s, now, ttl).len() implies s.contains(#[trigger] live(s, now, ttl)[i]) by {
            if i < l.len() {
                let x = l[i];
                assert(s.drop_last().contains(x));
                let w = choose|w: int| 0 <= w < s.drop_last().len() && s.drop_last()[w] == x;
                assert(s[w] == x);
            } else {
                assert(s[s.len() - 1] == s.last());
            }
        }
        assert forall|i: int| 0 <= i < live(s, now, ttl).len() implies (#[trigger] live(s, now, ttl)[i]).slots.len() == live(s, now, ttl)[i].total by {
            let x = live(s, now, ttl)[i];
            let w = choose|w: int| 0 <= w < s.len() && s[w] == x;
            assert(s[w].slots.len() == s[w].total);
        }
    }
}

/// The table of groups, with its bounds.
pub struct ReassemblyManager {
    groups: Vec<ReassemblyGroup>,
    max_groups: usize,
    ttl_ms: u64,
}

impl ReassemblyManager {
    pub closed spec fn groups_spec(&self) -> Seq<GroupView> {
        groups_view(self.groups@)
    }

    pub closed spec fn max_spec(&self) -> nat {
        self.max_groups as nat
    }

    pub closed spec fn ttl_spec(&self) -> nat {
        self.ttl_ms as nat
    }

    pub closed spec fn wf(&self) -> bool {
        forall|i: int| 0 <= i < self.groups@.len() ==> (#[trigger] self.groups@[i]).wf()
    }

    /// Every group of a well-formed table has one slot per index, so the
    /// laws stated over `add_spec` apply to it.
    pub proof fn lemma_groups_valid(&self)
        requires
            self.wf(),
        ensures
            groups_valid(self.groups_spec()),
    {
        assert forall|i: int| 0 <= i < self.groups_spec().len() implies (#[trigger] self.groups_spec()[i]).slots.len()
            == self.groups_spec()[i].total by {
            assert(self.groups_spec()[i] == self.groups@[i]@);
        }
    }

    /// An empty table with the default cap and lifetime.
    pub fn new() -> (r: ReassemblyManager)
        ensures
            r.wf(),
            r.groups_spec().len() == 0,
            r.max_spec() == DEFAULT_MAX_GROUPS,
            r.ttl_spec() == REASSEMBLY_TTL_MS,
    {
        ReassemblyManager { groups: Vec::new(), max_groups: DEFAULT_MAX_GROUPS, ttl_ms: REASSEMBLY_TTL_MS }
    }

    /// An empty table with the given cap and lifetime.
    pub fn with_limits(max_groups: usize, ttl_ms: u64) -> (r: ReassemblyManager)
        ensures
            r.wf(),
            r.groups_spec().len() == 0,
            r.max_spec() == max_groups,
            r.ttl_spec() == ttl_ms,
    {
        ReassemblyManager { groups: Vec::new(), max_groups, ttl_ms }
    }

    /// The number of groups held.
    pub fn session_count(&self) -> (r: usize)
        ensures
            r == self.groups_spec().len(),
    {
        self.groups.len()
    }

    /// Removes the groups that expired by `now_ms`.
    fn sweep(&mut self, now_ms: u64)
        requires
            old(self).wf(),
        ensures
            final(self).wf(),
            final(self).groups_spec() == live(old(self).groups_spec(), now_ms as nat, old(self).ttl_spec()),
            final(self).max_groups == old(self).max_groups,
            final(self).ttl_ms == old(self).ttl_ms,
    {
        let ghost orig = self.groups_spec();
        let ghost now = now_ms as nat;
        let ghost ttl = self.ttl_spec();
        let mut i: usize = 0;
        let ghost mut j: int = 0;
        while i < self.groups.len()
            invariant
                self.wf(),
                0 <= j <= orig.len(),
                i <= self.groups@.len(),
                ttl == self.ttl_spec(),
                now == now_ms as nat,
                self.max_groups == old(self).max_groups,
                self.ttl_ms == old(self).ttl_ms,
                orig == groups_view(old(self).groups@),
                i == live(orig.take(j), now, ttl).len(),
                self.groups_spec() == live(orig.take(j), now, ttl) + orig.skip(j),
            decreases self.groups@.len() - i,
        {
            let fs = self.groups[i].first_seen_ms;
            assert(self.groups_spec()[i as int] == orig[j]);
            assert(orig.take(j + 1).drop_last() =~= orig.take(j));
            assert(orig.take(j + 1).last() == orig[j]);
            let gone = now_ms >= fs && now_ms - fs > self.ttl_ms;
            assert(self.groups_spec()[i as int] == self.groups@[i as int]@);
            assert(self.groups@[i as int]@.first_seen == fs as nat);
            assert(gone == expired(orig[j], now, ttl));
            if gone {
                let ghost before = self.groups@;
                self.groups.remove(i);
                proof {
                    assert(self.groups_spec() =~= groups_view(before).remove(i as int));
                    assert(live(orig.take(j + 1), now, ttl) == live(orig.take(j), now, ttl));
                    assert(orig.skip(j) =~= seq![orig[j]] + orig.skip(j + 1));
                    assert(self.groups_spec() =~= live(orig.take(j + 1), now, ttl) + orig.skip(j + 1));
                    j = j + 1;
                }
            } else {
                proof {
                    assert(live(orig.take(j + 1), now, ttl) == live(orig.take(j), now, ttl).push(orig[j]));
                    assert(orig.skip(j) =~= seq![orig[j]] + orig.skip(j + 1));
                    assert(self.groups_spec() =~= live(orig.take(j + 1), now, ttl) + orig.skip(j + 1));
                    j = j + 1;
                }
                i = i + 1;
            }
        }
        proof {
            assert(orig.skip(j) =~= Seq::<GroupView>::empty()) by {
                assert(self.groups_spec().len() == live(orig.take(j), now, ttl).len() + orig.skip(j).len());
            }
            if j < orig.len() {
                assert(false);
            }
            assert(orig.take(j) =~= orig);
            assert(self.groups_spec() =~= live(orig, now, ttl));
        }
    }

    /// The position of the group of `peer` and `frag_id`, if there is one.
    fn find(&self, peer: PeerAddr, frag_id: u64) -> (r: Option<usize>)
        ensures
            match r {
                Some(k) => find_from(self.groups_spec(), peer, frag_id, 0) == Some(k as int),
                None => find_from(self.groups_spec(), peer, frag_id, 0) is None,
            },
    {
        let mut i: usize = 0;
        while i < self.groups.len()
            invariant
                i <= self.groups@.len(),
                find_from(self.groups_spec(), peer, frag_id, 0) == find_from(
                    self.groups_spec(),
                    peer,
                    frag_id,
                    i as int,
                ),
            decreases self.groups@.len() - i,
        {
            assert(self.groups_spec()[i as int] == self.groups@[i as int]@);
            if self.groups[i].peer == peer && self.groups[i].frag_id == frag_id {
                return Some(i);
            }
            i = i + 1;
        }
        None
    }

    /// Files fragment `frag` from `peer`, received at `now_ms`. Returns the
    /// joined payload, and whether the group asked for an acknowledgement,
    /// when the fragment completes its group.
    pub fn add_fragment(&mut self, peer: PeerAddr, frag: FragmentInfo, now_ms: u64) -> (r: Option<(Vec<u8>, bool)>)
        requires
            old(self).wf(),
            frag.index < frag.total,
        ensures
            final(self).wf(),
            (final(self).groups_spec(), done_view(r)) == add_spec(
                old(self).groups_spec(),
                old(self).max_spec(),
                old(self).ttl_spec(),
                peer,
                frag@,
                now_ms as nat,
            ),
            final(self).max_spec() == old(self).max_spec(),
            final(self).ttl_spec() == old(self).ttl_spec(),
    {
        let ghost fr = frag@;
        self.sweep(now_ms);
        let ghost s1 = self.groups_spec();
        let idx = frag.index;
        let frag_req_ack = frag.req_ack;
        match self.find(peer, frag.frag_id) {
            Some(k) => {
                proof {
                    lemma_find_from(s1, peer, frag.frag_id, 0);
                }
                let ghost g = s1[k as int];
                assert(g == self.groups@[k as int]@);
                if self.groups[k].total != frag.total {
                    return None;
                }
                let n = self.groups[k].slots.len();
                if idx < n && self.groups[k].slots[idx].is_some() {
                    return None;
                }
                let mut grp = self.groups.remove(k);
                assert(grp.wf());
                proof {
                    lemma_count_full(g.slots);
                }
                while grp.slots.len() < idx
                    invariant
                        grp.wf(),
                        grp@ == g,
                        idx < grp.total,
                    decreases idx - grp.slots@.len(),
                {
                    let ghost before = grp@;
                    grp.slots.push(None);
                    assert(grp@.slots =~= before.slots);
                }
                let ghost before = grp@;
                if idx == grp.slots.len() {
                    grp.slots.push(Some(frag.data));
                } else {
                    grp.slots[idx] = Some(frag.data);
                }
                proof {
                    assert(grp@.slots =~= before.slots.update(idx as int, Some(fr.data)));
                    lemma_count_update(before.slots, idx as int, fr.data);
                    lemma_count_full(grp@.slots);
                }
                grp.received = grp.received + 1;
                grp.req_ack = grp.req_ack || frag_req_ack;
                if grp.received == grp.total {
                    let data = join_slots(&grp);
                    proof {
                        assert(self.groups_spec() =~= s1.remove(k as int));
                    }
                    Some((data, grp.req_ack))
                } else {
                    self.groups.insert(k, grp);
                    proof {
                        assert(self.groups_spec() =~= s1.update(k as int, grp@));
                    }
                    None
                }
            },
            None => {
                let mut slots: Vec<Option<Vec<u8>>> = Vec::new();
                while slots.len() < idx
                    invariant
                        slots@.len() <= idx,
                        forall|i: int| 0 <= i < slots@.len() ==> #[trigger] slots@[i] is None,
                    decreases idx - slots@.len(),
                {
                    slots.push(None);
                }
                slots.push(Some(frag.data));
                let grp = ReassemblyGroup {
                    peer,
                    frag_id: frag.frag_id,
                    total: frag.total,
                    slots,
                    received: 1,
                    first_seen_ms: now_ms,
                    req_ack: frag_req_ack,
                };
                let ghost ng = new_group(peer, fr, now_ms as nat);
                proof {
                    assert forall|i: int| 0 <= i < fr.total implies #[trigger] grp@.slots[i] == ng.slots[i] by {
                        if i < idx {
                            assert(grp.slots@[i] is None);
                        }
                    }
                    assert(grp@.slots =~= ng.slots);
                    assert(grp@ == ng);
                    lemma_count_none(fr.total);
                    lemma_count_update(Seq::new(fr.total, |i: int| None::<Seq<u8>>), idx as int, fr.data);
                    lemma_count_full(ng.slots);
                }
                if frag.total == 1 {
                    let data = join_slots(&grp);
                    return Some((data, grp.req_ack));
                }
                if self.groups.len() >= self.max_groups && self.groups.len() > 0 {
                    self.groups.remove(0);
                    assert(self.groups_spec() =~= s1.drop_first());
                }
                let ghost s2 = self.groups_spec();
                self.groups.push(grp);
                assert(self.groups_spec() =~= s2.push(ng));
                None
            },
        }
    }
}

/// The payload of a group whose every index holds a chunk.
fn join_slots(g: &ReassemblyGroup) -> (r: Vec<u8>)
    requires
        g.wf(),
        all_some(g@.slots),
    ensures
        r@ == join(g@.slots),
{
    proof {
        lemma_count_full(g@.slots);
    }
    let ghost v = g@.slots;
    assert(g.slots@.len() == g.total) by {
        if g.slots@.len() < g.total {
            assert(v[g.slots@.len() as int] is Some);
        }
    }
    let mut out: Vec<u8> = Vec::new();
    let mut i: usize = 0;
    while i < g.slots.len()
        invariant
            i <= g.slots@.len(),
            g.slots@.len() == v.len(),
            v == g@.slots,
            all_some(v),
            out@ == join(v.take(i as int)),
        decreases g.slots@.len() - i,
    {
        assert(v[i as int] is Some);
        assert(v.take(i + 1).drop_last() =~= v.take(i as int));
        match &g.slots[i] {
            Some(d) => {
                append_bytes(&mut out, d.as_slice());
            },
            None => {},
        }
        i = i + 1;
    }
    assert(v.take(i as int) =~= v);
    out
}

} // verus!

verus! {

/// The groups and the outputs after fragments `frs` arrive one after another
/// at time `now`.
pub open spec fn deliver_seq(
    s: Seq<GroupView>,
    max: nat,
    ttl: nat,
    peer: PeerAddr,
    frs: Seq<FragmentView>,
    now: nat,
) -> (Seq<GroupView>, Seq<Option<(Seq<u8>, bool)>>)
    decreases frs.len(),
{
    if frs.len() == 0 {
        (s, Seq::empty())
    } else {
        let prev = deliver_seq(s, max, ttl, peer, frs.drop_last(), now);
        let step = add_spec(prev.0, max, ttl, peer, frs.last(), now);
        (step.0, prev.1.push(step.1))
    }
}

/// The chunks concatenated in order.
pub open spec fn concat_chunks(c: Seq<Seq<u8>>) -> Seq<u8>
    decreases c.len(),
{
    if c.len() == 0 {
        Seq::empty()
    } else {
        concat_chunks(c.drop_last()) + c.last()
    }
}

/// Whether `perm` lists each of `0..n` exactly once.
pub open spec fn is_permutation(perm: Seq<int>, n: nat) -> bool {
    &&& perm.len() == n
    &&& forall|j: int| 0 <= j < n ==> 0 <= #[trigger] perm[j] < n
    &&& forall|j1: int, j2: int| 0 <= j1 < j2 < n ==> perm[j1] != perm[j2]
    &&& forall|i: int| 0 <= i < n ==> #[trigger] perm.contains(i)
}

/// Fragment `i` of a group of `chunks`.
pub open spec fn group_fragment(frag_id: u64, chunks: Seq<Seq<u8>>, acks: Seq<bool>, i: int) -> FragmentView {
    FragmentView {
        frag_id,
        index: i as nat,
        total: chunks.len(),
        data: chunks[i],
        req_ack: acks[i],
    }
}

/// The fragments of a group in the order `perm`.
pub open spec fn arrivals(frag_id: u64, chunks: Seq<Seq<u8>>, acks: Seq<bool>, perm: Seq<int>) -> Seq<FragmentView> {
    Seq::new(perm.len(), |j: int| group_fragment(frag_id, chunks, acks, perm[j]))
}

/// The slots of the group after the first `k` arrivals.
pub open spec fn slots_after(chunks: Seq<Seq<u8>>, perm: Seq<int>, k: int) -> Seq<Option<Seq<u8>>> {
    Seq::new(
        chunks.len(),
        |i: int|
            if exists|j: int| 0 <= j < k && perm[j] == i {
                Some(chunks[i])
            } else {
                None
            },
    )
}

/// Whether an output is the payload `p`.
pub open spec fn surfaced(o: Option<(Seq<u8>, bool)>, p: Seq<u8>) -> bool {
    match o {
        Some((q, _)) => q == p,
        None => false,
    }
}

/// Whether the table holds the group of `peer` and `frag_id` with `n`
/// fragments and these slots.
pub open spec fn holds_group(
    s: Seq<GroupView>,
    peer: PeerAddr,
    frag_id: u64,
    n: nat,
    slots: Seq<Option<Seq<u8>>>,
) -> bool {
    match find_from(s, peer, frag_id, 0) {
        Some(pos) => s[pos].total == n && s[pos].slots == slots,
        None => false,
    }
}

pub open spec fn all_fresh(s: Seq<GroupView>, now: nat, ttl: nat) -> bool {
    forall|i: int| 0 <= i < s.len() ==> !expired(#[trigger] s[i], now, ttl)
}

proof fn lemma_add_spec_fresh(
    s: Seq<GroupView>,
    max: nat,
    ttl: nat,
    peer: PeerAddr,
    fr: FragmentView,
    now: nat,
)
    requires
        groups_valid(s),
        fr.index < fr.total,
    ensures
        groups_valid(add_spec(s, max, ttl, peer, fr, now).0),
        all_fresh(add_spec(s, max, ttl, peer, fr, now).0, now, ttl),
{
    let s1 = live(s, now, ttl);
    let after = add_spec(s, max, ttl, peer, fr, now).0;
    lemma_live_all_fresh(s, now, ttl);
    lemma_live_valid(s, now, ttl);
    lemma_find_from(s1, peer, fr.frag_id, 0);
    match find_from(s1, peer, fr.frag_id, 0) {
        Some(k) => {
            let g = s1[k];
            if g.total != fr.total || g.slots[fr.index as int] is Some {
            } else {
                let g2 = GroupView {
                    slots: g.slots.update(fr.index as int, Some(fr.data)),
                    req_ack: g.req_ack || fr.req_ack,
                    ..g
                };
                if all_some(g2.slots) {
                    assert forall|i: int| 0 <= i < after.len() implies !expired(#[trigger] after[i], now, ttl) && after[i].slots.len() == after[i].total by {
                        if i < k {
                            assert(after[i] == s1[i]);
                        } else {
                            assert(after[i] == s1[i + 1]);
                        }
                    }
                } else {
                    assert forall|i: int| 0 <= i < after.len() implies !expired(#[trigger] after[i], now, ttl) && after[i].slots.len() == after[i].total by {
                        if i != k {
                            assert(after[i] == s1[i]);
                        }
                    }
                }
            }
        },
        None => {
            let g2 = new_group(peer, fr, now);
            if !all_some(g2.slots) {
                let s2 = if s1.len() >= max && s1.len() > 0 {
                    s1.drop_first()
                } else {
                    s1
                };
                assert forall|i: int| 0 <= i < after.len() implies !expired(#[trigger] after[i], now, ttl) && after[i].slots.len() == after[i].total by {
                    if i < s2.len() {
                        if s1.len() >= max && s1.len() > 0 {
                            assert(after[i] == s1[i + 1]);
                        } else {
                            assert(after[i] == s1[i]);
                        }
                    }
                }
            }
        },
    }
}

proof fn lemma_slots_step(chunks: Seq<Seq<u8>>, perm: Seq<int>, k: int)
    requires
        is_permutation(perm, chunks.len()),
        0 <= k < chunks.len(),
    ensures
        slots_after(chunks, perm, k)[perm[k]] is None,
        slots_after(chunks, perm, k + 1) == slots_after(chunks, perm, k).update(
            perm[k],
            Some(chunks[perm[k]]),
        ),
{
    let n = chunks.len();
    let a = slots_after(chunks, perm, k);
    let b = slots_after(chunks, perm, k + 1);
    assert(0 <= perm[k] < n);
    if exists|j: int| 0 <= j < k && perm[j] == perm[k] {
        let j = choose|j: int| 0 <= j < k && perm[j] == perm[k];
        assert(perm[j] != perm[k]);
    }
    assert forall|i: int| 0 <= i < n implies #[trigger] b[i] == a.update(perm[k], Some(chunks[perm[k]]))[i] by {
        if i == perm[k] {
            assert(exists|j: int| 0 <= j < k + 1 && perm[j] == i) by {
                assert(perm[k] == i);
            }
        } else {
            if exists|j: int| 0 <= j < k + 1 && perm[j] == i {
                let j = choose|j: int| 0 <= j < k + 1 && perm[j] == i;
                assert(j != k);
                assert(exists|j2: int| 0 <= j2 < k && perm[j2] == i);
            }
            if exists|j: int| 0 <= j < k && perm[j] == i {
                let j = choose|j: int| 0 <= j < k && perm[j] == i;
                assert(exists|j2: int| 0 <= j2 < k + 1 && perm[j2] == i);
            }
        }
    }
    assert(b =~= a.update(perm[k], Some(chunks[perm[k]])));
}

proof fn lemma_slots_count(chunks: Seq<Seq<u8>>, perm: Seq<int>, k: int)
    requires
        is_permutation(perm, chunks.len()),
        0 <= k <= chunks.len(),
    ensures
        count_some(slots_after(chunks, perm, k)) == k,
    decreases k,
{
    if k == 0 {
        assert(slots_after(chunks, perm, 0) =~= Seq::new(chunks.len(), |i: int| None::<Seq<u8>>));
        lemma_count_none(chunks.len());
    } else {
        lemma_slots_count(chunks, perm, k - 1);
        lemma_slots_step(chunks, perm, k - 1);
        lemma_count_update(slots_after(chunks, perm, k - 1), perm[k - 1], chunks[perm[k - 1]]);
    }
}

proof fn lemma_join_all(chunks: Seq<Seq<u8>>)
    ensures
        join(Seq::new(chunks.len(), |i: int| Some(chunks[i]))) == concat_chunks(chunks),
    decreases chunks.len(),
{
    if chunks.len() > 0 {
        lemma_join_all(chunks.drop_last());
        assert(Seq::new(chunks.len(), |i: int| Some(chunks[i])).drop_last() =~= Seq::new(
            chunks.drop_last().len(),
            |i: int| Some(chunks.drop_last()[i]),
        ));
    }
}

/// The state after the first `k` arrivals of a group that was not in the
/// table: for `0 < k < n` the table holds the group, with the chunks that
/// arrived, and nothing was surfaced; after all `n` the joined payload was.
proof fn lemma_deliver_prefix(
    s: Seq<GroupView>,
    max: nat,
    ttl: nat,
    peer: PeerAddr,
    frag_id: u64,
    chunks: Seq<Seq<u8>>,
    acks: Seq<bool>,
    perm: Seq<int>,
    now: nat,
    k: int,
)
    requires
        groups_valid(s),
        chunks.len() >= 1,
        acks.len() == chunks.len(),
        is_permutation(perm, chunks.len()),
        find_from(live(s, now, ttl), peer, frag_id, 0) is None,
        0 <= k <= chunks.len(),
    ensures
        ({
            let st = deliver_seq(s, max, ttl, peer, arrivals(frag_id, chunks, acks, perm).take(k), now);
            &&& st.1.len() == k
            &&& forall|j: int| 0 <= j < k && j < chunks.len() - 1 ==> (#[trigger] st.1[j]) is None
            &&& 0 < k < chunks.len() ==> {
                &&& groups_valid(st.0)
                &&& all_fresh(st.0, now, ttl)
                &&& holds_group(st.0, peer, frag_id, chunks.len(), slots_after(chunks, perm, k))
            }
            &&& k == chunks.len() ==> surfaced(st.1[k - 1], concat_chunks(chunks))
        }),
    decreases k,
{
    let n = chunks.len();
    let frs = arrivals(frag_id, chunks, acks, perm);
    if k == 0 {
        assert(frs.take(0) =~= Seq::<FragmentView>::empty());
        return;
    }
    lemma_deliver_prefix(s, max, ttl, peer, frag_id, chunks, acks, perm, now, k - 1);
    assert(frs.take(k).drop_last() =~= frs.take(k - 1));
    let prev = deliver_seq(s, max, ttl, peer, frs.take(k - 1), now);
    let fr = frs.take(k).last();
    assert(fr == group_fragment(frag_id, chunks, acks, perm[k - 1]));
    let step = add_spec(prev.0, max, ttl, peer, fr, now);
    let st = deliver_seq(s, max, ttl, peer, frs.take(k), now);
    assert(st == (step.0, prev.1.push(step.1)));
    lemma_slots_step(chunks, perm, k - 1);
    lemma_slots_count(chunks, perm, k);
    lemma_count_full(slots_after(chunks, perm, k));
    assert(0 <= perm[k - 1] < n);
    if k == 1 {
        assert(prev.0 == s);
        let s1 = live(s, now, ttl);
        assert(slots_after(chunks, perm, 0) =~= Seq::new(n, |i: int| None::<Seq<u8>>));
        let g2 = new_group(peer, fr, now);
        assert(g2.slots == slots_after(chunks, perm, 1));
        lemma_add_spec_fresh(prev.0, max, ttl, peer, fr, now);
        if n == 1 {
            assert(slots_after(chunks, perm, 1) =~= Seq::new(n, |i: int| Some(chunks[i])));
            lemma_join_all(chunks);
        } else {
            assert(!all_some(g2.slots));
            let s2 = if s1.len() >= max && s1.len() > 0 {
                s1.drop_first()
            } else {
                s1
            };
            lemma_find_from(s1, peer, frag_id, 0);
            assert forall|j: int| 0 <= j < s2.len() implies !(#[trigger] step.0[j].peer == peer && step.0[j].frag_id == frag_id) by {
                if s1.len() >= max && s1.len() > 0 {
                    assert(step.0[j] == s1[j + 1]);
                } else {
                    assert(step.0[j] == s1[j]);
                }
            }
            lemma_find_first(step.0, peer, frag_id, 0, s2.len() as int);
        }
    } else {
        let pos = find_from(prev.0, peer, frag_id, 0)->Some_0;
        lemma_live_of_fresh(prev.0, now, ttl);
        lemma_find_from(prev.0, peer, frag_id, 0);
        let g = prev.0[pos];
        let g2 = GroupView {
            slots: g.slots.update(fr.index as int, Some(fr.data)),
            req_ack: g.req_ack || fr.req_ack,
            ..g
        };
        assert(g2.slots == slots_after(chunks, perm, k));
        lemma_add_spec_fresh(prev.0, max, ttl, peer, fr, now);
        if k == n {
            assert forall|i: int| 0 <= i < n implies #[trigger] slots_after(chunks, perm, k)[i] == Some(chunks[i]) by {
                assert(perm.contains(i));
                let j = choose|j: int| 0 <= j < perm.len() && perm[j] == i;
                assert(exists|j2: int| 0 <= j2 < k && perm[j2] == i);
            }
            assert(slots_after(chunks, perm, k) =~= Seq::new(n, |i: int| Some(chunks[i])));
            lemma_join_all(chunks);
        } else {
            assert(step.0 == prev.0.update(pos, g2));
            assert forall|j: int| 0 <= j < pos implies !(#[trigger] step.0[j].peer == peer && step.0[j].frag_id == frag_id) by {
                assert(step.0[j] == prev.0[j]);
            }
            lemma_find_first(step.0, peer, frag_id, 0, pos);
        }
    }
}

/// Whatever order the `n` fragments of a group arrive in, at one moment and
/// into a table that holds no group of theirs, nothing is surfaced before the
/// last one and the last one surfaces the chunks joined in index order.
pub proof fn lemma_reassembly_any_order(
    s: Seq<GroupView>,
    max: nat,
    ttl: nat,
    peer: PeerAddr,
    frag_id: u64,
    chunks: Seq<Seq<u8>>,
    acks: Seq<bool>,
    perm: Seq<int>,
    now: nat,
)
    requires
        groups_valid(s),
        chunks.len() >= 1,
        acks.len() == chunks.len(),
        is_permutation(perm, chunks.len()),
        find_from(live(s, now, ttl), peer, frag_id, 0) is None,
    ensures
        ({
            let outs = deliver_seq(s, max, ttl, peer, arrivals(frag_id, chunks, acks, perm), now).1;
            &&& outs.len() == chunks.len()
            &&& forall|j: int| 0 <= j < chunks.len() - 1 ==> (#[trigger] outs[j]) is None
            &&& surfaced(outs[chunks.len() - 1], concat_chunks(chunks))
        }),
{
    let frs = arrivals(frag_id, chunks, acks, perm);
    lemma_deliver_prefix(s, max, ttl, peer, frag_id, chunks, acks, perm, now, chunks.len() as int);
    assert(frs.take(chunks.len() as int) =~= frs);
}

} // verus!
