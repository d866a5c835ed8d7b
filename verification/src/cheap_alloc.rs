//! Slot-based bootstrap range allocator.
//!
//! A fixed pool of range descriptors is threaded onto an intrusive free
//! list; registering a memory range moves one descriptor into a slot's
//! free-range list, and allocating moves (and possibly splits) a descriptor
//! from a slot's free-range list to its used-range list. The allocator's
//! own bookkeeping never allocates: every descriptor it will ever use sits
//! in the pool from the start, and descriptors only move between lists.

use vstd::prelude::*;
use vstd::multiset::Multiset;
use crate::list::{ForwardNode, Link, ListAdapter, NodeTrait, SingleForwardList};

verus! {

/// Number of slots an allocator manages.
pub const SLOT_NUM: usize = 8;

/// Number of range descriptors in the pool.
pub const RANGE_BUF_LEN: usize = 256;

/// Bit `i` selects slot `i`.
pub type SlotMask = u8;

/// One contiguous address range; `bytes == 0` marks a descriptor as unused.
#[derive(Clone, Copy, Debug, PartialEq, Eq, Structural)]
pub struct AdrRange {
    pub adr: usize,
    pub bytes: usize,
}

impl AdrRange {
    pub fn new() -> (r: Self)
        ensures
            r == (AdrRange { adr: 0, bytes: 0 }),
    {
        AdrRange { adr: 0, bytes: 0 }
    }

    pub fn set(&mut self, adr: usize, bytes: usize)
        ensures
            *final(self) == (AdrRange { adr, bytes }),
    {
        self.adr = adr;
        self.bytes = bytes;
    }
}

/// A pool-resident range descriptor: an address range wrapped in a forward
/// node, the unit moved between the free pool and the slots' lists.
#[derive(Clone, Copy, Debug)]
pub struct RangeEnt {
    pub node: ForwardNode,
    pub range: AdrRange,
}

impl RangeEnt {
    pub fn new() -> (r: Self)
        ensures
            r.range == (AdrRange { adr: 0, bytes: 0 }),
    {
        RangeEnt { node: ForwardNode::new(), range: AdrRange::new() }
    }
}

/// Locates the node embedded in a `RangeEnt`.
#[derive(Clone, Copy)]
pub struct RangeAdapter;

impl ListAdapter<RangeEnt> for RangeAdapter {
    open spec fn spec_next(e: RangeEnt) -> Link {
        e.node.spec_next()
    }

    open spec fn with_next(e: RangeEnt, l: Link) -> RangeEnt {
        RangeEnt { node: e.node.with_next(l), ..e }
    }

    open spec fn with_prev(e: RangeEnt, l: Link) -> RangeEnt {
        RangeEnt { node: e.node.with_prev(l), ..e }
    }

    proof fn lemma_links(e: RangeEnt, l: Link, p: Link) {
    }

    fn get_next(e: &RangeEnt) -> (l: Link) {
        e.node.get_next()
    }

    fn set_next(e: &mut RangeEnt, l: Link) {
        e.node.set_next(l);
    }

    fn set_prev(e: &mut RangeEnt, l: Link) {
        e.node.set_prev(l);
    }
}

/// The list type every descriptor list uses.
pub type RangeList = SingleForwardList<RangeEnt, RangeAdapter>;

/// One named address region and its bookkeeping: the ranges still free and
/// the ranges handed out.
#[derive(Clone, Copy)]
pub struct AdrSlot {
    pub start: usize,
    pub end: usize,
    pub free_ranges: RangeList,
    pub used_ranges: RangeList,
}

impl AdrSlot {
    pub fn new() -> (r: Self)
        ensures
            r.start == 0,
            r.end == 0,
            r.free_ranges@ == Seq::<usize>::empty(),
            r.used_ranges@ == Seq::<usize>::empty(),
            forall|pool: Seq<RangeEnt>| r.free_ranges.wf(pool),
            forall|pool: Seq<RangeEnt>| r.used_ranges.wf(pool),
    {
        AdrSlot {
            start: 0,
            end: 0,
            free_ranges: RangeList::new(),
            used_ranges: RangeList::new(),
        }
    }
}

/// One region definition: the bounds a slot is stamped with.
#[derive(Clone, Copy, Debug, PartialEq, Eq, Structural)]
pub struct SlotDef {
    pub start: usize,
    pub end: usize,
}

/// The region definitions for all slots, supplied before any allocation.
pub struct SlotDefs {
    pub defs: Vec<SlotDef>,
}

impl View for SlotDefs {
    type V = Seq<SlotDef>;

    open spec fn view(&self) -> Seq<SlotDef> {
        self.defs@
    }
}

impl SlotDefs {
    pub open spec fn wf(self) -> bool {
        self@.len() == SLOT_NUM
    }

    /// All slots start with empty bounds.
    pub fn new() -> (r: Self)
        ensures
            r.wf(),
            forall|i: int| 0 <= i < SLOT_NUM ==> r@[i] == (SlotDef { start: 0, end: 0 }),
    {
        let mut defs: Vec<SlotDef> = Vec::new();
        let mut i: usize = 0;
        while i < SLOT_NUM
            invariant
                i <= SLOT_NUM,
                defs@.len() == i,
                forall|j: int| 0 <= j < i ==> defs@[j] == (SlotDef { start: 0, end: 0 }),
            decreases SLOT_NUM - i,
        {
            defs.push(SlotDef { start: 0, end: 0 });
            i = i + 1;
        }
        SlotDefs { defs }
    }

    pub fn set(&mut self, i: usize, start: usize, end: usize)
        requires
            old(self).wf(),
            i < SLOT_NUM,
        ensures
            final(self)@ == old(self)@.update(i as int, SlotDef { start, end }),
            final(self).wf(),
    {
        self.defs.set(i, SlotDef { start, end });
    }
}

/// The two ways a request can fail: the descriptor pool has no spare
/// record, or no eligible free range is large enough.
#[derive(Clone, Copy, Debug, PartialEq, Eq, Structural)]
pub enum AllocError {
    Exhausted,
    NoFit,
}

/// The owning handle a successful allocation returns: the aligned address,
/// and a back-reference (the owning slot and the descriptor index) that a
/// future release path would need.
#[derive(Clone, Copy, Debug, PartialEq, Eq, Structural)]
pub struct X {
    pub adr: usize,
    pub slot: usize,
    pub ent: usize,
}

/// Is bit `i` of `slotmask` set?
pub fn is_masked(i: usize, slotmask: SlotMask) -> (r: bool)
    requires
        i < SLOT_NUM,
    ensures
        r == spec_is_masked(i as int, slotmask),
{
    (1usize << i) & (slotmask as usize) != 0
}

pub open spec fn spec_is_masked(i: int, slotmask: SlotMask) -> bool {
    (1usize << i) & (slotmask as usize) != 0
}

/// The slot-based range allocator: the descriptor pool, the free list
/// threading its unused descriptors, and the slots.
pub struct CheapAlloc {
    free_buf_list: RangeList,
    slots: Vec<AdrSlot>,
    range_buf: Vec<RangeEnt>,
}

impl CheapAlloc {
    /// The descriptor pool.
    pub closed spec fn pool(self) -> Seq<RangeEnt> {
        self.range_buf@
    }

    /// The pool indices of the unused descriptors, front to back.
    pub closed spec fn free_pool(self) -> Seq<usize> {
        self.free_buf_list@
    }

    /// The pool indices on slot `i`'s free-range list, front to back.
    pub closed spec fn slot_free(self, i: int) -> Seq<usize> {
        self.slots@[i].free_ranges@
    }

    /// The pool indices on slot `i`'s used-range list, front to back.
    pub closed spec fn slot_used(self, i: int) -> Seq<usize> {
        self.slots@[i].used_ranges@
    }

    pub closed spec fn slot_start(self, i: int) -> usize {
        self.slots@[i].start
    }

    pub closed spec fn slot_end(self, i: int) -> usize {
        self.slots@[i].end
    }

    /// The range held by descriptor `d`.
    pub closed spec fn range_at(self, d: usize) -> AdrRange {
        self.pool()[d as int].range
    }

    /// The ranges on slot `i`'s free-range list, front to back.
    pub open spec fn slot_free_ranges(self, i: int) -> Seq<AdrRange> {
        Seq::new(self.slot_free(i).len(), |p: int| self.range_at(self.slot_free(i)[p]))
    }

    /// The ranges on slot `i`'s used-range list, front to back.
    pub open spec fn slot_used_ranges(self, i: int) -> Seq<AdrRange> {
        Seq::new(self.slot_used(i).len(), |p: int| self.range_at(self.slot_used(i)[p]))
    }

    /// The descriptors slot `i` holds, free and used together.
    pub open spec fn slot_ms(self, i: int) -> Multiset<usize> {
        self.slot_free(i).to_multiset().add(self.slot_used(i).to_multiset())
    }

    /// The descriptors held by slots `0 .. n` together.
    pub open spec fn slots_ms_upto(self, n: int) -> Multiset<usize>
        decreases n,
    {
        if n <= 0 {
            Multiset::empty()
        } else {
            self.slots_ms_upto(n - 1).add(self.slot_ms(n - 1))
        }
    }

    /// Every descriptor the allocator tracks, over all its lists.
    pub open spec fn total_ms(self) -> Multiset<usize> {
        self.free_pool().to_multiset().add(self.slots_ms_upto(SLOT_NUM as int))
    }

    /// The pool indices, each once.
    pub open spec fn full_range_seq() -> Seq<usize> {
        Seq::new(RANGE_BUF_LEN as nat, |i: int| i as usize)
    }

    pub open spec fn full_ms() -> Multiset<usize> {
        Self::full_range_seq().to_multiset()
    }

    /// `r` lies inside the slot bounds `[start, end]` and is non-empty.
    pub open spec fn range_in_bounds(r: AdrRange, start: usize, end: usize) -> bool {
        &&& r.bytes >= 1
        &&& start <= r.adr
        &&& r.adr + r.bytes <= end + 1
    }

    /// The two ranges share no address.
    pub open spec fn ranges_disjoint(r1: AdrRange, r2: AdrRange) -> bool {
        r1.adr + r1.bytes <= r2.adr || r2.adr + r2.bytes <= r1.adr
    }

    /// Slot `i`'s lists hold only ranges inside its bounds, and its free
    /// ranges do not overlap each other.
    pub open spec fn slot_ranges_ok(self, i: int) -> bool {
        &&& forall|p: int|
            0 <= p < self.slot_free(i).len() ==> Self::range_in_bounds(
                self.range_at(#[trigger] self.slot_free(i)[p]),
                self.slot_start(i),
                self.slot_end(i),
            )
        &&& forall|p: int|
            0 <= p < self.slot_used(i).len() ==> Self::range_in_bounds(
                self.range_at(#[trigger] self.slot_used(i)[p]),
                self.slot_start(i),
                self.slot_end(i),
            )
        &&& forall|p: int, q: int|
            0 <= p < self.slot_free(i).len() && 0 <= q < self.slot_free(i).len() && p != q
                ==> Self::ranges_disjoint(
                self.range_at(#[trigger] self.slot_free(i)[p]),
                self.range_at(#[trigger] self.slot_free(i)[q]),
            )
    }

    /// The shape every reachable allocator satisfies: the lists are well
    /// formed over the pool; every descriptor sits on exactly one list
    /// (the multiset of all lists together is the whole pool, each index
    /// once); slots hold only in-bounds ranges with non-overlapping free
    /// ranges; and pooled descriptors are marked unused.
    pub closed spec fn wf(self) -> bool {
        &&& self.shape_ok()
        &&& self.total_ms() == Self::full_ms()
    }

    /// `wf`, except that descriptor `d` has been taken off every list and
    /// is in the caller's hand.
    pub closed spec fn wf_except(self, d: usize) -> bool {
        &&& self.shape_ok()
        &&& d < RANGE_BUF_LEN
        &&& self.total_ms().insert(d) == Self::full_ms()
    }

    pub closed spec fn shape_ok(self) -> bool {
        &&& self.slots@.len() == SLOT_NUM
        &&& self.range_buf@.len() == RANGE_BUF_LEN
        &&& self.free_buf_list.wf(self.pool())
        &&& forall|i: int|
            0 <= i < SLOT_NUM ==> (#[trigger] self.slots@[i]).free_ranges.wf(self.pool())
        &&& forall|i: int|
            0 <= i < SLOT_NUM ==> (#[trigger] self.slots@[i]).used_ranges.wf(self.pool())
        &&& forall|i: int| 0 <= i < SLOT_NUM ==> self.slot_ranges_ok(i)
        &&& forall|p: int|
            0 <= p < self.free_pool().len() ==> self.range_at(
                #[trigger] self.free_pool()[p],
            ).bytes == 0
    }

    /// Unfolds the per-slot multiset sum for the fixed slot count.
    proof fn lemma_unfold_slots_ms(a: Self)
        ensures
            a.slots_ms_upto(SLOT_NUM as int) == a.slot_ms(0).add(a.slot_ms(1)).add(a.slot_ms(2))
                .add(a.slot_ms(3)).add(a.slot_ms(4)).add(a.slot_ms(5)).add(a.slot_ms(6)).add(
                a.slot_ms(7),
            ),
    {
        broadcast use vstd::multiset::group_multiset_axioms;

        assert(a.slots_ms_upto(0) == Multiset::<usize>::empty());
        assert(a.slots_ms_upto(1) == a.slots_ms_upto(0).add(a.slot_ms(0)));
        assert(a.slots_ms_upto(2) == a.slots_ms_upto(1).add(a.slot_ms(1)));
        assert(a.slots_ms_upto(3) == a.slots_ms_upto(2).add(a.slot_ms(2)));
        assert(a.slots_ms_upto(4) == a.slots_ms_upto(3).add(a.slot_ms(3)));
        assert(a.slots_ms_upto(5) == a.slots_ms_upto(4).add(a.slot_ms(4)));
        assert(a.slots_ms_upto(6) == a.slots_ms_upto(5).add(a.slot_ms(5)));
        assert(a.slots_ms_upto(7) == a.slots_ms_upto(6).add(a.slot_ms(6)));
        assert(a.slots_ms_upto(8) == a.slots_ms_upto(7).add(a.slot_ms(7)));
        assert(Multiset::<usize>::empty().add(a.slot_ms(0)) =~= a.slot_ms(0));
    }

    /// How often descriptor `d` occurs, list by list.
    proof fn lemma_total_count(a: Self, d: usize)
        ensures
            a.total_ms().count(d) == a.free_pool().to_multiset().count(d) + a.slot_free(
                0,
            ).to_multiset().count(d) + a.slot_used(0).to_multiset().count(d) + a.slot_free(
                1,
            ).to_multiset().count(d) + a.slot_used(1).to_multiset().count(d) + a.slot_free(
                2,
            ).to_multiset().count(d) + a.slot_used(2).to_multiset().count(d) + a.slot_free(
                3,
            ).to_multiset().count(d) + a.slot_used(3).to_multiset().count(d) + a.slot_free(
                4,
            ).to_multiset().count(d) + a.slot_used(4).to_multiset().count(d) + a.slot_free(
                5,
            ).to_multiset().count(d) + a.slot_used(5).to_multiset().count(d) + a.slot_free(
                6,
            ).to_multiset().count(d) + a.slot_used(6).to_multiset().count(d) + a.slot_free(
                7,
            ).to_multiset().count(d) + a.slot_used(7).to_multiset().count(d),
    {
        broadcast use vstd::multiset::group_multiset_axioms;

        Self::lemma_unfold_slots_ms(a);
    }

    /// Each pool index occurs exactly once in the full multiset.
    proof fn lemma_full_ms_count(d: usize)
        ensures
            Self::full_ms().count(d) == if (d as int) < RANGE_BUF_LEN as int {
                1int
            } else {
                0int
            },
    {
        broadcast use vstd::seq_lib::group_to_multiset_ensures;

        let s = Self::full_range_seq();
        assert(s.no_duplicates());
        if (d as int) < RANGE_BUF_LEN as int {
            assert(s[d as int] == d);
            assert(s.contains(d));
            s.lemma_multiset_has_no_duplicates();
            assert(s.to_multiset().count(d) > 0);
        } else {
            assert(!s.contains(d));
        }
    }

    /// Two allocators whose slots hold the same descriptors have the same
    /// slot multiset sum.
    proof fn lemma_slots_ms_congruent(a: Self, b: Self, n: int)
        requires
            forall|j: int| 0 <= j < n ==> a.slot_ms(j) == b.slot_ms(j),
        ensures
            a.slots_ms_upto(n) == b.slots_ms_upto(n),
        decreases n,
    {
        if n > 0 {
            Self::lemma_slots_ms_congruent(a, b, n - 1);
        }
    }

    /// A change confined to slot `i` moves the slot multiset sum by
    /// exactly that slot's change.
    proof fn lemma_slots_ms_frame(a: Self, b: Self, i: int, n: int)
        requires
            0 <= i < n,
            forall|j: int| 0 <= j < n && j != i ==> a.slot_ms(j) == b.slot_ms(j),
        ensures
            a.slots_ms_upto(n).add(b.slot_ms(i)) == b.slots_ms_upto(n).add(a.slot_ms(i)),
        decreases n,
    {
        broadcast use vstd::multiset::group_multiset_axioms;

        if i == n - 1 {
            Self::lemma_slots_ms_congruent(a, b, n - 1);
            assert(a.slots_ms_upto(n).add(b.slot_ms(i)) =~= b.slots_ms_upto(n).add(
                a.slot_ms(i),
            ));
        } else {
            Self::lemma_slots_ms_frame(a, b, i, n - 1);
            assert(a.slots_ms_upto(n) == a.slots_ms_upto(n - 1).add(a.slot_ms(n - 1)));
            assert(b.slots_ms_upto(n) == b.slots_ms_upto(n - 1).add(b.slot_ms(n - 1)));
            assert(a.slot_ms(n - 1) == b.slot_ms(n - 1));
            assert forall|v: usize| a.slots_ms_upto(n).add(b.slot_ms(i)).count(v)
                == b.slots_ms_upto(n).add(a.slot_ms(i)).count(v) by {
                assert(a.slots_ms_upto(n - 1).add(b.slot_ms(i)).count(v) == b.slots_ms_upto(
                    n - 1,
                ).add(a.slot_ms(i)).count(v));
            }
            assert(a.slots_ms_upto(n).add(b.slot_ms(i)) =~= b.slots_ms_upto(n).add(
                a.slot_ms(i),
            ));
        }
    }

    /// Slots that hold nothing contribute nothing.
    proof fn lemma_slots_ms_all_empty(a: Self, n: int)
        requires
            forall|j: int|
                0 <= j < n ==> (#[trigger] a.slot_free(j)).len() == 0 && a.slot_used(j).len()
                    == 0,
        ensures
            a.slots_ms_upto(n) == Multiset::<usize>::empty(),
        decreases n,
    {
        broadcast use vstd::multiset::group_multiset_axioms;
        broadcast use vstd::seq_lib::group_to_multiset_ensures;

        if n > 0 {
            Self::lemma_slots_ms_all_empty(a, n - 1);
            vstd::multiset::lemma_multiset_empty_len(a.slot_free(n - 1).to_multiset());
            vstd::multiset::lemma_multiset_empty_len(a.slot_used(n - 1).to_multiset());
            assert(a.slot_ms(n - 1) =~= Multiset::<usize>::empty());
            assert(a.slots_ms_upto(n) =~= Multiset::<usize>::empty());
        }
    }

    /// A slot carrying `def`'s bounds and nothing else.
    spec fn slot_cleared(s: AdrSlot, def: SlotDef) -> bool {
        &&& s.start == def.start
        &&& s.end == def.end
        &&& s.free_ranges@ == Seq::<usize>::empty()
        &&& s.used_ranges@ == Seq::<usize>::empty()
        &&& forall|pool: Seq<RangeEnt>| s.free_ranges.wf(pool)
        &&& forall|pool: Seq<RangeEnt>| s.used_ranges.wf(pool)
    }

    /// Clear every descriptor, thread the whole pool onto the free list in
    /// pool-array order, empty every slot's lists and stamp its bounds.
    fn reset(&mut self, defs: &SlotDefs)
        requires
            old(self).slots@.len() == SLOT_NUM,
            old(self).range_buf@.len() == RANGE_BUF_LEN,
            defs.wf(),
        ensures
            final(self).wf(),
            final(self).free_pool() == Seq::new(
                RANGE_BUF_LEN as nat,
                |p: int| (RANGE_BUF_LEN - 1 - p) as usize,
            ),
            forall|i: int|
                0 <= i < SLOT_NUM ==> final(self).slot_free(i) == Seq::<usize>::empty()
                    && final(self).slot_used(i) == Seq::<usize>::empty()
                    && final(self).slot_start(i) == defs@[i].start
                    && final(self).slot_end(i) == defs@[i].end,
            forall|d: usize|
                d < RANGE_BUF_LEN ==> final(self).range_at(d) == (AdrRange { adr: 0, bytes: 0 }),
    {
        self.free_buf_list = RangeList::new();
        let mut i: usize = 0;
        while i < SLOT_NUM
            invariant
                i <= SLOT_NUM,
                self.slots@.len() == SLOT_NUM,
                self.range_buf@.len() == RANGE_BUF_LEN,
                defs.wf(),
                self.free_buf_list@ == Seq::<usize>::empty(),
                forall|pool: Seq<RangeEnt>| self.free_buf_list.wf(pool),
                forall|j: int| 0 <= j < i ==> Self::slot_cleared(#[trigger] self.slots@[j], defs@[j]),
            decreases SLOT_NUM - i,
        {
            let def = defs.defs[i];
            let mut slot = AdrSlot::new();
            slot.start = def.start;
            slot.end = def.end;
            self.slots.set(i, slot);
            i = i + 1;
        }
        let mut k: usize = 0;
        while k < RANGE_BUF_LEN
            invariant
                k <= RANGE_BUF_LEN,
                self.slots@.len() == SLOT_NUM,
                self.range_buf@.len() == RANGE_BUF_LEN,
                defs.wf(),
                forall|j: int| 0 <= j < SLOT_NUM ==> Self::slot_cleared(#[trigger] self.slots@[j], defs@[j]),
                self.free_buf_list.wf(self.pool()),
                self.free_buf_list@ == Seq::new(k as nat, |p: int| (k - 1 - p) as usize),
                forall|j: int| 0 <= j < k ==> (#[trigger] self.range_buf@[j]).range == (AdrRange {
                    adr: 0,
                    bytes: 0,
                }),
            decreases RANGE_BUF_LEN - k,
        {
            let ghost pool0 = self.range_buf@;
            let ghost s0 = self.free_buf_list@;
            self.range_buf.set(k, RangeEnt::new());
            proof {
                assert forall|p: int| 0 <= p < s0.len() implies s0[p] != k by {
                    assert(s0[p] == (k - 1 - p) as usize);
                }
                self.free_buf_list.lemma_wf_frame(pool0, self.range_buf@);
                assert(!s0.contains(k));
            }
            self.free_buf_list.push_front(&mut self.range_buf, k);
            k = k + 1;
            proof {
                assert(self.free_buf_list@ =~= Seq::new(k as nat, |p: int| (k - 1 - p) as usize));
            }
        }
        proof {
            let a = *self;
            assert forall|i2: int| 0 <= i2 < SLOT_NUM implies a.slots@[i2].free_ranges.wf(
                a.pool(),
            ) && a.slots@[i2].used_ranges.wf(a.pool()) && a.slot_ranges_ok(i2) by {
                assert(Self::slot_cleared(a.slots@[i2], defs@[i2]));
            }
            Self::lemma_slots_ms_all_empty(a, SLOT_NUM as int);
            let s = a.free_pool();
            assert(s =~= Self::full_range_seq().reverse());
            Self::full_range_seq().lemma_reverse_to_multiset();
            broadcast use vstd::multiset::group_multiset_axioms;

            assert(a.total_ms() =~= s.to_multiset());
            assert(a.total_ms() == Self::full_ms());
            assert forall|p: int| 0 <= p < s.len() implies a.range_at(#[trigger] s[p]).bytes
                == 0 by {
                assert(s[p] == (RANGE_BUF_LEN - 1 - p) as usize);
            }
            assert(a.wf());
        }
    }

    /// A fresh allocator: every descriptor pooled, every slot empty with
    /// zero bounds.
    pub fn new() -> (r: Self)
        ensures
            r.wf(),
            r.free_pool() == Seq::new(
                RANGE_BUF_LEN as nat,
                |p: int| (RANGE_BUF_LEN - 1 - p) as usize,
            ),
            forall|i: int|
                0 <= i < SLOT_NUM ==> r.slot_free(i) == Seq::<usize>::empty() && r.slot_used(i)
                    == Seq::<usize>::empty() && r.slot_start(i) == 0 && r.slot_end(i) == 0,
            forall|d: usize|
                d < RANGE_BUF_LEN ==> r.range_at(d) == (AdrRange { adr: 0, bytes: 0 }),
    {
        let mut slots: Vec<AdrSlot> = Vec::new();
        let mut i: usize = 0;
        while i < SLOT_NUM
            invariant
                i <= SLOT_NUM,
                slots@.len() == i,
            decreases SLOT_NUM - i,
        {
            slots.push(AdrSlot::new());
            i = i + 1;
        }
        let mut range_buf: Vec<RangeEnt> = Vec::new();
        let mut k: usize = 0;
        while k < RANGE_BUF_LEN
            invariant
                k <= RANGE_BUF_LEN,
                range_buf@.len() == k,
            decreases RANGE_BUF_LEN - k,
        {
            range_buf.push(RangeEnt::new());
            k = k + 1;
        }
        let defs = SlotDefs::new();
        let mut r = CheapAlloc { free_buf_list: RangeList::new(), slots, range_buf };
        r.reset(&defs);
        r
    }

    /// The two allocators give every slot the same bounds.
    pub open spec fn bounds_same(a: Self, b: Self) -> bool {
        forall|j: int|
            0 <= j < SLOT_NUM ==> a.slot_start(j) == b.slot_start(j) && a.slot_end(j)
                == b.slot_end(j)
    }

    /// The two allocators agree on every slot's lists and bounds.
    pub open spec fn slots_same(a: Self, b: Self) -> bool {
        &&& Self::bounds_same(a, b)
        &&& forall|j: int|
            0 <= j < SLOT_NUM ==> a.slot_free(j) == b.slot_free(j) && a.slot_used(j)
                == b.slot_used(j)
    }

    /// The two allocators agree on the ranges every slot's lists carry.
    pub open spec fn ranges_same(a: Self, b: Self) -> bool {
        forall|j: int|
            0 <= j < SLOT_NUM ==> a.slot_free_ranges(j) == b.slot_free_ranges(j)
                && a.slot_used_ranges(j) == b.slot_used_ranges(j)
    }

    /// The two allocators agree on the ranges every slot's lists carry,
    /// except possibly slot `i`'s.
    pub open spec fn ranges_same_but_slot(a: Self, b: Self, i: int) -> bool {
        forall|j: int|
            0 <= j < SLOT_NUM && j != i ==> a.slot_free_ranges(j) == b.slot_free_ranges(j)
                && a.slot_used_ranges(j) == b.slot_used_ranges(j)
    }

    /// The two allocators agree on every slot's lists and bounds, except
    /// possibly the lists of slot `i`.
    pub open spec fn same_but_slot(a: Self, b: Self, i: int) -> bool {
        &&& Self::bounds_same(a, b)
        &&& forall|j: int|
            0 <= j < SLOT_NUM && j != i ==> a.slot_free(j) == b.slot_free(j) && a.slot_used(j)
                == b.slot_used(j)
    }

    /// Claim one descriptor from the free pool. `Exhausted` when none is
    /// left: that is a hard capacity ceiling, not a transient condition.
    fn new_adrrange(&mut self) -> (r: Result<usize, AllocError>)
        requires
            old(self).wf(),
        ensures
            old(self).free_pool().len() == 0 ==> r == Err::<usize, AllocError>(
                AllocError::Exhausted,
            ) && *final(self) == *old(self),
            old(self).free_pool().len() > 0 ==> {
                let d = old(self).free_pool()[0];
                &&& r == Ok::<usize, AllocError>(d)
                &&& final(self).wf_except(d)
                &&& final(self).free_pool() == old(self).free_pool().drop_first()
                &&& final(self).pool() == old(self).pool()
                &&& Self::slots_same(*old(self), *final(self))
                &&& Self::ranges_same(*old(self), *final(self))
                &&& final(self).range_at(d).bytes == 0
            },
    {
        let r = self.free_buf_list.pop_front(&self.range_buf);
        match r {
            None => Err(AllocError::Exhausted),
            Some(d) => {
                proof {
                    broadcast use vstd::multiset::group_multiset_axioms;
                    broadcast use vstd::seq_lib::group_to_multiset_ensures;

                    let a0 = *old(self);
                    let a1 = *self;
                    let f0 = a0.free_pool();
                    assert(a1.free_pool() =~= f0.remove(0));
                    assert(f0.contains(d));
                    assert(f0.to_multiset().count(d) > 0);
                    Self::lemma_slots_ms_congruent(a1, a0, SLOT_NUM as int);
                    assert forall|v: usize| a1.total_ms().insert(d).count(v) == a0.total_ms().count(
                        v,
                    ) by {
                        assert(f0.remove(0).to_multiset() =~= f0.to_multiset().remove(f0[0]));
                    }
                    assert(a1.total_ms().insert(d) =~= a0.total_ms());
                    assert(a1.total_ms().insert(d) == Self::full_ms());
                    assert forall|i2: int| 0 <= i2 < SLOT_NUM implies a1.slot_ranges_ok(i2) by {
                        assert(a0.slot_ranges_ok(i2));
                        assert(a1.slot_free(i2) == a0.slot_free(i2));
                        assert(a1.slot_used(i2) == a0.slot_used(i2));
                        assert forall|p: int| 0 <= p < a1.slot_free(i2).len() implies a1.range_at(
                            #[trigger] a1.slot_free(i2)[p],
                        ) == a0.range_at(a0.slot_free(i2)[p]) by {}
                        assert forall|p: int| 0 <= p < a1.slot_used(i2).len() implies a1.range_at(
                            #[trigger] a1.slot_used(i2)[p],
                        ) == a0.range_at(a0.slot_used(i2)[p]) by {}
                    }
                    assert forall|p: int| 0 <= p < a1.free_pool().len() implies a1.range_at(
                        #[trigger] a1.free_pool()[p],
                    ).bytes == 0 by {
                        assert(a1.free_pool()[p] == f0[p + 1]);
                    }
                    assert forall|j: int| 0 <= j < SLOT_NUM implies a1.slot_free_ranges(j)
                        == a0.slot_free_ranges(j) && a1.slot_used_ranges(j)
                        == a0.slot_used_ranges(j) by {
                        assert(a1.slot_free_ranges(j) =~= a0.slot_free_ranges(j));
                        assert(a1.slot_used_ranges(j) =~= a0.slot_used_ranges(j));
                    }
                    assert(a1.wf_except(d));
                }
                Ok(d)
            },
        }
    }

    /// Fill the claimed descriptor `d`, which sits on no list, with a
    /// range. Every list is left as it was.
    fn set_range_at(&mut self, d: usize, adr: usize, bytes: usize)
        requires
            old(self).wf_except(d),
        ensures
            final(self).wf_except(d),
            final(self).range_at(d) == (AdrRange { adr, bytes }),
            forall|x: usize|
                x != d && x < RANGE_BUF_LEN ==> final(self).range_at(x) == old(self).range_at(x),
            final(self).free_pool() == old(self).free_pool(),
            Self::slots_same(*old(self), *final(self)),
            Self::ranges_same(*old(self), *final(self)),
    {
        proof {
            broadcast use vstd::multiset::group_multiset_axioms;
            broadcast use vstd::seq_lib::group_to_multiset_ensures;

            let a0 = *old(self);
            Self::lemma_total_count(a0, d);
            Self::lemma_full_ms_count(d);
            assert(a0.total_ms().insert(d).count(d) == Self::full_ms().count(d));
            assert(a0.total_ms().count(d) == 0);
        }
        let mut e = self.range_buf[d];
        e.range.set(adr, bytes);
        self.range_buf.set(d, e);
        proof {
            broadcast use vstd::multiset::group_multiset_axioms;
            broadcast use vstd::seq_lib::group_to_multiset_ensures;

            let a0 = *old(self);
            let a1 = *self;
            assert(!a0.free_pool().contains(d));
            a0.free_buf_list.lemma_wf_frame(a0.pool(), a1.pool());
            assert forall|i2: int| 0 <= i2 < SLOT_NUM implies a1.slots@[i2].free_ranges.wf(
                a1.pool(),
            ) && a1.slots@[i2].used_ranges.wf(a1.pool()) by {
                assert(a0.slot_free(i2).to_multiset().count(d) == 0);
                assert(a0.slot_used(i2).to_multiset().count(d) == 0);
                assert(!a0.slot_free(i2).contains(d));
                assert(!a0.slot_used(i2).contains(d));
                a0.slots@[i2].free_ranges.lemma_wf_frame(a0.pool(), a1.pool());
                a0.slots@[i2].used_ranges.lemma_wf_frame(a0.pool(), a1.pool());
            }
            assert forall|i2: int| 0 <= i2 < SLOT_NUM implies a1.slot_ranges_ok(i2) by {
                assert(a0.slot_ranges_ok(i2));
                assert(!a0.slot_free(i2).contains(d));
                assert(!a0.slot_used(i2).contains(d));
                assert forall|p: int| 0 <= p < a1.slot_free(i2).len() implies a1.range_at(
                    #[trigger] a1.slot_free(i2)[p],
                ) == a0.range_at(a0.slot_free(i2)[p]) by {
                    assert(a1.slot_free(i2)[p] != d);
                }
                assert forall|p: int| 0 <= p < a1.slot_used(i2).len() implies a1.range_at(
                    #[trigger] a1.slot_used(i2)[p],
                ) == a0.range_at(a0.slot_used(i2)[p]) by {
                    assert(a1.slot_used(i2)[p] != d);
                }
            }
            assert forall|p: int| 0 <= p < a1.free_pool().len() implies a1.range_at(
                #[trigger] a1.free_pool()[p],
            ).bytes == 0 by {
                assert(a1.free_pool()[p] != d);
            }
            Self::lemma_slots_ms_congruent(a1, a0, SLOT_NUM as int);
            assert forall|j: int| 0 <= j < SLOT_NUM implies a1.slot_free_ranges(j)
                == a0.slot_free_ranges(j) && a1.slot_used_ranges(j) == a0.slot_used_ranges(
                j,
            ) by {
                assert(a0.slot_free(j).to_multiset().count(d) == 0);
                assert(a0.slot_used(j).to_multiset().count(d) == 0);
                assert(!a0.slot_free(j).contains(d));
                assert(!a0.slot_used(j).contains(d));
                assert(a1.slot_free_ranges(j) =~= a0.slot_free_ranges(j)) by {
                    assert forall|q: int| 0 <= q < a1.slot_free(j).len() implies a1.range_at(
                        #[trigger] a1.slot_free(j)[q],
                    ) == a0.range_at(a0.slot_free(j)[q]) by {
                        assert(a1.slot_free(j)[q] != d);
                    }
                }
                assert(a1.slot_used_ranges(j) =~= a0.slot_used_ranges(j)) by {
                    assert forall|q: int| 0 <= q < a1.slot_used(j).len() implies a1.range_at(
                        #[trigger] a1.slot_used(j)[q],
                    ) == a0.range_at(a0.slot_used(j)[q]) by {
                        assert(a1.slot_used(j)[q] != d);
                    }
                }
            }
            assert(a1.wf_except(d));
        }
    }

    /// Thread the claimed descriptor `d` onto slot `i`'s free list. Its
    /// range must lie in the slot's bounds and clear of the free ranges
    /// already there.
    fn push_free(&mut self, i: usize, d: usize)
        requires
            old(self).wf_except(d),
            i < SLOT_NUM,
            old(self).range_at(d).bytes >= 1,
            Self::range_in_bounds(
                old(self).range_at(d),
                old(self).slot_start(i as int),
                old(self).slot_end(i as int),
            ),
            forall|p: int|
                0 <= p < old(self).slot_free(i as int).len() ==> Self::ranges_disjoint(
                    old(self).range_at(d),
                    old(self).range_at(#[trigger] old(self).slot_free(i as int)[p]),
                ),
        ensures
            final(self).wf(),
            final(self).slot_free(i as int) == seq![d] + old(self).slot_free(i as int),
            final(self).slot_used(i as int) == old(self).slot_used(i as int),
            final(self).free_pool() == old(self).free_pool(),
            Self::same_but_slot(*old(self), *final(self), i as int),
            forall|x: usize| x < RANGE_BUF_LEN ==> final(self).range_at(x) == old(self).range_at(x),
            final(self).slot_free_ranges(i as int) == seq![old(self).range_at(d)] + old(
                self,
            ).slot_free_ranges(i as int),
            final(self).slot_used_ranges(i as int) == old(self).slot_used_ranges(i as int),
            Self::ranges_same_but_slot(*old(self), *final(self), i as int),
    {
        proof {
            broadcast use vstd::multiset::group_multiset_axioms;
            broadcast use vstd::seq_lib::group_to_multiset_ensures;

            let a0 = *old(self);
            Self::lemma_total_count(a0, d);
            Self::lemma_full_ms_count(d);
            assert(a0.total_ms().insert(d).count(d) == Self::full_ms().count(d));
            assert(a0.total_ms().count(d) == 0);
            assert(a0.slot_free(i as int).to_multiset().count(d) == 0);
            assert(!a0.slot_free(i as int).contains(d));
        }
        let mut slot = self.slots[i];
        slot.free_ranges.push_front(&mut self.range_buf, d);
        self.slots.set(i, slot);
        proof {
            broadcast use vstd::multiset::group_multiset_axioms;
            broadcast use vstd::seq_lib::group_to_multiset_ensures;

            let a0 = *old(self);
            let a1 = *self;
            Self::lemma_total_count(a0, d);
            Self::lemma_full_ms_count(d);
            assert(a0.total_ms().count(d) == 0);
            // the pool changed at `d` alone, and `d` is on no other list
            assert(!a0.free_pool().contains(d));
            a0.free_buf_list.lemma_wf_frame(a0.pool(), a1.pool());
            assert forall|i2: int| 0 <= i2 < SLOT_NUM implies (#[trigger] a1.slots@[i2]).free_ranges.wf(
                a1.pool(),
            ) && a1.slots@[i2].used_ranges.wf(a1.pool()) by {
                assert(!a0.slot_used(i2).contains(d));
                a0.slots@[i2].used_ranges.lemma_wf_frame(a0.pool(), a1.pool());
                if i2 != i as int {
                    assert(!a0.slot_free(i2).contains(d));
                    a0.slots@[i2].free_ranges.lemma_wf_frame(a0.pool(), a1.pool());
                    assert(a1.slots@[i2] == a0.slots@[i2]);
                }
            }
            // ranges are untouched: the push wrote only node fields
            assert forall|x: usize| x < RANGE_BUF_LEN implies a1.range_at(x) == a0.range_at(
                x,
            ) by {
                if x == d {
                }
            }
            // the slot multiset gains exactly `d`
            assert(a1.slot_free(i as int) == seq![d] + a0.slot_free(i as int));
            assert(seq![d] + a0.slot_free(i as int) =~= a0.slot_free(i as int).insert(
                0,
                d,
            ));
            assert(a0.slot_free(i as int).insert(0, d).remove(0) =~= a0.slot_free(i as int));
            assert(a1.slot_free(i as int).to_multiset().remove(d) =~= a0.slot_free(
                i as int,
            ).to_multiset()) by {
                assert(a1.slot_free(i as int).remove(0).to_multiset() =~= a1.slot_free(
                    i as int,
                ).to_multiset().remove(a1.slot_free(i as int)[0]));
            }
            assert(a1.slot_free(i as int).to_multiset().count(d) > 0);
            Self::lemma_slots_ms_frame(a0, a1, i as int, SLOT_NUM as int);
            assert forall|v: usize| a1.total_ms().count(v) == a0.total_ms().insert(d).count(
                v,
            ) by {
                assert(a0.slots_ms_upto(SLOT_NUM as int).add(a1.slot_ms(i as int)).count(v)
                    == a1.slots_ms_upto(SLOT_NUM as int).add(a0.slot_ms(i as int)).count(v));
                if v != d {
                    assert(a1.slot_free(i as int).to_multiset().count(v) == a1.slot_free(
                        i as int,
                    ).to_multiset().remove(d).count(v));
                } else {
                    assert(a1.slot_free(i as int).to_multiset().count(d) - 1 == a1.slot_free(
                        i as int,
                    ).to_multiset().remove(d).count(d));
                }
            }
            assert(a1.total_ms() =~= a0.total_ms().insert(d));
            assert(a1.total_ms() == Self::full_ms());
            // slot invariants
            assert forall|i2: int| 0 <= i2 < SLOT_NUM implies a1.slot_ranges_ok(i2) by {
                assert(a0.slot_ranges_ok(i2));
                if i2 == i as int {
                    let s1 = a1.slot_free(i2);
                    let s0 = a0.slot_free(i2);
                    assert forall|p: int| 0 <= p < s1.len() implies Self::range_in_bounds(
                        a1.range_at(#[trigger] s1[p]),
                        a1.slot_start(i2),
                        a1.slot_end(i2),
                    ) by {
                        if p > 0 {
                            assert(s1[p] == s0[p - 1]);
                        }
                    }
                    assert forall|p: int, q: int|
                        0 <= p < s1.len() && 0 <= q < s1.len() && p != q implies Self::ranges_disjoint(
                        a1.range_at(#[trigger] s1[p]),
                        a1.range_at(#[trigger] s1[q]),
                    ) by {
                        if p > 0 && q > 0 {
                            assert(s1[p] == s0[p - 1] && s1[q] == s0[q - 1]);
                        } else if p == 0 {
                            assert(s1[q] == s0[q - 1]);
                        } else {
                            assert(s1[p] == s0[p - 1]);
                        }
                    }
                }
            }
            assert forall|p: int| 0 <= p < a1.free_pool().len() implies a1.range_at(
                #[trigger] a1.free_pool()[p],
            ).bytes == 0 by {
                assert(a0.range_at(a0.free_pool()[p]).bytes == 0);
            }
            assert(a1.wf());
            assert(a1.slot_free_ranges(i as int) =~= seq![a0.range_at(d)]
                + a0.slot_free_ranges(i as int)) by {
                assert forall|q: int| 0 < q < a1.slot_free(i as int).len() implies a1.range_at(
                    #[trigger] a1.slot_free(i as int)[q],
                ) == a0.range_at(a0.slot_free(i as int)[q - 1]) by {
                    assert(a1.slot_free(i as int)[q] == a0.slot_free(i as int)[q - 1]);
                }
            }
            assert(a1.slot_used_ranges(i as int) =~= a0.slot_used_ranges(i as int));
            assert forall|j: int| 0 <= j < SLOT_NUM && j != i implies a1.slot_free_ranges(j)
                == a0.slot_free_ranges(j) && a1.slot_used_ranges(j) == a0.slot_used_ranges(
                j,
            ) by {
                assert(a1.slot_free_ranges(j) =~= a0.slot_free_ranges(j));
                assert(a1.slot_used_ranges(j) =~= a0.slot_used_ranges(j));
            }
        }
    }

    /// The bytes alignment wastes at the start of `r`.
    pub open spec fn spec_gap(r: AdrRange, align: usize) -> int {
        crate::ops::spec_align_gap(r.adr as int, align as int)
    }

    /// `r` can serve a request of `size` bytes at alignment `align`.
    pub open spec fn range_fits(r: AdrRange, size: usize, align: usize) -> bool {
        Self::spec_gap(r, align) + size <= r.bytes
    }

    /// Some free range of slot `i` can serve the request.
    pub open spec fn slot_has_fit(self, i: int, size: usize, align: usize) -> bool {
        exists|p: int|
            0 <= p < self.slot_free(i).len() && Self::range_fits(
                self.range_at(#[trigger] self.slot_free(i)[p]),
                size,
                align,
            )
    }

    /// Some selected slot can serve the request.
    pub open spec fn has_fit(self, mask: SlotMask, size: usize, align: usize) -> bool {
        exists|i: int|
            0 <= i < SLOT_NUM && spec_is_masked(i, mask) && (#[trigger] self.slot_has_fit(
                i,
                size,
                align,
            ))
    }

    /// Position `p` of slot `i`'s free list is the first fit: slots are
    /// scanned in ascending index order over the selected slots, and each
    /// slot's free list in list order.
    pub open spec fn first_fit_at(
        self,
        mask: SlotMask,
        size: usize,
        align: usize,
        i: int,
        p: int,
    ) -> bool {
        &&& 0 <= i < SLOT_NUM
        &&& spec_is_masked(i, mask)
        &&& 0 <= p < self.slot_free(i).len()
        &&& Self::range_fits(self.range_at(self.slot_free(i)[p]), size, align)
        &&& forall|q: int|
            0 <= q < p ==> !Self::range_fits(
                self.range_at(#[trigger] self.slot_free(i)[q]),
                size,
                align,
            )
        &&& forall|i2: int|
            0 <= i2 < i && spec_is_masked(i2, mask) ==> !(#[trigger] self.slot_has_fit(
                i2,
                size,
                align,
            ))
    }

    /// How many fresh descriptors a split of `r` claims besides the
    /// matched one: one for a leading remainder, one for a trailing one.
    pub open spec fn spares_needed(r: AdrRange, size: usize, align: usize) -> int {
        (if Self::spec_gap(r, align) > 0 {
            1int
        } else {
            0int
        }) + (if Self::spec_gap(r, align) + size < r.bytes {
            1int
        } else {
            0int
        })
    }

    /// The free remainders a split of `r` leaves, in the order they stand
    /// on the free list afterwards: the trailing remainder, then the
    /// leading one, each only if it is non-empty.
    pub open spec fn split_pieces(r: AdrRange, size: usize, align: usize) -> Seq<AdrRange> {
        let gap = Self::spec_gap(r, align);
        (if gap + size < r.bytes {
            seq![
                AdrRange {
                    adr: (r.adr + gap + size) as usize,
                    bytes: (r.bytes - gap - size) as usize,
                },
            ]
        } else {
            Seq::empty()
        }) + (if gap > 0 {
            seq![AdrRange { adr: r.adr, bytes: gap as usize }]
        } else {
            Seq::empty()
        })
    }

    /// At most one position is the first fit.
    pub proof fn lemma_first_fit_unique(
        self,
        mask: SlotMask,
        size: usize,
        align: usize,
        i1: int,
        p1: int,
        i2: int,
        p2: int,
    )
        requires
            self.first_fit_at(mask, size, align, i1, p1),
            self.first_fit_at(mask, size, align, i2, p2),
        ensures
            i1 == i2,
            p1 == p2,
    {
        if i1 < i2 {
            assert(self.slot_has_fit(i1, size, align));
        } else if i2 < i1 {
            assert(self.slot_has_fit(i2, size, align));
        }
    }

    /// Claim a fresh descriptor for a split remainder and thread it onto
    /// slot `i`'s free list. The free pool must not be empty.
    fn push_remainder(&mut self, i: usize, adr: usize, bytes: usize)
        requires
            old(self).wf(),
            old(self).free_pool().len() >= 1,
            i < SLOT_NUM,
            bytes >= 1,
            old(self).slot_start(i as int) <= adr,
            adr + bytes <= old(self).slot_end(i as int) + 1,
            forall|q: int|
                0 <= q < old(self).slot_free(i as int).len() ==> Self::ranges_disjoint(
                    AdrRange { adr, bytes },
                    old(self).slot_free_ranges(i as int)[q],
                ),
        ensures
            final(self).wf(),
            final(self).slot_free_ranges(i as int) == seq![AdrRange { adr, bytes }] + old(
                self,
            ).slot_free_ranges(i as int),
            final(self).slot_used_ranges(i as int) == old(self).slot_used_ranges(i as int),
            final(self).slot_used(i as int) == old(self).slot_used(i as int),
            final(self).free_pool() == old(self).free_pool().drop_first(),
            Self::same_but_slot(*old(self), *final(self), i as int),
            Self::ranges_same_but_slot(*old(self), *final(self), i as int),
            final(self).range_at(old(self).free_pool()[0]) == (AdrRange { adr, bytes }),
    {
        let d = match self.new_adrrange() {
            Ok(x) => x,
            Err(_) => {
                proof {
                    assert(false);
                }
                0
            },
        };
        self.set_range_at(d, adr, bytes);
        proof {
            assert forall|q: int| 0 <= q < self.slot_free(i as int).len()
                implies Self::ranges_disjoint(
                self.range_at(d),
                self.range_at(#[trigger] self.slot_free(i as int)[q]),
            ) by {
                assert(self.range_at(self.slot_free(i as int)[q]) == self.slot_free_ranges(
                    i as int,
                )[q]);
                assert(self.slot_free_ranges(i as int)[q] == old(self).slot_free_ranges(
                    i as int,
                )[q]);
            }
        }
        self.push_free(i, d);
    }

    /// Serve a request from the fitting free range at position `p` of slot
    /// `i`, or fail with `Exhausted`, changing nothing, when a needed split
    /// would run the descriptor pool dry.
    #[verifier::rlimit(100)]
    fn alloc_at(
        &mut self,
        i: usize,
        prev: Option<usize>,
        Ghost(p): Ghost<int>,
        d: usize,
        size: usize,
        align: usize,
    ) -> (r: Result<X, AllocError>)
        requires
            old(self).wf(),
            i < SLOT_NUM,
            1 <= size,
            crate::ops::spec_is_pow2(align),
            0 <= p < old(self).slot_free(i as int).len(),
            d == old(self).slot_free(i as int)[p],
            match prev {
                Option::None => p == 0,
                Option::Some(pv) => p >= 1 && old(self).slot_free(i as int)[p - 1] == pv,
            },
            Self::range_fits(old(self).range_at(d), size, align),
        ensures
            final(self).wf(),
            ({
                let a0 = *old(self);
                let r0 = a0.range_at(d);
                let gap = Self::spec_gap(r0, align);
                let aligned = (r0.adr + gap) as usize;
                let need = Self::spares_needed(r0, size, align);
                if need <= a0.free_pool().len() {
                    &&& r == Ok::<X, AllocError>(X { adr: aligned, slot: i, ent: d })
                    &&& aligned as int % align as int == 0
                    &&& aligned as int + size <= r0.adr + r0.bytes
                    &&& final(self).slot_used(i as int) == seq![d] + a0.slot_used(i as int)
                    &&& final(self).range_at(d) == (AdrRange { adr: aligned, bytes: size })
                    &&& final(self).slot_used_ranges(i as int) == seq![
                        AdrRange { adr: aligned, bytes: size },
                    ] + a0.slot_used_ranges(i as int)
                    &&& final(self).slot_free_ranges(i as int) == Self::split_pieces(
                        r0,
                        size,
                        align,
                    ) + a0.slot_free_ranges(i as int).remove(p)
                    &&& final(self).free_pool() == a0.free_pool().skip(need)
                    &&& Self::same_but_slot(a0, *final(self), i as int)
                    &&& Self::ranges_same_but_slot(a0, *final(self), i as int)
                } else {
                    r == Err::<X, AllocError>(AllocError::Exhausted) && *final(self) == *old(
                        self,
                    )
                }
            }),
    {
        let ghost a0 = *old(self);
        let ghost r0 = a0.range_at(d);
        let rng = self.range_buf[d].range;
        proof {
            crate::ops::lemma_up_align_is_aligned(rng.adr as int, align as int);
            assert(a0.slot_ranges_ok(i as int));
            assert(Self::range_in_bounds(r0, a0.slot_start(i as int), a0.slot_end(i as int)));
        }
        let gap = crate::ops::align_gap_of(rng.adr, align);
        let lead = gap > 0;
        let trail = rng.bytes - gap - size > 0;
        let need: usize = (if lead {
            1
        } else {
            0
        }) + (if trail {
            1
        } else {
            0
        });
        proof {
            assert(need == Self::spares_needed(r0, size, align));
        }
        // peek at the free pool first: a failed split must leave the
        // matched range untouched, so nothing is claimed before both
        // claims are known to succeed
        let mut fit = self.free_buf_list.iter();
        let mut avail: usize = 0;
        if fit.next(&self.free_buf_list, &self.range_buf).is_some() {
            avail = 1;
            if fit.next(&self.free_buf_list, &self.range_buf).is_some() {
                avail = 2;
            }
        }
        proof {
            assert(avail == if a0.free_pool().len() >= 2 {
                2int
            } else {
                a0.free_pool().len() as int
            });
        }
        if avail < need {
            return Err(AllocError::Exhausted);
        }
        let ghost v0 = a0.slot_free_ranges(i as int);
        let got = self.take_free(i, prev, Ghost(p));
        self.set_range_at(got, rng.adr + gap, size);
        self.push_used(i, got);
        proof {
            assert(self.slot_free_ranges(i as int) == v0.remove(p));
            assert(self.free_pool() == a0.free_pool());
            assert forall|q: int| 0 <= q < v0.remove(p).len() implies Self::ranges_disjoint(
                r0,
                #[trigger] v0.remove(p)[q],
            ) by {
                let q1 = if q < p { q } else { q + 1 };
                assert(v0.remove(p)[q] == v0[q1]);
                assert(v0[q1] == a0.range_at(a0.slot_free(i as int)[q1]));
            }
        }
        if lead {
            self.push_remainder(i, rng.adr, gap);
        }
        if trail {
            proof {
                if lead {
                    assert(self.slot_free_ranges(i as int) == seq![
                        AdrRange { adr: rng.adr, bytes: gap },
                    ] + v0.remove(p));
                }
                assert forall|q: int| 0 <= q < self.slot_free_ranges(i as int).len()
                    implies Self::ranges_disjoint(
                    AdrRange {
                        adr: (rng.adr + gap + size) as usize,
                        bytes: (rng.bytes - gap - size) as usize,
                    },
                    #[trigger] self.slot_free_ranges(i as int)[q],
                ) by {
                    if lead && q == 0 {
                        // the leading remainder ends where the gap does;
                        // the trailing one starts past the used piece
                        assert(self.slot_free_ranges(i as int)[0] == (AdrRange {
                            adr: rng.adr,
                            bytes: gap,
                        }));
                    } else {
                        let qb = if lead { q - 1 } else { q };
                        assert(self.slot_free_ranges(i as int)[q] == v0.remove(p)[qb]);
                        assert(Self::ranges_disjoint(r0, v0.remove(p)[qb]));
                    }
                }
            }
            self.push_remainder(i, rng.adr + gap + size, rng.bytes - gap - size);
        }
        proof {
            let a9 = *self;
            assert(a9.slot_free_ranges(i as int) =~= Self::split_pieces(r0, size, align)
                + v0.remove(p));
            assert(a9.slot_used_ranges(i as int) == seq![
                AdrRange { adr: (rng.adr + gap) as usize, bytes: size },
            ] + a0.slot_used_ranges(i as int));
            assert(a9.free_pool() =~= a0.free_pool().skip(need as int));
            assert(a9.slot_used(i as int) == seq![d] + a0.slot_used(i as int));
            assert(d == a9.slot_used(i as int)[0]);
            assert(a9.range_at(d) == a9.slot_used_ranges(i as int)[0]);
            assert(a9.range_at(d) == (AdrRange { adr: (rng.adr + gap) as usize, bytes: size }));
            assert((rng.adr + gap) as int == r0.adr + Self::spec_gap(r0, align));
            assert((rng.adr + gap) as int % align as int == 0);
            assert(rng.adr + gap + size <= r0.adr + r0.bytes);
            assert forall|j: int| 0 <= j < SLOT_NUM && j != i implies a9.slot_free(j)
                == a0.slot_free(j) && a9.slot_used(j) == a0.slot_used(j)
                && a9.slot_free_ranges(j) == a0.slot_free_ranges(j) && a9.slot_used_ranges(j)
                == a0.slot_used_ranges(j) by {}
            assert(Self::bounds_same(a0, a9));
        }
        Ok(X { adr: rng.adr + gap, slot: i, ent: got })
    }

    /// Scan slot `i`'s free list in list order for the first range that
    /// can serve the request: first fit, no search for a tighter one.
    /// Yields the predecessor, the matched descriptor and its position.
    fn scan_slot(&self, i: usize, size: usize, align: usize) -> (r: Option<
        (Option<usize>, usize, Ghost<int>),
    >)
        requires
            self.wf(),
            i < SLOT_NUM,
            align >= 1,
        ensures
            match r {
                Option::None => !self.slot_has_fit(i as int, size, align),
                Option::Some((prev, d, gp)) => {
                    let p = gp@;
                    &&& 0 <= p < self.slot_free(i as int).len()
                    &&& d == self.slot_free(i as int)[p]
                    &&& Self::range_fits(self.range_at(d), size, align)
                    &&& forall|q: int|
                        0 <= q < p ==> !Self::range_fits(
                            self.range_at(#[trigger] self.slot_free(i as int)[q]),
                            size,
                            align,
                        )
                    &&& match prev {
                        Option::None => p == 0,
                        Option::Some(pv) => p >= 1 && self.slot_free(i as int)[p - 1] == pv,
                    }
                },
            },
    {
        let slot = &self.slots[i];
        let ghost fl = slot.free_ranges;
        let mut it = slot.free_ranges.iter();
        let mut prev: Option<usize> = None;
        proof {
            assert(it.valid(fl, self.range_buf@));
        }
        loop
            invariant
                self.wf(),
                i < SLOT_NUM,
                align >= 1,
                fl == self.slots@[i as int].free_ranges,
                slot.free_ranges == fl,
                it.valid(fl, self.pool()),
                forall|q: int|
                    0 <= q < it.pos@ ==> !Self::range_fits(
                        self.range_at(#[trigger] self.slot_free(i as int)[q]),
                        size,
                        align,
                    ),
                match prev {
                    Option::None => it.pos@ == 0,
                    Option::Some(pv) => it.pos@ >= 1 && self.slot_free(i as int)[it.pos@ - 1]
                        == pv,
                },
            decreases fl@.len() - it.pos@,
        {
            let ghost ppos = it.pos@;
            proof {
                assert(self.slots@[i as int].free_ranges.wf(self.pool()));
            }
            match it.next(&slot.free_ranges, &self.range_buf) {
                None => {
                    proof {
                        assert(ppos == fl@.len());
                    }
                    return None;
                },
                Some(dd) => {
                    let rng = self.range_buf[dd].range;
                    let gap = crate::ops::align_gap_of(rng.adr, align);
                    if rng.bytes >= gap && rng.bytes - gap >= size {
                        proof {
                            assert(Self::range_fits(self.range_at(dd), size, align));
                        }
                        return Some((prev, dd, Ghost(ppos)));
                    }
                    proof {
                        assert(!Self::range_fits(self.range_at(dd), size, align));
                    }
                    prev = Some(dd);
                },
            }
        }
    }

    /// Serve an allocation request: scan the slots `slotmask` selects in
    /// ascending index order, and each slot's free ranges in list order;
    /// take the first range whose aligned start leaves room for `size`
    /// bytes, move its descriptor to the slot's used list, and return the
    /// aligned address. A split claims up to two fresh descriptors for the
    /// remainders and fails with `Exhausted`, changing nothing, when they
    /// are not to be had; `NoFit` reports that no selected slot holds a
    /// large enough range.
    pub fn allocate(&mut self, slotmask: SlotMask, size: usize, align: usize) -> (r: Result<
        X,
        AllocError,
    >)
        requires
            old(self).wf(),
            1 <= size,
            crate::ops::spec_is_pow2(align),
        ensures
            final(self).wf(),
            r is Err ==> *final(self) == *old(self),
            r == Err::<X, AllocError>(AllocError::NoFit) <==> !old(self).has_fit(
                slotmask,
                size,
                align,
            ),
            old(self).has_fit(slotmask, size, align) ==> exists|i: int, p: int|
                #[trigger] old(self).first_fit_at(slotmask, size, align, i, p),
            forall|i: int, p: int|
                #[trigger] old(self).first_fit_at(slotmask, size, align, i, p) ==> ({
                    let a0 = *old(self);
                    let d = a0.slot_free(i)[p];
                    let r0 = a0.range_at(d);
                    let gap = Self::spec_gap(r0, align);
                    let aligned = (r0.adr + gap) as usize;
                    let need = Self::spares_needed(r0, size, align);
                    if need <= a0.free_pool().len() {
                        &&& r == Ok::<X, AllocError>((X { adr: aligned, slot: i as usize, ent: d }))
                        &&& aligned as int % align as int == 0
                        &&& aligned as int + size <= r0.adr + r0.bytes
                        &&& final(self).slot_used(i) == seq![d] + a0.slot_used(i)
                        &&& final(self).range_at(d) == (AdrRange { adr: aligned, bytes: size })
                        &&& final(self).slot_used_ranges(i) == seq![
                            (AdrRange { adr: aligned, bytes: size }),
                        ] + a0.slot_used_ranges(i)
                        &&& final(self).slot_free_ranges(i) == Self::split_pieces(r0, size, align)
                            + a0.slot_free_ranges(i).remove(p)
                        &&& final(self).free_pool() == a0.free_pool().skip(need)
                        &&& Self::same_but_slot(a0, *final(self), i)
                        &&& Self::ranges_same_but_slot(a0, *final(self), i)
                    } else {
                        r == Err::<X, AllocError>(AllocError::Exhausted)
                    }
                }),
    {
        let ghost a0 = *old(self);
        let mut i: usize = 0;
        while i < SLOT_NUM
            invariant
                a0 == *old(self),
                *self == a0,
                a0.wf(),
                1 <= size,
                crate::ops::spec_is_pow2(align),
                i <= SLOT_NUM,
                forall|i2: int|
                    0 <= i2 < i && spec_is_masked(i2, slotmask) ==> !(
                    #[trigger] a0.slot_has_fit(i2, size, align)),
            decreases SLOT_NUM - i,
        {
            if is_masked(i, slotmask) {
                match self.scan_slot(i, size, align) {
                    Some((prev, dd, gp)) => {
                        let ghost ppos = gp@;
                        proof {
                            assert(a0.first_fit_at(slotmask, size, align, i as int, ppos));
                        }
                        let res = self.alloc_at(i, prev, Ghost(ppos), dd, size, align);
                        proof {
                            assert(a0.slot_has_fit(i as int, size, align));
                            assert(a0.has_fit(slotmask, size, align));
                            assert forall|i2: int, p2: int|
                                #[trigger] a0.first_fit_at(slotmask, size, align, i2, p2)
                                implies i2 == i as int && p2 == ppos by {
                                a0.lemma_first_fit_unique(
                                    slotmask,
                                    size,
                                    align,
                                    i as int,
                                    ppos,
                                    i2,
                                    p2,
                                );
                            }
                        }
                        return res;
                    },
                    None => {
                    },
                }
            }
            i = i + 1;
        }
        proof {
            assert forall|i2: int|
                0 <= i2 < SLOT_NUM && spec_is_masked(i2, slotmask)
                implies !a0.slot_has_fit(i2, size, align) by {}
            assert(!a0.has_fit(slotmask, size, align));
        }
        Err(AllocError::NoFit)
    }

    /// Register a usable memory range with slot `slot`: claim a descriptor
    /// from the pool, fill it, and thread it onto the slot's free-range
    /// list. A zero-length range is accepted and changes nothing. The range
    /// must lie in the slot's bounds and clear of the free ranges already
    /// registered. Fails with `Exhausted`, changing nothing, exactly when
    /// the pool has no descriptor left.
    pub fn add_free_range(&mut self, slot: usize, adr: usize, bytes: usize) -> (r: Result<
        (),
        AllocError,
    >)
        requires
            old(self).wf(),
            slot < SLOT_NUM,
            bytes >= 1 ==> old(self).slot_start(slot as int) <= adr && adr + bytes <= old(
                self,
            ).slot_end(slot as int) + 1,
            bytes >= 1 ==> forall|p: int|
                0 <= p < old(self).slot_free(slot as int).len() ==> Self::ranges_disjoint(
                    AdrRange { adr, bytes },
                    old(self).range_at(#[trigger] old(self).slot_free(slot as int)[p]),
                ),
        ensures
            final(self).wf(),
            bytes == 0 ==> r == Ok::<(), AllocError>(()) && *final(self) == *old(self),
            bytes >= 1 && old(self).free_pool().len() == 0 ==> r == Err::<(), AllocError>(
                AllocError::Exhausted,
            ) && *final(self) == *old(self),
            bytes >= 1 && old(self).free_pool().len() > 0 ==> {
                let d = old(self).free_pool()[0];
                &&& r == Ok::<(), AllocError>(())
                &&& final(self).slot_free(slot as int) == seq![d] + old(self).slot_free(
                    slot as int,
                )
                &&& final(self).range_at(d) == (AdrRange { adr, bytes })
                &&& final(self).slot_free_ranges(slot as int) == seq![AdrRange { adr, bytes }]
                    + old(self).slot_free_ranges(slot as int)
                &&& final(self).free_pool() == old(self).free_pool().drop_first()
                &&& final(self).slot_used(slot as int) == old(self).slot_used(slot as int)
                &&& final(self).slot_used_ranges(slot as int) == old(self).slot_used_ranges(
                    slot as int,
                )
                &&& Self::same_but_slot(*old(self), *final(self), slot as int)
            },
    {
        if bytes == 0 {
            return Ok(());
        }
        let ghost a0 = *old(self);
        let r = self.new_adrrange();
        match r {
            Err(e) => Err(e),
            Ok(d) => {
                self.set_range_at(d, adr, bytes);
                proof {
                    broadcast use vstd::multiset::group_multiset_axioms;
                    broadcast use vstd::seq_lib::group_to_multiset_ensures;

                    Self::lemma_total_count(a0, d);
                    Self::lemma_full_ms_count(d);
                    assert(a0.free_pool().contains(d));
                    assert(a0.free_pool().to_multiset().count(d) > 0);
                    assert(a0.slot_free(slot as int).to_multiset().count(d) == 0);
                    assert(a0.slot_used(slot as int).to_multiset().count(d) == 0);
                    assert(!a0.slot_free(slot as int).contains(d));
                    assert(!a0.slot_used(slot as int).contains(d));
                    assert(self.slot_free(slot as int) == a0.slot_free(slot as int));
                    assert forall|p: int| 0 <= p < self.slot_free(slot as int).len()
                        implies Self::ranges_disjoint(
                        self.range_at(d),
                        self.range_at(#[trigger] self.slot_free(slot as int)[p]),
                    ) by {
                        assert(self.slot_free(slot as int)[p] != d);
                        assert(self.range_at(self.slot_free(slot as int)[p]) == a0.range_at(
                            a0.slot_free(slot as int)[p],
                        ));
                    }
                }
                self.push_free(slot, d);
                proof {
                    let a1 = *self;
                    assert(a1.slot_free_ranges(slot as int) =~= seq![AdrRange { adr, bytes }]
                        + a0.slot_free_ranges(slot as int)) by {
                        assert forall|p: int| 0 < p < a1.slot_free(slot as int).len()
                            implies a1.range_at(a1.slot_free(slot as int)[p]) == a0.range_at(
                            a0.slot_free(slot as int)[p - 1],
                        ) by {
                            assert(a1.slot_free(slot as int)[p] == a0.slot_free(slot as int)[p
                                - 1]);
                        }
                    }
                    assert(a1.slot_used_ranges(slot as int) =~= a0.slot_used_ranges(
                        slot as int,
                    )) by {
                        assert forall|p: int| 0 <= p < a1.slot_used(slot as int).len()
                            implies a1.range_at(a1.slot_used(slot as int)[p]) == a0.range_at(
                            a0.slot_used(slot as int)[p],
                        ) by {
                            assert(a1.slot_used(slot as int)[p] == a0.slot_used(slot as int)[p]);
                        }
                    }
                }
                Ok(())
            },
        }
    }

    /// Thread the claimed descriptor `d` onto slot `i`'s used list. Its
    /// range must lie in the slot's bounds.
    fn push_used(&mut self, i: usize, d: usize)
        requires
            old(self).wf_except(d),
            i < SLOT_NUM,
            old(self).range_at(d).bytes >= 1,
            Self::range_in_bounds(
                old(self).range_at(d),
                old(self).slot_start(i as int),
                old(self).slot_end(i as int),
            ),
        ensures
            final(self).wf(),
            final(self).slot_used(i as int) == seq![d] + old(self).slot_used(i as int),
            final(self).slot_free(i as int) == old(self).slot_free(i as int),
            final(self).free_pool() == old(self).free_pool(),
            Self::same_but_slot(*old(self), *final(self), i as int),
            forall|x: usize| x < RANGE_BUF_LEN ==> final(self).range_at(x) == old(self).range_at(x),
            final(self).slot_used_ranges(i as int) == seq![old(self).range_at(d)] + old(
                self,
            ).slot_used_ranges(i as int),
            final(self).slot_free_ranges(i as int) == old(self).slot_free_ranges(i as int),
            Self::ranges_same_but_slot(*old(self), *final(self), i as int),
    {
        proof {
            broadcast use vstd::multiset::group_multiset_axioms;
            broadcast use vstd::seq_lib::group_to_multiset_ensures;

            let a0 = *old(self);
            Self::lemma_total_count(a0, d);
            Self::lemma_full_ms_count(d);
            assert(a0.total_ms().insert(d).count(d) == Self::full_ms().count(d));
            assert(a0.total_ms().count(d) == 0);
            assert(a0.slot_used(i as int).to_multiset().count(d) == 0);
            assert(!a0.slot_used(i as int).contains(d));
        }
        let mut slot = self.slots[i];
        slot.used_ranges.push_front(&mut self.range_buf, d);
        self.slots.set(i, slot);
        proof {
            broadcast use vstd::multiset::group_multiset_axioms;
            broadcast use vstd::seq_lib::group_to_multiset_ensures;

            let a0 = *old(self);
            let a1 = *self;
            Self::lemma_total_count(a0, d);
            Self::lemma_full_ms_count(d);
            assert(a0.total_ms().count(d) == 0);
            assert(!a0.free_pool().contains(d));
            a0.free_buf_list.lemma_wf_frame(a0.pool(), a1.pool());
            assert forall|i2: int| 0 <= i2 < SLOT_NUM implies (#[trigger] a1.slots@[i2]).free_ranges.wf(
                a1.pool(),
            ) && a1.slots@[i2].used_ranges.wf(a1.pool()) by {
                assert(!a0.slot_free(i2).contains(d));
                a0.slots@[i2].free_ranges.lemma_wf_frame(a0.pool(), a1.pool());
                if i2 != i as int {
                    assert(!a0.slot_used(i2).contains(d));
                    a0.slots@[i2].used_ranges.lemma_wf_frame(a0.pool(), a1.pool());
                    assert(a1.slots@[i2] == a0.slots@[i2]);
                }
            }
            assert forall|x: usize| x < RANGE_BUF_LEN implies a1.range_at(x) == a0.range_at(
                x,
            ) by {
                if x == d {
                }
            }
            assert(a1.slot_used(i as int) == seq![d] + a0.slot_used(i as int));
            assert(a1.slot_used(i as int).to_multiset().remove(d) =~= a0.slot_used(
                i as int,
            ).to_multiset()) by {
                assert(a1.slot_used(i as int).remove(0) =~= a0.slot_used(i as int));
                assert(a1.slot_used(i as int).remove(0).to_multiset() =~= a1.slot_used(
                    i as int,
                ).to_multiset().remove(a1.slot_used(i as int)[0]));
            }
            assert(a1.slot_used(i as int).to_multiset().count(d) > 0);
            Self::lemma_slots_ms_frame(a0, a1, i as int, SLOT_NUM as int);
            assert forall|v: usize| a1.total_ms().count(v) == a0.total_ms().insert(d).count(
                v,
            ) by {
                assert(a0.slots_ms_upto(SLOT_NUM as int).add(a1.slot_ms(i as int)).count(v)
                    == a1.slots_ms_upto(SLOT_NUM as int).add(a0.slot_ms(i as int)).count(v));
                if v != d {
                    assert(a1.slot_used(i as int).to_multiset().count(v) == a1.slot_used(
                        i as int,
                    ).to_multiset().remove(d).count(v));
                } else {
                    assert(a1.slot_used(i as int).to_multiset().count(d) - 1 == a1.slot_used(
                        i as int,
                    ).to_multiset().remove(d).count(d));
                }
            }
            assert(a1.total_ms() =~= a0.total_ms().insert(d));
            assert(a1.total_ms() == Self::full_ms());
            assert forall|i2: int| 0 <= i2 < SLOT_NUM implies a1.slot_ranges_ok(i2) by {
                assert(a0.slot_ranges_ok(i2));
                if i2 == i as int {
                    let s1 = a1.slot_used(i2);
                    let s0 = a0.slot_used(i2);
                    assert forall|p: int| 0 <= p < s1.len() implies Self::range_in_bounds(
                        a1.range_at(#[trigger] s1[p]),
                        a1.slot_start(i2),
                        a1.slot_end(i2),
                    ) by {
                        if p > 0 {
                            assert(s1[p] == s0[p - 1]);
                        }
                    }
                    assert forall|p: int| 0 <= p < a1.slot_free(i2).len() implies Self::range_in_bounds(
                        a1.range_at(#[trigger] a1.slot_free(i2)[p]),
                        a1.slot_start(i2),
                        a1.slot_end(i2),
                    ) by {
                        assert(a0.range_at(a0.slot_free(i2)[p]) == a1.range_at(a1.slot_free(i2)[p]));
                    }
                }
            }
            assert forall|p: int| 0 <= p < a1.free_pool().len() implies a1.range_at(
                #[trigger] a1.free_pool()[p],
            ).bytes == 0 by {
                assert(a0.range_at(a0.free_pool()[p]).bytes == 0);
            }
            assert(a1.wf());
            assert(a1.slot_used_ranges(i as int) =~= seq![a0.range_at(d)]
                + a0.slot_used_ranges(i as int)) by {
                assert forall|q: int| 0 < q < a1.slot_used(i as int).len() implies a1.range_at(
                    #[trigger] a1.slot_used(i as int)[q],
                ) == a0.range_at(a0.slot_used(i as int)[q - 1]) by {
                    assert(a1.slot_used(i as int)[q] == a0.slot_used(i as int)[q - 1]);
                }
            }
            assert(a1.slot_free_ranges(i as int) =~= a0.slot_free_ranges(i as int));
            assert forall|j: int| 0 <= j < SLOT_NUM && j != i implies a1.slot_free_ranges(j)
                == a0.slot_free_ranges(j) && a1.slot_used_ranges(j) == a0.slot_used_ranges(
                j,
            ) by {
                assert(a1.slot_free_ranges(j) =~= a0.slot_free_ranges(j));
                assert(a1.slot_used_ranges(j) =~= a0.slot_used_ranges(j));
            }
        }
    }

    /// Unhook the free range at position `p` of slot `i`, handing its
    /// descriptor to the caller; `prev` names the member before it, if
    /// there is one. The descriptor keeps its range.
    #[verifier::rlimit(60)]
    fn take_free(&mut self, i: usize, prev: Option<usize>, Ghost(p): Ghost<int>) -> (d: usize)
        requires
            old(self).wf(),
            i < SLOT_NUM,
            0 <= p < old(self).slot_free(i as int).len(),
            match prev {
                Option::None => p == 0,
                Option::Some(pv) => p >= 1 && old(self).slot_free(i as int)[p - 1] == pv,
            },
        ensures
            d == old(self).slot_free(i as int)[p],
            final(self).wf_except(d),
            final(self).slot_free(i as int) == old(self).slot_free(i as int).remove(p),
            final(self).slot_used(i as int) == old(self).slot_used(i as int),
            final(self).free_pool() == old(self).free_pool(),
            Self::same_but_slot(*old(self), *final(self), i as int),
            forall|x: usize| x < RANGE_BUF_LEN ==> final(self).range_at(x) == old(self).range_at(x),
            final(self).slot_free_ranges(i as int) == old(self).slot_free_ranges(
                i as int,
            ).remove(p),
            final(self).slot_used_ranges(i as int) == old(self).slot_used_ranges(i as int),
            Self::ranges_same_but_slot(*old(self), *final(self), i as int),
    {
        let ghost a0 = *old(self);
        let ghost s0 = a0.slot_free(i as int);
        let ghost dd = s0[p];
        proof {
            broadcast use vstd::multiset::group_multiset_axioms;
            broadcast use vstd::seq_lib::group_to_multiset_ensures;

            Self::lemma_total_count(a0, dd);
            Self::lemma_full_ms_count(dd);
            assert(s0.contains(dd));
            assert(s0.to_multiset().count(dd) > 0);
        }
        let mut slot = self.slots[i];
        let d: usize = match prev {
            None => {
                let r = slot.free_ranges.pop_front(&self.range_buf);
                match r {
                    Some(d) => d,
                    None => {
                        proof {
                            assert(false);
                        }
                        0
                    },
                }
            },
            Some(pv) => {
                proof {
                    let k = s0.index_of(pv);
                    assert(s0[p - 1] == pv);
                    assert(s0[k] == pv && 0 <= k < s0.len());
                    assert(k == p - 1);
                    if k + 1 == s0.len() {
                        assert(p < s0.len());
                        assert(false);
                    }
                }
                let r = slot.free_ranges.remove_next(&mut self.range_buf, pv);
                match r {
                    Some(d) => d,
                    None => {
                        proof {
                            assert(false);
                        }
                        0
                    },
                }
            },
        };
        self.slots.set(i, slot);
        proof {
            broadcast use vstd::multiset::group_multiset_axioms;
            broadcast use vstd::seq_lib::group_to_multiset_ensures;

            let a1 = *self;
            assert(d == dd);
            assert(a1.slot_free(i as int) =~= s0.remove(p));
            // the pool is unchanged, or changed only at the predecessor,
            // which stays a member of this same list
            assert forall|x: usize| x < RANGE_BUF_LEN implies a1.range_at(x) == a0.range_at(
                x,
            ) by {}
            Self::lemma_total_count(a0, dd);
            Self::lemma_full_ms_count(dd);
            assert forall|i2: int| 0 <= i2 < SLOT_NUM implies (#[trigger] a1.slots@[i2]).free_ranges.wf(
                a1.pool(),
            ) && a1.slots@[i2].used_ranges.wf(a1.pool()) by {
                match prev {
                    Option::None => {
                        if i2 != i as int {
                            assert(a1.slots@[i2] == a0.slots@[i2]);
                            assert(a1.pool() == a0.pool());
                        }
                    },
                    Option::Some(pv) => {
                        // `pv` is on slot `i`'s free list and therefore on
                        // no other list
                        assert(s0.contains(pv));
                        assert(s0.to_multiset().count(pv) > 0);
                        Self::lemma_total_count(a0, pv);
                        Self::lemma_full_ms_count(pv);
                        if i2 != i as int {
                            assert(!a0.slot_free(i2).contains(pv));
                            assert(!a0.slot_used(i2).contains(pv));
                            a0.slots@[i2].free_ranges.lemma_wf_frame(a0.pool(), a1.pool());
                            a0.slots@[i2].used_ranges.lemma_wf_frame(a0.pool(), a1.pool());
                            assert(a1.slots@[i2] == a0.slots@[i2]);
                        } else {
                            assert(!a0.slot_used(i2).contains(pv));
                            a0.slots@[i2].used_ranges.lemma_wf_frame(a0.pool(), a1.pool());
                        }
                    },
                }
            }
            assert(a1.free_buf_list.wf(a1.pool())) by {
                match prev {
                    Option::None => {},
                    Option::Some(pv) => {
                        assert(s0.contains(pv));
                        assert(s0.to_multiset().count(pv) > 0);
                        Self::lemma_total_count(a0, pv);
                        Self::lemma_full_ms_count(pv);
                        assert(!a0.free_pool().contains(pv));
                        a0.free_buf_list.lemma_wf_frame(a0.pool(), a1.pool());
                    },
                }
            }
            // the slot multiset loses exactly `d`
            assert(a1.slot_free(i as int).to_multiset() =~= s0.to_multiset().remove(dd)) by {
                assert(s0.remove(p).to_multiset() =~= s0.to_multiset().remove(s0[p]));
            }
            Self::lemma_slots_ms_frame(a0, a1, i as int, SLOT_NUM as int);
            assert forall|v: usize| a1.total_ms().insert(dd).count(v) == a0.total_ms().count(
                v,
            ) by {
                assert(a0.slots_ms_upto(SLOT_NUM as int).add(a1.slot_ms(i as int)).count(v)
                    == a1.slots_ms_upto(SLOT_NUM as int).add(a0.slot_ms(i as int)).count(v));
            }
            assert(a1.total_ms().insert(dd) =~= a0.total_ms());
            assert(a1.total_ms().insert(dd) == Self::full_ms());
            assert forall|i2: int| 0 <= i2 < SLOT_NUM implies a1.slot_ranges_ok(i2) by {
                assert(a0.slot_ranges_ok(i2));
                assert(a1.slot_start(i2) == a0.slot_start(i2) && a1.slot_end(i2) == a0.slot_end(
                    i2,
                ));
                if i2 == i as int {
                    let s1 = a1.slot_free(i2);
                    assert forall|q: int| 0 <= q < s1.len() implies Self::range_in_bounds(
                        a1.range_at(#[trigger] s1[q]),
                        a1.slot_start(i2),
                        a1.slot_end(i2),
                    ) by {
                        let q1 = if q < p { q } else { q + 1 };
                        assert(s1[q] == s0[q1]);
                    }
                    assert forall|q: int, q2: int|
                        0 <= q < s1.len() && 0 <= q2 < s1.len() && q != q2 implies Self::ranges_disjoint(
                        a1.range_at(#[trigger] s1[q]),
                        a1.range_at(#[trigger] s1[q2]),
                    ) by {
                        let q1 = if q < p { q } else { q + 1 };
                        let q3 = if q2 < p { q2 } else { q2 + 1 };
                        assert(s1[q] == s0[q1] && s1[q2] == s0[q3]);
                    }
                    assert forall|q: int| 0 <= q < a1.slot_used(i2).len() implies Self::range_in_bounds(
                        a1.range_at(#[trigger] a1.slot_used(i2)[q]),
                        a1.slot_start(i2),
                        a1.slot_end(i2),
                    ) by {
                        assert(a1.slot_used(i2)[q] == a0.slot_used(i2)[q]);
                    }
                } else {
                    assert(a1.slot_free(i2) == a0.slot_free(i2));
                    assert(a1.slot_used(i2) == a0.slot_used(i2));
                    assert forall|q: int| 0 <= q < a1.slot_free(i2).len() implies a1.range_at(
                        #[trigger] a1.slot_free(i2)[q],
                    ) == a0.range_at(a0.slot_free(i2)[q]) by {}
                    assert forall|q: int| 0 <= q < a1.slot_used(i2).len() implies a1.range_at(
                        #[trigger] a1.slot_used(i2)[q],
                    ) == a0.range_at(a0.slot_used(i2)[q]) by {}
                }
            }
            assert forall|q: int| 0 <= q < a1.free_pool().len() implies a1.range_at(
                #[trigger] a1.free_pool()[q],
            ).bytes == 0 by {
                assert(a0.range_at(a0.free_pool()[q]).bytes == 0);
            }
            assert(a1.wf_except(dd));
            assert(a1.slot_free_ranges(i as int) =~= a0.slot_free_ranges(i as int).remove(
                p,
            )) by {
                assert forall|q: int| 0 <= q < a1.slot_free(i as int).len() implies a1.range_at(
                    #[trigger] a1.slot_free(i as int)[q],
                ) == a0.range_at(a0.slot_free(i as int)[if q < p {
                    q
                } else {
                    q + 1
                }]) by {
                    let q1 = if q < p { q } else { q + 1 };
                    assert(a1.slot_free(i as int)[q] == s0[q1]);
                }
            }
            assert(a1.slot_used_ranges(i as int) =~= a0.slot_used_ranges(i as int));
            assert forall|j: int| 0 <= j < SLOT_NUM && j != i implies a1.slot_free_ranges(j)
                == a0.slot_free_ranges(j) && a1.slot_used_ranges(j) == a0.slot_used_ranges(
                j,
            ) by {
                assert(a1.slot_free_ranges(j) =~= a0.slot_free_ranges(j));
                assert(a1.slot_used_ranges(j) =~= a0.slot_used_ranges(j));
            }
        }
        d
    }

    /// How many descriptors slots `0 .. n` hold, over both their lists.
    pub open spec fn slots_range_count(self, n: int) -> int
        decreases n,
    {
        if n <= 0 {
            0
        } else {
            self.slots_range_count(n - 1) + self.slot_free(n - 1).len() + self.slot_used(
                n - 1,
            ).len()
        }
    }

    proof fn lemma_upto_len(a: Self, n: int)
        ensures
            a.slots_ms_upto(n).len() == a.slots_range_count(n),
        decreases n,
    {
        broadcast use vstd::multiset::group_multiset_axioms;
        broadcast use vstd::seq_lib::group_to_multiset_ensures;

        if n > 0 {
            Self::lemma_upto_len(a, n - 1);
        }
    }

    /// Descriptor conservation: descriptors are neither created nor
    /// destroyed, only moved, so in every reachable state the free pool
    /// and the slots' free and used lists together hold exactly the
    /// pool's descriptors.
    pub proof fn lemma_descriptor_conservation(a: Self)
        requires
            a.wf(),
        ensures
            a.free_pool().len() + a.slots_range_count(SLOT_NUM as int) == RANGE_BUF_LEN,
    {
        broadcast use vstd::multiset::group_multiset_axioms;
        broadcast use vstd::seq_lib::group_to_multiset_ensures;

        Self::lemma_upto_len(a, SLOT_NUM as int);
        assert(Self::full_ms().len() == Self::full_range_seq().len());
        assert(a.total_ms().len() == a.free_pool().to_multiset().len() + a.slots_ms_upto(
            SLOT_NUM as int,
        ).len());
    }

    /// Range containment: every range on a slot's free or used list lies
    /// within the slot's bounds.
    pub proof fn lemma_range_containment(a: Self, i: int)
        requires
            a.wf(),
            0 <= i < SLOT_NUM,
        ensures
            forall|p: int|
                0 <= p < a.slot_free_ranges(i).len() ==> a.slot_start(i) <= (
                #[trigger] a.slot_free_ranges(i)[p]).adr && a.slot_free_ranges(i)[p].adr
                    + a.slot_free_ranges(i)[p].bytes <= a.slot_end(i) + 1,
            forall|p: int|
                0 <= p < a.slot_used_ranges(i).len() ==> a.slot_start(i) <= (
                #[trigger] a.slot_used_ranges(i)[p]).adr && a.slot_used_ranges(i)[p].adr
                    + a.slot_used_ranges(i)[p].bytes <= a.slot_end(i) + 1,
    {
        assert(a.slot_ranges_ok(i));
        assert forall|p: int| 0 <= p < a.slot_free_ranges(i).len() implies a.slot_start(i) <= (
        #[trigger] a.slot_free_ranges(i)[p]).adr && a.slot_free_ranges(i)[p].adr
            + a.slot_free_ranges(i)[p].bytes <= a.slot_end(i) + 1 by {
            assert(a.slot_free_ranges(i)[p] == a.range_at(a.slot_free(i)[p]));
            assert(Self::range_in_bounds(
                a.range_at(a.slot_free(i)[p]),
                a.slot_start(i),
                a.slot_end(i),
            ));
        }
        assert forall|p: int| 0 <= p < a.slot_used_ranges(i).len() implies a.slot_start(i) <= (
        #[trigger] a.slot_used_ranges(i)[p]).adr && a.slot_used_ranges(i)[p].adr
            + a.slot_used_ranges(i)[p].bytes <= a.slot_end(i) + 1 by {
            assert(a.slot_used_ranges(i)[p] == a.range_at(a.slot_used(i)[p]));
            assert(Self::range_in_bounds(
                a.range_at(a.slot_used(i)[p]),
                a.slot_start(i),
                a.slot_end(i),
            ));
        }
    }

    /// Non-overlap: in every reachable state a slot's free ranges are
    /// pairwise disjoint.
    pub proof fn lemma_free_non_overlap(a: Self, i: int)
        requires
            a.wf(),
            0 <= i < SLOT_NUM,
        ensures
            forall|p: int, q: int|
                0 <= p < a.slot_free_ranges(i).len() && 0 <= q < a.slot_free_ranges(i).len() && p
                    != q ==> Self::ranges_disjoint(
                    #[trigger] a.slot_free_ranges(i)[p],
                    #[trigger] a.slot_free_ranges(i)[q],
                ),
    {
        assert(a.slot_ranges_ok(i));
        assert forall|p: int, q: int|
            0 <= p < a.slot_free_ranges(i).len() && 0 <= q < a.slot_free_ranges(i).len() && p != q
            implies Self::ranges_disjoint(
            #[trigger] a.slot_free_ranges(i)[p],
            #[trigger] a.slot_free_ranges(i)[q],
        ) by {
            assert(a.slot_free_ranges(i)[p] == a.range_at(a.slot_free(i)[p]));
            assert(a.slot_free_ranges(i)[q] == a.range_at(a.slot_free(i)[q]));
        }
    }

    /// The number of unused descriptors left in the pool.
    pub fn free_pool_len(&self) -> (n: usize)
        requires
            self.wf(),
        ensures
            n == self.free_pool().len(),
    {
        self.free_buf_list.len(&self.range_buf)
    }

    /// The number of ranges on slot `i`'s free list.
    pub fn slot_free_len(&self, i: usize) -> (n: usize)
        requires
            self.wf(),
            i < SLOT_NUM,
        ensures
            n == self.slot_free(i as int).len(),
    {
        self.slots[i].free_ranges.len(&self.range_buf)
    }

    /// The number of ranges on slot `i`'s used list.
    pub fn slot_used_len(&self, i: usize) -> (n: usize)
        requires
            self.wf(),
            i < SLOT_NUM,
        ensures
            n == self.slot_used(i as int).len(),
    {
        self.slots[i].used_ranges.len(&self.range_buf)
    }

    /// The range at position `k` of slot `i`'s free list.
    pub fn slot_free_at(&self, i: usize, k: usize) -> (r: AdrRange)
        requires
            self.wf(),
            i < SLOT_NUM,
            k < self.slot_free(i as int).len(),
        ensures
            r == self.slot_free_ranges(i as int)[k as int],
    {
        let d = self.slots[i].free_ranges.nth(&self.range_buf, k);
        self.range_buf[d].range
    }

    /// The range at position `k` of slot `i`'s used list.
    pub fn slot_used_at(&self, i: usize, k: usize) -> (r: AdrRange)
        requires
            self.wf(),
            i < SLOT_NUM,
            k < self.slot_used(i as int).len(),
        ensures
            r == self.slot_used_ranges(i as int)[k as int],
    {
        let d = self.slots[i].used_ranges.nth(&self.range_buf, k);
        self.range_buf[d].range
    }

    /// The bounds slot `i` was stamped with.
    pub fn slot_bounds(&self, i: usize) -> (r: (usize, usize))
        requires
            self.wf(),
            i < SLOT_NUM,
        ensures
            r.0 == self.slot_start(i as int),
            r.1 == self.slot_end(i as int),
    {
        (self.slots[i].start, self.slots[i].end)
    }

    /// Reset the allocator: refill the free pool with every descriptor,
    /// empty every slot and stamp its bounds from `defs`. May be called
    /// again at any time; it returns the allocator to its initial state.
    pub fn init_with_slotdefs(&mut self, defs: &SlotDefs)
        requires
            old(self).wf(),
            defs.wf(),
        ensures
            final(self).wf(),
            final(self).free_pool() == Seq::new(
                RANGE_BUF_LEN as nat,
                |p: int| (RANGE_BUF_LEN - 1 - p) as usize,
            ),
            forall|i: int|
                0 <= i < SLOT_NUM ==> final(self).slot_free(i) == Seq::<usize>::empty()
                    && final(self).slot_used(i) == Seq::<usize>::empty()
                    && final(self).slot_start(i) == defs@[i].start
                    && final(self).slot_end(i) == defs@[i].end,
            forall|d: usize|
                d < RANGE_BUF_LEN ==> final(self).range_at(d) == (AdrRange { adr: 0, bytes: 0 }),
    {
        self.reset(defs);
    }
}

} // verus!
