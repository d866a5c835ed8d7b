//! Intrusive linked-list toolkit.
//!
//! Elements live in a caller-owned pool (a `Vec`) and carry their link fields
//! themselves, inside an embedded node; a link names the pool index of the
//! next element, so the list allocates nothing. The list container is generic
//! over the node shape (forward-only or bidirectional, through the adapter),
//! over the end shape (head only, or head and tail), and over an adapter that
//! locates the embedded node inside an element. The container itself stores
//! nothing but its ends and a ghost image of its contents: the sequence of
//! pool indices from front to back.

use vstd::prelude::*;

verus! {

/// A link stored inside a node: the end of the list, or the pool index of
/// the next element.
#[derive(Clone, Copy, Debug, PartialEq, Eq, Structural)]
pub enum Link {
    Nil,
    At(usize),
}

impl Link {
    pub open spec fn spec_is_nil(self) -> bool {
        self is Nil
    }

    pub fn is_nil(&self) -> (r: bool)
        ensures
            r == self.spec_is_nil(),
    {
        match self {
            Link::Nil => true,
            Link::At(_) => false,
        }
    }
}

/// Shape of the link fields embedded in a list element.
pub trait NodeTrait: Sized {
    spec fn spec_next(self) -> Link;

    spec fn spec_prev(self) -> Link;

    spec fn with_next(self, l: Link) -> Self;

    spec fn with_prev(self, l: Link) -> Self;

    fn get_next(&self) -> (l: Link)
        ensures
            l == self.spec_next(),
    ;

    fn set_next(&mut self, l: Link)
        ensures
            *final(self) == old(self).with_next(l),
    ;

    fn set_prev(&mut self, l: Link)
        ensures
            *final(self) == old(self).with_prev(l),
    ;
}

/// A forward-only node: one outgoing link.
#[derive(Clone, Copy, Debug)]
pub struct ForwardNode {
    pub next: Link,
}

impl ForwardNode {
    pub fn new() -> (r: Self)
        ensures
            r.spec_next() == Link::Nil,
    {
        ForwardNode { next: Link::Nil }
    }
}

impl NodeTrait for ForwardNode {
    open spec fn spec_next(self) -> Link {
        self.next
    }

    /// A forward node records no predecessor.
    open spec fn spec_prev(self) -> Link {
        Link::Nil
    }

    open spec fn with_next(self, l: Link) -> Self {
        ForwardNode { next: l }
    }

    open spec fn with_prev(self, l: Link) -> Self {
        self
    }

    fn get_next(&self) -> (l: Link) {
        self.next
    }

    fn set_next(&mut self, l: Link) {
        self.next = l;
    }

    fn set_prev(&mut self, _l: Link) {
    }
}

impl Default for ForwardNode {
    fn default() -> (r: Self)
        ensures
            r.spec_next() == Link::Nil,
    {
        ForwardNode::new()
    }
}

/// A bidirectional node: links to the next and the previous element.
#[derive(Clone, Copy, Debug)]
pub struct Node {
    pub next: Link,
    pub prev: Link,
}

impl Node {
    pub fn new() -> (r: Self)
        ensures
            r.spec_next() == Link::Nil,
            r.spec_prev() == Link::Nil,
    {
        Node { next: Link::Nil, prev: Link::Nil }
    }

    pub fn get_prev(&self) -> (l: Link)
        ensures
            l == self.spec_prev(),
    {
        self.prev
    }
}

impl NodeTrait for Node {
    open spec fn spec_next(self) -> Link {
        self.next
    }

    open spec fn spec_prev(self) -> Link {
        self.prev
    }

    open spec fn with_next(self, l: Link) -> Self {
        Node { next: l, ..self }
    }

    open spec fn with_prev(self, l: Link) -> Self {
        Node { prev: l, ..self }
    }

    fn get_next(&self) -> (l: Link) {
        self.next
    }

    fn set_next(&mut self, l: Link) {
        self.next = l;
    }

    fn set_prev(&mut self, l: Link) {
        self.prev = l;
    }
}

/// Shape of the ends owned by the list container.
///
/// `tail_ok(t)` says that `t` is an acceptable image of the list's tail: a
/// dual end demands its recorded tail, a single end accepts anything since
/// it records none.
pub trait EndTrait: Sized {
    spec fn spec_head(self) -> Link;

    spec fn tail_ok(self, t: Link) -> bool;

    fn new() -> (r: Self)
        ensures
            r.spec_head() == Link::Nil,
            r.tail_ok(Link::Nil),
    ;

    fn get_head(&self) -> (r: Link)
        ensures
            r == self.spec_head(),
    ;

    fn get_tail_or_null(&self) -> (r: Link)
        ensures
            self.tail_ok(r),
    ;

    fn set_head(&mut self, l: Link)
        ensures
            final(self).spec_head() == l,
            forall|t: Link| old(self).tail_ok(t) ==> final(self).tail_ok(t),
    ;

    fn set_tail(&mut self, l: Link)
        ensures
            final(self).spec_head() == old(self).spec_head(),
            final(self).tail_ok(l),
    ;
}

/// An end holding only the head link.
#[derive(Clone, Copy, Debug)]
pub struct SingleEnd {
    pub head: Link,
}

impl EndTrait for SingleEnd {
    open spec fn spec_head(self) -> Link {
        self.head
    }

    /// A single end records no tail.
    open spec fn tail_ok(self, t: Link) -> bool {
        true
    }

    fn new() -> (r: Self) {
        SingleEnd { head: Link::Nil }
    }

    fn get_head(&self) -> (r: Link) {
        self.head
    }

    fn get_tail_or_null(&self) -> (r: Link) {
        Link::Nil
    }

    fn set_head(&mut self, l: Link) {
        self.head = l;
    }

    fn set_tail(&mut self, _l: Link) {
    }
}

/// An end holding the head and the tail link.
#[derive(Clone, Copy, Debug)]
pub struct DualEnd {
    pub head: Link,
    pub tail: Link,
}

impl DualEnd {
    pub fn get_tail(&self) -> (r: Link)
        ensures
            self.tail_ok(r),
            forall|t: Link| self.tail_ok(t) ==> t == r,
    {
        self.tail
    }
}

impl EndTrait for DualEnd {
    open spec fn spec_head(self) -> Link {
        self.head
    }

    open spec fn tail_ok(self, t: Link) -> bool {
        self.tail == t
    }

    fn new() -> (r: Self) {
        DualEnd { head: Link::Nil, tail: Link::Nil }
    }

    fn get_head(&self) -> (r: Link) {
        self.head
    }

    fn get_tail_or_null(&self) -> (r: Link) {
        self.tail
    }

    fn set_head(&mut self, l: Link) {
        self.head = l;
    }

    fn set_tail(&mut self, l: Link) {
        self.tail = l;
    }
}

/// Locates the embedded node inside an element of type `E`.
///
/// One adapter type stands for one (element type, list role) pair, so the
/// same element type can take part in several lists through different
/// adapters. The adapter owes the list two laws: writing the next link
/// stores exactly that link, and writing the previous link leaves the next
/// link alone.
pub trait ListAdapter<E>: Sized {
    spec fn spec_next(e: E) -> Link;

    spec fn with_next(e: E, l: Link) -> E;

    spec fn with_prev(e: E, l: Link) -> E;

    proof fn lemma_links(e: E, l: Link, p: Link)
        ensures
            Self::spec_next(Self::with_next(e, l)) == l,
            Self::spec_next(Self::with_prev(e, p)) == Self::spec_next(e),
    ;

    fn get_next(e: &E) -> (l: Link)
        ensures
            l == Self::spec_next(*e),
    ;

    fn set_next(e: &mut E, l: Link)
        ensures
            *final(e) == Self::with_next(*old(e), l),
    ;

    fn set_prev(e: &mut E, l: Link)
        ensures
            *final(e) == Self::with_prev(*old(e), l),
    ;
}

/// The generic list container: the ends, and a ghost sequence holding the
/// pool indices of the members from front to back.
#[derive(Clone, Copy)]
pub struct ListImpl<E, A: ListAdapter<E>, X: EndTrait> {
    pub end: X,
    pub elems: Ghost<Seq<usize>>,
    pub adapter: Ghost<Option<(E, A)>>,
}

pub type List<E, A> = ListImpl<E, A, DualEnd>;

pub type SingleList<E, A> = ListImpl<E, A, SingleEnd>;

pub type ForwardList<E, A> = ListImpl<E, A, DualEnd>;

pub type SingleForwardList<E, A> = ListImpl<E, A, SingleEnd>;

impl<E, A: ListAdapter<E>, X: EndTrait> View for ListImpl<E, A, X> {
    type V = Seq<usize>;

    open spec fn view(&self) -> Seq<usize> {
        self.elems@
    }
}

impl<E, A: ListAdapter<E>, X: EndTrait> ListImpl<E, A, X> {
    /// The link that points at position `i` of `s`: nil past the end.
    pub open spec fn link_at(s: Seq<usize>, i: int) -> Link {
        if 0 <= i < s.len() {
            Link::At(s[i])
        } else {
            Link::Nil
        }
    }

    /// The list is well formed over `pool`: members are distinct pool
    /// indices, the head points at the first member, each member's next
    /// link points at the member after it, and the tail image is the last
    /// member.
    pub open spec fn wf(self, pool: Seq<E>) -> bool {
        &&& forall|i: int| 0 <= i < self@.len() ==> (#[trigger] self@[i]) < pool.len()
        &&& self@.len() <= pool.len()
        &&& self@.no_duplicates()
        &&& self.end.spec_head() == Self::link_at(self@, 0)
        &&& forall|i: int|
            0 <= i < self@.len() ==> #[trigger] A::spec_next(pool[self@[i] as int])
                == Self::link_at(self@, i + 1)
        &&& self.end.tail_ok(Self::link_at(self@, self@.len() - 1))
    }

    /// A pool change away from the members leaves the list well formed.
    pub proof fn lemma_wf_frame(self, pool1: Seq<E>, pool2: Seq<E>)
        requires
            self.wf(pool1),
            pool2.len() == pool1.len(),
            forall|i: int|
                0 <= i < self@.len() ==> A::spec_next(pool2[#[trigger] self@[i] as int])
                    == A::spec_next(pool1[self@[i] as int]),
        ensures
            self.wf(pool2),
    {
    }

    pub fn new() -> (r: Self)
        ensures
            r@ == Seq::<usize>::empty(),
            forall|pool: Seq<E>| r.wf(pool),
    {
        ListImpl { end: X::new(), elems: Ghost(Seq::empty()), adapter: Ghost(None) }
    }
}

impl<E: Copy, A: ListAdapter<E>, X: EndTrait> ListImpl<E, A, X> {
    /// Install the element at pool index `idx` as the new head. Only that
    /// element's node is written: its previous link is cleared and its next
    /// link is set to the old head; an empty list also records the element
    /// as tail.
    pub fn push_front(&mut self, pool: &mut Vec<E>, idx: usize)
        requires
            old(self).wf(old(pool)@),
            idx < old(pool)@.len(),
            !old(self)@.contains(idx),
        ensures
            final(self)@ == seq![idx] + old(self)@,
            final(self).wf(final(pool)@),
            final(pool)@ == old(pool)@.update(
                idx as int,
                A::with_next(
                    A::with_prev(old(pool)@[idx as int], Link::Nil),
                    old(self).end.spec_head(),
                ),
            ),
    {
        let old_head = self.end.get_head();
        let mut e = pool[idx];
        A::set_prev(&mut e, Link::Nil);
        A::set_next(&mut e, old_head);
        pool.set(idx, e);
        self.end.set_head(Link::At(idx));
        if old_head.is_nil() {
            self.end.set_tail(Link::At(idx));
        }
        proof {
            let s0 = self.elems@;
            self.elems@ = seq![idx] + s0;
            let s = self.elems@;
            A::lemma_links(A::with_prev(old(pool)@[idx as int], Link::Nil), old_head, Link::Nil);
            A::lemma_links(old(pool)@[idx as int], old_head, Link::Nil);
            assert forall|i: int| 0 <= i < s.len() implies A::spec_next(
                pool@[#[trigger] s[i] as int],
            ) == Self::link_at(s, i + 1) by {
                if i == 0 {
                    assert(pool@[idx as int] == A::with_next(
                        A::with_prev(old(pool)@[idx as int], Link::Nil),
                        old_head,
                    ));
                } else {
                    assert(s[i] == s0[i - 1]);
                    assert(s[i] != idx);
                    assert(pool@[s[i] as int] == old(pool)@[s[i] as int]);
                }
            }
            assert(s.no_duplicates());
            lemma_distinct_bounded_len(s, pool@.len() as int);
            if s0.len() > 0 {
                assert(Self::link_at(s, s.len() - 1) == Self::link_at(s0, s0.len() - 1));
            }
        }
    }

    /// Remove and return the head element's pool index, or `None` if the
    /// list is empty. The pool is only read: the removed element keeps its
    /// node fields.
    pub fn pop_front(&mut self, pool: &Vec<E>) -> (r: Option<usize>)
        requires
            old(self).wf(pool@),
        ensures
            final(self).wf(pool@),
            old(self)@.len() == 0 ==> r is None && *final(self) == *old(self),
            old(self)@.len() > 0 ==> r == Some(old(self)@[0]) && final(self)@ == old(
                self,
            )@.drop_first(),
    {
        let head = self.end.get_head();
        match head {
            Link::Nil => None,
            Link::At(d) => {
                let next = A::get_next(&pool[d]);
                self.end.set_head(next);
                if next.is_nil() {
                    self.end.set_tail(Link::Nil);
                }
                proof {
                    let s0 = self.elems@;
                    self.elems@ = s0.drop_first();
                    let s = self.elems@;
                    assert(next == Self::link_at(s0, 1));
                    assert forall|i: int| 0 <= i < s.len() implies A::spec_next(
                        pool@[#[trigger] s[i] as int],
                    ) == Self::link_at(s, i + 1) by {
                        assert(s[i] == s0[i + 1]);
                        assert(Self::link_at(s0, i + 2) == Self::link_at(s, i + 1));
                    }
                    assert(s.no_duplicates());
                    if s.len() > 0 {
                        assert(Self::link_at(s, s.len() - 1) == Self::link_at(s0, s0.len() - 1));
                    }
                }
                Some(d)
            },
        }
    }

    /// Remove and return the pool index of the element after `prev_d`, a
    /// member of the list, or `None` if `prev_d` is the last member.
    /// Removal behind a known predecessor needs no scan: the predecessor's
    /// next link is patched past the removed element.
    pub fn remove_next(&mut self, pool: &mut Vec<E>, prev_d: usize) -> (r: Option<usize>)
        requires
            old(self).wf(old(pool)@),
            old(self)@.contains(prev_d),
        ensures
            final(self).wf(final(pool)@),
            ({
                let k = old(self)@.index_of(prev_d);
                if k == old(self)@.len() - 1 {
                    r is None && *final(self) == *old(self) && final(pool)@ == old(pool)@
                } else {
                    &&& r == Some(old(self)@[k + 1])
                    &&& final(self)@ == old(self)@.remove(k + 1)
                    &&& final(pool)@ == old(pool)@.update(
                        prev_d as int,
                        A::with_next(old(pool)@[prev_d as int], Self::link_at(old(self)@, k + 2)),
                    )
                }
            }),
    {
        let ghost s0 = self.elems@;
        let ghost k = s0.index_of(prev_d);
        proof {
            assert(s0[k] == prev_d && 0 <= k < s0.len());
            assert(prev_d < pool@.len());
        }
        let next = A::get_next(&pool[prev_d]);
        match next {
            Link::Nil => {
                proof {
                    assert(Self::link_at(s0, k + 1) == Link::Nil);
                    assert(k == s0.len() - 1);
                }
                None
            },
            Link::At(d) => {
                proof {
                    assert(Self::link_at(s0, k + 1) == Link::At(d));
                    assert(k < s0.len() - 1 && d == s0[k + 1]);
                    assert(d < pool@.len());
                }
                let d_next = A::get_next(&pool[d]);
                let mut e = pool[prev_d];
                A::set_next(&mut e, d_next);
                pool.set(prev_d, e);
                if d_next.is_nil() {
                    self.end.set_tail(Link::At(prev_d));
                }
                proof {
                    self.elems@ = s0.remove(k + 1);
                    let s = self.elems@;
                    A::lemma_links(old(pool)@[prev_d as int], d_next, Link::Nil);
                    assert(d_next == Self::link_at(s0, k + 2));
                    assert forall|i: int| 0 <= i < s.len() implies A::spec_next(
                        pool@[#[trigger] s[i] as int],
                    ) == Self::link_at(s, i + 1) by {
                        if i < k {
                            assert(s[i] == s0[i]);
                            assert(s[i] != prev_d);
                            assert(Self::link_at(s, i + 1) == Self::link_at(s0, i + 1));
                        } else if i == k {
                            assert(s[i] == prev_d);
                            if k + 2 < s0.len() {
                                assert(Self::link_at(s, i + 1) == Link::At(s0[k + 2]));
                            }
                        } else {
                            assert(s[i] == s0[i + 1]);
                            assert(s[i] != prev_d);
                            assert(Self::link_at(s, i + 1) == Self::link_at(s0, i + 2));
                        }
                    }
                    assert(s.no_duplicates());
                    assert(Self::link_at(s, 0) == Self::link_at(s0, 0));
                    if k + 1 == s0.len() - 1 {
                        assert(s.len() - 1 == k);
                    } else {
                        assert(Self::link_at(s, s.len() - 1) == Self::link_at(s0, s0.len() - 1));
                    }
                }
                Some(d)
            },
        }
    }

    /// A reference to the front element, or `None` if the list is empty.
    pub fn ref_front<'a>(&self, pool: &'a Vec<E>) -> (r: Option<&'a E>)
        requires
            self.wf(pool@),
        ensures
            self@.len() == 0 ==> r is None,
            self@.len() > 0 ==> r == Some(&pool[self@[0] as int]),
    {
        match self.end.get_head() {
            Link::Nil => None,
            Link::At(d) => Some(&pool[d]),
        }
    }

    /// A mutable reference to the front element of a non-empty list.
    /// Whether the list is still well formed afterwards depends on what the
    /// caller writes through the reference; a write that keeps the node
    /// fields preserves it (`lemma_wf_frame`).
    pub fn mut_front<'a>(&self, pool: &'a mut Vec<E>) -> (r: &'a mut E)
        requires
            self.wf(old(pool)@),
            self@.len() > 0,
        ensures
            *r == old(pool)@[self@[0] as int],
            final(pool)@ == old(pool)@.update(self@[0] as int, *final(r)),
    {
        let head = self.end.get_head();
        match head {
            Link::At(d) => &mut pool[d],
            Link::Nil => {
                proof {
                    assert(false);
                }
                &mut pool[0]
            },
        }
    }

    /// The pool index of the member after `base`, a member of the list, or
    /// `None` if `base` is the last member.
    pub fn ref_next(&self, pool: &Vec<E>, base: usize) -> (r: Option<usize>)
        requires
            self.wf(pool@),
            self@.contains(base),
        ensures
            ({
                let k = self@.index_of(base);
                if k + 1 < self@.len() {
                    r == Some(self@[k + 1])
                } else {
                    r is None
                }
            }),
    {
        proof {
            let k = self@.index_of(base);
            assert(self@[k] == base && 0 <= k < self@.len());
        }
        match A::get_next(&pool[base]) {
            Link::Nil => None,
            Link::At(d) => Some(d),
        }
    }

    /// The number of members, counted by walking the links.
    #[verifier::rlimit(30)]
    pub fn len(&self, pool: &Vec<E>) -> (n: usize)
        requires
            self.wf(pool@),
        ensures
            n == self@.len(),
    {
        let mut cur = self.end.get_head();
        let mut n: usize = 0;
        proof {
            broadcast use vstd::std_specs::vec::axiom_spec_len;

            assert(vstd::std_specs::vec::spec_vec_len(pool) == pool@.len());
        }
        loop
            invariant
                self.wf(pool@),
                n <= self@.len(),
                self@.len() <= usize::MAX,
                cur == Self::link_at(self@, n as int),
            decreases self@.len() - n,
        {
            match cur {
                Link::Nil => {
                    return n;
                },
                Link::At(d) => {
                    cur = A::get_next(&pool[d]);
                    n = n + 1;
                },
            }
        }
    }

    /// The pool index of the member at position `k`.
    #[verifier::rlimit(30)]
    pub fn nth(&self, pool: &Vec<E>, k: usize) -> (d: usize)
        requires
            self.wf(pool@),
            k < self@.len(),
        ensures
            d == self@[k as int],
    {
        let mut cur = self.end.get_head();
        let mut n: usize = 0;
        loop
            invariant
                self.wf(pool@),
                n <= k < self@.len(),
                cur == Self::link_at(self@, n as int),
            decreases k - n,
        {
            match cur {
                Link::At(d) => {
                    if n == k {
                        return d;
                    }
                    cur = A::get_next(&pool[d]);
                    n = n + 1;
                },
                Link::Nil => {
                    proof {
                        assert(false);
                    }
                },
            }
        }
    }

    /// A cursor over the list, starting at the front.
    pub fn iter(&self) -> (it: ListIter)
        ensures
            it.pos@ == 0,
            it.cur == self.end.spec_head(),
    {
        ListIter { cur: self.end.get_head(), pos: Ghost(0) }
    }
}

/// A cursor into a list: the link of the element it will yield next, and
/// the ghost position of that element.
pub struct ListIter {
    pub cur: Link,
    pub pos: Ghost<int>,
}

impl ListIter {
    /// The cursor stands at position `pos` of `l`'s contents.
    pub open spec fn valid<E, A: ListAdapter<E>, X: EndTrait>(
        self,
        l: ListImpl<E, A, X>,
        pool: Seq<E>,
    ) -> bool {
        &&& 0 <= self.pos@ <= l@.len()
        &&& self.cur == ListImpl::<E, A, X>::link_at(l@, self.pos@)
    }

    /// Yield the pool index of the element at the cursor and advance, or
    /// `None` at the end of the list.
    pub fn next<E: Copy, A: ListAdapter<E>, X: EndTrait>(
        &mut self,
        list: &ListImpl<E, A, X>,
        pool: &Vec<E>,
    ) -> (r: Option<usize>)
        requires
            list.wf(pool@),
            old(self).valid(*list, pool@),
        ensures
            final(self).valid(*list, pool@),
            ({
                let k = old(self).pos@;
                if k < list@.len() {
                    r == Some(list@[k]) && final(self).pos@ == k + 1
                } else {
                    r is None && final(self).pos@ == k
                }
            }),
    {
        match self.cur {
            Link::Nil => None,
            Link::At(d) => {
                self.cur = A::get_next(&pool[d]);
                proof {
                    self.pos@ = self.pos@ + 1;
                }
                Some(d)
            },
        }
    }
}

/// A minimal list element: a number behind a forward node; what the
/// toolkit's tests thread through lists.
#[derive(Clone, Copy, Debug)]
pub struct FwData {
    pub listnode: ForwardNode,
    pub num: usize,
}

impl FwData {
    pub fn new(n: usize) -> (r: Self)
        ensures
            r.num == n,
            r.listnode.spec_next() == Link::Nil,
    {
        FwData { listnode: ForwardNode::new(), num: n }
    }
}

impl Default for FwData {
    fn default() -> (r: Self)
        ensures
            r.num == 0,
            r.listnode.spec_next() == Link::Nil,
    {
        FwData::new(0)
    }
}

/// Locates the node embedded in an `FwData`.
#[derive(Clone, Copy)]
pub struct FwDataAdapter;

impl ListAdapter<FwData> for FwDataAdapter {
    open spec fn spec_next(e: FwData) -> Link {
        e.listnode.spec_next()
    }

    open spec fn with_next(e: FwData, l: Link) -> FwData {
        FwData { listnode: e.listnode.with_next(l), ..e }
    }

    open spec fn with_prev(e: FwData, l: Link) -> FwData {
        FwData { listnode: e.listnode.with_prev(l), ..e }
    }

    proof fn lemma_links(e: FwData, l: Link, p: Link) {
    }

    fn get_next(e: &FwData) -> (l: Link) {
        e.listnode.get_next()
    }

    fn set_next(e: &mut FwData, l: Link) {
        e.listnode.set_next(l);
    }

    fn set_prev(e: &mut FwData, l: Link) {
        e.listnode.set_prev(l);
    }
}

/// The node of an element borrowed from a pool.
pub fn refnode_r(e: &FwData) -> (r: &ForwardNode)
    ensures
        *r == e.listnode,
{
    &e.listnode
}

/// The node of a boxed element.
pub fn refnode_box(e: &Box<FwData>) -> (r: &ForwardNode)
    ensures
        *r == e.listnode,
{
    &e.listnode
}

/// A sequence of distinct values below `n` has at most `n` members.
pub proof fn lemma_distinct_bounded_len(s: Seq<usize>, n: int)
    requires
        n >= 0,
        s.no_duplicates(),
        forall|i: int| 0 <= i < s.len() ==> s[i] < n,
    ensures
        s.len() <= n,
    decreases n,
{
    if s.len() > 0 {
        assert(s[0] < n);
        if exists|j: int| 0 <= j < s.len() && s[j] == n - 1 {
            let j = choose|j: int| 0 <= j < s.len() && s[j] == n - 1;
            let s2 = s.remove(j);
            assert(s2.no_duplicates()) by {
                assert forall|a: int, b: int|
                    0 <= a < s2.len() && 0 <= b < s2.len() && a != b implies s2[a] != s2[b] by {
                    let a1 = if a < j { a } else { a + 1 };
                    let b1 = if b < j { b } else { b + 1 };
                    assert(s2[a] == s[a1] && s2[b] == s[b1]);
                }
            }
            assert forall|i: int| 0 <= i < s2.len() implies s2[i] < n - 1 by {
                let i1 = if i < j { i } else { i + 1 };
                assert(s2[i] == s[i1]);
                assert(i1 != j ==> s[i1] != s[j]);
            }
            lemma_distinct_bounded_len(s2, n - 1);
        } else {
            assert forall|i: int| 0 <= i < s.len() implies s[i] < n - 1 by {
                assert(s[i] != n - 1);
            }
            lemma_distinct_bounded_len(s, n - 1);
        }
    }
}

/// The contents of a list after pushing the elements of `xs`, in order,
/// onto a list whose contents are `s`.
pub open spec fn push_all(s: Seq<usize>, xs: Seq<usize>) -> Seq<usize>
    decreases xs.len(),
{
    if xs.len() == 0 {
        s
    } else {
        push_all(seq![xs[0]] + s, xs.drop_first())
    }
}

/// The lists are last-in, first-out: pushing the elements of `xs` in order
/// onto a list holding `s` leaves the list holding `xs` reversed, in front
/// of `s`. Since `pop_front` returns the contents front to back, the pops
/// that follow return the pushed elements in the reverse of their push
/// order, and after `xs.len()` pops the contents are `s` again; a pop after
/// that, on an initially empty list, finds the list empty and returns
/// `None`.
pub proof fn lemma_push_pop_lifo(s: Seq<usize>, xs: Seq<usize>)
    ensures
        push_all(s, xs) == xs.reverse() + s,
        push_all(s, xs).skip(xs.len() as int) == s,
        forall|k: int| 0 <= k < xs.len() ==> push_all(s, xs)[k] == xs[xs.len() - 1 - k],
    decreases xs.len(),
{
    if xs.len() == 0 {
        assert(xs.reverse() =~= Seq::<usize>::empty());
        assert(push_all(s, xs) =~= xs.reverse() + s);
    } else {
        lemma_push_pop_lifo(seq![xs[0]] + s, xs.drop_first());
        assert(xs.drop_first().reverse() + (seq![xs[0]] + s) =~= xs.reverse() + s);
        assert(push_all(s, xs) == xs.reverse() + s);
    }
    assert(push_all(s, xs).skip(xs.len() as int) =~= s);
}

} // verus!
