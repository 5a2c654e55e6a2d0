//! Order-node storage: a free-list arena of nodes and the doubly linked
//! lists threaded through it. A node is named by its slot index (a handle),
//! which stays valid for as long as the node is allocated.

use std::marker::PhantomData;
use vstd::prelude::*;

verus! {

/// The handle that names no node.
pub const NIL: usize = usize::MAX;

/// A storage cell: the value it holds while allocated, and its two links.
pub struct Node<T> {
    pub data: Option<T>,
    pub prev: usize,
    pub next: usize,
}

impl<T> Node<T> {
    /// An unlinked node that holds `data`.
    pub fn new(data: T) -> (r: Self)
        ensures
            r == (Node { data: Some(data), prev: NIL, next: NIL }),
    {
        Node { data: Some(data), prev: NIL, next: NIL }
    }
}

/// Free-list arena for reusing node storage. Freed slots are linked
/// through their `next` field, so allocation and release are O(1).
pub struct Pool<T> {
    slots: Vec<Node<T>>,
    free: usize,
    free_list: Ghost<Seq<usize>>,
}

impl<T> View for Pool<T> {
    type V = Seq<Node<T>>;

    closed spec fn view(&self) -> Seq<Node<T>> {
        self.slots@
    }
}

impl<T> Pool<T> {
    /// Slot `i` is allocated.
    pub open spec fn live(&self, i: usize) -> bool {
        i < self@.len() && self@[i as int].data is Some
    }

    /// The value held by the allocated slot `i`.
    pub open spec fn data(&self, i: usize) -> T {
        self@[i as int].data->0
    }

    /// The free slots form a chain without repetition that starts at `free`.
    pub closed spec fn wf(&self) -> bool {
        let f = self.free_list@;
        &&& self.slots@.len() <= usize::MAX
        &&& f.no_duplicates()
        &&& self.free == if f.len() > 0 {
            f[0]
        } else {
            NIL
        }
        &&& forall|k: int|
            0 <= k < f.len() ==> (#[trigger] f[k]) < self.slots@.len()
                && self.slots@[f[k] as int].data is None
        &&& forall|j: int, k: int|
            0 <= j && k == j + 1 && k < f.len() ==> self.slots@[#[trigger] f[j] as int].next
                == #[trigger] f[k]
        &&& f.len() > 0 ==> self.slots@[f.last() as int].next == NIL
    }

    /// No allocated slot is named by `NIL`.
    pub proof fn lemma_live_not_nil(&self)
        requires
            self.wf(),
        ensures
            self@.len() <= usize::MAX,
            forall|i: usize| #[trigger] self.live(i) ==> i != NIL,
    {
    }

    /// Every slot allocated in `before` and not in `touched` is the same here.
    pub open spec fn same_outside(&self, before: &Pool<T>, touched: Set<usize>) -> bool {
        forall|i: usize|
            #![trigger self@[i as int]]
            #![trigger before.live(i)]
            before.live(i) && !touched.contains(i) ==> i < self@.len() && self@[i as int]
                == before@[i as int]
    }

    /// Every slot allocated in `before`, but for `except`, holds the same value here.
    pub open spec fn same_data(&self, before: &Pool<T>, except: usize) -> bool {
        forall|i: usize|
            #![trigger self.data(i)]
            #![trigger before.live(i)]
            before.live(i) && i != except ==> self.data(i) == before.data(i)
    }

    /// What leaves the slots outside a set alone leaves those outside a larger set alone.
    pub proof fn lemma_same_outside_widen(&self, before: &Pool<T>, small: Set<usize>, big: Set<usize>)
        requires
            self.same_outside(before, small),
            small.subset_of(big),
        ensures
            self.same_outside(before, big),
    {
    }

    /// Leaving slots alone is transitive.
    pub proof fn lemma_same_outside_trans(&self, mid: &Pool<T>, before: &Pool<T>, touched: Set<usize>)
        requires
            mid.same_outside(before, touched),
            self.same_outside(mid, touched),
        ensures
            self.same_outside(before, touched),
    {
        assert forall|i: usize|
            #![trigger self@[i as int]]
            #![trigger before.live(i)]
            before.live(i) && !touched.contains(i) implies i < self@.len() && self@[i as int]
                == before@[i as int] by {
            assert(mid@[i as int] == before@[i as int]);
            assert(mid.live(i));
        }
    }

    /// Slot for slot, the links and the allocation are those of `before`;
    /// only the values held may differ.
    pub open spec fn same_links(&self, before: &Pool<T>) -> bool {
        &&& self@.len() == before@.len()
        &&& forall|i: int|
            0 <= i < self@.len() ==> (#[trigger] self@[i]).prev == before@[i].prev && self@[i].next
                == before@[i].next && (self@[i].data is Some) == (before@[i].data is Some)
    }

    /// An empty pool.
    pub fn new() -> (r: Self)
        ensures
            r.wf(),
            r@.len() == 0,
            r.free_slots().len() == 0,
    {
        Pool { slots: Vec::new(), free: NIL, free_list: Ghost(Seq::empty()) }
    }

    /// Stores `data` in a free slot, or in a fresh one if none is free.
    pub fn allocate(&mut self, data: T) -> (r: usize)
        requires
            old(self).wf(),
        ensures
            final(self).wf(),
            r != NIL,
            !old(self).live(r),
            r == if old(self).free_slots().len() > 0 {
                old(self).free_slots()[0]
            } else {
                old(self)@.len() as usize
            },
            final(self).free_slots() == if old(self).free_slots().len() > 0 {
                old(self).free_slots().drop_first()
            } else {
                old(self).free_slots()
            },
            r <= old(self)@.len(),
            final(self)@ == if r < old(self)@.len() {
                old(self)@.update(r as int, Node { data: Some(data), prev: NIL, next: NIL })
            } else {
                old(self)@.push(Node { data: Some(data), prev: NIL, next: NIL })
            },
    {
        let p = self.free;
        if p != NIL {
            let next = self.slots[p].next;
            self.free = next;
            self.slots[p] = Node::new(data);
            proof {
                let f = self.free_list@;
                self.free_list@ = f.drop_first();
                let g = self.free_list@;
                assert forall|k: int| 0 <= k < g.len() implies (#[trigger] g[k]) != p by {
                    assert(g[k] == f[k + 1]);
                    assert(f[0] == p);
                }
                assert forall|j: int, k: int| 0 <= j && k == j + 1 && k < g.len() implies self.slots@[
                #[trigger] g[j] as int].next == #[trigger] g[k] by {
                    assert(g[j] == f[j + 1]);
                    assert(g[k] == f[k + 1]);
                }
                if g.len() > 0 {
                    assert(g.last() == f.last());
                    assert(g[0] == f[1]);
                }
            }
            p
        } else {
            self.slots.push(Node::new(data));
            self.slots.len() - 1
        }
    }

    /// Takes the value out of slot `i` and puts the slot on the free list.
    pub fn dealloc(&mut self, i: usize) -> (data: T)
        requires
            old(self).wf(),
            old(self).live(i),
        ensures
            final(self).wf(),
            data == old(self).data(i),
            !final(self).live(i),
            final(self).free_slots() == seq![i] + old(self).free_slots(),
            final(self)@.len() == old(self)@.len(),
            forall|j: int| 0 <= j < old(self)@.len() && j != i ==> final(self)@[j] == old(self)@[j],
    {
        let mut node = Node { data: None, prev: NIL, next: self.free };
        std::mem::swap(&mut self.slots[i], &mut node);
        self.free = i;
        proof {
            let f = self.free_list@;
            self.free_list@ = seq![i].add(f);
            let g = self.free_list@;
            assert forall|k: int| 0 <= k < g.len() implies (#[trigger] g[k]) < self.slots@.len()
                && self.slots@[g[k] as int].data is None by {
                if k > 0 {
                    assert(g[k] == f[k - 1]);
                }
            }
            assert forall|j: int, k: int| 0 <= j && k == j + 1 && k < g.len() implies self.slots@[
            #[trigger] g[j] as int].next == #[trigger] g[k] by {
                assert(g[k] == f[k - 1]);
                if j > 0 {
                    assert(g[j] == f[j - 1]);
                }
            }
            if f.len() > 0 {
                assert(g.last() == f.last());
            }
        }
        node.data.unwrap()
    }

    /// The handle that follows the allocated slot `i` in its list.
    pub fn next_of(&self, i: usize) -> (r: usize)
        requires
            self.live(i),
        ensures
            r == self@[i as int].next,
    {
        self.slots[i].next
    }

    /// The handle that precedes the allocated slot `i` in its list.
    pub fn prev_of(&self, i: usize) -> (r: usize)
        requires
            self.live(i),
        ensures
            r == self@[i as int].prev,
    {
        self.slots[i].prev
    }

    fn set_next(&mut self, i: usize, next: usize)
        requires
            old(self).wf(),
            old(self).live(i),
        ensures
            final(self).wf(),
            final(self).free_slots() == old(self).free_slots(),
            final(self)@ == old(self)@.update(i as int, Node { next, ..old(self)@[i as int] }),
    {
        let ghost before = self.slots@;
        self.slots[i].next = next;
        proof {
            assert(self.slots@ =~= before.update(i as int, Node { next, ..before[i as int] }));
            let f = self.free_list@;
            assert forall|k: int| 0 <= k < f.len() implies (#[trigger] f[k]) != i by {}
        }
    }

    fn set_prev(&mut self, i: usize, prev: usize)
        requires
            old(self).wf(),
            old(self).live(i),
        ensures
            final(self).wf(),
            final(self).free_slots() == old(self).free_slots(),
            final(self)@ == old(self)@.update(i as int, Node { prev, ..old(self)@[i as int] }),
    {
        let ghost before = self.slots@;
        self.slots[i].prev = prev;
        proof {
            assert(self.slots@ =~= before.update(i as int, Node { prev, ..before[i as int] }));
            let f = self.free_list@;
            assert forall|k: int| 0 <= k < f.len() implies (#[trigger] f[k]) != i by {}
        }
    }

    /// The slots on the free list, the next to be reused first.
    pub closed spec fn free_slots(&self) -> Seq<usize> {
        self.free_list@
    }

    /// Some freed slot waits to be reused.
    pub fn has_free(&self) -> (r: bool)
        requires
            self.wf(),
        ensures
            r == (self.free_slots().len() > 0),
    {
        proof {
            if self.free_list@.len() > 0 {
                assert(self.free_list@[0] < self.slots@.len());
            }
        }
        self.free != NIL
    }

    /// The value in the allocated slot `i`.
    pub fn get(&self, i: usize) -> (r: &T)
        requires
            self.live(i),
        ensures
            *r == self.data(i),
    {
        self.slots[i].data.as_ref().unwrap()
    }

    /// Mutable access to the value in the allocated slot `i`.
    pub fn data_mut(&mut self, i: usize) -> (r: &mut T)
        requires
            old(self).wf(),
            old(self).live(i),
        ensures
            *r == old(self).data(i),
            final(self).wf(),
            final(self).free_slots() == old(self).free_slots(),
            final(self)@ == old(self)@.update(
                i as int,
                Node { data: Some(*final(r)), ..old(self)@[i as int] },
            ),
    {
        self.slots[i].data.as_mut().unwrap()
    }
}

impl<T> Default for Pool<T> {
    fn default() -> (r: Self)
        ensures
            r.wf(),
            r@.len() == 0,
    {
        Self::new()
    }
}

/// A sequence of distinct indices below `n` has at most `n` entries.
pub proof fn lemma_distinct_bounded(h: Seq<usize>, n: nat)
    requires
        h.no_duplicates(),
        forall|k: int| 0 <= k < h.len() ==> (#[trigger] h[k]) < n,
    ensures
        h.len() <= n,
{
    let hi = h.map_values(|x: usize| x as int);
    assert(hi.no_duplicates()) by {
        assert forall|i: int, j: int| 0 <= i < hi.len() && 0 <= j < hi.len() && i != j implies hi[i]
            != hi[j] by {
            assert(h[i] != h[j]);
        }
    }
    hi.unique_seq_to_set();
    vstd::set_lib::lemma_int_range(0, n as int);
    assert(hi.to_set().subset_of(vstd::set_lib::set_int_range(0, n as int))) by {
        assert forall|x: int| hi.to_set().contains(x) implies vstd::set_lib::set_int_range(
            0,
            n as int,
        ).contains(x) by {
            let k = choose|k: int| 0 <= k < hi.len() && hi[k] == x;
            assert(h[k] < n);
        }
    }
    vstd::set_lib::lemma_len_subset(hi.to_set(), vstd::set_lib::set_int_range(0, n as int));
}

/// The iterator over the values that an emptied list held.
pub type IntoIter<T> = std::vec::IntoIter<T>;

/// The iterator over the values of a list.
pub type Iter<'a, T> = std::vec::IntoIter<&'a T>;

/// The iterator over the handles of a list's nodes.
pub type IterMut = std::vec::IntoIter<usize>;

/// A doubly linked list threaded through the nodes of a pool.
pub struct List<T> {
    head: usize,
    tail: usize,
    length: usize,
    handles: Ghost<Seq<usize>>,
    marker: PhantomData<T>,
}

impl<T> List<T> {
    /// The handles of the list's nodes, front to back.
    pub closed spec fn handles(&self) -> Seq<usize> {
        self.handles@
    }

    /// The number of nodes, as the list counts them.
    pub closed spec fn spec_len(&self) -> usize {
        self.length
    }

    /// The values the list holds, front to back.
    pub open spec fn contents(&self, pool: &Pool<T>) -> Seq<T> {
        Seq::new(self.handles().len(), |k: int| pool.data(self.handles()[k]))
    }

    /// The list's nodes are distinct allocated slots of `pool`, linked in
    /// both directions in the order of `handles`, with both ends closed.
    pub closed spec fn wf(&self, pool: &Pool<T>) -> bool {
        let h = self.handles@;
        &&& h.no_duplicates()
        &&& self.length == h.len()
        &&& forall|k: int| 0 <= k < h.len() ==> pool.live(#[trigger] h[k])
        &&& forall|j: int, k: int|
            0 <= j && k == j + 1 && k < h.len() ==> pool@[#[trigger] h[j] as int].next
                == #[trigger] h[k] && pool@[h[k] as int].prev == h[j]
        &&& h.len() > 0 ==> {
            &&& self.head == h[0]
            &&& self.tail == h.last()
            &&& pool@[h[0] as int].prev == NIL
            &&& pool@[h.last() as int].next == NIL
        }
        &&& h.len() == 0 ==> self.head == NIL && self.tail == NIL
    }

    /// What a well-formed list guarantees to the outside.
    pub proof fn lemma_wf(&self, pool: &Pool<T>)
        requires
            self.wf(pool),
        ensures
            self.spec_len() == self.handles().len(),
            self.handles().no_duplicates(),
            forall|k: int| 0 <= k < self.handles().len() ==> pool.live(#[trigger] self.handles()[k]),
            self.handles().len() <= pool@.len(),
    {
        lemma_distinct_bounded(self.handles@, pool@.len());
    }

    /// A list stays well-formed, with the same contents, in any pool that
    /// agrees with the old one on the list's own nodes.
    pub proof fn lemma_frame(&self, before: &Pool<T>, after: &Pool<T>, touched: Set<usize>)
        requires
            self.wf(before),
            after.same_outside(before, touched),
            forall|k: int| 0 <= k < self.handles().len() ==> !touched.contains(#[trigger] self.handles()[k]),
        ensures
            self.wf(after),
            self.contents(after) == self.contents(before),
    {
        let h = self.handles();
        assert forall|k: int| 0 <= k < h.len() implies after.live(#[trigger] h[k]) && after@[h[k] as int]
            == before@[h[k] as int] by {
            assert(before.live(h[k]));
            assert(!touched.contains(self.handles()[k]));
        }
        assert(self.contents(after) =~= self.contents(before));
        if h.len() > 0 {
            assert(before.live(h[0]));
            assert(before.live(h.last()));
        }
    }

    /// A list stays well-formed when only the values in the pool change.
    pub proof fn lemma_same_links(&self, before: &Pool<T>, after: &Pool<T>)
        requires
            self.wf(before),
            after.same_links(before),
        ensures
            self.wf(after),
    {
        let h = self.handles();
        assert forall|k: int| 0 <= k < h.len() implies after.live(#[trigger] h[k]) by {
            assert(before.live(h[k]));
        }
        assert forall|j: int, k: int| 0 <= j && k == j + 1 && k < h.len() implies after@[
        #[trigger] h[j] as int].next == #[trigger] h[k] && after@[h[k] as int].prev == h[j] by {
            assert(before.live(h[j]));
            assert(before.live(h[k]));
        }
        if h.len() > 0 {
            assert(before.live(h[0]));
            assert(before.live(h.last()));
        }
    }

    /// An empty list, well-formed in every pool.
    pub fn new() -> (r: Self)
        ensures
            r.handles().len() == 0,
            r.spec_len() == 0,
            forall|pool: &Pool<T>| #[trigger] r.wf(pool),
    {
        List { head: NIL, tail: NIL, length: 0, handles: Ghost(Seq::empty()), marker: PhantomData }
    }

    /// The number of nodes.
    pub fn len(&self) -> (r: usize)
        ensures
            r == self.spec_len(),
            forall|pool: &Pool<T>| #[trigger] self.wf(pool) ==> r == self.handles().len(),
    {
        self.length
    }

    /// The list holds no node.
    pub fn is_empty(&self) -> (r: bool)
        ensures
            r == (self.spec_len() == 0),
            forall|pool: &Pool<T>| #[trigger] self.wf(pool) ==> r == (self.handles().len() == 0),
    {
        self.length == 0
    }

    /// The handle of the first node, `NIL` if the list is empty.
    pub fn front(&self, pool: &Pool<T>) -> (r: usize)
        requires
            self.wf(pool),
        ensures
            r == if self.handles().len() > 0 {
                self.handles()[0]
            } else {
                NIL
            },
    {
        self.head
    }

    /// The handle of the node that follows `node`, `NIL` after the last.
    pub fn next(&self, node: usize, pool: &Pool<T>) -> (r: usize)
        requires
            self.wf(pool),
            self.handles().contains(node),
        ensures
            r == if self.handles().index_of(node) + 1 < self.handles().len() {
                self.handles()[self.handles().index_of(node) + 1]
            } else {
                NIL
            },
    {
        proof {
            let h = self.handles@;
            let k = h.index_of(node);
            if k + 1 < h.len() {
                assert(pool@[h[k] as int].next == h[k + 1]);
            } else {
                assert(h[k] == h.last());
            }
        }
        pool.next_of(node)
    }

    /// An iterator over the values in the list, front to back.
    pub fn iter<'a>(&self, pool: &'a Pool<T>) -> (r: Iter<'a, T>)
        requires
            self.wf(pool),
            pool.wf(),
        ensures
            vstd::std_specs::iter::IteratorSpec::remaining(&r).len() == self.handles().len(),
            forall|k: int|
                0 <= k < self.handles().len() ==> *#[trigger] vstd::std_specs::iter::IteratorSpec::remaining(
                    &r,
                )[k] == pool.data(self.handles()[k]),
    {
        broadcast use vstd::std_specs::vec::axiom_spec_into_iter;
        self.to_vec(pool).into_iter()
    }

    /// An iterator over the handles of the nodes, front to back; each
    /// handle gives mutable access to its value through the pool.
    pub fn iter_mut(&self, pool: &Pool<T>) -> (r: IterMut)
        requires
            self.wf(pool),
            pool.wf(),
        ensures
            vstd::std_specs::iter::IteratorSpec::remaining(&r) == self.handles(),
    {
        broadcast use vstd::std_specs::vec::axiom_spec_into_iter;
        self.handles_vec(pool).into_iter()
    }

    /// The values in the list, front to back.
    pub fn to_vec<'a>(&self, pool: &'a Pool<T>) -> (r: Vec<&'a T>)
        requires
            self.wf(pool),
            pool.wf(),
        ensures
            r@.len() == self.handles().len(),
            forall|k: int| 0 <= k < r@.len() ==> *#[trigger] r@[k] == pool.data(self.handles()[k]),
    {
        let ghost h = self.handles@;
        let mut out: Vec<&'a T> = Vec::new();
        let mut cur = self.head;
        proof {
            pool.lemma_live_not_nil();
            if h.len() > 0 {
                assert(pool.live(h[0]));
            }
        }
        while cur != NIL
            invariant
                self.wf(pool),
                pool.wf(),
                h == self.handles@,
                out@.len() <= h.len(),
                cur == if out@.len() < h.len() {
                    h[out@.len() as int]
                } else {
                    NIL
                },
                forall|k: int| 0 <= k < out@.len() ==> *#[trigger] out@[k] == pool.data(h[k]),
            decreases h.len() - out@.len(),
        {
            let ghost k = out@.len() as int;
            proof {
                assert(pool.live(h[k]));
                if k + 1 < h.len() {
                    assert(pool@[h[k] as int].next == h[k + 1]);
                } else {
                    assert(h[k] == h.last());
                }
            }
            out.push(pool.get(cur));
            cur = pool.next_of(cur);
        }
        out
    }

    /// The handles of the nodes, front to back.
    pub fn handles_vec(&self, pool: &Pool<T>) -> (r: Vec<usize>)
        requires
            self.wf(pool),
            pool.wf(),
        ensures
            r@ == self.handles(),
    {
        let ghost h = self.handles@;
        let mut out: Vec<usize> = Vec::new();
        let mut cur = self.head;
        proof {
            pool.lemma_live_not_nil();
            if h.len() > 0 {
                assert(pool.live(h[0]));
            }
        }
        while cur != NIL
            invariant
                self.wf(pool),
                pool.wf(),
                h == self.handles@,
                out@.len() <= h.len(),
                cur == if out@.len() < h.len() {
                    h[out@.len() as int]
                } else {
                    NIL
                },
                out@ == h.take(out@.len() as int),
            decreases h.len() - out@.len(),
        {
            let ghost k = out@.len() as int;
            proof {
                assert(pool.live(h[k]));
                if k + 1 < h.len() {
                    assert(pool@[h[k] as int].next == h[k + 1]);
                } else {
                    assert(h[k] == h.last());
                }
            }
            out.push(cur);
            cur = pool.next_of(cur);
            proof {
                assert(out@ =~= h.take(k + 1));
            }
        }
        proof {
            assert(h.take(h.len() as int) =~= h);
        }
        out
    }

    /// Appends `data`; returns the handle of the new node.
    pub fn push_back(&mut self, data: T, pool: &mut Pool<T>) -> (r: usize)
        requires
            old(self).wf(old(pool)),
            old(pool).wf(),
        ensures
            final(self).wf(final(pool)),
            final(pool).wf(),
            r != NIL,
            !old(pool).live(r),
            final(self).handles() == old(self).handles().push(r),
            final(self).spec_len() == old(self).spec_len() + 1,
            final(self).contents(final(pool)) == old(self).contents(old(pool)).push(data),
            final(pool).same_outside(old(pool), old(self).handles().to_set()),
            final(pool).same_data(old(pool), r),
            forall|i: usize| final(pool).live(i) <==> old(pool).live(i) || i == r,
            r == if old(pool).free_slots().len() > 0 {
                old(pool).free_slots()[0]
            } else {
                old(pool)@.len() as usize
            },
            final(pool).free_slots() == if old(pool).free_slots().len() > 0 {
                old(pool).free_slots().drop_first()
            } else {
                old(pool).free_slots()
            },
    {
        let ghost h = self.handles@;
        let ghost pool0 = *pool;
        let node = pool.allocate(data);
        let ghost pool1 = *pool;
        proof {
            assert forall|k: int| 0 <= k < h.len() implies (#[trigger] h[k]) != node && pool1.live(
                h[k],
            ) && pool1@[h[k] as int] == pool0@[h[k] as int] by {
                assert(pool0.live(h[k]));
            }
            lemma_distinct_bounded(h.push(node), pool1@.len());
        }
        let slots = pool.slots.len();
        if self.tail == NIL {
            self.head = node;
        } else {
            proof {
                assert(pool1.live(h[h.len() - 1]));
            }
            pool.set_next(self.tail, node);
            pool.set_prev(node, self.tail);
        }
        self.tail = node;
        self.length += 1;
        proof {
            self.handles@ = h.push(node);
            let g = self.handles@;
            assert forall|k: int| 0 <= k < g.len() implies pool.live(#[trigger] g[k]) by {
                if k < h.len() {
                    assert(g[k] == h[k]);
                }
            }
            assert forall|j: int, k: int| 0 <= j && k == j + 1 && k < g.len() implies pool@[
            #[trigger] g[j] as int].next == #[trigger] g[k] && pool@[g[k] as int].prev == g[j] by {
                assert(g[j] == h[j]);
                if k < h.len() {
                    assert(g[k] == h[k]);
                    assert(pool0@[h[j] as int].next == h[k]);
                } else {
                    assert(h[j] == h.last());
                }
            }
            if h.len() > 0 {
                assert(g[0] == h[0]);
            }
            assert(self.contents(pool) =~= old(self).contents(&pool0).push(data)) by {
                assert forall|k: int| 0 <= k < h.len() implies pool.data(g[k]) == pool0.data(
                    h[k],
                ) by {
                    assert(g[k] == h[k]);
                }
            }
            assert forall|i: usize|
                #![trigger pool@[i as int]]
                #![trigger pool0.live(i)]
                pool0.live(i) && !h.to_set().contains(i) implies i < pool@.len() && pool@[i as int]
                    == pool0@[i as int] by {
                if h.len() > 0 {
                    assert(h.contains(h.last()));
                }
            }
        }
        node
    }

    /// Detaches the first node and returns its handle; the node stays
    /// allocated and keeps its value.
    pub fn pop_front(&mut self, pool: &mut Pool<T>) -> (r: Option<usize>)
        requires
            old(self).wf(old(pool)),
            old(pool).wf(),
        ensures
            final(self).wf(final(pool)),
            final(pool).wf(),
            old(self).handles().len() == 0 ==> r is None && *final(self) == *old(self) && *final(pool)
                == *old(pool),
            old(self).handles().len() > 0 ==> {
                &&& r == Some(old(self).handles()[0])
                &&& final(self).handles() == old(self).handles().drop_first()
                &&& final(self).spec_len() == old(self).spec_len() - 1
                &&& final(self).contents(final(pool)) == old(self).contents(
                    old(pool),
                ).drop_first()
                &&& final(pool).data(r->0) == old(pool).data(r->0)
            },
            final(pool).same_outside(old(pool), old(self).handles().to_set()),
            final(pool).same_data(old(pool), NIL),
            forall|i: usize| final(pool).live(i) <==> old(pool).live(i),
            final(pool).free_slots() == old(pool).free_slots(),
    {
        let ghost h = self.handles@;
        let ghost pool0 = *pool;
        proof {
            pool.lemma_live_not_nil();
            if h.len() > 0 {
                assert(pool.live(h[0]));
            }
        }
        if self.head == NIL {
            return None;
        }
        let old_head = self.head;
        proof {
            if h.len() > 1 {
                assert(pool@[h[0] as int].next == h[1]);
                assert(pool.live(h[1]));
            } else {
                assert(h[0] == h.last());
            }
            assert(pool.live(h[0]));
        }
        self.head = pool.next_of(old_head);
        if self.head == NIL {
            self.tail = NIL;
        } else {
            pool.set_prev(self.head, NIL);
        }
        self.length -= 1;
        proof {
            self.handles@ = h.drop_first();
            let g = self.handles@;
            assert forall|k: int| 0 <= k < g.len() implies g[k] == h[k + 1] by {}
            assert(g.no_duplicates()) by {
                assert forall|i: int, j: int| 0 <= i < g.len() && 0 <= j < g.len() && i
                    != j implies g[i] != g[j] by {
                    assert(g[i] == h[i + 1]);
                    assert(g[j] == h[j + 1]);
                }
            }
            assert forall|k: int| 0 <= k < g.len() implies pool.live(#[trigger] g[k]) by {
                assert(pool0.live(h[k + 1]));
            }
            assert forall|j: int, k: int| 0 <= j && k == j + 1 && k < g.len() implies pool@[
            #[trigger] g[j] as int].next == #[trigger] g[k] && pool@[g[k] as int].prev == g[j] by {
                assert(g[j] == h[j + 1]);
                assert(g[k] == h[k + 1]);
                assert(pool0@[h[j + 1] as int].next == h[k + 1]);
            }
            if g.len() > 0 {
                assert(g.last() == h.last());
                assert(g[0] == h[1]);
            }
            assert(self.contents(pool) =~= old(self).contents(&pool0).drop_first()) by {
                assert forall|k: int| 0 <= k < g.len() implies pool.data(g[k]) == pool0.data(
                    h[k + 1],
                ) by {
                    assert(g[k] == h[k + 1]);
                }
            }
            assert forall|i: usize|
                #![trigger pool@[i as int]]
                #![trigger pool0.live(i)]
                pool0.live(i) && !h.to_set().contains(i) implies i < pool@.len() && pool@[i as int]
                    == pool0@[i as int] by {
                if h.len() > 1 {
                    assert(h.contains(h[1]));
                }
            }
        }
        Some(old_head)
    }

    /// Unlinks the node `node` of this list, frees its slot and returns its value.
    pub fn remove_unchecked(&mut self, node: usize, pool: &mut Pool<T>) -> (r: T)
        requires
            old(self).wf(old(pool)),
            old(pool).wf(),
            old(self).handles().contains(node),
        ensures
            final(self).wf(final(pool)),
            final(pool).wf(),
            r == old(pool).data(node),
            final(self).handles() == old(self).handles().remove(old(self).handles().index_of(node)),
            final(self).spec_len() == old(self).spec_len() - 1,
            final(self).contents(final(pool)) == old(self).contents(old(pool)).remove(
                old(self).handles().index_of(node),
            ),
            final(pool).same_outside(old(pool), old(self).handles().to_set()),
            final(pool).same_data(old(pool), node),
            forall|i: usize| final(pool).live(i) <==> old(pool).live(i) && i != node,
            final(pool).free_slots() == seq![node] + old(pool).free_slots(),
    {
        let ghost h = self.handles@;
        let ghost pool0 = *pool;
        let ghost at = h.index_of(node);
        proof {
            assert(h[at] == node);
            assert(pool.live(h[at]));
            if at > 0 {
                assert(pool@[h[at - 1] as int].next == h[at]);
                assert(pool.live(h[at - 1]));
            }
            if at + 1 < h.len() {
                assert(pool@[h[at] as int].next == h[at + 1]);
                assert(pool.live(h[at + 1]));
            } else {
                assert(h[at] == h.last());
            }
        }
        let prev = pool.prev_of(node);
        let next = pool.next_of(node);
        proof {
            if at > 0 {
                assert(pool@[h[at] as int].prev == h[at - 1]);
            }
        }
        if prev == NIL {
            self.head = next;
        } else {
            pool.set_next(prev, next);
        }
        if next == NIL {
            self.tail = prev;
        } else {
            pool.set_prev(next, prev);
        }
        self.length -= 1;
        let ghost pool1 = *pool;
        proof {
            pool0.lemma_live_not_nil();
            if at > 0 && at + 1 < h.len() {
                assert(h[at - 1] != h[at + 1]);
            }
            assert(pool1@.len() == pool0@.len());
            assert forall|i: int| 0 <= i < pool0@.len() && i != prev && i != next implies pool1@[i]
                == pool0@[i] by {}
            if at > 0 {
                assert(prev == h[at - 1]);
                assert(pool1@[prev as int] == (Node { next, ..pool0@[prev as int] }));
            } else {
                assert(prev == NIL);
            }
            if at + 1 < h.len() {
                assert(next == h[at + 1]);
                assert(pool1@[next as int] == (Node { prev, ..pool0@[next as int] }));
            } else {
                assert(next == NIL);
            }
            self.handles@ = h.remove(at);
            let g = self.handles@;
            assert forall|k: int| 0 <= k < g.len() implies g[k] == if k < at {
                h[k]
            } else {
                h[k + 1]
            } by {}
        }
        let data = pool.dealloc(node);
        proof {
            let g = self.handles@;
            assert forall|k: int| 0 <= k < g.len() implies (#[trigger] g[k]) != node && pool.live(
                g[k],
            ) && pool@[g[k] as int] == pool1@[g[k] as int] && pool.data(g[k]) == pool0.data(
                g[k],
            ) by {
                if k < at {
                    assert(g[k] == h[k]);
                    assert(pool0.live(h[k]));
                } else {
                    assert(g[k] == h[k + 1]);
                    assert(pool0.live(h[k + 1]));
                }
            }
            assert(g.no_duplicates()) by {
                assert forall|i: int, j: int| 0 <= i < g.len() && 0 <= j < g.len() && i
                    != j implies g[i] != g[j] by {
                    let a = if i < at {
                        i
                    } else {
                        i + 1
                    };
                    let b = if j < at {
                        j
                    } else {
                        j + 1
                    };
                    assert(g[i] == h[a]);
                    assert(g[j] == h[b]);
                }
            }
            assert forall|j: int, k: int| 0 <= j && k == j + 1 && k < g.len() implies pool@[
            #[trigger] g[j] as int].next == #[trigger] g[k] && pool@[g[k] as int].prev == g[j] by {
                if k < at {
                    assert(g[j] == h[j] && g[k] == h[k]);
                    assert(pool0@[h[j] as int].next == h[k]);
                    assert(h[j] != prev);
                    assert(h[k] != next);
                    assert(pool1@[g[j] as int].next == g[k]);
                    assert(pool1@[g[k] as int].prev == g[j]);
                } else if j >= at {
                    assert(g[j] == h[j + 1] && g[k] == h[k + 1]);
                    assert(pool0@[h[j + 1] as int].next == h[k + 1]);
                    assert(h[j + 1] != prev);
                    assert(h[k + 1] != next);
                    assert(pool1@[g[j] as int].next == g[k]);
                    assert(pool1@[g[k] as int].prev == g[j]);
                } else {
                    assert(g[j] == h[at - 1] && g[k] == h[at + 1]);
                    assert(pool1@[g[j] as int].next == g[k]);
                    assert(pool1@[g[k] as int].prev == g[j]);
                }
            }
            if g.len() > 0 {
                if at == 0 {
                    assert(g[0] == h[1]);
                } else {
                    assert(g[0] == h[0]);
                }
                if at + 1 == h.len() {
                    assert(g.last() == h[at - 1]);
                } else {
                    assert(g.last() == h.last());
                }
            }
            assert(self.contents(pool) =~= old(self).contents(&pool0).remove(at)) by {
                assert forall|k: int| 0 <= k < g.len() implies pool.data(g[k]) == old(
                    self,
                ).contents(&pool0).remove(at)[k] by {
                    if k < at {
                        assert(g[k] == h[k]);
                    } else {
                        assert(g[k] == h[k + 1]);
                    }
                }
            }
            assert forall|i: usize|
                #![trigger pool@[i as int]]
                #![trigger pool0.live(i)]
                pool0.live(i) && !h.to_set().contains(i) implies i < pool@.len() && pool@[i as int]
                    == pool0@[i as int] by {
                assert(h.contains(h[at]));
                if at > 0 {
                    assert(h.contains(h[at - 1]));
                }
                if at + 1 < h.len() {
                    assert(h.contains(h[at + 1]));
                }
            }
        }
        data
    }

    /// Empties the list, freeing its nodes; returns an iterator over the
    /// values it held, front to back.
    pub fn into_iter(self, pool: &mut Pool<T>) -> (r: IntoIter<T>)
        requires
            self.wf(old(pool)),
            old(pool).wf(),
        ensures
            final(pool).wf(),
            vstd::std_specs::iter::IteratorSpec::remaining(&r) == self.contents(old(pool)),
            final(pool).same_outside(old(pool), self.handles().to_set()),
            forall|k: int|
                0 <= k < self.handles().len() ==> !final(pool).live(#[trigger] self.handles()[k]),
    {
        broadcast use vstd::std_specs::vec::axiom_spec_into_iter;

        let ghost pool0 = *pool;
        let ghost h = self.handles@;
        let ghost all = self.contents(&pool0);
        let mut list = self;
        let mut out: Vec<T> = Vec::new();
        proof {
            list.lemma_wf(pool);
            assert(h.skip(0) =~= h);
        }
        while !list.is_empty()
            invariant
                list.wf(pool),
                pool.wf(),
                h.no_duplicates(),
                out@.len() <= h.len(),
                list.handles@ == h.skip(out@.len() as int),
                list.length == list.handles@.len(),
                forall|k: int| 0 <= k < out@.len() ==> out@[k] == all[k] && !pool.live(#[trigger] h[k]),
                forall|k: int|
                    out@.len() <= k < h.len() ==> pool.data(#[trigger] h[k]) == pool0.data(h[k]),
                all == Seq::new(h.len(), |k: int| pool0.data(h[k])),
                pool.same_outside(&pool0, h.to_set()),
            decreases h.len() - out@.len(),
        {
            let ghost done = out@.len() as int;
            let ghost pool1 = *pool;
            let ghost rest = list.handles@;
            let node = list.pop_front(pool).unwrap();
            let ghost pool2 = *pool;
            proof {
                assert(rest[0] == h[done]);
                assert(list.handles@ =~= h.skip(done + 1));
                assert(pool2.live(node));
            }
            let value = pool.dealloc(node);
            proof {
                assert forall|k: int| 0 <= k < list.handles@.len() implies !set![node].contains(
                    #[trigger] list.handles@[k],
                ) by {
                    assert(list.handles@[k] == h[done + 1 + k]);
                }
                assert(pool.same_outside(&pool2, set![node]));
                list.lemma_frame(&pool2, pool, set![node]);
                list.lemma_wf(pool);
                assert(rest.to_set().subset_of(h.to_set())) by {
                    assert forall|x: usize| rest.to_set().contains(x) implies h.to_set().contains(
                        x,
                    ) by {
                        let k = choose|k: int| 0 <= k < rest.len() && rest[k] == x;
                        assert(h[done + k] == x);
                    }
                }
                assert(set![node].subset_of(h.to_set())) by {
                    assert(h[done] == node);
                }
                pool2.lemma_same_outside_widen(&pool1, rest.to_set(), h.to_set());
                pool.lemma_same_outside_widen(&pool2, set![node], h.to_set());
                pool2.lemma_same_outside_trans(&pool1, &pool0, h.to_set());
                pool.lemma_same_outside_trans(&pool2, &pool0, h.to_set());
                assert forall|k: int| done + 1 <= k < h.len() implies pool.data(#[trigger] h[k])
                    == pool0.data(h[k]) by {
                    assert(h[k] != node);
                    assert(pool1.live(rest[k - done]));
                    assert(rest[k - done] == h[k]);
                }
                assert forall|k: int| 0 <= k < done implies !pool.live(#[trigger] h[k]) by {
                    assert(h[k] != node);
                    assert(!pool1.live(h[k]));
                }
            }
            out.push(value);
        }
        proof {
            assert(out@ =~= all);
        }
        out.into_iter()
    }

    /// Removes the node `node` and returns its value; does nothing for the
    /// `NIL` handle or on an empty list.
    pub fn remove(&mut self, node: usize, pool: &mut Pool<T>) -> (r: Option<T>)
        requires
            old(self).wf(old(pool)),
            old(pool).wf(),
            node != NIL && old(self).handles().len() > 0 ==> old(self).handles().contains(node),
        ensures
            final(self).wf(final(pool)),
            final(pool).wf(),
            node == NIL || old(self).handles().len() == 0 ==> r is None && *final(self) == *old(self)
                && *final(pool) == *old(pool),
            node != NIL && old(self).handles().len() > 0 ==> {
                &&& r == Some(old(pool).data(node))
                &&& final(self).handles() == old(self).handles().remove(
                    old(self).handles().index_of(node),
                )
                &&& final(self).spec_len() == old(self).spec_len() - 1
                &&& final(self).contents(final(pool)) == old(self).contents(old(pool)).remove(
                    old(self).handles().index_of(node),
                )
                &&& forall|i: usize| final(pool).live(i) <==> old(pool).live(i) && i != node
                &&& final(pool).free_slots() == seq![node] + old(pool).free_slots()
            },
            final(pool).same_outside(old(pool), old(self).handles().to_set()),
            final(pool).same_data(old(pool), node),
    {
        if node == NIL || self.length == 0 {
            return None;
        }
        Some(self.remove_unchecked(node, pool))
    }
}

impl<T> Default for List<T> {
    fn default() -> (r: Self)
        ensures
            r.handles().len() == 0,
            r.spec_len() == 0,
            forall|pool: &Pool<T>| #[trigger] r.wf(pool),
    {
        Self::new()
    }
}

} // verus!
