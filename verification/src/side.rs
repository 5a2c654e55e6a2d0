//! One side of the book: its price levels in precedence order, the best
//! price first.

use crate::level::{sum_remaining, Level, LevelView};
use crate::list::{Pool, NIL};
use crate::order::{OrderInterface, OrderView};
use vstd::prelude::*;

verus! {

/// Price `p` comes before price `q` on this side: higher first on the bid
/// side, lower first on the ask side.
pub open spec fn precedes(is_bid: bool, p: u64, q: u64) -> bool {
    if is_bid {
        p > q
    } else {
        p < q
    }
}

/// The number of leading levels whose price comes before `price`.
pub open spec fn rank(levels: Seq<LevelView>, is_bid: bool, price: u64) -> int
    decreases levels.len(),
{
    if levels.len() > 0 && precedes(is_bid, levels[0].price, price) {
        1 + rank(levels.drop_first(), is_bid, price)
    } else {
        0
    }
}

/// The levels are in strict precedence order.
pub open spec fn sorted(levels: Seq<LevelView>, is_bid: bool) -> bool {
    forall|i: int, j: int|
        0 <= i < j < levels.len() ==> precedes(
            is_bid,
            (#[trigger] levels[i]).price,
            (#[trigger] levels[j]).price,
        )
}

/// There is a level at `price`.
pub open spec fn has_level(levels: Seq<LevelView>, is_bid: bool, price: u64) -> bool {
    let k = rank(levels, is_bid, price);
    k < levels.len() && levels[k].price == price
}

/// The total resting at `price`, zero where there is no such level.
pub open spec fn level_total(levels: Seq<LevelView>, is_bid: bool, price: u64) -> int {
    if has_level(levels, is_bid, price) {
        sum_remaining(levels[rank(levels, is_bid, price)].orders)
    } else {
        0
    }
}

/// The side after `order` has been queued at its price: behind the orders
/// of the level at that price, or alone in a new level at its rank.
pub open spec fn side_insert(levels: Seq<LevelView>, is_bid: bool, order: OrderView) -> Seq<
    LevelView,
> {
    let k = rank(levels, is_bid, order.price);
    if has_level(levels, is_bid, order.price) {
        levels.update(k, LevelView { price: order.price, orders: levels[k].orders.push(order) })
    } else {
        levels.insert(k, LevelView { price: order.price, orders: seq![order] })
    }
}

/// The side without the order at place `j` of level `k`; the level goes
/// with its last order.
pub open spec fn side_remove_at(levels: Seq<LevelView>, k: int, j: int) -> Seq<LevelView> {
    if levels[k].orders.len() == 1 {
        levels.remove(k)
    } else {
        levels.update(k, LevelView { price: levels[k].price, orders: levels[k].orders.remove(j) })
    }
}

/// The side after `fill` has been taken off the order at place `j` of
/// level `k`; an order with nothing left is removed.
pub open spec fn side_fill_at(levels: Seq<LevelView>, k: int, j: int, fill: u64) -> Seq<LevelView> {
    let order = levels[k].orders[j];
    if order.remaining == fill {
        side_remove_at(levels, k, j)
    } else {
        levels.update(
            k,
            LevelView {
                price: levels[k].price,
                orders: levels[k].orders.update(j, order.filled(fill)),
            },
        )
    }
}

/// The first `n` levels as pairs of price and total.
pub open spec fn side_top(levels: Seq<LevelView>, n: int) -> Seq<(u64, u64)> {
    Seq::new(
        if n < levels.len() {
            n as nat
        } else {
            levels.len()
        },
        |k: int| (levels[k].price, sum_remaining(levels[k].orders) as u64),
    )
}

/// The best level as a pair of price and total.
pub open spec fn side_best(levels: Seq<LevelView>) -> Option<(u64, u64)> {
    if levels.len() == 0 {
        None
    } else {
        Some((levels[0].price, sum_remaining(levels[0].orders) as u64))
    }
}

/// The rank of `price` is the place `k` up to which the levels come
/// before it and at which they no longer do.
pub proof fn lemma_rank(levels: Seq<LevelView>, is_bid: bool, price: u64, k: int)
    requires
        0 <= k <= levels.len(),
        forall|i: int| 0 <= i < k ==> precedes(is_bid, (#[trigger] levels[i]).price, price),
        k < levels.len() ==> !precedes(is_bid, levels[k].price, price),
    ensures
        rank(levels, is_bid, price) == k,
    decreases k,
{
    if k > 0 {
        assert(precedes(is_bid, levels[0].price, price));
        let rest = levels.drop_first();
        assert forall|i: int| 0 <= i < k - 1 implies precedes(
            is_bid,
            (#[trigger] rest[i]).price,
            price,
        ) by {
            assert(rest[i] == levels[i + 1]);
        }
        if k - 1 < rest.len() {
            assert(rest[k - 1] == levels[k]);
        }
        lemma_rank(rest, is_bid, price, k - 1);
    }
}

/// The levels before the rank of `price` come before it; on a sorted side
/// those from its rank on do not.
pub proof fn lemma_rank_split(levels: Seq<LevelView>, is_bid: bool, price: u64)
    requires
        sorted(levels, is_bid),
    ensures
        0 <= rank(levels, is_bid, price) <= levels.len(),
        forall|i: int|
            0 <= i < rank(levels, is_bid, price) ==> precedes(
                is_bid,
                (#[trigger] levels[i]).price,
                price,
            ),
        forall|i: int|
            rank(levels, is_bid, price) <= i < levels.len() ==> !precedes(
                is_bid,
                (#[trigger] levels[i]).price,
                price,
            ),
    decreases levels.len(),
{
    if levels.len() > 0 && precedes(is_bid, levels[0].price, price) {
        let rest = levels.drop_first();
        assert forall|i: int, j: int| 0 <= i < j < rest.len() implies precedes(
            is_bid,
            (#[trigger] rest[i]).price,
            (#[trigger] rest[j]).price,
        ) by {
            assert(rest[i] == levels[i + 1]);
            assert(rest[j] == levels[j + 1]);
        }
        lemma_rank_split(rest, is_bid, price);
        let k = rank(levels, is_bid, price);
        assert forall|i: int| 0 <= i < k implies precedes(is_bid, (#[trigger] levels[i]).price, price) by {
            if i > 0 {
                assert(rest[i - 1] == levels[i]);
            }
        }
        assert forall|i: int| k <= i < levels.len() implies !precedes(
            is_bid,
            (#[trigger] levels[i]).price,
            price,
        ) by {
            assert(rest[i - 1] == levels[i]);
        }
    } else if levels.len() > 0 {
        assert forall|i: int| 0 <= i < levels.len() implies !precedes(
            is_bid,
            (#[trigger] levels[i]).price,
            price,
        ) by {
            if i > 0 {
                assert(precedes(is_bid, levels[0].price, levels[i].price));
            }
        }
    }
}

/// On a sorted side the level at a price, if there is one, stands at the
/// rank of that price.
pub proof fn lemma_rank_of_level(levels: Seq<LevelView>, is_bid: bool, k: int)
    requires
        sorted(levels, is_bid),
        0 <= k < levels.len(),
    ensures
        rank(levels, is_bid, levels[k].price) == k,
        has_level(levels, is_bid, levels[k].price),
{
    lemma_rank(levels, is_bid, levels[k].price, k);
}

proof fn lemma_push_contains<A>(s: Seq<A>, x: A, y: A)
    ensures
        s.push(x).contains(y) <==> s.contains(y) || y == x,
{
    if s.push(x).contains(y) {
        let i = choose|i: int| 0 <= i < s.push(x).len() && s.push(x)[i] == y;
        if i < s.len() {
            assert(s[i] == y);
        }
    }
    if s.contains(y) {
        let i = choose|i: int| 0 <= i < s.len() && s[i] == y;
        assert(s.push(x)[i] == y);
    }
    if y == x {
        assert(s.push(x)[s.len() as int] == y);
    }
}

proof fn lemma_remove_contains<A>(s: Seq<A>, i: int, y: A)
    requires
        0 <= i < s.len(),
        s.no_duplicates(),
    ensures
        s.remove(i).contains(y) <==> s.contains(y) && y != s[i],
{
    let r = s.remove(i);
    if r.contains(y) {
        let j = choose|j: int| 0 <= j < r.len() && r[j] == y;
        if j < i {
            assert(s[j] == y);
        } else {
            assert(s[j + 1] == y);
        }
    }
    if s.contains(y) && y != s[i] {
        let j = choose|j: int| 0 <= j < s.len() && s[j] == y;
        if j < i {
            assert(r[j] == y);
        } else {
            assert(r[j - 1] == y);
        }
    }
}

/// The iterator over the levels of a side in precedence order.
pub type LevelIter<'a, O> = std::slice::Iter<'a, Level<O>>;

/// Mutable access to the levels of a side in precedence order.
pub type LevelIterMut<'a, O> = &'a mut [Level<O>];

/// One side of an orderbook (bids or asks), its levels sorted by price.
/// `is_bid` decides the direction.
pub struct Side<O: OrderInterface> {
    is_bid: bool,
    levels: Vec<Level<O>>,
}

impl<O: OrderInterface> Side<O> {
    /// This is the bid side.
    pub closed spec fn spec_is_bid(&self) -> bool {
        self.is_bid
    }

    /// The levels, best first.
    pub closed spec fn levels(&self) -> Seq<Level<O>> {
        self.levels@
    }

    /// The side as its users see it: the levels, best first.
    pub open spec fn view_in(&self, pool: &Pool<O>) -> Seq<LevelView> {
        Seq::new(self.levels().len(), |k: int| self.levels()[k].view_in(pool))
    }

    /// Level `k` holds the node `node`.
    pub open spec fn level_holds(&self, k: int, node: usize) -> bool {
        0 <= k < self.levels().len() && self.levels()[k].handles().contains(node)
    }

    /// Some level of this side holds the node `node`.
    pub open spec fn holds(&self, node: usize) -> bool {
        exists|k: int| self.level_holds(k, node)
    }

    /// The nodes of this side.
    pub open spec fn nodes(&self) -> Set<usize> {
        Set::new(|node: usize| self.holds(node))
    }

    /// The place of `node` in its level.
    pub open spec fn place(&self, pool: &Pool<O>, node: usize) -> (int, int) {
        let k = rank(self.view_in(pool), self.spec_is_bid(), pool.data(node).view().price);
        (k, self.levels()[k].handles().index_of(node))
    }

    /// Every level is well-formed, holds at least one order and only
    /// orders at its own price; the levels are in strict precedence order.
    pub open spec fn wf(&self, pool: &Pool<O>) -> bool {
        &&& forall|k: int|
            0 <= k < self.levels().len() ==> {
                &&& (#[trigger] self.levels()[k]).wf(pool)
                &&& self.levels()[k].handles().len() > 0
                &&& forall|j: int|
                    0 <= j < self.levels()[k].handles().len() ==> (
                    #[trigger] self.levels()[k].orders(pool)[j]).price
                        == self.levels()[k].spec_price()
            }
        &&& sorted(self.view_in(pool), self.spec_is_bid())
    }

    /// A node of a well-formed side is allocated, lies in exactly one
    /// level, and that level is the one at the price of its order.
    pub proof fn lemma_node(&self, pool: &Pool<O>, k: int, node: usize)
        requires
            self.wf(pool),
            self.level_holds(k, node),
        ensures
            pool.live(node),
            pool.data(node).view().price == self.levels()[k].spec_price(),
            self.place(pool, node) == (k, self.levels()[k].handles().index_of(node)),
            self.view_in(pool)[k].orders[self.levels()[k].handles().index_of(node)] == pool.data(
                node,
            ).view(),
            forall|k2: int| self.level_holds(k2, node) ==> k2 == k,
    {
        let level = self.levels()[k];
        let j = level.handles().index_of(node);
        level.lemma_wf(pool);
        assert(level.handles()[j] == node);
        assert(level.orders(pool)[j].price == level.spec_price());
        assert(self.view_in(pool)[k].price == level.spec_price());
        lemma_rank_of_level(self.view_in(pool), self.spec_is_bid(), k);
        assert forall|k2: int| self.level_holds(k2, node) implies k2 == k by {
            let other = self.levels()[k2];
            let j2 = other.handles().index_of(node);
            assert(other.handles()[j2] == node);
            assert(other.orders(pool)[j2].price == other.spec_price());
            assert(self.view_in(pool)[k2].price == other.spec_price());
            if k2 < k {
                assert(precedes(
                    self.spec_is_bid(),
                    self.view_in(pool)[k2].price,
                    self.view_in(pool)[k].price,
                ));
            } else if k < k2 {
                assert(precedes(
                    self.spec_is_bid(),
                    self.view_in(pool)[k].price,
                    self.view_in(pool)[k2].price,
                ));
            }
        }
    }

    /// A side stays well-formed, with the same view, in any pool that
    /// agrees with the old one on the side's own nodes.
    pub proof fn lemma_frame(&self, before: &Pool<O>, after: &Pool<O>, touched: Set<usize>)
        requires
            self.wf(before),
            after.same_outside(before, touched),
            forall|node: usize| self.holds(node) ==> !touched.contains(node),
        ensures
            self.wf(after),
            self.view_in(after) == self.view_in(before),
    {
        assert forall|k: int| 0 <= k < self.levels().len() implies (#[trigger] self.levels()[k]).wf(
            after,
        ) && self.levels()[k].orders(after) == self.levels()[k].orders(before) by {
            let level = self.levels()[k];
            assert forall|j: int| 0 <= j < level.handles().len() implies !touched.contains(
                #[trigger] level.handles()[j],
            ) by {
                assert(self.level_holds(k, level.handles()[j]));
            }
            level.lemma_frame(before, after, touched);
        }
        assert(self.view_in(after) =~= self.view_in(before));
    }

    /// An empty side, well-formed in every pool.
    pub fn new(is_bid: bool) -> (r: Self)
        ensures
            r.spec_is_bid() == is_bid,
            r.levels().len() == 0,
            forall|pool: &Pool<O>| #[trigger] r.wf(pool),
    {
        Side { is_bid, levels: Vec::new() }
    }

    /// The number of price levels.
    pub fn height(&self) -> (r: usize)
        ensures
            r == self.levels().len(),
    {
        self.levels.len()
    }

    /// The side holds no level.
    pub fn is_empty(&self) -> (r: bool)
        ensures
            r == (self.levels().len() == 0),
    {
        self.levels.len() == 0
    }

    /// The level at place `k` in precedence order.
    pub fn level(&self, k: usize) -> (r: &Level<O>)
        requires
            k < self.levels().len(),
        ensures
            *r == self.levels()[k as int],
    {
        &self.levels[k]
    }

    /// Returns the best price level as (price, total_quantity).
    /// For bids: highest price. For asks: lowest price.
    pub fn best(&self) -> (r: Option<(u64, u64)>)
        ensures
            r == if self.levels().len() == 0 {
                None
            } else {
                Some((self.levels()[0].spec_price(), self.levels()[0].spec_total()))
            },
            forall|pool: &Pool<O>| #[trigger] self.wf(pool) ==> r == side_best(self.view_in(pool)),
    {
        proof {
            assert forall|pool: &Pool<O>| #[trigger]
                self.wf(pool) && self.levels().len() > 0 implies self.levels()[0].spec_total()
                == sum_remaining(self.view_in(pool)[0].orders) by {
                self.levels()[0].lemma_wf(pool);
            }
        }
        if self.levels.len() == 0 {
            None
        } else {
            Some((self.levels[0].price(), self.levels[0].total_quantity()))
        }
    }

    /// Returns the top `n` price levels as (price, total_quantity).
    /// For bids: highest prices first. For asks: lowest prices first.
    pub fn top(&self, n: usize) -> (r: Vec<(u64, u64)>)
        ensures
            r@.len() == if n < self.levels().len() {
                n as nat
            } else {
                self.levels().len()
            },
            forall|k: int|
                0 <= k < r@.len() ==> #[trigger] r@[k] == (
                    self.levels()[k].spec_price(),
                    self.levels()[k].spec_total(),
                ),
            forall|pool: &Pool<O>| #[trigger] self.wf(pool) ==> r@ == side_top(self.view_in(pool), n as int),
    {
        let mut out: Vec<(u64, u64)> = Vec::new();
        let mut k: usize = 0;
        while k < n && k < self.levels.len()
            invariant
                k <= n,
                k <= self.levels@.len(),
                out@.len() == k,
                forall|i: int|
                    0 <= i < k ==> #[trigger] out@[i] == (
                        self.levels()[i].spec_price(),
                        self.levels()[i].spec_total(),
                    ),
            decreases self.levels@.len() - k,
        {
            out.push((self.levels[k].price(), self.levels[k].total_quantity()));
            k += 1;
        }
        proof {
            assert forall|pool: &Pool<O>| #[trigger] self.wf(pool) implies out@ == side_top(
                self.view_in(pool),
                n as int,
            ) by {
                assert forall|i: int| 0 <= i < out@.len() implies out@[i] == side_top(
                    self.view_in(pool),
                    n as int,
                )[i] by {
                    self.levels()[i].lemma_wf(pool);
                }
                assert(out@ =~= side_top(self.view_in(pool), n as int));
            }
        }
        out
    }

    /// The levels in precedence order.
    /// Bids: highest price first. Asks: lowest price first.
    pub fn iter(&self) -> (r: LevelIter<'_, O>)
        ensures
            vstd::std_specs::iter::IteratorSpec::remaining(&r) == self.levels().as_ref(),
    {
        broadcast use vstd::std_specs::slice::axiom_spec_slice_iter;
        self.levels.as_slice().iter()
    }

    /// Mutable access to the levels in precedence order. Their number is fixed.
    pub fn iter_mut(&mut self) -> (r: LevelIterMut<'_, O>)
        ensures
            r@ == old(self).levels(),
            final(self).levels() == final(r)@,
            final(self).spec_is_bid() == old(self).spec_is_bid(),
    {
        self.levels.as_mut_slice()
    }

    /// The levels from place `k` on rank at or behind `price`, those before do not.
    fn position(&self, price: u64, Ghost(pool): Ghost<&Pool<O>>) -> (k: usize)
        requires
            self.wf(pool),
        ensures
            k == rank(self.view_in(pool), self.spec_is_bid(), price),
            k <= self.levels().len(),
            has_level(self.view_in(pool), self.spec_is_bid(), price) <==> k < self.levels().len()
                && self.levels()[k as int].spec_price() == price,
    {
        let ghost view = self.view_in(pool);
        let mut lo: usize = 0;
        let mut hi: usize = self.levels.len();
        while lo < hi
            invariant
                self.wf(pool),
                view == self.view_in(pool),
                lo <= hi <= self.levels@.len(),
                forall|i: int|
                    0 <= i < lo ==> precedes(self.is_bid, (#[trigger] view[i]).price, price),
                forall|i: int|
                    hi <= i < view.len() ==> !precedes(self.is_bid, (#[trigger] view[i]).price, price),
            decreases hi - lo,
        {
            let mid = lo + (hi - lo) / 2;
            let p = self.levels[mid].price();
            assert(view[mid as int].price == p);
            let before = if self.is_bid {
                p > price
            } else {
                p < price
            };
            if before {
                assert forall|i: int| 0 <= i < mid + 1 implies precedes(
                    self.is_bid,
                    (#[trigger] view[i]).price,
                    price,
                ) by {
                    if i < mid {
                        assert(precedes(self.is_bid, view[i].price, view[mid as int].price));
                    }
                }
                lo = mid + 1;
            } else {
                assert forall|i: int| mid <= i < view.len() implies !precedes(
                    self.is_bid,
                    (#[trigger] view[i]).price,
                    price,
                ) by {
                    if mid < i {
                        assert(precedes(self.is_bid, view[mid as int].price, view[i].price));
                    }
                }
                hi = mid;
            }
        }
        proof {
            lemma_rank(view, self.is_bid, price, lo as int);
            if lo < view.len() {
                assert(view[lo as int].price == self.levels()[lo as int].spec_price());
            }
        }
        lo
    }

    /// What holds once level `k` alone has changed, through an operation
    /// that left the pool alone outside that level's nodes.
    proof fn lemma_level_changed(&self, before: &Self, pool0: &Pool<O>, pool1: &Pool<O>, k: int)
        requires
            before.wf(pool0),
            0 <= k < before.levels().len(),
            self.spec_is_bid() == before.spec_is_bid(),
            self.levels() == before.levels().update(k, self.levels()[k]),
            self.levels()[k].wf(pool1),
            self.levels()[k].spec_price() == before.levels()[k].spec_price(),
            forall|j: int|
                0 <= j < self.levels()[k].handles().len() ==> (#[trigger] self.levels()[k].orders(
                    pool1,
                )[j]).price == self.levels()[k].spec_price(),
            pool1.same_outside(pool0, before.levels()[k].handles().to_set()),
        ensures
            self.view_in(pool1) == before.view_in(pool0).update(k, self.levels()[k].view_in(pool1)),
            sorted(self.view_in(pool1), self.spec_is_bid()),
            forall|j: int|
                0 <= j < self.levels().len() && j != k ==> {
                    &&& (#[trigger] self.levels()[j]).wf(pool1)
                    &&& self.levels()[j].handles().len() > 0
                    &&& forall|i: int|
                        0 <= i < self.levels()[j].handles().len() ==> (
                        #[trigger] self.levels()[j].orders(pool1)[i]).price
                            == self.levels()[j].spec_price()
                },
            forall|n: usize|
                self.holds(n) <==> (before.holds(n) && !before.levels()[k].handles().contains(n))
                    || self.levels()[k].handles().contains(n),
            pool1.same_outside(pool0, before.nodes()),
    {
        let touched = before.levels()[k].handles().to_set();
        assert forall|j: int| 0 <= j < self.levels().len() && j != k implies {
            &&& (#[trigger] self.levels()[j]).wf(pool1)
            &&& self.levels()[j].orders(pool1) == before.levels()[j].orders(pool0)
        } by {
            let level = before.levels()[j];
            assert(self.levels()[j] == level);
            assert forall|i: int| 0 <= i < level.handles().len() implies !touched.contains(
                #[trigger] level.handles()[i],
            ) by {
                let n = level.handles()[i];
                assert(before.level_holds(j, n));
                before.lemma_node(pool0, j, n);
                if touched.contains(n) {
                    assert(before.level_holds(k, n));
                }
            }
            level.lemma_frame(pool0, pool1, touched);
        }
        assert(self.view_in(pool1) =~= before.view_in(pool0).update(
            k,
            self.levels()[k].view_in(pool1),
        ));
        let v0 = before.view_in(pool0);
        let v1 = self.view_in(pool1);
        assert forall|i: int, j: int| 0 <= i < j < v1.len() implies precedes(
            self.spec_is_bid(),
            (#[trigger] v1[i]).price,
            (#[trigger] v1[j]).price,
        ) by {
            assert(v1[i].price == v0[i].price);
            assert(v1[j].price == v0[j].price);
        }
        assert forall|n: usize|
            self.holds(n) <==> (before.holds(n) && !before.levels()[k].handles().contains(n))
                || self.levels()[k].handles().contains(n) by {
            if self.holds(n) {
                let k2 = choose|k2: int| self.level_holds(k2, n);
                if k2 != k {
                    assert(before.level_holds(k2, n));
                    before.lemma_node(pool0, k2, n);
                    if before.levels()[k].handles().contains(n) {
                        assert(before.level_holds(k, n));
                    }
                }
            }
            if before.holds(n) && !before.levels()[k].handles().contains(n) {
                let k2 = choose|k2: int| before.level_holds(k2, n);
                assert(self.level_holds(k2, n));
            }
            if self.levels()[k].handles().contains(n) {
                assert(self.level_holds(k, n));
            }
        }
        assert(touched.subset_of(before.nodes())) by {
            assert forall|n: usize| touched.contains(n) implies before.nodes().contains(n) by {
                assert(before.level_holds(k, n));
            }
        }
        pool1.lemma_same_outside_widen(pool0, touched, before.nodes());
    }

    /// Removes level `k` if it has become empty.
    fn cleanup_level(&mut self, k: usize, Ghost(pool): Ghost<&Pool<O>>)
        requires
            k < old(self).levels().len(),
            old(self).levels()[k as int].wf(pool),
            sorted(old(self).view_in(pool), old(self).spec_is_bid()),
            forall|j: int|
                0 <= j < old(self).levels().len() && j != k ==> {
                    &&& (#[trigger] old(self).levels()[j]).wf(pool)
                    &&& old(self).levels()[j].handles().len() > 0
                    &&& forall|i: int|
                        0 <= i < old(self).levels()[j].handles().len() ==> (
                        #[trigger] old(self).levels()[j].orders(pool)[i]).price == old(
                            self,
                        ).levels()[j].spec_price()
                },
            forall|i: int|
                0 <= i < old(self).levels()[k as int].handles().len() ==> (#[trigger] old(
                    self,
                ).levels()[k as int].orders(pool)[i]).price == old(self).levels()[k as int].spec_price(),
        ensures
            final(self).wf(pool),
            final(self).spec_is_bid() == old(self).spec_is_bid(),
            final(self).view_in(pool) == if old(self).levels()[k as int].handles().len() == 0 {
                old(self).view_in(pool).remove(k as int)
            } else {
                old(self).view_in(pool)
            },
            forall|n: usize| final(self).holds(n) <==> old(self).holds(n),
    {
        proof {
            self.levels()[k as int].lemma_wf(pool);
        }
        if self.levels[k].is_empty() {
            let gone = self.levels.remove(k);
            proof {
                let before = old(self);
                let v0 = before.view_in(pool);
                let v1 = self.view_in(pool);
                assert forall|j: int| 0 <= j < self.levels().len() implies self.levels()[j]
                    == before.levels()[if j < k {
                    j
                } else {
                    j + 1
                }] by {}
                assert(v1 =~= v0.remove(k as int));
                assert forall|i: int, j: int| 0 <= i < j < v1.len() implies precedes(
                    self.spec_is_bid(),
                    (#[trigger] v1[i]).price,
                    (#[trigger] v1[j]).price,
                ) by {
                    let a = if i < k {
                        i
                    } else {
                        i + 1
                    };
                    let b = if j < k {
                        j
                    } else {
                        j + 1
                    };
                    assert(v1[i].price == v0[a].price);
                    assert(v1[j].price == v0[b].price);
                }
                assert forall|n: usize| self.holds(n) <==> before.holds(n) by {
                    if self.holds(n) {
                        let j = choose|j: int| self.level_holds(j, n);
                        assert(before.level_holds(
                            if j < k {
                                j
                            } else {
                                j + 1
                            },
                            n,
                        ));
                    }
                    if before.holds(n) {
                        let j = choose|j: int| before.level_holds(j, n);
                        assert(j != k);
                        assert(self.level_holds(
                            if j < k {
                                j
                            } else {
                                j - 1
                            },
                            n,
                        ));
                    }
                }
            }
        }
    }

    /// Queues `order` at its price; returns the handle of its node.
    pub fn insert_order(&mut self, order: O, pool: &mut Pool<O>) -> (node: usize)
        requires
            old(self).wf(old(pool)),
            old(pool).wf(),
            level_total(old(self).view_in(old(pool)), old(self).spec_is_bid(), order.view().price)
                + order.view().remaining <= u64::MAX,
        ensures
            final(self).wf(final(pool)),
            final(pool).wf(),
            final(self).spec_is_bid() == old(self).spec_is_bid(),
            final(self).view_in(final(pool)) == side_insert(
                old(self).view_in(old(pool)),
                old(self).spec_is_bid(),
                order.view(),
            ),
            node != NIL,
            !old(pool).live(node),
            final(pool).data(node) == order,
            forall|n: usize| final(self).holds(n) <==> old(self).holds(n) || n == node,
            final(pool).same_outside(old(pool), old(self).nodes()),
            final(pool).same_data(old(pool), node),
            forall|i: usize| final(pool).live(i) <==> old(pool).live(i) || i == node,
    {
        let ghost pool0 = *pool;
        let ghost side0 = *self;
        let ghost view0 = self.view_in(&pool0);
        let price = order.price();
        let k = self.position(price, Ghost(&*pool));
        if k < self.levels.len() && self.levels[k].price() == price {
            proof {
                self.levels()[k as int].lemma_wf(&pool0);
                assert(view0[k as int].orders == self.levels()[k as int].orders(&pool0));
            }
            let node = self.levels[k].add_order(order, pool);
            proof {
                let level0 = side0.levels()[k as int];
                let level1 = self.levels()[k as int];
                assert forall|j: int| 0 <= j < level1.handles().len() implies (
                #[trigger] level1.orders(pool)[j]).price == level1.spec_price() by {
                    if j < level0.handles().len() {
                        assert(level1.orders(pool)[j] == level0.orders(&pool0)[j]);
                    }
                }
                self.lemma_level_changed(&side0, &pool0, pool, k as int);
                assert forall|n: usize| self.holds(n) <==> side0.holds(n) || n == node by {
                    lemma_push_contains(level0.handles(), node, n);
                    if level0.handles().contains(n) {
                        assert(side0.level_holds(k as int, n));
                    }
                    if side0.holds(n) && n == node {
                        let k2 = choose|k2: int| side0.level_holds(k2, n);
                        side0.lemma_node(&pool0, k2, n);
                    }
                }
            }
            node
        } else {
            let mut level = Level::new(price);
            let node = level.add_order(order, pool);
            let ghost fresh = level;
            self.levels.insert(k, level);
            proof {
                assert(fresh.orders(pool) =~= seq![order.view()]);
                assert(pool.same_outside(&pool0, Set::empty()));
                assert forall|j: int| 0 <= j < side0.levels().len() implies (
                #[trigger] side0.levels()[j]).wf(pool) && side0.levels()[j].orders(pool)
                    == side0.levels()[j].orders(&pool0) by {
                    side0.levels()[j].lemma_frame(&pool0, pool, Set::empty());
                }
                assert forall|j: int| 0 <= j < self.levels().len() implies self.levels()[j] == if j
                    < k {
                    side0.levels()[j]
                } else if j == k {
                    fresh
                } else {
                    side0.levels()[j - 1]
                } by {}
                let v1 = self.view_in(pool);
                assert(v1 =~= view0.insert(
                    k as int,
                    LevelView { price: order.view().price, orders: seq![order.view()] },
                ));
                assert forall|i: int, j: int| 0 <= i < j < v1.len() implies precedes(
                    self.spec_is_bid(),
                    (#[trigger] v1[i]).price,
                    (#[trigger] v1[j]).price,
                ) by {
                    lemma_rank_split(view0, self.spec_is_bid(), price);
                    let a = if i < k {
                        i
                    } else {
                        i - 1
                    };
                    let b = if j < k {
                        j
                    } else {
                        j - 1
                    };
                    if i != k {
                        assert(v1[i].price == view0[a].price);
                    }
                    if j != k {
                        assert(v1[j].price == view0[b].price);
                    }
                }
                assert forall|n: usize| self.holds(n) <==> side0.holds(n) || n == node by {
                    if self.holds(n) {
                        let j = choose|j: int| self.level_holds(j, n);
                        if j < k {
                            assert(side0.level_holds(j, n));
                        } else if j > k {
                            assert(side0.level_holds(j - 1, n));
                        } else {
                            assert(fresh.handles() =~= seq![node]);
                            let i = fresh.handles().index_of(n);
                            assert(fresh.handles()[i] == n);
                        }
                    }
                    if side0.holds(n) {
                        let j = choose|j: int| side0.level_holds(j, n);
                        assert(self.level_holds(
                            if j < k {
                                j
                            } else {
                                j + 1
                            },
                            n,
                        ));
                    }
                    if n == node {
                        assert(fresh.handles()[0] == node);
                        assert(self.level_holds(k as int, n));
                    }
                }
                pool.lemma_same_outside_widen(&pool0, Set::empty(), side0.nodes());
            }
            node
        }
    }

    /// Takes `fill` off the order at `node`; says whether the order was
    /// thereby removed. A level left empty goes too.
    pub fn fill_order(&mut self, node: usize, fill: u64, pool: &mut Pool<O>) -> (removed: bool)
        requires
            old(self).wf(old(pool)),
            old(pool).wf(),
            old(self).holds(node),
            fill <= old(pool).data(node).view().remaining,
        ensures
            final(self).wf(final(pool)),
            final(pool).wf(),
            final(self).spec_is_bid() == old(self).spec_is_bid(),
            removed == (fill == old(pool).data(node).view().remaining),
            final(self).view_in(final(pool)) == side_fill_at(
                old(self).view_in(old(pool)),
                old(self).place(old(pool), node).0,
                old(self).place(old(pool), node).1,
                fill,
            ),
            forall|n: usize| final(self).holds(n) <==> old(self).holds(n) && !(removed && n == node),
            forall|i: usize| final(pool).live(i) <==> old(pool).live(i) && !(removed && i == node),
            !removed ==> final(pool).data(node).view() == old(pool).data(node).view().filled(fill),
            final(pool).same_outside(old(pool), old(self).nodes()),
            final(pool).same_data(old(pool), node),
    {
        let ghost pool0 = *pool;
        let ghost side0 = *self;
        let ghost view0 = self.view_in(&pool0);
        let ghost k0 = choose|k: int| self.level_holds(k, node);
        proof {
            self.lemma_node(&pool0, k0, node);
            self.levels()[k0].lemma_wf(&pool0);
        }
        let price = pool.get(node).price();
        let k = self.position(price, Ghost(&*pool));
        let ghost level0 = self.levels()[k as int];
        let ghost j0 = level0.handles().index_of(node);
        let removed = self.levels[k].fill_order(node, fill, pool);
        let ghost pool1 = *pool;
        let ghost side1 = *self;
        proof {
            let level1 = self.levels()[k as int];
            assert forall|j: int| 0 <= j < level1.handles().len() implies (
            #[trigger] level1.orders(pool)[j]).price == level1.spec_price() by {
                if removed {
                    assert(level1.orders(pool)[j] == level0.orders(&pool0)[if j < j0 {
                        j
                    } else {
                        j + 1
                    }]);
                } else if j != j0 {
                    assert(level1.orders(pool)[j] == level0.orders(&pool0)[j]);
                }
            }
            self.lemma_level_changed(&side0, &pool0, pool, k as int);
            level1.lemma_wf(pool);
        }
        self.cleanup_level(k, Ghost(&*pool));
        proof {
            let level1 = side1.levels()[k as int];
            assert(view0[k as int].orders == level0.orders(&pool0));
            assert(self.view_in(pool) =~= side_fill_at(view0, k as int, j0, fill));
            assert forall|n: usize|
                self.holds(n) <==> side0.holds(n) && !(removed && n == node) by {
                if removed {
                    lemma_remove_contains(level0.handles(), j0, n);
                }
                if level0.handles().contains(n) {
                    assert(side0.level_holds(k as int, n));
                }
            }
        }
        removed
    }

    /// Removes the order at `node`. A level left empty goes too.
    pub fn remove_order(&mut self, node: usize, pool: &mut Pool<O>)
        requires
            old(self).wf(old(pool)),
            old(pool).wf(),
            old(self).holds(node),
        ensures
            final(self).wf(final(pool)),
            final(pool).wf(),
            final(self).spec_is_bid() == old(self).spec_is_bid(),
            final(self).view_in(final(pool)) == side_remove_at(
                old(self).view_in(old(pool)),
                old(self).place(old(pool), node).0,
                old(self).place(old(pool), node).1,
            ),
            forall|n: usize| final(self).holds(n) <==> old(self).holds(n) && n != node,
            forall|i: usize| final(pool).live(i) <==> old(pool).live(i) && i != node,
            final(pool).same_outside(old(pool), old(self).nodes()),
            final(pool).same_data(old(pool), node),
    {
        let ghost pool0 = *pool;
        let ghost side0 = *self;
        let ghost view0 = self.view_in(&pool0);
        let ghost k0 = choose|k: int| self.level_holds(k, node);
        proof {
            self.lemma_node(&pool0, k0, node);
            self.levels()[k0].lemma_wf(&pool0);
            pool0.lemma_live_not_nil();
        }
        let price = pool.get(node).price();
        let k = self.position(price, Ghost(&*pool));
        let ghost level0 = self.levels()[k as int];
        let ghost j0 = level0.handles().index_of(node);
        self.levels[k].remove_order(node, pool);
        let ghost side1 = *self;
        proof {
            let level1 = self.levels()[k as int];
            assert forall|j: int| 0 <= j < level1.handles().len() implies (
            #[trigger] level1.orders(pool)[j]).price == level1.spec_price() by {
                assert(level1.orders(pool)[j] == level0.orders(&pool0)[if j < j0 {
                    j
                } else {
                    j + 1
                }]);
            }
            self.lemma_level_changed(&side0, &pool0, pool, k as int);
            level1.lemma_wf(pool);
        }
        self.cleanup_level(k, Ghost(&*pool));
        proof {
            assert(view0[k as int].orders == level0.orders(&pool0));
            assert(self.view_in(pool) =~= side_remove_at(view0, k as int, j0));
            assert forall|n: usize| self.holds(n) <==> side0.holds(n) && n != node by {
                lemma_remove_contains(level0.handles(), j0, n);
                if level0.handles().contains(n) {
                    assert(side0.level_holds(k as int, n));
                }
            }
        }
    }
}

} // verus!