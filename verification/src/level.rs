//! A price level: the orders resting at one price, oldest first, with
//! the sum of their remaining quantities kept at hand.

use crate::list::{Iter, IterMut, List, Pool, NIL};
use crate::order::{OrderInterface, OrderView};
use vstd::prelude::*;

verus! {

/// A level as the book's users see it.
pub struct LevelView {
    pub price: u64,
    pub orders: Seq<OrderView>,
}

/// The sum of the remaining quantities of `orders`.
pub open spec fn sum_remaining(orders: Seq<OrderView>) -> int
    decreases orders.len(),
{
    if orders.len() == 0 {
        0
    } else {
        sum_remaining(orders.drop_last()) + orders.last().remaining
    }
}

/// Appending an order adds what remains of it to the sum.
pub proof fn lemma_sum_push(orders: Seq<OrderView>, order: OrderView)
    ensures
        sum_remaining(orders.push(order)) == sum_remaining(orders) + order.remaining,
{
    assert(orders.push(order).drop_last() =~= orders);
}

/// Removing an order takes what remains of it off the sum.
pub proof fn lemma_sum_remove(orders: Seq<OrderView>, k: int)
    requires
        0 <= k < orders.len(),
    ensures
        sum_remaining(orders.remove(k)) == sum_remaining(orders) - orders[k].remaining,
    decreases orders.len(),
{
    if k == orders.len() - 1 {
        assert(orders.remove(k) =~= orders.drop_last());
    } else {
        lemma_sum_remove(orders.drop_last(), k);
        assert(orders.remove(k).drop_last() =~= orders.drop_last().remove(k));
        assert(orders.remove(k).last() == orders.last());
    }
}

/// Replacing an order changes the sum by the difference of what remains.
pub proof fn lemma_sum_update(orders: Seq<OrderView>, k: int, order: OrderView)
    requires
        0 <= k < orders.len(),
    ensures
        sum_remaining(orders.update(k, order)) == sum_remaining(orders) - orders[k].remaining
            + order.remaining,
    decreases orders.len(),
{
    if k == orders.len() - 1 {
        assert(orders.update(k, order).drop_last() =~= orders.drop_last());
    } else {
        lemma_sum_update(orders.drop_last(), k, order);
        assert(orders.update(k, order).drop_last() =~= orders.drop_last().update(k, order));
    }
}

/// The sum is at least each of its terms.
pub proof fn lemma_sum_bounds(orders: Seq<OrderView>, k: int)
    requires
        0 <= k < orders.len(),
    ensures
        orders[k].remaining <= sum_remaining(orders),
        0 <= sum_remaining(orders.remove(k)),
    decreases orders.len(),
{
    lemma_sum_nonnegative(orders.remove(k));
    lemma_sum_remove(orders, k);
}

/// The sum is not negative.
pub proof fn lemma_sum_nonnegative(orders: Seq<OrderView>)
    ensures
        0 <= sum_remaining(orders),
    decreases orders.len(),
{
    if orders.len() > 0 {
        lemma_sum_nonnegative(orders.drop_last());
    }
}

/// A price level containing all orders at a specific price point.
pub struct Level<O: OrderInterface> {
    price: u64,
    orders: List<O>,
    /// Total quantity across all orders (cached for performance).
    total_quantity: u64,
}

impl<O: OrderInterface> Level<O> {
    /// The price of the level.
    pub closed spec fn spec_price(&self) -> u64 {
        self.price
    }

    /// The cached total.
    pub closed spec fn spec_total(&self) -> u64 {
        self.total_quantity
    }

    /// The number of orders, as the level counts them.
    pub closed spec fn spec_len(&self) -> usize {
        self.orders.spec_len()
    }

    /// The handles of the level's orders, oldest first.
    pub closed spec fn handles(&self) -> Seq<usize> {
        self.orders.handles()
    }

    /// The level's orders, oldest first.
    pub open spec fn orders(&self, pool: &Pool<O>) -> Seq<OrderView> {
        Seq::new(self.handles().len(), |k: int| pool.data(self.handles()[k]).view())
    }

    /// The level as its users see it.
    pub open spec fn view_in(&self, pool: &Pool<O>) -> LevelView {
        LevelView { price: self.spec_price(), orders: self.orders(pool) }
    }

    /// The orders form a well-formed list in `pool`, and the cached total
    /// is the sum of their remaining quantities.
    pub closed spec fn wf(&self, pool: &Pool<O>) -> bool {
        &&& self.orders.wf(pool)
        &&& self.total_quantity == sum_remaining(self.orders(pool))
    }

    /// What a well-formed level guarantees to the outside.
    pub proof fn lemma_wf(&self, pool: &Pool<O>)
        requires
            self.wf(pool),
        ensures
            self.spec_total() == sum_remaining(self.orders(pool)),
            self.spec_len() == self.handles().len(),
            self.handles().no_duplicates(),
            forall|k: int| 0 <= k < self.handles().len() ==> pool.live(#[trigger] self.handles()[k]),
    {
        self.orders.lemma_wf(pool);
    }

    /// A level stays well-formed, with the same orders, in any pool that
    /// agrees with the old one on the level's own nodes.
    pub proof fn lemma_frame(&self, before: &Pool<O>, after: &Pool<O>, touched: Set<usize>)
        requires
            self.wf(before),
            after.same_outside(before, touched),
            forall|k: int| 0 <= k < self.handles().len() ==> !touched.contains(#[trigger] self.handles()[k]),
        ensures
            self.wf(after),
            self.orders(after) == self.orders(before),
    {
        self.orders.lemma_frame(before, after, touched);
        self.orders.lemma_wf(before);
        assert(self.orders(after) =~= self.orders(before)) by {
            assert forall|k: int| 0 <= k < self.handles().len() implies after.data(
                self.handles()[k],
            ) == before.data(self.handles()[k]) by {
                assert(before.live(self.handles()[k]));
                assert(!touched.contains(self.handles()[k]));
            }
        }
    }

    /// An empty level at `price`.
    pub fn new(price: u64) -> (r: Self)
        ensures
            r.spec_price() == price,
            r.spec_total() == 0,
            r.spec_len() == 0,
            r.handles().len() == 0,
            forall|pool: &Pool<O>| #[trigger] r.wf(pool),
    {
        let r = Self { price, orders: List::new(), total_quantity: 0 };
        proof {
            assert forall|pool: &Pool<O>| #[trigger] r.wf(pool) by {
                assert(r.orders.wf(pool));
                assert(r.orders(pool) =~= Seq::empty());
            }
        }
        r
    }

    /// The price of the level.
    pub fn price(&self) -> (r: u64)
        ensures
            r == self.spec_price(),
    {
        self.price
    }

    /// The sum of what remains of the level's orders.
    pub fn total_quantity(&self) -> (r: u64)
        ensures
            r == self.spec_total(),
            forall|pool: &Pool<O>| #[trigger] self.wf(pool) ==> r == sum_remaining(self.orders(pool)),
    {
        self.total_quantity
    }

    /// The number of orders.
    pub fn len(&self) -> (r: usize)
        ensures
            r == self.spec_len(),
            forall|pool: &Pool<O>| #[trigger] self.wf(pool) ==> r == self.handles().len(),
    {
        proof {
            assert forall|pool: &Pool<O>| #[trigger] self.wf(pool) implies self.spec_len()
                == self.handles().len() by {
                self.lemma_wf(pool);
            }
        }
        self.orders.len()
    }

    /// The level holds no order.
    pub fn is_empty(&self) -> (r: bool)
        ensures
            r == (self.spec_len() == 0),
            forall|pool: &Pool<O>| #[trigger] self.wf(pool) ==> r == (self.handles().len() == 0),
    {
        proof {
            assert forall|pool: &Pool<O>| #[trigger] self.wf(pool) implies self.spec_len()
                == self.handles().len() by {
                self.lemma_wf(pool);
            }
        }
        self.orders.is_empty()
    }

    /// The handle of the oldest order, `NIL` if there is none.
    pub fn front(&self, pool: &Pool<O>) -> (r: usize)
        requires
            self.wf(pool),
        ensures
            r == if self.handles().len() > 0 {
                self.handles()[0]
            } else {
                NIL
            },
    {
        self.orders.front(pool)
    }

    /// The handle of the order that follows `node`, `NIL` after the last.
    pub fn next(&self, node: usize, pool: &Pool<O>) -> (r: usize)
        requires
            self.wf(pool),
            self.handles().contains(node),
        ensures
            r == if self.handles().index_of(node) + 1 < self.handles().len() {
                self.handles()[self.handles().index_of(node) + 1]
            } else {
                NIL
            },
    {
        self.orders.next(node, pool)
    }

    /// Adds an order to this level (FIFO). Returns the handle of the inserted node.
    pub fn add_order(&mut self, order: O, pool: &mut Pool<O>) -> (node: usize)
        requires
            old(self).wf(old(pool)),
            old(pool).wf(),
            old(self).spec_total() + order.view().remaining <= u64::MAX,
        ensures
            final(self).wf(final(pool)),
            final(pool).wf(),
            node != NIL,
            !old(pool).live(node),
            final(pool).data(node) == order,
            final(self).spec_price() == old(self).spec_price(),
            final(self).handles() == old(self).handles().push(node),
            final(self).spec_len() == old(self).spec_len() + 1,
            final(self).orders(final(pool)) == old(self).orders(old(pool)).push(order.view()),
            final(self).spec_total() == old(self).spec_total() + order.view().remaining,
            final(pool).same_outside(old(pool), old(self).handles().to_set()),
            final(pool).same_data(old(pool), node),
            forall|i: usize| final(pool).live(i) <==> old(pool).live(i) || i == node,
    {
        let ghost pool0 = *pool;
        let ghost before = self.orders(&pool0);
        let ghost contents0 = self.orders.contents(&pool0);
        self.total_quantity += order.remaining();
        let node = self.orders.push_back(order, pool);
        proof {
            let h = self.orders.handles();
            assert(self.orders.contents(pool)[h.len() - 1] == order);
            assert(self.orders(pool) =~= before.push(order.view())) by {
                assert forall|k: int| 0 <= k < h.len() - 1 implies pool.data(h[k]) == pool0.data(
                    h[k],
                ) by {
                    assert(self.orders.contents(pool)[k] == contents0.push(order)[k]);
                }
            }
            lemma_sum_push(before, order.view());
        }
        node
    }

    /// Takes `fill` off the order at `node`; removes the order when nothing
    /// remains of it, and says whether it did.
    pub fn fill_order(&mut self, node: usize, fill: u64, pool: &mut Pool<O>) -> (removed: bool)
        requires
            old(self).wf(old(pool)),
            old(pool).wf(),
            old(self).handles().contains(node),
            fill <= old(pool).data(node).view().remaining,
        ensures
            final(self).wf(final(pool)),
            final(pool).wf(),
            removed == (fill == old(pool).data(node).view().remaining),
            final(self).spec_price() == old(self).spec_price(),
            final(self).spec_total() == old(self).spec_total() - fill,
            removed ==> {
                &&& final(self).handles() == old(self).handles().remove(
                    old(self).handles().index_of(node),
                )
                &&& final(self).spec_len() == old(self).spec_len() - 1
                &&& final(self).orders(final(pool)) == old(self).orders(old(pool)).remove(
                    old(self).handles().index_of(node),
                )
                &&& forall|i: usize| final(pool).live(i) <==> old(pool).live(i) && i != node
            },
            !removed ==> {
                &&& final(self).handles() == old(self).handles()
                &&& final(self).spec_len() == old(self).spec_len()
                &&& final(self).orders(final(pool)) == old(self).orders(old(pool)).update(
                    old(self).handles().index_of(node),
                    old(pool).data(node).view().filled(fill),
                )
                &&& forall|i: usize| final(pool).live(i) <==> old(pool).live(i)
                &&& final(pool).data(node).view() == old(pool).data(node).view().filled(fill)
            },
            final(pool).same_outside(old(pool), old(self).handles().to_set()),
            final(pool).same_data(old(pool), node),
    {
        let ghost pool0 = *pool;
        let ghost h = self.handles();
        let ghost at = h.index_of(node);
        let ghost before = self.orders(&pool0);
        proof {
            self.orders.lemma_wf(&pool0);
            assert(h[at] == node);
            assert(pool0.live(h[at]));
            assert(before[at] == pool0.data(node).view());
            lemma_sum_bounds(before, at);
            lemma_sum_update(before, at, before[at].filled(fill));
        }
        let order = pool.data_mut(node);
        order.fill(fill);
        let rest = order.remaining();
        self.total_quantity -= fill;
        let ghost pool1 = *pool;
        proof {
            assert(pool1.same_links(&pool0));
            self.orders.lemma_same_links(&pool0, &pool1);
            assert(self.orders(&pool1) =~= before.update(at, before[at].filled(fill))) by {
                assert forall|k: int| 0 <= k < h.len() implies self.orders(&pool1)[k]
                    == before.update(at, before[at].filled(fill))[k] by {
                    if k != at {
                        assert(h[k] != node);
                    }
                }
            }
            assert forall|i: usize|
                #![trigger pool1@[i as int]]
                #![trigger pool0.live(i)]
                pool0.live(i) && !h.to_set().contains(i) implies i < pool1@.len() && pool1@[i as int]
                    == pool0@[i as int] by {
                assert(h.contains(h[at]));
            }
        }
        if rest == 0 {
            let ghost mid = self.orders(&pool1);
            let ghost contents1 = self.orders.contents(&pool1);
            proof {
                pool1.lemma_live_not_nil();
                assert(pool1.live(node));
            }
            let gone = self.orders.remove(node, pool);
            proof {
                lemma_sum_remove(mid, at);
                let g = self.orders.handles();
                assert(self.orders(pool) =~= mid.remove(at)) by {
                    assert forall|k: int| 0 <= k < g.len() implies self.orders(pool)[k]
                        == mid.remove(at)[k] by {
                        assert(self.orders.contents(pool)[k] == contents1.remove(at)[k]);
                    }
                }
                assert(mid.remove(at) =~= before.remove(at));
                pool.lemma_same_outside_trans(&pool1, &pool0, h.to_set());
            }
            return true;
        }
        false
    }

    /// Removes the order at `node`; does nothing for the `NIL` handle or on
    /// an empty level.
    pub fn remove_order(&mut self, node: usize, pool: &mut Pool<O>)
        requires
            old(self).wf(old(pool)),
            old(pool).wf(),
            node != NIL && old(self).handles().len() > 0 ==> old(self).handles().contains(node),
        ensures
            final(self).wf(final(pool)),
            final(pool).wf(),
            final(self).spec_price() == old(self).spec_price(),
            node == NIL || old(self).handles().len() == 0 ==> *final(self) == *old(self) && *final(pool)
                == *old(pool),
            node != NIL && old(self).handles().len() > 0 ==> {
                &&& final(self).handles() == old(self).handles().remove(
                    old(self).handles().index_of(node),
                )
                &&& final(self).spec_len() == old(self).spec_len() - 1
                &&& final(self).orders(final(pool)) == old(self).orders(old(pool)).remove(
                    old(self).handles().index_of(node),
                )
                &&& final(self).spec_total() == old(self).spec_total() - old(pool).data(
                    node,
                ).view().remaining
                &&& forall|i: usize| final(pool).live(i) <==> old(pool).live(i) && i != node
            },
            final(pool).same_outside(old(pool), old(self).handles().to_set()),
            final(pool).same_data(old(pool), node),
    {
        let ghost pool0 = *pool;
        let ghost h = self.handles();
        let ghost before = self.orders(&pool0);
        let ghost contents0 = self.orders.contents(&pool0);
        proof {
            self.orders.lemma_wf(&pool0);
        }
        if let Some(order) = self.orders.remove(node, pool) {
            proof {
                let at = h.index_of(node);
                assert(h[at] == node);
                assert(before[at] == order.view());
                lemma_sum_bounds(before, at);
                lemma_sum_remove(before, at);
                let g = self.orders.handles();
                assert(self.orders(pool) =~= before.remove(at)) by {
                    assert forall|k: int| 0 <= k < g.len() implies self.orders(pool)[k]
                        == before.remove(at)[k] by {
                        assert(self.orders.contents(pool)[k] == contents0.remove(at)[k]);
                    }
                }
            }
            self.total_quantity -= order.remaining();
        }
    }

    /// An iterator over the orders of the level, oldest first.
    pub fn iter<'a>(&self, pool: &'a Pool<O>) -> (r: Iter<'a, O>)
        requires
            self.wf(pool),
            pool.wf(),
        ensures
            vstd::std_specs::iter::IteratorSpec::remaining(&r).len() == self.handles().len(),
            forall|k: int|
                0 <= k < self.handles().len() ==> *#[trigger] vstd::std_specs::iter::IteratorSpec::remaining(
                    &r,
                )[k] == pool.data(self.handles()[k]),
    {
        self.orders.iter(pool)
    }

    /// An iterator over the handles of the orders, oldest first; each
    /// handle gives mutable access to its order through the pool.
    pub fn iter_mut(&self, pool: &Pool<O>) -> (r: IterMut)
        requires
            self.wf(pool),
            pool.wf(),
        ensures
            vstd::std_specs::iter::IteratorSpec::remaining(&r) == self.handles(),
    {
        self.orders.iter_mut(pool)
    }
}

} // verus!
