//! The order book: a bid side and an ask side over one node pool, with
//! an index from order id to the node that holds the order.

use crate::eval::{
    instruction_views, prim_views, Instruction, InstructionPrimitive, InstructionView, Msg,
    PrimitiveView,
};
use crate::level::{sum_remaining, LevelView};
use crate::list::Pool;
use crate::order::{OrderInterface, OrderView};
use crate::side::{
    level_total, side_best, side_fill_at, side_insert, side_remove_at, side_top, sorted, LevelIter,
    Side,
};
use vstd::hash_map::StringHashMap;
use vstd::prelude::*;

verus! {

/// The order with identifier `id` stands at place `j` of level `k`.
pub open spec fn at(levels: Seq<LevelView>, k: int, j: int, id: Seq<char>) -> bool {
    0 <= k < levels.len() && 0 <= j < levels[k].orders.len() && levels[k].orders[j].id == id
}

/// Some order of the side has the identifier `id`.
pub open spec fn side_has(levels: Seq<LevelView>, id: Seq<char>) -> bool {
    exists|k: int, j: int| at(levels, k, j, id)
}

/// A place at which the side holds the order with identifier `id`.
pub open spec fn locate(levels: Seq<LevelView>, id: Seq<char>) -> (int, int) {
    choose|k: int, j: int| at(levels, k, j, id)
}

/// The book as its users see it: each side's levels, best first, each
/// level's orders, oldest first.
pub struct BookView {
    pub bids: Seq<LevelView>,
    pub asks: Seq<LevelView>,
}

/// Result of one instruction primitive.
#[derive(Debug, PartialEq, Eq, Clone)]
pub enum OutputPrimitive {
    /// The order rests with this quantity (nothing rests when it is zero).
    Inserted(u64),
    /// The order is gone from the book, or never was there.
    Deleted,
    /// The maker was filled in part and still rests.
    Partial,
    /// The maker was filled completely and left the book.
    Filled,
    /// Nothing was done to the book.
    NoOp,
}

/// Output of a single instruction.
pub enum Output {
    Single(OutputPrimitive),
    Multi(Vec<OutputPrimitive>),
}

/// An output with its primitives as plain values.
pub enum OutputView {
    Single(OutputPrimitive),
    Multi(Seq<OutputPrimitive>),
}

impl View for Output {
    type V = OutputView;

    open spec fn view(&self) -> OutputView {
        match *self {
            Output::Single(p) => OutputView::Single(p),
            Output::Multi(ps) => OutputView::Multi(ps@),
        }
    }
}

impl BookView {
    /// The bid side or the ask side.
    pub open spec fn side(self, is_bid: bool) -> Seq<LevelView> {
        if is_bid {
            self.bids
        } else {
            self.asks
        }
    }

    /// An order with identifier `id` rests on the book.
    pub open spec fn contains(self, id: Seq<char>) -> bool {
        side_has(self.bids, id) || side_has(self.asks, id)
    }

    /// The identifiers of the resting orders.
    pub open spec fn ids(self) -> Set<Seq<char>> {
        Set::new(|id: Seq<char>| self.contains(id))
    }

    /// The resting order with identifier `id`.
    pub open spec fn order(self, id: Seq<char>) -> OrderView {
        if side_has(self.bids, id) {
            self.bids[locate(self.bids, id).0].orders[locate(self.bids, id).1]
        } else {
            self.asks[locate(self.asks, id).0].orders[locate(self.asks, id).1]
        }
    }

    /// The book with `order` queued on its side at its price.
    pub open spec fn insert(self, order: OrderView) -> BookView {
        if order.is_buy {
            BookView { bids: side_insert(self.bids, true, order), ..self }
        } else {
            BookView { asks: side_insert(self.asks, false, order), ..self }
        }
    }

    /// The book without the order `id`; the same book if there is none.
    pub open spec fn remove(self, id: Seq<char>) -> BookView {
        if side_has(self.bids, id) {
            BookView {
                bids: side_remove_at(self.bids, locate(self.bids, id).0, locate(self.bids, id).1),
                ..self
            }
        } else if side_has(self.asks, id) {
            BookView {
                asks: side_remove_at(self.asks, locate(self.asks, id).0, locate(self.asks, id).1),
                ..self
            }
        } else {
            self
        }
    }

    /// The book after `quantity` has been taken off the resting order `id`.
    pub open spec fn fill(self, id: Seq<char>, quantity: u64) -> BookView {
        if side_has(self.bids, id) {
            BookView {
                bids: side_fill_at(
                    self.bids,
                    locate(self.bids, id).0,
                    locate(self.bids, id).1,
                    quantity,
                ),
                ..self
            }
        } else {
            BookView {
                asks: side_fill_at(
                    self.asks,
                    locate(self.asks, id).0,
                    locate(self.asks, id).1,
                    quantity,
                ),
                ..self
            }
        }
    }

    /// The book as its users may rely on it: both sides are well-formed,
    /// and no identifier rests on both.
    pub open spec fn wf(self) -> bool {
        &&& side_wf(self.bids, true)
        &&& side_wf(self.asks, false)
        &&& forall|id: Seq<char>| side_has(self.bids, id) ==> !side_has(self.asks, id)
    }

    /// The primitive can be applied: an inserted order rests with no more
    /// than it has left, under an identifier that is new to the book, and
    /// its level's total stays within range; a maker fill names a resting
    /// order and takes no more than it has left.
    pub open spec fn accepts(self, p: PrimitiveView) -> bool {
        match p {
            PrimitiveView::Insert(order, remaining) => remaining == 0 || {
                &&& remaining <= order.remaining
                &&& !self.contains(order.id)
                &&& level_total(self.side(order.is_buy), order.is_buy, order.price) + remaining
                    <= u64::MAX
            },
            PrimitiveView::Fill(id, _, _, quantity, is_taker) => is_taker || (self.contains(id)
                && quantity <= self.order(id).remaining),
            PrimitiveView::Delete(_, _) => true,
            PrimitiveView::NoOp(_, _) => true,
        }
    }

    /// The book after the primitive.
    pub open spec fn apply_spec(self, p: PrimitiveView) -> BookView {
        match p {
            PrimitiveView::Insert(order, remaining) => if remaining > 0 {
                self.insert(order.filled((order.remaining - remaining) as u64))
            } else {
                self
            },
            PrimitiveView::Fill(id, _, _, quantity, is_taker) => if is_taker {
                self
            } else {
                self.fill(id, quantity)
            },
            PrimitiveView::Delete(id, _) => self.remove(id),
            PrimitiveView::NoOp(_, _) => self,
        }
    }

    /// What applying the primitive reports.
    pub open spec fn output_spec(self, p: PrimitiveView) -> OutputPrimitive {
        match p {
            PrimitiveView::Insert(_, remaining) => OutputPrimitive::Inserted(remaining),
            PrimitiveView::Fill(id, _, _, quantity, is_taker) => if is_taker {
                OutputPrimitive::NoOp
            } else if quantity == self.order(id).remaining {
                OutputPrimitive::Filled
            } else {
                OutputPrimitive::Partial
            },
            PrimitiveView::Delete(_, _) => OutputPrimitive::Deleted,
            PrimitiveView::NoOp(_, _) => OutputPrimitive::NoOp,
        }
    }

    /// The book after the primitives `ps`, applied in order.
    pub open spec fn apply_seq(self, ps: Seq<PrimitiveView>) -> BookView
        decreases ps.len(),
    {
        if ps.len() == 0 {
            self
        } else {
            self.apply_seq(ps.drop_last()).apply_spec(ps.last())
        }
    }

    /// Each of the primitives `ps` can be applied in its turn.
    pub open spec fn accepts_seq(self, ps: Seq<PrimitiveView>) -> bool
        decreases ps.len(),
    {
        ps.len() == 0 || (self.accepts_seq(ps.drop_last()) && self.apply_seq(
            ps.drop_last(),
        ).accepts(ps.last()))
    }

    /// What applying the primitives `ps` in order reports.
    pub open spec fn outputs_seq(self, ps: Seq<PrimitiveView>) -> Seq<OutputPrimitive> {
        Seq::new(ps.len(), |k: int| self.apply_seq(ps.take(k)).output_spec(ps[k]))
    }

    /// The book after the instructions `instructions`, applied in order.
    pub open spec fn apply_all(self, instructions: Seq<InstructionView>) -> BookView
        decreases instructions.len(),
    {
        if instructions.len() == 0 {
            self
        } else {
            self.apply_all(instructions.drop_last()).apply_seq(instructions.last().prims())
        }
    }

    /// Each of the instructions can be applied in its turn.
    pub open spec fn accepts_all(self, instructions: Seq<InstructionView>) -> bool
        decreases instructions.len(),
    {
        instructions.len() == 0 || (self.accepts_all(instructions.drop_last()) && self.apply_all(
            instructions.drop_last(),
        ).accepts_seq(instructions.last().prims()))
    }

    /// What applying the instruction reports.
    pub open spec fn output_of(self, instruction: InstructionView) -> OutputView {
        match instruction {
            InstructionView::Single(p) => OutputView::Single(self.output_spec(p)),
            InstructionView::Multi(ps) => OutputView::Multi(self.outputs_seq(ps)),
        }
    }
}

/// The two sides, the pool and the index fit together: every allocated
/// node holds an order with something left of it, lies on the side its
/// order names and is the node the index gives for its order's
/// identifier; a side holds orders of its own direction only; the index
/// names allocated nodes by the identifier of their order.
pub open spec fn pair_wf<O: OrderInterface>(
    own: &Side<O>,
    other: &Side<O>,
    pool: &Pool<O>,
    index: Map<Seq<char>, usize>,
) -> bool {
    &&& pool.wf()
    &&& own.wf(pool)
    &&& other.wf(pool)
    &&& own.spec_is_bid() != other.spec_is_bid()
    &&& forall|n: usize| #[trigger]
        pool.live(n) ==> {
            &&& pool.data(n).view().remaining > 0
            &&& if pool.data(n).view().is_buy == own.spec_is_bid() {
                own.holds(n)
            } else {
                other.holds(n)
            }
            &&& index.contains_key(pool.data(n).view().id)
            &&& index[pool.data(n).view().id] == n
        }
    &&& forall|n: usize| #[trigger]
        own.holds(n) ==> pool.live(n) && pool.data(n).view().is_buy == own.spec_is_bid()
    &&& forall|n: usize| #[trigger]
        other.holds(n) ==> pool.live(n) && pool.data(n).view().is_buy == other.spec_is_bid()
    &&& forall|id: Seq<char>| #[trigger]
        index.contains_key(id) ==> pool.live(index[id]) && pool.data(index[id]).view().id == id
}

/// Where the index finds an order, the views hold it, once and at the
/// place of its node; where the index has no entry, the views hold none.
pub proof fn lemma_pair_index<O: OrderInterface>(
    own: &Side<O>,
    other: &Side<O>,
    pool: &Pool<O>,
    index: Map<Seq<char>, usize>,
    id: Seq<char>,
)
    requires
        pair_wf(own, other, pool, index),
    ensures
        !index.contains_key(id) ==> !side_has(own.view_in(pool), id) && !side_has(
            other.view_in(pool),
            id,
        ),
        index.contains_key(id) && pool.data(index[id]).view().is_buy == own.spec_is_bid() ==> {
            &&& own.holds(index[id])
            &&& side_has(own.view_in(pool), id)
            &&& !side_has(other.view_in(pool), id)
            &&& locate(own.view_in(pool), id) == own.place(pool, index[id])
            &&& own.view_in(pool)[locate(own.view_in(pool), id).0].orders[locate(
                own.view_in(pool),
                id,
            ).1] == pool.data(index[id]).view()
        },
{
    // a place that shows `id` on either side belongs to the node the index names
    assert forall|side: &Side<O>, k: int, j: int|
        (side == own || side == other) && #[trigger] at(side.view_in(pool), k, j, id) implies {
        &&& index.contains_key(id)
        &&& side.level_holds(k, index[id])
        &&& side.levels()[k].handles()[j] == index[id]
    } by {
        let n = side.levels()[k].handles()[j];
        assert(side.level_holds(k, n));
        side.lemma_node(pool, k, n);
        assert(side.view_in(pool)[k].orders[j] == pool.data(n).view());
    }
    if index.contains_key(id) && pool.data(index[id]).view().is_buy == own.spec_is_bid() {
        let n = index[id];
        assert(pool.live(n));
        assert(own.holds(n));
        let k0 = choose|k: int| own.level_holds(k, n);
        own.lemma_node(pool, k0, n);
        let j0 = own.levels()[k0].handles().index_of(n);
        own.levels()[k0].lemma_wf(pool);
        assert(at(own.view_in(pool), k0, j0, id));
        let (k1, j1) = locate(own.view_in(pool), id);
        assert(at(own.view_in(pool), k1, j1, id));
        assert(own.level_holds(k1, n));
        assert(k1 == k0);
        assert(j1 == j0);
        if side_has(other.view_in(pool), id) {
            let (k2, j2) = locate(other.view_in(pool), id);
            assert(at(other.view_in(pool), k2, j2, id));
            assert(other.level_holds(k2, n));
            assert(other.holds(n));
        }
    }
}

/// The index has an entry for exactly the identifiers the views hold.
pub proof fn lemma_pair_contains<O: OrderInterface>(
    own: &Side<O>,
    other: &Side<O>,
    pool: &Pool<O>,
    index: Map<Seq<char>, usize>,
    id: Seq<char>,
)
    requires
        pair_wf(own, other, pool, index),
    ensures
        index.contains_key(id) <==> side_has(own.view_in(pool), id) || side_has(
            other.view_in(pool),
            id,
        ),
{
    lemma_pair_index(own, other, pool, index, id);
    lemma_pair_index(other, own, pool, index, id);
}

/// Applying a sequence of one primitive is applying the primitive.
pub proof fn lemma_apply_one(view: BookView, p: PrimitiveView)
    ensures
        view.apply_seq(seq![p]) == view.apply_spec(p),
        view.accepts_seq(seq![p]) == view.accepts(p),
{
    let ps = seq![p];
    assert(ps.drop_last().len() == 0);
    assert(view.apply_seq(ps.drop_last()) == view);
    assert(view.accepts_seq(ps.drop_last()));
}

/// Applying one sequence of primitives after another is applying the two
/// joined.
pub proof fn lemma_apply_concat(view: BookView, a: Seq<PrimitiveView>, b: Seq<PrimitiveView>)
    ensures
        view.apply_seq(a + b) == view.apply_seq(a).apply_seq(b),
    decreases b.len(),
{
    if b.len() == 0 {
        assert(a + b =~= a);
    } else {
        lemma_apply_concat(view, a, b.drop_last());
        assert((a + b).drop_last() =~= a + b.drop_last());
        assert((a + b).last() == b.last());
    }
}

/// Two sequences of primitives joined can be applied where the first can
/// and, after it, the second.
pub proof fn lemma_accepts_concat(view: BookView, a: Seq<PrimitiveView>, b: Seq<PrimitiveView>)
    ensures
        view.accepts_seq(a + b) == (view.accepts_seq(a) && view.apply_seq(a).accepts_seq(b)),
    decreases b.len(),
{
    if b.len() == 0 {
        assert(a + b =~= a);
    } else {
        lemma_accepts_concat(view, a, b.drop_last());
        lemma_apply_concat(view, a, b.drop_last());
        assert((a + b).drop_last() =~= a + b.drop_last());
        assert((a + b).last() == b.last());
    }
}

/// Where a sequence of primitives can be applied, so can each of its
/// beginnings, and the primitive that follows it.
pub proof fn lemma_accepts_prefix(view: BookView, ps: Seq<PrimitiveView>, k: int)
    requires
        view.accepts_seq(ps),
        0 <= k <= ps.len(),
    ensures
        view.accepts_seq(ps.take(k)),
        k < ps.len() ==> view.apply_seq(ps.take(k)).accepts(ps[k]) && view.apply_seq(ps.take(k + 1))
            == view.apply_seq(ps.take(k)).apply_spec(ps[k]),
    decreases ps.len() - k,
{
    if k == ps.len() {
        assert(ps.take(k) =~= ps);
    } else {
        lemma_accepts_prefix(view, ps, k + 1);
        assert(ps.take(k + 1).drop_last() =~= ps.take(k));
        assert(ps.take(k + 1).last() == ps[k]);
    }
}

/// The same for whole instructions.
pub proof fn lemma_accepts_all_prefix(view: BookView, instructions: Seq<InstructionView>, k: int)
    requires
        view.accepts_all(instructions),
        0 <= k <= instructions.len(),
    ensures
        view.accepts_all(instructions.take(k)),
        k < instructions.len() ==> view.apply_all(instructions.take(k)).accepts_seq(
            instructions[k].prims(),
        ) && view.apply_all(instructions.take(k + 1)) == view.apply_all(
            instructions.take(k),
        ).apply_seq(instructions[k].prims()),
    decreases instructions.len() - k,
{
    if k == instructions.len() {
        assert(instructions.take(k) =~= instructions);
    } else {
        lemma_accepts_all_prefix(view, instructions, k + 1);
        assert(instructions.take(k + 1).drop_last() =~= instructions.take(k));
        assert(instructions.take(k + 1).last() == instructions[k]);
    }
}

/// A side as its users may rely on it: the levels in strict precedence
/// order, none of them empty, each order at its level's price, on its own
/// side and with something left, and no identifier at two places.
pub open spec fn side_wf(levels: Seq<LevelView>, is_bid: bool) -> bool {
    &&& sorted(levels, is_bid)
    &&& forall|k: int| 0 <= k < levels.len() ==> (#[trigger] levels[k]).orders.len() > 0
    &&& forall|k: int, j: int|
        0 <= k < levels.len() && 0 <= j < levels[k].orders.len() ==> {
            &&& (#[trigger] levels[k].orders[j]).price == levels[k].price
            &&& levels[k].orders[j].is_buy == is_bid
            &&& levels[k].orders[j].remaining > 0
        }
    &&& forall|id: Seq<char>, k1: int, j1: int, k2: int, j2: int|
        #[trigger] at(levels, k1, j1, id) && #[trigger] at(levels, k2, j2, id) ==> k1 == k2 && j1
            == j2
}

/// A place that shows the identifier `id` belongs to the node that the
/// index names for `id`.
pub proof fn lemma_pair_place<O: OrderInterface>(
    own: &Side<O>,
    other: &Side<O>,
    pool: &Pool<O>,
    index: Map<Seq<char>, usize>,
    id: Seq<char>,
    k: int,
    j: int,
)
    requires
        pair_wf(own, other, pool, index),
        at(own.view_in(pool), k, j, id),
    ensures
        index.contains_key(id),
        own.level_holds(k, index[id]),
        own.levels()[k].handles()[j] == index[id],
        own.view_in(pool)[k].orders[j] == pool.data(index[id]).view(),
        pool.data(index[id]).view().is_buy == own.spec_is_bid(),
{
    let n = own.levels()[k].handles()[j];
    assert(own.level_holds(k, n));
    assert(own.holds(n));
    own.lemma_node(pool, k, n);
    assert(own.view_in(pool)[k].orders[j] == pool.data(n).view());
}

/// The view of a side of a well-formed pair is well-formed.
pub proof fn lemma_pair_side_wf<O: OrderInterface>(
    own: &Side<O>,
    other: &Side<O>,
    pool: &Pool<O>,
    index: Map<Seq<char>, usize>,
)
    requires
        pair_wf(own, other, pool, index),
    ensures
        side_wf(own.view_in(pool), own.spec_is_bid()),
        forall|id: Seq<char>|
            side_has(own.view_in(pool), id) ==> !side_has(other.view_in(pool), id),
        forall|k: int|
            0 <= k < own.levels().len() ==> (#[trigger] own.levels()[k]).spec_total()
                == sum_remaining(own.view_in(pool)[k].orders),
{
    let levels = own.view_in(pool);
    assert forall|k: int, j: int| 0 <= k < levels.len() && 0 <= j < levels[k].orders.len() implies {
        &&& (#[trigger] levels[k].orders[j]).price == levels[k].price
        &&& levels[k].orders[j].is_buy == own.spec_is_bid()
        &&& levels[k].orders[j].remaining > 0
    } by {
        let n = own.levels()[k].handles()[j];
        assert(own.level_holds(k, n));
        assert(own.holds(n));
        assert(own.levels()[k].orders(pool)[j].price == own.levels()[k].spec_price());
    }
    assert forall|id: Seq<char>, k1: int, j1: int, k2: int, j2: int|
        #[trigger] at(levels, k1, j1, id) && #[trigger] at(levels, k2, j2, id) implies k1 == k2
        && j1 == j2 by {
        lemma_pair_place(own, other, pool, index, id, k1, j1);
        lemma_pair_place(own, other, pool, index, id, k2, j2);
        own.lemma_node(pool, k1, index[id]);
        own.levels()[k1].lemma_wf(pool);
    }
    assert forall|id: Seq<char>| side_has(own.view_in(pool), id) implies !side_has(
        other.view_in(pool),
        id,
    ) by {
        lemma_pair_index(own, other, pool, index, id);
        lemma_pair_index(other, own, pool, index, id);
        lemma_pair_contains(own, other, pool, index, id);
    }
    assert forall|k: int| 0 <= k < own.levels().len() implies (#[trigger] own.levels()[k]).spec_total()
        == sum_remaining(own.view_in(pool)[k].orders) by {
        own.levels()[k].lemma_wf(pool);
    }
}

/// The book made of two sides over one pool.
pub open spec fn book_view<O: OrderInterface>(bids: &Side<O>, asks: &Side<O>, pool: &Pool<O>) -> BookView {
    BookView { bids: bids.view_in(pool), asks: asks.view_in(pool) }
}

/// A complete orderbook with bid and ask sides.
pub struct OrderBook<O: OrderInterface> {
    bids: Side<O>,
    asks: Side<O>,
    orders: StringHashMap<usize>,
    pool: Pool<O>,
}

impl<O: OrderInterface> View for OrderBook<O> {
    type V = BookView;

    open spec fn view(&self) -> BookView {
        book_view(&self.bids_side(), &self.asks_side(), &self.spec_pool())
    }
}

impl<O: OrderInterface> Default for OrderBook<O> {
    fn default() -> (r: Self)
        ensures
            r.wf(),
            r@.bids.len() == 0,
            r@.asks.len() == 0,
    {
        let r = Self {
            bids: Side::new(true),
            asks: Side::new(false),
            orders: StringHashMap::new(),
            pool: Pool::new(),
        };
        proof {
            assert(r.bids.wf(&r.pool));
            assert(r.asks.wf(&r.pool));
            assert forall|n: usize| !(#[trigger] r.bids.holds(n)) by {}
            assert forall|n: usize| !(#[trigger] r.asks.holds(n)) by {}
        }
        r
    }
}

impl<O: OrderInterface> OrderBook<O> {
    /// The bid side.
    pub closed spec fn bids_side(&self) -> Side<O> {
        self.bids
    }

    /// The ask side.
    pub closed spec fn asks_side(&self) -> Side<O> {
        self.asks
    }

    /// The pool that holds the orders of both sides.
    pub closed spec fn spec_pool(&self) -> Pool<O> {
        self.pool
    }

    /// The index from order identifier to node.
    pub closed spec fn index(&self) -> Map<Seq<char>, usize> {
        self.orders@
    }

    /// The sides, the pool and the index fit together, the bid side being
    /// the one that ranks higher prices first.
    pub open spec fn wf(&self) -> bool {
        &&& self.bids_side().spec_is_bid()
        &&& pair_wf(&self.bids_side(), &self.asks_side(), &self.spec_pool(), self.index())
    }

    /// Between operations the book holds what its users may rely on: the
    /// view is well-formed, the index has an entry for exactly the
    /// identifiers that rest, and each level's cached total is the sum of
    /// what remains of its orders.
    pub proof fn lemma_invariants(&self)
        requires
            self.wf(),
        ensures
            self@.wf(),
            self.index().dom() == self@.ids(),
            forall|k: int|
                0 <= k < self.bids_side().levels().len() ==> (
                #[trigger] self.bids_side().levels()[k]).spec_total() == sum_remaining(
                    self@.bids[k].orders,
                ),
            forall|k: int|
                0 <= k < self.asks_side().levels().len() ==> (
                #[trigger] self.asks_side().levels()[k]).spec_total() == sum_remaining(
                    self@.asks[k].orders,
                ),
    {
        lemma_pair_side_wf(&self.bids, &self.asks, &self.pool, self.orders@);
        lemma_pair_side_wf(&self.asks, &self.bids, &self.pool, self.orders@);
        assert(self.orders@.dom() =~= self@.ids()) by {
            assert forall|id: Seq<char>| self.orders@.dom().contains(id) <==> self@.ids().contains(
                id,
            ) by {
                lemma_pair_contains(&self.bids, &self.asks, &self.pool, self.orders@, id);
            }
        }
    }

    /// Makes a resting order of `order` on its own side `own`.
    fn insert_on(
        own: &mut Side<O>,
        other: &Side<O>,
        pool: &mut Pool<O>,
        orders: &mut StringHashMap<usize>,
        order: O,
    )
        requires
            pair_wf(old(own), other, old(pool), old(orders)@),
            order.view().is_buy == old(own).spec_is_bid(),
            order.view().remaining > 0,
            !old(orders)@.contains_key(order.view().id),
            level_total(old(own).view_in(old(pool)), old(own).spec_is_bid(), order.view().price)
                + order.view().remaining <= u64::MAX,
        ensures
            pair_wf(final(own), other, final(pool), final(orders)@),
            final(own).spec_is_bid() == old(own).spec_is_bid(),
            final(own).view_in(final(pool)) == side_insert(
                old(own).view_in(old(pool)),
                old(own).spec_is_bid(),
                order.view(),
            ),
            other.view_in(final(pool)) == other.view_in(old(pool)),
    {
        let ghost pool0 = *pool;
        let ghost own0 = *own;
        let ghost index0 = orders@;
        let id = order.id().clone();
        let node = own.insert_order(order, pool);
        orders.insert(id, node);
        proof {
            other.lemma_frame(&pool0, pool, own0.nodes());
            assert forall|n: usize| #[trigger] pool.live(n) implies {
                &&& pool.data(n).view().remaining > 0
                &&& if pool.data(n).view().is_buy == own.spec_is_bid() {
                    own.holds(n)
                } else {
                    other.holds(n)
                }
                &&& orders@.contains_key(pool.data(n).view().id)
                &&& orders@[pool.data(n).view().id] == n
            } by {
                if n != node {
                    assert(pool0.live(n));
                    assert(pool.data(n) == pool0.data(n));
                }
            }
            assert forall|n: usize| #[trigger] own.holds(n) implies pool.live(n) && pool.data(
                n,
            ).view().is_buy == own.spec_is_bid() by {
                if n != node {
                    assert(own0.holds(n));
                    assert(pool0.live(n));
                    assert(pool.data(n) == pool0.data(n));
                }
            }
            assert forall|n: usize| #[trigger] other.holds(n) implies pool.live(n) && pool.data(
                n,
            ).view().is_buy == other.spec_is_bid() by {
                assert(pool0.live(n));
                assert(pool.data(n) == pool0.data(n));
            }
            assert forall|key: Seq<char>| #[trigger] orders@.contains_key(key) implies pool.live(
                orders@[key],
            ) && pool.data(orders@[key]).view().id == key by {
                if key != order.view().id {
                    assert(index0.contains_key(key));
                    assert(pool0.live(index0[key]));
                    assert(pool.data(index0[key]) == pool0.data(index0[key]));
                }
            }
        }
    }

    /// Takes `quantity` off the resting order `id`, whose node `node` lies
    /// on the side `own`; says whether the order left the book.
    fn fill_on(
        own: &mut Side<O>,
        other: &Side<O>,
        pool: &mut Pool<O>,
        orders: &mut StringHashMap<usize>,
        id: &str,
        node: usize,
        quantity: u64,
    ) -> (removed: bool)
        requires
            pair_wf(old(own), other, old(pool), old(orders)@),
            old(orders)@.contains_key(id@),
            old(orders)@[id@] == node,
            old(pool).data(node).view().is_buy == old(own).spec_is_bid(),
            quantity <= old(pool).data(node).view().remaining,
        ensures
            pair_wf(final(own), other, final(pool), final(orders)@),
            final(own).spec_is_bid() == old(own).spec_is_bid(),
            removed == (quantity == old(pool).data(node).view().remaining),
            final(own).view_in(final(pool)) == side_fill_at(
                old(own).view_in(old(pool)),
                locate(old(own).view_in(old(pool)), id@).0,
                locate(old(own).view_in(old(pool)), id@).1,
                quantity,
            ),
            other.view_in(final(pool)) == other.view_in(old(pool)),
    {
        let ghost pool0 = *pool;
        let ghost own0 = *own;
        let ghost index0 = orders@;
        proof {
            lemma_pair_index(&own0, other, &pool0, index0, id@);
        }
        let removed = own.fill_order(node, quantity, pool);
        if removed {
            orders.remove(id);
        }
        proof {
            other.lemma_frame(&pool0, pool, own0.nodes());
            assert forall|n: usize| #[trigger] pool.live(n) implies {
                &&& pool.data(n).view().remaining > 0
                &&& if pool.data(n).view().is_buy == own.spec_is_bid() {
                    own.holds(n)
                } else {
                    other.holds(n)
                }
                &&& orders@.contains_key(pool.data(n).view().id)
                &&& orders@[pool.data(n).view().id] == n
            } by {
                assert(pool0.live(n));
                if n != node {
                    assert(pool.data(n) == pool0.data(n));
                }
            }
            assert forall|n: usize| #[trigger] own.holds(n) implies pool.live(n) && pool.data(
                n,
            ).view().is_buy == own.spec_is_bid() by {
                assert(own0.holds(n));
                assert(pool0.live(n));
                if n != node {
                    assert(pool.data(n) == pool0.data(n));
                }
            }
            assert forall|n: usize| #[trigger] other.holds(n) implies pool.live(n) && pool.data(
                n,
            ).view().is_buy == other.spec_is_bid() by {
                assert(pool0.live(n));
                assert(pool.data(n) == pool0.data(n));
            }
            assert forall|key: Seq<char>| #[trigger] orders@.contains_key(key) implies pool.live(
                orders@[key],
            ) && pool.data(orders@[key]).view().id == key by {
                assert(index0.contains_key(key));
                assert(pool0.live(index0[key]));
                if index0[key] != node {
                    assert(pool.data(index0[key]) == pool0.data(index0[key]));
                }
            }
        }
        removed
    }

    /// Takes the resting order `id`, whose node `node` lies on the side
    /// `own`, off the book.
    fn remove_on(
        own: &mut Side<O>,
        other: &Side<O>,
        pool: &mut Pool<O>,
        orders: &mut StringHashMap<usize>,
        id: &str,
        node: usize,
    )
        requires
            pair_wf(old(own), other, old(pool), old(orders)@),
            old(orders)@.contains_key(id@),
            old(orders)@[id@] == node,
            old(pool).data(node).view().is_buy == old(own).spec_is_bid(),
        ensures
            pair_wf(final(own), other, final(pool), final(orders)@),
            final(own).spec_is_bid() == old(own).spec_is_bid(),
            final(own).view_in(final(pool)) == side_remove_at(
                old(own).view_in(old(pool)),
                locate(old(own).view_in(old(pool)), id@).0,
                locate(old(own).view_in(old(pool)), id@).1,
            ),
            other.view_in(final(pool)) == other.view_in(old(pool)),
    {
        let ghost pool0 = *pool;
        let ghost own0 = *own;
        let ghost index0 = orders@;
        proof {
            lemma_pair_index(&own0, other, &pool0, index0, id@);
        }
        own.remove_order(node, pool);
        orders.remove(id);
        proof {
            other.lemma_frame(&pool0, pool, own0.nodes());
            assert forall|n: usize| #[trigger] pool.live(n) implies {
                &&& pool.data(n).view().remaining > 0
                &&& if pool.data(n).view().is_buy == own.spec_is_bid() {
                    own.holds(n)
                } else {
                    other.holds(n)
                }
                &&& orders@.contains_key(pool.data(n).view().id)
                &&& orders@[pool.data(n).view().id] == n
            } by {
                assert(pool0.live(n));
                assert(pool.data(n) == pool0.data(n));
            }
            assert forall|n: usize| #[trigger] own.holds(n) implies pool.live(n) && pool.data(
                n,
            ).view().is_buy == own.spec_is_bid() by {
                assert(own0.holds(n));
                assert(pool0.live(n));
                assert(pool.data(n) == pool0.data(n));
            }
            assert forall|n: usize| #[trigger] other.holds(n) implies pool.live(n) && pool.data(
                n,
            ).view().is_buy == other.spec_is_bid() by {
                assert(pool0.live(n));
                assert(pool.data(n) == pool0.data(n));
            }
            assert forall|key: Seq<char>| #[trigger] orders@.contains_key(key) implies pool.live(
                orders@[key],
            ) && pool.data(orders@[key]).view().id == key by {
                assert(index0.contains_key(key));
                assert(pool0.live(index0[key]));
                assert(pool.data(index0[key]) == pool0.data(index0[key]));
            }
        }
    }

    /// Applies one primitive to the parts of a book.
    fn apply_primitive(
        bids: &mut Side<O>,
        asks: &mut Side<O>,
        orders: &mut StringHashMap<usize>,
        pool: &mut Pool<O>,
        p: InstructionPrimitive<O>,
    ) -> (r: OutputPrimitive)
        requires
            old(bids).spec_is_bid(),
            pair_wf(old(bids), old(asks), old(pool), old(orders)@),
            book_view(old(bids), old(asks), old(pool)).accepts(p@),
        ensures
            final(bids).spec_is_bid(),
            pair_wf(final(bids), final(asks), final(pool), final(orders)@),
            book_view(final(bids), final(asks), final(pool)) == book_view(
                old(bids),
                old(asks),
                old(pool),
            ).apply_spec(p@),
            r == book_view(old(bids), old(asks), old(pool)).output_spec(p@),
    {
        let ghost view0 = book_view(bids, asks, pool);
        match p {
            InstructionPrimitive::Fill(order_id, _owner, _price, quantity, is_taker) => {
                if is_taker {
                    return OutputPrimitive::NoOp;
                }
                proof {
                    lemma_pair_contains(bids, asks, pool, orders@, order_id@);
                    lemma_pair_index(bids, asks, pool, orders@, order_id@);
                    lemma_pair_index(asks, bids, pool, orders@, order_id@);
                }
                let id = order_id.as_str();
                let found = orders.get(id);
                let node = *found.unwrap();
                let is_buy = pool.get(node).is_buy();
                let removed = if is_buy {
                    Self::fill_on(bids, asks, pool, orders, id, node, quantity)
                } else {
                    Self::fill_on(asks, bids, pool, orders, id, node, quantity)
                };
                if removed {
                    OutputPrimitive::Filled
                } else {
                    OutputPrimitive::Partial
                }
            },
            InstructionPrimitive::Insert(order, remaining) => {
                if remaining > 0 {
                    let mut order = order;
                    let ghost before = order.view();
                    let filled = order.remaining() - remaining;
                    if filled > 0 {
                        order.fill(filled);
                    }
                    proof {
                        assert(order.view() == before.filled((before.remaining - remaining) as u64));
                        lemma_pair_contains(bids, asks, pool, orders@, before.id);
                    }
                    let is_buy = order.is_buy();
                    if is_buy {
                        Self::insert_on(bids, asks, pool, orders, order);
                    } else {
                        Self::insert_on(asks, bids, pool, orders, order);
                    }
                }
                OutputPrimitive::Inserted(remaining)
            },
            InstructionPrimitive::Delete(order_id, _msg) => {
                proof {
                    lemma_pair_contains(bids, asks, pool, orders@, order_id@);
                    lemma_pair_index(bids, asks, pool, orders@, order_id@);
                    lemma_pair_index(asks, bids, pool, orders@, order_id@);
                }
                let id = order_id.as_str();
                let found = orders.get(id);
                if found.is_some() {
                    let node = *found.unwrap();
                    let is_buy = pool.get(node).is_buy();
                    if is_buy {
                        Self::remove_on(bids, asks, pool, orders, id, node);
                    } else {
                        Self::remove_on(asks, bids, pool, orders, id, node);
                    }
                }
                OutputPrimitive::Deleted
            },
            InstructionPrimitive::NoOp(_id, _msg) => OutputPrimitive::NoOp,
        }
    }

    /// Applies one primitive.
    pub fn apply_single(&mut self, p: InstructionPrimitive<O>) -> (r: OutputPrimitive)
        requires
            old(self).wf(),
            old(self)@.accepts(p@),
        ensures
            final(self).wf(),
            final(self)@ == old(self)@.apply_spec(p@),
            r == old(self)@.output_spec(p@),
    {
        Self::apply_primitive(&mut self.bids, &mut self.asks, &mut self.orders, &mut self.pool, p)
    }
    /// Applies the primitives of one instruction in order.
    pub fn apply_multi(&mut self, primitives: Vec<InstructionPrimitive<O>>) -> (r: Vec<
        OutputPrimitive,
    >)
        requires
            old(self).wf(),
            old(self)@.accepts_seq(prim_views(primitives@)),
        ensures
            final(self).wf(),
            final(self)@ == old(self)@.apply_seq(prim_views(primitives@)),
            r@ == old(self)@.outputs_seq(prim_views(primitives@)),
    {
        let ghost view0 = self@;
        let ghost ps = prim_views(primitives@);
        let mut out: Vec<OutputPrimitive> = Vec::with_capacity(primitives.len());
        proof {
            assert(ps.take(0) =~= Seq::empty());
        }
        for p in it: primitives
            invariant
                self.wf(),
                ps == prim_views(it.seq()),
                view0.accepts_seq(ps),
                self@ == view0.apply_seq(ps.take(it.index() as int)),
                out@.len() == it.index(),
                forall|k: int|
                    0 <= k < out@.len() ==> #[trigger] out@[k] == view0.apply_seq(
                        ps.take(k),
                    ).output_spec(ps[k]),
        {
            proof {
                lemma_accepts_prefix(view0, ps, it.index() as int);
            }
            let o = self.apply_single(p);
            out.push(o);
        }
        proof {
            assert(ps.take(ps.len() as int) =~= ps);
            assert(out@ =~= view0.outputs_seq(ps));
        }
        out
    }

    /// Applies instructions to the orderbook, mutating state.
    /// Returns one `Output` per instruction.
    pub fn apply(&mut self, instructions: Vec<Instruction<O>>) -> (r: Vec<Output>)
        requires
            old(self).wf(),
            old(self)@.accepts_all(instruction_views(instructions@)),
        ensures
            final(self).wf(),
            final(self)@ == old(self)@.apply_all(instruction_views(instructions@)),
            r@.len() == instructions@.len(),
            forall|k: int|
                0 <= k < r@.len() ==> (#[trigger] r@[k])@ == old(self)@.apply_all(
                    instruction_views(instructions@).take(k),
                ).output_of(instructions@[k]@),
    {
        let ghost view0 = self@;
        let ghost is = instruction_views(instructions@);
        let mut outputs: Vec<Output> = Vec::with_capacity(instructions.len());
        proof {
            assert(is.take(0) =~= Seq::empty());
        }
        for instruction in it: instructions
            invariant
                self.wf(),
                is == instruction_views(it.seq()),
                view0.accepts_all(is),
                self@ == view0.apply_all(is.take(it.index() as int)),
                outputs@.len() == it.index(),
                forall|k: int|
                    0 <= k < outputs@.len() ==> (#[trigger] outputs@[k])@ == view0.apply_all(
                        is.take(k),
                    ).output_of(is[k]),
        {
            proof {
                lemma_accepts_all_prefix(view0, is, it.index() as int);
            }
            match instruction {
                Instruction::Single(p) => {
                    proof {
                        let ps = seq![p@];
                        assert(ps.drop_last() =~= Seq::empty());
                        assert(self@.accepts_seq(ps.drop_last()));
                        assert(self@.apply_seq(ps.drop_last()) == self@);
                    }
                    let o = self.apply_single(p);
                    outputs.push(Output::Single(o));
                },
                Instruction::Multi(primitives) => {
                    let os = self.apply_multi(primitives);
                    outputs.push(Output::Multi(os));
                },
            }
        }
        proof {
            assert(is.take(is.len() as int) =~= is);
        }
        outputs
    }

    /// Applies a single insert instruction.
    pub fn apply_insert(&mut self, order: O, remaining: u64) -> (r: Output)
        requires
            old(self).wf(),
            old(self)@.accepts(PrimitiveView::Insert(order.view(), remaining)),
        ensures
            final(self).wf(),
            final(self)@ == old(self)@.apply_spec(PrimitiveView::Insert(order.view(), remaining)),
            r@ == OutputView::Single(OutputPrimitive::Inserted(remaining)),
    {
        Output::Single(self.apply_single(InstructionPrimitive::Insert(order, remaining)))
    }

    /// Applies a single delete instruction.
    pub fn apply_delete(&mut self, order_id: String) -> (r: Output)
        requires
            old(self).wf(),
        ensures
            final(self).wf(),
            final(self)@ == old(self)@.remove(order_id@),
            r@ == OutputView::Single(OutputPrimitive::Deleted),
    {
        Output::Single(self.apply_single(InstructionPrimitive::Delete(order_id, Msg::UserCancelled)))
    }

    /// The bid levels, highest price first.
    pub fn bids(&self) -> (r: LevelIter<'_, O>)
        ensures
            vstd::std_specs::iter::IteratorSpec::remaining(&r) == self.bids_side().levels().as_ref(),
    {
        self.bids.iter()
    }

    /// The ask levels, lowest price first.
    pub fn asks(&self) -> (r: LevelIter<'_, O>)
        ensures
            vstd::std_specs::iter::IteratorSpec::remaining(&r) == self.asks_side().levels().as_ref(),
    {
        self.asks.iter()
    }

    /// Returns the best (highest) bid as (price, total_quantity), if any.
    pub fn best_bid(&self) -> (r: Option<(u64, u64)>)
        requires
            self.wf(),
        ensures
            r == side_best(self@.bids),
    {
        self.bids.best()
    }

    /// Returns the best (lowest) ask as (price, total_quantity), if any.
    pub fn best_ask(&self) -> (r: Option<(u64, u64)>)
        requires
            self.wf(),
        ensures
            r == side_best(self@.asks),
    {
        self.asks.best()
    }

    /// Returns the top `n` bid levels as (price, total_quantity), highest price first.
    pub fn top_bids(&self, n: usize) -> (r: Vec<(u64, u64)>)
        requires
            self.wf(),
        ensures
            r@ == side_top(self@.bids, n as int),
    {
        self.bids.top(n)
    }

    /// Returns the top `n` ask levels as (price, total_quantity), lowest price first.
    pub fn top_asks(&self, n: usize) -> (r: Vec<(u64, u64)>)
        requires
            self.wf(),
        ensures
            r@ == side_top(self@.asks, n as int),
    {
        self.asks.top(n)
    }

    /// Returns the number of price levels on the bid side.
    pub fn bid_depth(&self) -> (r: usize)
        ensures
            r == self@.bids.len(),
    {
        self.bids.height()
    }

    /// Returns the number of price levels on the ask side.
    pub fn ask_depth(&self) -> (r: usize)
        ensures
            r == self@.asks.len(),
    {
        self.asks.height()
    }

    /// Returns the total number of orders in the book.
    pub fn len(&self) -> (r: usize)
        requires
            self.wf(),
        ensures
            r == self@.ids().len(),
    {
        proof {
            assert(self.orders@.dom() =~= self@.ids()) by {
                assert forall|id: Seq<char>| self.orders@.dom().contains(id) <==> self@.ids().contains(
                    id,
                ) by {
                    lemma_pair_contains(&self.bids, &self.asks, &self.pool, self.orders@, id);
                }
            }
        }
        self.orders.len()
    }

    /// Returns true if the orderbook has no orders.
    pub fn is_empty(&self) -> (r: bool)
        requires
            self.wf(),
        ensures
            r == (self@.bids.len() == 0 && self@.asks.len() == 0),
    {
        proof {
            if self.bids_side().levels().len() > 0 {
                let n = self.bids_side().levels()[0].handles()[0];
                assert(self.bids_side().level_holds(0, n));
                assert(self.bids_side().holds(n));
                assert(self.pool.live(n));
                assert(self.orders@.dom().contains(self.pool.data(n).view().id));
            }
            if self.asks_side().levels().len() > 0 {
                let n = self.asks_side().levels()[0].handles()[0];
                assert(self.asks_side().level_holds(0, n));
                assert(self.asks_side().holds(n));
                assert(self.pool.live(n));
                assert(self.orders@.dom().contains(self.pool.data(n).view().id));
            }
            if exists|id: Seq<char>| self.orders@.dom().contains(id) {
                let id = choose|id: Seq<char>| self.orders@.dom().contains(id);
                assert(self.orders@.contains_key(id));
                let n = self.orders@[id];
                assert(self.pool.live(n));
                if self.bids_side().holds(n) {
                    let k = choose|k: int| self.bids_side().level_holds(k, n);
                    assert(self.bids_side().level_holds(k, n));
                } else {
                    let k = choose|k: int| self.asks_side().level_holds(k, n);
                    assert(self.asks_side().level_holds(k, n));
                }
            } else {
                assert(self.orders@.dom() =~= Set::empty());
            }
        }
        self.orders.is_empty()
    }

    /// An order with the identifier `order_id` rests on the book.
    pub fn contains(&self, order_id: &str) -> (r: bool)
        requires
            self.wf(),
        ensures
            r == self@.contains(order_id@),
    {
        proof {
            lemma_pair_contains(&self.bids, &self.asks, &self.pool, self.orders@, order_id@);
        }
        self.orders.contains_key(order_id)
    }

    /// Returns a reference to the order with the given ID, if it exists.
    pub fn order(&self, order_id: &String) -> (r: Option<&O>)
        requires
            self.wf(),
        ensures
            r is Some == self@.contains(order_id@),
            r is Some ==> r->0.view() == self@.order(order_id@),
            r is Some ==> self.index().contains_key(order_id@) && *r->0 == self.spec_pool().data(
                self.index()[order_id@],
            ),
    {
        proof {
            lemma_pair_contains(&self.bids, &self.asks, &self.pool, self.orders@, order_id@);
            lemma_pair_index(&self.bids, &self.asks, &self.pool, self.orders@, order_id@);
            lemma_pair_index(&self.asks, &self.bids, &self.pool, self.orders@, order_id@);
        }
        match self.orders.get(order_id.as_str()) {
            Some(node) => Some(self.pool.get(*node)),
            None => None,
        }
    }

    /// The side an incoming order is matched against: the asks for a buy,
    /// the bids for a sell.
    pub fn opposite(&self, is_buy: bool) -> (r: &Side<O>)
        ensures
            *r == if is_buy {
                self.asks_side()
            } else {
                self.bids_side()
            },
    {
        if is_buy {
            &self.asks
        } else {
            &self.bids
        }
    }

    /// The pool that holds the orders of both sides.
    pub fn pool(&self) -> (r: &Pool<O>)
        ensures
            *r == self.spec_pool(),
    {
        &self.pool
    }
}

} // verus!