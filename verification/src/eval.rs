//! Evaluation: computing instructions from operations without touching
//! the book. A later operation of the same batch sees what the earlier
//! ones did to resting orders through the evaluator's scratch index.

use crate::level::{Level, LevelView};
use crate::list::{Pool, NIL};
use crate::ob::{BookView, OrderBook};
use crate::order::{OrderInterface, OrderView, STP, TIF};
use std::marker::PhantomData;
use vstd::hash_map::StringHashMap;
use vstd::prelude::*;

verus! {

/// An operation to apply to the orderbook.
pub enum Op<O: OrderInterface> {
    Insert(O),
    Delete(String),
}

/// Reason codes carried by instructions.
#[derive(Debug, PartialEq, Eq)]
pub enum Msg {
    /// Order not found on the book.
    OrderNotFound,
    /// Order already exists on the book.
    OrderAlreadyExists,
    /// Order was cancelled by its user.
    UserCancelled,
    /// Post-only order would have crossed the spread (would fill).
    PostOnlyFilled,
    /// FOK order could not be fully filled.
    FOKNotFilled,
    /// IOC order had no match (nothing to do).
    IOCNoFill,
    /// IOC order had leftover quantity (remaining > 0).
    IOCLeftover,
    /// STP CancelTaker: incoming order would match same-owner maker(s), taker cancelled.
    StpCancelTaker,
    /// STP CancelBoth: incoming order would match same-owner maker(s), both taker and maker(s) cancelled.
    StpCancelBoth,
    /// STP CancelMaker: resting maker(s) cancelled (same-owner); taker may still fill against others.
    StpCancelMaker,
}

/// One step of an instruction: what to do to the book, or what to note.
#[derive(Debug, PartialEq, Eq)]
pub enum InstructionPrimitive<O: OrderInterface> {
    /// (Order, Remaining Quantity)
    Insert(O, u64),
    /// (Order ID, Reason)
    Delete(String, Msg),
    /// (Order ID, Owner ID, Price, Quantity, IsTaker)
    Fill(String, String, u64, u64, bool),
    /// (Order ID, Reason)
    NoOp(String, Msg),
}

/// What one operation comes to: one primitive, or several in order.
#[derive(Debug, PartialEq, Eq)]
pub enum Instruction<O: OrderInterface> {
    Single(InstructionPrimitive<O>),
    Multi(Vec<InstructionPrimitive<O>>),
}

/// An instruction primitive with its identifiers and its order as plain values.
pub enum PrimitiveView {
    Insert(OrderView, u64),
    Delete(Seq<char>, Msg),
    Fill(Seq<char>, Seq<char>, u64, u64, bool),
    NoOp(Seq<char>, Msg),
}

impl<O: OrderInterface> View for InstructionPrimitive<O> {
    type V = PrimitiveView;

    open spec fn view(&self) -> PrimitiveView {
        match *self {
            InstructionPrimitive::Insert(order, remaining) => PrimitiveView::Insert(
                order.view(),
                remaining,
            ),
            InstructionPrimitive::Delete(id, msg) => PrimitiveView::Delete(id@, msg),
            InstructionPrimitive::Fill(id, owner, price, quantity, is_taker) => PrimitiveView::Fill(
                id@,
                owner@,
                price,
                quantity,
                is_taker,
            ),
            InstructionPrimitive::NoOp(id, msg) => PrimitiveView::NoOp(id@, msg),
        }
    }
}

/// The primitives `ps` as plain values.
pub open spec fn prim_views<O: OrderInterface>(ps: Seq<InstructionPrimitive<O>>) -> Seq<
    PrimitiveView,
> {
    Seq::new(ps.len(), |k: int| ps[k]@)
}

/// The instructions `instructions` as plain values.
pub open spec fn instruction_views<O: OrderInterface>(instructions: Seq<Instruction<O>>) -> Seq<
    InstructionView,
> {
    Seq::new(instructions.len(), |k: int| instructions[k]@)
}

/// An instruction with its primitives as plain values.
pub enum InstructionView {
    Single(PrimitiveView),
    Multi(Seq<PrimitiveView>),
}

impl InstructionView {
    /// The primitives of the instruction, in order.
    pub open spec fn prims(self) -> Seq<PrimitiveView> {
        match self {
            InstructionView::Single(p) => seq![p],
            InstructionView::Multi(ps) => ps,
        }
    }
}

impl<O: OrderInterface> View for Instruction<O> {
    type V = InstructionView;

    open spec fn view(&self) -> InstructionView {
        match *self {
            Instruction::Single(p) => InstructionView::Single(p@),
            Instruction::Multi(ps) => InstructionView::Multi(prim_views(ps@)),
        }
    }
}

/// An operation with its order or identifier as plain values.
pub enum OpView {
    Insert(OrderView),
    Delete(Seq<char>),
}

impl<O: OrderInterface> View for Op<O> {
    type V = OpView;

    open spec fn view(&self) -> OpView {
        match *self {
            Op::Insert(order) => OpView::Insert(order.view()),
            Op::Delete(id) => OpView::Delete(id@),
        }
    }
}

/// The operations `ops` as plain values.
pub open spec fn op_views<O: OrderInterface>(ops: Seq<Op<O>>) -> Seq<OpView> {
    Seq::new(ops.len(), |k: int| ops[k]@)
}

/// One match of the taker against a maker: what the maker had, and what
/// was taken of it at which price.
pub struct FillView {
    pub id: Seq<char>,
    pub owner: Seq<char>,
    pub price: u64,
    pub quantity: u64,
    pub available: u64,
}

/// Why a walk along the opposite side came to an early end.
pub enum Halt {
    /// It did not.
    Running,
    /// A post-only taker met a maker it would have taken from.
    PostOnly,
    /// The taker met a maker of its own owner and gives way.
    CancelTaker,
    /// The taker met this maker of its own owner, and both go.
    CancelBoth(Seq<char>),
}

/// The state of a taker's walk along the opposite side.
pub struct Walk {
    /// What is left of the taker.
    pub remaining: u64,
    /// The matches so far, in the order taken.
    pub fills: Seq<FillView>,
    /// The makers of the taker's own owner to be cancelled, in the order met.
    pub cancels: Seq<Seq<char>>,
    pub halt: Halt,
}

impl Walk {
    /// The walk of a taker that has met no maker yet.
    pub open spec fn start(remaining: u64) -> Walk {
        Walk { remaining, fills: Seq::empty(), cancels: Seq::empty(), halt: Halt::Running }
    }

    /// Nothing further can happen on this walk.
    pub open spec fn stopped(self) -> bool {
        !(self.halt is Running) || self.remaining == 0
    }
}

/// What is left of the resting order `maker` for this batch: what the
/// scratch index says where it has an entry, else what the book says.
pub open spec fn available(scratch: Map<Seq<char>, u64>, maker: OrderView) -> u64 {
    if scratch.contains_key(maker.id) {
        scratch[maker.id]
    } else {
        maker.remaining
    }
}

/// A level at `price` is too dear for a buying taker, or too cheap for a
/// selling one. Equal prices match.
pub open spec fn out_of_reach(taker: OrderView, price: u64) -> bool {
    if taker.is_buy {
        price > taker.price
    } else {
        price < taker.price
    }
}

/// The walk after the taker has met `maker`, resting at `price`.
pub open spec fn meet(
    w: Walk,
    taker: OrderView,
    scratch: Map<Seq<char>, u64>,
    price: u64,
    maker: OrderView,
) -> Walk {
    let avail = available(scratch, maker);
    if w.stopped() || avail == 0 {
        w
    } else if taker.post_only {
        Walk { halt: Halt::PostOnly, ..w }
    } else if taker.owner == maker.owner && taker.stp is CancelTaker {
        Walk { halt: Halt::CancelTaker, ..w }
    } else if taker.owner == maker.owner && taker.stp is CancelMaker {
        Walk { cancels: w.cancels.push(maker.id), ..w }
    } else if taker.owner == maker.owner && taker.stp is CancelBoth {
        Walk { halt: Halt::CancelBoth(maker.id), ..w }
    } else {
        let quantity = if w.remaining < avail {
            w.remaining
        } else {
            avail
        };
        Walk {
            remaining: (w.remaining - quantity) as u64,
            fills: w.fills.push(
                FillView { id: maker.id, owner: maker.owner, price, quantity, available: avail },
            ),
            ..w
        }
    }
}

/// The walk after the taker has met the orders of one level from place
/// `from` on, oldest first.
pub open spec fn walk_orders(
    w: Walk,
    taker: OrderView,
    scratch: Map<Seq<char>, u64>,
    price: u64,
    orders: Seq<OrderView>,
    from: int,
) -> Walk
    decreases orders.len() - from,
{
    if from < 0 || from >= orders.len() {
        w
    } else {
        walk_orders(meet(w, taker, scratch, price, orders[from]), taker, scratch, price, orders, from + 1)
    }
}

/// The walk after the taker has gone through the levels from place
/// `from` on, best first, up to the first level out of its reach.
pub open spec fn walk_levels(
    w: Walk,
    taker: OrderView,
    scratch: Map<Seq<char>, u64>,
    levels: Seq<LevelView>,
    from: int,
) -> Walk
    decreases levels.len() - from,
{
    if from < 0 || from >= levels.len() || out_of_reach(taker, levels[from].price) {
        w
    } else {
        walk_levels(
            walk_orders(w, taker, scratch, levels[from].price, levels[from].orders, 0),
            taker,
            scratch,
            levels,
            from + 1,
        )
    }
}

/// The sum of the quantities of `fills`.
pub open spec fn total_quantity(fills: Seq<FillView>) -> int
    decreases fills.len(),
{
    if fills.len() == 0 {
        0
    } else {
        total_quantity(fills.drop_last()) + fills.last().quantity
    }
}

/// The sum over `fills` of price times quantity.
pub open spec fn weighted_sum(fills: Seq<FillView>) -> int
    decreases fills.len(),
{
    if fills.len() == 0 {
        0
    } else {
        weighted_sum(fills.drop_last()) + fills.last().price * fills.last().quantity
    }
}

/// The volume-weighted average price of `fills`, rounded down.
pub open spec fn vwap(fills: Seq<FillView>) -> int {
    weighted_sum(fills) / total_quantity(fills)
}

/// The scratch index with each of `cancels` marked as gone.
pub open spec fn commit_cancels(scratch: Map<Seq<char>, u64>, cancels: Seq<Seq<char>>) -> Map<
    Seq<char>,
    u64,
>
    decreases cancels.len(),
{
    if cancels.len() == 0 {
        scratch
    } else {
        commit_cancels(scratch, cancels.drop_last()).insert(cancels.last(), 0)
    }
}

/// The scratch index with each maker of `fills` set to what the fill left of it.
pub open spec fn commit_fills(scratch: Map<Seq<char>, u64>, fills: Seq<FillView>) -> Map<
    Seq<char>,
    u64,
>
    decreases fills.len(),
{
    if fills.len() == 0 {
        scratch
    } else {
        commit_fills(scratch, fills.drop_last()).insert(
            fills.last().id,
            (fills.last().available - fills.last().quantity) as u64,
        )
    }
}

/// The taker's own record of the trade, where anything was filled.
pub open spec fn taker_fill(taker: OrderView, fills: Seq<FillView>) -> Seq<PrimitiveView> {
    if total_quantity(fills) > 0 {
        seq![
            PrimitiveView::Fill(
                taker.id,
                taker.owner,
                vwap(fills) as u64,
                total_quantity(fills) as u64,
                true,
            ),
        ]
    } else {
        Seq::empty()
    }
}

/// One fill per maker, in the order taken.
pub open spec fn maker_fills(fills: Seq<FillView>) -> Seq<PrimitiveView> {
    Seq::new(
        fills.len(),
        |k: int|
            PrimitiveView::Fill(fills[k].id, fills[k].owner, fills[k].price, fills[k].quantity, false),
    )
}

/// One delete per cancelled maker, in the order met.
pub open spec fn maker_cancels(cancels: Seq<Seq<char>>) -> Seq<PrimitiveView> {
    Seq::new(cancels.len(), |k: int| PrimitiveView::Delete(cancels[k], Msg::StpCancelMaker))
}

/// What becomes of the taker's remainder after a walk with fills or
/// cancels: an immediate-or-cancel taker drops it, any other rests it.
pub open spec fn resting_tail(taker: OrderView, remaining: u64) -> Seq<PrimitiveView> {
    if remaining == 0 {
        Seq::empty()
    } else if taker.tif is IOC {
        seq![PrimitiveView::Delete(taker.id, Msg::IOCLeftover)]
    } else {
        seq![PrimitiveView::Insert(taker, remaining)]
    }
}

/// The instruction for a taker whose walk `w` has ended, and the scratch
/// index after it.
pub open spec fn settle(w: Walk, taker: OrderView, scratch: Map<Seq<char>, u64>) -> (
    InstructionView,
    Map<Seq<char>, u64>,
) {
    match w.halt {
        Halt::PostOnly => (
            InstructionView::Single(PrimitiveView::NoOp(taker.id, Msg::PostOnlyFilled)),
            scratch,
        ),
        Halt::CancelTaker => (
            InstructionView::Single(PrimitiveView::NoOp(taker.id, Msg::StpCancelTaker)),
            scratch,
        ),
        Halt::CancelBoth(maker) => (
            InstructionView::Multi(
                seq![
                    PrimitiveView::NoOp(taker.id, Msg::StpCancelBoth),
                    PrimitiveView::Delete(maker, Msg::StpCancelBoth),
                ],
            ),
            scratch.insert(maker, 0),
        ),
        Halt::Running => if taker.tif is FOK && w.remaining > 0 {
            (InstructionView::Single(PrimitiveView::NoOp(taker.id, Msg::FOKNotFilled)), scratch)
        } else {
            let after = commit_cancels(commit_fills(scratch, w.fills), w.cancels);
            if w.fills.len() > 0 || w.cancels.len() > 0 {
                (
                    InstructionView::Multi(
                        taker_fill(taker, w.fills) + maker_fills(w.fills) + maker_cancels(w.cancels)
                            + resting_tail(taker, w.remaining),
                    ),
                    after,
                )
            } else if taker.tif is IOC {
                (InstructionView::Single(PrimitiveView::NoOp(taker.id, Msg::IOCNoFill)), after)
            } else {
                (InstructionView::Single(PrimitiveView::Insert(taker, w.remaining)), after)
            }
        },
    }
}

/// The instruction for inserting `taker`, and the scratch index after it.
pub open spec fn eval_insert_spec(book: BookView, scratch: Map<Seq<char>, u64>, taker: OrderView) -> (
    InstructionView,
    Map<Seq<char>, u64>,
) {
    if book.contains(taker.id) {
        (InstructionView::Single(PrimitiveView::NoOp(taker.id, Msg::OrderAlreadyExists)), scratch)
    } else {
        settle(
            walk_levels(Walk::start(taker.remaining), taker, scratch, book.side(!taker.is_buy), 0),
            taker,
            scratch,
        )
    }
}

/// The order `id` is gone for this batch: it does not rest on the book,
/// or the scratch index says that nothing is left of it.
pub open spec fn gone(book: BookView, scratch: Map<Seq<char>, u64>, id: Seq<char>) -> bool {
    !book.contains(id) || (scratch.contains_key(id) && scratch[id] == 0)
}

/// The instruction for cancelling `id`, and the scratch index after it.
pub open spec fn eval_cancel_spec(book: BookView, scratch: Map<Seq<char>, u64>, id: Seq<char>) -> (
    InstructionView,
    Map<Seq<char>, u64>,
) {
    if gone(book, scratch, id) {
        (InstructionView::Single(PrimitiveView::NoOp(id, Msg::OrderNotFound)), scratch)
    } else {
        (InstructionView::Single(PrimitiveView::Delete(id, Msg::UserCancelled)), scratch.insert(id, 0))
    }
}

/// The instruction for one operation, and the scratch index after it.
pub open spec fn eval_op_spec(book: BookView, scratch: Map<Seq<char>, u64>, op: OpView) -> (
    InstructionView,
    Map<Seq<char>, u64>,
) {
    match op {
        OpView::Insert(order) => eval_insert_spec(book, scratch, order),
        OpView::Delete(id) => eval_cancel_spec(book, scratch, id),
    }
}

/// The instructions for a batch of operations against an unchanging book,
/// one per operation, and the scratch index after the batch.
pub open spec fn eval_ops_spec(book: BookView, scratch: Map<Seq<char>, u64>, ops: Seq<OpView>) -> (
    Seq<InstructionView>,
    Map<Seq<char>, u64>,
)
    decreases ops.len(),
{
    if ops.len() == 0 {
        (Seq::empty(), scratch)
    } else {
        let (before, mid) = eval_ops_spec(book, scratch, ops.drop_last());
        let (last, after) = eval_op_spec(book, mid, ops.last());
        (before.push(last), after)
    }
}

/// A walk without fills and cancels leaves the scratch index as it is.
pub proof fn lemma_commit_nothing(scratch: Map<Seq<char>, u64>)
    ensures
        commit_cancels(commit_fills(scratch, Seq::empty()), Seq::empty()) == scratch,
{
}

/// A stopped walk stays as it is.
pub proof fn lemma_stopped_orders(
    w: Walk,
    taker: OrderView,
    scratch: Map<Seq<char>, u64>,
    price: u64,
    orders: Seq<OrderView>,
    from: int,
)
    requires
        w.stopped(),
    ensures
        walk_orders(w, taker, scratch, price, orders, from) == w,
    decreases orders.len() - from,
{
    if 0 <= from < orders.len() {
        lemma_stopped_orders(w, taker, scratch, price, orders, from + 1);
    }
}

/// A stopped walk stays as it is.
pub proof fn lemma_stopped_levels(
    w: Walk,
    taker: OrderView,
    scratch: Map<Seq<char>, u64>,
    levels: Seq<LevelView>,
    from: int,
)
    requires
        w.stopped(),
    ensures
        walk_levels(w, taker, scratch, levels, from) == w,
    decreases levels.len() - from,
{
    if 0 <= from < levels.len() && !out_of_reach(taker, levels[from].price) {
        lemma_stopped_orders(w, taker, scratch, levels[from].price, levels[from].orders, 0);
        lemma_stopped_levels(w, taker, scratch, levels, from + 1);
    }
}

/// The work buffer of fills as plain values.
pub open spec fn fill_views(fills: Seq<(String, String, u64, u64, u64)>) -> Seq<FillView> {
    Seq::new(
        fills.len(),
        |k: int|
            FillView {
                id: fills[k].0@,
                owner: fills[k].1@,
                price: fills[k].2,
                quantity: fills[k].3,
                available: fills[k].4,
            },
    )
}

/// The work buffer of cancelled makers as plain values.
pub open spec fn id_views(ids: Seq<String>) -> Seq<Seq<char>> {
    Seq::new(ids.len(), |k: int| ids[k]@)
}

/// If the primitive rests an order, it is `order` itself.
pub open spec fn prim_carries<O: OrderInterface>(p: InstructionPrimitive<O>, order: O) -> bool {
    match p {
        InstructionPrimitive::Insert(rested, _) => rested == order,
        _ => true,
    }
}

/// If the instruction rests an order, it is `order` itself.
pub open spec fn carries<O: OrderInterface>(instruction: Instruction<O>, order: O) -> bool {
    match instruction {
        Instruction::Single(p) => prim_carries(p, order),
        Instruction::Multi(ps) => forall|k: int|
            0 <= k < ps@.len() ==> prim_carries(#[trigger] ps@[k], order),
    }
}

/// The running totals of a walk agree with its fills: the quantity taken
/// and its price-weighted sum are those of the fills, what was taken and
/// what is left make up what the taker came with, and no fill takes
/// nothing or more than its maker had.
pub open spec fn tally_ok(
    fills: Seq<FillView>,
    remaining: u64,
    total_filled: u64,
    weighted: u128,
    came_with: u64,
) -> bool {
    &&& total_filled == total_quantity(fills)
    &&& weighted == weighted_sum(fills)
    &&& remaining + total_filled == came_with
    &&& weighted <= total_filled * u64::MAX
    &&& forall|k: int|
        0 <= k < fills.len() ==> 0 < (#[trigger] fills[k]).quantity <= fills[k].available
}

proof fn lemma_tally_push(
    fills: Seq<FillView>,
    remaining: u64,
    total_filled: u64,
    weighted: u128,
    came_with: u64,
    fill: FillView,
)
    requires
        tally_ok(fills, remaining, total_filled, weighted, came_with),
        0 < fill.quantity <= fill.available,
        fill.quantity <= remaining,
    ensures
        weighted + fill.price * fill.quantity <= u128::MAX,
        tally_ok(
            fills.push(fill),
            (remaining - fill.quantity) as u64,
            (total_filled + fill.quantity) as u64,
            (weighted + fill.price * fill.quantity) as u128,
            came_with,
        ),
{
    assert(fills.push(fill).drop_last() =~= fills);
    let p = fill.price as int;
    let q = fill.quantity as int;
    let t = total_filled as int;
    let m = u64::MAX as int;
    assert(p * q <= m * q) by (nonlinear_arith)
        requires
            0 <= p <= m,
            0 <= q,
    ;
    assert(t * m + m * q == (t + q) * m) by (nonlinear_arith);
    assert((t + q) * m <= m * m) by (nonlinear_arith)
        requires
            0 <= t + q <= m,
            0 <= m,
    ;
    assert(m * m < u128::MAX) by (nonlinear_arith)
        requires
            m == 0xffff_ffff_ffff_ffff,
    ;
}

/// Evaluator: turns ops into instructions without mutating the book.
///
/// Reusable: call `reset()` between independent batches. The scratch
/// index tracks what is left of resting orders so that later ops see what
/// earlier ones did. The two work buffers are kept to avoid allocating on
/// each call; they carry nothing from one call to the next.
pub struct Evaluator<O: OrderInterface> {
    temp: StringHashMap<u64>,
    // (maker_id, maker_owner, maker_price, fill_qty, maker_avail)
    fills: Vec<(String, String, u64, u64, u64)>,
    stp_cancels: Vec<String>,
    marker: PhantomData<O>,
}

impl<O: OrderInterface> View for Evaluator<O> {
    type V = Map<Seq<char>, u64>;

    /// The scratch index: what is left, for this batch, of each resting
    /// order that the batch has touched.
    closed spec fn view(&self) -> Map<Seq<char>, u64> {
        self.temp@
    }
}

impl<O: OrderInterface> Default for Evaluator<O> {
    fn default() -> (r: Self)
        ensures
            r@ == Map::<Seq<char>, u64>::empty(),
    {
        Self {
            temp: StringHashMap::new(),
            fills: Vec::new(),
            stp_cancels: Vec::new(),
            marker: PhantomData,
        }
    }
}

impl<O: OrderInterface> Evaluator<O> {
    /// The walk as the work buffers and the running remainder hold it.
    spec fn walk_now(&self, remaining: u64) -> Walk {
        Walk {
            remaining,
            fills: fill_views(self.fills@),
            cancels: id_views(self.stp_cancels@),
            halt: Halt::Running,
        }
    }

    /// Meets the orders of one level, oldest first. Returns the
    /// instruction if the walk ends early, and the running totals.
    fn walk_level(
        &mut self,
        level: &Level<O>,
        pool: &Pool<O>,
        order: &O,
        came: u64,
        filled: u64,
        bulk: u128,
    ) -> (r: (Option<Instruction<O>>, u64, u64, u128))
        requires
            level.wf(pool),
            pool.wf(),
            tally_ok(
                fill_views(old(self).fills@),
                came,
                filled,
                bulk,
                order.view().remaining,
            ),
        ensures
            ({
                let w = walk_orders(
                    old(self).walk_now(came),
                    order.view(),
                    old(self)@,
                    level.spec_price(),
                    level.orders(pool),
                    0,
                );
                match r.0 {
                    Some(instruction) => {
                        &&& !(w.halt is Running)
                        &&& instruction@ == settle(w, order.view(), old(self)@).0
                        &&& final(self)@ == settle(w, order.view(), old(self)@).1
                        &&& carries(instruction, *order)
                    },
                    None => {
                        &&& w == final(self).walk_now(r.1)
                        &&& final(self)@ == old(self)@
                        &&& tally_ok(
                            fill_views(final(self).fills@),
                            r.1,
                            r.2,
                            r.3,
                            order.view().remaining,
                        )
                    },
                }
            }),
    {
        let ghost taker = order.view();
        let ghost scratch = self@;
        let ghost price = level.spec_price();
        let ghost orders = level.orders(pool);
        let ghost h = level.handles();
        let ghost target = walk_orders(self.walk_now(came), taker, scratch, price, orders, 0);
        let level_price = level.price();
        let mut remaining = came;
        let mut total_filled = filled;
        let mut weighted = bulk;
        let mut node = level.front(pool);
        let ghost mut j: int = 0;
        proof {
            level.lemma_wf(pool);
            pool.lemma_live_not_nil();
        }
        while node != NIL && remaining > 0
            invariant
                level.wf(pool),
                pool.wf(),
                taker == order.view(),
                scratch == self@,
                scratch == old(self)@,
                target == walk_orders(
                    old(self).walk_now(came),
                    taker,
                    scratch,
                    price,
                    orders,
                    0,
                ),
                price == level.spec_price(),
                level_price == price,
                orders == level.orders(pool),
                h == level.handles(),
                h.no_duplicates(),
                forall|k: int| 0 <= k < h.len() ==> pool.live(#[trigger] h[k]),
                0 <= j <= h.len(),
                node == if j < h.len() {
                    h[j]
                } else {
                    NIL
                },
                target == walk_orders(self.walk_now(remaining), taker, scratch, price, orders, j),
                tally_ok(fill_views(self.fills@), remaining, total_filled, weighted, taker.remaining),
            decreases h.len() - j,
        {
            proof {
                assert(pool.live(h[j]));
                assert(h.index_of(node) == j) by {
                    let i = h.index_of(node);
                    assert(h[i] == node);
                }
                assert(orders[j] == pool.data(node).view());
            }
            let ghost before = self.walk_now(remaining);
            let ghost after = meet(before, taker, scratch, price, orders[j]);
            let maker = pool.get(node);
            let known = self.temp.get(maker.id().as_str());
            let maker_avail: u64 = if known.is_some() {
                *known.unwrap()
            } else {
                maker.remaining()
            };
            if maker_avail != 0 {
                if order.post_only() {
                    proof {
                        lemma_stopped_orders(after, taker, scratch, price, orders, j + 1);
                    }
                    return (
                        Some(
                            Instruction::Single(
                                InstructionPrimitive::NoOp(order.id().clone(), Msg::PostOnlyFilled),
                            ),
                        ),
                        remaining,
                        total_filled,
                        weighted,
                    );
                }
                let same_owner = *order.owner() == *maker.owner();
                let mut take = true;
                if same_owner {
                    match order.stp() {
                        STP::Off => {},
                        STP::CancelTaker => {
                            proof {
                                lemma_stopped_orders(after, taker, scratch, price, orders, j + 1);
                            }
                            return (
                                Some(
                                    Instruction::Single(
                                        InstructionPrimitive::NoOp(
                                            order.id().clone(),
                                            Msg::StpCancelTaker,
                                        ),
                                    ),
                                ),
                                remaining,
                                total_filled,
                                weighted,
                            );
                        },
                        STP::CancelMaker => {
                            self.stp_cancels.push(maker.id().clone());
                            take = false;
                            proof {
                                assert(id_views(self.stp_cancels@) =~= before.cancels.push(
                                    orders[j].id,
                                ));
                            }
                        },
                        STP::CancelBoth => {
                            proof {
                                lemma_stopped_orders(after, taker, scratch, price, orders, j + 1);
                            }
                            self.temp.insert(maker.id().clone(), 0);
                            let mut both: Vec<InstructionPrimitive<O>> = Vec::new();
                            both.push(
                                InstructionPrimitive::NoOp(order.id().clone(), Msg::StpCancelBoth),
                            );
                            both.push(
                                InstructionPrimitive::Delete(
                                    maker.id().clone(),
                                    Msg::StpCancelBoth,
                                ),
                            );
                            proof {
                                assert(prim_views(both@) =~= seq![
                                    PrimitiveView::NoOp(taker.id, Msg::StpCancelBoth),
                                    PrimitiveView::Delete(orders[j].id, Msg::StpCancelBoth),
                                ]);
                            }
                            return (Some(Instruction::Multi(both)), remaining, total_filled, weighted);
                        },
                    }
                }
                if take {
                    let fill_qty = if remaining < maker_avail {
                        remaining
                    } else {
                        maker_avail
                    };
                    proof {
                        lemma_tally_push(
                            fill_views(self.fills@),
                            remaining,
                            total_filled,
                            weighted,
                            taker.remaining,
                            FillView {
                                id: orders[j].id,
                                owner: orders[j].owner,
                                price,
                                quantity: fill_qty,
                                available: maker_avail,
                            },
                        );
                    }
                    remaining -= fill_qty;
                    total_filled += fill_qty;
                    weighted += (level_price as u128) * (fill_qty as u128);
                    self.fills.push(
                        (
                            maker.id().clone(),
                            maker.owner().clone(),
                            level_price,
                            fill_qty,
                            maker_avail,
                        ),
                    );
                    proof {
                        assert(fill_views(self.fills@) =~= before.fills.push(
                            FillView {
                                id: orders[j].id,
                                owner: orders[j].owner,
                                price,
                                quantity: fill_qty,
                                available: maker_avail,
                            },
                        ));
                    }
                }
            }
            proof {
                assert(self.walk_now(remaining) == after);
            }
            node = level.next(node, pool);
            proof {
                j = j + 1;
            }
        }
        proof {
            if remaining == 0 {
                lemma_stopped_orders(self.walk_now(remaining), taker, scratch, price, orders, j);
            }
        }
        (None, remaining, total_filled, weighted)
    }
    /// Walks the opposite side, best level first, up to the first level
    /// out of the taker's reach. Returns the instruction if the walk ends
    /// early, and the running totals.
    fn walk(&mut self, ob: &OrderBook<O>, order: &O) -> (r: (Option<Instruction<O>>, u64, u64, u128))
        requires
            ob.wf(),
            old(self).fills@.len() == 0,
            old(self).stp_cancels@.len() == 0,
        ensures
            ({
                let w = walk_levels(
                    Walk::start(order.view().remaining),
                    order.view(),
                    old(self)@,
                    ob@.side(!order.view().is_buy),
                    0,
                );
                match r.0 {
                    Some(instruction) => {
                        &&& !(w.halt is Running)
                        &&& instruction@ == settle(w, order.view(), old(self)@).0
                        &&& final(self)@ == settle(w, order.view(), old(self)@).1
                        &&& carries(instruction, *order)
                    },
                    None => {
                        &&& w == final(self).walk_now(r.1)
                        &&& final(self)@ == old(self)@
                        &&& tally_ok(
                            fill_views(final(self).fills@),
                            r.1,
                            r.2,
                            r.3,
                            order.view().remaining,
                        )
                    },
                }
            }),
    {
        let is_buy = order.is_buy();
        let price = order.price();
        let side = ob.opposite(is_buy);
        let pool = ob.pool();
        let ghost taker = order.view();
        let ghost scratch = self@;
        let ghost levels = side.view_in(pool);
        let ghost target = walk_levels(Walk::start(taker.remaining), taker, scratch, levels, 0);
        let height = side.height();
        let mut remaining = order.remaining();
        let mut total_filled: u64 = 0;
        let mut weighted: u128 = 0;
        let mut i: usize = 0;
        let mut crossing = true;
        proof {
            assert(fill_views(self.fills@) =~= Seq::empty());
            assert(id_views(self.stp_cancels@) =~= Seq::empty());
        }
        while crossing && i < height && remaining > 0
            invariant
                ob.wf(),
                *side == if is_buy {
                    ob.asks_side()
                } else {
                    ob.bids_side()
                },
                *pool == ob.spec_pool(),
                side.wf(pool),
                pool.wf(),
                levels == side.view_in(pool),
                levels == ob@.side(!order.view().is_buy),
                target == walk_levels(Walk::start(order.view().remaining), order.view(), scratch, levels, 0),
                height == side.levels().len(),
                taker == order.view(),
                is_buy == taker.is_buy,
                price == taker.price,
                scratch == self@,
                scratch == old(self)@,
                i <= height,
                !crossing ==> i < height && out_of_reach(taker, levels[i as int].price),
                target == walk_levels(self.walk_now(remaining), taker, scratch, levels, i as int),
                tally_ok(fill_views(self.fills@), remaining, total_filled, weighted, taker.remaining),
            decreases
                    height - i + if crossing {
                        1int
                    } else {
                        0int
                    },
        {
            let level = side.level(i);
            let level_price = level.price();
            if (is_buy && price < level_price) || (!is_buy && price > level_price) {
                crossing = false;
            } else {
                let ghost before = self.walk_now(remaining);
                let met = self.walk_level(level, pool, order, remaining, total_filled, weighted);
                proof {
                    assert(levels[i as int].orders == level.orders(pool));
                }
                if met.0.is_some() {
                    proof {
                        let w = walk_orders(
                            before,
                            taker,
                            scratch,
                            levels[i as int].price,
                            levels[i as int].orders,
                            0,
                        );
                        lemma_stopped_levels(w, taker, scratch, levels, i + 1);
                    }
                    return met;
                }
                remaining = met.1;
                total_filled = met.2;
                weighted = met.3;
                i += 1;
            }
        }
        proof {
            if crossing && i < height {
                lemma_stopped_levels(self.walk_now(remaining), taker, scratch, levels, i as int);
            }
        }
        (None, remaining, total_filled, weighted)
    }

    /// Records in the scratch index what the walk did to the makers:
    /// filled ones have what the fill left, cancelled ones are gone.
    fn commit(&mut self)
        requires
            forall|k: int|
                0 <= k < old(self).fills@.len() ==> (#[trigger] old(self).fills@[k]).3 <= old(
                    self,
                ).fills@[k].4,
        ensures
            final(self)@ == commit_cancels(
                commit_fills(old(self)@, fill_views(old(self).fills@)),
                id_views(old(self).stp_cancels@),
            ),
            final(self).fills@ == old(self).fills@,
            final(self).stp_cancels@ == old(self).stp_cancels@,
    {
        let ghost scratch = self@;
        let ghost cancels = id_views(self.stp_cancels@);
        let ghost fills = fill_views(self.fills@);
        let mut f: usize = 0;
        proof {
            assert(fills.take(0) =~= Seq::empty());
        }
        while f < self.fills.len()
            invariant
                f <= self.fills@.len(),
                self.fills@ == old(self).fills@,
                self.stp_cancels@ == old(self).stp_cancels@,
                fills == fill_views(self.fills@),
                forall|k: int|
                    0 <= k < self.fills@.len() ==> (#[trigger] self.fills@[k]).3 <= self.fills@[k].4,
                self@ == commit_fills(scratch, fills.take(f as int)),
            decreases self.fills@.len() - f,
        {
            let left = self.fills[f].4 - self.fills[f].3;
            self.temp.insert(self.fills[f].0.clone(), left);
            proof {
                assert(fills.take(f + 1).drop_last() =~= fills.take(f as int));
            }
            f += 1;
        }
        let ghost mid = self@;
        let mut c: usize = 0;
        proof {
            assert(fills.take(f as int) =~= fills);
            assert(cancels.take(0) =~= Seq::empty());
        }
        while c < self.stp_cancels.len()
            invariant
                c <= self.stp_cancels@.len(),
                self.fills@ == old(self).fills@,
                self.stp_cancels@ == old(self).stp_cancels@,
                cancels == id_views(self.stp_cancels@),
                self@ == commit_cancels(mid, cancels.take(c as int)),
            decreases self.stp_cancels@.len() - c,
        {
            self.temp.insert(self.stp_cancels[c].clone(), 0);
            proof {
                assert(cancels.take(c + 1).drop_last() =~= cancels.take(c as int));
            }
            c += 1;
        }
        proof {
            assert(cancels.take(c as int) =~= cancels);
        }
    }

    /// Builds the instruction for a taker whose walk ran to its end and
    /// was not rejected.
    fn emit(&self, order: O, remaining: u64, total_filled: u64, weighted: u128) -> (r: Instruction<O>)
        requires
            tally_ok(
                fill_views(self.fills@),
                remaining,
                total_filled,
                weighted,
                order.view().remaining,
            ),
        ensures
            r@ == if self.fills@.len() > 0 || self.stp_cancels@.len() > 0 {
                InstructionView::Multi(
                    taker_fill(order.view(), fill_views(self.fills@)) + maker_fills(
                        fill_views(self.fills@),
                    ) + maker_cancels(id_views(self.stp_cancels@)) + resting_tail(
                        order.view(),
                        remaining,
                    ),
                )
            } else if order.view().tif is IOC {
                InstructionView::Single(PrimitiveView::NoOp(order.view().id, Msg::IOCNoFill))
            } else {
                InstructionView::Single(PrimitiveView::Insert(order.view(), remaining))
            },
            carries(r, order),
    {
        let ghost taker = order.view();
        let ghost fills = fill_views(self.fills@);
        let ghost cancels = id_views(self.stp_cancels@);
        let tif = order.tif();
        if self.fills.len() == 0 && self.stp_cancels.len() == 0 {
            return match tif {
                TIF::IOC => Instruction::Single(
                    InstructionPrimitive::NoOp(order.id().clone(), Msg::IOCNoFill),
                ),
                _ => Instruction::Single(InstructionPrimitive::Insert(order, remaining)),
            };
        }
        let mut out: Vec<InstructionPrimitive<O>> = Vec::new();
        if total_filled > 0 {
            let average = weighted / (total_filled as u128);
            proof {
                let t = total_filled as int;
                let w = weighted as int;
                let m = u64::MAX as int;
                assert(w / t <= m) by (nonlinear_arith)
                    requires
                        0 < t,
                        0 <= w <= t * m,
                ;
            }
            out.push(
                InstructionPrimitive::Fill(
                    order.id().clone(),
                    order.owner().clone(),
                    average as u64,
                    total_filled,
                    true,
                ),
            );
        }
        let ghost head = taker_fill(taker, fills);
        proof {
            assert(prim_views(out@) =~= head);
            assert(maker_fills(fills).take(0) =~= Seq::empty());
        }
        let mut f: usize = 0;
        while f < self.fills.len()
            invariant
                f <= self.fills@.len(),
                fills == fill_views(self.fills@),
                prim_views(out@) == head + maker_fills(fills).take(f as int),
                forall|k: int| 0 <= k < out@.len() ==> prim_carries(#[trigger] out@[k], order),
            decreases self.fills@.len() - f,
        {
            let ghost sofar = prim_views(out@);
            out.push(
                InstructionPrimitive::Fill(
                    self.fills[f].0.clone(),
                    self.fills[f].1.clone(),
                    self.fills[f].2,
                    self.fills[f].3,
                    false,
                ),
            );
            proof {
                assert(maker_fills(fills).take(f + 1) =~= maker_fills(fills).take(f as int).push(
                    maker_fills(fills)[f as int],
                ));
                assert(prim_views(out@) =~= sofar.push(maker_fills(fills)[f as int]));
            }
            f += 1;
        }
        let ghost body = head + maker_fills(fills);
        proof {
            assert(maker_fills(fills).take(f as int) =~= maker_fills(fills));
            assert(maker_cancels(cancels).take(0) =~= Seq::empty());
            assert(prim_views(out@) =~= body + maker_cancels(cancels).take(0));
        }
        let mut c: usize = 0;
        while c < self.stp_cancels.len()
            invariant
                c <= self.stp_cancels@.len(),
                cancels == id_views(self.stp_cancels@),
                prim_views(out@) == body + maker_cancels(cancels).take(c as int),
                forall|k: int| 0 <= k < out@.len() ==> prim_carries(#[trigger] out@[k], order),
            decreases self.stp_cancels@.len() - c,
        {
            let ghost sofar = prim_views(out@);
            out.push(InstructionPrimitive::Delete(self.stp_cancels[c].clone(), Msg::StpCancelMaker));
            proof {
                assert(maker_cancels(cancels).take(c + 1) =~= maker_cancels(cancels).take(
                    c as int,
                ).push(maker_cancels(cancels)[c as int]));
                assert(prim_views(out@) =~= sofar.push(maker_cancels(cancels)[c as int]));
            }
            c += 1;
        }
        let ghost trunk = body + maker_cancels(cancels);
        proof {
            assert(maker_cancels(cancels).take(c as int) =~= maker_cancels(cancels));
        }
        if remaining > 0 {
            match tif {
                TIF::IOC => {
                    out.push(InstructionPrimitive::Delete(order.id().clone(), Msg::IOCLeftover));
                },
                _ => {
                    out.push(InstructionPrimitive::Insert(order, remaining));
                },
            }
        }
        proof {
            assert(prim_views(out@) =~= trunk + resting_tail(taker, remaining));
        }
        Instruction::Multi(out)
    }

    /// Resets the evaluator's scratch index.
    pub fn reset(&mut self)
        ensures
            final(self)@ == Map::<Seq<char>, u64>::empty(),
    {
        self.temp.clear();
    }

    /// Evaluates a single insert operation.
    pub fn eval_insert(&mut self, ob: &OrderBook<O>, order: O) -> (r: Instruction<O>)
        requires
            ob.wf(),
        ensures
            r@ == eval_insert_spec(ob@, old(self)@, order.view()).0,
            final(self)@ == eval_insert_spec(ob@, old(self)@, order.view()).1,
            carries(r, order),
    {
        if ob.contains(order.id().as_str()) {
            return Instruction::Single(
                InstructionPrimitive::NoOp(order.id().clone(), Msg::OrderAlreadyExists),
            );
        }
        self.fills.clear();
        self.stp_cancels.clear();
        let walked = self.walk(ob, &order);
        if walked.0.is_some() {
            return walked.0.unwrap();
        }
        let remaining = walked.1;
        match order.tif() {
            TIF::FOK => {
                if remaining > 0 {
                    return Instruction::Single(
                        InstructionPrimitive::NoOp(order.id().clone(), Msg::FOKNotFilled),
                    );
                }
            },
            _ => {},
        }
        proof {
            assert forall|k: int| 0 <= k < self.fills@.len() implies (#[trigger] self.fills@[k]).3
                <= self.fills@[k].4 by {
                assert(fill_views(self.fills@)[k].quantity <= fill_views(self.fills@)[k].available);
            }
        }
        self.commit();
        self.emit(order, remaining, walked.2, walked.3)
    }

    /// Evaluates a single cancel operation.
    pub fn eval_cancel(&mut self, ob: &OrderBook<O>, order_id: String) -> (r: Instruction<O>)
        requires
            ob.wf(),
        ensures
            r@ == eval_cancel_spec(ob@, old(self)@, order_id@).0,
            final(self)@ == eval_cancel_spec(ob@, old(self)@, order_id@).1,
    {
        let resting = ob.contains(order_id.as_str());
        let known = self.temp.get(order_id.as_str());
        let spent = known.is_some() && *known.unwrap() == 0;
        if !resting || spent {
            return Instruction::Single(InstructionPrimitive::NoOp(order_id, Msg::OrderNotFound));
        }
        self.temp.insert(order_id.clone(), 0);
        Instruction::Single(InstructionPrimitive::Delete(order_id, Msg::UserCancelled))
    }

    /// Evaluates a batch of ops; returns one instruction per op. Does not
    /// mutate `ob`: each op sees what the earlier ops of the batch did to
    /// resting orders through the scratch index.
    pub fn eval(&mut self, ob: &OrderBook<O>, ops: Vec<Op<O>>) -> (r: Vec<Instruction<O>>)
        requires
            ob.wf(),
        ensures
            instruction_views(r@) == eval_ops_spec(ob@, old(self)@, op_views(ops@)).0,
            final(self)@ == eval_ops_spec(ob@, old(self)@, op_views(ops@)).1,
            r@.len() == ops@.len(),
            forall|k: int|
                0 <= k < ops@.len() ==> (#[trigger] ops@[k] matches Op::Insert(order) ==> carries(
                    r@[k],
                    order,
                )),
    {
        let ghost scratch = self@;
        let ghost views = op_views(ops@);
        let mut instructions: Vec<Instruction<O>> = Vec::with_capacity(ops.len());
        proof {
            assert(views.take(0) =~= Seq::empty());
            assert(instruction_views(instructions@) =~= Seq::empty());
        }
        for op in it: ops
            invariant
                ob.wf(),
                views == op_views(it.seq()),
                instruction_views(instructions@) == eval_ops_spec(
                    ob@,
                    scratch,
                    views.take(it.index() as int),
                ).0,
                self@ == eval_ops_spec(ob@, scratch, views.take(it.index() as int)).1,
                instructions@.len() == it.index(),
                forall|k: int|
                    0 <= k < it.index() ==> (#[trigger] it.seq()[k] matches Op::Insert(order)
                        ==> carries(instructions@[k], order)),
        {
            let ghost done = instruction_views(instructions@);
            proof {
                assert(views.take(it.index() + 1).drop_last() =~= views.take(it.index() as int));
                assert(views.take(it.index() + 1).last() == views[it.index() as int]);
            }
            match op {
                Op::Insert(order) => {
                    let instruction = self.eval_insert(ob, order);
                    instructions.push(instruction);
                },
                Op::Delete(order_id) => {
                    let instruction = self.eval_cancel(ob, order_id);
                    instructions.push(instruction);
                },
            }
            proof {
                assert(instruction_views(instructions@) =~= done.push(
                    instructions@.last()@,
                ));
            }
        }
        proof {
            assert(views.take(views.len() as int) =~= views);
        }
        instructions
    }
}

} // verus!