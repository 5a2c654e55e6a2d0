//! What holds of every evaluation and of every application: the laws of
//! the matching walk and of the book's view.

use crate::eval::{
    eval_cancel_spec, eval_insert_spec, eval_op_spec, maker_cancels, maker_fills, meet,
    out_of_reach, resting_tail, taker_fill, total_quantity, vwap, walk_levels, walk_orders,
    weighted_sum, FillView, InstructionView, Msg, OpView, PrimitiveView, Walk,
};
use crate::level::LevelView;
use crate::ob::{at, lemma_apply_one, locate, side_has, side_wf, BookView};
use crate::order::OrderView;
use crate::side::{
    has_level, lemma_rank_split, precedes, rank, side_insert, side_remove_at, sorted,
};
use vstd::prelude::*;

verus! {

/// The final state of the walk that inserting `taker` takes along the
/// opposite side of `book`.
pub open spec fn final_walk(book: BookView, scratch: Map<Seq<char>, u64>, taker: OrderView) -> Walk {
    walk_levels(Walk::start(taker.remaining), taker, scratch, book.side(!taker.is_buy), 0)
}

/// What was taken and what is left make up what the taker came with; no
/// fill takes nothing or more than its maker had; the price-weighted sum
/// stays within the largest price times the quantity taken.
pub open spec fn walk_sound(w: Walk, came_with: u64) -> bool {
    &&& total_quantity(w.fills) + w.remaining == came_with
    &&& 0 <= weighted_sum(w.fills) <= total_quantity(w.fills) * u64::MAX
    &&& forall|k: int|
        0 <= k < w.fills.len() ==> 0 < (#[trigger] w.fills[k]).quantity <= w.fills[k].available
}

proof fn lemma_meet_sound(
    w: Walk,
    taker: OrderView,
    scratch: Map<Seq<char>, u64>,
    price: u64,
    maker: OrderView,
    came_with: u64,
)
    requires
        walk_sound(w, came_with),
    ensures
        walk_sound(meet(w, taker, scratch, price, maker), came_with),
{
    let after = meet(w, taker, scratch, price, maker);
    if after.fills != w.fills {
        let fill = after.fills.last();
        assert(after.fills.drop_last() =~= w.fills);
        let p = fill.price as int;
        let q = fill.quantity as int;
        let t = total_quantity(w.fills);
        let m = u64::MAX as int;
        assert(0 <= p * q <= m * q) by (nonlinear_arith)
            requires
                0 <= p <= m,
                0 <= q,
        ;
        assert(t * m + m * q == (t + q) * m) by (nonlinear_arith);
    }
}

proof fn lemma_orders_sound(
    w: Walk,
    taker: OrderView,
    scratch: Map<Seq<char>, u64>,
    price: u64,
    orders: Seq<OrderView>,
    from: int,
    came_with: u64,
)
    requires
        walk_sound(w, came_with),
    ensures
        walk_sound(walk_orders(w, taker, scratch, price, orders, from), came_with),
    decreases orders.len() - from,
{
    if 0 <= from < orders.len() {
        lemma_meet_sound(w, taker, scratch, price, orders[from], came_with);
        lemma_orders_sound(
            meet(w, taker, scratch, price, orders[from]),
            taker,
            scratch,
            price,
            orders,
            from + 1,
            came_with,
        );
    }
}

proof fn lemma_levels_sound(
    w: Walk,
    taker: OrderView,
    scratch: Map<Seq<char>, u64>,
    levels: Seq<LevelView>,
    from: int,
    came_with: u64,
)
    requires
        walk_sound(w, came_with),
    ensures
        walk_sound(walk_levels(w, taker, scratch, levels, from), came_with),
    decreases levels.len() - from,
{
    if 0 <= from < levels.len() && !out_of_reach(taker, levels[from].price) {
        lemma_orders_sound(w, taker, scratch, levels[from].price, levels[from].orders, 0, came_with);
        lemma_levels_sound(
            walk_orders(w, taker, scratch, levels[from].price, levels[from].orders, 0),
            taker,
            scratch,
            levels,
            from + 1,
            came_with,
        );
    }
}

/// Conservation: along any walk, the quantities of the maker fills add up
/// to what the taker came with less what is left of it.
pub proof fn lemma_conservation(book: BookView, scratch: Map<Seq<char>, u64>, taker: OrderView)
    ensures
        walk_sound(final_walk(book, scratch, taker), taker.remaining),
        total_quantity(final_walk(book, scratch, taker).fills) == taker.remaining - final_walk(
            book,
            scratch,
            taker,
        ).remaining,
{
    lemma_levels_sound(
        Walk::start(taker.remaining),
        taker,
        scratch,
        book.side(!taker.is_buy),
        0,
        taker.remaining,
    );
}

/// The average price of fills is the price-weighted sum divided by the
/// quantity, rounded down: times the quantity it reaches the sum from
/// below and misses it by less than the quantity. It is a price.
pub proof fn lemma_vwap_floor(fills: Seq<FillView>)
    requires
        total_quantity(fills) > 0,
        0 <= weighted_sum(fills) <= total_quantity(fills) * u64::MAX,
    ensures
        0 <= vwap(fills) <= u64::MAX,
        vwap(fills) * total_quantity(fills) <= weighted_sum(fills) < (vwap(fills) + 1)
            * total_quantity(fills),
{
    let w = weighted_sum(fills);
    let t = total_quantity(fills);
    let m = u64::MAX as int;
    assert(0 <= w / t <= m && (w / t) * t <= w < (w / t + 1) * t) by (nonlinear_arith)
        requires
            0 < t,
            0 <= w <= t * m,
    ;
}

/// The sum of the quantities of the maker fills among `ps`.
pub open spec fn maker_quantity(ps: Seq<PrimitiveView>) -> int
    decreases ps.len(),
{
    if ps.len() == 0 {
        0
    } else {
        maker_quantity(ps.drop_last()) + match ps.last() {
            PrimitiveView::Fill(_, _, _, quantity, false) => quantity as int,
            _ => 0,
        }
    }
}

/// The sum over the maker fills among `ps` of price times quantity.
pub open spec fn maker_value(ps: Seq<PrimitiveView>) -> int
    decreases ps.len(),
{
    if ps.len() == 0 {
        0
    } else {
        maker_value(ps.drop_last()) + match ps.last() {
            PrimitiveView::Fill(_, _, price, quantity, false) => price * quantity,
            _ => 0,
        }
    }
}

proof fn lemma_maker_sums_concat(a: Seq<PrimitiveView>, b: Seq<PrimitiveView>)
    ensures
        maker_quantity(a + b) == maker_quantity(a) + maker_quantity(b),
        maker_value(a + b) == maker_value(a) + maker_value(b),
    decreases b.len(),
{
    if b.len() == 0 {
        assert(a + b =~= a);
    } else {
        lemma_maker_sums_concat(a, b.drop_last());
        assert((a + b).drop_last() =~= a + b.drop_last());
        assert((a + b).last() == b.last());
    }
}

proof fn lemma_maker_sums_of_fills(fills: Seq<FillView>)
    ensures
        maker_quantity(maker_fills(fills)) == total_quantity(fills),
        maker_value(maker_fills(fills)) == weighted_sum(fills),
    decreases fills.len(),
{
    if fills.len() > 0 {
        lemma_maker_sums_of_fills(fills.drop_last());
        assert(maker_fills(fills).drop_last() =~= maker_fills(fills.drop_last()));
    }
}

proof fn lemma_maker_sums_of_cancels(cancels: Seq<Seq<char>>)
    ensures
        maker_quantity(maker_cancels(cancels)) == 0,
        maker_value(maker_cancels(cancels)) == 0,
    decreases cancels.len(),
{
    if cancels.len() > 0 {
        lemma_maker_sums_of_cancels(cancels.drop_last());
        assert(maker_cancels(cancels).drop_last() =~= maker_cancels(cancels.drop_last()));
    }
}

proof fn lemma_maker_sums_of_one(ps: Seq<PrimitiveView>)
    requires
        ps.len() <= 1,
        ps.len() == 1 ==> !(ps[0] matches PrimitiveView::Fill(_, _, _, _, false)),
    ensures
        maker_quantity(ps) == 0,
        maker_value(ps) == 0,
{
    if ps.len() == 1 {
        assert(ps.drop_last().len() == 0);
        assert(maker_quantity(ps.drop_last()) == 0);
        assert(maker_value(ps.drop_last()) == 0);
    }
}

/// The instruction for an insert holds fills only where the walk ran to
/// its end and was not rejected; it then holds, in this order, the
/// taker's fill, the maker fills, the cancels and the resting tail.
pub proof fn lemma_shape(book: BookView, scratch: Map<Seq<char>, u64>, taker: OrderView)
    ensures
        ({
            let ps = eval_insert_spec(book, scratch, taker).0.prims();
            let w = final_walk(book, scratch, taker);
            ||| (forall|k: int| 0 <= k < ps.len() ==> !(#[trigger] ps[k] is Fill))
            ||| ps == taker_fill(taker, w.fills) + maker_fills(w.fills) + maker_cancels(w.cancels)
                + resting_tail(taker, w.remaining)
        }),
{
}

/// Conservation and average price, read off the instruction: where the
/// instruction for an insert reports a fill of the taker, it comes first,
/// its quantity is the sum of the maker fills' quantities, and its price
/// is the maker fills' price-weighted sum divided by that quantity,
/// rounded down.
pub proof fn lemma_taker_fill(
    book: BookView,
    scratch: Map<Seq<char>, u64>,
    taker: OrderView,
    k: int,
)
    requires
        0 <= k < eval_insert_spec(book, scratch, taker).0.prims().len(),
        eval_insert_spec(book, scratch, taker).0.prims()[k] matches PrimitiveView::Fill(
            _,
            _,
            _,
            _,
            true,
        ),
    ensures
        ({
            let ps = eval_insert_spec(book, scratch, taker).0.prims();
            let w = final_walk(book, scratch, taker);
            &&& k == 0
            &&& ps[0] matches PrimitiveView::Fill(id, owner, price, quantity, _)
            &&& id == taker.id
            &&& owner == taker.owner
            &&& quantity == maker_quantity(ps)
            &&& quantity == taker.remaining - w.remaining
            &&& price * quantity <= maker_value(ps) < (price + 1) * quantity
        }),
{
    let ps = eval_insert_spec(book, scratch, taker).0.prims();
    let w = final_walk(book, scratch, taker);
    lemma_shape(book, scratch, taker);
    lemma_conservation(book, scratch, taker);
    let head = taker_fill(taker, w.fills);
    let fills = maker_fills(w.fills);
    let cancels = maker_cancels(w.cancels);
    let tail = resting_tail(taker, w.remaining);
    assert(ps == head + fills + cancels + tail);
    if k >= head.len() {
        if k < head.len() + fills.len() {
            assert(ps[k] == fills[k - head.len()]);
        } else if k < head.len() + fills.len() + cancels.len() {
            assert(ps[k] == cancels[k - head.len() - fills.len()]);
        } else {
            assert(ps[k] == tail[k - head.len() - fills.len() - cancels.len()]);
        }
    }
    lemma_vwap_floor(w.fills);
    lemma_maker_sums_concat(head + fills + cancels, tail);
    lemma_maker_sums_concat(head + fills, cancels);
    lemma_maker_sums_concat(head, fills);
    lemma_maker_sums_of_fills(w.fills);
    lemma_maker_sums_of_cancels(w.cancels);
    lemma_maker_sums_of_one(head);
    lemma_maker_sums_of_one(tail);
}

/// No insert of a taker with something left rests nothing: an instruction
/// that rests the taker with nothing comes only for a taker that came
/// with nothing.
pub proof fn lemma_never_rests_nothing(
    book: BookView,
    scratch: Map<Seq<char>, u64>,
    taker: OrderView,
    k: int,
)
    requires
        0 <= k < eval_insert_spec(book, scratch, taker).0.prims().len(),
        eval_insert_spec(book, scratch, taker).0.prims()[k] matches PrimitiveView::Insert(_, 0),
    ensures
        taker.remaining == 0,
{
    let ps = eval_insert_spec(book, scratch, taker).0.prims();
    let w = final_walk(book, scratch, taker);
    lemma_conservation(book, scratch, taker);
    if w.fills.len() > 0 || w.cancels.len() > 0 {
        let head = taker_fill(taker, w.fills);
        let fills = maker_fills(w.fills);
        let cancels = maker_cancels(w.cancels);
        let tail = resting_tail(taker, w.remaining);
        if k < head.len() {
        } else if k < head.len() + fills.len() {
            assert(ps[k] == fills[k - head.len()]);
        } else if k < head.len() + fills.len() + cancels.len() {
            assert(ps[k] == cancels[k - head.len() - fills.len()]);
        } else {
            assert(ps[k] == tail[k - head.len() - fills.len() - cancels.len()]);
        }
    } else {
        assert(total_quantity(w.fills) == 0);
    }
}

/// An order that finds the opposite side empty rests with all it came
/// with, post-only or not, unless it is immediate-or-cancel; the scratch
/// index stays as it was.
pub proof fn lemma_rests_on_empty_side(
    book: BookView,
    scratch: Map<Seq<char>, u64>,
    taker: OrderView,
)
    requires
        !book.contains(taker.id),
        book.side(!taker.is_buy).len() == 0,
        !(taker.tif is IOC),
        !(taker.tif is FOK && taker.remaining > 0),
    ensures
        eval_insert_spec(book, scratch, taker) == (
            InstructionView::Single(PrimitiveView::Insert(taker, taker.remaining)),
            scratch,
        ),
{
}

/// Fill-or-kill is all or nothing: the instruction for such a taker
/// holds a maker fill only if the fills take all the taker came with, and
/// it then rests nothing and drops nothing.
pub proof fn lemma_fok_all_or_nothing(
    book: BookView,
    scratch: Map<Seq<char>, u64>,
    taker: OrderView,
    k: int,
)
    requires
        taker.tif is FOK,
        0 <= k < eval_insert_spec(book, scratch, taker).0.prims().len(),
        eval_insert_spec(book, scratch, taker).0.prims()[k] is Fill,
    ensures
        ({
            let ps = eval_insert_spec(book, scratch, taker).0.prims();
            let w = final_walk(book, scratch, taker);
            &&& total_quantity(w.fills) == taker.remaining
            &&& ps == taker_fill(taker, w.fills) + maker_fills(w.fills) + maker_cancels(w.cancels)
        }),
{
    let w = final_walk(book, scratch, taker);
    lemma_conservation(book, scratch, taker);
    lemma_shape(book, scratch, taker);
    assert(resting_tail(taker, w.remaining) =~= Seq::empty());
    assert(taker_fill(taker, w.fills) + maker_fills(w.fills) + maker_cancels(w.cancels)
        + resting_tail(taker, w.remaining) =~= taker_fill(taker, w.fills) + maker_fills(w.fills)
        + maker_cancels(w.cancels));
}

/// Nothing is dropped in silence: every operation comes to an
/// instruction of at least one primitive.
pub proof fn lemma_some_primitive(book: BookView, scratch: Map<Seq<char>, u64>, op: OpView)
    ensures
        eval_op_spec(book, scratch, op).0.prims().len() > 0,
{
    if let OpView::Insert(taker) = op {
        let w = final_walk(book, scratch, taker);
        if w.fills.len() > 0 {
            assert(maker_fills(w.fills).len() > 0);
        } else if w.cancels.len() > 0 {
            assert(maker_cancels(w.cancels).len() > 0);
        }
    }
}

/// An order cancelled once in a batch is gone for the rest of it: a
/// second cancel of the same identifier, whatever the first one gave,
/// finds no order.
pub proof fn lemma_cancel_twice(book: BookView, scratch: Map<Seq<char>, u64>, id: Seq<char>)
    ensures
        eval_cancel_spec(book, eval_cancel_spec(book, scratch, id).1, id) == (
            InstructionView::Single(PrimitiveView::NoOp(id, Msg::OrderNotFound)),
            eval_cancel_spec(book, scratch, id).1,
        ),
{
}

/// The prices of `fills` never step back against the precedence of the
/// makers' side: on the ask side they do not fall, on the bid side they
/// do not rise.
pub open spec fn fills_ordered(fills: Seq<FillView>, is_bid: bool) -> bool {
    forall|i: int, j: int|
        0 <= i < j < fills.len() ==> !precedes(
            is_bid,
            (#[trigger] fills[j]).price,
            (#[trigger] fills[i]).price,
        )
}

/// No price of `fills` lies behind `price` on the makers' side.
pub open spec fn fills_within(fills: Seq<FillView>, is_bid: bool, price: u64) -> bool {
    forall|i: int| 0 <= i < fills.len() ==> !precedes(is_bid, price, (#[trigger] fills[i]).price)
}

proof fn lemma_orders_ordered(
    w: Walk,
    taker: OrderView,
    scratch: Map<Seq<char>, u64>,
    price: u64,
    orders: Seq<OrderView>,
    from: int,
    is_bid: bool,
)
    requires
        fills_ordered(w.fills, is_bid),
        fills_within(w.fills, is_bid, price),
    ensures
        fills_ordered(walk_orders(w, taker, scratch, price, orders, from).fills, is_bid),
        fills_within(walk_orders(w, taker, scratch, price, orders, from).fills, is_bid, price),
    decreases orders.len() - from,
{
    if 0 <= from < orders.len() {
        let after = meet(w, taker, scratch, price, orders[from]);
        assert(fills_ordered(after.fills, is_bid) && fills_within(after.fills, is_bid, price)) by {
            if after.fills != w.fills {
                assert(after.fills.drop_last() =~= w.fills);
                assert forall|i: int, j: int| 0 <= i < j < after.fills.len() implies !precedes(
                    is_bid,
                    (#[trigger] after.fills[j]).price,
                    (#[trigger] after.fills[i]).price,
                ) by {
                    assert(after.fills[i] == w.fills[i]);
                    if j < w.fills.len() {
                        assert(after.fills[j] == w.fills[j]);
                    }
                }
                assert forall|i: int| 0 <= i < after.fills.len() implies !precedes(
                    is_bid,
                    price,
                    (#[trigger] after.fills[i]).price,
                ) by {
                    if i < w.fills.len() {
                        assert(after.fills[i] == w.fills[i]);
                    }
                }
            }
        }
        lemma_orders_ordered(after, taker, scratch, price, orders, from + 1, is_bid);
    }
}

proof fn lemma_levels_ordered(
    w: Walk,
    taker: OrderView,
    scratch: Map<Seq<char>, u64>,
    levels: Seq<LevelView>,
    from: int,
    is_bid: bool,
)
    requires
        sorted(levels, is_bid),
        fills_ordered(w.fills, is_bid),
        0 <= from,
        from < levels.len() ==> fills_within(w.fills, is_bid, levels[from].price),
    ensures
        fills_ordered(walk_levels(w, taker, scratch, levels, from).fills, is_bid),
    decreases levels.len() - from,
{
    if from < levels.len() && !out_of_reach(taker, levels[from].price) {
        let price = levels[from].price;
        lemma_orders_ordered(w, taker, scratch, price, levels[from].orders, 0, is_bid);
        let after = walk_orders(w, taker, scratch, price, levels[from].orders, 0);
        if from + 1 < levels.len() {
            assert(precedes(is_bid, levels[from].price, levels[from + 1].price));
            assert forall|i: int| 0 <= i < after.fills.len() implies !precedes(
                is_bid,
                levels[from + 1].price,
                (#[trigger] after.fills[i]).price,
            ) by {}
        }
        lemma_levels_ordered(after, taker, scratch, levels, from + 1, is_bid);
    }
}

/// Price monotonicity: within the fills of one insert the maker prices
/// do not fall for a buying taker and do not rise for a selling one.
pub proof fn lemma_maker_prices_monotone(
    book: BookView,
    scratch: Map<Seq<char>, u64>,
    taker: OrderView,
    i: int,
    j: int,
)
    requires
        book.wf(),
        0 <= i < j < eval_insert_spec(book, scratch, taker).0.prims().len(),
        eval_insert_spec(book, scratch, taker).0.prims()[i] matches PrimitiveView::Fill(
            _,
            _,
            _,
            _,
            false,
        ),
        eval_insert_spec(book, scratch, taker).0.prims()[j] matches PrimitiveView::Fill(
            _,
            _,
            _,
            _,
            false,
        ),
    ensures
        ({
            let ps = eval_insert_spec(book, scratch, taker).0.prims();
            &&& ps[i] matches PrimitiveView::Fill(_, _, first, _, _)
            &&& ps[j] matches PrimitiveView::Fill(_, _, second, _, _)
            &&& if taker.is_buy {
                first <= second
            } else {
                first >= second
            }
        }),
{
    let ps = eval_insert_spec(book, scratch, taker).0.prims();
    let w = final_walk(book, scratch, taker);
    lemma_shape(book, scratch, taker);
    let head = taker_fill(taker, w.fills);
    let fills = maker_fills(w.fills);
    let cancels = maker_cancels(w.cancels);
    let tail = resting_tail(taker, w.remaining);
    assert(ps == head + fills + cancels + tail);
    assert(head.len() <= i < head.len() + fills.len() && ps[i] == fills[i - head.len()]) by {
        if i >= head.len() + fills.len() {
            if i < head.len() + fills.len() + cancels.len() {
                assert(ps[i] == cancels[i - head.len() - fills.len()]);
            } else {
                assert(ps[i] == tail[i - head.len() - fills.len() - cancels.len()]);
            }
        }
    }
    assert(head.len() <= j < head.len() + fills.len() && ps[j] == fills[j - head.len()]) by {
        if j >= head.len() + fills.len() {
            if j < head.len() + fills.len() + cancels.len() {
                assert(ps[j] == cancels[j - head.len() - fills.len()]);
            } else {
                assert(ps[j] == tail[j - head.len() - fills.len() - cancels.len()]);
            }
        }
    }
    let start = Walk::start(taker.remaining);
    lemma_levels_ordered(start, taker, scratch, book.side(!taker.is_buy), 0, !taker.is_buy);
    assert(!precedes(
        !taker.is_buy,
        w.fills[j - head.len()].price,
        w.fills[i - head.len()].price,
    ));
}

/// Round trip on a side: queueing an order under an identifier that is
/// new to the side and taking that identifier off again gives the side
/// back.
pub proof fn lemma_side_insert_remove(levels: Seq<LevelView>, is_bid: bool, order: OrderView)
    requires
        side_wf(levels, is_bid),
        !side_has(levels, order.id),
    ensures
        side_has(side_insert(levels, is_bid, order), order.id),
        side_remove_at(
            side_insert(levels, is_bid, order),
            locate(side_insert(levels, is_bid, order), order.id).0,
            locate(side_insert(levels, is_bid, order), order.id).1,
        ) == levels,
{
    let k = rank(levels, is_bid, order.price);
    let after = side_insert(levels, is_bid, order);
    lemma_rank_split(levels, is_bid, order.price);
    if has_level(levels, is_bid, order.price) {
        let n = levels[k].orders.len() as int;
        assert(at(after, k, n, order.id));
        let (k1, j1) = locate(after, order.id);
        assert(at(after, k1, j1, order.id));
        assert(k1 == k && j1 == n) by {
            if k1 != k {
                assert(at(levels, k1, j1, order.id));
            } else if j1 != n {
                assert(at(levels, k1, j1, order.id));
            }
        }
        assert(levels[k].orders.push(order).remove(n) =~= levels[k].orders);
        assert(side_remove_at(after, k, n) =~= levels);
    } else {
        assert(at(after, k, 0, order.id));
        let (k1, j1) = locate(after, order.id);
        assert(at(after, k1, j1, order.id));
        assert(k1 == k && j1 == 0) by {
            if k1 < k {
                assert(at(levels, k1, j1, order.id));
            } else if k1 > k {
                assert(after[k1] == levels[k1 - 1]);
                assert(at(levels, k1 - 1, j1, order.id));
            }
        }
        assert(side_remove_at(after, k, 0) =~= levels);
    }
}

/// Insert then cancel: where the instruction for an insert rests the
/// order untouched, cancelling its identifier next gives a delete, and
/// applying the two in turn gives the book back.
pub proof fn lemma_insert_then_cancel(
    book: BookView,
    scratch: Map<Seq<char>, u64>,
    taker: OrderView,
)
    requires
        book.wf(),
        taker.remaining > 0,
        eval_insert_spec(book, scratch, taker).0 == InstructionView::Single(
            PrimitiveView::Insert(taker, taker.remaining),
        ),
        !(scratch.contains_key(taker.id) && scratch[taker.id] == 0),
    ensures
        ({
            let (insert, scratch1) = eval_insert_spec(book, scratch, taker);
            let book1 = book.apply_seq(insert.prims());
            let (cancel, _) = eval_cancel_spec(book1, scratch1, taker.id);
            &&& cancel == InstructionView::Single(
                PrimitiveView::Delete(taker.id, Msg::UserCancelled),
            )
            &&& book1.apply_seq(cancel.prims()) == book
        }),
{
    let (insert, scratch1) = eval_insert_spec(book, scratch, taker);
    let w = final_walk(book, scratch, taker);
    assert(!book.contains(taker.id));
    assert(w.fills.len() == 0 && w.cancels.len() == 0) by {
        if w.fills.len() > 0 || w.cancels.len() > 0 {
            let multi = taker_fill(taker, w.fills) + maker_fills(w.fills) + maker_cancels(w.cancels)
                + resting_tail(taker, w.remaining);
            assert(insert == InstructionView::Multi(multi));
        }
    }
    assert(scratch1 == scratch);
    let ps = insert.prims();
    lemma_apply_one(book, PrimitiveView::Insert(taker, taker.remaining));
    assert(taker.filled(0) == taker);
    let book1 = book.apply_seq(ps);
    assert(book1 == book.insert(taker));
    lemma_side_insert_remove(book.side(taker.is_buy), taker.is_buy, taker);
    let (cancel, _) = eval_cancel_spec(book1, scratch1, taker.id);
    assert(book1.contains(taker.id));
    let cs = cancel.prims();
    lemma_apply_one(book1, PrimitiveView::Delete(taker.id, Msg::UserCancelled));
    assert(book1.apply_seq(cs) == book1.remove(taker.id));
}

/// The order `a` rests ahead of the order `b` in one level of the side.
pub open spec fn ahead(levels: Seq<LevelView>, a: Seq<char>, b: Seq<char>) -> bool {
    exists|k: int, i: int, j: int| #[trigger] at(levels, k, i, a) && #[trigger] at(levels, k, j, b) && i < j
}

/// The primitive fills or deletes the resting order `id`.
pub open spec fn touches(p: PrimitiveView, id: Seq<char>) -> bool {
    match p {
        PrimitiveView::Fill(target, _, _, _, false) => target == id,
        PrimitiveView::Delete(target, _) => target == id,
        _ => false,
    }
}

proof fn lemma_ahead_after_remove(levels: Seq<LevelView>, kc: int, jc: int, a: Seq<char>, b: Seq<char>)
    requires
        ahead(levels, a, b),
        0 <= kc < levels.len(),
        0 <= jc < levels[kc].orders.len(),
        levels[kc].orders[jc].id != a,
        levels[kc].orders[jc].id != b,
    ensures
        ahead(side_remove_at(levels, kc, jc), a, b),
{
    let (k, i, j) = choose|k: int, i: int, j: int| #[trigger]
        at(levels, k, i, a) && #[trigger] at(levels, k, j, b) && i < j;
    let after = side_remove_at(levels, kc, jc);
    if levels[kc].orders.len() == 1 {
        let k1 = if k < kc {
            k
        } else {
            k - 1
        };
        assert(after[k1] == levels[k]);
        assert(at(after, k1, i, a) && at(after, k1, j, b));
    } else if k != kc {
        assert(at(after, k, i, a) && at(after, k, j, b));
    } else {
        let i1 = if i < jc {
            i
        } else {
            i - 1
        };
        let j1 = if j < jc {
            j
        } else {
            j - 1
        };
        assert(after[k].orders[i1] == levels[k].orders[i]);
        assert(after[k].orders[j1] == levels[k].orders[j]);
        assert(at(after, k, i1, a) && at(after, k, j1, b));
    }
}

proof fn lemma_ahead_after_insert(
    levels: Seq<LevelView>,
    is_bid: bool,
    order: OrderView,
    a: Seq<char>,
    b: Seq<char>,
)
    requires
        ahead(levels, a, b),
        sorted(levels, is_bid),
    ensures
        ahead(side_insert(levels, is_bid, order), a, b),
{
    let (k, i, j) = choose|k: int, i: int, j: int| #[trigger]
        at(levels, k, i, a) && #[trigger] at(levels, k, j, b) && i < j;
    let after = side_insert(levels, is_bid, order);
    let k0 = rank(levels, is_bid, order.price);
    lemma_rank_split(levels, is_bid, order.price);
    if has_level(levels, is_bid, order.price) {
        assert(at(after, k, i, a) && at(after, k, j, b));
    } else {
        let k1 = if k < k0 {
            k
        } else {
            k + 1
        };
        assert(after[k1] == levels[k]);
        assert(at(after, k1, i, a) && at(after, k1, j, b));
    }
}

/// Time priority is kept: of two orders resting in one level, the one
/// ahead stays ahead through every primitive that fills or deletes
/// neither of them.
pub proof fn lemma_fifo_kept(
    book: BookView,
    p: PrimitiveView,
    is_bid: bool,
    a: Seq<char>,
    b: Seq<char>,
)
    requires
        book.wf(),
        book.accepts(p),
        ahead(book.side(is_bid), a, b),
        !touches(p, a),
        !touches(p, b),
    ensures
        ahead(book.apply_spec(p).side(is_bid), a, b),
{
    let levels = book.side(is_bid);
    match p {
        PrimitiveView::Insert(order, remaining) => {
            if remaining > 0 && order.is_buy == is_bid {
                lemma_ahead_after_insert(
                    levels,
                    is_bid,
                    order.filled((order.remaining - remaining) as u64),
                    a,
                    b,
                );
            }
        },
        PrimitiveView::Fill(id, _, _, quantity, is_taker) => {
            if !is_taker && side_has(levels, id) && (is_bid || !side_has(book.bids, id)) {
                let (kc, jc) = locate(levels, id);
                assert(at(levels, kc, jc, id));
                if levels[kc].orders[jc].remaining == quantity {
                    lemma_ahead_after_remove(levels, kc, jc, a, b);
                } else {
                    let (k, i, j) = choose|k: int, i: int, j: int| #[trigger]
                        at(levels, k, i, a) && #[trigger] at(levels, k, j, b) && i < j;
                    let after = book.apply_spec(p).side(is_bid);
                    assert(at(after, k, i, a) && at(after, k, j, b));
                }
            }
        },
        PrimitiveView::Delete(id, _) => {
            if side_has(levels, id) && (is_bid || !side_has(book.bids, id)) {
                let (kc, jc) = locate(levels, id);
                assert(at(levels, kc, jc, id));
                lemma_ahead_after_remove(levels, kc, jc, a, b);
            }
        },
        PrimitiveView::NoOp(_, _) => {},
    }
}

/// Time priority is given by arrival: an order that comes to rest stands
/// behind every order that rested at its price on its side before it.
pub proof fn lemma_fifo_new_order_last(
    book: BookView,
    order: OrderView,
    remaining: u64,
    k: int,
    j: int,
)
    requires
        book.wf(),
        remaining > 0,
        book.accepts(PrimitiveView::Insert(order, remaining)),
        0 <= k < book.side(order.is_buy).len(),
        0 <= j < book.side(order.is_buy)[k].orders.len(),
        book.side(order.is_buy)[k].price == order.price,
    ensures
        ahead(
            book.apply_spec(PrimitiveView::Insert(order, remaining)).side(order.is_buy),
            book.side(order.is_buy)[k].orders[j].id,
            order.id,
        ),
{
    let levels = book.side(order.is_buy);
    let rested = order.filled((order.remaining - remaining) as u64);
    let after = side_insert(levels, order.is_buy, rested);
    crate::side::lemma_rank_of_level(levels, order.is_buy, k);
    assert(at(after, k, j, levels[k].orders[j].id));
    assert(at(after, k, levels[k].orders.len() as int, order.id));
}

/// Time priority is kept through any sequence of primitives: of two
/// orders resting in one level, the one ahead stays ahead as long as no
/// primitive fills or deletes either of them.
pub proof fn lemma_fifo_kept_through(
    book: BookView,
    ps: Seq<PrimitiveView>,
    is_bid: bool,
    a: Seq<char>,
    b: Seq<char>,
)
    requires
        book.wf(),
        book.accepts_seq(ps),
        ahead(book.side(is_bid), a, b),
        forall|k: int| 0 <= k < ps.len() ==> !touches(#[trigger] ps[k], a) && !touches(ps[k], b),
    ensures
        ahead(book.apply_seq(ps).side(is_bid), a, b),
    decreases ps.len(),
{
    if ps.len() > 0 {
        let init = ps.drop_last();
        assert forall|k: int| 0 <= k < init.len() implies !touches(#[trigger] init[k], a)
            && !touches(init[k], b) by {
            assert(init[k] == ps[k]);
        }
        lemma_fifo_kept_through(book, init, is_bid, a, b);
        crate::batch::lemma_apply_seq_keeps_wf(book, init);
        assert(ps.last() == ps[ps.len() - 1]);
        lemma_fifo_kept(book.apply_seq(init), ps.last(), is_bid, a, b);
    }
}

} // verus!