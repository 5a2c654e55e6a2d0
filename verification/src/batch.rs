//! The book as a batch sees it: how the scratch index makes the
//! evaluation of a batch against an unchanging book agree with taking
//! its operations one by one.

use crate::eval::{
    available, commit_cancels, commit_fills, eval_insert_spec, eval_op_spec, eval_ops_spec, gone, maker_cancels, maker_fills, meet, out_of_reach, resting_tail, settle,
    taker_fill, walk_levels, walk_orders, FillView, Halt, InstructionView, Msg, OpView,
    PrimitiveView, Walk,
};
use crate::level::LevelView;
use crate::ob::{
    at, lemma_accepts_concat, lemma_apply_concat, lemma_apply_one, locate, side_has, side_wf,
    BookView,
};
use crate::order::OrderView;
use crate::resting::{
    can_place, lemma_book_fill_commute, lemma_book_remove_commute, lemma_place_all,
    lemma_walk_past_all, place_all,
};
use crate::side::{level_total, side_remove_at, sorted};
use vstd::prelude::*;

verus! {

/// The resting order `order` with what the scratch index says is left of it.
pub open spec fn shown(scratch: Map<Seq<char>, u64>, order: OrderView) -> OrderView {
    OrderView { remaining: available(scratch, order), ..order }
}

/// The orders of a level as a batch with the scratch index `scratch`
/// sees them: those with something left, each with what is left of it.
pub open spec fn project_orders(orders: Seq<OrderView>, scratch: Map<Seq<char>, u64>) -> Seq<
    OrderView,
>
    decreases orders.len(),
{
    if orders.len() == 0 {
        Seq::empty()
    } else if available(scratch, orders.last()) > 0 {
        project_orders(orders.drop_last(), scratch).push(shown(scratch, orders.last()))
    } else {
        project_orders(orders.drop_last(), scratch)
    }
}

/// The levels of a side as a batch sees them: those with an order left.
pub open spec fn project_side(levels: Seq<LevelView>, scratch: Map<Seq<char>, u64>) -> Seq<
    LevelView,
>
    decreases levels.len(),
{
    if levels.len() == 0 {
        Seq::empty()
    } else if project_orders(levels[0].orders, scratch).len() > 0 {
        seq![
            LevelView {
                price: levels[0].price,
                orders: project_orders(levels[0].orders, scratch),
            },
        ] + project_side(levels.drop_first(), scratch)
    } else {
        project_side(levels.drop_first(), scratch)
    }
}

/// The book as a batch with the scratch index `scratch` sees it.
pub open spec fn project(book: BookView, scratch: Map<Seq<char>, u64>) -> BookView {
    BookView { bids: project_side(book.bids, scratch), asks: project_side(book.asks, scratch) }
}

/// No two of the orders share an identifier.
pub open spec fn distinct_ids(orders: Seq<OrderView>) -> bool {
    forall|i: int, j: int|
        0 <= i < j < orders.len() ==> (#[trigger] orders[i]).id != (#[trigger] orders[j]).id
}

/// Every order a batch sees is an order of the level with something left.
pub proof fn lemma_orders_origin(orders: Seq<OrderView>, scratch: Map<Seq<char>, u64>, i: int) -> (m:
    int)
    requires
        0 <= i < project_orders(orders, scratch).len(),
    ensures
        0 <= m < orders.len(),
        available(scratch, orders[m]) > 0,
        project_orders(orders, scratch)[i] == shown(scratch, orders[m]),
    decreases orders.len(),
{
    let init = orders.drop_last();
    if available(scratch, orders.last()) > 0 && i == project_orders(init, scratch).len() {
        orders.len() - 1
    } else {
        lemma_orders_origin(init, scratch, i)
    }
}

/// Every order of the level with something left is seen by the batch.
pub proof fn lemma_orders_survivor(orders: Seq<OrderView>, scratch: Map<Seq<char>, u64>, m: int) -> (i:
    int)
    requires
        0 <= m < orders.len(),
        available(scratch, orders[m]) > 0,
    ensures
        0 <= i < project_orders(orders, scratch).len(),
        project_orders(orders, scratch)[i] == shown(scratch, orders[m]),
    decreases orders.len(),
{
    let init = orders.drop_last();
    if m == orders.len() - 1 {
        project_orders(init, scratch).len() as int
    } else {
        lemma_orders_survivor(init, scratch, m)
    }
}

/// Two scratch indexes that leave the same of each order show the same orders.
pub proof fn lemma_orders_same(
    orders: Seq<OrderView>,
    first: Map<Seq<char>, u64>,
    second: Map<Seq<char>, u64>,
)
    requires
        forall|m: int|
            0 <= m < orders.len() ==> available(first, #[trigger] orders[m]) == available(
                second,
                orders[m],
            ),
    ensures
        project_orders(orders, first) == project_orders(orders, second),
    decreases orders.len(),
{
    if orders.len() > 0 {
        let init = orders.drop_last();
        assert forall|m: int| 0 <= m < init.len() implies available(first, #[trigger] init[m])
            == available(second, init[m]) by {
            assert(init[m] == orders[m]);
        }
        lemma_orders_same(init, first, second);
        assert(orders.last() == orders[orders.len() - 1]);
    }
}

/// With an empty scratch index the batch sees the orders as they are.
pub proof fn lemma_orders_identity(orders: Seq<OrderView>)
    requires
        forall|m: int| 0 <= m < orders.len() ==> (#[trigger] orders[m]).remaining > 0,
    ensures
        project_orders(orders, Map::empty()) == orders,
    decreases orders.len(),
{
    if orders.len() > 0 {
        let init = orders.drop_last();
        assert forall|m: int| 0 <= m < init.len() implies (#[trigger] init[m]).remaining > 0 by {
            assert(init[m] == orders[m]);
        }
        lemma_orders_identity(init);
        assert(orders.last() == orders[orders.len() - 1]);
        assert(shown(Map::empty(), orders.last()) == orders.last());
        assert(init.push(orders.last()) =~= orders);
    }
}

/// Setting what is left of one order in the scratch index changes what
/// the batch sees at that order's place only: the order is gone if
/// nothing is left, else it shows what is left.
pub proof fn lemma_orders_update(
    orders: Seq<OrderView>,
    scratch: Map<Seq<char>, u64>,
    at_place: int,
    left: u64,
)
    requires
        distinct_ids(orders),
        0 <= at_place < project_orders(orders, scratch).len(),
    ensures
        ({
            let seen = project_orders(orders, scratch);
            let id = seen[at_place].id;
            project_orders(orders, scratch.insert(id, left)) == if left == 0 {
                seen.remove(at_place)
            } else {
                seen.update(at_place, OrderView { remaining: left, ..seen[at_place] })
            }
        }),
    decreases orders.len(),
{
    let seen = project_orders(orders, scratch);
    let id = seen[at_place].id;
    let after = scratch.insert(id, left);
    let init = orders.drop_last();
    let last = orders.last();
    let seen_init = project_orders(init, scratch);
    assert(last == orders[orders.len() - 1]);
    assert(distinct_ids(init)) by {
        assert forall|i: int, j: int| 0 <= i < j < init.len() implies (#[trigger] init[i]).id != (
        #[trigger] init[j]).id by {
            assert(init[i] == orders[i] && init[j] == orders[j]);
        }
    }
    if available(scratch, last) > 0 && at_place == seen_init.len() {
        assert forall|m: int| 0 <= m < init.len() implies available(after, #[trigger] init[m])
            == available(scratch, init[m]) by {
            assert(init[m] == orders[m]);
        }
        lemma_orders_same(init, after, scratch);
        if left == 0 {
            assert(seen.remove(at_place) =~= seen_init);
        } else {
            assert(seen.update(at_place, OrderView { remaining: left, ..seen[at_place] })
                =~= seen_init.push(shown(after, last)));
        }
    } else {
        let m = lemma_orders_origin(init, scratch, at_place);
        assert(init[m] == orders[m]);
        assert(last.id != id);
        lemma_orders_update(init, scratch, at_place, left);
        if available(scratch, last) > 0 {
            if left == 0 {
                assert(seen.remove(at_place) =~= seen_init.remove(at_place).push(
                    shown(scratch, last),
                ));
            } else {
                assert(seen.update(at_place, OrderView { remaining: left, ..seen[at_place] })
                    =~= seen_init.update(
                    at_place,
                    OrderView { remaining: left, ..seen_init[at_place] },
                ).push(shown(scratch, last)));
            }
        }
    }
}

proof fn lemma_side_wf_rest(levels: Seq<LevelView>, is_bid: bool)
    requires
        side_wf(levels, is_bid),
        levels.len() > 0,
    ensures
        side_wf(levels.drop_first(), is_bid),
        distinct_ids(levels[0].orders),
        forall|k: int, j: int, m: int|
            0 <= k < levels.len() - 1 && 0 <= j < levels[k + 1].orders.len() && 0 <= m
                < levels[0].orders.len() ==> (#[trigger] levels.drop_first()[k].orders[j]).id != (
            #[trigger] levels[0].orders[m]).id,
{
    let rest = levels.drop_first();
    assert forall|i: int, j: int| 0 <= i < j < rest.len() implies crate::side::precedes(
        is_bid,
        (#[trigger] rest[i]).price,
        (#[trigger] rest[j]).price,
    ) by {
        assert(rest[i] == levels[i + 1] && rest[j] == levels[j + 1]);
    }
    assert forall|k: int| 0 <= k < rest.len() implies (#[trigger] rest[k]).orders.len() > 0 by {
        assert(rest[k] == levels[k + 1]);
    }
    assert forall|k: int, j: int| 0 <= k < rest.len() && 0 <= j < rest[k].orders.len() implies {
        &&& (#[trigger] rest[k].orders[j]).price == rest[k].price
        &&& rest[k].orders[j].is_buy == is_bid
        &&& rest[k].orders[j].remaining > 0
    } by {
        assert(rest[k].orders[j] == levels[k + 1].orders[j]);
    }
    assert forall|id: Seq<char>, k1: int, j1: int, k2: int, j2: int|
        #[trigger] at(rest, k1, j1, id) && #[trigger] at(rest, k2, j2, id) implies k1 == k2 && j1
        == j2 by {
        assert(at(levels, k1 + 1, j1, id) && at(levels, k2 + 1, j2, id));
    }
    assert forall|i: int, j: int| 0 <= i < j < levels[0].orders.len() implies (
    #[trigger] levels[0].orders[i]).id != (#[trigger] levels[0].orders[j]).id by {
        let id = levels[0].orders[i].id;
        if levels[0].orders[j].id == id {
            assert(at(levels, 0, i, id) && at(levels, 0, j, id));
        }
    }
    assert forall|k: int, j: int, m: int|
        0 <= k < levels.len() - 1 && 0 <= j < levels[k + 1].orders.len() && 0 <= m
            < levels[0].orders.len() implies (#[trigger] rest[k].orders[j]).id != (
    #[trigger] levels[0].orders[m]).id by {
        let id = levels[0].orders[m].id;
        if rest[k].orders[j].id == id {
            assert(at(levels, 0, m, id) && at(levels, k + 1, j, id));
        }
    }
}

/// Every order a batch sees on a side is an order of the side with
/// something left, at its level's price.
pub proof fn lemma_side_origin(levels: Seq<LevelView>, scratch: Map<Seq<char>, u64>, k: int, j: int) -> (r:
    (int, int))
    requires
        0 <= k < project_side(levels, scratch).len(),
        0 <= j < project_side(levels, scratch)[k].orders.len(),
    ensures
        0 <= r.0 < levels.len(),
        0 <= r.1 < levels[r.0].orders.len(),
        available(scratch, levels[r.0].orders[r.1]) > 0,
        project_side(levels, scratch)[k].orders[j] == shown(scratch, levels[r.0].orders[r.1]),
        project_side(levels, scratch)[k].price == levels[r.0].price,
    decreases levels.len(),
{
    let rest = levels.drop_first();
    let first = project_orders(levels[0].orders, scratch);
    if first.len() > 0 && k == 0 {
        let m = lemma_orders_origin(levels[0].orders, scratch, j);
        (0, m)
    } else {
        let shift = if first.len() > 0 {
            1int
        } else {
            0int
        };
        let r = lemma_side_origin(rest, scratch, k - shift, j);
        assert(rest[r.0] == levels[r.0 + 1]);
        (r.0 + 1, r.1)
    }
}

/// Every order of a side with something left is seen by the batch.
pub proof fn lemma_side_survivor(levels: Seq<LevelView>, scratch: Map<Seq<char>, u64>, k: int, j: int) -> (r:
    (int, int))
    requires
        0 <= k < levels.len(),
        0 <= j < levels[k].orders.len(),
        available(scratch, levels[k].orders[j]) > 0,
    ensures
        0 <= r.0 < project_side(levels, scratch).len(),
        0 <= r.1 < project_side(levels, scratch)[r.0].orders.len(),
        project_side(levels, scratch)[r.0].orders[r.1] == shown(scratch, levels[k].orders[j]),
    decreases levels.len(),
{
    let rest = levels.drop_first();
    let first = project_orders(levels[0].orders, scratch);
    if k == 0 {
        let i = lemma_orders_survivor(levels[0].orders, scratch, j);
        (0, i)
    } else {
        assert(rest[k - 1] == levels[k]);
        let r = lemma_side_survivor(rest, scratch, k - 1, j);
        if first.len() > 0 {
            (r.0 + 1, r.1)
        } else {
            r
        }
    }
}

/// Two scratch indexes that leave the same of each order show the same side.
pub proof fn lemma_side_same(
    levels: Seq<LevelView>,
    first: Map<Seq<char>, u64>,
    second: Map<Seq<char>, u64>,
)
    requires
        forall|k: int, j: int|
            0 <= k < levels.len() && 0 <= j < levels[k].orders.len() ==> available(
                first,
                #[trigger] levels[k].orders[j],
            ) == available(second, levels[k].orders[j]),
    ensures
        project_side(levels, first) == project_side(levels, second),
    decreases levels.len(),
{
    if levels.len() > 0 {
        let rest = levels.drop_first();
        assert forall|k: int, j: int| 0 <= k < rest.len() && 0 <= j < rest[k].orders.len() implies available(
            first,
            #[trigger] rest[k].orders[j],
        ) == available(second, rest[k].orders[j]) by {
            assert(rest[k].orders[j] == levels[k + 1].orders[j]);
        }
        lemma_side_same(rest, first, second);
        lemma_orders_same(levels[0].orders, first, second);
    }
}

/// With an empty scratch index the batch sees a well-formed side as it is.
pub proof fn lemma_side_identity(levels: Seq<LevelView>, is_bid: bool)
    requires
        side_wf(levels, is_bid),
    ensures
        project_side(levels, Map::empty()) == levels,
    decreases levels.len(),
{
    if levels.len() > 0 {
        lemma_side_wf_rest(levels, is_bid);
        lemma_side_identity(levels.drop_first(), is_bid);
        lemma_orders_identity(levels[0].orders);
        assert(seq![levels[0]] + levels.drop_first() =~= levels);
    }
}

/// Setting what is left of one order in the scratch index changes what
/// the batch sees of the side at that order's place only: the order is
/// gone if nothing is left, and its level with it if it was alone; else
/// the order shows what is left.
pub proof fn lemma_side_update(
    levels: Seq<LevelView>,
    is_bid: bool,
    scratch: Map<Seq<char>, u64>,
    k: int,
    j: int,
    left: u64,
)
    requires
        side_wf(levels, is_bid),
        0 <= k < project_side(levels, scratch).len(),
        0 <= j < project_side(levels, scratch)[k].orders.len(),
    ensures
        ({
            let seen = project_side(levels, scratch);
            let id = seen[k].orders[j].id;
            project_side(levels, scratch.insert(id, left)) == if left == 0 {
                side_remove_at(seen, k, j)
            } else {
                seen.update(
                    k,
                    LevelView {
                        price: seen[k].price,
                        orders: seen[k].orders.update(
                            j,
                            OrderView { remaining: left, ..seen[k].orders[j] },
                        ),
                    },
                )
            }
        }),
    decreases levels.len(),
{
    let seen = project_side(levels, scratch);
    let id = seen[k].orders[j].id;
    let after = scratch.insert(id, left);
    let rest = levels.drop_first();
    let first = project_orders(levels[0].orders, scratch);
    let seen_rest = project_side(rest, scratch);
    lemma_side_wf_rest(levels, is_bid);
    if first.len() > 0 && k == 0 {
        let m = lemma_orders_origin(levels[0].orders, scratch, j);
        assert forall|k2: int, j2: int|
            0 <= k2 < rest.len() && 0 <= j2 < rest[k2].orders.len() implies available(
            after,
            #[trigger] rest[k2].orders[j2],
        ) == available(scratch, rest[k2].orders[j2]) by {
            assert(rest[k2].orders[j2].id != levels[0].orders[m].id);
        }
        lemma_side_same(rest, after, scratch);
        lemma_orders_update(levels[0].orders, scratch, j, left);
        if left == 0 {
            if first.len() == 1 {
                assert(first.remove(j).len() == 0);
                assert(seen.remove(0) =~= seen_rest);
            } else {
                assert(first.remove(j).len() > 0);
                assert(seen.update(
                    0,
                    LevelView { price: seen[0].price, orders: seen[0].orders.remove(j) },
                ) =~= seq![LevelView { price: levels[0].price, orders: first.remove(j) }]
                    + seen_rest);
            }
        } else {
            let changed = first.update(j, OrderView { remaining: left, ..first[j] });
            assert(seen.update(0, LevelView { price: seen[0].price, orders: changed })
                =~= seq![LevelView { price: levels[0].price, orders: changed }] + seen_rest);
        }
    } else {
        let shift = if first.len() > 0 {
            1int
        } else {
            0int
        };
        assert(seen_rest[k - shift] == seen[k]);
        let r = lemma_side_origin(rest, scratch, k - shift, j);
        assert forall|m: int| 0 <= m < levels[0].orders.len() implies available(
            after,
            #[trigger] levels[0].orders[m],
        ) == available(scratch, levels[0].orders[m]) by {
            assert(rest[r.0].orders[r.1].id != levels[0].orders[m].id);
        }
        lemma_orders_same(levels[0].orders, after, scratch);
        lemma_side_update(rest, is_bid, scratch, k - shift, j, left);
        if first.len() > 0 {
            let head = seq![LevelView { price: levels[0].price, orders: first }];
            if left == 0 {
                if seen[k].orders.len() == 1 {
                    assert(seen.remove(k) =~= head + seen_rest.remove(k - 1));
                } else {
                    assert(seen.update(
                        k,
                        LevelView { price: seen[k].price, orders: seen[k].orders.remove(j) },
                    ) =~= head + seen_rest.update(
                        k - 1,
                        LevelView { price: seen[k].price, orders: seen[k].orders.remove(j) },
                    ));
                }
            } else {
                let changed = LevelView {
                    price: seen[k].price,
                    orders: seen[k].orders.update(
                        j,
                        OrderView { remaining: left, ..seen[k].orders[j] },
                    ),
                };
                assert(seen.update(k, changed) =~= head + seen_rest.update(k - 1, changed));
            }
        }
    }
}

/// An identifier that the batch sees on a side rests on that side.
pub proof fn lemma_seen_rests(levels: Seq<LevelView>, scratch: Map<Seq<char>, u64>, id: Seq<char>)
    requires
        side_has(project_side(levels, scratch), id),
    ensures
        side_has(levels, id),
{
    let (k, j) = locate(project_side(levels, scratch), id);
    assert(at(project_side(levels, scratch), k, j, id));
    let r = lemma_side_origin(levels, scratch, k, j);
    assert(at(levels, r.0, r.1, id));
}

/// A scratch entry for an identifier that does not rest on a side
/// changes nothing of what the batch sees of that side.
pub proof fn lemma_side_untouched(
    levels: Seq<LevelView>,
    scratch: Map<Seq<char>, u64>,
    id: Seq<char>,
    left: u64,
)
    requires
        !side_has(levels, id),
    ensures
        project_side(levels, scratch.insert(id, left)) == project_side(levels, scratch),
{
    assert forall|k: int, j: int|
        0 <= k < levels.len() && 0 <= j < levels[k].orders.len() implies available(
        scratch.insert(id, left),
        #[trigger] levels[k].orders[j],
    ) == available(scratch, levels[k].orders[j]) by {
        if levels[k].orders[j].id == id {
            assert(at(levels, k, j, id));
        }
    }
    lemma_side_same(levels, scratch.insert(id, left), scratch);
}

/// Marking an identifier as gone in the scratch index takes it off the
/// side as the batch sees it, if the batch sees it there.
pub proof fn lemma_side_remove(
    levels: Seq<LevelView>,
    is_bid: bool,
    scratch: Map<Seq<char>, u64>,
    id: Seq<char>,
)
    requires
        side_wf(levels, is_bid),
    ensures
        ({
            let seen = project_side(levels, scratch);
            project_side(levels, scratch.insert(id, 0)) == if side_has(seen, id) {
                side_remove_at(seen, locate(seen, id).0, locate(seen, id).1)
            } else {
                seen
            }
        }),
{
    let seen = project_side(levels, scratch);
    if side_has(seen, id) {
        let (k, j) = locate(seen, id);
        assert(at(seen, k, j, id));
        lemma_side_update(levels, is_bid, scratch, k, j, 0);
    } else {
        assert forall|k: int, j: int|
            0 <= k < levels.len() && 0 <= j < levels[k].orders.len() implies available(
            scratch.insert(id, 0),
            #[trigger] levels[k].orders[j],
        ) == available(scratch, levels[k].orders[j]) by {
            if levels[k].orders[j].id == id && available(scratch, levels[k].orders[j]) > 0 {
                let r = lemma_side_survivor(levels, scratch, k, j);
                assert(at(seen, r.0, r.1, id));
            }
        }
        lemma_side_same(levels, scratch.insert(id, 0), scratch);
    }
}

/// To a batch, deleting an order is marking it as gone in the scratch index.
pub proof fn lemma_project_remove(book: BookView, scratch: Map<Seq<char>, u64>, id: Seq<char>)
    requires
        book.wf(),
    ensures
        project(book, scratch).remove(id) == project(book, scratch.insert(id, 0)),
{
    let seen = project(book, scratch);
    lemma_side_remove(book.bids, true, scratch, id);
    lemma_side_remove(book.asks, false, scratch, id);
    if side_has(seen.bids, id) {
        lemma_seen_rests(book.bids, scratch, id);
        lemma_side_untouched(book.asks, scratch, id, 0);
    } else if side_has(seen.asks, id) {
        lemma_seen_rests(book.asks, scratch, id);
        lemma_side_untouched(book.bids, scratch, id, 0);
    }
}

/// To a batch, filling an order it sees is writing what the fill leaves
/// of it into the scratch index.
pub proof fn lemma_project_fill(
    book: BookView,
    scratch: Map<Seq<char>, u64>,
    id: Seq<char>,
    quantity: u64,
)
    requires
        book.wf(),
        project(book, scratch).contains(id),
        quantity <= project(book, scratch).order(id).remaining,
    ensures
        project(book, scratch).fill(id, quantity) == project(
            book,
            scratch.insert(id, (project(book, scratch).order(id).remaining - quantity) as u64),
        ),
{
    let seen = project(book, scratch);
    let left = (seen.order(id).remaining - quantity) as u64;
    if side_has(seen.bids, id) {
        let (k, j) = locate(seen.bids, id);
        assert(at(seen.bids, k, j, id));
        lemma_side_update(book.bids, true, scratch, k, j, left);
        lemma_seen_rests(book.bids, scratch, id);
        lemma_side_untouched(book.asks, scratch, id, left);
        assert(seen.bids[k].orders[j].filled(quantity) == (OrderView {
            remaining: left,
            ..seen.bids[k].orders[j]
        }));
    } else {
        let (k, j) = locate(seen.asks, id);
        assert(at(seen.asks, k, j, id));
        lemma_side_update(book.asks, false, scratch, k, j, left);
        lemma_seen_rests(book.asks, scratch, id);
        lemma_side_untouched(book.bids, scratch, id, left);
        assert(seen.asks[k].orders[j].filled(quantity) == (OrderView {
            remaining: left,
            ..seen.asks[k].orders[j]
        }));
    }
}

/// With an empty scratch index the batch sees a well-formed book as it is.
pub proof fn lemma_project_identity(book: BookView)
    requires
        book.wf(),
    ensures
        project(book, Map::empty()) == book,
{
    lemma_side_identity(book.bids, true);
    lemma_side_identity(book.asks, false);
}

proof fn lemma_walk_orders_snoc(
    w: Walk,
    taker: OrderView,
    scratch: Map<Seq<char>, u64>,
    price: u64,
    orders: Seq<OrderView>,
    from: int,
)
    requires
        0 <= from < orders.len(),
    ensures
        walk_orders(w, taker, scratch, price, orders, from) == meet(
            walk_orders(w, taker, scratch, price, orders.drop_last(), from),
            taker,
            scratch,
            price,
            orders.last(),
        ),
    decreases orders.len() - from,
{
    let init = orders.drop_last();
    if from < orders.len() - 1 {
        assert(init[from] == orders[from]);
        lemma_walk_orders_snoc(
            meet(w, taker, scratch, price, orders[from]),
            taker,
            scratch,
            price,
            orders,
            from + 1,
        );
    } else {
        let met = meet(w, taker, scratch, price, orders[from]);
        assert(orders.last() == orders[from]);
        assert(walk_orders(met, taker, scratch, price, orders, from + 1) == met);
        assert(walk_orders(w, taker, scratch, price, init, from) == w);
    }
}

/// Walking a level with a scratch index is walking what the batch sees of it.
pub proof fn lemma_walk_orders_seen(
    w: Walk,
    taker: OrderView,
    scratch: Map<Seq<char>, u64>,
    price: u64,
    orders: Seq<OrderView>,
)
    ensures
        walk_orders(w, taker, scratch, price, orders, 0) == walk_orders(
            w,
            taker,
            Map::empty(),
            price,
            project_orders(orders, scratch),
            0,
        ),
    decreases orders.len(),
{
    if orders.len() > 0 {
        let init = orders.drop_last();
        let last = orders.last();
        lemma_walk_orders_snoc(w, taker, scratch, price, orders, 0);
        lemma_walk_orders_seen(w, taker, scratch, price, init);
        if available(scratch, last) > 0 {
            let seen = project_orders(orders, scratch);
            lemma_walk_orders_snoc(w, taker, Map::empty(), price, seen, 0);
            assert(seen.drop_last() =~= project_orders(init, scratch));
            assert(seen.last() == shown(scratch, last));
        }
    }
}

proof fn lemma_walk_levels_shift(
    w: Walk,
    taker: OrderView,
    scratch: Map<Seq<char>, u64>,
    levels: Seq<LevelView>,
    from: int,
)
    requires
        levels.len() > 0,
        0 <= from,
    ensures
        walk_levels(w, taker, scratch, levels, from + 1) == walk_levels(
            w,
            taker,
            scratch,
            levels.drop_first(),
            from,
        ),
    decreases levels.len() - from,
{
    let rest = levels.drop_first();
    if from < rest.len() {
        assert(rest[from] == levels[from + 1]);
        if !out_of_reach(taker, rest[from].price) {
            lemma_walk_levels_shift(
                walk_orders(w, taker, scratch, rest[from].price, rest[from].orders, 0),
                taker,
                scratch,
                levels,
                from + 1,
            );
        }
    }
}

proof fn lemma_seen_levels_hold_orders(levels: Seq<LevelView>, scratch: Map<Seq<char>, u64>, k: int)
    requires
        0 <= k < project_side(levels, scratch).len(),
    ensures
        project_side(levels, scratch)[k].orders.len() > 0,
    decreases levels.len(),
{
    let first = project_orders(levels[0].orders, scratch);
    if first.len() > 0 {
        if k > 0 {
            lemma_seen_levels_hold_orders(levels.drop_first(), scratch, k - 1);
        }
    } else {
        lemma_seen_levels_hold_orders(levels.drop_first(), scratch, k);
    }
}

/// Walking a side with a scratch index is walking what the batch sees of it.
pub proof fn lemma_walk_levels_seen(
    w: Walk,
    taker: OrderView,
    scratch: Map<Seq<char>, u64>,
    levels: Seq<LevelView>,
)
    requires
        sorted(levels, !taker.is_buy),
    ensures
        walk_levels(w, taker, scratch, levels, 0) == walk_levels(
            w,
            taker,
            Map::empty(),
            project_side(levels, scratch),
            0,
        ),
    decreases levels.len(),
{
    if levels.len() > 0 {
        let rest = levels.drop_first();
        let first = project_orders(levels[0].orders, scratch);
        let seen = project_side(levels, scratch);
        let seen_rest = project_side(rest, scratch);
        assert(sorted(rest, !taker.is_buy)) by {
            assert forall|i: int, j: int| 0 <= i < j < rest.len() implies crate::side::precedes(
                !taker.is_buy,
                (#[trigger] rest[i]).price,
                (#[trigger] rest[j]).price,
            ) by {
                assert(rest[i] == levels[i + 1] && rest[j] == levels[j + 1]);
            }
        }
        if out_of_reach(taker, levels[0].price) {
            if first.len() == 0 && seen_rest.len() > 0 {
                lemma_seen_levels_hold_orders(rest, scratch, 0);
                let r = lemma_side_origin(rest, scratch, 0, 0);
                assert(rest[r.0] == levels[r.0 + 1]);
                assert(crate::side::precedes(!taker.is_buy, levels[0].price, levels[r.0 + 1].price));
            }
        } else {
            let after = walk_orders(w, taker, scratch, levels[0].price, levels[0].orders, 0);
            lemma_walk_levels_shift(after, taker, scratch, levels, 0);
            lemma_walk_levels_seen(after, taker, scratch, rest);
            lemma_walk_orders_seen(w, taker, scratch, levels[0].price, levels[0].orders);
            if first.len() > 0 {
                lemma_walk_levels_shift(after, taker, Map::empty(), seen, 0);
                assert(seen.drop_first() =~= seen_rest);
            }
        }
    }
}

/// Place `(k1, j1)` of a side comes before place `(k, j)` on a walk.
pub open spec fn earlier(k1: int, j1: int, k: int, j: int) -> bool {
    k1 < k || (k1 == k && j1 < j)
}

/// The fill records a maker that the walk met before place `(k, j)`:
/// its identifier and what the scratch index left of it.
pub open spec fn fill_true(
    levels: Seq<LevelView>,
    scratch: Map<Seq<char>, u64>,
    fill: FillView,
    k: int,
    j: int,
) -> bool {
    exists|k1: int, j1: int| #[trigger]
        at(levels, k1, j1, fill.id) && earlier(k1, j1, k, j) && fill.available == available(
            scratch,
            levels[k1].orders[j1],
        )
}

/// The fills record makers met before place `(k, j)`, each once, and
/// each takes something and no more than was left of its maker.
pub open spec fn fills_true(
    fills: Seq<FillView>,
    levels: Seq<LevelView>,
    scratch: Map<Seq<char>, u64>,
    k: int,
    j: int,
) -> bool {
    &&& forall|i: int|
        0 <= i < fills.len() ==> fill_true(levels, scratch, #[trigger] fills[i], k, j) && 0
            < fills[i].quantity <= fills[i].available
    &&& forall|a: int, b: int|
        0 <= a < b < fills.len() ==> (#[trigger] fills[a]).id != (#[trigger] fills[b]).id
}

proof fn lemma_fills_true_later(
    fills: Seq<FillView>,
    levels: Seq<LevelView>,
    scratch: Map<Seq<char>, u64>,
    k: int,
    j: int,
    k2: int,
    j2: int,
)
    requires
        fills_true(fills, levels, scratch, k, j),
        k < k2 || (k == k2 && j <= j2),
    ensures
        fills_true(fills, levels, scratch, k2, j2),
{
    assert forall|i: int| 0 <= i < fills.len() implies fill_true(
        levels,
        scratch,
        #[trigger] fills[i],
        k2,
        j2,
    ) by {
        let (k1, j1) = choose|k1: int, j1: int| #[trigger]
            at(levels, k1, j1, fills[i].id) && earlier(k1, j1, k, j) && fills[i].available
                == available(scratch, levels[k1].orders[j1]);
        assert(at(levels, k1, j1, fills[i].id) && earlier(k1, j1, k2, j2));
    }
}

proof fn lemma_orders_true(
    w: Walk,
    taker: OrderView,
    scratch: Map<Seq<char>, u64>,
    levels: Seq<LevelView>,
    is_bid: bool,
    k: int,
    from: int,
)
    requires
        side_wf(levels, is_bid),
        0 <= k < levels.len(),
        0 <= from <= levels[k].orders.len(),
        fills_true(w.fills, levels, scratch, k, from),
    ensures
        fills_true(
            walk_orders(w, taker, scratch, levels[k].price, levels[k].orders, from).fills,
            levels,
            scratch,
            k,
            levels[k].orders.len() as int,
        ),
    decreases levels[k].orders.len() - from,
{
    if from < levels[k].orders.len() {
        let maker = levels[k].orders[from];
        let after = meet(w, taker, scratch, levels[k].price, maker);
        lemma_fills_true_later(w.fills, levels, scratch, k, from, k, from + 1);
        if after.fills != w.fills {
            assert(after.fills.drop_last() =~= w.fills);
            let fill = after.fills.last();
            assert(at(levels, k, from, fill.id) && earlier(k, from, k, from + 1));
            assert forall|i: int| 0 <= i < after.fills.len() implies fill_true(
                levels,
                scratch,
                #[trigger] after.fills[i],
                k,
                from + 1,
            ) && 0 < after.fills[i].quantity <= after.fills[i].available by {
                if i < w.fills.len() {
                    assert(after.fills[i] == w.fills[i]);
                }
            }
            assert forall|a: int, b: int| 0 <= a < b < after.fills.len() implies (
            #[trigger] after.fills[a]).id != (#[trigger] after.fills[b]).id by {
                assert(after.fills[a] == w.fills[a]);
                if b < w.fills.len() {
                    assert(after.fills[b] == w.fills[b]);
                } else {
                    let (k1, j1) = choose|k1: int, j1: int| #[trigger]
                        at(levels, k1, j1, w.fills[a].id) && earlier(k1, j1, k, from)
                            && w.fills[a].available == available(scratch, levels[k1].orders[j1]);
                    if w.fills[a].id == fill.id {
                        assert(at(levels, k1, j1, fill.id) && at(levels, k, from, fill.id));
                    }
                }
            }
        }
        lemma_orders_true(after, taker, scratch, levels, is_bid, k, from + 1);
    }
}

proof fn lemma_levels_true(
    w: Walk,
    taker: OrderView,
    scratch: Map<Seq<char>, u64>,
    levels: Seq<LevelView>,
    is_bid: bool,
    from: int,
)
    requires
        side_wf(levels, is_bid),
        0 <= from <= levels.len(),
        fills_true(w.fills, levels, scratch, from, 0),
    ensures
        fills_true(
            walk_levels(w, taker, scratch, levels, from).fills,
            levels,
            scratch,
            levels.len() as int,
            0,
        ),
    decreases levels.len() - from,
{
    if from < levels.len() && !out_of_reach(taker, levels[from].price) {
        lemma_orders_true(w, taker, scratch, levels, is_bid, from, 0);
        let after = walk_orders(w, taker, scratch, levels[from].price, levels[from].orders, 0);
        lemma_fills_true_later(
            after.fills,
            levels,
            scratch,
            from,
            levels[from].orders.len() as int,
            from + 1,
            0,
        );
        lemma_levels_true(after, taker, scratch, levels, is_bid, from + 1);
    } else {
        lemma_fills_true_later(w.fills, levels, scratch, from, 0, levels.len() as int, 0);
    }
}

proof fn lemma_commit_fills_elsewhere(
    scratch: Map<Seq<char>, u64>,
    fills: Seq<FillView>,
    order: OrderView,
)
    requires
        forall|i: int| 0 <= i < fills.len() ==> (#[trigger] fills[i]).id != order.id,
    ensures
        available(commit_fills(scratch, fills), order) == available(scratch, order),
    decreases fills.len(),
{
    if fills.len() > 0 {
        let init = fills.drop_last();
        assert forall|i: int| 0 <= i < init.len() implies (#[trigger] init[i]).id != order.id by {
            assert(init[i] == fills[i]);
        }
        lemma_commit_fills_elsewhere(scratch, init, order);
        assert(fills.last() == fills[fills.len() - 1]);
    }
}

/// To a batch, applying the maker fills of a walk is writing what they
/// leave of their makers into the scratch index.
pub proof fn lemma_apply_fills(
    book: BookView,
    scratch: Map<Seq<char>, u64>,
    fills: Seq<FillView>,
    is_bid: bool,
)
    requires
        book.wf(),
        fills_true(fills, book.side(is_bid), scratch, book.side(is_bid).len() as int, 0),
    ensures
        project(book, scratch).accepts_seq(maker_fills(fills)),
        project(book, scratch).apply_seq(maker_fills(fills)) == project(
            book,
            commit_fills(scratch, fills),
        ),
    decreases fills.len(),
{
    let levels = book.side(is_bid);
    if fills.len() > 0 {
        let init = fills.drop_last();
        let fill = fills.last();
        assert(fill == fills[fills.len() - 1]);
        assert(fills_true(init, levels, scratch, levels.len() as int, 0)) by {
            assert forall|i: int| 0 <= i < init.len() implies fill_true(
                levels,
                scratch,
                #[trigger] init[i],
                levels.len() as int,
                0,
            ) && 0 < init[i].quantity <= init[i].available by {
                assert(init[i] == fills[i]);
            }
            assert forall|a: int, b: int| 0 <= a < b < init.len() implies (#[trigger] init[a]).id
                != (#[trigger] init[b]).id by {
                assert(init[a] == fills[a] && init[b] == fills[b]);
            }
        }
        lemma_apply_fills(book, scratch, init, is_bid);
        let mid = commit_fills(scratch, init);
        let seen = project(book, mid);
        let (k, j) = choose|k: int, j: int| #[trigger]
            at(levels, k, j, fill.id) && earlier(k, j, levels.len() as int, 0) && fill.available
                == available(scratch, levels[k].orders[j]);
        let maker = levels[k].orders[j];
        assert forall|i: int| 0 <= i < init.len() implies (#[trigger] init[i]).id != maker.id by {
            assert(init[i] == fills[i]);
        }
        lemma_commit_fills_elsewhere(scratch, init, maker);
        let r = lemma_side_survivor(levels, mid, k, j);
        assert(at(project_side(levels, mid), r.0, r.1, fill.id));
        assert(side_has(seen.side(is_bid), fill.id));
        assert(!side_has(seen.side(!is_bid), fill.id)) by {
            if side_has(seen.side(!is_bid), fill.id) {
                lemma_seen_rests(book.side(!is_bid), mid, fill.id);
                assert(at(levels, k, j, fill.id));
                assert(side_has(levels, fill.id));
            }
        }
        let (k2, j2) = locate(seen.side(is_bid), fill.id);
        assert(at(seen.side(is_bid), k2, j2, fill.id));
        let o = lemma_side_origin(levels, mid, k2, j2);
        assert(at(levels, o.0, o.1, fill.id) && at(levels, k, j, fill.id));
        assert(seen.order(fill.id) == shown(mid, maker));
        lemma_project_fill(book, mid, fill.id, fill.quantity);
        assert(maker_fills(fills).drop_last() =~= maker_fills(init));
    } else {
        assert(maker_fills(fills) =~= Seq::empty());
    }
}

/// To a batch, applying the cancels of a walk is marking their makers as
/// gone in the scratch index.
pub proof fn lemma_apply_cancels(
    book: BookView,
    scratch: Map<Seq<char>, u64>,
    cancels: Seq<Seq<char>>,
)
    requires
        book.wf(),
    ensures
        project(book, scratch).accepts_seq(maker_cancels(cancels)),
        project(book, scratch).apply_seq(maker_cancels(cancels)) == project(
            book,
            commit_cancels(scratch, cancels),
        ),
    decreases cancels.len(),
{
    if cancels.len() > 0 {
        let init = cancels.drop_last();
        lemma_apply_cancels(book, scratch, init);
        lemma_project_remove(book, commit_cancels(scratch, init), cancels.last());
        assert(maker_cancels(cancels).drop_last() =~= maker_cancels(init));
    } else {
        assert(maker_cancels(cancels) =~= Seq::empty());
    }
}

/// The cancels name makers of the side.
pub open spec fn cancels_rest(cancels: Seq<Seq<char>>, levels: Seq<LevelView>) -> bool {
    forall|i: int| 0 <= i < cancels.len() ==> side_has(levels, #[trigger] cancels[i])
}

/// The makers that the walk cancels, along the way or at its early end,
/// are makers of the side.
pub open spec fn names_rest(w: Walk, levels: Seq<LevelView>) -> bool {
    &&& cancels_rest(w.cancels, levels)
    &&& w.halt matches Halt::CancelBoth(maker) ==> side_has(levels, maker)
}

proof fn lemma_orders_cancels(
    w: Walk,
    taker: OrderView,
    scratch: Map<Seq<char>, u64>,
    levels: Seq<LevelView>,
    k: int,
    from: int,
)
    requires
        0 <= k < levels.len(),
        0 <= from,
        names_rest(w, levels),
    ensures
        names_rest(
            walk_orders(w, taker, scratch, levels[k].price, levels[k].orders, from),
            levels,
        ),
    decreases levels[k].orders.len() - from,
{
    if from < levels[k].orders.len() {
        let after = meet(w, taker, scratch, levels[k].price, levels[k].orders[from]);
        assert(names_rest(after, levels)) by {
            assert(at(levels, k, from, levels[k].orders[from].id));
            if after.cancels != w.cancels {
                assert forall|i: int| 0 <= i < after.cancels.len() implies side_has(
                    levels,
                    #[trigger] after.cancels[i],
                ) by {
                    if i < w.cancels.len() {
                        assert(after.cancels[i] == w.cancels[i]);
                    }
                }
            }
        }
        lemma_orders_cancels(after, taker, scratch, levels, k, from + 1);
    }
}

proof fn lemma_levels_cancels(
    w: Walk,
    taker: OrderView,
    scratch: Map<Seq<char>, u64>,
    levels: Seq<LevelView>,
    from: int,
)
    requires
        0 <= from,
        names_rest(w, levels),
    ensures
        names_rest(walk_levels(w, taker, scratch, levels, from), levels),
    decreases levels.len() - from,
{
    if from < levels.len() && !out_of_reach(taker, levels[from].price) {
        lemma_orders_cancels(w, taker, scratch, levels, from, 0);
        lemma_levels_cancels(
            walk_orders(w, taker, scratch, levels[from].price, levels[from].orders, 0),
            taker,
            scratch,
            levels,
            from + 1,
        );
    }
}

proof fn lemma_commit_cancels_elsewhere(
    scratch: Map<Seq<char>, u64>,
    cancels: Seq<Seq<char>>,
    order: OrderView,
)
    requires
        forall|i: int| 0 <= i < cancels.len() ==> #[trigger] cancels[i] != order.id,
    ensures
        available(commit_cancels(scratch, cancels), order) == available(scratch, order),
    decreases cancels.len(),
{
    if cancels.len() > 0 {
        let init = cancels.drop_last();
        assert forall|i: int| 0 <= i < init.len() implies #[trigger] init[i] != order.id by {
            assert(init[i] == cancels[i]);
        }
        lemma_commit_cancels_elsewhere(scratch, init, order);
        assert(cancels.last() == cancels[cancels.len() - 1]);
    }
}

/// The walk of an insert touches the opposite side only: to the batch
/// the taker's own side looks after the walk as it did before.
pub proof fn lemma_own_side_untouched(
    book: BookView,
    scratch: Map<Seq<char>, u64>,
    taker: OrderView,
)
    requires
        book.wf(),
    ensures
        ({
            let w = walk_levels(
                Walk::start(taker.remaining),
                taker,
                scratch,
                book.side(!taker.is_buy),
                0,
            );
            project_side(
                book.side(taker.is_buy),
                commit_cancels(commit_fills(scratch, w.fills), w.cancels),
            ) == project_side(book.side(taker.is_buy), scratch)
        }),
{
    let levels = book.side(!taker.is_buy);
    let own = book.side(taker.is_buy);
    let start = Walk::start(taker.remaining);
    let w = walk_levels(start, taker, scratch, levels, 0);
    let after = commit_cancels(commit_fills(scratch, w.fills), w.cancels);
    assert(fills_true(start.fills, levels, scratch, 0, 0));
    lemma_levels_true(start, taker, scratch, levels, !taker.is_buy, 0);
    lemma_levels_cancels(start, taker, scratch, levels, 0);
    assert forall|k: int, j: int|
        0 <= k < own.len() && 0 <= j < own[k].orders.len() implies available(
        after,
        #[trigger] own[k].orders[j],
    ) == available(scratch, own[k].orders[j]) by {
        let order = own[k].orders[j];
        assert(at(own, k, j, order.id));
        assert(side_has(own, order.id));
        assert forall|i: int| 0 <= i < w.fills.len() implies (#[trigger] w.fills[i]).id
            != order.id by {
            let (k1, j1) = choose|k1: int, j1: int| #[trigger]
                at(levels, k1, j1, w.fills[i].id) && earlier(k1, j1, levels.len() as int, 0)
                    && w.fills[i].available == available(scratch, levels[k1].orders[j1]);
            assert(side_has(levels, w.fills[i].id));
        }
        lemma_commit_cancels_elsewhere(commit_fills(scratch, w.fills), w.cancels, order);
        lemma_commit_fills_elsewhere(scratch, w.fills, order);
    }
    lemma_side_same(own, after, scratch);
}

/// The fills and cancels of a walk can be applied to the book as the
/// batch sees it, and leave the book as the batch sees it afterwards.
pub proof fn lemma_apply_trunk(book: BookView, scratch: Map<Seq<char>, u64>, taker: OrderView)
    requires
        book.wf(),
    ensures
        ({
            let w = walk_levels(
                Walk::start(taker.remaining),
                taker,
                scratch,
                book.side(!taker.is_buy),
                0,
            );
            let trunk = taker_fill(taker, w.fills) + maker_fills(w.fills) + maker_cancels(
                w.cancels,
            );
            &&& project(book, scratch).accepts_seq(trunk)
            &&& project(book, scratch).apply_seq(trunk) == project(
                book,
                commit_cancels(commit_fills(scratch, w.fills), w.cancels),
            )
        }),
{
    let seen = project(book, scratch);
    let levels = book.side(!taker.is_buy);
    let start = Walk::start(taker.remaining);
    let w = walk_levels(start, taker, scratch, levels, 0);
    let head = taker_fill(taker, w.fills);
    let fills = maker_fills(w.fills);
    let cancels = maker_cancels(w.cancels);
    lemma_apply_concat(seen, head + fills, cancels);
    lemma_apply_concat(seen, head, fills);
    lemma_accepts_concat(seen, head + fills, cancels);
    lemma_accepts_concat(seen, head, fills);
    assert(seen.apply_seq(head) == seen && seen.accepts_seq(head)) by {
        if head.len() > 0 {
            lemma_apply_one(seen, head[0]);
            assert(head =~= seq![head[0]]);
        }
    }
    assert(fills_true(start.fills, levels, scratch, 0, 0));
    lemma_levels_true(start, taker, scratch, levels, !taker.is_buy, 0);
    lemma_apply_fills(book, scratch, w.fills, !taker.is_buy);
    lemma_apply_cancels(book, commit_fills(scratch, w.fills), w.cancels);
}

/// No primitive of the instruction brings an order to rest.
pub open spec fn rests_nothing(instruction: InstructionView) -> bool {
    forall|k: int|
        0 <= k < instruction.prims().len() ==> !(#[trigger] instruction.prims()[k] matches PrimitiveView::Insert(
            _,
            remaining,
        ) && remaining > 0)
}

/// The book after the operations `ops` have been taken one by one: each
/// is evaluated with an empty scratch index against the book as the
/// operations before it left it, and its instruction is applied at once.
pub open spec fn step_by_step(book: BookView, ops: Seq<OpView>) -> BookView
    decreases ops.len(),
{
    if ops.len() == 0 {
        book
    } else {
        let before = step_by_step(book, ops.drop_last());
        before.apply_seq(eval_op_spec(before, Map::empty(), ops.last()).0.prims())
    }
}

/// The operation does not insert under the identifier of an order that
/// rests on the book and is gone for the batch.
pub open spec fn fresh_name(book: BookView, scratch: Map<Seq<char>, u64>, op: OpView) -> bool {
    op matches OpView::Insert(order) ==> !(book.contains(order.id) && gone(
        book,
        scratch,
        order.id,
    ))
}

/// No instruction of the batch brings an order to rest, and no insert of
/// the batch comes under the identifier of an order that the batch has
/// used up before.
pub open spec fn quiet(book: BookView, ops: Seq<OpView>) -> bool
    decreases ops.len(),
{
    ops.len() == 0 || {
        &&& quiet(book, ops.drop_last())
        &&& fresh_name(book, eval_ops_spec(book, Map::empty(), ops.drop_last()).1, ops.last())
        &&& rests_nothing(
            eval_op_spec(
                book,
                eval_ops_spec(book, Map::empty(), ops.drop_last()).1,
                ops.last(),
            ).0,
        )
    }
}

/// The batch sees an identifier exactly where it rests with something left.
pub proof fn lemma_seen_contains(book: BookView, scratch: Map<Seq<char>, u64>, id: Seq<char>)
    requires
        book.wf(),
    ensures
        project(book, scratch).contains(id) <==> !gone(book, scratch, id),
{
    let seen = project(book, scratch);
    if side_has(seen.bids, id) {
        let (k, j) = locate(seen.bids, id);
        assert(at(seen.bids, k, j, id));
        let r = lemma_side_origin(book.bids, scratch, k, j);
        assert(at(book.bids, r.0, r.1, id));
    }
    if side_has(seen.asks, id) {
        let (k, j) = locate(seen.asks, id);
        assert(at(seen.asks, k, j, id));
        let r = lemma_side_origin(book.asks, scratch, k, j);
        assert(at(book.asks, r.0, r.1, id));
    }
    if !gone(book, scratch, id) {
        if side_has(book.bids, id) {
            let (k, j) = locate(book.bids, id);
            assert(at(book.bids, k, j, id));
            let r = lemma_side_survivor(book.bids, scratch, k, j);
            assert(at(seen.bids, r.0, r.1, id));
        } else {
            let (k, j) = locate(book.asks, id);
            assert(at(book.asks, k, j, id));
            let r = lemma_side_survivor(book.asks, scratch, k, j);
            assert(at(seen.asks, r.0, r.1, id));
        }
    }
}

/// One operation of a batch, evaluated against the unchanging book with
/// the batch's scratch index, gives the instruction that a fresh
/// evaluation against the book as the batch sees it gives.
pub proof fn lemma_op_same(book: BookView, scratch: Map<Seq<char>, u64>, op: OpView)
    requires
        book.wf(),
        fresh_name(book, scratch, op),
    ensures
        eval_op_spec(project(book, scratch), Map::empty(), op).0 == eval_op_spec(
            book,
            scratch,
            op,
        ).0,
{
    let seen = project(book, scratch);
    match op {
        OpView::Delete(id) => {
            lemma_seen_contains(book, scratch, id);
        },
        OpView::Insert(taker) => {
            let levels = book.side(!taker.is_buy);
            let start = Walk::start(taker.remaining);
            let w = walk_levels(start, taker, scratch, levels, 0);
            lemma_seen_contains(book, scratch, taker.id);
            lemma_walk_levels_seen(start, taker, scratch, levels);
            assert(seen.side(!taker.is_buy) == project_side(levels, scratch));
            if !book.contains(taker.id) {
                assert(eval_insert_spec(seen, Map::empty(), taker).0 == settle(
                    w,
                    taker,
                    scratch,
                ).0);
            }
        },
    }
}

/// Applying to the book as the batch sees it an instruction of the batch
/// that brings no order to rest gives the book as the batch sees it
/// afterwards.
pub proof fn lemma_op_step(book: BookView, scratch: Map<Seq<char>, u64>, op: OpView)
    requires
        book.wf(),
        rests_nothing(eval_op_spec(book, scratch, op).0),
    ensures
        project(book, scratch).accepts_seq(eval_op_spec(book, scratch, op).0.prims()),
        project(book, scratch).apply_seq(eval_op_spec(book, scratch, op).0.prims()) == project(
            book,
            eval_op_spec(book, scratch, op).1,
        ),
{
    let seen = project(book, scratch);
    let (instruction, after) = eval_op_spec(book, scratch, op);
    match op {
        OpView::Delete(id) => {
            if gone(book, scratch, id) {
                lemma_apply_one(seen, PrimitiveView::NoOp(id, Msg::OrderNotFound));
            } else {
                lemma_apply_one(seen, PrimitiveView::Delete(id, Msg::UserCancelled));
                lemma_project_remove(book, scratch, id);
            }
        },
        OpView::Insert(taker) => {
            let levels = book.side(!taker.is_buy);
            let start = Walk::start(taker.remaining);
            let w = walk_levels(start, taker, scratch, levels, 0);
            if book.contains(taker.id) {
                lemma_apply_one(seen, PrimitiveView::NoOp(taker.id, Msg::OrderAlreadyExists));
            } else {
                match w.halt {
                    Halt::PostOnly => {
                        lemma_apply_one(seen, PrimitiveView::NoOp(taker.id, Msg::PostOnlyFilled));
                    },
                    Halt::CancelTaker => {
                        lemma_apply_one(seen, PrimitiveView::NoOp(taker.id, Msg::StpCancelTaker));
                    },
                    Halt::CancelBoth(maker) => {
                        let first = PrimitiveView::NoOp(taker.id, Msg::StpCancelBoth);
                        let second = PrimitiveView::Delete(maker, Msg::StpCancelBoth);
                        assert(instruction.prims() =~= seq![first] + seq![second]);
                        lemma_apply_concat(seen, seq![first], seq![second]);
                        lemma_accepts_concat(seen, seq![first], seq![second]);
                        lemma_apply_one(seen, first);
                        lemma_apply_one(seen, second);
                        lemma_project_remove(book, scratch, maker);
                    },
                    Halt::Running => {
                        if taker.tif is FOK && w.remaining > 0 {
                            lemma_apply_one(
                                seen,
                                PrimitiveView::NoOp(taker.id, Msg::FOKNotFilled),
                            );
                        } else if w.fills.len() > 0 || w.cancels.len() > 0 {
                            let head = taker_fill(taker, w.fills);
                            let fills = maker_fills(w.fills);
                            let cancels = maker_cancels(w.cancels);
                            let tail = resting_tail(taker, w.remaining);
                            assert(instruction.prims() == head + fills + cancels + tail);
                            lemma_apply_concat(seen, head + fills + cancels, tail);
                            lemma_accepts_concat(seen, head + fills + cancels, tail);
                            lemma_apply_trunk(book, scratch, taker);
                            let done = project(book, after);
                            if tail.len() > 0 {
                                let k = head.len() + fills.len() + cancels.len();
                                assert(instruction.prims()[k as int] == tail[0]);
                                assert(tail =~= seq![tail[0]]);
                                lemma_apply_one(done, tail[0]);
                                lemma_project_remove(book, after, taker.id);
                                lemma_side_untouched(book.bids, after, taker.id, 0);
                                lemma_side_untouched(book.asks, after, taker.id, 0);
                            }
                        } else if taker.tif is IOC {
                            lemma_apply_one(seen, PrimitiveView::NoOp(taker.id, Msg::IOCNoFill));
                        } else {
                            assert(instruction.prims()[0] == PrimitiveView::Insert(
                                taker,
                                w.remaining,
                            ));
                            lemma_apply_one(seen, PrimitiveView::Insert(taker, w.remaining));
                        }
                    },
                }
            }
        },
    }
}

/// A batch that brings no order to rest is its operations taken one by
/// one: the instructions that a fresh evaluator gives for the batch
/// against the unchanging book can be applied in order, and that leaves
/// the book that taking the operations one by one leaves, each with a
/// fresh evaluator against the book of the moment. That book is the
/// first book as the scratch index shows it after the batch.
pub proof fn lemma_quiet_batch(book: BookView, ops: Seq<OpView>)
    requires
        book.wf(),
        quiet(book, ops),
    ensures
        book.accepts_all(eval_ops_spec(book, Map::empty(), ops).0),
        book.apply_all(eval_ops_spec(book, Map::empty(), ops).0) == step_by_step(book, ops),
        step_by_step(book, ops) == project(book, eval_ops_spec(book, Map::empty(), ops).1),
    decreases ops.len(),
{
    if ops.len() == 0 {
        lemma_project_identity(book);
    } else {
        let init = ops.drop_last();
        let (before, mid) = eval_ops_spec(book, Map::empty(), init);
        let (last, after) = eval_op_spec(book, mid, ops.last());
        lemma_quiet_batch(book, init);
        lemma_op_same(book, mid, ops.last());
        lemma_op_step(book, mid, ops.last());
        assert(before.push(last).drop_last() =~= before);
    }
}

/// What an evaluator gives for an operation can be applied to the book
/// as its batch sees it, as long as the level that an inserted order
/// would join has room for all the order came with.
pub proof fn lemma_instruction_applies(book: BookView, scratch: Map<Seq<char>, u64>, op: OpView)
    requires
        book.wf(),
        op matches OpView::Insert(order) ==> level_total(
            project(book, scratch).side(order.is_buy),
            order.is_buy,
            order.price,
        ) + order.remaining <= u64::MAX,
    ensures
        project(book, scratch).accepts_seq(eval_op_spec(book, scratch, op).0.prims()),
{
    let seen = project(book, scratch);
    let (instruction, after) = eval_op_spec(book, scratch, op);
    match op {
        OpView::Delete(id) => {
            lemma_apply_one(seen, instruction.prims()[0]);
            assert(instruction.prims() =~= seq![instruction.prims()[0]]);
        },
        OpView::Insert(taker) => {
            let w = walk_levels(
                Walk::start(taker.remaining),
                taker,
                scratch,
                book.side(!taker.is_buy),
                0,
            );
            crate::theorems::lemma_conservation(book, scratch, taker);
            crate::eval::lemma_commit_nothing(scratch);
            let rests = PrimitiveView::Insert(taker, w.remaining);
            let done = project(book, after);
            if !book.contains(taker.id) && w.halt is Running && !(taker.tif is FOK && w.remaining
                > 0) {
                lemma_seen_contains(book, after, taker.id);
                lemma_own_side_untouched(book, scratch, taker);
                assert(done.accepts(rests));
            }
            if book.contains(taker.id) || !(w.halt is Running) || (taker.tif is FOK && w.remaining
                > 0) || (w.fills.len() == 0 && w.cancels.len() == 0) {
                if instruction is Single {
                    lemma_apply_one(seen, instruction.prims()[0]);
                    assert(instruction.prims() =~= seq![instruction.prims()[0]]);
                } else {
                    let first = instruction.prims()[0];
                    let second = instruction.prims()[1];
                    assert(instruction.prims() =~= seq![first] + seq![second]);
                    lemma_accepts_concat(seen, seq![first], seq![second]);
                    lemma_apply_one(seen, first);
                    lemma_apply_one(seen, second);
                }
            } else {
                let trunk = taker_fill(taker, w.fills) + maker_fills(w.fills) + maker_cancels(
                    w.cancels,
                );
                let tail = resting_tail(taker, w.remaining);
                lemma_accepts_concat(seen, trunk, tail);
                lemma_apply_trunk(book, scratch, taker);
                if tail.len() > 0 {
                    assert(tail =~= seq![tail[0]]);
                    lemma_apply_one(done, tail[0]);
                }
            }
        },
    }
}

/// What a fresh evaluator gives for an operation against a book can be
/// applied to that book, as long as the level that an inserted order
/// would join has room for all the order came with.
pub proof fn lemma_fresh_instruction_applies(book: BookView, op: OpView)
    requires
        book.wf(),
        op matches OpView::Insert(order) ==> level_total(
            book.side(order.is_buy),
            order.is_buy,
            order.price,
        ) + order.remaining <= u64::MAX,
    ensures
        book.accepts_seq(eval_op_spec(book, Map::empty(), op).0.prims()),
{
    lemma_project_identity(book);
    lemma_instruction_applies(book, Map::empty(), op);
}

proof fn lemma_orders_distinct(orders: Seq<OrderView>, scratch: Map<Seq<char>, u64>)
    requires
        distinct_ids(orders),
    ensures
        distinct_ids(project_orders(orders, scratch)),
    decreases orders.len(),
{
    if orders.len() > 0 {
        let init = orders.drop_last();
        let seen = project_orders(orders, scratch);
        let seen_init = project_orders(init, scratch);
        assert(distinct_ids(init)) by {
            assert forall|i: int, j: int| 0 <= i < j < init.len() implies (#[trigger] init[i]).id
                != (#[trigger] init[j]).id by {
                assert(init[i] == orders[i] && init[j] == orders[j]);
            }
        }
        lemma_orders_distinct(init, scratch);
        assert forall|i: int, j: int| 0 <= i < j < seen.len() implies (#[trigger] seen[i]).id != (
        #[trigger] seen[j]).id by {
            assert(seen[i] == seen_init[i]);
            if j < seen_init.len() {
                assert(seen[j] == seen_init[j]);
            } else {
                let m = lemma_orders_origin(init, scratch, i);
                assert(init[m] == orders[m]);
                assert(orders.last() == orders[orders.len() - 1]);
            }
        }
    }
}

/// What a batch sees of a well-formed side is a well-formed side.
pub proof fn lemma_project_side_wf(levels: Seq<LevelView>, is_bid: bool, scratch: Map<Seq<char>, u64>)
    requires
        side_wf(levels, is_bid),
    ensures
        side_wf(project_side(levels, scratch), is_bid),
    decreases levels.len(),
{
    let seen = project_side(levels, scratch);
    if levels.len() > 0 {
        let rest = levels.drop_first();
        let first = project_orders(levels[0].orders, scratch);
        let seen_rest = project_side(rest, scratch);
        let shift = if first.len() > 0 {
            1int
        } else {
            0int
        };
        lemma_side_wf_rest(levels, is_bid);
        lemma_project_side_wf(rest, is_bid, scratch);
        lemma_orders_distinct(levels[0].orders, scratch);
        assert forall|k: int| shift <= k < seen.len() implies (#[trigger] seen[k]) == seen_rest[k
            - shift] by {}
        assert forall|i: int, j: int| 0 <= i < j < seen.len() implies crate::side::precedes(
            is_bid,
            (#[trigger] seen[i]).price,
            (#[trigger] seen[j]).price,
        ) by {
            if i < shift {
                lemma_seen_levels_hold_orders(rest, scratch, j - 1);
                let r = lemma_side_origin(rest, scratch, j - 1, 0);
                assert(rest[r.0] == levels[r.0 + 1]);
                assert(crate::side::precedes(is_bid, levels[0].price, levels[r.0 + 1].price));
            } else {
                assert(crate::side::precedes(
                    is_bid,
                    seen_rest[i - shift].price,
                    seen_rest[j - shift].price,
                ));
            }
        }
        assert forall|k: int| 0 <= k < seen.len() implies (#[trigger] seen[k]).orders.len() > 0 by {
            lemma_seen_levels_hold_orders(levels, scratch, k);
        }
        assert forall|k: int, j: int| 0 <= k < seen.len() && 0 <= j < seen[k].orders.len() implies {
            &&& (#[trigger] seen[k].orders[j]).price == seen[k].price
            &&& seen[k].orders[j].is_buy == is_bid
            &&& seen[k].orders[j].remaining > 0
        } by {
            let r = lemma_side_origin(levels, scratch, k, j);
            assert(levels[r.0].orders[r.1].price == levels[r.0].price);
        }
        assert forall|id: Seq<char>, k1: int, j1: int, k2: int, j2: int|
            #[trigger] at(seen, k1, j1, id) && #[trigger] at(seen, k2, j2, id) implies k1 == k2
            && j1 == j2 by {
            if k1 < shift && k2 < shift {
                if j1 < j2 {
                    assert(first[j1].id != first[j2].id);
                } else if j2 < j1 {
                    assert(first[j2].id != first[j1].id);
                }
            } else if k1 < shift {
                let m = lemma_orders_origin(levels[0].orders, scratch, j1);
                let r = lemma_side_origin(rest, scratch, k2 - 1, j2);
                assert(rest[r.0].orders[r.1].id != levels[0].orders[m].id);
            } else if k2 < shift {
                let m = lemma_orders_origin(levels[0].orders, scratch, j2);
                let r = lemma_side_origin(rest, scratch, k1 - 1, j1);
                assert(rest[r.0].orders[r.1].id != levels[0].orders[m].id);
            } else {
                assert(at(seen_rest, k1 - shift, j1, id) && at(seen_rest, k2 - shift, j2, id));
            }
        }
    }
}

/// What a batch sees of a well-formed book is a well-formed book.
pub proof fn lemma_project_wf(book: BookView, scratch: Map<Seq<char>, u64>)
    requires
        book.wf(),
    ensures
        project(book, scratch).wf(),
{
    lemma_project_side_wf(book.bids, true, scratch);
    lemma_project_side_wf(book.asks, false, scratch);
    assert forall|id: Seq<char>| side_has(project(book, scratch).bids, id) implies !side_has(
        project(book, scratch).asks,
        id,
    ) by {
        lemma_seen_rests(book.bids, scratch, id);
        if side_has(project(book, scratch).asks, id) {
            lemma_seen_rests(book.asks, scratch, id);
        }
    }
}

/// Orders that can come to rest on a book can come to rest on it as a
/// batch sees it.
proof fn lemma_can_place_seen(book: BookView, scratch: Map<Seq<char>, u64>, rested: Seq<OrderView>)
    requires
        book.wf(),
        can_place(book, rested),
    ensures
        project(book, scratch).wf(),
        can_place(project(book, scratch), rested),
{
    lemma_project_wf(book, scratch);
    assert forall|i: int| 0 <= i < rested.len() implies !project(book, scratch).contains(
        (#[trigger] rested[i]).id,
    ) by {
        lemma_seen_contains(book, scratch, rested[i].id);
    }
}

proof fn lemma_can_place_init(book: BookView, rested: Seq<OrderView>)
    requires
        can_place(book, rested),
        rested.len() > 0,
    ensures
        can_place(book, rested.drop_last()),
        forall|i: int| 0 <= i < rested.len() - 1 ==> (#[trigger] rested.drop_last()[i]).id
            != rested.last().id,
{
    let init = rested.drop_last();
    assert forall|i: int| 0 <= i < init.len() implies (#[trigger] init[i]).remaining > 0
        && !book.contains(init[i].id) && init[i].id != rested.last().id by {
        assert(init[i] == rested[i]);
        assert(rested.last() == rested[rested.len() - 1]);
    }
    assert forall|i: int, j: int| 0 <= i < j < init.len() implies (#[trigger] init[i]).id != (
    #[trigger] init[j]).id by {
        assert(init[i] == rested[i] && init[j] == rested[j]);
    }
}

/// Filling a resting order commutes with bringing orders to rest.
proof fn lemma_place_all_fill(
    book: BookView,
    rested: Seq<OrderView>,
    id: Seq<char>,
    quantity: u64,
)
    requires
        book.wf(),
        can_place(book, rested),
        book.contains(id),
    ensures
        place_all(book, rested).fill(id, quantity) == place_all(book.fill(id, quantity), rested),
    decreases rested.len(),
{
    if rested.len() > 0 {
        let init = rested.drop_last();
        let last = rested.last();
        assert(last == rested[rested.len() - 1]);
        lemma_can_place_init(book, rested);
        lemma_place_all(book, init);
        lemma_place_all_fill(book, init, id, quantity);
        let before = place_all(book, init);
        assert(!before.contains(last.id)) by {
            if exists|i: int| 0 <= i < init.len() && (#[trigger] init[i]).id == last.id {
                let i = choose|i: int| 0 <= i < init.len() && (#[trigger] init[i]).id == last.id;
            }
        }
        lemma_book_fill_commute(before, last, id, quantity);
    }
}

/// Deleting an order commutes with bringing other orders to rest.
proof fn lemma_place_all_remove(book: BookView, rested: Seq<OrderView>, id: Seq<char>)
    requires
        book.wf(),
        can_place(book, rested),
        forall|i: int| 0 <= i < rested.len() ==> (#[trigger] rested[i]).id != id,
    ensures
        place_all(book, rested).remove(id) == place_all(book.remove(id), rested),
    decreases rested.len(),
{
    if rested.len() > 0 {
        let init = rested.drop_last();
        let last = rested.last();
        assert(last == rested[rested.len() - 1]);
        lemma_can_place_init(book, rested);
        assert forall|i: int| 0 <= i < init.len() implies (#[trigger] init[i]).id != id by {
            assert(init[i] == rested[i]);
        }
        lemma_place_all(book, init);
        lemma_place_all_remove(book, init, id);
        let before = place_all(book, init);
        assert(!before.contains(last.id)) by {
            if exists|i: int| 0 <= i < init.len() && (#[trigger] init[i]).id == last.id {
                let i = choose|i: int| 0 <= i < init.len() && (#[trigger] init[i]).id == last.id;
            }
        }
        lemma_book_remove_commute(before, last, id);
    }
}

/// The maker fills of a walk do to the book with orders brought to rest
/// on it what they do to the book without them.
proof fn lemma_placed_fills(
    book: BookView,
    scratch: Map<Seq<char>, u64>,
    fills: Seq<FillView>,
    is_bid: bool,
    rested: Seq<OrderView>,
)
    requires
        book.wf(),
        fills_true(fills, book.side(is_bid), scratch, book.side(is_bid).len() as int, 0),
        can_place(book, rested),
    ensures
        place_all(project(book, scratch), rested).apply_seq(maker_fills(fills)) == place_all(
            project(book, commit_fills(scratch, fills)),
            rested,
        ),
    decreases fills.len(),
{
    let levels = book.side(is_bid);
    let seen = project(book, scratch);
    if fills.len() > 0 {
        let init = fills.drop_last();
        let fill = fills.last();
        assert(fill == fills[fills.len() - 1]);
        assert(fills_true(init, levels, scratch, levels.len() as int, 0)) by {
            assert forall|i: int| 0 <= i < init.len() implies fill_true(
                levels,
                scratch,
                #[trigger] init[i],
                levels.len() as int,
                0,
            ) && 0 < init[i].quantity <= init[i].available by {
                assert(init[i] == fills[i]);
            }
            assert forall|a: int, b: int| 0 <= a < b < init.len() implies (#[trigger] init[a]).id
                != (#[trigger] init[b]).id by {
                assert(init[a] == fills[a] && init[b] == fills[b]);
            }
        }
        lemma_placed_fills(book, scratch, init, is_bid, rested);
        lemma_apply_fills(book, scratch, init, is_bid);
        lemma_apply_fills(book, scratch, fills, is_bid);
        assert(maker_fills(fills).drop_last() =~= maker_fills(init));
        let mid = project(book, commit_fills(scratch, init));
        assert(mid.accepts(maker_fills(fills).last()));
        lemma_can_place_seen(book, commit_fills(scratch, init), rested);
        lemma_place_all_fill(mid, rested, fill.id, fill.quantity);
    } else {
        assert(maker_fills(fills) =~= Seq::empty());
    }
}

/// The cancels of a walk do to the book with orders brought to rest on
/// it what they do to the book without them.
proof fn lemma_placed_cancels(
    book: BookView,
    scratch: Map<Seq<char>, u64>,
    cancels: Seq<Seq<char>>,
    rested: Seq<OrderView>,
)
    requires
        book.wf(),
        can_place(book, rested),
        forall|c: int, i: int|
            0 <= c < cancels.len() && 0 <= i < rested.len() ==> #[trigger] cancels[c] != (
            #[trigger] rested[i]).id,
    ensures
        place_all(project(book, scratch), rested).apply_seq(maker_cancels(cancels)) == place_all(
            project(book, commit_cancels(scratch, cancels)),
            rested,
        ),
    decreases cancels.len(),
{
    if cancels.len() > 0 {
        let init = cancels.drop_last();
        let last = cancels.last();
        assert(last == cancels[cancels.len() - 1]);
        assert forall|c: int, i: int|
            0 <= c < init.len() && 0 <= i < rested.len() implies #[trigger] init[c] != (
        #[trigger] rested[i]).id by {
            assert(init[c] == cancels[c]);
        }
        lemma_placed_cancels(book, scratch, init, rested);
        let mid = commit_cancels(scratch, init);
        lemma_can_place_seen(book, mid, rested);
        lemma_place_all_remove(project(book, mid), rested, last);
        lemma_project_remove(book, mid, last);
        assert(maker_cancels(cancels).drop_last() =~= maker_cancels(init));
    } else {
        assert(maker_cancels(cancels) =~= Seq::empty());
    }
}

/// The order that the instruction brings to rest, as it rests.
pub open spec fn rested_of(instruction: InstructionView) -> Option<OrderView> {
    let ps = instruction.prims();
    if ps.len() > 0 {
        match ps.last() {
            PrimitiveView::Insert(order, remaining) => if remaining > 0 {
                Some(order.filled((order.remaining - remaining) as u64))
            } else {
                None
            },
            _ => None,
        }
    } else {
        None
    }
}

/// The orders `rested` and, behind them, the one that the instruction
/// brings to rest.
pub open spec fn with_rested(rested: Seq<OrderView>, instruction: InstructionView) -> Seq<
    OrderView,
> {
    match rested_of(instruction) {
        Some(order) => rested.push(order),
        None => rested,
    }
}

/// The orders that the batch brings to rest, in order.
pub open spec fn rested_by(book: BookView, ops: Seq<OpView>) -> Seq<OrderView>
    decreases ops.len(),
{
    if ops.len() == 0 {
        Seq::empty()
    } else {
        with_rested(
            rested_by(book, ops.drop_last()),
            eval_op_spec(
                book,
                eval_ops_spec(book, Map::empty(), ops.drop_last()).1,
                ops.last(),
            ).0,
        )
    }
}

/// The operation keeps away from the orders `rested`: it does not name
/// one of them, and if it inserts an order of the other direction, each
/// of them is out of that order's reach.
pub open spec fn apart(rested: Seq<OrderView>, op: OpView) -> bool {
    forall|i: int|
        0 <= i < rested.len() ==> match op {
            OpView::Insert(order) => (#[trigger] rested[i]).id != order.id && (rested[i].is_buy
                != order.is_buy ==> out_of_reach(order, rested[i].price)),
            OpView::Delete(id) => rested[i].id != id,
        }
}

/// No operation of the batch meets an order that an earlier operation
/// of the batch has brought to rest, and no insert of the batch comes
/// under the identifier of an order that the batch has used up before.
pub open spec fn calm(book: BookView, ops: Seq<OpView>) -> bool
    decreases ops.len(),
{
    ops.len() == 0 || {
        &&& calm(book, ops.drop_last())
        &&& fresh_name(book, eval_ops_spec(book, Map::empty(), ops.drop_last()).1, ops.last())
        &&& apart(rested_by(book, ops.drop_last()), ops.last())
    }
}

proof fn lemma_placed_contains(
    book: BookView,
    rested: Seq<OrderView>,
    id: Seq<char>,
)
    requires
        book.wf(),
        can_place(book, rested),
        forall|i: int| 0 <= i < rested.len() ==> (#[trigger] rested[i]).id != id,
    ensures
        place_all(book, rested).contains(id) == book.contains(id),
        !book.contains(id) ==> place_all(book, rested).remove(id) == place_all(book, rested),
{
    lemma_place_all(book, rested);
    if exists|i: int| 0 <= i < rested.len() && (#[trigger] rested[i]).id == id {
        let i = choose|i: int| 0 <= i < rested.len() && (#[trigger] rested[i]).id == id;
    }
}

/// One operation of a calm batch: against the book as the batch sees it,
/// with the orders that the batch has brought to rest, a fresh
/// evaluation gives the batch's instruction, and applying it gives the
/// book as the batch sees it afterwards, with the orders brought to rest
/// by then.
proof fn lemma_op_step_placed(
    book: BookView,
    scratch: Map<Seq<char>, u64>,
    op: OpView,
    rested: Seq<OrderView>,
)
    requires
        book.wf(),
        can_place(book, rested),
        fresh_name(book, scratch, op),
        apart(rested, op),
    ensures
        eval_op_spec(place_all(project(book, scratch), rested), Map::empty(), op).0 == eval_op_spec(
            book,
            scratch,
            op,
        ).0,
        can_place(book, with_rested(rested, eval_op_spec(book, scratch, op).0)),
        place_all(project(book, scratch), rested).apply_seq(
            eval_op_spec(book, scratch, op).0.prims(),
        ) == place_all(
            project(book, eval_op_spec(book, scratch, op).1),
            with_rested(rested, eval_op_spec(book, scratch, op).0),
        ),
{
    let seen = project(book, scratch);
    let placed = place_all(seen, rested);
    let (instruction, after) = eval_op_spec(book, scratch, op);
    let ps = instruction.prims();
    lemma_can_place_seen(book, scratch, rested);
    lemma_place_all(seen, rested);
    lemma_op_same(book, scratch, op);
    match op {
        OpView::Delete(id) => {
            lemma_placed_contains(seen, rested, id);
            if gone(book, scratch, id) {
                lemma_apply_one(placed, PrimitiveView::NoOp(id, Msg::OrderNotFound));
            } else {
                lemma_apply_one(placed, PrimitiveView::Delete(id, Msg::UserCancelled));
                lemma_place_all_remove(seen, rested, id);
                lemma_project_remove(book, scratch, id);
            }
        },
        OpView::Insert(taker) => {
            let levels = book.side(!taker.is_buy);
            let start = Walk::start(taker.remaining);
            let w = walk_levels(start, taker, scratch, levels, 0);
            lemma_placed_contains(seen, rested, taker.id);
            lemma_seen_contains(book, scratch, taker.id);
            lemma_walk_past_all(start, taker, Map::empty(), seen, rested);
            lemma_walk_levels_seen(start, taker, scratch, levels);
            assert(seen.side(!taker.is_buy) == project_side(levels, scratch));
            assert(names_rest(start, levels));
            lemma_levels_cancels(start, taker, scratch, levels, 0);
            if book.contains(taker.id) {
                lemma_apply_one(placed, PrimitiveView::NoOp(taker.id, Msg::OrderAlreadyExists));
            } else {
                match w.halt {
                    Halt::PostOnly => {
                        lemma_apply_one(placed, PrimitiveView::NoOp(taker.id, Msg::PostOnlyFilled));
                    },
                    Halt::CancelTaker => {
                        lemma_apply_one(placed, PrimitiveView::NoOp(taker.id, Msg::StpCancelTaker));
                    },
                    Halt::CancelBoth(maker) => {
                        let first = PrimitiveView::NoOp(taker.id, Msg::StpCancelBoth);
                        let second = PrimitiveView::Delete(maker, Msg::StpCancelBoth);
                        assert(ps =~= seq![first] + seq![second]);
                        lemma_apply_concat(placed, seq![first], seq![second]);
                        lemma_apply_one(placed, first);
                        lemma_apply_one(placed, second);
                        assert(book.contains(maker));
                        lemma_place_all_remove(seen, rested, maker);
                        lemma_project_remove(book, scratch, maker);
                    },
                    Halt::Running => {
                        if taker.tif is FOK && w.remaining > 0 {
                            lemma_apply_one(
                                placed,
                                PrimitiveView::NoOp(taker.id, Msg::FOKNotFilled),
                            );
                        } else if w.fills.len() > 0 || w.cancels.len() > 0 {
                            let head = taker_fill(taker, w.fills);
                            let fills = maker_fills(w.fills);
                            let cancels = maker_cancels(w.cancels);
                            let tail = resting_tail(taker, w.remaining);
                            let mid = commit_fills(scratch, w.fills);
                            assert(ps == head + fills + cancels + tail);
                            lemma_apply_concat(placed, head + fills + cancels, tail);
                            lemma_apply_concat(placed, head + fills, cancels);
                            lemma_apply_concat(placed, head, fills);
                            assert(placed.apply_seq(head) == placed) by {
                                if head.len() > 0 {
                                    lemma_apply_one(placed, head[0]);
                                    assert(head =~= seq![head[0]]);
                                }
                            }
                            assert(fills_true(start.fills, levels, scratch, 0, 0));
                            lemma_levels_true(start, taker, scratch, levels, !taker.is_buy, 0);
                            lemma_placed_fills(book, scratch, w.fills, !taker.is_buy, rested);
                            assert forall|c: int, i: int|
                                0 <= c < w.cancels.len() && 0 <= i < rested.len() implies (
                            #[trigger] w.cancels[c]) != (#[trigger] rested[i]).id by {
                                assert(side_has(levels, w.cancels[c]));
                            }
                            lemma_placed_cancels(book, mid, w.cancels, rested);
                            let done = place_all(project(book, after), rested);
                            assert(placed.apply_seq(head + fills + cancels) == done);
                            lemma_can_place_seen(book, after, rested);
                            lemma_placed_contains(project(book, after), rested, taker.id);
                            lemma_seen_contains(book, after, taker.id);
                            if tail.len() > 0 {
                                assert(tail =~= seq![tail[0]]);
                                assert(ps.last() == tail[0]);
                                lemma_apply_one(done, tail[0]);
                                if tail[0] is Insert {
                                    crate::theorems::lemma_conservation(book, scratch, taker);
                                    let rests = taker.filled((taker.remaining - w.remaining) as u64);
                                    assert(rested.push(rests).drop_last() =~= rested);
                                }
                            } else {
                                assert(ps =~= head + fills + cancels);
                                if cancels.len() > 0 {
                                    assert(ps.last() == cancels.last());
                                } else {
                                    assert(ps.last() == fills.last());
                                }
                            }
                        } else if taker.tif is IOC {
                            lemma_apply_one(placed, PrimitiveView::NoOp(taker.id, Msg::IOCNoFill));
                        } else {
                            assert(ps[0] == PrimitiveView::Insert(taker, w.remaining));
                            lemma_apply_one(placed, PrimitiveView::Insert(taker, w.remaining));
                            crate::eval::lemma_commit_nothing(scratch);
                            if w.remaining > 0 {
                                crate::theorems::lemma_conservation(book, scratch, taker);
                                let rests = taker.filled((taker.remaining - w.remaining) as u64);
                                assert(rested.push(rests).drop_last() =~= rested);
                            }
                        }
                    },
                }
            }
        },
    }
}

/// A batch is its operations taken one by one, as long as no operation
/// meets an order that the batch itself has brought to rest: applying in
/// order the instructions that a fresh evaluator gives for the batch
/// against the unchanging book leaves the book that taking the
/// operations one by one leaves, each with a fresh evaluator against the
/// book of the moment. That book is the first book as the scratch index
/// shows it after the batch, with the orders that the batch brought to
/// rest.
pub proof fn lemma_batch_is_step_by_step(book: BookView, ops: Seq<OpView>)
    requires
        book.wf(),
        calm(book, ops),
    ensures
        book.apply_all(eval_ops_spec(book, Map::empty(), ops).0) == step_by_step(book, ops),
        step_by_step(book, ops) == place_all(
            project(book, eval_ops_spec(book, Map::empty(), ops).1),
            rested_by(book, ops),
        ),
        can_place(book, rested_by(book, ops)),
        step_by_step(book, ops).wf(),
        ops.len() > 0 ==> eval_ops_spec(book, Map::empty(), ops).0.last() == eval_op_spec(
            step_by_step(book, ops.drop_last()),
            Map::empty(),
            ops.last(),
        ).0,
    decreases ops.len(),
{
    if ops.len() == 0 {
        lemma_project_identity(book);
    } else {
        let init = ops.drop_last();
        let (before, mid) = eval_ops_spec(book, Map::empty(), init);
        let (last, after) = eval_op_spec(book, mid, ops.last());
        lemma_batch_is_step_by_step(book, init);
        lemma_op_step_placed(book, mid, ops.last(), rested_by(book, init));
        assert(before.push(last).drop_last() =~= before);
        lemma_can_place_seen(book, after, rested_by(book, ops));
        lemma_place_all(project(book, after), rested_by(book, ops));
    }
}

/// Every order that the batch inserts finds room: the level that it
/// would join, as the operations before it have left the book, can take
/// all the order came with.
pub open spec fn roomy(book: BookView, ops: Seq<OpView>) -> bool
    decreases ops.len(),
{
    ops.len() == 0 || {
        &&& roomy(book, ops.drop_last())
        &&& ops.last() matches OpView::Insert(order) ==> level_total(
            step_by_step(book, ops.drop_last()).side(order.is_buy),
            order.is_buy,
            order.price,
        ) + order.remaining <= u64::MAX
    }
}

/// The instructions that a fresh evaluator gives for a batch against the
/// unchanging book can be applied to the book in order, as long as no
/// operation meets an order that the batch itself has brought to rest
/// and every inserted order finds room.
pub proof fn lemma_batch_applies(book: BookView, ops: Seq<OpView>)
    requires
        book.wf(),
        calm(book, ops),
        roomy(book, ops),
    ensures
        book.accepts_all(eval_ops_spec(book, Map::empty(), ops).0),
    decreases ops.len(),
{
    if ops.len() > 0 {
        let init = ops.drop_last();
        let (before, mid) = eval_ops_spec(book, Map::empty(), init);
        let (last, after) = eval_op_spec(book, mid, ops.last());
        lemma_batch_applies(book, init);
        lemma_batch_is_step_by_step(book, init);
        lemma_batch_is_step_by_step(book, ops);
        lemma_fresh_instruction_applies(step_by_step(book, init), ops.last());
        assert(before.push(last).drop_last() =~= before);
    }
}

/// What its users may rely on holds of the book after every primitive
/// that can be applied to it.
pub proof fn lemma_apply_keeps_wf(book: BookView, p: PrimitiveView)
    requires
        book.wf(),
        book.accepts(p),
    ensures
        book.apply_spec(p).wf(),
{
    lemma_project_identity(book);
    match p {
        PrimitiveView::Insert(order, remaining) => {
            if remaining > 0 {
                crate::resting::lemma_book_insert(
                    book,
                    order.filled((order.remaining - remaining) as u64),
                );
            }
        },
        PrimitiveView::Fill(id, _, _, quantity, is_taker) => {
            if !is_taker {
                lemma_project_fill(book, Map::empty(), id, quantity);
                lemma_project_wf(
                    book,
                    Map::<Seq<char>, u64>::empty().insert(
                        id,
                        (book.order(id).remaining - quantity) as u64,
                    ),
                );
            }
        },
        PrimitiveView::Delete(id, _) => {
            lemma_project_remove(book, Map::empty(), id);
            lemma_project_wf(book, Map::<Seq<char>, u64>::empty().insert(id, 0));
        },
        PrimitiveView::NoOp(_, _) => {},
    }
}

/// What its users may rely on holds of the book after every sequence
/// of primitives that can be applied to it.
pub proof fn lemma_apply_seq_keeps_wf(book: BookView, ps: Seq<PrimitiveView>)
    requires
        book.wf(),
        book.accepts_seq(ps),
    ensures
        book.apply_seq(ps).wf(),
    decreases ps.len(),
{
    if ps.len() > 0 {
        lemma_apply_seq_keeps_wf(book, ps.drop_last());
        lemma_apply_keeps_wf(book.apply_seq(ps.drop_last()), ps.last());
    }
}

/// What its users may rely on holds of the book after every sequence
/// of instructions that can be applied to it.
pub proof fn lemma_apply_all_keeps_wf(book: BookView, instructions: Seq<InstructionView>)
    requires
        book.wf(),
        book.accepts_all(instructions),
    ensures
        book.apply_all(instructions).wf(),
    decreases instructions.len(),
{
    if instructions.len() > 0 {
        lemma_apply_all_keeps_wf(book, instructions.drop_last());
        lemma_apply_seq_keeps_wf(
            book.apply_all(instructions.drop_last()),
            instructions.last().prims(),
        );
    }
}

} // verus!