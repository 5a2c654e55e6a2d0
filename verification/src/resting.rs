//! Orders that come to rest: how queueing an order on a side goes
//! together with what else happens to the side.

use crate::eval::{out_of_reach, walk_levels, walk_orders, Walk};
use crate::level::LevelView;
use crate::ob::{at, locate, side_has, side_wf, BookView};
use crate::order::OrderView;
use crate::side::{
    has_level, lemma_rank, lemma_rank_of_level, lemma_rank_split, precedes, rank, side_fill_at,
    side_insert, side_remove_at, sorted,
};
use vstd::prelude::*;

verus! {

/// The order can come to rest on the side: it is of the side's
/// direction, has something left, and its identifier is new to the side.
pub open spec fn can_rest(levels: Seq<LevelView>, is_bid: bool, order: OrderView) -> bool {
    &&& order.is_buy == is_bid
    &&& order.remaining > 0
    &&& !side_has(levels, order.id)
}

/// A side with an order queued on it holds the identifiers it held, and
/// that of the order.
pub proof fn lemma_insert_has(levels: Seq<LevelView>, is_bid: bool, order: OrderView, id: Seq<char>)
    requires
        sorted(levels, is_bid),
    ensures
        side_has(side_insert(levels, is_bid, order), id) <==> side_has(levels, id) || id == order.id,
{
    let after = side_insert(levels, is_bid, order);
    let kr = rank(levels, is_bid, order.price);
    lemma_rank_split(levels, is_bid, order.price);
    if side_has(after, id) {
        let (k, j) = locate(after, id);
        assert(at(after, k, j, id));
        if has_level(levels, is_bid, order.price) {
            if k != kr || j < levels[kr].orders.len() {
                assert(at(levels, k, j, id));
            }
        } else if k < kr {
            assert(at(levels, k, j, id));
        } else if k > kr {
            assert(after[k] == levels[k - 1]);
            assert(at(levels, k - 1, j, id));
        }
    }
    if side_has(levels, id) {
        let (k, j) = locate(levels, id);
        assert(at(levels, k, j, id));
        if has_level(levels, is_bid, order.price) {
            assert(at(after, k, j, id));
        } else if k < kr {
            assert(at(after, k, j, id));
        } else {
            assert(after[k + 1] == levels[k]);
            assert(at(after, k + 1, j, id));
        }
    }
    if id == order.id {
        if has_level(levels, is_bid, order.price) {
            assert(at(after, kr, levels[kr].orders.len() as int, id));
        } else {
            assert(at(after, kr, 0, id));
        }
    }
}

/// A well-formed side with an order brought to rest on it is well-formed.
pub proof fn lemma_insert_wf(levels: Seq<LevelView>, is_bid: bool, order: OrderView)
    requires
        side_wf(levels, is_bid),
        can_rest(levels, is_bid, order),
    ensures
        side_wf(side_insert(levels, is_bid, order), is_bid),
{
    let after = side_insert(levels, is_bid, order);
    let kr = rank(levels, is_bid, order.price);
    lemma_rank_split(levels, is_bid, order.price);
    let joins = has_level(levels, is_bid, order.price);
    // where a place of the new side comes from
    assert forall|k: int, j: int|
        0 <= k < after.len() && 0 <= j < after[k].orders.len() implies {
        let k0 = if joins || k < kr {
            k
        } else {
            k - 1
        };
        ||| (k == kr && after[k].orders[j] == order && after[k].price == order.price && j == if joins {
            levels[kr].orders.len() as int
        } else {
            0
        })
        ||| (0 <= k0 < levels.len() && 0 <= j < levels[k0].orders.len() && #[trigger] after[k].orders[j]
            == levels[k0].orders[j] && after[k].price == levels[k0].price && (joins || k != kr))
    } by {
        if !joins && k > kr {
            assert(after[k] == levels[k - 1]);
        }
    }
    assert forall|i: int, j: int| 0 <= i < j < after.len() implies precedes(
        is_bid,
        (#[trigger] after[i]).price,
        (#[trigger] after[j]).price,
    ) by {
        if !joins {
            let a = if i < kr {
                i
            } else {
                i - 1
            };
            let b = if j < kr {
                j
            } else {
                j - 1
            };
            if i != kr {
                assert(after[i] == levels[a]);
            }
            if j != kr {
                assert(after[j] == levels[b]);
            }
            if i == kr {
                assert(!precedes(is_bid, levels[b].price, order.price));
                if levels[b].price == order.price {
                    lemma_rank_of_level(levels, is_bid, b);
                }
            }
        } else {
            assert(after[i].price == levels[i].price && after[j].price == levels[j].price);
        }
    }
    assert forall|k: int| 0 <= k < after.len() implies (#[trigger] after[k]).orders.len() > 0 by {
        if !joins && k > kr {
            assert(after[k] == levels[k - 1]);
        } else if !joins && k < kr {
            assert(after[k] == levels[k]);
        } else if joins {
            assert(after[k].orders.len() >= levels[k].orders.len());
        }
    }
    assert forall|id: Seq<char>, k1: int, j1: int, k2: int, j2: int|
        #[trigger] at(after, k1, j1, id) && #[trigger] at(after, k2, j2, id) implies k1 == k2 && j1
        == j2 by {
        let a = if joins || k1 < kr {
            k1
        } else {
            k1 - 1
        };
        let b = if joins || k2 < kr {
            k2
        } else {
            k2 - 1
        };
        let first_new = k1 == kr && after[k1].orders[j1] == order && j1 == if joins {
            levels[kr].orders.len() as int
        } else {
            0
        };
        let second_new = k2 == kr && after[k2].orders[j2] == order && j2 == if joins {
            levels[kr].orders.len() as int
        } else {
            0
        };
        if !first_new {
            assert(at(levels, a, j1, id));
        }
        if !second_new {
            assert(at(levels, b, j2, id));
        }
    }
}

/// No level of a sorted side stands at a price that has no level.
proof fn lemma_no_level(levels: Seq<LevelView>, is_bid: bool, price: u64, i: int)
    requires
        sorted(levels, is_bid),
        !has_level(levels, is_bid, price),
        0 <= i < levels.len(),
    ensures
        levels[i].price != price,
{
    if levels[i].price == price {
        lemma_rank_of_level(levels, is_bid, i);
    }
}

/// The commutation where the order taken off leaves its level behind.
proof fn lemma_commute_level_stays(
    levels: Seq<LevelView>,
    is_bid: bool,
    order: OrderView,
    k: int,
    j: int,
)
    requires
        side_wf(levels, is_bid),
        0 <= k < levels.len(),
        0 <= j < levels[k].orders.len(),
        levels[k].orders.len() > 1,
    ensures
        ({
            let kr = rank(levels, is_bid, order.price);
            let k1 = if has_level(levels, is_bid, order.price) || k < kr {
                k
            } else {
                k + 1
            };
            side_remove_at(side_insert(levels, is_bid, order), k1, j) == side_insert(
                side_remove_at(levels, k, j),
                is_bid,
                order,
            )
        }),
{
    let p = order.price;
    let kr = rank(levels, is_bid, p);
    let joins = has_level(levels, is_bid, p);
    let after = side_insert(levels, is_bid, order);
    let less = side_remove_at(levels, k, j);
    let shorter = LevelView { price: levels[k].price, orders: levels[k].orders.remove(j) };
    lemma_rank_split(levels, is_bid, p);
    assert(less == levels.update(k, shorter));
    assert forall|i: int| 0 <= i < less.len() implies (#[trigger] less[i]).price
        == levels[i].price by {}
    lemma_rank(less, is_bid, p, kr);
    if joins {
        let longer = LevelView { price: p, orders: levels[kr].orders.push(order) };
        assert(after == levels.update(kr, longer));
        if k == kr {
            assert(levels[kr].orders.push(order).remove(j) =~= levels[kr].orders.remove(j).push(
                order,
            ));
            assert(side_remove_at(after, k, j) =~= levels.update(
                kr,
                LevelView { price: p, orders: levels[kr].orders.remove(j).push(order) },
            ));
            assert(side_insert(less, is_bid, order) =~= levels.update(
                kr,
                LevelView { price: p, orders: levels[kr].orders.remove(j).push(order) },
            ));
        } else {
            assert(side_remove_at(after, k, j) =~= levels.update(kr, longer).update(k, shorter));
            assert(side_insert(less, is_bid, order) =~= levels.update(k, shorter).update(
                kr,
                longer,
            ));
            assert(levels.update(kr, longer).update(k, shorter) =~= levels.update(
                k,
                shorter,
            ).update(kr, longer));
        }
    } else {
        let alone = LevelView { price: p, orders: seq![order] };
        let k1 = if k < kr {
            k
        } else {
            k + 1
        };
        assert(after == levels.insert(kr, alone));
        assert(after[k1] == levels[k]);
        if kr < less.len() {
            lemma_no_level(levels, is_bid, p, kr);
        }
        assert(side_insert(less, is_bid, order) == less.insert(kr, alone));
        assert(side_remove_at(after, k1, j) == after.update(k1, shorter));
        assert(levels.insert(kr, alone).update(k1, shorter) =~= levels.update(k, shorter).insert(
            kr,
            alone,
        ));
    }
}

/// The commutation where the order taken off is alone in its level, and
/// the other order joins another level or makes one of its own.
proof fn lemma_commute_level_goes(
    levels: Seq<LevelView>,
    is_bid: bool,
    order: OrderView,
    k: int,
)
    requires
        side_wf(levels, is_bid),
        0 <= k < levels.len(),
        levels[k].orders.len() == 1,
        levels[k].price != order.price,
    ensures
        ({
            let kr = rank(levels, is_bid, order.price);
            let k1 = if has_level(levels, is_bid, order.price) || k < kr {
                k
            } else {
                k + 1
            };
            side_remove_at(side_insert(levels, is_bid, order), k1, 0) == side_insert(
                side_remove_at(levels, k, 0),
                is_bid,
                order,
            )
        }),
{
    let p = order.price;
    let kr = rank(levels, is_bid, p);
    let joins = has_level(levels, is_bid, p);
    let after = side_insert(levels, is_bid, order);
    let less = side_remove_at(levels, k, 0);
    lemma_rank_split(levels, is_bid, p);
    assert(less == levels.remove(k));
    assert forall|i: int| 0 <= i < less.len() implies (#[trigger] less[i]) == levels[if i < k {
        i
    } else {
        i + 1
    }] by {}
    let kr2 = if k < kr {
        kr - 1
    } else {
        kr
    };
    lemma_rank(less, is_bid, p, kr2);
    if joins {
        let longer = LevelView { price: p, orders: levels[kr].orders.push(order) };
        assert(less[kr2] == levels[kr]);
        assert(after == levels.update(kr, longer));
        assert(side_remove_at(after, k, 0) == after.remove(k));
        assert(side_insert(less, is_bid, order) == less.update(kr2, longer));
        assert(levels.update(kr, longer).remove(k) =~= levels.remove(k).update(kr2, longer));
    } else {
        let alone = LevelView { price: p, orders: seq![order] };
        let k1 = if k < kr {
            k
        } else {
            k + 1
        };
        assert(after == levels.insert(kr, alone));
        assert(after[k1] == levels[k]);
        if kr2 < less.len() {
            lemma_no_level(levels, is_bid, p, if kr2 < k {
                kr2
            } else {
                kr2 + 1
            });
        }
        assert(side_insert(less, is_bid, order) == less.insert(kr2, alone));
        assert(side_remove_at(after, k1, 0) == after.remove(k1));
        assert(levels.insert(kr, alone).remove(k1) =~= levels.remove(k).insert(kr2, alone));
    }
}

/// The commutation where the order taken off is alone in the level that
/// the other order joins.
proof fn lemma_commute_level_taken_over(
    levels: Seq<LevelView>,
    is_bid: bool,
    order: OrderView,
    k: int,
)
    requires
        side_wf(levels, is_bid),
        0 <= k < levels.len(),
        levels[k].orders.len() == 1,
        levels[k].price == order.price,
    ensures
        side_remove_at(side_insert(levels, is_bid, order), k, 0) == side_insert(
            side_remove_at(levels, k, 0),
            is_bid,
            order,
        ),
{
    let p = order.price;
    let after = side_insert(levels, is_bid, order);
    let less = side_remove_at(levels, k, 0);
    let alone = LevelView { price: p, orders: seq![order] };
    lemma_rank_of_level(levels, is_bid, k);
    lemma_rank_split(levels, is_bid, p);
    assert(less == levels.remove(k));
    assert forall|i: int| 0 <= i < less.len() implies (#[trigger] less[i]) == levels[if i < k {
        i
    } else {
        i + 1
    }] by {}
    if k + 1 < levels.len() {
        assert(precedes(is_bid, levels[k].price, levels[k + 1].price));
    }
    lemma_rank(less, is_bid, p, k);
    assert(side_insert(less, is_bid, order) == less.insert(k, alone));
    assert(levels[k].orders.push(order).remove(0) =~= seq![order]);
    assert(side_remove_at(after, k, 0) =~= levels.update(k, alone));
    assert(levels.remove(k).insert(k, alone) =~= levels.update(k, alone));
}

/// Taking an order off a side and bringing another to rest on it can be
/// done in either order. Returns the place of the order taken off on the
/// side without the other.
pub proof fn lemma_insert_remove_commute(
    levels: Seq<LevelView>,
    is_bid: bool,
    order: OrderView,
    k1: int,
    j1: int,
) -> (r: (int, int))
    requires
        side_wf(levels, is_bid),
        0 <= k1 < side_insert(levels, is_bid, order).len(),
        0 <= j1 < side_insert(levels, is_bid, order)[k1].orders.len(),
        side_insert(levels, is_bid, order)[k1].orders[j1].id != order.id,
    ensures
        0 <= r.0 < levels.len(),
        0 <= r.1 < levels[r.0].orders.len(),
        levels[r.0].orders[r.1] == side_insert(levels, is_bid, order)[k1].orders[j1],
        r.1 == j1,
        r.0 == if has_level(levels, is_bid, order.price) || k1 < rank(
            levels,
            is_bid,
            order.price,
        ) {
            k1
        } else {
            k1 - 1
        },
        side_remove_at(side_insert(levels, is_bid, order), k1, j1) == side_insert(
            side_remove_at(levels, r.0, r.1),
            is_bid,
            order,
        ),
{
    let after = side_insert(levels, is_bid, order);
    let kr = rank(levels, is_bid, order.price);
    lemma_rank_split(levels, is_bid, order.price);
    let joins = has_level(levels, is_bid, order.price);
    let k = if joins || k1 < kr {
        k1
    } else {
        k1 - 1
    };
    if !joins && k1 > kr {
        assert(after[k1] == levels[k1 - 1]);
    }
    assert(after[k1].orders[j1] == levels[k].orders[j1]);
    if levels[k].orders.len() > 1 {
        lemma_commute_level_stays(levels, is_bid, order, k, j1);
    } else if levels[k].price == order.price {
        lemma_rank_of_level(levels, is_bid, k);
        lemma_commute_level_taken_over(levels, is_bid, order, k);
    } else {
        lemma_commute_level_goes(levels, is_bid, order, k);
    }
    (k, j1)
}

/// Filling an order of a side and bringing another to rest on it can be
/// done in either order. Returns the place of the order filled on the
/// side without the other.
pub proof fn lemma_insert_fill_commute(
    levels: Seq<LevelView>,
    is_bid: bool,
    order: OrderView,
    k1: int,
    j1: int,
    quantity: u64,
) -> (r: (int, int))
    requires
        side_wf(levels, is_bid),
        0 <= k1 < side_insert(levels, is_bid, order).len(),
        0 <= j1 < side_insert(levels, is_bid, order)[k1].orders.len(),
        side_insert(levels, is_bid, order)[k1].orders[j1].id != order.id,
    ensures
        0 <= r.0 < levels.len(),
        0 <= r.1 < levels[r.0].orders.len(),
        levels[r.0].orders[r.1] == side_insert(levels, is_bid, order)[k1].orders[j1],
        side_fill_at(side_insert(levels, is_bid, order), k1, j1, quantity) == side_insert(
            side_fill_at(levels, r.0, r.1, quantity),
            is_bid,
            order,
        ),
{
    let after = side_insert(levels, is_bid, order);
    let r = lemma_insert_remove_commute(levels, is_bid, order, k1, j1);
    let k = r.0;
    let met = levels[k].orders[j1];
    if met.remaining != quantity {
        let p = order.price;
        let kr = rank(levels, is_bid, p);
        let joins = has_level(levels, is_bid, p);
        lemma_rank_split(levels, is_bid, p);
        let changed = LevelView {
            price: levels[k].price,
            orders: levels[k].orders.update(j1, met.filled(quantity)),
        };
        let less = side_fill_at(levels, k, j1, quantity);
        assert(less == levels.update(k, changed));
        assert forall|i: int| 0 <= i < less.len() implies (#[trigger] less[i]).price
            == levels[i].price by {}
        lemma_rank(less, is_bid, p, kr);
        if joins {
            let longer = LevelView { price: p, orders: levels[kr].orders.push(order) };
            assert(after == levels.update(kr, longer));
            if k == kr {
                let both = LevelView {
                    price: p,
                    orders: levels[kr].orders.update(j1, met.filled(quantity)).push(order),
                };
                assert(levels[kr].orders.push(order).update(j1, met.filled(quantity))
                    =~= both.orders);
                assert(side_fill_at(after, k1, j1, quantity) =~= levels.update(kr, both));
                assert(side_insert(less, is_bid, order) =~= levels.update(kr, both));
            } else {
                assert(side_fill_at(after, k1, j1, quantity) =~= levels.update(kr, longer).update(
                    k,
                    changed,
                ));
                assert(side_insert(less, is_bid, order) =~= levels.update(k, changed).update(
                    kr,
                    longer,
                ));
                assert(levels.update(kr, longer).update(k, changed) =~= levels.update(
                    k,
                    changed,
                ).update(kr, longer));
            }
        } else {
            let alone = LevelView { price: p, orders: seq![order] };
            assert(after == levels.insert(kr, alone));
            assert(after[k1] == levels[k]);
            if kr < less.len() {
                lemma_no_level(levels, is_bid, p, kr);
            }
            assert(side_insert(less, is_bid, order) == less.insert(kr, alone));
            assert(side_fill_at(after, k1, j1, quantity) == after.update(k1, changed));
            assert(levels.insert(kr, alone).update(k1, changed) =~= levels.update(
                k,
                changed,
            ).insert(kr, alone));
        }
    }
    r
}

/// A level beyond a taker's reach is not on its way: the taker's walk
/// along a side does not change when an order comes to rest on that side
/// at a price out of the taker's reach.
pub proof fn lemma_walk_past_rested(
    w: Walk,
    taker: OrderView,
    scratch: Map<Seq<char>, u64>,
    levels: Seq<LevelView>,
    order: OrderView,
    from: int,
)
    requires
        sorted(levels, !taker.is_buy),
        out_of_reach(taker, order.price),
        0 <= from <= rank(levels, !taker.is_buy, order.price),
    ensures
        walk_levels(w, taker, scratch, side_insert(levels, !taker.is_buy, order), from)
            == walk_levels(w, taker, scratch, levels, from),
    decreases levels.len() - from,
{
    let is_bid = !taker.is_buy;
    let after = side_insert(levels, is_bid, order);
    let kr = rank(levels, is_bid, order.price);
    lemma_rank_split(levels, is_bid, order.price);
    if from < kr {
        assert(after[from] == levels[from]);
        if !out_of_reach(taker, levels[from].price) {
            lemma_walk_past_rested(
                walk_orders(w, taker, scratch, levels[from].price, levels[from].orders, 0),
                taker,
                scratch,
                levels,
                order,
                from + 1,
            );
        }
    } else {
        assert(after[kr].price == order.price);
        if kr < levels.len() {
            assert(!precedes(is_bid, levels[kr].price, order.price));
        }
    }
}

/// The book with the orders `orders` brought to rest on it, in order.
pub open spec fn place_all(book: BookView, orders: Seq<OrderView>) -> BookView
    decreases orders.len(),
{
    if orders.len() == 0 {
        book
    } else {
        place_all(book, orders.drop_last()).insert(orders.last())
    }
}

/// The orders can come to rest on the book one after the other: each
/// has something left, and its identifier is neither on the book nor
/// that of another of them.
pub open spec fn can_place(book: BookView, orders: Seq<OrderView>) -> bool {
    &&& forall|i: int|
        0 <= i < orders.len() ==> (#[trigger] orders[i]).remaining > 0 && !book.contains(
            orders[i].id,
        )
    &&& forall|i: int, j: int|
        0 <= i < j < orders.len() ==> (#[trigger] orders[i]).id != (#[trigger] orders[j]).id
}

/// A well-formed book with an order brought to rest on it is
/// well-formed, and holds the identifiers it held and that of the order.
pub proof fn lemma_book_insert(book: BookView, order: OrderView)
    requires
        book.wf(),
        order.remaining > 0,
        !book.contains(order.id),
    ensures
        book.insert(order).wf(),
        forall|id: Seq<char>|
            book.insert(order).contains(id) <==> book.contains(id) || id == order.id,
{
    lemma_insert_wf(book.side(order.is_buy), order.is_buy, order);
    assert forall|id: Seq<char>|
        book.insert(order).contains(id) <==> book.contains(id) || id == order.id by {
        lemma_insert_has(book.side(order.is_buy), order.is_buy, order, id);
    }
    assert forall|id: Seq<char>| side_has(book.insert(order).bids, id) implies !side_has(
        book.insert(order).asks,
        id,
    ) by {
        lemma_insert_has(book.side(order.is_buy), order.is_buy, order, id);
    }
}

/// A well-formed book with orders brought to rest on it is well-formed,
/// and holds the identifiers it held and those of the orders.
pub proof fn lemma_place_all(book: BookView, orders: Seq<OrderView>)
    requires
        book.wf(),
        can_place(book, orders),
    ensures
        place_all(book, orders).wf(),
        forall|id: Seq<char>|
            place_all(book, orders).contains(id) <==> book.contains(id) || exists|i: int|
                0 <= i < orders.len() && (#[trigger] orders[i]).id == id,
    decreases orders.len(),
{
    if orders.len() > 0 {
        let init = orders.drop_last();
        let last = orders.last();
        assert(last == orders[orders.len() - 1]);
        assert(can_place(book, init)) by {
            assert forall|i: int| 0 <= i < init.len() implies (#[trigger] init[i]).remaining > 0
                && !book.contains(init[i].id) by {
                assert(init[i] == orders[i]);
            }
            assert forall|i: int, j: int| 0 <= i < j < init.len() implies (#[trigger] init[i]).id
                != (#[trigger] init[j]).id by {
                assert(init[i] == orders[i] && init[j] == orders[j]);
            }
        }
        lemma_place_all(book, init);
        let before = place_all(book, init);
        assert(!before.contains(last.id)) by {
            if exists|i: int| 0 <= i < init.len() && (#[trigger] init[i]).id == last.id {
                let i = choose|i: int| 0 <= i < init.len() && (#[trigger] init[i]).id == last.id;
                assert(init[i] == orders[i]);
            }
        }
        lemma_book_insert(before, last);
        assert forall|id: Seq<char>|
            place_all(book, orders).contains(id) <==> book.contains(id) || exists|i: int|
                0 <= i < orders.len() && (#[trigger] orders[i]).id == id by {
            if exists|i: int| 0 <= i < init.len() && (#[trigger] init[i]).id == id {
                let i = choose|i: int| 0 <= i < init.len() && (#[trigger] init[i]).id == id;
                assert(orders[i].id == id);
            }
            if exists|i: int| 0 <= i < orders.len() && (#[trigger] orders[i]).id == id {
                let i = choose|i: int| 0 <= i < orders.len() && (#[trigger] orders[i]).id == id;
                if i < init.len() {
                    assert(init[i].id == id);
                }
            }
        }
    }
}

/// Deleting an order and bringing another to rest can be done in either
/// order.
pub proof fn lemma_book_remove_commute(book: BookView, order: OrderView, id: Seq<char>)
    requires
        book.wf(),
        order.remaining > 0,
        !book.contains(order.id),
        id != order.id,
    ensures
        book.insert(order).remove(id) == book.remove(id).insert(order),
{
    let after = book.insert(order);
    let own = book.side(order.is_buy);
    lemma_insert_has(own, order.is_buy, order, id);
    if side_has(own, id) {
        let (k1, j1) = locate(after.side(order.is_buy), id);
        assert(at(after.side(order.is_buy), k1, j1, id));
        let r = lemma_insert_remove_commute(own, order.is_buy, order, k1, j1);
        assert(at(own, r.0, r.1, id));
        let (k, j) = locate(own, id);
        assert(at(own, k, j, id));
    }
}

/// Filling a resting order and bringing another to rest can be done in
/// either order.
pub proof fn lemma_book_fill_commute(
    book: BookView,
    order: OrderView,
    id: Seq<char>,
    quantity: u64,
)
    requires
        book.wf(),
        order.remaining > 0,
        !book.contains(order.id),
        book.contains(id),
    ensures
        book.insert(order).fill(id, quantity) == book.fill(id, quantity).insert(order),
        book.insert(order).order(id) == book.order(id),
{
    let after = book.insert(order);
    let own = book.side(order.is_buy);
    lemma_insert_has(own, order.is_buy, order, id);
    if side_has(own, id) {
        let (k1, j1) = locate(after.side(order.is_buy), id);
        assert(at(after.side(order.is_buy), k1, j1, id));
        let r = lemma_insert_fill_commute(own, order.is_buy, order, k1, j1, quantity);
        assert(at(own, r.0, r.1, id));
        let (k, j) = locate(own, id);
        assert(at(own, k, j, id));
    }
}

/// Along a side of a book, a taker's walk does not change when orders
/// come to rest on the book that are all out of the taker's reach if
/// they rest on that side.
pub proof fn lemma_walk_past_all(
    w: Walk,
    taker: OrderView,
    scratch: Map<Seq<char>, u64>,
    book: BookView,
    orders: Seq<OrderView>,
)
    requires
        book.wf(),
        can_place(book, orders),
        forall|i: int|
            0 <= i < orders.len() && (#[trigger] orders[i]).is_buy != taker.is_buy
                ==> out_of_reach(taker, orders[i].price),
    ensures
        walk_levels(w, taker, scratch, place_all(book, orders).side(!taker.is_buy), 0)
            == walk_levels(w, taker, scratch, book.side(!taker.is_buy), 0),
    decreases orders.len(),
{
    if orders.len() > 0 {
        let init = orders.drop_last();
        let last = orders.last();
        assert(last == orders[orders.len() - 1]);
        assert(can_place(book, init)) by {
            assert forall|i: int| 0 <= i < init.len() implies (#[trigger] init[i]).remaining > 0
                && !book.contains(init[i].id) by {
                assert(init[i] == orders[i]);
            }
            assert forall|i: int, j: int| 0 <= i < j < init.len() implies (#[trigger] init[i]).id
                != (#[trigger] init[j]).id by {
                assert(init[i] == orders[i] && init[j] == orders[j]);
            }
        }
        assert forall|i: int|
            0 <= i < init.len() && (#[trigger] init[i]).is_buy != taker.is_buy implies out_of_reach(
            taker,
            init[i].price,
        ) by {
            assert(init[i] == orders[i]);
        }
        lemma_walk_past_all(w, taker, scratch, book, init);
        lemma_place_all(book, init);
        if last.is_buy != taker.is_buy {
            lemma_rank_split(
                place_all(book, init).side(!taker.is_buy),
                !taker.is_buy,
                last.price,
            );
            lemma_walk_past_rested(
                w,
                taker,
                scratch,
                place_all(book, init).side(!taker.is_buy),
                last,
                0,
            );
        }
    }
}

} // verus!