//! One side of the book: its price levels, best price first, and what
//! resting an order and cancelling one do to them.

use crate::limit::{has_id, index_of, LimitView};
use crate::order::{BidOrAsk, OrderView};
use vstd::prelude::*;

verus! {

/// True when, on `side`, price `a` is matched before price `b`: the lower
/// ask, the higher bid.
pub open spec fn better(side: BidOrAsk, a: int, b: int) -> bool {
    match side {
        BidOrAsk::Ask => a < b,
        BidOrAsk::Bid => a > b,
    }
}

/// The side that an order of `side` is matched against.
pub open spec fn opposite(side: BidOrAsk) -> BidOrAsk {
    match side {
        BidOrAsk::Ask => BidOrAsk::Bid,
        BidOrAsk::Bid => BidOrAsk::Ask,
    }
}

/// True when an order with this id rests at one of the levels.
pub open spec fn side_has_id(levels: Seq<LimitView>, id: Seq<char>) -> bool {
    exists|i: int| 0 <= i < levels.len() && has_id(#[trigger] levels[i].orders, id)
}

/// The level at which an order with this id rests, where there is one.
pub open spec fn level_of(levels: Seq<LimitView>, id: Seq<char>) -> int {
    choose|i: int| 0 <= i < levels.len() && has_id(#[trigger] levels[i].orders, id)
}

/// True when no id rests at two of the levels.
pub open spec fn levels_disjoint(levels: Seq<LimitView>) -> bool {
    forall|i: int, j: int, id: Seq<char>|
        #![trigger has_id(levels[i].orders, id), has_id(levels[j].orders, id)]
        0 <= i < j < levels.len() ==> !(has_id(levels[i].orders, id) && has_id(
            levels[j].orders,
            id,
        ))
}

/// The levels of one side of a book: each valid, none empty, all orders of
/// that side, best price first, no price twice, no id at two levels.
pub open spec fn side_wf(levels: Seq<LimitView>, side: BidOrAsk) -> bool {
    &&& forall|i: int|
        0 <= i < levels.len() ==> (#[trigger] levels[i]).wf() && levels[i].orders.len() > 0
    &&& forall|i: int, k: int|
        0 <= i < levels.len() && 0 <= k < levels[i].orders.len() ==> (
        #[trigger] levels[i].orders[k]).side == side
    &&& forall|i: int, j: int|
        0 <= i < j < levels.len() ==> better(
            side,
            (#[trigger] levels[i]).price,
            (#[trigger] levels[j]).price,
        )
    &&& levels_disjoint(levels)
}

/// The number of orders that rest at the levels.
pub open spec fn order_count(levels: Seq<LimitView>) -> nat
    decreases levels.len(),
{
    if levels.len() == 0 {
        0
    } else {
        levels[0].orders.len() + order_count(levels.skip(1))
    }
}

/// The number of levels that are matched before an order at `price` would
/// be: the place of that price among the levels.
pub open spec fn rank(levels: Seq<LimitView>, side: BidOrAsk, price: int) -> int
    decreases levels.len(),
{
    if levels.len() > 0 && better(side, levels[0].price, price) {
        1 + rank(levels.skip(1), side, price)
    } else {
        0
    }
}

/// The levels once `order` rests at `price`: last in the queue of the level
/// at that price, or alone at a new level in the place of that price.
pub open spec fn insert_order(
    levels: Seq<LimitView>,
    side: BidOrAsk,
    price: int,
    order: OrderView,
) -> Seq<LimitView> {
    let at = rank(levels, side, price);
    let resting = OrderView { price, ..order };
    if at < levels.len() && levels[at].price == price {
        levels.update(at, LimitView { price, orders: levels[at].orders.push(resting) })
    } else {
        levels.insert(at, LimitView { price, orders: seq![resting] })
    }
}

/// The place of a price among the levels: every level before it is matched
/// first, and the level at it, if there is one, is not.
pub proof fn lemma_rank(levels: Seq<LimitView>, side: BidOrAsk, price: int)
    ensures
        0 <= rank(levels, side, price) <= levels.len(),
        forall|j: int|
            0 <= j < rank(levels, side, price) ==> better(side, (#[trigger] levels[j]).price, price),
        rank(levels, side, price) < levels.len() ==> !better(
            side,
            levels[rank(levels, side, price)].price,
            price,
        ),
    decreases levels.len(),
{
    if levels.len() > 0 && better(side, levels[0].price, price) {
        let tail = levels.skip(1);
        lemma_rank(tail, side, price);
        let r = rank(tail, side, price);
        assert forall|j: int| 0 <= j < r + 1 implies better(
            side,
            (#[trigger] levels[j]).price,
            price,
        ) by {
            if j > 0 {
                assert(tail[j - 1] == levels[j]);
            }
        }
        if r + 1 < levels.len() {
            assert(tail[r] == levels[r + 1]);
        }
    }
}

/// An order that comes to rest on valid levels leaves them valid, and adds
/// its id to theirs.
pub proof fn lemma_insert_order(
    levels: Seq<LimitView>,
    side: BidOrAsk,
    price: int,
    order: OrderView,
)
    requires
        side_wf(levels, side),
        price > 0,
        order.size > 0,
        order.side == side,
        !side_has_id(levels, order.id),
    ensures
        side_wf(insert_order(levels, side, price, order), side),
        forall|id: Seq<char>|
            side_has_id(insert_order(levels, side, price, order), id) <==> (id == order.id
                || side_has_id(levels, id)),
        order_count(insert_order(levels, side, price, order)) == order_count(levels) + 1,
{
    lemma_rank(levels, side, price);
    let at = rank(levels, side, price);
    let resting = OrderView { price, ..order };
    let after = insert_order(levels, side, price, order);
    assert forall|i: int| 0 <= i < levels.len() implies !has_id(
        #[trigger] levels[i].orders,
        order.id,
    ) by {}
    if at < levels.len() && levels[at].price == price {
        let grown = LimitView { price, orders: levels[at].orders.push(resting) };
        assert(after[at] == grown);
        assert(grown.wf()) by {
            let old_orders = levels[at].orders;
            assert(levels[at].wf());
            assert forall|a: int, b: int| 0 <= a < b < grown.orders.len() implies (
            #[trigger] grown.orders[a]).id != (#[trigger] grown.orders[b]).id by {
                if b == old_orders.len() {
                    assert(grown.orders[a] == old_orders[a]);
                    if old_orders[a].id == order.id {
                        assert(has_id(old_orders, order.id));
                    }
                } else {
                    assert(grown.orders[a] == old_orders[a]);
                    assert(grown.orders[b] == old_orders[b]);
                }
            }
            assert forall|a: int| 0 <= a < grown.orders.len() implies (
            #[trigger] grown.orders[a]).size > 0 && grown.orders[a].price == price by {
                if a < old_orders.len() {
                    assert(grown.orders[a] == old_orders[a]);
                }
            }
        }
        assert forall|i: int| 0 <= i < after.len() implies (#[trigger] after[i]).wf()
            && after[i].orders.len() > 0 by {
            if i != at {
                assert(after[i] == levels[i]);
            }
        }
        assert forall|i: int, k: int|
            0 <= i < after.len() && 0 <= k < after[i].orders.len() implies (
        #[trigger] after[i].orders[k]).side == side by {
            if i != at {
                assert(after[i] == levels[i]);
            } else if k < levels[at].orders.len() {
                assert(after[i].orders[k] == levels[at].orders[k]);
            }
        }
        assert forall|i: int, j: int| 0 <= i < j < after.len() implies better(
            side,
            (#[trigger] after[i]).price,
            (#[trigger] after[j]).price,
        ) by {
            assert(after[i].price == levels[i].price);
            assert(after[j].price == levels[j].price);
        }
    } else {
        let fresh = LimitView { price, orders: seq![resting] };
        assert(after[at] == fresh);
        assert(fresh.wf());
        assert forall|i: int| 0 <= i < after.len() implies (#[trigger] after[i]).wf()
            && after[i].orders.len() > 0 by {
            if i < at {
                assert(after[i] == levels[i]);
            } else if i > at {
                assert(after[i] == levels[i - 1]);
            }
        }
        assert forall|i: int, k: int|
            0 <= i < after.len() && 0 <= k < after[i].orders.len() implies (
        #[trigger] after[i].orders[k]).side == side by {
            if i < at {
                assert(after[i] == levels[i]);
            } else if i > at {
                assert(after[i] == levels[i - 1]);
            }
        }
        assert forall|i: int, j: int| 0 <= i < j < after.len() implies better(
            side,
            (#[trigger] after[i]).price,
            (#[trigger] after[j]).price,
        ) by {
            let i0 = if i < at { i } else { i - 1 };
            let j0 = if j < at { j } else { j - 1 };
            if i != at {
                assert(after[i] == levels[i0]);
            }
            if j != at {
                assert(after[j] == levels[j0]);
            }
            if i == at {
                // Every old level from `at` on is no better than `price`,
                // and none has that very price.
                assert(!better(side, levels[at].price, price));
                if j0 > at {
                    assert(better(side, levels[at].price, levels[j0].price));
                }
            }
        }
    }
    lemma_insert_order_ids(levels, side, price, order);
    lemma_insert_order_count(levels, side, price, order);
}

proof fn lemma_has_id_local(
    levels: Seq<LimitView>,
    after: Seq<LimitView>,
    at: int,
    resting: OrderView,
    i: int,
    id: Seq<char>,
)
    requires
        0 <= at < levels.len(),
        0 <= i < levels.len(),
        after == levels.update(
            at,
            LimitView { price: levels[at].price, orders: levels[at].orders.push(resting) },
        ),
    ensures
        has_id(after[i].orders, id) <==> (has_id(levels[i].orders, id) || (i == at && id
            == resting.id)),
{
    if i == at {
        let before = levels[at].orders;
        let now = after[at].orders;
        assert(now == before.push(resting));
        if has_id(now, id) {
            let k = choose|k: int| 0 <= k < now.len() && (#[trigger] now[k]).id == id;
            if k < before.len() {
                assert(before[k].id == id);
            }
        }
        if has_id(before, id) {
            let k = choose|k: int| 0 <= k < before.len() && (#[trigger] before[k]).id == id;
            assert(now[k].id == id);
        }
        if id == resting.id {
            assert(now[before.len() as int].id == id);
        }
    } else {
        assert(after[i] == levels[i]);
    }
}

proof fn lemma_insert_order_ids(
    levels: Seq<LimitView>,
    side: BidOrAsk,
    price: int,
    order: OrderView,
)
    requires
        levels_disjoint(levels),
        !side_has_id(levels, order.id),
    ensures
        levels_disjoint(insert_order(levels, side, price, order)),
        forall|id: Seq<char>|
            side_has_id(insert_order(levels, side, price, order), id) <==> (id == order.id
                || side_has_id(levels, id)),
{
    lemma_rank(levels, side, price);
    let at = rank(levels, side, price);
    let resting = OrderView { price, ..order };
    let after = insert_order(levels, side, price, order);
    let grows = at < levels.len() && levels[at].price == price;
    // Where each level of `after` comes from, and what ids it holds.
    assert forall|i: int, id: Seq<char>| 0 <= i < after.len() implies (#[trigger] has_id(
        after[i].orders,
        id,
    ) <==> if grows {
        has_id(levels[i].orders, id) || (i == at && id == order.id)
    } else if i < at {
        has_id(levels[i].orders, id)
    } else if i == at {
        id == order.id
    } else {
        has_id(levels[i - 1].orders, id)
    }) by {
        if grows {
            lemma_has_id_local(levels, after, at, resting, i, id);
        } else if i < at {
            assert(after[i] == levels[i]);
        } else if i == at {
            let now = after[at].orders;
            assert(now == seq![resting]);
            if has_id(now, id) {
                let k = choose|k: int| 0 <= k < now.len() && (#[trigger] now[k]).id == id;
                assert(k == 0);
            }
            if id == order.id {
                assert(now[0].id == id);
            }
        } else {
            assert(after[i] == levels[i - 1]);
        }
    }
    assert forall|i: int, j: int, id: Seq<char>|
        #![trigger has_id(after[i].orders, id), has_id(after[j].orders, id)]
        0 <= i < j < after.len() implies !(has_id(after[i].orders, id) && has_id(
        after[j].orders,
        id,
    )) by {
        if has_id(after[i].orders, id) && has_id(after[j].orders, id) {
            if grows {
                if id == order.id {
                    if i != at {
                        assert(has_id(levels[i].orders, id));
                    } else {
                        assert(has_id(levels[j].orders, id));
                    }
                    assert(side_has_id(levels, id));
                } else {
                    assert(has_id(levels[i].orders, id) && has_id(levels[j].orders, id));
                }
            } else {
                let i0 = if i < at { i } else { i - 1 };
                let j0 = if j < at { j } else { j - 1 };
                if i == at {
                    assert(has_id(levels[j0].orders, id));
                    assert(side_has_id(levels, id));
                } else if j == at {
                    assert(has_id(levels[i0].orders, id));
                    assert(side_has_id(levels, id));
                } else {
                    assert(has_id(levels[i0].orders, id) && has_id(levels[j0].orders, id));
                }
            }
        }
    }
    assert forall|id: Seq<char>| side_has_id(after, id) <==> (id == order.id || side_has_id(
        levels,
        id,
    )) by {
        if side_has_id(after, id) {
            let i = choose|i: int| 0 <= i < after.len() && has_id(#[trigger] after[i].orders, id);
            if id != order.id {
                if grows {
                    assert(has_id(levels[i].orders, id));
                } else if i < at {
                    assert(has_id(levels[i].orders, id));
                } else {
                    assert(has_id(levels[i - 1].orders, id));
                }
            }
        }
        if id == order.id {
            assert(has_id(after[at].orders, id));
        }
        if side_has_id(levels, id) {
            let i = choose|i: int| 0 <= i < levels.len() && has_id(#[trigger] levels[i].orders, id);
            if grows || i < at {
                assert(has_id(after[i].orders, id));
            } else {
                assert(has_id(after[i + 1].orders, id));
            }
        }
    }
}

proof fn lemma_order_count_update(levels: Seq<LimitView>, at: int, level: LimitView)
    requires
        0 <= at < levels.len(),
    ensures
        order_count(levels.update(at, level)) == order_count(levels) - levels[at].orders.len()
            + level.orders.len(),
    decreases levels.len(),
{
    let after = levels.update(at, level);
    if at == 0 {
        assert(after.skip(1) =~= levels.skip(1));
    } else {
        assert(after.skip(1) =~= levels.skip(1).update(at - 1, level));
        lemma_order_count_update(levels.skip(1), at - 1, level);
        assert(levels.skip(1)[at - 1] == levels[at]);
    }
}

proof fn lemma_order_count_insert(levels: Seq<LimitView>, at: int, level: LimitView)
    requires
        0 <= at <= levels.len(),
    ensures
        order_count(levels.insert(at, level)) == order_count(levels) + level.orders.len(),
    decreases levels.len(),
{
    let after = levels.insert(at, level);
    if at == 0 {
        assert(after.skip(1) =~= levels);
    } else {
        assert(after.skip(1) =~= levels.skip(1).insert(at - 1, level));
        lemma_order_count_insert(levels.skip(1), at - 1, level);
    }
}

proof fn lemma_insert_order_count(
    levels: Seq<LimitView>,
    side: BidOrAsk,
    price: int,
    order: OrderView,
)
    ensures
        order_count(insert_order(levels, side, price, order)) == order_count(levels) + 1,
{
    lemma_rank(levels, side, price);
    let at = rank(levels, side, price);
    let resting = OrderView { price, ..order };
    if at < levels.len() && levels[at].price == price {
        lemma_order_count_update(
            levels,
            at,
            LimitView { price, orders: levels[at].orders.push(resting) },
        );
    } else {
        lemma_order_count_insert(levels, at, LimitView { price, orders: seq![resting] });
    }
}

/// The order with this id among the levels, where there is one.
pub open spec fn find_order(levels: Seq<LimitView>, id: Seq<char>) -> OrderView {
    let level = levels[level_of(levels, id)];
    level.orders[index_of(level.orders, id)]
}

/// The levels once the order with this id has left: its level without it,
/// or no level at that price where it rested there alone.
pub open spec fn remove_order(levels: Seq<LimitView>, id: Seq<char>) -> Seq<LimitView> {
    let at = level_of(levels, id);
    let level = levels[at];
    let orders = level.orders.remove(index_of(level.orders, id));
    if orders.len() == 0 {
        levels.remove(at)
    } else {
        levels.update(at, LimitView { price: level.price, orders })
    }
}

/// An order that leaves valid levels leaves them valid, with no id that was
/// not there.
pub proof fn lemma_remove_order(levels: Seq<LimitView>, side: BidOrAsk, id: Seq<char>)
    requires
        side_wf(levels, side),
        side_has_id(levels, id),
    ensures
        side_wf(remove_order(levels, id), side),
        forall|other: Seq<char>|
            side_has_id(remove_order(levels, id), other) ==> side_has_id(levels, other),
        !side_has_id(remove_order(levels, id), id),
        order_count(remove_order(levels, id)) == order_count(levels) - 1,
{
    let at = level_of(levels, id);
    let level = levels[at];
    assert(level.wf());
    let gone = index_of(level.orders, id);
    assert(0 <= gone < level.orders.len() && level.orders[gone].id == id);
    let orders = level.orders.remove(gone);
    let after = remove_order(levels, id);
    let smaller = LimitView { price: level.price, orders };
    if orders.len() == 0 {
        assert(levels =~= after.insert(at, level));
        lemma_order_count_insert(after, at, level);
    } else {
        lemma_order_count_update(levels, at, smaller);
    }
    assert forall|a: int| 0 <= a < orders.len() implies (#[trigger] orders[a]).size > 0
        && orders[a].price == level.price && orders[a].side == side && orders[a].id != id by {
        let a0 = if a < gone { a } else { a + 1 };
        assert(orders[a] == level.orders[a0]);
        assert(levels[at].orders[a0].side == side);
    }
    assert forall|a: int, b: int| 0 <= a < b < orders.len() implies (#[trigger] orders[a]).id != (
    #[trigger] orders[b]).id by {
        let a0 = if a < gone { a } else { a + 1 };
        let b0 = if b < gone { b } else { b + 1 };
        assert(orders[a] == level.orders[a0]);
        assert(orders[b] == level.orders[b0]);
    }
    assert(smaller.wf());
    assert forall|other: Seq<char>| has_id(orders, other) implies has_id(
        level.orders,
        other,
    ) && other != id by {
        let a = choose|a: int| 0 <= a < orders.len() && (#[trigger] orders[a]).id == other;
        let a0 = if a < gone { a } else { a + 1 };
        assert(orders[a] == level.orders[a0]);
    }
    // Where each level of `after` comes from.
    let drops = orders.len() == 0;
    assert forall|i: int| 0 <= i < after.len() implies ({
        let i0 = if drops && i >= at { i + 1 } else { i };
        &&& 0 <= i0 < levels.len()
        &&& (#[trigger] after[i]).price == levels[i0].price
        &&& (if !drops && i == at { after[i] == smaller } else { after[i] == levels[i0] })
    }) by {}
    assert forall|i: int| 0 <= i < after.len() implies (#[trigger] after[i]).wf()
        && after[i].orders.len() > 0 by {
        let i0 = if drops && i >= at { i + 1 } else { i };
        if !(!drops && i == at) {
            assert(after[i] == levels[i0]);
        }
    }
    assert forall|i: int, k: int|
        0 <= i < after.len() && 0 <= k < after[i].orders.len() implies (
    #[trigger] after[i].orders[k]).side == side by {
        let i0 = if drops && i >= at { i + 1 } else { i };
        if !(!drops && i == at) {
            assert(after[i] == levels[i0]);
        }
    }
    assert forall|i: int, j: int| 0 <= i < j < after.len() implies better(
        side,
        (#[trigger] after[i]).price,
        (#[trigger] after[j]).price,
    ) by {
        let i0 = if drops && i >= at { i + 1 } else { i };
        let j0 = if drops && j >= at { j + 1 } else { j };
        assert(after[i].price == levels[i0].price);
        assert(after[j].price == levels[j0].price);
    }
    assert forall|i: int, other: Seq<char>|
        0 <= i < after.len() && #[trigger] has_id(after[i].orders, other) implies ({
        let i0 = if drops && i >= at { i + 1 } else { i };
        has_id(levels[i0].orders, other) && other != id
    }) by {
        let i0 = if drops && i >= at { i + 1 } else { i };
        if !drops && i == at {
            assert(after[i] == smaller);
        } else {
            assert(after[i] == levels[i0]);
            if other == id {
                assert(has_id(levels[at].orders, id));
                assert(i0 != at);
            }
        }
    }
    assert forall|i: int, j: int, other: Seq<char>|
        #![trigger has_id(after[i].orders, other), has_id(after[j].orders, other)]
        0 <= i < j < after.len() implies !(has_id(after[i].orders, other) && has_id(
        after[j].orders,
        other,
    )) by {
        let i0 = if drops && i >= at { i + 1 } else { i };
        let j0 = if drops && j >= at { j + 1 } else { j };
        if has_id(after[i].orders, other) && has_id(after[j].orders, other) {
            assert(has_id(levels[i0].orders, other) && has_id(levels[j0].orders, other));
        }
    }
    assert forall|other: Seq<char>| side_has_id(after, other) implies side_has_id(
        levels,
        other,
    ) && other != id by {
        let i = choose|i: int| 0 <= i < after.len() && has_id(#[trigger] after[i].orders, other);
        let i0 = if drops && i >= at { i + 1 } else { i };
        assert(has_id(levels[i0].orders, other));
    }
}

/// A valid side without its best level is a valid side, with no id that was
/// not there.
pub proof fn lemma_side_wf_tail(levels: Seq<LimitView>, side: BidOrAsk)
    requires
        side_wf(levels, side),
        levels.len() > 0,
    ensures
        side_wf(levels.skip(1), side),
        forall|id: Seq<char>| side_has_id(levels.skip(1), id) ==> side_has_id(levels, id),
{
    let tail = levels.skip(1);
    assert forall|i: int| 0 <= i < tail.len() implies (#[trigger] tail[i]).wf()
        && tail[i].orders.len() > 0 by {
        assert(tail[i] == levels[i + 1]);
    }
    assert forall|i: int, k: int| 0 <= i < tail.len() && 0 <= k < tail[i].orders.len() implies (
    #[trigger] tail[i].orders[k]).side == side by {
        assert(tail[i] == levels[i + 1]);
    }
    assert forall|i: int, j: int| 0 <= i < j < tail.len() implies better(
        side,
        (#[trigger] tail[i]).price,
        (#[trigger] tail[j]).price,
    ) by {
        assert(tail[i] == levels[i + 1]);
        assert(tail[j] == levels[j + 1]);
    }
    assert forall|i: int, j: int, id: Seq<char>|
        #![trigger has_id(tail[i].orders, id), has_id(tail[j].orders, id)]
        0 <= i < j < tail.len() implies !(has_id(tail[i].orders, id) && has_id(
        tail[j].orders,
        id,
    )) by {
        assert(tail[i] == levels[i + 1]);
        assert(tail[j] == levels[j + 1]);
    }
    assert forall|id: Seq<char>| side_has_id(tail, id) implies side_has_id(levels, id) by {
        let i = choose|i: int| 0 <= i < tail.len() && has_id(#[trigger] tail[i].orders, id);
        assert(tail[i] == levels[i + 1]);
        assert(has_id(levels[i + 1].orders, id));
    }
}

/// The first levels of a valid side are a valid side, and so are the rest.
pub proof fn lemma_side_wf_split(levels: Seq<LimitView>, side: BidOrAsk, at: int)
    requires
        side_wf(levels, side),
        0 <= at <= levels.len(),
    ensures
        side_wf(levels.take(at), side),
        side_wf(levels.skip(at), side),
{
    let head = levels.take(at);
    let tail = levels.skip(at);
    assert forall|i: int, j: int, id: Seq<char>|
        #![trigger has_id(head[i].orders, id), has_id(head[j].orders, id)]
        0 <= i < j < head.len() implies !(has_id(head[i].orders, id) && has_id(
        head[j].orders,
        id,
    )) by {
        assert(head[i] == levels[i]);
        assert(head[j] == levels[j]);
    }
    assert forall|i: int, j: int, id: Seq<char>|
        #![trigger has_id(tail[i].orders, id), has_id(tail[j].orders, id)]
        0 <= i < j < tail.len() implies !(has_id(tail[i].orders, id) && has_id(
        tail[j].orders,
        id,
    )) by {
        assert(tail[i] == levels[i + at]);
        assert(tail[j] == levels[j + at]);
    }
    assert forall|i: int, k: int| 0 <= i < tail.len() && 0 <= k < tail[i].orders.len() implies (
    #[trigger] tail[i].orders[k]).side == side by {
        assert(tail[i] == levels[i + at]);
    }
    assert forall|i: int, k: int| 0 <= i < head.len() && 0 <= k < head[i].orders.len() implies (
    #[trigger] head[i].orders[k]).side == side by {
        assert(head[i] == levels[i]);
    }
    assert forall|i: int, j: int| 0 <= i < j < tail.len() implies better(
        side,
        (#[trigger] tail[i]).price,
        (#[trigger] tail[j]).price,
    ) by {
        assert(tail[i] == levels[i + at]);
        assert(tail[j] == levels[j + at]);
    }
    assert forall|i: int| 0 <= i < tail.len() implies (#[trigger] tail[i]).wf()
        && tail[i].orders.len() > 0 by {
        assert(tail[i] == levels[i + at]);
    }
}

/// Orders are counted level by level.
pub proof fn lemma_order_count_concat(a: Seq<LimitView>, b: Seq<LimitView>)
    ensures
        order_count(a + b) == order_count(a) + order_count(b),
    decreases a.len(),
{
    if a.len() == 0 {
        assert(a + b =~= b);
    } else {
        assert((a + b)[0] == a[0]);
        assert((a + b).skip(1) =~= a.skip(1) + b);
        lemma_order_count_concat(a.skip(1), b);
    }
}

} // verus!
