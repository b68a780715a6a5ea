//! Matching against one side of the book: the walk over its levels, best
//! price first, with or without a limit price, and what holds of every walk.

use crate::limit::{
    fill_orders, has_id, lemma_fill_orders_events, lemma_fill_orders_keeps_valid,
    lemma_level_conservation, lemma_time_priority, lemma_total_size_not_negative, total_size,
    LimitView,
};
use crate::log::{lemma_matched_total_concat, matched_total, LogView};
use crate::order::{BidOrAsk, OrderView};
use crate::side::{
    better, lemma_order_count_concat, lemma_side_wf_split, lemma_side_wf_tail, order_count,
    side_has_id, side_wf,
};
use vstd::prelude::*;

verus! {

/// What matching an incoming order against one side of the book comes to.
pub struct SideFill {
    /// The levels that still hold orders, best price first.
    pub levels: Seq<LimitView>,
    /// What is left of the incoming order.
    pub remaining: int,
    /// The records of the walk, in order.
    pub events: Seq<LogView>,
}

/// The matching walk over the levels of one side, best price first, for an
/// incoming order `taker` of which `remaining` is left, where the first
/// record is stamped `sequence`.
///
/// The walk takes the levels in order for as long as something of the
/// incoming order is left. At each it matches as `fill_orders` says; a level
/// that is drained leaves the book.
pub open spec fn fill_levels(
    levels: Seq<LimitView>,
    taker: Seq<char>,
    remaining: int,
    sequence: int,
) -> SideFill
    decreases levels.len(),
{
    if levels.len() == 0 || remaining <= 0 {
        SideFill { levels, remaining, events: Seq::empty() }
    } else {
        let walk = fill_orders(levels[0].price, levels[0].orders, taker, remaining, sequence);
        let rest = fill_levels(
            levels.skip(1),
            taker,
            walk.remaining,
            sequence + walk.events.len(),
        );
        let head = if walk.kept.len() == 0 {
            Seq::empty()
        } else {
            seq![LimitView { price: levels[0].price, orders: walk.kept }]
        };
        SideFill {
            levels: head + rest.levels,
            remaining: rest.remaining,
            events: walk.events + rest.events,
        }
    }
}

/// What still rests after a walk is a subset, in the old order, of what
/// rested before.
proof fn lemma_kept_ids(
    price: int,
    resting: Seq<OrderView>,
    taker: Seq<char>,
    remaining: int,
    sequence: int,
    id: Seq<char>,
)
    requires
        forall|i: int| 0 <= i < resting.len() ==> (#[trigger] resting[i]).size > 0,
        remaining >= 0,
        has_id(fill_orders(price, resting, taker, remaining, sequence).kept, id),
    ensures
        has_id(resting, id),
{
    lemma_time_priority(price, resting, taker, remaining, sequence);
    let kept = fill_orders(price, resting, taker, remaining, sequence).kept;
    let gone = resting.len() - kept.len();
    let k = choose|k: int| 0 <= k < kept.len() && (#[trigger] kept[k]).id == id;
    assert(resting[gone + k].id == id);
}

/// A walk over the valid levels of a side leaves valid levels of that side,
/// with no id that was not there. It writes at most two records for each
/// order that rested, numbered from the first stamp on without a gap.
pub proof fn lemma_fill_levels(
    levels: Seq<LimitView>,
    side: BidOrAsk,
    taker: Seq<char>,
    remaining: int,
    sequence: int,
)
    requires
        side_wf(levels, side),
        remaining >= 0,
    ensures
        ({
            let fill = fill_levels(levels, taker, remaining, sequence);
            &&& side_wf(fill.levels, side)
            &&& forall|id: Seq<char>| side_has_id(fill.levels, id) ==> side_has_id(levels, id)
            &&& 0 <= fill.remaining <= remaining
            &&& fill.levels.len() > 0 ==> fill.remaining == 0
            &&& fill.events.len() <= 2 * order_count(levels)
            &&& order_count(fill.levels) <= order_count(levels)
            &&& forall|i: int|
                0 <= i < fill.events.len() ==> (#[trigger] fill.events[i]).sequence() == sequence
                    + i
        }),
    decreases levels.len(),
{
    let fill = fill_levels(levels, taker, remaining, sequence);
    if levels.len() == 0 || remaining <= 0 {
    } else {
        let first = levels[0];
        let tail = levels.skip(1);
        assert(first.wf());
        let walk = fill_orders(first.price, first.orders, taker, remaining, sequence);
        lemma_time_priority(first.price, first.orders, taker, remaining, sequence);
        lemma_fill_orders_events(first.price, first.orders, taker, remaining, sequence);
        lemma_fill_orders_keeps_valid(first.price, first.orders, taker, remaining, sequence);
        lemma_side_wf_tail(levels, side);
        let next = sequence + walk.events.len();
        let rest = fill_levels(tail, taker, walk.remaining, next);
        lemma_fill_levels(tail, side, taker, walk.remaining, next);
        assert forall|i: int| 0 <= i < fill.events.len() implies (
        #[trigger] fill.events[i]).sequence() == sequence + i by {
            if i >= walk.events.len() {
                assert(fill.events[i] == rest.events[i - walk.events.len()]);
            } else {
                assert(fill.events[i] == walk.events[i]);
            }
        }
        if walk.kept.len() == 0 {
            assert(fill.levels =~= rest.levels);
        } else {
            let reduced = LimitView { price: first.price, orders: walk.kept };
            assert(rest.levels == tail);
            assert(fill.levels =~= seq![reduced] + tail);
            let after = fill.levels;
            let gone = first.orders.len() - walk.kept.len();
            assert(reduced.wf());
            assert forall|i: int| 0 <= i < after.len() implies (#[trigger] after[i]).wf()
                && after[i].orders.len() > 0 by {
                if i > 0 {
                    assert(after[i] == levels[i]);
                }
            }
            assert forall|i: int, k: int|
                0 <= i < after.len() && 0 <= k < after[i].orders.len() implies (
            #[trigger] after[i].orders[k]).side == side by {
                if i > 0 {
                    assert(after[i] == levels[i]);
                } else {
                    assert(walk.kept[k].side == first.orders[gone + k].side);
                    assert(levels[0].orders[gone + k].side == side);
                }
            }
            assert forall|i: int, j: int| 0 <= i < j < after.len() implies better(
                side,
                (#[trigger] after[i]).price,
                (#[trigger] after[j]).price,
            ) by {
                assert(after[i].price == levels[i].price);
                assert(after[j].price == levels[j].price);
            }
            assert forall|i: int, id: Seq<char>|
                0 <= i < after.len() && #[trigger] has_id(after[i].orders, id) implies has_id(
                levels[i].orders,
                id,
            ) by {
                if i > 0 {
                    assert(after[i] == levels[i]);
                } else {
                    lemma_kept_ids(first.price, first.orders, taker, remaining, sequence, id);
                }
            }
            assert forall|i: int, j: int, id: Seq<char>|
                #![trigger has_id(after[i].orders, id), has_id(after[j].orders, id)]
                0 <= i < j < after.len() implies !(has_id(after[i].orders, id) && has_id(
                after[j].orders,
                id,
            )) by {
                if has_id(after[i].orders, id) && has_id(after[j].orders, id) {
                    assert(has_id(levels[i].orders, id) && has_id(levels[j].orders, id));
                }
            }
            assert(after.skip(1) =~= tail);
        }
        assert forall|id: Seq<char>| side_has_id(fill.levels, id) implies side_has_id(
            levels,
            id,
        ) by {
            let after = fill.levels;
            let i = choose|i: int| 0 <= i < after.len() && has_id(#[trigger] after[i].orders, id);
            if walk.kept.len() == 0 {
                assert(has_id(rest.levels[i].orders, id));
                assert(side_has_id(rest.levels, id));
                assert(side_has_id(tail, id));
            } else if i == 0 {
                lemma_kept_ids(first.price, first.orders, taker, remaining, sequence, id);
                assert(has_id(levels[0].orders, id));
            } else {
                assert(after[i] == levels[i]);
                assert(has_id(levels[i].orders, id));
            }
        }
    }
}


/// The sizes of all orders that rest at the levels, added up.
pub open spec fn side_total(levels: Seq<LimitView>) -> int
    decreases levels.len(),
{
    if levels.len() == 0 {
        0
    } else {
        total_size(levels[0].orders) + side_total(levels.skip(1))
    }
}

proof fn lemma_side_total_not_negative(levels: Seq<LimitView>, side: BidOrAsk)
    requires
        side_wf(levels, side),
    ensures
        0 <= side_total(levels),
    decreases levels.len(),
{
    if levels.len() > 0 {
        lemma_side_wf_tail(levels, side);
        lemma_side_total_not_negative(levels.skip(1), side);
        let first = levels[0];
        assert(first.wf());
        assert forall|i: int| 0 <= i < first.orders.len() implies (
        #[trigger] first.orders[i]).size >= 0 by {}
        lemma_total_size_not_negative(first.orders);
    }
}

/// Conservation. The fill steps of a walk over one side add up to what the
/// incoming order had, or to all that rested on that side, whichever is
/// less; what is left of the incoming order is what it had less that; and
/// the side has lost as much.
pub proof fn lemma_conservation(
    levels: Seq<LimitView>,
    side: BidOrAsk,
    taker: Seq<char>,
    remaining: int,
    sequence: int,
)
    requires
        side_wf(levels, side),
        remaining >= 0,
    ensures
        ({
            let fill = fill_levels(levels, taker, remaining, sequence);
            let matched = matched_total(fill.events);
            &&& matched == if remaining <= side_total(levels) {
                remaining
            } else {
                side_total(levels)
            }
            &&& fill.remaining == remaining - matched
            &&& side_total(fill.levels) == side_total(levels) - matched
        }),
    decreases levels.len(),
{
    let fill = fill_levels(levels, taker, remaining, sequence);
    lemma_side_total_not_negative(levels, side);
    if levels.len() == 0 || remaining <= 0 {
    } else {
        let first = levels[0];
        let tail = levels.skip(1);
        assert(first.wf());
        let walk = fill_orders(first.price, first.orders, taker, remaining, sequence);
        lemma_level_conservation(first.price, first.orders, taker, remaining, sequence);
        lemma_time_priority(first.price, first.orders, taker, remaining, sequence);
        lemma_side_wf_tail(levels, side);
        lemma_side_total_not_negative(tail, side);
        let next = sequence + walk.events.len();
        let rest = fill_levels(tail, taker, walk.remaining, next);
        lemma_conservation(tail, side, taker, walk.remaining, next);
        lemma_matched_total_concat(walk.events, rest.events);
        if walk.kept.len() == 0 {
            assert(fill.levels =~= rest.levels);
            assert(total_size(walk.kept) == 0);
        } else {
            let reduced = LimitView { price: first.price, orders: walk.kept };
            assert(rest.levels == tail);
            assert(fill.levels[0] == reduced);
            assert(fill.levels.skip(1) =~= tail);
        }
    }
}

/// True when one of the levels is at this price.
pub open spec fn has_price(levels: Seq<LimitView>, price: int) -> bool {
    exists|k: int| 0 <= k < levels.len() && (#[trigger] levels[k]).price == price
}

/// Price priority. On a side whose levels stand best price first, no fill
/// step of a walk is at a better price than a step before it, and no level
/// that still rests is at a better price than any step: a level is touched
/// only once all better ones are drained. Every step is made at the price of
/// a level, and every level that rests was there before.
pub proof fn lemma_price_priority(
    levels: Seq<LimitView>,
    side: BidOrAsk,
    taker: Seq<char>,
    remaining: int,
    sequence: int,
)
    requires
        side_wf(levels, side),
        remaining >= 0,
    ensures
        ({
            let fill = fill_levels(levels, taker, remaining, sequence);
            &&& forall|i: int, j: int|
                0 <= i < j < fill.events.len() ==> match (
                    #[trigger] fill.events[i],
                    #[trigger] fill.events[j],
                ) {
                    (LogView::Match(a), LogView::Match(b)) => !better(side, b.price, a.price),
                    _ => true,
                }
            &&& forall|i: int, k: int|
                0 <= i < fill.events.len() && 0 <= k < fill.levels.len() ==> match #[trigger] fill.events[i] {
                    LogView::Match(a) => !better(side, (#[trigger] fill.levels[k]).price, a.price),
                    _ => true,
                }
            &&& forall|i: int|
                0 <= i < fill.events.len() ==> match #[trigger] fill.events[i] {
                    LogView::Match(a) => has_price(levels, a.price),
                    _ => true,
                }
            &&& forall|k: int|
                0 <= k < fill.levels.len() ==> has_price(levels, (#[trigger] fill.levels[k]).price)
        }),
    decreases levels.len(),
{
    let fill = fill_levels(levels, taker, remaining, sequence);
    if levels.len() == 0 || remaining <= 0 {
        assert forall|k: int| 0 <= k < fill.levels.len() implies has_price(
            levels,
            (#[trigger] fill.levels[k]).price,
        ) by {
            assert(levels[k].price == fill.levels[k].price);
        }
    } else {
        let first = levels[0];
        let tail = levels.skip(1);
        assert(first.wf());
        let walk = fill_orders(first.price, first.orders, taker, remaining, sequence);
        lemma_time_priority(first.price, first.orders, taker, remaining, sequence);
        lemma_fill_orders_events(first.price, first.orders, taker, remaining, sequence);
        lemma_side_wf_tail(levels, side);
        let next = sequence + walk.events.len();
        let rest = fill_levels(tail, taker, walk.remaining, next);
        lemma_price_priority(tail, side, taker, walk.remaining, next);
        let n = walk.events.len() as int;
        let head = if walk.kept.len() == 0 {
            Seq::empty()
        } else {
            seq![LimitView { price: first.price, orders: walk.kept }]
        };
        assert(fill.levels == head + rest.levels);
        assert(fill.events == walk.events + rest.events);
        // Every price of the tail is a price of the levels, and is no better
        // than the first.
        assert forall|p: int| has_price(tail, p) implies has_price(levels, p) && !better(
            side,
            p,
            first.price,
        ) by {
            let k = choose|k: int| 0 <= k < tail.len() && (#[trigger] tail[k]).price == p;
            assert(tail[k] == levels[k + 1]);
            assert(better(side, levels[0].price, levels[k + 1].price));
        }
        assert(has_price(levels, first.price)) by {
            assert(levels[0].price == first.price);
        }
        assert forall|i: int| 0 <= i < fill.events.len() implies match #[trigger] fill.events[i] {
            LogView::Match(a) => has_price(levels, a.price) && (i < n ==> a.price == first.price)
                && (i >= n ==> has_price(tail, a.price)),
            _ => true,
        } by {
            if i < n {
                assert(fill.events[i] == walk.events[i]);
            } else {
                assert(fill.events[i] == rest.events[i - n]);
            }
        }
        assert forall|k: int| 0 <= k < fill.levels.len() implies has_price(
            levels,
            (#[trigger] fill.levels[k]).price,
        ) && (k >= head.len() ==> has_price(tail, fill.levels[k].price)) by {
            if k >= head.len() {
                assert(fill.levels[k] == rest.levels[k - head.len()]);
            }
        }
        assert forall|i: int, j: int| 0 <= i < j < fill.events.len() implies match (
            #[trigger] fill.events[i],
            #[trigger] fill.events[j],
        ) {
            (LogView::Match(a), LogView::Match(b)) => !better(side, b.price, a.price),
            _ => true,
        } by {
            if i >= n {
                assert(fill.events[i] == rest.events[i - n]);
                assert(fill.events[j] == rest.events[j - n]);
            } else if j < n {
                assert(fill.events[i] == walk.events[i]);
                assert(fill.events[j] == walk.events[j]);
            } else {
                assert(fill.events[i] == walk.events[i]);
                assert(fill.events[j] == rest.events[j - n]);
            }
        }
        assert forall|i: int, k: int|
            0 <= i < fill.events.len() && 0 <= k < fill.levels.len() implies match #[trigger] fill.events[i] {
            LogView::Match(a) => !better(side, (#[trigger] fill.levels[k]).price, a.price),
            _ => true,
        } by {
            if i < n {
                assert(fill.events[i] == walk.events[i]);
                if k >= head.len() {
                    assert(fill.levels[k] == rest.levels[k - head.len()]);
                }
            } else {
                assert(fill.events[i] == rest.events[i - n]);
                // Something was matched beyond the first level, so that level
                // is drained and gone.
                assert(head.len() == 0);
                assert(fill.levels[k] == rest.levels[k]);
            }
        }
    }
}

/// True when a level at `price` on `side` can be matched by an order of the
/// other side with the limit price `limit`: an ask no higher than the limit
/// of a bid, a bid no lower than the limit of an ask.
pub open spec fn crosses(side: BidOrAsk, price: int, limit: int) -> bool {
    !better(side, limit, price)
}

/// The number of levels, from the best on, that an order of the other side
/// with the limit price `limit` can be matched against.
pub open spec fn reach(levels: Seq<LimitView>, side: BidOrAsk, limit: int) -> int
    decreases levels.len(),
{
    if levels.len() > 0 && crosses(side, levels[0].price, limit) {
        1 + reach(levels.skip(1), side, limit)
    } else {
        0
    }
}

/// The matching walk of an incoming order with a limit price: the walk of
/// `fill_levels` over the levels that the limit reaches, and the levels
/// beyond as they were.
pub open spec fn limit_fill(
    levels: Seq<LimitView>,
    side: BidOrAsk,
    limit: int,
    taker: Seq<char>,
    remaining: int,
    sequence: int,
) -> SideFill {
    let within = reach(levels, side, limit);
    let fill = fill_levels(levels.take(within), taker, remaining, sequence);
    SideFill {
        levels: fill.levels + levels.skip(within),
        remaining: fill.remaining,
        events: fill.events,
    }
}

/// How far a limit price reaches: every level within reach can be matched,
/// and the first level beyond cannot.
pub proof fn lemma_reach(levels: Seq<LimitView>, side: BidOrAsk, limit: int)
    ensures
        0 <= reach(levels, side, limit) <= levels.len(),
        forall|j: int|
            0 <= j < reach(levels, side, limit) ==> crosses(
                side,
                (#[trigger] levels[j]).price,
                limit,
            ),
        reach(levels, side, limit) < levels.len() ==> !crosses(
            side,
            levels[reach(levels, side, limit)].price,
            limit,
        ),
    decreases levels.len(),
{
    if levels.len() > 0 && crosses(side, levels[0].price, limit) {
        let tail = levels.skip(1);
        lemma_reach(tail, side, limit);
        let r = reach(tail, side, limit);
        assert forall|j: int| 0 <= j < r + 1 implies crosses(
            side,
            (#[trigger] levels[j]).price,
            limit,
        ) by {
            if j > 0 {
                assert(tail[j - 1] == levels[j]);
            }
        }
        if r + 1 < levels.len() {
            assert(tail[r] == levels[r + 1]);
        }
    }
}

/// A walk with a limit price over the valid levels of a side leaves valid
/// levels of that side, with no id that was not there. It writes at most two
/// records for each order that rested, numbered from the first stamp on
/// without a gap. Where something of the incoming order is left, no level
/// that its limit reaches rests any more.
pub proof fn lemma_limit_fill(
    levels: Seq<LimitView>,
    side: BidOrAsk,
    limit: int,
    taker: Seq<char>,
    remaining: int,
    sequence: int,
)
    requires
        side_wf(levels, side),
        remaining >= 0,
    ensures
        ({
            let fill = limit_fill(levels, side, limit, taker, remaining, sequence);
            &&& side_wf(fill.levels, side)
            &&& forall|id: Seq<char>| side_has_id(fill.levels, id) ==> side_has_id(levels, id)
            &&& 0 <= fill.remaining <= remaining
            &&& fill.remaining > 0 ==> reach(fill.levels, side, limit) == 0
            &&& fill.events.len() <= 2 * order_count(levels)
            &&& order_count(fill.levels) <= order_count(levels)
            &&& forall|i: int|
                0 <= i < fill.events.len() ==> (#[trigger] fill.events[i]).sequence() == sequence
                    + i
        }),
{
    let within = reach(levels, side, limit);
    lemma_reach(levels, side, limit);
    let head = levels.take(within);
    let tail = levels.skip(within);
    lemma_side_wf_split(levels, side, within);
    let inner = fill_levels(head, taker, remaining, sequence);
    lemma_fill_levels(head, side, taker, remaining, sequence);
    lemma_price_priority(head, side, taker, remaining, sequence);
    assert(levels =~= head + tail);
    lemma_order_count_concat(head, tail);
    lemma_order_count_concat(inner.levels, tail);
    let after = inner.levels + tail;
    let kept = inner.levels.len() as int;
    // Where each level of `after` comes from.
    assert forall|i: int| 0 <= i < kept implies exists|k: int|
        0 <= k < within && levels[k].price == (#[trigger] after[i]).price by {
        assert(after[i] == inner.levels[i]);
        assert(has_price(head, inner.levels[i].price));
        let k = choose|k: int| 0 <= k < head.len() && (#[trigger] head[k]).price
            == inner.levels[i].price;
        assert(head[k] == levels[k]);
    }
    assert forall|i: int, id: Seq<char>|
        0 <= i < kept && #[trigger] has_id(after[i].orders, id) implies side_has_id(head, id) by {
        assert(after[i] == inner.levels[i]);
        assert(has_id(inner.levels[i].orders, id));
        assert(side_has_id(inner.levels, id));
    }
    assert forall|id: Seq<char>| side_has_id(head, id) implies exists|k: int|
        0 <= k < within && has_id(#[trigger] levels[k].orders, id) by {
        let k = choose|k: int| 0 <= k < head.len() && has_id(#[trigger] head[k].orders, id);
        assert(head[k] == levels[k]);
        assert(has_id(levels[k].orders, id));
    }
    assert forall|i: int| 0 <= i < after.len() implies (#[trigger] after[i]).wf()
        && after[i].orders.len() > 0 by {
        if i < kept {
            assert(after[i] == inner.levels[i]);
        } else {
            assert(after[i] == tail[i - kept]);
        }
    }
    assert forall|i: int, k: int| 0 <= i < after.len() && 0 <= k < after[i].orders.len() implies (
    #[trigger] after[i].orders[k]).side == side by {
        if i < kept {
            assert(after[i] == inner.levels[i]);
        } else {
            assert(after[i] == tail[i - kept]);
        }
    }
    assert forall|i: int, j: int| 0 <= i < j < after.len() implies better(
        side,
        (#[trigger] after[i]).price,
        (#[trigger] after[j]).price,
    ) by {
        if j < kept {
            assert(after[i] == inner.levels[i]);
            assert(after[j] == inner.levels[j]);
        } else if i >= kept {
            assert(after[i] == tail[i - kept]);
            assert(after[j] == tail[j - kept]);
        } else {
            let k = choose|k: int| 0 <= k < within && levels[k].price == after[i].price;
            assert(after[j] == levels[j - kept + within]);
            assert(better(side, levels[k].price, levels[j - kept + within].price));
        }
    }
    assert forall|i: int, j: int, id: Seq<char>|
        #![trigger has_id(after[i].orders, id), has_id(after[j].orders, id)]
        0 <= i < j < after.len() implies !(has_id(after[i].orders, id) && has_id(
        after[j].orders,
        id,
    )) by {
        if has_id(after[i].orders, id) && has_id(after[j].orders, id) {
            if j < kept {
                assert(after[i] == inner.levels[i]);
                assert(after[j] == inner.levels[j]);
            } else if i >= kept {
                assert(after[i] == tail[i - kept]);
                assert(after[j] == tail[j - kept]);
            } else {
                assert(side_has_id(head, id));
                let k = choose|k: int| 0 <= k < within && has_id(#[trigger] levels[k].orders, id);
                assert(after[j] == levels[j - kept + within]);
                assert(has_id(levels[k].orders, id) && has_id(
                    levels[j - kept + within].orders,
                    id,
                ));
            }
        }
    }
    assert forall|id: Seq<char>| side_has_id(after, id) implies side_has_id(levels, id) by {
        let i = choose|i: int| 0 <= i < after.len() && has_id(#[trigger] after[i].orders, id);
        if i < kept {
            assert(side_has_id(head, id));
            let k = choose|k: int| 0 <= k < within && has_id(#[trigger] levels[k].orders, id);
            assert(has_id(levels[k].orders, id));
        } else {
            assert(after[i] == levels[i - kept + within]);
            assert(has_id(levels[i - kept + within].orders, id));
        }
    }
    if inner.remaining > 0 {
        assert(kept == 0);
        assert(after =~= tail);
        if tail.len() > 0 {
            assert(tail[0] == levels[within]);
        }
    }
}

} // verus!
