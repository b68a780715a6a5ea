//! One price level: the orders that rest at one price, in order of arrival.

use crate::decimal::{decimal_add, decimal_le, decimal_sub, Decimal, MAX_MANTISSA};
use crate::error::EngineError;
use crate::log::{
    lemma_match_makers_concat, lemma_matched_total_concat, log_views, match_makers,
    matched_total, pair_name, pair_tag, DoneLog, DoneLogView, DoneReason, Log, LogView, MatchLog,
    MatchLogView, OpenLog, OpenLogView,
};
use crate::order::{order_views, Order, OrderView};
use vstd::prelude::*;

verus! {

/// True when some order of the list has this id.
pub open spec fn has_id(orders: Seq<OrderView>, id: Seq<char>) -> bool {
    exists|i: int| 0 <= i < orders.len() && (#[trigger] orders[i]).id == id
}

/// The place of an order with this id in the list, where there is one.
pub open spec fn index_of(orders: Seq<OrderView>, id: Seq<char>) -> int {
    choose|i: int| 0 <= i < orders.len() && (#[trigger] orders[i]).id == id
}

/// True when no two orders of the list share an id.
pub open spec fn distinct_ids(orders: Seq<OrderView>) -> bool {
    forall|i: int, j: int|
        0 <= i < j < orders.len() ==> (#[trigger] orders[i]).id != (#[trigger] orders[j]).id
}

/// True when every order of the list has something left and carries this
/// price.
pub open spec fn all_rest_at(orders: Seq<OrderView>, price: int) -> bool {
    forall|i: int|
        0 <= i < orders.len() ==> (#[trigger] orders[i]).size > 0 && orders[i].price == price
}

/// The sizes of the orders of the list, added up.
pub open spec fn total_size(orders: Seq<OrderView>) -> int
    decreases orders.len(),
{
    if orders.len() == 0 {
        0
    } else {
        orders[0].size + total_size(orders.skip(1))
    }
}

/// What a price level is: its price and its orders, earliest first.
pub struct LimitView {
    pub price: int,
    pub orders: Seq<OrderView>,
}

impl LimitView {
    /// A level's price is positive. Its orders all carry that price, have
    /// something left, and differ in their ids.
    pub open spec fn wf(self) -> bool {
        &&& self.price > 0
        &&& all_rest_at(self.orders, self.price)
        &&& distinct_ids(self.orders)
    }
}

/// What matching an incoming order against one level comes to.
pub struct LevelFill {
    /// The orders that still rest, earliest first.
    pub kept: Seq<OrderView>,
    /// What is left of the incoming order.
    pub remaining: int,
    /// The records of the walk, in order.
    pub events: Seq<LogView>,
}

/// The record of one fill step.
pub open spec fn match_event(
    sequence: int,
    taker: Seq<char>,
    maker: OrderView,
    price: int,
    matched: int,
) -> LogView {
    LogView::Match(
        MatchLogView {
            sequence,
            pair: pair_tag(),
            taker_order_id: taker,
            maker_order_id: maker.id,
            price,
            size: matched,
        },
    )
}

/// The record of a resting order that matching has drained.
pub open spec fn filled_event(sequence: int, maker: OrderView, price: int) -> LogView {
    LogView::Done(
        DoneLogView {
            sequence,
            pair: pair_tag(),
            order_id: maker.id,
            price,
            remaining_size: 0,
            reason: DoneReason::Filled,
            side: maker.side,
        },
    )
}

/// The matching walk over the orders of one level at `price`, for an incoming
/// order `taker` of which `remaining` is left, where the first record is
/// stamped `sequence`.
///
/// The walk takes the resting orders in order of arrival for as long as
/// something of the incoming order is left. Each step matches as much as both
/// sides have and records it; a resting order that is drained leaves, and a
/// second record says so.
pub open spec fn fill_orders(
    price: int,
    resting: Seq<OrderView>,
    taker: Seq<char>,
    remaining: int,
    sequence: int,
) -> LevelFill
    decreases resting.len(),
{
    if resting.len() == 0 || remaining <= 0 {
        LevelFill { kept: resting, remaining, events: Seq::empty() }
    } else {
        let maker = resting[0];
        let matched = if remaining <= maker.size {
            remaining
        } else {
            maker.size
        };
        let left = maker.size - matched;
        let matching = match_event(sequence, taker, maker, price, matched);
        let rest = fill_orders(
            price,
            resting.skip(1),
            taker,
            remaining - matched,
            if left == 0 {
                sequence + 2
            } else {
                sequence + 1
            },
        );
        if left == 0 {
            LevelFill {
                kept: rest.kept,
                remaining: rest.remaining,
                events: seq![matching, filled_event(sequence + 1, maker, price)] + rest.events,
            }
        } else {
            LevelFill {
                kept: seq![OrderView { size: left, ..maker }] + rest.kept,
                remaining: rest.remaining,
                events: seq![matching] + rest.events,
            }
        }
    }
}

/// Time priority. Of the orders of a level, the walk drains those that
/// came first entirely before it touches the next: what still rests is the
/// tail of the queue, in its old order, and only the first of it can have
/// lost size. The fill steps name the makers in order of arrival. Something
/// of the incoming order is left only where nothing rests any more.
pub proof fn lemma_time_priority(
    price: int,
    resting: Seq<OrderView>,
    taker: Seq<char>,
    remaining: int,
    sequence: int,
)
    requires
        forall|i: int| 0 <= i < resting.len() ==> (#[trigger] resting[i]).size > 0,
        remaining >= 0,
    ensures
        ({
            let walk = fill_orders(price, resting, taker, remaining, sequence);
            let gone = resting.len() - walk.kept.len();
            let makers = match_makers(walk.events);
            &&& 0 <= gone <= resting.len()
            &&& 0 <= walk.remaining <= remaining
            &&& walk.kept.len() > 0 ==> walk.remaining == 0
            &&& forall|j: int|
                0 <= j < walk.kept.len() ==> #[trigger] walk.kept[j] == (OrderView {
                    size: walk.kept[j].size,
                    ..resting[gone + j]
                })
            &&& forall|j: int| 0 < j < walk.kept.len() ==> #[trigger] walk.kept[j] == resting[gone + j]
            &&& walk.kept.len() > 0 ==> 0 < walk.kept[0].size <= resting[gone].size
            &&& gone <= makers.len() <= gone + 1
            &&& makers.len() <= resting.len()
            &&& forall|k: int| 0 <= k < makers.len() ==> #[trigger] makers[k] == resting[k].id
            &&& walk.events.len() == gone + makers.len()
        }),
    decreases resting.len(),
{
    let walk = fill_orders(price, resting, taker, remaining, sequence);
    if resting.len() == 0 || remaining <= 0 {
        assert(match_makers(walk.events) =~= Seq::empty());
    } else {
        let maker = resting[0];
        let tail = resting.skip(1);
        assert forall|i: int| 0 <= i < tail.len() implies (#[trigger] tail[i]).size > 0 by {
            assert(tail[i] == resting[i + 1]);
        }
        let matched = if remaining <= maker.size {
            remaining
        } else {
            maker.size
        };
        let left = maker.size - matched;
        let next = if left == 0 {
            sequence + 2
        } else {
            sequence + 1
        };
        let rest = fill_orders(price, tail, taker, remaining - matched, next);
        lemma_time_priority(price, tail, taker, remaining - matched, next);
        let matching = match_event(sequence, taker, maker, price, matched);
        let head = if left == 0 {
            seq![matching, filled_event(sequence + 1, maker, price)]
        } else {
            seq![matching]
        };
        assert(walk.events == head + rest.events);
        lemma_match_makers_concat(head, rest.events);
        assert(match_makers(head) =~= seq![maker.id]) by {
            reveal_with_fuel(match_makers, 3);
            if left == 0 {
                assert(head.skip(1) =~= seq![filled_event(sequence + 1, maker, price)]);
                assert(head.skip(1).skip(1) =~= Seq::<LogView>::empty());
            } else {
                assert(head.skip(1) =~= Seq::<LogView>::empty());
            }
        }
        let makers = match_makers(walk.events);
        let later = match_makers(rest.events);
        assert(makers =~= seq![maker.id] + later);
        assert forall|k: int| 0 <= k < makers.len() implies #[trigger] makers[k]
            == resting[k].id by {
            if k > 0 {
                assert(makers[k] == later[k - 1]);
                assert(tail[k - 1] == resting[k]);
            }
        }
        let gone = resting.len() - walk.kept.len();
        if left == 0 {
            let gone_rest = tail.len() - rest.kept.len();
            assert(gone == gone_rest + 1);
            assert forall|j: int| 0 <= j < walk.kept.len() implies #[trigger] walk.kept[j] == (
            OrderView { size: walk.kept[j].size, ..resting[gone + j] }) by {
                assert(tail[gone_rest + j] == resting[gone + j]);
            }
            assert forall|j: int| 0 < j < walk.kept.len() implies #[trigger] walk.kept[j]
                == resting[gone + j] by {
                assert(tail[gone_rest + j] == resting[gone + j]);
            }
            if walk.kept.len() > 0 {
                assert(tail[gone_rest] == resting[gone]);
            }
        } else {
            assert(rest.kept == tail);
            assert(later =~= Seq::empty());
            assert(gone == 0);
            assert forall|j: int| 0 < j < walk.kept.len() implies #[trigger] walk.kept[j]
                == resting[gone + j] by {
                assert(walk.kept[j] == tail[j - 1]);
            }
            assert forall|j: int| 0 <= j < walk.kept.len() implies #[trigger] walk.kept[j] == (
            OrderView { size: walk.kept[j].size, ..resting[gone + j] }) by {
                if j > 0 {
                    assert(walk.kept[j] == tail[j - 1]);
                }
            }
        }
    }
}

/// The records of a walk carry consecutive sequence numbers, from the first
/// stamp on. Its fill steps are all at the level's price.
pub proof fn lemma_fill_orders_events(
    price: int,
    resting: Seq<OrderView>,
    taker: Seq<char>,
    remaining: int,
    sequence: int,
)
    ensures
        ({
            let events = fill_orders(price, resting, taker, remaining, sequence).events;
            &&& forall|i: int|
                0 <= i < events.len() ==> (#[trigger] events[i]).sequence() == sequence + i
            &&& forall|i: int|
                0 <= i < events.len() ==> match #[trigger] events[i] {
                    LogView::Match(m) => m.price == price && m.taker_order_id == taker,
                    LogView::Done(d) => d.price == price && d.reason == DoneReason::Filled,
                    _ => false,
                }
        }),
    decreases resting.len(),
{
    if resting.len() == 0 || remaining <= 0 {
    } else {
        let maker = resting[0];
        let matched = if remaining <= maker.size {
            remaining
        } else {
            maker.size
        };
        let left = maker.size - matched;
        let next = if left == 0 {
            sequence + 2
        } else {
            sequence + 1
        };
        lemma_fill_orders_events(price, resting.skip(1), taker, remaining - matched, next);
        let rest = fill_orders(price, resting.skip(1), taker, remaining - matched, next);
        let events = fill_orders(price, resting, taker, remaining, sequence).events;
        let head = next - sequence;
        assert forall|i: int| 0 <= i < events.len() implies (#[trigger] events[i]).sequence()
            == sequence + i by {
            if i >= head {
                assert(events[i] == rest.events[i - head]);
            }
        }
        assert forall|i: int| 0 <= i < events.len() implies match #[trigger] events[i] {
            LogView::Match(m) => m.price == price && m.taker_order_id == taker,
            LogView::Done(d) => d.price == price && d.reason == DoneReason::Filled,
            _ => false,
        } by {
            if i >= head {
                assert(events[i] == rest.events[i - head]);
            }
        }
    }
}

/// Conservation at one level. The fill steps of a walk add up to what the
/// incoming order had, or to all that rested at the level, whichever is
/// less; and what is left of the incoming order is what it had less that.
pub proof fn lemma_level_conservation(
    price: int,
    resting: Seq<OrderView>,
    taker: Seq<char>,
    remaining: int,
    sequence: int,
)
    requires
        forall|i: int| 0 <= i < resting.len() ==> (#[trigger] resting[i]).size > 0,
        remaining >= 0,
    ensures
        ({
            let walk = fill_orders(price, resting, taker, remaining, sequence);
            let matched = matched_total(walk.events);
            &&& matched == if remaining <= total_size(resting) {
                remaining
            } else {
                total_size(resting)
            }
            &&& walk.remaining == remaining - matched
            &&& total_size(walk.kept) == total_size(resting) - matched
        }),
    decreases resting.len(),
{
    let walk = fill_orders(price, resting, taker, remaining, sequence);
    assert forall|i: int| 0 <= i < resting.len() implies (#[trigger] resting[i]).size >= 0 by {}
    lemma_total_size_not_negative(resting);
    if resting.len() == 0 || remaining <= 0 {
    } else {
        let maker = resting[0];
        let tail = resting.skip(1);
        assert forall|i: int| 0 <= i < tail.len() implies (#[trigger] tail[i]).size > 0 by {
            assert(tail[i] == resting[i + 1]);
        }
        assert forall|i: int| 0 <= i < tail.len() implies (#[trigger] tail[i]).size >= 0 by {}
        lemma_total_size_not_negative(tail);
        let matched = if remaining <= maker.size {
            remaining
        } else {
            maker.size
        };
        let left = maker.size - matched;
        let next = if left == 0 {
            sequence + 2
        } else {
            sequence + 1
        };
        let rest = fill_orders(price, tail, taker, remaining - matched, next);
        lemma_level_conservation(price, tail, taker, remaining - matched, next);
        let matching = match_event(sequence, taker, maker, price, matched);
        let head = if left == 0 {
            seq![matching, filled_event(sequence + 1, maker, price)]
        } else {
            seq![matching]
        };
        assert(walk.events == head + rest.events);
        lemma_matched_total_concat(head, rest.events);
        assert(matched_total(head) == matched) by {
            reveal_with_fuel(matched_total, 3);
            if left == 0 {
                assert(head.skip(1) =~= seq![filled_event(sequence + 1, maker, price)]);
                assert(head.skip(1).skip(1) =~= Seq::<LogView>::empty());
            } else {
                assert(head.skip(1) =~= Seq::<LogView>::empty());
            }
        }
        if left != 0 {
            let reduced = OrderView { size: left, ..maker };
            assert(rest.kept == tail);
            assert(walk.kept[0] == reduced);
            assert(walk.kept.skip(1) =~= tail);
        }
    }
}

/// A walk over valid resting orders leaves valid resting orders.
pub proof fn lemma_fill_orders_keeps_valid(
    price: int,
    resting: Seq<OrderView>,
    taker: Seq<char>,
    remaining: int,
    sequence: int,
)
    requires
        all_rest_at(resting, price),
        distinct_ids(resting),
        remaining >= 0,
    ensures
        all_rest_at(fill_orders(price, resting, taker, remaining, sequence).kept, price),
        distinct_ids(fill_orders(price, resting, taker, remaining, sequence).kept),
{
    lemma_time_priority(price, resting, taker, remaining, sequence);
    let kept = fill_orders(price, resting, taker, remaining, sequence).kept;
    let gone = resting.len() - kept.len();
    assert forall|i: int| 0 <= i < kept.len() implies (#[trigger] kept[i]).size > 0 && kept[i].price
        == price by {
        assert(kept[i].price == resting[gone + i].price);
        if i > 0 {
            assert(kept[i] == resting[gone + i]);
        }
    }
    assert forall|i: int, j: int| 0 <= i < j < kept.len() implies (#[trigger] kept[i]).id != (
    #[trigger] kept[j]).id by {
        assert(kept[i].id == resting[gone + i].id);
        assert(kept[j].id == resting[gone + j].id);
    }
}

/// What a list of levels is, in order.
pub open spec fn level_views(levels: Seq<Limit>) -> Seq<LimitView> {
    levels.map_values(|l: Limit| l@)
}

/// A price level.
#[derive(Debug)]
pub struct Limit {
    price: Decimal,
    orders: Vec<Order>,
}

impl View for Limit {
    type V = LimitView;

    closed spec fn view(&self) -> LimitView {
        LimitView { price: self.price@, orders: order_views(self.orders@) }
    }
}

impl Clone for Limit {
    fn clone(&self) -> (r: Limit)
        ensures
            r@ == self@,
    {
        let mut orders: Vec<Order> = Vec::new();
        let mut i: usize = 0;
        while i < self.orders.len()
            invariant
                i <= self.orders.len(),
                order_views(orders@) =~= order_views(self.orders@).take(i as int),
            decreases self.orders.len() - i,
        {
            let copy = self.orders[i].clone();
            let ghost before = orders@;
            orders.push(copy);
            proof {
                let all = order_views(self.orders@);
                assert(copy@ == all[i as int]);
                assert(order_views(orders@) =~= order_views(before).push(copy@));
                assert(all.take(i + 1) =~= all.take(i as int).push(all[i as int]));
            }
            i += 1;
        }
        proof {
            use_type_invariant(self);
            assert(order_views(self.orders@).take(i as int) =~= order_views(self.orders@));
        }
        Limit { price: self.price, orders }
    }
}

/// With sizes that are not negative, the orders from any point on hold no
/// more than all of them.
proof fn lemma_total_size_of_tail(orders: Seq<OrderView>, from: int)
    requires
        0 <= from <= orders.len(),
        forall|i: int| 0 <= i < orders.len() ==> (#[trigger] orders[i]).size >= 0,
    ensures
        0 <= total_size(orders.skip(from)) <= total_size(orders),
    decreases from,
{
    let tail = orders.skip(from);
    assert forall|i: int| 0 <= i < tail.len() implies (#[trigger] tail[i]).size >= 0 by {
        assert(tail[i] == orders[i + from]);
    }
    lemma_total_size_not_negative(tail);
    if from == 0 {
        assert(tail =~= orders);
    } else {
        lemma_total_size_of_tail(orders, from - 1);
        let longer = orders.skip(from - 1);
        assert(longer.skip(1) =~= tail);
        assert(longer[0] == orders[from - 1]);
    }
}

/// Sizes that are not negative add up to a sum that is not negative.
pub proof fn lemma_total_size_not_negative(orders: Seq<OrderView>)
    requires
        forall|i: int| 0 <= i < orders.len() ==> (#[trigger] orders[i]).size >= 0,
    ensures
        0 <= total_size(orders),
    decreases orders.len(),
{
    if orders.len() > 0 {
        let rest = orders.skip(1);
        assert forall|i: int| 0 <= i < rest.len() implies (#[trigger] rest[i]).size >= 0 by {
            assert(rest[i] == orders[i + 1]);
        }
        lemma_total_size_not_negative(rest);
    }
}

impl Limit {
    /// Every level is valid, at every moment: see `LimitView::wf`.
    #[verifier::type_invariant]
    pub open spec fn wf(&self) -> bool {
        self@.wf()
    }

    /// An empty level at `price`.
    pub fn new(price: Decimal) -> (r: Limit)
        requires
            price@ > 0,
        ensures
            r@ == (LimitView { price: price@, orders: Seq::empty() }),
            r.wf(),
    {
        let r = Limit { price, orders: Vec::new() };
        assert(r@.orders =~= Seq::empty());
        r
    }

    pub fn price(&self) -> (r: Decimal)
        ensures
            r@ == self@.price,
    {
        self.price
    }

    /// The resting orders, earliest first.
    pub fn orders(&self) -> (r: &Vec<Order>)
        ensures
            order_views(r@) == self@.orders,
    {
        &self.orders
    }

    /// True when an order with this id rests at the level.
    pub fn contains(&self, id: &String) -> (r: bool)
        ensures
            r == has_id(self@.orders, id@),
    {
        let mut i: usize = 0;
        while i < self.orders.len()
            invariant
                i <= self.orders.len(),
                forall|k: int| 0 <= k < i ==> (#[trigger] self@.orders[k]).id != id@,
            decreases self.orders.len() - i,
        {
            if *self.orders[i].id() == *id {
                assert(self@.orders[i as int].id == id@);
                return true;
            }
            i += 1;
        }
        false
    }

    /// The sizes of the resting orders, added up; `None` where the sum is
    /// more than a `Decimal` can hold.
    pub fn total_volume(&self) -> (r: Option<Decimal>)
        ensures
            r is Some <==> total_size(self@.orders) <= MAX_MANTISSA,
            r matches Some(v) ==> v@ == total_size(self@.orders),
    {
        proof {
            use_type_invariant(self);
        }
        let mut sum: Decimal = Decimal::zero();
        let mut i: usize = self.orders.len();
        assert(self@.orders.skip(i as int) =~= Seq::empty());
        while i > 0
            invariant
                self.wf(),
                i <= self.orders.len(),
                sum@ == total_size(self@.orders.skip(i as int)),
                0 <= sum@,
            decreases i,
        {
            i -= 1;
            let size: Decimal = self.orders[i].size();
            proof {
                use_type_invariant(&size);
                use_type_invariant(&sum);
                let tail = self@.orders.skip(i as int);
                assert(tail[0] == self@.orders[i as int]);
                assert(tail.skip(1) =~= self@.orders.skip(i + 1));
                lemma_total_size_of_tail(self@.orders, i as int);
            }
            if size.mantissa() > MAX_MANTISSA - sum.mantissa() {
                return None;
            }
            sum = decimal_add(size, sum);
        }
        proof {
            assert(self@.orders.skip(0) =~= self@.orders);
            use_type_invariant(&sum);
        }
        Some(sum)
    }

    /// Appends `order` to the level, at the level's price, and returns the
    /// record of it, stamped `sequence`.
    pub fn add_order(&mut self, order: Order, sequence: i64) -> (log: OpenLog)
        requires
            order@.size > 0,
            !has_id(old(self)@.orders, order@.id),
        ensures
            final(self)@ == (LimitView {
                price: old(self)@.price,
                orders: old(self)@.orders.push(OrderView { price: old(self)@.price, ..order@ }),
            }),
            final(self).wf(),
            log@ == (OpenLogView {
                sequence: sequence as int,
                pair: pair_tag(),
                order_id: order@.id,
                size: order@.size,
                price: old(self)@.price,
                side: order@.side,
            }),
    {
        proof {
            use_type_invariant(&*self);
        }
        let log = OpenLog::new(
            sequence,
            pair_name(),
            order.id().clone(),
            order.size(),
            self.price,
            order.side(),
        );
        let resting = order.at_price(self.price);
        let ghost before = self.orders@;
        let mut orders: Vec<Order> = Vec::new();
        proof {
            assert(order_views(orders@) =~= Seq::empty());
        }
        core::mem::swap(&mut self.orders, &mut orders);
        orders.push(resting);
        proof {
            let now = order_views(orders@);
            assert(now =~= order_views(before).push(resting@));
            assert forall|i: int, j: int| 0 <= i < j < now.len() implies (#[trigger] now[i]).id != (
            #[trigger] now[j]).id by {
                if j == now.len() - 1 {
                    assert(order_views(before)[i].id != order@.id);
                }
            }
        }
        self.orders = orders;
        log
    }

    /// Takes the order with this id out of the level and returns the record
    /// of it, stamped `sequence`: what was left of the order when it was
    /// cancelled. Without such an order the level stays as it is.
    pub fn cancel_order(&mut self, id: String, sequence: i64) -> (r: Result<DoneLog, EngineError>)
        ensures
            final(self).wf(),
            r is Err <==> !has_id(old(self)@.orders, id@),
            r matches Err(e) ==> e == EngineError::NotFound && *final(self) == *old(self),
            r matches Ok(log) ==> ({
                let i = index_of(old(self)@.orders, id@);
                let gone = old(self)@.orders[i];
                &&& 0 <= i < old(self)@.orders.len()
                &&& gone.id == id@
                &&& final(self)@ == (LimitView {
                    price: old(self)@.price,
                    orders: old(self)@.orders.remove(i),
                })
                &&& log@ == (DoneLogView {
                    sequence: sequence as int,
                    pair: pair_tag(),
                    order_id: id@,
                    price: old(self)@.price,
                    remaining_size: gone.size,
                    reason: DoneReason::Deleted,
                    side: gone.side,
                })
            }),
    {
        proof {
            use_type_invariant(&*self);
        }
        let mut i: usize = 0;
        while i < self.orders.len()
            invariant
                i <= self.orders.len(),
                *self == *old(self),
                self.wf(),
                forall|k: int| 0 <= k < i ==> (#[trigger] self@.orders[k]).id != id@,
            decreases self.orders.len() - i,
        {
            if *self.orders[i].id() == id {
                let ghost before = self@.orders;
                assert(before[i as int].id == id@);
                proof {
                    let c = index_of(before, id@);
                    assert(0 <= c < before.len() && before[c].id == id@);
                    assert(c == i);
                }
                let mut orders: Vec<Order> = Vec::new();
                proof {
                    assert(order_views(orders@) =~= Seq::empty());
                }
                core::mem::swap(&mut self.orders, &mut orders);
                let gone = orders.remove(i);
                let log = DoneLog::new(
                    sequence,
                    pair_name(),
                    id,
                    self.price,
                    gone.size(),
                    DoneReason::Deleted,
                    gone.side(),
                );
                proof {
                    let now = order_views(orders@);
                    assert(now =~= before.remove(i as int));
                    assert forall|a: int| 0 <= a < now.len() implies (#[trigger] now[a]).size > 0
                        && now[a].price == old(self)@.price by {
                        if a < i {
                            assert(now[a] == before[a]);
                        } else {
                            assert(now[a] == before[a + 1]);
                        }
                    }
                    assert forall|a: int, b: int| 0 <= a < b < now.len() implies (
                    #[trigger] now[a]).id != (#[trigger] now[b]).id by {
                        let a0 = if a < i { a } else { a + 1 };
                        let b0 = if b < i { b } else { b + 1 };
                        assert(now[a] == before[a0]);
                        assert(now[b] == before[b0]);
                    }
                }
                self.orders = orders;
                return Ok(log);
            }
            i += 1;
        }
        proof {
            let all = self@.orders;
            assert forall|k: int| 0 <= k < all.len() implies (#[trigger] all[k]).id != id@ by {}
        }
        Err(EngineError::NotFound)
    }

    /// Matches `incoming` against the level: the walk of `fill_orders`. What
    /// is left of `incoming` is its new size; the orders that the walk has
    /// drained leave the level; the records come back in order, the first of
    /// them stamped `sequence`. There must be numbers for two records for
    /// each resting order.
    pub fn fill_order(&mut self, incoming: &mut Order, sequence: i64) -> (events: Vec<Log>)
        requires
            sequence + 2 * old(self)@.orders.len() <= i64::MAX + 1,
        ensures
            final(self).wf(),
            ({
                let walk = fill_orders(
                    old(self)@.price,
                    old(self)@.orders,
                    old(incoming)@.id,
                    old(incoming)@.size,
                    sequence as int,
                );
                &&& final(self)@ == (LimitView { price: old(self)@.price, orders: walk.kept })
                &&& final(incoming)@ == (OrderView { size: walk.remaining, ..old(incoming)@ })
                &&& log_views(events@) == walk.events
            }),
            0 <= final(incoming)@.size <= old(incoming)@.size,
    {
        proof {
            use_type_invariant(&*incoming);
            use_type_invariant(&*self);
        }
        let ghost price = self@.price;
        let ghost resting = self@.orders;
        let ghost taker = incoming@.id;
        let ghost walk = fill_orders(price, resting, taker, incoming@.size, sequence as int);
        assert(0 <= walk.remaining <= incoming@.size) by {
            lemma_time_priority(price, resting, taker, incoming@.size, sequence as int);
        }
        let n: usize = self.orders.len();
        let mut events: Vec<Log> = Vec::new();
        let mut drained: usize = 0;
        // The stamp of the next record. It may pass the last number that
        // there is once no record is left to write.
        let mut seq: i128 = sequence as i128;
        let mut walking: bool = true;
        assert(resting.skip(0) =~= resting);
        assert(log_views(events@) =~= Seq::empty());
        assert(incoming@ == (OrderView { size: incoming@.size, ..incoming@ }));
        // The walk only reads the level: what it drains is a prefix, taken
        // out in one step afterwards.
        while walking && drained < n
            invariant
                self.wf(),
                *self == *old(self),
                n == self.orders.len(),
                resting == self@.orders,
                price == self@.price,
                drained <= n,
                seq == sequence + 2 * drained,
                sequence + 2 * n <= i64::MAX + 1,
                incoming@ == (OrderView { size: incoming@.size, ..old(incoming)@ }),
                taker == old(incoming)@.id,
                walking || incoming@.size == 0 || (drained < n && incoming@.size
                    < resting[drained as int].size),
                ({
                    let rest = fill_orders(
                        price,
                        resting.skip(drained as int),
                        taker,
                        incoming@.size,
                        seq as int,
                    );
                    &&& walk.kept == rest.kept
                    &&& walk.remaining == rest.remaining
                    &&& walk.events == log_views(events@) + rest.events
                }),
            decreases n - drained + (if walking { 1int } else { 0int }),
        {
            let left: Decimal = incoming.size();
            let maker = &self.orders[drained];
            let maker_size: Decimal = maker.size();
            assert(maker@ == resting[drained as int]);
            proof {
                use_type_invariant(&left);
                use_type_invariant(&maker_size);
            }
            if left.is_zero() {
                walking = false;
            } else if decimal_le(maker_size, left) {
                let ghost before = log_views(events@);
                let ghost rest = fill_orders(
                    price,
                    resting.skip(drained as int),
                    taker,
                    incoming@.size,
                    seq as int,
                );
                let matching = MatchLog::new(
                    seq as i64,
                    pair_name(),
                    incoming.id().clone(),
                    maker.id().clone(),
                    self.price,
                    maker_size,
                );
                let done = DoneLog::new(
                    (seq + 1) as i64,
                    pair_name(),
                    maker.id().clone(),
                    self.price,
                    Decimal::zero(),
                    DoneReason::Filled,
                    maker.side(),
                );
                events.push(Log::Match(matching));
                events.push(Log::Done(done));
                incoming.set_size(decimal_sub(left, maker_size));
                proof {
                    let here = resting.skip(drained as int);
                    assert(here[0] == resting[drained as int]);
                    assert(here.skip(1) =~= resting.skip(drained + 1));
                    assert(log_views(events@) =~= before + seq![
                        match_event(seq as int, taker, here[0], price, here[0].size),
                        filled_event(seq + 1, here[0], price),
                    ]);
                    let next = fill_orders(
                        price,
                        resting.skip(drained + 1),
                        taker,
                        incoming@.size,
                        seq + 2,
                    );
                    assert(rest.events =~= seq![
                        match_event(seq as int, taker, here[0], price, here[0].size),
                        filled_event(seq + 1, here[0], price),
                    ] + next.events);
                    assert(walk.events =~= log_views(events@) + next.events);
                }
                drained = drained + 1;
                seq = seq + 2;
            } else {
                walking = false;
            }
        }
        let mut orders: Vec<Order> = Vec::new();
        proof {
            assert(order_views(orders@) =~= Seq::empty());
        }
        core::mem::swap(&mut self.orders, &mut orders);
        if drained < n && !incoming.is_filled() {
            // The next order has more than is left of the incoming one: it
            // stays where it is in the queue, with less.
            let left: Decimal = incoming.size();
            let ghost before = log_views(events@);
            let mut maker = orders[drained].clone();
            let maker_size: Decimal = maker.size();
            let ghost maker_before = maker@;
            let matching = MatchLog::new(
                seq as i64,
                pair_name(),
                incoming.id().clone(),
                maker.id().clone(),
                self.price,
                left,
            );
            events.push(Log::Match(matching));
            proof {
                use_type_invariant(&maker_size);
                use_type_invariant(&left);
            }
            maker.set_size(decimal_sub(maker_size, left));
            incoming.set_size(decimal_sub(left, left));
            orders.set(drained, maker);
            proof {
                let here = resting.skip(drained as int);
                assert(here[0] == resting[drained as int]);
                assert(here.skip(1) =~= resting.skip(drained + 1));
                let reduced = OrderView { size: maker_before.size - left@, ..maker_before };
                assert(maker@ == reduced);
                assert(order_views(orders@) =~= resting.update(drained as int, reduced));
                assert(log_views(events@) =~= before + seq![
                    match_event(seq as int, taker, here[0], price, left@),
                ]);
                let next = fill_orders(price, resting.skip(drained + 1), taker, 0, seq + 1);
                assert(next.events =~= Seq::empty());
                assert(walk.events =~= log_views(events@));
                assert(walk.kept =~= seq![reduced] + resting.skip(drained + 1));
                assert(walk.kept =~= order_views(orders@).skip(drained as int));
            }
        } else {
            proof {
                assert(walk.kept =~= order_views(orders@).skip(drained as int));
                assert(walk.events =~= log_views(events@));
            }
        }
        let ghost full = order_views(orders@);
        let kept = orders.split_off(drained);
        proof {
            let now = order_views(kept@);
            assert(now =~= full.skip(drained as int));
            assert forall|a: int| 0 <= a < now.len() implies (#[trigger] now[a]).size > 0
                && now[a].price == price by {
                assert(now[a] == full[a + drained]);
                if a + drained != drained {
                    assert(full[a + drained] == resting[a + drained]);
                }
            }
            assert forall|a: int, b: int| 0 <= a < b < now.len() implies (#[trigger] now[a]).id
                != (#[trigger] now[b]).id by {
                assert(now[a] == full[a + drained]);
                assert(now[b] == full[b + drained]);
                assert(full[a + drained].id == resting[a + drained].id);
                assert(full[b + drained].id == resting[b + drained].id);
            }
        }
        self.orders = kept;
        events
    }
}

} // verus!
