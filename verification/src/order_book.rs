//! The order book of one instrument: the price levels of both sides, best
//! price first, and the counter that stamps every record.

use crate::decimal::{decimal_le, Decimal};
use crate::error::EngineError;
use crate::limit::{
    fill_orders, has_id, index_of, lemma_time_priority, level_views, Limit, LimitView,
};
use crate::log::{
    last_match_sequence, log_views, pair_tag, DoneLog, DoneLogView, DoneReason, Log, LogView,
    OpenLog, OpenLogView,
};
use crate::order::{order_views, BidOrAsk, Order, OrderView};
use crate::matching::{
    fill_levels, lemma_fill_levels, lemma_limit_fill, limit_fill, reach, SideFill,
};
use crate::side::{
    better, find_order, insert_order, lemma_insert_order, lemma_order_count_concat, lemma_rank,
    lemma_remove_order, lemma_side_wf_split, level_of, levels_disjoint, opposite, order_count,
    rank, remove_order, side_has_id, side_wf,
};
use crate::snapshot::{level_orders, Snapshot, SnapshotData, SnapshotView};
use vstd::prelude::*;

verus! {

/// What a book is: the levels of both sides, best price first, the sequence
/// number of the last record, and that of the last fill step.
pub struct BookView {
    pub asks: Seq<LimitView>,
    pub bids: Seq<LimitView>,
    pub sequence: int,
    pub last_trade: int,
}

impl BookView {
    /// The levels of one side.
    pub open spec fn levels(self, side: BidOrAsk) -> Seq<LimitView> {
        match side {
            BidOrAsk::Ask => self.asks,
            BidOrAsk::Bid => self.bids,
        }
    }

    /// The book with other levels on one side.
    pub open spec fn with_levels(self, side: BidOrAsk, levels: Seq<LimitView>) -> BookView {
        match side {
            BidOrAsk::Ask => BookView { asks: levels, ..self },
            BidOrAsk::Bid => BookView { bids: levels, ..self },
        }
    }

    /// True when an order with this id rests in the book.
    pub open spec fn has_id(self, id: Seq<char>) -> bool {
        side_has_id(self.asks, id) || side_has_id(self.bids, id)
    }

    /// A level is in the book exactly while orders rest at its price: no
    /// level is empty. Every resting order has something left. Asks go up
    /// in price and bids go down. No id rests twice. The counters start at
    /// zero and the last fill step is no later than the last record.
    pub open spec fn wf(self) -> bool {
        &&& side_wf(self.asks, BidOrAsk::Ask)
        &&& side_wf(self.bids, BidOrAsk::Bid)
        &&& forall|id: Seq<char>|
            !(#[trigger] side_has_id(self.asks, id) && #[trigger] side_has_id(self.bids, id))
        &&& 0 <= self.last_trade <= self.sequence
    }

    /// The book once an incoming order has been matched against the side
    /// opposite to its own, and the records of that are written.
    pub open spec fn matched(self, incoming: OrderView) -> BookView {
        let side = opposite(incoming.side);
        let fill = fill_levels(self.levels(side), incoming.id, incoming.size, self.sequence + 1);
        BookView {
            sequence: self.sequence + fill.events.len(),
            last_trade: last_match_sequence(fill.events, self.last_trade),
            ..self.with_levels(side, fill.levels)
        }
    }

    /// True when the counter has numbers left for the records of a match
    /// against all of one side, two for each resting order, and for `more`
    /// records after them.
    pub open spec fn has_room(self, against: BidOrAsk, more: int) -> bool {
        self.sequence + 2 * order_count(self.levels(against)) + more <= i64::MAX
    }

    /// The walk that a limit order sets off: against the side opposite to
    /// its own, as far as its price reaches.
    pub open spec fn limit_walk(self, order: OrderView) -> SideFill {
        let against = opposite(order.side);
        limit_fill(
            self.levels(against),
            against,
            order.price,
            order.id,
            order.size,
            self.sequence + 1,
        )
    }

    /// The book once a limit order has been matched as far as its price
    /// reaches and what is left of it, if anything, rests at its price.
    pub open spec fn submitted(self, order: OrderView) -> BookView {
        let fill = self.limit_walk(order);
        let matched = BookView {
            sequence: self.sequence + fill.events.len(),
            last_trade: last_match_sequence(fill.events, self.last_trade),
            ..self.with_levels(opposite(order.side), fill.levels)
        };
        if fill.remaining > 0 {
            matched.with_order(order.price, OrderView { size: fill.remaining, ..order })
        } else {
            matched
        }
    }

    /// The records of a limit order: those of its walk, and after them, if
    /// something of the order is left, the record of its coming to rest.
    pub open spec fn submit_events(self, order: OrderView) -> Seq<LogView> {
        let fill = self.limit_walk(order);
        if fill.remaining > 0 {
            fill.events.push(
                LogView::Open(
                    OpenLogView {
                        sequence: self.sequence + fill.events.len() + 1,
                        pair: pair_tag(),
                        order_id: order.id,
                        size: fill.remaining,
                        price: order.price,
                        side: order.side,
                    },
                ),
            )
        } else {
            fill.events
        }
    }

    /// The snapshot of the book under the name of an instrument.
    pub open spec fn snapshot(self, pair: Seq<char>) -> SnapshotView {
        SnapshotView {
            pair,
            orders: level_orders(self.asks) + level_orders(self.bids),
            log_seq: self.sequence,
            trade_seq: self.last_trade,
        }
    }

    /// The resting order with this id, where there is one.
    pub open spec fn order(self, id: Seq<char>) -> OrderView {
        if side_has_id(self.asks, id) {
            find_order(self.asks, id)
        } else {
            find_order(self.bids, id)
        }
    }

    /// The book once the order with this id has left it, and the record of
    /// that is written.
    pub open spec fn without(self, id: Seq<char>) -> BookView {
        if side_has_id(self.asks, id) {
            BookView { asks: remove_order(self.asks, id), sequence: self.sequence + 1, ..self }
        } else {
            BookView { bids: remove_order(self.bids, id), sequence: self.sequence + 1, ..self }
        }
    }

    /// The book once `order` rests at `price`, and the record of it is
    /// written.
    pub open spec fn with_order(self, price: int, order: OrderView) -> BookView {
        BookView {
            sequence: self.sequence + 1,
            ..self.with_levels(
                order.side,
                insert_order(self.levels(order.side), order.side, price, order),
            )
        }
    }
}

/// A valid book stays valid where one of its sides is replaced by valid
/// levels that hold no id but its own.
proof fn lemma_with_fewer(book: BookView, side: BidOrAsk, levels: Seq<LimitView>)
    requires
        book.wf(),
        side_wf(levels, side),
        forall|id: Seq<char>| side_has_id(levels, id) ==> side_has_id(book.levels(side), id),
    ensures
        book.with_levels(side, levels).wf(),
{
    let after = book.with_levels(side, levels);
    assert forall|id: Seq<char>|
        !(#[trigger] side_has_id(after.asks, id) && #[trigger] side_has_id(after.bids, id)) by {
        if side_has_id(after.asks, id) && side_has_id(after.bids, id) {
            assert(side_has_id(book.asks, id));
            assert(side_has_id(book.bids, id));
        }
    }
}

/// A valid book stays valid where one of its sides is replaced by valid
/// levels that hold its own ids and one that the book does not have.
proof fn lemma_with_one_more(
    book: BookView,
    side: BidOrAsk,
    levels: Seq<LimitView>,
    id: Seq<char>,
)
    requires
        book.wf(),
        side_wf(levels, side),
        !book.has_id(id),
        forall|other: Seq<char>|
            side_has_id(levels, other) <==> (other == id || side_has_id(
                book.levels(side),
                other,
            )),
    ensures
        book.with_levels(side, levels).wf(),
{
    let after = book.with_levels(side, levels);
    assert forall|other: Seq<char>|
        !(#[trigger] side_has_id(after.asks, other) && #[trigger] side_has_id(
            after.bids,
            other,
        )) by {
        if side_has_id(after.asks, other) && side_has_id(after.bids, other) {
            assert(side_has_id(book.asks, other) || other == id);
            assert(side_has_id(book.bids, other) || other == id);
        }
    }
}

/// The side that an order of `side` is matched against.
fn other_side(side: BidOrAsk) -> (r: BidOrAsk)
    ensures
        r == opposite(side),
{
    match side {
        BidOrAsk::Ask => BidOrAsk::Bid,
        BidOrAsk::Bid => BidOrAsk::Ask,
    }
}

/// The book that comes of resting these orders one after the other in an
/// empty book, each at its own price; none where one of them has nothing
/// left, no price, or the id of one before it.
pub open spec fn replay(orders: Seq<OrderView>) -> Option<BookView>
    decreases orders.len(),
{
    if orders.len() == 0 {
        Some(BookView { asks: Seq::empty(), bids: Seq::empty(), sequence: 0, last_trade: 0 })
    } else {
        match replay(orders.drop_last()) {
            None => None,
            Some(book) => {
                let order = orders.last();
                if order.size <= 0 || order.price <= 0 || book.has_id(order.id) {
                    None
                } else {
                    Some(
                        book.with_levels(
                            order.side,
                            insert_order(book.levels(order.side), order.side, order.price, order),
                        ),
                    )
                }
            },
        }
    }
}

/// The book that a snapshot stands for: its orders replayed, and the
/// counters as the snapshot has them. None where the orders do not replay or
/// the counters are such as no book has.
pub open spec fn restored(snapshot: SnapshotView) -> Option<BookView> {
    if snapshot.trade_seq < 0 || snapshot.log_seq < snapshot.trade_seq {
        None
    } else {
        match replay(snapshot.orders) {
            None => None,
            Some(book) => Some(
                BookView { sequence: snapshot.log_seq, last_trade: snapshot.trade_seq, ..book },
            ),
        }
    }
}

/// The last order of the last level of a side can be taken out and rested
/// again, and the side is as before; in the flat list it stands last.
proof fn lemma_last_order(levels: Seq<LimitView>, side: BidOrAsk)
    requires
        side_wf(levels, side),
        levels.len() > 0,
    ensures
        ({
            let order = levels.last().orders.last();
            let fewer = remove_order(levels, order.id);
            &&& side_has_id(levels, order.id)
            &&& order.side == side
            &&& order.size > 0
            &&& order.price > 0
            &&& level_orders(levels) == level_orders(fewer).push(order)
            &&& insert_order(fewer, side, order.price, order) == levels
        }),
{
    let n = levels.len() as int;
    let level = levels[n - 1];
    assert(level.wf() && level.orders.len() > 0);
    let m = level.orders.len() as int;
    let order = level.orders[m - 1];
    assert(levels[n - 1].orders[m - 1].side == side);
    assert(has_id(levels[n - 1].orders, order.id));
    // The id is found where the order stands, and nowhere else.
    let at = level_of(levels, order.id);
    assert(0 <= at < n && has_id(levels[at].orders, order.id));
    assert(at == n - 1);
    let gone = index_of(level.orders, order.id);
    assert(0 <= gone < m && level.orders[gone].id == order.id);
    assert(gone == m - 1);
    let orders = level.orders.remove(gone);
    assert(orders =~= level.orders.drop_last());
    let fewer = remove_order(levels, order.id);
    lemma_rank(fewer, side, order.price);
    let r = rank(fewer, side, order.price);
    if orders.len() == 0 {
        assert(fewer =~= levels.drop_last());
        assert(level.orders =~= seq![order]);
        assert(level_orders(levels) =~= level_orders(fewer).push(order));
        assert forall|j: int| 0 <= j < fewer.len() implies better(
            side,
            (#[trigger] fewer[j]).price,
            order.price,
        ) by {
            assert(fewer[j] == levels[j]);
            assert(better(side, levels[j].price, levels[n - 1].price));
        }
        assert(r == n - 1);
        assert(insert_order(fewer, side, order.price, order) =~= levels);
    } else {
        let smaller = LimitView { price: level.price, orders };
        assert(fewer =~= levels.drop_last().push(smaller));
        assert(fewer.drop_last() =~= levels.drop_last());
        assert(fewer.last() == smaller);
        assert(level_orders(fewer) == level_orders(levels.drop_last()) + orders);
        assert(level_orders(levels) =~= level_orders(fewer).push(order));
        assert forall|j: int| 0 <= j < n - 1 implies better(
            side,
            (#[trigger] fewer[j]).price,
            order.price,
        ) by {
            assert(fewer[j] == levels[j]);
            assert(better(side, levels[j].price, levels[n - 1].price));
        }
        assert(fewer[n - 1].price == order.price);
        if r < n - 1 {
            assert(better(side, fewer[r].price, order.price));
        }
        if r > n - 1 {
            assert(better(side, fewer[n - 1].price, order.price));
        }
        assert(r == n - 1);
        assert(orders.push(order) =~= level.orders);
        assert(insert_order(fewer, side, order.price, order) =~= levels);
    }
}

/// Replaying the flat list of the orders of two valid sides gives those
/// sides back.
proof fn lemma_replay_levels(asks: Seq<LimitView>, bids: Seq<LimitView>)
    requires
        side_wf(asks, BidOrAsk::Ask),
        side_wf(bids, BidOrAsk::Bid),
        forall|id: Seq<char>|
            !(#[trigger] side_has_id(asks, id) && #[trigger] side_has_id(bids, id)),
    ensures
        replay(level_orders(asks) + level_orders(bids)) == Some(
            BookView { asks, bids, sequence: 0, last_trade: 0 },
        ),
    decreases level_orders(asks).len() + level_orders(bids).len(),
{
    let all = level_orders(asks) + level_orders(bids);
    if bids.len() > 0 {
        lemma_last_order(bids, BidOrAsk::Bid);
        let order = bids.last().orders.last();
        let fewer = remove_order(bids, order.id);
        lemma_remove_order(bids, BidOrAsk::Bid, order.id);
        assert(all.drop_last() =~= level_orders(asks) + level_orders(fewer));
        assert(all.last() == order);
        assert forall|id: Seq<char>|
            !(#[trigger] side_has_id(asks, id) && #[trigger] side_has_id(fewer, id)) by {
            if side_has_id(fewer, id) {
                assert(side_has_id(bids, id));
            }
        }
        lemma_replay_levels(asks, fewer);
        let before = BookView { asks, bids: fewer, sequence: 0, last_trade: 0 };
        assert(!before.has_id(order.id));
        assert(before.with_levels(
            order.side,
            insert_order(before.levels(order.side), order.side, order.price, order),
        ) == BookView { asks, bids, sequence: 0, last_trade: 0 });
    } else if asks.len() > 0 {
        assert(level_orders(bids) =~= Seq::empty());
        lemma_last_order(asks, BidOrAsk::Ask);
        let order = asks.last().orders.last();
        let fewer = remove_order(asks, order.id);
        lemma_remove_order(asks, BidOrAsk::Ask, order.id);
        assert(all.drop_last() =~= level_orders(fewer) + level_orders(bids));
        assert(all.last() == order);
        assert forall|id: Seq<char>|
            !(#[trigger] side_has_id(fewer, id) && #[trigger] side_has_id(bids, id)) by {
            if side_has_id(fewer, id) {
                assert(side_has_id(asks, id));
            }
        }
        lemma_replay_levels(fewer, bids);
        let before = BookView { asks: fewer, bids, sequence: 0, last_trade: 0 };
        assert(!side_has_id(bids, order.id)) by {
            if side_has_id(bids, order.id) {
                let i = choose|i: int| 0 <= i < bids.len() && has_id(#[trigger] bids[i].orders, order.id);
            }
        }
        assert(!before.has_id(order.id));
        assert(before.with_levels(
            order.side,
            insert_order(before.levels(order.side), order.side, order.price, order),
        ) == BookView { asks, bids, sequence: 0, last_trade: 0 });
    } else {
        assert(all =~= Seq::empty());
        assert(asks =~= Seq::empty());
        assert(bids =~= Seq::empty());
    }
}

/// Snapshot and restore. The snapshot of a valid book stands for that very
/// book: the same levels with the same orders in the same queues, and the
/// same counters.
pub proof fn lemma_snapshot_round_trip(book: BookView, pair: Seq<char>)
    requires
        book.wf(),
    ensures
        restored(book.snapshot(pair)) == Some(book),
{
    lemma_replay_levels(book.asks, book.bids);
}

/// Orders that do not replay do not replay with more orders after them.
proof fn lemma_replay_prefix(orders: Seq<OrderView>, upto: int)
    requires
        0 <= upto <= orders.len(),
        replay(orders.take(upto)) is None,
    ensures
        replay(orders) is None,
    decreases orders.len() - upto,
{
    if upto < orders.len() {
        assert(orders.take(upto + 1).drop_last() =~= orders.take(upto));
        lemma_replay_prefix(orders, upto + 1);
    } else {
        assert(orders.take(upto) =~= orders);
    }
}

/// The last fill step among consecutively numbered records is one of them.
proof fn lemma_last_match_bounds(events: Seq<LogView>, before: int, first: int)
    requires
        forall|i: int| 0 <= i < events.len() ==> (#[trigger] events[i]).sequence() == first + i,
        0 <= before < first,
    ensures
        0 <= last_match_sequence(events, before) < first + events.len(),
    decreases events.len(),
{
    if events.len() > 0 {
        let head = events.drop_last();
        assert forall|i: int| 0 <= i < head.len() implies (#[trigger] head[i]).sequence() == first
            + i by {
            assert(head[i] == events[i]);
        }
        lemma_last_match_bounds(head, before, first);
        assert(events.last() == events[events.len() - 1]);
    }
}

/// The place of `price` among the levels.
fn find_rank(levels: &Vec<Limit>, side: BidOrAsk, price: Decimal) -> (at: usize)
    ensures
        at == rank(level_views(levels@), side, price@),
        at <= levels.len(),
{
    let ghost all = level_views(levels@);
    let mut at: usize = 0;
    assert(all.skip(0) =~= all);
    while at < levels.len()
        invariant
            at <= levels.len(),
            all == level_views(levels@),
            rank(all, side, price@) == at + rank(all.skip(at as int), side, price@),
        decreases levels.len() - at,
    {
        let level_price: Decimal = levels[at].price();
        proof {
            use_type_invariant(&price);
            use_type_invariant(&level_price);
        }
        let ahead: bool = match side {
            BidOrAsk::Ask => !decimal_le(price, level_price),
            BidOrAsk::Bid => !decimal_le(level_price, price),
        };
        proof {
            let here = all.skip(at as int);
            assert(here[0] == all[at as int]);
            assert(here.skip(1) =~= all.skip(at + 1));
        }
        if !ahead {
            return at;
        }
        at += 1;
    }
    at
}

/// True when a level's price, which is no better than `price`, is that very
/// price.
fn same_price(level_price: Decimal, price: Decimal, side: BidOrAsk) -> (r: bool)
    requires
        !better(side, level_price@, price@),
    ensures
        r == (level_price@ == price@),
{
    proof {
        use_type_invariant(&price);
        use_type_invariant(&level_price);
    }
    match side {
        BidOrAsk::Ask => decimal_le(level_price, price),
        BidOrAsk::Bid => decimal_le(price, level_price),
    }
}

/// Rests `order` at `price` among the levels of its side, and returns the
/// record of it, stamped `sequence`.
fn place(
    levels: &mut Vec<Limit>,
    side: BidOrAsk,
    price: Decimal,
    order: Order,
    sequence: i64,
) -> (log: OpenLog)
    requires
        side_wf(level_views(old(levels)@), side),
        price@ > 0,
        order@.size > 0,
        !side_has_id(level_views(old(levels)@), order@.id),
    ensures
        level_views(final(levels)@) == insert_order(
            level_views(old(levels)@),
            side,
            price@,
            order@,
        ),
        log@ == (OpenLogView {
            sequence: sequence as int,
            pair: pair_tag(),
            order_id: order@.id,
            size: order@.size,
            price: price@,
            side: order@.side,
        }),
{
    let ghost before = level_views(levels@);
    let at = find_rank(levels, side, price);
    proof {
        lemma_rank(before, side, price@);
    }
    let joins: bool = at < levels.len() && same_price(levels[at].price(), price, side);
    if joins {
        let mut level = levels.remove(at);
        assert(level@ == before[at as int]);
        assert(!has_id(before[at as int].orders, order@.id));
        let log = level.add_order(order, sequence);
        levels.insert(at, level);
        assert(level_views(levels@) =~= before.update(at as int, level@));
        log
    } else {
        let mut level = Limit::new(price);
        assert(!has_id(level@.orders, order@.id));
        let log = level.add_order(order, sequence);
        levels.insert(at, level);
        assert(level@.orders =~= seq![OrderView { price: price@, ..order@ }]);
        assert(level_views(levels@) =~= before.insert(at as int, level@));
        log
    }
}

/// Matches `incoming` against the levels of one side: the walk of
/// `fill_levels`, whose first record is stamped with the number after `last`.
fn fill_side(
    levels: &mut Vec<Limit>,
    side: BidOrAsk,
    incoming: &mut Order,
    last: i64,
) -> (events: Vec<Log>)
    requires
        side_wf(level_views(old(levels)@), side),
        0 <= last,
        last + 2 * order_count(level_views(old(levels)@)) <= i64::MAX,
    ensures
        ({
            let fill = fill_levels(
                level_views(old(levels)@),
                old(incoming)@.id,
                old(incoming)@.size,
                last + 1,
            );
            &&& level_views(final(levels)@) == fill.levels
            &&& final(incoming)@ == (OrderView { size: fill.remaining, ..old(incoming)@ })
            &&& log_views(events@) == fill.events
        }),
{
    let ghost taker = incoming@.id;
    let ghost fill = fill_levels(level_views(levels@), taker, incoming@.size, last + 1);
    let mut events: Vec<Log> = Vec::new();
    // The stamp of the next record.
    let mut seq: i128 = last as i128 + 1;
    let mut open: bool = true;
    proof {
        use_type_invariant(&*incoming);
        assert(log_views(events@) =~= Seq::empty());
        assert(incoming@ == (OrderView { size: incoming@.size, ..incoming@ }));
    }
    while open && levels.len() > 0 && !incoming.is_filled()
        invariant
            forall|i: int|
                0 <= i < levels.len() ==> (#[trigger] level_views(levels@)[i]).wf()
                    && level_views(levels@)[i].orders.len() > 0,
            incoming@ == (OrderView { size: incoming@.size, ..old(incoming)@ }),
            taker == old(incoming)@.id,
            incoming@.size >= 0,
            0 < seq,
            open ==> seq + 2 * order_count(level_views(levels@)) <= i64::MAX + 1,
            !open ==> incoming@.size == 0,
            ({
                let rest = fill_levels(level_views(levels@), taker, incoming@.size, seq as int);
                &&& fill.levels == rest.levels
                &&& fill.remaining == rest.remaining
                &&& fill.events == log_views(events@) + rest.events
            }),
        decreases levels.len() + (if open { 1int } else { 0int }),
    {
        let ghost before = level_views(levels@);
        let ghost written = log_views(events@);
        let ghost left = incoming@.size;
        let ghost rest = fill_levels(before, taker, left, seq as int);
        let mut level = levels.remove(0);
        assert(level@ == before[0]);
        assert(level_views(levels@) =~= before.skip(1));
        proof {
            lemma_time_priority(level@.price, level@.orders, taker, left, seq as int);
        }
        let ghost walk = fill_orders(level@.price, level@.orders, taker, left, seq as int);
        proof {
            assert(order_count(before) == before[0].orders.len() + order_count(before.skip(1)));
        }
        let ghost stamp = seq as int;
        let mut step = level.fill_order(incoming, seq as i64);
        let ghost raw = events@;
        let ghost raw_step = step@;
        assert(step@.len() == log_views(step@).len());
        assert(walk.events.len() <= 2 * before[0].orders.len());
        seq = seq + step.len() as i128;
        events.append(&mut step);
        proof {
            assert(log_views(events@) =~= written + walk.events) by {
                assert(events@ =~= raw + raw_step);
            }
            assert(seq == stamp + walk.events.len());
            let later = fill_levels(before.skip(1), taker, walk.remaining, seq as int);
            assert(rest.events == walk.events + later.events);
            assert(fill.events =~= log_views(events@) + later.events);
        }
        if level.orders().len() > 0 {
            levels.insert(0, level);
            open = false;
            proof {
                assert(level_views(levels@) =~= seq![level@] + before.skip(1));
                assert(rest.levels =~= level_views(levels@));
                assert forall|i: int| 0 <= i < levels.len() implies (#[trigger] level_views(
                    levels@,
                )[i]).wf() && level_views(levels@)[i].orders.len() > 0 by {
                    if i > 0 {
                        assert(level_views(levels@)[i] == before[i]);
                    }
                }
            }
        } else {
            proof {
                assert(rest.levels =~= fill_levels(
                    before.skip(1),
                    taker,
                    walk.remaining,
                    seq as int,
                ).levels);
                assert forall|i: int| 0 <= i < levels.len() implies (#[trigger] level_views(
                    levels@,
                )[i]).wf() && level_views(levels@)[i].orders.len() > 0 by {
                    assert(level_views(levels@)[i] == before[i + 1]);
                }
            }
        }
    }
    events
}

/// The number of levels, from the best on, that the limit price reaches.
fn find_reach(levels: &Vec<Limit>, side: BidOrAsk, limit: Decimal) -> (within: usize)
    ensures
        within == reach(level_views(levels@), side, limit@),
        within <= levels.len(),
{
    let ghost all = level_views(levels@);
    let mut within: usize = 0;
    assert(all.skip(0) =~= all);
    while within < levels.len()
        invariant
            within <= levels.len(),
            all == level_views(levels@),
            reach(all, side, limit@) == within + reach(all.skip(within as int), side, limit@),
        decreases levels.len() - within,
    {
        let level_price: Decimal = levels[within].price();
        proof {
            use_type_invariant(&limit);
            use_type_invariant(&level_price);
        }
        let reached: bool = match side {
            BidOrAsk::Ask => decimal_le(level_price, limit),
            BidOrAsk::Bid => decimal_le(limit, level_price),
        };
        proof {
            let here = all.skip(within as int);
            assert(here[0] == all[within as int]);
            assert(here.skip(1) =~= all.skip(within + 1));
        }
        if !reached {
            return within;
        }
        within += 1;
    }
    within
}

/// Matches `incoming` against the levels of one side as far as the limit
/// price reaches: the walk of `limit_fill`, whose first record is stamped
/// with the number after `last`.
fn fill_within(
    levels: &mut Vec<Limit>,
    side: BidOrAsk,
    incoming: &mut Order,
    limit: Decimal,
    last: i64,
) -> (events: Vec<Log>)
    requires
        side_wf(level_views(old(levels)@), side),
        0 <= last,
        last + 2 * order_count(level_views(old(levels)@)) <= i64::MAX,
    ensures
        ({
            let fill = limit_fill(
                level_views(old(levels)@),
                side,
                limit@,
                old(incoming)@.id,
                old(incoming)@.size,
                last + 1,
            );
            &&& level_views(final(levels)@) == fill.levels
            &&& final(incoming)@ == (OrderView { size: fill.remaining, ..old(incoming)@ })
            &&& log_views(events@) == fill.events
        }),
{
    let ghost before = level_views(levels@);
    let within = find_reach(levels, side, limit);
    proof {
        lemma_side_wf_split(before, side, within as int);
        assert(before =~= before.take(within as int) + before.skip(within as int));
        lemma_order_count_concat(before.take(within as int), before.skip(within as int));
    }
    let mut beyond = levels.split_off(within);
    assert(level_views(levels@) =~= before.take(within as int));
    assert(level_views(beyond@) =~= before.skip(within as int));
    let events = fill_side(levels, side, incoming, last);
    let ghost kept = levels@;
    let ghost rest = beyond@;
    levels.append(&mut beyond);
    assert(level_views(levels@) =~= level_views(kept) + level_views(rest)) by {
        assert(levels@ =~= kept + rest);
    }
    events
}

/// The sequence number of the last fill step among the records, or `before`
/// without one.
fn last_trade_of(events: &Vec<Log>, before: i64) -> (r: i64)
    ensures
        r == last_match_sequence(log_views(events@), before as int),
{
    let ghost all = log_views(events@);
    let mut i: usize = events.len();
    assert(all.take(i as int) =~= all);
    while i > 0
        invariant
            i <= events.len(),
            all == log_views(events@),
            last_match_sequence(all, before as int) == last_match_sequence(
                all.take(i as int),
                before as int,
            ),
        decreases i,
    {
        proof {
            let head = all.take(i as int);
            assert(head.last() == all[i - 1]);
            assert(head.drop_last() =~= all.take(i - 1));
        }
        match &events[i - 1] {
            Log::Match(m) => {
                return m.get_seq();
            },
            _ => {},
        }
        i -= 1;
    }
    before
}

/// The first level at which an order with this id rests.
fn find_level(levels: &Vec<Limit>, id: &String) -> (r: Option<usize>)
    ensures
        r matches Some(at) ==> at < levels.len() && has_id(
            level_views(levels@)[at as int].orders,
            id@,
        ),
        r is None ==> !side_has_id(level_views(levels@), id@),
{
    let mut at: usize = 0;
    while at < levels.len()
        invariant
            at <= levels.len(),
            forall|i: int| 0 <= i < at ==> !has_id(#[trigger] level_views(levels@)[i].orders, id@),
        decreases levels.len() - at,
    {
        if levels[at].contains(id) {
            return Some(at);
        }
        at += 1;
    }
    None
}

/// Takes the order with this id out of the level at `at`, and the level out
/// of the list if nothing else rests there.
fn cancel_at(levels: &mut Vec<Limit>, at: usize, id: String, sequence: i64) -> (r: Result<
    DoneLog,
    EngineError,
>)
    requires
        at < old(levels).len(),
        has_id(level_views(old(levels)@)[at as int].orders, id@),
        levels_disjoint(level_views(old(levels)@)),
        forall|i: int| 0 <= i < old(levels).len() ==> (#[trigger] level_views(old(levels)@)[i]).wf(),
    ensures
        r is Ok,
        level_views(final(levels)@) == remove_order(level_views(old(levels)@), id@),
        r matches Ok(log) ==> log@ == (DoneLogView {
            sequence: sequence as int,
            pair: pair_tag(),
            order_id: id@,
            price: find_order(level_views(old(levels)@), id@).price,
            remaining_size: find_order(level_views(old(levels)@), id@).size,
            reason: DoneReason::Deleted,
            side: find_order(level_views(old(levels)@), id@).side,
        }),
{
    let ghost before = level_views(levels@);
    proof {
        let chosen = level_of(before, id@);
        assert(0 <= chosen < before.len() && has_id(before[chosen].orders, id@));
        assert(chosen == at);
    }
    let mut level = levels.remove(at);
    assert(level@ == before[at as int]);
    let r = level.cancel_order(id, sequence);
    if level.orders().len() > 0 {
        levels.insert(at, level);
        assert(level_views(levels@) =~= before.update(at as int, level@));
    } else {
        assert(level_views(levels@) =~= before.remove(at as int));
    }
    r
}

/// A copy of the levels.
fn clone_levels(levels: &Vec<Limit>) -> (r: Vec<Limit>)
    ensures
        level_views(r@) == level_views(levels@),
{
    let mut r: Vec<Limit> = Vec::new();
    let mut i: usize = 0;
    while i < levels.len()
        invariant
            i <= levels.len(),
            level_views(r@) =~= level_views(levels@).take(i as int),
        decreases levels.len() - i,
    {
        let copy = levels[i].clone();
        let ghost before = r@;
        r.push(copy);
        proof {
            let all = level_views(levels@);
            assert(copy@ == all[i as int]);
            assert(level_views(r@) =~= level_views(before).push(copy@));
            assert(all.take(i + 1) =~= all.take(i as int).push(all[i as int]));
        }
        i += 1;
    }
    assert(level_views(levels@).take(i as int) =~= level_views(levels@));
    r
}

/// The order book of one instrument.
#[derive(Debug)]
pub struct OrderBook {
    asks: Vec<Limit>,
    bids: Vec<Limit>,
    sequence: i64,
    last_trade: i64,
}

impl View for OrderBook {
    type V = BookView;

    closed spec fn view(&self) -> BookView {
        BookView {
            asks: level_views(self.asks@),
            bids: level_views(self.bids@),
            sequence: self.sequence as int,
            last_trade: self.last_trade as int,
        }
    }
}

impl OrderBook {
    /// Every book is valid, at every moment: see `BookView::wf`.
    #[verifier::type_invariant]
    pub open spec fn wf(&self) -> bool {
        self@.wf()
    }

    /// Takes the levels of one side out of the book, to work on them.
    fn take_side(&mut self, side: BidOrAsk) -> (levels: Vec<Limit>)
        ensures
            level_views(levels@) == old(self)@.levels(side),
            final(self)@ == old(self)@.with_levels(side, Seq::empty()),
            old(self)@.wf(),
    {
        proof {
            use_type_invariant(&*self);
            lemma_with_fewer(self@, side, Seq::empty());
        }
        let mut levels: Vec<Limit> = Vec::new();
        assert(level_views(levels@) =~= Seq::empty());
        match side {
            BidOrAsk::Ask => core::mem::swap(&mut self.asks, &mut levels),
            BidOrAsk::Bid => core::mem::swap(&mut self.bids, &mut levels),
        }
        levels
    }

    /// Puts levels in the place of one side of the book.
    fn put_side(&mut self, side: BidOrAsk, levels: Vec<Limit>)
        requires
            old(self)@.with_levels(side, level_views(levels@)).wf(),
        ensures
            final(self)@ == old(self)@.with_levels(side, level_views(levels@)),
    {
        match side {
            BidOrAsk::Ask => {
                self.asks = levels;
            },
            BidOrAsk::Bid => {
                self.bids = levels;
            },
        }
    }

    /// An empty book whose counters stand at zero.
    pub fn new() -> (r: OrderBook)
        ensures
            r.wf(),
            r@ == (BookView {
                asks: Seq::empty(),
                bids: Seq::empty(),
                sequence: 0,
                last_trade: 0,
            }),
    {
        let r = OrderBook { asks: Vec::new(), bids: Vec::new(), sequence: 0, last_trade: 0 };
        proof {
            assert(r@.asks =~= Seq::empty());
            assert(r@.bids =~= Seq::empty());
            assert forall|id: Seq<char>| !side_has_id(r@.asks, id) by {}
        }
        r
    }

    /// Moves the counter on by one and returns its new value.
    fn next_log_seq(&mut self) -> (r: i64)
        requires
            old(self)@.sequence < i64::MAX,
        ensures
            r == old(self)@.sequence + 1,
            final(self)@ == (BookView { sequence: old(self)@.sequence + 1, ..old(self)@ }),
    {
        proof {
            use_type_invariant(&*self);
        }
        self.sequence = self.sequence + 1;
        self.sequence
    }

    /// The sequence number of the last record that the book has written.
    pub fn sequence(&self) -> (r: i64)
        ensures
            r == self@.sequence,
    {
        self.sequence
    }

    /// The sequence number of the book's last fill step; zero in a new book.
    pub fn last_trade(&self) -> (r: i64)
        ensures
            r == self@.last_trade,
    {
        self.last_trade
    }

    /// Matches `incoming` against the side opposite to its own, best price
    /// first and, at one price, earliest order first, until nothing of it is
    /// left or nothing rests there any more: the walk of `fill_levels`. What
    /// is left of `incoming` is its new size, and never comes to rest. The
    /// records come back in order, numbered on from the book's counter.
    pub fn fill_market_order(&mut self, incoming: &mut Order) -> (events: Vec<Log>)
        requires
            old(self)@.has_room(opposite(old(incoming)@.side), 0),
        ensures
            final(self).wf(),
            final(self)@ == old(self)@.matched(old(incoming)@),
            ({
                let fill = fill_levels(
                    old(self)@.levels(opposite(old(incoming)@.side)),
                    old(incoming)@.id,
                    old(incoming)@.size,
                    old(self)@.sequence + 1,
                );
                &&& final(incoming)@ == (OrderView { size: fill.remaining, ..old(incoming)@ })
                &&& log_views(events@) == fill.events
            }),
            0 <= final(incoming)@.size <= old(incoming)@.size,
            events@.len() <= 2 * order_count(old(self)@.levels(opposite(old(incoming)@.side))),
            order_count(final(self)@.levels(opposite(old(incoming)@.side))) <= order_count(
                old(self)@.levels(opposite(old(incoming)@.side)),
            ),
    {
        let ghost before = self@;
        let ghost side = opposite(incoming@.side);
        let ghost fill = fill_levels(
            before.levels(side),
            incoming@.id,
            incoming@.size,
            before.sequence + 1,
        );
        proof {
            use_type_invariant(&*incoming);
            use_type_invariant(&*self);
            lemma_fill_levels(
                before.levels(side),
                side,
                incoming@.id,
                incoming@.size,
                before.sequence + 1,
            );
            lemma_with_fewer(before, side, fill.levels);
            lemma_last_match_bounds(fill.events, before.last_trade, before.sequence + 1);
        }
        let last: i64 = self.sequence;
        let against = other_side(incoming.side());
        let mut levels = self.take_side(against);
        let events = fill_side(&mut levels, against, incoming, last);
        self.put_side(against, levels);
        assert(log_views(events@).len() == events@.len());
        self.sequence = self.sequence + events.len() as i64;
        self.last_trade = last_trade_of(&events, self.last_trade);
        events
    }

    /// The ask levels, lowest price first.
    pub fn ask_limits(&self) -> (r: Vec<Limit>)
        ensures
            level_views(r@) == self@.asks,
    {
        clone_levels(&self.asks)
    }

    /// The bid levels, highest price first.
    pub fn bid_limits(&self) -> (r: Vec<Limit>)
        ensures
            level_views(r@) == self@.bids,
    {
        clone_levels(&self.bids)
    }

    /// The snapshot of the book under the name of an instrument: all asks
    /// from the lowest price up, then all bids from the highest price down,
    /// with the book's two counters. The book stays as it is.
    pub fn snapshot(&self, pair: String) -> (r: SnapshotData)
        ensures
            r@ == self@.snapshot(pair@),
    {
        let snapshot = Snapshot::new(pair);
        snapshot.construct_snapshot(
            self.ask_limits(),
            self.bid_limits(),
            self.last_trade,
            self.sequence,
        )
    }

    /// Replaces the book by the one that `snapshot` stands for: its orders
    /// rested one after the other, each at its own price, without a record
    /// of it, and the counters as the snapshot has them. A snapshot that
    /// stands for no book is refused, and the book stays as it is.
    pub fn restore(&mut self, snapshot: SnapshotData) -> (r: Result<(), EngineError>)
        ensures
            final(self).wf(),
            r is Ok <==> restored(snapshot@) is Some,
            r is Ok ==> final(self)@ == restored(snapshot@)->Some_0,
            r matches Err(e) ==> e == EngineError::MalformedSnapshot && *final(self) == *old(self),
    {
        proof {
            use_type_invariant(&*self);
        }
        if snapshot.trade_seq() < 0 || snapshot.log_seq() < snapshot.trade_seq() {
            return Err(EngineError::MalformedSnapshot);
        }
        let mut book = OrderBook::new();
        let orders = snapshot.orders();
        let ghost all = snapshot@.orders;
        let mut i: usize = 0;
        assert(all.take(0) =~= Seq::empty());
        while i < orders.len()
            invariant
                i <= orders.len(),
                order_views(orders@) == all,
                all == snapshot@.orders,
                *self == *old(self),
                old(self).wf(),
                snapshot@.trade_seq >= 0,
                snapshot@.log_seq >= snapshot@.trade_seq,
                book.wf(),
                replay(all.take(i as int)) == Some(book@),
                book@.sequence == 0,
                book@.last_trade == 0,
            decreases orders.len() - i,
        {
            let order = orders[i].clone();
            proof {
                let longer = all.take(i + 1);
                assert(longer.drop_last() =~= all.take(i as int));
                assert(longer.last() == all[i as int]);
                assert(order@ == all[i as int]);
                use_type_invariant(&order);
            }
            if order.is_filled() || book.contains_order(order.id()) {
                proof {
                    lemma_replay_prefix(all, i + 1);
                    assert(all.take(all.len() as int) =~= all);
                }
                return Err(EngineError::MalformedSnapshot);
            }
            let price: Decimal = order.price();
            let _ = book.rest(price, order, 0);
            i += 1;
        }
        assert(all.take(i as int) =~= all);
        book.sequence = snapshot.log_seq();
        book.last_trade = snapshot.trade_seq();
        *self = book;
        Ok(())
    }

    /// Rests `order` at `price` and returns the record of it, stamped
    /// `sequence`. The counters stay where they are.
    fn rest(&mut self, price: Decimal, order: Order, sequence: i64) -> (log: OpenLog)
        requires
            price@ > 0,
            order@.size > 0,
            !old(self)@.has_id(order@.id),
        ensures
            final(self).wf(),
            final(self)@ == old(self)@.with_levels(
                order@.side,
                insert_order(old(self)@.levels(order@.side), order@.side, price@, order@),
            ),
            log@ == (OpenLogView {
                sequence: sequence as int,
                pair: pair_tag(),
                order_id: order@.id,
                size: order@.size,
                price: price@,
                side: order@.side,
            }),
    {
        let ghost before = self@;
        let side = order.side();
        proof {
            use_type_invariant(&*self);
            lemma_insert_order(before.levels(side), side, price@, order@);
            lemma_with_one_more(
                before,
                side,
                insert_order(before.levels(side), side, price@, order@),
                order@.id,
            );
        }
        let mut levels = self.take_side(side);
        let log = place(&mut levels, side, price, order, sequence);
        self.put_side(side, levels);
        log
    }

    /// True when an order with this id rests in the book.
    pub fn contains_order(&self, id: &String) -> (r: bool)
        ensures
            r == self@.has_id(id@),
    {
        find_level(&self.asks, id).is_some() || find_level(&self.bids, id).is_some()
    }

    /// Takes the order with this id out of the book, and its level with it
    /// if it rested there alone. The record of it carries the book's next
    /// sequence number and what was left of the order. Where no such order
    /// rests, nothing changes: not the levels, not the counters.
    pub fn cancel_order(&mut self, id: String) -> (r: Result<DoneLog, EngineError>)
        requires
            old(self)@.sequence < i64::MAX,
        ensures
            final(self).wf(),
            r is Err <==> !old(self)@.has_id(id@),
            r matches Err(e) ==> e == EngineError::NotFound && *final(self) == *old(self),
            r is Ok ==> order_count(final(self)@.asks) + order_count(final(self)@.bids)
                == order_count(old(self)@.asks) + order_count(old(self)@.bids) - 1,
            r matches Ok(log) ==> final(self)@ == old(self)@.without(id@) && log@ == (DoneLogView {
                sequence: old(self)@.sequence + 1,
                pair: pair_tag(),
                order_id: id@,
                price: old(self)@.order(id@).price,
                remaining_size: old(self)@.order(id@).size,
                reason: DoneReason::Deleted,
                side: old(self)@.order(id@).side,
            }),
    {
        let ghost before = self@;
        proof {
            use_type_invariant(&*self);
        }
        let found = match find_level(&self.asks, &id) {
            Some(at) => Some((BidOrAsk::Ask, at)),
            None => match find_level(&self.bids, &id) {
                Some(at) => Some((BidOrAsk::Bid, at)),
                None => None,
            },
        };
        match found {
            Some((side, at)) => {
                proof {
                    lemma_remove_order(before.levels(side), side, id@);
                    lemma_with_fewer(
                        BookView { sequence: before.sequence + 1, ..before },
                        side,
                        remove_order(before.levels(side), id@),
                    );
                }
                let sequence = self.next_log_seq();
                let mut levels = self.take_side(side);
                let r = cancel_at(&mut levels, at, id, sequence);
                self.put_side(side, levels);
                r
            },
            None => Err(EngineError::NotFound),
        }
    }

    /// True when the counter has numbers left for the records of a match
    /// against all of one side, and for one more record after them if
    /// `and_rest`.
    pub fn can_match(&self, against: BidOrAsk, and_rest: bool) -> (r: bool)
        ensures
            r == self@.has_room(against, if and_rest { 1int } else { 0int }),
    {
        proof {
            use_type_invariant(self);
        }
        let levels = match against {
            BidOrAsk::Ask => &self.asks,
            BidOrAsk::Bid => &self.bids,
        };
        let more: i64 = if and_rest { 1 } else { 0 };
        let ghost all = level_views(levels@);
        // The records that can still be written after those set aside.
        let room: i64 = i64::MAX - self.sequence - more;
        if room < 0 {
            return false;
        }
        let mut counted: i64 = 0;
        let mut i: usize = 0;
        assert(all.skip(0) =~= all);
        while i < levels.len()
            invariant
                i <= levels.len(),
                all == level_views(levels@),
                all == self@.levels(against),
                room == i64::MAX - self@.sequence - more,
                more == (if and_rest { 1int } else { 0int }),
                0 <= counted,
                2 * counted <= room,
                order_count(all) == counted + order_count(all.skip(i as int)),
            decreases levels.len() - i,
        {
            let here: usize = levels[i].orders().len();
            proof {
                let tail = all.skip(i as int);
                assert(tail[0] == all[i as int]);
                assert(tail.skip(1) =~= all.skip(i + 1));
                assert(order_count(tail) == tail[0].orders.len() + order_count(tail.skip(1)));
            }
            if here as u64 > (room - 2 * counted) as u64 {
                return false;
            }
            let next: i64 = counted + here as i64;
            if next > room - next {
                return false;
            }
            counted = next;
            i += 1;
        }
        true
    }

    /// Takes in a limit order. It is matched against the side opposite to
    /// its own as far as its price reaches: asks up to the limit of a bid,
    /// bids down to the limit of an ask, best price first. What is left of
    /// it then rests at its price. The records come back in order: those of
    /// the fill steps, then that of the order coming to rest, if it does.
    pub fn submit_limit_order(&mut self, order: Order) -> (events: Vec<Log>)
        requires
            order@.size > 0,
            !old(self)@.has_id(order@.id),
            old(self)@.has_room(opposite(order@.side), 1),
        ensures
            final(self).wf(),
            final(self)@ == old(self)@.submitted(order@),
            log_views(events@) == old(self)@.submit_events(order@),
            events@.len() <= 2 * order_count(old(self)@.levels(opposite(order@.side))) + 1,
            order_count(final(self)@.levels(opposite(order@.side))) <= order_count(
                old(self)@.levels(opposite(order@.side)),
            ),
            order_count(final(self)@.levels(order@.side)) <= order_count(
                old(self)@.levels(order@.side),
            ) + 1,
    {
        let ghost before = self@;
        let ghost against = opposite(order@.side);
        let ghost fill = before.limit_walk(order@);
        let ghost id = order@.id;
        let mut order = order;
        let price: Decimal = order.price();
        proof {
            use_type_invariant(&*self);
            lemma_limit_fill(
                before.levels(against),
                against,
                price@,
                id,
                order@.size,
                before.sequence + 1,
            );
            lemma_with_fewer(before, against, fill.levels);
            lemma_last_match_bounds(fill.events, before.last_trade, before.sequence + 1);
        }
        let last: i64 = self.sequence;
        let side = other_side(order.side());
        let mut levels = self.take_side(side);
        let mut events = fill_within(&mut levels, side, &mut order, price, last);
        self.put_side(side, levels);
        assert(log_views(events@).len() == events@.len());
        self.sequence = self.sequence + events.len() as i64;
        self.last_trade = last_trade_of(&events, self.last_trade);
        proof {
            let after = self@;
            assert(!after.has_id(id)) by {
                if side_has_id(after.asks, id) {
                    assert(side_has_id(before.asks, id));
                }
                if side_has_id(after.bids, id) {
                    assert(side_has_id(before.bids, id));
                }
            }
        }
        if !order.is_filled() {
            let ghost written = events@;
            let open = self.add_limit_order(price, order);
            events.push(Log::Open(open));
            assert(log_views(events@) =~= log_views(written).push(LogView::Open(open@)));
        }
        events
    }

    /// Rests `order` in the book at `price`, on the order's own side: last
    /// in the queue of the level at that price, which is made if it is not
    /// there. The record of it carries the book's next sequence number.
    pub fn add_limit_order(&mut self, price: Decimal, order: Order) -> (log: OpenLog)
        requires
            price@ > 0,
            order@.size > 0,
            !old(self)@.has_id(order@.id),
            old(self)@.sequence < i64::MAX,
        ensures
            final(self).wf(),
            final(self)@ == old(self)@.with_order(price@, order@),
            order_count(final(self)@.levels(order@.side)) == order_count(
                old(self)@.levels(order@.side),
            ) + 1,
            log@ == (OpenLogView {
                sequence: old(self)@.sequence + 1,
                pair: pair_tag(),
                order_id: order@.id,
                size: order@.size,
                price: price@,
                side: order@.side,
            }),
    {
        proof {
            use_type_invariant(&*self);
            lemma_insert_order(self@.levels(order@.side), order@.side, price@, order@);
        }
        let sequence = self.next_log_seq();
        self.rest(price, order, sequence)
    }
}

} // verus!
