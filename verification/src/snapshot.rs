//! Snapshots: the resting orders of a book as one flat list, with the book's
//! counters.

use crate::limit::{level_views, Limit, LimitView};
use crate::order::{order_views, Order, OrderView};
use vstd::prelude::*;

verus! {

/// The orders of the levels as one list: level after level, and within a
/// level in order of arrival.
pub open spec fn level_orders(levels: Seq<LimitView>) -> Seq<OrderView>
    decreases levels.len(),
{
    if levels.len() == 0 {
        Seq::empty()
    } else {
        level_orders(levels.drop_last()) + levels.last().orders
    }
}

/// What a snapshot holds.
pub struct SnapshotView {
    pub pair: Seq<char>,
    /// The resting orders: asks from the lowest price up, then bids from the
    /// highest price down.
    pub orders: Seq<OrderView>,
    /// The sequence number of the last record.
    pub log_seq: int,
    /// The sequence number of the last fill step.
    pub trade_seq: int,
}

/// The state of a book, flattened for keeping.
#[derive(Debug)]
pub struct SnapshotData {
    pair: String,
    pub orders: Vec<Order>,
    log_seq: i64,
    trade_seq: i64,
}

impl View for SnapshotData {
    type V = SnapshotView;

    closed spec fn view(&self) -> SnapshotView {
        SnapshotView {
            pair: self.pair@,
            orders: order_views(self.orders@),
            log_seq: self.log_seq as int,
            trade_seq: self.trade_seq as int,
        }
    }
}

impl SnapshotData {
    /// A snapshot from its parts, as read back from where it was kept.
    pub fn new(pair: String, orders: Vec<Order>, log_seq: i64, trade_seq: i64) -> (r: SnapshotData)
        ensures
            r@ == (SnapshotView {
                pair: pair@,
                orders: order_views(orders@),
                log_seq: log_seq as int,
                trade_seq: trade_seq as int,
            }),
    {
        SnapshotData { pair, orders, log_seq, trade_seq }
    }

    pub fn pair(&self) -> (r: &String)
        ensures
            r@ == self@.pair,
    {
        &self.pair
    }

    /// The resting orders, in the snapshot's order.
    pub fn orders(&self) -> (r: &Vec<Order>)
        ensures
            order_views(r@) == self@.orders,
    {
        &self.orders
    }

    pub fn log_seq(&self) -> (r: i64)
        ensures
            r == self@.log_seq,
    {
        self.log_seq
    }

    pub fn trade_seq(&self) -> (r: i64)
        ensures
            r == self@.trade_seq,
    {
        self.trade_seq
    }
}

/// Copies the orders of the levels to the end of `out`, level after level.
fn append_orders(out: &mut Vec<Order>, levels: &Vec<Limit>)
    ensures
        order_views(final(out)@) == order_views(old(out)@) + level_orders(
            level_views(levels@),
        ),
{
    let ghost start = order_views(out@);
    let ghost all = level_views(levels@);
    let mut i: usize = 0;
    assert(order_views(out@) =~= start + level_orders(all.take(0)));
    while i < levels.len()
        invariant
            i <= levels.len(),
            all == level_views(levels@),
            order_views(out@) == start + level_orders(all.take(i as int)),
        decreases levels.len() - i,
    {
        let orders = levels[i].orders();
        let ghost level = all[i as int].orders;
        let ghost base = order_views(out@);
        let mut k: usize = 0;
        assert(order_views(out@) =~= base + level.take(0));
        while k < orders.len()
            invariant
                k <= orders.len(),
                order_views(orders@) == level,
                order_views(out@) == base + level.take(k as int),
            decreases orders.len() - k,
        {
            let copy = orders[k].clone();
            let ghost before = out@;
            out.push(copy);
            proof {
                assert(copy@ == level[k as int]);
                assert(order_views(out@) =~= order_views(before).push(copy@));
                assert(level.take(k + 1) =~= level.take(k as int).push(level[k as int]));
                assert(order_views(out@) =~= base + level.take(k + 1));
            }
            k += 1;
        }
        proof {
            assert(level.take(k as int) =~= level);
            let longer = all.take(i + 1);
            assert(longer.drop_last() =~= all.take(i as int));
            assert(longer.last() == all[i as int]);
            assert(order_views(out@) =~= start + level_orders(longer));
        }
        i += 1;
    }
    assert(all.take(i as int) =~= all);
}

/// The maker of snapshots for one instrument.
#[derive(Debug)]
pub struct Snapshot {
    pair: String,
}

impl View for Snapshot {
    type V = Seq<char>;

    closed spec fn view(&self) -> Seq<char> {
        self.pair@
    }
}

impl Snapshot {
    /// A maker of snapshots under the name of an instrument.
    pub fn new(pair: String) -> (r: Snapshot)
        ensures
            r@ == pair@,
    {
        Self { pair }
    }

    /// The snapshot of these levels: the orders of `ask`, level after level,
    /// then those of `bid`, under this maker's instrument and with the two
    /// counters.
    pub fn construct_snapshot(
        &self,
        ask: Vec<Limit>,
        bid: Vec<Limit>,
        trade_seq: i64,
        log_seq: i64,
    ) -> (r: SnapshotData)
        ensures
            r@ == (SnapshotView {
                pair: self@,
                orders: level_orders(level_views(ask@)) + level_orders(
                    level_views(bid@),
                ),
                log_seq: log_seq as int,
                trade_seq: trade_seq as int,
            }),
    {
        let mut orders: Vec<Order> = Vec::new();
        assert(order_views(orders@) =~= Seq::empty());
        append_orders(&mut orders, &ask);
        append_orders(&mut orders, &bid);
        assert(order_views(orders@) =~= level_orders(level_views(ask@))
            + level_orders(level_views(bid@)));
        SnapshotData { pair: self.pair.clone(), orders, log_seq, trade_seq }
    }
}

} // verus!
