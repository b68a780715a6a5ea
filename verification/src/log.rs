//! The audit trail: one sequenced, immutable record for every change of the
//! book.

use crate::clock::wall_clock;
use crate::decimal::Decimal;
use crate::order::BidOrAsk;
use std::time::SystemTime;
use vstd::prelude::*;

verus! {

/// The instrument tag that a book stamps on its records.
pub open spec fn pair_tag() -> Seq<char> {
    "PAIR"@
}

/// The instrument tag, as a fresh string.
pub fn pair_name() -> (r: String)
    ensures
        r@ == pair_tag(),
{
    "PAIR".to_owned()
}

/// The kind of a record.
#[derive(Clone, Copy, Debug, PartialEq, Eq, Structural)]
pub enum LogType {
    Received,
    Open,
    Match,
    Done,
}

/// Why an order left the book.
#[derive(Clone, Copy, Debug, PartialEq, Eq, Structural)]
pub enum DoneReason {
    /// Matching drained it to zero.
    Filled,
    /// It was cancelled.
    Deleted,
}

/// What the header of a record holds.
pub struct BaseView {
    pub log_type: LogType,
    pub sequence: int,
    pub pair: Seq<char>,
    pub time: SystemTime,
}

/// The header that all records share: kind, sequence number, instrument and
/// wall-clock time.
#[derive(Debug)]
pub struct Base {
    log_type: LogType,
    sequence: i64,
    pair: String,
    time: SystemTime,
}

impl View for Base {
    type V = BaseView;

    closed spec fn view(&self) -> BaseView {
        BaseView {
            log_type: self.log_type,
            sequence: self.sequence as int,
            pair: self.pair@,
            time: self.time,
        }
    }
}

impl Base {
    /// A header from its parts.
    pub fn new(log_type: LogType, sequence: i64, pair: String, time: SystemTime) -> (r: Base)
        ensures
            r@ == (BaseView { log_type, sequence: sequence as int, pair: pair@, time }),
    {
        Base { log_type, sequence, pair, time }
    }

    pub fn log_type(&self) -> (r: LogType)
        ensures
            r == self@.log_type,
    {
        self.log_type
    }

    pub fn sequence(&self) -> (r: i64)
        ensures
            r == self@.sequence,
    {
        self.sequence
    }

    pub fn pair(&self) -> (r: &String)
        ensures
            r@ == self@.pair,
    {
        &self.pair
    }

    pub fn time(&self) -> (r: SystemTime)
        ensures
            r == self@.time,
    {
        self.time
    }
}

/// An order was taken in, and does not rest yet.
pub struct ReceivedLogView {
    pub sequence: int,
    pub pair: Seq<char>,
    pub order_id: Seq<char>,
    pub size: int,
    pub price: int,
    pub order_type: int,
}

/// The record of an order that was taken in.
#[derive(Debug)]
pub struct ReceivedLog {
    base: Base,
    order_id: String,
    size: Decimal,
    price: Decimal,
    order_type: i64,
}

impl View for ReceivedLog {
    type V = ReceivedLogView;

    closed spec fn view(&self) -> ReceivedLogView {
        ReceivedLogView {
            sequence: self.base@.sequence,
            pair: self.base@.pair,
            order_id: self.order_id@,
            size: self.size@,
            price: self.price@,
            order_type: self.order_type as int,
        }
    }
}

impl ReceivedLog {
    #[verifier::type_invariant]
    spec fn inv(self) -> bool {
        self.base@.log_type == LogType::Received
    }

    /// A record of this kind, stamped with the current time.
    pub fn new(
        sequence: i64,
        pair: String,
        order_id: String,
        size: Decimal,
        price: Decimal,
        order_type: i64,
    ) -> (r: ReceivedLog)
        ensures
            r@ == (ReceivedLogView {
                sequence: sequence as int,
                pair: pair@,
                order_id: order_id@,
                size: size@,
                price: price@,
                order_type: order_type as int,
            }),
    {
        ReceivedLog {
            base: Base::new(LogType::Received, sequence, pair, wall_clock()),
            order_id,
            size,
            price,
            order_type,
        }
    }

    pub fn get_seq(&self) -> (r: i64)
        ensures
            r == self@.sequence,
    {
        self.base.sequence()
    }

    /// The header: the kind, the sequence number, the instrument and the
    /// time of writing.
    pub fn base(&self) -> (r: &Base)
        ensures
            r@.log_type == LogType::Received,
            r@.sequence == self@.sequence,
            r@.pair == self@.pair,
    {
        proof {
            use_type_invariant(self);
        }
        &self.base
    }

    pub fn order_id(&self) -> (r: &String)
        ensures
            r@ == self@.order_id,
    {
        &self.order_id
    }

    pub fn size(&self) -> (r: Decimal)
        ensures
            r@ == self@.size,
    {
        self.size
    }

    pub fn price(&self) -> (r: Decimal)
        ensures
            r@ == self@.price,
    {
        self.price
    }

    pub fn order_type(&self) -> (r: i64)
        ensures
            r == self@.order_type,
    {
        self.order_type
    }
}

/// A limit order came to rest.
pub struct OpenLogView {
    pub sequence: int,
    pub pair: Seq<char>,
    pub order_id: Seq<char>,
    pub size: int,
    pub price: int,
    pub side: BidOrAsk,
}

/// The record of a limit order that came to rest.
#[derive(Debug)]
pub struct OpenLog {
    base: Base,
    order_id: String,
    size: Decimal,
    price: Decimal,
    bid_or_ask: BidOrAsk,
}

impl View for OpenLog {
    type V = OpenLogView;

    closed spec fn view(&self) -> OpenLogView {
        OpenLogView {
            sequence: self.base@.sequence,
            pair: self.base@.pair,
            order_id: self.order_id@,
            size: self.size@,
            price: self.price@,
            side: self.bid_or_ask,
        }
    }
}

impl OpenLog {
    #[verifier::type_invariant]
    spec fn inv(self) -> bool {
        self.base@.log_type == LogType::Open
    }

    /// A record of this kind, stamped with the current time.
    pub fn new(
        sequence: i64,
        pair: String,
        order_id: String,
        size: Decimal,
        price: Decimal,
        bid_or_ask: BidOrAsk,
    ) -> (r: OpenLog)
        ensures
            r@ == (OpenLogView {
                sequence: sequence as int,
                pair: pair@,
                order_id: order_id@,
                size: size@,
                price: price@,
                side: bid_or_ask,
            }),
    {
        OpenLog {
            base: Base::new(LogType::Open, sequence, pair, wall_clock()),
            order_id,
            size,
            price,
            bid_or_ask,
        }
    }

    pub fn get_seq(&self) -> (r: i64)
        ensures
            r == self@.sequence,
    {
        self.base.sequence()
    }

    /// The header: the kind, the sequence number, the instrument and the
    /// time of writing.
    pub fn base(&self) -> (r: &Base)
        ensures
            r@.log_type == LogType::Open,
            r@.sequence == self@.sequence,
            r@.pair == self@.pair,
    {
        proof {
            use_type_invariant(self);
        }
        &self.base
    }

    pub fn order_id(&self) -> (r: &String)
        ensures
            r@ == self@.order_id,
    {
        &self.order_id
    }

    pub fn size(&self) -> (r: Decimal)
        ensures
            r@ == self@.size,
    {
        self.size
    }

    pub fn price(&self) -> (r: Decimal)
        ensures
            r@ == self@.price,
    {
        self.price
    }

    pub fn side(&self) -> (r: BidOrAsk)
        ensures
            r == self@.side,
    {
        self.bid_or_ask
    }
}

/// One fill step between an incoming order, the taker, and a resting one,
/// the maker.
pub struct MatchLogView {
    pub sequence: int,
    pub pair: Seq<char>,
    pub taker_order_id: Seq<char>,
    pub maker_order_id: Seq<char>,
    pub price: int,
    pub size: int,
}

/// The record of one fill step.
#[derive(Debug)]
pub struct MatchLog {
    base: Base,
    taker_order_id: String,
    maker_order_id: String,
    price: Decimal,
    size: Decimal,
}

impl View for MatchLog {
    type V = MatchLogView;

    closed spec fn view(&self) -> MatchLogView {
        MatchLogView {
            sequence: self.base@.sequence,
            pair: self.base@.pair,
            taker_order_id: self.taker_order_id@,
            maker_order_id: self.maker_order_id@,
            price: self.price@,
            size: self.size@,
        }
    }
}

impl MatchLog {
    #[verifier::type_invariant]
    spec fn inv(self) -> bool {
        self.base@.log_type == LogType::Match
    }

    /// A record of this kind, stamped with the current time.
    pub fn new(
        sequence: i64,
        pair: String,
        taker_order_id: String,
        maker_order_id: String,
        price: Decimal,
        size: Decimal,
    ) -> (r: MatchLog)
        ensures
            r@ == (MatchLogView {
                sequence: sequence as int,
                pair: pair@,
                taker_order_id: taker_order_id@,
                maker_order_id: maker_order_id@,
                price: price@,
                size: size@,
            }),
    {
        MatchLog {
            base: Base::new(LogType::Match, sequence, pair, wall_clock()),
            taker_order_id,
            maker_order_id,
            price,
            size,
        }
    }

    pub fn get_seq(&self) -> (r: i64)
        ensures
            r == self@.sequence,
    {
        self.base.sequence()
    }

    /// The header: the kind, the sequence number, the instrument and the
    /// time of writing.
    pub fn base(&self) -> (r: &Base)
        ensures
            r@.log_type == LogType::Match,
            r@.sequence == self@.sequence,
            r@.pair == self@.pair,
    {
        proof {
            use_type_invariant(self);
        }
        &self.base
    }

    pub fn taker_order_id(&self) -> (r: &String)
        ensures
            r@ == self@.taker_order_id,
    {
        &self.taker_order_id
    }

    pub fn maker_order_id(&self) -> (r: &String)
        ensures
            r@ == self@.maker_order_id,
    {
        &self.maker_order_id
    }

    pub fn price(&self) -> (r: Decimal)
        ensures
            r@ == self@.price,
    {
        self.price
    }

    pub fn size(&self) -> (r: Decimal)
        ensures
            r@ == self@.size,
    {
        self.size
    }
}

/// A resting order left the book.
pub struct DoneLogView {
    pub sequence: int,
    pub pair: Seq<char>,
    pub order_id: Seq<char>,
    pub price: int,
    pub remaining_size: int,
    pub reason: DoneReason,
    pub side: BidOrAsk,
}

/// The record of a resting order that left the book.
#[derive(Debug)]
pub struct DoneLog {
    base: Base,
    order_id: String,
    price: Decimal,
    remaining_size: Decimal,
    reason: DoneReason,
    bid_or_ask: BidOrAsk,
}

impl View for DoneLog {
    type V = DoneLogView;

    closed spec fn view(&self) -> DoneLogView {
        DoneLogView {
            sequence: self.base@.sequence,
            pair: self.base@.pair,
            order_id: self.order_id@,
            price: self.price@,
            remaining_size: self.remaining_size@,
            reason: self.reason,
            side: self.bid_or_ask,
        }
    }
}

impl DoneLog {
    #[verifier::type_invariant]
    spec fn inv(self) -> bool {
        self.base@.log_type == LogType::Done
    }

    /// A record of this kind, stamped with the current time.
    pub fn new(
        sequence: i64,
        pair: String,
        order_id: String,
        price: Decimal,
        remaining_size: Decimal,
        reason: DoneReason,
        bid_or_ask: BidOrAsk,
    ) -> (r: DoneLog)
        ensures
            r@ == (DoneLogView {
                sequence: sequence as int,
                pair: pair@,
                order_id: order_id@,
                price: price@,
                remaining_size: remaining_size@,
                reason,
                side: bid_or_ask,
            }),
    {
        DoneLog {
            base: Base::new(LogType::Done, sequence, pair, wall_clock()),
            order_id,
            price,
            remaining_size,
            reason,
            bid_or_ask,
        }
    }

    pub fn get_seq(&self) -> (r: i64)
        ensures
            r == self@.sequence,
    {
        self.base.sequence()
    }

    /// The header: the kind, the sequence number, the instrument and the
    /// time of writing.
    pub fn base(&self) -> (r: &Base)
        ensures
            r@.log_type == LogType::Done,
            r@.sequence == self@.sequence,
            r@.pair == self@.pair,
    {
        proof {
            use_type_invariant(self);
        }
        &self.base
    }

    pub fn order_id(&self) -> (r: &String)
        ensures
            r@ == self@.order_id,
    {
        &self.order_id
    }

    pub fn price(&self) -> (r: Decimal)
        ensures
            r@ == self@.price,
    {
        self.price
    }

    pub fn remaining_size(&self) -> (r: Decimal)
        ensures
            r@ == self@.remaining_size,
    {
        self.remaining_size
    }

    pub fn reason(&self) -> (r: DoneReason)
        ensures
            r == self@.reason,
    {
        self.reason
    }

    pub fn side(&self) -> (r: BidOrAsk)
        ensures
            r == self@.side,
    {
        self.bid_or_ask
    }
}

/// What a record says, whatever its kind.
pub enum LogView {
    Received(ReceivedLogView),
    Open(OpenLogView),
    Match(MatchLogView),
    Done(DoneLogView),
}

impl LogView {
    /// The sequence number of the record.
    pub open spec fn sequence(self) -> int {
        match self {
            LogView::Received(l) => l.sequence,
            LogView::Open(l) => l.sequence,
            LogView::Match(l) => l.sequence,
            LogView::Done(l) => l.sequence,
        }
    }
}

/// The sizes of the fill steps among the records, added up.
pub open spec fn matched_total(events: Seq<LogView>) -> int
    decreases events.len(),
{
    if events.len() == 0 {
        0
    } else {
        (match events[0] {
            LogView::Match(m) => m.size,
            _ => 0,
        }) + matched_total(events.skip(1))
    }
}

/// The makers of the fill steps among the records, in order.
pub open spec fn match_makers(events: Seq<LogView>) -> Seq<Seq<char>>
    decreases events.len(),
{
    if events.len() == 0 {
        Seq::empty()
    } else {
        (match events[0] {
            LogView::Match(m) => seq![m.maker_order_id],
            _ => Seq::empty(),
        }) + match_makers(events.skip(1))
    }
}

/// The sequence number of the last fill step among the records, or `before`
/// where there is none.
pub open spec fn last_match_sequence(events: Seq<LogView>, before: int) -> int
    decreases events.len(),
{
    if events.len() == 0 {
        before
    } else {
        match events.last() {
            LogView::Match(m) => m.sequence,
            _ => last_match_sequence(events.drop_last(), before),
        }
    }
}

/// Fill steps add up over two runs of records.
pub proof fn lemma_matched_total_concat(a: Seq<LogView>, b: Seq<LogView>)
    ensures
        matched_total(a + b) == matched_total(a) + matched_total(b),
    decreases a.len(),
{
    if a.len() == 0 {
        assert(a + b =~= b);
    } else {
        assert((a + b)[0] == a[0]);
        assert((a + b).skip(1) =~= a.skip(1) + b);
        lemma_matched_total_concat(a.skip(1), b);
    }
}

/// The makers of two runs of records are those of the first, then those of
/// the second.
pub proof fn lemma_match_makers_concat(a: Seq<LogView>, b: Seq<LogView>)
    ensures
        match_makers(a + b) == match_makers(a) + match_makers(b),
    decreases a.len(),
{
    if a.len() == 0 {
        assert(a + b =~= b);
        assert(match_makers(a) + match_makers(b) =~= match_makers(b));
    } else {
        assert((a + b)[0] == a[0]);
        assert((a + b).skip(1) =~= a.skip(1) + b);
        lemma_match_makers_concat(a.skip(1), b);
        let head = match a[0] {
            LogView::Match(m) => seq![m.maker_order_id],
            _ => Seq::empty(),
        };
        assert(head + (match_makers(a.skip(1)) + match_makers(b)) =~= (head + match_makers(
            a.skip(1),
        )) + match_makers(b));
    }
}

/// A record of any kind.
#[derive(Debug)]
pub enum Log {
    Received(ReceivedLog),
    Open(OpenLog),
    Match(MatchLog),
    Done(DoneLog),
}

impl View for Log {
    type V = LogView;

    open spec fn view(&self) -> LogView {
        match *self {
            Log::Received(l) => LogView::Received(l@),
            Log::Open(l) => LogView::Open(l@),
            Log::Match(l) => LogView::Match(l@),
            Log::Done(l) => LogView::Done(l@),
        }
    }
}

impl Log {
    /// The record's place in the book's one total order of events.
    pub fn get_seq(&self) -> (r: i64)
        ensures
            r == self@.sequence(),
    {
        match self {
            Log::Received(l) => l.get_seq(),
            Log::Open(l) => l.get_seq(),
            Log::Match(l) => l.get_seq(),
            Log::Done(l) => l.get_seq(),
        }
    }

    /// The kind of the record.
    pub fn log_type(&self) -> (r: LogType)
        ensures
            r == (match self@ {
                LogView::Received(_) => LogType::Received,
                LogView::Open(_) => LogType::Open,
                LogView::Match(_) => LogType::Match,
                LogView::Done(_) => LogType::Done,
            }),
    {
        match self {
            Log::Received(_) => LogType::Received,
            Log::Open(_) => LogType::Open,
            Log::Match(_) => LogType::Match,
            Log::Done(_) => LogType::Done,
        }
    }
}

/// What a list of records says, in order.
pub open spec fn log_views(logs: Seq<Log>) -> Seq<LogView> {
    logs.map_values(|l: Log| l@)
}

} // verus!
