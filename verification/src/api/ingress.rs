//! Requests as a front-end hands them over, checked and carried out on a
//! registry, and the answers as it hands them back.

use vstd::prelude::*;
use uuid::Uuid;
use crate::engine::market::engine_for;
use crate::engine::market::EngineError;
use crate::engine::market::MarketRegistry;
use crate::engine::market::RegistryView;
use crate::models::order::Order;
use crate::models::order::OrderId;
use crate::models::order::OrderView;
use crate::models::price::Price;
use crate::models::side::Side;
use crate::models::trade::trade_views;
use crate::models::trade::Trade;
use crate::models::trade::TradeView;

verus! {

/// The 128 bits of the UUID that `Uuid::parse_str` reads from a text, or
/// nothing where it reads none.
pub uninterp spec fn uuid_parse(text: Seq<char>) -> Option<u128>;

/// The text that `Uuid`'s `Display` writes for the UUID of these 128 bits.
pub uninterp spec fn uuid_text(id: u128) -> Seq<char>;

/// `Uuid::parse_str`, then `Uuid::as_u128`: the id that a text spells, in any
/// of the forms the uuid crate reads, or nothing.
#[verifier::external_body]
fn parse_order_id(text: &str) -> (r: Option<OrderId>)
    ensures
        r == match uuid_parse(text@) {
            Some(bits) => Some(OrderId(bits)),
            None => None,
        },
{
    match Uuid::parse_str(text) {
        Ok(id) => Some(OrderId(id.as_u128())),
        Err(_) => None,
    }
}

/// `Uuid::from_u128`, then `to_string`: the id as the uuid crate writes it,
/// which is a text that `Uuid::parse_str` reads as the same id.
#[verifier::external_body]
fn order_id_text(id: OrderId) -> (r: String)
    ensures
        r@ == uuid_text(id.0),
        uuid_parse(r@) == Some(id.0),
{
    Uuid::from_u128(id.0).to_string()
}

/// An order as a front-end receives it.
#[derive(Clone, Debug)]
pub struct OrderRequest {
    pub id: String,
    pub market: String,
    pub wallet: String,
    pub side: String,
    pub price: u64,
    pub quantity: u64,
}

/// A trade as a front-end sends it out.
#[derive(Clone, Debug)]
pub struct TradeReport {
    pub market: String,
    pub buy_order: String,
    pub sell_order: String,
    pub price: u64,
    pub quantity: u64,
    pub sequence: u64,
}

/// The mathematical value of a [`TradeReport`].
pub struct TradeReportView {
    pub market: Seq<char>,
    pub buy_order: Seq<char>,
    pub sell_order: Seq<char>,
    pub price: u64,
    pub quantity: u64,
    pub sequence: nat,
}

impl View for TradeReport {
    type V = TradeReportView;

    open spec fn view(&self) -> TradeReportView {
        TradeReportView {
            market: self.market@,
            buy_order: self.buy_order@,
            sell_order: self.sell_order@,
            price: self.price,
            quantity: self.quantity,
            sequence: self.sequence as nat,
        }
    }
}

/// The values of a list of reports, in order.
pub open spec fn report_views(reports: Seq<TradeReport>) -> Seq<TradeReportView> {
    reports.map_values(|r: TradeReport| r@)
}

/// The report of a trade whose two order ids are written as `buy_order` and
/// `sell_order`.
pub open spec fn report_with(trade: TradeView, buy_order: Seq<char>, sell_order: Seq<char>) -> TradeReportView {
    TradeReportView {
        market: trade.market,
        buy_order,
        sell_order,
        price: trade.price,
        quantity: trade.quantity,
        sequence: trade.sequence,
    }
}

/// The report of a trade.
pub open spec fn report_of(trade: TradeView) -> TradeReportView {
    report_with(trade, uuid_text(trade.buy_order), uuid_text(trade.sell_order))
}

/// The two order ids of the report are texts that read as the ids of the
/// trade, so that either order can be named by what the report says.
pub open spec fn names_orders_of(report: TradeReportView, trade: TradeView) -> bool {
    uuid_parse(report.buy_order) == Some(trade.buy_order) && uuid_parse(report.sell_order)
        == Some(trade.sell_order)
}

/// Why a request was turned down.
#[derive(Clone, Copy, Debug, PartialEq, Eq, Structural)]
pub enum Rejection {
    /// The request holds no order.
    OrderRequired,
    /// The order id is no UUID.
    InvalidOrderId,
    /// The side is neither `BUY` nor `SELL`.
    InvalidSide,
    /// The order has no quantity.
    InvalidQuantity,
    /// An order with this id rests in the market already.
    DuplicateOrderId,
    /// The market's trade sequence has no room for the trades of one more
    /// order.
    SequenceExhausted,
    /// No engine exists for the named market.
    MarketNotFound,
    /// No order with that id rests in the market's book.
    OrderNotFound,
}

/// The kind of a rejection, as a front-end reports it.
#[derive(Clone, Copy, Debug, PartialEq, Eq, Structural)]
pub enum RejectionKind {
    InvalidArgument,
    NotFound,
    AlreadyExists,
    ResourceExhausted,
}

impl Rejection {
    /// The kind of this rejection.
    pub open spec fn spec_kind(&self) -> RejectionKind {
        match self {
            Rejection::OrderRequired => RejectionKind::InvalidArgument,
            Rejection::InvalidOrderId => RejectionKind::InvalidArgument,
            Rejection::InvalidSide => RejectionKind::InvalidArgument,
            Rejection::InvalidQuantity => RejectionKind::InvalidArgument,
            Rejection::DuplicateOrderId => RejectionKind::AlreadyExists,
            Rejection::SequenceExhausted => RejectionKind::ResourceExhausted,
            Rejection::MarketNotFound => RejectionKind::NotFound,
            Rejection::OrderNotFound => RejectionKind::NotFound,
        }
    }

    /// The kind of this rejection.
    #[verifier::when_used_as_spec(spec_kind)]
    pub fn kind(&self) -> (r: RejectionKind)
        ensures
            r == self.spec_kind(),
    {
        match self {
            Rejection::OrderRequired => RejectionKind::InvalidArgument,
            Rejection::InvalidOrderId => RejectionKind::InvalidArgument,
            Rejection::InvalidSide => RejectionKind::InvalidArgument,
            Rejection::InvalidQuantity => RejectionKind::InvalidArgument,
            Rejection::DuplicateOrderId => RejectionKind::AlreadyExists,
            Rejection::SequenceExhausted => RejectionKind::ResourceExhausted,
            Rejection::MarketNotFound => RejectionKind::NotFound,
            Rejection::OrderNotFound => RejectionKind::NotFound,
        }
    }

    /// The rejection in words.
    pub fn message(&self) -> (r: &'static str)
        ensures
            r@ == match self {
                Rejection::OrderRequired => "Order is required"@,
                Rejection::InvalidOrderId => "Invalid order ID"@,
                Rejection::InvalidSide => "Invalid side"@,
                Rejection::InvalidQuantity => "Invalid quantity"@,
                Rejection::DuplicateOrderId => "Duplicate order ID"@,
                Rejection::SequenceExhausted => "Trade sequence exhausted"@,
                Rejection::MarketNotFound => "Market not found"@,
                Rejection::OrderNotFound => "Order not found"@,
            },
    {
        match self {
            Rejection::OrderRequired => "Order is required",
            Rejection::InvalidOrderId => "Invalid order ID",
            Rejection::InvalidSide => "Invalid side",
            Rejection::InvalidQuantity => "Invalid quantity",
            Rejection::DuplicateOrderId => "Duplicate order ID",
            Rejection::SequenceExhausted => "Trade sequence exhausted",
            Rejection::MarketNotFound => "Market not found",
            Rejection::OrderNotFound => "Order not found",
        }
    }
}

/// The side that a text names: `BUY` is a buy, `SELL` is a sell, and no
/// other text names a side.
pub open spec fn spec_parse_side(text: Seq<char>) -> Option<Side> {
    if text == "BUY"@ {
        Some(Side::Buy)
    } else if text == "SELL"@ {
        Some(Side::Sell)
    } else {
        None
    }
}

/// The side that a text names: `BUY` is a buy, `SELL` is a sell, and no
/// other text names a side.
pub fn parse_side(text: &str) -> (r: Option<Side>)
    ensures
        r == spec_parse_side(text@),
{
    let given = text.to_owned();
    if given == "BUY".to_owned() {
        Some(Side::Buy)
    } else if given == "SELL".to_owned() {
        Some(Side::Sell)
    } else {
        None
    }
}

/// The order that a request asks for, once its id is read, or why there is
/// none: the id must be a UUID, then the side must be one, and then the
/// quantity at least one.
pub open spec fn spec_build_order(
    id: Option<u128>,
    input: OrderRequest,
    timestamp: u64,
) -> Result<OrderView, Rejection> {
    match id {
        None => Err(Rejection::InvalidOrderId),
        Some(bits) => match spec_parse_side(input.side@) {
            None => Err(Rejection::InvalidSide),
            Some(side) => if input.quantity == 0 {
                Err(Rejection::InvalidQuantity)
            } else {
                Ok(
                    OrderView {
                        id: bits,
                        market: input.market@,
                        wallet: input.wallet@,
                        side,
                        price: input.price,
                        quantity: input.quantity,
                        timestamp,
                    },
                )
            },
        },
    }
}

/// Makes the order that a request asks for, given what its id reads as.
pub fn build_order(id: Option<OrderId>, input: OrderRequest, timestamp: u64) -> (r: Result<
    Order,
    Rejection,
>)
    ensures
        match r {
            Ok(order) => spec_build_order(
                match id {
                    Some(i) => Some(i.0),
                    None => None,
                },
                input,
                timestamp,
            ) == Ok::<OrderView, Rejection>(order@),
            Err(e) => spec_build_order(
                match id {
                    Some(i) => Some(i.0),
                    None => None,
                },
                input,
                timestamp,
            ) == Err::<OrderView, Rejection>(e),
        },
{
    let id = match id {
        Some(id) => id,
        None => {
            return Err(Rejection::InvalidOrderId);
        },
    };
    let side = match parse_side(input.side.as_str()) {
        Some(side) => side,
        None => {
            return Err(Rejection::InvalidSide);
        },
    };
    let order = Order {
        id,
        market: input.market,
        wallet: input.wallet,
        side,
        price: Price(input.price),
        quantity: input.quantity,
        timestamp,
    };
    match crate::engine::risk::validate(&order) {
        Ok(_) => Ok(order),
        Err(_) => Err(Rejection::InvalidQuantity),
    }
}

/// Reads the id of a request and makes the order it asks for.
pub fn decode_order(input: OrderRequest, timestamp: u64) -> (r: Result<Order, Rejection>)
    ensures
        match r {
            Ok(order) => spec_build_order(uuid_parse(input.id@), input, timestamp) == Ok::<
                OrderView,
                Rejection,
            >(order@),
            Err(e) => spec_build_order(uuid_parse(input.id@), input, timestamp) == Err::<
                OrderView,
                Rejection,
            >(e),
        },
{
    let id = parse_order_id(input.id.as_str());
    build_order(id, input, timestamp)
}

/// The report of a trade, given its two order ids as texts.
pub fn report_trade(trade: &Trade, buy_order: String, sell_order: String) -> (r: TradeReport)
    ensures
        r@ == report_with(trade@, buy_order@, sell_order@),
{
    TradeReport {
        market: trade.market.clone(),
        buy_order,
        sell_order,
        price: trade.price.0,
        quantity: trade.quantity,
        sequence: trade.sequence,
    }
}

/// The report of a trade.
pub fn encode_trade(trade: &Trade) -> (r: TradeReport)
    ensures
        r@ == report_of(trade@),
        names_orders_of(r@, trade@),
{
    report_trade(trade, order_id_text(trade.buy_order), order_id_text(trade.sell_order))
}

/// The reports of a list of trades, in order.
pub fn encode_trades(trades: &Vec<Trade>) -> (r: Vec<TradeReport>)
    ensures
        report_views(r@) == trade_views(trades@).map_values(|t: TradeView| report_of(t)),
        r@.len() == trades@.len(),
        forall|j: int| 0 <= j < r@.len() ==> names_orders_of((#[trigger] r@[j])@, trades@[j]@),
{
    let mut reports: Vec<TradeReport> = Vec::new();
    let mut i: usize = 0;
    while i < trades.len()
        invariant
            0 <= i <= trades.len(),
            reports@.len() == i,
            forall|j: int| 0 <= j < i ==> (#[trigger] reports@[j])@ == report_of(trades@[j]@),
            forall|j: int| 0 <= j < i ==> names_orders_of((#[trigger] reports@[j])@, trades@[j]@),
        decreases trades.len() - i,
    {
        reports.push(encode_trade(&trades[i]));
        i = i + 1;
    }
    assert(report_views(reports@) =~= trade_views(trades@).map_values(
        |t: TradeView| report_of(t),
    ));
    reports
}

/// Why `order` cannot be submitted to the registry, if it cannot.
pub open spec fn submit_refusal(markets: RegistryView, order: OrderView) -> Option<Rejection> {
    let engine = engine_for(markets, order.market);
    if order.quantity == 0 {
        Some(Rejection::InvalidQuantity)
    } else if engine.book.contains(order.id) {
        Some(Rejection::DuplicateOrderId)
    } else if engine.sequence + engine.trades(order).len() > u64::MAX {
        Some(Rejection::SequenceExhausted)
    } else {
        None
    }
}

/// Why `order` cannot replace an order in the registry, if it cannot.
pub open spec fn replace_refusal(markets: RegistryView, order: OrderView) -> Option<Rejection> {
    if order.quantity == 0 {
        Some(Rejection::InvalidQuantity)
    } else if !markets.contains_key(order.market) {
        Some(Rejection::MarketNotFound)
    } else if markets[order.market].sequence + markets[order.market].cancel(order.id).trades(
        order,
    ).len() > u64::MAX {
        Some(Rejection::SequenceExhausted)
    } else {
        None
    }
}

/// Submits `order` if the registry can take it, and says why not otherwise.
/// A refused order leaves the registry as it was.
pub fn submit_checked(registry: &mut MarketRegistry, order: Order) -> (r: Result<
    Vec<Trade>,
    Rejection,
>)
    requires
        old(registry).wf(),
    ensures
        final(registry).wf(),
        match r {
            Ok(trades) => {
                &&& submit_refusal(old(registry)@, order@) is None
                &&& trade_views(trades@) == engine_for(old(registry)@, order.market@).trades(order@)
                &&& final(registry)@ == old(registry)@.insert(
                    order.market@,
                    engine_for(old(registry)@, order.market@).submit(order@),
                )
            },
            Err(e) => {
                &&& submit_refusal(old(registry)@, order@) == Some(e)
                &&& final(registry)@ == old(registry)@
            },
        },
{
    if order.quantity == 0 {
        return Err(Rejection::InvalidQuantity);
    }
    if !registry.admits(&order) {
        let duplicate = match registry.get_market(order.market.as_str()) {
            Some(engine) => engine.orderbook().contains(order.id),
            None => false,
        };
        return Err(
            if duplicate {
                Rejection::DuplicateOrderId
            } else {
                Rejection::SequenceExhausted
            },
        );
    }
    Ok(registry.submit(order))
}

/// Replaces an order by `order` if the registry can take it, and says why
/// not otherwise. A refused order leaves the registry as it was.
pub fn replace_checked(registry: &mut MarketRegistry, order: Order) -> (r: Result<
    Vec<Trade>,
    Rejection,
>)
    requires
        old(registry).wf(),
    ensures
        final(registry).wf(),
        match r {
            Ok(trades) => {
                &&& replace_refusal(old(registry)@, order@) is None
                &&& trade_views(trades@) == old(registry)@[order.market@].cancel(order.id.0).trades(
                    order@,
                )
                &&& final(registry)@ == old(registry)@.insert(
                    order.market@,
                    old(registry)@[order.market@].replace(order@),
                )
            },
            Err(e) => {
                &&& replace_refusal(old(registry)@, order@) == Some(e)
                &&& final(registry)@ == old(registry)@
            },
        },
{
    if order.quantity == 0 {
        return Err(Rejection::InvalidQuantity);
    }
    if !registry.admits_replacement(&order) {
        return Err(Rejection::SequenceExhausted);
    }
    match registry.replace(order) {
        Ok(trades) => Ok(trades),
        Err(_) => Err(Rejection::MarketNotFound),
    }
}

/// Cancels an order, given what its id reads as.
pub fn cancel_parsed(registry: &mut MarketRegistry, market: &str, id: Option<OrderId>) -> (r:
    Result<(), Rejection>)
    requires
        old(registry).wf(),
    ensures
        final(registry).wf(),
        r == match id {
            None => Err::<(), Rejection>(Rejection::InvalidOrderId),
            Some(i) => if !old(registry)@.contains_key(market@) {
                Err(Rejection::MarketNotFound)
            } else if !old(registry)@[market@].book.contains(i.0) {
                Err(Rejection::OrderNotFound)
            } else {
                Ok(())
            },
        },
        final(registry)@ == match id {
            Some(i) if old(registry)@.contains_key(market@) => old(registry)@.insert(
                market@,
                old(registry)@[market@].cancel(i.0),
            ),
            _ => old(registry)@,
        },
{
    let id = match id {
        Some(id) => id,
        None => {
            return Err(Rejection::InvalidOrderId);
        },
    };
    match registry.cancel(market, id) {
        Ok(_) => Ok(()),
        Err(EngineError::MarketNotFound) => Err(Rejection::MarketNotFound),
        Err(EngineError::OrderNotFound) => Err(Rejection::OrderNotFound),
    }
}

/// Carries out a request to submit an order, received at `timestamp`: the
/// order is read, checked and submitted, and its trades are reported.
pub fn submit_order(
    registry: &mut MarketRegistry,
    request: Option<OrderRequest>,
    timestamp: u64,
) -> (r: Result<Vec<TradeReport>, Rejection>)
    requires
        old(registry).wf(),
    ensures
        final(registry).wf(),
        match request {
            None => r == Err::<Vec<TradeReport>, Rejection>(Rejection::OrderRequired)
                && final(registry)@ == old(registry)@,
            Some(input) => match spec_build_order(uuid_parse(input.id@), input, timestamp) {
                Err(e) => r == Err::<Vec<TradeReport>, Rejection>(e) && final(registry)@ == old(
                    registry,
                )@,
                Ok(order) => match submit_refusal(old(registry)@, order) {
                    Some(e) => r == Err::<Vec<TradeReport>, Rejection>(e) && final(registry)@
                        == old(registry)@,
                    None => {
                        &&& r is Ok
                        &&& report_views(r->Ok_0@) == engine_for(
                            old(registry)@,
                            order.market,
                        ).trades(order).map_values(|t: TradeView| report_of(t))
                        &&& forall|i: int|
                            0 <= i < r->Ok_0@.len() ==> names_orders_of(
                                (#[trigger] r->Ok_0@[i])@,
                                engine_for(old(registry)@, order.market).trades(order)[i],
                            )
                        &&& final(registry)@ == old(registry)@.insert(
                            order.market,
                            engine_for(old(registry)@, order.market).submit(order),
                        )
                    },
                },
            },
        },
{
    let input = match request {
        Some(input) => input,
        None => {
            return Err(Rejection::OrderRequired);
        },
    };
    let order = match decode_order(input, timestamp) {
        Ok(order) => order,
        Err(e) => {
            return Err(e);
        },
    };
    match submit_checked(registry, order) {
        Ok(trades) => {
            let reports = encode_trades(&trades);
            assert forall|i: int| 0 <= i < reports@.len() implies trades@[i]@ == trade_views(
                trades@,
            )[i] by {}
            Ok(reports)
        },
        Err(e) => Err(e),
    }
}

/// Carries out a request to cancel the order whose id is written `order_id`.
pub fn cancel_order(registry: &mut MarketRegistry, market: &str, order_id: &str) -> (r: Result<
    (),
    Rejection,
>)
    requires
        old(registry).wf(),
    ensures
        final(registry).wf(),
        r == match uuid_parse(order_id@) {
            None => Err::<(), Rejection>(Rejection::InvalidOrderId),
            Some(i) => if !old(registry)@.contains_key(market@) {
                Err(Rejection::MarketNotFound)
            } else if !old(registry)@[market@].book.contains(i) {
                Err(Rejection::OrderNotFound)
            } else {
                Ok(())
            },
        },
        final(registry)@ == match uuid_parse(order_id@) {
            Some(i) if old(registry)@.contains_key(market@) => old(registry)@.insert(
                market@,
                old(registry)@[market@].cancel(i),
            ),
            _ => old(registry)@,
        },
{
    let id = parse_order_id(order_id);
    cancel_parsed(registry, market, id)
}

/// Carries out a request to replace an order, received at `timestamp`: the
/// order is read, checked and put in the place of the resting order with its
/// id, and its trades are reported.
pub fn replace_order(
    registry: &mut MarketRegistry,
    request: Option<OrderRequest>,
    timestamp: u64,
) -> (r: Result<Vec<TradeReport>, Rejection>)
    requires
        old(registry).wf(),
    ensures
        final(registry).wf(),
        match request {
            None => r == Err::<Vec<TradeReport>, Rejection>(Rejection::OrderRequired)
                && final(registry)@ == old(registry)@,
            Some(input) => match spec_build_order(uuid_parse(input.id@), input, timestamp) {
                Err(e) => r == Err::<Vec<TradeReport>, Rejection>(e) && final(registry)@ == old(
                    registry,
                )@,
                Ok(order) => match replace_refusal(old(registry)@, order) {
                    Some(e) => r == Err::<Vec<TradeReport>, Rejection>(e) && final(registry)@
                        == old(registry)@,
                    None => {
                        &&& r is Ok
                        &&& report_views(r->Ok_0@) == old(registry)@[order.market].cancel(
                            order.id,
                        ).trades(order).map_values(|t: TradeView| report_of(t))
                        &&& forall|i: int|
                            0 <= i < r->Ok_0@.len() ==> names_orders_of(
                                (#[trigger] r->Ok_0@[i])@,
                                old(registry)@[order.market].cancel(order.id).trades(order)[i],
                            )
                        &&& final(registry)@ == old(registry)@.insert(
                            order.market,
                            old(registry)@[order.market].replace(order),
                        )
                    },
                },
            },
        },
{
    let input = match request {
        Some(input) => input,
        None => {
            return Err(Rejection::OrderRequired);
        },
    };
    let order = match decode_order(input, timestamp) {
        Ok(order) => order,
        Err(e) => {
            return Err(e);
        },
    };
    match replace_checked(registry, order) {
        Ok(trades) => {
            let reports = encode_trades(&trades);
            assert forall|i: int| 0 <= i < reports@.len() implies trades@[i]@ == trade_views(
                trades@,
            )[i] by {}
            Ok(reports)
        },
        Err(e) => Err(e),
    }
}

} // verus!
