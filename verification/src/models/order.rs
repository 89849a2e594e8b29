use vstd::prelude::*;
use super::price::Price;
use super::side::Side;

verus! {

/// A caller-assigned order identifier: the 128 bits of a UUID.
#[derive(Clone, Copy, Debug, PartialEq, Eq, Structural, Hash)]
pub struct OrderId(pub u128);

/// A limit order. Once the order rests in a book, `quantity` is its residual
/// (unfilled) quantity.
#[derive(Clone, Debug)]
pub struct Order {
    pub id: OrderId,
    pub market: String,
    pub wallet: String,
    pub side: Side,
    pub price: Price,
    pub quantity: u64,
    pub timestamp: u64,
}

/// The mathematical value of an [`Order`].
pub struct OrderView {
    pub id: u128,
    pub market: Seq<char>,
    pub wallet: Seq<char>,
    pub side: Side,
    pub price: u64,
    pub quantity: u64,
    pub timestamp: u64,
}

impl OrderView {
    /// This order with its residual quantity set to `quantity`.
    pub open spec fn with_quantity(self, quantity: u64) -> OrderView {
        OrderView { quantity, ..self }
    }
}

impl View for Order {
    type V = OrderView;

    open spec fn view(&self) -> OrderView {
        OrderView {
            id: self.id.0,
            market: self.market@,
            wallet: self.wallet@,
            side: self.side,
            price: self.price.0,
            quantity: self.quantity,
            timestamp: self.timestamp,
        }
    }
}

/// The values of a list of orders, in order.
pub open spec fn order_views(orders: Seq<Order>) -> Seq<OrderView> {
    orders.map_values(|o: Order| o@)
}

impl Order {
    /// An independent copy of this order.
    pub fn duplicate(&self) -> (r: Order)
        ensures
            r == *self,
    {
        Order {
            id: self.id,
            market: self.market.clone(),
            wallet: self.wallet.clone(),
            side: self.side,
            price: self.price,
            quantity: self.quantity,
            timestamp: self.timestamp,
        }
    }
}

} // verus!
