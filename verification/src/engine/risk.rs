//! Checks on an order before it reaches an engine.

use vstd::prelude::*;
use crate::models::order::Order;

verus! {

/// Accepts an order that has a quantity.
pub fn validate(order: &Order) -> (r: Result<(), &'static str>)
    ensures
        r is Ok <==> order.quantity >= 1,
        r is Err ==> r->Err_0@ == "Invalid quantity"@,
{
    if order.quantity == 0 {
        return Err("Invalid quantity");
    }
    Ok(())
}

} // verus!
