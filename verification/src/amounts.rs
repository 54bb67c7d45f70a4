//! Amounts of money as text.
use vstd::prelude::*;

use crate::text::{decimal, padded_start};
use crate::types::U256;

verus! {

/// How many wei an ether has.
pub open spec fn wei_per_ether() -> nat {
    1_000_000_000_000_000_000
}

/// An amount of wei in ether: with eighteen decimal places.
pub open spec fn ether_text(wei: nat) -> Seq<char> {
    decimal(wei / wei_per_ether()) + "."@ + padded_start(decimal(wei % wei_per_ether()), 18, '0')
}

/// `format_ether` of `alloy_primitives`: the amount in ether, with eighteen decimal places.
#[verifier::external_body]
pub(crate) fn format_ether(amount: U256) -> (r: String)
    ensures
        r@ == ether_text(amount.value()),
{
    alloy_primitives::utils::format_ether(
        alloy_primitives::U256::from_limbs(
            [
                amount.low as u64,
                (amount.low >> 64) as u64,
                amount.high as u64,
                (amount.high >> 64) as u64,
            ],
        ),
    )
}

/// `U256::to_string` of `alloy_primitives`: the amount in decimal.
#[verifier::external_body]
pub(crate) fn format_amount(amount: U256) -> (r: String)
    ensures
        r@ == decimal(amount.value()),
{
    alloy_primitives::U256::from_limbs(
        [
            amount.low as u64,
            (amount.low >> 64) as u64,
            amount.high as u64,
            (amount.high >> 64) as u64,
        ],
    ).to_string()
}

} // verus!
