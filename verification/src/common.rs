//! Messages and values shared by the three contracts.

pub mod membership;

use vstd::prelude::*;
use crate::cw::DECIMAL_FRACTIONAL;

verus! {

/// An amount of one denom.
#[derive(Clone, Debug, PartialEq, Eq)]
pub struct Coin {
    pub denom: String,
    pub amount: u128,
}

impl View for Coin {
    type V = (Seq<char>, u128);

    open spec fn view(&self) -> (Seq<char>, u128) {
        (self.denom@, self.amount)
    }
}

/// The denoms of a list of coins.
pub open spec fn denoms_of(coins: Seq<Coin>) -> Seq<Seq<char>> {
    coins.map_values(|c: Coin| c.denom@)
}

/// A list of coins by value.
pub open spec fn coins_view(coins: Seq<Coin>) -> Seq<(Seq<char>, u128)> {
    coins.map_values(|c: Coin| c@)
}

/// A fixed-point fraction: `atomics` over 10^18.
#[derive(Clone, Copy, Debug, PartialEq, Eq)]
pub struct Decimal {
    pub atomics: u128,
}

impl Decimal {
    /// `x` percent.
    pub fn percent(x: u64) -> (r: Decimal)
        ensures
            r.atomics == x * 10_000_000_000_000_000,
    {
        Decimal { atomics: (x as u128) * 10_000_000_000_000_000 }
    }

    /// The fraction 1.
    pub fn one() -> (r: Decimal)
        ensures
            r.atomics == DECIMAL_FRACTIONAL,
    {
        Decimal { atomics: DECIMAL_FRACTIONAL }
    }
}

/// Failures of the chain environment: a value missing from storage, or a
/// generic failure with its message.
#[derive(Clone, Debug, PartialEq, Eq)]
pub enum StdError {
    NotFound { kind: String },
    GenericErr { msg: String },
}

impl StdError {
    /// A copy of the error.
    pub fn duplicate(&self) -> (r: StdError)
        ensures
            r == *self,
    {
        match self {
            StdError::NotFound { kind } => StdError::NotFound { kind: kind.clone() },
            StdError::GenericErr { msg } => StdError::GenericErr { msg: msg.clone() },
        }
    }
}

/// A member that has joined the group: the owner and its proxy contract.
#[derive(Clone, Debug, PartialEq, Eq)]
pub struct ProposeMemberData {
    pub owner_addr: String,
    pub proxy_addr: String,
}

/// Funds that a proxy may withdraw.
#[derive(Clone, Debug, PartialEq, Eq)]
pub struct WithdrawableResp {
    pub funds: Vec<Coin>,
}

} // verus!
