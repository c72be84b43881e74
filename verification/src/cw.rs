//! Calls into `cosmwasm_std` and `cw_utils` that the contracts' logic makes,
//! each behind a contract that states what the called function does.

use vstd::prelude::*;
use crate::common::Coin;

verus! {

/// The fixed point of `cosmwasm_std::Decimal`: 10^18 atomics make 1.
pub const DECIMAL_FRACTIONAL: u128 = 1_000_000_000_000_000_000;

/// Failures of a payment check, as `cw_utils::PaymentError` has them.
#[derive(Clone, Debug, PartialEq, Eq)]
pub enum PaymentError {
    MissingDenom(String),
    ExtraDenom(String),
    MultipleDenoms,
    NoFunds,
    NonPayable,
}

/// `cw_utils::must_pay` on a message whose funds are `funds`: exactly one coin
/// must come, not zero, and of `denom`; its amount is returned. No coin or a zero
/// coin gives `NoFunds`, two or more `MultipleDenoms`, another denom
/// `MissingDenom(denom)`.
#[verifier::external_body]
pub(crate) fn must_pay(funds: &Vec<Coin>, denom: &String) -> (r: Result<u128, PaymentError>)
    ensures
        match r {
            Ok(a) => funds.len() == 1 && funds@[0].amount != 0 && funds@[0].denom@ == denom@ && a
                == funds@[0].amount,
            Err(PaymentError::NoFunds) => funds.len() == 0 || (funds.len() == 1 && funds@[0].amount
                == 0),
            Err(PaymentError::MultipleDenoms) => funds.len() >= 2,
            Err(PaymentError::MissingDenom(d)) => funds.len() == 1 && funds@[0].amount != 0
                && funds@[0].denom@ != denom@ && d@ == denom@,
            Err(_) => false,
        },
{
    let info = cosmwasm_std::MessageInfo {
        sender: cosmwasm_std::Addr::unchecked(""),
        funds: funds.iter().map(|c| cosmwasm_std::Coin::new(c.amount, c.denom.clone())).collect(),
    };
    match cw_utils::must_pay(&info, denom) {
        Ok(amount) => Ok(amount.u128()),
        Err(cw_utils::PaymentError::MissingDenom(d)) => Err(PaymentError::MissingDenom(d)),
        Err(cw_utils::PaymentError::ExtraDenom(d)) => Err(PaymentError::ExtraDenom(d)),
        Err(cw_utils::PaymentError::MultipleDenoms {}) => Err(PaymentError::MultipleDenoms),
        Err(cw_utils::PaymentError::NoFunds {}) => Err(PaymentError::NoFunds),
        Err(cw_utils::PaymentError::NonPayable {}) => Err(PaymentError::NonPayable),
    }
}

/// `cosmwasm_std::Decimal * Uint128` with the decimal of `atomics`: the amount
/// times the decimal, rounded down (`Uint128::multiply_ratio` by the atomics over
/// 10^18). It panics where the result does not fit `u128`, which `requires` leaves out.
#[verifier::external_body]
pub(crate) fn decimal_mul_floor(atomics: u128, amount: u128) -> (r: u128)
    requires
        amount * atomics / (DECIMAL_FRACTIONAL as int) <= u128::MAX,
    ensures
        r == amount * atomics / (DECIMAL_FRACTIONAL as int),
{
    (cosmwasm_std::Decimal::raw(atomics) * cosmwasm_std::Uint128::new(amount)).u128()
}

/// What `cw_utils::parse_instantiate_response_data` makes of the bytes of an
/// instantiation reply: the new contract's address and its optional data, or the
/// text of the parse error.
pub uninterp spec fn instantiate_response_of(data: Seq<u8>) -> Result<
    (Seq<char>, Option<Seq<u8>>),
    Seq<char>,
>;

/// Optional bytes by value.
pub open spec fn opt_bytes(b: Option<Vec<u8>>) -> Option<Seq<u8>> {
    match b {
        Some(v) => Some(v@),
        None => None,
    }
}

/// `cw_utils::parse_instantiate_response_data`: decodes the protobuf of an
/// instantiation reply. The result is the one that the name above gives for
/// these bytes; an error comes back as its text.
#[verifier::external_body]
pub(crate) fn parse_instantiate_response(data: &Vec<u8>) -> (r: Result<(String, Option<Vec<u8>>), String>)
    ensures
        match r {
            Ok((addr, d)) => instantiate_response_of(data@) == Ok::<(Seq<char>, Option<Seq<u8>>), Seq<char>>((addr@, opt_bytes(d))),
            Err(e) => instantiate_response_of(data@) == Err::<(Seq<char>, Option<Seq<u8>>), Seq<char>>(e@),
        },
{
    match cw_utils::parse_instantiate_response_data(data) {
        Ok(resp) => Ok((resp.contract_address, resp.data.map(|b| b.0))),
        Err(e) => Err(e.to_string()),
    }
}

/// What `cw_utils::parse_execute_response_data` makes of the bytes of an
/// execution reply: the executed contract's optional data, or the text of the
/// parse error.
pub uninterp spec fn execute_response_of(data: Seq<u8>) -> Result<Option<Seq<u8>>, Seq<char>>;

/// `cw_utils::parse_execute_response_data`: decodes the protobuf of an execution
/// reply. The result is the one that the name above gives for these bytes; an
/// error comes back as its text.
#[verifier::external_body]
pub(crate) fn parse_execute_response(data: &Vec<u8>) -> (r: Result<Option<Vec<u8>>, String>)
    ensures
        match r {
            Ok(d) => execute_response_of(data@) == Ok::<Option<Seq<u8>>, Seq<char>>(opt_bytes(d)),
            Err(e) => execute_response_of(data@) == Err::<Option<Seq<u8>>, Seq<char>>(e@),
        },
{
    match cw_utils::parse_execute_response_data(data) {
        Ok(resp) => Ok(resp.data.map(|b| b.0)),
        Err(e) => Err(e.to_string()),
    }
}


/// The text of each string.
pub open spec fn string_views(items: Seq<String>) -> Seq<Seq<char>> {
    items.map_values(|s: String| s@)
}

/// What `cosmwasm_std::to_json_vec` makes of a list of strings: its JSON bytes,
/// or the text of the serialization error.
pub uninterp spec fn strings_json(items: Seq<Seq<char>>) -> Result<Seq<u8>, Seq<char>>;

/// `cosmwasm_std::to_json_vec` on a list of strings (`to_binary` without the
/// wrapper type). The result is the one that the name above gives for these
/// strings; an error comes back as its text.
#[verifier::external_body]
pub(crate) fn encode_strings(items: &Vec<String>) -> (r: Result<Vec<u8>, String>)
    ensures
        match r {
            Ok(b) => strings_json(string_views(items@)) == Ok::<Seq<u8>, Seq<char>>(b@),
            Err(e) => strings_json(string_views(items@)) == Err::<Seq<u8>, Seq<char>>(e@),
        },
{
    match cosmwasm_std::to_json_vec(items) {
        Ok(b) => Ok(b),
        Err(e) => Err(e.to_string()),
    }
}

/// What `cosmwasm_std::from_json::<Vec<String>>` makes of some bytes: the list of
/// strings they hold as JSON, or the text of the parse error.
pub uninterp spec fn strings_from_json(data: Seq<u8>) -> Result<Seq<Seq<char>>, Seq<char>>;

/// `cosmwasm_std::from_json::<Vec<String>>` (`from_binary` without the wrapper
/// type). The result is the one that the name above gives for these bytes; an
/// error comes back as its text.
#[verifier::external_body]
pub(crate) fn decode_strings(data: &Vec<u8>) -> (r: Result<Vec<String>, String>)
    ensures
        match r {
            Ok(v) => strings_from_json(data@) == Ok::<Seq<Seq<char>>, Seq<char>>(string_views(v@)),
            Err(e) => strings_from_json(data@) == Err::<Seq<Seq<char>>, Seq<char>>(e@),
        },
{
    match cosmwasm_std::from_json::<Vec<String>>(data) {
        Ok(v) => Ok(v),
        Err(e) => Err(e.to_string()),
    }
}

} // verus!
