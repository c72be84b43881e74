//! Messages of the membership contract that the proxies use too.

use vstd::prelude::*;

verus! {

/// Executions of the membership contract.
#[derive(Clone, Debug, PartialEq, Eq)]
pub enum ExecMsg {
    ProposeMember { addr: String },
}

/// Queries of the membership contract.
#[derive(Clone, Debug, PartialEq, Eq)]
pub enum QueryMsg {
    IsMember { addr: String },
}

/// Answer to `QueryMsg::IsMember`.
#[derive(Clone, Debug, PartialEq, Eq)]
pub struct IsMemberResp {
    pub is_member: bool,
}

} // verus!
