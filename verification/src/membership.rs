//! The membership contract: the group of creator proxies. It instantiates the
//! distribution pool and a proxy per initial member, and admits a candidate once
//! enough members have accepted it.

use vstd::prelude::*;
use crate::common::{Decimal, ProposeMemberData, StdError};
use crate::cw::{
    instantiate_response_of, opt_bytes, parse_instantiate_response, string_views, strings_json,
    strings_from_json, encode_strings, decode_strings,
};
use crate::proxy::InstantiateMsg as ProxyInstantiateMsg;
use crate::table::{Table, bytes_lt, keys_ascending};
use vstd::utf8::encode_utf8;

pub use crate::common::membership::{ExecMsg, IsMemberResp, QueryMsg};

verus! {

/// Reply to the instantiation of an initial member's proxy.
pub const INITIAL_PROXY_INSTANTIATION_REPLY_ID: u64 = 1;

/// Reply to the instantiation of an admitted candidate's proxy.
pub const PROXY_INSTANTIATION_REPLY_ID: u64 = 2;

/// Reply to the instantiation of the distribution pool.
pub const DISTRIBUTION_INSTANTIATION_REPLY_ID: u64 = 3;

/// Instantiation of the group: the settings of every proxy, how many acceptances
/// admit a candidate, the code of the proxy and of the pool, and the initial members.
#[derive(Clone, Debug, PartialEq, Eq)]
pub struct InstantiateMsg {
    pub starting_weight: u64,
    pub denom: String,
    pub direct_part: Decimal,
    pub halftime: u64,
    pub minimal_acceptances: u64,
    pub proxy_code_id: u64,
    pub distribution_code_id: u64,
    pub initial_members: Vec<String>,
}

/// Data of the instantiation: every initial member with its proxy.
#[derive(Clone, Debug, PartialEq, Eq)]
pub struct InstantationData {
    pub members: Vec<ProposeMemberData>,
}

/// The stored code of the membership contract.
#[derive(Clone, Copy, Debug, PartialEq, Eq)]
pub struct CodeId(pub u64);

/// Failures of the membership contract. `Aborted` stands where the contract's
/// arithmetic overflows, which aborts the whole call.
#[derive(Clone, Debug, PartialEq, Eq)]
pub enum ContractError {
    Std(StdError),
    NotEnoughInitialMembers,
    NotEnoughRequiredAcceptances,
    Unauthorised,
    AlreadyAMember,
    AlreadyVoted,
    DataMissing,
    UnrecognizedReplyId(u64),
    ParseReply(String),
    Aborted,
}

/// Settings of the group.
#[derive(Clone, Debug, PartialEq, Eq)]
pub struct Config {
    pub starting_weight: u64,
    pub denom: String,
    pub direct_part: Decimal,
    pub halftime: u64,
    pub proxy_code_id: u64,
    pub distribution_contract: String,
    pub minimal_acceptances: u64,
}

/// What the group keeps: its settings, its members (the proxies), the votes cast
/// (member, candidate), and the acceptances per candidate. How many initial proxies
/// are yet to answer is kept apart: it is read only in their replies.
pub struct MembershipState {
    pub config: Config,
    pub members: Table<String, ()>,
    pub votes: Table<(String, String), ()>,
    pub proposals: Table<String, u64>,
}

/// A proxy to instantiate, with the group as admin, and the reply it asks for.
#[derive(Clone, Debug, PartialEq, Eq)]
pub struct ProxyInstantiation {
    pub code_id: u64,
    pub msg: ProxyInstantiateMsg,
    pub admin: String,
    pub label: String,
    pub reply_id: u64,
}

/// The pool to instantiate, with the group as admin: its total weight and the
/// initial members as JSON, which it hands back as data.
#[derive(Clone, Debug, PartialEq, Eq)]
pub struct DistributionInstantiation {
    pub code_id: u64,
    pub total_weigth: u128,
    pub data: Vec<u8>,
    pub admin: String,
    pub label: String,
    pub reply_id: u64,
}

/// Outcome of a proposal.
#[derive(Clone, Debug, PartialEq, Eq)]
pub enum ProposeOutcome {
    /// Someone who is not a member asked for the candidate to join: the request
    /// stands, and counts no acceptance.
    Requested,
    /// The candidate has `acceptances` so far, not enough yet.
    Pending { acceptances: u64 },
    /// The candidate is admitted: its proxy is instantiated.
    Admitted(ProxyInstantiation),
}

/// Outcome of the reply of an initial member's proxy.
#[derive(Clone, Debug, PartialEq, Eq)]
pub enum InitialProxyStep {
    /// `left` initial proxies are yet to answer.
    Awaiting { proxy_addr: String, left: u64 },
    /// This was the last one; the instantiation data is due.
    Complete { proxy_addr: String },
}

/// The group and the pool's instantiation that a successful instantiation from
/// `msg` gives: the settings of `msg`, no member, vote or proposal yet, no pool
/// yet, and the pool to instantiate with the starting weight of every initial
/// member and the initial members, as JSON, as its data.
pub open spec fn group_instantiated(
    msg: InstantiateMsg,
    own_addr: Seq<char>,
    s: MembershipState,
    d: DistributionInstantiation,
) -> bool {
    &&& 2 <= msg.minimal_acceptances <= msg.initial_members.len()
    &&& s.wf()
    &&& s.config.starting_weight == msg.starting_weight
    &&& s.config.denom@ == msg.denom@
    &&& s.config.direct_part == msg.direct_part
    &&& s.config.halftime == msg.halftime
    &&& s.config.proxy_code_id == msg.proxy_code_id
    &&& s.config.distribution_contract@ == Seq::<char>::empty()
    &&& s.config.minimal_acceptances == msg.minimal_acceptances
    &&& s.members@ == Map::<Seq<char>, ()>::empty()
    &&& s.votes@ == Map::<(Seq<char>, Seq<char>), ()>::empty()
    &&& s.proposals@ == Map::<Seq<char>, u64>::empty()
    &&& d.code_id == msg.distribution_code_id
    &&& d.total_weigth == msg.starting_weight * msg.initial_members.len()
    &&& strings_json(string_views(msg.initial_members@)) == Ok::<Seq<u8>, Seq<char>>(d.data@)
    &&& d.admin@ == own_addr
    &&& d.label@ == "Distribution"@
    &&& d.reply_id == DISTRIBUTION_INSTANTIATION_REPLY_ID
}

/// Once the pool answered from `distribution_addr`, the group records it and
/// requests one proxy per initial member, in their order, and awaits as many answers.
pub open spec fn initial_proxies_requested(
    before: Config,
    after: Config,
    distribution_addr: String,
    members: Seq<Result<String, StdError>>,
    own_addr: Seq<char>,
    msgs: Seq<ProxyInstantiation>,
    awaiting: u64,
) -> bool {
    &&& after == (Config { distribution_contract: distribution_addr, ..before })
    &&& awaiting == members.len()
    &&& msgs.len() == members.len()
    &&& forall|i: int|
        0 <= i < members.len() ==> (members[i] matches Ok(a) && proxy_for(
            after,
            a@,
            own_addr,
            #[trigger] msgs[i],
            INITIAL_PROXY_INSTANTIATION_REPLY_ID,
        ))
}

/// Which reply is which.
#[derive(Clone, Copy, Debug, PartialEq, Eq)]
pub enum ReplyKind {
    InitialProxy,
    Proxy,
    Distribution,
}

/// Acceptances a candidate has so far.
pub open spec fn tally(proposals: Map<Seq<char>, u64>, candidate: Seq<char>) -> int {
    if proposals.contains_key(candidate) {
        proposals[candidate] as int
    } else {
        0
    }
}

/// The proposals after one more acceptance of `candidate`, with `Some(count)`
/// where the candidate still lacks acceptances and `None` where it is admitted
/// (and its entry goes).
pub open spec fn accepted_once(proposals: Map<Seq<char>, u64>, candidate: Seq<char>, minimal: u64) -> (
    Map<Seq<char>, u64>,
    Option<u64>,
) {
    let cnt = tally(proposals, candidate) + 1;
    if cnt < minimal {
        (proposals.insert(candidate, cnt as u64), Some(cnt as u64))
    } else {
        (proposals.remove(candidate), None)
    }
}

/// The owners up to `n` were all read and none is `candidate`.
pub open spec fn owners_clear(owners: Seq<Result<String, StdError>>, candidate: Seq<char>, n: int) -> bool {
    forall|j: int| 0 <= j < n ==> (#[trigger] owners[j] matches Ok(o) && o@ != candidate)
}

/// The proxy of a new member: weight, denom, direct part and halftime from the
/// group's settings, the pool of the group, and the group itself.
pub open spec fn proxy_for(config: Config, owner: Seq<char>, group: Seq<char>, p: ProxyInstantiation, reply_id: u64) -> bool {
    &&& p.code_id == config.proxy_code_id
    &&& p.msg.owner@ == owner
    &&& p.msg.weight == config.starting_weight
    &&& p.msg.denom@ == config.denom@
    &&& p.msg.direct_part == config.direct_part
    &&& p.msg.distribution_contract@ == config.distribution_contract@
    &&& p.msg.membership_contract@ == group
    &&& p.msg.halftime == config.halftime
    &&& p.admin@ == group
    &&& p.label@ == owner + " Proxy"@
    &&& p.reply_id == reply_id
}

/// Which reply an id names.
pub fn reply_kind(id: u64) -> (r: Result<ReplyKind, ContractError>)
    ensures
        match r {
            Ok(ReplyKind::InitialProxy) => id == INITIAL_PROXY_INSTANTIATION_REPLY_ID,
            Ok(ReplyKind::Proxy) => id == PROXY_INSTANTIATION_REPLY_ID,
            Ok(ReplyKind::Distribution) => id == DISTRIBUTION_INSTANTIATION_REPLY_ID,
            Err(e) => e == ContractError::UnrecognizedReplyId(id) && id != INITIAL_PROXY_INSTANTIATION_REPLY_ID
                && id != PROXY_INSTANTIATION_REPLY_ID && id != DISTRIBUTION_INSTANTIATION_REPLY_ID,
        },
{
    if id == INITIAL_PROXY_INSTANTIATION_REPLY_ID {
        Ok(ReplyKind::InitialProxy)
    } else if id == PROXY_INSTANTIATION_REPLY_ID {
        Ok(ReplyKind::Proxy)
    } else if id == DISTRIBUTION_INSTANTIATION_REPLY_ID {
        Ok(ReplyKind::Distribution)
    } else {
        Err(ContractError::UnrecognizedReplyId(id))
    }
}

/// The contract that a successful instantiation reply names, and its data. A
/// failed sub-message (`Err(msg)`) gives a generic error with its message, a reply
/// without data `DataMissing`, undecodable data the parse error.
pub fn instantiated_contract(reply: Result<Option<Vec<u8>>, String>) -> (r: Result<
    (String, Option<Vec<u8>>),
    ContractError,
>)
    ensures
        match reply {
            Err(msg) => r == Err::<(String, Option<Vec<u8>>), ContractError>(
                ContractError::Std(StdError::GenericErr { msg }),
            ),
            Ok(None) => r == Err::<(String, Option<Vec<u8>>), ContractError>(ContractError::DataMissing),
            Ok(Some(data)) => match instantiate_response_of(data@) {
                Err(text) => r matches Err(ContractError::ParseReply(t)) && t@ == text,
                Ok((addr, d)) => r matches Ok((a, d2)) && a@ == addr && opt_bytes(d2) == d,
            },
        },
{
    let data = match reply {
        Err(msg) => return Err(ContractError::Std(StdError::GenericErr { msg })),
        Ok(None) => return Err(ContractError::DataMissing),
        Ok(Some(data)) => data,
    };
    match parse_instantiate_response(&data) {
        Ok(parsed) => Ok(parsed),
        Err(text) => Err(ContractError::ParseReply(text)),
    }
}

/// The pool's address and the initial members from the reply to its
/// instantiation: its data, which must be there, holds them as JSON. Data that is
/// no list of strings gives a generic error with the parse error's text.
pub fn distribution_reply(reply: Result<Option<Vec<u8>>, String>) -> (r: Result<
    (String, Vec<String>),
    ContractError,
>)
    ensures
        match reply {
            Err(msg) => r == Err::<(String, Vec<String>), ContractError>(
                ContractError::Std(StdError::GenericErr { msg }),
            ),
            Ok(None) => r == Err::<(String, Vec<String>), ContractError>(ContractError::DataMissing),
            Ok(Some(data)) => match instantiate_response_of(data@) {
                Err(text) => r matches Err(ContractError::ParseReply(t)) && t@ == text,
                Ok((_, None)) => r == Err::<(String, Vec<String>), ContractError>(ContractError::DataMissing),
                Ok((addr, Some(d))) => match strings_from_json(d) {
                    Err(text) => r matches Err(ContractError::Std(StdError::GenericErr { msg })) && msg@
                        == text,
                    Ok(members) => r matches Ok((a, v)) && a@ == addr && string_views(v@) == members,
                },
            },
        },
{
    match instantiated_contract(reply) {
        Err(e) => Err(e),
        Ok((_, None)) => Err(ContractError::DataMissing),
        Ok((addr, Some(d))) => match decode_strings(&d) {
            Ok(members) => Ok((addr, members)),
            Err(text) => Err(ContractError::Std(StdError::GenericErr { msg: text })),
        },
    }
}

impl MembershipState {
    /// Each table keeps each key once, and the members rise by address, in the
    /// byte order in which storage lists them.
    pub open spec fn wf(&self) -> bool {
        &&& self.members.wf()
        &&& keys_ascending(self.members.entries@)
        &&& self.votes.wf()
        &&& self.proposals.wf()
    }

    /// A new group: at least two acceptances must admit a candidate, and there must
    /// be at least as many initial members. The pool is instantiated next with the
    /// starting weight of every initial member and the members as its data; its
    /// address is set once it answers.
    pub fn instantiate(msg: InstantiateMsg, own_addr: String) -> (r: Result<
        (MembershipState, DistributionInstantiation),
        ContractError,
    >)
        ensures
            match r {
                Err(ContractError::NotEnoughRequiredAcceptances) => msg.minimal_acceptances < 2,
                Err(ContractError::NotEnoughInitialMembers) => 2 <= msg.minimal_acceptances
                    && msg.minimal_acceptances > msg.initial_members.len(),
                Err(ContractError::Aborted) => 2 <= msg.minimal_acceptances <= msg.initial_members.len()
                    && msg.starting_weight * msg.initial_members.len() > u64::MAX,
                Err(ContractError::Std(e)) => {
                    &&& 2 <= msg.minimal_acceptances <= msg.initial_members.len()
                    &&& msg.starting_weight * msg.initial_members.len() <= u64::MAX
                    &&& e matches StdError::GenericErr { msg: text }
                    &&& strings_json(string_views(msg.initial_members@)) == Err::<Seq<u8>, Seq<char>>(
                        text@,
                    )
                },
                Err(_) => false,
                Ok((s, d)) => group_instantiated(msg, own_addr@, s, d),
            },
    {
        if msg.minimal_acceptances < 2 {
            return Err(ContractError::NotEnoughRequiredAcceptances);
        }
        if msg.minimal_acceptances > msg.initial_members.len() as u64 {
            return Err(ContractError::NotEnoughInitialMembers);
        }
        let total = match msg.starting_weight.checked_mul(msg.initial_members.len() as u64) {
            Some(t) => t,
            None => return Err(ContractError::Aborted),
        };
        let data = match encode_strings(&msg.initial_members) {
            Ok(b) => b,
            Err(text) => return Err(ContractError::Std(StdError::GenericErr { msg: text })),
        };
        let state = MembershipState {
            config: Config {
                starting_weight: msg.starting_weight,
                denom: msg.denom,
                direct_part: msg.direct_part,
                halftime: msg.halftime,
                proxy_code_id: msg.proxy_code_id,
                distribution_contract: String::new(),
                minimal_acceptances: msg.minimal_acceptances,
            },
            members: Table::new(),
            votes: Table::new(),
            proposals: Table::new(),
        };
        let instantiation = DistributionInstantiation {
            code_id: msg.distribution_code_id,
            total_weigth: total as u128,
            data,
            admin: own_addr,
            label: "Distribution".to_owned(),
            reply_id: DISTRIBUTION_INSTANTIATION_REPLY_ID,
        };
        Ok((state, instantiation))
    }

    /// Whether `addr` is a member (a proxy of the group).
    pub fn is_member(&self, addr: &String) -> (r: IsMemberResp)
        requires
            self.wf(),
        ensures
            r.is_member == self.members@.contains_key(addr@),
    {
        IsMemberResp { is_member: self.members.contains_key(addr) }
    }

    /// `sender` asks for the candidate `addr` (as the app's address check left it)
    /// to join. `owners[i]` is the owner of the i-th member, as queried; no member
    /// may already be owned by the candidate. Anyone may ask; a member's request is
    /// its acceptance, and no member may accept the same candidate twice. With
    /// enough acceptances the candidate is admitted: its proxy is instantiated, on
    /// behalf of the group at `own_addr`.
    pub fn propose_member(
        &mut self,
        sender: &String,
        addr: Result<String, StdError>,
        owners: &Vec<Result<String, StdError>>,
        own_addr: String,
    ) -> (r: Result<ProposeOutcome, ContractError>)
        requires
            old(self).wf(),
            owners.len() == old(self).members.entries.len(),
        ensures
            final(self).wf(),
            final(self).config == old(self).config,
            final(self).members == old(self).members,
            r is Err ==> *final(self) == *old(self),
            match r {
                Err(ContractError::Std(e)) => addr == Err::<String, StdError>(e) || (addr matches Ok(
                    a,
                ) && exists|i: int|
                    0 <= i < owners.len() && owners_clear(owners@, a@, i) && owners@[i] == Err::<
                        String,
                        StdError,
                    >(e)),
                Err(ContractError::AlreadyAMember) => {
                    &&& addr matches Ok(a)
                    &&& exists|i: int|
                        0 <= i < owners.len() && owners_clear(owners@, a@, i) && (owners@[i] matches Ok(
                            o,
                        ) && o@ == a@)
                },
                Err(ContractError::AlreadyVoted) => {
                    &&& old(self).members@.contains_key(sender@)
                    &&& addr matches Ok(a)
                    &&& owners_clear(owners@, a@, owners.len() as int)
                    &&& old(self).votes@.contains_key((sender@, a@))
                },
                Err(ContractError::Aborted) => {
                    &&& old(self).members@.contains_key(sender@)
                    &&& addr matches Ok(a)
                    &&& owners_clear(owners@, a@, owners.len() as int)
                    &&& !old(self).votes@.contains_key((sender@, a@))
                    &&& tally(old(self).proposals@, a@) == u64::MAX
                },
                Err(_) => false,
                Ok(ProposeOutcome::Requested) => {
                    &&& !old(self).members@.contains_key(sender@)
                    &&& addr matches Ok(a)
                    &&& owners_clear(owners@, a@, owners.len() as int)
                    &&& *final(self) == *old(self)
                },
                Ok(outcome) => {
                    &&& old(self).members@.contains_key(sender@)
                    &&& addr matches Ok(a)
                    &&& owners_clear(owners@, a@, owners.len() as int)
                    &&& !old(self).votes@.contains_key((sender@, a@))
                    &&& tally(old(self).proposals@, a@) < u64::MAX
                    &&& final(self).votes@ == old(self).votes@.insert((sender@, a@), ())
                    &&& final(self).votes.entries@.len() == old(self).votes.entries@.len() + 1
                    &&& final(self).votes.entries@.drop_last() == old(self).votes.entries@
                    &&& final(self).votes.entries@.last().0.0@ == sender@
                    &&& final(self).votes.entries@.last().0.1@ == a@
                    &&& {
                        let (proposals, pending) = accepted_once(
                            old(self).proposals@,
                            a@,
                            old(self).config.minimal_acceptances,
                        );
                        &&& final(self).proposals@ == proposals
                        &&& match outcome {
                            ProposeOutcome::Pending { acceptances } => pending == Some(acceptances),
                            ProposeOutcome::Admitted(p) => pending is None && proxy_for(
                                old(self).config,
                                a@,
                                own_addr@,
                                p,
                                PROXY_INSTANTIATION_REPLY_ID,
                            ),
                            ProposeOutcome::Requested => false,
                        }
                    }
                },
            },
    {
        let is_member = self.members.contains_key(sender);
        let candidate = match &addr {
            Ok(a) => a.clone(),
            Err(e) => return Err(ContractError::Std(e.duplicate())),
        };
        let mut i: usize = 0;
        while i < owners.len()
            invariant
                i <= owners.len(),
                self.wf(),
                *self == *old(self),
                is_member == old(self).members@.contains_key(sender@),
                addr == Ok::<String, StdError>(candidate),
                owners_clear(owners@, candidate@, i as int),
            decreases owners.len() - i,
        {
            match &owners[i] {
                Err(e) => return Err(ContractError::Std(e.duplicate())),
                Ok(o) => {
                    if *o == candidate {
                        return Err(ContractError::AlreadyAMember);
                    }
                },
            }
            i = i + 1;
        }
        if !is_member {
            return Ok(ProposeOutcome::Requested);
        }
        let addr = candidate;
        let vote = (sender.clone(), addr.clone());
        if self.votes.contains_key(&vote) {
            return Err(ContractError::AlreadyVoted);
        }
        let so_far = match self.proposals.get(&addr) {
            Some(c) => *c,
            None => 0,
        };
        if so_far == u64::MAX {
            return Err(ContractError::Aborted);
        }
        let cnt = so_far + 1;
        self.votes.insert(vote, ());
        if cnt < self.config.minimal_acceptances {
            self.proposals.insert(addr, cnt);
            return Ok(ProposeOutcome::Pending { acceptances: cnt });
        }
        self.proposals.remove(&addr);
        let instantiation = self.proxy_instantiation(addr, own_addr, PROXY_INSTANTIATION_REPLY_ID);
        Ok(ProposeOutcome::Admitted(instantiation))
    }

    /// The proxy of `owner`, instantiated by the group at `own_addr`.
    fn proxy_instantiation(&self, owner: String, own_addr: String, reply_id: u64) -> (r: ProxyInstantiation)
        ensures
            proxy_for(self.config, owner@, own_addr@, r, reply_id),
    {
        let label = owner.clone().concat(" Proxy");
        ProxyInstantiation {
            code_id: self.config.proxy_code_id,
            msg: ProxyInstantiateMsg {
                owner,
                weight: self.config.starting_weight,
                denom: self.config.denom.clone(),
                direct_part: self.config.direct_part,
                distribution_contract: self.config.distribution_contract.clone(),
                membership_contract: own_addr.clone(),
                halftime: self.config.halftime,
            },
            admin: own_addr,
            label,
            reply_id,
        }
    }

    /// The proxy of an initial member answered from `proxy_addr`: it becomes a
    /// member and one answer fewer is awaited. `awaiting` is the stored count of
    /// awaited answers, as loading it gives it. Where answers are still awaited the
    /// step returns how many, to store; where none is left the instantiation data
    /// is due and the stored count stays as it was.
    pub fn initial_proxy_instantiated(&mut self, proxy_addr: String, awaiting: Result<u64, StdError>) -> (r: Result<
        InitialProxyStep,
        ContractError,
    >)
        requires
            old(self).wf(),
        ensures
            final(self).wf(),
            final(self).config == old(self).config,
            final(self).votes == old(self).votes,
            final(self).proposals == old(self).proposals,
            r is Err ==> *final(self) == *old(self),
            match r {
                Err(ContractError::Std(e)) => awaiting == Err::<u64, StdError>(e),
                Err(ContractError::Aborted) => awaiting == Ok::<u64, StdError>(0u64),
                Err(_) => false,
                Ok(step) => {
                    &&& final(self).members@ == old(self).members@.insert(proxy_addr@, ())
                    &&& awaiting matches Ok(n)
                    &&& n > 0
                    &&& match step {
                        InitialProxyStep::Awaiting { proxy_addr: a, left } => a@ == proxy_addr@ && n
                            > 1 && left == n - 1,
                        InitialProxyStep::Complete { proxy_addr: a } => a@ == proxy_addr@ && n == 1,
                    }
                },
            },
    {
        let awaiting = match awaiting {
            Err(e) => return Err(ContractError::Std(e)),
            Ok(n) => n,
        };
        if awaiting == 0 {
            return Err(ContractError::Aborted);
        }
        self.members.insert_ordered(proxy_addr.clone(), ());
        let left = awaiting - 1;
        if left > 0 {
            return Ok(InitialProxyStep::Awaiting { proxy_addr, left });
        }
        Ok(InitialProxyStep::Complete { proxy_addr })
    }

    /// The instantiation data: every member with its owner, in the order of the
    /// members, which rises by proxy address as storage lists them. `owners[i]` is
    /// the owner of the i-th member, as queried.
    pub fn instantiation_data(&self, owners: &Vec<Result<String, StdError>>) -> (r: Result<
        InstantationData,
        ContractError,
    >)
        requires
            self.wf(),
            owners.len() == self.members.entries.len(),
        ensures
            match r {
                Err(ContractError::Std(e)) => exists|i: int|
                    0 <= i < owners.len() && owners@[i] == Err::<String, StdError>(e) && forall|j: int|
                        0 <= j < i ==> owners@[j] is Ok,
                Err(_) => false,
                Ok(data) => {
                    &&& data.members.len() == owners.len()
                    &&& forall|i: int|
                        0 <= i < data.members.len() - 1 ==> bytes_lt(
                            encode_utf8(#[trigger] data.members@[i].proxy_addr@),
                            encode_utf8(data.members@[i + 1].proxy_addr@),
                        )
                    &&& forall|i: int|
                        0 <= i < owners.len() ==> (owners@[i] matches Ok(o) && #[trigger] data.members@[i].owner_addr@
                            == o@ && data.members@[i].proxy_addr@ == self.members.entries@[i].0@)
                },
            },
    {
        let mut members: Vec<ProposeMemberData> = Vec::new();
        let mut i: usize = 0;
        while i < owners.len()
            invariant
                i <= owners.len(),
                owners.len() == self.members.entries.len(),
                members.len() == i,
                forall|j: int| 0 <= j < i ==> owners@[j] is Ok,
                forall|j: int|
                    0 <= j < i ==> (owners@[j] matches Ok(o) && #[trigger] members@[j].owner_addr@ == o@),
                forall|j: int| 0 <= j < i ==> #[trigger] members@[j].proxy_addr@ == self.members.entries@[j].0@,
            decreases owners.len() - i,
        {
            match &owners[i] {
                Err(e) => return Err(ContractError::Std(e.duplicate())),
                Ok(o) => {
                    members.push(
                        ProposeMemberData {
                            owner_addr: o.clone(),
                            proxy_addr: self.members.entries[i].0.clone(),
                        },
                    );
                },
            }
            i = i + 1;
        }
        assert forall|i: int|
            0 <= i < members.len() - 1 implies bytes_lt(
                encode_utf8(#[trigger] members@[i].proxy_addr@),
                encode_utf8(members@[i + 1].proxy_addr@),
            ) by {
            assert(members@[i].proxy_addr@ == self.members.entries@[i].0@);
            assert(members@[i + 1].proxy_addr@ == self.members.entries@[i + 1].0@);
        }
        Ok(InstantationData { members })
    }

    /// The proxy of an admitted candidate answered from `proxy_addr`, owned by
    /// `owner` (as queried): it becomes a member, and the pair is the data of the answer.
    pub fn proxy_instantiated(&mut self, proxy_addr: String, owner: Result<String, StdError>) -> (r: Result<
        ProposeMemberData,
        ContractError,
    >)
        requires
            old(self).wf(),
        ensures
            final(self).wf(),
            final(self).config == old(self).config,
            final(self).votes == old(self).votes,
            final(self).proposals == old(self).proposals,
            r is Err ==> *final(self) == *old(self),
            match r {
                Err(ContractError::Std(e)) => owner == Err::<String, StdError>(e),
                Err(_) => false,
                Ok(data) => owner matches Ok(o) && data.owner_addr@ == o@ && data.proxy_addr@
                    == proxy_addr@ && final(self).members@ == old(self).members@.insert(proxy_addr@, ()),
            },
    {
        let owner = match owner {
            Ok(o) => o,
            Err(e) => return Err(ContractError::Std(e)),
        };
        self.members.insert_ordered(proxy_addr.clone(), ());
        Ok(ProposeMemberData { owner_addr: owner, proxy_addr })
    }

    /// The pool answered from `distribution_addr`: the group records it, and
    /// instantiates a proxy for each initial member (`members`, as the app's
    /// address check left them). Returns the instantiations and how many answers
    /// to await, to store.
    pub fn distribution_instantiated(
        &mut self,
        distribution_addr: String,
        members: &Vec<Result<String, StdError>>,
        own_addr: String,
    ) -> (r: Result<(Vec<ProxyInstantiation>, u64), ContractError>)
        requires
            old(self).wf(),
        ensures
            final(self).wf(),
            final(self).members == old(self).members,
            final(self).votes == old(self).votes,
            final(self).proposals == old(self).proposals,
            r is Err ==> *final(self) == *old(self),
            match r {
                Err(ContractError::Std(e)) => exists|i: int|
                    0 <= i < members.len() && members@[i] == Err::<String, StdError>(e) && forall|j: int|
                        0 <= j < i ==> members@[j] is Ok,
                Err(_) => false,
                Ok((msgs, awaiting)) => initial_proxies_requested(
                    old(self).config,
                    final(self).config,
                    distribution_addr,
                    members@,
                    own_addr@,
                    msgs@,
                    awaiting,
                ),
            },
    {
        let mut k: usize = 0;
        while k < members.len()
            invariant
                k <= members.len(),
                self.wf(),
                *self == *old(self),
                forall|j: int| 0 <= j < k ==> members@[j] is Ok,
            decreases members.len() - k,
        {
            if let Err(e) = &members[k] {
                return Err(ContractError::Std(e.duplicate()));
            }
            k = k + 1;
        }
        self.config.distribution_contract = distribution_addr;
        let mut msgs: Vec<ProxyInstantiation> = Vec::new();
        let mut i: usize = 0;
        while i < members.len()
            invariant
                i <= members.len(),
                self.wf(),
                self.members == old(self).members,
                self.votes == old(self).votes,
                self.proposals == old(self).proposals,
                self.config == (Config { distribution_contract: distribution_addr, ..old(self).config }),
                msgs.len() == i,
                forall|j: int| 0 <= j < members.len() ==> members@[j] is Ok,
                forall|j: int|
                    0 <= j < i ==> (members@[j] matches Ok(a) && proxy_for(
                        self.config,
                        a@,
                        own_addr@,
                        #[trigger] msgs@[j],
                        INITIAL_PROXY_INSTANTIATION_REPLY_ID,
                    )),
            decreases members.len() - i,
        {
            if let Ok(a) = &members[i] {
                let m = self.proxy_instantiation(a.clone(), own_addr.clone(), INITIAL_PROXY_INSTANTIATION_REPLY_ID);
                msgs.push(m);
            }
            i = i + 1;
        }
        let awaiting = msgs.len() as u64;
        Ok((msgs, awaiting))
    }
}

// ---------------------------------------------------------------------------
// Laws
// ---------------------------------------------------------------------------

/// The proposals after `k` acceptances of `candidate`, one after the other.
pub open spec fn after_acceptances(
    proposals: Map<Seq<char>, u64>,
    candidate: Seq<char>,
    minimal: u64,
    k: nat,
) -> Map<Seq<char>, u64>
    decreases k,
{
    if k == 0 {
        proposals
    } else {
        accepted_once(after_acceptances(proposals, candidate, minimal, (k - 1) as nat), candidate, minimal).0
    }
}

/// A candidate that nobody has accepted yet is admitted exactly by the
/// `minimal`-th acceptance: the earlier ones leave it pending with 1, 2, ...
/// acceptances, and once it is admitted no proposal of it is left.
pub proof fn lemma_admitted_on_minimal_acceptance(
    proposals: Map<Seq<char>, u64>,
    candidate: Seq<char>,
    minimal: u64,
    k: nat,
)
    requires
        !proposals.contains_key(candidate),
        1 <= minimal,
        k < minimal,
    ensures
        tally(after_acceptances(proposals, candidate, minimal, k), candidate) == k,
        k + 1 < minimal ==> accepted_once(
            after_acceptances(proposals, candidate, minimal, k),
            candidate,
            minimal,
        ).1 == Some((k + 1) as u64),
        k + 1 == minimal ==> {
            let (after, pending) = accepted_once(
                after_acceptances(proposals, candidate, minimal, k),
                candidate,
                minimal,
            );
            pending is None && !after.contains_key(candidate)
        },
    decreases k,
{
    if k > 0 {
        lemma_admitted_on_minimal_acceptance(proposals, candidate, minimal, (k - 1) as nat);
    }
}


/// How many of the recorded votes accept `candidate`.
pub open spec fn acceptances_of(votes: Seq<((String, String), ())>, candidate: Seq<char>) -> nat
    decreases votes.len(),
{
    if votes.len() == 0 {
        0
    } else {
        acceptances_of(votes.drop_last(), candidate) + if votes.last().0.1@ == candidate {
            1nat
        } else {
            0nat
        }
    }
}

/// Every pending proposal holds between one and `minimal - 1` acceptances, and
/// exactly as many as there are votes for its candidate.
pub open spec fn proposals_counted(
    proposals: Map<Seq<char>, u64>,
    votes: Seq<((String, String), ())>,
    minimal: u64,
) -> bool {
    forall|c: Seq<char>|
        #[trigger] proposals.contains_key(c) ==> 1 <= proposals[c] < minimal && proposals[c]
            == acceptances_of(votes, c)
}

/// A member's acceptance keeps the count of every pending proposal equal to the
/// votes for its candidate: the accepted candidate's count grows with its new
/// vote, or its proposal goes once it is admitted, and every other count stays.
/// This holds where the accepted candidate, if it has no pending proposal, has
/// no vote yet either (it is not the owner of a member awaiting its proxy).
pub proof fn lemma_acceptances_counted(
    proposals: Map<Seq<char>, u64>,
    votes: Seq<((String, String), ())>,
    vote: ((String, String), ()),
    minimal: u64,
)
    requires
        proposals_counted(proposals, votes, minimal),
        !proposals.contains_key(vote.0.1@) ==> acceptances_of(votes, vote.0.1@) == 0,
        tally(proposals, vote.0.1@) < u64::MAX,
    ensures
        proposals_counted(accepted_once(proposals, vote.0.1@, minimal).0, votes.push(vote), minimal),
{
    let a = vote.0.1@;
    let after = accepted_once(proposals, a, minimal).0;
    let votes2 = votes.push(vote);
    assert(votes2.drop_last() =~= votes);
    assert forall|c: Seq<char>| #[trigger] after.contains_key(c) implies 1 <= after[c] < minimal
        && after[c] == acceptances_of(votes2, c) by {
        assert(acceptances_of(votes2, c) == acceptances_of(votes, c) + if c == a {
            1nat
        } else {
            0nat
        });
        if c != a {
            assert(proposals.contains_key(c));
        }
    }
}


/// The initial members of a new group get their proxies: where the pool hands
/// back the data it was given, decoding that JSON gives back the list it was
/// encoded from, and the members come through the address check unchanged, the
/// group requests exactly one proxy per initial member, in their order, each owned
/// by that member, with the starting weight, the pool's address and the group's
/// settings, and awaits one answer per initial member.
pub proof fn lemma_initial_members_get_proxies(
    msg: InstantiateMsg,
    own_addr: Seq<char>,
    s: MembershipState,
    d: DistributionInstantiation,
    distribution_addr: String,
    decoded: Seq<Seq<char>>,
    members: Seq<Result<String, StdError>>,
    after: Config,
    msgs: Seq<ProxyInstantiation>,
    awaiting: u64,
)
    requires
        group_instantiated(msg, own_addr, s, d),
        strings_from_json(d.data@) == Ok::<Seq<Seq<char>>, Seq<char>>(decoded),
        decoded == string_views(msg.initial_members@),
        members.len() == decoded.len(),
        forall|i: int| 0 <= i < members.len() ==> (#[trigger] members[i] matches Ok(a) && a@ == decoded[i]),
        initial_proxies_requested(s.config, after, distribution_addr, members, own_addr, msgs, awaiting),
    ensures
        awaiting == msg.initial_members.len(),
        msgs.len() == msg.initial_members.len(),
        forall|i: int|
            0 <= i < msgs.len() ==> {
                let p = #[trigger] msgs[i];
                &&& p.msg.owner@ == msg.initial_members@[i]@
                &&& p.msg.weight == msg.starting_weight
                &&& p.msg.denom@ == msg.denom@
                &&& p.msg.direct_part == msg.direct_part
                &&& p.msg.halftime == msg.halftime
                &&& p.msg.distribution_contract@ == distribution_addr@
                &&& p.msg.membership_contract@ == own_addr
                &&& p.code_id == msg.proxy_code_id
                &&& p.reply_id == INITIAL_PROXY_INSTANTIATION_REPLY_ID
            },
{
    assert forall|i: int| 0 <= i < msgs.len() implies ({
        let p = #[trigger] msgs[i];
        &&& p.msg.owner@ == msg.initial_members@[i]@
        &&& p.msg.weight == msg.starting_weight
        &&& p.msg.denom@ == msg.denom@
        &&& p.msg.direct_part == msg.direct_part
        &&& p.msg.halftime == msg.halftime
        &&& p.msg.distribution_contract@ == distribution_addr@
        &&& p.msg.membership_contract@ == own_addr
        &&& p.code_id == msg.proxy_code_id
        &&& p.reply_id == INITIAL_PROXY_INSTANTIATION_REPLY_ID
    }) by {
        assert(members[i] matches Ok(a) && a@ == decoded[i]);
        assert(decoded[i] == msg.initial_members@[i]@);
    }
}

} // verus!
