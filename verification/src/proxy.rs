//! The proxy of one creator: it takes donations, passes the group's part on to
//! the distribution pool, withdraws the creator's share, and forwards the
//! creator's membership proposals.

use vstd::prelude::*;
use crate::common::{Coin, Decimal, StdError, WithdrawableResp, coins_view};
use crate::common::membership::ExecMsg as MembershipExecMsg;
use crate::cw::{
    DECIMAL_FRACTIONAL, PaymentError, must_pay, decimal_mul_floor, execute_response_of, opt_bytes,
    parse_execute_response,
};
use crate::distribution::QueryMsg as DistributionQueryMsg;

verus! {

/// Instantiation of a proxy.
#[derive(Clone, Debug, PartialEq, Eq)]
pub struct InstantiateMsg {
    pub owner: String,
    pub weight: u64,
    pub denom: String,
    pub direct_part: Decimal,
    pub distribution_contract: String,
    pub membership_contract: String,
    pub halftime: u64,
}

/// Executions of a proxy.
#[derive(Clone, Debug, PartialEq, Eq)]
pub enum ExecMsg {
    Donate {},
    Withdraw { receiver: Option<String>, amount: Option<u128> },
    Close {},
    ProposeMember { addr: String },
    UpdateWeight {},
}

/// Queries of a proxy.
#[derive(Clone, Debug, PartialEq, Eq)]
pub enum QueryMsg {
    Withdrawable {},
    Owner {},
    IsClosed {},
}

/// Answer to `QueryMsg::Owner`: the owner and the proxy's weight.
#[derive(Clone, Debug, PartialEq, Eq)]
pub struct OwnerResp {
    pub addr: String,
    pub weight: u64,
}

/// Answer to `QueryMsg::IsClosed`.
#[derive(Clone, Copy, Debug, PartialEq, Eq)]
pub struct IsClosedResp {
    pub is_closed: bool,
}

/// Failures of a proxy. `Aborted` stands where the contract's arithmetic
/// overflows, which aborts the whole call.
#[derive(Clone, Debug, PartialEq, Eq)]
pub enum ContractError {
    StdError(StdError),
    InalidDirectPart,
    Unauthorized,
    Payment(PaymentError),
    UnrecognizedReplyId(u64),
    ParseReply(String),
    Aborted,
}

/// Reply to the pool's payout of a withdrawal.
pub const WITHDRAW_REPLY_ID: u64 = 1;

/// Reply to a proposal sent to the membership contract.
pub const PROPOSE_MEMBER_ID: u64 = 2;

/// Which reply is which.
#[derive(Clone, Copy, Debug, PartialEq, Eq)]
pub enum ReplyKind {
    Withdraw,
    ProposeMember,
}

/// Which reply an id names.
pub fn reply_kind(id: u64) -> (r: Result<ReplyKind, ContractError>)
    ensures
        match r {
            Ok(ReplyKind::Withdraw) => id == WITHDRAW_REPLY_ID,
            Ok(ReplyKind::ProposeMember) => id == PROPOSE_MEMBER_ID,
            Err(e) => e == ContractError::UnrecognizedReplyId(id) && id != WITHDRAW_REPLY_ID && id
                != PROPOSE_MEMBER_ID,
        },
{
    if id == WITHDRAW_REPLY_ID {
        Ok(ReplyKind::Withdraw)
    } else if id == PROPOSE_MEMBER_ID {
        Ok(ReplyKind::ProposeMember)
    } else {
        Err(ContractError::UnrecognizedReplyId(id))
    }
}

/// The membership contract answered a proposal: the data of its answer, if any,
/// becomes the proxy's answer. A failed sub-message (`Err(msg)`) gives a generic
/// error with its message, undecodable reply bytes the parse error.
pub fn propose_member_reply(reply: Result<Option<Vec<u8>>, String>) -> (r: Result<
    Option<Vec<u8>>,
    ContractError,
>)
    ensures
        match reply {
            Err(msg) => r == Err::<Option<Vec<u8>>, ContractError>(
                ContractError::StdError(StdError::GenericErr { msg }),
            ),
            Ok(None) => r == Ok::<Option<Vec<u8>>, ContractError>(None),
            Ok(Some(data)) => match execute_response_of(data@) {
                Err(text) => r matches Err(ContractError::ParseReply(t)) && t@ == text,
                Ok(d) => r matches Ok(d2) && opt_bytes(d2) == d,
            },
        },
{
    let data = match reply {
        Err(msg) => return Err(ContractError::StdError(StdError::GenericErr { msg })),
        Ok(None) => return Ok(None),
        Ok(Some(data)) => data,
    };
    match parse_execute_response(&data) {
        Ok(inner) => Ok(inner),
        Err(text) => Err(ContractError::ParseReply(text)),
    }
}

/// Settings of a proxy.
#[derive(Clone, Debug, PartialEq, Eq)]
pub struct Config {
    pub denom: String,
    pub direct_part: Decimal,
    pub distribution_contract: String,
    pub membership_contract: String,
    pub is_closed: bool,
}

/// A withdrawal waiting for the pool to pay out.
#[derive(Clone, Debug, PartialEq, Eq)]
pub struct WithdrawalData {
    pub receiver: String,
    pub amount: Option<u128>,
}

/// The stored code of the proxy contract.
#[derive(Clone, Copy, Debug, PartialEq, Eq)]
pub struct CodeId(pub u64);

impl From<CodeId> for u64 {
    fn from(value: CodeId) -> (r: u64) {
        value.0
    }
}

impl vstd::std_specs::convert::FromSpecImpl<CodeId> for u64 {
    open spec fn obeys_from_spec() -> bool {
        true
    }

    open spec fn from_spec(v: CodeId) -> u64 {
        v.0
    }
}

/// What a proxy keeps: its owner, its weight in the pool, the weight it will have
/// after the next withdrawal (one per donation since the last), its settings, the
/// period after which anyone may halve its weight, and when its weight was last set.
pub struct ProxyState {
    pub owner: String,
    pub weight: u64,
    pub donations: u64,
    pub config: Config,
    pub halftime: u64,
    pub last_updated: u64,
}

/// A donation: what came, the owner's direct part, and what goes on to the pool.
#[derive(Clone, Copy, Debug, PartialEq, Eq)]
pub struct Donation {
    pub amount: u128,
    pub direct: u128,
    pub to_distribute: u128,
}

/// The pool's `Withdraw` message of a proxy: its weight so far and the change.
#[derive(Clone, Copy, Debug, PartialEq, Eq)]
pub struct WeightChange {
    pub weight: u64,
    pub diff: i64,
}

/// Outcome of a forced weight update.
#[derive(Clone, Copy, Debug, PartialEq, Eq)]
pub enum WeightUpdate {
    /// Not enough time has passed.
    Skipped,
    /// The weight was halved: the pool learns the change, the proxy keeps `new_weight`.
    Performed { change: WeightChange, new_weight: u64 },
}

/// The owner's direct part of `amount`: the amount times the fraction, rounded down.
pub open spec fn direct_share(direct_part: Decimal, amount: u128) -> int {
    amount * direct_part.atomics / (DECIMAL_FRACTIONAL as int)
}

/// The weight change of a withdrawal: the next weight minus the current one;
/// `None` where it does not fit the `i64` of the pool's message.
pub open spec fn withdrawal_diff(weight: u64, donations: u64) -> Option<i64> {
    let d = donations - weight;
    if i64::MIN <= d <= i64::MAX {
        Some(d as i64)
    } else {
        None
    }
}

/// The change that halves a weight, rounding the new weight up: minus half the
/// weight, rounded down.
pub open spec fn halving_diff(weight: u64) -> i64 {
    (-((weight / 2) as int)) as i64
}

impl ProxyState {
    /// The direct part is at most the whole.
    pub open spec fn wf(&self) -> bool {
        self.config.direct_part.atomics <= DECIMAL_FRACTIONAL
    }

    /// A new proxy for `msg.owner` with `msg.weight`, set at time `now`. A direct
    /// part above 1 is refused.
    pub fn instantiate(msg: InstantiateMsg, now: u64) -> (r: Result<ProxyState, ContractError>)
        ensures
            match r {
                Err(e) => e == ContractError::InalidDirectPart && msg.direct_part.atomics
                    > DECIMAL_FRACTIONAL,
                Ok(s) => {
                    &&& msg.direct_part.atomics <= DECIMAL_FRACTIONAL
                    &&& s.wf()
                    &&& s.owner@ == msg.owner@
                    &&& s.weight == msg.weight
                    &&& s.donations == 1
                    &&& s.config.denom@ == msg.denom@
                    &&& s.config.direct_part == msg.direct_part
                    &&& s.config.distribution_contract@ == msg.distribution_contract@
                    &&& s.config.membership_contract@ == msg.membership_contract@
                    &&& !s.config.is_closed
                    &&& s.halftime == msg.halftime
                    &&& s.last_updated == now
                },
            },
    {
        if msg.direct_part.atomics > DECIMAL_FRACTIONAL {
            return Err(ContractError::InalidDirectPart);
        }
        Ok(
            ProxyState {
                owner: msg.owner,
                weight: msg.weight,
                donations: 1,
                config: Config {
                    denom: msg.denom,
                    direct_part: msg.direct_part,
                    distribution_contract: msg.distribution_contract,
                    membership_contract: msg.membership_contract,
                    is_closed: false,
                },
                halftime: msg.halftime,
                last_updated: now,
            },
        )
    }

    /// Takes a donation of exactly one coin of the proxy's denom: the owner's
    /// direct part stays, the rest goes to the pool, and the next weight grows by one.
    pub fn donate(&mut self, funds: &Vec<Coin>) -> (r: Result<Donation, ContractError>)
        requires
            old(self).wf(),
        ensures
            final(self).wf(),
            final(self).owner == old(self).owner,
            final(self).weight == old(self).weight,
            final(self).config == old(self).config,
            final(self).halftime == old(self).halftime,
            final(self).last_updated == old(self).last_updated,
            r is Err ==> *final(self) == *old(self),
            ({
                let paid = funds.len() == 1 && funds@[0].amount != 0 && funds@[0].denom@
                    == old(self).config.denom@;
                match r {
                    Err(ContractError::Payment(PaymentError::NoFunds)) => funds.len() == 0 || (
                    funds.len() == 1 && funds@[0].amount == 0),
                    Err(ContractError::Payment(PaymentError::MultipleDenoms)) => funds.len() >= 2,
                    Err(ContractError::Payment(PaymentError::MissingDenom(d))) => funds.len() == 1
                        && funds@[0].amount != 0 && funds@[0].denom@ != old(self).config.denom@ && d@
                        == old(self).config.denom@,
                    Err(ContractError::Aborted) => paid && old(self).donations == u64::MAX,
                    Err(_) => false,
                    Ok(d) => {
                        &&& paid
                        &&& old(self).donations < u64::MAX
                        &&& final(self).donations == old(self).donations + 1
                        &&& d.amount == funds@[0].amount
                        &&& d.direct == direct_share(old(self).config.direct_part, d.amount)
                        &&& d.to_distribute == d.amount - d.direct
                    },
                }
            }),
    {
        let amount = match must_pay(funds, &self.config.denom) {
            Ok(a) => a,
            Err(e) => return Err(ContractError::Payment(e)),
        };
        proof {
            let a = amount as int;
            let f = self.config.direct_part.atomics as int;
            assert(a * f <= a * (DECIMAL_FRACTIONAL as int)) by (nonlinear_arith)
                requires
                    0 <= a,
                    0 <= f <= DECIMAL_FRACTIONAL,
            ;
            assert(a * (DECIMAL_FRACTIONAL as int) / (DECIMAL_FRACTIONAL as int) == a) by (nonlinear_arith);
            assert(a * f / (DECIMAL_FRACTIONAL as int) <= a * (DECIMAL_FRACTIONAL as int) / (
            DECIMAL_FRACTIONAL as int)) by (nonlinear_arith)
                requires
                    a * f <= a * (DECIMAL_FRACTIONAL as int),
                    0 <= a * f,
            ;
        }
        let direct = decimal_mul_floor(self.config.direct_part.atomics, amount);
        let to_distribute = amount - direct;
        if self.donations == u64::MAX {
            return Err(ContractError::Aborted);
        }
        self.donations = self.donations + 1;
        Ok(Donation { amount, direct, to_distribute })
    }

    /// The owner withdraws: the weight becomes the next weight, the next weight
    /// starts again at 1, and the clock restarts at `now`. Returns the pool's
    /// `Withdraw` (the weight so far and the change) and the withdrawal to store
    /// until the pool pays: to `receiver` (the owner where there is none; the app
    /// hands it over validated) of `amount` (everything where there is none).
    pub fn withdraw(
        &mut self,
        sender: &String,
        receiver: Option<Result<String, StdError>>,
        amount: Option<u128>,
        now: u64,
    ) -> (r: Result<(WeightChange, WithdrawalData), ContractError>)
        requires
            old(self).wf(),
        ensures
            final(self).wf(),
            final(self).owner == old(self).owner,
            final(self).config == old(self).config,
            final(self).halftime == old(self).halftime,
            r is Err ==> *final(self) == *old(self),
            match r {
                Err(ContractError::Unauthorized) => sender@ != old(self).owner@,
                Err(ContractError::Aborted) => sender@ == old(self).owner@ && withdrawal_diff(
                    old(self).weight,
                    old(self).donations,
                ) is None,
                Err(ContractError::StdError(e)) => sender@ == old(self).owner@ && withdrawal_diff(
                    old(self).weight,
                    old(self).donations,
                ) is Some && receiver == Some(Err::<String, StdError>(e)),
                Err(_) => false,
                Ok((change, w)) => {
                    &&& sender@ == old(self).owner@
                    &&& withdrawal_diff(old(self).weight, old(self).donations) == Some(change.diff)
                    &&& change.weight == old(self).weight
                    &&& final(self).weight == old(self).donations
                    &&& final(self).donations == 1
                    &&& final(self).last_updated == now
                    &&& w.amount == amount
                    &&& !(receiver matches Some(Err(_)))
                    &&& w.receiver@ == match receiver {
                        Some(Ok(a)) => a@,
                        _ => sender@,
                    }
                },
            },
    {
        if *sender != self.owner {
            return Err(ContractError::Unauthorized);
        }
        let d = (self.donations as i128) - (self.weight as i128);
        if d < (i64::MIN as i128) || d > (i64::MAX as i128) {
            return Err(ContractError::Aborted);
        }
        let diff = d as i64;
        let receiver = match receiver {
            Some(Ok(a)) => a,
            Some(Err(e)) => return Err(ContractError::StdError(e)),
            None => sender.clone(),
        };
        let weight = self.weight;
        self.weight = self.donations;
        self.donations = 1;
        self.last_updated = now;
        Ok((WeightChange { weight, diff }, WithdrawalData { receiver, amount }))
    }

    /// The owner closes the proxy.
    pub fn close(&mut self, sender: &String) -> (r: Result<(), ContractError>)
        requires
            old(self).wf(),
        ensures
            final(self).wf(),
            match r {
                Err(e) => e == ContractError::Unauthorized && sender@ != old(self).owner@ && *final(self)
                    == *old(self),
                Ok(()) => sender@ == old(self).owner@ && *final(self) == (ProxyState {
                    config: Config { is_closed: true, ..old(self).config },
                    ..*old(self)
                }),
            },
    {
        if *sender != self.owner {
            return Err(ContractError::Unauthorized);
        }
        self.config.is_closed = true;
        Ok(())
    }

    /// The owner proposes `addr` as a new member: the message to send to the
    /// membership contract.
    pub fn propose_member(&self, sender: &String, addr: String) -> (r: Result<
        MembershipExecMsg,
        ContractError,
    >)
        ensures
            match r {
                Err(e) => e == ContractError::Unauthorized && sender@ != self.owner@,
                Ok(MembershipExecMsg::ProposeMember { addr: a }) => sender@ == self.owner@ && a@
                    == addr@,
            },
    {
        if *sender != self.owner {
            return Err(ContractError::Unauthorized);
        }
        Ok(MembershipExecMsg::ProposeMember { addr })
    }

    /// Anyone may force a weight update: once `halftime` has passed since the weight
    /// was last set, the weight is halved (rounded up, as `w - w / 2`), the pool is
    /// told the change, and the clock restarts.
    pub fn update_weight(&mut self, now: u64) -> (r: Result<WeightUpdate, ContractError>)
        requires
            old(self).wf(),
        ensures
            final(self).wf(),
            final(self).owner == old(self).owner,
            final(self).donations == old(self).donations,
            final(self).config == old(self).config,
            final(self).halftime == old(self).halftime,
            r is Err ==> *final(self) == *old(self),
            match r {
                Err(e) => e == ContractError::Aborted && now < old(self).last_updated,
                Ok(WeightUpdate::Skipped) => {
                    &&& old(self).last_updated <= now
                    &&& now - old(self).last_updated < old(self).halftime
                    &&& *final(self) == *old(self)
                },
                Ok(WeightUpdate::Performed { change, new_weight }) => {
                    &&& old(self).last_updated <= now
                    &&& now - old(self).last_updated >= old(self).halftime
                    &&& change.weight == old(self).weight
                    &&& change.diff == halving_diff(old(self).weight)
                    &&& new_weight == old(self).weight - old(self).weight / 2
                    &&& final(self).weight == new_weight
                    &&& final(self).last_updated == now
                },
            },
    {
        if now < self.last_updated {
            return Err(ContractError::Aborted);
        }
        let elapsed = now - self.last_updated;
        if elapsed < self.halftime {
            return Ok(WeightUpdate::Skipped);
        }
        let half = self.weight / 2;
        let diff = -(half as i64);
        let new_weight = self.weight - half;
        let change = WeightChange { weight: self.weight, diff };
        self.weight = new_weight;
        self.last_updated = now;
        Ok(WeightUpdate::Performed { change, new_weight })
    }

    /// The owner and the weight of the proxy.
    pub fn owner(&self) -> (r: OwnerResp)
        ensures
            r.addr@ == self.owner@,
            r.weight == self.weight,
    {
        OwnerResp { addr: self.owner.clone(), weight: self.weight }
    }

    /// Whether the owner has closed the proxy.
    pub fn is_closed(&self) -> (r: IsClosedResp)
        ensures
            r.is_closed == self.config.is_closed,
    {
        IsClosedResp { is_closed: self.config.is_closed }
    }

    /// The query of the pool that tells what this proxy (at `own_addr`) may withdraw there.
    pub fn withdrawable_request(&self, own_addr: String) -> (r: DistributionQueryMsg)
        ensures
            r matches DistributionQueryMsg::Withdrawable { proxy, weight } && proxy@ == own_addr@
                && weight == self.weight,
    {
        DistributionQueryMsg::Withdrawable { proxy: own_addr, weight: self.weight }
    }
}

/// The pool paid out: the stored withdrawal (`pending`, as loading it gives it)
/// sends its amount, or the whole `balance` of the proxy's denom where it names
/// none, to its receiver.
pub fn withdraw_reply(pending: Result<WithdrawalData, StdError>, balance: u128) -> (r: Result<
    (String, u128),
    ContractError,
>)
    ensures
        match pending {
            Err(e) => r == Err::<(String, u128), ContractError>(ContractError::StdError(e)),
            Ok(w) => r matches Ok((to, amount)) && to@ == w.receiver@ && amount == match w.amount {
                Some(a) => a,
                None => balance,
            },
        },
{
    match pending {
        Err(e) => Err(ContractError::StdError(e)),
        Ok(w) => {
            let amount = match w.amount {
                Some(a) => a,
                None => balance,
            };
            Ok((w.receiver, amount))
        },
    }
}

/// `i` is where `d` first occurs in `s`.
pub open spec fn is_first_index(s: Seq<(Seq<char>, u128)>, d: Seq<char>, i: int) -> bool {
    &&& 0 <= i < s.len()
    &&& s[i].0 == d
    &&& forall|j: int| 0 <= j < i ==> s[j].0 != d
}

/// `s` with `(d, a)` merged in: added to the first entry of `d`, or appended where
/// there is none; `None` where the sum overflows.
pub open spec fn merge_coin(s: Seq<(Seq<char>, u128)>, d: Seq<char>, a: u128) -> Option<Seq<(Seq<char>, u128)>> {
    if exists|i: int| is_first_index(s, d, i) {
        let i = choose|i: int| is_first_index(s, d, i);
        if s[i].1 + a > u128::MAX {
            None
        } else {
            Some(s.update(i, (d, (s[i].1 + a) as u128)))
        }
    } else {
        Some(s.push((d, a)))
    }
}

/// `funds` with the first `n` coins of `extra` merged in, one after the other.
pub open spec fn merged_funds(
    funds: Seq<(Seq<char>, u128)>,
    extra: Seq<(Seq<char>, u128)>,
    n: nat,
) -> Option<Seq<(Seq<char>, u128)>>
    decreases n,
{
    if n == 0 {
        Some(funds)
    } else {
        match merged_funds(funds, extra, (n - 1) as nat) {
            None => None,
            Some(s) => merge_coin(s, extra[n - 1].0, extra[n - 1].1),
        }
    }
}

/// The total of denom `d` over the entries of `s`.
pub open spec fn amount_of(s: Seq<(Seq<char>, u128)>, d: Seq<char>) -> int
    decreases s.len(),
{
    if s.len() == 0 {
        0
    } else {
        amount_of(s.drop_last(), d) + if s.last().0 == d {
            s.last().1 as int
        } else {
            0
        }
    }
}

proof fn lemma_merged_none_stays(funds: Seq<(Seq<char>, u128)>, extra: Seq<(Seq<char>, u128)>, i: nat, n: nat)
    requires
        i <= n,
        merged_funds(funds, extra, i) is None,
    ensures
        merged_funds(funds, extra, n) is None,
    decreases n - i,
{
    if i < n {
        lemma_merged_none_stays(funds, extra, i, (n - 1) as nat);
    }
}

/// What a proxy may withdraw: its share in the pool (`resp`, the pool's answer)
/// plus its own balance (`balances`), merged per denom.
pub fn merge_withdrawable(resp: WithdrawableResp, balances: &Vec<Coin>) -> (r: Result<
    WithdrawableResp,
    ContractError,
>)
    ensures
        ({
            let expected = merged_funds(coins_view(resp.funds@), coins_view(balances@), balances.len() as nat);
            match r {
                Err(e) => e == ContractError::Aborted && expected is None,
                Ok(out) => expected == Some(coins_view(out.funds@)),
            }
        }),
{
    let mut funds = resp.funds;
    let ghost start = coins_view(funds@);
    let ghost extra = coins_view(balances@);
    let mut k: usize = 0;
    while k < balances.len()
        invariant
            k <= balances.len(),
            start == coins_view(resp.funds@),
            extra == coins_view(balances@),
            merged_funds(start, extra, k as nat) == Some(coins_view(funds@)),
        decreases balances.len() - k,
    {
        let coin = &balances[k];
        let ghost cur = coins_view(funds@);
        assert(extra[k as int] == (coin.denom@, coin.amount));
        let mut idx: usize = 0;
        let mut found = false;
        while idx < funds.len()
            invariant_except_break
                !found,
            invariant
                idx <= funds.len(),
                cur == coins_view(funds@),
                forall|j: int| 0 <= j < idx ==> cur[j].0 != coin.denom@,
            ensures
                found ==> idx < funds.len() && cur[idx as int].0 == coin.denom@,
                !found ==> idx == funds.len(),
            decreases funds.len() - idx,
        {
            if funds[idx].denom == coin.denom {
                found = true;
                break;
            }
            idx = idx + 1;
        }
        if found {
            assert(is_first_index(cur, coin.denom@, idx as int));
            assert forall|i: int| is_first_index(cur, coin.denom@, i) implies i == idx by {
                if i < idx as int {
                    assert(cur[i].0 != coin.denom@);
                } else if i > idx as int {
                    assert(cur[idx as int].0 == coin.denom@);
                }
            }
            let total = match funds[idx].amount.checked_add(coin.amount) {
                Some(t) => t,
                None => {
                    proof {
                        lemma_merged_none_stays(start, extra, (k + 1) as nat, balances.len() as nat);
                    }
                    return Err(ContractError::Aborted);
                },
            };
            let denom = funds[idx].denom.clone();
            funds.set(idx, Coin { denom, amount: total });
            assert(coins_view(funds@) =~= cur.update(idx as int, (coin.denom@, total)));
        } else {
            assert(!exists|i: int| is_first_index(cur, coin.denom@, i)) by {
                if exists|i: int| is_first_index(cur, coin.denom@, i) {
                    let i = choose|i: int| is_first_index(cur, coin.denom@, i);
                    assert(cur[i].0 != coin.denom@);
                }
            }
            funds.push(Coin { denom: coin.denom.clone(), amount: coin.amount });
            assert(coins_view(funds@) =~= cur.push((coin.denom@, coin.amount)));
        }
        k = k + 1;
    }
    Ok(WithdrawableResp { funds })
}

// ---------------------------------------------------------------------------
// Laws
// ---------------------------------------------------------------------------

proof fn lemma_amount_of_update(s: Seq<(Seq<char>, u128)>, i: int, v: u128, d: Seq<char>)
    requires
        0 <= i < s.len(),
    ensures
        amount_of(s.update(i, (s[i].0, v)), d) == amount_of(s, d) + if s[i].0 == d {
            v - s[i].1
        } else {
            0
        },
    decreases s.len(),
{
    let t = s.update(i, (s[i].0, v));
    if i == s.len() - 1 {
        assert(t.drop_last() =~= s.drop_last());
    } else {
        assert(t.drop_last() =~= s.drop_last().update(i, (s[i].0, v)));
        lemma_amount_of_update(s.drop_last(), i, v, d);
    }
}

/// Merging never loses or invents funds: for every denom, what the proxy may
/// withdraw is its share in the pool plus its own balance.
pub proof fn lemma_merge_adds_up(funds: Seq<(Seq<char>, u128)>, extra: Seq<(Seq<char>, u128)>, n: nat, d: Seq<char>)
    requires
        n <= extra.len(),
        merged_funds(funds, extra, n) is Some,
    ensures
        amount_of(merged_funds(funds, extra, n).unwrap(), d) == amount_of(funds, d) + amount_of(
            extra.take(n as int),
            d,
        ),
    decreases n,
{
    if n == 0 {
        assert(extra.take(0) =~= Seq::<(Seq<char>, u128)>::empty());
    } else {
        let k = (n - 1) as nat;
        lemma_merge_adds_up(funds, extra, k, d);
        let s = merged_funds(funds, extra, k).unwrap();
        let (e, a) = extra[k as int];
        assert(extra.take(n as int).drop_last() =~= extra.take(k as int));
        if exists|i: int| is_first_index(s, e, i) {
            let i = choose|i: int| is_first_index(s, e, i);
            lemma_amount_of_update(s, i, (s[i].1 + a) as u128, d);
        } else {
            assert(s.push((e, a)).drop_last() =~= s);
        }
    }
}

/// A forced update halves the weight, rounding up, and the change told to the
/// pool takes the pool's weight of the proxy to the same value, for every weight.
pub proof fn lemma_forced_update_halves(weight: u64)
    ensures
        weight + halving_diff(weight) == weight - weight / 2,
        2 * (weight - weight / 2) == weight || 2 * (weight - weight / 2) == weight + 1,
{
}

/// A withdrawal tells the pool a change that takes the proxy's weight there to
/// its new weight, the number of donations counted since the last withdrawal.
pub proof fn lemma_withdrawal_change_lands_on_next_weight(weight: u64, donations: u64)
    ensures
        withdrawal_diff(weight, donations) matches Some(diff) ==> weight + diff == donations,
        i64::MIN <= donations - weight <= i64::MAX ==> withdrawal_diff(weight, donations) is Some,
{
}


proof fn lemma_amount_of_nonneg(s: Seq<(Seq<char>, u128)>, d: Seq<char>)
    ensures
        amount_of(s, d) >= 0,
    decreases s.len(),
{
    if s.len() > 0 {
        lemma_amount_of_nonneg(s.drop_last(), d);
    }
}

proof fn lemma_entry_within_amount(s: Seq<(Seq<char>, u128)>, i: int)
    requires
        0 <= i < s.len(),
    ensures
        s[i].1 <= amount_of(s, s[i].0),
    decreases s.len(),
{
    lemma_amount_of_nonneg(s.drop_last(), s[i].0);
    if i < s.len() - 1 {
        lemma_entry_within_amount(s.drop_last(), i);
        assert(s.drop_last()[i] == s[i]);
    }
}

proof fn lemma_amount_of_prefix(s: Seq<(Seq<char>, u128)>, j: int, n: int, d: Seq<char>)
    requires
        0 <= j <= n <= s.len(),
    ensures
        amount_of(s.take(j), d) <= amount_of(s.take(n), d),
    decreases n - j,
{
    if j < n {
        lemma_amount_of_prefix(s, j, n - 1, d);
        assert(s.take(n).drop_last() =~= s.take(n - 1));
    }
}

/// Merging the proxy's own coins into the pool's answer goes through unless an
/// amount overflows: where, for every denom, the pool's amount plus the proxy's
/// coins of it fit `u128`, the merge gives a result, whatever the pool answered
/// (an empty answer too): a coin of a denom not yet listed is appended.
pub proof fn lemma_merge_goes_through(funds: Seq<(Seq<char>, u128)>, extra: Seq<(Seq<char>, u128)>, n: nat)
    requires
        n <= extra.len(),
        forall|d: Seq<char>| amount_of(funds, d) + #[trigger] amount_of(extra.take(n as int), d) <= u128::MAX,
    ensures
        merged_funds(funds, extra, n) is Some,
    decreases n,
{
    if n > 0 {
        let k = (n - 1) as nat;
        assert forall|d: Seq<char>| amount_of(funds, d) + #[trigger] amount_of(extra.take(k as int), d)
            <= u128::MAX by {
            lemma_amount_of_prefix(extra, k as int, n as int, d);
            assert(amount_of(funds, d) + amount_of(extra.take(n as int), d) <= u128::MAX);
        }
        lemma_merge_goes_through(funds, extra, k);
        let s = merged_funds(funds, extra, k).unwrap();
        let (e, a) = extra[k as int];
        if exists|i: int| is_first_index(s, e, i) {
            let i = choose|i: int| is_first_index(s, e, i);
            lemma_entry_within_amount(s, i);
            lemma_merge_adds_up(funds, extra, k, e);
            assert(extra.take(n as int).drop_last() =~= extra.take(k as int));
            assert(amount_of(extra.take(n as int), e) == amount_of(extra.take(k as int), e) + a);
            assert(amount_of(funds, e) + amount_of(extra.take(n as int), e) <= u128::MAX);
        }
    }
}

} // verus!
