//! The distribution pool: it receives the group's share of donations, spreads it
//! over the members by weight, and pays each member its share on withdrawal.

use vstd::prelude::*;
use crate::common::{Coin, StdError, denoms_of, coins_view};
use crate::points::{
    DenomCorrection, Correction, zero_denom_correction, zero_correction, distribute_aborts,
    distributed, fresh_amount, distribute_denom, withdraw_denom_aborts, owed, owed_defined,
    pool_after_withdraw, member_after_withdraw, withdraw_denom, joined, join_aborts,
    join_correction, owed_amount, lemma_joined_owes_nothing, lemma_withdrawn_owes_nothing,
    reads_in_range, lemma_owed_grows_with_weight, lemma_share_at_most_weight_share, POINTS_SCALE,
    sum_weights, lemma_join_goes_through,
};
use vstd::arithmetic::div_mod::lemma_add_mod_noop_right;
use crate::table::Table;

verus! {

/// Instantiation of the pool: the total weight of the initial members and data
/// handed back to the instantiator.
#[derive(Clone, Debug, PartialEq, Eq)]
pub struct InstantiateMsg {
    pub total_weigth: u128,
    pub data: Vec<u8>,
}

/// Executions of the pool.
#[derive(Clone, Debug, PartialEq, Eq)]
pub enum ExecMsg {
    Distribute {},
    NewMember { addr: String, weight: u64 },
    Withdraw { weight: u64, diff: i64 },
}

/// Queries of the pool.
#[derive(Clone, Debug, PartialEq, Eq)]
pub enum QueryMsg {
    Withdrawable { proxy: String, weight: u64 },
}

/// Failures of the pool. `Aborted` stands where the contract's arithmetic
/// overflows or divides by zero, which aborts the whole call.
#[derive(Clone, Debug, PartialEq, Eq)]
pub enum ContractError {
    Std(StdError),
    Unauthorized,
    Aborted,
}

/// What the pool keeps: the total weight, the membership contract that may add
/// members, the bookkeeping per denom, and per (member, denom).
pub struct DistributionState {
    pub total_weight: u128,
    pub membership: String,
    pub denom_corrections: Table<String, DenomCorrection>,
    pub corrections: Table<(String, String), Correction>,
}

/// Bookkeeping of a denom, zero where there is none yet.
pub open spec fn pool_of(pools: Map<Seq<char>, DenomCorrection>, denom: Seq<char>) -> DenomCorrection {
    if pools.contains_key(denom) {
        pools[denom]
    } else {
        zero_denom_correction()
    }
}

/// Bookkeeping of a member in a denom, zero where there is none yet.
pub open spec fn member_of(
    members: Map<(Seq<char>, Seq<char>), Correction>,
    key: (Seq<char>, Seq<char>),
) -> Correction {
    if members.contains_key(key) {
        members[key]
    } else {
        zero_correction()
    }
}

/// The per-denom bookkeeping after distributing the first `n` coins, one after
/// the other; `None` where one of them aborts.
pub open spec fn distributed_pools(
    total_weight: u128,
    pools: Map<Seq<char>, DenomCorrection>,
    denoms: Seq<Seq<char>>,
    balances: Seq<u128>,
    n: nat,
) -> Option<Map<Seq<char>, DenomCorrection>>
    decreases n,
{
    if n == 0 {
        Some(pools)
    } else {
        match distributed_pools(total_weight, pools, denoms, balances, (n - 1) as nat) {
            None => None,
            Some(p) => {
                let dc = pool_of(p, denoms[n - 1]);
                if distribute_aborts(total_weight, dc, balances[n - 1]) {
                    None
                } else {
                    Some(p.insert(denoms[n - 1], distributed(total_weight, dc, balances[n - 1])))
                }
            },
        }
    }
}

/// The book of pools and members after the member `who` withdrew in the first
/// `n` denoms; `None` where one of them aborts.
pub open spec fn withdrawn_books(
    pools: Map<Seq<char>, DenomCorrection>,
    members: Map<(Seq<char>, Seq<char>), Correction>,
    who: Seq<char>,
    weight: u64,
    diff: i64,
    denoms: Seq<Seq<char>>,
    n: nat,
) -> Option<(Map<Seq<char>, DenomCorrection>, Map<(Seq<char>, Seq<char>), Correction>)>
    decreases n,
{
    if n == 0 {
        Some((pools, members))
    } else {
        match withdrawn_books(pools, members, who, weight, diff, denoms, (n - 1) as nat) {
            None => None,
            Some((p, m)) => {
                let d = denoms[n - 1];
                let dc = pool_of(p, d);
                let c = member_of(m, (who, d));
                if withdraw_denom_aborts(dc, c, weight, diff) {
                    None
                } else {
                    let amount = owed(dc, c, weight);
                    Some(
                        (
                            p.insert(d, pool_after_withdraw(dc, amount)),
                            m.insert((who, d), member_after_withdraw(dc, c, amount, diff)),
                        ),
                    )
                }
            },
        }
    }
}

/// What a withdrawal pays in the `i`-th denom: the member's share there, on the
/// books as the withdrawal left them after the denoms before it.
pub open spec fn withdrawal_payout(
    pools: Map<Seq<char>, DenomCorrection>,
    members: Map<(Seq<char>, Seq<char>), Correction>,
    who: Seq<char>,
    weight: u64,
    diff: i64,
    denoms: Seq<Seq<char>>,
    i: nat,
) -> (Seq<char>, u128) {
    let (p, m) = withdrawn_books(pools, members, who, weight, diff, denoms, i).unwrap();
    let d = denoms[i as int];
    (d, owed(pool_of(p, d), member_of(m, (who, d)), weight) as u128)
}

/// `total` read as a signed 128-bit number: itself where it fits `i128`, less
/// 2^128 above that.
pub open spec fn as_signed(total: u128) -> int {
    if total <= i128::MAX {
        total as int
    } else {
        total - 0x1_0000_0000_0000_0000_0000_0000_0000_0000int
    }
}

/// The total weight after it changes by `diff`: the total plus `diff`, modulo
/// 2^128, where the sum of the total read as a signed number and `diff` fits
/// `i128`; `None` where it does not.
pub open spec fn reweighted_total(total: u128, diff: i64) -> Option<u128> {
    if i128::MIN <= as_signed(total) + diff <= i128::MAX {
        Some(((total + diff) % 0x1_0000_0000_0000_0000_0000_0000_0000_0000int) as u128)
    } else {
        None
    }
}

proof fn lemma_signed_casts(total: u128, diff: i64)
    ensures
        (total as i128) as int == as_signed(total),
        i128::MIN <= as_signed(total) + diff <= i128::MAX ==> ((((total as i128) + diff) as i128) as u128)
            as int == (total + diff) % 0x1_0000_0000_0000_0000_0000_0000_0000_0000int,
{
    assert(total > 0x7fff_ffff_ffff_ffff_ffff_ffff_ffff_ffffu128 ==> (total as i128) as int == total
        - 0x1_0000_0000_0000_0000_0000_0000_0000_0000int) by (bit_vector);
    let t: i128 = total as i128;
    if i128::MIN <= as_signed(total) + diff <= i128::MAX {
        let x: i128 = (t + diff) as i128;
        assert(x == t + diff);
        assert(x < 0 ==> (x as u128) as int == x + 0x1_0000_0000_0000_0000_0000_0000_0000_0000int)
            by (bit_vector);
    }
}

/// Corrections of a member that joins with `weight`: one per denom of the pool.
pub open spec fn joined_members(
    pools: Map<Seq<char>, DenomCorrection>,
    who: Seq<char>,
    weight: u64,
) -> Map<(Seq<char>, Seq<char>), Correction> {
    Map::new(
        |k: (Seq<char>, Seq<char>)| k.0 == who && pools.contains_key(k.1),
        |k: (Seq<char>, Seq<char>)| joined(pools[k.1].points_per_weight, weight),
    )
}

/// Joining with `weight` aborts in some denom of the pool.
pub open spec fn join_aborts_somewhere(pools: Map<Seq<char>, DenomCorrection>, weight: u64) -> bool {
    exists|d: Seq<char>| #[trigger] pools.contains_key(d) && join_aborts(pools[d].points_per_weight, weight)
}

/// What the member `who` of `weight` may withdraw, for the first `n` coins of the
/// pool's balance, without the denoms where that is zero; `None` where the share
/// of one of them is undefined.
pub open spec fn withdrawable_funds(
    pools: Map<Seq<char>, DenomCorrection>,
    members: Map<(Seq<char>, Seq<char>), Correction>,
    who: Seq<char>,
    weight: u64,
    denoms: Seq<Seq<char>>,
    n: nat,
) -> Option<Seq<(Seq<char>, u128)>>
    decreases n,
{
    if n == 0 {
        Some(Seq::empty())
    } else {
        match withdrawable_funds(pools, members, who, weight, denoms, (n - 1) as nat) {
            None => None,
            Some(s) => {
                let d = denoms[n - 1];
                let dc = pool_of(pools, d);
                let c = member_of(members, (who, d));
                if !owed_defined(dc, c, weight) {
                    None
                } else if owed(dc, c, weight) == 0 {
                    Some(s)
                } else {
                    Some(s.push((d, owed(dc, c, weight) as u128)))
                }
            },
        }
    }
}

proof fn lemma_distributed_none_stays(
    total_weight: u128,
    pools: Map<Seq<char>, DenomCorrection>,
    denoms: Seq<Seq<char>>,
    balances: Seq<u128>,
    i: nat,
    n: nat,
)
    requires
        i <= n,
        distributed_pools(total_weight, pools, denoms, balances, i) is None,
    ensures
        distributed_pools(total_weight, pools, denoms, balances, n) is None,
    decreases n - i,
{
    if i < n {
        lemma_distributed_none_stays(total_weight, pools, denoms, balances, i, (n - 1) as nat);
    }
}

proof fn lemma_withdrawn_none_stays(
    pools: Map<Seq<char>, DenomCorrection>,
    members: Map<(Seq<char>, Seq<char>), Correction>,
    who: Seq<char>,
    weight: u64,
    diff: i64,
    denoms: Seq<Seq<char>>,
    i: nat,
    n: nat,
)
    requires
        i <= n,
        withdrawn_books(pools, members, who, weight, diff, denoms, i) is None,
    ensures
        withdrawn_books(pools, members, who, weight, diff, denoms, n) is None,
    decreases n - i,
{
    if i < n {
        lemma_withdrawn_none_stays(pools, members, who, weight, diff, denoms, i, (n - 1) as nat);
    }
}

proof fn lemma_withdrawable_none_stays(
    pools: Map<Seq<char>, DenomCorrection>,
    members: Map<(Seq<char>, Seq<char>), Correction>,
    who: Seq<char>,
    weight: u64,
    denoms: Seq<Seq<char>>,
    i: nat,
    n: nat,
)
    requires
        i <= n,
        withdrawable_funds(pools, members, who, weight, denoms, i) is None,
    ensures
        withdrawable_funds(pools, members, who, weight, denoms, n) is None,
    decreases n - i,
{
    if i < n {
        lemma_withdrawable_none_stays(pools, members, who, weight, denoms, i, (n - 1) as nat);
    }
}

impl DistributionState {
    /// Both books keep each key once.
    pub open spec fn wf(&self) -> bool {
        self.denom_corrections.wf() && self.corrections.wf()
    }

    /// A new pool: the instantiator becomes the membership contract, the books are
    /// empty, and the message's data goes back as the instantiation's data.
    pub fn instantiate(msg: InstantiateMsg, sender: String) -> (r: (DistributionState, Vec<u8>))
        ensures
            r.0.wf(),
            r.0.total_weight == msg.total_weigth,
            r.0.membership@ == sender@,
            r.0.denom_corrections@ == Map::<Seq<char>, DenomCorrection>::empty(),
            r.0.corrections@ == Map::<(Seq<char>, Seq<char>), Correction>::empty(),
            r.1@ == msg.data@,
    {
        let state = DistributionState {
            total_weight: msg.total_weigth,
            membership: sender,
            denom_corrections: Table::new(),
            corrections: Table::new(),
        };
        (state, msg.data)
    }

    /// Spreads, for each coin sent along, what arrived of its denom since the last
    /// distribution. `balances[i]` is the pool's balance of `funds[i]`'s denom.
    /// Returns, per coin, the denom and the amount spread.
    pub fn distribute(&mut self, funds: &Vec<Coin>, balances: &Vec<u128>) -> (r: Result<
        Vec<Coin>,
        ContractError,
    >)
        requires
            old(self).wf(),
            funds.len() == balances.len(),
        ensures
            final(self).wf(),
            final(self).total_weight == old(self).total_weight,
            final(self).membership == old(self).membership,
            final(self).corrections@ == old(self).corrections@,
            r is Err ==> *final(self) == *old(self),
            ({
                let after = distributed_pools(
                    old(self).total_weight,
                    old(self).denom_corrections@,
                    denoms_of(funds@),
                    balances@,
                    funds.len() as nat,
                );
                match r {
                    Err(e) => e == ContractError::Aborted && after is None,
                    Ok(events) => {
                        &&& after == Some(final(self).denom_corrections@)
                        &&& events.len() == funds.len()
                        &&& forall|i: int|
                            #![trigger events@[i]]
                            0 <= i < funds.len() ==> events@[i]@ == (
                                funds@[i].denom@,
                                fresh_amount(
                                    pool_of(
                                        distributed_pools(
                                            old(self).total_weight,
                                            old(self).denom_corrections@,
                                            denoms_of(funds@),
                                            balances@,
                                            i as nat,
                                        ).unwrap(),
                                        funds@[i].denom@,
                                    ),
                                    balances@[i],
                                ) as u128,
                            )
                    },
                }
            }),
    {
        let ghost start = self.denom_corrections@;
        let mut pools = self.denom_corrections.duplicate();
        let ghost denoms = denoms_of(funds@);
        let mut events: Vec<Coin> = Vec::new();
        let mut i: usize = 0;
        while i < funds.len()
            invariant
                i <= funds.len(),
                funds.len() == balances.len(),
                denoms == denoms_of(funds@),
                self.wf(),
                pools.wf(),
                *self == *old(self),
                self.total_weight == old(self).total_weight,
                self.membership == old(self).membership,
                self.corrections@ == old(self).corrections@,
                start == old(self).denom_corrections@,
                distributed_pools(self.total_weight, start, denoms, balances@, i as nat) == Some(
                    pools@,
                ),
                events.len() == i,
                forall|j: int|
                    #![trigger events@[j]]
                    0 <= j < i ==> events@[j]@ == (
                        funds@[j].denom@,
                        fresh_amount(
                            pool_of(
                                distributed_pools(
                                    self.total_weight,
                                    start,
                                    denoms,
                                    balances@,
                                    j as nat,
                                ).unwrap(),
                                funds@[j].denom@,
                            ),
                            balances@[j],
                        ) as u128,
                    ),
            decreases funds.len() - i,
        {
            let denom = &funds[i].denom;
            let dc = match pools.get(denom) {
                Some(d) => *d,
                None => DenomCorrection::default(),
            };
            assert(denoms[i as int] == funds@[i as int].denom@);
            match distribute_denom(self.total_weight, dc, balances[i]) {
                None => {
                    proof {
                        lemma_distributed_none_stays(
                            self.total_weight,
                            start,
                            denoms,
                            balances@,
                            (i + 1) as nat,
                            funds.len() as nat,
                        );
                    }
                    return Err(ContractError::Aborted);
                },
                Some((n, amount)) => {
                    pools.insert(denom.clone(), n);
                    events.push(Coin { denom: denom.clone(), amount });
                },
            }
            i = i + 1;
        }
        self.denom_corrections = pools;
        Ok(events)
    }

    /// Admits `addr` with `weight`: for every denom the pool knows, it gets a
    /// correction that takes back the points handed out before, and its weight joins
    /// the total weight. Only the membership contract may do this.
    pub fn new_member(&mut self, sender: &String, addr: String, weight: u64) -> (r: Result<
        (),
        ContractError,
    >)
        requires
            old(self).wf(),
        ensures
            final(self).wf(),
            final(self).membership == old(self).membership,
            final(self).denom_corrections@ == old(self).denom_corrections@,
            r is Err ==> *final(self) == *old(self),
            match r {
                Err(ContractError::Unauthorized) => sender@ != old(self).membership@,
                Err(ContractError::Aborted) => sender@ == old(self).membership@ && (old(
                    self,
                ).total_weight + weight > u128::MAX || join_aborts_somewhere(
                    old(self).denom_corrections@,
                    weight,
                )),
                Err(_) => false,
                Ok(()) => {
                    &&& sender@ == old(self).membership@
                    &&& old(self).total_weight + weight <= u128::MAX
                    &&& final(self).total_weight == old(self).total_weight + weight
                    &&& !join_aborts_somewhere(old(self).denom_corrections@, weight)
                    &&& final(self).corrections@ == old(self).corrections@.union_prefer_right(
                        joined_members(old(self).denom_corrections@, addr@, weight),
                    )
                },
            },
    {
        if *sender != self.membership {
            return Err(ContractError::Unauthorized);
        }
        let total = match self.total_weight.checked_add(weight as u128) {
            Some(t) => t,
            None => return Err(ContractError::Aborted),
        };
        let mut corrections = self.corrections.duplicate();
        let ghost start = self.corrections@;
        let ghost pools = self.denom_corrections@;
        let ghost who = addr@;
        let mut i: usize = 0;
        while i < self.denom_corrections.entries.len()
            invariant
                i <= self.denom_corrections.entries@.len(),
                self.wf(),
                corrections.wf(),
                *self == *old(self),
                self.total_weight == old(self).total_weight,
                self.membership == old(self).membership,
                self.denom_corrections@ == old(self).denom_corrections@,
                pools == self.denom_corrections@,
                start == old(self).corrections@,
                who == addr@,
                sender@ == old(self).membership@,
                forall|j: int|
                    0 <= j < i ==> !join_aborts(
                        #[trigger] self.denom_corrections.entries@[j].1.points_per_weight,
                        weight,
                    ),
                forall|k: (Seq<char>, Seq<char>)|
                    #![trigger corrections@.contains_key(k)]
                    corrections@.contains_key(k) <==> (start.contains_key(k) || (k.0 == who
                        && exists|j: int|
                        0 <= j < i && #[trigger] self.denom_corrections.has_key_at(k.1, j))),
                forall|k: (Seq<char>, Seq<char>)|
                    #![trigger corrections@[k]]
                    corrections@.contains_key(k) ==> corrections@[k] == if k.0 == who
                        && exists|j: int|
                        0 <= j < i && #[trigger] self.denom_corrections.has_key_at(k.1, j) {
                        joined(pools[k.1].points_per_weight, weight)
                    } else {
                        start[k]
                    },
            decreases self.denom_corrections.entries@.len() - i,
        {
            let dc = self.denom_corrections.entries[i].1;
            let ghost d = self.denom_corrections.entries@[i as int].0@;
            proof {
                self.denom_corrections.lemma_value_at(d, i as int);
            }
            match join_correction(dc.points_per_weight, weight) {
                None => {
                    proof {
                        assert(pools.contains_key(d));
                    }
                    return Err(ContractError::Aborted);
                },
                Some(c) => {
                    let key = (addr.clone(), self.denom_corrections.entries[i].0.clone());
                    let ghost before = corrections@;
                    corrections.insert(key, c);
                    proof {
                        assert(self.denom_corrections.has_key_at(d, i as int));
                        assert forall|k: (Seq<char>, Seq<char>)|
                            #![trigger corrections@.contains_key(k)]
                            corrections@.contains_key(k) <==> (start.contains_key(k) || (k.0
                                == who && exists|j: int|
                                0 <= j < i + 1 && #[trigger] self.denom_corrections.has_key_at(
                                    k.1,
                                    j,
                                ))) by {
                            if k.0 == who && k.1 == d {
                                assert(self.denom_corrections.has_key_at(k.1, i as int));
                            }
                            if exists|j: int|
                                0 <= j < i + 1 && #[trigger] self.denom_corrections.has_key_at(
                                    k.1,
                                    j,
                                ) {
                                let j = choose|j: int|
                                    0 <= j < i + 1 && #[trigger] self.denom_corrections.has_key_at(
                                        k.1,
                                        j,
                                    );
                                if j != i {
                                    assert(exists|j: int|
                                        0 <= j < i && #[trigger] self.denom_corrections.has_key_at(
                                            k.1,
                                            j,
                                        ));
                                }
                            }
                        }
                        assert forall|k: (Seq<char>, Seq<char>)|
                            #![trigger corrections@[k]]
                            corrections@.contains_key(k) implies corrections@[k]
                                == if k.0 == who && exists|j: int|
                                0 <= j < i + 1 && #[trigger] self.denom_corrections.has_key_at(
                                    k.1,
                                    j,
                                ) {
                                joined(pools[k.1].points_per_weight, weight)
                            } else {
                                start[k]
                            } by {
                            if k.0 == who && k.1 == d {
                                assert(self.denom_corrections.has_key_at(k.1, i as int));
                            } else {
                                assert(before.contains_key(k));
                                if k.0 == who && exists|j: int|
                                    0 <= j < i + 1 && #[trigger] self.denom_corrections.has_key_at(
                                        k.1,
                                        j,
                                    ) {
                                    let j = choose|j: int|
                                        0 <= j < i + 1
                                            && #[trigger] self.denom_corrections.has_key_at(k.1, j);
                                    if j == i {
                                        assert(k.1 == d);
                                    }
                                    assert(exists|j: int|
                                        0 <= j < i && #[trigger] self.denom_corrections.has_key_at(
                                            k.1,
                                            j,
                                        ));
                                }
                            }
                        }
                    }
                },
            }
            i = i + 1;
        }
        proof {
            let expected = start.union_prefer_right(joined_members(pools, who, weight));
            assert forall|k: (Seq<char>, Seq<char>)|
                #![trigger corrections@.contains_key(k)]
                corrections@.contains_key(k) <==> expected.contains_key(k) by {
                if k.0 == who && pools.contains_key(k.1) {
                    let j = choose|j: int| #[trigger] self.denom_corrections.has_key_at(k.1, j);
                    assert(self.denom_corrections.has_key_at(k.1, j));
                }
            }
            assert forall|k: (Seq<char>, Seq<char>)|
                #![trigger corrections@[k]]
                corrections@.contains_key(k) implies corrections@[k] == expected[k] by {
                if k.0 == who && pools.contains_key(k.1) {
                    let j = choose|j: int| #[trigger] self.denom_corrections.has_key_at(k.1, j);
                    assert(self.denom_corrections.has_key_at(k.1, j));
                }
            }
            assert(corrections@ =~= expected);
            assert forall|d: Seq<char>|
                #[trigger] pools.contains_key(d) implies !join_aborts(pools[d].points_per_weight, weight) by {
                let j = choose|j: int| #[trigger] self.denom_corrections.has_key_at(d, j);
                self.denom_corrections.lemma_value_at(d, j);
                assert(!join_aborts(self.denom_corrections.entries@[j].1.points_per_weight, weight));
            }
        }
        self.corrections = corrections;
        self.total_weight = total;
        Ok(())
    }

    /// A member (`sender_is_member`: the membership contract lists `sender`) of
    /// `weight` takes its whole share of every denom the pool holds (`balances`,
    /// the pool's balance), and its weight changes by `diff`, which moves the total
    /// weight too. Returns what it takes, per denom of the balance.
    pub fn withdraw(
        &mut self,
        sender: &String,
        sender_is_member: bool,
        weight: u64,
        diff: i64,
        balances: &Vec<Coin>,
    ) -> (r: Result<Vec<Coin>, ContractError>)
        requires
            old(self).wf(),
        ensures
            final(self).wf(),
            final(self).membership == old(self).membership,
            r is Err ==> *final(self) == *old(self),
            ({
                let books = withdrawn_books(
                    old(self).denom_corrections@,
                    old(self).corrections@,
                    sender@,
                    weight,
                    diff,
                    denoms_of(balances@),
                    balances.len() as nat,
                );
                let total = reweighted_total(old(self).total_weight, diff);
                match r {
                    Err(ContractError::Unauthorized) => !sender_is_member,
                    Err(ContractError::Aborted) => sender_is_member && (books is None || total is None),
                    Err(_) => false,
                    Ok(paid) => {
                        &&& sender_is_member
                        &&& books == Some((final(self).denom_corrections@, final(self).corrections@))
                        &&& total == Some(final(self).total_weight)
                        &&& paid.len() == balances.len()
                        &&& forall|i: int|
                            0 <= i < balances.len() ==> #[trigger] paid@[i]@ == withdrawal_payout(
                                old(self).denom_corrections@,
                                old(self).corrections@,
                                sender@,
                                weight,
                                diff,
                                denoms_of(balances@),
                                i as nat,
                            )
                    },
                }
            }),
    {
        if !sender_is_member {
            return Err(ContractError::Unauthorized);
        }
        let ghost pools0 = self.denom_corrections@;
        let ghost members0 = self.corrections@;
        let ghost denoms = denoms_of(balances@);
        let mut pools = self.denom_corrections.duplicate();
        let mut members = self.corrections.duplicate();
        let mut paid: Vec<Coin> = Vec::new();
        let mut i: usize = 0;
        while i < balances.len()
            invariant
                i <= balances.len(),
                sender_is_member,
                denoms == denoms_of(balances@),
                self.wf(),
                pools.wf(),
                members.wf(),
                *self == *old(self),
                self.total_weight == old(self).total_weight,
                self.membership == old(self).membership,
                pools0 == old(self).denom_corrections@,
                members0 == old(self).corrections@,
                withdrawn_books(pools0, members0, sender@, weight, diff, denoms, i as nat) == Some(
                    (pools@, members@),
                ),
                paid.len() == i,
                forall|j: int|
                    0 <= j < i ==> #[trigger] paid@[j]@ == withdrawal_payout(
                        pools0,
                        members0,
                        sender@,
                        weight,
                        diff,
                        denoms,
                        j as nat,
                    ),
            decreases balances.len() - i,
        {
            let denom = &balances[i].denom;
            let dc = match pools.get(denom) {
                Some(d) => *d,
                None => DenomCorrection::default(),
            };
            let key = (sender.clone(), denom.clone());
            let c = match members.get(&key) {
                Some(c) => *c,
                None => Correction::default(),
            };
            assert(denoms[i as int] == balances@[i as int].denom@);
            match withdraw_denom(dc, c, weight, diff) {
                None => {
                    proof {
                        assert(pool_of(pools@, denoms[i as int]) == dc);
                        assert(member_of(members@, (sender@, denoms[i as int])) == c);
                        assert(withdraw_denom_aborts(dc, c, weight, diff));
                        assert(withdrawn_books(pools0, members0, sender@, weight, diff, denoms, (i + 1) as nat) is None);
                        lemma_withdrawn_none_stays(
                            pools0,
                            members0,
                            sender@,
                            weight,
                            diff,
                            denoms,
                            (i + 1) as nat,
                            balances.len() as nat,
                        );
                    }
                    return Err(ContractError::Aborted);
                },
                Some((ndc, nc, amount)) => {
                    pools.insert(denom.clone(), ndc);
                    members.insert(key, nc);
                    paid.push(Coin { denom: denom.clone(), amount });
                },
            }
            i = i + 1;
        }
        proof {
            lemma_signed_casts(self.total_weight, diff);
        }
        let sum = match (self.total_weight as i128).checked_add(diff as i128) {
            Some(x) => x,
            None => return Err(ContractError::Aborted),
        };
        self.denom_corrections = pools;
        self.corrections = members;
        self.total_weight = sum as u128;
        Ok(paid)
    }

    /// What the member `proxy` of `weight` may withdraw now, per denom of the
    /// pool's balance (`balances`), without the denoms where it is zero.
    pub fn withdrawable(&self, proxy: &String, weight: u64, balances: &Vec<Coin>) -> (r: Result<
        Vec<Coin>,
        ContractError,
    >)
        requires
            self.wf(),
        ensures
            ({
                let expected = withdrawable_funds(
                    self.denom_corrections@,
                    self.corrections@,
                    proxy@,
                    weight,
                    denoms_of(balances@),
                    balances.len() as nat,
                );
                match r {
                    Err(e) => e == ContractError::Aborted && expected is None,
                    Ok(funds) => expected == Some(coins_view(funds@)),
                }
            }),
    {
        let ghost denoms = denoms_of(balances@);
        let mut funds: Vec<Coin> = Vec::new();
        let mut i: usize = 0;
        while i < balances.len()
            invariant
                i <= balances.len(),
                denoms == denoms_of(balances@),
                self.wf(),
                withdrawable_funds(
                    self.denom_corrections@,
                    self.corrections@,
                    proxy@,
                    weight,
                    denoms,
                    i as nat,
                ) == Some(coins_view(funds@)),
            decreases balances.len() - i,
        {
            let denom = &balances[i].denom;
            let dc = match self.denom_corrections.get(denom) {
                Some(d) => *d,
                None => DenomCorrection::default(),
            };
            let key = (proxy.clone(), denom.clone());
            let c = match self.corrections.get(&key) {
                Some(c) => *c,
                None => Correction::default(),
            };
            assert(denoms[i as int] == balances@[i as int].denom@);
            match owed_amount(dc, c, weight) {
                None => {
                    proof {
                        lemma_withdrawable_none_stays(
                            self.denom_corrections@,
                            self.corrections@,
                            proxy@,
                            weight,
                            denoms,
                            (i + 1) as nat,
                            balances.len() as nat,
                        );
                    }
                    return Err(ContractError::Aborted);
                },
                Some(amount) => {
                    if amount != 0 {
                        let ghost before = funds@;
                        funds.push(Coin { denom: denom.clone(), amount });
                        assert(coins_view(funds@) =~= coins_view(before).push((denoms[i as int], amount)));
                    }
                },
            }
            i = i + 1;
        }
        Ok(funds)
    }
}

// ---------------------------------------------------------------------------
// Laws
// ---------------------------------------------------------------------------

/// `d` is one of the first `n` denoms.
pub open spec fn among_first(denoms: Seq<Seq<char>>, n: int, d: Seq<char>) -> bool {
    exists|i: int| 0 <= i < n && denoms[i] == d
}

/// Reading the member's points before and after a weight change by `diff` does
/// not wrap.
pub open spec fn reads_without_wrap(dc: DenomCorrection, c: Correction, weight: u64, diff: i64) -> bool {
    &&& 0 <= weight + diff <= u64::MAX
    &&& dc.points_per_weight <= i64::MAX
    &&& dc.points_per_weight * weight <= i128::MAX
    &&& dc.points_per_weight * (weight + diff) <= i128::MAX
    &&& dc.points_per_weight * weight + c.points_correction >= 0
}

/// How the books stand at `d` after the member `who` withdrew: changed once from
/// the initial books if `withdrawn`, as initially otherwise.
pub open spec fn settled(
    pools: Map<Seq<char>, DenomCorrection>,
    members: Map<(Seq<char>, Seq<char>), Correction>,
    who: Seq<char>,
    weight: u64,
    diff: i64,
    p: Map<Seq<char>, DenomCorrection>,
    m: Map<(Seq<char>, Seq<char>), Correction>,
    d: Seq<char>,
    withdrawn: bool,
) -> bool {
    let dc = pool_of(pools, d);
    let c = member_of(members, (who, d));
    if withdrawn {
        &&& !withdraw_denom_aborts(dc, c, weight, diff)
        &&& pool_of(p, d) == pool_after_withdraw(dc, owed(dc, c, weight))
        &&& member_of(m, (who, d)) == member_after_withdraw(dc, c, owed(dc, c, weight), diff)
    } else {
        &&& pool_of(p, d) == dc
        &&& member_of(m, (who, d)) == c
    }
}

proof fn lemma_books_per_denom(
    pools: Map<Seq<char>, DenomCorrection>,
    members: Map<(Seq<char>, Seq<char>), Correction>,
    who: Seq<char>,
    weight: u64,
    diff: i64,
    denoms: Seq<Seq<char>>,
    n: nat,
)
    requires
        denoms.no_duplicates(),
        n <= denoms.len(),
        withdrawn_books(pools, members, who, weight, diff, denoms, n) is Some,
    ensures
        ({
            let (p, m) = withdrawn_books(pools, members, who, weight, diff, denoms, n).unwrap();
            forall|d: Seq<char>|
                #[trigger] settled(pools, members, who, weight, diff, p, m, d, among_first(denoms, n as int, d))
        }),
    decreases n,
{
    let (p, m) = withdrawn_books(pools, members, who, weight, diff, denoms, n).unwrap();
    if n == 0 {
        assert forall|d: Seq<char>|
            #[trigger] settled(pools, members, who, weight, diff, p, m, d, among_first(denoms, n as int, d)) by {
            assert(!among_first(denoms, 0, d));
        }
    } else {
        let k = (n - 1) as nat;
        lemma_books_per_denom(pools, members, who, weight, diff, denoms, k);
        let (p0, m0) = withdrawn_books(pools, members, who, weight, diff, denoms, k).unwrap();
        let dn = denoms[k as int];
        assert(!among_first(denoms, k as int, dn)) by {
            if among_first(denoms, k as int, dn) {
                let i = choose|i: int| 0 <= i < k && denoms[i] == dn;
                assert(denoms[i] == denoms[k as int]);
            }
        }
        assert(settled(pools, members, who, weight, diff, p0, m0, dn, among_first(denoms, k as int, dn)));
        assert forall|d: Seq<char>|
            #[trigger] settled(pools, members, who, weight, diff, p, m, d, among_first(denoms, n as int, d)) by {
            assert(settled(pools, members, who, weight, diff, p0, m0, d, among_first(denoms, k as int, d)));
            if d != dn {
                assert((who, d) != (who, dn));
                if among_first(denoms, n as int, d) {
                    let i = choose|i: int| 0 <= i < n && denoms[i] == d;
                    assert(among_first(denoms, k as int, d));
                } else {
                    assert(!among_first(denoms, k as int, d));
                }
            } else {
                assert(among_first(denoms, n as int, d));
            }
        }
    }
}

/// After a member withdraws in every denom of the pool's balance (no denom twice)
/// and its weight changes by `diff`, nothing more is withdrawable for it at the new
/// weight. Stated where its points are read without wrapping.
pub proof fn lemma_nothing_withdrawable_after_withdrawing(
    pools: Map<Seq<char>, DenomCorrection>,
    members: Map<(Seq<char>, Seq<char>), Correction>,
    who: Seq<char>,
    weight: u64,
    diff: i64,
    denoms: Seq<Seq<char>>,
)
    requires
        denoms.no_duplicates(),
        withdrawn_books(pools, members, who, weight, diff, denoms, denoms.len()) is Some,
        forall|i: int|
            0 <= i < denoms.len() ==> reads_without_wrap(
                #[trigger] pool_of(pools, denoms[i]),
                member_of(members, (who, denoms[i])),
                weight,
                diff,
            ),
    ensures
        ({
            let (p, m) = withdrawn_books(pools, members, who, weight, diff, denoms, denoms.len()).unwrap();
            withdrawable_funds(p, m, who, (weight + diff) as u64, denoms, denoms.len())
                == Some(Seq::<(Seq<char>, u128)>::empty())
        }),
{
    lemma_books_per_denom(pools, members, who, weight, diff, denoms, denoms.len());
    let (p, m) = withdrawn_books(pools, members, who, weight, diff, denoms, denoms.len()).unwrap();
    lemma_nothing_withdrawable_prefix(pools, members, who, weight, diff, denoms, p, m, denoms.len());
}

proof fn lemma_nothing_withdrawable_prefix(
    pools: Map<Seq<char>, DenomCorrection>,
    members: Map<(Seq<char>, Seq<char>), Correction>,
    who: Seq<char>,
    weight: u64,
    diff: i64,
    denoms: Seq<Seq<char>>,
    p: Map<Seq<char>, DenomCorrection>,
    m: Map<(Seq<char>, Seq<char>), Correction>,
    n: nat,
)
    requires
        n <= denoms.len(),
        forall|i: int|
            0 <= i < denoms.len() ==> reads_without_wrap(
                #[trigger] pool_of(pools, denoms[i]),
                member_of(members, (who, denoms[i])),
                weight,
                diff,
            ),
        forall|d: Seq<char>|
            #[trigger] settled(pools, members, who, weight, diff, p, m, d, among_first(denoms, denoms.len() as int, d)),
    ensures
        withdrawable_funds(p, m, who, (weight + diff) as u64, denoms, n) == Some(
            Seq::<(Seq<char>, u128)>::empty(),
        ),
    decreases n,
{
    if n > 0 {
        let k = (n - 1) as nat;
        lemma_nothing_withdrawable_prefix(pools, members, who, weight, diff, denoms, p, m, k);
        let d = denoms[k as int];
        assert(among_first(denoms, denoms.len() as int, d));
        assert(settled(pools, members, who, weight, diff, p, m, d, among_first(denoms, denoms.len() as int, d)));
        let dc = pool_of(pools, d);
        let c = member_of(members, (who, d));
        assert(reads_without_wrap(pool_of(pools, denoms[k as int]), member_of(members, (who, denoms[k as int])), weight, diff));
        lemma_withdrawn_owes_nothing(dc, c, weight, diff);
    }
}

/// A member that has just joined with `weight` can withdraw nothing, in any denom
/// where it had no bookkeeping before, as long as the points handed out before
/// fit in `i64`.
pub proof fn lemma_nothing_withdrawable_after_joining(
    pools: Map<Seq<char>, DenomCorrection>,
    members: Map<(Seq<char>, Seq<char>), Correction>,
    who: Seq<char>,
    weight: u64,
    denoms: Seq<Seq<char>>,
    n: nat,
)
    requires
        n <= denoms.len(),
        !join_aborts_somewhere(pools, weight),
        forall|d: Seq<char>|
            #[trigger] pools.contains_key(d) ==> pools[d].points_per_weight * weight <= i64::MAX,
        forall|i: int|
            0 <= i < denoms.len() && !pools.contains_key(#[trigger] denoms[i])
                ==> !members.contains_key((who, denoms[i])),
    ensures
        withdrawable_funds(
            pools,
            members.union_prefer_right(joined_members(pools, who, weight)),
            who,
            weight,
            denoms,
            n,
        ) == Some(Seq::<(Seq<char>, u128)>::empty()),
    decreases n,
{
    if n > 0 {
        let k = (n - 1) as nat;
        lemma_nothing_withdrawable_after_joining(pools, members, who, weight, denoms, k);
        let d = denoms[k as int];
        let all = members.union_prefer_right(joined_members(pools, who, weight));
        if pools.contains_key(d) {
            assert(!join_aborts(pools[d].points_per_weight, weight));
            assert(joined_members(pools, who, weight).contains_key((who, d)));
            lemma_joined_owes_nothing(pools[d], weight);
            assert(member_of(all, (who, d)) == joined(pools[d].points_per_weight, weight));
        } else {
            assert(!joined_members(pools, who, weight).contains_key((who, d)));
            assert(!all.contains_key((who, d)));
        }
    }
}


/// The denoms and amounts of `funds` without those of amount zero, in order.
pub open spec fn drop_zeros(funds: Seq<(Seq<char>, u128)>) -> Seq<(Seq<char>, u128)>
    decreases funds.len(),
{
    if funds.len() == 0 {
        funds
    } else if funds.last().1 == 0 {
        drop_zeros(funds.drop_last())
    } else {
        drop_zeros(funds.drop_last()).push(funds.last())
    }
}

/// What a withdrawal pays in the first `n` denoms, in their order.
pub open spec fn withdrawal_payouts(
    pools: Map<Seq<char>, DenomCorrection>,
    members: Map<(Seq<char>, Seq<char>), Correction>,
    who: Seq<char>,
    weight: u64,
    diff: i64,
    denoms: Seq<Seq<char>>,
    n: nat,
) -> Seq<(Seq<char>, u128)> {
    Seq::new(n, |i: int| withdrawal_payout(pools, members, who, weight, diff, denoms, i as nat))
}

proof fn lemma_withdrawn_some_before(
    pools: Map<Seq<char>, DenomCorrection>,
    members: Map<(Seq<char>, Seq<char>), Correction>,
    who: Seq<char>,
    weight: u64,
    diff: i64,
    denoms: Seq<Seq<char>>,
    i: nat,
    n: nat,
)
    requires
        i <= n,
        withdrawn_books(pools, members, who, weight, diff, denoms, n) is Some,
    ensures
        withdrawn_books(pools, members, who, weight, diff, denoms, i) is Some,
{
    if withdrawn_books(pools, members, who, weight, diff, denoms, i) is None {
        lemma_withdrawn_none_stays(pools, members, who, weight, diff, denoms, i, n);
    }
}

/// A withdrawal pays exactly what the pool reports as withdrawable just before
/// it: in the denoms of the pool's balance (no denom twice), the payments, less
/// those of nothing, are the reported funds, same denoms, amounts and order.
pub proof fn lemma_withdrawal_pays_what_is_withdrawable(
    pools: Map<Seq<char>, DenomCorrection>,
    members: Map<(Seq<char>, Seq<char>), Correction>,
    who: Seq<char>,
    weight: u64,
    diff: i64,
    denoms: Seq<Seq<char>>,
    n: nat,
)
    requires
        denoms.no_duplicates(),
        n <= denoms.len(),
        withdrawn_books(pools, members, who, weight, diff, denoms, n) is Some,
    ensures
        withdrawable_funds(pools, members, who, weight, denoms, n) == Some(
            drop_zeros(withdrawal_payouts(pools, members, who, weight, diff, denoms, n)),
        ),
    decreases n,
{
    let payouts = withdrawal_payouts(pools, members, who, weight, diff, denoms, n);
    if n == 0 {
        assert(payouts.len() == 0);
    } else {
        let k = (n - 1) as nat;
        lemma_withdrawn_some_before(pools, members, who, weight, diff, denoms, k, n);
        lemma_withdrawal_pays_what_is_withdrawable(pools, members, who, weight, diff, denoms, k);
        lemma_books_per_denom(pools, members, who, weight, diff, denoms, k);
        let (p, m) = withdrawn_books(pools, members, who, weight, diff, denoms, k).unwrap();
        let d = denoms[k as int];
        assert(!among_first(denoms, k as int, d)) by {
            if among_first(denoms, k as int, d) {
                let i = choose|i: int| 0 <= i < k && denoms[i] == d;
                assert(denoms[i] == denoms[k as int]);
            }
        }
        assert(settled(pools, members, who, weight, diff, p, m, d, among_first(denoms, k as int, d)));
        let dc = pool_of(pools, d);
        let c = member_of(members, (who, d));
        assert(!withdraw_denom_aborts(dc, c, weight, diff));
        assert(payouts.drop_last() =~= withdrawal_payouts(pools, members, who, weight, diff, denoms, k));
        assert(payouts.last() == (d, owed(dc, c, weight) as u128));
    }
}


/// The amount of `denom` in `funds`, zero where it is absent.
pub open spec fn amount_in(funds: Seq<(Seq<char>, u128)>, denom: Seq<char>) -> int
    decreases funds.len(),
{
    if funds.len() == 0 {
        0
    } else if funds.last().0 == denom {
        funds.last().1 as int
    } else {
        amount_in(funds.drop_last(), denom)
    }
}

proof fn lemma_withdrawable_amount(
    pools: Map<Seq<char>, DenomCorrection>,
    members: Map<(Seq<char>, Seq<char>), Correction>,
    who: Seq<char>,
    weight: u64,
    denoms: Seq<Seq<char>>,
    n: nat,
    d: Seq<char>,
)
    requires
        denoms.no_duplicates(),
        n <= denoms.len(),
        withdrawable_funds(pools, members, who, weight, denoms, n) is Some,
    ensures
        amount_in(withdrawable_funds(pools, members, who, weight, denoms, n).unwrap(), d) == if among_first(
            denoms,
            n as int,
            d,
        ) {
            owed(pool_of(pools, d), member_of(members, (who, d)), weight)
        } else {
            0
        },
        among_first(denoms, n as int, d) ==> owed_defined(
            pool_of(pools, d),
            member_of(members, (who, d)),
            weight,
        ),
    decreases n,
{
    if n == 0 {
        assert(!among_first(denoms, 0, d));
    } else {
        let k = (n - 1) as nat;
        if withdrawable_funds(pools, members, who, weight, denoms, k) is None {
            lemma_withdrawable_none_stays(pools, members, who, weight, denoms, k, n);
        }
        lemma_withdrawable_amount(pools, members, who, weight, denoms, k, d);
        let dk = denoms[k as int];
        let s = withdrawable_funds(pools, members, who, weight, denoms, k).unwrap();
        let dc = pool_of(pools, dk);
        let c = member_of(members, (who, dk));
        if d == dk {
            assert(!among_first(denoms, k as int, d)) by {
                if among_first(denoms, k as int, d) {
                    let i = choose|i: int| 0 <= i < k && denoms[i] == d;
                    assert(denoms[i] == denoms[k as int]);
                }
            }
            assert(among_first(denoms, n as int, d));
            if owed(dc, c, weight) != 0 {
                assert(s.push((dk, owed(dc, c, weight) as u128)).drop_last() =~= s);
            }
        } else {
            if among_first(denoms, n as int, d) {
                let i = choose|i: int| 0 <= i < n && denoms[i] == d;
                assert(among_first(denoms, k as int, d));
            }
            if among_first(denoms, k as int, d) {
                let i = choose|i: int| 0 <= i < k && denoms[i] == d;
                assert(among_first(denoms, n as int, d));
            }
            if owed(dc, c, weight) != 0 {
                assert(s.push((dk, owed(dc, c, weight) as u128)).drop_last() =~= s);
            }
        }
    }
}

/// What a member may withdraw grows with its weight: on the same books, for every
/// denom, the amount reported at a larger weight is at least the amount reported
/// at a smaller one (zero where a denom is absent). Stated where the balance has
/// no denom twice and, in each denom, the member's points between the two weights
/// stay between zero and `u128::MAX`.
pub proof fn lemma_withdrawable_grows_with_weight(
    pools: Map<Seq<char>, DenomCorrection>,
    members: Map<(Seq<char>, Seq<char>), Correction>,
    who: Seq<char>,
    w1: u64,
    w2: u64,
    denoms: Seq<Seq<char>>,
    d: Seq<char>,
)
    requires
        denoms.no_duplicates(),
        w1 <= w2,
        withdrawable_funds(pools, members, who, w1, denoms, denoms.len()) is Some,
        withdrawable_funds(pools, members, who, w2, denoms, denoms.len()) is Some,
        forall|i: int|
            0 <= i < denoms.len() ==> reads_in_range(
                #[trigger] pool_of(pools, denoms[i]),
                member_of(members, (who, denoms[i])),
                w1,
                w2,
            ),
    ensures
        amount_in(withdrawable_funds(pools, members, who, w1, denoms, denoms.len()).unwrap(), d)
            <= amount_in(withdrawable_funds(pools, members, who, w2, denoms, denoms.len()).unwrap(), d),
{
    lemma_withdrawable_amount(pools, members, who, w1, denoms, denoms.len(), d);
    lemma_withdrawable_amount(pools, members, who, w2, denoms, denoms.len(), d);
    if among_first(denoms, denoms.len() as int, d) {
        let i = choose|i: int| 0 <= i < denoms.len() && denoms[i] == d;
        assert(reads_in_range(pool_of(pools, denoms[i]), member_of(members, (who, denoms[i])), w1, w2));
        lemma_owed_grows_with_weight(pool_of(pools, d), member_of(members, (who, d)), w1, w2);
    }
}

/// One distribution hands a member at most its weight share, as the pool reports
/// it: in a denom `d` the pool has no bookkeeping for, after one distribution of a
/// coin of `d` at balance `balance` over `total_weight`, a member with no
/// bookkeeping in `d` may withdraw `(weight * (balance * POINTS_SCALE /
/// total_weight)) / POINTS_SCALE` of it (reported where that is not zero), and that
/// times the total weight is at most `balance` times its weight.
pub proof fn lemma_withdrawable_at_most_weight_share(
    total_weight: u128,
    pools: Map<Seq<char>, DenomCorrection>,
    members: Map<(Seq<char>, Seq<char>), Correction>,
    who: Seq<char>,
    weight: u64,
    d: Seq<char>,
    balance: u128,
    denoms: Seq<Seq<char>>,
)
    requires
        !pools.contains_key(d),
        !members.contains_key((who, d)),
        distributed_pools(total_weight, pools, seq![d], seq![balance], 1) is Some,
        denoms.no_duplicates(),
        denoms.contains(d),
        withdrawable_funds(
            distributed_pools(total_weight, pools, seq![d], seq![balance], 1).unwrap(),
            members,
            who,
            weight,
            denoms,
            denoms.len(),
        ) is Some,
    ensures
        ({
            let after = distributed_pools(total_weight, pools, seq![d], seq![balance], 1).unwrap();
            let funds = withdrawable_funds(after, members, who, weight, denoms, denoms.len()).unwrap();
            &&& amount_in(funds, d) == (weight * ((balance * POINTS_SCALE) / (total_weight as int))) / (
            POINTS_SCALE as int)
            &&& amount_in(funds, d) * total_weight <= balance * weight
        }),
{
    let after = distributed_pools(total_weight, pools, seq![d], seq![balance], 1).unwrap();
    assert(distributed_pools(total_weight, pools, seq![d], seq![balance], 0) == Some(pools));
    assert(pool_of(pools, d) == zero_denom_correction());
    assert(!distribute_aborts(total_weight, zero_denom_correction(), balance));
    assert(pool_of(after, d) == distributed(total_weight, zero_denom_correction(), balance));
    assert(member_of(members, (who, d)) == zero_correction());
    let i = choose|i: int| 0 <= i < denoms.len() && denoms[i] == d;
    assert(among_first(denoms, denoms.len() as int, d));
    lemma_withdrawable_amount(after, members, who, weight, denoms, denoms.len(), d);
    lemma_share_at_most_weight_share(total_weight, balance, weight);
}


/// A change of weight that reaches both a member's proxy and the pool: the
/// member at `member` moves its weight by `diff` (a withdrawal or a forced
/// update, each of which sends the pool its weight and `diff`), or a new member
/// joins with `weight`.
pub enum WeightStep {
    Reweigh { member: u64, diff: i64 },
    Join { weight: u64 },
}

/// The members' weights after the steps, one after the other.
pub open spec fn weights_after(weights: Seq<u64>, steps: Seq<WeightStep>) -> Seq<u64>
    decreases steps.len(),
{
    if steps.len() == 0 {
        weights
    } else {
        let prev = weights_after(weights, steps.drop_last());
        match steps.last() {
            WeightStep::Reweigh { member, diff } => prev.update(
                member as int,
                (prev[member as int] + diff) as u64,
            ),
            WeightStep::Join { weight } => prev.push(weight),
        }
    }
}

/// The pool's total weight after the steps: a change of weight moves it as
/// `withdraw` does, a new member adds its weight as `new_member` does; `None`
/// where the pool aborts.
pub open spec fn total_after(total: u128, steps: Seq<WeightStep>) -> Option<u128>
    decreases steps.len(),
{
    if steps.len() == 0 {
        Some(total)
    } else {
        match total_after(total, steps.drop_last()) {
            None => None,
            Some(t) => match steps.last() {
                WeightStep::Reweigh { member, diff } => reweighted_total(t, diff),
                WeightStep::Join { weight } => if t + weight <= u128::MAX {
                    Some((t + weight) as u128)
                } else {
                    None
                },
            },
        }
    }
}

/// Each step names a member that exists, and its new weight fits `u64`.
pub open spec fn steps_valid(weights: Seq<u64>, steps: Seq<WeightStep>) -> bool
    decreases steps.len(),
{
    if steps.len() == 0 {
        true
    } else {
        &&& steps_valid(weights, steps.drop_last())
        &&& match steps.last() {
            WeightStep::Reweigh { member, diff } => {
                let prev = weights_after(weights, steps.drop_last());
                member < prev.len() && 0 <= prev[member as int] + diff <= u64::MAX
            },
            WeightStep::Join { weight } => true,
        }
    }
}

proof fn lemma_sum_weights_update(weights: Seq<u64>, i: int, v: u64)
    requires
        0 <= i < weights.len(),
    ensures
        sum_weights(weights.update(i, v)) == sum_weights(weights) - weights[i] + v,
    decreases weights.len(),
{
    let u = weights.update(i, v);
    if i == weights.len() - 1 {
        assert(u.drop_last() =~= weights.drop_last());
    } else {
        assert(u.drop_last() =~= weights.drop_last().update(i, v));
        lemma_sum_weights_update(weights.drop_last(), i, v);
    }
}

/// The pool's total weight is the sum of the members' weights: where it is so
/// (modulo 2^128, the width of the total) to begin with, as at instantiation, it
/// stays so after every sequence of weight changes and joins that the pool accepts.
/// Where the weights sum to less than 2^128 the total is their sum exactly.
pub proof fn lemma_total_weight_is_sum_of_weights(total: u128, weights: Seq<u64>, steps: Seq<WeightStep>)
    requires
        total == sum_weights(weights) % 0x1_0000_0000_0000_0000_0000_0000_0000_0000int,
        steps_valid(weights, steps),
        total_after(total, steps) is Some,
    ensures
        total_after(total, steps).unwrap() == sum_weights(weights_after(weights, steps))
            % 0x1_0000_0000_0000_0000_0000_0000_0000_0000int,
    decreases steps.len(),
{
    let m = 0x1_0000_0000_0000_0000_0000_0000_0000_0000int;
    if steps.len() > 0 {
        let rest = steps.drop_last();
        lemma_total_weight_is_sum_of_weights(total, weights, rest);
        let t = total_after(total, rest).unwrap();
        let prev = weights_after(weights, rest);
        match steps.last() {
            WeightStep::Reweigh { member, diff } => {
                let i = member as int;
                lemma_sum_weights_update(prev, i, (prev[i] + diff) as u64);
                lemma_add_mod_noop_right(diff as int, sum_weights(prev), m);
            },
            WeightStep::Join { weight } => {
                assert(prev.push(weight).drop_last() =~= prev);
                lemma_add_mod_noop_right(weight as int, sum_weights(prev), m);
            },
        }
    }
}


/// A new member joins the pool whenever, in every denom of the pool, the points
/// handed out before for its weight fit `i64`.
pub proof fn lemma_new_member_joins_everywhere(pools: Map<Seq<char>, DenomCorrection>, weight: u64)
    requires
        forall|d: Seq<char>| #[trigger] pools.contains_key(d) ==> pools[d].points_per_weight * weight <= i64::MAX,
    ensures
        !join_aborts_somewhere(pools, weight),
{
    assert forall|d: Seq<char>| #[trigger] pools.contains_key(d) implies !join_aborts(
        pools[d].points_per_weight,
        weight,
    ) by {
        lemma_join_goes_through(pools[d].points_per_weight, weight);
    }
}

} // verus!
