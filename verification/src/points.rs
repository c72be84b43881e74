//! Points accounting of the distribution pool, one denom at a time.
//!
//! Funds that reach the pool are turned into points (`POINTS_SCALE` points per
//! token) and spread over the total weight of the group: every unit of weight
//! earns `points_per_weight`. A member's share is `points_per_weight * weight`
//! shifted by its own `points_correction`, minus what it has withdrawn already.

use vstd::prelude::*;
use vstd::arithmetic::div_mod::{lemma_fundamental_div_mod, lemma_mod_pos_bound};

verus! {

/// Points per token.
pub const POINTS_SCALE: u128 = 4_000_000_000;

/// Pool-wide bookkeeping of one denom.
#[derive(Clone, Copy, Debug, PartialEq, Eq)]
pub struct DenomCorrection {
    pub points_per_weight: u128,
    pub points_leftover: u128,
    pub withdrawable_total: u128,
}

/// Bookkeeping of one member in one denom.
#[derive(Clone, Copy, Debug, PartialEq, Eq)]
pub struct Correction {
    pub points_correction: i64,
    pub withdrawn_funds: u128,
}

/// The bookkeeping of a denom that the pool has not seen yet.
pub open spec fn zero_denom_correction() -> DenomCorrection {
    DenomCorrection { points_per_weight: 0, points_leftover: 0, withdrawable_total: 0 }
}

/// The bookkeeping of a member in a denom it has no entry for yet.
pub open spec fn zero_correction() -> Correction {
    Correction { points_correction: 0, withdrawn_funds: 0 }
}

impl Default for DenomCorrection {
    fn default() -> (r: Self)
        ensures
            r == zero_denom_correction(),
    {
        DenomCorrection { points_per_weight: 0, points_leftover: 0, withdrawable_total: 0 }
    }
}

impl Default for Correction {
    fn default() -> (r: Self)
        ensures
            r == zero_correction(),
    {
        Correction { points_correction: 0, withdrawn_funds: 0 }
    }
}

// ---------------------------------------------------------------------------
// Distributing new funds
// ---------------------------------------------------------------------------

/// Tokens of a denom that arrived since the last distribution.
pub open spec fn fresh_amount(dc: DenomCorrection, balance: u128) -> int {
    balance - dc.withdrawable_total
}

/// Points to spread: the fresh tokens scaled, plus what did not divide evenly last time.
pub open spec fn fresh_points(dc: DenomCorrection, balance: u128) -> int {
    fresh_amount(dc, balance) * POINTS_SCALE + dc.points_leftover
}

/// A distribution aborts when the balance is below what is already accounted for,
/// when the points overflow, when there is no weight to spread over, or when the
/// points per weight overflow.
pub open spec fn distribute_aborts(total_weight: u128, dc: DenomCorrection, balance: u128) -> bool {
    ||| fresh_amount(dc, balance) < 0
    ||| fresh_points(dc, balance) > u128::MAX
    ||| total_weight == 0
    ||| dc.points_per_weight + fresh_points(dc, balance) / (total_weight as int) > u128::MAX
}

/// The bookkeeping after a distribution that does not abort: the points per
/// weight grow by the fresh points over the total weight, the remainder is
/// carried over, and the whole balance is now owed to the members.
pub open spec fn distributed(total_weight: u128, dc: DenomCorrection, balance: u128) -> DenomCorrection {
    DenomCorrection {
        points_per_weight: (dc.points_per_weight + fresh_points(dc, balance) / (total_weight as int)) as u128,
        points_leftover: (fresh_points(dc, balance) % (total_weight as int)) as u128,
        withdrawable_total: balance,
    }
}

/// Spreads the tokens of a denom that arrived since the last distribution over
/// `total_weight`. Returns the new bookkeeping and the fresh amount, or `None`
/// where the contract aborts.
pub fn distribute_denom(total_weight: u128, dc: DenomCorrection, balance: u128) -> (r: Option<
    (DenomCorrection, u128),
>)
    ensures
        r is None <==> distribute_aborts(total_weight, dc, balance),
        r matches Some((n, amount)) ==> {
            &&& n == distributed(total_weight, dc, balance)
            &&& amount == fresh_amount(dc, balance)
            // no point is lost: what was added is the new points per weight over the
            // whole weight plus what is carried over, and the carry is below the weight
            &&& amount * POINTS_SCALE + dc.points_leftover == (n.points_per_weight
                - dc.points_per_weight) * total_weight + n.points_leftover
            &&& n.points_leftover < total_weight
        },
{
    if balance < dc.withdrawable_total {
        return None;
    }
    let amount = balance - dc.withdrawable_total;
    let scaled = match amount.checked_mul(POINTS_SCALE) {
        Some(x) => x,
        None => return None,
    };
    let points = match scaled.checked_add(dc.points_leftover) {
        Some(x) => x,
        None => return None,
    };
    if total_weight == 0 {
        return None;
    }
    let ppw = points / total_weight;
    proof {
        lemma_fundamental_div_mod(points as int, total_weight as int);
        lemma_mod_pos_bound(points as int, total_weight as int);
        assert(ppw * total_weight == total_weight * ppw) by (nonlinear_arith);
    }
    let distributed_points = ppw * total_weight;
    let leftover = points - distributed_points;
    let new_ppw = match dc.points_per_weight.checked_add(ppw) {
        Some(x) => x,
        None => return None,
    };
    Some(
        (
            DenomCorrection {
                points_per_weight: new_ppw,
                points_leftover: leftover,
                withdrawable_total: balance,
            },
            amount,
        ),
    )
}

// ---------------------------------------------------------------------------
// What a member holds
// ---------------------------------------------------------------------------

/// `points_per_weight * weight` fits in `u128` and, read as a signed number and
/// shifted by the correction, in `i128`.
pub open spec fn held_points_defined(ppw: u128, weight: u64, pc: i64) -> bool {
    &&& ppw * weight <= u128::MAX
    &&& i128::MIN <= (((ppw * weight) as u128) as i128) + pc <= i128::MAX
}

/// The points a member of `weight` holds: `points_per_weight * weight`, taken as a
/// signed number, plus the correction, taken back as unsigned.
pub open spec fn held_points(ppw: u128, weight: u64, pc: i64) -> u128 {
    (((((ppw * weight) as u128) as i128) + pc) as i128) as u128
}

/// The member's share is defined: its points are defined and cover what it withdrew.
pub open spec fn owed_defined(dc: DenomCorrection, c: Correction, weight: u64) -> bool {
    &&& held_points_defined(dc.points_per_weight, weight, c.points_correction)
    &&& held_points(dc.points_per_weight, weight, c.points_correction) / POINTS_SCALE
        >= c.withdrawn_funds
}

/// Where the member's points, `points_per_weight * weight` plus the correction,
/// lie between zero and `u128::MAX`, reading them through `i128` gives them exactly.
pub proof fn lemma_held_points_exact(ppw: u128, weight: u64, pc: i64)
    requires
        held_points_defined(ppw, weight, pc),
        0 <= ppw * weight + pc <= u128::MAX,
    ensures
        held_points(ppw, weight, pc) == ppw * weight + pc,
{
    let a: u128 = (ppw * weight) as u128;
    assert(a == ppw * weight);
    assert((((a as i128) + pc) as i128) as u128 == a + pc) by (bit_vector)
        requires
            i128::MIN <= (a as i128) + pc <= i128::MAX,
            0 <= a + pc <= u128::MAX,
    ;
}

/// Tokens a member of `weight` may still withdraw in this denom.
pub open spec fn owed(dc: DenomCorrection, c: Correction, weight: u64) -> int {
    held_points(dc.points_per_weight, weight, c.points_correction) / POINTS_SCALE
        - c.withdrawn_funds
}

fn held_points_exec(ppw: u128, weight: u64, pc: i64) -> (r: Option<u128>)
    ensures
        r is Some <==> held_points_defined(ppw, weight, pc),
        r matches Some(p) ==> p == held_points(ppw, weight, pc),
{
    let scaled = match ppw.checked_mul(weight as u128) {
        Some(x) => x,
        None => return None,
    };
    let signed = match (scaled as i128).checked_add(pc as i128) {
        Some(x) => x,
        None => return None,
    };
    Some(signed as u128)
}

/// Tokens a member of `weight` may still withdraw in this denom, or `None` where
/// the contract aborts.
pub fn owed_amount(dc: DenomCorrection, c: Correction, weight: u64) -> (r: Option<u128>)
    ensures
        r is Some <==> owed_defined(dc, c, weight),
        r matches Some(a) ==> a == owed(dc, c, weight),
{
    let points = match held_points_exec(dc.points_per_weight, weight, c.points_correction) {
        Some(p) => p,
        None => return None,
    };
    (points / POINTS_SCALE).checked_sub(c.withdrawn_funds)
}

// ---------------------------------------------------------------------------
// Withdrawing
// ---------------------------------------------------------------------------

/// The weight change of a withdrawal, as points: `diff * points_per_weight`, the
/// latter read as `i64`.
pub open spec fn correction_shift(ppw: u128, diff: i64) -> int {
    diff * (ppw as i64)
}

/// A withdrawal of a member in this denom aborts when its share is undefined, when
/// the pool accounts for less than the share, when the withdrawn total overflows,
/// or when moving the correction by the weight change overflows `i64`.
pub open spec fn withdraw_denom_aborts(dc: DenomCorrection, c: Correction, weight: u64, diff: i64) -> bool {
    ||| !owed_defined(dc, c, weight)
    ||| dc.withdrawable_total < owed(dc, c, weight)
    ||| c.withdrawn_funds + owed(dc, c, weight) > u128::MAX
    ||| !(i64::MIN <= correction_shift(dc.points_per_weight, diff) <= i64::MAX)
    ||| !(i64::MIN <= c.points_correction - correction_shift(dc.points_per_weight, diff)
        <= i64::MAX)
}

/// The pool bookkeeping after a member withdraws `amount`.
pub open spec fn pool_after_withdraw(dc: DenomCorrection, amount: int) -> DenomCorrection {
    DenomCorrection { withdrawable_total: (dc.withdrawable_total - amount) as u128, ..dc }
}

/// The member's bookkeeping after it withdraws `amount` and its weight changes by `diff`.
pub open spec fn member_after_withdraw(dc: DenomCorrection, c: Correction, amount: int, diff: i64) -> Correction {
    Correction {
        points_correction: (c.points_correction - correction_shift(dc.points_per_weight, diff)) as i64,
        withdrawn_funds: (c.withdrawn_funds + amount) as u128,
    }
}

/// A member of `weight` takes its whole share of the denom and its weight is about
/// to change by `diff`. Returns the new pool and member bookkeeping and the amount
/// taken, or `None` where the contract aborts.
pub fn withdraw_denom(dc: DenomCorrection, c: Correction, weight: u64, diff: i64) -> (r: Option<
    (DenomCorrection, Correction, u128),
>)
    ensures
        r is None <==> withdraw_denom_aborts(dc, c, weight, diff),
        r matches Some((ndc, nc, amount)) ==> {
            &&& amount == owed(dc, c, weight)
            &&& ndc == pool_after_withdraw(dc, amount as int)
            &&& nc == member_after_withdraw(dc, c, amount as int, diff)
        },
{
    let amount = match owed_amount(dc, c, weight) {
        Some(a) => a,
        None => return None,
    };
    let withdrawable_total = match dc.withdrawable_total.checked_sub(amount) {
        Some(x) => x,
        None => return None,
    };
    let withdrawn_funds = match c.withdrawn_funds.checked_add(amount) {
        Some(x) => x,
        None => return None,
    };
    let shift = match diff.checked_mul(dc.points_per_weight as i64) {
        Some(x) => x,
        None => return None,
    };
    let points_correction = match c.points_correction.checked_sub(shift) {
        Some(x) => x,
        None => return None,
    };
    Some(
        (
            DenomCorrection { withdrawable_total, ..dc },
            Correction { points_correction, withdrawn_funds },
            amount,
        ),
    )
}

// ---------------------------------------------------------------------------
// Joining
// ---------------------------------------------------------------------------

/// A member that joins with `weight` aborts where `points_per_weight * weight`
/// overflows `u128`, or where its `i64` reading cannot be negated.
pub open spec fn join_aborts(ppw: u128, weight: u64) -> bool {
    ||| ppw * weight > u128::MAX
    ||| (((ppw * weight) as u128) as i64) == i64::MIN
}

/// The bookkeeping of a member that joins with `weight`: it owns none of the
/// points handed out before, so its correction takes them back.
pub open spec fn joined(ppw: u128, weight: u64) -> Correction {
    Correction { points_correction: (-((((ppw * weight) as u128) as i64) as int)) as i64, withdrawn_funds: 0 }
}

/// The bookkeeping of a member that joins with `weight`, or `None` where the contract aborts.
pub fn join_correction(ppw: u128, weight: u64) -> (r: Option<Correction>)
    ensures
        r is None <==> join_aborts(ppw, weight),
        r matches Some(c) ==> c == joined(ppw, weight),
{
    let scaled = match ppw.checked_mul(weight as u128) {
        Some(x) => x,
        None => return None,
    };
    let narrowed = scaled as i64;
    if narrowed == i64::MIN {
        return None;
    }
    Some(Correction { points_correction: -narrowed, withdrawn_funds: 0 })
}

// ---------------------------------------------------------------------------
// Laws
// ---------------------------------------------------------------------------

/// A member that has just joined owes nothing: its correction cancels the points
/// handed out before it joined, as long as those fit in `i64`.
pub proof fn lemma_joined_owes_nothing(dc: DenomCorrection, weight: u64)
    requires
        !join_aborts(dc.points_per_weight, weight),
        dc.points_per_weight * weight <= i64::MAX,
    ensures
        owed_defined(dc, joined(dc.points_per_weight, weight), weight),
        owed(dc, joined(dc.points_per_weight, weight), weight) == 0,
{
}

/// After a member withdraws its share and its weight changes by `diff`, it owes
/// nothing at the new weight: the correction keeps the points it held, and all of
/// them have been paid out. Stated where the points involved are read without
/// wrapping.
pub proof fn lemma_withdrawn_owes_nothing(dc: DenomCorrection, c: Correction, weight: u64, diff: i64)
    requires
        !withdraw_denom_aborts(dc, c, weight, diff),
        0 <= weight + diff <= u64::MAX,
        dc.points_per_weight <= i64::MAX,
        dc.points_per_weight * weight <= i128::MAX,
        dc.points_per_weight * (weight + diff) <= i128::MAX,
        dc.points_per_weight * weight + c.points_correction >= 0,
    ensures
        ({
            let amount = owed(dc, c, weight);
            let ndc = pool_after_withdraw(dc, amount);
            let nc = member_after_withdraw(dc, c, amount, diff);
            &&& owed_defined(ndc, nc, (weight + diff) as u64)
            &&& owed(ndc, nc, (weight + diff) as u64) == 0
        }),
{
    let ppw = dc.points_per_weight as int;
    let w2 = (weight + diff) as u64;
    assert(ppw * (weight + diff) == ppw * weight + ppw * diff) by (nonlinear_arith);
    assert(ppw * diff == diff * ppw) by (nonlinear_arith);
    assert(ppw * w2 >= 0) by (nonlinear_arith)
        requires ppw >= 0, w2 >= 0;
}

/// The sum of a list of weights.
pub open spec fn sum_weights(weights: Seq<u64>) -> int
    decreases weights.len(),
{
    if weights.len() == 0 {
        0
    } else {
        sum_weights(weights.drop_last()) + weights.last()
    }
}

/// The points handed to members of the given weights when each unit of weight
/// earns `per_weight`.
pub open spec fn sum_shares(per_weight: int, weights: Seq<u64>) -> int
    decreases weights.len(),
{
    if weights.len() == 0 {
        0
    } else {
        sum_shares(per_weight, weights.drop_last()) + per_weight * weights.last()
    }
}

proof fn lemma_sum_shares(per_weight: int, weights: Seq<u64>)
    ensures
        sum_shares(per_weight, weights) == per_weight * sum_weights(weights),
    decreases weights.len(),
{
    if weights.len() > 0 {
        lemma_sum_shares(per_weight, weights.drop_last());
        let a = sum_weights(weights.drop_last());
        let b = weights.last() as int;
        assert(per_weight * (a + b) == per_weight * a + per_weight * b) by (nonlinear_arith);
    }
}

/// A distribution splits what arrived by weight: members whose weights make up
/// the total weight are handed, together, exactly the fresh points less what is
/// carried over, and the carry is below the total weight.
pub proof fn lemma_distribution_split_by_weight(
    total_weight: u128,
    dc: DenomCorrection,
    balance: u128,
    weights: Seq<u64>,
)
    requires
        !distribute_aborts(total_weight, dc, balance),
        sum_weights(weights) == total_weight,
    ensures
        ({
            let n = distributed(total_weight, dc, balance);
            let per_weight = n.points_per_weight - dc.points_per_weight;
            &&& sum_shares(per_weight, weights) + n.points_leftover == fresh_points(dc, balance)
            &&& n.points_leftover < total_weight
        }),
{
    let p = fresh_points(dc, balance);
    let w = total_weight as int;
    lemma_fundamental_div_mod(p, w);
    lemma_mod_pos_bound(p, w);
    lemma_sum_shares(p / w, weights);
    assert((p / w) * w == w * (p / w)) by (nonlinear_arith);
}


/// Between the weights `w1` and `w2` the member's points, `points_per_weight *
/// weight` plus the correction, stay between zero and `u128::MAX`, so that reading
/// them does not wrap.
pub open spec fn reads_in_range(dc: DenomCorrection, c: Correction, w1: u64, w2: u64) -> bool {
    &&& dc.points_per_weight * w1 + c.points_correction >= 0
    &&& dc.points_per_weight * w2 + c.points_correction <= u128::MAX
}

/// A member's share grows with its weight: on the same books, where its points
/// are defined at both weights and are read without wrapping in between, a larger
/// weight owes at least as much.
pub proof fn lemma_owed_grows_with_weight(dc: DenomCorrection, c: Correction, w1: u64, w2: u64)
    requires
        w1 <= w2,
        held_points_defined(dc.points_per_weight, w1, c.points_correction),
        held_points_defined(dc.points_per_weight, w2, c.points_correction),
        reads_in_range(dc, c, w1, w2),
    ensures
        owed(dc, c, w1) <= owed(dc, c, w2),
{
    let ppw = dc.points_per_weight as int;
    assert(ppw * w1 <= ppw * w2) by (nonlinear_arith)
        requires ppw >= 0, w1 <= w2;
    assert(ppw * w1 >= 0) by (nonlinear_arith)
        requires ppw >= 0, w1 >= 0;
    let h1 = held_points(dc.points_per_weight, w1, c.points_correction);
    let h2 = held_points(dc.points_per_weight, w2, c.points_correction);
    lemma_held_points_exact(dc.points_per_weight, w1, c.points_correction);
    lemma_held_points_exact(dc.points_per_weight, w2, c.points_correction);
    assert(h1 == ppw * w1 + c.points_correction);
    assert(h2 == ppw * w2 + c.points_correction);
    assert(h1 / POINTS_SCALE <= h2 / POINTS_SCALE) by (nonlinear_arith)
        requires h1 <= h2, h1 >= 0;
}

/// One distribution hands a member at most its weight share: in a denom the pool
/// had no bookkeeping for, after one distribution of `balance` over
/// `total_weight`, a member without a correction there is owed
/// `(weight * (balance * POINTS_SCALE / total_weight)) / POINTS_SCALE`, and that
/// times the total weight is at most `balance` times its weight. Stated wherever
/// its share is defined, that is where its points fit in `u128`.
pub proof fn lemma_share_at_most_weight_share(total_weight: u128, balance: u128, weight: u64)
    requires
        !distribute_aborts(total_weight, zero_denom_correction(), balance),
        distributed(total_weight, zero_denom_correction(), balance).points_per_weight * weight
            <= u128::MAX,
    ensures
        ({
            let dc = distributed(total_weight, zero_denom_correction(), balance);
            &&& owed_defined(dc, zero_correction(), weight)
            &&& owed(dc, zero_correction(), weight) == (weight * ((balance * POINTS_SCALE) / (
            total_weight as int))) / (POINTS_SCALE as int)
            &&& owed(dc, zero_correction(), weight) * total_weight <= balance * weight
        }),
{
    let dc = distributed(total_weight, zero_denom_correction(), balance);
    let tw = total_weight as int;
    let s = POINTS_SCALE as int;
    let a = balance as int;
    let w = weight as int;
    let ppw = (a * s) / tw;
    assert(dc.points_per_weight == ppw);
    assert(ppw >= 0) by (nonlinear_arith)
        requires a >= 0, s > 0, tw > 0, ppw == (a * s) / tw;
    assert(ppw * w >= 0) by (nonlinear_arith)
        requires ppw >= 0, w >= 0;
    assert(ppw * w == w * ppw) by (nonlinear_arith);
    let held = ppw * w;
    lemma_held_points_exact(dc.points_per_weight, weight, 0);
    assert(held_points(dc.points_per_weight, weight, 0) == held);
    let q = held / s;
    assert(q >= 0) by (nonlinear_arith)
        requires held >= 0, s > 0, q == held / s;
    assert(ppw * tw <= a * s) by (nonlinear_arith)
        requires a >= 0, s > 0, tw > 0, ppw == (a * s) / tw;
    assert(q * s <= held) by (nonlinear_arith)
        requires held >= 0, s > 0, q == held / s;
    assert(q * s * tw <= held * tw) by (nonlinear_arith)
        requires q * s <= held, tw > 0;
    assert(held * tw == (ppw * tw) * w) by (nonlinear_arith)
        requires held == ppw * w;
    assert((ppw * tw) * w <= (a * s) * w) by (nonlinear_arith)
        requires ppw * tw <= a * s, w >= 0;
    assert(q * tw <= a * w) by (nonlinear_arith)
        requires q * s * tw <= (a * s) * w, s > 0;
}


// ---------------------------------------------------------------------------
// The pool's books in one denom
// ---------------------------------------------------------------------------

/// A member's points in a denom: `points_per_weight` times its weight, plus its
/// correction. `m` is the member's weight and bookkeeping.
pub open spec fn member_points(ppw: u128, m: (u64, Correction)) -> int {
    ppw * m.0 + m.1.points_correction
}

/// The points of all the members.
pub open spec fn sum_points(ppw: u128, members: Seq<(u64, Correction)>) -> int
    decreases members.len(),
{
    if members.len() == 0 {
        0
    } else {
        sum_points(ppw, members.drop_last()) + member_points(ppw, members.last())
    }
}

/// What all the members have withdrawn.
pub open spec fn sum_withdrawn(members: Seq<(u64, Correction)>) -> int
    decreases members.len(),
{
    if members.len() == 0 {
        0
    } else {
        sum_withdrawn(members.drop_last()) + members.last().1.withdrawn_funds
    }
}

/// The weight of all the members.
pub open spec fn sum_member_weights(members: Seq<(u64, Correction)>) -> int
    decreases members.len(),
{
    if members.len() == 0 {
        0
    } else {
        sum_member_weights(members.drop_last()) + members.last().0
    }
}

/// What all the members may still withdraw.
pub open spec fn sum_owed(dc: DenomCorrection, members: Seq<(u64, Correction)>) -> int
    decreases members.len(),
{
    if members.len() == 0 {
        0
    } else {
        sum_owed(dc, members.drop_last()) + owed(dc, members.last().1, members.last().0)
    }
}

/// The books of a denom balance: the members' points and the points carried over
/// are exactly the tokens the pool still accounts for and the tokens paid out,
/// in points.
pub open spec fn books_balanced(dc: DenomCorrection, members: Seq<(u64, Correction)>) -> bool {
    sum_points(dc.points_per_weight, members) + dc.points_leftover == (dc.withdrawable_total
        + sum_withdrawn(members)) * POINTS_SCALE
}

/// The books of a denom the pool has not seen yet balance, for members that have
/// no bookkeeping in it.
pub proof fn lemma_fresh_books_balanced(members: Seq<(u64, Correction)>)
    requires
        forall|j: int| 0 <= j < members.len() ==> #[trigger] members[j].1 == zero_correction(),
    ensures
        books_balanced(zero_denom_correction(), members),
        sum_points(0, members) == 0,
        sum_withdrawn(members) == 0,
    decreases members.len(),
{
    if members.len() > 0 {
        let rest = members.drop_last();
        assert forall|j: int| 0 <= j < rest.len() implies #[trigger] rest[j].1 == zero_correction() by {
            assert(rest[j] == members[j]);
        }
        lemma_fresh_books_balanced(rest);
        assert(members.last() == members[members.len() - 1]);
    }
}

proof fn lemma_sum_points_shift(p: u128, q: u128, members: Seq<(u64, Correction)>)
    ensures
        sum_points(q, members) == sum_points(p, members) + (q - p) * sum_member_weights(members),
    decreases members.len(),
{
    if members.len() > 0 {
        lemma_sum_points_shift(p, q, members.drop_last());
        let w = members.last().0 as int;
        let a = sum_member_weights(members.drop_last());
        assert(q * w == p * w + (q - p) * w) by (nonlinear_arith);
        assert((q - p) * (a + w) == (q - p) * a + (q - p) * w) by (nonlinear_arith);
    }
}

proof fn lemma_sums_update(ppw: u128, members: Seq<(u64, Correction)>, i: int, m: (u64, Correction))
    requires
        0 <= i < members.len(),
    ensures
        sum_points(ppw, members.update(i, m)) == sum_points(ppw, members) - member_points(ppw, members[i])
            + member_points(ppw, m),
        sum_withdrawn(members.update(i, m)) == sum_withdrawn(members) - members[i].1.withdrawn_funds
            + m.1.withdrawn_funds,
        sum_member_weights(members.update(i, m)) == sum_member_weights(members) - members[i].0 + m.0,
    decreases members.len(),
{
    let u = members.update(i, m);
    if i == members.len() - 1 {
        assert(u.drop_last() =~= members.drop_last());
    } else {
        assert(u.drop_last() =~= members.drop_last().update(i, m));
        lemma_sums_update(ppw, members.drop_last(), i, m);
    }
}

/// A distribution keeps the books balanced: where the members' weights make up
/// the total weight, the points it hands out and carries over are exactly the
/// fresh tokens, and the whole balance is then accounted for.
pub proof fn lemma_distribution_keeps_books_balanced(
    total_weight: u128,
    dc: DenomCorrection,
    balance: u128,
    members: Seq<(u64, Correction)>,
)
    requires
        books_balanced(dc, members),
        sum_member_weights(members) == total_weight,
        !distribute_aborts(total_weight, dc, balance),
    ensures
        books_balanced(distributed(total_weight, dc, balance), members),
{
    let n = distributed(total_weight, dc, balance);
    let fp = fresh_points(dc, balance);
    let tw = total_weight as int;
    lemma_fundamental_div_mod(fp, tw);
    lemma_mod_pos_bound(fp, tw);
    lemma_sum_points_shift(dc.points_per_weight, n.points_per_weight, members);
    assert((fp / tw) * tw == tw * (fp / tw)) by (nonlinear_arith);
    assert(fresh_amount(dc, balance) * POINTS_SCALE + (dc.withdrawable_total + sum_withdrawn(members))
        * POINTS_SCALE == (balance + sum_withdrawn(members)) * POINTS_SCALE) by (nonlinear_arith)
        requires
            fresh_amount(dc, balance) == balance - dc.withdrawable_total,
    ;
}

/// A member that joins keeps the books balanced: its correction takes back the
/// points handed out before, so it adds none. Stated where those points fit `i64`.
pub proof fn lemma_join_keeps_books_balanced(dc: DenomCorrection, members: Seq<(u64, Correction)>, weight: u64)
    requires
        books_balanced(dc, members),
        !join_aborts(dc.points_per_weight, weight),
        dc.points_per_weight * weight <= i64::MAX,
    ensures
        books_balanced(dc, members.push((weight, joined(dc.points_per_weight, weight)))),
{
    let ms = members.push((weight, joined(dc.points_per_weight, weight)));
    assert(ms.drop_last() =~= members);
    assert(dc.points_per_weight * weight >= 0) by (nonlinear_arith)
        requires dc.points_per_weight >= 0, weight >= 0;
    assert(member_points(dc.points_per_weight, ms.last()) == 0);
}

/// A withdrawal keeps the books balanced: the member's points stay as they were
/// (its correction makes up for the change of weight), and what it takes leaves
/// the pool's account and joins what was paid out. Stated where the points per
/// weight fit `i64`, as the correction reads them.
pub proof fn lemma_withdrawal_keeps_books_balanced(
    dc: DenomCorrection,
    members: Seq<(u64, Correction)>,
    i: int,
    diff: i64,
)
    requires
        books_balanced(dc, members),
        0 <= i < members.len(),
        !withdraw_denom_aborts(dc, members[i].1, members[i].0, diff),
        0 <= members[i].0 + diff <= u64::MAX,
        dc.points_per_weight <= i64::MAX,
    ensures
        ({
            let (w, c) = members[i];
            let amount = owed(dc, c, w);
            books_balanced(
                pool_after_withdraw(dc, amount),
                members.update(i, ((w + diff) as u64, member_after_withdraw(dc, c, amount, diff))),
            )
        }),
{
    let (w, c) = members[i];
    let amount = owed(dc, c, w);
    let m = ((w + diff) as u64, member_after_withdraw(dc, c, amount, diff));
    lemma_sums_update(dc.points_per_weight, members, i, m);
    let ppw = dc.points_per_weight as int;
    assert(ppw * (w + diff) == ppw * w + diff * ppw) by (nonlinear_arith);
    assert(member_points(dc.points_per_weight, m) == member_points(dc.points_per_weight, members[i]));
    assert(owed_defined(dc, c, w));
    assert((dc.withdrawable_total - amount + sum_withdrawn(members) + amount) * POINTS_SCALE == (
    dc.withdrawable_total + sum_withdrawn(members)) * POINTS_SCALE);
}

proof fn lemma_sum_owed_scaled(dc: DenomCorrection, members: Seq<(u64, Correction)>)
    requires
        forall|j: int|
            0 <= j < members.len() ==> held_points_defined(
                dc.points_per_weight,
                #[trigger] members[j].0,
                members[j].1.points_correction,
            ) && 0 <= member_points(dc.points_per_weight, members[j]) <= u128::MAX,
    ensures
        sum_owed(dc, members) * POINTS_SCALE <= sum_points(dc.points_per_weight, members) - sum_withdrawn(
            members,
        ) * POINTS_SCALE,
    decreases members.len(),
{
    if members.len() > 0 {
        let rest = members.drop_last();
        assert forall|j: int| 0 <= j < rest.len() implies held_points_defined(
            dc.points_per_weight,
            #[trigger] rest[j].0,
            rest[j].1.points_correction,
        ) && 0 <= member_points(dc.points_per_weight, rest[j]) <= u128::MAX by {
            assert(rest[j] == members[j]);
        }
        lemma_sum_owed_scaled(dc, rest);
        let last = members.last();
        assert(last == members[members.len() - 1]);
        lemma_held_points_exact(dc.points_per_weight, last.0, last.1.points_correction);
        let x = member_points(dc.points_per_weight, last);
        let s = POINTS_SCALE as int;
        assert((x / s) * s <= x) by (nonlinear_arith)
            requires x >= 0, s > 0;
        let o = owed(dc, last.1, last.0);
        let wd = last.1.withdrawn_funds as int;
        assert(o * s == (x / s) * s - wd * s) by (nonlinear_arith)
            requires o == x / s - wd;
        let a = sum_owed(dc, rest);
        let b = sum_withdrawn(rest);
        assert((a + o) * s == a * s + o * s) by (nonlinear_arith);
        assert((b + wd) * s == b * s + wd * s) by (nonlinear_arith);
    }
}

/// The pool never owes more than it holds: where the books of a denom balance,
/// everything its members may still withdraw together is at most what the pool
/// accounts for in that denom. Stated where each member's points are defined and
/// between zero and `u128::MAX`.
pub proof fn lemma_pool_owes_at_most_what_it_holds(dc: DenomCorrection, members: Seq<(u64, Correction)>)
    requires
        books_balanced(dc, members),
        forall|j: int|
            0 <= j < members.len() ==> held_points_defined(
                dc.points_per_weight,
                #[trigger] members[j].0,
                members[j].1.points_correction,
            ) && 0 <= member_points(dc.points_per_weight, members[j]) <= u128::MAX,
    ensures
        sum_owed(dc, members) <= dc.withdrawable_total,
{
    lemma_sum_owed_scaled(dc, members);
    let s = POINTS_SCALE as int;
    let t = dc.withdrawable_total as int;
    let sw = sum_withdrawn(members);
    assert((t + sw) * s == t * s + sw * s) by (nonlinear_arith);
    let so = sum_owed(dc, members);
    assert(so <= t) by (nonlinear_arith)
        requires so * s <= t * s, s > 0;
}


// ---------------------------------------------------------------------------
// When the operations go through
// ---------------------------------------------------------------------------

/// A distribution goes through exactly when the balance covers what is already
/// owed, there is weight to spread over, and the fresh points and the new points
/// per weight fit `u128`; no other bound is put on the fresh amount. It then adds
/// the fresh tokens in points, plus the carry, divided by the total weight, to the
/// points per weight, carries the remainder, and owes the whole balance.
pub proof fn lemma_distribution_goes_through(total_weight: u128, dc: DenomCorrection, balance: u128)
    ensures
        !distribute_aborts(total_weight, dc, balance) <==> {
            &&& balance >= dc.withdrawable_total
            &&& total_weight > 0
            &&& (balance - dc.withdrawable_total) * 4_000_000_000 + dc.points_leftover <= u128::MAX
            &&& dc.points_per_weight + ((balance - dc.withdrawable_total) * 4_000_000_000
                + dc.points_leftover) / (total_weight as int) <= u128::MAX
        },
        !distribute_aborts(total_weight, dc, balance) ==> ({
            let points = (balance - dc.withdrawable_total) * 4_000_000_000 + dc.points_leftover;
            let n = distributed(total_weight, dc, balance);
            &&& n.points_per_weight == dc.points_per_weight + points / (total_weight as int)
            &&& n.points_leftover == points % (total_weight as int)
            &&& n.withdrawable_total == balance
        }),
{
}

/// A withdrawal in a denom goes through exactly when the member's share is
/// defined and covered by what the pool accounts for, its withdrawn total plus the
/// share fits `u128`, and the weight change times the points per weight (read as
/// `i64`) and the correction less that fit `i64`. The new correction may be
/// negative, as after a weight increase or for a member that joined late. The
/// member is then paid its share, its correction moves by the change, and the
/// pool's account drops by the share.
pub proof fn lemma_withdrawal_goes_through(dc: DenomCorrection, c: Correction, weight: u64, diff: i64)
    ensures
        !withdraw_denom_aborts(dc, c, weight, diff) <==> {
            &&& owed_defined(dc, c, weight)
            &&& owed(dc, c, weight) <= dc.withdrawable_total
            &&& c.withdrawn_funds + owed(dc, c, weight) <= u128::MAX
            &&& i64::MIN <= diff * (dc.points_per_weight as i64) <= i64::MAX
            &&& i64::MIN <= c.points_correction - diff * (dc.points_per_weight as i64) <= i64::MAX
        },
        !withdraw_denom_aborts(dc, c, weight, diff) ==> ({
            let amount = owed(dc, c, weight);
            let nc = member_after_withdraw(dc, c, amount, diff);
            let ndc = pool_after_withdraw(dc, amount);
            &&& nc.points_correction == c.points_correction - diff * (dc.points_per_weight as i64)
            &&& nc.withdrawn_funds == c.withdrawn_funds + amount
            &&& ndc.withdrawable_total == dc.withdrawable_total - amount
            &&& ndc.points_per_weight == dc.points_per_weight
            &&& ndc.points_leftover == dc.points_leftover
        }),
{
}

/// A member's share, where its points lie between zero and `u128::MAX`, is its
/// points over `POINTS_SCALE`, rounded down, less what it has withdrawn; it is
/// defined exactly where that is not negative.
pub proof fn lemma_owed_is_points_over_scale(dc: DenomCorrection, c: Correction, weight: u64)
    requires
        held_points_defined(dc.points_per_weight, weight, c.points_correction),
        0 <= dc.points_per_weight * weight + c.points_correction <= u128::MAX,
    ensures
        owed(dc, c, weight) == (dc.points_per_weight * weight + c.points_correction) / 4_000_000_000
            - c.withdrawn_funds,
        owed_defined(dc, c, weight) <==> owed(dc, c, weight) >= 0,
{
    lemma_held_points_exact(dc.points_per_weight, weight, c.points_correction);
}

/// A member joins a denom whenever the points handed out before for its weight,
/// `points_per_weight * weight`, fit `i64`; its correction is then minus those
/// points, and it has withdrawn nothing.
pub proof fn lemma_join_goes_through(ppw: u128, weight: u64)
    requires
        ppw * weight <= i64::MAX,
    ensures
        !join_aborts(ppw, weight),
        joined(ppw, weight).points_correction == -(ppw * weight),
        joined(ppw, weight).withdrawn_funds == 0,
{
    assert(ppw * weight >= 0) by (nonlinear_arith)
        requires ppw >= 0, weight >= 0;
}

} // verus!
