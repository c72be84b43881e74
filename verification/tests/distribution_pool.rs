use creators::common::Coin;
use creators::distribution::{ContractError, DistributionState, InstantiateMsg};
use creators::points::POINTS_SCALE;

fn coin(denom: &str, amount: u128) -> Coin {
    Coin { denom: denom.to_string(), amount }
}

fn pool(total: u128) -> DistributionState {
    DistributionState::instantiate(
        InstantiateMsg { total_weigth: total, data: b"members".to_vec() },
        "membership".to_string(),
    )
    .0
}

#[test]
fn instantiate_hands_back_data() {
    let (state, data) = DistributionState::instantiate(
        InstantiateMsg { total_weigth: 30, data: b"xyz".to_vec() },
        "group".to_string(),
    );
    assert_eq!(data, b"xyz".to_vec());
    assert_eq!(state.total_weight, 30);
    assert_eq!(state.membership, "group");
    assert!(state.denom_corrections.entries.is_empty());
    assert!(state.corrections.entries.is_empty());
}

#[test]
fn distribute_reports_fresh_amounts() {
    let mut p = pool(20);
    let events = p
        .distribute(&vec![coin("star", 20), coin("moon", 4)], &vec![20, 4])
        .unwrap();
    assert_eq!(events, vec![coin("star", 20), coin("moon", 4)]);
    let star = p.denom_corrections.get(&"star".to_string()).unwrap();
    assert_eq!(star.points_per_weight, POINTS_SCALE);
    // A second coin of the same denom sees the first one's bookkeeping.
    // After the first, the whole balance is owed: the second brings nothing new.
    let events = p.distribute(&vec![coin("star", 5), coin("star", 5)], &vec![30, 30]).unwrap();
    assert_eq!(events, vec![coin("star", 10), coin("star", 0)]);
    let star = p.denom_corrections.get(&"star".to_string()).unwrap();
    assert_eq!(star.withdrawable_total, 30);
}

#[test]
fn distribute_aborts_without_weight() {
    let mut p = pool(0);
    assert_eq!(
        p.distribute(&vec![coin("star", 1)], &vec![1]),
        Err(ContractError::Aborted)
    );
}

#[test]
fn new_member_only_from_membership() {
    let mut p = pool(20);
    p.distribute(&vec![coin("star", 20)], &vec![20]).unwrap();
    assert_eq!(
        p.new_member(&"stranger".to_string(), "proxy3".to_string(), 10),
        Err(ContractError::Unauthorized)
    );
    assert!(p.corrections.entries.is_empty());
}

#[test]
fn new_member_withdraws_nothing_at_first() {
    let mut p = pool(20);
    p.distribute(&vec![coin("star", 20)], &vec![20]).unwrap();
    p.new_member(&"membership".to_string(), "proxy3".to_string(), 10).unwrap();
    assert_eq!(p.total_weight, 30);
    let c = p.corrections.get(&("proxy3".to_string(), "star".to_string())).unwrap();
    assert_eq!(c.points_correction, -(10 * POINTS_SCALE as i64));
    let share = p.withdrawable(&"proxy3".to_string(), 10, &vec![coin("star", 20)]).unwrap();
    assert_eq!(share, vec![]);
    // An old member still has its share.
    let share = p.withdrawable(&"proxy1".to_string(), 10, &vec![coin("star", 20)]).unwrap();
    assert_eq!(share, vec![coin("star", 10)]);
}

#[test]
fn new_member_aborts_on_overflow() {
    let mut p = pool(1);
    p.distribute(&vec![coin("star", 1u128 << 60)], &vec![1u128 << 60]).unwrap();
    assert_eq!(
        p.new_member(&"membership".to_string(), "proxy3".to_string(), u64::MAX),
        Err(ContractError::Aborted)
    );
}

#[test]
fn withdraw_only_for_members() {
    let mut p = pool(20);
    assert_eq!(
        p.withdraw(&"proxy1".to_string(), false, 10, 0, &vec![]),
        Err(ContractError::Unauthorized)
    );
}

#[test]
fn withdraw_pays_share_and_reweights() {
    let mut p = pool(20);
    p.distribute(&vec![coin("star", 20)], &vec![20]).unwrap();
    let paid = p
        .withdraw(&"proxy1".to_string(), true, 10, -8, &vec![coin("star", 20)])
        .unwrap();
    assert_eq!(paid, vec![coin("star", 10)]);
    assert_eq!(p.total_weight, 12);
    // Nothing left at the new weight; the other member keeps its share.
    assert_eq!(p.withdrawable(&"proxy1".to_string(), 2, &vec![coin("star", 10)]).unwrap(), vec![]);
    assert_eq!(
        p.withdrawable(&"proxy2".to_string(), 10, &vec![coin("star", 10)]).unwrap(),
        vec![coin("star", 10)]
    );
    // A second withdrawal pays nothing.
    let paid = p
        .withdraw(&"proxy1".to_string(), true, 2, 0, &vec![coin("star", 10)])
        .unwrap();
    assert_eq!(paid, vec![coin("star", 0)]);
}

#[test]
fn withdraw_in_unknown_denom_pays_nothing() {
    let mut p = pool(20);
    let paid = p
        .withdraw(&"proxy1".to_string(), true, 10, 0, &vec![coin("moon", 3)])
        .unwrap();
    assert_eq!(paid, vec![coin("moon", 0)]);
}

#[test]
fn withdraw_aborts_when_total_weight_overflows() {
    let mut p = pool(i128::MAX as u128);
    assert_eq!(
        p.withdraw(&"proxy1".to_string(), true, 10, 5, &vec![]),
        Err(ContractError::Aborted)
    );
}

#[test]
fn withdrawable_aborts_when_share_is_undefined() {
    let mut p = pool(20);
    p.distribute(&vec![coin("star", 20)], &vec![20]).unwrap();
    p.withdraw(&"proxy1".to_string(), true, 10, 0, &vec![coin("star", 20)]).unwrap();
    // At a smaller weight the member has withdrawn more than it holds.
    assert_eq!(
        p.withdrawable(&"proxy1".to_string(), 5, &vec![coin("star", 10)]),
        Err(ContractError::Aborted)
    );
}

#[test]
fn new_member_aborts_when_total_weight_overflows() {
    let mut p = pool(u128::MAX);
    assert_eq!(
        p.new_member(&"membership".to_string(), "proxy3".to_string(), 1),
        Err(ContractError::Aborted)
    );
    assert_eq!(p.total_weight, u128::MAX);
    assert!(p.corrections.entries.is_empty());
}

#[test]
fn later_distributions_include_new_member() {
    // Two members of weight 10; a third joins with 10; 30 more tokens arrive.
    let mut p = pool(20);
    p.distribute(&vec![coin("star", 20)], &vec![20]).unwrap();
    p.new_member(&"membership".to_string(), "proxy3".to_string(), 10).unwrap();
    p.distribute(&vec![coin("star", 30)], &vec![50]).unwrap();
    let balance = vec![coin("star", 50)];
    assert_eq!(p.withdrawable(&"proxy1".to_string(), 10, &balance).unwrap(), vec![coin("star", 20)]);
    assert_eq!(p.withdrawable(&"proxy2".to_string(), 10, &balance).unwrap(), vec![coin("star", 20)]);
    assert_eq!(p.withdrawable(&"proxy3".to_string(), 10, &balance).unwrap(), vec![coin("star", 10)]);
}

#[test]
fn distribute_aborts_leaves_pool_unchanged() {
    let mut p = pool(20);
    p.distribute(&vec![coin("star", 20)], &vec![20]).unwrap();
    // The second coin's balance is below what is owed: the whole call aborts.
    assert_eq!(
        p.distribute(&vec![coin("moon", 4), coin("star", 1)], &vec![4, 10]),
        Err(ContractError::Aborted)
    );
    assert!(p.denom_corrections.get(&"moon".to_string()).is_none());
    assert_eq!(p.denom_corrections.get(&"star".to_string()).unwrap().withdrawable_total, 20);
}

#[test]
fn withdrawal_pays_what_is_withdrawable() {
    let mut p = pool(20);
    p.distribute(&vec![coin("star", 20), coin("moon", 8)], &vec![20, 8]).unwrap();
    let balance = vec![coin("star", 20), coin("sun", 3), coin("moon", 8)];
    let reported = p.withdrawable(&"proxy1".to_string(), 10, &balance).unwrap();
    assert_eq!(reported, vec![coin("star", 10), coin("moon", 4)]);
    let paid = p.withdraw(&"proxy1".to_string(), true, 10, 0, &balance).unwrap();
    assert_eq!(paid, vec![coin("star", 10), coin("sun", 0), coin("moon", 4)]);
    let nonzero: Vec<Coin> = paid.into_iter().filter(|c| c.amount != 0).collect();
    assert_eq!(nonzero, reported);
}

#[test]
fn withdrawable_grows_with_weight() {
    let mut p = pool(20);
    p.distribute(&vec![coin("star", 20)], &vec![20]).unwrap();
    let balance = vec![coin("star", 20)];
    assert_eq!(p.withdrawable(&"proxy1".to_string(), 5, &balance).unwrap(), vec![coin("star", 5)]);
    assert_eq!(p.withdrawable(&"proxy1".to_string(), 10, &balance).unwrap(), vec![coin("star", 10)]);
    assert_eq!(p.withdrawable(&"proxy1".to_string(), 0, &balance).unwrap(), vec![]);
}

#[test]
fn total_weight_reads_as_signed() {
    // Above i128::MAX the total is read as a negative number; the sum wraps back.
    let big = (i128::MAX as u128) + 5;
    let mut p = pool(big);
    p.withdraw(&"proxy1".to_string(), true, 10, 1, &vec![]).unwrap();
    assert_eq!(p.total_weight, big + 1);
    let mut q = pool(big);
    assert_eq!(
        q.withdraw(&"proxy1".to_string(), true, 10, -10, &vec![]),
        Err(ContractError::Aborted)
    );
    assert_eq!(q.total_weight, big);
}

#[test]
fn total_weight_follows_member_weights() {
    // Members of weight 10 and 10; one withdraws and drops to 2; a third joins with 7.
    let mut p = pool(20);
    p.withdraw(&"proxy1".to_string(), true, 10, -8, &vec![]).unwrap();
    p.new_member(&"membership".to_string(), "proxy3".to_string(), 7).unwrap();
    assert_eq!(p.total_weight, 2 + 10 + 7);
}

#[test]
fn pool_owes_at_most_what_it_holds() {
    // Weights 10, 10; 7 tokens arrive; a member of weight 5 joins; 11 more arrive.
    let mut p = pool(20);
    p.distribute(&vec![coin("star", 7)], &vec![7]).unwrap();
    p.new_member(&"membership".to_string(), "proxy3".to_string(), 5).unwrap();
    p.distribute(&vec![coin("star", 11)], &vec![18]).unwrap();
    let balance = vec![coin("star", 18)];
    let amount = |who: &str, w: u64| -> u128 {
        p.withdrawable(&who.to_string(), w, &balance)
            .unwrap()
            .iter()
            .map(|c| c.amount)
            .sum()
    };
    let owed = amount("proxy1", 10) + amount("proxy2", 10) + amount("proxy3", 5);
    let held = p.denom_corrections.get(&"star".to_string()).unwrap().withdrawable_total;
    assert_eq!(held, 18);
    assert!(owed <= held);
    assert_eq!(owed, 7 + 7 + 2);
}
