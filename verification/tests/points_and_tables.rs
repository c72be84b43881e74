use creators::points::{
    distribute_denom, join_correction, owed_amount, withdraw_denom, Correction, DenomCorrection,
    POINTS_SCALE,
};
use creators::table::{bytes_less, Table};

fn pool(ppw: u128, leftover: u128, total: u128) -> DenomCorrection {
    DenomCorrection {
        points_per_weight: ppw,
        points_leftover: leftover,
        withdrawable_total: total,
    }
}

#[test]
fn distribute_spreads_points_over_weight() {
    let (n, amount) = distribute_denom(20, DenomCorrection::default(), 20).unwrap();
    assert_eq!(amount, 20);
    assert_eq!(n, pool(POINTS_SCALE, 0, 20));
}

#[test]
fn distribute_keeps_leftover_points() {
    // 7 tokens over weight 3: 28e9 points, 9_333_333_333 per weight, 1 left over.
    let (n, amount) = distribute_denom(3, DenomCorrection::default(), 7).unwrap();
    assert_eq!(amount, 7);
    assert_eq!(n.points_per_weight, 9_333_333_333);
    assert_eq!(n.points_leftover, 1);
    assert_eq!(
        amount * POINTS_SCALE,
        n.points_per_weight * 3 + n.points_leftover
    );
    // The leftover joins the next distribution.
    // Two more tokens arrive; the whole balance is now owed to the members.
    let (m, fresh) = distribute_denom(3, n, 9).unwrap();
    assert_eq!(fresh, 2);
    assert_eq!(m.withdrawable_total, 9);
    assert_eq!(m.points_per_weight, 9_333_333_333 + 2_666_666_667);
    assert_eq!(m.points_leftover, 0);
}

#[test]
fn distribute_aborts() {
    // Balance below what is accounted for.
    assert_eq!(distribute_denom(10, pool(0, 0, 5), 4), None);
    // No weight.
    assert_eq!(distribute_denom(0, DenomCorrection::default(), 4), None);
    // Points overflow.
    assert_eq!(distribute_denom(1, DenomCorrection::default(), u128::MAX), None);
    // Points per weight overflow.
    assert_eq!(distribute_denom(1, pool(u128::MAX, 0, 0), 1), None);
}

#[test]
fn withdraw_takes_share_and_moves_correction() {
    let dc = pool(POINTS_SCALE, 0, 20);
    let (ndc, nc, amount) = withdraw_denom(dc, Correction::default(), 10, -8).unwrap();
    assert_eq!(amount, 10);
    assert_eq!(ndc.withdrawable_total, 10);
    assert_eq!(nc.withdrawn_funds, 10);
    assert_eq!(nc.points_correction, 8 * POINTS_SCALE as i64);
    // Nothing is left at the new weight.
    assert_eq!(owed_amount(ndc, nc, 2), Some(0));
}

#[test]
fn withdraw_aborts_when_pool_lacks_funds() {
    let dc = pool(POINTS_SCALE, 0, 5);
    assert_eq!(withdraw_denom(dc, Correction::default(), 10, 0), None);
}

#[test]
fn withdraw_aborts_when_already_paid_more() {
    let dc = pool(POINTS_SCALE, 0, 100);
    let c = Correction { points_correction: 0, withdrawn_funds: 11 };
    assert_eq!(withdraw_denom(dc, c, 10, 0), None);
    assert_eq!(owed_amount(dc, c, 10), None);
}

#[test]
fn joined_member_owes_nothing() {
    let dc = pool(3 * POINTS_SCALE, 0, 60);
    let c = join_correction(dc.points_per_weight, 7).unwrap();
    assert_eq!(c.points_correction, -(21 * POINTS_SCALE as i64));
    assert_eq!(c.withdrawn_funds, 0);
    assert_eq!(owed_amount(dc, c, 7), Some(0));
    // Later distributions reach it.
    let (dc2, _) = distribute_denom(20, dc, 80).unwrap();
    assert_eq!(owed_amount(dc2, c, 7), Some(7));
}

#[test]
fn join_aborts_on_overflow() {
    assert_eq!(join_correction(u128::MAX, 2), None);
    assert_eq!(join_correction(1u128 << 63, 1), None);
}

#[test]
fn table_insert_get_remove() {
    let mut t: Table<String, u64> = Table::new();
    t.insert("a".to_string(), 1);
    t.insert("b".to_string(), 2);
    t.insert("a".to_string(), 3);
    assert_eq!(t.entries.len(), 2);
    assert_eq!(t.get(&"a".to_string()), Some(&3));
    assert_eq!(t.get(&"b".to_string()), Some(&2));
    assert!(!t.contains_key(&"c".to_string()));
    t.remove(&"a".to_string());
    assert_eq!(t.get(&"a".to_string()), None);
    assert!(t.contains_key(&"b".to_string()));
    t.remove(&"zzz".to_string());
    assert_eq!(t.entries.len(), 1);
}

#[test]
fn distribution_splits_by_weight() {
    // Weights 1 and 2 make up the total weight 3; 7 tokens arrive.
    let before = DenomCorrection::default();
    let (after, _) = distribute_denom(3, before, 7).unwrap();
    let per_weight = after.points_per_weight - before.points_per_weight;
    let shares = per_weight * 1 + per_weight * 2;
    assert_eq!(shares + after.points_leftover, 7 * POINTS_SCALE);
    assert!(after.points_leftover < 3);
}

#[test]
fn distribution_owes_whole_balance() {
    // After a distribution the whole balance is owed; a second distribution with no
    // new funds hands out nothing more.
    let (n, amount) = distribute_denom(4, DenomCorrection::default(), 40).unwrap();
    assert_eq!(amount, 40);
    assert_eq!(n.withdrawable_total, 40);
    let (m, again) = distribute_denom(4, n, 40).unwrap();
    assert_eq!(again, 0);
    assert_eq!(m.points_per_weight, n.points_per_weight);
    assert_eq!(m.withdrawable_total, 40);
}

#[test]
fn owed_grows_with_weight() {
    let dc = pool(POINTS_SCALE, 0, 100);
    let c = Correction::default();
    assert_eq!(owed_amount(dc, c, 3), Some(3));
    assert_eq!(owed_amount(dc, c, 5), Some(5));
    let joined = join_correction(dc.points_per_weight, 2).unwrap();
    assert_eq!(owed_amount(dc, joined, 2), Some(0));
    assert_eq!(owed_amount(dc, joined, 6), Some(4));
}

#[test]
fn share_at_most_weight_share() {
    // 7 tokens over total weight 3: weight 1 is owed 2, weight 2 is owed 4.
    let (dc, _) = distribute_denom(3, DenomCorrection::default(), 7).unwrap();
    let one = owed_amount(dc, Correction::default(), 1).unwrap();
    let two = owed_amount(dc, Correction::default(), 2).unwrap();
    assert_eq!(one, (1 * ((7 * POINTS_SCALE) / 3)) / POINTS_SCALE);
    assert_eq!(one, 2);
    assert_eq!(two, 4);
    assert!(one * 3 <= 7 * 1);
    assert!(two * 3 <= 7 * 2);
}

#[test]
fn bytes_less_orders_like_strings() {
    assert!(bytes_less(b"abc", b"abd"));
    assert!(bytes_less(b"ab", b"abc"));
    assert!(!bytes_less(b"abc", b"abc"));
    assert!(!bytes_less(b"b", b"abc"));
    assert!(bytes_less(b"", b"a"));
}

#[test]
fn insert_ordered_keeps_keys_ascending() {
    let mut t: Table<String, u64> = Table::new();
    assert!(t.entries.is_empty());
    t.insert_ordered("contract5".to_string(), 5);
    t.insert_ordered("contract3".to_string(), 3);
    t.insert_ordered("contract4".to_string(), 4);
    t.insert_ordered("contract10".to_string(), 10);
    t.insert_ordered("contract3".to_string(), 33);
    let keys: Vec<&str> = t.entries.iter().map(|(k, _)| k.as_str()).collect();
    assert_eq!(keys, vec!["contract10", "contract3", "contract4", "contract5"]);
    assert_eq!(t.get(&"contract3".to_string()), Some(&33));
}

#[test]
fn owed_grows_with_weight_beyond_i128() {
    // Points per weight so large that the member's points pass i128::MAX.
    let ppw = 1u128 << 100;
    let dc = pool(ppw, 0, u128::MAX);
    let c = Correction::default();
    let low = owed_amount(dc, c, 1 << 26).unwrap();
    let high = owed_amount(dc, c, 1 << 27).unwrap();
    assert_eq!(low, (1u128 << 126) / POINTS_SCALE);
    assert_eq!(high, (1u128 << 127) / POINTS_SCALE);
    assert!(low <= high);
}
