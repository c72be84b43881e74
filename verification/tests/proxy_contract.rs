use creators::common::membership::ExecMsg as MembershipExecMsg;
use creators::common::{Coin, Decimal, StdError, WithdrawableResp};
use creators::cw::PaymentError;
use creators::distribution::QueryMsg as DistributionQueryMsg;
use creators::proxy::{
    merge_withdrawable, propose_member_reply, reply_kind, withdraw_reply, CodeId, ContractError,
    Donation, InstantiateMsg, IsClosedResp, OwnerResp, ProxyState, ReplyKind, WeightChange,
    WeightUpdate, WithdrawalData, PROPOSE_MEMBER_ID, WITHDRAW_REPLY_ID,
};

fn coin(denom: &str, amount: u128) -> Coin {
    Coin { denom: denom.to_string(), amount }
}

fn msg(direct_part: Decimal) -> InstantiateMsg {
    InstantiateMsg {
        owner: "creator".to_string(),
        weight: 10,
        denom: "star".to_string(),
        direct_part,
        distribution_contract: "distribution".to_string(),
        membership_contract: "membership".to_string(),
        halftime: 100,
    }
}

fn proxy() -> ProxyState {
    ProxyState::instantiate(msg(Decimal::percent(10)), 1000).unwrap()
}

#[test]
fn code_id_converts_to_number() {
    let id = CodeId(42);
    let n: u64 = id.into();
    assert_eq!(n, 42);
}

#[test]
fn instantiate_sets_state() {
    let p = proxy();
    assert_eq!(p.owner, "creator");
    assert_eq!(p.weight, 10);
    assert_eq!(p.donations, 1);
    assert_eq!(p.halftime, 100);
    assert_eq!(p.last_updated, 1000);
    assert!(!p.config.is_closed);
}

#[test]
fn instantiate_refuses_direct_part_above_one() {
    assert!(matches!(
        ProxyState::instantiate(msg(Decimal::percent(101)), 0),
        Err(ContractError::InalidDirectPart)
    ));
    assert!(ProxyState::instantiate(msg(Decimal::one()), 0).is_ok());
}

#[test]
fn donate_splits_and_counts() {
    let mut p = proxy();
    let d = p.donate(&vec![coin("star", 22)]).unwrap();
    assert_eq!(d, Donation { amount: 22, direct: 2, to_distribute: 20 });
    assert_eq!(p.donations, 2);
    let d = p.donate(&vec![coin("star", 9)]).unwrap();
    assert_eq!(d, Donation { amount: 9, direct: 0, to_distribute: 9 });
    assert_eq!(p.donations, 3);
}

#[test]
fn donate_with_whole_direct_part() {
    let mut p = ProxyState::instantiate(msg(Decimal::one()), 0).unwrap();
    let d = p.donate(&vec![coin("star", 7)]).unwrap();
    assert_eq!(d, Donation { amount: 7, direct: 7, to_distribute: 0 });
}

#[test]
fn donate_payment_errors() {
    let mut p = proxy();
    assert_eq!(p.donate(&vec![]), Err(ContractError::Payment(PaymentError::NoFunds)));
    assert_eq!(
        p.donate(&vec![coin("star", 0)]),
        Err(ContractError::Payment(PaymentError::NoFunds))
    );
    assert_eq!(
        p.donate(&vec![coin("star", 1), coin("moon", 1)]),
        Err(ContractError::Payment(PaymentError::MultipleDenoms))
    );
    assert_eq!(
        p.donate(&vec![coin("moon", 5)]),
        Err(ContractError::Payment(PaymentError::MissingDenom("star".to_string())))
    );
    assert_eq!(p.donations, 1);
}

#[test]
fn donate_aborts_when_count_overflows() {
    let mut p = proxy();
    p.donations = u64::MAX;
    assert_eq!(p.donate(&vec![coin("star", 1)]), Err(ContractError::Aborted));
}

#[test]
fn withdraw_resets_weights() {
    let mut p = proxy();
    p.donate(&vec![coin("star", 22)]).unwrap();
    let (change, w) = p
        .withdraw(&"creator".to_string(), None, Some(5), 2000)
        .unwrap();
    assert_eq!(change, WeightChange { weight: 10, diff: -8 });
    assert_eq!(p.weight, 2);
    assert_eq!(p.donations, 1);
    assert_eq!(p.last_updated, 2000);
    assert_eq!(w.receiver, "creator");
    assert_eq!(w.amount, Some(5));
    assert_eq!(withdraw_reply(Ok(w), 100).unwrap(), ("creator".to_string(), 5));
}

#[test]
fn withdraw_to_receiver_of_everything() {
    let mut p = proxy();
    let (_, w) = p
        .withdraw(&"creator".to_string(), Some(Ok("friend".to_string())), None, 5)
        .unwrap();
    assert_eq!(w, WithdrawalData { receiver: "friend".to_string(), amount: None });
    assert_eq!(withdraw_reply(Ok(w), 33).unwrap(), ("friend".to_string(), 33));
}

#[test]
fn withdraw_errors() {
    let mut p = proxy();
    assert_eq!(
        p.withdraw(&"other".to_string(), None, None, 5),
        Err(ContractError::Unauthorized)
    );
    let bad = StdError::GenericErr { msg: "Invalid input".to_string() };
    assert_eq!(
        p.withdraw(&"creator".to_string(), Some(Err(bad.clone())), None, 5),
        Err(ContractError::StdError(bad))
    );
}

#[test]
fn withdraw_reply_without_pending_withdrawal() {
    let missing = StdError::NotFound {
        kind: "type: proxy::WithdrawalData; key: [70, 65, 6E, 64]".to_string(),
    };
    assert_eq!(
        withdraw_reply(Err(missing.clone()), 10),
        Err(ContractError::StdError(missing))
    );
}

#[test]
fn withdraw_diff_beyond_i64_weights() {
    // Weight and donations both above i64::MAX; their difference fits.
    let mut p = proxy();
    p.weight = (1u64 << 63) + 10;
    p.donations = (1u64 << 63) + 3;
    let (change, _) = p.withdraw(&"creator".to_string(), None, None, 5).unwrap();
    assert_eq!(change, WeightChange { weight: (1u64 << 63) + 10, diff: -7 });
    assert_eq!(p.weight, (1u64 << 63) + 3);
    assert_eq!(p.donations, 1);
}

#[test]
fn withdraw_aborts_when_diff_does_not_fit() {
    let mut p = proxy();
    p.weight = 0;
    p.donations = u64::MAX;
    assert_eq!(
        p.withdraw(&"creator".to_string(), None, None, 5),
        Err(ContractError::Aborted)
    );
    assert_eq!(p.weight, 0);
}

#[test]
fn owner_and_is_closed_queries() {
    let mut p = proxy();
    assert_eq!(p.owner(), OwnerResp { addr: "creator".to_string(), weight: 10 });
    assert_eq!(p.is_closed(), IsClosedResp { is_closed: false });
    p.close(&"creator".to_string()).unwrap();
    assert_eq!(p.is_closed(), IsClosedResp { is_closed: true });
}

#[test]
fn close_only_by_owner() {
    let mut p = proxy();
    assert_eq!(p.close(&"other".to_string()), Err(ContractError::Unauthorized));
    assert!(!p.config.is_closed);
    p.close(&"creator".to_string()).unwrap();
    assert!(p.config.is_closed);
}

#[test]
fn propose_member_only_by_owner() {
    let p = proxy();
    assert_eq!(
        p.propose_member(&"other".to_string(), "cand".to_string()),
        Err(ContractError::Unauthorized)
    );
    assert_eq!(
        p.propose_member(&"creator".to_string(), "cand".to_string()),
        Ok(MembershipExecMsg::ProposeMember { addr: "cand".to_string() })
    );
}

#[test]
fn update_weight_waits_for_halftime() {
    let mut p = proxy();
    assert_eq!(p.update_weight(1099), Ok(WeightUpdate::Skipped));
    assert_eq!(p.weight, 10);
    assert_eq!(p.last_updated, 1000);
}

#[test]
fn update_weight_halves() {
    let mut p = proxy();
    let r = p.update_weight(1100).unwrap();
    assert_eq!(
        r,
        WeightUpdate::Performed { change: WeightChange { weight: 10, diff: -5 }, new_weight: 5 }
    );
    assert_eq!(p.weight, 5);
    assert_eq!(p.last_updated, 1100);
    // Odd weights round up; the clock restarted.
    assert_eq!(p.update_weight(1150), Ok(WeightUpdate::Skipped));
    let r = p.update_weight(1200).unwrap();
    assert_eq!(
        r,
        WeightUpdate::Performed { change: WeightChange { weight: 5, diff: -2 }, new_weight: 3 }
    );
}

#[test]
fn update_weight_halves_large_weights() {
    let mut p = proxy();
    p.weight = (1u64 << 63) + 2;
    let r = p.update_weight(1100).unwrap();
    assert_eq!(
        r,
        WeightUpdate::Performed {
            change: WeightChange { weight: (1u64 << 63) + 2, diff: -((1i64 << 62) + 1) },
            new_weight: (1u64 << 62) + 1,
        }
    );
    assert_eq!(p.weight, (1u64 << 62) + 1);
    let mut q = proxy();
    q.weight = 1u64 << 63;
    let r = q.update_weight(1100).unwrap();
    assert_eq!(
        r,
        WeightUpdate::Performed {
            change: WeightChange { weight: 1u64 << 63, diff: -(1i64 << 62) },
            new_weight: 1u64 << 62,
        }
    );
    let mut m = proxy();
    m.weight = u64::MAX;
    let r = m.update_weight(1100).unwrap();
    assert_eq!(
        r,
        WeightUpdate::Performed {
            change: WeightChange { weight: u64::MAX, diff: -(i64::MAX) },
            new_weight: (1u64 << 63),
        }
    );
}

#[test]
fn update_weight_aborts_before_last_update() {
    let mut p = proxy();
    assert_eq!(p.update_weight(999), Err(ContractError::Aborted));
}

#[test]
fn withdrawable_request_names_weight() {
    let p = proxy();
    assert_eq!(
        p.withdrawable_request("proxy0".to_string()),
        DistributionQueryMsg::Withdrawable { proxy: "proxy0".to_string(), weight: 10 }
    );
}

#[test]
fn merge_adds_balances_per_denom() {
    let resp = WithdrawableResp { funds: vec![coin("star", 10), coin("moon", 1)] };
    let merged = merge_withdrawable(resp, &vec![coin("moon", 4), coin("sun", 2), coin("star", 5)]).unwrap();
    assert_eq!(merged.funds, vec![coin("star", 15), coin("moon", 5), coin("sun", 2)]);
}

#[test]
fn merge_aborts_on_overflow() {
    let resp = WithdrawableResp { funds: vec![coin("star", u128::MAX)] };
    assert_eq!(merge_withdrawable(resp, &vec![coin("star", 1)]), Err(ContractError::Aborted));
}

#[test]
fn proxy_reply_ids() {
    assert_eq!(reply_kind(WITHDRAW_REPLY_ID), Ok(ReplyKind::Withdraw));
    assert_eq!(reply_kind(PROPOSE_MEMBER_ID), Ok(ReplyKind::ProposeMember));
    assert_eq!(reply_kind(77), Err(ContractError::UnrecognizedReplyId(77)));
}

#[test]
fn propose_member_reply_forwards_data() {
    // Protobuf of an execution reply: field 1 holds the data.
    let data = b"{\"owner_addr\":\"c\"}".to_vec();
    let mut bytes = vec![0x0a, data.len() as u8];
    bytes.extend_from_slice(&data);
    assert_eq!(propose_member_reply(Ok(Some(bytes))), Ok(Some(data)));
    assert_eq!(propose_member_reply(Ok(Some(vec![]))), Ok(None));
    assert_eq!(propose_member_reply(Ok(None)), Ok(None));
    assert_eq!(
        propose_member_reply(Err("failed".to_string())),
        Err(ContractError::StdError(StdError::GenericErr { msg: "failed".to_string() }))
    );
    assert!(matches!(
        propose_member_reply(Ok(Some(vec![0x12, 0x01, 0x00]))),
        Err(ContractError::ParseReply(_))
    ));
}
