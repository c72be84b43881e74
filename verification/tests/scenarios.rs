use std::collections::HashMap;

use creators::common::{Coin, Decimal, StdError};
use creators::distribution::{DistributionState, InstantiateMsg as DistributionInstantiateMsg};
use creators::membership::{
    distribution_reply, instantiated_contract, CodeId as MembershipId, InitialProxyStep,
    InstantiateMsg, MembershipState, ProposeOutcome,
};
use creators::proxy::{CodeId as ProxyId, ProxyState};

/// Protobuf of an instantiation reply: field 1 the address, field 2 the data.
fn instantiate_reply(addr: &str, data: &[u8]) -> Vec<u8> {
    let mut out = vec![0x0a, addr.len() as u8];
    out.extend_from_slice(addr.as_bytes());
    if !data.is_empty() {
        out.push(0x12);
        out.push(data.len() as u8);
        out.extend_from_slice(data);
    }
    out
}

fn owners_in_order(state: &MembershipState, owner_of: &HashMap<String, String>) -> Vec<Result<String, StdError>> {
    state
        .members
        .entries
        .iter()
        .map(|(proxy, _)| Ok(owner_of[proxy].clone()))
        .collect()
}

fn coins(amount: u128, denom: &str) -> Vec<Coin> {
    vec![Coin { denom: denom.to_string(), amount }]
}

#[test]
fn adding_member() {
    let denom = "star";
    let owner = "owner";
    let members = ["member1", "member2"];
    let candidate = "candidate";
    let group = "contract2";
    let _ = owner;

    let distribution_id = 0u64;
    let proxy_id = ProxyId(1);
    let membership_id = MembershipId(2);
    assert_eq!(membership_id.0, 2);

    let msg = InstantiateMsg {
        starting_weight: 10,
        denom: denom.to_string(),
        direct_part: Decimal::percent(15),
        halftime: 3600 * 24 * 30,
        minimal_acceptances: 2,
        proxy_code_id: proxy_id.into(),
        distribution_code_id: distribution_id,
        initial_members: members.iter().map(|m| m.to_string()).collect(),
    };
    let (mut membership, dist) = MembershipState::instantiate(msg, group.to_string()).unwrap();
    assert_eq!(dist.total_weigth, 20);
    assert_eq!(dist.data, b"[\"member1\",\"member2\"]".to_vec());

    // The pool answers with the data it was given: the initial members.
    let (_pool, echoed) = DistributionState::instantiate(
        DistributionInstantiateMsg { total_weigth: dist.total_weigth, data: dist.data.clone() },
        group.to_string(),
    );
    let reply = instantiate_reply("contract0", &echoed);
    let (dist_addr, initial) = distribution_reply(Ok(Some(reply))).unwrap();
    assert_eq!(dist_addr, "contract0");
    assert_eq!(initial, vec!["member1".to_string(), "member2".to_string()]);
    let validated: Vec<Result<String, StdError>> = initial.iter().map(|m| Ok(m.clone())).collect();
    let (proxies_to_make, mut awaiting) = membership
        .distribution_instantiated(dist_addr, &validated, group.to_string())
        .unwrap();
    assert_eq!(proxies_to_make.len(), 2);
    assert_eq!(awaiting, 2);

    // Every initial proxy answers.
    let mut owner_of: HashMap<String, String> = HashMap::new();
    let mut last = None;
    for (i, p) in proxies_to_make.iter().enumerate() {
        let proxy_addr = format!("contract{}", 3 + i);
        let _proxy = ProxyState::instantiate(p.msg.clone(), 0).unwrap();
        owner_of.insert(proxy_addr.clone(), p.msg.owner.clone());
        let (addr, _) = instantiated_contract(Ok(Some(instantiate_reply(&proxy_addr, b"")))).unwrap();
        let step = membership.initial_proxy_instantiated(addr, Ok(awaiting)).unwrap();
        if let InitialProxyStep::Awaiting { left, .. } = &step {
            awaiting = *left;
        }
        last = Some(step);
    }
    assert!(matches!(last, Some(InitialProxyStep::Complete { .. })));
    let data = membership.instantiation_data(&owners_in_order(&membership, &owner_of)).unwrap();

    let proxies: HashMap<String, String> = data
        .members
        .into_iter()
        .map(|member| (member.owner_addr, member.proxy_addr))
        .collect();

    assert_eq!(proxies.len(), 2);
    assert!(membership.is_member(&proxies[members[0]]).is_member);
    assert!(membership.is_member(&proxies[members[1]]).is_member);

    // member1 proposes the candidate through its proxy.
    let proxy0 = ProxyState::instantiate(proxies_to_make[0].msg.clone(), 0).unwrap();
    let creators::common::membership::ExecMsg::ProposeMember { addr } =
        proxy0.propose_member(&members[0].to_string(), candidate.to_string()).unwrap();
    let outcome = membership
        .propose_member(&proxies[members[0]], Ok(addr), &owners_in_order(&membership, &owner_of), group.to_string())
        .unwrap();
    // Not admitted yet: no member data comes back.
    assert_eq!(outcome, ProposeOutcome::Pending { acceptances: 1 });

    // member2 accepts too: the candidate is admitted.
    let proxy1 = ProxyState::instantiate(proxies_to_make[1].msg.clone(), 0).unwrap();
    let creators::common::membership::ExecMsg::ProposeMember { addr } =
        proxy1.propose_member(&members[1].to_string(), candidate.to_string()).unwrap();
    let outcome = membership
        .propose_member(&proxies[members[1]], Ok(addr), &owners_in_order(&membership, &owner_of), group.to_string())
        .unwrap();
    let instantiation = match outcome {
        ProposeOutcome::Admitted(p) => p,
        other => panic!("candidate not admitted: {:?}", other),
    };
    let new_proxy = "contract5";
    let (addr, _) = instantiated_contract(Ok(Some(instantiate_reply(new_proxy, b"")))).unwrap();
    let data = membership
        .proxy_instantiated(addr, Ok(instantiation.msg.owner.clone()))
        .unwrap();

    assert_eq!(data.owner_addr, candidate);
    assert!(membership.is_member(&data.proxy_addr).is_member);
}

#[test]
fn distribution() {
    let denom = "star";
    let owner = "owner";
    let donor = "donor";
    let members = ["member1", "member2"];
    let _ = owner;

    let mut donor_funds: u128 = 22;
    // What each member's own account holds.
    let mut accounts: HashMap<String, u128> = HashMap::new();

    let (mut pool, _) = DistributionState::instantiate(
        DistributionInstantiateMsg { total_weigth: 20, data: vec![] },
        "membership".to_string(),
    );
    let proxy_msg = |member: &str| creators::proxy::InstantiateMsg {
        owner: member.to_string(),
        weight: 10,
        denom: denom.to_string(),
        direct_part: Decimal::percent(10),
        distribution_contract: "distribution".to_string(),
        membership_contract: "membership".to_string(),
        halftime: 3600 * 24 * 30,
    };
    let mut proxy0 = ProxyState::instantiate(proxy_msg(members[0]), 0).unwrap();
    let proxy1 = ProxyState::instantiate(proxy_msg(members[1]), 0).unwrap();
    let mut proxy0_balance: u128 = 0;
    let mut pool_balance: u128 = 0;

    // The donor donates 22 to member1's proxy.
    let donation = proxy0.donate(&coins(22, denom)).unwrap();
    donor_funds -= donation.amount;
    proxy0_balance += donation.direct;
    pool_balance += donation.to_distribute;
    pool.distribute(&coins(donation.to_distribute, denom), &vec![pool_balance]).unwrap();

    // member1 withdraws everything.
    let (change, pending) = proxy0
        .withdraw(&members[0].to_string(), None, None, 1)
        .unwrap();
    let paid = pool
        .withdraw(&"proxy0".to_string(), true, change.weight, change.diff, &coins(pool_balance, denom))
        .unwrap();
    pool_balance -= paid[0].amount;
    proxy0_balance += paid[0].amount;
    let (receiver, amount) = creators::proxy::withdraw_reply(Ok(pending), proxy0_balance).unwrap();
    proxy0_balance -= amount;
    assert_eq!(receiver, members[0]);
    *accounts.entry(receiver).or_insert(0) += amount;

    assert_eq!(donor_funds, 0);
    assert_eq!(coins(accounts[members[0]], denom), coins(12, denom));
    assert_eq!(accounts.get(members[1]).copied().unwrap_or(0), 0);

    let pool_coins = coins(pool_balance, denom);
    let share0 = pool.withdrawable(&"proxy0".to_string(), proxy0.weight, &pool_coins).unwrap();
    let own0: Vec<Coin> = if proxy0_balance == 0 { vec![] } else { coins(proxy0_balance, denom) };
    let withdrawable = creators::proxy::merge_withdrawable(
        creators::common::WithdrawableResp { funds: share0 },
        &own0,
    )
    .unwrap();
    assert_eq!(withdrawable.funds, []);

    let share1 = pool.withdrawable(&"proxy1".to_string(), proxy1.weight, &pool_coins).unwrap();
    let withdrawable = creators::proxy::merge_withdrawable(
        creators::common::WithdrawableResp { funds: share1 },
        &vec![],
    )
    .unwrap();
    assert_eq!(withdrawable.funds, coins(10, denom));
}
