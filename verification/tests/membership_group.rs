use creators::common::{Decimal, ProposeMemberData, StdError};
use creators::membership::{
    distribution_reply, instantiated_contract, reply_kind, ContractError, InitialProxyStep,
    InstantationData, InstantiateMsg, MembershipState, ProposeOutcome, ReplyKind,
    DISTRIBUTION_INSTANTIATION_REPLY_ID, INITIAL_PROXY_INSTANTIATION_REPLY_ID,
    PROXY_INSTANTIATION_REPLY_ID,
};

fn msg(minimal: u64, members: &[&str]) -> InstantiateMsg {
    InstantiateMsg {
        starting_weight: 10,
        denom: "star".to_string(),
        direct_part: Decimal::percent(15),
        halftime: 60,
        minimal_acceptances: minimal,
        proxy_code_id: 7,
        distribution_code_id: 8,
        initial_members: members.iter().map(|m| m.to_string()).collect(),
    }
}

fn reply_bytes(addr: &str, data: &[u8]) -> Vec<u8> {
    let mut out = vec![0x0a, addr.len() as u8];
    out.extend_from_slice(addr.as_bytes());
    if !data.is_empty() {
        out.push(0x12);
        out.push(data.len() as u8);
        out.extend_from_slice(data);
    }
    out
}

/// A group whose proxies p1, p2, p3 belong to o1, o2, o3.
fn group(minimal: u64) -> MembershipState {
    let (mut s, _) = MembershipState::instantiate(msg(minimal, &["o1", "o2", "o3"]), "group".to_string()).unwrap();
    let members: Vec<Result<String, StdError>> = vec![Ok("o1".to_string()), Ok("o2".to_string()), Ok("o3".to_string())];
    let (_, mut awaiting) = s
        .distribution_instantiated("dist".to_string(), &members, "group".to_string())
        .unwrap();
    for p in ["p1", "p2", "p3"] {
        if let InitialProxyStep::Awaiting { left, .. } =
            s.initial_proxy_instantiated(p.to_string(), Ok(awaiting)).unwrap()
        {
            awaiting = left;
        }
    }
    s
}

fn owners(s: &MembershipState) -> Vec<Result<String, StdError>> {
    s.members
        .entries
        .iter()
        .map(|(p, _)| Ok(format!("o{}", &p[1..])))
        .collect()
}

#[test]
fn instantiate_checks_acceptances() {
    assert!(matches!(
        MembershipState::instantiate(msg(1, &["a", "b"]), "g".to_string()),
        Err(ContractError::NotEnoughRequiredAcceptances)
    ));
    assert!(matches!(
        MembershipState::instantiate(msg(3, &["a", "b"]), "g".to_string()),
        Err(ContractError::NotEnoughInitialMembers)
    ));
    let (s, d) = MembershipState::instantiate(msg(2, &["a", "b", "c"]), "g".to_string()).unwrap();
    assert_eq!(d.total_weigth, 30);
    assert_eq!(d.code_id, 8);
    assert_eq!(d.admin, "g");
    assert_eq!(d.label, "Distribution");
    assert_eq!(d.reply_id, DISTRIBUTION_INSTANTIATION_REPLY_ID);
    assert_eq!(s.config.distribution_contract, "");
    assert_eq!(d.data, b"[\"a\",\"b\",\"c\"]".to_vec());
}

#[test]
fn instantiate_aborts_on_weight_overflow() {
    let mut m = msg(2, &["a", "b"]);
    m.starting_weight = u64::MAX;
    assert!(matches!(
        MembershipState::instantiate(m, "g".to_string()),
        Err(ContractError::Aborted)
    ));
}

#[test]
fn reply_ids() {
    assert_eq!(reply_kind(INITIAL_PROXY_INSTANTIATION_REPLY_ID), Ok(ReplyKind::InitialProxy));
    assert_eq!(reply_kind(PROXY_INSTANTIATION_REPLY_ID), Ok(ReplyKind::Proxy));
    assert_eq!(reply_kind(DISTRIBUTION_INSTANTIATION_REPLY_ID), Ok(ReplyKind::Distribution));
    assert_eq!(reply_kind(9), Err(ContractError::UnrecognizedReplyId(9)));
}

#[test]
fn instantiation_reply_is_decoded() {
    let (addr, data) = instantiated_contract(Ok(Some(reply_bytes("contract7", b"abc")))).unwrap();
    assert_eq!(addr, "contract7");
    assert_eq!(data, Some(b"abc".to_vec()));
    let (addr, data) = instantiated_contract(Ok(Some(reply_bytes("c", b"")))).unwrap();
    assert_eq!(addr, "c");
    assert_eq!(data, None);
}

#[test]
fn instantiation_reply_errors() {
    assert_eq!(
        instantiated_contract(Err("boom".to_string())),
        Err(ContractError::Std(StdError::GenericErr { msg: "boom".to_string() }))
    );
    assert_eq!(instantiated_contract(Ok(None)), Err(ContractError::DataMissing));
    assert!(matches!(
        instantiated_contract(Ok(Some(vec![0x08, 0x01]))),
        Err(ContractError::ParseReply(_))
    ));
    assert_eq!(
        distribution_reply(Ok(Some(reply_bytes("dist", b"")))),
        Err(ContractError::DataMissing)
    );
    assert_eq!(
        distribution_reply(Ok(Some(reply_bytes("dist", b"[]")))),
        Ok(("dist".to_string(), vec![]))
    );
    assert_eq!(
        distribution_reply(Ok(Some(reply_bytes("dist", b"[\"o1\",\"o2\"]")))),
        Ok(("dist".to_string(), vec!["o1".to_string(), "o2".to_string()]))
    );
    assert!(matches!(
        distribution_reply(Ok(Some(reply_bytes("dist", b"{\"a\":1}")))),
        Err(ContractError::Std(StdError::GenericErr { .. }))
    ));
}

#[test]
fn distribution_instantiated_makes_proxies() {
    let (mut s, _) = MembershipState::instantiate(msg(2, &["o1", "o2"]), "group".to_string()).unwrap();
    let members: Vec<Result<String, StdError>> = vec![Ok("o1".to_string()), Ok("o2".to_string())];
    let (msgs, awaiting) = s.distribution_instantiated("dist".to_string(), &members, "group".to_string()).unwrap();
    assert_eq!(s.config.distribution_contract, "dist");
    assert_eq!(awaiting, 2);
    assert_eq!(msgs.len(), 2);
    assert_eq!(msgs[0].code_id, 7);
    assert_eq!(msgs[0].msg.owner, "o1");
    assert_eq!(msgs[0].msg.weight, 10);
    assert_eq!(msgs[0].msg.distribution_contract, "dist");
    assert_eq!(msgs[0].msg.membership_contract, "group");
    assert_eq!(msgs[0].admin, "group");
    assert_eq!(msgs[0].label, "o1 Proxy");
    assert_eq!(msgs[1].reply_id, INITIAL_PROXY_INSTANTIATION_REPLY_ID);
}

#[test]
fn distribution_instantiated_refuses_bad_address() {
    let (mut s, _) = MembershipState::instantiate(msg(2, &["o1", "O2"]), "group".to_string()).unwrap();
    let bad = StdError::GenericErr { msg: "Invalid input: address not normalized".to_string() };
    let members: Vec<Result<String, StdError>> = vec![Ok("o1".to_string()), Err(bad.clone())];
    assert_eq!(
        s.distribution_instantiated("dist".to_string(), &members, "group".to_string()),
        Err(ContractError::Std(bad))
    );
    // Nothing changed.
    assert_eq!(s.config.distribution_contract, "");
}

#[test]
fn initial_proxies_are_counted_down() {
    let (mut s, _) = MembershipState::instantiate(msg(2, &["o1", "o2"]), "group".to_string()).unwrap();
    let missing = StdError::NotFound { kind: "type: u64; key: [61, 77]".to_string() };
    assert_eq!(
        s.initial_proxy_instantiated("p0".to_string(), Err(missing.clone())),
        Err(ContractError::Std(missing))
    );
    assert!(!s.is_member(&"p0".to_string()).is_member);
    let members: Vec<Result<String, StdError>> = vec![Ok("o1".to_string()), Ok("o2".to_string())];
    let (_, awaiting) = s.distribution_instantiated("dist".to_string(), &members, "group".to_string()).unwrap();
    assert_eq!(
        s.initial_proxy_instantiated("p1".to_string(), Ok(awaiting)),
        Ok(InitialProxyStep::Awaiting { proxy_addr: "p1".to_string(), left: 1 })
    );
    assert_eq!(
        s.initial_proxy_instantiated("p2".to_string(), Ok(1)),
        Ok(InitialProxyStep::Complete { proxy_addr: "p2".to_string() })
    );
    let data = s.instantiation_data(&owners(&s)).unwrap();
    assert_eq!(
        data,
        InstantationData {
            members: vec![
                ProposeMemberData { owner_addr: "o1".to_string(), proxy_addr: "p1".to_string() },
                ProposeMemberData { owner_addr: "o2".to_string(), proxy_addr: "p2".to_string() },
            ]
        }
    );
    let mut failing = owners(&s);
    failing[1] = Err(StdError::NotFound { kind: "Addr".to_string() });
    assert_eq!(
        s.instantiation_data(&failing),
        Err(ContractError::Std(StdError::NotFound { kind: "Addr".to_string() }))
    );
}

#[test]
fn propose_by_non_member_is_a_request() {
    let mut s = group(2);
    let o = owners(&s);
    assert_eq!(
        s.propose_member(&"o1".to_string(), Ok("cand".to_string()), &o, "group".to_string()),
        Ok(ProposeOutcome::Requested)
    );
    // It counts no acceptance.
    assert_eq!(s.proposals.get(&"cand".to_string()), None);
    assert!(s.votes.entries.is_empty());
    // A non-member still cannot ask for an existing owner.
    assert_eq!(
        s.propose_member(&"o1".to_string(), Ok("o2".to_string()), &o, "group".to_string()),
        Err(ContractError::AlreadyAMember)
    );
}

#[test]
fn initial_proxy_with_nothing_awaited_aborts() {
    let mut s = group(2);
    assert_eq!(
        s.initial_proxy_instantiated("p9".to_string(), Ok(0)),
        Err(ContractError::Aborted)
    );
    assert!(!s.is_member(&"p9".to_string()).is_member);
}

#[test]
fn instantiation_data_in_ascending_order() {
    let s = group(2);
    let data = s.instantiation_data(&owners(&s)).unwrap();
    let proxies: Vec<String> = data.members.iter().map(|m| m.proxy_addr.clone()).collect();
    assert_eq!(proxies, vec!["p1".to_string(), "p2".to_string(), "p3".to_string()]);
}

#[test]
fn propose_refuses_existing_owner() {
    let mut s = group(2);
    let o = owners(&s);
    assert_eq!(
        s.propose_member(&"p1".to_string(), Ok("o2".to_string()), &o, "group".to_string()),
        Err(ContractError::AlreadyAMember)
    );
}

#[test]
fn propose_passes_on_address_error() {
    let mut s = group(2);
    let o = owners(&s);
    let bad = StdError::GenericErr { msg: "Invalid input".to_string() };
    assert_eq!(
        s.propose_member(&"p1".to_string(), Err(bad.clone()), &o, "group".to_string()),
        Err(ContractError::Std(bad))
    );
}

#[test]
fn votes_count_until_admission() {
    let mut s = group(3);
    let o = owners(&s);
    assert_eq!(
        s.propose_member(&"p1".to_string(), Ok("cand".to_string()), &o, "group".to_string()),
        Ok(ProposeOutcome::Pending { acceptances: 1 })
    );
    assert_eq!(
        s.propose_member(&"p1".to_string(), Ok("cand".to_string()), &o, "group".to_string()),
        Err(ContractError::AlreadyVoted)
    );
    assert_eq!(
        s.propose_member(&"p2".to_string(), Ok("cand".to_string()), &o, "group".to_string()),
        Ok(ProposeOutcome::Pending { acceptances: 2 })
    );
    assert_eq!(s.proposals.get(&"cand".to_string()), Some(&2));
    // The count equals the votes for the candidate.
    let votes_for_cand = s.votes.entries.iter().filter(|((_, c), _)| c == "cand").count();
    assert_eq!(votes_for_cand, 2);
    let outcome = s
        .propose_member(&"p3".to_string(), Ok("cand".to_string()), &o, "group".to_string())
        .unwrap();
    match outcome {
        ProposeOutcome::Admitted(p) => {
            assert_eq!(p.msg.owner, "cand");
            assert_eq!(p.label, "cand Proxy");
            assert_eq!(p.reply_id, PROXY_INSTANTIATION_REPLY_ID);
        }
        other => panic!("not admitted: {:?}", other),
    }
    assert_eq!(s.proposals.get(&"cand".to_string()), None);
    let data = s.proxy_instantiated("p4".to_string(), Ok("cand".to_string())).unwrap();
    assert_eq!(data, ProposeMemberData { owner_addr: "cand".to_string(), proxy_addr: "p4".to_string() });
    assert!(s.is_member(&"p4".to_string()).is_member);
    assert!(!s.is_member(&"cand".to_string()).is_member);
}

#[test]
fn proxy_instantiated_needs_owner() {
    let mut s = group(2);
    let err = StdError::NotFound { kind: "Addr".to_string() };
    assert_eq!(
        s.proxy_instantiated("p9".to_string(), Err(err.clone())),
        Err(ContractError::Std(err))
    );
    assert!(!s.is_member(&"p9".to_string()).is_member);
}
