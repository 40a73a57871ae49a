use namib_enforcer::addr::IpAddress;
use namib_enforcer::enforcer::Enforcer;
use namib_enforcer::firewall::{
    handle_new_config, AddressFamily, AddressField, FirewallConfig, FirewallDevice, FirewallRule,
    Instruction, KernelObject, MatchExpr, MsgType, NetworkHost, Policy, Protocol, Target, Verdict,
    BASE_CHAIN_NAME, TABLE_NAME,
};

fn v4(a: u8, b: u8, c: u8, d: u8) -> IpAddress {
    IpAddress::V4(u32::from_be_bytes([a, b, c, d]))
}

fn addr_match(ip: IpAddress, field: AddressField) -> Vec<MatchExpr> {
    let fam = match ip {
        IpAddress::V4(_) => AddressFamily::Ipv4,
        IpAddress::V6(_) => AddressFamily::Ipv6,
    };
    vec![
        MatchExpr::MetaNfproto,
        MatchExpr::CmpFamily(fam),
        MatchExpr::PayloadAddress(fam, field),
        MatchExpr::CmpAddress(ip),
    ]
}

fn one_device_config(rules: Vec<FirewallRule>) -> FirewallConfig {
    FirewallConfig {
        devices: vec![FirewallDevice { id: "dev1".to_string(), ip: v4(10, 0, 0, 5), rules }],
    }
}

fn table_name(i: &Instruction) -> Option<String> {
    match &i.object {
        KernelObject::Table { name } => Some(name.clone()),
        _ => None,
    }
}

#[test]
fn scenario_b_single_device_single_rule() {
    let config = one_device_config(vec![FirewallRule {
        src: None,
        dst: Some(NetworkHost::Ip(v4(10, 0, 0, 9))),
        protocol: Protocol::Tcp,
        target: Target::Accept,
    }]);
    let batch = handle_new_config(&Vec::new(), &config);
    assert_eq!(batch.len(), 6);
    assert!(batch.iter().all(|i| i.msg == MsgType::Add));

    let tables: Vec<_> = batch.iter().filter_map(table_name).collect();
    assert_eq!(tables, vec![TABLE_NAME.to_string()]);

    match &batch[1].object {
        KernelObject::Chain { name, inbound_hook, policy } => {
            assert_eq!(name, BASE_CHAIN_NAME);
            assert!(*inbound_hook);
            assert_eq!(*policy, Policy::Accept);
        },
        other => panic!("expected the base chain, got {:?}", other),
    }
    match &batch[2].object {
        KernelObject::Chain { name, inbound_hook, policy } => {
            assert_eq!(name, "dev1");
            assert!(!*inbound_hook);
            assert_eq!(*policy, Policy::Drop);
        },
        other => panic!("expected the device chain, got {:?}", other),
    }
    for (k, field) in [(3, AddressField::Source), (4, AddressField::Destination)] {
        match &batch[k].object {
            KernelObject::Rule { chain, matches, verdict } => {
                assert_eq!(chain, BASE_CHAIN_NAME);
                assert_eq!(*matches, addr_match(v4(10, 0, 0, 5), field));
                match verdict {
                    Verdict::Jump(target) => assert_eq!(target, "dev1"),
                    other => panic!("expected a jump, got {:?}", other),
                }
            },
            other => panic!("expected a dispatch rule, got {:?}", other),
        }
    }
    match &batch[5].object {
        KernelObject::Rule { chain, matches, verdict } => {
            assert_eq!(chain, "dev1");
            let mut expected = addr_match(v4(10, 0, 0, 9), AddressField::Destination);
            expected.push(MatchExpr::PayloadTransport(AddressFamily::Ipv4));
            expected.push(MatchExpr::CmpTransport(Protocol::Tcp));
            assert_eq!(*matches, expected);
            assert!(matches!(verdict, Verdict::Accept));
        },
        other => panic!("expected the device rule, got {:?}", other),
    }
}

#[test]
fn reject_and_drop_both_drop() {
    for target in [Target::Reject, Target::Drop] {
        let config = one_device_config(vec![FirewallRule {
            src: Some(NetworkHost::Ip(v4(192, 168, 1, 1))),
            dst: None,
            protocol: Protocol::Udp,
            target,
        }]);
        let batch = handle_new_config(&Vec::new(), &config);
        match &batch[5].object {
            KernelObject::Rule { matches, verdict, .. } => {
                assert_eq!(*matches, addr_match(v4(192, 168, 1, 1), AddressField::Source));
                assert!(matches!(verdict, Verdict::Drop));
            },
            other => panic!("expected a rule, got {:?}", other),
        }
    }
}

#[test]
fn ipv6_and_hostnames() {
    let v6 = IpAddress::V6(0x2001_0db8_0000_0000_0000_0000_0000_0001);
    let config = FirewallConfig {
        devices: vec![FirewallDevice {
            id: "dev6".to_string(),
            ip: v6,
            rules: vec![
                FirewallRule {
                    src: Some(NetworkHost::Hostname("h.example".to_string())),
                    dst: Some(NetworkHost::Ip(v6)),
                    protocol: Protocol::Udp,
                    target: Target::Accept,
                },
                FirewallRule {
                    src: None,
                    dst: Some(NetworkHost::Hostname("h.example".to_string())),
                    protocol: Protocol::Other,
                    target: Target::Drop,
                },
            ],
        }],
    };
    let batch = handle_new_config(&Vec::new(), &config);
    assert_eq!(batch.len(), 7);
    match &batch[3].object {
        KernelObject::Rule { matches, .. } => {
            assert_eq!(*matches, addr_match(v6, AddressField::Source));
            assert_eq!(matches[1], MatchExpr::CmpFamily(AddressFamily::Ipv6));
        },
        other => panic!("expected a rule, got {:?}", other),
    }
    match &batch[5].object {
        KernelObject::Rule { matches, .. } => {
            let mut expected = addr_match(v6, AddressField::Destination);
            expected.push(MatchExpr::PayloadTransport(AddressFamily::Ipv6));
            expected.push(MatchExpr::CmpTransport(Protocol::Udp));
            assert_eq!(*matches, expected);
        },
        other => panic!("expected a rule, got {:?}", other),
    }
    match &batch[6].object {
        KernelObject::Rule { matches, verdict, .. } => {
            assert!(matches.is_empty());
            assert!(matches!(verdict, Verdict::Drop));
        },
        other => panic!("expected a rule, got {:?}", other),
    }
}

#[test]
fn empty_config_gives_table_and_base_chain() {
    let batch = handle_new_config(&Vec::new(), &FirewallConfig { devices: Vec::new() });
    assert_eq!(batch.len(), 2);
    assert_eq!(table_name(&batch[0]), Some(TABLE_NAME.to_string()));
}

#[test]
fn previous_generation_is_deleted_first() {
    let mut enforcer = Enforcer::new(one_device_config(vec![FirewallRule {
        src: None,
        dst: Some(NetworkHost::Ip(v4(10, 0, 0, 9))),
        protocol: Protocol::Tcp,
        target: Target::Accept,
    }]));
    let first = enforcer.next_batch();
    assert_eq!(first.len(), 6);
    enforcer.record_applied(first);
    enforcer.apply_new_config(FirewallConfig { devices: Vec::new() });
    let second = enforcer.next_batch();
    // Six deletions, latest object first, then the new table and base chain.
    assert_eq!(second.len(), 8);
    assert!(second[..6].iter().all(|i| i.msg == MsgType::Del));
    assert!(second[6..].iter().all(|i| i.msg == MsgType::Add));
    match &second[0].object {
        KernelObject::Rule { chain, .. } => assert_eq!(chain, "dev1"),
        other => panic!("expected the device rule, got {:?}", other),
    }
    assert_eq!(table_name(&second[5]), Some(TABLE_NAME.to_string()));
    enforcer.record_applied(second);
    // Deletions of an earlier batch are not deleted again.
    let third = enforcer.next_batch();
    assert_eq!(third.len(), 4);
}
