use snmp_mib_client::snmp::{SnmpValue, V3Auth};
use snmp_mib_client::trap::{
    accepted_pdu, accepts_pdu, check_listener, decode_pdu, error_event, event_from_pdu, listener_mode, resolve_oid, security_plan,
    sorted_unique, ListenerMode, TrapBuffer, TrapListenerConfig, TrapPdu, V1Trap, WireVersion, MAX_EVENTS,
};

fn config(version: &str, community: &str, user: &str) -> TrapListenerConfig {
    TrapListenerConfig {
        bind_addr: " 0.0.0.0 ".into(),
        port: "1162 ".into(),
        version: version.into(),
        community: community.into(),
        v3_user: user.into(),
        v3_auth: "authpass".into(),
        v3_priv: "".into(),
    }
}

fn index() -> Vec<(String, String)> {
    vec![
        ("1.3.6.1.2.1.2.2.1.2".to_string(), "ifDescr".to_string()),
        ("1.3.6.1.6.3.1.1.5.3".to_string(), "linkDown".to_string()),
        ("1.3.6.1.4.1.9".to_string(), "cisco".to_string()),
    ]
}

fn v2_pdu(inform: bool) -> TrapPdu {
    TrapPdu {
        version: Some(WireVersion::V2c),
        community: b"public".to_vec(),
        principal: "public".into(),
        v1_trap: None,
        varbinds: vec![
            ("1.3.6.1.2.1.1.3.0".into(), SnmpValue::Timeticks(100)),
            ("1.3.6.1.6.3.1.1.4.1.0".into(), SnmpValue::ObjectIdentifier("1.3.6.1.6.3.1.1.5.3".into())),
            ("1.3.6.1.2.1.2.2.1.2.7".into(), SnmpValue::OctetString(b"eth7".to_vec())),
        ],
        inform,
    }
}

#[test]
fn oids_are_labelled_by_the_first_covering_entry() {
    let idx = index();
    assert_eq!(resolve_oid(&idx, "1.3.6.1.2.1.2.2.1.2"), "ifDescr");
    assert_eq!(resolve_oid(&idx, "1.3.6.1.2.1.2.2.1.2.3"), "ifDescr.3");
    assert_eq!(resolve_oid(&idx, "1.3.6.1.2.1.2.2.1.20"), "1.3.6.1.2.1.2.2.1.20");
    assert_eq!(resolve_oid(&[], "1.2"), "1.2");
}

#[test]
fn a_v2c_notification_becomes_a_labelled_event() {
    let e = event_from_pdu(&v2_pdu(true), 7, "10.0.0.1:162".into(), 1234, &index());
    assert_eq!(e.seq, 7);
    assert_eq!(e.time_ms, 1234);
    assert_eq!(e.version, "SNMPv2c");
    assert_eq!(e.principal, "public");
    assert_eq!(e.trap_oid, "1.3.6.1.6.3.1.1.5.3");
    assert_eq!(e.trap_type, "linkDown");
    assert!(e.confirmed);
    assert_eq!(e.error, None);
    assert_eq!(e.varbinds.len(), 3);
    assert_eq!(e.varbinds[0].value, "00:00:01.00");
    assert_eq!(e.varbinds[2].name, "ifDescr.7");
    assert_eq!(e.varbinds[2].value, "eth7");
}

#[test]
fn a_notification_without_a_trap_oid_says_so() {
    let mut pdu = v2_pdu(false);
    pdu.varbinds.remove(1);
    let e = event_from_pdu(&pdu, 1, "s".into(), 0, &index());
    assert_eq!(e.trap_oid, "");
    assert_eq!(e.trap_type, "(no snmpTrapOID varbind)");
    assert!(!e.confirmed);
}

#[test]
fn v1_traps_use_generic_names_or_the_enterprise_oid() {
    let mut pdu = v2_pdu(true);
    pdu.version = Some(WireVersion::V1);
    pdu.varbinds.clear();
    pdu.v1_trap = Some(V1Trap { enterprise: "1.3.6.1.4.1.9".into(), generic_trap: 2, specific_trap: 0 });
    let e = event_from_pdu(&pdu, 1, "s".into(), 0, &index());
    assert_eq!(e.trap_oid, "1.3.6.1.6.3.1.1.5.3");
    assert_eq!(e.trap_type, "linkDown");
    assert!(!e.confirmed);
    assert_eq!(e.version, "SNMPv1");
    pdu.v1_trap = Some(V1Trap { enterprise: "1.3.6.1.4.1.9".into(), generic_trap: 6, specific_trap: 17 });
    let e = event_from_pdu(&pdu, 2, "s".into(), 0, &index());
    assert_eq!(e.trap_oid, "1.3.6.1.4.1.9.0.17");
    assert_eq!(e.trap_type, "cisco.0.17");
}

#[test]
fn an_undecodable_packet_becomes_an_error_event() {
    let e = error_event(3, "s".into(), 5, "bad packet".into());
    assert_eq!(e.version, "?");
    assert_eq!(e.error.as_deref(), Some("bad packet"));
    assert!(e.varbinds.is_empty());
}

#[test]
fn a_listener_keeps_only_its_version_and_community() {
    let c = config("v2c", "public", "");
    assert_eq!(listener_mode(&c), ListenerMode::Community(WireVersion::V2c));
    assert!(accepts_pdu(&c, WireVersion::V2c, &v2_pdu(false)));
    assert!(!accepts_pdu(&c, WireVersion::V1, &v2_pdu(false)));
    let other = config("v2c", "private", "");
    assert!(!accepts_pdu(&other, WireVersion::V2c, &v2_pdu(false)));
    let any = config("v2c", "", "");
    assert!(accepts_pdu(&any, WireVersion::V2c, &v2_pdu(false)));
    assert_eq!(listener_mode(&config("v3", "", "u")), ListenerMode::V3);
    assert_eq!(listener_mode(&config("v9", "", "")), ListenerMode::Ignore);
}

#[test]
fn listener_checks_come_in_order() {
    assert_eq!(check_listener(&config("v2c", "", ""), true).unwrap_err(), "this tab's trap listener is already running");
    assert_eq!(check_listener(&config("v9", "", ""), false).unwrap_err(), "unknown SNMP version 'v9'");
    assert_eq!(check_listener(&config("v3", "", "  "), false).unwrap_err(), "SNMPv3 selected but no security user is configured");
    assert_eq!(check_listener(&config("v3", "", "admin"), false).unwrap(), "0.0.0.0:1162");
    assert_eq!(security_plan(&config("v3", "", "admin")), Some(V3Auth::AuthNoPriv));
    assert_eq!(security_plan(&config("v3", "", " ")), None);
}

#[test]
fn the_buffer_is_capped_numbered_and_polled_after_a_number() {
    let mut b = TrapBuffer::new();
    for i in 0..(MAX_EVENTS + 5) {
        let seq = b.next_seq();
        assert_eq!(seq, i as u64 + 1);
        b.push(error_event(seq, "s".into(), 0, "x".into()));
    }
    assert_eq!(b.events.len(), MAX_EVENTS);
    assert_eq!(b.events[0].seq, 6);
    let newer = b.poll(MAX_EVENTS as u64);
    assert_eq!(newer.len(), 5);
    assert_eq!(newer[0].seq, MAX_EVENTS as u64 + 1);
    b.clear();
    assert!(b.poll(0).is_empty());
    assert_eq!(b.next_seq(), MAX_EVENTS as u64 + 6);
}

#[test]
fn local_addresses_are_sorted_and_deduplicated() {
    let r = sorted_unique(vec!["10.0.0.2".into(), "127.0.0.1".into(), "10.0.0.2".into(), "0.0.0.0".into()]);
    assert_eq!(r, vec!["0.0.0.0", "10.0.0.2", "127.0.0.1"]);
}

#[test]
fn a_poll_after_the_last_number_finds_nothing_new() {
    let mut b = TrapBuffer::new();
    for _ in 0..3 {
        let seq = b.next_seq();
        b.push(error_event(seq, "s".into(), 0, "x".into()));
    }
    assert!(b.poll(b.last_seq).is_empty());
    assert_eq!(b.poll(1).iter().map(|e| e.seq).collect::<Vec<_>>(), vec![2, 3]);
}

#[test]
fn the_longest_covering_entry_labels_an_oid_in_either_order() {
    let index = vec![
        ("1.3.6.1.2.1.2.2.1.2".to_string(), "ifDescr".to_string()),
        ("1.3.6.1.2.1".to_string(), "mib-2".to_string()),
    ];
    assert_eq!(resolve_oid(&index, "1.3.6.1.2.1.2.2.1.2.9"), "ifDescr.9");
    assert_eq!(resolve_oid(&index, "1.3.6.1.2.1.1.5.0"), "mib-2.1.5.0");
}

#[test]
fn the_longest_covering_entry_wins_when_listed_after_a_shorter_one() {
    let index = vec![
        ("1.3.6.1.2.1".to_string(), "mib-2".to_string()),
        ("1.3.6.1.2.1.2.2.1.2".to_string(), "ifDescr".to_string()),
    ];
    assert_eq!(resolve_oid(&index, "1.3.6.1.2.1.2.2.1.2.3"), "ifDescr.3");
    assert_eq!(resolve_oid(&index, "1.3.6.1.2.1.2.2.1.2"), "ifDescr");
    assert_eq!(resolve_oid(&index, "1.3.6.1.2.1.2.2.1.20"), "mib-2.2.2.1.20");
    assert_eq!(resolve_oid(&index, "1.3.6.1.4.1"), "1.3.6.1.4.1");
}

#[test]
fn numbers_given_after_a_clear_are_above_every_earlier_event() {
    let mut b = TrapBuffer::new();
    for _ in 0..4 {
        let seq = b.next_seq();
        b.push(error_event(seq, "s".into(), 0, "x".into()));
    }
    let highest = b.events.iter().map(|e| e.seq).max().unwrap();
    b.clear();
    let seq = b.next_seq();
    assert!(seq > highest);
    b.push(error_event(seq, "s".into(), 0, "x".into()));
    assert_eq!(b.poll(0).iter().map(|e| e.seq).collect::<Vec<_>>(), vec![5]);
}

/// A v2c SNMPv2-Trap from community `public`: sysUpTime.0 = 100 ticks and
/// snmpTrapOID.0 = coldStart.
fn v2c_cold_start(pdu_tag: u8) -> Vec<u8> {
    let mut v = vec![0x30, 0x40, 0x02, 0x01, 0x01, 0x04, 0x06];
    v.extend_from_slice(b"public");
    v.extend_from_slice(&[pdu_tag, 0x33, 0x02, 0x01, 0x01, 0x02, 0x01, 0x00, 0x02, 0x01, 0x00, 0x30, 0x28]);
    v.extend_from_slice(&[0x30, 0x0d, 0x06, 0x08, 0x2b, 0x06, 0x01, 0x02, 0x01, 0x01, 0x03, 0x00, 0x43, 0x01, 0x64]);
    v.extend_from_slice(&[0x30, 0x17, 0x06, 0x0a, 0x2b, 0x06, 0x01, 0x06, 0x03, 0x01, 0x01, 0x04, 0x01, 0x00]);
    v.extend_from_slice(&[0x06, 0x09, 0x2b, 0x06, 0x01, 0x06, 0x03, 0x01, 0x01, 0x05, 0x01]);
    v
}

#[test]
fn a_received_packet_decodes_into_the_pdu_it_carries() {
    let pdu = decode_pdu(&v2c_cold_start(0xa7)).unwrap();
    assert_eq!(pdu.version, Some(WireVersion::V2c));
    assert_eq!(pdu.community, b"public".to_vec());
    assert_eq!(pdu.principal, "public");
    assert!(pdu.v1_trap.is_none());
    assert!(!pdu.inform);
    assert_eq!(pdu.varbinds.len(), 2);
    assert_eq!(pdu.varbinds[0].0, "1.3.6.1.2.1.1.3.0");
    assert!(matches!(pdu.varbinds[0].1, SnmpValue::Timeticks(100)));
    assert_eq!(pdu.varbinds[1].0, "1.3.6.1.6.3.1.1.4.1.0");
    assert!(matches!(&pdu.varbinds[1].1, SnmpValue::ObjectIdentifier(o) if o == "1.3.6.1.6.3.1.1.5.1"));
    assert!(decode_pdu(&v2c_cold_start(0xa6)).unwrap().inform);
    assert!(decode_pdu(&[0x30, 0x03, 0x02, 0x01]).is_none());
    assert!(decode_pdu(b"not a packet").is_none());
}

#[test]
fn a_listener_keeps_only_packets_of_its_version_and_community() {
    let packet = v2c_cold_start(0xa7);
    assert!(accepted_pdu(&config("v2c", "public", ""), WireVersion::V2c, &packet).is_some());
    assert!(accepted_pdu(&config("v2c", "", ""), WireVersion::V2c, &packet).is_some());
    assert!(accepted_pdu(&config("v2c", "private", ""), WireVersion::V2c, &packet).is_none());
    assert!(accepted_pdu(&config("v1", "public", ""), WireVersion::V1, &packet).is_none());
    assert!(accepted_pdu(&config("v2c", "", ""), WireVersion::V2c, b"junk").is_none());
}
