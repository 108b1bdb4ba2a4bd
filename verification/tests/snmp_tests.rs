use snmp_mib_client::mib::{ColumnInfo, TableInfo};
use snmp_mib_client::snmp::{
    arcs_from_dotted, arcs_under, fetch_scalar, format_octet_string, format_timeticks, format_value, oid_from_dotted,
    scalar_instance_oid, session_plan, uses_bulk, v3_auth_mode, ConnectionParams, SessionPlan, SnmpValue,
    SubtreeWalk, TableWalk, V3Auth, WalkStep, WalkVarbind, MAX_ITERATIONS,
};

fn lookup<'a>(row: &'a [(String, String)], key: &str) -> Option<&'a str> {
    row.iter().find(|(k, _)| k == key).map(|(_, v)| v.as_str())
}

fn params(version: &str, auth: &str, privacy: &str) -> ConnectionParams {
    ConnectionParams {
        host_addr: "127.0.0.1".into(),
        host_port: "161".into(),
        version: version.into(),
        community: "public".into(),
        v3_user: "u".into(),
        v3_auth: auth.into(),
        v3_priv: privacy.into(),
    }
}

#[test]
fn octet_strings_show_as_text_or_hex_pairs() {
    assert_eq!(format_octet_string(b"eth0"), "eth0");
    assert_eq!(format_octet_string(&[0x0a, 0xff, 0x00]), "0a:ff:00");
    assert_eq!(format_octet_string(&[]), "");
    assert_eq!(format_octet_string(b"tab\there"), "74:61:62:09:68:65:72:65");
}

#[test]
fn timeticks_show_days_and_a_padded_clock() {
    assert_eq!(format_timeticks(0), "00:00:00.00");
    assert_eq!(format_timeticks(123456), "00:20:34.56");
    assert_eq!(format_timeticks(8_640_000), "1d 00:00:00.00");
    assert_eq!(format_timeticks(u32::MAX), "497d 02:27:52.95");
}

#[test]
fn values_are_shown_by_their_kind() {
    let labels = vec![(1i64, "up".to_string()), (2, "down".to_string())];
    assert_eq!(format_value(&SnmpValue::Integer(2), &labels), "down(2)");
    assert_eq!(format_value(&SnmpValue::Integer(-7), &labels), "-7");
    assert_eq!(format_value(&SnmpValue::IpAddress([192, 168, 0, 1]), &[]), "192.168.0.1");
    assert_eq!(format_value(&SnmpValue::Counter64(u64::MAX), &[]), "18446744073709551615");
    assert_eq!(format_value(&SnmpValue::Opaque(vec![0xde, 0xad]), &[]), "dead");
    assert_eq!(format_value(&SnmpValue::Boolean(true), &[]), "true");
    assert_eq!(format_value(&SnmpValue::Null, &[]), "");
    assert_eq!(format_value(&SnmpValue::NoSuchObject, &[]), "(no such object)");
    assert_eq!(format_value(&SnmpValue::NoSuchInstance, &[]), "(no such instance)");
    assert_eq!(format_value(&SnmpValue::EndOfMibView, &[]), "(end of MIB view)");
    assert_eq!(format_value(&SnmpValue::Timeticks(100), &[]), "00:00:01.00");
    assert_eq!(format_value(&SnmpValue::ObjectIdentifier("1.3.6.1".into()), &[]), "1.3.6.1");
}

#[test]
fn a_session_follows_the_version_and_v3_passwords() {
    assert_eq!(session_plan(&params("v1", "", "")).unwrap(), SessionPlan::V1);
    assert_eq!(session_plan(&params("v2c", "", "")).unwrap(), SessionPlan::V2c);
    assert_eq!(session_plan(&params("v3", "", "p")).unwrap(), SessionPlan::V3(V3Auth::NoAuthNoPriv));
    assert_eq!(session_plan(&params("v3", "a", "")).unwrap(), SessionPlan::V3(V3Auth::AuthNoPriv));
    assert_eq!(session_plan(&params("v3", "a", "p")).unwrap(), SessionPlan::V3(V3Auth::AuthPriv));
    assert_eq!(session_plan(&params("v4", "", "")).unwrap_err(), "unknown SNMP version 'v4'");
    assert_eq!(v3_auth_mode("", ""), V3Auth::NoAuthNoPriv);
    assert!(uses_bulk("v2c") && uses_bulk("v3") && !uses_bulk("v1"));
}

#[test]
fn dotted_oids_are_parsed_and_checked() {
    assert_eq!(arcs_from_dotted(".1.3..6").unwrap(), vec![1, 3, 6]);
    assert_eq!(arcs_from_dotted("1.x"), None);
    assert!(oid_from_dotted("1.3.6.1.2.1").is_ok());
    assert_eq!(oid_from_dotted("1.x").unwrap_err(), "invalid OID '1.x'");
    assert_eq!(oid_from_dotted("8.1").unwrap_err(), "invalid OID '8.1': FirstComponentsTooLarge");
    assert_eq!(oid_from_dotted("1").unwrap_err(), "invalid OID '1': TooShort");
    assert!(scalar_instance_oid("1.3.6.1.2.1.1.3").is_ok());
    assert_eq!(scalar_instance_oid("x").unwrap_err(), "invalid OID 'x.0'");
}

#[test]
fn a_scalar_fetch_is_one_value_row() {
    let r = fetch_scalar(Some(&SnmpValue::Timeticks(100)));
    assert_eq!(r.columns, vec!["Value".to_string()]);
    assert_eq!(r.rows.len(), 1);
    assert_eq!(r.rows[0], vec![("Value".to_string(), "00:00:01.00".to_string())]);
    assert!(r.display_hints.is_empty());
    let empty = fetch_scalar(None);
    assert_eq!(empty.rows.len(), 1);
    assert!(empty.rows[0].is_empty());
}

fn if_table() -> TableInfo {
    TableInfo {
        oid: "1.3.6.1.2.1.2.2".into(),
        resolved: true,
        columns: vec![
            ColumnInfo { name: "ifIndex".into(), arc: Some(1), enum_values: vec![], display_hint: None },
            ColumnInfo { name: "ifDescr".into(), arc: Some(2), enum_values: vec![], display_hint: Some("255a".into()) },
            ColumnInfo {
                name: "ifOperStatus".into(),
                arc: Some(8),
                enum_values: vec![(1, "up".into()), (2, "down".into())],
                display_hint: None,
            },
        ],
    }
}

fn vb(arcs: &[u64], value: SnmpValue) -> WalkVarbind {
    WalkVarbind { in_subtree: true, arcs: Some(arcs.to_vec()), value }
}

#[test]
fn a_table_walk_collects_rows_by_index_in_first_seen_order() {
    let table = if_table();
    let (mut walk, _start) = match TableWalk::start(&table) {
        Ok(w) => w,
        Err(e) => panic!("{e}"),
    };
    assert_eq!(walk.base_len, 8);
    let batch = vec![
        vb(&[1, 3, 6, 1, 2, 1, 2, 2, 1, 1, 1], SnmpValue::Integer(1)),
        vb(&[1, 3, 6, 1, 2, 1, 2, 2, 1, 1, 2], SnmpValue::Integer(2)),
        vb(&[1, 3, 6, 1, 2, 1, 2, 2, 1, 2, 1], SnmpValue::OctetString(b"eth0".to_vec())),
        vb(&[1, 3, 6, 1, 2, 1, 2, 2, 1, 8, 1], SnmpValue::Integer(1)),
        vb(&[1, 3, 6, 1, 2, 1, 2, 2, 1, 9, 1], SnmpValue::Integer(5)),
    ];
    assert_eq!(walk.step(&table, &batch), WalkStep::Continue(4));
    let end = vec![
        vb(&[1, 3, 6, 1, 2, 1, 2, 2, 1, 8, 2], SnmpValue::Integer(2)),
        WalkVarbind { in_subtree: false, arcs: Some(vec![1, 3, 6, 1, 2, 1, 2, 3]), value: SnmpValue::Integer(0) },
    ];
    assert_eq!(walk.step(&table, &end), WalkStep::Done);
    assert_eq!(walk.requests, 2);
    let r = walk.result(&table);
    assert_eq!(r.columns, vec!["Index", "ifIndex", "ifDescr", "ifOperStatus"]);
    assert_eq!(r.rows.len(), 2);
    assert_eq!(lookup(&r.rows[0], "Index"), Some("1"));
    assert_eq!(lookup(&r.rows[0], "ifIndex"), Some("1"));
    assert_eq!(lookup(&r.rows[0], "ifDescr"), Some("eth0"));
    assert_eq!(lookup(&r.rows[0], "ifOperStatus"), Some("up(1)"));
    assert_eq!(lookup(&r.rows[1], "Index"), Some("2"));
    assert_eq!(lookup(&r.rows[1], "ifOperStatus"), Some("down(2)"));
    assert_eq!(lookup(&r.rows[1], "ifDescr"), None);
    assert_eq!(r.display_hints, vec![("ifDescr".to_string(), "255a".to_string())]);
}

#[test]
fn a_table_walk_needs_a_resolved_oid() {
    let mut table = if_table();
    table.resolved = false;
    assert!(TableWalk::start(&table).is_err());
    let mut bad = if_table();
    bad.oid = "9.9".into();
    assert!(TableWalk::start(&bad).is_err());
}

#[test]
fn a_walk_stops_on_an_empty_reply_or_the_end_of_the_view() {
    let table = if_table();
    let (mut walk, _) = match TableWalk::start(&table) {
        Ok(w) => w,
        Err(e) => panic!("{e}"),
    };
    assert_eq!(walk.step(&table, &vec![]), WalkStep::Done);
    let end = vec![WalkVarbind { in_subtree: true, arcs: None, value: SnmpValue::EndOfMibView }];
    assert_eq!(walk.step(&table, &end), WalkStep::Done);
    assert!(walk.result(&table).rows.is_empty());
}

#[test]
fn a_subtree_walk_counts_varbinds_and_notes_truncation() {
    let mut w = SubtreeWalk::new();
    let three = vec![
        vb(&[1, 3, 1], SnmpValue::Null),
        vb(&[1, 3, 2], SnmpValue::Null),
        vb(&[1, 3, 3], SnmpValue::Null),
    ];
    assert_eq!(w.step(&three), WalkStep::Continue(2));
    assert!(w.truncated);
    let ending = vec![vb(&[1, 3, 4], SnmpValue::Null), WalkVarbind { in_subtree: false, arcs: None, value: SnmpValue::Null }];
    assert_eq!(w.step(&ending), WalkStep::Done);
    assert_eq!(w.varbinds, 4);
    assert_eq!(w.requests, 2);
    assert!(!w.truncated);
    assert_eq!(MAX_ITERATIONS, 5000);
}

#[test]
fn dotted_text_encodes_to_the_oid_of_its_arcs() {
    assert_eq!(oid_from_dotted("1.3.6.1.2.1").unwrap().to_id_string(), "1.3.6.1.2.1");
    assert_eq!(oid_from_dotted("1.3.6.1.2.1").unwrap(), snmp2::Oid::from(&[1u64, 3, 6, 1, 2, 1][..]).unwrap());
    assert_eq!(scalar_instance_oid("1.3.6.1.2.1.1.3").unwrap().to_id_string(), "1.3.6.1.2.1.1.3.0");
    let table = TableInfo { oid: "1.3.6.1.2.1.2.2".into(), resolved: true, columns: Vec::new() };
    let (_, base) = TableWalk::start(&table).unwrap();
    assert_eq!(base.to_id_string(), "1.3.6.1.2.1.2.2");
}

#[test]
fn a_reply_oid_is_in_the_subtree_when_the_base_arcs_lead_it() {
    let base = [1u64, 3, 6, 1, 2, 1, 2, 2];
    assert!(arcs_under(&base, &Some(vec![1, 3, 6, 1, 2, 1, 2, 2, 1, 2, 3])));
    assert!(arcs_under(&base, &Some(base.to_vec())));
    assert!(!arcs_under(&base, &Some(vec![1, 3, 6, 1, 2, 1, 2, 3])));
    assert!(!arcs_under(&base, &Some(vec![1, 3, 6, 1, 2, 1, 2])));
    assert!(!arcs_under(&base, &Some(vec![1, 3, 6, 1, 2, 1, 2, 20, 1])));
    assert!(!arcs_under(&base, &None));
    assert!(arcs_under(&[], &Some(vec![1, 3])));
}
