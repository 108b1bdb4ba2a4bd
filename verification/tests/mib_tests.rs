use snmp_mib_client::mib::{fetch_target, FetchTarget, MibReader, MibTreeNode, NodeKind, ParseResult, SymbolInfo, TableInfo};

const IF_TABLE_MIB: &str = r#"
TEST-MIB DEFINITIONS ::= BEGIN

mib-2 OBJECT IDENTIFIER ::= { 1 3 6 1 2 1 }
interfaces OBJECT IDENTIFIER ::= { mib-2 2 }

ifNumber OBJECT-TYPE
    SYNTAX INTEGER
    MAX-ACCESS read-only
    STATUS current
    DESCRIPTION "n"
    ::= { interfaces 1 }

ifTable OBJECT-TYPE
    SYNTAX SEQUENCE OF IfEntry
    MAX-ACCESS not-accessible
    STATUS current
    DESCRIPTION "t"
    ::= { interfaces 2 }

ifEntry OBJECT-TYPE
    SYNTAX IfEntry
    MAX-ACCESS not-accessible
    STATUS current
    DESCRIPTION "e"
    INDEX { ifIndex }
    ::= { ifTable 1 }

IfEntry ::= SEQUENCE {
    ifIndex INTEGER,
    ifDescr OCTET STRING,
    ifOperStatus INTEGER
}

ifIndex OBJECT-TYPE
    SYNTAX INTEGER
    MAX-ACCESS read-only
    STATUS current
    DESCRIPTION "i"
    ::= { ifEntry 1 }

ifDescr OBJECT-TYPE
    SYNTAX OCTET STRING
    MAX-ACCESS read-only
    STATUS current
    DESCRIPTION "d"
    ::= { ifEntry 2 }

ifOperStatus OBJECT-TYPE
    SYNTAX INTEGER { up(1), down(2), testing(3) }
    MAX-ACCESS read-only
    STATUS current
    DESCRIPTION "o"
    ::= { ifEntry 8 }

enterprises OBJECT IDENTIFIER ::= { private 1 }

END
"#;

fn parse_fixture(contents: &str) -> ParseResult {
    let mut reader = MibReader::new();
    reader.add_source("TEST.mib", contents);
    reader.finish()
}

fn symbol<'a>(r: &'a ParseResult, name: &str) -> Option<&'a SymbolInfo> {
    r.symbols.iter().find(|(n, _)| n == name).map(|(_, s)| s)
}

fn table<'a>(r: &'a ParseResult, name: &str) -> Option<&'a TableInfo> {
    r.tables.iter().find(|(n, _)| n == name).map(|(_, t)| t)
}

fn contains(nodes: &[MibTreeNode], id: &str) -> bool {
    nodes.iter().any(|n| n.id == id || contains(&n.children, id))
}

#[test]
fn resolves_absolute_oids_across_the_ancestor_chain() {
    let result = parse_fixture(IF_TABLE_MIB);
    let if_table = symbol(&result, "ifTable").expect("ifTable symbol");
    assert!(if_table.resolved, "ifTable should resolve via its full ancestor chain");
    assert_eq!(if_table.oid, "1.3.6.1.2.1.2.2");
    assert_eq!(if_table.kind, NodeKind::Table);
}

#[test]
fn unresolvable_ancestor_is_reported_not_guessed() {
    let result = parse_fixture(IF_TABLE_MIB);
    let enterprises = symbol(&result, "enterprises").expect("enterprises symbol");
    assert!(!enterprises.resolved);
    assert!(result.errors.iter().any(|fe| fe.errors.iter().any(|e| e.contains("enterprises"))));
}

#[test]
fn well_known_asn1_roots_resolve_without_being_declared() {
    let mib = r#"
TEST-MIB DEFINITIONS ::= BEGIN
org OBJECT IDENTIFIER ::= { iso 3 }
dod OBJECT IDENTIFIER ::= { org 6 }
END
"#;
    let result = parse_fixture(mib);
    let dod = symbol(&result, "dod").expect("dod symbol");
    assert!(dod.resolved, "dod should resolve through the well-known 'iso' root");
    assert_eq!(dod.oid, "1.3.6");
}

#[test]
fn table_appears_as_a_leaf_with_no_column_children_in_the_tree() {
    let result = parse_fixture(IF_TABLE_MIB);
    let iso = &result.tree[0];
    let mib2 = iso.children.iter().find(|n| n.id == "mib-2").expect("mib-2 under iso");
    let interfaces = mib2.children.iter().find(|n| n.id == "interfaces").expect("interfaces group");
    let if_table = interfaces.children.iter().find(|n| n.id == "ifTable").expect("ifTable node");
    assert_eq!(if_table.kind, NodeKind::Table);
    assert!(if_table.children.is_empty(), "table columns/entry should not appear as tree nodes");
}

#[test]
fn iso_is_the_sole_tree_root_and_unrelated_roots_are_filtered_out() {
    let result = parse_fixture(IF_TABLE_MIB);
    assert_eq!(result.tree.len(), 1, "tree should have exactly one root");
    let iso = &result.tree[0];
    assert_eq!(iso.id, "iso");
    assert_eq!(iso.oid, "1");
    assert!(iso.resolved);
    assert!(!contains(&result.tree, "enterprises"), "unresolved non-iso root should be filtered out");
}

#[test]
fn table_columns_come_from_the_sequence_definition_in_order_with_arcs() {
    let result = parse_fixture(IF_TABLE_MIB);
    let table = table(&result, "ifTable").expect("ifTable definition");
    assert!(table.resolved);
    assert_eq!(table.oid, "1.3.6.1.2.1.2.2");
    let names: Vec<&str> = table.columns.iter().map(|c| c.name.as_str()).collect();
    assert_eq!(names, vec!["ifIndex", "ifDescr", "ifOperStatus"]);
    let if_descr = table.columns.iter().find(|c| c.name == "ifDescr").unwrap();
    assert_eq!(if_descr.arc, Some(2));
    let if_oper = table.columns.iter().find(|c| c.name == "ifOperStatus").unwrap();
    assert_eq!(if_oper.enum_values, vec![(1, "up".to_string()), (2, "down".to_string()), (3, "testing".to_string())]);
}

#[test]
fn the_oid_index_lists_resolved_symbols_longest_oid_first() {
    let r = parse_fixture(IF_TABLE_MIB);
    let index = snmp_mib_client::mib::build_oid_index(&r.symbols);
    assert!(!index.is_empty());
    for w in index.windows(2) {
        assert!(w[0].0.len() >= w[1].0.len());
    }
    assert!(index.iter().any(|(oid, name)| oid == "1.3.6.1.2.1.2.2.1.2" && name == "ifDescr"));
    assert!(index.iter().all(|(_, name)| name != "enterprises"));
    assert_eq!(
        snmp_mib_client::trap::resolve_oid(&index, "1.3.6.1.2.1.2.2.1.2.5"),
        "ifDescr.5"
    );
    assert_eq!(snmp_mib_client::trap::resolve_oid(&index, "1.3.6.1.2.1.2.1.0"), "ifNumber.0");
}

fn sym(oid: &str, resolved: bool, kind: NodeKind) -> SymbolInfo {
    SymbolInfo { oid: oid.into(), resolved, kind }
}

#[test]
fn a_fetch_reads_a_table_or_a_resolved_scalar_and_refuses_the_rest() {
    let p = ParseResult {
        tree: Vec::new(),
        tables: vec![("ifTable".into(), TableInfo { oid: "1.3.6.1.2.1.2.2".into(), resolved: true, columns: Vec::new() })],
        symbols: vec![
            ("ifTable".into(), sym("1.3.6.1.2.1.2.2", true, NodeKind::Table)),
            ("sysUpTime".into(), sym("1.3.6.1.2.1.1.3", true, NodeKind::Scalar)),
            ("lost".into(), sym("", false, NodeKind::Scalar)),
            ("system".into(), sym("1.3.6.1.2.1.1", true, NodeKind::Group)),
            ("orphanTable".into(), sym("1.3.6.1.4.1.9", true, NodeKind::Table)),
        ],
        errors: Vec::new(),
    };
    assert!(matches!(fetch_target(&p, "ifTable"), Ok(FetchTarget::Table(0))));
    assert!(matches!(fetch_target(&p, "sysUpTime"), Ok(FetchTarget::Scalar(o)) if o == "1.3.6.1.2.1.1.3"));
    let refused = |id: &str| fetch_target(&p, id).err().map(|e| (e.status, e.message));
    assert_eq!(refused("nope"), Some((404, "unknown OID node 'nope'".to_string())));
    assert_eq!(refused("orphanTable"), Some((404, "no table definition found for 'orphanTable'".to_string())));
    assert_eq!(refused("lost"), Some((400, "'lost' could not be resolved to an absolute OID".to_string())));
    assert_eq!(refused("system"), Some((400, "'system' is a group, not a fetchable object".to_string())));
}
