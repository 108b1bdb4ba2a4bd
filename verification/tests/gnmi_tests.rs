use snmp_mib_client::gnmi::{parse_path, render_elem, PathElem};

fn key<'a>(e: &'a PathElem, k: &str) -> Option<&'a str> {
    e.key.iter().find(|(kk, _)| kk == k).map(|(_, v)| v.as_str())
}

#[test]
fn parses_quoted_key_value_containing_a_slash() {
    let path =
        "/org-openroadm-device:org-openroadm-device/org-openroadm-device:circuit-packs[org-openroadm-device:circuit-pack-name='1/AWG']/org-openroadm-device:ports[org-openroadm-device:port-name='9210']";
    let parsed = parse_path(path).expect("path should parse");
    assert_eq!(parsed.elem.len(), 3);
    assert_eq!(parsed.elem[1].name, "org-openroadm-device:circuit-packs");
    assert_eq!(key(&parsed.elem[1], "org-openroadm-device:circuit-pack-name"), Some("1/AWG"));
    assert_eq!(parsed.elem[2].name, "org-openroadm-device:ports");
    assert_eq!(key(&parsed.elem[2], "org-openroadm-device:port-name"), Some("9210"));
}

#[test]
fn parses_unquoted_key_value() {
    let parsed = parse_path("/interfaces/interface[name=eth0]/state").expect("path should parse");
    assert_eq!(parsed.elem.len(), 3);
    assert_eq!(key(&parsed.elem[1], "name"), Some("eth0"));
}

#[test]
fn rejects_a_truly_unterminated_bracket() {
    assert!(parse_path("/interfaces/interface[name=eth0").is_err());
}

#[test]
fn render_elem_roundtrips_through_parse_path() {
    let elem = PathElem { name: "circuit-packs".to_string(), key: vec![("circuit-pack-name".to_string(), "1/AWG".to_string())] };
    let rendered = render_elem(&elem);
    let reparsed = parse_path(&format!("/{rendered}")).expect("re-rendered path should parse");
    assert_eq!(key(&reparsed.elem[0], "circuit-pack-name"), Some("1/AWG"));
}

use snmp_mib_client::gnmi::{build_result_tree, format_scalar_typed_value, insert_update, unquote, GnmiNode, JsonValue, Notification, TypedValue, Update};

fn elem(name: &str, keys: &[(&str, &str)]) -> PathElem {
    PathElem { name: name.to_string(), key: keys.iter().map(|(k, v)| (k.to_string(), v.to_string())).collect() }
}

fn child<'a>(n: &'a [GnmiNode], name: &str) -> &'a GnmiNode {
    n.iter().find(|c| c.name == name).unwrap()
}

#[test]
fn rendering_orders_predicates_by_key_name() {
    let e = elem("interface", &[("name", "eth0"), ("id", "7")]);
    assert_eq!(render_elem(&e), "interface[id=7][name=eth0]");
    assert_eq!(render_elem(&elem("state", &[])), "state");
}

#[test]
fn a_rendered_element_with_several_keys_parses_back() {
    let e = elem("port", &[("slot", "1/2"), ("idx", "a=b")]);
    let reparsed = parse_path(&format!("/{}", render_elem(&e))).unwrap();
    assert_eq!(reparsed.elem.len(), 1);
    assert_eq!(reparsed.elem[0].name, "port");
    assert_eq!(key(&reparsed.elem[0], "slot"), Some("1/2"));
    assert_eq!(key(&reparsed.elem[0], "idx"), Some("a=b"));
}

#[test]
fn a_predicate_without_equals_is_rejected_and_quotes_are_stripped() {
    assert_eq!(parse_path("/a[b]").err(), Some("expected key=value in 'b'".to_string()));
    assert_eq!(parse_path("/a[k=\"x]y\"]").unwrap().elem[0].key[0].1, "x]y");
    assert_eq!(unquote("'v'"), "v");
    assert_eq!(unquote("'v\""), "'v\"");
    assert!(parse_path("").unwrap().elem.is_empty());
}

#[test]
fn typed_values_are_shown_as_text() {
    assert_eq!(format_scalar_typed_value(&TypedValue::IntVal(-3)), "-3");
    assert_eq!(format_scalar_typed_value(&TypedValue::BytesVal(vec![1, 0xab])), "01ab");
    assert_eq!(format_scalar_typed_value(&TypedValue::DecimalVal(1234, 2)), "1234e-2");
    assert_eq!(
        format_scalar_typed_value(&TypedValue::LeaflistVal(vec![TypedValue::BoolVal(true), TypedValue::UintVal(5)])),
        "true, 5"
    );
    assert_eq!(format_scalar_typed_value(&TypedValue::AnyVal), "(protobuf Any value)");
}

#[test]
fn updates_build_a_tree_and_json_leaves_become_children() {
    let notifs = vec![Notification {
        prefix: vec![elem("interfaces", &[]), elem("interface", &[("name", "eth0")])],
        update: vec![
            Update { path: vec![elem("state", &[]), elem("mtu", &[])], val: Some(TypedValue::UintVal(1500)) },
            Update {
                path: vec![elem("config", &[])],
                val: Some(TypedValue::JsonIetfVal(Some(JsonValue::Object(vec![
                    ("enabled".to_string(), JsonValue::Bool(true)),
                    ("vlans".to_string(), JsonValue::Array(vec![JsonValue::Number("10".into())])),
                ])))),
            },
        ],
    }];
    let roots = build_result_tree(&notifs);
    assert_eq!(roots.len(), 1);
    let iface = child(&child(&roots, "interfaces").children, "interface[name=eth0]");
    assert_eq!(child(&child(&iface.children, "state").children, "mtu").value.as_deref(), Some("1500"));
    let config = child(&iface.children, "config");
    assert_eq!(child(&config.children, "enabled").value.as_deref(), Some("true"));
    assert_eq!(child(&child(&config.children, "vlans").children, "0").value.as_deref(), Some("10"));
}

#[test]
fn values_with_brackets_or_quotes_are_quoted_and_parse_back() {
    let e = elem("x", &[("k", "a]b"), ("q", "it's"), ("d", "say \"hi\"")]);
    let rendered = render_elem(&e);
    assert_eq!(rendered, "x[d='say \"hi\"'][k='a]b'][q=\"it's\"]");
    let reparsed = parse_path(&format!("/{rendered}")).unwrap();
    assert_eq!(reparsed.elem.len(), 1);
    assert_eq!(reparsed.elem[0].name, "x");
    assert_eq!(key(&reparsed.elem[0], "k"), Some("a]b"));
    assert_eq!(key(&reparsed.elem[0], "q"), Some("it's"));
    assert_eq!(key(&reparsed.elem[0], "d"), Some("say \"hi\""));
    assert_eq!(render_elem(&elem("y", &[("k", "'v'")])), "y[k=\"'v'\"]");
    assert_eq!(render_elem(&elem("y", &[("k", "[a")])), "y[k='[a']");
}

#[test]
fn rendering_does_not_depend_on_the_order_of_the_keys() {
    let a = elem("if", &[("b", "2"), ("a", "1"), ("c", "x]")]);
    let b = elem("if", &[("c", "x]"), ("a", "1"), ("b", "2")]);
    assert_eq!(render_elem(&a), render_elem(&b));
    assert_eq!(render_elem(&a), "if[a=1][b=2][c='x]']");
}

#[test]
fn updates_under_the_same_path_share_one_node_per_name() {
    let mut roots: Vec<GnmiNode> = Vec::new();
    let path = vec![elem("a", &[]), elem("b", &[("k", "1")])];
    insert_update(&mut roots, &path, Some(&TypedValue::UintVal(1)));
    insert_update(&mut roots, &path, Some(&TypedValue::UintVal(2)));
    insert_update(&mut roots, &[elem("a", &[]), elem("c", &[])], None);
    assert_eq!(roots.len(), 1);
    assert_eq!(roots[0].name, "a");
    let names: Vec<&str> = roots[0].children.iter().map(|c| c.name.as_str()).collect();
    assert_eq!(names, vec!["b[k=1]", "c"]);
    assert_eq!(roots[0].children[0].value.as_deref(), Some("2"));
}

#[test]
fn names_holding_closed_quotes_render_and_parse_back() {
    let reparsed = parse_path("/a'b'[k=x/y]").unwrap();
    let e = &reparsed.elem[0];
    assert_eq!(e.name, "a'b'");
    let again = parse_path(&format!("/{}", render_elem(e))).unwrap();
    assert_eq!(again.elem.len(), 1);
    assert_eq!(again.elem[0].name, "a'b'");
    assert_eq!(key(&again.elem[0], "k"), Some("x/y"));
}
