use snmp_mib_client::netconf::{frame_message, take_message, Framing, NetconfNode};
use snmp_mib_client::netconf_xml::{
    framing_for, parse_get_reply, parse_hello, read_events, resolve_general_ref, xpath_supported, XmlEvent,
};

fn child<'a>(n: &'a NetconfNode, name: &str) -> &'a NetconfNode {
    n.children.iter().find(|c| c.name == name).unwrap()
}

#[test]
fn parses_server_hello_capabilities_and_session_id() {
    let xml = r#"<?xml version="1.0" encoding="UTF-8"?>
<hello xmlns="urn:ietf:params:xml:ns:netconf:base:1.0">
  <capabilities>
    <capability>urn:ietf:params:netconf:base:1.0</capability>
    <capability>urn:ietf:params:netconf:base:1.1</capability>
    <capability>urn:ietf:params:netconf:capability:xpath:1.0</capability>
  </capabilities>
  <session-id>42</session-id>
</hello>"#;
    let (caps, session_id) = parse_hello(xml).unwrap();
    assert_eq!(session_id, "42");
    assert_eq!(caps.len(), 3);
    assert!(caps.iter().any(|c| c.contains("base:1.1")));
}

#[test]
fn parses_a_get_reply_into_a_node_tree() {
    let xml = r#"<rpc-reply xmlns="urn:ietf:params:xml:ns:netconf:base:1.0" message-id="1">
  <data>
    <interfaces xmlns="urn:example:oc-if">
      <interface>
        <name>eth0</name>
        <state>
          <enabled>true</enabled>
        </state>
      </interface>
    </interfaces>
  </data>
</rpc-reply>"#;
    let roots = parse_get_reply(xml).unwrap();
    assert_eq!(roots.len(), 1);
    let interfaces = &roots[0];
    assert_eq!(interfaces.name, "interfaces");
    let interface = &interfaces.children[0];
    assert_eq!(interface.name, "interface");
    let name = child(interface, "name");
    assert_eq!(name.value.as_deref(), Some("eth0"));
    let state = child(interface, "state");
    let enabled = child(state, "enabled");
    assert_eq!(enabled.value.as_deref(), Some("true"));
}

#[test]
fn an_rpc_error_reply_is_surfaced_as_err() {
    let xml = r#"<rpc-reply xmlns="urn:ietf:params:xml:ns:netconf:base:1.0" message-id="1">
  <rpc-error>
    <error-type>application</error-type>
    <error-tag>invalid-value</error-tag>
    <error-message>no such element</error-message>
  </rpc-error>
</rpc-reply>"#;
    let err = parse_get_reply(xml).unwrap_err();
    assert_eq!(err, "no such element");
}

#[test]
fn get_reply_values_preserve_entity_and_char_references() {
    let xml = r#"<rpc-reply xmlns="urn:ietf:params:xml:ns:netconf:base:1.0" message-id="1">
  <data>
    <description>Port 1 &amp; 2 &lt;uplink&gt; &#65;&#x42;</description>
  </data>
</rpc-reply>"#;
    let roots = parse_get_reply(xml).unwrap();
    assert_eq!(roots[0].value.as_deref(), Some("Port 1 & 2 <uplink> AB"));
}

#[test]
fn get_reply_values_preserve_cdata_content() {
    let xml = r#"<rpc-reply xmlns="urn:ietf:params:xml:ns:netconf:base:1.0" message-id="1">
  <data>
    <config><![CDATA[<not-an-element>&stays-literal]]></config>
  </data>
</rpc-reply>"#;
    let roots = parse_get_reply(xml).unwrap();
    assert_eq!(roots[0].value.as_deref(), Some("<not-an-element>&stays-literal"));
}

#[test]
fn hello_capabilities_preserve_entity_references() {
    let xml = r#"<?xml version="1.0" encoding="UTF-8"?>
<hello xmlns="urn:ietf:params:xml:ns:netconf:base:1.0">
  <capabilities>
    <capability>urn:example:a&amp;b</capability>
  </capabilities>
  <session-id>1</session-id>
</hello>"#;
    let (caps, _) = parse_hello(xml).unwrap();
    assert_eq!(caps, vec!["urn:example:a&b".to_string()]);
}

#[test]
fn an_rpc_error_without_a_message_gets_the_fixed_text() {
    let xml = r#"<rpc-reply><rpc-error><error-tag>x</error-tag></rpc-error></rpc-reply>"#;
    assert_eq!(parse_get_reply(xml).unwrap_err(), "target returned a NETCONF rpc-error");
}

#[test]
fn a_reply_without_data_or_rpc_reply_is_an_error() {
    assert_eq!(parse_get_reply("<rpc-reply><ok/></rpc-reply>").unwrap_err(), "no <data> in NETCONF response");
    assert_eq!(parse_get_reply("<hello/>").unwrap_err(), "no <rpc-reply> in NETCONF response");
}

#[test]
fn an_extra_end_tag_is_unbalanced() {
    let err = parse_get_reply("<rpc-reply><data/></rpc-reply></x>");
    assert!(err.is_err());
}

#[test]
fn empty_elements_and_prefixed_names_use_the_local_name() {
    let roots = parse_get_reply("<nc:rpc-reply xmlns:nc=\"u\"><nc:data><a:leaf xmlns:a=\"v\"/><b>  </b></nc:data></nc:rpc-reply>").unwrap();
    assert_eq!(roots.len(), 2);
    assert_eq!(roots[0].name, "leaf");
    assert_eq!(roots[0].value, None);
    assert_eq!(roots[1].name, "b");
    assert_eq!(roots[1].value, None);
}

#[test]
fn references_resolve_to_characters_entities_or_themselves() {
    assert_eq!(resolve_general_ref("#65").unwrap(), "A");
    assert_eq!(resolve_general_ref("#x42").unwrap(), "B");
    assert_eq!(resolve_general_ref("amp").unwrap(), "&");
    assert_eq!(resolve_general_ref("custom").unwrap(), "&custom;");
    assert!(resolve_general_ref("#0").unwrap_err().starts_with("invalid character reference: "));
    assert!(resolve_general_ref("#xZZ").is_err());
}

#[test]
fn framing_and_xpath_follow_the_announced_capabilities() {
    let caps = vec!["urn:ietf:params:netconf:base:1.1".to_string(), "urn:ietf:params:netconf:capability:xpath:1.0".to_string()];
    assert_eq!(framing_for(&caps), Framing::Chunked);
    assert!(xpath_supported(&caps));
    let old = vec!["urn:ietf:params:netconf:base:1.0".to_string()];
    assert_eq!(framing_for(&old), Framing::Eom);
    assert!(!xpath_supported(&old));
}

#[test]
fn take_message_splits_off_one_framed_message() {
    let mut pending = frame_message(Framing::Eom, "<hello/>");
    pending.extend_from_slice(b"<next");
    assert_eq!(take_message(Framing::Eom, &mut pending).unwrap(), Some(b"<hello/>".to_vec()));
    assert_eq!(pending, b"<next".to_vec());
    assert_eq!(take_message(Framing::Eom, &mut pending).unwrap(), None);
    assert_eq!(pending, b"<next".to_vec());

    let mut chunked = frame_message(Framing::Chunked, "abc");
    chunked.extend_from_slice(b"\n#");
    assert_eq!(take_message(Framing::Chunked, &mut chunked).unwrap(), Some(b"abc".to_vec()));
    assert_eq!(chunked, b"\n#".to_vec());
    let mut bad = b"xx".to_vec();
    assert!(take_message(Framing::Chunked, &mut bad).is_err());
    assert_eq!(bad, b"xx".to_vec());
}

#[test]
fn malformed_xml_is_reported_with_its_context() {
    let err = parse_get_reply("<rpc-reply><data></nope></rpc-reply>").unwrap_err();
    assert!(err.starts_with("failed to parse NETCONF response: "), "{err}");
    let err = parse_hello("<hello><a></b></hello>").unwrap_err();
    assert!(err.starts_with("failed to parse NETCONF hello: "), "{err}");
    assert!(parse_get_reply("<rpc-reply><data>&#0;</data></rpc-reply>").unwrap_err().starts_with("invalid character reference: "));
}

#[test]
fn events_are_read_in_document_order_up_to_the_end() {
    let evs = read_events("<a x=\"1\"><b/>t&amp;<![CDATA[c]]></a>");
    assert_eq!(evs.len(), 7);
    assert!(matches!(&evs[0], XmlEvent::Start(n) if n == "a"));
    assert!(matches!(&evs[1], XmlEvent::Empty(n) if n == "b"));
    assert!(matches!(&evs[2], XmlEvent::Text(t) if t == "t"));
    assert!(matches!(&evs[3], XmlEvent::Ref(r) if r == "amp"));
    assert!(matches!(&evs[4], XmlEvent::CData(c) if c == "c"));
    assert!(matches!(&evs[5], XmlEvent::End));
    assert!(matches!(&evs[6], XmlEvent::Eof));
    let bad = read_events("<a></b>");
    assert!(matches!(bad.last(), Some(XmlEvent::Error(_))));
    assert!(matches!(read_events("").as_slice(), [XmlEvent::Eof]));
}
