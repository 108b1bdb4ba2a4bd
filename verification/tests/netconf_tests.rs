use snmp_mib_client::netconf::{collect_module_prefixes, find_subslice, frame_message, get_rpc_xml, try_parse_chunked, xml_escape_attr, Framing};

#[test]
fn chunked_framing_round_trips_through_write_and_parse() {
    let framed = frame_message(Framing::Chunked, "hello world");
    let (msg, consumed) = try_parse_chunked(&framed).unwrap().expect("a fully-framed message should parse in one pass");
    assert_eq!(msg, b"hello world");
    assert_eq!(consumed, framed.len());
}

#[test]
fn chunked_framing_reports_incomplete_rather_than_erroring() {
    let framed = frame_message(Framing::Chunked, "hello world");
    assert_eq!(try_parse_chunked(&framed[..framed.len() - 3]).unwrap(), None);
}

#[test]
fn eom_framing_finds_the_delimiter_and_leaves_no_trailing_bytes_consumed_twice() {
    let mut leftover = b"<hello/>]]>]]>".to_vec();
    let pos = find_subslice(&leftover, b"]]>]]>").unwrap();
    assert_eq!(&leftover[..pos], b"<hello/>");
    leftover.drain(..pos + 6);
    assert!(leftover.is_empty());
}

#[test]
fn collects_module_prefixes_while_ignoring_a_colon_inside_a_quoted_value() {
    let prefixes = collect_module_prefixes("/oc-if:interfaces/oc-if:interface[oc-if:name='eth0:1']");
    assert_eq!(prefixes, vec!["oc-if".to_string()]);
}

#[test]
fn root_path_omits_the_filter_even_without_xpath_support() {
    let xml = get_rpc_xml("/", false, &Vec::new()).unwrap();
    assert!(xml.contains("<get/>"));
    assert!(!xml.contains("filter"));
}

#[test]
fn a_qualified_path_without_xpath_support_is_rejected() {
    assert!(get_rpc_xml("/oc-if:interfaces", false, &Vec::new()).is_err());
}

#[test]
fn a_qualified_path_binds_its_modules_namespace() {
    let ns = vec![("oc-if".to_string(), "urn:example:oc-if".to_string())];
    let xml = get_rpc_xml("/oc-if:interfaces", true, &ns).unwrap();
    assert!(xml.contains(r#"xmlns:oc-if="urn:example:oc-if""#));
    assert!(xml.contains(r#"select="/oc-if:interfaces""#));
}

#[test]
fn eom_framing_appends_the_end_marker() {
    assert_eq!(frame_message(Framing::Eom, "<a/>"), b"<a/>]]>]]>".to_vec());
}

#[test]
fn chunked_framing_writes_one_chunk_and_the_end_marker() {
    assert_eq!(frame_message(Framing::Chunked, "abc"), b"\n#3\nabc\n##\n".to_vec());
}

#[test]
fn chunked_framing_joins_several_chunks() {
    let buf = b"\n#3\nabc\n#2\nde\n##\nrest";
    let (msg, consumed) = try_parse_chunked(buf).unwrap().unwrap();
    assert_eq!(msg, b"abcde");
    assert_eq!(consumed, buf.len() - 4);
}

#[test]
fn chunked_framing_rejects_malformed_headers() {
    assert!(try_parse_chunked(b"xx").is_err());
    assert!(try_parse_chunked(b"\n#x").is_err());
    assert!(try_parse_chunked(b"\n#3x").is_err());
    assert!(try_parse_chunked(b"\n##x").is_err());
}

#[test]
fn unknown_module_in_path_is_rejected() {
    let err = get_rpc_xml("/oc-if:interfaces", true, &Vec::new()).unwrap_err();
    assert!(err.contains("oc-if"));
}

#[test]
fn attribute_escaping_covers_the_markup_characters() {
    assert_eq!(xml_escape_attr("a&b<c>\"d"), "a&amp;b&lt;c&gt;&quot;d");
}

#[test]
fn find_subslice_reports_absence() {
    assert_eq!(find_subslice(b"abc", b"]]>]]>"), None);
    assert_eq!(find_subslice(b"xx]]>]]>", b"]]>]]>"), Some(2));
}

#[test]
fn every_prefix_of_a_chunked_message_reads_as_incomplete() {
    let framed = frame_message(Framing::Chunked, "<rpc-reply/>");
    for k in 0..framed.len() {
        assert_eq!(try_parse_chunked(&framed[..k]).unwrap(), None, "prefix {k}");
    }
    assert_eq!(try_parse_chunked(b"\n#").unwrap(), None);
    assert_eq!(try_parse_chunked(b"\n#3\nabc\n#").unwrap(), None);
}

#[test]
fn a_chunk_size_beyond_the_address_space_is_rejected() {
    let err = try_parse_chunked(b"\n#99999999999999999999999999\nabc").unwrap_err();
    assert_eq!(err, "invalid NETCONF chunk size");
}
