//! Reading NETCONF messages: the capabilities and session id of a server's
//! `<hello>`, and the element tree of a `<get>` reply. The XML is read with
//! `quick-xml` as a sequence of events; the rest is decided here.
//!
//! Text is accumulated per element from text, CDATA and reference events
//! and trimmed as a whole, so whitespace next to an entity or character
//! reference is kept.

use vstd::prelude::*;
use quick_xml::events::Event;
use crate::gnmi::{opt_view, TreeModel};
use crate::netconf::NetconfNode;
use crate::text::{chars_of, push_char, push_chars, push_str, str_eq, string_of, trim_chars, trimmed};

verus! {

/// One event of an XML reader, as this module uses it.
pub enum XmlEvent {
    /// An opening tag, by its local (unprefixed) name.
    Start(String),
    End,
    /// A self-closing tag, by its local name.
    Empty(String),
    /// Text, as written (references come as their own events).
    Text(String),
    /// The content of a CDATA section.
    CData(String),
    /// A reference `&name;` or `&#number;`, by what stands between `&` and `;`.
    Ref(String),
    Eof,
    /// A reading error, with the reader's message.
    Error(String),
    /// Anything else (declarations, comments, processing instructions).
    Other,
}

#[verifier::external_type_specification]
#[verifier::external_body]
#[verifier::reject_recursive_types(R)]
pub struct ExXmlReader<R>(quick_xml::Reader<R>);

/// The reader over `xml` that `Reader::from_str` makes, after `n` calls of
/// `read_event`. The reader holds the text and what those calls left, so it
/// is a function of the text and the count.
pub uninterp spec fn reader_after(xml: Seq<char>, n: nat) -> quick_xml::Reader<&'static [u8]>;

/// The event that call number `n` (from 0) of `read_event` gives on a
/// reader made by `Reader::from_str(xml)`, as this module converts it.
pub uninterp spec fn event_at(xml: Seq<char>, n: nat) -> XmlEvent;

/// `quick_xml::Reader::from_str`: a reader over `xml` that has read nothing.
#[verifier::external_body]
fn xml_reader<'a>(xml: &'a str) -> (r: quick_xml::Reader<&'a [u8]>)
    ensures
        r == reader_after(xml@, 0),
{
    quick_xml::Reader::from_str(xml)
}

/// `quick_xml::Reader::read_event` on a reader over `xml` that has given
/// `n` events: the next event (a reading error by its `Display` text), and
/// the reader one event further on. `xml` and `n` say which reader it is.
#[verifier::external_body]
#[allow(unused_variables)]
fn read_xml_event(reader: &mut quick_xml::Reader<&[u8]>, xml: &str, n: usize) -> (r: XmlEvent)
    requires
        *old(reader) == reader_after(xml@, n as nat),
    ensures
        r == event_at(xml@, n as nat),
        *final(reader) == reader_after(xml@, n as nat + 1),
{
    match reader.read_event() {
        Ok(Event::Start(e)) => XmlEvent::Start(e.local_name().into_inner().to_string()),
        Ok(Event::End(_)) => XmlEvent::End,
        Ok(Event::Empty(e)) => XmlEvent::Empty(e.local_name().into_inner().to_string()),
        Ok(Event::Text(t)) => XmlEvent::Text(t.into_inner().into_owned()),
        Ok(Event::CData(c)) => XmlEvent::CData(c.into_inner().into_owned()),
        Ok(Event::GeneralRef(g)) => XmlEvent::Ref(g.into_inner().into_owned()),
        Ok(Event::Eof) => XmlEvent::Eof,
        Ok(_) => XmlEvent::Other,
        Err(e) => XmlEvent::Error(e.to_string()),
    }
}

/// Whether an event ends a reading: the end of input or an error.
pub open spec fn is_last_event(ev: XmlEvent) -> bool {
    ev is Eof || ev is Error
}

/// The events of `xml` from call number `n` on, up to the end of input or
/// the first error, and at most `fuel + 1` of them.
pub open spec fn events_from(xml: Seq<char>, n: nat, fuel: nat) -> Seq<XmlEvent>
    decreases fuel,
{
    let ev = event_at(xml, n);
    if is_last_event(ev) || fuel == 0 {
        seq![ev]
    } else {
        seq![ev] + events_from(xml, n + 1, (fuel - 1) as nat)
    }
}

/// The events `quick-xml` reads from `xml`: up to the end of input or the
/// first error. Each event before the end takes at least one character, so
/// the bound of one event per character (and one more) only matters for a
/// faulty reader, whose reading then has no end.
pub open spec fn xml_events(xml: Seq<char>) -> Seq<XmlEvent> {
    events_from(xml, 0, xml.len())
}

/// Reads the events of `xml` (see `xml_events`).
pub fn read_events(xml: &str) -> (r: Vec<XmlEvent>)
    ensures
        r@ == xml_events(xml@),
{
    let mut reader = xml_reader(xml);
    let fuel = xml.unicode_len();
    let mut out: Vec<XmlEvent> = Vec::new();
    let mut n: usize = 0;
    loop
        invariant
            n <= fuel,
            fuel == xml@.len(),
            reader == reader_after(xml@, n as nat),
            out@ + events_from(xml@, n as nat, (fuel - n) as nat) == xml_events(xml@),
        decreases fuel - n,
    {
        let ev = read_xml_event(&mut reader, xml, n);
        let last = match ev {
            XmlEvent::Eof => true,
            XmlEvent::Error(_) => true,
            _ => false,
        };
        let ghost rest = events_from(xml@, n as nat, (fuel - n) as nat);
        let ghost e0 = ev;
        out.push(ev);
        if last || n == fuel {
            assert(rest == seq![e0]);
            return out;
        }
        assert(rest == seq![e0] + events_from(xml@, n as nat + 1, (fuel - n - 1) as nat));
        assert(out@ + events_from(xml@, n as nat + 1, (fuel - n - 1) as nat) =~= xml_events(xml@));
        n = n + 1;
    }
}

/// The value of a run of digits in `radix` (10 or 16, either case), or
/// `None` when it is empty or holds another character.
pub open spec fn radix_value(s: Seq<char>, radix: nat) -> Option<nat>
    decreases s.len(),
{
    if s.len() == 0 {
        None
    } else {
        let c = s.last();
        let d: int = if '0' <= c && c <= '9' {
            c as int - '0' as int
        } else if 'a' <= c && c <= 'f' {
            c as int - 'a' as int + 10
        } else if 'A' <= c && c <= 'F' {
            c as int - 'A' as int + 10
        } else {
            99
        };
        if d >= radix {
            None
        } else if s.len() == 1 {
            Some(d as nat)
        } else {
            match radix_value(s.drop_last(), radix) {
                Some(v) => Some(v * radix + d as nat),
                None => None,
            }
        }
    }
}

/// The character a reference stands for: `None` when it is a malformed
/// character reference; `Some(None)` when it is not a character reference
/// (no leading `#`); `Some(Some(c))` for `#<decimal>` or `#x<hex>` naming a
/// character other than NUL.
pub open spec fn char_ref_spec(raw: Seq<char>) -> Option<Option<char>> {
    if raw.len() == 0 || raw[0] != '#' {
        Some(None)
    } else {
        let num = raw.drop_first();
        let v = if num.len() > 0 && num[0] == 'x' { radix_value(num.drop_first(), 16) } else { radix_value(num, 10) };
        match v {
            Some(code) => if 0 < code <= 0x10FFFF && !(0xD800 <= code <= 0xDFFF) {
                Some(Some(code as char))
            } else {
                None
            },
            None => None,
        }
    }
}

/// The message `quick-xml` gives for a malformed character reference.
pub uninterp spec fn char_ref_error(raw: Seq<char>) -> Seq<char>;

/// `BytesRef::resolve_char_ref` of `quick-xml` on the reference `raw`: by
/// its source, a reference without a leading `#` gives `Ok(None)`; after
/// `#`, an optional `x` selects hexadecimal, the digits (no sign) must fit a
/// `u32`, and the code must name a character other than NUL; otherwise an
/// error, returned by its `Display` text.
#[verifier::external_body]
fn char_ref(raw: &str) -> (r: Result<Option<char>, String>)
    ensures
        r is Ok <==> char_ref_spec(raw@) is Some,
        r matches Ok(x) ==> char_ref_spec(raw@) == Some(x),
        r matches Err(e) ==> e@ == char_ref_error(raw@),
{
    quick_xml::events::BytesRef::new(raw).resolve_char_ref().map_err(|e| e.to_string())
}

/// The text a predefined XML entity stands for.
pub open spec fn entity_text(raw: Seq<char>) -> Option<Seq<char>> {
    if raw == "lt"@ {
        Some("<"@)
    } else if raw == "gt"@ {
        Some(">"@)
    } else if raw == "amp"@ {
        Some("&"@)
    } else if raw == "apos"@ {
        Some("'"@)
    } else if raw == "quot"@ {
        Some("\""@)
    } else {
        None
    }
}

/// `quick_xml::escape::resolve_xml_entity`: the five predefined entities,
/// `None` for any other name.
#[verifier::external_body]
fn xml_entity(raw: &str) -> (r: Option<String>)
    ensures
        match r {
            Some(s) => entity_text(raw@) == Some(s@),
            None => entity_text(raw@) is None,
        },
{
    quick_xml::escape::resolve_xml_entity(raw).map(|s| s.to_string())
}

/// The text a reference stands for: its character, the predefined entity's
/// text, or (for an entity this reader cannot resolve, having no DTD) the
/// reference written out as `&name;`. A malformed character reference is
/// an error.
pub open spec fn ref_text(raw: Seq<char>) -> Result<Seq<char>, Seq<char>> {
    match char_ref_spec(raw) {
        None => Err("invalid character reference: "@ + char_ref_error(raw)),
        Some(Some(c)) => Ok(seq![c]),
        Some(None) => match entity_text(raw) {
            Some(t) => Ok(t),
            None => Ok("&"@ + raw + ";"@),
        },
    }
}

/// Resolves a reference (see `ref_text`).
pub fn resolve_general_ref(raw: &str) -> (r: Result<String, String>)
    ensures
        match r {
            Ok(s) => ref_text(raw@) == Ok::<Seq<char>, Seq<char>>(s@),
            Err(e) => ref_text(raw@) == Err::<Seq<char>, Seq<char>>(e@),
        },
{
    match char_ref(raw) {
        Err(e) => {
            let mut out: Vec<char> = Vec::new();
            push_str(&mut out, "invalid character reference: ");
            push_str(&mut out, e.as_str());
            assert(out@ =~= "invalid character reference: "@ + char_ref_error(raw@));
            Err(string_of(out.as_slice()))
        },
        Ok(Some(c)) => {
            let mut s = String::new();
            push_char(&mut s, c);
            assert(s@ =~= seq![c]);
            Ok(s)
        },
        Ok(None) => match xml_entity(raw) {
            Some(t) => Ok(t),
            None => {
                let mut out: Vec<char> = Vec::new();
                push_str(&mut out, "&");
                push_str(&mut out, raw);
                push_str(&mut out, ";");
                assert(out@ =~= "&"@ + raw@ + ";"@);
                Ok(string_of(out.as_slice()))
            },
        },
    }
}

/// The state of reading a `<hello>`: open element names, the text of the
/// current element, the capabilities and the session id found.
pub struct HelloState {
    pub stack: Seq<Seq<char>>,
    pub text: Seq<char>,
    pub caps: Seq<Seq<char>>,
    pub session: Seq<char>,
}

/// One event of a `<hello>`: on each closing tag, the element's trimmed
/// text (when not empty) is a capability inside `<capability>` or the
/// session id inside `<session-id>`.
pub open spec fn hello_step(st: HelloState, ev: XmlEvent) -> Result<HelloState, Seq<char>> {
    match ev {
        XmlEvent::Start(n) => Ok(HelloState { stack: st.stack.push(n@), text: Seq::empty(), ..st }),
        XmlEvent::End => {
            let t = trimmed(st.text);
            let top: Option<Seq<char>> = if st.stack.len() > 0 { Some(st.stack.last()) } else { None };
            let caps = if t.len() > 0 && top == Some("capability"@) { st.caps.push(t) } else { st.caps };
            let session = if t.len() > 0 && top == Some("session-id"@) { t } else { st.session };
            Ok(HelloState {
                stack: if st.stack.len() > 0 { st.stack.drop_last() } else { st.stack },
                text: Seq::empty(),
                caps,
                session,
            })
        },
        XmlEvent::Text(s) => Ok(HelloState { text: st.text + s@, ..st }),
        XmlEvent::CData(s) => Ok(HelloState { text: st.text + s@, ..st }),
        XmlEvent::Ref(r) => match ref_text(r@) {
            Ok(s) => Ok(HelloState { text: st.text + s, ..st }),
            Err(e) => Err(e),
        },
        _ => Ok(st),
    }
}

/// The capabilities and session id of a `<hello>` from its events `evs[i..]`.
pub open spec fn hello_from(evs: Seq<XmlEvent>, i: int, st: HelloState) -> Result<(Seq<Seq<char>>, Seq<char>), Seq<char>>
    decreases evs.len() - i,
{
    if i < 0 || i >= evs.len() {
        Err("failed to parse NETCONF hello: no end of input"@)
    } else {
        match evs[i] {
            XmlEvent::Eof => Ok((st.caps, st.session)),
            XmlEvent::Error(e) => Err("failed to parse NETCONF hello: "@ + e@),
            _ => match hello_step(st, evs[i]) {
                Ok(s) => hello_from(evs, i + 1, s),
                Err(e) => Err(e),
            },
        }
    }
}

/// The capabilities and session id of a `<hello>` read as `evs`.
pub open spec fn hello_spec(evs: Seq<XmlEvent>) -> Result<(Seq<Seq<char>>, Seq<char>), Seq<char>> {
    hello_from(evs, 0, HelloState { stack: Seq::empty(), text: Seq::empty(), caps: Seq::empty(), session: Seq::empty() })
}

/// The capabilities and session id of a `<hello>` read as `evs` (see `hello_spec`).
pub fn hello_from_events(evs: &Vec<XmlEvent>) -> (r: Result<(Vec<String>, String), String>)
    ensures
        match r {
            Ok(p) => hello_spec(evs@) == Ok::<(Seq<Seq<char>>, Seq<char>), Seq<char>>((crate::text::string_views(p.0@), p.1@)),
            Err(e) => hello_spec(evs@) == Err::<(Seq<Seq<char>>, Seq<char>), Seq<char>>(e@),
        },
{
    let mut stack: Vec<String> = Vec::new();
    let mut text: Vec<char> = Vec::new();
    let mut caps: Vec<String> = Vec::new();
    let mut session: String = String::new();
    let mut i: usize = 0;
    proof {
        assert(crate::text::string_views(stack@) =~= Seq::<Seq<char>>::empty());
        assert(crate::text::string_views(caps@) =~= Seq::<Seq<char>>::empty());
        assert(text@ =~= Seq::<char>::empty());
        assert(session@ =~= Seq::<char>::empty());
    }
    while i < evs.len()
        invariant
            i <= evs@.len(),
            hello_spec(evs@) == hello_from(evs@, i as int, HelloState {
                stack: crate::text::string_views(stack@),
                text: text@,
                caps: crate::text::string_views(caps@),
                session: session@,
            }),
        decreases evs@.len() - i,
    {
        let ghost st = HelloState { stack: crate::text::string_views(stack@), text: text@, caps: crate::text::string_views(caps@), session: session@ };
        match &evs[i] {
            XmlEvent::Eof => {
                return Ok((caps, session));
            },
            XmlEvent::Error(e) => {
                let mut out: Vec<char> = Vec::new();
                push_str(&mut out, "failed to parse NETCONF hello: ");
                push_str(&mut out, e.as_str());
                assert(out@ =~= "failed to parse NETCONF hello: "@ + e@);
                return Err(string_of(out.as_slice()));
            },
            XmlEvent::Start(n) => {
                stack.push(n.clone());
                text = Vec::new();
                assert(crate::text::string_views(stack@) =~= st.stack.push(n@));
                assert(text@ =~= Seq::<char>::empty());
            },
            XmlEvent::End => {
                let t = trim_chars(text.as_slice());
                if t.len() > 0 && stack.len() > 0 {
                    let top = stack[stack.len() - 1].as_str();
                    if str_eq(top, "capability") {
                        caps.push(string_of(t.as_slice()));
                        assert(crate::text::string_views(caps@) =~= st.caps.push(t@));
                    } else if str_eq(top, "session-id") {
                        session = string_of(t.as_slice());
                    }
                    proof {
                        reveal_strlit("capability");
                        reveal_strlit("session-id");
                        assert("capability"@[0] != "session-id"@[0]);
                    }
                }
                if stack.len() > 0 {
                    stack.pop();
                    assert(crate::text::string_views(stack@) =~= st.stack.drop_last());
                }
                text = Vec::new();
                assert(text@ =~= Seq::<char>::empty());
            },
            XmlEvent::Text(s) => {
                push_str(&mut text, s.as_str());
            },
            XmlEvent::CData(s) => {
                push_str(&mut text, s.as_str());
            },
            XmlEvent::Ref(r) => {
                match resolve_general_ref(r.as_str()) {
                    Ok(s) => {
                        push_str(&mut text, s.as_str());
                    },
                    Err(e) => {
                        return Err(e);
                    },
                }
            },
            _ => {},
        }
        i = i + 1;
    }
    Err("failed to parse NETCONF hello: no end of input".to_owned())
}

/// A server `<hello>`'s capabilities and session id.
pub fn parse_hello(xml: &str) -> (r: Result<(Vec<String>, String), String>)
    ensures
        match r {
            Ok(p) => hello_spec(xml_events(xml@)) == Ok::<(Seq<Seq<char>>, Seq<char>), Seq<char>>((crate::text::string_views(p.0@), p.1@)),
            Err(e) => hello_spec(xml_events(xml@)) == Err::<(Seq<Seq<char>>, Seq<char>), Seq<char>>(e@),
        },
{
    let evs = read_events(xml);
    hello_from_events(&evs)
}

/// Whether some capability holds `part`.
pub open spec fn some_cap_contains(caps: Seq<Seq<char>>, part: Seq<char>) -> bool {
    exists|i: int, k: int| 0 <= i < caps.len() && 0 <= k && k + part.len() <= caps[i].len() && #[trigger] caps[i].subrange(k, k + part.len()) == part
}

fn contains_text(s: &str, part: &str) -> (r: bool)
    ensures
        r == (exists|k: int| 0 <= k && k + part@.len() <= s@.len() && #[trigger] s@.subrange(k, k + part@.len()) == part@),
{
    let sc = chars_of(s);
    let pc = chars_of(part);
    if pc.len() > sc.len() {
        return false;
    }
    let mut k: usize = 0;
    let m: usize = pc.len();
    let n: usize = sc.len();
    let last: usize = n - m;
    loop
        invariant
            k <= last,
            m == pc@.len(),
            last + m == n,
            n == sc@.len(),
            last == sc@.len() - pc@.len(),
            sc@ == s@,
            pc@ == part@,
            pc@.len() <= sc@.len(),
            forall|j: int| 0 <= j < k ==> #[trigger] s@.subrange(j, j + part@.len()) != part@,
        decreases last - k,
    {
        let sub = vstd::slice::slice_subrange(sc.as_slice(), k, k + m);
        if crate::text::chars_eq(sub, pc.as_slice()) {
            return true;
        }
        if k == last {
            proof {
                assert forall|j: int| 0 <= j && j + part@.len() <= s@.len() implies #[trigger] s@.subrange(j, j + part@.len()) != part@ by {
                    assert(j <= k);
                }
            }
            return false;
        }
        k = k + 1;
    }
}

fn any_cap_contains(caps: &Vec<String>, part: &str) -> (r: bool)
    ensures
        r == some_cap_contains(crate::text::string_views(caps@), part@),
{
    let ghost cv = crate::text::string_views(caps@);
    let mut i: usize = 0;
    while i < caps.len()
        invariant
            i <= caps@.len(),
            cv == crate::text::string_views(caps@),
            forall|j: int, k: int| 0 <= j < i && 0 <= k && k + part@.len() <= cv[j].len() ==> #[trigger] cv[j].subrange(k, k + part@.len()) != part@,
        decreases caps@.len() - i,
    {
        if contains_text(caps[i].as_str(), part) {
            proof {
                let k = choose|k: int| 0 <= k && k + part@.len() <= caps@[i as int]@.len() && #[trigger] caps@[i as int]@.subrange(k, k + part@.len()) == part@;
                assert(cv[i as int] == caps@[i as int]@);
                assert(cv[i as int].subrange(k, k + part@.len()) == part@);
            }
            return true;
        }
        proof {
            assert forall|k: int| 0 <= k && k + part@.len() <= cv[i as int].len() implies #[trigger] cv[i as int].subrange(k, k + part@.len()) != part@ by {
                assert(cv[i as int] == caps@[i as int]@);
            }
        }
        i = i + 1;
    }
    false
}

/// The framing after the `<hello>` exchange: chunked when the server
/// announces NETCONF 1.1 (`base:1.1`), end-of-message otherwise.
pub fn framing_for(caps: &Vec<String>) -> (r: crate::netconf::Framing)
    ensures
        r == if some_cap_contains(crate::text::string_views(caps@), "base:1.1"@) {
            crate::netconf::Framing::Chunked
        } else {
            crate::netconf::Framing::Eom
        },
{
    if any_cap_contains(caps, "base:1.1") {
        crate::netconf::Framing::Chunked
    } else {
        crate::netconf::Framing::Eom
    }
}

/// Whether the server announces the `:xpath` capability.
pub fn xpath_supported(caps: &Vec<String>) -> (r: bool)
    ensures
        r == some_cap_contains(crate::text::string_views(caps@), "capability:xpath"@),
{
    any_cap_contains(caps, "capability:xpath")
}

/// The model of one reply element.
pub open spec fn nc_node_model(n: NetconfNode) -> TreeModel
    decreases n, 0nat,
{
    TreeModel { name: n.name@, value: opt_view(n.value), children: nc_nodes_model(n.children@) }
}

/// The models of a sequence of reply elements.
pub open spec fn nc_nodes_model(s: Seq<NetconfNode>) -> Seq<TreeModel>
    decreases s, 1nat,
{
    if s.len() == 0 {
        Seq::empty()
    } else {
        nc_nodes_model(s.drop_last()).push(nc_node_model(s.last()))
    }
}

proof fn lemma_nc_nodes_model(s: Seq<NetconfNode>)
    ensures
        nc_nodes_model(s).len() == s.len(),
        forall|i: int| 0 <= i < s.len() ==> #[trigger] nc_nodes_model(s)[i] == nc_node_model(s[i]),
    decreases s.len(),
{
    if s.len() > 0 {
        lemma_nc_nodes_model(s.drop_last());
        assert forall|i: int| 0 <= i < s.len() implies #[trigger] nc_nodes_model(s)[i] == nc_node_model(s[i]) by {
            if i < s.len() - 1 {
                assert(s.drop_last()[i] == s[i]);
            }
        }
    }
}

proof fn lemma_nc_nodes_push(s: Seq<NetconfNode>, x: NetconfNode)
    ensures
        nc_nodes_model(s.push(x)) == nc_nodes_model(s).push(nc_node_model(x)),
{
    assert(s.push(x).drop_last() =~= s);
}

/// The first element named `name`, if any.
pub open spec fn first_named(ns: Seq<TreeModel>, name: Seq<char>) -> Option<TreeModel> {
    let j = crate::gnmi::named_from(ns, name, 0);
    if j < ns.len() { Some(ns[j]) } else { None }
}

/// The position of the first node named `name`, or the length when none is.
fn position_named(nodes: &Vec<NetconfNode>, name: &str) -> (r: usize)
    ensures
        r as int == crate::gnmi::named_from(nc_nodes_model(nodes@), name@, 0),
        r <= nodes@.len(),
        nc_nodes_model(nodes@).len() == nodes@.len(),
        r < nodes@.len() ==> nc_nodes_model(nodes@)[r as int] == nc_node_model(nodes@[r as int]),
{
    let ghost m = nc_nodes_model(nodes@);
    proof { lemma_nc_nodes_model(nodes@); }
    let mut i: usize = 0;
    while i < nodes.len()
        invariant
            i <= nodes@.len(),
            m == nc_nodes_model(nodes@),
            m.len() == nodes@.len(),
            forall|k: int| 0 <= k < nodes@.len() ==> #[trigger] m[k] == nc_node_model(nodes@[k]),
            crate::gnmi::named_from(m, name@, 0) == crate::gnmi::named_from(m, name@, i as int),
        decreases nodes@.len() - i,
    {
        if str_eq(nodes[i].name.as_str(), name) {
            assert(m[i as int].name == name@);
            return i;
        }
        i = i + 1;
    }
    i
}

/// An element being read: its name, the elements read inside it, and its
/// text so far.
pub struct FrameModel {
    pub name: Seq<char>,
    pub children: Seq<TreeModel>,
    pub text: Seq<char>,
}

/// The message for an end tag with no open element.
pub open spec fn unbalanced() -> Seq<char> {
    "unbalanced NETCONF response XML"@
}

/// The open elements after text `t` was read inside the innermost one.
pub open spec fn add_text(stack: Seq<FrameModel>, t: Seq<char>) -> Result<Seq<FrameModel>, Seq<char>> {
    if stack.len() == 0 {
        Err(unbalanced())
    } else {
        let top = stack.last();
        Ok(stack.drop_last().push(FrameModel { text: top.text + t, ..top }))
    }
}

/// The open elements after `node` was completed inside the innermost one.
pub open spec fn add_child(stack: Seq<FrameModel>, node: TreeModel) -> Result<Seq<FrameModel>, Seq<char>> {
    if stack.len() == 0 {
        Err(unbalanced())
    } else {
        let top = stack.last();
        Ok(stack.drop_last().push(FrameModel { children: top.children.push(node), ..top }))
    }
}

/// The element an end tag completes: a leaf keeps its trimmed text as
/// its value when that is not empty.
pub open spec fn closed_node(f: FrameModel) -> TreeModel {
    let t = trimmed(f.text);
    TreeModel {
        name: f.name,
        value: if f.children.len() == 0 && t.len() > 0 { Some(t) } else { None },
        children: f.children,
    }
}

/// One event of a reply, on the stack of open elements (at the bottom, a
/// frame for the document itself).
pub open spec fn reply_step(stack: Seq<FrameModel>, ev: XmlEvent) -> Result<Seq<FrameModel>, Seq<char>> {
    match ev {
        XmlEvent::Start(n) => Ok(stack.push(FrameModel { name: n@, children: Seq::empty(), text: Seq::empty() })),
        XmlEvent::Empty(n) => add_child(stack, TreeModel { name: n@, value: None, children: Seq::empty() }),
        XmlEvent::Text(s) => add_text(stack, s@),
        XmlEvent::CData(s) => add_text(stack, s@),
        XmlEvent::Ref(r) => match ref_text(r@) {
            Ok(t) => add_text(stack, t),
            Err(e) => Err(e),
        },
        XmlEvent::End => if stack.len() == 0 {
            Err(unbalanced())
        } else {
            add_child(stack.drop_last(), closed_node(stack.last()))
        },
        _ => Ok(stack),
    }
}

/// What a finished reply yields: the children of `<data>` under the
/// document's first `<rpc-reply>`, unless that holds an `<rpc-error>`,
/// whose first `<error-message>` text (or a fixed message) is the error.
pub open spec fn reply_result(stack: Seq<FrameModel>) -> Result<Seq<TreeModel>, Seq<char>> {
    if stack.len() == 0 {
        Err("empty NETCONF response"@)
    } else {
        match first_named(stack[0].children, "rpc-reply"@) {
            None => Err("no <rpc-reply> in NETCONF response"@),
            Some(reply) => match first_named(reply.children, "rpc-error"@) {
                Some(err) => Err(match first_named(err.children, "error-message"@) {
                    Some(m) => match m.value {
                        Some(v) => v,
                        None => "target returned a NETCONF rpc-error"@,
                    },
                    None => "target returned a NETCONF rpc-error"@,
                }),
                None => match first_named(reply.children, "data"@) {
                    Some(d) => Ok(d.children),
                    None => Err("no <data> in NETCONF response"@),
                },
            },
        }
    }
}

/// The outcome of reading a reply's events `evs[i..]` with `stack` open.
pub open spec fn reply_from(evs: Seq<XmlEvent>, i: int, stack: Seq<FrameModel>) -> Result<Seq<TreeModel>, Seq<char>>
    decreases evs.len() - i,
{
    if i < 0 || i >= evs.len() {
        Err("failed to parse NETCONF response: no end of input"@)
    } else {
        match evs[i] {
            XmlEvent::Eof => reply_result(stack),
            XmlEvent::Error(e) => Err("failed to parse NETCONF response: "@ + e@),
            _ => match reply_step(stack, evs[i]) {
                Ok(s) => reply_from(evs, i + 1, s),
                Err(e) => Err(e),
            },
        }
    }
}

/// The outcome of a reply read as `evs`.
pub open spec fn reply_spec(evs: Seq<XmlEvent>) -> Result<Seq<TreeModel>, Seq<char>> {
    reply_from(evs, 0, seq![FrameModel { name: Seq::empty(), children: Seq::empty(), text: Seq::empty() }])
}

struct Frame {
    name: String,
    children: Vec<NetconfNode>,
    text: Vec<char>,
}

spec fn frame_model(f: Frame) -> FrameModel {
    FrameModel { name: f.name@, children: nc_nodes_model(f.children@), text: f.text@ }
}

spec fn frames_model(s: Seq<Frame>) -> Seq<FrameModel> {
    s.map_values(|f: Frame| frame_model(f))
}

fn push_text(stack: &mut Vec<Frame>, t: &str) -> (r: Result<(), String>)
    ensures
        match r {
            Ok(()) => add_text(frames_model(old(stack)@), t@) == Ok::<Seq<FrameModel>, Seq<char>>(frames_model(final(stack)@)),
            Err(e) => add_text(frames_model(old(stack)@), t@) == Err::<Seq<FrameModel>, Seq<char>>(e@),
        },
{
    match stack.pop() {
        None => Err("unbalanced NETCONF response XML".to_owned()),
        Some(mut top) => {
            let ghost before = top;
            push_str(&mut top.text, t);
            stack.push(top);
            proof {
                assert(frames_model(final(stack)@) =~= frames_model(old(stack)@).drop_last().push(FrameModel { text: frame_model(before).text + t@, ..frame_model(before) }));
            }
            Ok(())
        },
    }
}

fn push_child(stack: &mut Vec<Frame>, node: NetconfNode) -> (r: Result<(), String>)
    ensures
        match r {
            Ok(()) => add_child(frames_model(old(stack)@), nc_node_model(node)) == Ok::<Seq<FrameModel>, Seq<char>>(frames_model(final(stack)@)),
            Err(e) => add_child(frames_model(old(stack)@), nc_node_model(node)) == Err::<Seq<FrameModel>, Seq<char>>(e@),
        },
{
    match stack.pop() {
        None => Err("unbalanced NETCONF response XML".to_owned()),
        Some(mut top) => {
            let ghost before = top;
            let ghost nm = nc_node_model(node);
            proof { lemma_nc_nodes_push(top.children@, node); }
            top.children.push(node);
            stack.push(top);
            proof {
                assert(frames_model(final(stack)@) =~= frames_model(old(stack)@).drop_last().push(FrameModel { children: frame_model(before).children.push(nm), ..frame_model(before) }));
            }
            Ok(())
        },
    }
}

/// Moves out the element at `j` (see `position_named`).
fn take_node(nodes: Vec<NetconfNode>, j: usize) -> (r: NetconfNode)
    requires
        j < nodes@.len(),
    ensures
        r == nodes@[j as int],
{
    let mut v = nodes;
    v.remove(j)
}

fn rpc_error_text() -> (r: String)
    ensures
        r@ == "target returned a NETCONF rpc-error"@,
{
    "target returned a NETCONF rpc-error".to_owned()
}

/// The outcome of a finished reply whose document frame holds `roots`
/// (see `reply_result`).
fn reply_of_document(roots: Vec<NetconfNode>) -> (r: Result<Vec<NetconfNode>, String>)
    ensures
        match r {
            Ok(v) => reply_result(seq![FrameModel { name: Seq::empty(), children: nc_nodes_model(roots@), text: Seq::empty() }])
                == Ok::<Seq<TreeModel>, Seq<char>>(nc_nodes_model(v@)),
            Err(e) => reply_result(seq![FrameModel { name: Seq::empty(), children: nc_nodes_model(roots@), text: Seq::empty() }])
                == Err::<Seq<TreeModel>, Seq<char>>(e@),
        },
{
    let ghost rm = nc_nodes_model(roots@);
    let i = position_named(&roots, "rpc-reply");
    if i == roots.len() {
        return Err("no <rpc-reply> in NETCONF response".to_owned());
    }
    let reply = take_node(roots, i);
    assert(first_named(rm, "rpc-reply"@) == Some(nc_node_model(reply)));
    let kids = reply.children;
    let ghost km = nc_nodes_model(kids@);
    let e = position_named(&kids, "rpc-error");
    if e < kids.len() {
        let err = take_node(kids, e);
        assert(first_named(km, "rpc-error"@) == Some(nc_node_model(err)));
        let ek = err.children;
        let m = position_named(&ek, "error-message");
        if m < ek.len() {
            let msg = take_node(ek, m);
            assert(first_named(nc_nodes_model(err.children@), "error-message"@) == Some(nc_node_model(msg)));
            return match msg.value {
                Some(v) => Err(v),
                None => Err(rpc_error_text()),
            };
        }
        return Err(rpc_error_text());
    }
    let d = position_named(&kids, "data");
    if d == kids.len() {
        return Err("no <data> in NETCONF response".to_owned());
    }
    let data = take_node(kids, d);
    assert(first_named(km, "data"@) == Some(nc_node_model(data)));
    Ok(data.children)
}

/// The outcome of a `<get>` reply read as `evs` (see `reply_spec`).
pub fn reply_from_events(evs: &Vec<XmlEvent>) -> (r: Result<Vec<NetconfNode>, String>)
    ensures
        match r {
            Ok(v) => reply_spec(evs@) == Ok::<Seq<TreeModel>, Seq<char>>(nc_nodes_model(v@)),
            Err(e) => reply_spec(evs@) == Err::<Seq<TreeModel>, Seq<char>>(e@),
        },
{
    let mut stack: Vec<Frame> = Vec::new();
    stack.push(Frame { name: String::new(), children: Vec::new(), text: Vec::new() });
    proof {
        let f = FrameModel { name: Seq::empty(), children: Seq::empty(), text: Seq::empty() };
        assert(nc_nodes_model(Seq::<NetconfNode>::empty()) =~= Seq::<TreeModel>::empty());
        assert(frames_model(stack@) =~= seq![f]);
    }
    let mut i: usize = 0;
    while i < evs.len()
        invariant
            i <= evs@.len(),
            reply_spec(evs@) == reply_from(evs@, i as int, frames_model(stack@)),
        decreases evs@.len() - i,
    {
        let ghost st = frames_model(stack@);
        match &evs[i] {
            XmlEvent::Eof => {
                if stack.len() == 0 {
                    return Err("empty NETCONF response".to_owned());
                }
                let root = stack.remove(0);
                assert(st[0] == frame_model(root));
                let r = reply_of_document(root.children);
                return r;
            },
            XmlEvent::Error(e) => {
                let mut out: Vec<char> = Vec::new();
                push_str(&mut out, "failed to parse NETCONF response: ");
                push_str(&mut out, e.as_str());
                assert(out@ =~= "failed to parse NETCONF response: "@ + e@);
                return Err(string_of(out.as_slice()));
            },
            XmlEvent::Start(n) => {
                stack.push(Frame { name: n.clone(), children: Vec::new(), text: Vec::new() });
                proof {
                    assert(nc_nodes_model(Seq::<NetconfNode>::empty()) =~= Seq::<TreeModel>::empty());
                    assert(frames_model(stack@) =~= st.push(FrameModel { name: n@, children: Seq::empty(), text: Seq::empty() }));
                }
            },
            XmlEvent::Empty(n) => {
                let node = NetconfNode { name: n.clone(), value: None, children: Vec::new() };
                assert(nc_nodes_model(node.children@) =~= Seq::<TreeModel>::empty());
                match push_child(&mut stack, node) {
                    Ok(()) => {},
                    Err(e) => { return Err(e); },
                }
            },
            XmlEvent::Text(t) => {
                match push_text(&mut stack, t.as_str()) {
                    Ok(()) => {},
                    Err(e) => { return Err(e); },
                }
            },
            XmlEvent::CData(t) => {
                match push_text(&mut stack, t.as_str()) {
                    Ok(()) => {},
                    Err(e) => { return Err(e); },
                }
            },
            XmlEvent::Ref(raw) => {
                let t = match resolve_general_ref(raw.as_str()) {
                    Ok(t) => t,
                    Err(e) => { return Err(e); },
                };
                match push_text(&mut stack, t.as_str()) {
                    Ok(()) => {},
                    Err(e) => { return Err(e); },
                }
            },
            XmlEvent::End => {
                let f = match stack.pop() {
                    Some(f) => f,
                    None => { return Err("unbalanced NETCONF response XML".to_owned()); },
                };
                proof { assert(frames_model(stack@) =~= st.drop_last()); }
                let ghost fm = frame_model(f);
                let value = if f.children.len() == 0 {
                    let t = trim_chars(f.text.as_slice());
                    if t.len() > 0 { Some(string_of(t.as_slice())) } else { None }
                } else {
                    None
                };
                let node = NetconfNode { name: f.name, value, children: f.children };
                assert(nc_node_model(node) == closed_node(fm));
                match push_child(&mut stack, node) {
                    Ok(()) => {},
                    Err(e) => { return Err(e); },
                }
            },
            XmlEvent::Other => {},
        }
        i = i + 1;
    }
    Err("failed to parse NETCONF response: no end of input".to_owned())
}

/// The element tree under `<data>` of a `<get>` reply, or the reply's
/// `<rpc-error>` message, or why the reply could not be read.
pub fn parse_get_reply(xml: &str) -> (r: Result<Vec<NetconfNode>, String>)
    ensures
        match r {
            Ok(v) => reply_spec(xml_events(xml@)) == Ok::<Seq<TreeModel>, Seq<char>>(nc_nodes_model(v@)),
            Err(e) => reply_spec(xml_events(xml@)) == Err::<Seq<TreeModel>, Seq<char>>(e@),
        },
{
    let evs = read_events(xml);
    reply_from_events(&evs)
}

} // verus!
