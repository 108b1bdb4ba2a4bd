//! SNMP client logic: how values are shown, which session a set of
//! connection parameters asks for, OID text, and the decisions of a table
//! walk and of a timed subtree walk. Sending and receiving the requests
//! happens outside this module; it hands the replies in as plain values.

use vstd::prelude::*;
use crate::assoc::{assoc_map, assoc_unique, assoc_upsert, lemma_assoc_map};
use crate::gnmi::{hex_digit, hex_digit_char, push_signed, signed_decimal};
use crate::mib::{ColumnInfo, TableInfo};
use crate::text::{chars_of, decimal, decimal_chars, push_chars, push_str, quoted_message, str_eq, string_of, string_views};

verus! {

/// How to reach an SNMP agent.
pub struct ConnectionParams {
    pub host_addr: String,
    pub host_port: String,
    /// `v1`, `v2c` or `v3`.
    pub version: String,
    pub community: String,
    pub v3_user: String,
    pub v3_auth: String,
    pub v3_priv: String,
}

/// The rows fetched for a table or a scalar.
pub struct FetchResult {
    pub columns: Vec<String>,
    /// Each row as column name and shown value.
    pub rows: Vec<Vec<(String, String)>>,
    /// The DISPLAY-HINT of each column that has one.
    pub display_hints: Vec<(String, String)>,
}

/// A value as an agent returned it.
pub enum SnmpValue {
    Boolean(bool),
    Null,
    Integer(i64),
    OctetString(Vec<u8>),
    /// An OID value, in its dotted text form.
    ObjectIdentifier(String),
    IpAddress([u8; 4]),
    Counter32(u32),
    Unsigned32(u32),
    Timeticks(u32),
    Opaque(Vec<u8>),
    Counter64(u64),
    EndOfMibView,
    NoSuchObject,
    NoSuchInstance,
    /// Any other encoding, with the text the SNMP library gives it.
    Other(String),
}

/// Every byte is printable ASCII (space to `~`), and there is at least one.
pub open spec fn printable(b: Seq<u8>) -> bool {
    b.len() > 0 && forall|i: int| 0 <= i < b.len() ==> 0x20 <= #[trigger] b[i] && b[i] < 0x7f
}

/// The characters of ASCII bytes.
pub open spec fn ascii_text(b: Seq<u8>) -> Seq<char> {
    b.map_values(|x: u8| x as char)
}

/// A byte as two lowercase hexadecimal digits.
pub open spec fn hex2(x: u8) -> Seq<char> {
    seq![hex_digit((x / 16) as nat), hex_digit((x % 16) as nat)]
}

/// The bytes as hexadecimal pairs joined by `:` (`0a:ff`).
pub open spec fn hex_pairs(b: Seq<u8>) -> Seq<char>
    decreases b.len(),
{
    if b.len() == 0 {
        Seq::empty()
    } else if b.len() == 1 {
        hex2(b[0])
    } else {
        hex_pairs(b.drop_last()) + seq![':'] + hex2(b.last())
    }
}

/// How an octet string is shown: as text when it is printable ASCII,
/// otherwise as colon-separated hexadecimal.
pub open spec fn octet_text(b: Seq<u8>) -> Seq<char> {
    if printable(b) {
        ascii_text(b)
    } else {
        hex_pairs(b)
    }
}

/// Shows an octet string (see `octet_text`).
pub fn format_octet_string(bytes: &[u8]) -> (r: String)
    ensures
        r@ == octet_text(bytes@),
{
    let mut all_printable = bytes.len() > 0;
    let mut i: usize = 0;
    while i < bytes.len()
        invariant
            i <= bytes@.len(),
            all_printable == (bytes@.len() > 0 && forall|k: int| 0 <= k < i ==> 0x20 <= #[trigger] bytes@[k] && bytes@[k] < 0x7f),
        decreases bytes@.len() - i,
    {
        if !(0x20 <= bytes[i] && bytes[i] < 0x7f) {
            all_printable = false;
        }
        i = i + 1;
    }
    let mut out: Vec<char> = Vec::new();
    if all_printable {
        let mut k: usize = 0;
        while k < bytes.len()
            invariant
                k <= bytes@.len(),
                out@ == ascii_text(bytes@.take(k as int)),
            decreases bytes@.len() - k,
        {
            out.push(bytes[k] as char);
            k = k + 1;
            assert(out@ =~= ascii_text(bytes@.take(k as int)));
        }
        assert(bytes@.take(bytes@.len() as int) =~= bytes@);
    } else {
        let mut k: usize = 0;
        while k < bytes.len()
            invariant
                k <= bytes@.len(),
                out@ == hex_pairs(bytes@.take(k as int)),
            decreases bytes@.len() - k,
        {
            let ghost before = out@;
            if k > 0 {
                out.push(':');
            }
            out.push(hex_digit_char(bytes[k] / 16));
            out.push(hex_digit_char(bytes[k] % 16));
            proof {
                let t = bytes@.take(k as int + 1);
                assert(t.drop_last() =~= bytes@.take(k as int));
                assert(t.last() == bytes@[k as int]);
                if k == 0 {
                    assert(out@ =~= hex2(bytes@[0]));
                } else {
                    assert(out@ =~= before + seq![':'] + hex2(bytes@[k as int]));
                }
            }
            k = k + 1;
        }
        assert(bytes@.take(bytes@.len() as int) =~= bytes@);
    }
    string_of(out.as_slice())
}

/// A number below 100 as two digits (`07`).
pub open spec fn pad2(n: nat) -> Seq<char> {
    if n < 10 {
        seq!['0'] + decimal(n)
    } else {
        decimal(n)
    }
}

/// Timeticks (hundredths of a second) as `[<days>d ]hh:mm:ss.cc`.
pub open spec fn timeticks_text(v: u32) -> Seq<char> {
    let cs = (v % 100) as nat;
    let total_s = (v / 100) as nat;
    let s = total_s % 60;
    let total_m = total_s / 60;
    let m = total_m % 60;
    let total_h = total_m / 60;
    let h = total_h % 24;
    let d = total_h / 24;
    let clock = pad2(h) + seq![':'] + pad2(m) + seq![':'] + pad2(s) + seq!['.'] + pad2(cs);
    if d > 0 {
        decimal(d) + seq!['d', ' '] + clock
    } else {
        clock
    }
}

fn push_pad2(out: &mut Vec<char>, n: u32)
    requires
        n < 100,
    ensures
        final(out)@ == old(out)@ + pad2(n as nat),
{
    if n < 10 {
        out.push('0');
    }
    let d = decimal_chars(n as u128);
    push_chars(out, d.as_slice());
    assert(final(out)@ =~= old(out)@ + pad2(n as nat));
}

/// Shows timeticks (see `timeticks_text`).
pub fn format_timeticks(v: u32) -> (r: String)
    ensures
        r@ == timeticks_text(v),
{
    let cs = v % 100;
    let total_s = v / 100;
    let s = total_s % 60;
    let total_m = total_s / 60;
    let m = total_m % 60;
    let total_h = total_m / 60;
    let h = total_h % 24;
    let d = total_h / 24;
    let mut out: Vec<char> = Vec::new();
    if d > 0 {
        let dd = decimal_chars(d as u128);
        push_chars(&mut out, dd.as_slice());
        out.push('d');
        out.push(' ');
    }
    let ghost prefix = out@;
    push_pad2(&mut out, h);
    out.push(':');
    push_pad2(&mut out, m);
    out.push(':');
    push_pad2(&mut out, s);
    out.push('.');
    push_pad2(&mut out, cs);
    proof {
        let clock = pad2(h as nat) + seq![':'] + pad2(m as nat) + seq![':'] + pad2(s as nat) + seq!['.'] + pad2(cs as nat);
        assert(out@ =~= prefix + clock);
        if d > 0 {
            assert(prefix =~= decimal(d as nat) + seq!['d', ' ']);
        } else {
            assert(prefix =~= Seq::<char>::empty());
        }
    }
    string_of(out.as_slice())
}

/// The label of the first enumeration entry for `n`, if any.
pub open spec fn enum_label(labels: Seq<(i64, String)>, n: i64) -> Option<Seq<char>>
    decreases labels.len(),
{
    if labels.len() == 0 {
        None
    } else if labels[0].0 == n {
        Some(labels[0].1@)
    } else {
        enum_label(labels.drop_first(), n)
    }
}

/// An IPv4 address in dotted-quad form.
pub open spec fn ip_text(b: Seq<u8>) -> Seq<char> {
    decimal(b[0] as nat) + seq!['.'] + decimal(b[1] as nat) + seq!['.'] + decimal(b[2] as nat) + seq!['.'] + decimal(b[3] as nat)
}

/// How a value is shown. An integer with an enumeration label shows as
/// `label(n)`.
pub open spec fn value_text(v: SnmpValue, labels: Seq<(i64, String)>) -> Seq<char> {
    match v {
        SnmpValue::Integer(n) => match enum_label(labels, n) {
            Some(name) => name + seq!['('] + signed_decimal(n as int) + seq![')'],
            None => signed_decimal(n as int),
        },
        SnmpValue::OctetString(b) => octet_text(b@),
        SnmpValue::ObjectIdentifier(s) => s@,
        SnmpValue::IpAddress(b) => ip_text(b@),
        SnmpValue::Counter32(x) => decimal(x as nat),
        SnmpValue::Unsigned32(x) => decimal(x as nat),
        SnmpValue::Timeticks(x) => timeticks_text(x),
        SnmpValue::Counter64(x) => decimal(x as nat),
        SnmpValue::Boolean(b) => if b {
            "true"@
        } else {
            "false"@
        },
        SnmpValue::Null => Seq::empty(),
        SnmpValue::NoSuchObject => "(no such object)"@,
        SnmpValue::NoSuchInstance => "(no such instance)"@,
        SnmpValue::EndOfMibView => "(end of MIB view)"@,
        SnmpValue::Opaque(b) => crate::gnmi::hex_text(b@),
        SnmpValue::Other(s) => s@,
    }
}

fn find_label(labels: &[(i64, String)], n: i64) -> (r: Option<usize>)
    ensures
        match r {
            Some(i) => i < labels@.len() && enum_label(labels@, n) == Some(labels@[i as int].1@),
            None => enum_label(labels@, n) is None,
        },
{
    let mut i: usize = 0;
    assert(labels@.skip(0) =~= labels@);
    while i < labels.len()
        invariant
            i <= labels@.len(),
            enum_label(labels@, n) == enum_label(labels@.skip(i as int), n),
        decreases labels@.len() - i,
    {
        assert(labels@.skip(i as int).drop_first() =~= labels@.skip(i + 1));
        if labels[i].0 == n {
            return Some(i);
        }
        i = i + 1;
    }
    None
}

fn push_decimal(out: &mut Vec<char>, n: u64)
    ensures
        final(out)@ == old(out)@ + decimal(n as nat),
{
    let d = decimal_chars(n as u128);
    push_chars(out, d.as_slice());
}

/// Every unsigned counter or gauge (Counter32, Unsigned32, Counter64) is
/// shown as the plain decimal of its number, whatever the enumeration
/// labels; the same number shows alike in all three kinds, and only
/// Timeticks is shown in the clock form.
pub proof fn lemma_unsigned_values_are_decimal(x: u32, y: u64, labels: Seq<(i64, String)>)
    ensures
        value_text(SnmpValue::Counter32(x), labels) == decimal(x as nat),
        value_text(SnmpValue::Unsigned32(x), labels) == decimal(x as nat),
        value_text(SnmpValue::Counter64(y), labels) == decimal(y as nat),
        value_text(SnmpValue::Unsigned32(x), labels) == value_text(SnmpValue::Counter64(x as u64), labels),
        value_text(SnmpValue::Counter32(x), labels) == value_text(SnmpValue::Unsigned32(x), labels),
        value_text(SnmpValue::Timeticks(x), labels) == timeticks_text(x),
{
}

/// Shows a value (see `value_text`).
pub fn format_value(value: &SnmpValue, enum_values: &[(i64, String)]) -> (r: String)
    ensures
        r@ == value_text(*value, enum_values@),
{
    match value {
        SnmpValue::Integer(n) => {
            let mut out: Vec<char> = Vec::new();
            match find_label(enum_values, *n) {
                Some(i) => {
                    push_str(&mut out, enum_values[i].1.as_str());
                    out.push('(');
                    push_signed(&mut out, *n);
                    out.push(')');
                    assert(out@ =~= enum_values@[i as int].1@ + seq!['('] + signed_decimal(*n as int) + seq![')']);
                },
                None => {
                    push_signed(&mut out, *n);
                    assert(out@ =~= signed_decimal(*n as int));
                },
            }
            string_of(out.as_slice())
        },
        SnmpValue::OctetString(b) => format_octet_string(b.as_slice()),
        SnmpValue::ObjectIdentifier(s) => s.clone(),
        SnmpValue::IpAddress(b) => {
            let mut out: Vec<char> = Vec::new();
            push_decimal(&mut out, b[0] as u64);
            out.push('.');
            push_decimal(&mut out, b[1] as u64);
            out.push('.');
            push_decimal(&mut out, b[2] as u64);
            out.push('.');
            push_decimal(&mut out, b[3] as u64);
            assert(out@ =~= ip_text(b@));
            string_of(out.as_slice())
        },
        SnmpValue::Counter32(x) => {
            let d = decimal_chars(*x as u128);
            string_of(d.as_slice())
        },
        SnmpValue::Unsigned32(x) => {
            let d = decimal_chars(*x as u128);
            string_of(d.as_slice())
        },
        SnmpValue::Timeticks(x) => format_timeticks(*x),
        SnmpValue::Counter64(x) => {
            let d = decimal_chars(*x as u128);
            string_of(d.as_slice())
        },
        SnmpValue::Boolean(b) => if *b {
            "true".to_owned()
        } else {
            "false".to_owned()
        },
        SnmpValue::Null => String::new(),
        SnmpValue::NoSuchObject => "(no such object)".to_owned(),
        SnmpValue::NoSuchInstance => "(no such instance)".to_owned(),
        SnmpValue::EndOfMibView => "(end of MIB view)".to_owned(),
        SnmpValue::Opaque(b) => {
            let mut out: Vec<char> = Vec::new();
            crate::gnmi::push_hex(&mut out, b.as_slice());
            assert(out@ =~= crate::gnmi::hex_text(b@));
            string_of(out.as_slice())
        },
        SnmpValue::Other(s) => s.clone(),
    }
}

/// The SNMPv3 security level: authentication and privacy are each used
/// when their password is set (privacy only together with authentication).
#[derive(Clone, Copy, PartialEq, Eq, Structural, Debug)]
pub enum V3Auth {
    NoAuthNoPriv,
    AuthNoPriv,
    AuthPriv,
}

/// The session a set of connection parameters asks for.
#[derive(Clone, Copy, PartialEq, Eq, Structural, Debug)]
pub enum SessionPlan {
    V1,
    V2c,
    V3(V3Auth),
}

/// The security level for the given passwords.
pub open spec fn v3_auth_spec(auth: Seq<char>, privacy: Seq<char>) -> V3Auth {
    if auth.len() == 0 {
        V3Auth::NoAuthNoPriv
    } else if privacy.len() == 0 {
        V3Auth::AuthNoPriv
    } else {
        V3Auth::AuthPriv
    }
}

/// The security level for the given passwords (see `v3_auth_spec`).
pub fn v3_auth_mode(auth: &str, privacy: &str) -> (r: V3Auth)
    ensures
        r == v3_auth_spec(auth@, privacy@),
{
    if auth.is_empty() {
        V3Auth::NoAuthNoPriv
    } else if privacy.is_empty() {
        V3Auth::AuthNoPriv
    } else {
        V3Auth::AuthPriv
    }
}

/// The message for a version name that is not `v1`, `v2c` or `v3`.
pub open spec fn unknown_version_message(v: Seq<char>) -> Seq<char> {
    "unknown SNMP version '"@ + v + "'"@
}


/// Which session to open: `v1` and `v2c` by community, `v3` with the
/// security level its passwords give; any other version is refused.
pub fn session_plan(p: &ConnectionParams) -> (r: Result<SessionPlan, String>)
    ensures
        p.version@ == "v1"@ ==> r == Ok::<SessionPlan, String>(SessionPlan::V1),
        p.version@ == "v2c"@ ==> r == Ok::<SessionPlan, String>(SessionPlan::V2c),
        p.version@ == "v3"@ ==> r == Ok::<SessionPlan, String>(SessionPlan::V3(v3_auth_spec(p.v3_auth@, p.v3_priv@))),
        p.version@ != "v1"@ && p.version@ != "v2c"@ && p.version@ != "v3"@ ==> (r matches Err(e) && e@ == unknown_version_message(p.version@)),
{
    proof {
        reveal_strlit("v1");
        reveal_strlit("v2c");
        reveal_strlit("v3");
        assert("v2c"@.len() == 3);
        assert("v1"@.len() == 2);
        assert("v3"@.len() == 2);
        assert("v3"@[1] == '3' && "v1"@[1] == '1');
        assert("v2c"@ != "v1"@);
        assert("v3"@ != "v1"@);
        assert("v3"@ != "v2c"@);
    }
    if str_eq(p.version.as_str(), "v1") {
        Ok(SessionPlan::V1)
    } else if str_eq(p.version.as_str(), "v2c") {
        Ok(SessionPlan::V2c)
    } else if str_eq(p.version.as_str(), "v3") {
        Ok(SessionPlan::V3(v3_auth_mode(p.v3_auth.as_str(), p.v3_priv.as_str())))
    } else {
        Err(quoted_message("unknown SNMP version '", p.version.as_str(), "'"))
    }
}

/// Whether walks use GETBULK (`v2c` and `v3`) rather than GETNEXT.
pub fn uses_bulk(version: &str) -> (r: bool)
    ensures
        r == (version@ == "v2c"@ || version@ == "v3"@),
{
    str_eq(version, "v2c") || str_eq(version, "v3")
}

/// A dotted text split at `.` into its fields (empty ones included).
pub open spec fn dot_fields(cs: Seq<char>) -> Seq<Seq<char>>
    decreases cs.len(),
{
    if cs.len() == 0 {
        seq![Seq::empty()]
    } else {
        let f = dot_fields(cs.drop_last());
        if cs.last() == '.' {
            f.push(Seq::empty())
        } else {
            f.update(f.len() - 1, f.last().push(cs.last()))
        }
    }
}

proof fn lemma_dot_fields_len(cs: Seq<char>)
    ensures
        dot_fields(cs).len() >= 1,
    decreases cs.len(),
{
    if cs.len() > 0 {
        lemma_dot_fields_len(cs.drop_last());
    }
}

/// A field read as a `u64` (its `FromStr`: an optional `+`, then digits).
pub open spec fn u64_of(w: Seq<char>) -> Option<u64> {
    let d = if w.len() > 0 && w[0] == '+' { w.drop_first() } else { w };
    if crate::smi::all_digits(d) && crate::smi::dec_value(d) <= u64::MAX {
        Some(crate::smi::dec_value(d) as u64)
    } else {
        None
    }
}

/// The arcs of the non-empty fields, or `None` when one of them is not a
/// `u64`.
pub open spec fn arcs_of_fields(fs: Seq<Seq<char>>) -> Option<Seq<u64>>
    decreases fs.len(),
{
    if fs.len() == 0 {
        Some(Seq::empty())
    } else {
        match arcs_of_fields(fs.drop_last()) {
            None => None,
            Some(p) => if fs.last().len() == 0 {
                Some(p)
            } else {
                match u64_of(fs.last()) {
                    Some(a) => Some(p.push(a)),
                    None => None,
                }
            },
        }
    }
}

/// The arcs a dotted OID text names, skipping empty fields.
pub open spec fn dotted_arcs(s: Seq<char>) -> Option<Seq<u64>> {
    arcs_of_fields(dot_fields(s))
}

fn parse_u64_field(w: &[char]) -> (r: Option<u64>)
    ensures
        r == u64_of(w@),
{
    let d = if w.len() > 0 && w[0] == '+' { vstd::slice::slice_subrange(w, 1, w.len()) } else { w };
    proof {
        if w@.len() > 0 && w@[0] == '+' {
            assert(d@ =~= w@.drop_first());
        }
    }
    crate::smi::digits_up_to(d, u64::MAX)
}

proof fn lemma_arcs_none_extends(fs: Seq<Seq<char>>, n: int)
    requires
        0 <= n <= fs.len(),
        arcs_of_fields(fs.take(n)) is None,
    ensures
        arcs_of_fields(fs) is None,
    decreases fs.len() - n,
{
    if n < fs.len() {
        assert(fs.take(n + 1).drop_last() =~= fs.take(n));
        lemma_arcs_none_extends(fs, n + 1);
    } else {
        assert(fs.take(n) =~= fs);
    }
}

/// The arcs of a dotted OID text (see `dotted_arcs`), or `None` when a
/// field is not a number.
pub fn arcs_from_dotted(s: &str) -> (r: Option<Vec<u64>>)
    ensures
        match r {
            Some(v) => dotted_arcs(s@) == Some(v@),
            None => dotted_arcs(s@) is None,
        },
{
    let cs = chars_of(s);
    let mut fields: Vec<Vec<char>> = Vec::new();
    let mut cur: Vec<char> = Vec::new();
    let mut i: usize = 0;
    proof {
        lemma_dot_fields_len(cs@.take(0));
    }
    assert(dot_fields(cs@.take(0)) =~= seq![Seq::<char>::empty()]);
    while i < cs.len()
        invariant
            i <= cs@.len(),
            dot_fields(cs@.take(i as int)).len() == fields@.len() + 1,
            forall|k: int| 0 <= k < fields@.len() ==> #[trigger] fields@[k]@ == dot_fields(cs@.take(i as int))[k],
            cur@ == dot_fields(cs@.take(i as int)).last(),
        decreases cs@.len() - i,
    {
        proof {
            assert(cs@.take(i + 1).drop_last() =~= cs@.take(i as int));
            lemma_dot_fields_len(cs@.take(i as int));
        }
        if cs[i] == '.' {
            let done = cur;
            fields.push(done);
            cur = Vec::new();
            assert(cur@ =~= Seq::<char>::empty());
        } else {
            cur.push(cs[i]);
        }
        i = i + 1;
    }
    let ghost fs = dot_fields(cs@);
    assert(cs@.take(cs@.len() as int) =~= cs@);
    fields.push(cur);
    assert forall|k: int| 0 <= k < fields@.len() implies #[trigger] fields@[k]@ == fs[k] by {}
    let mut arcs: Vec<u64> = Vec::new();
    let mut k: usize = 0;
    assert(fs.take(0) =~= Seq::<Seq<char>>::empty());
    while k < fields.len()
        invariant
            k <= fields@.len(),
            fields@.len() == fs.len(),
            fs == dot_fields(s@),
            forall|q: int| 0 <= q < fields@.len() ==> #[trigger] fields@[q]@ == fs[q],
            arcs_of_fields(fs.take(k as int)) == Some(arcs@),
        decreases fields@.len() - k,
    {
        assert(fs.take(k + 1).drop_last() =~= fs.take(k as int));
        assert(fs.take(k + 1).last() == fs[k as int]);
        if fields[k].len() > 0 {
            match parse_u64_field(fields[k].as_slice()) {
                Some(a) => {
                    arcs.push(a);
                },
                None => {
                    proof {
                        lemma_arcs_none_extends(fs, k + 1);
                    }
                    return None;
                },
            }
        }
        k = k + 1;
    }
    assert(fs.take(fields@.len() as int) =~= fs);
    Some(arcs)
}

/// Whether `Oid::from` accepts these arcs: a lone `0`, or at least two arcs
/// with the first below 7 and the second below 40.
pub open spec fn oid_encodable(arcs: Seq<u64>) -> bool {
    (arcs.len() == 1 && arcs[0] == 0) || (arcs.len() >= 2 && arcs[0] < 7 && arcs[1] < 40)
}

/// The name of the error `Oid::from` gives for arcs it refuses.
pub open spec fn oid_error_text(arcs: Seq<u64>) -> Seq<char> {
    if arcs.len() < 2 {
        "TooShort"@
    } else {
        "FirstComponentsTooLarge"@
    }
}

#[verifier::external_type_specification]
#[verifier::external_body]
pub struct ExOid<'a>(snmp2::Oid<'a>);

/// The OID that `Oid::from` encodes from a list of arcs (its BER content
/// octets); it depends on the arcs alone.
pub uninterp spec fn oid_for(arcs: Seq<u64>) -> snmp2::Oid<'static>;

/// `snmp2::Oid::from` (asn1-rs): encodes arcs as an absolute OID. The
/// source refuses fewer than two arcs (`TooShort`, a lone `0` aside) and a
/// first arc of 7 or more or a second of 40 or more
/// (`FirstComponentsTooLarge`); the error is returned by its `Debug` name.
/// The encoded OID is named `oid_for` of the arcs.
#[verifier::external_body]
fn encode_oid(arcs: &[u64]) -> (r: Result<snmp2::Oid<'static>, String>)
    ensures
        r is Ok <==> oid_encodable(arcs@),
        r matches Ok(o) ==> o == oid_for(arcs@),
        r matches Err(e) ==> e@ == oid_error_text(arcs@),
{
    snmp2::Oid::from(arcs).map_err(|e| format!("{e:?}"))
}

/// The message for a dotted text that is not an OID.
pub open spec fn invalid_oid_message(s: Seq<char>) -> Seq<char> {
    "invalid OID '"@ + s + "'"@
}

/// An OID from its dotted text: the non-empty fields must be numbers, and
/// the arcs must be encodable (see `oid_encodable`).
pub fn oid_from_dotted(s: &str) -> (r: Result<snmp2::Oid<'static>, String>)
    ensures
        r is Ok <==> (dotted_arcs(s@) matches Some(a) && oid_encodable(a)),
        r matches Ok(o) ==> o == oid_for(dotted_arcs(s@)->0),
        dotted_arcs(s@) is None ==> (r matches Err(e) && e@ == invalid_oid_message(s@)),
        (dotted_arcs(s@) is Some && !oid_encodable(dotted_arcs(s@)->0)) ==> (r matches Err(e)
            && e@ == invalid_oid_message(s@) + ": "@ + oid_error_text(dotted_arcs(s@)->0)),
{
    match arcs_from_dotted(s) {
        None => Err(quoted_message("invalid OID '", s, "'")),
        Some(arcs) => match encode_oid(arcs.as_slice()) {
            Ok(o) => Ok(o),
            Err(e) => {
                let head = quoted_message("invalid OID '", s, "': ");
                let mut out = chars_of(head.as_str());
                push_str(&mut out, e.as_str());
                assert(out@ =~= invalid_oid_message(s@) + ": "@ + oid_error_text(arcs@)) by {
                    assert(head@ == "invalid OID '"@ + s@ + "': "@);
                    reveal_strlit("'");
                    reveal_strlit("': ");
                    reveal_strlit(": ");
                    assert("'"@ + ": "@ =~= "': "@);
                }
                Err(string_of(out.as_slice()))
            },
        },
    }
}

/// The text of a string-valued association list as a map.
pub open spec fn text_map(v: Seq<(String, String)>) -> Map<Seq<char>, Seq<char>> {
    assoc_map(v).map_values(|x: String| x@)
}

proof fn lemma_text_map_single(k: String, v: String)
    ensures
        text_map(seq![(k, v)]) == Map::<Seq<char>, Seq<char>>::empty().insert(k@, v@),
{
    let s = seq![(k, v)];
    assert(s.drop_last() =~= Seq::<(String, String)>::empty());
    assert(assoc_map(s.drop_last()) == Map::<Seq<char>, String>::empty());
    assert(assoc_map(s) == Map::<Seq<char>, String>::empty().insert(k@, v));
    assert(text_map(s) =~= Map::<Seq<char>, Seq<char>>::empty().insert(k@, v@));
}

/// The result of a scalar GET: one `Value` column and one row, holding the
/// first value of the reply when there is one.
pub fn fetch_scalar(reply: Option<&SnmpValue>) -> (r: FetchResult)
    ensures
        string_views(r.columns@) == seq!["Value"@],
        r.rows@.len() == 1,
        assoc_unique(r.rows@[0]@),
        text_map(r.rows@[0]@) == match reply {
            Some(v) => Map::<Seq<char>, Seq<char>>::empty().insert("Value"@, value_text(*v, Seq::empty())),
            None => Map::<Seq<char>, Seq<char>>::empty(),
        },
        r.display_hints@.len() == 0,
{
    let mut row: Vec<(String, String)> = Vec::new();
    match reply {
        Some(v) => {
            let empty: Vec<(i64, String)> = Vec::new();
            let text = format_value(v, empty.as_slice());
            assert(empty@ =~= Seq::<(i64, String)>::empty());
            let key = "Value".to_owned();
            let ghost kv = key;
            let ghost tv = text;
            row.push((key, text));
            proof {
                assert(row@ =~= seq![(kv, tv)]);
                lemma_text_map_single(kv, tv);
            }
        },
        None => {
            assert(text_map(row@) =~= Map::<Seq<char>, Seq<char>>::empty());
        },
    }
    let mut columns: Vec<String> = Vec::new();
    columns.push("Value".to_owned());
    assert(string_views(columns@) =~= seq!["Value"@]);
    let mut rows: Vec<Vec<(String, String)>> = Vec::new();
    rows.push(row);
    FetchResult { columns, rows, display_hints: Vec::new() }
}

/// The OID a GET of a scalar asks for: its object OID with the `.0`
/// instance sub-identifier appended.
pub fn scalar_instance_oid(oid_str: &str) -> (r: Result<snmp2::Oid<'static>, String>)
    ensures
        r is Ok <==> (dotted_arcs(oid_str@ + ".0"@) matches Some(a) && oid_encodable(a)),
        r matches Ok(o) ==> o == oid_for(dotted_arcs(oid_str@ + ".0"@)->0),
        dotted_arcs(oid_str@ + ".0"@) is None ==> (r matches Err(e) && e@ == invalid_oid_message(oid_str@ + ".0"@)),
        (dotted_arcs(oid_str@ + ".0"@) is Some && !oid_encodable(dotted_arcs(oid_str@ + ".0"@)->0)) ==> (r matches Err(e)
            && e@ == invalid_oid_message(oid_str@ + ".0"@) + ": "@ + oid_error_text(dotted_arcs(oid_str@ + ".0"@)->0)),
{
    let full = quoted_message("", oid_str, ".0");
    assert(full@ =~= oid_str@ + ".0"@) by {
        reveal_strlit("");
    }
    oid_from_dotted(full.as_str())
}

/// Safety cap on walk requests, so a misbehaving agent cannot keep a walk
/// going forever.
pub const MAX_ITERATIONS: usize = 5000;

/// Varbinds asked for per GETBULK request.
pub const MAX_REPETITIONS: u32 = 25;

/// Whether `base` is a leading part of `arcs`: the OID they spell lies in
/// the subtree rooted at `base` (the root itself included).
pub open spec fn arcs_prefix(base: Seq<u64>, arcs: Seq<u64>) -> bool {
    base.len() <= arcs.len() && arcs.take(base.len() as int) == base
}

/// Whether a reply OID, by its arcs, lies in the subtree rooted at `base`.
/// An OID whose arcs do not decode (`None`) counts as outside.
pub fn arcs_under(base: &[u64], arcs: &Option<Vec<u64>>) -> (r: bool)
    ensures
        r == (arcs matches Some(a) && arcs_prefix(base@, a@)),
{
    match arcs {
        None => false,
        Some(a) => {
            if a.len() < base.len() {
                return false;
            }
            let mut i: usize = 0;
            while i < base.len()
                invariant
                    i <= base@.len(),
                    *arcs == Some(*a),
                    base@.len() <= a@.len(),
                    a@.take(i as int) == base@.take(i as int),
                decreases base@.len() - i,
            {
                if a[i] != base[i] {
                    assert(a@.take(base@.len() as int)[i as int] != base@[i as int]);
                    assert(a@.take(base@.len() as int) != base@);
                    return false;
                }
                i = i + 1;
                assert(a@.take(i as int) =~= base@.take(i as int)) by {
                    assert forall|j: int| 0 <= j < i implies a@.take(i as int)[j] == base@.take(i as int)[j] by {
                        if j < i - 1 {
                            assert(a@.take(i - 1)[j] == base@.take(i - 1)[j]);
                        }
                    }
                }
            }
            assert(base@.take(base@.len() as int) =~= base@);
            true
        },
    }
}

/// One varbind of a walk reply: whether its OID lies under the walked OID,
/// its arcs (when they decode), and its value.
pub struct WalkVarbind {
    pub in_subtree: bool,
    pub arcs: Option<Vec<u64>>,
    pub value: SnmpValue,
}

/// What a walk does after a reply.
#[derive(Clone, Copy, PartialEq, Eq, Structural, Debug)]
pub enum WalkStep {
    /// Ask again, starting from the OID of the varbind at this position of the reply.
    Continue(usize),
    Done,
}

/// The position of the first varbind that ends the walk (the end of the
/// MIB view, or an OID outside the subtree), or the reply's length.
pub open spec fn stop_index(batch: Seq<WalkVarbind>) -> int
    decreases batch.len(),
{
    if batch.len() == 0 {
        0
    } else if stop_index(batch.drop_last()) < batch.len() - 1 {
        stop_index(batch.drop_last())
    } else if batch.last().value is EndOfMibView || !batch.last().in_subtree {
        batch.len() - 1
    } else {
        batch.len() as int
    }
}

/// What a walk does after a reply, having made `requests` requests in all:
/// it continues from the last varbind inside the subtree unless the reply
/// was empty, ended the walk, or the request cap was reached.
pub open spec fn walk_next(batch: Seq<WalkVarbind>, requests: int) -> WalkStep {
    let stop = stop_index(batch);
    if batch.len() == 0 || stop < batch.len() || requests >= MAX_ITERATIONS {
        WalkStep::Done
    } else {
        WalkStep::Continue((stop - 1) as usize)
    }
}

proof fn lemma_stop_index(batch: Seq<WalkVarbind>)
    ensures
        0 <= stop_index(batch) <= batch.len(),
        forall|k: int| 0 <= k < stop_index(batch) ==> !(#[trigger] batch[k].value is EndOfMibView) && batch[k].in_subtree,
        stop_index(batch) < batch.len() ==> (batch[stop_index(batch)].value is EndOfMibView || !batch[stop_index(batch)].in_subtree),
    decreases batch.len(),
{
    if batch.len() > 0 {
        lemma_stop_index(batch.drop_last());
        assert forall|k: int| 0 <= k < stop_index(batch) implies !(#[trigger] batch[k].value is EndOfMibView) && batch[k].in_subtree by {
            if k < batch.len() - 1 {
                assert(batch.drop_last()[k] == batch[k]);
            }
        }
        if stop_index(batch.drop_last()) < batch.len() - 1 {
            assert(batch.drop_last()[stop_index(batch.drop_last())] == batch[stop_index(batch.drop_last())]);
        }
    }
}

fn stop_index_exec(batch: &Vec<WalkVarbind>) -> (r: usize)
    ensures
        r == stop_index(batch@),
{
    proof {
        lemma_stop_index(batch@);
    }
    let mut i: usize = 0;
    while i < batch.len()
        invariant
            i <= batch@.len(),
            forall|k: int| 0 <= k < i ==> !(#[trigger] batch@[k].value is EndOfMibView) && batch@[k].in_subtree,
            0 <= stop_index(batch@) <= batch@.len(),
            forall|k: int| 0 <= k < stop_index(batch@) ==> !(#[trigger] batch@[k].value is EndOfMibView) && batch@[k].in_subtree,
            stop_index(batch@) < batch@.len() ==> (batch@[stop_index(batch@)].value is EndOfMibView || !batch@[stop_index(batch@)].in_subtree),
        decreases batch@.len() - i,
    {
        let end = match batch[i].value {
            SnmpValue::EndOfMibView => true,
            _ => false,
        };
        if end || !batch[i].in_subtree {
            return i;
        }
        i = i + 1;
    }
    i
}

/// Arcs in dotted notation.
pub open spec fn dotted64(p: Seq<u64>) -> Seq<char>
    decreases p.len(),
{
    if p.len() == 0 {
        Seq::empty()
    } else if p.len() == 1 {
        decimal(p[0] as nat)
    } else {
        dotted64(p.drop_last()) + seq!['.'] + decimal(p.last() as nat)
    }
}

fn dotted_u64(path: &[u64]) -> (r: String)
    ensures
        r@ == dotted64(path@),
{
    let mut out: Vec<char> = Vec::new();
    let mut i: usize = 0;
    while i < path.len()
        invariant
            i <= path@.len(),
            out@ == dotted64(path@.take(i as int)),
        decreases path@.len() - i,
    {
        let ghost before = out@;
        if i > 0 {
            out.push('.');
        }
        let digits = decimal_chars(path[i] as u128);
        push_chars(&mut out, digits.as_slice());
        proof {
            let t = path@.take(i as int + 1);
            assert(t.drop_last() =~= path@.take(i as int));
            if i == 0 {
                assert(out@ =~= decimal(path@[0] as nat));
            } else {
                assert(out@ =~= before + seq!['.'] + decimal(path@[i as int] as nat));
            }
        }
        i = i + 1;
    }
    assert(path@.take(path@.len() as int) =~= path@);
    string_of(out.as_slice())
}

/// The column answering to arc `a`: the last one declared with that arc.
pub open spec fn column_for_arc(cols: Seq<ColumnInfo>, a: u32) -> Option<int>
    decreases cols.len(),
{
    if cols.len() == 0 {
        None
    } else if cols.last().arc == Some(a) {
        Some(cols.len() - 1)
    } else {
        column_for_arc(cols.drop_last(), a)
    }
}

proof fn lemma_column_for_arc(cols: Seq<ColumnInfo>, a: u32)
    ensures
        column_for_arc(cols, a) matches Some(k) ==> 0 <= k < cols.len() && cols[k].arc == Some(a),
    decreases cols.len(),
{
    if cols.len() > 0 && cols.last().arc != Some(a) {
        lemma_column_for_arc(cols.drop_last(), a);
    }
}

fn column_for_arc_exec(cols: &Vec<ColumnInfo>, a: u32) -> (r: Option<usize>)
    ensures
        match r {
            Some(k) => column_for_arc(cols@, a) == Some(k as int) && k < cols@.len(),
            None => column_for_arc(cols@, a) is None,
        },
{
    let mut i: usize = cols.len();
    assert(cols@.take(cols@.len() as int) =~= cols@);
    while i > 0
        invariant
            i <= cols@.len(),
            column_for_arc(cols@, a) == column_for_arc(cols@.take(i as int), a),
        decreases i,
    {
        assert(cols@.take(i as int).drop_last() =~= cols@.take(i - 1));
        if cols[i - 1].arc == Some(a) {
            return Some(i - 1);
        }
        i = i - 1;
    }
    None
}

/// The model of the rows collected so far: each row's index text with its
/// values by column name, in the order rows were first seen.
pub open spec fn rows_model(rows: Seq<(String, Vec<(String, String)>)>) -> Seq<(Seq<char>, Map<Seq<char>, Seq<char>>)> {
    rows.map_values(|r: (String, Vec<(String, String)>)| (r.0@, text_map(r.1@)))
}

/// The first row at or after `j` with index text `key`.
pub open spec fn row_index(m: Seq<(Seq<char>, Map<Seq<char>, Seq<char>>)>, key: Seq<char>, j: int) -> Option<int>
    decreases m.len() - j,
{
    if j < 0 || j >= m.len() {
        None
    } else if m[j].0 == key {
        Some(j)
    } else {
        row_index(m, key, j + 1)
    }
}

/// `m` with `col` set to `val` in the row `key` (a new row at the end when
/// there is none yet).
pub open spec fn record_value(m: Seq<(Seq<char>, Map<Seq<char>, Seq<char>>)>, key: Seq<char>, col: Seq<char>, val: Seq<char>) -> Seq<(Seq<char>, Map<Seq<char>, Seq<char>>)> {
    match row_index(m, key, 0) {
        Some(i) => m.update(i, (key, m[i].1.insert(col, val))),
        None => m.push((key, Map::empty().insert(col, val))),
    }
}

/// The rows after one varbind of a table walk: a varbind two or more arcs
/// below the table OID gives the column arc (the second arc below it) and
/// the row index (the arcs after that); varbinds of unknown columns, or
/// whose arcs do not decode, are skipped.
pub open spec fn apply_varbind(m: Seq<(Seq<char>, Map<Seq<char>, Seq<char>>)>, cols: Seq<ColumnInfo>, base_len: int, vb: WalkVarbind) -> Seq<(Seq<char>, Map<Seq<char>, Seq<char>>)> {
    match vb.arcs {
        None => m,
        Some(full) => if full@.len() < base_len + 2 {
            m
        } else {
            match column_for_arc(cols, full@[base_len + 1] as u32) {
                None => m,
                Some(c) => record_value(m, dotted64(full@.skip(base_len + 2)), cols[c].name@, value_text(vb.value, cols[c].enum_values@)),
            }
        },
    }
}

/// The rows after the first `n` varbinds of a reply.
pub open spec fn apply_batch(m: Seq<(Seq<char>, Map<Seq<char>, Seq<char>>)>, cols: Seq<ColumnInfo>, base_len: int, batch: Seq<WalkVarbind>, n: int) -> Seq<(Seq<char>, Map<Seq<char>, Seq<char>>)>
    decreases n,
{
    if n <= 0 {
        m
    } else {
        apply_varbind(apply_batch(m, cols, base_len, batch, n - 1), cols, base_len, batch[n - 1])
    }
}

/// A table walk in progress.
pub struct TableWalk {
    /// How many arcs the table OID has.
    pub base_len: usize,
    /// The rows seen so far, by index text, in the order first seen.
    pub rows: Vec<(String, Vec<(String, String)>)>,
    /// Requests made so far.
    pub requests: usize,
}

/// The message for a table whose OID is not resolved.
pub open spec fn unresolved_table_message() -> Seq<char> {
    "this table's OID could not be resolved (its ancestor chain isn't fully defined in the configured MIB directories)"@
}

impl TableWalk {
    /// Rows are keyed uniquely and each row's columns are too.
    pub open spec fn valid(&self) -> bool {
        &&& assoc_unique(self.rows@)
        &&& forall|i: int| 0 <= i < self.rows@.len() ==> assoc_unique(#[trigger] self.rows@[i].1@)
    }

    /// Starts a walk of `table`: its OID must be resolved. Returns the walk
    /// and the OID the first request starts from.
    pub fn start(table: &TableInfo) -> (r: Result<(TableWalk, snmp2::Oid<'static>), String>)
        ensures
            (!table.resolved || table.oid@.len() == 0) ==> (r matches Err(e) && e@ == unresolved_table_message()),
            (table.resolved && table.oid@.len() > 0) ==> (r is Ok <==> (dotted_arcs(table.oid@) matches Some(a) && oid_encodable(a))),
            r matches Ok(w) ==> w.1 == oid_for(dotted_arcs(table.oid@)->0),
            r matches Ok(w) ==> {
                &&& w.0.valid()
                &&& w.0.rows@.len() == 0
                &&& w.0.requests == 0
                &&& dotted_arcs(table.oid@) matches Some(a) && w.0.base_len == a.len()
            },
    {
        if !table.resolved || table.oid.as_str().is_empty() {
            return Err("this table's OID could not be resolved (its ancestor chain isn't fully defined in the configured MIB directories)".to_owned());
        }
        let base = oid_from_dotted(table.oid.as_str())?;
        match arcs_from_dotted(table.oid.as_str()) {
            Some(arcs) => Ok((TableWalk { base_len: arcs.len(), rows: Vec::new(), requests: 0 }, base)),
            None => Err("invalid table OID".to_owned()),
        }
    }

    fn record(&mut self, key: String, col: String, val: String)
        requires
            old(self).valid(),
        ensures
            final(self).valid(),
            final(self).base_len == old(self).base_len,
            final(self).requests == old(self).requests,
            rows_model(final(self).rows@) == record_value(rows_model(old(self).rows@), key@, col@, val@),
    {
        let ghost m0 = rows_model(self.rows@);
        let mut i: usize = 0;
        while i < self.rows.len()
            invariant
                i <= self.rows@.len(),
                self.rows@ == old(self).rows@,
                self.base_len == old(self).base_len,
                self.requests == old(self).requests,
                old(self).valid(),
                m0 == rows_model(self.rows@),
                row_index(m0, key@, i as int) == row_index(m0, key@, 0),
            decreases self.rows@.len() - i,
        {
            if str_eq(self.rows[i].0.as_str(), key.as_str()) {
                assert(row_index(m0, key@, i as int) == Some(i as int));
                let mut entry: (String, Vec<(String, String)>) = (String::new(), Vec::new());
                std::mem::swap(&mut entry, &mut self.rows[i]);
                let ghost before = entry.1@;
                assert(assoc_unique(before));
                let ghost cv = col@;
                let ghost vv = val;
                assoc_upsert(&mut entry.1, col, val);
                assert(text_map(entry.1@) =~= text_map(before).insert(cv, vv@));
                self.rows.set(i, entry);
                proof {
                    assert(rows_model(self.rows@) =~= m0.update(i as int, (key@, m0[i as int].1.insert(cv, vv@))));
                    assert forall|a: int, b: int| 0 <= a < b < self.rows@.len() implies self.rows@[a].0@ != self.rows@[b].0@ by {
                        assert(old(self).rows@[a].0@ != old(self).rows@[b].0@);
                    }
                    assert forall|q: int| 0 <= q < self.rows@.len() implies assoc_unique(#[trigger] self.rows@[q].1@) by {
                        if q != i {
                            assert(self.rows@[q] == old(self).rows@[q]);
                        }
                    }
                }
                return;
            }
            i = i + 1;
        }
        let mut row: Vec<(String, String)> = Vec::new();
        let ghost cv = col@;
        let ghost vv = val@;
        let ghost cs = col;
        let ghost vs = val;
        row.push((col, val));
        proof {
            assert(row@ =~= seq![(cs, vs)]);
            lemma_text_map_single(cs, vs);
        }
        let ghost kv = key@;
        self.rows.push((key, row));
        proof {
            assert(rows_model(self.rows@) =~= m0.push((kv, Map::<Seq<char>, Seq<char>>::empty().insert(cv, vv))));
            assert forall|a: int, b: int| 0 <= a < b < self.rows@.len() implies self.rows@[a].0@ != self.rows@[b].0@ by {
                if b == self.rows@.len() - 1 {
                    assert(m0[a].0 == self.rows@[a].0@);
                    lemma_row_index_none(m0, kv, 0, a);
                } else {
                    assert(old(self).rows@[a].0@ != old(self).rows@[b].0@);
                }
            }
            assert forall|q: int| 0 <= q < self.rows@.len() implies assoc_unique(#[trigger] self.rows@[q].1@) by {
                if q < self.rows@.len() - 1 {
                    assert(self.rows@[q] == old(self).rows@[q]);
                }
            }
        }
    }

    /// Takes in one reply of the walk: its varbinds up to the first that
    /// ends the walk are recorded, and the next step is decided (see
    /// `walk_next`).
    pub fn step(&mut self, table: &TableInfo, batch: &Vec<WalkVarbind>) -> (r: WalkStep)
        requires
            old(self).valid(),
            old(self).requests < MAX_ITERATIONS,
        ensures
            final(self).valid(),
            final(self).base_len == old(self).base_len,
            final(self).requests == old(self).requests + 1,
            rows_model(final(self).rows@) == apply_batch(rows_model(old(self).rows@), table.columns@, old(self).base_len as int, batch@, stop_index(batch@)),
            r == walk_next(batch@, final(self).requests as int),
    {
        self.requests = self.requests + 1;
        let stop = stop_index_exec(batch);
        let mut k: usize = 0;
        let ghost m0 = rows_model(self.rows@);
        proof {
            lemma_stop_index(batch@);
        }
        while k < stop
            invariant
                k <= stop,
                stop == stop_index(batch@),
                stop <= batch@.len(),
                self.valid(),
                self.base_len == old(self).base_len,
                self.requests == old(self).requests + 1,
                rows_model(self.rows@) == apply_batch(m0, table.columns@, self.base_len as int, batch@, k as int),
            decreases stop - k,
        {
            let vb = &batch[k];
            match &vb.arcs {
                None => {},
                Some(full) => {
                    if full.len() >= 2 && full.len() - 2 >= self.base_len {
                        let col_arc = full[self.base_len + 1] as u32;
                        match column_for_arc_exec(&table.columns, col_arc) {
                            None => {},
                            Some(c) => {
                                let rest = vstd::slice::slice_subrange(full.as_slice(), self.base_len + 2, full.len());
                                assert(rest@ =~= full@.skip(self.base_len + 2));
                                let key = dotted_u64(rest);
                                let val = format_value(&vb.value, table.columns[c].enum_values.as_slice());
                                let col = table.columns[c].name.clone();
                                self.record(key, col, val);
                            },
                        }
                    }
                },
            }
            k = k + 1;
        }
        if batch.len() == 0 || stop < batch.len() || self.requests >= MAX_ITERATIONS {
            WalkStep::Done
        } else {
            WalkStep::Continue(stop - 1)
        }
    }

    /// The fetched table: an `Index` column (each row's index text) before
    /// the table's own columns, the rows in the order first seen, and the
    /// DISPLAY-HINT of each column that has one.
    pub fn result(&self, table: &TableInfo) -> (r: FetchResult)
        requires
            self.valid(),
        ensures
            string_views(r.columns@) == seq!["Index"@] + table.columns@.map_values(|c: ColumnInfo| c.name@),
            r.rows@.len() == self.rows@.len(),
            forall|i: int| 0 <= i < r.rows@.len() ==> assoc_unique(#[trigger] r.rows@[i]@)
                && text_map(r.rows@[i]@) == rows_model(self.rows@)[i].1.insert("Index"@, rows_model(self.rows@)[i].0),
            assoc_unique(r.display_hints@),
            text_map(r.display_hints@) == hints_map(table.columns@),
    {
        let mut columns: Vec<String> = Vec::new();
        columns.push("Index".to_owned());
        let mut c: usize = 0;
        assert(string_views(columns@) =~= seq!["Index"@] + table.columns@.take(0).map_values(|c: ColumnInfo| c.name@));
        while c < table.columns.len()
            invariant
                c <= table.columns@.len(),
                string_views(columns@) == seq!["Index"@] + table.columns@.take(c as int).map_values(|c: ColumnInfo| c.name@),
            decreases table.columns@.len() - c,
        {
            let ghost before = columns@;
            columns.push(table.columns[c].name.clone());
            proof {
                assert(table.columns@.take(c + 1) =~= table.columns@.take(c as int).push(table.columns@[c as int]));
                assert(table.columns@.take(c + 1).map_values(|c: ColumnInfo| c.name@)
                    =~= table.columns@.take(c as int).map_values(|c: ColumnInfo| c.name@).push(table.columns@[c as int].name@));
                assert(string_views(columns@) =~= string_views(before).push(table.columns@[c as int].name@));
            }
            c = c + 1;
        }
        assert(table.columns@.take(table.columns@.len() as int) =~= table.columns@);
        let mut rows: Vec<Vec<(String, String)>> = Vec::new();
        let mut i: usize = 0;
        while i < self.rows.len()
            invariant
                i <= self.rows@.len(),
                self.valid(),
                rows@.len() == i,
                forall|q: int| 0 <= q < i ==> assoc_unique(#[trigger] rows@[q]@)
                    && text_map(rows@[q]@) == rows_model(self.rows@)[q].1.insert("Index"@, rows_model(self.rows@)[q].0),
            decreases self.rows@.len() - i,
        {
            let mut row = copy_text_list(&self.rows[i].1);
            let ghost before = assoc_map(row@);
            let key = self.rows[i].0.clone();
            let ghost kv = key;
            assoc_upsert(&mut row, "Index".to_owned(), key);
            assert(text_map(row@) =~= text_map(self.rows@[i as int].1@).insert("Index"@, kv@));
            rows.push(row);
            i = i + 1;
        }
        let mut hints: Vec<(String, String)> = Vec::new();
        let mut h: usize = 0;
        while h < table.columns.len()
            invariant
                h <= table.columns@.len(),
                assoc_unique(hints@),
                text_map(hints@) == hints_map(table.columns@.take(h as int)),
            decreases table.columns@.len() - h,
        {
            assert(table.columns@.take(h + 1).drop_last() =~= table.columns@.take(h as int));
            match &table.columns[h].display_hint {
                Some(hint) => {
                    let ghost before = hints@;
                    let nm = table.columns[h].name.clone();
                    let hv = hint.clone();
                    assoc_upsert(&mut hints, nm, hv);
                    assert(text_map(hints@) =~= text_map(before).insert(table.columns@[h as int].name@, hint@));
                },
                None => {},
            }
            h = h + 1;
        }
        assert(table.columns@.take(table.columns@.len() as int) =~= table.columns@);
        FetchResult { columns, rows, display_hints: hints }
    }
}

proof fn lemma_row_index_none(m: Seq<(Seq<char>, Map<Seq<char>, Seq<char>>)>, key: Seq<char>, j: int, a: int)
    requires
        0 <= j <= a < m.len(),
        row_index(m, key, j) is None,
    ensures
        m[a].0 != key,
    decreases a - j,
{
    if j < a {
        lemma_row_index_none(m, key, j + 1, a);
    }
}

/// The display hints of the columns that have one, by column name (a later
/// column of the same name replaces an earlier one).
pub open spec fn hints_map(cols: Seq<ColumnInfo>) -> Map<Seq<char>, Seq<char>>
    decreases cols.len(),
{
    if cols.len() == 0 {
        Map::empty()
    } else {
        match cols.last().display_hint {
            Some(h) => hints_map(cols.drop_last()).insert(cols.last().name@, h@),
            None => hints_map(cols.drop_last()),
        }
    }
}

fn copy_text_list(v: &Vec<(String, String)>) -> (r: Vec<(String, String)>)
    ensures
        r@ == v@,
{
    let mut out: Vec<(String, String)> = Vec::new();
    let mut i: usize = 0;
    while i < v.len()
        invariant
            i <= v@.len(),
            out@ == v@.take(i as int),
        decreases v@.len() - i,
    {
        out.push((v[i].0.clone(), v[i].1.clone()));
        i = i + 1;
        assert(out@ =~= v@.take(i as int));
    }
    assert(v@.take(v@.len() as int) =~= v@);
    out
}

/// The counts of a timed subtree walk: varbinds received inside the
/// subtree, requests made, and whether the request cap cut the walk short.
pub struct SubtreeWalk {
    pub varbinds: usize,
    pub requests: usize,
    pub truncated: bool,
}

impl SubtreeWalk {
    /// A walk that has made no request yet.
    pub fn new() -> (r: Self)
        ensures
            r.varbinds == 0,
            r.requests == 0,
            r.truncated,
    {
        SubtreeWalk { varbinds: 0, requests: 0, truncated: true }
    }

    /// Takes in one reply: counts its varbinds up to the first that ends the
    /// walk and decides the next step (see `walk_next`). The walk counts as
    /// cut short exactly when it would have gone on.
    pub fn step(&mut self, batch: &Vec<WalkVarbind>) -> (r: WalkStep)
        requires
            old(self).requests < MAX_ITERATIONS,
            old(self).varbinds + batch@.len() <= usize::MAX,
        ensures
            final(self).requests == old(self).requests + 1,
            final(self).varbinds == old(self).varbinds + stop_index(batch@),
            final(self).truncated == (batch@.len() > 0 && stop_index(batch@) == batch@.len()),
            r == walk_next(batch@, final(self).requests as int),
    {
        self.requests = self.requests + 1;
        let stop = stop_index_exec(batch);
        proof {
            lemma_stop_index(batch@);
        }
        self.varbinds = self.varbinds + stop;
        self.truncated = batch.len() > 0 && stop == batch.len();
        if batch.len() == 0 || stop < batch.len() || self.requests >= MAX_ITERATIONS {
            WalkStep::Done
        } else {
            WalkStep::Continue(stop - 1)
        }
    }
}

} // verus!
