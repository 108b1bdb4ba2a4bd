//! SNMP trap and inform handling: which packets a listener accepts, how a
//! decoded notification becomes an event (OIDs labelled against the MIB
//! symbols), and the per-listener event buffer the frontend polls. A
//! community (v1/v2c) packet is decoded here with `snmp2`; the sockets,
//! threads and the decoding of v3 packets (which updates a security state)
//! live outside this module.

use vstd::prelude::*;
use crate::snmp::{format_value, v3_auth_mode, v3_auth_spec, value_text, SnmpValue, V3Auth};
use crate::text::{chars_of, decimal, decimal_chars, push_chars, push_str, str_eq, string_of, trim_chars, trimmed};

verus! {

/// Per-listener cap on retained events; the oldest are dropped beyond it.
pub const MAX_EVENTS: usize = 2000;

/// A trap listener's settings.
pub struct TrapListenerConfig {
    pub bind_addr: String,
    pub port: String,
    /// `v1`, `v2c` or `v3`: the one wire version this listener accepts.
    pub version: String,
    /// v1/v2c only: the community a packet must carry; empty accepts any.
    pub community: String,
    pub v3_user: String,
    pub v3_auth: String,
    pub v3_priv: String,
}

/// One varbind of a received notification.
pub struct TrapVarbind {
    pub oid: String,
    pub name: String,
    pub value: String,
}

/// A received notification, or a packet that could not be decoded.
pub struct TrapEvent {
    pub seq: u64,
    pub time_ms: i64,
    pub source: String,
    pub version: String,
    /// Community (v1/v2c) or security user name (v3).
    pub principal: String,
    pub trap_type: String,
    pub trap_oid: String,
    pub varbinds: Vec<TrapVarbind>,
    /// An inform: a confirmed notification the sender expects an answer to.
    pub confirmed: bool,
    pub error: Option<String>,
}

/// Whether a listener runs, and the address it is bound to.
pub struct TrapListenerStatus {
    pub running: bool,
    pub bound_addr: String,
}

/// The SNMP version a packet was encoded with.
#[derive(Clone, Copy, PartialEq, Eq, Structural, Debug)]
pub enum WireVersion {
    V1,
    V2c,
    V3,
}

/// The fields of a v1 trap.
pub struct V1Trap {
    /// The enterprise OID, dotted.
    pub enterprise: String,
    pub generic_trap: i64,
    pub specific_trap: i64,
}

/// A decoded notification PDU.
pub struct TrapPdu {
    /// The version field, when it names a known version.
    pub version: Option<WireVersion>,
    pub community: Vec<u8>,
    /// The community (or user name) as text, invalid UTF-8 replaced.
    pub principal: String,
    pub v1_trap: Option<V1Trap>,
    /// Each varbind's OID (dotted) and value.
    pub varbinds: Vec<(String, SnmpValue)>,
    /// The PDU is an InformRequest.
    pub inform: bool,
}

/// The name of a version as the SNMP library shows it.
pub open spec fn version_text(v: Option<WireVersion>) -> Seq<char> {
    match v {
        Some(WireVersion::V1) => "SNMPv1"@,
        Some(WireVersion::V2c) => "SNMPv2c"@,
        Some(WireVersion::V3) => "SNMPv3"@,
        None => "unknown"@,
    }
}

fn version_string(v: Option<WireVersion>) -> (r: String)
    ensures
        r@ == version_text(v),
{
    match v {
        Some(WireVersion::V1) => "SNMPv1".to_owned(),
        Some(WireVersion::V2c) => "SNMPv2c".to_owned(),
        Some(WireVersion::V3) => "SNMPv3".to_owned(),
        None => "unknown".to_owned(),
    }
}

/// `base` names `oid` or one of its ancestors.
pub open spec fn covers(base: Seq<char>, oid: Seq<char>) -> bool {
    oid == base || (base.len() < oid.len() && oid.take(base.len() as int) == base && oid[base.len() as int] == '.')
}

/// `oid` labelled by the index entry `e`: its name, followed by the rest
/// of the OID when the entry names an ancestor (`ifDescr.3`).
pub open spec fn labelled(e: (String, String), oid: Seq<char>) -> Seq<char> {
    if oid == e.0@ {
        e.1@
    } else {
        e.1@ + oid.skip(e.0@.len() as int)
    }
}

/// The position of the entry with the longest OID covering `oid` (the
/// first of them when several are equally long), if any entry covers it.
pub open spec fn best_cover(index: Seq<(String, String)>, oid: Seq<char>) -> Option<int>
    decreases index.len(),
{
    if index.len() == 0 {
        None
    } else {
        let b = best_cover(index.drop_last(), oid);
        let i = index.len() - 1;
        if covers(index[i].0@, oid) && (b is None || index[i].0@.len() > index[b->0].0@.len()) {
            Some(i)
        } else {
            b
        }
    }
}

/// `oid` labelled against `index` (pairs of dotted OID and name): by the
/// entry with the longest OID that equals it or lies above it (see
/// `best_cover`); the OID itself when no entry covers it.
pub open spec fn resolve_oid_spec(index: Seq<(String, String)>, oid: Seq<char>) -> Seq<char> {
    match best_cover(index, oid) {
        Some(i) => labelled(index[i], oid),
        None => oid,
    }
}

proof fn lemma_best_cover(index: Seq<(String, String)>, oid: Seq<char>)
    ensures
        best_cover(index, oid) matches Some(i) ==> {
            &&& 0 <= i < index.len()
            &&& covers(index[i].0@, oid)
            &&& forall|j: int| 0 <= j < index.len() && covers(#[trigger] index[j].0@, oid) ==> index[j].0@.len() <= index[i].0@.len()
            &&& forall|j: int| 0 <= j < i && covers(#[trigger] index[j].0@, oid) ==> index[j].0@.len() < index[i].0@.len()
        },
        best_cover(index, oid) is None ==> forall|j: int| 0 <= j < index.len() ==> !covers(#[trigger] index[j].0@, oid),
    decreases index.len(),
{
    if index.len() > 0 {
        let d = index.drop_last();
        lemma_best_cover(d, oid);
        let i = index.len() - 1;
        let b = best_cover(d, oid);
        assert forall|j: int| 0 <= j < d.len() implies #[trigger] d[j] == index[j] by {}
        if covers(index[i].0@, oid) && (b is None || index[i].0@.len() > index[b->0].0@.len()) {
            assert forall|j: int| 0 <= j < index.len() && covers(#[trigger] index[j].0@, oid) implies index[j].0@.len() <= index[i].0@.len() by {
                if j < i {
                    assert(d[j] == index[j]);
                }
            }
            assert forall|j: int| 0 <= j < i && covers(#[trigger] index[j].0@, oid) implies index[j].0@.len() < index[i].0@.len() by {
                assert(d[j] == index[j]);
            }
        } else {
            match b {
                Some(bi) => {
                    assert(d[bi] == index[bi]);
                    assert forall|j: int| 0 <= j < index.len() && covers(#[trigger] index[j].0@, oid) implies index[j].0@.len() <= index[bi].0@.len() by {
                        if j < i {
                            assert(d[j] == index[j]);
                        }
                    }
                    assert forall|j: int| 0 <= j < bi && covers(#[trigger] index[j].0@, oid) implies index[j].0@.len() < index[bi].0@.len() by {
                        assert(d[j] == index[j]);
                    }
                },
                None => {
                    assert forall|j: int| 0 <= j < index.len() implies !covers(#[trigger] index[j].0@, oid) by {
                        if j < i {
                            assert(d[j] == index[j]);
                        }
                    }
                },
            }
        }
    }
}

/// The index entry an OID is labelled by is the longest that covers it,
/// and comes before any other entry of that length that does; an OID no
/// entry covers is left as it is.
pub proof fn lemma_longest_cover_labels(index: Seq<(String, String)>, oid: Seq<char>)
    ensures
        (forall|j: int| 0 <= j < index.len() ==> !covers(#[trigger] index[j].0@, oid)) ==> resolve_oid_spec(index, oid) == oid,
        (exists|j: int| 0 <= j < index.len() && covers(#[trigger] index[j].0@, oid)) ==> exists|i: int| {
            &&& 0 <= i < index.len()
            &&& covers(index[i].0@, oid)
            &&& resolve_oid_spec(index, oid) == labelled(index[i], oid)
            &&& forall|j: int| 0 <= j < index.len() && covers(#[trigger] index[j].0@, oid) ==> index[j].0@.len() <= index[i].0@.len()
            &&& forall|j: int| 0 <= j < i && covers(#[trigger] index[j].0@, oid) ==> index[j].0@.len() < index[i].0@.len()
        },
{
    lemma_best_cover(index, oid);
    if exists|j: int| 0 <= j < index.len() && covers(#[trigger] index[j].0@, oid) {
        let j = choose|j: int| 0 <= j < index.len() && covers(#[trigger] index[j].0@, oid);
        assert(best_cover(index, oid) is Some);
        let i = best_cover(index, oid)->0;
        assert(resolve_oid_spec(index, oid) == labelled(index[i], oid));
    }
}

fn starts_with_chars(s: &[char], p: &[char]) -> (r: bool)
    ensures
        r == (p@.len() <= s@.len() && s@.take(p@.len() as int) == p@),
{
    if p.len() > s.len() {
        return false;
    }
    let mut i: usize = 0;
    while i < p.len()
        invariant
            p@.len() <= s@.len(),
            i <= p@.len(),
            forall|k: int| 0 <= k < i ==> s@[k] == p@[k],
        decreases p@.len() - i,
    {
        if s[i] != p[i] {
            assert(s@.take(p@.len() as int)[i as int] != p@[i as int]);
            return false;
        }
        i = i + 1;
    }
    assert(s@.take(p@.len() as int) =~= p@);
    true
}

/// Labels `oid` against `index` (see `resolve_oid_spec`).
pub fn resolve_oid(index: &[(String, String)], oid: &str) -> (r: String)
    ensures
        r@ == resolve_oid_spec(index@, oid@),
{
    let oc = chars_of(oid);
    let mut best: Option<usize> = None;
    let mut best_len: usize = 0;
    let mut i: usize = 0;
    while i < index.len()
        invariant
            i <= index@.len(),
            oc@ == oid@,
            best_cover(index@.take(i as int), oid@) == match best { Some(b) => Some(b as int), None => None::<int> },
            best matches Some(b) ==> b < i && best_len == index@[b as int].0@.len(),
        decreases index@.len() - i,
    {
        proof {
            let t = index@.take(i as int + 1);
            assert(t.drop_last() =~= index@.take(i as int));
            assert(t[i as int] == index@[i as int]);
            match best {
                Some(b) => { assert(t[b as int] == index@[b as int]); assert(index@.take(i as int)[b as int] == index@[b as int]); },
                None => {},
            }
        }
        let bc = chars_of(index[i].0.as_str());
        let hit = str_eq(oid, index[i].0.as_str())
            || (bc.len() < oc.len() && starts_with_chars(oc.as_slice(), bc.as_slice()) && oc[bc.len()] == '.');
        let longer = match best {
            Some(_) => bc.len() > best_len,
            None => true,
        };
        if hit && longer {
            best = Some(i);
            best_len = bc.len();
        }
        i = i + 1;
    }
    proof {
        assert(index@.take(index@.len() as int) =~= index@);
    }
    match best {
        None => string_of(oc.as_slice()),
        Some(b) => {
            if str_eq(oid, index[b].0.as_str()) {
                index[b].1.clone()
            } else {
                let bc = chars_of(index[b].0.as_str());
                let mut out = chars_of(index[b].1.as_str());
                let mut k = bc.len();
                let ghost start = out@;
                proof { lemma_best_cover(index@, oid@); }
                while k < oc.len()
                    invariant
                        bc@.len() <= k <= oc@.len(),
                        out@ == start + oc@.subrange(bc@.len() as int, k as int),
                    decreases oc@.len() - k,
                {
                    out.push(oc[k]);
                    k = k + 1;
                }
                assert(oc@.subrange(bc@.len() as int, oc@.len() as int) =~= oid@.skip(bc@.len() as int));
                string_of(out.as_slice())
            }
        },
    }
}

/// The names of the generic v1 traps, by their number.
pub open spec fn generic_trap_name(g: i64) -> Seq<char> {
    if g == 0 {
        "coldStart"@
    } else if g == 1 {
        "warmStart"@
    } else if g == 2 {
        "linkDown"@
    } else if g == 3 {
        "linkUp"@
    } else if g == 4 {
        "authenticationFailure"@
    } else if g == 5 {
        "egpNeighborLoss"@
    } else {
        Seq::empty()
    }
}

fn generic_trap_string(g: i64) -> (r: String)
    ensures
        r@ == generic_trap_name(g),
{
    if g == 0 {
        "coldStart".to_owned()
    } else if g == 1 {
        "warmStart".to_owned()
    } else if g == 2 {
        "linkDown".to_owned()
    } else if g == 3 {
        "linkUp".to_owned()
    } else if g == 4 {
        "authenticationFailure".to_owned()
    } else if g == 5 {
        "egpNeighborLoss".to_owned()
    } else {
        String::new()
    }
}

/// The OID of a v1 trap: `<enterprise>.0.<specific>` for an
/// enterprise-specific trap (generic 6), else the SNMPv2-MIB OID of the
/// generic trap, `1.3.6.1.6.3.1.1.5.<generic + 1>`.
pub open spec fn v1_trap_oid(t: V1Trap) -> Seq<char> {
    if t.generic_trap == 6 {
        t.enterprise@ + ".0."@ + crate::gnmi::signed_decimal(t.specific_trap as int)
    } else {
        "1.3.6.1.6.3.1.1.5."@ + crate::gnmi::signed_decimal(t.generic_trap + 1)
    }
}

/// The OID of the varbind that carries a v2 notification's type.
pub open spec fn snmp_trap_oid() -> Seq<char> {
    "1.3.6.1.6.3.1.1.4.1.0"@
}

/// The notification OID a v2c/v3 PDU carries: the value of its (last)
/// `snmpTrapOID.0` varbind holding an OID, or `""`.
pub open spec fn carried_trap_oid(vbs: Seq<(String, SnmpValue)>) -> Seq<char>
    decreases vbs.len(),
{
    if vbs.len() == 0 {
        Seq::empty()
    } else {
        match vbs.last().1 {
            SnmpValue::ObjectIdentifier(o) => if vbs.last().0@ == snmp_trap_oid() {
                o@
            } else {
                carried_trap_oid(vbs.drop_last())
            },
            _ => carried_trap_oid(vbs.drop_last()),
        }
    }
}

/// The model of a varbind of an event.
pub open spec fn varbind_view(v: TrapVarbind) -> (Seq<char>, Seq<char>, Seq<char>) {
    (v.oid@, v.name@, v.value@)
}

/// The varbind of an event for a PDU varbind: its OID, its label, and its
/// shown value.
pub open spec fn event_varbind(index: Seq<(String, String)>, vb: (String, SnmpValue)) -> (Seq<char>, Seq<char>, Seq<char>) {
    (vb.0@, resolve_oid_spec(index, vb.0@), value_text(vb.1, Seq::empty()))
}

fn event_varbinds(index: &[(String, String)], vbs: &Vec<(String, SnmpValue)>) -> (r: Vec<TrapVarbind>)
    ensures
        r@.map_values(|v: TrapVarbind| varbind_view(v)) == vbs@.map_values(|vb: (String, SnmpValue)| event_varbind(index@, vb)),
{
    let mut out: Vec<TrapVarbind> = Vec::new();
    let mut i: usize = 0;
    while i < vbs.len()
        invariant
            i <= vbs@.len(),
            out@.map_values(|v: TrapVarbind| varbind_view(v)) == vbs@.take(i as int).map_values(|vb: (String, SnmpValue)| event_varbind(index@, vb)),
        decreases vbs@.len() - i,
    {
        let empty: Vec<(i64, String)> = Vec::new();
        assert(empty@ =~= Seq::<(i64, String)>::empty());
        let v = TrapVarbind {
            oid: vbs[i].0.clone(),
            name: resolve_oid(index, vbs[i].0.as_str()),
            value: format_value(&vbs[i].1, empty.as_slice()),
        };
        let ghost before = out@;
        out.push(v);
        proof {
            assert(vbs@.take(i + 1) =~= vbs@.take(i as int).push(vbs@[i as int]));
            assert(out@.map_values(|v: TrapVarbind| varbind_view(v)) =~= before.map_values(|v: TrapVarbind| varbind_view(v)).push(varbind_view(v)));
            assert(vbs@.take(i + 1).map_values(|vb: (String, SnmpValue)| event_varbind(index@, vb))
                =~= vbs@.take(i as int).map_values(|vb: (String, SnmpValue)| event_varbind(index@, vb)).push(event_varbind(index@, vbs@[i as int])));
        }
        i = i + 1;
    }
    assert(vbs@.take(vbs@.len() as int) =~= vbs@);
    out
}

fn carried_trap_oid_exec(vbs: &Vec<(String, SnmpValue)>) -> (r: String)
    ensures
        r@ == carried_trap_oid(vbs@),
{
    let mut i: usize = vbs.len();
    assert(vbs@.take(vbs@.len() as int) =~= vbs@);
    while i > 0
        invariant
            i <= vbs@.len(),
            carried_trap_oid(vbs@) == carried_trap_oid(vbs@.take(i as int)),
        decreases i,
    {
        assert(vbs@.take(i as int).drop_last() =~= vbs@.take(i - 1));
        assert(vbs@.take(i as int).last() == vbs@[i - 1]);
        match &vbs[i - 1].1 {
            SnmpValue::ObjectIdentifier(o) => {
                if str_eq(vbs[i - 1].0.as_str(), "1.3.6.1.6.3.1.1.4.1.0") {
                    return o.clone();
                }
            },
            _ => {},
        }
        i = i - 1;
    }
    String::new()
}

/// The type and OID a PDU's event shows: for a v1 trap its generic name,
/// or (enterprise-specific or unnamed) its OID's label; for a v2c/v3
/// notification the label of the OID it carries.
pub open spec fn trap_identity(pdu: TrapPdu, index: Seq<(String, String)>) -> (Seq<char>, Seq<char>) {
    match pdu.v1_trap {
        Some(t) => {
            let oid = v1_trap_oid(t);
            let name = if t.generic_trap == 6 { Seq::empty() } else { generic_trap_name(t.generic_trap) };
            (if name.len() == 0 { resolve_oid_spec(index, oid) } else { name }, oid)
        },
        None => {
            let oid = carried_trap_oid(pdu.varbinds@);
            (if oid.len() == 0 { "(no snmpTrapOID varbind)"@ } else { resolve_oid_spec(index, oid) }, oid)
        },
    }
}

/// The event for a received PDU, numbered `seq`, received from `source` at
/// `time_ms`: its version name, principal, type and OID (see
/// `trap_identity`), labelled varbinds, and whether it is an inform (a v1
/// trap never is).
pub fn event_from_pdu(pdu: &TrapPdu, seq: u64, source: String, time_ms: i64, index: &[(String, String)]) -> (r: TrapEvent)
    requires
        pdu.v1_trap matches Some(t) ==> t.generic_trap < i64::MAX,
    ensures
        r.seq == seq,
        r.time_ms == time_ms,
        r.source == source,
        r.version@ == version_text(pdu.version),
        r.principal@ == pdu.principal@,
        r.trap_type@ == trap_identity(*pdu, index@).0,
        r.trap_oid@ == trap_identity(*pdu, index@).1,
        r.varbinds@.map_values(|v: TrapVarbind| varbind_view(v)) == pdu.varbinds@.map_values(|vb: (String, SnmpValue)| event_varbind(index@, vb)),
        r.confirmed == (pdu.v1_trap is None && pdu.inform),
        r.error is None,
{
    let version = version_string(pdu.version);
    let principal = pdu.principal.clone();
    let varbinds = event_varbinds(index, &pdu.varbinds);
    match &pdu.v1_trap {
        Some(t) => {
            let mut oid: Vec<char> = Vec::new();
            let name: String;
            if t.generic_trap == 6 {
                push_str(&mut oid, t.enterprise.as_str());
                push_str(&mut oid, ".0.");
                crate::gnmi::push_signed(&mut oid, t.specific_trap);
                name = String::new();
            } else {
                push_str(&mut oid, "1.3.6.1.6.3.1.1.5.");
                crate::gnmi::push_signed(&mut oid, t.generic_trap + 1);
                name = generic_trap_string(t.generic_trap);
            }
            proof {
                if t.generic_trap == 6 {
                    assert(oid@ =~= t.enterprise@ + ".0."@ + crate::gnmi::signed_decimal(t.specific_trap as int));
                } else {
                    assert(oid@ =~= "1.3.6.1.6.3.1.1.5."@ + crate::gnmi::signed_decimal(t.generic_trap + 1));
                }
            }
            let trap_oid = string_of(oid.as_slice());
            let trap_type = if name.as_str().is_empty() { resolve_oid(index, trap_oid.as_str()) } else { name };
            TrapEvent {
                seq,
                time_ms,
                source,
                version,
                principal,
                trap_type,
                trap_oid,
                varbinds,
                confirmed: false,
                error: None,
            }
        },
        None => {
            let trap_oid = carried_trap_oid_exec(&pdu.varbinds);
            let trap_type = if trap_oid.as_str().is_empty() {
                "(no snmpTrapOID varbind)".to_owned()
            } else {
                resolve_oid(index, trap_oid.as_str())
            };
            TrapEvent {
                seq,
                time_ms,
                source,
                version,
                principal,
                trap_type,
                trap_oid,
                varbinds,
                confirmed: pdu.inform,
                error: None,
            }
        },
    }
}

/// The event for a packet of the listener's own version that could not be
/// decoded.
pub fn error_event(seq: u64, source: String, time_ms: i64, message: String) -> (r: TrapEvent)
    ensures
        r.seq == seq,
        r.time_ms == time_ms,
        r.source == source,
        r.version@ == "?"@,
        r.principal@.len() == 0,
        r.trap_type@.len() == 0,
        r.trap_oid@.len() == 0,
        r.varbinds@.len() == 0,
        !r.confirmed,
        r.error == Some(message),
{
    TrapEvent {
        seq,
        time_ms,
        source,
        version: "?".to_owned(),
        principal: String::new(),
        trap_type: String::new(),
        trap_oid: String::new(),
        varbinds: Vec::new(),
        confirmed: false,
        error: Some(message),
    }
}

/// How a listener treats received packets.
#[derive(Clone, Copy, PartialEq, Eq, Structural, Debug)]
pub enum ListenerMode {
    /// v1 or v2c: decode by community and keep only PDUs of this version.
    Community(WireVersion),
    /// v3: decode with the listener's security user; failures are reported.
    V3,
    /// Any other version name: nothing is kept.
    Ignore,
}

/// The mode for the listener's version name.
pub open spec fn listener_mode_spec(version: Seq<char>) -> ListenerMode {
    if version == "v1"@ {
        ListenerMode::Community(WireVersion::V1)
    } else if version == "v2c"@ {
        ListenerMode::Community(WireVersion::V2c)
    } else if version == "v3"@ {
        ListenerMode::V3
    } else {
        ListenerMode::Ignore
    }
}

/// The mode of a listener (see `listener_mode_spec`).
pub fn listener_mode(config: &TrapListenerConfig) -> (r: ListenerMode)
    ensures
        r == listener_mode_spec(config.version@),
{
    if str_eq(config.version.as_str(), "v1") {
        ListenerMode::Community(WireVersion::V1)
    } else if str_eq(config.version.as_str(), "v2c") {
        ListenerMode::Community(WireVersion::V2c)
    } else if str_eq(config.version.as_str(), "v3") {
        ListenerMode::V3
    } else {
        ListenerMode::Ignore
    }
}

/// Whether a community-mode listener keeps a decoded PDU: it must be of the
/// wanted version, and carry the configured community unless that is empty.
pub fn accepts_pdu(config: &TrapListenerConfig, wanted: WireVersion, pdu: &TrapPdu) -> (r: bool)
    ensures
        r == (pdu.version == Some(wanted) && (config.community@.len() == 0 || pdu.community@ == vstd::utf8::encode_utf8(config.community@))),
{
    match pdu.version {
        Some(v) => {
            if v != wanted {
                return false;
            }
        },
        None => {
            return false;
        },
    }
    if config.community.as_str().is_empty() {
        return true;
    }
    let cs = config.community.as_str();
    let expected = cs.as_bytes();
    assert(expected@ == vstd::utf8::encode_utf8(config.community@));
    if expected.len() != pdu.community.len() {
        assert(expected@.len() != pdu.community@.len());
        return false;
    }
    let mut i: usize = 0;
    while i < expected.len()
        invariant
            i <= expected@.len(),
            expected@.len() == pdu.community@.len(),
            forall|k: int| 0 <= k < i ==> expected@[k] == pdu.community@[k],
            expected@ == vstd::utf8::encode_utf8(config.community@),
            pdu.version == Some(wanted),
            config.community@.len() > 0,
        decreases expected@.len() - i,
    {
        if expected[i] != pdu.community[i] {
            assert(expected@[i as int] != pdu.community@[i as int]);
            return false;
        }
        i = i + 1;
    }
    assert(expected@ =~= pdu.community@);
    true
}

#[verifier::external_type_specification]
#[verifier::external_body]
pub struct ExPdu<'a>(snmp2::Pdu<'a>);

#[verifier::external_type_specification]
#[verifier::external_body]
pub struct ExV1TrapInfo<'a>(snmp2::pdu::V1TrapInfo<'a>);

#[verifier::external_type_specification]
#[verifier::external_body]
pub struct ExValue<'a>(snmp2::Value<'a>);

/// The notification PDU that `snmp2::Pdu::from_bytes` decodes from a
/// packet, as this library models it, or `None` when the packet does not
/// decode. It depends on the packet's bytes alone.
pub uninterp spec fn decoded_pdu(bytes: Seq<u8>) -> Option<TrapPdu>;

/// `snmp2::Pdu::from_bytes` on a received packet, its result converted
/// field by field: the version, the community (as bytes and as text,
/// invalid UTF-8 replaced), the v1 trap fields, the varbinds in order and
/// whether it is an InformRequest. Its result is named `decoded_pdu`.
#[verifier::external_body]
pub fn decode_pdu(bytes: &[u8]) -> (r: Option<TrapPdu>)
    ensures
        r == decoded_pdu(bytes@),
{
    let p = snmp2::Pdu::from_bytes(bytes).ok()?;
    Some(TrapPdu {
        version: pdu_version(&p),
        community: p.community.to_vec(),
        principal: String::from_utf8_lossy(p.community).into_owned(),
        v1_trap: p.v1_trap_info.as_ref().map(v1_trap_of),
        varbinds: p.varbinds.clone().map(varbind_of).collect(),
        inform: matches!(p.message_type, snmp2::MessageType::InformRequest),
    })
}

/// Part of `decode_pdu`'s conversion: the version field as a `WireVersion`.
#[verifier::external_body]
fn pdu_version(p: &snmp2::Pdu) -> Option<WireVersion> {
    match p.version() {
        Ok(snmp2::Version::V1) => Some(WireVersion::V1),
        Ok(snmp2::Version::V2C) => Some(WireVersion::V2c),
        Ok(snmp2::Version::V3) => Some(WireVersion::V3),
        Err(_) => None,
    }
}

/// Part of `decode_pdu`'s conversion: the v1 trap fields, the enterprise
/// OID as `Oid::to_id_string` writes it.
#[verifier::external_body]
fn v1_trap_of(t: &snmp2::pdu::V1TrapInfo) -> V1Trap {
    V1Trap { enterprise: t.enterprise.to_id_string(), generic_trap: t.generic_trap, specific_trap: t.specific_trap }
}

/// Part of `decode_pdu`'s conversion: one varbind, its OID as
/// `Oid::to_id_string` writes it.
#[verifier::external_body]
fn varbind_of(vb: (snmp2::Oid, snmp2::Value)) -> (String, SnmpValue) {
    (vb.0.to_id_string(), snmp_value_of(&vb.1))
}

/// Part of `decode_pdu`'s conversion: a value, variant for variant.
#[verifier::external_body]
fn snmp_value_of(v: &snmp2::Value) -> SnmpValue {
    match v {
        snmp2::Value::Boolean(b) => SnmpValue::Boolean(*b),
        snmp2::Value::Null => SnmpValue::Null,
        snmp2::Value::Integer(n) => SnmpValue::Integer(*n),
        snmp2::Value::OctetString(b) => SnmpValue::OctetString(b.to_vec()),
        snmp2::Value::ObjectIdentifier(o) => SnmpValue::ObjectIdentifier(o.to_id_string()),
        snmp2::Value::IpAddress(a) => SnmpValue::IpAddress(*a),
        snmp2::Value::Counter32(x) => SnmpValue::Counter32(*x),
        snmp2::Value::Unsigned32(x) => SnmpValue::Unsigned32(*x),
        snmp2::Value::Timeticks(x) => SnmpValue::Timeticks(*x),
        snmp2::Value::Opaque(b) => SnmpValue::Opaque(b.to_vec()),
        snmp2::Value::Counter64(x) => SnmpValue::Counter64(*x),
        other => exception_value_of(other),
    }
}

/// Part of `decode_pdu`'s conversion: the exception values, and any other
/// encoding by its `Debug` text.
#[verifier::external_body]
fn exception_value_of(v: &snmp2::Value) -> SnmpValue {
    match v {
        snmp2::Value::EndOfMibView => SnmpValue::EndOfMibView,
        snmp2::Value::NoSuchObject => SnmpValue::NoSuchObject,
        snmp2::Value::NoSuchInstance => SnmpValue::NoSuchInstance,
        other => SnmpValue::Other(format!("{other:?}")),
    }
}

/// Whether a community-mode listener keeps the decoded PDU (see
/// `accepts_pdu`).
pub open spec fn accepted_spec(config: TrapListenerConfig, wanted: WireVersion, p: Option<TrapPdu>) -> Option<TrapPdu> {
    match p {
        Some(pdu) => if pdu.version == Some(wanted) && (config.community@.len() == 0
            || pdu.community@ == vstd::utf8::encode_utf8(config.community@)) {
            Some(pdu)
        } else {
            None
        },
        None => None,
    }
}

/// Decodes a packet received by a community-mode listener and keeps the
/// PDU when the listener accepts it: of the wanted version, carrying the
/// configured community unless that is empty. `None` when the packet does
/// not decode or is refused.
pub fn accepted_pdu(config: &TrapListenerConfig, wanted: WireVersion, bytes: &[u8]) -> (r: Option<TrapPdu>)
    ensures
        r == accepted_spec(*config, wanted, decoded_pdu(bytes@)),
{
    match decode_pdu(bytes) {
        Some(p) => {
            if accepts_pdu(config, wanted, &p) {
                Some(p)
            } else {
                None
            }
        },
        None => None,
    }
}

/// The security level a listener's v3 user is set up with, or `None` when
/// it has no user (the name is blank).
pub fn security_plan(config: &TrapListenerConfig) -> (r: Option<V3Auth>)
    ensures
        trimmed(config.v3_user@).len() == 0 ==> r is None,
        trimmed(config.v3_user@).len() > 0 ==> r == Some(v3_auth_spec(config.v3_auth@, config.v3_priv@)),
{
    let user = chars_of(config.v3_user.as_str());
    let t = trim_chars(user.as_slice());
    if t.len() == 0 {
        None
    } else {
        Some(v3_auth_mode(config.v3_auth.as_str(), config.v3_priv.as_str()))
    }
}

/// The checks a listener passes before it binds, in order: it is not
/// already running, its version is `v1`, `v2c` or `v3`, and a v3 listener
/// has a user. On success, the address to bind (`<addr>:<port>`, each
/// trimmed).
pub fn check_listener(config: &TrapListenerConfig, running: bool) -> (r: Result<String, String>)
    ensures
        running ==> (r matches Err(e) && e@ == "this tab's trap listener is already running"@),
        !running && listener_mode_spec(config.version@) == ListenerMode::Ignore ==> (r matches Err(e)
            && e@ == crate::snmp::unknown_version_message(config.version@)),
        !running && listener_mode_spec(config.version@) == ListenerMode::V3 && trimmed(config.v3_user@).len() == 0 ==> (r matches Err(e)
            && e@ == "SNMPv3 selected but no security user is configured"@),
        !running && listener_mode_spec(config.version@) != ListenerMode::Ignore
            && !(listener_mode_spec(config.version@) == ListenerMode::V3 && trimmed(config.v3_user@).len() == 0)
            ==> (r matches Ok(a) && a@ == trimmed(config.bind_addr@) + seq![':'] + trimmed(config.port@)),
{
    if running {
        return Err("this tab's trap listener is already running".to_owned());
    }
    let mode = listener_mode(config);
    if mode == ListenerMode::Ignore {
        let mut out: Vec<char> = Vec::new();
        push_str(&mut out, "unknown SNMP version '");
        push_str(&mut out, config.version.as_str());
        push_str(&mut out, "'");
        assert(out@ =~= crate::snmp::unknown_version_message(config.version@));
        return Err(string_of(out.as_slice()));
    }
    let user = chars_of(config.v3_user.as_str());
    let tu = trim_chars(user.as_slice());
    if mode == ListenerMode::V3 && tu.len() == 0 {
        return Err("SNMPv3 selected but no security user is configured".to_owned());
    }
    let a = chars_of(config.bind_addr.as_str());
    let p = chars_of(config.port.as_str());
    let mut out = trim_chars(a.as_slice());
    out.push(':');
    let tp = trim_chars(p.as_slice());
    push_chars(&mut out, tp.as_slice());
    Ok(string_of(out.as_slice()))
}

fn copy_varbind(v: &TrapVarbind) -> (r: TrapVarbind)
    ensures
        r == *v,
{
    TrapVarbind { oid: v.oid.clone(), name: v.name.clone(), value: v.value.clone() }
}

fn copy_event(e: &TrapEvent) -> (r: TrapEvent)
    ensures
        r.seq == e.seq,
        r.time_ms == e.time_ms,
        r.source == e.source,
        r.version == e.version,
        r.principal == e.principal,
        r.trap_type == e.trap_type,
        r.trap_oid == e.trap_oid,
        r.varbinds@ == e.varbinds@,
        r.confirmed == e.confirmed,
        r.error == e.error,
{
    let mut vbs: Vec<TrapVarbind> = Vec::new();
    let mut i: usize = 0;
    while i < e.varbinds.len()
        invariant
            i <= e.varbinds@.len(),
            vbs@ == e.varbinds@.take(i as int),
        decreases e.varbinds@.len() - i,
    {
        vbs.push(copy_varbind(&e.varbinds[i]));
        i = i + 1;
        assert(vbs@ =~= e.varbinds@.take(i as int));
    }
    assert(e.varbinds@.take(e.varbinds@.len() as int) =~= e.varbinds@);
    let error = match &e.error {
        Some(m) => Some(m.clone()),
        None => None,
    };
    TrapEvent {
        seq: e.seq,
        time_ms: e.time_ms,
        source: e.source.clone(),
        version: e.version.clone(),
        principal: e.principal.clone(),
        trap_type: e.trap_type.clone(),
        trap_oid: e.trap_oid.clone(),
        varbinds: vbs,
        confirmed: e.confirmed,
        error,
    }
}

/// Two events hold the same fields.
pub open spec fn same_event(a: TrapEvent, b: TrapEvent) -> bool {
    &&& a.seq == b.seq
    &&& a.time_ms == b.time_ms
    &&& a.source == b.source
    &&& a.version == b.version
    &&& a.principal == b.principal
    &&& a.trap_type == b.trap_type
    &&& a.trap_oid == b.trap_oid
    &&& a.varbinds@ == b.varbinds@
    &&& a.confirmed == b.confirmed
    &&& a.error == b.error
}

/// The events of one listener, oldest first, and the number given to the
/// last event.
pub struct TrapBuffer {
    pub events: Vec<TrapEvent>,
    pub last_seq: u64,
}

/// The sequence numbers of a list of events.
pub open spec fn seqs(es: Seq<TrapEvent>) -> Seq<u64> {
    es.map_values(|e: TrapEvent| e.seq)
}

/// An event newer than `after`.
pub open spec fn newer_than(after: u64) -> spec_fn(TrapEvent) -> bool {
    |e: TrapEvent| e.seq > after
}

impl TrapBuffer {
    /// No more than `MAX_EVENTS` events are kept, numbered in increasing
    /// order, none above the last number given out.
    pub open spec fn valid(&self) -> bool {
        &&& self.events@.len() <= MAX_EVENTS
        &&& numbered(self.events@, self.last_seq)
    }

    /// An empty buffer whose first event will be numbered 1.
    pub fn new() -> (r: Self)
        ensures
            r.valid(),
            r.events@.len() == 0,
            r.last_seq == 0,
    {
        TrapBuffer { events: Vec::new(), last_seq: 0 }
    }

    /// The number for the next event (one more than the last).
    pub fn next_seq(&mut self) -> (r: u64)
        requires
            old(self).last_seq < u64::MAX,
        ensures
            old(self).valid() ==> final(self).valid(),
            r == old(self).last_seq + 1,
            final(self).last_seq == r,
            final(self).events@ == old(self).events@,
    {
        self.last_seq = self.last_seq + 1;
        self.last_seq
    }

    /// Appends an event, dropping the oldest when the cap is exceeded. The
    /// event carries the number given out last, which no kept event has.
    pub fn push(&mut self, e: TrapEvent)
        requires
            old(self).valid(),
            e.seq == old(self).last_seq,
            old(self).events@.len() > 0 ==> old(self).events@.last().seq < e.seq,
        ensures
            final(self).valid(),
            final(self).last_seq == old(self).last_seq,
            final(self).events@ == if old(self).events@.len() == MAX_EVENTS {
                old(self).events@.drop_first().push(e)
            } else {
                old(self).events@.push(e)
            },
    {
        let ghost e0 = e;
        self.events.push(e);
        if self.events.len() > MAX_EVENTS {
            self.events.remove(0);
            assert(self.events@ =~= old(self).events@.drop_first().push(e0));
        }
        proof {
            lemma_push_keeps_numbering(old(self).events@, self.last_seq, e0);
        }
    }

    /// Copies of the events numbered after `after_seq`, oldest first.
    pub fn poll(&self, after_seq: u64) -> (r: Vec<TrapEvent>)
        ensures
            seqs(r@) == seqs(self.events@.filter(newer_than(after_seq))),
            r@.len() == self.events@.filter(newer_than(after_seq)).len(),
            forall|i: int| 0 <= i < r@.len() ==> same_event(#[trigger] r@[i], self.events@.filter(newer_than(after_seq))[i]),
    {
        let mut out: Vec<TrapEvent> = Vec::new();
        let mut i: usize = 0;
        proof {
            reveal(Seq::filter);
        }
        assert(self.events@.take(0) =~= Seq::<TrapEvent>::empty());
        while i < self.events.len()
            invariant
                i <= self.events@.len(),
                out@.len() == self.events@.take(i as int).filter(newer_than(after_seq)).len(),
                forall|k: int| 0 <= k < out@.len() ==> same_event(#[trigger] out@[k], self.events@.take(i as int).filter(newer_than(after_seq))[k]),
            decreases self.events@.len() - i,
        {
            proof {
                reveal(Seq::filter);
                assert(self.events@.take(i + 1).drop_last() =~= self.events@.take(i as int));
                assert(self.events@.take(i + 1).last() == self.events@[i as int]);
            }
            if self.events[i].seq > after_seq {
                out.push(copy_event(&self.events[i]));
            }
            i = i + 1;
        }
        assert(self.events@.take(self.events@.len() as int) =~= self.events@);
        assert(seqs(out@) =~= seqs(self.events@.filter(newer_than(after_seq))));
        out
    }

    /// Drops every event but keeps the numbering going, so a poll with an
    /// older number does not see cleared events again.
    pub fn clear(&mut self)
        ensures
            final(self).valid(),
            final(self).events@.len() == 0,
            final(self).last_seq == old(self).last_seq,
    {
        self.events = Vec::new();
    }
}

/// The events are numbered in increasing order, none above `last_seq`.
pub open spec fn numbered(events: Seq<TrapEvent>, last_seq: u64) -> bool {
    &&& forall|i: int, j: int| 0 <= i < j < events.len() ==> events[i].seq < events[j].seq
    &&& forall|i: int| 0 <= i < events.len() ==> events[i].seq <= last_seq
}

proof fn lemma_push_keeps_numbering(events: Seq<TrapEvent>, last_seq: u64, e: TrapEvent)
    requires
        numbered(events, last_seq),
        e.seq == last_seq,
        events.len() > 0 ==> events.last().seq < e.seq,
    ensures
        numbered(if events.len() == MAX_EVENTS { events.drop_first().push(e) } else { events.push(e) }, last_seq),
{
    let base = if events.len() == MAX_EVENTS { events.drop_first() } else { events };
    assert forall|i: int| 0 <= i < base.len() implies #[trigger] base[i].seq < e.seq by {
        let k = if events.len() == MAX_EVENTS { i + 1 } else { i };
        assert(base[i] == events[k]);
        if k < events.len() - 1 {
            assert(events[k].seq < events[events.len() - 1].seq);
        }
    }
    assert forall|i: int, j: int| 0 <= i < j < base.len() implies base[i].seq < base[j].seq by {
        if events.len() == MAX_EVENTS {
            assert(base[i] == events[i + 1] && base[j] == events[j + 1]);
        }
    }
}

/// Clearing keeps the numbering: every number given out after a clear is
/// above the number of every event held before it.
pub proof fn lemma_numbers_after_clear_are_newer(before: TrapBuffer, cleared: TrapBuffer, next: u64)
    requires
        before.valid(),
        cleared.events@.len() == 0,
        cleared.last_seq == before.last_seq,
        next > cleared.last_seq,
    ensures
        cleared.valid(),
        forall|i: int| 0 <= i < before.events@.len() ==> #[trigger] before.events@[i].seq < next,
{
}

/// Numbering an event with `next_seq` and then pushing it keeps the buffer
/// in increasing order, with the new number as the last one.
pub proof fn lemma_push_next_keeps_numbering(events: Seq<TrapEvent>, last_seq: u64, e: TrapEvent)
    requires
        numbered(events, last_seq),
        last_seq < u64::MAX,
        e.seq == last_seq + 1,
    ensures
        numbered(if events.len() == MAX_EVENTS { events.drop_first().push(e) } else { events.push(e) }, (last_seq + 1) as u64),
{
    let out = if events.len() == MAX_EVENTS { events.drop_first().push(e) } else { events.push(e) };
    let base = if events.len() == MAX_EVENTS { events.drop_first() } else { events };
    assert(out == base.push(e));
    assert forall|i: int| 0 <= i < base.len() implies #[trigger] base[i].seq <= last_seq by {
        if events.len() == MAX_EVENTS {
            assert(base[i] == events[i + 1]);
        }
    }
    assert forall|i: int, j: int| 0 <= i < j < base.len() implies base[i].seq < base[j].seq by {
        if events.len() == MAX_EVENTS {
            assert(base[i] == events[i + 1] && base[j] == events[j + 1]);
        }
    }
}

/// A poll with the last number given out finds nothing new.
pub proof fn lemma_poll_after_last_is_empty(events: Seq<TrapEvent>, last_seq: u64)
    requires
        numbered(events, last_seq),
    ensures
        events.filter(newer_than(last_seq)).len() == 0,
{
    assert(events.filter(newer_than(last_seq)) =~= Seq::<TrapEvent>::empty()) by {
        if events.filter(newer_than(last_seq)).len() > 0 {
            let x = events.filter(newer_than(last_seq))[0];
            events.lemma_filter_contains_rev(newer_than(last_seq), x);
            assert(events.filter(newer_than(last_seq)).contains(x));
        }
    }
}

/// Addresses sorted, each kept once.
pub open spec fn strictly_sorted(s: Seq<Seq<char>>) -> bool {
    forall|i: int, j: int| 0 <= i < j < s.len() ==> crate::text::chars_lt(s[i], s[j])
}

/// Sorts addresses and drops duplicates.
pub fn sorted_unique(items: Vec<String>) -> (r: Vec<String>)
    ensures
        strictly_sorted(crate::text::string_views(r@)),
        forall|x: Seq<char>| crate::text::string_views(r@).contains(x) <==> crate::text::string_views(items@).contains(x),
{
    let mut out: Vec<String> = Vec::new();
    let mut i: usize = 0;
    while i < items.len()
        invariant
            i <= items@.len(),
            strictly_sorted(crate::text::string_views(out@)),
            forall|x: Seq<char>| crate::text::string_views(out@).contains(x) <==> crate::text::string_views(items@.take(i as int)).contains(x),
        decreases items@.len() - i,
    {
        let ghost ov = crate::text::string_views(out@);
        let xc = chars_of(items[i].as_str());
        let mut p: usize = 0;
        let mut found = false;
        let mut dup = false;
        while p < out.len() && !found
            invariant
                p <= out@.len(),
                ov == crate::text::string_views(out@),
                xc@ == items@[i as int]@,
                strictly_sorted(ov),
                forall|k: int| 0 <= k < p ==> crate::text::chars_lt(ov[k], xc@),
                found ==> p < out@.len() && !crate::text::chars_lt(ov[p as int], xc@),
                dup ==> found && ov[p as int] == xc@,
                found && !dup ==> crate::text::chars_lt(xc@, ov[p as int]),
            decreases out@.len() - p, if found { 0int } else { 1int },
        {
            let oc = chars_of(out[p].as_str());
            if crate::text::chars_less(oc.as_slice(), xc.as_slice()) {
                p = p + 1;
            } else {
                found = true;
                dup = crate::text::chars_eq(oc.as_slice(), xc.as_slice());
                if !dup {
                    proof {
                        crate::text::lemma_chars_lt_total(ov[p as int], xc@);
                    }
                }
            }
        }
        proof {
            assert(items@.take(i + 1) =~= items@.take(i as int).push(items@[i as int]));
            assert(crate::text::string_views(items@.take(i + 1)) =~= crate::text::string_views(items@.take(i as int)).push(xc@));
        }
        if !dup {
            let ghost before = out@;
            out.insert(p, items[i].clone());
            proof {
                assert(crate::text::string_views(out@) =~= ov.insert(p as int, xc@));
                assert forall|q: int| p <= q < ov.len() implies crate::text::chars_lt(xc@, #[trigger] ov[q]) by {
                    if q > p {
                        crate::text::lemma_chars_lt_trans(xc@, ov[p as int], ov[q]);
                    }
                }
                assert forall|a: int, b: int| 0 <= a < b < crate::text::string_views(out@).len() implies crate::text::chars_lt(crate::text::string_views(out@)[a], crate::text::string_views(out@)[b]) by {
                    let sv = crate::text::string_views(out@);
                    if b < p {
                        assert(sv[a] == ov[a] && sv[b] == ov[b]);
                    } else if b == p {
                        assert(sv[a] == ov[a] && sv[b] == xc@);
                    } else if a < p {
                        assert(sv[a] == ov[a] && sv[b] == ov[b - 1]);
                        crate::text::lemma_chars_lt_trans(ov[a], xc@, ov[b - 1]);
                    } else if a == p {
                        assert(sv[a] == xc@ && sv[b] == ov[b - 1]);
                    } else {
                        assert(sv[a] == ov[a - 1] && sv[b] == ov[b - 1]);
                    }
                }
                assert forall|x: Seq<char>| crate::text::string_views(out@).contains(x) <==> crate::text::string_views(items@.take(i + 1)).contains(x) by {
                    let sv = crate::text::string_views(out@);
                    let iv = crate::text::string_views(items@.take(i as int));
                    let iv1 = crate::text::string_views(items@.take(i + 1));
                    if iv1.contains(x) {
                        let w = choose|w: int| 0 <= w < iv1.len() && iv1[w] == x;
                        if w < iv.len() {
                            assert(iv[w] == x);
                            assert(iv.contains(x));
                            assert(ov.contains(x));
                        }
                    }
                    if iv.contains(x) {
                        let w = choose|w: int| 0 <= w < iv.len() && iv[w] == x;
                        assert(iv1[w] == x);
                    }
                    if x == xc@ {
                        assert(iv1[iv.len() as int] == x);
                    }
                    if sv.contains(x) {
                        let w = choose|w: int| 0 <= w < sv.len() && sv[w] == x;
                        if w < p {
                            assert(ov[w] == x);
                        } else if w > p {
                            assert(ov[w - 1] == x);
                        }
                    }
                    if ov.contains(x) {
                        let w = choose|w: int| 0 <= w < ov.len() && ov[w] == x;
                        if w < p {
                            assert(sv[w] == x);
                        } else {
                            assert(sv[w + 1] == x);
                        }
                    }
                    if x == xc@ {
                        assert(sv[p as int] == x);
                    }
                }
            }
        } else {
            proof {
                assert forall|x: Seq<char>| crate::text::string_views(out@).contains(x) <==> crate::text::string_views(items@.take(i + 1)).contains(x) by {
                    let iv = crate::text::string_views(items@.take(i as int));
                    let iv1 = crate::text::string_views(items@.take(i + 1));
                    if iv1.contains(x) {
                        let w = choose|w: int| 0 <= w < iv1.len() && iv1[w] == x;
                        if w < iv.len() {
                            assert(iv[w] == x);
                        } else {
                            assert(ov[p as int] == x);
                        }
                    }
                    if ov.contains(x) {
                        assert(iv.contains(x));
                        let w = choose|w: int| 0 <= w < iv.len() && iv[w] == x;
                        assert(iv1[w] == x);
                    }
                }
            }
        }
        i = i + 1;
    }
    assert(items@.take(items@.len() as int) =~= items@);
    out
}


/// The names SNMPv2-MIB gives the six standard notifications, by OID.
pub open spec fn standard_notification_name(oid: Seq<char>) -> Seq<char> {
    if oid == "1.3.6.1.6.3.1.1.5.1"@ {
        "coldStart"@
    } else if oid == "1.3.6.1.6.3.1.1.5.2"@ {
        "warmStart"@
    } else if oid == "1.3.6.1.6.3.1.1.5.3"@ {
        "linkDown"@
    } else if oid == "1.3.6.1.6.3.1.1.5.4"@ {
        "linkUp"@
    } else if oid == "1.3.6.1.6.3.1.1.5.5"@ {
        "authenticationFailure"@
    } else if oid == "1.3.6.1.6.3.1.1.5.6"@ {
        "egpNeighborLoss"@
    } else {
        Seq::empty()
    }
}

proof fn lemma_small_decimal(n: int)
    requires
        1 <= n <= 6,
    ensures
        crate::gnmi::signed_decimal(n) == seq![(n + 48) as char],
{
    assert(crate::text::decimal(n as nat) == seq![crate::text::digit_char(n as nat)]);
    assert(crate::text::digit_char(n as nat) == (n + 48) as char);
}

/// A generic v1 trap (0 to 5) is named as the SNMPv2 notification it maps
/// to: its type is the SNMPv2-MIB name of its OID
/// `1.3.6.1.6.3.1.1.5.<generic + 1>` (generic 3 is `linkUp`), whatever the
/// index, and different generic numbers give different names.
pub proof fn lemma_generic_trap_names(pdu: TrapPdu, other: TrapPdu, index: Seq<(String, String)>)
    requires
        pdu.v1_trap matches Some(t) && 0 <= t.generic_trap <= 5,
        other.v1_trap matches Some(u) && 0 <= u.generic_trap <= 5,
    ensures
        trap_identity(pdu, index).1 == "1.3.6.1.6.3.1.1.5."@ + seq![(pdu.v1_trap->0.generic_trap + 49) as char],
        trap_identity(pdu, index).0 == standard_notification_name(trap_identity(pdu, index).1),
        trap_identity(pdu, index).0.len() > 0,
        pdu.v1_trap->0.generic_trap != other.v1_trap->0.generic_trap
            ==> trap_identity(pdu, index).0 != trap_identity(other, index).0,
{
    let t = pdu.v1_trap->0;
    let u = other.v1_trap->0;
    lemma_small_decimal(t.generic_trap + 1);
    lemma_small_decimal(u.generic_trap + 1);
    reveal_strlit("1.3.6.1.6.3.1.1.5.");
    reveal_strlit("1.3.6.1.6.3.1.1.5.1");
    reveal_strlit("1.3.6.1.6.3.1.1.5.2");
    reveal_strlit("1.3.6.1.6.3.1.1.5.3");
    reveal_strlit("1.3.6.1.6.3.1.1.5.4");
    reveal_strlit("1.3.6.1.6.3.1.1.5.5");
    reveal_strlit("1.3.6.1.6.3.1.1.5.6");
    reveal_strlit("coldStart");
    reveal_strlit("warmStart");
    reveal_strlit("linkDown");
    reveal_strlit("linkUp");
    reveal_strlit("authenticationFailure");
    reveal_strlit("egpNeighborLoss");
    let oid = "1.3.6.1.6.3.1.1.5."@ + seq![(t.generic_trap + 49) as char];
    assert(trap_identity(pdu, index).1 == oid);
    let g = t.generic_trap;
    if g == 0 {
        assert(oid =~= "1.3.6.1.6.3.1.1.5.1"@);
    } else if g == 1 {
        assert(oid =~= "1.3.6.1.6.3.1.1.5.2"@);
        assert(oid[18] != "1.3.6.1.6.3.1.1.5.1"@[18]);
    } else if g == 2 {
        assert(oid =~= "1.3.6.1.6.3.1.1.5.3"@);
        assert(oid[18] != "1.3.6.1.6.3.1.1.5.1"@[18]);
        assert(oid[18] != "1.3.6.1.6.3.1.1.5.2"@[18]);
    } else if g == 3 {
        assert(oid =~= "1.3.6.1.6.3.1.1.5.4"@);
        assert(oid[18] != "1.3.6.1.6.3.1.1.5.1"@[18]);
        assert(oid[18] != "1.3.6.1.6.3.1.1.5.2"@[18]);
        assert(oid[18] != "1.3.6.1.6.3.1.1.5.3"@[18]);
    } else if g == 4 {
        assert(oid =~= "1.3.6.1.6.3.1.1.5.5"@);
        assert(oid[18] != "1.3.6.1.6.3.1.1.5.1"@[18]);
        assert(oid[18] != "1.3.6.1.6.3.1.1.5.2"@[18]);
        assert(oid[18] != "1.3.6.1.6.3.1.1.5.3"@[18]);
        assert(oid[18] != "1.3.6.1.6.3.1.1.5.4"@[18]);
    } else {
        assert(oid =~= "1.3.6.1.6.3.1.1.5.6"@);
        assert(oid[18] != "1.3.6.1.6.3.1.1.5.1"@[18]);
        assert(oid[18] != "1.3.6.1.6.3.1.1.5.2"@[18]);
        assert(oid[18] != "1.3.6.1.6.3.1.1.5.3"@[18]);
        assert(oid[18] != "1.3.6.1.6.3.1.1.5.4"@[18]);
        assert(oid[18] != "1.3.6.1.6.3.1.1.5.5"@[18]);
    }
    if g != u.generic_trap {
        assert("coldStart"@[0] != "warmStart"@[0]);
        assert("coldStart"@.len() != "linkDown"@.len());
    }
}

} // verus!
