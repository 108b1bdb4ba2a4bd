//! NETCONF (RFC 6241/6242) message handling: the two framings used on the
//! SSH channel, the `<hello>` sent to a target, and the `<get>` request built
//! from a module-qualified YANG path. The SSH session itself is driven from
//! outside this module.

use vstd::prelude::*;
use vstd::string::StringSliceAdditionalSpecFns;
use crate::text::{
    chars_of, contains_str, decimal_bytes, decimal_bytes_of, digits_value, is_digit_byte, lemma_decimal_bytes_roundtrip,
    push_chars, push_str, str_eq, string_of, string_views, trim_chars, trimmed, vec_contains_str,
};

verus! {

/// How messages are delimited on the channel.
#[derive(Clone, Copy, Debug, PartialEq, Eq, Structural)]
pub enum Framing {
    /// RFC 6242 end-of-message framing: a message ends with `]]>]]>`.
    Eom,
    /// RFC 6242 chunked framing (`base:1.1`): `\n#<size>\n<bytes>` chunks
    /// ended by `\n##\n`. One chunk is sent per message.
    Chunked,
}

/// The end-of-message delimiter `]]>]]>`.
pub open spec fn eom_marker() -> Seq<u8> {
    seq![93u8, 93u8, 62u8, 93u8, 93u8, 62u8]
}

/// `body` sent as a single chunk followed by the end-of-chunks marker.
pub open spec fn chunked_frame(body: Seq<u8>) -> Seq<u8> {
    seq![10u8, 35u8] + decimal_bytes(body.len()) + seq![10u8] + body + seq![10u8, 35u8, 35u8, 10u8]
}

/// The bytes sent for message `body` under `framing`.
pub open spec fn framed(framing: Framing, body: Seq<u8>) -> Seq<u8> {
    match framing {
        Framing::Eom => body + eom_marker(),
        Framing::Chunked => chunked_frame(body),
    }
}

/// Appends the bytes of `b` to `out`.
pub fn extend_bytes(out: &mut Vec<u8>, b: &[u8])
    ensures
        final(out)@ == old(out)@ + b@,
{
    let mut i: usize = 0;
    while i < b.len()
        invariant
            i <= b@.len(),
            out@ == old(out)@ + b@.take(i as int),
        decreases b@.len() - i,
    {
        out.push(b[i]);
        i = i + 1;
        assert(out@ =~= old(out)@ + b@.take(i as int));
    }
    assert(b@.take(b@.len() as int) =~= b@);
}

/// Frames the XML text `xml` for sending.
pub fn frame_message(framing: Framing, xml: &str) -> (r: Vec<u8>)
    ensures
        r@ == framed(framing, xml.spec_bytes()),
{
    let body = xml.as_bytes();
    let mut out: Vec<u8> = Vec::new();
    match framing {
        Framing::Eom => {
            extend_bytes(&mut out, body);
            let marker: [u8; 6] = [93, 93, 62, 93, 93, 62];
            extend_bytes(&mut out, &marker);
            assert(out@ =~= framed(framing, xml.spec_bytes()));
        },
        Framing::Chunked => {
            out.push(10);
            out.push(35);
            let digits = decimal_bytes_of(body.len());
            extend_bytes(&mut out, digits.as_slice());
            out.push(10);
            extend_bytes(&mut out, body);
            out.push(10);
            out.push(35);
            out.push(35);
            out.push(10);
            assert(out@ =~= framed(framing, xml.spec_bytes()));
        },
    }
    out
}

/// `needle` occurs in `haystack` at position `p`.
pub open spec fn occurs_at(haystack: Seq<u8>, needle: Seq<u8>, p: int) -> bool {
    0 <= p && p + needle.len() <= haystack.len() && haystack.subrange(p, p + needle.len()) == needle
}

/// The first position where `needle` occurs in `haystack`.
pub fn find_subslice(haystack: &[u8], needle: &[u8]) -> (r: Option<usize>)
    requires
        needle@.len() > 0,
    ensures
        r matches Some(p) ==> occurs_at(haystack@, needle@, p as int)
            && forall|q: int| 0 <= q < p ==> !occurs_at(haystack@, needle@, q),
        r is None ==> forall|q: int| !occurs_at(haystack@, needle@, q),
{
    let n = needle.len();
    if haystack.len() < n {
        return None;
    }
    let mut p: usize = 0;
    while p <= haystack.len() - n
        invariant
            n == needle@.len(),
            n <= haystack@.len(),
            p <= haystack@.len() - n + 1,
            forall|q: int| 0 <= q < p ==> !occurs_at(haystack@, needle@, q),
        decreases haystack@.len() - n + 1 - p,
    {
        let mut k: usize = 0;
        let mut same = true;
        while k < n
            invariant
                n == needle@.len(),
                p + n <= haystack@.len(),
                haystack@.len() == haystack.len(),
                k <= n,
                same == forall|j: int| 0 <= j < k ==> haystack@[p + j] == needle@[j],
            decreases n - k,
        {
            if haystack[p + k] != needle[k] {
                same = false;
            }
            k = k + 1;
        }
        if same {
            assert(haystack@.subrange(p as int, p + n) =~= needle@);
            return Some(p);
        }
        assert(!occurs_at(haystack@, needle@, p as int)) by {
            let j = choose|j: int| 0 <= j < n && haystack@[p + j] != needle@[j];
            assert(haystack@.subrange(p as int, p + n)[j] != needle@[j]);
        }
        p = p + 1;
    }
    None
}

/// Why a chunked-framing message is malformed.
pub enum ChunkError {
    /// A chunk does not start with `\n#`.
    BadChunkStart,
    /// The end-of-chunks marker `\n##` is not followed by `\n`.
    BadEndMarker,
    /// `\n#` is followed by neither `#` nor a digit.
    MissingSize,
    /// The chunk size is not followed by `\n`.
    MissingNewline,
    /// The chunk size does not fit in `usize`.
    SizeTooLarge,
}

/// The first position at or after `p` that does not hold a digit.
pub open spec fn digits_end(buf: Seq<u8>, p: int) -> int
    decreases buf.len() - p,
{
    if 0 <= p < buf.len() && is_digit_byte(buf[p]) {
        digits_end(buf, p + 1)
    } else {
        p
    }
}

proof fn lemma_digits_end(buf: Seq<u8>, p: int)
    requires
        0 <= p <= buf.len(),
    ensures
        p <= digits_end(buf, p) <= buf.len(),
        forall|j: int| p <= j < digits_end(buf, p) ==> is_digit_byte(#[trigger] buf[j]),
        digits_end(buf, p) < buf.len() ==> !is_digit_byte(buf[digits_end(buf, p)]),
    decreases buf.len() - p,
{
    if p < buf.len() && is_digit_byte(buf[p]) {
        lemma_digits_end(buf, p + 1);
    }
}

/// The outcome of reading one chunked-framing message starting at `pos`:
/// `Ok(None)` when more bytes are needed, `Ok(Some((message, end)))` with the
/// assembled message and the position just past the end-of-chunks marker, or
/// the reason the framing is malformed.
pub open spec fn parse_chunks(buf: Seq<u8>, pos: int) -> Result<Option<(Seq<u8>, int)>, ChunkError>
    decreases buf.len() - pos,
{
    if pos < 0 || buf.len() < pos + 2 {
        Ok(None)
    } else if !(buf[pos] == 10 && buf[pos + 1] == 35) {
        Err(ChunkError::BadChunkStart)
    } else if pos + 2 < buf.len() && buf[pos + 2] == 35 {
        if buf.len() < pos + 4 {
            Ok(None)
        } else if buf[pos + 3] != 10 {
            Err(ChunkError::BadEndMarker)
        } else {
            Ok(Some((Seq::empty(), pos + 4)))
        }
    } else {
        let e = digits_end(buf, pos + 2);
        if buf.len() < e + 1 {
            Ok(None)
        } else if e <= pos + 2 {
            Err(ChunkError::MissingSize)
        } else if buf[e] != 10 {
            Err(ChunkError::MissingNewline)
        } else {
            let size = digits_value(buf.subrange(pos + 2, e));
            if size > usize::MAX {
                Err(ChunkError::SizeTooLarge)
            } else if buf.len() < e + 1 + size {
                Ok(None)
            } else {
                match parse_chunks(buf, e + 1 + size) {
                    Ok(Some((rest, end))) => Ok(Some((buf.subrange(e + 1, e + 1 + size) + rest, end))),
                    other => other,
                }
            }
        }
    }
}

/// `prefix` put in front of a successfully assembled message.
pub open spec fn prepend_message(
    prefix: Seq<u8>,
    r: Result<Option<(Seq<u8>, int)>, ChunkError>,
) -> Result<Option<(Seq<u8>, int)>, ChunkError> {
    match r {
        Ok(Some((m, end))) => Ok(Some((prefix + m, end))),
        other => other,
    }
}

/// The message text reported for each framing error.
pub open spec fn chunk_error_text(e: ChunkError) -> Seq<char> {
    match e {
        ChunkError::BadChunkStart => "malformed NETCONF chunked-framing message"@,
        ChunkError::BadEndMarker => "malformed NETCONF end-of-chunks marker"@,
        ChunkError::MissingSize => "malformed NETCONF chunk size"@,
        ChunkError::MissingNewline => "malformed NETCONF chunk framing (missing newline after chunk size)"@,
        ChunkError::SizeTooLarge => "invalid NETCONF chunk size"@,
    }
}

/// `r` is the executable form of the framing outcome `s`.
pub open spec fn chunk_outcome_is(
    r: Result<Option<(Vec<u8>, usize)>, String>,
    s: Result<Option<(Seq<u8>, int)>, ChunkError>,
) -> bool {
    match (r, s) {
        (Ok(None), Ok(None)) => true,
        (Ok(Some((m, c))), Ok(Some((sm, sc)))) => m@ == sm && c == sc,
        (Err(msg), Err(e)) => msg@ == chunk_error_text(e),
        _ => false,
    }
}

fn chunk_error(e: ChunkError) -> (r: String)
    ensures
        r@ == chunk_error_text(e),
{
    match e {
        ChunkError::BadChunkStart => "malformed NETCONF chunked-framing message".to_owned(),
        ChunkError::BadEndMarker => "malformed NETCONF end-of-chunks marker".to_owned(),
        ChunkError::MissingSize => "malformed NETCONF chunk size".to_owned(),
        ChunkError::MissingNewline => "malformed NETCONF chunk framing (missing newline after chunk size)".to_owned(),
        ChunkError::SizeTooLarge => "invalid NETCONF chunk size".to_owned(),
    }
}

proof fn lemma_digits_value_prefix(s: Seq<u8>, k: int)
    requires
        0 <= k <= s.len(),
    ensures
        digits_value(s.take(k)) <= digits_value(s),
    decreases s.len(),
{
    if k < s.len() {
        assert(s.drop_last().take(k) =~= s.take(k));
        lemma_digits_value_prefix(s.drop_last(), k);
    } else {
        assert(s.take(k) =~= s);
    }
}

/// Reads the decimal number spelled by the digits `buf[start..end]`, or
/// `None` when it does not fit in `usize`.
fn read_size(buf: &[u8], start: usize, end: usize) -> (r: Option<usize>)
    requires
        start <= end <= buf@.len(),
        forall|j: int| start <= j < end ==> is_digit_byte(#[trigger] buf@[j]),
    ensures
        digits_value(buf@.subrange(start as int, end as int)) <= usize::MAX
            ==> r == Some(digits_value(buf@.subrange(start as int, end as int)) as usize),
        digits_value(buf@.subrange(start as int, end as int)) > usize::MAX ==> r is None,
{
    let ghost whole = buf@.subrange(start as int, end as int);
    let mut acc: usize = 0;
    let mut k: usize = start;
    while k < end
        invariant
            start <= k <= end <= buf@.len(),
            forall|j: int| start <= j < end ==> is_digit_byte(#[trigger] buf@[j]),
            whole == buf@.subrange(start as int, end as int),
            acc == digits_value(whole.take(k - start)),
        decreases end - k,
    {
        proof {
            assert(whole.take(k - start + 1).drop_last() =~= whole.take(k - start));
            lemma_digits_value_prefix(whole, k - start + 1);
        }
        let d = buf[k];
        assert(is_digit_byte(buf@[k as int]));
        assert(whole.take(k - start + 1).last() == d);
        assert(digits_value(whole.take(k - start + 1)) == acc * 10 + (d - 48) as nat);
        match acc.checked_mul(10) {
            Some(t) => {
                if t > usize::MAX - ((d - 48) as usize) {
                    return None;
                }
                acc = t + (d - 48) as usize;
            },
            None => {
                assert(digits_value(whole.take(k - start + 1)) > usize::MAX) by {
                    assert(whole.take(k - start + 1).last() == d);
                    assert(acc * 10 > usize::MAX);
                }
                return None;
            },
        }
        k = k + 1;
    }
    assert(whole.take(end - start) =~= whole);
    Some(acc)
}

/// Reads one complete chunked-framing message (RFC 6242 section 4.2) from the
/// front of `buf`: `Ok(None)` when `buf` does not yet hold a complete
/// message, the message and the number of bytes it took, or an error for
/// framing that is malformed rather than incomplete.
pub fn try_parse_chunked(buf: &[u8]) -> (r: Result<Option<(Vec<u8>, usize)>, String>)
    ensures
        chunk_outcome_is(r, parse_chunks(buf@, 0)),
{
    let mut pos: usize = 0;
    let mut out: Vec<u8> = Vec::new();
    assert(prepend_message(out@, parse_chunks(buf@, 0)) == parse_chunks(buf@, 0)) by {
        match parse_chunks(buf@, 0) {
            Ok(Some((m, e))) => { assert(out@ + m =~= m); },
            _ => {},
        }
    }
    loop
        invariant
            pos <= buf@.len(),
            buf@.len() == buf.len(),
            prepend_message(out@, parse_chunks(buf@, pos as int)) == parse_chunks(buf@, 0),
        decreases buf@.len() - pos,
    {
        if buf.len() - pos < 2 {
            return Ok(None);
        }
        if !(buf[pos] == 10 && buf[pos + 1] == 35) {
            return Err(chunk_error(ChunkError::BadChunkStart));
        }
        if pos + 2 < buf.len() && buf[pos + 2] == 35 {
            if buf.len() - pos < 4 {
                return Ok(None);
            }
            if buf[pos + 3] != 10 {
                return Err(chunk_error(ChunkError::BadEndMarker));
            }
            assert(out@ + Seq::<u8>::empty() =~= out@);
            return Ok(Some((out, pos + 4)));
        }
        let digits_start = pos + 2;
        let mut e: usize = digits_start;
        proof { lemma_digits_end(buf@, digits_start as int); }
        while e < buf.len() && buf[e] >= 48 && buf[e] <= 57
            invariant
                digits_start <= e <= buf@.len(),
                buf@.len() == buf.len(),
                digits_end(buf@, digits_start as int) == digits_end(buf@, e as int),
            decreases buf@.len() - e,
        {
            e = e + 1;
        }
        if buf.len() - e < 1 {
            return Ok(None);
        }
        if e == digits_start {
            return Err(chunk_error(ChunkError::MissingSize));
        }
        if buf[e] != 10 {
            return Err(chunk_error(ChunkError::MissingNewline));
        }
        assert(e == digits_end(buf@, digits_start as int));
        let size = match read_size(buf, digits_start, e) {
            Some(n) => n,
            None => {
                return Err(chunk_error(ChunkError::SizeTooLarge));
            },
        };
        let body_start = e + 1;
        if buf.len() - body_start < size {
            return Ok(None);
        }
        let ghost before = out@;
        let body_end = body_start + size;
        let mut k: usize = body_start;
        while k < body_end
            invariant
                body_end == body_start + size,
                body_start <= k <= body_end <= buf@.len(),
                out@ == before + buf@.subrange(body_start as int, k as int),
            decreases body_end - k,
        {
            out.push(buf[k]);
            k = k + 1;
            assert(out@ =~= before + buf@.subrange(body_start as int, k as int));
        }
        proof {
            match parse_chunks(buf@, (body_start + size) as int) {
                Ok(Some((rest, end))) => {
                    assert(before + (buf@.subrange(body_start as int, (body_start + size) as int) + rest)
                        =~= out@ + rest);
                },
                _ => {},
            }
        }
        pos = body_start + size;
    }
}

/// A message framed as one chunk reads back as exactly that message,
/// consuming every framed byte and nothing that follows.
pub proof fn lemma_chunked_roundtrip(body: Seq<u8>, rest: Seq<u8>)
    requires
        body.len() <= usize::MAX,
    ensures
        parse_chunks(chunked_frame(body) + rest, 0) == Ok::<Option<(Seq<u8>, int)>, ChunkError>(
            Some((body, chunked_frame(body).len() as int)),
        ),
{
    let f = chunked_frame(body) + rest;
    let d = decimal_bytes(body.len());
    lemma_decimal_bytes_roundtrip(body.len());
    let e: int = 2 + d.len() as int;
    assert(forall|j: int| 0 <= j < d.len() ==> f[2 + j] == d[j]);
    assert(f[e] == 10);
    lemma_digits_run(f, 2, e);
    assert(f.subrange(2, e) =~= d);
    let start: int = e + 1 + body.len();
    assert(f.subrange(e + 1, start) =~= body);
    assert(f[start] == 10 && f[start + 1] == 35 && f[start + 2] == 35 && f[start + 3] == 10);
    assert(parse_chunks(f, start) == Ok::<Option<(Seq<u8>, int)>, ChunkError>(Some((Seq::<u8>::empty(), start + 4))));
    assert(body + Seq::<u8>::empty() =~= body);
    assert(f[2] == d[0]);
}

/// The first position at or after `p` where the end-of-message marker
/// occurs in `buf`.
pub open spec fn first_marker_from(buf: Seq<u8>, p: int) -> Option<int>
    decreases buf.len() - p,
{
    if p < 0 || p + 6 > buf.len() {
        None
    } else if occurs_at(buf, eom_marker(), p) {
        Some(p)
    } else {
        first_marker_from(buf, p + 1)
    }
}

proof fn lemma_first_marker(buf: Seq<u8>, p: int, q: int)
    requires
        0 <= q <= p,
        occurs_at(buf, eom_marker(), p),
        forall|j: int| 0 <= j < p ==> !occurs_at(buf, eom_marker(), j),
    ensures
        first_marker_from(buf, q) == Some(p),
    decreases p - q,
{
    if q < p {
        lemma_first_marker(buf, p, q + 1);
    }
}

proof fn lemma_no_marker(buf: Seq<u8>, q: int)
    requires
        0 <= q,
        forall|j: int| !occurs_at(buf, eom_marker(), j),
    ensures
        first_marker_from(buf, q) is None,
    decreases buf.len() - q,
{
    if q + 6 <= buf.len() {
        lemma_no_marker(buf, q + 1);
    }
}

/// The first framed message in `buf` under `framing`: `Ok(None)` while it
/// is incomplete, else the message and the bytes after it, or why the
/// framing is malformed.
pub open spec fn take_spec(framing: Framing, buf: Seq<u8>) -> Result<Option<(Seq<u8>, Seq<u8>)>, Seq<char>> {
    match framing {
        Framing::Eom => match first_marker_from(buf, 0) {
            Some(p) => Ok(Some((buf.take(p), buf.skip(p + 6)))),
            None => Ok(None),
        },
        Framing::Chunked => match parse_chunks(buf, 0) {
            Ok(Some((m, c))) => Ok(Some((m, buf.skip(c)))),
            Ok(None) => Ok(None),
            Err(e) => Err(chunk_error_text(e)),
        },
    }
}

fn bytes_from(buf: &[u8], start: usize) -> (r: Vec<u8>)
    requires
        start <= buf@.len(),
    ensures
        r@ == buf@.skip(start as int),
{
    let mut out: Vec<u8> = Vec::new();
    extend_bytes(&mut out, vstd::slice::slice_subrange(buf, start, buf.len()));
    assert(out@ =~= buf@.skip(start as int));
    out
}

/// Takes the first complete message out of the bytes received so far,
/// leaving what follows it in `pending`; leaves `pending` as it is while the
/// message is incomplete or malformed.
pub fn take_message(framing: Framing, pending: &mut Vec<u8>) -> (r: Result<Option<Vec<u8>>, String>)
    ensures
        match r {
            Ok(Some(m)) => take_spec(framing, old(pending)@) == Ok::<Option<(Seq<u8>, Seq<u8>)>, Seq<char>>(Some((m@, final(pending)@))),
            Ok(None) => take_spec(framing, old(pending)@) == Ok::<Option<(Seq<u8>, Seq<u8>)>, Seq<char>>(None)
                && final(pending)@ == old(pending)@,
            Err(e) => take_spec(framing, old(pending)@) == Err::<Option<(Seq<u8>, Seq<u8>)>, Seq<char>>(e@)
                && final(pending)@ == old(pending)@,
        },
{
    match framing {
        Framing::Eom => {
            let marker: [u8; 6] = [93, 93, 62, 93, 93, 62];
            assert(marker@ =~= eom_marker());
            match find_subslice(pending.as_slice(), &marker) {
                Some(p) => {
                    proof { lemma_first_marker(pending@, p as int, 0); }
                    let len: usize = pending.len();
                    assert(p + 6 <= len);
                    let mut msg: Vec<u8> = Vec::new();
                    extend_bytes(&mut msg, vstd::slice::slice_subrange(pending.as_slice(), 0, p));
                    assert(msg@ =~= old(pending)@.take(p as int));
                    let rest = bytes_from(pending.as_slice(), p + 6);
                    *pending = rest;
                    Ok(Some(msg))
                },
                None => {
                    proof { lemma_no_marker(pending@, 0); }
                    Ok(None)
                },
            }
        },
        Framing::Chunked => {
            match try_parse_chunked(pending.as_slice()) {
                Ok(Some((msg, consumed))) => {
                    proof { lemma_chunks_end(pending@, 0); }
                    let rest = bytes_from(pending.as_slice(), consumed);
                    *pending = rest;
                    Ok(Some(msg))
                },
                Ok(None) => Ok(None),
                Err(e) => Err(e),
            }
        },
    }
}

proof fn lemma_chunks_end(buf: Seq<u8>, pos: int)
    ensures
        parse_chunks(buf, pos) matches Ok(Some((m, end))) ==> end <= buf.len(),
    decreases buf.len() - pos,
{
    if pos >= 0 && buf.len() >= pos + 2 && buf[pos] == 10 && buf[pos + 1] == 35 && !(pos + 2 < buf.len() && buf[pos + 2] == 35) {
        let e = digits_end(buf, pos + 2);
        lemma_digits_end(buf, pos + 2);
        if e > pos + 2 && buf.len() >= e + 1 && buf[e] == 10 {
            let size = digits_value(buf.subrange(pos + 2, e));
            if size <= usize::MAX && buf.len() >= e + 1 + size {
                lemma_chunks_end(buf, e + 1 + size);
            }
        }
    }
}

proof fn lemma_prefix_occurrence(bm: Seq<u8>, rest: Seq<u8>, q: int)
    requires
        0 <= q,
        q + 6 <= bm.len(),
    ensures
        occurs_at(bm + rest, eom_marker(), q) == occurs_at(bm, eom_marker(), q),
{
    assert((bm + rest).subrange(q, q + 6) =~= bm.subrange(q, q + 6));
}

#[verifier::rlimit(30)]
proof fn lemma_eom_roundtrip(body: Seq<u8>, rest: Seq<u8>)
    requires
        forall|q: int| 0 <= q < body.len() ==> !occurs_at(body + eom_marker(), eom_marker(), q),
    ensures
        take_spec(Framing::Eom, body + eom_marker() + rest) == Ok::<Option<(Seq<u8>, Seq<u8>)>, Seq<char>>(Some((body, rest))),
{
    let bm = body + eom_marker();
    let buf = bm + rest;
    let n = body.len() as int;
    assert(bm.subrange(n, n + 6) =~= eom_marker());
    lemma_prefix_occurrence(bm, rest, n);
    assert forall|q: int| 0 <= q < n implies !occurs_at(buf, eom_marker(), q) by {
        lemma_prefix_occurrence(bm, rest, q);
    }
    lemma_first_marker(buf, n, 0);
    assert(buf.take(n) =~= body);
    assert(buf.skip(n + 6) =~= rest);
}

/// What is sent for a message reads back as that message, leaving the
/// bytes that follow it. Under end-of-message framing this holds when the
/// message does not itself run into a `]]>]]>` before its end.
pub proof fn lemma_framing_roundtrip(framing: Framing, body: Seq<u8>, rest: Seq<u8>)
    requires
        body.len() <= usize::MAX,
        framing == Framing::Eom ==> forall|q: int| 0 <= q < body.len() ==> !occurs_at(body + eom_marker(), eom_marker(), q),
    ensures
        take_spec(framing, framed(framing, body) + rest) == Ok::<Option<(Seq<u8>, Seq<u8>)>, Seq<char>>(Some((body, rest))),
{
    match framing {
        Framing::Eom => {
            lemma_eom_roundtrip(body, rest);
        },
        Framing::Chunked => {
            lemma_chunked_roundtrip(body, rest);
            assert((chunked_frame(body) + rest).skip(chunked_frame(body).len() as int) =~= rest);
        },
    }
}

proof fn lemma_digits_to_end(buf: Seq<u8>, p: int)
    requires
        0 <= p <= buf.len(),
        forall|j: int| p <= j < buf.len() ==> is_digit_byte(#[trigger] buf[j]),
    ensures
        digits_end(buf, p) == buf.len(),
    decreases buf.len() - p,
{
    if p < buf.len() {
        lemma_digits_to_end(buf, p + 1);
    }
}

/// What has arrived of a message sent as one chunk reads as incomplete,
/// never as malformed.
pub proof fn lemma_chunked_prefix_incomplete(body: Seq<u8>, k: int)
    requires
        body.len() <= usize::MAX,
        0 <= k < chunked_frame(body).len(),
    ensures
        parse_chunks(chunked_frame(body).take(k), 0) == Ok::<Option<(Seq<u8>, int)>, ChunkError>(None),
{
    let f = chunked_frame(body);
    let p = f.take(k);
    let d = decimal_bytes(body.len());
    lemma_decimal_bytes_roundtrip(body.len());
    let e: int = 2 + d.len() as int;
    let s: int = e + 1 + body.len();
    assert(f.len() == s + 4);
    assert(forall|j: int| 0 <= j < d.len() ==> f[2 + j] == d[j]);
    assert(f[0] == 10 && f[1] == 35);
    if k > 2 {
        assert(p[0] == 10 && p[1] == 35);
        assert(p[2] == d[0]);
        assert(is_digit_byte(d[0]));
        if k <= e {
            assert forall|j: int| 2 <= j < p.len() implies is_digit_byte(#[trigger] p[j]) by {
                assert(p[j] == d[j - 2]);
            }
            lemma_digits_to_end(p, 2);
        } else {
            assert(f[e] == 10);
            assert(p[e] == 10);
            assert forall|j: int| 2 <= j < e implies is_digit_byte(#[trigger] p[j]) by {
                assert(p[j] == d[j - 2]);
            }
            lemma_digits_run(p, 2, e);
            assert(p.subrange(2, e) =~= d);
            if k == s + 3 {
                assert(p[s] == 10 && p[s + 1] == 35 && p[s + 2] == 35);
            }
            assert(parse_chunks(p, s) == Ok::<Option<(Seq<u8>, int)>, ChunkError>(None));
        }
    }
}

proof fn lemma_digits_run(buf: Seq<u8>, p: int, e: int)
    requires
        0 <= p <= e < buf.len(),
        forall|j: int| p <= j < e ==> is_digit_byte(#[trigger] buf[j]),
        !is_digit_byte(buf[e]),
    ensures
        digits_end(buf, p) == e,
    decreases e - p,
{
    if p < e {
        lemma_digits_run(buf, p + 1, e);
    }
}

/// A character that can start a module-name qualifier.
pub open spec fn is_ident_start(c: char) -> bool {
    ('a' <= c <= 'z') || ('A' <= c <= 'Z') || c == '_'
}

/// A character that can continue a module-name qualifier.
pub open spec fn is_ident_char(c: char) -> bool {
    is_ident_start(c) || ('0' <= c <= '9') || c == '-'
}

/// The end of the identifier run starting at `i`.
pub open spec fn ident_end(s: Seq<char>, i: int) -> int
    decreases s.len() - i,
{
    if 0 <= i < s.len() && is_ident_char(s[i]) {
        ident_end(s, i + 1)
    } else {
        i
    }
}

/// Basic facts about the end of an identifier run.
pub proof fn lemma_ident_end(s: Seq<char>, i: int)
    requires
        0 <= i <= s.len(),
    ensures
        i <= ident_end(s, i) <= s.len(),
        i < s.len() && is_ident_char(s[i]) ==> i < ident_end(s, i),
        ident_end(s, i) < s.len() ==> !is_ident_char(s[ident_end(s, i)]),
    decreases s.len() - i,
{
    if i < s.len() && is_ident_char(s[i]) {
        lemma_ident_end(s, i + 1);
    }
}

/// Every `name:` qualifier of `s` from position `i` on, in order and with
/// repeats, skipping text inside quotes; `quote` is the quote character
/// currently open, if any.
pub open spec fn qualifier_occurrences(s: Seq<char>, i: int, quote: Option<char>) -> Seq<Seq<char>>
    decreases s.len() - i,
{
    if i < 0 || i >= s.len() {
        Seq::empty()
    } else {
        match quote {
            Some(q) => if s[i] == q {
                qualifier_occurrences(s, i + 1, None)
            } else {
                qualifier_occurrences(s, i + 1, quote)
            },
            None => if s[i] == '\'' || s[i] == '"' {
                qualifier_occurrences(s, i + 1, Some(s[i]))
            } else if is_ident_start(s[i]) {
                proof { lemma_ident_end(s, i); }
                let e = ident_end(s, i);
                let rest = qualifier_occurrences(s, e, None);
                if e < s.len() && s[e] == ':' {
                    seq![s.subrange(i, e)] + rest
                } else {
                    rest
                }
            } else {
                qualifier_occurrences(s, i + 1, None)
            },
        }
    }
}

/// `d` with `x` appended unless it already holds `x`.
pub open spec fn add_unique(d: Seq<Seq<char>>, x: Seq<char>) -> Seq<Seq<char>> {
    if d.contains(x) {
        d
    } else {
        d.push(x)
    }
}

/// `d` extended by the elements of `xs` that are not already present, first
/// occurrences first.
pub open spec fn dedup_onto(d: Seq<Seq<char>>, xs: Seq<Seq<char>>) -> Seq<Seq<char>>
    decreases xs.len(),
{
    if xs.len() == 0 {
        d
    } else {
        dedup_onto(add_unique(d, xs[0]), xs.drop_first())
    }
}

/// The distinct module-name qualifiers of a path, in order of first use.
pub open spec fn module_prefixes(path: Seq<char>) -> Seq<Seq<char>> {
    dedup_onto(Seq::empty(), qualifier_occurrences(path, 0, None))
}

/// Scans `path` for `prefix:` qualifiers (the `oc-if` of `oc-if:interfaces`),
/// skipping quoted predicate values so that `[name='eth0:1']` is not read
/// as a qualifier. Order-preserving and without repeats.
pub fn collect_module_prefixes(path: &str) -> (r: Vec<String>)
    ensures
        string_views(r@) == module_prefixes(path@),
{
    let cs = chars_of(path);
    let n = cs.len();
    let mut out: Vec<String> = Vec::new();
    let mut i: usize = 0;
    let mut quote: Option<char> = None;
    assert(string_views(out@) =~= Seq::<Seq<char>>::empty());
    while i < n
        invariant
            n == cs@.len(),
            cs@ == path@,
            i <= n,
            dedup_onto(string_views(out@), qualifier_occurrences(cs@, i as int, quote)) == module_prefixes(path@),
        decreases n - i,
    {
        let c = cs[i];
        match quote {
            Some(q) => {
                if c == q {
                    quote = None;
                }
                i = i + 1;
            },
            None => {
                if c == '\'' || c == '"' {
                    quote = Some(c);
                    i = i + 1;
                } else if ('a' <= c && c <= 'z') || ('A' <= c && c <= 'Z') || c == '_' {
                    let start = i;
                    proof { lemma_ident_end(cs@, i as int); }
                    while i < n && (('a' <= cs[i] && cs[i] <= 'z') || ('A' <= cs[i] && cs[i] <= 'Z') || cs[i] == '_'
                        || ('0' <= cs[i] && cs[i] <= '9') || cs[i] == '-')
                        invariant
                            n == cs@.len(),
                            start <= i <= n,
                            ident_end(cs@, start as int) == ident_end(cs@, i as int),
                        decreases n - i,
                    {
                        i = i + 1;
                    }
                    proof { lemma_ident_end(cs@, i as int); }
                    let ghost occ = qualifier_occurrences(cs@, i as int, None);
                    if i < n && cs[i] == ':' {
                        let mut word: Vec<char> = Vec::new();
                        let mut k: usize = start;
                        while k < i
                            invariant
                                start <= k <= i <= n == cs@.len(),
                                word@ == cs@.subrange(start as int, k as int),
                            decreases i - k,
                        {
                            word.push(cs[k]);
                            k = k + 1;
                            assert(word@ =~= cs@.subrange(start as int, k as int));
                        }
                        let ghost before = string_views(out@);
                        let prefix = string_of(word.as_slice());
                        proof {
                            let xs = seq![cs@.subrange(start as int, i as int)] + occ;
                            assert(xs[0] == prefix@);
                            assert(xs.drop_first() =~= occ);
                        }
                        if !vec_contains_str(&out, prefix.as_str()) {
                            proof {
                                assert(!before.contains(prefix@));
                            }
                            out.push(prefix);
                            assert(string_views(out@) =~= before.push(prefix@));
                        } else {
                            proof {
                                let j = choose|j: int| 0 <= j < out@.len() && out@[j]@ == prefix@;
                                assert(before[j] == prefix@);
                            }
                        }
                    }
                } else {
                    i = i + 1;
                }
            },
        }
    }
    proof {
        assert(qualifier_occurrences(cs@, i as int, quote).len() == 0);
    }
    out
}

/// The escaped form of one attribute-value character.
pub open spec fn escape_attr_char(c: char) -> Seq<char> {
    if c == '&' {
        "&amp;"@
    } else if c == '<' {
        "&lt;"@
    } else if c == '>' {
        "&gt;"@
    } else if c == '"' {
        "&quot;"@
    } else {
        seq![c]
    }
}

/// `s` with `&`, `<`, `>` and `"` replaced by their XML entity references.
pub open spec fn escape_attr(s: Seq<char>) -> Seq<char>
    decreases s.len(),
{
    if s.len() == 0 {
        Seq::empty()
    } else {
        escape_attr(s.drop_last()) + escape_attr_char(s.last())
    }
}

/// Appends the escaped form of `cs` to `out`.
fn push_escaped_attr(out: &mut Vec<char>, cs: &[char])
    ensures
        final(out)@ == old(out)@ + escape_attr(cs@),
{
    let mut i: usize = 0;
    while i < cs.len()
        invariant
            i <= cs@.len(),
            out@ == old(out)@ + escape_attr(cs@.take(i as int)),
        decreases cs@.len() - i,
    {
        let c = cs[i];
        let ghost before = out@;
        if c == '&' {
            push_str(out, "&amp;");
        } else if c == '<' {
            push_str(out, "&lt;");
        } else if c == '>' {
            push_str(out, "&gt;");
        } else if c == '"' {
            push_str(out, "&quot;");
        } else {
            out.push(c);
        }
        proof {
            assert(cs@.take(i as int + 1).drop_last() =~= cs@.take(i as int));
            assert(out@ =~= before + escape_attr_char(c));
        }
        i = i + 1;
    }
    assert(cs@.take(cs@.len() as int) =~= cs@);
}

/// Escapes `&`, `<`, `>` and `"` for use inside a double-quoted attribute.
pub fn xml_escape_attr(s: &str) -> (r: String)
    ensures
        r@ == escape_attr(s@),
{
    let cs = chars_of(s);
    let mut out: Vec<char> = Vec::new();
    push_escaped_attr(&mut out, cs.as_slice());
    assert(out@ =~= escape_attr(s@));
    string_of(out.as_slice())
}

/// The `<hello>` this client sends: NETCONF base 1.0 and 1.1.
pub fn client_hello_xml() -> (r: &'static str)
    ensures
        r@ == client_hello_text(),
{
    "<?xml version=\"1.0\" encoding=\"UTF-8\"?><hello xmlns=\"urn:ietf:params:xml:ns:netconf:base:1.0\"><capabilities><capability>urn:ietf:params:netconf:base:1.0</capability><capability>urn:ietf:params:netconf:base:1.1</capability></capabilities></hello>"
}

/// The text of the client `<hello>`.
pub open spec fn client_hello_text() -> Seq<char> {
    "<?xml version=\"1.0\" encoding=\"UTF-8\"?><hello xmlns=\"urn:ietf:params:xml:ns:netconf:base:1.0\"><capabilities><capability>urn:ietf:params:netconf:base:1.0</capability><capability>urn:ietf:params:netconf:base:1.1</capability></capabilities></hello>"@
}

/// The unfiltered `<get>` request.
pub open spec fn get_all_rpc() -> Seq<char> {
    "<rpc message-id=\"1\" xmlns=\"urn:ietf:params:xml:ns:netconf:base:1.0\"><get/></rpc>"@
}

/// What comes before the escaped path in a filtered `<get>`.
pub open spec fn filtered_get_head() -> Seq<char> {
    "<rpc message-id=\"1\" xmlns=\"urn:ietf:params:xml:ns:netconf:base:1.0\"><get><filter type=\"xpath\" select=\""@
}

/// What closes a filtered `<get>`.
pub open spec fn filtered_get_tail() -> Seq<char> {
    "/></get></rpc>"@
}

/// The error for a filtered path on a target without `:xpath`.
pub open spec fn no_xpath_error() -> Seq<char> {
    "target doesn't advertise the NETCONF :xpath capability needed to filter by path - use \"/\" to fetch the whole datastore"@
}

/// The error for a qualifier with no known namespace.
pub open spec fn unknown_module_error(prefix: Seq<char>) -> Seq<char> {
    "unknown YANG module '"@ + prefix + "' in path - no matching module found in the active YANG profile's directories"@
}

/// The namespace URI of the first entry of `ns` named `module`.
pub open spec fn namespace_of(ns: Seq<(String, String)>, module: Seq<char>) -> Option<Seq<char>>
    decreases ns.len(),
{
    if ns.len() == 0 {
        None
    } else if ns[0].0@ == module {
        Some(ns[0].1@)
    } else {
        namespace_of(ns.drop_first(), module)
    }
}

/// One ` xmlns:prefix="uri"` declaration.
pub open spec fn xmlns_decl(prefix: Seq<char>, uri: Seq<char>) -> Seq<char> {
    " xmlns:"@ + prefix + "=\""@ + escape_attr(uri) + "\""@
}

/// The declarations binding each of `prefixes` to its namespace, or the
/// error for the first one without a namespace.
pub open spec fn xmlns_decls(ns: Seq<(String, String)>, prefixes: Seq<Seq<char>>) -> Result<Seq<char>, Seq<char>>
    decreases prefixes.len(),
{
    if prefixes.len() == 0 {
        Ok(Seq::empty())
    } else {
        match namespace_of(ns, prefixes[0]) {
            None => Err(unknown_module_error(prefixes[0])),
            Some(uri) => match xmlns_decls(ns, prefixes.drop_first()) {
                Ok(rest) => Ok(xmlns_decl(prefixes[0], uri) + rest),
                Err(e) => Err(e),
            },
        }
    }
}

/// The `<get>` request for `path` (see `get_rpc_xml`).
pub open spec fn get_rpc_spec(path: Seq<char>, xpath_supported: bool, ns: Seq<(String, String)>) -> Result<Seq<char>, Seq<char>> {
    let t = trimmed(path);
    if t.len() == 0 || t == "/"@ {
        Ok(get_all_rpc())
    } else if !xpath_supported {
        Err(no_xpath_error())
    } else {
        match xmlns_decls(ns, module_prefixes(t)) {
            Ok(decls) => Ok(filtered_get_head() + escape_attr(t) + "\""@ + decls + filtered_get_tail()),
            Err(e) => Err(e),
        }
    }
}

fn find_namespace(ns: &Vec<(String, String)>, module: &str) -> (r: Option<String>)
    ensures
        match namespace_of(ns@, module@) {
            Some(u) => r matches Some(x) && x@ == u,
            None => r is None,
        },
{
    let mut i: usize = 0;
    assert(ns@.skip(0) =~= ns@);
    while i < ns.len()
        invariant
            i <= ns@.len(),
            namespace_of(ns@, module@) == namespace_of(ns@.skip(i as int), module@),
        decreases ns@.len() - i,
    {
        proof {
            assert(ns@.skip(i as int).drop_first() =~= ns@.skip(i as int + 1));
        }
        if str_eq(ns[i].0.as_str(), module) {
            return Some(ns[i].1.clone());
        }
        i = i + 1;
    }
    None
}

/// Builds the `<rpc><get>...</get></rpc>` request for `path`. An empty path
/// or `/` (after trimming) fetches the whole datastore without a filter;
/// any other path becomes an XPath filter, which needs the target's `:xpath`
/// capability and a namespace in `module_namespaces` (module name, URI) for
/// every module-name qualifier in the path.
pub fn get_rpc_xml(path: &str, xpath_supported: bool, module_namespaces: &Vec<(String, String)>) -> (r: Result<String, String>)
    ensures
        match (r, get_rpc_spec(path@, xpath_supported, module_namespaces@)) {
            (Ok(x), Ok(y)) => x@ == y,
            (Err(x), Err(y)) => x@ == y,
            _ => false,
        },
{
    let cs = chars_of(path);
    let t = trim_chars(cs.as_slice());
    let slash: Vec<char> = vec!['/'];
    proof { reveal_strlit("/"); }
    if t.len() == 0 || (t.len() == 1 && t[0] == '/') {
        assert(t.len() == 1 && t[0] == '/' ==> t@ =~= "/"@);
        return Ok("<rpc message-id=\"1\" xmlns=\"urn:ietf:params:xml:ns:netconf:base:1.0\"><get/></rpc>".to_owned());
    }
    assert(t@ != "/"@) by {
        if t@ == "/"@ {
            assert(t@.len() == 1 && t@[0] == '/');
        }
    }
    if !xpath_supported {
        return Err("target doesn't advertise the NETCONF :xpath capability needed to filter by path - use \"/\" to fetch the whole datastore".to_owned());
    }
    let tstr = string_of(t.as_slice());
    let prefixes = collect_module_prefixes(tstr.as_str());
    let ghost ps = string_views(prefixes@);
    let mut decls: Vec<char> = Vec::new();
    let mut k: usize = 0;
    assert(ps.skip(0) =~= ps);
    assert(decls@ + Seq::<char>::empty() =~= decls@);
    while k < prefixes.len()
        invariant
            k <= prefixes@.len(),
            ps == string_views(prefixes@),
            ps.len() == prefixes@.len(),
            ps == module_prefixes(trimmed(path@)),
            trimmed(path@).len() > 0,
            trimmed(path@) != "/"@,
            xpath_supported,
            xmlns_decls(module_namespaces@, ps) == match xmlns_decls(module_namespaces@, ps.skip(k as int)) {
                Ok(rest) => Ok(decls@ + rest),
                Err(e) => Err(e),
            },
        decreases prefixes@.len() - k,
    {
        proof {
            assert(ps.skip(k as int).drop_first() =~= ps.skip(k as int + 1));
            assert(ps.skip(k as int)[0] == prefixes@[k as int]@);
        }
        let p = &prefixes[k];
        match find_namespace(module_namespaces, p.as_str()) {
            None => {
                let mut msg: Vec<char> = Vec::new();
                push_str(&mut msg, "unknown YANG module '");
                push_str(&mut msg, p.as_str());
                push_str(&mut msg, "' in path - no matching module found in the active YANG profile's directories");
                assert(msg@ =~= unknown_module_error(p@));
                assert(xmlns_decls(module_namespaces@, ps.skip(k as int))
                    == Err::<Seq<char>, Seq<char>>(unknown_module_error(p@)));
                return Err(string_of(msg.as_slice()));
            },
            Some(uri) => {
                let ghost before = decls@;
                push_str(&mut decls, " xmlns:");
                push_str(&mut decls, p.as_str());
                push_str(&mut decls, "=\"");
                let ucs = chars_of(uri.as_str());
                push_escaped_attr(&mut decls, ucs.as_slice());
                push_str(&mut decls, "\"");
                proof {
                    assert(decls@ =~= before + xmlns_decl(p@, uri@));
                    match xmlns_decls(module_namespaces@, ps.skip(k as int + 1)) {
                        Ok(rest) => { assert(before + (xmlns_decl(p@, uri@) + rest) =~= decls@ + rest); },
                        Err(e) => {},
                    }
                }
            },
        }
        k = k + 1;
    }
    proof {
        assert(ps.skip(k as int).len() == 0);
        assert(decls@ + Seq::<char>::empty() =~= decls@);
    }
    let mut out: Vec<char> = Vec::new();
    push_str(&mut out, "<rpc message-id=\"1\" xmlns=\"urn:ietf:params:xml:ns:netconf:base:1.0\"><get><filter type=\"xpath\" select=\"");
    push_escaped_attr(&mut out, t.as_slice());
    push_str(&mut out, "\"");
    push_chars(&mut out, decls.as_slice());
    push_str(&mut out, "/></get></rpc>");
    assert(out@ =~= filtered_get_head() + escape_attr(t@) + "\""@ + decls@ + filtered_get_tail());
    Ok(string_of(out.as_slice()))
}

/// How to reach a NETCONF server over SSH.
pub struct NetconfConnectionParams {
    pub host_addr: String,
    pub host_port: String,
    pub username: String,
    pub password: String,
}

/// What a server announced in its `<hello>`.
pub struct NetconfCapabilities {
    pub session_id: String,
    pub capabilities: Vec<String>,
}

/// One element of a `<get>` reply: its local name, its text when it is a
/// leaf, and its children.
#[derive(Debug)]
pub struct NetconfNode {
    pub name: String,
    pub value: Option<String>,
    pub children: Vec<NetconfNode>,
}

/// A `<get>` result and when it was received.
pub struct NetconfTree {
    pub roots: Vec<NetconfNode>,
    pub timestamp: i64,
}

} // verus!
