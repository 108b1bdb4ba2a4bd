//! gNMI path handling and result trees: parsing xpath-style paths such as
//! `/interfaces/interface[name=eth0]/state` into elements with keys,
//! rendering an element back, and assembling a Get response's updates into
//! a browsable tree. The gRPC exchange itself happens outside this module.

use vstd::prelude::*;
use crate::text::{chars_less, chars_lt, chars_of, lemma_chars_lt_total, lemma_chars_lt_trans, push_chars, push_str, str_eq, string_of};

verus! {

/// One path element: a node name and its list keys (key name, value), each
/// key name at most once.
pub struct PathElem {
    pub name: String,
    pub key: Vec<(String, String)>,
}

/// A parsed path.
pub struct Path {
    pub elem: Vec<PathElem>,
}

/// The spec-level key list of an element.
pub open spec fn keys_view(ks: Seq<(String, String)>) -> Seq<(Seq<char>, Seq<char>)> {
    ks.map_values(|kv: (String, String)| (kv.0@, kv.1@))
}

impl View for PathElem {
    type V = (Seq<char>, Seq<(Seq<char>, Seq<char>)>);

    open spec fn view(&self) -> Self::V {
        (self.name@, keys_view(self.key@))
    }
}

/// The state of the element splitter: characters consumed, where the
/// current element began, `[` and `]` seen outside quotes, and the open
/// quote if any.
pub open spec fn split_from(
    s: Seq<char>,
    i: int,
    start: int,
    opens: int,
    closes: int,
    quote: Option<char>,
) -> Seq<Seq<char>>
    decreases s.len() - i,
{
    if i < 0 || i >= s.len() {
        if 0 <= start < s.len() {
            seq![s.subrange(start, s.len() as int)]
        } else {
            Seq::empty()
        }
    } else {
        match quote {
            Some(q) => split_from(s, i + 1, start, opens, closes, if s[i] == q { None } else { quote }),
            None => if s[i] == '\'' || s[i] == '"' {
                split_from(s, i + 1, start, opens, closes, Some(s[i]))
            } else if s[i] == '[' {
                split_from(s, i + 1, start, opens + 1, closes, None)
            } else if s[i] == ']' {
                split_from(s, i + 1, start, opens, closes + 1, None)
            } else if s[i] == '/' && opens == closes {
                let rest = split_from(s, i + 1, i + 1, opens, closes, None);
                if i > start {
                    seq![s.subrange(start, i)] + rest
                } else {
                    rest
                }
            } else {
                split_from(s, i + 1, start, opens, closes, None)
            },
        }
    }
}

/// The `/`-separated elements of a path, ignoring `/` inside a `[...]`
/// predicate or inside quotes, and dropping empty elements.
pub open spec fn path_elements(s: Seq<char>) -> Seq<Seq<char>> {
    split_from(s, 0, 0, 0, 0, None)
}

fn sub_chars(cs: &[char], from: usize, to: usize) -> (r: Vec<char>)
    requires
        from <= to <= cs@.len(),
    ensures
        r@ == cs@.subrange(from as int, to as int),
{
    let mut out: Vec<char> = Vec::new();
    let mut k: usize = from;
    while k < to
        invariant
            from <= k <= to <= cs@.len(),
            out@ == cs@.subrange(from as int, k as int),
        decreases to - k,
    {
        out.push(cs[k]);
        k = k + 1;
        assert(out@ =~= cs@.subrange(from as int, k as int));
    }
    out
}

/// Splits a path into its elements (see `path_elements`): a key value very
/// often holds a literal `/`, as in `circuit-packs[name='1/AWG']`.
pub fn split_path_elements(path: &[char]) -> (r: Vec<Vec<char>>)
    ensures
        r@.len() == path_elements(path@).len(),
        forall|i: int| 0 <= i < r@.len() ==> #[trigger] r@[i]@ == path_elements(path@)[i],
{
    let n = path.len();
    let mut parts: Vec<Vec<char>> = Vec::new();
    let mut start: usize = 0;
    let mut opens: usize = 0;
    let mut closes: usize = 0;
    let mut quote: Option<char> = None;
    let mut i: usize = 0;
    let ghost full = path_elements(path@);
    while i < n
        invariant
            n == path@.len(),
            i <= n,
            start <= i,
            opens <= i,
            closes <= i,
            full == path_elements(path@),
            full == parts@.map_values(|v: Vec<char>| v@) + split_from(path@, i as int, start as int, opens as int, closes as int, quote),
        decreases n - i,
    {
        let b = path[i];
        let ghost before = parts@.map_values(|v: Vec<char>| v@);
        match quote {
            Some(q) => {
                if b == q {
                    quote = None;
                }
            },
            None => {
                if b == '\'' || b == '"' {
                    quote = Some(b);
                } else if b == '[' {
                    opens = opens + 1;
                } else if b == ']' {
                    closes = closes + 1;
                } else if b == '/' && opens == closes {
                    if i > start {
                        let part = sub_chars(path, start, i);
                        parts.push(part);
                        assert(parts@.map_values(|v: Vec<char>| v@) =~= before.push(path@.subrange(start as int, i as int)));
                        assert(before.push(path@.subrange(start as int, i as int))
                            + split_from(path@, i + 1, i + 1, opens as int, closes as int, None)
                            =~= before + (seq![path@.subrange(start as int, i as int)]
                            + split_from(path@, i + 1, i + 1, opens as int, closes as int, None)));
                    }
                    start = i + 1;
                }
            },
        }
        i = i + 1;
    }
    if start < n {
        let ghost before = parts@.map_values(|v: Vec<char>| v@);
        let part = sub_chars(path, start, n);
        parts.push(part);
        assert(parts@.map_values(|v: Vec<char>| v@) =~= before + seq![path@.subrange(start as int, n as int)]);
    } else {
        assert(parts@.map_values(|v: Vec<char>| v@) + Seq::<Seq<char>>::empty() =~= parts@.map_values(|v: Vec<char>| v@));
    }
    assert forall|k: int| 0 <= k < parts@.len() implies #[trigger] parts@[k]@ == full[k] by {
        assert(parts@.map_values(|v: Vec<char>| v@)[k] == parts@[k]@);
    }
    parts
}

/// The position of the `]` closing a `[` whose content starts at `i`,
/// skipping any `]` inside quotes; `quote` is the quote currently open.
pub open spec fn closing_bracket(s: Seq<char>, i: int, quote: Option<char>) -> Option<int>
    decreases s.len() - i,
{
    if i < 0 || i >= s.len() {
        None
    } else {
        match quote {
            Some(q) => closing_bracket(s, i + 1, if s[i] == q { None } else { quote }),
            None => if s[i] == '\'' || s[i] == '"' {
                closing_bracket(s, i + 1, Some(s[i]))
            } else if s[i] == ']' {
                Some(i)
            } else {
                closing_bracket(s, i + 1, None)
            },
        }
    }
}

/// A closing bracket found from `i` lies at or after `i` and inside `s`.
pub proof fn lemma_closing_bracket(s: Seq<char>, i: int, quote: Option<char>)
    requires
        0 <= i,
    ensures
        closing_bracket(s, i, quote) matches Some(e) ==> i <= e < s.len(),
    decreases s.len() - i,
{
    if i < s.len() {
        match quote {
            Some(q) => lemma_closing_bracket(s, i + 1, if s[i] == q { None } else { quote }),
            None => {
                if s[i] == '\'' || s[i] == '"' {
                    lemma_closing_bracket(s, i + 1, Some(s[i]));
                } else if s[i] != ']' {
                    lemma_closing_bracket(s, i + 1, None);
                }
            },
        }
    }
}

/// The error for an element whose `[` is never closed.
pub open spec fn unterminated_error(raw: Seq<char>) -> Seq<char> {
    "unterminated '[' in path element '"@ + raw + "'"@
}

/// The error for a predicate without `=`.
pub open spec fn missing_eq_error(content: Seq<char>) -> Seq<char> {
    "expected key=value in '"@ + content + "'"@
}

/// Finds the `]` matching the `[` at `open`, skipping any `]` inside a
/// quoted value.
pub fn find_matching_bracket(raw: &[char], open: usize) -> (r: Result<usize, String>)
    requires
        open < usize::MAX,
    ensures
        match closing_bracket(raw@, open + 1, None) {
            Some(e) => r == Ok::<usize, String>(e as usize),
            None => r matches Err(m) && m@ == unterminated_error(raw@),
        },
{
    let n = raw.len();
    let mut quote: Option<char> = None;
    let mut i: usize = open + 1;
    proof { lemma_closing_bracket(raw@, open + 1, None); }
    if i < n {
        while i < n
            invariant
                n == raw@.len(),
                open < i <= n,
                closing_bracket(raw@, open + 1, None) == closing_bracket(raw@, i as int, quote),
            decreases n - i,
        {
            let b = raw[i];
            match quote {
                Some(q) => {
                    if b == q {
                        quote = None;
                    }
                },
                None => {
                    if b == '\'' || b == '"' {
                        quote = Some(b);
                    } else if b == ']' {
                        return Ok(i);
                    }
                },
            }
            i = i + 1;
        }
    }
    let mut msg: Vec<char> = Vec::new();
    push_str(&mut msg, "unterminated '[' in path element '");
    push_chars(&mut msg, raw);
    push_str(&mut msg, "'");
    Err(string_of(msg.as_slice()))
}

/// `v` with one layer of matching surrounding quotes removed.
pub open spec fn unquoted(v: Seq<char>) -> Seq<char> {
    if v.len() >= 2 && (v[0] == '\'' || v[0] == '"') && v.last() == v[0] {
        v.subrange(1, v.len() - 1)
    } else {
        v
    }
}

/// Strips one layer of matching surrounding quotes from a predicate value,
/// e.g. `'1/AWG'` becomes `1/AWG`.
pub fn unquote_chars(v: &[char]) -> (r: Vec<char>)
    ensures
        r@ == unquoted(v@),
{
    let n = v.len();
    if n >= 2 && (v[0] == '\'' || v[0] == '"') && v[n - 1] == v[0] {
        sub_chars(v, 1, n - 1)
    } else {
        sub_chars(v, 0, n)
    }
}

/// Strips one layer of matching surrounding quotes from `v`.
pub fn unquote(v: &str) -> (r: String)
    ensures
        r@ == unquoted(v@),
{
    let cs = chars_of(v);
    let u = unquote_chars(cs.as_slice());
    string_of(u.as_slice())
}

/// The first position of `c` in `s` at or after `i`, or `s.len()`.
pub open spec fn next_index_of(s: Seq<char>, c: char, i: int) -> int
    decreases s.len() - i,
{
    if i < 0 || i >= s.len() {
        s.len() as int
    } else if s[i] == c {
        i
    } else {
        next_index_of(s, c, i + 1)
    }
}

/// Basic facts about `next_index_of`.
pub proof fn lemma_next_index_of(s: Seq<char>, c: char, i: int)
    requires
        0 <= i <= s.len(),
    ensures
        i <= next_index_of(s, c, i) <= s.len(),
        next_index_of(s, c, i) < s.len() ==> s[next_index_of(s, c, i)] == c,
        forall|j: int| i <= j < next_index_of(s, c, i) ==> s[j] != c,
    decreases s.len() - i,
{
    if i < s.len() && s[i] != c {
        lemma_next_index_of(s, c, i + 1);
    }
}

fn next_index(s: &[char], c: char, from: usize) -> (r: usize)
    requires
        from <= s@.len(),
    ensures
        r == next_index_of(s@, c, from as int),
{
    let mut i: usize = from;
    while i < s.len() && s[i] != c
        invariant
            from <= i <= s@.len(),
            next_index_of(s@, c, from as int) == next_index_of(s@, c, i as int),
        decreases s@.len() - i,
    {
        i = i + 1;
    }
    i
}

/// `ks` with key `k` set to `v`: the value replaced where `k` is already a
/// key, else the pair appended.
pub open spec fn key_insert(ks: Seq<(Seq<char>, Seq<char>)>, k: Seq<char>, v: Seq<char>) -> Seq<(Seq<char>, Seq<char>)> {
    if exists|j: int| 0 <= j < ks.len() && ks[j].0 == k {
        let j = choose|j: int| 0 <= j < ks.len() && ks[j].0 == k;
        ks.update(j, (k, v))
    } else {
        ks.push((k, v))
    }
}

/// Every key occurs at most once.
pub open spec fn keys_unique(ks: Seq<(Seq<char>, Seq<char>)>) -> bool {
    forall|i: int, j: int| 0 <= i < ks.len() && 0 <= j < ks.len() && i != j ==> ks[i].0 != ks[j].0
}

fn insert_key(ks: &mut Vec<(String, String)>, k: String, v: String)
    requires
        keys_unique(keys_view(old(ks)@)),
    ensures
        keys_view(final(ks)@) == key_insert(keys_view(old(ks)@), k@, v@),
        keys_unique(keys_view(final(ks)@)),
{
    let ghost kv = keys_view(ks@);
    let mut i: usize = 0;
    while i < ks.len()
        invariant
            i <= ks@.len(),
            kv == keys_view(ks@),
            keys_unique(kv),
            ks@ == old(ks)@,
            forall|j: int| 0 <= j < i ==> kv[j].0 != k@,
        decreases ks@.len() - i,
    {
        if str_eq(ks[i].0.as_str(), k.as_str()) {
            proof {
                assert(kv[i as int].0 == k@);
                let j = choose|j: int| 0 <= j < kv.len() && kv[j].0 == k@;
                assert(j == i as int);
            }
            ks.set(i, (k, v));
            assert(keys_view(ks@) =~= kv.update(i as int, (k@, v@)));
            return;
        }
        i = i + 1;
    }
    ks.push((k, v));
    assert(keys_view(ks@) =~= kv.push((k@, v@)));
}

/// The rest of an element from position `i`, given the name and keys read so
/// far: the element's name and keys, or the first error.
pub open spec fn parse_elem_from(
    raw: Seq<char>,
    i: int,
    name: Seq<char>,
    keys: Seq<(Seq<char>, Seq<char>)>,
) -> Result<(Seq<char>, Seq<(Seq<char>, Seq<char>)>), Seq<char>>
    decreases raw.len() - i,
{
    if i < 0 || i >= raw.len() {
        Ok((name, keys))
    } else if raw[i] == '[' {
        match closing_bracket(raw, i + 1, None) {
            None => Err(unterminated_error(raw)),
            Some(end) => {
                proof { lemma_closing_bracket(raw, i + 1, None); }
                let content = raw.subrange(i + 1, end);
                let eq = next_index_of(content, '=', 0);
                if eq >= content.len() {
                    Err(missing_eq_error(content))
                } else {
                    parse_elem_from(
                        raw,
                        end + 1,
                        name,
                        key_insert(keys, content.subrange(0, eq), unquoted(content.subrange(eq + 1, content.len() as int))),
                    )
                }
            },
        }
    } else {
        proof { lemma_next_index_of(raw, '[', i); }
        let next = next_index_of(raw, '[', i);
        parse_elem_from(raw, next, name + raw.subrange(i, next), keys)
    }
}

/// A path element's name and keys, e.g. `interface[name=eth0]`.
pub open spec fn parse_elem(raw: Seq<char>) -> Result<(Seq<char>, Seq<(Seq<char>, Seq<char>)>), Seq<char>> {
    parse_elem_from(raw, 0, Seq::empty(), Seq::empty())
}

/// The elements of path `s` parsed one by one from `k` on, or the first
/// element's error.
pub open spec fn parse_elems(parts: Seq<Seq<char>>) -> Result<Seq<(Seq<char>, Seq<(Seq<char>, Seq<char>)>)>, Seq<char>>
    decreases parts.len(),
{
    if parts.len() == 0 {
        Ok(Seq::empty())
    } else {
        match parse_elem(parts[0]) {
            Err(e) => Err(e),
            Ok(el) => match parse_elems(parts.drop_first()) {
                Ok(rest) => Ok(seq![el] + rest),
                Err(e) => Err(e),
            },
        }
    }
}

fn parse_one_elem(raw: &[char]) -> (r: Result<PathElem, String>)
    ensures
        match (r, parse_elem(raw@)) {
            (Ok(e), Ok(s)) => e@ == s && keys_unique(s.1),
            (Err(m), Err(s)) => m@ == s,
            _ => false,
        },
{
    let n = raw.len();
    let mut name: Vec<char> = Vec::new();
    let mut keys: Vec<(String, String)> = Vec::new();
    let mut i: usize = 0;
    assert(keys_view(keys@) =~= Seq::<(Seq<char>, Seq<char>)>::empty());
    while i < n
        invariant
            n == raw@.len(),
            i <= n,
            keys_unique(keys_view(keys@)),
            parse_elem(raw@) == parse_elem_from(raw@, i as int, name@, keys_view(keys@)),
        decreases n - i,
    {
        if raw[i] == '[' {
            proof { lemma_closing_bracket(raw@, i + 1, None); }
            let end = match find_matching_bracket(raw, i) {
                Ok(e) => e,
                Err(m) => {
                    return Err(m);
                },
            };
            let content = sub_chars(raw, i + 1, end);
            let eq = next_index(content.as_slice(), '=', 0);
            proof { lemma_next_index_of(content@, '=', 0); }
            if eq >= content.len() {
                let mut msg: Vec<char> = Vec::new();
                push_str(&mut msg, "expected key=value in '");
                push_chars(&mut msg, content.as_slice());
                push_str(&mut msg, "'");
                assert(msg@ =~= missing_eq_error(content@));
                return Err(string_of(msg.as_slice()));
            }
            let k = sub_chars(content.as_slice(), 0, eq);
            let rawv = sub_chars(content.as_slice(), eq + 1, content.len());
            let v = unquote_chars(rawv.as_slice());
            insert_key(&mut keys, string_of(k.as_slice()), string_of(v.as_slice()));
            i = end + 1;
        } else {
            proof { lemma_next_index_of(raw@, '[', i as int); }
            let next = next_index(raw, '[', i);
            let piece = sub_chars(raw, i, next);
            push_chars(&mut name, piece.as_slice());
            i = next;
        }
    }
    Ok(PathElem { name: string_of(name.as_slice()), key: keys })
}

/// A whole path's elements (see `path_elements` and `parse_elem`), or the
/// first element's error.
pub open spec fn parse_path_spec(path: Seq<char>) -> Result<Seq<(Seq<char>, Seq<(Seq<char>, Seq<char>)>)>, Seq<char>> {
    parse_elems(path_elements(path))
}

/// Parses a gNMI xpath-style path, e.g. `/interfaces/interface[name=eth0]/state`.
pub fn parse_path(path: &str) -> (r: Result<Path, String>)
    ensures
        match (r, parse_path_spec(path@)) {
            (Ok(p), Ok(s)) => p.elem@.len() == s.len() && forall|i: int|
                0 <= i < s.len() ==> #[trigger] p.elem@[i]@ == s[i] && keys_unique(s[i].1),
            (Err(m), Err(s)) => m@ == s,
            _ => false,
        },
{
    let cs = chars_of(path);
    let parts = split_path_elements(cs.as_slice());
    let ghost ps = path_elements(path@);
    assert(parts@.map_values(|v: Vec<char>| v@) =~= ps);
    let mut elems: Vec<PathElem> = Vec::new();
    let mut k: usize = 0;
    assert(ps.skip(0) =~= ps);
    while k < parts.len()
        invariant
            k <= parts@.len(),
            ps.len() == parts@.len(),
            forall|i: int| 0 <= i < parts@.len() ==> #[trigger] parts@[i]@ == ps[i],
            ps == path_elements(path@),
            elems@.len() == k,
            forall|i: int| 0 <= i < k ==> #[trigger] elems@[i]@ == parse_elem(ps[i])->Ok_0 && keys_unique(elems@[i]@.1),
            forall|i: int| 0 <= i < k ==> #[trigger] parse_elem(ps[i]) is Ok,
            parse_elems(ps) == match parse_elems(ps.skip(k as int)) {
                Ok(rest) => Ok(elems@.map_values(|e: PathElem| e@) + rest),
                Err(e) => Err(e),
            },
        decreases parts@.len() - k,
    {
        proof {
            assert(ps.skip(k as int).drop_first() =~= ps.skip(k as int + 1));
            assert(ps.skip(k as int)[0] == ps[k as int]);
        }
        match parse_one_elem(parts[k].as_slice()) {
            Err(m) => {
                return Err(m);
            },
            Ok(e) => {
                let ghost before = elems@.map_values(|e: PathElem| e@);
                elems.push(e);
                proof {
                    assert(elems@.map_values(|e: PathElem| e@) =~= before.push(parse_elem(ps[k as int])->Ok_0));
                    match parse_elems(ps.skip(k as int + 1)) {
                        Ok(rest) => {
                            assert(before + (seq![parse_elem(ps[k as int])->Ok_0] + rest)
                                =~= elems@.map_values(|e: PathElem| e@) + rest);
                        },
                        Err(_) => {},
                    }
                }
            },
        }
        k = k + 1;
    }
    proof {
        assert(ps.skip(k as int).len() == 0);
        let ev = elems@.map_values(|e: PathElem| e@);
        assert(ev + Seq::<(Seq<char>, Seq<(Seq<char>, Seq<char>)>)>::empty() =~= ev);
        assert forall|i: int| 0 <= i < ps.len() implies #[trigger] elems@[i]@ == ev[i] by {}
    }
    Ok(Path { elem: elems })
}

/// `x` inserted into `sorted` before the first entry whose key it precedes.
pub open spec fn insert_by_key(sorted: Seq<(Seq<char>, Seq<char>)>, x: (Seq<char>, Seq<char>)) -> Seq<(Seq<char>, Seq<char>)>
    decreases sorted.len(),
{
    if sorted.len() == 0 {
        seq![x]
    } else if chars_lt(x.0, sorted[0].0) {
        seq![x] + sorted
    } else {
        seq![sorted[0]] + insert_by_key(sorted.drop_first(), x)
    }
}

/// The keys ordered by key name (insertion order among equal names).
pub open spec fn sort_by_key(ks: Seq<(Seq<char>, Seq<char>)>) -> Seq<(Seq<char>, Seq<char>)>
    decreases ks.len(),
{
    if ks.len() == 0 {
        Seq::empty()
    } else {
        insert_by_key(sort_by_key(ks.drop_last()), ks.last())
    }
}

/// The first position `p >= j` of `s` whose key `x`'s key precedes, or `s.len()`.
pub open spec fn insert_point(s: Seq<(Seq<char>, Seq<char>)>, x: (Seq<char>, Seq<char>), j: int) -> int
    decreases s.len() - j,
{
    if j < 0 || j >= s.len() {
        s.len() as int
    } else if chars_lt(x.0, s[j].0) {
        j
    } else {
        insert_point(s, x, j + 1)
    }
}

proof fn lemma_insert_by_key(s: Seq<(Seq<char>, Seq<char>)>, x: (Seq<char>, Seq<char>))
    ensures
        0 <= insert_point(s, x, 0) <= s.len(),
        insert_by_key(s, x) == s.insert(insert_point(s, x, 0), x),
    decreases s.len(),
{
    if s.len() > 0 && !chars_lt(x.0, s[0].0) {
        lemma_insert_by_key(s.drop_first(), x);
        lemma_insert_point_shift(s, x, 1);
        let p = insert_point(s.drop_first(), x, 0);
        assert(seq![s[0]] + s.drop_first().insert(p, x) =~= s.insert(p + 1, x));
    } else if s.len() > 0 {
        assert(seq![x] + s =~= s.insert(0, x));
    } else {
        assert(seq![x] =~= s.insert(0, x));
    }
}

proof fn lemma_insert_point_shift(s: Seq<(Seq<char>, Seq<char>)>, x: (Seq<char>, Seq<char>), j: int)
    requires
        1 <= j <= s.len(),
    ensures
        insert_point(s, x, j) == 1 + insert_point(s.drop_first(), x, j - 1),
    decreases s.len() - j,
{
    if j < s.len() && !chars_lt(x.0, s[j].0) {
        lemma_insert_point_shift(s, x, j + 1);
    }
}

/// The keys of `ks` ordered by key name.
pub fn sorted_keys(ks: &Vec<(String, String)>) -> (r: Vec<(String, String)>)
    ensures
        keys_view(r@) == sort_by_key(keys_view(ks@)),
{
    let mut out: Vec<(String, String)> = Vec::new();
    let mut i: usize = 0;
    assert(keys_view(out@) =~= sort_by_key(keys_view(ks@).take(0)));
    while i < ks.len()
        invariant
            i <= ks@.len(),
            keys_view(out@) == sort_by_key(keys_view(ks@).take(i as int)),
        decreases ks@.len() - i,
    {
        let ghost sv = keys_view(out@);
        let x = (ks[i].0.clone(), ks[i].1.clone());
        let ghost xv = (x.0@, x.1@);
        let kc = chars_of(x.0.as_str());
        let mut p: usize = 0;
        let mut found = false;
        while p < out.len() && !found
            invariant
                p <= out@.len(),
                sv == keys_view(out@),
                kc@ == xv.0,
                found ==> p < out@.len() && chars_lt(xv.0, sv[p as int].0),
                insert_point(sv, xv, 0) == insert_point(sv, xv, p as int),
            decreases out@.len() - p, if found { 0int } else { 1int },
        {
            let oc = chars_of(out[p].0.as_str());
            if chars_less(kc.as_slice(), oc.as_slice()) {
                found = true;
            } else {
                p = p + 1;
            }
        }
        assert(insert_point(sv, xv, p as int) == p);
        proof {
            lemma_insert_by_key(sv, xv);
            let t = keys_view(ks@).take(i as int + 1);
            assert(t.drop_last() =~= keys_view(ks@).take(i as int));
            assert(t.last() == xv);
            assert(keys_view(ks@)[i as int] == xv);
        }
        out.insert(p, x);
        assert(keys_view(out@) =~= sv.insert(p as int, xv));
        i = i + 1;
    }
    assert(keys_view(ks@).take(i as int) =~= keys_view(ks@));
    out
}

/// A value with no bracket or quote, which a predicate can hold as it is.
pub open spec fn plain_value(v: Seq<char>) -> bool {
    forall|i: int| 0 <= i < v.len() ==> value_char(#[trigger] v[i])
}

/// A value as a predicate writes it: as it is when plain, else between
/// single quotes when it holds none, else between double quotes.
pub open spec fn quoted_value(v: Seq<char>) -> Seq<char> {
    if plain_value(v) {
        v
    } else if !v.contains('\'') {
        seq!['\''] + v + seq!['\'']
    } else {
        seq!['"'] + v + seq!['"']
    }
}

/// One `[key=value]` predicate, the value quoted when it needs it.
pub open spec fn predicate_text(kv: (Seq<char>, Seq<char>)) -> Seq<char> {
    seq!['['] + kv.0 + seq!['='] + quoted_value(kv.1) + seq![']']
}

/// Writes a predicate value (see `quoted_value`).
pub fn quote_value(v: &str) -> (r: Vec<char>)
    ensures
        r@ == quoted_value(v@),
{
    let cs = chars_of(v);
    let mut plain = true;
    let mut single = false;
    let mut i: usize = 0;
    while i < cs.len()
        invariant
            i <= cs@.len(),
            cs@ == v@,
            plain == (forall|t: int| 0 <= t < i ==> value_char(#[trigger] cs@[t])),
            single == (exists|t: int| 0 <= t < i && cs@[t] == '\''),
        decreases cs@.len() - i,
    {
        let c = cs[i];
        if !(c != '[' && c != ']' && c != '\'' && c != '"') {
            plain = false;
        }
        if c == '\'' {
            single = true;
        }
        i = i + 1;
        proof {
            assert(plain == (forall|t: int| 0 <= t < i ==> value_char(#[trigger] cs@[t]))) by {
                if !plain {
                    if !value_char(c) {
                        assert(!value_char(cs@[i - 1]));
                    }
                }
            }
        }
    }
    assert(single == v@.contains('\'')) by {
        if single {
            let t = choose|t: int| 0 <= t < cs@.len() && cs@[t] == '\'';
            assert(v@[t] == '\'');
        }
    }
    if plain {
        cs
    } else {
        let q = if single { '"' } else { '\'' };
        let mut out: Vec<char> = Vec::new();
        out.push(q);
        push_chars(&mut out, cs.as_slice());
        out.push(q);
        assert(out@ =~= seq![q] + v@ + seq![q]);
        out
    }
}

/// The predicates of `ks`, in order.
pub open spec fn predicates_text(ks: Seq<(Seq<char>, Seq<char>)>) -> Seq<char>
    decreases ks.len(),
{
    if ks.len() == 0 {
        Seq::empty()
    } else {
        predicates_text(ks.drop_last()) + predicate_text(ks.last())
    }
}

/// An element written back as text: its name followed by its predicates
/// ordered by key name.
pub open spec fn render_elem_text(e: (Seq<char>, Seq<(Seq<char>, Seq<char>)>)) -> Seq<char> {
    e.0 + predicates_text(sort_by_key(e.1))
}

/// The inverse of `parse_path` for one element, used to label result nodes.
pub fn render_elem(e: &PathElem) -> (r: String)
    ensures
        r@ == render_elem_text(e@),
{
    let sorted = sorted_keys(&e.key);
    let ghost sv = keys_view(sorted@);
    let mut out: Vec<char> = Vec::new();
    push_str(&mut out, e.name.as_str());
    let mut i: usize = 0;
    assert(out@ =~= e.name@ + predicates_text(sv.take(0)));
    while i < sorted.len()
        invariant
            i <= sorted@.len(),
            sv == keys_view(sorted@),
            out@ == e.name@ + predicates_text(sv.take(i as int)),
        decreases sorted@.len() - i,
    {
        let ghost before = out@;
        out.push('[');
        push_str(&mut out, sorted[i].0.as_str());
        out.push('=');
        let w = quote_value(sorted[i].1.as_str());
        push_chars(&mut out, w.as_slice());
        out.push(']');
        proof {
            let t = sv.take(i as int + 1);
            assert(t.drop_last() =~= sv.take(i as int));
            assert(t.last() == sv[i as int]);
            assert(out@ =~= before + predicate_text(sv[i as int]));
        }
        i = i + 1;
    }
    assert(sv.take(i as int) =~= sv);
    string_of(out.as_slice())
}

/// How to reach a gNMI target.
pub struct GnmiConnectionParams {
    pub host_addr: String,
    pub host_port: String,
    /// `insecure` (plaintext), `tls` (verified against `ca_cert_path`), or
    /// `tlsSkipVerify`.
    pub tls_mode: String,
    pub ca_cert_path: Option<String>,
    pub client_cert_path: Option<String>,
    pub client_key_path: Option<String>,
    /// Sent as the conventional `username`/`password` request metadata.
    pub username: Option<String>,
    pub password: Option<String>,
}

/// A schema model a target supports.
pub struct GnmiModelData {
    pub name: String,
    pub organization: String,
    pub version: String,
}

/// What a target answered to a Capabilities request.
pub struct GnmiCapabilities {
    pub gnmi_version: String,
    pub supported_encodings: Vec<String>,
    pub supported_models: Vec<GnmiModelData>,
}

/// A Get result: the tree of returned values and when it was received.
pub struct GnmiTree {
    pub roots: Vec<GnmiNode>,
    pub timestamp: i64,
}

/// One node of a Get result tree: a rendered path element, its value when
/// it is a leaf, and its children.
pub struct GnmiNode {
    pub name: String,
    pub value: Option<String>,
    pub children: Vec<GnmiNode>,
}

/// The spec-level shape of a result tree node.
pub struct TreeModel {
    pub name: Seq<char>,
    pub value: Option<Seq<char>>,
    pub children: Seq<TreeModel>,
}

/// The model of an optional string.
pub open spec fn opt_view(v: Option<String>) -> Option<Seq<char>> {
    match v {
        Some(s) => Some(s@),
        None => None,
    }
}

/// The model of one node.
pub open spec fn node_model(n: GnmiNode) -> TreeModel
    decreases n, 0nat,
{
    TreeModel { name: n.name@, value: opt_view(n.value), children: nodes_model(n.children@) }
}

/// The models of a sequence of nodes.
pub open spec fn nodes_model(s: Seq<GnmiNode>) -> Seq<TreeModel>
    decreases s, 1nat,
{
    if s.len() == 0 {
        Seq::empty()
    } else {
        nodes_model(s.drop_last()).push(node_model(s.last()))
    }
}

proof fn lemma_nodes_model(s: Seq<GnmiNode>)
    ensures
        nodes_model(s).len() == s.len(),
        forall|i: int| 0 <= i < s.len() ==> #[trigger] nodes_model(s)[i] == node_model(s[i]),
    decreases s.len(),
{
    if s.len() > 0 {
        lemma_nodes_model(s.drop_last());
        assert forall|i: int| 0 <= i < s.len() implies #[trigger] nodes_model(s)[i] == node_model(s[i]) by {
            if i < s.len() - 1 {
                assert(s.drop_last()[i] == s[i]);
            }
        }
    }
}

/// A node with no value and no children.
pub open spec fn empty_model(name: Seq<char>) -> TreeModel {
    TreeModel { name, value: None, children: Seq::empty() }
}

/// The first position at or after `j` holding a node named `name`, or
/// `ns.len()`.
pub open spec fn named_from(ns: Seq<TreeModel>, name: Seq<char>, j: int) -> int
    decreases ns.len() - j,
{
    if j < 0 || j >= ns.len() {
        ns.len() as int
    } else if ns[j].name == name {
        j
    } else {
        named_from(ns, name, j + 1)
    }
}

proof fn lemma_named_from(ns: Seq<TreeModel>, name: Seq<char>, j: int)
    requires
        0 <= j <= ns.len(),
    ensures
        j <= named_from(ns, name, j) <= ns.len(),
        named_from(ns, name, j) < ns.len() ==> ns[named_from(ns, name, j)].name == name,
    decreases ns.len() - j,
{
    if j < ns.len() && ns[j].name != name {
        lemma_named_from(ns, name, j + 1);
    }
}

/// The children after looking up `name`, and the position of the node
/// named `name`: the first existing one, or a new empty one appended.
pub open spec fn find_or_create_model(ns: Seq<TreeModel>, name: Seq<char>) -> (Seq<TreeModel>, int) {
    let j = named_from(ns, name, 0);
    if j < ns.len() {
        (ns, j)
    } else {
        (ns.push(empty_model(name)), ns.len() as int)
    }
}

/// The position of the first node named `name`, after appending an empty
/// one if there is none.
pub fn find_or_create(nodes: &mut Vec<GnmiNode>, name: &str) -> (r: usize)
    ensures
        nodes_model(final(nodes)@) == find_or_create_model(nodes_model(old(nodes)@), name@).0,
        r as int == find_or_create_model(nodes_model(old(nodes)@), name@).1,
        r < final(nodes)@.len(),
        final(nodes)@.len() >= old(nodes)@.len(),
        forall|i: int| 0 <= i < old(nodes)@.len() ==> #[trigger] final(nodes)@[i] == old(nodes)@[i],
{
    let ghost m = nodes_model(nodes@);
    proof { lemma_nodes_model(nodes@); }
    let mut i: usize = 0;
    while i < nodes.len()
        invariant
            i <= nodes@.len(),
            m == nodes_model(nodes@),
            m.len() == nodes@.len(),
            forall|k: int| 0 <= k < nodes@.len() ==> #[trigger] m[k] == node_model(nodes@[k]),
            named_from(m, name@, 0) == named_from(m, name@, i as int),
        decreases nodes@.len() - i,
    {
        if str_eq(nodes[i].name.as_str(), name) {
            assert(m[i as int].name == name@);
            return i;
        }
        i = i + 1;
    }
    let fresh = GnmiNode { name: string_of(chars_of(name).as_slice()), value: None, children: Vec::new() };
    assert(nodes_model(fresh.children@) =~= Seq::<TreeModel>::empty());
    nodes.push(fresh);
    proof {
        let s = nodes@;
        assert(s.drop_last() =~= old(nodes)@);
        assert(node_model(s.last()) == empty_model(name@));
    }
    nodes.len() - 1
}

/// A JSON document, as delivered in a `json_val`/`json_ietf_val` leaf. A
/// number keeps the text it was written with.
pub enum JsonValue {
    Null,
    Bool(bool),
    Number(String),
    Str(String),
    Array(Vec<JsonValue>),
    Object(Vec<(String, JsonValue)>),
}

/// The text shown for a JSON scalar.
pub open spec fn json_scalar_text(j: JsonValue) -> Seq<char> {
    match j {
        JsonValue::Str(s) => s@,
        JsonValue::Null => Seq::empty(),
        JsonValue::Bool(b) => if b { "true"@ } else { "false"@ },
        JsonValue::Number(t) => t@,
        _ => Seq::empty(),
    }
}

/// `n` with the JSON value `j` merged in: an object's members and an
/// array's items (named by index) become children, merged recursively; a
/// scalar becomes the node's value.
pub open spec fn merge_json_model(n: TreeModel, j: JsonValue) -> TreeModel
    decreases j, 0nat,
{
    match j {
        JsonValue::Object(pairs) => TreeModel { children: merge_pairs_model(n.children, pairs@), ..n },
        JsonValue::Array(items) => TreeModel { children: merge_items_model(n.children, items@, 0), ..n },
        _ => TreeModel { value: Some(json_scalar_text(j)), ..n },
    }
}

/// `ns` with the named members merged in, in order.
pub open spec fn merge_pairs_model(ns: Seq<TreeModel>, pairs: Seq<(String, JsonValue)>) -> Seq<TreeModel>
    decreases pairs, 1nat,
{
    if pairs.len() == 0 {
        ns
    } else {
        let fc = find_or_create_model(ns, pairs[0].0@);
        let merged = fc.0.update(fc.1, merge_json_model(fc.0[fc.1], pairs[0].1));
        merge_pairs_model(merged, pairs.drop_first())
    }
}

/// `ns` with the array items merged in, the first one named by `index`.
pub open spec fn merge_items_model(ns: Seq<TreeModel>, items: Seq<JsonValue>, index: nat) -> Seq<TreeModel>
    decreases items, 1nat,
{
    if items.len() == 0 {
        ns
    } else {
        let fc = find_or_create_model(ns, crate::text::decimal(index));
        let merged = fc.0.update(fc.1, merge_json_model(fc.0[fc.1], items[0]));
        merge_items_model(merged, items.drop_first(), index + 1)
    }
}

fn json_scalar_string(j: &JsonValue) -> (r: String)
    ensures
        r@ == json_scalar_text(*j),
{
    match j {
        JsonValue::Str(s) => s.clone(),
        JsonValue::Null => String::new(),
        JsonValue::Bool(b) => if *b { "true".to_owned() } else { "false".to_owned() },
        JsonValue::Number(t) => t.clone(),
        _ => String::new(),
    }
}

proof fn lemma_nodes_model_update(s: Seq<GnmiNode>, i: int, n: GnmiNode)
    requires
        0 <= i < s.len(),
    ensures
        nodes_model(s.update(i, n)) == nodes_model(s).update(i, node_model(n)),
{
    lemma_nodes_model(s);
    lemma_nodes_model(s.update(i, n));
    assert(nodes_model(s.update(i, n)) =~= nodes_model(s).update(i, node_model(n)));
}

/// Merges a JSON value into `node`'s subtree (see `merge_json_model`): a Get
/// against a container very often comes back JSON-encoded, and its members
/// become browsable child nodes rather than one opaque value.
pub fn merge_json(node: &mut GnmiNode, value: &JsonValue)
    ensures
        node_model(*final(node)) == merge_json_model(node_model(*old(node)), *value),
    decreases value,
{
    match value {
        JsonValue::Object(pairs) => {
            let ghost all = pairs@;
            let mut k: usize = 0;
            assert(all.skip(0) =~= all);
            while k < pairs.len()
                invariant
                    all == pairs@,
                    *value == JsonValue::Object(*pairs),
                    k <= all.len(),
                    node.name == old(node).name,
                    node.value == old(node).value,
                    merge_pairs_model(nodes_model(old(node).children@), all)
                        == merge_pairs_model(nodes_model(node.children@), all.skip(k as int)),
                decreases all.len() - k,
            {
                let ghost before = nodes_model(node.children@);
                let i = find_or_create(&mut node.children, pairs[k].0.as_str());
                let ghost mid = node.children@;
                proof { lemma_nodes_model(mid); }
                assert(decreases_to!(*value => (*value)->Object_0));
                assert(decreases_to!(*pairs => pairs@));
                assert(decreases_to!(pairs@ => pairs@[k as int]));
                assert(decreases_to!(pairs@[k as int] => pairs@[k as int].1));
                merge_json(&mut node.children[i], &pairs[k].1);
                proof {
                    lemma_nodes_model_update(mid, i as int, node.children@[i as int]);
                    assert(node.children@ == mid.update(i as int, node.children@[i as int]));
                    assert(all.skip(k as int)[0] == pairs@[k as int]);
                    assert(all.skip(k as int).drop_first() =~= all.skip(k as int + 1));
                }
                k = k + 1;
            }
            proof {
                assert(all.skip(k as int).len() == 0);
            }
        },
        JsonValue::Array(items) => {
            let ghost all = items@;
            let mut k: usize = 0;
            assert(all.skip(0) =~= all);
            while k < items.len()
                invariant
                    all == items@,
                    *value == JsonValue::Array(*items),
                    k <= all.len(),
                    node.name == old(node).name,
                    node.value == old(node).value,
                    merge_items_model(nodes_model(old(node).children@), all, 0)
                        == merge_items_model(nodes_model(node.children@), all.skip(k as int), k as nat),
                decreases all.len() - k,
            {
                let digits = crate::text::decimal_chars(k as u128);
                let label = string_of(digits.as_slice());
                let i = find_or_create(&mut node.children, label.as_str());
                let ghost mid = node.children@;
                proof { lemma_nodes_model(mid); }
                assert(decreases_to!(*value => (*value)->Array_0));
                assert(decreases_to!(*items => items@));
                assert(decreases_to!(items@ => items@[k as int]));
                merge_json(&mut node.children[i], &items[k]);
                proof {
                    lemma_nodes_model_update(mid, i as int, node.children@[i as int]);
                    assert(node.children@ == mid.update(i as int, node.children@[i as int]));
                    assert(all.skip(k as int)[0] == items@[k as int]);
                    assert(all.skip(k as int).drop_first() =~= all.skip(k as int + 1));
                }
                k = k + 1;
            }
            proof {
                assert(all.skip(k as int).len() == 0);
            }
        },
        _ => {
            node.value = Some(json_scalar_string(value));
        },
    }
}

/// A leaf value of a Get response (gNMI `TypedValue`). Floating-point values
/// arrive already written out as text; JSON-encoded values arrive parsed,
/// or as `None` when they are not valid JSON.
pub enum TypedValue {
    Empty,
    StringVal(String),
    IntVal(i64),
    UintVal(u64),
    BoolVal(bool),
    BytesVal(Vec<u8>),
    FloatText(String),
    DecimalVal(i64, u32),
    LeaflistVal(Vec<TypedValue>),
    AnyVal,
    AsciiVal(String),
    ProtoBytes(Vec<u8>),
    JsonVal(Option<JsonValue>),
    JsonIetfVal(Option<JsonValue>),
}

/// The lowercase hexadecimal digit for `d < 16`.
pub open spec fn hex_digit(d: nat) -> char {
    if d < 10 {
        ((d + 48) as u8) as char
    } else {
        ((d + 87) as u8) as char
    }
}

/// Each byte as two lowercase hexadecimal digits, concatenated.
pub open spec fn hex_text(b: Seq<u8>) -> Seq<char>
    decreases b.len(),
{
    if b.len() == 0 {
        Seq::empty()
    } else {
        hex_text(b.drop_last()).push(hex_digit((b.last() / 16) as nat)).push(hex_digit((b.last() % 16) as nat))
    }
}

/// Decimal rendering of a signed integer.
pub open spec fn signed_decimal(n: int) -> Seq<char> {
    if n < 0 {
        seq!['-'] + crate::text::decimal((-n) as nat)
    } else {
        crate::text::decimal(n as nat)
    }
}

/// The text shown for a non-JSON leaf value.
pub open spec fn typed_text(v: TypedValue) -> Seq<char>
    decreases v, 0nat,
{
    match v {
        TypedValue::StringVal(s) => s@,
        TypedValue::IntVal(n) => signed_decimal(n as int),
        TypedValue::UintVal(n) => crate::text::decimal(n as nat),
        TypedValue::BoolVal(b) => if b { "true"@ } else { "false"@ },
        TypedValue::BytesVal(b) => hex_text(b@),
        TypedValue::FloatText(t) => t@,
        TypedValue::DecimalVal(digits, precision) => signed_decimal(digits as int) + "e-"@ + crate::text::decimal(precision as nat),
        TypedValue::LeaflistVal(items) => joined_text(items@),
        TypedValue::AnyVal => "(protobuf Any value)"@,
        TypedValue::AsciiVal(s) => s@,
        TypedValue::ProtoBytes(b) => hex_text(b@),
        _ => Seq::empty(),
    }
}

/// The texts of `items` separated by `", "`.
pub open spec fn joined_text(items: Seq<TypedValue>) -> Seq<char>
    decreases items, 1nat,
{
    if items.len() == 0 {
        Seq::empty()
    } else if items.len() == 1 {
        typed_text(items[0])
    } else {
        typed_text(items[0]) + ", "@ + joined_text(items.drop_first())
    }
}

pub fn hex_digit_char(d: u8) -> (r: char)
    requires
        d < 16,
    ensures
        r == hex_digit(d as nat),
{
    if d < 10 {
        (d + 48) as char
    } else {
        (d + 87) as char
    }
}

/// Appends the hexadecimal form of `b` to `out`.
pub fn push_hex(out: &mut Vec<char>, b: &[u8])
    ensures
        final(out)@ == old(out)@ + hex_text(b@),
{
    let mut i: usize = 0;
    while i < b.len()
        invariant
            i <= b@.len(),
            out@ == old(out)@ + hex_text(b@.take(i as int)),
        decreases b@.len() - i,
    {
        out.push(hex_digit_char(b[i] / 16));
        out.push(hex_digit_char(b[i] % 16));
        proof {
            let t = b@.take(i as int + 1);
            assert(t.drop_last() =~= b@.take(i as int));
            assert(t.last() == b@[i as int]);
        }
        i = i + 1;
        assert(out@ =~= old(out)@ + hex_text(b@.take(i as int)));
    }
    assert(b@.take(b@.len() as int) =~= b@);
}

/// Appends the decimal form of a signed integer to `out`.
pub fn push_signed(out: &mut Vec<char>, n: i64)
    ensures
        final(out)@ == old(out)@ + signed_decimal(n as int),
{
    if n < 0 {
        out.push('-');
        let m: i128 = -(n as i128);
        let d = crate::text::decimal_chars(m as u128);
        push_chars(out, d.as_slice());
    } else {
        let d = crate::text::decimal_chars(n as u128);
        push_chars(out, d.as_slice());
    }
    assert(final(out)@ =~= old(out)@ + signed_decimal(n as int)) by {
        if n < 0 {
            assert(seq!['-'] + crate::text::decimal((-n) as nat) =~= seq!['-'] + crate::text::decimal((-(n as int)) as nat));
        }
    }
}

/// Appends the text of a non-JSON leaf value to `out`.
fn push_typed(out: &mut Vec<char>, v: &TypedValue)
    ensures
        final(out)@ == old(out)@ + typed_text(*v),
    decreases v,
{
    match v {
        TypedValue::StringVal(s) => push_str(out, s.as_str()),
        TypedValue::IntVal(n) => push_signed(out, *n),
        TypedValue::UintVal(n) => {
            let d = crate::text::decimal_chars(*n as u128);
            push_chars(out, d.as_slice());
        },
        TypedValue::BoolVal(b) => if *b { push_str(out, "true") } else { push_str(out, "false") },
        TypedValue::BytesVal(b) => push_hex(out, b.as_slice()),
        TypedValue::FloatText(t) => push_str(out, t.as_str()),
        TypedValue::DecimalVal(digits, precision) => {
            push_signed(out, *digits);
            push_str(out, "e-");
            let d = crate::text::decimal_chars(*precision as u128);
            push_chars(out, d.as_slice());
        },
        TypedValue::LeaflistVal(items) => {
            let ghost all = items@;
            let mut k: usize = 0;
            assert(joined_text(all.take(0)) =~= Seq::<char>::empty()) by {
                assert(all.take(0).len() == 0);
            }
            assert(out@ =~= old(out)@ + joined_text(all.take(0)));
            while k < items.len()
                invariant
                    all == items@,
                    *v == TypedValue::LeaflistVal(*items),
                    k <= all.len(),
                    out@ == old(out)@ + joined_text(all.take(k as int)),
                decreases all.len() - k,
            {
                assert(decreases_to!(*v => (*v)->LeaflistVal_0));
                assert(decreases_to!(*items => items@));
                assert(decreases_to!(items@ => items@[k as int]));
                let ghost before = out@;
                if k > 0 {
                    push_str(out, ", ");
                }
                push_typed(out, &items[k]);
                proof {
                    assert(all.take(k as int + 1) =~= all.take(k as int).push(all[k as int]));
                    lemma_joined_push(all.take(k as int), all[k as int]);
                    assert(out@ =~= old(out)@ + joined_text(all.take(k as int + 1)));
                }
                k = k + 1;
            }
            assert(all.take(k as int) =~= all);
        },
        TypedValue::AnyVal => push_str(out, "(protobuf Any value)"),
        TypedValue::AsciiVal(s) => push_str(out, s.as_str()),
        TypedValue::ProtoBytes(b) => push_hex(out, b.as_slice()),
        _ => {
            assert(old(out)@ + typed_text(*v) =~= old(out)@);
        },
    }
}

proof fn lemma_joined_push(s: Seq<TypedValue>, x: TypedValue)
    ensures
        joined_text(s.push(x)) == if s.len() == 0 {
            typed_text(x)
        } else {
            joined_text(s) + ", "@ + typed_text(x)
        },
    decreases s.len(),
{
    if s.len() > 0 {
        assert(s.push(x)[0] == s[0]);
        assert(s.push(x).drop_first() =~= s.drop_first().push(x));
        lemma_joined_push(s.drop_first(), x);
        if s.len() == 1 {
            assert(s.drop_first().len() == 0);
        } else {
            assert(joined_text(s) == typed_text(s[0]) + ", "@ + joined_text(s.drop_first()));
        }
    } else {
        assert(s.push(x) =~= seq![x]);
    }
}

/// The text of a leaf value (gNMI `TypedValue`), as shown in the result tree.
pub fn format_scalar_typed_value(v: &TypedValue) -> (r: String)
    ensures
        r@ == typed_text(*v),
{
    let mut out: Vec<char> = Vec::new();
    push_typed(&mut out, v);
    assert(out@ =~= typed_text(*v));
    string_of(out.as_slice())
}

/// `n` with an update's value attached: a parsed JSON value is merged into
/// its subtree, any other value becomes its text; no value leaves it as is.
pub open spec fn attach_model(n: TreeModel, val: Option<TypedValue>) -> TreeModel {
    match val {
        None => n,
        Some(TypedValue::JsonVal(Some(j))) => merge_json_model(n, j),
        Some(TypedValue::JsonIetfVal(Some(j))) => merge_json_model(n, j),
        Some(v) => TreeModel { value: Some(typed_text(v)), ..n },
    }
}

/// Attaches an update's value to its already located node.
pub fn attach_value(node: &mut GnmiNode, val: Option<&TypedValue>)
    ensures
        node_model(*final(node)) == attach_model(node_model(*old(node)), match val {
            Some(v) => Some(*v),
            None => None,
        }),
{
    match val {
        None => {},
        Some(v) => match v {
            TypedValue::JsonVal(Some(j)) => merge_json(node, j),
            TypedValue::JsonIetfVal(Some(j)) => merge_json(node, j),
            _ => {
                node.value = Some(format_scalar_typed_value(v));
            },
        },
    }
}

/// `ns` with a value attached at the path `names` (each element found or
/// created in turn).
pub open spec fn insert_model(ns: Seq<TreeModel>, names: Seq<Seq<char>>, val: Option<TypedValue>) -> Seq<TreeModel>
    decreases names.len(),
{
    if names.len() == 0 {
        ns
    } else {
        let fc = find_or_create_model(ns, names[0]);
        let child = fc.0[fc.1];
        let updated = if names.len() == 1 {
            attach_model(child, val)
        } else {
            TreeModel { children: insert_model(child.children, names.drop_first(), val), ..child }
        };
        fc.0.update(fc.1, updated)
    }
}

proof fn lemma_find_or_create_in_bounds(ns: Seq<TreeModel>, name: Seq<char>)
    ensures
        0 <= find_or_create_model(ns, name).1 < find_or_create_model(ns, name).0.len(),
{
    lemma_named_from(ns, name, 0);
}

fn insert_names(nodes: &mut Vec<GnmiNode>, names: &Vec<String>, from: usize, val: Option<&TypedValue>)
    requires
        from <= names@.len(),
    ensures
        nodes_model(final(nodes)@) == insert_model(
            nodes_model(old(nodes)@),
            crate::text::string_views(names@).skip(from as int),
            match val {
                Some(v) => Some(*v),
                None => None,
            },
        ),
    decreases names@.len() - from,
{
    let ghost vv = match val {
        Some(v) => Some(*v),
        None => None,
    };
    let ghost ns = crate::text::string_views(names@).skip(from as int);
    if from == names.len() {
        assert(ns.len() == 0);
        return;
    }
    assert(ns[0] == names@[from as int]@);
    let i = find_or_create(nodes, names[from].as_str());
    let ghost mid = nodes@;
    proof {
        lemma_nodes_model(mid);
        lemma_find_or_create_in_bounds(nodes_model(old(nodes)@), ns[0]);
    }
    if from + 1 == names.len() {
        attach_value(&mut nodes[i], val);
    } else {
        let child = &mut nodes[i];
        insert_names(&mut child.children, names, from + 1, val);
        proof {
            assert(crate::text::string_views(names@).skip(from as int + 1) =~= ns.drop_first());
        }
    }
    proof {
        lemma_nodes_model_update(mid, i as int, nodes@[i as int]);
        assert(nodes@ == mid.update(i as int, nodes@[i as int]));
    }
}

/// The rendered names of a sequence of path elements.
pub open spec fn elem_names(es: Seq<PathElem>) -> Seq<Seq<char>> {
    es.map_values(|e: PathElem| render_elem_text(e@))
}

/// Locates (creating as needed) the node at path `elems` and attaches `val`
/// to it; an empty path changes nothing.
pub fn insert_update(nodes: &mut Vec<GnmiNode>, elems: &[PathElem], val: Option<&TypedValue>)
    ensures
        nodes_model(final(nodes)@) == insert_model(nodes_model(old(nodes)@), elem_names(elems@), match val {
            Some(v) => Some(*v),
            None => None,
        }),
{
    let mut names: Vec<String> = Vec::new();
    let mut k: usize = 0;
    while k < elems.len()
        invariant
            k <= elems@.len(),
            crate::text::string_views(names@) == elem_names(elems@.take(k as int)),
        decreases elems@.len() - k,
    {
        let ghost before = names@;
        names.push(render_elem(&elems[k]));
        proof {
            assert(elems@.take(k as int + 1) =~= elems@.take(k as int).push(elems@[k as int]));
            assert(crate::text::string_views(names@) =~= crate::text::string_views(before).push(render_elem_text(elems@[k as int]@)));
            assert(elem_names(elems@.take(k as int + 1)) =~= elem_names(elems@.take(k as int)).push(render_elem_text(elems@[k as int]@)));
        }
        k = k + 1;
    }
    assert(elems@.take(k as int) =~= elems@);
    assert(crate::text::string_views(names@).skip(0) =~= elem_names(elems@));
    insert_names(nodes, &names, 0, val);
}

/// One update of a notification: a path relative to the notification's
/// prefix, and its value if any.
pub struct Update {
    pub path: Vec<PathElem>,
    pub val: Option<TypedValue>,
}

/// One notification of a Get response: a path prefix shared by its updates.
pub struct Notification {
    pub prefix: Vec<PathElem>,
    pub update: Vec<Update>,
}

/// `ns` with the updates applied in order under `prefix`; an update whose
/// full path is empty is skipped.
pub open spec fn apply_updates(ns: Seq<TreeModel>, prefix: Seq<PathElem>, ups: Seq<Update>) -> Seq<TreeModel>
    decreases ups.len(),
{
    if ups.len() == 0 {
        ns
    } else {
        let u = ups[0];
        let next = if prefix.len() == 0 && u.path@.len() == 0 {
            ns
        } else {
            insert_model(ns, elem_names(prefix + u.path@), u.val)
        };
        apply_updates(next, prefix, ups.drop_first())
    }
}

/// `ns` with every notification's updates applied in order.
pub open spec fn apply_notifications(ns: Seq<TreeModel>, notifs: Seq<Notification>) -> Seq<TreeModel>
    decreases notifs.len(),
{
    if notifs.len() == 0 {
        ns
    } else {
        apply_notifications(apply_updates(ns, notifs[0].prefix@, notifs[0].update@), notifs.drop_first())
    }
}

fn concat_elems(a: &Vec<PathElem>, b: &Vec<PathElem>) -> (r: Vec<PathElem>)
    ensures
        r@.len() == a@.len() + b@.len(),
        forall|i: int| 0 <= i < r@.len() ==> #[trigger] r@[i]@ == (a@ + b@)[i]@,
{
    let mut out: Vec<PathElem> = Vec::new();
    let mut i: usize = 0;
    while i < a.len()
        invariant
            i <= a@.len(),
            out@.len() == i,
            forall|j: int| 0 <= j < i ==> #[trigger] out@[j]@ == a@[j]@,
        decreases a@.len() - i,
    {
        out.push(a[i].copy());
        i = i + 1;
    }
    let mut k: usize = 0;
    while k < b.len()
        invariant
            k <= b@.len(),
            out@.len() == a@.len() + k,
            forall|j: int| 0 <= j < a@.len() ==> #[trigger] out@[j]@ == a@[j]@,
            forall|j: int| 0 <= j < k ==> #[trigger] out@[a@.len() + j]@ == b@[j]@,
        decreases b@.len() - k,
    {
        out.push(b[k].copy());
        k = k + 1;
    }
    assert forall|i: int| 0 <= i < out@.len() implies #[trigger] out@[i]@ == (a@ + b@)[i]@ by {
        if i >= a@.len() {
            assert(out@[a@.len() + (i - a@.len())]@ == b@[i - a@.len()]@);
        }
    }
    out
}

impl PathElem {
    /// A copy with the same name and keys.
    pub fn copy(&self) -> (r: PathElem)
        ensures
            r@ == self@,
    {
        let mut key: Vec<(String, String)> = Vec::new();
        let mut i: usize = 0;
        while i < self.key.len()
            invariant
                i <= self.key@.len(),
                keys_view(key@) =~= keys_view(self.key@).take(i as int),
            decreases self.key@.len() - i,
        {
            let k = self.key[i].0.clone();
            let v = self.key[i].1.clone();
            let ghost before = key@;
            key.push((k, v));
            proof {
                assert(key@ =~= before.push((k, v)));
                assert(keys_view(key@) =~= keys_view(before).push((k@, v@)));
                assert(keys_view(self.key@).take(i + 1) =~= keys_view(self.key@).take(i as int).push(keys_view(self.key@)[i as int]));
            }
            i = i + 1;
        }
        PathElem { name: self.name.clone(), key }
    }
}

proof fn lemma_elem_names_ext(a: Seq<PathElem>, b: Seq<PathElem>)
    requires
        a.len() == b.len(),
        forall|i: int| 0 <= i < a.len() ==> #[trigger] a[i]@ == b[i]@,
    ensures
        elem_names(a) == elem_names(b),
{
    assert(elem_names(a) =~= elem_names(b));
}

/// Assembles a Get response's notifications into a result tree: every
/// update's value is attached at its full path (prefix plus update path).
pub fn build_result_tree(notifs: &Vec<Notification>) -> (r: Vec<GnmiNode>)
    ensures
        nodes_model(r@) == apply_notifications(Seq::empty(), notifs@),
{
    let mut roots: Vec<GnmiNode> = Vec::new();
    let mut n: usize = 0;
    assert(nodes_model(roots@) =~= Seq::<TreeModel>::empty());
    assert(notifs@.skip(0) =~= notifs@);
    while n < notifs.len()
        invariant
            n <= notifs@.len(),
            apply_notifications(Seq::empty(), notifs@) == apply_notifications(nodes_model(roots@), notifs@.skip(n as int)),
        decreases notifs@.len() - n,
    {
        let notif = &notifs[n];
        let ghost start = nodes_model(roots@);
        let mut u: usize = 0;
        assert(notif.update@.skip(0) =~= notif.update@);
        while u < notif.update.len()
            invariant
                u <= notif.update@.len(),
                apply_updates(start, notif.prefix@, notif.update@)
                    == apply_updates(nodes_model(roots@), notif.prefix@, notif.update@.skip(u as int)),
            decreases notif.update@.len() - u,
        {
            let up = &notif.update[u];
            proof {
                assert(notif.update@.skip(u as int)[0] == *up);
                assert(notif.update@.skip(u as int).drop_first() =~= notif.update@.skip(u as int + 1));
            }
            if !(notif.prefix.len() == 0 && up.path.len() == 0) {
                let full = concat_elems(&notif.prefix, &up.path);
                proof { lemma_elem_names_ext(full@, notif.prefix@ + up.path@); }
                insert_update(&mut roots, full.as_slice(), up.val.as_ref());
            }
            u = u + 1;
        }
        proof {
            assert(notif.update@.skip(u as int).len() == 0);
            assert(notifs@.skip(n as int)[0] == *notif);
            assert(notifs@.skip(n as int).drop_first() =~= notifs@.skip(n as int + 1));
        }
        n = n + 1;
    }
    assert(notifs@.skip(n as int).len() == 0);
    roots
}

/// Ordering the keys by name keeps each key/value pair, and keeps each key
/// once when it came once: rendering lists every pair of an element one
/// time.
pub proof fn lemma_sort_by_key_perm(ks: Seq<(Seq<char>, Seq<char>)>)
    ensures
        sort_by_key(ks).len() == ks.len(),
        forall|y: (Seq<char>, Seq<char>)| sort_by_key(ks).contains(y) <==> ks.contains(y),
        keys_unique(ks) ==> keys_unique(sort_by_key(ks)),
    decreases ks.len(),
{
    if ks.len() > 0 {
        let d = ks.drop_last();
        let x = ks.last();
        let srt = sort_by_key(d);
        lemma_sort_by_key_perm(d);
        lemma_insert_by_key(srt, x);
        let p = insert_point(srt, x, 0);
        let out = srt.insert(p, x);
        assert forall|y: (Seq<char>, Seq<char>)| out.contains(y) <==> ks.contains(y) by {
            if out.contains(y) {
                let j = choose|j: int| 0 <= j < out.len() && out[j] == y;
                if j < p {
                    assert(srt.contains(y) && out[j] == srt[j]);
                    assert(d.contains(y));
                    let w = choose|w: int| 0 <= w < d.len() && d[w] == y;
                    assert(ks[w] == y);
                } else if j == p {
                    assert(ks[ks.len() - 1] == y);
                } else {
                    assert(out[j] == srt[j - 1]);
                    assert(srt.contains(y));
                    assert(d.contains(y));
                    let w = choose|w: int| 0 <= w < d.len() && d[w] == y;
                    assert(ks[w] == y);
                }
            }
            if ks.contains(y) {
                let w = choose|w: int| 0 <= w < ks.len() && ks[w] == y;
                if w == ks.len() - 1 {
                    assert(out[p] == y);
                } else {
                    assert(d[w] == y);
                    assert(d.contains(y));
                    assert(srt.contains(y));
                    let j = choose|j: int| 0 <= j < srt.len() && srt[j] == y;
                    if j < p {
                        assert(out[j] == y);
                    } else {
                        assert(out[j + 1] == y);
                    }
                }
            }
        }
        if keys_unique(ks) {
            assert(keys_unique(d)) by {
                assert forall|i: int, j: int| 0 <= i < d.len() && 0 <= j < d.len() && i != j implies d[i].0 != d[j].0 by {
                    assert(d[i] == ks[i] && d[j] == ks[j]);
                }
            }
            assert forall|j: int| 0 <= j < srt.len() implies srt[j].0 != x.0 by {
                assert(srt.contains(srt[j]));
                assert(d.contains(srt[j]));
                let w = choose|w: int| 0 <= w < d.len() && d[w] == srt[j];
                assert(ks[w] == d[w]);
                assert(w != ks.len() - 1);
            }
            assert forall|i: int, j: int| 0 <= i < out.len() && 0 <= j < out.len() && i != j implies out[i].0 != out[j].0 by {
                if i == p {
                    if j < p { assert(out[j] == srt[j]); } else { assert(out[j] == srt[j - 1]); }
                } else if j == p {
                    if i < p { assert(out[i] == srt[i]); } else { assert(out[i] == srt[i - 1]); }
                } else {
                    let ii = if i < p { i } else { i - 1 };
                    let jj = if j < p { j } else { j - 1 };
                    assert(out[i] == srt[ii] && out[j] == srt[jj]);
                }
            }
        }
    }
}

proof fn lemma_predicates_append(a: Seq<(Seq<char>, Seq<char>)>, b: Seq<(Seq<char>, Seq<char>)>)
    ensures
        predicates_text(a + b) == predicates_text(a) + predicates_text(b),
    decreases b.len(),
{
    if b.len() == 0 {
        assert(a + b =~= a);
        assert(predicates_text(a) + Seq::<char>::empty() =~= predicates_text(a));
    } else {
        lemma_predicates_append(a, b.drop_last());
        assert((a + b).drop_last() =~= a + b.drop_last());
        assert((a + b).last() == b.last());
        assert(predicates_text(a) + predicates_text(b.drop_last()) + predicate_text(b.last())
            =~= predicates_text(a) + (predicates_text(b.drop_last()) + predicate_text(b.last())));
    }
}

proof fn lemma_predicates_one(x: (Seq<char>, Seq<char>))
    ensures
        predicates_text(seq![x]) == predicate_text(x),
{
    let one = seq![x];
    assert(one.drop_last() =~= Seq::<(Seq<char>, Seq<char>)>::empty());
    assert(one.last() == x);
    assert(predicates_text(one.drop_last()) == Seq::<char>::empty());
    assert(predicates_text(one) == predicates_text(one.drop_last()) + predicate_text(one.last()));
    assert(Seq::<char>::empty() + predicate_text(x) =~= predicate_text(x));
}

/// A character the path syntax gives no meaning to inside a predicate.
pub open spec fn value_char(c: char) -> bool {
    c != '[' && c != ']' && c != '\'' && c != '"'
}


/// An element that reads back as itself: not empty; its name is
/// `name_readable` (no `[`, no `/` or `]` outside quotes, quotes closed);
/// its keys hold no bracket, quote or `=`; no value holds both kinds of
/// quote; and each key comes at most once.
pub open spec fn renderable(e: (Seq<char>, Seq<(Seq<char>, Seq<char>)>)) -> bool {
    &&& e.0.len() > 0 || e.1.len() > 0
    &&& name_readable(e.0, 0, None)
    &&& keys_unique(e.1)
    &&& forall|j: int| 0 <= j < e.1.len() ==> clean_pair(#[trigger] e.1[j])
}

/// A key with no bracket, quote or `=`, and a value that does not hold
/// both kinds of quote (which no quoting can carry).
pub open spec fn clean_pair(kv: (Seq<char>, Seq<char>)) -> bool {
    &&& forall|i: int| 0 <= i < kv.0.len() ==> value_char(#[trigger] kv.0[i]) && kv.0[i] != '='
    &&& !(kv.1.contains('\'') && kv.1.contains('"'))
}

proof fn lemma_split_skip(s: Seq<char>, i: int, j: int, start: int, opens: int, closes: int)
    requires
        0 <= i <= j <= s.len(),
        forall|t: int| i <= t < j ==> value_char(#[trigger] s[t]) && (s[t] == '/' ==> opens != closes),
    ensures
        split_from(s, i, start, opens, closes, None) == split_from(s, j, start, opens, closes, None),
    decreases j - i,
{
    if i < j {
        lemma_split_skip(s, i + 1, j, start, opens, closes);
    }
}

/// The quote a value is written between, when it needs one.
pub open spec fn value_quote(v: Seq<char>) -> Option<char> {
    if plain_value(v) {
        None
    } else if !v.contains('\'') {
        Some('\'')
    } else {
        Some('"')
    }
}

proof fn lemma_quoted_value_shape(v: Seq<char>)
    requires
        !(v.contains('\'') && v.contains('"')),
    ensures
        value_quote(v) is None ==> quoted_value(v) == v && plain_value(v),
        value_quote(v) matches Some(c) ==> {
            &&& c == '\'' || c == '"'
            &&& quoted_value(v) == seq![c] + v + seq![c]
            &&& forall|t: int| 0 <= t < v.len() ==> #[trigger] v[t] != c
        },
        unquoted(quoted_value(v)) == v,
{
    match value_quote(v) {
        None => {
            if v.len() >= 2 {
                assert(value_char(v[0]));
            }
        },
        Some(c) => {
            let w = seq![c] + v + seq![c];
            assert forall|t: int| 0 <= t < v.len() implies #[trigger] v[t] != c by {
                if v[t] == c {
                    assert(v.contains(v[t]));
                }
            }
            assert(w[0] == c);
            assert(w.last() == c);
            assert(w.subrange(1, w.len() - 1) =~= v);
        },
    }
}

proof fn lemma_split_in_quote(s: Seq<char>, t: int, j: int, start: int, opens: int, closes: int, c: char)
    requires
        0 <= t <= j < s.len(),
        forall|u: int| t <= u < j ==> #[trigger] s[u] != c,
        s[j] == c,
    ensures
        split_from(s, t, start, opens, closes, Some(c)) == split_from(s, j + 1, start, opens, closes, None),
    decreases j - t,
{
    if t < j {
        lemma_split_in_quote(s, t + 1, j, start, opens, closes, c);
    }
}

proof fn lemma_closing_in_quote(s: Seq<char>, t: int, j: int, c: char)
    requires
        0 <= t <= j < s.len(),
        forall|u: int| t <= u < j ==> #[trigger] s[u] != c,
        s[j] == c,
    ensures
        closing_bracket(s, t, Some(c)) == closing_bracket(s, j + 1, None),
    decreases j - t,
{
    if t < j {
        lemma_closing_in_quote(s, t + 1, j, c);
    }
}

proof fn lemma_closing_skip(s: Seq<char>, i: int, j: int)
    requires
        0 <= i <= j <= s.len(),
        forall|t: int| i <= t < j ==> value_char(#[trigger] s[t]),
    ensures
        closing_bracket(s, i, None) == closing_bracket(s, j, None),
    decreases j - i,
{
    if i < j {
        lemma_closing_skip(s, i + 1, j);
    }
}

/// Where the parts of a predicate written at `p` of `s` stand: its value
/// starts at `a` and its closing bracket is at `q`.
proof fn lemma_predicate_layout(s: Seq<char>, p: int, x: (Seq<char>, Seq<char>))
    requires
        0 <= p,
        p + predicate_text(x).len() <= s.len(),
        forall|t: int| 0 <= t < predicate_text(x).len() ==> s[p + t] == #[trigger] predicate_text(x)[t],
        clean_pair(x),
    ensures
        s[p] == '[',
        forall|t: int| p + 1 <= t < p + 2 + x.0.len() ==> value_char(#[trigger] s[t]),
        s[p + predicate_text(x).len() - 1] == ']',
        forall|t: int| 0 <= t < quoted_value(x.1).len() ==> s[p + 2 + x.0.len() + t] == #[trigger] quoted_value(x.1)[t],
        predicate_text(x).len() == x.0.len() + quoted_value(x.1).len() + 3,
{
    let one = predicate_text(x);
    let k = x.0;
    let w = quoted_value(x.1);
    assert(one[0] == '[');
    assert(s[p] == one[0]);
    assert forall|t: int| p + 1 <= t < p + 2 + k.len() implies value_char(#[trigger] s[t]) by {
        let u = t - p;
        assert(s[p + u] == one[u]);
        if u <= k.len() {
            assert(one[u] == k[u - 1]);
        } else {
            assert(one[u] == '=');
        }
    }
    assert(s[p + one.len() - 1] == one[one.len() - 1]);
    assert forall|t: int| 0 <= t < w.len() implies s[p + 2 + k.len() + t] == #[trigger] w[t] by {
        assert(s[p + (2 + k.len() + t)] == one[2 + k.len() + t]);
    }
}

proof fn lemma_split_one(s: Seq<char>, p: int, x: (Seq<char>, Seq<char>), opens: int)
    requires
        1 <= p,
        p + predicate_text(x).len() <= s.len(),
        forall|t: int| 0 <= t < predicate_text(x).len() ==> s[p + t] == #[trigger] predicate_text(x)[t],
        clean_pair(x),
    ensures
        split_from(s, p, 1, opens, opens, None)
            == split_from(s, p + predicate_text(x).len(), 1, opens + 1, opens + 1, None),
{
    lemma_predicate_layout(s, p, x);
    lemma_quoted_value_shape(x.1);
    let v = x.1;
    let w = quoted_value(v);
    let a = p + 2 + x.0.len();
    let q = a + w.len();
    assert(split_from(s, p, 1, opens, opens, None) == split_from(s, p + 1, 1, opens + 1, opens, None));
    lemma_split_skip(s, p + 1, a, 1, opens + 1, opens);
    match value_quote(v) {
        None => {
            assert forall|t: int| a <= t < q implies value_char(#[trigger] s[t]) && (s[t] == '/' ==> opens + 1 != opens) by {
                assert(s[a + (t - a)] == w[t - a]);
            }
            lemma_split_skip(s, a, q, 1, opens + 1, opens);
        },
        Some(c) => {
            assert(s[a + 0] == w[0]);
            assert(split_from(s, a, 1, opens + 1, opens, None) == split_from(s, a + 1, 1, opens + 1, opens, Some(c)));
            assert forall|u: int| a + 1 <= u < q - 1 implies #[trigger] s[u] != c by {
                assert(s[a + (u - a)] == w[u - a]);
                assert(w[u - a] == v[u - a - 1]);
            }
            assert(s[a + (w.len() - 1)] == w[w.len() - 1]);
            lemma_split_in_quote(s, a + 1, q - 1, 1, opens + 1, opens, c);
        },
    }
    assert(split_from(s, q, 1, opens + 1, opens, None) == split_from(s, q + 1, 1, opens + 1, opens + 1, None));
}

proof fn lemma_closing_one(s: Seq<char>, p: int, x: (Seq<char>, Seq<char>))
    requires
        0 <= p,
        p + predicate_text(x).len() <= s.len(),
        forall|t: int| 0 <= t < predicate_text(x).len() ==> s[p + t] == #[trigger] predicate_text(x)[t],
        clean_pair(x),
    ensures
        s[p] == '[',
        closing_bracket(s, p + 1, None) == Some(p + predicate_text(x).len() - 1),
{
    lemma_predicate_layout(s, p, x);
    lemma_quoted_value_shape(x.1);
    let v = x.1;
    let w = quoted_value(v);
    let a = p + 2 + x.0.len();
    let q = a + w.len();
    lemma_closing_skip(s, p + 1, a);
    match value_quote(v) {
        None => {
            assert forall|t: int| a <= t < q implies value_char(#[trigger] s[t]) by {
                assert(s[a + (t - a)] == w[t - a]);
            }
            lemma_closing_skip(s, a, q);
        },
        Some(c) => {
            assert(s[a + 0] == w[0]);
            assert(closing_bracket(s, a, None) == closing_bracket(s, a + 1, Some(c)));
            assert forall|u: int| a + 1 <= u < q - 1 implies #[trigger] s[u] != c by {
                assert(s[a + (u - a)] == w[u - a]);
                assert(w[u - a] == v[u - a - 1]);
            }
            assert(s[a + (w.len() - 1)] == w[w.len() - 1]);
            lemma_closing_in_quote(s, a + 1, q - 1, c);
        },
    }
}

proof fn lemma_split_predicates(s: Seq<char>, base: int, ks: Seq<(Seq<char>, Seq<char>)>, m: int, opens: int)
    requires
        0 <= m <= ks.len(),
        1 <= base,
        s.len() == base + predicates_text(ks).len(),
        s.subrange(base, s.len() as int) == predicates_text(ks),
        forall|j: int| 0 <= j < ks.len() ==> clean_pair(#[trigger] ks[j]),
    ensures
        split_from(s, base + predicates_text(ks.take(m)).len(), 1, opens + m, opens + m, None)
            == split_from(s, s.len() as int, 1, opens + ks.len(), opens + ks.len(), None),
    decreases ks.len() - m,
{
    if m < ks.len() {
        let x = ks[m];
        let pre = predicates_text(ks.take(m));
        let one = predicate_text(x);
        lemma_predicates_one(x);
        lemma_predicates_append(ks.take(m), seq![x]);
        assert(ks.take(m + 1) =~= ks.take(m) + seq![x]);
        lemma_predicates_append(ks.take(m + 1), ks.skip(m + 1));
        assert(ks =~= ks.take(m + 1) + ks.skip(m + 1));
        let p = base + pre.len();
        assert forall|t: int| 0 <= t < one.len() implies s[p + t] == #[trigger] one[t] by {
            assert(s.subrange(base, s.len() as int)[pre.len() + t] == s[p + t]);
            assert(predicates_text(ks)[pre.len() + t] == (pre + one)[pre.len() + t]);
        }
        lemma_split_one(s, p, x, opens + m);
        assert(predicates_text(ks.take(m + 1)).len() == pre.len() + one.len());
        lemma_split_predicates(s, base, ks, m + 1, opens);
    } else {
        assert(ks.take(m) =~= ks);
    }
}

/// Whether an element name reads back as itself, from position `i` with
/// `quote` open: it holds no `[`, outside quotes no `/` or `]`, and it
/// leaves no quote open.
pub open spec fn name_readable(n: Seq<char>, i: int, quote: Option<char>) -> bool
    decreases n.len() - i,
{
    if i < 0 || i >= n.len() {
        quote is None
    } else if n[i] == '[' {
        false
    } else {
        match quote {
            Some(q) => name_readable(n, i + 1, if n[i] == q { None } else { quote }),
            None => n[i] != '/' && n[i] != ']' && name_readable(
                n,
                i + 1,
                if n[i] == '\'' || n[i] == '"' { Some(n[i]) } else { None },
            ),
        }
    }
}

proof fn lemma_name_no_bracket(n: Seq<char>, i: int, quote: Option<char>)
    requires
        0 <= i <= n.len(),
        name_readable(n, i, quote),
    ensures
        forall|t: int| i <= t < n.len() ==> #[trigger] n[t] != '[',
    decreases n.len() - i,
{
    if i < n.len() {
        match quote {
            Some(q) => lemma_name_no_bracket(n, i + 1, if n[i] == q { None } else { quote }),
            None => lemma_name_no_bracket(n, i + 1, if n[i] == '\'' || n[i] == '"' { Some(n[i]) } else { None }),
        }
    }
}

proof fn lemma_split_name(s: Seq<char>, base: int, n: Seq<char>, i: int, start: int, opens: int, quote: Option<char>)
    requires
        0 <= base,
        0 <= i <= n.len(),
        base + n.len() <= s.len(),
        forall|t: int| 0 <= t < n.len() ==> s[base + t] == #[trigger] n[t],
        name_readable(n, i, quote),
    ensures
        split_from(s, base + i, start, opens, opens, quote) == split_from(s, base + n.len(), start, opens, opens, None),
    decreases n.len() - i,
{
    if i < n.len() {
        assert(s[base + i] == n[i]);
        match quote {
            Some(q) => lemma_split_name(s, base, n, i + 1, start, opens, if n[i] == q { None } else { quote }),
            None => lemma_split_name(s, base, n, i + 1, start, opens, if n[i] == '\'' || n[i] == '"' { Some(n[i]) } else { None }),
        }
    }
}

proof fn lemma_split_rendered(e: (Seq<char>, Seq<(Seq<char>, Seq<char>)>), ks: Seq<(Seq<char>, Seq<char>)>)
    requires
        e.0.len() > 0 || ks.len() > 0,
        name_readable(e.0, 0, None),
        forall|j: int| 0 <= j < ks.len() ==> clean_pair(#[trigger] ks[j]),
    ensures
        path_elements(seq!['/'] + e.0 + predicates_text(ks)) == seq![e.0 + predicates_text(ks)],
{
    let r = e.0 + predicates_text(ks);
    let s = seq!['/'] + r;
    let base: int = 1 + e.0.len() as int;
    if ks.len() > 0 {
        lemma_predicates_append(ks.drop_last(), seq![ks.last()]);
        lemma_predicates_one(ks.last());
        assert(ks =~= ks.drop_last() + seq![ks.last()]);
        assert(predicate_text(ks.last()).len() > 0);
    }
    assert(r.len() > 0);
    assert(s[0] == '/');
    assert(split_from(s, 0, 0, 0, 0, None) == split_from(s, 1, 1, 0, 0, None));
    assert forall|t: int| 0 <= t < e.0.len() implies s[1 + t] == #[trigger] e.0[t] by {}
    lemma_split_name(s, 1, e.0, 0, 1, 0, None);
    assert(s.subrange(base, s.len() as int) =~= predicates_text(ks));
    lemma_split_predicates(s, base, ks, 0, 0);
    assert(ks.take(0) =~= Seq::<(Seq<char>, Seq<char>)>::empty());
    assert(predicates_text(ks.take(0)).len() == 0);
    assert(s.subrange(1, s.len() as int) =~= r);
    let n = ks.len() as int;
    assert(split_from(s, s.len() as int, 1, 0 + n, 0 + n, None) == seq![s.subrange(1, s.len() as int)]);
    assert(s =~= seq!['/'] + e.0 + predicates_text(ks));
}

proof fn lemma_next_index_run(s: Seq<char>, c: char, i: int, j: int)
    requires
        0 <= i <= j <= s.len(),
        forall|t: int| i <= t < j ==> #[trigger] s[t] != c,
        j == s.len() || s[j] == c,
    ensures
        next_index_of(s, c, i) == j,
    decreases j - i,
{
    if i < j {
        lemma_next_index_run(s, c, i + 1, j);
    }
}

proof fn lemma_closing_run(s: Seq<char>, i: int, j: int)
    requires
        0 <= i <= j < s.len(),
        forall|t: int| i <= t < j ==> value_char(#[trigger] s[t]),
        s[j] == ']',
    ensures
        closing_bracket(s, i, None) == Some(j),
    decreases j - i,
{
    if i < j {
        lemma_closing_run(s, i + 1, j);
    }
}

#[verifier::rlimit(40)]
proof fn lemma_parse_predicates(r: Seq<char>, base: int, name: Seq<char>, ks: Seq<(Seq<char>, Seq<char>)>, m: int)
    requires
        0 <= m <= ks.len(),
        0 <= base,
        r.len() == base + predicates_text(ks).len(),
        r.subrange(base, r.len() as int) == predicates_text(ks),
        keys_unique(ks),
        forall|j: int| 0 <= j < ks.len() ==> clean_pair(#[trigger] ks[j]),
    ensures
        parse_elem_from(r, base + predicates_text(ks.take(m)).len(), name, ks.take(m))
            == Ok::<(Seq<char>, Seq<(Seq<char>, Seq<char>)>), Seq<char>>((name, ks)),
    decreases ks.len() - m,
{
    if m < ks.len() {
        let x = ks[m];
        let pre = predicates_text(ks.take(m));
        let one = predicate_text(x);
        lemma_predicates_one(x);
        lemma_predicates_append(ks.take(m), seq![x]);
        assert(ks.take(m + 1) =~= ks.take(m) + seq![x]);
        lemma_predicates_append(ks.take(m + 1), ks.skip(m + 1));
        assert(ks =~= ks.take(m + 1) + ks.skip(m + 1));
        let p = base + pre.len();
        assert forall|t: int| 0 <= t < one.len() implies r[p + t] == #[trigger] one[t] by {
            assert(r.subrange(base, r.len() as int)[pre.len() + t] == r[p + t]);
            assert(predicates_text(ks)[pre.len() + t] == (pre + one)[pre.len() + t]);
        }
        let k = x.0;
        let v = x.1;
        let w = quoted_value(v);
        let q = p + one.len() - 1;
        lemma_closing_one(r, p, x);
        lemma_quoted_value_shape(v);
        let content = r.subrange(p + 1, q);
        assert(content =~= k + seq!['='] + w) by {
            assert forall|t: int| 0 <= t < content.len() implies content[t] == (k + seq!['='] + w)[t] by {
                assert(content[t] == r[p + 1 + t]);
                assert(r[p + 1 + t] == one[1 + t]);
            }
        }
        assert forall|t: int| 0 <= t < k.len() implies #[trigger] content[t] != '=' by {
            assert(content[t] == k[t]);
        }
        lemma_next_index_run(content, '=', 0, k.len() as int);
        assert(content.subrange(0, k.len() as int) =~= k);
        assert(content.subrange(k.len() as int + 1, content.len() as int) =~= w);
        let before = ks.take(m);
        assert(!(exists|j: int| 0 <= j < before.len() && before[j].0 == k)) by {
            if exists|j: int| 0 <= j < before.len() && before[j].0 == k {
                let j = choose|j: int| 0 <= j < before.len() && before[j].0 == k;
                assert(before[j] == ks[j]);
            }
        }
        assert(key_insert(before, k, v) =~= ks.take(m + 1));
        assert(predicates_text(ks.take(m + 1)).len() == pre.len() + one.len());
        assert(q + 1 == p + one.len());
        lemma_parse_predicates(r, base, name, ks, m + 1);
    } else {
        assert(ks.take(m) =~= ks);
    }
}

proof fn lemma_parse_rendered(name: Seq<char>, ks: Seq<(Seq<char>, Seq<char>)>)
    requires
        name_readable(name, 0, None),
        keys_unique(ks),
        forall|j: int| 0 <= j < ks.len() ==> clean_pair(#[trigger] ks[j]),
    ensures
        parse_elem(name + predicates_text(ks)) == Ok::<(Seq<char>, Seq<(Seq<char>, Seq<char>)>), Seq<char>>((name, ks)),
{
    let r = name + predicates_text(ks);
    let base = name.len() as int;
    assert(r.subrange(base, r.len() as int) =~= predicates_text(ks));
    lemma_parse_predicates(r, base, name, ks, 0);
    assert(ks.take(0) =~= Seq::<(Seq<char>, Seq<char>)>::empty());
    assert(predicates_text(ks.take(0)).len() == 0);
    if name.len() > 0 {
        lemma_name_no_bracket(name, 0, None);
        assert forall|t: int| 0 <= t < base implies #[trigger] r[t] != '[' by {
            assert(r[t] == name[t]);
        }
        if ks.len() > 0 {
            lemma_predicates_append(ks.take(1), ks.skip(1));
            assert(ks =~= ks.take(1) + ks.skip(1));
            assert(ks.take(1) =~= seq![ks[0]]);
            lemma_predicates_one(ks[0]);
            assert(r[base] == predicates_text(ks)[0]);
            assert(predicate_text(ks[0])[0] == '[');
        }
        lemma_next_index_run(r, '[', 0, base);
        assert(r[0] != '[');
        assert(Seq::<char>::empty() + r.subrange(0, base) =~= name);
    } else {
        assert(name =~= Seq::<char>::empty());
    }
}

/// Rendering an element and parsing the result as a path (`/` followed by
/// the rendered text) gives the element back, its keys ordered by name and
/// its values as they were (quoted where they hold a bracket or a quote),
/// whenever it is `renderable`.
pub proof fn lemma_render_parse_roundtrip(e: (Seq<char>, Seq<(Seq<char>, Seq<char>)>))
    requires
        renderable(e),
    ensures
        parse_path_spec(seq!['/'] + render_elem_text(e))
            == Ok::<Seq<(Seq<char>, Seq<(Seq<char>, Seq<char>)>)>, Seq<char>>(seq![(e.0, sort_by_key(e.1))]),
        sort_by_key(e.1).len() == e.1.len(),
        forall|y: (Seq<char>, Seq<char>)| sort_by_key(e.1).contains(y) <==> e.1.contains(y),
{
    let ks = sort_by_key(e.1);
    lemma_sort_by_key_perm(e.1);
    assert forall|j: int| 0 <= j < ks.len() implies clean_pair(#[trigger] ks[j]) by {
        assert(ks.contains(ks[j]));
        assert(e.1.contains(ks[j]));
        let w = choose|w: int| 0 <= w < e.1.len() && e.1[w] == ks[j];
        assert(clean_pair(e.1[w]));
    }
    lemma_split_rendered(e, ks);
    let r = e.0 + predicates_text(ks);
    assert(seq!['/'] + render_elem_text(e) =~= seq!['/'] + e.0 + predicates_text(ks));
    lemma_parse_rendered(e.0, ks);
    let parts = seq![r];
    assert(parts.drop_first() =~= Seq::<Seq<char>>::empty());
    assert(parse_elems(parts.drop_first()) == Ok::<Seq<(Seq<char>, Seq<(Seq<char>, Seq<char>)>)>, Seq<char>>(Seq::empty()));
    assert(seq![(e.0, ks)] + Seq::<(Seq<char>, Seq<(Seq<char>, Seq<char>)>)>::empty() =~= seq![(e.0, ks)]);
}


/// Keys in strictly ascending order of name.
pub open spec fn keys_ascending(ks: Seq<(Seq<char>, Seq<char>)>) -> bool {
    forall|i: int, j: int| 0 <= i < j < ks.len() ==> chars_lt(#[trigger] ks[i].0, #[trigger] ks[j].0)
}

proof fn lemma_chars_lt_irreflexive(a: Seq<char>)
    ensures
        !chars_lt(a, a),
    decreases a.len(),
{
    if a.len() > 0 {
        lemma_chars_lt_irreflexive(a.drop_first());
    }
}

proof fn lemma_insert_by_key_ascending(s: Seq<(Seq<char>, Seq<char>)>, x: (Seq<char>, Seq<char>))
    requires
        keys_ascending(s),
        forall|j: int| 0 <= j < s.len() ==> #[trigger] s[j].0 != x.0,
    ensures
        keys_ascending(insert_by_key(s, x)),
    decreases s.len(),
{
    if s.len() == 0 {
    } else if chars_lt(x.0, s[0].0) {
        let out = seq![x] + s;
        assert forall|i: int, j: int| 0 <= i < j < out.len() implies chars_lt(#[trigger] out[i].0, #[trigger] out[j].0) by {
            if i == 0 {
                if j > 1 {
                    assert(out[j] == s[j - 1]);
                    lemma_chars_lt_trans(x.0, s[0].0, s[j - 1].0);
                }
            } else {
                assert(out[i] == s[i - 1] && out[j] == s[j - 1]);
            }
        }
    } else {
        let d = s.drop_first();
        assert(keys_ascending(d)) by {
            assert forall|i: int, j: int| 0 <= i < j < d.len() implies chars_lt(#[trigger] d[i].0, #[trigger] d[j].0) by {
                assert(d[i] == s[i + 1] && d[j] == s[j + 1]);
            }
        }
        assert forall|j: int| 0 <= j < d.len() implies #[trigger] d[j].0 != x.0 by {
            assert(d[j] == s[j + 1]);
        }
        lemma_insert_by_key_ascending(d, x);
        lemma_insert_by_key(d, x);
        lemma_chars_lt_total(x.0, s[0].0);
        let r = insert_by_key(d, x);
        let out = seq![s[0]] + r;
        let p = insert_point(d, x, 0);
        assert forall|i: int, j: int| 0 <= i < j < out.len() implies chars_lt(#[trigger] out[i].0, #[trigger] out[j].0) by {
            if i == 0 {
                let y = r[j - 1];
                assert(out[j] == y);
                if j - 1 == p {
                    assert(y == x);
                } else if j - 1 < p {
                    assert(y == d[j - 1]);
                    assert(y == s[j]);
                } else {
                    assert(y == d[j - 2]);
                    assert(y == s[j - 1]);
                }
            } else {
                assert(out[i] == r[i - 1] && out[j] == r[j - 1]);
            }
        }
    }
}

proof fn lemma_sort_by_key_ascending(ks: Seq<(Seq<char>, Seq<char>)>)
    requires
        keys_unique(ks),
    ensures
        keys_ascending(sort_by_key(ks)),
    decreases ks.len(),
{
    if ks.len() > 0 {
        let d = ks.drop_last();
        let x = ks.last();
        assert(keys_unique(d)) by {
            assert forall|i: int, j: int| 0 <= i < d.len() && 0 <= j < d.len() && i != j implies d[i].0 != d[j].0 by {
                assert(d[i] == ks[i] && d[j] == ks[j]);
            }
        }
        lemma_sort_by_key_ascending(d);
        lemma_sort_by_key_perm(d);
        let srt = sort_by_key(d);
        assert forall|j: int| 0 <= j < srt.len() implies #[trigger] srt[j].0 != x.0 by {
            assert(srt.contains(srt[j]));
            assert(d.contains(srt[j]));
            let w = choose|w: int| 0 <= w < d.len() && d[w] == srt[j];
            assert(ks[w] == d[w]);
            assert(ks[ks.len() - 1] == x);
        }
        lemma_insert_by_key_ascending(srt, x);
    }
}

proof fn lemma_ascending_same_elements(a: Seq<(Seq<char>, Seq<char>)>, b: Seq<(Seq<char>, Seq<char>)>)
    requires
        keys_ascending(a),
        keys_ascending(b),
        forall|y: (Seq<char>, Seq<char>)| a.contains(y) <==> b.contains(y),
    ensures
        a == b,
    decreases a.len(),
{
    if a.len() == 0 {
        if b.len() > 0 {
            assert(b.contains(b[0]));
        }
        assert(a =~= b);
    } else {
        assert(a.contains(a[0]));
        assert(b.len() > 0);
        assert(b.contains(b[0]));
        let i = choose|i: int| 0 <= i < a.len() && a[i] == b[0];
        let j = choose|j: int| 0 <= j < b.len() && b[j] == a[0];
        if a[0] != b[0] {
            assert(i > 0 && j > 0);
            assert(chars_lt(a[0].0, a[i].0));
            assert(chars_lt(b[0].0, b[j].0));
            lemma_chars_lt_trans(a[0].0, b[0].0, a[0].0);
            lemma_chars_lt_irreflexive(a[0].0);
        }
        let a1 = a.drop_first();
        let b1 = b.drop_first();
        assert(keys_ascending(a1)) by {
            assert forall|p: int, q: int| 0 <= p < q < a1.len() implies chars_lt(#[trigger] a1[p].0, #[trigger] a1[q].0) by {
                assert(a1[p] == a[p + 1] && a1[q] == a[q + 1]);
            }
        }
        assert(keys_ascending(b1)) by {
            assert forall|p: int, q: int| 0 <= p < q < b1.len() implies chars_lt(#[trigger] b1[p].0, #[trigger] b1[q].0) by {
                assert(b1[p] == b[p + 1] && b1[q] == b[q + 1]);
            }
        }
        assert forall|y: (Seq<char>, Seq<char>)| a1.contains(y) <==> b1.contains(y) by {
            if a1.contains(y) {
                let p = choose|p: int| 0 <= p < a1.len() && a1[p] == y;
                assert(a[p + 1] == y);
                assert(a.contains(y));
                assert(chars_lt(a[0].0, a[p + 1].0));
                lemma_chars_lt_irreflexive(y.0);
                assert(y != b[0]);
                let q = choose|q: int| 0 <= q < b.len() && b[q] == y;
                assert(q != 0);
                assert(b1[q - 1] == y);
            }
            if b1.contains(y) {
                let p = choose|p: int| 0 <= p < b1.len() && b1[p] == y;
                assert(b[p + 1] == y);
                assert(b.contains(y));
                assert(chars_lt(b[0].0, b[p + 1].0));
                lemma_chars_lt_irreflexive(y.0);
                assert(y != a[0]);
                let q = choose|q: int| 0 <= q < a.len() && a[q] == y;
                assert(q != 0);
                assert(a1[q - 1] == y);
            }
        }
        lemma_ascending_same_elements(a1, b1);
        assert(a =~= seq![a[0]] + a1);
        assert(b =~= seq![b[0]] + b1);
    }
}

/// Rendering does not depend on the order of the keys: two elements with
/// the same name and the same key/value pairs, each key once, render
/// alike, with one predicate per key in ascending order of key name.
pub proof fn lemma_render_ignores_key_order(
    a: (Seq<char>, Seq<(Seq<char>, Seq<char>)>),
    b: (Seq<char>, Seq<(Seq<char>, Seq<char>)>),
)
    requires
        a.0 == b.0,
        keys_unique(a.1),
        keys_unique(b.1),
        forall|y: (Seq<char>, Seq<char>)| a.1.contains(y) <==> b.1.contains(y),
    ensures
        render_elem_text(a) == render_elem_text(b),
        sort_by_key(a.1) == sort_by_key(b.1),
        keys_ascending(sort_by_key(a.1)),
        sort_by_key(a.1).len() == a.1.len(),
{
    lemma_sort_by_key_ascending(a.1);
    lemma_sort_by_key_ascending(b.1);
    lemma_sort_by_key_perm(a.1);
    lemma_sort_by_key_perm(b.1);
    assert forall|y: (Seq<char>, Seq<char>)| sort_by_key(a.1).contains(y) <==> sort_by_key(b.1).contains(y) by {
        assert(sort_by_key(a.1).contains(y) <==> a.1.contains(y));
        assert(sort_by_key(b.1).contains(y) <==> b.1.contains(y));
        assert(a.1.contains(y) <==> b.1.contains(y));
    }
    lemma_ascending_same_elements(sort_by_key(a.1), sort_by_key(b.1));
}


/// No two siblings share a name, at any depth.
pub open spec fn names_distinct(ns: Seq<TreeModel>) -> bool {
    forall|i: int, j: int| 0 <= i < ns.len() && 0 <= j < ns.len() && i != j ==> #[trigger] ns[i].name != #[trigger] ns[j].name
}

/// Siblings have distinct names at every level of the tree.
pub open spec fn tree_distinct(ns: Seq<TreeModel>) -> bool
    decreases ns,
{
    &&& names_distinct(ns)
    &&& forall|i: int| 0 <= i < ns.len() ==> tree_distinct(#[trigger] ns[i].children)
}

proof fn lemma_named_from_absent(ns: Seq<TreeModel>, name: Seq<char>, j: int)
    requires
        0 <= j <= ns.len(),
        named_from(ns, name, j) == ns.len(),
    ensures
        forall|t: int| j <= t < ns.len() ==> #[trigger] ns[t].name != name,
    decreases ns.len() - j,
{
    if j < ns.len() {
        lemma_named_from_absent(ns, name, j + 1);
    }
}

proof fn lemma_find_or_create_distinct(ns: Seq<TreeModel>, name: Seq<char>)
    requires
        tree_distinct(ns),
    ensures
        tree_distinct(find_or_create_model(ns, name).0),
        find_or_create_model(ns, name).0[find_or_create_model(ns, name).1].name == name,
        0 <= find_or_create_model(ns, name).1 < find_or_create_model(ns, name).0.len(),
        find_or_create_model(ns, name).0.len() >= ns.len(),
        forall|t: int| 0 <= t < ns.len() ==> #[trigger] find_or_create_model(ns, name).0[t] == ns[t],
{
    lemma_named_from(ns, name, 0);
    let j = named_from(ns, name, 0);
    if j >= ns.len() {
        lemma_named_from_absent(ns, name, 0);
        let out = ns.push(empty_model(name));
        assert(tree_distinct(empty_model(name).children)) by {
            assert(empty_model(name).children =~= Seq::<TreeModel>::empty());
        }
        assert forall|a: int, b: int| 0 <= a < out.len() && 0 <= b < out.len() && a != b implies #[trigger] out[a].name != #[trigger] out[b].name by {
            if a < ns.len() && b < ns.len() {
                assert(out[a] == ns[a] && out[b] == ns[b]);
            } else if a < ns.len() {
                assert(out[a] == ns[a]);
            } else {
                assert(out[b] == ns[b]);
            }
        }
        assert forall|t: int| 0 <= t < out.len() implies tree_distinct(#[trigger] out[t].children) by {
            if t < ns.len() {
                assert(out[t] == ns[t]);
            }
        }
    }
}

proof fn lemma_update_distinct(ns: Seq<TreeModel>, p: int, m: TreeModel)
    requires
        tree_distinct(ns),
        0 <= p < ns.len(),
        m.name == ns[p].name,
        tree_distinct(m.children),
    ensures
        tree_distinct(ns.update(p, m)),
{
    let out = ns.update(p, m);
    assert forall|a: int, b: int| 0 <= a < out.len() && 0 <= b < out.len() && a != b implies #[trigger] out[a].name != #[trigger] out[b].name by {
        assert(out[a].name == ns[a].name && out[b].name == ns[b].name);
    }
    assert forall|t: int| 0 <= t < out.len() implies tree_distinct(#[trigger] out[t].children) by {
        if t != p {
            assert(out[t] == ns[t]);
        }
    }
}

proof fn lemma_merge_json_distinct(n: TreeModel, j: JsonValue)
    requires
        tree_distinct(n.children),
    ensures
        tree_distinct(merge_json_model(n, j).children),
        merge_json_model(n, j).name == n.name,
    decreases j, 0nat,
{
    match j {
        JsonValue::Object(pairs) => {
            lemma_merge_pairs_distinct(n.children, pairs@);
        },
        JsonValue::Array(items) => {
            lemma_merge_items_distinct(n.children, items@, 0);
        },
        _ => {},
    }
}

proof fn lemma_merge_pairs_distinct(ns: Seq<TreeModel>, pairs: Seq<(String, JsonValue)>)
    requires
        tree_distinct(ns),
    ensures
        tree_distinct(merge_pairs_model(ns, pairs)),
    decreases pairs, 1nat,
{
    if pairs.len() > 0 {
        let fc = find_or_create_model(ns, pairs[0].0@);
        lemma_find_or_create_distinct(ns, pairs[0].0@);
        assert(tree_distinct(fc.0[fc.1].children));
        lemma_merge_json_distinct(fc.0[fc.1], pairs[0].1);
        let merged = fc.0.update(fc.1, merge_json_model(fc.0[fc.1], pairs[0].1));
        lemma_update_distinct(fc.0, fc.1, merge_json_model(fc.0[fc.1], pairs[0].1));
        lemma_merge_pairs_distinct(merged, pairs.drop_first());
    }
}

proof fn lemma_merge_items_distinct(ns: Seq<TreeModel>, items: Seq<JsonValue>, index: nat)
    requires
        tree_distinct(ns),
    ensures
        tree_distinct(merge_items_model(ns, items, index)),
    decreases items, 1nat,
{
    if items.len() > 0 {
        let name = crate::text::decimal(index);
        let fc = find_or_create_model(ns, name);
        lemma_find_or_create_distinct(ns, name);
        assert(tree_distinct(fc.0[fc.1].children));
        lemma_merge_json_distinct(fc.0[fc.1], items[0]);
        let merged = fc.0.update(fc.1, merge_json_model(fc.0[fc.1], items[0]));
        lemma_update_distinct(fc.0, fc.1, merge_json_model(fc.0[fc.1], items[0]));
        lemma_merge_items_distinct(merged, items.drop_first(), index + 1);
    }
}

/// Inserting an update's value at a path keeps sibling names distinct at
/// every level, and keeps every node that was there, in place and under
/// its name: nodes are only added after the existing ones.
pub proof fn lemma_insert_keeps_siblings_distinct(ns: Seq<TreeModel>, names: Seq<Seq<char>>, val: Option<TypedValue>)
    requires
        tree_distinct(ns),
    ensures
        tree_distinct(insert_model(ns, names, val)),
        insert_model(ns, names, val).len() >= ns.len(),
        forall|t: int| 0 <= t < ns.len() ==> #[trigger] insert_model(ns, names, val)[t].name == ns[t].name,
    decreases names.len(),
{
    if names.len() > 0 {
        let fc = find_or_create_model(ns, names[0]);
        lemma_find_or_create_distinct(ns, names[0]);
        let child = fc.0[fc.1];
        assert(tree_distinct(child.children));
        let updated = if names.len() == 1 {
            attach_model(child, val)
        } else {
            TreeModel { children: insert_model(child.children, names.drop_first(), val), ..child }
        };
        if names.len() == 1 {
            match val {
                Some(TypedValue::JsonVal(Some(j))) => lemma_merge_json_distinct(child, j),
                Some(TypedValue::JsonIetfVal(Some(j))) => lemma_merge_json_distinct(child, j),
                _ => {},
            }
        } else {
            lemma_insert_keeps_siblings_distinct(child.children, names.drop_first(), val);
        }
        assert(updated.name == child.name);
        assert(tree_distinct(updated.children));
        lemma_update_distinct(fc.0, fc.1, updated);
        assert forall|t: int| 0 <= t < ns.len() implies #[trigger] insert_model(ns, names, val)[t].name == ns[t].name by {
            assert(fc.0[t] == ns[t]);
        }
    }
}


/// A chain of nodes named `names` in turn: the first among `ns`, each next
/// one among the children of the one before.
pub open spec fn has_path(ns: Seq<TreeModel>, names: Seq<Seq<char>>) -> bool
    decreases names.len(),
{
    names.len() == 0 || exists|i: int|
        0 <= i < ns.len() && #[trigger] ns[i].name == names[0] && has_path(ns[i].children, names.drop_first())
}

/// `new` keeps every node of `old` in place: a node off the path `names`
/// is unchanged; the node on it keeps its name, is the one that takes `val`
/// when it is the path's last, and otherwise keeps its value and has its
/// children kept along the rest of the path. Nodes may follow after.
pub open spec fn kept_along(new: Seq<TreeModel>, old: Seq<TreeModel>, names: Seq<Seq<char>>, val: Option<TypedValue>) -> bool
    decreases old,
{
    &&& new.len() >= old.len()
    &&& forall|i: int| #![trigger old[i]] 0 <= i < old.len() ==> if names.len() > 0 && old[i].name == names[0] {
        if names.len() == 1 {
            new[i] == attach_model(old[i], val)
        } else {
            &&& new[i].name == old[i].name
            &&& new[i].value == old[i].value
            &&& kept_along(new[i].children, old[i].children, names.drop_first(), val)
        }
    } else {
        new[i] == old[i]
    }
}

/// Inserting an update's value at a path, into a tree whose siblings have
/// distinct names: afterwards there is a chain of nodes named by the path,
/// every node that was there is still in place, and only the last node of
/// the chain takes the value.
pub proof fn lemma_insert_follows_path(ns: Seq<TreeModel>, names: Seq<Seq<char>>, val: Option<TypedValue>)
    requires
        tree_distinct(ns),
    ensures
        has_path(insert_model(ns, names, val), names),
        kept_along(insert_model(ns, names, val), ns, names, val),
    decreases names.len(),
{
    let out = insert_model(ns, names, val);
    if names.len() == 0 {
        assert forall|i: int| #![trigger ns[i]] 0 <= i < ns.len() implies out[i] == ns[i] by {}
    } else {
        let fc = find_or_create_model(ns, names[0]);
        lemma_find_or_create_distinct(ns, names[0]);
        let p = fc.1;
        let child = fc.0[p];
        let updated = if names.len() == 1 {
            attach_model(child, val)
        } else {
            TreeModel { children: insert_model(child.children, names.drop_first(), val), ..child }
        };
        assert(out == fc.0.update(p, updated));
        assert(tree_distinct(child.children));
        if names.len() > 1 {
            lemma_insert_follows_path(child.children, names.drop_first(), val);
        }
        assert(updated.name == names[0]) by {
            if names.len() == 1 {
                match val {
                    Some(TypedValue::JsonVal(Some(j))) => lemma_merge_json_distinct(child, j),
                    Some(TypedValue::JsonIetfVal(Some(j))) => lemma_merge_json_distinct(child, j),
                    _ => {},
                }
            }
        }
        assert(out[p] == updated);
        assert(has_path(out[p].children, names.drop_first()));
        assert(has_path(out, names));
        assert forall|i: int| #![trigger ns[i]] 0 <= i < ns.len() implies (if names.len() > 0 && ns[i].name == names[0] {
            if names.len() == 1 {
                out[i] == attach_model(ns[i], val)
            } else {
                &&& out[i].name == ns[i].name
                &&& out[i].value == ns[i].value
                &&& kept_along(out[i].children, ns[i].children, names.drop_first(), val)
            }
        } else {
            out[i] == ns[i]
        }) by {
            assert(fc.0[i] == ns[i]);
            if ns[i].name == names[0] {
                assert(i == p);
            } else {
                assert(i != p);
            }
        }
    }
}


/// A JSON scalar merged into a node becomes the node's value, the rest of
/// the node unchanged: a string as it is, a number as written, a boolean as
/// `true` or `false`, and `null` as empty text.
pub proof fn lemma_merge_json_scalar(n: TreeModel, s: String, t: String, b: bool)
    ensures
        merge_json_model(n, JsonValue::Str(s)) == (TreeModel { value: Some(s@), ..n }),
        merge_json_model(n, JsonValue::Number(t)) == (TreeModel { value: Some(t@), ..n }),
        merge_json_model(n, JsonValue::Bool(b)) == (TreeModel { value: Some(if b { "true"@ } else { "false"@ }), ..n }),
        merge_json_model(n, JsonValue::Null) == (TreeModel { value: Some(Seq::<char>::empty()), ..n }),
{
}

} // verus!
