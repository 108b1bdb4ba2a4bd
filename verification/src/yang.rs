//! YANG schema browsing: the tree of data nodes the modules of a set of
//! directories declare, with every path segment qualified by the module
//! that owns it (`/module-name:node-name/...`), the way gNMI and NETCONF
//! paths name them.
//!
//! Modules are parsed with the tree-sitter YANG grammar; the syntax tree is
//! read here as its nodes in document order, each with its depth, so the
//! tree is walked by positions. Known gaps against full YANG: `deviation`,
//! `when`, `if-feature` and `feature` are not evaluated; an `augment` is
//! shown where it is declared (labelled with its target path), not merged
//! into its target; a `uses` is resolved by inlining its grouping (also
//! across modules through `import`), and one that cannot be resolved is
//! shown as an unresolved placeholder; a `submodule` is its own root.

use vstd::prelude::*;
use crate::gnmi::{unquote_chars, unquoted};
use crate::mib::{FileErrors, NodeKind};
use crate::text::{chars_of, push_chars, push_str, str_eq, string_of, trim_chars, trimmed};

verus! {

/// One node of the browse tree.
pub struct YangTreeNode {
    pub id: String,
    pub label: String,
    /// The absolute path, or `""` for a node that cannot be fetched (an
    /// unresolved `uses` placeholder).
    pub path: String,
    pub resolved: bool,
    pub kind: NodeKind,
    pub children: Vec<YangTreeNode>,
}

/// The files found in one configured directory.
pub struct DirFiles {
    pub dir: String,
    pub files: Vec<String>,
}

/// Everything read from a set of YANG directories.
pub struct YangParseResult {
    pub tree: Vec<YangTreeNode>,
    pub errors: Vec<FileErrors>,
    pub dir_files: Vec<DirFiles>,
    /// Each module's name with its XML namespace.
    pub module_namespaces: Vec<(String, String)>,
}

/// One node of a syntax tree, in document order: its grammar kind, the
/// field it fills in its parent (if any), its depth below the root, whether
/// it is a named node, and its source text.
pub struct SyntaxNode {
    pub kind: String,
    pub field: Option<String>,
    pub depth: usize,
    pub named: bool,
    pub text: String,
}

/// The first position after `j` at or above node `i`'s depth (the end of
/// `i`'s subtree when `j` lies inside it).
pub open spec fn scan_end(rows: Seq<SyntaxNode>, i: int, j: int) -> int
    decreases rows.len() - j,
{
    if j < 0 || j >= rows.len() || rows[j].depth <= rows[i].depth {
        if j < 0 { 0 } else if j > rows.len() { rows.len() as int } else { j }
    } else {
        scan_end(rows, i, j + 1)
    }
}

/// The direct children of node `i` at or after position `j`, in order.
pub open spec fn kids_from(rows: Seq<SyntaxNode>, i: int, j: int) -> Seq<int>
    decreases rows.len() - j,
{
    if j < 0 || j >= rows.len() || rows[j].depth <= rows[i].depth {
        Seq::empty()
    } else if rows[j].depth == rows[i].depth + 1 {
        seq![j] + kids_from(rows, i, j + 1)
    } else {
        kids_from(rows, i, j + 1)
    }
}

/// The direct children of node `i`, in order.
pub open spec fn kids(rows: Seq<SyntaxNode>, i: int) -> Seq<int> {
    kids_from(rows, i, i + 1)
}

/// The named direct children among `ks`, in order.
pub open spec fn named_only(rows: Seq<SyntaxNode>, ks: Seq<int>) -> Seq<int>
    decreases ks.len(),
{
    if ks.len() == 0 {
        Seq::empty()
    } else if rows[ks[0]].named {
        seq![ks[0]] + named_only(rows, ks.drop_first())
    } else {
        named_only(rows, ks.drop_first())
    }
}

/// The named direct children of node `i`, in order.
pub open spec fn named_kids(rows: Seq<SyntaxNode>, i: int) -> Seq<int> {
    named_only(rows, kids(rows, i))
}

/// The first of `ks` that fills field `f`.
pub open spec fn first_with_field(rows: Seq<SyntaxNode>, ks: Seq<int>, f: Seq<char>) -> Option<int>
    decreases ks.len(),
{
    if ks.len() == 0 {
        None
    } else if rows[ks[0]].field matches Some(g) && g@ == f {
        Some(ks[0])
    } else {
        first_with_field(rows, ks.drop_first(), f)
    }
}

/// The first of `ks` of kind `k`.
pub open spec fn first_of_kind(rows: Seq<SyntaxNode>, ks: Seq<int>, k: Seq<char>) -> Option<int>
    decreases ks.len(),
{
    if ks.len() == 0 {
        None
    } else if rows[ks[0]].kind@ == k {
        Some(ks[0])
    } else {
        first_of_kind(rows, ks.drop_first(), k)
    }
}

/// A statement argument's text: trimmed, one layer of quotes removed.
pub open spec fn arg_text(rows: Seq<SyntaxNode>, k: int) -> Seq<char> {
    unquoted(trimmed(rows[k].text@))
}

/// The argument of statement `i`, if it has one.
pub open spec fn arg_of(rows: Seq<SyntaxNode>, i: int) -> Option<Seq<char>> {
    match first_with_field(rows, kids(rows, i), "arg"@) {
        Some(k) => Some(arg_text(rows, k)),
        None => None,
    }
}

/// All positions in `ks` lie after `i` and inside the rows.
pub open spec fn within(rows: Seq<SyntaxNode>, i: int, ks: Seq<int>) -> bool {
    forall|q: int| 0 <= q < ks.len() ==> i < #[trigger] ks[q] < rows.len()
}

proof fn lemma_kids_from(rows: Seq<SyntaxNode>, i: int, j: int)
    requires
        0 <= i < j,
    ensures
        within(rows, i, kids_from(rows, i, j)),
        forall|q: int| 0 <= q < kids_from(rows, i, j).len() ==> j <= #[trigger] kids_from(rows, i, j)[q],
    decreases rows.len() - j,
{
    if j < rows.len() && rows[j].depth > rows[i].depth {
        lemma_kids_from(rows, i, j + 1);
        let r = kids_from(rows, i, j + 1);
        if rows[j].depth == rows[i].depth + 1 {
            assert forall|q: int| 0 <= q < kids_from(rows, i, j).len() implies i < #[trigger] kids_from(rows, i, j)[q] < rows.len() && j <= kids_from(rows, i, j)[q] by {
                if q > 0 {
                    assert(kids_from(rows, i, j)[q] == r[q - 1]);
                }
            }
        }
    }
}

proof fn lemma_named_only(rows: Seq<SyntaxNode>, i: int, ks: Seq<int>)
    requires
        within(rows, i, ks),
    ensures
        within(rows, i, named_only(rows, ks)),
    decreases ks.len(),
{
    if ks.len() > 0 {
        assert(within(rows, i, ks.drop_first())) by {
            assert forall|q: int| 0 <= q < ks.drop_first().len() implies i < #[trigger] ks.drop_first()[q] < rows.len() by {
                assert(ks.drop_first()[q] == ks[q + 1]);
            }
        }
        lemma_named_only(rows, i, ks.drop_first());
        let r = named_only(rows, ks.drop_first());
        if rows[ks[0]].named {
            assert forall|q: int| 0 <= q < named_only(rows, ks).len() implies i < #[trigger] named_only(rows, ks)[q] < rows.len() by {
                if q > 0 {
                    assert(named_only(rows, ks)[q] == r[q - 1]);
                }
            }
        }
    }
}

/// Positions of the direct children of node `i` (see `kids`).
pub fn kid_list(rows: &Vec<SyntaxNode>, i: usize) -> (r: Vec<usize>)
    requires
        i < rows@.len(),
    ensures
        r@.map_values(|k: usize| k as int) == kids(rows@, i as int),
        forall|q: int| 0 <= q < r@.len() ==> i < #[trigger] r@[q] < rows@.len(),
{
    let mut out: Vec<usize> = Vec::new();
    let n = rows.len();
    let mut j = i + 1;
    let d = rows[i].depth;
    proof {
        lemma_kids_from(rows@, i as int, i + 1);
    }
    assert(out@.map_values(|k: usize| k as int) + kids_from(rows@, i as int, j as int) =~= kids(rows@, i as int));
    while j < rows.len() && rows[j].depth > d
        invariant
            i < j <= rows@.len(),
            d == rows@[i as int].depth,
            out@.map_values(|k: usize| k as int) + kids_from(rows@, i as int, j as int) == kids(rows@, i as int),
            forall|q: int| 0 <= q < out@.len() ==> i < #[trigger] out@[q] < j,
        decreases rows@.len() - j,
    {
        let ghost before = out@;
        if rows[j].depth - 1 == d {
            out.push(j);
            assert(out@.map_values(|k: usize| k as int) =~= before.map_values(|k: usize| k as int).push(j as int));
            assert(kids_from(rows@, i as int, j as int) == seq![j as int] + kids_from(rows@, i as int, j + 1));
            assert(out@.map_values(|k: usize| k as int) + kids_from(rows@, i as int, j + 1)
                =~= before.map_values(|k: usize| k as int) + kids_from(rows@, i as int, j as int));
        }
        j = j + 1;
    }
    assert(kids_from(rows@, i as int, j as int) =~= Seq::<int>::empty());
    assert(out@.map_values(|k: usize| k as int) + Seq::<int>::empty() =~= out@.map_values(|k: usize| k as int));
    out
}

/// The named ones of the positions `ks`.
pub fn named_list(rows: &Vec<SyntaxNode>, ks: &Vec<usize>) -> (r: Vec<usize>)
    requires
        forall|q: int| 0 <= q < ks@.len() ==> #[trigger] ks@[q] < rows@.len(),
    ensures
        r@.map_values(|k: usize| k as int) == named_only(rows@, ks@.map_values(|k: usize| k as int)),
        forall|q: int| 0 <= q < r@.len() ==> exists|w: int| 0 <= w < ks@.len() && #[trigger] r@[q] == ks@[w],
{
    let ghost kv = ks@.map_values(|k: usize| k as int);
    let mut out: Vec<usize> = Vec::new();
    let mut q: usize = 0;
    assert(kv.skip(0) =~= kv);
    assert(out@.map_values(|k: usize| k as int) + named_only(rows@, kv.skip(0)) =~= named_only(rows@, kv));
    while q < ks.len()
        invariant
            q <= ks@.len(),
            kv == ks@.map_values(|k: usize| k as int),
            forall|w: int| 0 <= w < ks@.len() ==> #[trigger] ks@[w] < rows@.len(),
            out@.map_values(|k: usize| k as int) + named_only(rows@, kv.skip(q as int)) == named_only(rows@, kv),
            forall|w: int| 0 <= w < out@.len() ==> exists|v: int| 0 <= v < ks@.len() && #[trigger] out@[w] == ks@[v],
        decreases ks@.len() - q,
    {
        let ghost before = out@;
        assert(kv.skip(q as int)[0] == ks@[q as int] as int);
        assert(kv.skip(q as int).drop_first() =~= kv.skip(q + 1));
        if rows[ks[q]].named {
            out.push(ks[q]);
            assert(out@.map_values(|k: usize| k as int) =~= before.map_values(|k: usize| k as int).push(ks@[q as int] as int));
            assert(out@.map_values(|k: usize| k as int) + named_only(rows@, kv.skip(q + 1))
                =~= before.map_values(|k: usize| k as int) + named_only(rows@, kv.skip(q as int)));
            assert forall|w: int| 0 <= w < out@.len() implies exists|v: int| 0 <= v < ks@.len() && #[trigger] out@[w] == ks@[v] by {
                if w == out@.len() - 1 {
                    assert(out@[w] == ks@[q as int]);
                } else {
                    assert(out@[w] == before[w]);
                }
            }
        }
        q = q + 1;
    }
    assert(kv.skip(ks@.len() as int) =~= Seq::<int>::empty());
    assert(out@.map_values(|k: usize| k as int) + Seq::<int>::empty() =~= out@.map_values(|k: usize| k as int));
    out
}

/// The first of the positions `ks` that fills field `f`.
pub fn find_field(rows: &Vec<SyntaxNode>, ks: &Vec<usize>, f: &str) -> (r: Option<usize>)
    requires
        forall|q: int| 0 <= q < ks@.len() ==> #[trigger] ks@[q] < rows@.len(),
    ensures
        match r {
            Some(k) => first_with_field(rows@, ks@.map_values(|k: usize| k as int), f@) == Some(k as int) && k < rows@.len(),
            None => first_with_field(rows@, ks@.map_values(|k: usize| k as int), f@) is None,
        },
{
    let ghost kv = ks@.map_values(|k: usize| k as int);
    let mut q: usize = 0;
    assert(kv.skip(0) =~= kv);
    while q < ks.len()
        invariant
            q <= ks@.len(),
            kv == ks@.map_values(|k: usize| k as int),
            forall|w: int| 0 <= w < ks@.len() ==> #[trigger] ks@[w] < rows@.len(),
            first_with_field(rows@, kv, f@) == first_with_field(rows@, kv.skip(q as int), f@),
        decreases ks@.len() - q,
    {
        assert(kv.skip(q as int)[0] == ks@[q as int] as int);
        assert(kv.skip(q as int).drop_first() =~= kv.skip(q + 1));
        match &rows[ks[q]].field {
            Some(g) => {
                if str_eq(g.as_str(), f) {
                    return Some(ks[q]);
                }
            },
            None => {},
        }
        q = q + 1;
    }
    None
}

/// The first of the positions `ks` of kind `k`.
pub fn find_kind(rows: &Vec<SyntaxNode>, ks: &Vec<usize>, k: &str) -> (r: Option<usize>)
    requires
        forall|q: int| 0 <= q < ks@.len() ==> #[trigger] ks@[q] < rows@.len(),
    ensures
        match r {
            Some(x) => first_of_kind(rows@, ks@.map_values(|k: usize| k as int), k@) == Some(x as int) && x < rows@.len(),
            None => first_of_kind(rows@, ks@.map_values(|k: usize| k as int), k@) is None,
        },
{
    let ghost kv = ks@.map_values(|k: usize| k as int);
    let mut q: usize = 0;
    assert(kv.skip(0) =~= kv);
    while q < ks.len()
        invariant
            q <= ks@.len(),
            kv == ks@.map_values(|k: usize| k as int),
            forall|w: int| 0 <= w < ks@.len() ==> #[trigger] ks@[w] < rows@.len(),
            first_of_kind(rows@, kv, k@) == first_of_kind(rows@, kv.skip(q as int), k@),
        decreases ks@.len() - q,
    {
        assert(kv.skip(q as int)[0] == ks@[q as int] as int);
        assert(kv.skip(q as int).drop_first() =~= kv.skip(q + 1));
        if str_eq(rows[ks[q]].kind.as_str(), k) {
            return Some(ks[q]);
        }
        q = q + 1;
    }
    None
}

/// The argument text of node `k` (see `arg_text`).
pub fn arg_text_of(rows: &Vec<SyntaxNode>, k: usize) -> (r: String)
    requires
        k < rows@.len(),
    ensures
        r@ == arg_text(rows@, k as int),
{
    let cs = chars_of(rows[k].text.as_str());
    let t = trim_chars(cs.as_slice());
    let u = unquote_chars(t.as_slice());
    string_of(u.as_slice())
}

/// The argument of statement `i` (see `arg_of`).
pub fn arg_of_exec(rows: &Vec<SyntaxNode>, i: usize) -> (r: Option<String>)
    requires
        i < rows@.len(),
    ensures
        match r {
            Some(s) => arg_of(rows@, i as int) == Some(s@),
            None => arg_of(rows@, i as int) is None,
        },
{
    let ks = kid_list(rows, i);
    match find_field(rows, &ks, "arg") {
        Some(k) => Some(arg_text_of(rows, k)),
        None => None,
    }
}

/// The last entry of `imps` for `prefix` (a later import of the same
/// prefix replaces an earlier one).
pub open spec fn import_lookup(imps: Seq<(String, String)>, prefix: Seq<char>) -> Option<Seq<char>>
    decreases imps.len(),
{
    if imps.len() == 0 {
        None
    } else if imps.last().0@ == prefix {
        Some(imps.last().1@)
    } else {
        import_lookup(imps.drop_last(), prefix)
    }
}

fn import_lookup_exec(imps: &Vec<(String, String)>, prefix: &[char]) -> (r: Option<String>)
    ensures
        match r {
            Some(m) => import_lookup(imps@, prefix@) == Some(m@),
            None => import_lookup(imps@, prefix@) is None,
        },
{
    let mut i = imps.len();
    assert(imps@.take(imps@.len() as int) =~= imps@);
    while i > 0
        invariant
            i <= imps@.len(),
            import_lookup(imps@, prefix@) == import_lookup(imps@.take(i as int), prefix@),
        decreases i,
    {
        assert(imps@.take(i as int).drop_last() =~= imps@.take(i - 1));
        assert(imps@.take(i as int).last() == imps@[i - 1]);
        let k = chars_of(imps[i - 1].0.as_str());
        if crate::text::chars_eq(k.as_slice(), prefix) {
            return Some(imps[i - 1].1.clone());
        }
        i = i - 1;
    }
    None
}

/// The first position of `c` in `s` at or after `j`, or `s.len()`.
pub open spec fn index_of_from(s: Seq<char>, c: char, j: int) -> int
    decreases s.len() - j,
{
    if j < 0 || j >= s.len() {
        s.len() as int
    } else if s[j] == c {
        j
    } else {
        index_of_from(s, c, j + 1)
    }
}

/// A possibly `prefix:`-qualified reference resolved to the module that
/// owns it and its local name: the prefix (up to the first `:`) is looked
/// up among `origin`'s imports, falling back to `origin` itself; an
/// unqualified reference belongs to `origin`.
pub open spec fn resolve_qualified_spec(raw: Seq<char>, origin: Seq<char>, imps: Seq<(String, String)>) -> (Seq<char>, Seq<char>) {
    let c = index_of_from(raw, ':', 0);
    if c < raw.len() {
        let prefix = raw.take(c);
        (match import_lookup(imps, prefix) {
            Some(m) => m,
            None => origin,
        }, raw.skip(c + 1))
    } else {
        (origin, raw)
    }
}

proof fn lemma_index_of_from(s: Seq<char>, c: char, j: int)
    requires
        0 <= j <= s.len(),
    ensures
        j <= index_of_from(s, c, j) <= s.len(),
        index_of_from(s, c, j) < s.len() ==> s[index_of_from(s, c, j)] == c,
    decreases s.len() - j,
{
    if j < s.len() && s[j] != c {
        lemma_index_of_from(s, c, j + 1);
    }
}

/// Resolves a possibly qualified reference (see `resolve_qualified_spec`).
pub fn resolve_qualified(raw: &[char], origin: &[char], imports: &Vec<(String, String)>) -> (r: (Vec<char>, Vec<char>))
    ensures
        (r.0@, r.1@) == resolve_qualified_spec(raw@, origin@, imports@),
{
    let mut c: usize = 0;
    assert(raw@.len() >= 0);
    while c < raw.len() && raw[c] != ':'
        invariant
            c <= raw@.len(),
            index_of_from(raw@, ':', c as int) == index_of_from(raw@, ':', 0),
        decreases raw@.len() - c,
    {
        c = c + 1;
    }
    if c < raw.len() {
        let prefix = vstd::slice::slice_subrange(raw, 0, c);
        let name = vstd::slice::slice_subrange(raw, c + 1, raw.len());
        assert(prefix@ =~= raw@.take(c as int));
        assert(name@ =~= raw@.skip(c + 1));
        let module = match import_lookup_exec(imports, prefix) {
            Some(m) => chars_of(m.as_str()),
            None => vstd::slice::slice_to_vec(origin),
        };
        (module, vstd::slice::slice_to_vec(name))
    } else {
        (vstd::slice::slice_to_vec(origin), vstd::slice::slice_to_vec(raw))
    }
}

/// A text split at `/` into its fields (empty ones included).
pub open spec fn slash_fields(cs: Seq<char>) -> Seq<Seq<char>>
    decreases cs.len(),
{
    if cs.len() == 0 {
        seq![Seq::empty()]
    } else {
        let f = slash_fields(cs.drop_last());
        if cs.last() == '/' {
            f.push(Seq::empty())
        } else {
            f.update(f.len() - 1, f.last().push(cs.last()))
        }
    }
}

proof fn lemma_slash_fields_len(cs: Seq<char>)
    ensures
        slash_fields(cs).len() >= 1,
    decreases cs.len(),
{
    if cs.len() > 0 {
        lemma_slash_fields_len(cs.drop_last());
    }
}

/// The non-empty `segs`, each resolved and written `/<module>:<name>`.
pub open spec fn target_segments(segs: Seq<Seq<char>>, origin: Seq<char>, imps: Seq<(String, String)>) -> Seq<char>
    decreases segs.len(),
{
    if segs.len() == 0 {
        Seq::empty()
    } else {
        let p = target_segments(segs.drop_last(), origin, imps);
        if segs.last().len() == 0 {
            p
        } else {
            let q = resolve_qualified_spec(segs.last(), origin, imps);
            p + seq!['/'] + q.0 + seq![':'] + q.1
        }
    }
}

/// An `augment` target path with every segment written as
/// `module-name:node-name` (see `resolve_qualified_spec`).
pub open spec fn target_path_spec(raw: Seq<char>, origin: Seq<char>, imps: Seq<(String, String)>) -> Seq<char> {
    target_segments(slash_fields(raw), origin, imps)
}

/// Rewrites an `augment` target path (see `target_path_spec`).
pub fn resolve_target_path(raw: &[char], origin: &[char], imports: &Vec<(String, String)>) -> (r: Vec<char>)
    ensures
        r@ == target_path_spec(raw@, origin@, imports@),
{
    let mut fields: Vec<Vec<char>> = Vec::new();
    let mut cur: Vec<char> = Vec::new();
    let mut i: usize = 0;
    proof {
        lemma_slash_fields_len(raw@.take(0));
    }
    assert(slash_fields(raw@.take(0)) =~= seq![Seq::<char>::empty()]);
    while i < raw.len()
        invariant
            i <= raw@.len(),
            slash_fields(raw@.take(i as int)).len() == fields@.len() + 1,
            forall|k: int| 0 <= k < fields@.len() ==> #[trigger] fields@[k]@ == slash_fields(raw@.take(i as int))[k],
            cur@ == slash_fields(raw@.take(i as int)).last(),
        decreases raw@.len() - i,
    {
        proof {
            assert(raw@.take(i + 1).drop_last() =~= raw@.take(i as int));
            lemma_slash_fields_len(raw@.take(i as int));
        }
        if raw[i] == '/' {
            let done = cur;
            fields.push(done);
            cur = Vec::new();
            assert(cur@ =~= Seq::<char>::empty());
        } else {
            cur.push(raw[i]);
        }
        i = i + 1;
    }
    let ghost fs = slash_fields(raw@);
    assert(raw@.take(raw@.len() as int) =~= raw@);
    fields.push(cur);
    assert forall|k: int| 0 <= k < fields@.len() implies #[trigger] fields@[k]@ == fs[k] by {}
    let mut out: Vec<char> = Vec::new();
    let mut k: usize = 0;
    assert(fs.take(0) =~= Seq::<Seq<char>>::empty());
    while k < fields.len()
        invariant
            k <= fields@.len(),
            fields@.len() == fs.len(),
            forall|q: int| 0 <= q < fields@.len() ==> #[trigger] fields@[q]@ == fs[q],
            out@ == target_segments(fs.take(k as int), origin@, imports@),
        decreases fields@.len() - k,
    {
        assert(fs.take(k + 1).drop_last() =~= fs.take(k as int));
        assert(fs.take(k + 1).last() == fs[k as int]);
        if fields[k].len() > 0 {
            let (m, n) = resolve_qualified(fields[k].as_slice(), origin, imports);
            let ghost before = out@;
            out.push('/');
            push_chars(&mut out, m.as_slice());
            out.push(':');
            push_chars(&mut out, n.as_slice());
            assert(out@ =~= before + seq!['/'] + m@ + seq![':'] + n@);
        }
        k = k + 1;
    }
    assert(fs.take(fields@.len() as int) =~= fs);
    out
}

/// A parsed module (or submodule): its name, where its statement is, and
/// its imports (prefix, imported module), in order.
pub struct YangModule {
    pub name: String,
    pub file: usize,
    pub root: usize,
    pub imports: Vec<(String, String)>,
}

/// A grouping: the module and name it is known by, and where it is.
pub struct Grouping {
    pub module: String,
    pub name: String,
    pub file: usize,
    pub node: usize,
}

/// The parsed files (their syntax nodes), the modules found in them and
/// every grouping declared anywhere in a module.
pub struct YangSchema {
    pub files: Vec<Vec<SyntaxNode>>,
    pub modules: Vec<YangModule>,
    pub groupings: Vec<Grouping>,
}

/// The spec-level shape of a browse-tree node.
pub struct YangModel {
    pub id: Seq<char>,
    pub label: Seq<char>,
    pub path: Seq<char>,
    pub resolved: bool,
    pub kind: NodeKind,
    pub children: Seq<YangModel>,
}

/// The model of one tree node.
pub open spec fn yang_model(n: YangTreeNode) -> YangModel
    decreases n, 0nat,
{
    YangModel { id: n.id@, label: n.label@, path: n.path@, resolved: n.resolved, kind: n.kind, children: yang_models(n.children@) }
}

/// The models of a sequence of tree nodes.
pub open spec fn yang_models(s: Seq<YangTreeNode>) -> Seq<YangModel>
    decreases s, 1nat,
{
    if s.len() == 0 {
        Seq::empty()
    } else {
        yang_models(s.drop_last()).push(yang_model(s.last()))
    }
}

/// Positions into the schema are in range.
pub open spec fn schema_valid(sch: YangSchema) -> bool {
    &&& forall|m: int| 0 <= m < sch.modules@.len() ==> #[trigger] sch.modules@[m].file < sch.files@.len()
        && sch.modules@[m].root < sch.files@[sch.modules@[m].file as int]@.len()
    &&& forall|g: int| 0 <= g < sch.groupings@.len() ==> #[trigger] sch.groupings@[g].file < sch.files@.len()
        && sch.groupings@[g].node < sch.files@[sch.groupings@[g].file as int]@.len()
}

/// The imports of the first module named `name` (none if there is none).
pub open spec fn imports_of(mods: Seq<YangModule>, name: Seq<char>) -> Seq<(String, String)>
    decreases mods.len(),
{
    if mods.len() == 0 {
        Seq::empty()
    } else if mods[0].name@ == name {
        mods[0].imports@
    } else {
        imports_of(mods.drop_first(), name)
    }
}

/// Where the grouping `name` of `module` is: the last one recorded under
/// that key.
pub open spec fn grouping_at(gs: Seq<Grouping>, module: Seq<char>, name: Seq<char>) -> Option<(int, int)>
    decreases gs.len(),
{
    if gs.len() == 0 {
        None
    } else if gs.last().module@ == module && gs.last().name@ == name {
        Some((gs.last().file as int, gs.last().node as int))
    } else {
        grouping_at(gs.drop_last(), module, name)
    }
}

/// The kinds of statements that are data nodes of the tree.
pub open spec fn is_data_kind(k: Seq<char>) -> bool {
    k == "container_stmt"@ || k == "list_stmt"@ || k == "leaf_stmt"@ || k == "leaf_list_stmt"@ || k == "anydata_stmt"@ || k == "anyxml_stmt"@
}

/// The tree kind of a data statement.
pub open spec fn data_kind(k: Seq<char>) -> NodeKind {
    if k == "container_stmt"@ {
        NodeKind::Group
    } else if k == "list_stmt"@ {
        NodeKind::Table
    } else {
        NodeKind::Scalar
    }
}

/// The label of a data node named `name` at `c`: a list shows its key
/// (`name [key]`) when it has a `key` statement with an argument.
pub open spec fn data_label(rows: Seq<SyntaxNode>, c: int, name: Seq<char>) -> Seq<char> {
    if rows[c].kind@ == "list_stmt"@ {
        match first_of_kind(rows, named_kids(rows, c), "key_stmt"@) {
            Some(kk) => match arg_of(rows, kk) {
                Some(key) => name + " ["@ + key + "]"@,
                None => name,
            },
            None => name,
        }
    } else {
        name
    }
}

/// The tree nodes that the statements under node `i` of file `f` give,
/// declared in module `origin` at path `prefix`, with the groupings in
/// `visiting` being inlined already. Nesting deeper than 200 gives nothing.
pub open spec fn build_stmt(sch: YangSchema, f: int, i: int, origin: Seq<char>, prefix: Seq<char>, visiting: Set<(Seq<char>, Seq<char>)>, depth: nat) -> Seq<YangModel>
    decreases 201 - depth, 2int, 0int,
{
    if depth > 200 || f < 0 || f >= sch.files@.len() || i < 0 || i >= sch.files@[f]@.len() {
        Seq::empty()
    } else {
        build_kids(sch, f, named_kids(sch.files@[f]@, i), 0, origin, prefix, visiting, depth)
    }
}

/// The tree nodes the statements `ks[q..]` of file `f` give.
pub open spec fn build_kids(sch: YangSchema, f: int, ks: Seq<int>, q: int, origin: Seq<char>, prefix: Seq<char>, visiting: Set<(Seq<char>, Seq<char>)>, depth: nat) -> Seq<YangModel>
    decreases 201 - depth, 1int, ks.len() - q,
{
    if depth > 200 || q < 0 || q >= ks.len() {
        Seq::empty()
    } else {
        node_out(sch, f, ks[q], origin, prefix, visiting, depth) + build_kids(sch, f, ks, q + 1, origin, prefix, visiting, depth)
    }
}

/// The tree nodes statement `c` of file `f` gives: a data node (with its
/// children, unless it is a leaf); the flattened content of a `choice` or
/// `case`; the inlined content of a resolved `uses` grouping (or an
/// unresolved placeholder); an `augment` labelled with its resolved target
/// path; nothing for any other statement.
pub open spec fn node_out(sch: YangSchema, f: int, c: int, origin: Seq<char>, prefix: Seq<char>, visiting: Set<(Seq<char>, Seq<char>)>, depth: nat) -> Seq<YangModel>
    decreases 201 - depth, 0int, 0int,
{
    if depth > 200 || f < 0 || f >= sch.files@.len() || c < 0 || c >= sch.files@[f]@.len() {
        Seq::empty()
    } else {
        let rows = sch.files@[f]@;
        let k = rows[c].kind@;
        if is_data_kind(k) {
            match arg_of(rows, c) {
                None => Seq::empty(),
                Some(name) => {
                    let path = prefix + seq!['/'] + origin + seq![':'] + name;
                    let kind = data_kind(k);
                    let children = if kind == NodeKind::Scalar {
                        Seq::empty()
                    } else {
                        build_stmt(sch, f, c, origin, path, visiting, depth + 1)
                    };
                    seq![YangModel { id: path, label: data_label(rows, c, name), path, resolved: true, kind, children }]
                },
            }
        } else if k == "choice_stmt"@ || k == "case_stmt"@ {
            build_stmt(sch, f, c, origin, prefix, visiting, depth + 1)
        } else if k == "uses_stmt"@ {
            match arg_of(rows, c) {
                None => Seq::empty(),
                Some(raw) => {
                    let q = resolve_qualified_spec(raw, origin, imports_of(sch.modules@, origin));
                    if !visiting.contains(q) && grouping_at(sch.groupings@, q.0, q.1) is Some {
                        let g = grouping_at(sch.groupings@, q.0, q.1)->0;
                        build_stmt(sch, g.0, g.1, q.0, prefix, visiting.insert(q), depth + 1)
                    } else {
                        seq![YangModel {
                            id: prefix + "#uses:"@ + raw,
                            label: "uses "@ + raw,
                            path: Seq::empty(),
                            resolved: false,
                            kind: NodeKind::Scalar,
                            children: Seq::empty(),
                        }]
                    }
                },
            }
        } else if k == "augment_stmt"@ {
            match arg_of(rows, c) {
                None => Seq::empty(),
                Some(raw) => {
                    let target = target_path_spec(raw, origin, imports_of(sch.modules@, origin));
                    seq![YangModel {
                        id: prefix + "#augment:"@ + target,
                        label: "augment "@ + target,
                        path: target,
                        resolved: true,
                        kind: NodeKind::Group,
                        children: build_stmt(sch, f, c, origin, target, visiting, depth + 1),
                    }]
                },
            }
        } else {
            Seq::empty()
        }
    }
}

/// The groupings being inlined, as a set of (module, name).
pub open spec fn visit_set(v: Seq<(Vec<char>, Vec<char>)>) -> Set<(Seq<char>, Seq<char>)> {
    Set::new(|p: (Seq<char>, Seq<char>)| exists|i: int| 0 <= i < v.len() && v[i].0@ == p.0 && v[i].1@ == p.1)
}

proof fn lemma_yang_models_append(a: Seq<YangTreeNode>, b: Seq<YangTreeNode>)
    ensures
        yang_models(a + b) == yang_models(a) + yang_models(b),
    decreases b.len(),
{
    if b.len() == 0 {
        assert(a + b =~= a);
        assert(yang_models(a) + yang_models(b) =~= yang_models(a));
    } else {
        lemma_yang_models_append(a, b.drop_last());
        assert((a + b).drop_last() =~= a + b.drop_last());
        assert((a + b).last() == b.last());
        assert(yang_models(a) + yang_models(b) =~= (yang_models(a) + yang_models(b.drop_last())).push(yang_model(b.last())));
    }
}

fn module_imports_index(mods: &Vec<YangModule>, name: &[char]) -> (r: Option<usize>)
    ensures
        match r {
            Some(i) => i < mods@.len() && imports_of(mods@, name@) == mods@[i as int].imports@,
            None => imports_of(mods@, name@) == Seq::<(String, String)>::empty(),
        },
{
    let mut i: usize = 0;
    assert(mods@.skip(0) =~= mods@);
    while i < mods.len()
        invariant
            i <= mods@.len(),
            imports_of(mods@, name@) == imports_of(mods@.skip(i as int), name@),
        decreases mods@.len() - i,
    {
        assert(mods@.skip(i as int)[0] == mods@[i as int]);
        assert(mods@.skip(i as int).drop_first() =~= mods@.skip(i + 1));
        let mc = chars_of(mods[i].name.as_str());
        if crate::text::chars_eq(mc.as_slice(), name) {
            return Some(i);
        }
        i = i + 1;
    }
    None
}

fn grouping_exec(gs: &Vec<Grouping>, module: &[char], name: &[char]) -> (r: Option<(usize, usize)>)
    ensures
        match r {
            Some(p) => grouping_at(gs@, module@, name@) == Some((p.0 as int, p.1 as int)),
            None => grouping_at(gs@, module@, name@) is None,
        },
{
    let mut i = gs.len();
    assert(gs@.take(gs@.len() as int) =~= gs@);
    while i > 0
        invariant
            i <= gs@.len(),
            grouping_at(gs@, module@, name@) == grouping_at(gs@.take(i as int), module@, name@),
        decreases i,
    {
        assert(gs@.take(i as int).drop_last() =~= gs@.take(i - 1));
        assert(gs@.take(i as int).last() == gs@[i - 1]);
        let mc = chars_of(gs[i - 1].module.as_str());
        let nc = chars_of(gs[i - 1].name.as_str());
        if crate::text::chars_eq(mc.as_slice(), module) && crate::text::chars_eq(nc.as_slice(), name) {
            return Some((gs[i - 1].file, gs[i - 1].node));
        }
        i = i - 1;
    }
    None
}

fn visiting_contains(v: &Vec<(Vec<char>, Vec<char>)>, m: &[char], n: &[char]) -> (r: bool)
    ensures
        r == visit_set(v@).contains((m@, n@)),
{
    let mut i: usize = 0;
    while i < v.len()
        invariant
            i <= v@.len(),
            forall|k: int| 0 <= k < i ==> !(v@[k].0@ == m@ && v@[k].1@ == n@),
        decreases v@.len() - i,
    {
        if crate::text::chars_eq(v[i].0.as_slice(), m) && crate::text::chars_eq(v[i].1.as_slice(), n) {
            return true;
        }
        i = i + 1;
    }
    false
}

fn chars3(a: &[char], b: &[char], c: &[char]) -> (r: Vec<char>)
    ensures
        r@ == a@ + b@ + c@,
{
    let mut out = vstd::slice::slice_to_vec(a);
    push_chars(&mut out, b);
    push_chars(&mut out, c);
    out
}

/// The tree nodes of the statements under node `i` of file `f` (see
/// `build_stmt`).
pub fn build_children(
    sch: &YangSchema,
    f: usize,
    i: usize,
    origin: &[char],
    prefix: &[char],
    visiting: &Vec<(Vec<char>, Vec<char>)>,
    depth: usize,
) -> (r: Vec<YangTreeNode>)
    requires
        schema_valid(*sch),
    ensures
        yang_models(r@) == build_stmt(*sch, f as int, i as int, origin@, prefix@, visit_set(visiting@), depth as nat),
    decreases 201 - depth, 2int, 0int,
{
    let mut out: Vec<YangTreeNode> = Vec::new();
    if depth > 200 || f >= sch.files.len() || i >= sch.files[f].len() {
        return out;
    }
    let rows = &sch.files[f];
    let ks = kid_list(rows, i);
    let named = named_list(rows, &ks);
    let ghost kv = named@.map_values(|k: usize| k as int);
    proof {
        lemma_kids_from(rows@, i as int, i + 1);
        assert(kv == named_kids(rows@, i as int));
    }
    let mut q: usize = 0;
    assert(yang_models(out@) + build_kids(*sch, f as int, kv, 0, origin@, prefix@, visit_set(visiting@), depth as nat)
        =~= build_kids(*sch, f as int, kv, 0, origin@, prefix@, visit_set(visiting@), depth as nat));
    while q < named.len()
        invariant
            q <= named@.len(),
            depth <= 200,
            f < sch.files@.len(),
            schema_valid(*sch),
            kv == named@.map_values(|k: usize| k as int),
            forall|w: int| 0 <= w < named@.len() ==> #[trigger] named@[w] < sch.files@[f as int]@.len(),
            yang_models(out@) + build_kids(*sch, f as int, kv, q as int, origin@, prefix@, visit_set(visiting@), depth as nat)
                == build_kids(*sch, f as int, kv, 0, origin@, prefix@, visit_set(visiting@), depth as nat),
        decreases named@.len() - q,
    {
        let mut part = node_out_exec(sch, f, named[q], origin, prefix, visiting, depth);
        let ghost before = out@;
        let ghost pv = part@;
        out.append(&mut part);
        proof {
            lemma_yang_models_append(before, pv);
            assert(build_kids(*sch, f as int, kv, q as int, origin@, prefix@, visit_set(visiting@), depth as nat)
                == node_out(*sch, f as int, kv[q as int], origin@, prefix@, visit_set(visiting@), depth as nat)
                    + build_kids(*sch, f as int, kv, q + 1, origin@, prefix@, visit_set(visiting@), depth as nat));
            assert(yang_models(out@) + build_kids(*sch, f as int, kv, q + 1, origin@, prefix@, visit_set(visiting@), depth as nat)
                =~= yang_models(before) + build_kids(*sch, f as int, kv, q as int, origin@, prefix@, visit_set(visiting@), depth as nat));
        }
        q = q + 1;
    }
    assert(build_kids(*sch, f as int, kv, q as int, origin@, prefix@, visit_set(visiting@), depth as nat) =~= Seq::<YangModel>::empty());
    assert(yang_models(out@) + Seq::<YangModel>::empty() =~= yang_models(out@));
    out
}

fn extend_visiting(v: &Vec<(Vec<char>, Vec<char>)>, m: &[char], n: &[char]) -> (r: Vec<(Vec<char>, Vec<char>)>)
    ensures
        visit_set(r@) == visit_set(v@).insert((m@, n@)),
{
    let mut inner: Vec<(Vec<char>, Vec<char>)> = Vec::new();
    let mut w: usize = 0;
    while w < v.len()
        invariant
            w <= v@.len(),
            inner@.len() == w,
            forall|x: int| 0 <= x < w ==> (#[trigger] inner@[x]).0@ == v@[x].0@ && inner@[x].1@ == v@[x].1@,
        decreases v@.len() - w,
    {
        inner.push((vstd::slice::slice_to_vec(v[w].0.as_slice()), vstd::slice::slice_to_vec(v[w].1.as_slice())));
        w = w + 1;
    }
    let ghost inner0 = inner@;
    inner.push((vstd::slice::slice_to_vec(m), vstd::slice::slice_to_vec(n)));
    let ghost key = (m@, n@);
    assert forall|p: (Seq<char>, Seq<char>)| #[trigger] visit_set(inner@).contains(p) <==> visit_set(v@).insert(key).contains(p) by {
        if visit_set(inner@).contains(p) {
            let x = choose|x: int| 0 <= x < inner@.len() && inner@[x].0@ == p.0 && inner@[x].1@ == p.1;
            if x < v@.len() {
                assert(inner@[x] == inner0[x]);
                assert(v@[x].0@ == p.0 && v@[x].1@ == p.1);
            }
        }
        if visit_set(v@).contains(p) {
            let x = choose|x: int| 0 <= x < v@.len() && v@[x].0@ == p.0 && v@[x].1@ == p.1;
            assert(inner@[x] == inner0[x]);
            assert(inner@[x].0@ == p.0 && inner@[x].1@ == p.1);
        }
        if p == key {
            assert(inner@[v@.len() as int].0@ == p.0);
        }
    }
    assert(visit_set(inner@) =~= visit_set(v@).insert(key));
    inner
}

fn one_node(n: YangTreeNode) -> (r: Vec<YangTreeNode>)
    ensures
        yang_models(r@) == seq![yang_model(n)],
{
    let mut v: Vec<YangTreeNode> = Vec::new();
    v.push(n);
    assert(v@.drop_last() =~= Seq::<YangTreeNode>::empty());
    assert(yang_models(Seq::<YangTreeNode>::empty()) == Seq::<YangModel>::empty());
    assert(v@.last() == n);
    assert(yang_models(v@) == yang_models(v@.drop_last()).push(yang_model(v@.last())));
    assert(yang_models(v@) =~= seq![yang_model(n)]);
    v
}

fn node_out_exec(
    sch: &YangSchema,
    f: usize,
    c: usize,
    origin: &[char],
    prefix: &[char],
    visiting: &Vec<(Vec<char>, Vec<char>)>,
    depth: usize,
) -> (r: Vec<YangTreeNode>)
    requires
        schema_valid(*sch),
    ensures
        yang_models(r@) == node_out(*sch, f as int, c as int, origin@, prefix@, visit_set(visiting@), depth as nat),
    decreases 201 - depth, 0int, 0int,
{
    let empty: Vec<YangTreeNode> = Vec::new();
    assert(yang_models(empty@) =~= Seq::<YangModel>::empty());
    if depth > 200 || f >= sch.files.len() || c >= sch.files[f].len() {
        return empty;
    }
    let rows = &sch.files[f];
    let k = rows[c].kind.as_str();
    let is_container = str_eq(k, "container_stmt");
    let is_list = str_eq(k, "list_stmt");
    if is_container || is_list || str_eq(k, "leaf_stmt") || str_eq(k, "leaf_list_stmt") || str_eq(k, "anydata_stmt") || str_eq(k, "anyxml_stmt") {
        match arg_of_exec(rows, c) {
            None => empty,
            Some(name) => {
                let nc = chars_of(name.as_str());
                let mut path = chars3(prefix, &['/'], origin);
                push_chars(&mut path, &[':']);
                push_chars(&mut path, nc.as_slice());
                assert(path@ =~= prefix@ + seq!['/'] + origin@ + seq![':'] + name@);
                let kind = if is_container {
                    NodeKind::Group
                } else if is_list {
                    NodeKind::Table
                } else {
                    NodeKind::Scalar
                };
                let mut label = nc.clone();
                if is_list {
                    let ks = kid_list(rows, c);
                    let named = named_list(rows, &ks);
                    proof {
                        lemma_kids_from(rows@, c as int, c + 1);
                    }
                    match find_kind(rows, &named, "key_stmt") {
                        Some(kk) => match arg_of_exec(rows, kk) {
                            Some(key) => {
                                push_str(&mut label, " [");
                                push_str(&mut label, key.as_str());
                                push_str(&mut label, "]");
                            },
                            None => {},
                        },
                        None => {},
                    }
                }
                assert(label@ == data_label(rows@, c as int, name@));
                let children = if kind == NodeKind::Scalar {
                    let v: Vec<YangTreeNode> = Vec::new();
                    assert(yang_models(v@) =~= Seq::<YangModel>::empty());
                    v
                } else {
                    build_children(sch, f, c, origin, path.as_slice(), visiting, depth + 1)
                };
                let p = string_of(path.as_slice());
                one_node(YangTreeNode { id: p.clone(), label: string_of(label.as_slice()), path: p, resolved: true, kind, children })
            },
        }
    } else if str_eq(k, "choice_stmt") || str_eq(k, "case_stmt") {
        build_children(sch, f, c, origin, prefix, visiting, depth + 1)
    } else if str_eq(k, "uses_stmt") {
        match arg_of_exec(rows, c) {
            None => empty,
            Some(raw) => {
                let rc = chars_of(raw.as_str());
                let empty_imports: Vec<(String, String)> = Vec::new();
                let imps = match module_imports_index(&sch.modules, origin) {
                    Some(mi) => &sch.modules[mi].imports,
                    None => &empty_imports,
                };
                let (tm, g) = resolve_qualified(rc.as_slice(), origin, imps);
                let seen = visiting_contains(visiting, tm.as_slice(), g.as_slice());
                if !seen {
                    match grouping_exec(&sch.groupings, tm.as_slice(), g.as_slice()) {
                        Some((gf, gn)) => {
                            let inner = extend_visiting(visiting, tm.as_slice(), g.as_slice());
                            return build_children(sch, gf, gn, tm.as_slice(), prefix, &inner, depth + 1);
                        },
                        None => {},
                    }
                }
                let id = chars3(prefix, &['#', 'u', 's', 'e', 's', ':'], rc.as_slice());
                let label = chars3(&['u', 's', 'e', 's', ' '], rc.as_slice(), &[]);
                proof {
                    reveal_strlit("#uses:");
                    reveal_strlit("uses ");
                    assert(id@ =~= prefix@ + "#uses:"@ + raw@);
                    assert(label@ =~= "uses "@ + raw@);
                }
                let v: Vec<YangTreeNode> = Vec::new();
                assert(yang_models(v@) =~= Seq::<YangModel>::empty());
                one_node(YangTreeNode {
                    id: string_of(id.as_slice()),
                    label: string_of(label.as_slice()),
                    path: String::new(),
                    resolved: false,
                    kind: NodeKind::Scalar,
                    children: v,
                })
            },
        }
    } else if str_eq(k, "augment_stmt") {
        match arg_of_exec(rows, c) {
            None => empty,
            Some(raw) => {
                let rc = chars_of(raw.as_str());
                let empty_imports: Vec<(String, String)> = Vec::new();
                let imps = match module_imports_index(&sch.modules, origin) {
                    Some(mi) => &sch.modules[mi].imports,
                    None => &empty_imports,
                };
                let target = resolve_target_path(rc.as_slice(), origin, imps);
                let children = build_children(sch, f, c, origin, target.as_slice(), visiting, depth + 1);
                let id = chars3(prefix, &['#', 'a', 'u', 'g', 'm', 'e', 'n', 't', ':'], target.as_slice());
                let label = chars3(&['a', 'u', 'g', 'm', 'e', 'n', 't', ' '], target.as_slice(), &[]);
                proof {
                    reveal_strlit("#augment:");
                    reveal_strlit("augment ");
                    assert(id@ =~= prefix@ + "#augment:"@ + target@);
                    assert(label@ =~= "augment "@ + target@);
                }
                one_node(YangTreeNode {
                    id: string_of(id.as_slice()),
                    label: string_of(label.as_slice()),
                    path: string_of(target.as_slice()),
                    resolved: true,
                    kind: NodeKind::Group,
                    children,
                })
            },
        }
    } else {
        empty
    }
}

/// The module (or submodule) statement of a file: the first named node
/// under the root, when it is one and has a name. Gives its position, its
/// name, and whether it is a module (not a submodule).
pub open spec fn module_stmt_of(rows: Seq<SyntaxNode>) -> Option<(int, Seq<char>, bool)> {
    if rows.len() == 0 || named_kids(rows, 0).len() == 0 {
        None
    } else {
        let m = named_kids(rows, 0)[0];
        let k = rows[m].kind@;
        if k != "module_stmt"@ && k != "submodule_stmt"@ {
            None
        } else {
            match arg_of(rows, m) {
                Some(name) => Some((m, name, k == "module_stmt"@)),
                None => None,
            }
        }
    }
}

/// The imports among the statements `ks[q..]`: each `import` with a name
/// and a `prefix` gives (prefix, imported module), in order.
pub open spec fn imports_from(rows: Seq<SyntaxNode>, ks: Seq<int>, q: int) -> Seq<(Seq<char>, Seq<char>)>
    decreases ks.len() - q,
{
    if q < 0 || q >= ks.len() {
        Seq::empty()
    } else {
        let c = ks[q];
        let rest = imports_from(rows, ks, q + 1);
        if rows[c].kind@ == "import_stmt"@ && arg_of(rows, c) is Some
            && first_of_kind(rows, named_kids(rows, c), "prefix_stmt"@) is Some
            && arg_of(rows, first_of_kind(rows, named_kids(rows, c), "prefix_stmt"@)->0) is Some {
            seq![(arg_of(rows, first_of_kind(rows, named_kids(rows, c), "prefix_stmt"@)->0)->0, arg_of(rows, c)->0)] + rest
        } else {
            rest
        }
    }
}

/// The namespace a module statement declares, if any.
pub open spec fn namespace_of(rows: Seq<SyntaxNode>, m: int) -> Option<Seq<char>> {
    match first_of_kind(rows, named_kids(rows, m), "namespace_stmt"@) {
        Some(n) => arg_of(rows, n),
        None => None,
    }
}

/// The groupings anywhere under node `i` (through named nodes), in
/// document order, as (name, position).
pub open spec fn groupings_under(rows: Seq<SyntaxNode>, i: int) -> Seq<(Seq<char>, int)>
    decreases rows.len() - i, 1int, 0int,
{
    if i < 0 || i >= rows.len() {
        Seq::empty()
    } else {
        groupings_in(rows, i, named_kids(rows, i), 0)
    }
}

/// The groupings at and under the statements `ks[q..]` (children of `i`).
pub open spec fn groupings_in(rows: Seq<SyntaxNode>, i: int, ks: Seq<int>, q: int) -> Seq<(Seq<char>, int)>
    decreases rows.len() - i, 0int, ks.len() - q,
{
    if q < 0 || q >= ks.len() || ks[q] <= i || ks[q] >= rows.len() {
        Seq::empty()
    } else {
        let c = ks[q];
        let own = if rows[c].kind@ == "grouping_stmt"@ && arg_of(rows, c) is Some {
            seq![(arg_of(rows, c)->0, c)]
        } else {
            Seq::empty()
        };
        own + groupings_under(rows, c) + groupings_in(rows, i, ks, q + 1)
    }
}

fn imports_exec(rows: &Vec<SyntaxNode>, m: usize) -> (r: Vec<(String, String)>)
    requires
        m < rows@.len(),
    ensures
        r@.map_values(|p: (String, String)| (p.0@, p.1@)) == imports_from(rows@, named_kids(rows@, m as int), 0),
{
    let ks = kid_list(rows, m);
    let named = named_list(rows, &ks);
    let ghost kv = named@.map_values(|k: usize| k as int);
    proof {
        lemma_kids_from(rows@, m as int, m + 1);
    }
    let mut out: Vec<(String, String)> = Vec::new();
    let mut q: usize = 0;
    assert(out@.map_values(|p: (String, String)| (p.0@, p.1@)) + imports_from(rows@, kv, 0) =~= imports_from(rows@, kv, 0));
    while q < named.len()
        invariant
            q <= named@.len(),
            kv == named@.map_values(|k: usize| k as int),
            kv == named_kids(rows@, m as int),
            forall|w: int| 0 <= w < named@.len() ==> #[trigger] named@[w] < rows@.len(),
            out@.map_values(|p: (String, String)| (p.0@, p.1@)) + imports_from(rows@, kv, q as int) == imports_from(rows@, kv, 0),
        decreases named@.len() - q,
    {
        let c = named[q];
        let ghost before = out@;
        if str_eq(rows[c].kind.as_str(), "import_stmt") {
            match arg_of_exec(rows, c) {
                Some(imported) => {
                    let cks = kid_list(rows, c);
                    let cnamed = named_list(rows, &cks);
                    proof {
                        lemma_kids_from(rows@, c as int, c + 1);
                    }
                    match find_kind(rows, &cnamed, "prefix_stmt") {
                        Some(pn) => match arg_of_exec(rows, pn) {
                            Some(prefix) => {
                                out.push((prefix, imported));
                                proof {
                                    let e = (prefix@, imported@);
                                    assert(out@.map_values(|p: (String, String)| (p.0@, p.1@)) =~= before.map_values(|p: (String, String)| (p.0@, p.1@)).push(e));
                                    assert(imports_from(rows@, kv, q as int) == seq![e] + imports_from(rows@, kv, q + 1));
                                    assert(out@.map_values(|p: (String, String)| (p.0@, p.1@)) + imports_from(rows@, kv, q + 1)
                                        =~= before.map_values(|p: (String, String)| (p.0@, p.1@)) + imports_from(rows@, kv, q as int));
                                }
                            },
                            None => {},
                        },
                        None => {},
                    }
                },
                None => {},
            }
        }
        q = q + 1;
    }
    assert(imports_from(rows@, kv, q as int) =~= Seq::<(Seq<char>, Seq<char>)>::empty());
    assert(out@.map_values(|p: (String, String)| (p.0@, p.1@)) + Seq::<(Seq<char>, Seq<char>)>::empty() =~= out@.map_values(|p: (String, String)| (p.0@, p.1@)));
    out
}

/// The model of a recorded grouping, without its file.
pub open spec fn grouping_entry(g: Grouping) -> (Seq<char>, int) {
    (g.name@, g.node as int)
}

fn collect_groupings(rows: &Vec<SyntaxNode>, i: usize, module: &String, f: usize, out: &mut Vec<Grouping>)
    requires
        i < rows@.len(),
    ensures
        final(out)@.len() >= old(out)@.len(),
        final(out)@.take(old(out)@.len() as int) == old(out)@,
        final(out)@.skip(old(out)@.len() as int).map_values(|g: Grouping| grouping_entry(g)) == groupings_under(rows@, i as int),
        forall|k: int| old(out)@.len() <= k < final(out)@.len() ==> (#[trigger] final(out)@[k]).module@ == module@ && final(out)@[k].file == f
            && final(out)@[k].node < rows@.len(),
    decreases rows@.len() - i, 1int, 0int,
{
    let ks = kid_list(rows, i);
    let named = named_list(rows, &ks);
    let ghost kv = named@.map_values(|k: usize| k as int);
    let ghost o0 = out@;
    proof {
        lemma_kids_from(rows@, i as int, i + 1);
    }
    let mut q: usize = 0;
    assert(out@.skip(o0.len() as int) =~= Seq::<Grouping>::empty());
    assert(out@.skip(o0.len() as int).map_values(|g: Grouping| grouping_entry(g)) + groupings_in(rows@, i as int, kv, 0)
        =~= groupings_in(rows@, i as int, kv, 0));
    while q < named.len()
        invariant
            q <= named@.len(),
            i < rows@.len(),
            kv == named@.map_values(|k: usize| k as int),
            kv == named_kids(rows@, i as int),
            forall|w: int| 0 <= w < named@.len() ==> i < #[trigger] named@[w] < rows@.len(),
            out@.len() >= o0.len(),
            out@.take(o0.len() as int) == o0,
            out@.skip(o0.len() as int).map_values(|g: Grouping| grouping_entry(g)) + groupings_in(rows@, i as int, kv, q as int)
                == groupings_in(rows@, i as int, kv, 0),
            forall|k: int| o0.len() <= k < out@.len() ==> (#[trigger] out@[k]).module@ == module@ && out@[k].file == f && out@[k].node < rows@.len(),
        decreases named@.len() - q,
    {
        let c = named[q];
        let ghost before = out@;
        assert(kv[q as int] == c as int);
        if str_eq(rows[c].kind.as_str(), "grouping_stmt") {
            match arg_of_exec(rows, c) {
                Some(name) => {
                    out.push(Grouping { module: module.clone(), name, file: f, node: c });
                },
                None => {},
            }
        }
        let ghost mid = out@;
        collect_groupings(rows, c, module, f, out);
        proof {
            let own = if rows@[c as int].kind@ == "grouping_stmt"@ && arg_of(rows@, c as int) is Some {
                seq![(arg_of(rows@, c as int)->0, c as int)]
            } else {
                Seq::<(Seq<char>, int)>::empty()
            };
            assert(mid.skip(before.len() as int).map_values(|g: Grouping| grouping_entry(g)) =~= own);
            assert(out@.take(mid.len() as int) == mid);
            assert(mid.len() >= before.len());
            assert(forall|j: int| 0 <= j < before.len() ==> mid[j] == before[j]);
            assert(forall|j: int| 0 <= j < mid.len() ==> #[trigger] out@[j] == mid[j]) by {
                assert forall|j: int| 0 <= j < mid.len() implies #[trigger] out@[j] == mid[j] by {
                    assert(out@.take(mid.len() as int)[j] == out@[j]);
                }
            }
            assert(out@.skip(o0.len() as int) =~= before.skip(o0.len() as int) + mid.skip(before.len() as int) + out@.skip(mid.len() as int)) by {
                assert forall|k: int| 0 <= k < out@.len() - o0.len() implies #[trigger] out@.skip(o0.len() as int)[k]
                    == (before.skip(o0.len() as int) + mid.skip(before.len() as int) + out@.skip(mid.len() as int))[k] by {
                    let j = o0.len() + k;
                    if j < before.len() {
                        assert(out@[j] == mid[j] && mid[j] == before[j]);
                    } else if j < mid.len() {
                        assert(out@[j] == mid[j]);
                    }
                }
            }
            assert(out@.skip(o0.len() as int).map_values(|g: Grouping| grouping_entry(g))
                =~= before.skip(o0.len() as int).map_values(|g: Grouping| grouping_entry(g)) + own + groupings_under(rows@, c as int));
            assert(groupings_in(rows@, i as int, kv, q as int) == own + groupings_under(rows@, c as int) + groupings_in(rows@, i as int, kv, q + 1));
            assert(out@.take(o0.len() as int) =~= o0) by {
                assert(before.take(o0.len() as int) == o0);
                assert forall|k: int| 0 <= k < o0.len() implies out@[k] == o0[k] by {
                    assert(out@[k] == mid[k]);
                    assert(mid[k] == before[k]);
                }
            }
            assert forall|k: int| o0.len() <= k < out@.len() implies (#[trigger] out@[k]).module@ == module@ && out@[k].file == f && out@[k].node < rows@.len() by {
                if k < before.len() {
                    assert(out@[k] == mid[k] && mid[k] == before[k]);
                } else if k < mid.len() {
                    assert(out@[k] == mid[k]);
                }
            }
        }
        q = q + 1;
    }
    assert(groupings_in(rows@, i as int, kv, q as int) =~= Seq::<(Seq<char>, int)>::empty());
    assert(out@.skip(o0.len() as int).map_values(|g: Grouping| grouping_entry(g)) + Seq::<(Seq<char>, int)>::empty()
        =~= out@.skip(o0.len() as int).map_values(|g: Grouping| grouping_entry(g)));
}

/// A syntax node as plain values: kind, field, depth, named, text.
pub open spec fn row_view(n: SyntaxNode) -> (Seq<char>, Option<Seq<char>>, nat, bool, Seq<char>) {
    (n.kind@, crate::gnmi::opt_view(n.field), n.depth as nat, n.named, n.text@)
}

/// The nodes of a syntax tree as plain values.
pub open spec fn rows_view(rows: Seq<SyntaxNode>) -> Seq<(Seq<char>, Option<Seq<char>>, nat, bool, Seq<char>)> {
    rows.map_values(|n: SyntaxNode| row_view(n))
}

/// What the `tree_sitter_yang` grammar makes of `text`: `None` when the
/// grammar cannot be loaded; `Some(None)` when the parser gives up;
/// otherwise whether the parse needed error recovery, and the nodes of the
/// tree in document order.
pub uninterp spec fn yang_syntax(text: Seq<char>) -> Option<Option<(bool, Seq<(Seq<char>, Option<Seq<char>>, nat, bool, Seq<char>)>)>>;

/// Parses `text` with a new `tree_sitter::Parser` set to the
/// `tree_sitter_yang` language (`Parser::parse` with no earlier tree), and
/// reads the tree's nodes in document order (`TreeCursor::goto_descendant`
/// over `descendant_count` positions) as kind, field name, depth, whether
/// named, and source text; the flag is the root's `has_error`. The result is
/// named, not stated.
#[verifier::external_body]
fn parse_yang(text: &str) -> (r: Option<Option<(bool, Vec<SyntaxNode>)>>)
    ensures
        match r {
            None => yang_syntax(text@) is None,
            Some(None) => yang_syntax(text@) == Some(None::<(bool, Seq<(Seq<char>, Option<Seq<char>>, nat, bool, Seq<char>)>)>),
            Some(Some(p)) => yang_syntax(text@) == Some(Some((p.0, rows_view(p.1@)))),
        },
{
    let mut p = tree_sitter::Parser::new();
    p.set_language(&tree_sitter_yang::LANGUAGE.into()).ok()?;
    let Some(tree) = p.parse(text, None) else { return Some(None) };
    let root = tree.root_node();
    let mut c = tree.walk();
    let rows = (0..root.descendant_count()).map(|i| {
        c.goto_descendant(i);
        let n = c.node();
        SyntaxNode { kind: n.kind().into(), field: c.field_name().map(Into::into), depth: c.depth() as usize, named: n.is_named(), text: n.utf8_text(text.as_bytes()).unwrap_or("").into() }
    }).collect();
    Some(Some((root.has_error(), rows)))
}

/// The modules found in `files`, in order: (file, position, name, is a module).
pub open spec fn modules_in(files: Seq<Vec<SyntaxNode>>) -> Seq<(int, int, Seq<char>, bool)>
    decreases files.len(),
{
    if files.len() == 0 {
        Seq::empty()
    } else {
        let p = modules_in(files.drop_last());
        match module_stmt_of(files.last()@) {
            Some(m) => p.push((files.len() - 1, m.0, m.1, m.2)),
            None => p,
        }
    }
}

/// The groupings of the modules `ms`, in order, each as (module name, name,
/// file, position).
pub open spec fn groupings_of(files: Seq<Vec<SyntaxNode>>, ms: Seq<(int, int, Seq<char>, bool)>) -> Seq<(Seq<char>, Seq<char>, int, int)>
    decreases ms.len(),
{
    if ms.len() == 0 {
        Seq::empty()
    } else {
        let m = ms.last();
        groupings_of(files, ms.drop_last()) + groupings_under(files[m.0]@, m.1).map_values(|g: (Seq<char>, int)| (m.2, g.0, m.0, g.1))
    }
}

/// The schema was read from `files`: its modules with their imports, and
/// every grouping of every module.
pub open spec fn schema_from(sch: YangSchema, files: Seq<Vec<SyntaxNode>>) -> bool {
    &&& sch.files@ == files
    &&& sch.modules@.len() == modules_in(files).len()
    &&& forall|k: int| 0 <= k < sch.modules@.len() ==> {
        let m = modules_in(files)[k];
        &&& (#[trigger] sch.modules@[k]).file == m.0
        &&& sch.modules@[k].root == m.1
        &&& sch.modules@[k].name@ == m.2
        &&& sch.modules@[k].imports@.map_values(|p: (String, String)| (p.0@, p.1@)) == imports_from(files[m.0]@, named_kids(files[m.0]@, m.1), 0)
    }
    &&& sch.groupings@.map_values(|g: Grouping| (g.module@, g.name@, g.file as int, g.node as int)) == groupings_of(files, modules_in(files))
}

/// The root node of a module: its name, path `/`, and its data tree.
pub open spec fn module_root(sch: YangSchema, m: (int, int, Seq<char>, bool)) -> YangModel {
    YangModel {
        id: "yang:"@ + m.2,
        label: m.2,
        path: "/"@,
        resolved: true,
        kind: NodeKind::Group,
        children: build_stmt(sch, m.0, m.1, m.2, Seq::empty(), Set::empty(), 0),
    }
}

/// The namespaces the modules (not submodules) `ms` declare, by module name;
/// a later module of the same name replaces an earlier one.
pub open spec fn namespaces_of(files: Seq<Vec<SyntaxNode>>, ms: Seq<(int, int, Seq<char>, bool)>) -> Map<Seq<char>, Seq<char>>
    decreases ms.len(),
{
    if ms.len() == 0 {
        Map::empty()
    } else {
        let m = ms.last();
        let p = namespaces_of(files, ms.drop_last());
        if m.3 && namespace_of(files[m.0]@, m.1) is Some {
            p.insert(m.2, namespace_of(files[m.0]@, m.1)->0)
        } else {
            p
        }
    }
}

/// Accumulates the YANG files read from a set of directories.
pub struct YangReader {
    pub files: Vec<Vec<SyntaxNode>>,
    pub errors: Vec<FileErrors>,
    pub dir_files: Vec<DirFiles>,
    /// Whether the YANG grammar could be loaded.
    pub grammar: bool,
}

impl YangReader {
    /// A reader with the YANG grammar loaded (as the parse of an empty
    /// text shows); if it cannot be loaded, the reader holds that one error
    /// and reads nothing.
    pub fn new() -> (r: Self)
        ensures
            r.files@.len() == 0,
            r.dir_files@.len() == 0,
            r.grammar_loaded() == (yang_syntax(Seq::empty()) is Some),
            r.grammar_loaded() ==> r.errors@.len() == 0,
            !r.grammar_loaded() ==> crate::mib::errors_view(r.errors@) == seq![("<internal>"@, seq!["failed to load YANG grammar"@])],
    {
        let probe = parse_yang("");
        proof {
            reveal_strlit("");
            assert(""@ =~= Seq::<char>::empty());
        }
        let grammar = probe.is_some();
        let mut errors: Vec<FileErrors> = Vec::new();
        if !grammar {
            crate::mib::push_error(&mut errors, "<internal>", "failed to load YANG grammar".to_owned());
            assert(crate::mib::first_file_from(crate::mib::errors_view(Seq::<FileErrors>::empty()), "<internal>"@, 0) is None);
        }
        YangReader { files: Vec::new(), errors, dir_files: Vec::new(), grammar }
    }

    /// Whether the YANG grammar could be loaded.
    pub open spec fn grammar_loaded(&self) -> bool {
        self.grammar
    }

    /// Records the files listed in a directory.
    pub fn add_dir(&mut self, dir: String, files: Vec<String>)
        ensures
            final(self).dir_files@.len() == old(self).dir_files@.len() + 1,
            final(self).dir_files@.last().dir == dir,
            final(self).dir_files@.last().files == files,
            final(self).files == old(self).files,
            final(self).errors == old(self).errors,
            final(self).grammar_loaded() == old(self).grammar_loaded(),
    {
        self.dir_files.push(DirFiles { dir, files });
    }

    /// Records that a directory (or a path under it) could not be read.
    pub fn add_dir_error(&mut self, dir: &str, msg: String)
        ensures
            crate::mib::errors_view(final(self).errors@) == crate::mib::with_error(crate::mib::errors_view(old(self).errors@), dir@, msg@),
            final(self).files == old(self).files,
            final(self).dir_files == old(self).dir_files,
            final(self).grammar_loaded() == old(self).grammar_loaded(),
    {
        crate::mib::push_error(&mut self.errors, dir, msg);
    }

    /// Parses one YANG file's text (see `yang_syntax`). A file the parser
    /// gives up on is reported; one parsed with recovery is reported and
    /// kept; nothing is read without the grammar.
    pub fn add_source(&mut self, file: &str, text: &str)
        ensures
            final(self).grammar_loaded() == old(self).grammar_loaded(),
            final(self).dir_files == old(self).dir_files,
            match (old(self).grammar_loaded(), yang_syntax(text@)) {
                (true, Some(Some((bad, rows)))) => {
                    &&& final(self).files@.len() == old(self).files@.len() + 1
                    &&& final(self).files@.drop_last() == old(self).files@
                    &&& rows_view(final(self).files@.last()@) == rows
                    &&& crate::mib::errors_view(final(self).errors@) == if bad {
                            crate::mib::with_error(crate::mib::errors_view(old(self).errors@), file@, crate::mib::syntax_error_message())
                        } else {
                            crate::mib::errors_view(old(self).errors@)
                        }
                },
                (true, Some(None)) => {
                    &&& final(self).files == old(self).files
                    &&& crate::mib::errors_view(final(self).errors@)
                        == crate::mib::with_error(crate::mib::errors_view(old(self).errors@), file@, "failed to parse"@)
                },
                _ => final(self).files == old(self).files && final(self).errors == old(self).errors,
            },
    {
        if !self.grammar {
            return;
        }
        match parse_yang(text) {
            None => {},
            Some(None) => {
                crate::mib::push_error(&mut self.errors, file, "failed to parse".to_owned());
            },
            Some(Some((bad, rows))) => {
                if bad {
                    crate::mib::push_error(&mut self.errors, file, "contains syntax errors (parsed on a best-effort basis)".to_owned());
                }
                self.files.push(rows);
                assert(self.files@.drop_last() =~= old(self).files@);
            },
        }
    }
}

fn module_stmt_exec(rows: &Vec<SyntaxNode>) -> (r: Option<(usize, String, bool)>)
    ensures
        match r {
            Some(m) => module_stmt_of(rows@) == Some((m.0 as int, m.1@, m.2)) && m.0 < rows@.len(),
            None => module_stmt_of(rows@) is None,
        },
{
    if rows.len() == 0 {
        return None;
    }
    let ks = kid_list(rows, 0);
    let named = named_list(rows, &ks);
    proof {
        lemma_kids_from(rows@, 0, 1);
    }
    if named.len() == 0 {
        return None;
    }
    let m = named[0];
    assert(named@.map_values(|k: usize| k as int)[0] == m as int);
    let is_module = str_eq(rows[m].kind.as_str(), "module_stmt");
    if !is_module && !str_eq(rows[m].kind.as_str(), "submodule_stmt") {
        return None;
    }
    match arg_of_exec(rows, m) {
        Some(name) => Some((m, name, is_module)),
        None => None,
    }
}

fn namespace_exec(rows: &Vec<SyntaxNode>, m: usize) -> (r: Option<String>)
    requires
        m < rows@.len(),
    ensures
        match r {
            Some(s) => namespace_of(rows@, m as int) == Some(s@),
            None => namespace_of(rows@, m as int) is None,
        },
{
    let ks = kid_list(rows, m);
    let named = named_list(rows, &ks);
    proof {
        lemma_kids_from(rows@, m as int, m + 1);
    }
    match find_kind(rows, &named, "namespace_stmt") {
        Some(n) => arg_of_exec(rows, n),
        None => None,
    }
}

impl YangReader {
    /// The browse tree of everything read: one root per module or
    /// submodule (`yang:<name>`, path `/`), in file order, holding its data
    /// tree (see `build_stmt`); with the errors and directory listings
    /// recorded, and each module's namespace. Without a grammar, only the
    /// errors.
    pub fn finish(self) -> (r: YangParseResult)
        ensures
            !self.grammar_loaded() ==> r.tree@.len() == 0 && r.errors == self.errors && r.dir_files@.len() == 0
                && r.module_namespaces@.len() == 0,
            self.grammar_loaded() ==> {
                &&& r.errors == self.errors
                &&& r.dir_files == self.dir_files
                &&& exists|sch: YangSchema| {
                    &&& schema_from(sch, self.files@)
                    &&& schema_valid(sch)
                    &&& yang_models(r.tree@) == modules_in(self.files@).map_values(|m: (int, int, Seq<char>, bool)| module_root(sch, m))
                }
                &&& crate::assoc::assoc_unique(r.module_namespaces@)
                &&& crate::snmp::text_map(r.module_namespaces@) == namespaces_of(self.files@, modules_in(self.files@))
            },
    {
        let YangReader { files, errors, dir_files, grammar } = self;
        if !grammar {
            return YangParseResult { tree: Vec::new(), errors, dir_files: Vec::new(), module_namespaces: Vec::new() };
        }
        let ghost fv = files@;
        let mut modules: Vec<YangModule> = Vec::new();
        let mut groupings: Vec<Grouping> = Vec::new();
        let mut namespaces: Vec<(String, String)> = Vec::new();
        let mut f: usize = 0;
        assert(fv.take(0) =~= Seq::<Vec<SyntaxNode>>::empty());
        assert(groupings@.map_values(|g: Grouping| (g.module@, g.name@, g.file as int, g.node as int)) =~= Seq::<(Seq<char>, Seq<char>, int, int)>::empty());
        assert(crate::snmp::text_map(namespaces@) =~= Map::<Seq<char>, Seq<char>>::empty());
        while f < files.len()
            invariant
                f <= files@.len(),
                fv == files@,
                modules@.len() == modules_in(fv.take(f as int)).len(),
                forall|k: int| 0 <= k < modules@.len() ==> {
                    let m = modules_in(fv.take(f as int))[k];
                    &&& (#[trigger] modules@[k]).file == m.0
                    &&& modules@[k].root == m.1
                    &&& modules@[k].name@ == m.2
                    &&& 0 <= m.0 < f
                    &&& modules@[k].root < fv[m.0]@.len()
                    &&& modules@[k].imports@.map_values(|p: (String, String)| (p.0@, p.1@)) == imports_from(fv[m.0]@, named_kids(fv[m.0]@, m.1), 0)
                },
                groupings@.map_values(|g: Grouping| (g.module@, g.name@, g.file as int, g.node as int)) == groupings_of(fv, modules_in(fv.take(f as int))),
                forall|g: int| 0 <= g < groupings@.len() ==> (#[trigger] groupings@[g]).file < f && groupings@[g].node < fv[groupings@[g].file as int]@.len(),
                crate::assoc::assoc_unique(namespaces@),
                crate::snmp::text_map(namespaces@) == namespaces_of(fv, modules_in(fv.take(f as int))),
            decreases files@.len() - f,
        {
            let rows = &files[f];
            let ghost mods_before = modules_in(fv.take(f as int));
            proof {
                assert(fv.take(f + 1).drop_last() =~= fv.take(f as int));
                assert(fv.take(f + 1).last() == fv[f as int]);
                assert forall|k: int| 0 <= k < mods_before.len() implies #[trigger] mods_before[k].0 < f by {
                    assert(modules@[k].file == mods_before[k].0);
                }
            }
            match module_stmt_exec(rows) {
                Some((m, name, is_module)) => {
                    let imports = imports_exec(rows, m);
                    let ghost g_before = groupings@;
                    collect_groupings(rows, m, &name, f, &mut groupings);
                    proof {
                        let entry = (f as int, m as int, name@, is_module);
                        assert(modules_in(fv.take(f + 1)) == mods_before.push(entry));
                        let gu = groupings_under(fv[f as int]@, m as int);
                        let add = gu.map_values(|g: (Seq<char>, int)| (entry.2, g.0, entry.0, g.1));
                        assert(groupings_of(fv, mods_before.push(entry)) == groupings_of(fv, mods_before) + add) by {
                            assert(mods_before.push(entry).drop_last() =~= mods_before);
                        }
                        let gv = groupings@.map_values(|g: Grouping| (g.module@, g.name@, g.file as int, g.node as int));
                        let gbv = g_before.map_values(|g: Grouping| (g.module@, g.name@, g.file as int, g.node as int));
                        assert(groupings@.take(g_before.len() as int) == g_before);
                        assert forall|k: int| 0 <= k < gv.len() implies #[trigger] gv[k] == (gbv + add)[k] by {
                            if k < g_before.len() {
                                assert(groupings@.take(g_before.len() as int)[k] == groupings@[k]);
                            } else {
                                let j = k - g_before.len();
                                assert(groupings@.skip(g_before.len() as int)[j] == groupings@[k]);
                                assert(groupings@.skip(g_before.len() as int).map_values(|g: Grouping| grouping_entry(g))[j] == gu[j]);
                            }
                        }
                        assert(gv.len() == (gbv + add).len()) by {
                            assert(groupings@.skip(g_before.len() as int).map_values(|g: Grouping| grouping_entry(g)).len() == gu.len());
                        }
                        assert(gv =~= gbv + add);
                        assert forall|g: int| 0 <= g < groupings@.len() implies (#[trigger] groupings@[g]).file < f + 1 && groupings@[g].node < fv[groupings@[g].file as int]@.len() by {
                            if g < g_before.len() {
                                assert(groupings@.take(g_before.len() as int)[g] == groupings@[g]);
                            }
                        }
                    }
                    if is_module {
                        match namespace_exec(rows, m) {
                            Some(ns) => {
                                let ghost nb = namespaces@;
                                let ghost nsv = ns@;
                                crate::assoc::assoc_upsert(&mut namespaces, name.clone(), ns);
                                assert(crate::snmp::text_map(namespaces@) =~= crate::snmp::text_map(nb).insert(name@, nsv));
                            },
                            None => {},
                        }
                    }
                    let ghost mb = modules@;
                    modules.push(YangModule { name, file: f, root: m, imports });
                    proof {
                        let entry = (f as int, m as int, name@, is_module);
                        assert(modules_in(fv.take(f + 1)) == mods_before.push(entry));
                        assert forall|k: int| 0 <= k < modules@.len() implies {
                            let mm = modules_in(fv.take(f + 1))[k];
                            &&& (#[trigger] modules@[k]).file == mm.0
                            &&& modules@[k].root == mm.1
                            &&& modules@[k].name@ == mm.2
                            &&& 0 <= mm.0 < f + 1
                            &&& modules@[k].root < fv[mm.0]@.len()
                            &&& modules@[k].imports@.map_values(|p: (String, String)| (p.0@, p.1@)) == imports_from(fv[mm.0]@, named_kids(fv[mm.0]@, mm.1), 0)
                        } by {
                            if k < mb.len() {
                                assert(modules@[k] == mb[k]);
                            }
                        }
                        assert(namespaces_of(fv, mods_before.push(entry)) == if is_module && namespace_of(fv[f as int]@, m as int) is Some {
                            namespaces_of(fv, mods_before).insert(name@, namespace_of(fv[f as int]@, m as int)->0)
                        } else {
                            namespaces_of(fv, mods_before)
                        }) by {
                            assert(mods_before.push(entry).drop_last() =~= mods_before);
                        }
                    }
                },
                None => {
                    assert(modules_in(fv.take(f + 1)) == mods_before);
                },
            }
            f = f + 1;
        }
        assert(fv.take(files@.len() as int) =~= fv);
        let sch = YangSchema { files, modules, groupings };
        assert(schema_valid(sch));
        assert(schema_from(sch, fv));
        let mut tree: Vec<YangTreeNode> = Vec::new();
        let mut k: usize = 0;
        let ghost ms = modules_in(fv);
        let empty_visiting: Vec<(Vec<char>, Vec<char>)> = Vec::new();
        assert(visit_set(empty_visiting@) =~= Set::<(Seq<char>, Seq<char>)>::empty());
        while k < sch.modules.len()
            invariant
                k <= sch.modules@.len(),
                schema_from(sch, fv),
                schema_valid(sch),
                ms == modules_in(fv),
                empty_visiting@.len() == 0,
                visit_set(empty_visiting@) == Set::<(Seq<char>, Seq<char>)>::empty(),
                yang_models(tree@) == ms.take(k as int).map_values(|m: (int, int, Seq<char>, bool)| module_root(sch, m)),
            decreases sch.modules@.len() - k,
        {
            let m = &sch.modules[k];
            let nc = chars_of(m.name.as_str());
            let no_prefix: Vec<char> = Vec::new();
            let children = build_children(&sch, m.file, m.root, nc.as_slice(), no_prefix.as_slice(), &empty_visiting, 0);
            let mut id: Vec<char> = Vec::new();
            push_str(&mut id, "yang:");
            push_chars(&mut id, nc.as_slice());
            let node = YangTreeNode {
                id: string_of(id.as_slice()),
                label: m.name.clone(),
                path: "/".to_owned(),
                resolved: true,
                kind: NodeKind::Group,
                children,
            };
            let ghost before = tree@;
            tree.push(node);
            proof {
                assert(no_prefix@ =~= Seq::<char>::empty());
                assert(id@ =~= "yang:"@ + m.name@);
                let mm = ms[k as int];
                assert(yang_model(node) == module_root(sch, mm));
                assert(tree@.drop_last() =~= before);
                assert(ms.take(k + 1) =~= ms.take(k as int).push(mm));
                assert(ms.take(k + 1).map_values(|m: (int, int, Seq<char>, bool)| module_root(sch, m))
                    =~= ms.take(k as int).map_values(|m: (int, int, Seq<char>, bool)| module_root(sch, m)).push(module_root(sch, mm)));
            }
            k = k + 1;
        }
        assert(ms.take(ms.len() as int) =~= ms);
        YangParseResult { tree, errors, dir_files, module_namespaces: namespaces }
    }
}


/// Every container, list, leaf, leaf-list, anydata and anyxml statement with
/// a name gives exactly one tree node, at `prefix/module:name`, resolved: a
/// container is a group, a list a table, and the other four are scalars,
/// which have no children.
pub proof fn lemma_data_statement_gives_one_node(
    sch: YangSchema,
    f: int,
    c: int,
    origin: Seq<char>,
    prefix: Seq<char>,
    visiting: Set<(Seq<char>, Seq<char>)>,
    depth: nat,
    name: Seq<char>,
)
    requires
        depth <= 200,
        0 <= f < sch.files@.len(),
        0 <= c < sch.files@[f]@.len(),
        ({
            let k = sch.files@[f]@[c].kind@;
            k == "container_stmt"@ || k == "list_stmt"@ || k == "leaf_stmt"@ || k == "leaf_list_stmt"@
                || k == "anydata_stmt"@ || k == "anyxml_stmt"@
        }),
        arg_of(sch.files@[f]@, c) == Some(name),
    ensures
        ({
            let out = node_out(sch, f, c, origin, prefix, visiting, depth);
            let k = sch.files@[f]@[c].kind@;
            &&& out.len() == 1
            &&& out[0].path == prefix + seq!['/'] + origin + seq![':'] + name
            &&& out[0].id == out[0].path
            &&& out[0].resolved
            &&& out[0].kind == (if k == "container_stmt"@ {
                NodeKind::Group
            } else if k == "list_stmt"@ {
                NodeKind::Table
            } else {
                NodeKind::Scalar
            })
            &&& (k != "container_stmt"@ && k != "list_stmt"@) ==> out[0].children.len() == 0
        }),
{
    let k = sch.files@[f]@[c].kind@;
    assert(is_data_kind(k));
}

} // verus!
