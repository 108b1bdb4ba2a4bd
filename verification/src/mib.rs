//! MIB symbols and their resolution to absolute OIDs.
//!
//! OID values in MIB source are relative (`::= { interfaces 2 }`): turning
//! them into absolute dotted OIDs needs the full path of whatever symbol they
//! name, which may be declared in another file, and that symbol's ancestors in
//! turn. Every file is first read into a flat list of `RawSymbol`s; a
//! fixed-point pass over the whole list then resolves what it can. Whatever is
//! left (most often because a root MIB was not among the configured
//! directories) is reported as unresolved rather than guessed.
//!
//! The browse tree is built from the declared parent names (the first
//! component of each OID value), not from the resolved numbers, so an
//! unresolved node still lands under its nominal parent.

use vstd::prelude::*;
use crate::assoc::{assoc_find, assoc_index, assoc_map, assoc_unique, assoc_upsert, lemma_assoc_map};
use crate::smi::{apply_seq_types, decl_symbols, module_decls, seq_types_view, symbol_decls, walk_module};
use crate::text::{chars_less, chars_lt, chars_of, decimal, decimal_chars, lemma_insert_by_name, name_insert_point, push_char, quoted_message, sort_by_name, str_eq, string_of, string_views};

verus! {

/// How a node is shown in the browse tree.
#[derive(Clone, Copy, PartialEq, Eq, Structural, Debug)]
pub enum NodeKind {
    Group,
    Scalar,
    Table,
}

/// What a MIB assignment declared.
#[derive(Clone, Copy, PartialEq, Eq, Structural, Debug)]
pub enum RawKind {
    Group,
    Scalar,
    Table,
    /// A notification or trap: kept as a symbol, never shown in the tree.
    Other,
}

/// One component of an OID value: `2`, `mib-2(1)` or `interfaces`.
pub enum OidComponent {
    Number(u32),
    Named(String, u32),
    Ident(String),
}

/// One symbol as declared in a MIB file, before resolution.
pub struct RawSymbol {
    pub name: String,
    pub oid: Vec<OidComponent>,
    pub kind: RawKind,
    /// The entry type `X` when the SYNTAX is `SEQUENCE OF X`.
    pub sequence_of_target: Option<String>,
    pub enum_values: Vec<(i64, String)>,
    /// The file the symbol was declared in, for grouping error messages.
    pub file: String,
}

/// The errors reported against one file (or directory).
pub struct FileErrors {
    pub file: String,
    pub errors: Vec<String>,
}

/// A resolution table: symbol names with their absolute arcs, in the order
/// they were resolved.
pub type OidTable = Vec<(String, Vec<u32>)>;

/// No name occurs twice among the keys.
pub open spec fn keys_unique(t: Seq<(String, Vec<u32>)>) -> bool {
    forall|i: int, j: int| 0 <= i < j < t.len() ==> t[i].0@ != t[j].0@
}

/// The table as a map from names to arcs.
pub open spec fn table_map(t: Seq<(String, Vec<u32>)>) -> Map<Seq<char>, Seq<u32>>
    decreases t.len(),
{
    if t.len() == 0 {
        Map::empty()
    } else {
        table_map(t.drop_last()).insert(t.last().0@, t.last().1@)
    }
}

/// With unique keys, the map holds exactly the table's entries.
pub proof fn lemma_table_map(t: Seq<(String, Vec<u32>)>)
    requires
        keys_unique(t),
    ensures
        forall|k: Seq<char>| #[trigger] table_map(t).contains_key(k) <==> exists|i: int| 0 <= i < t.len() && t[i].0@ == k,
        forall|i: int| 0 <= i < t.len() ==> #[trigger] table_map(t)[t[i].0@] == t[i].1@,
    decreases t.len(),
{
    if t.len() > 0 {
        let p = t.drop_last();
        assert(keys_unique(p));
        lemma_table_map(p);
        assert forall|k: Seq<char>| #[trigger] table_map(t).contains_key(k) <==> exists|i: int| 0 <= i < t.len() && t[i].0@ == k by {
            assert(table_map(t) == table_map(p).insert(t.last().0@, t.last().1@));
            if table_map(t).contains_key(k) {
                if k == t.last().0@ {
                    assert(t[t.len() - 1].0@ == k);
                } else {
                    assert(table_map(p).contains_key(k));
                    let i = choose|i: int| 0 <= i < p.len() && p[i].0@ == k;
                    assert(t[i].0@ == k);
                }
            }
            if exists|i: int| 0 <= i < t.len() && t[i].0@ == k {
                let i = choose|i: int| 0 <= i < t.len() && t[i].0@ == k;
                if i < t.len() - 1 {
                    assert(p[i].0@ == k);
                }
            }
        }
        assert forall|i: int| 0 <= i < t.len() implies #[trigger] table_map(t)[t[i].0@] == t[i].1@ by {
            assert(table_map(t) == table_map(p).insert(t.last().0@, t.last().1@));
            if i < t.len() - 1 {
                assert(p[i] == t[i]);
                assert(t[i].0@ != t[t.len() - 1].0@);
                assert(table_map(p)[p[i].0@] == p[i].1@);
            }
        }
    }
}

/// Each prefix of a table maps into the whole table.
pub proof fn lemma_table_prefix(t: Seq<(String, Vec<u32>)>, n: int)
    requires
        keys_unique(t),
        0 <= n <= t.len(),
    ensures
        table_map(t.take(n)).submap_of(table_map(t)),
{
    let p = t.take(n);
    assert(keys_unique(p));
    lemma_table_map(p);
    lemma_table_map(t);
    assert forall|k: Seq<char>| #[trigger] table_map(p).contains_key(k) implies table_map(t).contains_key(k) && table_map(p)[k] == table_map(t)[k] by {
        let i = choose|i: int| 0 <= i < p.len() && p[i].0@ == k;
        assert(p[i] == t[i]);
    }
}

/// Where `name` stands among the table's keys.
pub fn find_key(t: &Vec<(String, Vec<u32>)>, name: &str) -> (r: Option<usize>)
    ensures
        match r {
            Some(i) => i < t@.len() && t@[i as int].0@ == name@,
            None => forall|j: int| 0 <= j < t@.len() ==> t@[j].0@ != name@,
        },
{
    let mut i: usize = 0;
    while i < t.len()
        invariant
            i <= t@.len(),
            forall|j: int| 0 <= j < i ==> t@[j].0@ != name@,
        decreases t@.len() - i,
    {
        if str_eq(t[i].0.as_str(), name) {
            return Some(i);
        }
        i = i + 1;
    }
    None
}

/// The arcs an OID value reaches, read left to right: a number or a
/// `name(number)` appends its arc, a bare name restarts from that name's
/// arcs (and fails when the name is not in `table`).
pub open spec fn resolve_steps(comps: Seq<OidComponent>, table: Map<Seq<char>, Seq<u32>>) -> Option<Seq<u32>>
    decreases comps.len(),
{
    if comps.len() == 0 {
        Some(Seq::empty())
    } else {
        match resolve_steps(comps.drop_last(), table) {
            None => None,
            Some(p) => match comps.last() {
                OidComponent::Number(n) => Some(p.push(n)),
                OidComponent::Named(_, v) => Some(p.push(v)),
                OidComponent::Ident(name) => if table.contains_key(name@) {
                    Some(table[name@])
                } else {
                    None
                },
            },
        }
    }
}

/// The absolute arcs of an OID value under `table`; an empty value resolves
/// to nothing.
pub open spec fn resolve_spec(comps: Seq<OidComponent>, table: Map<Seq<char>, Seq<u32>>) -> Option<Seq<u32>> {
    if comps.len() == 0 {
        None
    } else {
        resolve_steps(comps, table)
    }
}

/// A resolution that succeeds stays the same when the table grows.
pub proof fn lemma_resolve_monotonic(comps: Seq<OidComponent>, m1: Map<Seq<char>, Seq<u32>>, m2: Map<Seq<char>, Seq<u32>>)
    requires
        m1.submap_of(m2),
        resolve_steps(comps, m1) is Some,
    ensures
        resolve_steps(comps, m2) == resolve_steps(comps, m1),
    decreases comps.len(),
{
    if comps.len() > 0 {
        lemma_resolve_monotonic(comps.drop_last(), m1, m2);
    }
}

/// The arc a number or `name(number)` component stands for.
pub open spec fn literal_arc(c: OidComponent) -> u32 {
    match c {
        OidComponent::Number(n) => n,
        OidComponent::Named(_, v) => v,
        OidComponent::Ident(_) => 0,
    }
}

/// Resolving an OID value appends, for every number or `name(number)`
/// component after the last bare name, exactly that number to the arcs the
/// value has reached so far: `{ iso org(3) dod(6) 1 }` reaches the arcs of
/// `iso` followed by 3, 6 and 1, one more arc per component.
pub proof fn lemma_resolve_appends_numbers(head: Seq<OidComponent>, tail: Seq<OidComponent>, table: Map<Seq<char>, Seq<u32>>)
    requires
        forall|i: int| 0 <= i < tail.len() ==> !(#[trigger] tail[i] is Ident),
    ensures
        resolve_steps(head + tail, table) == match resolve_steps(head, table) {
            Some(p) => Some(p + tail.map_values(|c: OidComponent| literal_arc(c))),
            None => None::<Seq<u32>>,
        },
        resolve_steps(head, table) matches Some(p) ==> resolve_steps(head + tail, table) matches Some(q)
            && q.len() == p.len() + tail.len(),
    decreases tail.len(),
{
    if tail.len() == 0 {
        assert(head + tail =~= head);
        match resolve_steps(head, table) {
            Some(p) => {
                assert(p + tail.map_values(|c: OidComponent| literal_arc(c)) =~= p);
            },
            None => {},
        }
    } else {
        let t1 = tail.drop_last();
        assert forall|i: int| 0 <= i < t1.len() implies !(#[trigger] t1[i] is Ident) by {
            assert(t1[i] == tail[i]);
        }
        lemma_resolve_appends_numbers(head, t1, table);
        assert((head + tail).drop_last() =~= head + t1);
        assert((head + tail).last() == tail.last());
        assert(!(tail[tail.len() - 1] is Ident));
        match resolve_steps(head, table) {
            Some(p) => {
                assert(p + tail.map_values(|c: OidComponent| literal_arc(c))
                    =~= (p + t1.map_values(|c: OidComponent| literal_arc(c))).push(literal_arc(tail.last())));
            },
            None => {},
        }
    }
}

/// The model of an optional vector of arcs.
pub open spec fn opt_arcs(r: Option<Vec<u32>>) -> Option<Seq<u32>> {
    match r {
        Some(v) => Some(v@),
        None => None,
    }
}

fn copy_arcs(v: &Vec<u32>) -> (r: Vec<u32>)
    ensures
        r@ == v@,
{
    let mut out: Vec<u32> = Vec::new();
    let mut i: usize = 0;
    while i < v.len()
        invariant
            i <= v@.len(),
            out@ == v@.take(i as int),
        decreases v@.len() - i,
    {
        out.push(v[i]);
        i = i + 1;
        assert(out@ =~= v@.take(i as int));
    }
    assert(v@.take(v@.len() as int) =~= v@);
    out
}

/// Resolves an OID value to absolute arcs against `table`.
pub fn try_resolve(components: &[OidComponent], table: &Vec<(String, Vec<u32>)>) -> (r: Option<Vec<u32>>)
    requires
        keys_unique(table@),
    ensures
        opt_arcs(r) == resolve_spec(components@, table_map(table@)),
{
    if components.len() == 0 {
        return None;
    }
    proof {
        lemma_table_map(table@);
    }
    let ghost m = table_map(table@);
    let mut path: Vec<u32> = Vec::new();
    let mut i: usize = 0;
    assert(components@.take(0) =~= Seq::<OidComponent>::empty());
    while i < components.len()
        invariant
            i <= components@.len(),
            m == table_map(table@),
            keys_unique(table@),
            forall|k: Seq<char>| #[trigger] m.contains_key(k) <==> exists|j: int| 0 <= j < table@.len() && table@[j].0@ == k,
            forall|j: int| 0 <= j < table@.len() ==> #[trigger] m[table@[j].0@] == table@[j].1@,
            resolve_steps(components@.take(i as int), m) == Some(path@),
        decreases components@.len() - i,
    {
        assert(components@.take(i + 1).drop_last() =~= components@.take(i as int));
        assert(components@.take(i + 1).last() == components@[i as int]);
        match &components[i] {
            OidComponent::Number(n) => {
                path.push(*n);
            },
            OidComponent::Named(_, v) => {
                path.push(*v);
            },
            OidComponent::Ident(name) => {
                match find_key(table, name.as_str()) {
                    Some(j) => {
                        path = copy_arcs(&table[j].1);
                    },
                    None => {
                        assert(!m.contains_key(name@));
                        proof {
                            lemma_resolve_none_extends(components@, i as int + 1, m);
                        }
                        return None;
                    },
                }
            },
        }
        i = i + 1;
    }
    assert(components@.take(components@.len() as int) =~= components@);
    Some(path)
}

proof fn lemma_resolve_none_extends(comps: Seq<OidComponent>, n: int, m: Map<Seq<char>, Seq<u32>>)
    requires
        0 <= n <= comps.len(),
        resolve_steps(comps.take(n), m) is None,
    ensures
        resolve_steps(comps, m) is None,
    decreases comps.len() - n,
{
    if n < comps.len() {
        assert(comps.take(n + 1).drop_last() =~= comps.take(n));
        lemma_resolve_none_extends(comps, n + 1, m);
    } else {
        assert(comps.take(n) =~= comps);
    }
}

/// The top-level arcs of the OID tree, primitives of the notation that MIB
/// source never declares itself (`iso` is 1).
pub open spec fn well_known_roots() -> Seq<(Seq<char>, u32)> {
    seq![
        (seq!['c', 'c', 'i', 't', 't'], 0u32),
        (seq!['i', 't', 'u', '-', 't'], 0u32),
        (seq!['i', 's', 'o'], 1u32),
        (seq!['j', 'o', 'i', 'n', 't', '-', 'i', 's', 'o', '-', 'i', 't', 'u', '-', 't'], 2u32),
        (seq!['j', 'o', 'i', 'n', 't', '-', 'i', 's', 'o', '-', 'c', 'c', 'i', 't', 't'], 2u32),
    ]
}

/// The table starts with the well-known roots, in their order.
pub open spec fn starts_with_roots(t: Seq<(String, Vec<u32>)>) -> bool {
    &&& t.len() >= 5
    &&& forall|i: int| 0 <= i < 5 ==> #[trigger] t[i].0@ == well_known_roots()[i].0 && t[i].1@ == seq![well_known_roots()[i].1]
}

/// Entry `i` was resolved from a declared symbol of that name, against the
/// entries before it.
pub open spec fn entry_derived(raw: Seq<RawSymbol>, t: Seq<(String, Vec<u32>)>, i: int) -> bool {
    exists|j: int| 0 <= j < raw.len() && raw[j].name@ == t[i].0@ && #[trigger] resolve_spec(raw[j].oid@, table_map(t.take(i))) == Some(t[i].1@)
}

/// Every symbol left out of the table fails to resolve against it.
pub open spec fn table_closed(raw: Seq<RawSymbol>, t: Seq<(String, Vec<u32>)>) -> bool {
    forall|j: int| 0 <= j < raw.len() && !table_map(t).contains_key(#[trigger] raw[j].name@) ==> resolve_spec(raw[j].oid@, table_map(t)) is None
}

/// What the resolution pass produces: the roots, then entries each derived
/// from the ones before it, with nothing more derivable.
pub open spec fn resolution_valid(raw: Seq<RawSymbol>, t: Seq<(String, Vec<u32>)>) -> bool {
    &&& keys_unique(t)
    &&& starts_with_roots(t)
    &&& forall|i: int| 5 <= i < t.len() ==> entry_derived(raw, t, i)
    &&& table_closed(raw, t)
}

/// The names of the declared symbols that are not in `m`, in declaration order.
pub open spec fn unresolved_names(raw: Seq<RawSymbol>, m: Map<Seq<char>, Seq<u32>>) -> Seq<Seq<char>>
    decreases raw.len(),
{
    if raw.len() == 0 {
        Seq::empty()
    } else {
        let p = unresolved_names(raw.drop_last(), m);
        if m.contains_key(raw.last().name@) {
            p
        } else {
            p.push(raw.last().name@)
        }
    }
}

/// The well-known roots as a map from names to arcs.
pub open spec fn roots_map() -> Map<Seq<char>, Seq<u32>> {
    let w = well_known_roots();
    Map::empty().insert(w[0].0, seq![w[0].1]).insert(w[1].0, seq![w[1].1]).insert(w[2].0, seq![w[2].1])
        .insert(w[3].0, seq![w[3].1]).insert(w[4].0, seq![w[4].1])
}

/// One pass over the declarations at positions `rem`, in order, starting
/// from the resolutions `m`: a declaration whose name is already resolved
/// is dropped, one that resolves is added, and the rest are kept for the
/// next pass. Gives the resolutions after the pass and the kept positions.
pub open spec fn resolve_pass(raw: Seq<RawSymbol>, m: Map<Seq<char>, Seq<u32>>, rem: Seq<usize>) -> (Map<Seq<char>, Seq<u32>>, Seq<usize>)
    decreases rem.len(),
{
    if rem.len() == 0 {
        (m, Seq::empty())
    } else {
        let prev = resolve_pass(raw, m, rem.drop_last());
        let s = raw[rem.last() as int];
        if prev.0.contains_key(s.name@) {
            prev
        } else {
            match resolve_spec(s.oid@, prev.0) {
                Some(path) => (prev.0.insert(s.name@, path), prev.1),
                None => (prev.0, prev.1.push(rem.last())),
            }
        }
    }
}

/// Passes repeated over the kept declarations while a pass resolves
/// something.
pub open spec fn resolve_passes(raw: Seq<RawSymbol>, m: Map<Seq<char>, Seq<u32>>, rem: Seq<usize>) -> Map<Seq<char>, Seq<u32>>
    decreases rem.len(),
{
    let next = resolve_pass(raw, m, rem);
    if next.0 != m && next.1.len() < rem.len() {
        resolve_passes(raw, next.0, next.1)
    } else {
        next.0
    }
}

/// The resolutions of the declarations `raw`: the passes over all of them,
/// in declaration order, from the well-known roots.
pub open spec fn resolution_map(raw: Seq<RawSymbol>) -> Map<Seq<char>, Seq<u32>> {
    resolve_passes(raw, roots_map(), Seq::new(raw.len(), |i: int| i as usize))
}

fn root_table() -> (r: Vec<(String, Vec<u32>)>)
    ensures
        starts_with_roots(r@),
        table_map(r@) == roots_map(),
        r@.len() == 5,
        keys_unique(r@),
{
    let mut t: Vec<(String, Vec<u32>)> = Vec::new();
    t.push((string_of(&['c', 'c', 'i', 't', 't']), vec![0u32]));
    t.push((string_of(&['i', 't', 'u', '-', 't']), vec![0u32]));
    t.push((string_of(&['i', 's', 'o']), vec![1u32]));
    t.push((string_of(&['j', 'o', 'i', 'n', 't', '-', 'i', 's', 'o', '-', 'i', 't', 'u', '-', 't']), vec![2u32]));
    t.push((string_of(&['j', 'o', 'i', 'n', 't', '-', 'i', 's', 'o', '-', 'c', 'c', 'i', 't', 't']), vec![2u32]));
    assert(t@[0].0@ =~= well_known_roots()[0].0);
    assert(t@[1].0@ =~= well_known_roots()[1].0);
    assert(t@[2].0@ =~= well_known_roots()[2].0);
    assert(t@[3].0@ =~= well_known_roots()[3].0);
    assert(t@[4].0@ =~= well_known_roots()[4].0);
    assert(t@[0].1@ =~= seq![0u32]);
    assert(t@[1].1@ =~= seq![0u32]);
    assert(t@[2].1@ =~= seq![1u32]);
    assert(t@[3].1@ =~= seq![2u32]);
    assert(t@[4].1@ =~= seq![2u32]);
    proof {
        let v = t@;
        let e = Seq::<(String, Vec<u32>)>::empty();
        assert(table_map(e) == Map::<Seq<char>, Seq<u32>>::empty());
        let m0 = Map::<Seq<char>, Seq<u32>>::empty();
        assert(v.take(1).drop_last() =~= e);
        assert(v.take(1).last() == v[0]);
        assert(table_map(v.take(1)) == m0.insert(v[0].0@, v[0].1@));
        assert(v.take(2).drop_last() =~= v.take(1));
        assert(v.take(2).last() == v[1]);
        assert(table_map(v.take(2)) == m0.insert(v[0].0@, v[0].1@).insert(v[1].0@, v[1].1@));
        assert(v.take(3).drop_last() =~= v.take(2));
        assert(v.take(3).last() == v[2]);
        assert(table_map(v.take(3)) == m0.insert(v[0].0@, v[0].1@).insert(v[1].0@, v[1].1@).insert(v[2].0@, v[2].1@));
        assert(v.take(4).drop_last() =~= v.take(3));
        assert(v.take(4).last() == v[3]);
        assert(table_map(v.take(4)) == m0.insert(v[0].0@, v[0].1@).insert(v[1].0@, v[1].1@).insert(v[2].0@, v[2].1@)
            .insert(v[3].0@, v[3].1@));
        assert(v.drop_last() =~= v.take(4));
        assert(v.last() == v[4]);
        assert(table_map(v) == m0.insert(v[0].0@, v[0].1@).insert(v[1].0@, v[1].1@).insert(v[2].0@, v[2].1@)
            .insert(v[3].0@, v[3].1@).insert(v[4].0@, v[4].1@));
    }
    t
}

/// Resolves every declared symbol it can, repeating passes over the
/// unresolved ones until a pass makes no progress. Returns the resolution
/// table and the names left unresolved, in declaration order.
pub fn resolve_oids(raw: &Vec<RawSymbol>) -> (r: (Vec<(String, Vec<u32>)>, Vec<String>))
    ensures
        resolution_valid(raw@, r.0@),
        table_map(r.0@) == resolution_map(raw@),
        string_views(r.1@) == unresolved_names(raw@, table_map(r.0@)),
{
    let mut table = root_table();
    let n: usize = raw.len();
    let mut remaining: Vec<usize> = Vec::new();
    let mut j: usize = 0;
    while j < raw.len()
        invariant
            j <= raw@.len(),
            remaining@.len() == j,
            forall|k: int| 0 <= k < j ==> remaining@[k] == k,
        decreases raw@.len() - j,
    {
        remaining.push(j);
        j = j + 1;
    }
    proof {
        assert forall|q: int| 0 <= q < raw@.len() implies table_map(table@).contains_key(#[trigger] raw@[q].name@) || remaining@.contains(q as usize) by {
            assert(remaining@[q] == q as usize);
        }
        assert(remaining@ =~= Seq::new(raw@.len(), |i: int| i as usize));
    }
    loop
        invariant
            resolve_passes(raw@, table_map(table@), remaining@) == resolution_map(raw@),
            keys_unique(table@),
            starts_with_roots(table@),
            raw@.len() == n,
            forall|i: int| 5 <= i < table@.len() ==> entry_derived(raw@, table@, i),
            forall|k: int| 0 <= k < remaining@.len() ==> remaining@[k] < raw@.len(),
            forall|q: int| 0 <= q < raw@.len() ==> table_map(table@).contains_key(#[trigger] raw@[q].name@) || remaining@.contains(q as usize),
        ensures
            resolution_valid(raw@, table@),
            table_map(table@) == resolution_map(raw@),
        decreases remaining@.len(),
    {
        let ghost t0 = table@;
        let mut progressed = false;
        let mut kept: Vec<usize> = Vec::new();
        let mut k: usize = 0;
        assert(remaining@.subrange(0, remaining@.len() as int) =~= remaining@);
        while k < remaining.len()
            invariant
                k <= remaining@.len(),
                resolve_pass(raw@, table_map(t0), remaining@.take(k as int)) == (table_map(table@), kept@),
                keys_unique(t0),
                t0.len() <= table@.len(),
                table@.take(t0.len() as int) == t0,
                progressed ==> table@.len() > t0.len(),
                raw@.len() == n,
                keys_unique(table@),
                starts_with_roots(table@),
                forall|i: int| 5 <= i < table@.len() ==> entry_derived(raw@, table@, i),
                forall|x: int| 0 <= x < remaining@.len() ==> remaining@[x] < raw@.len(),
                forall|x: int| 0 <= x < kept@.len() ==> kept@[x] < raw@.len(),
                kept@.len() <= k,
                progressed ==> kept@.len() < k,
                !progressed ==> table@ == t0,
                !progressed ==> forall|x: int| 0 <= x < kept@.len() ==> !table_map(table@).contains_key(#[trigger] raw@[kept@[x] as int].name@)
                    && resolve_spec(raw@[kept@[x] as int].oid@, table_map(table@)) is None,
                forall|q: int| 0 <= q < raw@.len() ==> table_map(table@).contains_key(#[trigger] raw@[q].name@)
                    || remaining@.subrange(k as int, remaining@.len() as int).contains(q as usize) || kept@.contains(q as usize),
            decreases remaining@.len() - k,
        {
            let idx = remaining[k];
            let ghost before = table@;
            let ghost kept_before = kept@;
            proof {
                lemma_table_map(table@);
                let pre = remaining@.take(k as int);
                assert(remaining@.take(k + 1).drop_last() =~= pre);
                assert(remaining@.take(k + 1).last() == idx);
            }
            match find_key(&table, raw[idx].name.as_str()) {
                Some(_) => {},
                None => {
                    match try_resolve(raw[idx].oid.as_slice(), &table) {
                        Some(path) => {
                            table.push((raw[idx].name.clone(), path));
                            progressed = true;
                            proof {
                                assert(table@.take(before.len() as int) =~= before);
                                assert(table@.take(t0.len() as int) =~= before.take(t0.len() as int));
                                assert(table@.drop_last() =~= before);
                                assert(entry_derived(raw@, table@, before.len() as int));
                                assert forall|i: int| 5 <= i < table@.len() implies entry_derived(raw@, table@, i) by {
                                    if i < before.len() {
                                        assert(table@.take(i) =~= before.take(i));
                                        assert(entry_derived(raw@, before, i));
                                        let w = choose|w: int| 0 <= w < raw@.len() && raw@[w].name@ == before[i].0@ && #[trigger] resolve_spec(raw@[w].oid@, table_map(before.take(i))) == Some(before[i].1@);
                                        assert(resolve_spec(raw@[w].oid@, table_map(table@.take(i))) == Some(table@[i].1@));
                                    }
                                }
                                assert(!table_map(before).contains_key(raw@[idx as int].name@));
                                assert(table_map(table@) == table_map(before).insert(raw@[idx as int].name@, path@));
                            }
                        },
                        None => {
                            kept.push(idx);
                        },
                    }
                },
            }
            proof {
                lemma_table_map(table@);
                assert(table_map(before).submap_of(table_map(table@)));
                assert(table_map(table@).contains_key(raw@[idx as int].name@) || (kept@.len() > 0 && kept@.last() == idx));
                assert(kept@ == kept_before || kept@ == kept_before.push(idx));
                assert forall|q: int| 0 <= q < raw@.len() implies table_map(table@).contains_key(#[trigger] raw@[q].name@)
                    || remaining@.subrange(k + 1, remaining@.len() as int).contains(q as usize) || kept@.contains(q as usize) by {
                    if !table_map(table@).contains_key(raw@[q].name@) {
                        assert(!table_map(before).contains_key(raw@[q].name@));
                        if remaining@.subrange(k as int, remaining@.len() as int).contains(q as usize) {
                            let w = choose|w: int| 0 <= w < remaining@.len() - k && remaining@.subrange(k as int, remaining@.len() as int)[w] == q as usize;
                            if w == 0 {
                                assert(remaining@[k as int] == q as usize);
                                assert(idx as int == q);
                                assert(kept@[kept@.len() - 1] == q as usize);
                            } else {
                                assert(remaining@.subrange(k + 1, remaining@.len() as int)[w - 1] == q as usize);
                            }
                        } else {
                            assert(kept_before.contains(q as usize));
                            let w = choose|w: int| 0 <= w < kept_before.len() && kept_before[w] == q as usize;
                            assert(kept@[w] == q as usize);
                        }
                    }
                }
            }
            k = k + 1;
        }
        if !progressed {
            proof {
                lemma_table_map(table@);
                assert(remaining@.subrange(remaining@.len() as int, remaining@.len() as int) =~= Seq::<usize>::empty());
                assert forall|q: int| 0 <= q < raw@.len() && !table_map(table@).contains_key(#[trigger] raw@[q].name@)
                    implies resolve_spec(raw@[q].oid@, table_map(table@)) is None by {
                    assert(kept@.contains(q as usize));
                    let w = choose|w: int| 0 <= w < kept@.len() && kept@[w] == q as usize;
                    assert(kept@[w] as int == q);
                    assert(raw@[kept@[w] as int] == raw@[q]);
                }
                assert(remaining@.take(remaining@.len() as int) =~= remaining@);
                assert(resolve_passes(raw@, table_map(t0), remaining@) == table_map(t0));
            }
            break;
        }
        proof {
            assert(remaining@.subrange(remaining@.len() as int, remaining@.len() as int) =~= Seq::<usize>::empty());
            assert(remaining@.take(remaining@.len() as int) =~= remaining@);
            lemma_table_map(t0);
            lemma_table_map(table@);
            let fresh = table@[table@.len() - 1].0@;
            assert(table_map(table@).contains_key(fresh));
            assert(!table_map(t0).contains_key(fresh)) by {
                if table_map(t0).contains_key(fresh) {
                    let w = choose|w: int| 0 <= w < t0.len() && t0[w].0@ == fresh;
                    assert(table@.take(t0.len() as int)[w] == t0[w]);
                    assert(table@[w] == t0[w]);
                }
            }
            assert(table_map(table@) != table_map(t0));
        }
        remaining = kept;
    }
    let mut unresolved: Vec<String> = Vec::new();
    let mut q: usize = 0;
    let ghost m = table_map(table@);
    while q < raw.len()
        invariant
            q <= raw@.len(),
            m == table_map(table@),
            keys_unique(table@),
            string_views(unresolved@) == unresolved_names(raw@.take(q as int), m),
        decreases raw@.len() - q,
    {
        proof {
            lemma_table_map(table@);
            assert(raw@.take(q + 1).drop_last() =~= raw@.take(q as int));
        }
        match find_key(&table, raw[q].name.as_str()) {
            Some(w) => {
                assert(m.contains_key(raw@[q as int].name@));
            },
            None => {
                assert(!m.contains_key(raw@[q as int].name@));
                unresolved.push(raw[q].name.clone());
                assert(string_views(unresolved@) =~= unresolved_names(raw@.take(q as int), m).push(raw@[q as int].name@));
            },
        }
        q = q + 1;
    }
    assert(raw@.take(raw@.len() as int) =~= raw@);
    (table, unresolved)
}

/// Every resolved symbol's arcs are what its own OID value gives under the
/// final table: resolution is consistent, whatever order it went in.
pub proof fn lemma_resolution_consistent(raw: Seq<RawSymbol>, t: Seq<(String, Vec<u32>)>, i: int)
    requires
        resolution_valid(raw, t),
        5 <= i < t.len(),
    ensures
        exists|j: int| 0 <= j < raw.len() && raw[j].name@ == t[i].0@ && resolve_spec(raw[j].oid@, table_map(t)) == Some(t[i].1@),
{
    assert(entry_derived(raw, t, i));
    let j = choose|j: int| 0 <= j < raw.len() && raw[j].name@ == t[i].0@ && #[trigger] resolve_spec(raw[j].oid@, table_map(t.take(i))) == Some(t[i].1@);
    lemma_table_prefix(t, i);
    lemma_resolve_monotonic(raw[j].oid@, table_map(t.take(i)), table_map(t));
}

/// A column of a table, in the order its entry type lists it.
pub struct ColumnInfo {
    pub name: String,
    /// The column's own arc under the entry, when its OBJECT-TYPE is known.
    pub arc: Option<u32>,
    pub enum_values: Vec<(i64, String)>,
    /// The DISPLAY-HINT of the column's type, when one is known.
    pub display_hint: Option<String>,
}

/// A table: its OID and its columns.
pub struct TableInfo {
    pub oid: String,
    pub resolved: bool,
    pub columns: Vec<ColumnInfo>,
}

/// A symbol's absolute OID and kind.
pub struct SymbolInfo {
    pub oid: String,
    pub resolved: bool,
    pub kind: NodeKind,
}

/// One node of the browse tree.
pub struct MibTreeNode {
    pub id: String,
    pub label: String,
    pub oid: String,
    pub resolved: bool,
    pub kind: NodeKind,
    pub children: Vec<MibTreeNode>,
}

/// Everything read from a set of MIB directories.
pub struct ParseResult {
    pub tree: Vec<MibTreeNode>,
    /// Tables by name.
    pub tables: Vec<(String, TableInfo)>,
    /// Symbols by name.
    pub symbols: Vec<(String, SymbolInfo)>,
    pub errors: Vec<FileErrors>,
}

/// What fetching a node of the browse tree reads.
pub enum FetchTarget {
    /// The table at this position of `tables`.
    Table(usize),
    /// The scalar at this absolute OID.
    Scalar(String),
}

/// Why a node cannot be fetched: a status in the manner of HTTP (404 for
/// what is not there, 400 for what cannot be fetched) and a message.
pub struct FetchRefusal {
    pub status: u16,
    pub message: String,
}

/// What fetching node `id` reads, or why it cannot be fetched: an unknown
/// node or a table without a definition is not found; a scalar must have a
/// resolved OID; a group holds nothing to fetch.
pub open spec fn fetch_target_spec(p: ParseResult, id: Seq<char>) -> Result<FetchTarget, (u16, Seq<char>)> {
    match assoc_index(p.symbols@, id) {
        None => Err((404u16, "unknown OID node '"@ + id + "'"@)),
        Some(s) => {
            let sym = p.symbols@[s].1;
            match sym.kind {
                NodeKind::Table => match assoc_index(p.tables@, id) {
                    None => Err((404u16, "no table definition found for '"@ + id + "'"@)),
                    Some(t) => Ok(FetchTarget::Table(t as usize)),
                },
                NodeKind::Scalar => if sym.resolved {
                    Ok(FetchTarget::Scalar(sym.oid))
                } else {
                    Err((400u16, "'"@ + id + "' could not be resolved to an absolute OID"@))
                },
                NodeKind::Group => Err((400u16, "'"@ + id + "' is a group, not a fetchable object"@)),
            }
        },
    }
}

/// Decides what fetching node `id` of a parse result reads (see
/// `fetch_target_spec`); the first entry under a name counts.
pub fn fetch_target(p: &ParseResult, id: &str) -> (r: Result<FetchTarget, FetchRefusal>)
    ensures
        match r {
            Ok(FetchTarget::Table(t)) => fetch_target_spec(*p, id@) == Ok::<FetchTarget, (u16, Seq<char>)>(FetchTarget::Table(t)),
            Ok(FetchTarget::Scalar(o)) => fetch_target_spec(*p, id@) matches Ok(FetchTarget::Scalar(so)) && so@ == o@,
            Err(e) => fetch_target_spec(*p, id@) == Err::<FetchTarget, (u16, Seq<char>)>((e.status, e.message@)),
        },
{
    let s = match assoc_find(&p.symbols, id) {
        None => {
            return Err(FetchRefusal { status: 404, message: quoted_message("unknown OID node '", id, "'") });
        },
        Some(s) => s,
    };
    let sym = &p.symbols[s].1;
    match sym.kind {
        NodeKind::Table => match assoc_find(&p.tables, id) {
            None => Err(FetchRefusal { status: 404, message: quoted_message("no table definition found for '", id, "'") }),
            Some(t) => Ok(FetchTarget::Table(t)),
        },
        NodeKind::Scalar => {
            if sym.resolved {
                Ok(FetchTarget::Scalar(sym.oid.clone()))
            } else {
                Err(FetchRefusal { status: 400, message: quoted_message("'", id, "' could not be resolved to an absolute OID") })
            }
        },
        NodeKind::Group => Err(FetchRefusal { status: 400, message: quoted_message("'", id, "' is a group, not a fetchable object") }),
    }
}

/// The name a symbol was declared under: the first component of its OID
/// value, unless that is a bare number.
pub open spec fn parent_spec(comps: Seq<OidComponent>) -> Option<Seq<char>> {
    if comps.len() == 0 {
        None
    } else {
        match comps[0] {
            OidComponent::Ident(name) => Some(name@),
            OidComponent::Named(name, _) => Some(name@),
            OidComponent::Number(_) => None,
        }
    }
}

/// The name of the parent a symbol was declared under, if any.
pub fn parent_name(components: &[OidComponent]) -> (r: Option<String>)
    ensures
        match r {
            Some(n) => parent_spec(components@) == Some(n@),
            None => parent_spec(components@) is None,
        },
{
    if components.len() == 0 {
        return None;
    }
    match &components[0] {
        OidComponent::Ident(name) => Some(name.clone()),
        OidComponent::Named(name, _) => Some(name.clone()),
        OidComponent::Number(_) => None,
    }
}

/// The arc the last component of an OID value gives, unless it is a bare name.
pub open spec fn last_arc_spec(comps: Seq<OidComponent>) -> Option<u32> {
    if comps.len() == 0 {
        None
    } else {
        match comps.last() {
            OidComponent::Number(n) => Some(n),
            OidComponent::Named(_, v) => Some(v),
            OidComponent::Ident(_) => None,
        }
    }
}

/// The arc of the last component of an OID value, if it has one.
pub fn last_arc(components: &[OidComponent]) -> (r: Option<u32>)
    ensures
        r == last_arc_spec(components@),
{
    if components.len() == 0 {
        return None;
    }
    match &components[components.len() - 1] {
        OidComponent::Number(n) => Some(*n),
        OidComponent::Named(_, v) => Some(*v),
        OidComponent::Ident(_) => None,
    }
}

/// Arcs written in dotted notation (`1.3.6.1`); no arcs give `""`.
pub open spec fn dotted_spec(p: Seq<u32>) -> Seq<char>
    decreases p.len(),
{
    if p.len() == 0 {
        Seq::empty()
    } else if p.len() == 1 {
        decimal(p[0] as nat)
    } else {
        dotted_spec(p.drop_last()) + seq!['.'] + decimal(p.last() as nat)
    }
}

/// Dotted notation of `path`.
pub fn dotted(path: &[u32]) -> (r: String)
    ensures
        r@ == dotted_spec(path@),
{
    let mut out: Vec<char> = Vec::new();
    let mut i: usize = 0;
    while i < path.len()
        invariant
            i <= path@.len(),
            out@ == dotted_spec(path@.take(i as int)),
        decreases path@.len() - i,
    {
        let ghost before = out@;
        if i > 0 {
            out.push('.');
        }
        let digits = decimal_chars(path[i] as u128);
        let mut k: usize = 0;
        let ghost mid = out@;
        while k < digits.len()
            invariant
                k <= digits@.len(),
                out@ == mid + digits@.take(k as int),
            decreases digits@.len() - k,
        {
            out.push(digits[k]);
            k = k + 1;
            assert(out@ =~= mid + digits@.take(k as int));
        }
        proof {
            assert(digits@.take(digits@.len() as int) =~= digits@);
            let t = path@.take(i as int + 1);
            assert(t.drop_last() =~= path@.take(i as int));
            if i == 0 {
                assert(out@ =~= decimal(path@[0] as nat));
            } else {
                assert(out@ =~= before + seq!['.'] + decimal(path@[i as int] as nat));
            }
        }
        i = i + 1;
    }
    assert(path@.take(path@.len() as int) =~= path@);
    string_of(out.as_slice())
}

/// The model of a file's error list: its name and its messages.
pub open spec fn file_errors_view(e: FileErrors) -> (Seq<char>, Seq<Seq<char>>) {
    (e.file@, string_views(e.errors@))
}

/// The models of a list of file errors.
pub open spec fn errors_view(es: Seq<FileErrors>) -> Seq<(Seq<char>, Seq<Seq<char>>)> {
    es.map_values(|e: FileErrors| file_errors_view(e))
}

/// The first entry at or after `j` reported against `file`.
pub open spec fn first_file_from(es: Seq<(Seq<char>, Seq<Seq<char>>)>, file: Seq<char>, j: int) -> Option<int>
    decreases es.len() - j,
{
    if j < 0 || j >= es.len() {
        None
    } else if es[j].0 == file {
        Some(j)
    } else {
        first_file_from(es, file, j + 1)
    }
}

/// `msg` added to the errors of `file`: to its first entry when there is
/// one, as a new entry at the end otherwise.
pub open spec fn with_error(es: Seq<(Seq<char>, Seq<Seq<char>>)>, file: Seq<char>, msg: Seq<char>) -> Seq<(Seq<char>, Seq<Seq<char>>)> {
    match first_file_from(es, file, 0) {
        Some(i) => es.update(i, (file, es[i].1.push(msg))),
        None => es.push((file, seq![msg])),
    }
}

proof fn lemma_first_file_from(es: Seq<(Seq<char>, Seq<Seq<char>>)>, file: Seq<char>, j: int)
    requires
        0 <= j,
    ensures
        match first_file_from(es, file, j) {
            Some(i) => j <= i < es.len() && es[i].0 == file,
            None => true,
        },
    decreases es.len() - j,
{
    if j < es.len() && es[j].0 != file {
        lemma_first_file_from(es, file, j + 1);
    }
}

/// Adds `msg` to the errors of `file` (see `with_error`).
pub fn push_error(errors: &mut Vec<FileErrors>, file: &str, msg: String)
    ensures
        errors_view(final(errors)@) == with_error(errors_view(old(errors)@), file@, msg@),
{
    let ghost ev = errors_view(errors@);
    let mut i: usize = 0;
    while i < errors.len()
        invariant
            i <= errors@.len(),
            errors@ == old(errors)@,
            ev == errors_view(errors@),
            first_file_from(ev, file@, i as int) == first_file_from(ev, file@, 0),
        decreases errors@.len() - i,
    {
        if str_eq(errors[i].file.as_str(), file) {
            assert(first_file_from(ev, file@, i as int) == Some(i as int));
            let ghost old_errs = errors@[i as int].errors@;
            let mut entry = FileErrors { file: String::new(), errors: Vec::new() };
            std::mem::swap(&mut entry, &mut errors[i]);
            entry.errors.push(msg);
            assert(string_views(entry.errors@) =~= string_views(old_errs).push(msg@));
            errors.set(i, entry);
            assert(errors_view(errors@) =~= ev.update(i as int, (file@, ev[i as int].1.push(msg@))));
            return;
        }
        i = i + 1;
    }
    let mut list: Vec<String> = Vec::new();
    list.push(msg);
    let f = string_of(chars_of(file).as_slice());
    errors.push(FileErrors { file: f, errors: list });
    assert(string_views(list@) =~= seq![msg@]);
    assert(errors_view(errors@) =~= ev.push((file@, seq![msg@])));
}

/// How a declared kind is shown in the tree.
pub open spec fn shown_kind(k: RawKind) -> NodeKind {
    match k {
        RawKind::Table => NodeKind::Table,
        RawKind::Group => NodeKind::Group,
        _ => NodeKind::Scalar,
    }
}

fn kind_shown(k: RawKind) -> (r: NodeKind)
    ensures
        r == shown_kind(k),
{
    match k {
        RawKind::Table => NodeKind::Table,
        RawKind::Group => NodeKind::Group,
        _ => NodeKind::Scalar,
    }
}

/// A name's dotted OID under `m`, or `""` when it is not resolved.
pub open spec fn oid_text(m: Map<Seq<char>, Seq<u32>>, name: Seq<char>) -> Seq<char> {
    if m.contains_key(name) {
        dotted_spec(m[name])
    } else {
        Seq::empty()
    }
}

/// A name's dotted OID from the table, with whether it resolved.
fn oid_of(table: &Vec<(String, Vec<u32>)>, name: &str) -> (r: (String, bool))
    requires
        keys_unique(table@),
    ensures
        r.0@ == oid_text(table_map(table@), name@),
        r.1 == table_map(table@).contains_key(name@),
{
    proof {
        lemma_table_map(table@);
    }
    match find_key(table, name) {
        Some(i) => (dotted(table[i].1.as_slice()), true),
        None => (String::new(), false),
    }
}

/// The model of a symbol's information.
pub open spec fn symbol_view(s: SymbolInfo) -> (Seq<char>, bool, NodeKind) {
    (s.oid@, s.resolved, s.kind)
}

/// The symbol information of the declarations in `raw`: every symbol but
/// notifications, a later declaration of a name replacing an earlier one.
pub open spec fn symbols_spec(raw: Seq<RawSymbol>, m: Map<Seq<char>, Seq<u32>>) -> Map<Seq<char>, (Seq<char>, bool, NodeKind)>
    decreases raw.len(),
{
    if raw.len() == 0 {
        Map::empty()
    } else {
        let prev = symbols_spec(raw.drop_last(), m);
        let s = raw.last();
        if s.kind == RawKind::Other {
            prev
        } else {
            prev.insert(s.name@, (oid_text(m, s.name@), m.contains_key(s.name@), shown_kind(s.kind)))
        }
    }
}

/// The symbol lookup: each declared name (notifications aside) with its OID
/// and kind.
pub fn build_symbols(raw: &Vec<RawSymbol>, table: &Vec<(String, Vec<u32>)>) -> (r: Vec<(String, SymbolInfo)>)
    requires
        keys_unique(table@),
    ensures
        assoc_unique(r@),
        assoc_map(r@).map_values(|s: SymbolInfo| symbol_view(s)) == symbols_spec(raw@, table_map(table@)),
{
    let mut out: Vec<(String, SymbolInfo)> = Vec::new();
    let mut i: usize = 0;
    while i < raw.len()
        invariant
            i <= raw@.len(),
            keys_unique(table@),
            assoc_unique(out@),
            assoc_map(out@).map_values(|s: SymbolInfo| symbol_view(s)) == symbols_spec(raw@.take(i as int), table_map(table@)),
        decreases raw@.len() - i,
    {
        let s = &raw[i];
        let ghost before = assoc_map(out@);
        proof {
            assert(raw@.take(i + 1).drop_last() =~= raw@.take(i as int));
        }
        if s.kind != RawKind::Other {
            let (oid, resolved) = oid_of(table, s.name.as_str());
            let info = SymbolInfo { oid, resolved, kind: kind_shown(s.kind) };
            assoc_upsert(&mut out, s.name.clone(), info);
            proof {
                assert(assoc_map(out@).map_values(|s: SymbolInfo| symbol_view(s)) =~= before.map_values(|s: SymbolInfo| symbol_view(s)).insert(raw@[i as int].name@, symbol_view(info)));
            }
        }
        i = i + 1;
    }
    assert(raw@.take(raw@.len() as int) =~= raw@);
    out
}

/// The model of enumeration labels.
pub open spec fn enum_view(e: Seq<(i64, String)>) -> Seq<(i64, Seq<char>)> {
    e.map_values(|p: (i64, String)| (p.0, p.1@))
}

/// The model of a column.
pub open spec fn column_view(c: ColumnInfo) -> (Seq<char>, Option<u32>, Seq<(i64, Seq<char>)>, Option<Seq<char>>) {
    (c.name@, c.arc, enum_view(c.enum_values@), match c.display_hint {
        Some(h) => Some(h@),
        None => None,
    })
}

/// The model of a table.
pub open spec fn table_view(t: TableInfo) -> (Seq<char>, bool, Seq<(Seq<char>, Option<u32>, Seq<(i64, Seq<char>)>, Option<Seq<char>>)>) {
    (t.oid@, t.resolved, t.columns@.map_values(|c: ColumnInfo| column_view(c)))
}

/// The last declaration of `name`, if any.
pub open spec fn last_named(raw: Seq<RawSymbol>, name: Seq<char>) -> Option<int>
    decreases raw.len(),
{
    if raw.len() == 0 {
        None
    } else if raw.last().name@ == name {
        Some(raw.len() - 1)
    } else {
        last_named(raw.drop_last(), name)
    }
}

proof fn lemma_last_named(raw: Seq<RawSymbol>, name: Seq<char>)
    ensures
        match last_named(raw, name) {
            Some(k) => 0 <= k < raw.len() && raw[k].name@ == name && forall|j: int| k < j < raw.len() ==> raw[j].name@ != name,
            None => forall|j: int| 0 <= j < raw.len() ==> raw[j].name@ != name,
        },
    decreases raw.len(),
{
    if raw.len() > 0 {
        lemma_last_named(raw.drop_last(), name);
        if raw.last().name@ != name {
            assert forall|j: int| 0 <= j < raw.len() - 1 implies raw[j] == raw.drop_last()[j] by {}
        }
    }
}

/// A column named `field`: arc and enumeration come from the last
/// declaration of that name, when there is one.
pub open spec fn column_spec(raw: Seq<RawSymbol>, field: Seq<char>) -> (Seq<char>, Option<u32>, Seq<(i64, Seq<char>)>, Option<Seq<char>>) {
    match last_named(raw, field) {
        Some(k) => (field, last_arc_spec(raw[k].oid@), enum_view(raw[k].enum_values@), None),
        None => (field, None, Seq::empty(), None),
    }
}

/// The tables declared among the first `n` symbols of `raw`: each
/// `SEQUENCE OF` table whose entry type is known, with one column per field
/// of that type; a later table of the same name replaces an earlier one.
pub open spec fn tables_spec(
    raw: Seq<RawSymbol>,
    n: int,
    st: Map<Seq<char>, Vec<String>>,
    m: Map<Seq<char>, Seq<u32>>,
) -> Map<Seq<char>, (Seq<char>, bool, Seq<(Seq<char>, Option<u32>, Seq<(i64, Seq<char>)>, Option<Seq<char>>)>)>
    decreases n,
{
    if n <= 0 {
        Map::empty()
    } else {
        let prev = tables_spec(raw, n - 1, st, m);
        let s = raw[n - 1];
        match s.sequence_of_target {
            Some(target) => if s.kind == RawKind::Table && st.contains_key(target@) {
                prev.insert(s.name@, (
                    oid_text(m, s.name@),
                    m.contains_key(s.name@),
                    string_views(st[target@]@).map_values(|f: Seq<char>| column_spec(raw, f)),
                ))
            } else {
                prev
            },
            None => prev,
        }
    }
}

fn last_named_index(raw: &Vec<RawSymbol>, name: &str) -> (r: Option<usize>)
    ensures
        match r {
            Some(k) => last_named(raw@, name@) == Some(k as int) && k < raw@.len(),
            None => last_named(raw@, name@) is None,
        },
{
    proof {
        lemma_last_named(raw@, name@);
    }
    let mut i: usize = raw.len();
    while i > 0
        invariant
            i <= raw@.len(),
            forall|j: int| i <= j < raw@.len() ==> raw@[j].name@ != name@,
        decreases i,
    {
        if str_eq(raw[i - 1].name.as_str(), name) {
            proof {
                lemma_last_named(raw@, name@);
                let k = last_named(raw@, name@);
                if k is None {
                    assert(raw@[i - 1].name@ == name@);
                } else {
                    let kk = k->0;
                    if kk < i - 1 {
                        assert(raw@[i - 1].name@ != name@);
                    }
                }
            }
            return Some(i - 1);
        }
        i = i - 1;
    }
    proof {
        lemma_last_named(raw@, name@);
        let k = last_named(raw@, name@);
        if k is Some {
            assert(raw@[k->0].name@ == name@);
        }
    }
    None
}

fn copy_enum_values(e: &Vec<(i64, String)>) -> (r: Vec<(i64, String)>)
    ensures
        enum_view(r@) == enum_view(e@),
{
    let mut out: Vec<(i64, String)> = Vec::new();
    let mut i: usize = 0;
    while i < e.len()
        invariant
            i <= e@.len(),
            enum_view(out@) == enum_view(e@.take(i as int)),
        decreases e@.len() - i,
    {
        let ghost before = out@;
        let name = e[i].1.clone();
        assert(name@ == e@[i as int].1@);
        out.push((e[i].0, name));
        proof {
            assert(e@.take(i + 1) =~= e@.take(i as int).push(e@[i as int]));
            assert(out@ =~= before.push((e@[i as int].0, name)));
            assert(enum_view(out@) =~= enum_view(before).push((e@[i as int].0, e@[i as int].1@)));
            assert(enum_view(e@.take(i + 1)) =~= enum_view(e@.take(i as int)).push((e@[i as int].0, e@[i as int].1@)));
        }
        i = i + 1;
    }
    assert(e@.take(e@.len() as int) =~= e@);
    out
}

fn column_for(raw: &Vec<RawSymbol>, field: &String) -> (r: ColumnInfo)
    ensures
        column_view(r) == column_spec(raw@, field@),
{
    proof {
        lemma_last_named(raw@, field@);
    }
    match last_named_index(raw, field.as_str()) {
        Some(k) => ColumnInfo {
            name: field.clone(),
            arc: last_arc(raw[k].oid.as_slice()),
            enum_values: copy_enum_values(&raw[k].enum_values),
            display_hint: None,
        },
        None => {
            let r = ColumnInfo { name: field.clone(), arc: None, enum_values: Vec::new(), display_hint: None };
            assert(enum_view(r.enum_values@) =~= Seq::<(i64, Seq<char>)>::empty());
            r
        },
    }
}

/// The table lookup: every `SEQUENCE OF` table whose entry type is known,
/// with its OID and one column per field of the entry type.
pub fn build_tables(
    raw: &Vec<RawSymbol>,
    sequence_types: &Vec<(String, Vec<String>)>,
    table: &Vec<(String, Vec<u32>)>,
) -> (r: Vec<(String, TableInfo)>)
    requires
        assoc_unique(sequence_types@),
        keys_unique(table@),
    ensures
        assoc_unique(r@),
        assoc_map(r@).map_values(|t: TableInfo| table_view(t))
            == tables_spec(raw@, raw@.len() as int, assoc_map(sequence_types@), table_map(table@)),
{
    let ghost st = assoc_map(sequence_types@);
    let mut out: Vec<(String, TableInfo)> = Vec::new();
    let mut i: usize = 0;
    proof {
        lemma_assoc_map(sequence_types@);
    }
    while i < raw.len()
        invariant
            i <= raw@.len(),
            keys_unique(table@),
            assoc_unique(sequence_types@),
            st == assoc_map(sequence_types@),
            forall|k: Seq<char>| #[trigger] st.contains_key(k) <==> exists|j: int| 0 <= j < sequence_types@.len() && sequence_types@[j].0@ == k,
            forall|j: int| 0 <= j < sequence_types@.len() ==> #[trigger] st[sequence_types@[j].0@] == sequence_types@[j].1,
            assoc_unique(out@),
            assoc_map(out@).map_values(|t: TableInfo| table_view(t)) == tables_spec(raw@, i as int, st, table_map(table@)),
        decreases raw@.len() - i,
    {
        let s = &raw[i];
        let ghost before = assoc_map(out@);
        if s.kind == RawKind::Table {
            match &s.sequence_of_target {
                Some(target) => {
                    match assoc_find(sequence_types, target.as_str()) {
                        Some(w) => {
                            let fields = &sequence_types[w].1;
                            let mut columns: Vec<ColumnInfo> = Vec::new();
                            let mut c: usize = 0;
                            while c < fields.len()
                                invariant
                                    c <= fields@.len(),
                                    columns@.map_values(|x: ColumnInfo| column_view(x))
                                        == string_views(fields@.take(c as int)).map_values(|f: Seq<char>| column_spec(raw@, f)),
                                decreases fields@.len() - c,
                            {
                                let col = column_for(raw, &fields[c]);
                                let ghost before_cols = columns@;
                                columns.push(col);
                                proof {
                                    let fv = string_views(fields@.take(c as int)).map_values(|f: Seq<char>| column_spec(raw@, f));
                                    assert(fields@.take(c + 1) =~= fields@.take(c as int).push(fields@[c as int]));
                                    assert(string_views(fields@.take(c + 1)) =~= string_views(fields@.take(c as int)).push(fields@[c as int]@));
                                    assert(string_views(fields@.take(c + 1)).map_values(|f: Seq<char>| column_spec(raw@, f))
                                        =~= fv.push(column_spec(raw@, fields@[c as int]@)));
                                    assert(columns@ =~= before_cols.push(col));
                                    assert(columns@.map_values(|x: ColumnInfo| column_view(x))
                                        =~= before_cols.map_values(|x: ColumnInfo| column_view(x)).push(column_view(col)));
                                }
                                c = c + 1;
                            }
                            assert(fields@.take(fields@.len() as int) =~= fields@);
                            let (oid, resolved) = oid_of(table, s.name.as_str());
                            let info = TableInfo { oid, resolved, columns };
                            assoc_upsert(&mut out, s.name.clone(), info);
                            proof {
                                assert(st.contains_key(target@));
                                assert(st[target@] == *fields);
                                assert(assoc_map(out@).map_values(|t: TableInfo| table_view(t)) =~= before.map_values(|t: TableInfo| table_view(t)).insert(raw@[i as int].name@, table_view(info)));
                            }
                        },
                        None => {
                            proof {
                                if st.contains_key(target@) {
                                    let j = choose|j: int| 0 <= j < sequence_types@.len() && sequence_types@[j].0@ == target@;
                                    assert(sequence_types@[j].0@ == target@);
                                }
                            }
                        },
                    }
                },
                None => {},
            }
        }
        i = i + 1;
    }
    out
}

/// The spec-level shape of a browse-tree node.
pub struct MibNodeModel {
    pub id: Seq<char>,
    pub label: Seq<char>,
    pub oid: Seq<char>,
    pub resolved: bool,
    pub kind: NodeKind,
    pub children: Seq<MibNodeModel>,
}

/// The model of one tree node.
pub open spec fn mib_node_model(n: MibTreeNode) -> MibNodeModel
    decreases n, 0nat,
{
    MibNodeModel {
        id: n.id@,
        label: n.label@,
        oid: n.oid@,
        resolved: n.resolved,
        kind: n.kind,
        children: mib_nodes_model(n.children@),
    }
}

/// The models of a sequence of tree nodes.
pub open spec fn mib_nodes_model(s: Seq<MibTreeNode>) -> Seq<MibNodeModel>
    decreases s, 1nat,
{
    if s.len() == 0 {
        Seq::empty()
    } else {
        mib_nodes_model(s.drop_last()).push(mib_node_model(s.last()))
    }
}

/// Some symbol is declared under `name`.
pub open spec fn declares(raw: Seq<RawSymbol>, name: Seq<char>) -> bool {
    exists|j: int| 0 <= j < raw.len() && raw[j].name@ == name
}

/// Symbol `j` is shown at the top of the tree: it is not a notification, and
/// its parent name (if any) names no declared symbol.
pub open spec fn is_tree_root(raw: Seq<RawSymbol>, j: int) -> bool {
    &&& raw[j].kind != RawKind::Other
    &&& match parent_spec(raw[j].oid@) {
        Some(p) => !declares(raw, p),
        None => true,
    }
}

/// Symbol `j` is shown under the symbols named `name`.
pub open spec fn is_child_of(raw: Seq<RawSymbol>, j: int, name: Seq<char>) -> bool {
    raw[j].kind != RawKind::Other && parent_spec(raw[j].oid@) == Some(name)
}

/// The children of `name` among the first `n` symbols, in declaration
/// order, each tagged with its name.
pub open spec fn children_sel(raw: Seq<RawSymbol>, name: Seq<char>, n: int) -> Seq<(Seq<char>, int)>
    decreases n,
{
    if n <= 0 {
        Seq::empty()
    } else if is_child_of(raw, n - 1, name) {
        children_sel(raw, name, n - 1).push((raw[n - 1].name@, n - 1))
    } else {
        children_sel(raw, name, n - 1)
    }
}

/// A top-level symbol whose resolved OID lies under `iso` (arc 1).
pub open spec fn is_iso_root(raw: Seq<RawSymbol>, m: Map<Seq<char>, Seq<u32>>, j: int) -> bool {
    &&& is_tree_root(raw, j)
    &&& m.contains_key(raw[j].name@)
    &&& m[raw[j].name@].len() > 0
    &&& m[raw[j].name@][0] == 1
}

/// The top-level symbols under `iso` among the first `n`, in declaration order.
pub open spec fn iso_roots_sel(raw: Seq<RawSymbol>, m: Map<Seq<char>, Seq<u32>>, n: int) -> Seq<(Seq<char>, int)>
    decreases n,
{
    if n <= 0 {
        Seq::empty()
    } else if is_iso_root(raw, m, n - 1) {
        iso_roots_sel(raw, m, n - 1).push((raw[n - 1].name@, n - 1))
    } else {
        iso_roots_sel(raw, m, n - 1)
    }
}

/// The tree node of symbol `j`: a table is a leaf (its columns live under
/// a hidden entry object), anything else has the symbols declared under its
/// name as children, ordered by name. `depth` bounds the nesting; it only
/// cuts the tree when the same name is declared more than once in a cycle.
pub open spec fn node_spec(raw: Seq<RawSymbol>, m: Map<Seq<char>, Seq<u32>>, j: int, depth: nat) -> MibNodeModel
    decreases depth, 0nat, 0nat,
{
    let s = raw[j];
    MibNodeModel {
        id: s.name@,
        label: s.name@,
        oid: oid_text(m, s.name@),
        resolved: m.contains_key(s.name@),
        kind: shown_kind(s.kind),
        children: if s.kind == RawKind::Table || depth == 0 {
            Seq::empty()
        } else {
            nodes_spec(raw, m, sort_by_name(children_sel(raw, s.name@, raw.len() as int)), (depth - 1) as nat)
        },
    }
}

/// The tree nodes of the selected symbols, in the selection's order.
pub open spec fn nodes_spec(raw: Seq<RawSymbol>, m: Map<Seq<char>, Seq<u32>>, sel: Seq<(Seq<char>, int)>, depth: nat) -> Seq<MibNodeModel>
    decreases depth, 1nat, sel.len(),
{
    if sel.len() == 0 {
        Seq::empty()
    } else {
        nodes_spec(raw, m, sel.drop_last(), depth).push(node_spec(raw, m, sel.last().1, depth))
    }
}

/// The browse tree: a single `iso` root (OID `1`) holding the top-level
/// symbols that resolve under it, ordered by name.
pub open spec fn tree_spec(raw: Seq<RawSymbol>, m: Map<Seq<char>, Seq<u32>>) -> Seq<MibNodeModel> {
    seq![MibNodeModel {
        id: seq!['i', 's', 'o'],
        label: seq!['i', 's', 'o'],
        oid: seq!['1'],
        resolved: true,
        kind: NodeKind::Group,
        children: nodes_spec(raw, m, sort_by_name(iso_roots_sel(raw, m, raw.len() as int)), raw.len() as nat),
    }]
}

/// The selection `sel` of symbols, each tagged with its name.
pub open spec fn tagged(raw: Seq<RawSymbol>, sel: Seq<usize>) -> Seq<(Seq<char>, int)> {
    sel.map_values(|j: usize| (raw[j as int].name@, j as int))
}

fn is_declared(raw: &Vec<RawSymbol>, name: &str) -> (r: bool)
    ensures
        r == declares(raw@, name@),
{
    let mut i: usize = 0;
    while i < raw.len()
        invariant
            i <= raw@.len(),
            forall|j: int| 0 <= j < i ==> raw@[j].name@ != name@,
        decreases raw@.len() - i,
    {
        if str_eq(raw[i].name.as_str(), name) {
            return true;
        }
        i = i + 1;
    }
    false
}

fn parent_is(comps: &[OidComponent], name: &str) -> (r: bool)
    ensures
        r == (parent_spec(comps@) == Some(name@)),
{
    match parent_name(comps) {
        Some(p) => str_eq(p.as_str(), name),
        None => false,
    }
}

fn select_children(raw: &Vec<RawSymbol>, name: &str) -> (r: Vec<usize>)
    ensures
        tagged(raw@, r@) == children_sel(raw@, name@, raw@.len() as int),
        forall|k: int| 0 <= k < r@.len() ==> r@[k] < raw@.len(),
{
    let mut out: Vec<usize> = Vec::new();
    let mut i: usize = 0;
    while i < raw.len()
        invariant
            i <= raw@.len(),
            tagged(raw@, out@) == children_sel(raw@, name@, i as int),
            forall|k: int| 0 <= k < out@.len() ==> out@[k] < raw@.len(),
        decreases raw@.len() - i,
    {
        if raw[i].kind != RawKind::Other && parent_is(raw[i].oid.as_slice(), name) {
            out.push(i);
            assert(tagged(raw@, out@) =~= children_sel(raw@, name@, i as int).push((raw@[i as int].name@, i as int)));
        }
        i = i + 1;
    }
    out
}

fn select_iso_roots(raw: &Vec<RawSymbol>, table: &Vec<(String, Vec<u32>)>) -> (r: Vec<usize>)
    requires
        keys_unique(table@),
    ensures
        tagged(raw@, r@) == iso_roots_sel(raw@, table_map(table@), raw@.len() as int),
        forall|k: int| 0 <= k < r@.len() ==> r@[k] < raw@.len(),
{
    let ghost m = table_map(table@);
    let mut out: Vec<usize> = Vec::new();
    let mut i: usize = 0;
    while i < raw.len()
        invariant
            i <= raw@.len(),
            m == table_map(table@),
            keys_unique(table@),
            tagged(raw@, out@) == iso_roots_sel(raw@, m, i as int),
            forall|k: int| 0 <= k < out@.len() ==> out@[k] < raw@.len(),
        decreases raw@.len() - i,
    {
        let s = &raw[i];
        let mut root = s.kind != RawKind::Other;
        if root {
            match parent_name(s.oid.as_slice()) {
                Some(p) => {
                    if is_declared(raw, p.as_str()) {
                        root = false;
                    }
                },
                None => {},
            }
        }
        assert(root == is_tree_root(raw@, i as int));
        let mut under_iso = false;
        if root {
            proof {
                lemma_table_map(table@);
            }
            match find_key(table, s.name.as_str()) {
                Some(w) => {
                    under_iso = table[w].1.len() > 0 && table[w].1[0] == 1;
                },
                None => {},
            }
        }
        assert(under_iso == is_iso_root(raw@, m, i as int));
        if under_iso {
            out.push(i);
            assert(tagged(raw@, out@) =~= iso_roots_sel(raw@, m, i as int).push((raw@[i as int].name@, i as int)));
        }
        i = i + 1;
    }
    out
}

fn sort_selection(raw: &Vec<RawSymbol>, names: &Vec<Vec<char>>, sel: &Vec<usize>) -> (r: Vec<usize>)
    requires
        names@.len() == raw@.len(),
        forall|j: int| 0 <= j < raw@.len() ==> #[trigger] names@[j]@ == raw@[j].name@,
        forall|k: int| 0 <= k < sel@.len() ==> sel@[k] < raw@.len(),
    ensures
        tagged(raw@, r@) == sort_by_name(tagged(raw@, sel@)),
        forall|k: int| 0 <= k < r@.len() ==> r@[k] < raw@.len(),
{
    let mut out: Vec<usize> = Vec::new();
    let mut i: usize = 0;
    assert(tagged(raw@, sel@).take(0) =~= Seq::<(Seq<char>, int)>::empty());
    while i < sel.len()
        invariant
            i <= sel@.len(),
            names@.len() == raw@.len(),
            forall|j: int| 0 <= j < raw@.len() ==> #[trigger] names@[j]@ == raw@[j].name@,
            forall|k: int| 0 <= k < sel@.len() ==> sel@[k] < raw@.len(),
            forall|k: int| 0 <= k < out@.len() ==> out@[k] < raw@.len(),
            tagged(raw@, out@) == sort_by_name(tagged(raw@, sel@).take(i as int)),
        decreases sel@.len() - i,
    {
        let ghost sv = tagged(raw@, out@);
        let x = sel[i];
        let ghost xv = (raw@[x as int].name@, x as int);
        let mut p: usize = 0;
        let mut found = false;
        while p < out.len() && !found
            invariant
                p <= out@.len(),
                sv == tagged(raw@, out@),
                x < raw@.len(),
                names@.len() == raw@.len(),
                forall|j: int| 0 <= j < raw@.len() ==> #[trigger] names@[j]@ == raw@[j].name@,
                forall|k: int| 0 <= k < out@.len() ==> out@[k] < raw@.len(),
                xv == (raw@[x as int].name@, x as int),
                found ==> p < out@.len() && chars_lt(xv.0, sv[p as int].0),
                name_insert_point(sv, xv, 0) == name_insert_point(sv, xv, p as int),
            decreases out@.len() - p, if found { 0int } else { 1int },
        {
            let o = out[p];
            if chars_less(names[x].as_slice(), names[o].as_slice()) {
                found = true;
            } else {
                p = p + 1;
            }
        }
        assert(name_insert_point(sv, xv, p as int) == p);
        proof {
            lemma_insert_by_name(sv, xv);
            let t = tagged(raw@, sel@).take(i as int + 1);
            assert(t.drop_last() =~= tagged(raw@, sel@).take(i as int));
            assert(t.last() == xv);
        }
        out.insert(p, x);
        assert(tagged(raw@, out@) =~= sv.insert(p as int, xv));
        i = i + 1;
    }
    assert(tagged(raw@, sel@).take(i as int) =~= tagged(raw@, sel@));
    out
}

fn build_node(raw: &Vec<RawSymbol>, names: &Vec<Vec<char>>, table: &Vec<(String, Vec<u32>)>, j: usize, depth: usize) -> (r: MibTreeNode)
    requires
        j < raw@.len(),
        keys_unique(table@),
        names@.len() == raw@.len(),
        forall|i: int| 0 <= i < raw@.len() ==> #[trigger] names@[i]@ == raw@[i].name@,
    ensures
        mib_node_model(r) == node_spec(raw@, table_map(table@), j as int, depth as nat),
    decreases depth,
{
    let s = &raw[j];
    let (oid, resolved) = oid_of(table, s.name.as_str());
    let mut children: Vec<MibTreeNode> = Vec::new();
    let ghost m = table_map(table@);
    if s.kind != RawKind::Table && depth > 0 {
        let sel = select_children(raw, s.name.as_str());
        let sorted = sort_selection(raw, names, &sel);
        let ghost ss = tagged(raw@, sorted@);
        let mut k: usize = 0;
        while k < sorted.len()
            invariant
                k <= sorted@.len(),
                depth > 0,
                m == table_map(table@),
                keys_unique(table@),
                names@.len() == raw@.len(),
                forall|i: int| 0 <= i < raw@.len() ==> #[trigger] names@[i]@ == raw@[i].name@,
                forall|i: int| 0 <= i < sorted@.len() ==> sorted@[i] < raw@.len(),
                ss == tagged(raw@, sorted@),
                mib_nodes_model(children@) == nodes_spec(raw@, m, ss.take(k as int), (depth - 1) as nat),
            decreases sorted@.len() - k,
        {
            let child = build_node(raw, names, table, sorted[k], depth - 1);
            let ghost before = children@;
            children.push(child);
            proof {
                assert(children@.drop_last() =~= before);
                assert(ss.take(k + 1).drop_last() =~= ss.take(k as int));
                assert(ss.take(k + 1).last().1 == sorted@[k as int] as int);
            }
            k = k + 1;
        }
        assert(ss.take(sorted@.len() as int) =~= ss);
    }
    MibTreeNode { id: s.name.clone(), label: s.name.clone(), oid, resolved, kind: kind_shown(s.kind), children }
}

/// The browse tree: one `iso` root holding the top-level symbols that
/// resolve under it, each with the symbols declared under its name.
pub fn build_tree(raw: &Vec<RawSymbol>, table: &Vec<(String, Vec<u32>)>) -> (r: Vec<MibTreeNode>)
    requires
        keys_unique(table@),
    ensures
        mib_nodes_model(r@) == tree_spec(raw@, table_map(table@)),
{
    let mut names: Vec<Vec<char>> = Vec::new();
    let mut i: usize = 0;
    while i < raw.len()
        invariant
            i <= raw@.len(),
            names@.len() == i,
            forall|q: int| 0 <= q < i ==> #[trigger] names@[q]@ == raw@[q].name@,
        decreases raw@.len() - i,
    {
        names.push(chars_of(raw[i].name.as_str()));
        i = i + 1;
    }
    let ghost m = table_map(table@);
    let sel = select_iso_roots(raw, table);
    let sorted = sort_selection(raw, &names, &sel);
    let ghost ss = tagged(raw@, sorted@);
    let depth = raw.len();
    let mut children: Vec<MibTreeNode> = Vec::new();
    let mut k: usize = 0;
    while k < sorted.len()
        invariant
            k <= sorted@.len(),
            depth == raw@.len(),
            m == table_map(table@),
            keys_unique(table@),
            names@.len() == raw@.len(),
            forall|q: int| 0 <= q < raw@.len() ==> #[trigger] names@[q]@ == raw@[q].name@,
            forall|q: int| 0 <= q < sorted@.len() ==> sorted@[q] < raw@.len(),
            ss == tagged(raw@, sorted@),
            mib_nodes_model(children@) == nodes_spec(raw@, m, ss.take(k as int), depth as nat),
        decreases sorted@.len() - k,
    {
        let child = build_node(raw, &names, table, sorted[k], depth);
        let ghost before = children@;
        children.push(child);
        proof {
            assert(children@.drop_last() =~= before);
            assert(ss.take(k + 1).drop_last() =~= ss.take(k as int));
            assert(ss.take(k + 1).last().1 == sorted@[k as int] as int);
        }
        k = k + 1;
    }
    assert(ss.take(sorted@.len() as int) =~= ss);
    let iso = MibTreeNode {
        id: string_of(&['i', 's', 'o']),
        label: string_of(&['i', 's', 'o']),
        oid: string_of(&['1']),
        resolved: true,
        kind: NodeKind::Group,
        children,
    };
    let mut out: Vec<MibTreeNode> = Vec::new();
    out.push(iso);
    proof {
        assert(out@.drop_last() =~= Seq::<MibTreeNode>::empty());
        assert(iso.id@ =~= seq!['i', 's', 'o']);
        assert(iso.label@ =~= seq!['i', 's', 'o']);
        assert(iso.oid@ =~= seq!['1']);
        assert(mib_nodes_model(Seq::<MibTreeNode>::empty()) == Seq::<MibNodeModel>::empty());
        assert(out@.last() == iso);
        assert(mib_nodes_model(out@) == mib_nodes_model(out@.drop_last()).push(mib_node_model(out@.last())));
        assert(mib_nodes_model(out@) =~= seq![mib_node_model(iso)]);
    }
    out
}

/// The message reported against a file with malformed declarations.
pub open spec fn syntax_error_message() -> Seq<char> {
    "contains syntax errors (parsed on a best-effort basis)"@
}

/// The message reported for a symbol that could not be resolved.
pub open spec fn unresolved_message(name: Seq<char>) -> Seq<char> {
    name + ": could not resolve to an absolute OID (missing ancestor definition)"@
}

/// The file of the last declaration of `name`.
pub open spec fn declared_file(raw: Seq<RawSymbol>, name: Seq<char>) -> Seq<char> {
    match last_named(raw, name) {
        Some(k) => raw[k].file@,
        None => "<unknown>"@,
    }
}

/// `es` with one error reported for each of `names`, in order, against the
/// file that declared it.
pub open spec fn report_unresolved(es: Seq<(Seq<char>, Seq<Seq<char>>)>, raw: Seq<RawSymbol>, names: Seq<Seq<char>>) -> Seq<(Seq<char>, Seq<Seq<char>>)>
    decreases names.len(),
{
    if names.len() == 0 {
        es
    } else {
        with_error(report_unresolved(es, raw, names.drop_last()), declared_file(raw, names.last()), unresolved_message(names.last()))
    }
}

/// Accumulates the modules read from a set of MIB directories.
pub struct MibReader {
    pub raw: Vec<RawSymbol>,
    /// `SEQUENCE` entry types by name, with their field names.
    pub sequence_types: Vec<(String, Vec<String>)>,
    pub errors: Vec<FileErrors>,
}

impl MibReader {
    /// The entry types are keyed uniquely.
    pub open spec fn valid(&self) -> bool {
        assoc_unique(self.sequence_types@)
    }

    /// A reader that has read nothing yet.
    pub fn new() -> (r: Self)
        ensures
            r.valid(),
            r.raw@.len() == 0,
            r.sequence_types@.len() == 0,
            r.errors@.len() == 0,
    {
        MibReader { raw: Vec::new(), sequence_types: Vec::new(), errors: Vec::new() }
    }

    /// Records that a directory could not be listed.
    pub fn add_dir_error(&mut self, dir: &str, msg: String)
        ensures
            final(self).raw@ == old(self).raw@,
            final(self).sequence_types@ == old(self).sequence_types@,
            errors_view(final(self).errors@) == with_error(errors_view(old(self).errors@), dir@, msg@),
    {
        push_error(&mut self.errors, dir, msg);
    }

    /// Reads one module's source text from `file`: its symbols and entry
    /// types are added, and malformed declarations are reported against
    /// the file.
    pub fn add_source(&mut self, file: &str, text: &str)
        requires
            old(self).valid(),
        ensures
            final(self).valid(),
            symbol_decls(final(self).raw@) == symbol_decls(old(self).raw@) + decl_symbols(module_decls(text@).0),
            forall|j: int| 0 <= j < old(self).raw@.len() ==> #[trigger] final(self).raw@[j] == old(self).raw@[j],
            forall|j: int| old(self).raw@.len() <= j < final(self).raw@.len() ==> (#[trigger] final(self).raw@[j]).file@ == file@,
            seq_types_view(final(self).sequence_types@) == apply_seq_types(seq_types_view(old(self).sequence_types@), module_decls(text@).0),
            errors_view(final(self).errors@) == if module_decls(text@).1 {
                with_error(errors_view(old(self).errors@), file@, syntax_error_message())
            } else {
                errors_view(old(self).errors@)
            },
    {
        let bad = walk_module(text, file, &mut self.raw, &mut self.sequence_types);
        if bad {
            push_error(&mut self.errors, file, "contains syntax errors (parsed on a best-effort basis)".to_owned());
        }
    }

    /// Resolves everything read and builds the tree, the table and symbol
    /// lookups, and the error report (each unresolved symbol is reported
    /// against the file that declared it).
    pub fn finish(self) -> (r: ParseResult)
        requires
            self.valid(),
        ensures
            exists|t: Seq<(String, Vec<u32>)>| resolution_valid(self.raw@, t) && table_map(t) == resolution_map(self.raw@),
            mib_nodes_model(r.tree@) == tree_spec(self.raw@, resolution_map(self.raw@)),
            assoc_unique(r.tables@),
            assoc_map(r.tables@).map_values(|x: TableInfo| table_view(x))
                == tables_spec(self.raw@, self.raw@.len() as int, assoc_map(self.sequence_types@), resolution_map(self.raw@)),
            assoc_unique(r.symbols@),
            assoc_map(r.symbols@).map_values(|x: SymbolInfo| symbol_view(x)) == symbols_spec(self.raw@, resolution_map(self.raw@)),
            errors_view(r.errors@) == report_unresolved(errors_view(self.errors@), self.raw@, unresolved_names(self.raw@, resolution_map(self.raw@))),
    {
        let MibReader { raw, sequence_types, errors } = self;
        let (table, unresolved) = resolve_oids(&raw);
        let mut errors = errors;
        let mut k: usize = 0;
        let ghost e0 = errors_view(errors@);
        let ghost names = string_views(unresolved@);
        while k < unresolved.len()
            invariant
                k <= unresolved@.len(),
                names == string_views(unresolved@),
                errors_view(errors@) == report_unresolved(e0, raw@, names.take(k as int)),
            decreases unresolved@.len() - k,
        {
            let name = &unresolved[k];
            let file = match last_named_index(&raw, name.as_str()) {
                Some(w) => string_of(chars_of(raw[w].file.as_str()).as_slice()),
                None => "<unknown>".to_owned(),
            };
            let mut msg = chars_of(name.as_str());
            let tail = chars_of(": could not resolve to an absolute OID (missing ancestor definition)");
            let mut q: usize = 0;
            let ghost m0 = msg@;
            while q < tail.len()
                invariant
                    q <= tail@.len(),
                    msg@ == m0 + tail@.take(q as int),
                decreases tail@.len() - q,
            {
                msg.push(tail[q]);
                q = q + 1;
                assert(msg@ =~= m0 + tail@.take(q as int));
            }
            assert(tail@.take(tail@.len() as int) =~= tail@);
            let text = string_of(msg.as_slice());
            push_error(&mut errors, file.as_str(), text);
            proof {
                assert(names.take(k + 1).drop_last() =~= names.take(k as int));
                assert(names.take(k + 1).last() == name@);
                assert(file@ == declared_file(raw@, name@));
                assert(text@ == unresolved_message(name@));
            }
            k = k + 1;
        }
        assert(names.take(unresolved@.len() as int) =~= names);
        let tree = build_tree(&raw, &table);
        let tables = build_tables(&raw, &sequence_types, &table);
        let symbols = build_symbols(&raw, &table);
        ParseResult { tree, tables, symbols, errors }
    }
}

/// A list of text pairs as spec values.
pub open spec fn text_pairs(v: Seq<(String, String)>) -> Seq<(Seq<char>, Seq<char>)> {
    v.map_values(|p: (String, String)| (p.0@, p.1@))
}

/// The (dotted OID, name) entries of the resolved symbols, in order.
pub open spec fn index_entries(symbols: Seq<(String, SymbolInfo)>) -> Seq<(Seq<char>, Seq<char>)>
    decreases symbols.len(),
{
    if symbols.len() == 0 {
        Seq::empty()
    } else {
        let prev = index_entries(symbols.drop_last());
        let s = symbols.last();
        if s.1.resolved && s.1.oid@.len() > 0 {
            prev.push((s.1.oid@, s.0@))
        } else {
            prev
        }
    }
}

/// `x` placed into `sorted` before the first entry with a shorter OID text.
pub open spec fn insert_by_len(sorted: Seq<(Seq<char>, Seq<char>)>, x: (Seq<char>, Seq<char>)) -> Seq<(Seq<char>, Seq<char>)>
    decreases sorted.len(),
{
    if sorted.len() == 0 {
        seq![x]
    } else if x.0.len() > sorted[0].0.len() {
        seq![x] + sorted
    } else {
        seq![sorted[0]] + insert_by_len(sorted.drop_first(), x)
    }
}

/// The entries ordered by decreasing OID length; entries of equal length
/// keep their order.
pub open spec fn sort_by_len(s: Seq<(Seq<char>, Seq<char>)>) -> Seq<(Seq<char>, Seq<char>)>
    decreases s.len(),
{
    if s.len() == 0 {
        Seq::empty()
    } else {
        insert_by_len(sort_by_len(s.drop_last()), s.last())
    }
}

/// No entry has a longer OID text than an entry before it.
pub open spec fn longest_first(s: Seq<(Seq<char>, Seq<char>)>) -> bool {
    forall|i: int, j: int| 0 <= i < j < s.len() ==> s[j].0.len() <= s[i].0.len()
}

/// The first position `p >= j` whose OID text is shorter than `x`'s, or the length.
pub open spec fn len_insert_point(s: Seq<(Seq<char>, Seq<char>)>, x: (Seq<char>, Seq<char>), j: int) -> int
    decreases s.len() - j,
{
    if j < 0 || j >= s.len() {
        s.len() as int
    } else if x.0.len() > s[j].0.len() {
        j
    } else {
        len_insert_point(s, x, j + 1)
    }
}

proof fn lemma_len_insert_point_shift(s: Seq<(Seq<char>, Seq<char>)>, x: (Seq<char>, Seq<char>), j: int)
    requires
        1 <= j <= s.len(),
    ensures
        len_insert_point(s, x, j) == 1 + len_insert_point(s.drop_first(), x, j - 1),
    decreases s.len() - j,
{
    if j < s.len() && !(x.0.len() > s[j].0.len()) {
        lemma_len_insert_point_shift(s, x, j + 1);
    }
}

proof fn lemma_insert_by_len(s: Seq<(Seq<char>, Seq<char>)>, x: (Seq<char>, Seq<char>))
    ensures
        0 <= len_insert_point(s, x, 0) <= s.len(),
        insert_by_len(s, x) == s.insert(len_insert_point(s, x, 0), x),
        longest_first(s) ==> longest_first(insert_by_len(s, x)),
    decreases s.len(),
{
    if s.len() > 0 && !(x.0.len() > s[0].0.len()) {
        lemma_insert_by_len(s.drop_first(), x);
        lemma_len_insert_point_shift(s, x, 1);
        let p = len_insert_point(s.drop_first(), x, 0);
        assert(seq![s[0]] + s.drop_first().insert(p, x) =~= s.insert(p + 1, x));
        if longest_first(s) {
            let t = insert_by_len(s.drop_first(), x);
            assert(longest_first(s.drop_first()));
            let r = insert_by_len(s, x);
            assert forall|i: int, j: int| 0 <= i < j < r.len() implies r[j].0.len() <= r[i].0.len() by {
                if i == 0 {
                    assert(r[j] == t[j - 1]);
                    assert(t == s.drop_first().insert(p, x));
                    if j - 1 == p {
                    } else if j - 1 < p {
                        assert(t[j - 1] == s[j]);
                    } else {
                        assert(t[j - 1] == s[j - 1]);
                    }
                } else {
                    assert(r[i] == t[i - 1] && r[j] == t[j - 1]);
                }
            }
        }
    } else if s.len() > 0 {
        assert(seq![x] + s =~= s.insert(0, x));
    } else {
        assert(seq![x] =~= s.insert(0, x));
    }
}

proof fn lemma_sort_by_len(s: Seq<(Seq<char>, Seq<char>)>)
    ensures
        longest_first(sort_by_len(s)),
        sort_by_len(s).len() == s.len(),
    decreases s.len(),
{
    if s.len() > 0 {
        lemma_sort_by_len(s.drop_last());
        lemma_insert_by_len(sort_by_len(s.drop_last()), s.last());
    }
}

/// The OID-to-name index of the resolved symbols, longest OID first, so
/// that the first entry covering an OID is the longest one that does.
pub fn build_oid_index(symbols: &Vec<(String, SymbolInfo)>) -> (r: Vec<(String, String)>)
    ensures
        text_pairs(r@) == sort_by_len(index_entries(symbols@)),
        longest_first(text_pairs(r@)),
{
    let mut out: Vec<(String, String)> = Vec::new();
    let mut i: usize = 0;
    while i < symbols.len()
        invariant
            i <= symbols@.len(),
            text_pairs(out@) == sort_by_len(index_entries(symbols@.take(i as int))),
        decreases symbols@.len() - i,
    {
        proof {
            let t = symbols@.take(i as int + 1);
            assert(t.drop_last() =~= symbols@.take(i as int));
            assert(t.last() == symbols@[i as int]);
        }
        let s = &symbols[i];
        if s.1.resolved && !s.1.oid.as_str().is_empty() {
            let ghost sv = text_pairs(out@);
            let ghost xv = (s.1.oid@, s.0@);
            let n = chars_of(s.1.oid.as_str()).len();
            let mut p: usize = 0;
            let mut found = false;
            while p < out.len() && !found
                invariant
                    p <= out@.len(),
                    sv == text_pairs(out@),
                    n == xv.0.len(),
                    found ==> p < out@.len() && xv.0.len() > sv[p as int].0.len(),
                    len_insert_point(sv, xv, 0) == len_insert_point(sv, xv, p as int),
                decreases out@.len() - p, if found { 0int } else { 1int },
            {
                let m = chars_of(out[p].0.as_str()).len();
                if n > m {
                    found = true;
                } else {
                    p = p + 1;
                }
            }
            proof {
                lemma_insert_by_len(sv, xv);
            }
            out.insert(p, (s.1.oid.clone(), s.0.clone()));
            proof {
                assert(len_insert_point(sv, xv, p as int) == p);
                assert(text_pairs(out@) =~= sv.insert(p as int, xv));
                let t = symbols@.take(i as int + 1);
                assert(index_entries(t) == index_entries(symbols@.take(i as int)).push(xv));
                assert(index_entries(t).drop_last() =~= index_entries(symbols@.take(i as int)));
            }
        } else {
            proof {
                let t = symbols@.take(i as int + 1);
                assert(index_entries(t) == index_entries(symbols@.take(i as int)));
            }
        }
        i = i + 1;
    }
    proof {
        assert(symbols@.take(symbols@.len() as int) =~= symbols@);
        lemma_sort_by_len(index_entries(symbols@));
    }
    out
}

} // verus!
