//! Reading MIB module source (SMIv1/SMIv2, the ASN.1 subset MIB files are
//! written in) into the declarations the resolver needs.
//!
//! The text is first split into tokens: words (identifiers, keywords and
//! numbers, made of letters, digits, `-` and `_`), quoted strings, `::=`,
//! and single punctuation characters. Whitespace and comments (`--` up to the
//! end of the line or the next `--`) separate tokens.

use vstd::prelude::*;
use crate::assoc::{assoc_map, assoc_unique, assoc_upsert};
use crate::mib::{OidComponent, RawKind, RawSymbol};
use crate::text::{chars_eq, chars_of, is_white, is_white_char, string_of, string_views};

verus! {

/// A character that can be part of a word.
pub open spec fn is_word_char(c: char) -> bool {
    ('a' <= c && c <= 'z') || ('A' <= c && c <= 'Z') || ('0' <= c && c <= '9') || c == '-' || c == '_'
}

fn word_char(c: char) -> (r: bool)
    ensures
        r == is_word_char(c),
{
    ('a' <= c && c <= 'z') || ('A' <= c && c <= 'Z') || ('0' <= c && c <= '9') || c == '-' || c == '_'
}

/// A comment starts at `i` (`--`).
pub open spec fn comment_at(cs: Seq<char>, i: int) -> bool {
    0 <= i && i + 1 < cs.len() && cs[i] == '-' && cs[i + 1] == '-'
}

/// The end of a comment whose text starts at `j`: just past the end of the
/// line or the closing `--`, or the end of the text.
pub open spec fn comment_end(cs: Seq<char>, j: int) -> int
    decreases cs.len() - j,
{
    if j < 0 || j >= cs.len() {
        cs.len() as int
    } else if cs[j] == '\n' || cs[j] == '\r' {
        j + 1
    } else if comment_at(cs, j) {
        j + 2
    } else {
        comment_end(cs, j + 1)
    }
}

/// Where the next token starts at or after `i`: whitespace and comments are
/// skipped; the end of the text when nothing is left.
pub open spec fn skip_blank(cs: Seq<char>, i: int) -> int
    decreases cs.len() - i,
{
    if i < 0 || i >= cs.len() {
        cs.len() as int
    } else if is_white(cs[i]) {
        skip_blank(cs, i + 1)
    } else if comment_at(cs, i) {
        proof {
            lemma_comment_end(cs, i + 2);
        }
        skip_blank(cs, comment_end(cs, i + 2))
    } else {
        i
    }
}

/// The end of the word that continues at `j` (a `--` ends it).
pub open spec fn word_end(cs: Seq<char>, j: int) -> int
    decreases cs.len() - j,
{
    if j < 0 || j >= cs.len() {
        cs.len() as int
    } else if is_word_char(cs[j]) && !comment_at(cs, j) {
        word_end(cs, j + 1)
    } else {
        j
    }
}

/// Just past the closing `q` of a quoted text whose content starts at `j`,
/// or the end of the text when it is never closed.
pub open spec fn quote_end(cs: Seq<char>, j: int, q: char) -> int
    decreases cs.len() - j,
{
    if j < 0 || j >= cs.len() {
        cs.len() as int
    } else if cs[j] == q {
        j + 1
    } else {
        quote_end(cs, j + 1, q)
    }
}

/// A token, as the parser sees it.
pub enum Token {
    Word(Vec<char>),
    /// A quoted string or a quoted hex/binary value; its content is not needed.
    Str,
    /// `::=`
    Assign,
    Sym(char),
}

/// The spec-level token.
pub enum Tok {
    Word(Seq<char>),
    Str,
    Assign,
    Sym(char),
}

/// The model of a token.
pub open spec fn tok_view(t: Token) -> Tok {
    match t {
        Token::Word(w) => Tok::Word(w@),
        Token::Str => Tok::Str,
        Token::Assign => Tok::Assign,
        Token::Sym(c) => Tok::Sym(c),
    }
}

/// The models of a sequence of tokens.
pub open spec fn toks_view(ts: Seq<Token>) -> Seq<Tok> {
    ts.map_values(|t: Token| tok_view(t))
}

/// `::=` starts at `i`.
pub open spec fn assign_at(cs: Seq<char>, i: int) -> bool {
    0 <= i && i + 2 < cs.len() && cs[i] == ':' && cs[i + 1] == ':' && cs[i + 2] == '='
}

/// The token that starts at `i` (a position `skip_blank` stopped at) and
/// the position just past it.
pub open spec fn token_at(cs: Seq<char>, i: int) -> (Tok, int) {
    if is_word_char(cs[i]) {
        (Tok::Word(cs.subrange(i, word_end(cs, i))), word_end(cs, i))
    } else if cs[i] == '"' {
        (Tok::Str, quote_end(cs, i + 1, '"'))
    } else if cs[i] == '\'' {
        (Tok::Str, quote_end(cs, i + 1, '\''))
    } else if assign_at(cs, i) {
        (Tok::Assign, i + 3)
    } else {
        (Tok::Sym(cs[i]), i + 1)
    }
}

/// The tokens of the text from position `i` on.
pub open spec fn tokens_from(cs: Seq<char>, i: int) -> Seq<Tok>
    decreases cs.len() - i,
{
    let s = skip_blank(cs, i);
    if i < 0 || s >= cs.len() {
        Seq::empty()
    } else {
        proof {
            lemma_skip_blank(cs, i);
            lemma_word_end(cs, s);
            lemma_quote_end(cs, s + 1, '"');
            lemma_quote_end(cs, s + 1, '\'');
        }
        let (t, e) = token_at(cs, s);
        if e <= s {
            Seq::empty()
        } else {
            seq![t] + tokens_from(cs, e)
        }
    }
}

/// The tokens of a whole text.
pub open spec fn tokenize_spec(cs: Seq<char>) -> Seq<Tok> {
    tokens_from(cs, 0)
}

pub proof fn lemma_comment_end(cs: Seq<char>, j: int)
    requires
        0 <= j,
    ensures
        comment_end(cs, j) <= cs.len(),
        j < cs.len() ==> j < comment_end(cs, j),
        j >= cs.len() ==> comment_end(cs, j) == cs.len(),
    decreases cs.len() - j,
{
    if j < cs.len() && !(cs[j] == '\n' || cs[j] == '\r') && !comment_at(cs, j) {
        lemma_comment_end(cs, j + 1);
    }
}

pub proof fn lemma_skip_blank(cs: Seq<char>, i: int)
    requires
        0 <= i <= cs.len(),
    ensures
        i <= skip_blank(cs, i) <= cs.len(),
        skip_blank(cs, i) < cs.len() ==> !is_white(cs[skip_blank(cs, i)]) && !comment_at(cs, skip_blank(cs, i)),
    decreases cs.len() - i,
{
    if i < cs.len() {
        if is_white(cs[i]) {
            lemma_skip_blank(cs, i + 1);
        } else if comment_at(cs, i) {
            lemma_comment_end(cs, i + 2);
            lemma_skip_blank(cs, comment_end(cs, i + 2));
        }
    }
}

pub proof fn lemma_word_end(cs: Seq<char>, j: int)
    requires
        0 <= j <= cs.len(),
    ensures
        j <= word_end(cs, j) <= cs.len(),
    decreases cs.len() - j,
{
    if j < cs.len() && is_word_char(cs[j]) && !comment_at(cs, j) {
        lemma_word_end(cs, j + 1);
    }
}

pub proof fn lemma_quote_end(cs: Seq<char>, j: int, q: char)
    requires
        0 <= j <= cs.len(),
    ensures
        j <= quote_end(cs, j, q) <= cs.len(),
    decreases cs.len() - j,
{
    if j < cs.len() && cs[j] != q {
        lemma_quote_end(cs, j + 1, q);
    }
}

fn skip_blank_exec(cs: &[char], i: usize) -> (r: usize)
    requires
        i <= cs@.len(),
    ensures
        r == skip_blank(cs@, i as int),
{
    let mut k = i;
    proof {
        lemma_skip_blank(cs@, i as int);
    }
    while k < cs.len()
        invariant
            i <= k <= cs@.len(),
            skip_blank(cs@, k as int) == skip_blank(cs@, i as int),
        decreases cs@.len() - k,
    {
        if is_white_char(cs[k]) {
            k = k + 1;
        } else if k + 1 < cs.len() && cs[k] == '-' && cs[k + 1] == '-' {
            let mut j = k + 2;
            while j < cs.len() && !(cs[j] == '\n' || cs[j] == '\r') && !(j + 1 < cs.len() && cs[j] == '-' && cs[j + 1] == '-')
                invariant
                    k + 2 <= j <= cs@.len(),
                    comment_end(cs@, j as int) == comment_end(cs@, k + 2),
                decreases cs@.len() - j,
            {
                j = j + 1;
            }
            if j < cs.len() {
                if cs[j] == '\n' || cs[j] == '\r' {
                    j = j + 1;
                } else {
                    j = j + 2;
                }
            }
            proof {
                lemma_comment_end(cs@, k + 2);
            }
            k = j;
        } else {
            return k;
        }
    }
    k
}

fn word_end_exec(cs: &[char], j: usize) -> (r: usize)
    requires
        j <= cs@.len(),
    ensures
        r == word_end(cs@, j as int),
        j <= r <= cs@.len(),
{
    let mut k = j;
    while k < cs.len() && word_char(cs[k]) && !(k + 1 < cs.len() && cs[k] == '-' && cs[k + 1] == '-')
        invariant
            j <= k <= cs@.len(),
            word_end(cs@, k as int) == word_end(cs@, j as int),
        decreases cs@.len() - k,
    {
        k = k + 1;
    }
    k
}

fn quote_end_exec(cs: &[char], j: usize, q: char) -> (r: usize)
    requires
        j <= cs@.len(),
    ensures
        r == quote_end(cs@, j as int, q),
        j <= r <= cs@.len(),
{
    let mut k = j;
    while k < cs.len() && cs[k] != q
        invariant
            j <= k <= cs@.len(),
            quote_end(cs@, k as int, q) == quote_end(cs@, j as int, q),
        decreases cs@.len() - k,
    {
        k = k + 1;
    }
    if k < cs.len() {
        k + 1
    } else {
        k
    }
}

fn token_at_exec(cs: &[char], s: usize) -> (r: (Token, usize))
    requires
        s < cs@.len(),
        !comment_at(cs@, s as int),
    ensures
        tok_view(r.0) == token_at(cs@, s as int).0,
        r.1 == token_at(cs@, s as int).1,
        s < r.1 <= cs@.len(),
{
    let c = cs[s];
    if word_char(c) {
        let e = word_end_exec(cs, s);
        proof {
            assert(word_end(cs@, s as int) == word_end(cs@, s + 1));
            lemma_word_end(cs@, s as int + 1);
        }
        let mut w: Vec<char> = Vec::new();
        let mut k = s;
        while k < e
            invariant
                s <= k <= e,
                e <= cs@.len(),
                w@ == cs@.subrange(s as int, k as int),
            decreases e - k,
        {
            w.push(cs[k]);
            k = k + 1;
            assert(w@ =~= cs@.subrange(s as int, k as int));
        }
        (Token::Word(w), e)
    } else if c == '"' {
        (Token::Str, quote_end_exec(cs, s + 1, '"'))
    } else if c == '\'' {
        (Token::Str, quote_end_exec(cs, s + 1, '\''))
    } else if cs.len() - s > 2 && c == ':' && cs[s + 1] == ':' && cs[s + 2] == '=' {
        (Token::Assign, s + 3)
    } else {
        (Token::Sym(c), s + 1)
    }
}

/// Splits MIB source text into tokens.
pub fn tokenize(cs: &[char]) -> (r: Vec<Token>)
    ensures
        toks_view(r@) == tokenize_spec(cs@),
{
    let mut out: Vec<Token> = Vec::new();
    let mut i: usize = 0;
    assert(toks_view(out@) + tokens_from(cs@, 0) =~= tokenize_spec(cs@));
    while i < cs.len()
        invariant
            i <= cs@.len(),
            toks_view(out@) + tokens_from(cs@, i as int) == tokenize_spec(cs@),
        decreases cs@.len() - i,
    {
        let s = skip_blank_exec(cs, i);
        proof {
            lemma_skip_blank(cs@, i as int);
        }
        if s >= cs.len() {
            assert(tokens_from(cs@, i as int) =~= Seq::<Tok>::empty());
            i = cs.len();
            assert(tokens_from(cs@, i as int) =~= Seq::<Tok>::empty());
            assert(toks_view(out@) + Seq::<Tok>::empty() =~= toks_view(out@));
            continue;
        }
        let ghost before = out@;
        let (tok, e) = token_at_exec(cs, s);
        let ghost tv = tok_view(tok);
        out.push(tok);
        proof {
            let t = token_at(cs@, s as int).0;
            assert(tokens_from(cs@, i as int) == seq![t] + tokens_from(cs@, e as int));
            assert(toks_view(out@) =~= toks_view(before).push(t));
            assert(toks_view(out@) + tokens_from(cs@, e as int) =~= toks_view(before) + (seq![t] + tokens_from(cs@, e as int)));
        }
        i = e;
    }
    proof {
        if i >= cs@.len() {
            assert(tokens_from(cs@, i as int) =~= Seq::<Tok>::empty());
            assert(toks_view(out@) + Seq::<Tok>::empty() =~= toks_view(out@));
        }
    }
    out
}

/// Whether `ts[i]` is the word `w`.
pub open spec fn is_word(ts: Seq<Tok>, i: int, w: Seq<char>) -> bool {
    0 <= i < ts.len() && ts[i] == Tok::Word(w)
}

/// Whether `ts[i]` is the punctuation `c`.
pub open spec fn is_sym(ts: Seq<Tok>, i: int, c: char) -> bool {
    0 <= i < ts.len() && ts[i] == Tok::Sym(c)
}

/// Whether `ts[i]` is `::=`.
pub open spec fn is_assign(ts: Seq<Tok>, i: int) -> bool {
    0 <= i < ts.len() && ts[i] == Tok::Assign
}

/// The first `::=` at or after `i`, or the end.
pub open spec fn find_assign(ts: Seq<Tok>, i: int) -> int
    decreases ts.len() - i,
{
    if i < 0 || i >= ts.len() {
        ts.len() as int
    } else if ts[i] == Tok::Assign {
        i
    } else {
        find_assign(ts, i + 1)
    }
}

/// The first word `w` at or after `i`, or the end.
pub open spec fn find_word(ts: Seq<Tok>, i: int, w: Seq<char>) -> int
    decreases ts.len() - i,
{
    if i < 0 || i >= ts.len() {
        ts.len() as int
    } else if ts[i] == Tok::Word(w) {
        i
    } else {
        find_word(ts, i + 1, w)
    }
}

/// The first punctuation `c` at or after `i`, or the end.
pub open spec fn find_sym(ts: Seq<Tok>, i: int, c: char) -> int
    decreases ts.len() - i,
{
    if i < 0 || i >= ts.len() {
        ts.len() as int
    } else if ts[i] == Tok::Sym(c) {
        i
    } else {
        find_sym(ts, i + 1, c)
    }
}

/// A decimal digit.
pub open spec fn is_digit(c: char) -> bool {
    '0' <= c && c <= '9'
}

/// A non-empty run of decimal digits.
pub open spec fn all_digits(w: Seq<char>) -> bool {
    w.len() > 0 && forall|k: int| 0 <= k < w.len() ==> is_digit(#[trigger] w[k])
}

/// The value of a run of decimal digits.
pub open spec fn dec_value(w: Seq<char>) -> nat
    decreases w.len(),
{
    if w.len() == 0 {
        0
    } else {
        dec_value(w.drop_last()) * 10 + ((w.last() as u32) - ('0' as u32)) as nat
    }
}

/// A word read as an unsigned 32-bit number (`u32`'s `FromStr`, on the
/// words the tokenizer makes).
pub open spec fn u32_of(w: Seq<char>) -> Option<u32> {
    if all_digits(w) && dec_value(w) <= u32::MAX {
        Some(dec_value(w) as u32)
    } else {
        None
    }
}

/// A word read as a signed 64-bit number, with an optional leading `-`.
pub open spec fn i64_of(w: Seq<char>) -> Option<i64> {
    if w.len() > 0 && w[0] == '-' {
        if all_digits(w.drop_first()) && dec_value(w.drop_first()) <= 0x8000_0000_0000_0000 {
            Some((0 - dec_value(w.drop_first())) as i64)
        } else {
            None
        }
    } else if all_digits(w) && dec_value(w) <= 0x7fff_ffff_ffff_ffff {
        Some(dec_value(w) as i64)
    } else {
        None
    }
}

/// The spec-level OID component.
pub enum Comp {
    Number(u32),
    Named(Seq<char>, u32),
    Ident(Seq<char>),
}

/// The OID components inside an OID value, from token `k` up to its `}`:
/// the components read, the position after the `}` (or the end), and
/// whether the value was well formed. A number that does not fit is left
/// out, as is a `name(number)` whose number does not fit.
pub open spec fn oid_items(ts: Seq<Tok>, k: int) -> (Seq<Comp>, int, bool)
    decreases ts.len() - k,
{
    if k < 0 || k >= ts.len() {
        (Seq::empty(), ts.len() as int, false)
    } else if ts[k] == Tok::Sym('}') {
        (Seq::empty(), k + 1, true)
    } else {
        match ts[k] {
            Tok::Word(w) => if all_digits(w) {
                let r = oid_items(ts, k + 1);
                match u32_of(w) {
                    Some(n) => (seq![Comp::Number(n)] + r.0, r.1, r.2),
                    None => r,
                }
            } else if is_sym(ts, k + 1, '(') && is_sym(ts, k + 3, ')') && ts[k + 2] is Word {
                let r = oid_items(ts, k + 4);
                match u32_of(ts[k + 2]->Word_0) {
                    Some(v) => (seq![Comp::Named(w, v)] + r.0, r.1, r.2),
                    None => r,
                }
            } else {
                let r = oid_items(ts, k + 1);
                (seq![Comp::Ident(w)] + r.0, r.1, r.2)
            },
            _ => {
                let r = oid_items(ts, k + 1);
                (r.0, r.1, false)
            },
        }
    }
}

/// `x`, or the end of the tokens when it lies past it.
pub open spec fn clamp(ts: Seq<Tok>, x: int) -> int {
    if x > ts.len() {
        ts.len() as int
    } else {
        x
    }
}

/// An OID value `{ ... }` starting at `p`.
pub open spec fn oid_value(ts: Seq<Tok>, p: int) -> (Seq<Comp>, int, bool) {
    if is_sym(ts, p, '{') {
        oid_items(ts, p + 1)
    } else {
        (Seq::empty(), clamp(ts, p + 1), false)
    }
}

/// The `name(number)` labels of an enumeration from token `k` up to its
/// `}`, and the position after it.
pub open spec fn enum_items(ts: Seq<Tok>, k: int) -> (Seq<(i64, Seq<char>)>, int)
    decreases ts.len() - k,
{
    if k < 0 || k >= ts.len() {
        (Seq::empty(), ts.len() as int)
    } else if ts[k] == Tok::Sym('}') {
        (Seq::empty(), k + 1)
    } else if ts[k] is Word && is_sym(ts, k + 1, '(') && is_sym(ts, k + 3, ')') && ts[k + 2] is Word {
        let r = enum_items(ts, k + 4);
        match i64_of(ts[k + 2]->Word_0) {
            Some(v) => (seq![(v, ts[k]->Word_0)] + r.0, r.1),
            None => r,
        }
    } else {
        enum_items(ts, k + 1)
    }
}

/// The field names of a `SEQUENCE { name Type, ... }` body from token `k`
/// up to its closing `}`: the first word of each comma-separated entry
/// (commas inside parentheses belong to the type).
pub open spec fn seq_fields(ts: Seq<Tok>, k: int, depth: nat, expect: bool) -> (Seq<Seq<char>>, int)
    decreases ts.len() - k,
{
    if k < 0 || k >= ts.len() {
        (Seq::empty(), ts.len() as int)
    } else if depth == 0 && ts[k] == Tok::Sym('}') {
        (Seq::empty(), k + 1)
    } else if depth == 0 && ts[k] == Tok::Sym(',') {
        seq_fields(ts, k + 1, 0, true)
    } else if ts[k] == Tok::Sym('(') {
        seq_fields(ts, k + 1, depth + 1, expect)
    } else if ts[k] == Tok::Sym(')') {
        seq_fields(ts, k + 1, if depth > 0 { (depth - 1) as nat } else { 0 }, expect)
    } else if expect && ts[k] is Word {
        let r = seq_fields(ts, k + 1, depth, false);
        (seq![ts[k]->Word_0] + r.0, r.1)
    } else {
        seq_fields(ts, k + 1, depth, expect)
    }
}

/// A declaration read from MIB source.
pub enum Decl {
    /// A symbol: name, OID value, kind, `SEQUENCE OF` entry type, enumeration.
    Symbol(Seq<char>, Seq<Comp>, crate::mib::RawKind, Option<Seq<char>>, Seq<(i64, Seq<char>)>),
    /// A `SEQUENCE` type and its field names.
    SeqType(Seq<char>, Seq<Seq<char>>),
}

/// What the SYNTAX clause between tokens `i` and `a` declares: the kind, the
/// entry type of a `SEQUENCE OF`, and the labels of an enumeration.
pub open spec fn syntax_of(ts: Seq<Tok>, i: int, a: int) -> (crate::mib::RawKind, Option<Seq<char>>, Seq<(i64, Seq<char>)>) {
    let y = find_word(ts, i, "SYNTAX"@);
    if y >= a {
        (crate::mib::RawKind::Scalar, None, Seq::empty())
    } else if is_word(ts, y + 1, "SEQUENCE"@) && is_word(ts, y + 2, "OF"@) && y + 3 < ts.len() && ts[y + 3] is Word {
        (crate::mib::RawKind::Table, Some(ts[y + 3]->Word_0), Seq::empty())
    } else if y + 1 < ts.len() && ts[y + 1] is Word && is_sym(ts, y + 2, '{') {
        (crate::mib::RawKind::Scalar, None, enum_items(ts, y + 3).0)
    } else {
        (crate::mib::RawKind::Scalar, None, Seq::empty())
    }
}

/// A macro-style assignment this reader has no use for.
pub open spec fn is_ignored_macro(ts: Seq<Tok>, i: int) -> bool {
    ||| is_word(ts, i, "OBJECT-GROUP"@)
    ||| is_word(ts, i, "NOTIFICATION-GROUP"@)
    ||| is_word(ts, i, "MODULE-COMPLIANCE"@)
    ||| is_word(ts, i, "AGENT-CAPABILITIES"@)
}

/// The declaration (if any) at token `i`, whether it was malformed, and
/// where reading resumes.
pub open spec fn decl_at(ts: Seq<Tok>, i: int) -> (Option<Decl>, bool, int) {
    if !(0 <= i < ts.len()) || !(ts[i] is Word) {
        (None, false, i + 1)
    } else {
        let name = ts[i]->Word_0;
        if is_word(ts, i, "IMPORTS"@) || is_word(ts, i, "EXPORTS"@) {
            (None, false, clamp(ts, find_sym(ts, i + 1, ';') + 1))
        } else if is_word(ts, i + 1, "MACRO"@) && is_assign(ts, i + 2) {
            (None, false, clamp(ts, find_word(ts, i + 3, "END"@) + 1))
        } else if is_word(ts, i + 1, "OBJECT"@) && is_word(ts, i + 2, "IDENTIFIER"@) && is_assign(ts, i + 3) {
            let v = oid_value(ts, i + 4);
            (Some(Decl::Symbol(name, v.0, crate::mib::RawKind::Group, None, Seq::empty())), !v.2, v.1)
        } else if is_word(ts, i + 1, "OBJECT-IDENTITY"@) || is_word(ts, i + 1, "MODULE-IDENTITY"@) {
            let a = find_assign(ts, i + 2);
            let v = oid_value(ts, a + 1);
            (Some(Decl::Symbol(name, v.0, crate::mib::RawKind::Group, None, Seq::empty())), !v.2, v.1)
        } else if is_word(ts, i + 1, "OBJECT-TYPE"@) {
            let a = find_assign(ts, i + 2);
            let syn = syntax_of(ts, i + 2, a);
            let v = oid_value(ts, a + 1);
            (Some(Decl::Symbol(name, v.0, syn.0, syn.1, syn.2)), !v.2, v.1)
        } else if is_word(ts, i + 1, "NOTIFICATION-TYPE"@) || is_word(ts, i + 1, "TRAP-TYPE"@) {
            let a = find_assign(ts, i + 2);
            if is_sym(ts, a + 1, '{') {
                let v = oid_value(ts, a + 1);
                (Some(Decl::Symbol(name, v.0, crate::mib::RawKind::Other, None, Seq::empty())), !v.2, v.1)
            } else {
                (Some(Decl::Symbol(name, Seq::empty(), crate::mib::RawKind::Other, None, Seq::empty())), a >= ts.len(), clamp(ts, a + 1))
            }
        } else if is_ignored_macro(ts, i + 1) {
            let a = find_assign(ts, i + 2);
            let v = oid_value(ts, a + 1);
            (None, !v.2, v.1)
        } else if is_assign(ts, i + 1) && is_word(ts, i + 2, "SEQUENCE"@) && is_sym(ts, i + 3, '{') {
            let f = seq_fields(ts, i + 4, 0, true);
            (Some(Decl::SeqType(name, f.0)), false, f.1)
        } else {
            (None, false, i + 1)
        }
    }
}

/// The declarations from token `i` on, and whether any was malformed.
pub open spec fn decls_from(ts: Seq<Tok>, i: int) -> (Seq<Decl>, bool)
    decreases ts.len() - i,
{
    if i < 0 || i >= ts.len() {
        (Seq::empty(), false)
    } else {
        let d = decl_at(ts, i);
        if d.2 <= i {
            (Seq::empty(), d.1)
        } else {
            let next = if d.2 > ts.len() { ts.len() as int } else { d.2 };
            let r = decls_from(ts, next);
            match d.0 {
                Some(x) => (seq![x] + r.0, d.1 || r.1),
                None => (r.0, d.1 || r.1),
            }
        }
    }
}

fn word_is(ts: &Vec<Token>, i: usize, lit: &str) -> (r: bool)
    ensures
        r == is_word(toks_view(ts@), i as int, lit@),
{
    if i < ts.len() {
        match &ts[i] {
            Token::Word(w) => {
                let l = chars_of(lit);
                chars_eq(w.as_slice(), l.as_slice())
            },
            _ => false,
        }
    } else {
        false
    }
}

fn sym_is(ts: &Vec<Token>, i: usize, c: char) -> (r: bool)
    ensures
        r == is_sym(toks_view(ts@), i as int, c),
{
    if i < ts.len() {
        match &ts[i] {
            Token::Sym(d) => *d == c,
            _ => false,
        }
    } else {
        false
    }
}

fn assign_is(ts: &Vec<Token>, i: usize) -> (r: bool)
    ensures
        r == is_assign(toks_view(ts@), i as int),
{
    if i < ts.len() {
        match &ts[i] {
            Token::Assign => true,
            _ => false,
        }
    } else {
        false
    }
}

fn is_word_tok(ts: &Vec<Token>, i: usize) -> (r: bool)
    ensures
        r == (i < ts@.len() && toks_view(ts@)[i as int] is Word),
{
    if i < ts.len() {
        match &ts[i] {
            Token::Word(_) => true,
            _ => false,
        }
    } else {
        false
    }
}

fn find_assign_exec(ts: &Vec<Token>, i: usize) -> (r: usize)
    requires
        i <= ts@.len(),
    ensures
        r == find_assign(toks_view(ts@), i as int),
        i <= r <= ts@.len(),
{
    let mut k = i;
    while k < ts.len() && !assign_is(ts, k)
        invariant
            i <= k <= ts@.len(),
            find_assign(toks_view(ts@), k as int) == find_assign(toks_view(ts@), i as int),
        decreases ts@.len() - k,
    {
        k = k + 1;
    }
    k
}

fn find_word_exec(ts: &Vec<Token>, i: usize, lit: &str) -> (r: usize)
    requires
        i <= ts@.len(),
    ensures
        r == find_word(toks_view(ts@), i as int, lit@),
        i <= r <= ts@.len(),
{
    let mut k = i;
    while k < ts.len() && !word_is(ts, k, lit)
        invariant
            i <= k <= ts@.len(),
            find_word(toks_view(ts@), k as int, lit@) == find_word(toks_view(ts@), i as int, lit@),
        decreases ts@.len() - k,
    {
        k = k + 1;
    }
    k
}

fn find_sym_exec(ts: &Vec<Token>, i: usize, c: char) -> (r: usize)
    requires
        i <= ts@.len(),
    ensures
        r == find_sym(toks_view(ts@), i as int, c),
        i <= r <= ts@.len(),
{
    let mut k = i;
    while k < ts.len() && !sym_is(ts, k, c)
        invariant
            i <= k <= ts@.len(),
            find_sym(toks_view(ts@), k as int, c) == find_sym(toks_view(ts@), i as int, c),
        decreases ts@.len() - k,
    {
        k = k + 1;
    }
    k
}

proof fn lemma_dec_value_grows(w: Seq<char>, k: int)
    requires
        all_digits(w),
        0 <= k <= w.len(),
    ensures
        dec_value(w.take(k)) <= dec_value(w),
    decreases w.len() - k,
{
    if k < w.len() {
        lemma_dec_value_grows(w, k + 1);
        assert(w.take(k + 1).drop_last() =~= w.take(k));
        assert(is_digit(w[k]));
    } else {
        assert(w.take(k) =~= w);
    }
}

/// The value of a run of decimal digits, or `None` when `w` is not one or
/// its value exceeds `limit`.
pub fn digits_up_to(w: &[char], limit: u64) -> (r: Option<u64>)
    ensures
        match r {
            Some(v) => all_digits(w@) && dec_value(w@) == v && v <= limit,
            None => !all_digits(w@) || dec_value(w@) > limit,
        },
{
    if w.len() == 0 {
        return None;
    }
    let mut acc: u64 = 0;
    let mut i: usize = 0;
    while i < w.len()
        invariant
            i <= w@.len(),
            acc <= limit,
            forall|k: int| 0 <= k < i ==> is_digit(#[trigger] w@[k]),
            dec_value(w@.take(i as int)) == acc,
        decreases w@.len() - i,
    {
        let c = w[i];
        if !('0' <= c && c <= '9') {
            return None;
        }
        let d: u64 = (c as u32 - '0' as u32) as u64;
        assert(w@.take(i + 1).drop_last() =~= w@.take(i as int));
        if d > limit || acc > (limit - d) / 10 {
            proof {
                assert(dec_value(w@.take(i + 1)) == acc * 10 + d);
                if d <= limit {
                    assert(acc * 10 + d > limit) by (nonlinear_arith)
                        requires
                            acc > (limit - d) / 10,
                            d <= limit,
                    ;
                }
                if forall|k: int| 0 <= k < w@.len() ==> is_digit(#[trigger] w@[k]) {
                    lemma_dec_value_grows(w@, i + 1);
                }
            }
            return None;
        }
        proof {
            assert(acc * 10 + d <= limit) by (nonlinear_arith)
                requires
                    acc <= (limit - d) / 10,
                    d <= 9,
            ;
        }
        acc = acc * 10 + d;
        i = i + 1;
    }
    assert(w@.take(w@.len() as int) =~= w@);
    Some(acc)
}

/// `w` read as a `u32` (see `u32_of`).
pub fn parse_u32(w: &[char]) -> (r: Option<u32>)
    ensures
        r == u32_of(w@),
{
    match digits_up_to(w, 0xffff_ffff) {
        Some(v) => Some(v as u32),
        None => None,
    }
}

/// `w` read as an `i64` (see `i64_of`).
pub fn parse_i64(w: &[char]) -> (r: Option<i64>)
    ensures
        r == i64_of(w@),
{
    if w.len() > 0 && w[0] == '-' {
        let rest = vstd::slice::slice_subrange(w, 1, w.len());
        assert(rest@ =~= w@.drop_first());
        match digits_up_to(rest, 0x8000_0000_0000_0000) {
            Some(v) => {
                if v == 0x8000_0000_0000_0000 {
                    Some(i64::MIN)
                } else {
                    Some(-(v as i64))
                }
            },
            None => None,
        }
    } else {
        match digits_up_to(w, 0x7fff_ffff_ffff_ffff) {
            Some(v) => Some(v as i64),
            None => None,
        }
    }
}

/// The model of an OID component.
pub open spec fn comp_view(c: OidComponent) -> Comp {
    match c {
        OidComponent::Number(n) => Comp::Number(n),
        OidComponent::Named(s, v) => Comp::Named(s@, v),
        OidComponent::Ident(s) => Comp::Ident(s@),
    }
}

/// The models of OID components.
pub open spec fn comps_view(cs: Seq<OidComponent>) -> Seq<Comp> {
    cs.map_values(|c: OidComponent| comp_view(c))
}

fn digits_only(w: &[char]) -> (r: bool)
    ensures
        r == all_digits(w@),
{
    if w.len() == 0 {
        return false;
    }
    let mut i: usize = 0;
    while i < w.len()
        invariant
            i <= w@.len(),
            forall|k: int| 0 <= k < i ==> is_digit(#[trigger] w@[k]),
        decreases w@.len() - i,
    {
        if !('0' <= w[i] && w[i] <= '9') {
            return false;
        }
        i = i + 1;
    }
    true
}

fn oid_items_exec(ts: &Vec<Token>, start: usize) -> (r: (Vec<OidComponent>, usize, bool))
    requires
        start <= ts@.len(),
    ensures
        comps_view(r.0@) == oid_items(toks_view(ts@), start as int).0,
        r.1 == oid_items(toks_view(ts@), start as int).1,
        r.2 == oid_items(toks_view(ts@), start as int).2,
        start <= r.1 <= ts@.len(),
{
    let ghost tv = toks_view(ts@);
    let mut out: Vec<OidComponent> = Vec::new();
    let mut k = start;
    let mut ok = true;
    assert(comps_view(out@) + oid_items(tv, k as int).0 =~= oid_items(tv, start as int).0);
    loop
        invariant
            start <= k <= ts@.len(),
            tv == toks_view(ts@),
            comps_view(out@) + oid_items(tv, k as int).0 == oid_items(tv, start as int).0,
            oid_items(tv, k as int).1 == oid_items(tv, start as int).1,
            oid_items(tv, start as int).2 == (ok && oid_items(tv, k as int).2),
        decreases ts@.len() - k,
    {
        if k >= ts.len() {
            assert(comps_view(out@) + Seq::<Comp>::empty() =~= comps_view(out@));
            return (out, ts.len(), false);
        }
        if sym_is(ts, k, '}') {
            assert(comps_view(out@) + Seq::<Comp>::empty() =~= comps_view(out@));
            return (out, k + 1, ok);
        }
        let ghost before = out@;
        let ghost rest = oid_items(tv, k as int);
        match &ts[k] {
            Token::Word(w) => {
                if digits_only(w.as_slice()) {
                    match parse_u32(w.as_slice()) {
                        Some(n) => {
                            out.push(OidComponent::Number(n));
                            proof {
                                assert(comps_view(out@) =~= comps_view(before).push(Comp::Number(n)));
                                assert(rest.0 == seq![Comp::Number(n)] + oid_items(tv, k + 1).0);
                                assert(comps_view(out@) + oid_items(tv, k + 1).0 =~= comps_view(before) + rest.0);
                            }
                        },
                        None => {},
                    }
                    k = k + 1;
                } else if ts.len() - k > 3 && sym_is(ts, k + 1, '(') && sym_is(ts, k + 3, ')') && is_word_tok(ts, k + 2) {
                    match &ts[k + 2] {
                        Token::Word(v) => {
                            match parse_u32(v.as_slice()) {
                                Some(n) => {
                                    let name = string_of(w.as_slice());
                                    out.push(OidComponent::Named(name, n));
                                    proof {
                                        assert(comps_view(out@) =~= comps_view(before).push(Comp::Named(w@, n)));
                                        assert(rest.0 == seq![Comp::Named(w@, n)] + oid_items(tv, k + 4).0);
                                        assert(comps_view(out@) + oid_items(tv, k + 4).0 =~= comps_view(before) + rest.0);
                                    }
                                },
                                None => {},
                            }
                        },
                        _ => {},
                    }
                    k = k + 4;
                } else {
                    let name = string_of(w.as_slice());
                    out.push(OidComponent::Ident(name));
                    proof {
                        assert(comps_view(out@) =~= comps_view(before).push(Comp::Ident(w@)));
                        assert(rest.0 == seq![Comp::Ident(w@)] + oid_items(tv, k + 1).0);
                        assert(comps_view(out@) + oid_items(tv, k + 1).0 =~= comps_view(before) + rest.0);
                    }
                    k = k + 1;
                }
            },
            _ => {
                ok = false;
                k = k + 1;
            },
        }
    }
}

fn enum_items_exec(ts: &Vec<Token>, start: usize) -> (r: (Vec<(i64, String)>, usize))
    requires
        start <= ts@.len(),
    ensures
        crate::mib::enum_view(r.0@) == enum_items(toks_view(ts@), start as int).0,
        r.1 == enum_items(toks_view(ts@), start as int).1,
        r.1 <= ts@.len(),
{
    let ghost tv = toks_view(ts@);
    let mut out: Vec<(i64, String)> = Vec::new();
    let mut k = start;
    assert(crate::mib::enum_view(out@) + enum_items(tv, k as int).0 =~= enum_items(tv, start as int).0);
    loop
        invariant
            start <= k <= ts@.len(),
            tv == toks_view(ts@),
            crate::mib::enum_view(out@) + enum_items(tv, k as int).0 == enum_items(tv, start as int).0,
            enum_items(tv, k as int).1 == enum_items(tv, start as int).1,
        decreases ts@.len() - k,
    {
        if k >= ts.len() {
            assert(crate::mib::enum_view(out@) + Seq::<(i64, Seq<char>)>::empty() =~= crate::mib::enum_view(out@));
            return (out, ts.len());
        }
        if sym_is(ts, k, '}') {
            assert(crate::mib::enum_view(out@) + Seq::<(i64, Seq<char>)>::empty() =~= crate::mib::enum_view(out@));
            return (out, k + 1);
        }
        let ghost before = out@;
        let ghost rest = enum_items(tv, k as int);
        if ts.len() - k > 3 && is_word_tok(ts, k) && sym_is(ts, k + 1, '(') && sym_is(ts, k + 3, ')') && is_word_tok(ts, k + 2) {
            match (&ts[k], &ts[k + 2]) {
                (Token::Word(name), Token::Word(v)) => {
                    match parse_i64(v.as_slice()) {
                        Some(n) => {
                            let label = string_of(name.as_slice());
                            out.push((n, label));
                            proof {
                                assert(crate::mib::enum_view(out@) =~= crate::mib::enum_view(before).push((n, name@)));
                                assert(rest.0 == seq![(n, name@)] + enum_items(tv, k + 4).0);
                                assert(crate::mib::enum_view(out@) + enum_items(tv, k + 4).0 =~= crate::mib::enum_view(before) + rest.0);
                            }
                        },
                        None => {},
                    }
                },
                _ => {},
            }
            k = k + 4;
        } else {
            k = k + 1;
        }
    }
}

fn seq_fields_exec(ts: &Vec<Token>, start: usize) -> (r: (Vec<String>, usize))
    requires
        start <= ts@.len(),
    ensures
        string_views(r.0@) == seq_fields(toks_view(ts@), start as int, 0, true).0,
        r.1 == seq_fields(toks_view(ts@), start as int, 0, true).1,
        start <= r.1 <= ts@.len(),
{
    let ghost tv = toks_view(ts@);
    let mut out: Vec<String> = Vec::new();
    let mut k = start;
    let mut depth: usize = 0;
    let mut expect = true;
    assert(string_views(out@) + seq_fields(tv, k as int, depth as nat, expect).0 =~= seq_fields(tv, start as int, 0, true).0);
    loop
        invariant
            start <= k <= ts@.len(),
            depth <= k - start,
            tv == toks_view(ts@),
            string_views(out@) + seq_fields(tv, k as int, depth as nat, expect).0 == seq_fields(tv, start as int, 0, true).0,
            seq_fields(tv, k as int, depth as nat, expect).1 == seq_fields(tv, start as int, 0, true).1,
        decreases ts@.len() - k,
    {
        if k >= ts.len() {
            assert(string_views(out@) + Seq::<Seq<char>>::empty() =~= string_views(out@));
            return (out, ts.len());
        }
        if depth == 0 && sym_is(ts, k, '}') {
            assert(string_views(out@) + Seq::<Seq<char>>::empty() =~= string_views(out@));
            return (out, k + 1);
        }
        if depth == 0 && sym_is(ts, k, ',') {
            expect = true;
        } else if sym_is(ts, k, '(') {
            depth = depth + 1;
        } else if sym_is(ts, k, ')') {
            if depth > 0 {
                depth = depth - 1;
            }
        } else if expect && is_word_tok(ts, k) {
            match &ts[k] {
                Token::Word(w) => {
                    let ghost before = out@;
                    out.push(string_of(w.as_slice()));
                    proof {
                        assert(string_views(out@) =~= string_views(before).push(w@));
                        assert(seq_fields(tv, k as int, depth as nat, expect).0 == seq![w@] + seq_fields(tv, k + 1, depth as nat, false).0);
                        assert(string_views(out@) + seq_fields(tv, k + 1, depth as nat, false).0 =~= string_views(before) + seq_fields(tv, k as int, depth as nat, expect).0);
                    }
                },
                _ => {},
            }
            expect = false;
        }
        k = k + 1;
    }
}

fn word_at(ts: &Vec<Token>, i: usize, off: usize, lit: &str) -> (r: bool)
    requires
        i <= ts@.len(),
    ensures
        r == is_word(toks_view(ts@), i + off, lit@),
{
    ts.len() - i > off && word_is(ts, i + off, lit)
}

fn sym_at(ts: &Vec<Token>, i: usize, off: usize, c: char) -> (r: bool)
    requires
        i <= ts@.len(),
    ensures
        r == is_sym(toks_view(ts@), i + off, c),
{
    ts.len() - i > off && sym_is(ts, i + off, c)
}

fn assign_at_tok(ts: &Vec<Token>, i: usize, off: usize) -> (r: bool)
    requires
        i <= ts@.len(),
    ensures
        r == is_assign(toks_view(ts@), i + off),
{
    ts.len() - i > off && assign_is(ts, i + off)
}

/// `find_assign` from `i + off`, which may lie past the end.
fn find_assign_from(ts: &Vec<Token>, i: usize, off: usize) -> (r: usize)
    requires
        i <= ts@.len(),
    ensures
        r == find_assign(toks_view(ts@), i + off),
        r <= ts@.len(),
        r >= i + off || r == ts@.len(),
{
    if ts.len() - i >= off {
        find_assign_exec(ts, i + off)
    } else {
        ts.len()
    }
}

/// `oid_value` at `a + 1`, for a position `a` at most the end.
fn oid_value_after(ts: &Vec<Token>, a: usize) -> (r: (Vec<OidComponent>, usize, bool))
    requires
        a <= ts@.len(),
    ensures
        comps_view(r.0@) == oid_value(toks_view(ts@), a + 1).0,
        r.1 == oid_value(toks_view(ts@), a + 1).1,
        r.2 == oid_value(toks_view(ts@), a + 1).2,
        r.1 <= ts@.len(),
        r.1 > a || r.1 == ts@.len(),
{
    let n = ts.len();
    if sym_at(ts, a, 1, '{') {
        oid_items_exec(ts, a + 2)
    } else {
        let v: Vec<OidComponent> = Vec::new();
        assert(comps_view(v@) =~= Seq::<Comp>::empty());
        (v, if n - a >= 2 { a + 2 } else { n }, false)
    }
}

/// A declaration, as read from source.
pub enum Declaration {
    Symbol(RawSymbol),
    SeqType(String, Vec<String>),
}

/// The model of an optional string.
pub open spec fn opt_chars(o: Option<String>) -> Option<Seq<char>> {
    match o {
        Some(s) => Some(s@),
        None => None,
    }
}

/// The model of a declared symbol (its file aside).
pub open spec fn symbol_decl(s: RawSymbol) -> Decl {
    Decl::Symbol(s.name@, comps_view(s.oid@), s.kind, opt_chars(s.sequence_of_target), crate::mib::enum_view(s.enum_values@))
}

/// The model of a declaration.
pub open spec fn decl_view(d: Declaration) -> Decl {
    match d {
        Declaration::Symbol(s) => symbol_decl(s),
        Declaration::SeqType(n, f) => Decl::SeqType(n@, string_views(f@)),
    }
}

/// The model of an optional declaration.
pub open spec fn opt_decl_view(d: Option<Declaration>) -> Option<Decl> {
    match d {
        Some(x) => Some(decl_view(x)),
        None => None,
    }
}

fn syntax_exec(ts: &Vec<Token>, i: usize, a: usize) -> (r: (RawKind, Option<String>, Vec<(i64, String)>))
    requires
        i <= ts@.len(),
        a <= ts@.len(),
    ensures
        r.0 == syntax_of(toks_view(ts@), i as int, a as int).0,
        opt_chars(r.1) == syntax_of(toks_view(ts@), i as int, a as int).1,
        crate::mib::enum_view(r.2@) == syntax_of(toks_view(ts@), i as int, a as int).2,
{
    let y = find_word_exec(ts, i, "SYNTAX");
    let empty: Vec<(i64, String)> = Vec::new();
    assert(crate::mib::enum_view(empty@) =~= Seq::<(i64, Seq<char>)>::empty());
    if y >= a {
        return (RawKind::Scalar, None, empty);
    }
    if word_at(ts, y, 1, "SEQUENCE") && word_at(ts, y, 2, "OF") && ts.len() - y > 3 && is_word_tok(ts, y + 3) {
        match &ts[y + 3] {
            Token::Word(w) => {
                return (RawKind::Table, Some(string_of(w.as_slice())), empty);
            },
            _ => {},
        }
    }
    if ts.len() - y > 1 && is_word_tok(ts, y + 1) && sym_at(ts, y, 2, '{') {
        let (labels, _) = enum_items_exec(ts, y + 3);
        return (RawKind::Scalar, None, labels);
    }
    (RawKind::Scalar, None, empty)
}

fn is_ignored_macro_exec(ts: &Vec<Token>, i: usize) -> (r: bool)
    requires
        i <= ts@.len(),
    ensures
        r == is_ignored_macro(toks_view(ts@), i + 1),
{
    word_at(ts, i, 1, "OBJECT-GROUP") || word_at(ts, i, 1, "NOTIFICATION-GROUP") || word_at(ts, i, 1, "MODULE-COMPLIANCE")
        || word_at(ts, i, 1, "AGENT-CAPABILITIES")
}

fn symbol(name: &Vec<char>, oid: Vec<OidComponent>, kind: RawKind, target: Option<String>, enum_values: Vec<(i64, String)>, file: &str) -> (r: Declaration)
    ensures
        decl_view(r) == Decl::Symbol(name@, comps_view(oid@), kind, opt_chars(target), crate::mib::enum_view(enum_values@)),
        r matches Declaration::Symbol(s) && s.file@ == file@,
{
    Declaration::Symbol(RawSymbol {
        name: string_of(name.as_slice()),
        oid,
        kind,
        sequence_of_target: target,
        enum_values,
        file: string_of(chars_of(file).as_slice()),
    })
}

fn no_labels() -> (r: Vec<(i64, String)>)
    ensures
        crate::mib::enum_view(r@) == Seq::<(i64, Seq<char>)>::empty(),
{
    let r: Vec<(i64, String)> = Vec::new();
    assert(crate::mib::enum_view(r@) =~= Seq::<(i64, Seq<char>)>::empty());
    r
}

fn no_comps() -> (r: Vec<OidComponent>)
    ensures
        comps_view(r@) == Seq::<Comp>::empty(),
{
    let r: Vec<OidComponent> = Vec::new();
    assert(comps_view(r@) =~= Seq::<Comp>::empty());
    r
}

/// Reads the declaration (if any) at token `i`; see `decl_at`.
fn decl_at_exec(ts: &Vec<Token>, i: usize, file: &str) -> (r: (Option<Declaration>, bool, usize))
    requires
        i < ts@.len(),
    ensures
        opt_decl_view(r.0) == decl_at(toks_view(ts@), i as int).0,
        r.1 == decl_at(toks_view(ts@), i as int).1,
        r.2 == decl_at(toks_view(ts@), i as int).2,
        i < r.2 <= ts@.len(),
        r.0 matches Some(Declaration::Symbol(s)) ==> s.file@ == file@,
{
    let ghost tv = toks_view(ts@);
    let n = ts.len();
    let name: &Vec<char> = match &ts[i] {
        Token::Word(w) => w,
        _ => {
            return (None, false, i + 1);
        },
    };
    if word_is(ts, i, "IMPORTS") || word_is(ts, i, "EXPORTS") {
        let e = find_sym_exec(ts, i + 1, ';');
        return (None, false, if e < ts.len() { e + 1 } else { ts.len() });
    }
    if word_at(ts, i, 1, "MACRO") && assign_at_tok(ts, i, 2) {
        let e = find_word_exec(ts, i + 3, "END");
        return (None, false, if e < ts.len() { e + 1 } else { ts.len() });
    }
    if word_at(ts, i, 1, "OBJECT") && word_at(ts, i, 2, "IDENTIFIER") && assign_at_tok(ts, i, 3) {
        let (oid, next, ok) = oid_value_after(ts, i + 3);
        let d = symbol(name, oid, RawKind::Group, None, no_labels(), file);
        return (Some(d), !ok, next);
    }
    if word_at(ts, i, 1, "OBJECT-IDENTITY") || word_at(ts, i, 1, "MODULE-IDENTITY") {
        let a = find_assign_from(ts, i, 2);
        let (oid, next, ok) = oid_value_after(ts, a);
        let d = symbol(name, oid, RawKind::Group, None, no_labels(), file);
        return (Some(d), !ok, next);
    }
    if word_at(ts, i, 1, "OBJECT-TYPE") {
        let a = find_assign_from(ts, i, 2);
        let (kind, target, labels) = syntax_exec(ts, if ts.len() - i >= 2 { i + 2 } else { ts.len() }, a);
        proof {
            if ts@.len() - i < 2 {
                assert(find_word(tv, i + 2, "SYNTAX"@) == find_word(tv, ts@.len() as int, "SYNTAX"@));
            }
        }
        let (oid, next, ok) = oid_value_after(ts, a);
        let d = symbol(name, oid, kind, target, labels, file);
        return (Some(d), !ok, next);
    }
    if word_at(ts, i, 1, "NOTIFICATION-TYPE") || word_at(ts, i, 1, "TRAP-TYPE") {
        let a = find_assign_from(ts, i, 2);
        if sym_at(ts, a, 1, '{') {
            let (oid, next, ok) = oid_value_after(ts, a);
            let d = symbol(name, oid, RawKind::Other, None, no_labels(), file);
                return (Some(d), !ok, next);
        } else {
            let d = symbol(name, no_comps(), RawKind::Other, None, no_labels(), file);
                return (Some(d), a >= ts.len(), if a < ts.len() { a + 1 } else { ts.len() });
        }
    }
    if is_ignored_macro_exec(ts, i) {
        let a = find_assign_from(ts, i, 2);
        let (_, next, ok) = oid_value_after(ts, a);
        return (None, !ok, next);
    }
    if assign_at_tok(ts, i, 1) && word_at(ts, i, 2, "SEQUENCE") && sym_at(ts, i, 3, '{') {
        let (fields, next) = seq_fields_exec(ts, i + 4);
        let d = Declaration::SeqType(string_of(name.as_slice()), fields);
        return (Some(d), false, next);
    }
    (None, false, i + 1)
}

/// The declarations of a module's source text, and whether any was
/// malformed.
pub open spec fn module_decls(src: Seq<char>) -> (Seq<Decl>, bool) {
    decls_from(tokenize_spec(src), 0)
}

/// The symbol declarations among `ds`, in order.
pub open spec fn decl_symbols(ds: Seq<Decl>) -> Seq<Decl>
    decreases ds.len(),
{
    if ds.len() == 0 {
        Seq::empty()
    } else if ds.last() is Symbol {
        decl_symbols(ds.drop_last()).push(ds.last())
    } else {
        decl_symbols(ds.drop_last())
    }
}

/// The `SEQUENCE` types known after the declarations `ds` on top of `m`; a
/// later type of the same name replaces an earlier one.
pub open spec fn apply_seq_types(m: Map<Seq<char>, Seq<Seq<char>>>, ds: Seq<Decl>) -> Map<Seq<char>, Seq<Seq<char>>>
    decreases ds.len(),
{
    if ds.len() == 0 {
        m
    } else {
        let p = apply_seq_types(m, ds.drop_last());
        match ds.last() {
            Decl::SeqType(n, f) => p.insert(n, f),
            _ => p,
        }
    }
}

/// The model of the known `SEQUENCE` types.
pub open spec fn seq_types_view(v: Seq<(String, Vec<String>)>) -> Map<Seq<char>, Seq<Seq<char>>> {
    assoc_map(v).map_values(|f: Vec<String>| string_views(f@))
}

/// The models of declared symbols (their files aside).
pub open spec fn symbol_decls(raw: Seq<RawSymbol>) -> Seq<Decl> {
    raw.map_values(|s: RawSymbol| symbol_decl(s))
}

/// Reads one MIB module's source: appends its symbols (tagged with `file`)
/// to `raw` and its `SEQUENCE` types to `sequence_types`. Returns whether
/// the source holds malformed declarations (it is read on a best-effort
/// basis either way).
pub fn walk_module(src: &str, file: &str, raw: &mut Vec<RawSymbol>, sequence_types: &mut Vec<(String, Vec<String>)>) -> (has_errors: bool)
    requires
        assoc_unique(old(sequence_types)@),
    ensures
        symbol_decls(final(raw)@) == symbol_decls(old(raw)@) + decl_symbols(module_decls(src@).0),
        forall|j: int| 0 <= j < old(raw)@.len() ==> #[trigger] final(raw)@[j] == old(raw)@[j],
        forall|j: int| old(raw)@.len() <= j < final(raw)@.len() ==> (#[trigger] final(raw)@[j]).file@ == file@,
        assoc_unique(final(sequence_types)@),
        seq_types_view(final(sequence_types)@) == apply_seq_types(seq_types_view(old(sequence_types)@), module_decls(src@).0),
        has_errors == module_decls(src@).1,
{
    let cs = chars_of(src);
    let ts = tokenize(cs.as_slice());
    let ghost tv = toks_view(ts@);
    let ghost raw0 = raw@;
    let ghost st0 = seq_types_view(sequence_types@);
    let ghost mut done: Seq<Decl> = Seq::empty();
    let mut err = false;
    let mut i: usize = 0;
    assert(symbol_decls(raw@) =~= symbol_decls(raw0) + decl_symbols(done));
    assert(decls_from(tv, 0).0 =~= done + decls_from(tv, 0).0);
    while i < ts.len()
        invariant
            i <= ts@.len(),
            tv == toks_view(ts@),
            tv == tokenize_spec(src@),
            decls_from(tv, 0).0 == done + decls_from(tv, i as int).0,
            decls_from(tv, 0).1 == (err || decls_from(tv, i as int).1),
            symbol_decls(raw@) == symbol_decls(raw0) + decl_symbols(done),
            raw@.len() >= raw0.len(),
            forall|j: int| 0 <= j < raw0.len() ==> #[trigger] raw@[j] == raw0[j],
            forall|j: int| raw0.len() <= j < raw@.len() ==> (#[trigger] raw@[j]).file@ == file@,
            assoc_unique(sequence_types@),
            seq_types_view(sequence_types@) == apply_seq_types(st0, done),
        decreases ts@.len() - i,
    {
        let (d, e, next) = decl_at_exec(&ts, i, file);
        let ghost dv = opt_decl_view(d);
        let ghost rest = decls_from(tv, next as int);
        proof {
            assert(decls_from(tv, i as int).0 == match dv {
                Some(x) => seq![x] + rest.0,
                None => rest.0,
            });
            assert(decls_from(tv, i as int).1 == (e || rest.1));
        }
        let ghost raw_before = raw@;
        let ghost done_before = done;
        match d {
            Some(Declaration::Symbol(sym)) => {
                raw.push(sym);
                proof {
                    done = done.push(symbol_decl(sym));
                    assert(done.drop_last() =~= done_before);
                    assert(symbol_decls(raw@) =~= symbol_decls(raw_before).push(symbol_decl(sym)));
                    assert(decls_from(tv, 0).0 =~= done + rest.0);
                }
            },
            Some(Declaration::SeqType(name, fields)) => {
                let ghost nv = name@;
                let ghost fval = fields;
                let ghost fv = string_views(fields@);
                let ghost before = assoc_map(sequence_types@);
                let ghost before_view = seq_types_view(sequence_types@);
                assoc_upsert(sequence_types, name, fields);
                proof {
                    done = done.push(Decl::SeqType(nv, fv));
                    assert(done.drop_last() =~= done_before);
                    assert(assoc_map(sequence_types@) == before.insert(nv, fval));
                    assert(seq_types_view(sequence_types@) =~= before_view.insert(nv, fv));
                    assert(decls_from(tv, 0).0 =~= done + rest.0);
                }
            },
            None => {},
        }
        err = err || e;
        i = next;
    }
    assert(decls_from(tv, i as int).0 =~= Seq::<Decl>::empty());
    assert(done + Seq::<Decl>::empty() =~= done);
    err
}

} // verus!
