//! Locating require expressions in source text and extracting exported type
//! declarations from module text.
//!
//! The scanner finds each `require(` occurrence that opens a require
//! expression (one not preceded by an identifier byte, so a longer
//! identifier that merely ends in the keyword does not count) and captures
//! its whole argument expression, tolerating nested parentheses, single- and
//! double-quoted string literals (with backslash escapes) and `--` line
//! comments inside the argument, so it never mis-splits on characters that
//! only look like expression boundaries.  An argument that never closes is
//! dropped along with the rest of the text.

use vstd::prelude::*;
use crate::bytes::{match_at, bytes_match_at, sub_vec, trim, trim_vec, is_ident, is_ident_vec,
    is_ident_byte, ident_byte, contains_byte, split_on, find_from, lemma_find_from};
use crate::lines::{NL, spec_lines, line_free, lemma_split_props, split_lines_vec};
use crate::link_mutator::{require_kw, require_kw_vec, decl_prefix, ExportedType, ExportedTypeV,
    exports_wf};

verus! {

// ---------------------------------------------------------------------------
// Scanning require arguments
// ---------------------------------------------------------------------------

/// Scanner state while walking a require argument.
#[derive(Clone, Copy)]
pub enum ScanSt {
    /// Plain expression code.
    Code,
    /// Just saw one `-` in code (maybe the start of a comment).
    Dash,
    /// Inside a string literal opened by the held quote byte.
    Str(u8),
    /// Inside a string literal, right after a backslash.
    StrEsc(u8),
    /// Inside a `--` line comment.
    Comment,
}

/// State change for one byte read in code position.
pub open spec fn code_step(depth: int, c: u8) -> (ScanSt, int) {
    if c == 40 {
        (ScanSt::Code, depth + 1)
    } else if c == 41 {
        (ScanSt::Code, depth - 1)
    } else if c == 34 || c == 39 {
        (ScanSt::Str(c), depth)
    } else if c == 45 {
        (ScanSt::Dash, depth)
    } else {
        (ScanSt::Code, depth)
    }
}

/// State change for one byte read in any state.
pub open spec fn scan_step(st: ScanSt, depth: int, c: u8) -> (ScanSt, int) {
    match st {
        ScanSt::Code => code_step(depth, c),
        ScanSt::Dash => if c == 45 {
            (ScanSt::Comment, depth)
        } else {
            code_step(depth, c)
        },
        ScanSt::Str(q) => if c == 92 {
            (ScanSt::StrEsc(q), depth)
        } else if c == q {
            (ScanSt::Code, depth)
        } else {
            (ScanSt::Str(q), depth)
        },
        ScanSt::StrEsc(q) => (ScanSt::Str(q), depth),
        ScanSt::Comment => if c == NL {
            (ScanSt::Code, depth)
        } else {
            (ScanSt::Comment, depth)
        },
    }
}

/// The argument ends on a closing parenthesis read in code position at
/// nesting depth one.
pub open spec fn arg_terminates(st: ScanSt, depth: int, c: u8) -> bool {
    depth == 1 && c == 41 && (st is Code || st is Dash)
}

/// Position of the closing parenthesis of an argument starting at `i` with
/// scanner state `st` and depth `depth`, or `None` if it never closes.
pub open spec fn arg_end(s: Seq<u8>, i: int, st: ScanSt, depth: int) -> Option<int>
    decreases s.len() - i,
{
    if i < 0 || i >= s.len() {
        None
    } else if arg_terminates(st, depth, s[i]) {
        Some(i)
    } else {
        let (st2, d2) = scan_step(st, depth, s[i]);
        arg_end(s, i + 1, st2, d2)
    }
}

pub proof fn lemma_arg_end(s: Seq<u8>, i: int, st: ScanSt, depth: int)
    requires
        0 <= i <= s.len(),
    ensures
        arg_end(s, i, st, depth) matches Some(e) ==> i <= e < s.len(),
    decreases s.len() - i,
{
    if i < s.len() && !arg_terminates(st, depth, s[i]) {
        let (st2, d2) = scan_step(st, depth, s[i]);
        lemma_arg_end(s, i + 1, st2, d2);
    }
}

/// All require argument spans `(start, end)` of `s`, scanning from `i`.
pub open spec fn scan_requires(s: Seq<u8>, i: int) -> Seq<(int, int)>
    decreases s.len() - i,
        when 0 <= i
        via scan_requires_decreases
{
    if i + 8 > s.len() {
        Seq::empty()
    } else if match_at(s, i, require_kw()) && (i == 0 || !is_ident_byte(s[i - 1])) {
        match arg_end(s, i + 8, ScanSt::Code, 1) {
            Some(e) => seq![(i + 8, e)] + scan_requires(s, e + 1),
            None => Seq::empty(),
        }
    } else {
        scan_requires(s, i + 1)
    }
}

#[via_fn]
proof fn scan_requires_decreases(s: Seq<u8>, i: int) {
    if i + 8 <= s.len() {
        lemma_arg_end(s, i + 8, ScanSt::Code, 1);
    }
}

/// The argument texts of all require expressions in `s`, in source order.
pub open spec fn require_args(s: Seq<u8>) -> Seq<Seq<u8>> {
    scan_requires(s, 0).map_values(|p: (int, int)| s.subrange(p.0, p.1))
}

/// Exec scan step.
fn exec_scan_step(st: ScanSt, depth: usize, c: u8) -> (r: (ScanSt, usize))
    requires
        1 <= depth < usize::MAX,
        !arg_terminates(st, depth as int, c),
    ensures
        scan_step(st, depth as int, c) == (r.0, r.1 as int),
        1 <= r.1 <= depth + 1,
{
    match st {
        ScanSt::Code => {
            if c == 40 {
                (ScanSt::Code, depth + 1)
            } else if c == 41 {
                (ScanSt::Code, depth - 1)
            } else if c == 34 || c == 39 {
                (ScanSt::Str(c), depth)
            } else if c == 45 {
                (ScanSt::Dash, depth)
            } else {
                (ScanSt::Code, depth)
            }
        },
        ScanSt::Dash => {
            if c == 45 {
                (ScanSt::Comment, depth)
            } else if c == 40 {
                (ScanSt::Code, depth + 1)
            } else if c == 41 {
                (ScanSt::Code, depth - 1)
            } else if c == 34 || c == 39 {
                (ScanSt::Str(c), depth)
            } else {
                (ScanSt::Code, depth)
            }
        },
        ScanSt::Str(q) => {
            if c == 92 {
                (ScanSt::StrEsc(q), depth)
            } else if c == q {
                (ScanSt::Code, depth)
            } else {
                (ScanSt::Str(q), depth)
            }
        },
        ScanSt::StrEsc(q) => (ScanSt::Str(q), depth),
        ScanSt::Comment => {
            if c == NL {
                (ScanSt::Code, depth)
            } else {
                (ScanSt::Comment, depth)
            }
        },
    }
}

/// Exec search for the closing parenthesis of the argument starting at
/// `start` (depth one, code state).
fn exec_arg_end(text: &Vec<u8>, start: usize) -> (r: Option<usize>)
    requires
        1 <= start <= text.len(),
    ensures
        (r is Some) == (arg_end(text@, start as int, ScanSt::Code, 1) is Some),
        r matches Some(e) ==> arg_end(text@, start as int, ScanSt::Code, 1) == Some(e as int)
            && start <= e < text.len(),
{
    let mut i: usize = start;
    let mut st = ScanSt::Code;
    let mut depth: usize = 1;
    while i < text.len()
        invariant
            start <= i <= text.len(),
            1 <= depth,
            depth <= i,
            arg_end(text@, start as int, ScanSt::Code, 1)
                == arg_end(text@, i as int, st, depth as int),
        decreases text.len() - i,
    {
        let c = text[i];
        let code_pos = match st {
            ScanSt::Code => true,
            ScanSt::Dash => true,
            _ => false,
        };
        if depth == 1 && c == 41 && code_pos {
            proof {
                lemma_arg_end(text@, start as int, ScanSt::Code, 1);
            }
            return Some(i);
        }
        assert(!arg_terminates(st, depth as int, c));
        assert(depth < usize::MAX) by {
            assert(depth <= i);
            assert(i < text.len());
            assert(text.len() <= usize::MAX);
        }
        let (st2, d2) = exec_scan_step(st, depth, c);
        st = st2;
        depth = d2;
        i = i + 1;
    }
    None
}

/// Extract every require argument expression from `text`, in source order.
pub fn extract_require_args(text: &Vec<u8>) -> (r: Vec<Vec<u8>>)
    ensures
        r.deep_view() == require_args(text@),
{
    let ghost s = text@;
    let ghost spans0 = scan_requires(s, 0);
    let kw = require_kw_vec();
    let mut r: Vec<Vec<u8>> = Vec::new();
    let mut i: usize = 0;
    let ghost done = spans0.map_values(|p: (int, int)| s.subrange(p.0, p.1));
    loop
        invariant
            i <= text.len(),
            s == text@,
            kw@ == require_kw(),
            done == require_args(s),
            done =~~= r.deep_view()
                + scan_requires(s, i as int).map_values(|p: (int, int)| s.subrange(p.0, p.1)),
        decreases text.len() - i,
    {
        if text.len() < 8 || i > text.len() - 8 {
            assert(scan_requires(s, i as int) == Seq::<(int, int)>::empty());
            assert(r.deep_view() =~~= done);
            return r;
        }
        let boundary = i == 0 || !ident_byte(text[i - 1]);
        if boundary && bytes_match_at(text, i, &kw) {
            match exec_arg_end(text, i + 8) {
                Some(e) => {
                    let arg = sub_vec(text, i + 8, e);
                    let ghost prev = r.deep_view();
                    r.push(arg);
                    proof {
                        let rest = scan_requires(s, i as int);
                        assert(rest == seq![((i + 8) as int, e as int)] + scan_requires(s, e + 1 as int));
                        assert(r.deep_view() =~~= prev.push(s.subrange(i + 8, e as int)));
                        assert(rest.map_values(|p: (int, int)| s.subrange(p.0, p.1))
                            =~= seq![s.subrange(i + 8, e as int)]
                                + scan_requires(s, e + 1 as int).map_values(
                                    |p: (int, int)| s.subrange(p.0, p.1)));
                        assert(done =~~= r.deep_view()
                            + scan_requires(s, e + 1 as int).map_values(
                                |p: (int, int)| s.subrange(p.0, p.1)));
                    }
                    i = e + 1;
                },
                None => {
                    assert(scan_requires(s, i as int) == Seq::<(int, int)>::empty());
                    assert(r.deep_view() =~~= done);
                    return r;
                },
            }
        } else {
            assert(scan_requires(s, i as int) == scan_requires(s, i + 1 as int));
            i = i + 1;
        }
    }
}

// ---------------------------------------------------------------------------
// Reference shapes
// ---------------------------------------------------------------------------

/// The self token opening a relative reference chain: `script`.
pub open spec fn self_token() -> Seq<u8> {
    seq![115u8, 99u8, 114u8, 105u8, 112u8, 116u8]
}

/// The segment naming the enclosing node in a relative chain: `Parent`.
pub open spec fn parent_token() -> Seq<u8> {
    seq![80u8, 97u8, 114u8, 101u8, 110u8, 116u8]
}

pub fn self_token_vec() -> (r: Vec<u8>)
    ensures
        r@ == self_token(),
{
    let mut v: Vec<u8> = Vec::new();
    v.push(115u8); v.push(99u8); v.push(114u8); v.push(105u8); v.push(112u8);
    v.push(116u8);
    assert(v@ =~= self_token());
    v
}

pub fn parent_token_vec() -> (r: Vec<u8>)
    ensures
        r@ == parent_token(),
{
    let mut v: Vec<u8> = Vec::new();
    v.push(80u8); v.push(97u8); v.push(114u8); v.push(101u8); v.push(110u8);
    v.push(116u8);
    assert(v@ =~= parent_token());
    v
}

/// A call into an external service provider: the argument holds a method
/// call marker (`:`), which never occurs in a plain path chain.
pub open spec fn is_external_ref(t: Seq<u8>) -> bool {
    contains_byte(t, 58)
}

pub open spec fn all_idents(segs: Seq<Seq<u8>>) -> bool {
    forall|k: int| 0 <= k < segs.len() ==> is_ident(#[trigger] segs[k])
}

/// The dot-separated segments of a trimmed reference expression; each
/// segment is itself trimmed, so spacing around the dots is tolerated.
pub open spec fn ref_segments(t: Seq<u8>) -> Seq<Seq<u8>> {
    split_on(t, 46).map_values(|x: Seq<u8>| trim(x))
}

/// A relative chain: leading self token followed by `Parent` / child-name
/// segments.
pub open spec fn is_relative_ref(t: Seq<u8>) -> bool {
    !is_external_ref(t) && all_idents(ref_segments(t)) && ref_segments(t)[0] == self_token()
}

/// A dotted absolute path rooted at a top-level alias.
pub open spec fn is_absolute_ref(t: Seq<u8>) -> bool {
    !is_external_ref(t) && all_idents(ref_segments(t)) && ref_segments(t)[0] != self_token()
}

// ---------------------------------------------------------------------------
// Exported type declarations
// ---------------------------------------------------------------------------

/// Parse one line as an `export type <Name> = <expr>` declaration.  Yields
/// the declared name and the raw type expression, or nothing if the line is
/// not such a declaration.  The name must be a plain identifier: a generic
/// declaration (`export type Name<T> = ...`) is not forwarded, since its
/// parameter list would have to be carried along to stay well formed.
pub open spec fn parse_export_line(l: Seq<u8>) -> Option<(Seq<u8>, Seq<u8>)> {
    let t = trim(l);
    if t.len() < 12 || t.subrange(0, 12) != decl_prefix() {
        None
    } else {
        let rest = t.subrange(12, t.len() as int);
        let eq = find_from(rest, 0, 61);
        if eq >= rest.len() {
            None
        } else {
            let name = trim(rest.subrange(0, eq));
            let expr = trim(rest.subrange(eq + 1, rest.len() as int));
            if is_ident(name) && expr.len() > 0 {
                Some((name, expr))
            } else {
                None
            }
        }
    }
}

/// The exported types declared in lines `ls[k..]`, attributed to `src`.
pub open spec fn exports_in_lines(ls: Seq<Seq<u8>>, src: Seq<u8>, k: int) -> Seq<ExportedTypeV>
    decreases ls.len() - k,
{
    if k < 0 || k >= ls.len() {
        Seq::empty()
    } else {
        (match parse_export_line(ls[k]) {
            Some(p) => seq![ExportedTypeV { name: p.0, expr: p.1, source: src }],
            None => Seq::empty(),
        }) + exports_in_lines(ls, src, k + 1)
    }
}

/// All exported type declarations of a module's text, in declaration order,
/// attributed to source `src`.
pub open spec fn export_types_of(text: Seq<u8>, src: Seq<u8>) -> Seq<ExportedTypeV> {
    exports_in_lines(spec_lines(text), src, 0)
}

/// Exec parse of one line.
fn parse_export_line_vec(l: &Vec<u8>) -> (r: Option<(Vec<u8>, Vec<u8>)>)
    ensures
        (r is Some) == (parse_export_line(l@) is Some),
        r matches Some(p) ==> parse_export_line(l@) == Some((p.0@, p.1@)),
{
    let t = trim_vec(l);
    if t.len() < 12 {
        return None;
    }
    let head = sub_vec(&t, 0, 12);
    let mut pref: Vec<u8> = Vec::new();
    pref.push(101u8); pref.push(120u8); pref.push(112u8); pref.push(111u8);
    pref.push(114u8); pref.push(116u8); pref.push(32u8); pref.push(116u8);
    pref.push(121u8); pref.push(112u8); pref.push(101u8); pref.push(32u8);
    assert(pref@ =~= decl_prefix());
    if !crate::bytes::bytes_eq(&head, &pref) {
        return None;
    }
    let rest = sub_vec(&t, 12, t.len());
    let eq = crate::bytes::find_byte(&rest, 0, 61);
    if eq >= rest.len() {
        return None;
    }
    let name_raw = sub_vec(&rest, 0, eq);
    let name = trim_vec(&name_raw);
    let expr_raw = sub_vec(&rest, eq + 1, rest.len());
    let expr = trim_vec(&expr_raw);
    if is_ident_vec(&name) && expr.len() > 0 {
        Some((name, expr))
    } else {
        None
    }
}

/// Extract all exported type declarations from module text `text`, in source
/// order, attributed to `source`.
pub fn extract_export_types(text: &Vec<u8>, source: &Vec<u8>) -> (r: Vec<ExportedType>)
    ensures
        r.deep_view() == export_types_of(text@, source@),
{
    let lines = split_lines_vec(text);
    let ghost lsv = lines.deep_view();
    let mut r: Vec<ExportedType> = Vec::new();
    let mut k: usize = 0;
    while k < lines.len()
        invariant
            k <= lines.len(),
            lsv == lines.deep_view(),
            export_types_of(text@, source@)
                =~~= r.deep_view() + exports_in_lines(lsv, source@, k as int),
        decreases lines.len() - k,
    {
        assert(lsv[k as int] =~= lines@[k as int]@);
        match parse_export_line_vec(&lines[k]) {
            Some((name, expr)) => {
                let src = sub_vec(source, 0, source.len());
                let ghost prev = r.deep_view();
                let et = ExportedType { name, expr, source: src };
                assert(et@ == ExportedTypeV {
                    name: parse_export_line(lsv[k as int]).unwrap().0,
                    expr: parse_export_line(lsv[k as int]).unwrap().1,
                    source: source@,
                }) by {
                    assert(src@ =~= source@);
                }
                r.push(et);
                assert(r.deep_view() =~~= prev.push(et@));
            },
            None => {},
        }
        k = k + 1;
    }
    assert(r.deep_view() =~~= export_types_of(text@, source@));
    r
}

/// Extracted exports are single-line tokens: names and expressions carry no
/// newline, so feeding them to the link mutator keeps its line structure.
pub proof fn lemma_exports_line_free(text: Seq<u8>, src: Seq<u8>)
    ensures
        exports_wf(export_types_of(text, src)),
{
    lemma_split_props(text, 0);
    let ls = spec_lines(text);
    lemma_exports_in_lines_wf(ls, src, 0);
}

proof fn lemma_exports_in_lines_wf(ls: Seq<Seq<u8>>, src: Seq<u8>, k: int)
    requires
        crate::lines::all_line_free(ls),
    ensures
        exports_wf(exports_in_lines(ls, src, k)),
    decreases ls.len() - k,
{
    if 0 <= k < ls.len() {
        lemma_exports_in_lines_wf(ls, src, k + 1);
        if parse_export_line(ls[k]) is Some {
            lemma_parse_line_free(ls[k]);
        }
        let head: Seq<ExportedTypeV> = match parse_export_line(ls[k]) {
            Some(p) => seq![ExportedTypeV { name: p.0, expr: p.1, source: src }],
            None => Seq::empty(),
        };
        let all = head + exports_in_lines(ls, src, k + 1);
        assert forall|m: int| 0 <= m < all.len()
            implies line_free(#[trigger] all[m].name) && line_free(all[m].expr) by {
            if m >= head.len() {
                assert(all[m] == exports_in_lines(ls, src, k + 1)[m - head.len()]);
            }
        }
    }
}

/// Every byte string produced by `parse_export_line` on a newline-free line
/// is itself newline free: each is a trim of a subrange of that line.
proof fn lemma_parse_line_free(l: Seq<u8>)
    requires
        line_free(l),
        parse_export_line(l) is Some,
    ensures
        line_free(parse_export_line(l).unwrap().0),
        line_free(parse_export_line(l).unwrap().1),
{
    let t = trim(l);
    lemma_trim_sub_free(l, t);
    let rest = t.subrange(12, t.len() as int);
    lemma_sub_free(t, 12, t.len() as int);
    let eq = find_from(rest, 0, 61);
    lemma_find_from(rest, 0, 61);
    lemma_sub_free(rest, 0, eq);
    lemma_sub_free(rest, eq + 1, rest.len() as int);
    lemma_trim_sub_free(rest.subrange(0, eq), trim(rest.subrange(0, eq)));
    lemma_trim_sub_free(rest.subrange(eq + 1, rest.len() as int),
        trim(rest.subrange(eq + 1, rest.len() as int)));
}

/// A subrange of a newline-free byte string is newline free.
proof fn lemma_sub_free(s: Seq<u8>, a: int, b: int)
    requires
        line_free(s),
        0 <= a <= b <= s.len(),
    ensures
        line_free(s.subrange(a, b)),
{
    let sub = s.subrange(a, b);
    lemma_find_from(sub, 0, NL);
    lemma_find_from(s, 0, NL);
    if contains_byte(sub, NL) {
        let p = find_from(sub, 0, NL);
        assert(s[a + p] == NL);
    }
}

/// The trim of a newline-free byte string is newline free.
proof fn lemma_trim_sub_free(s: Seq<u8>, t: Seq<u8>)
    requires
        line_free(s),
        t == trim(s),
    ensures
        line_free(t),
{
    crate::bytes::lemma_skip_spaces(s, 0);
    crate::bytes::lemma_trim_end_at(s, s.len() as int);
    let a = crate::bytes::skip_spaces(s, 0);
    let b = crate::bytes::trim_end_at(s, s.len() as int);
    if a >= b {
        lemma_find_from(t, 0, NL);
    } else {
        lemma_sub_free(s, a, b);
    }
}

} // verus!
