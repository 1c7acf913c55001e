//! Rewriting the managed region of a package's link file.
//!
//! A link file consists of an unmanaged prefix, a managed region bounded by
//! two sentinel marker lines, and an unmanaged suffix.  Applying a list of
//! exported types fully replaces the managed region with one forwarding
//! declaration line per type, in the given order.  The region anchors at the
//! last begin-marker line that has an end marker after it, so a stray marker
//! line in the unmanaged text can never capture the emitted region and the
//! mutation is stable on every content.  When no usable marker pair exists,
//! a fresh managed region is inserted right after the line that establishes
//! the package's module identity (the first line holding a require
//! expression), or at the end of the file if there is none.  Duplicate
//! exported type names are a hard error and nothing is produced.

use vstd::prelude::*;
use crate::bytes::{find_from, lemma_find_from, contains_byte, match_at, is_ident_byte,
    ident_byte, bytes_match_at, sub_vec, push_all, bytes_eq};
use crate::lines::{NL, spec_lines, join, line_free, all_line_free, lemma_split_props,
    lemma_lines_of_join, split_lines_vec, join_lines_vec};

verus! {

// ---------------------------------------------------------------------------
// Sentinel markers and declaration shape
// ---------------------------------------------------------------------------

/// The line that opens the managed region: `--<types>`.
pub open spec fn begin_marker() -> Seq<u8> {
    seq![45u8, 45u8, 60u8, 116u8, 121u8, 112u8, 101u8, 115u8, 62u8]
}

/// The line that closes the managed region: `--</types>`.
pub open spec fn end_marker() -> Seq<u8> {
    seq![45u8, 45u8, 60u8, 47u8, 116u8, 121u8, 112u8, 101u8, 115u8, 62u8]
}

/// Leading keyword of a forwarding declaration line: `export type `.
pub open spec fn decl_prefix() -> Seq<u8> {
    seq![101u8, 120u8, 112u8, 111u8, 114u8, 116u8, 32u8, 116u8, 121u8, 112u8, 101u8, 32u8]
}

/// Separator between declared name and type expression: ` = `.
pub open spec fn decl_mid() -> Seq<u8> {
    seq![32u8, 61u8, 32u8]
}

/// The keyword that identifies a module-identity line: `require(`.
pub open spec fn require_kw() -> Seq<u8> {
    seq![114u8, 101u8, 113u8, 117u8, 105u8, 114u8, 101u8, 40u8]
}

pub fn begin_marker_vec() -> (r: Vec<u8>)
    ensures
        r@ == begin_marker(),
{
    let mut v: Vec<u8> = Vec::new();
    v.push(45u8); v.push(45u8); v.push(60u8); v.push(116u8); v.push(121u8);
    v.push(112u8); v.push(101u8); v.push(115u8); v.push(62u8);
    assert(v@ =~= begin_marker());
    v
}

pub fn end_marker_vec() -> (r: Vec<u8>)
    ensures
        r@ == end_marker(),
{
    let mut v: Vec<u8> = Vec::new();
    v.push(45u8); v.push(45u8); v.push(60u8); v.push(47u8); v.push(116u8);
    v.push(121u8); v.push(112u8); v.push(101u8); v.push(115u8); v.push(62u8);
    assert(v@ =~= end_marker());
    v
}

pub fn require_kw_vec() -> (r: Vec<u8>)
    ensures
        r@ == require_kw(),
{
    let mut v: Vec<u8> = Vec::new();
    v.push(114u8); v.push(101u8); v.push(113u8); v.push(117u8); v.push(105u8);
    v.push(114u8); v.push(101u8); v.push(40u8);
    assert(v@ =~= require_kw());
    v
}

fn decl_prefix_vec() -> (r: Vec<u8>)
    ensures
        r@ == decl_prefix(),
{
    let mut v: Vec<u8> = Vec::new();
    v.push(101u8); v.push(120u8); v.push(112u8); v.push(111u8); v.push(114u8);
    v.push(116u8); v.push(32u8); v.push(116u8); v.push(121u8); v.push(112u8);
    v.push(101u8); v.push(32u8);
    assert(v@ =~= decl_prefix());
    v
}

fn decl_mid_vec() -> (r: Vec<u8>)
    ensures
        r@ == decl_mid(),
{
    let mut v: Vec<u8> = Vec::new();
    v.push(32u8); v.push(61u8); v.push(32u8);
    assert(v@ =~= decl_mid());
    v
}

pub proof fn lemma_markers_line_free()
    ensures
        line_free(begin_marker()),
        line_free(end_marker()),
        line_free(decl_prefix()),
        line_free(decl_mid()),
{
    assert(line_free(begin_marker())) by {
        lemma_find_from(begin_marker(), 0, NL);
        if contains_byte(begin_marker(), NL) {
            let p = find_from(begin_marker(), 0, NL);
            assert(begin_marker()[p] == NL);
        }
    }
    assert(line_free(end_marker())) by {
        lemma_find_from(end_marker(), 0, NL);
        if contains_byte(end_marker(), NL) {
            let p = find_from(end_marker(), 0, NL);
            assert(end_marker()[p] == NL);
        }
    }
    assert(line_free(decl_prefix())) by {
        lemma_find_from(decl_prefix(), 0, NL);
        if contains_byte(decl_prefix(), NL) {
            let p = find_from(decl_prefix(), 0, NL);
            assert(decl_prefix()[p] == NL);
        }
    }
    assert(line_free(decl_mid())) by {
        lemma_find_from(decl_mid(), 0, NL);
        if contains_byte(decl_mid(), NL) {
            let p = find_from(decl_mid(), 0, NL);
            assert(decl_mid()[p] == NL);
        }
    }
}

/// Concatenation of newline-free byte strings is newline free.
pub proof fn lemma_line_free_concat(a: Seq<u8>, b: Seq<u8>)
    requires
        line_free(a),
        line_free(b),
    ensures
        line_free(a + b),
{
    lemma_find_from(a, 0, NL);
    lemma_find_from(b, 0, NL);
    lemma_find_from(a + b, 0, NL);
    if contains_byte(a + b, NL) {
        let p = find_from(a + b, 0, NL);
        assert((a + b)[p] == NL);
        if p < a.len() {
            assert(a[p] == NL);
        } else {
            assert(b[p - a.len()] == NL);
        }
    }
}

// ---------------------------------------------------------------------------
// Exported types
// ---------------------------------------------------------------------------

/// Mathematical image of one exported type declaration.
pub ghost struct ExportedTypeV {
    pub name: Seq<u8>,
    pub expr: Seq<u8>,
    pub source: Seq<u8>,
}

/// One type declaration found in a resolved module: its name, the raw type
/// expression text, and the module it came from (for diagnostics).
#[derive(Debug)]
pub struct ExportedType {
    pub name: Vec<u8>,
    pub expr: Vec<u8>,
    pub source: Vec<u8>,
}

impl View for ExportedType {
    type V = ExportedTypeV;

    open spec fn view(&self) -> ExportedTypeV {
        ExportedTypeV { name: self.name@, expr: self.expr@, source: self.source@ }
    }
}

impl DeepView for ExportedType {
    type V = ExportedTypeV;

    open spec fn deep_view(&self) -> ExportedTypeV {
        self.view()
    }
}

/// Names and expressions are single-line tokens taken from source text.
pub open spec fn exports_wf(ets: Seq<ExportedTypeV>) -> bool {
    forall|k: int| 0 <= k < ets.len()
        ==> line_free(#[trigger] ets[k].name) && line_free(ets[k].expr)
}

/// The forwarding declaration line emitted for one exported type.
pub open spec fn decl_line_of(t: ExportedTypeV) -> Seq<u8> {
    decl_prefix() + t.name + decl_mid() + t.expr
}

pub open spec fn decl_lines_of(ets: Seq<ExportedTypeV>) -> Seq<Seq<u8>> {
    ets.map_values(|t: ExportedTypeV| decl_line_of(t))
}

fn decl_line_vec(t: &ExportedType) -> (r: Vec<u8>)
    ensures
        r@ == decl_line_of(t@),
{
    let mut v = decl_prefix_vec();
    push_all(&mut v, &t.name);
    push_all(&mut v, &decl_mid_vec());
    push_all(&mut v, &t.expr);
    assert(v@ =~= decl_line_of(t@));
    v
}

// ---------------------------------------------------------------------------
// Locating the managed region
// ---------------------------------------------------------------------------

/// Index of the first line at `i` or later equal to `t`, else `ls.len()`.
pub open spec fn find_line(ls: Seq<Seq<u8>>, t: Seq<u8>, i: int) -> int
    decreases ls.len() - i,
{
    if i < 0 || i >= ls.len() {
        ls.len() as int
    } else if ls[i] == t {
        i
    } else {
        find_line(ls, t, i + 1)
    }
}

pub proof fn lemma_find_line(ls: Seq<Seq<u8>>, t: Seq<u8>, i: int)
    requires
        0 <= i <= ls.len(),
    ensures
        i <= find_line(ls, t, i) <= ls.len(),
        find_line(ls, t, i) < ls.len() ==> ls[find_line(ls, t, i)] == t,
        forall|j: int| i <= j < find_line(ls, t, i) ==> ls[j] != t,
    decreases ls.len() - i,
{
    if i < ls.len() && ls[i] != t {
        lemma_find_line(ls, t, i + 1);
    }
}

/// Characterization: if `p` is the first position at `i` or later whose line
/// equals `t`, then `find_line` returns `p`.
pub proof fn lemma_find_line_is(ls: Seq<Seq<u8>>, t: Seq<u8>, i: int, p: int)
    requires
        0 <= i <= p < ls.len(),
        ls[p] == t,
        forall|j: int| i <= j < p ==> ls[j] != t,
    ensures
        find_line(ls, t, i) == p,
{
    lemma_find_line(ls, t, i);
    let r = find_line(ls, t, i);
    if r < p {
        assert(ls[r] != t);
    }
    if r > p {
        assert(ls[p] != t);
    }
}

/// `require(` occurs in `l` at position `i`, opening a require expression:
/// the byte before it, where there is one, is not an identifier byte, so an
/// occurrence inside a longer identifier does not count.
pub open spec fn kw_at(l: Seq<u8>, i: int) -> bool {
    match_at(l, i, require_kw()) && (i == 0 || !is_ident_byte(l[i - 1]))
}

/// Position of the first require keyword at `i` or later, else `l.len()`.
pub open spec fn find_kw_from(l: Seq<u8>, i: int) -> int
    decreases l.len() - i,
{
    if i < 0 || i >= l.len() {
        l.len() as int
    } else if kw_at(l, i) {
        i
    } else {
        find_kw_from(l, i + 1)
    }
}

/// A module-identity line: one that holds a require expression.
pub open spec fn req_line(l: Seq<u8>) -> bool {
    find_kw_from(l, 0) < l.len()
}

/// Index of the first module-identity line at `i` or later, else `ls.len()`.
pub open spec fn find_req_line(ls: Seq<Seq<u8>>, i: int) -> int
    decreases ls.len() - i,
{
    if i < 0 || i >= ls.len() {
        ls.len() as int
    } else if req_line(ls[i]) {
        i
    } else {
        find_req_line(ls, i + 1)
    }
}

pub proof fn lemma_find_req_line(ls: Seq<Seq<u8>>, i: int)
    requires
        0 <= i <= ls.len(),
    ensures
        i <= find_req_line(ls, i) <= ls.len(),
    decreases ls.len() - i,
{
    if i < ls.len() && !req_line(ls[i]) {
        lemma_find_req_line(ls, i + 1);
    }
}

/// Line `i` opens a usable managed region: a begin marker with an end
/// marker somewhere after it.
pub open spec fn eligible_begin(ls: Seq<Seq<u8>>, i: int) -> bool {
    0 <= i < ls.len() && ls[i] == begin_marker()
    && find_line(ls, end_marker(), i + 1) < ls.len()
}

/// The last line at `i` or before that opens a usable managed region, else
/// -1.  Anchoring at the last such line keeps the mutation stable: a stray
/// begin marker earlier in the file can never capture the emitted region.
pub open spec fn last_begin_from(ls: Seq<Seq<u8>>, i: int) -> int
    decreases i + 1,
{
    if i < 0 {
        -1
    } else if eligible_begin(ls, i) {
        i
    } else {
        last_begin_from(ls, i - 1)
    }
}

/// The line opening the managed region, else -1.
pub open spec fn begin_at(ls: Seq<Seq<u8>>) -> int {
    last_begin_from(ls, ls.len() - 1)
}

/// The line list holds a begin marker with an end marker somewhere after it.
pub open spec fn has_marker_pair(ls: Seq<Seq<u8>>) -> bool {
    begin_at(ls) >= 0
}

pub proof fn lemma_last_begin_from(ls: Seq<Seq<u8>>, i: int)
    requires
        -1 <= i < ls.len(),
    ensures
        -1 <= last_begin_from(ls, i) <= i,
        last_begin_from(ls, i) >= 0 ==> eligible_begin(ls, last_begin_from(ls, i)),
        forall|j: int| last_begin_from(ls, i) < j <= i ==> !eligible_begin(ls, j),
    decreases i + 1,
{
    if i >= 0 && !eligible_begin(ls, i) {
        lemma_last_begin_from(ls, i - 1);
    }
}

/// Characterization: if `p` opens a usable region and no later line does,
/// the region anchors at `p`.
pub proof fn lemma_begin_at_is(ls: Seq<Seq<u8>>, p: int)
    requires
        eligible_begin(ls, p),
        forall|j: int| p < j < ls.len() ==> !eligible_begin(ls, j),
    ensures
        begin_at(ls) == p,
{
    lemma_last_begin_from(ls, ls.len() - 1);
    let r = begin_at(ls);
    if r < p {
        assert(!eligible_begin(ls, p));
    }
    if r > p {
        assert(!eligible_begin(ls, r));
    }
}

/// Number of leading lines that belong to the unmanaged prefix.
pub open spec fn prefix_len(ls: Seq<Seq<u8>>) -> int {
    if has_marker_pair(ls) {
        begin_at(ls)
    } else if find_req_line(ls, 0) < ls.len() {
        find_req_line(ls, 0) + 1
    } else {
        ls.len() as int
    }
}

/// Index of the first line that belongs to the unmanaged suffix.
pub open spec fn suffix_start(ls: Seq<Seq<u8>>) -> int {
    if has_marker_pair(ls) {
        find_line(ls, end_marker(), begin_at(ls) + 1) + 1
    } else {
        prefix_len(ls)
    }
}

pub proof fn lemma_split_point_bounds(ls: Seq<Seq<u8>>)
    ensures
        0 <= prefix_len(ls) <= suffix_start(ls) <= ls.len(),
{
    lemma_last_begin_from(ls, ls.len() - 1);
    let b = begin_at(ls);
    if b >= 0 {
        lemma_find_line(ls, end_marker(), b + 1);
    }
    lemma_find_req_line(ls, 0);
}

/// The unmanaged prefix lines of a link file's content.
pub open spec fn unmanaged_prefix(c: Seq<u8>) -> Seq<Seq<u8>> {
    spec_lines(c).subrange(0, prefix_len(spec_lines(c)))
}

/// The unmanaged suffix lines of a link file's content.
pub open spec fn unmanaged_suffix(c: Seq<u8>) -> Seq<Seq<u8>> {
    spec_lines(c).subrange(suffix_start(spec_lines(c)), spec_lines(c).len() as int)
}

/// The full line list after mutation: unmanaged prefix, begin marker, one
/// declaration line per export in order, end marker, unmanaged suffix.
pub open spec fn new_lines(ls: Seq<Seq<u8>>, ets: Seq<ExportedTypeV>) -> Seq<Seq<u8>> {
    ls.subrange(0, prefix_len(ls))
    + seq![begin_marker()]
    + decl_lines_of(ets)
    + seq![end_marker()]
    + ls.subrange(suffix_start(ls), ls.len() as int)
}

/// The content produced by applying `ets` to link file content `c`.
pub open spec fn spec_apply(c: Seq<u8>, ets: Seq<ExportedTypeV>) -> Seq<u8> {
    join(new_lines(spec_lines(c), ets))
}

// ---------------------------------------------------------------------------
// Duplicate detection
// ---------------------------------------------------------------------------

pub open spec fn dup_at(ets: Seq<ExportedTypeV>, i: int, j: int) -> bool {
    0 <= i < j < ets.len() && ets[i].name == ets[j].name
}

/// Two exported types collide on their name.
pub open spec fn has_dup(ets: Seq<ExportedTypeV>) -> bool {
    exists|i: int, j: int| dup_at(ets, i, j)
}

/// `(i, j)` is the first collision: `j` is the least second index, and `i`
/// the least earlier index carrying the same name.
pub open spec fn first_dup(ets: Seq<ExportedTypeV>, i: int, j: int) -> bool {
    dup_at(ets, i, j)
    && (forall|i2: int, j2: int| dup_at(ets, i2, j2) ==> j <= j2)
    && (forall|i2: int| 0 <= i2 < i ==> ets[i2].name != ets[j].name)
}

fn find_duplicate(exports: &Vec<ExportedType>) -> (r: Option<(usize, usize)>)
    ensures
        r matches Some(p) ==> first_dup(exports.deep_view(), p.0 as int, p.1 as int),
        r is None ==> !has_dup(exports.deep_view()),
{
    let ghost ets = exports.deep_view();
    let mut j: usize = 0;
    while j < exports.len()
        invariant
            j <= exports.len(),
            ets == exports.deep_view(),
            forall|i2: int, j2: int| 0 <= i2 < j2 < j ==> ets[i2].name != ets[j2].name,
        decreases exports.len() - j,
    {
        let mut i: usize = 0;
        while i < j
            invariant
                i <= j < exports.len(),
                ets == exports.deep_view(),
                forall|i2: int, j2: int| 0 <= i2 < j2 < j ==> ets[i2].name != ets[j2].name,
                forall|i2: int| 0 <= i2 < i ==> ets[i2].name != ets[j as int].name,
            decreases j - i,
        {
            if bytes_eq(&exports[i].name, &exports[j].name) {
                assert(ets[i as int].name == ets[j as int].name);
                assert(dup_at(ets, i as int, j as int));
                assert(forall|i2: int, j2: int| dup_at(ets, i2, j2) ==> j <= j2);
                return Some((i, j));
            }
            i = i + 1;
        }
        j = j + 1;
    }
    assert(!has_dup(ets)) by {
        if has_dup(ets) {
            let (i2, j2) = choose|i2: int, j2: int| dup_at(ets, i2, j2);
            assert(ets[i2].name != ets[j2].name);
        }
    }
    None
}

// ---------------------------------------------------------------------------
// Applying exports to content
// ---------------------------------------------------------------------------

/// The error raised when two exports collide within one link file: the
/// offending name and the modules both declarations came from.
#[derive(Debug)]
pub struct DuplicateExportedType {
    pub name: Vec<u8>,
    pub first_source: Vec<u8>,
    pub second_source: Vec<u8>,
}

/// Result of a successful mutation: the full new file content and whether it
/// differs from what is currently on disk (a write is owed only then).
#[derive(Debug)]
pub struct ApplyOutcome {
    pub content: Vec<u8>,
    pub changed: bool,
}

/// Rewrite the managed region of `current` to carry exactly `exports`, in
/// order.  Fails, producing nothing, when two exports share a name.
pub fn apply_content(current: &Vec<u8>, exports: &Vec<ExportedType>) -> (r: Result<
    ApplyOutcome,
    DuplicateExportedType,
>)
    ensures
        (r is Err) == has_dup(exports.deep_view()),
        (r matches Err(e) ==> exists|i: int, j: int|
            #[trigger] first_dup(exports.deep_view(), i, j)
            && e.name@ == exports.deep_view()[j].name
            && e.first_source@ == exports.deep_view()[i].source
            && e.second_source@ == exports.deep_view()[j].source),
        (r matches Ok(o) ==> o.content@ == spec_apply(current@, exports.deep_view())
            && o.changed == (o.content@ != current@)),
{
    let ghost ets = exports.deep_view();
    match find_duplicate(exports) {
        Some((i, j)) => {
            let name = sub_vec(&exports[j].name, 0, exports[j].name.len());
            let first_source = sub_vec(&exports[i].source, 0, exports[i].source.len());
            let second_source = sub_vec(&exports[j].source, 0, exports[j].source.len());
            assert(name@ =~= ets[j as int].name);
            assert(first_source@ =~= ets[i as int].source);
            assert(second_source@ =~= ets[j as int].source);
            return Err(DuplicateExportedType { name, first_source, second_source });
        },
        None => {},
    }
    let lines = split_lines_vec(current);
    let ghost lsv = lines.deep_view();
    let (p, q) = locate_managed_region(&lines);
    proof {
        lemma_split_point_bounds(lsv);
    }
    let mut out: Vec<Vec<u8>> = Vec::new();
    let mut i: usize = 0;
    while i < p
        invariant
            i <= p,
            p <= lines.len(),
            lsv == lines.deep_view(),
            out.deep_view() =~~= lsv.subrange(0, i as int),
        decreases p - i,
    {
        let ghost prev = out.deep_view();
        let line = sub_vec(&lines[i], 0, lines[i].len());
        out.push(line);
        assert(out.deep_view() =~~= prev.push(lsv[i as int])) by {
            assert(line@ =~= lines@[i as int]@);
            assert(lsv[i as int] =~= lines@[i as int]@);
        }
        assert(prev.push(lsv[i as int]) =~~= lsv.subrange(0, i + 1 as int));
        i = i + 1;
    }
    let ghost prev1 = out.deep_view();
    out.push(begin_marker_vec());
    assert(out.deep_view() =~~= prev1.push(begin_marker()));
    let mut k: usize = 0;
    while k < exports.len()
        invariant
            k <= exports.len(),
            p <= lines.len(),
            lsv == lines.deep_view(),
            ets == exports.deep_view(),
            out.deep_view() =~~= lsv.subrange(0, p as int) + seq![begin_marker()]
                + decl_lines_of(ets.subrange(0, k as int)),
        decreases exports.len() - k,
    {
        let ghost prev = out.deep_view();
        let dl = decl_line_vec(&exports[k]);
        out.push(dl);
        assert(out.deep_view() =~~= prev.push(decl_line_of(ets[k as int])));
        assert(decl_lines_of(ets.subrange(0, k + 1 as int))
            =~= decl_lines_of(ets.subrange(0, k as int)).push(decl_line_of(ets[k as int])));
        assert(out.deep_view() =~~= lsv.subrange(0, p as int) + seq![begin_marker()]
            + decl_lines_of(ets.subrange(0, k + 1 as int)));
        k = k + 1;
    }
    let ghost prev2 = out.deep_view();
    out.push(end_marker_vec());
    assert(out.deep_view() =~~= prev2.push(end_marker()));
    let mut m: usize = q;
    while m < lines.len()
        invariant
            q <= m <= lines.len(),
            p <= lines.len(),
            lsv == lines.deep_view(),
            ets == exports.deep_view(),
            out.deep_view() =~~= lsv.subrange(0, p as int) + seq![begin_marker()]
                + decl_lines_of(ets) + seq![end_marker()]
                + lsv.subrange(q as int, m as int),
        decreases lines.len() - m,
    {
        let ghost prev = out.deep_view();
        let line = sub_vec(&lines[m], 0, lines[m].len());
        out.push(line);
        assert(out.deep_view() =~~= prev.push(lsv[m as int])) by {
            assert(line@ =~= lines@[m as int]@);
            assert(lsv[m as int] =~= lines@[m as int]@);
        }
        assert(out.deep_view() =~~= lsv.subrange(0, p as int) + seq![begin_marker()]
            + decl_lines_of(ets) + seq![end_marker()]
            + lsv.subrange(q as int, m + 1 as int));
        m = m + 1;
    }
    proof {
        assert(ets.subrange(0, ets.len() as int) =~= ets);
        assert(out.deep_view() =~~= new_lines(lsv, ets));
    }
    let content = join_lines_vec(&out);
    let changed = !bytes_eq(&content, current);
    assert(content@ == spec_apply(current@, ets));
    Ok(ApplyOutcome { content, changed })
}

/// Find the managed region of `lines`: returns `(p, q)` where lines `[0, p)`
/// are the unmanaged prefix and lines `[q, len)` the unmanaged suffix.
fn locate_managed_region(lines: &Vec<Vec<u8>>) -> (r: (usize, usize))
    ensures
        r.0 as int == prefix_len(lines.deep_view()),
        r.1 as int == suffix_start(lines.deep_view()),
{
    let ghost lsv = lines.deep_view();
    let bm = begin_marker_vec();
    let em = end_marker_vec();
    let mut i: usize = lines.len();
    while i > 0
        invariant
            i <= lines.len(),
            lsv == lines.deep_view(),
            bm@ == begin_marker(),
            em@ == end_marker(),
            begin_at(lsv) == last_begin_from(lsv, i as int - 1),
        decreases i,
    {
        assert(lsv[i as int - 1] =~= lines@[i as int - 1]@);
        if bytes_eq(&lines[i - 1], &bm) {
            let e = find_line_vec(lines, &em, i);
            if e < lines.len() {
                proof {
                    lemma_find_line(lsv, end_marker(), i as int);
                    assert(eligible_begin(lsv, i as int - 1));
                    assert(begin_at(lsv) == i as int - 1);
                    assert(has_marker_pair(lsv));
                }
                return (i - 1, e + 1);
            }
            assert(!eligible_begin(lsv, i as int - 1));
        } else {
            assert(!eligible_begin(lsv, i as int - 1));
        }
        assert(last_begin_from(lsv, i as int - 1) == last_begin_from(lsv, i as int - 2));
        i = i - 1;
    }
    assert(begin_at(lsv) == -1);
    assert(!has_marker_pair(lsv));
    let rl = find_req_line_vec(lines, 0);
    if rl < lines.len() {
        (rl + 1, rl + 1)
    } else {
        proof {
            lemma_find_req_line(lsv, 0);
        }
        (lines.len(), lines.len())
    }
}

/// Exec search for a whole line equal to `t`.
fn find_line_vec(lines: &Vec<Vec<u8>>, t: &Vec<u8>, start: usize) -> (r: usize)
    requires
        start <= lines.len(),
    ensures
        r as int == find_line(lines.deep_view(), t@, start as int),
{
    let ghost lsv = lines.deep_view();
    let mut i: usize = start;
    while i < lines.len()
        invariant
            start <= i <= lines.len(),
            lsv == lines.deep_view(),
            find_line(lsv, t@, start as int) == find_line(lsv, t@, i as int),
        decreases lines.len() - i,
    {
        if bytes_eq(&lines[i], t) {
            assert(lsv[i as int] =~= lines@[i as int]@);
            return i;
        }
        assert(lsv[i as int] =~= lines@[i as int]@);
        assert(lsv[i as int] != t@);
        i = i + 1;
    }
    i
}

/// Exec test for a module-identity line.
fn line_has_require(l: &Vec<u8>) -> (r: bool)
    ensures
        r == req_line(l@),
{
    let kw = require_kw_vec();
    let mut i: usize = 0;
    while i < l.len()
        invariant
            i <= l.len(),
            kw@ == require_kw(),
            find_kw_from(l@, 0) == find_kw_from(l@, i as int),
        decreases l.len() - i,
    {
        let boundary = i == 0 || !ident_byte(l[i - 1]);
        if boundary && bytes_match_at(l, i, &kw) {
            assert(kw_at(l@, i as int));
            return true;
        }
        assert(!kw_at(l@, i as int));
        i = i + 1;
    }
    false
}

/// Exec search for the first module-identity line.
fn find_req_line_vec(lines: &Vec<Vec<u8>>, start: usize) -> (r: usize)
    requires
        start <= lines.len(),
    ensures
        r as int == find_req_line(lines.deep_view(), start as int),
{
    let ghost lsv = lines.deep_view();
    let mut i: usize = start;
    while i < lines.len()
        invariant
            start <= i <= lines.len(),
            lsv == lines.deep_view(),
            find_req_line(lsv, start as int) == find_req_line(lsv, i as int),
        decreases lines.len() - i,
    {
        assert(lsv[i as int] =~= lines@[i as int]@);
        if line_has_require(&lines[i]) {
            assert(req_line(lsv[i as int]));
            return i;
        }
        assert(!req_line(lsv[i as int]));
        i = i + 1;
    }
    i
}

// ---------------------------------------------------------------------------
// Laws: stability of the mutation
// ---------------------------------------------------------------------------

/// A declaration line is never a marker line (it starts with `e`, not `-`).
pub proof fn lemma_decl_not_marker(t: ExportedTypeV)
    ensures
        decl_line_of(t) != begin_marker(),
        decl_line_of(t) != end_marker(),
{
    assert(decl_line_of(t)[0] == 101u8);
    assert(begin_marker()[0] == 45u8);
    assert(end_marker()[0] == 45u8);
}

/// Every line of the mutated file is newline free.
pub proof fn lemma_new_lines_line_free(ls: Seq<Seq<u8>>, ets: Seq<ExportedTypeV>)
    requires
        all_line_free(ls),
        exports_wf(ets),
    ensures
        all_line_free(new_lines(ls, ets)),
        new_lines(ls, ets).len()
            == prefix_len(ls) + 1 + ets.len() + 1 + (ls.len() - suffix_start(ls)),
{
    lemma_markers_line_free();
    lemma_split_point_bounds(ls);
    let out = new_lines(ls, ets);
    let p = prefix_len(ls);
    let q = suffix_start(ls);
    assert forall|k: int| 0 <= k < out.len() implies line_free(#[trigger] out[k]) by {
        if k < p {
            assert(out[k] == ls[k]);
        } else if k == p {
            assert(out[k] == begin_marker());
        } else if k < p + 1 + ets.len() {
            let t = ets[k - (p + 1)];
            assert(out[k] == decl_line_of(t));
            lemma_line_free_concat(decl_prefix(), t.name);
            lemma_line_free_concat(decl_prefix() + t.name, decl_mid());
            lemma_line_free_concat(decl_prefix() + t.name + decl_mid(), t.expr);
        } else if k == p + 1 + ets.len() {
            assert(out[k] == end_marker());
        } else {
            assert(out[k] == ls[q + (k - (p + 1 + ets.len() + 1))]);
        }
    }
}

/// After a mutation the line structure of the result is exactly the new line
/// list, its managed region sits where the markers were emitted, and the
/// unmanaged prefix and suffix are byte-for-byte those of the input.
pub proof fn lemma_resplit(c: Seq<u8>, ets: Seq<ExportedTypeV>)
    requires
        exports_wf(ets),
    ensures
        spec_lines(spec_apply(c, ets)) == new_lines(spec_lines(c), ets),
        prefix_len(spec_lines(spec_apply(c, ets))) == prefix_len(spec_lines(c)),
        suffix_start(spec_lines(spec_apply(c, ets)))
            == prefix_len(spec_lines(c)) + ets.len() + 2,
        unmanaged_prefix(spec_apply(c, ets)) == unmanaged_prefix(c),
        unmanaged_suffix(spec_apply(c, ets)) == unmanaged_suffix(c),
{
    let ls = spec_lines(c);
    lemma_split_props(c, 0);
    lemma_split_point_bounds(ls);
    let p = prefix_len(ls);
    let q = suffix_start(ls);
    let n = ets.len() as int;
    let out = new_lines(ls, ets);
    lemma_new_lines_line_free(ls, ets);
    lemma_lines_of_join(out);
    let c2 = spec_apply(c, ets);
    assert(spec_lines(c2) == out);
    assert(out[p] == begin_marker());
    assert(out[p + 1 + n] == end_marker());
    assert(forall|j: int| p + 1 <= j < p + 1 + n ==> out[j] == decl_line_of(ets[j - (p + 1)]));
    assert(forall|j: int| p + n + 2 <= j < out.len()
        ==> out[j] == #[trigger] ls.subrange(q, ls.len() as int)[j - (p + n + 2)]);
    // The first end marker after the emitted begin is the emitted one.
    assert(forall|j: int| p + 1 <= j < p + 1 + n ==> out[j] != end_marker()) by {
        assert forall|j: int| p + 1 <= j < p + 1 + n
            implies #[trigger] out[j] != end_marker() by {
            lemma_decl_not_marker(ets[j - (p + 1)]);
        }
    }
    lemma_find_line_is(out, end_marker(), p + 1, p + 1 + n);
    assert(eligible_begin(out, p));
    // No line at or after the unmanaged suffix of the input opens a usable
    // region there: the chosen anchor was the last one.
    assert(forall|j: int| q <= j < ls.len() ==> !eligible_begin(ls, j)) by {
        lemma_last_begin_from(ls, ls.len() - 1);
        if has_marker_pair(ls) {
            lemma_find_line(ls, end_marker(), begin_at(ls) + 1);
            assert(q > begin_at(ls));
        } else {
            assert(begin_at(ls) == -1);
        }
    }
    // So no line after the emitted begin opens a usable region in the result.
    assert forall|j: int| p < j < out.len() implies !eligible_begin(out, j) by {
        if j < p + 1 + n {
            lemma_decl_not_marker(ets[j - (p + 1)]);
            assert(out[j] != begin_marker());
        } else if j == p + 1 + n {
            assert(begin_marker().len() != end_marker().len());
            assert(out[j] != begin_marker());
        } else {
            let t = j - (p + n + 2);
            assert(out[j] == ls[q + t]);
            if out[j] == begin_marker() {
                lemma_find_line(out, end_marker(), j + 1);
                let m = find_line(out, end_marker(), j + 1);
                if m < out.len() {
                    let t2 = m - (p + n + 2);
                    assert(out[m] == ls[q + t2]);
                    assert(ls[q + t2] == end_marker());
                    assert(eligible_begin(ls, q + t)) by {
                        lemma_find_line(ls, end_marker(), q + t + 1);
                        if find_line(ls, end_marker(), q + t + 1) >= ls.len() {
                            assert(ls[q + t2] != end_marker());
                        }
                    }
                }
            }
        }
    }
    lemma_begin_at_is(out, p);
    assert(has_marker_pair(out));
    assert(prefix_len(out) == p);
    assert(suffix_start(out) == p + n + 2);
    assert(unmanaged_prefix(c2) =~= unmanaged_prefix(c)) by {
        assert(forall|j: int| 0 <= j < p ==> out[j] == ls[j]);
    }
    assert(unmanaged_suffix(c2) =~= unmanaged_suffix(c)) by {
        assert(unmanaged_suffix(c2) =~= out.subrange(p + n + 2, out.len() as int));
    }
}

/// Idempotence: applying the same exports to an already-mutated file yields
/// byte-identical content, so a second run performs zero writes.
pub proof fn lemma_apply_idempotent(c: Seq<u8>, ets: Seq<ExportedTypeV>)
    requires
        exports_wf(ets),
    ensures
        spec_apply(spec_apply(c, ets), ets) == spec_apply(c, ets),
{
    let ls = spec_lines(c);
    lemma_split_point_bounds(ls);
    lemma_resplit(c, ets);
    let c2 = spec_apply(c, ets);
    let ls2 = spec_lines(c2);
    let p = prefix_len(ls);
    let q = suffix_start(ls);
    let n = ets.len() as int;
    assert(ls2.subrange(0, p) =~= ls.subrange(0, p)) by {
        assert(forall|j: int| 0 <= j < p ==> ls2[j] == ls[j]);
    }
    assert(ls2.subrange(p + n + 2, ls2.len() as int)
        =~= ls.subrange(q, ls.len() as int)) by {
        assert(forall|j: int| 0 <= j < ls.len() - q
            ==> ls2[p + n + 2 + j] == #[trigger] ls.subrange(q, ls.len() as int)[j]);
    }
    assert(new_lines(ls2, ets) =~= new_lines(ls, ets));
}

/// Order preservation: the managed region lists one forwarding declaration
/// per exported type, in exactly the order the exports were produced.
pub proof fn lemma_apply_order(c: Seq<u8>, ets: Seq<ExportedTypeV>)
    requires
        exports_wf(ets),
    ensures
        forall|k: int| 0 <= k < ets.len()
            ==> spec_lines(spec_apply(c, ets))[prefix_len(spec_lines(c)) + 1 + k]
                == decl_line_of(#[trigger] ets[k]),
{
    lemma_split_point_bounds(spec_lines(c));
    lemma_resplit(c, ets);
}

/// The first collision is unique.
pub proof fn lemma_first_dup_unique(ets: Seq<ExportedTypeV>, i1: int, j1: int, i2: int, j2: int)
    requires
        first_dup(ets, i1, j1),
        first_dup(ets, i2, j2),
    ensures
        i1 == i2,
        j1 == j2,
{
    assert(j1 <= j2 && j2 <= j1);
    if i1 < i2 {
        assert(ets[i1].name != ets[j2].name);
    }
    if i2 < i1 {
        assert(ets[i2].name != ets[j1].name);
    }
}

/// Content preservation: mutation leaves the unmanaged prefix and suffix of
/// a link file byte-for-byte as they were.
pub proof fn lemma_apply_preserves_unmanaged(c: Seq<u8>, ets: Seq<ExportedTypeV>)
    requires
        exports_wf(ets),
    ensures
        unmanaged_prefix(spec_apply(c, ets)) == unmanaged_prefix(c),
        unmanaged_suffix(spec_apply(c, ets)) == unmanaged_suffix(c),
{
    lemma_resplit(c, ets);
}

} // verus!
