//! Byte-string utilities shared by the pipeline: searching, slicing,
//! comparison and lexicographic order over `Vec<u8>` / `Seq<u8>`.

use vstd::prelude::*;

verus! {

/// Index of the first occurrence of `c` in `s` at position `i` or later,
/// or `s.len()` if there is none (or `i` is out of range).
pub open spec fn find_from(s: Seq<u8>, i: int, c: u8) -> int
    decreases s.len() - i,
{
    if i < 0 || i >= s.len() {
        s.len() as int
    } else if s[i] == c {
        i
    } else {
        find_from(s, i + 1, c)
    }
}

pub proof fn lemma_find_from(s: Seq<u8>, i: int, c: u8)
    requires
        0 <= i <= s.len(),
    ensures
        i <= find_from(s, i, c) <= s.len(),
        find_from(s, i, c) < s.len() ==> s[find_from(s, i, c)] == c,
        forall|j: int| i <= j < find_from(s, i, c) ==> s[j] != c,
    decreases s.len() - i,
{
    if i < s.len() && s[i] != c {
        lemma_find_from(s, i + 1, c);
    }
}

/// First occurrence of `c` in `v` at `start` or later, else `v.len()`.
pub fn find_byte(v: &Vec<u8>, start: usize, c: u8) -> (r: usize)
    requires
        start <= v.len(),
    ensures
        r as int == find_from(v@, start as int, c),
{
    let mut i: usize = start;
    while i < v.len()
        invariant
            start <= i <= v.len(),
            find_from(v@, start as int, c) == find_from(v@, i as int, c),
        decreases v.len() - i,
    {
        if v[i] == c {
            return i;
        }
        i = i + 1;
    }
    i
}

/// Byte-for-byte equality of two byte strings.
pub fn bytes_eq(a: &Vec<u8>, b: &Vec<u8>) -> (r: bool)
    ensures
        r == (a@ == b@),
{
    if a.len() != b.len() {
        assert(a@ != b@);
        return false;
    }
    let mut i: usize = 0;
    while i < a.len()
        invariant
            i <= a.len(),
            a.len() == b.len(),
            forall|j: int| 0 <= j < i ==> a@[j] == b@[j],
        decreases a.len() - i,
    {
        if a[i] != b[i] {
            return false;
        }
        i = i + 1;
    }
    assert(a@ =~= b@);
    true
}

/// Copy of `v[from..to]`.
pub fn sub_vec(v: &Vec<u8>, from: usize, to: usize) -> (r: Vec<u8>)
    requires
        from <= to <= v.len(),
    ensures
        r@ == v@.subrange(from as int, to as int),
{
    let mut r: Vec<u8> = Vec::new();
    let mut i: usize = from;
    while i < to
        invariant
            from <= i <= to <= v.len(),
            r@ == v@.subrange(from as int, i as int),
        decreases to - i,
    {
        r.push(v[i]);
        assert(r@ =~= v@.subrange(from as int, i + 1 as int));
        i = i + 1;
    }
    r
}

/// `pat` occurs in `s` starting exactly at `i`.
pub open spec fn match_at(s: Seq<u8>, i: int, pat: Seq<u8>) -> bool {
    0 <= i && i + pat.len() <= s.len() && s.subrange(i, i + pat.len()) == pat
}

/// Exec test of `match_at`.
pub fn bytes_match_at(v: &Vec<u8>, i: usize, pat: &Vec<u8>) -> (r: bool)
    requires
        i <= v.len(),
    ensures
        r == match_at(v@, i as int, pat@),
{
    if pat.len() > v.len() - i {
        return false;
    }
    let mut k: usize = 0;
    while k < pat.len()
        invariant
            k <= pat.len(),
            i + pat.len() <= v.len(),
            forall|j: int| 0 <= j < k ==> v@[i + j] == pat@[j],
        decreases pat.len() - k,
    {
        if v[i + k] != pat[k] {
            assert(v@.subrange(i as int, i + pat@.len()) != pat@) by {
                assert(v@.subrange(i as int, i + pat@.len())[k as int] != pat@[k as int]);
            }
            return false;
        }
        k = k + 1;
    }
    assert(v@.subrange(i as int, i + pat@.len()) =~= pat@);
    true
}

/// `s` contains the byte `c`.
pub open spec fn contains_byte(s: Seq<u8>, c: u8) -> bool {
    find_from(s, 0, c) < s.len()
}

pub fn has_byte(v: &Vec<u8>, c: u8) -> (r: bool)
    ensures
        r == contains_byte(v@, c),
{
    find_byte(v, 0, c) < v.len()
}

/// Append a copy of `src` to `dst`.
pub fn push_all(dst: &mut Vec<u8>, src: &Vec<u8>)
    ensures
        final(dst)@ == old(dst)@ + src@,
{
    let mut i: usize = 0;
    while i < src.len()
        invariant
            i <= src.len(),
            dst@ == old(dst)@ + src@.subrange(0, i as int),
        decreases src.len() - i,
    {
        dst.push(src[i]);
        assert(dst@ =~= old(dst)@ + src@.subrange(0, i + 1 as int));
        i = i + 1;
    }
    assert(dst@ =~= old(dst)@ + src@);
}

/// Fields of `s[i..]` split on separator byte `c` (separator not included).
pub open spec fn split_on_from(s: Seq<u8>, c: u8, i: int) -> Seq<Seq<u8>>
    decreases s.len() - i,
        when 0 <= i <= s.len()
        via split_on_from_decreases
{
    let k = find_from(s, i, c);
    if k >= s.len() {
        seq![s.subrange(i, s.len() as int)]
    } else {
        seq![s.subrange(i, k)] + split_on_from(s, c, k + 1)
    }
}

#[via_fn]
proof fn split_on_from_decreases(s: Seq<u8>, c: u8, i: int) {
    lemma_find_from(s, i, c);
}

/// The fields of `s` split on `c`; always at least one field.
pub open spec fn split_on(s: Seq<u8>, c: u8) -> Seq<Seq<u8>> {
    split_on_from(s, c, 0)
}

pub proof fn lemma_split_on_len(s: Seq<u8>, c: u8, i: int)
    requires
        0 <= i <= s.len(),
    ensures
        split_on_from(s, c, i).len() >= 1,
    decreases s.len() - i,
{
    lemma_find_from(s, i, c);
    let k = find_from(s, i, c);
    if k < s.len() {
        lemma_split_on_len(s, c, k + 1);
    }
}

/// Exec split on a separator byte.
pub fn split_on_vec(v: &Vec<u8>, c: u8) -> (r: Vec<Vec<u8>>)
    ensures
        r.deep_view() == split_on(v@, c),
{
    let mut r: Vec<Vec<u8>> = Vec::new();
    let mut i: usize = 0;
    loop
        invariant
            i <= v.len(),
            split_on(v@, c) == r.deep_view() + split_on_from(v@, c, i as int),
        decreases v.len() - i,
    {
        let k = find_byte(v, i, c);
        proof {
            lemma_find_from(v@, i as int, c);
        }
        if k >= v.len() {
            let last = sub_vec(v, i, v.len());
            let ghost prev = r.deep_view();
            r.push(last);
            assert(r.deep_view() =~~= prev.push(v@.subrange(i as int, v@.len() as int)));
            assert(split_on_from(v@, c, i as int) == seq![v@.subrange(i as int, v@.len() as int)]);
            assert(split_on(v@, c) =~= r.deep_view());
            return r;
        } else {
            let piece = sub_vec(v, i, k);
            let ghost prev = r.deep_view();
            r.push(piece);
            assert(r.deep_view() =~~= prev.push(v@.subrange(i as int, k as int)));
            assert(split_on_from(v@, c, i as int)
                == seq![v@.subrange(i as int, k as int)] + split_on_from(v@, c, k + 1));
            assert(split_on(v@, c) =~= r.deep_view() + split_on_from(v@, c, k + 1 as int));
            i = k + 1;
        }
    }
}

/// Whitespace bytes: space, tab, carriage return, newline.
pub open spec fn is_space(c: u8) -> bool {
    c == 32 || c == 9 || c == 13 || c == 10
}

/// Index of the first non-space byte at `i` or later, else `s.len()`.
pub open spec fn skip_spaces(s: Seq<u8>, i: int) -> int
    decreases s.len() - i,
{
    if i < 0 || i >= s.len() {
        s.len() as int
    } else if is_space(s[i]) {
        skip_spaces(s, i + 1)
    } else {
        i
    }
}

pub proof fn lemma_skip_spaces(s: Seq<u8>, i: int)
    requires
        0 <= i <= s.len(),
    ensures
        i <= skip_spaces(s, i) <= s.len(),
    decreases s.len() - i,
{
    if i < s.len() && is_space(s[i]) {
        lemma_skip_spaces(s, i + 1);
    }
}

/// One past the last non-space byte before `e`, else 0.
pub open spec fn trim_end_at(s: Seq<u8>, e: int) -> int
    decreases e,
{
    if e <= 0 || e > s.len() {
        0
    } else if is_space(s[e - 1]) {
        trim_end_at(s, e - 1)
    } else {
        e
    }
}

pub proof fn lemma_trim_end_at(s: Seq<u8>, e: int)
    requires
        0 <= e <= s.len(),
    ensures
        0 <= trim_end_at(s, e) <= e,
    decreases e,
{
    if 0 < e && is_space(s[e - 1]) {
        lemma_trim_end_at(s, e - 1);
    }
}

/// `s` without leading and trailing whitespace.
pub open spec fn trim(s: Seq<u8>) -> Seq<u8> {
    let a = skip_spaces(s, 0);
    let b = trim_end_at(s, s.len() as int);
    if a >= b {
        Seq::empty()
    } else {
        s.subrange(a, b)
    }
}

/// Exec trim.
pub fn trim_vec(v: &Vec<u8>) -> (r: Vec<u8>)
    ensures
        r@ == trim(v@),
{
    let mut a: usize = 0;
    while a < v.len() && is_space_byte(v[a])
        invariant
            a <= v.len(),
            skip_spaces(v@, 0) == skip_spaces(v@, a as int),
        decreases v.len() - a,
    {
        a = a + 1;
    }
    assert(skip_spaces(v@, a as int) == a as int);
    let mut b: usize = v.len();
    while b > 0 && is_space_byte(v[b - 1])
        invariant
            b <= v.len(),
            trim_end_at(v@, v@.len() as int) == trim_end_at(v@, b as int),
        decreases b,
    {
        b = b - 1;
    }
    assert(trim_end_at(v@, b as int) == b as int);
    if a >= b {
        let r: Vec<u8> = Vec::new();
        assert(r@ =~= trim(v@));
        r
    } else {
        sub_vec(v, a, b)
    }
}

/// Exec test for whitespace.
pub fn is_space_byte(c: u8) -> (r: bool)
    ensures
        r == is_space(c),
{
    c == 32 || c == 9 || c == 13 || c == 10
}

/// Identifier bytes: ASCII letters, digits and underscore.
pub open spec fn is_ident_byte(c: u8) -> bool {
    (65 <= c <= 90) || (97 <= c <= 122) || (48 <= c <= 57) || c == 95
}

/// Exec test for an identifier byte.
pub fn ident_byte(c: u8) -> (r: bool)
    ensures
        r == is_ident_byte(c),
{
    (65 <= c && c <= 90) || (97 <= c && c <= 122) || (48 <= c && c <= 57) || c == 95
}

/// A name usable as one path segment: nonempty, identifier bytes only, not
/// starting with a digit.
pub open spec fn is_ident(s: Seq<u8>) -> bool {
    s.len() > 0
    && (forall|k: int| 0 <= k < s.len() ==> is_ident_byte(#[trigger] s[k]))
    && !(48 <= s[0] <= 57)
}

/// Exec test for `is_ident`.
pub fn is_ident_vec(v: &Vec<u8>) -> (r: bool)
    ensures
        r == is_ident(v@),
{
    if v.len() == 0 {
        return false;
    }
    if 48 <= v[0] && v[0] <= 57 {
        return false;
    }
    let mut i: usize = 0;
    while i < v.len()
        invariant
            i <= v.len(),
            v.len() > 0,
            !(48 <= v@[0] <= 57),
            forall|k: int| 0 <= k < i ==> is_ident_byte(#[trigger] v@[k]),
        decreases v.len() - i,
    {
        let c = v[i];
        if !((65 <= c && c <= 90) || (97 <= c && c <= 122) || (48 <= c && c <= 57) || c == 95) {
            return false;
        }
        i = i + 1;
    }
    true
}

/// Lexicographic byte-string order (total).
pub open spec fn lex_le(a: Seq<u8>, b: Seq<u8>) -> bool
    decreases a.len(),
{
    if a.len() == 0 {
        true
    } else if b.len() == 0 {
        false
    } else if a[0] < b[0] {
        true
    } else if a[0] > b[0] {
        false
    } else {
        lex_le(a.subrange(1, a.len() as int), b.subrange(1, b.len() as int))
    }
}

/// Exec comparison deciding `lex_le`.
pub fn lex_le_vec(a: &Vec<u8>, b: &Vec<u8>) -> (r: bool)
    ensures
        r == lex_le(a@, b@),
{
    let mut i: usize = 0;
    proof {
        assert(a@.subrange(0, a@.len() as int) =~= a@);
        assert(b@.subrange(0, b@.len() as int) =~= b@);
    }
    while i < a.len() && i < b.len()
        invariant
            i <= a.len(),
            i <= b.len(),
            lex_le(a@, b@) == lex_le(a@.subrange(i as int, a@.len() as int),
                b@.subrange(i as int, b@.len() as int)),
        decreases a.len() - i,
    {
        if a[i] < b[i] {
            assert(a@.subrange(i as int, a@.len() as int)[0] == a@[i as int]);
            assert(b@.subrange(i as int, b@.len() as int)[0] == b@[i as int]);
            return true;
        }
        if a[i] > b[i] {
            assert(a@.subrange(i as int, a@.len() as int)[0] == a@[i as int]);
            assert(b@.subrange(i as int, b@.len() as int)[0] == b@[i as int]);
            return false;
        }
        proof {
            let sa = a@.subrange(i as int, a@.len() as int);
            let sb = b@.subrange(i as int, b@.len() as int);
            assert(sa[0] == a@[i as int]);
            assert(sb[0] == b@[i as int]);
            assert(sa.subrange(1, sa.len() as int)
                =~= a@.subrange(i + 1 as int, a@.len() as int));
            assert(sb.subrange(1, sb.len() as int)
                =~= b@.subrange(i + 1 as int, b@.len() as int));
        }
        i = i + 1;
    }
    proof {
        let sa = a@.subrange(i as int, a@.len() as int);
        let sb = b@.subrange(i as int, b@.len() as int);
        if i >= a.len() {
            assert(sa.len() == 0);
        } else {
            assert(sb.len() == 0);
            assert(sa.len() > 0);
        }
    }
    a.len() - i == 0
}

} // verus!
