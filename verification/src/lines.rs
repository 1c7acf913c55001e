//! Splitting byte content into lines and joining lines back, with the
//! round-trip facts the link-file mutation relies on.  A "line" never holds a
//! newline byte; joining inserts exactly one newline between consecutive
//! lines, so content with a trailing newline splits into a final empty line.

use vstd::prelude::*;
use crate::bytes::{find_from, lemma_find_from, find_byte, sub_vec, push_all, contains_byte};

verus! {

pub const NL: u8 = 10;

/// The lines of `s[i..]`.
pub open spec fn split_from(s: Seq<u8>, i: int) -> Seq<Seq<u8>>
    decreases s.len() - i,
        when 0 <= i <= s.len()
        via split_from_decreases
{
    let k = find_from(s, i, NL);
    if k >= s.len() {
        seq![s.subrange(i, s.len() as int)]
    } else {
        seq![s.subrange(i, k)] + split_from(s, k + 1)
    }
}

#[via_fn]
proof fn split_from_decreases(s: Seq<u8>, i: int) {
    lemma_find_from(s, i, NL);
}

/// The lines of a whole content string.
pub open spec fn spec_lines(s: Seq<u8>) -> Seq<Seq<u8>> {
    split_from(s, 0)
}

/// Joining lines with single newlines; inverse of `spec_lines` on
/// newline-free lines.
pub open spec fn join(ls: Seq<Seq<u8>>) -> Seq<u8>
    decreases ls.len(),
{
    if ls.len() == 0 {
        Seq::empty()
    } else if ls.len() == 1 {
        ls[0]
    } else {
        ls[0] + seq![NL] + join(ls.subrange(1, ls.len() as int))
    }
}

/// A line is well formed when it holds no newline byte.
pub open spec fn line_free(l: Seq<u8>) -> bool {
    !contains_byte(l, NL)
}

pub open spec fn all_line_free(ls: Seq<Seq<u8>>) -> bool {
    forall|k: int| 0 <= k < ls.len() ==> line_free(#[trigger] ls[k])
}

/// Splitting always yields at least one line, and every line is newline free.
pub proof fn lemma_split_props(s: Seq<u8>, i: int)
    requires
        0 <= i <= s.len(),
    ensures
        split_from(s, i).len() >= 1,
        all_line_free(split_from(s, i)),
    decreases s.len() - i,
{
    lemma_find_from(s, i, NL);
    let k = find_from(s, i, NL);
    if k >= s.len() {
        let l = s.subrange(i, s.len() as int);
        assert(line_free(l)) by {
            lemma_find_from(l, 0, NL);
            if contains_byte(l, NL) {
                let p = find_from(l, 0, NL);
                assert(s[i + p] == NL);
            }
        }
    } else {
        let l = s.subrange(i, k);
        assert(line_free(l)) by {
            lemma_find_from(l, 0, NL);
            if contains_byte(l, NL) {
                let p = find_from(l, 0, NL);
                assert(s[i + p] == NL);
            }
        }
        lemma_split_props(s, k + 1);
        assert(forall|m: int| 0 <= m < split_from(s, k + 1).len()
            ==> (#[trigger] split_from(s, i)[m + 1]) == split_from(s, k + 1)[m]);
    }
}

/// If the suffix `s[i..]` equals `join(ls)` for nonempty newline-free lines,
/// then splitting from `i` recovers exactly `ls`.
pub proof fn lemma_split_join_from(ls: Seq<Seq<u8>>, s: Seq<u8>, i: int)
    requires
        0 <= i <= s.len(),
        ls.len() >= 1,
        all_line_free(ls),
        s.subrange(i, s.len() as int) == join(ls),
    ensures
        split_from(s, i) == ls,
    decreases ls.len(),
{
    lemma_find_from(s, i, NL);
    let k = find_from(s, i, NL);
    let l0 = ls[0];
    if ls.len() == 1 {
        assert(s.len() - i == l0.len());
        assert(forall|j: int| i <= j < s.len() ==> s[j] == l0[j - i]);
        assert(k >= s.len()) by {
            if k < s.len() {
                assert(s[k] == NL);
                assert(l0[k - i] == NL);
                lemma_find_from(l0, 0, NL);
                if !contains_byte(l0, NL) {
                    assert(l0[k - i] != NL);
                }
            }
        }
        assert(split_from(s, i) =~= ls) by {
            assert(s.subrange(i, s.len() as int) =~= l0);
        }
    } else {
        let rest = ls.subrange(1, ls.len() as int);
        let jr = join(rest);
        assert(join(ls) == l0 + seq![NL] + jr);
        assert(s.len() - i == l0.len() + 1 + jr.len());
        assert(forall|j: int| i <= j < s.len()
            ==> s[j] == (l0 + seq![NL] + jr)[j - i]);
        assert(forall|j: int| i <= j < i + l0.len() ==> s[j] == l0[j - i]);
        assert(s[i + l0.len()] == NL);
        assert(k == i + l0.len()) by {
            assert(forall|j: int| i <= j < i + l0.len() ==> s[j] != NL) by {
                lemma_find_from(l0, 0, NL);
                assert(forall|p: int| 0 <= p < l0.len() ==> l0[p] != NL);
            }
            if k < i + l0.len() {
                assert(s[k] != NL);
            }
            if k > i + l0.len() {
                assert(s[i + l0.len()] != NL);
            }
        }
        assert(s.subrange(i, k) =~= l0);
        assert(s.subrange(k + 1, s.len() as int) =~= jr) by {
            assert(forall|j: int| k + 1 <= j < s.len()
                ==> s[j] == jr[j - (k + 1)]);
        }
        assert(all_line_free(rest)) by {
            assert(forall|m: int| 0 <= m < rest.len()
                ==> (#[trigger] rest[m]) == ls[m + 1]);
        }
        lemma_split_join_from(rest, s, k + 1);
        assert(split_from(s, i) =~= ls);
    }
}

/// `spec_lines` is a left inverse of `join` on nonempty newline-free line lists.
pub proof fn lemma_lines_of_join(ls: Seq<Seq<u8>>)
    requires
        ls.len() >= 1,
        all_line_free(ls),
    ensures
        spec_lines(join(ls)) == ls,
{
    let s = join(ls);
    assert(s.subrange(0, s.len() as int) =~= s);
    lemma_split_join_from(ls, s, 0);
}

/// Appending one more line to a nonempty list extends the join by a newline
/// and that line.
pub proof fn lemma_join_push(ls: Seq<Seq<u8>>, x: Seq<u8>)
    requires
        ls.len() >= 1,
    ensures
        join(ls.push(x)) == join(ls) + seq![NL] + x,
    decreases ls.len(),
{
    let p = ls.push(x);
    if ls.len() == 1 {
        assert(p.subrange(1, p.len() as int) =~= seq![x]);
        assert(join(seq![x]) == x);
        assert(join(p) == ls[0] + seq![NL] + x);
    } else {
        let rest = ls.subrange(1, ls.len() as int);
        lemma_join_push(rest, x);
        assert(p.subrange(1, p.len() as int) =~= rest.push(x));
        assert(join(p) == p[0] + seq![NL] + join(rest.push(x)));
        assert(join(ls) + seq![NL] + x
            =~= ls[0] + seq![NL] + (join(rest) + seq![NL] + x));
    }
}

/// Exec split of content into lines.
pub fn split_lines_vec(v: &Vec<u8>) -> (r: Vec<Vec<u8>>)
    ensures
        r.deep_view() == spec_lines(v@),
{
    let mut r: Vec<Vec<u8>> = Vec::new();
    let mut i: usize = 0;
    loop
        invariant
            i <= v.len(),
            spec_lines(v@) == r.deep_view() + split_from(v@, i as int),
        decreases v.len() - i,
    {
        let k = find_byte(v, i, NL);
        proof {
            lemma_find_from(v@, i as int, NL);
        }
        if k >= v.len() {
            let last = sub_vec(v, i, v.len());
            let ghost prev = r.deep_view();
            r.push(last);
            assert(r.deep_view() =~~= prev.push(v@.subrange(i as int, v@.len() as int)));
            assert(split_from(v@, i as int) == seq![v@.subrange(i as int, v@.len() as int)]);
            assert(spec_lines(v@) =~= r.deep_view());
            return r;
        } else {
            let line = sub_vec(v, i, k);
            let ghost prev = r.deep_view();
            r.push(line);
            assert(r.deep_view() =~~= prev.push(v@.subrange(i as int, k as int)));
            assert(split_from(v@, i as int)
                == seq![v@.subrange(i as int, k as int)] + split_from(v@, k + 1));
            assert(spec_lines(v@) =~= r.deep_view() + split_from(v@, k + 1 as int));
            i = k + 1;
        }
    }
}

/// Exec join of lines into content.
pub fn join_lines_vec(ls: &Vec<Vec<u8>>) -> (r: Vec<u8>)
    ensures
        r@ == join(ls.deep_view()),
{
    let mut r: Vec<u8> = Vec::new();
    let mut i: usize = 0;
    while i < ls.len()
        invariant
            i <= ls.len(),
            i == 0 ==> r@ == Seq::<u8>::empty(),
            i >= 1 ==> r@ == join(ls.deep_view().subrange(0, i as int)),
        decreases ls.len() - i,
    {
        if i > 0 {
            r.push(NL);
        }
        push_all(&mut r, &ls[i]);
        proof {
            let d = ls.deep_view();
            if i == 0 {
                assert(d.subrange(0, 1) =~= seq![d[0]]);
                assert(join(d.subrange(0, 1)) == d[0]);
                assert(r@ =~= d[0]);
            } else {
                lemma_join_push(d.subrange(0, i as int), d[i as int]);
                assert(d.subrange(0, i + 1 as int)
                    =~= d.subrange(0, i as int).push(d[i as int]));
            }
        }
        i = i + 1;
    }
    proof {
        let d = ls.deep_view();
        if ls.len() == 0 {
            assert(join(d) == Seq::<u8>::empty());
        } else {
            assert(d.subrange(0, d.len() as int) =~= d);
        }
    }
    r
}

} // verus!
