//! Character-level text primitives: conversions between `&str`/`String` and
//! `Vec<char>`, literal substring search and replacement, and splitting and
//! joining of line sequences.
use vstd::prelude::*;

verus! {

use vstd::string::StrSliceExecFns;

/// Collects the characters of a string slice into a vector.
pub fn str_chars(s: &str) -> (v: Vec<char>)
    ensures
        v@ == s@,
{
    let n = s.unicode_len();
    let mut v: Vec<char> = Vec::new();
    let mut i: usize = 0;
    while i < n
        invariant
            i <= n,
            n == s@.len(),
            v@ == s@.subrange(0, i as int),
        decreases n - i,
    {
        v.push(s.get_char(i));
        assert(v@ =~= s@.subrange(0, i + 1));
        i = i + 1;
    }
    assert(s@.subrange(0, n as int) =~= s@);
    v
}

/// Relies on `core::iter::Iterator::collect` for `String`: collecting the
/// characters of a `Vec<char>` yields the string with exactly that character
/// sequence.
#[verifier::external_body]
pub fn chars_string(v: &Vec<char>) -> (s: String)
    ensures
        s@ == v@,
{
    v.iter().collect()
}

/// The views of the elements of a vector-of-vectors, as a sequence of
/// character sequences.
pub open spec fn seq_views(v: Seq<Vec<char>>) -> Seq<Seq<char>> {
    Seq::new(v.len(), |i: int| v[i]@)
}

/// Holds when `pat` occurs in `s` starting at index `i`.
pub open spec fn occurs_at(s: Seq<char>, pat: Seq<char>, i: int) -> bool {
    0 <= i && i + pat.len() <= s.len() && s.subrange(i, i + pat.len() as int) == pat
}

/// Holds when `pat` occurs somewhere in `s` as a contiguous subsequence.
pub open spec fn occurs(s: Seq<char>, pat: Seq<char>) -> bool {
    exists|i: int| occurs_at(s, pat, i)
}

/// Replacement of every occurrence of `pat` in `s` by `rep`, scanning left to
/// right and never rescanning replaced text. An empty pattern replaces
/// nothing.
pub open spec fn replace_all_s(s: Seq<char>, pat: Seq<char>, rep: Seq<char>) -> Seq<char>
    decreases s.len(),
{
    if pat.len() == 0 || s.len() < pat.len() {
        s
    } else if s.subrange(0, pat.len() as int) == pat {
        rep + replace_all_s(s.skip(pat.len() as int), pat, rep)
    } else {
        seq![s[0]] + replace_all_s(s.skip(1), pat, rep)
    }
}

/// Whether `pat` matches in `s` at position `i`.
fn match_at(s: &Vec<char>, pat: &Vec<char>, i: usize) -> (b: bool)
    requires
        i + pat@.len() <= s@.len(),
    ensures
        b == (s@.subrange(i as int, i + pat@.len() as int) == pat@),
{
    let n = s.len();
    let mut k: usize = 0;
    while k < pat.len()
        invariant
            k <= pat@.len(),
            i + pat@.len() <= s@.len(),
            n == s@.len(),
            forall|j: int| 0 <= j < k ==> s@[i + j] == pat@[j],
        decreases pat@.len() - k,
    {
        if s[i + k] != pat[k] {
            assert(s@.subrange(i as int, i + pat@.len() as int)[k as int] == s@[i + k]);
            return false;
        }
        k = k + 1;
    }
    assert(s@.subrange(i as int, i + pat@.len() as int) =~= pat@);
    true
}

/// Replaces every occurrence of `pat` in `s` by `rep`, leftmost first,
/// without rescanning replaced text; an empty pattern leaves `s` unchanged.
pub fn replace_all(s: &Vec<char>, pat: &Vec<char>, rep: &Vec<char>) -> (r: Vec<char>)
    ensures
        r@ == replace_all_s(s@, pat@, rep@),
{
    let mut r: Vec<char> = Vec::new();
    if pat.len() == 0 {
        let mut i: usize = 0;
        while i < s.len()
            invariant
                i <= s@.len(),
                r@ == s@.subrange(0, i as int),
            decreases s@.len() - i,
        {
            r.push(s[i]);
            assert(r@ =~= s@.subrange(0, i + 1));
            i = i + 1;
        }
        assert(s@.subrange(0, s@.len() as int) =~= s@);
        return r;
    }
    let mut i: usize = 0;
    assert(s@.skip(0) =~= s@);
    while i < s.len()
        invariant
            i <= s@.len(),
            pat@.len() > 0,
            replace_all_s(s@, pat@, rep@) == r@ + replace_all_s(s@.skip(i as int), pat@, rep@),
        decreases s@.len() - i,
    {
        let ghost tail = s@.skip(i as int);
        if pat.len() <= s.len() - i && match_at(s, pat, i) {
            proof {
                assert(tail.subrange(0, pat@.len() as int) =~= s@.subrange(
                    i as int,
                    i + pat@.len() as int,
                ));
                assert(tail.skip(pat@.len() as int) =~= s@.skip(i + pat@.len()));
            }
            let mut k: usize = 0;
            let ghost r0 = r@;
            while k < rep.len()
                invariant
                    k <= rep@.len(),
                    r@ == r0 + rep@.subrange(0, k as int),
                decreases rep@.len() - k,
            {
                r.push(rep[k]);
                assert(r@ =~= r0 + rep@.subrange(0, k + 1));
                k = k + 1;
            }
            assert(rep@.subrange(0, rep@.len() as int) =~= rep@);
            i = i + pat.len();
        } else {
            proof {
                if tail.len() >= pat@.len() {
                    assert(tail.subrange(0, pat@.len() as int) =~= s@.subrange(
                        i as int,
                        i + pat@.len() as int,
                    ));
                }
                assert(tail.skip(1) =~= s@.skip(i + 1));
                assert(seq![tail[0]] + tail.skip(1) =~= tail);
            }
            r.push(s[i]);
            i = i + 1;
        }
    }
    proof {
        assert(s@.skip(i as int) =~= Seq::<char>::empty());
    }
    r
}

/// Shifting the start of a sequence shifts occurrence positions with it.
proof fn lemma_occurs_at_skip(s: Seq<char>, pat: Seq<char>, k: int, i: int)
    requires
        0 <= k <= s.len(),
        occurs_at(s.skip(k), pat, i),
    ensures
        occurs_at(s, pat, i + k),
{
    assert(s.subrange(i + k, i + k + pat.len() as int) =~= s.skip(k).subrange(
        i,
        i + pat.len() as int,
    ));
}

/// A pattern that occurs nowhere in a text is not replaced: the text stays
/// as it was.
pub proof fn lemma_replace_no_occurrence(s: Seq<char>, pat: Seq<char>, rep: Seq<char>)
    requires
        !occurs(s, pat),
    ensures
        replace_all_s(s, pat, rep) == s,
    decreases s.len(),
{
    if pat.len() == 0 || s.len() < pat.len() {
    } else {
        assert(!occurs_at(s, pat, 0));
        assert(s.subrange(0, pat.len() as int) != pat);
        assert forall|i: int| !occurs_at(s.skip(1), pat, i) by {
            if occurs_at(s.skip(1), pat, i) {
                lemma_occurs_at_skip(s, pat, 1, i);
            }
        }
        lemma_replace_no_occurrence(s.skip(1), pat, rep);
        assert(seq![s[0]] + s.skip(1) =~= s);
    }
}

/// The lines of `s`, split on `'\n'`: one more line than there are newline
/// characters, so an empty text has one empty line.
pub open spec fn split_s(s: Seq<char>) -> Seq<Seq<char>>
    decreases s.len(),
{
    if s.len() == 0 {
        seq![Seq::<char>::empty()]
    } else if s[0] == '\n' {
        seq![Seq::<char>::empty()] + split_s(s.drop_first())
    } else {
        let rest = split_s(s.drop_first());
        seq![seq![s[0]] + rest[0]] + rest.drop_first()
    }
}

/// Splitting always yields at least one line.
pub proof fn lemma_split_nonempty(s: Seq<char>)
    ensures
        split_s(s).len() >= 1,
    decreases s.len(),
{
    if s.len() == 0 {
    } else if s[0] == '\n' {
    } else {
        lemma_split_nonempty(s.drop_first());
    }
}

/// If the first newline of `s` stands at index `i`, the first line is
/// `s[..i]` and the rest splits `s[i+1..]`.
proof fn lemma_split_at_first_nl(s: Seq<char>, i: int)
    requires
        0 <= i < s.len(),
        s[i] == '\n',
        forall|j: int| 0 <= j < i ==> s[j] != '\n',
    ensures
        split_s(s) == seq![s.subrange(0, i)] + split_s(s.skip(i + 1)),
    decreases i,
{
    if i == 0 {
        assert(s.subrange(0, 0) =~= Seq::<char>::empty());
        assert(s.drop_first() =~= s.skip(1));
    } else {
        let t = s.drop_first();
        lemma_split_at_first_nl(t, i - 1);
        lemma_split_nonempty(t.skip(i));
        assert(t.subrange(0, i - 1) =~= s.subrange(1, i));
        assert(t.skip(i) =~= s.skip(i + 1));
        assert(seq![s[0]] + s.subrange(1, i) =~= s.subrange(0, i));
        assert(split_s(s) =~= seq![s.subrange(0, i)] + split_s(s.skip(i + 1)));
    }
}

/// A text without newlines is a single line.
proof fn lemma_split_no_nl(s: Seq<char>)
    requires
        forall|j: int| 0 <= j < s.len() ==> s[j] != '\n',
    ensures
        split_s(s) == seq![s],
    decreases s.len(),
{
    if s.len() == 0 {
        assert(split_s(s) =~~= seq![s]);
    } else {
        lemma_split_no_nl(s.drop_first());
        assert(seq![s[0]] + s.drop_first() =~= s);
        assert(split_s(s) =~~= seq![s]);
    }
}

/// Splits a text into its lines on `'\n'`.
pub fn split_lines(s: &Vec<char>) -> (r: Vec<Vec<char>>)
    ensures
        seq_views(r@) == split_s(s@),
{
    let mut r: Vec<Vec<char>> = Vec::new();
    let mut p: usize = 0;
    let mut cur: Vec<char> = Vec::new();
    let mut j: usize = 0;
    assert(s@.skip(0) =~= s@);
    assert(cur@ =~= s@.subrange(0, 0));
    loop
        invariant_except_break
            p <= j <= s@.len(),
            cur@ == s@.subrange(p as int, j as int),
            forall|q: int| p <= q < j ==> s@[q] != '\n',
            split_s(s@) == seq_views(r@) + split_s(s@.skip(p as int)),
        ensures
            seq_views(r@) == split_s(s@),
        decreases s@.len() - j,
    {
        if j == s.len() {
            proof {
                assert(s@.skip(p as int) =~= s@.subrange(p as int, j as int));
                lemma_split_no_nl(s@.skip(p as int));
            }
            let ghost olddeep = seq_views(r@);
            r.push(cur);
            proof {
                assert(seq_views(r@) =~= olddeep.push(s@.subrange(p as int, j as int)));
                assert(olddeep.push(s@.subrange(p as int, j as int)) =~= olddeep + seq![
                    s@.subrange(p as int, j as int),
                ]);
            }
            break;
        }
        if s[j] == '\n' {
            proof {
                let tail = s@.skip(p as int);
                assert(tail[j - p] == s@[j as int]);
                assert forall|q: int| 0 <= q < j - p implies tail[q] != '\n' by {
                    assert(tail[q] == s@[p + q]);
                }
                lemma_split_at_first_nl(tail, j - p);
                assert(tail.subrange(0, j - p) =~= s@.subrange(p as int, j as int));
                assert(tail.skip(j - p + 1) =~= s@.skip(j + 1));
            }
            let ghost olddeep = seq_views(r@);
            r.push(cur);
            proof {
                assert(seq_views(r@) =~= olddeep.push(s@.subrange(p as int, j as int)));
            }
            cur = Vec::new();
            p = j + 1;
            assert(cur@ =~= s@.subrange(p as int, p as int));
        } else {
            cur.push(s[j]);
            assert(cur@ =~= s@.subrange(p as int, j + 1));
        }
        j = j + 1;
    }
    r
}

/// The pieces joined with a single separator character between consecutive
/// pieces.
pub open spec fn join_sep_s(ls: Seq<Seq<char>>, sep: char) -> Seq<char>
    decreases ls.len(),
{
    if ls.len() == 0 {
        Seq::<char>::empty()
    } else if ls.len() == 1 {
        ls[0]
    } else {
        ls[0] + seq![sep] + join_sep_s(ls.drop_first(), sep)
    }
}

/// The lines joined with a single `'\n'` between consecutive lines.
pub open spec fn join_s(ls: Seq<Seq<char>>) -> Seq<char> {
    join_sep_s(ls, '\n')
}

/// Appending one piece extends the joined text by a separator and that piece.
proof fn lemma_join_snoc(ls: Seq<Seq<char>>, x: Seq<char>, sep: char)
    ensures
        ls.len() == 0 ==> join_sep_s(ls.push(x), sep) == x,
        ls.len() > 0 ==> join_sep_s(ls.push(x), sep) == join_sep_s(ls, sep) + seq![sep] + x,
    decreases ls.len(),
{
    if ls.len() == 0 {
        assert(join_sep_s(ls.push(x), sep) == ls.push(x)[0]);
        assert(ls.push(x)[0] == x);
    } else if ls.len() == 1 {
        assert(ls.push(x).drop_first() =~= seq![x]);
        assert(ls.push(x)[0] == ls[0]);
        assert(join_sep_s(ls.push(x).drop_first(), sep) == join_sep_s(seq![x], sep));
        assert(join_sep_s(seq![x], sep) == x);
        assert(join_sep_s(ls.push(x), sep) == ls[0] + seq![sep] + x);
    } else {
        lemma_join_snoc(ls.drop_first(), x, sep);
        assert(ls.push(x).drop_first() =~= ls.drop_first().push(x));
    }
}

/// Joins pieces with a single separator character.
pub fn join_with(ls: &Vec<Vec<char>>, sep: char) -> (r: Vec<char>)
    ensures
        r@ == join_sep_s(seq_views(ls@), sep),
{
    let mut r: Vec<char> = Vec::new();
    let mut i: usize = 0;
    while i < ls.len()
        invariant
            i <= ls@.len(),
            i == 0 ==> r@ == Seq::<char>::empty(),
            i > 0 ==> r@ == join_sep_s(seq_views(ls@).subrange(0, i as int), sep),
        decreases ls@.len() - i,
    {
        let ghost prefix = seq_views(ls@).subrange(0, i as int);
        if i > 0 {
            r.push(sep);
        }
        let line = &ls[i];
        let mut k: usize = 0;
        let ghost r0 = r@;
        while k < line.len()
            invariant
                k <= line@.len(),
                r@ == r0 + line@.subrange(0, k as int),
            decreases line@.len() - k,
        {
            r.push(line[k]);
            assert(r@ =~= r0 + line@.subrange(0, k + 1));
            k = k + 1;
        }
        proof {
            assert(line@.subrange(0, line@.len() as int) =~= line@);
            assert(line@ == seq_views(ls@)[i as int]);
            lemma_join_snoc(prefix, seq_views(ls@)[i as int], sep);
            assert(prefix.push(seq_views(ls@)[i as int]) =~= seq_views(ls@).subrange(0, i + 1));
        }
        i = i + 1;
    }
    proof {
        if ls@.len() == 0 {
            assert(r@ =~= join_sep_s(seq_views(ls@), sep));
        } else {
            assert(seq_views(ls@).subrange(0, ls@.len() as int) =~= seq_views(ls@));
        }
    }
    r
}

} // verus!

verus! {

/// Joins lines with a single `'\n'` separator.
pub fn join_lines(ls: &Vec<Vec<char>>) -> (r: Vec<char>)
    ensures
        r@ == join_s(seq_views(ls@)),
{
    join_with(ls, '\n')
}

} // verus!

verus! {

/// Pushes one line, relating the element views before and after.
pub fn push_line(r: &mut Vec<Vec<char>>, x: Vec<char>)
    ensures
        seq_views(final(r)@) == seq_views(old(r)@).push(x@),
        final(r)@.len() == old(r)@.len() + 1,
{
    let ghost olds = r@;
    r.push(x);
    proof {
        assert forall|j: int| 0 <= j < olds.len() + 1 implies #[trigger] seq_views(r@)[j]
            == seq_views(olds).push(x@)[j] by {
            assert(seq_views(r@)[j] == r@[j]@);
            if j < olds.len() {
                assert(r@[j] == olds[j]);
                assert(seq_views(olds)[j] == olds[j]@);
            } else {
                assert(r@[j] == x);
            }
        }
        assert(seq_views(r@) =~= seq_views(olds).push(x@));
    }
}

} // verus!
