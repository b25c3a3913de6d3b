//! The move command's pure parts: parsing `source::destination` arguments,
//! making the given paths absolute against the working directory, and
//! ordering moves by descending source path so that an entry nested under
//! another is processed before it.
use vstd::prelude::*;

verus! {

use crate::path::{absolutize, clean_s, parse_segs_s, FsPath};
use crate::rewrite::Move;
use crate::text::str_chars;

/// The move command's arguments: the moves to make, and whether to search
/// the tree for textual references to rewrite.
pub struct MoveArgs {
    pub moves: Vec<Move>,
    pub replace_usages: bool,
}

/// Why a move argument was refused.
#[derive(Clone, Copy, PartialEq, Eq, Structural, Debug)]
pub enum MoveParseError {
    MissingDelimiter,
}

impl MoveParseError {
    /// A fixed account of the fault, for the caller to show.
    pub fn message(&self) -> (r: &'static str)
        ensures
            r@ == "Argument needs to have a \"::\" delimiter"@,
    {
        "Argument needs to have a \"::\" delimiter"
    }
}

/// Parses move arguments of the form `source::destination`.
#[derive(Clone, Copy)]
pub struct MoveValueParser {}

/// The first index where `::` stands in `s`, or `-1` when none does.
pub open spec fn first_delim_s(s: Seq<char>) -> int
    decreases s.len(),
{
    if s.len() < 2 {
        -1
    } else if s[0] == ':' && s[1] == ':' {
        0
    } else {
        let r = first_delim_s(s.drop_first());
        if r == -1 {
            -1
        } else {
            r + 1
        }
    }
}

proof fn lemma_first_delim_at(s: Seq<char>, i: int)
    requires
        0 <= i,
        i + 1 < s.len(),
        s[i] == ':' && s[i + 1] == ':',
        forall|j: int| 0 <= j < i ==> !((#[trigger] s[j]) == ':' && s[j + 1] == ':'),
    ensures
        first_delim_s(s) == i,
    decreases i,
{
    if i == 0 {
    } else {
        lemma_first_delim_at(s.drop_first(), i - 1);
    }
}

proof fn lemma_first_delim_none(s: Seq<char>)
    requires
        forall|j: int| 0 <= j && j + 1 < s.len() ==> !((#[trigger] s[j]) == ':' && s[j + 1] == ':'),
    ensures
        first_delim_s(s) == -1,
    decreases s.len(),
{
    if s.len() < 2 {
    } else {
        lemma_first_delim_none(s.drop_first());
    }
}

impl MoveValueParser {
    /// A parser for `source::destination` arguments.
    pub fn new() -> (r: Self)
        ensures
            r == (MoveValueParser {  }),
    {
        Self {  }
    }

    /// Splits one argument at its first `::` into a source and a
    /// destination path; an argument without the delimiter is refused.
    pub fn parse_ref(&self, value: &str) -> (r: Result<Move, MoveParseError>)
        ensures
            r is Ok <==> first_delim_s(value@) >= 0,
            r matches Ok(m) ==> {
                let d = first_delim_s(value@);
                &&& m.source.segs() == parse_segs_s(value@.subrange(0, d))
                &&& m.source.absolute == (d > 0 && value@[0] == '/')
                &&& m.destination.segs() == parse_segs_s(
                    value@.subrange(d + 2, value@.len() as int),
                )
                &&& m.destination.absolute == (d + 2 < value@.len() && value@[d + 2] == '/')
                &&& m.source.wf() && m.destination.wf()
            },
            r matches Err(e) ==> e == MoveParseError::MissingDelimiter,
    {
        let chars = str_chars(value);
        let n = chars.len();
        let mut i: usize = 0;
        while n >= 1 && i < n - 1
            invariant
                i <= n,
                n == chars@.len(),
                chars@ == value@,
                forall|j: int| 0 <= j < i ==> !((#[trigger] chars@[j]) == ':' && chars@[j + 1] == ':'),
            decreases n - i,
        {
            if chars[i] == ':' && chars[i + 1] == ':' {
                proof {
                    lemma_first_delim_at(chars@, i as int);
                }
                let mut left: Vec<char> = Vec::new();
                let mut j: usize = 0;
                while j < i
                    invariant
                        j <= i,
                        i < chars@.len(),
                        left@ == chars@.subrange(0, j as int),
                    decreases i - j,
                {
                    left.push(chars[j]);
                    assert(left@ =~= chars@.subrange(0, j + 1));
                    j = j + 1;
                }
                let mut right: Vec<char> = Vec::new();
                let mut j: usize = i + 2;
                while j < n
                    invariant
                        i + 2 <= j <= n,
                        n == chars@.len(),
                        right@ == chars@.subrange(i + 2, j as int),
                    decreases n - j,
                {
                    right.push(chars[j]);
                    assert(right@ =~= chars@.subrange(i + 2, j + 1));
                    j = j + 1;
                }
                let source = FsPath::parse_chars(&left);
                let destination = FsPath::parse_chars(&right);
                return Ok(Move { source, destination });
            }
            i = i + 1;
        }
        proof {
            lemma_first_delim_none(chars@);
        }
        Err(MoveParseError::MissingDelimiter)
    }
}

impl Default for MoveValueParser {
    fn default() -> (r: Self)
        ensures
            r == (MoveValueParser {  }),
    {
        Self::new()
    }
}

/// The absoluteness of `p` taken from `cwd`.
pub open spec fn abs_flag_s(p: FsPath, cwd: FsPath) -> bool {
    if p.absolute {
        true
    } else {
        cwd.absolute
    }
}

/// The segments of `p` taken from `cwd` and cleaned.
pub open spec fn abs_segs_s(p: FsPath, cwd: FsPath) -> Seq<Seq<char>> {
    if p.absolute {
        clean_s(true, p.segs())
    } else {
        clean_s(cwd.absolute, cwd.segs() + p.segs())
    }
}

/// Every move's paths taken from the working directory and cleaned.
pub fn absolute_moves(moves: &Vec<Move>, cwd: &FsPath) -> (r: Vec<Move>)
    ensures
        r@.len() == moves@.len(),
        forall|i: int|
            0 <= i < moves@.len() ==> {
                &&& (#[trigger] r@[i]).source.absolute == abs_flag_s(moves@[i].source, *cwd)
                &&& r@[i].source.segs() == abs_segs_s(moves@[i].source, *cwd)
                &&& r@[i].destination.absolute == abs_flag_s(moves@[i].destination, *cwd)
                &&& r@[i].destination.segs() == abs_segs_s(moves@[i].destination, *cwd)
            },
{
    let mut r: Vec<Move> = Vec::new();
    let mut i: usize = 0;
    while i < moves.len()
        invariant
            i <= moves@.len(),
            r@.len() == i,
            forall|j: int|
                0 <= j < i ==> {
                    &&& (#[trigger] r@[j]).source.absolute == abs_flag_s(moves@[j].source, *cwd)
                    &&& r@[j].source.segs() == abs_segs_s(moves@[j].source, *cwd)
                    &&& r@[j].destination.absolute == abs_flag_s(moves@[j].destination, *cwd)
                    &&& r@[j].destination.segs() == abs_segs_s(moves@[j].destination, *cwd)
                },
        decreases moves@.len() - i,
    {
        let m = &moves[i];
        let source = absolutize(&m.source, cwd);
        let destination = absolutize(&m.destination, cwd);
        r.push(Move { source, destination });
        i = i + 1;
    }
    r
}

/// One text stands at or before another in lexicographic order by character
/// value; a prefix stands before its extensions.
pub open spec fn text_le(a: Seq<char>, b: Seq<char>) -> bool
    decreases a.len(),
{
    if a.len() == 0 {
        true
    } else if b.len() == 0 {
        false
    } else if a[0] == b[0] {
        text_le(a.drop_first(), b.drop_first())
    } else {
        (a[0] as int) < (b[0] as int)
    }
}

/// Any two texts are ordered one way or the other.
pub proof fn lemma_text_le_total(a: Seq<char>, b: Seq<char>)
    ensures
        text_le(a, b) || text_le(b, a),
    decreases a.len(),
{
    if a.len() == 0 || b.len() == 0 {
    } else if a[0] == b[0] {
        lemma_text_le_total(a.drop_first(), b.drop_first());
    } else {
        assert((a[0] as int) != (b[0] as int));
    }
}

/// Every text stands at or before itself.
pub proof fn lemma_text_le_refl(a: Seq<char>)
    ensures
        text_le(a, a),
    decreases a.len(),
{
    if a.len() > 0 {
        lemma_text_le_refl(a.drop_first());
    }
}

/// The order carries over a middle text.
pub proof fn lemma_text_le_trans(a: Seq<char>, b: Seq<char>, c: Seq<char>)
    requires
        text_le(a, b),
        text_le(b, c),
    ensures
        text_le(a, c),
    decreases a.len(),
{
    if a.len() == 0 || b.len() == 0 || c.len() == 0 {
    } else if a[0] == b[0] && b[0] == c[0] {
        lemma_text_le_trans(a.drop_first(), b.drop_first(), c.drop_first());
    }
}

/// One move sorts at or before another when its source's rendered path does.
pub open spec fn move_le(a: Move, b: Move) -> bool {
    text_le(a.source.render_s(), b.source.render_s())
}

/// Whether `a`'s rendered text stands at or before `b`'s.
fn text_le_exec(a: &Vec<char>, b: &Vec<char>) -> (r: bool)
    ensures
        r == text_le(a@, b@),
{
    let n = if a.len() < b.len() {
        a.len()
    } else {
        b.len()
    };
    let mut i: usize = 0;
    assert(a@.skip(0) =~= a@);
    assert(b@.skip(0) =~= b@);
    while i < n
        invariant
            i <= n,
            n <= a@.len() && n <= b@.len(),
            n == a@.len() || n == b@.len(),
            forall|j: int| 0 <= j < i ==> a@[j] == b@[j],
            text_le(a@, b@) == text_le(a@.skip(i as int), b@.skip(i as int)),
        decreases n - i,
    {
        proof {
            assert(a@.skip(i as int)[0] == a@[i as int]);
            assert(b@.skip(i as int)[0] == b@[i as int]);
            assert(a@.skip(i as int).drop_first() =~= a@.skip(i + 1));
            assert(b@.skip(i as int).drop_first() =~= b@.skip(i + 1));
        }
        if a[i] != b[i] {
            return a[i] < b[i];
        }
        i = i + 1;
    }
    proof {
        assert(a@.skip(n as int).len() == a@.len() - n);
        assert(b@.skip(n as int).len() == b@.len() - n);
    }
    a.len() <= b.len()
}

/// Orders moves by descending source path, so that a path nested under
/// another is handled before the path containing it. The result holds
/// exactly the given moves.
pub fn sort_moves_desc(moves: Vec<Move>) -> (r: Vec<Move>)
    ensures
        r@.len() == moves@.len(),
        r@.to_multiset() == moves@.to_multiset(),
        forall|i: int, j: int| 0 <= i <= j < r@.len() ==> move_le(#[trigger] r@[j], #[trigger] r@[i]),
{
    broadcast use vstd::seq_lib::group_to_multiset_ensures;

    let mut rem = moves;
    let mut r: Vec<Move> = Vec::new();
    let ghost all = rem@.to_multiset();
    proof {
        assert(r@.to_multiset().add(rem@.to_multiset()) =~= all);
    }
    while rem.len() > 0
        invariant
            r@.to_multiset().add(rem@.to_multiset()) == all,
            r@.len() + rem@.len() == moves@.len(),
            all == moves@.to_multiset(),
            forall|i: int, j: int|
                0 <= i <= j < r@.len() ==> move_le(#[trigger] r@[j], #[trigger] r@[i]),
            forall|i: int, j: int|
                0 <= i < r@.len() && 0 <= j < rem@.len() ==> move_le(
                    #[trigger] rem@[j],
                    #[trigger] r@[i],
                ),
        decreases rem@.len(),
    {
        let mut best: usize = 0;
        let mut best_text = rem[0].source.render();
        proof {
            lemma_text_le_refl(rem@[0].source.render_s());
        }
        let mut j: usize = 1;
        while j < rem.len()
            invariant
                1 <= j <= rem@.len(),
                best < j,
                best_text@ == rem@[best as int].source.render_s(),
                forall|t: int| 0 <= t < j ==> move_le(#[trigger] rem@[t], rem@[best as int]),
            decreases rem@.len() - j,
        {
            let cand_text = rem[j].source.render();
            if text_le_exec(&best_text, &cand_text) {
                proof {
                    assert forall|t: int| 0 <= t < j + 1 implies move_le(
                        #[trigger] rem@[t],
                        rem@[j as int],
                    ) by {
                        if t < j {
                            lemma_text_le_trans(
                                rem@[t].source.render_s(),
                                rem@[best as int].source.render_s(),
                                rem@[j as int].source.render_s(),
                            );
                        } else {
                            lemma_text_le_refl(rem@[j as int].source.render_s());
                        }
                    }
                }
                best = j;
                best_text = cand_text;
            } else {
                proof {
                    lemma_text_le_total(
                        rem@[best as int].source.render_s(),
                        rem@[j as int].source.render_s(),
                    );
                }
            }
            j = j + 1;
        }
        let ghost oldrem = rem@;
        let ghost oldr = r@;
        let m = rem.remove(best);
        r.push(m);
        proof {
            oldrem.to_multiset_ensures();
            oldr.to_multiset_ensures();
            assert(rem@ == oldrem.remove(best as int));
            assert(rem@.to_multiset() == oldrem.to_multiset().remove(m));
            assert(r@.to_multiset() == oldr.to_multiset().insert(m));
            assert(oldrem.to_multiset().count(m) > 0);
            assert(r@.to_multiset().add(rem@.to_multiset()) =~= all);
            assert forall|i: int, j2: int|
                0 <= i < r@.len() && 0 <= j2 < rem@.len() implies move_le(
                #[trigger] rem@[j2],
                #[trigger] r@[i],
            ) by {
                if i < oldr.len() {
                    if j2 < best {
                        assert(rem@[j2] == oldrem[j2]);
                    } else {
                        assert(rem@[j2] == oldrem[j2 + 1]);
                    }
                } else {
                    assert(r@[i] == m);
                    if j2 < best {
                        assert(rem@[j2] == oldrem[j2]);
                    } else {
                        assert(rem@[j2] == oldrem[j2 + 1]);
                    }
                }
            }
        }
    }
    r
}

} // verus!
