//! A filesystem path modelled as a flag for absoluteness and a sequence of
//! plain segments, with the lexical operations the rewriter needs: parsing,
//! cleaning, joining, relative-path computation, common ancestors and
//! extension stripping. Segments are character vectors; `/` separates them in
//! the rendered form.
use vstd::prelude::*;

verus! {

use crate::text::{join_sep_s, join_with, seq_views, str_chars};

/// A path: absolute when it starts at the root, plus its segments in order.
/// Well-formed segments are non-empty and hold no separator.
pub struct FsPath {
    pub absolute: bool,
    pub segments: Vec<Vec<char>>,
}

/// The rendered text of a form: segments joined with `/`, with a leading
/// `/` when the form is absolute.
pub open spec fn render_form(abs: bool, segs: Seq<Seq<char>>) -> Seq<char> {
    if abs {
        seq!['/'] + join_sep_s(segs, '/')
    } else {
        join_sep_s(segs, '/')
    }
}

/// The two-character segment `..`.
pub open spec fn dotdot() -> Seq<char> {
    seq!['.', '.']
}

/// The one-character segment `.`.
pub open spec fn dot() -> Seq<char> {
    seq!['.']
}

impl FsPath {
    /// The segments as a sequence of character sequences.
    pub open spec fn segs(&self) -> Seq<Seq<char>> {
        seq_views(self.segments@)
    }

    /// Well-formed: every segment is non-empty and free of `/`.
    pub open spec fn wf(&self) -> bool {
        forall|i: int|
            0 <= i < self.segs().len() ==> #[trigger] self.segs()[i].len() > 0 && forall|j: int|
                0 <= j < self.segs()[i].len() ==> self.segs()[i][j] != '/'
    }

    /// Clean: well-formed and free of `.` and `..` segments; an absolute
    /// clean path points at one fixed entry.
    pub open spec fn is_clean(&self) -> bool {
        self.wf() && forall|i: int|
            0 <= i < self.segs().len() ==> #[trigger] self.segs()[i] != dot() && self.segs()[i]
                != dotdot()
    }

    /// The rendered text: segments joined with `/`, with a leading `/` when
    /// the path is absolute.
    pub open spec fn render_s(&self) -> Seq<char> {
        render_form(self.absolute, self.segs())
    }

    /// Renders the path as characters.
    pub fn render(&self) -> (r: Vec<char>)
        ensures
            r@ == self.render_s(),
    {
        let joined = join_with(&self.segments, '/');
        if self.absolute {
            let mut r: Vec<char> = Vec::new();
            r.push('/');
            let mut i: usize = 0;
            while i < joined.len()
                invariant
                    i <= joined@.len(),
                    r@ == seq!['/'] + joined@.subrange(0, i as int),
                decreases joined@.len() - i,
            {
                r.push(joined[i]);
                assert(r@ =~= seq!['/'] + joined@.subrange(0, i + 1));
                i = i + 1;
            }
            assert(joined@.subrange(0, joined@.len() as int) =~= joined@);
            r
        } else {
            joined
        }
    }

    /// The parent: the path without its last segment; a path with no
    /// segments has none.
    pub fn parent(&self) -> (r: Option<FsPath>)
        ensures
            r is Some <==> self.segs().len() > 0,
            r is Some ==> r->Some_0.absolute == self.absolute && r->Some_0.segs()
                == self.segs().drop_last(),
    {
        if self.segments.len() == 0 {
            None
        } else {
            let mut segs = copy_segs(&self.segments);
            segs.pop();
            let p = FsPath { absolute: self.absolute, segments: segs };
            proof {
                assert(p.segs() =~= self.segs().drop_last());
            }
            Some(p)
        }
    }

    /// Parses a path out of its text: a leading `/` marks it absolute, `/`
    /// separates segments, and empty segments (from doubled or trailing
    /// separators) are dropped.
    pub fn parse(s: &str) -> (r: FsPath)
        ensures
            r.absolute == (s@.len() > 0 && s@[0] == '/'),
            r.segs() == parse_segs_s(s@),
            r.wf(),
    {
        let chars = str_chars(s);
        FsPath::parse_chars(&chars)
    }

    /// Parses a path out of its characters, as `parse` does from text.
    pub fn parse_chars(chars: &Vec<char>) -> (r: FsPath)
        ensures
            r.absolute == (chars@.len() > 0 && chars@[0] == '/'),
            r.segs() == parse_segs_s(chars@),
            r.wf(),
    {
        let absolute = chars.len() > 0 && chars[0] == '/';
        let mut segments: Vec<Vec<char>> = Vec::new();
        let mut cur: Vec<char> = Vec::new();
        let mut j: usize = 0;
        assert(chars@.skip(0) =~= chars@);
        assert(cur@ =~= seg_prefix_s(chars@, 0));
        while j < chars.len()
            invariant
                j <= chars@.len(),
                cur@ == seg_prefix_s(chars@, j as int),
                cur_has_no_sep(cur@),
                seq_views(segments@) == closed_segs_s(chars@, j as int),
            decreases chars@.len() - j,
        {
            if chars[j] == '/' {
                if cur.len() > 0 {
                    let ghost olddeep = seq_views(segments@);
                    segments.push(cur);
                    proof {
                        assert(seq_views(segments@) =~= olddeep.push(seg_prefix_s(
                            chars@,
                            j as int,
                        )));
                    }
                    cur = Vec::new();
                } else {
                    cur = Vec::new();
                }
                assert(cur@ =~= Seq::<char>::empty());
            } else {
                cur.push(chars[j]);
            }
            proof {
                reveal_with_fuel(seg_prefix_s, 2);
                reveal_with_fuel(closed_segs_s, 2);
            }
            j = j + 1;
        }
        if cur.len() > 0 {
            let ghost olddeep = seq_views(segments@);
            segments.push(cur);
            proof {
                assert(seq_views(segments@) =~= olddeep.push(seg_prefix_s(
                    chars@,
                    chars@.len() as int,
                )));
            }
        }
        let r = FsPath { absolute, segments };
        proof {
            lemma_parse_segs_wf(chars@);
        }
        r
    }
}

/// The characters of the still-open segment after reading `s[..j]`: the
/// run since the last separator.
pub open spec fn seg_prefix_s(s: Seq<char>, j: int) -> Seq<char>
    decreases j,
{
    if j <= 0 {
        Seq::<char>::empty()
    } else if s[j - 1] == '/' {
        Seq::<char>::empty()
    } else {
        seg_prefix_s(s, j - 1).push(s[j - 1])
    }
}

/// The segments closed after reading `s[..j]`.
pub open spec fn closed_segs_s(s: Seq<char>, j: int) -> Seq<Seq<char>>
    decreases j,
{
    if j <= 0 {
        Seq::<Seq<char>>::empty()
    } else if s[j - 1] == '/' && seg_prefix_s(s, j - 1).len() > 0 {
        closed_segs_s(s, j - 1).push(seg_prefix_s(s, j - 1))
    } else {
        closed_segs_s(s, j - 1)
    }
}

/// All segments of the text `s`: the closed ones plus a non-empty open one.
pub open spec fn parse_segs_s(s: Seq<char>) -> Seq<Seq<char>> {
    if seg_prefix_s(s, s.len() as int).len() > 0 {
        closed_segs_s(s, s.len() as int).push(seg_prefix_s(s, s.len() as int))
    } else {
        closed_segs_s(s, s.len() as int)
    }
}

/// An open segment holds no separator.
pub open spec fn cur_has_no_sep(c: Seq<char>) -> bool {
    forall|j: int| 0 <= j < c.len() ==> c[j] != '/'
}

proof fn lemma_seg_prefix_wf(s: Seq<char>, j: int)
    ensures
        cur_has_no_sep(seg_prefix_s(s, j)),
    decreases j,
{
    if j <= 0 {
    } else if s[j - 1] == '/' {
    } else {
        lemma_seg_prefix_wf(s, j - 1);
    }
}

proof fn lemma_closed_segs_wf(s: Seq<char>, j: int)
    ensures
        forall|i: int|
            0 <= i < closed_segs_s(s, j).len() ==> #[trigger] closed_segs_s(s, j)[i].len() > 0
                && cur_has_no_sep(closed_segs_s(s, j)[i]),
    decreases j,
{
    if j <= 0 {
    } else {
        lemma_closed_segs_wf(s, j - 1);
        lemma_seg_prefix_wf(s, j - 1);
        if s[j - 1] == '/' && seg_prefix_s(s, j - 1).len() > 0 {
            let prev = closed_segs_s(s, j - 1);
            let now = closed_segs_s(s, j);
            assert forall|i: int|
                0 <= i < now.len() implies #[trigger] now[i].len() > 0 && cur_has_no_sep(
                now[i],
            ) by {
                if i < prev.len() {
                    assert(now[i] == prev[i]);
                } else {
                    assert(now[i] == seg_prefix_s(s, j - 1));
                }
            }
        }
    }
}

proof fn lemma_parse_segs_wf(s: Seq<char>)
    ensures
        forall|i: int|
            0 <= i < parse_segs_s(s).len() ==> #[trigger] parse_segs_s(s)[i].len() > 0
                && cur_has_no_sep(parse_segs_s(s)[i]),
{
    lemma_closed_segs_wf(s, s.len() as int);
    lemma_seg_prefix_wf(s, s.len() as int);
}

/// Copies one segment.
pub fn copy_seg(a: &Vec<char>) -> (r: Vec<char>)
    ensures
        r@ == a@,
{
    let mut r: Vec<char> = Vec::new();
    let mut i: usize = 0;
    while i < a.len()
        invariant
            i <= a@.len(),
            r@ == a@.subrange(0, i as int),
        decreases a@.len() - i,
    {
        r.push(a[i]);
        assert(r@ =~= a@.subrange(0, i + 1));
        i = i + 1;
    }
    assert(a@.subrange(0, a@.len() as int) =~= a@);
    r
}

/// Copies a segment list.
pub fn copy_segs(a: &Vec<Vec<char>>) -> (r: Vec<Vec<char>>)
    ensures
        seq_views(r@) == seq_views(a@),
        r@.len() == a@.len(),
{
    let mut r: Vec<Vec<char>> = Vec::new();
    let mut i: usize = 0;
    while i < a.len()
        invariant
            i <= a@.len(),
            seq_views(r@) == seq_views(a@).subrange(0, i as int),
        decreases a@.len() - i,
    {
        assert(seq_views(r@).len() == i);
        assert(r@.len() == i);
        let x = copy_seg(&a[i]);
        r.push(x);
        proof {
            assert(r@.len() == i + 1);
            assert(seq_views(r@).len() == i + 1);
            assert forall|j: int| 0 <= j < i + 1 implies seq_views(r@)[j] == seq_views(a@).subrange(
                0,
                i + 1,
            )[j] by {
                if j < i {
                    assert(seq_views(r@)[j] == r@[j]@);
                }
            }
            assert(seq_views(r@) =~= seq_views(a@).subrange(0, i + 1));
        }
        i = i + 1;
    }
    proof {
        assert(seq_views(a@).subrange(0, a@.len() as int) =~= seq_views(a@));
    }
    r
}

/// Whether two segments hold the same characters.
pub fn seg_eq(a: &Vec<char>, b: &Vec<char>) -> (r: bool)
    ensures
        r == (a@ == b@),
{
    if a.len() != b.len() {
        return false;
    }
    let mut i: usize = 0;
    while i < a.len()
        invariant
            i <= a@.len(),
            a@.len() == b@.len(),
            forall|j: int| 0 <= j < i ==> a@[j] == b@[j],
        decreases a@.len() - i,
    {
        if a[i] != b[i] {
            return false;
        }
        i = i + 1;
    }
    proof {
        assert(a@ =~= b@);
    }
    true
}

/// The length of the longest common prefix of two segment lists.
pub open spec fn cpl(a: Seq<Seq<char>>, b: Seq<Seq<char>>) -> int
    decreases a.len(),
{
    if a.len() == 0 || b.len() == 0 || a[0] != b[0] {
        0
    } else {
        1 + cpl(a.drop_first(), b.drop_first())
    }
}

proof fn lemma_cpl_step(a: Seq<Seq<char>>, b: Seq<Seq<char>>, i: int)
    requires
        0 <= i <= a.len(),
        0 <= i <= b.len(),
        forall|j: int| 0 <= j < i ==> a[j] == b[j],
    ensures
        cpl(a, b) == i + cpl(a.skip(i), b.skip(i)),
    decreases i,
{
    if i == 0 {
        assert(a.skip(0) =~= a);
        assert(b.skip(0) =~= b);
    } else {
        assert(a[0] == b[0]);
        assert(a.drop_first().skip(i - 1) =~= a.skip(i));
        assert(b.drop_first().skip(i - 1) =~= b.skip(i));
        assert(forall|j: int| 0 <= j < i - 1 ==> a.drop_first()[j] == b.drop_first()[j]);
        lemma_cpl_step(a.drop_first(), b.drop_first(), i - 1);
    }
}

/// The number of leading segments the two lists share.
pub fn common_prefix_len(a: &Vec<Vec<char>>, b: &Vec<Vec<char>>) -> (r: usize)
    ensures
        r == cpl(seq_views(a@), seq_views(b@)),
        r <= a@.len() && r <= b@.len(),
{
    let mut i: usize = 0;
    let n = if a.len() < b.len() {
        a.len()
    } else {
        b.len()
    };
    while i < n
        invariant
            i <= n,
            n <= a@.len() && n <= b@.len(),
            n == a@.len() || n == b@.len(),
            forall|j: int| 0 <= j < i ==> seq_views(a@)[j] == seq_views(b@)[j],
        decreases n - i,
    {
        if !seg_eq(&a[i], &b[i]) {
            proof {
                lemma_cpl_step(seq_views(a@), seq_views(b@), i as int);
                assert(seq_views(a@).skip(i as int)[0] == seq_views(a@)[i as int]);
                assert(seq_views(b@).skip(i as int)[0] == seq_views(b@)[i as int]);
            }
            return i;
        }
        i = i + 1;
    }
    proof {
        lemma_cpl_step(seq_views(a@), seq_views(b@), n as int);
        if n == a@.len() {
            assert(seq_views(a@).skip(n as int).len() == 0);
        } else {
            assert(seq_views(b@).skip(n as int).len() == 0);
        }
    }
    n
}

/// `n` copies of the `..` segment followed by `t` without its first `k`
/// segments: the lexical path from a base to a target.
pub open spec fn rel_segs_s(t: Seq<Seq<char>>, b: Seq<Seq<char>>) -> Seq<Seq<char>> {
    let k = cpl(t, b);
    Seq::new((b.len() - k) as nat, |i: int| dotdot()) + t.skip(k)
}

/// Whether a relative form from `b_abs` to `t_abs` exists: it does unless
/// the target is relative while the base is absolute.
pub open spec fn rel_defined(t_abs: bool, b_abs: bool) -> bool {
    t_abs || !b_abs
}

/// The relative form is itself absolute when the target is absolute and the
/// base is not: the target then stands on its own.
pub open spec fn rel_is_abs(t_abs: bool, b_abs: bool) -> bool {
    t_abs && !b_abs
}

/// The segments of the relative form from `b` to `t`.
pub open spec fn rel_path_segs(t_abs: bool, t: Seq<Seq<char>>, b_abs: bool, b: Seq<Seq<char>>) -> Seq<
    Seq<char>,
> {
    if t_abs != b_abs {
        t
    } else {
        rel_segs_s(t, b)
    }
}

/// The lexical path that reaches `target` from `base`: `..` segments up to
/// the shared ancestor, then down to the target. Undefined only when the
/// target is relative and the base absolute.
pub fn rel_path(target: &FsPath, base: &FsPath) -> (r: Option<FsPath>)
    ensures
        r is Some <==> rel_defined(target.absolute, base.absolute),
        r is Some ==> r->Some_0.absolute == rel_is_abs(target.absolute, base.absolute),
        r is Some ==> r->Some_0.segs() == rel_path_segs(
            target.absolute,
            target.segs(),
            base.absolute,
            base.segs(),
        ),
{
    if !target.absolute && base.absolute {
        return None;
    }
    if target.absolute && !base.absolute {
        return Some(FsPath { absolute: true, segments: copy_segs(&target.segments) });
    }
    let k = common_prefix_len(&target.segments, &base.segments);
    let nd = base.segments.len() - k;
    let mut segments: Vec<Vec<char>> = Vec::new();
    let mut i: usize = 0;
    while i < nd
        invariant
            i <= nd,
            nd == base.segs().len() - k,
            segments@.len() == i,
            forall|j: int| 0 <= j < i ==> #[trigger] seq_views(segments@)[j] == dotdot(),
        decreases nd - i,
    {
        let ghost olds = segments@;
        let mut d: Vec<char> = Vec::new();
        d.push('.');
        d.push('.');
        assert(d@ =~= dotdot());
        segments.push(d);
        proof {
            assert forall|j: int| 0 <= j < i + 1 implies #[trigger] seq_views(segments@)[j]
                == dotdot() by {
                assert(seq_views(segments@)[j] == segments@[j]@);
                if j < i {
                    assert(segments@[j] == olds[j]);
                    assert(seq_views(olds)[j] == olds[j]@);
                }
            }
        }
        i = i + 1;
    }
    let mut i: usize = k;
    while i < target.segments.len()
        invariant
            k <= i <= target.segs().len(),
            target.segs().len() == target.segments@.len(),
            nd == base.segs().len() - k,
            segments@.len() == nd + i - k,
            forall|j: int| 0 <= j < nd ==> #[trigger] seq_views(segments@)[j] == dotdot(),
            forall|j: int|
                nd <= j < segments@.len() ==> #[trigger] seq_views(segments@)[j]
                    == target.segs()[k + (j - nd)],
        decreases target.segs().len() - i,
    {
        let ghost olds = segments@;
        let x = copy_seg(&target.segments[i]);
        segments.push(x);
        proof {
            assert forall|j: int| 0 <= j < olds.len() + 1 implies #[trigger] seq_views(segments@)[j]
                == (if j < nd {
                dotdot()
            } else {
                target.segs()[k + (j - nd)]
            }) by {
                assert(seq_views(segments@)[j] == segments@[j]@);
                if j < olds.len() {
                    assert(segments@[j] == olds[j]);
                    assert(seq_views(olds)[j] == olds[j]@);
                } else {
                    assert(segments@[j] == x);
                }
            }
        }
        i = i + 1;
    }
    proof {
        let goal = rel_segs_s(target.segs(), base.segs());
        assert(goal.len() == nd + (target.segs().len() - k));
        assert forall|j: int| 0 <= j < goal.len() implies goal[j] == seq_views(segments@)[j] by {
            if j < nd {
                assert(goal[j] == dotdot());
            } else {
                assert(goal[j] == target.segs().skip(k as int)[j - nd]);
                assert(target.segs().skip(k as int)[j - nd] == target.segs()[k + (j - nd)]);
            }
        }
        assert(seq_views(segments@) =~= rel_segs_s(target.segs(), base.segs()));
    }
    Some(FsPath { absolute: false, segments })
}

/// The longest shared ancestor of two paths: their component-wise common
/// prefix. Paths of unlike absoluteness share nothing, and the result is
/// the empty relative path.
pub fn find_common_parent(p1: &FsPath, p2: &FsPath) -> (r: FsPath)
    ensures
        r.absolute == (p1.absolute && p2.absolute),
        p1.absolute == p2.absolute ==> r.segs() == p1.segs().subrange(
            0,
            cpl(p1.segs(), p2.segs()),
        ),
        p1.absolute != p2.absolute ==> r.segs().len() == 0,
{
    if p1.absolute != p2.absolute {
        let segments: Vec<Vec<char>> = Vec::new();
        proof {
            assert(seq_views(segments@) =~= Seq::<Seq<char>>::empty());
        }
        return FsPath { absolute: false, segments };
    }
    let k = common_prefix_len(&p1.segments, &p2.segments);
    let mut segments: Vec<Vec<char>> = Vec::new();
    let mut i: usize = 0;
    while i < k
        invariant
            i <= k <= p1.segs().len(),
            p1.segs().len() == p1.segments@.len(),
            seq_views(segments@) == p1.segs().subrange(0, i as int),
        decreases k - i,
    {
        assert(seq_views(segments@).len() == i);
        assert(segments@.len() == i);
        segments.push(copy_seg(&p1.segments[i]));
        proof {
            assert(seq_views(segments@) =~= p1.segs().subrange(0, i + 1));
        }
        i = i + 1;
    }
    FsPath { absolute: p1.absolute, segments }
}

/// The last index of `'.'` in a segment, or `-1` when there is none.
pub open spec fn last_dot_s(seg: Seq<char>) -> int
    decreases seg.len(),
{
    if seg.len() == 0 {
        -1
    } else if seg[seg.len() - 1] == '.' {
        seg.len() - 1
    } else {
        last_dot_s(seg.drop_last())
    }
}

/// A segment with its extension stripped: everything after the last `.` is
/// dropped when that dot is not the first character; the `..` segment and
/// dot-less or dot-led segments stay whole.
pub open spec fn seg_stem_s(seg: Seq<char>) -> Seq<char> {
    if seg == dotdot() {
        seg
    } else {
        let d = last_dot_s(seg);
        if d > 0 {
            seg.subrange(0, d)
        } else {
            seg
        }
    }
}

/// A segment list with the extension stripped from its last segment.
pub open spec fn strip_last_s(segs: Seq<Seq<char>>) -> Seq<Seq<char>> {
    if segs.len() == 0 {
        segs
    } else {
        segs.update(segs.len() - 1, seg_stem_s(segs.last()))
    }
}

/// The last index holding `'.'`, or none.
fn last_dot(seg: &Vec<char>) -> (r: Option<usize>)
    ensures
        r is Some ==> r->Some_0 == last_dot_s(seg@) && r->Some_0 < seg@.len(),
        r is None ==> last_dot_s(seg@) == -1,
{
    let mut i: usize = seg.len();
    assert(seg@.subrange(0, seg@.len() as int) =~= seg@);
    while i > 0
        invariant
            i <= seg@.len(),
            last_dot_s(seg@) == last_dot_s(seg@.subrange(0, i as int)),
        decreases i,
    {
        proof {
            assert(seg@.subrange(0, i as int).drop_last() =~= seg@.subrange(0, i - 1));
        }
        if seg[i - 1] == '.' {
            return Some(i - 1);
        }
        i = i - 1;
    }
    proof {
        assert(seg@.subrange(0, 0) =~= Seq::<char>::empty());
    }
    None
}

/// Strips the extension from the last segment of a relative or absolute
/// form, leaving a `..` tail and extension-less segments whole.
pub fn strip_extension(p: &FsPath) -> (r: FsPath)
    ensures
        r.absolute == p.absolute,
        r.segs() == strip_last_s(p.segs()),
{
    if p.segments.len() == 0 {
        let r = FsPath { absolute: p.absolute, segments: copy_segs(&p.segments) };
        return r;
    }
    let mut segments = copy_segs(&p.segments);
    let n = segments.len();
    let last = &p.segments[n - 1];
    let is_dotdot = last.len() == 2 && last[0] == '.' && last[1] == '.';
    proof {
        if is_dotdot {
            assert(p.segs()[n - 1] =~= dotdot());
        } else if p.segs()[n - 1] =~= dotdot() {
            assert(last@ == dotdot());
            assert(last@.len() == 2 && last@[0] == '.' && last@[1] == '.');
        }
    }
    if !is_dotdot {
        let stem = match last_dot(last) {
            Some(d) if d > 0 => {
                let mut st: Vec<char> = Vec::new();
                let mut i: usize = 0;
                while i < d
                    invariant
                        i <= d,
                        d < last@.len(),
                        st@ == last@.subrange(0, i as int),
                    decreases d - i,
                {
                    st.push(last[i]);
                    assert(st@ =~= last@.subrange(0, i + 1));
                    i = i + 1;
                }
                st
            },
            _ => copy_seg(last),
        };
        segments.set(n - 1, stem);
    }
    let r = FsPath { absolute: p.absolute, segments };
    proof {
        assert(r.segs() =~= strip_last_s(p.segs()));
    }
    r
}


/// One step of lexical cleaning folded over the remaining segments: empty
/// and `.` segments vanish, `..` pops the last kept segment where one stands
/// to pop, vanishes at the root of an absolute path, and is kept at the head
/// of a relative one.
pub open spec fn clean_rec(abs: bool, acc: Seq<Seq<char>>, rest: Seq<Seq<char>>) -> Seq<Seq<char>>
    decreases rest.len(),
{
    if rest.len() == 0 {
        acc
    } else {
        let s = rest[0];
        if s.len() == 0 || s == dot() {
            clean_rec(abs, acc, rest.drop_first())
        } else if s == dotdot() {
            if acc.len() > 0 && acc.last() != dotdot() {
                clean_rec(abs, acc.drop_last(), rest.drop_first())
            } else if abs {
                clean_rec(abs, acc, rest.drop_first())
            } else {
                clean_rec(abs, acc.push(s), rest.drop_first())
            }
        } else {
            clean_rec(abs, acc.push(s), rest.drop_first())
        }
    }
}

/// The lexically cleaned form of a segment list.
pub open spec fn clean_s(abs: bool, segs: Seq<Seq<char>>) -> Seq<Seq<char>> {
    clean_rec(abs, Seq::<Seq<char>>::empty(), segs)
}

/// Whether a segment is the two-character `..`.
fn is_dotdot(seg: &Vec<char>) -> (r: bool)
    ensures
        r == (seg@ == dotdot()),
{
    let r = seg.len() == 2 && seg[0] == '.' && seg[1] == '.';
    proof {
        if r {
            assert(seg@ =~= dotdot());
        } else if seg@ == dotdot() {
            assert(seg@.len() == 2 && seg@[0] == '.' && seg@[1] == '.');
        }
    }
    r
}

/// Whether a segment is the one-character `.`.
fn is_dot(seg: &Vec<char>) -> (r: bool)
    ensures
        r == (seg@ == dot()),
{
    let r = seg.len() == 1 && seg[0] == '.';
    proof {
        if r {
            assert(seg@ =~= dot());
        } else if seg@ == dot() {
            assert(seg@.len() == 1 && seg@[0] == '.');
        }
    }
    r
}

/// Cleans a path lexically: drops empty and `.` segments and resolves `..`
/// against the segments before it, as far as that goes.
pub fn clean(p: &FsPath) -> (r: FsPath)
    ensures
        r.absolute == p.absolute,
        r.segs() == clean_s(p.absolute, p.segs()),
{
    let mut acc: Vec<Vec<char>> = Vec::new();
    let mut i: usize = 0;
    assert(p.segs().skip(0) =~= p.segs());
    assert(seq_views(acc@) =~= Seq::<Seq<char>>::empty());
    while i < p.segments.len()
        invariant
            i <= p.segs().len(),
            p.segs().len() == p.segments@.len(),
            clean_rec(p.absolute, seq_views(acc@), p.segs().skip(i as int)) == clean_s(
                p.absolute,
                p.segs(),
            ),
        decreases p.segs().len() - i,
    {
        let ghost rest = p.segs().skip(i as int);
        let ghost oldacc = acc@;
        proof {
            assert(rest[0] == p.segs()[i as int]);
            assert(rest.drop_first() =~= p.segs().skip(i + 1));
            assert(seq_views(acc@).len() == acc@.len());
        }
        let seg = &p.segments[i];
        assert(seg@ == p.segs()[i as int]);
        if seg.len() == 0 || is_dot(seg) {
            // vanishes
        } else if is_dotdot(seg) {
            let pop = if acc.len() > 0 {
                !is_dotdot(&acc[acc.len() - 1])
            } else {
                false
            };
            proof {
                if acc@.len() > 0 {
                    assert(seq_views(acc@).last() == acc@[acc@.len() - 1]@);
                }
            }
            if pop {
                acc.pop();
                proof {
                    assert(seq_views(acc@) =~= seq_views(oldacc).drop_last());
                }
            } else if p.absolute {
                // vanishes at the root
            } else {
                let x = copy_seg(seg);
                acc.push(x);
                proof {
                    assert(seq_views(acc@) =~= seq_views(oldacc).push(p.segs()[i as int]));
                }
            }
        } else {
            let x = copy_seg(seg);
            acc.push(x);
            proof {
                assert(seq_views(acc@) =~= seq_views(oldacc).push(p.segs()[i as int]));
            }
        }
        i = i + 1;
    }
    proof {
        assert(p.segs().skip(p.segs().len() as int) =~= Seq::<Seq<char>>::empty());
    }
    FsPath { absolute: p.absolute, segments: acc }
}

/// The path `p` taken from the working directory `cwd` and cleaned: an
/// absolute `p` stands alone, a relative one is appended to `cwd`.
pub fn absolutize(p: &FsPath, cwd: &FsPath) -> (r: FsPath)
    ensures
        p.absolute ==> r.absolute && r.segs() == clean_s(true, p.segs()),
        !p.absolute ==> r.absolute == cwd.absolute && r.segs() == clean_s(
            cwd.absolute,
            cwd.segs() + p.segs(),
        ),
{
    if p.absolute {
        clean(p)
    } else {
        let mut segments = copy_segs(&cwd.segments);
        let mut i: usize = 0;
        assert(seq_views(segments@) + p.segs().subrange(0, 0) =~= cwd.segs());
        while i < p.segments.len()
            invariant
                i <= p.segs().len(),
                p.segs().len() == p.segments@.len(),
                seq_views(segments@) == cwd.segs() + p.segs().subrange(0, i as int),
            decreases p.segs().len() - i,
        {
            assert(seq_views(segments@).len() == segments@.len());
            assert(segments@.len() == cwd.segs().len() + i);
            let ghost olds = segments@;
            let x = copy_seg(&p.segments[i]);
            segments.push(x);
            proof {
                assert forall|j: int| 0 <= j < olds.len() + 1 implies #[trigger] seq_views(
                    segments@,
                )[j] == (cwd.segs() + p.segs().subrange(0, i + 1))[j] by {
                    assert(seq_views(segments@)[j] == segments@[j]@);
                    if j < olds.len() {
                        assert(segments@[j] == olds[j]);
                        assert(seq_views(olds)[j] == olds[j]@);
                    } else {
                        assert(segments@[j] == x);
                        assert(x@ == p.segs()[i as int]);
                    }
                }
                assert(seq_views(segments@) =~= cwd.segs() + p.segs().subrange(0, i + 1));
            }
            i = i + 1;
        }
        proof {
            assert(cwd.segs() + p.segs().subrange(0, p.segs().len() as int) =~= cwd.segs()
                + p.segs());
        }
        let joined = FsPath { absolute: cwd.absolute, segments };
        clean(&joined)
    }
}


} // verus!
