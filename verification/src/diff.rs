//! The line diff between original and candidate content: an op model over
//! line ranges, a trusted call into the diff algorithm, grouping of ops into
//! context-bounded hunks, and the applier that splices accepted edits into a
//! final line buffer.
use vstd::prelude::*;

verus! {

use crate::text::seq_views;

/// What one diff op does to the line ranges it covers.
#[derive(Clone, Copy, PartialEq, Eq, Structural, Debug)]
pub enum OpTag {
    Equal,
    Delete,
    Insert,
    Replace,
}

/// One diff op: a tag and the half-open line ranges it covers in the
/// original (`old_start..old_end`) and the candidate (`new_start..new_end`).
#[derive(Clone, Copy, PartialEq, Eq, Structural, Debug)]
pub struct LineOp {
    pub tag: OpTag,
    pub old_start: usize,
    pub old_end: usize,
    pub new_start: usize,
    pub new_end: usize,
}

/// An op's ranges are in bounds and fit its tag: `Equal` covers ranges of
/// one length with the same lines, `Delete` covers no candidate lines,
/// `Insert` no original lines.
pub open spec fn op_wf(op: LineOp, old: Seq<Seq<char>>, new: Seq<Seq<char>>) -> bool {
    &&& op.old_start <= op.old_end <= old.len()
    &&& op.new_start <= op.new_end <= new.len()
    &&& (op.tag is Equal ==> op.old_end - op.old_start == op.new_end - op.new_start && forall|
        k: int,
    |
        0 <= k < op.old_end - op.old_start ==> #[trigger] old[op.old_start + k] == new[op.new_start
            + k])
    &&& (op.tag is Delete ==> op.new_start == op.new_end)
    &&& (op.tag is Insert ==> op.old_start == op.old_end)
}

/// A full op list: ops in order, starting at the origin of both sequences,
/// meeting exactly, and ending at both ends; empty only for two empty
/// sequences.
pub open spec fn ops_wf(ops: Seq<LineOp>, old: Seq<Seq<char>>, new: Seq<Seq<char>>) -> bool {
    &&& (ops.len() == 0 ==> old.len() == 0 && new.len() == 0)
    &&& (ops.len() > 0 ==> ops[0].old_start == 0 && ops[0].new_start == 0 && ops.last().old_end
        == old.len() && ops.last().new_end == new.len())
    &&& (forall|i: int| 0 <= i < ops.len() ==> op_wf(#[trigger] ops[i], old, new))
    &&& (forall|i: int|
        0 <= i < ops.len() - 1 ==> (#[trigger] ops[i + 1]).old_start == ops[i].old_end && ops[i
            + 1].new_start == ops[i].new_end)
}

/// The ops of the line diff between two sequences. The diff algorithm is
/// deterministic: its result depends on its arguments alone, so two diffs
/// of the same lines are the same ops.
pub uninterp spec fn diff_of(old: Seq<Seq<char>>, new: Seq<Seq<char>>) -> Seq<LineOp>;

/// Relies on `similar::capture_diff_slices` (Myers): the returned ops stand
/// in order, cover the old and the new sequence completely and contiguously,
/// and their tags describe the transformation of the old lines into the new
/// ones, `Equal` ops covering identical lines. The algorithm draws on
/// nothing but its arguments, so its result carries the name `diff_of`.
#[verifier::external_body]
pub fn diff_lines(old: &Vec<Vec<char>>, new: &Vec<Vec<char>>) -> (ops: Vec<LineOp>)
    ensures
        ops@ == diff_of(seq_views(old@), seq_views(new@)),
        ops_wf(ops@, seq_views(old@), seq_views(new@)),
{
    similar::capture_diff_slices(similar::Algorithm::Myers, old.as_slice(), new.as_slice())
        .iter()
        .map(|op| {
            let (tag, r1, r2) = op.as_tag_tuple();
            let tag = match tag {
                similar::DiffTag::Equal => OpTag::Equal,
                similar::DiffTag::Delete => OpTag::Delete,
                similar::DiffTag::Insert => OpTag::Insert,
                similar::DiffTag::Replace => OpTag::Replace,
            };
            LineOp { tag, old_start: r1.start, old_end: r1.end, new_start: r2.start, new_end: r2.end }
        })
        .collect()
}

/// The non-`Equal` ops of a list, in order: the edits it calls for.
pub open spec fn changes_of(ops: Seq<LineOp>) -> Seq<LineOp>
    decreases ops.len(),
{
    if ops.len() == 0 {
        Seq::<LineOp>::empty()
    } else if ops[0].tag is Equal {
        changes_of(ops.drop_first())
    } else {
        seq![ops[0]] + changes_of(ops.drop_first())
    }
}

/// Appending one op appends its edit, or nothing for `Equal`.
pub proof fn lemma_changes_snoc(ops: Seq<LineOp>, x: LineOp)
    ensures
        x.tag is Equal ==> changes_of(ops.push(x)) == changes_of(ops),
        !(x.tag is Equal) ==> changes_of(ops.push(x)) == changes_of(ops) + seq![x],
    decreases ops.len(),
{
    reveal_with_fuel(changes_of, 3);
    if ops.len() == 0 {
        assert(ops.push(x).drop_first() =~= Seq::<LineOp>::empty());
        assert(changes_of(Seq::<LineOp>::empty()) =~= Seq::<LineOp>::empty());
        assert(changes_of(ops.push(x).drop_first()) == changes_of(Seq::<LineOp>::empty()));
        if x.tag is Equal {
        } else {
            assert(changes_of(ops.push(x)) =~= changes_of(ops) + seq![x]);
        }
    } else {
        lemma_changes_snoc(ops.drop_first(), x);
        assert(ops.push(x).drop_first() =~= ops.drop_first().push(x));
        if x.tag is Equal {
        } else {
            if ops[0].tag is Equal {
            } else {
                assert(changes_of(ops.push(x)) =~= changes_of(ops) + seq![x]);
            }
        }
    }
}

/// One reviewable hunk: a contiguous run of ops with bounded equal context
/// around its edits.
pub struct Hunk {
    pub ops: Vec<LineOp>,
}

/// A hunk is non-empty, all its ops are well formed, and consecutive ops
/// meet exactly.
pub open spec fn hunk_wf(h: Hunk, old: Seq<Seq<char>>, new: Seq<Seq<char>>) -> bool {
    &&& h.ops@.len() > 0
    &&& (forall|i: int| 0 <= i < h.ops@.len() ==> op_wf(#[trigger] h.ops@[i], old, new))
    &&& (forall|i: int|
        0 <= i < h.ops@.len() - 1 ==> (#[trigger] h.ops@[i + 1]).old_start == h.ops@[i].old_end
            && h.ops@[i + 1].new_start == h.ops@[i].new_end)
}

/// A hunk list: each hunk well formed, and each hunk's ops ending at or
/// before where the next hunk's begin.
pub open spec fn hunks_wf(hs: Seq<Hunk>, old: Seq<Seq<char>>, new: Seq<Seq<char>>) -> bool {
    &&& (forall|i: int| 0 <= i < hs.len() ==> hunk_wf(#[trigger] hs[i], old, new))
    &&& (forall|i: int|
        0 <= i < hs.len() - 1 ==> (#[trigger] hs[i + 1]).ops@[0].old_start
            >= hs[i].ops@.last().old_end && hs[i + 1].ops@[0].new_start
            >= hs[i].ops@.last().new_end)
}

/// The edits of the hunks from index `i` on, in order.
pub open spec fn hunk_changes_from(hs: Seq<Hunk>, i: int) -> Seq<LineOp>
    decreases hs.len() - i,
{
    if i < 0 || i >= hs.len() {
        Seq::<LineOp>::empty()
    } else {
        changes_of(hs[i].ops@) + hunk_changes_from(hs, i + 1)
    }
}

/// A truncated equal op: the `take` last lines, or the `take` first lines.
fn equal_tail(op: LineOp, take: usize) -> (r: LineOp)
    requires
        op.tag is Equal,
        take <= op.old_end - op.old_start,
        take <= op.new_end - op.new_start,
    ensures
        r.tag is Equal,
        r.old_end == op.old_end && r.old_start == op.old_end - take,
        r.new_end == op.new_end && r.new_start == op.new_end - take,
{
    LineOp {
        tag: OpTag::Equal,
        old_start: op.old_end - take,
        old_end: op.old_end,
        new_start: op.new_end - take,
        new_end: op.new_end,
    }
}

/// The first `take` lines of an equal op.
fn equal_head(op: LineOp, take: usize) -> (r: LineOp)
    requires
        op.tag is Equal,
        take <= op.old_end - op.old_start,
        take <= op.new_end - op.new_start,
    ensures
        r.tag is Equal,
        r.old_start == op.old_start && r.old_end == op.old_start + take,
        r.new_start == op.new_start && r.new_end == op.new_start + take,
{
    LineOp {
        tag: OpTag::Equal,
        old_start: op.old_start,
        old_end: op.old_start + take,
        new_start: op.new_start,
        new_end: op.new_start + take,
    }
}

/// A sub-range of an equal op is a well-formed equal op.
proof fn lemma_equal_sub_wf(
    op: LineOp,
    sub: LineOp,
    old: Seq<Seq<char>>,
    new: Seq<Seq<char>>,
)
    requires
        op_wf(op, old, new),
        op.tag is Equal,
        sub.tag is Equal,
        op.old_start <= sub.old_start <= sub.old_end <= op.old_end,
        op.new_start <= sub.new_start <= sub.new_end <= op.new_end,
        sub.old_start - op.old_start == sub.new_start - op.new_start,
        sub.old_end - sub.old_start == sub.new_end - sub.new_start,
    ensures
        op_wf(sub, old, new),
{
    assert forall|k: int| 0 <= k < sub.old_end - sub.old_start implies #[trigger] old[sub.old_start
        + k] == new[sub.new_start + k] by {
        let d = sub.old_start - op.old_start;
        assert(old[op.old_start + (d + k)] == new[op.new_start + (d + k)]);
    }
}

/// One hunk's context is bounded by the radius: an equal run at either
/// edge holds at most `radius` lines, and an equal run kept inside holds
/// fewer than twice the radius — edits separated by at least that much
/// fall into different hunks.
pub open spec fn hunk_context_ok(h: Hunk, radius: int) -> bool {
    &&& (h.ops@.len() > 0 && h.ops@[0].tag is Equal ==> h.ops@[0].old_end - h.ops@[0].old_start
        <= radius)
    &&& (h.ops@.len() > 0 && h.ops@.last().tag is Equal ==> h.ops@.last().old_end
        - h.ops@.last().old_start <= radius)
    &&& (forall|i: int|
        0 < i < h.ops@.len() - 1 && (#[trigger] h.ops@[i]).tag is Equal ==> h.ops@[i].old_end
            - h.ops@[i].old_start < 2 * radius)
}

/// Groups a full op list into hunks: every edit falls into exactly one
/// hunk, in order, and every hunk holds at least one edit. An equal run
/// shorter than twice the radius stays inside a hunk, so that the context
/// of neighbouring hunks never overlaps; a longer one closes the hunk,
/// leaving at most `radius` lines of context at either edge.
pub fn group_hunks(ops: &Vec<LineOp>, radius: usize, old: &Vec<Vec<char>>, new: &Vec<Vec<char>>) -> (hunks:
    Vec<Hunk>)
    requires
        ops_wf(ops@, seq_views(old@), seq_views(new@)),
    ensures
        hunks_wf(hunks@, seq_views(old@), seq_views(new@)),
        hunk_changes_from(hunks@, 0) == changes_of(ops@),
        forall|i: int| 0 <= i < hunks@.len() ==> hunk_context_ok(#[trigger] hunks@[i], radius as int),
        forall|i: int| 0 <= i < hunks@.len() ==> changes_of((#[trigger] hunks@[i]).ops@).len() > 0,
{
    let ghost o = seq_views(old@);
    let ghost n = seq_views(new@);
    let mut hunks: Vec<Hunk> = Vec::new();
    let mut cur: Vec<LineOp> = Vec::new();
    let mut in_hunk: bool = false;
    let mut pending: Option<LineOp> = None;
    let mut idx: usize = 0;
    proof {
        assert(changes_of(ops@.subrange(0, 0)) =~= Seq::<LineOp>::empty());
        assert(hunk_changes_from(hunks@, 0) =~= Seq::<LineOp>::empty());
        assert(changes_of(cur@) =~= Seq::<LineOp>::empty());
    }
    while idx < ops.len()
        invariant
            idx <= ops@.len(),
            ops_wf(ops@, o, n),
            o == seq_views(old@),
            n == seq_views(new@),
            hunks_wf(hunks@, o, n),
            in_hunk ==> cur@.len() > 0,
            !in_hunk ==> cur@.len() == 0,
            in_hunk ==> changes_of(cur@).len() > 0,
            cur@.len() > 0 && cur@[0].tag is Equal ==> cur@[0].old_end - cur@[0].old_start
                <= radius,
            forall|i: int|
                0 < i < cur@.len() && (#[trigger] cur@[i]).tag is Equal ==> cur@[i].old_end
                    - cur@[i].old_start < 2 * radius,
            forall|i: int|
                0 <= i < hunks@.len() ==> hunk_context_ok(#[trigger] hunks@[i], radius as int),
            forall|i: int|
                0 <= i < hunks@.len() ==> changes_of((#[trigger] hunks@[i]).ops@).len() > 0,
            forall|i: int| 0 <= i < cur@.len() ==> op_wf(#[trigger] cur@[i], o, n),
            forall|i: int|
                0 <= i < cur@.len() - 1 ==> (#[trigger] cur@[i + 1]).old_start == cur@[i].old_end
                    && cur@[i + 1].new_start == cur@[i].new_end,
            in_hunk && idx < ops@.len() ==> cur@.last().old_end == ops@[idx as int].old_start
                && cur@.last().new_end == ops@[idx as int].new_start,
            pending is Some ==> op_wf(pending->Some_0, o, n) && pending->Some_0.tag is Equal,
            pending is Some && idx < ops@.len() ==> pending->Some_0.old_end
                == ops@[idx as int].old_start && pending->Some_0.new_end
                == ops@[idx as int].new_start,
            in_hunk ==> pending is None,
            !in_hunk && pending is None ==> hunks@.len() == 0,
            !in_hunk && pending is Some && hunks@.len() > 0 ==> {
                let p = pending->Some_0;
                let plen = p.old_end - p.old_start;
                let take = if plen < radius { plen } else { radius as int };
                hunks@.last().ops@.last().old_end <= p.old_end - take
                    && hunks@.last().ops@.last().new_end <= p.new_end - take
            },
            in_hunk && hunks@.len() > 0 ==> hunks@.last().ops@.last().old_end
                <= cur@[0].old_start && hunks@.last().ops@.last().new_end <= cur@[0].new_start,
            hunk_changes_from(hunks@, 0) + changes_of(cur@) == changes_of(
                ops@.subrange(0, idx as int),
            ),
        decreases ops@.len() - idx,
    {
        let op = ops[idx];
        proof {
            assert(op_wf(op, o, n));
            assert(ops@.subrange(0, idx as int).push(op) =~= ops@.subrange(0, idx + 1));
            lemma_changes_snoc(ops@.subrange(0, idx as int), op);
        }
        if matches!(op.tag, OpTag::Equal) {
            let len = op.old_end - op.old_start;
            if in_hunk {
                if len / 2 < radius {
                    let ghost oldcur = cur@;
                    cur.push(op);
                    proof {
                        lemma_changes_snoc(oldcur, op);
                    }
                } else {
                    let head = equal_head(op, radius);
                    proof {
                        lemma_equal_sub_wf(op, head, o, n);
                    }
                    let ghost oldcur = cur@;
                    cur.push(head);
                    proof {
                        lemma_changes_snoc(oldcur, head);
                    }
                    let ghost oldhunks = hunks@;
                    let done = Hunk { ops: cur };
                    hunks.push(done);
                    cur = Vec::new();
                    in_hunk = false;
                    pending = Some(op);
                    proof {
                        lemma_hunk_changes_snoc(oldhunks, done);
                        assert(changes_of(cur@) =~= Seq::<LineOp>::empty());
                        assert(hunks@.last() == done);
                        assert(done.ops@.last() == head);
                        assert(hunk_context_ok(done, radius as int));
                    }
                }
            } else {
                pending = Some(op);
            }
        } else {
            if !in_hunk {
                match pending {
                    Some(p) => {
                        let plen = p.old_end - p.old_start;
                        let take = if plen < radius {
                            plen
                        } else {
                            radius
                        };
                        let tail = equal_tail(p, take);
                        proof {
                            lemma_equal_sub_wf(p, tail, o, n);
                        }
                        let ghost oldcur = cur@;
                        cur.push(tail);
                        proof {
                            lemma_changes_snoc(oldcur, tail);
                            assert(changes_of(cur@) =~= Seq::<LineOp>::empty());
                        }
                    },
                    None => {},
                }
                pending = None;
                in_hunk = true;
            }
            let ghost oldcur = cur@;
            cur.push(op);
            proof {
                lemma_changes_snoc(oldcur, op);
            }
        }
        idx = idx + 1;
    }
    if in_hunk {
        let last = cur[cur.len() - 1];
        if matches!(last.tag, OpTag::Equal) && last.old_end - last.old_start > radius {
            let ghost oldcur = cur@;
            proof {
                assert(oldcur =~= oldcur.drop_last().push(oldcur.last()));
                lemma_changes_snoc(oldcur.drop_last(), oldcur.last());
                if oldcur.len() == 1 {
                    assert(changes_of(oldcur.drop_last()) =~= Seq::<LineOp>::empty());
                    assert(changes_of(oldcur).len() == 0);
                }
            }
            cur.pop();
            let head = equal_head(last, radius);
            proof {
                lemma_equal_sub_wf(last, head, o, n);
                lemma_changes_snoc(cur@, head);
            }
            cur.push(head);
            proof {
                assert(cur@.last() == head);
                assert(changes_of(cur@) == changes_of(oldcur));
                assert forall|i: int|
                    0 <= i < cur@.len() - 1 implies (#[trigger] cur@[i + 1]).old_start
                    == cur@[i].old_end && cur@[i + 1].new_start == cur@[i].new_end by {
                    assert(cur@[i] == oldcur[i]);
                    if i + 1 < cur@.len() - 1 {
                        assert(cur@[i + 1] == oldcur[i + 1]);
                    }
                }
            }
        }
        let ghost oldhunks = hunks@;
        let done = Hunk { ops: cur };
        hunks.push(done);
        proof {
            lemma_hunk_changes_snoc(oldhunks, done);
            assert(hunk_context_ok(done, radius as int));
        }
    }
    proof {
        assert(ops@.subrange(0, ops@.len() as int) =~= ops@);
    }
    hunks
}

/// Appending a hunk appends its edits.
proof fn lemma_hunk_changes_snoc(hs: Seq<Hunk>, h: Hunk)
    ensures
        hunk_changes_from(hs.push(h), 0) == hunk_changes_from(hs, 0) + changes_of(h.ops@),
    decreases hs.len(),
{
    lemma_hunk_changes_snoc_from(hs, h, 0);
}

proof fn lemma_hunk_changes_snoc_from(hs: Seq<Hunk>, h: Hunk, i: int)
    requires
        0 <= i <= hs.len(),
    ensures
        hunk_changes_from(hs.push(h), i) == hunk_changes_from(hs, i) + changes_of(h.ops@),
    decreases hs.len() - i,
{
    if i == hs.len() {
        assert(hunk_changes_from(hs.push(h), i) == changes_of(hs.push(h)[i].ops@)
            + hunk_changes_from(hs.push(h), i + 1));
        assert(hs.push(h)[i] == h);
        assert(hunk_changes_from(hs.push(h), i + 1) =~= Seq::<LineOp>::empty());
        assert(hunk_changes_from(hs, i) =~= Seq::<LineOp>::empty());
        assert(hunk_changes_from(hs.push(h), i) =~= hunk_changes_from(hs, i) + changes_of(h.ops@));
    } else {
        lemma_hunk_changes_snoc_from(hs, h, i + 1);
        assert(hs.push(h)[i] == hs[i]);
        assert(hunk_changes_from(hs.push(h), i) =~= hunk_changes_from(hs, i) + changes_of(h.ops@));
    }
}

/// An edit list fit for application from lower bound `lb` on: each edit's
/// ranges are in bounds, and each begins at or after where the one before it
/// ended.
pub open spec fn ordered_from(es: Seq<LineOp>, lb: int, old: Seq<Seq<char>>, new: Seq<Seq<char>>) -> bool
    decreases es.len(),
{
    if es.len() == 0 {
        true
    } else {
        &&& lb <= es[0].old_start
        &&& es[0].old_start <= es[0].old_end <= old.len()
        &&& es[0].new_start <= es[0].new_end <= new.len()
        &&& ordered_from(es.drop_first(), es[0].old_end as int, old, new)
    }
}

/// Appending an edit past the end of the last one keeps the list ordered.
pub proof fn lemma_ordered_snoc(
    es: Seq<LineOp>,
    x: LineOp,
    lb: int,
    old: Seq<Seq<char>>,
    new: Seq<Seq<char>>,
)
    requires
        ordered_from(es, lb, old, new),
        es.len() > 0 ==> es.last().old_end <= x.old_start,
        es.len() == 0 ==> lb <= x.old_start,
        x.old_start <= x.old_end <= old.len(),
        x.new_start <= x.new_end <= new.len(),
    ensures
        ordered_from(es.push(x), lb, old, new),
    decreases es.len(),
{
    reveal_with_fuel(ordered_from, 3);
    if es.len() == 0 {
        assert(es.push(x).drop_first() =~= Seq::<LineOp>::empty());
        assert(ordered_from(es.push(x).drop_first(), x.old_end as int, old, new));
    } else {
        lemma_ordered_snoc(es.drop_first(), x, es[0].old_end as int, old, new);
        assert(es.push(x).drop_first() =~= es.drop_first().push(x));
    }
}

/// The final line sequence: the original's lines outside the edits, the
/// candidate's lines inside them, walking the edits in order from original
/// position `from`.
pub open spec fn apply_edits_s(
    old: Seq<Seq<char>>,
    new: Seq<Seq<char>>,
    es: Seq<LineOp>,
    from: int,
) -> Seq<Seq<char>>
    decreases es.len(),
{
    if es.len() == 0 {
        old.subrange(from, old.len() as int)
    } else {
        old.subrange(from, es[0].old_start as int) + new.subrange(
            es[0].new_start as int,
            es[0].new_end as int,
        ) + apply_edits_s(old, new, es.drop_first(), es[0].old_end as int)
    }
}

/// Splices the edits into the original: candidate lines replace the edited
/// original ranges, everything else stays as it was.
pub fn apply_edits(
    orig: &Vec<Vec<char>>,
    cand: &Vec<Vec<char>>,
    edits: &Vec<LineOp>,
) -> (r: Vec<Vec<char>>)
    requires
        ordered_from(edits@, 0, seq_views(orig@), seq_views(cand@)),
    ensures
        seq_views(r@) == apply_edits_s(seq_views(orig@), seq_views(cand@), edits@, 0),
{
    let ghost o = seq_views(orig@);
    let ghost n = seq_views(cand@);
    let mut r: Vec<Vec<char>> = Vec::new();
    let mut pos: usize = 0;
    let mut j: usize = 0;
    proof {
        assert(edits@.skip(0) =~= edits@);
    }
    while j < edits.len()
        invariant
            j <= edits@.len(),
            o == seq_views(orig@),
            n == seq_views(cand@),
            pos <= o.len(),
            ordered_from(edits@.skip(j as int), pos as int, o, n),
            apply_edits_s(o, n, edits@, 0) == seq_views(r@) + apply_edits_s(
                o,
                n,
                edits@.skip(j as int),
                pos as int,
            ),
        decreases edits@.len() - j,
    {
        let ghost rest = edits@.skip(j as int);
        proof {
            assert(rest[0] == edits@[j as int]);
            assert(rest.drop_first() =~= edits@.skip(j + 1));
        }
        let e = edits[j];
        let ghost r0 = seq_views(r@);
        let mut p: usize = pos;
        while p < e.old_start
            invariant
                pos <= p <= e.old_start,
                e.old_start <= o.len(),
                o == seq_views(orig@),
                orig@.len() == o.len(),
                seq_views(r@) == r0 + o.subrange(pos as int, p as int),
            decreases e.old_start - p,
        {
            let x = crate::path::copy_seg(&orig[p]);
            crate::text::push_line(&mut r, x);
            proof {
                assert(seq_views(r@) =~= r0 + o.subrange(pos as int, p + 1));
            }
            p = p + 1;
        }
        let ghost r1 = seq_views(r@);
        let mut q: usize = e.new_start;
        while q < e.new_end
            invariant
                e.new_start <= q <= e.new_end,
                e.new_end <= n.len(),
                n == seq_views(cand@),
                cand@.len() == n.len(),
                seq_views(r@) == r1 + n.subrange(e.new_start as int, q as int),
            decreases e.new_end - q,
        {
            let x = crate::path::copy_seg(&cand[q]);
            crate::text::push_line(&mut r, x);
            proof {
                assert(seq_views(r@) =~= r1 + n.subrange(e.new_start as int, q + 1));
            }
            q = q + 1;
        }
        proof {
            assert(seq_views(r@) =~= r0 + (o.subrange(pos as int, e.old_start as int) + n.subrange(
                e.new_start as int,
                e.new_end as int,
            )));
        }
        pos = e.old_end;
        j = j + 1;
    }
    let ghost r0 = seq_views(r@);
    let mut p: usize = pos;
    while p < orig.len()
        invariant
            pos <= p <= orig@.len(),
            o == seq_views(orig@),
            orig@.len() == o.len(),
            seq_views(r@) == r0 + o.subrange(pos as int, p as int),
        decreases orig@.len() - p,
    {
        let x = crate::path::copy_seg(&orig[p]);
        crate::text::push_line(&mut r, x);
        proof {
            assert(seq_views(r@) =~= r0 + o.subrange(pos as int, p + 1));
        }
        p = p + 1;
    }
    proof {
        assert(edits@.skip(edits@.len() as int) =~= Seq::<LineOp>::empty());
        assert(seq_views(r@) =~= apply_edits_s(o, n, edits@, 0));
    }
    r
}


/// The original-side position where the op suffix starting at `t` begins.
pub open spec fn suffix_old_pos(ops: Seq<LineOp>, o: Seq<Seq<char>>, t: int) -> int {
    if t < ops.len() {
        ops[t].old_start as int
    } else {
        o.len() as int
    }
}

/// The candidate-side position where the op suffix starting at `t` begins.
pub open spec fn suffix_new_pos(ops: Seq<LineOp>, n: Seq<Seq<char>>, t: int) -> int {
    if t < ops.len() {
        ops[t].new_start as int
    } else {
        n.len() as int
    }
}

/// The first edit of an op suffix starts no earlier than the suffix itself.
proof fn lemma_changes_lb(ops: Seq<LineOp>, o: Seq<Seq<char>>, n: Seq<Seq<char>>, t: int)
    requires
        ops_wf(ops, o, n),
        0 <= t <= ops.len(),
    ensures
        changes_of(ops.skip(t)).len() > 0 ==> changes_of(ops.skip(t))[0].old_start
            >= suffix_old_pos(ops, o, t) && op_wf(changes_of(ops.skip(t))[0], o, n),
    decreases ops.len() - t,
{
    if t == ops.len() {
        assert(ops.skip(t) =~= Seq::<LineOp>::empty());
    } else {
        let rest = ops.skip(t);
        assert(rest[0] == ops[t]);
        assert(rest.drop_first() =~= ops.skip(t + 1));
        lemma_changes_lb(ops, o, n, t + 1);
        if ops[t].tag is Equal {
            assert(changes_of(rest) == changes_of(ops.skip(t + 1)));
            assert(op_wf(ops[t], o, n));
            if t + 1 < ops.len() {
                assert(ops[t + 1].old_start == ops[t].old_end);
            }
        }
    }
}

/// Splicing begun ahead of the first edit first copies the original up to a
/// nearer point and goes on from there.
proof fn lemma_apply_prefix(
    o: Seq<Seq<char>>,
    n: Seq<Seq<char>>,
    es: Seq<LineOp>,
    a: int,
    b: int,
)
    requires
        0 <= a <= b <= o.len(),
        es.len() > 0 ==> b <= es[0].old_start && es[0].old_start <= o.len(),
    ensures
        apply_edits_s(o, n, es, a) == o.subrange(a, b) + apply_edits_s(o, n, es, b),
{
    if es.len() == 0 {
        assert(o.subrange(a, o.len() as int) =~= o.subrange(a, b) + o.subrange(b, o.len() as int));
    } else {
        assert(o.subrange(a, es[0].old_start as int) =~= o.subrange(a, b) + o.subrange(
            b,
            es[0].old_start as int,
        ));
        assert(apply_edits_s(o, n, es, a) =~= o.subrange(a, b) + apply_edits_s(o, n, es, b));
    }
}

/// Splicing every edit of the op suffix starting at `t` into the original
/// yields the candidate from that point on.
proof fn lemma_apply_all_from(ops: Seq<LineOp>, o: Seq<Seq<char>>, n: Seq<Seq<char>>, t: int)
    requires
        ops_wf(ops, o, n),
        0 <= t <= ops.len(),
    ensures
        apply_edits_s(o, n, changes_of(ops.skip(t)), suffix_old_pos(ops, o, t)) == n.subrange(
            suffix_new_pos(ops, n, t),
            n.len() as int,
        ),
    decreases ops.len() - t,
{
    if t == ops.len() {
        assert(ops.skip(t) =~= Seq::<LineOp>::empty());
        assert(apply_edits_s(o, n, changes_of(ops.skip(t)), o.len() as int) =~= n.subrange(
            n.len() as int,
            n.len() as int,
        ));
    } else {
        let op = ops[t];
        let rest = ops.skip(t);
        assert(op_wf(op, o, n));
        assert(rest[0] == op);
        assert(rest.drop_first() =~= ops.skip(t + 1));
        lemma_apply_all_from(ops, o, n, t + 1);
        lemma_changes_lb(ops, o, n, t + 1);
        if t + 1 < ops.len() {
            assert(ops[t + 1].old_start == op.old_end);
            assert(ops[t + 1].new_start == op.new_end);
        }
        let tail = changes_of(ops.skip(t + 1));
        if op.tag is Equal {
            assert(changes_of(rest) == tail);
            lemma_apply_prefix(o, n, tail, op.old_start as int, op.old_end as int);
            assert forall|k: int| 0 <= k < op.old_end - op.old_start implies o.subrange(
                op.old_start as int,
                op.old_end as int,
            )[k] == n.subrange(op.new_start as int, op.new_end as int)[k] by {
                assert(o[op.old_start + k] == n[op.new_start + k]);
            }
            assert(o.subrange(op.old_start as int, op.old_end as int) =~= n.subrange(
                op.new_start as int,
                op.new_end as int,
            ));
            assert(n.subrange(op.new_start as int, op.new_end as int) + n.subrange(
                op.new_end as int,
                n.len() as int,
            ) =~= n.subrange(op.new_start as int, n.len() as int));
        } else {
            assert(changes_of(rest) == seq![op] + tail);
            let es = seq![op] + tail;
            assert(es[0] == op);
            assert(es.drop_first() =~= tail);
            assert(apply_edits_s(o, n, es, op.old_start as int) == o.subrange(
                op.old_start as int,
                op.old_start as int,
            ) + n.subrange(op.new_start as int, op.new_end as int) + apply_edits_s(
                o,
                n,
                tail,
                op.old_end as int,
            ));
            assert(o.subrange(op.old_start as int, op.old_start as int) + n.subrange(
                op.new_start as int,
                op.new_end as int,
            ) + n.subrange(op.new_end as int, n.len() as int) =~= n.subrange(
                op.new_start as int,
                n.len() as int,
            ));
        }
    }
}

/// Accepting every edit of a full diff rebuilds the candidate: splicing all
/// of the ops' changes into the original yields exactly the new lines.
pub proof fn lemma_apply_all_changes(ops: Seq<LineOp>, o: Seq<Seq<char>>, n: Seq<Seq<char>>)
    requires
        ops_wf(ops, o, n),
    ensures
        apply_edits_s(o, n, changes_of(ops), 0) == n,
{
    lemma_apply_all_from(ops, o, n, 0);
    assert(ops.skip(0) =~= ops);
    if ops.len() == 0 {
        assert(apply_edits_s(o, n, changes_of(ops), 0) =~= n);
    } else {
        assert(n.subrange(0, n.len() as int) =~= n);
    }
}

} // verus!
