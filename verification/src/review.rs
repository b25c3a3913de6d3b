//! The review of one file's hunks and of a whole run: mapping operator
//! input to a decision, rendering a hunk as numbered rows, merging accepted
//! edits into the final line buffer, and walking the files of a run until
//! it finishes or the operator cancels it.
use vstd::prelude::*;

verus! {

use vstd::string::StrSliceExecFns;
use crate::diff::{
    apply_edits, apply_edits_s, changes_of, diff_lines, diff_of, group_hunks, hunk_changes_from,
    hunk_wf, hunks_wf, lemma_apply_all_changes, lemma_changes_snoc, lemma_ordered_snoc, op_wf,
    ops_wf, ordered_from, Hunk, LineOp, OpTag,
};
use crate::text::split_s;
use crate::path::FsPath;
use crate::rewrite::{rewrite_content, rewrite_from_s, Move};
use crate::text::{join_lines, join_s, seq_views, split_lines};

/// The operator's answer to one hunk.
#[derive(Clone, Copy, PartialEq, Eq, Structural, Debug)]
pub enum ReviewDecision {
    Accept,
    Decline,
    SkipFile,
    CancelAll,
}

/// The decision one trimmed input line stands for: an empty line, `y` or
/// `Y` accepts, `C` cancels the run, `S` skips the file, anything else
/// declines.
pub open spec fn decision_s(s: Seq<char>) -> ReviewDecision {
    if s.len() == 0 {
        ReviewDecision::Accept
    } else if s.len() == 1 {
        if s[0] == 'y' || s[0] == 'Y' {
            ReviewDecision::Accept
        } else if s[0] == 'C' {
            ReviewDecision::CancelAll
        } else if s[0] == 'S' {
            ReviewDecision::SkipFile
        } else {
            ReviewDecision::Decline
        }
    } else {
        ReviewDecision::Decline
    }
}

/// Maps one line of operator input, already trimmed, to a decision.
pub fn decision_of_line(input: &str) -> (d: ReviewDecision)
    ensures
        d == decision_s(input@),
{
    let n = input.unicode_len();
    if n == 0 {
        ReviewDecision::Accept
    } else if n == 1 {
        let c = input.get_char(0);
        if c == 'y' || c == 'Y' {
            ReviewDecision::Accept
        } else if c == 'C' {
            ReviewDecision::CancelAll
        } else if c == 'S' {
            ReviewDecision::SkipFile
        } else {
            ReviewDecision::Decline
        }
    } else {
        ReviewDecision::Decline
    }
}

/// How one rendered row relates to the file: an equal or inserted row shows
/// a candidate line, a removed row an original line.
#[derive(Clone, Copy, PartialEq, Eq, Structural, Debug)]
pub enum RowKind {
    Equal,
    Insert,
    Delete,
}

/// One rendered row of a hunk: a 1-based line number (the candidate's where
/// the line exists there, else the original's), its kind, and its text.
pub struct Row {
    pub number: usize,
    pub kind: RowKind,
    pub text: Vec<char>,
}

/// A row shows the line its number points at: removed rows point into the
/// original, the others into the candidate.
pub open spec fn row_wf(number: usize, kind: RowKind, text: Seq<char>, old: Seq<Seq<char>>, new: Seq<Seq<char>>) -> bool {
    &&& number >= 1
    &&& (kind is Delete ==> number - 1 < old.len() && text == old[number - 1])
    &&& (!(kind is Delete) ==> number - 1 < new.len() && text == new[number - 1])
}

/// How many rows one op renders: its candidate lines for an equal or
/// inserted run, its original lines for a deleted one, and both for a
/// replacement.
pub open spec fn op_rows(op: LineOp) -> int {
    if op.tag is Delete {
        op.old_end - op.old_start
    } else if op.tag is Replace {
        (op.old_end - op.old_start) + (op.new_end - op.new_start)
    } else {
        op.new_end - op.new_start
    }
}

/// The rows rendered by the first `j` ops of a hunk.
pub open spec fn rows_before(ops: Seq<LineOp>, j: int) -> int
    decreases j,
{
    if j <= 0 {
        0
    } else {
        rows_before(ops, j - 1) + op_rows(ops[j - 1])
    }
}

/// Row counts accumulate: each op's rows end at or before where the rows
/// of any later prefix end.
proof fn lemma_rows_before_bounds(ops: Seq<LineOp>, o: Seq<Seq<char>>, n: Seq<Seq<char>>, b: int)
    requires
        0 <= b <= ops.len(),
        forall|i: int| 0 <= i < ops.len() ==> op_wf(#[trigger] ops[i], o, n),
    ensures
        forall|a: int|
            0 <= a < b ==> rows_before(ops, a) + op_rows(#[trigger] ops[a]) <= rows_before(ops, b),
        forall|a: int| 0 <= a <= b ==> #[trigger] rows_before(ops, a) >= 0,
    decreases b,
{
    if b > 0 {
        lemma_rows_before_bounds(ops, o, n, b - 1);
        assert(op_wf(ops[b - 1], o, n));
        assert(op_rows(ops[b - 1]) >= 0);
        assert forall|a: int|
            0 <= a < b implies rows_before(ops, a) + op_rows(#[trigger] ops[a]) <= rows_before(
            ops,
            b,
        ) by {
            if a == b - 1 {
                assert(rows_before(ops, b) == rows_before(ops, b - 1) + op_rows(ops[b - 1]));
            }
        }
    }
}

/// The 1-based number of the `t`-th row of one op: the line's position in
/// the candidate, or in the original for a removed row.
pub open spec fn op_row_number(op: LineOp, t: int) -> int {
    if op.tag is Equal || op.tag is Insert {
        op.new_start + t + 1
    } else if op.tag is Delete {
        op.old_start + t + 1
    } else if t < op.old_end - op.old_start {
        op.old_start + t + 1
    } else {
        op.new_start + (t - (op.old_end - op.old_start)) + 1
    }
}

/// The kind of the `t`-th row of one op: a replacement renders its removed
/// rows first, then its added ones.
pub open spec fn op_row_kind(op: LineOp, t: int) -> RowKind {
    if op.tag is Equal {
        RowKind::Equal
    } else if op.tag is Insert {
        RowKind::Insert
    } else if op.tag is Delete {
        RowKind::Delete
    } else if t < op.old_end - op.old_start {
        RowKind::Delete
    } else {
        RowKind::Insert
    }
}

/// The text of the `t`-th row of one op.
pub open spec fn op_row_text(op: LineOp, t: int, o: Seq<Seq<char>>, n: Seq<Seq<char>>) -> Seq<
    char,
> {
    if op.tag is Equal || op.tag is Insert {
        n[op.new_start + t]
    } else if op.tag is Delete {
        o[op.old_start + t]
    } else if t < op.old_end - op.old_start {
        o[op.old_start + t]
    } else {
        n[op.new_start + (t - (op.old_end - op.old_start))]
    }
}

/// The row standing at the `t`-th position of op `j2` holds that op's
/// `t`-th number, kind and text.
pub open spec fn row_at_ok(
    rows: Seq<Row>,
    ops: Seq<LineOp>,
    j2: int,
    t: int,
    o: Seq<Seq<char>>,
    n: Seq<Seq<char>>,
) -> bool {
    let row = rows[rows_before(ops, j2) + t];
    &&& row.number == op_row_number(ops[j2], t)
    &&& row.kind == op_row_kind(ops[j2], t)
    &&& row.text@ == op_row_text(ops[j2], t, o, n)
}

/// Renders one hunk as rows, op by op and in order: an equal op yields its
/// candidate lines, a delete its original lines, an insert its candidate
/// lines, and a replace its removed rows followed by its added rows; every
/// line of every op is rendered, each under the number of the line it
/// shows.
#[verifier::rlimit(100)]
pub fn hunk_rows(h: &Hunk, orig: &Vec<Vec<char>>, cand: &Vec<Vec<char>>) -> (rows: Vec<Row>)
    requires
        hunk_wf(*h, seq_views(orig@), seq_views(cand@)),
    ensures
        rows@.len() == rows_before(h.ops@, h.ops@.len() as int),
        forall|j: int, t: int|
            0 <= j < h.ops@.len() && 0 <= t < op_rows(h.ops@[j]) ==> #[trigger] row_at_ok(
                rows@,
                h.ops@,
                j,
                t,
                seq_views(orig@),
                seq_views(cand@),
            ),
        forall|i: int|
            0 <= i < rows@.len() ==> row_wf(
                (#[trigger] rows@[i]).number,
                rows@[i].kind,
                rows@[i].text@,
                seq_views(orig@),
                seq_views(cand@),
            ),
{
    let ghost o = seq_views(orig@);
    let ghost n = seq_views(cand@);
    let on = orig.len();
    let cn = cand.len();
    let mut rows: Vec<Row> = Vec::new();
    let mut j: usize = 0;
    while j < h.ops.len()
        invariant
            j <= h.ops@.len(),
            hunk_wf(*h, o, n),
            o == seq_views(orig@),
            n == seq_views(cand@),
            orig@.len() == o.len(),
            cand@.len() == n.len(),
            on == orig@.len(),
            cn == cand@.len(),
            rows@.len() == rows_before(h.ops@, j as int),
            forall|j2: int, t: int|
                0 <= j2 < j && 0 <= t < op_rows(h.ops@[j2]) ==> #[trigger] row_at_ok(
                    rows@,
                    h.ops@,
                    j2,
                    t,
                    o,
                    n,
                ),
            forall|i: int|
                0 <= i < rows@.len() ==> row_wf(
                    (#[trigger] rows@[i]).number,
                    rows@[i].kind,
                    rows@[i].text@,
                    o,
                    n,
                ),
        decreases h.ops@.len() - j,
    {
        let op = h.ops[j];
        let ghost base = rows_before(h.ops@, j as int);
        proof {
            assert(op_wf(op, o, n));
            assert(rows_before(h.ops@, j + 1) == base + op_rows(op));
        }
        if matches!(op.tag, OpTag::Equal) {
            let mut k: usize = op.new_start;
            while k < op.new_end
                invariant
                    op.new_start <= k <= op.new_end,
                    op.new_end <= cn,
                    cn == cand@.len(),
                    n == seq_views(cand@),
                    o == seq_views(orig@),
                    cand@.len() == n.len(),
                    op.tag is Equal,
                    hunk_wf(*h, o, n),
                    j < h.ops@.len(),
                    op == h.ops@[j as int],
                    base == rows_before(h.ops@, j as int),
                    rows@.len() == base + (k - op.new_start),
                    forall|j2: int, t: int|
                        0 <= j2 < j && 0 <= t < op_rows(h.ops@[j2]) ==> #[trigger] row_at_ok(
                            rows@,
                            h.ops@,
                            j2,
                            t,
                            o,
                            n,
                        ),
                    forall|t: int|
                        0 <= t < k - op.new_start ==> #[trigger] row_at_ok(
                            rows@,
                            h.ops@,
                            j as int,
                            t,
                            o,
                            n,
                        ),
                    forall|i: int|
                        0 <= i < rows@.len() ==> row_wf(
                            (#[trigger] rows@[i]).number,
                            rows@[i].kind,
                            rows@[i].text@,
                            o,
                            n,
                        ),
                decreases op.new_end - k,
            {
                proof {
                    lemma_rows_before_bounds(h.ops@, o, n, j as int);
                }
                let ghost oldrows = rows@;
                let text = crate::path::copy_seg(&cand[k]);
                let rowv = Row { number: k + 1, kind: RowKind::Equal, text };
                rows.push(rowv);
                proof {
                    assert(rows@ == oldrows.push(rowv));
                    assert forall|j2: int, t: int|
                        0 <= j2 < j && 0 <= t < op_rows(h.ops@[j2]) implies #[trigger] row_at_ok(
                        rows@,
                        h.ops@,
                        j2,
                        t,
                        o,
                        n,
                    ) by {
                        assert(row_at_ok(oldrows, h.ops@, j2, t, o, n));
                        assert(0 <= rows_before(h.ops@, j2));
                        assert(rows_before(h.ops@, j2) + op_rows(h.ops@[j2]) <= rows_before(
                            h.ops@,
                            j as int,
                        ));
                        let idx = rows_before(h.ops@, j2) + t;
                        assert(idx < oldrows.len());
                        assert(rows@[idx] == oldrows[idx]);
                    }
                    assert forall|t: int|
                        0 <= t < rows@.len() - base implies #[trigger] row_at_ok(
                        rows@,
                        h.ops@,
                        j as int,
                        t,
                        o,
                        n,
                    ) by {
                        let idx = base + t;
                        if t < oldrows.len() - base {
                            assert(row_at_ok(oldrows, h.ops@, j as int, t, o, n));
                            assert(rows@[idx] == oldrows[idx]);
                        } else {
                            assert(rows@[idx] == rowv);
                        }
                    }
                }
                k = k + 1;
            }
        } else if matches!(op.tag, OpTag::Insert) {
            let mut k: usize = op.new_start;
            while k < op.new_end
                invariant
                    op.new_start <= k <= op.new_end,
                    op.new_end <= cn,
                    cn == cand@.len(),
                    n == seq_views(cand@),
                    o == seq_views(orig@),
                    cand@.len() == n.len(),
                    op.tag is Insert,
                    hunk_wf(*h, o, n),
                    j < h.ops@.len(),
                    op == h.ops@[j as int],
                    base == rows_before(h.ops@, j as int),
                    rows@.len() == base + (k - op.new_start),
                    forall|j2: int, t: int|
                        0 <= j2 < j && 0 <= t < op_rows(h.ops@[j2]) ==> #[trigger] row_at_ok(
                            rows@,
                            h.ops@,
                            j2,
                            t,
                            o,
                            n,
                        ),
                    forall|t: int|
                        0 <= t < k - op.new_start ==> #[trigger] row_at_ok(
                            rows@,
                            h.ops@,
                            j as int,
                            t,
                            o,
                            n,
                        ),
                    forall|i: int|
                        0 <= i < rows@.len() ==> row_wf(
                            (#[trigger] rows@[i]).number,
                            rows@[i].kind,
                            rows@[i].text@,
                            o,
                            n,
                        ),
                decreases op.new_end - k,
            {
                proof {
                    lemma_rows_before_bounds(h.ops@, o, n, j as int);
                }
                let ghost oldrows = rows@;
                let text = crate::path::copy_seg(&cand[k]);
                let rowv = Row { number: k + 1, kind: RowKind::Insert, text };
                rows.push(rowv);
                proof {
                    assert(rows@ == oldrows.push(rowv));
                    assert forall|j2: int, t: int|
                        0 <= j2 < j && 0 <= t < op_rows(h.ops@[j2]) implies #[trigger] row_at_ok(
                        rows@,
                        h.ops@,
                        j2,
                        t,
                        o,
                        n,
                    ) by {
                        assert(row_at_ok(oldrows, h.ops@, j2, t, o, n));
                        assert(0 <= rows_before(h.ops@, j2));
                        assert(rows_before(h.ops@, j2) + op_rows(h.ops@[j2]) <= rows_before(
                            h.ops@,
                            j as int,
                        ));
                        let idx = rows_before(h.ops@, j2) + t;
                        assert(idx < oldrows.len());
                        assert(rows@[idx] == oldrows[idx]);
                    }
                    assert forall|t: int|
                        0 <= t < rows@.len() - base implies #[trigger] row_at_ok(
                        rows@,
                        h.ops@,
                        j as int,
                        t,
                        o,
                        n,
                    ) by {
                        let idx = base + t;
                        if t < oldrows.len() - base {
                            assert(row_at_ok(oldrows, h.ops@, j as int, t, o, n));
                            assert(rows@[idx] == oldrows[idx]);
                        } else {
                            assert(rows@[idx] == rowv);
                        }
                    }
                }
                k = k + 1;
            }
        } else {
            let ghost old_len = op.old_end - op.old_start;
            let mut k: usize = op.old_start;
            while k < op.old_end
                invariant
                    op.old_start <= k <= op.old_end,
                    op.old_end <= on,
                    on == orig@.len(),
                    o == seq_views(orig@),
                    n == seq_views(cand@),
                    orig@.len() == o.len(),
                    op.tag is Delete || op.tag is Replace,
                    op_wf(op, o, n),
                    hunk_wf(*h, o, n),
                    j < h.ops@.len(),
                    op == h.ops@[j as int],
                    base == rows_before(h.ops@, j as int),
                    rows@.len() == base + (k - op.old_start),
                    forall|j2: int, t: int|
                        0 <= j2 < j && 0 <= t < op_rows(h.ops@[j2]) ==> #[trigger] row_at_ok(
                            rows@,
                            h.ops@,
                            j2,
                            t,
                            o,
                            n,
                        ),
                    forall|t: int|
                        0 <= t < k - op.old_start ==> #[trigger] row_at_ok(
                            rows@,
                            h.ops@,
                            j as int,
                            t,
                            o,
                            n,
                        ),
                    forall|i: int|
                        0 <= i < rows@.len() ==> row_wf(
                            (#[trigger] rows@[i]).number,
                            rows@[i].kind,
                            rows@[i].text@,
                            o,
                            n,
                        ),
                decreases op.old_end - k,
            {
                proof {
                    lemma_rows_before_bounds(h.ops@, o, n, j as int);
                }
                let ghost oldrows = rows@;
                let text = crate::path::copy_seg(&orig[k]);
                let rowv = Row { number: k + 1, kind: RowKind::Delete, text };
                rows.push(rowv);
                proof {
                    assert(rows@ == oldrows.push(rowv));
                    assert forall|j2: int, t: int|
                        0 <= j2 < j && 0 <= t < op_rows(h.ops@[j2]) implies #[trigger] row_at_ok(
                        rows@,
                        h.ops@,
                        j2,
                        t,
                        o,
                        n,
                    ) by {
                        assert(row_at_ok(oldrows, h.ops@, j2, t, o, n));
                        assert(0 <= rows_before(h.ops@, j2));
                        assert(rows_before(h.ops@, j2) + op_rows(h.ops@[j2]) <= rows_before(
                            h.ops@,
                            j as int,
                        ));
                        let idx = rows_before(h.ops@, j2) + t;
                        assert(idx < oldrows.len());
                        assert(rows@[idx] == oldrows[idx]);
                    }
                    assert forall|t: int|
                        0 <= t < rows@.len() - base implies #[trigger] row_at_ok(
                        rows@,
                        h.ops@,
                        j as int,
                        t,
                        o,
                        n,
                    ) by {
                        let idx = base + t;
                        if t < oldrows.len() - base {
                            assert(row_at_ok(oldrows, h.ops@, j as int, t, o, n));
                            assert(rows@[idx] == oldrows[idx]);
                        } else {
                            assert(rows@[idx] == rowv);
                        }
                    }
                }
                k = k + 1;
            }
            if matches!(op.tag, OpTag::Replace) {
                let mut k: usize = op.new_start;
                while k < op.new_end
                    invariant
                        op.new_start <= k <= op.new_end,
                        op.new_end <= cn,
                        cn == cand@.len(),
                        n == seq_views(cand@),
                        o == seq_views(orig@),
                        cand@.len() == n.len(),
                        op.tag is Replace,
                        op_wf(op, o, n),
                        hunk_wf(*h, o, n),
                        j < h.ops@.len(),
                        op == h.ops@[j as int],
                        base == rows_before(h.ops@, j as int),
                        old_len == op.old_end - op.old_start,
                        rows@.len() == base + old_len + (k - op.new_start),
                        forall|j2: int, t: int|
                            0 <= j2 < j && 0 <= t < op_rows(h.ops@[j2]) ==> #[trigger] row_at_ok(
                                rows@,
                                h.ops@,
                                j2,
                                t,
                                o,
                                n,
                            ),
                        forall|t: int|
                            0 <= t < old_len + (k - op.new_start) ==> #[trigger] row_at_ok(
                                rows@,
                                h.ops@,
                                j as int,
                                t,
                                o,
                                n,
                            ),
                        forall|i: int|
                            0 <= i < rows@.len() ==> row_wf(
                                (#[trigger] rows@[i]).number,
                                rows@[i].kind,
                                rows@[i].text@,
                                o,
                                n,
                            ),
                    decreases op.new_end - k,
                {
                    proof {
                        lemma_rows_before_bounds(h.ops@, o, n, j as int);
                    }
                    let ghost oldrows = rows@;
                    let text = crate::path::copy_seg(&cand[k]);
                    let rowv = Row { number: k + 1, kind: RowKind::Insert, text };
                    rows.push(rowv);
                proof {
                    assert(rows@ == oldrows.push(rowv));
                    assert forall|j2: int, t: int|
                        0 <= j2 < j && 0 <= t < op_rows(h.ops@[j2]) implies #[trigger] row_at_ok(
                        rows@,
                        h.ops@,
                        j2,
                        t,
                        o,
                        n,
                    ) by {
                        assert(row_at_ok(oldrows, h.ops@, j2, t, o, n));
                        assert(0 <= rows_before(h.ops@, j2));
                        assert(rows_before(h.ops@, j2) + op_rows(h.ops@[j2]) <= rows_before(
                            h.ops@,
                            j as int,
                        ));
                        let idx = rows_before(h.ops@, j2) + t;
                        assert(idx < oldrows.len());
                        assert(rows@[idx] == oldrows[idx]);
                    }
                    assert forall|t: int|
                        0 <= t < rows@.len() - base implies #[trigger] row_at_ok(
                        rows@,
                        h.ops@,
                        j as int,
                        t,
                        o,
                        n,
                    ) by {
                        let idx = base + t;
                        if t < oldrows.len() - base {
                            assert(row_at_ok(oldrows, h.ops@, j as int, t, o, n));
                            assert(rows@[idx] == oldrows[idx]);
                        } else {
                            assert(rows@[idx] == rowv);
                        }
                    }
                }
                    k = k + 1;
                }
            }
        }
        proof {
            lemma_rows_before_bounds(h.ops@, o, n, j + 1);
            assert forall|j2: int, t: int|
                0 <= j2 < j + 1 && 0 <= t < op_rows(h.ops@[j2]) implies #[trigger] row_at_ok(
                rows@,
                h.ops@,
                j2,
                t,
                o,
                n,
            ) by {
                if j2 == j {
                    assert(h.ops@[j2] == op);
                    assert(row_at_ok(rows@, h.ops@, j as int, t, o, n));
                }
            }
        }
        j = j + 1;
    }
    rows
}

/// What one file's review ends in: its final line buffer to write, the file
/// left untouched, or the whole run cancelled.
pub enum FileOutcome {
    Written(Vec<Vec<char>>),
    Untouched,
    CancelRun,
}

/// The edits of the first `i` hunks the decisions accept, in order.
pub open spec fn acc_upto(hs: Seq<Hunk>, dec: Seq<ReviewDecision>, i: int) -> Seq<LineOp>
    decreases i,
{
    if i <= 0 {
        Seq::<LineOp>::empty()
    } else {
        acc_upto(hs, dec, i - 1) + (if dec[i - 1] is Accept {
            changes_of(hs[i - 1].ops@)
        } else {
            Seq::<LineOp>::empty()
        })
    }
}

/// The first decision among the first `k` that stops the file (a skip or a
/// cancel), scanning from `i`; `-1` when none does.
pub open spec fn first_stop_from(dec: Seq<ReviewDecision>, k: int, i: int) -> int
    decreases k - i,
{
    if i >= k || i >= dec.len() {
        -1
    } else if dec[i] is SkipFile || dec[i] is CancelAll {
        i
    } else {
        first_stop_from(dec, k, i + 1)
    }
}

/// Whether any of the first `k` decisions accepts its hunk.
pub open spec fn any_accepted(dec: Seq<ReviewDecision>, k: int) -> bool {
    exists|i: int| 0 <= i < k && (#[trigger] dec[i]) is Accept
}

/// What a review outcome must satisfy for given hunks and decisions: the
/// file is written only when every hunk was decided and at least one was
/// accepted, and then holds exactly the accepted edits; a review that
/// accepts nothing, skips, or runs out of decisions leaves the file
/// untouched; a cancel ends the run.
pub open spec fn review_post(
    r: FileOutcome,
    o: Seq<Seq<char>>,
    n: Seq<Seq<char>>,
    hs: Seq<Hunk>,
    dec: Seq<ReviewDecision>,
) -> bool {
    let k = hs.len() as int;
    let s = first_stop_from(dec, k, 0);
    &&& (s == -1 && dec.len() >= k && any_accepted(dec, k) ==> (r matches FileOutcome::Written(w)
        && seq_views(w@) == apply_edits_s(o, n, acc_upto(hs, dec, k), 0)))
    &&& (s == -1 && dec.len() >= k && !any_accepted(dec, k) ==> r is Untouched)
    &&& (s == -1 && dec.len() < k ==> r is Untouched)
    &&& (s >= 0 && dec[s] is SkipFile ==> r is Untouched)
    &&& (s >= 0 && dec[s] is CancelAll ==> r is CancelRun)
}

/// Within a chained hunk, op boundaries never move backwards.
proof fn lemma_chain_le(h: Hunk, old: Seq<Seq<char>>, new: Seq<Seq<char>>, a: int, b: int)
    requires
        hunk_wf(h, old, new),
        0 <= a <= b < h.ops@.len(),
    ensures
        h.ops@[a].old_start <= h.ops@[b].old_start,
        h.ops@[a].old_end <= h.ops@[b].old_end,
    decreases b - a,
{
    if a < b {
        lemma_chain_le(h, old, new, a + 1, b);
        assert(h.ops@[a + 1].old_start == h.ops@[a].old_end);
        assert(op_wf(h.ops@[a], old, new));
        assert(op_wf(h.ops@[a + 1], old, new));
    }
}

/// Applies the operator's decisions to a file's hunks: each accepted hunk's
/// edits splice candidate lines over the original ones, declined hunks keep
/// the original lines, a skip abandons the file untouched whatever was
/// accepted before it, and a cancel ends the run. The file is written only
/// when every hunk was decided and at least one was accepted: a review
/// that accepts nothing leaves the file untouched.
pub fn apply_review(
    orig: &Vec<Vec<char>>,
    cand: &Vec<Vec<char>>,
    hunks: &Vec<Hunk>,
    decisions: &Vec<ReviewDecision>,
) -> (r: FileOutcome)
    requires
        hunks_wf(hunks@, seq_views(orig@), seq_views(cand@)),
    ensures
        review_post(r, seq_views(orig@), seq_views(cand@), hunks@, decisions@),
{
    let ghost o = seq_views(orig@);
    let ghost n = seq_views(cand@);
    let ghost k = hunks@.len() as int;
    let mut edits: Vec<LineOp> = Vec::new();
    let mut accepted_any: bool = false;
    let mut i: usize = 0;
    while i < hunks.len()
        invariant
            i <= hunks@.len(),
            k == hunks@.len() as int,
            hunks_wf(hunks@, o, n),
            o == seq_views(orig@),
            n == seq_views(cand@),
            decisions@.len() >= i,
            first_stop_from(decisions@, k, 0) == first_stop_from(decisions@, k, i as int),
            accepted_any == any_accepted(decisions@, i as int),
            edits@ == acc_upto(hunks@, decisions@, i as int),
            ordered_from(edits@, 0, o, n),
            edits@.len() > 0 && i < hunks@.len() ==> edits@.last().old_end
                <= hunks@[i as int].ops@[0].old_start,
        decreases hunks@.len() - i,
    {
        if i >= decisions.len() {
            return FileOutcome::Untouched;
        }
        let d = decisions[i];
        match d {
            ReviewDecision::CancelAll => {
                return FileOutcome::CancelRun;
            },
            ReviewDecision::SkipFile => {
                return FileOutcome::Untouched;
            },
            ReviewDecision::Accept => {
                accepted_any = true;
                proof {
                    assert(decisions@[i as int] is Accept);
                    assert(any_accepted(decisions@, i + 1));
                }
                let h = &hunks[i];
                proof {
                    assert(hunk_wf(hunks@[i as int], o, n));
                }
                let mut j: usize = 0;
                proof {
                    assert(changes_of(h.ops@.subrange(0, 0)) =~= Seq::<LineOp>::empty());
                    assert(edits@ + changes_of(h.ops@.subrange(0, 0)) =~= edits@);
                }
                let ghost base = edits@;
                while j < h.ops.len()
                    invariant
                        j <= h.ops@.len(),
                        hunk_wf(*h, o, n),
                        h == hunks@[i as int],
                        i < hunks@.len(),
                        k == hunks@.len() as int,
                        hunks_wf(hunks@, o, n),
                        o == seq_views(orig@),
                        n == seq_views(cand@),
                        edits@ == base + changes_of(h.ops@.subrange(0, j as int)),
                        ordered_from(edits@, 0, o, n),
                        edits@.len() > 0 && j < h.ops@.len() ==> edits@.last().old_end
                            <= h.ops@[j as int].old_start,
                        edits@.len() > 0 && j == h.ops@.len() ==> edits@.last().old_end
                            <= h.ops@.last().old_end,
                        base.len() > 0 ==> edits@.len() >= base.len() && base.last().old_end
                            <= hunks@[i as int].ops@[0].old_start,
                    decreases h.ops@.len() - j,
                {
                    let op = h.ops[j];
                    proof {
                        assert(op_wf(op, o, n));
                        assert(h.ops@.subrange(0, j as int).push(op) =~= h.ops@.subrange(
                            0,
                            j + 1,
                        ));
                        lemma_changes_snoc(h.ops@.subrange(0, j as int), op);
                        if j + 1 < h.ops@.len() {
                            assert(h.ops@[j + 1].old_start == h.ops@[j as int].old_end);
                        }
                        if edits@.len() > 0 {
                            assert(op.old_start <= op.old_end);
                        }
                    }
                    if !matches!(op.tag, OpTag::Equal) {
                        proof {
                            lemma_ordered_snoc(edits@, op, 0, o, n);
                        }
                        edits.push(op);
                        proof {
                            assert(edits@ =~= base + changes_of(h.ops@.subrange(0, j + 1)));
                        }
                    } else {
                        proof {
                            assert(edits@ =~= base + changes_of(h.ops@.subrange(0, j + 1)));
                        }
                    }
                    j = j + 1;
                }
                proof {
                    assert(h.ops@.subrange(0, h.ops@.len() as int) =~= h.ops@);
                    assert(acc_upto(hunks@, decisions@, i + 1) == acc_upto(
                        hunks@,
                        decisions@,
                        i as int,
                    ) + changes_of(hunks@[i as int].ops@));
                    if edits@.len() > 0 && i + 1 < hunks@.len() {
                        if changes_of(h.ops@).len() > 0 {
                            lemma_chain_le(*h, o, n, 0, h.ops@.len() - 1);
                            assert(edits@.last().old_end <= h.ops@.last().old_end);
                            assert(hunks@[i + 1].ops@[0].old_start
                                >= hunks@[i as int].ops@.last().old_end);
                        } else {
                            assert(edits@ =~= base);
                            lemma_chain_le(*h, o, n, 0, h.ops@.len() - 1);
                        }
                    }
                }
            },
            ReviewDecision::Decline => {
                proof {
                    if any_accepted(decisions@, i + 1) {
                        let w = choose|w: int| 0 <= w < i + 1 && (#[trigger] decisions@[w]) is Accept;
                        assert(w != i);
                        assert(any_accepted(decisions@, i as int));
                    }
                    assert(acc_upto(hunks@, decisions@, i + 1) == acc_upto(
                        hunks@,
                        decisions@,
                        i as int,
                    ) + Seq::<LineOp>::empty());
                    assert(acc_upto(hunks@, decisions@, i + 1) =~= acc_upto(
                        hunks@,
                        decisions@,
                        i as int,
                    ));
                    if edits@.len() > 0 && i + 1 < hunks@.len() {
                        let h = hunks@[i as int];
                        lemma_chain_le(h, o, n, 0, h.ops@.len() - 1);
                        assert(op_wf(h.ops@[0], o, n));
                        assert(hunks@[i + 1].ops@[0].old_start >= h.ops@.last().old_end);
                    }
                }
            },
        }
        i = i + 1;
    }
    if !accepted_any {
        return FileOutcome::Untouched;
    }
    let lines = apply_edits(orig, cand, &edits);
    FileOutcome::Written(lines)
}

/// Some well-formed hunk grouping of the diff of `o` and `n` explains the
/// outcome `r` under the decisions.
pub open spec fn reviewed_outcome(
    r: FileOutcome,
    o: Seq<char>,
    n: Seq<char>,
    dec: Seq<ReviewDecision>,
) -> bool {
    exists|hs: Seq<Hunk>|
        {
            &&& #[trigger] hunks_wf(hs, split_s(o), split_s(n))
            &&& hunk_changes_from(hs, 0) == changes_of(diff_of(split_s(o), split_s(n)))
            &&& review_post(r, split_s(o), split_s(n), hs, dec)
        }
}

/// A file's review driven end to end: splits the contents into lines,
/// computes and groups the diff, and applies the decisions. The outcome is
/// fixed by `review_post` over a well-formed grouping of the diff: written
/// only when every hunk was decided and one was accepted, and then exactly
/// the accepted edits; untouched on a skip, an exhausted decision list or
/// an all-declined review; cancelled only by a cancel decision.
pub fn review_content(
    orig: &Vec<char>,
    cand: &Vec<char>,
    decisions: &Vec<ReviewDecision>,
) -> (r: FileOutcome)
    ensures
        reviewed_outcome(r, orig@, cand@, decisions@),
        r is CancelRun ==> exists|i: int|
            0 <= i < decisions@.len() && decisions@[i] is CancelAll,
{
    let ol = split_lines(orig);
    let cl = split_lines(cand);
    let ops = diff_lines(&ol, &cl);
    let hunks = group_hunks(&ops, 10, &ol, &cl);
    let r = apply_review(&ol, &cl, &hunks, decisions);
    proof {
        assert(hunks_wf(hunks@, split_s(orig@), split_s(cand@)));
        assert(hunk_changes_from(hunks@, 0) == changes_of(
            diff_of(split_s(orig@), split_s(cand@)),
        ));
        assert(review_post(r, split_s(orig@), split_s(cand@), hunks@, decisions@));
        let k = hunks@.len() as int;
        let s = first_stop_from(decisions@, k, 0);
        if r is CancelRun {
            lemma_first_stop_in_range(decisions@, k, 0);
            if s == -1 {
                if decisions@.len() >= k {
                    if any_accepted(decisions@, k) {
                        assert(false);
                    } else {
                        assert(false);
                    }
                } else {
                    assert(false);
                }
            } else if decisions@[s] is SkipFile {
                assert(false);
            }
            assert(0 <= s < decisions@.len() && decisions@[s] is CancelAll);
        }
    }
    r
}

/// Reads a review outcome back: each outcome kind can only arise from the
/// matching decision pattern, and a written outcome carries exactly the
/// accepted edits.
pub proof fn lemma_review_post_cases(
    r: FileOutcome,
    o: Seq<Seq<char>>,
    n: Seq<Seq<char>>,
    hs: Seq<Hunk>,
    dec: Seq<ReviewDecision>,
)
    requires
        review_post(r, o, n, hs, dec),
    ensures
        ({
            let k = hs.len() as int;
            let s = first_stop_from(dec, k, 0);
            &&& (r matches FileOutcome::Written(w) ==> s == -1 && dec.len() >= k && any_accepted(
                dec,
                k,
            ) && seq_views(w@) == apply_edits_s(o, n, acc_upto(hs, dec, k), 0))
            &&& (r is CancelRun ==> s >= 0 && dec[s] is CancelAll)
            &&& (r is Untouched ==> (s >= 0 && dec[s] is SkipFile) || (s == -1 && (dec.len() < k
                || !any_accepted(dec, k))))
        }),
{
    let k = hs.len() as int;
    let s = first_stop_from(dec, k, 0);
    lemma_first_stop_in_range(dec, k, 0);
    if s == -1 {
        if dec.len() >= k {
            if any_accepted(dec, k) {
                assert(r matches FileOutcome::Written(w) && seq_views(w@) == apply_edits_s(
                    o,
                    n,
                    acc_upto(hs, dec, k),
                    0,
                ));
            } else {
                assert(r is Untouched);
            }
        } else {
            assert(r is Untouched);
        }
    } else if dec[s] is SkipFile {
        assert(r is Untouched);
    } else {
        assert(r is CancelRun);
    }
}

/// A non-negative first stop indexes a skip or cancel decision.
proof fn lemma_first_stop_in_range(dec: Seq<ReviewDecision>, k: int, i: int)
    requires
        0 <= i,
    ensures
        ({
            let s = first_stop_from(dec, k, i);
            s == -1 || (i <= s < dec.len() && s < k && (dec[s] is SkipFile || dec[s] is CancelAll))
        }),
    decreases k - i,
{
    if i >= k || i >= dec.len() {
    } else if dec[i] is SkipFile || dec[i] is CancelAll {
    } else {
        lemma_first_stop_in_range(dec, k, i + 1);
    }
}

/// One file of a run: where it stands and what it holds.
pub struct FileEntry {
    pub path: FsPath,
    pub content: Vec<char>,
}

/// What the run did to one file.
pub enum FileReport {
    /// The rewriter changed nothing: the file was never diffed, reviewed or
    /// written.
    Unchanged,
    /// The review finished and this content was written.
    Written(Vec<char>),
    /// The review ran and the file was left as it was.
    Untouched,
    /// The operator cancelled the run while this file was under review; it
    /// was left as it was.
    Cancelled,
    /// The run was already cancelled: the file was never looked at.
    NotReached,
}

/// Carries a review outcome over to the file report it becomes: the
/// untouched and cancelled reports directly, and a written report for any
/// joining of the written lines.
proof fn lemma_report_witness(
    outcome: FileOutcome,
    content: Seq<char>,
    cand: Seq<char>,
    hs: Seq<Hunk>,
    dec: Seq<ReviewDecision>,
)
    requires
        hunks_wf(hs, split_s(content), split_s(cand)),
        hunk_changes_from(hs, 0) == changes_of(diff_of(split_s(content), split_s(cand))),
        review_post(outcome, split_s(content), split_s(cand), hs, dec),
    ensures
        outcome is Untouched ==> report_post(FileReport::Untouched, content, cand, dec),
        outcome is CancelRun ==> report_post(FileReport::Cancelled, content, cand, dec),
        outcome matches FileOutcome::Written(w0) ==> forall|jv: Vec<char>|
            jv@ == join_s(seq_views(w0@)) ==> #[trigger] report_post(
                FileReport::Written(jv),
                content,
                cand,
                dec,
            ),
{
    let o = split_s(content);
    let n = split_s(cand);
    let k = hs.len() as int;
    let s = first_stop_from(dec, k, 0);
    lemma_review_post_cases(outcome, o, n, hs, dec);
    if outcome is Untouched {
        assert(hunks_wf(hs, o, n));
        assert(report_post(FileReport::Untouched, content, cand, dec));
    }
    if outcome is CancelRun {
        assert(hunks_wf(hs, o, n));
        assert(report_post(FileReport::Cancelled, content, cand, dec));
    }
    match outcome {
        FileOutcome::Written(w0) => {
            assert forall|jv: Vec<char>| jv@ == join_s(seq_views(w0@)) implies #[trigger] report_post(
                FileReport::Written(jv),
                content,
                cand,
                dec,
            ) by {
                assert(seq_views(w0@) == apply_edits_s(o, n, acc_upto(hs, dec, k), 0));
                assert(jv@ == join_s(apply_edits_s(o, n, acc_upto(hs, dec, k), 0)));
                assert(hunks_wf(hs, o, n));
            }
        },
        _ => {},
    }
}

/// Some well-formed hunk grouping of the file's diff explains its report
/// under its decision script: written only when the script decides every
/// hunk and accepts one, and then with exactly the accepted edits spliced
/// in; untouched on a skip, a short script or an all-declined review;
/// cancelled only by a cancel decision.
pub open spec fn report_post(
    rep: FileReport,
    content: Seq<char>,
    cand: Seq<char>,
    dec: Seq<ReviewDecision>,
) -> bool {
    exists|hs: Seq<Hunk>|
        {
            &&& #[trigger] hunks_wf(hs, split_s(content), split_s(cand))
            &&& hunk_changes_from(hs, 0) == changes_of(diff_of(split_s(content), split_s(cand)))
            &&& ({
                let k = hs.len() as int;
                let s = first_stop_from(dec, k, 0);
                &&& (rep matches FileReport::Written(w) ==> s == -1 && dec.len() >= k
                    && any_accepted(dec, k) && w@ == join_s(
                    apply_edits_s(split_s(content), split_s(cand), acc_upto(hs, dec, k), 0),
                ))
                &&& (rep is Untouched ==> (s >= 0 && dec[s] is SkipFile) || (s == -1 && (dec.len()
                    < k || !any_accepted(dec, k))))
                &&& (rep is Cancelled ==> s >= 0 && dec[s] is CancelAll)
            })
        }
}

/// Walks the files of a run in order, rewriting, diffing and reviewing each
/// against its decision script, and stops the moment a review cancels the
/// run: every file before that point carries its own outcome — fixed by
/// `report_post` over its script — every file after it is never reached.
pub fn process_files(
    files: &Vec<FileEntry>,
    moves: &Vec<Move>,
    scripts: &Vec<Vec<ReviewDecision>>,
) -> (r: Vec<FileReport>)
    requires
        scripts@.len() == files@.len(),
    ensures
        r@.len() == files@.len(),
        forall|i: int|
            0 <= i < r@.len() ==> ((#[trigger] r@[i]) is NotReached <==> exists|j: int|
                0 <= j < i && (#[trigger] r@[j]) is Cancelled),
        forall|i: int|
            0 <= i < r@.len() && (#[trigger] r@[i]) is Unchanged ==> rewrite_from_s(
                files@[i].path,
                files@[i].content@,
                moves@,
            ) == files@[i].content@,
        forall|i: int|
            0 <= i < r@.len() && !((#[trigger] r@[i]) is NotReached) && rewrite_from_s(
                files@[i].path,
                files@[i].content@,
                moves@,
            ) == files@[i].content@ ==> r@[i] is Unchanged,
        forall|i: int|
            0 <= i < r@.len() && !((#[trigger] r@[i]) is NotReached) && !(r@[i] is Unchanged)
                ==> report_post(
                r@[i],
                files@[i].content@,
                rewrite_from_s(files@[i].path, files@[i].content@, moves@),
                scripts@[i]@,
            ),
{
    let mut r: Vec<FileReport> = Vec::new();
    let mut i: usize = 0;
    while i < files.len()
        invariant
            i <= files@.len(),
            scripts@.len() == files@.len(),
            r@.len() == i,
            forall|j: int| 0 <= j < i ==> !((#[trigger] r@[j]) is NotReached),
            forall|j: int| 0 <= j < i ==> !((#[trigger] r@[j]) is Cancelled),
            forall|j: int|
                0 <= j < i && (#[trigger] r@[j]) is Unchanged ==> rewrite_from_s(
                    files@[j].path,
                    files@[j].content@,
                    moves@,
                ) == files@[j].content@,
            forall|j: int|
                0 <= j < i && rewrite_from_s(files@[j].path, files@[j].content@, moves@)
                    == files@[j].content@ ==> (#[trigger] r@[j]) is Unchanged,
            forall|j: int|
                0 <= j < i && !((#[trigger] r@[j]) is Unchanged) ==> report_post(
                    r@[j],
                    files@[j].content@,
                    rewrite_from_s(files@[j].path, files@[j].content@, moves@),
                    scripts@[j]@,
                ),
        decreases files@.len() - i,
    {
        let f = &files[i];
        let cand = rewrite_content(&f.path, &f.content, moves);
        if crate::path::seg_eq(&f.content, &cand) {
            r.push(FileReport::Unchanged);
        } else {
            let ghost content_s = f.content@;
            let ghost cand_s = cand@;
            let ghost dec = scripts@[i as int]@;
            let outcome = review_content(&f.content, &cand, &scripts[i]);
            proof {
                let hs = choose|hs: Seq<Hunk>|
                    {
                        &&& hunks_wf(hs, split_s(content_s), split_s(cand_s))
                        &&& hunk_changes_from(hs, 0) == changes_of(
                            diff_of(split_s(content_s), split_s(cand_s)),
                        )
                        &&& review_post(outcome, split_s(content_s), split_s(cand_s), hs, dec)
                    };
                lemma_review_post_cases(outcome, split_s(content_s), split_s(cand_s), hs, dec);
                lemma_report_witness(outcome, content_s, cand_s, hs, dec);
            }
            match outcome {
                FileOutcome::Written(lines) => {
                    let joined = join_lines(&lines);
                    proof {
                        assert(outcome matches FileOutcome::Written(w) && w == lines);
                    }
                    r.push(FileReport::Written(joined));
                },
                FileOutcome::Untouched => {
                    r.push(FileReport::Untouched);
                },
                FileOutcome::CancelRun => {
                    let ghost c = i as int;
                    r.push(FileReport::Cancelled);
                    let mut m: usize = i + 1;
                    while m < files.len()
                        invariant
                            c + 1 <= m <= files@.len(),
                            r@.len() == m,
                            0 <= c < r@.len(),
                            r@[c] is Cancelled,
                            forall|j: int| 0 <= j < c ==> !((#[trigger] r@[j]) is NotReached),
                            forall|j: int| 0 <= j < c ==> !((#[trigger] r@[j]) is Cancelled),
                            !(r@[c] is NotReached),
                            forall|j: int| c < j < r@.len() ==> (#[trigger] r@[j]) is NotReached,
                            forall|j: int|
                                0 <= j < c && (#[trigger] r@[j]) is Unchanged ==> rewrite_from_s(
                                    files@[j].path,
                                    files@[j].content@,
                                    moves@,
                                ) == files@[j].content@,
                            forall|j: int|
                                0 <= j < c && rewrite_from_s(
                                    files@[j].path,
                                    files@[j].content@,
                                    moves@,
                                ) == files@[j].content@ ==> (#[trigger] r@[j]) is Unchanged,
                            forall|j: int|
                                0 <= j <= c && !((#[trigger] r@[j]) is Unchanged) && !(r@[j]
                                    is NotReached) ==> report_post(
                                    r@[j],
                                    files@[j].content@,
                                    rewrite_from_s(files@[j].path, files@[j].content@, moves@),
                                    scripts@[j]@,
                                ),
                            rewrite_from_s(files@[c].path, files@[c].content@, moves@)
                                != files@[c].content@,
                        decreases files@.len() - m,
                    {
                        r.push(FileReport::NotReached);
                        m = m + 1;
                    }
                    return r;
                },
            }
        }
        i = i + 1;
    }
    r
}


/// With every decision an accept, the accepted edits up to the end are all
/// of the hunks' edits.
proof fn lemma_acc_upto_all(hs: Seq<Hunk>, dec: Seq<ReviewDecision>, i: int)
    requires
        0 <= i <= hs.len(),
        dec.len() >= hs.len(),
        forall|j: int| 0 <= j < hs.len() ==> (#[trigger] dec[j]) is Accept,
    ensures
        acc_upto(hs, dec, hs.len() as int) == acc_upto(hs, dec, i) + hunk_changes_from(hs, i),
    decreases hs.len() - i,
{
    if i == hs.len() {
        assert(hunk_changes_from(hs, i) =~= Seq::<LineOp>::empty());
        assert(acc_upto(hs, dec, i) + hunk_changes_from(hs, i) =~= acc_upto(hs, dec, i));
    } else {
        lemma_acc_upto_all(hs, dec, i + 1);
        assert(acc_upto(hs, dec, i + 1) == acc_upto(hs, dec, i) + changes_of(hs[i].ops@));
        assert(hunk_changes_from(hs, i) == changes_of(hs[i].ops@) + hunk_changes_from(hs, i + 1));
        assert(acc_upto(hs, dec, i) + changes_of(hs[i].ops@) + hunk_changes_from(hs, i + 1)
            =~= acc_upto(hs, dec, i) + hunk_changes_from(hs, i));
    }
}

/// A review that accepts every hunk of a full diff writes exactly the
/// candidate lines: splicing all accepted edits into the original rebuilds
/// the candidate.
pub proof fn lemma_accept_all_writes_candidate(
    hs: Seq<Hunk>,
    dec: Seq<ReviewDecision>,
    ops: Seq<LineOp>,
    o: Seq<Seq<char>>,
    n: Seq<Seq<char>>,
)
    requires
        ops_wf(ops, o, n),
        hunk_changes_from(hs, 0) == changes_of(ops),
        dec.len() >= hs.len(),
        forall|j: int| 0 <= j < hs.len() ==> (#[trigger] dec[j]) is Accept,
    ensures
        apply_edits_s(o, n, acc_upto(hs, dec, hs.len() as int), 0) == n,
{
    lemma_acc_upto_all(hs, dec, 0);
    assert(acc_upto(hs, dec, 0) + hunk_changes_from(hs, 0) =~= hunk_changes_from(hs, 0));
    lemma_apply_all_changes(ops, o, n);
}


} // verus!
