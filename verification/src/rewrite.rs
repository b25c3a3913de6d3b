//! The reference rewriter: given a file's path, its content and an ordered
//! list of moves, substitutes every supported textual form of each move's
//! source path by the matching form of its destination. Matching is plain
//! text: the direct form is relative to the file's directory, the indirect
//! form is anchored one level above the moved paths' common ancestor, and
//! extension-less forms match only when a quote character bounds them.
use vstd::prelude::*;

verus! {

use crate::path::{
    rel_defined, rel_is_abs, rel_path, rel_path_segs, render_form, strip_last_s, strip_extension,
    find_common_parent, cpl, FsPath, copy_seg,
};
use crate::text::{
    chars_string, occurs, replace_all, replace_all_s, lemma_replace_no_occurrence, str_chars,
};

/// One rename: where an entry was and where it now stands.
pub struct Move {
    pub source: FsPath,
    pub destination: FsPath,
}

/// A quote-bounded pattern: the prefix, then the rendered form, then the
/// quote character.
pub open spec fn quote_pat(prefix: Seq<char>, abs: bool, segs: Seq<Seq<char>>, q: char) -> Seq<
    char,
> {
    prefix + render_form(abs, segs) + seq![q]
}

/// The extension-less, quote-bounded substitutions for one source and
/// destination form: first with `"`, then with `'`, each bounded by the
/// quote so that longer names sharing the prefix stay untouched.
pub open spec fn wo_ext_s(
    content: Seq<char>,
    s_abs: bool,
    ss: Seq<Seq<char>>,
    d_abs: bool,
    ds: Seq<Seq<char>>,
    prefix: Seq<char>,
) -> Seq<char> {
    let sp = strip_last_s(ss);
    let dp = strip_last_s(ds);
    let c1 = replace_all_s(
        content,
        quote_pat(prefix, s_abs, sp, '"'),
        quote_pat(prefix, d_abs, dp, '"'),
    );
    replace_all_s(c1, quote_pat(prefix, s_abs, sp, '\''), quote_pat(prefix, d_abs, dp, '\''))
}

/// The full substitution for one source and destination form: the literal
/// rendered form, then the two quote-bounded extension-less forms.
pub open spec fn replace_pair_s(
    content: Seq<char>,
    s_abs: bool,
    ss: Seq<Seq<char>>,
    d_abs: bool,
    ds: Seq<Seq<char>>,
    prefix: Seq<char>,
) -> Seq<char> {
    let c1 = replace_all_s(content, render_form(s_abs, ss), render_form(d_abs, ds));
    wo_ext_s(c1, s_abs, ss, d_abs, ds, prefix)
}

/// The direct substitution for one move: both paths taken relative to the
/// file's own directory. Skipped whole when the file has no parent or a
/// relative form is undefined.
pub open spec fn direct_s(path: FsPath, content: Seq<char>, mv: Move) -> Seq<char> {
    if path.segs().len() == 0 {
        content
    } else {
        let par_abs = path.absolute;
        let par = path.segs().drop_last();
        if !rel_defined(mv.source.absolute, par_abs) || !rel_defined(
            mv.destination.absolute,
            par_abs,
        ) {
            content
        } else {
            let sa = rel_is_abs(mv.source.absolute, par_abs);
            let ss = rel_path_segs(mv.source.absolute, mv.source.segs(), par_abs, par);
            let da = rel_is_abs(mv.destination.absolute, par_abs);
            let ds = rel_path_segs(mv.destination.absolute, mv.destination.segs(), par_abs, par);
            replace_pair_s(content, sa, ss, da, ds, Seq::<char>::empty())
        }
    }
}

/// The segments of the common ancestor of a move's two paths.
pub open spec fn common_segs_s(mv: Move) -> Seq<Seq<char>> {
    if mv.source.absolute == mv.destination.absolute {
        mv.source.segs().subrange(0, cpl(mv.source.segs(), mv.destination.segs()))
    } else {
        Seq::<Seq<char>>::empty()
    }
}

/// The indirect substitution for one move: both paths taken relative to the
/// parent of their common ancestor, with a `/` prefix on the quote-bounded
/// forms so that only anchored occurrences match. Skipped whole when the
/// anchor does not exist or a relative form is undefined.
pub open spec fn indirect_s(content: Seq<char>, mv: Move) -> Seq<char> {
    let c_abs = mv.source.absolute && mv.destination.absolute;
    let c = common_segs_s(mv);
    if c.len() == 0 {
        content
    } else {
        let anchor = c.drop_last();
        if !rel_defined(mv.source.absolute, c_abs) || !rel_defined(
            mv.destination.absolute,
            c_abs,
        ) {
            content
        } else {
            let sa = rel_is_abs(mv.source.absolute, c_abs);
            let ss = rel_path_segs(mv.source.absolute, mv.source.segs(), c_abs, anchor);
            let da = rel_is_abs(mv.destination.absolute, c_abs);
            let ds = rel_path_segs(mv.destination.absolute, mv.destination.segs(), c_abs, anchor);
            replace_pair_s(content, sa, ss, da, ds, seq!['/'])
        }
    }
}

/// One move's effect on a file's content: the direct substitution, then the
/// indirect one on its output.
pub open spec fn rewrite_one_s(path: FsPath, content: Seq<char>, mv: Move) -> Seq<char> {
    indirect_s(direct_s(path, content, mv), mv)
}

/// The moves' cumulative effect, applied in the order given: each move
/// rewrites the previous move's output.
pub open spec fn rewrite_from_s(path: FsPath, content: Seq<char>, moves: Seq<Move>) -> Seq<char>
    decreases moves.len(),
{
    if moves.len() == 0 {
        content
    } else {
        rewrite_from_s(path, rewrite_one_s(path, content, moves[0]), moves.drop_first())
    }
}

/// Builds `prefix + body + quote`.
fn build_pat(prefix: &Vec<char>, body: &Vec<char>, q: char) -> (r: Vec<char>)
    ensures
        r@ == prefix@ + body@ + seq![q],
{
    let mut r = copy_seg(prefix);
    let mut i: usize = 0;
    while i < body.len()
        invariant
            i <= body@.len(),
            r@ == prefix@ + body@.subrange(0, i as int),
        decreases body@.len() - i,
    {
        r.push(body[i]);
        assert(r@ =~= prefix@ + body@.subrange(0, i + 1));
        i = i + 1;
    }
    assert(r@ =~= prefix@ + body@);
    r.push(q);
    proof {
        assert(r@ =~= prefix@ + body@ + seq![q]);
    }
    r
}

/// The two quote-bounded extension-less substitutions for one pair of
/// relative forms.
pub fn replace_without_ext(
    content: &Vec<char>,
    src_form: &FsPath,
    dst_form: &FsPath,
    prefix: &Vec<char>,
) -> (r: Vec<char>)
    ensures
        r@ == wo_ext_s(
            content@,
            src_form.absolute,
            src_form.segs(),
            dst_form.absolute,
            dst_form.segs(),
            prefix@,
        ),
{
    let ss = strip_extension(src_form);
    let ds = strip_extension(dst_form);
    let rs = ss.render();
    let rd = ds.render();
    let p1 = build_pat(prefix, &rs, '"');
    let r1 = build_pat(prefix, &rd, '"');
    let c1 = replace_all(content, &p1, &r1);
    let p2 = build_pat(prefix, &rs, '\'');
    let r2 = build_pat(prefix, &rd, '\'');
    replace_all(&c1, &p2, &r2)
}

/// The literal substitution of one pair of forms followed by their
/// quote-bounded extension-less substitutions.
pub fn replace_pair(
    content: &Vec<char>,
    src_form: &FsPath,
    dst_form: &FsPath,
    prefix: &Vec<char>,
) -> (r: Vec<char>)
    ensures
        r@ == replace_pair_s(
            content@,
            src_form.absolute,
            src_form.segs(),
            dst_form.absolute,
            dst_form.segs(),
            prefix@,
        ),
{
    let ps = src_form.render();
    let pd = dst_form.render();
    let c1 = replace_all(content, &ps, &pd);
    replace_without_ext(&c1, src_form, dst_form, prefix)
}

/// The direct substitution: source and destination taken relative to the
/// file's own directory.
pub fn replace_direct(path: &FsPath, content: &Vec<char>, mv: &Move) -> (r: Vec<char>)
    ensures
        r@ == direct_s(*path, content@, *mv),
{
    let parent = match path.parent() {
        Some(p) => p,
        None => {
            return copy_seg(content);
        },
    };
    let src_form = match rel_path(&mv.source, &parent) {
        Some(f) => f,
        None => {
            return copy_seg(content);
        },
    };
    let dst_form = match rel_path(&mv.destination, &parent) {
        Some(f) => f,
        None => {
            return copy_seg(content);
        },
    };
    let empty: Vec<char> = Vec::new();
    replace_pair(content, &src_form, &dst_form, &empty)
}

/// The indirect substitution: source and destination taken relative to the
/// parent of their common ancestor, quote-bounded forms anchored with `/`.
pub fn replace_indirect(content: &Vec<char>, mv: &Move) -> (r: Vec<char>)
    ensures
        r@ == indirect_s(content@, *mv),
{
    let common = find_common_parent(&mv.source, &mv.destination);
    let anchor = match common.parent() {
        Some(a) => a,
        None => {
            return copy_seg(content);
        },
    };
    let src_form = match rel_path(&mv.source, &anchor) {
        Some(f) => f,
        None => {
            return copy_seg(content);
        },
    };
    let dst_form = match rel_path(&mv.destination, &anchor) {
        Some(f) => f,
        None => {
            return copy_seg(content);
        },
    };
    let mut prefix: Vec<char> = Vec::new();
    prefix.push('/');
    assert(prefix@ =~= seq!['/']);
    replace_pair(content, &src_form, &dst_form, &prefix)
}

/// One move's effect: the direct substitution, then the indirect one.
pub fn rewrite_one(path: &FsPath, content: &Vec<char>, mv: &Move) -> (r: Vec<char>)
    ensures
        r@ == rewrite_one_s(*path, content@, *mv),
{
    let c1 = replace_direct(path, content, mv);
    replace_indirect(&c1, mv)
}

/// All moves applied in order, each to the previous one's output.
pub fn rewrite_content(path: &FsPath, content: &Vec<char>, moves: &Vec<Move>) -> (r: Vec<char>)
    ensures
        r@ == rewrite_from_s(*path, content@, moves@),
{
    let mut acc = copy_seg(content);
    let mut i: usize = 0;
    assert(moves@.skip(0) =~= moves@);
    while i < moves.len()
        invariant
            i <= moves@.len(),
            rewrite_from_s(*path, content@, moves@) == rewrite_from_s(
                *path,
                acc@,
                moves@.skip(i as int),
            ),
        decreases moves@.len() - i,
    {
        let ghost rest = moves@.skip(i as int);
        proof {
            assert(rest[0] == moves@[i as int]);
            assert(rest.drop_first() =~= moves@.skip(i + 1));
        }
        acc = rewrite_one(path, &acc, &moves[i]);
        i = i + 1;
    }
    proof {
        assert(moves@.skip(moves@.len() as int) =~= Seq::<Move>::empty());
    }
    acc
}

/// Rewrites a file's content for all moves, in the order given; returns the
/// candidate content. Pure text work: no occurrence of any supported form
/// leaves the content exactly as it was.
pub fn replace_path_usages_in_file_content(path: &FsPath, content: &str, moves: &Vec<Move>) -> (r:
    String)
    ensures
        r@ == rewrite_from_s(*path, content@, moves@),
{
    let chars = str_chars(content);
    let out = rewrite_content(path, &chars, moves);
    chars_string(&out)
}

/// The extension-less quote-bounded substitutions with no prefix, on text.
pub fn replace_without_extension(content: &str, source: &FsPath, destination: &FsPath) -> (r:
    Option<String>)
    ensures
        r is Some,
        r->Some_0@ == wo_ext_s(
            content@,
            source.absolute,
            source.segs(),
            destination.absolute,
            destination.segs(),
            Seq::<char>::empty(),
        ),
{
    let chars = str_chars(content);
    let empty: Vec<char> = Vec::new();
    let out = replace_without_ext(&chars, source, destination, &empty);
    Some(chars_string(&out))
}

/// The extension-less quote-bounded substitutions with a prefix, on text.
pub fn replace_without_extension_with_prefix(
    content: &str,
    source: &FsPath,
    destination: &FsPath,
    prefix: &str,
) -> (r: Option<String>)
    ensures
        r is Some,
        r->Some_0@ == wo_ext_s(
            content@,
            source.absolute,
            source.segs(),
            destination.absolute,
            destination.segs(),
            prefix@,
        ),
{
    let chars = str_chars(content);
    let pre = str_chars(prefix);
    let out = replace_without_ext(&chars, source, destination, &pre);
    Some(chars_string(&out))
}

/// The direct substitution on text; nothing to relate the paths by leaves
/// the content unchanged inside `Some`.
pub fn replace_direct_path_usages(path: &FsPath, content: &str, mv: &Move) -> (r: String)
    ensures
        r@ == direct_s(*path, content@, *mv),
{
    let chars = str_chars(content);
    let out = replace_direct(path, &chars, mv);
    chars_string(&out)
}

/// The indirect substitution on text.
pub fn replace_indirect_path_usages(content: &str, mv: &Move) -> (r: String)
    ensures
        r@ == indirect_s(content@, *mv),
{
    let chars = str_chars(content);
    let out = replace_indirect(&chars, mv);
    chars_string(&out)
}

/// No supported pattern of this source form occurs in the content.
pub open spec fn pats_clear(
    content: Seq<char>,
    s_abs: bool,
    ss: Seq<Seq<char>>,
    prefix: Seq<char>,
) -> bool {
    &&& !occurs(content, render_form(s_abs, ss))
    &&& !occurs(content, quote_pat(prefix, s_abs, strip_last_s(ss), '"'))
    &&& !occurs(content, quote_pat(prefix, s_abs, strip_last_s(ss), '\''))
}

/// No supported form of this move's source path occurs in the content.
pub open spec fn no_source_occurrence(path: FsPath, content: Seq<char>, mv: Move) -> bool {
    let d_ok = path.segs().len() > 0 && rel_defined(mv.source.absolute, path.absolute)
        && rel_defined(mv.destination.absolute, path.absolute);
    let c = common_segs_s(mv);
    let c_abs = mv.source.absolute && mv.destination.absolute;
    let i_ok = c.len() > 0 && rel_defined(mv.source.absolute, c_abs) && rel_defined(
        mv.destination.absolute,
        c_abs,
    );
    &&& (d_ok ==> pats_clear(
        content,
        rel_is_abs(mv.source.absolute, path.absolute),
        rel_path_segs(mv.source.absolute, mv.source.segs(), path.absolute, path.segs().drop_last()),
        Seq::<char>::empty(),
    ))
    &&& (i_ok ==> pats_clear(
        content,
        rel_is_abs(mv.source.absolute, c_abs),
        rel_path_segs(mv.source.absolute, mv.source.segs(), c_abs, c.drop_last()),
        seq!['/'],
    ))
}

proof fn lemma_pair_clear(
    content: Seq<char>,
    s_abs: bool,
    ss: Seq<Seq<char>>,
    d_abs: bool,
    ds: Seq<Seq<char>>,
    prefix: Seq<char>,
)
    requires
        pats_clear(content, s_abs, ss, prefix),
    ensures
        replace_pair_s(content, s_abs, ss, d_abs, ds, prefix) == content,
{
    lemma_replace_no_occurrence(content, render_form(s_abs, ss), render_form(d_abs, ds));
    lemma_replace_no_occurrence(
        content,
        quote_pat(prefix, s_abs, strip_last_s(ss), '"'),
        quote_pat(prefix, d_abs, strip_last_s(ds), '"'),
    );
    lemma_replace_no_occurrence(
        content,
        quote_pat(prefix, s_abs, strip_last_s(ss), '\''),
        quote_pat(prefix, d_abs, strip_last_s(ds), '\''),
    );
}

/// A move none of whose source forms occurs in the content rewrites the
/// content to itself.
pub proof fn lemma_rewrite_one_no_occurrence(path: FsPath, content: Seq<char>, mv: Move)
    requires
        no_source_occurrence(path, content, mv),
    ensures
        rewrite_one_s(path, content, mv) == content,
{
    if path.segs().len() > 0 && rel_defined(mv.source.absolute, path.absolute) && rel_defined(
        mv.destination.absolute,
        path.absolute,
    ) {
        lemma_pair_clear(
            content,
            rel_is_abs(mv.source.absolute, path.absolute),
            rel_path_segs(
                mv.source.absolute,
                mv.source.segs(),
                path.absolute,
                path.segs().drop_last(),
            ),
            rel_is_abs(mv.destination.absolute, path.absolute),
            rel_path_segs(
                mv.destination.absolute,
                mv.destination.segs(),
                path.absolute,
                path.segs().drop_last(),
            ),
            Seq::<char>::empty(),
        );
    }
    assert(direct_s(path, content, mv) == content);
    let c = common_segs_s(mv);
    let c_abs = mv.source.absolute && mv.destination.absolute;
    if c.len() > 0 && rel_defined(mv.source.absolute, c_abs) && rel_defined(
        mv.destination.absolute,
        c_abs,
    ) {
        lemma_pair_clear(
            content,
            rel_is_abs(mv.source.absolute, c_abs),
            rel_path_segs(mv.source.absolute, mv.source.segs(), c_abs, c.drop_last()),
            rel_is_abs(mv.destination.absolute, c_abs),
            rel_path_segs(mv.destination.absolute, mv.destination.segs(), c_abs, c.drop_last()),
            seq!['/'],
        );
    }
    assert(indirect_s(content, mv) == content);
}

/// A file whose content holds no occurrence of any move's source path, in
/// any supported form, is rewritten to exactly its original content.
pub proof fn lemma_rewrite_no_occurrence(path: FsPath, content: Seq<char>, moves: Seq<Move>)
    requires
        forall|i: int|
            0 <= i < moves.len() ==> no_source_occurrence(path, content, #[trigger] moves[i]),
    ensures
        rewrite_from_s(path, content, moves) == content,
    decreases moves.len(),
{
    if moves.len() == 0 {
    } else {
        lemma_rewrite_one_no_occurrence(path, content, moves[0]);
        assert(forall|i: int|
            0 <= i < moves.drop_first().len() ==> no_source_occurrence(
                path,
                content,
                #[trigger] moves.drop_first()[i],
            ));
        lemma_rewrite_no_occurrence(path, content, moves.drop_first());
    }
}

} // verus!
