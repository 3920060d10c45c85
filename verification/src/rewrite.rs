use vstd::prelude::*;
use vstd::slice::slice_subrange;

use crate::identity::{identity_of, name_of, uuid_text_of, find_name, artifact_stem};
use crate::scan::{PumlView, Puml, pumls_of, pumls_wf, lemma_pumls_wf, find_pumls, delimiter_hits};
use crate::text::extend_bytes;

verus! {

/// `../` repeated `depth` times: the climb from a chapter's directory to the
/// document root.
pub open spec fn updirs(depth: int) -> Seq<u8>
    decreases depth,
{
    if depth <= 0 {
        Seq::empty()
    } else {
        seq![46u8, 46u8, 47u8] + updirs(depth - 1)
    }
}

/// One more step up appends one `../` at the back as well.
pub proof fn lemma_updirs_snoc(depth: int)
    requires
        0 <= depth,
    ensures
        updirs(depth + 1) == updirs(depth) + seq![46u8, 46u8, 47u8],
    decreases depth,
{
    if depth == 0 {
        assert(updirs(1) =~= updirs(0) + seq![46u8, 46u8, 47u8]);
    } else {
        lemma_updirs_snoc(depth - 1);
        assert(updirs(depth + 1) =~= updirs(depth) + seq![46u8, 46u8, 47u8]);
    }
}

/// The directory under the document root that holds rendered artifacts,
/// `plantuml_images`.
pub open spec fn outdir_bytes() -> Seq<u8> {
    seq![
        112u8,
        108u8,
        97u8,
        110u8,
        116u8,
        117u8,
        109u8,
        108u8,
        95u8,
        105u8,
        109u8,
        97u8,
        103u8,
        101u8,
        115u8,
    ]
}

/// The image reference that replaces a successfully rendered block:
/// `![name](../../plantuml_images/identity.svg)`, with the name empty when
/// the content carries none and one `../` per directory level of `depth`.
pub open spec fn image_markup_spec(content: Seq<u8>, depth: int) -> Seq<u8> {
    seq![33u8, 91u8] + (match name_of(content) {
        Some(n) => n,
        None => Seq::empty(),
    }) + seq![93u8, 40u8] + updirs(depth) + outdir_bytes() + seq![47u8] + uuid_text_of(
        identity_of(content),
    ) + seq![46u8, 115u8, 118u8, 103u8, 41u8]
}

/// Builds the image reference for a block's content.
pub fn image_markup(content: &[u8], depth: usize) -> (r: Vec<u8>)
    ensures
        r@ == image_markup_spec(content@, depth as int),
{
    let mut out: Vec<u8> = Vec::new();
    out.push(33);
    out.push(91);
    proof {
        assert(out@ =~= seq![33u8, 91u8]);
    }
    let ghost name_part = match name_of(content@) {
        Some(n) => n,
        None => Seq::<u8>::empty(),
    };
    match find_name(content) {
        Some(n) => {
            extend_bytes(&mut out, n.as_slice());
        },
        None => {
            proof {
                assert(out@ =~= seq![33u8, 91u8] + name_part);
            }
        },
    }
    let ghost pre2 = out@;
    out.push(93);
    out.push(40);
    proof {
        assert(out@ =~= pre2 + seq![93u8, 40u8]);
    }
    let ghost pre3 = out@;
    let mut d: usize = 0;
    while d < depth
        invariant
            d <= depth,
            out@ == pre3 + updirs(d as int),
        decreases depth - d,
    {
        out.push(46);
        out.push(46);
        out.push(47);
        proof {
            lemma_updirs_snoc(d as int);
            assert(out@ =~= pre3 + updirs(d as int + 1));
        }
        d += 1;
    }
    let ghost pre4 = out@;
    out.push(112);
    out.push(108);
    out.push(97);
    out.push(110);
    out.push(116);
    out.push(117);
    out.push(109);
    out.push(108);
    out.push(95);
    out.push(105);
    out.push(109);
    out.push(97);
    out.push(103);
    out.push(101);
    out.push(115);
    out.push(47);
    proof {
        assert(out@ =~= pre4 + (outdir_bytes() + seq![47u8]));
    }
    let ghost pre5 = out@;
    let stem = artifact_stem(content);
    extend_bytes(&mut out, stem.as_slice());
    let ghost pre6 = out@;
    out.push(46);
    out.push(115);
    out.push(118);
    out.push(103);
    out.push(41);
    proof {
        assert(out@ =~= pre6 + seq![46u8, 115u8, 118u8, 103u8, 41u8]);
        assert(out@ =~= image_markup_spec(content@, depth as int));
    }
    out
}

/// Did block `i` render successfully?
pub open spec fn outcome(results: Seq<bool>, i: int) -> bool {
    0 <= i < results.len() && results[i]
}

/// The rewrite from block `i` on, with the copy cursor at `cursor`: a block
/// that is not suppressed and rendered successfully contributes the text up
/// to it and its image markup, and the cursor skips it; any other block
/// leaves the cursor at its start, so its own bytes are copied verbatim
/// later; the text after the last block is copied verbatim.
pub open spec fn rewrite_from(
    t: Seq<u8>,
    ps: Seq<PumlView>,
    results: Seq<bool>,
    depth: int,
    i: int,
    cursor: int,
) -> Seq<u8>
    decreases ps.len() - i,
{
    if i < 0 || i >= ps.len() {
        t.subrange(cursor, t.len() as int)
    } else if !ps[i].ignore && outcome(results, i) {
        t.subrange(cursor, ps[i].start) + image_markup_spec(ps[i].contents, depth) + rewrite_from(
            t,
            ps,
            results,
            depth,
            i + 1,
            ps[i].end,
        )
    } else {
        t.subrange(cursor, ps[i].start) + rewrite_from(t, ps, results, depth, i + 1, ps[i].start)
    }
}

/// The full rewrite of `t`: every block that is not suppressed and whose
/// render succeeded becomes its image markup; every other byte of `t` is
/// reproduced exactly, in order.
pub open spec fn rewrite_spec(t: Seq<u8>, depth: int, results: Seq<bool>) -> Seq<u8> {
    rewrite_from(t, pumls_of(t), results, depth, 0, 0)
}

/// Rewrites `text`: block `i` of its block list is replaced by its image
/// markup exactly when it is not suppressed and `results[i]` is true;
/// every other block, and all text between blocks, stays byte for byte.
pub fn replace_all(text: &[u8], depth: usize, results: &Vec<bool>) -> (r: Vec<u8>)
    ensures
        r@ == rewrite_spec(text@, depth as int, results@),
{
    let pumls = find_pumls(text);
    let ghost ps = pumls_of(text@);
    proof {
        lemma_pumls_wf(text@);
    }
    let mut out: Vec<u8> = Vec::new();
    let mut cursor: usize = 0;
    let mut i: usize = 0;
    while i < pumls.len()
        invariant
            pumls@.map_values(|p: Puml| p@) == ps,
            ps == pumls_of(text@),
            pumls_wf(text@, ps),
            i <= pumls@.len(),
            cursor <= text@.len(),
            i < ps.len() ==> cursor <= ps[i as int].start,
            rewrite_spec(text@, depth as int, results@) == out@ + rewrite_from(
                text@,
                ps,
                results@,
                depth as int,
                i as int,
                cursor as int,
            ),
        decreases pumls@.len() - i,
    {
        let p = &pumls[i];
        proof {
            assert(p@ == ps[i as int]);
        }
        let ghost out0 = out@;
        extend_bytes(&mut out, slice_subrange(text, cursor, p.start));
        if !p.ignore && i < results.len() && results[i] {
            let m = image_markup(p.contents.as_slice(), depth);
            extend_bytes(&mut out, m.as_slice());
            proof {
                assert(outcome(results@, i as int));
                assert(rewrite_from(text@, ps, results@, depth as int, i as int, cursor as int)
                    == text@.subrange(cursor as int, ps[i as int].start) + image_markup_spec(
                    ps[i as int].contents,
                    depth as int,
                ) + rewrite_from(
                    text@,
                    ps,
                    results@,
                    depth as int,
                    i as int + 1,
                    ps[i as int].end,
                ));
                assert(out@ + rewrite_from(
                    text@,
                    ps,
                    results@,
                    depth as int,
                    i as int + 1,
                    ps[i as int].end,
                ) =~= out0 + rewrite_from(
                    text@,
                    ps,
                    results@,
                    depth as int,
                    i as int,
                    cursor as int,
                ));
            }
            cursor = p.end;
        } else {
            proof {
                assert(!(!ps[i as int].ignore && outcome(results@, i as int)));
                assert(rewrite_from(text@, ps, results@, depth as int, i as int, cursor as int)
                    == text@.subrange(cursor as int, ps[i as int].start) + rewrite_from(
                    text@,
                    ps,
                    results@,
                    depth as int,
                    i as int + 1,
                    ps[i as int].start,
                ));
                assert(out@ + rewrite_from(
                    text@,
                    ps,
                    results@,
                    depth as int,
                    i as int + 1,
                    ps[i as int].start,
                ) =~= out0 + rewrite_from(
                    text@,
                    ps,
                    results@,
                    depth as int,
                    i as int,
                    cursor as int,
                ));
            }
            cursor = p.start;
        }
        proof {
            if i as int + 1 < ps.len() {
                assert(ps[i as int].end <= ps[i as int + 1].start);
            }
        }
        i += 1;
    }
    extend_bytes(&mut out, slice_subrange(text, cursor, text.len()));
    out
}

/// Text with no delimiter occurrence at all is passed through unchanged.
pub proof fn lemma_no_blocks_identity(t: Seq<u8>, depth: int, results: Seq<bool>)
    requires
        delimiter_hits(t).len() == 0,
    ensures
        rewrite_spec(t, depth, results) == t,
{
    assert(pumls_of(t) == Seq::<PumlView>::empty());
    assert(rewrite_spec(t, depth, results) == t.subrange(0, t.len() as int));
    assert(t.subrange(0, t.len() as int) =~= t);
}

/// When every block is suppressed or failed to render, the whole text is
/// reproduced byte for byte, fences and all.
pub proof fn lemma_preserved_when_no_replacement(t: Seq<u8>, depth: int, results: Seq<bool>)
    requires
        forall|i: int|
            0 <= i < pumls_of(t).len() ==> (#[trigger] pumls_of(t)[i]).ignore || !outcome(
                results,
                i,
            ),
    ensures
        rewrite_spec(t, depth, results) == t,
{
    lemma_pumls_wf(t);
    lemma_preserved_from(t, pumls_of(t), results, depth, 0, 0);
    assert(t.subrange(0, t.len() as int) =~= t);
}

/// From block `i` on, with nothing to replace, the rewrite is the rest of
/// the text.
proof fn lemma_preserved_from(
    t: Seq<u8>,
    ps: Seq<PumlView>,
    results: Seq<bool>,
    depth: int,
    i: int,
    cursor: int,
)
    requires
        pumls_wf(t, ps),
        0 <= i,
        0 <= cursor <= t.len(),
        i < ps.len() ==> cursor <= ps[i].start,
        forall|j: int| i <= j < ps.len() ==> (#[trigger] ps[j]).ignore || !outcome(results, j),
    ensures
        rewrite_from(t, ps, results, depth, i, cursor) == t.subrange(cursor, t.len() as int),
    decreases ps.len() - i,
{
    if i >= ps.len() {
    } else {
        lemma_preserved_from(t, ps, results, depth, i + 1, ps[i].start);
        assert(t.subrange(cursor, ps[i].start) + t.subrange(ps[i].start, t.len() as int)
            =~= t.subrange(cursor, t.len() as int));
    }
}

/// Copying the verbatim span in two steps changes nothing: the rewrite from
/// block `i` with the cursor at `cursor` is the text up to `mid` followed by
/// the rewrite from block `i` with the cursor at `mid`, for any `mid` not
/// beyond block `i`.
proof fn lemma_rewrite_prefix(
    t: Seq<u8>,
    ps: Seq<PumlView>,
    results: Seq<bool>,
    depth: int,
    i: int,
    cursor: int,
    mid: int,
)
    requires
        pumls_wf(t, ps),
        0 <= i,
        0 <= cursor <= mid <= t.len(),
        i < ps.len() ==> mid <= ps[i].start,
    ensures
        rewrite_from(t, ps, results, depth, i, cursor) == t.subrange(cursor, mid) + rewrite_from(
            t,
            ps,
            results,
            depth,
            i,
            mid,
        ),
{
    if i >= ps.len() {
        assert(t.subrange(cursor, t.len() as int) =~= t.subrange(cursor, mid) + t.subrange(
            mid,
            t.len() as int,
        ));
    } else if !ps[i].ignore && outcome(results, i) {
        assert(t.subrange(cursor, ps[i].start) =~= t.subrange(cursor, mid) + t.subrange(
            mid,
            ps[i].start,
        ));
        assert(rewrite_from(t, ps, results, depth, i, cursor) =~= t.subrange(cursor, mid)
            + rewrite_from(t, ps, results, depth, i, mid));
    } else {
        assert(t.subrange(cursor, ps[i].start) =~= t.subrange(cursor, mid) + t.subrange(
            mid,
            ps[i].start,
        ));
        assert(rewrite_from(t, ps, results, depth, i, cursor) =~= t.subrange(cursor, mid)
            + rewrite_from(t, ps, results, depth, i, mid));
    }
}

/// A block that is suppressed, or whose render failed, is reproduced in the
/// output byte for byte, fences and all: the whole rewrite splits into what
/// comes before the block, the block's own bytes unchanged, and what comes
/// after.  The two surrounding pieces are returned.
pub proof fn lemma_preserved_block_verbatim(
    t: Seq<u8>,
    depth: int,
    results: Seq<bool>,
    j: int,
) -> (r: (Seq<u8>, Seq<u8>))
    requires
        0 <= j < pumls_of(t).len(),
        pumls_of(t)[j].ignore || !outcome(results, j),
    ensures
        rewrite_spec(t, depth, results) == r.0 + t.subrange(
            pumls_of(t)[j].start,
            pumls_of(t)[j].end,
        ) + r.1,
{
    lemma_pumls_wf(t);
    lemma_block_verbatim(t, pumls_of(t), results, depth, 0, 0, j)
}

/// From block `i` on, a later suppressed or failed block `j` is reproduced
/// verbatim; the surrounding pieces are returned.
#[verifier::rlimit(50)]
proof fn lemma_block_verbatim(
    t: Seq<u8>,
    ps: Seq<PumlView>,
    results: Seq<bool>,
    depth: int,
    i: int,
    cursor: int,
    j: int,
) -> (r: (Seq<u8>, Seq<u8>))
    requires
        pumls_wf(t, ps),
        0 <= i <= j < ps.len(),
        0 <= cursor <= t.len(),
        cursor <= ps[i].start,
        ps[j].ignore || !outcome(results, j),
    ensures
        rewrite_from(t, ps, results, depth, i, cursor) == r.0 + t.subrange(
            ps[j].start,
            ps[j].end,
        ) + r.1,
    decreases j - i,
{
    if i == j {
        lemma_rewrite_prefix(t, ps, results, depth, j + 1, ps[j].start, ps[j].end);
        let a = t.subrange(cursor, ps[j].start);
        let b = rewrite_from(t, ps, results, depth, j + 1, ps[j].end);
        assert(t.subrange(ps[j].start, ps[j].end) + b == rewrite_from(
            t,
            ps,
            results,
            depth,
            j + 1,
            ps[j].start,
        ));
        assert(rewrite_from(t, ps, results, depth, i, cursor) =~= a + t.subrange(
            ps[j].start,
            ps[j].end,
        ) + b);
        (a, b)
    } else if !ps[i].ignore && outcome(results, i) {
        let inner = lemma_block_verbatim(t, ps, results, depth, i + 1, ps[i].end, j);
        let a = t.subrange(cursor, ps[i].start) + image_markup_spec(ps[i].contents, depth)
            + inner.0;
        assert(rewrite_from(t, ps, results, depth, i, cursor) =~= a + t.subrange(
            ps[j].start,
            ps[j].end,
        ) + inner.1);
        (a, inner.1)
    } else {
        let inner = lemma_block_verbatim(t, ps, results, depth, i + 1, ps[i].start, j);
        let a = t.subrange(cursor, ps[i].start) + inner.0;
        assert(rewrite_from(t, ps, results, depth, i, cursor) =~= a + t.subrange(
            ps[j].start,
            ps[j].end,
        ) + inner.1);
        (a, inner.1)
    }
}

/// The segments the rewriter emits, in order: each is either a verbatim span
/// of the original text or the image markup of one block.
pub open spec fn segments_from(
    t: Seq<u8>,
    ps: Seq<PumlView>,
    results: Seq<bool>,
    depth: int,
    i: int,
    cursor: int,
) -> Seq<Seq<u8>>
    decreases ps.len() - i,
{
    if i < 0 || i >= ps.len() {
        seq![t.subrange(cursor, t.len() as int)]
    } else if !ps[i].ignore && outcome(results, i) {
        seq![
            t.subrange(cursor, ps[i].start),
            image_markup_spec(ps[i].contents, depth),
        ] + segments_from(t, ps, results, depth, i + 1, ps[i].end)
    } else {
        seq![t.subrange(cursor, ps[i].start)] + segments_from(t, ps, results, depth, i + 1, ps[i].start)
    }
}

/// Concatenating the emitted segments yields exactly the rewrite: all
/// verbatim spans of the original text, in order, with the substitutions in
/// between, and not a byte of text outside the replaced blocks altered.
pub proof fn lemma_rewrite_is_segment_concat(t: Seq<u8>, depth: int, results: Seq<bool>)
    ensures
        rewrite_spec(t, depth, results) == segments_from(
            t,
            pumls_of(t),
            results,
            depth,
            0,
            0,
        ).flatten(),
{
    lemma_segments_from(t, pumls_of(t), results, depth, 0, 0);
}

/// Flattening the segment list from `i` on yields the rewrite from `i` on.
proof fn lemma_segments_from(
    t: Seq<u8>,
    ps: Seq<PumlView>,
    results: Seq<bool>,
    depth: int,
    i: int,
    cursor: int,
)
    ensures
        rewrite_from(t, ps, results, depth, i, cursor) == segments_from(
            t,
            ps,
            results,
            depth,
            i,
            cursor,
        ).flatten(),
    decreases ps.len() - i,
{
    if i < 0 || i >= ps.len() {
        let a = t.subrange(cursor, t.len() as int);
        assert(seq![a] + Seq::<Seq<u8>>::empty() =~= seq![a]);
        lemma_flatten_cons(a, Seq::<Seq<u8>>::empty());
        assert(Seq::<Seq<u8>>::empty().flatten() == Seq::<u8>::empty());
        assert(a + Seq::<u8>::empty() =~= a);
    } else if !ps[i].ignore && outcome(results, i) {
        lemma_segments_from(t, ps, results, depth, i + 1, ps[i].end);
        let rest = segments_from(t, ps, results, depth, i + 1, ps[i].end);
        let a = t.subrange(cursor, ps[i].start);
        let b = image_markup_spec(ps[i].contents, depth);
        assert(seq![a, b] + rest =~= seq![a] + (seq![b] + rest));
        lemma_flatten_cons(a, seq![b] + rest);
        lemma_flatten_cons(b, rest);
        assert(a + (b + rest.flatten()) =~= a + b + rest.flatten());
    } else {
        lemma_segments_from(t, ps, results, depth, i + 1, ps[i].start);
        let rest = segments_from(t, ps, results, depth, i + 1, ps[i].start);
        let a = t.subrange(cursor, ps[i].start);
        lemma_flatten_cons(a, rest);
    }
}

/// Flattening a list that starts with `a` yields `a` followed by the
/// flattening of the rest.
proof fn lemma_flatten_cons(a: Seq<u8>, rest: Seq<Seq<u8>>)
    ensures
        (seq![a] + rest).flatten() == a + rest.flatten(),
{
    let s = seq![a] + rest;
    assert(s.len() == 1 + rest.len());
    assert(s.first() == a);
    assert(s.drop_first() =~= rest);
    assert(s.flatten() == s.first() + s.drop_first().flatten());
}

} // verus!
