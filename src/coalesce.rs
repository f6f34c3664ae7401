//! Merging adjacent references: a reference that starts where the one before
//! it ends, in the same source message, is folded into it.
use crate::encoding::{
    copy_segment, encodes, encodes_prefix, fits_at, lemma_encodes_complete, lemma_encodes_fits,
    lemma_encodes_pop, lemma_encodes_push, lemma_offset_monotone, offset, span_len, views, Segment,
    SegmentView,
};
use crate::index::lengths_fit;
use vstd::prelude::*;

verus! {

/// Reference `b` continues reference `a`: same message, starting where `a` ends.
pub open spec fn continues(a: SegmentView, b: SegmentView) -> bool {
    match (a, b) {
        (
            SegmentView::Reference { message_idx: m1, start: s1, len: l1 },
            SegmentView::Reference { message_idx: m2, start: s2, .. },
        ) => m1 == m2 && s2 == s1 + l1,
        _ => false,
    }
}

/// The reference covering `a` followed by `b`.
pub open spec fn merged(a: SegmentView, b: SegmentView) -> SegmentView {
    SegmentView::Reference {
        message_idx: a->message_idx,
        start: a->start,
        len: (a->len + b->len) as usize,
    }
}

/// `segs` with every run of references that continue one another merged into one.
pub open spec fn coalesce(segs: Seq<SegmentView>) -> Seq<SegmentView>
    decreases segs.len(),
{
    if segs.len() == 0 {
        Seq::empty()
    } else {
        let prev = coalesce(segs.drop_last());
        let x = segs.last();
        if prev.len() > 0 && continues(prev.last(), x) {
            prev.drop_last().push(merged(prev.last(), x))
        } else {
            prev.push(x)
        }
    }
}

/// A reference that continues the last one of an encoded prefix merges with
/// it into one reference that fits where that last one stood.
proof fn lemma_merge_fits(
    msgs: Seq<Seq<u8>>,
    i: int,
    k: int,
    segs: Seq<SegmentView>,
    x: SegmentView,
)
    requires
        encodes_prefix(msgs, i, segs, k),
        segs.len() > 0,
        continues(segs.last(), x),
        fits_at(msgs, i, offset(segs, segs.len() as int), k, x),
        lengths_fit(msgs),
    ensures
        encodes_prefix(msgs, i, segs.drop_last(), k),
        segs.last()->len + x->len <= usize::MAX,
        fits_at(msgs, i, offset(segs.drop_last(), segs.len() - 1), k, merged(segs.last(), x)),
        offset(segs.drop_last(), segs.len() - 1) + span_len(merged(segs.last(), x)) == offset(
            segs,
            segs.len() as int,
        ) + span_len(x),
{
    lemma_encodes_pop(msgs, i, k, segs);
    let p = segs.drop_last();
    lemma_offset_monotone(p, 0, p.len() as int);
    let lv = segs.last();
    let o = offset(p, p.len() as int);
    let m = msgs[lv->message_idx as int];
    let mi = msgs[i];
    let l1 = lv->len as int;
    let l2 = x->len as int;
    let st = lv->start as int;
    assert(m.subrange(st, st + l1 + l2) =~= m.subrange(st, st + l1) + m.subrange(
        st + l1,
        st + l1 + l2,
    ));
    assert(mi.subrange(o, o + l1 + l2) =~= mi.subrange(o, o + l1) + mi.subrange(
        o + l1,
        o + l1 + l2,
    ));
}

/// Whether `x` is a reference that continues the last segment of `out`.
fn continues_last(out: &Vec<Segment>, x: &Segment) -> (r: bool)
    ensures
        r == (out.len() > 0 && continues(views(out@).last(), x@)),
{
    if out.len() == 0 {
        return false;
    }
    let last = &out[out.len() - 1];
    assert(views(out@).last() == last@);
    match (last, x) {
        (
            Segment::Reference { message_idx: m1, start: s1, len: l1 },
            Segment::Reference { message_idx: m2, start: s2, .. },
        ) => *m1 == *m2 && *s2 >= *s1 && *s2 - *s1 == *l1,
        _ => false,
    }
}

/// Replaces the last segment of `out`, which `x` continues, by their merger.
fn merge_into_last(out: &mut Vec<Segment>, x: &Segment)
    requires
        old(out).len() > 0,
        continues(views(old(out)@).last(), x@),
        views(old(out)@).last()->len + x@->len <= usize::MAX,
    ensures
        views(final(out)@) == views(old(out)@).drop_last().push(merged(
            views(old(out)@).last(),
            x@,
        )),
{
    let ghost before = views(out@);
    assert(before.last() == out@[out.len() - 1]@);
    let last = out.pop().unwrap();
    let merged_seg = match (last, x) {
        (
            Segment::Reference { message_idx, start, len: l1 },
            Segment::Reference { len: l2, .. },
        ) => Segment::Reference { message_idx, start, len: l1 + *l2 },
        (other, _) => other,
    };
    out.push(merged_seg);
    assert(views(out@) =~= before.drop_last().push(merged(before.last(), x@)));
}

/// Merges each reference into the one before it where it continues it.
pub(crate) fn coalesce_references(
    segs: &Vec<Segment>,
    msgs: Ghost<Seq<Seq<u8>>>,
    i: Ghost<int>,
    k: Ghost<int>,
) -> (r: Vec<Segment>)
    requires
        0 <= i@ < msgs@.len(),
        lengths_fit(msgs@),
        encodes(msgs@, i@, views(segs@), k@),
    ensures
        views(r@) == coalesce(views(segs@)),
        encodes(msgs@, i@, views(r@), k@),
{
    let ghost sv = views(segs@);
    let mut out: Vec<Segment> = Vec::with_capacity(segs.len());
    let mut n: usize = 0;
    while n < segs.len()
        invariant
            0 <= i@ < msgs@.len(),
            lengths_fit(msgs@),
            sv == views(segs@),
            encodes(msgs@, i@, sv, k@),
            n <= segs.len(),
            views(out@) == coalesce(sv.take(n as int)),
            encodes_prefix(msgs@, i@, views(out@), k@),
            offset(views(out@), out.len() as int) == offset(sv, n as int),
        decreases segs.len() - n,
    {
        let ghost old_out = views(out@);
        proof {
            assert(sv.take(n + 1).drop_last() =~= sv.take(n as int));
            assert(sv.take(n + 1).last() == sv[n as int]);
            lemma_encodes_fits(msgs@, i@, k@, sv, n as int);
            assert(sv[n as int] == segs[n as int]@);
        }
        if continues_last(&out, &segs[n]) {
            proof {
                lemma_merge_fits(msgs@, i@, k@, old_out, sv[n as int]);
                lemma_encodes_push(
                    msgs@,
                    i@,
                    k@,
                    old_out.drop_last(),
                    merged(old_out.last(), sv[n as int]),
                );
            }
            merge_into_last(&mut out, &segs[n]);
        } else {
            proof {
                lemma_encodes_push(msgs@, i@, k@, old_out, sv[n as int]);
            }
            out.push(copy_segment(&segs[n]));
            proof {
                assert(views(out@) =~= old_out.push(sv[n as int]));
            }
        }
        n = n + 1;
    }
    proof {
        assert(sv.take(segs.len() as int) =~= sv);
        lemma_encodes_complete(msgs@, i@, k@, views(out@));
    }
    out
}

} // verus!
