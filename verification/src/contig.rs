//! Contig merging: one pass that bridges neighbouring segments of one
//! strand across a small gap on both axes.

use crate::alignment::{lemma_spans_push, spans, QuasiAlignment, Span};
use crate::chain::{extended, merge};
use crate::contig_laws::{lemma_contigs_count, lemma_contigs_keep_order, lemma_contigs_settled};
use core::fmt::Debug;
use vstd::prelude::*;

verus! {

/// The distance between two coordinates.
pub open spec fn distance(a: int, b: int) -> int {
    if a >= b {
        a - b
    } else {
        b - a
    }
}

/// `next` may be joined to the contig `last`: both lie on one strand, the
/// query ranges are at most `tolerance` apart, and so are the reference
/// ranges at the ends that face each other on that strand.
pub open spec fn bridges(last: Span, next: Span, tolerance: int) -> bool {
    &&& last.forward == next.forward
    &&& distance(last.q_end, next.q_start) <= tolerance
    &&& if next.forward {
        distance(last.r_end, next.r_start) <= tolerance
    } else {
        distance(last.r_start, next.r_end) <= tolerance
    }
}

/// The contigs of a list of segments: a fold from the left in which each
/// segment is joined to the contig before it where it bridges to it, and
/// starts a contig of its own where it does not.
pub open spec fn contigs(segments: Seq<Span>, tolerance: int) -> Seq<Span>
    decreases segments.len(),
{
    if segments.len() == 0 {
        Seq::empty()
    } else {
        let before = contigs(segments.drop_last(), tolerance);
        let next = segments.last();
        if before.len() > 0 && bridges(before.last(), next, tolerance) {
            before.drop_last().push(extended(before.last(), next))
        } else {
            before.push(next)
        }
    }
}

/// The index, in `segments`, of the segment that starts each contig.
pub open spec fn contig_starts(segments: Seq<Span>, tolerance: int) -> Seq<int>
    decreases segments.len(),
{
    if segments.len() == 0 {
        Seq::empty()
    } else {
        let before = contigs(segments.drop_last(), tolerance);
        let starts = contig_starts(segments.drop_last(), tolerance);
        if before.len() > 0 && bridges(before.last(), segments.last(), tolerance) {
            starts
        } else {
            starts.push(segments.len() - 1)
        }
    }
}

/// Where the run that starts at `starts[j]` ends: at the start of the next
/// run, or with the list.
pub open spec fn run_end(segments: Seq<Span>, starts: Seq<int>, j: int) -> int {
    if j + 1 < starts.len() {
        starts[j + 1]
    } else {
        segments.len() as int
    }
}

/// `starts` cuts `segments` into consecutive runs that leave no segment
/// out, and `out` holds for each run, in order, its first segment grown to
/// take its last segment in.
pub open spec fn runs_of(segments: Seq<Span>, starts: Seq<int>, out: Seq<Span>) -> bool {
    &&& out.len() == starts.len()
    &&& (starts.len() > 0) == (segments.len() > 0)
    &&& starts.len() > 0 ==> starts[0] == 0
    &&& forall|j: int| 0 <= j < starts.len() ==> 0 <= #[trigger] starts[j] < segments.len()
    &&& forall|i: int, j: int|
        0 <= i < j < starts.len() ==> #[trigger] starts[i] < #[trigger] starts[j]
    &&& forall|j: int|
        0 <= j < out.len() ==> #[trigger] out[j] == extended(
            segments[starts[j]],
            segments[run_end(segments, starts, j) - 1],
        )
}

/// No contig of the list bridges to the one after it.
pub open spec fn settled(list: Seq<Span>, tolerance: int) -> bool {
    forall|j: int| 0 <= j < list.len() - 1 ==> !bridges(#[trigger] list[j], list[j + 1], tolerance)
}

/// The distance between two coordinates.
fn apart(a: u32, b: u32) -> (d: u32)
    ensures
        d == distance(a as int, b as int),
{
    if a >= b {
        a - b
    } else {
        b - a
    }
}

/// Whether `next` may be joined to the contig `last`.
fn bridgeable<A: QuasiAlignment>(last: &A, next: &A, gap_tolerance: u32) -> (b: bool)
    ensures
        b == bridges(last.span(), next.span(), gap_tolerance as int),
{
    let same_strand: bool = last.forward() == next.forward();
    let query_gap: u32 = apart(last.q_end(), next.q_start());
    let reference_gap: u32 = if next.forward() {
        apart(last.r_end(), next.r_start())
    } else {
        apart(last.r_start(), next.r_end())
    };
    same_strand && query_gap <= gap_tolerance && reference_gap <= gap_tolerance
}

/// Merges neighbouring segments of one strand that lie within
/// `gap_tolerance` of each other on both axes.
pub fn merge_contigs<A: QuasiAlignment + Debug>(unmerged: Vec<A>, gap_tolerance: u32) -> (merged:
    Vec<A>)
    ensures
        spans(merged@) == contigs(spans(unmerged@), gap_tolerance as int),
        merged@.len() <= unmerged@.len(),
        runs_of(
            spans(unmerged@),
            contig_starts(spans(unmerged@), gap_tolerance as int),
            spans(merged@),
        ),
        settled(spans(merged@), gap_tolerance as int),
{
    proof {
        lemma_contigs_count(spans(unmerged@), gap_tolerance as int);
        lemma_contigs_keep_order(spans(unmerged@), gap_tolerance as int);
        lemma_contigs_settled(spans(unmerged@), gap_tolerance as int);
    }
    let ghost input = unmerged@;
    let mut merged: Vec<A> = Vec::new();
    assert(spans(input.take(0)) =~= Seq::<Span>::empty());
    assert(spans(merged@) =~= Seq::<Span>::empty());
    for alignment in it: unmerged.into_iter()
        invariant
            it.seq() == input,
            spans(merged@) == contigs(spans(input.take(it.index() as int)), gap_tolerance as int),
    {
        let ghost seen = spans(input.take(it.index() as int));
        let ghost now = spans(input.take(it.index() + 1));
        assert(now.drop_last() =~= seen);
        assert(now.last() == alignment.span());
        let ghost held = merged@;
        match merged.pop() {
            None => {
                proof {
                    lemma_spans_push(merged@, alignment);
                }
                merged.push(alignment);
            },
            Some(mut last) => {
                assert(spans(held).drop_last() =~= spans(merged@));
                if bridgeable(&last, &alignment, gap_tolerance) {
                    merge(&mut last, &alignment);
                    proof {
                        lemma_spans_push(merged@, last);
                    }
                    merged.push(last);
                } else {
                    proof {
                        lemma_spans_push(merged@, last);
                        lemma_spans_push(merged@.push(last), alignment);
                    }
                    merged.push(last);
                    assert(merged@ =~= held);
                    merged.push(alignment);
                }
            },
        }
    }
    assert(input.take(input.len() as int) =~= input);
    merged
}

} // verus!
