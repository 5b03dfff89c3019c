//! What holds of the contigs of every list of segments: their number,
//! their order, and that merging them again changes nothing.

use crate::alignment::Span;
use crate::chain::{all_well_formed, chain, extended, precedes};
use crate::chain_laws::{lemma_chain_increasing, lemma_chain_well_formed};
use crate::contig::{bridges, contig_starts, contigs, run_end, runs_of, settled};
use vstd::prelude::*;

verus! {

/// Merging never yields more contigs than there are segments, and yields
/// at least one where there is a segment.
pub proof fn lemma_contigs_count(segments: Seq<Span>, tolerance: int)
    ensures
        contigs(segments, tolerance).len() <= segments.len(),
        segments.len() > 0 ==> contigs(segments, tolerance).len() >= 1,
    decreases segments.len(),
{
    if segments.len() > 0 {
        lemma_contigs_count(segments.drop_last(), tolerance);
    }
}

/// Merging keeps the order: each contig is a run of consecutive segments,
/// the runs follow each other as the segments do, and a contig has the
/// start of the first segment of its run and the end of the last.
pub proof fn lemma_contigs_keep_order(segments: Seq<Span>, tolerance: int)
    ensures
        runs_of(segments, contig_starts(segments, tolerance), contigs(segments, tolerance)),
    decreases segments.len(),
{
    if segments.len() > 0 {
        let shorter = segments.drop_last();
        let next = segments.last();
        let before = contigs(shorter, tolerance);
        let cuts = contig_starts(shorter, tolerance);
        let out = contigs(segments, tolerance);
        let starts = contig_starts(segments, tolerance);
        lemma_contigs_keep_order(shorter, tolerance);
        lemma_contigs_count(shorter, tolerance);
        if before.len() > 0 && bridges(before.last(), next, tolerance) {
            assert forall|j: int| 0 <= j < out.len() implies #[trigger] out[j] == extended(
                segments[starts[j]],
                segments[run_end(segments, starts, j) - 1],
            ) by {
                assert(before[j] == extended(
                    shorter[cuts[j]],
                    shorter[run_end(shorter, cuts, j) - 1],
                ));
                if j + 1 < out.len() {
                    assert(0 <= cuts[j + 1] < shorter.len());
                }
            }
        } else {
            assert forall|i: int, j: int| 0 <= i < j < starts.len() implies #[trigger] starts[i]
                < #[trigger] starts[j] by {
                assert(0 <= cuts[i] < shorter.len());
            }
            assert forall|j: int| 0 <= j < out.len() implies #[trigger] out[j] == extended(
                segments[starts[j]],
                segments[run_end(segments, starts, j) - 1],
            ) by {
                if j < before.len() {
                    assert(before[j] == extended(
                        shorter[cuts[j]],
                        shorter[run_end(shorter, cuts, j) - 1],
                    ));
                    if j + 1 < before.len() {
                        assert(0 <= cuts[j + 1] < shorter.len());
                    }
                }
            }
        }
    }
}

/// In the contigs of any list, no contig bridges to the one after it.
pub proof fn lemma_contigs_settled(segments: Seq<Span>, tolerance: int)
    ensures
        settled(contigs(segments, tolerance), tolerance),
    decreases segments.len(),
{
    if segments.len() > 0 {
        let before = contigs(segments.drop_last(), tolerance);
        let out = contigs(segments, tolerance);
        lemma_contigs_settled(segments.drop_last(), tolerance);
        assert forall|j: int| 0 <= j < out.len() - 1 implies !bridges(
            #[trigger] out[j],
            out[j + 1],
            tolerance,
        ) by {
            assert(out[j] == before[j]);
            if j + 1 < before.len() {
                assert(!bridges(before[j], before[j + 1], tolerance));
            }
        }
    }
}

/// A list in which no contig bridges to the one after it is left as it is.
pub proof fn lemma_settled_unchanged(list: Seq<Span>, tolerance: int)
    requires
        settled(list, tolerance),
    ensures
        contigs(list, tolerance) == list,
    decreases list.len(),
{
    if list.len() > 0 {
        let shorter = list.drop_last();
        assert forall|j: int| 0 <= j < shorter.len() - 1 implies !bridges(
            #[trigger] shorter[j],
            shorter[j + 1],
            tolerance,
        ) by {
            assert(!bridges(list[j], list[j + 1], tolerance));
        }
        lemma_settled_unchanged(shorter, tolerance);
        if shorter.len() > 0 {
            assert(!bridges(list[shorter.len() - 1], list[shorter.len() - 1 + 1], tolerance));
        }
        assert(shorter.push(list.last()) =~= list);
    } else {
        assert(list =~= Seq::<Span>::empty());
    }
}

/// Merging again with the same tolerance changes nothing.
pub proof fn lemma_contigs_idempotent(segments: Seq<Span>, tolerance: int)
    ensures
        contigs(contigs(segments, tolerance), tolerance) == contigs(segments, tolerance),
{
    lemma_contigs_settled(segments, tolerance);
    lemma_settled_unchanged(contigs(segments, tolerance), tolerance);
}

/// Every segment of the list covers at least `n` bases on both axes.
pub open spec fn all_span(segments: Seq<Span>, n: int) -> bool {
    forall|i: int|
        0 <= i < segments.len() ==> (#[trigger] segments[i]).q_len() >= n && segments[i].r_len()
            >= n
}

/// Where every segment has two non-empty ranges that are each at least as
/// long as the tolerance, every contig has two non-empty ranges.
pub proof fn lemma_contigs_well_formed(segments: Seq<Span>, tolerance: int)
    requires
        all_well_formed(segments),
        all_span(segments, tolerance),
    ensures
        all_well_formed(contigs(segments, tolerance)),
    decreases segments.len(),
{
    if segments.len() > 0 {
        let shorter = segments.drop_last();
        let next = segments.last();
        let before = contigs(shorter, tolerance);
        let out = contigs(segments, tolerance);
        assert forall|i: int| 0 <= i < shorter.len() implies (#[trigger] shorter[i]).well_formed()
            && shorter[i].q_len() >= tolerance && shorter[i].r_len() >= tolerance by {
            assert(shorter[i] == segments[i]);
        }
        lemma_contigs_well_formed(shorter, tolerance);
        assert(next == segments[segments.len() - 1]);
        assert forall|j: int| 0 <= j < out.len() implies (#[trigger] out[j]).well_formed() by {
            if j < before.len() {
                assert(before[j].well_formed());
            }
        }
    }
}

/// Chained and then merged with a tolerance of at most one window, a
/// trace yields contigs with two non-empty ranges each.
pub proof fn lemma_chained_contigs_well_formed(trace: Seq<Option<i32>>, k: int, tolerance: int)
    requires
        1 <= k,
        tolerance <= k,
    ensures
        all_well_formed(contigs(chain(trace, k), tolerance)),
{
    lemma_chain_well_formed(trace, k);
    lemma_contigs_well_formed(chain(trace, k), tolerance);
}

/// Chained and then merged with any tolerance, a trace yields contigs with
/// a non-empty query range each, whose query starts rise strictly.
pub proof fn lemma_chained_contigs_query(trace: Seq<Option<i32>>, k: int, tolerance: int)
    requires
        1 <= k,
    ensures
        forall|j: int|
            0 <= j < contigs(chain(trace, k), tolerance).len() ==> (#[trigger] contigs(
                chain(trace, k),
                tolerance,
            )[j]).q_start < contigs(chain(trace, k), tolerance)[j].q_end,
        forall|i: int, j: int|
            0 <= i < j < contigs(chain(trace, k), tolerance).len() ==> (#[trigger] contigs(
                chain(trace, k),
                tolerance,
            )[i]).q_start < (#[trigger] contigs(chain(trace, k), tolerance)[j]).q_start,
{
    let segments = chain(trace, k);
    let out = contigs(segments, tolerance);
    let starts = contig_starts(segments, tolerance);
    lemma_chain_well_formed(trace, k);
    lemma_chain_increasing(trace, k);
    lemma_contigs_keep_order(segments, tolerance);
    assert forall|j: int| 0 <= j < out.len() implies (#[trigger] out[j]).q_start
        < out[j].q_end by {
        let first = starts[j];
        let last = run_end(segments, starts, j) - 1;
        if j + 1 < out.len() {
            assert(starts[j] < starts[j + 1]);
        }
        assert(segments[first].well_formed());
        if first < last {
            assert(precedes(segments[first], segments[last]));
        }
    }
    assert forall|i: int, j: int| 0 <= i < j < out.len() implies (#[trigger] out[i]).q_start < (
    #[trigger] out[j]).q_start by {
        assert(starts[i] < starts[j]);
        assert(precedes(segments[starts[i]], segments[starts[j]]));
    }
}

} // verus!
