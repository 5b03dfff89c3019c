//! Chaining: one forward scan over a position trace that joins consecutive
//! compatible k-mer hits into segments.
//!
//! A trace holds one slot per k-mer window of the query. A slot is empty,
//! or holds a marker: positive on the forward strand, negative on the
//! reverse strand, zero where the k-mer has no unique place. The magnitude
//! of a marker, less one, is the reference coordinate at which its window
//! starts.

use crate::alignment::{lemma_spans_push, span_of, spans, QuasiAlignment, Span};
use crate::chain_laws::{
    lemma_chain_collinear, lemma_chain_disjoint, lemma_chain_increasing, lemma_chain_well_formed,
};
use core::fmt::Debug;
use vstd::prelude::*;

verus! {

/// The reference coordinate at which the window of a non-zero marker starts.
pub open spec fn marker_start(marker: i32) -> int {
    if marker > 0 {
        marker - 1
    } else {
        -marker - 1
    }
}

/// The window that the slot at query offset `i` stands for, if it holds a
/// usable marker: `k` bases of the query from `i`, and `k` bases of the
/// reference from the marker's coordinate.
pub open spec fn candidate(slot: Option<i32>, i: int, k: int) -> Option<Span> {
    match slot {
        Some(marker) => if marker == 0 {
            None
        } else {
            Some(
                Span {
                    q_start: i,
                    q_end: i + k,
                    r_start: marker_start(marker),
                    r_end: marker_start(marker) + k,
                    forward: marker > 0,
                },
            )
        },
        None => None,
    }
}

/// `next` carries `working` on by a single base of the reference: both lie
/// on one strand, and the trailing reference bound moves by one in the
/// strand's direction.
pub open spec fn continues(working: Span, next: Span) -> bool {
    working.forward == next.forward && if working.forward {
        next.r_end == working.r_end + 1
    } else {
        next.r_start == working.r_start - 1
    }
}

/// `working` grown to take `next` in: the query end and the trailing
/// reference bound become those of `next`.
pub open spec fn extended(working: Span, next: Span) -> Span {
    if working.forward {
        Span { q_end: next.q_end, r_end: next.r_end, ..working }
    } else {
        Span { q_end: next.q_end, r_start: next.r_start, ..working }
    }
}

/// Where a scan stands: the segments closed so far, the segment still
/// open, and the first query offset that is looked at again (the query end
/// of the segment closed last).
pub struct Scan {
    pub closed: Seq<Span>,
    pub open: Option<Span>,
    pub resume: int,
}

/// The scan before the first slot.
pub open spec fn scan_start() -> Scan {
    Scan { closed: Seq::empty(), open: None, resume: 0 }
}

/// One step of the scan, over the slot at offset `i`.
///
/// An offset inside the query range of the segment closed last is passed
/// over. Otherwise an empty slot closes the open segment; a window opens a
/// segment where none is open, grows the open segment where it continues
/// it, and else closes it and opens the next.
pub open spec fn scan_step(s: Scan, slot: Option<i32>, i: int, k: int) -> Scan {
    if i < s.resume {
        s
    } else {
        match (s.open, candidate(slot, i, k)) {
            (None, None) => s,
            (Some(working), None) => Scan {
                closed: s.closed.push(working),
                open: None,
                resume: working.q_end,
            },
            (None, Some(next)) => Scan { open: Some(next), ..s },
            (Some(working), Some(next)) => if continues(working, next) {
                Scan { open: Some(extended(working, next)), ..s }
            } else {
                Scan { closed: s.closed.push(working), open: Some(next), resume: working.q_end }
            },
        }
    }
}

/// The scan after the first `n` slots of `trace`.
pub open spec fn scan(trace: Seq<Option<i32>>, k: int, n: nat) -> Scan
    decreases n,
{
    if n == 0 {
        scan_start()
    } else {
        scan_step(scan(trace, k, (n - 1) as nat), trace[n - 1], n - 1, k)
    }
}

/// The segments of a trace: what the scan has closed, and the segment
/// still open at the end.
pub open spec fn chain(trace: Seq<Option<i32>>, k: int) -> Seq<Span> {
    let s = scan(trace, k, trace.len());
    match s.open {
        Some(working) => s.closed.push(working),
        None => s.closed,
    }
}

/// The window of the slot at offset `i`, if there is one, has coordinates
/// that a `u32` holds.
pub open spec fn slot_fits(slot: Option<i32>, i: int, k: int) -> bool {
    match candidate(slot, i, k) {
        Some(c) => c.q_end <= u32::MAX && c.r_end <= u32::MAX,
        None => true,
    }
}

/// Every window of the trace has coordinates that a `u32` holds.
pub open spec fn trace_fits(trace: Seq<Option<i32>>, k: int) -> bool {
    forall|i: int| 0 <= i < trace.len() ==> slot_fits(#[trigger] trace[i], i, k)
}

/// The segment spans at least one window on both axes, and no more
/// reference bases than query bases.
pub open spec fn grown(x: Span, k: int) -> bool {
    &&& x.q_start + k <= x.q_end
    &&& x.r_start + k <= x.r_end
    &&& x.r_len() <= x.q_len()
}

/// `a` starts before `b` and ends before `b` on the query.
pub open spec fn precedes(a: Span, b: Span) -> bool {
    a.q_start < b.q_start && a.q_end < b.q_end
}

/// Along the list, query starts and query ends both rise strictly.
pub open spec fn query_increasing(segments: Seq<Span>) -> bool {
    forall|i: int, j: int|
        0 <= i < j < segments.len() ==> precedes(#[trigger] segments[i], #[trigger] segments[j])
}

/// Along the list, each query range ends before the next one starts.
pub open spec fn query_disjoint(segments: Seq<Span>) -> bool {
    forall|i: int, j: int|
        0 <= i < j < segments.len() ==> (#[trigger] segments[i]).q_end <= (
        #[trigger] segments[j]).q_start
}

/// Every segment of the list covers as many query bases as reference bases.
pub open spec fn all_collinear(segments: Seq<Span>) -> bool {
    forall|i: int| 0 <= i < segments.len() ==> (#[trigger] segments[i]).collinear()
}

/// Every segment of the list has two non-empty ranges.
pub open spec fn all_well_formed(segments: Seq<Span>) -> bool {
    forall|i: int| 0 <= i < segments.len() ==> (#[trigger] segments[i]).well_formed()
}

/// At offset `i` a window meets an open segment that it does not continue:
/// the segment is closed, and the next one opens inside its query range.
pub open spec fn breaks_at(trace: Seq<Option<i32>>, k: int, i: int) -> bool {
    let s = scan(trace, k, i as nat);
    match (s.open, candidate(trace[i], i, k)) {
        (Some(working), Some(next)) => s.resume <= i && !continues(working, next),
        _ => false,
    }
}

/// At offset `i` a window continues an open segment whose last window does
/// not lie at offset `i - 1`: the offsets between the two were passed over.
pub open spec fn stretches_at(trace: Seq<Option<i32>>, k: int, i: int) -> bool {
    let s = scan(trace, k, i as nat);
    match (s.open, candidate(trace[i], i, k)) {
        (Some(working), Some(next)) => s.resume <= i && continues(working, next) && working.q_end
            + 1 != next.q_end,
        _ => false,
    }
}

/// No window of the trace breaks an open segment.
pub open spec fn unbroken(trace: Seq<Option<i32>>, k: int) -> bool {
    forall|i: int| 0 <= i < trace.len() ==> !#[trigger] breaks_at(trace, k, i)
}

/// No window of the trace continues a segment across offsets passed over.
pub open spec fn unstretched(trace: Seq<Option<i32>>, k: int) -> bool {
    forall|i: int| 0 <= i < trace.len() ==> !#[trigger] stretches_at(trace, k, i)
}

/// Whether every window of the trace has coordinates that a `u32` holds.
pub fn fits(matches: &Vec<Option<i32>>, k: u32) -> (ok: bool)
    ensures
        ok == trace_fits(matches@, k as int),
{
    let mut i: usize = 0;
    while i < matches.len()
        invariant
            i <= matches.len(),
            forall|j: int| 0 <= j < i ==> slot_fits(#[trigger] matches@[j], j, k as int),
        decreases matches.len() - i,
    {
        match matches[i] {
            Some(marker) => {
                if marker != 0 {
                    let start: i64 = if marker > 0 {
                        marker as i64 - 1
                    } else {
                        -(marker as i64) - 1
                    };
                    if i > (u32::MAX - k) as usize || start + k as i64 > u32::MAX as i64 {
                        assert(!slot_fits(matches@[i as int], i as int, k as int));
                        return false;
                    }
                }
            },
            None => {},
        }
        i += 1;
    }
    true
}

/// Whether `current` carries `working` on by a single base of the
/// reference.
pub fn mergable<A: QuasiAlignment>(working: &A, current: &A) -> (b: bool)
    ensures
        b == continues(working.span(), current.span()),
{
    if working.forward() == current.forward() {
        if working.forward() {
            let reached: u32 = working.r_end();
            let next: u32 = current.r_end();
            next > 0 && next - 1 == reached
        } else {
            let reached: u32 = working.r_start();
            let next: u32 = current.r_start();
            reached > 0 && reached - 1 == next
        }
    } else {
        false
    }
}

/// Grows `working` to take `current` in.
pub fn merge<A: QuasiAlignment>(working: &mut A, current: &A)
    ensures
        final(working).span() == extended(old(working).span(), current.span()),
{
    working.set_q_end(current.q_end());
    if working.forward() {
        working.set_r_end(current.r_end());
    } else {
        working.set_r_start(current.r_start());
    }
}

/// Decodes the slot at query offset `i` into its window.
fn window<A: QuasiAlignment>(slot: Option<i32>, i: usize, k: u32) -> (segment: Option<A>)
    requires
        slot_fits(slot, i as int, k as int),
    ensures
        span_of(segment) == candidate(slot, i as int, k as int),
{
    match slot {
        Some(marker) => {
            if marker == 0 {
                None
            } else {
                let forward: bool = marker > 0;
                let r_start: u32 = if forward {
                    (marker - 1) as u32
                } else {
                    (-(marker as i64) - 1) as u32
                };
                let q_start: u32 = i as u32;
                Some(A::new(q_start, q_start + k, r_start, r_start + k, forward))
            }
        },
        None => None,
    }
}

/// Chains a position trace into segments, left to right.
pub fn merge_segments<A: QuasiAlignment + Debug>(matches: Vec<Option<i32>>, k: u32) -> (segments:
    Vec<A>)
    requires
        trace_fits(matches@, k as int),
    ensures
        spans(segments@) == chain(matches@, k as int),
        query_increasing(spans(segments@)),
        k >= 1 ==> all_well_formed(spans(segments@)),
        unstretched(matches@, k as int) ==> all_collinear(spans(segments@)),
        k <= 1 || unbroken(matches@, k as int) ==> query_disjoint(spans(segments@)),
{
    proof {
        lemma_chain_increasing(matches@, k as int);
        if k >= 1 {
            lemma_chain_well_formed(matches@, k as int);
        }
        if unstretched(matches@, k as int) {
            lemma_chain_collinear(matches@, k as int);
        }
        if k <= 1 || unbroken(matches@, k as int) {
            lemma_chain_disjoint(matches@, k as int);
        }
    }
    let mut alignments: Vec<A> = Vec::new();
    let mut alignment: Option<A> = None;
    let mut last_segment_end: u32 = 0;
    let mut i: usize = 0;
    assert(spans(alignments@) =~= scan_start().closed);
    while i < matches.len()
        invariant
            i <= matches.len(),
            trace_fits(matches@, k as int),
            spans(alignments@) == scan(matches@, k as int, i as nat).closed,
            span_of(alignment) == scan(matches@, k as int, i as nat).open,
            last_segment_end == scan(matches@, k as int, i as nat).resume,
        decreases matches.len() - i,
    {
        let ghost before = scan(matches@, k as int, i as nat);
        assert(scan(matches@, k as int, (i + 1) as nat) == scan_step(
            before,
            matches@[i as int],
            i as int,
            k as int,
        ));
        if last_segment_end as usize <= i {
            assert(slot_fits(matches@[i as int], i as int, k as int));
            let segment: Option<A> = window(matches[i], i, k);
            match segment {
                None => {
                    match alignment {
                        Some(working) => {
                            last_segment_end = working.q_end();
                            proof {
                                lemma_spans_push(alignments@, working);
                            }
                            alignments.push(working);
                            alignment = None;
                        },
                        None => {},
                    }
                },
                Some(current) => {
                    match alignment {
                        Some(mut working) => {
                            if mergable(&working, &current) {
                                merge(&mut working, &current);
                                alignment = Some(working);
                            } else {
                                last_segment_end = working.q_end();
                                proof {
                                    lemma_spans_push(alignments@, working);
                                }
                                alignments.push(working);
                                alignment = Some(current);
                            }
                        },
                        None => {
                            alignment = Some(current);
                        },
                    }
                },
            }
        }
        i += 1;
    }
    match alignment {
        Some(remaining) => {
            proof {
                lemma_spans_push(alignments@, remaining);
            }
            alignments.push(remaining);
        },
        None => {},
    }
    alignments
}

} // verus!
