//! What holds of the segments of every trace, and of the segments of the
//! traces in which no window breaks or stretches an open segment.

use crate::alignment::Span;
use crate::chain::{
    all_collinear, all_well_formed, breaks_at, chain, grown, precedes, query_disjoint,
    query_increasing, scan, scan_step, stretches_at, unbroken, unstretched, Scan,
};
use vstd::prelude::*;

verus! {

/// What holds of a scan after `n` slots, whatever the trace: every segment
/// has grown from one window, the closed segments rise strictly on the
/// query, the open segment lies beyond them, and the scan resumes at the
/// query end of the segment closed last.
pub open spec fn scan_sound(s: Scan, n: int, k: int) -> bool {
    &&& forall|j: int|
        0 <= j < s.closed.len() ==> grown(#[trigger] s.closed[j], k) && s.closed[j].q_start < n
            && s.closed[j].q_end < n + k
    &&& query_increasing(s.closed)
    &&& s.resume == if s.closed.len() > 0 {
        s.closed.last().q_end
    } else {
        0
    }
    &&& match s.open {
        Some(working) => {
            &&& grown(working, k)
            &&& working.q_start < n
            &&& working.q_end < n + k
            &&& s.closed.len() > 0 ==> precedes(s.closed.last(), working)
        },
        None => true,
    }
}

/// Every scan is sound.
pub proof fn lemma_scan_sound(trace: Seq<Option<i32>>, k: int, n: nat)
    requires
        n <= trace.len(),
    ensures
        scan_sound(scan(trace, k, n), n as int, k),
    decreases n,
{
    if n > 0 {
        let i = (n - 1) as int;
        let s = scan(trace, k, (n - 1) as nat);
        lemma_scan_sound(trace, k, (n - 1) as nat);
        let t = scan_step(s, trace[i], i, k);
        assert(t == scan(trace, k, n));
        if i >= s.resume && s.open is Some {
            let working = s.open->0;
            let closed = s.closed.push(working);
            assert forall|a: int, b: int| 0 <= a < b < closed.len() implies precedes(
                #[trigger] closed[a],
                #[trigger] closed[b],
            ) by {
                if b == s.closed.len() {
                    assert(closed[a] == s.closed[a]);
                    if a < s.closed.len() - 1 {
                        assert(precedes(s.closed[a], s.closed[s.closed.len() - 1]));
                    }
                } else {
                    assert(closed[a] == s.closed[a] && closed[b] == s.closed[b]);
                }
            }
        }
    }
}

/// With windows of at least one base, every segment of a trace has two
/// non-empty ranges, and covers no more reference bases than query bases.
pub proof fn lemma_chain_well_formed(trace: Seq<Option<i32>>, k: int)
    requires
        k >= 1,
    ensures
        all_well_formed(chain(trace, k)),
        forall|i: int|
            0 <= i < chain(trace, k).len() ==> grown(#[trigger] chain(trace, k)[i], k),
{
    lemma_scan_sound(trace, k, trace.len());
}

/// The segments of a trace come out left to right: query starts and query
/// ends rise strictly.
pub proof fn lemma_chain_increasing(trace: Seq<Option<i32>>, k: int)
    ensures
        query_increasing(chain(trace, k)),
{
    lemma_scan_sound(trace, k, trace.len());
    let s = scan(trace, k, trace.len());
    let out = chain(trace, k);
    assert forall|a: int, b: int| 0 <= a < b < out.len() implies precedes(
        #[trigger] out[a],
        #[trigger] out[b],
    ) by {
        if b == s.closed.len() {
            if a < s.closed.len() - 1 {
                assert(precedes(s.closed[a], s.closed[s.closed.len() - 1]));
            }
        }
    }
}

/// In a scan in which no window has broken an open segment, or whose
/// windows hold at most one base, no two segments share a query base.
proof fn lemma_scan_disjoint(trace: Seq<Option<i32>>, k: int, n: nat)
    requires
        n <= trace.len(),
        k <= 1 || unbroken(trace, k),
    ensures
        query_disjoint(scan(trace, k, n).closed),
        match scan(trace, k, n).open {
            Some(working) => scan(trace, k, n).resume <= working.q_start,
            None => true,
        },
    decreases n,
{
    if n > 0 {
        let i = (n - 1) as int;
        let s = scan(trace, k, (n - 1) as nat);
        lemma_scan_disjoint(trace, k, (n - 1) as nat);
        lemma_scan_sound(trace, k, (n - 1) as nat);
        lemma_scan_sound(trace, k, n);
        let t = scan_step(s, trace[i], i, k);
        assert(t == scan(trace, k, n));
        assert(!breaks_at(trace, k, i) || k <= 1);
        if i >= s.resume && s.open is Some {
            let working = s.open->0;
            let closed = s.closed.push(working);
            assert forall|a: int, b: int| 0 <= a < b < closed.len() implies (
            #[trigger] closed[a]).q_end <= (#[trigger] closed[b]).q_start by {
                if b == s.closed.len() {
                    assert(closed[a] == s.closed[a]);
                    if a < s.closed.len() - 1 {
                        assert(precedes(s.closed[a], s.closed[s.closed.len() - 1]));
                    }
                } else {
                    assert(closed[a] == s.closed[a] && closed[b] == s.closed[b]);
                }
            }
        }
    }
}

/// Where no window of the trace breaks an open segment, or the windows
/// hold at most one base, no two segments of the trace share a query base.
pub proof fn lemma_chain_disjoint(trace: Seq<Option<i32>>, k: int)
    requires
        k <= 1 || unbroken(trace, k),
    ensures
        query_disjoint(chain(trace, k)),
{
    lemma_scan_disjoint(trace, k, trace.len());
    lemma_scan_sound(trace, k, trace.len());
    let s = scan(trace, k, trace.len());
    let out = chain(trace, k);
    assert forall|a: int, b: int| 0 <= a < b < out.len() implies (#[trigger] out[a]).q_end <= (
    #[trigger] out[b]).q_start by {
        if b == s.closed.len() {
            if a < s.closed.len() - 1 {
                assert(precedes(s.closed[a], s.closed[s.closed.len() - 1]));
            }
        }
    }
}

/// In a scan in which no window has continued a segment across offsets
/// passed over, every segment covers as many query bases as reference
/// bases.
proof fn lemma_scan_collinear(trace: Seq<Option<i32>>, k: int, n: nat)
    requires
        n <= trace.len(),
        unstretched(trace, k),
    ensures
        all_collinear(scan(trace, k, n).closed),
        match scan(trace, k, n).open {
            Some(working) => working.collinear(),
            None => true,
        },
    decreases n,
{
    if n > 0 {
        let i = (n - 1) as int;
        let s = scan(trace, k, (n - 1) as nat);
        lemma_scan_collinear(trace, k, (n - 1) as nat);
        let t = scan_step(s, trace[i], i, k);
        assert(t == scan(trace, k, n));
        assert(!stretches_at(trace, k, i));
        if i >= s.resume && s.open is Some {
            let working = s.open->0;
            let closed = s.closed.push(working);
            assert forall|a: int| 0 <= a < closed.len() implies (#[trigger] closed[a]).collinear() by {
                if a < s.closed.len() {
                    assert(closed[a] == s.closed[a]);
                }
            }
        }
    }
}

/// Where no window of the trace continues a segment across offsets passed
/// over, every segment of the trace covers as many query bases as
/// reference bases.
pub proof fn lemma_chain_collinear(trace: Seq<Option<i32>>, k: int)
    requires
        unstretched(trace, k),
    ensures
        all_collinear(chain(trace, k)),
{
    lemma_scan_collinear(trace, k, trace.len());
}

/// `later` is `earlier` after more windows: it starts where `earlier`
/// starts, ends no sooner, and has no less query in excess of reference.
pub open spec fn grown_from(earlier: Span, later: Span) -> bool {
    &&& later.q_start == earlier.q_start
    &&& later.q_end >= earlier.q_end
    &&& later.q_len() - later.r_len() >= earlier.q_len() - earlier.r_len()
}

/// The scan `t` follows the scan `s`: what `s` has closed stays as it is
/// in `t`, and the segment open in `s` is, grown, the next segment of `t`.
pub open spec fn follows(s: Scan, t: Scan) -> bool {
    &&& s.closed.len() <= t.closed.len()
    &&& forall|j: int| 0 <= j < s.closed.len() ==> #[trigger] t.closed[j] == s.closed[j]
    &&& match s.open {
        Some(working) => if s.closed.len() < t.closed.len() {
            grown_from(working, t.closed[s.closed.len() as int])
        } else {
            t.open is Some && grown_from(working, t.open->0)
        },
        None => true,
    }
}

/// A later scan of a trace follows an earlier one.
proof fn lemma_scan_follows(trace: Seq<Option<i32>>, k: int, n: nat, m: nat)
    requires
        n <= m <= trace.len(),
    ensures
        follows(scan(trace, k, n), scan(trace, k, m)),
    decreases m - n,
{
    if n < m {
        let i = (m - 1) as int;
        let s = scan(trace, k, n);
        let t = scan(trace, k, (m - 1) as nat);
        lemma_scan_follows(trace, k, n, (m - 1) as nat);
        lemma_scan_sound(trace, k, (m - 1) as nat);
        let u = scan_step(t, trace[i], i, k);
        assert(u == scan(trace, k, m));
        if i >= t.resume && t.open is Some {
            let closed = t.closed.push(t.open->0);
            assert forall|j: int| 0 <= j < s.closed.len() implies #[trigger] closed[j]
                == s.closed[j] by {
                assert(t.closed[j] == s.closed[j]);
            }
            if s.closed.len() < t.closed.len() {
                assert(closed[s.closed.len() as int] == t.closed[s.closed.len() as int]);
            }
        }
    }
}

/// With windows of at least one base, the open segment of a scan ends
/// beyond the offset at which the scan resumes, and beyond the last offset
/// looked at unless the scan is passing offsets over.
proof fn lemma_open_reaches(trace: Seq<Option<i32>>, k: int, n: nat)
    requires
        n <= trace.len(),
        k >= 1,
    ensures
        match scan(trace, k, n).open {
            Some(working) => working.q_end > scan(trace, k, n).resume && (working.q_end >= n - 1
                + k || n <= scan(trace, k, n).resume),
            None => true,
        },
    decreases n,
{
    if n > 0 {
        let i = (n - 1) as int;
        let s = scan(trace, k, (n - 1) as nat);
        lemma_open_reaches(trace, k, (n - 1) as nat);
        lemma_scan_sound(trace, k, (n - 1) as nat);
        assert(scan_step(s, trace[i], i, k) == scan(trace, k, n));
    }
}

/// A window that breaks an open segment, where windows hold two bases or
/// more, leaves two segments that share a query base.
pub proof fn lemma_break_overlaps(trace: Seq<Option<i32>>, k: int, i: int)
    requires
        k >= 2,
        0 <= i < trace.len(),
        breaks_at(trace, k, i),
    ensures
        !query_disjoint(chain(trace, k)),
{
    let s = scan(trace, k, i as nat);
    let t = scan(trace, k, (i + 1) as nat);
    let end = scan(trace, k, trace.len());
    let out = chain(trace, k);
    lemma_open_reaches(trace, k, i as nat);
    assert(t == scan_step(s, trace[i], i, k));
    lemma_scan_follows(trace, k, (i + 1) as nat, trace.len());
    let broken = s.open->0;
    let at = s.closed.len() as int;
    assert(t.closed[at] == broken);
    assert(t.open->0.q_start == i);
    assert(end.closed[at] == broken);
    assert(out[at] == broken);
    assert(out[at + 1].q_start == i);
    assert(out[at].q_end > out[at + 1].q_start);
}

/// A window that continues a segment across offsets passed over leaves a
/// segment that covers more query bases than reference bases.
pub proof fn lemma_stretch_bends(trace: Seq<Option<i32>>, k: int, i: int)
    requires
        0 <= i < trace.len(),
        stretches_at(trace, k, i),
    ensures
        !all_collinear(chain(trace, k)),
{
    let s = scan(trace, k, i as nat);
    let t = scan(trace, k, (i + 1) as nat);
    let end = scan(trace, k, trace.len());
    let out = chain(trace, k);
    lemma_scan_sound(trace, k, i as nat);
    assert(t == scan_step(s, trace[i], i, k));
    lemma_scan_follows(trace, k, (i + 1) as nat, trace.len());
    let bent = t.open->0;
    let at = t.closed.len() as int;
    assert(bent.q_len() > bent.r_len());
    assert(grown_from(bent, out[at]));
    assert(!out[at].collinear());
}

} // verus!
