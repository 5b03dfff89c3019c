//! Alignment records: the exact content of one alignment, the capability
//! set that the chaining and merging passes work through, and the record
//! type that the library hands out.

use crate::dna::{Base, DnaSeq};
use vstd::prelude::*;

verus! {

/// What an alignment says: the half-open range `[q_start, q_end)` on the
/// query, the half-open range `[r_start, r_end)` on the reference, and the
/// strand.
pub struct Span {
    pub q_start: int,
    pub q_end: int,
    pub r_start: int,
    pub r_end: int,
    pub forward: bool,
}

impl Span {
    /// Number of query bases covered.
    pub open spec fn q_len(self) -> int {
        self.q_end - self.q_start
    }

    /// Number of reference bases covered.
    pub open spec fn r_len(self) -> int {
        self.r_end - self.r_start
    }

    /// Both ranges are non-empty.
    pub open spec fn well_formed(self) -> bool {
        self.q_start < self.q_end && self.r_start < self.r_end
    }

    /// Both ranges have the same length: the alignment holds no indel.
    pub open spec fn collinear(self) -> bool {
        self.q_len() == self.r_len()
    }
}

/// The contents of a list of alignment records, in order.
pub open spec fn spans<A: QuasiAlignment>(records: Seq<A>) -> Seq<Span> {
    Seq::new(records.len(), |i: int| records[i].span())
}

/// The content of a record that may be absent.
pub open spec fn span_of<A: QuasiAlignment>(record: Option<A>) -> Option<Span> {
    match record {
        Some(a) => Some(a.span()),
        None => None,
    }
}

/// Appending a record appends its content.
pub proof fn lemma_spans_push<A: QuasiAlignment>(records: Seq<A>, last: A)
    ensures
        spans(records.push(last)) == spans(records).push(last.span()),
{
    assert(spans(records.push(last)) =~= spans(records).push(last.span()));
}

/// The capability set of an alignment record: construction from the five
/// fields, and a reader and a writer for each of them.
pub trait QuasiAlignment: Clone {
    /// The content of the record.
    spec fn span(&self) -> Span;

    fn new(q_start: u32, q_end: u32, r_start: u32, r_end: u32, forward: bool) -> (a: Self)
        ensures
            a.span() == (Span {
                q_start: q_start as int,
                q_end: q_end as int,
                r_start: r_start as int,
                r_end: r_end as int,
                forward,
            }),
    ;

    fn q_start(&self) -> (v: u32)
        ensures
            v == self.span().q_start,
    ;

    fn q_end(&self) -> (v: u32)
        ensures
            v == self.span().q_end,
    ;

    fn r_start(&self) -> (v: u32)
        ensures
            v == self.span().r_start,
    ;

    fn r_end(&self) -> (v: u32)
        ensures
            v == self.span().r_end,
    ;

    fn forward(&self) -> (v: bool)
        ensures
            v == self.span().forward,
    ;

    fn set_q_start(&mut self, q_start: u32)
        ensures
            final(self).span() == (Span { q_start: q_start as int, ..old(self).span() }),
    ;

    fn set_q_end(&mut self, q_end: u32)
        ensures
            final(self).span() == (Span { q_end: q_end as int, ..old(self).span() }),
    ;

    fn set_r_start(&mut self, r_start: u32)
        ensures
            final(self).span() == (Span { r_start: r_start as int, ..old(self).span() }),
    ;

    fn set_r_end(&mut self, r_end: u32)
        ensures
            final(self).span() == (Span { r_end: r_end as int, ..old(self).span() }),
    ;

    fn set_forward(&mut self, forward: bool)
        ensures
            final(self).span() == (Span { forward, ..old(self).span() }),
    ;

    /// How many more bases the reference range holds than the query range.
    fn indel(&self) -> (d: i32)
        requires
            self.span().q_start <= self.span().q_end,
            self.span().r_start <= self.span().r_end,
            0 <= self.span().r_len() - self.span().q_len() <= i32::MAX,
        ensures
            d == self.span().r_len() - self.span().q_len(),
    ;
}

/// What aligns a query: an index of a reference, or anything else that
/// finds the stretches of a query in one.
pub trait QuasiAlign<A: QuasiAlignment> {
    /// The queries that can be aligned.
    spec fn accepts(&self, query: Seq<Base>) -> bool;

    /// The alignments of a query, with gaps of up to `gap` bridged.
    spec fn alignments(&self, query: Seq<Base>, gap: int) -> Seq<Span>;

    fn quasi_align(&self, seq: &DnaSeq, gap: u32) -> (found: Vec<A>)
        requires
            self.accepts(seq@),
        ensures
            spans(found@) == self.alignments(seq@, gap as int),
    ;
}

/// An alignment of a stretch of the query to a stretch of the reference.
#[derive(Clone, Copy, Debug, PartialEq, Eq, Structural)]
pub struct Alignment {
    pub q_start: u32,
    pub q_end: u32,
    pub r_start: u32,
    pub r_end: u32,
    pub forward: bool,
}

impl QuasiAlignment for Alignment {
    open spec fn span(&self) -> Span {
        Span {
            q_start: self.q_start as int,
            q_end: self.q_end as int,
            r_start: self.r_start as int,
            r_end: self.r_end as int,
            forward: self.forward,
        }
    }

    fn new(q_start: u32, q_end: u32, r_start: u32, r_end: u32, forward: bool) -> (a: Self) {
        Alignment { q_start, q_end, r_start, r_end, forward }
    }

    fn q_start(&self) -> (v: u32) {
        self.q_start
    }

    fn q_end(&self) -> (v: u32) {
        self.q_end
    }

    fn r_start(&self) -> (v: u32) {
        self.r_start
    }

    fn r_end(&self) -> (v: u32) {
        self.r_end
    }

    fn forward(&self) -> (v: bool) {
        self.forward
    }

    fn set_q_start(&mut self, q_start: u32) {
        self.q_start = q_start;
    }

    fn set_q_end(&mut self, q_end: u32) {
        self.q_end = q_end;
    }

    fn set_r_start(&mut self, r_start: u32) {
        self.r_start = r_start;
    }

    fn set_r_end(&mut self, r_end: u32) {
        self.r_end = r_end;
    }

    fn set_forward(&mut self, forward: bool) {
        self.forward = forward;
    }

    fn indel(&self) -> (d: i32) {
        ((self.r_end - self.r_start) - (self.q_end - self.q_start)) as i32
    }
}

} // verus!
