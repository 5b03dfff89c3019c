//! The k-mer index of a reference: for each k-mer of either strand, the
//! marker of the one place where it occurs, or zero where it occurs more
//! than once.

use crate::alignment::{QuasiAlign, QuasiAlignment, Span};
use crate::chain::{candidate, chain, merge_segments, slot_fits};
use crate::contig::{contigs, merge_contigs};
use crate::dna::{
    kmer_codes, lemma_pack_fits, lemma_pack_injective, other_strand, pack, reverse_complement,
    strands, whole_kmer, windows, word_holds, Base, DnaSeq,
};
use core::fmt::Debug;
use std::collections::HashMap;
use vstd::prelude::*;

verus! {

broadcast use vstd::std_specs::hash::group_hash_axioms;

/// The marker of the window at place `p` of `strands`: one more than the
/// offset of the window in its strand, negated on the reverse strand.
pub open spec fn marker_at(reference: Seq<Base>, k: nat, p: int) -> int {
    let forward = windows(reference, k).len();
    if p < forward {
        p + 1
    } else {
        -(p - forward + 1)
    }
}

/// The window at place `p` occurs at no other place.
pub open spec fn sole(all: Seq<Seq<Base>>, p: int) -> bool {
    forall|q: int| 0 <= q < all.len() && #[trigger] all[q] == all[p] ==> q == p
}

/// The index of a reference: it holds the k-mers of both strands, and
/// maps each to the marker of its place where it occurs once, and to zero
/// where it occurs more than once.
pub open spec fn reference_index(reference: Seq<Base>, k: nat) -> Map<Seq<Base>, i32> {
    let all = strands(reference, k);
    Map::new(
        |w: Seq<Base>| all.contains(w),
        |w: Seq<Base>|
            if sole(all, all.index_of(w)) {
                marker_at(reference, k, all.index_of(w)) as i32
            } else {
                0i32
            },
    )
}

/// A table keyed by packed k-mers, read by the k-mers themselves.
pub open spec fn by_window(table: Map<u64, i32>, k: nat) -> Map<Seq<Base>, i32> {
    Map::new(
        |w: Seq<Base>| w.len() == k && table.contains_key(pack(w) as u64),
        |w: Seq<Base>| table[pack(w) as u64],
    )
}

/// What the index says of a window: its marker where it has a unique
/// place, and nothing where it is not held or has none.
pub open spec fn placed(index: Map<Seq<Base>, i32>, w: Seq<Base>) -> Option<i32> {
    if index.contains_key(w) && index[w] != 0 {
        Some(index[w])
    } else {
        None
    }
}

/// The position trace of a list of windows.
pub open spec fn trace_of(index: Map<Seq<Base>, i32>, all: Seq<Seq<Base>>) -> Seq<Option<i32>> {
    Seq::new(all.len(), |i: int| placed(index, all[i]))
}

/// How many of the windows the index holds.
pub open spec fn held_count(index: Map<Seq<Base>, i32>, all: Seq<Seq<Base>>) -> nat
    decreases all.len(),
{
    if all.len() == 0 {
        0
    } else {
        held_count(index, all.drop_last()) + if index.contains_key(all.last()) {
            1nat
        } else {
            0nat
        }
    }
}

/// A k-mer that occurs at two places of the strands of a reference is
/// held under zero, and has an empty slot wherever a query holds it.
pub proof fn lemma_repeated_kmer_unplaced(
    reference: Seq<Base>,
    query: Seq<Base>,
    k: nat,
    p: int,
    q: int,
    i: int,
)
    requires
        0 <= p < q < strands(reference, k).len(),
        strands(reference, k)[p] == strands(reference, k)[q],
        0 <= i < windows(query, k).len(),
        windows(query, k)[i] == strands(reference, k)[p],
    ensures
        reference_index(reference, k).contains_key(strands(reference, k)[p]),
        reference_index(reference, k)[strands(reference, k)[p]] == 0,
        trace_of(reference_index(reference, k), windows(query, k))[i] is None,
{
    let all = strands(reference, k);
    let at = all.index_of(all[p]);
    assert(all.contains(all[p]));
    assert(all[at] == all[p]);
    if at == p {
        assert(all[q] == all[at] && q != at);
    } else {
        assert(all[p] == all[at] && p != at);
    }
    assert(!sole(all, at));
}

/// A k-mer that occurs at one place of the strands of a reference is held
/// under the marker of that place, and has that marker in the slot
/// wherever a query holds it.
pub proof fn lemma_sole_kmer_placed(
    reference: Seq<Base>,
    query: Seq<Base>,
    k: nat,
    p: int,
    i: int,
)
    requires
        0 <= p < strands(reference, k).len(),
        windows(reference, k).len() <= i32::MAX,
        sole(strands(reference, k), p),
        0 <= i < windows(query, k).len(),
        windows(query, k)[i] == strands(reference, k)[p],
    ensures
        reference_index(reference, k).contains_key(strands(reference, k)[p]),
        reference_index(reference, k)[strands(reference, k)[p]] == marker_at(reference, k, p),
        trace_of(reference_index(reference, k), windows(query, k))[i] == Some(
            marker_at(reference, k, p) as i32,
        ),
{
    let all = strands(reference, k);
    let at = all.index_of(all[p]);
    assert(all.contains(all[p]));
    assert(all[at] == all[p]);
    assert(at == p);
    assert(windows(reverse_complement(reference), k).len() == windows(reference, k).len());
}

/// Why an index could not be built.
#[derive(Clone, Copy, Debug, PartialEq, Eq, Structural)]
pub enum IndexError {
    /// The reference holds fewer than `K` nucleotides.
    ReferenceTooShort,
    /// The reference holds more windows than a marker can number.
    ReferenceTooLong,
}

/// The k-mer index of a reference, for k-mers of width `K`.
pub struct KmerMap<const K: usize> {
    /// The marker of each k-mer, under the machine word that packs it.
    pub index: HashMap<u64, i32>,
    /// The number of nucleotides of the reference.
    pub len: u32,
}

impl<const K: usize> View for KmerMap<K> {
    type V = Map<Seq<Base>, i32>;

    open spec fn view(&self) -> Map<Seq<Base>, i32> {
        by_window(self.index@, K as nat)
    }
}

impl<const K: usize> Clone for KmerMap<K> {
    fn clone(&self) -> (copy: Self)
        ensures
            copy.index@ == self.index@,
            copy.len == self.len,
            copy@ == self@,
    {
        KmerMap { index: self.index.clone(), len: self.len }
    }
}

/// One of the first `n` codes is `c`.
spec fn held(codes: Seq<u64>, n: int, c: u64) -> bool {
    exists|p: int| 0 <= p < n && #[trigger] codes[p] == c
}

/// Among the first `n` codes, the one at `p` occurs at no other place.
spec fn sole_among(codes: Seq<u64>, n: int, p: int) -> bool {
    forall|q: int| 0 <= q < n && #[trigger] codes[q] == codes[p] ==> q == p
}

/// The table holds the first `n` codes, each under its mark where it
/// occurs once among them, and under zero where it occurs more than once.
spec fn indexed(table: Map<u64, i32>, codes: Seq<u64>, marks: Seq<i32>, n: int) -> bool {
    &&& forall|c: u64| #[trigger] table.contains_key(c) <==> held(codes, n, c)
    &&& forall|p: int|
        0 <= p < n ==> table[#[trigger] codes[p]] == if sole_among(codes, n, p) {
            marks[p]
        } else {
            0
        }
}

/// The marks of one strand of `n` windows.
spec fn strand_marks(n: nat, forward: bool) -> Seq<i32> {
    Seq::new(
        n,
        |p: int|
            if forward {
                (p + 1) as i32
            } else {
                (-(p + 1)) as i32
            },
    )
}

/// Taking in the code at place `n`, under zero where the table holds it
/// and under its mark where it does not, keeps the table indexed.
proof fn lemma_indexed_step(table: Map<u64, i32>, codes: Seq<u64>, marks: Seq<i32>, n: int)
    requires
        0 <= n < codes.len(),
        indexed(table, codes, marks, n),
    ensures
        indexed(
            if table.contains_key(codes[n]) {
                table.insert(codes[n], 0)
            } else {
                table.insert(codes[n], marks[n])
            },
            codes,
            marks,
            n + 1,
        ),
{
    let c = codes[n];
    let next = if table.contains_key(c) {
        table.insert(c, 0)
    } else {
        table.insert(c, marks[n])
    };
    assert forall|x: u64| #[trigger] next.contains_key(x) <==> held(codes, n + 1, x) by {
        if held(codes, n + 1, x) {
            let p = choose|p: int| 0 <= p < n + 1 && #[trigger] codes[p] == x;
            if p < n {
                assert(held(codes, n, x));
            }
        }
        if next.contains_key(x) {
            if x == c {
                assert(codes[n] == x);
            } else {
                assert(held(codes, n, x));
                let p = choose|p: int| 0 <= p < n && #[trigger] codes[p] == x;
                assert(0 <= p < n + 1 && codes[p] == x);
            }
        }
    }
    assert forall|p: int| 0 <= p < n + 1 implies next[#[trigger] codes[p]] == if sole_among(
        codes,
        n + 1,
        p,
    ) {
        marks[p]
    } else {
        0
    } by {
        if codes[p] == c {
            if table.contains_key(c) {
                assert(held(codes, n, c));
                let first = choose|q: int| 0 <= q < n && #[trigger] codes[q] == c;
                if p == n {
                    assert(codes[first] == codes[p] && first != p);
                } else {
                    assert(codes[n] == codes[p] && n != p);
                }
                assert(!sole_among(codes, n + 1, p));
            } else {
                if p < n {
                    assert(held(codes, n, c));
                }
                assert forall|q: int| 0 <= q < n + 1 && #[trigger] codes[q] == codes[p] implies q
                    == p by {
                    if q < n {
                        assert(held(codes, n, c));
                    }
                }
            }
        } else {
            assert(next[codes[p]] == table[codes[p]]);
            if sole_among(codes, n, p) {
                assert forall|q: int| 0 <= q < n + 1 && #[trigger] codes[q] == codes[p] implies q
                    == p by {}
            } else {
                let q = choose|q: int| 0 <= q < n && #[trigger] codes[q] == codes[p] && q != p;
                assert(codes[q] == codes[p]);
            }
        }
    }
}

/// A table indexed over a list is indexed over any list that starts with
/// it.
proof fn lemma_indexed_prefix(
    table: Map<u64, i32>,
    codes: Seq<u64>,
    marks: Seq<i32>,
    longer: Seq<u64>,
    more: Seq<i32>,
    n: int,
)
    requires
        0 <= n <= codes.len() <= longer.len(),
        n <= marks.len() <= more.len(),
        forall|p: int| 0 <= p < n ==> codes[p] == longer[p] && marks[p] == more[p],
        indexed(table, codes, marks, n),
    ensures
        indexed(table, longer, more, n),
{
    assert forall|c: u64| #[trigger] table.contains_key(c) <==> held(longer, n, c) by {
        if held(codes, n, c) {
            let p = choose|p: int| 0 <= p < n && #[trigger] codes[p] == c;
            assert(longer[p] == c);
        }
        if held(longer, n, c) {
            let p = choose|p: int| 0 <= p < n && #[trigger] longer[p] == c;
            assert(codes[p] == c);
        }
    }
    assert forall|p: int| 0 <= p < n implies table[#[trigger] longer[p]] == if sole_among(
        longer,
        n,
        p,
    ) {
        more[p]
    } else {
        0
    } by {
        assert(codes[p] == longer[p]);
        if sole_among(codes, n, p) {
            assert forall|q: int| 0 <= q < n && #[trigger] longer[q] == longer[p] implies q
                == p by {
                assert(codes[q] == codes[p]);
            }
        } else {
            let q = choose|q: int| 0 <= q < n && #[trigger] codes[q] == codes[p] && q != p;
            assert(longer[q] == longer[p]);
        }
    }
}

/// Takes the k-mers of one strand into the table, in order: a k-mer that
/// the table holds is set to zero, and one that it does not hold is put
/// under the marker of its offset.
fn index_strand(
    index: &mut HashMap<u64, i32>,
    codes: &Vec<u64>,
    forward: bool,
    Ghost(seen): Ghost<Seq<u64>>,
    Ghost(marks): Ghost<Seq<i32>>,
)
    requires
        codes.len() <= i32::MAX,
        seen.len() == marks.len(),
        indexed(old(index)@, seen, marks, seen.len() as int),
    ensures
        indexed(
            final(index)@,
            seen + codes@,
            marks + strand_marks(codes@.len(), forward),
            (seen.len() + codes@.len()) as int,
        ),
{
    let ghost all = seen + codes@;
    let ghost all_marks = marks + strand_marks(codes@.len(), forward);
    proof {
        lemma_indexed_prefix(index@, seen, marks, all, all_marks, seen.len() as int);
    }
    let mut pos: usize = 0;
    while pos < codes.len()
        invariant
            pos <= codes.len() <= i32::MAX,
            seen.len() == marks.len(),
            all == seen + codes@,
            all_marks == marks + strand_marks(codes@.len(), forward),
            indexed(index@, all, all_marks, (seen.len() + pos) as int),
        decreases codes.len() - pos,
    {
        let key: u64 = codes[pos];
        let mark: i32 = if forward {
            (pos + 1) as i32
        } else {
            -((pos + 1) as i32)
        };
        proof {
            assert(all[seen.len() + pos] == key);
            assert(all_marks[seen.len() + pos] == mark);
            lemma_indexed_step(index@, all, all_marks, (seen.len() + pos) as int);
        }
        if index.contains_key(&key) {
            index.insert(key, 0);
        } else {
            index.insert(key, mark);
        }
        pos += 1;
    }
}

/// A table indexed over the packed windows of both strands, read by the
/// windows themselves, is the index of the reference.
proof fn lemma_index_of_reference(
    table: Map<u64, i32>,
    codes: Seq<u64>,
    marks: Seq<i32>,
    reference: Seq<Base>,
    k: nat,
)
    requires
        0 < k <= 32,
        windows(reference, k).len() <= i32::MAX,
        codes.len() == strands(reference, k).len(),
        marks.len() == codes.len(),
        forall|p: int| 0 <= p < codes.len() ==> (#[trigger] codes[p]) as nat == pack(
            strands(reference, k)[p],
        ),
        forall|p: int| 0 <= p < marks.len() ==> #[trigger] marks[p] == marker_at(reference, k, p),
        indexed(table, codes, marks, codes.len() as int),
    ensures
        by_window(table, k) == reference_index(reference, k),
{
    let all = strands(reference, k);
    let n = codes.len() as int;
    assert forall|p: int| 0 <= p < all.len() implies (#[trigger] all[p]).len() == k by {}
    // Two places hold one window just when they hold one code.
    assert forall|p: int, q: int| 0 <= p < n && 0 <= q < n implies (#[trigger] codes[p]
        == #[trigger] codes[q] <==> all[p] == all[q]) by {
        if codes[p] == codes[q] {
            lemma_pack_injective(all[p], all[q]);
        }
    }
    let read = by_window(table, k);
    let model = reference_index(reference, k);
    assert forall|w: Seq<Base>| #[trigger] read.contains_key(w) <==> model.contains_key(w) by {
        if all.contains(w) {
            let p = all.index_of(w);
            assert(all[p] == w);
            assert(codes[p] as nat == pack(w));
            assert(held(codes, n, codes[p]));
        }
        if w.len() == k && table.contains_key(pack(w) as u64) {
            lemma_pack_fits(w);
            assert(held(codes, n, pack(w) as u64));
            let p = choose|p: int| 0 <= p < n && #[trigger] codes[p] == pack(w) as u64;
            lemma_pack_injective(all[p], w);
            assert(all[p] == w);
        }
    }
    assert forall|w: Seq<Base>| #[trigger] read.contains_key(w) implies read[w] == model[w] by {
        let p = all.index_of(w);
        assert(all[p] == w);
        assert(codes[p] as nat == pack(w));
        assert(table[codes[p]] == if sole_among(codes, n, p) {
            marks[p]
        } else {
            0
        });
        if sole(all, p) {
            assert forall|q: int| 0 <= q < n && #[trigger] codes[q] == codes[p] implies q == p by {
                assert(all[q] == all[p]);
            }
        } else {
            let q = choose|q: int| 0 <= q < all.len() && #[trigger] all[q] == all[p] && q != p;
            assert(codes[q] == codes[p]);
        }
    }
    assert(read =~= model);
}

impl<const K: usize> KmerMap<K> {
    /// Builds the index of a reference from the k-mers of both strands.
    ///
    /// Fails on a reference of fewer than `K` nucleotides, and on one with
    /// more windows than a marker can number.
    pub fn new(seq: &DnaSeq) -> (built: Result<Self, IndexError>)
        requires
            word_holds(K),
        ensures
            built is Err <==> seq@.len() < K || windows(seq@, K as nat).len() > i32::MAX,
            built matches Err(e) ==> e == if seq@.len() < K {
                IndexError::ReferenceTooShort
            } else {
                IndexError::ReferenceTooLong
            },
            built matches Ok(map) ==> map@ == reference_index(seq@, K as nat) && map.len
                == seq@.len(),
    {
        let len: usize = seq.len();
        if len < K {
            return Err(IndexError::ReferenceTooShort);
        }
        if len - K >= i32::MAX as usize {
            return Err(IndexError::ReferenceTooLong);
        }
        let forward: Vec<u64> = kmer_codes::<K>(seq);
        let strand: DnaSeq = other_strand(seq);
        let reverse: Vec<u64> = kmer_codes::<K>(&strand);
        let mut index: HashMap<u64, i32> = HashMap::new();
        let ghost none = Seq::<u64>::empty();
        let ghost no_marks = Seq::<i32>::empty();
        assert(indexed(index@, none, no_marks, 0));
        index_strand(&mut index, &forward, true, Ghost(none), Ghost(no_marks));
        let ghost first = none + forward@;
        let ghost first_marks = no_marks + strand_marks(forward@.len(), true);
        index_strand(&mut index, &reverse, false, Ghost(first), Ghost(first_marks));
        proof {
            let codes = first + reverse@;
            let marks = first_marks + strand_marks(reverse@.len(), false);
            let all = strands(seq@, K as nat);
            assert forall|p: int| 0 <= p < codes.len() implies (#[trigger] codes[p]) as nat
                == pack(all[p]) by {
                if p < forward@.len() {
                    assert(codes[p] == forward@[p]);
                } else {
                    assert(codes[p] == reverse@[p - forward@.len()]);
                }
            }
            assert forall|p: int| 0 <= p < marks.len() implies #[trigger] marks[p] == marker_at(
                seq@,
                K as nat,
                p,
            ) by {}
            lemma_index_of_reference(index@, codes, marks, seq@, K as nat);
        }
        Ok(KmerMap { index, len: len as u32 })
    }

    /// Whether the index holds the k-mer that the sequence spells. A
    /// sequence of any other length than `K` spells none.
    pub fn contains(&self, seq: &DnaSeq) -> (held: bool)
        requires
            word_holds(K),
        ensures
            held == self@.contains_key(seq@),
    {
        match whole_kmer::<K>(seq) {
            Some(code) => self.index.contains_key(&code),
            None => false,
        }
    }

    /// Counts the windows of the sequence that the index holds, and the
    /// windows of the sequence.
    pub fn matches(&self, seq: &DnaSeq) -> (counts: (u32, u32))
        requires
            word_holds(K),
            windows(seq@, K as nat).len() <= u32::MAX,
        ensures
            counts.0 == held_count(self@, windows(seq@, K as nat)),
            counts.1 == windows(seq@, K as nat).len(),
    {
        let codes: Vec<u64> = kmer_codes::<K>(seq);
        let ghost all = windows(seq@, K as nat);
        let mut matches: u32 = 0;
        let mut total: u32 = 0;
        let mut i: usize = 0;
        assert(all.take(0) =~= Seq::<Seq<Base>>::empty());
        while i < codes.len()
            invariant
                i <= codes.len(),
                codes@.len() == all.len(),
                all.len() <= u32::MAX,
                forall|j: int| 0 <= j < all.len() ==> (#[trigger] all[j]).len() == K,
                forall|j: int| 0 <= j < codes@.len() ==> (#[trigger] codes@[j]) as nat == pack(all[j]),
                total == i,
                matches <= i,
                matches == held_count(self@, all.take(i as int)),
            decreases codes.len() - i,
        {
            assert(all.take(i + 1).drop_last() =~= all.take(i as int));
            assert(all.take(i + 1).last() == all[i as int]);
            assert(codes@[i as int] as nat == pack(all[i as int]));
            if self.index.contains_key(&codes[i]) {
                matches += 1;
            }
            total += 1;
            i += 1;
        }
        assert(all.take(all.len() as int) =~= all);
        (matches, total)
    }

    /// Looks up every window of the query, left to right: the marker of a
    /// k-mer that has a unique place in the reference, and nothing for a
    /// k-mer that is not held or has no unique place. A query shorter than
    /// `K` has no window, and an empty trace.
    pub fn match_kmers(&self, seq: &DnaSeq) -> (mapping: Vec<Option<i32>>)
        requires
            word_holds(K),
        ensures
            mapping@ == trace_of(self@, windows(seq@, K as nat)),
            mapping@.len() == if seq@.len() < K {
                0
            } else {
                seq@.len() - K + 1
            },
    {
        let mut mapping: Vec<Option<i32>> = Vec::new();
        if seq.len() < K {
            assert(mapping@ =~= trace_of(self@, windows(seq@, K as nat)));
            return mapping;
        }
        let codes: Vec<u64> = kmer_codes::<K>(seq);
        let ghost all = windows(seq@, K as nat);
        let mut i: usize = 0;
        while i < codes.len()
            invariant
                i <= codes.len(),
                codes@.len() == all.len(),
                forall|j: int| 0 <= j < all.len() ==> (#[trigger] all[j]).len() == K,
                forall|j: int| 0 <= j < codes@.len() ==> (#[trigger] codes@[j]) as nat == pack(all[j]),
                mapping@.len() == i,
                forall|j: int| 0 <= j < i ==> #[trigger] mapping@[j] == placed(self@, all[j]),
            decreases codes.len() - i,
        {
            assert(codes@[i as int] as nat == pack(all[i as int]));
            let found: Option<i32> = match self.index.get(&codes[i]) {
                Some(marker) => if *marker != 0 {
                    Some(*marker)
                } else {
                    None
                },
                None => None,
            };
            mapping.push(found);
            i += 1;
        }
        assert(mapping@ =~= trace_of(self@, all));
        mapping
    }
}

impl<const K: usize, A: QuasiAlignment + Debug> QuasiAlign<A> for KmerMap<K> {
    open spec fn accepts(&self, query: Seq<Base>) -> bool {
        word_holds(K) && query.len() <= u32::MAX
    }

    open spec fn alignments(&self, query: Seq<Base>, gap: int) -> Seq<Span> {
        contigs(chain(trace_of(self@, windows(query, K as nat)), K as int), gap)
    }

    fn quasi_align(&self, seq: &DnaSeq, gap: u32) -> (found: Vec<A>) {
        let trace: Vec<Option<i32>> = self.match_kmers(seq);
        proof {
            assert forall|i: int| 0 <= i < trace@.len() implies slot_fits(
                #[trigger] trace@[i],
                i,
                K as int,
            ) by {
                if candidate(trace@[i], i, K as int) is Some {
                    assert(i + K <= seq@.len());
                }
            }
        }
        let segments: Vec<A> = merge_segments(trace, K as u32);
        merge_contigs(segments, gap)
    }
}

} // verus!
