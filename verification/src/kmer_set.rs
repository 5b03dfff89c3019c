//! The set of the k-mers of a sequence, of both strands.

use crate::dna::{
    capacity, kmer_codes, lemma_pack_below_capacity, lemma_pack_fits, lemma_pack_injective,
    lemma_pack_unpack, other_strand, pack, strands, unpack, whole_kmer, word_holds, Base, DnaSeq,
};
use std::collections::HashSet;
use vstd::prelude::*;
use vstd::relations::injective_on;
use vstd::set_lib::lemma_map_size;
use vstd::std_specs::iter::IteratorSpec;

verus! {

broadcast use vstd::std_specs::hash::group_hash_axioms;

/// The k-mers of width `k` whose packed words the set of words holds.
pub open spec fn spelled_by(words: Set<u64>, k: nat) -> Set<Seq<Base>> {
    Set::new(|w: Seq<Base>| w.len() == k && words.contains(pack(w) as u64))
}

/// A set of k-mers of width `K`.
pub struct KmerSet<const K: usize> {
    /// The machine words that pack the k-mers held.
    pub index: HashSet<u64>,
}

impl<const K: usize> View for KmerSet<K> {
    type V = Set<Seq<Base>>;

    open spec fn view(&self) -> Set<Seq<Base>> {
        spelled_by(self.index@, K as nat)
    }
}

/// A set of words, each below the capacity of width `k`, holds as many
/// words as it spells k-mers.
pub proof fn lemma_spelled_by_size(words: Set<u64>, k: nat)
    requires
        k <= 32,
        words.finite(),
        forall|c: u64| words.contains(c) ==> (c as nat) < capacity(k),
    ensures
        spelled_by(words, k).finite(),
        spelled_by(words, k).len() == words.len(),
{
    let read = |c: u64| unpack(c as nat, k);
    assert forall|a: u64, b: u64|
        words.contains(a) && words.contains(b) && #[trigger] read(a) == #[trigger] read(
            b,
        ) implies a == b by {
        lemma_pack_unpack(a as nat, k);
        lemma_pack_unpack(b as nat, k);
    }
    assert(injective_on(read, words));
    assert forall|w: Seq<Base>| #[trigger]
        words.map(read).contains(w) <==> spelled_by(words, k).contains(w) by {
        if words.map(read).contains(w) {
            let c = choose|c: u64| words.contains(c) && w == read(c);
            lemma_pack_unpack(c as nat, k);
        }
        if spelled_by(words, k).contains(w) {
            lemma_pack_fits(w);
            let c = pack(w) as u64;
            lemma_pack_unpack(c as nat, k);
            lemma_pack_injective(unpack(c as nat, k), w);
            assert(words.contains(c) && w == read(c));
        }
    }
    assert(words.map(read) =~= spelled_by(words, k));
    lemma_map_size(words, spelled_by(words, k), read);
}

impl<const K: usize> Clone for KmerSet<K> {
    fn clone(&self) -> (copy: Self)
        ensures
            copy.index@ == self.index@,
            copy@ == self@,
    {
        let mut index: HashSet<u64> = HashSet::new();
        let ghost words = self.index.iter().remaining().unref();
        assert(words.to_set() == self.index@);
        for word in it: self.index.iter()
            invariant
                it.seq().unref() == words,
                index@ == words.take(it.index() as int).to_set(),
        {
            index.insert(*word);
            proof {
                let taken = words.take(it.index() as int);
                let more = words.take(it.index() + 1);
                assert(more =~= taken.push(*word));
                assert forall|c: u64| #[trigger]
                    more.to_set().contains(c) <==> taken.to_set().contains(c) || c == *word by {
                    if more.contains(c) {
                        let p = choose|p: int| 0 <= p < more.len() && more[p] == c;
                        if p < taken.len() {
                            assert(taken[p] == c);
                        }
                    }
                    if taken.contains(c) {
                        let p = choose|p: int| 0 <= p < taken.len() && taken[p] == c;
                        assert(more[p] == c);
                    }
                    if c == *word {
                        assert(more[taken.len() as int] == c);
                    }
                }
                assert(index@ =~= more.to_set());
            }
        }
        assert(words.take(words.len() as int) =~= words);
        KmerSet { index }
    }
}

impl<const K: usize> Default for KmerSet<K> {
    fn default() -> (set: Self)
        ensures
            set@ == Set::<Seq<Base>>::empty(),
            set.well_formed(),
    {
        let set = KmerSet { index: HashSet::new() };
        assert(set@ =~= Set::<Seq<Base>>::empty());
        set
    }
}

/// Puts every word of the list into the set.
fn insert_all(index: &mut HashSet<u64>, codes: &Vec<u64>)
    ensures
        final(index)@ == old(index)@.union(codes@.to_set()),
        old(index)@.finite() ==> final(index)@.finite(),
{
    let mut i: usize = 0;
    assert(index@ =~= old(index)@.union(codes@.take(0).to_set()));
    while i < codes.len()
        invariant
            i <= codes.len(),
            index@ == old(index)@.union(codes@.take(i as int).to_set()),
            old(index)@.finite() ==> index@.finite(),
        decreases codes.len() - i,
    {
        let ghost before = index@;
        index.insert(codes[i]);
        proof {
            let taken = codes@.take(i as int);
            let more = codes@.take(i + 1);
            assert(more =~= taken.push(codes@[i as int]));
            assert forall|c: u64| #[trigger] more.to_set().contains(c) <==> taken.to_set().contains(c)
                || c == codes@[i as int] by {
                if more.contains(c) {
                    let p = choose|p: int| 0 <= p < more.len() && more[p] == c;
                    if p < i {
                        assert(taken[p] == c);
                    }
                }
                if taken.contains(c) {
                    let p = choose|p: int| 0 <= p < taken.len() && taken[p] == c;
                    assert(more[p] == c);
                }
                if c == codes@[i as int] {
                    assert(more[i as int] == c);
                }
            }
            assert(index@ =~= old(index)@.union(more.to_set()));
        }
        i += 1;
    }
    assert(codes@.take(codes@.len() as int) =~= codes@);
}

/// The words that pack the windows of both strands spell just those
/// windows.
proof fn lemma_spelled_by_strands(
    forward: Seq<u64>,
    reverse: Seq<u64>,
    bases: Seq<Base>,
    k: nat,
)
    requires
        0 < k <= 32,
        (forward + reverse).len() == strands(bases, k).len(),
        forall|p: int|
            0 <= p < (forward + reverse).len() ==> (#[trigger] (forward + reverse)[p]) as nat
                == pack(strands(bases, k)[p]),
    ensures
        spelled_by(forward.to_set().union(reverse.to_set()), k) == strands(bases, k).to_set(),
{
    let codes = forward + reverse;
    let all = strands(bases, k);
    let words = forward.to_set().union(reverse.to_set());
    assert forall|p: int| 0 <= p < all.len() implies (#[trigger] all[p]).len() == k by {}
    assert forall|w: Seq<Base>| #[trigger]
        spelled_by(words, k).contains(w) <==> all.to_set().contains(w) by {
        if all.contains(w) {
            let p = choose|p: int| 0 <= p < all.len() && all[p] == w;
            assert(codes[p] as nat == pack(w));
            if p < forward.len() {
                assert(forward[p] == codes[p]);
                assert(forward.contains(codes[p]));
            } else {
                assert(reverse[p - forward.len()] == codes[p]);
                assert(reverse.contains(codes[p]));
            }
        }
        if w.len() == k && words.contains(pack(w) as u64) {
            lemma_pack_fits(w);
            let c = pack(w) as u64;
            let p = if forward.contains(c) {
                choose|p: int| 0 <= p < forward.len() && forward[p] == c
            } else {
                forward.len() + choose|p: int| 0 <= p < reverse.len() && reverse[p] == c
            };
            assert(codes[p] == c);
            lemma_pack_injective(all[p], w);
            assert(all[p] == w);
        }
    }
    assert(spelled_by(words, k) =~= all.to_set());
}

impl<const K: usize> KmerSet<K> {
    /// Every word held packs a k-mer of width `K`.
    pub open spec fn well_formed(&self) -> bool {
        &&& self.index@.finite()
        &&& forall|c: u64| self.index@.contains(c) ==> (c as nat) < capacity(K as nat)
    }

    /// The set of the k-mers of both strands of a sequence.
    pub fn new(seq: &DnaSeq) -> (set: Self)
        requires
            word_holds(K),
        ensures
            set@ == strands(seq@, K as nat).to_set(),
            set.well_formed(),
    {
        let mut index: HashSet<u64> = HashSet::new();
        let forward: Vec<u64> = kmer_codes::<K>(seq);
        insert_all(&mut index, &forward);
        let strand: DnaSeq = other_strand(seq);
        let reverse: Vec<u64> = kmer_codes::<K>(&strand);
        insert_all(&mut index, &reverse);
        proof {
            let codes = forward@ + reverse@;
            let all = strands(seq@, K as nat);
            assert forall|p: int| 0 <= p < codes.len() implies (#[trigger] codes[p]) as nat
                == pack(all[p]) by {
                if p < forward@.len() {
                    assert(codes[p] == forward@[p]);
                } else {
                    assert(codes[p] == reverse@[p - forward@.len()]);
                }
            }
            lemma_spelled_by_strands(forward@, reverse@, seq@, K as nat);
            assert(index@ =~= forward@.to_set().union(reverse@.to_set()));
            assert forall|c: u64| index@.contains(c) implies (c as nat) < capacity(K as nat) by {
                let p = if forward@.contains(c) {
                    choose|p: int| 0 <= p < forward@.len() && forward@[p] == c
                } else {
                    forward@.len() + choose|p: int| 0 <= p < reverse@.len() && reverse@[p] == c
                };
                assert(codes[p] == c);
                lemma_pack_below_capacity(all[p]);
            }
        }
        KmerSet { index }
    }

    /// Whether the set holds the k-mer that the sequence spells. A
    /// sequence of any other length than `K` spells none.
    pub fn contains(&self, kmer: &DnaSeq) -> (held: bool)
        requires
            word_holds(K),
        ensures
            held == self@.contains(kmer@),
    {
        match whole_kmer::<K>(kmer) {
            Some(code) => self.index.contains(&code),
            None => false,
        }
    }

    /// Puts the k-mer that the sequence spells into the set. A sequence of
    /// any other length than `K` spells none, and leaves the set as it is.
    pub fn add(&mut self, kmer: &DnaSeq)
        requires
            word_holds(K),
        ensures
            final(self)@ == if kmer@.len() == K {
                old(self)@.insert(kmer@)
            } else {
                old(self)@
            },
            old(self).well_formed() ==> final(self).well_formed(),
    {
        match whole_kmer::<K>(kmer) {
            Some(code) => {
                self.index.insert(code);
                proof {
                    lemma_pack_below_capacity(kmer@);
                    assert forall|w: Seq<Base>| #[trigger]
                        self@.contains(w) <==> old(self)@.insert(kmer@).contains(w) by {
                        if w.len() == K && pack(w) as u64 == code {
                            lemma_pack_fits(w);
                            lemma_pack_injective(w, kmer@);
                        }
                    }
                    assert(self@ =~= old(self)@.insert(kmer@));
                }
            },
            None => {},
        }
    }

    /// The number of k-mers held.
    pub fn len(&self) -> (n: usize)
        requires
            word_holds(K),
        ensures
            n == self.index@.len(),
            self.well_formed() ==> n == self@.len(),
    {
        proof {
            if self.well_formed() {
                lemma_spelled_by_size(self.index@, K as nat);
            }
        }
        self.index.len()
    }

    /// Whether the set holds no k-mer.
    pub fn is_empty(&self) -> (empty: bool)
        requires
            word_holds(K),
        ensures
            empty == self.index@.is_empty(),
            self.well_formed() ==> empty == (self@.len() == 0),
            empty ==> self@ == Set::<Seq<Base>>::empty(),
    {
        let empty: bool = self.index.is_empty();
        proof {
            if self.well_formed() {
                lemma_spelled_by_size(self.index@, K as nat);
            }
            if empty {
                assert(self@ =~= Set::<Seq<Base>>::empty());
            }
        }
        empty
    }
}

} // verus!
