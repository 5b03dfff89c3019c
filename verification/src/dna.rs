//! Nucleotide sequences, as the `bio-seq` crate packs them, and what the
//! library asks of them: their length, their reverse complement, and the
//! k-mers of their sliding windows.

use vstd::prelude::*;

verus! {

/// One of the four nucleotides.
#[derive(Clone, Copy, Debug, PartialEq, Eq, Structural)]
pub enum Base {
    A,
    C,
    G,
    T,
}

impl Base {
    /// The two bits that stand for the nucleotide.
    pub open spec fn code(self) -> nat {
        match self {
            Base::A => 0,
            Base::C => 1,
            Base::G => 2,
            Base::T => 3,
        }
    }

    /// The nucleotide that pairs with this one.
    pub open spec fn complement(self) -> Base {
        match self {
            Base::A => Base::T,
            Base::C => Base::G,
            Base::G => Base::C,
            Base::T => Base::A,
        }
    }
}

/// The character is the letter of a nucleotide.
pub open spec fn is_letter(c: char) -> bool {
    c == 'A' || c == 'C' || c == 'G' || c == 'T'
}

/// The nucleotide that a letter stands for.
pub open spec fn base_of(c: char) -> Base {
    if c == 'A' {
        Base::A
    } else if c == 'C' {
        Base::C
    } else if c == 'G' {
        Base::G
    } else {
        Base::T
    }
}

/// The nucleotides that a text spells, letter by letter.
pub open spec fn spelled(text: Seq<char>) -> Seq<Base> {
    Seq::new(text.len(), |i: int| base_of(text[i]))
}

/// The other strand, read in its own direction.
pub open spec fn reverse_complement(bases: Seq<Base>) -> Seq<Base> {
    Seq::new(bases.len(), |i: int| bases[bases.len() - 1 - i].complement())
}

/// The sliding windows of width `k`, from left to right: none where the
/// sequence is shorter than `k`.
pub open spec fn windows(bases: Seq<Base>, k: nat) -> Seq<Seq<Base>> {
    if bases.len() < k {
        Seq::empty()
    } else {
        Seq::new((bases.len() - k + 1) as nat, |i: int| bases.subrange(i, i + k))
    }
}

/// The windows of both strands of a reference: those of the reference
/// itself, left to right, then those of its reverse complement, left to
/// right.
pub open spec fn strands(reference: Seq<Base>, k: nat) -> Seq<Seq<Base>> {
    windows(reference, k) + windows(reverse_complement(reference), k)
}

/// The number that a window is packed into: two bits for each base, the
/// first base lowest.
pub open spec fn pack(window: Seq<Base>) -> nat
    decreases window.len(),
{
    if window.len() == 0 {
        0
    } else {
        window[0].code() + 4 * pack(window.drop_first())
    }
}

/// The number of windows that `n` bases can spell.
pub open spec fn capacity(n: nat) -> nat
    decreases n,
{
    if n == 0 {
        1
    } else {
        4 * capacity((n - 1) as nat)
    }
}

/// A width that the machine word holds: at least one base, and two bits
/// for each.
pub open spec fn word_holds(k: usize) -> bool {
    0 < k && 2 * k <= usize::BITS
}

/// Windows of one width that pack into one number are the same window.
pub proof fn lemma_pack_injective(a: Seq<Base>, b: Seq<Base>)
    requires
        a.len() == b.len(),
        pack(a) == pack(b),
    ensures
        a == b,
    decreases a.len(),
{
    if a.len() > 0 {
        lemma_pack_injective(a.drop_first(), b.drop_first());
        assert(a =~= seq![a[0]] + a.drop_first());
        assert(b =~= seq![b[0]] + b.drop_first());
    } else {
        assert(a =~= b);
    }
}

/// A window packs into a number below the capacity of its width.
pub proof fn lemma_pack_below_capacity(window: Seq<Base>)
    ensures
        pack(window) < capacity(window.len()),
    decreases window.len(),
{
    if window.len() > 0 {
        lemma_pack_below_capacity(window.drop_first());
    }
}

/// Capacity rises with the width.
pub proof fn lemma_capacity_rises(m: nat, n: nat)
    requires
        m <= n,
    ensures
        capacity(m) <= capacity(n),
    decreases n,
{
    if m < n {
        lemma_capacity_rises(m, (n - 1) as nat);
    }
}

/// The nucleotide that two bits stand for.
pub open spec fn base_with(code: nat) -> Base {
    if code == 0 {
        Base::A
    } else if code == 1 {
        Base::C
    } else if code == 2 {
        Base::G
    } else {
        Base::T
    }
}

/// The window of width `k` that packs into `word`.
pub open spec fn unpack(word: nat, k: nat) -> Seq<Base>
    decreases k,
{
    if k == 0 {
        Seq::empty()
    } else {
        seq![base_with(word % 4)] + unpack(word / 4, (k - 1) as nat)
    }
}

/// Unpacking gives a window of the width asked for, and packing it gives
/// the number back where the number is below the capacity of the width.
pub proof fn lemma_pack_unpack(word: nat, k: nat)
    ensures
        unpack(word, k).len() == k,
        word < capacity(k) ==> pack(unpack(word, k)) == word,
    decreases k,
{
    if k > 0 {
        lemma_pack_unpack(word / 4, (k - 1) as nat);
        let window = unpack(word, k);
        assert(window.drop_first() =~= unpack(word / 4, (k - 1) as nat));
        assert(window[0] == base_with(word % 4));
    }
}

/// A window of a width that the machine word holds packs into a number
/// that a `u64` holds.
pub proof fn lemma_pack_fits(window: Seq<Base>)
    requires
        window.len() <= 32,
    ensures
        pack(window) <= u64::MAX,
{
    lemma_pack_below_capacity(window);
    lemma_capacity_rises(window.len(), 32);
    assert(capacity(32) == 0x1_0000_0000_0000_0000) by {
        assert(capacity(4) == 256) by {
            reveal_with_fuel(capacity, 5);
        }
        assert(capacity(8) == 65536) by {
            reveal_with_fuel(capacity, 5);
        }
        assert(capacity(12) == 0x100_0000) by {
            reveal_with_fuel(capacity, 5);
        }
        assert(capacity(16) == 0x1_0000_0000) by {
            reveal_with_fuel(capacity, 5);
        }
        assert(capacity(20) == 0x100_0000_0000) by {
            reveal_with_fuel(capacity, 5);
        }
        assert(capacity(24) == 0x1_0000_0000_0000) by {
            reveal_with_fuel(capacity, 5);
        }
        assert(capacity(28) == 0x100_0000_0000_0000) by {
            reveal_with_fuel(capacity, 5);
        }
        reveal_with_fuel(capacity, 5);
    }
}

/// A nucleotide sequence, held as `bio-seq` packs it.
#[verifier::external_body]
pub struct DnaSeq {
    inner: bio_seq::seq::Seq<bio_seq::codec::dna::Dna>,
}

/// The nucleotides that a sequence holds, in order.
pub uninterp spec fn seq_bases(seq: &DnaSeq) -> Seq<Base>;

impl View for DnaSeq {
    type V = Seq<Base>;

    open spec fn view(&self) -> Seq<Base> {
        seq_bases(self)
    }
}

/// `TryFrom<&str>` of `bio_seq::seq::Seq<Dna>`: reads a sequence from its
/// letters. It takes each byte of the text through the alphabet's
/// `try_from_ascii`, which knows the four upper-case letters `A`, `C`, `G`
/// and `T`, and fails on the first byte that is none of them.
#[verifier::external_body]
fn read_letters(text: &str) -> (seq: Option<DnaSeq>)
    ensures
        seq is Some <==> forall|i: int| 0 <= i < text@.len() ==> is_letter(#[trigger] text@[i]),
        seq matches Some(s) ==> seq_bases(&s) == spelled(text@),
{
    match bio_seq::seq::Seq::<bio_seq::codec::dna::Dna>::try_from(text) {
        Ok(inner) => Some(DnaSeq { inner }),
        Err(_) => None,
    }
}

/// `bio_seq::seq::SeqSlice::len`: the number of nucleotides held.
#[verifier::external_body]
fn count_bases(seq: &DnaSeq) -> (n: usize)
    ensures
        n == seq_bases(seq).len(),
{
    seq.inner.len()
}

/// `bio_seq::ReverseComplement::to_revcomp` on a slice of `Dna`: an owned
/// copy in which every nucleotide is complemented and the order is
/// reversed.
#[verifier::external_body]
pub(crate) fn other_strand(seq: &DnaSeq) -> (strand: DnaSeq)
    ensures
        seq_bases(&strand) == reverse_complement(seq_bases(seq)),
{
    let slice: &bio_seq::seq::SeqSlice<bio_seq::codec::dna::Dna> = &seq.inner;
    DnaSeq { inner: bio_seq::ReverseComplement::to_revcomp(slice) }
}

/// `bio_seq::seq::SeqSlice::kmers`: the k-mers of the sliding windows of
/// width `K`, left to right, each handed out as the machine word that
/// `bio_seq::kmer::Kmer` holds (`From<&Kmer>` for `usize`). It yields
/// nothing where the sequence is shorter than `K`. A k-mer loads the bits
/// of its window with the first nucleotide lowest; it cannot load an empty
/// window, nor one wider than the word.
#[verifier::external_body]
pub(crate) fn kmer_codes<const K: usize>(seq: &DnaSeq) -> (codes: Vec<u64>)
    requires
        word_holds(K),
    ensures
        codes@.len() == windows(seq_bases(seq), K as nat).len(),
        forall|i: int|
            0 <= i < codes@.len() ==> (#[trigger] codes@[i]) as nat == pack(
                windows(seq_bases(seq), K as nat)[i],
            ),
{
    let mut codes: Vec<u64> = Vec::new();
    for kmer in seq.inner.kmers::<K>() {
        codes.push(usize::from(&kmer) as u64);
    }
    codes
}

/// `TryFrom<&SeqSlice<Dna>>` of `bio_seq::kmer::Kmer<Dna, K>`: the k-mer
/// that a sequence of exactly `K` nucleotides spells, as its machine word,
/// and an error for any other length.
#[verifier::external_body]
pub(crate) fn whole_kmer<const K: usize>(seq: &DnaSeq) -> (code: Option<u64>)
    requires
        word_holds(K),
    ensures
        code is Some <==> seq_bases(seq).len() == K,
        code matches Some(c) ==> c as nat == pack(seq_bases(seq)),
{
    let slice: &bio_seq::seq::SeqSlice<bio_seq::codec::dna::Dna> = &seq.inner;
    match bio_seq::kmer::Kmer::<bio_seq::codec::dna::Dna, K>::try_from(slice) {
        Ok(kmer) => Some(usize::from(&kmer) as u64),
        Err(_) => None,
    }
}

impl DnaSeq {
    /// Reads a sequence from its letters: `None` where the text holds
    /// anything but the upper-case letters `A`, `C`, `G` and `T`.
    pub fn from_text(text: &str) -> (seq: Option<DnaSeq>)
        ensures
            seq is Some <==> forall|i: int|
                0 <= i < text@.len() ==> is_letter(#[trigger] text@[i]),
            seq matches Some(s) ==> s@ == spelled(text@),
    {
        read_letters(text)
    }

    /// The number of nucleotides.
    pub fn len(&self) -> (n: usize)
        ensures
            n == self@.len(),
    {
        count_bases(self)
    }
}

} // verus!
