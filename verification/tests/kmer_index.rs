use quasi_align::alignment::{Alignment, QuasiAlign};
use quasi_align::dna::DnaSeq;
use quasi_align::kmer_map::{IndexError, KmerMap};

fn dna(text: &str) -> DnaSeq {
    DnaSeq::from_text(text).unwrap()
}

fn index3(text: &str) -> KmerMap<3> {
    match KmerMap::<3>::new(&dna(text)) {
        Ok(map) => map,
        Err(e) => panic!("{:?}", e),
    }
}

#[test]
fn text_is_read_letter_by_letter() {
    assert_eq!(dna("").len(), 0);
    assert_eq!(dna("ACGTTGCA").len(), 8);
    assert!(DnaSeq::from_text("ACGN").is_none());
    assert!(DnaSeq::from_text("acgt").is_none());
    assert!(DnaSeq::from_text("AC GT").is_none());
}

#[test]
fn unique_kmers_get_the_marker_of_their_place() {
    // Forward windows: AAC ACG CGT; windows of the other strand ACGTT: ACG CGT GTT.
    let map = index3("AACGT");
    assert_eq!(map.len, 5);
    assert_eq!(map.index.len(), 4);
    assert_eq!(
        map.match_kmers(&dna("AACGTT")),
        vec![Some(1), None, None, Some(-3)]
    );
}

#[test]
fn repeated_kmer_is_ambiguous() {
    // GAT stands at offsets 0 and 4 of the reference.
    let map = index3("GATTGATC");
    assert!(map.contains(&dna("GAT")));
    // Packed with the first base lowest: G = 2, A = 0, T = 3.
    assert_eq!(map.index.get(&(2 + 0 * 4 + 3 * 16)), Some(&0));
    let trace = map.match_kmers(&dna("TTGATT"));
    assert_eq!(trace, vec![Some(3), Some(4), None, Some(2)]);
}

#[test]
fn kmer_of_both_strands_is_ambiguous() {
    // ACGT is its own reverse complement: each of its windows occurs on both strands.
    let map = index3("ACGT");
    assert_eq!(map.index.get(&(0 + 1 * 4 + 2 * 16)), Some(&0));
    assert_eq!(map.index.get(&(1 + 2 * 4 + 3 * 16)), Some(&0));
    assert_eq!(map.match_kmers(&dna("ACGT")), vec![None, None]);
}

#[test]
fn reverse_strand_markers_are_negative() {
    // The other strand of AAACC is GGTTT: GGT GTT TTT at offsets 0, 1, 2.
    let map = index3("AAACC");
    assert_eq!(map.match_kmers(&dna("GGTTT")), vec![Some(-1), Some(-2), Some(-3)]);
    assert_eq!(map.match_kmers(&dna("AAACC")), vec![Some(1), Some(2), Some(3)]);
    assert_eq!(map.index.get(&(3 + 3 * 4 + 3 * 16)), Some(&-3));
}

#[test]
fn contains_takes_kmers_of_either_strand() {
    let map = index3("AAACC");
    assert!(map.contains(&dna("AAA")));
    assert!(map.contains(&dna("ACC")));
    assert!(map.contains(&dna("GGT")));
    assert!(!map.contains(&dna("CCC")));
    assert!(!map.contains(&dna("AA")));
    assert!(!map.contains(&dna("AAAC")));
    assert!(!map.contains(&dna("")));
}

#[test]
fn matches_counts_held_windows() {
    let map = index3("AAACC");
    assert_eq!(map.matches(&dna("AAACCC")), (3, 4));
    assert_eq!(map.matches(&dna("TTTGG")), (1, 3));
    assert_eq!(map.matches(&dna("AC")), (0, 0));
    // An ambiguous k-mer is held.
    assert_eq!(index3("GATTGATC").matches(&dna("GAT")), (1, 1));
}

#[test]
fn short_reference_is_refused() {
    assert!(matches!(KmerMap::<3>::new(&dna("AC")), Err(IndexError::ReferenceTooShort)));
    assert!(matches!(KmerMap::<3>::new(&dna("")), Err(IndexError::ReferenceTooShort)));
    assert!(KmerMap::<3>::new(&dna("ACC")).is_ok());
}

#[test]
fn short_query_has_an_empty_trace() {
    let map = index3("AAACC");
    assert_eq!(map.match_kmers(&dna("AA")), Vec::<Option<i32>>::new());
    assert_eq!(map.match_kmers(&dna("")), Vec::<Option<i32>>::new());
    let found: Vec<Alignment> = map.quasi_align(&dna("AA"), 2);
    assert!(found.is_empty());
}

#[test]
fn unknown_kmer_has_an_empty_slot() {
    let map = index3("AAACC");
    assert_eq!(map.match_kmers(&dna("AAAGCC")), vec![Some(1), None, None, None]);
}

#[test]
fn widest_kmer_fills_the_word() {
    let text = "AACCAACCAACCAACCAACCAACCAACCAACCAG";
    let map = match KmerMap::<32>::new(&dna(text)) {
        Ok(map) => map,
        Err(e) => panic!("{:?}", e),
    };
    assert_eq!(map.index.len(), 6);
    assert_eq!(map.match_kmers(&dna(text)), vec![Some(1), Some(2), Some(3)]);
    assert!(map.contains(&dna("AACCAACCAACCAACCAACCAACCAACCAACC")));
    assert!(map.contains(&dna("GGTTGGTTGGTTGGTTGGTTGGTTGGTTGGTT")));
    assert!(!map.contains(&dna("AACCAACCAACCAACCAACCAACCAACCAACA")));
}

#[test]
fn query_on_the_forward_strand_is_one_alignment() {
    let map = match KmerMap::<4>::new(&dna("AAACCCGTA")) {
        Ok(map) => map,
        Err(e) => panic!("{:?}", e),
    };
    let found: Vec<Alignment> = map.quasi_align(&dna("AACCCG"), 0);
    assert_eq!(found, vec![Alignment { q_start: 0, q_end: 6, r_start: 1, r_end: 7, forward: true }]);
}

#[test]
fn substitution_is_bridged_within_tolerance() {
    // The query differs from the reference at its sixth base, and the three windows over
    // that base occur on neither strand.
    let map = match KmerMap::<3>::new(&dna("AAACCTGGCAT")) {
        Ok(map) => map,
        Err(e) => panic!("{:?}", e),
    };
    let query = dna("AAACCGGGCAT");
    assert_eq!(
        map.match_kmers(&query),
        vec![Some(1), Some(2), Some(3), None, None, None, Some(7), Some(8), Some(9)]
    );
    let apart: Vec<Alignment> = map.quasi_align(&query, 0);
    assert_eq!(
        apart,
        vec![
            Alignment { q_start: 0, q_end: 5, r_start: 0, r_end: 5, forward: true },
            Alignment { q_start: 6, q_end: 11, r_start: 6, r_end: 11, forward: true }
        ]
    );
    let bridged: Vec<Alignment> = map.quasi_align(&query, 1);
    assert_eq!(
        bridged,
        vec![Alignment { q_start: 0, q_end: 11, r_start: 0, r_end: 11, forward: true }]
    );
}

#[test]
fn clone_holds_the_same_markers() {
    let map = index3("GATTGATC");
    let copy = map.clone();
    assert_eq!(copy.index, map.index);
    assert_eq!(copy.len, 8);
    assert_eq!(copy.match_kmers(&dna("TTGATT")), map.match_kmers(&dna("TTGATT")));
}

#[test]
fn index_holds_every_kmer_of_both_strands() {
    // Forward GAT ATT TTG TGA GAT ATC; the other strand GATCAATC: GAT ATC TCA CAA AAT ATC.
    let map = index3("GATTGATC");
    assert_eq!(map.index.len(), 8);
    let query = dna("GATATTTTGTGAATCTCACAAAAT");
    let trace = map.match_kmers(&query);
    assert_eq!(trace.len(), 22);
    assert_eq!(trace[0], None);
    assert_eq!(trace[3], Some(2));
    assert_eq!(trace[6], Some(3));
    assert_eq!(trace[9], Some(4));
    assert_eq!(trace[12], None);
    assert_eq!(trace[15], Some(-3));
    assert_eq!(trace[18], Some(-4));
    assert_eq!(trace[21], Some(-5));
}
