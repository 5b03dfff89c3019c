use quasi_align::alignment::{Alignment, QuasiAlignment};
use quasi_align::chain::{fits, merge, merge_segments, mergable};

fn markers(values: &[i32]) -> Vec<Option<i32>> {
    values.iter().map(|v| Some(*v)).collect()
}

#[test]
fn test_simple_alignment() {
    // The query is a substring of the reference
    let kmer_map = vec![Some(7), Some(8), Some(9), Some(10), Some(11)];
    let k = 5; // K-mer length is 5
    let alignments: Vec<Alignment> = merge_segments(kmer_map, k);
    assert_eq!(alignments.len(), 1);
    let a = &alignments[0];
    assert_eq!(
        *a,
        Alignment {
            q_start: 0,
            q_end: 9,
            r_start: 6,
            r_end: 15,
            forward: true,
        }
    );
}

#[test]
fn test_multiple_alignments() {
    // The query has two regions that align to the reference
    let kmer_map = vec![
        Some(1),
        Some(2),
        Some(3),
        Some(4),
        Some(5),
        Some(6),
        None,
        None,
        None,
        None,
        Some(1),
        Some(2),
        Some(3),
        Some(4),
        Some(5),
        Some(6),
    ];
    let k = 5; // K-mer length is 5
    let alignments: Vec<Alignment> = merge_segments(kmer_map, k);
    let a = &alignments[0];
    assert_eq!(
        *a,
        Alignment {
            q_start: 0,
            q_end: 10,
            r_start: 0,
            r_end: 10,
            forward: true
        }
    );
    let b = &alignments[1];
    assert_eq!(
        *b,
        Alignment {
            q_start: 10,
            q_end: 20,
            r_start: 0,
            r_end: 10,
            forward: true
        }
    );
}

#[test]
fn test_repeats_in_sequence() {
    // The query has repeats that align to different parts of the reference. The two hits after the first gap lie inside the query range of the segment
    // that was just closed, and are passed over.
    let kmer_map = vec![
        Some(-10),
        Some(-9),
        Some(-8),
        Some(-7),
        Some(-6),
        Some(-5),
        None,
        Some(11),
        Some(-15),
        None,
        Some(1),
        Some(2),
        Some(3),
        Some(4),
        Some(5),
        Some(6),
    ];
    let k = 5; // K-mer length is 5
    let alignments: Vec<Alignment> = merge_segments(kmer_map, k);
    assert_eq!(alignments.len(), 2);
    let a = &alignments[0];
    assert_eq!(
        *a,
        Alignment {
            q_start: 0,
            q_end: 10,
            r_start: 4,
            r_end: 14,
            forward: false
        }
    );
    let b = &alignments[1];
    assert_eq!(
        *b,
        Alignment {
            q_start: 10,
            q_end: 20,
            r_start: 0,
            r_end: 10,
            forward: true
        }
    );
}

#[test]
fn test_basic_alignment() {
    // One run on the forward strand
    let kmer_map = vec![Some(1), Some(2), Some(3), Some(4), Some(5), Some(6)];
    let k = 5; // K-mer length is 5
    let alignments: Vec<Alignment> = merge_segments(kmer_map, k);
    assert_eq!(alignments.len(), 1);

    let a0 = &alignments[0];
    assert_eq!(
        *a0,
        Alignment {
            q_start: 0,
            q_end: 10,
            r_start: 0,
            r_end: 10,
            forward: true
        }
    );
}

#[test]
fn test_basic_reverse_alignment() {
    // A run on the reverse strand: the reference start falls by one per query step, from the
    // start of the first window
    let kmer_map = vec![Some(-10), Some(-9), Some(-8), Some(-7), Some(-6), Some(-5)];
    let k = 5; // K-mer length is 5
    let alignments: Vec<Alignment> = merge_segments(kmer_map, k);
    assert_eq!(alignments.len(), 1);

    let a0 = &alignments[0];
    assert_eq!(
        *a0,
        Alignment {
            q_start: 0,
            q_end: 10,
            r_start: 4,
            r_end: 14,
            forward: false
        }
    );
}

#[test]
fn test_non_matching_kmers() {
    // No k-mer of the query is held
    let kmer_map = vec![None, None, None, None, None];
    let k = 5; // K-mer length is 5
    let alignments: Vec<Alignment> = merge_segments(kmer_map, k);
    assert_eq!(alignments.len(), 0);
}

#[test]
fn test_ambiguous_kmers() {
    // The hit at offset 4 lies inside the query range of the first segment and is passed
    // over: the second segment starts where the first one ends.
    let kmer_map = vec![Some(1), None, None, None, Some(12), Some(13), Some(14)];
    let k = 5; // K-mer length is 5
    let alignments: Vec<Alignment> = merge_segments(kmer_map, k);
    assert_eq!(alignments.len(), 2);

    let a0 = &alignments[0];
    assert_eq!(
        *a0,
        Alignment {
            q_start: 0,
            q_end: 5,
            r_start: 0,
            r_end: 5,
            forward: true
        }
    );

    let a1 = &alignments[1];
    assert_eq!(
        *a1,
        Alignment {
            q_start: 5,
            q_end: 11,
            r_start: 12,
            r_end: 18,
            forward: true
        }
    );
}

#[test]
fn test_interrupted_alternating_direction() {
    let kmer_map = vec![
        Some(-16),
        Some(-15),
        Some(-14),
        Some(-13),
        None,
        None,
        None,
        None,
        None,
        Some(12),
        Some(13),
        Some(14),
        Some(15),
    ];
    let k = 5; // K-mer length is 5
    let alignments: Vec<Alignment> = merge_segments(kmer_map, k);
    println!("{:?}", alignments);
    assert_eq!(alignments.len(), 2);
    let a0 = &alignments[0];
    assert_eq!(
        *a0,
        Alignment {
            q_start: 0,
            q_end: 8,
            r_start: 12,
            r_end: 20,
            forward: false
        }
    );

    let a1 = &alignments[1];
    assert_eq!(
        *a1,
        Alignment {
            q_start: 9,
            q_end: 17,
            r_start: 11,
            r_end: 19,
            forward: true
        }
    );
}

#[test]
fn test_accordian() {
    // the accordian test
    let kmer_map = vec![
        Some(1),
        Some(2),
        None,
        None,
        None,
        None,
        Some(-6),
        Some(-5),
        None,
        None,
        None,
        None,
        Some(1),
        Some(2),
        None,
        None,
        None,
        None,
        Some(-6),
        Some(-5),
    ];
    let k = 5; // K-mer length is 5
    let alignments: Vec<Alignment> = merge_segments(kmer_map, k);
    assert_eq!(alignments.len(), 4);

    let a0 = &alignments[0];
    assert_eq!(
        *a0,
        Alignment {
            q_start: 0,
            q_end: 6,
            r_start: 0,
            r_end: 6,
            forward: true
        }
    );

    let a1 = &alignments[1];
    assert_eq!(
        *a1,
        Alignment {
            q_start: 6,
            q_end: 12,
            r_start: 4,
            r_end: 10,
            forward: false
        }
    );

    let a2 = &alignments[2];
    assert_eq!(
        *a2,
        Alignment {
            q_start: 12,
            q_end: 18,
            r_start: 0,
            r_end: 6,
            forward: true
        }
    );

    let a3 = &alignments[3];
    assert_eq!(
        *a3,
        Alignment {
            q_start: 18,
            q_end: 24,
            r_start: 4,
            r_end: 10,
            forward: false
        }
    );
}

#[test]
fn forward_run_is_one_segment() {
    let alignments: Vec<Alignment> = merge_segments(markers(&[1, 2, 3, 4, 5]), 3);
    assert_eq!(alignments, vec![Alignment::new(0, 7, 0, 7, true)]);
}

#[test]
fn empty_slot_splits_a_run() {
    // The window at offset 3 starts inside the query range of the segment closed at offset 2,
    // so the second segment opens at offset 4.
    let trace = vec![Some(1), Some(2), None, Some(4), Some(5)];
    let alignments: Vec<Alignment> = merge_segments(trace, 3);
    assert_eq!(
        alignments,
        vec![Alignment::new(0, 4, 0, 4, true), Alignment::new(4, 7, 4, 7, true)]
    );
}

#[test]
fn reverse_run_is_one_segment() {
    let alignments: Vec<Alignment> = merge_segments(markers(&[-10, -9, -8]), 3);
    assert_eq!(alignments, vec![Alignment::new(0, 5, 7, 12, false)]);
}

#[test]
fn ambiguous_markers_open_nothing() {
    let alignments: Vec<Alignment> = merge_segments(markers(&[0, 0, 0]), 3);
    assert_eq!(alignments.len(), 0);
}

#[test]
fn ambiguous_marker_breaks_a_run() {
    let alignments: Vec<Alignment> = merge_segments(markers(&[1, 2, 0, 0, 5, 6]), 2);
    assert_eq!(
        alignments,
        vec![Alignment::new(0, 3, 0, 3, true), Alignment::new(4, 7, 4, 7, true)]
    );
}

#[test]
fn empty_trace_has_no_segment() {
    let alignments: Vec<Alignment> = merge_segments(Vec::new(), 3);
    assert!(alignments.is_empty());
}

#[test]
fn strand_switch_closes_the_segment() {
    let alignments: Vec<Alignment> = merge_segments(markers(&[1, 2, -20, -19]), 1);
    assert_eq!(
        alignments,
        vec![Alignment::new(0, 2, 0, 2, true), Alignment::new(2, 4, 18, 20, false)]
    );
}

#[test]
fn jump_on_the_reference_closes_the_segment() {
    // The window at offset 1 does not continue the first: the second segment opens inside
    // the query range of the first, and offset 2 is passed over.
    let alignments: Vec<Alignment> = merge_segments(markers(&[1, 5, 6]), 3);
    assert_eq!(
        alignments,
        vec![Alignment::new(0, 3, 0, 3, true), Alignment::new(1, 4, 4, 7, true)]
    );
}

#[test]
fn continuation_across_offsets_passed_over() {
    // After the break at offset 1 the scan resumes at offset 3; the window there carries the
    // open segment on by one reference base and three query bases.
    let trace = vec![Some(1), Some(5), None, Some(6)];
    let alignments: Vec<Alignment> = merge_segments(trace, 3);
    assert_eq!(
        alignments,
        vec![Alignment::new(0, 3, 0, 3, true), Alignment::new(1, 6, 4, 8, true)]
    );
}

#[test]
fn single_base_windows_chain() {
    let alignments: Vec<Alignment> = merge_segments(markers(&[1, 2, 3]), 1);
    assert_eq!(alignments, vec![Alignment::new(0, 3, 0, 3, true)]);
}

#[test]
fn reverse_run_stops_at_the_first_reference_base() {
    // After the window at reference 0 nothing can continue a reverse run.
    let alignments: Vec<Alignment> = merge_segments(markers(&[-2, -1, -1]), 2);
    assert_eq!(
        alignments,
        vec![Alignment::new(0, 3, 0, 3, false), Alignment::new(2, 4, 0, 2, false)]
    );
}

#[test]
fn largest_markers_are_decoded() {
    let alignments: Vec<Alignment> = merge_segments(markers(&[i32::MAX, i32::MIN]), 4);
    assert_eq!(
        alignments,
        vec![
            Alignment::new(0, 4, 2147483646, 2147483650, true),
            Alignment::new(1, 5, 2147483647, 2147483651, false)
        ]
    );
}

#[test]
fn segments_are_well_formed_and_rise_on_the_query() {
    let trace = vec![
        Some(3),
        Some(4),
        Some(9),
        None,
        Some(-7),
        Some(-6),
        Some(-7),
        Some(0),
        Some(2),
        Some(3),
        None,
        Some(12),
    ];
    for k in 1..5u32 {
        let alignments: Vec<Alignment> = merge_segments(trace.clone(), k);
        for a in &alignments {
            assert!(a.q_end > a.q_start);
            assert!(a.r_end > a.r_start);
            assert!(a.r_end - a.r_start <= a.q_end - a.q_start);
        }
        for pair in alignments.windows(2) {
            assert!(pair[0].q_start < pair[1].q_start);
            assert!(pair[0].q_end < pair[1].q_end);
        }
    }
}

#[test]
fn runs_parted_by_empty_slots_do_not_overlap() {
    let trace = vec![Some(1), Some(2), None, Some(8), Some(9), None, None, None, Some(-5), Some(-4)];
    let alignments: Vec<Alignment> = merge_segments(trace, 3);
    assert_eq!(
        alignments,
        vec![
            Alignment::new(0, 4, 0, 4, true),
            Alignment::new(4, 7, 8, 11, true),
            Alignment::new(8, 12, 3, 7, false)
        ]
    );
    for a in &alignments {
        assert_eq!(a.q_end - a.q_start, a.r_end - a.r_start);
    }
    for pair in alignments.windows(2) {
        assert!(pair[0].q_end <= pair[1].q_start);
    }
}

#[test]
fn mergable_asks_for_one_strand_and_one_base() {
    let working = Alignment::new(0, 5, 10, 15, true);
    assert!(mergable(&working, &Alignment::new(1, 6, 11, 16, true)));
    assert!(!mergable(&working, &Alignment::new(1, 6, 12, 17, true)));
    assert!(!mergable(&working, &Alignment::new(1, 6, 10, 15, true)));
    assert!(!mergable(&working, &Alignment::new(1, 6, 11, 16, false)));

    let reverse = Alignment::new(0, 5, 10, 15, false);
    assert!(mergable(&reverse, &Alignment::new(1, 6, 9, 14, false)));
    assert!(!mergable(&reverse, &Alignment::new(1, 6, 11, 16, false)));
    assert!(!mergable(&reverse, &Alignment::new(1, 6, 9, 14, true)));
}

#[test]
fn mergable_at_the_ends_of_the_range() {
    let at_zero = Alignment::new(0, 5, 0, 5, false);
    assert!(!mergable(&at_zero, &Alignment::new(1, 6, 0, 5, false)));
    assert!(!mergable(&at_zero, &Alignment::new(1, 6, u32::MAX, 5, false)));
    let at_top = Alignment::new(0, 5, 0, u32::MAX, true);
    assert!(!mergable(&at_top, &Alignment::new(1, 6, 0, 0, true)));
}

#[test]
fn merge_moves_the_trailing_bounds() {
    let mut working = Alignment::new(0, 5, 10, 15, true);
    merge(&mut working, &Alignment::new(1, 6, 11, 16, true));
    assert_eq!(working, Alignment::new(0, 6, 10, 16, true));

    let mut reverse = Alignment::new(0, 5, 10, 15, false);
    merge(&mut reverse, &Alignment::new(1, 6, 9, 14, false));
    assert_eq!(reverse, Alignment::new(0, 6, 9, 15, false));
}

#[test]
fn accessors_read_and_write_the_fields() {
    let mut a = Alignment::new(1, 2, 3, 4, true);
    assert_eq!((a.q_start(), a.q_end(), a.r_start(), a.r_end(), a.forward()), (1, 2, 3, 4, true));
    a.set_q_start(10);
    a.set_q_end(20);
    a.set_r_start(30);
    a.set_r_end(45);
    a.set_forward(false);
    assert_eq!(a, Alignment::new(10, 20, 30, 45, false));
    assert_eq!(a.indel(), 5);
    assert_eq!(Alignment::new(0, 7, 0, 7, true).indel(), 0);
}

#[test]
fn fits_asks_for_coordinates_within_range() {
    assert!(fits(&Vec::new(), u32::MAX));
    assert!(fits(&vec![None, None, Some(0)], u32::MAX));
    assert!(fits(&markers(&[1, 2, -3]), 7));
    // The window of the largest marker ends at 2147483647 + k.
    assert!(fits(&markers(&[i32::MAX]), 2147483649));
    assert!(!fits(&markers(&[i32::MAX]), 2147483650));
    assert!(fits(&markers(&[i32::MIN]), 2147483648));
    assert!(!fits(&markers(&[i32::MIN]), 2147483649));
    // The window at offset 2 ends at query offset 2 + k.
    assert!(fits(&vec![None, None, Some(1)], u32::MAX - 2));
    assert!(!fits(&vec![None, None, Some(1)], u32::MAX - 1));
    assert!(fits(&vec![Some(1), None, None], u32::MAX));
}
