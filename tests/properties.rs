use block_aligner::scan::{clamp, convert_char, div_ceil, ScanAligner, Trace};
use block_aligner::scores::{AlignError, Gaps, BLOSUM62, NW1};

fn global<const K: usize>(q: &[u8], r: &[u8], nuc: bool, gaps: Gaps) -> i32 {
    let m = if nuc { NW1() } else { BLOSUM62() };
    let mut a = ScanAligner::<K, false, false>::new(q, &m, gaps).unwrap();
    a.align(r, 0).unwrap();
    a.score()
}

#[test]
fn matrix_entries() {
    let b = BLOSUM62();
    assert_eq!(b.score(b'A', b'A'), 4);
    assert_eq!(b.score(b'A', b'R'), -1);
    assert_eq!(b.score(b'W', b'W'), 11);
    assert_eq!(b.score(b'W', b'C'), -2);
    let n = NW1();
    assert_eq!(n.score(b'A', b'A'), 1);
    assert_eq!(n.score(b'A', b'T'), -1);
    assert_eq!(n.score(b'N', b'N'), 1);
}

#[test]
fn helpers() {
    assert_eq!(convert_char(b'A', true), b'A');
    assert_eq!(convert_char(b'C', false), 2);
    assert_eq!(convert_char(91, false), 26);
    assert_eq!(clamp(100000), 32767);
    assert_eq!(clamp(-100000), -32768);
    assert_eq!(clamp(-5), -5);
    assert_eq!(div_ceil(17, 16), 2);
    assert_eq!(div_ceil(16, 16), 1);
    assert_eq!(div_ceil(0, 16), 0);
}

#[test]
fn identical_nucleotides_score_length() {
    let s = b"ACGTACGTTGCA";
    assert_eq!(global::<16>(s, s, true, Gaps { open: -2, extend: -1 }), 12);
}

#[test]
fn substitutions_lower_bound() {
    let q = b"ACGTACGTAC";
    let r = b"ACGAACGTTC";
    assert_eq!(global::<16>(q, r, true, Gaps { open: -2, extend: -1 }), 6);
}

#[test]
fn empty_query_is_one_gap() {
    assert_eq!(global::<8>(b"", b"ACGTA", true, Gaps { open: -3, extend: -1 }), -7);
    assert_eq!(global::<8>(b"ACGTA", b"", true, Gaps { open: -3, extend: -1 }), -7);
}

#[test]
fn single_symbols() {
    assert_eq!(global::<2>(b"W", b"C", false, Gaps { open: -11, extend: -1 }), -2);
    assert_eq!(global::<2>(b"A", b"A", true, Gaps { open: -1, extend: -1 }), 1);
}

#[test]
fn swap_keeps_score() {
    let g = Gaps { open: -11, extend: -1 };
    let a = global::<32>(b"HEAGAWGHEE", b"PAWHEAE", false, g);
    let b = global::<32>(b"PAWHEAE", b"HEAGAWGHEE", false, g);
    assert_eq!(a, b);
}

#[test]
fn wide_band_matches_narrow_on_short_input() {
    let g = Gaps { open: -11, extend: -1 };
    let a = global::<1>(b"MKVLAAGIV", b"MKVIAGGLV", false, g);
    let b = global::<64>(b"MKVLAAGIV", b"MKVIAGGLV", false, g);
    assert_eq!(a, b);
}

#[test]
fn long_query_band_moves_down() {
    // A query far longer than one band: the band has to slide down to reach
    // the bottom-right cell.
    let mut q = Vec::new();
    let mut r = Vec::new();
    for k in 0..200u32 {
        let c = [b'A', b'C', b'G', b'T'][(k % 4) as usize];
        q.push(c);
        r.push(c);
    }
    assert_eq!(global::<8>(&q, &r, true, Gaps { open: -2, extend: -1 }), 200);
}

#[test]
fn errors() {
    let m = NW1();
    let bad_gaps = ScanAligner::<4, false, false>::new(b"ACGT", &m, Gaps { open: -1, extend: -2 });
    assert!(matches!(bad_gaps, Err(AlignError::GapConfig)));
    let positive = ScanAligner::<4, false, false>::new(b"ACGT", &m, Gaps { open: 1, extend: 1 });
    assert!(matches!(positive, Err(AlignError::GapConfig)));
    let bad_query = ScanAligner::<4, false, false>::new(b"acgt", &m, Gaps { open: -1, extend: -1 });
    assert!(matches!(bad_query, Err(AlignError::InvalidAlphabet)));
    // Any band parameter is accepted; one beyond the query is as good as the query.
    let mut wide = ScanAligner::<2000000, false, false>::new(b"ACGT", &m, Gaps { open: -1, extend: -1 }).unwrap();
    wide.align(b"AGT", 0).unwrap();
    assert_eq!(wide.score(), 2);
    let mut a = ScanAligner::<4, false, false>::new(b"ACGT", &m, Gaps { open: -1, extend: -1 }).unwrap();
    assert_eq!(a.align(b"AC-T", 0), Err(AlignError::InvalidAlphabet));
    assert!(matches!(a.trace(), Err(AlignError::TraceDisabled)));
    let t = ScanAligner::<4, true, false>::new(b"ACGT", &m, Gaps { open: -1, extend: -1 }).unwrap();
    assert!(t.trace().is_ok());
}

#[test]
fn x_drop_runs_to_the_end_without_a_drop() {
    let m = NW1();
    let mut a = ScanAligner::<8, false, true>::new(b"ACGTACGT", &m, Gaps { open: -1, extend: -1 }).unwrap();
    a.align(b"ACGTACGT", 3).unwrap();
    assert_eq!(a.score(), 8);
    assert_eq!(a.res().query_idx, 8);
    assert_eq!(a.res().reference_idx, 8);
}

#[test]
fn trace_store_records_words() {
    let mut t = Trace::new(40, 24);
    // 64 cells: 4 words, and one bitmap word for the 4 vector steps.
    assert_eq!(t.word(3), 0);
    t.add(7);
    t.dir(1);
    t.add(5);
    assert_eq!(t.word(0), 7);
    assert_eq!(t.word(1), 5);
    assert_eq!(t.word(2), 0);
    assert_eq!(t.shift_word(0), 1);
}


#[test]
fn doubling_the_band_keeps_the_score() {
    let g = Gaps { open: -11, extend: -1 };
    let q = b"MKTAYIAKQRQISFVKSHFSRQLEERLGLIEVQAPILSRVGDGTQDNLSGAEKAVQVKVKALPDAQFEV";
    let r = b"MKTAYIAKQRQISFVKSHFSRQLEERLGLIEVQAPILSRVGDGTQDNLSGAEKAVQVKVKALPDAQFEVVHSLAKWKRQ";
    let narrow = global::<16>(q, r, false, g);
    let wide = global::<32>(q, r, false, g);
    assert_eq!(narrow, wide);
    // 69 identical pairs, then one gap of 10 reference symbols.
    let mut expect = 0i32;
    for &c in q.iter() {
        expect += BLOSUM62().score(c, c) as i32;
    }
    assert_eq!(wide, expect - 11 - 9);
}

#[test]
fn long_query_short_reference_pushes_band_to_the_end() {
    // The band of 16 rows stops at row 15; the rest of the query is reached by
    // pushing the band down the last column: one match and one gap of 39.
    let q = vec![b'A'; 40];
    assert_eq!(global::<3>(&q, b"A", true, Gaps { open: -1, extend: -1 }), -38);
}

#[test]
fn x_drop_without_a_stop_covers_the_last_query_row() {
    let m = NW1();
    let q = vec![b'A'; 16];
    let mut a = ScanAligner::<15, false, true>::new(&q, &m, Gaps { open: -1, extend: -1 }).unwrap();
    a.align(b"A", 1000).unwrap();
    assert!(!a.stopped_early());
    assert!(a.covered_row() >= 16);
    assert_eq!(a.score(), 1);
}

#[test]
fn x_drop_stops_while_pushing_down_the_last_column() {
    let m = NW1();
    let q = vec![b'A'; 40];
    let mut a = ScanAligner::<3, false, true>::new(&q, &m, Gaps { open: -1, extend: -1 }).unwrap();
    a.align(b"A", 5).unwrap();
    assert!(a.stopped_early());
    assert!(a.covered_row() < 40);
    assert_eq!(a.score(), 1);
    assert_eq!(a.res().query_idx, 1);
}

#[test]
fn empty_reference_with_a_narrow_band() {
    let q = vec![b'G'; 40];
    assert_eq!(global::<3>(&q, b"", true, Gaps { open: -3, extend: -1 }), -42);
}
