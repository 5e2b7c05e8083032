use block_aligner::scan::ScanAligner;
use block_aligner::scores::{AlignError, Gaps, Matrix, BLOSUM62, NW1};
use block_aligner::traceback::run_lengths;

/// Score of an alignment given as operations, replayed from the origin.
fn replay(q: &[u8], r: &[u8], m: &Matrix, g: Gaps, ops: &[u8]) -> i32 {
    let (mut i, mut j) = (0usize, 0usize);
    let mut prev = b'M';
    let mut s = 0i32;
    for &o in ops {
        match o {
            b'M' => {
                s += m.score(q[i], r[j]) as i32;
                i += 1;
                j += 1;
            }
            b'I' => {
                s += if prev == b'I' { g.extend } else { g.open } as i32;
                i += 1;
            }
            _ => {
                s += if prev == b'D' { g.extend } else { g.open } as i32;
                j += 1;
            }
        }
        prev = o;
    }
    assert_eq!((i, j), (q.len(), r.len()));
    s
}

#[test]
fn cigar_replays_to_score() {
    let m = BLOSUM62();
    let g = Gaps { open: -11, extend: -1 };
    let q = b"AAA";
    let r = b"AAAA";
    let mut a = ScanAligner::<2, true, false>::new(q, &m, g).unwrap();
    a.align(r, 0).unwrap();
    assert_eq!(a.score(), 1);
    let ops = a.cigar(r).unwrap();
    assert_eq!(ops.len(), 4);
    assert_eq!(replay(q, r, &m, g, &ops), 1);
    let runs = run_lengths(&ops);
    let total: usize = runs.iter().map(|x| x.0).sum();
    assert_eq!(total, 4);
}

#[test]
fn cigar_with_gaps_in_both_sequences() {
    let m = NW1();
    let g = Gaps { open: -1, extend: -1 };
    let q = b"ATAA";
    let r = b"AAAN";
    let mut a = ScanAligner::<4, true, false>::new(q, &m, g).unwrap();
    a.align(r, 0).unwrap();
    assert_eq!(a.score(), 1);
    let ops = a.cigar(r).unwrap();
    assert_eq!(replay(q, r, &m, g, &ops), 1);
}

#[test]
fn cigar_long_protein_pair() {
    let m = BLOSUM62();
    let g = Gaps { open: -11, extend: -1 };
    let q = b"MKTAYIAKQRQISFVKSHFSRQLEERLGLIEVQAPILSRVGDGTQDNLSGAEKAVQVKVKALPDAQFEVVHSLAKWKRQTLGQHDFSAGEGLYTHMKALRPDEDRLSPLHSVYVDQWDWERVMGDGERQFSTLKSTVEAIWAGIKATEAAVSEEFGLAPFLPDQIHFVHSQELLSRYPDLDAKGRERAIAKDLGAVFLVGIGGKLSDGHRHDVRAPDYDDWUAEA";
    let r = b"MKTAYIAKQRQISFVKSHFSRQLEERLGLIEVQAPILSRVGDGTQDNLSGAEKAVQVKVKALPDAQFEVVHSLAKWKRQTLGQHDFSAGEGLYTHMKALRPDEDRLSPLHSVYVDQWDWERVMGDGERQFSTLKSTVEAIWAGIKATEAAVSEEFGLAPFLPDQIHFVHSQELLSRYPDLDAKGRERAIAKDLGAVFLVGIGGKLSDGHRHDVRAPDYDDWSTPSELGHAGLNGDILVWNPVLEDAFELSSMGIRVDADTLKHALALTGDEDRLELEWHQALLRGEMPQTIGGGIGQSRLTMLLLQLPH";
    let mut a = ScanAligner::<32, true, false>::new(q, &m, g).unwrap();
    a.align(r, 0).unwrap();
    let ops = a.cigar(r).unwrap();
    assert_eq!(replay(q, r, &m, g, &ops), a.score());
}

#[test]
fn cigar_after_x_drop_ends_at_best_cell() {
    let m = BLOSUM62();
    let g = Gaps { open: -11, extend: -1 };
    let q = b"AAAAAA";
    let r = b"AAARRA";
    let mut a = ScanAligner::<3, true, true>::new(q, &m, g).unwrap();
    a.align(r, 1).unwrap();
    assert_eq!(a.score(), 12);
    let ops = a.cigar(r).unwrap();
    assert_eq!(ops, b"MMM".to_vec());
}

#[test]
fn cigar_needs_trace() {
    let m = NW1();
    let g = Gaps { open: -1, extend: -1 };
    let mut a = ScanAligner::<4, false, false>::new(b"ACGT", &m, g).unwrap();
    a.align(b"ACGT", 0).unwrap();
    assert_eq!(a.cigar(b"ACGT"), Err(AlignError::TraceDisabled));
    let t = ScanAligner::<4, true, false>::new(b"ACGT", &m, g).unwrap();
    assert_eq!(t.cigar(b"ACGT"), Err(AlignError::TraceDisabled));
}

#[test]
fn run_lengths_coalesce() {
    let ops = b"MMMIIDMM".to_vec();
    assert_eq!(run_lengths(&ops), vec![(3, b'M'), (2, b'I'), (1, b'D'), (2, b'M')]);
    assert_eq!(run_lengths(&Vec::new()), Vec::<(usize, u8)>::new());
}

#[test]
fn trace_store_holds_direction_codes() {
    let m = BLOSUM62();
    let g = Gaps { open: -11, extend: -1 };
    let mut a = ScanAligner::<2, true, false>::new(b"AAA", &m, g).unwrap();
    a.align(b"AAAA", 0).unwrap();
    let t = a.trace().unwrap();
    // Column 0: the origin is diagonal (0), the rows below are reached from above (2).
    assert_eq!(t.word(0) & 3, 0);
    assert_eq!((t.word(0) >> 2) & 3, 2);
    // Column 1 starts 16 cells later: its top row is reached from the left (1),
    // and cell (1, 1) is a diagonal match (0).
    assert_eq!(t.word(1) & 3, 1);
    assert_eq!((t.word(1) >> 2) & 3, 0);
    // The band never moved down.
    assert_eq!(t.shift_word(0), 0);
}

#[test]
fn cigar_reaches_rows_pushed_below_the_band() {
    let m = NW1();
    let g = Gaps { open: -1, extend: -1 };
    let q = vec![b'A'; 40];
    let r = b"A";
    let mut a = ScanAligner::<3, true, false>::new(&q, &m, g).unwrap();
    a.align(r, 0).unwrap();
    assert_eq!(a.score(), -38);
    let ops = a.cigar(r).unwrap();
    assert_eq!(ops.len(), 40);
    assert_eq!(replay(&q, r, &m, g, &ops), -38);
}

#[test]
fn cigar_below_the_band_with_affine_gaps() {
    let m = NW1();
    let g = Gaps { open: -3, extend: -1 };
    let mut q = b"ACGTTGCA".to_vec();
    q.extend(vec![b'C'; 30]);
    let r = b"ACGTTGCAC";
    let mut a = ScanAligner::<8, true, false>::new(&q, &m, g).unwrap();
    a.align(r, 0).unwrap();
    let ops = a.cigar(r).unwrap();
    assert_eq!(replay(&q, r, &m, g, &ops), a.score());
}
