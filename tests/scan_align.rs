use block_aligner::scan::{EndIndex, ScanAligner};
use block_aligner::scores::{Gaps, BLOSUM62, NW1};

fn blosum_gaps() -> Gaps {
    Gaps { open: -11, extend: -1 }
}

fn nw_gaps() -> Gaps {
    Gaps { open: -1, extend: -1 }
}

#[test]
fn test_scan_align() {
    let blosum62 = BLOSUM62();
    let nw1 = NW1();

    let r = b"AAAA";
    let q = b"AARA";
    let mut a = ScanAligner::<2, false, false>::new(q, &blosum62, blosum_gaps()).unwrap();
    a.align(r, 0).unwrap();
    assert_eq!(a.score(), 11);

    let r = b"AAAA";
    let q = b"AARA";
    let mut a = ScanAligner::<6, false, false>::new(q, &blosum62, blosum_gaps()).unwrap();
    a.align(r, 0).unwrap();
    assert_eq!(a.score(), 11);

    let r = b"AAAA";
    let q = b"AAAA";
    let mut a = ScanAligner::<2, false, false>::new(q, &blosum62, blosum_gaps()).unwrap();
    a.align(r, 0).unwrap();
    assert_eq!(a.score(), 16);

    let r = b"AAAA";
    let q = b"AARA";
    let mut a = ScanAligner::<1, false, false>::new(q, &blosum62, blosum_gaps()).unwrap();
    a.align(r, 0).unwrap();
    assert_eq!(a.score(), 11);

    let r = b"AAAA";
    let q = b"RRRR";
    let mut a = ScanAligner::<8, false, false>::new(q, &blosum62, blosum_gaps()).unwrap();
    a.align(r, 0).unwrap();
    assert_eq!(a.score(), -4);

    let r = b"AAAA";
    let q = b"AAA";
    let mut a = ScanAligner::<2, false, false>::new(q, &blosum62, blosum_gaps()).unwrap();
    a.align(r, 0).unwrap();
    assert_eq!(a.score(), 1);

    let r = b"AAAN";
    let q = b"ATAA";
    let mut a = ScanAligner::<4, false, false>::new(q, &nw1, nw_gaps()).unwrap();
    a.align(r, 0).unwrap();
    assert_eq!(a.score(), 1);

    let r = b"AAAA";
    let q = b"C";
    let mut a = ScanAligner::<8, false, false>::new(q, &nw1, nw_gaps()).unwrap();
    a.align(r, 0).unwrap();
    assert_eq!(a.score(), -4);
    // Global scores are symmetric under a symmetric matrix: one mismatch and
    // three gap symbols either way round.
    let mut a = ScanAligner::<8, false, false>::new(r, &nw1, nw_gaps()).unwrap();
    a.align(q, 0).unwrap();
    assert_eq!(a.score(), -4);
}

#[test]
fn test_x_drop() {
    let blosum62 = BLOSUM62();

    let r = b"AAARRA";
    let q = b"AAAAAA";
    let mut a = ScanAligner::<3, false, true>::new(q, &blosum62, blosum_gaps()).unwrap();
    a.align(r, 1).unwrap();
    assert_eq!(a.score(), 12);
    assert_eq!(a.end_idx(), EndIndex { query_idx: 3, ref_idx: 3 });

    let r = b"AAARRA";
    let q = b"AAAAAA";
    let mut a = ScanAligner::<20, false, true>::new(q, &blosum62, blosum_gaps()).unwrap();
    a.align(r, 1).unwrap();
    assert_eq!(a.score(), 12);
    assert_eq!(a.end_idx(), EndIndex { query_idx: 3, ref_idx: 3 });
}
