//! Traceback: from the banded columns an aligner kept, walk back from an end
//! cell to the origin and emit the alignment as `M` / `I` / `D` operations,
//! and run-length encode them into a CIGAR.
//!
//! `M` consumes one query and one reference symbol, `I` one query symbol (a
//! gap in the reference, the `R` plane), `D` one reference symbol (a gap in
//! the query, the `C` plane).
use vstd::prelude::*;
use crate::dp::{
    band_cell, global_score, in_band, lemma_band_bounds, lemma_band_never_exceeds, lemma_band_prefix, Band,
    Cell, MAX_TOTAL_LEN, NEG_INF,
};
use crate::scores::{valid_seq, valid_symbol, Gaps, Matrix};

verus! {

pub const OP_M: u8 = 77;

pub const OP_I: u8 = 73;

pub const OP_D: u8 = 68;

/// Score of the operations `ops` replayed from cell `(i, j)`, the operation
/// before them being `prev`: a gap symbol costs `extend` when it continues a
/// gap of the same kind and `open` otherwise.
pub open spec fn ops_cost(
    q: Seq<u8>,
    r: Seq<u8>,
    m: Matrix,
    g: Gaps,
    ops: Seq<u8>,
    i: int,
    j: int,
    prev: u8,
) -> int
    decreases ops.len(),
{
    if ops.len() == 0 {
        0
    } else {
        let o = ops[0];
        let rest = ops.subrange(1, ops.len() as int);
        if o == OP_M {
            m.sc(q[i], r[j]) + ops_cost(q, r, m, g, rest, i + 1, j + 1, OP_M)
        } else if o == OP_I {
            (if prev == OP_I {
                g.extend as int
            } else {
                g.open as int
            }) + ops_cost(q, r, m, g, rest, i + 1, j, OP_I)
        } else {
            (if prev == OP_D {
                g.extend as int
            } else {
                g.open as int
            }) + ops_cost(q, r, m, g, rest, i, j + 1, OP_D)
        }
    }
}

/// The cell reached by replaying `ops` from `(i, j)`.
pub open spec fn ops_end(ops: Seq<u8>, i: int, j: int) -> (int, int)
    decreases ops.len(),
{
    if ops.len() == 0 {
        (i, j)
    } else {
        let o = ops[0];
        let rest = ops.subrange(1, ops.len() as int);
        if o == OP_M {
            ops_end(rest, i + 1, j + 1)
        } else if o == OP_I {
            ops_end(rest, i + 1, j)
        } else {
            ops_end(rest, i, j + 1)
        }
    }
}

/// Every operation is `M`, `I` or `D`.
pub open spec fn ops_valid(ops: Seq<u8>) -> bool {
    forall|k: int| 0 <= k < ops.len() ==> #[trigger] ops[k] == OP_M || ops[k] == OP_I || ops[k] == OP_D
}

/// `s` read back to front.
pub open spec fn rev(s: Seq<u8>) -> Seq<u8> {
    Seq::new(s.len(), |k: int| s[s.len() - 1 - k])
}

/// The kept columns `0..=upto` of a band of height `h`: column `jj` stood at
/// `tops[jj]`, and its lane `k` is stored at `jj * h + k` of `d`, `r`, `c`.
pub open spec fn kept_ok(
    q: Seq<u8>,
    rf: Seq<u8>,
    m: Matrix,
    g: Gaps,
    band: Band,
    h: int,
    d: Seq<i32>,
    r: Seq<i32>,
    c: Seq<i32>,
    tops: Seq<usize>,
    upto: int,
) -> bool {
    &&& band.h == h
    &&& tops.len() == upto + 1
    &&& band.tops.len() >= upto + 1
    &&& d.len() == (upto + 1) * h
    &&& r.len() == (upto + 1) * h
    &&& c.len() == (upto + 1) * h
    &&& forall|jj: int| 0 <= jj <= upto ==> #[trigger] tops[jj] as int == band.tops[jj]
    &&& forall|jj: int, k: int|
        0 <= jj <= upto && 0 <= k < h ==> {
            let x = #[trigger] band_cell(q, rf, m, g, band, band.tops[jj] + k, jj);
            &&& d[jj * h + k] as int == x.d
            &&& r[jj * h + k] as int == x.r
            &&& c[jj * h + k] as int == x.c
        }
}

pub proof fn lemma_index(jj: int, k: int, h: int, n: int)
    requires
        0 <= jj < n,
        0 <= k < h,
    ensures
        0 <= jj * h + k < n * h,
        jj * h + k >= jj * h,
{
    assert(0 <= jj * h + k < n * h) by (nonlinear_arith)
        requires
            0 <= jj < n,
            0 <= k < h,
    ;
}

/// The banded columns an aligner keeps for traceback.
pub struct Kept {
    pub d: Vec<i32>,
    pub r: Vec<i32>,
    pub c: Vec<i32>,
    pub tops: Vec<usize>,
}

/// Append `src` to `dst`.
pub fn append(dst: &mut Vec<i32>, src: &Vec<i32>)
    ensures
        final(dst)@ == old(dst)@ + src@,
{
    let mut k: usize = 0;
    while k < src.len()
        invariant
            k <= src@.len(),
            dst@ == old(dst)@ + src@.subrange(0, k as int),
        decreases src@.len() - k,
    {
        dst.push(src[k]);
        k = k + 1;
        assert(dst@ =~= old(dst)@ + src@.subrange(0, k as int));
    }
    assert(src@.subrange(0, src@.len() as int) =~= src@);
}

/// Kept columns stay valid when the band grows past them.
pub proof fn lemma_kept_extend(
    q: Seq<u8>,
    rf: Seq<u8>,
    m: Matrix,
    g: Gaps,
    b1: Band,
    b2: Band,
    h: int,
    d: Seq<i32>,
    r: Seq<i32>,
    c: Seq<i32>,
    tops: Seq<usize>,
    upto: int,
)
    requires
        kept_ok(q, rf, m, g, b1, h, d, r, c, tops, upto),
        b1.h == b2.h,
        b2.tops.len() >= upto + 1,
        forall|jj: int| 0 <= jj <= upto ==> b1.tops[jj] == #[trigger] b2.tops[jj],
    ensures
        kept_ok(q, rf, m, g, b2, h, d, r, c, tops, upto),
{
    assert forall|jj: int, k: int| 0 <= jj <= upto && 0 <= k < h implies {
        let x = #[trigger] band_cell(q, rf, m, g, b2, b2.tops[jj] + k, jj);
        &&& d[jj * h + k] as int == x.d
        &&& r[jj * h + k] as int == x.r
        &&& c[jj * h + k] as int == x.c
    } by {
        assert(b1.tops[jj] == b2.tops[jj]);
        lemma_band_prefix(q, rf, m, g, b1, b2, b1.tops[jj] + k, jj);
        assert(band_cell(q, rf, m, g, b1, b1.tops[jj] + k, jj) == band_cell(q, rf, m, g, b2, b2.tops[jj] + k, jj));
    }
    assert forall|jj: int| 0 <= jj <= upto implies #[trigger] tops[jj] as int == b2.tops[jj] by {
        assert(tops[jj] as int == b1.tops[jj]);
    }
}

/// Appending column `upto + 1` keeps the store valid.
pub proof fn lemma_kept_push(
    q: Seq<u8>,
    rf: Seq<u8>,
    m: Matrix,
    g: Gaps,
    band: Band,
    h: int,
    d: Seq<i32>,
    r: Seq<i32>,
    c: Seq<i32>,
    tops: Seq<usize>,
    upto: int,
    cd: Seq<i32>,
    cr: Seq<i32>,
    cc: Seq<i32>,
    t: usize,
)
    requires
        upto >= -1,
        h >= 1,
        upto >= 0 ==> kept_ok(q, rf, m, g, band, h, d, r, c, tops, upto),
        upto == -1 ==> d.len() == 0 && r.len() == 0 && c.len() == 0 && tops.len() == 0 && band.h == h,
        band.tops.len() >= upto + 2,
        band.tops[upto + 1] == t as int,
        cd.len() == h,
        cr.len() == h,
        cc.len() == h,
        forall|k: int|
            0 <= k < h ==> {
                let x = #[trigger] band_cell(q, rf, m, g, band, t + k, upto + 1);
                &&& cd[k] as int == x.d
                &&& cr[k] as int == x.r
                &&& cc[k] as int == x.c
            },
    ensures
        kept_ok(q, rf, m, g, band, h, d + cd, r + cr, c + cc, tops.push(t), upto + 1),
{
    let n = upto + 1;
    assert((n + 1) * h == n * h + h) by (nonlinear_arith);
    assert(0 * h == 0);
    assert(d.len() == n * h && r.len() == n * h && c.len() == n * h);
    assert(tops.len() == n);
    assert forall|jj: int, k: int| 0 <= jj <= n && 0 <= k < h implies {
        let x = #[trigger] band_cell(q, rf, m, g, band, band.tops[jj] + k, jj);
        &&& (d + cd)[jj * h + k] as int == x.d
        &&& (r + cr)[jj * h + k] as int == x.r
        &&& (c + cc)[jj * h + k] as int == x.c
    } by {
        let x = band_cell(q, rf, m, g, band, band.tops[jj] + k, jj);
        if jj < n {
            lemma_index(jj, k, h, n);
            assert(d.len() == n * h);
            assert((d + cd)[jj * h + k] == d[jj * h + k]);
            assert((r + cr)[jj * h + k] == r[jj * h + k]);
            assert((c + cc)[jj * h + k] == c[jj * h + k]);
            assert(d[jj * h + k] as int == x.d);
        } else {
            assert(jj * h == n * h);
            assert(d.len() == n * h);
            assert((d + cd)[jj * h + k] == cd[k]);
            assert((r + cr)[jj * h + k] == cr[k]);
            assert((c + cc)[jj * h + k] == cc[k]);
            assert(band_cell(q, rf, m, g, band, t + k, upto + 1) == x);
        }
    }
    assert forall|jj: int| 0 <= jj <= n implies #[trigger] tops.push(t)[jj] as int == band.tops[jj] by {
        if jj < n {
            assert(tops.push(t)[jj] == tops[jj]);
        }
    }
}

/// Plane `st` of a cell: 0 is `D`, 1 is `R`, 2 is `C`.
pub open spec fn plane(x: Cell, st: int) -> int {
    if st == 0 {
        x.d
    } else if st == 1 {
        x.r
    } else {
        x.c
    }
}

/// The operation that ends an alignment in plane `st`, as far as the cost of
/// the next gap symbol is concerned.
pub open spec fn prev_op(st: int) -> u8 {
    if st == 0 {
        OP_M
    } else if st == 1 {
        OP_I
    } else {
        OP_D
    }
}

proof fn lemma_cons(o: u8, s: Seq<u8>)
    ensures
        (seq![o] + s).len() == s.len() + 1,
        (seq![o] + s)[0] == o,
        (seq![o] + s).subrange(1, s.len() + 1 as int) == s,
{
    assert((seq![o] + s).subrange(1, s.len() + 1 as int) =~= s);
}

proof fn lemma_rev_push(acc: Seq<u8>, o: u8)
    ensures
        rev(acc.push(o)) == seq![o] + rev(acc),
{
    assert(rev(acc.push(o)) =~= seq![o] + rev(acc));
}

/// A finite value lies in the band, and is small.
proof fn lemma_finite(q: Seq<u8>, rf: Seq<u8>, m: Matrix, g: Gaps, band: Band, i: int, j: int, st: int)
    requires
        g.wf(),
        q.len() + rf.len() <= MAX_TOTAL_LEN,
        plane(band_cell(q, rf, m, g, band, i, j), st) != NEG_INF,
    ensures
        in_band(q, rf, band, i, j),
        -1073741824 <= plane(band_cell(q, rf, m, g, band, i, j), st) <= 1073741824,
{
    lemma_band_bounds(q, rf, m, g, band, i, j);
}

/// Value of cell `(i, j)` in a kept plane.
pub fn kept_value(v: &Vec<i32>, tops: &Vec<usize>, h: usize, i: usize, j: usize, Ghost(upto): Ghost<int>) -> (x: i32)
    requires
        0 <= j <= upto,
        tops@.len() == upto + 1,
        v@.len() == (upto + 1) * h,
        tops@[j as int] <= i < tops@[j as int] + h,
    ensures
        x == v@[j * h + (i - tops@[j as int])],
{
    let k = i - tops[j];
    proof {
        lemma_index(j as int, k as int, h as int, upto + 1);
    }
    let n = v.len();
    assert(j * h + k < n);
    v[j * h + k]
}

/// Cell `(i, j)` lies in a kept column.
fn kept_has(tops: &Vec<usize>, h: usize, i: usize, j: usize) -> (b: bool)
    requires
        j < tops@.len(),
    ensures
        b == (tops@[j as int] <= i < tops@[j as int] + h),
{
    tops[j] <= i && i - tops[j] < h
}

/// The invariant of the walk back: standing in plane `st` of cell `(i, j)`
/// with the operations `s` still to replay, the value there plus the cost of
/// `s` is `target`, and `s` ends at `(i0, j0)`. In plane `D`, `s` does not
/// start with a gap that the cell's own gap plane could have extended.
pub open spec fn walk_ok(
    q: Seq<u8>,
    rf: Seq<u8>,
    m: Matrix,
    g: Gaps,
    band: Band,
    i: int,
    j: int,
    st: int,
    s: Seq<u8>,
    target: int,
    i0: int,
    j0: int,
) -> bool {
    let x = band_cell(q, rf, m, g, band, i, j);
    &&& 0 <= st < 3
    &&& plane(x, st) != NEG_INF
    &&& plane(x, st) + ops_cost(q, rf, m, g, s, i, j, prev_op(st)) == target
    &&& ops_end(s, i, j) == (i0, j0)
    &&& ops_valid(s)
    &&& (st == 0 && s.len() > 0 && s[0] == OP_I ==> x.d != x.r)
    &&& (st == 0 && s.len() > 0 && s[0] == OP_D ==> x.d != x.c)
}

/// Walk back from plane `st0` of cell `(i0, j0)` of the kept band to the
/// origin, after the `tail` query symbols below that cell that a gap down
/// column `j0` covers, and return the operations in order. The walk keeps
/// `walk_ok`, so the operations replay to `target`.
#[verifier::spinoff_prover]
#[verifier::rlimit(100)]
pub fn walk_back(
    q: &[u8],
    rf: &[u8],
    m: &Matrix,
    g: Gaps,
    h: usize,
    kept: &Kept,
    i0: usize,
    j0: usize,
    st0: u8,
    tail: usize,
    Ghost(band): Ghost<Band>,
    Ghost(upto): Ghost<int>,
    Ghost(target): Ghost<int>,
) -> (ops: Vec<u8>)
    requires
        m.wf(),
        g.wf(),
        valid_seq(q@),
        valid_seq(rf@),
        q@.len() + rf@.len() <= MAX_TOTAL_LEN,
        h >= 1,
        0 <= upto <= rf@.len(),
        kept_ok(q@, rf@, *m, g, band, h as int, kept.d@, kept.r@, kept.c@, kept.tops@, upto),
        j0 <= upto,
        i0 + tail <= q@.len(),
        st0 < 3,
        walk_ok(
            q@,
            rf@,
            *m,
            g,
            band,
            i0 as int,
            j0 as int,
            st0 as int,
            repeat(tail as nat, OP_I),
            target,
            i0 + tail,
            j0 as int,
        ),
    ensures
        ops_valid(ops@),
        ops_cost(q@, rf@, *m, g, ops@, 0, 0, OP_M) == target,
        ops_end(ops@, 0, 0) == (i0 + tail, j0 as int),
{
    let ghost qs = q@;
    let ghost rs = rf@;
    let mut acc: Vec<u8> = Vec::new();
    let mut k: usize = 0;
    while k < tail
        invariant
            k <= tail,
            acc@ == repeat(k as nat, OP_I),
        decreases tail - k,
    {
        acc.push(OP_I);
        k = k + 1;
        assert(acc@ =~= repeat(k as nat, OP_I));
    }
    let mut i: usize = i0;
    let mut j: usize = j0;
    let mut st: u8 = st0;
    proof {
        assert(rev(acc@) =~= repeat(tail as nat, OP_I));
    }
    while i > 0 || j > 0 || st != 0
        invariant
            qs == q@,
            rs == rf@,
            m.wf(),
            g.wf(),
            valid_seq(qs),
            valid_seq(rs),
            qs.len() + rs.len() <= MAX_TOTAL_LEN,
            h >= 1,
            0 <= upto <= rs.len(),
            kept_ok(qs, rs, *m, g, band, h as int, kept.d@, kept.r@, kept.c@, kept.tops@, upto),
            j0 <= upto,
            i0 + tail <= qs.len(),
            i <= i0,
            j <= j0,
            walk_ok(qs, rs, *m, g, band, i as int, j as int, st as int, rev(acc@), target, i0 + tail, j0 as int),
        decreases 2 * (i + j) + (if st == 0 { 1int } else { 0int }),
    {
        let ghost s = rev(acc@);
        let ghost ii = i as int;
        let ghost jj = j as int;
        let ghost x = band_cell(qs, rs, *m, g, band, ii, jj);
        proof {
            lemma_finite(qs, rs, *m, g, band, ii, jj, st as int);
            assert(kept.tops@[jj] as int == band.tops[jj]);
        }
        if st == 0 {
            let dv = kept_value(&kept.d, &kept.tops, h, i, j, Ghost(upto));
            let rv = kept_value(&kept.r, &kept.tops, h, i, j, Ghost(upto));
            proof {
                assert(band_cell(qs, rs, *m, g, band, band.tops[jj] + (ii - band.tops[jj]), jj) == x);
                assert(dv as int == x.d && rv as int == x.r);
            }
            let mut took_diag = false;
            if i > 0 && j > 0 && kept_has(&kept.tops, h, i - 1, j - 1) {
                let pv = kept_value(&kept.d, &kept.tops, h, i - 1, j - 1, Ghost(upto));
                let ghost y = band_cell(qs, rs, *m, g, band, ii - 1, jj - 1);
                proof {
                    assert(kept.tops@[jj - 1] as int == band.tops[jj - 1]);
                    assert(band_cell(qs, rs, *m, g, band, band.tops[jj - 1] + (ii - 1 - band.tops[jj - 1]), jj - 1) == y);
                    lemma_band_bounds(qs, rs, *m, g, band, ii - 1, jj - 1);
                    assert(valid_symbol(qs[ii - 1]) && valid_symbol(rs[jj - 1]));
                }
                let sc = m.score(q[i - 1], rf[j - 1]);
                if pv != NEG_INF && pv + (sc as i32) == dv {
                    proof {
                        lemma_rev_push(acc@, OP_M);
                        lemma_cons(OP_M, s);
                        assert(ops_valid(seq![OP_M] + s));
                    }
                    acc.push(OP_M);
                    i = i - 1;
                    j = j - 1;
                    took_diag = true;
                }
            }
            if !took_diag {
                if dv == rv {
                    st = 1;
                } else {
                    proof {
                        if ii > 0 && jj > 0 {
                            let y = band_cell(qs, rs, *m, g, band, ii - 1, jj - 1);
                            if y.d != NEG_INF {
                                lemma_finite(qs, rs, *m, g, band, ii - 1, jj - 1, 0);
                                assert(band_cell(qs, rs, *m, g, band, band.tops[jj - 1] + (ii - 1 - band.tops[jj - 1]), jj - 1) == y);
                            }
                        }
                        assert(x.d == x.c);
                    }
                    st = 2;
                }
            }
        } else if st == 1 {
            let rv = kept_value(&kept.r, &kept.tops, h, i, j, Ghost(upto));
            proof {
                assert(band_cell(qs, rs, *m, g, band, band.tops[jj] + (ii - band.tops[jj]), jj) == x);
                assert(ii > 0);
            }
            let ghost y = band_cell(qs, rs, *m, g, band, ii - 1, jj);
            let (ud, ur) = if kept_has(&kept.tops, h, i - 1, j) {
                proof {
                    assert(band_cell(qs, rs, *m, g, band, band.tops[jj] + (ii - 1 - band.tops[jj]), jj) == y);
                    lemma_band_bounds(qs, rs, *m, g, band, ii - 1, jj);
                }
                (
                    kept_value(&kept.d, &kept.tops, h, i - 1, j, Ghost(upto)),
                    kept_value(&kept.r, &kept.tops, h, i - 1, j, Ghost(upto)),
                )
            } else {
                (NEG_INF, NEG_INF)
            };
            proof {
                assert(ud as int == y.d && ur as int == y.r);
                lemma_rev_push(acc@, OP_I);
                lemma_cons(OP_I, s);
                assert(ops_valid(seq![OP_I] + s));
            }
            acc.push(OP_I);
            if ur != NEG_INF && ur + (g.extend as i32) == rv {
                i = i - 1;
            } else {
                i = i - 1;
                st = 0;
            }
        } else {
            let cv = kept_value(&kept.c, &kept.tops, h, i, j, Ghost(upto));
            proof {
                assert(band_cell(qs, rs, *m, g, band, band.tops[jj] + (ii - band.tops[jj]), jj) == x);
                assert(jj > 0);
            }
            let ghost y = band_cell(qs, rs, *m, g, band, ii, jj - 1);
            let (ld, lc) = if kept_has(&kept.tops, h, i, j - 1) {
                proof {
                    assert(kept.tops@[jj - 1] as int == band.tops[jj - 1]);
                    assert(band_cell(qs, rs, *m, g, band, band.tops[jj - 1] + (ii - band.tops[jj - 1]), jj - 1) == y);
                    lemma_band_bounds(qs, rs, *m, g, band, ii, jj - 1);
                }
                (
                    kept_value(&kept.d, &kept.tops, h, i, j - 1, Ghost(upto)),
                    kept_value(&kept.c, &kept.tops, h, i, j - 1, Ghost(upto)),
                )
            } else {
                (NEG_INF, NEG_INF)
            };
            proof {
                assert(ld as int == y.d && lc as int == y.c);
                lemma_rev_push(acc@, OP_D);
                lemma_cons(OP_D, s);
                assert(ops_valid(seq![OP_D] + s));
            }
            acc.push(OP_D);
            if lc != NEG_INF && lc + (g.extend as i32) == cv {
                j = j - 1;
            } else {
                j = j - 1;
                st = 0;
            }
        }
    }
    let ghost fin = acc@;
    let mut ops: Vec<u8> = Vec::new();
    let mut k: usize = acc.len();
    while k > 0
        invariant
            k <= acc@.len(),
            ops@ == rev(acc@).subrange(0, acc@.len() - k),
        decreases k,
    {
        k = k - 1;
        ops.push(acc[k]);
        assert(ops@ =~= rev(acc@).subrange(0, acc@.len() - k));
    }
    proof {
        assert(rev(acc@).subrange(0, acc@.len() as int) =~= rev(acc@));
        assert(band_cell(qs, rs, *m, g, band, 0, 0).d == 0);
    }
    ops
}

/// `n` copies of operation `o`.
pub open spec fn repeat(n: nat, o: u8) -> Seq<u8> {
    Seq::new(n, |k: int| o)
}

/// The operations that run-length pairs `(length, op)` stand for.
pub open spec fn expand(runs: Seq<(usize, u8)>) -> Seq<u8>
    decreases runs.len(),
{
    if runs.len() == 0 {
        Seq::empty()
    } else {
        expand(runs.drop_last()) + repeat(runs.last().0 as nat, runs.last().1)
    }
}

/// Every run is non-empty and differs in its operation from the run before.
pub open spec fn runs_coalesced(runs: Seq<(usize, u8)>) -> bool {
    &&& forall|k: int| 0 <= k < runs.len() ==> #[trigger] runs[k].0 >= 1
    &&& forall|k: int| 0 < k < runs.len() ==> #[trigger] runs[k].1 != runs[k - 1].1
}

/// Run-length encode operations into CIGAR pairs `(length, op)`.
pub fn run_lengths(ops: &Vec<u8>) -> (runs: Vec<(usize, u8)>)
    ensures
        expand(runs@) == ops@,
        runs_coalesced(runs@),
{
    let mut runs: Vec<(usize, u8)> = Vec::new();
    let mut k: usize = 0;
    while k < ops.len()
        invariant
            k <= ops@.len(),
            expand(runs@) == ops@.subrange(0, k as int),
            runs_coalesced(runs@),
            runs@.len() <= k,
            forall|p: int| 0 <= p < runs@.len() ==> #[trigger] runs@[p].0 <= k,
        decreases ops@.len() - k,
    {
        let o = ops[k];
        let n = runs.len();
        if n > 0 && runs[n - 1].1 == o {
            let c = runs[n - 1].0;
            let ghost old_runs = runs@;
            runs.set(n - 1, (c + 1, o));
            proof {
                assert(runs@.drop_last() =~= old_runs.drop_last());
                assert(repeat((c + 1) as nat, o) =~= repeat(c as nat, o).push(o));
                assert(ops@.subrange(0, k + 1) =~= ops@.subrange(0, k as int).push(o));
                assert(expand(runs@) =~= ops@.subrange(0, k + 1));
            }
        } else {
            let ghost old_runs = runs@;
            runs.push((1, o));
            proof {
                assert(runs@.drop_last() =~= old_runs);
                assert(repeat(1, o) =~= seq![o]);
                assert(ops@.subrange(0, k + 1) =~= ops@.subrange(0, k as int).push(o));
                assert(expand(runs@) =~= ops@.subrange(0, k + 1));
            }
        }
        k = k + 1;
    }
    proof {
        assert(ops@.subrange(0, ops@.len() as int) =~= ops@);
    }
    runs
}

/// Cost of appending operation `o` after `prev`, standing at `(i, j)`.
pub open spec fn op_cost(q: Seq<u8>, r: Seq<u8>, m: Matrix, g: Gaps, o: u8, prev: u8, i: int, j: int) -> int {
    if o == OP_M {
        m.sc(q[i], r[j])
    } else if o == OP_I {
        if prev == OP_I {
            g.extend as int
        } else {
            g.open as int
        }
    } else {
        if prev == OP_D {
            g.extend as int
        } else {
            g.open as int
        }
    }
}

/// The operation that precedes position `n` of `ops` (`prev` at the start).
pub open spec fn last_op(ops: Seq<u8>, n: int, prev: u8) -> u8 {
    if n == 0 {
        prev
    } else {
        ops[n - 1]
    }
}

proof fn lemma_ops_push(
    q: Seq<u8>,
    r: Seq<u8>,
    m: Matrix,
    g: Gaps,
    s: Seq<u8>,
    o: u8,
    i: int,
    j: int,
    prev: u8,
)
    requires
        ops_valid(s),
        o == OP_M || o == OP_I || o == OP_D,
    ensures
        ops_cost(q, r, m, g, s.push(o), i, j, prev) == ops_cost(q, r, m, g, s, i, j, prev) + op_cost(
            q,
            r,
            m,
            g,
            o,
            last_op(s, s.len() as int, prev),
            ops_end(s, i, j).0,
            ops_end(s, i, j).1,
        ),
        ops_end(s.push(o), i, j) == (if o == OP_M {
            (ops_end(s, i, j).0 + 1, ops_end(s, i, j).1 + 1)
        } else if o == OP_I {
            (ops_end(s, i, j).0 + 1, ops_end(s, i, j).1)
        } else {
            (ops_end(s, i, j).0, ops_end(s, i, j).1 + 1)
        }),
    decreases s.len(),
{
    if s.len() > 0 {
        let rest = s.subrange(1, s.len() as int);
        assert(s.push(o).subrange(1, s.len() + 1 as int) =~= rest.push(o));
        let (ni, nj) = if s[0] == OP_M {
            (i + 1, j + 1)
        } else if s[0] == OP_I {
            (i + 1, j)
        } else {
            (i, j + 1)
        };
        assert(s[0] == OP_M || s[0] == OP_I || s[0] == OP_D);
        assert(ops_valid(rest));
        lemma_ops_push(q, r, m, g, rest, o, ni, nj, s[0]);
        if rest.len() > 0 {
            assert(rest[rest.len() - 1] == s[s.len() - 1]);
        }
        assert(s.push(o)[0] == s[0]);
        assert(ops_end(s, i, j) == ops_end(rest, ni, nj));
        assert(ops_end(s.push(o), i, j) == ops_end(rest.push(o), ni, nj));
        assert(ops_cost(q, r, m, g, s.push(o), i, j, prev) == op_cost(q, r, m, g, s[0], prev, i, j) + ops_cost(
            q,
            r,
            m,
            g,
            rest.push(o),
            ni,
            nj,
            s[0],
        ));
        assert(ops_cost(q, r, m, g, s, i, j, prev) == op_cost(q, r, m, g, s[0], prev, i, j) + ops_cost(
            q,
            r,
            m,
            g,
            rest,
            ni,
            nj,
            s[0],
        ));
    } else {
        let t = s.push(o);
        assert(t.len() == 1 && t[0] == o);
        assert(t.subrange(1, 1) =~= Seq::<u8>::empty());
        let (ni, nj) = if o == OP_M {
            (i + 1, j + 1)
        } else if o == OP_I {
            (i + 1, j)
        } else {
            (i, j + 1)
        };
        assert(ops_end(Seq::<u8>::empty(), ni, nj) == (ni, nj));
        assert(ops_cost(q, r, m, g, Seq::<u8>::empty(), ni, nj, o) == 0);
        assert(ops_cost(q, r, m, g, t, i, j, prev) == op_cost(q, r, m, g, o, prev, i, j));
    }
}

/// Every cell that `ops` visits from the origin, the origin included, lies in
/// the band.
pub open spec fn path_in_band(q: Seq<u8>, r: Seq<u8>, band: Band, ops: Seq<u8>) -> bool {
    forall|n: int|
        0 <= n <= ops.len() ==> #[trigger] in_band(
            q,
            r,
            band,
            ops_end(ops.subrange(0, n), 0, 0).0,
            ops_end(ops.subrange(0, n), 0, 0).1,
        )
}

proof fn lemma_prefix_lower(
    q: Seq<u8>,
    r: Seq<u8>,
    m: Matrix,
    g: Gaps,
    band: Band,
    ops: Seq<u8>,
    n: int,
)
    requires
        g.wf(),
        q.len() + r.len() <= MAX_TOTAL_LEN,
        ops_valid(ops),
        path_in_band(q, r, band, ops),
        0 <= n <= ops.len(),
    ensures
        ({
            let p = ops.subrange(0, n);
            let e = ops_end(p, 0, 0);
            let x = band_cell(q, r, m, g, band, e.0, e.1);
            let lo = last_op(ops, n, OP_M);
            let st = if lo == OP_M {
                0int
            } else if lo == OP_I {
                1int
            } else {
                2int
            };
            &&& ops_cost(q, r, m, g, p, 0, 0, OP_M) <= plane(x, st)
            &&& ops_cost(q, r, m, g, p, 0, 0, OP_M) >= -128 * (e.0 + e.1)
            &&& e.0 >= 0 && e.1 >= 0
        }),
    decreases n,
{
    let p = ops.subrange(0, n);
    let e = ops_end(p, 0, 0);
    assert(in_band(q, r, band, e.0, e.1));
    if n == 0 {
        assert(p =~= Seq::<u8>::empty());
        assert(band_cell(q, r, m, g, band, 0, 0).d == 0);
    } else {
        lemma_prefix_lower(q, r, m, g, band, ops, n - 1);
        let pp = ops.subrange(0, n - 1);
        let o = ops[n - 1];
        assert(p =~= pp.push(o));
        assert(ops_valid(pp));
        assert(o == OP_M || o == OP_I || o == OP_D);
        lemma_ops_push(q, r, m, g, pp, o, 0, 0, OP_M);
        let pe = ops_end(pp, 0, 0);
        assert(in_band(q, r, band, pe.0, pe.1));
        lemma_band_bounds(q, r, m, g, band, pe.0, pe.1);
        let y = band_cell(q, r, m, g, band, pe.0, pe.1);
        assert(last_op(pp, (n - 1) as int, OP_M) == last_op(ops, n - 1, OP_M));
        assert(o == OP_M || o == OP_I || o == OP_D);
        if o == OP_M {
            let s = m.sc(q[pe.0], r[pe.1]);
            assert(-128 <= s <= 127);
        }
    }
}

/// If some optimal alignment keeps every cell it visits inside the band that
/// the aligner walked, the banded score at the bottom-right cell is the exact
/// global score: moving the band loses nothing for such a pair.
pub proof fn lemma_band_holds_optimum(q: Seq<u8>, r: Seq<u8>, m: Matrix, g: Gaps, band: Band, ops: Seq<u8>)
    requires
        g.wf(),
        q.len() + r.len() <= MAX_TOTAL_LEN,
        ops_valid(ops),
        ops_end(ops, 0, 0) == (q.len() as int, r.len() as int),
        ops_cost(q, r, m, g, ops, 0, 0, OP_M) == global_score(q, r, m, g),
        path_in_band(q, r, band, ops),
    ensures
        band_cell(q, r, m, g, band, q.len() as int, r.len() as int).d == global_score(q, r, m, g),
{
    lemma_prefix_lower(q, r, m, g, band, ops, ops.len() as int);
    assert(ops.subrange(0, ops.len() as int) =~= ops);
    lemma_band_never_exceeds(q, r, m, g, band);
    let x = band_cell(q, r, m, g, band, q.len() as int, r.len() as int);
    if q.len() > 0 || r.len() > 0 {
        assert(x.d >= x.r && x.d >= x.c);
    }
}

/// Direction code of a band cell: bit 1 when `D` equals `R` (reached from
/// above), bit 0 when `D` equals `C` (reached from the left); 0 means diagonal.
pub open spec fn cell_code(d: int, r: int, c: int) -> u32 {
    if d == r && d == c {
        3u32
    } else if d == r {
        2u32
    } else if d == c {
        1u32
    } else {
        0u32
    }
}

/// The two-bit code stored for cell `n`: 16 codes per word, cell `n` at bits
/// `2 * (n % 16)` of word `n / 16`.
pub open spec fn code_at(words: Seq<u32>, n: int) -> u32 {
    (words[n / 16] >> ((2 * (n % 16)) as u32)) & 3u32
}

/// `words` packs the direction codes of the cells of `d`, `r`, `c`.
pub open spec fn codes_ok(words: Seq<u32>, d: Seq<i32>, r: Seq<i32>, c: Seq<i32>) -> bool {
    &&& words.len() == (d.len() + 15) / 16
    &&& forall|n: int| 0 <= n < d.len() ==> #[trigger] code_at(words, n) == cell_code(d[n] as int, r[n] as int, c[n] as int)
}

proof fn lemma_or_code(w: u32, c: u32, t: u32, u: u32)
    requires
        t < 16,
        c < 4,
        u < t,
        w >> (2 * t) == 0,
    ensures
        ((w | (c << (2 * t))) >> (2 * u)) & 3 == (w >> (2 * u)) & 3,
{
    assert(((w | (c << (2 * t))) >> (2 * u)) & 3 == (w >> (2 * u)) & 3) by (bit_vector)
        requires
            t < 16,
            c < 4,
            u < t,
            w >> (2 * t) == 0,
    ;
}

proof fn lemma_or_code_top(w: u32, c: u32, t: u32)
    requires
        t < 16,
        c < 4,
        w >> (2 * t) == 0,
    ensures
        ((w | (c << (2 * t))) >> (2 * t)) & 3 == c,
        t + 1 < 16 ==> (w | (c << (2 * t))) >> (2 * (t + 1)) == 0,
{
    assert(((w | (c << (2 * t))) >> (2 * t)) & 3 == c) by (bit_vector)
        requires
            t < 16,
            c < 4,
            w >> (2 * t) == 0,
    ;
    assert(t + 1 < 16 ==> (w | (c << (2 * t))) >> (2 * (t + 1)) == 0) by (bit_vector)
        requires
            t < 16,
            c < 4,
            w >> (2 * t) == 0,
    ;
}

/// Pack the direction codes of the cells of `d`, `r`, `c`, 16 to a word.
pub fn pack_codes(d: &Vec<i32>, r: &Vec<i32>, c: &Vec<i32>) -> (words: Vec<u32>)
    requires
        r@.len() == d@.len(),
        c@.len() == d@.len(),
    ensures
        codes_ok(words@, d@, r@, c@),
{
    let n = d.len();
    let mut words: Vec<u32> = Vec::new();
    let mut base: usize = 0;
    while base < n
        invariant
            n == d@.len(),
            r@.len() == n,
            c@.len() == n,
            base % 16 == 0 || base == n,
            base <= n,
            words@.len() == (base + 15) / 16,
            forall|m: int| 0 <= m < base && m < n ==> #[trigger] code_at(words@, m) == cell_code(d@[m] as int, r@[m] as int, c@[m] as int),
        decreases n - base,
    {
        let mut w: u32 = 0;
        let mut t: u32 = 0;
        assert(0u32 >> 0u32 == 0u32) by (bit_vector);
        while t < 16
            invariant
                n == d@.len(),
                    r@.len() == n,
                c@.len() == n,
                base < n,
                t <= 16,
                t < 16 ==> w >> (2 * t) == 0,
                forall|u: int|
                    0 <= u < t && base + u < n ==> #[trigger] ((w >> ((2 * u) as u32)) & 3u32) == cell_code(
                        d@[base + u] as int,
                        r@[base + u] as int,
                        c@[base + u] as int,
                    ),
            decreases 16 - t,
        {
            if (t as usize) < n - base {
                let k = base + t as usize;
                let code: u32 = if d[k] == r[k] && d[k] == c[k] {
                    3
                } else if d[k] == r[k] {
                    2
                } else if d[k] == c[k] {
                    1
                } else {
                    0
                };
                let ghost w0 = w;
                w = w | (code << (2 * t));
                proof {
                    lemma_or_code_top(w0, code, t);
                    assert forall|u: int| 0 <= u < t && base + u < n implies #[trigger] ((w >> ((2 * u) as u32)) & 3u32)
                        == cell_code(d@[base + u] as int, r@[base + u] as int, c@[base + u] as int) by {
                        lemma_or_code(w0, code, t, u as u32);
                    }
                }
            } else {
                proof {
                    assert(t + 1 < 16 ==> w >> (2 * (t + 1)) == 0) by (bit_vector)
                        requires
                            t < 16,
                            w >> (2 * t) == 0,
                    ;
                }
            }
            t = t + 1;
        }
        let ghost old_words = words@;
        assert(base % 16 == 0);
        assert(words@.len() == base / 16);
        words.push(w);
        proof {
            assert forall|m: int| 0 <= m < base + 16 && m < n implies #[trigger] code_at(words@, m) == cell_code(
                d@[m] as int,
                r@[m] as int,
                c@[m] as int,
            ) by {
                if m < base {
                    assert(m / 16 < base / 16);
                    assert(words@[m / 16] == old_words[m / 16]);
                    assert(code_at(old_words, m) == cell_code(d@[m] as int, r@[m] as int, c@[m] as int));
                } else {
                    assert(m / 16 == base / 16);
                    assert(m % 16 == m - base);
                    let u = m - base;
                    assert(words@[m / 16] == w);
                    assert(base + u < n);
                }
            }
        }
        if n - base <= 16 {
            base = n;
        } else {
            base = base + 16;
        }
    }
    words
}

/// Bit `j % 16` of word `j / 16`: whether the band moved down before column `j`.
pub open spec fn shift_at(words: Seq<u32>, j: int) -> u32 {
    (words[j / 16] >> ((j % 16) as u32)) & 1u32
}

/// `words` records, for each column `j`, whether `tops[j]` lies below `tops[j - 1]`.
pub open spec fn shifts_ok(words: Seq<u32>, tops: Seq<int>, n: int) -> bool {
    &&& words.len() == (n + 15) / 16
    &&& forall|j: int|
        0 <= j < n ==> #[trigger] shift_at(words, j) == (if j > 0 && tops[j] > tops[j - 1] {
            1u32
        } else {
            0u32
        })
}

/// Pack one bit per column, 16 to a word: whether the band moved down before it.
pub fn pack_shifts(tops: &Vec<usize>) -> (words: Vec<u32>)
    ensures
        shifts_ok(words@, tops@.map_values(|t: usize| t as int), tops@.len() as int),
{
    let ghost ts = tops@.map_values(|t: usize| t as int);
    let n = tops.len();
    let mut words: Vec<u32> = Vec::new();
    let mut base: usize = 0;
    while base < n
        invariant
            n == tops@.len(),
            ts == tops@.map_values(|t: usize| t as int),
            base % 16 == 0 || base == n,
            base <= n,
            words@.len() == (base + 15) / 16,
            forall|m: int|
                0 <= m < base && m < n ==> #[trigger] shift_at(words@, m) == (if m > 0 && ts[m] > ts[m - 1] {
                    1u32
                } else {
                    0u32
                }),
        decreases n - base,
    {
        let mut w: u32 = 0;
        let mut t: u32 = 0;
        assert(0u32 >> 0u32 == 0u32) by (bit_vector);
        while t < 16
            invariant
                n == tops@.len(),
                ts == tops@.map_values(|t: usize| t as int),
                    base < n,
                t <= 16,
                t < 16 ==> w >> t == 0,
                forall|u: int|
                    0 <= u < t && base + u < n ==> #[trigger] ((w >> (u as u32)) & 1u32) == (if base + u > 0
                        && ts[base + u] > ts[base + u - 1] {
                        1u32
                    } else {
                        0u32
                    }),
            decreases 16 - t,
        {
            if (t as usize) < n - base {
                let k = base + t as usize;
                let bit: u32 = if k > 0 && tops[k] > tops[k - 1] { 1 } else { 0 };
                let ghost w0 = w;
                w = w | (bit << t);
                proof {
                    assert(((w0 | (bit << t)) >> t) & 1 == bit && (t + 1 < 16 ==> (w0 | (bit << t)) >> (t + 1) == 0))
                        by (bit_vector)
                        requires
                            t < 16,
                            bit < 2,
                            w0 >> t == 0,
                    ;
                    assert forall|u: int| 0 <= u < t && base + u < n implies #[trigger] ((w >> (u as u32)) & 1u32) == (
                    if base + u > 0 && ts[base + u] > ts[base + u - 1] {
                        1u32
                    } else {
                        0u32
                    }) by {
                        let uu = u as u32;
                        assert(((w0 | (bit << t)) >> uu) & 1 == (w0 >> uu) & 1) by (bit_vector)
                            requires
                                t < 16,
                                bit < 2,
                                uu < t,
                                w0 >> t == 0,
                        ;
                    }
                }
            } else {
                proof {
                    assert(t + 1 < 16 ==> w >> (t + 1) == 0) by (bit_vector)
                        requires
                            t < 16,
                            w >> t == 0,
                    ;
                }
            }
            t = t + 1;
        }
        let ghost old_words = words@;
        assert(base % 16 == 0);
        assert(words@.len() == base / 16);
        words.push(w);
        proof {
            assert forall|m: int| 0 <= m < base + 16 && m < n implies #[trigger] shift_at(words@, m) == (if m > 0
                && ts[m] > ts[m - 1] {
                1u32
            } else {
                0u32
            }) by {
                if m < base {
                    assert(m / 16 < base / 16);
                    assert(words@[m / 16] == old_words[m / 16]);
                    assert(shift_at(old_words, m) == shift_at(words@, m));
                } else {
                    assert(m / 16 == base / 16);
                    assert(m % 16 == m - base);
                    assert(words@[m / 16] == w);
                    let u = m - base;
                    assert(base + u < n);
                    assert(((w >> (u as u32)) & 1u32) == (if base + u > 0 && ts[base + u] > ts[base + u - 1] {
                        1u32
                    } else {
                        0u32
                    }));
                    assert(shift_at(words@, m) == ((w >> (u as u32)) & 1u32));
                }
            }
        }
        if n - base <= 16 {
            base = n;
        } else {
            base = base + 16;
        }
    }
    words
}

/// The trace words give every cell of columns `0..=upto` of the band its
/// direction code (cell `jj * h + k` is lane `k` of column `jj`), and the
/// shift bits say before which columns the band moved down.
pub open spec fn trace_words_ok(
    q: Seq<u8>,
    rf: Seq<u8>,
    m: Matrix,
    g: Gaps,
    band: Band,
    h: int,
    words: Seq<u32>,
    shifts: Seq<u32>,
    upto: int,
) -> bool {
    &&& words.len() == ((upto + 1) * h + 15) / 16
    &&& forall|jj: int, k: int|
        0 <= jj <= upto && 0 <= k < h ==> {
            let x = #[trigger] band_cell(q, rf, m, g, band, band.tops[jj] + k, jj);
            code_at(words, jj * h + k) == cell_code(x.d, x.r, x.c)
        }
    &&& shifts_ok(shifts, band.tops, upto + 1)
}

/// Codes packed from kept columns describe the band's cells.
pub proof fn lemma_trace_words(
    q: Seq<u8>,
    rf: Seq<u8>,
    m: Matrix,
    g: Gaps,
    band: Band,
    h: int,
    d: Seq<i32>,
    r: Seq<i32>,
    c: Seq<i32>,
    tops: Seq<usize>,
    upto: int,
    words: Seq<u32>,
    shifts: Seq<u32>,
)
    requires
        upto >= 0,
        h >= 1,
        kept_ok(q, rf, m, g, band, h, d, r, c, tops, upto),
        codes_ok(words, d, r, c),
        shifts_ok(shifts, tops.map_values(|t: usize| t as int), tops.len() as int),
    ensures
        trace_words_ok(q, rf, m, g, band, h, words, shifts, upto),
{
    assert forall|jj: int, k: int| 0 <= jj <= upto && 0 <= k < h implies {
        let x = #[trigger] band_cell(q, rf, m, g, band, band.tops[jj] + k, jj);
        code_at(words, jj * h + k) == cell_code(x.d, x.r, x.c)
    } by {
        lemma_index(jj, k, h, upto + 1);
        let n = jj * h + k;
        assert(code_at(words, n) == cell_code(d[n] as int, r[n] as int, c[n] as int));
    }
    let ts = tops.map_values(|t: usize| t as int);
    assert forall|j: int| 0 <= j < upto + 1 implies #[trigger] shift_at(shifts, j) == (if j > 0 && band.tops[j]
        > band.tops[j - 1] {
        1u32
    } else {
        0u32
    }) by {
        assert(shift_at(shifts, j) == (if j > 0 && ts[j] > ts[j - 1] {
            1u32
        } else {
            0u32
        }));
        assert(ts[j] == band.tops[j]);
        if j > 0 {
            assert(ts[j - 1] == band.tops[j - 1]);
        }
    }
}

/// A run of `n` insertions replays as one gap: `open` (or `extend`, when it
/// continues a run of insertions) and then `extend` for each further symbol.
pub proof fn lemma_insert_run(q: Seq<u8>, r: Seq<u8>, m: Matrix, g: Gaps, n: nat, i: int, j: int, prev: u8)
    ensures
        ops_valid(repeat(n, OP_I)),
        ops_end(repeat(n, OP_I), i, j) == (i + n, j),
        n >= 1 ==> ops_cost(q, r, m, g, repeat(n, OP_I), i, j, prev) == (if prev == OP_I {
            g.extend as int
        } else {
            g.open as int
        }) + (n - 1) * g.extend,
        n == 0 ==> ops_cost(q, r, m, g, repeat(n, OP_I), i, j, prev) == 0,
    decreases n,
{
    if n >= 1 {
        let s = repeat(n, OP_I);
        assert(s.subrange(1, s.len() as int) =~= repeat((n - 1) as nat, OP_I));
        lemma_insert_run(q, r, m, g, (n - 1) as nat, i + 1, j, OP_I);
        if n >= 2 {
            assert((n - 1) * g.extend == g.extend + (n - 2) * g.extend) by (nonlinear_arith);
        }
    }
}

} // verus!
