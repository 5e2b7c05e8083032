//! The executable adaptive banded aligner.
//!
//! A band of `band_height(K, |q|)` query rows is carried from reference column
//! to reference column. After each column the lane holding the column's
//! maximum decides whether the band slides down before the next column (see
//! `dp::next_top`). After the last column the band keeps sliding down that
//! column until it holds the last query row, or until the X-drop test stops
//! it. Every value the aligner computes is the value of the banded DP of `dp`
//! for the band it actually walked.
use vstd::prelude::*;
use crate::dp::{
    adaptive, band_cell, dp_cell, lemma_first_col, Cell, col_best, col_d, global_score, in_band, lemma_adaptive_push, lemma_band_bounds,
    lemma_band_prefix, lemma_col_prefix, lemma_wide_band_exact, lemma_wide_band_stays, lemma_xdrop_cell, lemma_xdrop_prefix, max2,
    next_top, plus, seq_best, top_cap, xdrop_best, Band, MAX_TOTAL_LEN, NEG_INF,
};
use crate::scores::{symbol_index, valid_seq, valid_symbol, AlignError, Gaps, Matrix, FIRST, NULL};
use crate::traceback::{
    append, kept_ok, kept_value, lemma_index, lemma_insert_run, lemma_trace_words, prev_op, repeat, pack_codes, pack_shifts, trace_words_ok, lemma_kept_extend, lemma_kept_push, ops_cost, ops_end, ops_valid, walk_back, Kept, OP_I, OP_M,
};

verus! {

/// Lane count of one vector: band heights are multiples of it.
pub const L: usize = 16;


/// Index of `c` in its matrix's alphabet: the byte itself for nucleotides,
/// `c - 'A'` for amino acids.
pub fn convert_char(c: u8, nuc: bool) -> (r: u8)
    requires
        valid_symbol(c),
    ensures
        r as int == symbol_index(c, nuc),
{
    if nuc {
        c
    } else {
        c - FIRST
    }
}

/// `x` saturated into the range of `i16`.
pub fn clamp(x: i32) -> (r: i16)
    ensures
        r as int == (if x < -32768 {
            -32768
        } else if x > 32767 {
            32767
        } else {
            x as int
        }),
{
    if x < -32768 {
        -32768
    } else if x > 32767 {
        32767
    } else {
        x as i16
    }
}

/// `n / d` rounded up.
pub fn div_ceil(n: usize, d: usize) -> (r: usize)
    requires
        d > 0,
        n + d - 1 <= usize::MAX,
    ensures
        r as int == (n + d - 1) as int / (d as int),
{
    (n + (d - 1)) / d
}

/// `k + 1` rounded up to a multiple of `L`.
pub open spec fn ceil_k(k: int) -> int {
    (k + 1 + L - 1) / (L as int) * (L as int)
}

/// Height of the band for parameter `k` and a query of length `qlen`:
/// `ceil_k(k)`, except that a band never needs to be taller than the query
/// and its empty prefix, so `k` counts as at most `qlen`.
pub open spec fn band_height(k: int, qlen: int) -> int {
    ceil_k(if k < qlen {
        k
    } else {
        qlen
    })
}

/// The band height for parameter `k` and a query of length `qlen`.
fn band_height_exec(k: usize, qlen: usize) -> (h: usize)
    requires
        qlen <= MAX_TOTAL_LEN,
    ensures
        h as int == band_height(k as int, qlen as int),
        L <= h <= MAX_TOTAL_LEN + L,
{
    let kk = if k < qlen { k } else { qlen };
    let h = div_ceil(kk + 1, L) * L;
    proof {
        let x = kk as int;
        assert((x + 16) / 16 * 16 <= x + 16 && (x + 16) / 16 * 16 >= 16) by (nonlinear_arith)
            requires
                x >= 0,
        ;
    }
    h
}

/// Addition in which `NEG_INF` stays `NEG_INF`.
fn add_inf(a: i32, b: i32) -> (r: i32)
    requires
        a == NEG_INF || (-1073741824 <= a <= 1073741824),
        -128 <= b <= 127,
    ensures
        r as int == plus(a as int, b as int),
{
    if a == NEG_INF {
        NEG_INF
    } else {
        a + b
    }
}

fn max_i32(a: i32, b: i32) -> (r: i32)
    ensures
        r as int == max2(a as int, b as int),
{
    if a >= b {
        a
    } else {
        b
    }
}

/// Bounds on the inputs shared by the column computations.
pub open spec fn inputs_ok(q: Seq<u8>, r: Seq<u8>, m: Matrix, g: Gaps) -> bool {
    &&& m.wf()
    &&& g.wf()
    &&& valid_seq(q)
    &&& valid_seq(r)
    &&& q.len() + r.len() <= MAX_TOTAL_LEN
}

proof fn lemma_small(q: Seq<u8>, r: Seq<u8>, m: Matrix, g: Gaps, band: Band, i: int, j: int)
    requires
        g.wf(),
        0 <= i <= q.len(),
        0 <= j <= r.len(),
        q.len() + r.len() <= MAX_TOTAL_LEN,
    ensures
        ({
            let x = band_cell(q, r, m, g, band, i, j);
            &&& x.d == NEG_INF || (-1073741824 <= x.d <= 1073741824)
            &&& x.r == NEG_INF || (-1073741824 <= x.r <= 1073741824)
            &&& x.c == NEG_INF || (-1073741824 <= x.c <= 1073741824)
        }),
{
    lemma_band_bounds(q, r, m, g, band, i, j);
}

/// Column 0 of the band (rows `0..h`).
#[verifier::spinoff_prover]
fn first_column(
    q: &[u8],
    rf: &[u8],
    m: &Matrix,
    g: Gaps,
    h: usize,
    cur_d: &mut Vec<i32>,
    cur_r: &mut Vec<i32>,
    cur_c: &mut Vec<i32>,
    Ghost(band): Ghost<Band>,
)
    requires
        inputs_ok(q@, rf@, *m, g),
        1 <= h <= MAX_TOTAL_LEN + L,
        band.h == h as int,
        band.tops.len() >= 1,
        band.tops[0] == 0,
        old(cur_d)@.len() == h,
        old(cur_r)@.len() == h,
        old(cur_c)@.len() == h,
    ensures
        final(cur_d)@.len() == h,
        final(cur_r)@.len() == h,
        final(cur_c)@.len() == h,
        forall|k: int|
            0 <= k < h ==> final(cur_d)@[k] as int == #[trigger] band_cell(
                q@,
                rf@,
                *m,
                g,
                band,
                k,
                0,
            ).d && final(cur_c)@[k] as int == band_cell(q@, rf@, *m, g, band, k, 0).c
                && final(cur_r)@[k] as int == band_cell(q@, rf@, *m, g, band, k, 0).r,
{
    let ghost qs = q@;
    let ghost rs = rf@;
    let mut up_d: i32 = NEG_INF;
    let mut up_r: i32 = NEG_INF;
    let mut k: usize = 0;
    while k < h
        invariant
            inputs_ok(qs, rs, *m, g),
            qs == q@,
            rs == rf@,
            1 <= h <= MAX_TOTAL_LEN + L,
            band.h == h as int,
            band.tops.len() >= 1,
            band.tops[0] == 0,
            k <= h,
            cur_d@.len() == h,
            cur_r@.len() == h,
            cur_c@.len() == h,
            up_d as int == band_cell(qs, rs, *m, g, band, k - 1, 0).d,
            up_r as int == band_cell(qs, rs, *m, g, band, k - 1, 0).r,
            forall|kk: int|
                0 <= kk < k ==> cur_d@[kk] as int == #[trigger] band_cell(
                    qs,
                    rs,
                    *m,
                    g,
                    band,
                    kk,
                    0,
                ).d && cur_c@[kk] as int == band_cell(qs, rs, *m, g, band, kk, 0).c && cur_r@[kk] as int
                    == band_cell(qs, rs, *m, g, band, kk, 0).r,
        decreases h - k,
    {
        let ghost ki = k as int;
        let ghost od = cur_d@;
        let ghost oc = cur_c@;
        let ghost orr = cur_r@;
        if k > q.len() {
            cur_d.set(k, NEG_INF);
            cur_r.set(k, NEG_INF);
            cur_c.set(k, NEG_INF);
            up_d = NEG_INF;
            up_r = NEG_INF;
            assert(band_cell(qs, rs, *m, g, band, ki, 0).r == NEG_INF as int);
            assert(band_cell(qs, rs, *m, g, band, ki, 0).d == NEG_INF as int);
            assert(band_cell(qs, rs, *m, g, band, ki, 0).c == NEG_INF as int);
        } else {
            if k > 0 {
                proof {
                    lemma_small(qs, rs, *m, g, band, ki - 1, 0);
                }
            }
            let rr = max_i32(add_inf(up_r, g.extend as i32), add_inf(up_d, g.open as i32));
            let dd: i32 = if k == 0 {
                0
            } else {
                max_i32(max_i32(NEG_INF, rr), NEG_INF)
            };
            cur_d.set(k, dd);
            cur_r.set(k, rr);
            cur_c.set(k, NEG_INF);
            up_d = dd;
            up_r = rr;
            assert(band_cell(qs, rs, *m, g, band, ki, 0).d == dd as int);
            assert(band_cell(qs, rs, *m, g, band, ki, 0).r == rr as int);
            assert(band_cell(qs, rs, *m, g, band, ki, 0).c == NEG_INF as int);
        }
        assert forall|kk: int| 0 <= kk < ki + 1 implies cur_d@[kk] as int == #[trigger] band_cell(
            qs,
            rs,
            *m,
            g,
            band,
            kk,
            0,
        ).d && cur_c@[kk] as int == band_cell(qs, rs, *m, g, band, kk, 0).c && cur_r@[kk] as int
            == band_cell(qs, rs, *m, g, band, kk, 0).r by {
            if kk < ki {
                assert(cur_d@[kk] == od[kk] && cur_c@[kk] == oc[kk] && cur_r@[kk] == orr[kk]);
            }
        }
        k = k + 1;
    }
}

/// Column `j >= 1` of the band, standing at `t`, from column `j - 1`, which
/// stood at `pt`.
#[verifier::spinoff_prover]
fn fill_column(
    q: &[u8],
    rf: &[u8],
    m: &Matrix,
    g: Gaps,
    h: usize,
    j: usize,
    pt: usize,
    t: usize,
    prev_d: &Vec<i32>,
    prev_c: &Vec<i32>,
    cur_d: &mut Vec<i32>,
    cur_r: &mut Vec<i32>,
    cur_c: &mut Vec<i32>,
    Ghost(band): Ghost<Band>,
)
    requires
        inputs_ok(q@, rf@, *m, g),
        1 <= h <= MAX_TOTAL_LEN + L,
        1 <= j <= rf@.len(),
        band.h == h as int,
        band.tops.len() == j + 1,
        band.tops[j as int] == t as int,
        band.tops[j - 1 as int] == pt as int,
        pt <= t <= q@.len(),
        prev_d@.len() == h,
        prev_c@.len() == h,
        old(cur_d)@.len() == h,
        old(cur_r)@.len() == h,
        old(cur_c)@.len() == h,
        forall|k: int|
            0 <= k < h ==> prev_d@[k] as int == #[trigger] band_cell(
                q@,
                rf@,
                *m,
                g,
                band,
                pt + k,
                j - 1,
            ).d && prev_c@[k] as int == band_cell(q@, rf@, *m, g, band, pt + k, j - 1).c,
    ensures
        final(cur_d)@.len() == h,
        final(cur_r)@.len() == h,
        final(cur_c)@.len() == h,
        forall|k: int|
            0 <= k < h ==> final(cur_d)@[k] as int == #[trigger] band_cell(
                q@,
                rf@,
                *m,
                g,
                band,
                t + k,
                j as int,
            ).d && final(cur_c)@[k] as int == band_cell(q@, rf@, *m, g, band, t + k, j as int).c
                && final(cur_r)@[k] as int == band_cell(q@, rf@, *m, g, band, t + k, j as int).r,
{
    let ghost qs = q@;
    let ghost rs = rf@;
    let ghost jj = j as int;
    let mut up_d: i32 = NEG_INF;
    let mut up_r: i32 = NEG_INF;
    let mut k: usize = 0;
    while k < h
        invariant
            inputs_ok(qs, rs, *m, g),
            qs == q@,
            rs == rf@,
            jj == j,
            1 <= h <= MAX_TOTAL_LEN + L,
            1 <= j <= rs.len(),
            band.h == h as int,
            band.tops.len() == j + 1,
            band.tops[jj] == t as int,
            band.tops[jj - 1] == pt as int,
            pt <= t <= qs.len(),
            prev_d@.len() == h,
            prev_c@.len() == h,
            forall|kk: int|
                0 <= kk < h ==> prev_d@[kk] as int == #[trigger] band_cell(
                    qs,
                    rs,
                    *m,
                    g,
                    band,
                    pt + kk,
                    jj - 1,
                ).d && prev_c@[kk] as int == band_cell(qs, rs, *m, g, band, pt + kk, jj - 1).c,
            k <= h,
            cur_d@.len() == h,
            cur_r@.len() == h,
            cur_c@.len() == h,
            forall|kk: int|
                0 <= kk < k ==> cur_r@[kk] as int == #[trigger] band_cell(qs, rs, *m, g, band, t + kk, jj).r,
            up_d as int == band_cell(qs, rs, *m, g, band, t + k - 1, jj).d,
            up_r as int == band_cell(qs, rs, *m, g, band, t + k - 1, jj).r,
            forall|kk: int|
                0 <= kk < k ==> cur_d@[kk] as int == #[trigger] band_cell(
                    qs,
                    rs,
                    *m,
                    g,
                    band,
                    t + kk,
                    jj,
                ).d && cur_c@[kk] as int == band_cell(qs, rs, *m, g, band, t + kk, jj).c,
        decreases h - k,
    {
        let i = t + k;
        let ghost ii = i as int;
        let ghost ki = k as int;
        let ghost od = cur_d@;
        let ghost oc = cur_c@;
        let ghost orr = cur_r@;
        if i > q.len() {
            cur_d.set(k, NEG_INF);
            cur_r.set(k, NEG_INF);
            cur_c.set(k, NEG_INF);
            up_d = NEG_INF;
            up_r = NEG_INF;
            assert(!in_band(qs, rs, band, ii, jj));
            assert(band_cell(qs, rs, *m, g, band, t + ki, jj).d == NEG_INF as int);
            assert(band_cell(qs, rs, *m, g, band, t + ki, jj).c == NEG_INF as int);
            assert(band_cell(qs, rs, *m, g, band, t + ki, jj).r == NEG_INF as int);
        } else {
            proof {
                if ii > 0 {
                    lemma_small(qs, rs, *m, g, band, ii - 1, jj);
                    lemma_small(qs, rs, *m, g, band, ii - 1, jj - 1);
                }
                lemma_small(qs, rs, *m, g, band, ii, jj - 1);
            }
            let rr = max_i32(add_inf(up_r, g.extend as i32), add_inf(up_d, g.open as i32));
            let li = i - pt;
            let ld: i32 = if li < h { prev_d[li] } else { NEG_INF };
            let lc: i32 = if li < h { prev_c[li] } else { NEG_INF };
            proof {
                if li < h {
                    assert(band_cell(qs, rs, *m, g, band, pt + li, jj - 1).d == ld);
                }
            }
            let cc = max_i32(add_inf(lc, g.extend as i32), add_inf(ld, g.open as i32));
            let dg: i32 = if i >= 1 && i - 1 >= pt && i - 1 - pt < h {
                let s = m.score(q[i - 1], rf[j - 1]);
                proof {
                    assert(band_cell(qs, rs, *m, g, band, pt + (i - 1 - pt), jj - 1).d == prev_d@[i - 1 - pt]);
                }
                add_inf(prev_d[i - 1 - pt], s as i32)
            } else {
                NEG_INF
            };
            let dd = max_i32(max_i32(dg, rr), cc);
            cur_d.set(k, dd);
            cur_r.set(k, rr);
            cur_c.set(k, cc);
            up_d = dd;
            up_r = rr;
            assert(band_cell(qs, rs, *m, g, band, ii, jj).d == dd as int);
            assert(band_cell(qs, rs, *m, g, band, ii, jj).c == cc as int);
            assert(band_cell(qs, rs, *m, g, band, ii, jj).r == rr as int);
            assert(ii == t + ki);
        }
        assert(cur_d@[ki] as int == band_cell(qs, rs, *m, g, band, t + ki, jj).d);
        assert(cur_c@[ki] as int == band_cell(qs, rs, *m, g, band, t + ki, jj).c);
        assert(cur_r@[ki] as int == band_cell(qs, rs, *m, g, band, t + ki, jj).r);
        assert forall|kk: int| 0 <= kk < ki + 1 implies cur_d@[kk] as int == #[trigger] band_cell(
            qs,
            rs,
            *m,
            g,
            band,
            t + kk,
            jj,
        ).d && cur_c@[kk] as int == band_cell(qs, rs, *m, g, band, t + kk, jj).c && cur_r@[kk] as int
            == band_cell(qs, rs, *m, g, band, t + kk, jj).r by {
            if kk < ki {
                assert(cur_d@[kk] == od[kk] && cur_c@[kk] == oc[kk] && cur_r@[kk] == orr[kk]);
                assert(od[kk] as int == band_cell(qs, rs, *m, g, band, t + kk, jj).d);
                assert(oc[kk] as int == band_cell(qs, rs, *m, g, band, t + kk, jj).c);
                assert(orr[kk] as int == band_cell(qs, rs, *m, g, band, t + kk, jj).r);
            } else {
                assert(kk == ki);
                assert(cur_d@[ki] as int == band_cell(qs, rs, *m, g, band, t + ki, jj).d);
                assert(cur_c@[ki] as int == band_cell(qs, rs, *m, g, band, t + ki, jj).c);
                assert(cur_r@[ki] as int == band_cell(qs, rs, *m, g, band, t + ki, jj).r);
            }
        }
        k = k + 1;
    }
}

/// The values of `v` as integers.
pub open spec fn ints(v: Seq<i32>) -> Seq<int> {
    Seq::new(v.len(), |k: int| v[k] as int)
}

/// Maximum of `v` and the first lane that holds it.
fn best_lane(v: &Vec<i32>) -> (r: (i32, usize))
    requires
        v@.len() >= 1,
    ensures
        (r.0 as int, r.1 as int) == seq_best(ints(v@), v@.len() as int),
        r.1 < v@.len(),
{
    let mut mx: i32 = v[0];
    let mut am: usize = 0;
    let mut k: usize = 1;
    while k < v.len()
        invariant
            1 <= k <= v@.len(),
            am < k,
            (mx as int, am as int) == seq_best(ints(v@), k as int),
        decreases v@.len() - k,
    {
        if v[k] > mx {
            mx = v[k];
            am = k;
        }
        k = k + 1;
    }
    (mx, am)
}

/// Where the band stands in the next column (see `next_top`).
fn next_top_exec(top: usize, argmax: usize, h: usize, qlen: usize) -> (r: usize)
    requires
        argmax < h,
        h <= MAX_TOTAL_LEN + L,
        qlen <= MAX_TOTAL_LEN,
        top <= top_cap(qlen as int, h as int),
    ensures
        r as int == next_top(top as int, argmax as int, h as int, qlen as int),
        top <= r <= top_cap(qlen as int, h as int),
{
    if argmax > h * 5 / 8 {
        let want = top + argmax - h / 2;
        let cap = if qlen + 1 > h { qlen + 1 - h } else { 0 };
        if want < cap {
            want
        } else {
            cap
        }
    } else {
        top
    }
}

/// End cell and score of an alignment.
#[derive(Clone, Copy, Debug, PartialEq, Eq, Structural)]
pub struct AlignResult {
    pub score: i32,
    pub query_idx: usize,
    pub reference_idx: usize,
}

/// End cell of an alignment: rows count query symbols, columns reference symbols.
#[derive(Clone, Copy, Debug, PartialEq, Eq, Structural)]
pub struct EndIndex {
    pub query_idx: usize,
    pub ref_idx: usize,
}

/// `v` has length `h` and holds `NEG_INF` everywhere.
fn neg_vec(h: usize) -> (v: Vec<i32>)
    ensures
        v@.len() == h,
{
    let mut v: Vec<i32> = Vec::new();
    let mut k: usize = 0;
    while k < h
        invariant
            k <= h,
            v@.len() == k,
        decreases h - k,
    {
        v.push(NEG_INF);
        k = k + 1;
    }
    v
}

/// The X-drop test passed at every column `1..=upto`: no column maximum fell
/// more than `x` below the best seen before it.
pub open spec fn no_drop_upto(
    q: Seq<u8>,
    r: Seq<u8>,
    m: Matrix,
    g: Gaps,
    band: Band,
    x: int,
    upto: int,
) -> bool {
    forall|jj: int|
        1 <= jj <= upto ==> #[trigger] col_best(q, r, m, g, band, jj).0 >= xdrop_best(
            q,
            r,
            m,
            g,
            band,
            jj - 1,
        ).0 - x
}

/// `res` reports the running best `b`.
pub open spec fn reports(res: AlignResult, b: (int, int, int)) -> bool {
    res.score as int == b.0 && res.query_idx as int == b.1 && res.reference_idx as int == b.2
}

/// Row `i` of the last column once the band has been pushed down past its
/// bottom: rows below the band are reached by a gap that runs down the column
/// from the band's bottom cell.
pub open spec fn last_col_cell(q: Seq<u8>, r: Seq<u8>, m: Matrix, g: Gaps, band: Band, i: int) -> Cell
    decreases i,
{
    let j = r.len() as int;
    if i < band.tops[j] + band.h || i <= 0 {
        band_cell(q, r, m, g, band, i, j)
    } else {
        let up = last_col_cell(q, r, m, g, band, i - 1);
        let rr = max2(plus(up.r, g.extend as int), plus(up.d, g.open as int));
        Cell { d: rr, r: rr, c: NEG_INF as int }
    }
}

/// The X-drop test passes at every row pushed into the last column down to
/// `upto`: none falls more than `x` below `best`.
pub open spec fn tail_no_drop(
    q: Seq<u8>,
    r: Seq<u8>,
    m: Matrix,
    g: Gaps,
    band: Band,
    best: int,
    x: int,
    upto: int,
) -> bool {
    forall|i: int|
        band.tops[r.len() as int] + band.h <= i <= upto ==> #[trigger] last_col_cell(q, r, m, g, band, i).d
            >= best - x
}

/// What a finished run of the adaptive aligner holds, for query `q`, reference
/// `r`, the band it walked, the last column it computed, the last row it
/// covered in that column, and whether the X-drop test stopped it.
///
/// After the last reference column the band keeps moving down that column,
/// one row at a time, until it holds the last query row; with X-drop, until a
/// new row fails the test first. A run that is not stopped early has covered
/// both the last reference column and the last query row.
pub open spec fn run_result(
    q: Seq<u8>,
    r: Seq<u8>,
    m: Matrix,
    g: Gaps,
    h: int,
    x_drop_on: bool,
    x: int,
    band: Band,
    last: int,
    depth: int,
    dropped: bool,
    res: AlignResult,
) -> bool {
    let bot = band.tops[last] + h;
    &&& band.h == h
    &&& 0 <= last <= r.len()
    &&& adaptive(q, r, m, g, band, last)
    &&& band.tops[last] <= top_cap(q.len() as int, h)
    &&& bot - 1 <= depth
    &&& !dropped ==> last == r.len() && depth >= q.len()
    &&& if !x_drop_on {
        &&& !dropped
        &&& res.score as int == last_col_cell(q, r, m, g, band, q.len() as int).d
        &&& res.query_idx == q.len()
        &&& res.reference_idx == r.len()
    } else if dropped && depth < bot {
        &&& 1 <= last
        &&& no_drop_upto(q, r, m, g, band, x, last - 1)
        &&& col_best(q, r, m, g, band, last).0 < xdrop_best(q, r, m, g, band, last - 1).0 - x
        &&& reports(res, xdrop_best(q, r, m, g, band, last - 1))
    } else {
        let best = xdrop_best(q, r, m, g, band, last).0;
        &&& last == r.len()
        &&& no_drop_upto(q, r, m, g, band, x, last)
        &&& reports(res, xdrop_best(q, r, m, g, band, last))
        &&& dropped ==> depth <= q.len() && tail_no_drop(q, r, m, g, band, best, x, depth - 1)
            && last_col_cell(q, r, m, g, band, depth).d < best - x
        &&& !dropped ==> tail_no_drop(q, r, m, g, band, best, x, q.len() as int)
    }
}

proof fn lemma_tail_bounds(q: Seq<u8>, r: Seq<u8>, m: Matrix, g: Gaps, band: Band, i: int)
    requires
        g.wf(),
        0 <= i <= q.len(),
        q.len() + r.len() <= MAX_TOTAL_LEN,
    ensures
        ({
            let x = last_col_cell(q, r, m, g, band, i);
            &&& x.d == NEG_INF || (-128 * (i + r.len()) <= x.d <= 127 * (i + r.len()))
            &&& x.r == NEG_INF || (-128 * (i + r.len()) <= x.r <= 127 * (i + r.len()))
        }),
    decreases i,
{
    let j = r.len() as int;
    if i < band.tops[j] + band.h || i <= 0 {
        lemma_band_bounds(q, r, m, g, band, i, j);
    } else {
        lemma_tail_bounds(q, r, m, g, band, i - 1);
    }
}

/// Below the band, every row of the last column extends the gap of the row
/// above: its value is the first pushed row's value plus `extend` per row.
proof fn lemma_tail_chain(q: Seq<u8>, r: Seq<u8>, m: Matrix, g: Gaps, band: Band, i: int)
    requires
        g.wf(),
        band.h >= 1,
        band.tops.len() > r.len(),
        band.tops[r.len() as int] >= 0,
        band.tops[r.len() as int] + band.h <= i <= q.len(),
        q.len() + r.len() <= MAX_TOTAL_LEN,
        last_col_cell(q, r, m, g, band, band.tops[r.len() as int] + band.h).d != NEG_INF,
    ensures
        ({
            let b = band.tops[r.len() as int] + band.h;
            let x = last_col_cell(q, r, m, g, band, i);
            &&& x.d == x.r
            &&& x.d == last_col_cell(q, r, m, g, band, b).d + (i - b) * g.extend
        }),
    decreases i,
{
    let b = band.tops[r.len() as int] + band.h;
    let x = last_col_cell(q, r, m, g, band, i);
    assert(x.d == x.r);
    if i > b {
        lemma_tail_chain(q, r, m, g, band, i - 1);
        lemma_tail_bounds(q, r, m, g, band, b);
        let v0 = last_col_cell(q, r, m, g, band, b).d;
        let e = g.extend as int;
        let n = i - 1 - b;
        let rl = r.len() as int;
        assert((i - b) * e == n * e + e) by (nonlinear_arith)
            requires
                n == i - 1 - b,
        ;
        assert(v0 + n * e > -2147483648) by (nonlinear_arith)
            requires
                v0 >= -128 * (b + rl),
                e >= -128,
                n >= 0,
                b + n + rl <= 8388608,
        ;
        let up = last_col_cell(q, r, m, g, band, i - 1);
        assert(up.d == v0 + n * e && up.r == up.d);
        assert(x.r == max2(plus(up.r, e), plus(up.d, g.open as int)));
        assert(x.d == v0 + n * e + e);
    } else {
        assert(i - b == 0);
        assert(0 * (g.extend as int) == 0);
    }
}

/// Below an unreachable first pushed row, every pushed row is unreachable.
proof fn lemma_tail_chain_neg(q: Seq<u8>, r: Seq<u8>, m: Matrix, g: Gaps, band: Band, i: int)
    requires
        band.h >= 1,
        band.tops.len() > r.len(),
        band.tops[r.len() as int] >= 0,
        band.tops[r.len() as int] + band.h <= i,
        last_col_cell(q, r, m, g, band, band.tops[r.len() as int] + band.h).d == NEG_INF,
    ensures
        last_col_cell(q, r, m, g, band, i).d == NEG_INF,
        last_col_cell(q, r, m, g, band, i).r == NEG_INF,
    decreases i,
{
    if i > band.tops[r.len() as int] + band.h {
        lemma_tail_chain_neg(q, r, m, g, band, i - 1);
    }
}

proof fn lemma_first_col_band(q: Seq<u8>, r: Seq<u8>, m: Matrix, g: Gaps, band: Band, i: int)
    requires
        band.tops.len() >= 1,
        band.tops[0] == 0,
        0 <= i < band.h,
        i <= q.len(),
    ensures
        band_cell(q, r, m, g, band, i, 0) == dp_cell(q, r, m, g, i, 0),
    decreases i,
{
    if i > 0 {
        lemma_first_col_band(q, r, m, g, band, i - 1);
    }
}

/// Against an empty reference, whatever the band, the aligner's global score
/// is one gap over the whole query: `open + (n - 1) * extend`.
pub proof fn lemma_empty_reference_any_band(q: Seq<u8>, r: Seq<u8>, m: Matrix, g: Gaps, band: Band)
    requires
        g.wf(),
        r.len() == 0,
        1 <= q.len() <= MAX_TOTAL_LEN,
        band.tops.len() >= 1,
        band.tops[0] == 0,
        band.h >= 2,
    ensures
        last_col_cell(q, r, m, g, band, q.len() as int).d == g.open + (q.len() - 1) * g.extend,
{
    let n = q.len() as int;
    let h = band.h;
    if n < h {
        lemma_first_col_band(q, r, m, g, band, n);
        lemma_first_col(q, r, m, g, n);
    } else {
        lemma_first_col_band(q, r, m, g, band, h - 1);
        lemma_first_col(q, r, m, g, h - 1);
        let up = last_col_cell(q, r, m, g, band, h - 1);
        assert(up == band_cell(q, r, m, g, band, h - 1, 0));
        let e = g.extend as int;
        let o = g.open as int;
        assert(o + (h - 2) * e > -2147483648) by (nonlinear_arith)
            requires
                o >= -128,
                e >= -128,
                e <= 0,
                2 <= h <= 8388609,
        ;
        assert((h - 1) * e == (h - 2) * e + e) by (nonlinear_arith);
        assert(last_col_cell(q, r, m, g, band, h).d == o + (h - 1) * e);
        assert(o + (h - 1) * e > -2147483648) by (nonlinear_arith)
            requires
                o >= -128,
                e >= -128,
                e <= 0,
                2 <= h <= 8388609,
        ;
        lemma_tail_chain(q, r, m, g, band, n);
        assert((h - 1) * e + (n - h) * e == (n - 1) * e) by (nonlinear_arith);
    }
}

/// Walk the adaptive band of height `h` over the whole reference, or until the
/// X-drop test fires when `x_drop_on`. Returns the result, the last column
/// computed, whether the X-drop test stopped the walk, and the band walked.
#[verifier::spinoff_prover]
#[verifier::rlimit(60)]
fn run_band(
    q: &[u8],
    rf: &[u8],
    m: &Matrix,
    g: Gaps,
    h: usize,
    x_drop_on: bool,
    x_drop: i32,
    keep: bool,
) -> (out: (AlignResult, usize, usize, bool, Ghost<Band>, Kept))
    requires
        inputs_ok(q@, rf@, *m, g),
        1 <= h <= MAX_TOTAL_LEN + L,
        x_drop_on ==> x_drop >= 0,
    ensures
        run_result(
            q@,
            rf@,
            *m,
            g,
            h as int,
            x_drop_on,
            x_drop as int,
            out.4@,
            out.1 as int,
            out.2 as int,
            out.3,
            out.0,
        ),
        keep ==> kept_ok(
            q@,
            rf@,
            *m,
            g,
            out.4@,
            h as int,
            out.5.d@,
            out.5.r@,
            out.5.c@,
            out.5.tops@,
            out.1 as int,
        ),
{
    let ghost qs = q@;
    let ghost rs = rf@;
    let ghost x = x_drop as int;
    let qlen = q.len();
    let rlen = rf.len();
    let mut prev_d = neg_vec(h);
    let mut prev_c = neg_vec(h);
    let mut cur_d = neg_vec(h);
    let mut cur_c = neg_vec(h);
    let ghost mut band = Band { tops: seq![0int], h: h as int };
    let mut prev_r = neg_vec(h);
    let mut cur_r = neg_vec(h);
    first_column(q, rf, m, g, h, &mut prev_d, &mut prev_r, &mut prev_c, Ghost(band));
    let mut kept = Kept { d: Vec::new(), r: Vec::new(), c: Vec::new(), tops: Vec::new() };
    if keep {
        proof {
            lemma_kept_push(qs, rs, *m, g, band, h as int, kept.d@, kept.r@, kept.c@, kept.tops@, -1, prev_d@, prev_r@, prev_c@, 0);
        }
        append(&mut kept.d, &prev_d);
        append(&mut kept.r, &prev_r);
        append(&mut kept.c, &prev_c);
        kept.tops.push(0);
    }
    let (_, am0) = best_lane(&prev_d);
    let mut am: usize = am0;
    proof {
        assert(ints(prev_d@) =~= col_d(qs, rs, *m, g, band, 0));
    }
    assert forall|k: int| 0 <= k < h implies #[trigger] band_cell(qs, rs, *m, g, band, 0 + k, 0) == band_cell(
        qs,
        rs,
        *m,
        g,
        band,
        k,
        0,
    ) by {}
    let mut pt: usize = 0;
    let mut best: i32 = 0;
    let mut bi: usize = 0;
    let mut bj: usize = 0;
    let mut j: usize = 0;
    let mut dropped: bool = false;
    while j < rlen && !dropped
        invariant
            inputs_ok(qs, rs, *m, g),
            qs == q@,
            rs == rf@,
            qlen == qs.len(),
            rlen == rs.len(),
            1 <= h <= MAX_TOTAL_LEN + L,
            x_drop_on ==> x_drop >= 0,
            x == x_drop as int,
            j <= rlen,
            band.h == h as int,
            adaptive(qs, rs, *m, g, band, j as int),
            band.tops[j as int] == pt as int,
            pt <= top_cap(qlen as int, h as int),
            prev_d@.len() == h,
            prev_c@.len() == h,
            cur_d@.len() == h,
            cur_c@.len() == h,
            prev_r@.len() == h,
            cur_r@.len() == h,
            forall|k: int|
                0 <= k < h ==> prev_d@[k] as int == #[trigger] band_cell(
                    qs,
                    rs,
                    *m,
                    g,
                    band,
                    pt + k,
                    j as int,
                ).d && prev_c@[k] as int == band_cell(qs, rs, *m, g, band, pt + k, j as int).c
                    && prev_r@[k] as int == band_cell(qs, rs, *m, g, band, pt + k, j as int).r,
            am < h,
            am as int == col_best(qs, rs, *m, g, band, j as int).1,
            best >= 0,
            dropped ==> x_drop_on && j >= 1,
            !x_drop_on ==> !dropped,
            !dropped ==> (best as int, bi as int, bj as int) == xdrop_best(qs, rs, *m, g, band, j as int),
            dropped ==> (best as int, bi as int, bj as int) == xdrop_best(qs, rs, *m, g, band, j - 1),
            dropped ==> col_best(qs, rs, *m, g, band, j as int).0 < xdrop_best(qs, rs, *m, g, band, j - 1).0 - x,
            x_drop_on && !dropped ==> no_drop_upto(qs, rs, *m, g, band, x, j as int),
            x_drop_on && dropped ==> no_drop_upto(qs, rs, *m, g, band, x, j - 1),
            keep ==> kept_ok(qs, rs, *m, g, band, h as int, kept.d@, kept.r@, kept.c@, kept.tops@, j as int),
        decreases rlen - j,
    {
        let t = next_top_exec(pt, am, h, qlen);
        let ghost ob = band;
        proof {
            lemma_adaptive_push(qs, rs, *m, g, ob, j as int, t as int);
            band = Band { tops: ob.tops.push(t as int), h: ob.h };
            assert forall|jj: int| 0 <= jj <= j implies ob.tops[jj] == #[trigger] band.tops[jj] by {}
            assert forall|k: int| 0 <= k < h implies #[trigger] band_cell(qs, rs, *m, g, band, pt + k, j as int)
                == band_cell(qs, rs, *m, g, ob, pt + k, j as int) by {
                lemma_band_prefix(qs, rs, *m, g, band, ob, pt + k, j as int);
            }
            lemma_xdrop_prefix(qs, rs, *m, g, band, ob, j as int);
            if keep {
                lemma_kept_extend(qs, rs, *m, g, ob, band, h as int, kept.d@, kept.r@, kept.c@, kept.tops@, j as int);
            }
            assert forall|jj: int| 1 <= jj <= j implies #[trigger] col_best(qs, rs, *m, g, band, jj)
                == col_best(qs, rs, *m, g, ob, jj) && xdrop_best(qs, rs, *m, g, band, jj - 1) == xdrop_best(
                qs,
                rs,
                *m,
                g,
                ob,
                jj - 1,
            ) by {
                lemma_col_prefix(qs, rs, *m, g, band, ob, jj);
                lemma_xdrop_prefix(qs, rs, *m, g, band, ob, jj - 1);
            }
        }
        fill_column(q, rf, m, g, h, j + 1, pt, t, &prev_d, &prev_c, &mut cur_d, &mut cur_r, &mut cur_c, Ghost(band));
        std::mem::swap(&mut prev_d, &mut cur_d);
        std::mem::swap(&mut prev_r, &mut cur_r);
        std::mem::swap(&mut prev_c, &mut cur_c);
        if keep {
            proof {
                lemma_kept_push(qs, rs, *m, g, band, h as int, kept.d@, kept.r@, kept.c@, kept.tops@, j as int, prev_d@, prev_r@, prev_c@, t);
            }
            append(&mut kept.d, &prev_d);
            append(&mut kept.r, &prev_r);
            append(&mut kept.c, &prev_c);
            kept.tops.push(t);
        }
        let (cm, ca) = best_lane(&prev_d);
        proof {
            assert(ints(prev_d@) =~= col_d(qs, rs, *m, g, band, j + 1));
        }
        pt = t;
        j = j + 1;
        am = ca;
        if x_drop_on && cm < best - x_drop {
            dropped = true;
        } else if cm > best {
            best = cm;
            bi = t + ca;
            bj = j;
        }
    }
    // Push the band down the last column, one row at a time.
    let bot = pt + h;
    let mut depth: usize = bot - 1;
    let ghost best0 = best as int;
    let mut up_d: i32 = prev_d[h - 1];
    let mut up_r: i32 = prev_r[h - 1];
    let ghost col_dropped = dropped;
    proof {
        assert(band_cell(qs, rs, *m, g, band, pt + (h - 1), j as int).d == up_d);
        if !dropped {
            assert(last_col_cell(qs, rs, *m, g, band, depth as int) == band_cell(qs, rs, *m, g, band, depth as int, j as int));
        }
    }
    while depth < qlen && !dropped
        invariant
            inputs_ok(qs, rs, *m, g),
            qs == q@,
            rs == rf@,
            qlen == qs.len(),
            rlen == rs.len(),
            1 <= h <= MAX_TOTAL_LEN + L,
            x_drop_on ==> x_drop >= 0,
            x == x_drop as int,
            band.h == h as int,
            !col_dropped ==> j == rlen,
            band.tops[j as int] == pt as int,
            pt <= top_cap(qlen as int, h as int),
            bot == pt + h,
            bot - 1 <= depth,
            col_dropped ==> depth == bot - 1 && dropped,
            best as int == best0,
            best >= 0,
            !col_dropped ==> up_d as int == last_col_cell(qs, rs, *m, g, band, depth as int).d,
            !col_dropped ==> up_r as int == last_col_cell(qs, rs, *m, g, band, depth as int).r,
            !col_dropped && !dropped ==> depth <= qlen || depth == bot - 1,
            !col_dropped && x_drop_on ==> tail_no_drop(
                qs,
                rs,
                *m,
                g,
                band,
                best0,
                x,
                if dropped { depth - 1 } else { depth as int },
            ),
            !col_dropped && dropped ==> depth >= bot && depth <= qlen && last_col_cell(
                qs,
                rs,
                *m,
                g,
                band,
                depth as int,
            ).d < best0 - x,
            !x_drop_on ==> !dropped,
        decreases qlen - depth,
    {
        let i = depth + 1;
        proof {
            lemma_tail_bounds(qs, rs, *m, g, band, depth as int);
            assert(last_col_cell(qs, rs, *m, g, band, i as int).d == max2(
                plus(up_r as int, g.extend as int),
                plus(up_d as int, g.open as int),
            ));
        }
        let rr = max_i32(add_inf(up_r, g.extend as i32), add_inf(up_d, g.open as i32));
        depth = i;
        up_d = rr;
        up_r = rr;
        if x_drop_on && rr < best - x_drop {
            dropped = true;
        }
    }
    let res = if x_drop_on {
        AlignResult { score: best, query_idx: bi, reference_idx: bj }
    } else {
        proof {
            let kq = qlen - pt;
            if kq < h {
                assert(prev_d@[kq] as int == band_cell(qs, rs, *m, g, band, pt + kq, j as int).d);
                assert(last_col_cell(qs, rs, *m, g, band, qlen as int) == band_cell(qs, rs, *m, g, band, qlen as int, j as int));
            }
        }
        let s: i32 = if qlen - pt < h { prev_d[qlen - pt] } else { up_d };
        AlignResult { score: s, query_idx: qlen, reference_idx: rlen }
    };
    (res, j, depth, dropped, Ghost(band), kept)
}

/// Traceback store. `trace` holds two-bit direction codes, 16 to a word (see
/// `traceback::code_at`); `shift_dir` one bit per column, set when the band
/// moved down before it; `kept` the banded columns of the last alignment, from
/// which `ScanAligner::cigar` walks back. An aligner built with `TRACE` fills
/// all three; `add` and `dir` write single words and bits.
pub struct Trace {
    trace: Vec<u32>,
    shift_dir: Vec<u32>,
    idx: usize,
    kept: Kept,
}

impl Trace {
    /// Recorded direction words.
    pub closed spec fn words(&self) -> Seq<u32> {
        self.trace@
    }

    /// Shift-direction bitmap.
    pub closed spec fn shifts(&self) -> Seq<u32> {
        self.shift_dir@
    }

    /// Position of the next word to record.
    pub closed spec fn next(&self) -> int {
        self.idx as int
    }

    /// Word `k` of the store.
    pub fn word(&self, k: usize) -> (w: u32)
        requires
            k < self.words().len(),
        ensures
            w == self.words()[k as int],
    {
        self.trace[k]
    }

    /// Word `k` of the shift bitmap.
    pub fn shift_word(&self, k: usize) -> (w: u32)
        requires
            k < self.shifts().len(),
        ensures
            w == self.shifts()[k as int],
    {
        self.shift_dir[k]
    }

    /// A store sized for a query and a reference of the given lengths: one word
    /// per 16 cells of their combined length, one bitmap bit per `L` of them,
    /// all zero.
    pub fn new(query_len: usize, reference_len: usize) -> (t: Self)
        requires
            query_len + reference_len + 2 * L <= usize::MAX,
        ensures
            t.words() == Seq::new(
                ((query_len + reference_len + 15) / 16) as nat,
                |k: int| 0u32,
            ),
            t.shifts() == Seq::new(
                (((query_len + reference_len + L - 1) / (L as int) + 15) / 16) as nat,
                |k: int| 0u32,
            ),
            t.next() == 0,
    {
        let len = query_len + reference_len;
        let n_words = div_ceil(len, 16);
        let n_dirs = div_ceil(div_ceil(len, L), 16);
        let trace = zero_vec(n_words);
        let shift_dir = zero_vec(n_dirs);
        let kept = Kept { d: Vec::new(), r: Vec::new(), c: Vec::new(), tops: Vec::new() };
        let t = Trace { trace, shift_dir, idx: 0, kept };
        assert(t.words() =~= Seq::new(((query_len + reference_len + 15) / 16) as nat, |k: int| 0u32));
        assert(t.shifts() =~= Seq::new(
            (((query_len + reference_len + L - 1) / (L as int) + 15) / 16) as nat,
            |k: int| 0u32,
        ));
        t
    }

    /// Record word `t` at the next position and advance.
    pub fn add(&mut self, t: u32)
        requires
            old(self).next() < old(self).words().len(),
        ensures
            final(self).words() == old(self).words().update(old(self).next(), t),
            final(self).shifts() == old(self).shifts(),
            final(self).next() == old(self).next() + 1,
    {
        let n = self.trace.len();
        self.trace.set(self.idx, t);
        assert(self.idx < n);
        self.idx = self.idx + 1;
    }

    /// Or `d` into the shift bitmap at the bit of the current vector step
    /// (`next() / L`).
    pub fn dir(&mut self, d: u32)
        requires
            old(self).next() / (L as int) / 16 < old(self).shifts().len(),
        ensures
            ({
                let i = old(self).next() / (L as int);
                final(self).shifts() == old(self).shifts().update(
                    i / 16,
                    old(self).shifts()[i / 16] | (d << ((i % 16) as u32)),
                )
            }),
            final(self).words() == old(self).words(),
            final(self).next() == old(self).next(),
    {
        let i = self.idx / L;
        let w = self.shift_dir[i / 16] | (d << ((i % 16) as u32));
        self.shift_dir.set(i / 16, w);
    }
}

/// `v` has length `n` and holds zeros.
fn zero_vec(n: usize) -> (v: Vec<u32>)
    ensures
        v@ == Seq::new(n as nat, |k: int| 0u32),
{
    let mut v: Vec<u32> = Vec::new();
    let mut k: usize = 0;
    while k < n
        invariant
            k <= n,
            v@ == Seq::new(k as nat, |kk: int| 0u32),
        decreases n - k,
    {
        v.push(0);
        k = k + 1;
        assert(v@ =~= Seq::new(k as nat, |kk: int| 0u32));
    }
    v
}

/// Every byte of `s` is a valid symbol.
fn check_seq(s: &[u8]) -> (b: bool)
    ensures
        b == valid_seq(s@),
{
    let mut k: usize = 0;
    while k < s.len()
        invariant
            k <= s@.len(),
            forall|kk: int| 0 <= kk < k ==> #[trigger] valid_symbol(s@[kk]),
        decreases s@.len() - k,
    {
        if s[k] < FIRST || s[k] > NULL {
            assert(!valid_symbol(s@[k as int]));
            return false;
        }
        k = k + 1;
    }
    true
}

/// Adaptive banded aligner of one query against a reference, with band
/// parameter `K` (band height `band_height(K, |q|)`), optional traceback store and
/// optional X-drop termination.
pub struct ScanAligner<'a, const K: usize, const TRACE: bool, const X_DROP: bool> {
    trace: Trace,
    query: &'a [u8],
    matrix: &'a Matrix,
    gaps: Gaps,
    res: AlignResult,
    ref_idx: usize,
    depth: usize,
    dropped: bool,
    done: bool,
    band: Ghost<Band>,
    reference: Ghost<Seq<u8>>,
}

impl<'a, const K: usize, const TRACE: bool, const X_DROP: bool> ScanAligner<'a, K, TRACE, X_DROP> {
    pub closed spec fn query_view(&self) -> Seq<u8> {
        self.query@
    }

    pub closed spec fn matrix_view(&self) -> Matrix {
        *self.matrix
    }

    pub closed spec fn gaps_view(&self) -> Gaps {
        self.gaps
    }

    /// Result of the last alignment.
    pub closed spec fn result(&self) -> AlignResult {
        self.res
    }

    /// The band the last alignment walked.
    pub closed spec fn band_walked(&self) -> Band {
        self.band@
    }

    /// Number of reference symbols the last alignment consumed.
    pub closed spec fn columns(&self) -> int {
        self.ref_idx as int
    }

    /// The last query row the band covered in the last column it computed.
    pub closed spec fn rows_covered(&self) -> int {
        self.depth as int
    }

    /// Whether the X-drop test stopped the last alignment.
    pub closed spec fn stopped(&self) -> bool {
        self.dropped
    }

    /// The traceback store.
    pub closed spec fn trace_store(&self) -> Trace {
        self.trace
    }

    /// Whether an alignment has completed.
    pub closed spec fn aligned(&self) -> bool {
        self.done
    }

    /// The reference of the last alignment.
    pub closed spec fn reference_view(&self) -> Seq<u8> {
        self.reference@
    }

    pub closed spec fn wf(&self) -> bool {
        &&& self.matrix.wf()
        &&& self.gaps.wf()
        &&& valid_seq(self.query@)
        &&& self.query@.len() <= MAX_TOTAL_LEN
        &&& self.done ==> {
            let q = self.query@;
            let r = self.reference@;
            let band = self.band@;
            &&& valid_seq(r)
            &&& q.len() + r.len() <= MAX_TOTAL_LEN
            &&& band.h == band_height(K as int, self.query@.len() as int)
            &&& band.tops.len() == self.ref_idx + 1
            &&& self.ref_idx <= r.len()
            &&& self.res.query_idx <= q.len()
            &&& self.res.reference_idx <= self.ref_idx
            &&& band.tops[self.res.reference_idx as int] <= self.res.query_idx
            &&& self.res.query_idx >= band.tops[self.res.reference_idx as int] + band.h ==> {
                &&& self.res.reference_idx == r.len()
                &&& self.ref_idx == r.len()
                &&& self.res.query_idx == q.len()
                &&& self.res.score as int == last_col_cell(q, r, *self.matrix, self.gaps, band, q.len() as int).d
            }
            &&& self.res.query_idx < band.tops[self.res.reference_idx as int] + band_height(K as int, self.query@.len() as int) ==> self.res.score as int
                == band_cell(
                q,
                r,
                *self.matrix,
                self.gaps,
                band,
                self.res.query_idx as int,
                self.res.reference_idx as int,
            ).d
            &&& TRACE ==> kept_ok(
                q,
                r,
                *self.matrix,
                self.gaps,
                band,
                band_height(K as int, self.query@.len() as int),
                self.trace.kept.d@,
                self.trace.kept.r@,
                self.trace.kept.c@,
                self.trace.kept.tops@,
                self.ref_idx as int,
            )
        }
    }

    /// Prepare to align `query` with `matrix` and `gaps`.
    pub fn new(query: &'a [u8], matrix: &'a Matrix, gaps: Gaps) -> (r: Result<Self, AlignError>)
        requires
            matrix.wf(),
        ensures
            !gaps.wf() ==> r == Err::<Self, AlignError>(AlignError::GapConfig),
            gaps.wf() && !valid_seq(query@) ==> r == Err::<Self, AlignError>(
                AlignError::InvalidAlphabet,
            ),
            gaps.wf() && valid_seq(query@) && query@.len() > MAX_TOTAL_LEN ==> r == Err::<
                Self,
                AlignError,
            >(AlignError::SequenceTooLong),
            gaps.wf() && valid_seq(query@) && query@.len() <= MAX_TOTAL_LEN <==> r is Ok,
            r is Ok ==> ({
                let a = r->Ok_0;
                &&& a.wf()
                &&& a.query_view() == query@
                &&& a.matrix_view() == *matrix
                &&& a.gaps_view() == gaps
            }),
    {
        if gaps.open > gaps.extend || gaps.extend > 0 {
            return Err(AlignError::GapConfig);
        }
        if !check_seq(query) {
            return Err(AlignError::InvalidAlphabet);
        }
        if query.len() > MAX_TOTAL_LEN {
            return Err(AlignError::SequenceTooLong);
        }
        Ok(ScanAligner {
            trace: Trace::new(query.len(), 0),
            query,
            matrix,
            gaps,
            res: AlignResult { score: 0, query_idx: 0, reference_idx: 0 },
            ref_idx: 0,
            depth: 0,
            dropped: false,
            done: false,
            band: Ghost(Band { tops: seq![0int], h: band_height(K as int, query@.len() as int) }),
            reference: Ghost(Seq::empty()),
        })
    }

    /// Align the query against `reference`: the adaptive band walks the whole
    /// reference (global score at the bottom-right cell) or, with X-drop, until
    /// a column's maximum falls more than `x_drop` below the best seen.
    pub fn align(&mut self, reference: &[u8], x_drop: i32) -> (r: Result<(), AlignError>)
        requires
            old(self).wf(),
            X_DROP ==> x_drop >= 0,
        ensures
            final(self).wf(),
            final(self).query_view() == old(self).query_view(),
            final(self).matrix_view() == old(self).matrix_view(),
            final(self).gaps_view() == old(self).gaps_view(),
            !valid_seq(reference@) <==> r == Err::<(), AlignError>(AlignError::InvalidAlphabet),
            valid_seq(reference@) && old(self).query_view().len() + reference@.len() > MAX_TOTAL_LEN
                <==> r == Err::<(), AlignError>(AlignError::SequenceTooLong),
            valid_seq(reference@) && old(self).query_view().len() + reference@.len() <= MAX_TOTAL_LEN <==> r is Ok,
            r is Ok ==> final(self).aligned() && final(self).reference_view() == reference@,
            r is Ok && TRACE ==> trace_words_ok(
                final(self).query_view(),
                reference@,
                final(self).matrix_view(),
                final(self).gaps_view(),
                final(self).band_walked(),
                band_height(K as int, final(self).query_view().len() as int),
                final(self).trace_store().words(),
                final(self).trace_store().shifts(),
                final(self).columns(),
            ),
            r is Err ==> final(self).result() == old(self).result() && final(self).aligned() == old(
                self,
            ).aligned(),
            r is Ok ==> run_result(
                final(self).query_view(),
                reference@,
                final(self).matrix_view(),
                final(self).gaps_view(),
                band_height(K as int, final(self).query_view().len() as int),
                X_DROP,
                x_drop as int,
                final(self).band_walked(),
                final(self).columns(),
                final(self).rows_covered(),
                final(self).stopped(),
                final(self).result(),
            ),
            r is Ok && !X_DROP && reference@.len() == 0 && final(self).query_view().len() >= 1
                ==> final(self).result().score == final(self).gaps_view().open + (final(self).query_view().len()
                - 1) * final(self).gaps_view().extend,
            r is Ok && !X_DROP && K >= final(self).query_view().len()
                ==> final(self).result().score == global_score(
                final(self).query_view(),
                reference@,
                final(self).matrix_view(),
                final(self).gaps_view(),
            ),
    {
        if !check_seq(reference) {
            return Err(AlignError::InvalidAlphabet);
        }
        if reference.len() > MAX_TOTAL_LEN - self.query.len() {
            return Err(AlignError::SequenceTooLong);
        }
        let h = band_height_exec(K, self.query.len());
        let (res, last, depth, dropped, band, kept) = run_band(
            self.query,
            reference,
            self.matrix,
            self.gaps,
            h,
            X_DROP,
            x_drop,
            TRACE,
        );
        self.res = res;
        self.ref_idx = last;
        self.depth = depth;
        self.dropped = dropped;
        self.band = band;
        if TRACE {
            let words = pack_codes(&kept.d, &kept.r, &kept.c);
            let shifts = pack_shifts(&kept.tops);
            proof {
                lemma_trace_words(
                    self.query@,
                    reference@,
                    *self.matrix,
                    self.gaps,
                    band@,
                    h as int,
                    kept.d@,
                    kept.r@,
                    kept.c@,
                    kept.tops@,
                    last as int,
                    words@,
                    shifts@,
                );
            }
            self.trace.idx = words.len();
            self.trace.trace = words;
            self.trace.shift_dir = shifts;
        }
        self.trace.kept = kept;
        self.done = true;
        self.reference = Ghost(reference@);
        proof {
            let q = self.query@;
            let bd = band@;
            let hh = band_height(K as int, self.query@.len() as int);
            if !X_DROP {
                if q.len() < bd.tops[reference@.len() as int] + hh {
                    assert(last_col_cell(q, reference@, *self.matrix, self.gaps, bd, q.len() as int) == band_cell(
                        q,
                        reference@,
                        *self.matrix,
                        self.gaps,
                        bd,
                        q.len() as int,
                        reference@.len() as int,
                    ));
                }
                if K >= q.len() {
                    let ql = q.len() as int;
                    assert((ql + 16) / 16 * 16 > ql) by (nonlinear_arith)
                        requires
                            ql >= 0,
                    ;
                }
                if reference@.len() == 0 && q.len() >= 1 {
                    let x = K as int;
                    let kk = if x < q.len() { x } else { q.len() as int };
                    assert((kk + 16) / 16 * 16 >= 16) by (nonlinear_arith)
                        requires
                            kk >= 0,
                    ;
                    lemma_empty_reference_any_band(q, reference@, *self.matrix, self.gaps, bd);
                }
                if hh > q.len() {
                    lemma_wide_band_exact(q, reference@, *self.matrix, self.gaps, bd);
                    lemma_wide_band_stays(q, reference@, *self.matrix, self.gaps, bd, last as int);
                }
            } else {
                let jb = if dropped && depth < bd.tops[last as int] + hh { last - 1 } else { last as int };
                lemma_xdrop_cell(q, reference@, *self.matrix, self.gaps, bd, jb);
                let b = xdrop_best(q, reference@, *self.matrix, self.gaps, bd, jb);
                assert(in_band(q, reference@, bd, b.1, b.2));
            }
        }
        Ok(())
    }

    /// The last query row the band covered in the last column it computed.
    pub fn covered_row(&self) -> (d: usize)
        ensures
            d as int == self.rows_covered(),
    {
        self.depth
    }

    /// Whether the X-drop test stopped the last alignment early.
    pub fn stopped_early(&self) -> (b: bool)
        ensures
            b == self.stopped(),
    {
        self.dropped
    }

    /// Score of the last alignment.
    pub fn score(&self) -> (s: i32)
        ensures
            s == self.result().score,
    {
        self.res.score
    }

    /// End cell of the last alignment.
    pub fn end_idx(&self) -> (e: EndIndex)
        ensures
            e.query_idx == self.result().query_idx,
            e.ref_idx == self.result().reference_idx,
    {
        EndIndex { query_idx: self.res.query_idx, ref_idx: self.res.reference_idx }
    }

    /// Score and end cell of the last alignment.
    pub fn res(&self) -> (r: AlignResult)
        ensures
            r == self.result(),
    {
        self.res
    }

    /// The alignment that the last run reports, as one `M` / `I` / `D`
    /// operation per step from the origin to the end cell. Needs an aligner
    /// built with `TRACE` that has aligned `reference`; fails with
    /// `BandOutOfRange` when the end cell is unreachable. An end cell below the
    /// band, reached by pushing the band down the last column, is reached by a
    /// run of `I` from the band's bottom cell.
    pub fn cigar(&self, reference: &[u8]) -> (r: Result<Vec<u8>, AlignError>)
        requires
            self.wf(),
            self.aligned() ==> reference@ == self.reference_view(),
        ensures
            !TRACE || !self.aligned() ==> r == Err::<Vec<u8>, AlignError>(AlignError::TraceDisabled),
            TRACE && self.aligned() && self.result().score == NEG_INF ==> r == Err::<Vec<u8>, AlignError>(
                AlignError::BandOutOfRange,
            ),
            TRACE && self.aligned() && self.result().score != NEG_INF <==> r is Ok,
            r is Ok ==> {
                let ops = r->Ok_0@;
                &&& ops_valid(ops)
                &&& ops_cost(
                    self.query_view(),
                    reference@,
                    self.matrix_view(),
                    self.gaps_view(),
                    ops,
                    0,
                    0,
                    OP_M,
                ) == self.result().score as int
                &&& ops_end(ops, 0, 0) == (self.result().query_idx as int, self.result().reference_idx as int)
            },
    {
        if !TRACE || !self.done {
            return Err(AlignError::TraceDisabled);
        }
        if self.res.score == NEG_INF {
            return Err(AlignError::BandOutOfRange);
        }
        let ghost q = self.query@;
        let ghost band = self.band@;
        let ghost target = self.res.score as int;
        let rj = self.res.reference_idx;
        let qi = self.res.query_idx;
        let t = self.trace.kept.tops[rj];
        let h = band_height_exec(K, self.query.len());
        proof {
            assert(self.trace.kept.tops@[rj as int] as int == band.tops[rj as int]);
        }
        let ops = if qi - t < h {
            proof {
                let x = band_cell(q, reference@, *self.matrix, self.gaps, band, qi as int, rj as int);
                assert(x.d == target);
                lemma_insert_run(q, reference@, *self.matrix, self.gaps, 0, qi as int, rj as int, OP_M);
                assert(repeat(0, OP_I) =~= Seq::<u8>::empty());
            }
            walk_back(
                self.query,
                reference,
                self.matrix,
                self.gaps,
                h,
                &self.trace.kept,
                qi,
                rj,
                0,
                0,
                Ghost(band),
                Ghost(self.ref_idx as int),
                Ghost(target),
            )
        } else {
            // The end cell lies below the band in the last column: a gap runs
            // down to it from the band's bottom cell.
            let b = t + h - 1;
            let ghost bi = b as int;
            let ghost up = band_cell(q, reference@, *self.matrix, self.gaps, band, bi, rj as int);
            proof {
                lemma_index(rj as int, h - 1, h as int, self.ref_idx + 1);
                assert(band_cell(q, reference@, *self.matrix, self.gaps, band, band.tops[rj as int] + (h - 1), rj as int)
                    == up);
                lemma_band_bounds(q, reference@, *self.matrix, self.gaps, band, bi, rj as int);
            }
            let bd = kept_value(&self.trace.kept.d, &self.trace.kept.tops, h, b, rj, Ghost(self.ref_idx as int));
            let br = kept_value(&self.trace.kept.r, &self.trace.kept.tops, h, b, rj, Ghost(self.ref_idx as int));
            let tv = max_i32(add_inf(br, self.gaps.extend as i32), add_inf(bd, self.gaps.open as i32));
            let st0: u8 = if br != NEG_INF && br + (self.gaps.extend as i32) == tv { 1 } else { 0 };
            let n = qi - b;
            proof {
                let bot = bi + 1;
                let g = self.gaps;
                assert(bd as int == up.d && br as int == up.r);
                assert(rj as int == reference@.len());
                assert(bot == band.tops[rj as int] + band.h);
                assert(last_col_cell(q, reference@, *self.matrix, g, band, bi) == up);
                let top = last_col_cell(q, reference@, *self.matrix, g, band, bot);
                assert(top.d == tv as int);
                if tv == NEG_INF {
                    // Every pushed row would be unreachable.
                    lemma_tail_bounds(q, reference@, *self.matrix, g, band, bot);
                    assert(false) by {
                        lemma_tail_chain_neg(q, reference@, *self.matrix, g, band, qi as int);
                    }
                }
                lemma_tail_chain(q, reference@, *self.matrix, g, band, qi as int);
                lemma_insert_run(q, reference@, *self.matrix, g, n as nat, bi, rj as int, prev_op(st0 as int));
            }
            walk_back(
                self.query,
                reference,
                self.matrix,
                self.gaps,
                h,
                &self.trace.kept,
                b,
                rj,
                st0,
                n,
                Ghost(band),
                Ghost(self.ref_idx as int),
                Ghost(target),
            )
        };
        Ok(ops)
    }

    /// The traceback store, which only an aligner built with `TRACE` keeps.
    /// `align` states what it holds (`trace_words_ok`); `cigar` rebuilds the
    /// alignment from it.
    pub fn trace(&self) -> (r: Result<&Trace, AlignError>)
        ensures
            TRACE <==> r is Ok,
            !TRACE ==> r == Err::<&Trace, AlignError>(AlignError::TraceDisabled),
            r is Ok ==> *r->Ok_0 == self.trace_store(),
    {
        if TRACE {
            Ok(&self.trace)
        } else {
            Err(AlignError::TraceDisabled)
        }
    }
}

} // verus!
