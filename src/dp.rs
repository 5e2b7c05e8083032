//! The dynamic programme that the aligner computes, stated over mathematical
//! integers: the exact affine-gap (Gotoh) recurrence, its banded restriction,
//! and the adaptive rule that places the band column by column.
//!
//! Rows `i` range over query prefixes (`0..=q.len()`), columns `j` over
//! reference prefixes (`0..=r.len()`). `D` is the best score of an alignment of
//! the two prefixes, `R` of one that ends in a gap in the reference (a run of
//! query symbols, walked down a column), `C` of one that ends in a gap in the
//! query (walked along a row). An unreachable value is `NEG_INF`.
use vstd::prelude::*;
use crate::scores::{is_identity_scoring, valid_seq, valid_symbol, Gaps, Matrix};

verus! {

/// Minus infinity: an unreachable cell. It is absorbing under `plus`.
pub const NEG_INF: i32 = -2147483648;

/// The largest supported `query.len() + reference.len()`; every finite score
/// then fits in an `i32` with room to spare.
pub const MAX_TOTAL_LEN: usize = 8388608;

/// The three planes of one cell.
pub struct Cell {
    pub d: int,
    pub r: int,
    pub c: int,
}

pub open spec fn neg_cell() -> Cell {
    Cell { d: NEG_INF as int, r: NEG_INF as int, c: NEG_INF as int }
}

/// Addition in which `NEG_INF` stays `NEG_INF`.
pub open spec fn plus(a: int, b: int) -> int {
    if a == NEG_INF {
        NEG_INF as int
    } else {
        a + b
    }
}

pub open spec fn max2(a: int, b: int) -> int {
    if a >= b {
        a
    } else {
        b
    }
}

pub open spec fn max3(a: int, b: int, c: int) -> int {
    max2(max2(a, b), c)
}

/// Score of query symbol `i - 1` against reference symbol `j - 1`.
pub open spec fn pair_score(q: Seq<u8>, r: Seq<u8>, m: Matrix, i: int, j: int) -> int {
    m.sc(q[i - 1], r[j - 1])
}

/// Combine the neighbours of cell `(i, j)` by the affine-gap recurrence.
pub open spec fn step(
    q: Seq<u8>,
    r: Seq<u8>,
    m: Matrix,
    g: Gaps,
    i: int,
    j: int,
    up: Cell,
    left: Cell,
    diag: Cell,
) -> Cell {
    let rr = max2(plus(up.r, g.extend as int), plus(up.d, g.open as int));
    let cc = max2(plus(left.c, g.extend as int), plus(left.d, g.open as int));
    let dd = if i == 0 && j == 0 {
        0
    } else {
        max3(plus(diag.d, pair_score(q, r, m, i, j)), rr, cc)
    };
    Cell { d: dd, r: rr, c: cc }
}

/// The exact global DP over the whole matrix.
pub open spec fn dp_cell(q: Seq<u8>, r: Seq<u8>, m: Matrix, g: Gaps, i: int, j: int) -> Cell
    decreases j, i,
{
    if i < 0 || j < 0 || i > q.len() || j > r.len() {
        neg_cell()
    } else {
        let up = if i > 0 {
            dp_cell(q, r, m, g, i - 1, j)
        } else {
            neg_cell()
        };
        let left = if j > 0 {
            dp_cell(q, r, m, g, i, j - 1)
        } else {
            neg_cell()
        };
        let diag = if i > 0 && j > 0 {
            dp_cell(q, r, m, g, i - 1, j - 1)
        } else {
            neg_cell()
        };
        step(q, r, m, g, i, j, up, left, diag)
    }
}

/// The exact global alignment score of `q` against `r`.
pub open spec fn global_score(q: Seq<u8>, r: Seq<u8>, m: Matrix, g: Gaps) -> int {
    dp_cell(q, r, m, g, q.len() as int, r.len() as int).d
}

/// A band: column `j` covers rows `tops[j] .. tops[j] + h`.
pub struct Band {
    pub tops: Seq<int>,
    pub h: int,
}

pub open spec fn in_band(q: Seq<u8>, r: Seq<u8>, band: Band, i: int, j: int) -> bool {
    &&& 0 <= j <= r.len()
    &&& j < band.tops.len()
    &&& 0 <= i <= q.len()
    &&& band.tops[j] <= i < band.tops[j] + band.h
}

/// The DP restricted to a band: every cell outside it is unreachable.
pub open spec fn band_cell(
    q: Seq<u8>,
    r: Seq<u8>,
    m: Matrix,
    g: Gaps,
    band: Band,
    i: int,
    j: int,
) -> Cell
    decreases j, i,
{
    if !in_band(q, r, band, i, j) || i < 0 || j < 0 {
        neg_cell()
    } else {
        let up = if i > 0 {
            band_cell(q, r, m, g, band, i - 1, j)
        } else {
            neg_cell()
        };
        let left = if j > 0 {
            band_cell(q, r, m, g, band, i, j - 1)
        } else {
            neg_cell()
        };
        let diag = if i > 0 && j > 0 {
            band_cell(q, r, m, g, band, i - 1, j - 1)
        } else {
            neg_cell()
        };
        step(q, r, m, g, i, j, up, left, diag)
    }
}

/// Maximum and first position of it among `s[0..n]`.
pub open spec fn seq_best(s: Seq<int>, n: int) -> (int, int)
    decreases n,
{
    if n <= 1 {
        (s[0], 0)
    } else {
        let (bm, ba) = seq_best(s, n - 1);
        if s[n - 1] > bm {
            (s[n - 1], n - 1)
        } else {
            (bm, ba)
        }
    }
}

/// The `D` values of column `j` of the band, lane `k` being row `tops[j] + k`.
pub open spec fn col_d(q: Seq<u8>, r: Seq<u8>, m: Matrix, g: Gaps, band: Band, j: int) -> Seq<int> {
    Seq::new(band.h as nat, |k: int| band_cell(q, r, m, g, band, band.tops[j] + k, j).d)
}

/// Maximum of column `j` of the band and its first lane.
pub open spec fn col_best(q: Seq<u8>, r: Seq<u8>, m: Matrix, g: Gaps, band: Band, j: int) -> (
    int,
    int,
) {
    seq_best(col_d(q, r, m, g, band, j), band.h)
}

/// The lowest top that keeps the last query row inside a band of height `h`.
pub open spec fn top_cap(qlen: int, h: int) -> int {
    if qlen + 1 > h {
        qlen + 1 - h
    } else {
        0
    }
}

/// Where the band stands in the next column, given the lane of the current
/// column's maximum: when that lane lies below five eighths of the band, the
/// band moves down to recentre it, never past `top_cap`.
pub open spec fn next_top(top: int, argmax: int, h: int, qlen: int) -> int {
    if argmax > h * 5 / 8 {
        let want = top + argmax - h / 2;
        let cap = top_cap(qlen, h);
        if want < cap {
            want
        } else {
            cap
        }
    } else {
        top
    }
}

/// The band's placement follows the adaptive rule up to column `last`.
pub open spec fn adaptive(q: Seq<u8>, r: Seq<u8>, m: Matrix, g: Gaps, band: Band, last: int) -> bool {
    &&& band.tops.len() == last + 1
    &&& band.tops[0] == 0
    &&& forall|j: int|
        0 <= j < last ==> band.tops[j + 1] == next_top(
            band.tops[j],
            #[trigger] col_best(q, r, m, g, band, j).1,
            band.h,
            q.len() as int,
        )
}

/// `v` is unreachable or a score that `i + j` steps of at most 128 in size can reach.
pub open spec fn bounded(v: int, i: int, j: int) -> bool {
    v == NEG_INF || (-128 * (i + j) <= v && v <= 127 * (i + j))
}

pub open spec fn cell_bounded(x: Cell, i: int, j: int) -> bool {
    bounded(x.d, i, j) && bounded(x.r, i, j) && bounded(x.c, i, j)
}

/// Every value of the banded DP is unreachable or within the reach of its steps.
pub proof fn lemma_band_bounds(
    q: Seq<u8>,
    r: Seq<u8>,
    m: Matrix,
    g: Gaps,
    band: Band,
    i: int,
    j: int,
)
    requires
        g.wf(),
    ensures
        cell_bounded(band_cell(q, r, m, g, band, i, j), i, j),
    decreases j, i,
{
    if in_band(q, r, band, i, j) && i >= 0 && j >= 0 {
        if i > 0 {
            lemma_band_bounds(q, r, m, g, band, i - 1, j);
        }
        if j > 0 {
            lemma_band_bounds(q, r, m, g, band, i, j - 1);
        }
        if i > 0 && j > 0 {
            lemma_band_bounds(q, r, m, g, band, i - 1, j - 1);
        }
        let s = pair_score(q, r, m, i, j);
        assert(-128 <= s <= 127);
    }
}

/// Column `j` of a band depends only on where the band stands in columns `0..=j`.
pub proof fn lemma_band_prefix(
    q: Seq<u8>,
    r: Seq<u8>,
    m: Matrix,
    g: Gaps,
    b1: Band,
    b2: Band,
    i: int,
    j: int,
)
    requires
        b1.h == b2.h,
        j < b1.tops.len(),
        j < b2.tops.len(),
        forall|jj: int| 0 <= jj <= j ==> b1.tops[jj] == #[trigger] b2.tops[jj],
    ensures
        band_cell(q, r, m, g, b1, i, j) == band_cell(q, r, m, g, b2, i, j),
    decreases j, i,
{
    if in_band(q, r, b1, i, j) && i >= 0 && j >= 0 {
        if i > 0 {
            lemma_band_prefix(q, r, m, g, b1, b2, i - 1, j);
        }
        if j > 0 {
            lemma_band_prefix(q, r, m, g, b1, b2, i, j - 1);
        }
        if i > 0 && j > 0 {
            lemma_band_prefix(q, r, m, g, b1, b2, i - 1, j - 1);
        }
    }
}

/// Best column maximum over columns `1..=j` and the cell holding it, starting
/// from the empty alignment: `(score, query row, reference column)`. A later
/// column replaces the best only when it is strictly larger.
pub open spec fn xdrop_best(q: Seq<u8>, r: Seq<u8>, m: Matrix, g: Gaps, band: Band, j: int) -> (
    int,
    int,
    int,
)
    decreases j,
{
    if j <= 0 {
        (0, 0, 0)
    } else {
        let prev = xdrop_best(q, r, m, g, band, j - 1);
        let (mx, am) = col_best(q, r, m, g, band, j);
        if mx > prev.0 {
            (mx, band.tops[j] + am, j)
        } else {
            prev
        }
    }
}

/// Column `j` read by two bands that agree up to it.
pub proof fn lemma_col_prefix(q: Seq<u8>, r: Seq<u8>, m: Matrix, g: Gaps, b1: Band, b2: Band, j: int)
    requires
        b1.h == b2.h,
        0 <= j,
        j < b1.tops.len(),
        j < b2.tops.len(),
        forall|jj: int| 0 <= jj <= j ==> b1.tops[jj] == #[trigger] b2.tops[jj],
    ensures
        col_d(q, r, m, g, b1, j) == col_d(q, r, m, g, b2, j),
        col_best(q, r, m, g, b1, j) == col_best(q, r, m, g, b2, j),
{
    assert forall|k: int| 0 <= k < b1.h implies #[trigger] col_d(q, r, m, g, b1, j)[k] == col_d(
        q,
        r,
        m,
        g,
        b2,
        j,
    )[k] by {
        lemma_band_prefix(q, r, m, g, b1, b2, b1.tops[j] + k, j);
    }
    assert(col_d(q, r, m, g, b1, j) =~= col_d(q, r, m, g, b2, j));
}

/// The running best read by two bands that agree up to column `j`.
pub proof fn lemma_xdrop_prefix(q: Seq<u8>, r: Seq<u8>, m: Matrix, g: Gaps, b1: Band, b2: Band, j: int)
    requires
        b1.h == b2.h,
        j < b1.tops.len(),
        j < b2.tops.len(),
        forall|jj: int| 0 <= jj <= j ==> b1.tops[jj] == #[trigger] b2.tops[jj],
    ensures
        xdrop_best(q, r, m, g, b1, j) == xdrop_best(q, r, m, g, b2, j),
    decreases j,
{
    if j > 0 {
        lemma_xdrop_prefix(q, r, m, g, b1, b2, j - 1);
        lemma_col_prefix(q, r, m, g, b1, b2, j);
    }
}

/// Placing one more column by the adaptive rule keeps the band adaptive.
pub proof fn lemma_adaptive_push(q: Seq<u8>, r: Seq<u8>, m: Matrix, g: Gaps, band: Band, last: int, t: int)
    requires
        0 <= last,
        adaptive(q, r, m, g, band, last),
        t == next_top(band.tops[last], col_best(q, r, m, g, band, last).1, band.h, q.len() as int),
    ensures
        adaptive(q, r, m, g, Band { tops: band.tops.push(t), h: band.h }, last + 1),
{
    let nb = Band { tops: band.tops.push(t), h: band.h };
    assert forall|j: int| 0 <= j < last + 1 implies nb.tops[j + 1] == next_top(
        nb.tops[j],
        #[trigger] col_best(q, r, m, g, nb, j).1,
        nb.h,
        q.len() as int,
    ) by {
        lemma_col_prefix(q, r, m, g, band, nb, j);
    }
}

/// A band that stands at the top in every column and is taller than the query
/// loses nothing: it computes the exact DP.
pub proof fn lemma_full_band(q: Seq<u8>, r: Seq<u8>, m: Matrix, g: Gaps, band: Band, i: int, j: int)
    requires
        band.h > q.len(),
        forall|jj: int| 0 <= jj < band.tops.len() ==> #[trigger] band.tops[jj] == 0,
        0 <= i <= q.len(),
        0 <= j <= r.len(),
        j < band.tops.len(),
    ensures
        band_cell(q, r, m, g, band, i, j) == dp_cell(q, r, m, g, i, j),
    decreases j, i,
{
    if i > 0 {
        lemma_full_band(q, r, m, g, band, i - 1, j);
    }
    if j > 0 {
        lemma_full_band(q, r, m, g, band, i, j - 1);
    }
    if i > 0 && j > 0 {
        lemma_full_band(q, r, m, g, band, i - 1, j - 1);
    }
}

/// A band taller than the query never moves.
pub proof fn lemma_wide_band_stays(q: Seq<u8>, r: Seq<u8>, m: Matrix, g: Gaps, band: Band, last: int)
    requires
        adaptive(q, r, m, g, band, last),
        band.h > q.len(),
    ensures
        forall|jj: int| 0 <= jj < band.tops.len() ==> #[trigger] band.tops[jj] == 0,
{
    assert forall|jj: int| 0 <= jj < band.tops.len() implies #[trigger] band.tops[jj] == 0 by {
        lemma_wide_band_stays_upto(q, r, m, g, band, last, jj);
    }
}

proof fn lemma_wide_band_stays_upto(
    q: Seq<u8>,
    r: Seq<u8>,
    m: Matrix,
    g: Gaps,
    band: Band,
    last: int,
    jj: int,
)
    requires
        adaptive(q, r, m, g, band, last),
        band.h > q.len(),
        0 <= jj <= last,
    ensures
        band.tops[jj] == 0,
    decreases jj,
{
    if jj > 0 {
        lemma_wide_band_stays_upto(q, r, m, g, band, last, jj - 1);
        let am = col_best(q, r, m, g, band, jj - 1).1;
        assert(band.tops[jj] == next_top(band.tops[jj - 1], am, band.h, q.len() as int));
        let h = band.h;
        assert(h * 5 / 8 >= h / 2) by (nonlinear_arith)
            requires
                h >= 0,
        ;
    }
}

/// With a band at least as tall as the query (plus its empty prefix), the
/// adaptive banded score over the whole reference is the exact global score.
pub proof fn lemma_wide_band_exact(q: Seq<u8>, r: Seq<u8>, m: Matrix, g: Gaps, band: Band)
    requires
        adaptive(q, r, m, g, band, r.len() as int),
        band.h > q.len(),
    ensures
        band_cell(q, r, m, g, band, q.len() as int, r.len() as int).d == global_score(q, r, m, g),
{
    lemma_wide_band_stays(q, r, m, g, band, r.len() as int);
    lemma_full_band(q, r, m, g, band, q.len() as int, r.len() as int);
}

proof fn lemma_first_row(q: Seq<u8>, r: Seq<u8>, m: Matrix, g: Gaps, j: int)
    requires
        g.wf(),
        1 <= j <= r.len(),
        r.len() <= MAX_TOTAL_LEN,
    ensures
        dp_cell(q, r, m, g, 0, j).d == g.open + (j - 1) * g.extend,
        dp_cell(q, r, m, g, 0, j).c == g.open + (j - 1) * g.extend,
        dp_cell(q, r, m, g, 0, j).r == NEG_INF,
    decreases j,
{
    if j > 1 {
        lemma_first_row(q, r, m, g, j - 1);
        assert(g.open + (j - 2) * g.extend >= -128 * j) by (nonlinear_arith)
            requires
                g.open >= -128,
                g.extend >= -128,
                g.extend <= 0,
                j >= 2,
        ;
        assert((j - 1) * g.extend == (j - 2) * g.extend + g.extend) by (nonlinear_arith);
    }
    let z = dp_cell(q, r, m, g, 0, 0);
    assert(z.d == 0 && z.c == NEG_INF && z.r == NEG_INF);
}

pub proof fn lemma_first_col(q: Seq<u8>, r: Seq<u8>, m: Matrix, g: Gaps, i: int)
    requires
        g.wf(),
        1 <= i <= q.len(),
        q.len() <= MAX_TOTAL_LEN,
    ensures
        dp_cell(q, r, m, g, i, 0).d == g.open + (i - 1) * g.extend,
        dp_cell(q, r, m, g, i, 0).r == g.open + (i - 1) * g.extend,
        dp_cell(q, r, m, g, i, 0).c == NEG_INF,
    decreases i,
{
    if i > 1 {
        lemma_first_col(q, r, m, g, i - 1);
        assert(g.open + (i - 2) * g.extend >= -128 * i) by (nonlinear_arith)
            requires
                g.open >= -128,
                g.extend >= -128,
                g.extend <= 0,
                i >= 2,
        ;
        assert((i - 1) * g.extend == (i - 2) * g.extend + g.extend) by (nonlinear_arith);
    }
    let z = dp_cell(q, r, m, g, 0, 0);
    assert(z.d == 0 && z.c == NEG_INF && z.r == NEG_INF);
}

/// Aligning an empty query against a reference of length `n >= 1` costs one
/// gap of length `n`: `open + (n - 1) * extend`.
pub proof fn lemma_empty_query(q: Seq<u8>, r: Seq<u8>, m: Matrix, g: Gaps)
    requires
        g.wf(),
        q.len() == 0,
        1 <= r.len() <= MAX_TOTAL_LEN,
    ensures
        global_score(q, r, m, g) == g.open + (r.len() - 1) * g.extend,
{
    lemma_first_row(q, r, m, g, r.len() as int);
}

/// Aligning a query of length `n >= 1` against an empty reference costs one
/// gap of length `n`: `open + (n - 1) * extend`.
pub proof fn lemma_empty_reference(q: Seq<u8>, r: Seq<u8>, m: Matrix, g: Gaps)
    requires
        g.wf(),
        r.len() == 0,
        1 <= q.len() <= MAX_TOTAL_LEN,
    ensures
        global_score(q, r, m, g) == g.open + (q.len() - 1) * g.extend,
{
    lemma_first_col(q, r, m, g, q.len() as int);
}

/// One query symbol against one reference symbol scores their matrix entry,
/// whenever that entry is no worse than opening two gaps.
pub proof fn lemma_single_symbols(q: Seq<u8>, r: Seq<u8>, m: Matrix, g: Gaps)
    requires
        g.wf(),
        q.len() == 1,
        r.len() == 1,
        m.sc(q[0], r[0]) >= 2 * g.open,
    ensures
        global_score(q, r, m, g) == m.sc(q[0], r[0]),
{
    lemma_first_row(q, r, m, g, 1);
    lemma_first_col(q, r, m, g, 1);
    let z = dp_cell(q, r, m, g, 0, 0);
    assert(z.d == 0 && z.c == NEG_INF && z.r == NEG_INF);
    let x = dp_cell(q, r, m, g, 1, 1);
    assert(x.r == 2 * g.open);
    assert(x.c == 2 * g.open);
}

/// Score of the gap-free alignment of the first `n` symbols of `q` and `r`.
pub open spec fn diag_sum(q: Seq<u8>, r: Seq<u8>, m: Matrix, n: int) -> int
    decreases n,
{
    if n <= 0 {
        0
    } else {
        diag_sum(q, r, m, n - 1) + m.sc(q[n - 1], r[n - 1])
    }
}

/// Number of positions among the first `n` at which the two sequences hold
/// different nucleotide symbols (different low nibbles).
pub open spec fn mismatches(q: Seq<u8>, r: Seq<u8>, n: int) -> int
    decreases n,
{
    if n <= 0 {
        0
    } else {
        mismatches(q, r, n - 1) + (if q[n - 1] % 16 != r[n - 1] % 16 {
            1int
        } else {
            0int
        })
    }
}

proof fn lemma_diag_lower(q: Seq<u8>, r: Seq<u8>, m: Matrix, g: Gaps, n: int)
    requires
        g.wf(),
        0 <= n <= q.len(),
        n <= r.len(),
        q.len() + r.len() <= MAX_TOTAL_LEN,
    ensures
        dp_cell(q, r, m, g, n, n).d >= diag_sum(q, r, m, n),
        diag_sum(q, r, m, n) >= -128 * n,
    decreases n,
{
    if n > 0 {
        lemma_diag_lower(q, r, m, g, n - 1);
        let s = m.sc(q[n - 1], r[n - 1]);
        assert(-128 <= s);
    }
}

proof fn lemma_identity_diag(q: Seq<u8>, r: Seq<u8>, m: Matrix, n: int)
    requires
        is_identity_scoring(m),
        valid_seq(q),
        valid_seq(r),
        0 <= n <= q.len(),
        n <= r.len(),
    ensures
        diag_sum(q, r, m, n) == n - 2 * mismatches(q, r, n),
    decreases n,
{
    if n > 0 {
        lemma_identity_diag(q, r, m, n - 1);
        assert(valid_symbol(q[n - 1]) && valid_symbol(r[n - 1]));
        assert(m.sc(q[n - 1], r[n - 1]) == (if q[n - 1] % 16 == r[n - 1] % 16 {
            1int
        } else {
            -1int
        }));
    }
}

proof fn lemma_identity_upper(q: Seq<u8>, r: Seq<u8>, m: Matrix, g: Gaps, i: int, j: int)
    requires
        is_identity_scoring(m),
        g.wf(),
        valid_seq(q),
        valid_seq(r),
        0 <= i <= q.len(),
        0 <= j <= r.len(),
    ensures
        dp_cell(q, r, m, g, i, j).d <= i && dp_cell(q, r, m, g, i, j).d <= j,
        dp_cell(q, r, m, g, i, j).r <= i && dp_cell(q, r, m, g, i, j).r <= j,
        dp_cell(q, r, m, g, i, j).c <= i && dp_cell(q, r, m, g, i, j).c <= j,
    decreases j, i,
{
    if i > 0 {
        lemma_identity_upper(q, r, m, g, i - 1, j);
    }
    if j > 0 {
        lemma_identity_upper(q, r, m, g, i, j - 1);
    }
    if i > 0 && j > 0 {
        lemma_identity_upper(q, r, m, g, i - 1, j - 1);
        assert(valid_symbol(q[i - 1]) && valid_symbol(r[j - 1]));
        assert(m.sc(q[i - 1], r[j - 1]) <= 1);
    }
}

/// With nucleotide identity scoring, two equal-length sequences that differ
/// by `k` substitutions score at least `n - 2k`: the gap-free alignment is
/// always available. When that gap-free alignment is optimal, the score is
/// exactly `n - 2k`.
pub proof fn lemma_substitutions(q: Seq<u8>, r: Seq<u8>, m: Matrix, g: Gaps)
    requires
        is_identity_scoring(m),
        g.wf(),
        valid_seq(q),
        valid_seq(r),
        q.len() == r.len(),
        q.len() + r.len() <= MAX_TOTAL_LEN,
    ensures
        global_score(q, r, m, g) >= q.len() - 2 * mismatches(q, r, q.len() as int),
        global_score(q, r, m, g) == diag_sum(q, r, m, q.len() as int) ==> global_score(q, r, m, g) == q.len() - 2
            * mismatches(q, r, q.len() as int),
{
    lemma_diag_lower(q, r, m, g, q.len() as int);
    lemma_identity_diag(q, r, m, q.len() as int);
}

/// With nucleotide identity scoring, a sequence of length `n` aligned against
/// itself scores exactly `n`.
pub proof fn lemma_identical(q: Seq<u8>, m: Matrix, g: Gaps)
    requires
        is_identity_scoring(m),
        g.wf(),
        valid_seq(q),
        2 * q.len() <= MAX_TOTAL_LEN,
    ensures
        global_score(q, q, m, g) == q.len(),
{
    lemma_substitutions(q, q, m, g);
    lemma_no_mismatch(q, q.len() as int);
    lemma_identity_upper(q, q, m, g, q.len() as int, q.len() as int);
}

proof fn lemma_no_mismatch(q: Seq<u8>, n: int)
    ensures
        mismatches(q, q, n) == 0,
    decreases n,
{
    if n > 0 {
        lemma_no_mismatch(q, n - 1);
    }
}

proof fn lemma_swap_cell(q: Seq<u8>, r: Seq<u8>, m: Matrix, g: Gaps, i: int, j: int)
    requires
        m.symmetric(),
        valid_seq(q),
        valid_seq(r),
    ensures
        dp_cell(q, r, m, g, i, j).d == dp_cell(r, q, m, g, j, i).d,
        dp_cell(q, r, m, g, i, j).r == dp_cell(r, q, m, g, j, i).c,
        dp_cell(q, r, m, g, i, j).c == dp_cell(r, q, m, g, j, i).r,
    decreases j, i,
{
    if 0 <= i <= q.len() && 0 <= j <= r.len() {
        if i > 0 {
            lemma_swap_cell(q, r, m, g, i - 1, j);
        }
        if j > 0 {
            lemma_swap_cell(q, r, m, g, i, j - 1);
        }
        if i > 0 && j > 0 {
            lemma_swap_cell(q, r, m, g, i - 1, j - 1);
            assert(valid_symbol(q[i - 1]) && valid_symbol(r[j - 1]));
            assert(m.sc(q[i - 1], r[j - 1]) == m.sc(r[j - 1], q[i - 1]));
        }
    }
}

/// Under a symmetric matrix, exchanging query and reference keeps the global
/// score.
pub proof fn lemma_swap_symmetric(q: Seq<u8>, r: Seq<u8>, m: Matrix, g: Gaps)
    requires
        m.symmetric(),
        valid_seq(q),
        valid_seq(r),
    ensures
        global_score(q, r, m, g) == global_score(r, q, m, g),
{
    lemma_swap_cell(q, r, m, g, q.len() as int, r.len() as int);
}

/// `seq_best` reports an element of the sequence and its position.
pub proof fn lemma_seq_best(s: Seq<int>, n: int)
    requires
        1 <= n <= s.len(),
    ensures
        0 <= seq_best(s, n).1 < n,
        seq_best(s, n).0 == s[seq_best(s, n).1],
    decreases n,
{
    if n > 1 {
        lemma_seq_best(s, n - 1);
    }
}

/// The running best names a cell of the band, at or before column `j`, whose
/// `D` value it is.
pub proof fn lemma_xdrop_cell(q: Seq<u8>, r: Seq<u8>, m: Matrix, g: Gaps, band: Band, j: int)
    requires
        0 <= j <= r.len(),
        j < band.tops.len(),
        band.h >= 1,
        band.tops[0] == 0,
    ensures
        ({
            let b = xdrop_best(q, r, m, g, band, j);
            &&& b.0 >= 0
            &&& 0 <= b.2 <= j
            &&& 0 <= b.1 <= q.len()
            &&& b.0 == band_cell(q, r, m, g, band, b.1, b.2).d
        }),
    decreases j,
{
    if j > 0 {
        lemma_xdrop_cell(q, r, m, g, band, j - 1);
        let s = col_d(q, r, m, g, band, j);
        lemma_seq_best(s, band.h);
        let (mx, am) = col_best(q, r, m, g, band, j);
        if mx > xdrop_best(q, r, m, g, band, j - 1).0 {
            assert(mx == band_cell(q, r, m, g, band, band.tops[j] + am, j).d);
            assert(mx != NEG_INF);
        }
    } else {
        assert(band_cell(q, r, m, g, band, 0, 0).d == 0);
    }
}

/// The band that covers the whole matrix.
pub open spec fn full_band(q: Seq<u8>, r: Seq<u8>) -> Band {
    Band { tops: Seq::new((r.len() + 1) as nat, |j: int| 0int), h: q.len() + 1int }
}

proof fn lemma_dp_bounds(q: Seq<u8>, r: Seq<u8>, m: Matrix, g: Gaps, i: int, j: int)
    requires
        g.wf(),
        0 <= i <= q.len(),
        0 <= j <= r.len(),
    ensures
        cell_bounded(dp_cell(q, r, m, g, i, j), i, j),
{
    let fb = full_band(q, r);
    lemma_full_band(q, r, m, g, fb, i, j);
    lemma_band_bounds(q, r, m, g, fb, i, j);
}

proof fn lemma_band_below(q: Seq<u8>, r: Seq<u8>, m: Matrix, g: Gaps, band: Band, i: int, j: int)
    requires
        g.wf(),
        q.len() + r.len() <= MAX_TOTAL_LEN,
        0 <= i <= q.len(),
        0 <= j <= r.len(),
    ensures
        band_cell(q, r, m, g, band, i, j).d <= dp_cell(q, r, m, g, i, j).d,
        band_cell(q, r, m, g, band, i, j).r <= dp_cell(q, r, m, g, i, j).r,
        band_cell(q, r, m, g, band, i, j).c <= dp_cell(q, r, m, g, i, j).c,
    decreases j, i,
{
    lemma_dp_bounds(q, r, m, g, i, j);
    lemma_band_bounds(q, r, m, g, band, i, j);
    if i > 0 {
        lemma_band_below(q, r, m, g, band, i - 1, j);
        lemma_dp_bounds(q, r, m, g, i - 1, j);
        lemma_band_bounds(q, r, m, g, band, i - 1, j);
    }
    if j > 0 {
        lemma_band_below(q, r, m, g, band, i, j - 1);
        lemma_dp_bounds(q, r, m, g, i, j - 1);
        lemma_band_bounds(q, r, m, g, band, i, j - 1);
    }
    if i > 0 && j > 0 {
        lemma_band_below(q, r, m, g, band, i - 1, j - 1);
        lemma_dp_bounds(q, r, m, g, i - 1, j - 1);
        lemma_band_bounds(q, r, m, g, band, i - 1, j - 1);
        let s = pair_score(q, r, m, i, j);
        assert(-128 <= s <= 127);
    }
}

/// Banding only ever loses alignments: whatever band an aligner walks, the
/// score it reports for the bottom-right cell never exceeds the exact global
/// score.
pub proof fn lemma_band_never_exceeds(q: Seq<u8>, r: Seq<u8>, m: Matrix, g: Gaps, band: Band)
    requires
        g.wf(),
        q.len() + r.len() <= MAX_TOTAL_LEN,
    ensures
        band_cell(q, r, m, g, band, q.len() as int, r.len() as int).d <= global_score(q, r, m, g),
{
    lemma_band_below(q, r, m, g, band, q.len() as int, r.len() as int);
}

/// Doubling the height of an adaptive band that already covers the query
/// keeps the global score.
pub proof fn lemma_doubling_wide_band(q: Seq<u8>, r: Seq<u8>, m: Matrix, g: Gaps, b1: Band, b2: Band)
    requires
        adaptive(q, r, m, g, b1, r.len() as int),
        adaptive(q, r, m, g, b2, r.len() as int),
        b1.h > q.len(),
        b2.h == 2 * b1.h,
    ensures
        band_cell(q, r, m, g, b2, q.len() as int, r.len() as int).d == band_cell(
            q,
            r,
            m,
            g,
            b1,
            q.len() as int,
            r.len() as int,
        ).d,
{
    lemma_wide_band_exact(q, r, m, g, b1);
    lemma_wide_band_exact(q, r, m, g, b2);
}

} // verus!
