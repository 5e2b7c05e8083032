//! Scoring substrate: substitution matrices over the uppercase alphabet and
//! affine gap penalties.
use vstd::prelude::*;
use crate::scan::convert_char;

verus! {

/// Sentinel byte that denotes "no symbol": one past `'Z'`.
pub const NULL: u8 = 91;

/// First letter of the alphabet.
pub const FIRST: u8 = 65;

/// Row stride of a nucleotide matrix (symbols are indexed by their low nibble).
pub const NUC_STRIDE: usize = 16;

/// Row stride of an amino acid matrix (symbols are indexed by `c - 'A'`).
pub const AA_STRIDE: usize = 32;

/// A byte that may reach the kernel: an uppercase letter or the sentinel.
pub open spec fn valid_symbol(c: u8) -> bool {
    FIRST <= c <= NULL
}

/// Every byte of `s` is a valid symbol.
pub open spec fn valid_seq(s: Seq<u8>) -> bool {
    forall|k: int| 0 <= k < s.len() ==> #[trigger] valid_symbol(s[k])
}

/// The symbol index of a byte: the raw byte for nucleotides, `c - 'A'` otherwise.
pub open spec fn symbol_index(c: u8, nuc: bool) -> int {
    if nuc {
        c as int
    } else {
        c - FIRST
    }
}

/// A square substitution table of `stride * stride` signed scores.
pub struct Matrix {
    /// Whether this is a nucleotide matrix.
    pub nuc: bool,
    /// Row stride: 16 for nucleotides, 32 for amino acids.
    pub stride: usize,
    /// Row-major scores.
    pub scores: Vec<i8>,
}

impl Matrix {
    pub open spec fn wf(&self) -> bool {
        &&& self.stride == (if self.nuc { NUC_STRIDE } else { AA_STRIDE })
        &&& self.scores@.len() == self.stride * self.stride
    }

    /// Row (or column) of the table that symbol `c` selects.
    pub open spec fn row_of(&self, c: u8) -> int {
        symbol_index(c, self.nuc) % (self.stride as int)
    }

    /// The score of aligning query symbol `a` against reference symbol `b`.
    pub open spec fn sc(&self, a: u8, b: u8) -> int {
        self.scores@[self.row_of(a) * self.stride + self.row_of(b)] as int
    }

    /// The table is symmetric on the valid symbols.
    pub open spec fn symmetric(&self) -> bool {
        forall|a: u8, b: u8|
            valid_symbol(a) && valid_symbol(b) ==> #[trigger] self.sc(a, b) == self.sc(b, a)
    }

    /// Score of aligning query symbol `a` against reference symbol `b`.
    pub fn score(&self, a: u8, b: u8) -> (r: i8)
        requires
            self.wf(),
            valid_symbol(a),
            valid_symbol(b),
        ensures
            r as int == self.sc(a, b),
    {
        let ra: usize = (convert_char(a, self.nuc) as usize) % self.stride;
        let rb: usize = (convert_char(b, self.nuc) as usize) % self.stride;
        proof {
            assert(0 <= ra < self.stride && 0 <= rb < self.stride);
            assert(ra * self.stride + rb < self.stride * self.stride) by (nonlinear_arith)
                requires
                    ra < self.stride,
                    rb < self.stride,
            ;
        }
        self.scores[ra * self.stride + rb]
    }
}

/// Entry `p` of the identity table: +1 on the diagonal, -1 elsewhere.
pub open spec fn identity_entry(p: int) -> int {
    if p / 16 == p % 16 {
        1
    } else {
        -1
    }
}

/// Nucleotide identity scoring: +1 for equal symbols, -1 otherwise.
pub open spec fn is_identity_scoring(m: Matrix) -> bool {
    &&& m.wf()
    &&& m.nuc
    &&& forall|a: u8, b: u8|
        valid_symbol(a) && valid_symbol(b) ==> #[trigger] m.sc(a, b) == (if a % 16 == b % 16 {
            1int
        } else {
            -1int
        })
}

/// The nucleotide identity matrix: match +1, mismatch -1.
#[allow(non_snake_case)]
pub fn NW1() -> (m: Matrix)
    ensures
        is_identity_scoring(m),
{
    let mut scores: Vec<i8> = Vec::new();
    let mut p: usize = 0;
    while p < 256
        invariant
            p <= 256,
            scores@.len() == p,
            forall|k: int| 0 <= k < p ==> scores@[k] as int == #[trigger] identity_entry(k),
        decreases 256 - p,
    {
        let v: i8 = if p / 16 == p % 16 { 1 } else { -1 };
        scores.push(v);
        p = p + 1;
    }
    let m = Matrix { nuc: true, stride: NUC_STRIDE, scores };
    assert forall|a: u8, b: u8| valid_symbol(a) && valid_symbol(b) implies #[trigger] m.sc(a, b) == (
    if a % 16 == b % 16 {
        1int
    } else {
        -1int
    }) by {
        let ra = (a as int) % 16;
        let rb = (b as int) % 16;
        let p = ra * 16 + rb;
        assert(p / 16 == ra && p % 16 == rb) by (nonlinear_arith)
            requires
                0 <= ra < 16,
                0 <= rb < 16,
                p == ra * 16 + rb,
        ;
        assert(0 <= p < 256);
        assert(m.scores@[p] as int == identity_entry(p));
    }
    m
}

/// Position in the lower triangle, stored row by row, of the unordered pair `{x, y}`.
pub open spec fn tri_index(x: int, y: int) -> int {
    let hi = if x >= y { x } else { y };
    let lo = if x >= y { y } else { x };
    hi * (hi + 1) / 2 + lo
}

/// Lower triangle of BLOSUM62, row by row, in the order
/// A R N D C Q E G H I L K M F P S T W Y V B Z X *.
pub open spec fn blosum62_triangle() -> Seq<i8> {
    seq![
        4i8, -1i8, 5i8, -2i8, 0i8, 6i8, -2i8, -2i8, 1i8, 6i8, 0i8, -3i8, -3i8, -3i8, 9i8, -1i8, 1i8, 0i8, 0i8, -3i8, 5i8, -1i8, 0i8, 0i8, 2i8,
        -4i8, 2i8, 5i8, 0i8, -2i8, 0i8, -1i8, -3i8, -2i8, -2i8, 6i8, -2i8, 0i8, 1i8, -1i8, -3i8, 0i8, 0i8, -2i8, 8i8, -1i8, -3i8, -3i8, -3i8, -1i8,
        -3i8, -3i8, -4i8, -3i8, 4i8, -1i8, -2i8, -3i8, -4i8, -1i8, -2i8, -3i8, -4i8, -3i8, 2i8, 4i8, -1i8, 2i8, 0i8, -1i8, -3i8, 1i8, 1i8, -2i8, -1i8,
        -3i8, -2i8, 5i8, -1i8, -1i8, -2i8, -3i8, -1i8, 0i8, -2i8, -3i8, -2i8, 1i8, 2i8, -1i8, 5i8, -2i8, -3i8, -3i8, -3i8, -2i8, -3i8, -3i8, -3i8, -1i8,
        0i8, 0i8, -3i8, 0i8, 6i8, -1i8, -2i8, -2i8, -1i8, -3i8, -1i8, -1i8, -2i8, -2i8, -3i8, -3i8, -1i8, -2i8, -4i8, 7i8, 1i8, -1i8, 1i8, 0i8, -1i8,
        0i8, 0i8, 0i8, -1i8, -2i8, -2i8, 0i8, -1i8, -2i8, -1i8, 4i8, 0i8, -1i8, 0i8, -1i8, -1i8, -1i8, -1i8, -2i8, -2i8, -1i8, -1i8, -1i8, -1i8, -2i8,
        -1i8, 1i8, 5i8, -3i8, -3i8, -4i8, -4i8, -2i8, -2i8, -3i8, -2i8, -2i8, -3i8, -2i8, -3i8, -1i8, 1i8, -4i8, -3i8, -2i8, 11i8, -2i8, -2i8, -2i8, -3i8,
        -2i8, -1i8, -2i8, -3i8, 2i8, -1i8, -1i8, -2i8, -1i8, 3i8, -3i8, -2i8, -2i8, 2i8, 7i8, 0i8, -3i8, -3i8, -3i8, -1i8, -2i8, -2i8, -3i8, -3i8, 3i8,
        1i8, -2i8, 1i8, -1i8, -2i8, -2i8, 0i8, -3i8, -1i8, 4i8, -2i8, -1i8, 3i8, 4i8, -3i8, 0i8, 1i8, -1i8, 0i8, -3i8, -4i8, 0i8, -3i8, -3i8, -2i8,
        0i8, -1i8, -4i8, -3i8, -3i8, 4i8, -1i8, 0i8, 0i8, 1i8, -3i8, 3i8, 4i8, -2i8, 0i8, -3i8, -3i8, 1i8, -1i8, -3i8, -1i8, 0i8, -1i8, -3i8, -2i8,
        -2i8, 1i8, 4i8, 0i8, -1i8, -1i8, -1i8, -2i8, -1i8, -1i8, -1i8, -1i8, -1i8, -1i8, -1i8, -1i8, -1i8, -2i8, 0i8, 0i8, -2i8, -1i8, -1i8, -1i8, -1i8,
        -1i8, -4i8, -4i8, -4i8, -4i8, -4i8, -4i8, -4i8, -4i8, -4i8, -4i8, -4i8, -4i8, -4i8, -4i8, -4i8, -4i8, -4i8, -4i8, -4i8, -4i8, -4i8, -4i8, -4i8, 1i8,
    ]
}

/// Row of BLOSUM62's order that each symbol index `0..32` (`c - 'A'`) reads;
/// `J`, `O`, `U` and the sentinel read the stop symbol `*`.
pub open spec fn blosum62_order() -> Seq<usize> {
    seq![
        0usize, 20, 4, 3, 6, 13, 7, 8, 9, 23, 11, 10, 12, 2, 23, 14, 5, 1, 15, 16, 23, 19, 17, 22, 18, 21, 23, 23, 23, 23, 23, 23,
    ]
}

/// The BLOSUM62 score of symbols `a` and `b`.
pub open spec fn blosum62_entry(a: u8, b: u8) -> int {
    blosum62_triangle()[tri_index(
        blosum62_order()[(a - FIRST) % 32] as int,
        blosum62_order()[(b - FIRST) % 32] as int,
    )] as int
}

/// The BLOSUM62 amino acid matrix over `A..Z` with row stride 32. Letters that
/// BLOSUM62 does not define (`J`, `O`, `U`) and the sentinel score as the stop
/// symbol `*`. The table is built from the lower triangle of the standard
/// matrix, so it is symmetric.
#[allow(non_snake_case)]
pub fn BLOSUM62() -> (m: Matrix)
    ensures
        m.wf(),
        !m.nuc,
        m.symmetric(),
        forall|a: u8, b: u8|
            valid_symbol(a) && valid_symbol(b) ==> #[trigger] m.sc(a, b) == blosum62_entry(a, b),
{
    // Lower triangle of BLOSUM62 in the order A R N D C Q E G H I L K M F P S T W Y V B Z X *.
    let tri: Vec<i8> = vec![
        4, -1, 5, -2, 0, 6, -2, -2, 1, 6, 0, -3, -3, -3, 9, -1, 1, 0, 0, -3, 5, -1, 0, 0, 2,
        -4, 2, 5, 0, -2, 0, -1, -3, -2, -2, 6, -2, 0, 1, -1, -3, 0, 0, -2, 8, -1, -3, -3, -3, -1,
        -3, -3, -4, -3, 4, -1, -2, -3, -4, -1, -2, -3, -4, -3, 2, 4, -1, 2, 0, -1, -3, 1, 1, -2, -1,
        -3, -2, 5, -1, -1, -2, -3, -1, 0, -2, -3, -2, 1, 2, -1, 5, -2, -3, -3, -3, -2, -3, -3, -3, -1,
        0, 0, -3, 0, 6, -1, -2, -2, -1, -3, -1, -1, -2, -2, -3, -3, -1, -2, -4, 7, 1, -1, 1, 0, -1,
        0, 0, 0, -1, -2, -2, 0, -1, -2, -1, 4, 0, -1, 0, -1, -1, -1, -1, -2, -2, -1, -1, -1, -1, -2,
        -1, 1, 5, -3, -3, -4, -4, -2, -2, -3, -2, -2, -3, -2, -3, -1, 1, -4, -3, -2, 11, -2, -2, -2, -3,
        -2, -1, -2, -3, 2, -1, -1, -2, -1, 3, -3, -2, -2, 2, 7, 0, -3, -3, -3, -1, -2, -2, -3, -3, 3,
        1, -2, 1, -1, -2, -2, 0, -3, -1, 4, -2, -1, 3, 4, -3, 0, 1, -1, 0, -3, -4, 0, -3, -3, -2,
        0, -1, -4, -3, -3, 4, -1, 0, 0, 1, -3, 3, 4, -2, 0, -3, -3, 1, -1, -3, -1, 0, -1, -3, -2,
        -2, 1, 4, 0, -1, -1, -1, -2, -1, -1, -1, -1, -1, -1, -1, -1, -1, -2, 0, 0, -2, -1, -1, -1, -1,
        -1, -4, -4, -4, -4, -4, -4, -4, -4, -4, -4, -4, -4, -4, -4, -4, -4, -4, -4, -4, -4, -4, -4, -4, 1,
    ];
    // Row of the standard order that each symbol index `0..32` reads.
    let order: Vec<usize> = vec![
        0, 20, 4, 3, 6, 13, 7, 8, 9, 23, 11, 10, 12, 2, 23, 14, 5, 1, 15, 16, 23, 19, 17, 22, 18, 21, 23, 23, 23, 23, 23, 23,
    ];
    assert(tri@ == blosum62_triangle());
    assert(order@ == blosum62_order());
    assert(tri@.len() == 300 && order@.len() == 32);
    assert(forall|k: int| 0 <= k < 32 ==> #[trigger] order@[k] < 24);
    let mut scores: Vec<i8> = Vec::new();
    let mut p: usize = 0;
    while p < 1024
        invariant
            p <= 1024,
            tri@.len() == 300,
            order@.len() == 32,
            forall|k: int| 0 <= k < 32 ==> #[trigger] order@[k] < 24,
            scores@.len() == p,
            forall|k: int|
                0 <= k < p ==> scores@[k] == tri@[tri_index(
                    order@[#[trigger] (k / 32)] as int,
                    order@[k % 32] as int,
                )],
        decreases 1024 - p,
    {
        let x = order[p / 32];
        let y = order[p % 32];
        let (hi, lo) = if x >= y { (x, y) } else { (y, x) };
        assert(hi * (hi + 1) / 2 + lo < 300) by (nonlinear_arith)
            requires
                hi < 24,
                lo <= hi,
        ;
        scores.push(tri[hi * (hi + 1) / 2 + lo]);
        p = p + 1;
    }
    let m = Matrix { nuc: false, stride: AA_STRIDE, scores };
    assert forall|a: u8, b: u8| valid_symbol(a) && valid_symbol(b) implies #[trigger] m.sc(a, b) == m.sc(b, a)
        && m.sc(a, b) == blosum62_entry(a, b) by {
        let ra = (a - FIRST) % 32;
        let rb = (b - FIRST) % 32;
        let pab = ra * 32 + rb;
        let pba = rb * 32 + ra;
        assert(pab / 32 == ra && pab % 32 == rb && pba / 32 == rb && pba % 32 == ra) by (nonlinear_arith)
            requires
                0 <= ra < 32,
                0 <= rb < 32,
                pab == ra * 32 + rb,
                pba == rb * 32 + ra,
        ;
        assert(0 <= pab < 1024 && 0 <= pba < 1024);
        assert(m.scores@[pab] == tri@[tri_index(order@[pab / 32] as int, order@[pab % 32] as int)]);
        assert(m.scores@[pba] == tri@[tri_index(order@[pba / 32] as int, order@[pba % 32] as int)]);
        assert(m.sc(a, b) == blosum62_entry(a, b));
    }
    m
}

/// Affine gap penalties: a gap of length `n >= 1` costs `open + (n - 1) * extend`.
#[derive(Clone, Copy, Debug, PartialEq, Eq, Structural)]
pub struct Gaps {
    pub open: i8,
    pub extend: i8,
}

impl Gaps {
    /// Penalties in the accepted order: `open <= extend <= 0`.
    pub open spec fn wf(&self) -> bool {
        self.open <= self.extend <= 0
    }
}

/// Errors that abort an alignment.
#[derive(Clone, Copy, Debug, PartialEq, Eq, Structural)]
pub enum AlignError {
    /// A byte outside `'A'..='Z'` and the sentinel.
    InvalidAlphabet,
    /// The requested cell lies outside the band that the aligner walked.
    BandOutOfRange,
    /// A trace was requested from an aligner built without tracing.
    TraceDisabled,
    /// The two sequences together are longer than `MAX_TOTAL_LEN`.
    SequenceTooLong,
    /// Gap penalties that violate `open <= extend <= 0`.
    GapConfig,
}

/// Identity scoring is symmetric.
pub proof fn lemma_identity_symmetric(m: Matrix)
    requires
        is_identity_scoring(m),
    ensures
        m.symmetric(),
{
    assert forall|a: u8, b: u8| valid_symbol(a) && valid_symbol(b) implies #[trigger] m.sc(a, b) == m.sc(b, a) by {
        assert(m.sc(a, b) == (if a % 16 == b % 16 { 1int } else { -1int }));
        assert(m.sc(b, a) == (if b % 16 == a % 16 { 1int } else { -1int }));
    }
}

} // verus!
