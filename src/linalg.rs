//! Dense matrices stored in column-major order over an abstract scalar type.
use vstd::arithmetic::div_mod::lemma_fundamental_div_mod_converse;
use vstd::prelude::*;

verus! {

/// The scalar arithmetic a matrix needs. Each executable operation is tied to
/// a spec-level counterpart, so that matrix contracts can be stated exactly
/// whatever the scalar type is.
pub trait Field: Sized + Copy {
    spec fn spec_zero() -> Self;

    spec fn spec_plus(self, rhs: Self) -> Self;

    spec fn spec_minus(self, rhs: Self) -> Self;

    spec fn spec_times(self, rhs: Self) -> Self;

    /// Whether `self` may be divided by `rhs`.
    spec fn spec_divisible(self, rhs: Self) -> bool;

    spec fn spec_over(self, rhs: Self) -> Self;

    fn zero() -> (r: Self)
        ensures
            r == Self::spec_zero(),
    ;

    fn plus(self, rhs: Self) -> (r: Self)
        ensures
            r == self.spec_plus(rhs),
    ;

    fn minus(self, rhs: Self) -> (r: Self)
        ensures
            r == self.spec_minus(rhs),
    ;

    fn times(self, rhs: Self) -> (r: Self)
        ensures
            r == self.spec_times(rhs),
    ;

    fn over(self, rhs: Self) -> (r: Self)
        requires
            self.spec_divisible(rhs),
        ensures
            r == self.spec_over(rhs),
    ;
}

/// Two's-complement integers, with addition, subtraction and multiplication
/// modulo 2^64 and division truncated toward zero.
impl Field for i64 {
    open spec fn spec_zero() -> Self {
        0
    }

    open spec fn spec_plus(self, rhs: Self) -> Self {
        self.wrapping_add(rhs)
    }

    open spec fn spec_minus(self, rhs: Self) -> Self {
        self.wrapping_sub(rhs)
    }

    open spec fn spec_times(self, rhs: Self) -> Self {
        self.wrapping_mul(rhs)
    }

    /// A non-zero divisor, and no `i64::MIN / -1`, which overflows.
    open spec fn spec_divisible(self, rhs: Self) -> bool {
        rhs != 0 && !(self == i64::MIN && rhs == -1)
    }

    /// Truncated toward zero, as Rust's `/` on `i64`.
    open spec fn spec_over(self, rhs: Self) -> Self {
        if self >= 0 {
            (self / rhs) as i64
        } else {
            (-((-self) / (rhs as int))) as i64
        }
    }

    fn zero() -> (r: Self) {
        0
    }

    fn plus(self, rhs: Self) -> (r: Self) {
        self.wrapping_add(rhs)
    }

    fn minus(self, rhs: Self) -> (r: Self) {
        self.wrapping_sub(rhs)
    }

    fn times(self, rhs: Self) -> (r: Self) {
        self.wrapping_mul(rhs)
    }

    fn over(self, rhs: Self) -> (r: Self) {
        self / rhs
    }
}

/// A matrix with `n_rows` rows and `n_cols` columns. Entry `(i, j)` lives at
/// position `i + j * n_rows` of `data`.
#[derive(Debug, Clone)]
pub struct Mat<T: Field> {
    n_rows: usize,
    n_cols: usize,
    data: Vec<T>,
}

/// Position of entry `(i, j)` in the column-major storage of a matrix with
/// `n_rows` rows.
pub open spec fn raw_pos(n_rows: int, i: int, j: int) -> int {
    i + j * n_rows
}

/// Distinct in-range entries occupy distinct positions, and every position is
/// in range.
proof fn lemma_raw_pos(n_rows: int, n_cols: int, i: int, j: int, k: int, l: int)
    requires
        0 <= i < n_rows,
        0 <= j < n_cols,
        0 <= k < n_rows,
        0 <= l < n_cols,
    ensures
        0 <= raw_pos(n_rows, i, j) < n_rows * n_cols,
        raw_pos(n_rows, i, j) == raw_pos(n_rows, k, l) ==> i == k && j == l,
{
    assert(0 <= j * n_rows <= (n_cols - 1) * n_rows) by (nonlinear_arith)
        requires
            0 <= j < n_cols,
            0 < n_rows,
    ;
    assert((n_cols - 1) * n_rows + n_rows == n_rows * n_cols) by (nonlinear_arith);
    if raw_pos(n_rows, i, j) == raw_pos(n_rows, k, l) {
        let x = raw_pos(n_rows, i, j);
        lemma_fundamental_div_mod_converse(x, n_rows, j, i);
        lemma_fundamental_div_mod_converse(x, n_rows, l, k);
    }
}

impl<T: Field> Mat<T> {
    /// The stored data has exactly one slot per entry.
    pub closed spec fn wf(&self) -> bool {
        self.data@.len() == self.n_rows * self.n_cols
    }

    pub closed spec fn rows(&self) -> nat {
        self.n_rows as nat
    }

    pub closed spec fn cols(&self) -> nat {
        self.n_cols as nat
    }

    /// The entry in row `i` and column `j`.
    pub closed spec fn entry(&self, i: int, j: int) -> T {
        self.data@[raw_pos(self.n_rows as int, i, j)]
    }

    /// Number of rows.
    pub fn n_rows(&self) -> (r: usize)
        ensures
            r == self.rows(),
    {
        self.n_rows
    }

    /// Number of columns.
    pub fn n_cols(&self) -> (r: usize)
        ensures
            r == self.cols(),
    {
        self.n_cols
    }

    /// `i` is row number, `j` is column number.
    fn raw_index(&self, i: usize, j: usize) -> (r: usize)
        requires
            self.wf(),
            i < self.n_rows,
            j < self.n_cols,
        ensures
            r == raw_pos(self.n_rows as int, i as int, j as int),
            r < self.data@.len(),
    {
        let len = self.data.len();
        proof {
            lemma_raw_pos(self.n_rows as int, self.n_cols as int, i as int, j as int, i as int, j as int);
            assert(j * self.n_rows <= i + j * self.n_rows < len) by (nonlinear_arith)
                requires
                    i + j * self.n_rows < len,
                    0 <= i,
            ;
        }
        i + j * self.n_rows
    }

    /// The entry in row `i` and column `j`.
    pub fn get(&self, i: usize, j: usize) -> (r: T)
        requires
            self.wf(),
            i < self.rows(),
            j < self.cols(),
        ensures
            r == self.entry(i as int, j as int),
    {
        let k = self.raw_index(i, j);
        self.data[k]
    }

    /// Sum of the first `k` diagonal entries, accumulated from the top left.
    pub open spec fn diag_sum(&self, k: nat) -> T
        decreases k,
    {
        if k == 0 {
            T::spec_zero()
        } else {
            self.diag_sum((k - 1) as nat).spec_plus(self.entry(k - 1, k - 1))
        }
    }

    /// Sum of the first `k` products of row `i` of `self` with column `j` of
    /// `rhs`, accumulated in order.
    pub open spec fn dot_upto(&self, rhs: &Self, i: int, j: int, k: nat) -> T
        decreases k,
    {
        if k == 0 {
            T::spec_zero()
        } else {
            self.dot_upto(rhs, i, j, (k - 1) as nat).spec_plus(
                self.entry(i, k - 1).spec_times(rhs.entry(k - 1, j)),
            )
        }
    }

    /// Overwrites the entry in row `i` and column `j`.
    pub fn set(&mut self, i: usize, j: usize, v: T)
        requires
            old(self).wf(),
            i < old(self).rows(),
            j < old(self).cols(),
        ensures
            final(self).wf(),
            final(self).rows() == old(self).rows(),
            final(self).cols() == old(self).cols(),
            final(self).entry(i as int, j as int) == v,
            forall|k: int, l: int|
                0 <= k < old(self).rows() && 0 <= l < old(self).cols() && (k != i || l != j)
                    ==> #[trigger] final(self).entry(k, l) == old(self).entry(k, l),
    {
        let p = self.raw_index(i, j);
        self.data.set(p, v);
        proof {
            assert forall|k: int, l: int|
                0 <= k < old(self).rows() && 0 <= l < old(self).cols() && (k != i || l != j)
                    implies #[trigger] self.entry(k, l) == old(self).entry(k, l) by {
                lemma_raw_pos(self.n_rows as int, self.n_cols as int, i as int, j as int, k, l);
                lemma_raw_pos(self.n_rows as int, self.n_cols as int, k, l, k, l);
            }
        }
    }

    /// Builds a matrix from its rows.
    pub fn new<const ROWS: usize, const COLS: usize>(data: [[T; COLS]; ROWS]) -> (r: Self)
        ensures
            r.wf(),
            r.rows() == ROWS,
            r.cols() == COLS,
            forall|i: int, j: int|
                0 <= i < ROWS && 0 <= j < COLS ==> #[trigger] r.entry(i, j) == data@[i]@[j],
    {
        let mut out: Vec<T> = Vec::new();
        let mut j: usize = 0;
        while j < COLS
            invariant
                j <= COLS,
                out@.len() == j * ROWS,
                forall|i: int, l: int|
                    0 <= i < ROWS && 0 <= l < j ==> #[trigger] out@[raw_pos(ROWS as int, i, l)]
                        == data@[i]@[l],
            decreases COLS - j,
        {
            let mut i: usize = 0;
            while i < ROWS
                invariant
                    j < COLS,
                    i <= ROWS,
                    out@.len() == j * ROWS + i,
                    forall|k: int, l: int|
                        0 <= k < ROWS && 0 <= l < j ==> #[trigger] out@[raw_pos(ROWS as int, k, l)]
                            == data@[k]@[l],
                    forall|k: int|
                        0 <= k < i ==> #[trigger] out@[raw_pos(ROWS as int, k, j as int)]
                            == data@[k]@[j as int],
                decreases ROWS - i,
            {
                proof {
                    assert forall|k: int, l: int| 0 <= k < ROWS && 0 <= l < j implies
                        #[trigger] raw_pos(ROWS as int, k, l) < j * ROWS by {
                        lemma_raw_pos(ROWS as int, j as int, k, l, k, l);
                        assert(ROWS * j == j * ROWS) by (nonlinear_arith);
                    }
                }
                out.push(data[i][j]);
                i = i + 1;
            }
            assert((j + 1) * ROWS == j * ROWS + ROWS) by (nonlinear_arith);
            j = j + 1;
        }
        assert(ROWS * COLS == COLS * ROWS) by (nonlinear_arith);
        Mat { n_rows: ROWS, n_cols: COLS, data: out }
    }

    /// Builds a matrix with `n_cols` columns from data already laid out in
    /// column-major order; the number of rows follows from the length.
    pub fn from_raw(n_cols: usize, data: Vec<T>) -> (r: Self)
        requires
            n_cols > 0,
            data@.len() % (n_cols as nat) == 0,
        ensures
            r.wf(),
            r.cols() == n_cols,
            r.rows() == data@.len() / (n_cols as nat),
            forall|i: int, j: int|
                0 <= i < r.rows() && 0 <= j < r.cols() ==> #[trigger] r.entry(i, j) == data@[raw_pos(
                    r.rows() as int,
                    i,
                    j,
                )],
    {
        let n_rows = data.len() / n_cols;
        proof {
            vstd::arithmetic::div_mod::lemma_fundamental_div_mod(data@.len() as int, n_cols as int);
            assert(n_rows * n_cols == n_cols * n_rows) by (nonlinear_arith);
        }
        Mat { n_rows, n_cols, data }
    }

    /// The sum of the diagonal entries.
    pub fn tr(&self) -> (r: T)
        requires
            self.wf(),
        ensures
            r == self.diag_sum(if self.rows() < self.cols() { self.rows() } else { self.cols() }),
    {
        let n = if self.n_rows < self.n_cols { self.n_rows } else { self.n_cols };
        let mut accum = T::zero();
        let mut i: usize = 0;
        while i < n
            invariant
                self.wf(),
                n <= self.rows(),
                n <= self.cols(),
                i <= n,
                accum == self.diag_sum(i as nat),
            decreases n - i,
        {
            accum = accum.plus(self.get(i, i));
            i = i + 1;
        }
        accum
    }

    /// A new matrix holding the transpose of `self`.
    fn transposed(&self) -> (r: Self)
        requires
            self.wf(),
        ensures
            r.wf(),
            r.rows() == self.cols(),
            r.cols() == self.rows(),
            forall|i: int, j: int|
                0 <= i < r.rows() && 0 <= j < r.cols() ==> #[trigger] r.entry(i, j) == self.entry(
                    j,
                    i,
                ),
    {
        let rows = self.n_cols;
        let cols = self.n_rows;
        let mut out: Vec<T> = Vec::new();
        let mut j: usize = 0;
        while j < cols
            invariant
                self.wf(),
                rows == self.n_cols,
                cols == self.n_rows,
                j <= cols,
                out@.len() == j * rows,
                forall|i: int, l: int|
                    0 <= i < rows && 0 <= l < j ==> #[trigger] out@[raw_pos(rows as int, i, l)]
                        == self.entry(l, i),
            decreases cols - j,
        {
            let mut i: usize = 0;
            while i < rows
                invariant
                    self.wf(),
                    rows == self.n_cols,
                    cols == self.n_rows,
                    j < cols,
                    i <= rows,
                    out@.len() == j * rows + i,
                    forall|k: int, l: int|
                        0 <= k < rows && 0 <= l < j ==> #[trigger] out@[raw_pos(rows as int, k, l)]
                            == self.entry(l, k),
                    forall|k: int|
                        0 <= k < i ==> #[trigger] out@[raw_pos(rows as int, k, j as int)]
                            == self.entry(j as int, k),
                decreases rows - i,
            {
                proof {
                    assert forall|k: int, l: int| 0 <= k < rows && 0 <= l < j implies
                        #[trigger] raw_pos(rows as int, k, l) < j * rows by {
                        lemma_raw_pos(rows as int, j as int, k, l, k, l);
                        assert(rows * j == j * rows) by (nonlinear_arith);
                    }
                }
                out.push(self.get(j, i));
                i = i + 1;
            }
            assert((j + 1) * rows == j * rows + rows) by (nonlinear_arith);
            j = j + 1;
        }
        assert(rows * cols == cols * rows) by (nonlinear_arith);
        Mat { n_rows: rows, n_cols: cols, data: out }
    }

    /// Replaces `self` by its transpose.
    pub fn transpose(&mut self)
        requires
            old(self).wf(),
        ensures
            final(self).wf(),
            final(self).rows() == old(self).cols(),
            final(self).cols() == old(self).rows(),
            forall|i: int, j: int|
                0 <= i < final(self).rows() && 0 <= j < final(self).cols()
                    ==> #[trigger] final(self).entry(i, j) == old(self).entry(j, i),
    {
        *self = self.transposed();
    }

    /// The transpose of `self`.
    pub fn t(self) -> (r: Self)
        requires
            self.wf(),
        ensures
            r.wf(),
            r.rows() == self.cols(),
            r.cols() == self.rows(),
            forall|i: int, j: int|
                0 <= i < r.rows() && 0 <= j < r.cols() ==> #[trigger] r.entry(i, j) == self.entry(
                    j,
                    i,
                ),
    {
        let mut m = self;
        m.transpose();
        m
    }

    /// The matrix product `self * rhs`.
    pub fn matmul(&self, rhs: &Self) -> (r: Self)
        requires
            self.wf(),
            rhs.wf(),
            self.cols() == rhs.rows(),
        ensures
            r.wf(),
            r.rows() == self.rows(),
            r.cols() == rhs.cols(),
            forall|i: int, j: int|
                0 <= i < r.rows() && 0 <= j < r.cols() ==> #[trigger] r.entry(i, j) == self.dot_upto(
                    rhs,
                    i,
                    j,
                    self.cols(),
                ),
    {
        let rows = self.n_rows;
        let cols = rhs.n_cols;
        let inner = self.n_cols;
        let mut out: Vec<T> = Vec::new();
        let mut j: usize = 0;
        while j < cols
            invariant
                self.wf(),
                rhs.wf(),
                rows == self.n_rows,
                cols == rhs.n_cols,
                inner == self.n_cols,
                inner == rhs.n_rows,
                j <= cols,
                out@.len() == j * rows,
                forall|i: int, l: int|
                    0 <= i < rows && 0 <= l < j ==> #[trigger] out@[raw_pos(rows as int, i, l)]
                        == self.dot_upto(rhs, i, l, inner as nat),
            decreases cols - j,
        {
            let mut i: usize = 0;
            while i < rows
                invariant
                    self.wf(),
                    rhs.wf(),
                    rows == self.n_rows,
                    cols == rhs.n_cols,
                    inner == self.n_cols,
                    inner == rhs.n_rows,
                    j < cols,
                    i <= rows,
                    out@.len() == j * rows + i,
                    forall|k: int, l: int|
                        0 <= k < rows && 0 <= l < j ==> #[trigger] out@[raw_pos(rows as int, k, l)]
                            == self.dot_upto(rhs, k, l, inner as nat),
                    forall|k: int|
                        0 <= k < i ==> #[trigger] out@[raw_pos(rows as int, k, j as int)]
                            == self.dot_upto(rhs, k, j as int, inner as nat),
                decreases rows - i,
            {
                let mut accum = T::zero();
                let mut k: usize = 0;
                while k < inner
                    invariant
                        self.wf(),
                        rhs.wf(),
                        rows == self.n_rows,
                        cols == rhs.n_cols,
                        inner == self.n_cols,
                        inner == rhs.n_rows,
                        j < cols,
                        i < rows,
                        k <= inner,
                        accum == self.dot_upto(rhs, i as int, j as int, k as nat),
                    decreases inner - k,
                {
                    accum = accum.plus(self.get(i, k).times(rhs.get(k, j)));
                    k = k + 1;
                }
                proof {
                    assert forall|k: int, l: int| 0 <= k < rows && 0 <= l < j implies
                        #[trigger] raw_pos(rows as int, k, l) < j * rows by {
                        lemma_raw_pos(rows as int, j as int, k, l, k, l);
                        assert(rows * j == j * rows) by (nonlinear_arith);
                    }
                }
                out.push(accum);
                i = i + 1;
            }
            assert((j + 1) * rows == j * rows + rows) by (nonlinear_arith);
            j = j + 1;
        }
        assert(rows * cols == cols * rows) by (nonlinear_arith);
        Mat { n_rows: rows, n_cols: cols, data: out }
    }

    /// The single entry of a 1x1 matrix.
    pub fn to_scalar(self) -> (r: T)
        requires
            self.wf(),
            self.rows() == 1,
            self.cols() == 1,
        ensures
            r == self.entry(0, 0),
    {
        self.get(0, 0)
    }

    /// Adds `rhs` entry by entry.
    pub fn add_assign(&mut self, rhs: &Self)
        requires
            old(self).wf(),
            rhs.wf(),
            rhs.rows() == old(self).rows(),
            rhs.cols() == old(self).cols(),
        ensures
            final(self).wf(),
            final(self).rows() == old(self).rows(),
            final(self).cols() == old(self).cols(),
            forall|i: int, j: int|
                0 <= i < old(self).rows() && 0 <= j < old(self).cols()
                    ==> #[trigger] final(self).entry(i, j) == old(self).entry(i, j).spec_plus(rhs.entry(i, j)),
    {
        let n = self.data.len();
        let mut p: usize = 0;
        while p < n
            invariant
                self.wf(),
                rhs.wf(),
                rhs.n_rows == old(self).n_rows,
                rhs.n_cols == old(self).n_cols,
                self.n_rows == old(self).n_rows,
                self.n_cols == old(self).n_cols,
                n == self.data@.len(),
                n == old(self).data@.len(),
                p <= n,
                forall|q: int| 0 <= q < p ==> #[trigger] self.data@[q] == old(self).data@[q].spec_plus(rhs.data@[q]),
                forall|q: int| p <= q < n ==> #[trigger] self.data@[q] == old(self).data@[q],
            decreases n - p,
        {
            let v = self.data[p].plus(rhs.data[p]);
            self.data.set(p, v);
            p = p + 1;
        }
        proof {
            assert forall|i: int, j: int| 0 <= i < old(self).rows() && 0 <= j < old(self).cols() implies
                #[trigger] self.entry(i, j) == old(self).entry(i, j).spec_plus(rhs.entry(i, j)) by {
                lemma_raw_pos(self.n_rows as int, self.n_cols as int, i, j, i, j);
            }
        }
    }

    /// Subtracts `rhs` entry by entry.
    pub fn sub_assign(&mut self, rhs: &Self)
        requires
            old(self).wf(),
            rhs.wf(),
            rhs.rows() == old(self).rows(),
            rhs.cols() == old(self).cols(),
        ensures
            final(self).wf(),
            final(self).rows() == old(self).rows(),
            final(self).cols() == old(self).cols(),
            forall|i: int, j: int|
                0 <= i < old(self).rows() && 0 <= j < old(self).cols()
                    ==> #[trigger] final(self).entry(i, j) == old(self).entry(i, j).spec_minus(rhs.entry(i, j)),
    {
        let n = self.data.len();
        let mut p: usize = 0;
        while p < n
            invariant
                self.wf(),
                rhs.wf(),
                rhs.n_rows == old(self).n_rows,
                rhs.n_cols == old(self).n_cols,
                self.n_rows == old(self).n_rows,
                self.n_cols == old(self).n_cols,
                n == self.data@.len(),
                n == old(self).data@.len(),
                p <= n,
                forall|q: int| 0 <= q < p ==> #[trigger] self.data@[q] == old(self).data@[q].spec_minus(rhs.data@[q]),
                forall|q: int| p <= q < n ==> #[trigger] self.data@[q] == old(self).data@[q],
            decreases n - p,
        {
            let v = self.data[p].minus(rhs.data[p]);
            self.data.set(p, v);
            p = p + 1;
        }
        proof {
            assert forall|i: int, j: int| 0 <= i < old(self).rows() && 0 <= j < old(self).cols() implies
                #[trigger] self.entry(i, j) == old(self).entry(i, j).spec_minus(rhs.entry(i, j)) by {
                lemma_raw_pos(self.n_rows as int, self.n_cols as int, i, j, i, j);
            }
        }
    }

    /// Multiplies every entry by the scalar `rhs`.
    pub fn mul_assign(&mut self, rhs: T)
        requires
            old(self).wf(),
        ensures
            final(self).wf(),
            final(self).rows() == old(self).rows(),
            final(self).cols() == old(self).cols(),
            forall|i: int, j: int|
                0 <= i < old(self).rows() && 0 <= j < old(self).cols()
                    ==> #[trigger] final(self).entry(i, j) == old(self).entry(i, j).spec_times(rhs),
    {
        let n = self.data.len();
        let mut p: usize = 0;
        while p < n
            invariant
                self.wf(),
                self.n_rows == old(self).n_rows,
                self.n_cols == old(self).n_cols,
                n == self.data@.len(),
                n == old(self).data@.len(),
                p <= n,
                forall|q: int| 0 <= q < p ==> #[trigger] self.data@[q] == old(self).data@[q].spec_times(rhs),
                forall|q: int| p <= q < n ==> #[trigger] self.data@[q] == old(self).data@[q],
            decreases n - p,
        {
            let v = self.data[p].times(rhs);
            self.data.set(p, v);
            p = p + 1;
        }
        proof {
            assert forall|i: int, j: int| 0 <= i < old(self).rows() && 0 <= j < old(self).cols() implies
                #[trigger] self.entry(i, j) == old(self).entry(i, j).spec_times(rhs) by {
                lemma_raw_pos(self.n_rows as int, self.n_cols as int, i, j, i, j);
            }
        }
    }

    /// Divides every entry by the scalar `rhs`; every entry must be divisible
    /// by it.
    pub fn div_assign(&mut self, rhs: T)
        requires
            old(self).wf(),
            forall|i: int, j: int|
                0 <= i < old(self).rows() && 0 <= j < old(self).cols()
                    ==> #[trigger] old(self).entry(i, j).spec_divisible(rhs),
        ensures
            final(self).wf(),
            final(self).rows() == old(self).rows(),
            final(self).cols() == old(self).cols(),
            forall|i: int, j: int|
                0 <= i < old(self).rows() && 0 <= j < old(self).cols()
                    ==> #[trigger] final(self).entry(i, j) == old(self).entry(i, j).spec_over(rhs),
    {
        proof {
            assert forall|q: int| 0 <= q < old(self).data@.len() implies #[trigger] old(self).data@[q].spec_divisible(rhs) by {
                assert(self.n_rows > 0) by {
                    if self.n_rows == 0 {
                        assert(self.n_rows * self.n_cols == 0) by (nonlinear_arith)
                            requires
                                self.n_rows == 0,
                        ;
                    }
                }
                let i = q % (self.n_rows as int);
                let j = q / (self.n_rows as int);
                vstd::arithmetic::div_mod::lemma_fundamental_div_mod(q, self.n_rows as int);
                assert(0 <= i < self.n_rows);
                assert(j < self.n_cols) by {
                    if j >= self.n_cols {
                        assert(self.n_rows * j >= self.n_rows * self.n_cols) by (nonlinear_arith)
                            requires
                                j >= self.n_cols,
                                self.n_rows > 0,
                        ;
                    }
                }
                assert(q == raw_pos(self.n_rows as int, i, j));
                assert(old(self).entry(i, j).spec_divisible(rhs));
            }
        }
        let n = self.data.len();
        let mut p: usize = 0;
        while p < n
            invariant
                self.wf(),
                self.n_rows == old(self).n_rows,
                self.n_cols == old(self).n_cols,
                n == self.data@.len(),
                n == old(self).data@.len(),
                p <= n,
                forall|q: int| 0 <= q < n ==> #[trigger] old(self).data@[q].spec_divisible(rhs),
                forall|q: int| 0 <= q < p ==> #[trigger] self.data@[q] == old(self).data@[q].spec_over(rhs),
                forall|q: int| p <= q < n ==> #[trigger] self.data@[q] == old(self).data@[q],
            decreases n - p,
        {
            let v = self.data[p].over(rhs);
            self.data.set(p, v);
            p = p + 1;
        }
        proof {
            assert forall|i: int, j: int| 0 <= i < old(self).rows() && 0 <= j < old(self).cols() implies
                #[trigger] self.entry(i, j) == old(self).entry(i, j).spec_over(rhs) by {
                lemma_raw_pos(self.n_rows as int, self.n_cols as int, i, j, i, j);
            }
        }
    }

    /// The entry-by-entry sum `self + rhs`.
    pub fn add(self, rhs: &Self) -> (r: Self)
        requires
            self.wf(),
            rhs.wf(),
            rhs.rows() == self.rows(),
            rhs.cols() == self.cols(),
        ensures
            r.wf(),
            r.rows() == self.rows(),
            r.cols() == self.cols(),
            forall|i: int, j: int|
                0 <= i < self.rows() && 0 <= j < self.cols()
                    ==> #[trigger] r.entry(i, j) == self.entry(i, j).spec_plus(rhs.entry(i, j)),
    {
        let mut m = self;
        m.add_assign(rhs);
        m
    }

    /// The entry-by-entry difference `self - rhs`.
    pub fn sub(self, rhs: &Self) -> (r: Self)
        requires
            self.wf(),
            rhs.wf(),
            rhs.rows() == self.rows(),
            rhs.cols() == self.cols(),
        ensures
            r.wf(),
            r.rows() == self.rows(),
            r.cols() == self.cols(),
            forall|i: int, j: int|
                0 <= i < self.rows() && 0 <= j < self.cols()
                    ==> #[trigger] r.entry(i, j) == self.entry(i, j).spec_minus(rhs.entry(i, j)),
    {
        let mut m = self;
        m.sub_assign(rhs);
        m
    }
}

} // verus!
