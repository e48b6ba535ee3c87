//! Freivalds' probabilistic check of a matrix product: `A * B == C` is
//! tested by comparing `A * (B * v)` with `C * v` for one random vector `v`.
//! The matrix-vector products are computed by `ndarray`.

use crate::entropy::random_u64;
use vstd::arithmetic::div_mod::*;
use vstd::arithmetic::mul::*;
use vstd::arithmetic::power::*;
use vstd::prelude::*;

verus! {

/// The mathematical content of a matrix: its shape and its entries, row
/// after row.
pub struct MatrixModel {
    pub rows: nat,
    pub cols: nat,
    pub data: Seq<u64>,
}

/// The entries of a vector of machine integers, as integers.
pub open spec fn ints(s: Seq<u64>) -> Seq<int> {
    s.map_values(|x: u64| x as int)
}

/// The sum of `m[i][j] * v[j]` over the first `n` columns `j` of row `i`.
pub open spec fn row_dot(m: MatrixModel, i: int, v: Seq<int>, n: nat) -> int
    decreases n,
{
    if n == 0 {
        0
    } else {
        row_dot(m, i, v, (n - 1) as nat) + m.data[i * m.cols + (n - 1)] * v[n - 1]
    }
}

/// The product of a matrix and a column vector.
pub open spec fn mat_vec(m: MatrixModel, v: Seq<int>) -> Seq<int> {
    Seq::new(m.rows, |i: int| row_dot(m, i, v, m.cols))
}

/// Every entry of the product of `m` and `v` fits in a `u64`.
pub open spec fn product_fits(m: MatrixModel, v: Seq<int>) -> bool {
    forall|i: int| 0 <= i < m.rows ==> #[trigger] row_dot(m, i, v, m.cols) <= u64::MAX
}

/// The probing vector that a seed gives in the integers modulo `field`: the
/// powers `r, r^2, .., r^n` of `r = seed % field`, each reduced modulo
/// `field`.
pub open spec fn power_vector(seed: nat, field: nat, n: nat) -> Seq<int> {
    Seq::new(n, |i: int| pow((seed % field) as int, (i + 1) as nat) % (field as int))
}

/// Why a check could not be made.
#[derive(Clone, Copy, Debug, PartialEq, Eq, Structural)]
pub enum FreivaldsError {
    /// The three matrices are not square matrices of one size.
    DimensionMismatch,
    /// An entry of one of the matrix-vector products does not fit in a `u64`.
    ArithmeticOverflow,
}

/// The three matrices are square and of one size.
pub open spec fn dimensions_agree(a: MatrixModel, b: MatrixModel, c: MatrixModel) -> bool {
    &&& a.rows == b.rows && b.rows == c.rows
    &&& a.cols == b.cols && b.cols == c.cols
    &&& a.rows == a.cols
}

/// The outcome of the check with the probing vector `v`: the matrices are
/// accepted when `A * (B * v)` and `C * v` are the same vector.
pub open spec fn outcome_with(a: MatrixModel, b: MatrixModel, c: MatrixModel, v: Seq<int>) -> Result<
    bool,
    FreivaldsError,
> {
    if !dimensions_agree(a, b, c) || v.len() != c.cols {
        Err(FreivaldsError::DimensionMismatch)
    } else if !product_fits(b, v) || !product_fits(a, mat_vec(b, v)) || !product_fits(c, v) {
        Err(FreivaldsError::ArithmeticOverflow)
    } else {
        Ok(mat_vec(a, mat_vec(b, v)) == mat_vec(c, v))
    }
}

/// The sum over a row grows with the number of columns, where no entry of
/// the vector is negative.
pub proof fn lemma_row_dot_monotone(m: MatrixModel, i: int, v: Seq<int>, k: nat, n: nat)
    requires
        k <= n,
        forall|j: int| 0 <= j < n ==> v[j] >= 0,
    ensures
        0 <= row_dot(m, i, v, k) <= row_dot(m, i, v, n),
    decreases n,
{
    if n > 0 {
        let x = m.data[i * m.cols + (n - 1)] as int;
        assert(x * v[n - 1] >= 0) by (nonlinear_arith)
            requires
                x >= 0,
                v[n - 1] >= 0,
        ;
        if k < n {
            lemma_row_dot_monotone(m, i, v, k, (n - 1) as nat);
        } else {
            lemma_row_dot_monotone(m, i, v, (n - 1) as nat, (n - 1) as nat);
        }
    }
}

/// Entry `(i, k)` of the product of `a` and `b`, summed over the first `n`
/// inner indices.
pub open spec fn product_entry(a: MatrixModel, b: MatrixModel, i: int, k: int, n: nat) -> int
    decreases n,
{
    if n == 0 {
        0
    } else {
        product_entry(a, b, i, k, (n - 1) as nat) + a.data[i * a.cols + (n - 1)] * b.data[(n - 1)
            * b.cols + k]
    }
}

/// `c` is the product of `a` and `b`, all three square and of one size.
pub open spec fn is_product(a: MatrixModel, b: MatrixModel, c: MatrixModel) -> bool {
    &&& dimensions_agree(a, b, c)
    &&& forall|i: int, k: int|
        0 <= i < c.rows && 0 <= k < c.cols ==> c.data[i * c.cols + k] == #[trigger] product_entry(
            a,
            b,
            i,
            k,
            a.cols,
        )
}

/// The sum over the first `rows` inner indices `j` of `a[i][j]` times the
/// sum of row `j` of `b` against `v` over its first `cols` columns.
pub open spec fn nested_dot(
    a: MatrixModel,
    b: MatrixModel,
    i: int,
    v: Seq<int>,
    rows: nat,
    cols: nat,
) -> int
    decreases rows,
{
    if rows == 0 {
        0
    } else {
        nested_dot(a, b, i, v, (rows - 1) as nat, cols) + a.data[i * a.cols + (rows - 1)]
            * row_dot(b, rows - 1, v, cols)
    }
}

/// One more column of `b` adds one entry of the product, times the matching
/// entry of `v`.
proof fn lemma_nested_dot_column(
    a: MatrixModel,
    b: MatrixModel,
    i: int,
    v: Seq<int>,
    rows: nat,
    cols: nat,
)
    ensures
        nested_dot(a, b, i, v, rows, cols + 1) == nested_dot(a, b, i, v, rows, cols)
            + product_entry(a, b, i, cols as int, rows) * v[cols as int],
    decreases rows,
{
    if rows > 0 {
        let j = (rows - 1) as nat;
        lemma_nested_dot_column(a, b, i, v, j, cols);
        let x = a.data[i * a.cols + j] as int;
        let y = b.data[(j * b.cols + cols) as int] as int;
        let d = row_dot(b, j as int, v, cols);
        let e = product_entry(a, b, i, cols as int, j);
        let w = v[cols as int];
        assert(row_dot(b, j as int, v, cols + 1) == d + y * w);
        assert(x * (d + y * w) == x * d + (x * y) * w) by (nonlinear_arith);
        assert((e + x * y) * w == e * w + (x * y) * w) by (nonlinear_arith);
    } else {
        assert(product_entry(a, b, i, cols as int, 0) * v[cols as int] == 0) by (nonlinear_arith)
            requires
                product_entry(a, b, i, cols as int, 0) == 0,
        ;
    }
}

/// Against no column the nested sum is zero.
proof fn lemma_nested_dot_empty(a: MatrixModel, b: MatrixModel, i: int, v: Seq<int>, rows: nat)
    ensures
        nested_dot(a, b, i, v, rows, 0) == 0,
    decreases rows,
{
    if rows > 0 {
        lemma_nested_dot_empty(a, b, i, v, (rows - 1) as nat);
        let x = a.data[i * a.cols + (rows - 1)] as int;
        assert(x * 0 == 0) by (nonlinear_arith);
    }
}

/// Row `i` of the product `c` against `v` is the nested sum.
proof fn lemma_product_row(
    a: MatrixModel,
    b: MatrixModel,
    c: MatrixModel,
    i: int,
    v: Seq<int>,
    cols: nat,
)
    requires
        is_product(a, b, c),
        0 <= i < c.rows,
        cols <= c.cols,
    ensures
        row_dot(c, i, v, cols) == nested_dot(a, b, i, v, a.cols, cols),
    decreases cols,
{
    if cols == 0 {
        lemma_nested_dot_empty(a, b, i, v, a.cols);
    } else {
        let k = (cols - 1) as nat;
        lemma_product_row(a, b, c, i, v, k);
        lemma_nested_dot_column(a, b, i, v, a.cols, k);
        assert(c.data[i * c.cols + k] == product_entry(a, b, i, k as int, a.cols));
    }
}

/// Row `i` of `a` against the vector `b * v` is the nested sum.
proof fn lemma_applied_row(a: MatrixModel, b: MatrixModel, i: int, v: Seq<int>, rows: nat)
    requires
        rows <= b.rows,
    ensures
        row_dot(a, i, mat_vec(b, v), rows) == nested_dot(a, b, i, v, rows, b.cols),
    decreases rows,
{
    if rows > 0 {
        lemma_applied_row(a, b, i, v, (rows - 1) as nat);
    }
}

/// A correct product passes with every probing vector: where `c` is the
/// product of `a` and `b`, the vectors `a * (b * v)` and `c * v` are the
/// same, so the check never answers that the product is wrong.
pub proof fn lemma_correct_product_passes(
    a: MatrixModel,
    b: MatrixModel,
    c: MatrixModel,
    v: Seq<int>,
)
    requires
        is_product(a, b, c),
    ensures
        mat_vec(a, mat_vec(b, v)) == mat_vec(c, v),
        outcome_with(a, b, c, v) != Ok::<bool, FreivaldsError>(false),
{
    assert forall|i: int| 0 <= i < a.rows implies row_dot(a, i, mat_vec(b, v), a.cols) == row_dot(
        c,
        i,
        v,
        c.cols,
    ) by {
        lemma_applied_row(a, b, i, v, a.cols);
        lemma_product_row(a, b, c, i, v, c.cols);
    }
    assert(mat_vec(a, mat_vec(b, v)) =~= mat_vec(c, v));
}

/// A matrix of `u64` entries, held row after row.
pub struct Matrix {
    rows: usize,
    cols: usize,
    data: Vec<u64>,
}

impl View for Matrix {
    type V = MatrixModel;

    closed spec fn view(&self) -> MatrixModel {
        MatrixModel { rows: self.rows as nat, cols: self.cols as nat, data: self.data@ }
    }
}

impl Matrix {
    /// The entries fill the shape, and neither side is longer than
    /// `isize::MAX`.
    #[verifier::type_invariant]
    pub open spec fn well_formed(self) -> bool {
        &&& self@.data.len() == self@.rows * self@.cols
        &&& self@.rows <= isize::MAX
        &&& self@.cols <= isize::MAX
    }

    /// The matrix of the given shape whose entries are `data`, row after
    /// row; `None` where `data` does not hold `rows * cols` entries or a
    /// side is longer than `isize::MAX`.
    pub fn from_shape_vec(rows: usize, cols: usize, data: Vec<u64>) -> (r: Option<Matrix>)
        ensures
            r is Some <==> (data@.len() == rows * cols && rows <= isize::MAX && cols
                <= isize::MAX),
            r is Some ==> r.unwrap()@ == (MatrixModel {
                rows: rows as nat,
                cols: cols as nat,
                data: data@,
            }),
    {
        if rows > isize::MAX as usize || cols > isize::MAX as usize {
            return None;
        }
        assert((rows as u128) * (cols as u128) <= 0xffff_ffff_ffff_ffff * 0xffff_ffff_ffff_ffff)
            by (nonlinear_arith)
            requires
                rows <= 0xffff_ffff_ffff_ffff,
                cols <= 0xffff_ffff_ffff_ffff,
        ;
        if (rows as u128) * (cols as u128) != data.len() as u128 {
            return None;
        }
        Some(Matrix { rows, cols, data })
    }

    /// The number of rows.
    pub fn nrows(&self) -> (n: usize)
        ensures
            n == self@.rows,
    {
        self.rows
    }

    /// The number of columns.
    pub fn ncols(&self) -> (n: usize)
        ensures
            n == self@.cols,
    {
        self.cols
    }

    /// Whether every entry of the product with `v` fits in a `u64`.
    pub fn product_fits(&self, v: &Vec<u64>) -> (fits: bool)
        requires
            v@.len() == self@.cols,
        ensures
            fits == product_fits(self@, ints(v@)),
    {
        proof {
            use_type_invariant(self);
        }
        let ghost m = self@;
        let ghost w = ints(v@);
        let len: usize = self.data.len();
        let mut i: usize = 0;
        while i < self.rows
            invariant
                i <= self.rows,
                len == m.data.len(),
                m == self@,
                w == ints(v@),
                v@.len() == m.cols,
                m.data.len() == m.rows * m.cols,
                forall|k: int| 0 <= k < i ==> #[trigger] row_dot(m, k, w, m.cols) <= u64::MAX,
            decreases self.rows - i,
        {
            let mut acc: u128 = 0;
            let mut j: usize = 0;
            while j < self.cols
                invariant
                    j <= self.cols,
                    i < self.rows,
                    len == m.data.len(),
                    m == self@,
                    w == ints(v@),
                    v@.len() == m.cols,
                    m.data.len() == m.rows * m.cols,
                    acc == row_dot(m, i as int, w, j as nat),
                    acc <= u64::MAX,
                decreases self.cols - j,
            {
                proof {
                    lemma_index_in_range(i as int, j as int, self.rows as int, self.cols as int);
                    assert(self.data@.len() == self.rows * self.cols);
                    assert(i * self.cols + j < self.data@.len());
                }
                let x: u64 = self.data[i * self.cols + j];
                let y: u64 = v[j];
                assert((x as u128) * (y as u128) <= 0xffff_ffff_ffff_ffff * 0xffff_ffff_ffff_ffff)
                    by (nonlinear_arith)
                    requires
                        x <= 0xffff_ffff_ffff_ffff,
                        y <= 0xffff_ffff_ffff_ffff,
                ;
                let next: u128 = acc + (x as u128) * (y as u128);
                assert(next == row_dot(m, i as int, w, (j + 1) as nat));
                if next > u64::MAX as u128 {
                    proof {
                        lemma_row_dot_monotone(m, i as int, w, (j + 1) as nat, m.cols);
                    }
                    return false;
                }
                acc = next;
                j = j + 1;
            }
            i = i + 1;
        }
        true
    }

    /// The product of the matrix and the column vector `v`, by `ndarray`'s
    /// `dot` of an `Array2` with an `Array1`: entry `i` of the result is the
    /// sum over the columns `j` of `m[i][j] * v[j]`. `ndarray` adds and
    /// multiplies in `u64`, so every such sum has to fit.
    #[verifier::external_body]
    fn dot(&self, v: &Vec<u64>) -> (r: Vec<u64>)
        requires
            v@.len() == self@.cols,
            product_fits(self@, ints(v@)),
        ensures
            ints(r@) == mat_vec(self@, ints(v@)),
    {
        let a = ndarray::Array2::from_shape_vec((self.rows, self.cols), self.data.clone()).unwrap();
        let x = ndarray::Array1::from_vec(v.clone());
        a.dot(&x).to_vec()
    }
}

/// Entry `(i, j)` of a matrix lies within its entries.
pub proof fn lemma_index_in_range(i: int, j: int, rows: int, cols: int)
    requires
        0 <= i < rows,
        0 <= j < cols,
    ensures
        0 <= i * cols + j < rows * cols,
        0 <= i * cols,
{
    assert(i * cols + cols <= rows * cols) by (nonlinear_arith)
        requires
            0 <= i < rows,
            0 <= cols,
    ;
    assert(0 <= i * cols) by (nonlinear_arith)
        requires
            0 <= i,
            0 <= cols,
    ;
}

/// The generator of the probing vector: the linear recurrence
/// `prod := prod * r % field`, started at 1.
pub struct X {
    pub field: u64,
    pub r: u64,
    pub prod: u64,
}

impl X {
    /// The recurrence with multiplier `r` modulo `field`, before its first
    /// step.
    pub fn new(r: u64, field: u64) -> (x: Self)
        ensures
            x.field == field,
            x.r == r,
            x.prod == 1,
    {
        Self { field, r, prod: 1 }
    }

    /// Advances the recurrence by one step and hands out the new product.
    /// The product is formed in 128 bits, so no field overflows.
    pub fn next(&mut self) -> (item: Option<u64>)
        requires
            old(self).field > 0,
        ensures
            final(self).field == old(self).field,
            final(self).r == old(self).r,
            final(self).prod == (old(self).prod * old(self).r) % (old(self).field as int),
            item == Some(final(self).prod),
    {
        assert((self.prod as u128) * (self.r as u128) <= 0xffff_ffff_ffff_ffff
            * 0xffff_ffff_ffff_ffff) by (nonlinear_arith)
            requires
                self.prod <= 0xffff_ffff_ffff_ffff,
                self.r <= 0xffff_ffff_ffff_ffff,
        ;
        let next: u128 = ((self.prod as u128) * (self.r as u128)) % (self.field as u128);
        self.prod = next as u64;
        Some(self.prod)
    }
}

/// Whether two vectors hold the same entries.
fn vectors_equal(a: &Vec<u64>, b: &Vec<u64>) -> (same: bool)
    ensures
        same == (ints(a@) == ints(b@)),
{
    if a.len() != b.len() {
        assert(ints(a@).len() != ints(b@).len());
        return false;
    }
    let mut i: usize = 0;
    while i < a.len()
        invariant
            i <= a@.len(),
            a@.len() == b@.len(),
            forall|k: int| 0 <= k < i ==> a@[k] == b@[k],
        decreases a.len() - i,
    {
        if a[i] != b[i] {
            assert(ints(a@)[i as int] != ints(b@)[i as int]);
            return false;
        }
        i = i + 1;
    }
    assert(ints(a@) =~= ints(b@));
    true
}

/// Freivalds' check with probing vectors from the integers modulo
/// `field`.
pub struct Freivalds {
    pub field: u64,
}

impl Freivalds {
    /// The probing vector of length `n` that `seed` gives: the powers
    /// `r, r^2, .., r^n` of `r = seed % field` modulo `field`.
    pub fn vector_from_seed(&self, seed: u64, n: usize) -> (v: Vec<u64>)
        requires
            self.field > 0,
        ensures
            ints(v@) == power_vector(seed as nat, self.field as nat, n as nat),
    {
        let ghost f = self.field as int;
        let ghost r = (seed % self.field) as int;
        let mut x: X = X::new(seed % self.field, self.field);
        let mut v: Vec<u64> = Vec::new();
        let mut i: usize = 0;
        while i < n
            invariant
                i <= n,
                f == self.field,
                f > 0,
                r == (seed % self.field) as int,
                x.field == self.field,
                x.r == r,
                i == 0 ==> x.prod == 1,
                i > 0 ==> x.prod == pow(r, i as nat) % f,
                v@.len() == i,
                forall|k: int| 0 <= k < i ==> v@[k] == pow(r, (k + 1) as nat) % f,
            decreases n - i,
        {
            proof {
                reveal(pow);
                assert(pow(r, (i + 1) as nat) == r * pow(r, i as nat));
                if i == 0 {
                    assert(pow(r, 0) == 1);
                    assert(1 * r == r * 1) by (nonlinear_arith);
                } else {
                    lemma_mul_mod_noop_left(pow(r, i as nat), r, f);
                    assert(pow(r, i as nat) * r == r * pow(r, i as nat)) by (nonlinear_arith);
                }
            }
            let item: Option<u64> = x.next();
            match item {
                Some(y) => {
                    v.push(y);
                },
                None => {},
            }
            i = i + 1;
        }
        assert(ints(v@) =~= power_vector(seed as nat, self.field as nat, n as nat));
        v
    }

    /// A probing vector of length `n` from a freshly drawn random seed.
    pub fn get_vec(&self, n: usize) -> (v: Vec<u64>)
        requires
            self.field > 0,
        ensures
            exists|seed: u64| ints(v@) == power_vector(seed as nat, self.field as nat, n as nat),
    {
        let r: u64 = random_u64();
        self.vector_from_seed(r, n)
    }

    /// Whether the three matrices have the same shape.
    pub fn check_matrix_dimensions(&self, a: &Matrix, b: &Matrix, c: &Matrix) -> (same: bool)
        ensures
            same == (a@.rows == b@.rows && a@.cols == b@.cols && b@.rows == c@.rows && b@.cols
                == c@.cols),
    {
        a.nrows() == b.nrows() && a.ncols() == b.ncols() && b.nrows() == c.nrows() && b.ncols()
            == c.ncols()
    }

    /// Checks `A * B == C` with the probing vector `v`: `A * (B * v)` is
    /// compared with `C * v`.
    pub fn verify_with_vector(&self, a: &Matrix, b: &Matrix, c: &Matrix, v: &Vec<u64>) -> (res:
        Result<bool, FreivaldsError>)
        ensures
            res == outcome_with(a@, b@, c@, ints(v@)),
    {
        if !self.check_matrix_dimensions(a, b, c) || a.nrows() != a.ncols() || v.len()
            != c.ncols() {
            return Err(FreivaldsError::DimensionMismatch);
        }
        if !b.product_fits(v) {
            return Err(FreivaldsError::ArithmeticOverflow);
        }
        let bv: Vec<u64> = b.dot(v);
        assert(ints(bv@).len() == bv@.len());
        if !a.product_fits(&bv) {
            return Err(FreivaldsError::ArithmeticOverflow);
        }
        let abv: Vec<u64> = a.dot(&bv);
        if !c.product_fits(v) {
            return Err(FreivaldsError::ArithmeticOverflow);
        }
        let cv: Vec<u64> = c.dot(v);
        Ok(vectors_equal(&abv, &cv))
    }

    /// Checks `A * B == C` with the probing vector that `seed` gives.
    pub fn verify_with_seed(&self, a: &Matrix, b: &Matrix, c: &Matrix, seed: u64) -> (res: Result<
        bool,
        FreivaldsError,
    >)
        requires
            self.field > 0,
        ensures
            res == outcome_with(
                a@,
                b@,
                c@,
                power_vector(seed as nat, self.field as nat, c@.cols),
            ),
    {
        let v: Vec<u64> = self.vector_from_seed(seed, c.ncols());
        self.verify_with_vector(a, b, c, &v)
    }

    /// Checks `A * B == C` with a probing vector from a fresh random seed.
    /// Matrices that are not square and of one size are refused before any
    /// seed is drawn; otherwise the outcome is that of
    /// [`Freivalds::verify_with_seed`] for the seed that was drawn.
    pub fn verify(&self, a: &Matrix, b: &Matrix, c: &Matrix) -> (res: Result<bool, FreivaldsError>)
        requires
            self.field > 0,
        ensures
            res == Err::<bool, FreivaldsError>(FreivaldsError::DimensionMismatch)
                <==> !dimensions_agree(a@, b@, c@),
            exists|seed: u64|
                res == outcome_with(
                    a@,
                    b@,
                    c@,
                    power_vector(seed as nat, self.field as nat, c@.cols),
                ),
    {
        if !self.check_matrix_dimensions(a, b, c) || a.nrows() != a.ncols() {
            assert(outcome_with(a@, b@, c@, power_vector(0u64 as nat, self.field as nat, c@.cols))
                == Err::<bool, FreivaldsError>(FreivaldsError::DimensionMismatch));
            return Err(FreivaldsError::DimensionMismatch);
        }
        let seed: u64 = random_u64();
        self.verify_with_seed(a, b, c, seed)
    }
}

/// With `A = [[1, 2], [3, 4]]`, `B = [[5, 6], [7, 8]]` and their product
/// `C = [[19, 22], [43, 50]]`, every probing vector with entries below 1009
/// is accepted.
proof fn lemma_demonstration_accepted(a: MatrixModel, b: MatrixModel, c: MatrixModel, v: Seq<int>)
    requires
        a == (MatrixModel { rows: 2, cols: 2, data: seq![1u64, 2u64, 3u64, 4u64] }),
        b == (MatrixModel { rows: 2, cols: 2, data: seq![5u64, 6u64, 7u64, 8u64] }),
        c == (MatrixModel { rows: 2, cols: 2, data: seq![19u64, 22u64, 43u64, 50u64] }),
        v.len() == 2,
        0 <= v[0] < 1009,
        0 <= v[1] < 1009,
    ensures
        outcome_with(a, b, c, v) == Ok::<bool, FreivaldsError>(true),
{
    reveal_with_fuel(row_dot, 3);
    let bv = mat_vec(b, v);
    assert(bv[0] == 5 * v[0] + 6 * v[1]);
    assert(bv[1] == 7 * v[0] + 8 * v[1]);
    let abv = mat_vec(a, bv);
    let cv = mat_vec(c, v);
    assert(abv[0] == 1 * bv[0] + 2 * bv[1]);
    assert(abv[1] == 3 * bv[0] + 4 * bv[1]);
    assert(cv[0] == 19 * v[0] + 22 * v[1]);
    assert(cv[1] == 43 * v[0] + 50 * v[1]);
    assert(abv =~= cv);
    assert(product_fits(b, v)) by {
        assert(row_dot(b, 0, v, 2) == bv[0]);
        assert(row_dot(b, 1, v, 2) == bv[1]);
    }
    assert(product_fits(a, bv)) by {
        assert(row_dot(a, 0, bv, 2) == abv[0]);
        assert(row_dot(a, 1, bv, 2) == abv[1]);
    }
    assert(product_fits(c, v)) by {
        assert(row_dot(c, 0, v, 2) == cv[0]);
        assert(row_dot(c, 1, v, 2) == cv[1]);
    }
}

/// Runs the check on the demonstration matrices `A = [[1, 2], [3, 4]]`,
/// `B = [[5, 6], [7, 8]]` and `C = [[19, 22], [43, 50]]` in the field of
/// 1009 elements. `C` is the product, so the check accepts whatever seed
/// is drawn.
pub fn freivalds_simulations() -> (accepted: bool)
    ensures
        accepted,
{
    let freivalds = Freivalds { field: 1009 };
    let mut x: Vec<u64> = Vec::new();
    x.push(1);
    x.push(2);
    x.push(3);
    x.push(4);
    let mut y: Vec<u64> = Vec::new();
    y.push(5);
    y.push(6);
    y.push(7);
    y.push(8);
    let mut z: Vec<u64> = Vec::new();
    z.push(19);
    z.push(22);
    z.push(43);
    z.push(50);
    proof {
        assert(x@ =~= seq![1u64, 2u64, 3u64, 4u64]);
        assert(y@ =~= seq![5u64, 6u64, 7u64, 8u64]);
        assert(z@ =~= seq![19u64, 22u64, 43u64, 50u64]);
        assert(2 * 2 == 4) by (nonlinear_arith);
    }
    match (Matrix::from_shape_vec(2, 2, x), Matrix::from_shape_vec(2, 2, y), Matrix::from_shape_vec(2, 2, z)) {
        (Some(a), Some(b), Some(c)) => {
            let res = freivalds.verify(&a, &b, &c);
            proof {
                assert forall|seed: u64| #[trigger]
                    outcome_with(a@, b@, c@, power_vector(seed as nat, 1009, 2)) == Ok::<
                        bool,
                        FreivaldsError,
                    >(true) by {
                    let v = power_vector(seed as nat, 1009, 2);
                    lemma_mod_bound(pow((seed as nat % 1009) as int, 1), 1009);
                    lemma_mod_bound(pow((seed as nat % 1009) as int, 2), 1009);
                    lemma_demonstration_accepted(a@, b@, c@, v);
                }
            }
            match res {
                Ok(accepted) => accepted,
                Err(_) => false,
            }
        },
        _ => false,
    }
}

} // verus!
