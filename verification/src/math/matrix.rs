//! Storage and indexing of square matrices.
//!
//! A matrix of order `n` stores its `n * n` elements in column-major order: element `(i,j)`, at
//! row `i` and column `j`, is at position `j * n + i` of the storage.

use vstd::prelude::*;

use vstd::std_specs::iter::IteratorSpec;

verus! {

broadcast use vstd::std_specs::slice::axiom_spec_slice_iter;

/// A NxN, column-major matrix.
#[derive(Debug, Clone, PartialEq)]
pub struct MatrixN<T> {
    data: Vec<T>,
    order: usize,
}

/// The storage position of element `(i,j)` in a column-major matrix of order `n`.
pub open spec fn linear_index(n: nat, i: nat, j: nat) -> nat {
    j * n + i
}

/// Index `k` of a matrix with row or column `skipped` removed, as an index of the full matrix.
pub open spec fn skip_index(k: nat, skipped: nat) -> nat {
    if k < skipped {
        k
    } else {
        k + 1
    }
}

impl<T> MatrixN<T> {
    /// The storage holds exactly `order * order` elements, a number that fits in `usize`.
    pub closed spec fn wf(self) -> bool {
        &&& self.data@.len() == self.order * self.order
        &&& self.order * self.order <= usize::MAX
    }

    /// The number of rows (and of columns).
    pub closed spec fn dim(self) -> nat {
        self.order as nat
    }

    /// The elements in column-major order.
    pub closed spec fn entries(self) -> Seq<T> {
        self.data@
    }

    /// Element `(i,j)`.
    pub open spec fn entry(self, i: nat, j: nat) -> T {
        self.entries()[linear_index(self.dim(), i, j) as int]
    }

    /// `self` is `other` with rows and columns exchanged.
    pub open spec fn is_transpose_of(self, other: Self) -> bool {
        &&& self.dim() == other.dim()
        &&& self.entries().len() == self.dim() * self.dim()
        &&& forall|i: nat, j: nat|
            i < self.dim() && j < self.dim() ==> #[trigger] self.entry(i, j) == other.entry(j, i)
    }

    /// `self` is `other` without row `row` and column `col`.
    pub open spec fn is_submatrix_of(self, other: Self, row: nat, col: nat) -> bool {
        &&& self.dim() + 1 == other.dim()
        &&& self.entries().len() == self.dim() * self.dim()
        &&& forall|i: nat, j: nat|
            i < self.dim() && j < self.dim() ==> #[trigger] self.entry(i, j) == other.entry(
                skip_index(i, row),
                skip_index(j, col),
            )
    }

    /// Returns the order of this matrix, ie. the number of its rows/columns.
    pub fn order(&self) -> (n: usize)
        ensures
            n == self.dim(),
    {
        self.order
    }

    /// Returns a reference to the element at position `(i,j)`, or `None` if the index is
    /// out-of-bounds.
    pub fn get(&self, pos: (usize, usize)) -> (e: Option<&T>)
        requires
            self.wf(),
        ensures
            e == if pos.0 < self.dim() && pos.1 < self.dim() {
                Some(&self.entry(pos.0 as nat, pos.1 as nat))
            } else {
                None::<&T>
            },
    {
        if pos.0 < self.order && pos.1 < self.order {
            proof {
                lemma_linear_index_in_bounds(self.dim(), pos.0 as nat, pos.1 as nat);
            }
            let idx = self.liner_index(pos.0, pos.1);
            Some(&self.data[idx])
        } else {
            None
        }
    }

    /// Returns a mutable reference to the element at position `(i,j)`, or `None` if the index is
    /// out-of-bounds.
    pub fn get_mut(&mut self, pos: (usize, usize)) -> (e: Option<&mut T>)
        requires
            old(self).wf(),
        ensures
            final(self).wf(),
            final(self).dim() == old(self).dim(),
            match e {
                Some(r) => {
                    let k = linear_index(old(self).dim(), pos.0 as nat, pos.1 as nat) as int;
                    &&& pos.0 < old(self).dim() && pos.1 < old(self).dim()
                    &&& *r == old(self).entry(pos.0 as nat, pos.1 as nat)
                    &&& final(self).entries() == old(self).entries().update(k, *final(r))
                },
                None => {
                    &&& !(pos.0 < old(self).dim() && pos.1 < old(self).dim())
                    &&& final(self).entries() == old(self).entries()
                },
            },
    {
        if pos.0 < self.order && pos.1 < self.order {
            proof {
                lemma_linear_index_in_bounds(self.dim(), pos.0 as nat, pos.1 as nat);
            }
            let idx = self.liner_index(pos.0, pos.1);
            Some(&mut self.data[idx])
        } else {
            None
        }
    }

    /// Returns a reference to element `(i,j)`, which must lie within the matrix.
    pub fn get_unchecked(&self, pos: (usize, usize)) -> (e: &T)
        requires
            self.wf(),
            pos.0 < self.dim(),
            pos.1 < self.dim(),
        ensures
            *e == self.entry(pos.0 as nat, pos.1 as nat),
    {
        proof {
            lemma_linear_index_in_bounds(self.dim(), pos.0 as nat, pos.1 as nat);
        }
        let idx = self.liner_index(pos.0, pos.1);
        &self.data[idx]
    }

    /// Returns a mutable reference to element `(i,j)`, which must lie within the matrix.
    pub fn get_unchecked_mut(&mut self, pos: (usize, usize)) -> (e: &mut T)
        requires
            old(self).wf(),
            pos.0 < old(self).dim(),
            pos.1 < old(self).dim(),
        ensures
            final(self).wf(),
            final(self).dim() == old(self).dim(),
            *e == old(self).entry(pos.0 as nat, pos.1 as nat),
            final(self).entries() == old(self).entries().update(
                linear_index(old(self).dim(), pos.0 as nat, pos.1 as nat) as int,
                *final(e),
            ),
    {
        proof {
            lemma_linear_index_in_bounds(self.dim(), pos.0 as nat, pos.1 as nat);
        }
        let idx = self.liner_index(pos.0, pos.1);
        &mut self.data[idx]
    }

    /// Iterates through this matrix' elements in column-major order.
    pub fn iter(&self) -> (it: std::slice::Iter<'_, T>)
        ensures
            it.remaining() == self.entries().map_values(|e: T| &e),
    {
        let it = self.data.as_slice().iter();
        proof {
            assert(self.data@.as_ref() =~= self.entries().map_values(|e: T| &e));
        }
        it
    }

    /// Mutably iterates through this matrix' elements in column-major order.
    pub fn iter_mut(&mut self) -> (elements: &mut [T])
        requires
            old(self).wf(),
        ensures
            elements@ == old(self).entries(),
            final(self).entries() == final(elements)@,
            final(self).dim() == old(self).dim(),
            final(elements)@.len() == elements@.len() ==> final(self).wf(),
    {
        self.data.as_mut_slice()
    }

    /// Returns the storage position of element `(irow,icol)`.
    fn liner_index(&self, irow: usize, icol: usize) -> (k: usize)
        requires
            linear_index(self.dim(), irow as nat, icol as nat) <= usize::MAX,
        ensures
            k == linear_index(self.dim(), irow as nat, icol as nat),
    {
        proof {
            assert(icol * self.order == self.order * icol) by (nonlinear_arith);
        }
        icol * self.order + irow
    }
}

impl<T: Copy> MatrixN<T> {
    /// Creates a matrix of order `n` with every element equal to `value`.
    pub fn filled(n: usize, value: T) -> (m: Self)
        requires
            n * n <= usize::MAX,
        ensures
            m.wf(),
            m.dim() == n,
            m.entries() == Seq::new((n * n) as nat, |k: int| value),
    {
        let total = n * n;
        let mut data: Vec<T> = Vec::new();
        while data.len() < total
            invariant
                data@.len() <= total,
                forall|k: int| 0 <= k < data@.len() ==> #[trigger] data@[k] == value,
            decreases total - data@.len(),
        {
            data.push(value);
        }
        let m = MatrixN { data, order: n };
        assert(m.entries() =~= Seq::new((n * n) as nat, |k: int| value));
        m
    }

    /// Creates the matrix of order `n` with `one` on its diagonal and `zero` elsewhere.
    pub fn identity_with(n: usize, zero: T, one: T) -> (m: Self)
        requires
            n * n <= usize::MAX,
        ensures
            m.wf(),
            m.dim() == n,
            forall|i: nat, j: nat|
                i < n && j < n ==> #[trigger] m.entry(i, j) == if i == j {
                    one
                } else {
                    zero
                },
    {
        let mut m = Self::filled(n, zero);
        assert forall|r: nat, c: nat| r < n && c < n implies #[trigger] m.entry(r, c) == zero by {
            lemma_linear_index_in_bounds(n as nat, r, c);
        }
        let mut i: usize = 0;
        while i < n
            invariant
                i <= n,
                n * n <= usize::MAX,
                m.wf(),
                m.dim() == n,
                forall|r: nat, c: nat|
                    r < n && c < n ==> #[trigger] m.entry(r, c) == if r == c && r < i {
                        one
                    } else {
                        zero
                    },
            decreases n - i,
        {
            proof {
                assert(i * n + i < n * n) by (nonlinear_arith)
                    requires
                        i < n,
                ;
                assert(i * n == n * i) by (nonlinear_arith);
            }
            let k = i * n + i;
            let ghost before = m.entries();
            assert forall|r: nat, c: nat| r < n && c < n implies #[trigger] before[linear_index(
                n as nat,
                r,
                c,
            ) as int] == if r == c && r < i {
                one
            } else {
                zero
            } by {
                assert(m.entry(r, c) == before[linear_index(n as nat, r, c) as int]);
            }
            m.data.set(k, one);
            proof {
                assert forall|r: nat, c: nat| r < n && c < n implies #[trigger] m.entry(r, c)
                    == if r == c && r < i + 1 {
                    one
                } else {
                    zero
                } by {
                    lemma_linear_index_unique(n as nat, r, c, i as nat, i as nat);
                    lemma_linear_index_in_bounds(n as nat, r, c);
                    assert(m.entry(r, c) == m.entries()[linear_index(n as nat, r, c) as int]);
                }
            }
            i = i + 1;
        }
        m
    }

    /// Creates a matrix of order `n` from its elements in column-major order.
    ///
    /// The slice must hold exactly `n * n` elements.
    pub fn from_column_slice(n: usize, data: &[T]) -> (m: Self)
        requires
            data@.len() == n * n,
        ensures
            m.wf(),
            m.dim() == n,
            m.entries() == data@,
    {
        let mut out: Vec<T> = Vec::new();
        let mut k: usize = 0;
        while k < data.len()
            invariant
                k <= data@.len(),
                out@ == data@.take(k as int),
            decreases data@.len() - k,
        {
            out.push(data[k]);
            k = k + 1;
            assert(out@ =~= data@.take(k as int));
        }
        assert(out@ =~= data@);
        MatrixN { data: out, order: n }
    }

    /// Creates a matrix of order `n` from its elements in row-major order.
    ///
    /// The slice must hold exactly `n * n` elements.
    pub fn from_row_slice(n: usize, data: &[T]) -> (m: Self)
        requires
            data@.len() == n * n,
        ensures
            m.wf(),
            m.dim() == n,
            forall|i: nat, j: nat|
                i < n && j < n ==> #[trigger] m.entry(i, j) == data@[(i * n + j) as int],
    {
        let columns = Self::from_column_slice(n, data);
        let m = columns.transpose();
        assert forall|i: nat, j: nat| i < n && j < n implies #[trigger] m.entry(i, j)
            == data@[(i * n + j) as int] by {
            assert(m.entry(i, j) == columns.entry(j, i));
            assert(i * n == n * i) by (nonlinear_arith);
        }
        m
    }

    /// Transposes `self`.
    pub fn transpose(&self) -> (t: Self)
        requires
            self.wf(),
        ensures
            t.wf(),
            t.is_transpose_of(*self),
    {
        let n = self.order;
        let mut data: Vec<T> = Vec::new();
        let mut j: usize = 0;
        while j < n
            invariant
                j <= n,
                n == self.dim(),
                self.wf(),
                data@.len() == j * n,
                forall|r: nat, c: nat|
                    r < n && c < j ==> #[trigger] data@[linear_index(n as nat, r, c) as int]
                        == self.entry(c, r),
            decreases n - j,
        {
            let mut i: usize = 0;
            while i < n
                invariant
                    i <= n,
                    j < n,
                    n == self.dim(),
                    self.wf(),
                    data@.len() == j * n + i,
                    forall|r: nat, c: nat|
                        ((c < j && r < n) || (c == j && r < i)) ==> #[trigger] data@[linear_index(
                            n as nat,
                            r,
                            c,
                        ) as int] == self.entry(c, r),
                decreases n - i,
            {
                proof {
                    assert(i * n + j < n * n) by (nonlinear_arith)
                        requires
                            i < n,
                            j < n,
                    ;
                    assert(j * n + i < n * n) by (nonlinear_arith)
                        requires
                            i < n,
                            j < n,
                    ;
                }
                let e = *self.get_unchecked((j, i));
                let ghost before = data@;
                data.push(e);
                proof {
                    assert forall|r: nat, c: nat|
                        ((c < j && r < n) || (c == j && r < i + 1)) implies #[trigger] data@[linear_index(
                        n as nat,
                        r,
                        c,
                    ) as int] == self.entry(c, r) by {
                        if c == j && r == i {
                        } else {
                            lemma_linear_index_bound(n as nat, r, c, j as nat, i as nat);
                        }
                    }
                }
                i = i + 1;
            }
            proof {
                assert((j + 1) * n == j * n + n) by (nonlinear_arith);
            }
            j = j + 1;
        }
        let t = MatrixN { data, order: n };
        assert forall|i: nat, j: nat| i < t.dim() && j < t.dim() implies #[trigger] t.entry(i, j)
            == self.entry(j, i) by {}
        t
    }

    /// Returns the matrix of order `n-1` obtained by removing row `row` and column `col` from
    /// `self`.
    ///
    /// Both must be within the matrix, except for a matrix of order 1, whose submatrix is empty
    /// as soon as one of them is.
    pub fn submatrix(&self, row: usize, col: usize) -> (s: Self)
        requires
            self.wf(),
            self.dim() >= 1,
            (row < self.dim() && col < self.dim()) || (self.dim() == 1 && (row < 1 || col < 1)),
        ensures
            s.wf(),
            s.is_submatrix_of(*self, row as nat, col as nat),
    {
        let n = self.order;
        let ghost m = (n - 1) as nat;
        let mut data: Vec<T> = Vec::new();
        let mut j: usize = 0;
        while j < n
            invariant
                j <= n,
                n == self.dim(),
                n >= 1,
                m == n - 1,
                (row < n && col < n) || (n == 1 && (row < 1 || col < 1)),
                self.wf(),
                data@.len() == (if j <= col { j as nat } else { (j - 1) as nat }) * m,
                forall|r: nat, c: nat|
                    r < m && skip_index(c, col as nat) < j ==> #[trigger] data@[linear_index(
                        m,
                        r,
                        c,
                    ) as int] == self.entry(skip_index(r, row as nat), skip_index(c, col as nat)),
            decreases n - j,
        {
            if j != col {
                let ghost c0: nat = if j < col { j as nat } else { (j - 1) as nat };
                let ghost base = data@.len();
                assert(base == c0 * m);
                let mut i: usize = 0;
                while i < n
                    invariant
                        i <= n,
                        j < n,
                        j != col,
                        n == self.dim(),
                        n >= 1,
                        m == n - 1,
                        (row < n && col < n) || (n == 1 && (row < 1 || col < 1)),
                        self.wf(),
                        c0 == (if j < col { j as nat } else { (j - 1) as nat }),
                        base == c0 * m,
                        data@.len() == base + (if i <= row { i as nat } else { (i - 1) as nat }),
                        forall|r: nat, c: nat|
                            r < m && skip_index(c, col as nat) < j ==> #[trigger] data@[linear_index(
                                m,
                                r,
                                c,
                            ) as int] == self.entry(
                                skip_index(r, row as nat),
                                skip_index(c, col as nat),
                            ),
                        forall|r: nat|
                            r < m && skip_index(r, row as nat) < i ==> #[trigger] data@[linear_index(
                                m,
                                r,
                                c0,
                            ) as int] == self.entry(skip_index(r, row as nat), j as nat),
                    decreases n - i,
                {
                    if i != row {
                        proof {
                            assert(j * n + i < n * n) by (nonlinear_arith)
                                requires
                                    i < n,
                                    j < n,
                            ;
                        }
                        let e = *self.get_unchecked((i, j));
                        let ghost r0: nat = if i < row { i as nat } else { (i - 1) as nat };
                        proof {
                            assert(c0 * m == m * c0) by (nonlinear_arith);
                        }
                        data.push(e);
                        proof {
                            assert forall|r: nat, c: nat|
                                r < m && skip_index(c, col as nat) < j implies #[trigger] data@[linear_index(
                                m,
                                r,
                                c,
                            ) as int] == self.entry(skip_index(r, row as nat), skip_index(c, col as nat)) by {
                                lemma_column_before(m, r, c, c0);
                            }
                            assert forall|r: nat| r < m && skip_index(r, row as nat) < i + 1 implies #[trigger] data@[linear_index(
                                m,
                                r,
                                c0,
                            ) as int] == self.entry(skip_index(r, row as nat), j as nat) by {
                                assert(m * c0 + r == c0 * m + r) by (nonlinear_arith);
                            }
                        }
                    }
                    i = i + 1;
                }
                proof {
                    assert(data@.len() == (c0 + 1) * m) by (nonlinear_arith)
                        requires
                            data@.len() == c0 * m + m,
                    ;
                    assert forall|r: nat, c: nat|
                        r < m && skip_index(c, col as nat) < j + 1 implies #[trigger] data@[linear_index(
                        m,
                        r,
                        c,
                    ) as int] == self.entry(skip_index(r, row as nat), skip_index(c, col as nat)) by {
                        if skip_index(c, col as nat) == j {
                            assert(c == c0);
                        }
                    }
                }
            }
            j = j + 1;
        }
        proof {
            if col >= n {
                assert(m == 0);
                assert(data@.len() == n * m);
                assert(n * m == 0) by (nonlinear_arith)
                    requires
                        m == 0,
                ;
                assert(m * m == 0) by (nonlinear_arith)
                    requires
                        m == 0,
                ;
            } else {
                assert(data@.len() == (n - 1) * m);
                assert((n - 1) * m == m * m) by (nonlinear_arith)
                    requires
                        m == n - 1,
                ;
            }
            assert(data@.len() == m * m);
            assert(m * m <= n * n) by (nonlinear_arith)
                requires
                    m + 1 == n,
            ;
        }
        let s = MatrixN { data, order: n - 1 };
        assert forall|i: nat, j: nat| i < s.dim() && j < s.dim() implies #[trigger] s.entry(i, j)
            == self.entry(skip_index(i, row as nat), skip_index(j, col as nat)) by {
            assert(skip_index(j, col as nat) < n);
        }
        s
    }
}

/// Skipping index `skipped` maps the indices `0, 1, 2, ...` in increasing order onto every index
/// but `skipped`: each is moved up by at most one, and none lands on `skipped`.
pub proof fn lemma_skip_index_skips(k: nat, l: nat, skipped: nat)
    ensures
        skip_index(k, skipped) != skipped,
        k <= skip_index(k, skipped) <= k + 1,
        k < l ==> skip_index(k, skipped) < skip_index(l, skipped),
        k < skipped ==> skip_index(k, skipped) == k,
{
}

/// Element `(i,j)` of a matrix of order `n` is stored at position `j * n + i`: the storage holds
/// the first column, then the second, and so on.
pub proof fn lemma_entry_is_column_major<T>(m: MatrixN<T>, i: nat, j: nat)
    ensures
        m.entry(i, j) == m.entries()[(j * m.dim() + i) as int],
{
}

/// The submatrix for `(row, col)` is the matrix with exactly row `row` and column `col` removed:
/// its element `(i,j)` is the matrix' element at row `i` (or `i + 1` from row `row` on) and column
/// `j` (or `j + 1` from column `col` on).
pub proof fn lemma_submatrix_drops_row_and_column<T>(m: MatrixN<T>, s: MatrixN<T>, row: nat, col: nat)
    requires
        s.is_submatrix_of(m, row, col),
    ensures
        s.dim() + 1 == m.dim(),
        forall|i: nat, j: nat|
            i < s.dim() && j < s.dim() ==> {
                &&& #[trigger] s.entry(i, j) == s.entries()[(j * s.dim() + i) as int]
                &&& s.entry(i, j) == m.entries()[((if j < col {
                    j
                } else {
                    j + 1
                }) * m.dim() + (if i < row {
                    i
                } else {
                    i + 1
                })) as int]
            },
{
}

/// Transposing twice gives back the original matrix.
pub proof fn lemma_transpose_twice<T>(m: MatrixN<T>, t: MatrixN<T>, tt: MatrixN<T>)
    requires
        m.wf(),
        t.is_transpose_of(m),
        tt.is_transpose_of(t),
    ensures
        tt.dim() == m.dim(),
        tt.entries() == m.entries(),
{
    let n = m.dim();
    assert forall|k: int| 0 <= k < n * n implies #[trigger] tt.entries()[k] == m.entries()[k] by {
        lemma_storage_position(n, k);
        let i = (k % (n as int)) as nat;
        let j = (k / (n as int)) as nat;
        assert(tt.entry(i, j) == t.entry(j, i));
        assert(t.entry(j, i) == m.entry(i, j));
    }
    assert(tt.entries() =~= m.entries());
}

/// Reading elements row by row is reading the transposed matrix column by column.
pub proof fn lemma_row_slice_is_transposed<T>(rows: MatrixN<T>, columns: MatrixN<T>, data: Seq<T>)
    requires
        columns.wf(),
        columns.entries() == data,
        rows.wf(),
        rows.dim() == columns.dim(),
        forall|i: nat, j: nat|
            i < rows.dim() && j < rows.dim() ==> #[trigger] rows.entry(i, j) == data[(i
                * rows.dim() + j) as int],
    ensures
        rows.is_transpose_of(columns),
{
    let n = rows.dim();
    assert forall|i: nat, j: nat| i < n && j < n implies #[trigger] rows.entry(i, j)
        == columns.entry(j, i) by {
        assert(i * n == n * i) by (nonlinear_arith);
    }
}

/// Storage position `k` holds element `(k % n, k / n)`.
proof fn lemma_storage_position(n: nat, k: int)
    requires
        0 <= k < n * n,
    ensures
        n > 0,
        0 <= k % (n as int) < n,
        0 <= k / (n as int) < n,
        linear_index(n, (k % (n as int)) as nat, (k / (n as int)) as nat) == k,
{
    if n == 0 {
        assert(n * n == 0);
    }
    vstd::arithmetic::div_mod::lemma_fundamental_div_mod(k, n as int);
    vstd::arithmetic::div_mod::lemma_div_pos_is_pos(k, n as int);
    let q = k / (n as int);
    let r = k % (n as int);
    assert(q < n) by (nonlinear_arith)
        requires
            k == n * q + r,
            0 <= r,
            k < n * n,
            n > 0,
    ;
    assert((k / (n as int)) * n == n * (k / (n as int))) by (nonlinear_arith);
}

/// Every element of a matrix has a position in its storage.
proof fn lemma_linear_index_in_bounds(n: nat, r: nat, c: nat)
    requires
        r < n,
        c < n,
    ensures
        linear_index(n, r, c) < n * n,
{
    assert(c * n + r < n * n) by (nonlinear_arith)
        requires
            r < n,
            c < n,
    ;
}

/// Distinct elements of a matrix have distinct storage positions.
proof fn lemma_linear_index_unique(n: nat, r: nat, c: nat, r2: nat, c2: nat)
    requires
        r < n,
        r2 < n,
        c < n,
        c2 < n,
    ensures
        linear_index(n, r, c) == linear_index(n, r2, c2) <==> (r == r2 && c == c2),
{
    if c < c2 {
        assert(c * n + n <= c2 * n) by (nonlinear_arith)
            requires
                c < c2,
        ;
    } else if c2 < c {
        assert(c2 * n + n <= c * n) by (nonlinear_arith)
            requires
                c2 < c,
        ;
    }
}

/// Elements stored before element `(r2,c2)` are those of earlier columns or earlier rows of the
/// same column.
proof fn lemma_linear_index_bound(n: nat, r: nat, c: nat, c2: nat, r2: nat)
    requires
        r < n,
        r2 < n,
        (c < c2) || (c == c2 && r < r2),
    ensures
        linear_index(n, r, c) < linear_index(n, r2, c2),
{
    if c < c2 {
        assert(c * n + n <= c2 * n) by (nonlinear_arith)
            requires
                c < c2,
        ;
    }
}

/// Elements of columns before `c0` are stored before column `c0` starts.
proof fn lemma_column_before(m: nat, r: nat, c: nat, c0: nat)
    requires
        r < m,
        c < c0,
    ensures
        linear_index(m, r, c) < c0 * m,
{
    assert(c * m + m <= c0 * m) by (nonlinear_arith)
        requires
            c < c0,
    ;
}

} // verus!
