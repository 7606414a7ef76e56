use vstd::prelude::*;

verus! {

/// A square matrix with a flat, row-major vector representation.
pub struct SqMat<T> {
    inner: Vec<T>,
    dim: usize,
}

/// A sequence of rows forms an `n` by `n` grid.
pub open spec fn is_grid<T>(g: Seq<Seq<T>>, n: nat) -> bool {
    &&& g.len() == n
    &&& forall|r: int| 0 <= r < n ==> (#[trigger] g[r]).len() == n
}

impl<T> View for SqMat<T> {
    type V = Seq<Seq<T>>;

    closed spec fn view(&self) -> Seq<Seq<T>> {
        Seq::new(
            self.dim as nat,
            |r: int| Seq::new(self.dim as nat, |c: int| self.inner@[r * (self.dim as int) + c]),
        )
    }
}

impl<T> SqMat<T> {
    /// The matrix dimension, as seen by specifications.
    pub closed spec fn spec_dim(&self) -> nat {
        self.dim as nat
    }

    /// The flat storage holds exactly `dim * dim` entries.
    pub closed spec fn wf(&self) -> bool {
        self.inner@.len() == self.dim * self.dim
    }

    /// The view of any square matrix has its dimension as the length of
    /// the row sequence and of every row.
    pub broadcast proof fn lemma_grid_shape(&self)
        ensures
            (#[trigger] self@).len() == self.spec_dim(),
            forall|r: int| 0 <= r < self.spec_dim() ==> (#[trigger] self@[r]).len()
                == self.spec_dim(),
    {
    }

    proof fn lemma_flat_index(&self, r: int, c: int)
        requires
            self.wf(),
            0 <= r < self.spec_dim(),
            0 <= c < self.spec_dim(),
        ensures
            0 <= r * (self.dim as int) + c < self.inner@.len(),
            self@[r][c] == self.inner@[r * (self.dim as int) + c],
    {
        let d = self.dim as int;
        assert(r * d + c < d * d) by (nonlinear_arith)
            requires 0 <= r < d && 0 <= c < d;
        assert(0 <= r * d) by (nonlinear_arith)
            requires 0 <= r && 0 <= d;
    }

    proof fn lemma_flat_index_injective(&self, r1: int, c1: int, r2: int, c2: int)
        requires
            0 <= r1 < self.spec_dim(),
            0 <= c1 < self.spec_dim(),
            0 <= r2 < self.spec_dim(),
            0 <= c2 < self.spec_dim(),
            r1 * (self.dim as int) + c1 == r2 * (self.dim as int) + c2,
        ensures
            r1 == r2 && c1 == c2,
    {
        let d = self.dim as int;
        assert(r1 == r2 && c1 == c2) by (nonlinear_arith)
            requires
                0 <= r1 < d && 0 <= c1 < d && 0 <= r2 < d && 0 <= c2 < d,
                r1 * d + c1 == r2 * d + c2;
    }
}

impl<T: Copy> SqMat<T> {
    /// Create a square matrix of dimension `dim` from a flat slice.
    ///
    /// The slice must hold exactly `dim * dim` entries; a mismatch is a
    /// caller defect, excluded by the precondition.
    pub fn from_vec(dim: usize, v: &[T]) -> (r: Self)
        requires
            v@.len() == dim * dim,
        ensures
            r.wf(),
            r.spec_dim() == dim,
            forall|i: int, j: int|
                0 <= i < dim && 0 <= j < dim ==> #[trigger] r@[i][j] == v@[i * (dim as int) + j],
    {
        let inner = vstd::slice::slice_to_vec(v);
        let r = Self { inner, dim };
        proof {
            assert forall|i: int, j: int| 0 <= i < dim && 0 <= j < dim implies #[trigger] r@[i][j]
                == v@[i * (dim as int) + j] by {
                r.lemma_flat_index(i, j);
            }
        }
        r
    }

    /// Read the entry at `(r, c)`.
    pub fn get(&self, r: usize, c: usize) -> (v: T)
        requires
            self.wf(),
            r < self.spec_dim(),
            c < self.spec_dim(),
        ensures
            v == self@[r as int][c as int],
    {
        proof {
            self.lemma_flat_index(r as int, c as int);
        }
        let _n = self.inner.len();
        self.inner[r * self.dim + c]
    }

    /// Write `v` into the entry at `(r, c)`.
    pub fn set(&mut self, r: usize, c: usize, v: T)
        requires
            old(self).wf(),
            r < old(self).spec_dim(),
            c < old(self).spec_dim(),
        ensures
            final(self).wf(),
            final(self).spec_dim() == old(self).spec_dim(),
            final(self)@ == old(self)@.update(r as int, old(self)@[r as int].update(c as int, v)),
    {
        proof {
            self.lemma_flat_index(r as int, c as int);
        }
        let _n = self.inner.len();
        let idx = r * self.dim + c;
        self.inner[idx] = v;
        proof {
            let d = self.dim as int;
            let target = old(self)@.update(r as int, old(self)@[r as int].update(c as int, v));
            assert forall|i: int| 0 <= i < d implies self@[i] =~= target[i] by {
                assert forall|j: int| 0 <= j < d implies self@[i][j] == target[i][j] by {
                    self.lemma_flat_index(i, j);
                    old(self).lemma_flat_index(i, j);
                    if i * d + j == r as int * d + c as int {
                        self.lemma_flat_index_injective(i, j, r as int, c as int);
                    }
                }
            }
            assert(self@ =~= target);
        }
    }

    /// The matrix dimension.
    pub fn dim(&self) -> (d: usize)
        ensures
            d == self.spec_dim(),
    {
        self.dim
    }

    /// An independent copy of the matrix.
    pub fn duplicate(&self) -> (r: Self)
        requires
            self.wf(),
        ensures
            r.wf(),
            r.spec_dim() == self.spec_dim(),
            r@ == self@,
    {
        let inner = vstd::slice::slice_to_vec(self.inner.as_slice());
        let r = Self { inner, dim: self.dim };
        proof {
            assert(r@ =~~= self@);
        }
        r
    }

    /// The matrix entries in row-major order.
    pub fn iter(&self) -> (r: Vec<T>)
        requires
            self.wf(),
        ensures
            r@.len() == self.spec_dim() * self.spec_dim(),
            forall|i: int, j: int|
                0 <= i < self.spec_dim() && 0 <= j < self.spec_dim() ==> r@[i * (self.spec_dim()
                    as int) + j] == #[trigger] self@[i][j],
    {
        let r = vstd::slice::slice_to_vec(self.inner.as_slice());
        proof {
            assert forall|i: int, j: int|
                0 <= i < self.spec_dim() && 0 <= j < self.spec_dim() implies r@[i * (self.spec_dim()
                as int) + j] == #[trigger] self@[i][j] by {
                self.lemma_flat_index(i, j);
            }
        }
        r
    }

    /// The entries of row `r`, left to right.
    pub fn row(&self, r: usize) -> (out: Vec<T>)
        requires
            self.wf(),
            r < self.spec_dim(),
        ensures
            out@ == self@[r as int],
    {
        let mut out: Vec<T> = Vec::new();
        let mut c: usize = 0;
        while c < self.dim
            invariant
                self.wf(),
                r < self.spec_dim(),
                c <= self.spec_dim(),
                out@ =~= self@[r as int].take(c as int),
            decreases self.spec_dim() - c,
        {
            out.push(self.get(r, c));
            c += 1;
        }
        proof {
            assert(out@ =~= self@[r as int]);
        }
        out
    }

    /// The entries of column `c`, top to bottom.
    pub fn col(&self, c: usize) -> (out: Vec<T>)
        requires
            self.wf(),
            c < self.spec_dim(),
        ensures
            out@.len() == self.spec_dim(),
            forall|i: int| 0 <= i < self.spec_dim() ==> out@[i] == #[trigger] self@[i][c as int],
    {
        let mut out: Vec<T> = Vec::new();
        let mut r: usize = 0;
        while r < self.dim
            invariant
                self.wf(),
                c < self.spec_dim(),
                r <= self.spec_dim(),
                out@.len() == r,
                forall|i: int| 0 <= i < r ==> out@[i] == #[trigger] self@[i][c as int],
            decreases self.spec_dim() - r,
        {
            out.push(self.get(r, c));
            r += 1;
        }
        out
    }

    /// The rows of the matrix, top to bottom.
    pub fn rows(&self) -> (out: Vec<Vec<T>>)
        requires
            self.wf(),
        ensures
            out@.len() == self.spec_dim(),
            forall|i: int| 0 <= i < self.spec_dim() ==> (#[trigger] out@[i])@ == self@[i],
    {
        let mut out: Vec<Vec<T>> = Vec::new();
        let mut r: usize = 0;
        while r < self.dim
            invariant
                self.wf(),
                r <= self.spec_dim(),
                out@.len() == r,
                forall|i: int| 0 <= i < r ==> (#[trigger] out@[i])@ == self@[i],
            decreases self.spec_dim() - r,
        {
            out.push(self.row(r));
            r += 1;
        }
        out
    }
}

impl<T: Copy + Default> SqMat<T> {
    /// Create a square matrix of dimension `dim`, every entry holding
    /// the default value of `T`.
    pub fn new(dim: usize) -> (r: Self)
        requires
            dim * dim <= usize::MAX,
        ensures
            r.wf(),
            r.spec_dim() == dim,
            forall|i: int, j: int|
                0 <= i < dim && 0 <= j < dim ==> call_ensures(T::default, (), #[trigger] r@[i][j]),
    {
        let fill = T::default();
        let total = dim * dim;
        let mut inner: Vec<T> = Vec::new();
        let mut k: usize = 0;
        while k < total
            invariant
                inner@.len() == k,
                k <= total,
                forall|m: int| 0 <= m < k ==> call_ensures(T::default, (), #[trigger] inner@[m]),
                call_ensures(T::default, (), fill),
            decreases total - k,
        {
            inner.push(fill);
            k += 1;
        }
        let r = Self { inner, dim };
        proof {
            assert forall|i: int, j: int| 0 <= i < dim && 0 <= j < dim implies call_ensures(
                T::default,
                (),
                #[trigger] r@[i][j],
            ) by {
                r.lemma_flat_index(i, j);
            }
        }
        r
    }
}

impl<T: Copy> SqMat<T> {
    /// Convert to a matrix of another entry type by applying `f` to
    /// every entry.
    pub fn map<S: Copy, F: Fn(T) -> S>(&self, f: F) -> (r: SqMat<S>)
        requires
            self.wf(),
            forall|i: int, j: int|
                0 <= i < self.spec_dim() && 0 <= j < self.spec_dim() ==> call_requires(
                    f,
                    (#[trigger] self@[i][j],),
                ),
        ensures
            r.wf(),
            r.spec_dim() == self.spec_dim(),
            forall|i: int, j: int|
                0 <= i < self.spec_dim() && 0 <= j < self.spec_dim() ==> call_ensures(
                    f,
                    (self@[i][j],),
                    #[trigger] r@[i][j],
                ),
    {
        let dim = self.dim;
        let mut inner: Vec<S> = Vec::new();
        let mut i: usize = 0;
        while i < dim
            invariant
                self.wf(),
                dim == self.spec_dim(),
                i <= dim,
                inner@.len() == i * (dim as int),
                forall|a: int, b: int|
                    0 <= a < self.spec_dim() && 0 <= b < self.spec_dim() ==> call_requires(
                        f,
                        (#[trigger] self@[a][b],),
                    ),
                forall|a: int, b: int|
                    0 <= a < i && 0 <= b < dim ==> call_ensures(
                        f,
                        (self@[a][b],),
                        #[trigger] inner@[a * (dim as int) + b],
                    ),
            decreases dim - i,
        {
            let mut j: usize = 0;
            while j < dim
                invariant
                    self.wf(),
                    dim == self.spec_dim(),
                    i < dim,
                    j <= dim,
                    inner@.len() == i * (dim as int) + j,
                    forall|a: int, b: int|
                        0 <= a < self.spec_dim() && 0 <= b < self.spec_dim() ==> call_requires(
                            f,
                            (#[trigger] self@[a][b],),
                        ),
                    forall|a: int, b: int|
                        0 <= a < i && 0 <= b < dim ==> call_ensures(
                            f,
                            (self@[a][b],),
                            #[trigger] inner@[a * (dim as int) + b],
                        ),
                    forall|b: int|
                        0 <= b < j ==> call_ensures(
                            f,
                            (self@[i as int][b],),
                            #[trigger] inner@[i as int * (dim as int) + b],
                        ),
                decreases dim - j,
            {
                proof {
                    assert(i * (dim as int) + j < dim * dim) by (nonlinear_arith)
                        requires 0 <= i < dim && 0 <= j < dim;
                    assert forall|a: int, b: int|
                        0 <= a < i && 0 <= b < dim implies #[trigger] (a * (dim as int) + b) < i * (
                    dim as int) + j by {
                        assert(a * (dim as int) + b < i * (dim as int) + j) by (nonlinear_arith)
                            requires 0 <= a < i && 0 <= b < dim && 0 <= j;
                    }
                }
                let v = f(self.get(i, j));
                inner.push(v);
                j += 1;
            }
            i += 1;
            proof {
                assert(i * (dim as int) == (i - 1) * (dim as int) + dim) by (nonlinear_arith);
            }
        }
        proof {
            assert(i * (dim as int) == dim * dim) by (nonlinear_arith)
                requires i == dim;
        }
        let r = SqMat::<S> { inner, dim };
        proof {
            assert forall|a: int, b: int|
                0 <= a < self.spec_dim() && 0 <= b < self.spec_dim() implies call_ensures(
                f,
                (self@[a][b],),
                #[trigger] r@[a][b],
            ) by {
                r.lemma_flat_index(a, b);
            }
        }
        r
    }
}

} // verus!
