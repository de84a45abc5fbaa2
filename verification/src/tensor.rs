//! Row-major tensors.
use crate::float::{
    deterministic, fadd, fbits, fdot, fmul, fone, fpattern, fsub, fzero, Float, ONE, ZERO,
};
use vstd::prelude::*;
use vstd::slice::slice_subrange;

verus! {

/// The mathematical tensor: its items in row-major order and its dimensions.
#[verifier::ext_equal]
pub struct Array<T> {
    pub data: Seq<T>,
    pub dims: Seq<usize>,
}

/// The number of items of a tensor with these dimensions.
pub open spec fn volume(dims: Seq<usize>) -> nat
    decreases dims.len(),
{
    if dims.len() == 0 {
        1
    } else {
        volume(dims.drop_last()) * dims.last() as nat
    }
}

impl<T> Array<T> {
    /// The items fill the dimensions.
    pub open spec fn wf(self) -> bool {
        self.data.len() == volume(self.dims)
    }

    /// Row `i` of a matrix.
    pub open spec fn row(self, i: nat) -> Seq<T> {
        self.data.subrange(i * self.dims[1], i * self.dims[1] + self.dims[1])
    }

    /// Column `j` of a matrix.
    pub open spec fn col(self, j: nat) -> Seq<T> {
        Seq::new(self.dims[0] as nat, |p: int| self.data[p * self.dims[1] + j])
    }
}

/// The first `m` rows that `g` gives, one after the other.
pub open spec fn flat<T>(m: nat, g: spec_fn(nat) -> Seq<T>) -> Seq<T>
    decreases m,
{
    if m == 0 {
        Seq::empty()
    } else {
        flat((m - 1) as nat, g) + g((m - 1) as nat)
    }
}

/// The matrix of `m` rows and `n` columns whose rows `g` gives.
pub open spec fn matrix<T>(m: usize, n: usize, g: spec_fn(nat) -> Seq<T>) -> Array<T> {
    Array { data: flat(m as nat, g), dims: seq![m, n] }
}

/// The tensor with every item equal to `x`.
pub open spec fn filled<T>(dims: Seq<usize>, x: T) -> Array<T> {
    Array { data: Seq::new(volume(dims), |k: int| x), dims }
}

/// `f` applied to every item.
pub open spec fn each<T>(a: Array<T>, f: spec_fn(T) -> T) -> Array<T> {
    Array { data: Seq::new(a.data.len(), |k: int| f(a.data[k])), dims: a.dims }
}

/// `f` applied to every pair of items at one place.
pub open spec fn each2<T>(a: Array<T>, b: Array<T>, f: spec_fn(T, T) -> T) -> Array<T> {
    Array { data: Seq::new(a.data.len(), |k: int| f(a.data[k], b.data[k])), dims: a.dims }
}

/// The sum, item by item.
pub open spec fn add_of<T: Float>(a: Array<T>, b: Array<T>) -> Array<T> {
    each2(a, b, |x: T, y: T| fadd(x, y))
}

/// The difference, item by item.
pub open spec fn sub_of<T: Float>(a: Array<T>, b: Array<T>) -> Array<T> {
    each2(a, b, |x: T, y: T| fsub(x, y))
}

/// The product, item by item.
pub open spec fn mul_of<T: Float>(a: Array<T>, b: Array<T>) -> Array<T> {
    each2(a, b, |x: T, y: T| fmul(x, y))
}

/// Every item multiplied by `s`.
pub open spec fn scale_of<T: Float>(a: Array<T>, s: T) -> Array<T> {
    each(a, |x: T| fmul(x, s))
}

/// The rows of a matrix product.
pub open spec fn product_rows<T: Float>(a: Array<T>, b: Array<T>) -> spec_fn(nat) -> Seq<T> {
    |i: nat|
        Seq::new(
            b.dims[1] as nat,
            |j: int| fdot(a.row(i), b.col(j as nat), a.dims[1] as nat),
        )
}

/// The matrix product.
pub open spec fn matmul_of<T: Float>(a: Array<T>, b: Array<T>) -> Array<T> {
    matrix(a.dims[0], b.dims[1], product_rows(a, b))
}

/// The columns of a matrix, as the rows of its transpose.
pub open spec fn columns<T>(a: Array<T>) -> spec_fn(nat) -> Seq<T> {
    |j: nat| a.col(j)
}

/// The transpose of a matrix.
pub open spec fn transpose_of<T>(a: Array<T>) -> Array<T> {
    matrix(a.dims[1], a.dims[0], columns(a))
}

/// The product of two dimensions is the volume of a matrix.
pub proof fn lemma_volume2(dims: Seq<usize>)
    requires
        dims.len() == 2,
    ensures
        volume(dims) == dims[0] * dims[1],
{
    let d1 = dims.drop_last();
    let d0 = d1.drop_last();
    assert(volume(d0) == 1);
    assert(volume(d1) == volume(d0) * d1.last() as nat);
    assert(volume(d1) == dims[0] as nat) by (nonlinear_arith)
        requires
            volume(d1) == volume(d0) * d1.last() as nat,
            volume(d0) == 1,
            d1.last() == dims[0],
    ;
}

/// The single dimension is the volume of a vector.
pub proof fn lemma_volume1(dims: Seq<usize>)
    requires
        dims.len() == 1,
    ensures
        volume(dims) == dims[0],
{
    assert(volume(dims.drop_last()) == 1);
    assert(volume(dims) == volume(dims.drop_last()) * dims.last() as nat);
    assert(1 * dims.last() as nat == dims.last() as nat);
}

/// Where row `i` ends, and that it ends inside `m` rows.
pub proof fn lemma_row_end(i: int, m: int, n: int)
    requires
        0 <= i < m,
        0 <= n,
    ensures
        0 <= i * n,
        i * n + n == (i + 1) * n,
        (i + 1) * n <= m * n,
{
    assert(0 <= i * n) by (nonlinear_arith)
        requires
            0 <= i,
            0 <= n,
    ;
    assert(i * n + n == (i + 1) * n) by (nonlinear_arith);
    assert((i + 1) * n <= m * n) by (nonlinear_arith)
        requires
            i + 1 <= m,
            0 <= n,
    ;
}

/// Rows of one length make a matrix of that many columns.
pub proof fn lemma_flat_len<T>(m: nat, n: nat, g: spec_fn(nat) -> Seq<T>)
    requires
        forall|i: nat| i < m ==> (#[trigger] g(i)).len() == n,
    ensures
        flat(m, g).len() == m * n,
    decreases m,
{
    if m == 0 {
        assert(0 * n == 0);
    } else {
        lemma_flat_len((m - 1) as nat, n, g);
        assert(g((m - 1) as nat).len() == n);
        assert((m - 1) * n + n == m * n) by (nonlinear_arith);
    }
}

/// Row `i` of the matrix whose rows `g` gives is `g(i)`.
pub proof fn lemma_flat_row<T>(m: nat, n: nat, g: spec_fn(nat) -> Seq<T>, i: nat)
    requires
        i < m,
        forall|k: nat| k < m ==> (#[trigger] g(k)).len() == n,
    ensures
        0 <= i * n,
        i * n + n <= m * n,
        flat(m, g).len() == m * n,
        flat(m, g).subrange((i * n) as int, (i * n + n) as int) == g(i),
    decreases m,
{
    lemma_flat_len(m, n, g);
    lemma_flat_len((m - 1) as nat, n, g);
    lemma_row_end(i as int, m as int, n as int);
    assert(g((m - 1) as nat).len() == n);
    if i < m - 1 {
        lemma_flat_row((m - 1) as nat, n, g, i);
        assert(flat(m, g).subrange((i * n) as int, (i * n + n) as int) =~= flat((m - 1) as nat, g).subrange(
            (i * n) as int,
            (i * n + n) as int,
        ));
    } else {
        assert(flat(m, g).subrange((i * n) as int, (i * n + n) as int) =~= g(i));
    }
}

/// A row-major tensor.
pub struct Tensor<T> {
    pub data: Vec<T>,
    pub shape: Vec<usize>,
}

impl<T> View for Tensor<T> {
    type V = Array<T>;

    open spec fn view(&self) -> Array<T> {
        Array { data: self.data@, dims: self.shape@ }
    }
}

/// Copies the items of a slice.
pub fn copy_slice<T: Copy>(xs: &[T]) -> (r: Vec<T>)
    ensures
        r@ == xs@,
{
    let mut out: Vec<T> = Vec::new();
    let mut i: usize = 0;
    while i < xs.len()
        invariant
            i <= xs.len(),
            out@ == xs@.take(i as int),
        decreases xs.len() - i,
    {
        out.push(xs[i]);
        i += 1;
        proof {
            assert(xs@.take(i as int) =~= xs@.take(i - 1).push(xs@[i - 1]));
        }
    }
    proof {
        assert(xs@.take(i as int) =~= xs@);
    }
    out
}

/// `n` copies of `x`.
pub fn repeat<T: Copy>(x: T, n: usize) -> (r: Vec<T>)
    ensures
        r@ == Seq::new(n as nat, |k: int| x),
{
    let mut out: Vec<T> = Vec::new();
    let mut i: usize = 0;
    while i < n
        invariant
            i <= n,
            out@ == Seq::new(i as nat, |k: int| x),
        decreases n - i,
    {
        out.push(x);
        i += 1;
        proof {
            assert(out@ =~= Seq::new(i as nat, |k: int| x));
        }
    }
    out
}

/// The number of items of a tensor of this shape.
pub fn count_items(shape: &[usize]) -> (r: usize)
    requires
        forall|k: int| 0 <= k <= shape@.len() ==> #[trigger] volume(shape@.take(k)) <= usize::MAX,
    ensures
        r == volume(shape@),
{
    let mut acc: usize = 1;
    let mut i: usize = 0;
    proof {
        assert(volume(shape@.take(0)) == 1);
    }
    while i < shape.len()
        invariant
            i <= shape.len(),
            acc == volume(shape@.take(i as int)),
            forall|k: int|
                0 <= k <= shape@.len() ==> #[trigger] volume(shape@.take(k)) <= usize::MAX,
        decreases shape.len() - i,
    {
        proof {
            assert(shape@.take(i + 1).drop_last() =~= shape@.take(i as int));
            assert(volume(shape@.take(i + 1)) <= usize::MAX);
        }
        acc = acc * shape[i];
        i += 1;
    }
    proof {
        assert(shape@.take(i as int) =~= shape@);
    }
    acc
}

/// Every leading part of the dimensions has a volume that a machine index can hold.
pub open spec fn countable(dims: Seq<usize>) -> bool {
    forall|k: int| 0 <= k <= dims.len() ==> #[trigger] volume(dims.take(k)) <= usize::MAX
}

/// Two dimensions are countable where their product is.
pub proof fn lemma_countable2(dims: Seq<usize>)
    requires
        dims.len() == 2,
        dims[0] * dims[1] <= usize::MAX,
    ensures
        countable(dims),
        volume(dims) == dims[0] * dims[1],
{
    lemma_volume2(dims);
    assert forall|k: int| 0 <= k <= dims.len() implies #[trigger] volume(dims.take(k))
        <= usize::MAX by {
        if k == 0 {
            assert(volume(dims.take(0)) == 1);
        } else if k == 1 {
            lemma_volume1(dims.take(1));
        } else {
            assert(dims.take(2) =~= dims);
        }
    }
}

impl<T: Float> Clone for Tensor<T> {
    fn clone(&self) -> (r: Self)
        ensures
            r@ == self@,
    {
        let r = Tensor {
            data: copy_slice(self.data.as_slice()),
            shape: copy_slice(self.shape.as_slice()),
        };
        r
    }
}

impl<T: Float> Tensor<T> {
    /// The items fill the shape.
    pub open spec fn wf(&self) -> bool {
        self@.wf()
    }

    /// The tensor with these items and this shape.
    pub fn from_vec(data: Vec<T>, shape: Vec<usize>) -> (r: Self)
        requires
            data@.len() == volume(shape@),
        ensures
            r@ == (Array { data: data@, dims: shape@ }),
            r.wf(),
    {
        Tensor { data, shape }
    }

    /// The tensor of zeros of a shape.
    pub fn zeros(shape: Vec<usize>) -> (r: Self)
        requires
            countable(shape@),
        ensures
            r.wf(),
            r.shape@ == shape@,
            deterministic::<T>() ==> r@ == filled(shape@, fzero::<T>()),
    {
        let n: usize = count_items(shape.as_slice());
        let r = Tensor { data: repeat(T::from_bits(ZERO), n), shape };
        proof {
            if deterministic::<T>() {
                assert(r@ =~= filled(shape@, fzero::<T>()));
            }
        }
        r
    }

    /// The tensor of ones of a shape.
    pub fn ones(shape: Vec<usize>) -> (r: Self)
        requires
            countable(shape@),
        ensures
            r.wf(),
            r.shape@ == shape@,
            deterministic::<T>() ==> r@ == filled(shape@, fone::<T>()),
    {
        let n: usize = count_items(shape.as_slice());
        let r = Tensor { data: repeat(T::from_bits(ONE), n), shape };
        proof {
            if deterministic::<T>() {
                assert(r@ =~= filled(shape@, fone::<T>()));
            }
        }
        r
    }

    /// A tensor of the same shape with every item equal to `x`.
    pub fn filled_like(&self, x: T) -> (r: Self)
        requires
            self.wf(),
        ensures
            r.wf(),
            r@ == filled(self.shape@, x),
    {
        let r = Tensor {
            data: repeat(x, self.data.len()),
            shape: copy_slice(self.shape.as_slice()),
        };
        proof {
            assert(r@ =~= filled(self.shape@, x));
        }
        r
    }

    /// The number of dimensions.
    pub fn ndim(&self) -> (r: usize)
        ensures
            r == self.shape@.len(),
    {
        self.shape.len()
    }

    /// Row `i` of a matrix.
    pub fn row(&self, i: usize) -> (r: &[T])
        requires
            self.wf(),
            self.shape@.len() == 2,
            i < self.shape@[0],
        ensures
            r@ == self@.row(i as nat),
            r@.len() == self.shape@[1],
    {
        let n: usize = self.shape[1];
        proof {
            lemma_volume2(self.shape@);
            lemma_row_end(i as int, self.shape@[0] as int, n as int);
            assert(self.data@.len() == self.data.len());
        }
        slice_subrange(self.data.as_slice(), i * n, i * n + n)
    }

    /// The sum, item by item.
    pub fn add(&self, other: &Self) -> (r: Self)
        requires
            self.wf(),
            other.wf(),
            self.shape@ == other.shape@,
        ensures
            r.wf(),
            r.shape@ == self.shape@,
            deterministic::<T>() ==> r@ == add_of(self@, other@),
    {
        let mut out: Vec<T> = Vec::new();
        let mut i: usize = 0;
        while i < self.data.len()
            invariant
                i <= self.data.len(),
                self.data.len() == other.data.len(),
                out.len() == i,
                deterministic::<T>() ==> forall|k: int|
                    0 <= k < i ==> out@[k] == fadd(self.data@[k], other.data@[k]),
            decreases self.data.len() - i,
        {
            out.push(self.data[i].plus(other.data[i]));
            i += 1;
        }
        let r = Tensor { data: out, shape: copy_slice(self.shape.as_slice()) };
        proof {
            if deterministic::<T>() {
                assert(r@ =~= add_of(self@, other@));
            }
        }
        r
    }

    /// The difference, item by item.
    pub fn sub(&self, other: &Self) -> (r: Self)
        requires
            self.wf(),
            other.wf(),
            self.shape@ == other.shape@,
        ensures
            r.wf(),
            r.shape@ == self.shape@,
            deterministic::<T>() ==> r@ == sub_of(self@, other@),
    {
        let mut out: Vec<T> = Vec::new();
        let mut i: usize = 0;
        while i < self.data.len()
            invariant
                i <= self.data.len(),
                self.data.len() == other.data.len(),
                out.len() == i,
                deterministic::<T>() ==> forall|k: int|
                    0 <= k < i ==> out@[k] == fsub(self.data@[k], other.data@[k]),
            decreases self.data.len() - i,
        {
            out.push(self.data[i].minus(other.data[i]));
            i += 1;
        }
        let r = Tensor { data: out, shape: copy_slice(self.shape.as_slice()) };
        proof {
            if deterministic::<T>() {
                assert(r@ =~= sub_of(self@, other@));
            }
        }
        r
    }

    /// The product, item by item.
    pub fn mul(&self, other: &Self) -> (r: Self)
        requires
            self.wf(),
            other.wf(),
            self.shape@ == other.shape@,
        ensures
            r.wf(),
            r.shape@ == self.shape@,
            deterministic::<T>() ==> r@ == mul_of(self@, other@),
    {
        let mut out: Vec<T> = Vec::new();
        let mut i: usize = 0;
        while i < self.data.len()
            invariant
                i <= self.data.len(),
                self.data.len() == other.data.len(),
                out.len() == i,
                deterministic::<T>() ==> forall|k: int|
                    0 <= k < i ==> out@[k] == fmul(self.data@[k], other.data@[k]),
            decreases self.data.len() - i,
        {
            out.push(self.data[i].times(other.data[i]));
            i += 1;
        }
        let r = Tensor { data: out, shape: copy_slice(self.shape.as_slice()) };
        proof {
            if deterministic::<T>() {
                assert(r@ =~= mul_of(self@, other@));
            }
        }
        r
    }

    /// Every item multiplied by `s`.
    pub fn mul_scalar(&self, s: T) -> (r: Self)
        requires
            self.wf(),
        ensures
            r.wf(),
            r.shape@ == self.shape@,
            deterministic::<T>() ==> r@ == scale_of(self@, s),
    {
        let mut out: Vec<T> = Vec::new();
        let mut i: usize = 0;
        while i < self.data.len()
            invariant
                i <= self.data.len(),
                out.len() == i,
                deterministic::<T>() ==> forall|k: int|
                    0 <= k < i ==> out@[k] == fmul(self.data@[k], s),
            decreases self.data.len() - i,
        {
            out.push(self.data[i].times(s));
            i += 1;
        }
        let r = Tensor { data: out, shape: copy_slice(self.shape.as_slice()) };
        proof {
            if deterministic::<T>() {
                assert(r@ =~= scale_of(self@, s));
            }
        }
        r
    }

    /// Column `j` of a matrix.
    pub fn column(&self, j: usize) -> (r: Vec<T>)
        requires
            self.wf(),
            self.shape@.len() == 2,
            j < self.shape@[1],
        ensures
            r@ == self@.col(j as nat),
    {
        let m: usize = self.shape[0];
        let n: usize = self.shape[1];
        let mut out: Vec<T> = Vec::new();
        let mut p: usize = 0;
        proof {
            lemma_volume2(self.shape@);
        }
        while p < m
            invariant
                p <= m,
                j < n,
                self.shape@.len() == 2,
                m == self.shape@[0],
                n == self.shape@[1],
                self.data@.len() == m * n,
                out.len() == p,
                forall|q: int| 0 <= q < p ==> out@[q] == self.data@[q * n + j],
            decreases m - p,
        {
            proof {
                lemma_row_end(p as int, m as int, n as int);
                assert(self.data@.len() == self.data.len());
            }
            out.push(self.data[p * n + j]);
            p += 1;
        }
        proof {
            assert(out@ =~= self@.col(j as nat));
        }
        out
    }

    /// One row of the product with `other`, whose columns are `cols`.
    fn product_row(xs: &[T], cols: &Vec<Vec<T>>) -> (r: Vec<T>)
        requires
            forall|j: int| 0 <= j < cols@.len() ==> (#[trigger] cols@[j])@.len() == xs@.len(),
        ensures
            r@.len() == cols@.len(),
            deterministic::<T>() ==> r@ == Seq::new(
                cols@.len(),
                |j: int| fdot(xs@, cols@[j]@, xs@.len()),
            ),
    {
        let mut out: Vec<T> = Vec::new();
        let mut j: usize = 0;
        while j < cols.len()
            invariant
                j <= cols.len(),
                out.len() == j,
                forall|j: int| 0 <= j < cols@.len() ==> (#[trigger] cols@[j])@.len() == xs@.len(),
                deterministic::<T>() ==> forall|k: int|
                    0 <= k < j ==> out@[k] == fdot(xs@, cols@[k]@, xs@.len()),
            decreases cols.len() - j,
        {
            out.push(crate::float::dot(xs, cols[j].as_slice()));
            j += 1;
        }
        proof {
            if deterministic::<T>() {
                assert(out@ =~= Seq::new(cols@.len(), |j: int| fdot(xs@, cols@[j]@, xs@.len())));
            }
        }
        out
    }

    /// The columns of a matrix.
    fn split_columns(&self) -> (r: Vec<Vec<T>>)
        requires
            self.wf(),
            self.shape@.len() == 2,
        ensures
            r@.len() == self.shape@[1],
            forall|j: int| 0 <= j < r@.len() ==> (#[trigger] r@[j])@ == self@.col(j as nat),
    {
        let n: usize = self.shape[1];
        let mut cols: Vec<Vec<T>> = Vec::new();
        let mut j: usize = 0;
        while j < n
            invariant
                j <= n,
                self.wf(),
                self.shape@.len() == 2,
                n == self.shape@[1],
                cols@.len() == j,
                forall|q: int| 0 <= q < j ==> (#[trigger] cols@[q])@ == self@.col(q as nat),
            decreases n - j,
        {
            cols.push(self.column(j));
            j += 1;
        }
        cols
    }

    /// The matrix product.
    pub fn matmul(&self, other: &Self) -> (r: Self)
        requires
            self.wf(),
            other.wf(),
            self.shape@.len() == 2,
            other.shape@.len() == 2,
            self.shape@[1] == other.shape@[0],
            self.shape@[0] * other.shape@[1] <= usize::MAX,
        ensures
            r.wf(),
            r.shape@ == seq![self.shape@[0], other.shape@[1]],
            deterministic::<T>() ==> r@ == matmul_of(self@, other@),
    {
        let m: usize = self.shape[0];
        let n: usize = other.shape[1];
        let ghost g = product_rows(self@, other@);
        let cols = other.split_columns();
        let mut out: Vec<T> = Vec::new();
        let mut i: usize = 0;
        while i < m
            invariant
                i <= m,
                self.wf(),
                other.wf(),
                self.shape@.len() == 2,
                other.shape@.len() == 2,
                self.shape@[1] == other.shape@[0],
                m == self.shape@[0],
                n == other.shape@[1],
                m * n <= usize::MAX,
                g == product_rows(self@, other@),
                cols@.len() == n,
                forall|j: int|
                    0 <= j < cols@.len() ==> (#[trigger] cols@[j])@ == other@.col(j as nat),
                out.len() == i * n,
                deterministic::<T>() ==> out@ == flat(i as nat, g),
            decreases m - i,
        {
            proof {
                lemma_row_end(i as int, m as int, n as int);
            }
            let xs = self.row(i);
            let mut line = Self::product_row(xs, &cols);
            proof {
                if deterministic::<T>() {
                    assert(line@ =~= g(i as nat));
                }
            }
            out.append(&mut line);
            i += 1;
        }
        let mut shape: Vec<usize> = Vec::new();
        shape.push(m);
        shape.push(n);
        proof {
            lemma_volume2(shape@);
            assert(shape@ =~= seq![m, n]);
        }
        Tensor { data: out, shape }
    }

    /// The transpose of a matrix.
    pub fn transpose_2d(&self) -> (r: Self)
        requires
            self.wf(),
            self.shape@.len() == 2,
        ensures
            r.wf(),
            r@ == transpose_of(self@),
    {
        let m: usize = self.shape[0];
        let n: usize = self.shape[1];
        let ghost g = columns(self@);
        let mut out: Vec<T> = Vec::new();
        let mut j: usize = 0;
        proof {
            lemma_volume2(self.shape@);
            assert(0 * m == 0);
        }
        while j < n
            invariant
                j <= n,
                self.wf(),
                self.shape@.len() == 2,
                m == self.shape@[0],
                n == self.shape@[1],
                g == columns(self@),
                out.len() == j * m,
                out@ == flat(j as nat, g),
            decreases n - j,
        {
            let mut line = self.column(j);
            proof {
                assert(line@ == g(j as nat));
                assert(j * m + m == (j + 1) * m) by (nonlinear_arith);
            }
            out.append(&mut line);
            j += 1;
        }
        let mut shape: Vec<usize> = Vec::new();
        shape.push(n);
        shape.push(m);
        proof {
            lemma_volume2(shape@);
            assert(shape@ =~= seq![n, m]);
        }
        Tensor { data: out, shape }
    }
}

/// The upper half of a bit pattern, rounded to nearest with ties to even. A NaN
/// keeps its upper half and is made quiet.
pub open spec fn narrowed(bits: u32) -> u16 {
    let high = (bits / 0x1_0000) as u16;
    let low = bits % 0x1_0000;
    if bits % 0x8000_0000 > 0x7F80_0000 {
        high | 0x40
    } else if low > 0x8000 || (low == 0x8000 && high % 2 == 1) {
        (high + 1) as u16
    } else {
        high
    }
}

/// The bit pattern whose upper half is given and whose lower half is zero.
pub open spec fn widened_bits(half: u16) -> u32 {
    (half * 0x1_0000) as u32
}

/// A bit pattern on the half-width grid is kept by narrowing and widening.
pub proof fn law_grid_kept(bits: u32)
    requires
        bits % 0x1_0000 == 0,
        bits % 0x8000_0000 <= 0x7F80_0000,
    ensures
        widened_bits(narrowed(bits)) == bits,
{
}

/// Narrowing and widening once puts any number that is not a NaN on the grid.
pub proof fn law_narrow_once(bits: u32)
    requires
        bits % 0x8000_0000 <= 0x7F80_0000,
    ensures
        widened_bits(narrowed(bits)) % 0x1_0000 == 0,
        widened_bits(narrowed(widened_bits(narrowed(bits)))) == widened_bits(narrowed(bits)),
{
    let w = widened_bits(narrowed(bits));
    assert(w == narrowed(bits) * 0x1_0000);
    assert(w % 0x8000_0000 <= 0x7F80_0000);
}

/// The number's bit pattern rounded to its upper half.
pub fn f32_to_bf16_bits<T: Float>(x: T) -> (r: u16)
    ensures
        deterministic::<T>() ==> r == narrowed(fpattern(x)),
{
    let bits: u32 = x.to_bits();
    let high: u16 = (bits / 0x1_0000) as u16;
    let low: u32 = bits % 0x1_0000;
    if bits % 0x8000_0000 > 0x7F80_0000 {
        high | 0x40
    } else if low > 0x8000 || (low == 0x8000 && high % 2 == 1) {
        high + 1
    } else {
        high
    }
}

/// The number whose bit pattern has this upper half and a lower half of zero.
pub fn bf16_bits_to_f32<T: Float>(half: u16) -> (r: T)
    ensures
        deterministic::<T>() ==> r == fbits::<T>(widened_bits(half)),
{
    T::from_bits((half as u32) * 0x1_0000)
}

/// The number rounded to the half-width grid.
pub fn narrow_to_bf16<T: Float>(x: T) -> (r: T)
    ensures
        deterministic::<T>() ==> r == fbits::<T>(widened_bits(narrowed(fpattern(x)))),
{
    bf16_bits_to_f32(f32_to_bf16_bits(x))
}

} // verus!
