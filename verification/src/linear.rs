//! Matrices without rounding: what products and transposes are, item by item, and that the
//! gradients of linear operations are their adjoints.
use crate::agreement::{grid, lemma_cross, lemma_product_row, lemma_row, lemma_transpose_col};
use crate::autograd::{contributions, Entry, Step};
use crate::exact::{lemma_dot_sum, lemma_sum_added, lemma_sum_joined, ring_back, ring_spreads};
use crate::float::{fadd, fmul, fone, fsub, fsum, fzero, Float};
use crate::identities::{
    lemma_sum_scaled, ring, ring_add, ring_mul, ring_product, ring_spread, ring_zero,
};
use crate::tensor::{add_of, filled, matmul_of, mul_of, scale_of, sub_of, transpose_of, Array};
use vstd::prelude::*;

verus! {

/// The inner product of all items of two tensors.
pub open spec fn inner<T: Float>(a: Array<T>, b: Array<T>) -> T {
    fsum(Seq::new(a.data.len(), |k: int| fmul(a.data[k], b.data[k])))
}

/// Sums, differences and products go item by item: a sum can be taken apart again, sums and
/// products do not depend on the order, a product with ones changes nothing, products
/// spread over sums, and a factor multiplies like a tensor of it.
pub proof fn law_items_are_combined<T: Float>(a: Array<T>, b: Array<T>, c: Array<T>, s: T)
    requires
        ring::<T>(),
        a.wf(),
        b.wf(),
        c.wf(),
        a.dims == b.dims,
        a.dims == c.dims,
    ensures
        sub_of(add_of(a, b), b) == a,
        add_of(sub_of(a, b), b) == a,
        add_of(a, b) == add_of(b, a),
        mul_of(a, b) == mul_of(b, a),
        mul_of(a, filled(a.dims, fone::<T>())) == a,
        mul_of(add_of(a, b), c) == add_of(mul_of(a, c), mul_of(b, c)),
        scale_of(a, s) == mul_of(a, filled(a.dims, s)),
{
    assert forall|k: int| 0 <= k < a.data.len() implies {
        let (x, y, z) = (#[trigger] a.data[k], b.data[k], c.data[k]);
        &&& fsub(fadd(x, y), y) == x
        &&& fadd(fsub(x, y), y) == x
        &&& fadd(x, y) == fadd(y, x)
        &&& fmul(x, y) == fmul(y, x)
        &&& fmul(x, fone::<T>()) == x
        &&& fmul(fadd(x, y), z) == fadd(fmul(x, z), fmul(y, z))
    } by {
        let (x, y, z) = (a.data[k], b.data[k], c.data[k]);
        ring_back(x, y);
        ring_add(x, y);
        ring_mul(x, y);
        ring_product(x, y, z);
        ring_spread(x, y, z);
    }
    assert(sub_of(add_of(a, b), b) =~= a);
    assert(add_of(sub_of(a, b), b) =~= a);
    assert(add_of(a, b) =~= add_of(b, a));
    assert(mul_of(a, b) =~= mul_of(b, a));
    assert(mul_of(a, filled(a.dims, fone::<T>())) =~= a);
    assert(mul_of(add_of(a, b), c) =~= add_of(mul_of(a, c), mul_of(b, c)));
    assert(scale_of(a, s) =~= mul_of(a, filled(a.dims, s)));
}

/// An item of a product is the sum of the products along a row and a column.
pub proof fn law_product_item<T: Float>(
    a: Array<T>,
    b: Array<T>,
    m: usize,
    k: usize,
    n: usize,
    i: nat,
    j: nat,
)
    requires
        grid(a, m, k),
        grid(b, k, n),
        i < m,
        j < n,
    ensures
        grid(matmul_of(a, b), m, n),
        matmul_of(a, b).row(i)[j as int] == fsum(
            Seq::new(k as nat, |p: int| fmul(a.row(i)[p], b.row(p as nat)[j as int])),
        ),
{
    lemma_product_row(a, b, m, k, n, i);
    lemma_row(a, m, k, i);
    lemma_dot_sum(a.row(i), b.col(j), k as nat);
    assert forall|p: int| 0 <= p < k implies #[trigger] b.col(j)[p] == b.row(p as nat)[j as int] by {
        lemma_cross(b, k, n, p as nat, j);
    }
    assert(Seq::new(k as nat, |p: int| fmul(a.row(i)[p], b.col(j)[p])) =~= Seq::new(
        k as nat,
        |p: int| fmul(a.row(i)[p], b.row(p as nat)[j as int]),
    ));
}

/// A transpose has the rows of a matrix as its columns, and its columns as rows.
pub proof fn law_transpose_item<T>(a: Array<T>, m: usize, n: usize, i: nat, j: nat)
    requires
        grid(a, m, n),
        i < m,
        j < n,
    ensures
        grid(transpose_of(a), n, m),
        transpose_of(a).row(j)[i as int] == a.row(i)[j as int],
{
    lemma_transpose_col(a, m, n, i);
    lemma_cross(transpose_of(a), n, m, j, i);
    lemma_row(a, m, n, i);
}

/// Two matrices with the same items are the same.
pub proof fn lemma_same_grid<T>(a: Array<T>, b: Array<T>, m: usize, n: usize)
    requires
        grid(a, m, n),
        grid(b, m, n),
        forall|i: nat, j: nat| i < m && j < n ==> #[trigger] a.row(i)[j as int] == b.row(i)[j as int],
    ensures
        a == b,
{
    assert forall|q: int| 0 <= q < a.data.len() implies #[trigger] a.data[q] == b.data[q] by {
        let (i, j) = ((q / n as int) as nat, (q % n as int) as nat);
        assert(i < m && j < n && q == i * n + j) by (nonlinear_arith)
            requires
                0 <= q < m * n,
                i == q / n as int,
                j == q % n as int,
        ;
        lemma_row(a, m, n, i);
        lemma_row(b, m, n, i);
        assert(a.row(i)[j as int] == b.row(i)[j as int]);
    }
    assert(a =~= b);
}

/// A transpose transposed is the matrix itself.
pub proof fn law_transpose_is_its_own_inverse<T>(a: Array<T>, m: usize, n: usize)
    requires
        grid(a, m, n),
        m > 0,
        n > 0,
    ensures
        transpose_of(transpose_of(a)) == a,
{
    let t = transpose_of(a);
    law_transpose_item(a, m, n, 0, 0);
    law_transpose_item(t, n, m, 0, 0);
    assert forall|i: nat, j: nat| i < m && j < n implies #[trigger] transpose_of(t).row(i)[j as int]
        == a.row(i)[j as int] by {
        law_transpose_item(a, m, n, i, j);
        law_transpose_item(t, n, m, j, i);
    }
    lemma_same_grid(transpose_of(t), a, m, n);
}

/// The transpose of a product is the product of the transposes the other way round.
pub proof fn law_transpose_of_product<T: Float>(
    a: Array<T>,
    b: Array<T>,
    m: usize,
    k: usize,
    n: usize,
)
    requires
        ring::<T>(),
        grid(a, m, k),
        grid(b, k, n),
        m > 0,
        k > 0,
        n > 0,
    ensures
        transpose_of(matmul_of(a, b)) == matmul_of(transpose_of(b), transpose_of(a)),
{
    let (s, t) = (transpose_of(b), transpose_of(a));
    law_transpose_item(a, m, k, 0, 0);
    law_transpose_item(b, k, n, 0, 0);
    law_product_item(a, b, m, k, n, 0, 0);
    law_product_item(s, t, n, k, m, 0, 0);
    law_transpose_item(matmul_of(a, b), m, n, 0, 0);
    assert forall|j: nat, i: nat| j < n && i < m implies #[trigger] transpose_of(
        matmul_of(a, b),
    ).row(j)[i as int] == matmul_of(s, t).row(j)[i as int] by {
        law_transpose_item(matmul_of(a, b), m, n, i, j);
        law_product_item(a, b, m, k, n, i, j);
        law_product_item(s, t, n, k, m, j, i);
        assert forall|p: int| 0 <= p < k implies #[trigger] fmul(a.row(i)[p], b.row(p as nat)[j as int])
            == fmul(s.row(j)[p], t.row(p as nat)[i as int]) by {
            law_transpose_item(a, m, k, i, p as nat);
            law_transpose_item(b, k, n, p as nat, j);
            ring_mul(a.row(i)[p], b.row(p as nat)[j as int]);
        }
        assert(Seq::new(k as nat, |p: int| fmul(a.row(i)[p], b.row(p as nat)[j as int]))
            =~= Seq::new(k as nat, |p: int| fmul(s.row(j)[p], t.row(p as nat)[i as int])));
    }
    lemma_same_grid(transpose_of(matmul_of(a, b)), matmul_of(s, t), n, m);
}

/// The sum of a table, row by row.
pub open spec fn table_sum<T: Float>(m: nat, n: nat, f: spec_fn(int, int) -> T) -> T {
    fsum(Seq::new(m, |i: int| fsum(Seq::new(n, |j: int| f(i, j)))))
}

/// A table summed row by row, with one row more.
pub proof fn lemma_table_step<T: Float>(m: nat, n: nat, f: spec_fn(int, int) -> T)
    requires
        m > 0,
    ensures
        table_sum(m, n, f) == fadd(
            table_sum((m - 1) as nat, n, f),
            fsum(Seq::new(n, |j: int| f(m - 1, j))),
        ),
{
    let s = Seq::new(m, |i: int| fsum(Seq::new(n, |j: int| f(i, j))));
    assert(s.drop_last() =~= Seq::new((m - 1) as nat, |i: int| fsum(Seq::new(n, |j: int| f(i, j)))));
}

/// Tables with the same items have the same sum.
pub proof fn lemma_table_same<T: Float>(
    m: nat,
    n: nat,
    f: spec_fn(int, int) -> T,
    h: spec_fn(int, int) -> T,
)
    requires
        forall|i: int, j: int| 0 <= i < m && 0 <= j < n ==> #[trigger] f(i, j) == h(i, j),
    ensures
        table_sum(m, n, f) == table_sum(m, n, h),
    decreases m,
{
    if m > 0 {
        lemma_table_same((m - 1) as nat, n, f, h);
        lemma_table_step(m, n, f);
        lemma_table_step(m, n, h);
        assert(Seq::new(n, |j: int| f(m - 1, j)) =~= Seq::new(n, |j: int| h(m - 1, j)));
    }
}

/// A sum of zeros.
pub proof fn lemma_sum_zeros<T: Float>(s: Seq<T>)
    requires
        ring::<T>(),
        forall|k: int| 0 <= k < s.len() ==> #[trigger] s[k] == fzero::<T>(),
    ensures
        fsum(s) == fzero::<T>(),
    decreases s.len(),
{
    if s.len() > 0 {
        lemma_sum_zeros(s.drop_last());
        assert(s[s.len() - 1] == fzero::<T>());
        ring_zero(fzero::<T>());
    }
}

/// A table can be summed column by column.
proof fn lemma_table_turned<T: Float>(m: nat, n: nat, f: spec_fn(int, int) -> T)
    requires
        ring::<T>(),
    ensures
        table_sum(m, n, f) == table_sum(n, m, |j: int, i: int| f(i, j)),
    decreases m,
{
    let h = |j: int, i: int| f(i, j);
    let s = Seq::new(n, |j: int| fsum(Seq::new(m, |i: int| h(j, i))));
    if m == 0 {
        assert forall|j: int| 0 <= j < n implies #[trigger] s[j] == fzero::<T>() by {
            assert(Seq::new(m, |i: int| h(j, i)) =~= Seq::empty());
        }
        lemma_sum_zeros(s);
    } else {
        let q = (m - 1) as nat;
        lemma_table_turned(q, n, f);
        lemma_table_step(m, n, f);
        let a = Seq::new(n, |j: int| fsum(Seq::new(q, |i: int| h(j, i))));
        let b = Seq::new(n, |j: int| f(m - 1, j));
        assert forall|j: int| 0 <= j < n implies #[trigger] s[j] == fadd(a[j], b[j]) by {
            let t = Seq::new(m, |i: int| h(j, i));
            assert(t.drop_last() =~= Seq::new(q, |i: int| h(j, i)));
        }
        lemma_sum_added(s, a, b);
    }
}

/// An inner product of matrices, row by row.
pub proof fn lemma_inner_rows<T: Float>(a: Array<T>, b: Array<T>, m: usize, n: usize)
    requires
        ring::<T>(),
        grid(a, m, n),
        grid(b, m, n),
    ensures
        inner(a, b) == table_sum(
            m as nat,
            n as nat,
            |i: int, j: int| fmul(a.row(i as nat)[j], b.row(i as nat)[j]),
        ),
{
    lemma_inner_first(a, b, m, n, m as nat);
    let s = Seq::new(a.data.len(), |k: int| fmul(a.data[k], b.data[k]));
    assert(s.take(m * n) =~= s);
}

/// The first rows of an inner product of matrices.
proof fn lemma_inner_first<T: Float>(a: Array<T>, b: Array<T>, m: usize, n: usize, q: nat)
    requires
        ring::<T>(),
        grid(a, m, n),
        grid(b, m, n),
        q <= m,
    ensures
        0 <= q * n <= a.data.len(),
        fsum(Seq::new(a.data.len(), |k: int| fmul(a.data[k], b.data[k])).take(q * n)) == table_sum(
            q,
            n as nat,
            |i: int, j: int| fmul(a.row(i as nat)[j], b.row(i as nat)[j]),
        ),
    decreases q,
{
    let s = Seq::new(a.data.len(), |k: int| fmul(a.data[k], b.data[k]));
    let f = |i: int, j: int| fmul(a.row(i as nat)[j], b.row(i as nat)[j]);
    if q == 0 {
        assert(q * n == 0) by (nonlinear_arith)
            requires
                q == 0,
        ;
        assert(s.take(0) =~= Seq::empty());
        assert(Seq::new(0, |i: int| fsum(Seq::new(n as nat, |j: int| f(i, j)))) =~= Seq::empty());
    } else {
        let r = (q - 1) as nat;
        lemma_inner_first(a, b, m, n, r);
        lemma_table_step(q, n as nat, f);
        lemma_row(a, m, n, r);
        lemma_row(b, m, n, r);
        assert(q * n == r * n + n) by (nonlinear_arith)
            requires
                q == r + 1,
        ;
        let last = Seq::new(n as nat, |j: int| f(q - 1, j));
        assert forall|j: int| 0 <= j < n implies #[trigger] last[j] == s[r * n + j] by {
            assert(a.row(r)[j] == a.data[r * n + j]);
            assert(b.row(r)[j] == b.data[r * n + j]);
        }
        assert(s.take(q * n) =~= s.take(r * n) + last);
        lemma_sum_joined(s.take(r * n), last);
    }
}

/// A factor taken into a sum, from either side.
pub proof fn lemma_factor_in<T: Float>(s: Seq<T>, c: T)
    requires
        ring::<T>(),
    ensures
        fmul(fsum(s), c) == fsum(Seq::new(s.len(), |k: int| fmul(s[k], c))),
        fmul(c, fsum(s)) == fsum(Seq::new(s.len(), |k: int| fmul(s[k], c))),
{
    ring_spreads::<T>();
    lemma_sum_scaled(Seq::new(s.len(), |k: int| fmul(s[k], c)), s, c);
    ring_mul(c, fsum(s));
}

/// A row times a matrix against another row, summed either way.
proof fn lemma_bilinear<T: Float>(
    n: nat,
    k: nat,
    u: spec_fn(int) -> T,
    v: spec_fn(int) -> T,
    w: spec_fn(int, int) -> T,
)
    requires
        ring::<T>(),
    ensures
        fsum(Seq::new(k, |p: int| fmul(fsum(Seq::new(n, |j: int| fmul(u(j), w(p, j)))), v(p))))
            == fsum(
            Seq::new(n, |j: int| fmul(u(j), fsum(Seq::new(k, |p: int| fmul(v(p), w(p, j)))))),
        ),
{
    let f = |p: int, j: int| fmul(fmul(u(j), w(p, j)), v(p));
    let h = |j: int, p: int| f(p, j);
    lemma_table_turned(k, n, f);
    let left = Seq::new(
        k,
        |p: int| fmul(fsum(Seq::new(n, |j: int| fmul(u(j), w(p, j)))), v(p)),
    );
    assert forall|p: int| 0 <= p < k implies #[trigger] left[p] == fsum(
        Seq::new(n, |j: int| f(p, j)),
    ) by {
        let s = Seq::new(n, |j: int| fmul(u(j), w(p, j)));
        lemma_factor_in(s, v(p));
        assert(Seq::new(s.len(), |j: int| fmul(s[j], v(p))) =~= Seq::new(n, |j: int| f(p, j)));
    }
    assert(left =~= Seq::new(k, |p: int| fsum(Seq::new(n, |j: int| f(p, j)))));
    let right = Seq::new(
        n,
        |j: int| fmul(u(j), fsum(Seq::new(k, |p: int| fmul(v(p), w(p, j))))),
    );
    assert forall|j: int| 0 <= j < n implies #[trigger] right[j] == fsum(
        Seq::new(k, |p: int| h(j, p)),
    ) by {
        let s = Seq::new(k, |p: int| fmul(v(p), w(p, j)));
        lemma_factor_in(s, u(j));
        assert forall|p: int| 0 <= p < k implies #[trigger] fmul(s[p], u(j)) == h(j, p) by {
            ring_product(v(p), w(p, j), u(j));
            ring_mul(w(p, j), u(j));
            ring_mul(v(p), fmul(u(j), w(p, j)));
        }
        assert(Seq::new(s.len(), |p: int| fmul(s[p], u(j))) =~= Seq::new(k, |p: int| h(j, p)));
    }
    assert(right =~= Seq::new(n, |j: int| fsum(Seq::new(k, |p: int| h(j, p)))));
}

/// The gradient that a product passes to its left factor is the adjoint of multiplying by
/// the right one: against any change of the left factor it weighs as much as the gradient
/// does against the change of the product.
pub proof fn law_product_gradient_reaches_left<T: Float>(
    t: Seq<Entry<T>>,
    i: int,
    g: Array<T>,
    d: Array<T>,
    a: usize,
    b: usize,
    m: usize,
    k: usize,
    n: usize,
)
    requires
        ring::<T>(),
        t[i].step == Step::<T>::MatMul(a, b),
        grid(g, m, n),
        grid(t[b as int].value, k, n),
        grid(d, m, k),
        m > 0,
        k > 0,
        n > 0,
    ensures
        contributions(t, i, g).len() == 2,
        contributions(t, i, g)[0].0 == a,
        inner(contributions(t, i, g)[0].1, d) == inner(g, matmul_of(d, t[b as int].value)),
{
    let y = t[b as int].value;
    let s = transpose_of(y);
    law_transpose_item(y, k, n, 0, 0);
    law_product_item(g, s, m, n, k, 0, 0);
    law_product_item(d, y, m, k, n, 0, 0);
    let c = matmul_of(g, s);
    let e = matmul_of(d, y);
    lemma_inner_rows(c, d, m, k);
    lemma_inner_rows(g, e, m, n);
    let f = |i: int, p: int| fmul(c.row(i as nat)[p], d.row(i as nat)[p]);
    let h = |i: int, j: int| fmul(g.row(i as nat)[j], e.row(i as nat)[j]);
    let left = Seq::new(m as nat, |i: int| fsum(Seq::new(k as nat, |p: int| f(i, p))));
    let right = Seq::new(m as nat, |i: int| fsum(Seq::new(n as nat, |j: int| h(i, j))));
    assert forall|r: int| 0 <= r < m implies #[trigger] left[r] == right[r] by {
        let u = |j: int| g.row(r as nat)[j];
        let v = |p: int| d.row(r as nat)[p];
        let w = |p: int, j: int| y.row(p as nat)[j];
        lemma_bilinear(n as nat, k as nat, u, v, w);
        assert forall|p: int| 0 <= p < k implies #[trigger] f(r, p) == fmul(
            fsum(Seq::new(n as nat, |j: int| fmul(u(j), w(p, j)))),
            v(p),
        ) by {
            law_product_item(g, s, m, n, k, r as nat, p as nat);
            assert forall|j: int| 0 <= j < n implies #[trigger] s.row(j as nat)[p] == w(p, j) by {
                law_transpose_item(y, k, n, p as nat, j as nat);
            }
            assert(Seq::new(n as nat, |j: int| fmul(g.row(r as nat)[j], s.row(j as nat)[p]))
                =~= Seq::new(n as nat, |j: int| fmul(u(j), w(p, j))));
        }
        assert(Seq::new(k as nat, |p: int| f(r, p)) =~= Seq::new(
            k as nat,
            |p: int| fmul(fsum(Seq::new(n as nat, |j: int| fmul(u(j), w(p, j)))), v(p)),
        ));
        assert forall|j: int| 0 <= j < n implies #[trigger] h(r, j) == fmul(
            u(j),
            fsum(Seq::new(k as nat, |p: int| fmul(v(p), w(p, j)))),
        ) by {
            law_product_item(d, y, m, k, n, r as nat, j as nat);
            assert(Seq::new(k as nat, |p: int| fmul(d.row(r as nat)[p], y.row(p as nat)[j]))
                =~= Seq::new(k as nat, |p: int| fmul(v(p), w(p, j))));
        }
        assert(Seq::new(n as nat, |j: int| h(r, j)) =~= Seq::new(
            n as nat,
            |j: int| fmul(u(j), fsum(Seq::new(k as nat, |p: int| fmul(v(p), w(p, j))))),
        ));
    }
    assert(left =~= right);
}

/// The gradient that a product passes to its right factor is the adjoint of multiplying by
/// the left one.
pub proof fn law_product_gradient_reaches_right<T: Float>(
    t: Seq<Entry<T>>,
    i: int,
    g: Array<T>,
    e: Array<T>,
    a: usize,
    b: usize,
    m: usize,
    k: usize,
    n: usize,
)
    requires
        ring::<T>(),
        t[i].step == Step::<T>::MatMul(a, b),
        grid(g, m, n),
        grid(t[a as int].value, m, k),
        grid(e, k, n),
        m > 0,
        k > 0,
        n > 0,
    ensures
        contributions(t, i, g).len() == 2,
        contributions(t, i, g)[1].0 == b,
        inner(contributions(t, i, g)[1].1, e) == inner(g, matmul_of(t[a as int].value, e)),
{
    let x = t[a as int].value;
    let s = transpose_of(x);
    law_transpose_item(x, m, k, 0, 0);
    law_product_item(s, g, k, m, n, 0, 0);
    law_product_item(x, e, m, k, n, 0, 0);
    let c = matmul_of(s, g);
    let z = matmul_of(x, e);
    lemma_inner_rows(c, e, k, n);
    lemma_inner_rows(g, z, m, n);
    let f = |p: int, j: int| fmul(c.row(p as nat)[j], e.row(p as nat)[j]);
    let h = |i: int, j: int| fmul(g.row(i as nat)[j], z.row(i as nat)[j]);
    lemma_table_turned(k as nat, n as nat, f);
    lemma_table_turned(m as nat, n as nat, h);
    let ft = |j: int, p: int| f(p, j);
    let ht = |j: int, i: int| h(i, j);
    let left = Seq::new(n as nat, |j: int| fsum(Seq::new(k as nat, |p: int| ft(j, p))));
    let right = Seq::new(n as nat, |j: int| fsum(Seq::new(m as nat, |i: int| ht(j, i))));
    assert forall|j: int| 0 <= j < n implies #[trigger] left[j] == right[j] by {
        let u = |i: int| g.row(i as nat)[j];
        let v = |p: int| e.row(p as nat)[j];
        let w = |p: int, i: int| x.row(i as nat)[p];
        lemma_bilinear(m as nat, k as nat, u, v, w);
        assert forall|p: int| 0 <= p < k implies #[trigger] ft(j, p) == fmul(
            fsum(Seq::new(m as nat, |i: int| fmul(u(i), w(p, i)))),
            v(p),
        ) by {
            law_product_item(s, g, k, m, n, p as nat, j as nat);
            assert forall|r: int| 0 <= r < m implies #[trigger] fmul(
                s.row(p as nat)[r],
                g.row(r as nat)[j],
            ) == fmul(u(r), w(p, r)) by {
                law_transpose_item(x, m, k, r as nat, p as nat);
                ring_mul(u(r), w(p, r));
            }
            assert(Seq::new(m as nat, |r: int| fmul(s.row(p as nat)[r], g.row(r as nat)[j]))
                =~= Seq::new(m as nat, |i: int| fmul(u(i), w(p, i))));
        }
        assert(Seq::new(k as nat, |p: int| ft(j, p)) =~= Seq::new(
            k as nat,
            |p: int| fmul(fsum(Seq::new(m as nat, |i: int| fmul(u(i), w(p, i)))), v(p)),
        ));
        assert forall|r: int| 0 <= r < m implies #[trigger] ht(j, r) == fmul(
            u(r),
            fsum(Seq::new(k as nat, |p: int| fmul(v(p), w(p, r)))),
        ) by {
            law_product_item(x, e, m, k, n, r as nat, j as nat);
            assert forall|p: int| 0 <= p < k implies #[trigger] fmul(
                x.row(r as nat)[p],
                e.row(p as nat)[j],
            ) == fmul(v(p), w(p, r)) by {
                ring_mul(v(p), w(p, r));
            }
            assert(Seq::new(k as nat, |p: int| fmul(x.row(r as nat)[p], e.row(p as nat)[j]))
                =~= Seq::new(k as nat, |p: int| fmul(v(p), w(p, r))));
        }
        assert(Seq::new(m as nat, |r: int| ht(j, r)) =~= Seq::new(
            m as nat,
            |i: int| fmul(u(i), fsum(Seq::new(k as nat, |p: int| fmul(v(p), w(p, i))))),
        ));
    }
    assert(left =~= right);
}

} // verus!
