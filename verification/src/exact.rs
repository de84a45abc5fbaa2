//! Arithmetic without rounding: the identities that laws over numbers are stated under,
//! and what follows from them for sums.
use crate::float::{fadd, fcount, fdiv, fdot, fexp, flt, fmul, fone, fsub, fsum, fzero, Float};
use crate::identities::{
    ring, ring_absorb, ring_add, ring_mul, ring_product, ring_spread, ring_sub, ring_sum, ring_swap,
    ring_zero, spreads,
};
use vstd::prelude::*;

verus! {

/// Counts add up as their numbers do.
#[verifier::opaque]
pub open spec fn counts<T: Float>() -> bool {
    &&& fcount::<T>(0) == fzero::<T>()
    &&& fcount::<T>(1) == fone::<T>()
    &&& forall|m: usize, n: usize|
        m + n <= usize::MAX ==> #[trigger] fadd(fcount::<T>(m), fcount::<T>(n)) == fcount::<T>(
            (m + n) as usize,
        )
}

/// Counts of nothing, of one, and of two groups together.
pub proof fn exact_count<T: Float>(m: usize, n: usize)
    requires
        counts::<T>(),
        m + n <= usize::MAX,
    ensures
        fcount::<T>(0) == fzero::<T>(),
        fcount::<T>(1) == fone::<T>(),
        fadd(fcount::<T>(m), fcount::<T>(n)) == fcount::<T>((m + n) as usize),
{
    reveal(counts);
}

/// Dividing by `d` and multiplying by it undo each other.
#[verifier::opaque]
pub open spec fn divisor<T: Float>(d: T) -> bool {
    &&& forall|a: T| fmul(d, #[trigger] fdiv(a, d)) == a
    &&& forall|a: T| #[trigger] fdiv(fmul(d, a), d) == a
}

/// A quotient times its divisor, and a product over its factor.
pub proof fn exact_div<T: Float>(a: T, d: T)
    requires
        divisor(d),
    ensures
        fmul(d, fdiv(a, d)) == a,
        fdiv(fmul(d, a), d) == a,
{
    reveal(divisor);
}

/// Every count above zero can be divided by.
#[verifier::opaque]
pub open spec fn shares_out<T: Float>() -> bool {
    forall|n: usize| n > 0 ==> #[trigger] divisor(fcount::<T>(n))
}

/// A count above zero can be divided by.
pub proof fn exact_share<T: Float>(a: T, n: usize)
    requires
        shares_out::<T>(),
        n > 0,
    ensures
        divisor(fcount::<T>(n)),
        fmul(fcount::<T>(n), fdiv(a, fcount::<T>(n))) == a,
        fdiv(fmul(fcount::<T>(n), a), fcount::<T>(n)) == a,
{
    reveal(shares_out);
    assert(divisor(fcount::<T>(n)));
    exact_div(a, fcount::<T>(n));
}

/// The exponential of a sum is the product of the exponentials.
#[verifier::opaque]
pub open spec fn exps_multiply<T: Float>() -> bool {
    forall|a: T, b: T| #[trigger] fmul(fexp(a), fexp(b)) == fexp(fadd(a, b))
}

/// Two exponentials multiplied.
pub proof fn exact_exp<T: Float>(a: T, b: T)
    requires
        exps_multiply::<T>(),
    ensures
        fmul(fexp(a), fexp(b)) == fexp(fadd(a, b)),
{
    reveal(exps_multiply);
}

/// Below is a strict order.
#[verifier::opaque]
pub open spec fn strict<T: Float>() -> bool {
    &&& forall|a: T| !#[trigger] flt(a, a)
    &&& forall|a: T, b: T, c: T| #[trigger] flt(a, b) && #[trigger] flt(b, c) ==> flt(a, c)
}

/// Nothing is below itself, and what is below something is below what that is below.
pub proof fn exact_order<T: Float>(a: T, b: T, c: T)
    requires
        strict::<T>(),
    ensures
        !flt(a, a),
        flt(a, b) && flt(b, c) ==> flt(a, c),
{
    reveal(strict);
}

/// In a ring common factors can be taken out of sums.
pub proof fn ring_spreads<T: Float>()
    requires
        ring::<T>(),
    ensures
        spreads::<T>(),
{
    reveal(spreads);
    assert forall|a: T, b: T, c: T| #[trigger] fadd(fmul(a, c), fmul(b, c)) == fmul(
        fadd(a, b),
        c,
    ) by {
        ring_spread(a, b, c);
    }
    assert forall|a: T| #[trigger] fmul(fzero::<T>(), a) == fzero::<T>() by {
        ring_absorb(a);
    }
}

/// What was taken away can be added again.
pub proof fn ring_back<T: Float>(a: T, b: T)
    requires
        ring::<T>(),
    ensures
        fadd(fsub(a, b), b) == a,
        fadd(b, fsub(a, b)) == a,
        fsub(fadd(a, b), b) == a,
        fsub(a, fzero::<T>()) == a,
{
    ring_sub(a, b);
    ring_sum(a, crate::float::fneg(b), b);
    ring_zero(b);
    ring_zero(a);
    ring_add(fsub(a, b), b);
    ring_sub(fadd(a, b), b);
    ring_sum(a, b, crate::float::fneg(b));
    let z = fzero::<T>();
    ring_sub(a, z);
    ring_zero(z);
    ring_zero(crate::float::fneg(z));
    ring_sum(a, crate::float::fneg(z), z);
    ring_zero(fadd(a, crate::float::fneg(z)));
    ring_zero(a);
}

/// The sum of two stretches is the sum of both.
pub proof fn lemma_sum_joined<T: Float>(a: Seq<T>, b: Seq<T>)
    requires
        ring::<T>(),
    ensures
        fsum(a + b) == fadd(fsum(a), fsum(b)),
    decreases b.len(),
{
    if b.len() == 0 {
        assert(a + b =~= a);
        ring_zero(fsum(a));
    } else {
        lemma_sum_joined(a, b.drop_last());
        assert((a + b).drop_last() =~= a + b.drop_last());
        ring_sum(fsum(a), fsum(b.drop_last()), b.last());
    }
}

/// A number added up again and again is its multiple.
pub proof fn lemma_sum_constant<T: Float>(s: Seq<T>, a: T)
    requires
        ring::<T>(),
        counts::<T>(),
        s.len() <= usize::MAX,
        forall|k: int| 0 <= k < s.len() ==> #[trigger] s[k] == a,
    ensures
        fsum(s) == fmul(fcount::<T>(s.len() as usize), a),
    decreases s.len(),
{
    exact_count::<T>(0, 0);
    if s.len() == 0 {
        ring_absorb(a);
    } else {
        let n = (s.len() - 1) as usize;
        lemma_sum_constant(s.drop_last(), a);
        assert(s[s.len() - 1] == a);
        exact_count::<T>(n, 1);
        ring_spread(fcount::<T>(n), fone::<T>(), a);
        ring_mul(fone::<T>(), a);
        ring_product(a, a, a);
    }
}

/// Sums of items that are sums themselves.
pub proof fn lemma_sum_added<T: Float>(s: Seq<T>, a: Seq<T>, b: Seq<T>)
    requires
        ring::<T>(),
        s.len() == a.len(),
        s.len() == b.len(),
        forall|k: int| 0 <= k < s.len() ==> #[trigger] s[k] == fadd(a[k], b[k]),
    ensures
        fsum(s) == fadd(fsum(a), fsum(b)),
    decreases s.len(),
{
    if s.len() == 0 {
        ring_zero(fzero::<T>());
    } else {
        let n = s.len() - 1;
        assert(s[n] == fadd(a[n], b[n]));
        lemma_sum_added(s.drop_last(), a.drop_last(), b.drop_last());
        ring_swap(fsum(a.drop_last()), fsum(b.drop_last()), a[n], b[n]);
    }
}

/// One item of a sum replaced.
pub proof fn lemma_sum_replaced<T: Float>(s: Seq<T>, i: int, a: T)
    requires
        ring::<T>(),
        0 <= i < s.len(),
    ensures
        fadd(fsum(s.update(i, a)), s[i]) == fadd(fsum(s), a),
    decreases s.len(),
{
    let n = s.len() - 1;
    let t = s.update(i, a);
    let p = s.drop_last();
    if i == n {
        assert(t.drop_last() =~= p);
        ring_sum(fsum(p), a, s[n]);
        ring_sum(fsum(p), s[n], a);
        ring_add(a, s[n]);
    } else {
        lemma_sum_replaced(p, i, a);
        assert(t.drop_last() =~= p.update(i, a));
        let u = fsum(p.update(i, a));
        ring_sum(u, s[n], s[i]);
        ring_add(s[n], s[i]);
        ring_sum(u, s[i], s[n]);
        ring_sum(fsum(p), a, s[n]);
        ring_add(a, s[n]);
        ring_sum(fsum(p), s[n], a);
    }
}

/// Two items of a sum exchanged.
pub proof fn lemma_sum_exchanged<T: Float>(s: Seq<T>, i: int, j: int)
    requires
        ring::<T>(),
        0 <= i < s.len(),
        0 <= j < s.len(),
    ensures
        fsum(s.update(i, s[j]).update(j, s[i])) == fsum(s),
{
    if i == j {
        assert(s.update(i, s[j]).update(j, s[i]) =~= s);
    } else {
        let t = s.update(i, s[j]);
        let u = t.update(j, s[i]);
        lemma_sum_replaced(s, i, s[j]);
        lemma_sum_replaced(t, j, s[i]);
        // fsum(t) + s[i] == fsum(s) + s[j], and fsum(u) + s[j] == fsum(t) + s[i].
        assert(t[j] == s[j]);
        crate::identities::ring_cancel(fsum(u), fsum(s), s[j]);
    }
}

/// An inner product is the sum of its products.
pub proof fn lemma_dot_sum<T: Float>(a: Seq<T>, b: Seq<T>, n: nat)
    requires
        n <= a.len(),
        n <= b.len(),
    ensures
        fdot(a, b, n) == fsum(Seq::new(n, |k: int| fmul(a[k], b[k]))),
    decreases n,
{
    let s = Seq::new(n, |k: int| fmul(a[k], b[k]));
    if n > 0 {
        let m = (n - 1) as nat;
        lemma_dot_sum(a, b, m);
        assert(s.drop_last() =~= Seq::new(m, |k: int| fmul(a[k], b[k])));
    }
}

} // verus!
