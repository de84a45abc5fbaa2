//! What softmax, normalisation and rotation keep, over named identities of arithmetic.
//!
//! Rounding breaks the identities on floats, which have what is stated here only nearly.
//! [`law_rope_at_zero`] is another matter: its premises hold of finite floats other than
//! zero.
use crate::bitlinear::{factors_out, lemma_dot_scaled};
use crate::float::{
    fadd, fbits, fcos, fcount, fdiv, fdot, feq, flt, fmul, fneg, fone, fsin, fsqrt, fsub, fsum,
    fzero, Float, EPSILON,
};
use crate::inference::{masses, renormalised, tempered, tempered_softmax};
use crate::ops::{
    rms, rmsnorm_of, rmsnorm_row, rmsnorm_rows, rope_angle, rope_grad_row, rope_of, rope_row,
    rope_rows, shifted_exps, softmax_grad_row, softmax_of, softmax_row, softmax_rows,
};
use crate::tensor::{lemma_flat_row, lemma_row_end, lemma_volume2, Array};
use vstd::prelude::*;

verus! {

/// The terms of a sum can change places.
#[verifier::opaque]
pub open spec fn sums_commute<T: Float>() -> bool {
    forall|a: T, b: T| #[trigger] fadd(a, b) == fadd(b, a)
}

/// The brackets of a sum do not matter.
#[verifier::opaque]
pub open spec fn sums_associate<T: Float>() -> bool {
    forall|a: T, b: T, c: T| #[trigger] fadd(fadd(a, b), c) == fadd(a, fadd(b, c))
}

/// Zero adds nothing, a number and its negative cancel, and to take away is to add the
/// negative.
#[verifier::opaque]
pub open spec fn sums_cancel<T: Float>() -> bool {
    &&& forall|a: T| #[trigger] fadd(a, fzero::<T>()) == a
    &&& forall|a: T| fadd(a, #[trigger] fneg(a)) == fzero::<T>()
    &&& forall|a: T, b: T| #[trigger] fsub(a, b) == fadd(a, fneg(b))
}

/// The factors of a product can change places.
#[verifier::opaque]
pub open spec fn products_commute<T: Float>() -> bool {
    forall|a: T, b: T| #[trigger] fmul(a, b) == fmul(b, a)
}

/// The brackets of a product do not matter, and one changes nothing.
#[verifier::opaque]
pub open spec fn products_associate<T: Float>() -> bool {
    &&& forall|a: T, b: T, c: T| #[trigger] fmul(fmul(a, b), c) == fmul(a, fmul(b, c))
    &&& forall|a: T| #[trigger] fmul(a, fone::<T>()) == a
}

/// A product with a sum is the sum of the products.
#[verifier::opaque]
pub open spec fn products_spread<T: Float>() -> bool {
    forall|a: T, b: T, c: T| #[trigger] fmul(fadd(a, b), c) == fadd(fmul(a, c), fmul(b, c))
}

/// The laws of a commutative ring.
pub open spec fn ring<T: Float>() -> bool {
    &&& sums_commute::<T>()
    &&& sums_associate::<T>()
    &&& sums_cancel::<T>()
    &&& products_commute::<T>()
    &&& products_associate::<T>()
    &&& products_spread::<T>()
}

/// The terms of a sum change places.
pub proof fn ring_add<T: Float>(a: T, b: T)
    requires
        ring::<T>(),
    ensures
        fadd(a, b) == fadd(b, a),
{
    reveal(sums_commute);
}

/// The brackets of a sum change places.
pub proof fn ring_sum<T: Float>(a: T, b: T, c: T)
    requires
        ring::<T>(),
    ensures
        fadd(fadd(a, b), c) == fadd(a, fadd(b, c)),
{
    reveal(sums_associate);
}

/// A number less itself, and with nothing added.
pub proof fn ring_cancels<T: Float>(a: T, b: T)
    requires
        ring::<T>(),
    ensures
        fadd(a, fzero::<T>()) == a,
        fadd(a, fneg(a)) == fzero::<T>(),
        fsub(a, b) == fadd(a, fneg(b)),
{
    reveal(sums_cancel);
}

/// The negative and zero on either side.
pub proof fn ring_zero<T: Float>(a: T)
    requires
        ring::<T>(),
    ensures
        fadd(a, fzero::<T>()) == a,
        fadd(fzero::<T>(), a) == a,
        fadd(a, fneg(a)) == fzero::<T>(),
        fadd(fneg(a), a) == fzero::<T>(),
{
    ring_cancels(a, a);
    ring_add(fzero::<T>(), a);
    ring_add(fneg(a), a);
}

/// The factors of a product commute.
pub proof fn ring_mul<T: Float>(a: T, b: T)
    requires
        ring::<T>(),
    ensures
        fmul(a, b) == fmul(b, a),
{
    reveal(products_commute);
}

/// The brackets of a product do not matter, and one changes nothing.
pub proof fn ring_product<T: Float>(a: T, b: T, c: T)
    requires
        ring::<T>(),
    ensures
        fmul(fmul(a, b), c) == fmul(a, fmul(b, c)),
        fmul(a, fone::<T>()) == a,
{
    reveal(products_associate);
}

/// One product of a sum.
pub proof fn ring_spread_left<T: Float>(a: T, b: T, c: T)
    requires
        ring::<T>(),
    ensures
        fmul(fadd(a, b), c) == fadd(fmul(a, c), fmul(b, c)),
{
    reveal(products_spread);
}

/// The product of a sum, from either side.
pub proof fn ring_spread<T: Float>(a: T, b: T, c: T)
    requires
        ring::<T>(),
    ensures
        fmul(fadd(a, b), c) == fadd(fmul(a, c), fmul(b, c)),
        fmul(c, fadd(a, b)) == fadd(fmul(c, a), fmul(c, b)),
{
    ring_spread_left(a, b, c);
    ring_mul(c, fadd(a, b));
    ring_mul(c, a);
    ring_mul(c, b);
}

/// To take away is to add the negative.
pub proof fn ring_sub<T: Float>(a: T, b: T)
    requires
        ring::<T>(),
    ensures
        fsub(a, b) == fadd(a, fneg(b)),
{
    ring_cancels(a, b);
}

/// Numbers with the same sum with a third are the same.
pub proof fn ring_cancel<T: Float>(a: T, b: T, c: T)
    requires
        ring::<T>(),
        fadd(a, c) == fadd(b, c),
    ensures
        a == b,
{
    ring_sum(a, c, fneg(c));
    ring_sum(b, c, fneg(c));
    ring_zero(c);
    ring_zero(a);
    ring_zero(b);
}

/// Zero times anything is zero.
pub proof fn ring_absorb<T: Float>(a: T)
    requires
        ring::<T>(),
    ensures
        fmul(fzero::<T>(), a) == fzero::<T>(),
        fmul(a, fzero::<T>()) == fzero::<T>(),
{
    let z = fzero::<T>();
    ring_zero(z);
    ring_spread(z, z, a);
    ring_zero(fmul(z, a));
    ring_cancel(fmul(z, a), z, fmul(z, a));
    ring_mul(a, z);
}

/// The negative of a product negates one factor.
pub proof fn ring_neg<T: Float>(a: T, b: T)
    requires
        ring::<T>(),
    ensures
        fmul(fneg(a), b) == fneg(fmul(a, b)),
        fmul(a, fneg(b)) == fneg(fmul(a, b)),
        fneg(fneg(a)) == a,
{
    let p = fmul(a, b);
    ring_zero(a);
    ring_zero(b);
    ring_zero(p);
    ring_absorb(a);
    ring_absorb(b);
    ring_spread(fneg(a), a, b);
    ring_cancel(fmul(fneg(a), b), fneg(p), p);
    ring_spread(fneg(b), b, a);
    ring_cancel(fmul(a, fneg(b)), fneg(p), p);
    ring_zero(fneg(a));
    ring_cancel(fneg(fneg(a)), a, fneg(a));
}

/// The inner two of four terms change places.
pub proof fn ring_swap<T: Float>(a: T, b: T, c: T, d: T)
    requires
        ring::<T>(),
    ensures
        fadd(fadd(a, b), fadd(c, d)) == fadd(fadd(a, c), fadd(b, d)),
{
    ring_sum(a, b, fadd(c, d));
    ring_sum(b, c, d);
    ring_add(b, c);
    ring_sum(c, b, d);
    ring_sum(a, c, fadd(b, d));
}

/// The inner two of four factors change places.
pub proof fn ring_cross<T: Float>(a: T, b: T, c: T, d: T)
    requires
        ring::<T>(),
    ensures
        fmul(fmul(a, b), fmul(c, d)) == fmul(fmul(a, c), fmul(b, d)),
{
    ring_product(a, b, fmul(c, d));
    ring_product(b, c, d);
    ring_mul(b, c);
    ring_product(c, b, d);
    ring_product(a, c, fmul(b, d));
}

/// The square of a sum.
pub proof fn ring_square<T: Float>(p: T, q: T)
    requires
        ring::<T>(),
    ensures
        fmul(fadd(p, q), fadd(p, q)) == fadd(
            fadd(fmul(p, p), fmul(q, q)),
            fadd(fmul(p, q), fmul(p, q)),
        ),
{
    let s = fadd(p, q);
    ring_spread(p, q, s);
    ring_spread(p, q, p);
    ring_spread(p, q, q);
    ring_mul(q, p);
    ring_add(fmul(p, q), fmul(q, q));
    ring_swap(fmul(p, p), fmul(p, q), fmul(q, q), fmul(p, q));
}

/// A pair rotated by an angle.
pub open spec fn turned<T: Float>(a: T, b: T, angle: T) -> (T, T) {
    (
        fsub(fmul(a, fcos(angle)), fmul(b, fsin(angle))),
        fadd(fmul(a, fsin(angle)), fmul(b, fcos(angle))),
    )
}

/// The squares of the sine and the cosine of an angle add up to one.
pub open spec fn on_circle<T: Float>(angle: T) -> bool {
    fadd(fmul(fsin(angle), fsin(angle)), fmul(fcos(angle), fcos(angle))) == fone::<T>()
}

/// The sum of the squares of a pair.
pub open spec fn pair_norm<T: Float>(a: T, b: T) -> T {
    fadd(fmul(a, a), fmul(b, b))
}

/// The square of a product.
pub proof fn ring_product_square<T: Float>(a: T, c: T)
    requires
        ring::<T>(),
    ensures
        fmul(fmul(a, c), fmul(a, c)) == fmul(fmul(a, a), fmul(c, c)),
{
    ring_cross(a, c, a, c);
}

/// Rotating a pair keeps the sum of its squares.
proof fn lemma_turned_norm<T: Float>(a: T, b: T, angle: T)
    requires
        ring::<T>(),
        on_circle(angle),
    ensures
        pair_norm(turned(a, b, angle).0, turned(a, b, angle).1) == pair_norm(a, b),
{
    let (c, s) = (fcos(angle), fsin(angle));
    let (ac, bs, sa, bc) = (fmul(a, c), fmul(b, s), fmul(a, s), fmul(b, c));
    let (aa, bb, cc, ss) = (fmul(a, a), fmul(b, b), fmul(c, c), fmul(s, s));
    let m = fmul(ac, bs);
    // The first square: aa cc + bb ss - 2 m.
    ring_sub(ac, bs);
    ring_square(ac, fneg(bs));
    ring_neg(bs, fneg(bs));
    ring_neg(bs, bs);
    ring_neg(ac, bs);
    ring_product_square(a, c);
    ring_product_square(b, s);
    let x2 = fadd(fadd(fmul(aa, cc), fmul(bb, ss)), fadd(fneg(m), fneg(m)));
    assert(fmul(fneg(bs), fneg(bs)) == fmul(bs, bs));
    assert(fmul(turned(a, b, angle).0, turned(a, b, angle).0) == x2);
    // The second: aa ss + bb cc + 2 m.
    ring_square(sa, bc);
    ring_product_square(a, s);
    ring_product_square(b, c);
    ring_cross(a, s, b, c);
    ring_cross(a, c, b, s);
    ring_mul(s, c);
    assert(fmul(sa, bc) == m);
    let y2 = fadd(fadd(fmul(aa, ss), fmul(bb, cc)), fadd(m, m));
    assert(fmul(turned(a, b, angle).1, turned(a, b, angle).1) == y2);
    // The mixed terms cancel.
    let (p, q) = (fadd(fmul(aa, cc), fmul(bb, ss)), fadd(fmul(aa, ss), fmul(bb, cc)));
    ring_swap(p, fadd(fneg(m), fneg(m)), q, fadd(m, m));
    ring_swap(fneg(m), fneg(m), m, m);
    ring_zero(m);
    ring_zero(fzero::<T>());
    ring_zero(fadd(p, q));
    assert(fadd(x2, y2) == fadd(p, q));
    // What is left is aa (cc + ss) + bb (ss + cc).
    ring_swap(fmul(aa, cc), fmul(bb, ss), fmul(aa, ss), fmul(bb, cc));
    ring_spread(cc, ss, aa);
    ring_spread(ss, cc, bb);
    ring_add(cc, ss);
    ring_product(aa, aa, aa);
    ring_product(bb, bb, bb);
}

/// Rotating back a rotated pair gives the pair.
proof fn lemma_turned_back<T: Float>(a: T, b: T, angle: T)
    requires
        ring::<T>(),
        on_circle(angle),
    ensures
        ({
            let (x, y) = turned(a, b, angle);
            let (c, s) = (fcos(angle), fsin(angle));
            &&& fadd(fmul(x, c), fmul(y, s)) == a
            &&& fadd(fmul(fneg(x), s), fmul(y, c)) == b
        }),
{
    let (x, y) = turned(a, b, angle);
    let (c, s) = (fcos(angle), fsin(angle));
    let (ac, bs, sa, bc) = (fmul(a, c), fmul(b, s), fmul(a, s), fmul(b, c));
    ring_sub(ac, bs);
    // x c + y s = a c c - b s c + a s s + b c s.
    ring_spread(ac, fneg(bs), c);
    ring_neg(bs, c);
    ring_spread(sa, bc, s);
    ring_product(a, c, c);
    ring_product(b, s, c);
    ring_product(a, s, s);
    ring_product(b, c, s);
    ring_mul(s, c);
    let m = fmul(b, fmul(c, s));
    let (acc, ass) = (fmul(a, fmul(c, c)), fmul(a, fmul(s, s)));
    ring_swap(acc, fneg(m), ass, m);
    ring_zero(m);
    ring_spread(fmul(c, c), fmul(s, s), a);
    ring_add(fmul(c, c), fmul(s, s));
    ring_zero(a);
    assert(fadd(fmul(x, c), fmul(y, s)) == a);
    // -x s + y c = -a c s + b s s + a s c + b c c.
    ring_neg(x, s);
    ring_spread(ac, fneg(bs), s);
    ring_neg(bs, s);
    ring_spread(sa, bc, c);
    ring_product(a, c, s);
    ring_product(b, s, s);
    ring_product(a, s, c);
    ring_product(b, c, c);
    let n = fmul(a, fmul(c, s));
    let (bss, bcc) = (fmul(b, fmul(s, s)), fmul(b, fmul(c, c)));
    assert(fmul(x, s) == fadd(n, fneg(bss)));
    lemma_neg_sum(n, fneg(bss));
    ring_neg(bss, bss);
    assert(fneg(fmul(x, s)) == fadd(fneg(n), bss));
    assert(fmul(y, c) == fadd(n, bcc));
    ring_swap(fneg(n), bss, n, bcc);
    ring_zero(n);
    ring_spread(fmul(s, s), fmul(c, c), b);
    ring_zero(b);
    ring_product(b, b, b);
    ring_product(a, a, a);
}

/// The negative of a sum is the sum of the negatives.
pub proof fn lemma_neg_sum<T: Float>(a: T, b: T)
    requires
        ring::<T>(),
    ensures
        fneg(fadd(a, b)) == fadd(fneg(a), fneg(b)),
{
    ring_zero(a);
    ring_zero(b);
    ring_zero(fzero::<T>());
    ring_zero(fadd(a, b));
    ring_swap(fneg(a), fneg(b), a, b);
    ring_cancel(fneg(fadd(a, b)), fadd(fneg(a), fneg(b)), fadd(a, b));
}

/// The angles of the pairs of a row lie on the circle.
pub open spec fn angles_on_circle<T: Float>(pos: usize, head_dim: usize) -> bool {
    forall|i: usize|
        i < head_dim / 2 ==> on_circle(#[trigger] rope_angle::<T>(pos, i, head_dim))
}

/// Rotation keeps the norm of every pair, at every position.
pub proof fn law_rope_keeps_pair_norm<T: Float>(s: Seq<T>, pos: usize, i: int)
    requires
        ring::<T>(),
        angles_on_circle::<T>(pos, s.len() as usize),
        s.len() % 2 == 0,
        s.len() <= usize::MAX,
        0 <= 2 * i < s.len(),
    ensures
        pair_norm(
            rope_row(s, pos)[2 * i],
            rope_row(s, pos)[2 * i + 1],
        ) == pair_norm(s[2 * i], s[2 * i + 1]),
{
    let n = s.len() as usize;
    let (j, k) = (2 * i, 2 * i + 1);
    assert(j / 2 == i && k / 2 == i && j % 2 == 0 && k % 2 == 1);
    let angle = rope_angle::<T>(pos, i as usize, n);
    assert((i as usize) < n / 2);
    lemma_turned_norm(s[j], s[k], angle);
}

/// The gradient of the rotation undoes the rotation.
pub proof fn law_rope_grad_is_inverse<T: Float>(s: Seq<T>, pos: usize)
    requires
        ring::<T>(),
        angles_on_circle::<T>(pos, s.len() as usize),
        s.len() % 2 == 0,
        s.len() <= usize::MAX,
    ensures
        rope_grad_row(rope_row(s, pos), pos) == s,
{
    let n = s.len() as usize;
    let r = rope_row(s, pos);
    assert forall|k: int| 0 <= k < s.len() implies #[trigger] rope_grad_row(r, pos)[k] == s[k] by {
        let i = k / 2;
        let (e, o) = (2 * i, 2 * i + 1);
        assert(e / 2 == i && o / 2 == i && e % 2 == 0 && o % 2 == 1);
        assert(o < s.len());
        assert((i as usize) < n / 2);
        let angle = rope_angle::<T>(pos, i as usize, n);
        lemma_turned_back(s[e], s[o], angle);
        assert(r[e] == turned(s[e], s[o], angle).0);
        assert(r[o] == turned(s[e], s[o], angle).1);
        if k % 2 == 0 {
            assert(k == e);
        } else {
            assert(k == o);
        }
    }
    assert(rope_grad_row(r, pos) =~= s);
}

/// At position 0 every angle is zero, and zero turns nothing.
pub open spec fn zero_turns_nothing<T: Float>() -> bool {
    &&& forall|i: usize, n: usize|
        i < n / 2 ==> #[trigger] rope_angle::<T>(0, i, n) == fzero::<T>()
    &&& fcos(fzero::<T>()) == fone::<T>()
    &&& fsin(fzero::<T>()) == fzero::<T>()
}

/// One and zero are neutral for the items of a row: an item times one, less or plus
/// another times zero, is the item.
pub open spec fn neutral<T: Float>(s: Seq<T>) -> bool {
    forall|i: int, j: int|
        #![trigger s[i], s[j]]
        0 <= i < s.len() && 0 <= j < s.len() ==> {
            &&& fsub(fmul(s[i], fone::<T>()), fmul(s[j], fzero::<T>())) == s[i]
            &&& fadd(fmul(s[j], fzero::<T>()), fmul(s[i], fone::<T>())) == s[i]
        }
}

/// At position 0 rotation changes nothing.
pub proof fn law_rope_at_zero<T: Float>(s: Seq<T>)
    requires
        zero_turns_nothing::<T>(),
        neutral(s),
        s.len() % 2 == 0,
        s.len() <= usize::MAX,
    ensures
        rope_row(s, 0) == s,
{
    assert forall|k: int| 0 <= k < s.len() implies #[trigger] rope_row(s, 0)[k] == s[k] by {
        let j = if k % 2 == 0 {
            k + 1
        } else {
            k - 1
        };
        assert(0 <= j < s.len());
        assert(((k / 2) as usize) < (s.len() as usize) / 2);
        assert(rope_angle::<T>(0, (k / 2) as usize, s.len() as usize) == fzero::<T>());
        let (x, y) = (s[k], s[j]);
    }
    assert(rope_row(s, 0) =~= s);
}

/// A common factor can be taken out of a sum.
#[verifier::opaque]
pub open spec fn spreads<T: Float>() -> bool {
    &&& forall|a: T, b: T, c: T| #[trigger]
        fadd(fmul(a, c), fmul(b, c)) == fmul(fadd(a, b), c)
    &&& forall|a: T| #[trigger] fmul(fzero::<T>(), a) == fzero::<T>()
}

/// A common factor of two terms.
pub proof fn lemma_spreads<T: Float>(a: T, b: T, c: T)
    requires
        spreads::<T>(),
    ensures
        fadd(fmul(a, c), fmul(b, c)) == fmul(fadd(a, b), c),
        fmul(fzero::<T>(), c) == fzero::<T>(),
{
    reveal(spreads);
}

/// A sum of scaled items is the scaled sum.
pub proof fn lemma_sum_scaled<T: Float>(s: Seq<T>, x: Seq<T>, f: T)
    requires
        spreads::<T>(),
        s.len() == x.len(),
        forall|k: int| 0 <= k < s.len() ==> #[trigger] s[k] == fmul(x[k], f),
    ensures
        fsum(s) == fmul(fsum(x), f),
    decreases s.len(),
{
    if s.len() > 0 {
        let n = s.len() - 1;
        assert(s[n] == fmul(x[n], f));
        lemma_sum_scaled(s.drop_last(), x.drop_last(), f);
        lemma_spreads(fsum(x.drop_last()), x[n], f);
    } else {
        lemma_spreads(f, f, f);
    }
}

/// A number times its reciprocal is one.
pub open spec fn inverts<T: Float>(a: T) -> bool {
    fmul(a, fdiv(fone::<T>(), a)) == fone::<T>()
}

/// The softmax of a row sums to one.
pub proof fn law_softmax_sums_to_one<T: Float>(s: Seq<T>)
    requires
        spreads::<T>(),
        inverts(fsum(shifted_exps(s))),
    ensures
        fsum(softmax_row(s)) == fone::<T>(),
{
    let e = shifted_exps(s);
    lemma_sum_scaled(softmax_row(s), e, fdiv(fone::<T>(), fsum(e)));
}

/// A common divisor can be taken out of a sum.
#[verifier::opaque]
pub open spec fn shares_divisor<T: Float>() -> bool {
    &&& forall|a: T, b: T, c: T| #[trigger]
        fadd(fdiv(a, c), fdiv(b, c)) == fdiv(fadd(a, b), c)
    &&& forall|a: T| #[trigger] fdiv(fzero::<T>(), a) == fzero::<T>()
}

/// A sum of quotients is the quotient of the sum.
pub proof fn lemma_sum_divided<T: Float>(s: Seq<T>, x: Seq<T>, d: T)
    requires
        shares_divisor::<T>(),
        s.len() == x.len(),
        forall|k: int| 0 <= k < s.len() ==> #[trigger] s[k] == fdiv(x[k], d),
    ensures
        fsum(s) == fdiv(fsum(x), d),
    decreases s.len(),
{
    reveal(shares_divisor);
    if s.len() > 0 {
        let n = s.len() - 1;
        assert(s[n] == fdiv(x[n], d));
        lemma_sum_divided(s.drop_last(), x.drop_last(), d);
    }
}

/// The probabilities of the next token sum to one, where not every exponential vanishes.
pub proof fn law_probabilities_sum_to_one<T: Float>(logits: Seq<T>, temperature: T)
    requires
        shares_divisor::<T>(),
        ({
            let total = fsum(shifted_exps(tempered(logits, temperature)));
            !feq(total, fzero::<T>()) && fdiv(total, total) == fone::<T>()
        }),
    ensures
        fsum(tempered_softmax(logits, temperature)) == fone::<T>(),
{
    let e = shifted_exps(tempered(logits, temperature));
    lemma_sum_divided(tempered_softmax(logits, temperature), e, fsum(e));
}

/// What is kept of the probabilities is rescaled to sum to one, where it is above zero.
pub proof fn law_kept_probabilities_sum_to_one<T: Float>(list: Seq<(usize, T)>)
    requires
        shares_divisor::<T>(),
        flt(fzero::<T>(), fsum(masses(list))),
        fdiv(fsum(masses(list)), fsum(masses(list))) == fone::<T>(),
    ensures
        fsum(masses(renormalised(list))) == fone::<T>(),
{
    lemma_sum_divided(masses(renormalised(list)), masses(list), fsum(masses(list)));
}

/// A row of a matrix that is given by its rows.
pub proof fn lemma_given_row<T>(x: Array<T>, g: spec_fn(nat) -> Seq<T>, i: nat)
    requires
        x.wf(),
        x.dims.len() == 2,
        i < x.dims[0],
        forall|k: nat| (#[trigger] g(k)).len() == x.row(k).len(),
    ensures
        crate::tensor::matrix(x.dims[0], x.dims[1], g).row(i) == g(i),
{
    let (m, n) = (x.dims[0], x.dims[1]);
    lemma_volume2(x.dims);
    assert forall|k: nat| k < m implies (#[trigger] g(k)).len() == n by {
        lemma_row_end(k as int, m as int, n as int);
    }
    lemma_flat_row(m as nat, n as nat, g, i);
}

/// Every row of a row-wise softmax sums to one.
pub proof fn law_softmax_rows_sum_to_one<T: Float>(x: Array<T>, i: nat)
    requires
        spreads::<T>(),
        x.wf(),
        x.dims.len() == 2,
        i < x.dims[0],
        inverts(fsum(shifted_exps(x.row(i)))),
    ensures
        fsum(softmax_of(x).row(i)) == fone::<T>(),
{
    lemma_given_row(x, softmax_rows(x), i);
    law_softmax_sums_to_one(x.row(i));
}

/// The inner product with a row of one repeated number is that number times the sum.
pub proof fn lemma_dot_constant<T: Float>(g: Seq<T>, s: Seq<T>, c: T, n: nat)
    requires
        ring::<T>(),
        n <= s.len(),
        n <= g.len(),
        forall|k: int| 0 <= k < n ==> #[trigger] g[k] == c,
    ensures
        fdot(g, s, n) == fmul(c, fsum(s.take(n as int))),
    decreases n,
{
    if n == 0 {
        ring_absorb(c);
    } else {
        let m = (n - 1) as nat;
        lemma_dot_constant(g, s, c, m);
        let t = s.take(n as int);
        assert(t.drop_last() =~= s.take(m as int));
        assert(g[m as int] == c);
        ring_spread(fsum(s.take(m as int)), s[m as int], c);
    }
}

/// A gradient that is the same for every item of a row passes nothing back through a
/// softmax: what depends only on the sum of the row does not change.
pub proof fn law_softmax_grad_of_constant<T: Float>(g: Seq<T>, s: Seq<T>, c: T)
    requires
        ring::<T>(),
        g.len() == s.len(),
        forall|k: int| 0 <= k < g.len() ==> #[trigger] g[k] == c,
        fsum(s) == fone::<T>(),
    ensures
        forall|k: int| 0 <= k < s.len() ==> #[trigger] softmax_grad_row(g, s)[k] == fzero::<T>(),
{
    lemma_dot_constant(g, s, c, s.len());
    assert(s.take(s.len() as int) =~= s);
    ring_product(c, c, c);
    assert forall|k: int| 0 <= k < s.len() implies #[trigger] softmax_grad_row(g, s)[k] == fzero::<
        T,
    >() by {
        assert(g[k] == c);
        ring_sub(c, c);
        ring_zero(c);
        ring_absorb(s[k]);
    }
}

/// The mean of the squares of a row.
pub open spec fn mean_square<T: Float>(s: Seq<T>) -> T {
    fdiv(fsum(Seq::new(s.len(), |k: int| fmul(s[k], s[k]))), fcount::<T>(s.len() as usize))
}

/// A sum of squares is an inner product.
pub proof fn lemma_squares<T: Float>(s: Seq<T>, n: nat)
    requires
        n <= s.len(),
    ensures
        fsum(Seq::new(n, |k: int| fmul(s[k], s[k]))) == fdot(s, s, n),
    decreases n,
{
    if n > 0 {
        lemma_squares(s, (n - 1) as nat);
        assert(Seq::new(n, |k: int| fmul(s[k], s[k])).drop_last() =~= Seq::new(
            (n - 1) as nat,
            |k: int| fmul(s[k], s[k]),
        ));
    }
}

/// Division takes a factor along, and twice the product with a reciprocal divides by the
/// square.
#[verifier::opaque]
pub open spec fn divides<T: Float>() -> bool {
    &&& forall|a: T, b: T, n: T| #[trigger] fdiv(fmul(a, b), n) == fmul(fdiv(a, n), b)
    &&& forall|a: T, r: T|
        fmul(a, fmul(fdiv(fone::<T>(), r), fdiv(fone::<T>(), r))) == #[trigger] fdiv(a, fmul(r, r))
}

/// The two identities of division at given numbers.
proof fn lemma_divides<T: Float>(a: T, b: T, n: T, r: T)
    requires
        divides::<T>(),
    ensures
        fdiv(fmul(a, b), n) == fmul(fdiv(a, n), b),
        fmul(fdiv(a, n), fmul(fdiv(fone::<T>(), r), fdiv(fone::<T>(), r))) == fdiv(
            fdiv(a, n),
            fmul(r, r),
        ),
{
    reveal(divides);
}

/// A root squared is the number.
pub open spec fn squares_back<T: Float>(a: T) -> bool {
    fmul(fsqrt(a), fsqrt(a)) == a
}

/// The mean square of a normalised row is that of the row over itself plus the guard, so
/// one but for the guard.
pub proof fn law_rmsnorm_has_unit_mean_square<T: Float>(s: Seq<T>)
    requires
        factors_out::<T>(),
        divides::<T>(),
        squares_back(fadd(mean_square(s), fbits::<T>(EPSILON))),
    ensures
        mean_square(rmsnorm_row(s)) == fdiv(
            mean_square(s),
            fadd(mean_square(s), fbits::<T>(EPSILON)),
        ),
{
    let y = rmsnorm_row(s);
    let n = s.len();
    let r = rms(s);
    let inv = fdiv(fone::<T>(), r);
    let count = fcount::<T>(n as usize);
    lemma_squares(s, n);
    lemma_squares(y, n);
    lemma_dot_scaled(y, y, s, s, inv, inv, n);
    let total = fdot(s, s, n);
    lemma_divides(total, fmul(inv, inv), count, r);
    assert(fmul(r, r) == fadd(mean_square(s), fbits::<T>(EPSILON)));
}

/// The same of every row of a normalised matrix.
pub proof fn law_rmsnorm_rows_have_unit_mean_square<T: Float>(x: Array<T>, i: nat)
    requires
        factors_out::<T>(),
        divides::<T>(),
        x.wf(),
        x.dims.len() == 2,
        i < x.dims[0],
        squares_back(fadd(mean_square(x.row(i)), fbits::<T>(EPSILON))),
    ensures
        mean_square(rmsnorm_of(x).row(i)) == fdiv(
            mean_square(x.row(i)),
            fadd(mean_square(x.row(i)), fbits::<T>(EPSILON)),
        ),
{
    lemma_given_row(x, rmsnorm_rows(x), i);
    law_rmsnorm_has_unit_mean_square(x.row(i));
}

/// The first row of a rotated matrix is left as it is.
pub proof fn law_rope_leaves_first_row<T: Float>(x: Array<T>)
    requires
        zero_turns_nothing::<T>(),
        x.wf(),
        x.dims.len() == 2,
        x.dims[0] > 0,
        x.dims[1] % 2 == 0,
        neutral(x.row(0)),
    ensures
        rope_of(x).row(0) == x.row(0),
{
    lemma_volume2(x.dims);
    lemma_row_end(0, x.dims[0] as int, x.dims[1] as int);
    lemma_given_row(x, rope_rows(x), 0);
    law_rope_at_zero(x.row(0));
}

} // verus!
