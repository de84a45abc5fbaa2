//! How positions turn queries and keys: the frequencies of the rotation, and that scores
//! depend on how far apart two positions are.
use crate::agreement::{grid, lemma_rope_row, lemma_row};
use crate::exact::{counts, exact_count, exact_share, shares_out};
use crate::float::{
    fadd, fbits, fcos, fcount, fdiv, fmul, fneg, fone, fpow, fsin, fsub, fzero, Float,
};
use crate::identities::{
    on_circle, ring, ring_absorb, ring_add, ring_cross, ring_mul, ring_neg, ring_product,
    ring_spread, ring_sub, ring_swap, ring_zero, turned,
};
use crate::ops::{rope_angle, rope_of, rope_row};
use crate::tensor::Array;
use vstd::prelude::*;

verus! {

/// A power of a power of 10000 multiplies the exponents.
#[verifier::opaque]
pub open spec fn powers_multiply<T: Float>() -> bool {
    forall|x: T, y: T| #[trigger]
        fpow(fpow(fbits::<T>(0x461C_4000), x), y) == fpow(fbits::<T>(0x461C_4000), fmul(x, y))
}

/// A power of a power.
proof fn exact_power<T: Float>(x: T, y: T)
    requires
        powers_multiply::<T>(),
    ensures
        fpow(fpow(fbits::<T>(0x461C_4000), x), y) == fpow(fbits::<T>(0x461C_4000), fmul(x, y)),
{
    reveal(powers_multiply);
}

/// The bit pattern 0x40000000 is that of two.
pub open spec fn has_two<T: Float>() -> bool {
    fbits::<T>(0x4000_0000) == fadd(fone::<T>(), fone::<T>())
}

/// Twice a count.
proof fn lemma_twice<T: Float>(i: usize)
    requires
        ring::<T>(),
        counts::<T>(),
        has_two::<T>(),
        2 * i <= usize::MAX,
    ensures
        fmul(fbits::<T>(0x4000_0000), fcount::<T>(i)) == fcount::<T>((2 * i) as usize),
{
    exact_count::<T>(i, i);
    let one = fone::<T>();
    ring_spread(one, one, fcount::<T>(i));
    ring_mul(one, fcount::<T>(i));
    ring_product(fcount::<T>(i), one, one);
}

/// Positions add up in the angle: the angle at the sum of two positions is the sum of
/// their angles.
pub proof fn law_angles_add_up<T: Float>(p: usize, q: usize, i: usize, d: usize)
    requires
        ring::<T>(),
        counts::<T>(),
        p + q <= usize::MAX,
    ensures
        rope_angle::<T>((p + q) as usize, i, d) == fadd(
            rope_angle::<T>(p, i, d),
            rope_angle::<T>(q, i, d),
        ),
{
    exact_count::<T>(p, q);
    let f = fpow(
        fbits::<T>(crate::float::ROPE_BASE),
        fdiv(
            fneg(fmul(fbits::<T>(crate::float::TWO), fcount::<T>(i))),
            fcount::<T>(d),
        ),
    );
    ring_spread(fcount::<T>(p), fcount::<T>(q), f);
}

/// The frequencies run over one geometric scale of the head's own width: that of pair `i`
/// in a head of `d` items, which is the angle at position 1, raised to the power `d`, is
/// 10000 to the power of -2 `i`.
pub proof fn law_frequencies_are_geometric<T: Float>(i: usize, d: usize)
    requires
        ring::<T>(),
        counts::<T>(),
        shares_out::<T>(),
        powers_multiply::<T>(),
        has_two::<T>(),
        d > 0,
        2 * i <= usize::MAX,
    ensures
        fpow(rope_angle::<T>(1, i, d), fcount::<T>(d)) == fpow(
            fbits::<T>(0x461C_4000),
            fneg(fcount::<T>((2 * i) as usize)),
        ),
{
    let base = fbits::<T>(0x461C_4000);
    let two_i = fmul(fbits::<T>(0x4000_0000), fcount::<T>(i));
    let e = fdiv(fneg(two_i), fcount::<T>(d));
    exact_count::<T>(0, 1);
    ring_mul(fone::<T>(), fpow(base, e));
    ring_product(fpow(base, e), e, e);
    assert(rope_angle::<T>(1, i, d) == fpow(base, e));
    exact_power(e, fcount::<T>(d));
    exact_share(fneg(two_i), d);
    ring_mul(e, fcount::<T>(d));
    lemma_twice::<T>(i);
}

/// Pair `i` of a head turns as fast as pair 2 `i` of a head twice as wide.
pub proof fn law_frequencies_scale_with_width<T: Float>(p: usize, i: usize, d: usize)
    requires
        ring::<T>(),
        counts::<T>(),
        shares_out::<T>(),
        has_two::<T>(),
        0 < d,
        2 * d <= usize::MAX,
        4 * i <= usize::MAX,
    ensures
        rope_angle::<T>(p, i, d) == rope_angle::<T>(p, (2 * i) as usize, (2 * d) as usize),
{
    let two = fbits::<T>(0x4000_0000);
    let (i2, d2) = ((2 * i) as usize, (2 * d) as usize);
    lemma_twice::<T>(i);
    lemma_twice::<T>(d);
    let a = fneg(fmul(two, fcount::<T>(i)));
    let b = fneg(fmul(two, fcount::<T>(i2)));
    let q = fdiv(a, fcount::<T>(d));
    // Twice the width times q is twice a.
    exact_share(a, d);
    ring_product(two, fcount::<T>(d), q);
    assert(fmul(fcount::<T>(d2), q) == fmul(two, a));
    ring_neg(two, fmul(two, fcount::<T>(i)));
    assert(fmul(two, a) == b);
    exact_share(q, d2);
    assert(fdiv(b, fcount::<T>(d2)) == q);
}

/// The sine and cosine of a sum of angles.
pub open spec fn angles_split<T: Float>(a: T, b: T) -> bool {
    &&& fcos(fadd(a, b)) == fsub(fmul(fcos(a), fcos(b)), fmul(fsin(a), fsin(b)))
    &&& fsin(fadd(a, b)) == fadd(fmul(fsin(a), fcos(b)), fmul(fcos(a), fsin(b)))
}

/// The inner product of two pairs.
pub open spec fn pair_dot<T: Float>(x: (T, T), y: (T, T)) -> T {
    fadd(fmul(x.0, y.0), fmul(x.1, y.1))
}

/// A product of a difference with a difference.
proof fn lemma_foil<T: Float>(a: T, b: T, c: T, d: T)
    requires
        ring::<T>(),
    ensures
        fmul(fadd(a, b), fadd(c, d)) == fadd(
            fadd(fmul(a, c), fmul(b, d)),
            fadd(fmul(a, d), fmul(b, c)),
        ),
{
    ring_spread(a, b, fadd(c, d));
    ring_spread(c, d, a);
    ring_spread(c, d, b);
    ring_add(fmul(b, c), fmul(b, d));
    ring_swap(fmul(a, c), fmul(a, d), fmul(b, d), fmul(b, c));
}

/// Rotating two pairs by one angle keeps their inner product.
proof fn lemma_turned_dot<T: Float>(x: (T, T), y: (T, T), angle: T)
    requires
        ring::<T>(),
        on_circle(angle),
    ensures
        pair_dot(turned(x.0, x.1, angle), turned(y.0, y.1, angle)) == pair_dot(x, y),
{
    let (c, s) = (fcos(angle), fsin(angle));
    let (xc, xs, zc, zs) = (fmul(x.0, c), fmul(x.1, s), fmul(x.1, c), fmul(x.0, s));
    let (yc, ys, wc, ws) = (fmul(y.0, c), fmul(y.1, s), fmul(y.1, c), fmul(y.0, s));
    let (cc, ss, cs) = (fmul(c, c), fmul(s, s), fmul(c, s));
    let (p, q) = (fmul(x.0, y.0), fmul(x.1, y.1));
    let (u, v) = (fmul(x.0, y.1), fmul(x.1, y.0));
    ring_sub(xc, xs);
    ring_sub(yc, ys);
    // The first products: p cc + q ss - (u + v) cs.
    lemma_foil(xc, fneg(xs), yc, fneg(ys));
    ring_cross(x.0, c, y.0, c);
    ring_neg(xs, fneg(ys));
    ring_neg(xs, ys);
    ring_neg(fmul(xs, ys), xs);
    ring_cross(x.1, s, y.1, s);
    assert(fmul(fneg(xs), fneg(ys)) == fmul(q, ss));
    ring_neg(xc, ys);
    ring_cross(x.0, c, y.1, s);
    ring_neg(xs, yc);
    ring_cross(x.1, s, y.0, c);
    ring_mul(s, c);
    let (ucs, vcs) = (fmul(u, cs), fmul(v, cs));
    let a1 = fadd(fadd(fmul(p, cc), fmul(q, ss)), fadd(fneg(ucs), fneg(vcs)));
    assert(fmul(fsub(xc, xs), fsub(yc, ys)) == a1);
    // The second: p ss + q cc + (u + v) cs.
    lemma_foil(zs, zc, ws, wc);
    ring_cross(x.0, s, y.0, s);
    ring_cross(x.1, c, y.1, c);
    ring_cross(x.0, s, y.1, c);
    ring_cross(x.1, c, y.0, s);
    let a2 = fadd(fadd(fmul(p, ss), fmul(q, cc)), fadd(ucs, vcs));
    assert(fmul(fadd(zs, zc), fadd(ws, wc)) == a2);
    // The mixed terms cancel, and cc + ss is one.
    let (g, h) = (fadd(fmul(p, cc), fmul(q, ss)), fadd(fmul(p, ss), fmul(q, cc)));
    ring_swap(g, fadd(fneg(ucs), fneg(vcs)), h, fadd(ucs, vcs));
    ring_swap(fneg(ucs), fneg(vcs), ucs, vcs);
    ring_zero(ucs);
    ring_zero(vcs);
    ring_zero(crate::float::fzero::<T>());
    ring_zero(fadd(g, h));
    ring_swap(fmul(p, cc), fmul(q, ss), fmul(p, ss), fmul(q, cc));
    ring_spread(cc, ss, p);
    ring_spread(ss, cc, q);
    ring_add(cc, ss);
    ring_product(p, p, p);
    ring_product(q, q, q);
}

/// Rotating by the sum of two angles is rotating by one and then by the other.
proof fn lemma_turned_twice<T: Float>(a: T, b: T, x: T, y: T)
    requires
        ring::<T>(),
        angles_split(x, y),
    ensures
        ({
            let t = turned(a, b, x);
            turned(a, b, fadd(x, y)) == turned(t.0, t.1, y)
        }),
{
    let (cx, sx, cy, sy) = (fcos(x), fsin(x), fcos(y), fsin(y));
    let (cc, ss, sc, cs) = (fmul(cx, cy), fmul(sx, sy), fmul(sx, cy), fmul(cx, sy));
    let (acc, ass, bsc, bcs) = (fmul(a, cc), fmul(a, ss), fmul(b, sc), fmul(b, cs));
    let (asc, acs, bcc, bss) = (fmul(a, sc), fmul(a, cs), fmul(b, cc), fmul(b, ss));
    // The first item, at once: a (cc - ss) - b (sc + cs).
    ring_sub(cc, ss);
    ring_spread(cc, fneg(ss), a);
    ring_neg(a, ss);
    ring_spread(sc, cs, b);
    ring_sub(fmul(a, fsub(cc, ss)), fmul(b, fadd(sc, cs)));
    crate::identities::lemma_neg_sum(bsc, bcs);
    // And in two turns: (a cx - b sx) cy - (a sx + b cx) sy.
    ring_sub(fmul(a, cx), fmul(b, sx));
    ring_spread(fmul(a, cx), fneg(fmul(b, sx)), cy);
    ring_product(a, cx, cy);
    ring_neg(fmul(b, sx), cy);
    ring_product(b, sx, cy);
    ring_spread(fmul(a, sx), fmul(b, cx), sy);
    ring_product(a, sx, sy);
    ring_product(b, cx, sy);
    let t = turned(a, b, x);
    ring_sub(fmul(t.0, cy), fmul(t.1, sy));
    crate::identities::lemma_neg_sum(ass, bcs);
    ring_swap(acc, fneg(ass), fneg(bsc), fneg(bcs));
    assert(turned(a, b, fadd(x, y)).0 == turned(t.0, t.1, y).0);
    // The second item, at once: a (sc + cs) + b (cc - ss).
    ring_spread(sc, cs, a);
    ring_spread(cc, fneg(ss), b);
    ring_neg(b, ss);
    // And in two turns: (a cx - b sx) sy + (a sx + b cx) cy.
    ring_spread(fmul(a, cx), fneg(fmul(b, sx)), sy);
    ring_product(a, cx, sy);
    ring_neg(fmul(b, sx), sy);
    ring_product(b, sx, sy);
    ring_spread(fmul(a, sx), fmul(b, cx), cy);
    ring_product(a, sx, cy);
    ring_product(b, cx, cy);
    ring_add(asc, acs);
    ring_add(bcc, fneg(bss));
    ring_swap(acs, asc, fneg(bss), bcc);
    assert(turned(a, b, fadd(x, y)).1 == turned(t.0, t.1, y).1);
}

/// Scores depend on how far apart two positions are, not on where they lie: moving a query
/// and a key on by the same number of places leaves the inner product of each of their
/// pairs as it is.
pub proof fn law_scores_depend_on_distance<T: Float>(
    x: Seq<T>,
    y: Seq<T>,
    p: usize,
    q: usize,
    by: usize,
    i: int,
)
    requires
        ring::<T>(),
        counts::<T>(),
        x.len() == y.len(),
        x.len() % 2 == 0,
        x.len() <= usize::MAX,
        0 <= 2 * i < x.len(),
        p + by <= usize::MAX,
        q + by <= usize::MAX,
        ({
            let n = x.len() as usize;
            let on = rope_angle::<T>(by, i as usize, n);
            &&& on_circle(on)
            &&& angles_split(rope_angle::<T>(p, i as usize, n), on)
            &&& angles_split(rope_angle::<T>(q, i as usize, n), on)
        }),
    ensures
        pair_dot(
            (rope_row(x, (p + by) as usize)[2 * i], rope_row(x, (p + by) as usize)[2 * i + 1]),
            (rope_row(y, (q + by) as usize)[2 * i], rope_row(y, (q + by) as usize)[2 * i + 1]),
        ) == pair_dot(
            (rope_row(x, p)[2 * i], rope_row(x, p)[2 * i + 1]),
            (rope_row(y, q)[2 * i], rope_row(y, q)[2 * i + 1]),
        ),
{
    let n = x.len() as usize;
    let (e, o) = (2 * i, 2 * i + 1);
    assert(e / 2 == i && o / 2 == i && e % 2 == 0 && o % 2 == 1);
    let k = i as usize;
    law_angles_add_up::<T>(p, by, k, n);
    law_angles_add_up::<T>(q, by, k, n);
    let on = rope_angle::<T>(by, k, n);
    lemma_turned_twice(x[e], x[o], rope_angle::<T>(p, k, n), on);
    lemma_turned_twice(y[e], y[o], rope_angle::<T>(q, k, n), on);
    let tx = turned(x[e], x[o], rope_angle::<T>(p, k, n));
    let ty = turned(y[e], y[o], rope_angle::<T>(q, k, n));
    lemma_turned_dot(tx, ty, on);
}

/// Row `pos` of a turned matrix is the row turned by that position, pair by pair: a pair
/// becomes its two products with the cosine and the sine of the angle, so that one along
/// the first axis turns towards the second.
pub proof fn law_pairs_turn_forward<T: Float>(x: Array<T>, m: usize, d: usize, pos: usize, i: int)
    requires
        grid(x, m, d),
        pos < m,
        d % 2 == 0,
        0 <= i < d / 2,
    ensures
        ({
            let (a, b) = (x.row(pos as nat)[2 * i], x.row(pos as nat)[2 * i + 1]);
            let angle = rope_angle::<T>(pos, i as usize, d);
            let y = rope_of(x).row(pos as nat);
            &&& y[2 * i] == fsub(fmul(a, fcos(angle)), fmul(b, fsin(angle)))
            &&& y[2 * i + 1] == fadd(fmul(a, fsin(angle)), fmul(b, fcos(angle)))
            &&& ring::<T>() && a == fone::<T>() && b == fzero::<T>() ==> y[2 * i] == fcos(angle)
                && y[2 * i + 1] == fsin(angle)
        }),
{
    lemma_rope_row(x, m, d, pos as nat);
    lemma_row(x, m, d, pos as nat);
    let angle = rope_angle::<T>(pos, i as usize, d);
    let (a, b) = (x.row(pos as nat)[2 * i], x.row(pos as nat)[2 * i + 1]);
    assert((2 * i) / 2 == i && (2 * i + 1) / 2 == i);
    if ring::<T>() && a == fone::<T>() && b == fzero::<T>() {
        let (c, s) = (fcos(angle), fsin(angle));
        ring_absorb(s);
        ring_absorb(c);
        ring_mul(a, c);
        ring_mul(a, s);
        ring_product(c, c, c);
        ring_product(s, s, s);
        crate::exact::ring_back(c, s);
        ring_zero(s);
    }
}

} // verus!
