//! What the two quantisers do: ternary weights under their mean size, and eight-bit rows
//! under their largest.
use crate::agreement::{grid, lemma_restored_row, lemma_row};
use crate::bitlinear::{
    absmax, absmean, int8_of, int8_row, int8_rows, restored_acts, restored_row, row_scales,
    ternary_of, ternary_weights,
};
use crate::exact::{divisor, exact_div, exact_order, exact_share, shares_out, strict};
use crate::float::{
    fabs, fadd, fbits, fcount, fdiv, feq, flt, fmul, fone, fround, fsum, fzero, Float,
};
use crate::identities::{ring, ring_absorb, ring_mul, ring_product};
use crate::tensor::Array;
use vstd::prelude::*;

verus! {

/// The scale of the weights times their number is the sum of their sizes.
pub proof fn law_weight_scale_is_mean_size<T: Float>(s: Seq<T>)
    requires
        shares_out::<T>(),
        0 < s.len() <= usize::MAX,
    ensures
        fmul(fcount::<T>(s.len() as usize), absmean(s)) == fsum(
            Seq::new(s.len(), |k: int| fabs(s[k])),
        ),
{
    exact_share(fsum(Seq::new(s.len(), |k: int| fabs(s[k]))), s.len() as usize);
}

/// A ternary weight is the weight over the scale, which a small guard was added to, rounded
/// and held between minus one and one; and the restored weight is it times the scale.
pub proof fn law_weight_is_rounded_quotient<T: Float>(w: Array<T>, k: int, q: T)
    requires
        0 <= k < w.data.len(),
        divisor(fadd(absmean(w.data), fbits::<T>(0x3727_C5AC))),
        fmul(fadd(absmean(w.data), fbits::<T>(0x3727_C5AC)), q) == w.data[k],
    ensures
        ({
            let t = ternary_of(w).data[k];
            let (low, high) = (fbits::<T>(0xBF80_0000), fbits::<T>(0x3F80_0000));
            &&& flt(fround(q), low) ==> t == low
            &&& !flt(fround(q), low) && flt(high, fround(q)) ==> t == high
            &&& !flt(fround(q), low) && !flt(high, fround(q)) ==> t == fround(q)
            &&& ternary_weights(w).data[k] == fmul(t, absmean(w.data))
        }),
        ternary_of(w).dims == w.dims,
        ternary_weights(w).dims == w.dims,
{
    exact_div(q, fadd(absmean(w.data), fbits::<T>(0x3727_C5AC)));
}

/// Where rounding gives whole numbers, a ternary weight is minus one, zero or one.
pub proof fn law_weights_are_ternary<T: Float>(w: Array<T>, k: int)
    requires
        0 <= k < w.data.len(),
        forall|x: T|
            !flt(#[trigger] fround(x), fbits::<T>(0xBF80_0000)) && !flt(
                fbits::<T>(0x3F80_0000),
                fround(x),
            ) ==> fround(x) == fbits::<T>(0xBF80_0000) || fround(x) == fzero::<T>() || fround(x)
                == fbits::<T>(0x3F80_0000),
    ensures
        ternary_of(w).data[k] == fbits::<T>(0xBF80_0000) || ternary_of(w).data[k] == fzero::<T>()
            || ternary_of(w).data[k] == fbits::<T>(0x3F80_0000),
{
}

/// The scale of a row is the size of one of its items, and no item is larger; it is zero
/// for a row without items.
pub proof fn law_row_scale_is_largest_size<T: Float>(s: Seq<T>, k: int)
    requires
        strict::<T>(),
        0 <= k < s.len(),
    ensures
        !flt(absmax(s), fabs(s[k])),
        absmax(s) == fzero::<T>() || exists|j: int| 0 <= j < s.len() && absmax(s) == fabs(s[j]),
        absmax(Seq::<T>::empty()) == fzero::<T>(),
    decreases s.len(),
{
    let p = s.drop_last();
    let n = s.len() - 1;
    let (a, b) = (absmax(p), fabs(s.last()));
    exact_order(b, b, b);
    if n > 0 {
        let i = if k < n { k } else { 0 };
        law_row_scale_is_largest_size(p, i);
        exact_order(a, b, fabs(s[i]));
        if absmax(p) != fzero::<T>() {
            let j = choose|j: int| 0 <= j < p.len() && absmax(p) == fabs(p[j]);
            assert(p[j] == s[j]);
        }
    }
    assert(fabs(s[n]) == b);
}

/// An item of an eight-bit row is the item times 127 over the scale of the row, rounded and
/// held between -128 and 127; and the restored item times 127 is it times the scale.
pub proof fn law_activation_is_rounded_share<T: Float>(s: Seq<T>, k: int, q: T)
    requires
        ring::<T>(),
        0 <= k < s.len(),
        !feq(absmax(s), fzero::<T>()),
        divisor(absmax(s)),
        divisor(fbits::<T>(0x42FE_0000)),
        fmul(absmax(s), q) == fmul(s[k], fbits::<T>(0x42FE_0000)),
    ensures
        ({
            let t = int8_row(s)[k];
            let (low, high) = (fbits::<T>(0xC300_0000), fbits::<T>(0x42FE_0000));
            &&& flt(fround(q), low) ==> t == low
            &&& !flt(fround(q), low) && flt(high, fround(q)) ==> t == high
            &&& !flt(fround(q), low) && !flt(high, fround(q)) ==> t == fround(q)
            &&& fmul(high, restored_row(s)[k]) == fmul(t, absmax(s))
        }),
        int8_row(s).len() == s.len(),
        restored_row(s).len() == s.len(),
{
    let a = absmax(s);
    let m = fbits::<T>(0x42FE_0000);
    let r = fdiv(m, a);
    exact_div(m, a);
    exact_div(q, a);
    exact_div(fmul(s[k], r), a);
    ring_product(a, s[k], r);
    ring_mul(a, s[k]);
    ring_product(s[k], a, r);
    assert(fmul(a, fmul(s[k], r)) == fmul(s[k], m));
    assert(fmul(s[k], r) == q);
    let t = int8_row(s)[k];
    let v = fdiv(fone::<T>(), m);
    exact_div(fone::<T>(), m);
    ring_product(t, a, v);
    ring_mul(m, fmul(fmul(t, a), v));
    ring_product(fmul(t, a), v, m);
    ring_mul(v, m);
    ring_product(fmul(t, a), m, m);
}

/// The largest item of a row becomes 127, and is restored as it was.
pub proof fn law_largest_activation_is_kept<T: Float>(s: Seq<T>, k: int)
    requires
        ring::<T>(),
        strict::<T>(),
        0 <= k < s.len(),
        s[k] == absmax(s),
        !feq(absmax(s), fzero::<T>()),
        divisor(absmax(s)),
        divisor(fbits::<T>(0x42FE_0000)),
        fround(fbits::<T>(0x42FE_0000)) == fbits::<T>(0x42FE_0000),
        !flt(fbits::<T>(0x42FE_0000), fbits::<T>(0xC300_0000)),
    ensures
        int8_row(s)[k] == fbits::<T>(0x42FE_0000),
        restored_row(s)[k] == s[k],
{
    let m = fbits::<T>(0x42FE_0000);
    exact_order(m, m, m);
    law_activation_is_rounded_share(s, k, m);
    exact_div(restored_row(s)[k], m);
    exact_div(s[k], m);
}

/// A row whose scale is zero becomes zeros, and is restored as zeros.
pub proof fn law_empty_activations_stay_empty<T: Float>(s: Seq<T>, k: int)
    requires
        ring::<T>(),
        0 <= k < s.len(),
        feq(absmax(s), fzero::<T>()),
    ensures
        int8_row(s)[k] == fzero::<T>(),
        restored_row(s)[k] == fzero::<T>(),
{
    ring_absorb(fmul(absmax(s), fdiv(fone::<T>(), fbits::<T>(0x42FE_0000))));
}

/// Every row is quantised by itself: what becomes of it depends on no other row.
pub proof fn law_rows_are_quantised_alone<T: Float>(
    x: Array<T>,
    y: Array<T>,
    m: usize,
    n: usize,
    w: usize,
    i: nat,
    j: nat,
)
    requires
        grid(x, m, w),
        grid(y, n, w),
        i < m,
        j < n,
        x.row(i) == y.row(j),
    ensures
        int8_of(x).row(i) == int8_of(y).row(j),
        restored_acts(x).row(i) == restored_acts(y).row(j),
        row_scales(x).data[i as int] == row_scales(y).data[j as int],
        restored_acts(x).row(i) == restored_row(x.row(i)),
        row_scales(x).data.len() == m,
{
    lemma_restored_row(x, m, w, i);
    lemma_restored_row(y, n, w, j);
    lemma_int8_row(x, m, w, i);
    lemma_int8_row(y, n, w, j);
}

/// A row of the eight-bit matrix.
proof fn lemma_int8_row<T: Float>(x: Array<T>, m: usize, w: usize, i: nat)
    requires
        grid(x, m, w),
        i < m,
    ensures
        int8_of(x).row(i) == int8_row(x.row(i)),
{
    assert forall|k: nat| k < m implies (#[trigger] int8_rows(x)(k)).len() == w by {
        lemma_row(x, m, w, k);
    }
    crate::agreement::lemma_matrix_row(m, w, int8_rows(x), i);
}

} // verus!
