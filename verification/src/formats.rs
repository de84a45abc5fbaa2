//! Where the bytes of checkpoints and tokenisers stand, and how numbers are narrowed and
//! packed.
use crate::bitlinear::{absmean, ternary_of, ternary_weights};
use crate::bpe::saved;
use crate::export::{
    are_trits, chunk_at, config_fits, cuts, decoded, exported, faithful, format_at, header_bytes,
    law_packing_loses_nothing, optim_bytes, packed_of, sign_of, tensor_bytes, trit_value,
    weight_bytes, Format, OptimArrays,
};
use crate::float::{fbits, fcut, fpattern, fsmall, Float};
use crate::model::ModelConfig;
use crate::tensor::{lemma_flat_row, narrowed, widened_bits, Array};
use vstd::bytes::{spec_u16_to_le_bytes, spec_u32_to_le_bytes};
use vstd::prelude::*;

verus! {

/// A number takes four bytes.
proof fn lemma_four(x: u32)
    ensures
        spec_u32_to_le_bytes(x).len() == 4,
{
    crate::codec::lemma_u32_bytes(x);
}

/// A header is the four bytes "BNT5", one byte that counts up the formats from full width
/// over ternary and packed to half width, and the seven sizes, four bytes each, with the
/// least first.
pub proof fn law_header_layout(c: ModelConfig, f: Format)
    requires
        config_fits(c),
    ensures
        ({
            let h = header_bytes(c, f);
            let at = |i: int| h.subrange(5 + 4 * i, 9 + 4 * i);
            &&& h.len() == 33
            &&& h.subrange(0, 4) == spec_u32_to_le_bytes(0x3554_4E42)
            &&& h[4] == match f {
                Format::Float32 => 0u8,
                Format::Ternary => 1,
                Format::TernaryPacked => 2,
                Format::MastersBf16 => 3,
            }
            &&& at(0) == spec_u32_to_le_bytes(c.vocab_size as u32)
            &&& at(1) == spec_u32_to_le_bytes(c.hidden_dim as u32)
            &&& at(2) == spec_u32_to_le_bytes(c.n_heads as u32)
            &&& at(3) == spec_u32_to_le_bytes(c.head_dim as u32)
            &&& at(4) == spec_u32_to_le_bytes(c.ffn_dim as u32)
            &&& at(5) == spec_u32_to_le_bytes(c.max_seq_len as u32)
            &&& at(6) == spec_u32_to_le_bytes(c.n_blocks as u32)
        }),
{
    let h = header_bytes(c, f);
    lemma_four(0x3554_4E42);
    lemma_four(c.vocab_size as u32);
    lemma_four(c.hidden_dim as u32);
    lemma_four(c.n_heads as u32);
    lemma_four(c.head_dim as u32);
    lemma_four(c.ffn_dim as u32);
    lemma_four(c.max_seq_len as u32);
    lemma_four(c.n_blocks as u32);
    assert(h.subrange(0, 4) =~= spec_u32_to_le_bytes(0x3554_4E42));
    assert(h.subrange(5, 9) =~= spec_u32_to_le_bytes(c.vocab_size as u32));
    assert(h.subrange(9, 13) =~= spec_u32_to_le_bytes(c.hidden_dim as u32));
    assert(h.subrange(13, 17) =~= spec_u32_to_le_bytes(c.n_heads as u32));
    assert(h.subrange(17, 21) =~= spec_u32_to_le_bytes(c.head_dim as u32));
    assert(h.subrange(21, 25) =~= spec_u32_to_le_bytes(c.ffn_dim as u32));
    assert(h.subrange(25, 29) =~= spec_u32_to_le_bytes(c.max_seq_len as u32));
    assert(h.subrange(29, 33) =~= spec_u32_to_le_bytes(c.n_blocks as u32));
}

/// The items of a tensor stand in order: at full width each as the four bytes of its
/// pattern, at half width as the two of its narrowed pattern.
pub proof fn law_items_are_written_in_order<T: Float>(a: Array<T>, k: nat)
    requires
        k < a.data.len(),
    ensures
        tensor_bytes(Format::Float32, a).len() == a.data.len() * 4,
        tensor_bytes(Format::Float32, a).subrange((k * 4) as int, (k * 4 + 4) as int)
            == spec_u32_to_le_bytes(fpattern(a.data[k as int])),
        tensor_bytes(Format::MastersBf16, a).len() == a.data.len() * 2,
        tensor_bytes(Format::MastersBf16, a).subrange((k * 2) as int, (k * 2 + 2) as int)
            == spec_u16_to_le_bytes(narrowed(fpattern(a.data[k as int]))),
{
    let (f, g) = (crate::export::f32_rows(a.data), crate::export::bf16_rows(a.data));
    assert forall|i: nat| i < a.data.len() implies (#[trigger] f(i)).len() == 4 by {
        crate::codec::lemma_u32_bytes(fpattern(a.data[i as int]));
    }
    assert forall|i: nat| i < a.data.len() implies (#[trigger] g(i)).len() == 2 by {
        crate::codec::lemma_u16_bytes(narrowed(fpattern(a.data[i as int])));
    }
    lemma_flat_row(a.data.len(), 4, f, k);
    lemma_flat_row(a.data.len(), 2, g, k);
}

/// The embedding, the first weight, is written at full or half width; every other weight in
/// the format of the checkpoint.
pub proof fn law_embedding_is_never_ternary(f: Format, k: nat)
    ensures
        format_at(f, 0) != Format::Ternary,
        format_at(f, 0) != Format::TernaryPacked,
        format_at(f, 0) == Format::MastersBf16 <==> f == Format::MastersBf16,
        k > 0 ==> format_at(f, k) == f,
{
}

/// Narrowing goes to the nearest pattern on the half-width grid: it is off by no more than
/// half a step, and by just that only towards an even one. What is not a number stays so and
/// is made quiet.
pub proof fn law_narrowing_is_nearest(bits: u32)
    ensures
        bits % 0x8000_0000 <= 0x7F80_0000 ==> {
            let d = widened_bits(narrowed(bits)) - bits;
            &&& -0x8000 <= d <= 0x8000
            &&& d == 0x8000 || d == -0x8000 ==> narrowed(bits) % 2 == 0
        },
        bits % 0x8000_0000 > 0x7F80_0000 ==> {
            &&& widened_bits(narrowed(bits)) % 0x8000_0000 >= 0x7FC0_0000
            &&& narrowed(bits) / 0x8000 == bits / 0x8000_0000
        },
{
    let high = (bits / 0x1_0000) as u16;
    if bits % 0x8000_0000 > 0x7F80_0000 {
        assert(high % 0x8000 >= 0x7F80);
        assert((high | 0x40) % 0x8000 >= 0x7FC0 && (high | 0x40) / 0x8000 == high / 0x8000)
            by (bit_vector)
            requires
                high % 0x8000 >= 0x7F80,
        ;
    }
}

/// Five ternary digits make a byte: each stands for one less than its base-3 digit, the first
/// for the lowest.
pub proof fn law_five_digits_make_a_byte(ds: Seq<i8>, c: int)
    requires
        are_trits(ds),
        0 <= c,
        5 * c + 5 <= ds.len(),
    ensures
        packed_of(ds).len() == (ds.len() + 4) / 5,
        packed_of(ds)[c] == (ds[5 * c] + 1) + 3 * (ds[5 * c + 1] + 1) + 9 * (ds[5 * c + 2] + 1)
            + 27 * (ds[5 * c + 3] + 1) + 81 * (ds[5 * c + 4] + 1),
{
    let s = chunk_at(ds, 5 * c);
    reveal_with_fuel(trit_value, 6);
    assert(-1 <= ds[5 * c] <= 1 && -1 <= ds[5 * c + 1] <= 1 && -1 <= ds[5 * c + 2] <= 1);
    assert(-1 <= ds[5 * c + 3] <= 1 && -1 <= ds[5 * c + 4] <= 1);
    assert(s.skip(1).skip(1).skip(1).skip(1).skip(1).len() == 0);
}

/// The sign of an integer is on its side of zero, and is no more than one.
pub proof fn law_sign_is_on_its_side(x: i8)
    ensures
        x > 0 ==> sign_of(x) == 1,
        x < 0 ==> sign_of(x) == -1,
        x == 0 ==> sign_of(x) == 0,
{
}

/// A saved tokeniser is the four bytes "BPE1", the number of its merges, and the merges in
/// order, two numbers each.
pub proof fn law_saved_layout(m: Seq<(u32, u32)>, k: int)
    requires
        m.len() <= u32::MAX,
        0 <= k < m.len(),
    ensures
        saved(m).len() == 8 + 8 * m.len(),
        saved(m).subrange(0, 4) == spec_u32_to_le_bytes(0x3145_5042),
        saved(m).subrange(4, 8) == spec_u32_to_le_bytes(m.len() as u32),
        saved(m).subrange(8 + 8 * k, 12 + 8 * k) == spec_u32_to_le_bytes(m[k].0),
        saved(m).subrange(12 + 8 * k, 16 + 8 * k) == spec_u32_to_le_bytes(m[k].1),
{
    lemma_four(0x3145_5042);
    lemma_four(m.len() as u32);
    lemma_merge_layout(m, k);
    let s = saved(m);
    let t = crate::bpe::merge_bytes(m);
    assert(s.subrange(0, 4) =~= spec_u32_to_le_bytes(0x3145_5042));
    assert(s.subrange(4, 8) =~= spec_u32_to_le_bytes(m.len() as u32));
    assert(s.subrange(8 + 8 * k, 12 + 8 * k) =~= t.subrange(8 * k, 8 * k + 4));
    assert(s.subrange(12 + 8 * k, 16 + 8 * k) =~= t.subrange(8 * k + 4, 8 * k + 8));
}

/// Where the merges of a list stand.
proof fn lemma_merge_layout(m: Seq<(u32, u32)>, k: int)
    requires
        0 <= k < m.len(),
    ensures
        crate::bpe::merge_bytes(m).len() == 8 * m.len(),
        crate::bpe::merge_bytes(m).subrange(8 * k, 8 * k + 4) == spec_u32_to_le_bytes(m[k].0),
        crate::bpe::merge_bytes(m).subrange(8 * k + 4, 8 * k + 8) == spec_u32_to_le_bytes(m[k].1),
    decreases m.len(),
{
    let t = crate::bpe::merge_bytes(m);
    let p = m.drop_last();
    lemma_four(m.last().0);
    lemma_four(m.last().1);
    if p.len() > 0 {
        let j = if k < p.len() {
            k
        } else {
            0
        };
        lemma_merge_layout(p, j);
    }
    let u = crate::bpe::merge_bytes(p);
    assert(u.len() == 8 * p.len());
    if k < p.len() {
        assert(t.subrange(8 * k, 8 * k + 4) =~= u.subrange(8 * k, 8 * k + 4));
        assert(t.subrange(8 * k + 4, 8 * k + 8) =~= u.subrange(8 * k + 4, 8 * k + 8));
    } else {
        assert(t.subrange(8 * k, 8 * k + 4) =~= spec_u32_to_le_bytes(m[k].0));
        assert(t.subrange(8 * k + 4, 8 * k + 8) =~= spec_u32_to_le_bytes(m[k].1));
    }
}

/// A ternary checkpoint gives back the weights that the model computes with: those that the
/// quantiser restores, where its integers survive as bytes.
pub proof fn law_ternary_checkpoint_restores_weights<T: Float>(a: Array<T>)
    requires
        faithful::<T>(),
        forall|k: int|
            0 <= k < a.data.len() ==> fsmall::<T>(fcut(#[trigger] ternary_of(a).data[k]))
                == ternary_of(a).data[k],
        forall|k: int| 0 <= k < a.data.len() ==> -1 <= fcut(#[trigger] ternary_of(a).data[k]) <= 1,
    ensures
        decoded(Format::Ternary, a) == ternary_weights(a),
        decoded(Format::TernaryPacked, a) == ternary_weights(a),
{
    assert forall|k: int| 0 <= k < a.data.len() implies {
        &&& #[trigger] decoded(Format::Ternary, a).data[k] == ternary_weights(a).data[k]
        &&& -1 <= cuts(a)[k] <= 1
    } by {
        let q = ternary_of(a).data[k];
        assert(fsmall::<T>(fcut(q)) == q);
        assert(-1 <= fcut(q) <= 1);
        assert(cuts(a)[k] == fcut(q));
        assert(fbits::<T>(fpattern(absmean(a.data))) == absmean(a.data));
    }
    assert(decoded(Format::Ternary, a) =~= ternary_weights(a));
    assert(are_trits(cuts(a))) by {
        assert forall|k: int| 0 <= k < cuts(a).len() implies -1 <= #[trigger] cuts(a)[k] <= 1 by {
            assert(decoded(Format::Ternary, a).data[k] == ternary_weights(a).data[k]);
        }
    }
    law_packing_loses_nothing(a);
}

/// A checkpoint is its header, its weights in order, and, where it has one, the optimiser:
/// the four bytes "OPTM", the steps made, and at full width all the means and then all the
/// mean squares.
pub proof fn law_checkpoint_layout<T: Float>(
    f: Format,
    c: ModelConfig,
    s: Seq<Array<T>>,
    o: OptimArrays<T>,
)
    ensures
        exported(f, c, s, None) == header_bytes(c, f) + weight_bytes(f, s, s.len()),
        exported(f, c, s, Some(o)) == exported(f, c, s, None) + spec_u32_to_le_bytes(0x4D54_504F)
            + spec_u32_to_le_bytes(o.step_count) + weight_bytes(Format::Float32, o.m, o.m.len())
            + weight_bytes(Format::Float32, o.v, o.v.len()),
{
    assert(exported(f, c, s, None) =~= header_bytes(c, f) + weight_bytes(f, s, s.len()));
    lemma_weights_joined(o.m, o.v, o.v.len());
    let w = spec_u32_to_le_bytes(0x4D54_504F) + spec_u32_to_le_bytes(o.step_count);
    assert(optim_bytes(o) == w + weight_bytes(Format::Float32, o.m + o.v, (o.m + o.v).len()));
    assert(exported(f, c, s, Some(o)) =~= exported(f, c, s, None) + optim_bytes(o));
    assert(exported(f, c, s, Some(o)) =~= exported(f, c, s, None) + spec_u32_to_le_bytes(0x4D54_504F)
        + spec_u32_to_le_bytes(o.step_count) + weight_bytes(Format::Float32, o.m, o.m.len())
        + weight_bytes(Format::Float32, o.v, o.v.len()));
}

/// Weights written at full width one list after the other.
proof fn lemma_weights_joined<T: Float>(a: Seq<Array<T>>, b: Seq<Array<T>>, n: nat)
    requires
        n <= b.len(),
    ensures
        weight_bytes(Format::Float32, a + b, a.len() + n) == weight_bytes(
            Format::Float32,
            a,
            a.len(),
        ) + weight_bytes(Format::Float32, b, n),
    decreases n,
{
    let f = Format::Float32;
    if n == 0 {
        lemma_weights_alone(a, a + b, a.len());
        assert(weight_bytes(f, a, a.len()) + weight_bytes(f, b, 0) =~= weight_bytes(f, a, a.len()));
    } else {
        let p = (n - 1) as nat;
        lemma_weights_joined(a, b, p);
        assert((a + b)[a.len() + n - 1] == b[n - 1]);
        let last = tensor_bytes(f, b[n - 1]);
        assert(weight_bytes(f, a + b, a.len() + n) == weight_bytes(f, a + b, (a.len() + p) as nat)
            + last);
        assert(weight_bytes(f, a, a.len()) + weight_bytes(f, b, p) + last =~= weight_bytes(
            f,
            a,
            a.len(),
        ) + (weight_bytes(f, b, p) + last));
    }
}

/// The bytes of the first weights do not depend on the others.
proof fn lemma_weights_alone<T: Float>(a: Seq<Array<T>>, b: Seq<Array<T>>, n: nat)
    requires
        n <= a.len(),
        n <= b.len(),
        forall|k: int| 0 <= k < n ==> #[trigger] a[k] == b[k],
    ensures
        weight_bytes(Format::Float32, a, n) == weight_bytes(Format::Float32, b, n),
    decreases n,
{
    if n > 0 {
        lemma_weights_alone(a, b, (n - 1) as nat);
        assert(a[n - 1] == b[n - 1]);
    }
}

} // verus!
