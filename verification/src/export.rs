//! The checkpoint format.
//!
//! A checkpoint is a header, the weights in their one order in one of four
//! encodings, and any number of trailing sections: the optimiser's state and
//! the tokeniser.
use crate::autograd::arrays;
use crate::bitlinear::{absmean, absmean_ternary, ternary, ternary_of};
use crate::bpe::{loaded, saved, Bpe};
use crate::codec::{
    get_u16, get_u32, lemma_u16_bytes, lemma_u32_at, lemma_u32_bytes, put_u16, put_u32, u16_at,
    u16_bytes, u32_at, u32_bytes, ReadError,
};
use crate::float::{deterministic, fbits, fcut, fmul, fpattern, fsmall, Float};
use crate::layout::{
    block_items, blocks_items, ffn_place, head_items, head_place, heads_items, items,
    lemma_blocks_same, lemma_ffn_place, lemma_head_place, lemma_heads_len, lemma_heads_same,
    lemma_items_decide, lemma_items_map, same_block,
};
use crate::model::{
    block_dims, block_shaped, blocks_parts, config_dims, head_dims, head_shaped, heads_parts,
    lemma_shaped_items, lemma_shaped_wf, shapes_of, view_of, AttentionHead, BlockMasters, Model, ModelConfig,
};
use crate::optim::OptimState;
use crate::tensor::{
    bf16_bits_to_f32, copy_slice, f32_to_bf16_bits, flat, lemma_flat_len, lemma_flat_row,
    lemma_volume2, narrowed, volume, widened_bits, Array, Tensor,
};
use vstd::prelude::*;

verus! {

/// The leading bytes of a checkpoint, "BNT5", as a little-endian number.
pub const MAGIC: u32 = 0x3554_4E42;

/// The marker of the optimiser section, "OPTM", as a little-endian number.
pub const OPTM_MARKER: u32 = 0x4D54_504F;

/// The marker of the tokeniser section, "BPEM", as a little-endian number.
pub const BPE_MARKER: u32 = 0x4D45_5042;

/// The number of bytes of the header.
pub const HEADER_SIZE: usize = 33;

/// How the weights are encoded.
#[derive(Debug, Clone, Copy, PartialEq, Eq, Structural)]
pub enum Format {
    /// Every weight at full width.
    Float32,
    /// The embedding at full width, every other tensor as a scale and one byte
    /// per ternary weight.
    Ternary,
    /// As `Ternary`, with five ternary weights in one byte.
    TernaryPacked,
    /// Every weight at half width.
    MastersBf16,
}

/// The byte of a format.
pub open spec fn format_byte(f: Format) -> u8 {
    match f {
        Format::Float32 => 0,
        Format::Ternary => 1,
        Format::TernaryPacked => 2,
        Format::MastersBf16 => 3,
    }
}

/// The format of a byte.
pub open spec fn format_of(b: u8) -> Result<Format, ReadError> {
    if b == 0 {
        Ok(Format::Float32)
    } else if b == 1 {
        Ok(Format::Ternary)
    } else if b == 2 {
        Ok(Format::TernaryPacked)
    } else if b == 3 {
        Ok(Format::MastersBf16)
    } else {
        Err(ReadError::UnknownFormat(b))
    }
}

impl Format {
    /// The byte of the format.
    pub fn byte(self) -> (r: u8)
        ensures
            r == format_byte(self),
    {
        match self {
            Format::Float32 => 0,
            Format::Ternary => 1,
            Format::TernaryPacked => 2,
            Format::MastersBf16 => 3,
        }
    }

    /// The format of a byte.
    pub fn from_byte(b: u8) -> (r: Result<Format, ReadError>)
        ensures
            r == format_of(b),
    {
        if b == 0 {
            Ok(Format::Float32)
        } else if b == 1 {
            Ok(Format::Ternary)
        } else if b == 2 {
            Ok(Format::TernaryPacked)
        } else if b == 3 {
            Ok(Format::MastersBf16)
        } else {
            Err(ReadError::UnknownFormat(b))
        }
    }
}

/// The bytes of a size, of which the lower 32 bits are kept.
pub open spec fn size_bytes(n: usize) -> Seq<u8> {
    u32_bytes(#[verifier::truncate] (n as u32))
}

/// The bytes of a header.
pub open spec fn header_bytes(c: ModelConfig, f: Format) -> Seq<u8> {
    u32_bytes(MAGIC) + seq![format_byte(f)] + size_bytes(c.vocab_size) + size_bytes(c.hidden_dim)
        + size_bytes(c.n_heads) + size_bytes(c.head_dim) + size_bytes(c.ffn_dim) + size_bytes(
        c.max_seq_len,
    ) + size_bytes(c.n_blocks)
}

/// The configuration that seven numbers from `pos` on stand for.
pub open spec fn config_at(buf: Seq<u8>, pos: int) -> ModelConfig {
    ModelConfig {
        vocab_size: u32_at(buf, pos) as usize,
        hidden_dim: u32_at(buf, pos + 4) as usize,
        n_heads: u32_at(buf, pos + 8) as usize,
        head_dim: u32_at(buf, pos + 12) as usize,
        ffn_dim: u32_at(buf, pos + 16) as usize,
        max_seq_len: u32_at(buf, pos + 20) as usize,
        n_blocks: u32_at(buf, pos + 24) as usize,
    }
}

/// What reading a header gives.
pub open spec fn header_of(buf: Seq<u8>) -> Result<(Format, ModelConfig), ReadError> {
    if buf.len() < 4 {
        Err(ReadError::UnexpectedEof)
    } else if u32_at(buf, 0) != MAGIC {
        Err(ReadError::BadMagic)
    } else if buf.len() < 5 {
        Err(ReadError::UnexpectedEof)
    } else {
        match format_of(buf[4]) {
            Err(e) => Err(e),
            Ok(f) => if buf.len() < HEADER_SIZE {
                Err(ReadError::UnexpectedEof)
            } else {
                Ok((f, config_at(buf, 5)))
            },
        }
    }
}

/// The bytes of the patterns of some numbers.
pub open spec fn f32_rows<T: Float>(s: Seq<T>) -> spec_fn(nat) -> Seq<u8> {
    |k: nat| u32_bytes(fpattern(s[k as int]))
}

/// The bytes of the narrowed patterns of some numbers.
pub open spec fn bf16_rows<T: Float>(s: Seq<T>) -> spec_fn(nat) -> Seq<u8> {
    |k: nat| u16_bytes(narrowed(fpattern(s[k as int])))
}

/// The 8-bit integer of each ternary weight.
pub open spec fn cuts<T: Float>(a: Array<T>) -> Seq<i8> {
    Seq::new(a.data.len(), |k: int| fcut(ternary(a.data[k], absmean(a.data))))
}

/// The sign of an 8-bit integer.
pub open spec fn sign_of(x: i8) -> i8 {
    if x < 0 {
        -1i8
    } else if x > 0 {
        1i8
    } else {
        0i8
    }
}

/// The sign of each ternary weight.
pub open spec fn trits<T: Float>(a: Array<T>) -> Seq<i8> {
    Seq::new(a.data.len(), |k: int| sign_of(cuts(a)[k]))
}

/// Base-3 digits, the least first, as a number; -1, 0 and 1 are the digits 0, 1 and 2.
pub open spec fn trit_value(ds: Seq<i8>) -> int
    decreases ds.len(),
{
    if ds.len() == 0 {
        0
    } else {
        ds[0] + 1 + 3 * trit_value(ds.skip(1))
    }
}

/// Digit `i` of a number in base 3, as -1, 0 or 1.
pub open spec fn trit_digit(b: int, i: nat) -> int
    decreases i,
{
    if i == 0 {
        b % 3 - 1
    } else {
        trit_digit(b / 3, (i - 1) as nat)
    }
}

/// Every digit is -1, 0 or 1.
pub open spec fn are_trits(ds: Seq<i8>) -> bool {
    forall|i: int| 0 <= i < ds.len() ==> -1 <= #[trigger] ds[i] <= 1
}

/// The digits from `at` on, at most five.
pub open spec fn chunk_at(ds: Seq<i8>, at: int) -> Seq<i8> {
    ds.subrange(
        at,
        if at + 5 <= ds.len() {
            at + 5
        } else {
            ds.len() as int
        },
    )
}

/// The number of bytes that `n` packed weights take.
pub open spec fn packed_len(n: nat) -> nat {
    ((n + 4) / 5) as nat
}

/// The packed bytes of ternary weights, five in one.
pub open spec fn packed_of(ds: Seq<i8>) -> Seq<u8> {
    Seq::new(packed_len(ds.len()), |c: int| trit_value(chunk_at(ds, 5 * c)) as u8)
}

/// The bytes of a tensor.
pub open spec fn tensor_bytes<T: Float>(f: Format, a: Array<T>) -> Seq<u8> {
    match f {
        Format::Float32 => flat(a.data.len(), f32_rows(a.data)),
        Format::MastersBf16 => flat(a.data.len(), bf16_rows(a.data)),
        Format::Ternary => u32_bytes(fpattern(absmean(a.data))) + Seq::new(
            a.data.len(),
            |k: int| #[verifier::truncate] (cuts(a)[k] as u8),
        ),
        Format::TernaryPacked => u32_bytes(fpattern(absmean(a.data))) + packed_of(trits(a)),
    }
}

/// The number of bytes of a tensor of `n` items.
pub open spec fn tensor_size(f: Format, n: nat) -> nat {
    match f {
        Format::Float32 => 4 * n,
        Format::MastersBf16 => 2 * n,
        Format::Ternary => 4 + n,
        Format::TernaryPacked => 4 + packed_len(n),
    }
}

/// The encoding of weight `k`: the embedding, the first, is never ternary.
pub open spec fn format_at(f: Format, k: nat) -> Format {
    if k == 0 && f != Format::MastersBf16 {
        Format::Float32
    } else {
        f
    }
}

/// The bytes of the first `k` weights.
pub open spec fn weight_bytes<T: Float>(f: Format, s: Seq<Array<T>>, k: nat) -> Seq<u8>
    decreases k,
{
    if k == 0 {
        seq![]
    } else {
        weight_bytes(f, s, (k - 1) as nat) + tensor_bytes(format_at(f, (k - 1) as nat), s[k - 1])
    }
}

/// The optimiser's state as mathematics sees it.
pub struct OptimArrays<T> {
    pub step_count: u32,
    pub m: Seq<Array<T>>,
    pub v: Seq<Array<T>>,
}

impl<T> View for OptimState<T> {
    type V = OptimArrays<T>;

    open spec fn view(&self) -> OptimArrays<T> {
        OptimArrays { step_count: self.step_count, m: arrays(self.m@), v: arrays(self.v@) }
    }
}

/// The bytes of the optimiser section.
pub open spec fn optim_bytes<T: Float>(o: OptimArrays<T>) -> Seq<u8> {
    u32_bytes(OPTM_MARKER) + u32_bytes(o.step_count) + weight_bytes(
        Format::Float32,
        o.m + o.v,
        (o.m + o.v).len(),
    )
}

/// The bytes of a checkpoint without a tokeniser.
pub open spec fn exported<T: Float>(
    f: Format,
    c: ModelConfig,
    s: Seq<Array<T>>,
    o: Option<OptimArrays<T>>,
) -> Seq<u8> {
    header_bytes(c, f) + weight_bytes(f, s, s.len()) + match o {
        Some(o) => optim_bytes(o),
        None => seq![],
    }
}

/// The bytes of the tokeniser section.
pub open spec fn bpe_bytes(m: Seq<(u32, u32)>) -> Seq<u8> {
    u32_bytes(BPE_MARKER) + saved(m)
}

/// Appends a header.
fn write_header(w: &mut Vec<u8>, c: &ModelConfig, f: Format)
    ensures
        final(w)@ == old(w)@ + header_bytes(*c, f),
{
    let ghost start = w@;
    put_u32(w, MAGIC);
    w.push(f.byte());
    put_u32(w, #[verifier::truncate] (c.vocab_size as u32));
    put_u32(w, #[verifier::truncate] (c.hidden_dim as u32));
    put_u32(w, #[verifier::truncate] (c.n_heads as u32));
    put_u32(w, #[verifier::truncate] (c.head_dim as u32));
    put_u32(w, #[verifier::truncate] (c.ffn_dim as u32));
    put_u32(w, #[verifier::truncate] (c.max_seq_len as u32));
    put_u32(w, #[verifier::truncate] (c.n_blocks as u32));
    proof {
        assert(w@ =~= start + header_bytes(*c, f));
    }
}

/// Appends the patterns of a tensor's items.
fn write_f32_tensor<T: Float>(w: &mut Vec<u8>, t: &Tensor<T>)
    ensures
        old(w)@.is_prefix_of(final(w)@),
        final(w)@.len() == old(w)@.len() + 4 * t.data@.len(),
        deterministic::<T>() ==> final(w)@ == old(w)@ + tensor_bytes(Format::Float32, t@),
{
    let ghost start = w@;
    let ghost rows = f32_rows(t.data@);
    let mut i: usize = 0;
    proof {
        assert(w@ =~= start + flat(0, rows));
    }
    while i < t.data.len()
        invariant
            i <= t.data@.len(),
            rows == f32_rows(t.data@),
            start.is_prefix_of(w@),
            w@.len() == start.len() + 4 * i,
            deterministic::<T>() ==> w@ == start + flat(i as nat, rows),
        decreases t.data@.len() - i,
    {
        let bits: u32 = t.data[i].to_bits();
        proof {
            lemma_u32_bytes(bits);
        }
        put_u32(w, bits);
        proof {
            if deterministic::<T>() {
                assert(u32_bytes(bits) == rows(i as nat));
                assert(w@ =~= start + flat((i + 1) as nat, rows));
            }
        }
        i += 1;
    }
}

/// Appends the narrowed patterns of a tensor's items.
fn write_bf16_tensor<T: Float>(w: &mut Vec<u8>, t: &Tensor<T>)
    ensures
        old(w)@.is_prefix_of(final(w)@),
        final(w)@.len() == old(w)@.len() + 2 * t.data@.len(),
        deterministic::<T>() ==> final(w)@ == old(w)@ + tensor_bytes(Format::MastersBf16, t@),
{
    let ghost start = w@;
    let ghost rows = bf16_rows(t.data@);
    let mut i: usize = 0;
    proof {
        assert(w@ =~= start + flat(0, rows));
    }
    while i < t.data.len()
        invariant
            i <= t.data@.len(),
            rows == bf16_rows(t.data@),
            start.is_prefix_of(w@),
            w@.len() == start.len() + 2 * i,
            deterministic::<T>() ==> w@ == start + flat(i as nat, rows),
        decreases t.data@.len() - i,
    {
        let bits: u16 = f32_to_bf16_bits(t.data[i]);
        proof {
            lemma_u16_bytes(bits);
        }
        put_u16(w, bits);
        proof {
            if deterministic::<T>() {
                assert(u16_bytes(bits) == rows(i as nat));
                assert(w@ =~= start + flat((i + 1) as nat, rows));
            }
        }
        i += 1;
    }
}

/// The 8-bit integer of each ternary weight, and the scale.
fn ternary_cuts<T: Float>(t: &Tensor<T>) -> (r: (Vec<i8>, T))
    requires
        t.wf(),
    ensures
        r.0@.len() == t.data@.len(),
        deterministic::<T>() ==> r.0@ == cuts(t@) && r.1 == absmean(t.data@),
{
    let (q, gamma) = absmean_ternary(t);
    let mut out: Vec<i8> = Vec::new();
    let mut i: usize = 0;
    while i < q.data.len()
        invariant
            i <= q.data@.len(),
            out@.len() == i,
            deterministic::<T>() ==> forall|k: int| 0 <= k < i ==> out@[k] == fcut(q.data@[k]),
        decreases q.data@.len() - i,
    {
        out.push(q.data[i].to_i8());
        i += 1;
    }
    proof {
        if deterministic::<T>() {
            assert(q@ == ternary_of(t@));
            assert(out@ =~= cuts(t@));
        }
    }
    (out, gamma)
}

/// Appends a tensor as its scale and one byte per ternary weight.
fn write_ternary_tensor<T: Float>(w: &mut Vec<u8>, t: &Tensor<T>)
    requires
        t.wf(),
    ensures
        old(w)@.is_prefix_of(final(w)@),
        final(w)@.len() == old(w)@.len() + 4 + t.data@.len(),
        deterministic::<T>() ==> final(w)@ == old(w)@ + tensor_bytes(Format::Ternary, t@),
{
    let ghost start = w@;
    let (q, gamma) = ternary_cuts(t);
    let bits: u32 = gamma.to_bits();
    proof {
        lemma_u32_bytes(bits);
    }
    put_u32(w, bits);
    let ghost head = w@;
    let mut i: usize = 0;
    while i < q.len()
        invariant
            i <= q@.len(),
            start.is_prefix_of(head),
            head.len() == start.len() + 4,
            w@ == head + Seq::new(i as nat, |k: int| #[verifier::truncate] (q@[k] as u8)),
        decreases q@.len() - i,
    {
        w.push(#[verifier::truncate] (q[i] as u8));
        i += 1;
        proof {
            assert(w@ =~= head + Seq::new(i as nat, |k: int| #[verifier::truncate] (q@[k] as u8)));
        }
    }
    proof {
        if deterministic::<T>() {
            assert(w@ =~= start + tensor_bytes(Format::Ternary, t@));
        }
    }
}

/// 3 to the power of `n`.
pub open spec fn pow3(n: nat) -> int
    decreases n,
{
    if n == 0 {
        1
    } else {
        3 * pow3((n - 1) as nat)
    }
}

/// A number of `n` digits is below 3 to the power of `n`.
proof fn lemma_trit_bound(ds: Seq<i8>)
    requires
        are_trits(ds),
    ensures
        0 <= trit_value(ds) < pow3(ds.len()),
    decreases ds.len(),
{
    if ds.len() > 0 {
        let rest = ds.skip(1);
        assert forall|i: int| 0 <= i < rest.len() implies -1 <= #[trigger] rest[i] <= 1 by {
            assert(rest[i] == ds[i + 1]);
        }
        lemma_trit_bound(rest);
        assert(-1 <= ds[0] <= 1);
    }
}

/// Powers of three up to five digits.
proof fn lemma_pow3()
    ensures
        pow3(0) == 1,
        pow3(1) == 3,
        pow3(2) == 9,
        pow3(3) == 27,
        pow3(4) == 81,
        pow3(5) == 243,
{
    reveal_with_fuel(pow3, 6);
}

/// Adding a digit at the end adds its place value.
proof fn lemma_trit_push(ds: Seq<i8>, d: i8)
    ensures
        trit_value(ds.push(d)) == trit_value(ds) + (d + 1) * pow3(ds.len()),
    decreases ds.len(),
{
    if ds.len() == 0 {
        assert(ds.push(d).skip(1) =~= seq![]);
        assert(trit_value(ds.push(d).skip(1)) == 0);
    } else {
        lemma_trit_push(ds.skip(1), d);
        assert(ds.push(d).skip(1) =~= ds.skip(1).push(d));
        let p = pow3((ds.len() - 1) as nat);
        assert(3 * ((d + 1) * p) == (d + 1) * (3 * p)) by (nonlinear_arith);
    }
}

/// Packs up to five ternary weights into one byte, the first in the lowest place.
/// Weights beyond the fifth are left out.
pub fn pack_ternary_chunk(chunk: &[i8]) -> (r: u8)
    requires
        are_trits(chunk_at(chunk@, 0)),
    ensures
        r == trit_value(chunk_at(chunk@, 0)),
{
    let ghost ds = chunk_at(chunk@, 0);
    let n: usize = if chunk.len() < 5 {
        chunk.len()
    } else {
        5
    };
    let mut byte: u32 = 0;
    let mut place: u32 = 1;
    let mut i: usize = 0;
    proof {
        lemma_pow3();
        assert(ds.take(0) =~= seq![]);
    }
    while i < n
        invariant
            i <= n <= 5,
            n <= chunk@.len(),
            ds == chunk_at(chunk@, 0),
            ds.len() == n,
            are_trits(ds),
            place == pow3(i as nat),
            byte == trit_value(ds.take(i as int)),
            byte < 243,
        decreases n - i,
    {
        proof {
            lemma_pow3();
            assert(ds[i as int] == chunk@[i as int]);
            assert(ds.take(i + 1) =~= ds.take(i as int).push(ds[i as int]));
            lemma_trit_push(ds.take(i as int), ds[i as int]);
            assert forall|k: int| 0 <= k < ds.take(i + 1).len() implies -1 <= #[trigger] ds.take(
                i + 1,
            )[k] <= 1 by {
                assert(ds.take(i + 1)[k] == ds[k]);
            }
            lemma_trit_bound(ds.take(i + 1));
            assert(pow3((i + 1) as nat) <= 243);
            assert((ds[i as int] + 1) * place <= 2 * place) by (nonlinear_arith)
                requires
                    0 <= ds[i as int] + 1 <= 2,
                    place >= 0,
            ;
        }
        let d: u32 = (chunk[i] + 1) as u32;
        byte = byte + d * place;
        place = place * 3;
        i += 1;
    }
    proof {
        assert(ds.take(i as int) =~= ds);
    }
    byte as u8
}

/// The five ternary weights of a byte.
pub fn unpack_ternary_byte(b: u8) -> (r: [i8; 5])
    ensures
        forall|i: int| 0 <= i < 5 ==> #[trigger] r@[i] == trit_digit(b as int, i as nat),
{
    proof {
        reveal_with_fuel(trit_digit, 6);
    }
    let x0: u8 = b;
    let x1: u8 = x0 / 3;
    let x2: u8 = x1 / 3;
    let x3: u8 = x2 / 3;
    let x4: u8 = x3 / 3;
    let r: [i8; 5] = [
        (x0 % 3) as i8 - 1,
        (x1 % 3) as i8 - 1,
        (x2 % 3) as i8 - 1,
        (x3 % 3) as i8 - 1,
        (x4 % 3) as i8 - 1,
    ];
    proof {
        assert(r@[0] == trit_digit(b as int, 0));
        assert(r@[1] == trit_digit(b as int, 1));
        assert(r@[2] == trit_digit(b as int, 2));
        assert(r@[3] == trit_digit(b as int, 3));
        assert(r@[4] == trit_digit(b as int, 4));
    }
    r
}

/// What is packed into a byte is unpacked from it.
pub proof fn law_pack_unpack(ds: Seq<i8>, i: nat)
    requires
        are_trits(ds),
        i < ds.len(),
    ensures
        trit_digit(trit_value(ds), i) == ds[i as int],
    decreases ds.len(),
{
    let rest = ds.skip(1);
    assert forall|k: int| 0 <= k < rest.len() implies -1 <= #[trigger] rest[k] <= 1 by {
        assert(rest[k] == ds[k + 1]);
    }
    lemma_trit_bound(rest);
    assert(-1 <= ds[0] <= 1);
    let v = trit_value(rest);
    assert((ds[0] + 1 + 3 * v) % 3 == ds[0] + 1);
    assert((ds[0] + 1 + 3 * v) / 3 == v);
    if i > 0 {
        law_pack_unpack(rest, (i - 1) as nat);
    }
}

/// Appends a tensor as its scale and five ternary weights per byte.
fn write_ternary_packed_tensor<T: Float>(w: &mut Vec<u8>, t: &Tensor<T>)
    requires
        t.wf(),
    ensures
        old(w)@.is_prefix_of(final(w)@),
        final(w)@.len() == old(w)@.len() + 4 + packed_len(t.data@.len()),
        deterministic::<T>() ==> final(w)@ == old(w)@ + tensor_bytes(Format::TernaryPacked, t@),
{
    let ghost start = w@;
    let (q, gamma) = ternary_cuts(t);
    let mut signs: Vec<i8> = Vec::new();
    let mut k: usize = 0;
    while k < q.len()
        invariant
            k <= q@.len(),
            signs@ =~= Seq::new(k as nat, |i: int| sign_of(q@[i])),
        decreases q@.len() - k,
    {
        let x: i8 = q[k];
        if x < 0 {
            signs.push(-1);
        } else if x > 0 {
            signs.push(1);
        } else {
            signs.push(0);
        }
        k += 1;
    }
    let bits: u32 = gamma.to_bits();
    proof {
        lemma_u32_bytes(bits);
    }
    put_u32(w, bits);
    let ghost head = w@;
    let ghost all = packed_of(signs@);
    let mut at: usize = 0;
    let mut c: usize = 0;
    proof {
        assert(w@ =~= head + all.take(0));
    }
    while at < signs.len()
        invariant
            c <= all.len(),
            at <= signs@.len(),
            at == 5 * c || (at == signs@.len() && c == all.len()),
            at == signs@.len() ==> c == all.len(),
            all == packed_of(signs@),
            signs@ == Seq::new(q@.len(), |i: int| sign_of(q@[i])),
            w@ == head + all.take(c as int),
        decreases signs@.len() - at,
    {
        let left: usize = signs.len() - at;
        let step: usize = if left < 5 {
            left
        } else {
            5
        };
        let chunk = vstd::slice::slice_subrange(signs.as_slice(), at, at + step);
        proof {
            assert(chunk_at(chunk@, 0) =~= chunk_at(signs@, at as int));
        }
        w.push(pack_ternary_chunk(chunk));
        proof {
            assert(w@ =~= head + all.take(c + 1)) by {
                assert(all[c as int] == trit_value(chunk_at(signs@, 5 * c)) as u8);
            }
        }
        at += step;
        c += 1;
    }
    proof {
        assert(all.take(c as int) =~= all);
        if deterministic::<T>() {
            assert(signs@ =~= trits(t@));
            assert(w@ =~= start + tensor_bytes(Format::TernaryPacked, t@));
        }
    }
}

/// Appends a tensor in an encoding.
fn write_tensor<T: Float>(w: &mut Vec<u8>, t: &Tensor<T>, f: Format)
    requires
        t.wf(),
    ensures
        old(w)@.is_prefix_of(final(w)@),
        final(w)@.len() == old(w)@.len() + tensor_size(f, t.data@.len()),
        deterministic::<T>() ==> final(w)@ == old(w)@ + tensor_bytes(f, t@),
{
    match f {
        Format::Float32 => write_f32_tensor(w, t),
        Format::Ternary => write_ternary_tensor(w, t),
        Format::TernaryPacked => write_ternary_packed_tensor(w, t),
        Format::MastersBf16 => write_bf16_tensor(w, t),
    }
}

/// The bytes that the first `k` weights take.
pub open spec fn weight_size<T: Float>(f: Format, s: Seq<Array<T>>, k: nat) -> nat
    decreases k,
{
    if k == 0 {
        0
    } else {
        weight_size(f, s, (k - 1) as nat) + tensor_size(
            format_at(f, (k - 1) as nat),
            s[k - 1].data.len(),
        )
    }
}

/// The first weights decide their bytes.
proof fn lemma_weights_same<T: Float>(f: Format, a: Seq<Array<T>>, b: Seq<Array<T>>, k: nat)
    requires
        k <= a.len(),
        k <= b.len(),
        forall|i: int| 0 <= i < k ==> a[i] == b[i],
    ensures
        weight_bytes(f, a, k) == weight_bytes(f, b, k),
        weight_size(f, a, k) == weight_size(f, b, k),
    decreases k,
{
    if k > 0 {
        lemma_weights_same(f, a, b, (k - 1) as nat);
    }
}

/// The optimiser's state holds sound tensors.
pub open spec fn optim_ok<T: Float>(o: OptimState<T>) -> bool {
    &&& forall|i: int| 0 <= i < o.m@.len() ==> (#[trigger] o.m@[i]).wf()
    &&& forall|i: int| 0 <= i < o.v@.len() ==> (#[trigger] o.v@[i]).wf()
}

/// Appends the optimiser section.
fn write_optim_state<T: Float>(w: &mut Vec<u8>, o: &OptimState<T>)
    requires
        optim_ok(*o),
    ensures
        old(w)@.is_prefix_of(final(w)@),
        final(w)@.len() == old(w)@.len() + 8 + weight_size(
            Format::Float32,
            o@.m + o@.v,
            (o@.m + o@.v).len(),
        ),
        deterministic::<T>() ==> final(w)@ == old(w)@ + optim_bytes(o@),
{
    let ghost start = w@;
    let ghost s = o@.m + o@.v;
    proof {
        lemma_u32_bytes(OPTM_MARKER);
        lemma_u32_bytes(o.step_count);
    }
    put_u32(w, OPTM_MARKER);
    put_u32(w, o.step_count);
    let ghost head = w@;
    let mut i: usize = 0;
    proof {
        assert(w@ =~= head + weight_bytes(Format::Float32, s, 0));
    }
    while i < o.m.len()
        invariant
            i <= o.m@.len(),
            optim_ok(*o),
            s == o@.m + o@.v,
            head.is_prefix_of(w@),
            w@.len() == head.len() + weight_size(Format::Float32, s, i as nat),
            deterministic::<T>() ==> w@ == head + weight_bytes(Format::Float32, s, i as nat),
        decreases o.m@.len() - i,
    {
        proof {
            assert(s[i as int] == o.m@[i as int]@);
        }
        write_f32_tensor(w, &o.m[i]);
        i += 1;
        proof {
            if deterministic::<T>() {
                assert(w@ =~= head + weight_bytes(Format::Float32, s, i as nat));
            }
        }
    }
    let n: usize = o.m.len();
    let mut j: usize = 0;
    while j < o.v.len()
        invariant
            j <= o.v@.len(),
            n == o.m@.len(),
            optim_ok(*o),
            s == o@.m + o@.v,
            head.is_prefix_of(w@),
            w@.len() == head.len() + weight_size(Format::Float32, s, (n + j) as nat),
            deterministic::<T>() ==> w@ == head + weight_bytes(
                Format::Float32,
                s,
                (n + j) as nat,
            ),
        decreases o.v@.len() - j,
    {
        proof {
            assert(s[n + j] == o.v@[j as int]@);
        }
        write_f32_tensor(w, &o.v[j]);
        j += 1;
        proof {
            if deterministic::<T>() {
                assert(w@ =~= head + weight_bytes(Format::Float32, s, (n + j) as nat));
            }
        }
    }
    proof {
        if deterministic::<T>() {
            assert(w@ =~= start + optim_bytes(o@));
        }
    }
}

/// The bytes that an optional optimiser section takes.
pub open spec fn optim_size<T: Float>(o: Option<&OptimState<T>>) -> nat {
    match o {
        Some(o) => 8 + weight_size(Format::Float32, o@.m + o@.v, (o@.m + o@.v).len()),
        None => 0,
    }
}

/// The optional optimiser state as mathematics sees it.
pub open spec fn optim_view<T: Float>(o: Option<&OptimState<T>>) -> Option<OptimArrays<T>> {
    match o {
        Some(o) => Some(o@),
        None => None,
    }
}

/// The optional optimiser state holds sound tensors.
pub open spec fn optim_opt_ok<T: Float>(o: Option<&OptimState<T>>) -> bool {
    match o {
        Some(o) => optim_ok(*o),
        None => true,
    }
}

/// Appends a checkpoint in an encoding, and says how many bytes it took.
fn export_as<T: Float>(
    model: &Model<T>,
    w: &mut Vec<u8>,
    optim: Option<&OptimState<T>>,
    f: Format,
) -> (r: usize)
    requires
        model.wf(),
        optim_opt_ok(optim),
    ensures
        export_post(*model, old(w)@, final(w)@, optim, f, r),
{
    let ghost start = w@;
    let ghost s = arrays(items(model.parts()));
    let before: usize = w.len();
    write_header(w, &model.config, f);
    let ghost head = w@;
    let all = model.params();
    let mut k: usize = 0;
    proof {
        lemma_header_len(model.config, f);
        assert(w@ =~= head + weight_bytes(f, s, 0));
    }
    while k < all.len()
        invariant
            k <= all@.len(),
            model.wf(),
            s == arrays(items(model.parts())),
            all@.len() == s.len(),
            forall|q: int| 0 <= q < all@.len() ==> *(#[trigger] all@[q]) == items(model.parts())[q],
            head.is_prefix_of(w@),
            w@.len() == head.len() + weight_size(f, s, k as nat),
            deterministic::<T>() ==> w@ == head + weight_bytes(f, s, k as nat),
        decreases all@.len() - k,
    {
        proof {
            assert(items(model.parts())[k as int].wf());
            assert(s[k as int] == all@[k as int]@);
        }
        let g: Format = if k == 0 && f != Format::MastersBf16 {
            Format::Float32
        } else {
            f
        };
        write_tensor(w, all[k], g);
        k += 1;
        proof {
            if deterministic::<T>() {
                assert(w@ =~= head + weight_bytes(f, s, k as nat));
            }
        }
    }
    let ghost mid = w@;
    if let Some(state) = optim {
        write_optim_state(w, state);
    }
    proof {
        assert(start.is_prefix_of(head));
        assert(start.is_prefix_of(mid));
        assert(start.is_prefix_of(w@));
        assert(k == s.len());
        if deterministic::<T>() {
            assert(w@ =~= start + exported(f, model.config, s, optim_view(optim)));
        }
    }
    w.len() - before
}

/// What an export does: it appends the checkpoint's bytes and counts them.
pub open spec fn export_post<T: Float>(
    model: Model<T>,
    before: Seq<u8>,
    after: Seq<u8>,
    optim: Option<&OptimState<T>>,
    f: Format,
    r: usize,
) -> bool {
    let s = arrays(items(model.parts()));
    &&& before.is_prefix_of(after)
    &&& r == HEADER_SIZE + weight_size(f, s, s.len()) + optim_size(optim)
    &&& after.len() == before.len() + r
    &&& deterministic::<T>() ==> after == before + exported(f, model.config, s, optim_view(optim))
}

/// The header takes its number of bytes.
proof fn lemma_header_len(c: ModelConfig, f: Format)
    ensures
        header_bytes(c, f).len() == HEADER_SIZE,
{
    lemma_u32_bytes(MAGIC);
    lemma_u32_bytes(#[verifier::truncate] (c.vocab_size as u32));
    lemma_u32_bytes(#[verifier::truncate] (c.hidden_dim as u32));
    lemma_u32_bytes(#[verifier::truncate] (c.n_heads as u32));
    lemma_u32_bytes(#[verifier::truncate] (c.head_dim as u32));
    lemma_u32_bytes(#[verifier::truncate] (c.ffn_dim as u32));
    lemma_u32_bytes(#[verifier::truncate] (c.max_seq_len as u32));
    lemma_u32_bytes(#[verifier::truncate] (c.n_blocks as u32));
}

/// Appends a checkpoint with every weight at full width.
pub fn export_f32<T: Float>(
    model: &Model<T>,
    w: &mut Vec<u8>,
    optim: Option<&OptimState<T>>,
) -> (r: usize)
    requires
        model.wf(),
        optim_opt_ok(optim),
    ensures
        export_post(*model, old(w)@, final(w)@, optim, Format::Float32, r),
{
    export_as(model, w, optim, Format::Float32)
}

/// Appends a checkpoint with every weight at half width.
pub fn export_bf16<T: Float>(
    model: &Model<T>,
    w: &mut Vec<u8>,
    optim: Option<&OptimState<T>>,
) -> (r: usize)
    requires
        model.wf(),
        optim_opt_ok(optim),
    ensures
        export_post(*model, old(w)@, final(w)@, optim, Format::MastersBf16, r),
{
    export_as(model, w, optim, Format::MastersBf16)
}

/// Appends a checkpoint with one byte per ternary weight.
pub fn export_ternary<T: Float>(
    model: &Model<T>,
    w: &mut Vec<u8>,
    optim: Option<&OptimState<T>>,
) -> (r: usize)
    requires
        model.wf(),
        optim_opt_ok(optim),
    ensures
        export_post(*model, old(w)@, final(w)@, optim, Format::Ternary, r),
{
    export_as(model, w, optim, Format::Ternary)
}

/// Appends a checkpoint with five ternary weights per byte.
pub fn export_ternary_packed<T: Float>(
    model: &Model<T>,
    w: &mut Vec<u8>,
    optim: Option<&OptimState<T>>,
) -> (r: usize)
    requires
        model.wf(),
        optim_opt_ok(optim),
    ensures
        export_post(*model, old(w)@, final(w)@, optim, Format::TernaryPacked, r),
{
    export_as(model, w, optim, Format::TernaryPacked)
}

/// Appends the tokeniser section.
pub fn append_bpe_section(w: &mut Vec<u8>, bpe: &Bpe)
    ensures
        final(w)@ == old(w)@ + bpe_bytes(bpe.merges@),
{
    let ghost start = w@;
    put_u32(w, BPE_MARKER);
    bpe.save(w);
    proof {
        assert(w@ =~= start + bpe_bytes(bpe.merges@));
    }
}

/// The tensor that the bytes from `pos` on stand for.
pub open spec fn tensor_at<T: Float>(
    f: Format,
    buf: Seq<u8>,
    pos: int,
    dims: Seq<usize>,
) -> Array<T> {
    Array {
        data: Seq::new(
            volume(dims),
            |k: int|
                match f {
                    Format::Float32 => fbits::<T>(u32_at(buf, pos + 4 * k)),
                    Format::MastersBf16 => fbits::<T>(widened_bits(u16_at(buf, pos + 2 * k))),
                    Format::Ternary => fmul(
                        fsmall::<T>(#[verifier::truncate] (buf[pos + 4 + k] as i8)),
                        fbits::<T>(u32_at(buf, pos)),
                    ),
                    Format::TernaryPacked => fmul(
                        fsmall::<T>(trit_digit(buf[pos + 4 + k / 5] as int, (k % 5) as nat) as i8),
                        fbits::<T>(u32_at(buf, pos)),
                    ),
                },
        ),
        dims,
    }
}

/// Where a tensor of `n` items that starts at `pos` ends.
pub open spec fn tensor_end(f: Format, buf: Seq<u8>, pos: int, n: nat) -> Result<int, ReadError> {
    if n > usize::MAX {
        Err(ReadError::TooLarge)
    } else if buf.len() - pos < tensor_size(f, n) {
        Err(ReadError::UnexpectedEof)
    } else {
        Ok(pos + tensor_size(f, n))
    }
}

/// Where the first `k` weights that start at `pos` end.
pub open spec fn weights_end(
    f: Format,
    buf: Seq<u8>,
    pos: int,
    shapes: Seq<Seq<usize>>,
    k: nat,
) -> Result<int, ReadError>
    decreases k,
{
    if k == 0 {
        Ok(pos)
    } else {
        match weights_end(f, buf, pos, shapes, (k - 1) as nat) {
            Err(e) => Err(e),
            Ok(p) => tensor_end(format_at(f, (k - 1) as nat), buf, p, volume(shapes[k - 1])),
        }
    }
}

/// Weight `k` of those that start at `pos`.
pub open spec fn weight_at<T: Float>(
    f: Format,
    buf: Seq<u8>,
    pos: int,
    shapes: Seq<Seq<usize>>,
    k: nat,
) -> Array<T> {
    tensor_at(
        format_at(f, k),
        buf,
        weights_end(f, buf, pos, shapes, k)->Ok_0,
        shapes[k as int],
    )
}

/// What the trailing sections from `pos` on hold: where the last optimiser
/// section's body starts, and the merges of the last tokeniser.
pub open spec fn trailer(
    buf: Seq<u8>,
    pos: int,
    shapes: Seq<Seq<usize>>,
    o: Option<int>,
    b: Option<Seq<(u32, u32)>>,
) -> Result<(Option<int>, Option<Seq<(u32, u32)>>), ReadError>
    decreases
            if pos < buf.len() {
                buf.len() - pos
            } else {
                0
            },
{
    if buf.len() - pos < 4 {
        Ok((o, b))
    } else if u32_at(buf, pos) == OPTM_MARKER {
        if buf.len() - pos < 8 {
            Err(ReadError::UnexpectedEof)
        } else {
            match weights_end(
                Format::Float32,
                buf,
                pos + 8,
                shapes + shapes,
                (shapes + shapes).len(),
            ) {
                Err(e) => Err(e),
                Ok(q) => if q <= pos {
                    Err(ReadError::UnexpectedEof)
                } else {
                    trailer(buf, q, shapes, Some(pos + 4), b)
                },
            }
        }
    } else if u32_at(buf, pos) == BPE_MARKER {
        match loaded(buf, pos + 4) {
            Err(e) => Err(e),
            Ok(m) => trailer(buf, pos + 12 + 8 * m.len(), shapes, o, Some(m)),
        }
    } else {
        Err(ReadError::UnknownMarker(u32_at(buf, pos)))
    }
}

/// A checkpoint as its bytes lay it out.
pub struct Checkpoint {
    pub format: Format,
    pub config: ModelConfig,
    /// Where the optimiser section's body starts.
    pub optim: Option<int>,
    /// The tokeniser's merges.
    pub bpe: Option<Seq<(u32, u32)>>,
}

/// What reading a checkpoint gives.
pub open spec fn parsed(buf: Seq<u8>) -> Result<Checkpoint, ReadError> {
    match header_of(buf) {
        Err(e) => Err(e),
        Ok(h) => {
            let shapes = shapes_of(h.1);
            match weights_end(h.0, buf, HEADER_SIZE as int, shapes, shapes.len()) {
                Err(e) => Err(e),
                Ok(p) => match trailer(buf, p, shapes, None, None) {
                    Err(e) => Err(e),
                    Ok(t) => Ok(
                        Checkpoint { format: h.0, config: h.1, optim: t.0, bpe: t.1 },
                    ),
                },
            }
        },
    }
}

/// The tensor is weight `k` of those that start at `pos`.
pub open spec fn is_weight<T: Float>(
    t: Tensor<T>,
    f: Format,
    buf: Seq<u8>,
    pos: int,
    shapes: Seq<Seq<usize>>,
    k: nat,
) -> bool {
    &&& t.wf()
    &&& t.shape@ == shapes[k as int]
    &&& deterministic::<T>() ==> t@ == weight_at::<T>(f, buf, pos, shapes, k)
}

/// The state is what the optimiser section's body at `p` holds.
pub open spec fn optim_read<T: Float>(
    o: OptimState<T>,
    buf: Seq<u8>,
    p: int,
    shapes: Seq<Seq<usize>>,
) -> bool {
    &&& o.step_count == u32_at(buf, p)
    &&& o.m@.len() == shapes.len()
    &&& o.v@.len() == shapes.len()
    &&& forall|i: int|
        0 <= i < shapes.len() ==> is_weight(
            #[trigger] o.m@[i],
            Format::Float32,
            buf,
            p + 4,
            shapes + shapes,
            i as nat,
        )
    &&& forall|i: int|
        0 <= i < shapes.len() ==> is_weight(
            #[trigger] o.v@[i],
            Format::Float32,
            buf,
            p + 4,
            shapes + shapes,
            (shapes.len() + i) as nat,
        )
}

/// The optional state is what the trailer says.
pub open spec fn optim_matches<T: Float>(
    o: Option<OptimState<T>>,
    buf: Seq<u8>,
    p: Option<int>,
    shapes: Seq<Seq<usize>>,
) -> bool {
    match (o, p) {
        (Some(o), Some(p)) => optim_read(o, buf, p, shapes),
        (None, None) => true,
        _ => false,
    }
}

/// The optional tokeniser is what the trailer says.
pub open spec fn bpe_matches(b: Option<Bpe>, m: Option<Seq<(u32, u32)>>) -> bool {
    match (b, m) {
        (Some(b), Some(m)) => b.wf() && b.merges@ == m,
        (None, None) => true,
        _ => false,
    }
}

/// What an import gives for what a checkpoint is read as.
pub open spec fn import_post<T: Float>(
    buf: Seq<u8>,
    r: Result<(Model<T>, Format, Option<OptimState<T>>, Option<Bpe>), ReadError>,
) -> bool {
    match r {
        Err(e) => parsed(buf) == Err::<Checkpoint, ReadError>(e),
        Ok(x) => {
            let (m, f, o, b) = x;
            let shapes = shapes_of(m.config);
            &&& parsed(buf) is Ok
            &&& f == parsed(buf)->Ok_0.format
            &&& m.config == parsed(buf)->Ok_0.config
            &&& m.shaped()
            &&& items(m.parts()).len() == shapes.len()
            &&& forall|k: int|
                0 <= k < shapes.len() ==> is_weight(
                    #[trigger] items(m.parts())[k],
                    f,
                    buf,
                    HEADER_SIZE as int,
                    shapes,
                    k as nat,
                )
            &&& optim_matches(o, buf, parsed(buf)->Ok_0.optim, shapes)
            &&& bpe_matches(b, parsed(buf)->Ok_0.bpe)
        },
    }
}

/// Reads a header.
fn read_header(buf: &[u8]) -> (r: Result<(Format, ModelConfig), ReadError>)
    ensures
        r == header_of(buf@),
{
    match get_u32(buf, 0) {
        Err(e) => return Err(e),
        Ok(x) => if x != MAGIC {
            return Err(ReadError::BadMagic);
        },
    }
    if buf.len() < 5 {
        return Err(ReadError::UnexpectedEof);
    }
    let f: Format = match Format::from_byte(buf[4]) {
        Err(e) => return Err(e),
        Ok(f) => f,
    };
    if buf.len() < HEADER_SIZE {
        return Err(ReadError::UnexpectedEof);
    }
    let mut sizes: Vec<usize> = Vec::new();
    let mut i: usize = 0;
    while i < 7
        invariant
            i <= 7,
            buf@.len() >= HEADER_SIZE,
            sizes@.len() == i,
            forall|k: int| 0 <= k < i ==> sizes@[k] == u32_at(buf@, 5 + 4 * k),
        decreases 7 - i,
    {
        match get_u32(buf, 5 + 4 * i) {
            Err(e) => {
                proof {
                    assert(false);
                }
            },
            Ok(x) => {
                sizes.push(x as usize);
            },
        }
        i += 1;
    }
    Ok(
        (
            f,
            ModelConfig {
                vocab_size: sizes[0],
                hidden_dim: sizes[1],
                n_heads: sizes[2],
                head_dim: sizes[3],
                ffn_dim: sizes[4],
                max_seq_len: sizes[5],
                n_blocks: sizes[6],
            },
        ),
    )
}

/// Reads `n` items at full width.
fn read_f32_items<T: Float>(buf: &[u8], pos: usize, n: usize) -> (r: Result<Vec<T>, ReadError>)
    requires
        pos <= buf@.len(),
    ensures
        match r {
            Err(e) => e == ReadError::UnexpectedEof && buf@.len() - pos < 4 * n,
            Ok(v) => {
                &&& buf@.len() - pos >= 4 * n
                &&& v@.len() == n
                &&& deterministic::<T>() ==> forall|k: int|
                    0 <= k < n ==> v@[k] == fbits::<T>(u32_at(buf@, pos + 4 * k))
            },
        },
{
    if (buf.len() - pos) / 4 < n {
        return Err(ReadError::UnexpectedEof);
    }
    let mut out: Vec<T> = Vec::new();
    let mut i: usize = 0;
    while i < n
        invariant
            i <= n,
            buf@.len() - pos >= 4 * n,
            buf@.len() <= usize::MAX,
            out@.len() == i,
            deterministic::<T>() ==> forall|k: int|
                0 <= k < i ==> out@[k] == fbits::<T>(u32_at(buf@, pos + 4 * k)),
        decreases n - i,
    {
        match get_u32(buf, pos + 4 * i) {
            Err(e) => return Err(e),
            Ok(x) => out.push(T::from_bits(x)),
        }
        i += 1;
    }
    Ok(out)
}

/// Reads `n` items at half width.
fn read_bf16_items<T: Float>(buf: &[u8], pos: usize, n: usize) -> (r: Result<Vec<T>, ReadError>)
    requires
        pos <= buf@.len(),
    ensures
        match r {
            Err(e) => e == ReadError::UnexpectedEof && buf@.len() - pos < 2 * n,
            Ok(v) => {
                &&& buf@.len() - pos >= 2 * n
                &&& v@.len() == n
                &&& deterministic::<T>() ==> forall|k: int|
                    0 <= k < n ==> v@[k] == fbits::<T>(widened_bits(u16_at(buf@, pos + 2 * k)))
            },
        },
{
    if (buf.len() - pos) / 2 < n {
        return Err(ReadError::UnexpectedEof);
    }
    let mut out: Vec<T> = Vec::new();
    let mut i: usize = 0;
    while i < n
        invariant
            i <= n,
            buf@.len() - pos >= 2 * n,
            buf@.len() <= usize::MAX,
            out@.len() == i,
            deterministic::<T>() ==> forall|k: int|
                0 <= k < i ==> out@[k] == fbits::<T>(widened_bits(u16_at(buf@, pos + 2 * k))),
        decreases n - i,
    {
        match get_u16(buf, pos + 2 * i) {
            Err(e) => return Err(e),
            Ok(x) => out.push(bf16_bits_to_f32(x)),
        }
        i += 1;
    }
    Ok(out)
}

/// Reads a scale and `n` items of one byte each.
fn read_ternary_items<T: Float>(buf: &[u8], pos: usize, n: usize) -> (r: Result<Vec<T>, ReadError>)
    requires
        pos <= buf@.len(),
    ensures
        match r {
            Err(e) => e == ReadError::UnexpectedEof && buf@.len() - pos < 4 + n,
            Ok(v) => {
                &&& buf@.len() - pos >= 4 + n
                &&& v@.len() == n
                &&& deterministic::<T>() ==> forall|k: int|
                    0 <= k < n ==> v@[k] == fmul(
                        fsmall::<T>(#[verifier::truncate] (buf@[pos + 4 + k] as i8)),
                        fbits::<T>(u32_at(buf@, pos as int)),
                    )
            },
        },
{
    let gamma: T = match get_u32(buf, pos) {
        Err(e) => return Err(e),
        Ok(x) => T::from_bits(x),
    };
    if buf.len() - pos - 4 < n {
        return Err(ReadError::UnexpectedEof);
    }
    let mut out: Vec<T> = Vec::new();
    let mut i: usize = 0;
    while i < n
        invariant
            i <= n,
            buf@.len() - pos >= 4 + n,
            buf@.len() <= usize::MAX,
            out@.len() == i,
            deterministic::<T>() ==> gamma == fbits::<T>(u32_at(buf@, pos as int)),
            deterministic::<T>() ==> forall|k: int|
                0 <= k < i ==> out@[k] == fmul(
                    fsmall::<T>(#[verifier::truncate] (buf@[pos + 4 + k] as i8)),
                    gamma,
                ),
        decreases n - i,
    {
        let q: i8 = #[verifier::truncate] (buf[pos + 4 + i] as i8);
        out.push(T::from_i8(q).times(gamma));
        i += 1;
    }
    Ok(out)
}

/// Digits of a number in base 3 lie between -1 and 1.
proof fn lemma_digit_range(b: int, i: nat)
    requires
        b >= 0,
    ensures
        -1 <= trit_digit(b, i) <= 1,
    decreases i,
{
    if i > 0 {
        lemma_digit_range(b / 3, (i - 1) as nat);
    }
}

/// Reads a scale and `n` items, five in one byte.
fn read_packed_items<T: Float>(buf: &[u8], pos: usize, n: usize) -> (r: Result<Vec<T>, ReadError>)
    requires
        pos <= buf@.len(),
    ensures
        match r {
            Err(e) => e == ReadError::UnexpectedEof && buf@.len() - pos < 4 + packed_len(n as nat),
            Ok(v) => {
                &&& buf@.len() - pos >= 4 + packed_len(n as nat)
                &&& v@.len() == n
                &&& deterministic::<T>() ==> forall|k: int|
                    0 <= k < n ==> v@[k] == fmul(
                        fsmall::<T>(
                            trit_digit(buf@[pos + 4 + k / 5] as int, (k % 5) as nat) as i8,
                        ),
                        fbits::<T>(u32_at(buf@, pos as int)),
                    )
            },
        },
{
    let gamma: T = match get_u32(buf, pos) {
        Err(e) => return Err(e),
        Ok(x) => T::from_bits(x),
    };
    let n_bytes: usize = n / 5 + if n % 5 == 0 {
        0
    } else {
        1
    };
    if buf.len() - pos - 4 < n_bytes {
        return Err(ReadError::UnexpectedEof);
    }
    let mut out: Vec<T> = Vec::new();
    let mut i: usize = 0;
    while i < n_bytes
        invariant
            i <= n_bytes,
            n_bytes == packed_len(n as nat),
            buf@.len() - pos >= 4 + n_bytes,
            buf@.len() <= usize::MAX,
            out@.len() == if 5 * i <= n {
                5 * i as int
            } else {
                n as int
            },
            deterministic::<T>() ==> gamma == fbits::<T>(u32_at(buf@, pos as int)),
            deterministic::<T>() ==> forall|k: int|
                0 <= k < out@.len() ==> out@[k] == fmul(
                    fsmall::<T>(trit_digit(buf@[pos + 4 + k / 5] as int, (k % 5) as nat) as i8),
                    gamma,
                ),
        decreases n_bytes - i,
    {
        let five = unpack_ternary_byte(buf[pos + 4 + i]);
        let mut j: usize = 0;
        while j < 5
            invariant
                j <= 5,
                i < n_bytes,
                n_bytes == packed_len(n as nat),
                buf@.len() - pos >= 4 + n_bytes,
                forall|q: int|
                    0 <= q < 5 ==> #[trigger] five@[q] == trit_digit(
                        buf@[pos + 4 + i] as int,
                        q as nat,
                    ),
                out@.len() == if 5 * i + j <= n {
                    5 * i + j
                } else {
                    n as int
                },
                deterministic::<T>() ==> forall|k: int|
                    0 <= k < out@.len() ==> out@[k] == fmul(
                        fsmall::<T>(
                            trit_digit(buf@[pos + 4 + k / 5] as int, (k % 5) as nat) as i8,
                        ),
                        gamma,
                    ),
            decreases 5 - j,
        {
            if out.len() < n {
                proof {
                    assert(out@.len() == 5 * i + j);
                    assert(out@.len() as int / 5 == i && out@.len() as int % 5 == j);
                }
                out.push(T::from_i8(five[j]).times(gamma));
            }
            j += 1;
        }
        i += 1;
    }
    Ok(out)
}

/// Reads a tensor of a shape with `n` items.
fn read_tensor<T: Float>(buf: &[u8], pos: usize, shape: Vec<usize>, n: usize, f: Format) -> (r:
    Result<(Tensor<T>, usize), ReadError>)
    requires
        pos <= buf@.len(),
        n == volume(shape@),
    ensures
        match r {
            Err(e) => tensor_end(f, buf@, pos as int, volume(shape@)) == Err::<int, ReadError>(e),
            Ok(x) => {
                &&& tensor_end(f, buf@, pos as int, volume(shape@)) == Ok::<int, ReadError>(
                    x.1 as int,
                )
                &&& x.1 <= buf@.len()
                &&& x.0.wf()
                &&& x.0.shape@ == shape@
                &&& deterministic::<T>() ==> x.0@ == tensor_at::<T>(f, buf@, pos as int, shape@)
            },
        },
{
    proof {
        assert(buf@.len() == buf.len());
    }
    let items: Result<Vec<T>, ReadError> = match f {
        Format::Float32 => read_f32_items(buf, pos, n),
        Format::Ternary => read_ternary_items(buf, pos, n),
        Format::TernaryPacked => read_packed_items(buf, pos, n),
        Format::MastersBf16 => read_bf16_items(buf, pos, n),
    };
    let data: Vec<T> = match items {
        Err(e) => return Err(e),
        Ok(v) => v,
    };
    let size: usize = match f {
        Format::Float32 => 4 * n,
        Format::Ternary => 4 + n,
        Format::TernaryPacked => 4 + (n / 5 + if n % 5 == 0 {
            0
        } else {
            1
        }),
        Format::MastersBf16 => 2 * n,
    };
    let t = Tensor { data, shape };
    proof {
        if deterministic::<T>() {
            assert(t@ =~= tensor_at::<T>(f, buf@, pos as int, shape@));
        }
    }
    Ok((t, pos + size))
}

/// Reads a matrix.
fn read_matrix<T: Float>(buf: &[u8], pos: usize, m: usize, n: usize, f: Format) -> (r: Result<
    (Tensor<T>, usize),
    ReadError,
>)
    requires
        pos <= buf@.len(),
    ensures
        match r {
            Err(e) => tensor_end(f, buf@, pos as int, volume(seq![m, n])) == Err::<int, ReadError>(
                e,
            ),
            Ok(x) => {
                &&& tensor_end(f, buf@, pos as int, volume(seq![m, n])) == Ok::<int, ReadError>(
                    x.1 as int,
                )
                &&& x.1 <= buf@.len()
                &&& x.0.wf()
                &&& x.0.shape@ == seq![m, n]
                &&& deterministic::<T>() ==> x.0@ == tensor_at::<T>(f, buf@, pos as int, seq![m, n])
            },
        },
{
    let mut shape: Vec<usize> = Vec::new();
    shape.push(m);
    shape.push(n);
    proof {
        assert(shape@ =~= seq![m, n]);
        lemma_volume2(shape@);
    }
    match m.checked_mul(n) {
        None => Err(ReadError::TooLarge),
        Some(total) => read_tensor(buf, pos, shape, total, f),
    }
}

/// Where reading fails once it has failed for good.
proof fn lemma_end_stays(
    f: Format,
    buf: Seq<u8>,
    pos: int,
    shapes: Seq<Seq<usize>>,
    k: nat,
    n: nat,
)
    requires
        k <= n,
        weights_end(f, buf, pos, shapes, k) is Err,
    ensures
        weights_end(f, buf, pos, shapes, n) == weights_end(f, buf, pos, shapes, k),
    decreases n,
{
    if k < n {
        lemma_end_stays(f, buf, pos, shapes, k, (n - 1) as nat);
    }
}

/// The tensors are the first weights of those that start at `pos`, which end at `at`.
spec fn weights_read<T: Float>(
    done: Seq<Tensor<T>>,
    f: Format,
    buf: Seq<u8>,
    pos: int,
    shapes: Seq<Seq<usize>>,
    at: int,
) -> bool {
    &&& weights_end(f, buf, pos, shapes, done.len()) == Ok::<int, ReadError>(at)
    &&& 0 <= at <= buf.len()
    &&& forall|k: int|
        0 <= k < done.len() ==> is_weight(#[trigger] done[k], f, buf, pos, shapes, k as nat)
}

/// Reads the next weight, a matrix, after those that were read.
fn read_next<T: Float>(
    buf: &[u8],
    at: usize,
    m: usize,
    n: usize,
    f: Format,
    g: Format,
    Ghost(pos): Ghost<int>,
    Ghost(shapes): Ghost<Seq<Seq<usize>>>,
    Ghost(done): Ghost<Seq<Tensor<T>>>,
) -> (r: Result<(Tensor<T>, usize), ReadError>)
    requires
        weights_read(done, f, buf@, pos, shapes, at as int),
        done.len() < shapes.len(),
        shapes[done.len() as int] == seq![m, n],
        g == format_at(f, done.len()),
    ensures
        match r {
            Err(e) => weights_end(f, buf@, pos, shapes, shapes.len()) == Err::<int, ReadError>(e),
            Ok(x) => {
                &&& weights_read(done.push(x.0), f, buf@, pos, shapes, x.1 as int)
                &&& x.0.wf()
                &&& x.0.shape@ == seq![m, n]
            },
        },
{
    let r = read_matrix(buf, at, m, n, g);
    proof {
        if r is Err {
            assert(weights_end(f, buf@, pos, shapes, done.len() + 1) is Err);
            lemma_end_stays(f, buf@, pos, shapes, done.len() + 1, shapes.len());
        } else {
            let all = done.push(r->Ok_0.0);
            assert forall|k: int| 0 <= k < all.len() implies is_weight(
                #[trigger] all[k],
                f,
                buf@,
                pos,
                shapes,
                k as nat,
            ) by {
                if k < done.len() {
                    assert(is_weight(done[k], f, buf@, pos, shapes, k as nat));
                }
            }
        }
    }
    r
}

/// Reads the weights of a head after those that were read.
fn read_head<T: Float>(
    buf: &[u8],
    at: usize,
    c: &ModelConfig,
    f: Format,
    Ghost(shapes): Ghost<Seq<Seq<usize>>>,
    Ghost(done): Ghost<Seq<Tensor<T>>>,
) -> (r: Result<(AttentionHead<T>, usize), ReadError>)
    requires
        weights_read(done, f, buf@, HEADER_SIZE as int, shapes, at as int),
        0 < done.len(),
        done.len() + 4 <= shapes.len(),
        shapes.subrange(done.len() as int, (done.len() + 4) as int) == head_items(head_dims(*c)),
    ensures
        match r {
            Err(e) => weights_end(f, buf@, HEADER_SIZE as int, shapes, shapes.len()) == Err::<
                int,
                ReadError,
            >(e),
            Ok(x) => {
                &&& weights_read(
                    done + head_items(x.0.parts()),
                    f,
                    buf@,
                    HEADER_SIZE as int,
                    shapes,
                    x.1 as int,
                )
                &&& head_shaped(x.0, *c)
            },
        },
{
    let h: usize = c.hidden_dim;
    let d: usize = c.head_dim;
    let ghost pos = HEADER_SIZE as int;
    proof {
        let n = done.len() as int;
        let four = shapes.subrange(n, n + 4);
        assert(four[0] == shapes[n] && four[1] == shapes[n + 1] && four[2] == shapes[n + 2]
            && four[3] == shapes[n + 3]);
    }
    let (w_q, at) = match read_next(buf, at, h, d, f, f, Ghost(pos), Ghost(shapes), Ghost(done)) {
        Err(e) => return Err(e),
        Ok(x) => x,
    };
    let ghost d1 = done.push(w_q);
    let (w_k, at) = match read_next(buf, at, h, d, f, f, Ghost(pos), Ghost(shapes), Ghost(d1)) {
        Err(e) => return Err(e),
        Ok(x) => x,
    };
    let ghost d2 = d1.push(w_k);
    let (w_v, at) = match read_next(buf, at, h, d, f, f, Ghost(pos), Ghost(shapes), Ghost(d2)) {
        Err(e) => return Err(e),
        Ok(x) => x,
    };
    let ghost d3 = d2.push(w_v);
    let (w_o, at) = match read_next(buf, at, d, h, f, f, Ghost(pos), Ghost(shapes), Ghost(d3)) {
        Err(e) => return Err(e),
        Ok(x) => x,
    };
    let r = AttentionHead { w_q, w_k, w_v, w_o };
    proof {
        assert(d3.push(w_o) =~= done + head_items(r.parts()));
    }
    Ok((r, at))
}

/// The shapes listed for head `i` of block `j`.
proof fn lemma_head_shapes(c: ModelConfig, j: nat, i: nat)
    requires
        j < c.n_blocks,
        i < c.n_heads,
    ensures
        1 + blocks_items(config_dims(c).blocks, j).len() + 4 * i + 4 <= shapes_of(c).len(),
        shapes_of(c).subrange(
            (1 + blocks_items(config_dims(c).blocks, j).len() + 4 * i) as int,
            (1 + blocks_items(config_dims(c).blocks, j).len() + 4 * i + 4) as int,
        ) == head_items(head_dims(c)),
{
    let cd = config_dims(c);
    lemma_head_place(cd, j, i);
    let n = head_place(cd, j, i, 0) as int;
    assert(shapes_of(c).subrange(n, n + 4) =~= head_items(head_dims(c)));
}

/// The shapes listed for the feed-forward layer of block `j`.
proof fn lemma_ffn_shapes(c: ModelConfig, j: nat)
    requires
        j < c.n_blocks,
    ensures
        ({
            let n = 1 + blocks_items(config_dims(c).blocks, j).len() + 4 * c.n_heads;
            &&& n + 3 <= shapes_of(c).len()
            &&& shapes_of(c)[n] == seq![c.hidden_dim, c.ffn_dim]
            &&& shapes_of(c)[n + 1] == seq![c.hidden_dim, c.ffn_dim]
            &&& shapes_of(c)[n + 2] == seq![c.ffn_dim, c.hidden_dim]
        }),
{
    let cd = config_dims(c);
    lemma_ffn_place(cd, j);
    assert(ffn_place(cd, j, 0) == 1 + blocks_items(cd.blocks, j).len() + 4 * c.n_heads);
}

/// Reads the weights of a block after those that were read.
fn read_block<T: Float>(
    buf: &[u8],
    at: usize,
    c: &ModelConfig,
    f: Format,
    Ghost(j): Ghost<nat>,
    Ghost(done): Ghost<Seq<Tensor<T>>>,
) -> (r: Result<(BlockMasters<T>, usize), ReadError>)
    requires
        j < c.n_blocks,
        weights_read(done, f, buf@, HEADER_SIZE as int, shapes_of(*c), at as int),
        done.len() == 1 + blocks_items(config_dims(*c).blocks, j).len(),
    ensures
        match r {
            Err(e) => weights_end(
                f,
                buf@,
                HEADER_SIZE as int,
                shapes_of(*c),
                shapes_of(*c).len(),
            ) == Err::<int, ReadError>(e),
            Ok(x) => {
                &&& weights_read(
                    done + block_items(x.0.parts()),
                    f,
                    buf@,
                    HEADER_SIZE as int,
                    shapes_of(*c),
                    x.1 as int,
                )
                &&& block_shaped(x.0, *c)
            },
        },
{
    let h: usize = c.hidden_dim;
    let fd: usize = c.ffn_dim;
    let ghost pos = HEADER_SIZE as int;
    let ghost shapes = shapes_of(*c);
    let mut at: usize = at;
    let mut heads: Vec<AttentionHead<T>> = Vec::new();
    proof {
        assert(done + heads_items(heads_parts(heads@), 0) =~= done);
    }
    while heads.len() < c.n_heads
        invariant
            j < c.n_blocks,
            pos == HEADER_SIZE,
            shapes == shapes_of(*c),
            done.len() == 1 + blocks_items(config_dims(*c).blocks, j).len(),
            heads@.len() <= c.n_heads,
            weights_read(
                done + heads_items(heads_parts(heads@), heads@.len()),
                f,
                buf@,
                pos,
                shapes,
                at as int,
            ),
            forall|i: int| 0 <= i < heads@.len() ==> head_shaped(#[trigger] heads@[i], *c),
        decreases c.n_heads - heads@.len(),
    {
        let ghost i = heads@.len();
        let ghost before = heads@;
        let ghost so_far = done + heads_items(heads_parts(heads@), i);
        proof {
            lemma_heads_len(heads_parts(heads@), i);
            lemma_head_shapes(*c, j, i);
        }
        let (head, next) = match read_head(buf, at, c, f, Ghost(shapes), Ghost(so_far)) {
            Err(e) => return Err(e),
            Ok(x) => x,
        };
        heads.push(head);
        at = next;
        proof {
            lemma_heads_same(heads_parts(before), heads_parts(heads@), i);
            assert(so_far + head_items(head.parts()) =~= done + heads_items(
                heads_parts(heads@),
                i + 1,
            ));
        }
    }
    let ghost d0 = done + heads_items(heads_parts(heads@), heads@.len());
    proof {
        lemma_heads_len(heads_parts(heads@), heads@.len());
        lemma_ffn_shapes(*c, j);
    }
    let (ffn_gate_w, next) = match read_next(
        buf,
        at,
        h,
        fd,
        f,
        f,
        Ghost(pos),
        Ghost(shapes),
        Ghost(d0),
    ) {
        Err(e) => return Err(e),
        Ok(x) => x,
    };
    at = next;
    let ghost d1 = d0.push(ffn_gate_w);
    let (ffn_up_w, next) = match read_next(
        buf,
        at,
        h,
        fd,
        f,
        f,
        Ghost(pos),
        Ghost(shapes),
        Ghost(d1),
    ) {
        Err(e) => return Err(e),
        Ok(x) => x,
    };
    at = next;
    let ghost d2 = d1.push(ffn_up_w);
    let (ffn_down_w, next) = match read_next(
        buf,
        at,
        fd,
        h,
        f,
        f,
        Ghost(pos),
        Ghost(shapes),
        Ghost(d2),
    ) {
        Err(e) => return Err(e),
        Ok(x) => x,
    };
    let r = BlockMasters { heads, ffn_gate_w, ffn_up_w, ffn_down_w };
    proof {
        assert(d2.push(ffn_down_w) =~= done + block_items(r.parts()));
    }
    Ok((r, next))
}

/// Reads the weights of a model.
fn read_model<T: Float>(buf: &[u8], c: ModelConfig, f: Format) -> (r: Result<
    (Model<T>, usize),
    ReadError,
>)
    requires
        buf@.len() >= HEADER_SIZE,
    ensures
        match r {
            Err(e) => weights_end(f, buf@, HEADER_SIZE as int, shapes_of(c), shapes_of(c).len())
                == Err::<int, ReadError>(e),
            Ok(x) => {
                &&& x.0.config == c
                &&& x.0.shaped()
                &&& items(x.0.parts()).len() == shapes_of(c).len()
                &&& weights_read(
                    items(x.0.parts()),
                    f,
                    buf@,
                    HEADER_SIZE as int,
                    shapes_of(c),
                    x.1 as int,
                )
            },
        },
{
    let ghost pos = HEADER_SIZE as int;
    let ghost shapes = shapes_of(c);
    let ghost cd = config_dims(c);
    let g: Format = if f != Format::MastersBf16 {
        Format::Float32
    } else {
        f
    };
    let ghost none: Seq<Tensor<T>> = Seq::empty();
    let (token_embed, next) = match read_next(
        buf,
        HEADER_SIZE,
        c.vocab_size,
        c.hidden_dim,
        f,
        g,
        Ghost(pos),
        Ghost(shapes),
        Ghost(none),
    ) {
        Err(e) => return Err(e),
        Ok(x) => x,
    };
    let mut at: usize = next;
    let mut blocks: Vec<BlockMasters<T>> = Vec::new();
    proof {
        assert(none.push(token_embed) =~= seq![token_embed] + blocks_items(
            blocks_parts(blocks@),
            0,
        ));
    }
    while blocks.len() < c.n_blocks
        invariant
            pos == HEADER_SIZE,
            shapes == shapes_of(c),
            cd == config_dims(c),
            blocks@.len() <= c.n_blocks,
            weights_read(
                seq![token_embed] + blocks_items(blocks_parts(blocks@), blocks@.len()),
                f,
                buf@,
                pos,
                shapes,
                at as int,
            ),
            blocks_items(blocks_parts(blocks@), blocks@.len()).len() == blocks_items(
                cd.blocks,
                blocks@.len(),
            ).len(),
            forall|j: int| 0 <= j < blocks@.len() ==> block_shaped(#[trigger] blocks@[j], c),
        decreases c.n_blocks - blocks@.len(),
    {
        let ghost j = blocks@.len();
        let ghost before = blocks@;
        let ghost so_far = seq![token_embed] + blocks_items(blocks_parts(blocks@), j);
        let (block, next) = match read_block(buf, at, &c, f, Ghost(j), Ghost(so_far)) {
            Err(e) => return Err(e),
            Ok(x) => x,
        };
        blocks.push(block);
        at = next;
        proof {
            lemma_blocks_same(blocks_parts(before), blocks_parts(blocks@), j);
            assert(so_far + block_items(block.parts()) =~= seq![token_embed] + blocks_items(
                blocks_parts(blocks@),
                j + 1,
            ));
            lemma_heads_len(block.parts().heads, block.heads@.len());
            lemma_heads_len(block_dims(c).heads, c.n_heads as nat);
            assert(cd.blocks[j as int] == block_dims(c));
        }
    }
    let r = Model { token_embed, blocks, config: c };
    proof {
        assert(items(r.parts()) =~= seq![token_embed] + blocks_items(
            blocks_parts(blocks@),
            blocks@.len(),
        ));
    }
    Ok((r, at))
}

/// Reads one full-width tensor of the shape of each weight.
fn read_moments<T: Float>(
    buf: &[u8],
    at: usize,
    params: &Vec<&Tensor<T>>,
    Ghost(pos): Ghost<int>,
    Ghost(shapes): Ghost<Seq<Seq<usize>>>,
    Ghost(first): Ghost<nat>,
) -> (r: Result<(Vec<Tensor<T>>, usize), ReadError>)
    requires
        at <= buf@.len(),
        weights_end(Format::Float32, buf@, pos, shapes, first) == Ok::<int, ReadError>(at as int),
        first + params@.len() <= shapes.len(),
        forall|k: int|
            0 <= k < params@.len() ==> {
                &&& (#[trigger] params@[k]).wf()
                &&& params@[k].shape@ == shapes[first + k]
            },
    ensures
        match r {
            Err(e) => weights_end(Format::Float32, buf@, pos, shapes, shapes.len()) == Err::<
                int,
                ReadError,
            >(e),
            Ok(x) => {
                &&& x.0@.len() == params@.len()
                &&& x.1 <= buf@.len()
                &&& weights_end(Format::Float32, buf@, pos, shapes, first + params@.len()) == Ok::<
                    int,
                    ReadError,
                >(x.1 as int)
                &&& forall|k: int|
                    0 <= k < params@.len() ==> is_weight(
                        #[trigger] x.0@[k],
                        Format::Float32,
                        buf@,
                        pos,
                        shapes,
                        (first + k) as nat,
                    )
            },
        },
{
    let mut out: Vec<Tensor<T>> = Vec::new();
    let mut at: usize = at;
    let mut k: usize = 0;
    while k < params.len()
        invariant
            k <= params@.len(),
            first + params@.len() <= shapes.len(),
            forall|k: int|
                0 <= k < params@.len() ==> {
                    &&& (#[trigger] params@[k]).wf()
                    &&& params@[k].shape@ == shapes[first + k]
                },
            at <= buf@.len(),
            weights_end(Format::Float32, buf@, pos, shapes, (first + k) as nat) == Ok::<
                int,
                ReadError,
            >(at as int),
            out@.len() == k,
            forall|q: int|
                0 <= q < k ==> is_weight(
                    #[trigger] out@[q],
                    Format::Float32,
                    buf@,
                    pos,
                    shapes,
                    (first + q) as nat,
                ),
        decreases params@.len() - k,
    {
        let p: &Tensor<T> = params[k];
        proof {
            assert(params@[k as int].wf());
        }
        let shape = copy_slice(p.shape.as_slice());
        match read_tensor(buf, at, shape, p.data.len(), Format::Float32) {
            Err(e) => {
                proof {
                    let n = (first + k + 1) as nat;
                    assert(weights_end(Format::Float32, buf@, pos, shapes, n) is Err);
                    lemma_end_stays(Format::Float32, buf@, pos, shapes, n, shapes.len());
                }
                return Err(e);
            },
            Ok(x) => {
                out.push(x.0);
                at = x.1;
            },
        }
        k += 1;
    }
    Ok((out, at))
}

/// Reads the body of the optimiser section, and says where it ends.
fn read_optim_state<T: Float>(
    buf: &[u8],
    pos: usize,
    model: &Model<T>,
    Ghost(shapes): Ghost<Seq<Seq<usize>>>,
) -> (r: Result<(OptimState<T>, usize), ReadError>)
    requires
        pos <= buf@.len(),
        model.wf(),
        items(model.parts()).len() == shapes.len(),
        forall|k: int|
            0 <= k < shapes.len() ==> (#[trigger] items(model.parts())[k]).shape@ == shapes[k],
    ensures
        ({
            let all = shapes + shapes;
            let end = weights_end(Format::Float32, buf@, pos + 4, all, all.len());
            match r {
                Err(e) => if buf@.len() - pos < 4 {
                    e == ReadError::UnexpectedEof
                } else {
                    end == Err::<int, ReadError>(e)
                },
                Ok(x) => {
                    &&& buf@.len() - pos >= 4
                    &&& end == Ok::<int, ReadError>(x.1 as int)
                    &&& pos < x.1 <= buf@.len()
                    &&& optim_read(x.0, buf@, pos as int, shapes)
                },
            }
        }),
{
    let ghost all = shapes + shapes;
    proof {
        assert(buf@.len() == buf.len());
    }
    let step_count: u32 = match get_u32(buf, pos) {
        Err(e) => return Err(e),
        Ok(x) => x,
    };
    let params = model.params();
    proof {
        assert forall|k: int| 0 <= k < params@.len() implies {
            &&& (#[trigger] params@[k]).wf()
            &&& params@[k].shape@ == all[0 + k]
            &&& params@[k].shape@ == all[shapes.len() + k]
        } by {
            assert(items(model.parts())[k].wf());
            assert(items(model.parts())[k].shape@ == shapes[k]);
        }
    }
    let ghost body = pos + 4;
    let (m, at) = match read_moments(
        buf,
        pos + 4,
        &params,
        Ghost(body),
        Ghost(all),
        Ghost(0nat),
    ) {
        Err(e) => return Err(e),
        Ok(x) => x,
    };
    let ghost n = shapes.len();
    let (v, end) = match read_moments(buf, at, &params, Ghost(body), Ghost(all), Ghost(n)) {
        Err(e) => return Err(e),
        Ok(x) => x,
    };
    proof {
        lemma_end_grows(Format::Float32, buf@, body, all, all.len());
        assert forall|i: int| 0 <= i < shapes.len() implies is_weight(
            #[trigger] m@[i],
            Format::Float32,
            buf@,
            body,
            all,
            i as nat,
        ) by {
            assert(is_weight(m@[i], Format::Float32, buf@, body, all, (0 + i) as nat));
        }
    }
    Ok((OptimState { step_count, m, v }, end))
}

/// Reading goes forward.
proof fn lemma_end_grows(f: Format, buf: Seq<u8>, pos: int, shapes: Seq<Seq<usize>>, k: nat)
    ensures
        weights_end(f, buf, pos, shapes, k) is Ok ==> weights_end(f, buf, pos, shapes, k)->Ok_0
            >= pos,
    decreases k,
{
    if k > 0 {
        lemma_end_grows(f, buf, pos, shapes, (k - 1) as nat);
    }
}

/// Reads a checkpoint: the model, its encoding, and the optimiser's state and
/// the tokeniser where the trailing sections hold them. Fewer than four bytes
/// after the last section are left unread.
pub fn import<T: Float>(buf: &[u8]) -> (r: Result<
    (Model<T>, Format, Option<OptimState<T>>, Option<Bpe>),
    ReadError,
>)
    ensures
        import_post(buf@, r),
{
    proof {
        assert(buf@.len() == buf.len());
    }
    let (f, c) = match read_header(buf) {
        Err(e) => return Err(e),
        Ok(x) => x,
    };
    let ghost shapes = shapes_of(c);
    let (model, start): (Model<T>, usize) = match read_model(buf, c, f) {
        Err(e) => return Err(e),
        Ok(x) => x,
    };
    proof {
        lemma_shaped_wf(model);
        assert forall|k: int| 0 <= k < shapes.len() implies (#[trigger] items(
            model.parts(),
        )[k]).shape@ == shapes[k] by {
            assert(is_weight(
                items(model.parts())[k],
                f,
                buf@,
                HEADER_SIZE as int,
                shapes,
                k as nat,
            ));
        }
    }
    let mut optim: Option<OptimState<T>> = None;
    let mut bpe: Option<Bpe> = None;
    let ghost mut o: Option<int> = None;
    let ghost mut b: Option<Seq<(u32, u32)>> = None;
    let mut at: usize = start;
    while buf.len() - at >= 4
        invariant
            at <= buf@.len() <= usize::MAX,
            model.wf(),
            items(model.parts()).len() == shapes.len(),
            forall|k: int|
                0 <= k < shapes.len() ==> (#[trigger] items(model.parts())[k]).shape@ == shapes[k],
            trailer(buf@, start as int, shapes, None, None) == trailer(
                buf@,
                at as int,
                shapes,
                o,
                b,
            ),
            header_of(buf@) == Ok::<(Format, ModelConfig), ReadError>((f, c)),
            shapes == shapes_of(c),
            weights_end(f, buf@, HEADER_SIZE as int, shapes, shapes.len()) == Ok::<int, ReadError>(
                start as int,
            ),
            optim_matches(optim, buf@, o, shapes),
            bpe_matches(bpe, b),
        decreases buf@.len() - at,
    {
        let marker: u32 = match get_u32(buf, at) {
            Err(e) => return Err(e),
            Ok(x) => x,
        };
        if marker == OPTM_MARKER {
            match read_optim_state(buf, at + 4, &model, Ghost(shapes)) {
                Err(e) => return Err(e),
                Ok(x) => {
                    proof {
                        o = Some(at + 4);
                    }
                    optim = Some(x.0);
                    at = x.1;
                },
            }
        } else if marker == BPE_MARKER {
            match Bpe::load_at(buf, at + 4) {
                Err(e) => return Err(e),
                Ok(x) => {
                    proof {
                        b = Some(x.0.merges@);
                    }
                    bpe = Some(x.0);
                    at = x.1;
                },
            }
        } else {
            return Err(ReadError::UnknownMarker(marker));
        }
    }
    Ok((model, f, optim, bpe))
}

/// What a tensor becomes when it is written and read back.
pub open spec fn decoded<T: Float>(f: Format, a: Array<T>) -> Array<T> {
    Array {
        data: Seq::new(
            a.data.len(),
            |k: int|
                match f {
                    Format::Float32 => fbits::<T>(fpattern(a.data[k])),
                    Format::MastersBf16 => fbits::<T>(
                        widened_bits(narrowed(fpattern(a.data[k]))),
                    ),
                    Format::Ternary => fmul(
                        fsmall::<T>(cuts(a)[k]),
                        fbits::<T>(fpattern(absmean(a.data))),
                    ),
                    Format::TernaryPacked => fmul(
                        fsmall::<T>(trits(a)[k]),
                        fbits::<T>(fpattern(absmean(a.data))),
                    ),
                },
        ),
        dims: a.dims,
    }
}

/// Every full-width item reads back from its place.
proof fn lemma_f32_round<T: Float>(head: Seq<u8>, a: Array<T>, tail: Seq<u8>)
    requires
        a.wf(),
    ensures
        tensor_bytes(Format::Float32, a).len() == 4 * a.data.len(),
        tensor_at::<T>(
            Format::Float32,
            head + tensor_bytes(Format::Float32, a) + tail,
            head.len() as int,
            a.dims,
        ) == decoded(Format::Float32, a),
{
    let rows = f32_rows(a.data);
    let mid = flat(a.data.len(), rows);
    let buf = head + mid + tail;
    assert forall|k: nat| k < a.data.len() implies (#[trigger] rows(k)).len() == 4 by {
        lemma_u32_bytes(fpattern(a.data[k as int]));
    }
    lemma_flat_len(a.data.len(), 4, rows);
    let got = tensor_at::<T>(Format::Float32, buf, head.len() as int, a.dims);
    assert forall|k: int| 0 <= k < a.data.len() implies #[trigger] got.data[k] == decoded(
        Format::Float32,
        a,
    ).data[k] by {
        lemma_flat_row(a.data.len(), 4, rows, k as nat);
        let x = fpattern(a.data[k]);
        lemma_u32_bytes(x);
        assert(rows(k as nat) == u32_bytes(x));
        assert(buf.subrange(head.len() + 4 * k, head.len() + 4 * k + 4) =~= mid.subrange(
            (k * 4) as int,
            (k * 4 + 4) as int,
        ));
    }
    assert(got =~= decoded(Format::Float32, a));
}

/// Every half-width item reads back from its place.
proof fn lemma_bf16_round<T: Float>(head: Seq<u8>, a: Array<T>, tail: Seq<u8>)
    requires
        a.wf(),
    ensures
        tensor_bytes(Format::MastersBf16, a).len() == 2 * a.data.len(),
        tensor_at::<T>(
            Format::MastersBf16,
            head + tensor_bytes(Format::MastersBf16, a) + tail,
            head.len() as int,
            a.dims,
        ) == decoded(Format::MastersBf16, a),
{
    let rows = bf16_rows(a.data);
    let mid = flat(a.data.len(), rows);
    let buf = head + mid + tail;
    assert forall|k: nat| k < a.data.len() implies (#[trigger] rows(k)).len() == 2 by {
        lemma_u16_bytes(narrowed(fpattern(a.data[k as int])));
    }
    lemma_flat_len(a.data.len(), 2, rows);
    let got = tensor_at::<T>(Format::MastersBf16, buf, head.len() as int, a.dims);
    assert forall|k: int| 0 <= k < a.data.len() implies #[trigger] got.data[k] == decoded(
        Format::MastersBf16,
        a,
    ).data[k] by {
        lemma_flat_row(a.data.len(), 2, rows, k as nat);
        let x = narrowed(fpattern(a.data[k]));
        lemma_u16_bytes(x);
        assert(rows(k as nat) == u16_bytes(x));
        assert(buf.subrange(head.len() + 2 * k, head.len() + 2 * k + 2) =~= mid.subrange(
            (k * 2) as int,
            (k * 2 + 2) as int,
        ));
    }
    assert(got =~= decoded(Format::MastersBf16, a));
}

/// Every one-byte item reads back from its place.
proof fn lemma_ternary_round<T: Float>(head: Seq<u8>, a: Array<T>, tail: Seq<u8>)
    requires
        a.wf(),
    ensures
        tensor_bytes(Format::Ternary, a).len() == 4 + a.data.len(),
        tensor_at::<T>(
            Format::Ternary,
            head + tensor_bytes(Format::Ternary, a) + tail,
            head.len() as int,
            a.dims,
        ) == decoded(Format::Ternary, a),
{
    let x = fpattern(absmean(a.data));
    let mid = Seq::new(a.data.len(), |k: int| #[verifier::truncate] (cuts(a)[k] as u8));
    let buf = head + tensor_bytes(Format::Ternary, a) + tail;
    lemma_u32_bytes(x);
    assert(buf =~= head + u32_bytes(x) + (mid + tail));
    lemma_u32_at(head, x, mid + tail);
    let got = tensor_at::<T>(Format::Ternary, buf, head.len() as int, a.dims);
    assert forall|k: int| 0 <= k < a.data.len() implies #[trigger] got.data[k] == decoded(
        Format::Ternary,
        a,
    ).data[k] by {
        assert(buf[head.len() + 4 + k] == mid[k]);
        let q: i8 = cuts(a)[k];
        assert(#[verifier::truncate] ((#[verifier::truncate] (q as u8)) as i8) == q)
            by (bit_vector);
    }
    assert(got =~= decoded(Format::Ternary, a));
}

/// Every packed item reads back from its place.
proof fn lemma_packed_round<T: Float>(head: Seq<u8>, a: Array<T>, tail: Seq<u8>)
    requires
        a.wf(),
    ensures
        tensor_bytes(Format::TernaryPacked, a).len() == 4 + packed_len(a.data.len()),
        tensor_at::<T>(
            Format::TernaryPacked,
            head + tensor_bytes(Format::TernaryPacked, a) + tail,
            head.len() as int,
            a.dims,
        ) == decoded(Format::TernaryPacked, a),
{
    let x = fpattern(absmean(a.data));
    let ds = trits(a);
    let mid = packed_of(ds);
    let buf = head + tensor_bytes(Format::TernaryPacked, a) + tail;
    lemma_u32_bytes(x);
    assert(buf =~= head + u32_bytes(x) + (mid + tail));
    lemma_u32_at(head, x, mid + tail);
    let got = tensor_at::<T>(Format::TernaryPacked, buf, head.len() as int, a.dims);
    assert forall|k: int| 0 <= k < a.data.len() implies #[trigger] got.data[k] == decoded(
        Format::TernaryPacked,
        a,
    ).data[k] by {
        let c = k / 5;
        let i = k % 5;
        assert(0 <= c < packed_len(ds.len()));
        assert(buf[head.len() + 4 + c] == mid[c]);
        let chunk = chunk_at(ds, 5 * c);
        assert(are_trits(chunk));
        lemma_trit_bound(chunk);
        lemma_pow3();
        assert(chunk.len() <= 5);
        assert(pow3(chunk.len()) <= 243);
        assert(mid[c] == trit_value(chunk));
        assert(i < chunk.len());
        law_pack_unpack(chunk, i as nat);
        assert(chunk[i] == ds[k]);
    }
    assert(got =~= decoded(Format::TernaryPacked, a));
}

/// What was written of a tensor reads back decoded, whatever comes before and after it.
pub proof fn law_tensor_round_trip<T: Float>(f: Format, head: Seq<u8>, a: Array<T>, tail: Seq<u8>)
    requires
        a.wf(),
    ensures
        tensor_bytes(f, a).len() == tensor_size(f, a.data.len()),
        tensor_at::<T>(f, head + tensor_bytes(f, a) + tail, head.len() as int, a.dims) == decoded(
            f,
            a,
        ),
{
    match f {
        Format::Float32 => lemma_f32_round(head, a, tail),
        Format::MastersBf16 => lemma_bf16_round(head, a, tail),
        Format::Ternary => lemma_ternary_round(head, a, tail),
        Format::TernaryPacked => lemma_packed_round(head, a, tail),
    }
}

/// The tensors are sound, countable and of the listed shapes.
pub open spec fn match_shapes<T: Float>(s: Seq<Array<T>>, shapes: Seq<Seq<usize>>) -> bool {
    &&& s.len() == shapes.len()
    &&& forall|k: int|
        0 <= k < s.len() ==> {
            &&& (#[trigger] s[k]).wf()
            &&& s[k].dims == shapes[k]
            &&& s[k].data.len() <= usize::MAX
        }
}

/// The bytes of the later weights follow those of the first `k`.
proof fn lemma_weights_split<T: Float>(f: Format, s: Seq<Array<T>>, k: nat, n: nat) -> (rest: Seq<
    u8,
>)
    requires
        k <= n,
    ensures
        weight_bytes(f, s, n) == weight_bytes(f, s, k) + rest,
    decreases n,
{
    if k == n {
        assert(weight_bytes(f, s, n) =~= weight_bytes(f, s, k) + Seq::<u8>::empty());
        Seq::empty()
    } else {
        let rest = lemma_weights_split(f, s, k, (n - 1) as nat);
        let more = rest + tensor_bytes(format_at(f, (n - 1) as nat), s[n - 1]);
        assert(weight_bytes(f, s, n) =~= weight_bytes(f, s, k) + more);
        more
    }
}

/// The first `k` written weights end where their bytes do, and each reads back decoded.
proof fn lemma_weights_round<T: Float>(
    f: Format,
    head: Seq<u8>,
    s: Seq<Array<T>>,
    shapes: Seq<Seq<usize>>,
    tail: Seq<u8>,
    k: nat,
)
    requires
        match_shapes(s, shapes),
        k <= s.len(),
    ensures
        ({
            let buf = head + weight_bytes(f, s, s.len()) + tail;
            &&& weights_end(f, buf, head.len() as int, shapes, k) == Ok::<int, ReadError>(
                (head.len() + weight_bytes(f, s, k).len()) as int,
            )
            &&& forall|i: int|
                0 <= i < k ==> #[trigger] weight_at::<T>(
                    f,
                    buf,
                    head.len() as int,
                    shapes,
                    i as nat,
                ) == decoded(format_at(f, i as nat), s[i])
        }),
    decreases k,
{
    let buf = head + weight_bytes(f, s, s.len()) + tail;
    if k > 0 {
        lemma_weights_round(f, head, s, shapes, tail, (k - 1) as nat);
        let a = s[k - 1];
        let g = format_at(f, (k - 1) as nat);
        let rest = lemma_weights_split(f, s, k, s.len());
        let before = head + weight_bytes(f, s, (k - 1) as nat);
        assert(buf =~= before + tensor_bytes(g, a) + (rest + tail));
        law_tensor_round_trip(g, before, a, rest + tail);
        assert(a.wf() && a.dims == shapes[k - 1] && a.data.len() <= usize::MAX);
        assert forall|i: int| 0 <= i < k implies #[trigger] weight_at::<T>(
            f,
            buf,
            head.len() as int,
            shapes,
            i as nat,
        ) == decoded(format_at(f, i as nat), s[i]) by {
            if i == k - 1 {
                assert(weights_end(f, buf, head.len() as int, shapes, i as nat)->Ok_0
                    == before.len());
            }
        }
    }
}

/// Every size of a configuration fits in 32 bits.
pub open spec fn config_fits(c: ModelConfig) -> bool {
    &&& c.vocab_size <= u32::MAX
    &&& c.hidden_dim <= u32::MAX
    &&& c.n_heads <= u32::MAX
    &&& c.head_dim <= u32::MAX
    &&& c.ffn_dim <= u32::MAX
    &&& c.max_seq_len <= u32::MAX
    &&& c.n_blocks <= u32::MAX
}

/// A written header reads back as itself.
pub proof fn law_header_round_trip(c: ModelConfig, f: Format, tail: Seq<u8>)
    requires
        config_fits(c),
    ensures
        header_bytes(c, f).len() == HEADER_SIZE,
        header_of(header_bytes(c, f) + tail) == Ok::<(Format, ModelConfig), ReadError>((f, c)),
{
    lemma_header_len(c, f);
    let buf = header_bytes(c, f) + tail;
    let h0 = u32_bytes(MAGIC);
    let h1 = h0 + seq![format_byte(f)];
    let (x1, x2, x3, x4, x5, x6, x7) = (
        c.vocab_size as u32,
        c.hidden_dim as u32,
        c.n_heads as u32,
        c.head_dim as u32,
        c.ffn_dim as u32,
        c.max_seq_len as u32,
        c.n_blocks as u32,
    );
    let h2 = h1 + u32_bytes(x1);
    let h3 = h2 + u32_bytes(x2);
    let h4 = h3 + u32_bytes(x3);
    let h5 = h4 + u32_bytes(x4);
    let h6 = h5 + u32_bytes(x5);
    let h7 = h6 + u32_bytes(x6);
    let h8 = h7 + u32_bytes(x7);
    assert(buf == h8 + tail);
    lemma_u32_bytes(MAGIC);
    lemma_u32_bytes(x1);
    lemma_u32_bytes(x2);
    lemma_u32_bytes(x3);
    lemma_u32_bytes(x4);
    lemma_u32_bytes(x5);
    lemma_u32_bytes(x6);
    lemma_u32_bytes(x7);
    let e = Seq::<u8>::empty();
    assert(buf =~= e + h0 + buf.skip(4));
    lemma_u32_at(e, MAGIC, buf.skip(4));
    assert(buf[4] == format_byte(f));
    assert(buf =~= h1 + u32_bytes(x1) + buf.skip(9));
    lemma_u32_at(h1, x1, buf.skip(9));
    assert(buf =~= h2 + u32_bytes(x2) + buf.skip(13));
    lemma_u32_at(h2, x2, buf.skip(13));
    assert(buf =~= h3 + u32_bytes(x3) + buf.skip(17));
    lemma_u32_at(h3, x3, buf.skip(17));
    assert(buf =~= h4 + u32_bytes(x4) + buf.skip(21));
    lemma_u32_at(h4, x4, buf.skip(21));
    assert(buf =~= h5 + u32_bytes(x5) + buf.skip(25));
    lemma_u32_at(h5, x5, buf.skip(25));
    assert(buf =~= h6 + u32_bytes(x6) + buf.skip(29));
    lemma_u32_at(h6, x6, buf.skip(29));
    assert(buf =~= h7 + u32_bytes(x7) + buf.skip(33));
    lemma_u32_at(h7, x7, buf.skip(33));
}

/// Bytes that start with another magic number are refused, and so are those whose format
/// byte stands for no format.
pub proof fn law_other_header_refused(buf: Seq<u8>)
    ensures
        buf.len() >= 4 && u32_at(buf, 0) != MAGIC ==> header_of(buf) == Err::<
            (Format, ModelConfig),
            ReadError,
        >(ReadError::BadMagic),
        buf.len() >= 5 && u32_at(buf, 0) == MAGIC && buf[4] > 3 ==> header_of(buf) == Err::<
            (Format, ModelConfig),
            ReadError,
        >(ReadError::UnknownFormat(buf[4])),
        buf.len() >= 4 && u32_at(buf, 0) != MAGIC ==> parsed(buf) == Err::<Checkpoint, ReadError>(
            ReadError::BadMagic,
        ),
        buf.len() >= 5 && u32_at(buf, 0) == MAGIC && buf[4] > 3 ==> parsed(buf) == Err::<
            Checkpoint,
            ReadError,
        >(ReadError::UnknownFormat(buf[4])),
{
}

/// Where the optimiser section's body starts, for sections that start at `pos`.
pub open spec fn optim_place<T: Float>(o: Option<OptimArrays<T>>, pos: int) -> Option<int> {
    match o {
        Some(o) => Some(pos + 4),
        None => None,
    }
}

/// The sections can be written: the moments have the listed shapes and the merges are valid.
pub open spec fn sections_ok<T: Float>(
    o: Option<OptimArrays<T>>,
    b: Option<Seq<(u32, u32)>>,
    shapes: Seq<Seq<usize>>,
) -> bool {
    &&& match o {
        Some(o) => match_shapes(o.m, shapes) && match_shapes(o.v, shapes),
        None => true,
    }
    &&& match b {
        Some(m) => crate::bpe::valid_merges(m) && crate::bpe::BPE_BASE + m.len()
            <= 0x1_0000_0000,
        None => true,
    }
}

/// Nothing is read where nothing is left.
proof fn lemma_trailer_ends(
    buf: Seq<u8>,
    shapes: Seq<Seq<usize>>,
    o: Option<int>,
    b: Option<Seq<(u32, u32)>>,
)
    ensures
        trailer(buf, buf.len() as int, shapes, o, b) == Ok::<
            (Option<int>, Option<Seq<(u32, u32)>>),
            ReadError,
        >((o, b)),
{
}

/// A written tokeniser section reads back as itself.
proof fn lemma_bpe_section(
    head: Seq<u8>,
    m: Seq<(u32, u32)>,
    shapes: Seq<Seq<usize>>,
    o: Option<int>,
)
    requires
        crate::bpe::valid_merges(m),
        crate::bpe::BPE_BASE + m.len() <= 0x1_0000_0000,
    ensures
        trailer(head + bpe_bytes(m), head.len() as int, shapes, o, None) == Ok::<
            (Option<int>, Option<Seq<(u32, u32)>>),
            ReadError,
        >((o, Some(m))),
{
    let buf = head + bpe_bytes(m);
    let e = Seq::<u8>::empty();
    lemma_u32_bytes(BPE_MARKER);
    assert(buf =~= head + u32_bytes(BPE_MARKER) + saved(m));
    lemma_u32_at(head, BPE_MARKER, saved(m));
    let front = head + u32_bytes(BPE_MARKER);
    assert(buf =~= front + saved(m) + e);
    crate::bpe::law_save_load(m, front, e);
    crate::bpe::lemma_saved_len(m);
    assert(buf.len() == head.len() + 12 + 8 * m.len());
    lemma_trailer_ends(buf, shapes, o, Some(m));
}

/// The bytes of a checkpoint, with the tokeniser's section where there is one.
pub open spec fn file_bytes<T: Float>(
    f: Format,
    c: ModelConfig,
    s: Seq<Array<T>>,
    o: Option<OptimArrays<T>>,
    b: Option<Seq<(u32, u32)>>,
) -> Seq<u8> {
    exported(f, c, s, o) + match b {
        Some(m) => bpe_bytes(m),
        None => seq![],
    }
}

/// A checkpoint reads back as what it was written from: the format, the
/// configuration, every weight decoded, the optimiser's state at full width and
/// the tokeniser.
pub proof fn law_import_export<T: Float>(
    f: Format,
    c: ModelConfig,
    s: Seq<Array<T>>,
    o: Option<OptimArrays<T>>,
    b: Option<Seq<(u32, u32)>>,
)
    requires
        config_fits(c),
        match_shapes(s, shapes_of(c)),
        sections_ok(o, b, shapes_of(c)),
    ensures
        ({
            let file = file_bytes(f, c, s, o, b);
            let at = HEADER_SIZE + weight_bytes(f, s, s.len()).len();
            &&& parsed(file) == Ok::<Checkpoint, ReadError>(
                Checkpoint { format: f, config: c, optim: optim_place(o, at), bpe: b },
            )
            &&& forall|k: int|
                0 <= k < s.len() ==> #[trigger] weight_at::<T>(
                    f,
                    file,
                    HEADER_SIZE as int,
                    shapes_of(c),
                    k as nat,
                ) == decoded(format_at(f, k as nat), s[k])
            &&& o is Some ==> {
                &&& u32_at(file, at + 4) == o->0.step_count
                &&& forall|k: int|
                    0 <= k < 2 * s.len() ==> #[trigger] weight_at::<T>(
                        Format::Float32,
                        file,
                        at + 8,
                        shapes_of(c) + shapes_of(c),
                        k as nat,
                    ) == decoded(Format::Float32, (o->0.m + o->0.v)[k])
            }
        }),
{
    let shapes = shapes_of(c);
    let tok: Seq<u8> = match b {
        Some(m) => bpe_bytes(m),
        None => seq![],
    };
    let opt: Seq<u8> = match o {
        Some(o) => optim_bytes(o),
        None => seq![],
    };
    let file = exported(f, c, s, o) + tok;
    let head = header_bytes(c, f);
    let body = weight_bytes(f, s, s.len());
    lemma_header_len(c, f);
    assert(file =~= head + (body + opt + tok));
    law_header_round_trip(c, f, body + opt + tok);
    assert(file =~= head + body + (opt + tok));
    lemma_weights_round(f, head, s, shapes, opt + tok, s.len());
    let front = head + body;
    let at = front.len() as int;
    assert(file =~= front + (opt + tok));
    if o is Some {
        let st = o->0;
        let two = shapes + shapes;
        let both = st.m + st.v;
        lemma_u32_bytes(OPTM_MARKER);
        lemma_u32_bytes(st.step_count);
        let moments = weight_bytes(Format::Float32, both, both.len());
        assert(file =~= front + u32_bytes(OPTM_MARKER) + (u32_bytes(st.step_count) + moments
            + tok));
        lemma_u32_at(front, OPTM_MARKER, u32_bytes(st.step_count) + moments + tok);
        let f1 = front + u32_bytes(OPTM_MARKER);
        assert(file =~= f1 + u32_bytes(st.step_count) + (moments + tok));
        lemma_u32_at(f1, st.step_count, moments + tok);
        let f2 = f1 + u32_bytes(st.step_count);
        assert(file =~= f2 + moments + tok);
        assert(match_shapes(both, two)) by {
            assert forall|k: int| 0 <= k < both.len() implies {
                &&& (#[trigger] both[k]).wf()
                &&& both[k].dims == two[k]
                &&& both[k].data.len() <= usize::MAX
            } by {
                if k < st.m.len() {
                    assert(st.m[k].wf());
                } else {
                    assert(st.v[k - st.m.len()].wf());
                }
            }
        }
        lemma_weights_round(Format::Float32, f2, both, two, tok, both.len());
        let done = f2 + moments;
        assert(file =~= done + tok);
        assert(trailer(file, at, shapes, None, None) == trailer(
            file,
            done.len() as int,
            shapes,
            Some(at + 4),
            None,
        ));
        if b is Some {
            lemma_bpe_section(done, b->0, shapes, Some(at + 4));
        } else {
            lemma_trailer_ends(file, shapes, Some(at + 4), None);
        }
        assert forall|k: int| 0 <= k < 2 * s.len() implies #[trigger] weight_at::<T>(
            Format::Float32,
            file,
            at + 8,
            two,
            k as nat,
        ) == decoded(Format::Float32, both[k]) by {
            assert(f2.len() == at + 8);
        }
    } else {
        assert(file =~= front + tok);
        if b is Some {
            lemma_bpe_section(front, b->0, shapes, None);
        } else {
            lemma_trailer_ends(file, shapes, None, None);
        }
    }
}

/// Where the weights end in whole bytes, those of cut bytes run out.
proof fn lemma_weights_cut<T: Float>(
    f: Format,
    buf: Seq<u8>,
    pos: int,
    s: Seq<Array<T>>,
    shapes: Seq<Seq<usize>>,
    k: nat,
    n: int,
)
    requires
        match_shapes(s, shapes),
        k <= s.len(),
        0 <= pos <= n <= buf.len(),
        weights_end(f, buf, pos, shapes, k) is Ok,
    ensures
        pos <= weights_end(f, buf, pos, shapes, k)->Ok_0,
        weights_end(f, buf, pos, shapes, k)->Ok_0 <= n ==> weights_end(
            f,
            buf.take(n),
            pos,
            shapes,
            k,
        ) == weights_end(f, buf, pos, shapes, k),
        n < weights_end(f, buf, pos, shapes, k)->Ok_0 ==> weights_end(
            f,
            buf.take(n),
            pos,
            shapes,
            k,
        ) == Err::<int, ReadError>(ReadError::UnexpectedEof),
    decreases k,
{
    if k > 0 {
        lemma_weights_cut(f, buf, pos, s, shapes, (k - 1) as nat, n);
        assert(s[k - 1].wf());
    }
}

/// A checkpoint that is cut short anywhere runs out of bytes.
pub proof fn law_cut_export_ends_early<T: Float>(
    f: Format,
    c: ModelConfig,
    s: Seq<Array<T>>,
    n: int,
)
    requires
        config_fits(c),
        match_shapes(s, shapes_of(c)),
        0 <= n < exported(f, c, s, None).len(),
    ensures
        parsed(exported(f, c, s, None).take(n)) == Err::<Checkpoint, ReadError>(
            ReadError::UnexpectedEof,
        ),
{
    let file = exported(f, c, s, None);
    let head = header_bytes(c, f);
    let body = weight_bytes(f, s, s.len());
    let cut = file.take(n);
    let e = Seq::<u8>::empty();
    lemma_header_len(c, f);
    assert(file =~= head + body);
    law_header_round_trip(c, f, body);
    if n >= 4 {
        assert(cut.subrange(0, 4) =~= file.subrange(0, 4));
        if n >= 5 {
            assert(cut[4] == file[4]);
        }
    }
    if n >= HEADER_SIZE {
        assert(cut =~= head + body.take(n - HEADER_SIZE));
        law_header_round_trip(c, f, body.take(n - HEADER_SIZE));
        assert(file =~= head + body + e);
        lemma_weights_round(f, head, s, shapes_of(c), e, s.len());
        lemma_weights_cut(f, file, HEADER_SIZE as int, s, shapes_of(c), s.len(), n);
    }
}

/// After a checkpoint without sections, up to three further bytes are ignored, and more
/// that start with the marker of no section are refused.
pub proof fn law_export_with_tail<T: Float>(
    f: Format,
    c: ModelConfig,
    s: Seq<Array<T>>,
    tail: Seq<u8>,
)
    requires
        config_fits(c),
        match_shapes(s, shapes_of(c)),
    ensures
        ({
            let file = exported(f, c, s, None) + tail;
            &&& tail.len() < 4 ==> parsed(file) == Ok::<Checkpoint, ReadError>(
                Checkpoint { format: f, config: c, optim: None, bpe: None },
            )
            &&& tail.len() >= 4 && u32_at(tail, 0) != OPTM_MARKER && u32_at(tail, 0) != BPE_MARKER
                ==> parsed(file) == Err::<Checkpoint, ReadError>(
                ReadError::UnknownMarker(u32_at(tail, 0)),
            )
            &&& forall|k: int|
                0 <= k < s.len() ==> #[trigger] weight_at::<T>(
                    f,
                    file,
                    HEADER_SIZE as int,
                    shapes_of(c),
                    k as nat,
                ) == decoded(format_at(f, k as nat), s[k])
        }),
{
    let file = exported(f, c, s, None) + tail;
    let head = header_bytes(c, f);
    let body = weight_bytes(f, s, s.len());
    lemma_header_len(c, f);
    assert(file =~= head + (body + tail));
    law_header_round_trip(c, f, body + tail);
    assert(file =~= head + body + tail);
    lemma_weights_round(f, head, s, shapes_of(c), tail, s.len());
    let at = (head + body).len() as int;
    if tail.len() >= 4 {
        assert(file.subrange(at, at + 4) =~= tail.subrange(0, 4));
    }
}

/// A number reads back from its own bit pattern.
pub open spec fn faithful<T: Float>() -> bool {
    forall|x: T| fbits::<T>(#[trigger] fpattern(x)) == x
}

/// At full width nothing is lost: what is read back is what was written.
pub proof fn law_full_width_exact<T: Float>(a: Array<T>)
    requires
        faithful::<T>(),
    ensures
        decoded(Format::Float32, a) == a,
{
    assert(decoded(Format::Float32, a) =~= a);
}

/// At half width nothing is lost of weights that lie on the half-width grid.
pub proof fn law_half_width_grid_exact<T: Float>(a: Array<T>)
    requires
        faithful::<T>(),
        forall|k: int|
            0 <= k < a.data.len() ==> {
                &&& fpattern(#[trigger] a.data[k]) % 0x1_0000 == 0
                &&& fpattern(a.data[k]) % 0x8000_0000 <= 0x7F80_0000
            },
    ensures
        decoded(Format::MastersBf16, a) == a,
{
    assert forall|k: int| 0 <= k < a.data.len() implies decoded(
        Format::MastersBf16,
        a,
    ).data[k] == #[trigger] a.data[k] by {
        crate::tensor::law_grid_kept(fpattern(a.data[k]));
    }
    assert(decoded(Format::MastersBf16, a) =~= a);
}

/// Packed or not, ternary weights read back the same where each is cut to -1, 0 or 1.
pub proof fn law_packing_loses_nothing<T: Float>(a: Array<T>)
    requires
        are_trits(cuts(a)),
    ensures
        decoded(Format::TernaryPacked, a) == decoded(Format::Ternary, a),
{
    assert forall|k: int| 0 <= k < a.data.len() implies #[trigger] trits(a)[k] == cuts(a)[k] by {
        assert(-1 <= cuts(a)[k] <= 1);
    }
    assert(decoded(Format::TernaryPacked, a) =~= decoded(Format::Ternary, a));
}

/// A ternary checkpoint of a tensor is never larger packed than unpacked, and
/// neither is larger than full width for two items or more.
pub proof fn law_sizes_shrink(n: nat)
    ensures
        tensor_size(Format::TernaryPacked, n) <= tensor_size(Format::Ternary, n),
        n >= 2 ==> tensor_size(Format::Ternary, n) <= tensor_size(Format::Float32, n),
        2 * tensor_size(Format::MastersBf16, n) == tensor_size(Format::Float32, n),
{
}

/// The weights of a model of its configured shapes are countable and match the list.
proof fn lemma_model_matches<T: Float>(model: Model<T>)
    requires
        model.shaped(),
    ensures
        match_shapes(arrays(items(model.parts())), shapes_of(model.config)),
{
    let ws = items(model.parts());
    lemma_shaped_items(model);
    assert forall|k: int| 0 <= k < ws.len() implies {
        let a = #[trigger] arrays(ws)[k];
        a.wf() && a.dims == shapes_of(model.config)[k] && a.data.len() <= usize::MAX
    } by {
        assert(ws[k].wf());
        assert(ws[k].data@.len() == ws[k].data.len());
    }
}

/// The bytes that a model is written as, with what goes with it.
pub open spec fn checkpoint<T: Float>(
    f: Format,
    model: Model<T>,
    optim: Option<&OptimState<T>>,
    bpe: Option<Bpe>,
) -> Seq<u8> {
    file_bytes(
        f,
        model.config,
        arrays(items(model.parts())),
        optim_view(optim),
        merges_of(bpe),
    )
}

/// The merges of an optional tokeniser.
pub open spec fn merges_of(bpe: Option<Bpe>) -> Option<Seq<(u32, u32)>> {
    match bpe {
        Some(b) => Some(b.merges@),
        None => None,
    }
}

/// Weight `k` of those that start at `pos` is the decoded item `k` of a list.
#[verifier::opaque]
spec fn holds<T: Float>(
    f: Format,
    buf: Seq<u8>,
    pos: int,
    shapes: Seq<Seq<usize>>,
    s: Seq<Array<T>>,
    k: int,
) -> bool {
    weight_at::<T>(f, buf, pos, shapes, k as nat) == decoded(format_at(f, k as nat), s[k])
}

/// What the bytes of a checkpoint are read as, and what stands at the places of its
/// weights and moments.
proof fn lemma_checkpoint_read<T: Float>(
    f: Format,
    model: Model<T>,
    optim: Option<&OptimState<T>>,
    bpe: Option<Bpe>,
)
    requires
        model.shaped(),
        config_fits(model.config),
        sections_ok(optim_view(optim), merges_of(bpe), shapes_of(model.config)),
    ensures
        ({
            let s = arrays(items(model.parts()));
            let shapes = shapes_of(model.config);
            let at = HEADER_SIZE + weight_bytes(f, s, s.len()).len();
            let file = checkpoint(f, model, optim, bpe);
            &&& parsed(file) == Ok::<Checkpoint, ReadError>(
                Checkpoint {
                    format: f,
                    config: model.config,
                    optim: optim_place(optim_view(optim), at),
                    bpe: merges_of(bpe),
                },
            )
            &&& s.len() == shapes.len()
            &&& forall|k: int|
                0 <= k < s.len() ==> #[trigger] holds(f, file, HEADER_SIZE as int, shapes, s, k)
            &&& optim is Some ==> {
                &&& u32_at(file, at + 4) == optim->0.step_count
                &&& forall|k: int|
                    0 <= k < 2 * s.len() ==> #[trigger] holds(
                        Format::Float32,
                        file,
                        at + 8,
                        shapes + shapes,
                        optim->0@.m + optim->0@.v,
                        k,
                    )
            }
        }),
{
    let s = arrays(items(model.parts()));
    let shapes = shapes_of(model.config);
    let at = HEADER_SIZE + weight_bytes(f, s, s.len()).len();
    let file = checkpoint(f, model, optim, bpe);
    lemma_model_matches(model);
    law_import_export(f, model.config, s, optim_view(optim), merges_of(bpe));
    assert forall|k: int| 0 <= k < s.len() implies #[trigger] holds(
        f,
        file,
        HEADER_SIZE as int,
        shapes,
        s,
        k,
    ) by {
        reveal(holds);
        assert(weight_at::<T>(f, file, HEADER_SIZE as int, shapes, k as nat) == decoded(
            format_at(f, k as nat),
            s[k],
        ));
    }
    if optim is Some {
        let two = shapes + shapes;
        let both = optim->0@.m + optim->0@.v;
        assert forall|k: int| 0 <= k < 2 * s.len() implies #[trigger] holds(
            Format::Float32,
            file,
            at + 8,
            two,
            both,
            k,
        ) by {
            reveal(holds);
            assert(weight_at::<T>(Format::Float32, file, at + 8, two, k as nat)
                == decoded(Format::Float32, both[k]));
        }
    }
}

/// A weight that was read is what stands at its place.
proof fn lemma_read_weight<T: Float>(
    t: Tensor<T>,
    f: Format,
    buf: Seq<u8>,
    pos: int,
    shapes: Seq<Seq<usize>>,
    s: Seq<Array<T>>,
    k: int,
)
    requires
        deterministic::<T>(),
        is_weight(t, f, buf, pos, shapes, k as nat),
        holds(f, buf, pos, shapes, s, k),
    ensures
        t@ == decoded(format_at(f, k as nat), s[k]),
{
    reveal(holds);
}

/// The state reads back at full width.
pub open spec fn moments_back<T: Float>(x: OptimState<T>, y: OptimState<T>) -> bool {
    &&& x.step_count == y.step_count
    &&& x.m@.len() == y.m@.len()
    &&& x.v@.len() == y.v@.len()
    &&& forall|k: int|
        0 <= k < x.m@.len() ==> (#[trigger] x.m@[k])@ == decoded(Format::Float32, y.m@[k]@)
    &&& forall|k: int|
        0 <= k < x.v@.len() ==> (#[trigger] x.v@[k])@ == decoded(Format::Float32, y.v@[k]@)
}

/// An optimiser's state that was read is the one that was written, at full width.
proof fn lemma_read_optim<T: Float>(
    x: OptimState<T>,
    y: OptimState<T>,
    buf: Seq<u8>,
    at: int,
    shapes: Seq<Seq<usize>>,
)
    requires
        deterministic::<T>(),
        optim_read(x, buf, at + 4, shapes),
        u32_at(buf, at + 4) == y.step_count,
        y.m@.len() == shapes.len(),
        y.v@.len() == shapes.len(),
        forall|k: int|
            0 <= k < 2 * shapes.len() ==> #[trigger] holds(
                Format::Float32,
                buf,
                at + 8,
                shapes + shapes,
                y@.m + y@.v,
                k,
            ),
    ensures
        moments_back(x, y),
{
    let n = shapes.len();
    let both = y@.m + y@.v;
    assert forall|k: int| 0 <= k < n implies (#[trigger] x.m@[k])@ == decoded(
        Format::Float32,
        y.m@[k]@,
    ) by {
        lemma_read_weight(
            x.m@[k],
            Format::Float32,
            buf,
            at + 8,
            shapes + shapes,
            both,
            k,
        );
        assert(both[k] == y.m@[k]@);
    }
    assert forall|k: int| 0 <= k < n implies (#[trigger] x.v@[k])@ == decoded(
        Format::Float32,
        y.v@[k]@,
    ) by {
        lemma_read_weight(
            x.v@[k],
            Format::Float32,
            buf,
            at + 8,
            shapes + shapes,
            both,
            n + k,
        );
        assert(both[n + k] == y.v@[k]@);
    }
}

/// Importing what was exported succeeds, in every encoding: the format and the
/// configuration come back, every weight as its encoding keeps it, the optimiser's state
/// at full width where there was one, and the tokeniser where there was one.
pub proof fn law_import_undoes_export<T: Float>(
    f: Format,
    model: Model<T>,
    optim: Option<&OptimState<T>>,
    bpe: Option<Bpe>,
    r: Result<(Model<T>, Format, Option<OptimState<T>>, Option<Bpe>), ReadError>,
)
    requires
        deterministic::<T>(),
        model.shaped(),
        config_fits(model.config),
        sections_ok(optim_view(optim), merges_of(bpe), shapes_of(model.config)),
        import_post(checkpoint(f, model, optim, bpe), r),
    ensures
        r is Ok,
        ({
            let (m, g, o, b) = r->Ok_0;
            let (ws, vs) = (items(model.parts()), items(m.parts()));
            &&& g == f
            &&& m.config == model.config
            &&& m.shaped()
            &&& vs.len() == ws.len()
            &&& forall|k: int|
                0 <= k < ws.len() ==> (#[trigger] vs[k])@ == decoded(format_at(f, k as nat), ws[k]@)
            &&& o is Some <==> optim is Some
            &&& o is Some ==> moments_back(o->0, *optim->0)
            &&& merges_of(b) == merges_of(bpe)
        }),
{
    let ws = items(model.parts());
    let s = arrays(ws);
    let shapes = shapes_of(model.config);
    let file = checkpoint(f, model, optim, bpe);
    let at = HEADER_SIZE + weight_bytes(f, s, s.len()).len();
    lemma_checkpoint_read(f, model, optim, bpe);
    let (m, g, o, b) = r->Ok_0;
    let vs = items(m.parts());
    assert forall|k: int| 0 <= k < ws.len() implies (#[trigger] vs[k])@ == decoded(
        format_at(f, k as nat),
        ws[k]@,
    ) by {
        lemma_read_weight(vs[k], f, file, HEADER_SIZE as int, shapes, s, k);
        assert(s[k] == ws[k]@);
    }
    if optim is Some {
        lemma_read_optim(o->0, *optim->0, file, at as int, shapes);
    }
}

/// A full-width checkpoint gives back the very model and the very optimiser state.
pub proof fn law_full_width_checkpoint<T: Float>(
    model: Model<T>,
    optim: Option<&OptimState<T>>,
    bpe: Option<Bpe>,
    r: Result<(Model<T>, Format, Option<OptimState<T>>, Option<Bpe>), ReadError>,
)
    requires
        deterministic::<T>(),
        faithful::<T>(),
        model.shaped(),
        config_fits(model.config),
        sections_ok(optim_view(optim), merges_of(bpe), shapes_of(model.config)),
        import_post(checkpoint(Format::Float32, model, optim, bpe), r),
    ensures
        r is Ok,
        r->Ok_0.0@ == model@,
        r->Ok_0.0.config == model.config,
        r->Ok_0.1 == Format::Float32,
        r->Ok_0.2 is Some <==> optim is Some,
        optim is Some ==> r->Ok_0.2->0@ == optim->0@,
        merges_of(r->Ok_0.3) == merges_of(bpe),
{
    law_import_undoes_export(Format::Float32, model, optim, bpe, r);
    let (m, g, o, b) = r->Ok_0;
    let (ws, vs) = (items(model.parts()), items(m.parts()));
    lemma_shaped_items(model);
    lemma_shaped_items(m);
    lemma_items_map(model.parts(), view_of::<T>());
    lemma_items_map(m.parts(), view_of::<T>());
    assert forall|k: int| 0 <= k < ws.len() implies #[trigger] items(m@)[k] == items(model@)[k] by {
        assert(vs[k]@ == decoded(Format::Float32, ws[k]@));
        law_full_width_exact(ws[k]@);
    }
    assert(items(m@) =~= items(model@));
    assert forall|j: int| 0 <= j < m@.blocks.len() implies #[trigger] same_block(
        m@.blocks[j],
        model@.blocks[j],
    ) by {
        assert(same_block(m.parts().blocks[j], config_dims(m.config).blocks[j]));
        assert(same_block(model.parts().blocks[j], config_dims(m.config).blocks[j]));
    }
    lemma_items_decide(m@, model@);
    if optim is Some {
        let (x, y) = (o->0, *optim->0);
        assert forall|k: int| 0 <= k < x.m@.len() implies #[trigger] x@.m[k] == y@.m[k] by {
            assert(x.m@[k]@ == decoded(Format::Float32, y.m@[k]@));
            law_full_width_exact(y.m@[k]@);
        }
        assert forall|k: int| 0 <= k < x.v@.len() implies #[trigger] x@.v[k] == y@.v[k] by {
            assert(x.v@[k]@ == decoded(Format::Float32, y.v@[k]@));
            law_full_width_exact(y.v@[k]@);
        }
        assert(x@.m =~= y@.m);
        assert(x@.v =~= y@.v);
    }
}

/// The two ternary encodings give back the same model: the embedding bit for bit, and
/// every other weight as its scale times the ternary integers, where each of these is
/// -1, 0 or 1.
pub proof fn law_ternary_checkpoints_agree<T: Float>(
    model: Model<T>,
    plain: Result<(Model<T>, Format, Option<OptimState<T>>, Option<Bpe>), ReadError>,
    packed: Result<(Model<T>, Format, Option<OptimState<T>>, Option<Bpe>), ReadError>,
)
    requires
        deterministic::<T>(),
        faithful::<T>(),
        model.shaped(),
        config_fits(model.config),
        forall|k: int|
            0 < k < items(model.parts()).len() ==> are_trits(
                cuts((#[trigger] items(model.parts())[k])@),
            ),
        import_post(checkpoint(Format::Ternary, model, None, None), plain),
        import_post(checkpoint(Format::TernaryPacked, model, None, None), packed),
    ensures
        plain is Ok,
        packed is Ok,
        plain->Ok_0.1 == Format::Ternary,
        packed->Ok_0.1 == Format::TernaryPacked,
        plain->Ok_0.2 is None && plain->Ok_0.3 is None,
        packed->Ok_0.2 is None && packed->Ok_0.3 is None,
        plain->Ok_0.0@ == packed->Ok_0.0@,
        plain->Ok_0.0@.embed == model@.embed,
        forall|k: int|
            0 < k < items(model.parts()).len() ==> {
                let a = items(model.parts())[k]@;
                (#[trigger] items(plain->Ok_0.0.parts())[k])@ == (Array {
                    data: Seq::new(
                        a.data.len(),
                        |i: int| fmul(fsmall::<T>(cuts(a)[i]), absmean(a.data)),
                    ),
                    dims: a.dims,
                })
            },
{
    law_import_undoes_export(Format::Ternary, model, None, None, plain);
    law_import_undoes_export(Format::TernaryPacked, model, None, None, packed);
    let (m, q) = (plain->Ok_0.0, packed->Ok_0.0);
    let (ws, us, vs) = (items(model.parts()), items(m.parts()), items(q.parts()));
    lemma_shaped_items(m);
    lemma_shaped_items(q);
    lemma_items_map(m.parts(), view_of::<T>());
    lemma_items_map(q.parts(), view_of::<T>());
    assert forall|k: int| 0 <= k < ws.len() implies #[trigger] items(m@)[k] == items(q@)[k] by {
        assert(us[k]@ == decoded(format_at(Format::Ternary, k as nat), ws[k]@));
        assert(vs[k]@ == decoded(format_at(Format::TernaryPacked, k as nat), ws[k]@));
        if k > 0 {
            law_packing_loses_nothing(ws[k]@);
        }
    }
    assert(items(m@) =~= items(q@));
    assert forall|j: int| 0 <= j < m@.blocks.len() implies #[trigger] same_block(
        m@.blocks[j],
        q@.blocks[j],
    ) by {
        assert(same_block(m.parts().blocks[j], config_dims(m.config).blocks[j]));
        assert(same_block(q.parts().blocks[j], config_dims(m.config).blocks[j]));
    }
    lemma_items_decide(m@, q@);
    assert(us[0]@ == decoded(format_at(Format::Ternary, 0), ws[0]@));
    law_full_width_exact(ws[0]@);
    assert forall|k: int| 0 < k < ws.len() implies ({
        let a = ws[k]@;
        (#[trigger] us[k])@ == (Array {
            data: Seq::new(
                a.data.len(),
                |i: int| fmul(fsmall::<T>(cuts(a)[i]), absmean(a.data)),
            ),
            dims: a.dims,
        })
    }) by {
        let a = ws[k]@;
        assert(us[k]@ == decoded(Format::Ternary, a));
        assert(us[k]@.data =~= Seq::new(
            a.data.len(),
            |i: int| fmul(fsmall::<T>(cuts(a)[i]), absmean(a.data)),
        ));
    }
}

} // verus!
