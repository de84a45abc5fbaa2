//! The checkpoint formats.
use bitnet::bitlinear::absmean_ternary;
use bitnet::bpe::Bpe;
use bitnet::codec::ReadError;
use bitnet::export::{
    append_bpe_section, export_bf16, export_f32, export_ternary, export_ternary_packed, import,
    pack_ternary_chunk, unpack_ternary_byte, Format, HEADER_SIZE,
};
use bitnet::float::Float;
use bitnet::model::{Model, ModelConfig};
use bitnet::optim::OptimState;
use bitnet::tensor::{bf16_bits_to_f32, f32_to_bf16_bits, narrow_to_bf16, Tensor};

/// A 32-bit float that keeps a single NaN.
#[derive(Clone, Copy, Debug, PartialEq, PartialOrd)]
struct F(f32);

/// Wraps a number, with one pattern for NaN.
fn f(x: f32) -> F {
    if x.is_nan() {
        F(f32::NAN)
    } else {
        F(x)
    }
}

impl Float for F {
    fn from_bits(bits: u32) -> F {
        f(f32::from_bits(bits))
    }

    fn to_bits(self) -> u32 {
        self.0.to_bits()
    }

    fn from_count(n: usize) -> F {
        F(n as f32)
    }

    fn from_i8(n: i8) -> F {
        F(n as f32)
    }

    fn to_i8(self) -> i8 {
        self.0 as i8
    }

    fn to_count(self) -> usize {
        self.0 as usize
    }

    fn plus(self, other: F) -> F {
        f(self.0 + other.0)
    }

    fn minus(self, other: F) -> F {
        f(self.0 - other.0)
    }

    fn times(self, other: F) -> F {
        f(self.0 * other.0)
    }

    fn over(self, other: F) -> F {
        f(self.0 / other.0)
    }

    fn pow(self, other: F) -> F {
        f(self.0.powf(other.0))
    }

    fn negate(self) -> F {
        f(-self.0)
    }

    fn abs(self) -> F {
        f(self.0.abs())
    }

    fn round(self) -> F {
        f(self.0.round())
    }

    fn exp(self) -> F {
        f(self.0.exp())
    }

    fn ln(self) -> F {
        f(self.0.ln())
    }

    fn sqrt(self) -> F {
        f(self.0.sqrt())
    }

    fn sin(self) -> F {
        f(self.0.sin())
    }

    fn cos(self) -> F {
        f(self.0.cos())
    }

    fn below(self, other: F) -> bool {
        self.0 < other.0
    }

    fn same(self, other: F) -> bool {
        self.0 == other.0
    }
}

fn tiny_model() -> Model<F> {
    let cfg = ModelConfig {
        vocab_size: 8,
        hidden_dim: 4,
        n_heads: 2,
        head_dim: 2,
        ffn_dim: 8,
        max_seq_len: 4,
        n_blocks: 2,
    };
    Model::new(&cfg, 0)
}

#[test]
fn f32_export_size_matches_total_param_count() {
    let expected = HEADER_SIZE + 352 * 4;
    let mut buf = Vec::new();
    let bytes = export_f32(&tiny_model(), &mut buf, None);
    assert_eq!(bytes, expected);
    assert_eq!(buf.len(), expected);
}

#[test]
fn ternary_export_size_matches_expected_layout() {
    let expected = HEADER_SIZE + 128 + 408;
    let mut buf = Vec::new();
    let bytes = export_ternary(&tiny_model(), &mut buf, None);
    assert_eq!(bytes, expected);
    assert_eq!(buf.len(), expected);
}

#[test]
fn ternary_export_is_smaller_than_f32() {
    let model = tiny_model();
    let mut f32_buf = Vec::new();
    let mut ter_buf = Vec::new();
    export_f32(&model, &mut f32_buf, None);
    export_ternary(&model, &mut ter_buf, None);
    assert!(
        ter_buf.len() < f32_buf.len(),
        "ternary export ({} B) must be smaller than f32 ({} B)",
        ter_buf.len(),
        f32_buf.len()
    );
}

#[test]
fn f32_round_trip_preserves_every_weight_exactly() {
    let model = tiny_model();
    let mut buf = Vec::new();
    export_f32(&model, &mut buf, None);

    let (loaded, fmt, _opt, _) = import::<F>(&buf).unwrap();
    assert_eq!(fmt, Format::Float32);
    assert_eq!(loaded.config.vocab_size, model.config.vocab_size);
    assert_eq!(loaded.token_embed.data, model.token_embed.data);
    assert_eq!(loaded.blocks.len(), model.blocks.len());
    for (lb, mb) in loaded.blocks.iter().zip(&model.blocks) {
        assert_eq!(lb.heads.len(), mb.heads.len());
        assert_eq!(lb.heads[0].w_q.data, mb.heads[0].w_q.data);
        assert_eq!(lb.ffn_up_w.data, mb.ffn_up_w.data);
    }
}

#[test]
fn ternary_round_trip_preserves_block_weight_signs() {
    let model = tiny_model();
    let mut buf = Vec::new();
    export_ternary(&model, &mut buf, None);

    let (loaded, fmt, _opt, _) = import::<F>(&buf).unwrap();
    assert_eq!(fmt, Format::Ternary);

    assert_eq!(loaded.token_embed.data, model.token_embed.data);

    for (loaded_b, master_b) in loaded.blocks.iter().zip(&model.blocks) {
        assert_eq!(loaded_b.heads.len(), master_b.heads.len());
        for (lh, mh) in loaded_b.heads.iter().zip(&master_b.heads) {
            let (w_q, gamma) = absmean_ternary(&mh.w_q);
            for i in 0..lh.w_q.data.len() {
                let expected = w_q.data[i].0 * gamma.0;
                assert!(
                    (lh.w_q.data[i].0 - expected).abs() < 1e-5,
                    "round-trip drift at head w_q[{}]: {} vs {}",
                    i,
                    lh.w_q.data[i].0,
                    expected
                );
            }
        }
    }
}

#[test]
fn ternary_packed_round_trip() {
    let model = tiny_model();
    let mut buf = Vec::new();
    export_ternary_packed(&model, &mut buf, None);

    let (loaded, fmt, _opt, _) = import::<F>(&buf).unwrap();
    assert_eq!(fmt, Format::TernaryPacked);

    assert_eq!(loaded.token_embed.data, model.token_embed.data);

    for (loaded_b, master_b) in loaded.blocks.iter().zip(&model.blocks) {
        assert_eq!(loaded_b.heads.len(), master_b.heads.len());
        for (lh, mh) in loaded_b.heads.iter().zip(&master_b.heads) {
            let (w_q, gamma) = absmean_ternary(&mh.w_q);
            for i in 0..lh.w_q.data.len() {
                let expected = w_q.data[i].0 * gamma.0;
                assert!(
                    (lh.w_q.data[i].0 - expected).abs() < 1e-5,
                    "packed round-trip drift at head w_q[{}]: {} vs {}",
                    i,
                    lh.w_q.data[i].0,
                    expected
                );
            }
        }
    }
}

#[test]
fn ternary_packed_smaller_than_unpacked_ternary() {
    let model = tiny_model();
    let mut t_buf = Vec::new();
    let mut p_buf = Vec::new();
    export_ternary(&model, &mut t_buf, None);
    export_ternary_packed(&model, &mut p_buf, None);
    assert!(
        p_buf.len() < t_buf.len(),
        "packed ({} B) must be smaller than unpacked ternary ({} B)",
        p_buf.len(),
        t_buf.len()
    );
}

#[test]
fn pack_unpack_roundtrips_each_5tuple() {
    for a in -1..=1i8 {
        for b in -1..=1i8 {
            for c in -1..=1i8 {
                for d in -1..=1i8 {
                    for e in -1..=1i8 {
                        let chunk = [a, b, c, d, e];
                        let byte = pack_ternary_chunk(&chunk);
                        let back = unpack_ternary_byte(byte);
                        assert_eq!(back, chunk, "roundtrip failed for {:?}", chunk);
                    }
                }
            }
        }
    }
}

#[test]
fn import_returns_none_optim_for_files_without_optm_marker() {
    let model = tiny_model();
    let mut buf = Vec::new();
    export_ternary_packed(&model, &mut buf, None);
    let (_loaded, _fmt, optim, _) = import::<F>(&buf).unwrap();
    assert!(
        optim.is_none(),
        "expected no optim state in payload-less export"
    );
}

#[test]
fn optim_state_round_trips_through_packed_export() {
    let model = tiny_model();
    let shapes = model.param_shapes();
    let m: Vec<Tensor<F>> = shapes
        .iter()
        .enumerate()
        .map(|(i, s)| {
            let n: usize = s.iter().product();
            let data: Vec<F> = (0..n).map(|j| F((i * 100 + j) as f32 * 0.001)).collect();
            Tensor {
                data,
                shape: s.clone(),
            }
        })
        .collect();
    let v: Vec<Tensor<F>> = shapes
        .iter()
        .enumerate()
        .map(|(i, s)| {
            let n: usize = s.iter().product();
            let data: Vec<F> = (0..n).map(|j| F((i * 100 + j) as f32 * 0.0001)).collect();
            Tensor {
                data,
                shape: s.clone(),
            }
        })
        .collect();
    let saved = OptimState {
        step_count: 1234,
        m: m.clone(),
        v: v.clone(),
    };

    let mut buf = Vec::new();
    export_ternary_packed(&model, &mut buf, Some(&saved));
    let (_loaded_model, _fmt, loaded_optim, _) = import::<F>(&buf).unwrap();
    let loaded = loaded_optim.expect("optim state must round-trip when written");

    assert_eq!(loaded.step_count, 1234);
    assert_eq!(loaded.m.len(), m.len());
    assert_eq!(loaded.v.len(), v.len());
    for (lt, st) in loaded.m.iter().zip(&m) {
        assert_eq!(lt.shape, st.shape);
        assert_eq!(lt.data, st.data);
    }
    for (lt, st) in loaded.v.iter().zip(&v) {
        assert_eq!(lt.shape, st.shape);
        assert_eq!(lt.data, st.data);
    }
}

#[test]
fn f32_round_trip_preserves_every_master_and_optim_byte_identical() {
    let model = tiny_model();
    let shapes = model.param_shapes();
    let m: Vec<Tensor<F>> = shapes
        .iter()
        .enumerate()
        .map(|(i, s)| {
            let n: usize = s.iter().product();
            let data: Vec<F> = (0..n).map(|j| F((i * 7 + j) as f32 * 1.234e-3)).collect();
            Tensor {
                data,
                shape: s.clone(),
            }
        })
        .collect();
    let v: Vec<Tensor<F>> = shapes
        .iter()
        .enumerate()
        .map(|(i, s)| {
            let n: usize = s.iter().product();
            let data: Vec<F> = (0..n).map(|j| F((i * 11 + j) as f32 * 5.678e-5)).collect();
            Tensor {
                data,
                shape: s.clone(),
            }
        })
        .collect();
    let saved = OptimState {
        step_count: 9_999,
        m: m.clone(),
        v: v.clone(),
    };

    let mut buf = Vec::new();
    export_f32(&model, &mut buf, Some(&saved));
    let (loaded_model, fmt, loaded_optim, _) = import::<F>(&buf).unwrap();
    assert_eq!(fmt, Format::Float32);
    let loaded_state = loaded_optim.expect("optim state must round-trip");

    assert_eq!(loaded_model.token_embed.data, model.token_embed.data);

    assert_eq!(loaded_model.blocks.len(), model.blocks.len());
    for (lb, mb) in loaded_model.blocks.iter().zip(&model.blocks) {
        assert_eq!(lb.heads.len(), mb.heads.len());
        for (lh, mh) in lb.heads.iter().zip(&mb.heads) {
            assert_eq!(lh.w_q.data, mh.w_q.data);
            assert_eq!(lh.w_k.data, mh.w_k.data);
            assert_eq!(lh.w_v.data, mh.w_v.data);
            assert_eq!(lh.w_o.data, mh.w_o.data);
        }
        assert_eq!(lb.ffn_gate_w.data, mb.ffn_gate_w.data);
        assert_eq!(lb.ffn_up_w.data, mb.ffn_up_w.data);
        assert_eq!(lb.ffn_down_w.data, mb.ffn_down_w.data);
    }

    assert_eq!(loaded_state.step_count, 9_999);
    assert_eq!(loaded_state.m.len(), m.len());
    assert_eq!(loaded_state.v.len(), v.len());
    for (lt, st) in loaded_state.m.iter().zip(&m) {
        assert_eq!(lt.shape, st.shape);
        assert_eq!(lt.data, st.data);
    }
    for (lt, st) in loaded_state.v.iter().zip(&v) {
        assert_eq!(lt.shape, st.shape);
        assert_eq!(lt.data, st.data);
    }
}

#[test]
fn bf16_export_import_round_trips_grid_masters() {
    let mut model = tiny_model();
    model.for_each_param_mut(|_i: usize, t: &Tensor<F>| {
        Tensor::from_vec(
            t.data.iter().map(|v| narrow_to_bf16(*v)).collect(),
            t.shape.clone(),
        )
    });
    let optim = OptimState {
        step_count: 42,
        m: model_shaped_tensors(&model, 0.31),
        v: model_shaped_tensors(&model, 0.77),
    };
    let mut buf = Vec::new();
    export_bf16(&model, &mut buf, Some(&optim));

    let (back, fmt, optim_back, _) = import::<F>(&buf).unwrap();
    assert_eq!(fmt, Format::MastersBf16);
    let expect = model.params();
    assert_eq!(back.params().len(), expect.len());
    for (i, t) in back.params().iter().enumerate() {
        assert_eq!(t.data, expect[i].data, "master {i} did not round-trip");
    }
    let ob = optim_back.expect("OPTM payload lost");
    assert_eq!(ob.step_count, 42);
    for (a, b) in ob.m.iter().zip(&optim.m) {
        assert_eq!(a.data, b.data, "moment m did not round-trip at f32");
    }
    let mut f32_buf = Vec::new();
    export_f32(&model, &mut f32_buf, None);
    let mut bf16_buf = Vec::new();
    export_bf16(&model, &mut bf16_buf, None);
    let header = 33;
    assert_eq!(bf16_buf.len() - header, (f32_buf.len() - header) / 2);
}

fn model_shaped_tensors(model: &Model<F>, salt: f32) -> Vec<Tensor<F>> {
    model
        .param_shapes()
        .into_iter()
        .map(|shape| {
            let len: usize = shape.iter().product();
            Tensor {
                data: (0..len).map(|i| F((i as f32 * salt).sin())).collect(),
                shape,
            }
        })
        .collect()
}

#[test]
fn bpe_section_round_trips_through_checkpoint() {
    let model = tiny_model();
    let bpe = Bpe::train(b"the theme thereof there ", 270);
    let mut buf = Vec::new();
    export_bf16(&model, &mut buf, None);
    append_bpe_section(&mut buf, &bpe);
    let (_m, _fmt, _opt, loaded) = import::<F>(&buf).unwrap();
    assert_eq!(loaded.expect("BPEM section lost"), bpe);

    let mut plain = Vec::new();
    export_bf16(&model, &mut plain, None);
    let (_m, _fmt, _opt, none) = import::<F>(&plain).unwrap();
    assert!(none.is_none(), "phantom tokeniser from a plain checkpoint");
}

#[test]
fn import_rejects_bad_magic() {
    let mut bad = Vec::new();
    bad.extend_from_slice(b"NOPE");
    bad.extend_from_slice(&[0u8; HEADER_SIZE - 4]);
    let err = import::<F>(&bad).err();
    assert_eq!(err, Some(ReadError::BadMagic));
}

#[test]
fn import_reports_what_is_wrong() {
    let model = tiny_model();
    let mut good = Vec::new();
    export_f32(&model, &mut good, None);

    assert_eq!(import::<F>(&good[..20]).err(), Some(ReadError::UnexpectedEof));
    assert_eq!(import::<F>(&good[..60]).err(), Some(ReadError::UnexpectedEof));

    let mut odd = good.clone();
    odd[4] = 9;
    assert_eq!(import::<F>(&odd).err(), Some(ReadError::UnknownFormat(9)));

    let mut tail = good.clone();
    tail.extend_from_slice(&0x1234_5678u32.to_le_bytes());
    assert_eq!(import::<F>(&tail).err(), Some(ReadError::UnknownMarker(0x1234_5678)));
}

#[test]
fn header_holds_the_sizes() {
    let mut buf = Vec::new();
    export_f32(&tiny_model(), &mut buf, None);
    assert_eq!(&buf[0..4], b"BNT5");
    assert_eq!(buf[4], Format::Float32.byte());
    let sizes: Vec<u32> = (0..7)
        .map(|i| {
            let at = 5 + 4 * i;
            u32::from_le_bytes([buf[at], buf[at + 1], buf[at + 2], buf[at + 3]])
        })
        .collect();
    assert_eq!(sizes, vec![8, 4, 2, 2, 8, 4, 2]);
}

#[test]
fn short_chunks_leave_the_high_digits_at_zero() {
    assert_eq!(pack_ternary_chunk(&[1, -1]), 2);
    assert_eq!(unpack_ternary_byte(2), [1, -1, -1, -1, -1]);
    assert_eq!(pack_ternary_chunk(&[1, 1, 1, 1, 1]), 242);
    assert_eq!(pack_ternary_chunk(&[0, 0, 0, 0, 0]), 121);
}

#[test]
fn half_width_numbers_round_to_nearest_even() {
    assert_eq!(f32_to_bf16_bits(F(1.0)), 0x3F80);
    assert_eq!(bf16_bits_to_f32::<F>(0x3F80).0, 1.0);
    assert_eq!(f32_to_bf16_bits(F(f32::from_bits(0x3F80_8000))), 0x3F80);
    assert_eq!(f32_to_bf16_bits(F(f32::from_bits(0x3F81_8000))), 0x3F82);
    assert_eq!(f32_to_bf16_bits(F(f32::from_bits(0x3F80_8001))), 0x3F81);
    let once = narrow_to_bf16(F(0.1));
    assert_eq!(narrow_to_bf16(once).0, once.0);
}

#[test]
fn up_to_three_bytes_after_a_checkpoint_are_ignored() {
    let model = tiny_model();
    for n in 0..4usize {
        let mut buf = Vec::new();
        export_ternary_packed(&model, &mut buf, None);
        buf.extend(std::iter::repeat(7u8).take(n));
        let (_, format, optim, bpe) = import::<F>(&buf).unwrap();
        assert!(matches!(format, Format::TernaryPacked));
        assert!(optim.is_none() && bpe.is_none());
    }
}

#[test]
fn another_marker_after_a_checkpoint_is_refused() {
    let model = tiny_model();
    let mut buf = Vec::new();
    export_f32(&model, &mut buf, None);
    buf.extend_from_slice(&[1, 0, 0, 0, 9]);
    assert_eq!(import::<F>(&buf).err(), Some(ReadError::UnknownMarker(1)));
}

#[test]
fn every_cut_of_a_checkpoint_runs_out_of_bytes() {
    let model = tiny_model();
    let mut buf = Vec::new();
    export_ternary(&model, &mut buf, None);
    for n in 0..buf.len() {
        assert_eq!(import::<F>(&buf[..n]).err(), Some(ReadError::UnexpectedEof));
    }
}

#[test]
fn other_magic_numbers_and_formats_are_refused() {
    let model = tiny_model();
    let mut buf = Vec::new();
    export_f32(&model, &mut buf, None);
    for digit in b'1'..b'5' {
        let mut other = buf.clone();
        other[3] = digit;
        assert_eq!(import::<F>(&other).err(), Some(ReadError::BadMagic));
    }
    for byte in 4..=255u8 {
        let mut other = buf.clone();
        other[4] = byte;
        assert_eq!(import::<F>(&other).err(), Some(ReadError::UnknownFormat(byte)));
    }
}

#[test]
fn both_ternary_encodings_give_back_scaled_integers() {
    let model = tiny_model();
    let (mut plain, mut packed) = (Vec::new(), Vec::new());
    export_ternary(&model, &mut plain, None);
    export_ternary_packed(&model, &mut packed, None);
    let a = import::<F>(&plain).unwrap().0;
    let b = import::<F>(&packed).unwrap().0;
    assert_eq!(a.token_embed.data, model.token_embed.data);
    assert_eq!(b.token_embed.data, model.token_embed.data);
    for ((x, y), m) in a.blocks.iter().zip(&b.blocks).zip(&model.blocks) {
        assert_eq!(x.ffn_gate_w.data, y.ffn_gate_w.data);
        let (q, gamma) = absmean_ternary(&m.ffn_gate_w);
        for (v, w) in x.ffn_gate_w.data.iter().zip(&q.data) {
            assert_eq!(v.0, w.0 * gamma.0);
        }
    }
}
