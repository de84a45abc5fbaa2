//! The decoder-only language model: its weights, their initial values, the
//! forward pass and the visits to every weight.
use crate::autograd::{
    lemma_records_concat, lemma_records_none, lemma_records_push, Graph, NodeId, Step, Tape, Var,
};
use crate::bitlinear::{restored_acts, ternary_weights};
use crate::block::{
    block_arrays, block_fits, block_of, block_steps, lemma_block_kept, lemma_extends,
    transformer_block, AttentionHeadVars, BlockWeights,
};
use crate::attention::{head_arrays, head_fits, score_scale};
use crate::data::{lcg_next, lcg_start, Lcg};
use crate::float::{deterministic, fbits, fcount, fdiv, fmul, fone, fsqrt, fsub, Float, ONE};
use crate::layout::{
    block_items, blocks_items, head_items, head_place, heads_items, items, ffn_place,
    lemma_blocks_same, lemma_ffn_place, lemma_form_len, lemma_head_place, lemma_heads_len,
    lemma_heads_same, lemma_items_map, map_block, map_head, map_model, same_block, same_form,
    BlockOf, HeadOf, ModelOf,
};
use crate::ops::{embed_of, ids_below, rmsnorm_of};
use crate::tensor::{
    copy_slice, count_items, countable, lemma_countable2, matmul_of, transpose_of, volume, Array,
    Tensor,
};
use vstd::prelude::*;

verus! {

/// The sizes of a model.
#[derive(Debug, Clone, Copy)]
pub struct ModelConfig {
    pub vocab_size: usize,
    pub hidden_dim: usize,
    pub n_heads: usize,
    pub head_dim: usize,
    pub ffn_dim: usize,
    pub max_seq_len: usize,
    pub n_blocks: usize,
}

/// The weights of one attention head.
pub struct AttentionHead<T> {
    pub w_q: Tensor<T>,
    pub w_k: Tensor<T>,
    pub w_v: Tensor<T>,
    pub w_o: Tensor<T>,
}

/// The weights of one block.
pub struct BlockMasters<T> {
    pub heads: Vec<AttentionHead<T>>,
    pub ffn_gate_w: Tensor<T>,
    pub ffn_up_w: Tensor<T>,
    pub ffn_down_w: Tensor<T>,
}

/// The weights of a model. The embedding is also, transposed, the last projection.
pub struct Model<T> {
    pub token_embed: Tensor<T>,
    pub blocks: Vec<BlockMasters<T>>,
    pub config: ModelConfig,
}

/// The weights of a model, as nodes of a tape.
pub struct ModelLeaves {
    pub token_embed: Var,
    pub blocks: Vec<BlockWeights>,
}

impl<T> AttentionHead<T> {
    /// The weights, arranged.
    pub open spec fn parts(self) -> HeadOf<Tensor<T>> {
        HeadOf { w_q: self.w_q, w_k: self.w_k, w_v: self.w_v, w_o: self.w_o }
    }
}

/// The weights of some heads, arranged.
pub open spec fn heads_parts<T>(hs: Seq<AttentionHead<T>>) -> Seq<HeadOf<Tensor<T>>> {
    Seq::new(hs.len(), |i: int| hs[i].parts())
}

impl<T> BlockMasters<T> {
    /// The weights, arranged.
    pub open spec fn parts(self) -> BlockOf<Tensor<T>> {
        BlockOf {
            heads: heads_parts(self.heads@),
            gate: self.ffn_gate_w,
            up: self.ffn_up_w,
            down: self.ffn_down_w,
        }
    }
}

/// The weights of some blocks, arranged.
pub open spec fn blocks_parts<T>(bs: Seq<BlockMasters<T>>) -> Seq<BlockOf<Tensor<T>>> {
    Seq::new(bs.len(), |j: int| bs[j].parts())
}

/// The nodes of some heads, arranged.
pub open spec fn head_vars(hs: Seq<AttentionHeadVars>) -> Seq<HeadOf<Var>> {
    Seq::new(
        hs.len(),
        |i: int| HeadOf { w_q: hs[i].w_q, w_k: hs[i].w_k, w_v: hs[i].w_v, w_o: hs[i].w_o },
    )
}

/// The nodes of a block, arranged.
pub open spec fn block_vars(b: BlockWeights) -> BlockOf<Var> {
    BlockOf { heads: head_vars(b.heads@), gate: b.ffn_gate_w, up: b.ffn_up_w, down: b.ffn_down_w }
}

/// The nodes of some blocks, arranged.
pub open spec fn blocks_vars(bs: Seq<BlockWeights>) -> Seq<BlockOf<Var>> {
    Seq::new(bs.len(), |j: int| block_vars(bs[j]))
}

impl ModelLeaves {
    /// The nodes, arranged.
    pub open spec fn parts(self) -> ModelOf<Var> {
        ModelOf { embed: self.token_embed, blocks: blocks_vars(self.blocks@) }
    }
}

/// A tensor's mathematical form.
pub open spec fn view_of<T>() -> spec_fn(Tensor<T>) -> Array<T> {
    |t: Tensor<T>| t@
}

impl<T> Model<T> {
    /// The weights, arranged.
    pub open spec fn parts(self) -> ModelOf<Tensor<T>> {
        ModelOf { embed: self.token_embed, blocks: blocks_parts(self.blocks@) }
    }
}

impl<T> View for Model<T> {
    type V = ModelOf<Array<T>>;

    open spec fn view(&self) -> ModelOf<Array<T>> {
        map_model(self.parts(), view_of())
    }
}

/// The weights of a head have the shapes of the configuration.
pub open spec fn head_shaped<T: Float>(h: AttentionHead<T>, c: ModelConfig) -> bool {
    &&& h.w_q.wf() && h.w_q.shape@ == seq![c.hidden_dim, c.head_dim]
    &&& h.w_k.wf() && h.w_k.shape@ == seq![c.hidden_dim, c.head_dim]
    &&& h.w_v.wf() && h.w_v.shape@ == seq![c.hidden_dim, c.head_dim]
    &&& h.w_o.wf() && h.w_o.shape@ == seq![c.head_dim, c.hidden_dim]
}

/// The weights of a block have the number and the shapes of the configuration.
pub open spec fn block_shaped<T: Float>(b: BlockMasters<T>, c: ModelConfig) -> bool {
    &&& b.heads@.len() == c.n_heads
    &&& forall|i: int| 0 <= i < b.heads@.len() ==> head_shaped(#[trigger] b.heads@[i], c)
    &&& b.ffn_gate_w.wf() && b.ffn_gate_w.shape@ == seq![c.hidden_dim, c.ffn_dim]
    &&& b.ffn_up_w.wf() && b.ffn_up_w.shape@ == seq![c.hidden_dim, c.ffn_dim]
    &&& b.ffn_down_w.wf() && b.ffn_down_w.shape@ == seq![c.ffn_dim, c.hidden_dim]
}

impl<T: Float> Model<T> {
    /// The weights have the number and the shapes of the configuration.
    pub open spec fn shaped(self) -> bool {
        &&& self.token_embed.wf() && self.token_embed.shape@ == seq![
            self.config.vocab_size,
            self.config.hidden_dim,
        ]
        &&& self.blocks@.len() == self.config.n_blocks
        &&& forall|j: int|
            0 <= j < self.blocks@.len() ==> block_shaped(#[trigger] self.blocks@[j], self.config)
    }

    /// Every weight's items fill its shape.
    pub open spec fn wf(self) -> bool {
        forall|k: int|
            0 <= k < items(self.parts()).len() ==> (#[trigger] items(self.parts())[k]).wf()
    }
}

/// The shapes of the weights of a head.
pub open spec fn head_dims(c: ModelConfig) -> HeadOf<Seq<usize>> {
    HeadOf {
        w_q: seq![c.hidden_dim, c.head_dim],
        w_k: seq![c.hidden_dim, c.head_dim],
        w_v: seq![c.hidden_dim, c.head_dim],
        w_o: seq![c.head_dim, c.hidden_dim],
    }
}

/// The shapes of the weights of a block.
pub open spec fn block_dims(c: ModelConfig) -> BlockOf<Seq<usize>> {
    BlockOf {
        heads: Seq::new(c.n_heads as nat, |i: int| head_dims(c)),
        gate: seq![c.hidden_dim, c.ffn_dim],
        up: seq![c.hidden_dim, c.ffn_dim],
        down: seq![c.ffn_dim, c.hidden_dim],
    }
}

/// The shapes of the weights of a model.
pub open spec fn config_dims(c: ModelConfig) -> ModelOf<Seq<usize>> {
    ModelOf {
        embed: seq![c.vocab_size, c.hidden_dim],
        blocks: Seq::new(c.n_blocks as nat, |j: int| block_dims(c)),
    }
}

/// The shapes of the weights of a model, in the one order.
pub open spec fn shapes_of(c: ModelConfig) -> Seq<Seq<usize>> {
    items(config_dims(c))
}

/// A machine index can count the items of every weight.
pub open spec fn sizes_fit(c: ModelConfig) -> bool {
    &&& c.vocab_size * c.hidden_dim <= usize::MAX
    &&& c.hidden_dim * c.head_dim <= usize::MAX
    &&& c.hidden_dim * c.ffn_dim <= usize::MAX
}

/// The generator's state after `n` draws.
pub open spec fn lcg_skip(s: u64, n: nat) -> u64
    decreases n,
{
    if n == 0 {
        s
    } else {
        lcg_next(lcg_skip(s, (n - 1) as nat))
    }
}

/// Draws follow on from each other.
pub proof fn lemma_skip_on(s: u64, a: nat, b: nat)
    ensures
        lcg_skip(lcg_skip(s, a), b) == lcg_skip(s, a + b),
    decreases b,
{
    if b > 0 {
        lemma_skip_on(s, a, (b - 1) as nat);
    }
}

/// The bit pattern of 2 to the power of 22.
pub const TWO_POW_22: u32 = 0x4A80_0000;

/// The top 23 bits of a state, scaled to run from -1 up to 1.
pub open spec fn signed_unit<T: Float>(s: u64) -> T {
    fsub(fdiv(fcount::<T>((s >> 41) as usize), fbits::<T>(TWO_POW_22)), fone::<T>())
}

/// The tensor of draws that follow state `s`, each scaled.
pub open spec fn drawn_of<T: Float>(s: u64, dims: Seq<usize>, scale: T) -> Array<T> {
    Array {
        data: Seq::new(
            volume(dims),
            |k: int| fmul(signed_unit::<T>(lcg_skip(s, (k + 1) as nat)), scale),
        ),
        dims,
    }
}

/// The scale of initial weights with `n` inputs.
pub open spec fn root_scale<T: Float>(n: usize) -> T {
    fdiv(fone::<T>(), fsqrt(fcount::<T>(n)))
}

/// The state after the weights of a matrix have been drawn.
pub open spec fn drawn_end(s: u64, m: usize, n: usize) -> u64 {
    lcg_skip(s, volume(seq![m, n]))
}

/// The initial weights of a head drawn from state `s`.
pub open spec fn init_head<T: Float>(s: u64, c: ModelConfig) -> HeadOf<Array<T>> {
    let (h, d) = (c.hidden_dim, c.head_dim);
    let s1 = drawn_end(s, h, d);
    let s2 = drawn_end(s1, h, d);
    let s3 = drawn_end(s2, h, d);
    HeadOf {
        w_q: drawn_of(s, seq![h, d], root_scale(h)),
        w_k: drawn_of(s1, seq![h, d], root_scale(h)),
        w_v: drawn_of(s2, seq![h, d], root_scale(h)),
        w_o: drawn_of(s3, seq![d, h], root_scale(d)),
    }
}

/// The state after the weights of a head have been drawn from state `s`.
pub open spec fn head_end(s: u64, c: ModelConfig) -> u64 {
    let (h, d) = (c.hidden_dim, c.head_dim);
    drawn_end(drawn_end(drawn_end(drawn_end(s, h, d), h, d), h, d), d, h)
}

/// The state after the weights of `n` heads have been drawn from state `s`.
pub open spec fn heads_end(s: u64, c: ModelConfig, n: nat) -> u64
    decreases n,
{
    if n == 0 {
        s
    } else {
        head_end(heads_end(s, c, (n - 1) as nat), c)
    }
}

/// The initial weights of a block drawn from state `s`.
pub open spec fn init_block<T: Float>(s: u64, c: ModelConfig) -> BlockOf<Array<T>> {
    let (h, f) = (c.hidden_dim, c.ffn_dim);
    let s1 = heads_end(s, c, c.n_heads as nat);
    let s2 = drawn_end(s1, h, f);
    let s3 = drawn_end(s2, h, f);
    BlockOf {
        heads: Seq::new(c.n_heads as nat, |i: int| init_head(heads_end(s, c, i as nat), c)),
        gate: drawn_of(s1, seq![h, f], root_scale(h)),
        up: drawn_of(s2, seq![h, f], root_scale(h)),
        down: drawn_of(s3, seq![f, h], root_scale(f)),
    }
}

/// The state after the weights of a block have been drawn from state `s`.
pub open spec fn block_end(s: u64, c: ModelConfig) -> u64 {
    let (h, f) = (c.hidden_dim, c.ffn_dim);
    drawn_end(drawn_end(drawn_end(heads_end(s, c, c.n_heads as nat), h, f), h, f), f, h)
}

/// The state after the weights of `n` blocks have been drawn from state `s`.
pub open spec fn blocks_end(s: u64, c: ModelConfig, n: nat) -> u64
    decreases n,
{
    if n == 0 {
        s
    } else {
        block_end(blocks_end(s, c, (n - 1) as nat), c)
    }
}

/// The initial weights of a model for a seed.
pub open spec fn init_of<T: Float>(c: ModelConfig, seed: u64) -> ModelOf<Array<T>> {
    let s0 = lcg_start(seed);
    let s1 = drawn_end(s0, c.vocab_size, c.hidden_dim);
    ModelOf {
        embed: drawn_of(s0, seq![c.vocab_size, c.hidden_dim], root_scale(c.hidden_dim)),
        blocks: Seq::new(c.n_blocks as nat, |j: int| init_block(blocks_end(s1, c, j as nat), c)),
    }
}

/// A number from -1 up to 1 from the top 23 bits of the next state.
fn next_signed<T: Float>(rng: &mut Lcg) -> (r: T)
    ensures
        final(rng).state == lcg_next(old(rng).state),
        deterministic::<T>() ==> r == signed_unit::<T>(final(rng).state),
{
    let x: u64 = rng.next_u64();
    proof {
        assert(x >> 41 < 0x80_0000) by (bit_vector);
    }
    let bits: usize = (x >> 41) as usize;
    T::from_count(bits).over(T::from_bits(TWO_POW_22)).minus(T::from_bits(ONE))
}

/// A matrix of scaled draws.
fn draw<T: Float>(rng: &mut Lcg, m: usize, n: usize, scale: T) -> (r: Tensor<T>)
    requires
        m * n <= usize::MAX,
    ensures
        r.wf(),
        r.shape@ == seq![m, n],
        final(rng).state == drawn_end(old(rng).state, m, n),
        deterministic::<T>() ==> r@ == drawn_of(old(rng).state, seq![m, n], scale),
{
    let ghost start = rng.state;
    let mut shape: Vec<usize> = Vec::new();
    shape.push(m);
    shape.push(n);
    proof {
        assert(shape@ =~= seq![m, n]);
        lemma_countable2(shape@);
    }
    let total: usize = count_items(shape.as_slice());
    let mut data: Vec<T> = Vec::new();
    while data.len() < total
        invariant
            data@.len() <= total,
            rng.state == lcg_skip(start, data@.len()),
            deterministic::<T>() ==> forall|k: int|
                0 <= k < data@.len() ==> data@[k] == fmul(
                    signed_unit::<T>(lcg_skip(start, (k + 1) as nat)),
                    scale,
                ),
        decreases total - data@.len(),
    {
        let x: T = next_signed(rng);
        data.push(x.times(scale));
    }
    let r = Tensor { data, shape };
    proof {
        if deterministic::<T>() {
            assert(r@ =~= drawn_of(start, seq![m, n], scale));
        }
    }
    r
}

/// One divided by the root of `n`.
fn inverse_root<T: Float>(n: usize) -> (r: T)
    ensures
        deterministic::<T>() ==> r == root_scale::<T>(n),
{
    T::from_bits(ONE).over(T::from_count(n).sqrt())
}

/// Draws the weights of a head.
fn draw_head<T: Float>(rng: &mut Lcg, c: &ModelConfig) -> (r: AttentionHead<T>)
    requires
        sizes_fit(*c),
    ensures
        head_shaped(r, *c),
        final(rng).state == head_end(old(rng).state, *c),
        deterministic::<T>() ==> map_head(r.parts(), view_of()) == init_head::<T>(
            old(rng).state,
            *c,
        ),
{
    let h: usize = c.hidden_dim;
    let d: usize = c.head_dim;
    proof {
        assert(h * d == d * h) by (nonlinear_arith);
    }
    let w_q = draw(rng, h, d, inverse_root(h));
    let w_k = draw(rng, h, d, inverse_root(h));
    let w_v = draw(rng, h, d, inverse_root(h));
    let w_o = draw(rng, d, h, inverse_root(d));
    AttentionHead { w_q, w_k, w_v, w_o }
}

/// Draws the weights of a block.
fn draw_block<T: Float>(rng: &mut Lcg, c: &ModelConfig) -> (r: BlockMasters<T>)
    requires
        sizes_fit(*c),
    ensures
        block_shaped(r, *c),
        final(rng).state == block_end(old(rng).state, *c),
        deterministic::<T>() ==> map_block(r.parts(), view_of()) == init_block::<T>(
            old(rng).state,
            *c,
        ),
{
    let ghost start = rng.state;
    let h: usize = c.hidden_dim;
    let f: usize = c.ffn_dim;
    let mut heads: Vec<AttentionHead<T>> = Vec::new();
    while heads.len() < c.n_heads
        invariant
            sizes_fit(*c),
            heads@.len() <= c.n_heads,
            rng.state == heads_end(start, *c, heads@.len()),
            forall|i: int| 0 <= i < heads@.len() ==> head_shaped(#[trigger] heads@[i], *c),
            deterministic::<T>() ==> forall|i: int|
                0 <= i < heads@.len() ==> map_head((#[trigger] heads@[i]).parts(), view_of())
                    == init_head::<T>(heads_end(start, *c, i as nat), *c),
        decreases c.n_heads - heads@.len(),
    {
        let head = draw_head(rng, c);
        heads.push(head);
    }
    proof {
        assert(h * f == f * h) by (nonlinear_arith);
    }
    let ffn_gate_w = draw(rng, h, f, inverse_root(h));
    let ffn_up_w = draw(rng, h, f, inverse_root(h));
    let ffn_down_w = draw(rng, f, h, inverse_root(f));
    let r = BlockMasters { heads, ffn_gate_w, ffn_up_w, ffn_down_w };
    proof {
        if deterministic::<T>() {
            assert(map_block(r.parts(), view_of()) =~= init_block::<T>(start, *c));
        }
    }
    r
}

/// The nodes from `t0` on are leaves that hold the listed tensors.
pub open spec fn planted<T: Float>(t0: Graph<T>, t: Graph<T>, done: Seq<Tensor<T>>) -> bool {
    &&& t0.records(t, Seq::new(done.len(), |k: int| Step::<T>::Leaf))
    &&& forall|k: int|
        0 <= k < done.len() ==> #[trigger] t.nodes[t0.nodes.len() + k].value == done[k]@
}

/// The nodes run on from `first` without a gap.
pub open spec fn consecutive(vars: Seq<Var>, first: nat) -> bool {
    forall|k: int| 0 <= k < vars.len() ==> (#[trigger] vars[k]).id == first + k
}

/// The handles are those of the tape of a mark.
pub open spec fn marked(vars: Seq<Var>, mark: int) -> bool {
    forall|k: int| 0 <= k < vars.len() ==> (#[trigger] vars[k]).tape@ == mark
}

/// Appends a copy of a tensor as a leaf.
fn plant<T: Float>(
    tape: &mut Tape<T>,
    t: &Tensor<T>,
    Ghost(t0): Ghost<Graph<T>>,
    Ghost(done): Ghost<Seq<Tensor<T>>>,
) -> (r: Var)
    requires
        planted(t0, old(tape)@, done),
        t.wf(),
    ensures
        planted(t0, final(tape)@, done.push(*t)),
        r.id == t0.nodes.len() + done.len(),
        r.tape@ == t0.mark,
{
    let ghost before = tape@;
    let ghost steps = Seq::new(done.len(), |k: int| Step::<T>::Leaf);
    let r = Var::leaf(tape, t.clone());
    proof {
        lemma_records_push(t0, before, tape@, steps, Step::Leaf);
        assert(steps.push(Step::Leaf) =~= Seq::new(done.push(*t).len(), |k: int| Step::<T>::Leaf));
    }
    r
}

/// The values of a model's leaves on a tape.
pub open spec fn leaf_arrays<T: Float>(t: Graph<T>, leaves: ModelLeaves) -> ModelOf<Array<T>> {
    ModelOf {
        embed: t.value(leaves.token_embed),
        blocks: Seq::new(leaves.blocks@.len(), |j: int| block_arrays(t, leaves.blocks@[j])),
    }
}

/// The activations after `n` blocks.
pub open spec fn blocks_of<T: Float>(
    x: Array<T>,
    blocks: Seq<BlockOf<Array<T>>>,
    head_dim: usize,
    n: nat,
) -> Array<T>
    decreases n,
{
    if n == 0 {
        x
    } else {
        block_of(blocks_of(x, blocks, head_dim, (n - 1) as nat), blocks[n - 1], head_dim)
    }
}

/// The logits of ids: embed, run the blocks, normalise, quantise and project on
/// the ternary embedding.
pub open spec fn logits_of<T: Float>(
    m: ModelOf<Array<T>>,
    ids: Seq<usize>,
    head_dim: usize,
) -> Array<T> {
    matmul_of(
        restored_acts(rmsnorm_of(blocks_of(embed_of(m.embed, ids), m.blocks, head_dim, m.blocks.len()))),
        ternary_weights(transpose_of(m.embed)),
    )
}

/// The leaves on the tape fit a run over `ids`.
pub open spec fn leaves_fit<T: Float>(t: Graph<T>, leaves: ModelLeaves, ids: Seq<usize>) -> bool {
    let e = t.value(leaves.token_embed).dims;
    &&& t.has(leaves.token_embed)
    &&& e.len() == 2
    &&& ids.len() <= usize::MAX
    &&& ids_below(ids, e[0])
    &&& ids.len() * e[1] <= usize::MAX
    &&& ids.len() * e[0] <= usize::MAX
    &&& forall|j: int|
        0 <= j < leaves.blocks@.len() ==> block_fits(
            t,
            ids.len() as usize,
            e[1],
            #[trigger] leaves.blocks@[j],
        )
}

/// The steps of the embedding and the first `n` blocks, from node `b` on.
pub open spec fn body_steps<T>(
    b: int,
    leaves: ModelLeaves,
    ids: Seq<usize>,
    scale: T,
    n: nat,
) -> Seq<Step<T>>
    decreases n,
{
    if n == 0 {
        seq![Step::Embed(leaves.token_embed.id, ids)]
    } else {
        let before = body_steps(b, leaves, ids, scale, (n - 1) as nat);
        let at = b + before.len();
        before + block_steps(at, (at - 1) as usize, leaves.blocks@[n - 1], scale)
    }
}

/// The steps from the last block's node `x` to the logits, from node `b` on.
pub open spec fn tail_steps<T>(b: int, x: NodeId, embed: NodeId) -> Seq<Step<T>> {
    seq![
        Step::RmsNorm(x),
        Step::QuantiseActs(b as usize),
        Step::Transpose(embed),
        Step::QuantiseWeights((b + 2) as usize),
        Step::MatMul((b + 1) as usize, (b + 3) as usize),
    ]
}

/// The steps of a forward pass, from node `b` on.
pub open spec fn forward_steps<T>(
    b: int,
    leaves: ModelLeaves,
    ids: Seq<usize>,
    scale: T,
) -> Seq<Step<T>> {
    let body = body_steps(b, leaves, ids, scale, leaves.blocks@.len());
    let at = b + body.len();
    body + tail_steps(at, (at - 1) as usize, leaves.token_embed.id)
}

/// The tied projection of the last activations to logits.
fn project<T: Float>(tape: &mut Tape<T>, x: Var, embed: Var) -> (r: Var)
    requires
        old(tape).wf(),
        old(tape)@.has(x),
        old(tape)@.has(embed),
        old(tape)@.value(x).dims.len() == 2,
        old(tape)@.value(embed).dims.len() == 2,
        old(tape)@.value(x).dims[1] == old(tape)@.value(embed).dims[1],
        old(tape)@.value(x).dims[0] * old(tape)@.value(embed).dims[0] <= usize::MAX,
    ensures
        r.id == old(tape)@.nodes.len() + 4,
        final(tape)@.has(r),
        old(tape)@.records(
            final(tape)@,
            tail_steps(old(tape)@.nodes.len() as int, x.id, embed.id),
        ),
        final(tape)@.value(r).dims == seq![
            old(tape)@.value(x).dims[0],
            old(tape)@.value(embed).dims[0],
        ],
        deterministic::<T>() ==> final(tape)@.value(r) == matmul_of(
            restored_acts(rmsnorm_of(old(tape)@.value(x))),
            ternary_weights(transpose_of(old(tape)@.value(embed))),
        ),
{
    let ghost t0 = tape@;
    proof {
        lemma_records_none(t0);
    }
    let normed = x.rmsnorm(tape);
    let ghost t1 = tape@;
    let ghost s1 = Seq::<Step<T>>::empty().push(Step::RmsNorm(x.id));
    proof {
        lemma_records_push(t0, t0, t1, Seq::<Step<T>>::empty(), Step::RmsNorm(x.id));
    }
    let acts = normed.quantise_acts_ste(tape);
    let ghost t2 = tape@;
    let ghost s2 = s1.push(Step::QuantiseActs(normed.id));
    proof {
        lemma_records_push(t0, t1, t2, s1, Step::QuantiseActs(normed.id));
    }
    let turned = embed.transpose_2d(tape);
    let ghost t3 = tape@;
    let ghost s3 = s2.push(Step::Transpose(embed.id));
    proof {
        lemma_records_push(t0, t2, t3, s2, Step::Transpose(embed.id));
    }
    let weights = turned.quantise_weights_ste(tape);
    let ghost t4 = tape@;
    let ghost s4 = s3.push(Step::QuantiseWeights(turned.id));
    proof {
        lemma_records_push(t0, t3, t4, s3, Step::QuantiseWeights(turned.id));
    }
    let r = acts.matmul(tape, weights);
    let ghost t5 = tape@;
    let ghost s5 = s4.push(Step::MatMul(acts.id, weights.id));
    proof {
        lemma_records_push(t0, t4, t5, s4, Step::MatMul(acts.id, weights.id));
    }
    proof {
        assert(s5 =~= tail_steps(t0.nodes.len() as int, x.id, embed.id));
    }
    r
}

/// A weight moved against its gradient.
pub open spec fn descended_of<T: Float>(p: Array<T>, g: Array<T>, lr: T) -> Array<T> {
    crate::tensor::each2(p, g, |x: T, d: T| fsub(x, fmul(lr, d)))
}

/// A weight moved against its gradient.
pub fn descended<T: Float>(p: &Tensor<T>, g: &Tensor<T>, lr: T) -> (r: Tensor<T>)
    requires
        p.wf(),
        g.wf(),
        g.shape@ == p.shape@,
    ensures
        r.wf(),
        r.shape@ == p.shape@,
        deterministic::<T>() ==> r@ == descended_of(p@, g@, lr),
{
    let mut out: Vec<T> = Vec::new();
    let mut i: usize = 0;
    while i < p.data.len()
        invariant
            i <= p.data.len(),
            p.data.len() == g.data.len(),
            out.len() == i,
            deterministic::<T>() ==> forall|k: int|
                0 <= k < i ==> out@[k] == fsub(p.data@[k], fmul(lr, g.data@[k])),
        decreases p.data.len() - i,
    {
        out.push(p.data[i].minus(lr.times(g.data[i])));
        i += 1;
    }
    let r = Tensor { data: out, shape: copy_slice(p.shape.as_slice()) };
    proof {
        if deterministic::<T>() {
            assert(r@ =~= descended_of(p@, g@, lr));
        }
    }
    r
}

impl<T: Float> Model<T> {
    /// A model of these sizes with weights drawn from a seed.
    pub fn new(config: &ModelConfig, seed: u64) -> (r: Self)
        requires
            sizes_fit(*config),
        ensures
            r.config == *config,
            r.shaped(),
            deterministic::<T>() ==> r@ == init_of::<T>(*config, seed),
    {
        let mut rng = Lcg::new(seed);
        let token_embed = draw(
            &mut rng,
            config.vocab_size,
            config.hidden_dim,
            inverse_root(config.hidden_dim),
        );
        let ghost start = rng.state;
        let mut blocks: Vec<BlockMasters<T>> = Vec::new();
        while blocks.len() < config.n_blocks
            invariant
                sizes_fit(*config),
                blocks@.len() <= config.n_blocks,
                rng.state == blocks_end(start, *config, blocks@.len()),
                forall|j: int|
                    0 <= j < blocks@.len() ==> block_shaped(#[trigger] blocks@[j], *config),
                deterministic::<T>() ==> forall|j: int|
                    0 <= j < blocks@.len() ==> map_block(
                        (#[trigger] blocks@[j]).parts(),
                        view_of(),
                    ) == init_block::<T>(blocks_end(start, *config, j as nat), *config),
            decreases config.n_blocks - blocks@.len(),
        {
            let block = draw_block(&mut rng, config);
            blocks.push(block);
        }
        let r = Model { token_embed, blocks, config: *config };
        proof {
            if deterministic::<T>() {
                assert(r@ =~= init_of::<T>(*config, seed));
            }
        }
        r
    }

    /// The logits that the weights on the tape give for `ids`.
    #[verifier::rlimit(60)]
    pub fn forward(&self, tape: &mut Tape<T>, leaves: &ModelLeaves, ids: &[usize]) -> (r: Var)
        requires
            old(tape).wf(),
            leaves_fit(old(tape)@, *leaves, ids@),
            ids@.len() <= self.config.max_seq_len,
        ensures
            r.id == final(tape)@.nodes.len() - 1,
        final(tape)@.has(r),
            final(tape).wf(),
            old(tape)@.extends_to(final(tape)@),
            deterministic::<T>() ==> old(tape)@.records(
                final(tape)@,
                forward_steps(
                    old(tape)@.nodes.len() as int,
                    *leaves,
                    ids@,
                    score_scale::<T>(self.config.head_dim),
                ),
            ),
            final(tape)@.value(r).dims == seq![
                ids@.len() as usize,
                old(tape)@.value(leaves.token_embed).dims[0],
            ],
            deterministic::<T>() ==> final(tape)@.value(r) == logits_of(
                leaf_arrays(old(tape)@, *leaves),
                ids@,
                self.config.head_dim,
            ),
    {
        let ghost t0 = tape@;
        let ghost b = t0.nodes.len() as int;
        let ghost m = ids@.len() as usize;
        let ghost n = t0.value(leaves.token_embed).dims[1];
        let ghost scale = score_scale::<T>(self.config.head_dim);
        let ghost w = leaf_arrays(t0, *leaves);
        proof {
            lemma_records_none(t0);
            assert(ids@.len() == ids.len());
        }
        let mut x = leaves.token_embed.embed(tape, ids);
        proof {
            lemma_records_push(t0, t0, tape@, seq![], Step::Embed(leaves.token_embed.id, ids@));
            assert(Seq::<Step<T>>::empty().push(Step::Embed(leaves.token_embed.id, ids@))
                =~= body_steps(b, *leaves, ids@, scale, 0));
        }
        let mut j: usize = 0;
        while j < leaves.blocks.len()
            invariant
                j <= leaves.blocks@.len(),
                t0.wf(),
                leaves_fit(t0, *leaves, ids@),
                b == t0.nodes.len(),
                m == ids@.len(),
                n == t0.value(leaves.token_embed).dims[1],
                scale == score_scale::<T>(self.config.head_dim),
                w == leaf_arrays(t0, *leaves),
                tape.wf(),
                t0.extends_to(tape@),
                x.id == tape@.nodes.len() - 1,
                tape@.has(x),
                tape@.value(x).dims == seq![m, n],
                deterministic::<T>() ==> {
                    &&& t0.records(tape@, body_steps(b, *leaves, ids@, scale, j as nat))
                    &&& tape@.value(x) == blocks_of(
                        embed_of(w.embed, ids@),
                        w.blocks,
                        self.config.head_dim,
                        j as nat,
                    )
                },
            decreases leaves.blocks@.len() - j,
        {
            let ghost t1 = tape@;
            proof {
                assert(block_fits(t0, m, n, leaves.blocks@[j as int]));
                lemma_block_kept(t0, t1, m, n, leaves.blocks@[j as int]);
                assert(w.blocks[j as int] == block_arrays(t0, leaves.blocks@[j as int]));
            }
            let prev = x;
            x = transformer_block(tape, prev, &leaves.blocks[j], self.config.head_dim);
            proof {
                lemma_extends(t0, t1, tape@);
                if deterministic::<T>() {
                    let first = body_steps(b, *leaves, ids@, scale, j as nat);
                    let second = block_steps(
                        t1.nodes.len() as int,
                        prev.id,
                        leaves.blocks@[j as int],
                        scale,
                    );
                    lemma_records_concat(t0, t1, tape@, first, second);
                    assert(first + second == body_steps(b, *leaves, ids@, scale, (j + 1) as nat));
                }
            }
            j += 1;
        }
        let ghost t1 = tape@;
        proof {
            assert forall|i: int| 0 <= i < t0.nodes.len() implies #[trigger] t1.nodes[i]
                == t0.nodes[i] by {
                assert(t1.nodes.take(t0.nodes.len() as int)[i] == t1.nodes[i]);
            }
        }
        let r = project(tape, x, leaves.token_embed);
        proof {
            lemma_extends(t0, t1, tape@);
            if deterministic::<T>() {
                let body = body_steps(b, *leaves, ids@, scale, leaves.blocks@.len());
                let tail = tail_steps(t1.nodes.len() as int, x.id, leaves.token_embed.id);
                lemma_records_concat(t0, t1, tape@, body, tail);
                assert(body + tail == forward_steps(b, *leaves, ids@, scale));
            }
        }
        r
    }
}

/// The leaves of a model planted on a tape hold the model's weights.
pub proof fn lemma_planted<T: Float>(t0: Graph<T>, t: Graph<T>, m: Model<T>, leaves: ModelLeaves)
    requires
        planted(t0, t, items(m.parts())),
        same_form(leaves.parts(), m.parts()),
        consecutive(items(leaves.parts()), t0.nodes.len()),
        marked(items(leaves.parts()), t0.mark),
        items(leaves.parts()).len() == items(m.parts()).len(),
    ensures
        leaf_arrays(t, leaves) == m@,
        t.has(leaves.token_embed),
        forall|j: int, i: int|
            0 <= j < leaves.blocks@.len() && 0 <= i < leaves.blocks@[j].heads@.len() ==> {
                let h = #[trigger] leaves.blocks@[j].heads@[i];
                t.has(h.w_q) && t.has(h.w_k) && t.has(h.w_v) && t.has(h.w_o)
            },
        forall|j: int|
            0 <= j < leaves.blocks@.len() ==> {
                let b = #[trigger] leaves.blocks@[j];
                t.has(b.ffn_gate_w) && t.has(b.ffn_up_w) && t.has(b.ffn_down_w)
            },
{
    let lp = leaves.parts();
    let mp = m.parts();
    let n = t0.nodes.len();
    assert(items(lp)[0] == leaves.token_embed);
    let first: int = 0;
    assert(t.nodes[n + first].value == items(mp)[first]@);
    assert forall|j: int| 0 <= j < leaves.blocks@.len() implies {
        let b = #[trigger] leaves.blocks@[j];
        &&& t.has(b.ffn_gate_w) && t.has(b.ffn_up_w) && t.has(b.ffn_down_w)
        &&& block_arrays(t, b) == m@.blocks[j]
        &&& forall|i: int|
            0 <= i < b.heads@.len() ==> {
                let h = #[trigger] b.heads@[i];
                t.has(h.w_q) && t.has(h.w_k) && t.has(h.w_v) && t.has(h.w_o)
            }
    } by {
        let b = leaves.blocks@[j];
        assert(same_block(lp.blocks[j], mp.blocks[j]));
        lemma_form_len(lp, mp, j as nat);
        lemma_ffn_place(lp, j as nat);
        lemma_ffn_place(mp, j as nat);
        let f = ffn_place(mp, j as nat, 0) as int;
        assert(t.nodes[n + f].value == items(mp)[f]@);
        assert(t.nodes[n + (f + 1)].value == items(mp)[f + 1]@);
        assert(t.nodes[n + (f + 2)].value == items(mp)[f + 2]@);
        assert forall|i: int| 0 <= i < b.heads@.len() implies {
            let h = #[trigger] b.heads@[i];
            &&& t.has(h.w_q) && t.has(h.w_k) && t.has(h.w_v) && t.has(h.w_o)
            &&& head_arrays(t, h) == m@.blocks[j].heads[i]
        } by {
            lemma_head_place(lp, j as nat, i as nat);
            lemma_head_place(mp, j as nat, i as nat);
            let h = head_place(mp, j as nat, i as nat, 0) as int;
            assert(t.nodes[n + h].value == items(mp)[h]@);
            assert(t.nodes[n + (h + 1)].value == items(mp)[h + 1]@);
            assert(t.nodes[n + (h + 2)].value == items(mp)[h + 2]@);
            assert(t.nodes[n + (h + 3)].value == items(mp)[h + 3]@);
        }
        assert(block_arrays(t, b).heads =~= m@.blocks[j].heads);
    }
    assert(leaf_arrays(t, leaves).blocks =~= m@.blocks);
}

/// Equal sizes and seeds give equal models, weight by weight, of the configured shapes.
pub proof fn law_seed_decides_model<T: Float>(
    c: ModelConfig,
    seed: u64,
    a: Model<T>,
    b: Model<T>,
    k: int,
)
    requires
        a.config == c && a.shaped() && a@ == init_of::<T>(c, seed),
        b.config == c && b.shaped() && b@ == init_of::<T>(c, seed),
        0 <= k < shapes_of(c).len(),
    ensures
        items(a.parts()).len() == shapes_of(c).len(),
        items(b.parts()).len() == shapes_of(c).len(),
        items(a.parts())[k]@ == items(b.parts())[k]@,
        items(a.parts())[k].shape@ == shapes_of(c)[k],
        items(a.parts())[k].wf(),
{
    lemma_shaped_items(a);
    lemma_shaped_items(b);
    lemma_items_map(a.parts(), view_of::<T>());
    lemma_items_map(b.parts(), view_of::<T>());
    assert(items(a@)[k] == items(b@)[k]);
}

/// A window of `s` ids can be run through a model of these sizes.
pub open spec fn run_fits(c: ModelConfig, s: nat) -> bool {
    &&& c.n_heads > 0
    &&& c.head_dim % 2 == 0
    &&& s <= usize::MAX
    &&& s * s <= usize::MAX
    &&& s * c.vocab_size <= usize::MAX
    &&& s * c.hidden_dim <= usize::MAX
    &&& s * c.head_dim <= usize::MAX
    &&& s * c.ffn_dim <= usize::MAX
}

impl ModelConfig {
    /// Whether a window of `s` ids can be run through a model of these sizes.
    pub fn runs(&self, s: usize) -> (r: bool)
        ensures
            r == run_fits(*self, s as nat),
    {
        self.n_heads > 0 && self.head_dim % 2 == 0 && s.checked_mul(s).is_some() && s.checked_mul(
            self.vocab_size,
        ).is_some() && s.checked_mul(self.hidden_dim).is_some() && s.checked_mul(
            self.head_dim,
        ).is_some() && s.checked_mul(self.ffn_dim).is_some()
    }

    /// Whether a machine index can count the items of every weight.
    pub fn countable(&self) -> (r: bool)
        ensures
            r == sizes_fit(*self),
    {
        self.vocab_size.checked_mul(self.hidden_dim).is_some() && self.hidden_dim.checked_mul(
            self.head_dim,
        ).is_some() && self.hidden_dim.checked_mul(self.ffn_dim).is_some()
    }
}

/// A shorter window can be run where a longer one can.
pub proof fn lemma_run_fits_less(c: ModelConfig, s: nat, t: nat)
    requires
        run_fits(c, t),
        s <= t,
    ensures
        run_fits(c, s),
{
    assert(s * s <= t * t) by (nonlinear_arith)
        requires
            s <= t,
    ;
    lemma_less_product(s, t, c.vocab_size as nat);
    lemma_less_product(s, t, c.hidden_dim as nat);
    lemma_less_product(s, t, c.head_dim as nat);
    lemma_less_product(s, t, c.ffn_dim as nat);
}

/// A product does not grow when a factor shrinks.
proof fn lemma_less_product(s: nat, t: nat, n: nat)
    requires
        s <= t,
    ensures
        s * n <= t * n,
{
    assert(s * n <= t * n) by (nonlinear_arith)
        requires
            s <= t,
    ;
}

/// The planted leaves of a model of its configured shapes fit a run over ids of its vocabulary.
pub proof fn lemma_leaves_fit<T: Float>(
    t: Graph<T>,
    m: Model<T>,
    leaves: ModelLeaves,
    ids: Seq<usize>,
)
    requires
        leaf_arrays(t, leaves) == m@,
        m.shaped(),
        t.has(leaves.token_embed),
        forall|j: int, i: int|
            0 <= j < leaves.blocks@.len() && 0 <= i < leaves.blocks@[j].heads@.len() ==> {
                let h = #[trigger] leaves.blocks@[j].heads@[i];
                t.has(h.w_q) && t.has(h.w_k) && t.has(h.w_v) && t.has(h.w_o)
            },
        forall|j: int|
            0 <= j < leaves.blocks@.len() ==> {
                let b = #[trigger] leaves.blocks@[j];
                t.has(b.ffn_gate_w) && t.has(b.ffn_up_w) && t.has(b.ffn_down_w)
            },
        run_fits(m.config, ids.len()),
        ids_below(ids, m.config.vocab_size),
    ensures
        leaves_fit(t, leaves, ids),
{
    let s = ids.len() as usize;
    let h = m.config.hidden_dim;
    assert(t.value(leaves.token_embed) == m@.embed);
    assert(leaf_arrays(t, leaves).blocks.len() == m@.blocks.len());
    assert(leaves.blocks@.len() == m.blocks@.len());
    assert forall|j: int| 0 <= j < leaves.blocks@.len() implies block_fits(
        t,
        s,
        h,
        #[trigger] leaves.blocks@[j],
    ) by {
        let b = leaves.blocks@[j];
        assert(block_arrays(t, b) == leaf_arrays(t, leaves).blocks[j]);
        assert(block_shaped(m.blocks@[j], m.config));
        assert(block_arrays(t, b) == map_block(m.blocks@[j].parts(), view_of()));
        assert(b.heads@.len() == block_arrays(t, b).heads.len());
        assert forall|i: int| 0 <= i < b.heads@.len() implies #[trigger] head_fits(
            t,
            s,
            h,
            b.heads@[i],
        ) && t.value(b.heads@[i].w_o).dims[1] == h by {
            let hv = leaves.blocks@[j].heads@[i];
            assert(head_arrays(t, hv) == block_arrays(t, b).heads[i]);
            assert(head_shaped(m.blocks@[j].heads@[i], m.config));
        }
        assert forall|i: int| 0 <= i < b.heads@.len() implies (#[trigger] t.value(
            b.heads@[i].w_o,
        )).dims[1] == t.value(b.heads@[0].w_o).dims[1] by {
            assert(head_fits(t, s, h, b.heads@[i]));
            assert(head_fits(t, s, h, b.heads@[0]));
        }
        assert(head_fits(t, s, h, b.heads@[0]));
    }
}

/// Every weight of a model of its configured shapes is sound.
pub proof fn lemma_shaped_wf<T: Float>(m: Model<T>)
    requires
        m.shaped(),
    ensures
        m.wf(),
{
    lemma_blocks_wf(m, m.blocks@.len());
}

/// The weights of a model of its configured shapes, in the one order, have the
/// configured shapes in that order.
pub proof fn lemma_shaped_items<T: Float>(m: Model<T>)
    requires
        m.shaped(),
    ensures
        m.wf(),
        same_form(m.parts(), config_dims(m.config)),
        items(m.parts()).len() == shapes_of(m.config).len(),
        forall|k: int|
            0 <= k < shapes_of(m.config).len() ==> (#[trigger] items(m.parts())[k]).shape@
                == shapes_of(m.config)[k],
{
    let f = |t: Tensor<T>| t.shape@;
    lemma_shaped_wf(m);
    let dims = map_model(m.parts(), f);
    assert forall|j: int| 0 <= j < dims.blocks.len() implies #[trigger] dims.blocks[j]
        == config_dims(m.config).blocks[j] by {
        let b = m.blocks@[j];
        assert(block_shaped(b, m.config));
        assert forall|i: int| 0 <= i < b.heads@.len() implies #[trigger] dims.blocks[j].heads[i]
            == head_dims(m.config) by {
            assert(head_shaped(b.heads@[i], m.config));
        }
        assert(dims.blocks[j].heads =~= block_dims(m.config).heads);
    }
    assert(dims.blocks =~= config_dims(m.config).blocks);
    assert(dims == config_dims(m.config));
    lemma_items_map(m.parts(), f);
    assert forall|j: int| 0 <= j < m.parts().blocks.len() implies #[trigger] same_block(
        m.parts().blocks[j],
        config_dims(m.config).blocks[j],
    ) by {
        assert(block_shaped(m.blocks@[j], m.config));
    }
}

/// A model whose weights, in the one order, are sound and have the configured
/// shapes is of its configured shapes.
pub proof fn lemma_items_shaped<T: Float>(m: Model<T>)
    requires
        m.wf(),
        same_form(m.parts(), config_dims(m.config)),
        items(m.parts()).len() == shapes_of(m.config).len(),
        forall|k: int|
            0 <= k < shapes_of(m.config).len() ==> (#[trigger] items(m.parts())[k]).shape@
                == shapes_of(m.config)[k],
    ensures
        m.shaped(),
{
    let (p, d) = (m.parts(), config_dims(m.config));
    let (ws, ss) = (items(p), shapes_of(m.config));
    assert(ws[0].shape@ == ss[0]);
    assert forall|j: int| 0 <= j < m.blocks@.len() implies block_shaped(
        #[trigger] m.blocks@[j],
        m.config,
    ) by {
        let b = m.blocks@[j];
        assert(same_block(p.blocks[j], d.blocks[j]));
        lemma_form_len(p, d, j as nat);
        lemma_ffn_place(p, j as nat);
        lemma_ffn_place(d, j as nat);
        let n = ffn_place(p, j as nat, 0) as int;
        assert(ws[n].shape@ == ss[n] && ws[n + 1].shape@ == ss[n + 1] && ws[n + 2].shape@ == ss[n
            + 2]);
        assert forall|i: int| 0 <= i < b.heads@.len() implies head_shaped(
            #[trigger] b.heads@[i],
            m.config,
        ) by {
            lemma_head_place(p, j as nat, i as nat);
            lemma_head_place(d, j as nat, i as nat);
            let q = head_place(p, j as nat, i as nat, 0) as int;
            assert(ws[q].shape@ == ss[q] && ws[q + 1].shape@ == ss[q + 1] && ws[q + 2].shape@
                == ss[q + 2] && ws[q + 3].shape@ == ss[q + 3]);
        }
    }
}

/// Every weight of the first `n` blocks is sound.
proof fn lemma_blocks_wf<T: Float>(m: Model<T>, n: nat)
    requires
        m.shaped(),
        n <= m.blocks@.len(),
    ensures
        forall|k: int|
            0 <= k < blocks_items(m.parts().blocks, n).len() ==> (#[trigger] blocks_items(
                m.parts().blocks,
                n,
            )[k]).wf(),
    decreases n,
{
    if n > 0 {
        lemma_blocks_wf(m, (n - 1) as nat);
        let b = m.blocks@[n - 1];
        assert(block_shaped(b, m.config));
        lemma_heads_wf(b, m.config, b.heads@.len());
        assert(m.parts().blocks[n - 1] == b.parts());
        let before = blocks_items(m.parts().blocks, (n - 1) as nat);
        let all = blocks_items(m.parts().blocks, n);
        let heads = heads_items(b.parts().heads, b.heads@.len());
        assert(b.parts().heads.len() == b.heads@.len());
        assert(all == before + block_items(b.parts()));
        assert forall|k: int| 0 <= k < all.len() implies (#[trigger] all[k]).wf() by {
            if k < before.len() {
                assert(all[k] == before[k]);
            } else {
                let i = k - before.len();
                assert(all[k] == block_items(b.parts())[i]);
                if i < heads.len() {
                    assert(block_items(b.parts())[i] == heads[i]);
                }
            }
        }
    }
}

/// Every weight of the first `n` heads is sound.
proof fn lemma_heads_wf<T: Float>(b: BlockMasters<T>, c: ModelConfig, n: nat)
    requires
        block_shaped(b, c),
        n <= b.heads@.len(),
    ensures
        forall|k: int|
            0 <= k < heads_items(b.parts().heads, n).len() ==> (#[trigger] heads_items(
                b.parts().heads,
                n,
            )[k]).wf(),
    decreases n,
{
    if n > 0 {
        lemma_heads_wf(b, c, (n - 1) as nat);
        let h = b.heads@[n - 1];
        assert(head_shaped(h, c));
        let before = heads_items(b.parts().heads, (n - 1) as nat);
        let all = heads_items(b.parts().heads, n);
        assert(all == before + head_items(h.parts()));
        assert forall|k: int| 0 <= k < all.len() implies (#[trigger] all[k]).wf() by {
            if k < before.len() {
                assert(all[k] == before[k]);
            } else {
                assert(all[k] == head_items(h.parts())[k - before.len()]);
            }
        }
    }
}

impl<T: Float> Model<T> {
    /// Appends every weight to the tape as a leaf, in the one order.
    pub fn register_leaves(&self, tape: &mut Tape<T>) -> (r: ModelLeaves)
        requires
            old(tape).wf(),
            self.wf(),
        ensures
            final(tape).wf(),
            planted(old(tape)@, final(tape)@, items(self.parts())),
            same_form(r.parts(), self.parts()),
            items(r.parts()).len() == items(self.parts()).len(),
            consecutive(items(r.parts()), old(tape)@.nodes.len()),
            marked(items(r.parts()), old(tape)@.mark),
            leaf_arrays(final(tape)@, r) == self@,
    {
        let ghost t0 = tape@;
        let ghost all = items(self.parts());
        let ghost bs = self.parts().blocks;
        proof {
            lemma_records_none(t0);
            assert(Seq::new(0, |k: int| Step::<T>::Leaf) =~= seq![]);
            assert(all[0] == self.token_embed);
        }
        let ghost none: Seq<Tensor<T>> = Seq::empty();
        let token_embed = plant(tape, &self.token_embed, Ghost(t0), Ghost(none));
        let ghost mut done: Seq<Tensor<T>> = none.push(self.token_embed);
        let ghost mut vars: Seq<Var> = seq![token_embed];
        let mut blocks: Vec<BlockWeights> = Vec::new();
        proof {
            assert(done =~= seq![self.token_embed] + blocks_items(bs, 0));
            assert(vars =~= seq![token_embed] + blocks_items(blocks_vars(blocks@), 0));
        }
        let mut j: usize = 0;
        while j < self.blocks.len()
            invariant
                j <= self.blocks@.len(),
                self.wf(),
                all == items(self.parts()),
                bs == self.parts().blocks,
                bs.len() == self.blocks@.len(),
                planted(t0, tape@, done),
                done == seq![self.token_embed] + blocks_items(bs, j as nat),
                blocks@.len() == j,
                vars == seq![token_embed] + blocks_items(blocks_vars(blocks@), j as nat),
                vars.len() == done.len(),
                consecutive(vars, t0.nodes.len()),
                marked(vars, t0.mark),
                forall|q: int|
                    0 <= q < j ==> (#[trigger] blocks@[q]).heads@.len() == bs[q].heads.len(),
            decreases self.blocks@.len() - j,
        {
            let b = &self.blocks[j];
            let ghost hs = bs[j as int].heads;
            let ghost base = done;
            let ghost vbase = vars;
            proof {
                crate::layout::lemma_blocks_prefix(bs, (j + 1) as nat, bs.len());
                assert(blocks_items(bs, (j + 1) as nat) == blocks_items(bs, j as nat)
                    + block_items(bs[j as int]));
                assert forall|k: int| 0 <= k < block_items(bs[j as int]).len() implies (
                #[trigger] block_items(bs[j as int])[k]).wf() by {
                    let at = blocks_items(bs, j as nat).len() + k;
                    assert(blocks_items(bs, (j + 1) as nat)[at] == block_items(bs[j as int])[k]);
                    assert(all[1 + at] == blocks_items(bs, bs.len())[at]);
                    assert(all[1 + at].wf());
                }
                lemma_heads_len(hs, hs.len());
                assert(base + heads_items(hs, 0) =~= base);
                assert forall|k: int| 0 <= k < heads_items(hs, hs.len()).len() implies (
                #[trigger] heads_items(hs, hs.len())[k]).wf() by {
                    assert(block_items(bs[j as int])[k] == heads_items(hs, hs.len())[k]);
                }
            }
            let mut heads: Vec<AttentionHeadVars> = Vec::new();
            proof {
                assert(vbase + heads_items(head_vars(heads@), 0) =~= vbase);
            }
            let mut i: usize = 0;
            while i < b.heads.len()
                invariant
                    i <= b.heads@.len(),
                    hs == heads_parts(b.heads@),
                    forall|k: int|
                        0 <= k < heads_items(hs, hs.len()).len() ==> (#[trigger] heads_items(
                            hs,
                            hs.len(),
                        )[k]).wf(),
                    planted(t0, tape@, done),
                    done == base + heads_items(hs, i as nat),
                    heads@.len() == i,
                    vars == vbase + heads_items(head_vars(heads@), i as nat),
                    vars.len() == done.len(),
                    consecutive(vars, t0.nodes.len()),
                    marked(vars, t0.mark),
                decreases b.heads@.len() - i,
            {
                let h = &b.heads[i];
                proof {
                    crate::layout::lemma_heads_prefix(hs, (i + 1) as nat, hs.len());
                    lemma_heads_len(hs, i as nat);
                    lemma_heads_len(hs, (i + 1) as nat);
                    let part = heads_items(hs, (i + 1) as nat);
                    let full = heads_items(hs, hs.len());
                    assert(part[4 * i] == h.w_q && part[4 * i] == full[4 * i as int]);
                    assert(part[4 * i + 1] == h.w_k && part[4 * i + 1] == full[4 * i + 1]);
                    assert(part[4 * i + 2] == h.w_v && part[4 * i + 2] == full[4 * i + 2]);
                    assert(part[4 * i + 3] == h.w_o && part[4 * i + 3] == full[4 * i + 3]);
                }
                let ghost before = done;
                let ghost vbefore = vars;
                let ghost hbefore = heads@;
                let w_q = plant(tape, &h.w_q, Ghost(t0), Ghost(before));
                let w_k = plant(tape, &h.w_k, Ghost(t0), Ghost(before.push(h.w_q)));
                let w_v = plant(tape, &h.w_v, Ghost(t0), Ghost(before.push(h.w_q).push(h.w_k)));
                let w_o = plant(
                    tape,
                    &h.w_o,
                    Ghost(t0),
                    Ghost(before.push(h.w_q).push(h.w_k).push(h.w_v)),
                );
                heads.push(AttentionHeadVars { w_q, w_k, w_v, w_o });
                proof {
                    done = before.push(h.w_q).push(h.w_k).push(h.w_v).push(h.w_o);
                    vars = vbefore.push(w_q).push(w_k).push(w_v).push(w_o);
                    assert(done =~= base + heads_items(hs, (i + 1) as nat));
                    lemma_heads_same(head_vars(hbefore), head_vars(heads@), i as nat);
                    assert(vars =~= vbase + heads_items(head_vars(heads@), (i + 1) as nat));
                }
                i += 1;
            }
            let ghost before = done;
            let ghost vbefore = vars;
            let ghost bbefore = blocks@;
            proof {
                let part = block_items(bs[j as int]);
                let at = heads_items(hs, hs.len()).len() as int;
                assert(part[at] == b.ffn_gate_w);
                assert(part[at + 1] == b.ffn_up_w);
                assert(part[at + 2] == b.ffn_down_w);
            }
            let ffn_gate_w = plant(tape, &b.ffn_gate_w, Ghost(t0), Ghost(before));
            let ffn_up_w = plant(tape, &b.ffn_up_w, Ghost(t0), Ghost(before.push(b.ffn_gate_w)));
            let ffn_down_w = plant(
                tape,
                &b.ffn_down_w,
                Ghost(t0),
                Ghost(before.push(b.ffn_gate_w).push(b.ffn_up_w)),
            );
            let ghost hv = head_vars(heads@);
            blocks.push(BlockWeights { heads, ffn_gate_w, ffn_up_w, ffn_down_w });
            proof {
                done = before.push(b.ffn_gate_w).push(b.ffn_up_w).push(b.ffn_down_w);
                vars = vbefore.push(ffn_gate_w).push(ffn_up_w).push(ffn_down_w);
                assert(done =~= seq![self.token_embed] + blocks_items(bs, (j + 1) as nat));
                lemma_blocks_same(blocks_vars(bbefore), blocks_vars(blocks@), j as nat);
                assert(blocks_vars(blocks@)[j as int].heads == hv);
                assert(vars =~= seq![token_embed] + blocks_items(
                    blocks_vars(blocks@),
                    (j + 1) as nat,
                ));
            }
            j += 1;
        }
        let r = ModelLeaves { token_embed, blocks };
        proof {
            assert(done =~= all);
            assert(vars =~= items(r.parts()));
            assert forall|q: int| 0 <= q < r.parts().blocks.len() implies #[trigger] same_block(
                r.parts().blocks[q],
                self.parts().blocks[q],
            ) by {
                assert(r.blocks@[q].heads@.len() == bs[q].heads.len());
            }
            lemma_planted(t0, tape@, *self, r);
        }
        r
    }

    /// Every weight, in the one order.
    pub fn params(&self) -> (r: Vec<&Tensor<T>>)
        ensures
            r@.len() == items(self.parts()).len(),
            forall|k: int| 0 <= k < r@.len() ==> *(#[trigger] r@[k]) == items(self.parts())[k],
    {
        let ghost bs = self.parts().blocks;
        let ghost mut done: Seq<Tensor<T>> = seq![self.token_embed];
        let mut out: Vec<&Tensor<T>> = Vec::new();
        out.push(&self.token_embed);
        proof {
            assert(done =~= seq![self.token_embed] + blocks_items(bs, 0));
        }
        let mut j: usize = 0;
        while j < self.blocks.len()
            invariant
                j <= self.blocks@.len(),
                bs == self.parts().blocks,
                done == seq![self.token_embed] + blocks_items(bs, j as nat),
                out@.len() == done.len(),
                forall|k: int| 0 <= k < out@.len() ==> *(#[trigger] out@[k]) == done[k],
            decreases self.blocks@.len() - j,
        {
            let b = &self.blocks[j];
            let ghost hs = bs[j as int].heads;
            let ghost base = done;
            proof {
                assert(base + heads_items(hs, 0) =~= base);
            }
            let mut i: usize = 0;
            while i < b.heads.len()
                invariant
                    i <= b.heads@.len(),
                    hs == heads_parts(b.heads@),
                    done == base + heads_items(hs, i as nat),
                    out@.len() == done.len(),
                    forall|k: int| 0 <= k < out@.len() ==> *(#[trigger] out@[k]) == done[k],
                decreases b.heads@.len() - i,
            {
                let h = &b.heads[i];
                out.push(&h.w_q);
                out.push(&h.w_k);
                out.push(&h.w_v);
                out.push(&h.w_o);
                proof {
                    done = done.push(h.w_q).push(h.w_k).push(h.w_v).push(h.w_o);
                    assert(done =~= base + heads_items(hs, (i + 1) as nat));
                }
                i += 1;
            }
            out.push(&b.ffn_gate_w);
            out.push(&b.ffn_up_w);
            out.push(&b.ffn_down_w);
            proof {
                done = done.push(b.ffn_gate_w).push(b.ffn_up_w).push(b.ffn_down_w);
                assert(done =~= seq![self.token_embed] + blocks_items(bs, (j + 1) as nat));
            }
            j += 1;
        }
        out
    }

    /// The shape of every weight, in the one order.
    pub fn param_shapes(&self) -> (r: Vec<Vec<usize>>)
        ensures
            r@.len() == items(self.parts()).len(),
            forall|k: int|
                0 <= k < r@.len() ==> (#[trigger] r@[k])@ == items(self.parts())[k].shape@,
    {
        let all = self.params();
        let mut out: Vec<Vec<usize>> = Vec::new();
        let mut k: usize = 0;
        while k < all.len()
            invariant
                k <= all@.len(),
                all@.len() == items(self.parts()).len(),
                forall|q: int|
                    0 <= q < all@.len() ==> *(#[trigger] all@[q]) == items(self.parts())[q],
                out@.len() == k,
                forall|q: int|
                    0 <= q < k ==> (#[trigger] out@[q])@ == items(self.parts())[q].shape@,
            decreases all@.len() - k,
        {
            out.push(copy_slice(all[k].shape.as_slice()));
            k += 1;
        }
        out
    }

    /// The gradient of every leaf, in the one order.
    pub fn for_each_grad(&self, tape: &Tape<T>, leaves: &ModelLeaves) -> (r: Vec<Tensor<T>>)
        requires
            tape.wf(),
            forall|k: int|
                0 <= k < items(leaves.parts()).len() ==> tape@.has(
                    #[trigger] items(leaves.parts())[k],
                ),
        ensures
            r@.len() == items(leaves.parts()).len(),
            forall|k: int|
                0 <= k < r@.len() ==> {
                    let v = items(leaves.parts())[k];
                    &&& (#[trigger] r@[k])@ == tape@.grads[v.id as int]
                    &&& r@[k].wf()
                    &&& r@[k].shape@ == tape@.value(v).dims
                },
    {
        let ghost all = items(leaves.parts());
        let ghost bs = leaves.parts().blocks;
        let ghost mut done: Seq<Var> = seq![leaves.token_embed];
        let mut out: Vec<Tensor<T>> = Vec::new();
        proof {
            assert(all[0] == leaves.token_embed);
        }
        out.push(leaves.token_embed.grad(tape));
        proof {
            assert(done =~= seq![leaves.token_embed] + blocks_items(bs, 0));
        }
        let mut j: usize = 0;
        while j < leaves.blocks.len()
            invariant
                j <= leaves.blocks@.len(),
                tape.wf(),
                all == items(leaves.parts()),
                bs == leaves.parts().blocks,
                bs.len() == leaves.blocks@.len(),
                forall|k: int| 0 <= k < all.len() ==> tape@.has(#[trigger] all[k]),
                done == seq![leaves.token_embed] + blocks_items(bs, j as nat),
                out@.len() == done.len(),
                forall|k: int| 0 <= k < out@.len() ==> grad_read(tape@, #[trigger] out@[k], done[k]),
            decreases leaves.blocks@.len() - j,
        {
            let b = &leaves.blocks[j];
            let ghost hs = bs[j as int].heads;
            let ghost base = done;
            proof {
                lemma_leaf_places(*leaves, j as int);
                assert(base + heads_items(hs, 0) =~= base);
            }
            let mut i: usize = 0;
            while i < b.heads.len()
                invariant
                    i <= b.heads@.len(),
                    j < leaves.blocks@.len(),
                    *b == leaves.blocks@[j as int],
                    tape.wf(),
                    all == items(leaves.parts()),
                    forall|k: int| 0 <= k < all.len() ==> tape@.has(#[trigger] all[k]),
                    hs == head_vars(b.heads@),
                    done == base + heads_items(hs, i as nat),
                    out@.len() == done.len(),
                    forall|k: int|
                        0 <= k < out@.len() ==> grad_read(tape@, #[trigger] out@[k], done[k]),
                decreases b.heads@.len() - i,
            {
                let h = &b.heads[i];
                proof {
                    lemma_head_place(leaves.parts(), j as nat, i as nat);
                    let p = head_place(leaves.parts(), j as nat, i as nat, 0) as int;
                    assert(tape@.has(all[p]) && tape@.has(all[p + 1]) && tape@.has(all[p + 2])
                        && tape@.has(all[p + 3]));
                }
                out.push(h.w_q.grad(tape));
                out.push(h.w_k.grad(tape));
                out.push(h.w_v.grad(tape));
                out.push(h.w_o.grad(tape));
                proof {
                    done = done.push(h.w_q).push(h.w_k).push(h.w_v).push(h.w_o);
                    assert(done =~= base + heads_items(hs, (i + 1) as nat));
                }
                i += 1;
            }
            proof {
                lemma_ffn_place(leaves.parts(), j as nat);
                let p = ffn_place(leaves.parts(), j as nat, 0) as int;
                assert(tape@.has(all[p]) && tape@.has(all[p + 1]) && tape@.has(all[p + 2]));
            }
            out.push(b.ffn_gate_w.grad(tape));
            out.push(b.ffn_up_w.grad(tape));
            out.push(b.ffn_down_w.grad(tape));
            proof {
                done = done.push(b.ffn_gate_w).push(b.ffn_up_w).push(b.ffn_down_w);
                assert(done =~= seq![leaves.token_embed] + blocks_items(bs, (j + 1) as nat));
            }
            j += 1;
        }
        proof {
            assert(done =~= all);
            assert forall|k: int| 0 <= k < out@.len() implies {
                let v = all[k];
                &&& (#[trigger] out@[k])@ == tape@.grads[v.id as int]
                &&& out@[k].wf()
                &&& out@[k].shape@ == tape@.value(v).dims
            } by {
                assert(grad_read(tape@, out@[k], done[k]));
            }
        }
        out
    }
}

/// `g` is the gradient of a node.
spec fn grad_read<T: Float>(t: Graph<T>, g: Tensor<T>, v: Var) -> bool {
    g@ == t.grads[v.id as int] && g.wf() && g.shape@ == t.value(v).dims
}

/// The arranged nodes of block `j` are those of the block.
proof fn lemma_leaf_places(leaves: ModelLeaves, j: int)
    requires
        0 <= j < leaves.blocks@.len(),
    ensures
        leaves.parts().blocks[j] == block_vars(leaves.blocks@[j]),
{
}

/// `b` is `a` with every weight replaced by what `f` gives for its place and itself.
pub open spec fn replaced<T: Float, F: Fn(usize, &Tensor<T>) -> Tensor<T>>(
    a: Model<T>,
    b: Model<T>,
    f: F,
) -> bool {
    &&& b.config == a.config
    &&& same_form(b.parts(), a.parts())
    &&& items(b.parts()).len() == items(a.parts()).len()
    &&& forall|k: int|
        0 <= k < items(a.parts()).len() ==> f.ensures(
            (k as usize, &items(a.parts())[k]),
            #[trigger] items(b.parts())[k],
        )
}

/// `r` is what `f` gives for weight `p` and a gradient tensor that holds `d`.
pub open spec fn updated_by<T: Float, F: Fn(&Tensor<T>, &Tensor<T>) -> Tensor<T>>(
    f: F,
    p: Tensor<T>,
    d: Array<T>,
    r: Tensor<T>,
) -> bool {
    exists|g: Tensor<T>| g@ == d && g.wf() && #[trigger] f.ensures((&p, &g), r)
}

/// The leaves are those of the model: as many, on the tape, and of the weights' shapes.
pub open spec fn leaves_match<T: Float>(t: Graph<T>, leaves: ModelLeaves, m: Model<T>) -> bool {
    &&& items(leaves.parts()).len() == items(m.parts()).len()
    &&& forall|k: int|
        0 <= k < items(m.parts()).len() ==> {
            &&& t.has(#[trigger] items(leaves.parts())[k])
            &&& t.value(items(leaves.parts())[k]).dims == items(m.parts())[k].shape@
        }
}

impl<T: Float> Model<T> {
    /// Replaces every weight, in the one order, by what `f` gives for its place and itself.
    pub fn for_each_param_mut<F: Fn(usize, &Tensor<T>) -> Tensor<T>>(&mut self, f: F)
        requires
            items(old(self).parts()).len() <= usize::MAX,
            forall|k: int|
                0 <= k < items(old(self).parts()).len() ==> f.requires(
                    (k as usize, #[trigger] &items(old(self).parts())[k]),
                ),
        ensures
            replaced(*old(self), *final(self), f),
    {
        let ghost all = items(self.parts());
        let ghost mp = self.parts();
        let ghost bs = self.parts().blocks;
        proof {
            assert(all[0] == self.token_embed);
        }
        let token_embed = f(0, &self.token_embed);
        let ghost mut news: Seq<Tensor<T>> = seq![token_embed];
        let mut k: usize = 1;
        let mut blocks: Vec<BlockMasters<T>> = Vec::new();
        proof {
            assert(news =~= seq![token_embed] + blocks_items(blocks_parts(blocks@), 0));
        }
        let mut j: usize = 0;
        while j < self.blocks.len()
            invariant
                j <= self.blocks@.len(),
                mp == self.parts(),
                all == items(mp),
                bs == mp.blocks,
                bs.len() == self.blocks@.len(),
                all.len() <= usize::MAX,
                forall|k: int|
                    0 <= k < all.len() ==> f.requires((k as usize, #[trigger] &all[k])),
                k == 1 + blocks_items(bs, j as nat).len(),
                blocks@.len() == j,
                news == seq![token_embed] + blocks_items(blocks_parts(blocks@), j as nat),
                news.len() == k,
                forall|q: int|
                    0 <= q < k ==> f.ensures((q as usize, &all[q]), #[trigger] news[q]),
                forall|q: int|
                    0 <= q < j ==> (#[trigger] blocks@[q]).heads@.len() == bs[q].heads.len(),
            decreases self.blocks@.len() - j,
        {
            let b = &self.blocks[j];
            let ghost hs = bs[j as int].heads;
            let ghost base = news;
            let mut heads: Vec<AttentionHead<T>> = Vec::new();
            proof {
                assert(base + heads_items(heads_parts(heads@), 0) =~= base);
            }
            let mut i: usize = 0;
            while i < b.heads.len()
                invariant
                    i <= b.heads@.len(),
                    j < bs.len(),
                    bs == mp.blocks,
                    hs == bs[j as int].heads,
                    hs == heads_parts(b.heads@),
                    all == items(mp),
                    all.len() <= usize::MAX,
                    forall|k: int|
                        0 <= k < all.len() ==> f.requires((k as usize, #[trigger] &all[k])),
                    k == 1 + blocks_items(bs, j as nat).len() + 4 * i,
                    heads@.len() == i,
                    news == base + heads_items(heads_parts(heads@), i as nat),
                    news.len() == k,
                    forall|q: int|
                        0 <= q < k ==> f.ensures((q as usize, &all[q]), #[trigger] news[q]),
                decreases b.heads@.len() - i,
            {
                let h = &b.heads[i];
                proof {
                    lemma_head_place(mp, j as nat, i as nat);
                    assert(head_place(mp, j as nat, i as nat, 0) == k);
                    assert(f.requires((k, &all[k as int])));
                    assert(f.requires(((k + 1) as usize, &all[k + 1])));
                    assert(f.requires(((k + 2) as usize, &all[k + 2])));
                    assert(f.requires(((k + 3) as usize, &all[k + 3])));
                }
                let ghost hbefore = heads@;
                let w_q = f(k, &h.w_q);
                let w_k = f(k + 1, &h.w_k);
                let w_v = f(k + 2, &h.w_v);
                let w_o = f(k + 3, &h.w_o);
                heads.push(AttentionHead { w_q, w_k, w_v, w_o });
                proof {
                    news = news.push(w_q).push(w_k).push(w_v).push(w_o);
                    lemma_heads_same(heads_parts(hbefore), heads_parts(heads@), i as nat);
                    assert(news =~= base + heads_items(heads_parts(heads@), (i + 1) as nat));
                }
                k += 4;
                i += 1;
            }
            proof {
                lemma_ffn_place(mp, j as nat);
                lemma_heads_len(hs, hs.len());
                assert(ffn_place(mp, j as nat, 0) == k);
                assert(f.requires((k, &all[k as int])));
                assert(f.requires(((k + 1) as usize, &all[k + 1])));
                assert(f.requires(((k + 2) as usize, &all[k + 2])));
            }
            let ghost bbefore = blocks@;
            let ghost hp = heads_parts(heads@);
            let ffn_gate_w = f(k, &b.ffn_gate_w);
            let ffn_up_w = f(k + 1, &b.ffn_up_w);
            let ffn_down_w = f(k + 2, &b.ffn_down_w);
            blocks.push(BlockMasters { heads, ffn_gate_w, ffn_up_w, ffn_down_w });
            proof {
                news = news.push(ffn_gate_w).push(ffn_up_w).push(ffn_down_w);
                lemma_blocks_same(blocks_parts(bbefore), blocks_parts(blocks@), j as nat);
                assert(blocks_parts(blocks@)[j as int].heads == hp);
                assert(news =~= seq![token_embed] + blocks_items(
                    blocks_parts(blocks@),
                    (j + 1) as nat,
                ));
            }
            k += 3;
            j += 1;
        }
        self.token_embed = token_embed;
        self.blocks = blocks;
        proof {
            assert(news =~= items(self.parts()));
            assert forall|q: int| 0 <= q < self.parts().blocks.len() implies #[trigger] same_block(
                self.parts().blocks[q],
                mp.blocks[q],
            ) by {
                assert(self.blocks@[q].heads@.len() == bs[q].heads.len());
            }
        }
    }

    /// Replaces every weight, in the one order, by what `f` gives for it and its gradient.
    pub fn for_each_param_with_grad<F: Fn(&Tensor<T>, &Tensor<T>) -> Tensor<T>>(
        &mut self,
        tape: &Tape<T>,
        leaves: &ModelLeaves,
        f: F,
    )
        requires
            tape.wf(),
            leaves_match(tape@, *leaves, *old(self)),
            items(old(self).parts()).len() <= usize::MAX,
            forall|k: int, g: Tensor<T>|
                0 <= k < items(old(self).parts()).len() && g@ == tape@.grads[items(
                    leaves.parts(),
                )[k].id as int] && g.wf() && g.shape@ == items(old(self).parts())[k].shape@
                    ==> #[trigger] f.requires((&items(old(self).parts())[k], &g)),
        ensures
            final(self).config == old(self).config,
            same_form(final(self).parts(), old(self).parts()),
            items(final(self).parts()).len() == items(old(self).parts()).len(),
            forall|k: int|
                0 <= k < items(old(self).parts()).len() ==> updated_by(
                    f,
                    items(old(self).parts())[k],
                    tape@.grads[items(leaves.parts())[k].id as int],
                    #[trigger] items(final(self).parts())[k],
                ),
    {
        let grads = self.for_each_grad(tape, leaves);
        let ghost all = items(self.parts());
        let g = &f;
        let step = |k: usize, p: &Tensor<T>| -> (r: Tensor<T>)
            requires
                k < grads@.len(),
                call_requires(g, (p, &grads@[k as int])),
            ensures
                call_ensures(g, (p, &grads@[k as int]), r),
            { g(p, &grads[k]) };
        proof {
            assert forall|k: int| 0 <= k < all.len() implies step.requires(
                (k as usize, #[trigger] &all[k]),
            ) by {
                assert(grads@[k].wf());
            }
        }
        self.for_each_param_mut(step);
        proof {
            assert forall|k: int| 0 <= k < all.len() implies updated_by(
                f,
                all[k],
                tape@.grads[items(leaves.parts())[k].id as int],
                #[trigger] items(self.parts())[k],
            ) by {
                assert(step.ensures((k as usize, &all[k]), items(self.parts())[k]));
                assert(f.ensures((&all[k], &grads@[k]), items(self.parts())[k]));
            }
        }
    }

    /// Moves every weight against its gradient by the learning rate.
    pub fn apply_grads(&mut self, tape: &Tape<T>, leaves: &ModelLeaves, lr: T)
        requires
            tape.wf(),
            old(self).wf(),
            leaves_match(tape@, *leaves, *old(self)),
            items(old(self).parts()).len() <= usize::MAX,
        ensures
            final(self).config == old(self).config,
            final(self).wf(),
            same_form(final(self).parts(), old(self).parts()),
            items(final(self).parts()).len() == items(old(self).parts()).len(),
            forall|k: int|
                0 <= k < items(old(self).parts()).len() ==> (#[trigger] items(
                    final(self).parts(),
                )[k]).shape@ == items(old(self).parts())[k].shape@,
            deterministic::<T>() ==> forall|k: int|
                0 <= k < items(old(self).parts()).len() ==> (#[trigger] items(
                    final(self).parts(),
                )[k])@ == descended_of(
                    items(old(self).parts())[k]@,
                    tape@.grads[items(leaves.parts())[k].id as int],
                    lr,
                ),
    {
        let ghost start = *self;
        let step = |p: &Tensor<T>, g: &Tensor<T>| -> (r: Tensor<T>)
            requires
                p.wf(),
                g.wf(),
                g.shape@ == p.shape@,
            ensures
                r.wf(),
                r.shape@ == p.shape@,
                deterministic::<T>() ==> r@ == descended_of(p@, g@, lr),
            { descended(p, g, lr) };
        self.for_each_param_with_grad(tape, leaves, step);
        proof {
            assert forall|k: int| 0 <= k < items(start.parts()).len() implies {
                &&& (#[trigger] items(self.parts())[k]).wf()
                &&& items(self.parts())[k].shape@ == items(start.parts())[k].shape@
                &&& deterministic::<T>() ==> items(self.parts())[k]@ == descended_of(
                    items(start.parts())[k]@,
                    tape@.grads[items(leaves.parts())[k].id as int],
                    lr,
                )
            } by {
                assert(updated_by(
                    step,
                    items(start.parts())[k],
                    tape@.grads[items(leaves.parts())[k].id as int],
                    items(self.parts())[k],
                ));
            }
        }
    }
}

impl<T: Float> Clone for AttentionHead<T> {
    fn clone(&self) -> (r: Self)
        ensures
            map_head(r.parts(), view_of()) == map_head(self.parts(), view_of()),
    {
        AttentionHead {
            w_q: self.w_q.clone(),
            w_k: self.w_k.clone(),
            w_v: self.w_v.clone(),
            w_o: self.w_o.clone(),
        }
    }
}

impl<T: Float> Clone for BlockMasters<T> {
    fn clone(&self) -> (r: Self)
        ensures
            map_block(r.parts(), view_of()) == map_block(self.parts(), view_of()),
    {
        let mut heads: Vec<AttentionHead<T>> = Vec::new();
        let mut i: usize = 0;
        while i < self.heads.len()
            invariant
                i <= self.heads@.len(),
                heads@.len() == i,
                forall|q: int|
                    0 <= q < i ==> map_head((#[trigger] heads@[q]).parts(), view_of()) == map_head(
                        self.heads@[q].parts(),
                        view_of(),
                    ),
            decreases self.heads@.len() - i,
        {
            heads.push(self.heads[i].clone());
            i += 1;
        }
        let r = BlockMasters {
            heads,
            ffn_gate_w: self.ffn_gate_w.clone(),
            ffn_up_w: self.ffn_up_w.clone(),
            ffn_down_w: self.ffn_down_w.clone(),
        };
        proof {
            assert(map_block(r.parts(), view_of()) =~= map_block(self.parts(), view_of()));
        }
        r
    }
}

impl<T: Float> Clone for Model<T> {
    fn clone(&self) -> (r: Self)
        ensures
            r@ == self@,
            r.config == self.config,
    {
        let mut blocks: Vec<BlockMasters<T>> = Vec::new();
        let mut j: usize = 0;
        while j < self.blocks.len()
            invariant
                j <= self.blocks@.len(),
                blocks@.len() == j,
                forall|q: int|
                    0 <= q < j ==> map_block((#[trigger] blocks@[q]).parts(), view_of())
                        == map_block(self.blocks@[q].parts(), view_of()),
            decreases self.blocks@.len() - j,
        {
            blocks.push(self.blocks[j].clone());
            j += 1;
        }
        let r = Model { token_embed: self.token_embed.clone(), blocks, config: self.config };
        proof {
            assert(r@ =~= self@);
        }
        r
    }
}

} // verus!
