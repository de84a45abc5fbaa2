//! How the weights of a model are arranged, and the one order in which they
//! are listed everywhere: the embedding, then for each block the four weights
//! of each head and the three weights of the feed-forward layer.
use vstd::prelude::*;

verus! {

/// One thing for each weight of a head.
pub struct HeadOf<X> {
    pub w_q: X,
    pub w_k: X,
    pub w_v: X,
    pub w_o: X,
}

/// One thing for each weight of a block.
#[verifier::ext_equal]
pub struct BlockOf<X> {
    pub heads: Seq<HeadOf<X>>,
    pub gate: X,
    pub up: X,
    pub down: X,
}

/// One thing for each weight of a model.
#[verifier::ext_equal]
pub struct ModelOf<X> {
    pub embed: X,
    pub blocks: Seq<BlockOf<X>>,
}

/// The things of a head, in order.
pub open spec fn head_items<X>(h: HeadOf<X>) -> Seq<X> {
    seq![h.w_q, h.w_k, h.w_v, h.w_o]
}

/// The things of the first `n` heads, in order.
pub open spec fn heads_items<X>(hs: Seq<HeadOf<X>>, n: nat) -> Seq<X>
    decreases n,
{
    if n == 0 {
        seq![]
    } else {
        heads_items(hs, (n - 1) as nat) + head_items(hs[n - 1])
    }
}

/// The things of a block, in order.
pub open spec fn block_items<X>(b: BlockOf<X>) -> Seq<X> {
    heads_items(b.heads, b.heads.len()) + seq![b.gate, b.up, b.down]
}

/// The things of the first `n` blocks, in order.
pub open spec fn blocks_items<X>(bs: Seq<BlockOf<X>>, n: nat) -> Seq<X>
    decreases n,
{
    if n == 0 {
        seq![]
    } else {
        blocks_items(bs, (n - 1) as nat) + block_items(bs[n - 1])
    }
}

/// The things of a model, in order.
pub open spec fn items<X>(m: ModelOf<X>) -> Seq<X> {
    seq![m.embed] + blocks_items(m.blocks, m.blocks.len())
}

/// `f` applied to each thing of a head.
pub open spec fn map_head<X, Y>(h: HeadOf<X>, f: spec_fn(X) -> Y) -> HeadOf<Y> {
    HeadOf { w_q: f(h.w_q), w_k: f(h.w_k), w_v: f(h.w_v), w_o: f(h.w_o) }
}

/// `f` applied to each thing of a block.
pub open spec fn map_block<X, Y>(b: BlockOf<X>, f: spec_fn(X) -> Y) -> BlockOf<Y> {
    BlockOf {
        heads: Seq::new(b.heads.len(), |i: int| map_head(b.heads[i], f)),
        gate: f(b.gate),
        up: f(b.up),
        down: f(b.down),
    }
}

/// `f` applied to each thing of a model.
pub open spec fn map_model<X, Y>(m: ModelOf<X>, f: spec_fn(X) -> Y) -> ModelOf<Y> {
    ModelOf {
        embed: f(m.embed),
        blocks: Seq::new(m.blocks.len(), |j: int| map_block(m.blocks[j], f)),
    }
}

/// Two blocks have as many heads.
pub open spec fn same_block<X, Y>(a: BlockOf<X>, b: BlockOf<Y>) -> bool {
    a.heads.len() == b.heads.len()
}

/// Two models have as many blocks, and these as many heads.
pub open spec fn same_form<X, Y>(a: ModelOf<X>, b: ModelOf<Y>) -> bool {
    &&& a.blocks.len() == b.blocks.len()
    &&& forall|j: int| 0 <= j < a.blocks.len() ==> #[trigger] same_block(a.blocks[j], b.blocks[j])
}

/// The heads' things number four each.
pub proof fn lemma_heads_len<X>(hs: Seq<HeadOf<X>>, n: nat)
    ensures
        heads_items(hs, n).len() == 4 * n,
    decreases n,
{
    if n > 0 {
        lemma_heads_len(hs, (n - 1) as nat);
    }
}

/// Models of one form have as many things in every leading part.
pub proof fn lemma_form_len<X, Y>(a: ModelOf<X>, b: ModelOf<Y>, n: nat)
    requires
        same_form(a, b),
        n <= a.blocks.len(),
    ensures
        blocks_items(a.blocks, n).len() == blocks_items(b.blocks, n).len(),
    decreases n,
{
    if n > 0 {
        lemma_form_len(a, b, (n - 1) as nat);
        assert(same_block(a.blocks[n - 1], b.blocks[n - 1]));
        lemma_heads_len(a.blocks[n - 1].heads, a.blocks[n - 1].heads.len());
        lemma_heads_len(b.blocks[n - 1].heads, b.blocks[n - 1].heads.len());
    }
}

/// A longer leading part of the heads starts with the shorter one.
pub proof fn lemma_heads_prefix<X>(hs: Seq<HeadOf<X>>, n: nat, k: nat)
    requires
        n <= k,
    ensures
        heads_items(hs, n).is_prefix_of(heads_items(hs, k)),
    decreases k,
{
    if n < k {
        lemma_heads_prefix(hs, n, (k - 1) as nat);
    }
}

/// A longer leading part of the blocks starts with the shorter one.
pub proof fn lemma_blocks_prefix<X>(bs: Seq<BlockOf<X>>, n: nat, k: nat)
    requires
        n <= k,
    ensures
        blocks_items(bs, n).is_prefix_of(blocks_items(bs, k)),
    decreases k,
{
    if n < k {
        lemma_blocks_prefix(bs, n, (k - 1) as nat);
    }
}

/// What the first heads are decides their things.
pub proof fn lemma_heads_same<X>(a: Seq<HeadOf<X>>, b: Seq<HeadOf<X>>, n: nat)
    requires
        n <= a.len(),
        n <= b.len(),
        forall|i: int| 0 <= i < n ==> a[i] == b[i],
    ensures
        heads_items(a, n) == heads_items(b, n),
    decreases n,
{
    if n > 0 {
        lemma_heads_same(a, b, (n - 1) as nat);
    }
}

/// What the first blocks are decides their things.
pub proof fn lemma_blocks_same<X>(a: Seq<BlockOf<X>>, b: Seq<BlockOf<X>>, n: nat)
    requires
        n <= a.len(),
        n <= b.len(),
        forall|j: int| 0 <= j < n ==> a[j] == b[j],
    ensures
        blocks_items(a, n) == blocks_items(b, n),
    decreases n,
{
    if n > 0 {
        lemma_blocks_same(a, b, (n - 1) as nat);
    }
}

/// Applying a function to the things of a model applies it to each in order.
pub proof fn lemma_items_map<X, Y>(m: ModelOf<X>, f: spec_fn(X) -> Y)
    ensures
        items(map_model(m, f)) == items(m).map_values(f),
{
    let n = m.blocks.len();
    lemma_blocks_map(m, f, n);
    assert(items(map_model(m, f)) =~= items(m).map_values(f));
}

/// The same of the first `n` blocks.
proof fn lemma_blocks_map<X, Y>(m: ModelOf<X>, f: spec_fn(X) -> Y, n: nat)
    requires
        n <= m.blocks.len(),
    ensures
        blocks_items(map_model(m, f).blocks, n) == blocks_items(m.blocks, n).map_values(f),
    decreases n,
{
    let to = map_model(m, f).blocks;
    if n > 0 {
        lemma_blocks_map(m, f, (n - 1) as nat);
        let b = m.blocks[n - 1];
        lemma_heads_map(b, f, b.heads.len());
        assert(block_items(to[n - 1]) =~= block_items(b).map_values(f));
    }
    assert(blocks_items(to, n) =~= blocks_items(m.blocks, n).map_values(f));
}

/// The same of the first `n` heads of a block.
proof fn lemma_heads_map<X, Y>(b: BlockOf<X>, f: spec_fn(X) -> Y, n: nat)
    requires
        n <= b.heads.len(),
    ensures
        heads_items(map_block(b, f).heads, n) == heads_items(b.heads, n).map_values(f),
    decreases n,
{
    let to = map_block(b, f).heads;
    if n > 0 {
        lemma_heads_map(b, f, (n - 1) as nat);
        assert(head_items(to[n - 1]) =~= head_items(b.heads[n - 1]).map_values(f));
    }
    assert(heads_items(to, n) =~= heads_items(b.heads, n).map_values(f));
}

/// The place of weight `part` of head `i` of block `j`, for a model of this form.
pub open spec fn head_place<X>(m: ModelOf<X>, j: nat, i: nat, part: nat) -> nat {
    1 + blocks_items(m.blocks, j).len() + 4 * i + part
}

/// The place of the `part`-th of gate, lift and projection of block `j`.
pub open spec fn ffn_place<X>(m: ModelOf<X>, j: nat, part: nat) -> nat {
    1 + blocks_items(m.blocks, j).len() + 4 * m.blocks[j as int].heads.len() + part
}

/// What stands at the places of a head.
pub proof fn lemma_head_place<X>(m: ModelOf<X>, j: nat, i: nat)
    requires
        j < m.blocks.len(),
        i < m.blocks[j as int].heads.len(),
    ensures
        head_place(m, j, i, 3) < items(m).len(),
        items(m)[head_place(m, j, i, 0) as int] == m.blocks[j as int].heads[i as int].w_q,
        items(m)[head_place(m, j, i, 1) as int] == m.blocks[j as int].heads[i as int].w_k,
        items(m)[head_place(m, j, i, 2) as int] == m.blocks[j as int].heads[i as int].w_v,
        items(m)[head_place(m, j, i, 3) as int] == m.blocks[j as int].heads[i as int].w_o,
{
    let hs = m.blocks[j as int].heads;
    lemma_heads_len(hs, i);
    lemma_heads_len(hs, i + 1);
    lemma_heads_len(hs, hs.len());
    lemma_heads_prefix(hs, i + 1, hs.len());
    lemma_blocks_prefix(m.blocks, j + 1, m.blocks.len());
    let all = blocks_items(m.blocks, m.blocks.len());
    let upto = blocks_items(m.blocks, j + 1);
    let before = blocks_items(m.blocks, j);
    assert(upto == before + block_items(m.blocks[j as int]));
    assert forall|part: int| 0 <= part < 4 implies #[trigger] items(m)[1 + before.len() + 4 * i
        + part] == head_items(hs[i as int])[part] by {
        let at = before.len() + 4 * i + part;
        assert(items(m)[1 + at] == all[at]);
        assert(all[at] == upto[at]);
        assert(upto[at] == block_items(m.blocks[j as int])[4 * i + part]);
        assert(block_items(m.blocks[j as int])[4 * i + part] == heads_items(hs, hs.len())[4 * i
            + part]);
        assert(heads_items(hs, hs.len())[4 * i + part] == heads_items(hs, i + 1)[4 * i + part]);
    }
    assert(items(m)[(1 + before.len() + 4 * i + 0) as int] == head_items(hs[i as int])[0]);
    assert(items(m)[(1 + before.len() + 4 * i + 1) as int] == head_items(hs[i as int])[1]);
    assert(items(m)[(1 + before.len() + 4 * i + 2) as int] == head_items(hs[i as int])[2]);
    assert(items(m)[(1 + before.len() + 4 * i + 3) as int] == head_items(hs[i as int])[3]);
}

/// What stands at the places of a feed-forward layer.
pub proof fn lemma_ffn_place<X>(m: ModelOf<X>, j: nat)
    requires
        j < m.blocks.len(),
    ensures
        ffn_place(m, j, 2) < items(m).len(),
        items(m)[ffn_place(m, j, 0) as int] == m.blocks[j as int].gate,
        items(m)[ffn_place(m, j, 1) as int] == m.blocks[j as int].up,
        items(m)[ffn_place(m, j, 2) as int] == m.blocks[j as int].down,
{
    let b = m.blocks[j as int];
    lemma_heads_len(b.heads, b.heads.len());
    lemma_blocks_prefix(m.blocks, j + 1, m.blocks.len());
    let all = blocks_items(m.blocks, m.blocks.len());
    let upto = blocks_items(m.blocks, j + 1);
    let before = blocks_items(m.blocks, j);
    assert(upto == before + block_items(b));
    assert forall|part: int| 0 <= part < 3 implies #[trigger] items(m)[1 + before.len() + 4
        * b.heads.len() + part] == seq![b.gate, b.up, b.down][part] by {
        let at = before.len() + 4 * b.heads.len() + part;
        assert(items(m)[1 + at] == all[at]);
        assert(all[at] == upto[at]);
        assert(upto[at] == block_items(b)[4 * b.heads.len() + part]);
    }
    assert(items(m)[(1 + before.len() + 4 * b.heads.len() + 0) as int] == b.gate);
    assert(items(m)[(1 + before.len() + 4 * b.heads.len() + 1) as int] == b.up);
    assert(items(m)[(1 + before.len() + 4 * b.heads.len() + 2) as int] == b.down);
}

/// Two arrangements of one form that list the same things are the same.
pub proof fn lemma_items_decide<X>(a: ModelOf<X>, b: ModelOf<X>)
    requires
        same_form(a, b),
        items(a) == items(b),
    ensures
        a == b,
{
    assert(items(a)[0] == a.embed && items(b)[0] == b.embed);
    assert forall|j: int| 0 <= j < a.blocks.len() implies #[trigger] a.blocks[j]
        == b.blocks[j] by {
        assert(same_block(a.blocks[j], b.blocks[j]));
        lemma_form_len(a, b, j as nat);
        lemma_ffn_place(a, j as nat);
        lemma_ffn_place(b, j as nat);
        assert forall|i: int| 0 <= i < a.blocks[j].heads.len() implies #[trigger] a.blocks[j].heads[i]
            == b.blocks[j].heads[i] by {
            lemma_head_place(a, j as nat, i as nat);
            lemma_head_place(b, j as nat, i as nat);
        }
        assert(a.blocks[j].heads =~= b.blocks[j].heads);
    }
    assert(a.blocks =~= b.blocks);
}

} // verus!
