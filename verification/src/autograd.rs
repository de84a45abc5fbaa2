//! Reverse-mode differentiation over a tape of recorded operations.
//!
//! Each operation on a [`Var`] appends one node to a [`Tape`]: its value and the
//! step that made it. [`Tape::backward`] walks the nodes from the last to the
//! first and adds what each step passes back to the gradients of its inputs.
use crate::bitlinear::{dequantised_acts, dequantised_weights, restored_acts, ternary_weights};
use crate::float::{deterministic, fbits, fone, fzero, Float, MINUS_ONE, ONE, ZERO};
use crate::ops::{
    causal_mask_grad_of, causal_mask_of, cross_entropy_grad_of, cross_entropy_of, embed_grad_of,
    embed_of, ids_below, mean_grad_of, mean_of, relu_grad_of, relu_of, rmsnorm_grad_of, rmsnorm_of,
    rope_grad_of, rope_of, silu_grad_of, silu_of, single, softmax_grad_of, softmax_of,
};
use crate::tensor::{
    add_of, copy_slice, filled, lemma_volume1, lemma_volume2, matmul_of, mul_of, scale_of, sub_of,
    transpose_of, Array, Tensor,
};
use vstd::prelude::*;

verus! {

/// The place of a node on its tape.
pub type NodeId = usize;

/// What a node was made by, with the inputs as nodes.
pub enum Op<T> {
    Leaf,
    Add(NodeId, NodeId),
    Sub(NodeId, NodeId),
    Mul(NodeId, NodeId),
    MatMul(NodeId, NodeId),
    Mean(NodeId),
    QuantiseWeights(NodeId),
    QuantiseActs(NodeId),
    Transpose(NodeId),
    Relu(NodeId),
    Silu(NodeId),
    Softmax(NodeId),
    RmsNorm(NodeId),
    CausalMask(NodeId),
    Rope(NodeId),
    MulScalar(NodeId, T),
    Embed(NodeId, Vec<usize>),
    CrossEntropy(NodeId, Vec<usize>),
}

/// The mathematical form of [`Op`].
pub enum Step<T> {
    Leaf,
    Add(NodeId, NodeId),
    Sub(NodeId, NodeId),
    Mul(NodeId, NodeId),
    MatMul(NodeId, NodeId),
    Mean(NodeId),
    QuantiseWeights(NodeId),
    QuantiseActs(NodeId),
    Transpose(NodeId),
    Relu(NodeId),
    Silu(NodeId),
    Softmax(NodeId),
    RmsNorm(NodeId),
    CausalMask(NodeId),
    Rope(NodeId),
    MulScalar(NodeId, T),
    Embed(NodeId, Seq<usize>),
    CrossEntropy(NodeId, Seq<usize>),
}

impl<T> Op<T> {
    /// The mathematical form.
    pub open spec fn step(self) -> Step<T> {
        match self {
            Op::Leaf => Step::Leaf,
            Op::Add(a, b) => Step::Add(a, b),
            Op::Sub(a, b) => Step::Sub(a, b),
            Op::Mul(a, b) => Step::Mul(a, b),
            Op::MatMul(a, b) => Step::MatMul(a, b),
            Op::Mean(a) => Step::Mean(a),
            Op::QuantiseWeights(a) => Step::QuantiseWeights(a),
            Op::QuantiseActs(a) => Step::QuantiseActs(a),
            Op::Transpose(a) => Step::Transpose(a),
            Op::Relu(a) => Step::Relu(a),
            Op::Silu(a) => Step::Silu(a),
            Op::Softmax(a) => Step::Softmax(a),
            Op::RmsNorm(a) => Step::RmsNorm(a),
            Op::CausalMask(a) => Step::CausalMask(a),
            Op::Rope(a) => Step::Rope(a),
            Op::MulScalar(a, s) => Step::MulScalar(a, s),
            Op::Embed(a, ids) => Step::Embed(a, ids@),
            Op::CrossEntropy(a, targets) => Step::CrossEntropy(a, targets@),
        }
    }
}

/// A node as mathematics sees it.
#[verifier::ext_equal]
pub struct Entry<T> {
    pub value: Array<T>,
    pub step: Step<T>,
}

/// A tape as mathematics sees it: the nodes, the gradient held for each, and what
/// tells the tape from others.
#[verifier::ext_equal]
pub struct Graph<T> {
    pub mark: int,
    pub nodes: Seq<Entry<T>>,
    pub grads: Seq<Array<T>>,
}

/// Every input of the step comes before node `n`.
pub open spec fn parents_below<T>(step: Step<T>, n: nat) -> bool {
    match step {
        Step::Leaf => true,
        Step::Add(a, b) => a < n && b < n,
        Step::Sub(a, b) => a < n && b < n,
        Step::Mul(a, b) => a < n && b < n,
        Step::MatMul(a, b) => a < n && b < n,
        Step::Mean(a) => a < n,
        Step::QuantiseWeights(a) => a < n,
        Step::QuantiseActs(a) => a < n,
        Step::Transpose(a) => a < n,
        Step::Relu(a) => a < n,
        Step::Silu(a) => a < n,
        Step::Softmax(a) => a < n,
        Step::RmsNorm(a) => a < n,
        Step::CausalMask(a) => a < n,
        Step::Rope(a) => a < n,
        Step::MulScalar(a, s) => a < n,
        Step::Embed(a, ids) => a < n,
        Step::CrossEntropy(a, targets) => a < n,
    }
}

/// The dimensions of a node's value.
pub open spec fn dims_at<T>(t: Seq<Entry<T>>, a: NodeId) -> Seq<usize> {
    t[a as int].value.dims
}

/// The shapes of the inputs let the step be taken.
pub open spec fn fits<T>(step: Step<T>, t: Seq<Entry<T>>) -> bool {
    match step {
        Step::Add(a, b) => dims_at(t, a) == dims_at(t, b),
        Step::Sub(a, b) => dims_at(t, a) == dims_at(t, b),
        Step::Mul(a, b) => dims_at(t, a) == dims_at(t, b),
        Step::MatMul(a, b) => {
            &&& dims_at(t, a).len() == 2
            &&& dims_at(t, b).len() == 2
            &&& dims_at(t, a)[1] == dims_at(t, b)[0]
            &&& dims_at(t, a)[0] * dims_at(t, b)[1] <= usize::MAX
        },
        Step::QuantiseActs(a) => dims_at(t, a).len() == 2,
        Step::Transpose(a) => dims_at(t, a).len() == 2,
        Step::Softmax(a) => dims_at(t, a).len() == 2,
        Step::RmsNorm(a) => dims_at(t, a).len() == 2,
        Step::CausalMask(a) => dims_at(t, a).len() == 2,
        Step::Rope(a) => dims_at(t, a).len() == 2 && dims_at(t, a)[1] % 2 == 0,
        Step::Embed(a, ids) => {
            &&& dims_at(t, a).len() == 2
            &&& ids_below(ids, dims_at(t, a)[0])
            &&& ids.len() <= usize::MAX
            &&& ids.len() * dims_at(t, a)[1] <= usize::MAX
        },
        Step::CrossEntropy(a, targets) => {
            &&& dims_at(t, a).len() == 2
            &&& targets.len() == dims_at(t, a)[0]
            &&& ids_below(targets, dims_at(t, a)[1])
        },
        _ => true,
    }
}

/// The dimensions of what a step makes; `own` for a leaf.
pub open spec fn step_dims<T>(step: Step<T>, t: Seq<Entry<T>>, own: Seq<usize>) -> Seq<usize> {
    match step {
        Step::Leaf => own,
        Step::Add(a, b) => dims_at(t, a),
        Step::Sub(a, b) => dims_at(t, a),
        Step::Mul(a, b) => dims_at(t, a),
        Step::MatMul(a, b) => seq![dims_at(t, a)[0], dims_at(t, b)[1]],
        Step::Mean(a) => seq![1usize],
        Step::QuantiseWeights(a) => dims_at(t, a),
        Step::QuantiseActs(a) => dims_at(t, a),
        Step::Transpose(a) => seq![dims_at(t, a)[1], dims_at(t, a)[0]],
        Step::Relu(a) => dims_at(t, a),
        Step::Silu(a) => dims_at(t, a),
        Step::Softmax(a) => dims_at(t, a),
        Step::RmsNorm(a) => dims_at(t, a),
        Step::CausalMask(a) => dims_at(t, a),
        Step::Rope(a) => dims_at(t, a),
        Step::MulScalar(a, s) => dims_at(t, a),
        Step::Embed(a, ids) => seq![ids.len() as usize, dims_at(t, a)[1]],
        Step::CrossEntropy(a, targets) => seq![1usize],
    }
}

/// The value that a step makes from the values of its inputs; `own` for a leaf.
pub open spec fn step_value<T: Float>(step: Step<T>, t: Seq<Entry<T>>, own: Array<T>) -> Array<T> {
    match step {
        Step::Leaf => own,
        Step::Add(a, b) => add_of(t[a as int].value, t[b as int].value),
        Step::Sub(a, b) => sub_of(t[a as int].value, t[b as int].value),
        Step::Mul(a, b) => mul_of(t[a as int].value, t[b as int].value),
        Step::MatMul(a, b) => matmul_of(t[a as int].value, t[b as int].value),
        Step::Mean(a) => mean_of(t[a as int].value),
        Step::QuantiseWeights(a) => ternary_weights(t[a as int].value),
        Step::QuantiseActs(a) => restored_acts(t[a as int].value),
        Step::Transpose(a) => transpose_of(t[a as int].value),
        Step::Relu(a) => relu_of(t[a as int].value),
        Step::Silu(a) => silu_of(t[a as int].value),
        Step::Softmax(a) => softmax_of(t[a as int].value),
        Step::RmsNorm(a) => rmsnorm_of(t[a as int].value),
        Step::CausalMask(a) => causal_mask_of(t[a as int].value),
        Step::Rope(a) => rope_of(t[a as int].value),
        Step::MulScalar(a, s) => scale_of(t[a as int].value, s),
        Step::Embed(a, ids) => embed_of(t[a as int].value, ids),
        Step::CrossEntropy(a, targets) => cross_entropy_of(t[a as int].value, targets),
    }
}

/// Node `i` was made by its step from earlier nodes.
pub open spec fn entry_ok<T: Float>(t: Seq<Entry<T>>, i: int) -> bool {
    let e = t[i];
    &&& parents_below(e.step, i as nat)
    &&& fits(e.step, t)
    &&& e.value.wf()
    &&& e.value.dims == step_dims(e.step, t, e.value.dims)
    &&& deterministic::<T>() ==> e.value == step_value(e.step, t, e.value)
}

/// Every node was made by its step from earlier nodes.
pub open spec fn nodes_ok<T: Float>(t: Seq<Entry<T>>) -> bool {
    forall|i: int| 0 <= i < t.len() ==> #[trigger] entry_ok(t, i)
}

/// There is one gradient for each node, of the node's shape.
pub open spec fn grads_ok<T: Float>(t: Seq<Entry<T>>, grads: Seq<Array<T>>) -> bool {
    &&& grads.len() == t.len()
    &&& forall|i: int|
        0 <= i < t.len() ==> (#[trigger] grads[i]).wf() && grads[i].dims == t[i].value.dims
}

impl<T: Float> Graph<T> {
    /// The invariant of a tape.
    pub open spec fn wf(self) -> bool {
        nodes_ok(self.nodes) && grads_ok(self.nodes, self.grads)
    }

    /// The value of a node.
    pub open spec fn value(self, v: Var) -> Array<T> {
        self.nodes[v.id as int].value
    }

    /// The handle is one of this tape, and its node is there.
    pub open spec fn has(self, v: Var) -> bool {
        v.tape@ == self.mark && v.id < self.nodes.len()
    }

    /// The step can be taken on this tape.
    pub open spec fn admits(self, step: Step<T>) -> bool {
        self.wf() && parents_below(step, self.nodes.len()) && fits(step, self.nodes)
    }

    /// `later` is this tape with further nodes; nothing that was there has changed.
    pub open spec fn extends_to(self, later: Graph<T>) -> bool {
        &&& self.mark == later.mark
        &&& self.nodes.len() <= later.nodes.len()
        &&& later.nodes.take(self.nodes.len() as int) == self.nodes
        &&& self.grads == later.grads.take(self.nodes.len() as int)
    }

    /// `later` is this tape with one more node, made by `step`, with a gradient of zeros.
    pub open spec fn grows_by(self, later: Graph<T>, step: Step<T>) -> bool {
        &&& later.wf()
        &&& later.mark == self.mark
        &&& later.nodes.len() == self.nodes.len() + 1
        &&& later.nodes.drop_last() == self.nodes
        &&& later.grads.drop_last() == self.grads
        &&& later.nodes.last().step == step
        &&& deterministic::<T>() ==> later.grads.last() == filled(
            later.nodes.last().value.dims,
            fzero::<T>(),
        )
    }
}

impl<T: Float> Graph<T> {
    /// `later` is this tape with further nodes made by `steps`, in order, each
    /// with a gradient of zeros.
    pub open spec fn records(self, later: Graph<T>, steps: Seq<Step<T>>) -> bool {
        &&& self.wf()
        &&& later.wf()
        &&& self.extends_to(later)
        &&& later.nodes.len() == self.nodes.len() + steps.len()
        &&& forall|k: int|
            0 <= k < steps.len() ==> #[trigger] later.nodes[self.nodes.len() + k].step == steps[k]
        &&& deterministic::<T>() ==> forall|k: int|
            self.nodes.len() <= k < later.nodes.len() ==> #[trigger] later.grads[k] == filled(
                later.nodes[k].value.dims,
                fzero::<T>(),
            )
    }
}

/// A tape records nothing to become itself.
pub proof fn lemma_records_none<T: Float>(a: Graph<T>)
    requires
        a.wf(),
    ensures
        a.records(a, seq![]),
{
    assert(a.nodes.take(a.nodes.len() as int) =~= a.nodes);
    assert(a.grads.take(a.nodes.len() as int) =~= a.grads);
}

/// One more node records one more step, has the shape its step gives it, and
/// leaves the earlier nodes alone.
pub proof fn lemma_records_push<T: Float>(
    a: Graph<T>,
    b: Graph<T>,
    c: Graph<T>,
    steps: Seq<Step<T>>,
    step: Step<T>,
)
    requires
        a.records(b, steps),
        b.grows_by(c, step),
    ensures
        a.records(c, steps.push(step)),
        forall|i: int| 0 <= i < b.nodes.len() ==> #[trigger] c.nodes[i] == b.nodes[i],
        c.nodes.last().value.dims == step_dims(step, b.nodes, c.nodes.last().value.dims),
{
    let n = a.nodes.len() as int;
    assert forall|i: int| 0 <= i < b.nodes.len() implies #[trigger] c.nodes[i] == b.nodes[i] by {
        assert(c.nodes.drop_last()[i] == c.nodes[i]);
    }
    assert forall|i: int| 0 <= i < b.nodes.len() implies #[trigger] c.grads[i] == b.grads[i] by {
        assert(c.grads.drop_last()[i] == c.grads[i]);
    }
    assert(c.nodes.take(n) =~= b.nodes.take(n));
    assert(c.grads.take(n) =~= b.grads.take(n));
    assert forall|k: int| 0 <= k < steps.len() + 1 implies #[trigger] c.nodes[a.nodes.len()
        + k].step == steps.push(step)[k] by {
        if k < steps.len() {
            assert(b.nodes[a.nodes.len() + k].step == steps[k]);
        }
    }
    assert(entry_ok(c.nodes, b.nodes.len() as int));
    lemma_prefix_step(step, b.nodes, c.nodes, b.nodes.len(), c.nodes.last().value);
}

/// What two stretches record, they record together.
pub proof fn lemma_records_concat<T: Float>(
    a: Graph<T>,
    b: Graph<T>,
    c: Graph<T>,
    first: Seq<Step<T>>,
    second: Seq<Step<T>>,
)
    requires
        a.records(b, first),
        b.records(c, second),
    ensures
        a.records(c, first + second),
        forall|i: int| 0 <= i < b.nodes.len() ==> #[trigger] c.nodes[i] == b.nodes[i],
{
    let n = a.nodes.len() as int;
    let m = b.nodes.len() as int;
    assert forall|i: int| 0 <= i < m implies #[trigger] c.nodes[i] == b.nodes[i] by {
        assert(c.nodes.take(m)[i] == c.nodes[i]);
    }
    assert forall|i: int| 0 <= i < m implies #[trigger] c.grads[i] == b.grads[i] by {
        assert(c.grads.take(m)[i] == c.grads[i]);
    }
    assert(c.nodes.take(n) =~= b.nodes.take(n));
    assert(c.grads.take(n) =~= b.grads.take(n));
    assert forall|k: int| 0 <= k < (first + second).len() implies #[trigger] c.nodes[a.nodes.len()
        + k].step == (first + second)[k] by {
        if k < first.len() {
            assert(b.nodes[a.nodes.len() + k].step == first[k]);
        } else {
            assert(c.nodes[b.nodes.len() + (k - first.len())].step == second[k - first.len()]);
        }
    }
}

/// What node `i` passes back to its inputs for its gradient `g`.
pub open spec fn contributions<T: Float>(
    t: Seq<Entry<T>>,
    i: int,
    g: Array<T>,
) -> Seq<(NodeId, Array<T>)> {
    match t[i].step {
        Step::Leaf => seq![],
        Step::Add(a, b) => seq![(a, g), (b, g)],
        Step::Sub(a, b) => seq![(a, g), (b, scale_of(g, fbits::<T>(MINUS_ONE)))],
        Step::Mul(a, b) => seq![
            (a, mul_of(g, t[b as int].value)),
            (b, mul_of(g, t[a as int].value)),
        ],
        Step::MatMul(a, b) => seq![
            (a, matmul_of(g, transpose_of(t[b as int].value))),
            (b, matmul_of(transpose_of(t[a as int].value), g)),
        ],
        Step::Mean(a) => seq![(a, mean_grad_of(g, t[a as int].value))],
        Step::QuantiseWeights(a) => seq![(a, g)],
        Step::QuantiseActs(a) => seq![(a, g)],
        Step::Transpose(a) => seq![(a, transpose_of(g))],
        Step::Relu(a) => seq![(a, relu_grad_of(g, t[a as int].value))],
        Step::Silu(a) => seq![(a, silu_grad_of(g, t[a as int].value))],
        Step::Softmax(a) => seq![(a, softmax_grad_of(g, t[i].value))],
        Step::RmsNorm(a) => seq![(a, rmsnorm_grad_of(g, t[a as int].value))],
        Step::CausalMask(a) => seq![(a, causal_mask_grad_of(g))],
        Step::Rope(a) => seq![(a, rope_grad_of(g))],
        Step::MulScalar(a, s) => seq![(a, scale_of(g, s))],
        Step::Embed(a, ids) => seq![(a, embed_grad_of(g, t[a as int].value, ids))],
        Step::CrossEntropy(a, targets) => seq![
            (a, cross_entropy_grad_of(g, softmax_of(t[a as int].value), targets)),
        ],
    }
}

/// The gradients with each contribution added, in order, where it goes.
pub open spec fn accumulate<T: Float>(
    grads: Seq<Array<T>>,
    c: Seq<(NodeId, Array<T>)>,
) -> Seq<Array<T>>
    decreases c.len(),
{
    if c.len() == 0 {
        grads
    } else {
        let before = accumulate(grads, c.drop_last());
        let p = c.last().0 as int;
        before.update(p, add_of(before[p], c.last().1))
    }
}

/// The gradients after nodes `k - 1` down to 0 have passed theirs back.
pub open spec fn back<T: Float>(t: Seq<Entry<T>>, grads: Seq<Array<T>>, k: nat) -> Seq<Array<T>>
    decreases k,
{
    if k == 0 {
        grads
    } else {
        back(t, accumulate(grads, contributions(t, k - 1, grads[k - 1])), (k - 1) as nat)
    }
}

/// The gradients with that of `output` set to ones.
pub open spec fn seeded<T: Float>(g: Graph<T>, output: NodeId) -> Seq<Array<T>> {
    g.grads.update(
        output as int,
        filled(g.nodes[output as int].value.dims, fone::<T>()),
    )
}

/// A recorded value and the operation that made it.
pub struct Node<T> {
    pub value: Tensor<T>,
    pub op: Op<T>,
}

impl<T> Node<T> {
    /// The mathematical form.
    pub open spec fn entry(self) -> Entry<T> {
        Entry { value: self.value@, step: self.op.step() }
    }
}

/// The nodes' mathematical form.
pub open spec fn entries<T>(nodes: Seq<Node<T>>) -> Seq<Entry<T>> {
    Seq::new(nodes.len(), |i: int| nodes[i].entry())
}

/// The tensors' mathematical form.
pub open spec fn arrays<T>(grads: Seq<Tensor<T>>) -> Seq<Array<T>> {
    Seq::new(grads.len(), |i: int| grads[i]@)
}

/// The contributions' mathematical form.
pub open spec fn shares<T>(c: Seq<(NodeId, Tensor<T>)>) -> Seq<(NodeId, Array<T>)> {
    Seq::new(c.len(), |i: int| (c[i].0, c[i].1@))
}

/// The recorded operations of one computation, with a gradient for each. The mark tells
/// a tape from others: nothing is known of it but that the handles of the tape bear it.
pub struct Tape<T> {
    pub mark: Ghost<int>,
    pub nodes: Vec<Node<T>>,
    pub grads: Vec<Tensor<T>>,
}

impl<T> View for Tape<T> {
    type V = Graph<T>;

    open spec fn view(&self) -> Graph<T> {
        Graph { mark: self.mark@, nodes: entries(self.nodes@), grads: arrays(self.grads@) }
    }
}

/// A handle on one node of a tape, with the mark of that tape. No operation takes
/// handles of two tapes.
#[derive(Clone, Copy)]
pub struct Var {
    pub id: NodeId,
    pub tape: Ghost<int>,
}

/// Adding a node leaves what the earlier ones were made of in place.
proof fn lemma_push_ok<T: Float>(t: Seq<Entry<T>>, e: Entry<T>)
    requires
        nodes_ok(t),
        parents_below(e.step, t.len()),
        fits(e.step, t),
        e.value.wf(),
        e.value.dims == step_dims(e.step, t, e.value.dims),
        deterministic::<T>() ==> e.value == step_value(e.step, t, e.value),
    ensures
        nodes_ok(t.push(e)),
{
    let u = t.push(e);
    assert forall|i: int| 0 <= i < u.len() implies #[trigger] entry_ok(u, i) by {
        if i < t.len() {
            assert(entry_ok(t, i));
            lemma_prefix_step(t[i].step, t, u, i as nat, t[i].value);
        } else {
            lemma_prefix_step(e.step, t, u, i as nat, e.value);
        }
    }
}

/// A step means the same on two tapes that agree up to its inputs.
proof fn lemma_prefix_step<T: Float>(
    step: Step<T>,
    t: Seq<Entry<T>>,
    u: Seq<Entry<T>>,
    n: nat,
    own: Array<T>,
)
    requires
        parents_below(step, n),
        n <= t.len(),
        n <= u.len(),
        forall|i: int| 0 <= i < n ==> t[i].value == u[i].value,
    ensures
        fits(step, t) == fits(step, u),
        step_dims(step, t, own.dims) == step_dims(step, u, own.dims),
        step_value(step, t, own) == step_value(step, u, own),
{
}

impl<T: Float> Tape<T> {
    /// The invariant of a tape.
    pub open spec fn wf(&self) -> bool {
        self@.wf()
    }

    /// An empty tape.
    pub fn new() -> (r: Tape<T>)
        ensures
            r.wf(),
            r@ == (Graph::<T> { mark: r@.mark, nodes: seq![], grads: seq![] }),
    {
        let r = Tape { mark: Ghost(arbitrary()), nodes: Vec::new(), grads: Vec::new() };
        proof {
            assert(r@ =~= (Graph::<T> { mark: r@.mark, nodes: seq![], grads: seq![] }));
        }
        r
    }

    /// Appends a node with a gradient of zeros.
    fn push(&mut self, value: Tensor<T>, op: Op<T>) -> (r: NodeId)
        requires
            old(self)@.admits(op.step()),
            value.wf(),
            value.shape@ == step_dims(op.step(), old(self)@.nodes, value.shape@),
            deterministic::<T>() ==> value@ == step_value(op.step(), old(self)@.nodes, value@),
        ensures
            r == old(self)@.nodes.len(),
            old(self)@.grows_by(final(self)@, op.step()),
            final(self)@.nodes.last().value == value@,
    {
        let id: usize = self.nodes.len();
        let grad = value.filled_like(T::from_bits(ZERO));
        let ghost e = Entry { value: value@, step: op.step() };
        proof {
            lemma_push_ok(self@.nodes, e);
        }
        self.nodes.push(Node { value, op });
        self.grads.push(grad);
        proof {
            assert(self@.nodes =~= old(self)@.nodes.push(e));
            assert(self@.grads =~= old(self)@.grads.push(grad@));
            assert(self@.nodes.drop_last() =~= old(self)@.nodes);
            assert(self@.grads.drop_last() =~= old(self)@.grads);
        }
        id
    }

    /// A copy of the value of a node.
    pub fn value(&self, id: NodeId) -> (r: Tensor<T>)
        requires
            id < self@.nodes.len(),
        ensures
            r@ == self@.nodes[id as int].value,
    {
        self.nodes[id].value.clone()
    }

    /// A copy of the gradient of a node.
    pub fn grad(&self, id: NodeId) -> (r: Tensor<T>)
        requires
            id < self@.grads.len(),
        ensures
            r@ == self@.grads[id as int],
    {
        self.grads[id].clone()
    }

    /// The number of nodes.
    pub fn len(&self) -> (r: usize)
        ensures
            r == self@.nodes.len(),
    {
        self.nodes.len()
    }

    /// Replaces the gradient of a node by one of the same shape.
    pub fn write_grad(&mut self, id: NodeId, new_grad: Tensor<T>)
        requires
            old(self).wf(),
            id < old(self)@.nodes.len(),
            new_grad.wf(),
            new_grad.shape@ == old(self)@.grads[id as int].dims,
        ensures
            final(self).wf(),
            final(self)@ == (Graph {
                mark: old(self)@.mark,
                nodes: old(self)@.nodes,
                grads: old(self)@.grads.update(id as int, new_grad@),
            }),
    {
        self.grads.set(id, new_grad);
        proof {
            assert(self@.grads =~= old(self)@.grads.update(id as int, new_grad@));
        }
    }

    /// What node `id` passes back to its inputs for gradient `g`.
    fn pass_back(&self, id: NodeId, g: &Tensor<T>) -> (r: Vec<(NodeId, Tensor<T>)>)
        requires
            self.wf(),
            id < self@.nodes.len(),
            g.wf(),
            g.shape@ == self@.nodes[id as int].value.dims,
        ensures
            forall|i: int|
                0 <= i < r@.len() ==> {
                    &&& (#[trigger] r@[i]).0 < id
                    &&& r@[i].1.wf()
                    &&& r@[i].1.shape@ == self@.nodes[r@[i].0 as int].value.dims
                },
            deterministic::<T>() ==> shares(r@) == contributions(self@.nodes, id as int, g@),
    {
        proof {
            assert(entry_ok(self@.nodes, id as int));
            assert(self.nodes@[id as int].op.step() == self@.nodes[id as int].step);
            assert forall|p: int| 0 <= p < self@.nodes.len() implies #[trigger] entry_ok(
                self@.nodes,
                p,
            ) && self@.nodes[p].value == self.nodes@[p].value@ by {}
        }
        let mut out: Vec<(NodeId, Tensor<T>)> = Vec::new();
        match &self.nodes[id].op {
            Op::Leaf => {},
            Op::Add(a, b) => {
                out.push((*a, g.clone()));
                out.push((*b, g.clone()));
            },
            Op::Sub(a, b) => {
                out.push((*a, g.clone()));
                out.push((*b, g.mul_scalar(T::from_bits(MINUS_ONE))));
            },
            Op::Mul(a, b) => {
                proof {
                    assert(entry_ok(self@.nodes, *a as int));
                    assert(entry_ok(self@.nodes, *b as int));
                }
                out.push((*a, g.mul(&self.nodes[*b].value)));
                out.push((*b, g.mul(&self.nodes[*a].value)));
            },
            Op::MatMul(a, b) => {
                let x = &self.nodes[*a].value;
                let w = &self.nodes[*b].value;
                proof {
                    assert(entry_ok(self@.nodes, *a as int));
                    assert(entry_ok(self@.nodes, *b as int));
                    lemma_volume2(x.shape@);
                    lemma_volume2(w.shape@);
                    assert(x.data@.len() == x.data.len());
                    assert(w.data@.len() == w.data.len());
                }
                let gx = g.matmul(&w.transpose_2d());
                let gw = x.transpose_2d().matmul(g);
                proof {
                    assert(gx.shape@ =~= x.shape@);
                    assert(gw.shape@ =~= w.shape@);
                }
                out.push((*a, gx));
                out.push((*b, gw));
            },
            Op::Mean(a) => {
                proof {
                    assert(entry_ok(self@.nodes, *a as int));
                }
                out.push((*a, g.mean_grad(&self.nodes[*a].value)));
            },
            Op::QuantiseWeights(a) => {
                out.push((*a, g.clone()));
            },
            Op::QuantiseActs(a) => {
                out.push((*a, g.clone()));
            },
            Op::Transpose(a) => {
                let t = g.transpose_2d();
                proof {
                    assert(t.shape@ =~= dims_at(self@.nodes, *a));
                }
                out.push((*a, t));
            },
            Op::Relu(a) => {
                proof {
                    assert(entry_ok(self@.nodes, *a as int));
                }
                out.push((*a, g.relu_grad(&self.nodes[*a].value)));
            },
            Op::Silu(a) => {
                proof {
                    assert(entry_ok(self@.nodes, *a as int));
                }
                out.push((*a, g.silu_grad(&self.nodes[*a].value)));
            },
            Op::Softmax(a) => {
                out.push((*a, g.softmax_grad(&self.nodes[id].value)));
            },
            Op::RmsNorm(a) => {
                proof {
                    assert(entry_ok(self@.nodes, *a as int));
                }
                out.push((*a, g.rmsnorm_grad(&self.nodes[*a].value)));
            },
            Op::CausalMask(a) => {
                out.push((*a, g.causal_mask_grad()));
            },
            Op::Rope(a) => {
                out.push((*a, g.rope_grad()));
            },
            Op::MulScalar(a, s) => {
                out.push((*a, g.mul_scalar(*s)));
            },
            Op::Embed(a, ids) => {
                proof {
                    assert(entry_ok(self@.nodes, *a as int));
                }
                out.push((*a, g.embed_grad(&self.nodes[*a].value, ids.as_slice())));
            },
            Op::CrossEntropy(a, targets) => {
                let logits = &self.nodes[*a].value;
                proof {
                    assert(entry_ok(self@.nodes, *a as int));
                    lemma_volume1(g.shape@);
                }
                let inv = T::from_bits(ONE).over(T::from_count(logits.shape[0]));
                let share = g.data[0].times(inv);
                out.push((*a, logits.softmax().loss_grad(targets.as_slice(), share)));
            },
        }
        proof {
            if deterministic::<T>() {
                assert(shares(out@) =~= contributions(self@.nodes, id as int, g@));
            }
        }
        out
    }

    /// Adds each contribution, in order, to the gradient it goes to.
    fn absorb(&mut self, c: &Vec<(NodeId, Tensor<T>)>)
        requires
            old(self).wf(),
            forall|i: int|
                0 <= i < c@.len() ==> {
                    &&& (#[trigger] c@[i]).0 < old(self)@.nodes.len()
                    &&& c@[i].1.wf()
                    &&& c@[i].1.shape@ == old(self)@.nodes[c@[i].0 as int].value.dims
                },
        ensures
            final(self).wf(),
            final(self)@.mark == old(self)@.mark,
            final(self)@.nodes == old(self)@.nodes,
            deterministic::<T>() ==> final(self)@.grads == accumulate(
                old(self)@.grads,
                shares(c@),
            ),
    {
        let ghost nodes = self@.nodes;
        let ghost grads = self@.grads;
        let mut i: usize = 0;
        proof {
            assert(shares(c@).take(0) =~= seq![]);
        }
        while i < c.len()
            invariant
                i <= c.len(),
                self.wf(),
                self@.mark == old(self)@.mark,
                self@.nodes == nodes,
                forall|i: int|
                    0 <= i < c@.len() ==> {
                        &&& (#[trigger] c@[i]).0 < nodes.len()
                        &&& c@[i].1.wf()
                        &&& c@[i].1.shape@ == nodes[c@[i].0 as int].value.dims
                    },
                deterministic::<T>() ==> self@.grads == accumulate(
                    grads,
                    shares(c@).take(i as int),
                ),
            decreases c.len() - i,
        {
            let p: usize = c[i].0;
            let ghost before = self@.grads;
            proof {
                assert(c@[i as int].0 < nodes.len());
                assert(self@.grads[p as int] == self.grads@[p as int]@);
            }
            let g = self.grads[p].add(&c[i].1);
            self.grads.set(p, g);
            i += 1;
            proof {
                assert(self@.grads =~= before.update(p as int, g@));
                assert(shares(c@).take(i as int).drop_last() =~= shares(c@).take(i - 1));
            }
        }
        proof {
            assert(shares(c@).take(i as int) =~= shares(c@));
        }
    }

    /// Sets the gradient of `output_id` to ones and passes gradients back from
    /// the last node to the first. Each node adds what its step passes back to
    /// the gradients of its inputs; values are left as they are.
    pub fn backward(&mut self, output_id: NodeId)
        requires
            old(self).wf(),
            output_id < old(self)@.nodes.len(),
        ensures
            final(self).wf(),
            final(self)@.mark == old(self)@.mark,
            final(self)@.nodes == old(self)@.nodes,
            deterministic::<T>() ==> final(self)@.grads == back(
                old(self)@.nodes,
                seeded(old(self)@, output_id),
                old(self)@.nodes.len(),
            ),
    {
        let ghost nodes = self@.nodes;
        let ghost start = seeded(self@, output_id);
        proof {
            assert(entry_ok(nodes, output_id as int));
            assert(nodes[output_id as int].value == self.nodes@[output_id as int].value@);
        }
        let seed = self.nodes[output_id].value.filled_like(T::from_bits(ONE));
        self.grads.set(output_id, seed);
        proof {
            assert(self@.grads =~= old(self)@.grads.update(output_id as int, seed@));
        }
        let n: usize = self.nodes.len();
        let mut k: usize = n;
        while k > 0
            invariant
                k <= n,
                n == nodes.len(),
                self.wf(),
                self@.mark == old(self)@.mark,
                self@.nodes == nodes,
                deterministic::<T>() ==> back(nodes, self@.grads, k as nat) == back(
                    nodes,
                    start,
                    n as nat,
                ),
            decreases k,
        {
            k -= 1;
            let g = self.grad(k);
            proof {
                assert(self@.grads[k as int].wf());
            }
            let c = self.pass_back(k, &g);
            self.absorb(&c);
        }
    }
}

impl Var {
    /// Appends a value that no operation made.
    pub fn leaf<T: Float>(tape: &mut Tape<T>, value: Tensor<T>) -> (r: Var)
        requires
            old(tape).wf(),
            value.wf(),
        ensures
            r.id == old(tape)@.nodes.len(),
            final(tape)@.has(r),
            old(tape)@.grows_by(final(tape)@, Step::Leaf),
            final(tape)@.value(r) == value@,
    {
        let id: usize = tape.push(value, Op::Leaf);
        Var { id, tape: tape.mark }
    }

    /// A copy of the gradient.
    pub fn grad<T: Float>(&self, tape: &Tape<T>) -> (r: Tensor<T>)
        requires
            tape.wf(),
            tape@.has(*self),
        ensures
            r@ == tape@.grads[self.id as int],
            r.wf(),
            r.shape@ == tape@.value(*self).dims,
    {
        proof {
            assert(tape@.grads[self.id as int].wf());
        }
        tape.grad(self.id)
    }

    /// A copy of the value.
    pub fn value<T: Float>(&self, tape: &Tape<T>) -> (r: Tensor<T>)
        requires
            tape.wf(),
            tape@.has(*self),
        ensures
            r@ == tape@.value(*self),
            r.wf(),
    {
        proof {
            assert(entry_ok(tape@.nodes, self.id as int));
        }
        tape.value(self.id)
    }

    /// The sum, item by item.
    pub fn add<T: Float>(self, tape: &mut Tape<T>, other: Var) -> (r: Var)
        requires
            old(tape)@.has(self),
            old(tape)@.has(other),
            old(tape)@.admits(Step::Add(self.id, other.id)),
        ensures
            r.id == old(tape)@.nodes.len(),
            final(tape)@.has(r),
            old(tape)@.grows_by(final(tape)@, Step::Add(self.id, other.id)),
            deterministic::<T>() ==> final(tape)@.value(r) == add_of(
                old(tape)@.value(self),
                old(tape)@.value(other),
            ),
    {
        let a = self.value(tape);
        let b = other.value(tape);
        let v = a.add(&b);
        let id: usize = tape.push(v, Op::Add(self.id, other.id));
        Var { id, tape: tape.mark }
    }

    /// The difference, item by item.
    pub fn sub<T: Float>(self, tape: &mut Tape<T>, other: Var) -> (r: Var)
        requires
            old(tape)@.has(self),
            old(tape)@.has(other),
            old(tape)@.admits(Step::Sub(self.id, other.id)),
        ensures
            r.id == old(tape)@.nodes.len(),
            final(tape)@.has(r),
            old(tape)@.grows_by(final(tape)@, Step::Sub(self.id, other.id)),
            deterministic::<T>() ==> final(tape)@.value(r) == sub_of(
                old(tape)@.value(self),
                old(tape)@.value(other),
            ),
    {
        let a = self.value(tape);
        let b = other.value(tape);
        let v = a.sub(&b);
        let id: usize = tape.push(v, Op::Sub(self.id, other.id));
        Var { id, tape: tape.mark }
    }

    /// The product, item by item.
    pub fn mul<T: Float>(self, tape: &mut Tape<T>, other: Var) -> (r: Var)
        requires
            old(tape)@.has(self),
            old(tape)@.has(other),
            old(tape)@.admits(Step::Mul(self.id, other.id)),
        ensures
            r.id == old(tape)@.nodes.len(),
            final(tape)@.has(r),
            old(tape)@.grows_by(final(tape)@, Step::Mul(self.id, other.id)),
            deterministic::<T>() ==> final(tape)@.value(r) == mul_of(
                old(tape)@.value(self),
                old(tape)@.value(other),
            ),
    {
        let a = self.value(tape);
        let b = other.value(tape);
        let v = a.mul(&b);
        let id: usize = tape.push(v, Op::Mul(self.id, other.id));
        Var { id, tape: tape.mark }
    }

    /// The matrix product.
    pub fn matmul<T: Float>(self, tape: &mut Tape<T>, other: Var) -> (r: Var)
        requires
            old(tape)@.has(self),
            old(tape)@.has(other),
            old(tape)@.admits(Step::MatMul(self.id, other.id)),
        ensures
            r.id == old(tape)@.nodes.len(),
            final(tape)@.has(r),
            old(tape)@.grows_by(final(tape)@, Step::MatMul(self.id, other.id)),
            deterministic::<T>() ==> final(tape)@.value(r) == matmul_of(
                old(tape)@.value(self),
                old(tape)@.value(other),
            ),
    {
        let a = self.value(tape);
        let b = other.value(tape);
        let v = a.matmul(&b);
        let id: usize = tape.push(v, Op::MatMul(self.id, other.id));
        Var { id, tape: tape.mark }
    }

    /// The mean of all items, as a vector of one.
    pub fn mean<T: Float>(self, tape: &mut Tape<T>) -> (r: Var)
        requires
            old(tape)@.has(self),
            old(tape)@.admits(Step::Mean(self.id)),
        ensures
            r.id == old(tape)@.nodes.len(),
            final(tape)@.has(r),
            old(tape)@.grows_by(final(tape)@, Step::Mean(self.id)),
            deterministic::<T>() ==> final(tape)@.value(r) == mean_of(old(tape)@.value(self)),
    {
        let x = self.value(tape);
        let v = x.mean();
        let id: usize = tape.push(v, Op::Mean(self.id));
        Var { id, tape: tape.mark }
    }

    /// Ternary weights multiplied back by their scale. The gradient passes straight
    /// through.
    pub fn quantise_weights_ste<T: Float>(self, tape: &mut Tape<T>) -> (r: Var)
        requires
            old(tape)@.has(self),
            old(tape)@.admits(Step::QuantiseWeights(self.id)),
        ensures
            r.id == old(tape)@.nodes.len(),
            final(tape)@.has(r),
            old(tape)@.grows_by(final(tape)@, Step::QuantiseWeights(self.id)),
            deterministic::<T>() ==> final(tape)@.value(r) == ternary_weights(old(tape)@.value(self)),
    {
        let x = self.value(tape);
        let v = dequantised_weights(&x);
        let id: usize = tape.push(v, Op::QuantiseWeights(self.id));
        Var { id, tape: tape.mark }
    }

    /// 8-bit activations multiplied back by the scales of their rows. The gradient
    /// passes straight through.
    pub fn quantise_acts_ste<T: Float>(self, tape: &mut Tape<T>) -> (r: Var)
        requires
            old(tape)@.has(self),
            old(tape)@.admits(Step::QuantiseActs(self.id)),
        ensures
            r.id == old(tape)@.nodes.len(),
            final(tape)@.has(r),
            old(tape)@.grows_by(final(tape)@, Step::QuantiseActs(self.id)),
            deterministic::<T>() ==> final(tape)@.value(r) == restored_acts(old(tape)@.value(self)),
    {
        let x = self.value(tape);
        let v = dequantised_acts(&x);
        let id: usize = tape.push(v, Op::QuantiseActs(self.id));
        Var { id, tape: tape.mark }
    }

    /// The transpose of a matrix.
    pub fn transpose_2d<T: Float>(self, tape: &mut Tape<T>) -> (r: Var)
        requires
            old(tape)@.has(self),
            old(tape)@.admits(Step::Transpose(self.id)),
        ensures
            r.id == old(tape)@.nodes.len(),
            final(tape)@.has(r),
            old(tape)@.grows_by(final(tape)@, Step::Transpose(self.id)),
            deterministic::<T>() ==> final(tape)@.value(r) == transpose_of(old(tape)@.value(self)),
    {
        let x = self.value(tape);
        let v = x.transpose_2d();
        let id: usize = tape.push(v, Op::Transpose(self.id));
        Var { id, tape: tape.mark }
    }

    /// Every item, or zero where it is not above zero.
    pub fn relu<T: Float>(self, tape: &mut Tape<T>) -> (r: Var)
        requires
            old(tape)@.has(self),
            old(tape)@.admits(Step::Relu(self.id)),
        ensures
            r.id == old(tape)@.nodes.len(),
            final(tape)@.has(r),
            old(tape)@.grows_by(final(tape)@, Step::Relu(self.id)),
            deterministic::<T>() ==> final(tape)@.value(r) == relu_of(old(tape)@.value(self)),
    {
        let x = self.value(tape);
        let v = x.relu();
        let id: usize = tape.push(v, Op::Relu(self.id));
        Var { id, tape: tape.mark }
    }

    /// Every item times its logistic.
    pub fn silu<T: Float>(self, tape: &mut Tape<T>) -> (r: Var)
        requires
            old(tape)@.has(self),
            old(tape)@.admits(Step::Silu(self.id)),
        ensures
            r.id == old(tape)@.nodes.len(),
            final(tape)@.has(r),
            old(tape)@.grows_by(final(tape)@, Step::Silu(self.id)),
            deterministic::<T>() ==> final(tape)@.value(r) == silu_of(old(tape)@.value(self)),
    {
        let x = self.value(tape);
        let v = x.silu();
        let id: usize = tape.push(v, Op::Silu(self.id));
        Var { id, tape: tape.mark }
    }

    /// The softmax of every row.
    pub fn softmax<T: Float>(self, tape: &mut Tape<T>) -> (r: Var)
        requires
            old(tape)@.has(self),
            old(tape)@.admits(Step::Softmax(self.id)),
        ensures
            r.id == old(tape)@.nodes.len(),
            final(tape)@.has(r),
            old(tape)@.grows_by(final(tape)@, Step::Softmax(self.id)),
            deterministic::<T>() ==> final(tape)@.value(r) == softmax_of(old(tape)@.value(self)),
    {
        let x = self.value(tape);
        let v = x.softmax();
        let id: usize = tape.push(v, Op::Softmax(self.id));
        Var { id, tape: tape.mark }
    }

    /// Every row divided by its root mean square.
    pub fn rmsnorm<T: Float>(self, tape: &mut Tape<T>) -> (r: Var)
        requires
            old(tape)@.has(self),
            old(tape)@.admits(Step::RmsNorm(self.id)),
        ensures
            r.id == old(tape)@.nodes.len(),
            final(tape)@.has(r),
            old(tape)@.grows_by(final(tape)@, Step::RmsNorm(self.id)),
            deterministic::<T>() ==> final(tape)@.value(r) == rmsnorm_of(old(tape)@.value(self)),
    {
        let x = self.value(tape);
        let v = x.rmsnorm();
        let id: usize = tape.push(v, Op::RmsNorm(self.id));
        Var { id, tape: tape.mark }
    }

    /// Negative infinity above the diagonal, unchanged elsewhere.
    pub fn causal_mask<T: Float>(self, tape: &mut Tape<T>) -> (r: Var)
        requires
            old(tape)@.has(self),
            old(tape)@.admits(Step::CausalMask(self.id)),
        ensures
            r.id == old(tape)@.nodes.len(),
            final(tape)@.has(r),
            old(tape)@.grows_by(final(tape)@, Step::CausalMask(self.id)),
            deterministic::<T>() ==> final(tape)@.value(r) == causal_mask_of(old(tape)@.value(self)),
    {
        let x = self.value(tape);
        let v = x.causal_mask();
        let id: usize = tape.push(v, Op::CausalMask(self.id));
        Var { id, tape: tape.mark }
    }

    /// Each row rotated pair by pair by the angles of its position.
    pub fn rope<T: Float>(self, tape: &mut Tape<T>) -> (r: Var)
        requires
            old(tape)@.has(self),
            old(tape)@.admits(Step::Rope(self.id)),
        ensures
            r.id == old(tape)@.nodes.len(),
            final(tape)@.has(r),
            old(tape)@.grows_by(final(tape)@, Step::Rope(self.id)),
            deterministic::<T>() ==> final(tape)@.value(r) == rope_of(old(tape)@.value(self)),
    {
        let x = self.value(tape);
        let v = x.rope();
        let id: usize = tape.push(v, Op::Rope(self.id));
        Var { id, tape: tape.mark }
    }

    /// Every item multiplied by `s`.
    pub fn mul_scalar<T: Float>(self, tape: &mut Tape<T>, s: T) -> (r: Var)
        requires
            old(tape)@.has(self),
            old(tape)@.admits(Step::MulScalar(self.id, s)),
        ensures
            r.id == old(tape)@.nodes.len(),
            final(tape)@.has(r),
            old(tape)@.grows_by(final(tape)@, Step::MulScalar(self.id, s)),
            deterministic::<T>() ==> final(tape)@.value(r) == scale_of(old(tape)@.value(self), s),
    {
        let x = self.value(tape);
        let v = x.mul_scalar(s);
        let id: usize = tape.push(v, Op::MulScalar(self.id, s));
        Var { id, tape: tape.mark }
    }

    /// The rows that the ids pick, in their order.
    pub fn embed<T: Float>(self, tape: &mut Tape<T>, ids: &[usize]) -> (r: Var)
        requires
            old(tape)@.has(self),
            old(tape)@.admits(Step::Embed(self.id, ids@)),
        ensures
            r.id == old(tape)@.nodes.len(),
            final(tape)@.has(r),
            old(tape)@.grows_by(final(tape)@, Step::Embed(self.id, ids@)),
            final(tape)@.value(r) == embed_of(old(tape)@.value(self), ids@),
    {
        let x = self.value(tape);
        let v = x.embed(ids);
        let op = Op::Embed(self.id, copy_slice(ids));
        let id: usize = tape.push(v, op);
        Var { id, tape: tape.mark }
    }

    /// The mean over the rows of the negative log-probability of the target, as
    /// a vector of one.
    pub fn cross_entropy<T: Float>(self, tape: &mut Tape<T>, targets: &[usize]) -> (r: Var)
        requires
            old(tape)@.has(self),
            old(tape)@.admits(Step::CrossEntropy(self.id, targets@)),
        ensures
            r.id == old(tape)@.nodes.len(),
            final(tape)@.has(r),
            old(tape)@.grows_by(final(tape)@, Step::CrossEntropy(self.id, targets@)),
            deterministic::<T>() ==> final(tape)@.value(r) == cross_entropy_of(
                old(tape)@.value(self),
                targets@,
            ),
    {
        let x = self.value(tape);
        let v = single(x.loss(targets));
        let op = Op::CrossEntropy(self.id, copy_slice(targets));
        let id: usize = tape.push(v, op);
        Var { id, tape: tape.mark }
    }
}

/// Both quantisers pass their gradient straight through, unchanged.
pub proof fn law_quantisers_pass_straight_through<T: Float>(
    t: Seq<Entry<T>>,
    i: int,
    a: NodeId,
    g: Array<T>,
)
    requires
        t[i].step == Step::<T>::QuantiseWeights(a) || t[i].step == Step::<T>::QuantiseActs(a),
    ensures
        contributions(t, i, g) == seq![(a, g)],
{
}

} // verus!
