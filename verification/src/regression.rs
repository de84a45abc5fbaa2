//! Regression by gradient descent, plain and through the quantisers.
use crate::autograd::{
    arrays, back, lemma_records_none, lemma_records_push, seeded, Graph, Step, Tape, Var,
};
use crate::float::{deterministic, fbits, fcount, fdiv, fneg, fzero, Float, TWO, ZERO};
use crate::model::descended_of;
use crate::tensor::{lemma_volume1, lemma_volume2, Array, Tensor};
use vstd::prelude::*;

verus! {

/// The steps of a regression loss over leaves for the inputs, the targets and
/// the weight: the mean of the squared differences.
pub open spec fn loss_steps<T>(quantised: bool) -> Seq<Step<T>> {
    if quantised {
        seq![
            Step::Leaf,
            Step::Leaf,
            Step::Leaf,
            Step::QuantiseActs(0),
            Step::QuantiseWeights(2),
            Step::MatMul(3, 4),
            Step::Sub(5, 1),
            Step::Mul(6, 6),
            Step::Mean(7),
        ]
    } else {
        seq![
            Step::Leaf,
            Step::Leaf,
            Step::Leaf,
            Step::MatMul(0, 2),
            Step::Sub(3, 1),
            Step::Mul(4, 4),
            Step::Mean(5),
        ]
    }
}

/// An empty tape of a mark.
pub open spec fn empty_graph<T>(mark: int) -> Graph<T> {
    Graph { mark, nodes: seq![], grads: seq![] }
}

/// The tape of a regression loss.
pub open spec fn loss_graph<T: Float>(
    t: Graph<T>,
    x: Array<T>,
    y: Array<T>,
    w: Array<T>,
    quantised: bool,
) -> bool {
    &&& empty_graph::<T>(t.mark).records(t, loss_steps(quantised))
    &&& t.nodes[0].value == x
    &&& t.nodes[1].value == y
    &&& t.nodes[2].value == w
}

/// The loss at weight `w`, and the weight after one step of descent.
pub open spec fn descent_step<T: Float>(
    x: Array<T>,
    y: Array<T>,
    w: Array<T>,
    lr: T,
    quantised: bool,
    loss: T,
    next: Array<T>,
) -> bool {
    exists|t: Graph<T>|
        {
            let n = t.nodes.len();
            &&& #[trigger] loss_graph(t, x, y, w, quantised)
            &&& loss == t.nodes.last().value.data[0]
            &&& next == descended_of(
                w,
                back(t.nodes, seeded(t, (n - 1) as usize), n)[2],
                lr,
            )
        }
}

/// One step of descent on the mean squared error of `x` times the weight
/// against `y`: the loss before it and the weight after it.
pub fn regression_step<T: Float>(
    x: &Tensor<T>,
    y: &Tensor<T>,
    w: &Tensor<T>,
    lr: T,
    quantised: bool,
) -> (r: (T, Tensor<T>))
    requires
        x.wf() && y.wf() && w.wf(),
        x.shape@.len() == 2 && w.shape@.len() == 2,
        x.shape@[1] == w.shape@[0],
        y.shape@ == seq![x.shape@[0], w.shape@[1]],
    ensures
        r.1.wf(),
        r.1.shape@ == w.shape@,
        deterministic::<T>() ==> descent_step(x@, y@, w@, lr, quantised, r.0, r.1@),
{
    proof {
        lemma_volume2(y.shape@);
        assert(y.data@.len() == y.data.len());
    }
    let mut tape: Tape<T> = Tape::new();
    let ghost g0 = tape@;
    let ghost e = Seq::<Step<T>>::empty();
    proof {
        lemma_records_none(g0);
    }
    let xv = Var::leaf(&mut tape, x.clone());
    let ghost g1 = tape@;
    proof {
        lemma_records_push(g0, g0, g1, e, Step::Leaf);
    }
    let yv = Var::leaf(&mut tape, y.clone());
    let ghost g2 = tape@;
    let ghost s2 = e.push(Step::Leaf).push(Step::Leaf);
    proof {
        lemma_records_push(g0, g1, g2, e.push(Step::Leaf), Step::Leaf);
    }
    let wv = Var::leaf(&mut tape, w.clone());
    let ghost g3 = tape@;
    let ghost s3 = s2.push(Step::Leaf);
    proof {
        lemma_records_push(g0, g2, g3, s2, Step::Leaf);
    }
    let pred;
    let ghost s4: Seq<Step<T>>;
    let ghost g4: Graph<T>;
    if quantised {
        let xe = xv.quantise_acts_ste(&mut tape);
        let ghost a1 = tape@;
        proof {
            lemma_records_push(g0, g3, a1, s3, Step::QuantiseActs(0));
        }
        let we = wv.quantise_weights_ste(&mut tape);
        let ghost a2 = tape@;
        proof {
            lemma_records_push(
                g0,
                a1,
                a2,
                s3.push(Step::QuantiseActs(0)),
                Step::QuantiseWeights(2),
            );
        }
        pred = xe.matmul(&mut tape, we);
        proof {
            s4 = s3.push(Step::QuantiseActs(0)).push(Step::QuantiseWeights(2)).push(
                Step::MatMul(3, 4),
            );
            g4 = tape@;
            lemma_records_push(
                g0,
                a2,
                g4,
                s3.push(Step::QuantiseActs(0)).push(Step::QuantiseWeights(2)),
                Step::MatMul(3, 4),
            );
        }
    } else {
        pred = xv.matmul(&mut tape, wv);
        proof {
            s4 = s3.push(Step::MatMul(0, 2));
            g4 = tape@;
            lemma_records_push(g0, g3, g4, s3, Step::MatMul(0, 2));
        }
    }
    proof {
        assert(g4.value(pred).dims =~= y.shape@);
        assert(g4.nodes[1] == g2.nodes[1]);
        assert(g4.nodes[2] == g3.nodes[2]);
        assert(g4.nodes[0] == g1.nodes[0]);
    }
    let diff = pred.sub(&mut tape, yv);
    let ghost g5 = tape@;
    let ghost s5 = s4.push(Step::Sub(pred.id, 1));
    proof {
        lemma_records_push(g0, g4, g5, s4, Step::Sub(pred.id, 1));
    }
    let sq = diff.mul(&mut tape, diff);
    let ghost g6 = tape@;
    let ghost s6 = s5.push(Step::Mul(diff.id, diff.id));
    proof {
        lemma_records_push(g0, g5, g6, s5, Step::Mul(diff.id, diff.id));
    }
    let loss = sq.mean(&mut tape);
    let ghost g7 = tape@;
    proof {
        lemma_records_push(g0, g6, g7, s6, Step::Mean(sq.id));
        assert(s6.push(Step::Mean(sq.id)) =~= loss_steps(quantised));
        assert(g0 == empty_graph::<T>(g0.mark));
        assert(g7.nodes[0] == g4.nodes[0]);
        assert(g7.nodes[1] == g4.nodes[1]);
        assert(g7.nodes[2] == g4.nodes[2]);
        assert(loss_graph(g7, x@, y@, w@, quantised));
    }
    let value = loss.value(&tape);
    proof {
        lemma_volume1(value.shape@);
    }
    let loss_value = value.data[0];
    tape.backward(loss.id);
    let g = wv.grad(&tape);
    let next = crate::model::descended(w, &g, lr);
    (loss_value, next)
}

/// A chain of steps of descent: the weight before each step and after the last,
/// and the loss before each.
pub open spec fn descent_chain<T: Float>(
    x: Array<T>,
    y: Array<T>,
    lr: T,
    quantised: bool,
    ws: Seq<Array<T>>,
    losses: Seq<T>,
) -> bool {
    &&& ws.len() == losses.len() + 1
    &&& forall|i: int|
        0 <= i < losses.len() ==> descent_step(
            x,
            y,
            ws[i],
            lr,
            quantised,
            #[trigger] losses[i],
            ws[i + 1],
        )
}

/// The weights of a descent: the first one and those after each step.
pub open spec fn path_of<T: Float>(w: Array<T>, ws: Seq<Tensor<T>>) -> Seq<Array<T>> {
    seq![w] + arrays(ws)
}

/// Descends `n_steps` times from a weight: the loss before each step and the weight
/// after it.
pub fn descent_path<T: Float>(
    x: &Tensor<T>,
    y: &Tensor<T>,
    w: &Tensor<T>,
    n_steps: usize,
    lr: T,
    quantised: bool,
) -> (r: (Vec<T>, Vec<Tensor<T>>))
    requires
        x.wf() && y.wf() && w.wf(),
        x.shape@.len() == 2 && w.shape@.len() == 2,
        x.shape@[1] == w.shape@[0],
        y.shape@ == seq![x.shape@[0], w.shape@[1]],
    ensures
        r.0@.len() == n_steps,
        r.1@.len() == n_steps,
        forall|i: int|
            0 <= i < n_steps ==> (#[trigger] r.1@[i]).wf() && r.1@[i].shape@ == w.shape@,
        deterministic::<T>() ==> descent_chain(
            x@,
            y@,
            lr,
            quantised,
            path_of(w@, r.1@),
            r.0@,
        ),
{
    let mut losses: Vec<T> = Vec::new();
    let mut ws: Vec<Tensor<T>> = Vec::new();
    let mut step: usize = 0;
    while step < n_steps
        invariant
            step <= n_steps,
            x.wf() && y.wf() && w.wf(),
            x.shape@.len() == 2 && w.shape@.len() == 2,
            x.shape@[1] == w.shape@[0],
            y.shape@ == seq![x.shape@[0], w.shape@[1]],
            losses@.len() == step,
            ws@.len() == step,
            forall|i: int|
                0 <= i < step ==> (#[trigger] ws@[i]).wf() && ws@[i].shape@ == w.shape@,
            deterministic::<T>() ==> descent_chain(
                x@,
                y@,
                lr,
                quantised,
                path_of(w@, ws@),
                losses@,
            ),
        decreases n_steps - step,
    {
        let ghost (ws0, losses0) = (ws@, losses@);
        let from: &Tensor<T> = if step == 0 {
            w
        } else {
            &ws[step - 1]
        };
        let (loss, next) = regression_step(x, y, from, lr, quantised);
        losses.push(loss);
        ws.push(next);
        step += 1;
        proof {
            let (p0, p) = (path_of(w@, ws0), path_of(w@, ws@));
            if deterministic::<T>() {
                assert forall|i: int| 0 <= i < losses@.len() implies descent_step(
                    x@,
                    y@,
                    p[i],
                    lr,
                    quantised,
                    #[trigger] losses@[i],
                    p[i + 1],
                ) by {
                    if i < losses0.len() {
                        assert(losses0[i] == losses@[i]);
                        assert(p0[i] == p[i] && p0[i + 1] == p[i + 1]);
                    } else {
                        assert(p[i] == from@ && p[i + 1] == next@);
                    }
                }
            }
        }
    }
    (losses, ws)
}

/// Descends `n_steps` times from a weight: the losses before the first and
/// before the last step, and the weight after it.
pub fn descend<T: Float>(
    x: &Tensor<T>,
    y: &Tensor<T>,
    w: Tensor<T>,
    n_steps: usize,
    lr: T,
    quantised: bool,
) -> (r: (T, T, Tensor<T>))
    requires
        n_steps > 0,
        x.wf() && y.wf() && w.wf(),
        x.shape@.len() == 2 && w.shape@.len() == 2,
        x.shape@[1] == w.shape@[0],
        y.shape@ == seq![x.shape@[0], w.shape@[1]],
    ensures
        r.2.wf(),
        r.2.shape@ == w.shape@,
        deterministic::<T>() ==> exists|ws: Seq<Array<T>>, losses: Seq<T>|
            {
                &&& #[trigger] descent_chain(x@, y@, lr, quantised, ws, losses)
                &&& losses.len() == n_steps
                &&& ws[0] == w@
                &&& r.0 == losses[0]
                &&& r.1 == losses[n_steps - 1]
                &&& r.2@ == ws[n_steps as int]
            },
{
    let (losses, mut ws) = descent_path(x, y, &w, n_steps, lr, quantised);
    let ghost path = path_of(w@, ws@);
    let ghost all = ws@;
    let last = match ws.pop() {
        Some(t) => t,
        None => w,
    };
    proof {
        assert(last == all[n_steps - 1]);
        assert(path[n_steps as int] == last@);
        if deterministic::<T>() {
            assert(descent_chain(x@, y@, lr, quantised, path, losses@));
        }
    }
    (losses[0], losses[n_steps - 1], last)
}

/// A matrix of one column.
fn column_of<T: Float>(data: Vec<T>) -> (r: Tensor<T>)
    ensures
        r.wf(),
        r@ == (Array { data: data@, dims: seq![data@.len() as usize, 1usize] }),
{
    let mut shape: Vec<usize> = Vec::new();
    shape.push(data.len());
    shape.push(1);
    let r = Tensor { data, shape };
    proof {
        lemma_volume2(r.shape@);
        assert(data@.len() * 1 == data@.len());
        assert(r.shape@[0] * r.shape@[1] == data@.len());
        assert(r@ =~= (Array { data: data@, dims: seq![data@.len() as usize, 1usize] }));
    }
    r
}

/// The inputs 0, 0.5, 1 and so on up to 3.5, as a column.
pub open spec fn line_inputs<T: Float>() -> Array<T> {
    Array {
        data: Seq::new(8, |i: int| fdiv(fcount::<T>(i as usize), fbits::<T>(TWO))),
        dims: seq![8usize, 1usize],
    }
}

/// The targets 0 to 7, as a column: twice the inputs.
pub open spec fn line_targets<T: Float>() -> Array<T> {
    Array { data: Seq::new(8, |i: int| fcount::<T>(i as usize)), dims: seq![8usize, 1usize] }
}

/// The inputs and targets of eight points on the line `y = 2x`.
pub fn line_points<T: Float>() -> (r: (Tensor<T>, Tensor<T>))
    ensures
        r.0.wf() && r.1.wf(),
        r.0.shape@ == seq![8usize, 1usize],
        r.1.shape@ == seq![8usize, 1usize],
        deterministic::<T>() ==> r.0@ == line_inputs::<T>() && r.1@ == line_targets::<T>(),
{
    let two = T::from_bits(TWO);
    let mut xs: Vec<T> = Vec::new();
    let mut ys: Vec<T> = Vec::new();
    let mut i: usize = 0;
    while i < 8
        invariant
            i <= 8,
            xs@.len() == i,
            ys@.len() == i,
            deterministic::<T>() ==> two == fbits::<T>(TWO),
            deterministic::<T>() ==> forall|k: int|
                0 <= k < i ==> xs@[k] == fdiv(fcount::<T>(k as usize), two),
            deterministic::<T>() ==> forall|k: int| 0 <= k < i ==> ys@[k] == fcount::<T>(k as usize),
        decreases 8 - i,
    {
        xs.push(T::from_count(i).over(two));
        ys.push(T::from_count(i));
        i += 1;
    }
    let x = column_of(xs);
    let y = column_of(ys);
    proof {
        if deterministic::<T>() {
            assert(x@ =~= line_inputs::<T>());
            assert(y@ =~= line_targets::<T>());
        }
    }
    (x, y)
}

/// The items of the inputs of the plane, row by row.
pub open spec fn plane_counts() -> Seq<usize> {
    seq![1usize, 0usize, 0usize, 1usize, 2usize, 1usize, 1usize, 2usize]
}

/// Four points in the plane.
pub open spec fn plane_inputs<T: Float>() -> Array<T> {
    Array {
        data: Seq::new(8, |i: int| fcount::<T>(plane_counts()[i])),
        dims: seq![4usize, 2usize],
    }
}

/// The targets 2, -2, 2 and -2, as a column: twice the difference of the coordinates.
pub open spec fn plane_targets<T: Float>() -> Array<T> {
    Array {
        data: Seq::new(
            4,
            |i: int|
                if i % 2 == 0 {
                    fcount::<T>(2)
                } else {
                    fneg(fcount::<T>(2))
                },
        ),
        dims: seq![4usize, 1usize],
    }
}

/// The inputs and targets of four points of `y = 2a - 2b`.
pub fn plane_points<T: Float>() -> (r: (Tensor<T>, Tensor<T>))
    ensures
        r.0.wf() && r.1.wf(),
        r.0.shape@ == seq![4usize, 2usize],
        r.1.shape@ == seq![4usize, 1usize],
        deterministic::<T>() ==> r.0@ == plane_inputs::<T>() && r.1@ == plane_targets::<T>(),
{
    let zero = T::from_count(0);
    let one = T::from_count(1);
    let two = T::from_count(2);
    let xs: Vec<T> = vec![one, zero, zero, one, two, one, one, two];
    let minus = two.negate();
    let ys: Vec<T> = vec![two, minus, two, minus];
    let shape: Vec<usize> = vec![4, 2];
    proof {
        assert(shape@ =~= seq![4usize, 2usize]);
        lemma_volume2(shape@);
    }
    let x = Tensor::from_vec(xs, shape);
    let y = column_of(ys);
    proof {
        if deterministic::<T>() {
            assert(x@ =~= plane_inputs::<T>());
            assert(y@ =~= plane_targets::<T>());
        }
    }
    (x, y)
}

/// A column of zeros.
pub open spec fn zero_column<T: Float>(n: usize) -> Array<T> {
    Array { data: Seq::new(n as nat, |i: int| fzero::<T>()), dims: seq![n, 1usize] }
}

/// A column of zeros.
pub fn zero_weight<T: Float>(n: usize) -> (r: Tensor<T>)
    ensures
        r.wf(),
        r.shape@ == seq![n, 1usize],
        deterministic::<T>() ==> r@ == zero_column::<T>(n),
{
    let r = column_of(crate::tensor::repeat(T::from_bits(ZERO), n));
    proof {
        if deterministic::<T>() {
            assert(r@ =~= zero_column::<T>(n));
        }
    }
    r
}

/// Fits the line `y = 2x` from a weight of zero: the losses before the first and
/// the last step, and the weight.
pub fn train_linear_regression<T: Float>(n_steps: usize, lr: T) -> (r: (T, T, T))
    requires
        n_steps > 0,
    ensures
        deterministic::<T>() ==> exists|ws: Seq<Array<T>>, losses: Seq<T>|
            {
                &&& #[trigger] descent_chain(
                    line_inputs::<T>(),
                    line_targets::<T>(),
                    lr,
                    false,
                    ws,
                    losses,
                )
                &&& losses.len() == n_steps
                &&& ws[0] == zero_column::<T>(1)
                &&& r == (losses[0], losses[n_steps - 1], ws[n_steps as int].data[0])
            },
{
    let (x, y) = line_points();
    let w0 = zero_weight(1);
    proof {
        assert(y.shape@ =~= seq![x.shape@[0], w0.shape@[1]]);
    }
    let (first, last, w) = descend(&x, &y, w0, n_steps, lr, false);
    proof {
        lemma_volume2(w.shape@);
    }
    (first, last, w.data[0])
}

/// Fits `y = 2a - 2b` through the quantisers from weights of zero: the losses
/// before the first and the last step, and the weights.
pub fn train_bitlinear_regression<T: Float>(n_steps: usize, lr: T) -> (r: (T, T, Vec<T>))
    requires
        n_steps > 0,
    ensures
        r.2@.len() == 2,
        deterministic::<T>() ==> exists|ws: Seq<Array<T>>, losses: Seq<T>|
            {
                &&& #[trigger] descent_chain(
                    plane_inputs::<T>(),
                    plane_targets::<T>(),
                    lr,
                    true,
                    ws,
                    losses,
                )
                &&& losses.len() == n_steps
                &&& ws[0] == zero_column::<T>(2)
                &&& r.0 == losses[0]
                &&& r.1 == losses[n_steps - 1]
                &&& r.2@ == ws[n_steps as int].data
            },
{
    let (x, y) = plane_points();
    let w0 = zero_weight(2);
    proof {
        assert(y.shape@ =~= seq![x.shape@[0], w0.shape@[1]]);
    }
    let (first, last, w) = descend(&x, &y, w0, n_steps, lr, true);
    proof {
        lemma_volume2(w.shape@);
    }
    (first, last, w.data)
}

} // verus!
