//! Launch plans for kernels on a graphics processor.
use vstd::prelude::*;

verus! {

/// The threads of a block in a one-dimensional launch.
pub const BLOCK: u32 = 256;

/// The threads along each side of a block in a two-dimensional launch.
pub const TILE: u32 = 16;

/// The multiple that the 8-bit product asks of its strides.
pub const INT8_STRIDE: usize = 4;

/// The largest size that a kernel argument can carry.
pub const ARG_MAX: usize = 0x7FFF_FFFF;

/// The number of groups of `size` that hold `n`.
pub open spec fn groups(n: int, size: int) -> int {
    (n + size - 1) / size
}

/// The number of blocks of 256 threads with a thread for each of `n` items;
/// nothing where a kernel argument cannot carry `n`.
pub fn grid_1d(n: usize) -> (r: Option<u32>)
    ensures
        n <= ARG_MAX ==> r == Some(groups(n as int, BLOCK as int) as u32),
        n > ARG_MAX ==> r is None,
{
    if n > ARG_MAX {
        return None;
    }
    Some((n as u32 + (BLOCK - 1)) / BLOCK)
}

/// The number of blocks of 16 by 16 threads with a thread for each cell of a
/// matrix, across and down; nothing where a kernel argument cannot carry a side.
pub fn grid_2d(cols: usize, rows: usize) -> (r: Option<(u32, u32)>)
    ensures
        cols <= ARG_MAX && rows <= ARG_MAX ==> r == Some(
            (
                groups(cols as int, TILE as int) as u32,
                groups(rows as int, TILE as int) as u32,
            ),
        ),
        cols > ARG_MAX || rows > ARG_MAX ==> r is None,
{
    if cols > ARG_MAX || rows > ARG_MAX {
        return None;
    }
    Some(((cols as u32 + (TILE - 1)) / TILE, (rows as u32 + (TILE - 1)) / TILE))
}

/// A launch has a thread for every item, and no block without one.
pub proof fn law_grid_covers(n: int, size: int)
    requires
        0 <= n,
        0 < size,
    ensures
        groups(n, size) * size >= n,
        n > 0 ==> (groups(n, size) - 1) * size < n,
        n == 0 ==> groups(n, size) == 0,
{
    let q = groups(n, size);
    vstd::arithmetic::div_mod::lemma_fundamental_div_mod(n + size - 1, size);
    vstd::arithmetic::div_mod::lemma_mod_bound(n + size - 1, size);
    assert(q * size == size * q) by (nonlinear_arith);
    assert((q - 1) * size == size * q - size) by (nonlinear_arith);
    if n == 0 {
        vstd::arithmetic::div_mod::lemma_basic_div(size - 1, size);
    }
}

/// How a quantised product of an `m` by `k` and a `k` by `n` matrix is run.
#[derive(Debug, Clone, Copy, PartialEq, Eq, Structural)]
pub enum BitLinearPlan {
    /// On 8-bit integers: a block for each row of activations, one block for the
    /// weights, and a grid of tiles for scaling the sums back.
    Int8 { act_blocks: u32, weight_blocks: u32, scale_cols: u32, scale_rows: u32 },
    /// On floats, because a stride is no multiple of four.
    Float,
    /// Not at all: a kernel argument cannot carry a size.
    TooLarge,
}

/// The plan for a quantised product.
pub open spec fn plan_of(m: usize, k: usize, n: usize) -> BitLinearPlan {
    if m > ARG_MAX || k > ARG_MAX || n > ARG_MAX {
        BitLinearPlan::TooLarge
    } else if k % INT8_STRIDE != 0 || n % INT8_STRIDE != 0 {
        BitLinearPlan::Float
    } else {
        BitLinearPlan::Int8 {
            act_blocks: m as u32,
            weight_blocks: 1,
            scale_cols: groups(n as int, TILE as int) as u32,
            scale_rows: groups(m as int, TILE as int) as u32,
        }
    }
}

/// Chooses how a quantised product is run: on 8-bit integers where the strides
/// allow it, else on floats.
pub fn bit_linear_plan(m: usize, k: usize, n: usize) -> (r: BitLinearPlan)
    ensures
        r == plan_of(m, k, n),
{
    if m > ARG_MAX || k > ARG_MAX || n > ARG_MAX {
        return BitLinearPlan::TooLarge;
    }
    if k % INT8_STRIDE != 0 || n % INT8_STRIDE != 0 {
        return BitLinearPlan::Float;
    }
    BitLinearPlan::Int8 {
        act_blocks: m as u32,
        weight_blocks: 1,
        scale_cols: (n as u32 + (TILE - 1)) / TILE,
        scale_rows: (m as u32 + (TILE - 1)) / TILE,
    }
}

/// The targets as kernel arguments; nothing where one is not below the
/// vocabulary's size or cannot be carried.
pub fn target_args(targets: &[usize], vocab: usize) -> (r: Option<Vec<i32>>)
    ensures
        match r {
            Some(v) => {
                &&& v@.len() == targets@.len()
                &&& forall|i: int|
                    0 <= i < v@.len() ==> #[trigger] v@[i] == targets@[i] && targets@[i] < vocab
            },
            None => exists|i: int|
                0 <= i < targets@.len() && (#[trigger] targets@[i] >= vocab || targets@[i]
                    > ARG_MAX),
        },
{
    let mut out: Vec<i32> = Vec::new();
    let mut i: usize = 0;
    while i < targets.len()
        invariant
            i <= targets@.len(),
            out@.len() == i,
            forall|k: int|
                0 <= k < i ==> #[trigger] out@[k] == targets@[k] && targets@[k] < vocab,
        decreases targets@.len() - i,
    {
        let t: usize = targets[i];
        if t >= vocab || t > ARG_MAX {
            proof {
                assert(targets@[i as int] >= vocab || targets@[i as int] > ARG_MAX);
            }
            return None;
        }
        out.push(t as i32);
        i += 1;
    }
    Some(out)
}

} // verus!
