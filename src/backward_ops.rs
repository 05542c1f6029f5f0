use vstd::prelude::*;
use crate::graph::OpKind;
use crate::traits::{ArithmeticOps, AutogradError, Dot, Reduce, Shape, Transpose};

verus! {

/// The gradient that an `op` node with operand values `a` and `b` passes to
/// its `k`th operand, given its own gradient `gp` (before un-broadcasting).
/// For `Dot`, `Z = A · B` gives `dA = dZ · Bᵀ` and `dB = Aᵀ · dZ`.
pub open spec fn local_grad_spec<T: ArithmeticOps + Dot + Transpose>(
    op: OpKind,
    k: int,
    gp: T,
    a: T,
    b: T,
) -> Result<T, AutogradError> {
    match op {
        OpKind::Add => Ok(gp),
        OpKind::Sub => if k == 0 {
            Ok(gp)
        } else {
            gp.neg_spec()
        },
        OpKind::Mul => if k == 0 {
            gp.mul_spec(&b)
        } else {
            gp.mul_spec(&a)
        },
        OpKind::Div => if k == 0 {
            gp.div_spec(&b)
        } else {
            div_right_spec(gp, a, b)
        },
        OpKind::Neg => gp.neg_spec(),
        OpKind::Dot => if k == 0 {
            gp.dot_spec(&b.t_spec())
        } else {
            a.t_spec().dot_spec(&gp)
        },
        OpKind::Leaf => Ok(gp),
    }
}

/// The divisor's gradient of `a / b`: `-gp * a / (b * b)`.
pub open spec fn div_right_spec<T: ArithmeticOps>(gp: T, a: T, b: T) -> Result<T, AutogradError> {
    match gp.neg_spec() {
        Err(e) => Err(e),
        Ok(n) => match n.mul_spec(&a) {
            Err(e) => Err(e),
            Ok(m) => match b.mul_spec(&b) {
                Err(e) => Err(e),
                Ok(bb) => m.div_spec(&bb),
            },
        },
    }
}

fn div_right<T: ArithmeticOps>(gp: &T, a: &T, b: &T) -> (r: Result<T, AutogradError>)
    ensures
        r == div_right_spec(*gp, *a, *b),
{
    let n = match gp.neg() {
        Ok(n) => n,
        Err(e) => {
            return Err(e);
        },
    };
    let m = match n.mul(a) {
        Ok(m) => m,
        Err(e) => {
            return Err(e);
        },
    };
    let bb = match b.mul(b) {
        Ok(bb) => bb,
        Err(e) => {
            return Err(e);
        },
    };
    m.div(&bb)
}

/// The gradient passed to operand `k` of an `op` node (see `local_grad_spec`).
pub fn local_grad<T: ArithmeticOps + Dot + Transpose>(op: OpKind, k: usize, gp: &T, a: &T, b: &T) -> (r: Result<
    T,
    AutogradError,
>)
    ensures
        r == local_grad_spec(op, k as int, *gp, *a, *b),
{
    match op {
        OpKind::Add => Ok(gp.duplicate()),
        OpKind::Sub => if k == 0 {
            Ok(gp.duplicate())
        } else {
            gp.neg()
        },
        OpKind::Mul => if k == 0 {
            gp.mul(b)
        } else {
            gp.mul(a)
        },
        OpKind::Div => if k == 0 {
            gp.div(b)
        } else {
            div_right(gp, a, b)
        },
        OpKind::Neg => gp.neg(),
        OpKind::Dot => if k == 0 {
            gp.dot(&b.t())
        } else {
            a.t().dot(gp)
        },
        OpKind::Leaf => Ok(gp.duplicate()),
    }
}

/// `small` broadcasts to `big`: aligned at the trailing axes, each extent of
/// `small` equals the matching extent of `big` or is 1.
pub open spec fn broadcasts_to(small: Seq<usize>, big: Seq<usize>) -> bool {
    &&& small.len() <= big.len()
    &&& forall|i: int|
        0 <= i < small.len() ==> #[trigger] small[i] == 1 || small[i] == big[big.len() - small.len() + i]
}

/// `g` summed `n` times along its first axis.
pub open spec fn sum_leading<T: Reduce>(g: T, n: nat) -> T
    decreases n,
{
    if n == 0 {
        g
    } else {
        sum_leading(g.sum_axis_spec(0), (n - 1) as nat)
    }
}

/// `g` summed, from axis `i` on, along each axis that has extent 1 in
/// `target` but not in `g`, keeping the axis.
pub open spec fn sum_expanded<T: Reduce>(g: T, target: Seq<usize>, i: nat) -> T
    decreases target.len() - i,
{
    if i >= target.len() {
        g
    } else {
        let g2 = if i < g.shape_spec().len() && target[i as int] == 1 && g.shape_spec()[i as int] != 1 {
            g.sum_axis_keep_spec(i as int)
        } else {
            g
        };
        sum_expanded(g2, target, i + 1)
    }
}

/// A gradient `g` of a broadcast result brought back to an operand of shape
/// `target`: the axes that broadcasting added in front are summed away, then
/// the axes it stretched are summed to extent 1.
pub open spec fn unbroadcast_spec<T: Reduce>(g: T, target: Seq<usize>) -> T {
    let n = g.shape_spec().len();
    let added: nat = if n > target.len() {
        (n - target.len()) as nat
    } else {
        0
    };
    sum_expanded(sum_leading(g, added), target, 0)
}

/// Restores `parent_grad`, the gradient of a broadcast result, to the shape
/// of the operand `data`. Where that shape broadcasts to the gradient's, the
/// result has exactly the operand's shape.
pub fn compute_broadcasted_gradients<T: ArithmeticOps + Reduce>(data: &T, parent_grad: &T) -> (r: T)
    ensures
        r == unbroadcast_spec(*parent_grad, data.shape_spec()),
        broadcasts_to(data.shape_spec(), parent_grad.shape_spec()) ==> r.shape_spec()
            == data.shape_spec(),
{
    let target = data.shape();
    let n = parent_grad.ndim();
    let added: usize = if n > target.len() {
        n - target.len()
    } else {
        0
    };
    let ghost big = parent_grad.shape_spec();
    let mut g = parent_grad.duplicate();
    let mut m: usize = 0;
    // sum out the axes that broadcasting added in front
    while m < added
        invariant
            m <= added,
            added == (if n > target@.len() { n - target@.len() } else { 0 }),
            n == big.len(),
            big == parent_grad.shape_spec(),
            g.shape_spec() == big.subrange(m as int, big.len() as int),
            sum_leading(g, (added - m) as nat) == sum_leading(*parent_grad, added as nat),
        decreases added - m,
    {
        g = g.sum_axis(0);
        assert(g.shape_spec() =~= big.subrange(m + 1, big.len() as int));
        m = m + 1;
    }
    let ghost g1 = g;
    assert(g1 == sum_leading(*parent_grad, added as nat));
    // sum, keeping the axis, where broadcasting stretched an extent of 1
    let mut i: usize = 0;
    while i < target.len()
        invariant
            i <= target@.len(),
            target@ == data.shape_spec(),
            sum_expanded(g, target@, i as nat) == sum_expanded(g1, target@, 0),
            broadcasts_to(target@, big) ==> {
                &&& g.shape_spec().len() == target@.len()
                &&& forall|j: int| 0 <= j < i ==> #[trigger] g.shape_spec()[j] == target@[j]
                &&& forall|j: int| i <= j < target@.len() ==> #[trigger] g.shape_spec()[j] == g1.shape_spec()[j]
            },
            g1.shape_spec() == big.subrange(added as int, big.len() as int),
            added == (if n > target@.len() { n - target@.len() } else { 0 }),
            n == big.len(),
        decreases target@.len() - i,
    {
        let ghost before = g;
        if i < g.ndim() && target[i] == 1 && g.shape()[i] != 1 {
            g = g.sum_axis_keep(i);
        }
        proof {
            if broadcasts_to(target@, big) {
                assert(target@[i as int] == 1 || target@[i as int] == big[big.len() - target@.len() + i]);
                assert forall|j: int| 0 <= j < i + 1 implies #[trigger] g.shape_spec()[j] == target@[j] by {
                    if j < i {
                        assert(before.shape_spec()[j] == target@[j]);
                    }
                }
                assert forall|j: int| i + 1 <= j < target@.len() implies #[trigger] g.shape_spec()[j] == g1.shape_spec()[j] by {
                    assert(before.shape_spec()[j] == g1.shape_spec()[j]);
                }
            }
        }
        i = i + 1;
    }
    proof {
        if broadcasts_to(target@, big) {
            assert(g.shape_spec() =~= target@);
        }
    }
    g
}

} // verus!
