use vstd::prelude::*;
use crate::graph::{any_tracked, arity, Context, GraphView, NodeView, OpKind, Var};
use crate::traits::{ArithmeticOps, AutogradError, Dot, HasGrad, Reduce, Transpose};

verus! {

/// A copy of what a cell holds.
pub fn get_value<T: ArithmeticOps>(cell: &Option<T>) -> (r: Option<T>)
    ensures
        r == *cell,
{
    match cell {
        Some(v) => Some(v.duplicate()),
        None => None,
    }
}

/// The effect of building operation `op` on `deps` in `before`: one new node,
/// holding no data and no gradient, whose handle is returned.
pub open spec fn built<T>(before: GraphView<T>, after: GraphView<T>, r: Var, op: OpKind, deps: Seq<usize>) -> bool {
    &&& after.wf()
    &&& r == (Var { tag: before.tag, index: before.len() as usize })
    &&& after == before.pushed(before.op_node(op, deps), None)
}

proof fn lemma_any_tracked_pair(a: bool, b: bool)
    ensures
        any_tracked(seq![a, b]) == (a || b),
{
    if a {
        assert(seq![a, b][0]);
    }
    if b {
        assert(seq![a, b][1]);
    }
}

impl Var {
    /// A new leaf of `c` holding `data`; see `Context::var`.
    pub fn new<T>(c: &mut Context<T>, data: T) -> (v: Var)
        requires
            old(c).wf(),
        ensures
            final(c).wf(),
            v == (Var { tag: old(c)@.tag, index: old(c)@.len() as usize }),
            final(c)@ == old(c)@.pushed(
                NodeView { op: OpKind::Leaf, deps: seq![], tracks: seq![], requires_grad: false },
                Some(data),
            ),
    {
        c.var(data)
    }

    /// The node's identifier in its context.
    pub fn id(&self) -> (r: usize)
        ensures
            r == self.index,
    {
        self.index
    }

    fn binary<T>(&self, other: &Var, c: &mut Context<T>, op: OpKind) -> (r: Var)
        requires
            old(c).wf(),
            old(c)@.owns(*self),
            old(c)@.owns(*other),
            arity(op) == 2,
        ensures
            built(old(c)@, final(c)@, r, op, seq![self.index, other.index]),
            final(c)@.nodes[r.index as int].requires_grad == (old(c)@.nodes[self.index as int].requires_grad
                || old(c)@.nodes[other.index as int].requires_grad),
    {
        let ghost g0 = c@;
        let mut deps: Vec<usize> = Vec::new();
        deps.push(self.index);
        deps.push(other.index);
        assert(deps@ =~= seq![self.index, other.index]);
        let r = c.push_op(op, deps);
        proof {
            let t = g0.op_node(op, seq![self.index, other.index]).tracks;
            assert(t =~= seq![g0.nodes[self.index as int].requires_grad, g0.nodes[other.index as int].requires_grad]);
            lemma_any_tracked_pair(g0.nodes[self.index as int].requires_grad, g0.nodes[other.index as int].requires_grad);
            assert(c@.nodes[r.index as int] == g0.op_node(op, seq![self.index, other.index]));
        }
        r
    }

    /// `self + other`, elementwise under broadcasting. Only the node is
    /// built: nothing is computed until evaluation. It requires a gradient
    /// exactly when one of its operands does now.
    pub fn add<T>(&self, other: &Var, c: &mut Context<T>) -> (r: Var)
        requires
            old(c).wf(),
            old(c)@.owns(*self),
            old(c)@.owns(*other),
        ensures
            built(old(c)@, final(c)@, r, OpKind::Add, seq![self.index, other.index]),
            final(c)@.nodes[r.index as int].requires_grad == (old(c)@.nodes[self.index as int].requires_grad
                || old(c)@.nodes[other.index as int].requires_grad),
    {
        self.binary(other, c, OpKind::Add)
    }

    /// `self - other`, built as `add` is.
    pub fn sub<T>(&self, other: &Var, c: &mut Context<T>) -> (r: Var)
        requires
            old(c).wf(),
            old(c)@.owns(*self),
            old(c)@.owns(*other),
        ensures
            built(old(c)@, final(c)@, r, OpKind::Sub, seq![self.index, other.index]),
            final(c)@.nodes[r.index as int].requires_grad == (old(c)@.nodes[self.index as int].requires_grad
                || old(c)@.nodes[other.index as int].requires_grad),
    {
        self.binary(other, c, OpKind::Sub)
    }

    /// `self * other` elementwise, built as `add` is.
    pub fn mul<T>(&self, other: &Var, c: &mut Context<T>) -> (r: Var)
        requires
            old(c).wf(),
            old(c)@.owns(*self),
            old(c)@.owns(*other),
        ensures
            built(old(c)@, final(c)@, r, OpKind::Mul, seq![self.index, other.index]),
            final(c)@.nodes[r.index as int].requires_grad == (old(c)@.nodes[self.index as int].requires_grad
                || old(c)@.nodes[other.index as int].requires_grad),
    {
        self.binary(other, c, OpKind::Mul)
    }

    /// `self / other` elementwise, built as `add` is.
    pub fn div<T>(&self, other: &Var, c: &mut Context<T>) -> (r: Var)
        requires
            old(c).wf(),
            old(c)@.owns(*self),
            old(c)@.owns(*other),
        ensures
            built(old(c)@, final(c)@, r, OpKind::Div, seq![self.index, other.index]),
            final(c)@.nodes[r.index as int].requires_grad == (old(c)@.nodes[self.index as int].requires_grad
                || old(c)@.nodes[other.index as int].requires_grad),
    {
        self.binary(other, c, OpKind::Div)
    }

    /// The matrix product `self · other`, built as `add` is.
    pub fn dot<T>(&self, other: &Var, c: &mut Context<T>) -> (r: Var)
        requires
            old(c).wf(),
            old(c)@.owns(*self),
            old(c)@.owns(*other),
        ensures
            built(old(c)@, final(c)@, r, OpKind::Dot, seq![self.index, other.index]),
            final(c)@.nodes[r.index as int].requires_grad == (old(c)@.nodes[self.index as int].requires_grad
                || old(c)@.nodes[other.index as int].requires_grad),
    {
        self.binary(other, c, OpKind::Dot)
    }

    /// `-self`, built as `add` is.
    pub fn neg<T>(&self, c: &mut Context<T>) -> (r: Var)
        requires
            old(c).wf(),
            old(c)@.owns(*self),
        ensures
            built(old(c)@, final(c)@, r, OpKind::Neg, seq![self.index]),
            final(c)@.nodes[r.index as int].requires_grad == old(c)@.nodes[self.index as int].requires_grad,
    {
        let ghost g0 = c@;
        let mut deps: Vec<usize> = Vec::new();
        deps.push(self.index);
        assert(deps@ =~= seq![self.index]);
        let r = c.push_op(OpKind::Neg, deps);
        proof {
            let rg = g0.nodes[self.index as int].requires_grad;
            let t = g0.op_node(OpKind::Neg, seq![self.index]).tracks;
            assert(t =~= seq![rg]);
            if rg {
                assert(t[0]);
            }
            assert(c@.nodes[r.index as int] == g0.op_node(OpKind::Neg, seq![self.index]));
        }
        r
    }

    /// Whether the node requires a gradient.
    pub fn requires_grad<T>(&self, c: &Context<T>) -> (r: bool)
        requires
            c@.owns(*self),
        ensures
            r == c@.nodes[self.index as int].requires_grad,
    {
        c.rg_at(self.index)
    }

    /// Marks a leaf as requiring a gradient, or not. Operations built before
    /// keep the flag they recorded; only later ones see the change. Any other
    /// node is refused.
    pub fn set_requires_grad<T>(&self, c: &mut Context<T>, flag: bool) -> (r: Result<(), AutogradError>)
        requires
            old(c).wf(),
            old(c)@.owns(*self),
        ensures
            final(c).wf(),
            old(c)@.nodes[self.index as int].op == OpKind::Leaf ==> {
                &&& r is Ok
                &&& final(c)@.tag == old(c)@.tag
                &&& final(c)@.data == old(c)@.data
                &&& final(c)@.grads == old(c)@.grads
                &&& final(c)@.nodes == old(c)@.nodes.update(
                    self.index as int,
                    NodeView { requires_grad: flag, ..old(c)@.nodes[self.index as int] },
                )
            },
            old(c)@.nodes[self.index as int].op != OpKind::Leaf ==> r == Err::<(), AutogradError>(
                AutogradError::InvalidRequiresGradTarget,
            ) && final(c)@ == old(c)@,
    {
        if c.op_at(self.index) != OpKind::Leaf {
            return Err(AutogradError::InvalidRequiresGradTarget);
        }
        c.set_leaf_flag(self.index, flag);
        Ok(())
    }

    /// The node's data cell: a leaf's value, or an operation's value from the
    /// last evaluation (`None` before any).
    pub fn data<T: ArithmeticOps>(&self, c: &Context<T>) -> (r: Option<T>)
        requires
            c.wf(),
            c@.owns(*self),
        ensures
            r == c@.data[self.index as int],
    {
        get_value(c.data_at(self.index))
    }

    /// The node's gradient cell (`None` if no backward pass reached it since
    /// the last reset).
    pub fn grad<T: ArithmeticOps>(&self, c: &Context<T>) -> (r: Option<T>)
        requires
            c.wf(),
            c@.owns(*self),
        ensures
            r == c@.grads[self.index as int],
    {
        get_value(c.grad_at(self.index))
    }

    /// Overwrites the node's data cell.
    pub fn set_data<T>(&self, c: &mut Context<T>, data: T)
        requires
            old(c).wf(),
            old(c)@.owns(*self),
        ensures
            final(c).wf(),
            final(c)@.same_structure(old(c)@),
            final(c)@.grads == old(c)@.grads,
            final(c)@.data == old(c)@.data.update(self.index as int, Some(data)),
    {
        c.set_data_at(self.index, Some(data));
    }

    /// Overwrites the node's gradient cell.
    pub fn set_grad<T>(&self, c: &mut Context<T>, grad: T)
        requires
            old(c).wf(),
            old(c)@.owns(*self),
        ensures
            final(c).wf(),
            final(c)@.same_structure(old(c)@),
            final(c)@.data == old(c)@.data,
            final(c)@.grads == old(c)@.grads.update(self.index as int, Some(grad)),
    {
        c.set_grad_at(self.index, Some(grad));
    }

    /// Handles on the node's dependencies, in operand order.
    pub fn deps<T>(&self, c: &Context<T>) -> (r: Vec<Var>)
        requires
            c@.owns(*self),
        ensures
            r@.len() == c@.nodes[self.index as int].deps.len(),
            forall|k: int|
                0 <= k < r@.len() ==> #[trigger] r@[k] == (Var { tag: self.tag, index: c@.nodes[self.index as int].deps[k] }),
    {
        let d = c.deps_at(self.index);
        let mut r: Vec<Var> = Vec::new();
        let mut k: usize = 0;
        while k < d.len()
            invariant
                k <= d@.len(),
                r@.len() == k,
                forall|j: int| 0 <= j < k ==> #[trigger] r@[j] == (Var { tag: self.tag, index: d@[j] }),
            decreases d@.len() - k,
        {
            r.push(Var { tag: self.tag, index: d[k] });
            k = k + 1;
        }
        r
    }
}

impl Var {
    /// Evaluates the graph below this node; see `Context::eval_graph`.
    pub fn eval<T: ArithmeticOps + Dot>(&self, c: &mut Context<T>) -> (r: Result<(), AutogradError>)
        requires
            old(c).wf(),
            old(c)@.owns(*self),
        ensures
            final(c).wf(),
            final(c)@.same_structure(old(c)@),
            final(c)@.grads == old(c)@.grads,
            match old(c)@.value(self.index) {
                Ok(_) => r is Ok && forall|j: usize|
                    #[trigger] old(c)@.reaches(self.index, j) ==> final(c)@.data[j as int] == Some(
                        old(c)@.value(j).unwrap(),
                    ),
                Err(e) => r == Err::<(), AutogradError>(e),
            },
    {
        c.eval_graph(self)
    }

    /// Runs a backward pass from this node; see `Context::backward`.
    pub fn backward<T: ArithmeticOps + HasGrad + Reduce + Dot + Transpose>(&self, c: &mut Context<T>) -> (r: Result<
        (),
        AutogradError,
    >)
        requires
            old(c).wf(),
            old(c)@.owns(*self),
        ensures
            final(c).wf(),
            final(c)@.same_structure(old(c)@),
            match old(c)@.backward_spec(self.index) {
                Ok(g) => r is Ok && final(c)@.grads == g,
                Err(e) => r == Err::<(), AutogradError>(e),
            },
    {
        c.backward(self)
    }

    /// Clears the gradient of every node reachable from this one.
    pub fn reset_grad<T: ArithmeticOps + HasGrad + Reduce + Dot + Transpose>(&self, c: &mut Context<T>)
        requires
            old(c).wf(),
            old(c)@.owns(*self),
        ensures
            final(c).wf(),
            final(c)@.same_structure(old(c)@),
            final(c)@.data == old(c)@.data,
            forall|j: usize| #[trigger] old(c)@.reaches(self.index, j) ==> final(c)@.grads[j as int] is None,
    {
        c.reset_grad(self)
    }
}

impl<T: ArithmeticOps + Dot> Context<T> {
    /// The gradient cell of `v`.
    pub fn grad_of(&self, v: &Var) -> (r: Option<T>)
        requires
            self.wf(),
            self@.owns(*v),
        ensures
            r == self@.grads[v.index as int],
    {
        get_value(self.grad_at(v.index))
    }

    /// Evaluates from `v` and gives its value.
    pub fn value_of(&mut self, v: &Var) -> (r: Result<T, AutogradError>)
        requires
            old(self).wf(),
            old(self)@.owns(*v),
        ensures
            final(self).wf(),
            final(self)@.same_structure(old(self)@),
            r == old(self)@.value(v.index),
    {
        match self.eval_graph(v) {
            Ok(()) => {},
            Err(e) => {
                return Err(e);
            },
        }
        proof {
            assert(old(self)@.reaches(v.index, v.index));
        }
        match get_value(self.data_at(v.index)) {
            Some(x) => Ok(x),
            None => Err(AutogradError::UnsetLeaf),
        }
    }
}

} // verus!
