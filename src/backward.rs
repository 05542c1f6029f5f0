use vstd::prelude::*;
use crate::backward_ops::{compute_broadcasted_gradients, local_grad, local_grad_spec, unbroadcast_spec};
use crate::graph::{is_elementwise, Context, GraphView, OpKind, Var};
use crate::topo::{lemma_reaches_below, lemma_topological_sort};
use crate::traits::{ArithmeticOps, AutogradError, Dot, HasGrad, Reduce, Shape, Transpose};

verus! {

impl<T: ArithmeticOps + HasGrad + Reduce + Dot + Transpose> GraphView<T> {
    /// This graph with its gradient cells replaced.
    pub open spec fn with_grads(self, grads: Seq<Option<T>>) -> GraphView<T> {
        GraphView { grads, ..self }
    }

    /// The gradient cells after node `i`, whose gradient is `gp`, passes its
    /// contribution to operand `k`: nothing when that operand did not require
    /// a gradient when `i` was built; else the local gradient, un-broadcast
    /// for elementwise operations, added to the operand's gradient (or to a
    /// zero of its shape where it has none yet).
    pub open spec fn accumulate_spec(self, i: usize, k: int, gp: T) -> Result<Seq<Option<T>>, AutogradError> {
        let n = self.nodes[i as int];
        let d = n.deps[k];
        let ia = n.deps[0];
        let ib = if n.op == OpKind::Neg {
            n.deps[0]
        } else {
            n.deps[1]
        };
        if !n.tracks[k] {
            Ok(self.grads)
        } else if self.data[ia as int].is_none() || self.data[ib as int].is_none() {
            Err(AutogradError::UnsetLeaf)
        } else {
            let a = self.data[ia as int].unwrap();
            let b = self.data[ib as int].unwrap();
            let own = if k == 0 {
                a
            } else {
                b
            };
            match local_grad_spec(n.op, k, gp, a, b) {
                Err(e) => Err(e),
                Ok(c) => {
                    let c2 = if is_elementwise(n.op) {
                        unbroadcast_spec(c, own.shape_spec())
                    } else {
                        c
                    };
                    let cur = match self.grads[d as int] {
                        Some(g) => g,
                        None => own.zero_spec(),
                    };
                    match cur.add_spec(&c2) {
                        Err(e) => Err(e),
                        Ok(s) => Ok(self.grads.update(d as int, Some(s))),
                    }
                },
            }
        }
    }

    /// The gradient cells after the backward handler of node `i`: a leaf, or
    /// a node with no gradient, passes nothing; otherwise the left operand is
    /// served, then the right.
    pub open spec fn handler_spec(self, i: usize) -> Result<Seq<Option<T>>, AutogradError> {
        let n = self.nodes[i as int];
        if n.op == OpKind::Leaf || self.grads[i as int].is_none() {
            Ok(self.grads)
        } else {
            let gp = self.grads[i as int].unwrap();
            match self.accumulate_spec(i, 0, gp) {
                Err(e) => Err(e),
                Ok(g1) => if n.deps.len() < 2 {
                    Ok(g1)
                } else {
                    self.with_grads(g1).accumulate_spec(i, 1, gp)
                },
            }
        }
    }

    /// The gradient cells after the handlers of the nodes of `order` run, the
    /// last node first.
    pub open spec fn backprop(self, order: Seq<usize>) -> Result<Seq<Option<T>>, AutogradError>
        decreases order.len(),
    {
        if order.len() == 0 {
            Ok(self.grads)
        } else {
            match self.handler_spec(order.last()) {
                Err(e) => Err(e),
                Ok(g) => self.with_grads(g).backprop(order.drop_last()),
            }
        }
    }

    /// The graph after a successful evaluation from `root`.
    pub open spec fn evaluated(self, root: usize) -> GraphView<T> {
        GraphView {
            data: Seq::new(
                self.data.len(),
                |j: int|
                    if self.reaches(root, j as usize) {
                        Some(self.value(j as usize).unwrap())
                    } else {
                        self.data[j]
                    },
            ),
            ..self
        }
    }

    /// The evaluated graph with the root's gradient seeded to the one of its
    /// value's shape.
    pub open spec fn seeded(self, root: usize) -> GraphView<T> {
        let e = self.evaluated(root);
        e.with_grads(e.grads.update(root as int, Some(self.value(root).unwrap().one_spec())))
    }

    /// The gradient cells after a backward pass from `root`: evaluate, seed
    /// the root, then run the handlers in reverse topological order.
    pub open spec fn backward_spec(self, root: usize) -> Result<Seq<Option<T>>, AutogradError> {
        match self.value(root) {
            Err(e) => Err(e),
            Ok(_) => self.seeded(root).backprop(self.topo_order(root, false)),
        }
    }
}

impl<T: ArithmeticOps + HasGrad + Reduce + Dot + Transpose> Context<T> {
    fn accumulate(&mut self, i: usize, k: usize, gp: &T) -> (r: Result<(), AutogradError>)
        requires
            old(self).wf(),
            i < old(self)@.len(),
            k < old(self)@.nodes[i as int].deps.len(),
        ensures
            final(self).wf(),
            final(self)@.same_structure(old(self)@),
            final(self)@.data == old(self)@.data,
            match old(self)@.accumulate_spec(i, k as int, *gp) {
                Ok(g) => r is Ok && final(self)@.grads == g,
                Err(e) => r == Err::<(), AutogradError>(e),
            },
    {
        proof {
            assert(self@.node_wf(i as int));
        }
        if !self.tracks_at(i)[k] {
            return Ok(());
        }
        let op = self.op_at(i);
        let ia = self.deps_at(i)[0];
        let ib = if op == OpKind::Neg {
            ia
        } else {
            self.deps_at(i)[1]
        };
        let d = self.deps_at(i)[k];
        if self.data_at(ia).is_none() || self.data_at(ib).is_none() {
            return Err(AutogradError::UnsetLeaf);
        }
        let a: &T = self.data_at(ia).as_ref().unwrap();
        let b: &T = self.data_at(ib).as_ref().unwrap();
        let c = match local_grad(op, k, gp, a, b) {
            Ok(c) => c,
            Err(e) => {
                return Err(e);
            },
        };
        let own: &T = if k == 0 {
            a
        } else {
            b
        };
        let elementwise = op == OpKind::Add || op == OpKind::Sub || op == OpKind::Mul || op == OpKind::Div;
        let c2 = if elementwise {
            compute_broadcasted_gradients(own, &c)
        } else {
            c
        };
        let cur = match self.grad_at(d) {
            Some(g) => g.duplicate(),
            None => own.get_zero_grad(),
        };
        let sum = match cur.add(&c2) {
            Ok(s) => s,
            Err(e) => {
                return Err(e);
            },
        };
        self.set_grad_at(d, Some(sum));
        Ok(())
    }

    fn run_handler(&mut self, i: usize) -> (r: Result<(), AutogradError>)
        requires
            old(self).wf(),
            i < old(self)@.len(),
        ensures
            final(self).wf(),
            final(self)@.same_structure(old(self)@),
            final(self)@.data == old(self)@.data,
            match old(self)@.handler_spec(i) {
                Ok(g) => r is Ok && final(self)@.grads == g,
                Err(e) => r == Err::<(), AutogradError>(e),
            },
    {
        proof {
            assert(self@.node_wf(i as int));
        }
        if self.op_at(i) == OpKind::Leaf || self.grad_at(i).is_none() {
            return Ok(());
        }
        let gp = self.grad_at(i).as_ref().unwrap().duplicate();
        let ghost g0 = self@;
        match self.accumulate(i, 0, &gp) {
            Ok(()) => {},
            Err(e) => {
                return Err(e);
            },
        }
        if self.deps_at(i).len() > 1 {
            proof {
                assert(self@ == g0.with_grads(self@.grads));
            }
            return self.accumulate(i, 1, &gp);
        }
        Ok(())
    }

    /// Evaluates from `root`, seeds the root's gradient to the one of its
    /// value's shape, and runs every handler in reverse topological order,
    /// each adding into its operands' gradient cells. Gradients already
    /// present are added to: call `reset_grad` between passes.
    pub fn backward(&mut self, root: &Var) -> (r: Result<(), AutogradError>)
        requires
            old(self).wf(),
            old(self)@.owns(*root),
        ensures
            final(self).wf(),
            final(self)@.same_structure(old(self)@),
            match old(self)@.backward_spec(root.index) {
                Ok(g) => r is Ok && final(self)@.grads == g && final(self)@.data == old(self)@.evaluated(
                    root.index,
                ).data,
                Err(e) => r == Err::<(), AutogradError>(e),
            },
    {
        let ghost g0 = self@;
        let order = self.topo_indices(root.index, false);
        match self.eval_graph(root) {
            Ok(()) => {},
            Err(e) => {
                return Err(e);
            },
        }
        proof {
            assert forall|j: int| 0 <= j < self@.data.len() implies self@.data[j] == g0.evaluated(root.index).data[j] by {
                let ju = j as usize;
                if g0.reaches(root.index, ju) {
                    assert(self@.data[ju as int] == Some(g0.value(ju).unwrap()));
                } else {
                    assert(self@.data[ju as int] == g0.data[ju as int]);
                }
            }
            assert(self@.data =~= g0.evaluated(root.index).data);
            assert(g0.reaches(root.index, root.index));
        }
        let seed = self.data_at(root.index).as_ref().unwrap().get_default_init_grad();
        self.set_grad_at(root.index, Some(seed));
        let ghost gs = g0.seeded(root.index);
        assert(self@ == gs);
        proof {
            lemma_topological_sort(g0, root.index);
            assert forall|x: usize| order@.contains(x) implies x < g0.len() by {
                lemma_reaches_below(g0, root.index, x);
            }
            assert(order@.subrange(0, order@.len() as int) =~= order@);
        }
        let mut k: usize = order.len();
        while k > 0
            invariant
                self.wf(),
                self@.same_structure(g0),
                self@.data == gs.data,
                gs.nodes == g0.nodes,
                gs == g0.seeded(root.index),
                g0 == old(self)@,
                g0.value(root.index) is Ok,
                order@ == g0.topo_order(root.index, false),
                forall|x: usize| order@.contains(x) ==> x < g0.len(),
                k <= order@.len(),
                gs.backprop(order@) == self@.backprop(order@.subrange(0, k as int)),
            decreases k,
        {
            let i = order[k - 1];
            proof {
                assert(order@.contains(i));
                let s = order@.subrange(0, k as int);
                assert(s.last() == i);
                assert(s.drop_last() =~= order@.subrange(0, k - 1));
            }
            let ghost pre = self@;
            match self.run_handler(i) {
                Ok(()) => {
                    assert(self@ == pre.with_grads(self@.grads));
                },
                Err(e) => {
                    assert(pre.backprop(order@.subrange(0, k as int)) == Err::<Seq<Option<T>>, AutogradError>(e));
                    return Err(e);
                },
            }
            k = k - 1;
        }
        assert(order@.subrange(0, 0) =~= Seq::<usize>::empty());
        Ok(())
    }

    /// Clears the gradient of every node reachable from `root`.
    pub fn reset_grad(&mut self, root: &Var)
        requires
            old(self).wf(),
            old(self)@.owns(*root),
        ensures
            final(self).wf(),
            final(self)@.same_structure(old(self)@),
            final(self)@.data == old(self)@.data,
            forall|j: usize| #[trigger] old(self)@.reaches(root.index, j) ==> final(self)@.grads[j as int] is None,
            forall|j: usize|
                0 <= j < old(self)@.len() && !#[trigger] old(self)@.reaches(root.index, j)
                    ==> final(self)@.grads[j as int] == old(self)@.grads[j as int],
    {
        let ghost g0 = self@;
        let order = self.topo_indices(root.index, false);
        proof {
            lemma_topological_sort(g0, root.index);
            assert forall|x: usize| order@.contains(x) implies x < g0.len() by {
                lemma_reaches_below(g0, root.index, x);
            }
        }
        let mut k: usize = 0;
        while k < order.len()
            invariant
                self.wf(),
                self@.same_structure(g0),
                self@.data == g0.data,
                g0 == old(self)@,
                order@ == g0.topo_order(root.index, false),
                forall|x: usize| order@.contains(x) <==> g0.reaches(root.index, x),
                forall|x: usize| order@.contains(x) ==> x < g0.len(),
                k <= order@.len(),
                forall|j: int| 0 <= j < k ==> self@.grads[#[trigger] order@[j] as int] is None,
                forall|x: int|
                    0 <= x < g0.len() && !order@.subrange(0, k as int).contains(x as usize)
                        ==> #[trigger] self@.grads[x] == g0.grads[x],
            decreases order@.len() - k,
        {
            let i = order[k];
            proof {
                assert(order@.contains(i));
            }
            self.set_grad_at(i, None);
            proof {
                assert forall|j: int| 0 <= j < k + 1 implies self@.grads[#[trigger] order@[j] as int] is None by {
                    assert(order@.contains(order@[j]));
                }
                assert forall|x: int|
                    0 <= x < g0.len() && !order@.subrange(0, k + 1).contains(x as usize)
                        implies #[trigger] self@.grads[x] == g0.grads[x] by {
                    if order@.subrange(0, k as int).contains(x as usize) {
                        let w = choose|w: int| 0 <= w < k && order@.subrange(0, k as int)[w] == x as usize;
                        assert(order@.subrange(0, k + 1)[w] == x as usize);
                    }
                    if x == i {
                        assert(order@.subrange(0, k + 1)[k as int] == x as usize);
                    }
                }
            }
            k = k + 1;
        }
        proof {
            assert(order@.subrange(0, k as int) =~= order@);
            assert forall|j: usize| #[trigger] g0.reaches(root.index, j) implies self@.grads[j as int] is None by {
                assert(order@.contains(j));
                let w = choose|w: int| 0 <= w < order@.len() && order@[w] == j;
                assert(self@.grads[order@[w] as int] is None);
            }
            assert forall|j: usize|
                0 <= j < g0.len() && !#[trigger] g0.reaches(root.index, j)
                    implies self@.grads[j as int] == g0.grads[j as int] by {
                if order@.contains(j) {
                    assert(g0.reaches(root.index, j));
                }
            }
        }
    }
}

} // verus!
