use vstd::prelude::*;
use crate::graph::{Context, GraphView, OpKind, Var};
use crate::topo::{lemma_reaches_below, lemma_topological_sort, lemma_visit_unique};
use crate::traits::{ArithmeticOps, AutogradError, Dot};

verus! {

/// What operation `op` gives on operand values `a` and `b` (`b` is ignored by
/// `Neg`).
pub open spec fn apply_spec<T: ArithmeticOps + Dot>(op: OpKind, a: T, b: T) -> Result<T, AutogradError> {
    match op {
        OpKind::Add => a.add_spec(&b),
        OpKind::Sub => a.sub_spec(&b),
        OpKind::Mul => a.mul_spec(&b),
        OpKind::Div => a.div_spec(&b),
        OpKind::Neg => a.neg_spec(),
        OpKind::Dot => a.dot_spec(&b),
        OpKind::Leaf => Ok(a),
    }
}

fn apply_op<T: ArithmeticOps + Dot>(op: OpKind, a: &T, b: &T) -> (r: Result<T, AutogradError>)
    ensures
        r == apply_spec(op, *a, *b),
{
    match op {
        OpKind::Add => a.add(b),
        OpKind::Sub => a.sub(b),
        OpKind::Mul => a.mul(b),
        OpKind::Div => a.div(b),
        OpKind::Neg => a.neg(),
        OpKind::Dot => a.dot(b),
        OpKind::Leaf => Ok(a.duplicate()),
    }
}

impl<T: ArithmeticOps + Dot> GraphView<T> {
    /// The value of node `i`: a leaf's data, or its operation applied to the
    /// values of its dependencies; the first failure met, left operand first,
    /// otherwise.
    pub open spec fn value(self, i: usize) -> Result<T, AutogradError>
        decreases i,
    {
        let n = self.nodes[i as int];
        if n.op == OpKind::Leaf {
            match self.data[i as int] {
                Some(v) => Ok(v),
                None => Err(AutogradError::UnsetLeaf),
            }
        } else if n.deps.len() == 0 || n.deps[0] >= i {
            Err(AutogradError::UnsetLeaf)
        } else {
            match self.value(n.deps[0]) {
                Err(e) => Err(e),
                Ok(a) => if n.op == OpKind::Neg {
                    a.neg_spec()
                } else if n.deps.len() < 2 || n.deps[1] >= i {
                    Err(AutogradError::UnsetLeaf)
                } else {
                    match self.value(n.deps[1]) {
                        Err(e) => Err(e),
                        Ok(b) => apply_spec(n.op, a, b),
                    }
                },
            }
        }
    }
}

/// A failure anywhere below a node is a failure of the node.
pub proof fn lemma_err_propagates<T: ArithmeticOps + Dot>(g: GraphView<T>, from: usize, to: usize)
    requires
        g.wf(),
        from < g.len(),
        g.reaches(from, to),
        g.value(to).is_err(),
    ensures
        g.value(from).is_err(),
    decreases from,
{
    if from != to {
        assert(g.node_wf(from as int));
        let d = g.nodes[from as int].deps;
        if d.len() > 0 && d[0] < from && g.reaches(d[0], to) {
            lemma_err_propagates(g, d[0], to);
        } else {
            lemma_err_propagates(g, d[1], to);
        }
    }
}

/// A value below a node that has one has one too.
pub proof fn lemma_ok_descends<T: ArithmeticOps + Dot>(g: GraphView<T>, from: usize, to: usize)
    requires
        g.wf(),
        from < g.len(),
        g.reaches(from, to),
        g.value(from).is_ok(),
    ensures
        g.value(to).is_ok(),
{
    if g.value(to).is_err() {
        lemma_err_propagates(g, from, to);
    }
}

/// In a unique-mode visit from `id`, after a prefix of nodes that all have
/// values, the first node that has none fails with the error of `id` itself;
/// and if `id` has a value, so does every node visited.
pub proof fn lemma_first_failure<T: ArithmeticOps + Dot>(
    g: GraphView<T>,
    id: usize,
    seen: Set<usize>,
    prefix: Seq<usize>,
)
    requires
        g.wf(),
        id < g.len(),
        forall|x: usize| seen.contains(x) && x <= id ==> prefix.contains(x),
        forall|x: usize| prefix.contains(x) ==> seen.contains(x),
        g.ordered(prefix),
        prefix.no_duplicates(),
        forall|x: usize| prefix.contains(x) ==> (#[trigger] g.value(x)).is_ok(),
    ensures
        ({
            let o = g.visit(id, seen, false).0;
            &&& g.value(id).is_ok() ==> forall|j: int| 0 <= j < o.len() ==> (#[trigger] g.value(o[j])).is_ok()
            &&& g.value(id).is_err() ==> forall|j: int|
                0 <= j < o.len() && (forall|i: int| 0 <= i < j ==> (#[trigger] g.value(o[i])).is_ok())
                    && g.value(o[j]).is_err() ==> g.value(o[j]) == g.value(id)
        }),
    decreases id,
{
    let o = g.visit(id, seen, false).0;
    lemma_visit_unique(g, id, seen, prefix);
    if g.value(id).is_ok() {
        assert forall|j: int| 0 <= j < o.len() implies (#[trigger] g.value(o[j])).is_ok() by {
            assert(o.contains(o[j]));
            lemma_ok_descends(g, id, o[j]);
        }
    } else if seen.contains(id) {
        assert(prefix.contains(id));
    } else {
        assert(g.node_wf(id as int));
        let d = g.nodes[id as int].deps;
        let s0 = seen.insert(id);
        let r1 = if d.len() > 0 && d[0] < id {
            g.visit(d[0], s0, false)
        } else {
            (Seq::<usize>::empty(), s0)
        };
        let p1 = prefix + r1.0;
        if d.len() > 0 {
            lemma_visit_unique(g, d[0], s0, prefix);
            lemma_first_failure(g, d[0], s0, prefix);
        }
        let r2 = if d.len() > 1 && d[1] < id {
            g.visit(d[1], r1.1, false)
        } else {
            (Seq::<usize>::empty(), r1.1)
        };
        assert(o == r1.0 + r2.0 + seq![id]);
        if d.len() > 1 && g.value(d[0]).is_ok() {
            assert forall|x: usize| r1.1.contains(x) && x <= d[1] implies p1.contains(x) by {
                if !r1.0.contains(x) {
                    assert(prefix.contains(x));
                    let w = choose|w: int| 0 <= w < prefix.len() && prefix[w] == x;
                    assert(p1[w] == x);
                } else {
                    let w = choose|w: int| 0 <= w < r1.0.len() && r1.0[w] == x;
                    assert(p1[prefix.len() + w] == x);
                }
            }
            assert forall|x: usize| p1.contains(x) implies r1.1.contains(x) by {
                let w = choose|w: int| 0 <= w < p1.len() && p1[w] == x;
                if w >= prefix.len() {
                    assert(r1.0[w - prefix.len()] == x);
                } else {
                    assert(prefix[w] == x);
                }
            }
            assert forall|x: usize| p1.contains(x) implies (#[trigger] g.value(x)).is_ok() by {
                let w = choose|w: int| 0 <= w < p1.len() && p1[w] == x;
                if w >= prefix.len() {
                    assert(r1.0[w - prefix.len()] == x);
                } else {
                    assert(prefix[w] == x);
                }
            }
            lemma_first_failure(g, d[1], r1.1, p1);
        }
        assert forall|j: int|
            0 <= j < o.len() && (forall|i: int| 0 <= i < j ==> (#[trigger] g.value(o[i])).is_ok())
                && g.value(o[j]).is_err() implies g.value(o[j]) == g.value(id) by {
            if j < r1.0.len() {
                assert(o[j] == r1.0[j]);
                assert forall|i: int| 0 <= i < j implies (#[trigger] g.value(r1.0[i])).is_ok() by {
                    assert(o[i] == r1.0[i]);
                }
                if g.value(d[0]).is_ok() {
                    assert(g.value(r1.0[j]).is_ok());
                }
            } else if j < r1.0.len() + r2.0.len() {
                let j2 = j - r1.0.len();
                assert(o[j] == r2.0[j2]);
                if r1.0.len() > 0 {
                    assert(o[r1.0.len() - 1] == r1.0[r1.0.len() - 1]);
                }
                if g.value(d[0]).is_err() {
                    // the left visit emitted the left operand last, and it fails
                    assert(r1.0.len() > 0);
                    assert(r1.0[r1.0.len() - 1] == d[0]);
                    assert(g.value(o[r1.0.len() - 1]).is_ok());
                }
                assert forall|i: int| 0 <= i < j2 implies (#[trigger] g.value(r2.0[i])).is_ok() by {
                    assert(o[r1.0.len() + i] == r2.0[i]);
                }
                if g.value(d[1]).is_ok() {
                    assert(r2.0.contains(r2.0[j2]));
                    lemma_ok_descends(g, d[1], r2.0[j2]);
                }
            } else {
                assert(o[j] == id);
            }
        }
    }
}

impl<T: ArithmeticOps + Dot> Context<T> {
    /// Evaluates every node reachable from `root`, each once, dependencies
    /// first, and stores each value in the node's data cell. Gradients and
    /// nodes that `root` does not reach are left as they were.
    pub fn eval_graph(&mut self, root: &Var) -> (r: Result<(), AutogradError>)
        requires
            old(self).wf(),
            old(self)@.owns(*root),
        ensures
            final(self).wf(),
            final(self)@.same_structure(old(self)@),
            final(self)@.grads == old(self)@.grads,
            match old(self)@.value(root.index) {
                Ok(_) => r is Ok && forall|j: usize|
                    #[trigger] old(self)@.reaches(root.index, j) ==> final(self)@.data[j as int] == Some(
                        old(self)@.value(j).unwrap(),
                    ),
                Err(e) => r == Err::<(), AutogradError>(e),
            },
            forall|j: usize|
                0 <= j < old(self)@.len() && !#[trigger] old(self)@.reaches(root.index, j)
                    ==> final(self)@.data[j as int] == old(self)@.data[j as int],
            forall|j: int|
                0 <= j < old(self)@.len() && #[trigger] old(self)@.nodes[j].op == OpKind::Leaf
                    ==> final(self)@.data[j] == old(self)@.data[j],
    {
        let ghost g0 = self@;
        let order = self.topo_indices(root.index, false);
        proof {
            lemma_topological_sort(g0, root.index);
            assert forall|x: usize| order@.contains(x) implies x < g0.len() by {
                lemma_reaches_below(g0, root.index, x);
            }
        }
        let mut k: usize = 0;
        while k < order.len()
            invariant
                self.wf(),
                g0 == old(self)@,
                self@.same_structure(g0),
                self@.grads == g0.grads,
                g0.wf(),
                root.index < g0.len(),
                order@ == g0.topo_order(root.index, false),
                order@.no_duplicates(),
                g0.ordered(order@),
                forall|x: usize| order@.contains(x) <==> g0.reaches(root.index, x),
                forall|x: usize| order@.contains(x) ==> x < g0.len(),
                k <= order@.len(),
                forall|j: int|
                    0 <= j < k ==> (#[trigger] g0.value(order@[j])).is_ok() && self@.data[order@[j] as int]
                        == Some(g0.value(order@[j]).unwrap()),
                forall|x: int|
                    0 <= x < g0.len() && !order@.subrange(0, k as int).contains(x as usize)
                        ==> #[trigger] self@.data[x] == g0.data[x],
                forall|x: int|
                    0 <= x < g0.len() && #[trigger] g0.nodes[x].op == OpKind::Leaf ==> self@.data[x]
                        == g0.data[x],
            decreases order@.len() - k,
        {
            let i = order[k];
            proof {
                assert(order@.contains(i));
                assert(g0.deps_before(order@, k as int));
                assert(g0.node_wf(i as int));
            }
            let op = self.op_at(i);
            let res: Result<Option<T>, AutogradError> = if op == OpKind::Leaf {
                if self.data_at(i).is_none() {
                    Err(AutogradError::UnsetLeaf)
                } else {
                    Ok(None)
                }
            } else {
                let d0 = self.deps_at(i)[0];
                proof {
                    let w = choose|w: int| 0 <= w < k && order@.subrange(0, k as int)[w] == d0;
                    assert(order@[w] == d0);
                    assert(g0.value(order@[w]).is_ok());
                }
                if op == OpKind::Neg {
                    match self.data_at(d0) {
                        Some(a) => match a.neg() {
                            Ok(v) => Ok(Some(v)),
                            Err(e) => Err(e),
                        },
                        None => Err(AutogradError::UnsetLeaf),
                    }
                } else {
                    let d1 = self.deps_at(i)[1];
                    proof {
                        let w = choose|w: int| 0 <= w < k && order@.subrange(0, k as int)[w] == d1;
                        assert(order@[w] == d1);
                        assert(g0.value(order@[w]).is_ok());
                    }
                    match (self.data_at(d0), self.data_at(d1)) {
                        (Some(a), Some(b)) => match apply_op(op, a, b) {
                            Ok(v) => Ok(Some(v)),
                            Err(e) => Err(e),
                        },
                        _ => Err(AutogradError::UnsetLeaf),
                    }
                }
            };
            let ghost pre = self@;
            match res {
                Ok(Some(v)) => {
                    proof {
                        assert(g0.value(i) == Ok::<T, AutogradError>(v));
                    }
                    self.set_data_at(i, Some(v));
                    assert(self@.data[i as int] == Some(g0.value(i).unwrap()));
                    assert(forall|x: int| 0 <= x < g0.len() && x != i ==> self@.data[x] == pre.data[x]);
                },
                Ok(None) => {
                    proof {
                        assert(self@.data[i as int] == g0.data[i as int]);
                        assert(g0.value(i) == Ok::<T, AutogradError>(self@.data[i as int].unwrap()));
                    }
                },
                Err(e) => {
                    proof {
                        lemma_first_failure(g0, root.index, Set::empty(), Seq::empty());
                        assert(order@ == g0.visit(root.index, Set::empty(), false).0);
                        assert(g0.value(order@[k as int]) == Err::<T, AutogradError>(e));
                        assert(g0.value(root.index) == Err::<T, AutogradError>(e));
                        assert forall|x: usize|
                            0 <= x < g0.len() && !#[trigger] g0.reaches(root.index, x)
                                implies self@.data[x as int] == g0.data[x as int] by {
                            if order@.subrange(0, k as int).contains(x) {
                                let w = choose|w: int| 0 <= w < k && order@.subrange(0, k as int)[w] == x;
                                assert(order@[w] == x);
                                assert(order@.contains(x));
                            }
                            assert(self@.data[x as int] == g0.data[x as int]);
                        }
                    }
                    return Err(e);
                },
            }
            proof {
                assert forall|x: int|
                    0 <= x < g0.len() && !order@.subrange(0, k + 1).contains(x as usize)
                        implies #[trigger] self@.data[x] == g0.data[x] by {
                    if order@.subrange(0, k as int).contains(x as usize) {
                        let w = choose|w: int| 0 <= w < k && order@.subrange(0, k as int)[w] == x as usize;
                        assert(order@.subrange(0, k + 1)[w] == x as usize);
                    }
                    if x == i {
                        assert(order@.subrange(0, k + 1)[k as int] == x as usize);
                    }
                }
                assert forall|j: int|
                    0 <= j < k + 1 implies (#[trigger] g0.value(order@[j])).is_ok() && self@.data[order@[j] as int]
                        == Some(g0.value(order@[j]).unwrap()) by {
                    if j < k {
                        assert(order@[j] != i);
                        assert(order@.contains(order@[j]));
                        assert(g0.value(order@[j]).is_ok() && pre.data[order@[j] as int] == Some(g0.value(order@[j]).unwrap()));
                        assert(self@.data[order@[j] as int] == pre.data[order@[j] as int]);
                    } else {
                        assert(order@[j] == i);
                        assert(g0.value(i).is_ok());
                        assert(self@.data[i as int] == Some(g0.value(i).unwrap()));
                    }
                }
            }
            k = k + 1;
        }
        proof {
            assert(order@.subrange(0, k as int) =~= order@);
            assert(order@.contains(root.index));
            let w = choose|w: int| 0 <= w < order@.len() && order@[w] == root.index;
            assert(g0.value(order@[w]).is_ok());
            assert forall|j: usize| #[trigger] g0.reaches(root.index, j) implies self@.data[j as int] == Some(
                g0.value(j).unwrap(),
            ) by {
                assert(order@.contains(j));
                let w = choose|w: int| 0 <= w < order@.len() && order@[w] == j;
                assert(g0.value(order@[w]).is_ok());
            }
        }
        Ok(())
    }
}

} // verus!
