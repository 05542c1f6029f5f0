use vstd::prelude::*;

verus! {

/// The operation a node applies to its dependencies.
#[derive(Clone, Copy, Debug, PartialEq, Eq, Structural)]
pub enum OpKind {
    Leaf,
    Add,
    Sub,
    Mul,
    Div,
    Neg,
    Dot,
}

/// How many dependencies a node of kind `op` has.
pub open spec fn arity(op: OpKind) -> nat {
    match op {
        OpKind::Leaf => 0,
        OpKind::Neg => 1,
        _ => 2,
    }
}

/// Whether `op` combines its operands elementwise, under broadcasting.
pub open spec fn is_elementwise(op: OpKind) -> bool {
    op == OpKind::Add || op == OpKind::Sub || op == OpKind::Mul || op == OpKind::Div
}

/// A handle on one node of a `Context`. Copies of a handle name the same
/// node, and so the same data and gradient cells.
#[derive(Clone, Copy, Debug, PartialEq, Eq, Structural)]
pub struct Var {
    /// The tag of the context that made the node.
    pub tag: u128,
    /// The node's place in that context: its identifier there.
    pub index: usize,
}

/// One node as stored: its operation, its dependencies in operand order, and
/// for each dependency whether that dependency required a gradient when this
/// node was built.
struct Node {
    op: OpKind,
    deps: Vec<usize>,
    tracks: Vec<bool>,
    requires_grad: bool,
}

/// The mathematical content of a node.
pub struct NodeView {
    pub op: OpKind,
    pub deps: Seq<usize>,
    pub tracks: Seq<bool>,
    pub requires_grad: bool,
}

/// The mathematical content of a context: its nodes, and each node's data and
/// gradient cell, all indexed by node identifier.
pub struct GraphView<T> {
    pub tag: u128,
    pub nodes: Seq<NodeView>,
    pub data: Seq<Option<T>>,
    pub grads: Seq<Option<T>>,
}

/// Whether some dependency was tracked.
pub open spec fn any_tracked(tracks: Seq<bool>) -> bool {
    exists|k: int| 0 <= k < tracks.len() && #[trigger] tracks[k]
}

impl<T> GraphView<T> {
    pub open spec fn len(self) -> nat {
        self.nodes.len()
    }

    pub open spec fn owns(self, v: Var) -> bool {
        v.tag == self.tag && v.index < self.nodes.len()
    }

    /// Node `i` has the arity of its kind, depends only on earlier nodes, and
    /// (for an operation) requires a gradient exactly when one of its
    /// dependencies did at construction. Operation nodes never change their
    /// flag, so for them the recorded flag is still the dependency's own.
    pub open spec fn node_wf(self, i: int) -> bool {
        let n = self.nodes[i];
        &&& n.deps.len() == arity(n.op)
        &&& n.tracks.len() == n.deps.len()
        &&& forall|k: int| 0 <= k < n.deps.len() ==> #[trigger] n.deps[k] < i
        &&& n.op != OpKind::Leaf ==> n.requires_grad == any_tracked(n.tracks)
        &&& forall|k: int|
            0 <= k < n.deps.len() && self.nodes[n.deps[k] as int].op != OpKind::Leaf
                ==> n.tracks[k] == #[trigger] self.nodes[n.deps[k] as int].requires_grad
    }

    pub open spec fn wf(self) -> bool {
        &&& self.nodes.len() <= usize::MAX
        &&& self.data.len() == self.nodes.len()
        &&& self.grads.len() == self.nodes.len()
        &&& forall|i: int| 0 <= i < self.nodes.len() ==> #[trigger] self.node_wf(i)
    }

    /// Node `to` can be reached from node `from` along dependency edges
    /// (every node reaches itself).
    pub open spec fn reaches(self, from: usize, to: usize) -> bool
        decreases from,
    {
        let d = self.nodes[from as int].deps;
        if from == to {
            true
        } else if from >= self.nodes.len() {
            false
        } else {
            (d.len() > 0 && d[0] < from && self.reaches(d[0], to)) || (d.len() > 1 && d[1] < from
                && self.reaches(d[1], to))
        }
    }

    /// The node that an operation `op` on `deps` gets when built now: each
    /// dependency's flag recorded, and a gradient required when any is set.
    pub open spec fn op_node(self, op: OpKind, deps: Seq<usize>) -> NodeView {
        let tracks = Seq::new(deps.len(), |k: int| self.nodes[deps[k] as int].requires_grad);
        NodeView { op, deps, tracks, requires_grad: any_tracked(tracks) }
    }

    /// This graph with node `n` added, holding data `d` and no gradient.
    pub open spec fn pushed(self, n: NodeView, d: Option<T>) -> GraphView<T> {
        GraphView {
            tag: self.tag,
            nodes: self.nodes.push(n),
            data: self.data.push(d),
            grads: self.grads.push(None),
        }
    }

    /// The same nodes and tag.
    pub open spec fn same_structure(self, other: GraphView<T>) -> bool {
        self.tag == other.tag && self.nodes == other.nodes
    }
}

/// A computation graph: the nodes built so far, with their data and gradient
/// cells. Nodes are never removed, so a node's identifier is never reused,
/// and every dependency names an earlier node, so the graph has no cycle.
pub struct Context<T> {
    tag: u128,
    nodes: Vec<Node>,
    data: Vec<Option<T>>,
    grads: Vec<Option<T>>,
}

impl Node {
    spec fn view(&self) -> NodeView {
        NodeView { op: self.op, deps: self.deps@, tracks: self.tracks@, requires_grad: self.requires_grad }
    }
}

/// Relies on uuid's `Uuid::new_v4` (a random version 4 identifier, which
/// panics only where the operating system's random source fails) and
/// `Uuid::as_u128` (its 128 bits). Nothing is promised of the value.
#[verifier::external_body]
fn fresh_tag() -> (r: u128) {
    uuid::Uuid::new_v4().as_u128()
}

impl<T> Context<T> {
    pub closed spec fn view(&self) -> GraphView<T> {
        GraphView {
            tag: self.tag,
            nodes: self.nodes@.map_values(|n: Node| n.view()),
            data: self.data@,
            grads: self.grads@,
        }
    }

    pub open spec fn wf(&self) -> bool {
        self@.wf()
    }

    /// An empty graph, with a fresh random tag that its handles carry.
    pub fn new() -> (c: Self)
        ensures
            c.wf(),
            c@.nodes.len() == 0,
    {
        let c = Context { tag: fresh_tag(), nodes: Vec::new(), data: Vec::new(), grads: Vec::new() };
        assert(c@.nodes =~= Seq::<NodeView>::empty());
        c
    }

    /// Whether `v` is a handle on a node of this context.
    pub fn owns(&self, v: &Var) -> (r: bool)
        ensures
            r == self@.owns(*v),
    {
        v.tag == self.tag && v.index < self.nodes.len()
    }

    pub fn len(&self) -> (r: usize)
        ensures
            r == self@.len(),
    {
        self.nodes.len()
    }

    /// A new leaf holding `data`. It does not require a gradient until
    /// `Var::set_requires_grad` says so.
    pub fn var(&mut self, data: T) -> (v: Var)
        requires
            old(self).wf(),
        ensures
            final(self).wf(),
            v == (Var { tag: old(self)@.tag, index: old(self)@.len() as usize }),
            final(self)@ == old(self)@.pushed(
                NodeView { op: OpKind::Leaf, deps: seq![], tracks: seq![], requires_grad: false },
                Some(data),
            ),
    {
        let index = self.nodes.len();
        let ghost g0 = self@;
        self.nodes.push(Node { op: OpKind::Leaf, deps: Vec::new(), tracks: Vec::new(), requires_grad: false });
        self.data.push(Some(data));
        self.grads.push(None);
        // the new count is a `usize` too
        let _count = self.nodes.len();
        proof {
            let n = NodeView { op: OpKind::Leaf, deps: seq![], tracks: seq![], requires_grad: false };
            assert(self@.nodes =~= g0.nodes.push(n));
            self.lemma_push_wf(g0, n);
        }
        Var { tag: self.tag, index }
    }

    proof fn lemma_push_wf(&self, g0: GraphView<T>, n: NodeView)
        requires
            g0.wf(),
            self@.nodes == g0.nodes.push(n),
            self@.nodes.len() <= usize::MAX,
            self@.data.len() == self@.nodes.len(),
            self@.grads.len() == self@.nodes.len(),
            self@.node_wf(g0.len() as int),
        ensures
            self@.wf(),
    {
        assert forall|j: int| 0 <= j < self@.nodes.len() implies #[trigger] self@.node_wf(j) by {
            if j < g0.len() {
                assert(g0.node_wf(j));
                let d = g0.nodes[j].deps;
                assert forall|k: int| 0 <= k < d.len() implies self@.nodes[d[k] as int] == g0.nodes[d[k] as int] by {
                    assert(d[k] < j);
                }
            }
        }
    }

    /// A new operation node `op` on `deps`, with no data yet.
    pub(crate) fn push_op(&mut self, op: OpKind, deps: Vec<usize>) -> (v: Var)
        requires
            old(self).wf(),
            op != OpKind::Leaf,
            deps@.len() == arity(op),
            forall|k: int| 0 <= k < deps@.len() ==> #[trigger] deps@[k] < old(self)@.len(),
        ensures
            final(self).wf(),
            v == (Var { tag: old(self)@.tag, index: old(self)@.len() as usize }),
            final(self)@ == old(self)@.pushed(old(self)@.op_node(op, deps@), None),
    {
        let index = self.nodes.len();
        let ghost g0 = self@;
        let mut tracks: Vec<bool> = Vec::new();
        let mut requires_grad = false;
        let mut k: usize = 0;
        while k < deps.len()
            invariant
                self@ == g0,
                g0.wf(),
                deps@.len() == arity(op),
                forall|j: int| 0 <= j < deps@.len() ==> #[trigger] deps@[j] < g0.len(),
                k <= deps@.len(),
                tracks@ =~= g0.op_node(op, deps@).tracks.subrange(0, k as int),
                requires_grad == any_tracked(tracks@),
            decreases deps@.len() - k,
        {
            let t = self.nodes[deps[k]].requires_grad;
            let ghost before = tracks@;
            tracks.push(t);
            requires_grad = requires_grad || t;
            proof {
                if t {
                    assert(tracks@[k as int]);
                } else if requires_grad {
                    let w = choose|w: int| 0 <= w < before.len() && #[trigger] before[w];
                    assert(tracks@[w]);
                }
            }
            k = k + 1;
        }
        let ghost n = g0.op_node(op, deps@);
        assert(tracks@ =~= n.tracks);
        self.nodes.push(Node { op, deps, tracks, requires_grad });
        self.data.push(None);
        self.grads.push(None);
        // the new count is a `usize` too
        let _count = self.nodes.len();
        proof {
            assert(self@.nodes =~= g0.nodes.push(n));
            self.lemma_push_wf(g0, n);
        }
        Var { tag: self.tag, index }
    }

    /// Marks leaf `i` as requiring a gradient, or not.
    pub(crate) fn set_leaf_flag(&mut self, i: usize, flag: bool)
        requires
            old(self).wf(),
            i < old(self)@.len(),
            old(self)@.nodes[i as int].op == OpKind::Leaf,
        ensures
            final(self).wf(),
            final(self)@.tag == old(self)@.tag,
            final(self)@.data == old(self)@.data,
            final(self)@.grads == old(self)@.grads,
            final(self)@.nodes == old(self)@.nodes.update(
                i as int,
                NodeView { requires_grad: flag, ..old(self)@.nodes[i as int] },
            ),
    {
        let ghost g0 = self@;
        assert(g0.node_wf(i as int));
        self.nodes.set(i, Node { op: OpKind::Leaf, deps: Vec::new(), tracks: Vec::new(), requires_grad: flag });
        proof {
            let n = NodeView { requires_grad: flag, ..g0.nodes[i as int] };
            assert(n.deps =~= seq![]);
            assert(n.tracks =~= seq![]);
            assert(self@.nodes =~= g0.nodes.update(i as int, n));
            assert forall|j: int| 0 <= j < self@.nodes.len() implies #[trigger] self@.node_wf(j) by {
                assert(g0.node_wf(j));
            }
        }
    }

    pub(crate) fn op_at(&self, i: usize) -> (r: OpKind)
        requires
            i < self@.len(),
        ensures
            r == self@.nodes[i as int].op,
    {
        self.nodes[i].op
    }

    pub(crate) fn deps_at(&self, i: usize) -> (r: &Vec<usize>)
        requires
            i < self@.len(),
        ensures
            r@ == self@.nodes[i as int].deps,
    {
        &self.nodes[i].deps
    }

    pub(crate) fn tracks_at(&self, i: usize) -> (r: &Vec<bool>)
        requires
            i < self@.len(),
        ensures
            r@ == self@.nodes[i as int].tracks,
    {
        &self.nodes[i].tracks
    }

    pub(crate) fn rg_at(&self, i: usize) -> (r: bool)
        requires
            i < self@.len(),
        ensures
            r == self@.nodes[i as int].requires_grad,
    {
        self.nodes[i].requires_grad
    }

    pub(crate) fn data_at(&self, i: usize) -> (r: &Option<T>)
        requires
            self.wf(),
            i < self@.len(),
        ensures
            *r == self@.data[i as int],
    {
        &self.data[i]
    }

    pub(crate) fn grad_at(&self, i: usize) -> (r: &Option<T>)
        requires
            self.wf(),
            i < self@.len(),
        ensures
            *r == self@.grads[i as int],
    {
        &self.grads[i]
    }

    pub(crate) fn set_data_at(&mut self, i: usize, v: Option<T>)
        requires
            old(self).wf(),
            i < old(self)@.len(),
        ensures
            final(self).wf(),
            final(self)@.same_structure(old(self)@),
            final(self)@.grads == old(self)@.grads,
            final(self)@.data == old(self)@.data.update(i as int, v),
    {
        self.data.set(i, v);
        assert(self@.wf()) by {
            assert forall|j: int| 0 <= j < self@.nodes.len() implies #[trigger] self@.node_wf(j) by {
                assert(old(self)@.node_wf(j));
            }
        }
    }

    pub(crate) fn set_grad_at(&mut self, i: usize, v: Option<T>)
        requires
            old(self).wf(),
            i < old(self)@.len(),
        ensures
            final(self).wf(),
            final(self)@.same_structure(old(self)@),
            final(self)@.data == old(self)@.data,
            final(self)@.grads == old(self)@.grads.update(i as int, v),
    {
        self.grads.set(i, v);
        assert(self@.wf()) by {
            assert forall|j: int| 0 <= j < self@.nodes.len() implies #[trigger] self@.node_wf(j) by {
                assert(old(self)@.node_wf(j));
            }
        }
    }
}

} // verus!
