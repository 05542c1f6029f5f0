use vstd::prelude::*;
use crate::graph::{Context, GraphView, Var};

verus! {

/// The identifiers whose flag is set.
pub open spec fn marked(v: Seq<bool>) -> Set<usize> {
    Set::new(|i: usize| i < v.len() && v[i as int])
}

/// How many times `x` occurs in `s`.
pub open spec fn occurrences(s: Seq<usize>, x: usize) -> nat {
    s.filter(|y: usize| y == x).len()
}

impl<T> GraphView<T> {
    /// Depth-first post-order from `id`: dependencies left to right, then the
    /// node itself. Unless `revisit` holds, a node already in `seen` is
    /// skipped. Gives the nodes emitted and the nodes seen afterwards.
    pub open spec fn visit(self, id: usize, seen: Set<usize>, revisit: bool) -> (Seq<usize>, Set<usize>)
        decreases id,
    {
        if !revisit && seen.contains(id) {
            (Seq::empty(), seen)
        } else {
            let d = self.nodes[id as int].deps;
            let s0 = seen.insert(id);
            let r1 = if d.len() > 0 && d[0] < id {
                self.visit(d[0], s0, revisit)
            } else {
                (Seq::empty(), s0)
            };
            let r2 = if d.len() > 1 && d[1] < id {
                self.visit(d[1], r1.1, revisit)
            } else {
                (Seq::empty(), r1.1)
            };
            (r1.0 + r2.0 + seq![id], r2.1)
        }
    }

    /// The topological order from `root`: in unique mode each node once, in
    /// revisit mode once per path.
    pub open spec fn topo_order(self, root: usize, revisit: bool) -> Seq<usize> {
        self.visit(root, Set::empty(), revisit).0
    }

    /// Every dependency of `p[j]` stands in `p` before it.
    pub open spec fn deps_before(self, p: Seq<usize>, j: int) -> bool {
        forall|k: int|
            0 <= k < self.nodes[p[j] as int].deps.len() ==> p.subrange(0, j).contains(
                #[trigger] self.nodes[p[j] as int].deps[k],
            )
    }

    /// `p` lists each node after all of its dependencies.
    pub open spec fn ordered(self, p: Seq<usize>) -> bool {
        forall|j: int| 0 <= j < p.len() ==> #[trigger] self.deps_before(p, j)
    }

    /// The number of distinct dependency paths from `from` to `to`; two
    /// operand slots holding the same node are two edges.
    pub open spec fn paths(self, from: usize, to: usize) -> nat
        decreases from,
    {
        let d = self.nodes[from as int].deps;
        (if from == to {
            1nat
        } else {
            0nat
        }) + (if d.len() > 0 && d[0] < from {
            self.paths(d[0], to)
        } else {
            0nat
        }) + (if d.len() > 1 && d[1] < from {
            self.paths(d[1], to)
        } else {
            0nat
        })
    }
}

/// A node reaches only itself and nodes built before it.
pub proof fn lemma_reaches_below<T>(g: GraphView<T>, from: usize, to: usize)
    requires
        g.reaches(from, to),
    ensures
        to <= from,
    decreases from,
{
    let d = g.nodes[from as int].deps;
    if from != to {
        if d.len() > 0 && d[0] < from && g.reaches(d[0], to) {
            lemma_reaches_below(g, d[0], to);
        } else {
            lemma_reaches_below(g, d[1], to);
        }
    }
}

/// An ordered sequence holds everything that its members reach.
pub proof fn lemma_ordered_closed<T>(g: GraphView<T>, p: Seq<usize>, y: usize, x: usize)
    requires
        g.wf(),
        y < g.len(),
        g.ordered(p),
        p.contains(y),
        g.reaches(y, x),
    ensures
        p.contains(x),
    decreases y,
{
    if y != x {
        let j = choose|j: int| 0 <= j < p.len() && p[j] == y;
        assert(g.deps_before(p, j));
        assert(g.node_wf(y as int));
        let d = g.nodes[y as int].deps;
        let k: int = if d.len() > 0 && d[0] < y && g.reaches(d[0], x) {
            0
        } else {
            1
        };
        assert(p.subrange(0, j).contains(g.nodes[p[j] as int].deps[k]));
        let w = choose|w: int| 0 <= w < j && p.subrange(0, j)[w] == d[k];
        assert(p[w] == d[k]);
        lemma_ordered_closed(g, p, d[k], x);
    }
}

/// Unique-mode visiting keeps a prefix ordered and free of repeats, emits
/// exactly the nodes reachable from `id` that the prefix lacks, and leaves
/// `id` and all it reaches in the prefix.
pub proof fn lemma_visit_unique<T>(g: GraphView<T>, id: usize, seen: Set<usize>, prefix: Seq<usize>)
    requires
        g.wf(),
        id < g.len(),
        forall|x: usize| seen.contains(x) && x <= id ==> prefix.contains(x),
        forall|x: usize| prefix.contains(x) ==> seen.contains(x),
        g.ordered(prefix),
        prefix.no_duplicates(),
    ensures
        ({
            let (o, s) = g.visit(id, seen, false);
            &&& g.ordered(prefix + o)
            &&& (prefix + o).no_duplicates()
            &&& (prefix + o).contains(id)
            &&& forall|x: usize| g.reaches(id, x) ==> (prefix + o).contains(x)
            &&& forall|x: usize| o.contains(x) ==> g.reaches(id, x)
            &&& forall|x: usize| s.contains(x) <==> (seen.contains(x) || o.contains(x))
        }),
    decreases id,
{
    let (o, s) = g.visit(id, seen, false);
    if seen.contains(id) {
        assert(prefix + o =~= prefix);
        assert forall|x: usize| g.reaches(id, x) implies (prefix + o).contains(x) by {
            lemma_ordered_closed(g, prefix, id, x);
        }
    } else {
        assert(g.node_wf(id as int));
        let d = g.nodes[id as int].deps;
        let s0 = seen.insert(id);
        let r1 = if d.len() > 0 && d[0] < id {
            g.visit(d[0], s0, false)
        } else {
            (Seq::<usize>::empty(), s0)
        };
        let p1 = prefix + r1.0;
        if d.len() > 0 {
            assert(d[0] < id);
            lemma_visit_unique(g, d[0], s0, prefix);
        } else {
            assert(p1 =~= prefix);
        }
        let r2 = if d.len() > 1 && d[1] < id {
            g.visit(d[1], r1.1, false)
        } else {
            (Seq::<usize>::empty(), r1.1)
        };
        let p2 = p1 + r2.0;
        if d.len() > 1 {
            assert(d[1] < id);
            assert forall|x: usize| r1.1.contains(x) && x <= d[1] implies p1.contains(x) by {
                if !r1.0.contains(x) {
                    assert(prefix.contains(x));
                    let w = choose|w: int| 0 <= w < prefix.len() && prefix[w] == x;
                    assert(p1[w] == x);
                } else {
                    let w = choose|w: int| 0 <= w < r1.0.len() && r1.0[w] == x;
                    assert(p1[prefix.len() + w] == x);
                }
            }
            assert forall|x: usize| p1.contains(x) implies r1.1.contains(x) by {
                let w = choose|w: int| 0 <= w < p1.len() && p1[w] == x;
                if w >= prefix.len() {
                    assert(r1.0[w - prefix.len()] == x);
                } else {
                    assert(prefix[w] == x);
                }
            }
            lemma_visit_unique(g, d[1], r1.1, p1);
        } else {
            assert(p2 =~= p1);
        }
        assert(o == r1.0 + r2.0 + seq![id]);
        assert(prefix + o =~= p2.push(id));
        let pf = p2.push(id);
        // the emitted nodes all lie below `id`, so `id` is new
        assert forall|x: usize| r1.0.contains(x) || r2.0.contains(x) implies x < id by {
            if r1.0.contains(x) {
                lemma_reaches_below(g, d[0], x);
            } else {
                lemma_reaches_below(g, d[1], x);
            }
        }
        assert(!p2.contains(id)) by {
            if p2.contains(id) {
                let w = choose|w: int| 0 <= w < p2.len() && p2[w] == id;
                if w < prefix.len() {
                    assert(prefix.contains(id));
                } else if w < p1.len() {
                    assert(r1.0.contains(id));
                } else {
                    assert(r2.0.contains(id));
                }
            }
        }
        assert(pf.no_duplicates());
        assert forall|j: int| 0 <= j < pf.len() implies #[trigger] g.deps_before(pf, j) by {
            if j < p2.len() {
                assert(g.deps_before(p2, j));
                assert(pf.subrange(0, j) =~= p2.subrange(0, j));
            } else {
                assert forall|k: int| 0 <= k < g.nodes[pf[j] as int].deps.len() implies pf.subrange(
                    0,
                    j,
                ).contains(#[trigger] g.nodes[pf[j] as int].deps[k]) by {
                    assert(pf.subrange(0, j) =~= p2);
                    assert(pf[j] == id);
                    if k == 0 {
                        assert(p1.contains(d[0]));
                        let w = choose|w: int| 0 <= w < p1.len() && p1[w] == d[0];
                        assert(p2[w] == d[0]);
                    } else {
                        assert(p2.contains(d[1]));
                    }
                }
            }
        }
        assert forall|x: usize| g.reaches(id, x) implies pf.contains(x) by {
            if x == id {
                assert(pf[p2.len() as int] == id);
            } else {
                let k: int = if d.len() > 0 && d[0] < id && g.reaches(d[0], x) {
                    0
                } else {
                    1
                };
                if k == 0 {
                    assert(p1.contains(x));
                    let w = choose|w: int| 0 <= w < p1.len() && p1[w] == x;
                    assert(pf[w] == x);
                } else {
                    assert(d.len() > 1 && g.reaches(d[1], x));
                    assert(p2.contains(x));
                    let w = choose|w: int| 0 <= w < p2.len() && p2[w] == x;
                    assert(pf[w] == x);
                }
            }
        }
        assert forall|x: usize| o.contains(x) implies g.reaches(id, x) by {
            let w = choose|w: int| 0 <= w < o.len() && o[w] == x;
            if w < r1.0.len() {
                assert(r1.0[w] == x);
                assert(r1.0.contains(x));
                assert(g.reaches(d[0], x));
            } else if w < r1.0.len() + r2.0.len() {
                assert(r2.0[w - r1.0.len()] == x);
                assert(r2.0.contains(x));
                assert(g.reaches(d[1], x));
            }
        }
        assert(s == r2.1);
        assert forall|x: usize| s.contains(x) <==> (seen.contains(x) || o.contains(x)) by {
            assert(r1.1.contains(x) <==> (s0.contains(x) || r1.0.contains(x)));
            assert(r2.1.contains(x) <==> (r1.1.contains(x) || r2.0.contains(x)));
            assert(o[o.len() - 1] == id);
            if x == id {
                assert(o.contains(x));
            }
            if r1.0.contains(x) {
                let w = choose|w: int| 0 <= w < r1.0.len() && r1.0[w] == x;
                assert(o[w] == x);
            }
            if r2.0.contains(x) {
                let w = choose|w: int| 0 <= w < r2.0.len() && r2.0[w] == x;
                assert(o[r1.0.len() + w] == x);
            }
            if o.contains(x) {
                let w = choose|w: int| 0 <= w < o.len() && o[w] == x;
                if w < r1.0.len() {
                    assert(r1.0[w] == x);
                } else if w < r1.0.len() + r2.0.len() {
                    assert(r2.0[w - r1.0.len()] == x);
                } else {
                    assert(x == id);
                }
            }
        }
    }
}

/// In revisit mode, `x` occurs in the output of a visit from `id` once per
/// path from `id` to `x`, whatever was seen before.
pub proof fn lemma_visit_paths<T>(g: GraphView<T>, id: usize, seen: Set<usize>, x: usize)
    ensures
        occurrences(g.visit(id, seen, true).0, x) == g.paths(id, x),
    decreases id,
{
    let d = g.nodes[id as int].deps;
    let s0 = seen.insert(id);
    let r1 = if d.len() > 0 && d[0] < id {
        g.visit(d[0], s0, true)
    } else {
        (Seq::<usize>::empty(), s0)
    };
    let r2 = if d.len() > 1 && d[1] < id {
        g.visit(d[1], r1.1, true)
    } else {
        (Seq::<usize>::empty(), r1.1)
    };
    if d.len() > 0 && d[0] < id {
        lemma_visit_paths(g, d[0], s0, x);
    }
    if d.len() > 1 && d[1] < id {
        lemma_visit_paths(g, d[1], r1.1, x);
    }
    let f = |y: usize| y == x;
    Seq::filter_distributes_over_add(r1.0 + r2.0, seq![id], f);
    Seq::filter_distributes_over_add(r1.0, r2.0, f);
    reveal_with_fuel(Seq::filter, 2);
    assert(Seq::<usize>::empty().filter(f).len() == 0);
    assert(seq![id].drop_last() =~= Seq::<usize>::empty());
}

/// Unique mode emits every node reachable from `root` exactly once, each
/// after all of its dependencies, and nothing else. Revisit mode emits each
/// node once per distinct path from `root` to it.
pub proof fn lemma_topological_sort<T>(g: GraphView<T>, root: usize)
    requires
        g.wf(),
        root < g.len(),
    ensures
        g.topo_order(root, false).no_duplicates(),
        g.ordered(g.topo_order(root, false)),
        forall|x: usize| g.topo_order(root, false).contains(x) <==> g.reaches(root, x),
        forall|x: usize| occurrences(g.topo_order(root, true), x) == g.paths(root, x),
{
    let e = Seq::<usize>::empty();
    lemma_visit_unique(g, root, Set::empty(), e);
    assert(e + g.topo_order(root, false) =~= g.topo_order(root, false));
    assert forall|x: usize| occurrences(g.topo_order(root, true), x) == g.paths(root, x) by {
        lemma_visit_paths(g, root, Set::empty(), x);
    }
}

impl<T> Context<T> {
    fn dfs(&self, id: usize, visited: &mut Vec<bool>, stack: &mut Vec<usize>, allow_revisit: bool)
        requires
            self.wf(),
            id < self@.len(),
            old(visited)@.len() == self@.len(),
        ensures
            final(visited)@.len() == old(visited)@.len(),
            final(stack)@ == old(stack)@ + self@.visit(id, marked(old(visited)@), allow_revisit).0,
            marked(final(visited)@) == self@.visit(id, marked(old(visited)@), allow_revisit).1,
        decreases id,
    {
        let ghost seen = marked(visited@);
        if allow_revisit || !visited[id] {
            visited.set(id, true);
            assert(marked(visited@) =~= seen.insert(id));
            proof {
                assert(self@.node_wf(id as int));
            }
            let deps = self.deps_at(id);
            let ghost s1 = stack@;
            if deps.len() > 0 {
                self.dfs(deps[0], visited, stack, allow_revisit);
            }
            let ghost s2 = stack@;
            if deps.len() > 1 {
                self.dfs(deps[1], visited, stack, allow_revisit);
            }
            let ghost s3 = stack@;
            stack.push(id);
            proof {
                let r = self@.visit(id, seen, allow_revisit);
                assert(stack@ =~= old(stack)@ + r.0);
            }
        } else {
            assert(stack@ =~= old(stack)@ + Seq::<usize>::empty());
        }
    }

    /// The node identifiers in topological order from `root`.
    pub(crate) fn topo_indices(&self, root: usize, allow_revisit: bool) -> (r: Vec<usize>)
        requires
            self.wf(),
            root < self@.len(),
        ensures
            r@ == self@.topo_order(root, allow_revisit),
    {
        let mut visited: Vec<bool> = Vec::new();
        let n = self.len();
        while visited.len() < n
            invariant
                visited@.len() <= n,
                n == self@.len(),
                forall|i: int| 0 <= i < visited@.len() ==> !visited@[i],
            decreases n - visited@.len(),
        {
            visited.push(false);
        }
        assert(marked(visited@) =~= Set::<usize>::empty());
        let mut stack: Vec<usize> = Vec::new();
        self.dfs(root, &mut visited, &mut stack, allow_revisit);
        assert(stack@ =~= self@.topo_order(root, allow_revisit));
        stack
    }

    /// Depth-first post-order from `root`, dependencies left to right. In
    /// unique mode (`allow_revisit` false) each reachable node appears once;
    /// in revisit mode once per distinct path from `root`.
    pub fn topological_sort(&self, root: &Var, allow_revisit: bool) -> (r: Vec<Var>)
        requires
            self.wf(),
            self@.owns(*root),
        ensures
            r@.len() == self@.topo_order(root.index, allow_revisit).len(),
            forall|j: int|
                0 <= j < r@.len() ==> #[trigger] r@[j] == (Var {
                    tag: self@.tag,
                    index: self@.topo_order(root.index, allow_revisit)[j],
                }),
    {
        let order = self.topo_indices(root.index, allow_revisit);
        let mut r: Vec<Var> = Vec::new();
        let mut j: usize = 0;
        while j < order.len()
            invariant
                j <= order@.len(),
                order@ == self@.topo_order(root.index, allow_revisit),
                r@.len() == j,
                root.tag == self@.tag,
                forall|i: int| 0 <= i < j ==> #[trigger] r@[i] == (Var { tag: self@.tag, index: order@[i] }),
            decreases order@.len() - j,
        {
            r.push(Var { tag: root.tag, index: order[j] });
            j = j + 1;
        }
        r
    }
}

} // verus!
