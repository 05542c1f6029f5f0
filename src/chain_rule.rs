use vstd::prelude::*;
use crate::graph::{GraphView, OpKind};
use crate::topo::lemma_topological_sort;
use crate::traits::{ArithmeticOps, AutogradError, Shape};

verus! {

/// A gradient cell read as a number: an empty cell counts as zero.
pub open spec fn gval(c: Option<i64>) -> int {
    match c {
        Some(v) => v as int,
        None => 0,
    }
}

/// The derivative of node `i` with respect to node `x`, by the rules of
/// calculus applied to the operands' values: the sum, difference, product
/// and negation rules (`dot` of scalars is their product). Division is not
/// covered: integer division truncates.
pub open spec fn deriv(g: GraphView<i64>, i: usize, x: usize) -> int
    decreases i,
{
    let n = g.nodes[i as int];
    let d = n.deps;
    if i == x {
        1
    } else if n.op == OpKind::Leaf || d.len() == 0 || d[0] >= i {
        0
    } else {
        let da = deriv(g, d[0], x);
        if n.op == OpKind::Neg {
            -da
        } else if d.len() < 2 || d[1] >= i {
            0
        } else {
            let db = deriv(g, d[1], x);
            let va = g.value(d[0]).unwrap() as int;
            let vb = g.value(d[1]).unwrap() as int;
            match n.op {
                OpKind::Add => da + db,
                OpKind::Sub => da - db,
                OpKind::Mul => da * vb + va * db,
                OpKind::Dot => da * vb + va * db,
                _ => 0,
            }
        }
    }
}

/// The pending work of a backward pass over the nodes of `s`: each node's
/// gradient times its derivative with respect to `x`.
pub open spec fn weighted(g: GraphView<i64>, s: Seq<usize>, x: usize, grads: Seq<Option<i64>>) -> int
    decreases s.len(),
{
    if s.len() == 0 {
        0
    } else {
        weighted(g, s.drop_last(), x, grads) + gval(grads[s.last() as int]) * deriv(g, s.last(), x)
    }
}

/// What `x` has received already, once it has left the pending nodes.
pub open spec fn settled(s: Seq<usize>, x: usize, grads: Seq<Option<i64>>) -> int {
    if s.contains(x) {
        0
    } else {
        gval(grads[x as int])
    }
}

/// A node that does not reach `x` does not depend on it.
proof fn lemma_deriv_unreached(g: GraphView<i64>, i: usize, x: usize)
    requires
        g.wf(),
        i < g.len(),
        !g.reaches(i, x),
    ensures
        deriv(g, i, x) == 0,
    decreases i,
{
    assert(g.node_wf(i as int));
    let d = g.nodes[i as int].deps;
    if d.len() > 0 {
        lemma_deriv_unreached(g, d[0], x);
    }
    if d.len() > 1 {
        lemma_deriv_unreached(g, d[1], x);
    }
}

proof fn lemma_weighted_update(
    g: GraphView<i64>,
    s: Seq<usize>,
    x: usize,
    grads: Seq<Option<i64>>,
    d: usize,
    nv: Option<i64>,
)
    requires
        s.no_duplicates(),
        d < grads.len(),
        forall|j: int| 0 <= j < s.len() ==> #[trigger] s[j] < grads.len(),
    ensures
        weighted(g, s, x, grads.update(d as int, nv)) == weighted(g, s, x, grads) + (if s.contains(d) {
            (gval(nv) - gval(grads[d as int])) * deriv(g, d, x)
        } else {
            0
        }),
    decreases s.len(),
{
    if s.len() > 0 {
        let s1 = s.drop_last();
        let l = s.last();
        assert(s1.no_duplicates());
        assert forall|j: int| 0 <= j < s1.len() implies #[trigger] s1[j] < grads.len() by {
            assert(s1[j] == s[j]);
        }
        assert(s[s.len() - 1] < grads.len());
        lemma_weighted_update(g, s1, x, grads, d, nv);
        let u = grads.update(d as int, nv);
        if l == d {
            assert(!s1.contains(d)) by {
                if s1.contains(d) {
                    let w = choose|w: int| 0 <= w < s1.len() && s1[w] == d;
                    assert(s[w] == s[s.len() - 1]);
                }
            }
            assert(s.contains(d)) by {
                assert(s[s.len() - 1] == d);
            }
            assert(gval(nv) * deriv(g, d, x) == gval(grads[d as int]) * deriv(g, d, x) + (gval(nv) - gval(
                grads[d as int],
            )) * deriv(g, d, x)) by (nonlinear_arith);
        } else {
            assert(u[l as int] == grads[l as int]);
            assert(s.contains(d) == s1.contains(d)) by {
                if s.contains(d) {
                    let w = choose|w: int| 0 <= w < s.len() && s[w] == d;
                    assert(s1[w] == d);
                }
                if s1.contains(d) {
                    let w = choose|w: int| 0 <= w < s1.len() && s1[w] == d;
                    assert(s[w] == d);
                }
            }
        }
    }
}

proof fn lemma_weighted_empty(g: GraphView<i64>, s: Seq<usize>, x: usize, grads: Seq<Option<i64>>)
    requires
        forall|j: int| 0 <= j < s.len() ==> grads[#[trigger] s[j] as int] is None,
    ensures
        weighted(g, s, x, grads) == 0,
    decreases s.len(),
{
    if s.len() > 0 {
        let s1 = s.drop_last();
        assert forall|j: int| 0 <= j < s1.len() implies grads[#[trigger] s1[j] as int] is None by {
            assert(s1[j] == s[j]);
        }
        lemma_weighted_empty(g, s1, x, grads);
        assert(grads[s[s.len() - 1] as int] is None);
    }
}

/// The partial derivative of node `p` with respect to its `k`th operand, at
/// the operands' values.
pub open spec fn partial(g: GraphView<i64>, p: usize, k: int) -> int {
    let n = g.nodes[p as int];
    let va = g.value(n.deps[0]).unwrap() as int;
    let vb = g.value(n.deps[1]).unwrap() as int;
    match n.op {
        OpKind::Add => 1,
        OpKind::Sub => if k == 0 {
            1
        } else {
            -1
        },
        OpKind::Mul => if k == 0 {
            vb
        } else {
            va
        },
        OpKind::Dot => if k == 0 {
            vb
        } else {
            va
        },
        OpKind::Neg => -1,
        _ => 0,
    }
}

/// The conditions under which a backward pass from `y` computes derivatives
/// with respect to the leaf `x`: no division below `y`, every operand that
/// reaches `x` recorded as requiring a gradient, and no gradient yet below `y`.
pub open spec fn differentiable_from(g: GraphView<i64>, y: usize, x: usize) -> bool {
    &&& forall|v: usize| #[trigger] g.reaches(y, v) && v < g.len() ==> g.nodes[v as int].op != OpKind::Div
    &&& forall|v: usize, k: int|
        #[trigger] g.reaches(y, v) && v < g.len() && 0 <= k < g.nodes[v as int].deps.len() && g.reaches(
            g.nodes[v as int].deps[k],
            x,
        ) ==> #[trigger] g.nodes[v as int].tracks[k]
}

/// The state of a backward pass from `y` over the graph `g`: the same nodes,
/// every node below `y` holding its value, and a gradient cell per node.
pub open spec fn pass_state(g: GraphView<i64>, h: GraphView<i64>, y: usize) -> bool {
    &&& h.nodes == g.nodes
    &&& h.grads.len() == g.len()
    &&& h.data.len() == g.len()
    &&& forall|v: usize| #[trigger] g.reaches(y, v) && v < g.len() ==> h.data[v as int] == Some(
        g.value(v).unwrap(),
    )
}

proof fn lemma_reaches_trans(g: GraphView<i64>, a: usize, b: usize, c: usize)
    requires
        g.reaches(a, b),
        g.reaches(b, c),
    ensures
        g.reaches(a, c),
    decreases a,
{
    let d = g.nodes[a as int].deps;
    if a != b {
        if d.len() > 0 && d[0] < a && g.reaches(d[0], b) {
            lemma_reaches_trans(g, d[0], b, c);
        } else {
            lemma_reaches_trans(g, d[1], b, c);
        }
    }
}

/// One operand slot of a handler moves `gp * partial * deriv` of pending work
/// onto that operand.
proof fn lemma_slot(
    g: GraphView<i64>,
    h: GraphView<i64>,
    y: usize,
    x: usize,
    s: Seq<usize>,
    p: usize,
    k: int,
    gp: i64,
)
    requires
        g.wf(),
        pass_state(g, h, y),
        differentiable_from(g, y, x),
        p < g.len(),
        x < g.len(),
        g.reaches(y, p),
        g.nodes[p as int].op != OpKind::Leaf,
        0 <= k < g.nodes[p as int].deps.len(),
        s.no_duplicates(),
        s.contains(g.nodes[p as int].deps[k]),
        forall|j: int| 0 <= j < s.len() ==> #[trigger] s[j] < g.len(),
    ensures
        match h.accumulate_spec(p, k, gp) {
            Ok(g2) => g2.len() == h.grads.len() && weighted(g, s, x, g2) + settled(s, x, g2) == weighted(
                g,
                s,
                x,
                h.grads,
            ) + settled(s, x, h.grads) + gp * partial(g, p, k) * deriv(g, g.nodes[p as int].deps[k], x),
            Err(_) => true,
        },
{
    assert(g.node_wf(p as int));
    let n = g.nodes[p as int];
    let d = n.deps[k];
    let ia = n.deps[0];
    let ib = if n.op == OpKind::Neg {
        n.deps[0]
    } else {
        n.deps[1]
    };
    assert(g.reaches(ia, ia));
    assert(g.reaches(ib, ib));
    assert(g.reaches(p, ia));
    assert(g.reaches(p, ib));
    lemma_reaches_trans(g, y, p, ia);
    lemma_reaches_trans(g, y, p, ib);
    assert(g.reaches(y, p) && p < g.len());
    assert(g.nodes[p as int].op != OpKind::Div);
    if !n.tracks[k] {
        assert(!g.reaches(d, x));
        lemma_deriv_unreached(g, d, x);
        assert(gp * partial(g, p, k) * deriv(g, d, x) == 0) by (nonlinear_arith)
            requires
                deriv(g, d, x) == 0,
        ;
    } else {
        let a = h.data[ia as int].unwrap();
        let b = h.data[ib as int].unwrap();
        assert(a == g.value(ia).unwrap());
        assert(b == g.value(ib).unwrap());
        match crate::backward_ops::local_grad_spec(n.op, k, gp, a, b) {
            Err(_) => {},
            Ok(c) => {
                match n.op {
                    OpKind::Add => {
                        assert(partial(g, p, k) == 1);
                        assert(gp * 1 == gp) by (nonlinear_arith);
                        assert(c as int == gp * partial(g, p, k));
                    },
                    OpKind::Sub => {
                        if k == 0 {
                            assert(partial(g, p, k) == 1);
                            assert(gp * 1 == gp) by (nonlinear_arith);
                        } else {
                            assert(partial(g, p, k) == -1);
                            assert(gp * -1 == -gp) by (nonlinear_arith);
                        }
                        assert(c as int == gp * partial(g, p, k));
                    },
                    OpKind::Mul => {
                        assert(c as int == gp * partial(g, p, k));
                    },
                    OpKind::Dot => {
                        if k == 1 {
                            assert(a * gp == gp * a) by (nonlinear_arith);
                        }
                        assert(c as int == gp * partial(g, p, k));
                    },
                    OpKind::Neg => {
                        assert(partial(g, p, k) == -1);
                        assert(gp * -1 == -gp) by (nonlinear_arith);
                        assert(c as int == gp * partial(g, p, k));
                    },
                    _ => {},
                }
                let own = if k == 0 {
                    a
                } else {
                    b
                };
                assert(crate::backward_ops::unbroadcast_spec(c, own.shape_spec()) == c);
                let cur_v: i64 = match h.grads[d as int] {
                    Some(v) => v,
                    None => 0i64,
                };
                let cur = gval(h.grads[d as int]);
                assert(cur == cur_v as int);
                match cur_v.add_spec(&c) {
                    Err(_) => {},
                    Ok(sum) => {
                        assert(h.accumulate_spec(p, k, gp) == Ok::<Seq<Option<i64>>, AutogradError>(
                            h.grads.update(d as int, Some(sum)),
                        ));
                        assert(sum as int == cur + c);
                        lemma_weighted_update(g, s, x, h.grads, d, Some(sum));
                        assert((sum - cur) * deriv(g, d, x) == c * deriv(g, d, x));
                        assert(c * deriv(g, d, x) == gp * partial(g, p, k) * deriv(g, d, x));
                        let g2 = h.grads.update(d as int, Some(sum));
                        if d == x {
                            assert(s.contains(x));
                        } else {
                            assert(g2[x as int] == h.grads[x as int]);
                        }
                        assert(settled(s, x, g2) == settled(s, x, h.grads));
                    },
                }
            },
        }
    }
}

/// Running the handler of the last pending node keeps the pending work plus
/// what `x` has settled unchanged.
proof fn lemma_step(g: GraphView<i64>, h: GraphView<i64>, y: usize, x: usize, s: Seq<usize>)
    requires
        g.wf(),
        pass_state(g, h, y),
        differentiable_from(g, y, x),
        x < g.len(),
        g.nodes[x as int].op == OpKind::Leaf,
        s.len() > 0,
        s.no_duplicates(),
        g.deps_before(s, s.len() - 1),
        forall|j: int| 0 <= j < s.len() ==> #[trigger] s[j] < g.len() && g.reaches(y, s[j]),
    ensures
        match h.handler_spec(s.last()) {
            Ok(g2) => g2.len() == h.grads.len() && weighted(g, s.drop_last(), x, g2) + settled(
                s.drop_last(),
                x,
                g2,
            ) == weighted(g, s, x, h.grads) + settled(s, x, h.grads),
            Err(_) => true,
        },
{
    let p = s.last();
    let s1 = s.drop_last();
    assert(s[s.len() - 1] == p);
    assert(p < g.len() && g.reaches(y, p));
    assert(g.node_wf(p as int));
    assert(s1.no_duplicates());
    assert forall|j: int| 0 <= j < s1.len() implies #[trigger] s1[j] < g.len() by {
        assert(s1[j] == s[j]);
    }
    assert(s1 =~= s.subrange(0, s.len() - 1));
    let n = g.nodes[p as int];
    if p == x {
        assert(!s1.contains(x)) by {
            if s1.contains(x) {
                let w = choose|w: int| 0 <= w < s1.len() && s1[w] == x;
                assert(s[w] == s[s.len() - 1]);
            }
        }
        assert(s.contains(x));
        assert(h.handler_spec(p) == Ok::<Seq<Option<i64>>, AutogradError>(h.grads));
        assert(gval(h.grads[x as int]) * 1 == gval(h.grads[x as int])) by (nonlinear_arith);
    } else {
        assert(s.contains(x) == s1.contains(x)) by {
            if s.contains(x) {
                let w = choose|w: int| 0 <= w < s.len() && s[w] == x;
                assert(s1[w] == x);
            }
            if s1.contains(x) {
                let w = choose|w: int| 0 <= w < s1.len() && s1[w] == x;
                assert(s[w] == x);
            }
        }
        if n.op == OpKind::Leaf || h.grads[p as int] is None {
            assert(h.handler_spec(p) == Ok::<Seq<Option<i64>>, AutogradError>(h.grads));
            if n.op == OpKind::Leaf {
                assert(deriv(g, p, x) == 0);
            }
            assert(gval(h.grads[p as int]) * deriv(g, p, x) == 0) by (nonlinear_arith)
                requires
                    gval(h.grads[p as int]) == 0 || deriv(g, p, x) == 0,
            ;
        } else {
            let gp = h.grads[p as int].unwrap();
            assert(g.nodes[p as int].op != OpKind::Div);
            let d0 = n.deps[0];
            assert(s1.contains(d0));
            lemma_slot(g, h, y, x, s1, p, 0, gp);
            match h.accumulate_spec(p, 0, gp) {
                Err(_) => {},
                Ok(g1) => {
                    if n.deps.len() < 2 {
                        assert(n.op == OpKind::Neg);
                        assert(gp * partial(g, p, 0) * deriv(g, d0, x) == gp * deriv(g, p, x))
                            by (nonlinear_arith)
                            requires
                                partial(g, p, 0) == -1,
                                deriv(g, p, x) == -deriv(g, d0, x),
                        ;
                    } else {
                        let h1 = h.with_grads(g1);
                        let d1 = n.deps[1];
                        assert(s1.contains(d1));
                        lemma_slot(g, h1, y, x, s1, p, 1, gp);
                        let da = deriv(g, d0, x);
                        let db = deriv(g, d1, x);
                        let p0 = partial(g, p, 0);
                        let p1 = partial(g, p, 1);
                        assert(deriv(g, p, x) == p0 * da + p1 * db) by {
                            match n.op {
                                OpKind::Add => {
                                    assert(1 * da + 1 * db == da + db) by (nonlinear_arith);
                                },
                                OpKind::Sub => {
                                    assert(1 * da + -1 * db == da - db) by (nonlinear_arith);
                                },
                                _ => {
                                    let va = g.value(d0).unwrap() as int;
                                    let vb = g.value(d1).unwrap() as int;
                                    assert(vb * da + va * db == da * vb + va * db) by (nonlinear_arith);
                                },
                            }
                        }
                        assert(gp * p0 * da + gp * p1 * db == gp * (p0 * da + p1 * db)) by (nonlinear_arith);
                    }
                },
            }
        }
    }
}

/// The gradient that `x` ends with is the pending work plus what it has
/// settled when the handlers of `s` start.
proof fn lemma_fold(g: GraphView<i64>, h: GraphView<i64>, y: usize, x: usize, s: Seq<usize>)
    requires
        g.wf(),
        pass_state(g, h, y),
        differentiable_from(g, y, x),
        x < g.len(),
        g.nodes[x as int].op == OpKind::Leaf,
        s.no_duplicates(),
        g.ordered(s),
        forall|j: int| 0 <= j < s.len() ==> #[trigger] s[j] < g.len() && g.reaches(y, s[j]),
    ensures
        match h.backprop(s) {
            Ok(gr) => gval(gr[x as int]) == weighted(g, s, x, h.grads) + settled(s, x, h.grads),
            Err(_) => true,
        },
    decreases s.len(),
{
    if s.len() == 0 {
        assert(!s.contains(x));
    } else {
        let s1 = s.drop_last();
        assert(g.deps_before(s, s.len() - 1));
        lemma_step(g, h, y, x, s);
        match h.handler_spec(s.last()) {
            Err(_) => {},
            Ok(g2) => {
                let h2 = h.with_grads(g2);
                assert(s1.no_duplicates());
                assert forall|j: int| 0 <= j < s1.len() implies #[trigger] g.deps_before(s1, j) by {
                    assert(g.deps_before(s, j));
                    assert(s1.subrange(0, j) =~= s.subrange(0, j));
                    assert(s1[j] == s[j]);
                }
                assert forall|j: int| 0 <= j < s1.len() implies #[trigger] s1[j] < g.len() && g.reaches(y, s1[j]) by {
                    assert(s1[j] == s[j]);
                }
                lemma_fold(g, h2, y, x, s1);
            },
        }
    }
}

/// For integer scalars, a backward pass from `y` that succeeds gives the leaf
/// `x` the derivative of `y` with respect to `x` (an empty gradient read as
/// zero), for every graph of sums, differences, products, negations and
/// scalar `dot`s built after `x` was marked as requiring a gradient, with no
/// gradient present yet.
pub proof fn law_backward_is_derivative(g: GraphView<i64>, y: usize, x: usize)
    requires
        g.wf(),
        y < g.len(),
        x < g.len(),
        g.nodes[x as int].op == OpKind::Leaf,
        g.reaches(y, x),
        differentiable_from(g, y, x),
        forall|v: usize| #[trigger] g.reaches(y, v) && v < g.len() ==> g.grads[v as int] is None,
    ensures
        match g.backward_spec(y) {
            Ok(gr) => gval(gr[x as int]) == deriv(g, y, x),
            Err(_) => true,
        },
{
    if g.value(y).is_ok() {
        let o = g.topo_order(y, false);
        lemma_topological_sort(g, y);
        let h = g.seeded(y);
        assert forall|j: int| 0 <= j < o.len() implies #[trigger] o[j] < g.len() && g.reaches(y, o[j]) by {
            assert(o.contains(o[j]));
            crate::topo::lemma_reaches_below(g, y, o[j]);
        }
        assert forall|v: usize| #[trigger] g.reaches(y, v) && v < g.len() implies h.data[v as int] == Some(
            g.value(v).unwrap(),
        ) by {}
        assert(pass_state(g, h, y));
        lemma_fold(g, h, y, x, o);
        assert forall|j: int| 0 <= j < o.len() implies g.grads[#[trigger] o[j] as int] is None by {
            assert(g.reaches(y, o[j]) && o[j] < g.len());
        }
        lemma_weighted_empty(g, o, x, g.grads);
        assert(g.reaches(y, y));
        assert(o.contains(y));
        assert(g.grads[y as int] is None);
        lemma_weighted_update(g, o, x, g.grads, y, Some(1i64));
        assert(h.grads == g.grads.update(y as int, Some(1i64)));
        assert(o.contains(x));
        assert((1 - 0) * deriv(g, y, x) == deriv(g, y, x)) by (nonlinear_arith);
    }
}

} // verus!
