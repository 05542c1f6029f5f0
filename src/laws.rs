use vstd::prelude::*;
use crate::graph::{GraphView, NodeView, OpKind};
use crate::traits::AutogradError;
use vstd::arithmetic::power::{lemma_pow1, lemma_pow_adds, pow};

verus! {

/// `y` is `x op x op ... op x` with `n` copies of `x`, grouped from the left
/// (`(x op x) op x`, ...), each node built while both operands required a
/// gradient.
pub open spec fn op_chain(nodes: Seq<NodeView>, op: OpKind, x: usize, y: usize, n: nat) -> bool
    decreases n,
{
    if n <= 1 {
        n == 1 && y == x
    } else {
        let node = nodes[y as int];
        &&& y < nodes.len()
        &&& node.op == op
        &&& node.deps.len() == 2
        &&& node.deps[1] == x
        &&& node.tracks == seq![true, true]
        &&& op_chain(nodes, op, x, node.deps[0], (n - 1) as nat)
    }
}

/// The nodes of such a chain, `x` first and `y` last.
pub open spec fn chain_seq(nodes: Seq<NodeView>, x: usize, y: usize, n: nat) -> Seq<usize>
    decreases n,
{
    if n <= 1 {
        seq![x]
    } else {
        chain_seq(nodes, x, nodes[y as int].deps[0], (n - 1) as nat).push(y)
    }
}

proof fn lemma_chain_shape<T>(g: GraphView<T>, op: OpKind, x: usize, y: usize, n: nat)
    requires
        g.wf(),
        x < g.len(),
        op_chain(g.nodes, op, x, y, n),
    ensures
        chain_seq(g.nodes, x, y, n).len() == n,
        chain_seq(g.nodes, x, y, n)[0] == x,
        chain_seq(g.nodes, x, y, n).last() == y,
        forall|j: int| 0 <= j < n ==> #[trigger] chain_seq(g.nodes, x, y, n)[j] <= y,
        forall|j: int| 0 <= j < n ==> g.reaches(y, #[trigger] chain_seq(g.nodes, x, y, n)[j]),
        y < g.len(),
    decreases n,
{
    if n > 1 {
        let p = g.nodes[y as int].deps[0];
        assert(g.node_wf(y as int));
        lemma_chain_shape(g, op, x, p, (n - 1) as nat);
        let s = chain_seq(g.nodes, x, p, (n - 1) as nat);
        assert forall|j: int| 0 <= j < n implies g.reaches(y, #[trigger] chain_seq(g.nodes, x, y, n)[j]) by {
            if j < n - 1 {
                assert(chain_seq(g.nodes, x, y, n)[j] == s[j]);
                assert(g.reaches(p, s[j]));
            }
        }
    }
}

/// The topological order from the end of a chain is the chain itself.
proof fn lemma_chain_visit<T>(g: GraphView<T>, op: OpKind, x: usize, y: usize, n: nat, seen: Set<usize>)
    requires
        g.wf(),
        x < g.len(),
        g.nodes[x as int].op == OpKind::Leaf,
        op_chain(g.nodes, op, x, y, n),
        forall|j: int| 0 <= j < n ==> !seen.contains(#[trigger] chain_seq(g.nodes, x, y, n)[j]),
    ensures
        g.visit(y, seen, false).0 == chain_seq(g.nodes, x, y, n),
        forall|z: usize| #[trigger] g.visit(y, seen, false).1.contains(z) <==> (seen.contains(z)
            || chain_seq(g.nodes, x, y, n).contains(z)),
    decreases n,
{
    lemma_chain_shape(g, op, x, y, n);
    assert(chain_seq(g.nodes, x, y, n)[n - 1] == y);
    if n == 1 {
        assert(g.node_wf(x as int));
        assert(g.visit(y, seen, false).0 =~= seq![x]);
    } else {
        let p = g.nodes[y as int].deps[0];
        assert(g.node_wf(y as int));
        let s0 = seen.insert(y);
        let cp = chain_seq(g.nodes, x, p, (n - 1) as nat);
        lemma_chain_shape(g, op, x, p, (n - 1) as nat);
        assert forall|j: int| 0 <= j < n - 1 implies !s0.contains(#[trigger] cp[j]) by {
            assert(chain_seq(g.nodes, x, y, n)[j] == cp[j]);
        }
        lemma_chain_visit(g, op, x, p, (n - 1) as nat, s0);
        let s1 = g.visit(p, s0, false).1;
        assert(cp[0] == x);
        assert(cp.contains(x));
        assert(s1.contains(x));
        assert(g.visit(x, s1, false).0 =~= Seq::<usize>::empty());
        assert(g.visit(y, seen, false).0 =~= cp.push(y));
        assert forall|z: usize| #[trigger] g.visit(y, seen, false).1.contains(z) <==> (seen.contains(z)
            || chain_seq(g.nodes, x, y, n).contains(z)) by {
            if cp.contains(z) {
                let w = choose|w: int| 0 <= w < cp.len() && cp[w] == z;
                assert(chain_seq(g.nodes, x, y, n)[w] == z);
            }
            if chain_seq(g.nodes, x, y, n).contains(z) {
                let w = choose|w: int| 0 <= w < n && chain_seq(g.nodes, x, y, n)[w] == z;
                if w < n - 1 {
                    assert(cp[w] == z);
                }
            }
        }
    }
}

/// In a chain of sums of the leaf value `v`, the node with `k` copies has the
/// value `k * v`.
proof fn lemma_sum_chain_value(g: GraphView<i64>, x: usize, y: usize, k: nat, v: i64, n: nat)
    requires
        g.wf(),
        x < g.len(),
        g.nodes[x as int].op == OpKind::Leaf,
        g.data[x as int] == Some(v),
        op_chain(g.nodes, OpKind::Add, x, y, k),
        k <= n,
        i64::MIN <= n * v <= i64::MAX,
    ensures
        i64::MIN <= k * v <= i64::MAX,
        g.value(y) == Ok::<i64, AutogradError>((k * v) as i64),
    decreases k,
{
    assert(i64::MIN <= k * v <= i64::MAX) by (nonlinear_arith)
        requires
            1 <= k <= n,
            i64::MIN <= n * v <= i64::MAX,
            i64::MIN <= v <= i64::MAX,
    ;
    if k == 1 {
        assert(1 * v == v);
    } else {
        let p = g.nodes[y as int].deps[0];
        assert(g.node_wf(y as int));
        lemma_sum_chain_value(g, x, p, (k - 1) as nat, v, n);
        assert((k - 1) * v + v == k * v) by (nonlinear_arith);
        let a = ((k - 1) * v) as i64;
        assert(g.value(p) == Ok::<i64, AutogradError>(a));
        assert(g.value(x) == Ok::<i64, AutogradError>(v));
        assert(a + v == k * v);
    }
}

/// Well-formedness depends on the nodes alone, given cells of the right count.
proof fn lemma_wf_same_nodes<T>(g: GraphView<T>, h: GraphView<T>)
    requires
        g.wf(),
        h.nodes == g.nodes,
        h.data.len() == g.data.len(),
        h.grads.len() == g.grads.len(),
    ensures
        h.wf(),
{
    assert forall|i: int| 0 <= i < h.nodes.len() implies #[trigger] h.node_wf(i) by {
        assert(g.node_wf(i));
    }
}

/// Along a chain of sums, the backward handlers give `x` one more unit of
/// gradient per copy, each chain node passing on the unit it received.
proof fn lemma_sum_chain_backprop(g: GraphView<i64>, x: usize, c: usize, k: nat, a0: int)
    requires
        g.wf(),
        x < g.len(),
        g.nodes[x as int].op == OpKind::Leaf,
        op_chain(g.nodes, OpKind::Add, x, c, k),
        k >= 2,
        g.grads[c as int] == Some(1i64),
        forall|j: int|
            0 <= j < k && chain_seq(g.nodes, x, c, k)[j] != x && chain_seq(g.nodes, x, c, k)[j] != c
                ==> g.grads[#[trigger] chain_seq(g.nodes, x, c, k)[j] as int] is None,
        forall|j: int| 0 <= j < k ==> g.data[#[trigger] chain_seq(g.nodes, x, c, k)[j] as int] is Some,
        a0 == (match g.grads[x as int] {
            Some(a) => a as int,
            None => 0,
        }),
        0 <= a0,
        a0 + k <= i64::MAX,
    ensures
        match g.backprop(chain_seq(g.nodes, x, c, k)) {
            Ok(gr) => gr[x as int] == Some((a0 + k) as i64),
            Err(_) => false,
        },
    decreases k,
{
    let s = chain_seq(g.nodes, x, c, k);
    let p = g.nodes[c as int].deps[0];
    let cp = chain_seq(g.nodes, x, p, (k - 1) as nat);
    assert(g.node_wf(c as int));
    lemma_chain_shape(g, OpKind::Add, x, c, k);
    lemma_chain_shape(g, OpKind::Add, x, p, (k - 1) as nat);
    assert(s.drop_last() =~= cp);
    assert(cp[0] == x);
    assert(s[k - 2] == p);
    assert(s[0] == x);
    assert(g.data[p as int] is Some);
    assert(g.data[x as int] is Some);
    let cur0: int = if p == x {
        a0
    } else {
        0
    };
    if p != x {
        assert(g.grads[p as int] is None);
    }
    let g1 = g.grads.update(p as int, Some((cur0 + 1) as i64));
    let cur1: int = if p == x {
        a0 + 1
    } else {
        a0
    };
    let g2 = g1.update(x as int, Some((cur1 + 1) as i64));
    assert(g.accumulate_spec(c, 0, 1i64) == Ok::<Seq<Option<i64>>, AutogradError>(g1));
    assert(g.with_grads(g1).accumulate_spec(c, 1, 1i64) == Ok::<Seq<Option<i64>>, AutogradError>(g2));
    assert(g.handler_spec(c) == Ok::<Seq<Option<i64>>, AutogradError>(g2));
    let h = g.with_grads(g2);
    assert(s.last() == c);
    assert(g.backprop(s) == h.backprop(cp));
    if k == 2 {
        assert(p == x);
        assert(cp =~= seq![x]);
        assert(cp.drop_last() =~= Seq::<usize>::empty());
        assert(h.handler_spec(x) == Ok::<Seq<Option<i64>>, AutogradError>(g2));
        assert(h.with_grads(g2) == h);
        assert(h.backprop(Seq::<usize>::empty()) == Ok::<Seq<Option<i64>>, AutogradError>(g2));
        assert(h.backprop(cp) == Ok::<Seq<Option<i64>>, AutogradError>(g2));
    } else {
        reveal_with_fuel(op_chain, 2);
        assert(g.nodes[p as int].op == OpKind::Add);
        assert(p != x);
        lemma_wf_same_nodes(g, h);
        assert forall|j: int|
            0 <= j < k - 1 && cp[j] != x && cp[j] != p implies h.grads[#[trigger] cp[j] as int] is None by {
            assert(s[j] == cp[j]);
            assert(cp[j] <= p);
        }
        assert forall|j: int| 0 <= j < k - 1 implies h.data[#[trigger] cp[j] as int] is Some by {
            assert(s[j] == cp[j]);
        }
        lemma_sum_chain_backprop(h, x, p, (k - 1) as nat, a0 + 1);
    }
}

/// Summing `k` copies of a scalar leaf `x` that requires a gradient, and
/// running a backward pass from the sum, gives `x` the gradient `k`.
pub proof fn law_repeated_sum_gradient(g: GraphView<i64>, x: usize, y: usize, k: nat)
    requires
        g.wf(),
        x < g.len(),
        g.nodes[x as int].op == OpKind::Leaf,
        g.nodes[x as int].requires_grad,
        g.data[x as int] is Some,
        op_chain(g.nodes, OpKind::Add, x, y, k),
        forall|j: int| 0 <= j < k ==> g.grads[#[trigger] chain_seq(g.nodes, x, y, k)[j] as int] is None,
        i64::MIN <= k * g.data[x as int].unwrap() <= i64::MAX,
        k <= i64::MAX,
    ensures
        match g.backward_spec(y) {
            Ok(gr) => gr[x as int] == Some(k as i64),
            Err(_) => false,
        },
{
    let v = g.data[x as int].unwrap();
    let s = chain_seq(g.nodes, x, y, k);
    lemma_sum_chain_value(g, x, y, k, v, k);
    lemma_chain_shape(g, OpKind::Add, x, y, k);
    lemma_chain_visit(g, OpKind::Add, x, y, k, Set::empty());
    assert(g.topo_order(y, false) == s);
    let sd = g.seeded(y);
    assert(sd.grads == g.grads.update(y as int, Some(1i64)));
    assert forall|j: int| 0 <= j < k implies sd.data[#[trigger] s[j] as int] is Some by {
        assert(g.reaches(y, s[j]));
    }
    assert(g.value(y) is Ok);
    assert(g.backward_spec(y) == sd.backprop(s));
    if k == 1 {
        assert(s =~= seq![x]);
        assert(s.drop_last() =~= Seq::<usize>::empty());
        assert(sd.handler_spec(x) == Ok::<Seq<Option<i64>>, AutogradError>(sd.grads));
        assert(sd.with_grads(sd.grads) == sd);
        assert(sd.backprop(Seq::<usize>::empty()) == Ok::<Seq<Option<i64>>, AutogradError>(sd.grads));
        assert(sd.backprop(s) == Ok::<Seq<Option<i64>>, AutogradError>(sd.grads));
        assert(y == x);
        assert(sd.grads[x as int] == Some(1i64));
    } else {
        assert(s[0] == x);
        assert(g.nodes[y as int].op == OpKind::Add);
        assert(x != y);
        assert(g.grads[x as int] is None);
        lemma_wf_same_nodes(g, sd);
        lemma_sum_chain_backprop(sd, x, y, k, 0);
    }
}

/// In a chain of products of the leaf value `v`, the node with `k` copies has
/// the value `v` to the power `k`.
proof fn lemma_product_chain_value(g: GraphView<i64>, x: usize, y: usize, k: nat, v: i64, n: nat)
    requires
        g.wf(),
        x < g.len(),
        g.nodes[x as int].op == OpKind::Leaf,
        g.data[x as int] == Some(v),
        op_chain(g.nodes, OpKind::Mul, x, y, k),
        k <= n,
        forall|j: nat| j <= n ==> i64::MIN <= #[trigger] pow(v as int, j) <= i64::MAX,
    ensures
        g.value(y) == Ok::<i64, AutogradError>(pow(v as int, k) as i64),
    decreases k,
{
    lemma_pow1(v as int);
    if k > 1 {
        let p = g.nodes[y as int].deps[0];
        assert(g.node_wf(y as int));
        lemma_product_chain_value(g, x, p, (k - 1) as nat, v, n);
        lemma_pow_adds(v as int, (k - 1) as nat, 1);
        assert(pow(v as int, (k - 1) as nat) * v == pow(v as int, k));
        assert(g.value(p) == Ok::<i64, AutogradError>(pow(v as int, (k - 1) as nat) as i64));
        assert(g.value(x) == Ok::<i64, AutogradError>(v));
    }
}

/// Along a chain of products, each node passes `x` the same share `w`, the
/// product of its gradient and the value of its left operand.
proof fn lemma_product_chain_backprop(g: GraphView<i64>, x: usize, c: usize, k: nat, n: nat, v: i64)
    requires
        g.wf(),
        x < g.len(),
        g.nodes[x as int].op == OpKind::Leaf,
        op_chain(g.nodes, OpKind::Mul, x, c, k),
        2 <= k <= n,
        g.data[x as int] == Some(v),
        forall|j: int|
            0 <= j < k ==> g.data[#[trigger] chain_seq(g.nodes, x, c, k)[j] as int] == Some(
                pow(v as int, (j + 1) as nat) as i64,
            ),
        g.grads[c as int] == Some(pow(v as int, (n - k) as nat) as i64),
        forall|j: int|
            0 <= j < k && chain_seq(g.nodes, x, c, k)[j] != x && chain_seq(g.nodes, x, c, k)[j] != c
                ==> g.grads[#[trigger] chain_seq(g.nodes, x, c, k)[j] as int] is None,
        (match g.grads[x as int] {
            Some(a) => a as int,
            None => 0,
        }) == (n - k) * pow(v as int, (n - 1) as nat),
        forall|j: nat| j <= n ==> i64::MIN <= #[trigger] pow(v as int, j) <= i64::MAX,
        forall|m: int| 0 <= m <= n ==> i64::MIN <= #[trigger] (m * pow(v as int, (n - 1) as nat)) <= i64::MAX,
    ensures
        match g.backprop(chain_seq(g.nodes, x, c, k)) {
            Ok(gr) => gr[x as int] == Some((n * pow(v as int, (n - 1) as nat)) as i64),
            Err(_) => false,
        },
    decreases k,
{
    let s = chain_seq(g.nodes, x, c, k);
    let p = g.nodes[c as int].deps[0];
    let cp = chain_seq(g.nodes, x, p, (k - 1) as nat);
    let w = pow(v as int, (n - 1) as nat);
    let gp = pow(v as int, (n - k) as nat);
    let a0 = (n - k) * w;
    assert(g.node_wf(c as int));
    lemma_chain_shape(g, OpKind::Mul, x, c, k);
    lemma_chain_shape(g, OpKind::Mul, x, p, (k - 1) as nat);
    assert(s.drop_last() =~= cp);
    assert(s[k - 2] == p);
    assert(s[0] == x);
    let a = pow(v as int, (k - 1) as nat);
    assert(g.data[p as int] == Some(a as i64));
    lemma_pow1(v as int);
    lemma_pow_adds(v as int, (n - k) as nat, 1);
    lemma_pow_adds(v as int, (n - k) as nat, (k - 1) as nat);
    assert(gp * v == pow(v as int, (n - k + 1) as nat));
    assert(gp * a == w);
    assert(i64::MIN <= (n - k + 1) * w <= i64::MAX);
    assert(i64::MIN <= (n - k + 2) * w <= i64::MAX);
    assert(a0 + w == (n - k + 1) * w) by (nonlinear_arith)
        requires
            a0 == (n - k) * w,
    ;
    assert(a0 + w + w == (n - k + 2) * w) by (nonlinear_arith)
        requires
            a0 == (n - k) * w,
    ;
    let cur0: int = if p == x {
        a0
    } else {
        0
    };
    if p != x {
        assert(g.grads[p as int] is None);
    }
    let g1 = g.grads.update(p as int, Some((cur0 + gp * v) as i64));
    let cur1: int = if p == x {
        a0 + w
    } else {
        a0
    };
    let g2 = g1.update(x as int, Some((cur1 + w) as i64));
    assert(g.accumulate_spec(c, 0, gp as i64) == Ok::<Seq<Option<i64>>, AutogradError>(g1));
    assert(g.with_grads(g1).accumulate_spec(c, 1, gp as i64) == Ok::<Seq<Option<i64>>, AutogradError>(g2));
    assert(g.handler_spec(c) == Ok::<Seq<Option<i64>>, AutogradError>(g2));
    let h = g.with_grads(g2);
    assert(s.last() == c);
    assert(g.backprop(s) == h.backprop(cp));
    if k == 2 {
        assert(p == x);
        assert(cp =~= seq![x]);
        assert(cp.drop_last() =~= Seq::<usize>::empty());
        assert(h.handler_spec(x) == Ok::<Seq<Option<i64>>, AutogradError>(g2));
        assert(h.with_grads(g2) == h);
        assert(h.backprop(Seq::<usize>::empty()) == Ok::<Seq<Option<i64>>, AutogradError>(g2));
        assert(h.backprop(cp) == Ok::<Seq<Option<i64>>, AutogradError>(g2));
    } else {
        reveal_with_fuel(op_chain, 2);
        assert(g.nodes[p as int].op == OpKind::Mul);
        assert(p != x);
        lemma_wf_same_nodes(g, h);
        assert forall|j: int|
            0 <= j < k - 1 && cp[j] != x && cp[j] != p implies h.grads[#[trigger] cp[j] as int] is None by {
            assert(s[j] == cp[j]);
            assert(cp[j] <= p);
        }
        assert forall|j: int|
            0 <= j < k - 1 implies h.data[#[trigger] cp[j] as int] == Some(pow(v as int, (j + 1) as nat) as i64) by {
            assert(s[j] == cp[j]);
        }
        assert((n - (k - 1)) as nat == (n - k + 1) as nat);
        lemma_product_chain_backprop(h, x, p, (k - 1) as nat, n, v);
    }
}

/// Multiplying `k` copies of a scalar leaf `x` (value `v`) that requires a
/// gradient, and running a backward pass from the product, gives `x` the
/// gradient `k * v^(k-1)`, where every power of `v` up to `k`, and that
/// gradient, fit the element type.
pub proof fn law_repeated_product_gradient(g: GraphView<i64>, x: usize, y: usize, k: nat)
    requires
        g.wf(),
        x < g.len(),
        g.nodes[x as int].op == OpKind::Leaf,
        g.nodes[x as int].requires_grad,
        g.data[x as int] is Some,
        op_chain(g.nodes, OpKind::Mul, x, y, k),
        forall|j: int| 0 <= j < k ==> g.grads[#[trigger] chain_seq(g.nodes, x, y, k)[j] as int] is None,
        forall|j: nat| j <= k ==> i64::MIN <= #[trigger] pow(g.data[x as int].unwrap() as int, j) <= i64::MAX,
        i64::MIN <= k * pow(g.data[x as int].unwrap() as int, (k - 1) as nat) <= i64::MAX,
    ensures
        match g.backward_spec(y) {
            Ok(gr) => gr[x as int] == Some((k * pow(g.data[x as int].unwrap() as int, (k - 1) as nat)) as i64),
            Err(_) => false,
        },
{
    let v = g.data[x as int].unwrap();
    let w = pow(v as int, (k - 1) as nat);
    let s = chain_seq(g.nodes, x, y, k);
    lemma_product_chain_value(g, x, y, k, v, k);
    lemma_chain_shape(g, OpKind::Mul, x, y, k);
    lemma_chain_visit(g, OpKind::Mul, x, y, k, Set::empty());
    assert(g.topo_order(y, false) == s);
    let sd = g.seeded(y);
    assert(sd.grads == g.grads.update(y as int, Some(1i64)));
    assert forall|j: int| 0 <= j < k implies sd.data[#[trigger] s[j] as int] == Some(
        pow(v as int, (j + 1) as nat) as i64,
    ) by {
        assert(g.reaches(y, s[j]));
        assert(op_chain(g.nodes, OpKind::Mul, x, s[j], (j + 1) as nat)) by {
            lemma_chain_prefix(g.nodes, OpKind::Mul, x, y, k, j);
        }
        lemma_product_chain_value(g, x, s[j], (j + 1) as nat, v, k);
    }
    assert(g.value(y) is Ok);
    assert(g.backward_spec(y) == sd.backprop(s));
    assert forall|m: int| 0 <= m <= k implies i64::MIN <= #[trigger] (m * w) <= i64::MAX by {
        assert(i64::MIN <= m * w <= i64::MAX) by (nonlinear_arith)
            requires
                0 <= m <= k,
                i64::MIN <= k * w <= i64::MAX,
        ;
    }
    if k == 1 {
        assert(s =~= seq![x]);
        assert(s.drop_last() =~= Seq::<usize>::empty());
        assert(sd.handler_spec(x) == Ok::<Seq<Option<i64>>, AutogradError>(sd.grads));
        assert(sd.with_grads(sd.grads) == sd);
        assert(sd.backprop(Seq::<usize>::empty()) == Ok::<Seq<Option<i64>>, AutogradError>(sd.grads));
        assert(sd.backprop(s) == Ok::<Seq<Option<i64>>, AutogradError>(sd.grads));
        assert(y == x);
        reveal(pow);
        assert(w == 1);
    } else {
        assert(g.nodes[y as int].op == OpKind::Mul);
        assert(x != y);
        assert(g.grads[x as int] is None);
        reveal(pow);
        assert(pow(v as int, 0) == 1);
        lemma_wf_same_nodes(g, sd);
        lemma_product_chain_backprop(sd, x, y, k, k, v);
    }
}

/// The `j`th node of a chain (from 0) is itself a chain of `j + 1` copies.
proof fn lemma_chain_prefix(nodes: Seq<NodeView>, op: OpKind, x: usize, y: usize, n: nat, j: int)
    requires
        op_chain(nodes, op, x, y, n),
        0 <= j < n,
    ensures
        op_chain(nodes, op, x, chain_seq(nodes, x, y, n)[j], (j + 1) as nat),
    decreases n,
{
    if j < n - 1 {
        let p = nodes[y as int].deps[0];
        lemma_chain_prefix(nodes, op, x, p, (n - 1) as nat, j);
        lemma_chain_last(nodes, op, x, p, (n - 1) as nat);
        assert(chain_seq(nodes, x, y, n)[j] == chain_seq(nodes, x, p, (n - 1) as nat)[j]);
    } else {
        lemma_chain_last(nodes, op, x, y, n);
    }
}

proof fn lemma_chain_last(nodes: Seq<NodeView>, op: OpKind, x: usize, y: usize, n: nat)
    requires
        op_chain(nodes, op, x, y, n),
    ensures
        chain_seq(nodes, x, y, n)[n - 1] == y,
        chain_seq(nodes, x, y, n).len() == n,
    decreases n,
{
    if n > 1 {
        lemma_chain_last(nodes, op, x, nodes[y as int].deps[0], (n - 1) as nat);
    }
}

} // verus!
