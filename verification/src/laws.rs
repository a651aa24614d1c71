//! General laws of the backward pass, stated over the graph model and
//! proved once for every graph they apply to.

use crate::rat::{
    frac_add, frac_eq, frac_from_int, frac_mul, frac_one, frac_pow, frac_wf, frac_zero,
    lemma_frac_add_comm, lemma_frac_add_zero_left, lemma_frac_mul_one_right, lemma_pos_mul_pos,
    Frac,
};
use crate::value::{
    add_grad, backprop_spec, fire, fire_if, graph_shape_wf, graph_wf, lemma_mark_monotone,
    lemma_run_to_frame, lemma_same_shape_reaches, lemma_same_shape_wf, mark_from, node_shape_wf,
    op_node2, pow_node, reaches, run_to, same_shape, seeded, with_grad, zeroed, NodeG, Operation,
};
use vstd::prelude::*;

verus! {

/// The root always reaches itself.
pub proof fn lemma_reaches_root(s: Seq<NodeG>, root: int)
    requires
        0 <= root,
    ensures
        reaches(s, root, root),
{
    assert(mark_from(s, root, root + 1).contains(root));
    lemma_mark_monotone(s, root, 0, root + 1, root);
}

/// When every index in `[i, k]` is unreachable or a leaf, the sweep over
/// them changes nothing.
proof fn lemma_run_noop_upto(s: Seq<NodeG>, root: int, i: int, k: int)
    requires
        graph_shape_wf(s),
        0 <= root < s.len(),
        0 <= i <= k + 1,
        k < root,
        forall|j: int|
            i <= j <= k ==> (!reaches(s, root, j) || (#[trigger] s[j]).operation is None),
    ensures
        run_to(s, root, i) == run_to(s, root, k + 1),
    decreases k + 1 - i,
{
    if i <= k {
        lemma_run_noop_upto(s, root, i + 1, k);
        let t = run_to(s, root, i + 1);
        lemma_run_to_frame(s, root, i + 1);
        lemma_same_shape_wf(s, t);
        lemma_same_shape_reaches(s, t, root, i);
        if reaches(t, root, i) {
            assert(s[i].operation is None);
            assert(t[i].operation == s[i].operation);
            assert(fire(t, i) == t);
        }
    }
}

/// When every predecessor of the root is a leaf, the root reaches exactly
/// itself and its predecessors.
proof fn lemma_marks_of_leaf_preds(s: Seq<NodeG>, root: int, i: int)
    requires
        graph_shape_wf(s),
        0 <= root < s.len(),
        0 <= i <= root,
        forall|k: int|
            0 <= k < s[root].previous.len() ==> (#[trigger] s[s[root].previous[k]]).operation
                is None,
    ensures
        mark_from(s, root, i) == set![root].union(s[root].previous.to_set()),
    decreases root - i,
{
    let r = set![root].union(s[root].previous.to_set());
    if i == root {
        assert(mark_from(s, root, root + 1) == set![root]);
        assert(mark_from(s, root, root + 1).contains(root));
        assert(mark_from(s, root, root) =~= r);
    } else {
        lemma_marks_of_leaf_preds(s, root, i + 1);
        let m = mark_from(s, root, i + 1);
        assert(m == r);
        if m.contains(i) {
            assert(i != root);
            assert(s[root].previous.to_set().contains(i));
            assert(s[root].previous.contains(i));
            let w = choose|w: int|
                0 <= w < s[root].previous.len() && s[root].previous[w] == i;
            assert(s[s[root].previous[w]].operation is None);
            assert(s[i].operation is None);
            assert(node_shape_wf(s, i));
            assert(s[i].previous.len() == 0);
            assert(s[i].previous.to_set() =~= Set::<int>::empty());
            assert(mark_from(s, root, i) =~= r);
        }
    }
}

/// Backward pass over a root whose predecessors are all leaves: only the
/// root itself fires.
proof fn lemma_bp_fires_root_alone(s2: Seq<NodeG>, root: int)
    requires
        graph_wf(s2),
        0 <= root < s2.len(),
        forall|k: int|
            0 <= k < s2[root].previous.len() ==> (#[trigger] s2[s2[root].previous[k]]).operation
                is None,
    ensures
        backprop_spec(s2, root) == fire(seeded(s2, root), root),
{
    let s0 = seeded(s2, root);
    assert(same_shape(s2, s0));
    lemma_same_shape_wf(s2, s0);
    if root == 0 {
        assert(run_to(s0, root, 1) == s0);
        lemma_same_shape_reaches(s2, s0, root, root);
        lemma_reaches_root(s2, root);
        assert(run_to(s0, root, 0) == fire_if(s0, root, 0));
        assert(backprop_spec(s2, root) == fire(s0, root));
    } else {
        assert forall|j: int|
            0 <= j <= root - 1 implies (!reaches(s0, root, j) || (#[trigger] s0[j]).operation
            is None) by {
            lemma_same_shape_reaches(s2, s0, root, j);
            if reaches(s2, root, j) {
                lemma_marks_of_leaf_preds(s2, root, 0);
                assert(set![root].union(s2[root].previous.to_set()).contains(j));
                if s2[root].previous.to_set().contains(j) {
                    assert(s2[root].previous.contains(j));
                    let w = choose|w: int|
                        0 <= w < s2[root].previous.len() && s2[root].previous[w] == j;
                    assert(s2[s2[root].previous[w]].operation is None);
                    assert(s0[j].operation == s2[j].operation);
                }
            }
        }
        lemma_run_noop_upto(s0, root, 0, root - 1);
        assert(run_to(s0, root, root + 1) == s0);
        assert(run_to(s0, root, root) == fire_if(s0, root, root));
        lemma_same_shape_reaches(s2, s0, root, root);
        lemma_reaches_root(s2, root);
        assert(backprop_spec(s2, root) == fire(s0, root));
    }
}

/// The additive rule: append a sum of two distinct leaves whose gradients
/// are zero and run the backward pass on it; each leaf's gradient becomes
/// exactly one, and the root keeps its seed of one.
pub proof fn law_additive_rule(s: Seq<NodeG>, a: int, b: int)
    requires
        graph_wf(s),
        0 <= a < s.len(),
        0 <= b < s.len(),
        a != b,
        s[a].operation is None,
        s[b].operation is None,
        s[a].gradient == frac_zero(),
        s[b].gradient == frac_zero(),
    ensures
        ({
            let s2 = s.push(op_node2(Operation::Add, frac_add(s[a].data, s[b].data), a, b));
            let bp = backprop_spec(s2, s.len() as int);
            bp[a].gradient == frac_one() && bp[b].gradient == frac_one() && bp[s.len() as int
            ].gradient == frac_one()
        }),
{
    let root = s.len() as int;
    let node = op_node2(Operation::Add, frac_add(s[a].data, s[b].data), a, b);
    let s2 = s.push(node);
    assert(graph_wf(s2)) by {
        assert(node_shape_wf(s, a));
        assert(node_shape_wf(s, b));
        lemma_pos_mul_pos(s[a].data.den, s[b].data.den);
        assert(node_shape_wf(s2, root));
        crate::value::lemma_push_wf(s, node);
    }
    lemma_bp_fires_root_alone(s2, root);
    let s0 = seeded(s2, root);
    let bp = fire(s0, root);
    assert(s0[root].gradient == frac_one());
    assert(s0[a] == s[a] && s0[b] == s[b]);
    assert(bp == add_grad(add_grad(s0, a, frac_one()), b, frac_one()));
    lemma_frac_add_zero_left(frac_one());
    assert(bp[a].gradient == frac_add(frac_zero(), frac_one()));
    assert(bp[a].gradient == frac_one());
    assert(bp[b].gradient == frac_add(frac_zero(), frac_one()));
    assert(bp[b].gradient == frac_one());
    assert(bp[root].gradient == frac_one());
}

/// The multiplicative rule: append a product of two distinct leaves whose
/// gradients are zero and run the backward pass on it; each leaf's gradient
/// becomes exactly the other leaf's data.
pub proof fn law_multiplicative_rule(s: Seq<NodeG>, a: int, b: int)
    requires
        graph_wf(s),
        0 <= a < s.len(),
        0 <= b < s.len(),
        a != b,
        s[a].operation is None,
        s[b].operation is None,
        s[a].gradient == frac_zero(),
        s[b].gradient == frac_zero(),
    ensures
        ({
            let s2 = s.push(
                op_node2(Operation::Multiply, frac_mul(s[a].data, s[b].data), a, b),
            );
            let bp = backprop_spec(s2, s.len() as int);
            bp[a].gradient == s[b].data && bp[b].gradient == s[a].data && bp[s.len() as int
            ].gradient == frac_one()
        }),
{
    let root = s.len() as int;
    let node = op_node2(Operation::Multiply, frac_mul(s[a].data, s[b].data), a, b);
    let s2 = s.push(node);
    assert(graph_wf(s2)) by {
        assert(node_shape_wf(s, a));
        assert(node_shape_wf(s, b));
        lemma_pos_mul_pos(s[a].data.den, s[b].data.den);
        assert(node_shape_wf(s2, root));
        crate::value::lemma_push_wf(s, node);
    }
    lemma_bp_fires_root_alone(s2, root);
    let s0 = seeded(s2, root);
    let bp = fire(s0, root);
    assert(s0[root].gradient == frac_one());
    assert(s0[a] == s[a] && s0[b] == s[b]);
    lemma_frac_mul_one_right(s[b].data);
    lemma_frac_mul_one_right(s[a].data);
    assert(bp == add_grad(add_grad(s0, a, s[b].data), b, s[a].data));
    lemma_frac_add_zero_left(s[b].data);
    lemma_frac_add_zero_left(s[a].data);
    assert(bp[a].gradient == s[b].data);
    assert(bp[b].gradient == s[a].data);
    assert(bp[root].gradient == frac_one());
}

/// The power rule: append a power node over a leaf with zero gradient and
/// run the backward pass on it; the leaf's gradient becomes exactly
/// `e * data^(e-1)`.
pub proof fn law_power_rule(s: Seq<NodeG>, a: int, e: u64)
    requires
        graph_wf(s),
        0 <= a < s.len(),
        s[a].operation is None,
        s[a].gradient == frac_zero(),
        1 <= e <= 0x7fff_ffff_ffff_ffff,
    ensures
        ({
            let s2 = s.push(pow_node(e, frac_pow(s[a].data, e as nat), a));
            let bp = backprop_spec(s2, s.len() as int);
            bp[a].gradient == frac_mul(frac_from_int(e as int), frac_pow(s[a].data, (e - 1) as nat))
                && bp[s.len() as int].gradient == frac_one()
        }),
{
    let root = s.len() as int;
    let node = pow_node(e, frac_pow(s[a].data, e as nat), a);
    let s2 = s.push(node);
    assert(graph_wf(s2)) by {
        assert(node_shape_wf(s, a));
        lemma_frac_pow_wf(s[a].data, e as nat);
        assert(node_shape_wf(s2, root));
        crate::value::lemma_push_wf(s, node);
    }
    lemma_bp_fires_root_alone(s2, root);
    let s0 = seeded(s2, root);
    let bp = fire(s0, root);
    assert(s0[root].gradient == frac_one());
    assert(s0[a] == s[a]);
    let c = frac_mul(frac_from_int(e as int), frac_pow(s[a].data, (e - 1) as nat));
    lemma_frac_mul_one_right(c);
    assert(bp == add_grad(s0, a, c));
    lemma_frac_add_zero_left(c);
    assert(bp[a].gradient == c);
    assert(bp[root].gradient == frac_one());
}

/// A power of a well-formed fraction is well formed.
proof fn lemma_frac_pow_wf(x: Frac, e: nat)
    requires
        frac_wf(x),
    ensures
        frac_wf(frac_pow(x, e)),
    decreases e,
{
    if e != 0 {
        lemma_frac_pow_wf(x, (e - 1) as nat);
        lemma_pos_mul_pos(frac_pow(x, (e - 1) as nat).den, x.den);
    }
}

/// Once every marked node below `m` is a leaf, the marking pass adds
/// nothing while processing indices below `m`.
proof fn lemma_marks_stall_below_leaves(s: Seq<NodeG>, root: int, m: int, i: int)
    requires
        graph_shape_wf(s),
        0 <= root < s.len(),
        0 <= i <= m <= root,
        forall|j: int|
            mark_from(s, root, m).contains(j) && 0 <= j < m ==> (#[trigger] s[j]).operation
                is None,
    ensures
        mark_from(s, root, i) == mark_from(s, root, m),
    decreases m - i,
{
    if i < m {
        lemma_marks_stall_below_leaves(s, root, m, i + 1);
        let mm = mark_from(s, root, i + 1);
        if mm.contains(i) {
            crate::value::lemma_mark_range(s, root, i + 1, i);
            assert(s[i].operation is None);
            assert(node_shape_wf(s, i));
            assert(s[i].previous.len() == 0);
            assert(s[i].previous.to_set() =~= Set::<int>::empty());
            assert(mark_from(s, root, i) =~= mm);
        }
    }
}

/// Shared-subexpression correctness on the diamond graph: append
/// `d = a + b`, `e = a + c` and `f = d * e` over three distinct leaves with
/// zero gradients, then run the backward pass on `f`. The shared leaf `a`
/// collects the contributions of both paths — `e`'s data through the `d`
/// branch plus `d`'s data through the `e` branch — while `b` and `c` each
/// collect one branch's contribution.
pub proof fn law_diamond_shared_subexpression(s: Seq<NodeG>, a: int, b: int, c: int)
    requires
        graph_wf(s),
        0 <= a < s.len(),
        0 <= b < s.len(),
        0 <= c < s.len(),
        a != b,
        a != c,
        b != c,
        s[a].operation is None,
        s[b].operation is None,
        s[c].operation is None,
        s[a].gradient == frac_zero(),
        s[b].gradient == frac_zero(),
        s[c].gradient == frac_zero(),
    ensures
        ({
            let n = s.len() as int;
            let d_data = frac_add(s[a].data, s[b].data);
            let e_data = frac_add(s[a].data, s[c].data);
            let s2 = s.push(op_node2(Operation::Add, d_data, a, b)).push(
                op_node2(Operation::Add, e_data, a, c),
            ).push(op_node2(Operation::Multiply, frac_mul(d_data, e_data), n, n + 1));
            let bp = backprop_spec(s2, n + 2);
            &&& bp[a].gradient == frac_add(d_data, e_data)
            &&& frac_eq(bp[a].gradient, frac_add(e_data, d_data))
            &&& bp[b].gradient == e_data
            &&& bp[c].gradient == d_data
            &&& bp[n + 2].gradient == frac_one()
        }),
{
    let n = s.len() as int;
    let root = n + 2;
    let d_data = frac_add(s[a].data, s[b].data);
    let e_data = frac_add(s[a].data, s[c].data);
    let nd = op_node2(Operation::Add, d_data, a, b);
    let ne = op_node2(Operation::Add, e_data, a, c);
    let nf = op_node2(Operation::Multiply, frac_mul(d_data, e_data), n, n + 1);
    let s2 = s.push(nd).push(ne).push(nf);
    assert(s2[a] == s[a] && s2[b] == s[b] && s2[c] == s[c]);
    assert(s2[n] == nd && s2[n + 1] == ne && s2[root] == nf);
    assert(graph_wf(s2)) by {
        assert(node_shape_wf(s, a));
        assert(node_shape_wf(s, b));
        assert(node_shape_wf(s, c));
        lemma_pos_mul_pos(s[a].data.den, s[b].data.den);
        lemma_pos_mul_pos(s[a].data.den, s[c].data.den);
        lemma_pos_mul_pos(d_data.den, e_data.den);
        assert(node_shape_wf(s.push(nd), n));
        crate::value::lemma_push_wf(s, nd);
        assert(node_shape_wf(s.push(nd).push(ne), n + 1));
        crate::value::lemma_push_wf(s.push(nd), ne);
        assert(node_shape_wf(s2, root));
        crate::value::lemma_push_wf(s.push(nd).push(ne), nf);
    }
    // the reachable set is {root, e, d, a, b, c}
    assert(mark_from(s2, root, root + 1) == set![root]);
    let m_f = mark_from(s2, root, root);
    assert(m_f == set![root].union(nf.previous.to_set()));
    let m_e = mark_from(s2, root, n + 1);
    assert(m_f.contains(n + 1)) by {
        assert(nf.previous[1] == n + 1);
        assert(nf.previous.contains(n + 1));
    }
    assert(m_e == m_f.union(ne.previous.to_set()));
    let m_d = mark_from(s2, root, n);
    assert(m_e.contains(n)) by {
        assert(nf.previous[0] == n);
        assert(nf.previous.contains(n));
    }
    assert(m_d == m_e.union(nd.previous.to_set()));
    assert forall|j: int| m_d.contains(j) implies (j == root || j == n || j == n + 1 || j == a
        || j == b || j == c) by {
        if nf.previous.contains(j) {
            let w = choose|w: int| 0 <= w < nf.previous.len() && nf.previous[w] == j;
            assert(w == 0 || w == 1);
        } else if ne.previous.contains(j) {
            let w = choose|w: int| 0 <= w < ne.previous.len() && ne.previous[w] == j;
            assert(w == 0 || w == 1);
        } else if nd.previous.contains(j) {
            let w = choose|w: int| 0 <= w < nd.previous.len() && nd.previous[w] == j;
            assert(w == 0 || w == 1);
        }
    }
    assert(m_d.contains(a)) by {
        assert(nd.previous[0] == a);
        assert(nd.previous.contains(a));
    }
    assert(m_d.contains(b)) by {
        assert(nd.previous[1] == b);
        assert(nd.previous.contains(b));
    }
    assert(m_d.contains(c)) by {
        assert(ne.previous[1] == c);
        assert(ne.previous.contains(c));
    }
    lemma_marks_stall_below_leaves(s2, root, n, 0);
    assert(mark_from(s2, root, 0) == m_d);
    // seed, then the three fires in reverse topological order
    let s0 = seeded(s2, root);
    assert(same_shape(s2, s0));
    lemma_same_shape_wf(s2, s0);
    assert(s0[root].gradient == frac_one());
    assert(s0[a] == s2[a] && s0[b] == s2[b] && s0[c] == s2[c]);
    assert(s0[n].gradient == frac_zero() && s0[n + 1].gradient == frac_zero());
    assert(run_to(s0, root, root + 1) == s0);
    lemma_same_shape_reaches(s2, s0, root, root);
    lemma_reaches_root(s2, root);
    let u_f = fire(s0, root);
    lemma_frac_mul_one_right(e_data);
    lemma_frac_mul_one_right(d_data);
    assert(u_f == add_grad(add_grad(s0, n, e_data), n + 1, d_data));
    assert(run_to(s0, root, root) == u_f);
    crate::value::lemma_fire_frame(s0, root);
    lemma_same_shape_wf(s0, u_f);
    lemma_same_shape_reaches(s2, s0, root, n + 1);
    lemma_same_shape_reaches(s0, u_f, root, n + 1);
    assert(reaches(u_f, root, n + 1)) by {
        lemma_mark_monotone(s2, root, 0, n + 1, n + 1);
    }
    lemma_frac_add_zero_left(d_data);
    lemma_frac_add_zero_left(e_data);
    assert(u_f[n + 1].gradient == d_data);
    assert(u_f[n + 1].previous == ne.previous);
    assert(u_f[n + 1].operation == ne.operation);
    let u_e = fire(u_f, n + 1);
    assert(u_e == add_grad(add_grad(u_f, a, d_data), c, d_data));
    assert(run_to(s0, root, n + 1) == u_e);
    crate::value::lemma_fire_frame(u_f, n + 1);
    lemma_same_shape_wf(u_f, u_e);
    lemma_same_shape_reaches(s2, s0, root, n);
    lemma_same_shape_reaches(s0, u_f, root, n);
    lemma_same_shape_reaches(u_f, u_e, root, n);
    assert(reaches(u_e, root, n)) by {
        lemma_mark_monotone(s2, root, 0, n, n);
    }
    assert(u_e[n].gradient == e_data) by {
        assert(u_f[n].gradient == frac_add(frac_zero(), e_data));
    }
    assert(u_e[n].previous == nd.previous);
    assert(u_e[n].operation == nd.operation);
    let u_d = fire(u_e, n);
    assert(u_e[a].gradient == d_data) by {
        assert(u_f[a].gradient == frac_zero());
    }
    assert(u_e[b].gradient == frac_zero());
    assert(u_d == add_grad(add_grad(u_e, a, e_data), b, e_data));
    assert(run_to(s0, root, n) == u_d);
    // below the three appended nodes, every reachable node is a leaf
    assert forall|j: int|
        0 <= j <= n - 1 implies (!reaches(s0, root, j) || (#[trigger] s0[j]).operation
        is None) by {
        lemma_same_shape_reaches(s2, s0, root, j);
        if reaches(s2, root, j) {
            assert(j == a || j == b || j == c);
        }
    }
    lemma_run_noop_upto(s0, root, 0, n - 1);
    let bp = backprop_spec(s2, root);
    assert(bp == u_d);
    assert(bp[a].gradient == frac_add(d_data, e_data));
    lemma_frac_add_comm(d_data, e_data);
    assert(bp[b].gradient == frac_add(frac_zero(), e_data));
    assert(bp[b].gradient == e_data);
    assert(bp[c].gradient == d_data);
    assert(bp[root].gradient == frac_one());
}

/// Accumulate-only semantics: a second backward pass over the same sum of
/// two distinct leaves, without resetting gradients, doubles each leaf's
/// gradient, while the root's gradient is force-set to one each time.
pub proof fn law_backprop_accumulates(s: Seq<NodeG>, a: int, b: int)
    requires
        graph_wf(s),
        0 <= a < s.len(),
        0 <= b < s.len(),
        a != b,
        s[a].operation is None,
        s[b].operation is None,
        s[a].gradient == frac_zero(),
        s[b].gradient == frac_zero(),
    ensures
        ({
            let s2 = s.push(op_node2(Operation::Add, frac_add(s[a].data, s[b].data), a, b));
            let bp1 = backprop_spec(s2, s.len() as int);
            let bp2 = backprop_spec(bp1, s.len() as int);
            bp2[a].gradient == frac_from_int(2) && bp2[b].gradient == frac_from_int(2) && bp2[
                s.len() as int
            ].gradient == frac_one()
        }),
{
    let root = s.len() as int;
    let node = op_node2(Operation::Add, frac_add(s[a].data, s[b].data), a, b);
    let s2 = s.push(node);
    assert(graph_wf(s2)) by {
        assert(node_shape_wf(s, a));
        assert(node_shape_wf(s, b));
        lemma_pos_mul_pos(s[a].data.den, s[b].data.den);
        assert(node_shape_wf(s2, root));
        crate::value::lemma_push_wf(s, node);
    }
    lemma_bp_fires_root_alone(s2, root);
    let s0 = seeded(s2, root);
    let bp1 = fire(s0, root);
    assert(bp1 == add_grad(add_grad(s0, a, frac_one()), b, frac_one()));
    lemma_frac_add_zero_left(frac_one());
    assert(bp1[a].gradient == frac_one());
    assert(bp1[b].gradient == frac_one());
    assert(bp1[root].gradient == frac_one());
    assert(same_shape(s2, s0));
    lemma_same_shape_wf(s2, s0);
    assert(node_shape_wf(s0, root));
    crate::value::lemma_fire_frame(s0, root);
    assert(graph_wf(bp1)) by {
        lemma_same_shape_wf(s0, bp1);
        assert forall|j: int| 0 <= j < bp1.len() implies frac_wf(#[trigger] bp1[j].gradient) by {
            if j != a && j != b {
                assert(bp1[j] == s0[j]);
                if j != root {
                    assert(s0[j] == s2[j]);
                }
            }
        }
    }
    assert(bp1[a].operation is None && bp1[b].operation is None);
    assert(bp1[root].previous == node.previous);
    lemma_bp_fires_root_alone(bp1, root);
    let s1 = seeded(bp1, root);
    let bp2 = fire(s1, root);
    assert(s1[root].gradient == frac_one());
    assert(s1[a] == bp1[a] && s1[b] == bp1[b]);
    assert(s1[root].previous == node.previous && s1[root].operation == node.operation);
    assert(bp2 == add_grad(add_grad(s1, a, frac_one()), b, frac_one()));
    assert(bp2[a].gradient == frac_add(frac_one(), frac_one()));
    assert(bp2[a].gradient == frac_from_int(2));
    assert(bp2[b].gradient == frac_add(frac_one(), frac_one()));
    assert(bp2[b].gradient == frac_from_int(2));
    assert(bp2[root].gradient == frac_one());
}

/// Zeroing the gradients of the root's reachable set after a backward pass
/// restores the graph exactly as it stood before the pass (provided those
/// gradients started at zero), so a fresh pass reproduces the single-pass
/// result.
pub proof fn law_zero_grad_restores(s: Seq<NodeG>, root: int)
    requires
        graph_wf(s),
        0 <= root < s.len(),
        forall|j: int|
            0 <= j < s.len() && reaches(s, root, j) ==> (#[trigger] s[j]).gradient
                == frac_zero(),
    ensures
        zeroed(backprop_spec(s, root), root) == s,
        backprop_spec(zeroed(backprop_spec(s, root), root), root) == backprop_spec(s, root),
{
    let s0 = seeded(s, root);
    let b1 = backprop_spec(s, root);
    assert(same_shape(s, s0));
    lemma_same_shape_wf(s, s0);
    lemma_run_to_frame(s0, root, 0);
    assert(same_shape(s, b1)) by {
        assert forall|m: int|
            0 <= m < s.len() implies ((#[trigger] b1[m]).data == s[m].data && b1[m].label
            == s[m].label && b1[m].operation == s[m].operation && b1[m].previous
            == s[m].previous) by {
            assert(b1[m].data == s0[m].data && b1[m].label == s0[m].label && b1[m].operation
                == s0[m].operation && b1[m].previous == s0[m].previous);
            if m != root {
                assert(s0[m] == s[m]);
            }
        }
    }
    lemma_reaches_root(s, root);
    assert(zeroed(b1, root) =~~= s) by {
        assert forall|j: int| 0 <= j < s.len() implies zeroed(b1, root)[j] =~~= s[j] by {
            lemma_same_shape_reaches(s, b1, root, j);
            if reaches(b1, root, j) {
                assert(zeroed(b1, root)[j] == with_grad(b1[j], frac_zero()));
                assert(s[j].gradient == frac_zero());
            } else {
                assert(zeroed(b1, root)[j] == b1[j]);
                lemma_same_shape_reaches(s, s0, root, j);
                assert(!reaches(s0, root, j));
                assert(b1[j] == s0[j]);
                assert(j != root);
                assert(s0[j] == s[j]);
            }
        }
    }
    assert(zeroed(b1, root) == s);
}

} // verus!
