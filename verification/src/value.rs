//! The scalar value graph and its backward pass.
//!
//! Nodes live in a [`Graph`] arena and are addressed by stable indices; a
//! [`Value`] is the copyable handle applications hold. Operations only ever
//! append nodes whose predecessors already exist, so every predecessor index
//! is smaller than the index of its successor and the graph is acyclic by
//! construction. Two handles are equal exactly when they carry the same
//! index, which is the identity equality the backward pass relies on.
//!
//! The backward pass fires each reachable node's derivative rule in
//! decreasing index order. Since predecessors have smaller indices than
//! their successors, that is a reverse topological order: a node's rule runs
//! only after every successor has contributed to its gradient, which keeps
//! shared subexpressions correct.

use crate::rat::{
    frac_add, frac_from_int, frac_in_i64, frac_is_count, frac_mul, frac_neg, frac_one, frac_pow,
    frac_sub, frac_wf, frac_zero, Frac, Rat,
};
use vstd::prelude::*;

verus! {

/// The operation that produced a node. The power operation carries its
/// exponent as a plain non-negative whole number, not as a graph
/// predecessor: no gradient flows to the exponent.
#[derive(Clone, Copy, Debug)]
pub enum Operation {
    Add,
    Multiply,
    Power(u64),
}

/// Mathematical model of one graph node.
#[verifier::ext_equal]
pub struct NodeG {
    pub data: Frac,
    pub gradient: Frac,
    pub label: Option<Seq<char>>,
    pub operation: Option<Operation>,
    pub previous: Seq<int>,
}

struct Node {
    data: Rat,
    gradient: Rat,
    label: Option<String>,
    operation: Option<Operation>,
    previous: Vec<usize>,
}

spec fn node_view(n: Node) -> NodeG {
    NodeG {
        data: n.data@,
        gradient: n.gradient@,
        label: match n.label {
            Option::Some(l) => Option::Some(l@),
            Option::None => Option::None,
        },
        operation: n.operation,
        previous: n.previous@.map_values(|p: usize| p as int),
    }
}

/// The arena that owns every node of one computation graph.
pub struct Graph {
    nodes: Vec<Node>,
}

impl View for Graph {
    type V = Seq<NodeG>;

    closed spec fn view(&self) -> Seq<NodeG> {
        self.nodes@.map_values(|n: Node| node_view(n))
    }
}

/// Structural well-formedness of node `i`: its data is a well-formed
/// fraction, every predecessor index lies strictly below `i`, and the
/// predecessor count fits the operation (none for a leaf, two for a sum or a
/// product, one for a power, whose exponent also fits an `i64`).
pub open spec fn node_shape_wf(s: Seq<NodeG>, i: int) -> bool {
    &&& frac_wf(s[i].data)
    &&& (forall|k: int|
        0 <= k < s[i].previous.len() ==> 0 <= #[trigger] s[i].previous[k] < i)
    &&& match s[i].operation {
        Option::None => s[i].previous.len() == 0,
        Option::Some(Operation::Add) => s[i].previous.len() == 2,
        Option::Some(Operation::Multiply) => s[i].previous.len() == 2,
        Option::Some(Operation::Power(e)) => s[i].previous.len() == 1 && e
            <= 0x7fff_ffff_ffff_ffff,
    }
}

pub open spec fn graph_shape_wf(s: Seq<NodeG>) -> bool {
    forall|i: int| 0 <= i < s.len() ==> #[trigger] node_shape_wf(s, i)
}

pub open spec fn grads_wf(s: Seq<NodeG>) -> bool {
    forall|i: int| 0 <= i < s.len() ==> frac_wf(#[trigger] s[i].gradient)
}

pub open spec fn graph_wf(s: Seq<NodeG>) -> bool {
    graph_shape_wf(s) && grads_wf(s)
}

/// A fresh leaf node holding `d`.
pub open spec fn leaf_node(d: Frac) -> NodeG {
    NodeG {
        data: d,
        gradient: frac_zero(),
        label: Option::None,
        operation: Option::None,
        previous: seq![],
    }
}

/// A fresh two-operand node.
pub open spec fn op_node2(op: Operation, d: Frac, a: int, b: int) -> NodeG {
    NodeG {
        data: d,
        gradient: frac_zero(),
        label: Option::None,
        operation: Option::Some(op),
        previous: seq![a, b],
    }
}

/// A fresh power node over base `a` with exponent `e`.
pub open spec fn pow_node(e: u64, d: Frac, a: int) -> NodeG {
    NodeG {
        data: d,
        gradient: frac_zero(),
        label: Option::None,
        operation: Option::Some(Operation::Power(e)),
        previous: seq![a],
    }
}

/// Appending a node whose own shape is well formed keeps the whole graph
/// well formed.
pub proof fn lemma_push_wf(s: Seq<NodeG>, n: NodeG)
    requires
        graph_wf(s),
        node_shape_wf(s.push(n), s.len() as int),
        frac_wf(n.gradient),
    ensures
        graph_wf(s.push(n)),
{
    let s2 = s.push(n);
    assert forall|i: int| 0 <= i < s2.len() implies node_shape_wf(s2, i) by {
        if i < s.len() {
            assert(node_shape_wf(s, i));
            assert(s2[i] == s[i]);
        }
    }
    assert forall|i: int| 0 <= i < s2.len() implies frac_wf(#[trigger] s2[i].gradient) by {
        if i < s.len() {
            assert(frac_wf(s[i].gradient));
        }
    }
}

impl Graph {
    pub fn new() -> (g: Graph)
        ensures
            g@ == Seq::<NodeG>::empty(),
            graph_wf(g@),
    {
        let g = Graph { nodes: Vec::new() };
        proof {
            assert(g@ =~= Seq::<NodeG>::empty());
        }
        g
    }

    pub fn len(&self) -> (n: usize)
        ensures
            n == self@.len(),
    {
        self.nodes.len()
    }
}

/// The set of nodes known to feed the root after the marking pass has
/// processed indices `root` down to `i`: the pass starts from the root alone
/// and, at each already-marked node, marks its predecessors. Since
/// predecessors lie strictly below their successors, one descending pass
/// marks exactly the nodes the root transitively depends on.
pub open spec fn mark_from(s: Seq<NodeG>, root: int, i: int) -> Set<int>
    decreases root - i + 1,
{
    if i > root {
        set![root]
    } else {
        let m = mark_from(s, root, i + 1);
        if m.contains(i) {
            m.union(s[i].previous.to_set())
        } else {
            m
        }
    }
}

/// Whether node `j` is the root itself or feeds, directly or through other
/// nodes, into the node at index `root`.
pub open spec fn reaches(s: Seq<NodeG>, root: int, j: int) -> bool {
    mark_from(s, root, 0).contains(j)
}

/// Processing more indices only ever adds marks.
pub proof fn lemma_mark_monotone(s: Seq<NodeG>, root: int, i: int, i2: int, j: int)
    requires
        i <= i2,
        mark_from(s, root, i2).contains(j),
    ensures
        mark_from(s, root, i).contains(j),
    decreases i2 - i,
{
    if i < i2 {
        lemma_mark_monotone(s, root, i + 1, i2, j);
    }
}

/// Under a well-shaped graph, marks stay within `[0, root]`.
pub proof fn lemma_mark_range(s: Seq<NodeG>, root: int, i: int, j: int)
    requires
        graph_shape_wf(s),
        0 <= root < s.len(),
        0 <= i,
        mark_from(s, root, i).contains(j),
    ensures
        0 <= j <= root,
    decreases root - i + 1,
{
    if i <= root {
        let m = mark_from(s, root, i + 1);
        if m.contains(i) && s[i].previous.to_set().contains(j) && !m.contains(j) {
            assert(s[i].previous.contains(j));
            assert(node_shape_wf(s, i));
            let w = choose|w: int| 0 <= w < s[i].previous.len() && s[i].previous[w] == j;
            assert(0 <= j < i);
        } else {
            lemma_mark_range(s, root, i + 1, j);
        }
    }
}

/// Processing indices at or below `j` never changes whether `j` is marked.
pub proof fn lemma_mark_stable(s: Seq<NodeG>, root: int, i: int, j: int)
    requires
        graph_shape_wf(s),
        0 <= root < s.len(),
        0 <= i <= j + 1,
    ensures
        mark_from(s, root, i).contains(j) == mark_from(s, root, j + 1).contains(j),
    decreases j + 1 - i,
{
    if i <= j {
        lemma_mark_stable(s, root, i + 1, j);
        if i <= root {
            let m = mark_from(s, root, i + 1);
            if m.contains(i) && s[i].previous.to_set().contains(j) {
                assert(s[i].previous.contains(j));
                assert(node_shape_wf(s, i));
                let w = choose|w: int| 0 <= w < s[i].previous.len() && s[i].previous[w] == j;
                assert(j < i);
                assert(false);
            }
        }
    }
}

/// A predecessor of a node the root reaches is itself reached by the root.
pub proof fn lemma_reaches_step(s: Seq<NodeG>, root: int, k: int, j: int)
    requires
        graph_shape_wf(s),
        0 <= root < s.len(),
        reaches(s, root, k),
        s[k].previous.contains(j),
        0 <= k <= root,
    ensures
        reaches(s, root, j),
{
    lemma_mark_stable(s, root, 0, k);
    assert(mark_from(s, root, k + 1).contains(k));
    assert(mark_from(s, root, k).contains(j)) by {
        assert(s[k].previous.to_set().contains(j));
    }
    lemma_mark_monotone(s, root, 0, k, j);
}

/// The node with its gradient replaced.
pub open spec fn with_grad(n: NodeG, g: Frac) -> NodeG {
    NodeG { gradient: g, ..n }
}

/// Adds `delta` onto the gradient of node `j`.
pub open spec fn add_grad(s: Seq<NodeG>, j: int, delta: Frac) -> Seq<NodeG> {
    s.update(j, with_grad(s[j], frac_add(s[j].gradient, delta)))
}

/// One node's derivative rule: pushes this node's own (already final)
/// gradient into its predecessors.
///
/// - a sum adds the gradient to both operands;
/// - a product adds the other operand's data times the gradient to each
///   operand, the first operand first;
/// - a power with exponent `e >= 1` adds `e * base_data^(e-1) * gradient`
///   to its base (a zeroth power is constant, so nothing flows);
/// - a leaf has nothing behind it.
pub open spec fn fire(s: Seq<NodeG>, i: int) -> Seq<NodeG> {
    match s[i].operation {
        Option::None => s,
        Option::Some(Operation::Add) => {
            let g = s[i].gradient;
            add_grad(add_grad(s, s[i].previous[0], g), s[i].previous[1], g)
        },
        Option::Some(Operation::Multiply) => {
            let g = s[i].gradient;
            let d0 = s[s[i].previous[0]].data;
            let d1 = s[s[i].previous[1]].data;
            add_grad(add_grad(s, s[i].previous[0], frac_mul(d1, g)), s[i].previous[1], frac_mul(d0, g))
        },
        Option::Some(Operation::Power(e)) => {
            if e == 0 {
                s
            } else {
                let g = s[i].gradient;
                let d0 = s[s[i].previous[0]].data;
                add_grad(
                    s,
                    s[i].previous[0],
                    frac_mul(frac_mul(frac_from_int(e as int), frac_pow(d0, (e - 1) as nat)), g),
                )
            }
        },
    }
}

/// Fires node `i` when it is reachable from the root, else changes nothing.
pub open spec fn fire_if(s: Seq<NodeG>, root: int, i: int) -> Seq<NodeG> {
    if reaches(s, root, i) {
        fire(s, i)
    } else {
        s
    }
}

/// The state after firing the reachable nodes at indices `root` down to `i`,
/// in that (reverse topological) order.
pub open spec fn run_to(s: Seq<NodeG>, root: int, i: int) -> Seq<NodeG>
    decreases root - i + 1,
{
    if i > root || i < 0 {
        s
    } else {
        fire_if(run_to(s, root, i + 1), root, i)
    }
}

/// The graph with the root's gradient force-set to one: the identity seed of
/// the backward pass.
pub open spec fn seeded(s: Seq<NodeG>, root: int) -> Seq<NodeG> {
    s.update(root, with_grad(s[root], frac_one()))
}

/// The whole backward pass as a mathematical function: seed, then fire every
/// reachable node in reverse topological order.
pub open spec fn backprop_spec(s: Seq<NodeG>, root: int) -> Seq<NodeG> {
    run_to(seeded(s, root), root, 0)
}

/// One gradient increment stays within `i64` fractions.
pub open spec fn delta_ok(s: Seq<NodeG>, j: int, delta: Frac) -> bool {
    frac_in_i64(delta) && frac_in_i64(frac_add(s[j].gradient, delta))
}

/// Every fraction that firing node `i` computes fits in `i64` components.
pub open spec fn fire_ok(s: Seq<NodeG>, i: int) -> bool {
    match s[i].operation {
        Option::None => true,
        Option::Some(Operation::Add) => {
            let g = s[i].gradient;
            delta_ok(s, s[i].previous[0], g) && delta_ok(
                add_grad(s, s[i].previous[0], g),
                s[i].previous[1],
                g,
            )
        },
        Option::Some(Operation::Multiply) => {
            let g = s[i].gradient;
            let d0 = s[s[i].previous[0]].data;
            let d1 = s[s[i].previous[1]].data;
            delta_ok(s, s[i].previous[0], frac_mul(d1, g)) && delta_ok(
                add_grad(s, s[i].previous[0], frac_mul(d1, g)),
                s[i].previous[1],
                frac_mul(d0, g),
            )
        },
        Option::Some(Operation::Power(e)) => e == 0 || {
            let g = s[i].gradient;
            let d0 = s[s[i].previous[0]].data;
            let c = frac_mul(frac_from_int(e as int), frac_pow(d0, (e - 1) as nat));
            &&& forall|k: nat| k <= e - 1 ==> frac_in_i64(#[trigger] frac_pow(d0, k))
            &&& frac_in_i64(c)
            &&& delta_ok(s, s[i].previous[0], frac_mul(c, g))
        },
    }
}

/// The whole backward pass from `s` stays within `i64` fractions: every
/// reachable node's rule, fired on the state it actually sees, does.
pub open spec fn run_ok(s: Seq<NodeG>, root: int, i: int) -> bool
    decreases root - i + 1,
{
    i > root || i < 0 || {
        &&& run_ok(s, root, i + 1)
        &&& (reaches(run_to(s, root, i + 1), root, i) ==> fire_ok(run_to(s, root, i + 1), i))
    }
}

pub open spec fn backprop_ok(s: Seq<NodeG>, root: int) -> bool {
    run_ok(seeded(s, root), root, 0)
}

/// Both graphs agree on everything except gradients.
pub open spec fn same_shape(s1: Seq<NodeG>, s2: Seq<NodeG>) -> bool {
    &&& s1.len() == s2.len()
    &&& forall|i: int|
        0 <= i < s1.len() ==> ((#[trigger] s2[i]).data == s1[i].data && s2[i].label == s1[i].label
            && s2[i].operation == s1[i].operation && s2[i].previous == s1[i].previous)
}

/// Marking reads only predecessor lists, so graphs of the same shape agree
/// on it, and hence on reachability.
pub proof fn lemma_same_shape_marks(s1: Seq<NodeG>, s2: Seq<NodeG>, root: int, i: int)
    requires
        same_shape(s1, s2),
        root < s1.len(),
        0 <= i,
    ensures
        mark_from(s1, root, i) == mark_from(s2, root, i),
    decreases root - i + 1,
{
    if i <= root {
        lemma_same_shape_marks(s1, s2, root, i + 1);
        assert(0 <= i < s1.len());
        assert(s2[i].previous == s1[i].previous);
    }
}

pub proof fn lemma_same_shape_reaches(s1: Seq<NodeG>, s2: Seq<NodeG>, root: int, j: int)
    requires
        same_shape(s1, s2),
        root < s1.len(),
    ensures
        reaches(s1, root, j) == reaches(s2, root, j),
{
    lemma_same_shape_marks(s1, s2, root, 0);
}

pub proof fn lemma_same_shape_wf(s1: Seq<NodeG>, s2: Seq<NodeG>)
    requires
        same_shape(s1, s2),
        graph_shape_wf(s1),
    ensures
        graph_shape_wf(s2),
{
    assert forall|i: int| 0 <= i < s2.len() implies node_shape_wf(s2, i) by {
        assert(node_shape_wf(s1, i));
    }
}

proof fn lemma_add_grad_frame(s: Seq<NodeG>, j: int, delta: Frac)
    requires
        0 <= j < s.len(),
    ensures
        same_shape(s, add_grad(s, j, delta)),
        forall|m: int| 0 <= m < s.len() && m != j ==> (#[trigger] add_grad(s, j, delta)[m])
            == s[m],
        add_grad(s, j, delta)[j].gradient == frac_add(s[j].gradient, delta),
        add_grad(s, j, delta).len() == s.len(),
{
}

/// Firing node `i` preserves the shape and touches only the gradients of
/// `i`'s predecessors, all of which lie strictly below `i`.
pub proof fn lemma_fire_frame(s: Seq<NodeG>, i: int)
    requires
        0 <= i < s.len(),
        node_shape_wf(s, i),
    ensures
        same_shape(s, fire(s, i)),
        fire(s, i).len() == s.len(),
        forall|m: int|
            0 <= m < s.len() && !s[i].previous.contains(m) ==> (#[trigger] fire(s, i)[m])
                == s[m],
{
    match s[i].operation {
        Option::None => {},
        Option::Some(Operation::Add) => {
            let g = s[i].gradient;
            let p0 = s[i].previous[0];
            let p1 = s[i].previous[1];
            lemma_add_grad_frame(s, p0, g);
            lemma_add_grad_frame(add_grad(s, p0, g), p1, g);
            assert(s[i].previous.contains(p0)) by {
                assert(s[i].previous[0] == p0);
            }
            assert(s[i].previous.contains(p1)) by {
                assert(s[i].previous[1] == p1);
            }
        },
        Option::Some(Operation::Multiply) => {
            let g = s[i].gradient;
            let p0 = s[i].previous[0];
            let p1 = s[i].previous[1];
            let d1 = s[s[i].previous[1]].data;
            let d0 = s[s[i].previous[0]].data;
            lemma_add_grad_frame(s, p0, frac_mul(d1, g));
            lemma_add_grad_frame(add_grad(s, p0, frac_mul(d1, g)), p1, frac_mul(d0, g));
            assert(s[i].previous.contains(p0)) by {
                assert(s[i].previous[0] == p0);
            }
            assert(s[i].previous.contains(p1)) by {
                assert(s[i].previous[1] == p1);
            }
        },
        Option::Some(Operation::Power(e)) => {
            if e != 0 {
                let g = s[i].gradient;
                let p0 = s[i].previous[0];
                let d0 = s[s[i].previous[0]].data;
                lemma_add_grad_frame(
                    s,
                    p0,
                    frac_mul(frac_mul(frac_from_int(e as int), frac_pow(d0, (e - 1) as nat)), g),
                );
                assert(s[i].previous.contains(p0)) by {
                    assert(s[i].previous[0] == p0);
                }
            }
        },
    }
}

/// The backward sweep preserves the shape, never touches the gradient of the
/// root or of any node above it, and never touches the gradient of an
/// unreachable node.
pub proof fn lemma_run_to_frame(s: Seq<NodeG>, root: int, i: int)
    requires
        graph_shape_wf(s),
        0 <= root < s.len(),
    ensures
        same_shape(s, run_to(s, root, i)),
        graph_shape_wf(run_to(s, root, i)),
        forall|j: int|
            root <= j < s.len() ==> (#[trigger] run_to(s, root, i)[j]).gradient
                == s[j].gradient,
        forall|j: int|
            0 <= j < s.len() && !reaches(s, root, j) ==> (#[trigger] run_to(s, root, i)[j])
                == s[j],
    decreases root - i + 1,
{
    if i > root || i < 0 {
    } else {
        lemma_run_to_frame(s, root, i + 1);
        let t = run_to(s, root, i + 1);
        lemma_same_shape_wf(s, t);
        lemma_same_shape_reaches(s, t, root, i);
        if reaches(t, root, i) {
            assert(node_shape_wf(t, i));
            lemma_fire_frame(t, i);
            let cur = fire(t, i);
            assert(same_shape(s, cur)) by {
                assert forall|m: int|
                    0 <= m < s.len() implies ((#[trigger] cur[m]).data == s[m].data && cur[m].label
                    == s[m].label && cur[m].operation == s[m].operation && cur[m].previous
                    == s[m].previous) by {
                    assert(cur[m].data == t[m].data && cur[m].label == t[m].label
                        && cur[m].operation == t[m].operation && cur[m].previous == t[m].previous);
                    assert(t[m].data == s[m].data && t[m].label == s[m].label && t[m].operation
                        == s[m].operation && t[m].previous == s[m].previous);
                }
            }
            lemma_same_shape_wf(s, cur);
            assert forall|j: int| root <= j < s.len() implies (#[trigger] cur[j]).gradient
                == s[j].gradient by {
                if t[i].previous.contains(j) {
                    let w = choose|w: int| 0 <= w < t[i].previous.len() && t[i].previous[w] == j;
                    assert(node_shape_wf(t, i));
                    assert(t[i].previous[w] < i);
                    assert(false);
                }
                assert(cur[j] == t[j]);
            }
            assert forall|j: int|
                0 <= j < s.len() && !reaches(s, root, j) implies (#[trigger] cur[j]) == s[j] by {
                if t[i].previous.contains(j) {
                    // then j would be reachable through i, a contradiction
                    assert(s[i].previous == t[i].previous);
                    assert(s[i].previous.contains(j));
                    let w = choose|w: int| 0 <= w < s[i].previous.len() && s[i].previous[w] == j;
                    assert(node_shape_wf(s, i));
                    assert(0 <= s[i].previous[w] < i);
                    assert(j < i <= root);
                    assert(reaches(s, root, i));
                    lemma_reaches_step(s, root, i, j);
                    assert(false);
                }
                assert(cur[j] == t[j]);
            }
        }
    }
}

/// Unfolds `run_ok` down to one index: the sweep that is within bounds as a
/// whole is within bounds at each step.
pub proof fn lemma_run_ok_at(s: Seq<NodeG>, root: int, i: int, j: int)
    requires
        run_ok(s, root, i),
        0 <= i <= j <= root,
    ensures
        reaches(run_to(s, root, j + 1), root, j) ==> fire_ok(run_to(s, root, j + 1), j),
    decreases j - i,
{
    if i < j {
        lemma_run_ok_at(s, root, i + 1, j);
    }
}

/// The graph with the gradient of every node the root reaches reset to
/// zero, and every other node untouched.
pub open spec fn zeroed(s: Seq<NodeG>, root: int) -> Seq<NodeG> {
    Seq::new(
        s.len(),
        |j: int|
            if reaches(s, root, j) {
                with_grad(s[j], frac_zero())
            } else {
                s[j]
            },
    )
}

/// Computes, for every node, whether the root reaches it: one descending
/// pass that marks the root and then the predecessors of every marked node.
fn reach_marks(graph: &Graph, root: usize) -> (marks: Vec<bool>)
    requires
        graph_shape_wf(graph@),
        (root as int) < graph@.len(),
    ensures
        marks@.len() == graph@.len(),
        forall|j: int| 0 <= j < graph@.len() ==> marks@[j] == reaches(graph@, root as int, j),
{
    let ghost s = graph@;
    let n = graph.nodes.len();
    let mut marks: Vec<bool> = vec![false; n];
    marks[root] = true;
    let mut i: usize = root + 1;
    while i > 0
        invariant
            i <= root + 1,
            (root as int) < s.len(),
            graph@ == s,
            graph_shape_wf(s),
            s.len() == graph.nodes@.len(),
            marks@.len() == s.len() == n,
            forall|j: int|
                0 <= j < s.len() ==> marks@[j] == mark_from(s, root as int, i as int).contains(
                    j,
                ),
        decreases i,
    {
        i -= 1;
        let ghost m_prev = mark_from(s, root as int, i + 1);
        if marks[i] {
            proof {
                assert(m_prev.contains(i as int));
                assert(node_shape_wf(s, i as int));
            }
            let count = graph.nodes[i].previous.len();
            let mut t: usize = 0;
            while t < count
                invariant
                    t <= count,
                    i < s.len(),
                    (root as int) < s.len(),
                    graph@ == s,
                    graph_shape_wf(s),
                    s.len() == graph.nodes@.len(),
                    node_shape_wf(s, i as int),
                    count == s[i as int].previous.len(),
                    marks@.len() == s.len() == n,
                    forall|j: int|
                        0 <= j < s.len() && #[trigger] marks@[j] ==> m_prev.contains(j) || s[
                            i as int
                        ].previous.contains(j),
                    forall|j: int| 0 <= j < s.len() && m_prev.contains(j) ==> #[trigger] marks@[j],
                    forall|u: int| 0 <= u < t ==> marks@[#[trigger] s[i as int].previous[u]],
                decreases count - t,
            {
                let p = graph.nodes[i].previous[t];
                proof {
                    assert(s[i as int].previous[t as int] == p as int);
                    assert(0 <= p < i);
                    assert(s[i as int].previous.contains(p as int));
                }
                marks[p] = true;
                t += 1;
            }
            proof {
                assert forall|j: int|
                    0 <= j < s.len() implies marks@[j] == mark_from(
                    s,
                    root as int,
                    i as int,
                ).contains(j) by {
                    let m_now = mark_from(s, root as int, i as int);
                    assert(m_now == m_prev.union(s[i as int].previous.to_set()));
                    if marks@[j] {
                        assert(m_prev.contains(j) || s[i as int].previous.contains(j));
                        assert(m_now.contains(j));
                    }
                    if m_now.contains(j) {
                        if s[i as int].previous.contains(j) && !m_prev.contains(j) {
                            let u = choose|u: int|
                                0 <= u < s[i as int].previous.len() && s[i as int].previous[u]
                                    == j;
                            assert(marks@[s[i as int].previous[u]]);
                        }
                        assert(marks@[j]);
                    }
                }
            }
        } else {
            proof {
                assert(!m_prev.contains(i as int));
                assert(mark_from(s, root as int, i as int) == m_prev);
            }
        }
    }
    marks
}

/// The public, copyable handle to one node of a [`Graph`].
#[derive(Clone, Copy, Debug, PartialEq, Eq, Structural, Hash)]
pub struct Value {
    pub index: usize,
}

impl Value {
    pub open spec fn id(self) -> int {
        self.index as int
    }

    pub open spec fn valid(self, s: Seq<NodeG>) -> bool {
        0 <= self.id() < s.len()
    }

    /// Creates a leaf holding `data`, with gradient zero, no label, no
    /// operation and no predecessors.
    pub fn from(graph: &mut Graph, data: Rat) -> (r: Value)
        requires
            data.wf(),
        ensures
            final(graph)@ == old(graph)@.push(leaf_node(data@)),
            r.id() == old(graph)@.len(),
            r.valid(final(graph)@),
            graph_wf(old(graph)@) ==> graph_wf(final(graph)@),
    {
        let index = graph.nodes.len();
        graph.nodes.push(
            Node {
                data,
                gradient: Rat::zero(),
                label: None,
                operation: None,
                previous: Vec::new(),
            },
        );
        proof {
            assert(graph@ =~~= old(graph)@.push(leaf_node(data@)));
            if graph_wf(old(graph)@) {
                lemma_push_wf(old(graph)@, leaf_node(data@));
            }
        }
        Value { index }
    }

    /// Appends a sum node; its data is exactly the sum of the operands'
    /// data, its predecessors are `[self, other]`.
    pub fn add(&self, graph: &mut Graph, other: &Value) -> (r: Value)
        requires
            graph_wf(old(graph)@),
            self.valid(old(graph)@),
            other.valid(old(graph)@),
            frac_in_i64(frac_add(old(graph)@[self.id()].data, old(graph)@[other.id()].data)),
        ensures
            final(graph)@ == old(graph)@.push(
                op_node2(
                    Operation::Add,
                    frac_add(old(graph)@[self.id()].data, old(graph)@[other.id()].data),
                    self.id(),
                    other.id(),
                ),
            ),
            final(graph)@[r.id()].data == frac_add(
                old(graph)@[self.id()].data,
                old(graph)@[other.id()].data,
            ),
            r.id() == old(graph)@.len(),
            r.valid(final(graph)@),
            graph_wf(final(graph)@),
    {
        proof {
            assert(node_shape_wf(graph@, self.id()));
            assert(node_shape_wf(graph@, other.id()));
        }
        let index = graph.nodes.len();
        let d = graph.nodes[self.index].data.add(graph.nodes[other.index].data);
        let mut previous: Vec<usize> = Vec::new();
        previous.push(self.index);
        previous.push(other.index);
        graph.nodes.push(
            Node {
                data: d,
                gradient: Rat::zero(),
                label: None,
                operation: Some(Operation::Add),
                previous,
            },
        );
        proof {
            assert(graph@ =~~= old(graph)@.push(
                op_node2(
                    Operation::Add,
                    frac_add(old(graph)@[self.id()].data, old(graph)@[other.id()].data),
                    self.id(),
                    other.id(),
                ),
            ));
            lemma_push_wf(
                old(graph)@,
                op_node2(
                    Operation::Add,
                    frac_add(old(graph)@[self.id()].data, old(graph)@[other.id()].data),
                    self.id(),
                    other.id(),
                ),
            );
        }
        Value { index }
    }

    /// Appends a product node; its data is exactly the product of the
    /// operands' data, its predecessors are `[self, other]`.
    pub fn mul(&self, graph: &mut Graph, other: &Value) -> (r: Value)
        requires
            graph_wf(old(graph)@),
            self.valid(old(graph)@),
            other.valid(old(graph)@),
            frac_in_i64(frac_mul(old(graph)@[self.id()].data, old(graph)@[other.id()].data)),
        ensures
            final(graph)@ == old(graph)@.push(
                op_node2(
                    Operation::Multiply,
                    frac_mul(old(graph)@[self.id()].data, old(graph)@[other.id()].data),
                    self.id(),
                    other.id(),
                ),
            ),
            final(graph)@[r.id()].data == frac_mul(
                old(graph)@[self.id()].data,
                old(graph)@[other.id()].data,
            ),
            r.id() == old(graph)@.len(),
            r.valid(final(graph)@),
            graph_wf(final(graph)@),
    {
        proof {
            assert(node_shape_wf(graph@, self.id()));
            assert(node_shape_wf(graph@, other.id()));
        }
        let index = graph.nodes.len();
        let d = graph.nodes[self.index].data.mul(graph.nodes[other.index].data);
        let mut previous: Vec<usize> = Vec::new();
        previous.push(self.index);
        previous.push(other.index);
        graph.nodes.push(
            Node {
                data: d,
                gradient: Rat::zero(),
                label: None,
                operation: Some(Operation::Multiply),
                previous,
            },
        );
        proof {
            assert(graph@ =~~= old(graph)@.push(
                op_node2(
                    Operation::Multiply,
                    frac_mul(old(graph)@[self.id()].data, old(graph)@[other.id()].data),
                    self.id(),
                    other.id(),
                ),
            ));
            lemma_push_wf(
                old(graph)@,
                op_node2(
                    Operation::Multiply,
                    frac_mul(old(graph)@[self.id()].data, old(graph)@[other.id()].data),
                    self.id(),
                    other.id(),
                ),
            );
        }
        Value { index }
    }

    /// Negation, built out of the other operations: a fresh leaf holding
    /// minus one, multiplied onto `self`.
    pub fn neg(&self, graph: &mut Graph) -> (r: Value)
        requires
            graph_wf(old(graph)@),
            self.valid(old(graph)@),
            frac_in_i64(frac_neg(old(graph)@[self.id()].data)),
        ensures
            final(graph)@ == old(graph)@.push(leaf_node(frac_from_int(-1))).push(
                op_node2(
                    Operation::Multiply,
                    frac_neg(old(graph)@[self.id()].data),
                    self.id(),
                    old(graph)@.len() as int,
                ),
            ),
            final(graph)@[r.id()].data == frac_neg(old(graph)@[self.id()].data),
            r.id() == old(graph)@.len() + 1,
            r.valid(final(graph)@),
            graph_wf(final(graph)@),
    {
        let minus_one = Value::from(graph, Rat::from_int(-1));
        let r = self.mul(graph, &minus_one);
        proof {
            assert(frac_mul(old(graph)@[self.id()].data, frac_from_int(-1)) == frac_neg(
                old(graph)@[self.id()].data,
            ));
        }
        r
    }

    /// Subtraction, built out of the other operations as
    /// `self + (other * -1)`. Appends the minus-one leaf, the product node
    /// and the sum node, in that order.
    pub fn sub(&self, graph: &mut Graph, other: &Value) -> (r: Value)
        requires
            graph_wf(old(graph)@),
            self.valid(old(graph)@),
            other.valid(old(graph)@),
            frac_in_i64(frac_neg(old(graph)@[other.id()].data)),
            frac_in_i64(frac_sub(old(graph)@[self.id()].data, old(graph)@[other.id()].data)),
        ensures
            final(graph)@ == old(graph)@.push(leaf_node(frac_from_int(-1))).push(
                op_node2(
                    Operation::Multiply,
                    frac_neg(old(graph)@[other.id()].data),
                    other.id(),
                    old(graph)@.len() as int,
                ),
            ).push(
                op_node2(
                    Operation::Add,
                    frac_sub(old(graph)@[self.id()].data, old(graph)@[other.id()].data),
                    self.id(),
                    old(graph)@.len() + 1 as int,
                ),
            ),
            final(graph)@[r.id()].data == frac_sub(
                old(graph)@[self.id()].data,
                old(graph)@[other.id()].data,
            ),
            r.id() == old(graph)@.len() + 2,
            r.valid(final(graph)@),
            graph_wf(final(graph)@),
    {
        let negated = other.neg(graph);
        self.add(graph, &negated)
    }

    /// Appends a power node raising `self` to the exponent held by `power`,
    /// which must hold a nonnegative whole number over a denominator of one.
    /// The exponent is baked into the operation as a plain number; only
    /// `self` becomes a predecessor, so no gradient ever flows to `power`.
    pub fn pow(&self, graph: &mut Graph, power: &Value) -> (r: Value)
        requires
            graph_wf(old(graph)@),
            self.valid(old(graph)@),
            power.valid(old(graph)@),
            frac_is_count(old(graph)@[power.id()].data),
            forall|k: nat|
                k <= old(graph)@[power.id()].data.num ==> frac_in_i64(
                    #[trigger] frac_pow(old(graph)@[self.id()].data, k),
                ),
        ensures
            final(graph)@ == old(graph)@.push(
                pow_node(
                    old(graph)@[power.id()].data.num as u64,
                    frac_pow(
                        old(graph)@[self.id()].data,
                        old(graph)@[power.id()].data.num as nat,
                    ),
                    self.id(),
                ),
            ),
            final(graph)@[r.id()].data == frac_pow(
                old(graph)@[self.id()].data,
                old(graph)@[power.id()].data.num as nat,
            ),
            r.id() == old(graph)@.len(),
            r.valid(final(graph)@),
            graph_wf(final(graph)@),
    {
        proof {
            assert(node_shape_wf(graph@, self.id()));
            assert(node_shape_wf(graph@, power.id()));
        }
        let exponent_num: i64 = graph.nodes[power.index].data.num();
        let exponent: u64 = exponent_num as u64;
        let d = graph.nodes[self.index].data.pow_count(exponent);
        let mut previous: Vec<usize> = Vec::new();
        previous.push(self.index);
        let index = graph.nodes.len();
        graph.nodes.push(
            Node {
                data: d,
                gradient: Rat::zero(),
                label: None,
                operation: Some(Operation::Power(exponent)),
                previous,
            },
        );
        proof {
            let n = pow_node(
                old(graph)@[power.id()].data.num as u64,
                frac_pow(old(graph)@[self.id()].data, old(graph)@[power.id()].data.num as nat),
                self.id(),
            );
            assert(graph@ =~~= old(graph)@.push(n));
            lemma_push_wf(old(graph)@, n);
        }
        Value { index }
    }

    /// Sets the node's diagnostic label, overwriting any previous one, and
    /// hands the same handle back so calls can be chained.
    pub fn set_label(self, graph: &mut Graph, label: &str) -> (r: Value)
        requires
            self.valid(old(graph)@),
        ensures
            final(graph)@ == old(graph)@.update(
                self.id(),
                NodeG { label: Option::Some(label@), ..old(graph)@[self.id()] },
            ),
            r == self,
            graph_wf(old(graph)@) ==> graph_wf(final(graph)@),
    {
        let text = label.to_owned();
        graph.nodes[self.index].label = Some(text);
        proof {
            let s2 = old(graph)@.update(
                self.id(),
                NodeG { label: Option::Some(label@), ..old(graph)@[self.id()] },
            );
            assert(graph@ =~~= s2);
            if graph_wf(old(graph)@) {
                assert forall|i: int| 0 <= i < s2.len() implies node_shape_wf(s2, i) by {
                    assert(node_shape_wf(old(graph)@, i));
                }
                assert forall|i: int| 0 <= i < s2.len() implies frac_wf(
                    #[trigger] s2[i].gradient,
                ) by {
                    assert(frac_wf(old(graph)@[i].gradient));
                }
            }
        }
        self
    }

    /// Reads the node's label, if any.
    pub fn get_label(&self, graph: &Graph) -> (r: Option<String>)
        requires
            self.valid(graph@),
        ensures
            match r {
                Option::Some(t) => graph@[self.id()].label == Option::Some(t@),
                Option::None => graph@[self.id()].label is None,
            },
    {
        match &graph.nodes[self.index].label {
            Some(t) => Some(t.clone()),
            None => None,
        }
    }

    /// Reads the node's forward value.
    pub fn get_data(&self, graph: &Graph) -> (r: Rat)
        requires
            self.valid(graph@),
        ensures
            r@ == graph@[self.id()].data,
    {
        graph.nodes[self.index].data
    }

    /// Reads the node's accumulated gradient.
    pub fn get_gradient(&self, graph: &Graph) -> (r: Rat)
        requires
            self.valid(graph@),
        ensures
            r@ == graph@[self.id()].gradient,
    {
        graph.nodes[self.index].gradient
    }

    /// The backward pass: force-sets this node's gradient to one (the
    /// identity seed) and then fires the derivative rule of every node this
    /// node reaches, in reverse topological order, accumulating gradient
    /// contributions into each rule's predecessors. Gradients are only ever
    /// added to, never reset, so repeated passes keep accumulating.
    pub fn backprop(&self, graph: &mut Graph)
        requires
            graph_wf(old(graph)@),
            self.valid(old(graph)@),
            backprop_ok(old(graph)@, self.id()),
        ensures
            final(graph)@ == backprop_spec(old(graph)@, self.id()),
            graph_wf(final(graph)@),
            same_shape(old(graph)@, final(graph)@),
            final(graph)@[self.id()].gradient == frac_one(),
            forall|j: int|
                0 <= j < old(graph)@.len() && !reaches(old(graph)@, self.id(), j) ==> (
                #[trigger] final(graph)@[j]) == old(graph)@[j],
    {
        let root = self.index;
        let ghost s_orig = graph@;
        let marks = reach_marks(graph, root);
        graph.nodes[root].gradient = Rat::one();
        let ghost s0 = seeded(s_orig, root as int);
        proof {
            assert(graph@ =~~= s0);
            assert(same_shape(s_orig, s0));
            lemma_same_shape_wf(s_orig, s0);
            assert(grads_wf(s0)) by {
                assert forall|j: int| 0 <= j < s0.len() implies frac_wf(
                    #[trigger] s0[j].gradient,
                ) by {
                    if j != root as int {
                        assert(s0[j] == s_orig[j]);
                    }
                }
            }
            assert forall|j: int| 0 <= j < s_orig.len() implies marks@[j] == reaches(
                s0,
                root as int,
                j,
            ) by {
                lemma_same_shape_reaches(s_orig, s0, root as int, j);
            }
            assert(run_to(s0, root as int, (root + 1) as int) == s0);
        }
        let total = graph.nodes.len();
        proof {
            assert(root < total);
        }
        let mut i: usize = root + 1;
        while i > 0
            invariant
                i <= root + 1,
                (root as int) < s0.len(),
                s0.len() == s_orig.len(),
                root == self.index,
                s0 == seeded(s_orig, root as int),
                graph_wf(s0),
                run_ok(s0, root as int, 0),
                marks@.len() == s0.len(),
                forall|j: int| 0 <= j < s0.len() ==> marks@[j] == reaches(s0, root as int, j),
                graph@ == run_to(s0, root as int, i as int),
                graph@.len() == s0.len(),
                s0.len() == graph.nodes@.len(),
                graph_wf(graph@),
            decreases i,
        {
            i -= 1;
            let ghost t = run_to(s0, root as int, i + 1);
            proof {
                lemma_run_to_frame(s0, root as int, i + 1);
                lemma_same_shape_wf(s0, t);
                lemma_same_shape_reaches(s0, t, root as int, i as int);
                if i <= root {
                    lemma_run_ok_at(s0, root as int, 0, i as int);
                }
            }
            if marks[i] {
                proof {
                    assert(reaches(t, root as int, i as int));
                    assert(fire_ok(t, i as int));
                    assert(node_shape_wf(t, i as int));
                    lemma_fire_frame(t, i as int);
                }
                let op = graph.nodes[i].operation;
                match op {
                    None => {
                        proof {
                            assert(graph@ == fire(t, i as int));
                        }
                    },
                    Some(Operation::Add) => {
                        let p0 = graph.nodes[i].previous[0];
                        let p1 = graph.nodes[i].previous[1];
                        let gi = graph.nodes[i].gradient;
                        let ghost t1 = add_grad(t, p0 as int, gi@);
                        let ng0 = graph.nodes[p0].gradient.add(gi);
                        graph.nodes[p0].gradient = ng0;
                        proof {
                            assert(graph@ =~~= t1);
                        }
                        let ng1 = graph.nodes[p1].gradient.add(gi);
                        graph.nodes[p1].gradient = ng1;
                        proof {
                            assert(graph@ =~~= add_grad(t1, p1 as int, gi@));
                            assert(graph@ == fire(t, i as int));
                        }
                    },
                    Some(Operation::Multiply) => {
                        let p0 = graph.nodes[i].previous[0];
                        let p1 = graph.nodes[i].previous[1];
                        let gi = graph.nodes[i].gradient;
                        let d0 = graph.nodes[p0].data;
                        let d1 = graph.nodes[p1].data;
                        proof {
                            assert(node_shape_wf(t, p0 as int));
                            assert(node_shape_wf(t, p1 as int));
                        }
                        let ghost t1 = add_grad(t, p0 as int, frac_mul(d1@, gi@));
                        let c0 = d1.mul(gi);
                        let ng0 = graph.nodes[p0].gradient.add(c0);
                        graph.nodes[p0].gradient = ng0;
                        proof {
                            assert(graph@ =~~= t1);
                        }
                        let c1 = d0.mul(gi);
                        let ng1 = graph.nodes[p1].gradient.add(c1);
                        graph.nodes[p1].gradient = ng1;
                        proof {
                            assert(graph@ =~~= add_grad(t1, p1 as int, frac_mul(d0@, gi@)));
                            assert(graph@ == fire(t, i as int));
                        }
                    },
                    Some(Operation::Power(e)) => {
                        if e > 0 {
                            let p0 = graph.nodes[i].previous[0];
                            let gi = graph.nodes[i].gradient;
                            let d0 = graph.nodes[p0].data;
                            proof {
                                assert(node_shape_wf(t, p0 as int));
                            }
                            let pw = d0.pow_count(e - 1);
                            let ec = Rat::from_int(e as i64);
                            let c = ec.mul(pw);
                            let delta = c.mul(gi);
                            let ng0 = graph.nodes[p0].gradient.add(delta);
                            graph.nodes[p0].gradient = ng0;
                            proof {
                                assert(graph@ =~~= add_grad(t, p0 as int, delta@));
                                assert(graph@ == fire(t, i as int));
                            }
                        } else {
                            proof {
                                assert(graph@ == fire(t, i as int));
                            }
                        }
                    },
                }
                proof {
                    assert(graph@ == run_to(s0, root as int, i as int));
                    lemma_run_to_frame(s0, root as int, i as int);
                    lemma_same_shape_wf(s0, run_to(s0, root as int, i as int));
                    assert(grads_wf(graph@)) by {
                        assert forall|j: int| 0 <= j < graph@.len() implies frac_wf(
                            #[trigger] graph@[j].gradient,
                        ) by {
                            if !t[i as int].previous.contains(j) {
                                assert(graph@[j] == t[j]);
                                assert(frac_wf(t[j].gradient));
                            }
                        }
                    }
                }
            } else {
                proof {
                    assert(!reaches(t, root as int, i as int));
                    assert(graph@ == run_to(s0, root as int, i as int));
                }
            }
        }
        proof {
            assert(graph@ == backprop_spec(s_orig, self.id()));
            lemma_run_to_frame(s0, root as int, 0);
            assert(graph@[self.id()].gradient == s0[self.id()].gradient);
            assert(same_shape(s_orig, graph@)) by {
                assert forall|m: int|
                    0 <= m < s_orig.len() implies ((#[trigger] graph@[m]).data == s_orig[m].data
                    && graph@[m].label == s_orig[m].label && graph@[m].operation
                    == s_orig[m].operation && graph@[m].previous == s_orig[m].previous) by {
                    assert(graph@[m].data == s0[m].data && graph@[m].label == s0[m].label
                        && graph@[m].operation == s0[m].operation && graph@[m].previous
                        == s0[m].previous);
                    if m != root as int {
                        assert(s0[m] == s_orig[m]);
                    }
                }
            }
            assert forall|j: int|
                0 <= j < s_orig.len() && !reaches(s_orig, self.id(), j) implies (
            #[trigger] graph@[j]) == s_orig[j] by {
                lemma_same_shape_reaches(s_orig, s0, root as int, j);
                assert(!reaches(s0, root as int, j));
                assert(graph@[j] == s0[j]);
                assert(reaches(s_orig, root as int, root as int)) by {
                    assert(mark_from(s_orig, root as int, root + 1 as int).contains(
                        root as int,
                    ));
                    lemma_mark_monotone(s_orig, root as int, 0, root + 1 as int, root as int);
                }
                assert(j != root as int);
                assert(s0[j] == s_orig[j]);
            }
        }
    }

    /// Resets the gradient of this node and of every node it reaches to
    /// zero, leaving all other nodes and all data untouched: repeated
    /// backward passes then start from a clean slate.
    pub fn zero_grad(&self, graph: &mut Graph)
        requires
            graph_wf(old(graph)@),
            self.valid(old(graph)@),
        ensures
            final(graph)@ == zeroed(old(graph)@, self.id()),
            graph_wf(final(graph)@),
            same_shape(old(graph)@, final(graph)@),
            forall|j: int|
                0 <= j < old(graph)@.len() ==> (#[trigger] final(graph)@[j]).gradient == (
                if reaches(old(graph)@, self.id(), j) {
                    frac_zero()
                } else {
                    old(graph)@[j].gradient
                }),
    {
        let root = self.index;
        let ghost s_orig = graph@;
        let marks = reach_marks(graph, root);
        let n = graph.nodes.len();
        let mut i: usize = 0;
        while i < n
            invariant
                i <= n,
                n == s_orig.len(),
                (root as int) < s_orig.len(),
                root == self.index,
                graph_wf(s_orig),
                marks@.len() == s_orig.len(),
                forall|j: int| 0 <= j < s_orig.len() ==> marks@[j] == reaches(s_orig, root as int, j),
                graph@.len() == s_orig.len(),
                s_orig.len() == graph.nodes@.len(),
                forall|j: int|
                    0 <= j < i && reaches(s_orig, root as int, j) ==> (#[trigger] graph@[j])
                        == with_grad(s_orig[j], frac_zero()),
                forall|j: int|
                    0 <= j < s_orig.len() && !(0 <= j < i && reaches(s_orig, root as int, j))
                        ==> (#[trigger] graph@[j]) == s_orig[j],
            decreases n - i,
        {
            let ghost gprev = graph@;
            if marks[i] {
                graph.nodes[i].gradient = Rat::zero();
                proof {
                    assert(graph@ =~~= gprev.update(
                        i as int,
                        with_grad(gprev[i as int], frac_zero()),
                    ));
                    assert(gprev[i as int] == s_orig[i as int]);
                    assert(graph@[i as int] =~~= with_grad(s_orig[i as int], frac_zero()));
                }
            }
            i += 1;
        }
        proof {
            assert(graph@ =~~= zeroed(s_orig, self.id()));
            assert(same_shape(s_orig, graph@));
            lemma_same_shape_wf(s_orig, graph@);
            assert(grads_wf(graph@)) by {
                assert forall|j: int| 0 <= j < graph@.len() implies frac_wf(
                    #[trigger] graph@[j].gradient,
                ) by {
                    if !reaches(s_orig, root as int, j) {
                        assert(graph@[j] == s_orig[j]);
                    }
                }
            }
        }
    }
}

} // verus!
