//! The computation graph and backward propagation.
//!
//! A `Tape` is an arena of `Node`s addressed by index. Operand links always
//! point at strictly smaller indices, so every tape is acyclic by
//! construction. Nodes are never removed or structurally changed once
//! created: backward propagation mutates gradient fields only.

use vstd::prelude::*;
use vstd::pervasive::VecAdditionalExecFns;
use crate::scalar::{add_bits, sub_bits, mul_bits, exec_add_bits, exec_sub_bits, exec_mul_bits};

verus! {

/// The bit pattern of the binary64 value one, used by the chain rule for the
/// hyperbolic tangent.
pub const ONE_BITS: u64 = 0x3FF0_0000_0000_0000;

/// The operator that produced a derived node.
#[derive(Clone, Copy)]
pub enum Operation {
    Add,
    Mul,
    Tanh,
}

/// One scalar in the computation graph: its forward value, its accumulated
/// gradient, and the operator and operand links that produced it. Scalars
/// are binary64 bit patterns.
#[derive(Clone, Copy)]
pub struct Node {
    /// The forward value, fixed at construction.
    pub value: u64,
    /// The accumulated partial derivative of a propagation root with respect
    /// to this node; zero until backward propagation reaches the node.
    pub gradient: u64,
    /// The operator that produced this node, or `None` for a leaf.
    pub operation: Option<Operation>,
    /// The first operand, if any.
    pub left: Option<usize>,
    /// The second operand, if any.
    pub right: Option<usize>,
}

/// The node a leaf constructor appends: a raw constant with no provenance.
pub open spec fn leaf_node(value: u64) -> Node {
    Node { value: value, gradient: 0u64, operation: None, left: None, right: None }
}

/// The node a derived-node constructor appends.
pub open spec fn op_node(value: u64, op: Operation, left: usize, right: Option<usize>) -> Node {
    Node { value: value, gradient: 0u64, operation: Some(op), left: Some(left), right: right }
}

/// Structural well-formedness of the node at index `i`: a leaf has no
/// operands, addition and multiplication have two, the hyperbolic tangent
/// has one, and every operand index is strictly below `i`.
pub open spec fn node_wf(n: Node, i: int) -> bool {
    match n.operation {
        None => n.left is None && n.right is None,
        Some(Operation::Add) | Some(Operation::Mul) => match (n.left, n.right) {
            (Some(l), Some(r)) => l < i && r < i,
            _ => false,
        },
        Some(Operation::Tanh) => match (n.left, n.right) {
            (Some(l), None) => l < i,
            _ => false,
        },
    }
}

/// Structural well-formedness of a whole tape. Operand links descending in
/// index make the graph a DAG: no node is reachable from itself.
pub open spec fn wf(s: Seq<Node>) -> bool {
    forall|i: int| 0 <= i < s.len() ==> node_wf(#[trigger] s[i], i)
}

/// The forward value stored in the node at index `i` is the exact binary64
/// application of its operator to its operands' stored values. The
/// hyperbolic tangent is evaluated by the caller (see `Tape::tanh`), so only
/// addition and multiplication nodes are constrained.
pub open spec fn node_consistent(s: Seq<Node>, i: int) -> bool {
    &&& (s[i].operation == Some(Operation::Add) ==> match (s[i].left, s[i].right) {
        (Some(l), Some(r)) => l < s.len() && r < s.len()
            && s[i].value == add_bits(s[l as int].value, s[r as int].value),
        _ => false,
    })
    &&& (s[i].operation == Some(Operation::Mul) ==> match (s[i].left, s[i].right) {
        (Some(l), Some(r)) => l < s.len() && r < s.len()
            && s[i].value == mul_bits(s[l as int].value, s[r as int].value),
        _ => false,
    })
}

/// Every derived node's forward value is the exact application of its
/// operator to its operands' values.
pub open spec fn consistent(s: Seq<Node>) -> bool {
    forall|i: int| 0 <= i < s.len() ==> #[trigger] node_consistent(s, i)
}

/// The arena that owns every node of one computation graph.
pub struct Tape {
    nodes: Vec<Node>,
}

impl View for Tape {
    type V = Seq<Node>;

    closed spec fn view(&self) -> Seq<Node> {
        self.nodes@
    }
}

impl Tape {
    /// An empty tape.
    pub fn new() -> (t: Tape)
        ensures
            t@ == Seq::<Node>::empty(),
            wf(t@),
            consistent(t@),
    {
        Tape { nodes: Vec::new() }
    }

    /// How many nodes the tape holds.
    pub fn len(&self) -> (n: usize)
        ensures
            n == self@.len(),
    {
        self.nodes.len()
    }

    /// The forward value of the node `id`, as a binary64 bit pattern.
    pub fn value(&self, id: usize) -> (v: u64)
        requires
            id < self@.len(),
        ensures
            v == self@[id as int].value,
    {
        self.nodes[id].value
    }

    /// The accumulated gradient of the node `id`, as a binary64 bit pattern.
    pub fn gradient(&self, id: usize) -> (g: u64)
        requires
            id < self@.len(),
        ensures
            g == self@[id as int].gradient,
    {
        self.nodes[id].gradient
    }

    /// Appends a leaf node holding the constant `value` and returns its
    /// index. The gradient starts at zero (the bit pattern of positive
    /// zero is zero).
    pub fn leaf(&mut self, value: u64) -> (id: usize)
        ensures
            id == old(self)@.len(),
            final(self)@ == old(self)@.push(leaf_node(value)),
            wf(old(self)@) ==> wf(final(self)@),
            consistent(old(self)@) ==> consistent(final(self)@),
    {
        let id = self.nodes.len();
        self.nodes.push(Node {
            value: value,
            gradient: 0u64,
            operation: None,
            left: None,
            right: None,
        });
        proof {
            lemma_push_preserves(old(self)@, leaf_node(value));
        }
        id
    }

    /// Appends the sum of nodes `a` and `b` and returns its index. The new
    /// node's value is the exact binary64 sum of the operands' values; `a`
    /// and `b` may be the same node.
    pub fn add(&mut self, a: usize, b: usize) -> (id: usize)
        requires
            a < old(self)@.len(),
            b < old(self)@.len(),
        ensures
            id == old(self)@.len(),
            final(self)@ == old(self)@.push(
                op_node(
                    add_bits(old(self)@[a as int].value, old(self)@[b as int].value),
                    Operation::Add,
                    a,
                    Some(b),
                ),
            ),
            wf(old(self)@) ==> wf(final(self)@),
            consistent(old(self)@) ==> consistent(final(self)@),
    {
        let v = exec_add_bits(self.nodes[a].value, self.nodes[b].value);
        let id = self.nodes.len();
        self.nodes.push(Node {
            value: v,
            gradient: 0u64,
            operation: Some(Operation::Add),
            left: Some(a),
            right: Some(b),
        });
        proof {
            let n = op_node(
                add_bits(old(self)@[a as int].value, old(self)@[b as int].value),
                Operation::Add,
                a,
                Some(b),
            );
            lemma_push_preserves(old(self)@, n);
        }
        id
    }

    /// Appends the product of nodes `a` and `b` and returns its index. The
    /// new node's value is the exact binary64 product of the operands'
    /// values; `a` and `b` may be the same node.
    pub fn mul(&mut self, a: usize, b: usize) -> (id: usize)
        requires
            a < old(self)@.len(),
            b < old(self)@.len(),
        ensures
            id == old(self)@.len(),
            final(self)@ == old(self)@.push(
                op_node(
                    mul_bits(old(self)@[a as int].value, old(self)@[b as int].value),
                    Operation::Mul,
                    a,
                    Some(b),
                ),
            ),
            wf(old(self)@) ==> wf(final(self)@),
            consistent(old(self)@) ==> consistent(final(self)@),
    {
        let v = exec_mul_bits(self.nodes[a].value, self.nodes[b].value);
        let id = self.nodes.len();
        self.nodes.push(Node {
            value: v,
            gradient: 0u64,
            operation: Some(Operation::Mul),
            left: Some(a),
            right: Some(b),
        });
        proof {
            let n = op_node(
                mul_bits(old(self)@[a as int].value, old(self)@[b as int].value),
                Operation::Mul,
                a,
                Some(b),
            );
            lemma_push_preserves(old(self)@, n);
        }
        id
    }

    /// Appends a hyperbolic-tangent node over node `a` and returns its
    /// index. Evaluating the hyperbolic tangent itself is transcendental
    /// work on binary64 values that this library does not perform: the
    /// caller passes the evaluated result as `value`, and the node records
    /// it. The chain rule applied during backward propagation is expressed
    /// in terms of this recorded output, as `d tanh / dx == 1 - tanh(x)^2`.
    pub fn tanh(&mut self, a: usize, value: u64) -> (id: usize)
        requires
            a < old(self)@.len(),
        ensures
            id == old(self)@.len(),
            final(self)@ == old(self)@.push(op_node(value, Operation::Tanh, a, None)),
            wf(old(self)@) ==> wf(final(self)@),
            consistent(old(self)@) ==> consistent(final(self)@),
    {
        let id = self.nodes.len();
        self.nodes.push(Node {
            value: value,
            gradient: 0u64,
            operation: Some(Operation::Tanh),
            left: Some(a),
            right: None,
        });
        proof {
            lemma_push_preserves(old(self)@, op_node(value, Operation::Tanh, a, None));
        }
        id
    }
}

/// The node `n` with the incoming contribution `g` accumulated into its
/// gradient; every other field is kept.
pub open spec fn bump(n: Node, g: u64) -> Node {
    Node {
        value: n.value,
        gradient: add_bits(n.gradient, g),
        operation: n.operation,
        left: n.left,
        right: n.right,
    }
}

/// The local factor of the chain rule for the hyperbolic tangent, expressed
/// in terms of the node's own recorded output `v`: one minus the square of
/// the output.
pub open spec fn tanh_factor(v: u64) -> u64 {
    sub_bits(ONE_BITS, mul_bits(v, v))
}

/// What backward propagation from `root` with incoming contribution `g`
/// makes of the tape `s`: the root's gradient grows by `g`, and each operand
/// is recursively handed its chain-rule share of `g`, computed from stored
/// forward values only. Operands are visited left first, then right, exactly
/// as `Tape::backward` walks them; a shared node accumulates once per path
/// that reaches it. The index guards are vacuous on a well-formed tape and
/// only make the recursion total.
pub open spec fn backward_spec(s: Seq<Node>, root: int, g: u64) -> Seq<Node>
    decreases root,
{
    if 0 <= root < s.len() {
        let n = s[root];
        let t = s.update(root, bump(n, g));
        match n.operation {
            None => t,
            Some(Operation::Add) => match (n.left, n.right) {
                (Some(l), Some(r)) => if l < root && r < root {
                    backward_spec(backward_spec(t, l as int, g), r as int, g)
                } else {
                    t
                },
                _ => t,
            },
            Some(Operation::Mul) => match (n.left, n.right) {
                (Some(l), Some(r)) => if l < root && r < root {
                    backward_spec(
                        backward_spec(t, l as int, mul_bits(g, s[r as int].value)),
                        r as int,
                        mul_bits(g, s[l as int].value),
                    )
                } else {
                    t
                },
                _ => t,
            },
            Some(Operation::Tanh) => match n.left {
                Some(l) => if l < root {
                    backward_spec(t, l as int, mul_bits(g, tanh_factor(n.value)))
                } else {
                    t
                },
                None => t,
            },
        }
    } else {
        s
    }
}

/// Whether the node `to` can be reached from the node `from` by following
/// operand links downward. Every node reaches itself. The index guards make
/// the recursion total; on a well-formed tape they always hold.
pub open spec fn reaches(s: Seq<Node>, from: int, to: int) -> bool
    decreases from,
{
    0 <= from < s.len() && (from == to || (match s[from].left {
        Some(l) => l < from && reaches(s, l as int, to),
        None => false,
    }) || (match s[from].right {
        Some(r) => r < from && reaches(s, r as int, to),
        None => false,
    }))
}

/// Two tapes of equal length whose nodes agree on everything except,
/// possibly, their gradients.
pub open spec fn same_structure(s: Seq<Node>, t: Seq<Node>) -> bool {
    &&& s.len() == t.len()
    &&& forall|i: int|
        0 <= i < s.len() ==> ((#[trigger] t[i]).value == s[i].value
            && t[i].operation == s[i].operation && t[i].left == s[i].left && t[i].right
            == s[i].right)
}

/// Appending a node whose operand links lie inside the old tape keeps the
/// tape well formed and keeps every stored value consistent.
proof fn lemma_push_preserves(s: Seq<Node>, n: Node)
    requires
        node_wf(n, s.len() as int),
        node_consistent(s.push(n), s.len() as int),
    ensures
        wf(s) ==> wf(s.push(n)),
        consistent(s) ==> consistent(s.push(n)),
{
    let t = s.push(n);
    if wf(s) {
        assert forall|i: int| 0 <= i < t.len() implies node_wf(#[trigger] t[i], i) by {
            if i < s.len() {
                assert(t[i] == s[i]);
            }
        }
    }
    if consistent(s) {
        assert forall|i: int| 0 <= i < t.len() implies #[trigger] node_consistent(t, i) by {
            if i < s.len() {
                assert(t[i] == s[i]);
                assert(node_consistent(s, i));
            }
        }
    }
}

/// Agreement on everything but gradients is transitive.
pub(crate) proof fn lemma_same_structure_trans(s: Seq<Node>, t: Seq<Node>, u: Seq<Node>)
    requires
        same_structure(s, t),
        same_structure(t, u),
    ensures
        same_structure(s, u),
{
    assert forall|i: int|
        0 <= i < s.len() implies ((#[trigger] u[i]).value == s[i].value && u[i].operation
        == s[i].operation && u[i].left == s[i].left && u[i].right == s[i].right) by {
        assert(t[i].value == s[i].value && t[i].operation == s[i].operation && t[i].left
            == s[i].left && t[i].right == s[i].right);
    }
}

/// Well-formedness is a property of the structure alone, so it carries over
/// to any tape with the same structure.
proof fn lemma_same_structure_wf(s: Seq<Node>, t: Seq<Node>)
    requires
        same_structure(s, t),
        wf(s),
    ensures
        wf(t),
{
    assert forall|i: int| 0 <= i < t.len() implies node_wf(#[trigger] t[i], i) by {
        assert(node_wf(s[i], i));
    }
}

/// Value consistency reads forward values and links only, so it carries over
/// to any tape with the same structure.
proof fn lemma_same_structure_consistent(s: Seq<Node>, t: Seq<Node>)
    requires
        same_structure(s, t),
        consistent(s),
    ensures
        consistent(t),
{
    assert forall|i: int| 0 <= i < t.len() implies #[trigger] node_consistent(t, i) by {
        assert(node_consistent(s, i));
    }
}

/// Backward propagation changes gradients only: the result has the same
/// length, and every node keeps its value, operator and operand links.
pub proof fn lemma_backward_structure(s: Seq<Node>, root: int, g: u64)
    ensures
        same_structure(s, backward_spec(s, root, g)),
    decreases root,
{
    if 0 <= root < s.len() {
        let n = s[root];
        let t = s.update(root, bump(n, g));
        assert(same_structure(s, t));
        match n.operation {
            None => {},
            Some(Operation::Add) => match (n.left, n.right) {
                (Some(l), Some(r)) => {
                    if l < root && r < root {
                        lemma_backward_structure(t, l as int, g);
                        let t1 = backward_spec(t, l as int, g);
                        lemma_backward_structure(t1, r as int, g);
                        lemma_same_structure_trans(s, t, t1);
                        lemma_same_structure_trans(s, t1, backward_spec(t1, r as int, g));
                    }
                },
                _ => {},
            },
            Some(Operation::Mul) => match (n.left, n.right) {
                (Some(l), Some(r)) => {
                    if l < root && r < root {
                        let gl = mul_bits(g, s[r as int].value);
                        let gr = mul_bits(g, s[l as int].value);
                        lemma_backward_structure(t, l as int, gl);
                        let t1 = backward_spec(t, l as int, gl);
                        lemma_backward_structure(t1, r as int, gr);
                        lemma_same_structure_trans(s, t, t1);
                        lemma_same_structure_trans(s, t1, backward_spec(t1, r as int, gr));
                    }
                },
                _ => {},
            },
            Some(Operation::Tanh) => match n.left {
                Some(l) => {
                    if l < root {
                        let gl = mul_bits(g, tanh_factor(n.value));
                        lemma_backward_structure(t, l as int, gl);
                        lemma_same_structure_trans(s, t, backward_spec(t, l as int, gl));
                    }
                },
                None => {},
            },
        }
    }
}

/// Reachability follows operand links only, so two tapes with the same
/// structure agree on it.
pub(crate) proof fn lemma_reaches_structural(s: Seq<Node>, t: Seq<Node>, from: int, to: int)
    requires
        same_structure(s, t),
    ensures
        reaches(s, from, to) == reaches(t, from, to),
    decreases from,
{
    if 0 <= from < s.len() {
        assert(t[from].left == s[from].left && t[from].right == s[from].right);
        match s[from].left {
            Some(l) => {
                if l < from {
                    lemma_reaches_structural(s, t, l as int, to);
                }
            },
            None => {},
        }
        match s[from].right {
            Some(r) => {
                if r < from {
                    lemma_reaches_structural(s, t, r as int, to);
                }
            },
            None => {},
        }
    }
}

/// Operand links descend in index, so reachability does too: a reached node
/// has an index no greater than the node it was reached from.
proof fn lemma_reaches_le(s: Seq<Node>, from: int, to: int)
    requires
        reaches(s, from, to),
    ensures
        0 <= to <= from,
    decreases from,
{
    if from != to {
        let via_left: bool = match s[from].left {
            Some(l) => l < from && reaches(s, l as int, to),
            None => false,
        };
        if via_left {
            match s[from].left {
                Some(l) => {
                    lemma_reaches_le(s, l as int, to);
                },
                None => {},
            }
        } else {
            match s[from].right {
                Some(r) => {
                    lemma_reaches_le(s, r as int, to);
                },
                None => {},
            }
        }
    }
}

/// Backward propagation from `root` leaves every node the root does not
/// reach entirely unchanged.
pub proof fn lemma_backward_frame(s: Seq<Node>, root: int, g: u64, i: int)
    requires
        0 <= i < s.len(),
        !reaches(s, root, i),
    ensures
        backward_spec(s, root, g)[i] == s[i],
    decreases root, 1int,
{
    if 0 <= root < s.len() {
        assert(root != i);
        let n = s[root];
        let t = s.update(root, bump(n, g));
        assert(t[i] == s[i]);
        assert(same_structure(s, t));
        match n.operation {
            None => {},
            Some(Operation::Add) => match (n.left, n.right) {
                (Some(l), Some(r)) => {
                    if l < root && r < root {
                        lemma_backward_sub_frame(s, t, l, r, root, g, g, i);
                    }
                },
                _ => {},
            },
            Some(Operation::Mul) => match (n.left, n.right) {
                (Some(l), Some(r)) => {
                    if l < root && r < root {
                        lemma_backward_sub_frame(
                            s,
                            t,
                            l,
                            r,
                            root,
                            mul_bits(g, s[r as int].value),
                            mul_bits(g, s[l as int].value),
                            i,
                        );
                    }
                },
                _ => {},
            },
            Some(Operation::Tanh) => match n.left {
                Some(l) => {
                    if l < root {
                        assert(!reaches(s, l as int, i)) by {
                            if reaches(s, l as int, i) {
                                assert(reaches(s, root, i));
                            }
                        }
                        lemma_reaches_structural(s, t, l as int, i);
                        lemma_backward_frame(t, l as int, mul_bits(g, tanh_factor(n.value)), i);
                    }
                },
                None => {},
            },
        }
    }
}

/// The two recursive steps shared by the frame argument for binary
/// operators: neither operand reaches `i`, so neither recursion changes it.
proof fn lemma_backward_sub_frame(
    s: Seq<Node>,
    t: Seq<Node>,
    l: usize,
    r: usize,
    root: int,
    gl: u64,
    gr: u64,
    i: int,
)
    requires
        0 <= i < s.len(),
        0 <= root < s.len(),
        !reaches(s, root, i),
        s[root].left == Some(l),
        s[root].right == Some(r),
        l < root,
        r < root,
        same_structure(s, t),
        t[i] == s[i],
    ensures
        backward_spec(backward_spec(t, l as int, gl), r as int, gr)[i] == s[i],
    decreases root, 0int,
{
    assert(!reaches(s, l as int, i)) by {
        if reaches(s, l as int, i) {
            assert(reaches(s, root, i));
        }
    }
    assert(!reaches(s, r as int, i)) by {
        if reaches(s, r as int, i) {
            assert(reaches(s, root, i));
        }
    }
    lemma_reaches_structural(s, t, l as int, i);
    lemma_backward_frame(t, l as int, gl, i);
    let t1 = backward_spec(t, l as int, gl);
    lemma_backward_structure(t, l as int, gl);
    lemma_same_structure_trans(s, t, t1);
    lemma_reaches_structural(s, t1, r as int, i);
    lemma_backward_frame(t1, r as int, gr, i);
}

/// Backward propagation from `root` touches the root's own gradient exactly
/// once: the root node comes out as the old node with the incoming
/// contribution accumulated, however often the recursion revisits shared
/// descendants.
pub proof fn lemma_backward_root(s: Seq<Node>, root: int, g: u64)
    requires
        0 <= root < s.len(),
    ensures
        backward_spec(s, root, g)[root] == bump(s[root], g),
{
    let n = s[root];
    let t = s.update(root, bump(n, g));
    match n.operation {
        None => {},
        Some(Operation::Add) => match (n.left, n.right) {
            (Some(l), Some(r)) => {
                if l < root && r < root {
                    lemma_backward_sub_root(t, l as int, r as int, root, g, g);
                }
            },
            _ => {},
        },
        Some(Operation::Mul) => match (n.left, n.right) {
            (Some(l), Some(r)) => {
                if l < root && r < root {
                    lemma_backward_sub_root(
                        t,
                        l as int,
                        r as int,
                        root,
                        mul_bits(g, s[r as int].value),
                        mul_bits(g, s[l as int].value),
                    );
                }
            },
            _ => {},
        },
        Some(Operation::Tanh) => match n.left {
            Some(l) => {
                if l < root {
                    let gl = mul_bits(g, tanh_factor(n.value));
                    assert(!reaches(t, l as int, root)) by {
                        if reaches(t, l as int, root) {
                            lemma_reaches_le(t, l as int, root);
                        }
                    }
                    lemma_backward_frame(t, l as int, gl, root);
                }
            },
            None => {},
        },
    }
}

/// The two recursive steps shared by the root argument for binary operators:
/// both operands lie strictly below the root, reachability only descends, so
/// neither recursion comes back to the root.
proof fn lemma_backward_sub_root(t: Seq<Node>, l: int, r: int, root: int, gl: u64, gr: u64)
    requires
        0 <= root < t.len(),
        0 <= l < root,
        0 <= r < root,
    ensures
        backward_spec(backward_spec(t, l, gl), r, gr)[root] == t[root],
{
    assert(!reaches(t, l, root)) by {
        if reaches(t, l, root) {
            lemma_reaches_le(t, l, root);
        }
    }
    lemma_backward_frame(t, l, gl, root);
    let t1 = backward_spec(t, l, gl);
    lemma_backward_structure(t, l, gl);
    assert(!reaches(t1, r, root)) by {
        if reaches(t1, r, root) {
            lemma_reaches_le(t1, r, root);
        }
    }
    lemma_backward_frame(t1, r, gr, root);
}

impl Tape {
    /// Backward propagation: accumulates into every node reachable from
    /// `root` its chain-rule share of the incoming contribution `seed`,
    /// walking the graph depth first, left operand before right, with no
    /// memoization, so a shared node accumulates once per path that reaches
    /// it. The tape afterwards is exactly `backward_spec` of the tape
    /// before; values, operators and operand links never change, and a node
    /// the root does not reach keeps its gradient too.
    pub fn backward(&mut self, root: usize, seed: u64)
        requires
            root < old(self)@.len(),
            wf(old(self)@),
        ensures
            final(self)@ == backward_spec(old(self)@, root as int, seed),
            same_structure(old(self)@, final(self)@),
            wf(final(self)@),
            consistent(old(self)@) ==> consistent(final(self)@),
            forall|i: int|
                0 <= i < old(self)@.len() && !reaches(old(self)@, root as int, i)
                    ==> #[trigger] final(self)@[i] == old(self)@[i],
        decreases root,
    {
        proof {
            assert(node_wf(old(self)@[root as int], root as int));
        }
        let n = self.nodes[root];
        let g2 = exec_add_bits(n.gradient, seed);
        self.nodes.set(
            root,
            Node {
                value: n.value,
                gradient: g2,
                operation: n.operation,
                left: n.left,
                right: n.right,
            },
        );
        let ghost t = old(self)@.update(root as int, bump(old(self)@[root as int], seed));
        proof {
            assert(self@ == t);
            assert(same_structure(old(self)@, t));
            lemma_same_structure_wf(old(self)@, t);
        }
        match n.operation {
            None => {},
            Some(Operation::Add) => {
                let l = n.left.unwrap();
                let r = n.right.unwrap();
                self.backward(l, seed);
                proof {
                    lemma_backward_structure(t, l as int, seed);
                    lemma_same_structure_wf(t, self@);
                }
                self.backward(r, seed);
            },
            Some(Operation::Mul) => {
                let l = n.left.unwrap();
                let r = n.right.unwrap();
                let lv = self.nodes[l].value;
                let rv = self.nodes[r].value;
                proof {
                    assert(lv == old(self)@[l as int].value);
                    assert(rv == old(self)@[r as int].value);
                }
                let gl = exec_mul_bits(seed, rv);
                let gr = exec_mul_bits(seed, lv);
                self.backward(l, gl);
                proof {
                    lemma_backward_structure(t, l as int, gl);
                    lemma_same_structure_wf(t, self@);
                }
                self.backward(r, gr);
            },
            Some(Operation::Tanh) => {
                let l = n.left.unwrap();
                let sq = exec_mul_bits(n.value, n.value);
                let factor = exec_sub_bits(ONE_BITS, sq);
                let gl = exec_mul_bits(seed, factor);
                proof {
                    assert(gl == mul_bits(seed, tanh_factor(old(self)@[root as int].value)));
                }
                self.backward(l, gl);
            },
        }
        proof {
            assert(self@ == backward_spec(old(self)@, root as int, seed));
            lemma_backward_structure(old(self)@, root as int, seed);
            lemma_same_structure_wf(old(self)@, self@);
            if consistent(old(self)@) {
                lemma_same_structure_consistent(old(self)@, self@);
            }
            assert forall|i: int|
                0 <= i < old(self)@.len() && !reaches(old(self)@, root as int, i)
                    implies #[trigger] self@[i] == old(self)@[i] by {
                lemma_backward_frame(old(self)@, root as int, seed, i);
            }
        }
    }
}

} // verus!
