//! The per-operation behaviour of backward propagation, proved once and for
//! all over `backward_spec`, which `Tape::backward` is proved to implement
//! exactly.
//!
//! Each law states how one propagation step changes the accumulated
//! gradients of the root's operands, for any tape and any incoming
//! contribution. The binary laws ask that the two operands be distinct and
//! that neither depend on the other: when the operands share structure, the
//! recursion reaches an operand along more than one path and its gradient
//! grows by more than its own edge's share.

use vstd::prelude::*;
use crate::scalar::add_bits;
use crate::scalar::mul_bits;
use crate::tape::Node;
use crate::tape::Operation;
use crate::tape::backward_spec;
use crate::tape::bump;
use crate::tape::lemma_backward_frame;
use crate::tape::lemma_backward_root;
use crate::tape::lemma_backward_structure;
use crate::tape::lemma_reaches_structural;
use crate::tape::lemma_same_structure_trans;
use crate::tape::node_wf;
use crate::tape::reaches;
use crate::tape::same_structure;
use crate::tape::tanh_factor;
use crate::tape::wf;

verus! {

/// Addition gradient rule: propagation from a node `c = a + b` whose
/// operands are distinct and independent of each other grows each operand's
/// gradient by exactly the incoming contribution `g`.
pub proof fn lemma_add_gradient(s: Seq<Node>, c: int, a: usize, b: usize, g: u64)
    requires
        wf(s),
        0 <= c < s.len(),
        s[c].operation == Some(Operation::Add),
        s[c].left == Some(a),
        s[c].right == Some(b),
        a != b,
        !reaches(s, a as int, b as int),
        !reaches(s, b as int, a as int),
    ensures
        backward_spec(s, c, g)[a as int].gradient == add_bits(s[a as int].gradient, g),
        backward_spec(s, c, g)[b as int].gradient == add_bits(s[b as int].gradient, g),
{
    lemma_binary_gradient(s, c, a, b, g, g, g);
}

/// Multiplication gradient rule: propagation from a node `c = a * b` whose
/// operands are distinct and independent of each other grows the gradient of
/// `a` by exactly `g` times the stored value of `b`, and the gradient of `b`
/// by exactly `g` times the stored value of `a`.
pub proof fn lemma_mul_gradient(s: Seq<Node>, c: int, a: usize, b: usize, g: u64)
    requires
        wf(s),
        0 <= c < s.len(),
        s[c].operation == Some(Operation::Mul),
        s[c].left == Some(a),
        s[c].right == Some(b),
        a != b,
        !reaches(s, a as int, b as int),
        !reaches(s, b as int, a as int),
    ensures
        backward_spec(s, c, g)[a as int].gradient == add_bits(
            s[a as int].gradient,
            mul_bits(g, s[b as int].value),
        ),
        backward_spec(s, c, g)[b as int].gradient == add_bits(
            s[b as int].gradient,
            mul_bits(g, s[a as int].value),
        ),
{
    lemma_binary_gradient(
        s,
        c,
        a,
        b,
        g,
        mul_bits(g, s[b as int].value),
        mul_bits(g, s[a as int].value),
    );
}

/// Hyperbolic-tangent gradient rule: propagation from a node `c = tanh(a)`
/// grows the gradient of `a` by exactly `g` times one minus the square of
/// the node's own recorded output.
pub proof fn lemma_tanh_gradient(s: Seq<Node>, c: int, a: usize, g: u64)
    requires
        wf(s),
        0 <= c < s.len(),
        s[c].operation == Some(Operation::Tanh),
        s[c].left == Some(a),
    ensures
        backward_spec(s, c, g)[a as int].gradient == add_bits(
            s[a as int].gradient,
            mul_bits(g, tanh_factor(s[c].value)),
        ),
{
    assert(node_wf(s[c], c));
    let n = s[c];
    let t = s.update(c, bump(n, g));
    let gl = mul_bits(g, tanh_factor(n.value));
    assert(t[a as int] == s[a as int]);
    lemma_backward_root(t, a as int, gl);
    assert(backward_spec(s, c, g) == backward_spec(t, a as int, gl));
}

/// Self-reference accumulation: propagation from a node `c = a + a`, whose
/// two operand edges lead to the same node, grows the gradient of `a` by the
/// incoming contribution twice, once per edge.
pub proof fn lemma_self_add_gradient(s: Seq<Node>, c: int, a: usize, g: u64)
    requires
        wf(s),
        0 <= c < s.len(),
        s[c].operation == Some(Operation::Add),
        s[c].left == Some(a),
        s[c].right == Some(a),
    ensures
        backward_spec(s, c, g)[a as int].gradient == add_bits(
            add_bits(s[a as int].gradient, g),
            g,
        ),
{
    assert(node_wf(s[c], c));
    let n = s[c];
    let t = s.update(c, bump(n, g));
    let t1 = backward_spec(t, a as int, g);
    assert(t[a as int] == s[a as int]);
    lemma_backward_root(t, a as int, g);
    lemma_backward_structure(t, a as int, g);
    lemma_backward_root(t1, a as int, g);
    assert(backward_spec(s, c, g) == backward_spec(t1, a as int, g));
}

/// Leaf termination: propagation into a leaf accumulates the incoming
/// contribution into that node's gradient and recurses nowhere, so every
/// other node is left entirely unchanged.
pub proof fn lemma_leaf_backward(s: Seq<Node>, root: int, g: u64)
    requires
        0 <= root < s.len(),
        s[root].operation is None,
    ensures
        backward_spec(s, root, g) == s.update(root, bump(s[root], g)),
        backward_spec(s, root, g)[root].gradient == add_bits(s[root].gradient, g),
        forall|i: int|
            0 <= i < s.len() && i != root ==> #[trigger] backward_spec(s, root, g)[i] == s[i],
{
    assert(backward_spec(s, root, g) == s.update(root, bump(s[root], g)));
}

/// The shared argument for the two binary operators: the left operand
/// receives the contribution `gl`, the right operand `gr`, and with the
/// operands distinct and independent each is reached along its own edge
/// alone, so each gradient grows exactly once.
proof fn lemma_binary_gradient(s: Seq<Node>, c: int, a: usize, b: usize, g: u64, gl: u64, gr: u64)
    requires
        wf(s),
        0 <= c < s.len(),
        s[c].left == Some(a),
        s[c].right == Some(b),
        a != b,
        !reaches(s, a as int, b as int),
        !reaches(s, b as int, a as int),
        (s[c].operation == Some(Operation::Add) && gl == g && gr == g) || (s[c].operation
            == Some(Operation::Mul) && gl == mul_bits(g, s[b as int].value) && gr == mul_bits(
            g,
            s[a as int].value,
        )),
    ensures
        backward_spec(s, c, g)[a as int].gradient == add_bits(s[a as int].gradient, gl),
        backward_spec(s, c, g)[b as int].gradient == add_bits(s[b as int].gradient, gr),
{
    assert(node_wf(s[c], c));
    let n = s[c];
    let t = s.update(c, bump(n, g));
    assert(same_structure(s, t));
    let t1 = backward_spec(t, a as int, gl);
    let t2 = backward_spec(t1, b as int, gr);
    assert(backward_spec(s, c, g) == t2);
    assert(t[a as int] == s[a as int]);
    lemma_backward_root(t, a as int, gl);
    lemma_backward_structure(t, a as int, gl);
    lemma_same_structure_trans(s, t, t1);
    lemma_reaches_structural(s, t1, b as int, a as int);
    lemma_backward_frame(t1, b as int, gr, a as int);
    assert(t[b as int] == s[b as int]);
    lemma_reaches_structural(s, t, a as int, b as int);
    lemma_backward_frame(t, a as int, gl, b as int);
    lemma_backward_root(t1, b as int, gr);
}

} // verus!
