//! The mathematical model of a node arena: the structural invariants of a
//! reduced ordered BDD and the boolean function each node denotes.

use vstd::prelude::*;

verus! {

/// One entry of the node arena.  Identities are indices into the arena:
/// identity 0 is the false terminal, identity 1 the true terminal, and every
/// further entry is an internal node whose children were created before it.
#[derive(Clone, Copy, Debug)]
pub enum Node {
    False,
    True,
    Internal { var: usize, lo: usize, hi: usize },
}

/// Rank of node `i`: the variable it tests.  Terminals rank after every
/// declared variable, so along any root-to-leaf path ranks strictly increase.
pub open spec fn rank(nodes: Seq<Node>, nv: nat, i: int) -> int {
    match nodes[i] {
        Node::Internal { var, lo, hi } => var as int,
        _ => nv + 1 as int,
    }
}

/// A child is a terminal or an internal node testing a strictly later
/// variable.
pub open spec fn child_ok(nodes: Seq<Node>, var: int, c: int) -> bool {
    match nodes[c] {
        Node::Internal { var: cv, lo, hi } => var < cv as int,
        _ => true,
    }
}

/// Structural soundness of arena entry `i`: terminals sit at identities 0 and
/// 1 only, and an internal node tests a declared variable and has two
/// distinct, earlier-created children, each a terminal or testing a strictly
/// greater variable (the ordering and reducedness invariants).
pub open spec fn node_ok(nodes: Seq<Node>, nv: nat, i: int) -> bool {
    match nodes[i] {
        Node::False => i == 0,
        Node::True => i == 1,
        Node::Internal { var, lo, hi } => {
            &&& 2 <= i
            &&& 1 <= var as int <= nv
            &&& (lo as int) < i
            &&& (hi as int) < i
            &&& lo != hi
            &&& child_ok(nodes, var as int, lo as int)
            &&& child_ok(nodes, var as int, hi as int)
        },
    }
}

/// The arena starts with the two terminals and every entry is structurally
/// sound.
pub open spec fn shaped(nodes: Seq<Node>, nv: nat) -> bool {
    &&& nodes.len() >= 2
    &&& nodes[0] == Node::False
    &&& nodes[1] == Node::True
    &&& forall|i: int| 0 <= i < nodes.len() ==> #[trigger] node_ok(nodes, nv, i)
}

/// Canonicity: no two distinct arena entries hold the same content.  For
/// internal nodes this says no triple is ever duplicated; terminals are
/// already pinned to identities 0 and 1 by `node_ok`.
pub open spec fn canonical(nodes: Seq<Node>) -> bool {
    forall|i: int, j: int|
        0 <= i < nodes.len() && 0 <= j < nodes.len() && i != j ==> #[trigger] nodes[i]
            != #[trigger] nodes[j]
}

/// The full arena invariant of a reduced ordered BDD store.
pub open spec fn wf(nodes: Seq<Node>, nv: nat) -> bool {
    shaped(nodes, nv) && canonical(nodes)
}

/// `n2` extends `n1`: the arena only ever grows, existing entries never
/// change.
pub open spec fn grows_from(n2: Seq<Node>, n1: Seq<Node>) -> bool {
    n1.len() <= n2.len() && forall|i: int| 0 <= i < n1.len() ==> n2[i] == n1[i]
}

/// The boolean function node `i` denotes under assignment `a`, where
/// `a[v - 1]` is the value given to the variable of rank `v`.
pub open spec fn evals(nodes: Seq<Node>, i: int, a: Seq<bool>) -> bool
    decreases i,
{
    match nodes[i] {
        Node::False => false,
        Node::True => true,
        Node::Internal { var, lo, hi } => {
            if 0 <= (lo as int) < i && 0 <= (hi as int) < i {
                if a[var - 1] {
                    evals(nodes, hi as int, a)
                } else {
                    evals(nodes, lo as int, a)
                }
            } else {
                false
            }
        },
    }
}

/// Evaluation only looks at entries up to `i`, so appending nodes to the
/// arena never changes the function an existing node denotes.
pub proof fn lemma_evals_grow(n1: Seq<Node>, n2: Seq<Node>, i: int, a: Seq<bool>)
    requires
        grows_from(n2, n1),
        0 <= i < n1.len(),
    ensures
        evals(n2, i, a) == evals(n1, i, a),
    decreases i,
{
    match n1[i] {
        Node::Internal { var, lo, hi } => {
            if 0 <= (lo as int) < i && 0 <= (hi as int) < i {
                lemma_evals_grow(n1, n2, lo as int, a);
                lemma_evals_grow(n1, n2, hi as int, a);
            }
        },
        _ => {},
    }
}

/// Evaluation of node `i` reads no assignment position below `rank(i) - 1`:
/// variables ordered before a node never influence the function it denotes.
pub proof fn lemma_evals_agree(nodes: Seq<Node>, nv: nat, i: int, a: Seq<bool>, b: Seq<bool>)
    requires
        shaped(nodes, nv),
        0 <= i < nodes.len(),
        a.len() == nv,
        b.len() == nv,
        forall|k: int| rank(nodes, nv, i) - 1 <= k < nv ==> a[k] == b[k],
    ensures
        evals(nodes, i, a) == evals(nodes, i, b),
    decreases i,
{
    match nodes[i] {
        Node::Internal { var, lo, hi } => {
            assert(node_ok(nodes, nv, i));
            lemma_evals_agree(nodes, nv, lo as int, a, b);
            lemma_evals_agree(nodes, nv, hi as int, a, b);
        },
        _ => {},
    }
}

} // verus!
