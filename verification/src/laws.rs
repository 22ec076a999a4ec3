//! The laws a manager guarantees: uniqueness of triples and full ROBDD
//! canonicity — two handles denoting the same boolean function are the very
//! same handle.  The boolean-algebra identities (De Morgan, distributivity,
//! double negation) at handle level follow from canonicity together with the
//! semantic contracts of the derived operators.

use vstd::prelude::*;

use crate::bdd::{BDD, BDDManager};
use crate::counting::reach;
use crate::semantics::{evals, lemma_evals_agree, node_ok, rank, wf, Node};

verus! {

/// Canonicity of the arena: no two distinct entries of a well-formed store
/// hold the same content, so a `(variable, low, high)` triple ever handed to
/// `mk` names at most one node for the manager's whole lifetime.
pub proof fn lemma_unique_triple(nodes: Seq<Node>, nv: nat, i: int, j: int)
    requires
        wf(nodes, nv),
        0 <= i < nodes.len(),
        0 <= j < nodes.len(),
        nodes[i] == nodes[j],
    ensures
        i == j,
{
}

/// Canonicity for an ordered pair of identities: the inductive core of
/// `lemma_sem_canonical`.
proof fn lemma_canonical_ordered(nodes: Seq<Node>, nv: nat, i: int, j: int)
    requires
        wf(nodes, nv),
        0 <= j <= i < nodes.len(),
        forall|a: Seq<bool>|
            a.len() == nv ==> #[trigger] evals(nodes, i, a) == evals(nodes, j, a),
    ensures
        i == j,
    decreases i,
{
    if i == j {
        return ;
    }
    assert(node_ok(nodes, nv, i));
    assert(node_ok(nodes, nv, j));
    if i < 2 {
        // two distinct terminals differ on every assignment
        let a0 = Seq::new(nv, |k: int| false);
        assert(evals(nodes, i, a0) == evals(nodes, j, a0));
        assert(false);
    } else {
        match nodes[i] {
            Node::Internal { var: vi, lo: li, hi: ih } => {
                // the two children of i denote different functions: were they
                // equal, induction would merge them against reducedness
                assert(exists|a: Seq<bool>|
                    a.len() == nv && #[trigger] evals(nodes, li as int, a) != evals(
                        nodes,
                        ih as int,
                        a,
                    )) by {
                    if forall|a: Seq<bool>|
                        a.len() == nv ==> #[trigger] evals(nodes, li as int, a) == evals(
                        nodes,
                        ih as int,
                        a,
                    ) {
                        if li >= ih {
                            lemma_canonical_ordered(nodes, nv, li as int, ih as int);
                        } else {
                            assert forall|a: Seq<bool>| a.len() == nv implies #[trigger] evals(
                                nodes,
                                ih as int,
                                a,
                            ) == evals(nodes, li as int, a) by {
                                assert(evals(nodes, li as int, a) == evals(nodes, ih as int, a));
                            }
                            lemma_canonical_ordered(nodes, nv, ih as int, li as int);
                        }
                        assert(false);
                    }
                }
                let aw = choose|a: Seq<bool>|
                    a.len() == nv && #[trigger] evals(nodes, li as int, a) != evals(
                        nodes,
                        ih as int,
                        a,
                    );
                if rank(nodes, nv, j) > vi as int {
                    // j never reads the variable i tests, yet i's value flips
                    // with it at the witness: contradiction
                    let a0 = aw.update(vi - 1, false);
                    let a1 = aw.update(vi - 1, true);
                    lemma_evals_agree(nodes, nv, li as int, a0, aw);
                    lemma_evals_agree(nodes, nv, ih as int, a1, aw);
                    assert(evals(nodes, i, a0) == evals(nodes, li as int, a0));
                    assert(evals(nodes, i, a1) == evals(nodes, ih as int, a1));
                    lemma_evals_agree(nodes, nv, j, a0, a1);
                    assert(evals(nodes, i, a0) == evals(nodes, j, a0));
                    assert(evals(nodes, i, a1) == evals(nodes, j, a1));
                    assert(false);
                } else {
                    match nodes[j] {
                        Node::Internal { var: vj, lo: lj, hi: jh } => {
                            if vj == vi {
                                // equal variables force equal cofactors, and
                                // induction plus canonicity force i == j
                                assert forall|a: Seq<bool>| a.len() == nv implies #[trigger] evals(
                                    nodes,
                                    li as int,
                                    a,
                                ) == evals(nodes, lj as int, a) by {
                                    let a0 = a.update(vi - 1, false);
                                    lemma_evals_agree(nodes, nv, li as int, a0, a);
                                    lemma_evals_agree(nodes, nv, lj as int, a0, a);
                                    assert(evals(nodes, i, a0) == evals(nodes, li as int, a0));
                                    assert(evals(nodes, j, a0) == evals(nodes, lj as int, a0));
                                    assert(evals(nodes, i, a0) == evals(nodes, j, a0));
                                }
                                assert forall|a: Seq<bool>| a.len() == nv implies #[trigger] evals(
                                    nodes,
                                    ih as int,
                                    a,
                                ) == evals(nodes, jh as int, a) by {
                                    let a1 = a.update(vi - 1, true);
                                    lemma_evals_agree(nodes, nv, ih as int, a1, a);
                                    lemma_evals_agree(nodes, nv, jh as int, a1, a);
                                    assert(evals(nodes, i, a1) == evals(nodes, ih as int, a1));
                                    assert(evals(nodes, j, a1) == evals(nodes, jh as int, a1));
                                    assert(evals(nodes, i, a1) == evals(nodes, j, a1));
                                }
                                if li >= lj {
                                    lemma_canonical_ordered(nodes, nv, li as int, lj as int);
                                } else {
                                    assert forall|a: Seq<bool>| a.len() == nv implies #[trigger] evals(
                                        nodes,
                                        lj as int,
                                        a,
                                    ) == evals(nodes, li as int, a) by {
                                        assert(evals(nodes, li as int, a) == evals(
                                            nodes,
                                            lj as int,
                                            a,
                                        ));
                                    }
                                    lemma_canonical_ordered(nodes, nv, lj as int, li as int);
                                }
                                if ih >= jh {
                                    lemma_canonical_ordered(nodes, nv, ih as int, jh as int);
                                } else {
                                    assert forall|a: Seq<bool>| a.len() == nv implies #[trigger] evals(
                                        nodes,
                                        jh as int,
                                        a,
                                    ) == evals(nodes, ih as int, a) by {
                                        assert(evals(nodes, ih as int, a) == evals(
                                            nodes,
                                            jh as int,
                                            a,
                                        ));
                                    }
                                    lemma_canonical_ordered(nodes, nv, jh as int, ih as int);
                                }
                                assert(nodes[i] == nodes[j]);
                                assert(false);
                            } else {
                                // vj < vi: i never reads the variable j tests,
                                // yet j's value flips with it at a witness of
                                // its own (its children differ by induction)
                                assert(exists|a: Seq<bool>|
                                    a.len() == nv && #[trigger] evals(nodes, lj as int, a)
                                        != evals(nodes, jh as int, a)) by {
                                    if forall|a: Seq<bool>|
                                        a.len() == nv ==> #[trigger] evals(nodes, lj as int, a)
                                            == evals(nodes, jh as int, a) {
                                        if lj >= jh {
                                            lemma_canonical_ordered(
                                                nodes,
                                                nv,
                                                lj as int,
                                                jh as int,
                                            );
                                        } else {
                                            assert forall|a: Seq<bool>|
                                                a.len() == nv implies #[trigger] evals(
                                                nodes,
                                                jh as int,
                                                a,
                                            ) == evals(nodes, lj as int, a) by {
                                                assert(evals(nodes, lj as int, a) == evals(
                                                    nodes,
                                                    jh as int,
                                                    a,
                                                ));
                                            }
                                            lemma_canonical_ordered(
                                                nodes,
                                                nv,
                                                jh as int,
                                                lj as int,
                                            );
                                        }
                                        assert(false);
                                    }
                                }
                                let aw2 = choose|a: Seq<bool>|
                                    a.len() == nv && #[trigger] evals(nodes, lj as int, a)
                                        != evals(nodes, jh as int, a);
                                let a0 = aw2.update(vj - 1, false);
                                let a1 = aw2.update(vj - 1, true);
                                lemma_evals_agree(nodes, nv, lj as int, a0, aw2);
                                lemma_evals_agree(nodes, nv, jh as int, a1, aw2);
                                assert(evals(nodes, j, a0) == evals(nodes, lj as int, a0));
                                assert(evals(nodes, j, a1) == evals(nodes, jh as int, a1));
                                lemma_evals_agree(nodes, nv, i, a0, a1);
                                assert(evals(nodes, i, a0) == evals(nodes, j, a0));
                                assert(evals(nodes, i, a1) == evals(nodes, j, a1));
                                assert(false);
                            }
                        },
                        _ => {
                            // a terminal ranks after every variable, above vi
                            assert(false);
                        },
                    }
                }
            },
            _ => {
                assert(false);
            },
        }
    }
}

/// ROBDD canonicity: two handles of one well-formed manager that denote the
/// same boolean function over its declared variables are the very same
/// handle.  In particular a function re-derived through any other operator
/// sequence — `NOT(NOT(x))`, both sides of a De Morgan identity or of a
/// distributivity identity — comes back with the identical identity.
pub proof fn lemma_sem_canonical(m: BDDManager, x: BDD, y: BDD)
    requires
        m.inv(),
        m.valid(x),
        m.valid(y),
        forall|a: Seq<bool>| a.len() == m.n_vars() ==> #[trigger] m.sem(x, a) == m.sem(y, a),
    ensures
        x == y,
{
    if x.id >= y.id {
        assert forall|a: Seq<bool>| a.len() == m.n_vars() implies #[trigger] evals(
            m.nodes@,
            x.id as int,
            a,
        ) == evals(m.nodes@, y.id as int, a) by {
            assert(m.sem(x, a) == m.sem(y, a));
        }
        lemma_canonical_ordered(m.nodes@, m.n_vars(), x.id as int, y.id as int);
    } else {
        assert forall|a: Seq<bool>| a.len() == m.n_vars() implies #[trigger] evals(
            m.nodes@,
            y.id as int,
            a,
        ) == evals(m.nodes@, x.id as int, a) by {
            assert(m.sem(x, a) == m.sem(y, a));
        }
        lemma_canonical_ordered(m.nodes@, m.n_vars(), y.id as int, x.id as int);
    }
}

/// The reachable-node count is invariant under re-deriving an equal
/// function: by canonicity the handles coincide, so they reach the very
/// same nodes.
pub proof fn lemma_rederive_same_nodes(m: BDDManager, x: BDD, y: BDD)
    requires
        m.inv(),
        m.valid(x),
        m.valid(y),
        forall|a: Seq<bool>| a.len() == m.n_vars() ==> #[trigger] m.sem(x, a) == m.sem(y, a),
    ensures
        x == y,
        reach(m.nodes@, x.id as int) == reach(m.nodes@, y.id as int),
{
    lemma_sem_canonical(m, x, y);
}

} // verus!
