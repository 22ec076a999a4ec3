//! The two analytic queries over a BDD: the satisfying-assignment count and
//! the reachable-node count, each with its mathematical specification.

use vstd::prelude::*;

use vstd::arithmetic::mul::{lemma_mul_inequality, lemma_mul_is_associative, lemma_mul_is_commutative};
use vstd::arithmetic::power2::pow2;
use vstd::arithmetic::power2::{
    lemma2_to64,
    lemma2_to64_rest,
    lemma_pow2_adds,
    lemma_pow2_pos,
    lemma_pow2_strictly_increases,
    lemma_pow2_unfold,
};
use vstd::relations::injective_on;
use vstd::set_lib::{
    lemma_int_range,
    lemma_len_subset,
    lemma_map_size,
    lemma_set_disjoint_lens,
    set_int_range,
};

use crate::bdd::{BDD, BDDManager};
use crate::semantics::{evals, node_ok, rank, shaped, Node};

verus! {

/// The number of assignments to the variables of ranks `r ..= nv` under
/// which node `i` evaluates true, for a node ranked at or after `r`: a
/// variable ordered before the node's own rank is unconstrained and doubles
/// the count, an internal node at rank `r` splits into its two cofactors.
pub open spec fn count_from(nodes: Seq<Node>, nv: nat, i: int, r: int) -> nat
    decreases nv + 1 - r,
{
    if r > nv {
        if nodes[i] == Node::True {
            1nat
        } else {
            0nat
        }
    } else if rank(nodes, nv, i) > r {
        2 * count_from(nodes, nv, i, r + 1)
    } else {
        match nodes[i] {
            Node::Internal { var, lo, hi } => count_from(nodes, nv, lo as int, r + 1)
                + count_from(nodes, nv, hi as int, r + 1),
            _ => 0nat,
        }
    }
}

/// At most `2^(nv + 1 - r)` assignments to ranks `r ..= nv` exist at all.
pub proof fn lemma_count_bound(nodes: Seq<Node>, nv: nat, i: int, r: int)
    requires
        shaped(nodes, nv),
        0 <= i < nodes.len(),
        1 <= r <= nv + 1,
        rank(nodes, nv, i) >= r,
    ensures
        count_from(nodes, nv, i, r) <= pow2((nv + 1 - r) as nat),
    decreases nv + 1 - r,
{
    assert(node_ok(nodes, nv, i));
    if r > nv {
        lemma2_to64();
    } else if rank(nodes, nv, i) > r {
        lemma_count_bound(nodes, nv, i, r + 1);
        lemma_pow2_unfold((nv + 1 - r) as nat);
    } else {
        match nodes[i] {
            Node::Internal { var, lo, hi } => {
                lemma_count_bound(nodes, nv, lo as int, r + 1);
                lemma_count_bound(nodes, nv, hi as int, r + 1);
                lemma_pow2_unfold((nv + 1 - r) as nat);
            },
            _ => {
                lemma_pow2_pos((nv + 1 - r) as nat);
            },
        }
    }
}

/// Counting from an earlier rank only doubles once per variable skipped
/// before the node's own rank.
pub proof fn lemma_count_scale(nodes: Seq<Node>, nv: nat, i: int, r: int)
    requires
        shaped(nodes, nv),
        0 <= i < nodes.len(),
        1 <= r <= rank(nodes, nv, i),
        rank(nodes, nv, i) <= nv + 1,
    ensures
        count_from(nodes, nv, i, r) == pow2((rank(nodes, nv, i) - r) as nat) * count_from(
            nodes,
            nv,
            i,
            rank(nodes, nv, i),
        ),
    decreases rank(nodes, nv, i) - r,
{
    let rk = rank(nodes, nv, i);
    if r == rk {
        lemma2_to64();
        assert(pow2((rk - r) as nat) == 1);
        assert(count_from(nodes, nv, i, r) == pow2((rk - r) as nat) * count_from(
            nodes,
            nv,
            i,
            rk,
        ));
    } else {
        lemma_count_scale(nodes, nv, i, r + 1);
        let c = count_from(nodes, nv, i, rk);
        let p = pow2((rk - r - 1) as nat);
        assert(count_from(nodes, nv, i, r) == 2 * count_from(nodes, nv, i, r + 1));
        assert(count_from(nodes, nv, i, r + 1) == p * c);
        lemma_pow2_unfold((rk - r) as nat);
        assert(pow2((rk - r) as nat) == 2 * p);
        assert(2 * (p * c) == (2 * p) * c) by {
            lemma_mul_is_associative(2, p as int, c as int);
        }
        assert(count_from(nodes, nv, i, r) == (2 * p) * c);
        vstd::arithmetic::mul::lemma_mul_nonnegative(pow2((rk - r) as nat) as int, c as int);
        assert(count_from(nodes, nv, i, r) == pow2((rk - r) as nat) * c);
    }
}

/// The constant-true node counts every assignment: `2^(nv + 1 - r)` of them
/// from rank `r` on.
pub proof fn lemma_count_true(nodes: Seq<Node>, nv: nat, r: int)
    requires
        shaped(nodes, nv),
        1 <= r <= nv + 1,
    ensures
        count_from(nodes, nv, 1, r) == pow2((nv + 1 - r) as nat),
    decreases nv + 1 - r,
{
    assert(nodes[1] == Node::True);
    if r > nv {
        lemma2_to64();
    } else {
        lemma_count_true(nodes, nv, r + 1);
        lemma_pow2_unfold((nv + 1 - r) as nat);
    }
}

/// The constant-false node counts no assignment at all.
pub proof fn lemma_count_false(nodes: Seq<Node>, nv: nat, r: int)
    requires
        shaped(nodes, nv),
        1 <= r <= nv + 1,
    ensures
        count_from(nodes, nv, 0, r) == 0,
    decreases nv + 1 - r,
{
    assert(nodes[0] == Node::False);
    if r > nv {
    } else {
        lemma_count_false(nodes, nv, r + 1);
    }
}

/// Multiplies by a power of two, by repeated doubling.
fn times_pow2(x: u64, k: u32) -> (r: u64)
    requires
        (x as nat) * pow2(k as nat) <= u64::MAX,
    ensures
        r as nat == (x as nat) * pow2(k as nat),
{
    let mut r = x;
    let mut j: u32 = 0;
    proof {
        lemma2_to64();
    }
    while j < k
        invariant
            j <= k,
            (x as nat) * pow2(k as nat) <= u64::MAX,
            r as nat == (x as nat) * pow2(j as nat),
        decreases k - j,
    {
        proof {
            lemma_pow2_unfold((j + 1) as nat);
            if j + 1 < k {
                lemma_pow2_strictly_increases((j + 1) as nat, k as nat);
            }
            assert(pow2((j + 1) as nat) <= pow2(k as nat));
            assert((x as nat) * pow2((j + 1) as nat) <= (x as nat) * pow2(k as nat)) by {
                lemma_mul_inequality(
                    pow2((j + 1) as nat) as int,
                    pow2(k as nat) as int,
                    x as int,
                );
                lemma_mul_is_commutative(x as int, pow2((j + 1) as nat) as int);
                lemma_mul_is_commutative(x as int, pow2(k as nat) as int);
            }
            assert((x as nat) * pow2((j + 1) as nat) == 2 * ((x as nat) * pow2(j as nat))) by {
                lemma_mul_is_associative(x as int, 2, pow2(j as nat) as int);
                lemma_mul_is_associative(2, x as int, pow2(j as nat) as int);
                lemma_mul_is_commutative(x as int, 2);
            }
        }
        r = r * 2;
        j = j + 1;
    }
    r
}

/// The rank of a node for the counting recursion, with terminals ranked
/// `var_num + 1`.
fn rank_at(mgr: &BDDManager, i: usize, var_num: u32) -> (r: u32)
    requires
        mgr.inv(),
        i < mgr.nodes@.len(),
        var_num as nat == mgr.n_vars(),
        var_num <= 63,
    ensures
        r as int == rank(mgr.nodes@, mgr.n_vars(), i as int),
        1 <= r <= var_num + 1,
{
    proof {
        assert(node_ok(mgr.nodes@, mgr.n_vars(), i as int));
    }
    match mgr.nodes[i] {
        Node::Internal { var, lo, hi } => var as u32,
        _ => var_num + 1,
    }
}

/// Tabulates, bottom up over the arena prefix below `upto`, the number of
/// assignments to the ranks at and after each node's own rank under which
/// that node evaluates true.  Children always sit below their parents, so
/// each shared node is computed exactly once.
fn count_table(mgr: &BDDManager, upto: usize, var_num: u32) -> (t: Vec<u64>)
    requires
        mgr.inv(),
        upto <= mgr.nodes@.len(),
        var_num as nat == mgr.n_vars(),
        var_num <= 63,
    ensures
        t@.len() == upto,
        forall|j: int|
            0 <= j < upto ==> #[trigger] t@[j] as nat == count_from(
                mgr.nodes@,
                mgr.n_vars(),
                j,
                rank(mgr.nodes@, mgr.n_vars(), j),
            ),
{
    let ghost nodes = mgr.nodes@;
    let ghost nv = mgr.n_vars();
    let mut t: Vec<u64> = Vec::new();
    let mut i: usize = 0;
    while i < upto
        invariant
            mgr.inv(),
            upto <= mgr.nodes@.len(),
            var_num as nat == mgr.n_vars(),
            var_num <= 63,
            nodes == mgr.nodes@,
            nv == mgr.n_vars(),
            i <= upto,
            t@.len() == i,
            forall|j: int|
                0 <= j < i ==> #[trigger] t@[j] as nat == count_from(
                    mgr.nodes@,
                    mgr.n_vars(),
                    j,
                    rank(mgr.nodes@, mgr.n_vars(), j),
                ),
        decreases upto - i,
    {
        proof {
            assert(node_ok(nodes, nv, i as int));
        }
        let entry: u64 = match mgr.nodes[i] {
            Node::False => 0,
            Node::True => 1,
            Node::Internal { var, lo, hi } => {
                let clo = t[lo];
                let chi = t[hi];
                let rlo = rank_at(mgr, lo, var_num);
                let rhi = rank_at(mgr, hi, var_num);
                let v = var as u32;
            proof {
                assert(node_ok(nodes, nv, lo as int));
                assert(node_ok(nodes, nv, hi as int));
                lemma_count_scale(nodes, nv, lo as int, var as int + 1);
                lemma_count_scale(nodes, nv, hi as int, var as int + 1);
                lemma_count_bound(nodes, nv, lo as int, rlo as int);
                lemma_count_bound(nodes, nv, hi as int, rhi as int);
                let skip: nat = (nv - v) as nat;
                assert(pow2(skip) <= 0x4000_0000_0000_0000) by {
                    if skip < 62 {
                        lemma_pow2_strictly_increases(skip, 62);
                    }
                    lemma2_to64();
                    lemma2_to64_rest();
                }
                // each scaled cofactor count stays below `2^(nv - var)`
                lemma_pow2_adds((rlo - v - 1) as nat, (nv + 1 - rlo) as nat);
                lemma_pow2_adds((rhi - v - 1) as nat, (nv + 1 - rhi) as nat);
                assert((clo as nat) * pow2((rlo - v - 1) as nat) <= pow2(skip)) by {
                    lemma_mul_inequality(
                        clo as int,
                        pow2((nv + 1 - rlo) as nat) as int,
                        pow2((rlo - v - 1) as nat) as int,
                    );
                    lemma_mul_is_commutative(clo as int, pow2((rlo - v - 1) as nat) as int);
                    lemma_mul_is_commutative(
                        pow2((nv + 1 - rlo) as nat) as int,
                        pow2((rlo - v - 1) as nat) as int,
                    );
                }
                assert((chi as nat) * pow2((rhi - v - 1) as nat) <= pow2(skip)) by {
                    lemma_mul_inequality(
                        chi as int,
                        pow2((nv + 1 - rhi) as nat) as int,
                        pow2((rhi - v - 1) as nat) as int,
                    );
                    lemma_mul_is_commutative(chi as int, pow2((rhi - v - 1) as nat) as int);
                    lemma_mul_is_commutative(
                        pow2((nv + 1 - rhi) as nat) as int,
                        pow2((rhi - v - 1) as nat) as int,
                    );
                }
                assert(pow2((rlo - v - 1) as nat) * (clo as nat) == (clo as nat) * pow2(
                    (rlo - v - 1) as nat,
                )) by {
                    lemma_mul_is_commutative(clo as int, pow2((rlo - v - 1) as nat) as int);
                }
                assert(pow2((rhi - v - 1) as nat) * (chi as nat) == (chi as nat) * pow2(
                    (rhi - v - 1) as nat,
                )) by {
                    lemma_mul_is_commutative(chi as int, pow2((rhi - v - 1) as nat) as int);
                }
                assert(count_from(nodes, nv, i as int, var as int) == count_from(
                    nodes,
                    nv,
                    lo as int,
                    var as int + 1,
                ) + count_from(nodes, nv, hi as int, var as int + 1));
            }
                let slo = times_pow2(clo, rlo - v - 1);
                let shi = times_pow2(chi, rhi - v - 1);
                slo + shi
            },
        };
        t.push(entry);
        i = i + 1;
    }
    t
}

/// Evaluation of node `i` over a suffix assignment `b` that gives the
/// values of the variables of ranks `r ..= nv`: `b[v - r]` is the value
/// given to the variable of rank `v`.
pub open spec fn evals_from(nodes: Seq<Node>, i: int, r: int, b: Seq<bool>) -> bool
    decreases i,
{
    match nodes[i] {
        Node::False => false,
        Node::True => true,
        Node::Internal { var, lo, hi } => {
            if 0 <= (lo as int) < i && 0 <= (hi as int) < i {
                if b[var - r] {
                    evals_from(nodes, hi as int, r, b)
                } else {
                    evals_from(nodes, lo as int, r, b)
                }
            } else {
                false
            }
        },
    }
}

/// From rank 1 the suffix covers every variable, and suffix evaluation is
/// plain evaluation.
pub proof fn lemma_evals_from_full(nodes: Seq<Node>, i: int, a: Seq<bool>)
    requires
        0 <= i,
    ensures
        evals_from(nodes, i, 1, a) == evals(nodes, i, a),
    decreases i,
{
    match nodes[i] {
        Node::Internal { var, lo, hi } => {
            if 0 <= (lo as int) < i && 0 <= (hi as int) < i {
                lemma_evals_from_full(nodes, lo as int, a);
                lemma_evals_from_full(nodes, hi as int, a);
            }
        },
        _ => {},
    }
}

/// A node ranked past `r` never reads the variable of rank `r`, so its
/// suffix evaluation drops the first value of the suffix.
proof fn lemma_evals_from_shift(nodes: Seq<Node>, nv: nat, i: int, r: int, b: Seq<bool>)
    requires
        shaped(nodes, nv),
        0 <= i < nodes.len(),
        1 <= r <= nv,
        rank(nodes, nv, i) > r,
        b.len() == nv + 1 - r,
    ensures
        evals_from(nodes, i, r, b) == evals_from(nodes, i, r + 1, b.subrange(1, b.len() as int)),
    decreases i,
{
    assert(node_ok(nodes, nv, i));
    match nodes[i] {
        Node::Internal { var, lo, hi } => {
            assert(node_ok(nodes, nv, lo as int));
            assert(node_ok(nodes, nv, hi as int));
            lemma_evals_from_shift(nodes, nv, lo as int, r, b);
            lemma_evals_from_shift(nodes, nv, hi as int, r, b);
            assert(b.subrange(1, b.len() as int)[var - r - 1] == b[var - r]);
        },
        _ => {},
    }
}

/// The suffix assignments of ranks `r ..= nv` under which node `i`
/// evaluates true.
pub open spec fn sat_suffixes(nodes: Seq<Node>, nv: nat, i: int, r: int) -> Set<Seq<bool>> {
    Set::new(|b: Seq<bool>| b.len() == nv + 1 - r && evals_from(nodes, i, r, b))
}

/// The suffixes of length `m + 1` passing a test that branches on the first
/// value are counted by the two sets of passing tails: each suffix is one
/// value prepended to a tail, and the two prepend images are disjoint.
proof fn lemma_split_card(s: Set<Seq<bool>>, sl: Set<Seq<bool>>, sh: Set<Seq<bool>>, m: nat)
    requires
        sl.finite(),
        sh.finite(),
        forall|b: Seq<bool>| #[trigger] s.contains(b) <==> b.len() == m + 1 && (if b[0] {
            sh.contains(b.subrange(1, b.len() as int))
        } else {
            sl.contains(b.subrange(1, b.len() as int))
        }),
        forall|b: Seq<bool>| #[trigger] sl.contains(b) ==> b.len() == m,
        forall|b: Seq<bool>| #[trigger] sh.contains(b) ==> b.len() == m,
    ensures
        s.finite(),
        s.len() == sl.len() + sh.len(),
{
    let f0 = |b: Seq<bool>| seq![false] + b;
    let f1 = |b: Seq<bool>| seq![true] + b;
    let img0 = sl.map(f0);
    let img1 = sh.map(f1);
    assert(s =~= img0.union(img1)) by {
        assert forall|b: Seq<bool>| s.contains(b) implies img0.union(img1).contains(b) by {
            let tail = b.subrange(1, b.len() as int);
            if b[0] {
                assert(sh.contains(tail));
                assert(img1.contains(f1(tail)));
                assert(b =~= f1(tail));
            } else {
                assert(sl.contains(tail));
                assert(img0.contains(f0(tail)));
                assert(b =~= f0(tail));
            }
        }
        assert forall|b: Seq<bool>| img0.union(img1).contains(b) implies s.contains(b) by {
            if img0.contains(b) {
                let x = choose|x: Seq<bool>| sl.contains(x) && b == f0(x);
                assert(b.len() == m + 1);
                assert(b[0] == false);
                assert(b.subrange(1, b.len() as int) =~= x);
            } else {
                let x = choose|x: Seq<bool>| sh.contains(x) && b == f1(x);
                assert(b.len() == m + 1);
                assert(b[0] == true);
                assert(b.subrange(1, b.len() as int) =~= x);
            }
        }
    }
    assert(injective_on(f0, sl)) by {
        assert forall|x1: Seq<bool>, x2: Seq<bool>|
            sl.contains(x1) && sl.contains(x2) && #[trigger] f0(x1) == #[trigger] f0(x2)
            implies x1 == x2 by {
            assert(x1.len() == x2.len());
            assert forall|j: int| 0 <= j < x1.len() implies x1[j] == x2[j] by {
                assert((seq![false] + x1)[j + 1] == x1[j]);
                assert((seq![false] + x2)[j + 1] == x2[j]);
            }
            assert(x1 =~= x2);
        }
    }
    assert(injective_on(f1, sh)) by {
        assert forall|x1: Seq<bool>, x2: Seq<bool>|
            sh.contains(x1) && sh.contains(x2) && #[trigger] f1(x1) == #[trigger] f1(x2)
            implies x1 == x2 by {
            assert(x1.len() == x2.len());
            assert forall|j: int| 0 <= j < x1.len() implies x1[j] == x2[j] by {
                assert((seq![true] + x1)[j + 1] == x1[j]);
                assert((seq![true] + x2)[j + 1] == x2[j]);
            }
            assert(x1 =~= x2);
        }
    }
    lemma_map_size(sl, img0, f0);
    lemma_map_size(sh, img1, f1);
    assert(img0.disjoint(img1)) by {
        assert forall|b: Seq<bool>| img0.contains(b) implies !img1.contains(b) by {
            let x = choose|x: Seq<bool>| sl.contains(x) && b == f0(x);
            assert(b[0] == false);
            if img1.contains(b) {
                let x2 = choose|x2: Seq<bool>| sh.contains(x2) && b == f1(x2);
                assert(b[0] == true);
            }
        }
    }
    lemma_set_disjoint_lens(img0, img1);
    assert(img0 + img1 =~= img0.union(img1));
}

/// The recursive count is exact: from rank `r` it is the cardinality of the
/// set of satisfying suffix assignments.
pub proof fn lemma_count_measures_sat(nodes: Seq<Node>, nv: nat, i: int, r: int)
    requires
        shaped(nodes, nv),
        0 <= i < nodes.len(),
        1 <= r <= nv + 1,
        rank(nodes, nv, i) >= r,
    ensures
        sat_suffixes(nodes, nv, i, r).finite(),
        sat_suffixes(nodes, nv, i, r).len() == count_from(nodes, nv, i, r),
    decreases nv + 1 - r,
{
    let s = sat_suffixes(nodes, nv, i, r);
    assert(node_ok(nodes, nv, i));
    if r == nv + 1 {
        if nodes[i] == Node::True {
            assert(s =~= Set::<Seq<bool>>::empty().insert(Seq::<bool>::empty())) by {
                assert forall|b: Seq<bool>| s.contains(b) implies b == Seq::<bool>::empty() by {
                    assert(b =~= Seq::<bool>::empty());
                }
                assert(s.contains(Seq::<bool>::empty()));
            }
            assert(s.len() == 1);
        } else {
            assert(s =~= Set::<Seq<bool>>::empty());
        }
    } else if rank(nodes, nv, i) > r {
        lemma_count_measures_sat(nodes, nv, i, r + 1);
        let s1 = sat_suffixes(nodes, nv, i, r + 1);
        let m: nat = (nv - r) as nat;
        assert forall|b: Seq<bool>| #[trigger] s.contains(b) <==> b.len() == m + 1 && (if b[0] {
            s1.contains(b.subrange(1, b.len() as int))
        } else {
            s1.contains(b.subrange(1, b.len() as int))
        }) by {
            if b.len() == m + 1 {
                lemma_evals_from_shift(nodes, nv, i, r, b);
            }
        }
        lemma_split_card(s, s1, s1, m);
    } else {
        match nodes[i] {
            Node::Internal { var, lo, hi } => {
                lemma_count_measures_sat(nodes, nv, lo as int, r + 1);
                lemma_count_measures_sat(nodes, nv, hi as int, r + 1);
                let sl = sat_suffixes(nodes, nv, lo as int, r + 1);
                let sh = sat_suffixes(nodes, nv, hi as int, r + 1);
                let m: nat = (nv - r) as nat;
                assert forall|b: Seq<bool>| #[trigger] s.contains(b) <==> b.len() == m + 1 && (if b[0] {
                    sh.contains(b.subrange(1, b.len() as int))
                } else {
                    sl.contains(b.subrange(1, b.len() as int))
                }) by {
                    if b.len() == m + 1 {
                        lemma_evals_from_shift(nodes, nv, lo as int, r, b);
                        lemma_evals_from_shift(nodes, nv, hi as int, r, b);
                        assert(evals_from(nodes, i, r, b) == (if b[var - r] {
                            evals_from(nodes, hi as int, r, b)
                        } else {
                            evals_from(nodes, lo as int, r, b)
                        }));
                    }
                }
                lemma_split_card(s, sl, sh, m);
            },
            _ => {
                assert(false);
            },
        }
    }
}

/// Count correctness in full: counting from rank 1 counts exactly the
/// satisfying assignments over all declared variables.
pub proof fn lemma_count_answers_exact(nodes: Seq<Node>, nv: nat, i: int)
    requires
        shaped(nodes, nv),
        0 <= i < nodes.len(),
    ensures
        Set::new(|a: Seq<bool>| a.len() == nv && evals(nodes, i, a)).finite(),
        Set::new(|a: Seq<bool>| a.len() == nv && evals(nodes, i, a)).len() == count_from(
            nodes,
            nv,
            i,
            1,
        ),
{
    assert(node_ok(nodes, nv, i));
    lemma_count_measures_sat(nodes, nv, i, 1);
    assert(sat_suffixes(nodes, nv, i, 1) =~= Set::new(
        |a: Seq<bool>| a.len() == nv && evals(nodes, i, a),
    )) by {
        assert forall|a: Seq<bool>| #[trigger] evals_from(nodes, i, 1, a) == evals(nodes, i, a) by {
            lemma_evals_from_full(nodes, i, a);
        }
    }
}

/// The identities reachable from node `i`, terminals included.
pub open spec fn reach(nodes: Seq<Node>, i: int) -> Set<int>
    decreases i,
{
    match nodes[i] {
        Node::Internal { var, lo, hi } => {
            if 0 <= (lo as int) < i && 0 <= (hi as int) < i {
                reach(nodes, lo as int).union(reach(nodes, hi as int)).insert(i)
            } else {
                set![i]
            }
        },
        _ => set![i],
    }
}

/// A reach set is finite, contains its root, and never reaches past it.
pub proof fn lemma_reach_bounds(nodes: Seq<Node>, i: int)
    requires
        0 <= i,
    ensures
        reach(nodes, i).finite(),
        reach(nodes, i).contains(i),
        forall|j: int| #[trigger] reach(nodes, i).contains(j) ==> 0 <= j <= i,
    decreases i,
{
    match nodes[i] {
        Node::Internal { var, lo, hi } => {
            if 0 <= (lo as int) < i && 0 <= (hi as int) < i {
                lemma_reach_bounds(nodes, lo as int);
                lemma_reach_bounds(nodes, hi as int);
            }
        },
        _ => {},
    }
}

/// The set of identities marked in a visited bitmap.
pub open spec fn marked(v: Seq<bool>) -> Set<int> {
    Set::new(|j: int| 0 <= j < v.len() && v[j])
}

/// A marked set that always includes the children of its members already
/// includes everything reachable from any member.
pub open spec fn closed_under_children(nodes: Seq<Node>, s: Set<int>) -> bool {
    forall|j: int| #[trigger] s.contains(j) ==> match nodes[j] {
        Node::Internal { var, lo, hi } => s.contains(lo as int) && s.contains(hi as int),
        _ => true,
    }
}

/// In a child-closed set, membership of a node gives membership of its whole
/// reach set.
pub proof fn lemma_closed_reach(nodes: Seq<Node>, s: Set<int>, i: int)
    requires
        closed_under_children(nodes, s),
        s.contains(i),
        0 <= i,
    ensures
        reach(nodes, i).subset_of(s),
    decreases i,
{
    match nodes[i] {
        Node::Internal { var, lo, hi } => {
            if 0 <= (lo as int) < i && 0 <= (hi as int) < i {
                lemma_closed_reach(nodes, s, lo as int);
                lemma_closed_reach(nodes, s, hi as int);
            }
        },
        _ => {},
    }
}

/// A marked set over a bitmap of the arena's size is finite and no larger
/// than the arena.
proof fn lemma_marked_size(v: Seq<bool>)
    ensures
        marked(v).finite(),
        marked(v).len() <= v.len(),
{
    lemma_int_range(0, v.len() as int);
    lemma_len_subset(marked(v), set_int_range(0, v.len() as int));
}

/// Marks every identity reachable from `i`, visiting each node once: a node
/// already marked is pruned, relying on the marked set being child-closed.
/// `count` tracks the number of marks throughout.
fn node_set_impl(mgr: &BDDManager, i: usize, visited: &mut Vec<bool>, count: &mut usize)
    requires
        mgr.inv(),
        i < mgr.nodes@.len(),
        old(visited)@.len() == mgr.nodes@.len(),
        closed_under_children(mgr.nodes@, marked(old(visited)@)),
        *old(count) == marked(old(visited)@).len(),
    ensures
        final(visited)@.len() == old(visited)@.len(),
        marked(final(visited)@) == marked(old(visited)@).union(reach(mgr.nodes@, i as int)),
        closed_under_children(mgr.nodes@, marked(final(visited)@)),
        *final(count) == marked(final(visited)@).len(),
    decreases i,
{
    let ghost nodes = mgr.nodes@;
    let ghost pre = visited@;
    proof {
        assert(node_ok(nodes, mgr.n_vars(), i as int));
        lemma_reach_bounds(nodes, i as int);
    }
    if visited[i] {
        proof {
            lemma_closed_reach(nodes, marked(pre), i as int);
            assert(marked(pre) == marked(pre).union(reach(nodes, i as int))) by {
                assert(marked(pre) =~= marked(pre).union(reach(nodes, i as int)));
            }
        }
        return ;
    }
    match mgr.nodes[i] {
        Node::Internal { var, lo, hi } => {
            node_set_impl(mgr, lo, visited, count);
            let ghost mid = visited@;
            node_set_impl(mgr, hi, visited, count);
            let ghost cur = visited@;
            let n_arena = visited.len();
            proof {
                lemma_reach_bounds(nodes, lo as int);
                lemma_reach_bounds(nodes, hi as int);
                assert(!marked(cur).contains(i as int));
                lemma_marked_size(cur);
                lemma_int_range(0, cur.len() as int);
                lemma_len_subset(marked(cur).insert(i as int), set_int_range(0, cur.len() as int));
            }
            visited.set(i, true);
            *count = *count + 1;
            proof {
                assert(marked(visited@) =~= marked(cur).insert(i as int));
                assert(marked(visited@).len() == marked(cur).len() + 1);
                assert(marked(visited@) =~= marked(pre).union(reach(nodes, i as int)));
            }
        },
        _ => {
            let n_arena = visited.len();
            proof {
                lemma_marked_size(pre);
                lemma_int_range(0, pre.len() as int);
                lemma_len_subset(marked(pre).insert(i as int), set_int_range(0, pre.len() as int));
            }
            visited.set(i, true);
            *count = *count + 1;
            proof {
                assert(marked(visited@) =~= marked(pre).insert(i as int));
                assert(marked(visited@).len() == marked(pre).len() + 1);
                assert(marked(visited@) =~= marked(pre).union(reach(nodes, i as int)));
            }
        },
    }
}

impl BDD {
    /// Counts the satisfying assignments of this BDD over all of the
    /// manager's declared variables.  `var_num` must equal the registry size
    /// at call time — a mismatched value would silently miscount, so it is
    /// excluded by precondition — and at most 63 variables are supported,
    /// the largest registry whose counts always fit the result type.  Every
    /// variable the diagram does not test is unconstrained — including those
    /// ordered before the root — so the constant true function over `n`
    /// variables counts `2^n`.
    pub fn count_answers(&self, mgr: &BDDManager, var_num: u32) -> (r: u64)
        requires
            mgr.inv(),
            mgr.valid(*self),
            var_num as nat == mgr.n_vars(),
            var_num <= 63,
        ensures
            r as nat == count_from(mgr.nodes@, mgr.n_vars(), self.id as int, 1),
            r as nat == Set::new(
                |a: Seq<bool>| a.len() == mgr.n_vars() && mgr.sem(*self, a),
            ).len(),
    {
        let ghost nodes = mgr.nodes@;
        let ghost nv = mgr.n_vars();
        proof {
            lemma_count_answers_exact(nodes, nv, self.id as int);
            assert(Set::new(|a: Seq<bool>| a.len() == nv && evals(nodes, self.id as int, a))
                =~= Set::new(|a: Seq<bool>| a.len() == mgr.n_vars() && mgr.sem(*self, a)));
        }
        let n_arena = mgr.nodes.len();
        let t = count_table(mgr, self.id + 1, var_num);
        let c = t[self.id];
        let rk = rank_at(mgr, self.id, var_num);
        proof {
            assert(node_ok(nodes, nv, self.id as int));
            lemma_count_scale(nodes, nv, self.id as int, 1);
            lemma_count_bound(nodes, nv, self.id as int, 1);
            assert(pow2(nv) <= 0x8000_0000_0000_0000) by {
                if nv < 63 {
                    lemma_pow2_strictly_increases(nv, 63);
                }
                lemma2_to64();
                lemma2_to64_rest();
            }
            lemma_mul_is_commutative(
                c as int,
                pow2((rank(nodes, nv, self.id as int) - 1) as nat) as int,
            );
        }
        times_pow2(c, rk - 1)
    }

    /// Marks the identities reachable from this handle in a fresh bitmap
    /// over the arena, returning the bitmap and the number of marks.
    fn node_set(&self, mgr: &BDDManager) -> (r: (Vec<bool>, usize))
        requires
            mgr.inv(),
            mgr.valid(*self),
        ensures
            marked(r.0@) == reach(mgr.nodes@, self.id as int),
            r.1 == marked(r.0@).len(),
    {
        let n = mgr.nodes.len();
        let mut visited: Vec<bool> = Vec::new();
        let mut j: usize = 0;
        while j < n
            invariant
                j <= n,
                visited@.len() == j,
                forall|t: int| 0 <= t < j ==> !visited@[t],
            decreases n - j,
        {
            visited.push(false);
            j = j + 1;
        }
        let mut count: usize = 0;
        proof {
            assert(marked(visited@) =~= Set::<int>::empty());
            assert(marked(visited@).len() == 0);
        }
        node_set_impl(mgr, self.id, &mut visited, &mut count);
        proof {
            assert(marked(visited@) =~= reach(mgr.nodes@, self.id as int));
        }
        (visited, count)
    }

    /// Number of distinct nodes reachable from this handle, terminals
    /// included; each node is counted once however many paths lead to it.
    /// It can never exceed the arena size, that is, two more than the number
    /// of `mk` calls that ever allocated.
    pub fn count_nodes(&self, mgr: &BDDManager) -> (r: usize)
        requires
            mgr.inv(),
            mgr.valid(*self),
        ensures
            r == reach(mgr.nodes@, self.id as int).len(),
            r <= mgr.nodes@.len(),
    {
        let p = self.node_set(mgr);
        proof {
            lemma_reach_bounds(mgr.nodes@, self.id as int);
            lemma_int_range(0, mgr.nodes@.len() as int);
            lemma_len_subset(
                reach(mgr.nodes@, self.id as int),
                set_int_range(0, mgr.nodes@.len() as int),
            );
        }
        p.1
    }

    /// Evaluates the BDD under an assignment, `assignment[v - 1]` giving the
    /// value of the variable of rank `v`.
    pub fn evaluate(&self, mgr: &BDDManager, assignment: &Vec<bool>) -> (r: bool)
        requires
            mgr.inv(),
            mgr.valid(*self),
            assignment@.len() == mgr.n_vars(),
        ensures
            r == mgr.sem(*self, assignment@),
    {
        let mut cur = self.id;
        loop
            invariant
                mgr.inv(),
                cur < mgr.nodes@.len(),
                assignment@.len() == mgr.n_vars(),
                evals(mgr.nodes@, cur as int, assignment@) == mgr.sem(*self, assignment@),
            decreases cur,
    {
            proof {
                assert(node_ok(mgr.nodes@, mgr.n_vars(), cur as int));
            }
            match mgr.nodes[cur] {
                Node::False => {
                    return false;
                },
                Node::True => {
                    return true;
                },
                Node::Internal { var, lo, hi } => {
                    cur = if assignment[var - 1] {
                        hi
                    } else {
                        lo
                    };
                },
            }
        }
    }
}

} // verus!
