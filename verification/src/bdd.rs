//! The BDD manager: variable registry, node arena, unique table, the
//! reduction primitive `mk`, the Shannon-expansion apply engine and the
//! derived boolean operators.

use std::collections::HashMap;
use vstd::prelude::*;

use crate::semantics::{canonical, child_ok, evals, grows_from, node_ok, rank, shaped, wf, Node};

verus! {

broadcast use vstd::std_specs::hash::group_hash_axioms;

/// A handle to a node of a manager's arena; conceptually a value type.  Two
/// handles of one manager denote the same function exactly when their
/// identities are equal.
#[derive(Clone, Copy, Debug, PartialEq, Eq, Structural)]
pub struct BDD {
    pub id: usize,
}

/// A 2-input boolean operator, given by its 2-bit truth table.
#[derive(Clone, Copy, Debug, PartialEq, Eq, Structural)]
pub struct Op {
    /// Value on `(false, false)`.
    pub ff: bool,
    /// Value on `(false, true)`.
    pub ft: bool,
    /// Value on `(true, false)`.
    pub tf: bool,
    /// Value on `(true, true)`.
    pub tt: bool,
}

impl Op {
    /// The operator's value on a pair of booleans.
    pub open spec fn val(self, a: bool, b: bool) -> bool {
        if a {
            if b {
                self.tt
            } else {
                self.tf
            }
        } else {
            if b {
                self.ft
            } else {
                self.ff
            }
        }
    }

    /// Truth-table lookup.
    pub fn apply_to(self, a: bool, b: bool) -> (r: bool)
        ensures
            r == self.val(a, b),
    {
        if a {
            if b {
                self.tt
            } else {
                self.tf
            }
        } else {
            if b {
                self.ft
            } else {
                self.ff
            }
        }
    }
}

/// The unique-table key of a child pair, packing the two identities into one
/// integer.  The packing is injective, so one key stands for one pair.
pub open spec fn key_of(lo: usize, hi: usize) -> u128 {
    ((lo as int) + (hi as int) * 0x1_0000_0000_0000_0000) as u128
}

/// Distinct child pairs give distinct unique-table keys.
pub proof fn lemma_key_injective(a: usize, b: usize, c: usize, d: usize)
    requires
        key_of(a, b) == key_of(c, d),
    ensures
        a == c,
        b == d,
{
    let base: int = 0x1_0000_0000_0000_0000;
    let va: int = (a as int) + (b as int) * base;
    let vc: int = (c as int) + (d as int) * base;
    assert((a as int) < base && (c as int) < base);
    assert(va == vc);
    if b > d {
        assert(((b as int) - (d as int)) * base >= base);
        assert(false);
    }
    if d > b {
        assert(((d as int) - (b as int)) * base >= base);
        assert(false);
    }
}

/// Packs a child pair into its unique-table key.
fn pack_key(lo: usize, hi: usize) -> (k: u128)
    ensures
        k == key_of(lo, hi),
{
    proof {
        assert((lo as int) < 0x1_0000_0000_0000_0000);
        assert((hi as int) < 0x1_0000_0000_0000_0000);
    }
    (lo as u128) + (hi as u128) * 0x1_0000_0000_0000_0000u128
}

/// The position of an operator's truth table among the sixteen possible
/// ones; the computed-operation cache keeps one map per position.
pub open spec fn op_index(op: Op) -> int {
    (if op.ff {
        1int
    } else {
        0int
    }) + (if op.ft {
        2int
    } else {
        0int
    }) + (if op.tf {
        4int
    } else {
        0int
    }) + (if op.tt {
        8int
    } else {
        0int
    })
}

/// The operator a cache position stands for.
pub open spec fn op_of_index(ci: int) -> Op {
    Op { ff: ci % 2 == 1, ft: (ci / 2) % 2 == 1, tf: (ci / 4) % 2 == 1, tt: (ci / 8) % 2 == 1 }
}

/// The two spec functions invert each other.
pub proof fn lemma_op_roundtrip(op: Op)
    ensures
        op_of_index(op_index(op)) == op,
        0 <= op_index(op) < 16,
{
}

/// The executable cache position of an operator.
fn op_code(op: Op) -> (ci: usize)
    ensures
        ci as int == op_index(op),
        ci < 16,
{
    let mut ci: usize = 0;
    if op.ff {
        ci = ci + 1;
    }
    if op.ft {
        ci = ci + 2;
    }
    if op.tf {
        ci = ci + 4;
    }
    if op.tt {
        ci = ci + 8;
    }
    ci
}

/// What one cache entry claims of a particular operand pair: the stored
/// identity denotes the operator applied to the pair, and ranks at or after
/// the earlier of the two operands.
pub open spec fn cache_entry_body(
    nodes: Seq<Node>,
    nv: nat,
    op: Op,
    k: u128,
    rid: usize,
    xi: usize,
    yi: usize,
) -> bool {
    &&& k == key_of(xi, yi)
    &&& (xi as int) < nodes.len()
    &&& (yi as int) < nodes.len()
    &&& (rid as int) < nodes.len()
    &&& (rank(nodes, nv, rid as int) >= rank(nodes, nv, xi as int) || rank(nodes, nv, rid as int)
        >= rank(nodes, nv, yi as int))
    &&& forall|a: Seq<bool>|
        #[trigger] evals(nodes, rid as int, a) == op.val(
            evals(nodes, xi as int, a),
            evals(nodes, yi as int, a),
        )
}

/// A cache entry is sound for the operand pair its key encodes.
pub open spec fn cache_entry_ok(nodes: Seq<Node>, nv: nat, op: Op, k: u128, rid: usize) -> bool {
    exists|xi: usize, yi: usize| #[trigger] cache_entry_body(nodes, nv, op, k, rid, xi, yi)
}

/// Cached facts survive growing the arena: evaluation and ranks of existing
/// nodes never change.
pub proof fn lemma_cache_entry_grow(
    n1: Seq<Node>,
    n2: Seq<Node>,
    nv: nat,
    op: Op,
    k: u128,
    rid: usize,
)
    requires
        cache_entry_ok(n1, nv, op, k, rid),
        grows_from(n2, n1),
    ensures
        cache_entry_ok(n2, nv, op, k, rid),
{
    let (xi, yi) = choose|xi: usize, yi: usize| cache_entry_body(n1, nv, op, k, rid, xi, yi);
    assert(n2[xi as int] == n1[xi as int]);
    assert(n2[yi as int] == n1[yi as int]);
    assert(n2[rid as int] == n1[rid as int]);
    assert forall|a: Seq<bool>| #[trigger] evals(n2, rid as int, a) == op.val(
        evals(n2, xi as int, a),
        evals(n2, yi as int, a),
    ) by {
        crate::semantics::lemma_evals_grow(n1, n2, xi as int, a);
        crate::semantics::lemma_evals_grow(n1, n2, yi as int, a);
        crate::semantics::lemma_evals_grow(n1, n2, rid as int, a);
    }
    assert(cache_entry_body(n2, nv, op, k, rid, xi, yi));
}

/// Cached facts survive declaring one more variable: evaluation ignores the
/// registry, and the rank comparison is only relaxed when terminals move
/// from `nv + 1` to `nv + 2`.
pub proof fn lemma_cache_entry_nv(nodes: Seq<Node>, nv: nat, op: Op, k: u128, rid: usize)
    requires
        cache_entry_ok(nodes, nv, op, k, rid),
        shaped(nodes, nv),
    ensures
        cache_entry_ok(nodes, (nv + 1) as nat, op, k, rid),
{
    let (xi, yi) = choose|xi: usize, yi: usize| cache_entry_body(nodes, nv, op, k, rid, xi, yi);
    assert(node_ok(nodes, nv, rid as int));
    assert(node_ok(nodes, nv, xi as int));
    assert(node_ok(nodes, nv, yi as int));
    assert(cache_entry_body(nodes, (nv + 1) as nat, op, k, rid, xi, yi));
}

/// Mutable access to one map of the unique table or of the operation cache.
fn table_at(tbl: &mut Vec<HashMap<u128, usize>>, i: usize) -> (m: &mut HashMap<u128, usize>)
    requires
        i < old(tbl)@.len(),
    ensures
        *m == old(tbl)@[i as int],
        final(tbl)@ == old(tbl)@.update(i as int, *final(m)),
{
    &mut tbl[i]
}

/// One unique-table entry is sound: it points at an internal node of the
/// arena holding exactly the triple the key and map position encode.
pub open spec fn entry_ok(nodes: Seq<Node>, v: int, k: u128, id: usize) -> bool {
    &&& 2 <= id < nodes.len()
    &&& match nodes[id as int] {
        Node::Internal { var, lo, hi } => var as int == v + 1 && k == key_of(lo, hi),
        _ => false,
    }
}

/// The manager of one family of BDDs: an append-only node arena, one
/// unique-table map per declared variable, the ordered registry of variable
/// labels whose positions are the variable ranks, and the computed-operation
/// cache that keeps `apply` from re-solving subproblems on shared
/// substructure (it never changes any result, only the running time).
#[derive(Debug)]
pub struct BDDManager {
    pub var_table: Vec<String>,
    pub nodes: Vec<Node>,
    pub unique: Vec<HashMap<u128, usize>>,
    pub cache: Vec<HashMap<u128, usize>>,
}

impl BDDManager {
    /// Number of declared variables; a variable's rank is its 1-based
    /// position in the registry.
    pub open spec fn n_vars(self) -> nat {
        self.var_table@.len()
    }

    /// A handle is valid for this manager when it points into the arena.
    pub open spec fn valid(self, x: BDD) -> bool {
        x.id < self.nodes@.len()
    }

    /// The boolean function a handle denotes, with `a[v - 1]` the value of
    /// the variable of rank `v`.
    pub open spec fn sem(self, x: BDD, a: Seq<bool>) -> bool {
        evals(self.nodes@, x.id as int, a)
    }

    /// Every unique-table entry is sound.
    pub open spec fn table_sound(self) -> bool {
        forall|v: int, k: u128|
            0 <= v < self.unique@.len() && #[trigger] self.unique@[v]@.contains_key(k) ==> entry_ok(
                self.nodes@,
                v,
                k,
                self.unique@[v]@[k],
            )
    }

    /// Every internal node of the arena is registered in the unique table,
    /// which therefore is the single source of truth for canonicity.
    pub open spec fn table_complete(self) -> bool {
        forall|i: int|
            2 <= i < self.nodes@.len() ==> match #[trigger] self.nodes@[i] {
                Node::Internal { var, lo, hi } => self.unique@[var - 1]@.contains_key(
                    key_of(lo, hi),
                ) && self.unique@[var - 1]@[key_of(lo, hi)] == i,
                _ => false,
            }
    }

    /// Every computed-operation cache entry is sound for the operator its
    /// map stands for and the operand pair its key encodes.
    pub open spec fn cache_ok(self) -> bool {
        &&& self.cache@.len() == 16
        &&& forall|ci: int, k: u128|
            0 <= ci < 16 && #[trigger] self.cache@[ci]@.contains_key(k) ==> cache_entry_ok(
                self.nodes@,
                self.n_vars(),
                op_of_index(ci),
                k,
                self.cache@[ci]@[k],
            )
    }

    /// The manager invariant: the arena is a well-formed reduced ordered BDD
    /// store, the unique table mirrors its internal nodes exactly, and the
    /// operation cache holds nothing but sound results.
    pub open spec fn inv(self) -> bool {
        &&& wf(self.nodes@, self.n_vars())
        &&& self.unique@.len() == self.var_table@.len()
        &&& self.table_sound()
        &&& self.table_complete()
        &&& self.cache_ok()
    }

    /// How a manager state relates to an earlier one across any operation:
    /// the registry is untouched and the arena has only grown, so every
    /// handle of the earlier state stays valid and denotes the same
    /// function.
    pub open spec fn grown_from(self, pre: Self) -> bool {
        &&& self.var_table@ == pre.var_table@
        &&& grows_from(self.nodes@, pre.nodes@)
        &&& forall|h: BDD, a: Seq<bool>|
            pre.valid(h) ==> #[trigger] self.sem(h, a) == pre.sem(h, a)
    }

    /// The semantic clause of `grown_from` follows from the structural ones.
    proof fn lemma_grown_sem(self, pre: Self)
        requires
            grows_from(self.nodes@, pre.nodes@),
        ensures
            forall|h: BDD, a: Seq<bool>|
                pre.valid(h) ==> #[trigger] self.sem(h, a) == pre.sem(h, a),
    {
        assert forall|h: BDD, a: Seq<bool>| pre.valid(h) implies #[trigger] self.sem(h, a)
            == pre.sem(h, a) by {
            crate::semantics::lemma_evals_grow(pre.nodes@, self.nodes@, h.id as int, a);
        }
    }

    /// Creates a manager holding only the two terminals and no variables.
    pub fn new() -> (m: BDDManager)
        ensures
            m.inv(),
            m.n_vars() == 0,
            m.nodes@.len() == 2,
    {
        let mut nodes: Vec<Node> = Vec::new();
        nodes.push(Node::False);
        nodes.push(Node::True);
        let mut cache: Vec<HashMap<u128, usize>> = Vec::new();
        let mut ci: usize = 0;
        while ci < 16
            invariant
                ci <= 16,
                cache@.len() == ci,
                forall|t: int| 0 <= t < ci ==> #[trigger] cache@[t]@ == Map::<u128, usize>::empty(),
            decreases 16 - ci,
        {
            cache.push(HashMap::new());
            ci = ci + 1;
        }
        let m = BDDManager { var_table: Vec::new(), nodes, unique: Vec::new(), cache };
        proof {
            assert forall|i: int| 0 <= i < m.nodes@.len() implies node_ok(m.nodes@, m.n_vars(), i) by {
                assert(m.nodes@[0] == Node::False);
                assert(m.nodes@[1] == Node::True);
            }
            assert(m.cache_ok()) by {
                assert forall|ci2: int, k: u128|
                    0 <= ci2 < 16 && #[trigger] m.cache@[ci2]@.contains_key(k) implies cache_entry_ok(
                    m.nodes@,
                    m.n_vars(),
                    op_of_index(ci2),
                    k,
                    m.cache@[ci2]@[k],
                ) by {
                    assert(m.cache@[ci2]@ == Map::<u128, usize>::empty());
                }
            }
        }
        m
    }

    /// The constant-false handle: terminal identity 0.
    pub fn false_bdd(&self) -> (r: BDD)
        requires
            self.inv(),
        ensures
            r.id == 0,
            self.valid(r),
            forall|a: Seq<bool>| #[trigger] self.sem(r, a) == false,
    {
        BDD { id: 0 }
    }

    /// The constant-true handle: terminal identity 1.
    pub fn true_bdd(&self) -> (r: BDD)
        requires
            self.inv(),
        ensures
            r.id == 1,
            self.valid(r),
            forall|a: Seq<bool>| #[trigger] self.sem(r, a) == true,
    {
        proof {
            assert(self.nodes@[1] == Node::True);
        }
        BDD { id: 1 }
    }

    /// The reduction primitive and single choke point of node creation:
    /// returns the canonical handle for `if var then hi else lo`, collapsing
    /// equal children and consulting the unique table before allocating.
    /// A rank above the registry size, or a child ranked at or before `var`,
    /// is caller misuse and excluded by precondition rather than repaired;
    /// so is mixing in a handle that does not belong to this manager.
    pub fn mk(&mut self, var: usize, lo: BDD, hi: BDD) -> (r: BDD)
        requires
            old(self).inv(),
            1 <= var <= old(self).n_vars(),
            old(self).valid(lo),
            old(self).valid(hi),
            child_ok(old(self).nodes@, var as int, lo.id as int),
            child_ok(old(self).nodes@, var as int, hi.id as int),
        ensures
            final(self).inv(),
            final(self).grown_from(*old(self)),
            final(self).valid(r),
            rank(final(self).nodes@, final(self).n_vars(), r.id as int) >= var as int,
            forall|a: Seq<bool>| #[trigger] final(self).sem(r, a) == (if a[var - 1] {
                old(self).sem(hi, a)
            } else {
                old(self).sem(lo, a)
            }),
            lo.id == hi.id ==> r == lo && *final(self) == *old(self),
            lo.id != hi.id ==> match final(self).nodes@[r.id as int] {
                Node::Internal { var: rv, lo: rl, hi: rh } => rv == var && rl == lo.id && rh
                    == hi.id,
                _ => false,
            },
            lo.id != hi.id ==> forall|j: int|
                2 <= j < old(self).nodes@.len() && old(self).nodes@[j] == (Node::Internal {
                    var,
                    lo: lo.id,
                    hi: hi.id,
                }) ==> r.id == j && *final(self) == *old(self),
            lo.id != hi.id && !(exists|j: int|
                2 <= j < old(self).nodes@.len() && old(self).nodes@[j] == (Node::Internal {
                    var,
                    lo: lo.id,
                    hi: hi.id,
                })) ==> r.id == old(self).nodes@.len() && final(self).nodes@ == old(
                self,
            ).nodes@.push(Node::Internal { var, lo: lo.id, hi: hi.id }),
    {
        if lo.id == hi.id {
            return lo;
        }
        let k = pack_key(lo.id, hi.id);
        let found: Option<usize> = match self.unique[var - 1].get(&k) {
            Some(id_ref) => Some(*id_ref),
            None => None,
        };
        match found {
            Some(id) => {
                proof {
                    let v = var - 1;
                    assert(self.unique@[v as int]@.contains_key(k));
                    assert(entry_ok(self.nodes@, v as int, k, id));
                    match self.nodes@[id as int] {
                        Node::Internal { var: nv_, lo: nl, hi: nh } => {
                            lemma_key_injective(nl, nh, lo.id, hi.id);
                        },
                        _ => {},
                    }
                    assert(node_ok(self.nodes@, self.n_vars(), id as int));
                }
                BDD { id }
            },
            None => {
                proof {
                    assert(!self.unique@[var - 1]@.contains_key(k));
                }
                let id = self.nodes.len();
                self.nodes.push(Node::Internal { var, lo: lo.id, hi: hi.id });
                let m = table_at(&mut self.unique, var - 1);
                m.insert(k, id);
                proof {
                    let pre = *old(self);
                    let now = *self;
                    let nv = pre.n_vars();
                    let node = Node::Internal { var, lo: lo.id, hi: hi.id };
                    assert(now.nodes@ == pre.nodes@.push(node));
                    // no earlier node holds this triple, else the table had its key
                    assert forall|j: int|
                        2 <= j < pre.nodes@.len() implies pre.nodes@[j] != node by {
                        if pre.nodes@[j] == node {
                            assert(pre.unique@[var - 1]@.contains_key(key_of(lo.id, hi.id)));
                        }
                    }
                    assert forall|i: int| 0 <= i < now.nodes@.len() implies node_ok(
                        now.nodes@,
                        nv,
                        i,
                    ) by {
                        if i < pre.nodes@.len() {
                            assert(node_ok(pre.nodes@, nv, i));
                        }
                    }
                    assert(canonical(now.nodes@)) by {
                        assert forall|i: int, j: int|
                            0 <= i < now.nodes@.len() && 0 <= j < now.nodes@.len() && i != j
                            implies now.nodes@[i] != now.nodes@[j] by {
                            if i < pre.nodes@.len() && j < pre.nodes@.len() {
                                assert(canonical(pre.nodes@));
                            }
                        }
                    }
                    assert(now.table_sound()) by {
                        assert forall|v: int, k2: u128|
                            0 <= v < now.unique@.len() && #[trigger] now.unique@[v]@.contains_key(
                                k2,
                            ) implies entry_ok(now.nodes@, v, k2, now.unique@[v]@[k2]) by {
                            if v == var - 1 && k2 == k {
                            } else {
                                assert(pre.unique@[v]@.contains_key(k2));
                                assert(entry_ok(pre.nodes@, v, k2, pre.unique@[v]@[k2]));
                            }
                        }
                    }
                    assert(now.unique@ == pre.unique@.update(
                        var - 1,
                        now.unique@[var as int - 1],
                    ));
                    assert(now.unique@[var as int - 1]@ == pre.unique@[var as int - 1]@.insert(
                        k,
                        id,
                    ));
                    assert(now.table_complete()) by {
                        assert forall|i: int| 2 <= i < now.nodes@.len() implies match #[trigger] now.nodes@[i] {
                            Node::Internal { var: v2, lo: l2, hi: h2 } => now.unique@[v2
                                - 1]@.contains_key(key_of(l2, h2)) && now.unique@[v2 - 1]@[key_of(
                                l2,
                                h2,
                            )] == i,
                            _ => false,
                        } by {
                            if i < pre.nodes@.len() {
                                assert(now.nodes@[i] == pre.nodes@[i]);
                                match pre.nodes@[i] {
                                    Node::Internal { var: v2, lo: l2, hi: h2 } => {
                                        assert(node_ok(pre.nodes@, nv, i));
                                        assert(pre.unique@[v2 - 1]@.contains_key(key_of(l2, h2))
                                            && pre.unique@[v2 - 1]@[key_of(l2, h2)] == i);
                                        if v2 as int - 1 == var as int - 1 {
                                            if key_of(l2, h2) == k {
                                                lemma_key_injective(l2, h2, lo.id, hi.id);
                                                assert(false);
                                            }
                                            assert(now.unique@[v2 - 1]@ == pre.unique@[v2
                                                - 1]@.insert(k, id));
                                            assert(now.unique@[v2 - 1]@.contains_key(
                                                key_of(l2, h2),
                                            ) && now.unique@[v2 - 1]@[key_of(l2, h2)] == i);
                                        } else {
                                            assert(now.unique@[v2 - 1] == pre.unique@[v2 - 1]);
                                        }
                                    },
                                    _ => {},
                                }
                            } else {
                                assert(i == id);
                                assert(now.nodes@[i] == node);
                                assert(now.unique@[var as int - 1]@.contains_key(k));
                                assert(now.unique@[var as int - 1]@[k] == id);
                                assert(k == key_of(lo.id, hi.id));
                            }
                        }
                    }
                    assert(now.cache_ok()) by {
                        assert forall|ci2: int, k2: u128|
                            0 <= ci2 < 16 && #[trigger] now.cache@[ci2]@.contains_key(k2)
                            implies cache_entry_ok(
                            now.nodes@,
                            now.n_vars(),
                            op_of_index(ci2),
                            k2,
                            now.cache@[ci2]@[k2],
                        ) by {
                            assert(now.cache@[ci2] == pre.cache@[ci2]);
                            lemma_cache_entry_grow(
                                pre.nodes@,
                                now.nodes@,
                                nv,
                                op_of_index(ci2),
                                k2,
                                pre.cache@[ci2]@[k2],
                            );
                        }
                    }
                    assert forall|a: Seq<bool>| #[trigger] now.sem(BDD { id }, a) == (if a[var
                        - 1] {
                        pre.sem(hi, a)
                    } else {
                        pre.sem(lo, a)
                    }) by {
                        crate::semantics::lemma_evals_grow(pre.nodes@, now.nodes@, lo.id as int, a);
                        crate::semantics::lemma_evals_grow(pre.nodes@, now.nodes@, hi.id as int, a);
                    }
                    now.lemma_grown_sem(pre);
                }
                BDD { id }
            },
        }
    }

    /// Appends `entry` to the variable registry and returns the canonical
    /// BDD for "the new variable is true".  The new variable's rank is the
    /// registry size after the append; ranks are never reused or reordered,
    /// and labels need not be unique.
    pub fn var(&mut self, entry: String) -> (r: BDD)
        requires
            old(self).inv(),
        ensures
            final(self).inv(),
            final(self).n_vars() == old(self).n_vars() + 1,
            final(self).var_table@ == old(self).var_table@.push(entry),
            grows_from(final(self).nodes@, old(self).nodes@),
            forall|h: BDD, a: Seq<bool>|
                old(self).valid(h) ==> #[trigger] final(self).sem(h, a) == old(self).sem(h, a),
            final(self).valid(r),
            forall|a: Seq<bool>| #[trigger] final(self).sem(r, a) == a[old(self).n_vars() as int],
    {
        self.var_table.push(entry);
        self.unique.push(HashMap::new());
        proof {
            let pre = *old(self);
            let nv2 = self.n_vars();
            assert forall|i: int| 0 <= i < self.nodes@.len() implies node_ok(
                self.nodes@,
                nv2,
                i,
            ) by {
                assert(node_ok(pre.nodes@, pre.n_vars(), i));
            }
            assert(self.table_sound()) by {
                assert forall|v: int, k2: u128|
                    0 <= v < self.unique@.len() && #[trigger] self.unique@[v]@.contains_key(k2)
                    implies entry_ok(self.nodes@, v, k2, self.unique@[v]@[k2]) by {
                    if v < pre.unique@.len() {
                        assert(self.unique@[v] == pre.unique@[v]);
                        assert(entry_ok(pre.nodes@, v, k2, pre.unique@[v]@[k2]));
                    } else {
                        assert(self.unique@[v]@ == Map::<u128, usize>::empty());
                    }
                }
            }
            assert(self.table_complete()) by {
                assert forall|i: int| 2 <= i < self.nodes@.len() implies match #[trigger] self.nodes@[i] {
                    Node::Internal { var: v2, lo: l2, hi: h2 } => self.unique@[v2
                        - 1]@.contains_key(key_of(l2, h2)) && self.unique@[v2 - 1]@[key_of(l2, h2)]
                        == i,
                    _ => false,
                } by {
                    match pre.nodes@[i] {
                        Node::Internal { var: v2, lo: l2, hi: h2 } => {
                            assert(node_ok(pre.nodes@, pre.n_vars(), i));
                            assert(self.unique@[v2 - 1] == pre.unique@[v2 - 1]);
                        },
                        _ => {
                            assert(node_ok(pre.nodes@, pre.n_vars(), i));
                        },
                    }
                }
            }
            assert(self.cache_ok()) by {
                assert forall|ci2: int, k2: u128|
                    0 <= ci2 < 16 && #[trigger] self.cache@[ci2]@.contains_key(k2)
                    implies cache_entry_ok(
                    self.nodes@,
                    self.n_vars(),
                    op_of_index(ci2),
                    k2,
                    self.cache@[ci2]@[k2],
                ) by {
                    assert(self.cache@[ci2] == pre.cache@[ci2]);
                    lemma_cache_entry_nv(
                        pre.nodes@,
                        pre.n_vars(),
                        op_of_index(ci2),
                        k2,
                        pre.cache@[ci2]@[k2],
                    );
                }
            }
        }
        let v = self.var_table.len();
        let f = BDD { id: 0 };
        let t = BDD { id: 1 };
        let ghost mid = *self;
        let r = self.mk(v, f, t);
        proof {
            self.lemma_grown_sem(*old(self));
            assert forall|a: Seq<bool>| #[trigger] self.sem(r, a) == a[old(self).n_vars() as int]
                by {
                assert(self.sem(r, a) == (if a[v - 1] {
                    mid.sem(t, a)
                } else {
                    mid.sem(f, a)
                }));
                assert(mid.nodes@[1] == Node::True);
                assert(mid.nodes@[0] == Node::False);
            }
        }
        r
    }

    /// Converts the ordering clause of `node_ok` into a rank bound: a legal
    /// child of a node testing `v` ranks strictly above `v`.
    pub proof fn lemma_child_rank(nodes: Seq<Node>, nv: nat, v: int, c: int)
        requires
            child_ok(nodes, v, c),
            v <= nv,
        ensures
            rank(nodes, nv, c) > v,
    {
    }

    /// A handle ranked above `v` in some state is a legal `mk` child at `v`
    /// in any later grown state.
    pub proof fn lemma_child_from_rank(s_old: Self, s_new: Self, c: BDD, v: int)
        requires
            s_old.valid(c),
            grows_from(s_new.nodes@, s_old.nodes@),
            s_new.var_table@ == s_old.var_table@,
            rank(s_old.nodes@, s_old.n_vars(), c.id as int) > v,
        ensures
            child_ok(s_new.nodes@, v, c.id as int),
            s_new.valid(c),
            rank(s_new.nodes@, s_new.n_vars(), c.id as int) > v,
    {
        assert(s_new.nodes@[c.id as int] == s_old.nodes@[c.id as int]);
    }

    /// Assembles the postcondition of one Shannon-expansion step of `apply`:
    /// given the two recursive cofactor results and the `mk` result, the
    /// combined handle denotes the operator applied to the two operands.
    /// `xl`/`xh` and `yl`/`yh` are the cofactors of `x` and `y` at `v` (the
    /// operand itself when it tests a later variable), `s1` and `s2` the
    /// manager states after the two recursive calls.
    proof fn lemma_apply_post(
        &self,
        op: Op,
        x: BDD,
        y: BDD,
        xl: BDD,
        xh: BDD,
        yl: BDD,
        yh: BDD,
        rlo: BDD,
        rhi: BDD,
        r: BDD,
        pre: Self,
        s1: Self,
        s2: Self,
        v: usize,
    )
        requires
            pre.valid(xl),
            pre.valid(xh),
            pre.valid(yl),
            pre.valid(yh),
            s1.grown_from(pre),
            s1.valid(rlo),
            s2.grown_from(s1),
            s2.valid(rhi),
            self.grown_from(s2),
            self.valid(r),
            1 <= v,
            forall|a: Seq<bool>| #[trigger] pre.sem(x, a) == (if a[v - 1] {
                pre.sem(xh, a)
            } else {
                pre.sem(xl, a)
            }),
            forall|a: Seq<bool>| #[trigger] pre.sem(y, a) == (if a[v - 1] {
                pre.sem(yh, a)
            } else {
                pre.sem(yl, a)
            }),
            forall|a: Seq<bool>| #[trigger] s1.sem(rlo, a) == op.val(
                pre.sem(xl, a),
                pre.sem(yl, a),
            ),
            forall|a: Seq<bool>| #[trigger] s2.sem(rhi, a) == op.val(
                s1.sem(xh, a),
                s1.sem(yh, a),
            ),
            forall|a: Seq<bool>| #[trigger] self.sem(r, a) == (if a[v - 1] {
                s2.sem(rhi, a)
            } else {
                s2.sem(rlo, a)
            }),
        ensures
            self.grown_from(pre),
            forall|a: Seq<bool>| #[trigger] self.sem(r, a) == op.val(
                pre.sem(x, a),
                pre.sem(y, a),
            ),
    {
        assert(grows_from(self.nodes@, pre.nodes@)) by {
            assert forall|i: int| 0 <= i < pre.nodes@.len() implies self.nodes@[i]
                == pre.nodes@[i] by {
                assert(s1.nodes@[i] == pre.nodes@[i]);
                assert(s2.nodes@[i] == s1.nodes@[i]);
            }
        }
        self.lemma_grown_sem(pre);
        assert forall|a: Seq<bool>| #[trigger] self.sem(r, a) == op.val(
            pre.sem(x, a),
            pre.sem(y, a),
        ) by {
            crate::semantics::lemma_evals_grow(pre.nodes@, s1.nodes@, xh.id as int, a);
            crate::semantics::lemma_evals_grow(pre.nodes@, s1.nodes@, yh.id as int, a);
            crate::semantics::lemma_evals_grow(s1.nodes@, s2.nodes@, rlo.id as int, a);
            assert(s1.sem(xh, a) == pre.sem(xh, a));
            assert(s1.sem(yh, a) == pre.sem(yh, a));
            assert(s2.sem(rlo, a) == s1.sem(rlo, a));
            assert(s1.sem(rlo, a) == op.val(pre.sem(xl, a), pre.sem(yl, a)));
            assert(s2.sem(rhi, a) == op.val(s1.sem(xh, a), s1.sem(yh, a)));
            assert(self.sem(r, a) == (if a[v - 1] {
                s2.sem(rhi, a)
            } else {
                s2.sem(rlo, a)
            }));
            assert(pre.sem(x, a) == (if a[v - 1] {
                pre.sem(xh, a)
            } else {
                pre.sem(xl, a)
            }));
            assert(pre.sem(y, a) == (if a[v - 1] {
                pre.sem(yh, a)
            } else {
                pre.sem(yl, a)
            }));
        }
    }

    /// What a computed-operation cache hit guarantees, given the invariant:
    /// the stored identity is a valid handle denoting the operator applied
    /// to exactly this operand pair.
    proof fn lemma_cache_hit(&self, op: Op, x: BDD, y: BDD, rid: usize, k: u128)
        requires
            self.inv(),
            self.valid(x),
            self.valid(y),
            k == key_of(x.id, y.id),
            self.cache@[op_index(op)]@.contains_key(k),
            rid == self.cache@[op_index(op)]@[k],
        ensures
            self.valid(BDD { id: rid }),
            rank(self.nodes@, self.n_vars(), rid as int) >= rank(
                self.nodes@,
                self.n_vars(),
                x.id as int,
            ) || rank(self.nodes@, self.n_vars(), rid as int) >= rank(
                self.nodes@,
                self.n_vars(),
                y.id as int,
            ),
            forall|a: Seq<bool>| #[trigger] self.sem(BDD { id: rid }, a) == op.val(
                self.sem(x, a),
                self.sem(y, a),
            ),
    {
        lemma_op_roundtrip(op);
        assert(cache_entry_ok(self.nodes@, self.n_vars(), op, k, rid));
        let (xi, yi) = choose|xi: usize, yi: usize|
            cache_entry_body(self.nodes@, self.n_vars(), op, k, rid, xi, yi);
        lemma_key_injective(xi, yi, x.id, y.id);
        assert forall|a: Seq<bool>| #[trigger] self.sem(BDD { id: rid }, a) == op.val(
            self.sem(x, a),
            self.sem(y, a),
        ) by {
            assert(evals(self.nodes@, rid as int, a) == op.val(
                evals(self.nodes@, xi as int, a),
                evals(self.nodes@, yi as int, a),
            ));
        }
    }

    /// Re-establishes the invariant and the apply postconditions after a
    /// freshly computed result was recorded in the operation cache: the
    /// arena is untouched, only one cache map gained one sound entry.
    proof fn lemma_cache_after_insert(
        &self,
        pre: Self,
        mid: Self,
        op: Op,
        x: BDD,
        y: BDD,
        r: BDD,
        k: u128,
    )
        requires
            mid.inv(),
            pre.valid(x),
            pre.valid(y),
            mid.grown_from(pre),
            mid.valid(r),
            k == key_of(x.id, y.id),
            self.nodes@ == mid.nodes@,
            self.var_table@ == mid.var_table@,
            self.unique@ == mid.unique@,
            self.cache@ == mid.cache@.update(op_index(op), self.cache@[op_index(op)]),
            self.cache@[op_index(op)]@ == mid.cache@[op_index(op)]@.insert(k, r.id),
            rank(mid.nodes@, mid.n_vars(), r.id as int) >= rank(
                pre.nodes@,
                pre.n_vars(),
                x.id as int,
            ) || rank(mid.nodes@, mid.n_vars(), r.id as int) >= rank(
                pre.nodes@,
                pre.n_vars(),
                y.id as int,
            ),
            forall|a: Seq<bool>| #[trigger] mid.sem(r, a) == op.val(pre.sem(x, a), pre.sem(y, a)),
        ensures
            self.inv(),
            self.grown_from(pre),
            self.valid(r),
            rank(self.nodes@, self.n_vars(), r.id as int) >= rank(
                pre.nodes@,
                pre.n_vars(),
                x.id as int,
            ) || rank(self.nodes@, self.n_vars(), r.id as int) >= rank(
                pre.nodes@,
                pre.n_vars(),
                y.id as int,
            ),
            forall|a: Seq<bool>| #[trigger] self.sem(r, a) == op.val(pre.sem(x, a), pre.sem(y, a)),
    {
        lemma_op_roundtrip(op);
        assert(self.n_vars() == mid.n_vars());
        assert(self.table_sound()) by {
            assert forall|v: int, k2: u128|
                0 <= v < self.unique@.len() && #[trigger] self.unique@[v]@.contains_key(k2)
                implies entry_ok(self.nodes@, v, k2, self.unique@[v]@[k2]) by {
                assert(mid.unique@[v]@.contains_key(k2));
                assert(entry_ok(mid.nodes@, v, k2, mid.unique@[v]@[k2]));
            }
        }
        assert(self.table_complete()) by {
            assert forall|i: int| 2 <= i < self.nodes@.len() implies match #[trigger] self.nodes@[i] {
                Node::Internal { var: v2, lo: l2, hi: h2 } => self.unique@[v2 - 1]@.contains_key(
                    key_of(l2, h2),
                ) && self.unique@[v2 - 1]@[key_of(l2, h2)] == i,
                _ => false,
            } by {
                assert(mid.nodes@[i] == self.nodes@[i]);
                match mid.nodes@[i] {
                    Node::Internal { var: v2, lo: l2, hi: h2 } => {
                        assert(mid.unique@[v2 - 1]@.contains_key(key_of(l2, h2))
                            && mid.unique@[v2 - 1]@[key_of(l2, h2)] == i);
                        assert(self.unique@[v2 - 1] == mid.unique@[v2 - 1]);
                    },
                    _ => {},
                }
            }
        }
        assert(self.cache_ok()) by {
            assert forall|ci2: int, k2: u128|
                0 <= ci2 < 16 && #[trigger] self.cache@[ci2]@.contains_key(k2)
                implies cache_entry_ok(
                self.nodes@,
                self.n_vars(),
                op_of_index(ci2),
                k2,
                self.cache@[ci2]@[k2],
            ) by {
                if ci2 == op_index(op) {
                    if k2 == k {
                        assert(self.cache@[ci2]@[k2] == r.id);
                        assert(cache_entry_body(
                            self.nodes@,
                            self.n_vars(),
                            op,
                            k,
                            r.id,
                            x.id,
                            y.id,
                        )) by {
                            assert(self.nodes@[x.id as int] == pre.nodes@[x.id as int]);
                            assert(self.nodes@[y.id as int] == pre.nodes@[y.id as int]);
                            assert forall|a: Seq<bool>| #[trigger] evals(
                                self.nodes@,
                                r.id as int,
                                a,
                            ) == op.val(
                                evals(self.nodes@, x.id as int, a),
                                evals(self.nodes@, y.id as int, a),
                            ) by {
                                crate::semantics::lemma_evals_grow(
                                    pre.nodes@,
                                    self.nodes@,
                                    x.id as int,
                                    a,
                                );
                                crate::semantics::lemma_evals_grow(
                                    pre.nodes@,
                                    self.nodes@,
                                    y.id as int,
                                    a,
                                );
                                assert(mid.sem(r, a) == op.val(pre.sem(x, a), pre.sem(y, a)));
                            }
                        }
                    } else {
                        assert(mid.cache@[ci2]@.contains_key(k2));
                        assert(self.cache@[ci2]@[k2] == mid.cache@[ci2]@[k2]);
                        assert(cache_entry_ok(
                            mid.nodes@,
                            mid.n_vars(),
                            op_of_index(ci2),
                            k2,
                            mid.cache@[ci2]@[k2],
                        ));
                    }
                } else {
                    assert(self.cache@[ci2] == mid.cache@[ci2]);
                    assert(cache_entry_ok(
                        mid.nodes@,
                        mid.n_vars(),
                        op_of_index(ci2),
                        k2,
                        mid.cache@[ci2]@[k2],
                    ));
                }
            }
        }
        assert forall|a: Seq<bool>| #[trigger] self.sem(r, a) == op.val(
            pre.sem(x, a),
            pre.sem(y, a),
        ) by {
            assert(mid.sem(r, a) == op.val(pre.sem(x, a), pre.sem(y, a)));
        }
        self.lemma_grown_sem(pre);
    }

    /// The apply engine: combines two BDDs under an arbitrary binary boolean
    /// operator by Shannon cofactor expansion, funnelling every constructed
    /// node through `mk` so the result is canonical.  For the cofactor split
    /// a terminal counts as ranked after every declared variable.
    #[verifier::rlimit(100)]
    pub fn apply(&mut self, op: Op, x: BDD, y: BDD) -> (r: BDD)
        requires
            old(self).inv(),
            old(self).valid(x),
            old(self).valid(y),
        ensures
            final(self).inv(),
            final(self).grown_from(*old(self)),
            final(self).valid(r),
            rank(final(self).nodes@, final(self).n_vars(), r.id as int) >= rank(
                old(self).nodes@,
                old(self).n_vars(),
                x.id as int,
            ) || rank(final(self).nodes@, final(self).n_vars(), r.id as int) >= rank(
                old(self).nodes@,
                old(self).n_vars(),
                y.id as int,
            ),
            forall|a: Seq<bool>| #[trigger] final(self).sem(r, a) == op.val(
                old(self).sem(x, a),
                old(self).sem(y, a),
            ),
            x == y && op.ff == false && op.tt == true ==> r == x && *final(self) == *old(self),
            x == y && op.ff == false && op.tt == false ==> r.id == 0 && *final(self) == *old(self),
            x == y && op.ff == true && op.tt == true ==> r.id == 1 && *final(self) == *old(self),
        decreases x.id + y.id,
    {
        let ghost pre = *old(self);
        proof {
            assert(node_ok(pre.nodes@, pre.n_vars(), x.id as int));
            assert(node_ok(pre.nodes@, pre.n_vars(), y.id as int));
        }
        // applying an operator to a handle and itself reduces to its
        // diagonal, which for all but one operator class is immediate
        if x.id == y.id {
            if !op.ff && op.tt {
                proof {
                    assert forall|a: Seq<bool>| #[trigger] self.sem(x, a) == op.val(
                        pre.sem(x, a),
                        pre.sem(y, a),
                    ) by {}
                }
                return x;
            } else if !op.ff && !op.tt {
                let r = BDD { id: 0 };
                proof {
                    assert(pre.nodes@[0] == Node::False);
                    assert forall|a: Seq<bool>| #[trigger] self.sem(r, a) == op.val(
                        pre.sem(x, a),
                        pre.sem(y, a),
                    ) by {}
                }
                return r;
            } else if op.ff && op.tt {
                let r = BDD { id: 1 };
                proof {
                    assert(pre.nodes@[1] == Node::True);
                    assert forall|a: Seq<bool>| #[trigger] self.sem(r, a) == op.val(
                        pre.sem(x, a),
                        pre.sem(y, a),
                    ) by {}
                }
                return r;
            }
        }
        // consult the computed-operation cache before recursing
        let ci = op_code(op);
        let k = pack_key(x.id, y.id);
        let cached: Option<usize> = match self.cache[ci].get(&k) {
            Some(rid_ref) => Some(*rid_ref),
            None => None,
        };
        match cached {
            Some(rid) => {
                proof {
                    self.lemma_cache_hit(op, x, y, rid, k);
                }
                return BDD { id: rid };
            },
            None => {},
        }
        let nx = self.nodes[x.id];
        let ny = self.nodes[y.id];
        let r = match (nx, ny) {
            (
                Node::Internal { var: vx, lo: lx, hi: hx },
                Node::Internal { var: vy, lo: ly, hi: hy },
            ) => {
                if vx == vy {
                    let rlo = self.apply(op, BDD { id: lx }, BDD { id: ly });
                    let ghost s1 = *self;
                    let rhi = self.apply(op, BDD { id: hx }, BDD { id: hy });
                    let ghost s2 = *self;
                    proof {
                        Self::lemma_child_rank(pre.nodes@, pre.n_vars(), vx as int, lx as int);
                        Self::lemma_child_rank(pre.nodes@, pre.n_vars(), vx as int, ly as int);
                        Self::lemma_child_rank(pre.nodes@, pre.n_vars(), vx as int, hx as int);
                        Self::lemma_child_rank(pre.nodes@, pre.n_vars(), vx as int, hy as int);
                        Self::lemma_child_from_rank(s1, s2, rlo, vx as int);
                        assert(s1.nodes@[hx as int] == pre.nodes@[hx as int]);
                        assert(s1.nodes@[hy as int] == pre.nodes@[hy as int]);
                        Self::lemma_child_from_rank(s2, s2, rhi, vx as int);
                    }
                    let r = self.mk(vx, rlo, rhi);
                    proof {
                        assert forall|a: Seq<bool>| #[trigger] pre.sem(x, a) == (if a[vx - 1] {
                            pre.sem(BDD { id: hx }, a)
                        } else {
                            pre.sem(BDD { id: lx }, a)
                        }) by {}
                        assert forall|a: Seq<bool>| #[trigger] pre.sem(y, a) == (if a[vx - 1] {
                            pre.sem(BDD { id: hy }, a)
                        } else {
                            pre.sem(BDD { id: ly }, a)
                        }) by {}
                        self.lemma_apply_post(
                            op,
                            x,
                            y,
                            BDD { id: lx },
                            BDD { id: hx },
                            BDD { id: ly },
                            BDD { id: hy },
                            rlo,
                            rhi,
                            r,
                            pre,
                            s1,
                            s2,
                            vx,
                        );
                    }
                    r
                } else if vx < vy {
                    let rlo = self.apply(op, BDD { id: lx }, y);
                    let ghost s1 = *self;
                    let rhi = self.apply(op, BDD { id: hx }, y);
                    let ghost s2 = *self;
                    proof {
                        Self::lemma_child_rank(pre.nodes@, pre.n_vars(), vx as int, lx as int);
                        Self::lemma_child_rank(pre.nodes@, pre.n_vars(), vx as int, hx as int);
                        assert(rank(pre.nodes@, pre.n_vars(), y.id as int) > vx as int);
                        Self::lemma_child_from_rank(s1, s2, rlo, vx as int);
                        assert(s1.nodes@[hx as int] == pre.nodes@[hx as int]);
                        assert(s1.nodes@[y.id as int] == pre.nodes@[y.id as int]);
                        Self::lemma_child_from_rank(s2, s2, rhi, vx as int);
                    }
                    let r = self.mk(vx, rlo, rhi);
                    proof {
                        assert forall|a: Seq<bool>| #[trigger] pre.sem(x, a) == (if a[vx - 1] {
                            pre.sem(BDD { id: hx }, a)
                        } else {
                            pre.sem(BDD { id: lx }, a)
                        }) by {}
                        self.lemma_apply_post(
                            op,
                            x,
                            y,
                            BDD { id: lx },
                            BDD { id: hx },
                            y,
                            y,
                            rlo,
                            rhi,
                            r,
                            pre,
                            s1,
                            s2,
                            vx,
                        );
                        if x == y {
                            assert(nx == ny);
                            assert(false);
                        }
                    }
                    r
                } else {
                    let rlo = self.apply(op, x, BDD { id: ly });
                    let ghost s1 = *self;
                    let rhi = self.apply(op, x, BDD { id: hy });
                    let ghost s2 = *self;
                    proof {
                        Self::lemma_child_rank(pre.nodes@, pre.n_vars(), vy as int, ly as int);
                        Self::lemma_child_rank(pre.nodes@, pre.n_vars(), vy as int, hy as int);
                        assert(rank(pre.nodes@, pre.n_vars(), x.id as int) > vy as int);
                        Self::lemma_child_from_rank(s1, s2, rlo, vy as int);
                        assert(s1.nodes@[hy as int] == pre.nodes@[hy as int]);
                        assert(s1.nodes@[x.id as int] == pre.nodes@[x.id as int]);
                        Self::lemma_child_from_rank(s2, s2, rhi, vy as int);
                    }
                    let r = self.mk(vy, rlo, rhi);
                    proof {
                        assert forall|a: Seq<bool>| #[trigger] pre.sem(y, a) == (if a[vy - 1] {
                            pre.sem(BDD { id: hy }, a)
                        } else {
                            pre.sem(BDD { id: ly }, a)
                        }) by {}
                        self.lemma_apply_post(
                            op,
                            x,
                            y,
                            x,
                            x,
                            BDD { id: ly },
                            BDD { id: hy },
                            rlo,
                            rhi,
                            r,
                            pre,
                            s1,
                            s2,
                            vy,
                        );
                        if x == y {
                            assert(nx == ny);
                            assert(false);
                        }
                    }
                    r
                }
            },
            (Node::Internal { var: vx, lo: lx, hi: hx }, _) => {
                let rlo = self.apply(op, BDD { id: lx }, y);
                let ghost s1 = *self;
                let rhi = self.apply(op, BDD { id: hx }, y);
                let ghost s2 = *self;
                proof {
                    Self::lemma_child_rank(pre.nodes@, pre.n_vars(), vx as int, lx as int);
                    Self::lemma_child_rank(pre.nodes@, pre.n_vars(), vx as int, hx as int);
                    assert(rank(pre.nodes@, pre.n_vars(), y.id as int) > vx as int);
                    Self::lemma_child_from_rank(s1, s2, rlo, vx as int);
                    assert(s1.nodes@[hx as int] == pre.nodes@[hx as int]);
                    assert(s1.nodes@[y.id as int] == pre.nodes@[y.id as int]);
                    Self::lemma_child_from_rank(s2, s2, rhi, vx as int);
                }
                let r = self.mk(vx, rlo, rhi);
                proof {
                    assert forall|a: Seq<bool>| #[trigger] pre.sem(x, a) == (if a[vx - 1] {
                        pre.sem(BDD { id: hx }, a)
                    } else {
                        pre.sem(BDD { id: lx }, a)
                    }) by {}
                    self.lemma_apply_post(
                        op,
                        x,
                        y,
                        BDD { id: lx },
                        BDD { id: hx },
                        y,
                        y,
                        rlo,
                        rhi,
                        r,
                        pre,
                        s1,
                        s2,
                        vx,
                    );
                    if x == y {
                        assert(nx == ny);
                        assert(false);
                    }
                }
                r
            },
            (_, Node::Internal { var: vy, lo: ly, hi: hy }) => {
                let rlo = self.apply(op, x, BDD { id: ly });
                let ghost s1 = *self;
                let rhi = self.apply(op, x, BDD { id: hy });
                let ghost s2 = *self;
                proof {
                    Self::lemma_child_rank(pre.nodes@, pre.n_vars(), vy as int, ly as int);
                    Self::lemma_child_rank(pre.nodes@, pre.n_vars(), vy as int, hy as int);
                    assert(rank(pre.nodes@, pre.n_vars(), x.id as int) > vy as int);
                    Self::lemma_child_from_rank(s1, s2, rlo, vy as int);
                    assert(s1.nodes@[hy as int] == pre.nodes@[hy as int]);
                    assert(s1.nodes@[x.id as int] == pre.nodes@[x.id as int]);
                    Self::lemma_child_from_rank(s2, s2, rhi, vy as int);
                }
                let r = self.mk(vy, rlo, rhi);
                proof {
                    assert forall|a: Seq<bool>| #[trigger] pre.sem(y, a) == (if a[vy - 1] {
                        pre.sem(BDD { id: hy }, a)
                    } else {
                        pre.sem(BDD { id: ly }, a)
                    }) by {}
                    self.lemma_apply_post(
                        op,
                        x,
                        y,
                        x,
                        x,
                        BDD { id: ly },
                        BDD { id: hy },
                        rlo,
                        rhi,
                        r,
                        pre,
                        s1,
                        s2,
                        vy,
                    );
                    if x == y {
                        assert(nx == ny);
                        assert(false);
                    }
                }
                r
            },
            (_, _) => {
                let bx = match nx {
                    Node::True => true,
                    _ => false,
                };
                let by = match ny {
                    Node::True => true,
                    _ => false,
                };
                let rb = op.apply_to(bx, by);
                let r = if rb {
                    BDD { id: 1 }
                } else {
                    BDD { id: 0 }
                };
                proof {
                    assert(pre.nodes@[0] == Node::False && pre.nodes@[1] == Node::True);
                    assert forall|a: Seq<bool>| #[trigger] self.sem(r, a) == op.val(
                        pre.sem(x, a),
                        pre.sem(y, a),
                    ) by {}
                    if x == y {
                        assert(bx == by);
                    }
                }
                r
            },
        };
        let ghost mid = *self;
        let m = table_at(&mut self.cache, ci);
        m.insert(k, r.id);
        proof {
            self.lemma_cache_after_insert(pre, mid, op, x, y, r, k);
        }
        r
    }

    /// Conjunction: the canonical handle for `x AND y`.
    pub fn and_op(&mut self, x: BDD, y: BDD) -> (r: BDD)
        requires
            old(self).inv(),
            old(self).valid(x),
            old(self).valid(y),
        ensures
            final(self).inv(),
            final(self).grown_from(*old(self)),
            final(self).valid(r),
            forall|a: Seq<bool>| #[trigger] final(self).sem(r, a) == (old(self).sem(x, a)
                && old(self).sem(y, a)),
            x == y ==> r == x && *final(self) == *old(self),
    {
        let r = self.apply(Op { ff: false, ft: false, tf: false, tt: true }, x, y);
        proof {
            assert forall|a: Seq<bool>| #[trigger] self.sem(r, a) == (old(self).sem(x, a)
                && old(self).sem(y, a)) by {
                assert(self.sem(r, a) == (Op { ff: false, ft: false, tf: false, tt: true }).val(
                    old(self).sem(x, a),
                    old(self).sem(y, a),
                ));
            }
        }
        r
    }

    /// Disjunction: the canonical handle for `x OR y`.
    pub fn or_op(&mut self, x: BDD, y: BDD) -> (r: BDD)
        requires
            old(self).inv(),
            old(self).valid(x),
            old(self).valid(y),
        ensures
            final(self).inv(),
            final(self).grown_from(*old(self)),
            final(self).valid(r),
            forall|a: Seq<bool>| #[trigger] final(self).sem(r, a) == (old(self).sem(x, a)
                || old(self).sem(y, a)),
            x == y ==> r == x && *final(self) == *old(self),
    {
        let r = self.apply(Op { ff: false, ft: true, tf: true, tt: true }, x, y);
        proof {
            assert forall|a: Seq<bool>| #[trigger] self.sem(r, a) == (old(self).sem(x, a)
                || old(self).sem(y, a)) by {
                assert(self.sem(r, a) == (Op { ff: false, ft: true, tf: true, tt: true }).val(
                    old(self).sem(x, a),
                    old(self).sem(y, a),
                ));
            }
        }
        r
    }

    /// Exclusive or: the canonical handle for `x XOR y`.
    pub fn xor_op(&mut self, x: BDD, y: BDD) -> (r: BDD)
        requires
            old(self).inv(),
            old(self).valid(x),
            old(self).valid(y),
        ensures
            final(self).inv(),
            final(self).grown_from(*old(self)),
            final(self).valid(r),
            forall|a: Seq<bool>| #[trigger] final(self).sem(r, a) == (old(self).sem(x, a)
                != old(self).sem(y, a)),
            x == y ==> r.id == 0 && *final(self) == *old(self),
    {
        let r = self.apply(Op { ff: false, ft: true, tf: true, tt: false }, x, y);
        proof {
            assert forall|a: Seq<bool>| #[trigger] self.sem(r, a) == (old(self).sem(x, a)
                != old(self).sem(y, a)) by {
                assert(self.sem(r, a) == (Op { ff: false, ft: true, tf: true, tt: false }).val(
                    old(self).sem(x, a),
                    old(self).sem(y, a),
                ));
            }
        }
        r
    }

    /// Biconditional: the canonical handle for `x EQ y`.
    pub fn eq_op(&mut self, x: BDD, y: BDD) -> (r: BDD)
        requires
            old(self).inv(),
            old(self).valid(x),
            old(self).valid(y),
        ensures
            final(self).inv(),
            final(self).grown_from(*old(self)),
            final(self).valid(r),
            forall|a: Seq<bool>| #[trigger] final(self).sem(r, a) == (old(self).sem(x, a)
                == old(self).sem(y, a)),
            x == y ==> r.id == 1 && *final(self) == *old(self),
    {
        let r = self.apply(Op { ff: true, ft: false, tf: false, tt: true }, x, y);
        proof {
            assert forall|a: Seq<bool>| #[trigger] self.sem(r, a) == (old(self).sem(x, a)
                == old(self).sem(y, a)) by {
                assert(self.sem(r, a) == (Op { ff: true, ft: false, tf: false, tt: true }).val(
                    old(self).sem(x, a),
                    old(self).sem(y, a),
                ));
            }
        }
        r
    }

    /// Negation, expressed through the same engine as `x XOR true`.
    pub fn not_op(&mut self, x: BDD) -> (r: BDD)
        requires
            old(self).inv(),
            old(self).valid(x),
        ensures
            final(self).inv(),
            final(self).grown_from(*old(self)),
            final(self).valid(r),
            forall|a: Seq<bool>| #[trigger] final(self).sem(r, a) == !old(self).sem(x, a),
    {
        let t = self.true_bdd();
        let r = self.xor_op(x, t);
        proof {
            assert forall|a: Seq<bool>| #[trigger] self.sem(r, a) == !old(self).sem(x, a) by {
                assert(old(self).sem(t, a) == true);
            }
        }
        r
    }
}

/// Read-only structural walk over a handle: identity, variable rank and
/// children, the export interface renderers consume.  Terminals keep the
/// two fixed sentinel identities 0 (false) and 1 (true).
impl BDD {
    /// The permanent identity of the node this handle points at.
    pub fn node_number(&self) -> (r: usize)
        ensures
            r == self.id,
    {
        self.id
    }

    /// True iff the handle is one of the two terminals.
    pub fn is_constant(&self) -> (r: bool)
        ensures
            r == (self.id < 2),
    {
        self.id < 2
    }

    /// True iff the handle is the true terminal.
    pub fn is_true(&self) -> (r: bool)
        ensures
            r == (self.id == 1),
    {
        self.id == 1
    }

    /// True iff the handle is the false terminal.
    pub fn is_false(&self) -> (r: bool)
        ensures
            r == (self.id == 0),
    {
        self.id == 0
    }

    /// The rank of the variable an internal node tests.
    pub fn var(&self, mgr: &BDDManager) -> (r: usize)
        requires
            mgr.inv(),
            mgr.valid(*self),
            self.id >= 2,
        ensures
            match mgr.nodes@[self.id as int] {
                Node::Internal { var, lo, hi } => r == var,
                _ => false,
            },
            1 <= r <= mgr.n_vars(),
    {
        proof {
            assert(node_ok(mgr.nodes@, mgr.n_vars(), self.id as int));
        }
        match mgr.nodes[self.id] {
            Node::Internal { var, lo, hi } => var,
            _ => 1,
        }
    }

    /// The low child of an internal node — the cofactor at variable value 0
    /// — or nothing for a terminal.
    pub fn low(&self, mgr: &BDDManager) -> (r: Option<BDD>)
        requires
            mgr.inv(),
            mgr.valid(*self),
        ensures
            match mgr.nodes@[self.id as int] {
                Node::Internal { var, lo, hi } => r == (Some(BDD { id: lo })),
                _ => r is None,
            },
            r is Some ==> mgr.valid(r.unwrap()) && r.unwrap().id < self.id,
    {
        proof {
            assert(node_ok(mgr.nodes@, mgr.n_vars(), self.id as int));
        }
        match mgr.nodes[self.id] {
            Node::Internal { var, lo, hi } => Some(BDD { id: lo }),
            _ => None,
        }
    }

    /// The high child of an internal node — the cofactor at variable value 1
    /// — or nothing for a terminal.
    pub fn high(&self, mgr: &BDDManager) -> (r: Option<BDD>)
        requires
            mgr.inv(),
            mgr.valid(*self),
        ensures
            match mgr.nodes@[self.id as int] {
                Node::Internal { var, lo, hi } => r == (Some(BDD { id: hi })),
                _ => r is None,
            },
            r is Some ==> mgr.valid(r.unwrap()) && r.unwrap().id < self.id,
    {
        proof {
            assert(node_ok(mgr.nodes@, mgr.n_vars(), self.id as int));
        }
        match mgr.nodes[self.id] {
            Node::Internal { var, lo, hi } => Some(BDD { id: hi }),
            _ => None,
        }
    }
}

} // verus!
