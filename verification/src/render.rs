//! Export of a BDD as a TikZ drawing.  The renderer walks the structural
//! interface only — identities, ranks resolved to registered labels, and
//! children — and tracks visited nodes strictly by identity, never by
//! searching the text produced so far.

use vstd::prelude::*;
use vstd::string::StringExecFns;

use crate::bdd::{BDD, BDDManager};
use crate::semantics::{node_ok, Node};

verus! {

/// The earlier text survives unchanged at the front of the later text: the
/// renderer only ever appends.
pub open spec fn keeps_text(new: Seq<char>, old: Seq<char>) -> bool {
    old.len() <= new.len() && forall|j: int| 0 <= j < old.len() ==> new[j] == old[j]
}

/// Appends a piece of text, keeping everything already written.
fn put(out: &mut String, piece: &str)
    ensures
        final(out)@ == old(out)@ + piece@,
        keeps_text(final(out)@, old(out)@),
{
    out.append(piece);
}

/// Appends the decimal digits of `n`.
fn push_decimal(out: &mut String, n: usize)
    ensures
        keeps_text(final(out)@, old(out)@),
    decreases n,
{
    let ghost before = out@;
    if n >= 10 {
        proof {
            assert(n / 10 < n) by (nonlinear_arith)
                requires
                    n >= 10,
            ;
        }
        push_decimal(out, n / 10);
    }
    let ghost mid = out@;
    let d = n % 10;
    let ds: &str = if d == 0 {
        "0"
    } else if d == 1 {
        "1"
    } else if d == 2 {
        "2"
    } else if d == 3 {
        "3"
    } else if d == 4 {
        "4"
    } else if d == 5 {
        "5"
    } else if d == 6 {
        "6"
    } else if d == 7 {
        "7"
    } else if d == 8 {
        "8"
    } else {
        "9"
    };
    put(out, ds);
    proof {
        assert forall|j: int| 0 <= j < before.len() implies out@[j] == before[j] by {
            assert(out@[j] == mid[j]);
        }
    }
}

/// The TikZ name of a node: its identity under an `n` prefix.
fn node_name(n: usize) -> String {
    let mut s = String::new();
    s.append("n");
    push_decimal(&mut s, n);
    s
}

/// The TikZ name of a variable row: its rank under a `v` prefix.
fn var_name(n: usize) -> String {
    let mut s = String::new();
    s.append("v");
    push_decimal(&mut s, n);
    s
}

impl BDDManager {
    /// Emits one TikZ node per reachable internal node, placing each to the
    /// right of the previous node on its variable's row (or of the row label
    /// for the first).  `table` remembers the last node placed per rank and
    /// `emitted` tracks the identities already drawn.
    fn dump_tikz_node_impl(
        &self,
        x: BDD,
        table: &mut Vec<Option<usize>>,
        emitted: &mut Vec<bool>,
        ret: &mut String,
    )
        requires
            self.inv(),
            self.valid(x),
            old(table)@.len() == self.n_vars() + 1,
            old(emitted)@.len() == self.nodes@.len(),
        ensures
            final(table)@.len() == old(table)@.len(),
            final(emitted)@.len() == old(emitted)@.len(),
            keeps_text(final(ret)@, old(ret)@),
        decreases x.id,
    {
        let ghost before = ret@;
        if x.id < 2 {
            return ;
        }
        if emitted[x.id] {
            return ;
        }
        proof {
            assert(node_ok(self.nodes@, self.n_vars(), x.id as int));
        }
        match self.nodes[x.id] {
            Node::Internal { var, lo, hi } => {
                put(ret, "    \\node[xshift=0cm, BDDnode, ");
                match table[var] {
                    Some(left) => {
                        put(ret, "right of=");
                        let nm = node_name(left);
                        put(ret, &nm);
                    },
                    None => {
                        put(ret, "right of=");
                        let vm = var_name(var);
                        put(ret, &vm);
                    },
                }
                put(ret, "] (");
                let nm = node_name(x.id);
                put(ret, &nm);
                put(ret, ") {\\small $");
                push_decimal(ret, x.id);
                put(ret, "$};\n");
                table.set(var, Some(x.id));
                emitted.set(x.id, true);
                let ghost g1 = ret@;
                proof {
                    assert(keeps_text(g1, before));
                }
                self.dump_tikz_node_impl(BDD { id: lo }, table, emitted, ret);
                let ghost g2 = ret@;
                self.dump_tikz_node_impl(BDD { id: hi }, table, emitted, ret);
                proof {
                    assert forall|j: int| 0 <= j < before.len() implies ret@[j] == before[j] by {
                        assert(ret@[j] == g2[j]);
                        assert(g2[j] == g1[j]);
                    }
                }
            },
            _ => {},
        }
    }

    /// Emits the edges of the reachable DAG, dashed towards low children,
    /// leaving out edges into the false terminal; `done` tracks the
    /// identities whose edges were already drawn.
    fn dump_tikz_edge_impl(&self, x: BDD, ret: &mut String, done: &mut Vec<bool>)
        requires
            self.inv(),
            self.valid(x),
            old(done)@.len() == self.nodes@.len(),
        ensures
            final(done)@.len() == old(done)@.len(),
            keeps_text(final(ret)@, old(ret)@),
        decreases x.id,
    {
        let ghost before = ret@;
        if x.id < 2 {
            return ;
        }
        if done[x.id] {
            return ;
        }
        done.set(x.id, true);
        proof {
            assert(node_ok(self.nodes@, self.n_vars(), x.id as int));
        }
        match self.nodes[x.id] {
            Node::Internal { var, lo, hi } => {
                if lo != 0 {
                    put(ret, "    \\draw[->,dashed] (");
                    let nm = node_name(x.id);
                    put(ret, &nm);
                    put(ret, ") -> (");
                    let lm = node_name(lo);
                    put(ret, &lm);
                    put(ret, ");\n");
                }
                let ghost g1 = ret@;
                proof {
                    assert(keeps_text(g1, before));
                }
                self.dump_tikz_edge_impl(BDD { id: lo }, ret, done);
                let ghost g2 = ret@;
                proof {
                    assert(keeps_text(g2, before));
                }
                if hi != 0 {
                    put(ret, "    \\draw[->       ] (");
                    let nm = node_name(x.id);
                    put(ret, &nm);
                    put(ret, ") -> (");
                    let hm = node_name(hi);
                    put(ret, &hm);
                    put(ret, ");\n");
                }
                let ghost g3 = ret@;
                proof {
                    assert(keeps_text(g3, before));
                }
                self.dump_tikz_edge_impl(BDD { id: hi }, ret, done);
                proof {
                    assert forall|j: int| 0 <= j < before.len() implies ret@[j] == before[j] by {
                        assert(ret@[j] == g3[j]);
                    }
                }
            },
            _ => {},
        }
    }

    /// Renders the DAG reachable from `x` as a TikZ picture: one row per
    /// registered variable label, one circle per internal node, the two
    /// terminals as rectangles, and the cofactor edges.  The text opens the
    /// picture environment and the last thing written closes it.
    pub fn dump_tikz(&self, x: &BDD) -> (ret: String)
        requires
            self.inv(),
            self.valid(*x),
        ensures
            ("\\begin{tikzpicture}[node distance=1cm]\n")@.is_prefix_of(ret@),
            ("\\end{tikzpicture}\n")@.is_suffix_of(ret@),
    {
        let mut ret = String::new();
        put(&mut ret, "\\begin{tikzpicture}[node distance=1cm]\n");
        let ghost hdr = ("\\begin{tikzpicture}[node distance=1cm]\n")@;
        proof {
            assert(ret@ =~= hdr);
        }
        put(
            &mut ret,
            "    \\tikzstyle{BDDnode}=[circle,draw=black,inner sep=0pt,minimum size=5mm]\n",
        );
        put(&mut ret, "    % left nodes\n");
        let mut i: usize = 0;
        while i < self.var_table.len()
            invariant
                i <= self.var_table@.len(),
                keeps_text(ret@, hdr),
            decreases self.var_table@.len() - i,
        {
            put(&mut ret, "    \\node[");
            if i != 0 {
                put(&mut ret, "below of=");
                let vm = var_name(i);
                put(&mut ret, &vm);
            } else {
                put(&mut ret, "           ");
            }
            put(&mut ret, "] (");
            let vm = var_name(i + 1);
            put(&mut ret, &vm);
            put(&mut ret, ") {$\\mathit{");
            put(&mut ret, &self.var_table[i]);
            put(&mut ret, "}$};\n");
            i = i + 1;
        }
        let mut table: Vec<Option<usize>> = Vec::new();
        let nv = self.var_table.len();
        table.push(None);
        let mut j: usize = 0;
        while j < nv
            invariant
                j <= nv,
                table@.len() == j + 1,
            decreases nv - j,
        {
            table.push(None);
            j = j + 1;
        }
        let mut emitted: Vec<bool> = Vec::new();
        let n_nodes = self.nodes.len();
        let mut t: usize = 0;
        while t < n_nodes
            invariant
                t <= n_nodes,
                emitted@.len() == t,
            decreases n_nodes - t,
        {
            emitted.push(false);
            t = t + 1;
        }
        self.dump_tikz_node_impl(*x, &mut table, &mut emitted, &mut ret);
        proof {
            assert(keeps_text(ret@, hdr));
        }
        put(&mut ret, "\n    % terminals\n");
        put(&mut ret, "    \\node[draw=black, style=rectangle, below of=");
        let vm = var_name(self.var_table.len());
        put(&mut ret, &vm);
        put(&mut ret, ", xshift=1.5cm] (n0) {$0$};\n");
        put(&mut ret, "    \\node[draw=black, style=rectangle, right of=n0] (n1) {$1$};\n");
        put(&mut ret, "\n    % edges\n");
        let mut done: Vec<bool> = Vec::new();
        let mut u: usize = 0;
        while u < n_nodes
            invariant
                u <= n_nodes,
                done@.len() == u,
            decreases n_nodes - u,
        {
            done.push(false);
            u = u + 1;
        }
        proof {
            assert(keeps_text(ret@, hdr));
        }
        let ghost g_pre_edges = ret@;
        self.dump_tikz_edge_impl(*x, &mut ret, &mut done);
        let ghost g_body = ret@;
        put(&mut ret, "\\end{tikzpicture}\n");
        proof {
            assert(keeps_text(g_body, hdr)) by {
                assert forall|j2: int| 0 <= j2 < hdr.len() implies g_body[j2] == hdr[j2] by {
                    assert(g_body[j2] == g_pre_edges[j2]);
                }
            }
            assert(hdr.is_prefix_of(ret@)) by {
                assert forall|j2: int| 0 <= j2 < hdr.len() implies ret@[j2] == hdr[j2] by {
                    assert(ret@[j2] == g_body[j2]);
                }
                assert(hdr =~= ret@.subrange(0, hdr.len() as int));
            }
            assert(("\\end{tikzpicture}\n")@.is_suffix_of(ret@)) by {
                assert(("\\end{tikzpicture}\n")@ =~= ret@.subrange(
                    (ret@.len() - ("\\end{tikzpicture}\n")@.len()) as int,
                    ret@.len() as int,
                ));
            }
        }
        ret
    }
}

} // verus!
