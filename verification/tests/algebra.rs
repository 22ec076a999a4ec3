use bdd::bdd::{BDD, BDDManager};

#[test]
fn test_identity_laws() {
    let mut mgr = BDDManager::new();
    let v1 = mgr.var("v1".to_string());
    let v2 = mgr.var("v2".to_string());
    let x = mgr.or_op(v1, v2);
    let len_before = mgr.nodes.len();
    let a = mgr.and_op(x, x);
    assert_eq!(a.node_number(), x.node_number());
    let o = mgr.or_op(x, x);
    assert_eq!(o.node_number(), x.node_number());
    let xr = mgr.xor_op(x, x);
    assert!(xr.is_false());
    let e = mgr.eq_op(x, x);
    assert!(e.is_true());
    // none of the four may have allocated a node
    assert_eq!(mgr.nodes.len(), len_before);
    let n1 = mgr.not_op(x);
    let n2 = mgr.not_op(n1);
    assert_eq!(n2.node_number(), x.node_number());
}

/// A small deterministic linear congruential generator for random formulas.
struct Lcg(u64);

impl Lcg {
    fn next(&mut self) -> u64 {
        self.0 = self.0.wrapping_mul(6364136223846793005).wrapping_add(1442695040888963407);
        self.0 >> 33
    }
}

fn rand_formula(mgr: &mut BDDManager, vars: &Vec<BDD>, rng: &mut Lcg, depth: usize) -> BDD {
    if depth == 0 || rng.next() % 4 == 0 {
        vars[(rng.next() as usize) % vars.len()]
    } else {
        let a = rand_formula(mgr, vars, rng, depth - 1);
        let b = rand_formula(mgr, vars, rng, depth - 1);
        match rng.next() % 5 {
            0 => mgr.and_op(a, b),
            1 => mgr.or_op(a, b),
            2 => mgr.xor_op(a, b),
            3 => mgr.eq_op(a, b),
            _ => mgr.not_op(a),
        }
    }
}

#[test]
fn test_de_morgan_and_distributivity() {
    let mut mgr = BDDManager::new();
    let mut vars = vec![];
    for i in 0..6 {
        vars.push(mgr.var(format!("x{}", i + 1)));
    }
    let mut rng = Lcg(0x1234_5678_9abc_def1);
    for _case in 0..40 {
        let f = rand_formula(&mut mgr, &vars, &mut rng, 3);
        let g = rand_formula(&mut mgr, &vars, &mut rng, 3);
        let h = rand_formula(&mut mgr, &vars, &mut rng, 3);

        // De Morgan, by handle identity
        let fg = mgr.and_op(f, g);
        let not_and = mgr.not_op(fg);
        let nf = mgr.not_op(f);
        let ng = mgr.not_op(g);
        let or_nots = mgr.or_op(nf, ng);
        assert_eq!(not_and.node_number(), or_nots.node_number());

        let fg_or = mgr.or_op(f, g);
        let not_or = mgr.not_op(fg_or);
        let and_nots = mgr.and_op(nf, ng);
        assert_eq!(not_or.node_number(), and_nots.node_number());

        // distributivity of AND over OR, by handle identity
        let gh = mgr.or_op(g, h);
        let lhs = mgr.and_op(f, gh);
        let fg2 = mgr.and_op(f, g);
        let fh = mgr.and_op(f, h);
        let rhs = mgr.or_op(fg2, fh);
        assert_eq!(lhs.node_number(), rhs.node_number());

        // brute force against a truth-table evaluation of the operands
        for m in 0..64u32 {
            let assignment: Vec<bool> = (0..6).map(|k| (m >> k) & 1 == 1).collect();
            let fv = f.evaluate(&mgr, &assignment);
            let gv = g.evaluate(&mgr, &assignment);
            let hv = h.evaluate(&mgr, &assignment);
            assert_eq!(not_and.evaluate(&mgr, &assignment), !(fv && gv));
            assert_eq!(not_or.evaluate(&mgr, &assignment), !(fv || gv));
            assert_eq!(lhs.evaluate(&mgr, &assignment), fv && (gv || hv));
        }
    }
}
