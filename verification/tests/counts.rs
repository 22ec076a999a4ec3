use bdd::bdd::BDDManager;

#[test]
fn test_count_constants() {
    // constant true over n variables counts 2^n, constant false counts 0
    let mut mgr = BDDManager::new();
    for i in 0..5 {
        mgr.var(format!("v{}", i + 1));
    }
    let t = mgr.true_bdd();
    let f = mgr.false_bdd();
    assert_eq!(t.count_answers(&mgr, 5), 32);
    assert_eq!(f.count_answers(&mgr, 5), 0);
}

#[test]
fn test_count_no_variables() {
    // over an empty registry the constant true has the one empty assignment
    let mgr = BDDManager::new();
    let t = mgr.true_bdd();
    let f = mgr.false_bdd();
    assert_eq!(t.count_answers(&mgr, 0), 1);
    assert_eq!(f.count_answers(&mgr, 0), 0);
    assert_eq!(t.count_nodes(&mgr), 1);
}

#[test]
fn test_count_single_variable() {
    let mut mgr = BDDManager::new();
    let v1 = mgr.var("v1".to_string());
    assert_eq!(v1.count_answers(&mgr, 1), 1);
}

#[test]
fn test_count_skipped_first_variable() {
    // a variable the formula never tests is unconstrained, also when it is
    // ordered before the root
    let mut mgr = BDDManager::new();
    let v1 = mgr.var("v1".to_string());
    let v2 = mgr.var("v2".to_string());
    assert_eq!(v1.count_answers(&mgr, 2), 2);
    assert_eq!(v2.count_answers(&mgr, 2), 2);
    let both = mgr.and_op(v1, v2);
    assert_eq!(both.count_answers(&mgr, 2), 1);
    let either = mgr.or_op(v1, v2);
    assert_eq!(either.count_answers(&mgr, 2), 3);
}

#[test]
fn test_count_largest_registry() {
    // the largest registry the counter supports: 63 variables
    let mut mgr = BDDManager::new();
    for i in 0..63 {
        mgr.var(format!("v{}", i + 1));
    }
    let t = mgr.true_bdd();
    assert_eq!(t.count_answers(&mgr, 63), 1u64 << 63);
}

#[test]
fn test_count_nodes() {
    let mut mgr = BDDManager::new();
    let v1 = mgr.var("v1".to_string());
    let v2 = mgr.var("v2".to_string());
    // a single-variable BDD reaches its own node and the two terminals
    assert_eq!(v1.count_nodes(&mgr), 3);
    let f = mgr.and_op(v1, v2);
    assert_eq!(f.count_nodes(&mgr), 4);
    assert!(f.count_nodes(&mgr) <= mgr.nodes.len());
    // terminals alone
    let t = mgr.true_bdd();
    assert_eq!(t.count_nodes(&mgr), 1);
}

#[test]
fn test_count_nodes_rederived() {
    // an equal function derived through another operator sequence comes back
    // as the identical handle, so its node count cannot change
    let mut mgr = BDDManager::new();
    let v1 = mgr.var("v1".to_string());
    let v2 = mgr.var("v2".to_string());
    let f = mgr.and_op(v1, v2);
    let n1 = mgr.not_op(v1);
    let n2 = mgr.not_op(v2);
    let d = mgr.or_op(n1, n2);
    let g = mgr.not_op(d);
    assert_eq!(g.node_number(), f.node_number());
    assert_eq!(g.count_nodes(&mgr), f.count_nodes(&mgr));
}

#[test]
fn test_evaluate() {
    let mut mgr = BDDManager::new();
    let v1 = mgr.var("v1".to_string());
    let v2 = mgr.var("v2".to_string());
    let f = mgr.xor_op(v1, v2);
    assert_eq!(f.evaluate(&mgr, &vec![false, false]), false);
    assert_eq!(f.evaluate(&mgr, &vec![true, false]), true);
    assert_eq!(f.evaluate(&mgr, &vec![false, true]), true);
    assert_eq!(f.evaluate(&mgr, &vec![true, true]), false);
}
