use bdd::bdd::BDDManager;

#[test]
fn test_mk_canonicity() {
    // two mk calls with equal arguments return handles with equal identity,
    // and the second one allocates nothing
    let mut mgr = BDDManager::new();
    let a = mgr.var("a".to_string());
    let f = mgr.false_bdd();
    let t = mgr.true_bdd();
    let len_before = mgr.nodes.len();
    let again = mgr.mk(1, f, t);
    assert_eq!(again.node_number(), a.node_number());
    assert_eq!(mgr.nodes.len(), len_before);
}

#[test]
fn test_mk_reduction() {
    // mk with equal children returns that child unchanged, never allocating
    let mut mgr = BDDManager::new();
    let _a = mgr.var("a".to_string());
    let b = mgr.var("b".to_string());
    let len_before = mgr.nodes.len();
    let r = mgr.mk(1, b, b);
    assert_eq!(r.node_number(), b.node_number());
    assert_eq!(mgr.nodes.len(), len_before);
    let t = mgr.true_bdd();
    let r2 = mgr.mk(2, t, t);
    assert_eq!(r2.node_number(), 1);
    assert_eq!(mgr.nodes.len(), len_before);
}

#[test]
fn test_duplicate_labels() {
    // labels need not be unique: ranks come from registration order alone
    let mut mgr = BDDManager::new();
    let a = mgr.var("x".to_string());
    let b = mgr.var("x".to_string());
    assert_ne!(a.node_number(), b.node_number());
    assert_eq!(a.var(&mgr), 1);
    assert_eq!(b.var(&mgr), 2);
}

#[test]
fn test_walk_interface() {
    let mut mgr = BDDManager::new();
    let a = mgr.var("a".to_string());
    assert!(!a.is_constant());
    assert_eq!(a.var(&mgr), 1);
    assert_eq!(a.low(&mgr).unwrap().node_number(), 0);
    assert_eq!(a.high(&mgr).unwrap().node_number(), 1);
    let f = mgr.false_bdd();
    let t = mgr.true_bdd();
    assert!(f.is_false());
    assert!(!f.is_true());
    assert!(t.is_true());
    assert!(t.is_constant());
    assert!(t.low(&mgr).is_none());
    assert!(t.high(&mgr).is_none());
    let tikz = mgr.dump_tikz(&a);
    assert!(tikz.starts_with("\\begin{tikzpicture}"));
    assert!(tikz.ends_with("\\end{tikzpicture}\n"));
    assert!(tikz.contains("(n2)"));
}
