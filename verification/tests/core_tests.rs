use ascesis::AscesisError;
use ascesis::RexKind;
use ascesis::BinOp;
use ascesis::CesInstance;
use ascesis::CesName;
use ascesis::Context;
use ascesis::FatArrowRule;
use ascesis::ImmediateDef;
use ascesis::NodeList;
use ascesis::PartialContent;
use ascesis::Polynomial;
use ascesis::Rex;
use ascesis::ToCesName;
use ascesis::ThinArrowRule;

fn poly(name: &str) -> Polynomial {
    Polynomial::from_name(name)
}

#[test]
fn polynomial_addition_merges_monomials() {
    let mut p = poly("a");
    p.add_assign(&poly("b"));
    p.add_assign(&poly("a"));
    let expected = Polynomial::from_monomials(vec![vec!["a"], vec!["b"]]);
    assert_eq!(p, expected);
}

#[test]
fn polynomial_multiplication_distributes() {
    let mut p = Polynomial::from_monomials(vec![vec!["a"], vec!["b"]]);
    let q = Polynomial::from_monomials(vec![vec!["c"], vec!["a"]]);
    p.mul_assign(&q);
    let expected = Polynomial::from_monomials(vec![
        vec!["a", "c"],
        vec!["a"],
        vec!["b", "c"],
        vec!["b", "a"],
    ]);
    assert_eq!(p, expected);
}

#[test]
fn polynomial_flatten_collects_all_names() {
    let p = Polynomial::from_monomials(vec![vec!["a", "b"], vec!["b", "c"]]);
    let f = p.flattened_clone();
    let expected = Polynomial::from_monomials(vec![vec!["a", "b", "c"]]);
    assert_eq!(f, expected);
}

#[test]
fn node_list_keeps_first_occurrences() {
    let nl = NodeList::from_names(vec!["a", "b", "a", "c"]);
    let names: Vec<&str> = nl.get_nodes().iter().map(|n| n.as_str()).collect();
    assert_eq!(names, vec!["a", "b", "c"]);
}

#[test]
fn two_monomials_are_not_a_node_list() {
    let p = Polynomial::from_monomials(vec![vec!["a"], vec!["b"]]);
    let err = ThinArrowRule::new().with_nodes(p).unwrap_err();
    assert!(matches!(err, AscesisError::NotANodeList));
}

#[test]
fn ces_names_and_instances() {
    let name: CesName = "main".to_ces_name();
    assert_eq!(name.as_str(), "main");
    let inst = CesInstance::new("m".to_ces_name()).with_args(vec!["x".to_string()]);
    assert_eq!(inst.get_name(), "m");
    let tar = ThinArrowRule::new().with_nodes(poly("a")).unwrap();
    let def = ImmediateDef::new(name, Rex::from_thin(tar));
    assert_eq!(def.get_name(), "main");
}

#[test]
fn compile_fork_attaches_causes_and_effects() {
    // a <= b => c: node b gets effect a + c, nodes a and c get cause b.
    let rex = Rex::from_fat(FatArrowRule::from_parts(
        poly("a"),
        vec![(BinOp::FatRx, poly("b")), (BinOp::FatTx, poly("c"))],
    ));
    let mut ctx = Context::new();
    let content = rex.get_compiled_content(&mut ctx).unwrap();
    let b = ctx.share_node_name("b");
    let a = ctx.share_node_name("a");
    let c = ctx.share_node_name("c");
    assert_eq!(content.get_causes_by_id(a), Some(vec![vec![b]]));
    assert_eq!(content.get_causes_by_id(c), Some(vec![vec![b]]));
    assert_eq!(content.get_effects_by_id(b), Some(vec![vec![a], vec![c]]));
    assert_eq!(content.get_causes_by_id(b), None);
}

#[test]
fn compile_same_content_before_and_after_normalization() {
    // Compiling r and compiling fit_clone(r) against equal contexts agree.
    let rex = Rex::from_fat(FatArrowRule::from_parts(
        poly("a"),
        vec![(BinOp::FatTx, poly("b")), (BinOp::FatTx, poly("c"))],
    ));
    let normalized = rex.fit_clone();
    let mut ctx1 = Context::new();
    let mut ctx2 = Context::new();
    let c1 = rex.get_compiled_content(&mut ctx1).unwrap();
    let c2 = normalized.get_compiled_content(&mut ctx2).unwrap();
    for name in ["a", "b", "c"] {
        let id1 = ctx1.share_node_name(name);
        let id2 = ctx2.share_node_name(name);
        assert_eq!(id1, id2);
        assert_eq!(c1.get_causes_by_id(id1), c2.get_causes_by_id(id2));
        assert_eq!(c1.get_effects_by_id(id1), c2.get_effects_by_id(id2));
    }
}

#[test]
fn missing_instance_is_reported() {
    let rex = Rex::from_instance(CesInstance::new("ghostly".to_ces_name()));
    let ctx = Context::new();
    assert_eq!(rex.check_dependencies(&ctx), Some("ghostly".to_string()));
    let mut ctx = Context::new();
    let err = rex.get_compiled_content(&mut ctx).unwrap_err();
    match err {
        AscesisError::UnexpectedDependency(name) => assert_eq!(name, "ghostly"),
        other => panic!("unexpected error: {:?}", other),
    }
}

#[test]
fn installed_instance_resolves() {
    let rex = Rex::from_instance(CesInstance::new("lib".to_ces_name()));
    let mut ctx = Context::new();
    let mut content = PartialContent::new();
    let id = ctx.share_node_name("n");
    content.add_to_causes(id, &vec![vec![id]]);
    ctx.add_content("lib", content);
    assert_eq!(rex.check_dependencies(&ctx), None);
    let compiled = rex.get_compiled_content(&mut ctx).unwrap();
    assert_eq!(compiled.get_causes_by_id(id), Some(vec![vec![id]]));
}

#[test]
fn dangling_rules_make_an_invalid_tree() {
    // Two rules with no parent: the fold has nowhere to put the second one.
    let t1 = ThinArrowRule::new().with_nodes(poly("a")).unwrap().with_effect(poly("b"));
    let t2 = ThinArrowRule::new().with_nodes(poly("c")).unwrap().with_effect(poly("d"));
    let rex = Rex::from_kinds(vec![RexKind::Thin(t1), RexKind::Thin(t2)]);
    let mut ctx = Context::new();
    let err = rex.get_compiled_content(&mut ctx).unwrap_err();
    assert!(matches!(err, AscesisError::InvalidAST));
}

#[test]
fn content_sum_and_product() {
    let mut a = PartialContent::new();
    a.add_to_causes(1, &vec![vec![2]]);
    let mut b = PartialContent::new();
    b.add_to_causes(1, &vec![vec![3]]);
    b.add_to_effects(4, &vec![vec![5]]);
    a.add_assign(&b);
    assert_eq!(a.get_causes_by_id(1), Some(vec![vec![2], vec![3]]));
    assert_eq!(a.get_effects_by_id(4), Some(vec![vec![5]]));

    let mut c = PartialContent::new();
    c.add_to_causes(1, &vec![vec![2], vec![3]]);
    let mut d = PartialContent::new();
    d.add_to_causes(1, &vec![vec![7]]);
    c.mul_assign(&d);
    assert_eq!(c.get_causes_by_id(1), Some(vec![vec![2, 7], vec![3, 7]]));
}
