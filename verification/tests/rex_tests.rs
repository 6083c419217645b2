use ascesis::BinOp;
use ascesis::CesInstance;
use ascesis::FatArrow;
use ascesis::FatArrowRule;
use ascesis::Polynomial;
use ascesis::Rex;
use ascesis::RexKind;
use ascesis::RexTree;
use ascesis::ThinArrowRule;
use ascesis::ToCesName;

fn poly(name: &str) -> Polynomial {
    Polynomial::from_name(name)
}

fn thin(nodes: Vec<Vec<&str>>, cause: Option<&str>, effect: Option<&str>) -> ThinArrowRule {
    let mut tar = ThinArrowRule::new()
        .with_nodes(Polynomial::from_monomials(nodes))
        .unwrap();
    if let Some(c) = cause {
        tar = tar.with_cause(poly(c));
    }
    if let Some(e) = effect {
        tar = tar.with_effect(poly(e));
    }
    tar
}

#[test]
fn test_rex_singles() {
    // { a => b <= c } { d() + e!(f) g!(h, i) } + { { j -> k -> l } { j -> k } { l <- k } }
    let fat = Rex::from_fat(FatArrowRule::from_parts(
        poly("a"),
        vec![(BinOp::FatTx, poly("b")), (BinOp::FatRx, poly("c"))],
    ));
    let d = Rex::from_instance(CesInstance::new("d".to_ces_name()));
    let e = Rex::from_instance(CesInstance::new("e".to_ces_name()).with_args(vec!["f".to_string()]));
    let g = Rex::from_instance(
        CesInstance::new("g".to_ces_name()).with_args(vec!["h".to_string(), "i".to_string()]),
    );
    let inner_sum = d.with_more(vec![(Some(BinOp::Add), e), (None, g)]);
    let first_addend = fat.with_more(vec![(None, inner_sum)]);
    let t1 = thin(vec![vec!["k"]], Some("j"), Some("l"));
    let t2 = thin(vec![vec!["j"]], None, Some("k"));
    let t3 = thin(vec![vec!["l"]], Some("k"), None);
    let second_addend = Rex::from_thin(t1).with_more(vec![(None, Rex::from_thin(t2)), (None, Rex::from_thin(t3))]);
    let rex = first_addend.with_more(vec![(Some(BinOp::Add), second_addend)]);

    let expected = Rex::from_kinds(vec![
        RexKind::Sum(RexTree::from_ids(vec![1, 8])),
        RexKind::Product(RexTree::from_ids(vec![2, 3])),
        RexKind::Fat(FatArrowRule::from_arrows(vec![
            FatArrow::new(poly("a"), poly("b")),
            FatArrow::new(poly("c"), poly("b")),
        ])),
        RexKind::Sum(RexTree::from_ids(vec![4, 5])),
        RexKind::Instance(CesInstance::new("d".to_ces_name())),
        RexKind::Product(RexTree::from_ids(vec![6, 7])),
        RexKind::Instance(CesInstance::new("e".to_ces_name()).with_args(vec!["f".to_string()])),
        RexKind::Instance(
            CesInstance::new("g".to_ces_name()).with_args(vec!["h".to_string(), "i".to_string()]),
        ),
        RexKind::Product(RexTree::from_ids(vec![9, 10, 11])),
        RexKind::Thin(thin(vec![vec!["k"]], Some("j"), Some("l"))),
        RexKind::Thin(thin(vec![vec!["j"]], None, Some("k"))),
        RexKind::Thin(thin(vec![vec!["l"]], Some("k"), None)),
    ]);
    assert_eq!(rex, expected);
}

#[test]
fn test_fit_arrow() {
    // a => b
    let rex = Rex::from_fat(FatArrowRule::from_parts(
        poly("a"),
        vec![(BinOp::FatTx, poly("b"))],
    ));

    let expected_fat = Rex::from_kinds(vec![RexKind::Fat(FatArrowRule::from_arrows(vec![
        FatArrow::new(poly("a"), poly("b")),
    ]))]);
    assert_eq!(rex, expected_fat);

    let rex = rex.fit_clone();

    let expected = Rex::from_kinds(vec![
        RexKind::Sum(RexTree::from_ids(vec![1, 2])),
        RexKind::Thin(thin(vec![vec!["a"]], None, Some("b"))),
        RexKind::Thin(thin(vec![vec!["b"]], Some("a"), None)),
    ]);
    assert_eq!(rex, expected);
}

#[test]
fn test_fit_arrow_sequence() {
    // a => b => c
    let rex = Rex::from_fat(FatArrowRule::from_parts(
        poly("a"),
        vec![(BinOp::FatTx, poly("b")), (BinOp::FatTx, poly("c"))],
    ));
    let rex = rex.fit_clone();

    let expected = Rex::from_kinds(vec![
        RexKind::Sum(RexTree::from_ids(vec![1, 2, 3])),
        RexKind::Thin(thin(vec![vec!["a"]], None, Some("b"))),
        RexKind::Thin(
            ThinArrowRule::new()
                .with_nodes(Polynomial::from_monomials(vec![vec!["b"]]))
                .unwrap()
                .with_cause(poly("a"))
                .with_effect(poly("c")),
        ),
        RexKind::Thin(thin(vec![vec!["c"]], Some("b"), None)),
    ]);
    assert_eq!(rex, expected);
}

#[test]
fn test_fit_fork() {
    // a <= b => c
    let rex = Rex::from_fat(FatArrowRule::from_parts(
        poly("a"),
        vec![(BinOp::FatRx, poly("b")), (BinOp::FatTx, poly("c"))],
    ));
    let rex = rex.fit_clone();

    let expected = Rex::from_kinds(vec![
        RexKind::Sum(RexTree::from_ids(vec![1, 2])),
        RexKind::Thin(
            ThinArrowRule::new()
                .with_nodes(Polynomial::from_monomials(vec![vec!["b"]]))
                .unwrap()
                .with_effect(Polynomial::from_monomials(vec![vec!["a"], vec!["c"]])),
        ),
        RexKind::Thin(
            ThinArrowRule::new()
                .with_nodes(Polynomial::from_monomials(vec![vec!["a", "c"]]))
                .unwrap()
                .with_cause(poly("b")),
        ),
    ]);
    assert_eq!(rex, expected);
}

#[test]
fn test_fit_is_idempotent() {
    // Normalizing twice changes nothing more: fit_clone(fit_clone(r)) == fit_clone(r).
    let rex = Rex::from_fat(FatArrowRule::from_parts(
        poly("a"),
        vec![
            (BinOp::FatDx, poly("b")),
            (BinOp::FatTx, poly("c")),
            (BinOp::FatRx, poly("d")),
        ],
    ));
    let once = rex.fit_clone();
    let twice = once.fit_clone();
    assert_eq!(once, twice);
}

#[test]
fn test_fit_contains_no_fat() {
    let fat = Rex::from_fat(FatArrowRule::from_parts(
        poly("a"),
        vec![(BinOp::FatDx, poly("b"))],
    ));
    let sum = fat.fit_clone();
    for kind in sum.get_kinds() {
        assert!(!matches!(kind, RexKind::Fat(_)));
    }
}

#[test]
fn test_with_more_empty_suffix_returns_self() {
    let t = Rex::from_thin(thin(vec![vec!["a"]], None, Some("b")));
    let u = t.with_more(vec![]);
    let expected = Rex::from_kinds(vec![RexKind::Thin(thin(vec![vec!["a"]], None, Some("b")))]);
    assert_eq!(u, expected);
}
