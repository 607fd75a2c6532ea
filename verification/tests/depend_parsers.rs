use pkgatom::depend::parsers::{expr, exprs};
use pkgatom::depend::{Conditional, Expr, UseRequirement};

#[test]
fn test_simple_expr() {
    let input = r#"cat/pkg use? ( cat/pkg || ( cat/pkg cat/pkg ) ^^ ( cat/pkg cat/pkg ) )"#;

    let (exprs, _) = exprs(input).unwrap();

    assert_eq!(exprs.len(), 2);

    assert!(matches!(&exprs[0], Expr::Atom(_)));

    assert!(matches!(
        &exprs[1],
        Expr::Conditional(_, exprs)
        if
        matches!(exprs[0], Expr::Atom(_)) &&
        matches!(exprs[1], Expr::AnyOf(_)) &&
        matches!(exprs[2], Expr::OneOf(_))
    ));
}

#[test]
fn test_expr_atom_leaf() {
    let (e, n) = expr("cat/pkg-1.0[a]").unwrap();
    assert_eq!(n, 14);
    assert!(matches!(e, Expr::Atom(_)));
}

#[test]
fn test_expr_use_requirements() {
    let (e, _) = expr("someflag").unwrap();
    assert!(matches!(
        e,
        Expr::UseRequirement(UseRequirement::Positive(ref f)) if f.get() == "someflag"
    ));

    let (e, _) = expr("!someflag").unwrap();
    assert!(matches!(
        e,
        Expr::UseRequirement(UseRequirement::Negative(ref f)) if f.get() == "someflag"
    ));
}

#[test]
fn test_expr_negative_conditional() {
    let (e, _) = expr("!sel? ( cat/pkg )").unwrap();
    assert!(matches!(
        e,
        Expr::Conditional(Conditional::Negative(ref f), ref es)
        if f.get() == "sel" && es.len() == 1
    ));
}

#[test]
fn test_expr_all_of_group() {
    let (e, _) = expr("( cat/pkg other/pkg )").unwrap();
    assert!(matches!(e, Expr::AllOf(ref es) if es.len() == 2));
}

#[test]
fn test_expr_rejects_empty_group() {
    assert!(expr("( )").is_err());
    assert!(expr("()").is_err());
    assert!(expr("|| ( )").is_err());
}

#[test]
fn test_conditional_without_group_is_requirement() {
    // A guard with no following group falls back to a bare USE requirement,
    // leaving the `?` unconsumed.
    let (e, n) = expr("use?x").unwrap();
    assert!(matches!(e, Expr::UseRequirement(UseRequirement::Positive(_))));
    assert_eq!(n, 3);
}
