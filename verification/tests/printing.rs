use lambda_optimization::infer::{infer, Outcome};
use lambda_optimization::lambda::{Expr, NamedExpr};
use lambda_optimization::net::Net;

fn typed(source: &str) -> (NamedExpr, Net) {
    let mut term = Expr::from_string(source);
    let result = infer(&mut term);
    assert_eq!(result.outcome, Outcome::Typed);
    (term.to_named(), result.net)
}

#[test]
fn every_sub_term_is_written_with_its_type() {
    let (term, net) = typed("λx.x");
    assert_eq!(term.to_annotated_string(&net), "{λa.{a : A} : (A->A)}");
    let (term, net) = typed("λf.λx.(f x)");
    assert_eq!(
        term.to_annotated_string(&net),
        "{λa.{λb.{({a : (A->B)} {b : A}) : B} : (A->B)} : ((A->B)->(A->B))}"
    );
}

#[test]
fn parameters_are_written_with_their_types() {
    let (term, net) = typed("λx.x");
    assert_eq!(term.to_variable_annotated_string(&net), "λ{a: A}.a");
    let (term, net) = typed("λf.λx.(f x)");
    assert_eq!(term.to_variable_annotated_string(&net), "λ{a: (A->B)}.λ{b: A}.(a b)");
}

#[test]
fn one_line_for_every_sub_term() {
    let (term, net) = typed("λf.λx.(f x)");
    assert_eq!(
        term.annotated_terms(&net),
        vec![
            "a: (A->B)",
            "b: A",
            "(a b) : B",
            "λb.(a b) : (A->B)",
            "λa.λb.(a b) : ((A->B)->(A->B))",
        ]
    );
}

#[test]
fn lines_for_lambdas_and_applications() {
    let (term, net) = typed("λf.λx.(f x)");
    assert_eq!(
        term.variable_annotated_terms(&net),
        vec![
            "(a b) : B",
            "(A->B)",
            "λ{b : A}.(a b) : (A->B)",
            "((A->B)->(A->B))",
            "λ{a : (A->B)}.λ{b: A}.(a b) : ((A->B)->(A->B))",
        ]
    );
    let (leaf, leaf_net) = typed("λx.x");
    assert_eq!(
        leaf.variable_annotated_terms(&leaf_net),
        vec!["(A->A)", "λ{a : A}.a : (A->A)"]
    );
}

#[test]
fn residual_equations_are_written_out() {
    let mut term = Expr::from_string("λa.(a a)");
    let mut result = infer(&mut term);
    assert_eq!(result.outcome, Outcome::NotTypable);
    result.net.assign_free_vars();
    assert_eq!(
        result.net.read(),
        vec![
            "redexes:",
            "equations:",
            "B := , 1 refs",
            "A := ! = @A.B, 1 refs",
        ]
    );
}

#[test]
fn lambdas_of_typed_terms_have_arrows() {
    let (term, net) = typed("λf.λx.(f x)");
    assert!(term.has_arrows(&net));
    let (term, net) = typed("λa.λb.(a (a b))");
    assert!(term.has_arrows(&net));

    let mut net = Net::new();
    let t = net.new_type();
    net.assign_free_vars();
    let leaf = NamedExpr::Var(String::from("a"), Some(t));
    assert!(leaf.has_arrows(&net));
    let lambda = NamedExpr::Lam(String::from("a"), Box::new(leaf), Some(t));
    assert!(!lambda.has_arrows(&net));
}
