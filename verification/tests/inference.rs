use lambda_optimization::infer::{add_lambda, infer, is_dup_safe, is_safe_type, Outcome};
use lambda_optimization::lambda::{app, lam, var, Expr};
use lambda_optimization::net::{Net, Type};

fn key_of(term: &Expr) -> lambda_optimization::net::PartialTypeKey {
    match term {
        Expr::Lam(_, key) => key.unwrap(),
        Expr::App(_, _, key) => key.unwrap(),
        Expr::Var(_, key) => key.unwrap(),
    }
}

fn root_type(src: &str) -> Option<String> {
    let mut term = Expr::from_string(src);
    let result = infer(&mut term);
    match result.outcome {
        Outcome::Typed => Some(result.net.read_type(key_of(&term)).to_string()),
        _ => None,
    }
}

#[test]
fn identity_has_an_arrow_type() {
    assert_eq!(root_type("λa.a"), Some("(A->A)".to_string()));
    assert_eq!(root_type("λx.x"), Some("(A->A)".to_string()));
}

#[test]
fn church_true_keeps_its_first_argument() {
    assert_eq!(root_type("λa.λb.a"), Some("(A->(B->A))".to_string()));
    assert_eq!(root_type("λx.λy.x"), Some("(A->(B->A))".to_string()));
}

#[test]
fn church_false_keeps_its_second_argument() {
    assert_eq!(root_type("λa.λb.b"), Some("(A->(B->B))".to_string()));
}

#[test]
fn application_of_parameters() {
    assert_eq!(root_type("λa.λb.(a b)"), Some("((A->B)->(A->B))".to_string()));
}

#[test]
fn self_application_is_not_typable() {
    let mut term = Expr::from_string("λa.(a a)");
    let result = infer(&mut term);
    assert_eq!(result.outcome, Outcome::NotTypable);
    assert!(!result.net.is_reducible());
    assert!(!result.net.is_equated());
    assert_eq!(root_type("λx.(x x)"), None);
}

#[test]
fn parameter_used_twice_is_cloneable() {
    let written = root_type("λa.λb.(a (a b))").unwrap();
    assert_eq!(written, "(!(A->A)->(A->A))");
}

#[test]
fn every_node_gets_the_handle_of_its_type() {
    let mut term = lam(lam(app(var(1), var(0))));
    let result = infer(&mut term);
    assert_eq!(result.outcome, Outcome::Typed);
    fn all_typed(term: &Expr) -> bool {
        match term {
            Expr::Lam(body, key) => key.is_some() && all_typed(body),
            Expr::App(f, v, key) => key.is_some() && all_typed(f) && all_typed(v),
            Expr::Var(_, key) => key.is_some(),
        }
    }
    assert!(all_typed(&term));
    match &term {
        Expr::Lam(outer, _) => match &**outer {
            Expr::Lam(body, _) => match &**body {
                Expr::App(f, v, key) => {
                    assert_eq!(result.net.read_type(key_of(f)).to_string(), "(A->B)");
                    assert_eq!(result.net.read_type(key_of(v)).to_string(), "A");
                    assert_eq!(result.net.read_type(key.unwrap()).to_string(), "B");
                }
                _ => panic!("the body is an application"),
            },
            _ => panic!("the inner term is a lambda"),
        },
        _ => panic!("the term is a lambda"),
    }
}

#[test]
fn a_typed_lambda_has_an_arrow_under_its_marks() {
    for source in ["λa.a", "λa.λb.a", "λa.λb.(a b)", "λa.λb.(a (a b))", "λf.λx.(f (f (f x)))"] {
        let mut term = Expr::from_string(source);
        let result = infer(&mut term);
        assert_eq!(result.outcome, Outcome::Typed);
        assert!(result.net.read_type(key_of(&term)).arg().is_some());
    }
}

#[test]
fn inference_is_repeatable() {
    for source in ["λa.λb.(a (a b))", "λa.λb.λc.((a c) (b c))", "λa.(a a)"] {
        let mut first = Expr::from_string(source);
        let mut second = Expr::from_string(source);
        let one = infer(&mut first);
        let two = infer(&mut second);
        assert_eq!(one.outcome, two.outcome);
        if one.outcome == Outcome::Typed {
            assert_eq!(
                one.net.read_type(key_of(&first)).to_string(),
                two.net.read_type(key_of(&second)).to_string()
            );
        }
    }
}

#[test]
fn reduction_can_be_done_step_by_step() {
    let mut net = Net::new();
    let mut vars = Vec::new();
    let mut term = Expr::from_string("λa.λb.(a b)");
    let root = add_lambda(&mut net, &mut term, &mut vars);
    net.link(vec![], vec![root]);
    let mut steps = 0;
    while net.is_reducible() {
        assert!(net.can_reduce());
        net.reduce();
        steps += 1;
    }
    assert_eq!(steps, 3);
    assert!(net.is_equated());
    net.assign_free_vars();
    assert_eq!(net.read_type(key_of(&term)).to_string(), "((A->B)->(A->B))");
    let mut whole = Net::new();
    let mut again = Expr::from_string("λa.λb.(a b)");
    let top = add_lambda(&mut whole, &mut again, &mut vars);
    whole.link(vec![], vec![top]);
    whole.reduce_to_fixpoint();
    assert!(!whole.is_reducible());
    assert!(whole.is_equated());
    whole.assign_free_vars();
    assert_eq!(whole.read_type(key_of(&again)).to_string(), "((A->B)->(A->B))");
}

#[test]
fn reducing_a_finished_net_changes_nothing() {
    let mut term = Expr::from_string("λa.λb.(a b)");
    let mut result = infer(&mut term);
    let before = result.net.read_type(key_of(&term)).to_string();
    let lines = result.net.read();
    assert!(result.net.can_reduce());
    result.net.reduce();
    result.net.reduce();
    assert!(!result.net.is_reducible());
    assert!(result.net.is_equated());
    assert_eq!(result.net.read_type(key_of(&term)).to_string(), before);
    assert_eq!(result.net.read(), lines);
}

#[test]
fn unsafe_types_are_not_dup_safe() {
    let mut term = Expr::from_string("(λa.λb.(a (a b)) λx.x)");
    let result = infer(&mut term);
    assert_eq!(result.outcome, Outcome::Typed);
    assert_eq!(result.net.read_type(key_of(&term)).to_string(), "(#A->#A)");
    assert!(!is_dup_safe(&term, &result.net));
    let mut twice = Expr::from_string("λa.λb.(a (a b))");
    let cloned = infer(&mut twice);
    assert!(is_dup_safe(&twice, &cloned.net));
    let mut plain = Expr::from_string("λa.λb.(a b)");
    let typed = infer(&mut plain);
    assert!(is_dup_safe(&plain, &typed.net));
}

#[test]
fn safety_of_types() {
    let a = || Box::new(Type::Var(0));
    assert!(is_safe_type(&Type::Var(3)));
    assert!(is_safe_type(&Type::Arrow { a: a(), b: a() }));
    assert!(is_safe_type(&Type::Cloneable { a: a() }));
    assert!(is_safe_type(&Type::Uncloneable { a: a() }));
    assert!(!is_safe_type(&Type::Unsafe { a: a() }));
    assert!(!is_safe_type(&Type::Arrow { a: a(), b: Box::new(Type::Unsafe { a: a() }) }));
    assert!(!is_safe_type(&Type::Cloneable { a: Box::new(Type::Unsafe { a: a() }) }));
}

#[test]
fn building_counts_the_uses_of_the_outer_variables() {
    let mut net = Net::new();
    let outer = net.new_var();
    let mut vars = vec![(outer, 0)];
    let mut term = lam(app(var(1), app(var(1), var(0))));
    let root = add_lambda(&mut net, &mut term, &mut vars);
    assert_eq!(vars.len(), 1);
    assert_eq!(vars[0].1, 2);
    assert_eq!(net.type_key(&root), key_of(&term));
    net.assert_valid();
}

#[test]
fn the_builder_makes_a_redex_only_for_a_variable_used_once_as_a_function() {
    let mut net = Net::new();
    let mut vars = Vec::new();
    let mut term = lam(lam(var(0)));
    add_lambda(&mut net, &mut term, &mut vars);
    assert!(!net.is_reducible());
    let mut other = Net::new();
    let mut applied = lam(lam(app(var(0), var(1))));
    add_lambda(&mut other, &mut applied, &mut vars);
    assert!(!other.is_reducible());
}

#[test]
fn enumerated_terms_are_classified() {
    let mut typed = 0;
    let mut unsafe_typed = 0;
    let mut untypable = 0;
    for mut term in lambda_optimization::lambda::enumerate_terms(1, 6) {
        let result = infer(&mut term);
        match result.outcome {
            Outcome::Typed => {
                if is_dup_safe(&term, &result.net) {
                    typed += 1;
                } else {
                    unsafe_typed += 1;
                }
            }
            Outcome::NotTypable => untypable += 1,
            Outcome::OutOfRoom => panic!("a small net is not full"),
        }
    }
    assert_eq!(typed + unsafe_typed + untypable, 100);
    assert!(typed > 0);
}
