use lambda_optimization::lambda::{
    app, enumerate_terms, enumerate_terms_depth, lam, var, Expr, NamedExpr, NamedExprParser,
};
use lambda_optimization::util::{alphabetize, to_decimal, variable_name};

fn named_lam(name: &str, body: NamedExpr) -> NamedExpr {
    NamedExpr::Lam(name.to_string(), Box::new(body), None)
}

fn named_app(f: NamedExpr, v: NamedExpr) -> NamedExpr {
    NamedExpr::App(Box::new(f), Box::new(v), None)
}

fn named_var(name: &str) -> NamedExpr {
    NamedExpr::Var(name.to_string(), None)
}

fn parse(source: &str) -> Result<NamedExpr, String> {
    NamedExprParser::new(source).parse()
}

#[test]
fn type_variables_are_named_in_bijective_base_26() {
    assert_eq!(alphabetize(0), "A");
    assert_eq!(alphabetize(1), "B");
    assert_eq!(alphabetize(25), "Z");
    assert_eq!(alphabetize(26), "AA");
    assert_eq!(alphabetize(27), "AB");
    assert_eq!(alphabetize(51), "AZ");
    assert_eq!(alphabetize(52), "BA");
    assert_eq!(alphabetize(701), "ZZ");
    assert_eq!(alphabetize(702), "AAA");
}

#[test]
fn bound_variables_are_named_in_lower_case() {
    assert_eq!(variable_name(0), "a");
    assert_eq!(variable_name(25), "z");
    assert_eq!(variable_name(26), "aa");
    assert_eq!(variable_name(28), "ac");
}

#[test]
fn numbers_are_written_in_decimal() {
    assert_eq!(to_decimal(0), "0");
    assert_eq!(to_decimal(7), "7");
    assert_eq!(to_decimal(10), "10");
    assert_eq!(to_decimal(4096), "4096");
    assert_eq!(to_decimal(usize::MAX), usize::MAX.to_string());
}

#[test]
fn builders_make_terms_without_types() {
    assert_eq!(var(3), Expr::Var(3, None));
    assert_eq!(lam(var(0)), Expr::Lam(Box::new(Expr::Var(0, None)), None));
    assert_eq!(
        app(var(0), var(1)),
        Expr::App(Box::new(Expr::Var(0, None)), Box::new(Expr::Var(1, None)), None)
    );
}

#[test]
fn parser_reads_the_three_forms() {
    assert_eq!(parse("x"), Ok(named_var("x")));
    assert_eq!(parse("λx.x"), Ok(named_lam("x", named_var("x"))));
    assert_eq!(parse("(f x)"), Ok(named_app(named_var("f"), named_var("x"))));
    assert_eq!(
        parse("λa.λb.(a (a b))"),
        Ok(named_lam(
            "a",
            named_lam("b", named_app(named_var("a"), named_app(named_var("a"), named_var("b"))))
        ))
    );
}

#[test]
fn parser_skips_white_space_and_comments() {
    let plain = parse("λf.(f x)");
    assert_eq!(parse("  λf.(f x)"), plain);
    assert_eq!(parse("λ f . ( f\n\tx )"), plain);
    assert_eq!(parse("// a term\nλf. // its body\n(f x)"), plain);
    assert_eq!(parse("λf.(f x) trailing"), plain);
}

#[test]
fn parser_takes_names_as_runs_of_characters() {
    assert_eq!(parse("foo_1"), Ok(named_var("foo_1")));
    assert_eq!(parse("a-b/c$"), Ok(named_var("a-b/c$")));
    assert_eq!(parse("x'"), Ok(named_var("x'")));
    assert_eq!(parse("x.y"), Ok(named_var("x")));
    assert_eq!(parse("(xλy.y)"), Ok(named_app(named_var("x"), named_lam("y", named_var("y")))));
    assert_eq!(parse("λlong name.x"), Err("PARSE_ERROR\n- expected: .\n- detected at: 6".to_string()));
    assert_eq!(parse("λ.x"), Ok(named_lam("", named_var("x"))));
}

#[test]
fn parser_moves_behind_the_term() {
    let mut parser = NamedExprParser::new("(a b) (c d)");
    assert_eq!(parser.parse(), Ok(named_app(named_var("a"), named_var("b"))));
    assert_eq!(parser.parse(), Ok(named_app(named_var("c"), named_var("d"))));
    assert_eq!(parser.parse(), Err("PARSE_ERROR\n- expected: name\n- detected at: 11".to_string()));
}

#[test]
fn parser_says_what_it_expected() {
    assert_eq!(parse(""), Err("PARSE_ERROR\n- expected: name\n- detected at: 0".to_string()));
    assert_eq!(parse("   "), Err("PARSE_ERROR\n- expected: name\n- detected at: 3".to_string()));
    assert_eq!(parse(")"), Err("PARSE_ERROR\n- expected: name\n- detected at: 0".to_string()));
    assert_eq!(parse("λx"), Err("PARSE_ERROR\n- expected: .\n- detected at: 2".to_string()));
    assert_eq!(parse("λx x"), Err("PARSE_ERROR\n- expected: .\n- detected at: 3".to_string()));
    assert_eq!(parse("(f x"), Err("PARSE_ERROR\n- expected: )\n- detected at: 4".to_string()));
    assert_eq!(parse("(f x y)"), Err("PARSE_ERROR\n- expected: )\n- detected at: 5".to_string()));
    assert_eq!(parse("(f"), Err("PARSE_ERROR\n- expected: name\n- detected at: 2".to_string()));
    assert_eq!(parse("λx.(x"), Err("PARSE_ERROR\n- expected: name\n- detected at: 5".to_string()));
}

#[test]
fn names_become_indices() {
    assert_eq!(Expr::from_string("λa.a"), lam(var(0)));
    assert_eq!(Expr::from_string("λa.λb.a"), lam(lam(var(1))));
    assert_eq!(Expr::from_string("λa.λb.b"), lam(lam(var(0))));
    assert_eq!(Expr::from_string("λa.λb.(a (a b))"), lam(lam(app(var(1), app(var(1), var(0))))));
    assert_eq!(Expr::from_string("λx.λx.x"), lam(lam(var(0))));
    assert_eq!(Expr::from_string("λx.(λx.x x)"), lam(app(lam(var(0)), var(0))));
}

#[test]
fn names_are_looked_up_in_the_bindings_around_the_term() {
    let term = NamedExpr::from_string("λy.(x y)");
    let mut variables = vec![("x".to_string(), 0), ("z".to_string(), 1)];
    assert!(term.is_bound_in(2, &mut variables));
    assert_eq!(term.to_debrujin(2, &mut variables), lam(app(var(2), var(0))));
    assert_eq!(variables, vec![("x".to_string(), 0), ("z".to_string(), 1)]);
    let mut shadowed = vec![("x".to_string(), 0), ("x".to_string(), 1)];
    assert_eq!(term.to_debrujin(2, &mut shadowed), lam(app(var(1), var(0))));
}

#[test]
fn free_names_are_found() {
    let mut variables = Vec::new();
    assert!(NamedExpr::from_string("λx.x").is_bound_in(0, &mut variables));
    assert!(!NamedExpr::from_string("λx.y").is_bound_in(0, &mut variables));
    assert!(!NamedExpr::from_string("x").is_bound_in(0, &mut variables));
    assert!(!NamedExpr::from_string("(λx.x x)").is_bound_in(0, &mut variables));
    let mut late = vec![("x".to_string(), 5)];
    assert!(!named_var("x").is_bound_in(5, &mut late));
    assert!(named_var("x").is_bound_in(6, &mut late));
    assert!(variables.is_empty());
}

#[test]
fn indices_become_names() {
    assert_eq!(lam(var(0)).to_named(), named_lam("a", named_var("a")));
    assert_eq!(
        lam(lam(app(var(1), var(0)))).to_named(),
        named_lam("a", named_lam("b", named_app(named_var("a"), named_var("b"))))
    );
    assert_eq!(
        app(lam(var(0)), lam(lam(var(1)))).to_named(),
        named_app(named_lam("a", named_var("a")), named_lam("b", named_lam("c", named_var("b"))))
    );
    let mut vars = vec!["p".to_string(), "q".to_string()];
    let mut next = 30;
    assert_eq!(
        lam(app(var(2), var(1))).to_named_free_vars(&mut vars, &mut next),
        named_lam("ae", named_app(named_var("p"), named_var("q")))
    );
    assert_eq!(next, 31);
    assert_eq!(vars, vec!["p".to_string(), "q".to_string()]);
}

#[test]
fn naming_and_indexing_are_inverse() {
    for source in ["λa.a", "λa.λb.(a b)", "(λa.a λb.λc.(c b))", "λa.(λb.(b a) λc.(c (c a)))"] {
        let term = Expr::from_string(source);
        let named = term.to_named();
        assert_eq!(named.to_string(), source);
        let mut variables = Vec::new();
        assert_eq!(named.to_debrujin(0, &mut variables), term);
    }
}

#[test]
fn terms_are_written() {
    assert_eq!(lam(lam(app(var(1), var(0)))).to_string(), "λλ(1 0)");
    assert_eq!(var(12).to_string(), "12");
    assert_eq!(app(lam(var(0)), var(3)).to_string(), "(λ0 3)");
    assert_eq!(named_lam("x", named_app(named_var("x"), named_var("y"))).to_string(), "λx.(x y)");
    assert_eq!(lam(var(0)).duplicate(), lam(var(0)));
}

#[test]
fn terms_of_a_depth() {
    assert_eq!(enumerate_terms_depth(1, 0), Vec::<Expr>::new());
    assert_eq!(enumerate_terms_depth(1, 3), vec![var(0), var(1), var(2)]);
    assert_eq!(enumerate_terms_depth(2, 0), vec![lam(var(0))]);
    assert_eq!(
        enumerate_terms_depth(2, 2),
        vec![
            lam(var(0)),
            lam(var(1)),
            lam(var(2)),
            app(var(0), var(0)),
            app(var(0), var(1)),
            app(var(1), var(0)),
            app(var(1), var(1)),
        ]
    );
    assert_eq!(
        enumerate_terms_depth(3, 0),
        vec![lam(lam(var(0))), lam(lam(var(1))), lam(app(var(0), var(0)))]
    );
    assert_eq!(
        enumerate_terms_depth(3, 1),
        vec![
            lam(lam(var(0))),
            lam(lam(var(1))),
            lam(lam(var(2))),
            lam(app(var(0), var(0))),
            lam(app(var(0), var(1))),
            lam(app(var(1), var(0))),
            lam(app(var(1), var(1))),
            app(var(0), lam(var(0))),
            app(var(0), lam(var(1))),
            app(var(0), app(var(0), var(0))),
            app(lam(var(0)), var(0)),
            app(lam(var(1)), var(0)),
            app(app(var(0), var(0)), var(0)),
        ]
    );
}

#[test]
fn terms_of_a_range_of_depths() {
    assert_eq!(enumerate_terms(1, 1), Vec::<Expr>::new());
    assert_eq!(enumerate_terms(3, 2), Vec::<Expr>::new());
    assert_eq!(enumerate_terms(1, 3), vec![lam(var(0))]);
    assert_eq!(
        enumerate_terms(2, 4),
        vec![lam(var(0)), lam(lam(var(0))), lam(lam(var(1))), lam(app(var(0), var(0)))]
    );
    assert_eq!(enumerate_terms(4, 5).len(), 14);
    assert_eq!(enumerate_terms(1, 6).len(), 100);
}

#[test]
fn every_term_of_a_depth_is_listed_once() {
    let terms = enumerate_terms_depth(4, 1);
    assert_eq!(terms.len(), 76);
    for (i, t) in terms.iter().enumerate() {
        assert!(t.is_closed_under(1));
        assert!(!terms[..i].contains(t));
    }
    let wanted = [
        app(var(0), app(var(0), lam(var(1)))),
        app(app(var(0), var(0)), app(var(0), var(0))),
        app(lam(var(1)), lam(var(0))),
        lam(lam(app(var(2), var(0)))),
        lam(app(var(1), lam(var(2)))),
    ];
    for t in wanted.iter() {
        assert!(terms.contains(t));
    }
    assert!(!terms.contains(&lam(lam(lam(var(4))))));
}

#[test]
fn closed_terms_are_told_apart() {
    assert!(lam(var(0)).is_closed_under(0));
    assert!(!lam(var(1)).is_closed_under(0));
    assert!(lam(var(1)).is_closed_under(1));
    assert!(!var(0).is_closed_under(0));
    assert!(app(lam(var(0)), lam(lam(var(1)))).is_closed_under(0));
    assert!(!app(lam(var(0)), lam(lam(var(2)))).is_closed_under(0));
    assert!(var(usize::MAX - 1).is_closed_under(usize::MAX));
    assert!(lam(var(usize::MAX)).is_closed_under(usize::MAX));
    assert!(!var(usize::MAX).is_closed_under(usize::MAX));
}

#[test]
fn terms_are_measured() {
    let term = lam(app(var(0), lam(var(1))));
    assert!(!term.size_within(0));
    assert!(!term.size_within(4));
    assert!(term.size_within(5));
    assert!(term.size_within(usize::MAX));
    assert!(var(0).size_within(1));
}
