use lambda_optimization::net::{App, Lam, Net, Node, Type};

fn text(net: &Net, var: &lambda_optimization::net::Var) -> String {
    net.read_type(net.type_key(var)).to_string()
}

#[test]
fn a_new_net_is_empty() {
    let net = Net::new();
    assert!(!net.is_reducible());
    assert!(net.is_equated());
    assert!(net.has_room(1000));
    assert!(!net.has_room(usize::MAX));
    assert!(net.can_reduce());
    assert_eq!(net.read(), vec!["redexes:".to_string(), "equations:".to_string()]);
    let other = Net::default();
    assert!(other.is_equated());
}

#[test]
fn labels_count_up() {
    let mut net = Net::new();
    assert_eq!(net.new_label(), 0);
    assert_eq!(net.new_label(), 1);
    assert_eq!(net.new_label(), 2);
}

#[test]
fn fresh_types_are_distinct_variables() {
    let mut net = Net::new();
    let a = net.new_type();
    let b = net.new_type();
    assert_ne!(a, b);
    net.assign_free_vars();
    assert_eq!(net.read_type(a).to_string(), "A");
    assert_eq!(net.read_type(b).to_string(), "B");
    net.assign_free_vars();
    assert_eq!(net.read_type(a).to_string(), "A");
    assert_eq!(net.read_type(b).to_string(), "B");
}

#[test]
fn variables_of_one_edge_share_its_type() {
    let mut net = Net::new();
    let x = net.new_var();
    let y = net.add_var(&x);
    let z = net.new_var();
    assert!(!net.is_equated());
    assert_eq!(net.type_key(&x), net.type_key(&y));
    assert_ne!(net.type_key(&x), net.type_key(&z));
    let (w1, w2) = net.wire();
    assert_eq!(net.type_key(&w1), net.type_key(&w2));
    net.assert_valid();
    net.assign_free_vars();
    assert_eq!(
        net.read(),
        vec![
            "redexes:".to_string(),
            "equations:".to_string(),
            "A := , 2 refs".to_string(),
            "B := , 1 refs".to_string(),
            "C := , 2 refs".to_string(),
        ]
    );
}

#[test]
fn linking_merges_edges_into_one_of_a_fresh_type() {
    let mut net = Net::new();
    let x = net.new_var();
    let x2 = net.add_var(&x);
    let y = net.new_var();
    let y2 = net.add_var(&y);
    let old_x = net.type_key(&x);
    let old_y = net.type_key(&y);
    let merged = net.link(vec![], vec![x, y]);
    assert_ne!(merged, old_x);
    assert_ne!(merged, old_y);
    assert_eq!(net.type_key(&x2), merged);
    assert_eq!(net.type_key(&y2), merged);
    assert!(!net.is_reducible());
    net.assign_free_vars();
    assert_eq!(net.read_type(old_x).to_string(), "A");
    assert_eq!(net.read_type(old_y).to_string(), "A");
    assert_eq!(net.read_type(merged).to_string(), "A");
    assert_eq!(net.read(), vec!["redexes:", "equations:", "A := , 2 refs"]);
}

#[test]
fn linking_the_last_variables_leaves_a_redex_or_nothing() {
    let mut net = Net::new();
    let x = net.new_var();
    net.link(vec![], vec![x]);
    assert!(net.is_equated());
    assert!(!net.is_reducible());
    let (a, b) = net.wire();
    let root = net.wrap(Node::Lam(Lam { a, b }));
    assert!(!net.is_reducible());
    net.link(vec![Node::AffAnn], vec![root]);
    assert!(net.is_reducible());
    assert!(!net.is_equated());
}

#[test]
fn linking_a_variable_to_a_node_takes_it_off_its_edge() {
    let mut net = Net::new();
    let f = net.new_var();
    let f2 = net.add_var(&f);
    let f3 = net.add_var(&f);
    let (a, b) = net.wire();
    let (c, d) = net.wire();
    let position = net.type_key(&f);
    net.link_var_node(f2, Node::App(App { a, b: c }));
    assert!(!net.is_reducible());
    assert_eq!(net.type_key(&f), position);
    assert_eq!(net.type_key(&f3), position);
    net.link_var_node(f, Node::AffAnn);
    assert!(!net.is_reducible());
    net.link_var_node(f3, Node::AffChk);
    assert!(net.is_reducible());
    net.assert_valid();
    net.assign_free_vars();
    assert_eq!(
        net.read(),
        vec![
            "redexes:",
            "A := @B.C = ! = !, 0 refs",
            "equations:",
            "B := , 2 refs",
            "C := , 2 refs",
        ]
    );
    assert_eq!(text(&net, &b), "B");
    assert_eq!(text(&net, &d), "C");
}

#[test]
fn the_structural_rule_makes_an_arrow() {
    let mut net = Net::new();
    let (a, a2) = net.wire();
    let (b, b2) = net.wire();
    let root = net.wrap(Node::Lam(Lam { a, b }));
    let top = net.type_key(&root);
    net.link(vec![], vec![root]);
    assert!(net.is_reducible());
    net.reduce();
    assert!(!net.is_reducible());
    assert!(!net.is_equated());
    net.assign_free_vars();
    assert_eq!(net.read_type(top).to_string(), "(A->B)");
    assert_eq!(text(&net, &a2), "A");
    assert_eq!(text(&net, &b2), "B");
}

#[test]
fn the_structural_rule_unifies_the_parts_of_its_nodes() {
    let mut net = Net::new();
    let (a, a2) = net.wire();
    let (b, b2) = net.wire();
    let (c, c2) = net.wire();
    let (d, d2) = net.wire();
    let root = net.wrap(Node::Lam(Lam { a, b }));
    let top = net.type_key(&root);
    net.link_var_node(root, Node::App(App { a: c, b: d }));
    net.reduce();
    net.assign_free_vars();
    assert_eq!(net.read_type(top).to_string(), "(A->B)");
    assert_eq!(text(&net, &a2), "A");
    assert_eq!(text(&net, &c2), "A");
    assert_eq!(text(&net, &b2), "B");
    assert_eq!(text(&net, &d2), "B");
    assert_eq!(net.read(), vec!["redexes:", "equations:", "A := , 2 refs", "B := , 2 refs"]);
}

#[test]
fn the_unsafe_rule_drops_the_marks() {
    let mut net = Net::new();
    let (a, a2) = net.wire();
    let (b, b2) = net.wire();
    let root = net.wrap(Node::Lam(Lam { a, b }));
    let top = net.type_key(&root);
    net.link(vec![Node::NAffChk, Node::AffAnn], vec![root]);
    net.reduce();
    assert!(net.is_reducible());
    net.reduce();
    assert!(!net.is_reducible());
    net.assign_free_vars();
    assert_eq!(net.read_type(top).to_string(), "#(A->B)");
    assert_eq!(text(&net, &a2), "A");
    assert_eq!(text(&net, &b2), "B");
}

#[test]
fn a_check_of_cloneability_marks_the_parts_of_a_lambda() {
    let mut net = Net::new();
    let (a, a2) = net.wire();
    let (b, b2) = net.wire();
    let root = net.wrap(Node::Lam(Lam { a, b }));
    let top = net.type_key(&root);
    net.link(vec![Node::AffChk], vec![root]);
    net.reduce();
    net.reduce();
    assert!(!net.is_reducible());
    net.assign_free_vars();
    assert_eq!(net.read_type(top).to_string(), "!(A->B)");
    assert_eq!(
        net.read(),
        vec!["redexes:", "equations:", "A := ?, 1 refs", "B := !, 1 refs"]
    );
    net.link(vec![], vec![a2]);
    net.link(vec![], vec![b2]);
    net.reduce();
    net.reduce();
    assert!(net.is_equated());
    net.assign_free_vars();
    assert_eq!(net.read_type(top).to_string(), "!(?B->!A)");
}

fn finish(net: &mut Net, ends: Vec<lambda_optimization::net::Var>) {
    for end in ends {
        net.link(vec![], vec![end]);
    }
    while net.is_reducible() {
        net.reduce();
    }
    assert!(net.is_equated());
    net.assign_free_vars();
}

#[test]
fn a_check_of_uncloneability_marks_the_parts_of_a_lambda() {
    let mut net = Net::new();
    let (a, a2) = net.wire();
    let (b, b2) = net.wire();
    let root = net.wrap(Node::Lam(Lam { a, b }));
    let top = net.type_key(&root);
    net.link(vec![Node::NAffChk], vec![root]);
    finish(&mut net, vec![a2, b2]);
    assert_eq!(net.read_type(top).to_string(), "?(!B->?A)");
}

#[test]
fn an_annotation_leaves_a_lambda_alone_and_marks_an_application() {
    let mut net = Net::new();
    let (a, a2) = net.wire();
    let (b, b2) = net.wire();
    let root = net.wrap(Node::Lam(Lam { a, b }));
    let top = net.type_key(&root);
    net.link(vec![Node::AffAnn], vec![root]);
    finish(&mut net, vec![a2, b2]);
    assert_eq!(net.read_type(top).to_string(), "!(A->B)");

    let mut other = Net::new();
    let (c, c2) = other.wire();
    let (d, d2) = other.wire();
    let f = other.new_var();
    let position = other.type_key(&f);
    other.link(vec![Node::App(App { a: c, b: d }), Node::AffAnn], vec![f]);
    finish(&mut other, vec![c2, d2]);
    assert_eq!(other.read_type(position).to_string(), "!(?B->!A)");

    let mut third = Net::new();
    let (e, e2) = third.wire();
    let (g, g2) = third.wire();
    let h = third.new_var();
    let place = third.type_key(&h);
    third.link(vec![Node::App(App { a: e, b: g }), Node::NAffAnn], vec![h]);
    finish(&mut third, vec![e2, g2]);
    assert_eq!(third.read_type(place).to_string(), "?(!B->?A)");

    let mut fourth = Net::new();
    let (i, i2) = fourth.wire();
    let (j, j2) = fourth.wire();
    let k = fourth.new_var();
    let spot = fourth.type_key(&k);
    fourth.link(vec![Node::App(App { a: i, b: j }), Node::AffChk], vec![k]);
    finish(&mut fourth, vec![i2, j2]);
    assert_eq!(fourth.read_type(spot).to_string(), "!(A->B)");
}

#[test]
fn the_last_redex_is_reduced_first() {
    let mut net = Net::new();
    let (a, _a2) = net.wire();
    let (b, _b2) = net.wire();
    let first = net.wrap(Node::Lam(Lam { a, b }));
    let first_type = net.type_key(&first);
    net.link(vec![], vec![first]);
    let (c, _c2) = net.wire();
    let (d, _d2) = net.wire();
    let second = net.wrap(Node::App(App { a: c, b: d }));
    let second_type = net.type_key(&second);
    net.link(vec![], vec![second]);
    net.reduce();
    assert!(net.is_reducible());
    net.assign_free_vars();
    assert!(net.read_type(second_type).arg().is_some());
    assert!(net.read_type(first_type).arg().is_none());
    net.reduce();
    assert!(!net.is_reducible());
    net.assign_free_vars();
    assert_eq!(net.read_type(first_type).to_string(), "(A->B)");
    assert_eq!(net.read_type(second_type).to_string(), "(C->D)");
}

#[test]
fn types_are_written_and_taken_apart() {
    let var = |i| Box::new(Type::Var(i));
    let arrow = Type::Arrow { a: var(0), b: var(27) };
    assert_eq!(arrow.to_string(), "(A->AB)");
    assert_eq!(Type::Cloneable { a: var(1) }.to_string(), "!B");
    assert_eq!(Type::Uncloneable { a: var(2) }.to_string(), "?C");
    assert_eq!(Type::Unsafe { a: var(3) }.to_string(), "#D");
    assert_eq!(arrow.arg(), Some(Type::Var(0)));
    assert_eq!(Type::Var(4).arg(), None);
    assert_eq!(Type::Cloneable { a: var(0) }.arg(), None);
    let marked = Type::Unsafe {
        a: Box::new(Type::Cloneable {
            a: Box::new(Type::Uncloneable { a: Box::new(Type::Arrow { a: var(5), b: var(6) }) }),
        }),
    };
    assert_eq!(marked.to_string(), "#!?(F->G)");
    assert_eq!(marked.arg(), Some(Type::Var(5)));
}
