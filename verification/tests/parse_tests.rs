use asp_solver::parser::{
    parse, parse_atom, parse_numbered, parse_rule, split_top_level_commas, try_parse, try_parse_rule,
};
use asp_solver::program::{ParsedRule, PredicateArg, RuleHead, RuleKind, Variable};

#[test]
fn test_parse_graph() {
    let program = parse(
        "color(blue). color(green). color(red).
            node(1). node(2). node(3).
            edge(1,2). edge(2,3). edge(1,3).
            edge(2,1). edge(3,2). edge(3,1).
            1{colored(N,C):color(C)}1 :- node(N).
            :- colored(N,C), colored(M,C), edge(M,N).",
    );
    assert_eq!(program.ground_atoms.len(), 12);
    assert_eq!(program.rules.len(), 2);
    assert_eq!(program.rules[0].head.is_none(), false);
    assert_eq!(program.rules[0].body.len(), 1);
    assert_eq!(program.rules[1].id, program.rules[0].id + 1);
    match program.rules[0].head.as_ref().unwrap() {
        RuleHead::Atom(_) => {}
        RuleHead::Choice(choice) => {
            assert_eq!(choice.min, 1);
            assert_eq!(choice.max, 1);
        }
    }
    assert_eq!(program.rules[1].head.is_none(), true);
    assert_eq!(program.rules[1].body.len(), 3);
    assert_eq!(program.rules[1].body[0].predicate.name, "colored");
    assert_eq!(program.rules[1].body[1].args[0], PredicateArg::Variable(Variable { name: "M".to_string() }));
    assert_eq!(program.rules[1].body[1].args[1], PredicateArg::Variable(Variable { name: "C".to_string() }));
    assert_eq!(program.rules[1].body[1].args[0], PredicateArg::Variable(Variable { name: "M".to_string() }));
    assert_eq!(program.rules[1].body[1].args[1], PredicateArg::Variable(Variable { name: "C".to_string() }));
}

#[test]
fn choice_rule_fields() {
    let program = parse("2{p(X):q(X)}5 :- r(X).");
    assert_eq!(program.rules.len(), 1);
    let rule = &program.rules[0];
    assert!(matches!(rule.kind, RuleKind::Choice));
    match rule.head.as_ref().unwrap() {
        RuleHead::Choice(c) => {
            assert_eq!(c.min, 2);
            assert_eq!(c.max, 5);
            assert_eq!(c.choice_atom.predicate.name, "p");
            assert_eq!(c.body_atoms.len(), 1);
            assert_eq!(c.body_atoms[0].predicate.name, "q");
        }
        RuleHead::Atom(_) => panic!("expected a choice head"),
    }
}

#[test]
fn choice_bound_too_large_reads_as_zero() {
    let program = parse("70000{p(X):q(X)}1 :- r(X).");
    match program.rules[0].head.as_ref().unwrap() {
        RuleHead::Choice(c) => {
            assert_eq!(c.min, 0);
            assert_eq!(c.max, 1);
        }
        RuleHead::Atom(_) => panic!("expected a choice head"),
    }
}

#[test]
fn rule_ids_are_consecutive_from_zero() {
    let program = parse("a(X) :- b(X). c(X) :- d(X). e(1). :- f(X).");
    assert_eq!(program.rules.len(), 3);
    for (i, r) in program.rules.iter().enumerate() {
        assert_eq!(r.id, i);
    }
    assert_eq!(program.ground_atoms.len(), 1);
}

#[test]
fn comments_and_blank_lines_are_skipped() {
    let program = parse("% a comment. with dots.\n\n   \nfact(a).\r\n  % another\nfact(b).\n");
    assert_eq!(program.ground_atoms.len(), 2);
    assert_eq!(program.ground_atoms[0].args[0].name, "a");
    assert_eq!(program.ground_atoms[1].args[0].name, "b");
}

#[test]
fn negated_ground_atom() {
    let program = parse("not p(a, b).");
    let g = &program.ground_atoms[0];
    assert!(g.negated);
    assert_eq!(g.name, "p");
    assert_eq!(g.args.len(), 2);
    assert_eq!(g.args[1].name, "b");
}

#[test]
fn ground_atom_without_arguments() {
    let program = parse("rain.");
    let g = &program.ground_atoms[0];
    assert_eq!(g.name, "rain");
    assert_eq!(g.args.len(), 0);
    assert!(!g.negated);
}

#[test]
fn ground_atom_keeps_blank_arguments() {
    let program = parse("p(a,,b).");
    let g = &program.ground_atoms[0];
    assert_eq!(g.args.len(), 3);
    assert_eq!(g.args[1].name, "");
}

#[test]
fn regular_rule_with_negated_body() {
    let program = parse("colored(X,X) :- color(X), not node(X).");
    let rule = &program.rules[0];
    assert!(matches!(rule.kind, RuleKind::Regular));
    assert_eq!(rule.body.len(), 2);
    assert!(!rule.body[0].negated);
    assert!(rule.body[1].negated);
    assert_eq!(rule.body[1].predicate.name, "node");
    match rule.head.as_ref().unwrap() {
        RuleHead::Atom(a) => {
            assert_eq!(a.predicate.name, "colored");
            assert_eq!(a.predicate.arity, 2);
        }
        RuleHead::Choice(_) => panic!("expected an atom head"),
    }
}

#[test]
fn atom_arguments_split_into_variables_and_literals() {
    let atom = parse_atom("  p(X, a, Yb)  ");
    assert_eq!(atom.predicate.name, "p");
    assert_eq!(atom.predicate.arity, 3);
    assert_eq!(atom.args[0], PredicateArg::Variable(Variable { name: "X".to_string() }));
    assert!(matches!(&atom.args[1], PredicateArg::Literal(l) if l.name == "a"));
    assert!(matches!(&atom.args[2], PredicateArg::Variable(v) if v.name == "Yb"));
    assert!(!atom.negated);
}

#[test]
fn atom_with_nested_parentheses_keeps_first_group() {
    let atom = parse_atom("p(f(a),b)");
    assert_eq!(atom.predicate.name, "p");
    assert_eq!(atom.args.len(), 1);
    assert!(matches!(&atom.args[0], PredicateArg::Literal(l) if l.name == "f"));
}

#[test]
fn negated_atom_name() {
    let atom = parse_atom("not q(Z)");
    assert!(atom.negated);
    assert_eq!(atom.predicate.name, "q");
}

#[test]
fn top_level_commas() {
    let parts = split_top_level_commas(" a(X,Y) , b(Z),, c ");
    assert_eq!(parts, vec!["a(X,Y)".to_string(), "b(Z)".to_string(), "c".to_string()]);
}

#[test]
fn unmatched_close_parenthesis_does_not_go_below_zero() {
    let parts = split_top_level_commas("a), b(c,d), e");
    assert_eq!(parts, vec!["a)".to_string(), "b(c,d)".to_string(), "e".to_string()]);
}

#[test]
fn constraint_statement() {
    match parse_rule(":- a(X), b(X)", 7) {
        ParsedRule::Rule(r) => {
            assert!(r.head.is_none());
            assert!(matches!(r.kind, RuleKind::Constraint));
            assert_eq!(r.id, 7);
            assert_eq!(r.body.len(), 2);
        }
        ParsedRule::GroundAtom(_) => panic!("expected a rule"),
    }
}

#[test]
fn try_parse_refuses_unreadable_body_atom() {
    assert!(try_parse("a(X) :- b.").is_none());
    assert!(try_parse("a(X) :- b(X).").is_some());
    assert!(try_parse("c(1).").is_some());
}

#[test]
fn try_parse_rule_checks_first() {
    assert!(try_parse_rule("a(X) :- b", 0).is_none());
    assert!(try_parse_rule("1{p(X):q}1 :- r(X)", 0).is_none());
    match try_parse_rule("p(a, b)", 3) {
        Some(ParsedRule::GroundAtom(g)) => assert_eq!(g.args.len(), 2),
        _ => panic!("expected a ground atom"),
    }
}

#[test]
fn numbered_reading_continues_identifiers() {
    let first = parse_numbered("a(X) :- b(X). c(1). d(X) :- e(X).", 0);
    let ids: Vec<usize> = first.rules.iter().map(|r| r.id).collect();
    assert_eq!(ids, vec![0, 1]);
    let next = parse_numbered("f(X) :- g(X). :- h(X).", 0 + first.rules.len());
    let ids: Vec<usize> = next.rules.iter().map(|r| r.id).collect();
    assert_eq!(ids, vec![2, 3]);
    let shifted = parse_numbered("a(X) :- b(X). c(1). d(X) :- e(X).", 40);
    assert_eq!(shifted.rules[0].id, 40);
    assert_eq!(shifted.rules[1].id, 41);
    assert_eq!(shifted.ground_atoms, first.ground_atoms);
}

#[test]
fn numbered_reading_wraps_past_the_largest_identifier() {
    let program = parse_numbered("a(X) :- b(X). c(X) :- d(X).", usize::MAX);
    assert_eq!(program.rules[0].id, usize::MAX);
    assert_eq!(program.rules[1].id, 0);
}

#[test]
fn inserted_comment_or_blank_line_changes_nothing() {
    let plain = parse("a(1). b(2)\nc(X) :- a(X). :- b(X).");
    for middle in ["", "   ", "% c(9). d(X) :- c(X).", "  %%"] {
        let source = format!("a(1). b(2)\n{}\nc(X) :- a(X). :- b(X).", middle);
        let program = parse(&source);
        assert_eq!(program.ground_atoms, plain.ground_atoms);
        assert_eq!(program.rules.len(), plain.rules.len());
        for (r, q) in program.rules.iter().zip(plain.rules.iter()) {
            assert_eq!(r.id, q.id);
            assert_eq!(r.body.len(), q.body.len());
            assert_eq!(r.body[0].predicate.name, q.body[0].predicate.name);
            assert_eq!(r.head.is_none(), q.head.is_none());
        }
    }
}

#[test]
fn uppercase_first_letter_makes_a_variable_in_and_beyond_ascii() {
    let atom = parse_atom("p(X, x, 1, \u{c9}t\u{e9}, \u{e9}, _Y)");
    assert_eq!(atom.args[0], PredicateArg::Variable(Variable { name: "X".to_string() }));
    assert!(matches!(atom.args[1], PredicateArg::Literal(_)));
    assert!(matches!(atom.args[2], PredicateArg::Literal(_)));
    assert!(matches!(atom.args[3], PredicateArg::Variable(_)));
    assert!(matches!(atom.args[4], PredicateArg::Literal(_)));
    assert!(matches!(atom.args[5], PredicateArg::Literal(_)));
}

#[test]
fn line_endings_read_as_str_lines_gives_them() {
    let lf = parse("a(1).\nb(X) :- a(X).");
    for source in ["a(1).\r\nb(X) :- a(X).\r\n", "a(1).\nb(X) :- a(X).\n", "a(1).\r\nb(X) :- a(X).\r"] {
        let p = parse(source);
        assert_eq!(p.ground_atoms, lf.ground_atoms);
        assert_eq!(p.rules.len(), lf.rules.len());
        assert_eq!(p.rules[0].body[0].predicate.name, "a");
        assert_eq!(source.lines().count(), 2);
    }
}
