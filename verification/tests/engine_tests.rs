use asp_solver::atomdb::AtomDB;
use asp_solver::engine::{apply, compute_matches, get_head_substitutions, get_substitution, JoinEngine, Substitution};
use asp_solver::parser::{parse, parse_atom};
use asp_solver::program::{GroundAtom, Literal};
use asp_solver::retejoin::ReteJoinEngine;

fn ground(name: &str, args: &[&str]) -> GroundAtom {
    GroundAtom {
        name: name.to_string(),
        args: args.iter().map(|a| Literal { name: a.to_string() }).collect(),
        negated: false,
    }
}

#[test]
fn substitution_insert_and_get() {
    let mut s = Substitution::new();
    assert!(s.get(&"X".to_string()).is_none());
    s.insert("X".to_string(), "1".to_string());
    s.insert("Y".to_string(), "2".to_string());
    s.insert("X".to_string(), "3".to_string());
    assert_eq!(s.get(&"X".to_string()), Some(&"3".to_string()));
    assert_eq!(s.get(&"Y".to_string()), Some(&"2".to_string()));
    assert_eq!(s.mapping.len(), 2);
}

#[test]
fn substitution_binds_variables() {
    let atom = parse_atom("edge(X, Y)");
    let s = get_substitution(&atom, &ground("edge", &["1", "2"])).unwrap();
    assert_eq!(s.get(&"X".to_string()), Some(&"1".to_string()));
    assert_eq!(s.get(&"Y".to_string()), Some(&"2".to_string()));
}

#[test]
fn substitution_refuses_inconsistent_binding() {
    let atom = parse_atom("edge(X, X)");
    assert!(get_substitution(&atom, &ground("edge", &["1", "2"])).is_none());
    assert!(get_substitution(&atom, &ground("edge", &["1", "1"])).is_some());
}

#[test]
fn substitution_refuses_literal_mismatch_and_arity() {
    let atom = parse_atom("edge(a, X)");
    assert!(get_substitution(&atom, &ground("edge", &["b", "2"])).is_none());
    assert!(get_substitution(&atom, &ground("edge", &["a"])).is_none());
    // names are not compared
    assert!(get_substitution(&atom, &ground("other", &["a", "2"])).is_some());
}

#[test]
fn apply_grounds_bound_variables_and_keeps_others() {
    let atom = parse_atom("not r(X, b, Y)");
    let mut s = Substitution::new();
    s.insert("X".to_string(), "7".to_string());
    let g = apply(&atom, &s);
    assert_eq!(g.name, "r");
    assert!(g.negated);
    let args: Vec<&str> = g.args.iter().map(|l| l.name.as_str()).collect();
    assert_eq!(args, vec!["7", "b", "Y"]);
}

#[test]
fn match_then_apply_gives_back_the_arguments() {
    let atom = parse_atom("p(X, c, Y, X)");
    let g = ground("p", &["1", "c", "2", "1"]);
    let s = get_substitution(&atom, &g).unwrap();
    assert_eq!(apply(&atom, &s), g);
}

#[test]
fn compute_matches_and_head_substitutions() {
    let program = parse("h(X) :- p(X), q(X), not p(1).");
    let rule = &program.rules[0];
    let matches = compute_matches(rule, &ground("p", &["1"]));
    assert_eq!(matches.len(), 2);
    assert_eq!(matches[0].get(&"X".to_string()), Some(&"1".to_string()));
    let first = get_head_substitutions(rule, &ground("p", &["1"])).unwrap();
    assert!(!first.1);
    assert!(get_head_substitutions(rule, &ground("z", &["1"])).is_none());
    let neg = get_head_substitutions(rule, &ground("p", &["2"])).unwrap();
    assert!(!neg.1);
    assert_eq!(neg.0.get(&"X".to_string()), Some(&"2".to_string()));
}

#[test]
fn rete_engine_watches_by_name_with_repetitions() {
    let program = parse("p(1). p(2). q(1). h(X) :- p(X), p(X). k(X) :- q(X).");
    let db = AtomDB::new(program.ground_atoms.clone());
    let engine = ReteJoinEngine::new(&db, &program);
    // two atoms named p, each adding the first rule once per body atom p
    let watching = engine.rules_watching(&ground("p", &["9"]));
    assert_eq!(watching.len(), 4);
    assert!(watching.iter().all(|r| r.id == program.rules[0].id));
    assert_eq!(engine.rules_watching(&ground("q", &[])).len(), 1);
    assert_eq!(engine.rules_watching(&ground("h", &[])).len(), 0);
}

#[test]
fn atomdb_insert_appends() {
    let mut db = AtomDB::new(vec![ground("a", &[])]);
    db.insert(&ground("b", &["1"]));
    db.insert(&ground("a", &[]));
    let atoms = db.atoms();
    assert_eq!(atoms, vec![ground("a", &[]), ground("b", &["1"]), ground("a", &[])]);
}

#[test]
fn matching_an_atom_against_its_grounding_recovers_the_bindings() {
    let atom = parse_atom("p(X, c, Y, X)");
    let mut s = Substitution::new();
    s.insert("X".to_string(), "1".to_string());
    s.insert("Z".to_string(), "9".to_string());
    let g = apply(&atom, &s);
    let t = get_substitution(&atom, &g).unwrap();
    assert_eq!(t.get(&"X".to_string()), Some(&"1".to_string()));
    // Y is unbound in s, so it stands for itself
    assert_eq!(t.get(&"Y".to_string()), Some(&"Y".to_string()));
    // Z does not occur in the atom
    assert!(t.get(&"Z".to_string()).is_none());
    assert_eq!(t.mapping.len(), 2);
}

#[test]
fn rete_engine_answers_by_name_only() {
    let program = parse("p(1). q(X) :- p(X).");
    let db = AtomDB::new(program.ground_atoms.clone());
    let engine = ReteJoinEngine::new(&db, &program);
    let mut negated = ground("p", &["5", "6"]);
    negated.negated = true;
    let a: Vec<usize> = engine.rules_watching(&ground("p", &["1"])).iter().map(|r| r.id).collect();
    let b: Vec<usize> = engine.rules_watching(&negated).iter().map(|r| r.id).collect();
    assert_eq!(a, vec![0]);
    assert_eq!(a, b);
}

#[test]
fn rete_engine_watches_only_names_the_store_holds() {
    // the rule mentions p and q, but the store holds no atom named q
    let program = parse("p(1). h(X) :- p(X), q(X).");
    let db = AtomDB::new(program.ground_atoms.clone());
    let engine = ReteJoinEngine::new(&db, &program);
    assert_eq!(engine.rules_watching(&ground("p", &["2"])).len(), 1);
    assert_eq!(engine.rules_watching(&ground("q", &["1"])).len(), 0);
}

#[test]
fn atomdb_inserts_append_in_order() {
    let start = vec![ground("a", &[]), ground("b", &[])];
    let adds = vec![ground("c", &["1"]), ground("a", &[]), ground("d", &["2", "3"])];
    let mut db = AtomDB::new(start.clone());
    for a in &adds {
        db.insert(a);
    }
    let mut expected = start.clone();
    expected.extend(adds.iter().cloned());
    assert_eq!(db.atoms(), expected);
    assert_eq!(db.atoms(), db.atoms());
}

#[test]
fn matching_a_repeated_variable_binds_it_once() {
    let atom = parse_atom("colored(X,X)");
    let s = get_substitution(&atom, &ground("colored", &["1", "1"])).unwrap();
    assert_eq!(s.mapping.len(), 1);
    assert_eq!(s.mapping[0], ("X".to_string(), "1".to_string()));
}

#[test]
fn insert_grows_the_bindings_only_for_a_new_variable() {
    let mut s = Substitution::new();
    assert_eq!(s.mapping.len(), 0);
    s.insert("X".to_string(), "1".to_string());
    assert_eq!(s.mapping.len(), 1);
    s.insert("X".to_string(), "2".to_string());
    assert_eq!(s.mapping.len(), 1);
    assert_eq!(s.get(&"X".to_string()), Some(&"2".to_string()));
    s.insert("Y".to_string(), "3".to_string());
    assert_eq!(s.mapping.len(), 2);
}
