use asp_solver::atomdb::AtomDB;
use asp_solver::graph::build_justification_graph;
use asp_solver::parser::parse;
use asp_solver::program::{GroundAtom, Literal};
use asp_solver::retejoin::ReteJoinEngine;
use asp_solver::solver::{propagate, solve, PropagationResult, SolveResult};

fn ground(name: &str, args: &[&str]) -> GroundAtom {
    GroundAtom {
        name: name.to_string(),
        args: args.iter().map(|a| Literal { name: a.to_string() }).collect(),
        negated: false,
    }
}

#[test]
fn solve_reaches_fixpoint_with_derived_atoms() {
    let program = parse("p(1). q(X) :- p(X).");
    let db = AtomDB::new(program.ground_atoms.clone());
    let engine = ReteJoinEngine::new(&db, &program);
    let graph = build_justification_graph(&program, &engine);
    match solve(&program, db, graph, 100) {
        Some(SolveResult::Success(s)) => {
            assert_eq!(s.answer_set, vec![ground("p", &["1"]), ground("p", &["1"]), ground("q", &["1"])]);
            assert_eq!(s.justification_graph.nodes.len(), 2);
        }
        _ => panic!("expected a fixpoint"),
    }
}

#[test]
fn solve_reports_conflict_with_stored_atoms() {
    let program = parse("p(1). :- p(X).");
    let db = AtomDB::new(program.ground_atoms.clone());
    let engine = ReteJoinEngine::new(&db, &program);
    let graph = build_justification_graph(&program, &engine);
    match solve(&program, db, graph, 100) {
        Some(SolveResult::UNSATCore(c)) => {
            assert_eq!(c.core, vec![ground("p", &["1"]), ground("p", &["1"])]);
        }
        _ => panic!("expected a conflict"),
    }
}

#[test]
fn solve_reports_choice_point_with_empty_core() {
    let program = parse("n(1). 1{c(X):d(X)}1 :- n(X).");
    let db = AtomDB::new(program.ground_atoms.clone());
    let engine = ReteJoinEngine::new(&db, &program);
    let graph = build_justification_graph(&program, &engine);
    match solve(&program, db, graph, 100) {
        Some(SolveResult::UNSATCore(c)) => assert!(c.core.is_empty()),
        _ => panic!("expected a choice point"),
    }
}

#[test]
fn solve_runs_out_of_steps_on_a_self_feeding_rule() {
    let program = parse("p(1). p(X) :- p(X).");
    let db = AtomDB::new(program.ground_atoms.clone());
    let engine = ReteJoinEngine::new(&db, &program);
    let graph = build_justification_graph(&program, &engine);
    assert!(solve(&program, db, graph, 50).is_none());
}

#[test]
fn propagate_with_empty_worklist_is_a_fixpoint() {
    let program = parse("p(1). :- p(X).");
    let mut db = AtomDB::new(program.ground_atoms.clone());
    let mut engine = ReteJoinEngine::new(&db, &program);
    let mut graph = build_justification_graph(&program, &engine);
    let r = propagate(Vec::new(), &mut engine, &mut db, &mut graph, 0);
    assert_eq!(r, Some(PropagationResult::Fixpoint));
    assert_eq!(db.atoms().len(), 1);
}

#[test]
fn propagate_pops_from_the_end() {
    let program = parse("p(1). :- q(X).");
    let mut db = AtomDB::new(Vec::new());
    let mut engine = ReteJoinEngine::new(&AtomDB::new(program.ground_atoms.clone()), &program);
    let mut graph = build_justification_graph(&program, &engine);
    // q(2) is taken first: no rule watches q in this engine, so nothing fires
    let r = propagate(vec![ground("p", &["1"]), ground("q", &["2"])], &mut engine, &mut db, &mut graph, 10);
    assert_eq!(r, Some(PropagationResult::Fixpoint));
    assert_eq!(db.atoms(), vec![ground("q", &["2"]), ground("p", &["1"])]);
}

#[test]
fn propagate_stops_when_steps_run_out() {
    let program = parse("p(1). q(X) :- p(X).");
    let mut db = AtomDB::new(program.ground_atoms.clone());
    let mut engine = ReteJoinEngine::new(&db, &program);
    let mut graph = build_justification_graph(&program, &engine);
    let r = propagate(vec![ground("p", &["1"])], &mut engine, &mut db, &mut graph, 1);
    assert_eq!(r, None);
    assert_eq!(db.atoms().len(), 2);
}

#[test]
fn propagate_fixpoint_stores_worklist_and_derived_atoms() {
    let program = parse("p(1). q(X) :- p(X). r(X) :- q(X).");
    let db0 = AtomDB::new(program.ground_atoms.clone());
    let mut engine = ReteJoinEngine::new(&db0, &program);
    let mut db = AtomDB::new(vec![ground("z", &[])]);
    let mut graph = build_justification_graph(&program, &engine);
    let r = propagate(vec![ground("p", &["1"]), ground("p", &["2"])], &mut engine, &mut db, &mut graph, 100);
    assert_eq!(r, Some(PropagationResult::Fixpoint));
    // the store keeps what it had and gains the worklist and what was derived
    assert_eq!(
        db.atoms(),
        vec![ground("z", &[]), ground("p", &["2"]), ground("q", &["2"]), ground("p", &["1"]), ground("q", &["1"])]
    );
}

#[test]
fn propagate_conflict_stores_the_atom_it_stops_on() {
    let program = parse("p(1). :- q(X).");
    let mut engine = ReteJoinEngine::new(&AtomDB::new(vec![ground("q", &["0"])]), &program);
    let mut db = AtomDB::new(Vec::new());
    let mut graph = build_justification_graph(&program, &engine);
    let r = propagate(vec![ground("q", &["7"]), ground("p", &["1"])], &mut engine, &mut db, &mut graph, 100);
    assert_eq!(r, Some(PropagationResult::Conflict));
    assert_eq!(db.atoms(), vec![ground("p", &["1"]), ground("q", &["7"])]);
}

#[test]
fn solve_conflict_core_extends_the_store() {
    let program = parse("p(1). :- p(X).");
    // the engine that `solve` builds watches the names of the store's atoms
    let db = AtomDB::new(vec![ground("s", &[]), ground("p", &["0"])]);
    let engine = ReteJoinEngine::new(&db, &program);
    let graph = build_justification_graph(&program, &engine);
    match solve(&program, db, graph, 100) {
        Some(SolveResult::UNSATCore(c)) => {
            assert_eq!(c.core, vec![ground("s", &[]), ground("p", &["0"]), ground("p", &["1"])]);
        }
        _ => panic!("expected a conflict"),
    }
}
