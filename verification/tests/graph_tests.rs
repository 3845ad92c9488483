use asp_solver::atomdb::AtomDB;
use asp_solver::graph::{build_justification_graph, JustificationGraph};
use std::borrow::Cow;
use asp_solver::parser::parse;
use asp_solver::retejoin::ReteJoinEngine;

#[test]
fn test_justification_graph_basic() {
    let program = parse(
        "color(1). colored(1,1). node(1). node(2).
            colored(X,X) :- color(X), not node(X).",
    );
    let db: AtomDB = AtomDB::new(program.ground_atoms.clone());
    let engine = ReteJoinEngine::new(&db, &program);
    let graph: JustificationGraph = build_justification_graph(&program, &engine);
    assert_eq!(graph.nodes.len(), 5); // false + color(1) + colored(1,1) + node(1) + node(2)
    assert_eq!(graph.edges.len(), 3); // color(1) -(+)-> colored(1,1), node(1) -(-)-> colored(1,1), node(2) -(+)-> colored(1,1)
    for edge in &graph.edges {
        match edge.from {
            1 => {
                assert_eq!(edge.to, 2);
                assert_eq!(edge.support, true)
            } // fact color(1)
            3 => {
                assert_eq!(edge.to, 2);
                assert_eq!(edge.support, false)
            } // fact node(1)
            4 => {
                assert_eq!(edge.to, 2);
                assert_eq!(edge.support, false)
            } // fact node(2)
            _ => panic!("Unexpected edge"),
        }
    }
}

#[test]
fn first_node_is_false() {
    let program = parse("a(1).");
    let db = AtomDB::new(program.ground_atoms.clone());
    let engine = ReteJoinEngine::new(&db, &program);
    let graph = build_justification_graph(&program, &engine);
    assert_eq!(graph.nodes[0].ground_atom.name, "false");
    assert_eq!(graph.nodes[1].ground_atom.name, "a");
    assert!(graph.edges.is_empty());
}

#[test]
fn duplicate_ground_atoms_index_their_last_node() {
    let program = parse("p(1). q(1). p(1). r(X) :- p(X).");
    let db = AtomDB::new(program.ground_atoms.clone());
    let engine = ReteJoinEngine::new(&db, &program);
    let graph = build_justification_graph(&program, &engine);
    assert_eq!(graph.nodes.len(), 4);
    // no indexed atom is named r, so the head matches nothing
    assert!(graph.edges.is_empty());
}

#[test]
fn edges_carry_rule_id_and_head_match() {
    let program = parse("p(1). p(2). q(1). q(X) :- p(X).");
    let db = AtomDB::new(program.ground_atoms.clone());
    let engine = ReteJoinEngine::new(&db, &program);
    let graph = build_justification_graph(&program, &engine);
    // head q(X) matches q(1) (node 3); body p(X) has nodes 1 and 2
    assert_eq!(graph.edges.len(), 2);
    assert_eq!(graph.edges[0].from, 1);
    assert_eq!(graph.edges[1].from, 2);
    for e in &graph.edges {
        assert_eq!(e.to, 3);
        assert_eq!(e.rule, program.rules[0].id);
        assert!(e.support);
    }
}

#[test]
fn node_zero_is_owned_and_the_others_borrow_the_program() {
    let program = parse("a(1). b(2).");
    let db = AtomDB::new(program.ground_atoms.clone());
    let engine = ReteJoinEngine::new(&db, &program);
    let graph = build_justification_graph(&program, &engine);
    assert!(matches!(graph.nodes[0].ground_atom, Cow::Owned(_)));
    for k in 0..program.ground_atoms.len() {
        match &graph.nodes[k + 1].ground_atom {
            Cow::Borrowed(b) => assert!(std::ptr::eq(*b, &program.ground_atoms[k])),
            Cow::Owned(_) => panic!("expected a borrowed atom"),
        }
    }
}

#[test]
fn cloned_nodes_keep_their_atom_and_kind() {
    let program = parse("a(1).");
    let db = AtomDB::new(program.ground_atoms.clone());
    let engine = ReteJoinEngine::new(&db, &program);
    let graph = build_justification_graph(&program, &engine);
    let owned = graph.nodes[0].clone();
    let borrowed = graph.nodes[1].clone();
    assert!(matches!(owned.ground_atom, Cow::Owned(_)));
    assert_eq!(owned, graph.nodes[0]);
    match &borrowed.ground_atom {
        Cow::Borrowed(b) => assert!(std::ptr::eq(*b, &program.ground_atoms[0])),
        Cow::Owned(_) => panic!("expected a borrowed atom"),
    }
}

#[test]
fn every_called_for_edge_is_present_once_per_atom_pair() {
    // head q(X) matches q(1) and q(2); the body atom p has nodes 1 and 3
    let program = parse("p(1). q(1). p(2). q(2). q(X) :- p(X).");
    let db = AtomDB::new(program.ground_atoms.clone());
    let engine = ReteJoinEngine::new(&db, &program);
    let graph = build_justification_graph(&program, &engine);
    let mut pairs: Vec<(usize, usize)> = graph.edges.iter().map(|e| (e.from, e.to)).collect();
    pairs.sort();
    assert_eq!(pairs, vec![(1, 2), (1, 4), (3, 2), (3, 4)]);
}
