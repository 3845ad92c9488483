//! Unit propagation over a worklist of ground atoms, and the solver that
//! runs it once over a program's facts.
use crate::atomdb::AtomDB;
use crate::engine::{apply, apply_view, body_matches, compute_matches, JoinEngine};
use crate::graph::JustificationGraph;
use crate::program::{
    copy_vec, AtomView, GroundAtom, GroundAtomView, HeadView, Program, Rule, RuleHead, RuleKind, RuleView,
};
use crate::parser::{lemma_program_of_shape, parse_view, source_statements};
use crate::retejoin::{lemma_watchers_sound, watchers, ReteJoinEngine};
use vstd::prelude::*;

verus! {

/// How propagation ended: with an empty worklist, at a choice rule whose
/// body matched, or at a constraint whose body matched.
#[derive(Debug, Clone, Copy, PartialEq, Eq, Structural)]
pub enum PropagationResult {
    Fixpoint,
    ChoicePoint,
    Conflict,
}

/// The atoms blamed for an unsuccessful solve.
pub struct UNSATCore {
    pub core: Vec<GroundAtom>,
}

/// The atoms established by a successful solve, with the program's graph.
pub struct Success<'a> {
    pub answer_set: Vec<GroundAtom>,
    pub justification_graph: JustificationGraph<'a>,
}

/// What solving gives.
pub enum SolveResult<'a> {
    UNSATCore(UNSATCore),
    Success(Success<'a>),
}

// ---------------------------------------------------------------------
// The semantics of one propagation step
// ---------------------------------------------------------------------
/// What firing the rules that watch an atom gives: the atoms derived, in
/// order; or a stop with a result; or a fact rule that matched, which
/// propagation does not expect.
pub enum FireOutcome {
    Derived(Seq<GroundAtomView>),
    Stop(PropagationResult),
    Stuck,
}

/// The atoms that a rule derives from its matches: its head atom under each
/// substitution, for a rule whose head is an atom.
pub open spec fn derived_atoms(r: RuleView, ms: Seq<Map<Seq<char>, Seq<char>>>) -> Seq<
    GroundAtomView,
> {
    match r.head {
        Some(HeadView::Atom(h)) => ms.map_values(|m: Map<Seq<char>, Seq<char>>| apply_view(h, m)),
        _ => Seq::empty(),
    }
}

/// `d` derived before the outcome `o`.
pub open spec fn prepend(d: Seq<GroundAtomView>, o: FireOutcome) -> FireOutcome {
    match o {
        FireOutcome::Derived(x) => FireOutcome::Derived(d + x),
        other => other,
    }
}

/// Fires `rules` in order on `atom`. A rule whose body does not match does
/// nothing. One that matches: a regular rule derives its head under every
/// match; the first choice rule that matches stops with `ChoicePoint`, the
/// first constraint with `Conflict`.
pub open spec fn fire_rules(rules: Seq<RuleView>, atom: GroundAtomView) -> FireOutcome
    decreases rules.len(),
{
    if rules.len() == 0 {
        FireOutcome::Derived(Seq::empty())
    } else {
        let r = rules[0];
        let ms = body_matches(r.body, atom);
        if ms.len() == 0 {
            fire_rules(rules.drop_first(), atom)
        } else {
            match r.kind {
                RuleKind::Fact => FireOutcome::Stuck,
                RuleKind::Choice => FireOutcome::Stop(PropagationResult::ChoicePoint),
                RuleKind::Constraint => FireOutcome::Stop(PropagationResult::Conflict),
                RuleKind::Regular => prepend(derived_atoms(r, ms), fire_rules(rules.drop_first(), atom)),
            }
        }
    }
}

/// The state of propagation: the worklist, the engine and the atoms stored.
pub struct PropagationState<E> {
    pub worklist: Seq<GroundAtomView>,
    pub engine: E,
    pub db: Seq<GroundAtomView>,
}

/// How a run of propagation ends.
pub enum RunOutcome {
    Finished(PropagationResult),
    OutOfSteps,
    Stuck,
}

/// One step on a non-empty worklist: the last atom is taken off, the
/// engine told of it, the atom stored, and the rules the engine then
/// watches for it fired; derived atoms go to the end of the worklist.
pub open spec fn step<E: JoinEngine>(st: PropagationState<E>) -> (FireOutcome, PropagationState<E>) {
    let atom = st.worklist.last();
    let engine = st.engine.after_new_atom(atom);
    let out = fire_rules(engine.watching(atom), atom);
    let rest = st.worklist.drop_last();
    (
        out,
        PropagationState {
            worklist: match out {
                FireOutcome::Derived(d) => rest + d,
                _ => rest,
            },
            engine: engine,
            db: st.db.push(atom),
        },
    )
}

/// Propagation for at most `fuel` steps: `Fixpoint` once the worklist is
/// empty, the result of the first step that stops, `OutOfSteps` when the
/// steps run out first; with the state it ends in.
pub open spec fn run<E: JoinEngine>(st: PropagationState<E>, fuel: nat) -> (
    RunOutcome,
    PropagationState<E>,
)
    decreases fuel,
{
    if st.worklist.len() == 0 {
        (RunOutcome::Finished(PropagationResult::Fixpoint), st)
    } else if fuel == 0 {
        (RunOutcome::OutOfSteps, st)
    } else {
        let (out, next) = step(st);
        match out {
            FireOutcome::Stop(r) => (RunOutcome::Finished(r), next),
            FireOutcome::Stuck => (RunOutcome::Stuck, next),
            FireOutcome::Derived(_) => run(next, (fuel - 1) as nat),
        }
    }
}

/// Propagation as `run` for an engine that watches `watch(a)` for every
/// atom `a` and never changes: the outcome and the stored atoms at the end.
pub open spec fn run_with(
    watch: spec_fn(GroundAtomView) -> Seq<RuleView>,
    worklist: Seq<GroundAtomView>,
    db: Seq<GroundAtomView>,
    fuel: nat,
) -> (RunOutcome, Seq<GroundAtomView>)
    decreases fuel,
{
    if worklist.len() == 0 {
        (RunOutcome::Finished(PropagationResult::Fixpoint), db)
    } else if fuel == 0 {
        (RunOutcome::OutOfSteps, db)
    } else {
        let atom = worklist.last();
        let out = fire_rules(watch(atom), atom);
        match out {
            FireOutcome::Stop(r) => (RunOutcome::Finished(r), db.push(atom)),
            FireOutcome::Stuck => (RunOutcome::Stuck, db.push(atom)),
            FireOutcome::Derived(d) => run_with(
                watch,
                worklist.drop_last() + d,
                db.push(atom),
                (fuel - 1) as nat,
            ),
        }
    }
}

/// The result that `propagate` returns for a run outcome.
pub open spec fn result_of(o: RunOutcome) -> Option<PropagationResult> {
    match o {
        RunOutcome::Finished(r) => Some(r),
        _ => None,
    }
}

/// Deriving in two parts is deriving their concatenation.
proof fn lemma_prepend_prepend(a: Seq<GroundAtomView>, b: Seq<GroundAtomView>, o: FireOutcome)
    ensures
        prepend(a, prepend(b, o)) == prepend(a + b, o),
{
    match o {
        FireOutcome::Derived(x) => {
            assert(a + (b + x) =~= (a + b) + x);
        },
        _ => {},
    }
}

/// Runs propagation from `worklist` for at most `max_steps` atoms taken off
/// the worklist. Each atom taken off is reported to `engine` and stored in
/// `db`; the rules the engine watches for it are fired in order (see
/// `fire_rules`). Returns the result of the run, or `None` when the steps
/// ran out first. `graph` is not changed.
pub fn propagate<E: JoinEngine>(
    worklist: Vec<GroundAtom>,
    engine: &mut E,
    db: &mut AtomDB,
    graph: &mut JustificationGraph<'_>,
    max_steps: usize,
) -> (r: Option<PropagationResult>)
    requires
        !(run(
            PropagationState {
                worklist: worklist.deep_view(),
                engine: *old(engine),
                db: old(db).deep_view(),
            },
            max_steps as nat,
        ).0 is Stuck),
    ensures
        ({
            let (o, fin) = run(
                PropagationState {
                    worklist: worklist.deep_view(),
                    engine: *old(engine),
                    db: old(db).deep_view(),
                },
                max_steps as nat,
            );
            &&& r == result_of(o)
            &&& *final(engine) == fin.engine
            &&& final(db).deep_view() == fin.db
        }),
        *final(graph) == *old(graph),
{
    let ghost init = PropagationState {
        worklist: worklist.deep_view(),
        engine: *engine,
        db: db.deep_view(),
    };
    let mut work = worklist;
    let mut steps: usize = 0;
    loop
        invariant
            steps <= max_steps,
            init == (PropagationState {
                worklist: worklist.deep_view(),
                engine: *old(engine),
                db: old(db).deep_view(),
            }),
            run(init, max_steps as nat) == run(
                PropagationState { worklist: work.deep_view(), engine: *engine, db: db.deep_view() },
                (max_steps - steps) as nat,
            ),
            !(run(init, max_steps as nat).0 is Stuck),
            *graph == *old(graph),
        decreases max_steps - steps,
    {
        let ghost st = PropagationState {
            worklist: work.deep_view(),
            engine: *engine,
            db: db.deep_view(),
        };
        if work.len() == 0 {
            return Some(PropagationResult::Fixpoint);
        }
        if steps == max_steps {
            return None;
        }
        let ghost wl = work.deep_view();
        let atom = work.pop().unwrap();
        let ghost av = atom.deep_view();
        assert(av == wl.last());
        assert(work.deep_view() =~= wl.drop_last());
        engine.on_new_atom(&atom);
        db.insert(&atom);
        let rules = engine.rules_watching(&atom);
        let ghost all = rules.deep_view();
        let ghost rest = wl.drop_last();
        assert(step(st).0 == fire_rules(all, av));
        let mut ri: usize = 0;
        assert(all.skip(0) =~= all);
        assert(work.deep_view().subrange(0, rest.len() as int) =~= rest);
        assert(work.deep_view().subrange(rest.len() as int, work.deep_view().len() as int) =~= Seq::<GroundAtomView>::empty());
        assert(rest + Seq::<GroundAtomView>::empty() =~= rest);
        while ri < rules.len()
            invariant
                ri <= rules@.len(),
                steps < max_steps,
                st.worklist.len() > 0,
                st.worklist.drop_last() == rest,
                st.worklist.last() == av,
                all == rules.deep_view(),
                all == engine.watching(av),
                av == atom.deep_view(),
                *engine == st.engine.after_new_atom(av),
                db.deep_view() == st.db.push(av),
                init == (PropagationState {
                    worklist: worklist.deep_view(),
                    engine: *old(engine),
                    db: old(db).deep_view(),
                }),
                run(init, max_steps as nat) == run(st, (max_steps - steps) as nat),
                !(run(init, max_steps as nat).0 is Stuck),
                *graph == *old(graph),
                work.deep_view().len() >= rest.len(),
                work.deep_view().subrange(0, rest.len() as int) == rest,
                fire_rules(all, av) == prepend(
                    work.deep_view().subrange(rest.len() as int, work.deep_view().len() as int),
                    fire_rules(all.skip(ri as int), av),
                ),
            decreases rules.len() - ri,
        {
            let rule: &Rule = rules[ri];
            let ghost rv = rule.deep_view();
            let ghost added = work.deep_view().subrange(rest.len() as int, work.deep_view().len() as int);
            assert(all.skip(ri as int)[0] == rv);
            assert(all.skip(ri as int).drop_first() =~= all.skip(ri + 1));
            let substs = compute_matches(rule, &atom);
            let ghost ms = substs.deep_view();
            assert(ms.len() == substs@.len());
            if substs.len() > 0 {
                match rule.kind {
                    RuleKind::Fact => {
                        assert(fire_rules(all.skip(ri as int), av) == FireOutcome::Stuck);
                        assert(fire_rules(all, av) == FireOutcome::Stuck);
                        assert(run(st, (max_steps - steps) as nat).0 is Stuck);
                        assert(false);
                        return None;
                    },
                    RuleKind::Choice => {
                        assert(fire_rules(all, av) == FireOutcome::Stop(PropagationResult::ChoicePoint));
                        return Some(PropagationResult::ChoicePoint);
                    },
                    RuleKind::Constraint => {
                        assert(fire_rules(all, av) == FireOutcome::Stop(PropagationResult::Conflict));
                        return Some(PropagationResult::Conflict);
                    },
                    RuleKind::Regular => {
                        let ghost derived = derived_atoms(rv, ms);
                        match &rule.head {
                            Some(RuleHead::Atom(head_atom)) => {
                                let mut si: usize = 0;
                                assert(derived.take(0) =~= Seq::<GroundAtomView>::empty());
                                assert(work.deep_view() =~= rest + added);
                                assert(rest + added + Seq::<GroundAtomView>::empty() =~= rest + added);
                                while si < substs.len()
                                    invariant
                                        si <= substs@.len(),
                                        ms == substs.deep_view(),
                                        rv == rule.deep_view(),
                                        rv.head == Some(HeadView::Atom(head_atom.deep_view())),
                                        derived == derived_atoms(rv, ms),
                                        derived.len() == ms.len(),
                                        work.deep_view() == rest + added + derived.take(si as int),
                                    decreases substs.len() - si,
                                {
                                    let ghost before = work.deep_view();
                                    let g = apply(head_atom, &substs[si]);
                                    assert(g.deep_view() == derived[si as int]);
                                    work.push(g);
                                    assert(work.deep_view() =~= before.push(g.deep_view()));
                                    assert(derived.take(si + 1) =~= derived.take(si as int).push(derived[si as int]));
                                    assert(work.deep_view() =~= rest + added + derived.take(si + 1));
                                    si = si + 1;
                                }
                                assert(derived.take(si as int) =~= derived);
                            },
                            _ => {
                                assert(derived =~= Seq::<GroundAtomView>::empty());
                                assert(work.deep_view() =~= rest + added);
                                assert(rest + added + derived =~= rest + added);
                            },
                        }
                        proof {
                            lemma_prepend_prepend(added, derived, fire_rules(all.skip(ri + 1), av));
                            assert(work.deep_view().subrange(0, rest.len() as int) =~= rest);
                            assert(work.deep_view().subrange(rest.len() as int, work.deep_view().len() as int) =~= added + derived);
                        }
                    },
                }
            }
            ri = ri + 1;
        }
        proof {
            assert(all.skip(ri as int) =~= Seq::<RuleView>::empty());
            let added = work.deep_view().subrange(rest.len() as int, work.deep_view().len() as int);
            assert(added + Seq::<GroundAtomView>::empty() =~= added);
            assert(work.deep_view() =~= rest + added);
        }
        steps = steps + 1;
    }
}

// ---------------------------------------------------------------------
// The solver
// ---------------------------------------------------------------------
/// The rules that an engine built over `db` and `rules` watches for `a`.
pub open spec fn rete_watch(db: Seq<GroundAtomView>, rules: Seq<RuleView>) -> spec_fn(
    GroundAtomView,
) -> Seq<RuleView> {
    |a: GroundAtomView| watchers(db, rules, a.name)
}

/// Propagation with a `ReteJoinEngine` that watches `watch(a)` for every
/// atom `a` (as the engine that `solve` builds watches
/// `rete_watch(db, rules)`) is propagation with `watch`: `propagate` on that
/// engine ends as `run_with` says, with the same stored atoms, and leaves
/// the engine as it was.
pub proof fn lemma_run_rete(
    e: ReteJoinEngine,
    watch: spec_fn(GroundAtomView) -> Seq<RuleView>,
    worklist: Seq<GroundAtomView>,
    db: Seq<GroundAtomView>,
    fuel: nat,
)
    requires
        forall|a: GroundAtomView| #[trigger] e.watching(a) == watch(a),
    ensures
        ({
            let (o, fin) = run(PropagationState { worklist, engine: e, db }, fuel);
            &&& o == run_with(watch, worklist, db, fuel).0
            &&& fin.db == run_with(watch, worklist, db, fuel).1
            &&& fin.engine == e
        }),
    decreases fuel,
{
    if worklist.len() > 0 && fuel > 0 {
        let atom = worklist.last();
        assert(e.watching(atom) == watch(atom));
        match fire_rules(watch(atom), atom) {
            FireOutcome::Derived(d) => {
                lemma_run_rete(e, watch, worklist.drop_last() + d, db.push(atom), (fuel - 1) as nat);
            },
            _ => {},
        }
    }
}

/// Runs propagation once over the program's ground atoms, with a
/// `ReteJoinEngine` built over `db` and the program and at most
/// `max_steps` steps. A conflict gives an unsatisfiable core made of the
/// stored atoms; a choice point gives an empty core; a fixpoint gives the
/// stored atoms as answer set, with `graph`. `None` when the steps ran out.
pub fn solve<'a>(program: &'a Program, db: AtomDB, graph: JustificationGraph<'a>, max_steps: usize) -> (r:
    Option<SolveResult<'a>>)
    requires
        !(run_with(
            rete_watch(db.deep_view(), program.rules.deep_view()),
            program.ground_atoms.deep_view(),
            db.deep_view(),
            max_steps as nat,
        ).0 is Stuck),
    ensures
        ({
            let (o, fin) = run_with(
                rete_watch(db.deep_view(), program.rules.deep_view()),
                program.ground_atoms.deep_view(),
                db.deep_view(),
                max_steps as nat,
            );
            match o {
                RunOutcome::Finished(PropagationResult::Conflict) => r matches Some(
                    SolveResult::UNSATCore(c),
                ) && c.core.deep_view() == fin && c.core.deep_view().len() > db.deep_view().len()
                    && c.core.deep_view().subrange(0, db.deep_view().len() as int)
                    == db.deep_view(),
                RunOutcome::Finished(PropagationResult::ChoicePoint) => r matches Some(
                    SolveResult::UNSATCore(c),
                ) && c.core@.len() == 0,
                RunOutcome::Finished(PropagationResult::Fixpoint) => r matches Some(
                    SolveResult::Success(s),
                ) && s.answer_set.deep_view() == fin && s.justification_graph == graph,
                _ => r is None,
            }
        }),
{
    let mut db = db;
    let mut graph = graph;
    let ghost db0 = db.deep_view();
    let ghost graph0 = graph;
    let mut engine = ReteJoinEngine::new(&db, program);
    let worklist = copy_vec(&program.ground_atoms);
    proof {
        let watch = rete_watch(db0, program.rules.deep_view());
        assert forall|a: GroundAtomView| #[trigger] engine.watching(a) == watch(a) by {}
        lemma_run_rete(engine, watch, worklist.deep_view(), db0, max_steps as nat);
        lemma_run_with_ends(watch, worklist.deep_view(), db0, max_steps as nat);
    }
    let result = propagate(worklist, &mut engine, &mut db, &mut graph, max_steps);
    match result {
        Some(PropagationResult::Conflict) => Some(SolveResult::UNSATCore(UNSATCore { core: db.atoms() })),
        Some(PropagationResult::ChoicePoint) => Some(SolveResult::UNSATCore(UNSATCore { core: Vec::new() })),
        Some(PropagationResult::Fixpoint) => Some(
            SolveResult::Success(Success { answer_set: db.atoms(), justification_graph: graph }),
        ),
        None => None,
    }
}


// ---------------------------------------------------------------------
// Laws of propagation
// ---------------------------------------------------------------------
/// Firing rules none of which is a fact rule never gets stuck.
proof fn lemma_fire_rules_not_stuck(rules: Seq<RuleView>, atom: GroundAtomView)
    requires
        forall|i: int| 0 <= i < rules.len() ==> !((#[trigger] rules[i]).kind is Fact),
    ensures
        !(fire_rules(rules, atom) is Stuck),
    decreases rules.len(),
{
    if rules.len() > 0 {
        assert(!(rules[0].kind is Fact));
        assert forall|i: int| 0 <= i < rules.drop_first().len() implies !((#[trigger] rules.drop_first()[i]).kind is Fact) by {
            assert(rules.drop_first()[i] == rules[i + 1]);
        }
        lemma_fire_rules_not_stuck(rules.drop_first(), atom);
    }
}

/// When no watched rule is a fact rule, propagation never gets stuck.
pub proof fn lemma_run_with_not_stuck(
    watch: spec_fn(GroundAtomView) -> Seq<RuleView>,
    worklist: Seq<GroundAtomView>,
    db: Seq<GroundAtomView>,
    fuel: nat,
)
    requires
        forall|a: GroundAtomView, i: int|
            0 <= i < watch(a).len() ==> !((#[trigger] watch(a)[i]).kind is Fact),
    ensures
        !(run_with(watch, worklist, db, fuel).0 is Stuck),
    decreases fuel,
{
    if worklist.len() > 0 && fuel > 0 {
        let atom = worklist.last();
        lemma_fire_rules_not_stuck(watch(atom), atom);
        match fire_rules(watch(atom), atom) {
            FireOutcome::Derived(d) => {
                lemma_run_with_not_stuck(watch, worklist.drop_last() + d, db.push(atom), (fuel - 1) as nat);
            },
            _ => {},
        }
    }
}

/// Solving a program without fact rules (every program that `parse` reads)
/// never meets a fact rule, whatever the stored atoms, worklist and steps.
pub proof fn lemma_solve_not_stuck(
    db: Seq<GroundAtomView>,
    rules: Seq<RuleView>,
    worklist: Seq<GroundAtomView>,
    fuel: nat,
)
    requires
        forall|i: int| 0 <= i < rules.len() ==> !((#[trigger] rules[i]).kind is Fact),
    ensures
        !(run_with(rete_watch(db, rules), worklist, db, fuel).0 is Stuck),
{
    let watch = rete_watch(db, rules);
    assert forall|a: GroundAtomView, i: int| 0 <= i < watch(a).len() implies !((#[trigger] watch(a)[i]).kind is Fact) by {
        lemma_watchers_sound(db, rules, a.name);
        assert(rules.contains(watchers(db, rules, a.name)[i]));
    }
    lemma_run_with_not_stuck(watch, worklist, db, fuel);
}

/// A stop with `Conflict` comes from a constraint among the fired rules
/// whose body matches the atom; a stop with `ChoicePoint` from a choice rule.
proof fn lemma_fire_rules_stop(rules: Seq<RuleView>, atom: GroundAtomView)
    ensures
        fire_rules(rules, atom) == FireOutcome::Stop(PropagationResult::Conflict) ==> exists|i: int|
            0 <= i < rules.len() && (#[trigger] rules[i]).kind is Constraint && body_matches(
                rules[i].body,
                atom,
            ).len() > 0,
        fire_rules(rules, atom) == FireOutcome::Stop(PropagationResult::ChoicePoint) ==> exists|
            i: int,
        |
            0 <= i < rules.len() && (#[trigger] rules[i]).kind is Choice && body_matches(
                rules[i].body,
                atom,
            ).len() > 0,
        fire_rules(rules, atom) != FireOutcome::Stop(PropagationResult::Fixpoint),
    decreases rules.len(),
{
    if rules.len() > 0 {
        lemma_fire_rules_stop(rules.drop_first(), atom);
        let tail = rules.drop_first();
        if exists|i: int| 0 <= i < tail.len() && (#[trigger] tail[i]).kind is Constraint && body_matches(tail[i].body, atom).len() > 0 {
            let i = choose|i: int| 0 <= i < tail.len() && (#[trigger] tail[i]).kind is Constraint && body_matches(tail[i].body, atom).len() > 0;
            assert(rules[i + 1] == tail[i]);
        }
        if exists|i: int| 0 <= i < tail.len() && (#[trigger] tail[i]).kind is Choice && body_matches(tail[i].body, atom).len() > 0 {
            let i = choose|i: int| 0 <= i < tail.len() && (#[trigger] tail[i]).kind is Choice && body_matches(tail[i].body, atom).len() > 0;
            assert(rules[i + 1] == tail[i]);
        }
    }
}

/// The ends of a run with `watch`: the stored atoms only grow; a fixpoint
/// has stored every atom of the worklist, and every atom taken off the
/// worklist had all the atoms it derived stored too (the answer set is
/// closed under the watched regular rules); a conflict stops on a stored
/// atom that the body of a watched constraint matches.
pub proof fn lemma_run_with_ends(
    watch: spec_fn(GroundAtomView) -> Seq<RuleView>,
    worklist: Seq<GroundAtomView>,
    db: Seq<GroundAtomView>,
    fuel: nat,
)
    ensures
        ({
            let (o, fin) = run_with(watch, worklist, db, fuel);
            &&& db.len() <= fin.len()
            &&& fin.subrange(0, db.len() as int) == db
            &&& o == RunOutcome::Finished(PropagationResult::Fixpoint) ==> {
                &&& forall|i: int| 0 <= i < worklist.len() ==> fin.contains(#[trigger] worklist[i])
                &&& forall|k: int|
                    #![trigger fin[k]]
                    db.len() <= k < fin.len() ==> (fire_rules(watch(fin[k]), fin[k]) matches FireOutcome::Derived(d)
                        && forall|j: int| 0 <= j < d.len() ==> fin.contains(#[trigger] d[j]))
            }
            &&& o == RunOutcome::Finished(PropagationResult::Conflict) ==> {
                &&& fin.len() > db.len()
                &&& exists|i: int|
                    0 <= i < watch(fin.last()).len() && (#[trigger] watch(fin.last())[i]).kind is Constraint
                        && body_matches(watch(fin.last())[i].body, fin.last()).len() > 0
            }
        }),
    decreases fuel,
{
    let (o, fin) = run_with(watch, worklist, db, fuel);
    if worklist.len() == 0 || fuel == 0 {
        assert(fin.subrange(0, db.len() as int) =~= db);
    } else {
        let atom = worklist.last();
        let out = fire_rules(watch(atom), atom);
        lemma_fire_rules_stop(watch(atom), atom);
        match out {
            FireOutcome::Derived(d) => {
                let w2 = worklist.drop_last() + d;
                let db2 = db.push(atom);
                lemma_run_with_ends(watch, w2, db2, (fuel - 1) as nat);
                assert(fin.subrange(0, db.len() as int) =~= fin.subrange(0, db2.len() as int).subrange(0, db.len() as int));
                assert(fin[db.len() as int] == fin.subrange(0, db2.len() as int)[db.len() as int]);
                if o == RunOutcome::Finished(PropagationResult::Fixpoint) {
                    assert forall|i: int| 0 <= i < worklist.len() implies fin.contains(#[trigger] worklist[i]) by {
                        if i < worklist.len() - 1 {
                            assert(w2[i] == worklist[i]);
                        } else {
                            assert(fin[db.len() as int] == atom);
                        }
                    }
                    assert forall|k: int|
                        #![trigger fin[k]]
                        db.len() <= k < fin.len() implies (fire_rules(watch(fin[k]), fin[k]) matches FireOutcome::Derived(dd)
                            && forall|j: int| 0 <= j < dd.len() ==> fin.contains(#[trigger] dd[j])) by {
                        if k == db.len() {
                            assert(fin[k] == atom);
                            assert forall|j: int| 0 <= j < d.len() implies fin.contains(#[trigger] d[j]) by {
                                assert(w2[worklist.len() - 1 + j] == d[j]);
                            }
                        }
                    }
                }
            },
            _ => {
                assert(fin =~= db.push(atom));
                assert(fin.subrange(0, db.len() as int) =~= db);
            },
        }
    }
}


/// Solving any program that `parse` reads never meets a fact rule: the
/// requirement of `solve` holds for it, whatever the stored atoms, the
/// worklist and the step bound.
pub proof fn lemma_parsed_program_never_stuck(
    source: Seq<char>,
    db: Seq<GroundAtomView>,
    worklist: Seq<GroundAtomView>,
    fuel: nat,
)
    ensures
        !(run_with(rete_watch(db, parse_view(source).rules), worklist, db, fuel).0 is Stuck),
{
    lemma_program_of_shape(source_statements(source), 0);
    lemma_solve_not_stuck(db, parse_view(source).rules, worklist, fuel);
}


/// The atoms that firing `rules` on `atom` derives when no rule stops: the
/// head of every rule under each of its body matches, in rule order.
pub open spec fn all_derived(rules: Seq<RuleView>, atom: GroundAtomView) -> Seq<GroundAtomView>
    decreases rules.len(),
{
    if rules.len() == 0 {
        Seq::empty()
    } else {
        derived_atoms(rules[0], body_matches(rules[0].body, atom)) + all_derived(
            rules.drop_first(),
            atom,
        )
    }
}

/// When firing rules derives atoms, every rule whose body matches the atom
/// is a regular rule, and the atoms derived are `all_derived`.
pub proof fn lemma_fire_rules_derived(rules: Seq<RuleView>, atom: GroundAtomView)
    ensures
        fire_rules(rules, atom) is Derived ==> {
            &&& fire_rules(rules, atom) == FireOutcome::Derived(all_derived(rules, atom))
            &&& forall|i: int|
                0 <= i < rules.len() && body_matches((#[trigger] rules[i]).body, atom).len() > 0
                    ==> rules[i].kind is Regular
        },
    decreases rules.len(),
{
    if rules.len() > 0 {
        lemma_fire_rules_derived(rules.drop_first(), atom);
        let r = rules[0];
        let ms = body_matches(r.body, atom);
        let rest = rules.drop_first();
        if fire_rules(rules, atom) is Derived {
            if ms.len() == 0 {
                assert(derived_atoms(r, ms) =~= Seq::<GroundAtomView>::empty());
                assert(all_derived(rules, atom) =~= all_derived(rest, atom));
            }
            assert forall|i: int|
                0 <= i < rules.len() && body_matches((#[trigger] rules[i]).body, atom).len() > 0
                    implies rules[i].kind is Regular by {
                if i > 0 {
                    assert(rules[i] == rest[i - 1]);
                }
            }
        }
    }
}

/// The atoms that a run of propagation derives, step after step, in order.
pub open spec fn run_derived<E: JoinEngine>(st: PropagationState<E>, fuel: nat) -> Seq<
    GroundAtomView,
>
    decreases fuel,
{
    if st.worklist.len() == 0 || fuel == 0 {
        Seq::empty()
    } else {
        let (out, next) = step(st);
        match out {
            FireOutcome::Derived(d) => d + run_derived(next, (fuel - 1) as nat),
            _ => Seq::empty(),
        }
    }
}

/// The ends of propagation with any engine: the stored atoms only grow. A
/// conflict (a choice point) stops after storing a new atom, on which the
/// engine then watches a constraint (a choice rule) whose body matches it.
/// At a fixpoint the atoms stored by the run are, counted with repetition,
/// the atoms of the worklist together with every atom the run derived.
pub proof fn lemma_run_ends<E: JoinEngine>(st: PropagationState<E>, fuel: nat)
    ensures
        ({
            let (o, fin) = run(st, fuel);
            let w = fin.engine.watching(fin.db.last());
            &&& st.db.len() <= fin.db.len()
            &&& fin.db.subrange(0, st.db.len() as int) == st.db
            &&& o == RunOutcome::Finished(PropagationResult::Conflict) ==> {
                &&& fin.db.len() > st.db.len()
                &&& exists|i: int|
                    0 <= i < w.len() && (#[trigger] w[i]).kind is Constraint && body_matches(
                        w[i].body,
                        fin.db.last(),
                    ).len() > 0
            }
            &&& o == RunOutcome::Finished(PropagationResult::ChoicePoint) ==> {
                &&& fin.db.len() > st.db.len()
                &&& exists|i: int|
                    0 <= i < w.len() && (#[trigger] w[i]).kind is Choice && body_matches(
                        w[i].body,
                        fin.db.last(),
                    ).len() > 0
            }
            &&& o == RunOutcome::Finished(PropagationResult::Fixpoint) ==> fin.db.subrange(
                st.db.len() as int,
                fin.db.len() as int,
            ).to_multiset() == st.worklist.to_multiset().add(run_derived(st, fuel).to_multiset())
        }),
    decreases fuel,
{
    broadcast use vstd::seq_lib::group_to_multiset_ensures, vstd::seq_lib::lemma_multiset_commutative;

    let (o, fin) = run(st, fuel);
    if st.worklist.len() == 0 || fuel == 0 {
        assert(fin.db.subrange(0, st.db.len() as int) =~= st.db);
        assert(fin.db.subrange(st.db.len() as int, fin.db.len() as int) =~= Seq::<GroundAtomView>::empty());
        assert(run_derived(st, fuel) =~= Seq::<GroundAtomView>::empty());
    } else {
        let (out, next) = step(st);
        let atom = st.worklist.last();
        let rest = st.worklist.drop_last();
        lemma_fire_rules_stop(next.engine.watching(atom), atom);
        match out {
            FireOutcome::Derived(d) => {
                lemma_run_ends(next, (fuel - 1) as nat);
                let db2 = next.db;
                assert(db2 == st.db.push(atom));
                assert(fin.db.subrange(0, st.db.len() as int) =~= fin.db.subrange(0, db2.len() as int).subrange(0, st.db.len() as int));
                assert(fin.db[st.db.len() as int] == fin.db.subrange(0, db2.len() as int)[st.db.len() as int]);
                if o == RunOutcome::Finished(PropagationResult::Fixpoint) {
                    let tail = fin.db.subrange(db2.len() as int, fin.db.len() as int);
                    assert(fin.db.subrange(st.db.len() as int, fin.db.len() as int) =~= seq![atom] + tail);
                    assert(st.worklist =~= rest.push(atom));
                    assert(next.worklist == rest + d);
                    assert(seq![atom].to_multiset() =~= vstd::multiset::Multiset::<GroundAtomView>::empty().insert(atom)) by {
                        assert(seq![atom] =~= Seq::<GroundAtomView>::empty().push(atom));
                    }
                    assert(run_derived(st, fuel) == d + run_derived(next, (fuel - 1) as nat));
                }
            },
            _ => {
                assert(fin.db =~= st.db.push(atom));
                assert(fin.db.subrange(0, st.db.len() as int) =~= st.db);
                assert(fin.db.last() == atom);
            },
        }
    }
}


/// The head atom of a rule whose head is an atom.
pub open spec fn head_atom(r: RuleView) -> AtomView
    recommends
        r.head matches Some(HeadView::Atom(_)),
{
    match r.head {
        Some(HeadView::Atom(h)) => h,
        _ => arbitrary(),
    }
}

/// A rule fires on `atom` as a regular rule with an atom head.
pub open spec fn derives_heads(r: RuleView) -> bool {
    r.kind is Regular && r.head matches Some(HeadView::Atom(_))
}

/// How many atoms the regular rules with atom heads among `rules` derive
/// from `atom`: one per body match of each.
pub open spec fn match_total(rules: Seq<RuleView>, atom: GroundAtomView) -> nat
    decreases rules.len(),
{
    if rules.len() == 0 {
        0
    } else {
        (if derives_heads(rules[0]) {
            body_matches(rules[0].body, atom).len()
        } else {
            0
        }) + match_total(rules.drop_first(), atom)
    }
}

/// The count of a prefix, split at its first rule.
proof fn lemma_match_total_take(rules: Seq<RuleView>, atom: GroundAtomView, k: int)
    requires
        1 <= k <= rules.len(),
    ensures
        match_total(rules.take(k), atom) == (if derives_heads(rules[0]) {
            body_matches(rules[0].body, atom).len()
        } else {
            0
        }) + match_total(rules.drop_first().take(k - 1), atom),
{
    assert(rules.take(k)[0] == rules[0]);
    assert(rules.take(k).drop_first() =~= rules.drop_first().take(k - 1));
}

/// When firing `rules` on `atom` derives atoms, they are the head of each
/// regular rule with an atom head grounded under each of its body matches
/// (as `compute_matches` gives them), rule after rule and match after
/// match: as many atoms as there are such matches, the `j`-th match of
/// rule `k` giving the atom after those of the rules before `k`.
pub proof fn lemma_fire_rules_heads(rules: Seq<RuleView>, atom: GroundAtomView)
    ensures
        fire_rules(rules, atom) matches FireOutcome::Derived(d) ==> {
            &&& d.len() == match_total(rules, atom)
            &&& forall|k: int, j: int|
                0 <= k < rules.len() && derives_heads(#[trigger] rules[k]) && 0 <= j < body_matches(
                    rules[k].body,
                    atom,
                ).len() ==> d[match_total(rules.take(k), atom) + j] == apply_view(
                    head_atom(rules[k]),
                    #[trigger] body_matches(rules[k].body, atom)[j],
                )
        },
    decreases rules.len(),
{
    if rules.len() > 0 {
        let r = rules[0];
        let rest = rules.drop_first();
        let ms = body_matches(r.body, atom);
        lemma_fire_rules_heads(rest, atom);
        if fire_rules(rules, atom) is Derived {
            let d = fire_rules(rules, atom)->Derived_0;
            let da: Seq<GroundAtomView> = if ms.len() == 0 {
                Seq::empty()
            } else {
                derived_atoms(r, ms)
            };
            let x = fire_rules(rest, atom)->Derived_0;
            let c0: nat = if derives_heads(r) {
                ms.len()
            } else {
                0
            };
            assert(fire_rules(rest, atom) is Derived);
            assert(d == da + x);
            assert(da.len() == c0);
            assert forall|k: int, j: int|
                0 <= k < rules.len() && derives_heads(#[trigger] rules[k]) && 0 <= j < body_matches(
                    rules[k].body,
                    atom,
                ).len() implies d[match_total(rules.take(k), atom) + j] == apply_view(
                head_atom(rules[k]),
                #[trigger] body_matches(rules[k].body, atom)[j],
            ) by {
                if k == 0 {
                    assert(rules.take(0) =~= Seq::<RuleView>::empty());
                    assert(da[j] == apply_view(head_atom(r), ms[j]));
                } else {
                    let kk = k - 1;
                    lemma_match_total_take(rules, atom, k);
                    assert(rest[kk] == rules[k]);
                    lemma_match_total_prefix(rest, atom, kk);
                    let p = match_total(rest.take(kk), atom) + j;
                    assert(x[p] == apply_view(head_atom(rest[kk]), body_matches(rest[kk].body, atom)[j]));
                    assert((da + x)[c0 + p] == x[p]);
                }
            }
        }
    }
}

/// A rule whose body matches `atom`.
pub open spec fn fires_on(r: RuleView, atom: GroundAtomView) -> bool {
    body_matches(r.body, atom).len() > 0
}

/// Firing rules in order stops at the first rule whose body matches the
/// atom and that is not a regular rule: a choice rule gives a choice point
/// and a constraint a conflict, whatever rules come after it (a fact rule
/// there is stuck); when every rule that matches is regular, atoms are
/// derived and firing does not stop.
pub proof fn lemma_fire_rules_first_stop(rules: Seq<RuleView>, atom: GroundAtomView)
    ensures
        forall|i: int|
            0 <= i < rules.len() && fires_on(#[trigger] rules[i], atom) && !(rules[i].kind is Regular)
                && (forall|j: int| 0 <= j < i && fires_on(#[trigger] rules[j], atom) ==> rules[j].kind is Regular)
                ==> {
                &&& rules[i].kind is Choice ==> fire_rules(rules, atom) == FireOutcome::Stop(
                    PropagationResult::ChoicePoint,
                )
                &&& rules[i].kind is Constraint ==> fire_rules(rules, atom) == FireOutcome::Stop(
                    PropagationResult::Conflict,
                )
                &&& rules[i].kind is Fact ==> fire_rules(rules, atom) == FireOutcome::Stuck
            },
        (forall|i: int| 0 <= i < rules.len() && fires_on(#[trigger] rules[i], atom) ==> rules[i].kind is Regular)
            ==> fire_rules(rules, atom) is Derived,
    decreases rules.len(),
{
    if rules.len() > 0 {
        let rest = rules.drop_first();
        lemma_fire_rules_first_stop(rest, atom);
        assert forall|i: int| 0 < i < rules.len() implies #[trigger] rules[i] == rest[i - 1] by {}
        assert forall|i: int|
            0 <= i < rules.len() && fires_on(#[trigger] rules[i], atom) && !(rules[i].kind is Regular)
                && (forall|j: int| 0 <= j < i && fires_on(#[trigger] rules[j], atom) ==> rules[j].kind is Regular)
                implies {
                &&& rules[i].kind is Choice ==> fire_rules(rules, atom) == FireOutcome::Stop(
                    PropagationResult::ChoicePoint,
                )
                &&& rules[i].kind is Constraint ==> fire_rules(rules, atom) == FireOutcome::Stop(
                    PropagationResult::Conflict,
                )
                &&& rules[i].kind is Fact ==> fire_rules(rules, atom) == FireOutcome::Stuck
            } by {
            if i > 0 {
                assert(rest[i - 1] == rules[i]);
                assert forall|j: int| 0 <= j < i - 1 && fires_on(#[trigger] rest[j], atom) implies rest[j].kind is Regular by {
                    assert(rules[j + 1] == rest[j]);
                }
                if fires_on(rules[0], atom) {
                    assert(rules[0].kind is Regular);
                }
            }
        }
        if forall|i: int| 0 <= i < rules.len() && fires_on(#[trigger] rules[i], atom) ==> rules[i].kind is Regular {
            assert forall|i: int| 0 <= i < rest.len() && fires_on(#[trigger] rest[i], atom) implies rest[i].kind is Regular by {
                assert(rules[i + 1] == rest[i]);
            }
            if fires_on(rules[0], atom) {
                assert(rules[0].kind is Regular);
            }
        }
    }
}

/// At a fixpoint every atom that propagation took off the worklist had the
/// head of every watched regular rule stored, grounded under every body
/// match: the answer set is closed under those rules.
pub proof fn lemma_fixpoint_stores_heads(
    watch: spec_fn(GroundAtomView) -> Seq<RuleView>,
    worklist: Seq<GroundAtomView>,
    db: Seq<GroundAtomView>,
    fuel: nat,
)
    ensures
        ({
            let (o, fin) = run_with(watch, worklist, db, fuel);
            o == RunOutcome::Finished(PropagationResult::Fixpoint) ==> forall|k: int, i: int, j: int|
                db.len() <= k < fin.len() && 0 <= i < watch(fin[k]).len() && derives_heads(
                    #[trigger] watch(fin[k])[i],
                ) && 0 <= j < body_matches(watch(fin[k])[i].body, fin[k]).len() ==> fin.contains(
                    apply_view(
                        head_atom(watch(fin[k])[i]),
                        #[trigger] body_matches(watch(fin[k])[i].body, fin[k])[j],
                    ),
                )
        }),
{
    let (o, fin) = run_with(watch, worklist, db, fuel);
    lemma_run_with_ends(watch, worklist, db, fuel);
    if o == RunOutcome::Finished(PropagationResult::Fixpoint) {
        assert forall|k: int, i: int, j: int|
            db.len() <= k < fin.len() && 0 <= i < watch(fin[k]).len() && derives_heads(
                #[trigger] watch(fin[k])[i],
            ) && 0 <= j < body_matches(watch(fin[k])[i].body, fin[k]).len() implies fin.contains(
            apply_view(
                head_atom(watch(fin[k])[i]),
                #[trigger] body_matches(watch(fin[k])[i].body, fin[k])[j],
            ),
        ) by {
            let rs = watch(fin[k]);
            lemma_fire_rules_heads(rs, fin[k]);
            let d = fire_rules(rs, fin[k])->Derived_0;
            let pos = match_total(rs.take(i), fin[k]) + j;
            lemma_match_total_prefix(rs, fin[k], i);
            assert(d[pos] == apply_view(head_atom(rs[i]), body_matches(rs[i].body, fin[k])[j]));
        }
    }
}

/// The count of a prefix and its next rule do not exceed the whole count.
proof fn lemma_match_total_prefix(rules: Seq<RuleView>, atom: GroundAtomView, i: int)
    requires
        0 <= i < rules.len(),
    ensures
        match_total(rules.take(i), atom) + (if derives_heads(rules[i]) {
            body_matches(rules[i].body, atom).len()
        } else {
            0
        }) <= match_total(rules, atom),
    decreases rules.len(),
{
    if i == 0 {
        assert(rules.take(0) =~= Seq::<RuleView>::empty());
    } else {
        lemma_match_total_take(rules, atom, i);
        lemma_match_total_prefix(rules.drop_first(), atom, i - 1);
        assert(rules.drop_first()[i - 1] == rules[i]);
    }
}


/// Each step of propagation takes the last atom of the worklist: a run
/// that makes a step stores that atom right after the atoms it started
/// with.
pub proof fn lemma_run_takes_last<E: JoinEngine>(st: PropagationState<E>, fuel: nat)
    requires
        st.worklist.len() > 0,
        fuel > 0,
    ensures
        run(st, fuel).1.db.len() > st.db.len(),
        run(st, fuel).1.db[st.db.len() as int] == st.worklist.last(),
{
    let (out, next) = step(st);
    lemma_run_ends(next, (fuel - 1) as nat);
    let fin = run(st, fuel).1;
    match out {
        FireOutcome::Derived(_) => {
            assert(fin.db.subrange(0, next.db.len() as int)[st.db.len() as int] == fin.db[st.db.len() as int]);
        },
        _ => {},
    }
}

} // verus!
