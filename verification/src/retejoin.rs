//! A join engine that indexes, by predicate name, the rules whose bodies
//! mention that name.
use crate::atomdb::AtomDB;
use crate::engine::JoinEngine;
use crate::program::{AtomView, DeepCopy, GroundAtom, GroundAtomView, Program, Rule, RuleView};
use vstd::prelude::*;

verus! {

/// How many atoms of `body` carry the predicate name `name`.
pub open spec fn count_named(body: Seq<AtomView>, name: Seq<char>) -> nat
    decreases body.len(),
{
    if body.len() == 0 {
        0
    } else {
        count_named(body.drop_last(), name) + if body.last().predicate.name == name {
            1nat
        } else {
            0nat
        }
    }
}

/// The rules whose bodies mention `name`, in order, each repeated once per
/// body atom with that name.
pub open spec fn rules_mentioning(rules: Seq<RuleView>, name: Seq<char>) -> Seq<RuleView>
    decreases rules.len(),
{
    if rules.len() == 0 {
        Seq::empty()
    } else {
        rules_mentioning(rules.drop_last(), name) + Seq::new(
            count_named(rules.last().body, name),
            |_i: int| rules.last(),
        )
    }
}

/// The rules an engine built over `db` and `rules` watches for `name`:
/// `rules_mentioning(rules, name)` once for every atom of `db` named `name`.
pub open spec fn watchers(db: Seq<GroundAtomView>, rules: Seq<RuleView>, name: Seq<char>) -> Seq<
    RuleView,
>
    decreases db.len(),
{
    if db.len() == 0 {
        Seq::empty()
    } else {
        watchers(db.drop_last(), rules, name) + if db.last().name == name {
            rules_mentioning(rules, name)
        } else {
            Seq::empty()
        }
    }
}

/// The rule list of the first entry whose key is `name`, or none.
pub open spec fn lookup(entries: Seq<(Seq<char>, Seq<RuleView>)>, name: Seq<char>) -> Seq<
    RuleView,
>
    decreases entries.len(),
{
    if entries.len() == 0 {
        Seq::empty()
    } else if entries[0].0 == name {
        entries[0].1
    } else {
        lookup(entries.drop_first(), name)
    }
}

/// Rules indexed by the predicate names their bodies mention.
pub struct ReteJoinEngine {
    rules_watching: Vec<(String, Vec<Rule>)>,
}

/// No two entries of an index share a key.
pub open spec fn entry_keys_distinct(entries: Seq<(Seq<char>, Seq<RuleView>)>) -> bool {
    forall|i: int, j: int| 0 <= i < j < entries.len() ==> (#[trigger] entries[i]).0 != (#[trigger] entries[j]).0
}

impl ReteJoinEngine {
    /// Each predicate name has at most one entry, as in a map.
    #[verifier::type_invariant]
    spec fn keys_distinct(self) -> bool {
        entry_keys_distinct(self.rules_watching.deep_view())
    }
}

impl DeepView for ReteJoinEngine {
    type V = Seq<(Seq<char>, Seq<RuleView>)>;

    closed spec fn deep_view(&self) -> Seq<(Seq<char>, Seq<RuleView>)> {
        self.rules_watching.deep_view()
    }
}

/// Replacing the list of the first entry with key `k` changes the lookup
/// of `k` only.
proof fn lemma_lookup_update(
    entries: Seq<(Seq<char>, Seq<RuleView>)>,
    p: int,
    v: Seq<RuleView>,
    n: Seq<char>,
)
    requires
        0 <= p < entries.len(),
        forall|j: int| 0 <= j < p ==> (#[trigger] entries[j]).0 != entries[p].0,
    ensures
        lookup(entries.update(p, (entries[p].0, v)), n) == if n == entries[p].0 {
            v
        } else {
            lookup(entries, n)
        },
    decreases entries.len(),
{
    let u = entries.update(p, (entries[p].0, v));
    if p == 0 {
        assert(u.drop_first() =~= entries.drop_first());
    } else {
        assert(u.drop_first() =~= entries.drop_first().update(p - 1, (entries[p].0, v)));
        assert forall|j: int| 0 <= j < p - 1 implies (#[trigger] entries.drop_first()[j]).0
            != entries.drop_first()[p - 1].0 by {
            assert(entries.drop_first()[j] == entries[j + 1]);
        }
        lemma_lookup_update(entries.drop_first(), p - 1, v, n);
        assert(entries[0].0 != entries[p].0);
    }
}

/// Adding an entry for a key no entry has gives that key its list.
proof fn lemma_lookup_push(
    entries: Seq<(Seq<char>, Seq<RuleView>)>,
    k: Seq<char>,
    v: Seq<RuleView>,
    n: Seq<char>,
)
    requires
        forall|j: int| 0 <= j < entries.len() ==> (#[trigger] entries[j]).0 != k,
    ensures
        lookup(entries.push((k, v)), n) == if n == k {
            v
        } else {
            lookup(entries, n)
        },
        lookup(entries, k) == Seq::<RuleView>::empty(),
    decreases entries.len(),
{
    if entries.len() == 0 {
        assert(entries.push((k, v)).drop_first() =~= entries);
    } else {
        assert(entries.push((k, v)).drop_first() =~= entries.drop_first().push((k, v)));
        assert forall|j: int| 0 <= j < entries.drop_first().len() implies (
        #[trigger] entries.drop_first()[j]).0 != k by {
            assert(entries.drop_first()[j] == entries[j + 1]);
        }
        lemma_lookup_push(entries.drop_first(), k, v, n);
    }
}

/// The position of the first entry with key `name`.
fn entry_position(entries: &Vec<(String, Vec<Rule>)>, name: &String) -> (r: Option<usize>)
    ensures
        match r {
            Some(p) => p < entries@.len() && entries.deep_view()[p as int].0 == name@,
            None => true,
        },
        forall|j: int|
            0 <= j < (match r {
                Some(p) => p as int,
                None => entries@.len() as int,
            }) ==> (#[trigger] entries.deep_view()[j]).0 != name@,
{
    let mut p: usize = 0;
    while p < entries.len()
        invariant
            p <= entries@.len(),
            forall|j: int| 0 <= j < p ==> (#[trigger] entries.deep_view()[j]).0 != name@,
        decreases entries.len() - p,
    {
        if entries[p].0 == *name {
            return Some(p);
        }
        p = p + 1;
    }
    None
}

/// Appends `rule` to the list of `name`.
fn add_watcher(entries: &mut Vec<(String, Vec<Rule>)>, name: &String, rule: Rule)
    ensures
        entry_keys_distinct(old(entries).deep_view()) ==> entry_keys_distinct(final(entries).deep_view()),
        forall|n: Seq<char>|
            #[trigger] lookup(final(entries).deep_view(), n) == if n == name@ {
                lookup(old(entries).deep_view(), n).push(rule.deep_view())
            } else {
                lookup(old(entries).deep_view(), n)
            },
{
    let ghost before = entries.deep_view();
    match entry_position(entries, name) {
        Some(p) => {
            let ghost old_list = before[p as int].1;
            let ghost rv = rule.deep_view();
            let ghost old_entry = entries@[p as int];
            entries[p].1.push(rule);
            proof {
                assert(entries@[p as int].1@ == old_entry.1@.push(rule));
                assert(entries@[p as int].1.deep_view() =~= old_list.push(rv));
                assert(entries.deep_view() =~= before.update(p as int, (name@, old_list.push(rv))));
                assert forall|j: int| 0 <= j < entries@.len() implies (#[trigger] entries.deep_view()[j]).0 == before[j].0 by {}
                assert forall|n: Seq<char>| #[trigger] lookup(entries.deep_view(), n) == if n == name@ {
                    lookup(before, n).push(rv)
                } else {
                    lookup(before, n)
                } by {
                    lemma_lookup_update(before, p as int, old_list.push(rv), n);
                    lemma_lookup_update(before, p as int, old_list, n);
                    assert(before.update(p as int, (name@, old_list)) =~= before);
                }
            }
        },
        None => {
            let ghost rv = rule.deep_view();
            let list = vec![rule];
            entries.push((name.clone(), list));
            proof {
                assert(list.deep_view() =~= seq![rv]);
                assert(entries.deep_view() =~= before.push((name@, seq![rv])));
                assert(entries.deep_view()[before.len() as int].0 == name@);
                assert forall|n: Seq<char>| #[trigger] lookup(entries.deep_view(), n) == if n == name@ {
                    lookup(before, n).push(rv)
                } else {
                    lookup(before, n)
                } by {
                    lemma_lookup_push(before, name@, seq![rv], n);
                    assert(Seq::<RuleView>::empty().push(rv) =~= seq![rv]);
                }
            }
        },
    }
}

impl ReteJoinEngine {
    /// Indexes, for every atom of `atomdb` and every rule of `program`, the
    /// rule under the atom's name once per body atom with that name.
    pub fn new(atomdb: &AtomDB, program: &Program) -> (r: ReteJoinEngine)
        ensures
            forall|a: GroundAtomView|
                #[trigger] r.watching(a) == watchers(
                    atomdb.deep_view(),
                    program.rules.deep_view(),
                    a.name,
                ),
    {
        let atoms = atomdb.atoms();
        let ghost db = atoms.deep_view();
        let ghost rules = program.rules.deep_view();
        let mut entries: Vec<(String, Vec<Rule>)> = Vec::new();
        let mut a: usize = 0;
        assert forall|n: Seq<char>| #[trigger] lookup(entries.deep_view(), n) == watchers(db.take(0), rules, n) by {
            assert(entries.deep_view() =~= Seq::<(Seq<char>, Seq<RuleView>)>::empty());
            assert(db.take(0) =~= Seq::<GroundAtomView>::empty());
        }
        while a < atoms.len()
            invariant
                a <= atoms@.len(),
                db == atoms.deep_view(),
                rules == program.rules.deep_view(),
                forall|n: Seq<char>| #[trigger] lookup(entries.deep_view(), n) == watchers(db.take(a as int), rules, n),
                entry_keys_distinct(entries.deep_view()),
            decreases atoms.len() - a,
        {
            let atom = &atoms[a];
            let mut k: usize = 0;
            assert forall|n: Seq<char>| #[trigger] lookup(entries.deep_view(), n) == watchers(db.take(a as int), rules, n)
                + if db[a as int].name == n {
                rules_mentioning(rules.take(0), n)
            } else {
                Seq::empty()
            } by {
                assert(rules.take(0) =~= Seq::<RuleView>::empty());
                assert(watchers(db.take(a as int), rules, n) + Seq::<RuleView>::empty() =~= watchers(db.take(a as int), rules, n));
            }
            while k < program.rules.len()
                invariant
                    a < atoms@.len(),
                    k <= program.rules@.len(),
                    db == atoms.deep_view(),
                    rules == program.rules.deep_view(),
                    atom.deep_view() == db[a as int],
                    entry_keys_distinct(entries.deep_view()),
                    forall|n: Seq<char>| #[trigger] lookup(entries.deep_view(), n) == watchers(db.take(a as int), rules, n)
                        + if db[a as int].name == n {
                        rules_mentioning(rules.take(k as int), n)
                    } else {
                        Seq::empty()
                    },
                decreases program.rules.len() - k,
            {
                let rule = &program.rules[k];
                let ghost rv = rule.deep_view();
                assert(rv == rules[k as int]);
                let mut j: usize = 0;
                assert forall|n: Seq<char>| #[trigger] lookup(entries.deep_view(), n) == watchers(db.take(a as int), rules, n)
                    + if db[a as int].name == n {
                    rules_mentioning(rules.take(k as int), n) + Seq::new(
                        count_named(rv.body.take(0), n),
                        |_i: int| rv,
                    )
                } else {
                    Seq::empty()
                } by {
                    assert(rv.body.take(0) =~= Seq::<AtomView>::empty());
                    assert(rules_mentioning(rules.take(k as int), n) + Seq::new(0, |_i: int| rv) =~= rules_mentioning(rules.take(k as int), n));
                }
                while j < rule.body.len()
                    invariant
                        a < atoms@.len(),
                        k < program.rules@.len(),
                        j <= rule.body@.len(),
                        db == atoms.deep_view(),
                        rules == program.rules.deep_view(),
                        atom.deep_view() == db[a as int],
                        rv == rule.deep_view(),
                        entry_keys_distinct(entries.deep_view()),
                        forall|n: Seq<char>| #[trigger] lookup(entries.deep_view(), n) == watchers(db.take(a as int), rules, n)
                            + if db[a as int].name == n {
                            rules_mentioning(rules.take(k as int), n) + Seq::new(
                                count_named(rv.body.take(j as int), n),
                                |_i: int| rv,
                            )
                        } else {
                            Seq::empty()
                        },
                    decreases rule.body.len() - j,
                {
                    let ghost before = entries.deep_view();
                    assert(rv.body.take(j + 1).drop_last() =~= rv.body.take(j as int));
                    assert(rv.body.take(j + 1).last() == rule.body@[j as int].deep_view());
                    if rule.body[j].predicate.name == atom.name {
                        add_watcher(&mut entries, &atom.name, rule.deep_copy());
                        assert forall|n: Seq<char>| #[trigger] lookup(entries.deep_view(), n) == watchers(db.take(a as int), rules, n)
                            + if db[a as int].name == n {
                            rules_mentioning(rules.take(k as int), n) + Seq::new(
                                count_named(rv.body.take(j + 1), n),
                                |_i: int| rv,
                            )
                        } else {
                            Seq::empty()
                        } by {
                            if n == db[a as int].name {
                                assert(Seq::new(count_named(rv.body.take(j + 1), n), |_i: int| rv)
                                    =~= Seq::new(count_named(rv.body.take(j as int), n), |_i: int| rv).push(rv));
                            }
                        }
                    } else {
                        assert forall|n: Seq<char>| #[trigger] lookup(entries.deep_view(), n) == watchers(db.take(a as int), rules, n)
                            + if db[a as int].name == n {
                            rules_mentioning(rules.take(k as int), n) + Seq::new(
                                count_named(rv.body.take(j + 1), n),
                                |_i: int| rv,
                            )
                        } else {
                            Seq::empty()
                        } by {
                            if n == db[a as int].name {
                                assert(count_named(rv.body.take(j + 1), n) == count_named(rv.body.take(j as int), n));
                            }
                        }
                    }
                    j = j + 1;
                }
                assert(rv.body.take(j as int) =~= rv.body);
                assert(rules.take(k + 1).drop_last() =~= rules.take(k as int));
                k = k + 1;
            }
            assert(rules.take(k as int) =~= rules);
            assert(db.take(a + 1).drop_last() =~= db.take(a as int));
            a = a + 1;
        }
        assert(db.take(a as int) =~= db);
        ReteJoinEngine { rules_watching: entries }
    }
}

impl JoinEngine for ReteJoinEngine {
    closed spec fn watching(&self, atom: GroundAtomView) -> Seq<RuleView> {
        lookup(self.rules_watching.deep_view(), atom.name)
    }

    open spec fn after_new_atom(&self, atom: GroundAtomView) -> Self {
        *self
    }

    /// The rules indexed under the atom's name, in order.
    fn rules_watching(&self, atom: &GroundAtom) -> (r: Vec<&Rule>) {
        let ghost entries = self.rules_watching.deep_view();
        let mut p: usize = 0;
        assert(entries.skip(0) =~= entries);
        while p < self.rules_watching.len()
            invariant
                p <= self.rules_watching@.len(),
                entries == self.rules_watching.deep_view(),
                lookup(entries, atom.name@) == lookup(entries.skip(p as int), atom.name@),
            decreases self.rules_watching.len() - p,
        {
            assert(entries.skip(p as int)[0] == entries[p as int]);
            assert(entries.skip(p as int).drop_first() =~= entries.skip(p + 1));
            if self.rules_watching[p].0 == atom.name {
                let list = &self.rules_watching[p].1;
                let mut r: Vec<&Rule> = Vec::new();
                let mut i: usize = 0;
                while i < list.len()
                    invariant
                        i <= list@.len(),
                        r@.len() == i,
                        forall|j: int| 0 <= j < i ==> (#[trigger] r@[j]).deep_view() == list@[j].deep_view(),
                    decreases list.len() - i,
                {
                    r.push(&list[i]);
                    i = i + 1;
                }
                assert(r.deep_view() =~= list.deep_view());
                return r;
            }
            p = p + 1;
        }
        assert(entries.skip(p as int) =~= Seq::<(Seq<char>, Seq<RuleView>)>::empty());
        let r: Vec<&Rule> = Vec::new();
        assert(r.deep_view() =~= Seq::<RuleView>::empty());
        r
    }

    /// The index does not change when atoms are derived.
    fn on_new_atom(&mut self, atom: &GroundAtom) {
    }
}


// ---------------------------------------------------------------------
// Laws of the index
// ---------------------------------------------------------------------
/// The rules an engine hands out for a ground atom depend on its predicate
/// name alone, not on its arguments or sign.
pub proof fn lemma_watching_by_name(e: ReteJoinEngine, g1: GroundAtomView, g2: GroundAtomView)
    requires
        g1.name == g2.name,
    ensures
        e.watching(g1) == e.watching(g2),
{
}

/// A body with an atom named `name` counts it.
proof fn lemma_count_named_positive(body: Seq<AtomView>, name: Seq<char>)
    requires
        count_named(body, name) > 0,
    ensures
        exists|j: int| 0 <= j < body.len() && (#[trigger] body[j]).predicate.name == name,
    decreases body.len(),
{
    if body.last().predicate.name != name {
        lemma_count_named_positive(body.drop_last(), name);
        let j = choose|j: int| 0 <= j < body.drop_last().len() && (#[trigger] body.drop_last()[j]).predicate.name == name;
        assert(body[j] == body.drop_last()[j]);
    } else {
        assert(body[body.len() - 1].predicate.name == name);
    }
}

/// Every rule in `rules_mentioning(rules, name)` is one of `rules` and has a
/// body atom named `name`.
proof fn lemma_rules_mentioning_sound(rules: Seq<RuleView>, name: Seq<char>)
    ensures
        forall|i: int|
            0 <= i < rules_mentioning(rules, name).len() ==> rules.contains(
                #[trigger] rules_mentioning(rules, name)[i],
            ) && exists|j: int|
                0 <= j < rules_mentioning(rules, name)[i].body.len() && (
                #[trigger] rules_mentioning(rules, name)[i].body[j]).predicate.name == name,
    decreases rules.len(),
{
    if rules.len() > 0 {
        lemma_rules_mentioning_sound(rules.drop_last(), name);
        let prev = rules_mentioning(rules.drop_last(), name);
        let last = rules.last();
        let copies = Seq::new(count_named(last.body, name), |_i: int| last);
        assert forall|i: int| 0 <= i < rules_mentioning(rules, name).len() implies rules.contains(
            #[trigger] rules_mentioning(rules, name)[i],
        ) && exists|j: int|
            0 <= j < rules_mentioning(rules, name)[i].body.len() && (
            #[trigger] rules_mentioning(rules, name)[i].body[j]).predicate.name == name by {
            if i < prev.len() {
                assert(rules_mentioning(rules, name)[i] == prev[i]);
                let k = choose|k: int| 0 <= k < rules.drop_last().len() && rules.drop_last()[k] == prev[i];
                assert(rules[k] == prev[i]);
            } else {
                assert(rules_mentioning(rules, name)[i] == copies[i - prev.len()]);
                assert(rules[rules.len() - 1] == last);
                lemma_count_named_positive(last.body, name);
            }
        }
    }
}

/// Every rule an engine built over `db` and `rules` watches for `name` is
/// one of `rules` and has a body atom named `name`.
pub proof fn lemma_watchers_sound(db: Seq<GroundAtomView>, rules: Seq<RuleView>, name: Seq<char>)
    ensures
        forall|i: int|
            0 <= i < watchers(db, rules, name).len() ==> rules.contains(
                #[trigger] watchers(db, rules, name)[i],
            ) && exists|j: int|
                0 <= j < watchers(db, rules, name)[i].body.len() && (#[trigger] watchers(
                    db,
                    rules,
                    name,
                )[i].body[j]).predicate.name == name,
    decreases db.len(),
{
    if db.len() > 0 {
        lemma_watchers_sound(db.drop_last(), rules, name);
        lemma_rules_mentioning_sound(rules, name);
        let prev = watchers(db.drop_last(), rules, name);
        let tail = if db.last().name == name {
            rules_mentioning(rules, name)
        } else {
            Seq::empty()
        };
        assert forall|i: int| 0 <= i < watchers(db, rules, name).len() implies rules.contains(
            #[trigger] watchers(db, rules, name)[i],
        ) && exists|j: int|
            0 <= j < watchers(db, rules, name)[i].body.len() && (#[trigger] watchers(
                db,
                rules,
                name,
            )[i].body[j]).predicate.name == name by {
            if i < prev.len() {
                assert(watchers(db, rules, name)[i] == prev[i]);
            } else {
                assert(watchers(db, rules, name)[i] == tail[i - prev.len()]);
            }
        }
    }
}


/// A body with an atom named `name` has a positive count for it.
proof fn lemma_count_named_of_member(body: Seq<AtomView>, name: Seq<char>, j: int)
    requires
        0 <= j < body.len(),
        body[j].predicate.name == name,
    ensures
        count_named(body, name) > 0,
    decreases body.len(),
{
    if j < body.len() - 1 {
        assert(body.drop_last()[j] == body[j]);
        lemma_count_named_of_member(body.drop_last(), name, j);
    }
}

/// A rule with a body atom named `name` is among the rules mentioning it.
proof fn lemma_rules_mentioning_complete(rules: Seq<RuleView>, name: Seq<char>, k: int, j: int)
    requires
        0 <= k < rules.len(),
        0 <= j < rules[k].body.len(),
        rules[k].body[j].predicate.name == name,
    ensures
        rules_mentioning(rules, name).contains(rules[k]),
    decreases rules.len(),
{
    let prev = rules_mentioning(rules.drop_last(), name);
    if k < rules.len() - 1 {
        assert(rules.drop_last()[k] == rules[k]);
        lemma_rules_mentioning_complete(rules.drop_last(), name, k, j);
        let i = choose|i: int| 0 <= i < prev.len() && prev[i] == rules[k];
        assert(rules_mentioning(rules, name)[i] == prev[i]);
    } else {
        lemma_count_named_of_member(rules.last().body, name, j);
        assert(rules_mentioning(rules, name)[prev.len() as int] == rules.last());
    }
}

/// The rules an engine built over `db` and `rules` watches for `name` are
/// exactly the rules of `rules` with a body atom named `name`, when `db`
/// holds an atom named `name`, and none otherwise.
pub proof fn lemma_watchers_exact(
    db: Seq<GroundAtomView>,
    rules: Seq<RuleView>,
    name: Seq<char>,
    r: RuleView,
)
    ensures
        watchers(db, rules, name).contains(r) <==> {
            &&& exists|k: int| 0 <= k < db.len() && (#[trigger] db[k]).name == name
            &&& rules.contains(r)
            &&& exists|j: int| 0 <= j < r.body.len() && (#[trigger] r.body[j]).predicate.name == name
        },
    decreases db.len(),
{
    if db.len() > 0 {
        lemma_watchers_exact(db.drop_last(), rules, name, r);
        lemma_watchers_sound(db, rules, name);
        let prev = watchers(db.drop_last(), rules, name);
        let w = watchers(db, rules, name);
        if w.contains(r) {
            let i = choose|i: int| 0 <= i < w.len() && w[i] == r;
            assert(rules.contains(w[i]));
            if i < prev.len() {
                assert(w[i] == prev[i]);
                assert(prev.contains(r));
                let k = choose|k: int| 0 <= k < db.drop_last().len() && (#[trigger] db.drop_last()[k]).name == name;
                assert(db[k] == db.drop_last()[k]);
            } else {
                assert(db[db.len() - 1].name == name);
            }
        }
        if (exists|k: int| 0 <= k < db.len() && (#[trigger] db[k]).name == name) && rules.contains(r)
            && exists|j: int| 0 <= j < r.body.len() && (#[trigger] r.body[j]).predicate.name == name {
            let k = choose|k: int| 0 <= k < db.len() && (#[trigger] db[k]).name == name;
            if k < db.len() - 1 {
                assert(db.drop_last()[k] == db[k]);
                let i = choose|i: int| 0 <= i < prev.len() && prev[i] == r;
                assert(w[i] == prev[i]);
            } else {
                let q = choose|q: int| 0 <= q < rules.len() && rules[q] == r;
                let j = choose|j: int| 0 <= j < r.body.len() && (#[trigger] r.body[j]).predicate.name == name;
                lemma_rules_mentioning_complete(rules, name, q, j);
                let rm = rules_mentioning(rules, name);
                let i = choose|i: int| 0 <= i < rm.len() && rm[i] == r;
                assert(w[prev.len() + i] == rm[i]);
            }
        }
    }
}

} // verus!
