//! Matching of atoms against ground atoms: substitutions, applying them,
//! and finding the body atoms of a rule that a ground atom matches.
use crate::program::{
    ArgView, Atom, AtomView, DeepCopy, GroundAtom, GroundAtomView, Literal, PredicateArg, Rule, RuleView,
};
use vstd::prelude::*;

verus! {

// ---------------------------------------------------------------------
// Substitutions
// ---------------------------------------------------------------------
/// The map that a list of bindings denotes; where a variable is bound
/// twice, the first binding counts.
pub open spec fn bindings_map(pairs: Seq<(Seq<char>, Seq<char>)>) -> Map<Seq<char>, Seq<char>>
    decreases pairs.len(),
{
    if pairs.len() == 0 {
        Map::empty()
    } else {
        bindings_map(pairs.drop_first()).insert(pairs[0].0, pairs[0].1)
    }
}

/// A binding of variable names to constants.
pub struct Substitution {
    pub mapping: Vec<(String, String)>,
}

impl DeepView for Substitution {
    type V = Map<Seq<char>, Seq<char>>;

    open spec fn deep_view(&self) -> Map<Seq<char>, Seq<char>> {
        bindings_map(self.mapping.deep_view())
    }
}

/// The map of `pairs` is that of its last entries with the first entry added.
proof fn lemma_bindings_map_domain(pairs: Seq<(Seq<char>, Seq<char>)>, k: Seq<char>)
    ensures
        bindings_map(pairs).dom().contains(k) <==> exists|i: int|
            0 <= i < pairs.len() && (#[trigger] pairs[i]).0 == k,
    decreases pairs.len(),
{
    if pairs.len() > 0 {
        lemma_bindings_map_domain(pairs.drop_first(), k);
        if bindings_map(pairs.drop_first()).dom().contains(k) {
            let i = choose|i: int| 0 <= i < pairs.drop_first().len() && (#[trigger] pairs.drop_first()[i]).0 == k;
            assert(pairs[i + 1] == pairs.drop_first()[i]);
        }
        assert forall|i: int| 0 <= i < pairs.len() && (#[trigger] pairs[i]).0 == k && i > 0
            implies bindings_map(pairs.drop_first()).dom().contains(k) by {
            assert(pairs.drop_first()[i - 1] == pairs[i]);
        }
    }
}

/// Replacing the value of the first binding of `k` gives the map with `k`
/// sent to the new value.
proof fn lemma_bindings_map_update(pairs: Seq<(Seq<char>, Seq<char>)>, i: int, v: Seq<char>)
    requires
        0 <= i < pairs.len(),
        forall|j: int| 0 <= j < i ==> (#[trigger] pairs[j]).0 != pairs[i].0,
    ensures
        bindings_map(pairs.update(i, (pairs[i].0, v))) == bindings_map(pairs).insert(pairs[i].0, v),
    decreases pairs.len(),
{
    let k = pairs[i].0;
    let u = pairs.update(i, (k, v));
    if i == 0 {
        assert(u.drop_first() =~= pairs.drop_first());
        assert(bindings_map(u) =~= bindings_map(pairs).insert(k, v));
    } else {
        assert(u.drop_first() =~= pairs.drop_first().update(i - 1, (k, v)));
        assert forall|j: int| 0 <= j < i - 1 implies (#[trigger] pairs.drop_first()[j]).0 != pairs.drop_first()[i - 1].0 by {
            assert(pairs.drop_first()[j] == pairs[j + 1]);
        }
        lemma_bindings_map_update(pairs.drop_first(), i - 1, v);
        assert(pairs[0].0 != k);
        assert(bindings_map(u) =~= bindings_map(pairs).insert(k, v));
    }
}

/// Adding a binding of a fresh variable at the end adds it to the map.
proof fn lemma_bindings_map_push(pairs: Seq<(Seq<char>, Seq<char>)>, k: Seq<char>, v: Seq<char>)
    requires
        forall|j: int| 0 <= j < pairs.len() ==> (#[trigger] pairs[j]).0 != k,
    ensures
        bindings_map(pairs.push((k, v))) == bindings_map(pairs).insert(k, v),
    decreases pairs.len(),
{
    if pairs.len() == 0 {
        assert(pairs.push((k, v)).drop_first() =~= Seq::<(Seq<char>, Seq<char>)>::empty());
        assert(bindings_map(Seq::<(Seq<char>, Seq<char>)>::empty()) == Map::<Seq<char>, Seq<char>>::empty());
        assert(pairs.push((k, v))[0] == (k, v));
        assert(bindings_map(pairs.push((k, v))) =~= Map::<Seq<char>, Seq<char>>::empty().insert(k, v));
    } else {
        assert(pairs.push((k, v)).drop_first() =~= pairs.drop_first().push((k, v)));
        assert forall|j: int| 0 <= j < pairs.drop_first().len() implies (#[trigger] pairs.drop_first()[j]).0 != k by {
            assert(pairs.drop_first()[j] == pairs[j + 1]);
        }
        lemma_bindings_map_push(pairs.drop_first(), k, v);
        assert(bindings_map(pairs.push((k, v))) =~= bindings_map(pairs).insert(k, v));
    }
}

/// The value of a key is that of its first binding.
proof fn lemma_bindings_map_first(pairs: Seq<(Seq<char>, Seq<char>)>, i: int)
    requires
        0 <= i < pairs.len(),
        forall|j: int| 0 <= j < i ==> (#[trigger] pairs[j]).0 != pairs[i].0,
    ensures
        bindings_map(pairs).dom().contains(pairs[i].0),
        bindings_map(pairs)[pairs[i].0] == pairs[i].1,
    decreases pairs.len(),
{
    if i > 0 {
        assert forall|j: int| 0 <= j < i - 1 implies (#[trigger] pairs.drop_first()[j]).0 != pairs.drop_first()[i - 1].0 by {
            assert(pairs.drop_first()[j] == pairs[j + 1]);
        }
        lemma_bindings_map_first(pairs.drop_first(), i - 1);
    }
}

/// No key occurs twice in a list of bindings.
pub open spec fn keys_distinct(pairs: Seq<(Seq<char>, Seq<char>)>) -> bool {
    forall|i: int, j: int| 0 <= i < j < pairs.len() ==> (#[trigger] pairs[i]).0 != (#[trigger] pairs[j]).0
}

/// A list of bindings whose keys are distinct denotes a finite map with one
/// key per binding.
pub proof fn lemma_distinct_bindings_len(pairs: Seq<(Seq<char>, Seq<char>)>)
    requires
        keys_distinct(pairs),
    ensures
        bindings_map(pairs).dom().finite(),
        bindings_map(pairs).dom().len() == pairs.len(),
    decreases pairs.len(),
{
    if pairs.len() > 0 {
        let rest = pairs.drop_first();
        assert forall|i: int, j: int| 0 <= i < j < rest.len() implies (#[trigger] rest[i]).0 != (#[trigger] rest[j]).0 by {
            assert(rest[i] == pairs[i + 1] && rest[j] == pairs[j + 1]);
        }
        lemma_distinct_bindings_len(rest);
        lemma_bindings_map_domain(rest, pairs[0].0);
        if bindings_map(rest).dom().contains(pairs[0].0) {
            let i = choose|i: int| 0 <= i < rest.len() && (#[trigger] rest[i]).0 == pairs[0].0;
            assert(pairs[i + 1] == rest[i]);
        }
        assert(bindings_map(pairs).dom() == bindings_map(rest).dom().insert(pairs[0].0));
    }
}

impl Substitution {
    /// Each variable has at most one binding in `mapping`, as in a map.
    pub open spec fn wf(&self) -> bool {
        keys_distinct(self.mapping.deep_view())
    }

    /// The empty substitution.
    pub fn new() -> (r: Substitution)
        ensures
            r.deep_view() == Map::<Seq<char>, Seq<char>>::empty(),
            r.wf(),
            r.mapping@.len() == 0,
    {
        let r = Substitution { mapping: Vec::new() };
        assert(r.mapping.deep_view() =~= Seq::<(Seq<char>, Seq<char>)>::empty());
        r
    }

    /// Binds `key` to `value`, replacing an earlier binding of `key`.
    pub fn insert(&mut self, key: String, value: String)
        ensures
            final(self).deep_view() == old(self).deep_view().insert(key@, value@),
            final(self).mapping@.len() == old(self).mapping@.len() + if old(
                self,
            ).deep_view().dom().contains(key@) {
                0int
            } else {
                1int
            },
            old(self).wf() ==> final(self).wf(),
    {
        let ghost pairs = self.mapping.deep_view();
        proof {
            lemma_bindings_map_domain(pairs, key@);
        }
        let found = self.position(&key);
        match found {
            Some(i) => {
                let k = self.mapping[i].0.clone();
                self.mapping.set(i, (k, value));
                proof {
                    lemma_bindings_map_update(pairs, i as int, value@);
                    assert(self.mapping.deep_view() =~= pairs.update(i as int, (key@, value@)));
                    assert(pairs.update(i as int, (key@, value@))[i as int].0 == pairs[i as int].0);
                }
            },
            None => {
                self.mapping.push((key, value));
                proof {
                    lemma_bindings_map_push(pairs, key@, value@);
                    assert(self.mapping.deep_view() =~= pairs.push((key@, value@)));
                    assert(self.mapping.deep_view()[pairs.len() as int].0 == key@);
                }
            },
        }
    }

    /// The position of the first binding of `key`.
    fn position(&self, key: &String) -> (r: Option<usize>)
        ensures
            match r {
                Some(i) => i < self.mapping@.len() && self.mapping.deep_view()[i as int].0 == key@,
                None => true,
            },
            forall|j: int|
                0 <= j < (match r {
                    Some(i) => i as int,
                    None => self.mapping@.len() as int,
                }) ==> (#[trigger] self.mapping.deep_view()[j]).0 != key@,
    {
        let mut i: usize = 0;
        while i < self.mapping.len()
            invariant
                i <= self.mapping@.len(),
                forall|j: int| 0 <= j < i ==> (#[trigger] self.mapping.deep_view()[j]).0 != key@,
            decreases self.mapping.len() - i,
        {
            if self.mapping[i].0 == *key {
                return Some(i);
            }
            i = i + 1;
        }
        None
    }

    /// The value bound to `key`, if any.
    pub fn get(&self, key: &String) -> (r: Option<&String>)
        ensures
            r is Some <==> self.deep_view().dom().contains(key@),
            r matches Some(v) ==> v@ == self.deep_view()[key@],
    {
        let ghost pairs = self.mapping.deep_view();
        match self.position(key) {
            Some(i) => {
                proof {
                    lemma_bindings_map_first(pairs, i as int);
                }
                Some(&self.mapping[i].1)
            },
            None => {
                proof {
                    lemma_bindings_map_domain(pairs, key@);
                }
                None
            },
        }
    }
}

// ---------------------------------------------------------------------
// Matching and applying
// ---------------------------------------------------------------------
/// The constant that an argument denotes under a substitution: a literal
/// itself, a bound variable its value, an unbound variable its own name.
pub open spec fn apply_arg(a: ArgView, s: Map<Seq<char>, Seq<char>>) -> Seq<char> {
    match a {
        ArgView::Literal(l) => l,
        ArgView::Variable(v) => if s.dom().contains(v) {
            s[v]
        } else {
            v
        },
    }
}

/// The ground atom that an atom denotes under a substitution.
pub open spec fn apply_view(atom: AtomView, s: Map<Seq<char>, Seq<char>>) -> GroundAtomView {
    GroundAtomView {
        name: atom.predicate.name,
        args: atom.args.map_values(|a: ArgView| apply_arg(a, s)),
        negated: atom.negated,
    }
}

/// The bindings that matching the first `n` arguments of an atom against
/// constants yields, or `None` at the first clash: a literal against another
/// constant, or a variable against a constant other than the one it is
/// already bound to.
pub open spec fn match_args(args: Seq<ArgView>, consts: Seq<Seq<char>>, n: nat) -> Option<
    Map<Seq<char>, Seq<char>>,
>
    decreases n,
{
    if n == 0 {
        Some(Map::empty())
    } else {
        match match_args(args, consts, (n - 1) as nat) {
            None => None,
            Some(m) => match args[n - 1] {
                ArgView::Variable(v) => if m.dom().contains(v) && m[v] != consts[n - 1] {
                    None
                } else {
                    Some(m.insert(v, consts[n - 1]))
                },
                ArgView::Literal(l) => if l != consts[n - 1] {
                    None
                } else {
                    Some(m)
                },
            },
        }
    }
}

/// The substitution under which `atom` denotes the arguments of `g`, if
/// the argument counts agree and no clash occurs. Names and signs are not
/// compared.
pub open spec fn substitution_of(atom: AtomView, g: GroundAtomView) -> Option<
    Map<Seq<char>, Seq<char>>,
> {
    if atom.args.len() != g.args.len() {
        None
    } else {
        match_args(atom.args, g.args, atom.args.len())
    }
}

/// Grounds `atom` under `subst`.
pub fn apply(atom: &Atom, subst: &Substitution) -> (r: GroundAtom)
    ensures
        r.deep_view() == apply_view(atom.deep_view(), subst.deep_view()),
{
    let mut args: Vec<Literal> = Vec::new();
    let mut i: usize = 0;
    while i < atom.args.len()
        invariant
            i <= atom.args@.len(),
            args@.len() == i,
            forall|j: int|
                0 <= j < i ==> (#[trigger] args@[j]).deep_view() == apply_arg(
                    atom.args@[j].deep_view(),
                    subst.deep_view(),
                ),
        decreases atom.args.len() - i,
    {
        let lit = match &atom.args[i] {
            PredicateArg::Variable(v) => match subst.get(&v.name) {
                Some(value) => Literal { name: value.clone() },
                None => Literal { name: v.name.clone() },
            },
            PredicateArg::Literal(l) => l.deep_copy(),
        };
        args.push(lit);
        i = i + 1;
    }
    let r = GroundAtom { name: atom.predicate.name.clone(), args, negated: atom.negated };
    assert(r.deep_view().args =~= apply_view(atom.deep_view(), subst.deep_view()).args);
    r
}

/// Matches `atom` against `ground_atom`: `Some` of the bindings of its
/// variables exactly when the argument counts agree and the arguments match
/// one by one, without comparing names.
pub fn get_substitution(atom: &Atom, ground_atom: &GroundAtom) -> (r: Option<Substitution>)
    ensures
        r.deep_view() == substitution_of(atom.deep_view(), ground_atom.deep_view()),
        r matches Some(s) ==> s.wf() && s.mapping@.len() == s.deep_view().dom().len(),
{
    if atom.args.len() != ground_atom.args.len() {
        return None;
    }
    let ghost args = atom.args.deep_view();
    let ghost consts = ground_atom.args.deep_view();
    let mut subst = Substitution::new();
    let mut i: usize = 0;
    while i < atom.args.len()
        invariant
            i <= atom.args@.len() == ground_atom.args@.len(),
            args == atom.args.deep_view(),
            consts == ground_atom.args.deep_view(),
            match_args(args, consts, i as nat) == Some(subst.deep_view()),
            subst.wf(),
        decreases atom.args.len() - i,
    {
        let g_arg = &ground_atom.args[i];
        assert(consts[i as int] == g_arg.name@);
        match &atom.args[i] {
            PredicateArg::Variable(v) => {
                assert(args[i as int] == ArgView::Variable(v.name@));
                match subst.get(&v.name) {
                    Some(existing) => {
                        if !(*existing == g_arg.name) {
                            proof {
                                lemma_match_args_stays_none(args, consts, (i + 1) as nat, args.len());
                            }
                            return None;
                        }
                    },
                    None => {},
                }
                subst.insert(v.name.clone(), g_arg.name.clone());
            },
            PredicateArg::Literal(l) => {
                assert(args[i as int] == ArgView::Literal(l.name@));
                if !(l.name == g_arg.name) {
                    proof {
                        lemma_match_args_stays_none(args, consts, (i + 1) as nat, args.len());
                    }
                    return None;
                }
            },
        }
        i = i + 1;
    }
    proof {
        lemma_distinct_bindings_len(subst.mapping.deep_view());
    }
    Some(subst)
}

/// After a successful match, grounding the atom under the bindings gives
/// back the arguments of the ground atom it was matched against, and the
/// predicate name and sign of the atom.
pub proof fn lemma_apply_substitution_of(atom: AtomView, g: GroundAtomView)
    requires
        substitution_of(atom, g) is Some,
    ensures
        apply_view(atom, substitution_of(atom, g)->0).args == g.args,
        apply_view(atom, substitution_of(atom, g)->0).name == atom.predicate.name,
        apply_view(atom, substitution_of(atom, g)->0).negated == atom.negated,
{
    let n = atom.args.len();
    let m = substitution_of(atom, g)->0;
    lemma_match_args_agree(atom.args, g.args, n);
    assert(apply_view(atom, m).args =~= g.args);
}

/// Once matching has clashed it stays clashed.
proof fn lemma_match_args_stays_none(args: Seq<ArgView>, consts: Seq<Seq<char>>, k: nat, n: nat)
    requires
        k <= n,
        match_args(args, consts, k) is None,
    ensures
        match_args(args, consts, n) is None,
    decreases n,
{
    if k < n {
        lemma_match_args_stays_none(args, consts, k, (n - 1) as nat);
    }
}

/// Every argument among the first `n` denotes its constant under the
/// bindings that a successful match produces.
proof fn lemma_match_args_agree(args: Seq<ArgView>, consts: Seq<Seq<char>>, n: nat)
    requires
        n <= args.len(),
        n <= consts.len(),
        match_args(args, consts, n) is Some,
    ensures
        forall|i: int|
            0 <= i < n ==> apply_arg(args[i], match_args(args, consts, n)->0) == consts[i],
        forall|i: int|
            #![trigger args[i]]
            0 <= i < n ==> match args[i] {
                ArgView::Variable(v) => match_args(args, consts, n)->0.dom().contains(v)
                    && match_args(args, consts, n)->0[v] == consts[i],
                ArgView::Literal(l) => l == consts[i],
            },
    decreases n,
{
    if n > 0 {
        lemma_match_args_agree(args, consts, (n - 1) as nat);
        let m0 = match_args(args, consts, (n - 1) as nat)->0;
        let m = match_args(args, consts, n)->0;
        assert forall|i: int| #![trigger args[i]] 0 <= i < n implies match args[i] {
            ArgView::Variable(v) => m.dom().contains(v) && m[v] == consts[i],
            ArgView::Literal(l) => l == consts[i],
        } by {
            if i < n - 1 {
                match args[i] {
                    ArgView::Variable(v) => {
                        assert(m0.dom().contains(v) && m0[v] == consts[i]);
                    },
                    ArgView::Literal(l) => {},
                }
            }
        }
        assert forall|i: int| 0 <= i < n implies apply_arg(args[i], m) == consts[i] by {
            match args[i] {
                ArgView::Variable(v) => {},
                ArgView::Literal(l) => {},
            }
        }
    }
}

// ---------------------------------------------------------------------
// Matching against rule bodies
// ---------------------------------------------------------------------
/// The substitutions of the body atoms with the ground atom's name that
/// match it, in body order.
pub open spec fn body_matches(body: Seq<AtomView>, g: GroundAtomView) -> Seq<
    Map<Seq<char>, Seq<char>>,
>
    decreases body.len(),
{
    if body.len() == 0 {
        Seq::empty()
    } else {
        let rest = body_matches(body.drop_last(), g);
        let b = body.last();
        if b.predicate.name == g.name {
            match substitution_of(b, g) {
                Some(m) => rest.push(m),
                None => rest,
            }
        } else {
            rest
        }
    }
}

/// The first body atom with the ground atom's name that matches it: its
/// substitution and whether it is negated.
pub open spec fn first_body_match(body: Seq<AtomView>, g: GroundAtomView) -> Option<
    (Map<Seq<char>, Seq<char>>, bool),
>
    decreases body.len(),
{
    if body.len() == 0 {
        None
    } else if body[0].predicate.name == g.name && substitution_of(body[0], g) is Some {
        Some((substitution_of(body[0], g)->0, body[0].negated))
    } else {
        first_body_match(body.drop_first(), g)
    }
}

/// The substitutions under which body atoms of `rule` match `atom`.
pub fn compute_matches(rule: &Rule, atom: &GroundAtom) -> (r: Vec<Substitution>)
    ensures
        r.deep_view() == body_matches(rule.body.deep_view(), atom.deep_view()),
        forall|i: int| 0 <= i < r@.len() ==> (#[trigger] r@[i]).wf(),
{
    let ghost body = rule.body.deep_view();
    let mut r: Vec<Substitution> = Vec::new();
    let mut i: usize = 0;
    while i < rule.body.len()
        invariant
            i <= rule.body@.len(),
            body == rule.body.deep_view(),
            r.deep_view() == body_matches(body.take(i as int), atom.deep_view()),
            forall|k: int| 0 <= k < r@.len() ==> (#[trigger] r@[k]).wf(),
        decreases rule.body.len() - i,
    {
        let body_atom = &rule.body[i];
        assert(body.take(i + 1).drop_last() =~= body.take(i as int));
        assert(body.take(i + 1).last() == body_atom.deep_view());
        let ghost before = r.deep_view();
        if body_atom.predicate.name == atom.name {
            match get_substitution(body_atom, atom) {
                Some(s) => {
                    r.push(s);
                    assert(r.deep_view() =~= before.push(s.deep_view()));
                },
                None => {},
            }
        }
        i = i + 1;
    }
    assert(body.take(i as int) =~= body);
    r
}

/// The first body atom of `rule` that matches `ground_atom`, with its
/// substitution and sign.
pub fn get_head_substitutions(rule: &Rule, ground_atom: &GroundAtom) -> (r: Option<
    (Substitution, bool),
>)
    ensures
        r.deep_view() == first_body_match(rule.body.deep_view(), ground_atom.deep_view()),
        r matches Some(p) ==> p.0.wf(),
{
    let ghost body = rule.body.deep_view();
    let mut i: usize = 0;
    assert(body.skip(0) =~= body);
    while i < rule.body.len()
        invariant
            i <= rule.body@.len(),
            body == rule.body.deep_view(),
            first_body_match(body, ground_atom.deep_view()) == first_body_match(
                body.skip(i as int),
                ground_atom.deep_view(),
            ),
        decreases rule.body.len() - i,
    {
        let body_atom = &rule.body[i];
        assert(body.skip(i as int)[0] == body_atom.deep_view());
        assert(body.skip(i as int).drop_first() =~= body.skip(i + 1));
        if body_atom.predicate.name == ground_atom.name {
            match get_substitution(body_atom, ground_atom) {
                Some(s) => {
                    return Some((s, body_atom.negated));
                },
                None => {},
            }
        }
        i = i + 1;
    }
    None
}

/// What a body atom contributes to `body_matches`.
pub open spec fn atom_matches(b: AtomView, g: GroundAtomView) -> Seq<Map<Seq<char>, Seq<char>>> {
    if b.predicate.name == g.name && substitution_of(b, g) is Some {
        seq![substitution_of(b, g)->0]
    } else {
        Seq::empty()
    }
}

/// `body_matches` unfolded at the front of the body.
proof fn lemma_body_matches_front(body: Seq<AtomView>, g: GroundAtomView)
    requires
        body.len() > 0,
    ensures
        body_matches(body, g) == atom_matches(body[0], g) + body_matches(body.drop_first(), g),
    decreases body.len(),
{
    let am_last = atom_matches(body.last(), g);
    assert(body_matches(body, g) =~= body_matches(body.drop_last(), g) + am_last);
    if body.len() == 1 {
        assert(body.drop_last() =~= Seq::<AtomView>::empty());
        assert(body.drop_first() =~= Seq::<AtomView>::empty());
        assert(body.last() == body[0]);
        assert(body_matches(body, g) =~= atom_matches(body[0], g) + body_matches(body.drop_first(), g));
    } else {
        lemma_body_matches_front(body.drop_last(), g);
        assert(body.drop_first().drop_last() =~= body.drop_last().drop_first());
        assert(body.drop_first().last() == body.last());
        assert(body.drop_last()[0] == body[0]);
        assert(body_matches(body.drop_first(), g) =~= body_matches(body.drop_first().drop_last(), g)
            + am_last);
        assert(body_matches(body, g) =~= atom_matches(body[0], g) + body_matches(body.drop_first(), g));
    }
}

/// `get_head_substitutions` finds a match exactly when `compute_matches`
/// finds one, and gives the first of them.
pub proof fn lemma_first_match_is_first_of_matches(body: Seq<AtomView>, g: GroundAtomView)
    ensures
        (first_body_match(body, g) is Some) == (body_matches(body, g).len() > 0),
        first_body_match(body, g) is Some ==> (first_body_match(body, g)->0).0 == body_matches(
            body,
            g,
        )[0],
    decreases body.len(),
{
    if body.len() > 0 {
        lemma_body_matches_front(body, g);
        lemma_first_match_is_first_of_matches(body.drop_first(), g);
    }
}

/// Matching an atom against its own grounding under any substitution `s`
/// succeeds, and binds each of its variables to the constant `s` gives it
/// (its value in `s`, or its own name where `s` leaves it unbound), and
/// binds nothing else.
pub proof fn lemma_substitution_of_apply(atom: AtomView, s: Map<Seq<char>, Seq<char>>)
    ensures
        substitution_of(atom, apply_view(atom, s)) is Some,
        forall|i: int|
            #![trigger atom.args[i]]
            0 <= i < atom.args.len() ==> match atom.args[i] {
                ArgView::Variable(v) => substitution_of(atom, apply_view(atom, s))->0.dom().contains(
                    v,
                ) && substitution_of(atom, apply_view(atom, s))->0[v] == apply_arg(
                    atom.args[i],
                    s,
                ),
                ArgView::Literal(_) => true,
            },
        forall|v: Seq<char>|
            #[trigger] substitution_of(atom, apply_view(atom, s))->0.dom().contains(v) ==> exists|
                i: int,
            |
                0 <= i < atom.args.len() && atom.args[i] == ArgView::Variable(v),
{
    let g = apply_view(atom, s);
    assert(g.args.len() == atom.args.len());
    lemma_match_args_self(atom.args, g.args, s, atom.args.len());
}

/// Matching the first `n` arguments against their groundings under `s`
/// succeeds with the bindings of exactly their variables, each to the
/// constant `s` gives it.
proof fn lemma_match_args_self(
    args: Seq<ArgView>,
    consts: Seq<Seq<char>>,
    s: Map<Seq<char>, Seq<char>>,
    n: nat,
)
    requires
        n <= args.len(),
        consts.len() == args.len(),
        forall|i: int| 0 <= i < args.len() ==> #[trigger] consts[i] == apply_arg(args[i], s),
    ensures
        match_args(args, consts, n) is Some,
        forall|i: int|
            #![trigger args[i]]
            0 <= i < n ==> match args[i] {
                ArgView::Variable(v) => match_args(args, consts, n)->0.dom().contains(v)
                    && match_args(args, consts, n)->0[v] == apply_arg(args[i], s),
                ArgView::Literal(_) => true,
            },
        forall|v: Seq<char>|
            #[trigger] match_args(args, consts, n)->0.dom().contains(v) ==> exists|i: int|
                0 <= i < n && args[i] == ArgView::Variable(v),
    decreases n,
{
    if n > 0 {
        lemma_match_args_self(args, consts, s, (n - 1) as nat);
        let m0 = match_args(args, consts, (n - 1) as nat)->0;
        let m = match_args(args, consts, n)->0;
        let k = n - 1;
        assert(consts[k] == apply_arg(args[k], s));
        match args[k] {
            ArgView::Variable(v) => {
                if m0.dom().contains(v) {
                    let i = choose|i: int| 0 <= i < n - 1 && args[i] == ArgView::Variable(v);
                    assert(m0[v] == apply_arg(args[i], s));
                }
                assert(m == m0.insert(v, consts[k]));
            },
            ArgView::Literal(l) => {
                assert(m == m0);
            },
        }
        assert forall|i: int| #![trigger args[i]] 0 <= i < n implies match args[i] {
            ArgView::Variable(v) => m.dom().contains(v) && m[v] == apply_arg(args[i], s),
            ArgView::Literal(_) => true,
        } by {
            if i < n - 1 {
                match args[i] {
                    ArgView::Variable(v) => {
                        assert(m0.dom().contains(v) && m0[v] == apply_arg(args[i], s));
                    },
                    ArgView::Literal(_) => {},
                }
            }
        }
        assert forall|v: Seq<char>| #[trigger] m.dom().contains(v) implies exists|i: int|
            0 <= i < n && args[i] == ArgView::Variable(v) by {
            if m0.dom().contains(v) {
                let i = choose|i: int| 0 <= i < n - 1 && args[i] == ArgView::Variable(v);
                assert(0 <= i < n && args[i] == ArgView::Variable(v));
            } else {
                assert(args[k] == ArgView::Variable(v));
            }
        }
    }
}


/// The substitutions `compute_matches` gives are those of the body atoms
/// with the ground atom's name that match it, kept in body order: the body
/// filtered to those atoms, each replaced by its substitution.
pub proof fn lemma_body_matches_filter(body: Seq<AtomView>, g: GroundAtomView)
    ensures
        body_matches(body, g) == body.filter(
            |b: AtomView| b.predicate.name == g.name && substitution_of(b, g) is Some,
        ).map_values(|b: AtomView| substitution_of(b, g)->0),
    decreases body.len(),
{
    reveal(Seq::filter);
    let pred = |b: AtomView| b.predicate.name == g.name && substitution_of(b, g) is Some;
    let f = |b: AtomView| substitution_of(b, g)->0;
    if body.len() == 0 {
        assert(body.filter(pred) =~= Seq::<AtomView>::empty());
        assert(body.filter(pred).map_values(f) =~= Seq::<Map<Seq<char>, Seq<char>>>::empty());
    } else {
        lemma_body_matches_filter(body.drop_last(), g);
        let sub = body.drop_last().filter(pred);
        if pred(body.last()) {
            assert(body.filter(pred) == sub.push(body.last()));
            assert(sub.push(body.last()).map_values(f) =~= sub.map_values(f).push(f(body.last())));
        } else {
            assert(body.filter(pred) == sub);
        }
    }
}

/// `get_head_substitutions` answers with the first body atom that has the
/// ground atom's name and matches it: its substitution and the body atom's
/// own sign (whatever the ground atom's sign); and with `None` exactly when
/// no body atom does.
pub proof fn lemma_first_body_match_is_first(body: Seq<AtomView>, g: GroundAtomView)
    ensures
        first_body_match(body, g) is None <==> forall|i: int|
            0 <= i < body.len() ==> !((#[trigger] body[i]).predicate.name == g.name && substitution_of(
                body[i],
                g,
            ) is Some),
        first_body_match(body, g) matches Some(p) ==> exists|i: int|
            0 <= i < body.len() && (#[trigger] body[i]).predicate.name == g.name && substitution_of(
                body[i],
                g,
            ) == Some(p.0) && p.1 == body[i].negated && forall|j: int|
                0 <= j < i ==> !((#[trigger] body[j]).predicate.name == g.name && substitution_of(
                    body[j],
                    g,
                ) is Some),
    decreases body.len(),
{
    if body.len() > 0 {
        let rest = body.drop_first();
        lemma_first_body_match_is_first(rest, g);
        assert forall|i: int| 0 < i < body.len() implies #[trigger] body[i] == rest[i - 1] by {}
        if body[0].predicate.name == g.name && substitution_of(body[0], g) is Some {
        } else {
            if first_body_match(body, g) is None {
                assert forall|i: int| 0 <= i < body.len() implies !((#[trigger] body[i]).predicate.name == g.name
                    && substitution_of(body[i], g) is Some) by {
                    if i > 0 {
                        assert(rest[i - 1] == body[i]);
                    }
                }
            } else {
                let p = first_body_match(body, g)->0;
                let i = choose|i: int|
                    0 <= i < rest.len() && (#[trigger] rest[i]).predicate.name == g.name && substitution_of(rest[i], g)
                        == Some(p.0) && p.1 == rest[i].negated && forall|j: int|
                        0 <= j < i ==> !((#[trigger] rest[j]).predicate.name == g.name && substitution_of(rest[j], g) is Some);
                assert(body[i + 1] == rest[i]);
                assert forall|j: int| 0 <= j < i + 1 implies !((#[trigger] body[j]).predicate.name == g.name
                    && substitution_of(body[j], g) is Some) by {
                    if j > 0 {
                        assert(rest[j - 1] == body[j]);
                    }
                }
            }
            if forall|i: int| 0 <= i < body.len() ==> !((#[trigger] body[i]).predicate.name == g.name
                && substitution_of(body[i], g) is Some) {
                assert forall|i: int| 0 <= i < rest.len() implies !((#[trigger] rest[i]).predicate.name == g.name
                    && substitution_of(rest[i], g) is Some) by {
                    assert(body[i + 1] == rest[i]);
                }
            }
        }
    }
}


/// Grounding an atom under a substitution keeps its name, sign and number
/// of arguments, keeps each literal, and replaces each variable by the
/// value the substitution binds it to, or by its own name when unbound.
pub proof fn lemma_apply_view_args(atom: AtomView, s: Map<Seq<char>, Seq<char>>)
    ensures
        apply_view(atom, s).name == atom.predicate.name,
        apply_view(atom, s).negated == atom.negated,
        apply_view(atom, s).args.len() == atom.args.len(),
        forall|i: int|
            0 <= i < atom.args.len() ==> match #[trigger] atom.args[i] {
                ArgView::Literal(l) => apply_view(atom, s).args[i] == l,
                ArgView::Variable(v) => apply_view(atom, s).args[i] == (if s.dom().contains(v) {
                    s[v]
                } else {
                    v
                }),
            },
{
}

// ---------------------------------------------------------------------
// Join engines
// ---------------------------------------------------------------------
/// An index from ground atoms to the rules that may fire on them.
pub trait JoinEngine: Sized {
    /// The rules that the engine hands out for a ground atom.
    spec fn watching(&self, atom: GroundAtomView) -> Seq<RuleView>;

    /// The engine after it has been told of a new atom.
    spec fn after_new_atom(&self, atom: GroundAtomView) -> Self;

    fn rules_watching(&self, atom: &GroundAtom) -> (r: Vec<&Rule>)
        ensures
            r.deep_view() == self.watching(atom.deep_view()),
    ;

    fn on_new_atom(&mut self, atom: &GroundAtom)
        ensures
            *final(self) == old(self).after_new_atom(atom.deep_view()),
    ;
}

} // verus!
