//! The justification graph of a program: a node for `false` and one per
//! ground atom, and edges from body-atom nodes to the head nodes they may
//! support or attack.
use crate::engine::{get_substitution, substitution_of, JoinEngine};
use crate::program::{
    AtomView, DeepCopy, GroundAtom, GroundAtomView, HeadView, Program, RuleHead, RuleView,
};
use crate::text::string_from_chars;
use std::borrow::Cow;
use vstd::prelude::*;

verus! {

/// An edge between nodes, labelled with the identifier of the rule that
/// makes it; `support` is false for an edge from a negated body atom.
#[derive(Debug, Clone, PartialEq, Eq, Hash)]
pub struct Edge {
    pub from: usize,
    pub to: usize,
    pub rule: usize,
    pub support: bool,
}

/// A node: the ground atom it stands for, borrowed from the program or owned.
#[derive(Debug, PartialEq, Eq, Hash)]
pub struct Node<'a> {
    pub ground_atom: Cow<'a, GroundAtom>,
}

impl<'a> Clone for Node<'a> {
    /// A node for the same atom: a borrowed atom stays borrowed from the
    /// same place, an owned one is copied.
    fn clone(&self) -> (r: Self)
        ensures
            r.deep_view() == self.deep_view(),
            (r.ground_atom is Owned) == (self.ground_atom is Owned),
            self.ground_atom is Borrowed ==> r.ground_atom == self.ground_atom,
    {
        match &self.ground_atom {
            Cow::Borrowed(b) => Node { ground_atom: Cow::Borrowed(*b) },
            Cow::Owned(o) => Node { ground_atom: Cow::Owned(o.deep_copy()) },
        }
    }
}

/// The nodes and edges of a justification graph.
pub struct JustificationGraph<'a> {
    pub nodes: Vec<Node<'a>>,
    pub edges: Vec<Edge>,
}

impl<'a> DeepView for Node<'a> {
    type V = GroundAtomView;

    open spec fn deep_view(&self) -> GroundAtomView {
        self.ground_atom.deep_view()
    }
}

/// The ground atom `false` that node 0 stands for.
pub open spec fn false_atom() -> GroundAtomView {
    GroundAtomView { name: seq!['f', 'a', 'l', 's', 'e'], args: Seq::empty(), negated: false }
}

/// The position of the first entry whose atom is `a`.
pub open spec fn first_position(d: Seq<(GroundAtomView, usize)>, a: GroundAtomView) -> Option<int>
    decreases d.len(),
{
    if d.len() == 0 {
        None
    } else if d[0].0 == a {
        Some(0)
    } else {
        match first_position(d.drop_first(), a) {
            Some(p) => Some(p + 1),
            None => None,
        }
    }
}

/// The node index of the ground atoms: each distinct atom with the node of
/// its last occurrence (atom `k` is node `k + 1`), in order of first
/// occurrence.
pub open spec fn node_index(atoms: Seq<GroundAtomView>) -> Seq<(GroundAtomView, usize)>
    decreases atoms.len(),
{
    if atoms.len() == 0 {
        Seq::empty()
    } else {
        let d = node_index(atoms.drop_last());
        let a = atoms.last();
        let idx = atoms.len() as usize;
        match first_position(d, a) {
            Some(p) => d.update(p, (a, idx)),
            None => d.push((a, idx)),
        }
    }
}

/// Edges to node `h_idx` from every indexed atom named like body atom `b`,
/// in index order; they support the head unless `b` is negated.
pub open spec fn body_atom_edges(
    dict: Seq<(GroundAtomView, usize)>,
    b: AtomView,
    h_idx: usize,
    rule_id: usize,
) -> Seq<Edge>
    decreases dict.len(),
{
    if dict.len() == 0 {
        Seq::empty()
    } else {
        let rest = body_atom_edges(dict.drop_last(), b, h_idx, rule_id);
        let g = dict.last();
        if g.0.name == b.predicate.name {
            rest.push(Edge { from: g.1, to: h_idx, rule: rule_id, support: !b.negated })
        } else {
            rest
        }
    }
}

/// The edges to node `h_idx` for every body atom, in body order.
pub open spec fn body_edges(
    dict: Seq<(GroundAtomView, usize)>,
    body: Seq<AtomView>,
    h_idx: usize,
    rule_id: usize,
) -> Seq<Edge>
    decreases body.len(),
{
    if body.len() == 0 {
        Seq::empty()
    } else {
        body_edges(dict, body.drop_last(), h_idx, rule_id) + body_atom_edges(
            dict,
            body.last(),
            h_idx,
            rule_id,
        )
    }
}

/// The edges of a rule with head atom `head`: for each indexed atom in
/// `heads` with the head's name that the head matches, the body edges to it.
pub open spec fn head_edges(
    dict: Seq<(GroundAtomView, usize)>,
    heads: Seq<(GroundAtomView, usize)>,
    head: AtomView,
    body: Seq<AtomView>,
    rule_id: usize,
) -> Seq<Edge>
    decreases heads.len(),
{
    if heads.len() == 0 {
        Seq::empty()
    } else {
        let rest = head_edges(dict, heads.drop_last(), head, body, rule_id);
        let h = heads.last();
        if h.0.name == head.predicate.name && substitution_of(head, h.0) is Some {
            rest + body_edges(dict, body, h.1, rule_id)
        } else {
            rest
        }
    }
}

/// The edges of a rule: those of its head atom; none for choice rules and
/// constraints.
pub open spec fn rule_edges(dict: Seq<(GroundAtomView, usize)>, r: RuleView) -> Seq<Edge> {
    match r.head {
        Some(HeadView::Atom(h)) => head_edges(dict, dict, h, r.body, r.id),
        _ => Seq::empty(),
    }
}

/// The edges of all rules, in rule order.
pub open spec fn program_edges(dict: Seq<(GroundAtomView, usize)>, rules: Seq<RuleView>) -> Seq<
    Edge,
>
    decreases rules.len(),
{
    if rules.len() == 0 {
        Seq::empty()
    } else {
        program_edges(dict, rules.drop_last()) + rule_edges(dict, rules.last())
    }
}

/// `first_position` is the first index whose atom is `a`.
proof fn lemma_first_position(d: Seq<(GroundAtomView, usize)>, a: GroundAtomView)
    ensures
        match first_position(d, a) {
            Some(p) => 0 <= p < d.len() && d[p].0 == a && forall|j: int|
                0 <= j < p ==> (#[trigger] d[j]).0 != a,
            None => forall|j: int| 0 <= j < d.len() ==> (#[trigger] d[j]).0 != a,
        },
    decreases d.len(),
{
    if d.len() > 0 && d[0].0 != a {
        lemma_first_position(d.drop_first(), a);
        assert forall|j: int| 1 <= j < d.len() implies (#[trigger] d[j]).0 == d.drop_first()[j - 1].0 by {
        }
    }
}

/// Tests two ground atoms for equal models.
pub fn same_ground_atom(a: &GroundAtom, b: &GroundAtom) -> (r: bool)
    ensures
        r == (a.deep_view() == b.deep_view()),
{
    if !(a.name == b.name) || a.negated != b.negated || a.args.len() != b.args.len() {
        assert(a.deep_view().args.len() == a.args@.len());
        return false;
    }
    let mut i: usize = 0;
    while i < a.args.len()
        invariant
            i <= a.args@.len() == b.args@.len(),
            forall|j: int| 0 <= j < i ==> (#[trigger] a.args@[j]).name@ == b.args@[j].name@,
        decreases a.args.len() - i,
    {
        if !(a.args[i].name == b.args[i].name) {
            assert(a.deep_view().args[i as int] != b.deep_view().args[i as int]);
            return false;
        }
        i = i + 1;
    }
    assert(a.deep_view().args =~= b.deep_view().args);
    true
}

/// The position of the first entry whose atom equals `a`.
fn dict_position(d: &Vec<(&GroundAtom, usize)>, a: &GroundAtom) -> (r: Option<usize>)
    ensures
        match r {
            Some(p) => p < d@.len() && first_position(d.deep_view(), a.deep_view()) == Some(
                p as int,
            ),
            None => first_position(d.deep_view(), a.deep_view()) is None,
        },
{
    proof {
        lemma_first_position(d.deep_view(), a.deep_view());
    }
    let mut p: usize = 0;
    while p < d.len()
        invariant
            p <= d@.len(),
            forall|j: int| 0 <= j < p ==> (#[trigger] d.deep_view()[j]).0 != a.deep_view(),
            match first_position(d.deep_view(), a.deep_view()) {
                Some(q) => 0 <= q < d@.len() && d.deep_view()[q].0 == a.deep_view() && forall|j: int|
                    0 <= j < q ==> (#[trigger] d.deep_view()[j]).0 != a.deep_view(),
                None => forall|j: int|
                    0 <= j < d@.len() ==> (#[trigger] d.deep_view()[j]).0 != a.deep_view(),
            },
        decreases d.len() - p,
    {
        if same_ground_atom(d[p].0, a) {
            assert(d.deep_view()[p as int].0 == a.deep_view());
            return Some(p);
        }
        assert(d.deep_view()[p as int].0 != a.deep_view());
        p = p + 1;
    }
    None
}

/// Builds the graph of `program`: node 0 is `false`, node `k + 1` is ground
/// atom `k`; for every regular rule, every indexed ground atom that its head
/// matches, every body atom and every indexed ground atom with that body
/// atom's name, an edge from the latter to the former, labelled with the
/// rule's identifier and supporting unless the body atom is negated. Each
/// distinct ground atom is indexed once, under its last node.
pub fn build_justification_graph<'a, E: JoinEngine>(program: &'a Program, engine: &E) -> (r:
    JustificationGraph<'a>)
    ensures
        r.nodes.deep_view() == seq![false_atom()] + program.ground_atoms.deep_view(),
        r.nodes@[0].ground_atom is Owned,
        forall|k: int|
            0 <= k < program.ground_atoms@.len() ==> (#[trigger] r.nodes@[k + 1]).ground_atom
                == Cow::Borrowed(&program.ground_atoms@[k]),
        r.edges@ == program_edges(
            node_index(program.ground_atoms.deep_view()),
            program.rules.deep_view(),
        ),
{
    let mut nodes: Vec<Node<'a>> = Vec::new();
    let false_chars = vec!['f', 'a', 'l', 's', 'e'];
    let false_name = string_from_chars(false_chars.as_slice());
    let false_args: Vec<crate::program::Literal> = Vec::new();
    assert(false_chars@ =~= seq!['f', 'a', 'l', 's', 'e']);
    assert(false_args.deep_view() =~= Seq::<Seq<char>>::empty());
    nodes.push(
        Node { ground_atom: Cow::Owned(GroundAtom { name: false_name, args: false_args, negated: false }) },
    );
    assert(program.ground_atoms.deep_view().take(0) =~= Seq::<GroundAtomView>::empty());
    assert(node_index(program.ground_atoms.deep_view().take(0)) =~= Seq::<(GroundAtomView, usize)>::empty());
    let mut dict: Vec<(&'a GroundAtom, usize)> = Vec::new();
    let mut k: usize = 0;
    while k < program.ground_atoms.len()
        invariant
            k <= program.ground_atoms@.len(),
            nodes@.len() == k + 1,
            nodes@[0].deep_view() == false_atom(),
            nodes@[0].ground_atom is Owned,
            forall|j: int| 0 <= j < k ==> (#[trigger] nodes@[j + 1]).deep_view() == program.ground_atoms.deep_view()[j],
            forall|j: int| 0 <= j < k ==> (#[trigger] nodes@[j + 1]).ground_atom == Cow::Borrowed(&program.ground_atoms@[j]),
            dict.deep_view() == node_index(program.ground_atoms.deep_view().take(k as int)),
        decreases program.ground_atoms.len() - k,
    {
        let ga: &'a GroundAtom = &program.ground_atoms[k];
        let ghost gas = program.ground_atoms.deep_view();
        assert(gas.take(k + 1).drop_last() =~= gas.take(k as int));
        assert(gas.take(k + 1).last() == ga.deep_view());
        let idx = nodes.len();
        let ghost d = dict.deep_view();
        match dict_position(&dict, ga) {
            Some(p) => {
                dict.set(p, (ga, idx));
                assert(dict.deep_view() =~= d.update(p as int, (ga.deep_view(), idx)));
            },
            None => {
                dict.push((ga, idx));
                assert(dict.deep_view() =~= d.push((ga.deep_view(), idx)));
            },
        }
        let ghost old_nodes = nodes@;
        nodes.push(Node { ground_atom: Cow::Borrowed(ga) });
        assert(nodes@[k as int + 1].deep_view() == ga.deep_view());
        assert(forall|j: int| 0 <= j <= k ==> nodes@[j] == old_nodes[j]);
        k = k + 1;
    }
    assert(program.ground_atoms.deep_view().take(k as int) =~= program.ground_atoms.deep_view());
    assert(nodes.deep_view() =~= seq![false_atom()] + program.ground_atoms.deep_view()) by {
        assert forall|j: int| 0 <= j < nodes@.len() implies nodes.deep_view()[j] == (seq![false_atom()] + program.ground_atoms.deep_view())[j] by {
            if j > 0 {
                assert(nodes@[(j - 1) + 1].deep_view() == program.ground_atoms.deep_view()[j - 1]);
            }
        }
    }
    let ghost dv = dict.deep_view();
    let ghost rules = program.rules.deep_view();
    let mut edges: Vec<Edge> = Vec::new();
    let mut ri: usize = 0;
    assert(rules.take(0) =~= Seq::<RuleView>::empty());
    while ri < program.rules.len()
        invariant
            ri <= program.rules@.len(),
            dv == dict.deep_view(),
            rules == program.rules.deep_view(),
            edges@ == program_edges(dv, rules.take(ri as int)),
        decreases program.rules.len() - ri,
    {
        let rule = &program.rules[ri];
        assert(rules.take(ri + 1).drop_last() =~= rules.take(ri as int));
        assert(rules.take(ri + 1).last() == rule.deep_view());
        let ghost prefix = edges@;
        match &rule.head {
            Some(RuleHead::Atom(head_atom)) => {
                let ghost body = rule.body.deep_view();
                let ghost h = head_atom.deep_view();
                let mut hi: usize = 0;
                assert(dv.take(0) =~= Seq::<(GroundAtomView, usize)>::empty());
                assert(prefix + Seq::<Edge>::empty() =~= prefix);
                while hi < dict.len()
                    invariant
                        hi <= dict@.len(),
                        dv == dict.deep_view(),
                        body == rule.body.deep_view(),
                        h == head_atom.deep_view(),
                        edges@ == prefix + head_edges(dv, dv.take(hi as int), h, body, rule.id),
                    decreases dict.len() - hi,
                {
                    let (h_atom, h_idx) = dict[hi];
                    assert(dv.take(hi + 1).drop_last() =~= dv.take(hi as int));
                    assert(dv.take(hi + 1).last() == (h_atom.deep_view(), h_idx));
                    let ghost before = edges@;
                    if h_atom.name == head_atom.predicate.name && get_substitution(
                        head_atom,
                        h_atom,
                    ).is_some() {
                        let mut bi: usize = 0;
                        assert(body.take(0) =~= Seq::<AtomView>::empty());
                        assert(before + Seq::<Edge>::empty() =~= before);
                        while bi < rule.body.len()
                            invariant
                                bi <= rule.body@.len(),
                                dv == dict.deep_view(),
                                body == rule.body.deep_view(),
                                edges@ == before + body_edges(dv, body.take(bi as int), h_idx, rule.id),
                            decreases rule.body.len() - bi,
                        {
                            let body_atom = &rule.body[bi];
                            let ghost b = body_atom.deep_view();
                            assert(body.take(bi + 1).drop_last() =~= body.take(bi as int));
                            assert(body.take(bi + 1).last() == b);
                            let ghost mid = edges@;
                            let mut gi: usize = 0;
                            assert(dv.take(0) =~= Seq::<(GroundAtomView, usize)>::empty());
                            assert(mid + Seq::<Edge>::empty() =~= mid);
                            while gi < dict.len()
                                invariant
                                    gi <= dict@.len(),
                                    dv == dict.deep_view(),
                                    b == body_atom.deep_view(),
                                    edges@ == mid + body_atom_edges(dv.take(gi as int), b, h_idx, rule.id),
                                decreases dict.len() - gi,
                            {
                                let (g_atom, g_idx) = dict[gi];
                                assert(dv.take(gi + 1).drop_last() =~= dv.take(gi as int));
                                assert(dv.take(gi + 1).last() == (g_atom.deep_view(), g_idx));
                                if g_atom.name == body_atom.predicate.name {
                                    let ghost e = edges@;
                                    edges.push(
                                        Edge {
                                            from: g_idx,
                                            to: h_idx,
                                            rule: rule.id,
                                            support: !body_atom.negated,
                                        },
                                    );
                                    assert(edges@ =~= mid + body_atom_edges(dv.take(gi + 1), b, h_idx, rule.id));
                                }
                                gi = gi + 1;
                            }
                            assert(dv.take(gi as int) =~= dv);
                            assert(edges@ =~= before + body_edges(dv, body.take(bi + 1), h_idx, rule.id));
                            bi = bi + 1;
                        }
                        assert(body.take(bi as int) =~= body);
                        assert(edges@ =~= prefix + head_edges(dv, dv.take(hi + 1), h, body, rule.id));
                    }
                    hi = hi + 1;
                }
                assert(dv.take(hi as int) =~= dv);
                assert(edges@ =~= program_edges(dv, rules.take(ri + 1)));
            },
            _ => {
                assert(edges@ =~= program_edges(dv, rules.take(ri + 1)));
            },
        }
        ri = ri + 1;
    }
    assert(rules.take(ri as int) =~= rules);
    JustificationGraph { nodes, edges }
}


// ---------------------------------------------------------------------
// Laws of the graph
// ---------------------------------------------------------------------
/// Every index entry `(a, i)` is a node of `atoms`: `1 <= i <= atoms.len()`
/// and node `i` holds `a`.
pub open spec fn index_sound(d: Seq<(GroundAtomView, usize)>, atoms: Seq<GroundAtomView>) -> bool {
    forall|k: int|
        0 <= k < d.len() ==> 1 <= (#[trigger] d[k]).1 <= atoms.len() && atoms[d[k].1 - 1] == d[k].0
}

/// Edge `e` is justified by rule `r` over the ground atoms `atoms` (node
/// `i` holding `atoms[i - 1]`): both ends are atom nodes, the rule has an
/// atom head with the name of the target's atom that matches it, and a body
/// atom with the name of the source's atom whose sign gives the edge's.
pub open spec fn justified_by(atoms: Seq<GroundAtomView>, r: RuleView, e: Edge) -> bool {
    &&& 1 <= e.from <= atoms.len()
    &&& 1 <= e.to <= atoms.len()
    &&& e.rule == r.id
    &&& r.head matches Some(HeadView::Atom(h))
    &&& atoms[e.to - 1].name == h.predicate.name
    &&& substitution_of(h, atoms[e.to - 1]) is Some
    &&& exists|j: int|
        0 <= j < r.body.len() && atoms[e.from - 1].name == (#[trigger] r.body[j]).predicate.name
            && e.support == !r.body[j].negated
}

/// The node index of `atoms` is sound.
proof fn lemma_node_index_sound(atoms: Seq<GroundAtomView>)
    requires
        atoms.len() <= usize::MAX,
    ensures
        index_sound(node_index(atoms), atoms),
    decreases atoms.len(),
{
    if atoms.len() > 0 {
        let prev = atoms.drop_last();
        lemma_node_index_sound(prev);
        let d = node_index(prev);
        let a = atoms.last();
        let idx = atoms.len() as usize;
        lemma_first_position(d, a);
        assert forall|k: int| 0 <= k < d.len() implies 1 <= (#[trigger] d[k]).1 <= atoms.len()
            && atoms[d[k].1 - 1] == d[k].0 by {
            assert(atoms[d[k].1 - 1] == prev[d[k].1 - 1]);
        }
        assert(atoms[idx - 1] == a);
    }
}

/// Edges into node `h_idx` for body atom `b` come from atom nodes with
/// `b`'s name and carry `rule_id` and `b`'s sign.
proof fn lemma_body_atom_edges_sound(
    d: Seq<(GroundAtomView, usize)>,
    atoms: Seq<GroundAtomView>,
    b: AtomView,
    h_idx: usize,
    rule_id: usize,
)
    requires
        index_sound(d, atoms),
    ensures
        forall|i: int|
            0 <= i < body_atom_edges(d, b, h_idx, rule_id).len() ==> {
                let e = #[trigger] body_atom_edges(d, b, h_idx, rule_id)[i];
                &&& 1 <= e.from <= atoms.len()
                &&& atoms[e.from - 1].name == b.predicate.name
                &&& e.to == h_idx
                &&& e.rule == rule_id
                &&& e.support == !b.negated
            },
    decreases d.len(),
{
    if d.len() > 0 {
        assert forall|k: int| 0 <= k < d.drop_last().len() implies 1 <= (#[trigger] d.drop_last()[k]).1
            <= atoms.len() && atoms[d.drop_last()[k].1 - 1] == d.drop_last()[k].0 by {
            assert(d.drop_last()[k] == d[k]);
        }
        lemma_body_atom_edges_sound(d.drop_last(), atoms, b, h_idx, rule_id);
        assert(d[d.len() - 1] == d.last());
        let prev = body_atom_edges(d.drop_last(), b, h_idx, rule_id);
        assert forall|i: int| 0 <= i < body_atom_edges(d, b, h_idx, rule_id).len() implies {
            let e = #[trigger] body_atom_edges(d, b, h_idx, rule_id)[i];
            &&& 1 <= e.from <= atoms.len()
            &&& atoms[e.from - 1].name == b.predicate.name
            &&& e.to == h_idx
            &&& e.rule == rule_id
            &&& e.support == !b.negated
        } by {
            if i < prev.len() {
                assert(body_atom_edges(d, b, h_idx, rule_id)[i] == prev[i]);
            }
        }
    }
}

/// Edges into node `h_idx` for a body come from atom nodes named like one
/// of its atoms, with that atom's sign, and carry `rule_id`.
proof fn lemma_body_edges_sound(
    d: Seq<(GroundAtomView, usize)>,
    atoms: Seq<GroundAtomView>,
    body: Seq<AtomView>,
    h_idx: usize,
    rule_id: usize,
)
    requires
        index_sound(d, atoms),
    ensures
        forall|i: int|
            0 <= i < body_edges(d, body, h_idx, rule_id).len() ==> {
                let e = #[trigger] body_edges(d, body, h_idx, rule_id)[i];
                &&& 1 <= e.from <= atoms.len()
                &&& e.to == h_idx
                &&& e.rule == rule_id
                &&& exists|j: int|
                    0 <= j < body.len() && atoms[e.from - 1].name == (#[trigger] body[j]).predicate.name
                        && e.support == !body[j].negated
            },
    decreases body.len(),
{
    if body.len() > 0 {
        lemma_body_edges_sound(d, atoms, body.drop_last(), h_idx, rule_id);
        lemma_body_atom_edges_sound(d, atoms, body.last(), h_idx, rule_id);
        let prev = body_edges(d, body.drop_last(), h_idx, rule_id);
        let tail = body_atom_edges(d, body.last(), h_idx, rule_id);
        assert forall|i: int| 0 <= i < body_edges(d, body, h_idx, rule_id).len() implies {
            let e = #[trigger] body_edges(d, body, h_idx, rule_id)[i];
            &&& 1 <= e.from <= atoms.len()
            &&& e.to == h_idx
            &&& e.rule == rule_id
            &&& exists|j: int|
                0 <= j < body.len() && atoms[e.from - 1].name == (#[trigger] body[j]).predicate.name
                    && e.support == !body[j].negated
        } by {
            if i < prev.len() {
                let e = prev[i];
                assert(body_edges(d, body, h_idx, rule_id)[i] == e);
                let j = choose|j: int|
                    0 <= j < body.drop_last().len() && atoms[e.from - 1].name == (
                    #[trigger] body.drop_last()[j]).predicate.name && e.support
                        == !body.drop_last()[j].negated;
                assert(body[j] == body.drop_last()[j]);
            } else {
                let e = tail[i - prev.len()];
                assert(body_edges(d, body, h_idx, rule_id)[i] == e);
                assert(body[body.len() - 1] == body.last());
            }
        }
    }
}

/// Edges of a head atom go into atom nodes whose atom the head matches.
proof fn lemma_head_edges_sound(
    d: Seq<(GroundAtomView, usize)>,
    heads: Seq<(GroundAtomView, usize)>,
    atoms: Seq<GroundAtomView>,
    head: AtomView,
    body: Seq<AtomView>,
    rule_id: usize,
)
    requires
        index_sound(d, atoms),
        index_sound(heads, atoms),
    ensures
        forall|i: int|
            0 <= i < head_edges(d, heads, head, body, rule_id).len() ==> {
                let e = #[trigger] head_edges(d, heads, head, body, rule_id)[i];
                &&& 1 <= e.from <= atoms.len()
                &&& 1 <= e.to <= atoms.len()
                &&& e.rule == rule_id
                &&& atoms[e.to - 1].name == head.predicate.name
                &&& substitution_of(head, atoms[e.to - 1]) is Some
                &&& exists|j: int|
                    0 <= j < body.len() && atoms[e.from - 1].name == (#[trigger] body[j]).predicate.name
                        && e.support == !body[j].negated
            },
    decreases heads.len(),
{
    if heads.len() > 0 {
        assert forall|k: int| 0 <= k < heads.drop_last().len() implies 1 <= (
        #[trigger] heads.drop_last()[k]).1 <= atoms.len() && atoms[heads.drop_last()[k].1 - 1]
            == heads.drop_last()[k].0 by {
            assert(heads.drop_last()[k] == heads[k]);
        }
        lemma_head_edges_sound(d, heads.drop_last(), atoms, head, body, rule_id);
        let h = heads.last();
        assert(heads[heads.len() - 1] == h);
        lemma_body_edges_sound(d, atoms, body, h.1, rule_id);
        let prev = head_edges(d, heads.drop_last(), head, body, rule_id);
        if h.0.name == head.predicate.name && substitution_of(head, h.0) is Some {
            let tail = body_edges(d, body, h.1, rule_id);
            assert forall|i: int| 0 <= i < head_edges(d, heads, head, body, rule_id).len() implies {
                let e = #[trigger] head_edges(d, heads, head, body, rule_id)[i];
                &&& 1 <= e.from <= atoms.len()
                &&& 1 <= e.to <= atoms.len()
                &&& e.rule == rule_id
                &&& atoms[e.to - 1].name == head.predicate.name
                &&& substitution_of(head, atoms[e.to - 1]) is Some
                &&& exists|j: int|
                    0 <= j < body.len() && atoms[e.from - 1].name == (#[trigger] body[j]).predicate.name
                        && e.support == !body[j].negated
            } by {
                if i < prev.len() {
                    assert(head_edges(d, heads, head, body, rule_id)[i] == prev[i]);
                } else {
                    assert(head_edges(d, heads, head, body, rule_id)[i] == tail[i - prev.len()]);
                }
            }
        }
    }
}

/// Every edge of the rules' graph over the node index of `atoms` is
/// justified by one of the rules.
proof fn lemma_program_edges_sound(
    atoms: Seq<GroundAtomView>,
    d: Seq<(GroundAtomView, usize)>,
    rules: Seq<RuleView>,
)
    requires
        index_sound(d, atoms),
    ensures
        forall|i: int|
            0 <= i < program_edges(d, rules).len() ==> exists|k: int|
                0 <= k < rules.len() && justified_by(
                    atoms,
                    rules[k],
                    #[trigger] program_edges(d, rules)[i],
                ),
    decreases rules.len(),
{
    if rules.len() > 0 {
        lemma_program_edges_sound(atoms, d, rules.drop_last());
        let prev = program_edges(d, rules.drop_last());
        let r = rules.last();
        let tail = rule_edges(d, r);
        match r.head {
            Some(HeadView::Atom(h)) => {
                lemma_head_edges_sound(d, d, atoms, h, r.body, r.id);
            },
            _ => {},
        }
        assert forall|i: int| 0 <= i < program_edges(d, rules).len() implies exists|k: int|
            0 <= k < rules.len() && justified_by(atoms, rules[k], #[trigger] program_edges(d, rules)[i]) by {
            if i < prev.len() {
                assert(program_edges(d, rules)[i] == prev[i]);
                let k = choose|k: int| 0 <= k < rules.drop_last().len() && justified_by(atoms, rules.drop_last()[k], prev[i]);
                assert(rules[k] == rules.drop_last()[k]);
            } else {
                assert(program_edges(d, rules)[i] == tail[i - prev.len()]);
                assert(rules[rules.len() - 1] == r);
                assert(justified_by(atoms, rules[rules.len() - 1], tail[i - prev.len()]));
            }
        }
    }
}

/// Every edge of the justification graph of ground atoms `atoms` and rules
/// `rules` goes between atom nodes and is justified by one of the rules:
/// its target holds an atom the rule's head matches, its source an atom
/// named like a body atom of the rule, with that body atom's sign.
pub proof fn lemma_graph_edges_justified(atoms: Seq<GroundAtomView>, rules: Seq<RuleView>)
    requires
        atoms.len() <= usize::MAX,
    ensures
        forall|i: int|
            0 <= i < program_edges(node_index(atoms), rules).len() ==> exists|k: int|
                0 <= k < rules.len() && justified_by(
                    atoms,
                    rules[k],
                    #[trigger] program_edges(node_index(atoms), rules)[i],
                ),
{
    lemma_node_index_sound(atoms);
    lemma_program_edges_sound(atoms, node_index(atoms), rules);
}


/// The position of the last occurrence of `a` in `atoms`, or -1.
pub open spec fn last_index(atoms: Seq<GroundAtomView>, a: GroundAtomView) -> int
    decreases atoms.len(),
{
    if atoms.len() == 0 {
        -1
    } else if atoms.last() == a {
        atoms.len() - 1
    } else {
        last_index(atoms.drop_last(), a)
    }
}

/// `last_index` is the last position that holds `a`.
proof fn lemma_last_index(atoms: Seq<GroundAtomView>, a: GroundAtomView)
    ensures
        -1 <= last_index(atoms, a) < atoms.len(),
        last_index(atoms, a) >= 0 ==> atoms[last_index(atoms, a)] == a,
        forall|m: int| last_index(atoms, a) < m < atoms.len() ==> atoms[m] != a,
    decreases atoms.len(),
{
    if atoms.len() > 0 && atoms.last() != a {
        lemma_last_index(atoms.drop_last(), a);
        assert forall|m: int| last_index(atoms, a) < m < atoms.len() implies atoms[m] != a by {
            if m < atoms.len() - 1 {
                assert(atoms.drop_last()[m] == atoms[m]);
            }
        }
    }
}

/// The node index of `atoms` holds each distinct atom of `atoms` exactly
/// once, with the node of its last occurrence, and nothing else.
pub proof fn lemma_node_index_exact(atoms: Seq<GroundAtomView>)
    requires
        atoms.len() <= usize::MAX,
    ensures
        forall|i: int, j: int|
            0 <= i < j < node_index(atoms).len() ==> (#[trigger] node_index(atoms)[i]).0 != (
            #[trigger] node_index(atoms)[j]).0,
        forall|p: int|
            0 <= p < atoms.len() ==> exists|e: int|
                0 <= e < node_index(atoms).len() && (#[trigger] node_index(atoms)[e]).0 == #[trigger] atoms[p]
                    && node_index(atoms)[e].1 == last_index(atoms, atoms[p]) + 1,
        forall|e: int|
            0 <= e < node_index(atoms).len() ==> atoms.contains((#[trigger] node_index(atoms)[e]).0)
                && node_index(atoms)[e].1 == last_index(atoms, node_index(atoms)[e].0) + 1,
    decreases atoms.len(),
{
    if atoms.len() > 0 {
        let prev = atoms.drop_last();
        lemma_node_index_exact(prev);
        let d0 = node_index(prev);
        let d = node_index(atoms);
        let a = atoms.last();
        let n = atoms.len() - 1;
        lemma_first_position(d0, a);
        assert(atoms[n] == a);
        assert forall|x: GroundAtomView| x != a implies last_index(atoms, x) == last_index(prev, x) by {}
        match first_position(d0, a) {
            Some(p) => {
                assert(d =~= d0.update(p, (a, atoms.len() as usize)));
                assert forall|i: int, j: int| 0 <= i < j < d.len() implies (#[trigger] d[i]).0 != (#[trigger] d[j]).0 by {
                    assert(d[i].0 == d0[i].0 && d[j].0 == d0[j].0);
                }
                assert forall|q: int| 0 <= q < atoms.len() implies exists|e: int|
                    0 <= e < d.len() && (#[trigger] d[e]).0 == #[trigger] atoms[q] && d[e].1 == last_index(atoms, atoms[q]) + 1 by {
                    if atoms[q] == a {
                        assert(d[p].0 == atoms[q]);
                    } else {
                        assert(prev[q] == atoms[q]);
                        let e = choose|e: int| 0 <= e < d0.len() && (#[trigger] d0[e]).0 == prev[q] && d0[e].1 == last_index(prev, prev[q]) + 1;
                        assert(d[e] == d0[e]);
                    }
                }
                assert forall|e: int| 0 <= e < d.len() implies atoms.contains((#[trigger] d[e]).0)
                    && d[e].1 == last_index(atoms, d[e].0) + 1 by {
                    if e == p {
                        assert(atoms[n] == d[e].0);
                    } else {
                        assert(d[e] == d0[e]);
                        let i = choose|i: int| 0 <= i < prev.len() && prev[i] == d0[e].0;
                        assert(atoms[i] == prev[i]);
                    }
                }
            },
            None => {
                assert(d =~= d0.push((a, atoms.len() as usize)));
                assert forall|i: int, j: int| 0 <= i < j < d.len() implies (#[trigger] d[i]).0 != (#[trigger] d[j]).0 by {
                    if j == d0.len() {
                        assert(d0[i].0 != a);
                    } else {
                        assert(d[i] == d0[i] && d[j] == d0[j]);
                    }
                }
                assert forall|q: int| 0 <= q < atoms.len() implies exists|e: int|
                    0 <= e < d.len() && (#[trigger] d[e]).0 == #[trigger] atoms[q] && d[e].1 == last_index(atoms, atoms[q]) + 1 by {
                    if atoms[q] == a {
                        assert(d[d0.len() as int].0 == atoms[q]);
                    } else {
                        assert(prev[q] == atoms[q]);
                        let e = choose|e: int| 0 <= e < d0.len() && (#[trigger] d0[e]).0 == prev[q] && d0[e].1 == last_index(prev, prev[q]) + 1;
                        assert(d[e] == d0[e]);
                    }
                }
                assert forall|e: int| 0 <= e < d.len() implies atoms.contains((#[trigger] d[e]).0)
                    && d[e].1 == last_index(atoms, d[e].0) + 1 by {
                    if e == d0.len() {
                        assert(atoms[n] == d[e].0);
                    } else {
                        assert(d[e] == d0[e]);
                        let i = choose|i: int| 0 <= i < prev.len() && prev[i] == d0[e].0;
                        assert(atoms[i] == prev[i]);
                    }
                }
            },
        }
    }
}

/// An indexed atom named like `b` gives an edge for `b`.
proof fn lemma_body_atom_edges_has(
    d: Seq<(GroundAtomView, usize)>,
    b: AtomView,
    h_idx: usize,
    rule_id: usize,
    e: int,
)
    requires
        0 <= e < d.len(),
        d[e].0.name == b.predicate.name,
    ensures
        body_atom_edges(d, b, h_idx, rule_id).contains(
            Edge { from: d[e].1, to: h_idx, rule: rule_id, support: !b.negated },
        ),
    decreases d.len(),
{
    let x = Edge { from: d[e].1, to: h_idx, rule: rule_id, support: !b.negated };
    let rest = body_atom_edges(d.drop_last(), b, h_idx, rule_id);
    if e == d.len() - 1 {
        assert(body_atom_edges(d, b, h_idx, rule_id) == rest.push(x));
        assert(rest.push(x)[rest.len() as int] == x);
    } else {
        assert(d.drop_last()[e] == d[e]);
        lemma_body_atom_edges_has(d.drop_last(), b, h_idx, rule_id, e);
        let i = choose|i: int| 0 <= i < rest.len() && rest[i] == x;
        assert(body_atom_edges(d, b, h_idx, rule_id)[i] == rest[i]);
    }
}

/// The edges of a body include those of each of its atoms.
proof fn lemma_body_edges_has(
    d: Seq<(GroundAtomView, usize)>,
    body: Seq<AtomView>,
    h_idx: usize,
    rule_id: usize,
    j: int,
    x: Edge,
)
    requires
        0 <= j < body.len(),
        body_atom_edges(d, body[j], h_idx, rule_id).contains(x),
    ensures
        body_edges(d, body, h_idx, rule_id).contains(x),
    decreases body.len(),
{
    let rest = body_edges(d, body.drop_last(), h_idx, rule_id);
    let tail = body_atom_edges(d, body.last(), h_idx, rule_id);
    assert(body_edges(d, body, h_idx, rule_id) == rest + tail);
    if j == body.len() - 1 {
        let i = choose|i: int| 0 <= i < tail.len() && tail[i] == x;
        assert((rest + tail)[rest.len() + i] == x);
    } else {
        assert(body.drop_last()[j] == body[j]);
        lemma_body_edges_has(d, body.drop_last(), h_idx, rule_id, j, x);
        let i = choose|i: int| 0 <= i < rest.len() && rest[i] == x;
        assert((rest + tail)[i] == x);
    }
}

/// The edges of a head include the body edges into every indexed atom with
/// the head's name that the head matches.
proof fn lemma_head_edges_has(
    d: Seq<(GroundAtomView, usize)>,
    heads: Seq<(GroundAtomView, usize)>,
    head: AtomView,
    body: Seq<AtomView>,
    rule_id: usize,
    e: int,
    x: Edge,
)
    requires
        0 <= e < heads.len(),
        heads[e].0.name == head.predicate.name,
        substitution_of(head, heads[e].0) is Some,
        body_edges(d, body, heads[e].1, rule_id).contains(x),
    ensures
        head_edges(d, heads, head, body, rule_id).contains(x),
    decreases heads.len(),
{
    let rest = head_edges(d, heads.drop_last(), head, body, rule_id);
    if e == heads.len() - 1 {
        let tail = body_edges(d, body, heads[e].1, rule_id);
        assert(head_edges(d, heads, head, body, rule_id) == rest + tail);
        let i = choose|i: int| 0 <= i < tail.len() && tail[i] == x;
        assert((rest + tail)[rest.len() + i] == x);
    } else {
        assert(heads.drop_last()[e] == heads[e]);
        lemma_head_edges_has(d, heads.drop_last(), head, body, rule_id, e, x);
        let i = choose|i: int| 0 <= i < rest.len() && rest[i] == x;
        if heads.last().0.name == head.predicate.name && substitution_of(head, heads.last().0) is Some {
            let tail = body_edges(d, body, heads.last().1, rule_id);
            assert(head_edges(d, heads, head, body, rule_id) == rest + tail);
            assert((rest + tail)[i] == x);
        } else {
            assert(head_edges(d, heads, head, body, rule_id)[i] == x);
        }
    }
}

/// The edges of all rules include those of each rule.
proof fn lemma_program_edges_has(
    d: Seq<(GroundAtomView, usize)>,
    rules: Seq<RuleView>,
    k: int,
    x: Edge,
)
    requires
        0 <= k < rules.len(),
        rule_edges(d, rules[k]).contains(x),
    ensures
        program_edges(d, rules).contains(x),
    decreases rules.len(),
{
    let rest = program_edges(d, rules.drop_last());
    let tail = rule_edges(d, rules.last());
    assert(program_edges(d, rules) == rest + tail);
    if k == rules.len() - 1 {
        let i = choose|i: int| 0 <= i < tail.len() && tail[i] == x;
        assert((rest + tail)[rest.len() + i] == x);
    } else {
        assert(rules.drop_last()[k] == rules[k]);
        lemma_program_edges_has(d, rules.drop_last(), k, x);
        let i = choose|i: int| 0 <= i < rest.len() && rest[i] == x;
        assert((rest + tail)[i] == x);
    }
}

/// Every edge the rules call for is in the graph: for a rule with head atom
/// `h`, a body atom `j` of it, a ground atom `H` (at `p`) with `h`'s name
/// that `h` matches and a ground atom `G` (at `q`) with the body atom's
/// name, the graph of ground atoms `atoms` has the edge from `G`'s node to
/// `H`'s node (each atom's node being that of its last occurrence),
/// labelled with the rule's identifier and the body atom's sign.
pub proof fn lemma_graph_edges_complete(
    atoms: Seq<GroundAtomView>,
    rules: Seq<RuleView>,
    k: int,
    h: AtomView,
    j: int,
    p: int,
    q: int,
)
    requires
        atoms.len() <= usize::MAX,
        0 <= k < rules.len(),
        rules[k].head == Some(HeadView::Atom(h)),
        0 <= j < rules[k].body.len(),
        0 <= p < atoms.len(),
        atoms[p].name == h.predicate.name,
        substitution_of(h, atoms[p]) is Some,
        0 <= q < atoms.len(),
        atoms[q].name == rules[k].body[j].predicate.name,
    ensures
        program_edges(node_index(atoms), rules).contains(
            Edge {
                from: (last_index(atoms, atoms[q]) + 1) as usize,
                to: (last_index(atoms, atoms[p]) + 1) as usize,
                rule: rules[k].id,
                support: !rules[k].body[j].negated,
            },
        ),
{
    let d = node_index(atoms);
    lemma_node_index_exact(atoms);
    let eh = choose|e: int| 0 <= e < d.len() && (#[trigger] d[e]).0 == atoms[p] && d[e].1 == last_index(atoms, atoms[p]) + 1;
    let eg = choose|e: int| 0 <= e < d.len() && (#[trigger] d[e]).0 == atoms[q] && d[e].1 == last_index(atoms, atoms[q]) + 1;
    let r = rules[k];
    let b = r.body[j];
    let x = Edge { from: d[eg].1, to: d[eh].1, rule: r.id, support: !b.negated };
    lemma_body_atom_edges_has(d, b, d[eh].1, r.id, eg);
    lemma_body_edges_has(d, r.body, d[eh].1, r.id, j, x);
    lemma_head_edges_has(d, d, h, r.body, r.id, eh, x);
    lemma_program_edges_has(d, rules, k, x);
}


/// Node `n` is the node (that of its last occurrence) of some atom of
/// `atoms` named `name`.
pub open spec fn named_node(atoms: Seq<GroundAtomView>, name: Seq<char>, n: int) -> bool {
    exists|q: int| 0 <= q < atoms.len() && atoms[q].name == name && n == last_index(atoms, atoms[q]) + 1
}

/// Node `n` is the node of some atom of `atoms` with the name of head atom
/// `h` that `h` matches.
pub open spec fn head_node(atoms: Seq<GroundAtomView>, h: AtomView, n: int) -> bool {
    exists|p: int|
        0 <= p < atoms.len() && atoms[p].name == h.predicate.name && substitution_of(h, atoms[p]) is Some
            && n == last_index(atoms, atoms[p]) + 1
}

/// The distinct ground atoms of `atoms` named `name` whose node (that of
/// their last occurrence) is `n`.
pub open spec fn named_atoms_at(atoms: Seq<GroundAtomView>, name: Seq<char>, n: int) -> Set<
    GroundAtomView,
> {
    atoms.to_set().filter(|g: GroundAtomView| g.name == name && last_index(atoms, g) + 1 == n)
}

/// The distinct ground atoms of `atoms` with the name of head atom `h`
/// that `h` matches and whose node is `n`.
pub open spec fn head_atoms_at(atoms: Seq<GroundAtomView>, h: AtomView, n: int) -> Set<
    GroundAtomView,
> {
    atoms.to_set().filter(
        |g: GroundAtomView|
            g.name == h.predicate.name && substitution_of(h, g) is Some && last_index(atoms, g) + 1
                == n,
    )
}

/// How many pairs of a body atom of the rule with identifier `id` and a
/// distinct ground atom call for edge `x`: the body atom with `x`'s sign,
/// the ground atom named like it and at `x`'s source node.
pub open spec fn body_calls(atoms: Seq<GroundAtomView>, body: Seq<AtomView>, id: usize, x: Edge) -> nat
    decreases body.len(),
{
    if body.len() == 0 {
        0
    } else {
        body_calls(atoms, body.drop_last(), id, x) + if x.rule == id && x.support == !body.last().negated {
            named_atoms_at(atoms, body.last().predicate.name, x.from as int).len()
        } else {
            0nat
        }
    }
}

/// How many times rule `r` calls for edge `x`: for a rule with head atom
/// `h`, once for every distinct ground atom at `x`'s target node that `h`
/// matches and every pair that `body_calls` counts; never for other rules.
pub open spec fn rule_calls(atoms: Seq<GroundAtomView>, r: RuleView, x: Edge) -> nat {
    match r.head {
        Some(HeadView::Atom(h)) => head_atoms_at(atoms, h, x.to as int).len() * body_calls(
            atoms,
            r.body,
            r.id,
            x,
        ),
        _ => 0,
    }
}

/// Two atoms of `atoms` with the same last position are the same atom.
proof fn lemma_last_index_injective(atoms: Seq<GroundAtomView>, a: GroundAtomView, b: GroundAtomView)
    requires
        atoms.contains(a),
        atoms.contains(b),
        last_index(atoms, a) == last_index(atoms, b),
    ensures
        a == b,
{
    lemma_last_index(atoms, a);
    lemma_last_index(atoms, b);
    let pa = choose|k: int| 0 <= k < atoms.len() && atoms[k] == a;
    assert(last_index(atoms, a) >= pa);
}

/// There is one distinct atom at a node with a given name when some atom
/// of that name sits there, and none otherwise; likewise for a head atom.
proof fn lemma_atoms_at_len(atoms: Seq<GroundAtomView>, name: Seq<char>, h: AtomView, n: int)
    ensures
        named_atoms_at(atoms, name, n).len() == if named_node(atoms, name, n) {
            1nat
        } else {
            0nat
        },
        head_atoms_at(atoms, h, n).len() == if head_node(atoms, h, n) {
            1nat
        } else {
            0nat
        },
{
    broadcast use vstd::set::group_set_axioms, vstd::seq_lib::seq_to_set_is_finite;

    let sn = named_atoms_at(atoms, name, n);
    if named_node(atoms, name, n) {
        let q = choose|q: int| 0 <= q < atoms.len() && atoms[q].name == name && n == last_index(atoms, atoms[q]) + 1;
        let g = atoms[q];
        assert forall|y: GroundAtomView| sn.contains(y) <==> y == g by {
            if sn.contains(y) {
                lemma_last_index_injective(atoms, y, g);
            }
            if y == g {
                assert(atoms.contains(g));
            }
        }
        assert(sn =~= Set::<GroundAtomView>::empty().insert(g));
    } else {
        assert forall|y: GroundAtomView| !sn.contains(y) by {
            if sn.contains(y) {
                let q = choose|q: int| 0 <= q < atoms.len() && atoms[q] == y;
                assert(named_node(atoms, name, n));
            }
        }
        assert(sn =~= Set::<GroundAtomView>::empty());
    }
    let sh = head_atoms_at(atoms, h, n);
    if head_node(atoms, h, n) {
        let p = choose|p: int|
            0 <= p < atoms.len() && atoms[p].name == h.predicate.name && substitution_of(h, atoms[p]) is Some
                && n == last_index(atoms, atoms[p]) + 1;
        let g = atoms[p];
        assert forall|y: GroundAtomView| sh.contains(y) <==> y == g by {
            if sh.contains(y) {
                lemma_last_index_injective(atoms, y, g);
            }
            if y == g {
                assert(atoms.contains(g));
            }
        }
        assert(sh =~= Set::<GroundAtomView>::empty().insert(g));
    } else {
        assert forall|y: GroundAtomView| !sh.contains(y) by {
            if sh.contains(y) {
                let p = choose|p: int| 0 <= p < atoms.len() && atoms[p] == y;
                assert(head_node(atoms, h, n));
            }
        }
        assert(sh =~= Set::<GroundAtomView>::empty());
    }
}

/// How many times the rules call for edge `x`, all together.
pub open spec fn edge_calls(atoms: Seq<GroundAtomView>, rules: Seq<RuleView>, x: Edge) -> nat
    decreases rules.len(),
{
    if rules.len() == 0 {
        0
    } else {
        edge_calls(atoms, rules.drop_last(), x) + rule_calls(atoms, rules.last(), x)
    }
}

/// The entries of the node index of `atoms` have distinct nodes, and the
/// index answers `named_node` and `head_node`.
proof fn lemma_node_index_nodes(atoms: Seq<GroundAtomView>)
    requires
        atoms.len() <= usize::MAX,
    ensures
        forall|i: int, j: int|
            0 <= i < j < node_index(atoms).len() ==> (#[trigger] node_index(atoms)[i]).1 != (
            #[trigger] node_index(atoms)[j]).1,
        forall|name: Seq<char>, n: int|
            #[trigger] named_node(atoms, name, n) <==> exists|e: int|
                0 <= e < node_index(atoms).len() && (#[trigger] node_index(atoms)[e]).0.name == name
                    && node_index(atoms)[e].1 == n,
        forall|h: AtomView, n: int|
            #[trigger] head_node(atoms, h, n) <==> exists|e: int|
                0 <= e < node_index(atoms).len() && (#[trigger] node_index(atoms)[e]).0.name
                    == h.predicate.name && substitution_of(h, node_index(atoms)[e].0) is Some
                    && node_index(atoms)[e].1 == n,
{
    let d = node_index(atoms);
    lemma_node_index_exact(atoms);
    assert forall|i: int, j: int| 0 <= i < j < d.len() implies (#[trigger] d[i]).1 != (#[trigger] d[j]).1 by {
        let a = d[i].0;
        let b = d[j].0;
        lemma_last_index(atoms, a);
        lemma_last_index(atoms, b);
        let pa = choose|k: int| 0 <= k < atoms.len() && atoms[k] == a;
        let pb = choose|k: int| 0 <= k < atoms.len() && atoms[k] == b;
        assert(last_index(atoms, a) >= pa);
        assert(last_index(atoms, b) >= pb);
        if d[i].1 == d[j].1 {
            assert(atoms[last_index(atoms, a)] == a);
            assert(atoms[last_index(atoms, b)] == b);
        }
    }
    assert forall|name: Seq<char>, n: int| #[trigger] named_node(atoms, name, n) <==> exists|e: int|
        0 <= e < d.len() && (#[trigger] d[e]).0.name == name && d[e].1 == n by {
        if named_node(atoms, name, n) {
            let q = choose|q: int| 0 <= q < atoms.len() && atoms[q].name == name && n == last_index(atoms, atoms[q]) + 1;
            let e = choose|e: int| 0 <= e < d.len() && (#[trigger] d[e]).0 == #[trigger] atoms[q] && d[e].1 == last_index(atoms, atoms[q]) + 1;
            assert(d[e].0.name == name && d[e].1 == n);
        }
        if exists|e: int| 0 <= e < d.len() && (#[trigger] d[e]).0.name == name && d[e].1 == n {
            let e = choose|e: int| 0 <= e < d.len() && (#[trigger] d[e]).0.name == name && d[e].1 == n;
            let q = choose|q: int| 0 <= q < atoms.len() && atoms[q] == d[e].0;
            assert(atoms[q].name == name && n == last_index(atoms, atoms[q]) + 1);
        }
    }
    assert forall|h: AtomView, n: int| #[trigger] head_node(atoms, h, n) <==> exists|e: int|
        0 <= e < d.len() && (#[trigger] d[e]).0.name == h.predicate.name && substitution_of(h, d[e].0) is Some
            && d[e].1 == n by {
        if head_node(atoms, h, n) {
            let p = choose|p: int|
                0 <= p < atoms.len() && atoms[p].name == h.predicate.name && substitution_of(h, atoms[p]) is Some
                    && n == last_index(atoms, atoms[p]) + 1;
            let e = choose|e: int| 0 <= e < d.len() && (#[trigger] d[e]).0 == #[trigger] atoms[p] && d[e].1 == last_index(atoms, atoms[p]) + 1;
            assert(d[e].0.name == h.predicate.name && d[e].1 == n);
        }
        if exists|e: int| 0 <= e < d.len() && (#[trigger] d[e]).0.name == h.predicate.name && substitution_of(h, d[e].0) is Some && d[e].1 == n {
            let e = choose|e: int| 0 <= e < d.len() && (#[trigger] d[e]).0.name == h.predicate.name && substitution_of(h, d[e].0) is Some && d[e].1 == n;
            let p = choose|p: int| 0 <= p < atoms.len() && atoms[p] == d[e].0;
            assert(atoms[p].name == h.predicate.name && n == last_index(atoms, atoms[p]) + 1);
        }
    }
}

/// How often `x` is among the edges for body atom `b` into `h_idx`: once
/// when it has that target, rule and sign and an indexed atom named like
/// `b` sits at its source node, else never.
proof fn lemma_body_atom_edges_count(
    d: Seq<(GroundAtomView, usize)>,
    b: AtomView,
    h_idx: usize,
    rule_id: usize,
    x: Edge,
)
    requires
        forall|i: int, j: int| 0 <= i < j < d.len() ==> (#[trigger] d[i]).1 != (#[trigger] d[j]).1,
    ensures
        body_atom_edges(d, b, h_idx, rule_id).to_multiset().count(x) == if x.to == h_idx && x.rule
            == rule_id && x.support == !b.negated && exists|e: int|
            0 <= e < d.len() && (#[trigger] d[e]).0.name == b.predicate.name && d[e].1 == x.from {
            1nat
        } else {
            0nat
        },
    decreases d.len(),
{
    broadcast use vstd::seq_lib::group_to_multiset_ensures, vstd::multiset::group_multiset_axioms;

    if d.len() == 0 {
        assert(!body_atom_edges(d, b, h_idx, rule_id).contains(x));
    } else {
        let d0 = d.drop_last();
        assert forall|i: int, j: int| 0 <= i < j < d0.len() implies (#[trigger] d0[i]).1 != (#[trigger] d0[j]).1 by {
            assert(d0[i] == d[i] && d0[j] == d[j]);
        }
        lemma_body_atom_edges_count(d0, b, h_idx, rule_id, x);
        let rest = body_atom_edges(d0, b, h_idx, rule_id);
        let g = d.last();
        let n = d.len() - 1;
        assert(d[n] == g);
        assert forall|e: int| 0 <= e < d0.len() implies #[trigger] d0[e] == d[e] by {}
        let cond = x.to == h_idx && x.rule == rule_id && x.support == !b.negated;
        let p_d = exists|e: int| 0 <= e < d.len() && (#[trigger] d[e]).0.name == b.predicate.name && d[e].1 == x.from;
        let p_d0 = exists|e: int| 0 <= e < d0.len() && (#[trigger] d0[e]).0.name == b.predicate.name && d0[e].1 == x.from;
        if p_d0 {
            let e = choose|e: int| 0 <= e < d0.len() && (#[trigger] d0[e]).0.name == b.predicate.name && d0[e].1 == x.from;
            assert(d[e] == d0[e]);
            assert(p_d);
        }
        if g.0.name == b.predicate.name {
            let y = Edge { from: g.1, to: h_idx, rule: rule_id, support: !b.negated };
            assert(body_atom_edges(d, b, h_idx, rule_id) == rest.push(y));
            assert(rest.push(y).to_multiset() =~= rest.to_multiset().insert(y));
            if y == x {
                assert forall|e: int| 0 <= e < d0.len() implies !((#[trigger] d0[e]).0.name == b.predicate.name && d0[e].1 == x.from) by {
                    assert(d[e].1 != d[n].1);
                }
                assert(!p_d0);
                assert(p_d);
                assert(rest.to_multiset().insert(y).count(x) == rest.to_multiset().count(x) + 1);
            } else {
                assert(rest.to_multiset().insert(y).count(x) == rest.to_multiset().count(x));
                if cond && p_d {
                    let e = choose|e: int| 0 <= e < d.len() && (#[trigger] d[e]).0.name == b.predicate.name && d[e].1 == x.from;
                    if e == n {
                        assert(y == x);
                    }
                    assert(d0[e] == d[e]);
                    assert(p_d0);
                }
            }
        } else {
            assert(body_atom_edges(d, b, h_idx, rule_id) == rest);
            if p_d {
                let e = choose|e: int| 0 <= e < d.len() && (#[trigger] d[e]).0.name == b.predicate.name && d[e].1 == x.from;
                assert(e != n);
                assert(d0[e] == d[e]);
                assert(p_d0);
            }
        }
    }
}

/// How often `x` is among the body edges into `h_idx`: as often as body
/// atoms call for it, when it has that target.
proof fn lemma_body_edges_count(
    atoms: Seq<GroundAtomView>,
    d: Seq<(GroundAtomView, usize)>,
    body: Seq<AtomView>,
    h_idx: usize,
    rule_id: usize,
    x: Edge,
)
    requires
        forall|i: int, j: int| 0 <= i < j < d.len() ==> (#[trigger] d[i]).1 != (#[trigger] d[j]).1,
        forall|name: Seq<char>, n: int|
            #[trigger] named_node(atoms, name, n) <==> exists|e: int|
                0 <= e < d.len() && (#[trigger] d[e]).0.name == name && d[e].1 == n,
    ensures
        body_edges(d, body, h_idx, rule_id).to_multiset().count(x) == if x.to == h_idx {
            body_calls(atoms, body, rule_id, x)
        } else {
            0
        },
    decreases body.len(),
{
    broadcast use vstd::seq_lib::group_to_multiset_ensures, vstd::seq_lib::lemma_multiset_commutative,
        vstd::multiset::group_multiset_axioms;

    if body.len() == 0 {
        assert(!body_edges(d, body, h_idx, rule_id).contains(x));
    } else {
        lemma_body_edges_count(atoms, d, body.drop_last(), h_idx, rule_id, x);
        lemma_body_atom_edges_count(d, body.last(), h_idx, rule_id, x);
        lemma_atoms_at_len(atoms, body.last().predicate.name, body.last(), x.from as int);
        assert(named_node(atoms, body.last().predicate.name, x.from as int) <==> exists|e: int|
            0 <= e < d.len() && (#[trigger] d[e]).0.name == body.last().predicate.name && d[e].1 == x.from);
    }
}

/// How often `x` is among the edges of head atom `h` over the entries
/// `heads`: as often as the body calls for it, when one of the entries
/// with `h`'s name that `h` matches sits at its target node.
proof fn lemma_head_edges_count(
    atoms: Seq<GroundAtomView>,
    d: Seq<(GroundAtomView, usize)>,
    heads: Seq<(GroundAtomView, usize)>,
    h: AtomView,
    body: Seq<AtomView>,
    rule_id: usize,
    x: Edge,
)
    requires
        forall|i: int, j: int| 0 <= i < j < d.len() ==> (#[trigger] d[i]).1 != (#[trigger] d[j]).1,
        forall|i: int, j: int| 0 <= i < j < heads.len() ==> (#[trigger] heads[i]).1 != (#[trigger] heads[j]).1,
        forall|name: Seq<char>, n: int|
            #[trigger] named_node(atoms, name, n) <==> exists|e: int|
                0 <= e < d.len() && (#[trigger] d[e]).0.name == name && d[e].1 == n,
    ensures
        head_edges(d, heads, h, body, rule_id).to_multiset().count(x) == if exists|e: int|
            0 <= e < heads.len() && (#[trigger] heads[e]).0.name == h.predicate.name && substitution_of(
                h,
                heads[e].0,
            ) is Some && heads[e].1 == x.to {
            body_calls(atoms, body, rule_id, x)
        } else {
            0
        },
    decreases heads.len(),
{
    broadcast use vstd::seq_lib::group_to_multiset_ensures, vstd::seq_lib::lemma_multiset_commutative,
        vstd::multiset::group_multiset_axioms;

    if heads.len() == 0 {
        assert(!head_edges(d, heads, h, body, rule_id).contains(x));
    } else {
        let h0 = heads.drop_last();
        assert forall|i: int, j: int| 0 <= i < j < h0.len() implies (#[trigger] h0[i]).1 != (#[trigger] h0[j]).1 by {
            assert(h0[i] == heads[i] && h0[j] == heads[j]);
        }
        lemma_head_edges_count(atoms, d, h0, h, body, rule_id, x);
        let last = heads.last();
        let n = heads.len() - 1;
        assert(heads[n] == last);
        assert forall|e: int| 0 <= e < h0.len() implies #[trigger] h0[e] == heads[e] by {}
        let rest = head_edges(d, h0, h, body, rule_id);
        let q_all = exists|e: int|
            0 <= e < heads.len() && (#[trigger] heads[e]).0.name == h.predicate.name && substitution_of(h, heads[e].0) is Some
                && heads[e].1 == x.to;
        let q_0 = exists|e: int|
            0 <= e < h0.len() && (#[trigger] h0[e]).0.name == h.predicate.name && substitution_of(h, h0[e].0) is Some
                && h0[e].1 == x.to;
        if q_0 {
            let e = choose|e: int|
                0 <= e < h0.len() && (#[trigger] h0[e]).0.name == h.predicate.name && substitution_of(h, h0[e].0) is Some
                    && h0[e].1 == x.to;
            assert(heads[e] == h0[e]);
            assert(q_all);
        }
        let cond_last = last.0.name == h.predicate.name && substitution_of(h, last.0) is Some;
        if cond_last {
            lemma_body_edges_count(atoms, d, body, last.1, rule_id, x);
            let be = body_edges(d, body, last.1, rule_id);
            assert(head_edges(d, heads, h, body, rule_id) == rest + be);
            assert((rest + be).to_multiset() =~= rest.to_multiset().add(be.to_multiset()));
            if last.1 == x.to {
                assert forall|e: int| 0 <= e < h0.len() implies !((#[trigger] h0[e]).0.name == h.predicate.name
                    && substitution_of(h, h0[e].0) is Some && h0[e].1 == x.to) by {
                    assert(heads[e].1 != heads[n].1);
                }
                assert(!q_0);
                assert(q_all);
            } else {
                if q_all {
                    let e = choose|e: int|
                        0 <= e < heads.len() && (#[trigger] heads[e]).0.name == h.predicate.name && substitution_of(h, heads[e].0) is Some
                            && heads[e].1 == x.to;
                    assert(e != n);
                    assert(h0[e] == heads[e]);
                    assert(q_0);
                }
            }
        } else {
            assert(head_edges(d, heads, h, body, rule_id) == rest);
            if q_all {
                let e = choose|e: int|
                    0 <= e < heads.len() && (#[trigger] heads[e]).0.name == h.predicate.name && substitution_of(h, heads[e].0) is Some
                        && heads[e].1 == x.to;
                assert(e != n);
                assert(h0[e] == heads[e]);
                assert(q_0);
            }
        }
    }
}

/// Each edge occurs in the justification graph of ground atoms `atoms` and
/// rules `rules` exactly as often as the rules call for it: once for every
/// rule with head atom `h` and identifier the edge's, every distinct ground
/// atom `H` that `h` matches (same name, matching arguments) whose node is
/// the edge's target, every body atom `b` of the rule with the edge's sign,
/// and every distinct ground atom `G` named like `b` whose node is the
/// edge's source; each atom's node is that of its last occurrence.
pub proof fn lemma_graph_edge_counts(atoms: Seq<GroundAtomView>, rules: Seq<RuleView>, x: Edge)
    requires
        atoms.len() <= usize::MAX,
    ensures
        program_edges(node_index(atoms), rules).to_multiset().count(x) == edge_calls(atoms, rules, x),
    decreases rules.len(),
{
    broadcast use vstd::seq_lib::group_to_multiset_ensures, vstd::seq_lib::lemma_multiset_commutative,
        vstd::multiset::group_multiset_axioms;

    let d = node_index(atoms);
    if rules.len() == 0 {
        assert(!program_edges(d, rules).contains(x));
    } else {
        lemma_graph_edge_counts(atoms, rules.drop_last(), x);
        lemma_node_index_nodes(atoms);
        let r = rules.last();
        match r.head {
            Some(HeadView::Atom(h)) => {
                lemma_head_edges_count(atoms, d, d, h, r.body, r.id, x);
                lemma_atoms_at_len(atoms, h.predicate.name, h, x.to as int);
                assert(head_node(atoms, h, x.to as int) <==> exists|e: int|
                    0 <= e < d.len() && (#[trigger] d[e]).0.name == h.predicate.name && substitution_of(h, d[e].0) is Some
                        && d[e].1 == x.to);
            },
            _ => {
                assert(rule_edges(d, r) == Seq::<Edge>::empty());
                assert(!rule_edges(d, r).contains(x));
            },
        }
    }
}

} // verus!
