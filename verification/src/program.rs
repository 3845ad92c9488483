//! The syntax of ASP programs: predicates, atoms, rules and ground atoms,
//! each with a mathematical model (its `deep_view`) that the contracts of
//! the library speak of.
use vstd::prelude::*;

verus! {

// ---------------------------------------------------------------------
// Models
// ---------------------------------------------------------------------
/// Model of a predicate symbol: its name and the arity that was recorded.
pub struct PredicateView {
    pub name: Seq<char>,
    pub arity: u8,
}

/// Model of an argument of a non-ground atom.
pub enum ArgView {
    Literal(Seq<char>),
    Variable(Seq<char>),
}

/// Model of an atom that may hold variables.
pub struct AtomView {
    pub predicate: PredicateView,
    pub args: Seq<ArgView>,
    pub negated: bool,
}

/// Model of a choice head `min{choice_atom : body}max`.
pub struct ChoiceView {
    pub min: u16,
    pub max: u16,
    pub choice_atom: AtomView,
    pub body_atoms: Seq<AtomView>,
}

/// Model of a rule head.
pub enum HeadView {
    Atom(AtomView),
    Choice(ChoiceView),
}

/// Model of a rule.
pub struct RuleView {
    pub head: Option<HeadView>,
    pub body: Seq<AtomView>,
    pub kind: RuleKind,
    pub id: usize,
}

/// Model of a ground atom: a name, constant arguments and a sign.
pub struct GroundAtomView {
    pub name: Seq<char>,
    pub args: Seq<Seq<char>>,
    pub negated: bool,
}

/// Model of a parsed statement.
pub enum ParsedRuleView {
    Rule(RuleView),
    GroundAtom(GroundAtomView),
}

/// Model of a program.
pub struct ProgramView {
    pub rules: Seq<RuleView>,
    pub ground_atoms: Seq<GroundAtomView>,
}

// ---------------------------------------------------------------------
// Executable types
// ---------------------------------------------------------------------
#[derive(Clone, Debug)]
pub struct Predicate {
    pub name: String,
    pub arity: u8,
}

#[derive(Clone, Debug)]
pub struct ChoiceStatement {
    pub min: u16,
    pub max: u16,
    pub choice_atom: Atom,
    pub body_atoms: Vec<Atom>,
}

#[derive(Debug, PartialEq, Eq, Hash, Clone)]
pub struct Literal {
    pub name: String,
}

#[derive(Debug, PartialEq, Clone)]
pub struct Variable {
    pub name: String,
}

#[derive(Clone, Debug)]
pub struct Atom {
    pub predicate: Predicate,
    pub args: Vec<PredicateArg>,
    pub negated: bool,
}

#[derive(Debug, PartialEq, Clone)]
pub enum PredicateArg {
    Literal(Literal),
    Variable(Variable),
}

#[derive(Clone, Copy, Debug)]
pub enum RuleKind {
    Fact,
    Regular,
    Choice,
    Constraint,
}

/// The head of a rule: an atom (regular rules) or a choice statement
/// (choice rules). Constraints have no head.
#[derive(Clone, Debug)]
pub enum RuleHead {
    Atom(Atom),
    Choice(ChoiceStatement),
}

#[derive(Clone, Debug)]
pub struct Rule {
    pub head: Option<RuleHead>,
    pub body: Vec<Atom>,
    pub kind: RuleKind,
    pub id: usize,
}

pub enum ParsedRule {
    Rule(Rule),
    GroundAtom(GroundAtom),
}

pub struct Program {
    pub rules: Vec<Rule>,
    pub ground_atoms: Vec<GroundAtom>,
}

#[derive(Clone, Hash, PartialEq, Eq, Debug)]
pub struct GroundAtom {
    pub name: String,
    pub args: Vec<Literal>,
    pub negated: bool,
}

// ---------------------------------------------------------------------
// Views
// ---------------------------------------------------------------------
impl DeepView for Predicate {
    type V = PredicateView;

    open spec fn deep_view(&self) -> PredicateView {
        PredicateView { name: self.name@, arity: self.arity }
    }
}

impl DeepView for Literal {
    type V = Seq<char>;

    open spec fn deep_view(&self) -> Seq<char> {
        self.name@
    }
}

impl DeepView for Variable {
    type V = Seq<char>;

    open spec fn deep_view(&self) -> Seq<char> {
        self.name@
    }
}

impl DeepView for PredicateArg {
    type V = ArgView;

    open spec fn deep_view(&self) -> ArgView {
        match self {
            PredicateArg::Literal(l) => ArgView::Literal(l.name@),
            PredicateArg::Variable(v) => ArgView::Variable(v.name@),
        }
    }
}

impl DeepView for Atom {
    type V = AtomView;

    open spec fn deep_view(&self) -> AtomView {
        AtomView {
            predicate: self.predicate.deep_view(),
            args: self.args.deep_view(),
            negated: self.negated,
        }
    }
}

impl DeepView for ChoiceStatement {
    type V = ChoiceView;

    open spec fn deep_view(&self) -> ChoiceView {
        ChoiceView {
            min: self.min,
            max: self.max,
            choice_atom: self.choice_atom.deep_view(),
            body_atoms: self.body_atoms.deep_view(),
        }
    }
}

impl DeepView for RuleHead {
    type V = HeadView;

    open spec fn deep_view(&self) -> HeadView {
        match self {
            RuleHead::Atom(a) => HeadView::Atom(a.deep_view()),
            RuleHead::Choice(c) => HeadView::Choice(c.deep_view()),
        }
    }
}

impl DeepView for Rule {
    type V = RuleView;

    open spec fn deep_view(&self) -> RuleView {
        RuleView {
            head: self.head.deep_view(),
            body: self.body.deep_view(),
            kind: self.kind,
            id: self.id,
        }
    }
}

impl DeepView for GroundAtom {
    type V = GroundAtomView;

    open spec fn deep_view(&self) -> GroundAtomView {
        GroundAtomView { name: self.name@, args: self.args.deep_view(), negated: self.negated }
    }
}

impl DeepView for ParsedRule {
    type V = ParsedRuleView;

    open spec fn deep_view(&self) -> ParsedRuleView {
        match self {
            ParsedRule::Rule(r) => ParsedRuleView::Rule(r.deep_view()),
            ParsedRule::GroundAtom(g) => ParsedRuleView::GroundAtom(g.deep_view()),
        }
    }
}

impl DeepView for Program {
    type V = ProgramView;

    open spec fn deep_view(&self) -> ProgramView {
        ProgramView { rules: self.rules.deep_view(), ground_atoms: self.ground_atoms.deep_view() }
    }
}

// ---------------------------------------------------------------------
// Copies whose result is proved equal to the original
// ---------------------------------------------------------------------
/// A copy that keeps the model.
pub trait DeepCopy: DeepView + Sized {
    fn deep_copy(&self) -> (r: Self)
        ensures
            r.deep_view() == self.deep_view(),
    ;
}

/// A copy of a vector whose elements keep their models.
pub fn copy_vec<T: DeepCopy>(v: &Vec<T>) -> (r: Vec<T>)
    ensures
        r.deep_view() == v.deep_view(),
{
    let mut r: Vec<T> = Vec::new();
    let mut i: usize = 0;
    while i < v.len()
        invariant
            i <= v@.len(),
            r@.len() == i,
            forall|j: int| 0 <= j < i ==> #[trigger] r@[j].deep_view() == v@[j].deep_view(),
        decreases v.len() - i,
    {
        r.push(v[i].deep_copy());
        i = i + 1;
    }
    assert(r.deep_view() =~= v.deep_view());
    r
}

impl DeepCopy for Predicate {
    fn deep_copy(&self) -> (r: Self) {
        Predicate { name: self.name.clone(), arity: self.arity }
    }
}

impl DeepCopy for Literal {
    fn deep_copy(&self) -> (r: Self) {
        Literal { name: self.name.clone() }
    }
}

impl DeepCopy for Variable {
    fn deep_copy(&self) -> (r: Self) {
        Variable { name: self.name.clone() }
    }
}

impl DeepCopy for PredicateArg {
    fn deep_copy(&self) -> (r: Self) {
        match self {
            PredicateArg::Literal(l) => PredicateArg::Literal(l.deep_copy()),
            PredicateArg::Variable(v) => PredicateArg::Variable(v.deep_copy()),
        }
    }
}

impl DeepCopy for Atom {
    fn deep_copy(&self) -> (r: Self) {
        Atom {
            predicate: self.predicate.deep_copy(),
            args: copy_vec(&self.args),
            negated: self.negated,
        }
    }
}

impl DeepCopy for ChoiceStatement {
    fn deep_copy(&self) -> (r: Self) {
        ChoiceStatement {
            min: self.min,
            max: self.max,
            choice_atom: self.choice_atom.deep_copy(),
            body_atoms: copy_vec(&self.body_atoms),
        }
    }
}

impl DeepCopy for RuleHead {
    fn deep_copy(&self) -> (r: Self) {
        match self {
            RuleHead::Atom(a) => RuleHead::Atom(a.deep_copy()),
            RuleHead::Choice(c) => RuleHead::Choice(c.deep_copy()),
        }
    }
}

impl DeepCopy for Rule {
    fn deep_copy(&self) -> (r: Self) {
        let head = match &self.head {
            Some(h) => Some(h.deep_copy()),
            None => None,
        };
        Rule { head, body: copy_vec(&self.body), kind: self.kind, id: self.id }
    }
}

impl DeepCopy for GroundAtom {
    fn deep_copy(&self) -> (r: Self) {
        GroundAtom { name: self.name.clone(), args: copy_vec(&self.args), negated: self.negated }
    }
}

impl Rule {
    /// A rule with the given head, body, kind and identifier. Identifiers
    /// are handed out by the caller: `parse` numbers the rules of a program
    /// 0, 1, 2, ... in the order they appear.
    pub fn new(head: Option<RuleHead>, body: Vec<Atom>, kind: RuleKind, id: usize) -> (r: Rule)
        ensures
            r.deep_view() == (RuleView {
                head: head.deep_view(),
                body: body.deep_view(),
                kind: kind,
                id: id,
            }),
    {
        Rule { head, body, kind, id }
    }
}

} // verus!
