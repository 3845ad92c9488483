//! The reader of ASP programs: statements, rules, atoms and ground atoms.
//!
//! A program is read line by line; a line that is blank after trimming or
//! that starts with `%` is skipped, the rest is cut at every `.` into
//! statements. A statement without `:-` is a ground atom; one with `:-` is a
//! rule whose head is empty (a constraint), a choice `min{atom : body}max`,
//! or an atom.
use crate::program::{
    ArgView, Atom, AtomView, ChoiceStatement, ChoiceView, GroundAtom, GroundAtomView, HeadView,
    Literal, ParsedRule, ParsedRuleView, Predicate, PredicateArg, PredicateView, Program,
    ProgramView, Rule, RuleHead, RuleKind, RuleView, Variable,
};
use crate::text::{
    chars_of, contains, contains_chars, copy_range, ends_with, has_prefix, has_suffix,
    parse_u16_or_zero, split_chars, split_on, split_scan, starts_with, string_from_chars, trim,
    trim_chars, trim_end_matches, trim_end_matches_char, trim_start_matches,
    trim_start_matches_chars, u16_or_zero, views,
};
use vstd::prelude::*;

verus! {

// ---------------------------------------------------------------------
// Shared pieces
// ---------------------------------------------------------------------
/// The text `not `, which marks a negated atom.
pub open spec fn not_marker() -> Seq<char> {
    seq!['n', 'o', 't', ' ']
}

/// The pieces that are not blank, each trimmed, in order.
pub open spec fn nonblank_trimmed(pieces: Seq<Seq<char>>) -> Seq<Seq<char>>
    decreases pieces.len(),
{
    if pieces.len() == 0 {
        Seq::empty()
    } else {
        let r = nonblank_trimmed(pieces.drop_last());
        let t = trim(pieces.last());
        if t.len() > 0 {
            r.push(t)
        } else {
            r
        }
    }
}

/// The pieces that are not blank, each trimmed, in order.
pub fn nonblank_trimmed_chars(pieces: &Vec<Vec<char>>) -> (r: Vec<Vec<char>>)
    ensures
        views(r@) == nonblank_trimmed(views(pieces@)),
{
    let mut r: Vec<Vec<char>> = Vec::new();
    let mut i: usize = 0;
    while i < pieces.len()
        invariant
            i <= pieces@.len(),
            views(r@) == nonblank_trimmed(views(pieces@).take(i as int)),
        decreases pieces.len() - i,
    {
        let t = trim_chars(pieces[i].as_slice());
        let ghost before = r@;
        assert(views(pieces@).take(i + 1).drop_last() =~= views(pieces@).take(i as int));
        if t.len() > 0 {
            r.push(t);
            assert(views(r@) =~= views(before).push(t@));
        }
        i = i + 1;
    }
    assert(views(pieces@).take(i as int) =~= views(pieces@));
    r
}

/// A split always yields at least one piece.
pub proof fn lemma_split_scan_nonempty(s: Seq<char>, pat: Seq<char>, start: int, i: int)
    ensures
        split_scan(s, pat, start, i).len() >= 1,
    decreases s.len() - i,
{
    if pat.len() == 0 || i < 0 || i + pat.len() > s.len() {
    } else if s.subrange(i, i + pat.len()) == pat {
        lemma_split_scan_nonempty(s, pat, i + pat.len(), i + pat.len());
    } else {
        lemma_split_scan_nonempty(s, pat, start, i + 1);
    }
}

// ---------------------------------------------------------------------
// Commas outside parentheses
// ---------------------------------------------------------------------
/// The pieces of `s` cut at the commas that are not inside parentheses,
/// scanning left to right with the current parenthesis depth and the text
/// of the piece that is open. A `)` lowers the depth only while it is
/// positive.
pub open spec fn top_level_scan(s: Seq<char>, depth: nat, cur: Seq<char>) -> Seq<Seq<char>>
    decreases s.len(),
{
    if s.len() == 0 {
        seq![cur]
    } else {
        let c = s[0];
        let rest = s.drop_first();
        if c == '(' {
            top_level_scan(rest, depth + 1, cur.push(c))
        } else if c == ')' && depth > 0 {
            top_level_scan(rest, (depth - 1) as nat, cur.push(c))
        } else if c == ',' && depth == 0 {
            seq![cur] + top_level_scan(rest, 0, Seq::empty())
        } else {
            top_level_scan(rest, depth, cur.push(c))
        }
    }
}

/// The non-blank, trimmed pieces of `s` between commas outside parentheses.
pub open spec fn top_level_parts(s: Seq<char>) -> Seq<Seq<char>> {
    nonblank_trimmed(top_level_scan(s, 0, Seq::empty()))
}

/// Cuts `s` at the commas outside parentheses; the pieces, trimmed, without
/// the blank ones.
pub fn split_top_level_commas(s: &str) -> (r: Vec<String>)
    ensures
        r@.map_values(|p: String| p@) == top_level_parts(s@),
{
    let cs = chars_of(s);
    let parts = top_level_parts_chars(cs.as_slice());
    let mut r: Vec<String> = Vec::new();
    let mut i: usize = 0;
    while i < parts.len()
        invariant
            i <= parts@.len(),
            r@.len() == i,
            forall|j: int| 0 <= j < i ==> (#[trigger] r@[j])@ == parts@[j]@,
        decreases parts.len() - i,
    {
        r.push(string_from_chars(parts[i].as_slice()));
        i = i + 1;
    }
    assert(r@.map_values(|p: String| p@) =~= views(parts@));
    r
}

/// Cuts `s` at the commas outside parentheses; the pieces, trimmed, without
/// the blank ones.
pub fn top_level_parts_chars(s: &[char]) -> (r: Vec<Vec<char>>)
    ensures
        views(r@) == top_level_parts(s@),
{
    let n = s.len();
    let mut raw: Vec<Vec<char>> = Vec::new();
    let mut start: usize = 0;
    let mut depth: usize = 0;
    let mut i: usize = 0;
    assert(s@.skip(0) =~= s@);
    assert(s@.subrange(0, 0) =~= Seq::<char>::empty());
    while i < n
        invariant
            start <= i <= n == s@.len(),
            depth <= i,
            top_level_scan(s@, 0, Seq::empty()) == views(raw@) + top_level_scan(
                s@.skip(i as int),
                depth as nat,
                s@.subrange(start as int, i as int),
            ),
        decreases n - i,
    {
        let c = s[i];
        let ghost rest = s@.skip(i as int);
        assert(rest[0] == c);
        assert(rest.drop_first() =~= s@.skip(i + 1));
        assert(s@.subrange(start as int, i as int).push(c) =~= s@.subrange(start as int, i + 1));
        if c == '(' {
            depth = depth + 1;
        } else if c == ')' && depth > 0 {
            depth = depth - 1;
        } else if c == ',' && depth == 0 {
            let ghost before = raw@;
            raw.push(copy_range(s, start, i));
            assert(views(raw@) =~= views(before).push(s@.subrange(start as int, i as int)));
            assert(s@.subrange(i + 1, i + 1) =~= Seq::<char>::empty());
            assert(views(before) + (seq![s@.subrange(start as int, i as int)] + top_level_scan(
                s@.skip(i + 1),
                0,
                Seq::empty(),
            )) =~= views(raw@) + top_level_scan(s@.skip(i + 1), 0, Seq::empty()));
            start = i + 1;
        }
        i = i + 1;
    }
    let ghost before = raw@;
    raw.push(copy_range(s, start, n));
    assert(s@.skip(n as int) =~= Seq::<char>::empty());
    assert(top_level_scan(Seq::<char>::empty(), depth as nat, s@.subrange(start as int, n as int))
        == seq![s@.subrange(start as int, n as int)]);
    assert(views(raw@) =~= views(before).push(s@.subrange(start as int, n as int)));
    assert(views(raw@) =~= top_level_scan(s@, 0, Seq::empty()));
    nonblank_trimmed_chars(&raw)
}

// ---------------------------------------------------------------------
// Atoms
// ---------------------------------------------------------------------
/// Whether a character has the Unicode `Uppercase` property, as
/// `char::is_uppercase` reports it.
pub uninterp spec fn uppercase_property(c: char) -> bool;

/// Whether a character counts as uppercase: in ASCII exactly `A` to `Z`,
/// beyond ASCII the Unicode `Uppercase` property.
pub open spec fn is_upper(c: char) -> bool {
    if (c as u32) < 128 {
        65 <= (c as u32) && (c as u32) <= 90
    } else {
        uppercase_property(c)
    }
}

/// Calls `char::is_uppercase`, which reports the Unicode `Uppercase`
/// property (named, not spelled out, here). Within ASCII that property
/// holds of `A` to `Z` and of no other character (Unicode's
/// DerivedCoreProperties; std's documentation shows `'C'` and `'c'`); the
/// contract says so. Beyond ASCII it says nothing of the table.
#[verifier::external_body]
fn char_is_uppercase(c: char) -> (r: bool)
    ensures
        r == uppercase_property(c),
        r == is_upper(c),
{
    c.is_uppercase()
}

/// An argument text: a variable when it starts with an uppercase letter,
/// a literal otherwise.
pub open spec fn arg_view_of(p: Seq<char>) -> ArgView {
    let first = if p.len() > 0 {
        p[0]
    } else {
        ' '
    };
    if is_upper(first) {
        ArgView::Variable(p)
    } else {
        ArgView::Literal(p)
    }
}

/// An atom text can be read: trimmed, it ends with `)`.
pub open spec fn atom_text_ok(s: Seq<char>) -> bool {
    has_suffix(trim(s), seq![')'])
}

/// The atom that a text denotes. It is negated when the text starts with
/// `not `. Its name is the text before the first `(` once the trimmed text
/// is stripped of leading `not ` and of the final `)`. Its arguments are
/// the comma-separated, trimmed, non-blank pieces between the first and the
/// second `(` of the trimmed text without its final `)`.
pub open spec fn parse_atom_view(s: Seq<char>) -> AtomView {
    let negated = has_prefix(s, not_marker());
    let t = trim(s);
    let name_src = trim_start_matches(t, not_marker()).drop_last();
    let name = trim(split_on(name_src, seq!['('])[0]);
    let parts = split_on(t.drop_last(), seq!['(']);
    let inner = if parts.len() > 1 {
        parts[1]
    } else {
        Seq::empty()
    };
    let args = nonblank_trimmed(split_on(inner, seq![','])).map_values(|p: Seq<char>| arg_view_of(p));
    AtomView {
        predicate: PredicateView { name: name, arity: (args.len() % 256) as u8 },
        args: args,
        negated: negated,
    }
}

/// Stripping leading `not ` keeps a final `)`.
proof fn lemma_trim_not_keeps_paren(t: Seq<char>)
    requires
        has_suffix(t, seq![')']),
    ensures
        has_suffix(trim_start_matches(t, not_marker()), seq![')']),
        trim_start_matches(t, not_marker()).len() >= 1,
    decreases t.len(),
{
    if has_prefix(t, not_marker()) {
        assert(t.subrange(0, 4)[3] == ' ');
        assert(t.len() > 4) by {
            if t.len() == 4 {
                assert(t.subrange(t.len() - 1, t.len() as int)[0] == t[3]);
            }
        }
        let u = t.subrange(4, t.len() as int);
        assert(u.subrange(u.len() - 1, u.len() as int) =~= t.subrange(t.len() - 1, t.len() as int));
        lemma_trim_not_keeps_paren(u);
    }
}

/// Reads an atom from its text.
pub fn parse_atom(s: &str) -> (r: Atom)
    requires
        atom_text_ok(s@),
    ensures
        r.deep_view() == parse_atom_view(s@),
{
    let cs = chars_of(s);
    atom_from_chars(cs.as_slice())
}

/// Reads an atom from its characters.
pub fn atom_from_chars(s: &[char]) -> (r: Atom)
    requires
        atom_text_ok(s@),
    ensures
        r.deep_view() == parse_atom_view(s@),
{
    let not_text = vec!['n', 'o', 't', ' '];
    let open_paren = vec!['('];
    let comma = vec![','];
    assert(not_text@ =~= not_marker());
    assert(open_paren@ =~= seq!['(']);
    assert(comma@ =~= seq![',']);
    let negated = starts_with(s, not_text.as_slice());
    let t = trim_chars(s);
    let u = trim_start_matches_chars(t.as_slice(), not_text.as_slice());
    proof {
        lemma_trim_not_keeps_paren(t@);
    }
    let name_src = copy_range(u.as_slice(), 0, u.len() - 1);
    assert(name_src@ =~= u@.drop_last());
    let name_parts = split_chars(name_src.as_slice(), open_paren.as_slice());
    proof {
        lemma_split_scan_nonempty(name_src@, open_paren@, 0, 0);
    }
    let name = trim_chars(name_parts[0].as_slice());
    let args_src = copy_range(t.as_slice(), 0, t.len() - 1);
    assert(args_src@ =~= t@.drop_last());
    let parts = split_chars(args_src.as_slice(), open_paren.as_slice());
    let inner = if parts.len() > 1 {
        copy_range(parts[1].as_slice(), 0, parts[1].len())
    } else {
        Vec::new()
    };
    assert(parts@.len() > 1 ==> inner@ =~= views(parts@)[1]);
    let pieces = split_chars(inner.as_slice(), comma.as_slice());
    let texts = nonblank_trimmed_chars(&pieces);
    let ghost arg_views = views(texts@).map_values(|p: Seq<char>| arg_view_of(p));
    let mut args: Vec<PredicateArg> = Vec::new();
    let mut i: usize = 0;
    while i < texts.len()
        invariant
            i <= texts@.len(),
            arg_views == views(texts@).map_values(|p: Seq<char>| arg_view_of(p)),
            args@.len() == i,
            forall|j: int| 0 <= j < i ==> (#[trigger] args@[j]).deep_view() == arg_views[j],
        decreases texts.len() - i,
    {
        let text = &texts[i];
        let first = if text.len() > 0 {
            text[0]
        } else {
            ' '
        };
        let arg_name = string_from_chars(text.as_slice());
        let arg = if char_is_uppercase(first) {
            PredicateArg::Variable(Variable { name: arg_name })
        } else {
            PredicateArg::Literal(Literal { name: arg_name })
        };
        assert(arg.deep_view() == arg_views[i as int]);
        args.push(arg);
        i = i + 1;
    }
    assert(args.deep_view() =~= arg_views);
    let arity = (args.len() % 256) as u8;
    let r = Atom {
        predicate: Predicate { name: string_from_chars(name.as_slice()), arity },
        args,
        negated,
    };
    assert(name_parts@[0]@ == views(name_parts@)[0]);
    assert(r.deep_view().predicate.name == parse_atom_view(s@).predicate.name);
    assert(r.deep_view().args == parse_atom_view(s@).args);
    r
}


// ---------------------------------------------------------------------
// Ground atoms
// ---------------------------------------------------------------------
/// The ground atom that a fact's text denotes. It is negated when the text
/// starts with `not `, which is then dropped. The name is the trimmed text
/// before the first `(`. The arguments are the text after `name(` (when
/// the text starts with exactly that), without a final `)`, cut at every
/// comma and trimmed; blank pieces are kept, and an empty argument text
/// gives no arguments.
pub open spec fn ground_atom_view_of(head: Seq<char>) -> GroundAtomView {
    let negated = has_prefix(head, not_marker());
    let clean = if negated {
        head.subrange(4, head.len() as int)
    } else {
        head
    };
    let name = trim(split_on(clean, seq!['('])[0]);
    let opening = name.push('(');
    let after = if has_prefix(clean, opening) {
        clean.subrange(opening.len() as int, clean.len() as int)
    } else {
        Seq::empty()
    };
    let inner = if has_suffix(after, seq![')']) {
        after.drop_last()
    } else {
        after
    };
    let args = if inner.len() == 0 {
        Seq::empty()
    } else {
        split_on(inner, seq![',']).map_values(|p: Seq<char>| trim(p))
    };
    GroundAtomView { name: name, args: args, negated: negated }
}

/// Reads a ground atom from a fact's text.
pub fn ground_atom_from_chars(head: &[char]) -> (r: GroundAtom)
    ensures
        r.deep_view() == ground_atom_view_of(head@),
{
    let not_text = vec!['n', 'o', 't', ' '];
    let open_paren = vec!['('];
    let close_paren = vec![')'];
    let comma = vec![','];
    assert(not_text@ =~= not_marker());
    assert(open_paren@ =~= seq!['(']);
    assert(close_paren@ =~= seq![')']);
    assert(comma@ =~= seq![',']);
    let negated = starts_with(head, not_text.as_slice());
    let clean = if negated {
        copy_range(head, 4, head.len())
    } else {
        copy_range(head, 0, head.len())
    };
    assert(!negated ==> clean@ =~= head@);
    let name_parts = split_chars(clean.as_slice(), open_paren.as_slice());
    proof {
        lemma_split_scan_nonempty(clean@, open_paren@, 0, 0);
    }
    let name = trim_chars(name_parts[0].as_slice());
    assert(name@ == trim(split_on(clean@, seq!['('])[0]));
    let mut opening = copy_range(name.as_slice(), 0, name.len());
    opening.push('(');
    assert(opening@ =~= name@.push('('));
    let after = if starts_with(clean.as_slice(), opening.as_slice()) {
        copy_range(clean.as_slice(), opening.len(), clean.len())
    } else {
        Vec::new()
    };
    let inner = if ends_with(after.as_slice(), close_paren.as_slice()) {
        copy_range(after.as_slice(), 0, after.len() - 1)
    } else {
        copy_range(after.as_slice(), 0, after.len())
    };
    assert(inner@ =~= (if has_suffix(after@, seq![')']) {
        after@.drop_last()
    } else {
        after@
    }));
    let mut args: Vec<Literal> = Vec::new();
    let ghost want = if inner@.len() == 0 {
        Seq::empty()
    } else {
        split_on(inner@, seq![',']).map_values(|p: Seq<char>| trim(p))
    };
    if inner.len() > 0 {
        let pieces = split_chars(inner.as_slice(), comma.as_slice());
        let mut i: usize = 0;
        while i < pieces.len()
            invariant
                i <= pieces@.len(),
                views(pieces@) == split_on(inner@, seq![',']),
                want == views(pieces@).map_values(|p: Seq<char>| trim(p)),
                args@.len() == i,
                forall|j: int| 0 <= j < i ==> (#[trigger] args@[j]).deep_view() == want[j],
            decreases pieces.len() - i,
        {
            let t = trim_chars(pieces[i].as_slice());
            args.push(Literal { name: string_from_chars(t.as_slice()) });
            i = i + 1;
        }
    }
    assert(args.deep_view() =~= want);
    GroundAtom { name: string_from_chars(name.as_slice()), args, negated }
}

// ---------------------------------------------------------------------
// Choice heads and the `regex` crate
// ---------------------------------------------------------------------
/// The pattern of a choice head `min{choice}max`: digits, a brace, any
/// text, a brace, digits.
pub const CHOICE_HEAD_PATTERN: &'static str = "(?<min>\\d+)\\{(?<choice>.*)\\}(?<max>\\d+)";

/// The pattern of a choice head, as characters.
pub open spec fn choice_head_pattern() -> Seq<char> {
    CHOICE_HEAD_PATTERN@
}

/// What the first match that `regex::Regex::captures_iter` finds of
/// `pattern` in `haystack` gives for the three named groups (`None` for a
/// group that did not take part); `None` when there is no match or the
/// pattern does not compile.
pub uninterp spec fn regex_first_captures(
    pattern: Seq<char>,
    haystack: Seq<char>,
    first: Seq<char>,
    second: Seq<char>,
    third: Seq<char>,
) -> Option<(Option<Seq<char>>, Option<Seq<char>>, Option<Seq<char>>)>;

/// Compiles `pattern` with `regex::Regex::new` and takes the first item of
/// `Regex::captures_iter` on `haystack`; returns the text of three named
/// groups of that match (`Captures::name`). The contract only names the
/// result: it is a function of the arguments and nothing else.
#[verifier::external_body]
fn first_captures(pattern: &str, haystack: &[char], first: &str, second: &str, third: &str) -> (r:
    Option<(Option<String>, Option<String>, Option<String>)>)
    ensures
        r.deep_view() == regex_first_captures(pattern@, haystack@, first@, second@, third@),
{
    let text = String::from_iter(haystack.iter());
    let re = match regex::Regex::new(pattern) {
        Ok(re) => re,
        Err(_) => return None,
    };
    let caps = re.captures_iter(&text).next()?;
    let a = caps.name(first).map(|m| m.as_str().to_string());
    let b = caps.name(second).map(|m| m.as_str().to_string());
    let c = caps.name(third).map(|m| m.as_str().to_string());
    Some((a, b, c))
}

/// The groups `min`, `choice` and `max` of the choice-head pattern in a head.
pub open spec fn choice_head_captures(head: Seq<char>) -> Option<
    (Option<Seq<char>>, Option<Seq<char>>, Option<Seq<char>>),
> {
    regex_first_captures(choice_head_pattern(), head, "min"@, "choice"@, "max"@)
}

/// The choice atom text and the condition text of `atom : body`: the
/// trimmed pieces before the first `:` and between the first and the second.
pub open spec fn choice_parts(choice: Seq<char>) -> (Seq<char>, Seq<char>) {
    let pieces = split_on(choice, seq![':']);
    (trim(pieces[0]), if pieces.len() > 1 {
        trim(pieces[1])
    } else {
        Seq::empty()
    })
}

/// A head can be read with the captures the pattern gave: a choice head
/// has both bounds and readable atom texts, any other head is a readable
/// atom text.
pub open spec fn head_text_ok(
    head: Seq<char>,
    caps: Option<(Option<Seq<char>>, Option<Seq<char>>, Option<Seq<char>>)>,
) -> bool {
    match caps {
        Some((mn, Some(choice), mx)) => mn is Some && mx is Some && atom_text_ok(
            choice_parts(choice).0,
        ) && atom_text_ok(choice_parts(choice).1),
        _ => atom_text_ok(head),
    }
}

/// The rule that a non-empty head, the captures of the choice-head
/// pattern on it, a body and an identifier make: a choice rule when the
/// `choice` group matched (bounds read as `u16`, 0 when they do not read),
/// otherwise a regular rule whose head is the atom the head text denotes.
pub open spec fn rule_view_from_head(
    head: Seq<char>,
    caps: Option<(Option<Seq<char>>, Option<Seq<char>>, Option<Seq<char>>)>,
    body: Seq<AtomView>,
    id: usize,
) -> RuleView {
    match caps {
        Some((mn, Some(choice), mx)) => RuleView {
            head: Some(
                HeadView::Choice(
                    ChoiceView {
                        min: u16_or_zero(mn->0),
                        max: u16_or_zero(mx->0),
                        choice_atom: parse_atom_view(choice_parts(choice).0),
                        body_atoms: seq![parse_atom_view(choice_parts(choice).1)],
                    },
                ),
            ),
            body: body,
            kind: RuleKind::Choice,
            id: id,
        },
        _ => RuleView {
            head: Some(HeadView::Atom(parse_atom_view(head))),
            body: body,
            kind: RuleKind::Regular,
            id: id,
        },
    }
}

/// Splits the inside of a choice head into its atom text and its
/// condition text.
fn choice_parts_chars(choice: &[char]) -> (r: (Vec<char>, Vec<char>))
    ensures
        (r.0@, r.1@) == choice_parts(choice@),
{
    let colon = vec![':'];
    assert(colon@ =~= seq![':']);
    let pieces = split_chars(choice, colon.as_slice());
    proof {
        lemma_split_scan_nonempty(choice@, colon@, 0, 0);
    }
    let atom_text = trim_chars(pieces[0].as_slice());
    let body_text = if pieces.len() > 1 {
        trim_chars(pieces[1].as_slice())
    } else {
        Vec::new()
    };
    assert(pieces.len() <= 1 ==> body_text@ =~= Seq::<char>::empty());
    (atom_text, body_text)
}

/// Tests whether a head can be read with the captures the pattern gave.
fn head_text_check(head: &[char], caps: &Option<(Option<String>, Option<String>, Option<String>)>) -> (r:
    bool)
    ensures
        r == head_text_ok(head@, caps.deep_view()),
{
    match caps {
        Some((mn, Some(choice), mx)) => {
            if mn.is_none() || mx.is_none() {
                return false;
            }
            let choice_chars = chars_of(choice.as_str());
            let (atom_text, body_text) = choice_parts_chars(choice_chars.as_slice());
            atom_text_check(atom_text.as_slice()) && atom_text_check(body_text.as_slice())
        },
        _ => atom_text_check(head),
    }
}

/// Tests whether an atom text can be read.
pub fn atom_text_check(s: &[char]) -> (r: bool)
    ensures
        r == atom_text_ok(s@),
{
    let close_paren = vec![')'];
    assert(close_paren@ =~= seq![')']);
    let t = trim_chars(s);
    ends_with(t.as_slice(), close_paren.as_slice())
}

/// The rule that a non-empty head, the captures of the choice-head pattern
/// on it, a body and an identifier make.
pub fn rule_from_head(
    head: &[char],
    caps: &Option<(Option<String>, Option<String>, Option<String>)>,
    body: Vec<Atom>,
    id: usize,
) -> (r: Rule)
    requires
        head_text_ok(head@, caps.deep_view()),
    ensures
        r.deep_view() == rule_view_from_head(head@, caps.deep_view(), body.deep_view(), id),
{
    match caps {
        Some((Some(mn), Some(choice), Some(mx))) => {
            let choice_chars = chars_of(choice.as_str());
            let (atom_text, body_text) = choice_parts_chars(choice_chars.as_slice());
            let min_chars = chars_of(mn.as_str());
            let max_chars = chars_of(mx.as_str());
            let statement = ChoiceStatement {
                min: parse_u16_or_zero(min_chars.as_slice()),
                max: parse_u16_or_zero(max_chars.as_slice()),
                choice_atom: atom_from_chars(atom_text.as_slice()),
                body_atoms: vec![atom_from_chars(body_text.as_slice())],
            };
            let r = Rule::new(Some(RuleHead::Choice(statement)), body, RuleKind::Choice, id);
            assert(statement.deep_view().body_atoms =~= seq![parse_atom_view(body_text@)]);
            r
        },
        _ => Rule::new(Some(RuleHead::Atom(atom_from_chars(head))), body, RuleKind::Regular, id),
    }
}

// ---------------------------------------------------------------------
// Statements
// ---------------------------------------------------------------------
/// The text `:-` between the head and the body of a rule.
pub open spec fn rule_marker() -> Seq<char> {
    seq![':', '-']
}

/// The head of a statement: the trimmed text before the first `:-`.
pub open spec fn statement_head(s: Seq<char>) -> Seq<char> {
    trim(split_on(s, rule_marker())[0])
}

/// The body text of a rule: the trimmed text between the first and the
/// second `:-` once trailing dots are removed.
pub open spec fn statement_body_text(s: Seq<char>) -> Seq<char> {
    let parts = split_on(trim_end_matches(s, '.'), rule_marker());
    if parts.len() > 1 {
        trim(parts[1])
    } else {
        Seq::empty()
    }
}

/// The body atoms of a rule: its body text cut at the commas outside
/// parentheses, each piece read as an atom.
pub open spec fn statement_body(s: Seq<char>) -> Seq<AtomView> {
    top_level_parts(statement_body_text(s)).map_values(|a: Seq<char>| parse_atom_view(a))
}

/// A statement can be read: for a rule, every body atom text and the head
/// can be read.
pub open spec fn rule_text_ok(s: Seq<char>) -> bool {
    contains(s, rule_marker()) ==> {
        &&& forall|i: int|
            0 <= i < top_level_parts(statement_body_text(s)).len() ==> atom_text_ok(
                #[trigger] top_level_parts(statement_body_text(s))[i],
            )
        &&& statement_head(s).len() > 0 ==> head_text_ok(
            statement_head(s),
            choice_head_captures(statement_head(s)),
        )
    }
}

/// What a statement denotes, with `id` for the rule it may be: a ground
/// atom when it has no `:-`; otherwise a constraint when the head is empty,
/// or the rule that the head and its choice-pattern captures make.
pub open spec fn parse_rule_view(s: Seq<char>, id: usize) -> ParsedRuleView {
    let head = statement_head(s);
    if !contains(s, rule_marker()) {
        ParsedRuleView::GroundAtom(ground_atom_view_of(head))
    } else if head.len() == 0 {
        ParsedRuleView::Rule(
            RuleView { head: None, body: statement_body(s), kind: RuleKind::Constraint, id: id },
        )
    } else {
        ParsedRuleView::Rule(rule_view_from_head(head, choice_head_captures(head), statement_body(s), id))
    }
}

/// The head text of a statement.
fn statement_head_chars(s: &[char]) -> (r: Vec<char>)
    ensures
        r@ == statement_head(s@),
{
    let marker = vec![':', '-'];
    assert(marker@ =~= rule_marker());
    let parts = split_chars(s, marker.as_slice());
    proof {
        lemma_split_scan_nonempty(s@, marker@, 0, 0);
    }
    trim_chars(parts[0].as_slice())
}

/// The body atom texts of a statement.
fn statement_body_parts(s: &[char]) -> (r: Vec<Vec<char>>)
    ensures
        views(r@) == top_level_parts(statement_body_text(s@)),
{
    let marker = vec![':', '-'];
    assert(marker@ =~= rule_marker());
    let undotted = trim_end_matches_char(s, '.');
    let parts = split_chars(undotted.as_slice(), marker.as_slice());
    let body_text = if parts.len() > 1 {
        trim_chars(parts[1].as_slice())
    } else {
        Vec::new()
    };
    assert(parts.len() <= 1 ==> body_text@ =~= Seq::<char>::empty());
    top_level_parts_chars(body_text.as_slice())
}

/// Tests whether a statement can be read.
pub fn rule_text_check(s: &[char]) -> (r: bool)
    ensures
        r == rule_text_ok(s@),
{
    let marker = vec![':', '-'];
    assert(marker@ =~= rule_marker());
    if !contains_chars(s, marker.as_slice()) {
        return true;
    }
    let texts = statement_body_parts(s);
    let mut i: usize = 0;
    while i < texts.len()
        invariant
            i <= texts@.len(),
            views(texts@) == top_level_parts(statement_body_text(s@)),
            contains(s@, rule_marker()),
            forall|j: int| 0 <= j < i ==> atom_text_ok(#[trigger] views(texts@)[j]),
        decreases texts.len() - i,
    {
        if !atom_text_check(texts[i].as_slice()) {
            assert(!atom_text_ok(top_level_parts(statement_body_text(s@))[i as int]));
            return false;
        }
        i = i + 1;
    }
    let head = statement_head_chars(s);
    if head.len() == 0 {
        return true;
    }
    let caps = first_captures(CHOICE_HEAD_PATTERN, head.as_slice(), "min", "choice", "max");
    head_text_check(head.as_slice(), &caps)
}

/// Reads a statement from its characters; rules get the identifier `id`.
pub fn parse_rule_chars(s: &[char], id: usize) -> (r: ParsedRule)
    requires
        rule_text_ok(s@),
    ensures
        r.deep_view() == parse_rule_view(s@, id),
{
    let marker = vec![':', '-'];
    assert(marker@ =~= rule_marker());
    let head = statement_head_chars(s);
    if !contains_chars(s, marker.as_slice()) {
        return ParsedRule::GroundAtom(ground_atom_from_chars(head.as_slice()));
    }
    let texts = statement_body_parts(s);
    let ghost want = statement_body(s@);
    let mut atoms: Vec<Atom> = Vec::new();
    let mut i: usize = 0;
    while i < texts.len()
        invariant
            i <= texts@.len(),
            views(texts@) == top_level_parts(statement_body_text(s@)),
            want == views(texts@).map_values(|a: Seq<char>| parse_atom_view(a)),
            forall|j: int| 0 <= j < texts@.len() ==> atom_text_ok(#[trigger] views(texts@)[j]),
            atoms@.len() == i,
            forall|j: int| 0 <= j < i ==> (#[trigger] atoms@[j]).deep_view() == want[j],
        decreases texts.len() - i,
    {
        assert(atom_text_ok(views(texts@)[i as int]));
        atoms.push(atom_from_chars(texts[i].as_slice()));
        i = i + 1;
    }
    assert(atoms.deep_view() =~= want);
    if head.len() == 0 {
        return ParsedRule::Rule(Rule::new(None, atoms, RuleKind::Constraint, id));
    }
    let caps = first_captures(CHOICE_HEAD_PATTERN, head.as_slice(), "min", "choice", "max");
    ParsedRule::Rule(rule_from_head(head.as_slice(), &caps, atoms, id))
}

/// Reads a statement; rules get the identifier `id`.
pub fn parse_rule(s: &str, id: usize) -> (r: ParsedRule)
    requires
        rule_text_ok(s@),
    ensures
        r.deep_view() == parse_rule_view(s@, id),
{
    let cs = chars_of(s);
    parse_rule_chars(cs.as_slice(), id)
}


/// Reads a statement when it can be read, and gives `None` otherwise
/// (where `parse_rule` may not be called).
pub fn try_parse_rule(s: &str, id: usize) -> (r: Option<ParsedRule>)
    ensures
        r is Some <==> rule_text_ok(s@),
        r matches Some(p) ==> p.deep_view() == parse_rule_view(s@, id),
{
    let cs = chars_of(s);
    if rule_text_check(cs.as_slice()) {
        Some(parse_rule(s, id))
    } else {
        None
    }
}

// ---------------------------------------------------------------------
// Programs
// ---------------------------------------------------------------------
/// The statements of one line: none when the trimmed line is blank or
/// starts with `%`, otherwise its non-blank pieces between dots, trimmed.
pub open spec fn line_statements(line: Seq<char>) -> Seq<Seq<char>> {
    let t = trim(line);
    if t.len() == 0 || t[0] == '%' {
        Seq::empty()
    } else {
        nonblank_trimmed(split_on(t, seq!['.']))
    }
}

/// The statements of a sequence of lines, in order.
pub open spec fn lines_statements(lines: Seq<Seq<char>>) -> Seq<Seq<char>>
    decreases lines.len(),
{
    if lines.len() == 0 {
        Seq::empty()
    } else {
        lines_statements(lines.drop_last()) + line_statements(lines.last())
    }
}

/// The statements of a source text, in order. The lines are taken as the
/// pieces between newlines; `lemma_std_lines_statements` shows that the
/// lines `str::lines` gives have the same statements.
pub open spec fn source_statements(source: Seq<char>) -> Seq<Seq<char>> {
    lines_statements(split_on(source, seq!['\n']))
}

/// The identifier of the rule read after `k` others when numbering starts
/// at `first`: `first + k`, wrapping around past `usize::MAX` as a counter
/// of `usize` does.
pub open spec fn rule_id(first: usize, k: int) -> usize {
    if first + k > usize::MAX {
        (first + k - (usize::MAX + 1)) as usize
    } else {
        (first + k) as usize
    }
}

/// The program that a sequence of statements makes: each is read in turn,
/// ground atoms collected in order, and rules collected in order with
/// identifiers `first`, `first + 1`, `first + 2`, ...
pub open spec fn program_of(statements: Seq<Seq<char>>, first: usize) -> ProgramView
    decreases statements.len(),
{
    if statements.len() == 0 {
        ProgramView { rules: Seq::empty(), ground_atoms: Seq::empty() }
    } else {
        let p = program_of(statements.drop_last(), first);
        match parse_rule_view(statements.last(), rule_id(first, p.rules.len() as int)) {
            ParsedRuleView::Rule(r) => ProgramView {
                rules: p.rules.push(r),
                ground_atoms: p.ground_atoms,
            },
            ParsedRuleView::GroundAtom(g) => ProgramView {
                rules: p.rules,
                ground_atoms: p.ground_atoms.push(g),
            },
        }
    }
}

/// The program that a source text denotes when its rules are numbered from
/// `first` on.
pub open spec fn parse_view_from(source: Seq<char>, first: usize) -> ProgramView {
    program_of(source_statements(source), first)
}

/// The program that a source text denotes, its rules numbered from 0.
pub open spec fn parse_view(source: Seq<char>) -> ProgramView {
    parse_view_from(source, 0)
}

/// Every statement of the source can be read.
pub open spec fn source_ok(source: Seq<char>) -> bool {
    forall|i: int|
        0 <= i < source_statements(source).len() ==> rule_text_ok(
            #[trigger] source_statements(source)[i],
        )
}

/// The statements of a source text.
pub fn source_statements_chars(source: &[char]) -> (r: Vec<Vec<char>>)
    ensures
        views(r@) == source_statements(source@),
{
    let newline = vec!['\n'];
    let dot = vec!['.'];
    assert(newline@ =~= seq!['\n']);
    assert(dot@ =~= seq!['.']);
    let lines = split_chars(source, newline.as_slice());
    let mut out: Vec<Vec<char>> = Vec::new();
    let mut i: usize = 0;
    while i < lines.len()
        invariant
            i <= lines@.len(),
            dot@ == seq!['.'],
            views(lines@) == split_on(source@, seq!['\n']),
            views(out@) == lines_statements(views(lines@).take(i as int)),
        decreases lines.len() - i,
    {
        assert(views(lines@).take(i + 1).drop_last() =~= views(lines@).take(i as int));
        let t = trim_chars(lines[i].as_slice());
        if t.len() > 0 && t[0] != '%' {
            let pieces = split_chars(t.as_slice(), dot.as_slice());
            let mut stmts = nonblank_trimmed_chars(&pieces);
            let ghost before = out@;
            let ghost added = stmts@;
            out.append(&mut stmts);
            assert(views(out@) =~= views(before) + views(added));
        } else {
            assert(line_statements(views(lines@)[i as int]) =~= Seq::<Seq<char>>::empty());
            assert(views(out@) =~= views(out@) + Seq::<Seq<char>>::empty());
        }
        i = i + 1;
    }
    assert(views(lines@).take(i as int) =~= views(lines@));
    out
}

/// Reads a program, numbering its rules `first_id`, `first_id + 1`, ... in
/// order (wrapping past `usize::MAX`), so that rules read by successive
/// calls can be kept apart: a later call passes on the identifier after the
/// last one used.
pub fn parse_numbered(source: &str, first_id: usize) -> (r: Program)
    requires
        source_ok(source@),
    ensures
        r.deep_view() == parse_view_from(source@, first_id),
{
    let cs = chars_of(source);
    let statements = source_statements_chars(cs.as_slice());
    let ghost texts = views(statements@);
    let mut rules: Vec<Rule> = Vec::new();
    let mut ground_atoms: Vec<GroundAtom> = Vec::new();
    let mut i: usize = 0;
    assert(texts.take(0) =~= Seq::<Seq<char>>::empty());
    assert(rules.deep_view() =~= Seq::<RuleView>::empty());
    assert(ground_atoms.deep_view() =~= Seq::<GroundAtomView>::empty());
    while i < statements.len()
        invariant
            i <= statements@.len(),
            texts == views(statements@),
            texts == source_statements(source@),
            source_ok(source@),
            (ProgramView { rules: rules.deep_view(), ground_atoms: ground_atoms.deep_view() })
                == program_of(texts.take(i as int), first_id),
        decreases statements.len() - i,
    {
        assert(texts.take(i + 1).drop_last() =~= texts.take(i as int));
        assert(texts.take(i + 1).last() == statements@[i as int]@);
        assert(rule_text_ok(source_statements(source@)[i as int]));
        let ghost rules_before = rules.deep_view();
        let ghost atoms_before = ground_atoms.deep_view();
        let id = first_id.wrapping_add(rules.len());
        assert(id == rule_id(first_id, rules_before.len() as int));
        match parse_rule_chars(statements[i].as_slice(), id) {
            ParsedRule::Rule(r) => {
                let ghost rv = r.deep_view();
                rules.push(r);
                assert(rules.deep_view() =~= rules_before.push(rv));
            },
            ParsedRule::GroundAtom(g) => {
                let ghost gv = g.deep_view();
                ground_atoms.push(g);
                assert(ground_atoms.deep_view() =~= atoms_before.push(gv));
            },
        }
        i = i + 1;
    }
    assert(texts.take(i as int) =~= texts);
    Program { rules, ground_atoms }
}

/// Reads a program; its rules are numbered 0, 1, 2, ... in order.
pub fn parse(source: &str) -> (r: Program)
    requires
        source_ok(source@),
    ensures
        r.deep_view() == parse_view(source@),
{
    parse_numbered(source, 0)
}

/// Tests whether every statement of a source text can be read.
pub fn source_check(source: &str) -> (r: bool)
    ensures
        r == source_ok(source@),
{
    let cs = chars_of(source);
    let statements = source_statements_chars(cs.as_slice());
    let mut i: usize = 0;
    while i < statements.len()
        invariant
            i <= statements@.len(),
            views(statements@) == source_statements(source@),
            forall|j: int| 0 <= j < i ==> rule_text_ok(#[trigger] source_statements(source@)[j]),
        decreases statements.len() - i,
    {
        if !rule_text_check(statements[i].as_slice()) {
            assert(!rule_text_ok(source_statements(source@)[i as int]));
            return false;
        }
        i = i + 1;
    }
    true
}

/// Reads a program when every statement can be read, and gives `None`
/// otherwise (where `parse` may not be called).
pub fn try_parse(source: &str) -> (r: Option<Program>)
    ensures
        r is Some <==> source_ok(source@),
        r matches Some(p) ==> p.deep_view() == parse_view(source@),
{
    if source_check(source) {
        Some(parse(source))
    } else {
        None
    }
}


// ---------------------------------------------------------------------
// Laws of reading
// ---------------------------------------------------------------------
/// The rules that reading makes are numbered `first`, `first + 1`, ... in
/// order, none is a fact rule, and every statement becomes exactly one rule
/// or one ground atom.
pub proof fn lemma_program_of_shape(statements: Seq<Seq<char>>, first: usize)
    ensures
        forall|i: int|
            0 <= i < program_of(statements, first).rules.len() ==> (#[trigger] program_of(
                statements,
                first,
            ).rules[i]).id == rule_id(first, i),
        forall|i: int|
            0 <= i < program_of(statements, first).rules.len() ==> !((#[trigger] program_of(
                statements,
                first,
            ).rules[i]).kind is Fact),
        program_of(statements, first).rules.len() + program_of(statements, first).ground_atoms.len()
            == statements.len(),
    decreases statements.len(),
{
    if statements.len() > 0 {
        lemma_program_of_shape(statements.drop_last(), first);
        let p = program_of(statements.drop_last(), first);
        let last = statements.last();
        let id = rule_id(first, p.rules.len() as int);
        match parse_rule_view(last, id) {
            ParsedRuleView::Rule(r) => {
                assert(r.id == id);
                assert(!(r.kind is Fact));
            },
            ParsedRuleView::GroundAtom(g) => {},
        }
    }
}

/// Reading a source text with numbering from `first` numbers its rules
/// `first`, `first + 1`, ... in order (wrapping past `usize::MAX`), makes
/// no fact rules, and turns each statement into one rule or one ground
/// atom. Numbering from 0, as `parse` does, the `i`-th rule gets `i`.
pub proof fn lemma_parse_shape(source: Seq<char>, first: usize)
    ensures
        forall|i: int|
            0 <= i < parse_view_from(source, first).rules.len() ==> (#[trigger] parse_view_from(
                source,
                first,
            ).rules[i]).id == rule_id(first, i),
        forall|i: int|
            0 <= i < parse_view_from(source, first).rules.len() ==> !((#[trigger] parse_view_from(
                source,
                first,
            ).rules[i]).kind is Fact),
        parse_view_from(source, first).rules.len() + parse_view_from(source, first).ground_atoms.len()
            == source_statements(source).len(),
        forall|i: int| 0 <= i <= usize::MAX ==> #[trigger] rule_id(0, i) == i,
{
    lemma_program_of_shape(source_statements(source), first);
}

/// Every piece that `split_top_level_commas` gives is non-empty and has no
/// white space at either end.
pub proof fn lemma_top_level_parts_trimmed(s: Seq<char>)
    ensures
        forall|i: int|
            0 <= i < top_level_parts(s).len() ==> (#[trigger] top_level_parts(s)[i]).len() > 0
                && top_level_parts(s)[i] == trim(top_level_parts(s)[i]),
{
    lemma_nonblank_trimmed_trimmed(top_level_scan(s, 0, Seq::empty()));
}

/// The pieces that `nonblank_trimmed` keeps are non-empty and trimmed.
proof fn lemma_nonblank_trimmed_trimmed(pieces: Seq<Seq<char>>)
    ensures
        forall|i: int|
            0 <= i < nonblank_trimmed(pieces).len() ==> (#[trigger] nonblank_trimmed(pieces)[i]).len()
                > 0 && nonblank_trimmed(pieces)[i] == trim(nonblank_trimmed(pieces)[i]),
    decreases pieces.len(),
{
    if pieces.len() > 0 {
        lemma_nonblank_trimmed_trimmed(pieces.drop_last());
        crate::text::lemma_trim_idempotent(pieces.last());
        let r = nonblank_trimmed(pieces.drop_last());
        let t = trim(pieces.last());
        assert forall|i: int| 0 <= i < nonblank_trimmed(pieces).len() implies (#[trigger] nonblank_trimmed(pieces)[i]).len()
            > 0 && nonblank_trimmed(pieces)[i] == trim(nonblank_trimmed(pieces)[i]) by {
            if i < r.len() {
                assert(nonblank_trimmed(pieces)[i] == r[i]);
            }
        }
    }
}


/// The statements of consecutive lines are those of each part in turn.
proof fn lemma_lines_statements_concat(l1: Seq<Seq<char>>, l2: Seq<Seq<char>>)
    ensures
        lines_statements(l1 + l2) == lines_statements(l1) + lines_statements(l2),
    decreases l2.len(),
{
    if l2.len() == 0 {
        assert(l1 + l2 =~= l1);
        assert(lines_statements(l1) + Seq::<Seq<char>>::empty() =~= lines_statements(l1));
    } else {
        lemma_lines_statements_concat(l1, l2.drop_last());
        assert((l1 + l2).drop_last() =~= l1 + l2.drop_last());
        assert((l1 + l2).last() == l2.last());
        assert(lines_statements(l1) + lines_statements(l2.drop_last()) + line_statements(l2.last())
            =~= lines_statements(l1) + (lines_statements(l2.drop_last()) + line_statements(
            l2.last(),
        )));
    }
}

/// A blank line, or a comment line (one whose trimmed text starts with
/// `%`), contributes nothing: putting it between two parts of a source
/// leaves the statements, and so the program read (rules, their
/// identifiers and ground atoms), as they are without it.
pub proof fn lemma_blank_or_comment_line_ignored(
    a: Seq<char>,
    c: Seq<char>,
    b: Seq<char>,
    first: usize,
)
    requires
        forall|k: int| 0 <= k < c.len() ==> c[k] != '\n',
        trim(c).len() == 0 || trim(c)[0] == '%',
    ensures
        source_statements(a + seq!['\n'] + c + seq!['\n'] + b) == source_statements(
            a + seq!['\n'] + b,
        ),
        parse_view_from(a + seq!['\n'] + c + seq!['\n'] + b, first) == parse_view_from(
            a + seq!['\n'] + b,
            first,
        ),
{
    let nl = seq!['\n'];
    let la = split_on(a, nl);
    let lb = split_on(b, nl);
    crate::text::lemma_split_on_join(a + nl + c, b, '\n');
    crate::text::lemma_split_on_join(a, c, '\n');
    crate::text::lemma_split_on_join(c, b, '\n');
    crate::text::lemma_split_on_join(a, b, '\n');
    assert(split_on(a + nl + c + nl + b, nl) == la + seq![c] + lb);
    lemma_lines_statements_concat(la + seq![c], lb);
    lemma_lines_statements_concat(la, seq![c]);
    assert(seq![c].drop_last() =~= Seq::<Seq<char>>::empty());
    assert(seq![c].last() == c);
    assert(lines_statements(Seq::<Seq<char>>::empty()) == Seq::<Seq<char>>::empty());
    assert(line_statements(c) =~= Seq::<Seq<char>>::empty());
    assert(lines_statements(seq![c]) == lines_statements(seq![c].drop_last()) + line_statements(c));
    assert(lines_statements(seq![c]) =~= Seq::<Seq<char>>::empty());
    lemma_lines_statements_concat(la, lb);
    assert(lines_statements(la) + Seq::<Seq<char>>::empty() =~= lines_statements(la));
}


/// Numbering goes on where it stopped: reading a second source from the
/// identifier after the `n` rules of a first one numbers its rules as if
/// both had been read in one go from the first identifier; and no two of
/// the first `usize::MAX + 1` rules numbered from any start share an
/// identifier.
pub proof fn lemma_rule_ids_continue(first: usize, n: int, i: int, j: int)
    requires
        0 <= n,
        0 <= i,
        n + i <= usize::MAX,
    ensures
        rule_id(rule_id(first, n), i) == rule_id(first, n + i),
        0 <= i < j <= usize::MAX ==> rule_id(first, i) != rule_id(first, j),
{
}


/// A line without a final carriage return.
pub open spec fn strip_cr(p: Seq<char>) -> Seq<char> {
    if p.len() > 0 && p.last() == '\r' {
        p.drop_last()
    } else {
        p
    }
}

/// The lines that `str::lines` gives: the pieces between newlines, each
/// that a newline ends without the carriage return just before it, and
/// without a final empty piece (a text that ends with a line ending, or is
/// empty, has no empty last line).
pub open spec fn std_lines(s: Seq<char>) -> Seq<Seq<char>> {
    let ps = split_on(s, seq!['\n']);
    let n = if ps.len() > 0 && ps.last().len() == 0 {
        ps.len() - 1
    } else {
        ps.len() as int
    };
    Seq::new(
        n as nat,
        |i: int|
            if i < ps.len() - 1 {
                strip_cr(ps[i])
            } else {
                ps[i]
            },
    )
}

/// Lines with the same trimmed texts have the same statements.
proof fn lemma_lines_statements_trim(a: Seq<Seq<char>>, b: Seq<Seq<char>>)
    requires
        a.len() == b.len(),
        forall|i: int| 0 <= i < a.len() ==> trim(#[trigger] a[i]) == trim(b[i]),
    ensures
        lines_statements(a) == lines_statements(b),
    decreases a.len(),
{
    if a.len() > 0 {
        assert forall|i: int| 0 <= i < a.drop_last().len() implies trim(#[trigger] a.drop_last()[i]) == trim(
            b.drop_last()[i],
        ) by {
            assert(a.drop_last()[i] == a[i] && b.drop_last()[i] == b[i]);
        }
        lemma_lines_statements_trim(a.drop_last(), b.drop_last());
        assert(trim(a[a.len() - 1]) == trim(b[b.len() - 1]));
    }
}

/// Reading the lines as `str::lines` gives them yields the statements
/// `source_statements` takes from the pieces between newlines: a carriage
/// return before a newline is white space that trimming removes, and a
/// final empty line has no statements.
pub proof fn lemma_std_lines_statements(s: Seq<char>)
    ensures
        lines_statements(std_lines(s)) == source_statements(s),
{
    let ps = split_on(s, seq!['\n']);
    lemma_split_scan_nonempty(s, seq!['\n'], 0, 0);
    let q = Seq::new(
        ps.len(),
        |i: int|
            if i < ps.len() - 1 {
                strip_cr(ps[i])
            } else {
                ps[i]
            },
    );
    assert forall|i: int| 0 <= i < q.len() implies trim(#[trigger] q[i]) == trim(ps[i]) by {
        if i < ps.len() - 1 && ps[i].len() > 0 && ps[i].last() == '\r' {
            crate::text::lemma_trim_push_space(ps[i].drop_last(), '\r');
            assert(ps[i].drop_last().push('\r') =~= ps[i]);
        }
    }
    lemma_lines_statements_trim(q, ps);
    if ps.last().len() == 0 {
        assert(std_lines(s) =~= q.drop_last());
        assert(q.last() == ps.last());
        assert(trim(q.last()) =~= Seq::<char>::empty());
        assert(line_statements(q.last()) =~= Seq::<Seq<char>>::empty());
        assert(lines_statements(q) == lines_statements(q.drop_last()) + line_statements(q.last()));
        assert(lines_statements(q.drop_last()) + Seq::<Seq<char>>::empty() =~= lines_statements(q.drop_last()));
    } else {
        assert(std_lines(s) =~= q);
    }
}


/// `s` starts with the four characters `n`, `o`, `t` and a space.
pub open spec fn starts_with_not_space(s: Seq<char>) -> bool {
    s.len() >= 4 && s[0] == 'n' && s[1] == 'o' && s[2] == 't' && s[3] == ' '
}

/// Having the prefix `not ` is starting with those four characters.
proof fn lemma_not_marker_prefix(s: Seq<char>)
    ensures
        has_prefix(s, not_marker()) <==> starts_with_not_space(s),
{
    if starts_with_not_space(s) {
        assert(s.subrange(0, 4) =~= not_marker());
    }
    if has_prefix(s, not_marker()) {
        assert(s.subrange(0, 4)[0] == s[0] && s.subrange(0, 4)[1] == s[1]);
        assert(s.subrange(0, 4)[2] == s[2] && s.subrange(0, 4)[3] == s[3]);
    }
}

/// What reading an atom gives, whatever its text: it is negated exactly
/// when the text starts with `not ` (so `notice(X)` is not negated); its
/// name has no white space at either end; every argument is a non-empty
/// text without white space at either end, and it is a variable exactly
/// when its first character is uppercase; the arity is the number of
/// arguments (modulo 256, as a `u8` holds it).
pub proof fn lemma_atom_view_shape(s: Seq<char>)
    ensures
        parse_atom_view(s).negated <==> starts_with_not_space(s),
        trim(parse_atom_view(s).predicate.name) == parse_atom_view(s).predicate.name,
        parse_atom_view(s).predicate.arity == parse_atom_view(s).args.len() % 256,
        forall|i: int|
            0 <= i < parse_atom_view(s).args.len() ==> match #[trigger] parse_atom_view(s).args[i] {
                ArgView::Variable(t) => t.len() > 0 && trim(t) == t && is_upper(t[0]),
                ArgView::Literal(t) => t.len() > 0 && trim(t) == t && !is_upper(t[0]),
            },
{
    lemma_not_marker_prefix(s);
    let a = parse_atom_view(s);
    let t = trim(s);
    let name_src = trim_start_matches(t, not_marker()).drop_last();
    crate::text::lemma_trim_idempotent(split_on(name_src, seq!['('])[0]);
    let parts = split_on(t.drop_last(), seq!['(']);
    let inner = if parts.len() > 1 {
        parts[1]
    } else {
        Seq::empty()
    };
    let pieces = nonblank_trimmed(split_on(inner, seq![',']));
    lemma_nonblank_trimmed_trimmed(split_on(inner, seq![',']));
    assert forall|i: int| 0 <= i < a.args.len() implies match #[trigger] a.args[i] {
        ArgView::Variable(t) => t.len() > 0 && trim(t) == t && is_upper(t[0]),
        ArgView::Literal(t) => t.len() > 0 && trim(t) == t && !is_upper(t[0]),
    } by {
        assert(a.args[i] == arg_view_of(pieces[i]));
        assert(pieces[i].len() > 0 && pieces[i] == trim(pieces[i]));
    }
}

/// What reading a fact gives, whatever its text: it is negated exactly
/// when the text starts with `not `; its name and every one of its
/// arguments have no white space at either end.
pub proof fn lemma_ground_atom_view_shape(head: Seq<char>)
    ensures
        ground_atom_view_of(head).negated <==> starts_with_not_space(head),
        trim(ground_atom_view_of(head).name) == ground_atom_view_of(head).name,
        forall|i: int|
            0 <= i < ground_atom_view_of(head).args.len() ==> trim(
                #[trigger] ground_atom_view_of(head).args[i],
            ) == ground_atom_view_of(head).args[i],
{
    lemma_not_marker_prefix(head);
    let g = ground_atom_view_of(head);
    let clean = if has_prefix(head, not_marker()) {
        head.subrange(4, head.len() as int)
    } else {
        head
    };
    crate::text::lemma_trim_idempotent(split_on(clean, seq!['('])[0]);
    assert forall|i: int| 0 <= i < g.args.len() implies trim(#[trigger] g.args[i]) == g.args[i] by {
        let name = trim(split_on(clean, seq!['('])[0]);
        let opening = name.push('(');
        let after = if has_prefix(clean, opening) {
            clean.subrange(opening.len() as int, clean.len() as int)
        } else {
            Seq::empty()
        };
        let inner = if has_suffix(after, seq![')']) {
            after.drop_last()
        } else {
            after
        };
        let ps = split_on(inner, seq![',']);
        assert(g.args[i] == trim(ps[i]));
        crate::text::lemma_trim_idempotent(ps[i]);
    }
}


/// What reading a statement gives, whatever its text: a ground atom
/// exactly when it has no `:-`; otherwise a rule with the given identifier
/// and one body atom per top-level comma-separated piece of its body text,
/// read as an atom; its kind agrees with its head: a constraint exactly
/// when the head text is empty (and then it has no head), a choice rule
/// exactly when its head is a choice head, a regular rule exactly when its
/// head is an atom. No statement is read as a fact rule.
pub proof fn lemma_parse_rule_view_shape(s: Seq<char>, id: usize)
    ensures
        (parse_rule_view(s, id) is GroundAtom) <==> !contains(s, rule_marker()),
        parse_rule_view(s, id) matches ParsedRuleView::Rule(r) ==> {
            &&& r.id == id
            &&& r.body.len() == top_level_parts(statement_body_text(s)).len()
            &&& forall|i: int|
                0 <= i < r.body.len() ==> #[trigger] r.body[i] == parse_atom_view(
                    top_level_parts(statement_body_text(s))[i],
                )
            &&& (r.kind is Constraint) <==> statement_head(s).len() == 0
            &&& (r.kind is Constraint) <==> r.head is None
            &&& (r.kind is Choice) <==> (r.head matches Some(HeadView::Choice(_)))
            &&& (r.kind is Regular) <==> (r.head matches Some(HeadView::Atom(_)))
            &&& !(r.kind is Fact)
        },
{
}

} // verus!
