//! Character-sequence primitives that the parser is written with: trimming,
//! prefix and suffix tests, splitting on a pattern and decimal numbers.
//! Each has a spec function over `Seq<char>` and an executable version on
//! `&[char]` proved against it.
use vstd::prelude::*;

verus! {

/// The Unicode `White_Space` property, the set that `char::is_whitespace`
/// and `str::trim` go by.
pub open spec fn is_white_space(c: char) -> bool {
    let u = c as u32;
    ||| 0x9 <= u <= 0xd
    ||| u == 0x20
    ||| u == 0x85
    ||| u == 0xa0
    ||| u == 0x1680
    ||| 0x2000 <= u <= 0x200a
    ||| u == 0x2028
    ||| u == 0x2029
    ||| u == 0x202f
    ||| u == 0x205f
    ||| u == 0x3000
}

/// `s` without its leading white space.
pub open spec fn trim_start(s: Seq<char>) -> Seq<char>
    decreases s.len(),
{
    if s.len() > 0 && is_white_space(s[0]) {
        trim_start(s.drop_first())
    } else {
        s
    }
}

/// `s` without its trailing white space.
pub open spec fn trim_end(s: Seq<char>) -> Seq<char>
    decreases s.len(),
{
    if s.len() > 0 && is_white_space(s.last()) {
        trim_end(s.drop_last())
    } else {
        s
    }
}

/// `s` without leading and trailing white space, as `str::trim` gives it.
pub open spec fn trim(s: Seq<char>) -> Seq<char> {
    trim_end(trim_start(s))
}

/// A trimmed text has no white space at its ends.
pub proof fn lemma_trim_idempotent(s: Seq<char>)
    ensures
        trim(trim(s)) == trim(s),
{
    lemma_trim_start_end(s);
    let t = trim(s);
    lemma_trim_start_fixed(t);
    lemma_trim_end_fixed(t);
}

/// `trim_start` gives a text that is empty or starts with a non-space.
proof fn lemma_trim_start_end(s: Seq<char>)
    ensures
        trim_start(s).len() == 0 || !is_white_space(trim_start(s)[0]),
        trim(s).len() == 0 || (!is_white_space(trim(s)[0]) && !is_white_space(trim(s).last())),
    decreases s.len(),
{
    if s.len() > 0 && is_white_space(s[0]) {
        lemma_trim_start_end(s.drop_first());
    }
    lemma_trim_end_keeps_start(trim_start(s));
}

/// `trim_end` of a text that starts with a non-space keeps that start, and
/// ends with a non-space unless empty.
proof fn lemma_trim_end_keeps_start(s: Seq<char>)
    requires
        s.len() == 0 || !is_white_space(s[0]),
    ensures
        trim_end(s).len() == 0 || (!is_white_space(trim_end(s)[0]) && !is_white_space(
            trim_end(s).last(),
        )),
    decreases s.len(),
{
    if s.len() > 0 && is_white_space(s.last()) {
        if s.len() > 1 {
            assert(s.drop_last()[0] == s[0]);
        }
        lemma_trim_end_keeps_start(s.drop_last());
    }
}

/// `trim_start` leaves a text that starts with a non-space as it is.
proof fn lemma_trim_start_fixed(s: Seq<char>)
    requires
        s.len() == 0 || !is_white_space(s[0]),
    ensures
        trim_start(s) == s,
{
}

/// `trim_end` leaves a text that ends with a non-space as it is.
proof fn lemma_trim_end_fixed(s: Seq<char>)
    requires
        s.len() == 0 || !is_white_space(s.last()),
    ensures
        trim_end(s) == s,
{
}

/// Tests one character for white space.
pub fn char_is_white_space(c: char) -> (r: bool)
    ensures
        r == is_white_space(c),
{
    let u = c as u32;
    (0x9 <= u && u <= 0xd) || u == 0x20 || u == 0x85 || u == 0xa0 || u == 0x1680 || (0x2000
        <= u && u <= 0x200a) || u == 0x2028 || u == 0x2029 || u == 0x202f || u == 0x205f || u
        == 0x3000
}

/// A copy of `s[lo..hi]`.
pub fn copy_range(s: &[char], lo: usize, hi: usize) -> (r: Vec<char>)
    requires
        lo <= hi <= s@.len(),
    ensures
        r@ == s@.subrange(lo as int, hi as int),
{
    let mut r: Vec<char> = Vec::new();
    let mut i = lo;
    while i < hi
        invariant
            lo <= i <= hi <= s@.len(),
            r@ == s@.subrange(lo as int, i as int),
        decreases hi - i,
    {
        r.push(s[i]);
        i = i + 1;
        assert(r@ =~= s@.subrange(lo as int, i as int));
    }
    r
}

/// The characters of `s`, in order.
pub fn chars_of(s: &str) -> (r: Vec<char>)
    ensures
        r@ == s@,
{
    let mut r: Vec<char> = Vec::new();
    for c in it: s.chars()
        invariant
            r@ == it.seq().take(it.index() as int),
    {
        r.push(c);
    }
    r
}

/// `s` trimmed of white space at both ends.
pub fn trim_chars(s: &[char]) -> (r: Vec<char>)
    ensures
        r@ == trim(s@),
{
    let n = s.len();
    let mut lo: usize = 0;
    assert(s@.subrange(0, n as int) =~= s@);
    while lo < n && char_is_white_space(s[lo])
        invariant
            lo <= n == s@.len(),
            trim_start(s@) == trim_start(s@.subrange(lo as int, n as int)),
        decreases n - lo,
    {
        assert(s@.subrange(lo as int, n as int).drop_first() =~= s@.subrange(lo + 1, n as int));
        lo = lo + 1;
    }
    assert(trim_start(s@) == s@.subrange(lo as int, n as int));
    let mut hi: usize = n;
    while hi > lo && char_is_white_space(s[hi - 1])
        invariant
            lo <= hi <= n == s@.len(),
            trim(s@) == trim_end(s@.subrange(lo as int, hi as int)),
        decreases hi,
    {
        assert(s@.subrange(lo as int, hi as int).drop_last() =~= s@.subrange(lo as int, hi - 1));
        hi = hi - 1;
    }
    copy_range(s, lo, hi)
}


/// The views of a sequence of character vectors.
pub open spec fn views(v: Seq<Vec<char>>) -> Seq<Seq<char>> {
    v.map_values(|x: Vec<char>| x@)
}

/// `p` is a prefix of `s`.
pub open spec fn has_prefix(s: Seq<char>, p: Seq<char>) -> bool {
    p.len() <= s.len() && s.subrange(0, p.len() as int) == p
}

/// `p` is a suffix of `s`.
pub open spec fn has_suffix(s: Seq<char>, p: Seq<char>) -> bool {
    p.len() <= s.len() && s.subrange(s.len() - p.len(), s.len() as int) == p
}

/// `pat` occurs in `s` at position `i`.
pub open spec fn matches_at(s: Seq<char>, pat: Seq<char>, i: int) -> bool {
    0 <= i && i + pat.len() <= s.len() && s.subrange(i, i + pat.len()) == pat
}

/// `pat` occurs somewhere in `s`.
pub open spec fn contains(s: Seq<char>, pat: Seq<char>) -> bool {
    exists|i: int| matches_at(s, pat, i)
}

/// The pieces of `s` from position `start` on, when `s` is scanned left to
/// right from position `i` and each occurrence of `pat` closes the current
/// piece (the piece that is open at `i` began at `start`).
pub open spec fn split_scan(s: Seq<char>, pat: Seq<char>, start: int, i: int) -> Seq<Seq<char>>
    decreases s.len() - i,
{
    if pat.len() == 0 || i < 0 || i + pat.len() > s.len() {
        seq![s.subrange(start, s.len() as int)]
    } else if s.subrange(i, i + pat.len()) == pat {
        seq![s.subrange(start, i)] + split_scan(s, pat, i + pat.len(), i + pat.len())
    } else {
        split_scan(s, pat, start, i + 1)
    }
}

/// The pieces that `str::split` gives for a non-empty pattern: the text
/// between consecutive non-overlapping occurrences of `pat`, found from the
/// left, with the text before the first and after the last.
pub open spec fn split_on(s: Seq<char>, pat: Seq<char>) -> Seq<Seq<char>> {
    split_scan(s, pat, 0, 0)
}

/// `s` with every leading copy of `pat` removed, as `str::trim_start_matches`.
pub open spec fn trim_start_matches(s: Seq<char>, pat: Seq<char>) -> Seq<char>
    decreases s.len(),
{
    if pat.len() > 0 && has_prefix(s, pat) {
        trim_start_matches(s.subrange(pat.len() as int, s.len() as int), pat)
    } else {
        s
    }
}

/// `s` with every trailing `c` removed, as `str::trim_end_matches` with a char.
pub open spec fn trim_end_matches(s: Seq<char>, c: char) -> Seq<char>
    decreases s.len(),
{
    if s.len() > 0 && s.last() == c {
        trim_end_matches(s.drop_last(), c)
    } else {
        s
    }
}

/// Tests whether `p` is a prefix of `s`.
pub fn starts_with(s: &[char], p: &[char]) -> (r: bool)
    ensures
        r == has_prefix(s@, p@),
{
    if p.len() > s.len() {
        return false;
    }
    matches_at_pos(s, p, 0)
}

/// Tests whether `p` is a suffix of `s`.
pub fn ends_with(s: &[char], p: &[char]) -> (r: bool)
    ensures
        r == has_suffix(s@, p@),
{
    if p.len() > s.len() {
        return false;
    }
    matches_at_pos(s, p, s.len() - p.len())
}

/// Tests whether `pat` occurs in `s` at position `i`.
pub fn matches_at_pos(s: &[char], pat: &[char], i: usize) -> (r: bool)
    ensures
        r == matches_at(s@, pat@, i as int),
{
    if i > s.len() || pat.len() > s.len() - i {
        return false;
    }
    let mut k: usize = 0;
    while k < pat.len()
        invariant
            i + pat@.len() <= s@.len(),
            i + pat.len() <= s.len(),
            k <= pat@.len(),
            forall|j: int| 0 <= j < k ==> s@[i + j] == pat@[j],
        decreases pat.len() - k,
    {
        if s[i + k] != pat[k] {
            assert(s@.subrange(i as int, i + pat@.len())[k as int] != pat@[k as int]);
            return false;
        }
        k = k + 1;
    }
    assert(s@.subrange(i as int, i + pat@.len()) =~= pat@);
    true
}

/// Tests whether `pat` occurs in `s`.
pub fn contains_chars(s: &[char], pat: &[char]) -> (r: bool)
    ensures
        r == contains(s@, pat@),
{
    if pat.len() > s.len() {
        return false;
    }
    if pat.len() == 0 {
        assert(s@.subrange(0, 0) =~= pat@);
        assert(matches_at(s@, pat@, 0));
        return true;
    }
    let mut i: usize = 0;
    while i <= s.len() - pat.len()
        invariant
            0 < pat@.len() <= s@.len(),
            i <= s@.len() - pat@.len() + 1,
            forall|j: int| 0 <= j < i ==> !matches_at(s@, pat@, j),
        decreases s.len() - pat.len() + 1 - i,
    {
        if matches_at_pos(s, pat, i) {
            return true;
        }
        i = i + 1;
    }
    false
}

/// The pieces of `s` between occurrences of `pat`, as `str::split` gives them.
pub fn split_chars(s: &[char], pat: &[char]) -> (r: Vec<Vec<char>>)
    requires
        pat@.len() > 0,
    ensures
        views(r@) == split_on(s@, pat@),
{
    let mut pieces: Vec<Vec<char>> = Vec::new();
    let mut start: usize = 0;
    let mut i: usize = 0;
    while i <= s.len() && pat.len() <= s.len() - i
        invariant
            start <= i <= s@.len(),
            pat@.len() > 0,
            split_on(s@, pat@) == views(pieces@) + split_scan(s@, pat@, start as int, i as int),
        decreases s.len() - i,
    {
        let ghost before = pieces@;
        if matches_at_pos(s, pat, i) {
            let piece = copy_range(s, start, i);
            pieces.push(piece);
            assert(views(pieces@) =~= views(before) + seq![s@.subrange(start as int, i as int)]);
            i = i + pat.len();
            start = i;
        } else {
            i = i + 1;
        }
    }
    let ghost before = pieces@;
    let last = copy_range(s, start, s.len());
    pieces.push(last);
    assert(views(pieces@) =~= views(before) + seq![s@.subrange(start as int, s@.len() as int)]);
    pieces
}

/// `s` with every leading copy of `pat` removed.
pub fn trim_start_matches_chars(s: &[char], pat: &[char]) -> (r: Vec<char>)
    ensures
        r@ == trim_start_matches(s@, pat@),
{
    let n = s.len();
    if pat.len() == 0 {
        return copy_range(s, 0, n);
    }
    let mut lo: usize = 0;
    assert(s@.subrange(0, n as int) =~= s@);
    while lo <= n && pat.len() <= n - lo && matches_at_pos(s, pat, lo)
        invariant
            lo <= n == s@.len(),
            pat@.len() > 0,
            trim_start_matches(s@, pat@) == trim_start_matches(s@.subrange(lo as int, n as int), pat@),
        decreases n - lo,
    {
        let ghost t = s@.subrange(lo as int, n as int);
        assert(t.subrange(0, pat@.len() as int) =~= s@.subrange(lo as int, lo + pat@.len()));
        assert(t.subrange(pat@.len() as int, t.len() as int) =~= s@.subrange(lo + pat@.len(), n as int));
        lo = lo + pat.len();
    }
    proof {
        let t = s@.subrange(lo as int, n as int);
        if pat@.len() <= t.len() {
            assert(t.subrange(0, pat@.len() as int) =~= s@.subrange(lo as int, lo + pat@.len()));
        }
    }
    copy_range(s, lo, n)
}

/// `s` with every trailing `c` removed.
pub fn trim_end_matches_char(s: &[char], c: char) -> (r: Vec<char>)
    ensures
        r@ == trim_end_matches(s@, c),
{
    let n = s.len();
    let mut hi: usize = n;
    assert(s@.subrange(0, n as int) =~= s@);
    while hi > 0 && s[hi - 1] == c
        invariant
            hi <= n == s@.len(),
            trim_end_matches(s@, c) == trim_end_matches(s@.subrange(0, hi as int), c),
        decreases hi,
    {
        assert(s@.subrange(0, hi as int).drop_last() =~= s@.subrange(0, hi - 1));
        hi = hi - 1;
    }
    copy_range(s, 0, hi)
}


/// An ASCII decimal digit.
pub open spec fn is_ascii_digit(c: char) -> bool {
    48 <= c as u32 <= 57
}

/// The value of a string of decimal digits.
pub open spec fn digits_value(s: Seq<char>) -> nat
    decreases s.len(),
{
    if s.len() == 0 {
        0
    } else {
        digits_value(s.drop_last()) * 10 + (s.last() as u32 - 48) as nat
    }
}

/// `s` without one leading `+`, if it has one.
pub open spec fn unsigned_digits(s: Seq<char>) -> Seq<char> {
    if s.len() > 0 && s[0] == '+' {
        s.drop_first()
    } else {
        s
    }
}

/// Every character of `s` is an ASCII digit.
pub open spec fn all_ascii_digits(s: Seq<char>) -> bool {
    forall|i: int| 0 <= i < s.len() ==> is_ascii_digit(#[trigger] s[i])
}

/// What `str::parse::<u16>` accepts and gives: an optional `+` followed by
/// one or more ASCII digits whose value fits in a `u16`.
pub open spec fn parse_u16(s: Seq<char>) -> Option<u16> {
    let d = unsigned_digits(s);
    if d.len() > 0 && all_ascii_digits(d) && digits_value(d) <= u16::MAX {
        Some(digits_value(d) as u16)
    } else {
        None
    }
}

/// The number `s` spells as `str::parse::<u16>` reads it, or 0 where it
/// reads none.
pub open spec fn u16_or_zero(s: Seq<char>) -> u16 {
    match parse_u16(s) {
        Some(v) => v,
        None => 0,
    }
}

/// A longer digit string has at least the value of its prefix.
proof fn lemma_digits_value_grows(s: Seq<char>, j: int)
    requires
        0 <= j <= s.len(),
        forall|i: int| 0 <= i < s.len() ==> is_ascii_digit(#[trigger] s[i]),
    ensures
        digits_value(s.subrange(0, j)) <= digits_value(s),
    decreases s.len(),
{
    if j < s.len() {
        assert(s.drop_last().subrange(0, j) =~= s.subrange(0, j));
        lemma_digits_value_grows(s.drop_last(), j);
    } else {
        assert(s.subrange(0, j) =~= s);
    }
}

/// The number that `s` spells as `str::parse::<u16>` reads it, or 0 where it
/// reads none (`unwrap_or(0)`).
pub fn parse_u16_or_zero(s: &[char]) -> (r: u16)
    ensures
        r == u16_or_zero(s@),
{
    let n = s.len();
    let start: usize = if n > 0 && s[0] == '+' {
        1
    } else {
        0
    };
    let ghost d = unsigned_digits(s@);
    assert(d =~= s@.subrange(start as int, n as int));
    if start == n {
        return 0;
    }
    let mut value: u32 = 0;
    let mut i = start;
    while i < n
        invariant
            start <= i <= n == s@.len(),
            d == s@.subrange(start as int, n as int),
            d == unsigned_digits(s@),
            d.len() > 0,
            value as nat == digits_value(s@.subrange(start as int, i as int)),
            value <= u16::MAX,
            forall|k: int| start <= k < i ==> is_ascii_digit(#[trigger] s@[k]),
        decreases n - i,
    {
        let c = s[i];
        let u = c as u32;
        if u < 48 || u > 57 {
            assert(!is_ascii_digit(d[i - start]));
            assert(!all_ascii_digits(d));
            assert(parse_u16(s@) is None);
            return 0;
        }
        assert(s@.subrange(start as int, i + 1).drop_last() =~= s@.subrange(start as int, i as int));
        let next = value * 10 + (u - 48);
        if next > 65535 {
            proof {
                if all_ascii_digits(d) {
                    assert(d.subrange(0, i + 1 - start) =~= s@.subrange(start as int, i + 1));
                    lemma_digits_value_grows(d, i + 1 - start);
                    assert(digits_value(d) > u16::MAX);
                }
                assert(parse_u16(s@) is None);
            }
            return 0;
        }
        value = next;
        i = i + 1;
    }
    assert(all_ascii_digits(d)) by {
        assert forall|k: int| 0 <= k < d.len() implies is_ascii_digit(#[trigger] d[k]) by {
            assert(d[k] == s@[start + k]);
        }
    }
    value as u16
}

/// Builds a `String` from characters with `String::from_iter`; the string
/// holds exactly those characters, in order.
#[verifier::external_body]
pub fn string_from_chars(cs: &[char]) -> (r: String)
    ensures
        r@ == cs@,
{
    String::from_iter(cs.iter())
}


/// Splitting a text that follows a prefix `p` gives the pieces of the text
/// alone.
proof fn lemma_split_scan_shift(p: Seq<char>, y: Seq<char>, pat: Seq<char>, start: int, i: int)
    requires
        pat.len() > 0,
        0 <= start <= i <= y.len(),
    ensures
        split_scan(p + y, pat, p.len() + start, p.len() + i) == split_scan(y, pat, start, i),
    decreases y.len() - i,
{
    let s = p + y;
    if i + pat.len() > y.len() {
        assert(s.subrange(p.len() + start, s.len() as int) =~= y.subrange(start, y.len() as int));
    } else {
        assert(s.subrange(p.len() + i, p.len() + i + pat.len()) =~= y.subrange(i, i + pat.len()));
        if y.subrange(i, i + pat.len()) == pat {
            assert(s.subrange(p.len() + start, p.len() + i) =~= y.subrange(start, i));
            lemma_split_scan_shift(p, y, pat, i + pat.len(), i + pat.len());
        } else {
            lemma_split_scan_shift(p, y, pat, start, i + 1);
        }
    }
}

/// Splitting `x`, a separator `c` and `y` at `c`, from a position within
/// `x`, gives the pieces of `x` from there followed by those of `y`.
proof fn lemma_split_scan_join(x: Seq<char>, y: Seq<char>, c: char, start: int, i: int)
    requires
        0 <= start <= i <= x.len(),
    ensures
        split_scan(x + seq![c] + y, seq![c], start, i) == split_scan(x, seq![c], start, i)
            + split_on(y, seq![c]),
    decreases x.len() - i,
{
    let s = x + seq![c] + y;
    let pat = seq![c];
    if i == x.len() {
        assert(s.subrange(i, i + 1) =~= pat);
        assert(s.subrange(start, i) =~= x.subrange(start, x.len() as int));
        lemma_split_scan_shift(x + seq![c], y, pat, 0, 0);
        assert(seq![s.subrange(start, i)] + split_scan(s, pat, i + 1, i + 1) =~= seq![
            x.subrange(start, x.len() as int),
        ] + split_on(y, pat));
    } else {
        assert(s.subrange(i, i + 1) =~= x.subrange(i, i + 1));
        lemma_split_scan_join(x, y, c, i + 1, i + 1);
        lemma_split_scan_join(x, y, c, start, i + 1);
        if x.subrange(i, i + 1) == pat {
            assert(s.subrange(start, i) =~= x.subrange(start, i));
            assert(seq![x.subrange(start, i)] + (split_scan(x, pat, i + 1, i + 1) + split_on(y, pat))
                =~= (seq![x.subrange(start, i)] + split_scan(x, pat, i + 1, i + 1)) + split_on(y, pat));
        }
    }
}

/// A text without the separator `c` is a single piece.
proof fn lemma_split_scan_none(x: Seq<char>, c: char, i: int)
    requires
        0 <= i <= x.len(),
        forall|k: int| 0 <= k < x.len() ==> x[k] != c,
    ensures
        split_scan(x, seq![c], 0, i) == seq![x],
    decreases x.len() - i,
{
    if i + 1 > x.len() {
        assert(x.subrange(0, x.len() as int) =~= x);
    } else {
        assert(x.subrange(i, i + 1)[0] == x[i]);
        lemma_split_scan_none(x, c, i + 1);
    }
}

/// Splitting at a one-character separator `c` the text `x`, `c`, `y`
/// gives the pieces of `x` followed by those of `y`; a text without `c` is
/// one piece.
pub proof fn lemma_split_on_join(x: Seq<char>, y: Seq<char>, c: char)
    ensures
        split_on(x + seq![c] + y, seq![c]) == split_on(x, seq![c]) + split_on(y, seq![c]),
        (forall|k: int| 0 <= k < x.len() ==> x[k] != c) ==> split_on(x, seq![c]) == seq![x],
{
    lemma_split_scan_join(x, y, c, 0, 0);
    if forall|k: int| 0 <= k < x.len() ==> x[k] != c {
        lemma_split_scan_none(x, c, 0);
    }
}


/// Leading white space is trimmed from a text with a white-space character
/// added at its end as from the text itself, unless nothing is left.
proof fn lemma_trim_start_push_space(x: Seq<char>, w: char)
    requires
        is_white_space(w),
    ensures
        trim_start(x.push(w)) == if trim_start(x).len() > 0 {
            trim_start(x).push(w)
        } else {
            Seq::<char>::empty()
        },
    decreases x.len(),
{
    if x.len() == 0 {
        assert(x.push(w)[0] == w);
        assert(x.push(w).drop_first() =~= Seq::<char>::empty());
        assert(trim_start(Seq::<char>::empty()) == Seq::<char>::empty());
        assert(trim_start(x) == x);
    } else if is_white_space(x[0]) {
        assert(x.push(w)[0] == x[0]);
        assert(x.push(w).drop_first() =~= x.drop_first().push(w));
        lemma_trim_start_push_space(x.drop_first(), w);
    } else {
        assert(x.push(w)[0] == x[0]);
    }
}

/// A trailing white-space character does not change the trimmed text.
pub proof fn lemma_trim_push_space(x: Seq<char>, w: char)
    requires
        is_white_space(w),
    ensures
        trim(x.push(w)) == trim(x),
{
    lemma_trim_start_push_space(x, w);
    let t = trim_start(x);
    if t.len() > 0 {
        assert(t.push(w).drop_last() =~= t);
    } else {
        assert(trim_end(t) == t);
    }
}

} // verus!
