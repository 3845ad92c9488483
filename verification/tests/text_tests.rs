use asp_solver::parser::parse;
use asp_solver::text::{
    char_is_white_space, contains_chars, parse_u16_or_zero, split_chars, trim_chars,
    trim_end_matches_char, trim_start_matches_chars,
};

fn chars(s: &str) -> Vec<char> {
    s.chars().collect()
}

fn text(cs: &[char]) -> String {
    cs.iter().collect()
}

#[test]
fn white_space_agrees_with_std_on_every_char() {
    for u in 0u32..=0x10FFFF {
        if let Some(c) = char::from_u32(u) {
            assert_eq!(char_is_white_space(c), c.is_whitespace(), "char {:x}", u);
        }
    }
}

#[test]
fn trim_agrees_with_std() {
    for s in ["", "  ", " a ", "\u{a0}x\u{3000}", "\t\r\nab c\u{2009}", "x"] {
        assert_eq!(text(&trim_chars(&chars(s))), s.trim());
    }
}

#[test]
fn split_agrees_with_std() {
    for (s, p) in [("a:-b:-c", ":-"), (":-", ":-"), ("a", ","), ("a,,b,", ","), ("::--", ":-"), ("", ".")] {
        let ours: Vec<String> = split_chars(&chars(s), &chars(p)).iter().map(|v| text(v)).collect();
        let std: Vec<String> = s.split(p).map(|x| x.to_string()).collect();
        assert_eq!(ours, std, "splitting {:?} at {:?}", s, p);
    }
}

#[test]
fn contains_and_trim_matches_agree_with_std() {
    for (s, p) in [("a :- b", ":-"), ("a", ":-"), ("", "x"), ("xyz", "")] {
        assert_eq!(contains_chars(&chars(s), &chars(p)), s.contains(p));
    }
    for s in ["not not p(a)", "not p", "notp", "not "] {
        assert_eq!(text(&trim_start_matches_chars(&chars(s), &chars("not "))), s.trim_start_matches("not "));
    }
    for s in ["a..", ".", "a.b", ""] {
        assert_eq!(text(&trim_end_matches_char(&chars(s), '.')), s.trim_end_matches('.'));
    }
}

#[test]
fn u16_reading_agrees_with_std() {
    for s in ["0", "1", "65535", "65536", "007", "+5", "+", "", "-1", "12a", "99999999999", "\u{661}"] {
        assert_eq!(parse_u16_or_zero(&chars(s)), s.parse::<u16>().unwrap_or(0), "reading {:?}", s);
    }
}

#[test]
fn empty_source_gives_empty_program() {
    let program = parse("");
    assert!(program.rules.is_empty());
    assert!(program.ground_atoms.is_empty());
}

#[test]
fn unicode_spaces_are_trimmed_from_statements() {
    let program = parse("\u{a0}p(a)\u{3000}. q(b).");
    assert_eq!(program.ground_atoms.len(), 2);
    assert_eq!(program.ground_atoms[0].name, "p");
}
