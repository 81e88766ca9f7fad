use packwiz_modlist::text::{
    chars_of, decimal_string, join_chars, parse_u32, replace_chars, split_chars,
    trim_chars, trim_end_chars,
};

fn s(v: &str) -> Vec<char> {
    v.chars().collect()
}

fn string_of(v: &Vec<char>) -> String {
    v.iter().collect()
}

#[test]
fn parse_u32_matches_std() {
    for text in [
        "0", "7", "+7", "007", "", "+", "-", "-0", "-1", " 1", "1 ", "12a", "4294967295",
        "4294967296", "99999999999999999999", "+4294967295", "++1", "٣",
    ] {
        assert_eq!(parse_u32(text), text.parse::<u32>().ok(), "input {:?}", text);
    }
}

#[test]
fn decimal_matches_to_string() {
    for n in [0u64, 1, 9, 10, 99, 100, 4294967295, u64::MAX] {
        assert_eq!(decimal_string(n), n.to_string());
    }
}

#[test]
fn replace_matches_str_replace() {
    let cases = [
        ("aaaa", "aa", "b"),
        ("abcabc", "bc", ""),
        ("xyz", "q", "Q"),
        ("{A}{A}", "{A}", "{A}{A}"),
        ("", "a", "b"),
        ("héllo héllo", "é", "e"),
    ];
    for (text, pat, rep) in cases {
        let out = replace_chars(&s(text), &s(pat), &s(rep));
        assert_eq!(out.iter().collect::<String>(), text.replace(pat, rep));
    }
}

#[test]
fn trims_match_std() {
    for text in ["  a b  ", "\t\r\n", "", "x\u{3000}", "\u{a0}y\u{2029}", "z\u{200b}"] {
        assert_eq!(string_of(&trim_chars(&s(text))), text.trim());
        assert_eq!(string_of(&trim_end_chars(&s(text))), text.trim_end());
    }
}

#[test]
fn split_matches_std() {
    for text in ["a\nb", "", "\n", "a\n\nb\n", "abc"] {
        let pieces: Vec<String> = split_chars(&s(text), '\n').iter().map(|p| string_of(p)).collect();
        let expected: Vec<String> = text.split('\n').map(|p| p.to_string()).collect();
        assert_eq!(pieces, expected);
    }
}

#[test]
fn join_matches_std() {
    let list = vec![s("a"), s("b"), s("c")];
    assert_eq!(string_of(&join_chars(&list, &s(", "))), "a, b, c");
    assert_eq!(string_of(&join_chars(&Vec::new(), &s(", "))), "");
    assert_eq!(string_of(&join_chars(&vec![s("only")], &s(", "))), "only");
}

#[test]
fn chars_round_trip() {
    let text = "Ünïcödé ✓";
    assert_eq!(string_of(&chars_of(text)), text);
}
