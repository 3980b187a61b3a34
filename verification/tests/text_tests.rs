use scallion_vocab::text::{
    chars_of, join_chars, parse_u64_chars, replace_chars, split_chars, split_lines, string_of,
    trim_str,
};

fn cs(s: &str) -> Vec<char> {
    s.chars().collect()
}

#[test]
fn trim_matches_str_trim() {
    for s in ["", "  a ", "\t\n x y \r\n", "\u{3000}全形\u{3000}", "\u{a0}nb\u{85}", "none"] {
        assert_eq!(trim_str(s), s.trim());
        assert_eq!(trim_str(&trim_str(s)), trim_str(s));
    }
}

#[test]
fn chars_round_trip() {
    let s = "中文 and ascii";
    assert_eq!(string_of(&chars_of(s)), s);
}

#[test]
fn replace_matches_str_replace() {
    for (s, p, r) in [("a<br>b<br>", "<br>", "\n"), ("aaa", "aa", "b"), ("xyz", "q", "w"), ("", "a", "b")] {
        assert_eq!(string_of(&replace_chars(&cs(s), &cs(p), &cs(r))), s.replace(p, r));
    }
}

#[test]
fn lines_match_str_lines() {
    for s in ["a\nb\r\nc", "a\n", "", "\n\n", "x\r", "one"] {
        let got: Vec<String> = split_lines(&cs(s)).iter().map(string_of).collect();
        let expect: Vec<String> = s.lines().map(|l| l.to_string()).collect();
        assert_eq!(got, expect, "{s:?}");
    }
}

#[test]
fn split_and_join() {
    let parts = split_chars(&cs("a,,b,"), ',');
    let got: Vec<String> = parts.iter().map(string_of).collect();
    assert_eq!(got, vec!["a", "", "b", ""]);
    assert_eq!(string_of(&join_chars(&parts, &cs(";"))), "a;;b;");
}

#[test]
fn numbers_match_str_parse() {
    for s in ["0", "42", "+7", "", "+", "-1", "18446744073709551615", "18446744073709551616", "1a"] {
        assert_eq!(parse_u64_chars(&cs(s)), s.parse::<u64>().ok(), "{s}");
    }
}
