use markov_chains_bot::text::{
    chars_of, decimal_string, split_lines, split_on, split_whitespace, strip_fences, trim, trim_char,
};

fn strings(v: Vec<Vec<char>>) -> Vec<String> {
    v.into_iter().map(|c| c.into_iter().collect()).collect()
}

const SAMPLES: [&str; 9] = [
    "",
    " ",
    "a b  c",
    "\u{85}x\u{a0}y\u{2003}z\u{3000}",
    "line1\nline2\r\n\nline4\r",
    "\n\n",
    "trailing\n",
    "``` ````code`` ```",
    "\"\"quoted\"\"  ",
];

#[test]
fn split_whitespace_matches_std() {
    for s in SAMPLES {
        let expected: Vec<String> = s.split_whitespace().map(|w| w.to_string()).collect();
        assert_eq!(strings(split_whitespace(&chars_of(s))), expected, "{:?}", s);
    }
}

#[test]
fn lines_match_std() {
    for s in SAMPLES {
        let expected: Vec<String> = s.lines().map(|w| w.to_string()).collect();
        assert_eq!(strings(split_lines(&chars_of(s))), expected, "{:?}", s);
    }
}

#[test]
fn split_and_trim_match_std() {
    for s in SAMPLES {
        let expected: Vec<String> = s.split(';').map(|w| w.to_string()).collect();
        assert_eq!(strings(split_on(&chars_of(s), ';')), expected);
        let t: String = trim(&chars_of(s)).into_iter().collect();
        assert_eq!(t, s.trim());
        let q: String = trim_char(&chars_of(s), '"').into_iter().collect();
        assert_eq!(q, s.trim_matches('"'));
        let f: String = strip_fences(&chars_of(s)).into_iter().collect();
        assert_eq!(f, s.replace("```", ""));
    }
}

#[test]
fn decimals() {
    assert_eq!(decimal_string(0), "0");
    assert_eq!(decimal_string(1234567890), "1234567890");
    assert_eq!(decimal_string(u128::MAX), u128::MAX.to_string());
}
