use markov_chains_bot::cowsay::{cowsay, format_reply};

fn reference(message: &str, wrap_at: Option<usize>) -> String {
    let cleaned_message = message.replace("```", "");
    let cow = r#"     \   ^__^
      \  (oo)\_______
         (__)\       )\/\
             ||----w |
             ||     ||"#;
    fn display_width(s: &str) -> usize {
        s.chars()
            .map(|c| {
                if c.len_utf8() > 1 {
                    unicode_width::UnicodeWidthChar::width(c).unwrap_or(1)
                } else {
                    1
                }
            })
            .sum()
    }
    let wrap_at = wrap_at.unwrap_or(40);
    let mut wrapped_message = String::new();
    let mut current_line = String::new();
    for word in cleaned_message.split_whitespace() {
        let word_width = display_width(word);
        let current_width = display_width(&current_line);
        if current_width + word_width + 1 > wrap_at {
            if !wrapped_message.is_empty() {
                wrapped_message.push('\n');
            }
            wrapped_message.push_str(&current_line);
            current_line = word.to_string();
        } else {
            if !current_line.is_empty() {
                current_line.push(' ');
            }
            current_line.push_str(word);
        }
    }
    if !current_line.is_empty() {
        if !wrapped_message.is_empty() {
            wrapped_message.push('\n');
        }
        wrapped_message.push_str(&current_line);
    }
    let max_line_length = wrapped_message.lines().map(|line| display_width(line)).max().unwrap_or(0);
    let mut bubble = String::new();
    if wrapped_message.lines().count() == 1 {
        bubble.push_str(&format!(" {}\n", "-".repeat(max_line_length + 2)));
        let line = wrapped_message.lines().next().unwrap();
        let padding = max_line_length - display_width(line);
        bubble.push_str(&format!("| {}{} |\n", line, " ".repeat(padding)));
        bubble.push_str(&format!(" {}\n", "-".repeat(max_line_length + 2)));
    } else {
        bubble.push_str(&format!(" {}\n", "_".repeat(max_line_length + 2)));
        let line_count = wrapped_message.lines().count();
        for (i, line) in wrapped_message.lines().enumerate() {
            let padding = max_line_length - display_width(line);
            if i == 0 {
                bubble.push_str(&format!("/ {}{} \\\n", line, " ".repeat(padding)));
            } else if i == line_count - 1 {
                bubble.push_str(&format!("\\ {}{} /\n", line, " ".repeat(padding)));
            } else {
                bubble.push_str(&format!("| {}{} |\n", line, " ".repeat(padding)));
            }
        }
        bubble.push_str(&format!(" {}\n", "-".repeat(max_line_length + 2)));
    }
    bubble.push_str(cow);
    format!("```\n{}\n```", bubble)
}

fn messages() -> Vec<String> {
    vec![
        "".to_string(),
        "   ".to_string(),
        "hello".to_string(),
        "hello world".to_string(),
        "the quick brown fox jumps over the lazy dog and keeps running far away".to_string(),
        "a ```code``` block ``` and ````four".to_string(),
        "supercalifragilisticexpialidocious-and-an-even-longer-word-that-does-not-fit short".to_string(),
        "日本語 のテキスト 漢字 かな カナ 日本語 のテキスト 漢字 かな カナ 日本語".to_string(),
        "emoji 😀 😀😀 test\twith\ttabs\nand\r\nnewlines \u{3000}ideographic".to_string(),
        "control \u{85} chars \u{9f}x \u{17D8} wide".to_string(),
        "one two three four five six seven eight nine ten eleven twelve".to_string(),
    ]
}

#[test]
fn cowsay_matches_reference_rendering() {
    for m in messages() {
        for w in [None, Some(0), Some(1), Some(5), Some(10), Some(20), Some(40), Some(80), Some(usize::MAX)] {
            assert_eq!(cowsay(&m, w), reference(&m, w), "message {:?} wrap {:?}", m, w);
        }
    }
}

#[test]
fn cowsay_single_line_bubble() {
    let expected = "```\n -------\n| hello |\n -------\n     \\   ^__^\n      \\  (oo)\\_______\n         (__)\\       )\\/\\\n             ||----w |\n             ||     ||\n```";
    assert_eq!(cowsay("hello", None), expected);
}

#[test]
fn cowsay_two_line_bubble() {
    let expected = "```\n _______\n/ hello \\\n\\ world /\n -------\n     \\   ^__^\n      \\  (oo)\\_______\n         (__)\\       )\\/\\\n             ||----w |\n             ||     ||\n```";
    assert_eq!(cowsay("hello world", Some(8)), expected);
}

#[test]
fn format_reply_plain_or_cow() {
    assert_eq!(format_reply("hi there".to_string(), None, None), "hi there");
    assert_eq!(format_reply("hi there".to_string(), Some(false), Some(3)), "hi there");
    assert_eq!(format_reply("hi".to_string(), Some(true), None), cowsay("hi", None));
}

#[test]
fn wrapped_lines_fit_and_keep_words() {
    let message = "the quick brown fox jumps over the extraordinarily-long-word lazy dog";
    let out = cowsay(message, Some(12));
    let bubble: Vec<&str> = out.lines().skip(2).take_while(|l| !l.starts_with(" -")).collect();
    let mut words = Vec::new();
    for row in &bubble {
        // every row is as wide as the widest line plus borders
        assert_eq!(row.chars().count(), "/ extraordinarily-long-word \\".len());
        let inner = row[2..row.len() - 2].trim_end();
        assert!(inner.len() <= 12 || !inner.contains(' '), "row {:?}", row);
        words.extend(inner.split_whitespace().map(|w| w.to_string()));
    }
    let expected: Vec<String> = message.split_whitespace().map(|w| w.to_string()).collect();
    assert_eq!(words, expected);
}

#[test]
fn wrapping_is_greedy() {
    let message = "aa bbb c dddd ee f gggggg hh";
    let wrap = 8;
    let out = cowsay(message, Some(wrap));
    let rows: Vec<String> = out
        .lines()
        .skip(2)
        .take_while(|l| !l.starts_with(" -"))
        .map(|row| row[2..row.len() - 2].trim_end().to_string())
        .collect();
    assert!(rows.len() > 1);
    for pair in rows.windows(2) {
        let first_next = pair[1].split_whitespace().next().unwrap();
        assert!(pair[0].chars().count() + first_next.chars().count() + 1 > wrap, "{:?}", pair);
    }
}
