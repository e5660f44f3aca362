use adw::text::{join_lines, parse_u32_text, split_lines, trim_text};

#[test]
fn trim_removes_unicode_whitespace() {
    assert_eq!(trim_text("\u{3000} 工 \t\n"), "工");
    assert_eq!(trim_text("   "), "");
    assert_eq!(trim_text("a b"), "a b");
}

#[test]
fn parse_u32_follows_std() {
    for s in ["0", "7", "+7", "007", "4294967295", "4294967296", "", "+", "-1", " 1", "1a", "١"] {
        assert_eq!(parse_u32_text(s), s.parse::<u32>().ok(), "input {s:?}");
    }
}

#[test]
fn split_lines_matches_str_lines() {
    for text in ["", "\n", "a", "a\n", "a\r", "---\n...\r", "a\r\nb\n", "a\n\nb", "x\ry\r\n", "\r\n\r\n", "\r", "a\r\r\n", "词\t码\n"] {
        let expected: Vec<String> = text.lines().map(|l| l.to_string()).collect();
        assert_eq!(split_lines(text), expected, "text {:?}", text);
    }
}

#[test]
fn join_lines_ends_each_line_with_newline() {
    let lines = vec!["---".to_string(), String::new(), "工\ta".to_string()];
    assert_eq!(join_lines(&lines), "---\n\n工\ta\n");
    assert_eq!(join_lines(&[]), "");
}

#[test]
fn lines_of_joined_text_are_the_lines() {
    let lines = vec!["a".to_string(), String::new(), "b c".to_string()];
    assert_eq!(split_lines(&join_lines(&lines)), lines);
}
