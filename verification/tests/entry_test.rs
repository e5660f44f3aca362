use adw::dict::entry::{parse_entries, Entry};

#[test]
fn parse_full_entry() {
    let e = Entry::parse("工\ta\t20").unwrap();
    assert_eq!(e.word, "工");
    assert_eq!(e.code, "a");
    assert_eq!(e.weight, 20);
}

#[test]
fn test_parse_full_entry() {
    // Given: a tab-separated line with word, code, and weight
    let line = "工\ta\t20";
    // When: parsing the line
    let entry = Entry::parse(line).unwrap();
    // Then: all fields are correctly extracted
    assert_eq!(entry.word, "工");
    assert_eq!(entry.code, "a");
    assert_eq!(entry.weight, 20);
    assert_eq!(entry.group, None);
}

#[test]
fn test_parse_entry_without_weight() {
    // Given: a line with only word and code (no weight)
    let line = "朗逸\tyvqk";
    // When: parsing the line
    let entry = Entry::parse(line).unwrap();
    // Then: weight defaults to 0
    assert_eq!(entry.word, "朗逸");
    assert_eq!(entry.code, "yvqk");
    assert_eq!(entry.weight, 0);
}

#[test]
fn test_parse_group_header() {
    // Given: a group header line starting with ##
    let line = "## 汽车";
    // When: parsing the line
    let entry = Entry::parse(line).unwrap();
    // Then: it identifies as a group header
    assert_eq!(entry.word, "## 汽车");
    assert!(entry.is_group());
}

#[test]
fn test_parse_comment_ignored() {
    // Given: a comment line starting with #
    let line = "# 这是注释";
    // When: parsing
    let entry = Entry::parse(line);
    // Then: returns None
    assert!(entry.is_none());
}

#[test]
fn test_parse_empty_line() {
    // Given: an empty line
    let line = "";
    // When: parsing
    let entry = Entry::parse(line);
    // Then: returns None
    assert!(entry.is_none());
}

#[test]
fn test_format_full_entry() {
    // Given: an entry with word, code, and weight
    let entry = Entry::new("工".into(), "a".into(), 20);
    // When: formatting
    let formatted = entry.format();
    // Then: produces tab-separated output
    assert_eq!(formatted, "工\ta\t20");
}

#[test]
fn test_format_entry_without_weight() {
    // Given: an entry with zero weight
    let entry = Entry::new("工".into(), "a".into(), 0);
    // When: formatting
    let formatted = entry.format();
    // Then: produces word + code (weight omitted when 0)
    assert_eq!(formatted, "工\ta");
}

#[test]
fn test_format_group_header() {
    // Given: a group entry
    let entry = Entry::group("汽车".into());
    // When: formatting
    let formatted = entry.format();
    // Then: produces ## prefix
    assert_eq!(formatted, "## 汽车");
}

#[test]
fn test_entry_parse_roundtrip() {
    // Given: a valid entry line
    let original = "你好\twqvb\t30";
    // When: parsing and re-formatting
    let entry = Entry::parse(original).unwrap();
    let formatted = entry.format();
    // Then: the result should match the original
    assert_eq!(formatted, original);
}

#[test]
fn parse_trims_surrounding_whitespace() {
    let e = Entry::parse("  工\ta\t20 \r").unwrap();
    assert_eq!(e.word, "工");
    assert_eq!(e.code, "a");
    assert_eq!(e.weight, 20);
    assert!(Entry::parse(" \t \u{3000}").is_none());
}

#[test]
fn parse_group_name_strips_repeated_markers() {
    let e = Entry::parse("####  歌手 ").unwrap();
    assert_eq!(e.word, "####  歌手");
    assert_eq!(e.group, Some("歌手".to_string()));
    assert_eq!(e.code, "");
    assert_eq!(e.weight, 0);
}

#[test]
fn parse_needs_a_code() {
    assert!(Entry::parse("工").is_none());
    // a trailing tab is trimmed away, so the line has one field only
    assert!(Entry::parse("工\t").is_none());
    // an empty code between two tabs is kept
    let e = Entry::parse("工\t\t5").unwrap();
    assert_eq!(e.code, "");
    assert_eq!(e.weight, 5);
}

#[test]
fn parse_weight_rules() {
    assert_eq!(Entry::parse("工\ta\tabc").unwrap().weight, 0);
    assert_eq!(Entry::parse("工\ta\t+7").unwrap().weight, 7);
    assert_eq!(Entry::parse("工\ta\t-7").unwrap().weight, 0);
    assert_eq!(Entry::parse("工\ta\t4294967295").unwrap().weight, 4294967295);
    assert_eq!(Entry::parse("工\ta\t4294967296").unwrap().weight, 0);
    assert_eq!(Entry::parse("工\ta\t007\textra").unwrap().weight, 7);
    assert_eq!(Entry::parse("工\ta\t 20").unwrap().weight, 0);
}

#[test]
fn format_then_parse_gives_the_entry() {
    let plain = Entry::new("词语".into(), "ymyk".into(), 12345);
    assert_eq!(Entry::parse(&plain.format()), Some(plain.clone()));
    let zero = Entry::new("词语".into(), "ymyk".into(), 0);
    assert_eq!(Entry::parse(&zero.format()), Some(zero.clone()));
    let group = Entry::group("歌手".into());
    assert_eq!(Entry::parse(&group.format()), Some(group.clone()));
}

#[test]
fn parse_entries_keeps_order_and_skips_noise() {
    let lines: Vec<String> = vec!["# c", "", "## 组", "甲\ta\t1", "bad", "乙\tb"]
        .into_iter()
        .map(|s| s.to_string())
        .collect();
    let es = parse_entries(&lines);
    assert_eq!(es.len(), 3);
    assert!(es[0].is_group());
    assert_eq!(es[1].word, "甲");
    assert_eq!(es[2].code, "b");
}
