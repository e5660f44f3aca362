use adw::dict::entry::Entry;
use adw::encoder::char_map::CharMap;
use std::collections::HashMap;

fn make_entry(line: &str) -> Entry {
    Entry::parse(line).unwrap()
}

#[test]
fn pick_highest_weight() {
    let entries = vec![
        Entry::new("行".into(), "q".into(), 10),
        Entry::new("行".into(), "tf".into(), 30),
        Entry::new("行".into(), "hh".into(), 20),
    ];
    let map = CharMap::from_entries(&entries);
    assert_eq!(map.get('行'), Some("tf"));
}

#[test]
fn test_build_from_entries() {
    // Given: a list of single-character entries
    let entries = vec![
        make_entry("工\ta\t20"),
        make_entry("戈\ta\t10"),
        make_entry("式\taa\t20"),
    ];
    // When: building a CharMap
    let map = CharMap::from_entries(&entries);
    // Then: each character maps to its code
    assert_eq!(map.get('工'), Some("a"));
    assert_eq!(map.get('戈'), Some("a"));
    assert_eq!(map.get('式'), Some("aa"));
}

#[test]
fn test_skips_multi_char_entries() {
    // Given: entries with multi-character words
    let entries = vec![
        make_entry("你好\twqvb\t20"),
        make_entry("工\ta\t20"),
    ];
    // When: building a CharMap
    let map = CharMap::from_entries(&entries);
    // Then: only single-character words are included
    assert_eq!(map.get('你'), None);
    assert_eq!(map.get('工'), Some("a"));
}

#[test]
fn test_picks_highest_weight() {
    // Given: the same character with multiple codes
    let entries = vec![
        make_entry("行\tq\t10"),
        make_entry("行\ttf\t30"),
        make_entry("行\thh\t20"),
    ];
    // When: building a CharMap
    let map = CharMap::from_entries(&entries);
    // Then: the code with highest weight wins
    assert_eq!(map.get('行'), Some("tf"));
}

#[test]
fn test_skips_comments_and_groups() {
    // Given: entries including comments and group headers
    let entries = vec![
        make_entry("工\ta\t20"),
    ];
    // When: building a CharMap
    let map = CharMap::from_entries(&entries);
    // Then: only valid single-char entries are included
    assert_eq!(map.get('工'), Some("a"));
    // Group headers and comments are filtered out during parse
    assert!(Entry::parse("## 汽车").map_or(true, |e| e.is_group()));
    assert!(Entry::parse("# 注释").is_none());
}

#[test]
fn test_empty_entries() {
    // Given: an empty list
    let entries: Vec<Entry> = vec![];
    // When: building a CharMap
    let map = CharMap::from_entries(&entries);
    // Then: the map is empty
    assert!(map.is_empty());
}

#[test]
fn test_build_from_dict_lines() {
    // Given: raw dictionary lines (after header)
    let lines = vec![
        "工\ta\t20".to_string(),
        "戈\ta\t10".to_string(),
        "式\taa\t20".to_string(),
    ];
    // When: building from lines
    let map = CharMap::from_lines(&lines);
    // Then: characters are mapped correctly
    assert_eq!(map.get('工'), Some("a"));
}

#[test]
fn ties_keep_the_first_entry() {
    let entries = vec![
        Entry::new("行".into(), "first".into(), 30),
        Entry::new("行".into(), "second".into(), 30),
        Entry::new("行".into(), "low".into(), 5),
    ];
    let map = CharMap::from_entries(&entries);
    assert_eq!(map.get('行'), Some("first"));
}

#[test]
fn group_headers_of_one_character_are_skipped() {
    let mut g = Entry::group("x".into());
    g.word = "x".into();
    let entries = vec![g, Entry::new("y".into(), "yy".into(), 0)];
    let map = CharMap::from_entries(&entries);
    assert!(!map.contains('x'));
    assert!(map.contains('y'));
    assert!(!map.is_empty());
}

#[test]
fn into_inner_and_from_give_the_table() {
    let entries = vec![Entry::new("工".into(), "a".into(), 1), Entry::new("戈".into(), "b".into(), 1)];
    let map = CharMap::from_entries(&entries);
    let a: HashMap<char, String> = map.clone().into_inner();
    let b: HashMap<char, String> = HashMap::from(map);
    assert_eq!(a.len(), 2);
    assert_eq!(a.get(&'工'), Some(&"a".to_string()));
    assert_eq!(a, b);
}

#[test]
fn from_lines_skips_header_like_noise() {
    let lines: Vec<String> = vec!["# c".into(), "## 组".into(), "工\ta\t1".into(), "".into()];
    let map = CharMap::from_lines(&lines);
    assert_eq!(map.get('工'), Some("a"));
    assert_eq!(map.get('#'), None);
}
