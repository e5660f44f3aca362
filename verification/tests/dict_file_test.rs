use adw::dict::entry::Entry;
use adw::dict::file::parse_dict;
use adw::text::{join_lines, split_lines};

fn lines(text: &str) -> Vec<String> {
    text.lines().map(|l| l.to_string()).collect()
}

// The dictionaries below stand for the files the dictionary tests read:
// a minimal header, a full header with four entries, an empty dictionary,
// and an extra dictionary with two groups.

fn header_minimal() -> Vec<String> {
    lines("---\nname: minimal_dict\nversion: \"1.0\"\n...\n")
}

fn header_full() -> Vec<String> {
    lines(
        "---\nname: test_dict\nversion: \"0.1\"\nsort: by_weight\nimport_tables:\n  - wubi86_jidian_extra\ncolumns:\n  - text\n  - code\n  - weight\n  - stem\nencoder:\n  exclude_patterns:\n    - '^z.*$'\n...\n# comment\n工\ta\t20\n戈\ta\t10\n式\taa\t20\n你好\twqvb\t30\n",
    )
}

fn empty_dict() -> Vec<String> {
    lines("---\nname: empty_dict\nversion: \"1.0\"\nsort: by_weight\n...\n")
}

fn extra_with_groups() -> Vec<String> {
    lines(
        "---\nname: wubi86_jidian_extra\nversion: \"2019-09-06\"\nsort: by_weight\n...\n## 汽车\n朗逸\tyvqk\n宝马\tpuc\t5\n## 歌手\n周杰伦\tmsww\t30\n林俊杰\tsswo\n",
    )
}

#[test]
fn load_minimal() {
    let dict = parse_dict(&header_minimal()).unwrap();
    assert_eq!(dict.header.name, "minimal_dict");
    assert!(dict.entries.is_empty());
}

#[test]
fn load_full() {
    let dict = parse_dict(&header_full()).unwrap();
    assert_eq!(dict.entries.len(), 4);
}

#[test]
fn add_duplicate() {
    let mut dict = parse_dict(&header_full()).unwrap();
    let e = Entry::new("工".into(), "a".into(), 20);
    assert!(!dict.add_entry(e));
}

#[test]
fn test_load_minimal_dict() {
    // Given: a minimal dictionary file
    let dict = parse_dict(&header_minimal()).unwrap();
    // Then: header is parsed and entries are empty
    assert_eq!(dict.header.name, "minimal_dict");
    assert!(dict.entries.is_empty());
}

#[test]
fn test_load_full_dict() {
    // Given: a full dictionary with header and entries
    let dict = parse_dict(&header_full()).unwrap();
    // Then: header and entries are parsed
    assert_eq!(dict.header.name, "test_dict");
    assert_eq!(dict.entries.len(), 4);
    assert_eq!(dict.entries[0].word, "工");
    assert_eq!(dict.entries[0].code, "a");
}

#[test]
fn test_load_extra_with_groups() {
    // Given: an extra dictionary with group headers
    let dict = parse_dict(&extra_with_groups()).unwrap();
    // Then: group headers and entries are preserved
    assert_eq!(dict.entries.len(), 6);
    // Group headers are kept as entries with is_group() == true
    let groups: Vec<_> = dict.entries.iter().filter(|e| e.is_group()).collect();
    assert_eq!(groups.len(), 2);
    assert_eq!(groups[0].word, "## 汽车");
    assert_eq!(groups[1].word, "## 歌手");
}

#[test]
fn test_add_entry_to_dict() {
    // Given: a loaded dictionary
    let mut dict = parse_dict(&empty_dict()).unwrap();
    // When: adding a new entry
    let entry = Entry::new("测试".into(), "test".into(), 10);
    let added = dict.add_entry(entry);
    // Then: entry is added
    assert!(added);
    assert_eq!(dict.entries.len(), 1);
}

#[test]
fn test_add_duplicate_entry() {
    // Given: a loaded dictionary
    let mut dict = parse_dict(&header_full()).unwrap();
    let original_len = dict.entries.len();
    // When: adding an entry that already exists
    let entry = Entry::new("工".into(), "a".into(), 20);
    let added = dict.add_entry(entry);
    // Then: duplicate is not added
    assert!(!added);
    assert_eq!(dict.entries.len(), original_len);
}

#[test]
fn test_save_and_reload_is_idempotent() {
    // Given: a loaded dictionary
    let dict = parse_dict(&extra_with_groups()).unwrap();
    // When: writing it out as the text of a file
    let rendered = dict.render_lines();
    let text = join_lines(&rendered);
    // Then: reading it back gives the same data
    let reloaded = parse_dict(&split_lines(&text)).unwrap();
    assert_eq!(reloaded.entries.len(), dict.entries.len());
    for (a, b) in dict.entries.iter().zip(reloaded.entries.iter()) {
        assert_eq!(a.word, b.word);
        assert_eq!(a.code, b.code);
        assert_eq!(a.weight, b.weight);
    }
    assert_eq!(rendered, extra_with_groups());
    assert_eq!(reloaded.header.to_lines(), dict.header.to_lines());
}

#[test]
fn parse_dict_without_end_marker_fails() {
    assert!(parse_dict(&lines("---\nname: x\n工\ta\n")).is_none());
}

#[test]
fn add_entry_refuses_duplicates_only() {
    let mut dict = parse_dict(&header_full()).unwrap();
    let n = dict.entries.len();
    assert!(!dict.add_entry(Entry::new("工".into(), "a".into(), 99)));
    assert_eq!(dict.entries.len(), n);
    assert!(dict.add_entry(Entry::new("测试".into(), "test".into(), 10)));
    assert_eq!(dict.entries.len(), n + 1);
    assert!(!dict.add_entry(Entry::new("测试".into(), "test".into(), 10)));
    // same word, other code is a new entry
    assert!(dict.add_entry(Entry::new("工".into(), "aaa".into(), 1)));
}

#[test]
fn saved_text_loads_back_the_same_dictionary() {
    let dict = parse_dict(&extra_with_groups()).unwrap();
    let text = join_lines(&dict.render_lines());
    let reloaded = parse_dict(&split_lines(&text)).unwrap();
    assert_eq!(reloaded.entries, dict.entries);
    assert_eq!(reloaded.header.to_lines(), dict.header.to_lines());
    assert_eq!(reloaded.header.name, dict.header.name);
}

#[test]
fn save_and_reload() {
    let dict = parse_dict(&extra_with_groups()).unwrap();
    let text = join_lines(&dict.render_lines());
    let reloaded = parse_dict(&split_lines(&text)).unwrap();
    assert_eq!(reloaded.entries.len(), dict.entries.len());
}

#[test]
fn group_written_without_space_survives_save_and_load() {
    let dict = parse_dict(&lines("---\nname: x\n...\n##名\n工\ta\t20\n")).unwrap();
    assert_eq!(dict.entries[0].group, Some("名".to_string()));
    let text = join_lines(&dict.render_lines());
    assert_eq!(text, "---\nname: x\n...\n##名\n工\ta\t20\n");
    let reloaded = parse_dict(&split_lines(&text)).unwrap();
    assert_eq!(reloaded.entries, dict.entries);
}

#[test]
fn file_ending_in_bare_cr_keeps_it_on_its_last_line() {
    let read = split_lines("---\nname: x\n...\r");
    assert_eq!(read, vec!["---".to_string(), "name: x".to_string(), "...\r".to_string()]);
    let dict = parse_dict(&read).unwrap();
    assert_eq!(dict.header.to_lines()[2], "...\r");
}
