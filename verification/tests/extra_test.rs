use adw::extra::{
    add_entry_line, ensure_import_tables, entry_exists, extra_dict_template, format_entry,
    has_import, parse_weight, split_header_body, AddOutcome, EXTRA_NAME,
};
use adw::dict::file::parse_dict;

fn lines(text: &str) -> Vec<String> {
    text.lines().map(|l| l.to_string()).collect()
}

#[test]
fn ensure_import_tables_adds_once() {
    let mut main = lines("---\nname: main\nimport_tables:\n  - other\n\n  # note\ncolumns:\n  - text\n...\n");
    assert!(ensure_import_tables(&mut main));
    assert_eq!(main[6], "  - wubi86_jidian_extra");
    assert_eq!(main[7], "columns:");
    assert!(has_import(&main, EXTRA_NAME));
    assert!(!ensure_import_tables(&mut main));
    assert_eq!(main.len(), 10);
}

#[test]
fn ensure_import_tables_without_key_changes_nothing() {
    let mut main = lines("---\nname: main\n...\n");
    let before = main.clone();
    assert!(!ensure_import_tables(&mut main));
    assert_eq!(main, before);
}

#[test]
fn ensure_import_tables_accepts_commented_key() {
    let mut main = lines("---\n# import_tables:\n...\n");
    assert!(ensure_import_tables(&mut main));
    assert_eq!(main[2], "  - wubi86_jidian_extra");
}

#[test]
fn weights_read_from_the_last_field() {
    assert_eq!(parse_weight("工\ta\t20"), 20);
    assert_eq!(parse_weight("工\ta\t 20 "), 20);
    assert_eq!(parse_weight("工\ta"), 0);
    assert_eq!(parse_weight("42"), 42);
    assert_eq!(parse_weight(&format_entry("词", "c", 7)), 7);
}

#[test]
fn entries_are_found_by_word_and_code() {
    let body = lines("工\ta\t20\n工人\taw\n工\tab\t3\n");
    assert_eq!(entry_exists(&body, "工", "a"), Some(&body[0]));
    assert_eq!(entry_exists(&body, "工人", "aw"), Some(&body[1]));
    assert_eq!(entry_exists(&body, "工", "ab"), Some(&body[2]));
    assert_eq!(entry_exists(&body, "工", "x"), None);
}

#[test]
fn add_entry_line_appends_or_reports_the_existing_weight() {
    let mut body = lines("工\ta\t20\n");
    assert_eq!(add_entry_line(&mut body, "工", "a", 5), AddOutcome::Exists { weight: 20 });
    assert_eq!(body.len(), 1);
    assert_eq!(add_entry_line(&mut body, "工人", "aw", 10), AddOutcome::Added);
    assert_eq!(body[1], "工人\taw\t10");
    assert_eq!(add_entry_line(&mut body, "工人", "aw", 10), AddOutcome::Exists { weight: 10 });
}

#[test]
fn split_header_body_splits_at_the_end_marker() {
    let all = lines("---\nname: x\n...\n工\ta\n");
    let (head, body) = split_header_body(&all).unwrap();
    assert_eq!(head, lines("---\nname: x\n..."));
    assert_eq!(body, lines("工\ta"));
    assert!(split_header_body(&lines("---\nname: x\n")).is_none());
}

#[test]
fn template_is_an_empty_extra_dictionary() {
    let t = extra_dict_template();
    assert_eq!(t.len(), 10);
    assert_eq!(t[2], "version: \"0.0.1\"");
    let dict = parse_dict(&t).unwrap();
    assert_eq!(dict.header.name, "wubi86_jidian_extra");
    assert_eq!(dict.header.sort, Some("by_weight".to_string()));
    assert!(dict.entries.is_empty());
    let joined: String = t.iter().map(|l| format!("{l}\n")).collect();
    assert_eq!(
        joined,
        "---\nname: wubi86_jidian_extra\nversion: \"0.0.1\"\nsort: by_weight\ncolumns:\n  - text\n  - code\n  - weight\n  - stem\n...\n"
    );
}
