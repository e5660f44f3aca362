use adw::dict::header::{extract_field, find_header_end, DictHeader};

fn full_header_lines() -> Vec<String> {
    r#"---
name: test_dict
version: "0.1"
sort: by_weight
import_tables:
  - wubi86_jidian_extra
columns:
  - text
  - code
  - weight
  - stem
encoder:
  exclude_patterns:
    - '^z.*$'
...
"#.lines().map(|l| l.to_string()).collect()
}

fn minimal_header_lines() -> Vec<String> {
    r#"---
name: minimal_dict
version: "1.0"
...
"#.lines().map(|l| l.to_string()).collect()
}

fn extra_dict_lines() -> Vec<String> {
    r#"---
name: wubi86_jidian_extra
version: "2019-09-06"
...
"#.lines().map(|l| l.to_string()).collect()
}

#[test]
fn parse_full_header() {
    let lines = full_header_lines();
    let h = DictHeader::parse(&lines).unwrap();
    assert_eq!(h.name, "test_dict");
    assert_eq!(h.version, Some("0.1".to_string()));
    assert_eq!(h.sort, Some("by_weight".to_string()));
    assert!(h.has_import("wubi86_jidian_extra"));
}

#[test]
fn find_header_end_marker() {
    let lines = full_header_lines();
    let h = DictHeader::parse(&lines).unwrap();
    assert_eq!(h.to_lines()[h.header_end], "...");
}

#[test]
fn add_new_import() {
    let lines = r#"---
name: test
version: "1"
...
"#.lines().map(|l| l.to_string()).collect::<Vec<_>>();
    // Need to construct via parse to get proper indices
    let mut h = DictHeader::parse(&lines).unwrap();
    let added = h.add_import("extra_dict");
    assert!(added);
    assert!(h.has_import("extra_dict"));
}

#[test]
fn dont_add_duplicate_import() {
    let lines = full_header_lines();
    let mut h = DictHeader::parse(&lines).unwrap();
    let added = h.add_import("wubi86_jidian_extra");
    assert!(!added);
}

#[test]
fn test_find_header_end_index() {
    // Given: a full header with --- at start and ... at end
    let lines = full_header_lines();
    // When: parsing the header
    let header = DictHeader::parse(&lines).unwrap();
    // Then: the header end index points to the ... line
    let raw = header.to_lines();
    assert_eq!(raw[header.header_end], "...");
}

#[test]
fn test_parse_header_name() {
    // Given: a header with name field
    let lines = full_header_lines();
    // When: parsing
    let header = DictHeader::parse(&lines).unwrap();
    // Then: name is extracted
    assert_eq!(header.name, "test_dict");
}

#[test]
fn test_list_import_tables() {
    // Given: a header with import_tables
    let lines = full_header_lines();
    // When: parsing
    let header = DictHeader::parse(&lines).unwrap();
    // Then: import_tables list is populated
    assert!(header.has_import("wubi86_jidian_extra"));
    assert!(!header.has_import("nonexistent"));
}

#[test]
fn test_minimal_header() {
    // Given: a minimal header with only name and version
    let lines = minimal_header_lines();
    // When: parsing
    let header = DictHeader::parse(&lines).unwrap();
    // Then: basic fields are extracted
    assert_eq!(header.name, "minimal_dict");
    assert_eq!(header.version, Some("1.0".to_string()));
    assert_eq!(header.header_end, 3);
}

#[test]
fn test_add_import_table() {
    // Given: a header without import_tables
    let lines = extra_dict_lines();
    let mut header = DictHeader::parse(&lines).unwrap();
    // When: adding an import
    let added = header.add_import("wubi86_jidian_extra");
    // Then: import was added
    assert!(added);
    assert!(header.has_import("wubi86_jidian_extra"));
}

#[test]
fn test_add_existing_import_is_noop() {
    // Given: a header that already has the import
    let lines = full_header_lines();
    let mut header = DictHeader::parse(&lines).unwrap();
    // When: adding the same import again
    let added = header.add_import("wubi86_jidian_extra");
    // Then: no change
    assert!(!added);
}

#[test]
fn test_render_header_to_lines() {
    // Given: a parsed header
    let lines = full_header_lines();
    let header = DictHeader::parse(&lines).unwrap();
    // When: rendering back to lines
    let rendered = header.to_lines();
    // Then: the result includes the full original header
    assert_eq!(rendered[0], "---");
    assert_eq!(rendered[header.header_end], "...");
    // Rendered lines must match original header section
    assert_eq!(rendered.len(), header.header_end + 1);
}

#[test]
fn header_without_end_marker_is_rejected() {
    let lines: Vec<String> = vec!["---".into(), "name: x".into()];
    assert!(DictHeader::parse(&lines).is_none());
    // a first line of "..." does not end the header
    let lines: Vec<String> = vec!["...".into(), "name: x".into()];
    assert!(DictHeader::parse(&lines).is_none());
    assert_eq!(find_header_end(&lines), None);
}

#[test]
fn header_keeps_only_its_own_lines() {
    let mut lines = minimal_header_lines();
    lines.push("工\ta\t1".to_string());
    let h = DictHeader::parse(&lines).unwrap();
    assert_eq!(h.to_lines().len(), 4);
    assert_eq!(find_header_end(&lines), Some(3));
}

#[test]
fn field_values_are_unquoted() {
    let lines: Vec<String> = vec![
        "---".into(),
        "  name: 'single'".into(),
        "version:".into(),
        "version: \"\"".into(),
        "sort:    original  ".into(),
        "...".into(),
    ];
    let h = DictHeader::parse(&lines).unwrap();
    assert_eq!(h.name, "single");
    assert_eq!(h.version, None);
    assert_eq!(h.sort, Some("original".to_string()));
    assert_eq!(extract_field(&lines, "nothing"), None);
}

#[test]
fn import_list_reads_names_and_stops_at_next_key() {
    let lines: Vec<String> = vec![
        "---".into(),
        "import_tables:".into(),
        "  - first   # a comment".into(),
        "".into(),
        "  # note".into(),
        "  - second".into(),
        "columns:".into(),
        "  - text".into(),
        "...".into(),
    ];
    let h = DictHeader::parse(&lines).unwrap();
    assert_eq!(h.import_tables, vec!["first".to_string(), "second".to_string()]);
    assert!(h.has_import("text"));
    assert!(!h.has_import("third"));
}

#[test]
fn add_import_after_last_item() {
    let lines: Vec<String> = vec![
        "---".into(),
        "import_tables:".into(),
        "  - first".into(),
        "columns:".into(),
        "...".into(),
    ];
    let mut h = DictHeader::parse(&lines).unwrap();
    assert!(h.add_import("second"));
    assert_eq!(h.to_lines()[3], "  - second");
    assert_eq!(h.header_end, 5);
    assert_eq!(h.to_lines()[h.header_end], "...");
    assert!(!h.add_import("second"));
}

#[test]
fn add_import_block_before_columns() {
    let lines: Vec<String> = vec![
        "---".into(),
        "name: x".into(),
        "columns:".into(),
        "  - text".into(),
        "...".into(),
    ];
    let mut h = DictHeader::parse(&lines).unwrap();
    assert!(h.add_import("extra"));
    assert_eq!(h.to_lines()[2], "import_tables:");
    assert_eq!(h.to_lines()[3], "  - extra");
    assert_eq!(h.to_lines()[4], "columns:");
    assert_eq!(h.header_end, 6);
    assert_eq!(h.import_tables, vec!["extra".to_string()]);
    // a second table goes after the first
    assert!(h.add_import("more"));
    assert_eq!(h.to_lines()[4], "  - more");
}

#[test]
fn header_with_added_imports_reads_back_the_same() {
    let lines = minimal_header_lines();
    let mut h = DictHeader::parse(&lines).unwrap();
    assert!(h.add_import("first"));
    assert!(h.add_import("second"));
    let written: Vec<String> = h.to_lines().to_vec();
    assert_eq!(written.last().unwrap(), "...");
    let again = DictHeader::parse(&written).unwrap();
    assert_eq!(again.header_end, h.header_end);
    assert_eq!(again.header_end, written.len() - 1);
    assert_eq!(again.import_tables, vec!["first".to_string(), "second".to_string()]);
    assert_eq!(again.to_lines(), h.to_lines());
}

#[test]
fn header_with_new_import_block_reads_back_the_same() {
    let lines: Vec<String> = vec![
        "---".into(),
        "name: x".into(),
        "version: \"1\"".into(),
        "columns:".into(),
        "  - text".into(),
        "...".into(),
    ];
    let mut h = DictHeader::parse(&lines).unwrap();
    assert!(h.add_import("extra"));
    let again = DictHeader::parse(h.to_lines()).unwrap();
    assert_eq!(again.header_end, h.header_end);
    assert_eq!(again.import_tables, vec!["extra".to_string()]);
    assert_eq!(again.name, "x");
    assert_eq!(again.version, Some("1".to_string()));
    assert_eq!(again.to_lines(), h.to_lines());
    // and again, now that the header has the key
    let mut again = again;
    assert!(again.add_import("more"));
    let third = DictHeader::parse(again.to_lines()).unwrap();
    assert_eq!(third.import_tables, vec!["extra".to_string(), "more".to_string()]);
    assert_eq!(third.header_end, again.header_end);
}
