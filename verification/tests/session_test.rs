use adw::session::{is_interactive, Ask, Event, Session, DEFAULT_WEIGHT};

fn body() -> Vec<String> {
    vec!["工作\taw\t100".to_string()]
}

#[test]
fn session_adds_an_entry_from_three_answers() {
    let mut s = Session::new(body());
    assert_eq!(s.ask(), Ask::Word);
    assert_eq!(s.step("  你好 \n"), Event::GotWord);
    assert_eq!(s.word(), "你好");
    assert_eq!(s.ask(), Ask::Code);
    assert_eq!(s.step("wqvb\n"), Event::GotCode);
    assert_eq!(s.code(), "wqvb");
    assert_eq!(s.ask(), Ask::Weight);
    assert_eq!(s.step(" 42 \n"), Event::Added { weight: 42 });
    assert_eq!(s.ask(), Ask::Word);
    assert_eq!(s.count(), 1);
    assert_eq!(s.into_body(), vec!["工作\taw\t100".to_string(), "你好\twqvb\t42".to_string()]);
}

#[test]
fn session_uses_default_weight_for_unreadable_answer() {
    let mut s = Session::new(Vec::new());
    s.step("词");
    s.step("yn");
    assert_eq!(s.step("abc"), Event::Added { weight: DEFAULT_WEIGHT });
    assert_eq!(s.into_body(), vec!["词\tyn\t10".to_string()]);
}

#[test]
fn session_reports_existing_entry_with_its_weight() {
    let mut s = Session::new(body());
    s.step("工作");
    s.step("aw");
    assert_eq!(s.step("5"), Event::Exists { weight: 100 });
    assert_eq!(s.count(), 0);
    assert_eq!(s.into_body(), body());
}

#[test]
fn session_drops_word_on_empty_code() {
    let mut s = Session::new(body());
    s.step("你好");
    assert_eq!(s.step("   \n"), Event::EmptyCode);
    assert_eq!(s.ask(), Ask::Word);
    assert_eq!(s.count(), 0);
}

#[test]
fn session_finishes_on_empty_word() {
    let mut s = Session::new(body());
    assert_eq!(s.step("\n"), Event::Finished);
    assert_eq!(s.step(""), Event::Finished);
    assert_eq!(s.into_body(), body());
}

#[test]
fn session_never_adds_the_same_entry_twice() {
    let mut s = Session::new(Vec::new());
    for _ in 0..2 {
        s.step("你好");
        s.step("wqvb");
        s.step("");
    }
    assert_eq!(s.count(), 1);
    assert_eq!(s.into_body(), vec!["你好\twqvb\t10".to_string()]);
}

#[test]
fn interactive_mode_choice() {
    assert!(is_interactive(true, true, true));
    assert!(is_interactive(false, false, false));
    assert!(!is_interactive(false, true, false));
    assert!(!is_interactive(false, false, true));
}
