use adw::rime::deploy::{
    deployer_name, fd_search_roots, first_existing_path, hardcoded_paths, is_weasel_deployer,
    pick_first_existing, fd_args, fd_outcome, FdOutcome,
    Platform,
};
use adw::rime::dir::RimeDirDetector;
use std::path::PathBuf;

const KNOWN: [Platform; 3] = [Platform::Windows, Platform::MacOs, Platform::Linux];

#[test]
fn deployer_name_not_empty() {
    for p in KNOWN {
        assert!(!deployer_name(p).is_empty());
    }
}

#[test]
fn hardcoded_paths_not_empty() {
    for p in KNOWN {
        let paths = hardcoded_paths(p);
        assert!(!paths.is_empty());
    }
}

#[test]
fn fd_search_roots_not_empty() {
    for p in KNOWN {
        let roots = fd_search_roots(p);
        assert!(!roots.is_empty());
    }
}

#[test]
fn detect_from_explicit_invalid() {
    let detector = RimeDirDetector;
    let result = detector.from_explicit_path(r"C:\This\Path\Does\Not\Exist\12345");
    assert!(result.is_none());
}

#[test]
fn test_deployer_name_is_not_empty() {
    for p in KNOWN {
        let name = deployer_name(p);
        assert!(!name.is_empty());
    }
}

#[test]
fn test_hardcoded_paths_returns_list() {
    for p in KNOWN {
        let paths = hardcoded_paths(p);
        assert!(!paths.is_empty());
    }
}

#[test]
fn test_rime_dir_from_nonexistent_path() {
    let detector = RimeDirDetector;
    let result = detector.from_explicit_path("/nonexistent_path_12345");
    // The path doesn't exist, so returns None
    assert!(result.is_none());
}

#[test]
fn platform_tables_match_their_platform() {
    assert_eq!(deployer_name(Platform::Windows), "WeaselDeployer.exe");
    assert_eq!(deployer_name(Platform::Linux), "rime_deployer");
    assert_eq!(deployer_name(Platform::Other), "rime_deployer");
    assert_eq!(
        hardcoded_paths(Platform::Linux),
        vec![PathBuf::from("/usr/bin/rime_deployer"), PathBuf::from("/usr/local/bin/rime_deployer")]
    );
    assert!(hardcoded_paths(Platform::Other).is_empty());
    assert_eq!(fd_search_roots(Platform::MacOs), vec!["/Applications", "/usr/local", "/opt/homebrew"]);
    assert!(fd_search_roots(Platform::Other).is_empty());
}

#[test]
fn weasel_deployer_is_recognised_by_name() {
    assert!(is_weasel_deployer("WeaselDeployer"));
    assert!(is_weasel_deployer("MyWeaselDeployer2"));
    assert!(!is_weasel_deployer("rime_deployer"));
    assert!(!is_weasel_deployer("Weasel"));
}

#[test]
fn explicit_path_that_exists_is_returned() {
    let detector = RimeDirDetector;
    assert_eq!(detector.from_explicit_path("/"), Some(PathBuf::from("/")));
}

#[test]
fn user_dir_candidates_per_platform() {
    let d = RimeDirDetector;
    assert_eq!(d.base_dir_var(Platform::Windows), "APPDATA");
    assert_eq!(d.base_dir_var(Platform::Linux), "HOME");
    assert_eq!(d.user_dir_candidates(Platform::MacOs), vec!["Library/Rime"]);
    assert_eq!(d.user_dir_candidates(Platform::Linux).len(), 3);
    assert!(d.user_dir_candidates(Platform::Other).is_empty());
}

#[test]
fn detect_prefers_existing_rime_user_dir() {
    let detector = RimeDirDetector;
    let r = detector.detect_with(Some("/"), Some("/nonexistent_base_12345"), Platform::Linux);
    assert_eq!(r, Some(PathBuf::from("/")));
}

#[test]
fn detect_skips_missing_places() {
    let detector = RimeDirDetector;
    assert_eq!(detector.detect_with(Some("/nonexistent_12345"), None, Platform::Linux), None);
    assert_eq!(detector.detect_with(None, Some("/nonexistent_base_12345"), Platform::Linux), None);
    assert_eq!(detector.detect_with(Some("/nonexistent_12345"), Some("/"), Platform::Other), None);
    assert_eq!(detector.detect_with(None, None, Platform::Windows), None);
}

#[test]
fn first_existing_path_takes_the_first_that_exists() {
    let paths = vec![
        PathBuf::from("/nonexistent_12345"),
        PathBuf::from("/"),
        PathBuf::from("/nonexistent_67890"),
    ];
    assert_eq!(first_existing_path(paths), Some(PathBuf::from("/")));
    assert_eq!(first_existing_path(vec![PathBuf::from("/nonexistent_12345")]), None);
    assert_eq!(first_existing_path(Vec::new()), None);
}

#[test]
fn existence_answers_pick_the_first_yes() {
    let paths = vec![PathBuf::from("a"), PathBuf::from("b"), PathBuf::from("c")];
    assert_eq!(pick_first_existing(paths.clone(), &[false, true, true]), Some(PathBuf::from("b")));
    assert_eq!(pick_first_existing(paths.clone(), &[true]), Some(PathBuf::from("a")));
    assert_eq!(pick_first_existing(paths.clone(), &[false, false]), None);
    assert_eq!(pick_first_existing(paths.clone(), &[]), None);
    assert_eq!(pick_first_existing(Vec::new(), &[true]), None);
}

#[test]
fn places_to_try_put_rime_user_dir_first() {
    let detector = RimeDirDetector;
    let places = detector.places_to_try(Some("/r"), Some("/home/u"), Platform::Linux);
    assert_eq!(
        places,
        vec![
            PathBuf::from("/r"),
            PathBuf::from("/home/u").join(".config/fcitx/rime"),
            PathBuf::from("/home/u").join(".local/share/fcitx5/rime"),
            PathBuf::from("/home/u").join(".config/ibus/rime"),
        ]
    );
    assert_eq!(detector.places_to_try(None, Some("C:\\Users\\u\\AppData"), Platform::Windows),
        vec![PathBuf::from("C:\\Users\\u\\AppData").join("Rime")]);
    assert_eq!(detector.places_to_try(Some("/r"), None, Platform::Other), vec![PathBuf::from("/r")]);
    assert!(detector.places_to_try(None, None, Platform::MacOs).is_empty());
}

#[test]
fn fd_outcome_follows_the_run() {
    assert_eq!(fd_outcome(false, "/usr/bin/rime_deployer\n"), FdOutcome::NextRoot);
    assert_eq!(fd_outcome(true, ""), FdOutcome::Stop);
    assert_eq!(fd_outcome(true, "   \n/x\n"), FdOutcome::NextRoot);
    assert_eq!(
        fd_outcome(true, " /usr/bin/rime_deployer \n/other\n"),
        FdOutcome::Found("/usr/bin/rime_deployer".to_string())
    );
}

#[test]
fn fd_args_search_files_six_deep() {
    assert_eq!(
        fd_args("rime_deployer", "/usr"),
        vec!["-t", "f", "--max-depth", "6", "rime_deployer", "/usr"]
    );
}
