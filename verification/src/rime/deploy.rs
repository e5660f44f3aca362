//! Where the Rime deployer program is looked for on each platform, and how
//! it is invoked.
use std::path::PathBuf;
use vstd::prelude::*;

use crate::rime::path::{path_buf_from, path_exists, path_from_text};
use crate::text::{chars_of, split_lines, string_of, string_views, text_lines, trim, trim_chars};

verus! {

/// The operating systems the tool knows deployer locations for.
#[derive(Debug, Clone, Copy, PartialEq, Eq)]
pub enum Platform {
    Windows,
    MacOs,
    Linux,
    Other,
}

/// The file name of the deployer program.
pub open spec fn spec_deployer_name(platform: Platform) -> Seq<char> {
    match platform {
        Platform::Windows => "WeaselDeployer.exe"@,
        _ => "rime_deployer"@,
    }
}

/// The fixed places where the deployer is installed.
pub open spec fn spec_hardcoded_paths(platform: Platform) -> Seq<Seq<char>> {
    match platform {
        Platform::Windows => seq![
            "C:\\Program Files\\Weasel\\WeaselDeployer.exe"@,
            "C:\\Program Files (x86)\\Weasel\\WeaselDeployer.exe"@,
            "D:\\Program Files\\Weasel\\WeaselDeployer.exe"@,
        ],
        Platform::MacOs => seq![
            "/usr/local/bin/rime_deployer"@,
            "/Library/Input Methods/Squirrel.app/Contents/MacOS/Squirrel"@,
        ],
        Platform::Linux => seq!["/usr/bin/rime_deployer"@, "/usr/local/bin/rime_deployer"@],
        Platform::Other => Seq::empty(),
    }
}

/// The directories searched (with `fd`) for the deployer.
pub open spec fn spec_fd_search_roots(platform: Platform) -> Seq<Seq<char>> {
    match platform {
        Platform::Windows => seq![
            "C:\\Program Files"@,
            "C:\\Program Files (x86)"@,
            "D:\\Program Files"@,
            "E:\\Program Files"@,
        ],
        Platform::MacOs => seq!["/Applications"@, "/usr/local"@, "/opt/homebrew"@],
        Platform::Linux => seq!["/usr"@, "/usr/local"@, "/opt"@],
        Platform::Other => Seq::empty(),
    }
}

/// The views of a list of text slices.
pub open spec fn str_views(v: Seq<&str>) -> Seq<Seq<char>> {
    v.map_values(|s: &str| s@)
}

/// The file name of the deployer program on `platform`.
pub fn deployer_name(platform: Platform) -> (r: &'static str)
    ensures
        r@ == spec_deployer_name(platform),
{
    match platform {
        Platform::Windows => "WeaselDeployer.exe",
        _ => "rime_deployer",
    }
}

/// Appends the path made of `text` to `paths`.
fn push_path(paths: &mut Vec<PathBuf>, text: &str)
    ensures
        final(paths)@ == old(paths)@.push(path_from_text(text@)),
{
    paths.push(path_buf_from(text));
}

/// The fixed places where the deployer is installed on `platform`.
pub fn hardcoded_paths(platform: Platform) -> (r: Vec<PathBuf>)
    ensures
        r@ == spec_hardcoded_paths(platform).map_values(|t: Seq<char>| path_from_text(t)),
{
    let mut paths: Vec<PathBuf> = Vec::new();
    match platform {
        Platform::Windows => {
            push_path(&mut paths, "C:\\Program Files\\Weasel\\WeaselDeployer.exe");
            push_path(&mut paths, "C:\\Program Files (x86)\\Weasel\\WeaselDeployer.exe");
            push_path(&mut paths, "D:\\Program Files\\Weasel\\WeaselDeployer.exe");
        },
        Platform::MacOs => {
            push_path(&mut paths, "/usr/local/bin/rime_deployer");
            push_path(&mut paths, "/Library/Input Methods/Squirrel.app/Contents/MacOS/Squirrel");
        },
        Platform::Linux => {
            push_path(&mut paths, "/usr/bin/rime_deployer");
            push_path(&mut paths, "/usr/local/bin/rime_deployer");
        },
        Platform::Other => {},
    }
    assert(paths@ =~= spec_hardcoded_paths(platform).map_values(|t: Seq<char>| path_from_text(t)));
    paths
}

/// The directories searched for the deployer on `platform`.
pub fn fd_search_roots(platform: Platform) -> (r: Vec<&'static str>)
    ensures
        str_views(r@) == spec_fd_search_roots(platform),
{
    let roots: Vec<&'static str> = match platform {
        Platform::Windows => vec![
            "C:\\Program Files",
            "C:\\Program Files (x86)",
            "D:\\Program Files",
            "E:\\Program Files",
        ],
        Platform::MacOs => vec!["/Applications", "/usr/local", "/opt/homebrew"],
        Platform::Linux => vec!["/usr", "/usr/local", "/opt"],
        Platform::Other => Vec::new(),
    };
    assert(str_views(roots@) =~= spec_fd_search_roots(platform));
    roots
}

/// Whether `s` holds `p` as a contiguous part.
pub open spec fn contains_text(s: Seq<char>, p: Seq<char>) -> bool {
    exists|i: int| 0 <= i && i + p.len() <= s.len() && #[trigger] s.subrange(i, i + p.len()) == p
}

/// Whether the deployer with this file stem is Weasel's, which is run with
/// `/deploy`.
pub fn is_weasel_deployer(stem: &str) -> (r: bool)
    ensures
        r == contains_text(stem@, "WeaselDeployer"@),
{
    let s = chars_of(stem);
    let p = chars_of("WeaselDeployer");
    let n = s.len();
    let m = p.len();
    proof {
        reveal_strlit("WeaselDeployer");
    }
    if m > n {
        return false;
    }
    let mut i: usize = 0;
    while i <= n - m
        invariant
            n == s@.len(),
            m == p@.len(),
            m <= n,
            p@ == "WeaselDeployer"@,
            s@ == stem@,
            m > 0,
            i <= n - m + 1,
            forall|j: int| 0 <= j < i ==> #[trigger] s@.subrange(j, j + m) != p@,
        decreases n - m + 1 - i,
    {
        if crate::text::starts_with_at(s.as_slice(), i, p.as_slice()) {
            assert(s@.skip(i as int).subrange(0, m as int) =~= s@.subrange(i as int, i + m));
            assert(s@.subrange(i as int, i + m) == p@);
            assert(stem@.subrange(i as int, i + "WeaselDeployer"@.len()) == "WeaselDeployer"@);
            return true;
        }
        assert(s@.skip(i as int).subrange(0, m as int) =~= s@.subrange(i as int, i + m));
        i = i + 1;
    }
    false
}

/// The first of `paths` whose existence check answered yes, given the
/// answers for the paths tried so far, in order, from index `i` on.
pub open spec fn first_answered_yes(paths: Seq<PathBuf>, answers: Seq<bool>, i: int) -> Option<
    PathBuf,
>
    decreases answers.len() - i,
{
    if i < 0 || i >= answers.len() || i >= paths.len() {
        None
    } else if answers[i] {
        Some(paths[i])
    } else {
        first_answered_yes(paths, answers, i + 1)
    }
}

/// What the answers pick is one of the paths.
proof fn lemma_first_answered_yes(paths: Seq<PathBuf>, answers: Seq<bool>, i: int)
    requires
        0 <= i,
    ensures
        first_answered_yes(paths, answers, i) matches Some(p) ==> paths.contains(p),
    decreases answers.len() - i,
{
    if i < answers.len() && i < paths.len() {
        if answers[i] {
            assert(paths[i] == first_answered_yes(paths, answers, i)->0);
        } else {
            lemma_first_answered_yes(paths, answers, i + 1);
        }
    }
}

/// The path that the existence answers pick: the first of `paths` whose
/// answer (in `answers`, in the same order) is yes, or `None` when no
/// answer given is.
pub fn pick_first_existing(paths: Vec<PathBuf>, answers: &[bool]) -> (r: Option<PathBuf>)
    ensures
        r == first_answered_yes(paths@, answers@, 0),
{
    let mut owned = paths;
    let n = if owned.len() < answers.len() {
        owned.len()
    } else {
        answers.len()
    };
    let mut i: usize = 0;
    while i < n
        invariant
            n <= owned@.len(),
            n <= answers@.len(),
            n == owned@.len() || n == answers@.len(),
            owned@ == paths@,
            i <= n,
            first_answered_yes(paths@, answers@, i as int) == first_answered_yes(
                paths@,
                answers@,
                0,
            ),
        decreases n - i,
    {
        if answers[i] {
            let p = owned.remove(i);
            return Some(p);
        }
        i = i + 1;
    }
    None
}

/// Existence answers for `n` paths checked in order until one exists: at
/// most `n` answers, every answer but the last is no, and the checks stop
/// early only at a yes.
pub open spec fn answers_in_order(n: nat, answers: Seq<bool>) -> bool {
    &&& answers.len() <= n
    &&& forall|k: int| 0 <= k < answers.len() - 1 ==> !#[trigger] answers[k]
    &&& answers.len() < n ==> answers.len() > 0 && answers.last()
}

/// The answers are what the existence check ([`path_exists`]) gave for the
/// paths, in order: each answer is an outcome of checking that path.
pub open spec fn answers_from_checks(paths: Seq<PathBuf>, answers: Seq<bool>) -> bool {
    forall|k: int|
        0 <= k < answers.len() ==> call_ensures(path_exists, (&paths[k],), #[trigger] answers[k])
}

/// Asks `check` about each path in order, until it answers yes; returns the
/// answers.
fn ask_in_order<F: Fn(&PathBuf) -> bool>(paths: &Vec<PathBuf>, check: F) -> (answers: Vec<bool>)
    requires
        forall|p: &PathBuf| #[trigger] check.requires((p,)),
    ensures
        answers_in_order(paths@.len(), answers@),
        forall|k: int|
            0 <= k < answers@.len() ==> check.ensures((&paths@[k],), #[trigger] answers@[k]),
{
    let n = paths.len();
    let mut answers: Vec<bool> = Vec::new();
    let mut found = false;
    let mut i: usize = 0;
    while i < n && !found
        invariant
            n == paths@.len(),
            i <= n,
            answers@.len() == i,
            found ==> i > 0 && answers@[i - 1],
            forall|k: int| 0 <= k < i && !(found && k == i - 1) ==> !#[trigger] answers@[k],
            forall|p: &PathBuf| #[trigger] check.requires((p,)),
            forall|k: int| 0 <= k < i ==> check.ensures((&paths@[k],), #[trigger] answers@[k]),
        decreases n - i,
    {
        let e = check(&paths[i]);
        answers.push(e);
        found = e;
        i = i + 1;
    }
    answers
}

/// The first of `paths` that exists on disk, tried in order: each path is
/// checked with [`path_exists`] until one exists, and the answers pick the
/// path (see [`pick_first_existing`]). The answers come from the
/// filesystem; the result is the first path that the checks answered yes,
/// or `None` when every path was answered no.
pub fn first_existing_path(paths: Vec<PathBuf>) -> (r: Option<PathBuf>)
    ensures
        exists|answers: Seq<bool>| #[trigger]
            answers_in_order(paths@.len(), answers) && answers_from_checks(paths@, answers) && r
                == first_answered_yes(paths@, answers, 0),
        r matches Some(p) ==> paths@.contains(p),
{
    let answers = ask_in_order(&paths, path_exists);
    let ghost a = answers@;
    assert(answers_from_checks(paths@, a));
    proof {
        lemma_first_answered_yes(paths@, a, 0);
    }
    let r = pick_first_existing(paths, answers.as_slice());
    assert(answers_in_order(paths@.len(), a) && answers_from_checks(paths@, a) && r
        == first_answered_yes(paths@, a, 0));
    r
}

/// Paths checked in order until one exists: the path picked is the one
/// whose check answered yes, after checks of every earlier path that
/// answered no; no path is picked only when every path was checked and
/// answered no.
pub proof fn law_first_existing_is_first(paths: Seq<PathBuf>, answers: Seq<bool>)
    requires
        answers_in_order(paths.len(), answers),
    ensures
        first_answered_yes(paths, answers, 0) matches Some(p) ==> {
            let k = answers.len() - 1;
            &&& 0 <= k < paths.len()
            &&& p == paths[k]
            &&& answers[k]
            &&& forall|j: int| 0 <= j < k ==> !answers[j]
        },
        first_answered_yes(paths, answers, 0) is None ==> answers.len() == paths.len() && forall|
            j: int,
        |
            0 <= j < answers.len() ==> !answers[j],
{
    let n = answers.len();
    if n > 0 && answers[n - 1] {
        lemma_first_answered_yes_at(paths, answers, 0, n - 1);
    } else {
        lemma_first_answered_yes_none(paths, answers, 0);
        if n < paths.len() {
            assert(answers.last());
        }
    }
}

/// With every answer before `k` no and answer `k` yes, the answers pick
/// path `k`.
proof fn lemma_first_answered_yes_at(paths: Seq<PathBuf>, answers: Seq<bool>, i: int, k: int)
    requires
        0 <= i <= k < answers.len(),
        k < paths.len(),
        answers[k],
        forall|j: int| i <= j < k ==> !#[trigger] answers[j],
    ensures
        first_answered_yes(paths, answers, i) == Some(paths[k]),
    decreases k - i,
{
    if i < k {
        lemma_first_answered_yes_at(paths, answers, i + 1, k);
    }
}

/// With every answer from `i` on no, the answers pick nothing.
proof fn lemma_first_answered_yes_none(paths: Seq<PathBuf>, answers: Seq<bool>, i: int)
    requires
        0 <= i,
        forall|j: int| i <= j < answers.len() ==> !#[trigger] answers[j],
    ensures
        first_answered_yes(paths, answers, i) is None,
    decreases answers.len() - i,
{
    if i < answers.len() && i < paths.len() {
        lemma_first_answered_yes_none(paths, answers, i + 1);
    }
}

/// The fixed places where the deployer is looked for, platform by
/// platform: Weasel's `WeaselDeployer.exe` under the program folders of the
/// `C:` and `D:` drives on Windows; `rime_deployer` in `/usr/local/bin`,
/// then Squirrel's program, on macOS; `rime_deployer` in `/usr/bin`, then
/// in `/usr/local/bin`, on Linux; none elsewhere. The deployer's name is
/// `WeaselDeployer.exe` on Windows and `rime_deployer` elsewhere.
pub proof fn law_deployer_places(platform: Platform)
    ensures
        spec_hardcoded_paths(Platform::Windows) == seq![
            "C:\\Program Files\\Weasel\\WeaselDeployer.exe"@,
            "C:\\Program Files (x86)\\Weasel\\WeaselDeployer.exe"@,
            "D:\\Program Files\\Weasel\\WeaselDeployer.exe"@,
        ],
        spec_hardcoded_paths(Platform::MacOs) == seq![
            "/usr/local/bin/rime_deployer"@,
            "/Library/Input Methods/Squirrel.app/Contents/MacOS/Squirrel"@,
        ],
        spec_hardcoded_paths(Platform::Linux) == seq![
            "/usr/bin/rime_deployer"@,
            "/usr/local/bin/rime_deployer"@,
        ],
        spec_hardcoded_paths(Platform::Other).len() == 0,
        spec_deployer_name(platform) == (if platform == Platform::Windows {
            "WeaselDeployer.exe"@
        } else {
            "rime_deployer"@
        }),
        spec_fd_search_roots(Platform::Windows) == seq![
            "C:\\Program Files"@,
            "C:\\Program Files (x86)"@,
            "D:\\Program Files"@,
            "E:\\Program Files"@,
        ],
        spec_fd_search_roots(Platform::MacOs) == seq!["/Applications"@, "/usr/local"@, "/opt/homebrew"@],
        spec_fd_search_roots(Platform::Linux) == seq!["/usr"@, "/usr/local"@, "/opt"@],
        spec_fd_search_roots(Platform::Other).len() == 0,
{
}

/// What one `fd` run over a search root leads to.
#[derive(Debug, Clone, PartialEq, Eq)]
pub enum FdOutcome {
    /// The deployer was found at this path.
    Found(String),
    /// Nothing was found under this root; the next root is searched.
    NextRoot,
    /// The search ends without a deployer.
    Stop,
}

/// What an `fd` run that ended (successfully or not) with this standard
/// output leads to: a failed run moves to the next root; a successful run
/// with no output line ends the search; otherwise its first line, trimmed,
/// is the deployer's path, or, when blank, the next root is searched.
pub open spec fn spec_fd_outcome(success: bool, stdout: Seq<char>) -> (bool, Seq<char>, bool) {
    if !success {
        (false, Seq::empty(), false)
    } else if text_lines(stdout).len() == 0 {
        (false, Seq::empty(), true)
    } else if trim(text_lines(stdout)[0]).len() == 0 {
        (false, Seq::empty(), false)
    } else {
        (true, trim(text_lines(stdout)[0]), false)
    }
}

/// Whether an outcome is `Found` (with its path) or `Stop`, as in
/// [`spec_fd_outcome`].
pub open spec fn fd_outcome_view(o: FdOutcome) -> (bool, Seq<char>, bool) {
    match o {
        FdOutcome::Found(p) => (true, p@, false),
        FdOutcome::NextRoot => (false, Seq::empty(), false),
        FdOutcome::Stop => (false, Seq::empty(), true),
    }
}

/// What an `fd` run with this result and standard output leads to (see
/// [`spec_fd_outcome`]).
pub fn fd_outcome(success: bool, stdout: &str) -> (r: FdOutcome)
    ensures
        fd_outcome_view(r) == spec_fd_outcome(success, stdout@),
{
    if !success {
        return FdOutcome::NextRoot;
    }
    let lines = split_lines(stdout);
    if lines.len() == 0 {
        return FdOutcome::Stop;
    }
    assert(string_views(lines@)[0] == lines@[0]@);
    let t = trim_chars(chars_of(lines[0].as_str()).as_slice());
    if t.len() == 0 {
        FdOutcome::NextRoot
    } else {
        FdOutcome::Found(string_of(t.as_slice()))
    }
}

/// The arguments of the `fd` run that looks for the file `name` under
/// `root`: files only, at most six directories deep.
pub fn fd_args(name: &str, root: &str) -> (r: Vec<String>)
    ensures
        string_views(r@) == seq!["-t"@, "f"@, "--max-depth"@, "6"@, name@, root@],
{
    let mut r: Vec<String> = Vec::new();
    r.push(string_of(chars_of("-t").as_slice()));
    r.push(string_of(chars_of("f").as_slice()));
    r.push(string_of(chars_of("--max-depth").as_slice()));
    r.push(string_of(chars_of("6").as_slice()));
    r.push(string_of(chars_of(name).as_slice()));
    r.push(string_of(chars_of(root).as_slice()));
    assert(string_views(r@) =~= seq!["-t"@, "f"@, "--max-depth"@, "6"@, name@, root@]);
    r
}

} // verus!
