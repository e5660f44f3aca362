//! Where the Rime user directory is on each platform.
use std::path::PathBuf;
use vstd::prelude::*;

use crate::rime::deploy::{
    answers_from_checks, answers_in_order, first_answered_yes, first_existing_path,
    law_first_existing_is_first, str_views, Platform,
};
use crate::rime::path::{joined_path, path_buf_from, path_from_text, path_join};

verus! {

/// The environment variable that names the Rime user directory directly.
pub const RIME_USER_DIR_VAR: &'static str = "RIME_USER_DIR";

/// Finds the Rime user directory.
pub struct RimeDirDetector;

/// The environment variable whose directory the platform's candidates are
/// relative to.
pub open spec fn spec_base_dir_var(platform: Platform) -> Seq<char> {
    match platform {
        Platform::Windows => "APPDATA"@,
        _ => "HOME"@,
    }
}

/// The candidate user directories, relative to the base directory, in the
/// order they are tried.
pub open spec fn spec_user_dir_candidates(platform: Platform) -> Seq<Seq<char>> {
    match platform {
        Platform::Windows => seq!["Rime"@],
        Platform::MacOs => seq!["Library/Rime"@],
        Platform::Linux => seq![
            ".config/fcitx/rime"@,
            ".local/share/fcitx5/rime"@,
            ".config/ibus/rime"@,
        ],
        Platform::Other => Seq::empty(),
    }
}

/// The characters of an optional text.
pub open spec fn opt_str_view(o: Option<&str>) -> Option<Seq<char>> {
    match o {
        Some(t) => Some(t@),
        None => None,
    }
}

/// The places that detection tries, in order: the directory named by
/// `RIME_USER_DIR`, then the platform's candidates under the base
/// directory.
pub open spec fn detect_places(
    rime_user_dir: Option<Seq<char>>,
    base_dir: Option<Seq<char>>,
    platform: Platform,
) -> Seq<PathBuf> {
    (match rime_user_dir {
        Some(d) => seq![path_from_text(d)],
        None => Seq::empty(),
    }) + (match base_dir {
        Some(b) => spec_user_dir_candidates(platform).map_values(
            |t: Seq<char>| joined_path(path_from_text(b), t),
        ),
        None => Seq::empty(),
    })
}

impl RimeDirDetector {
    /// The path `dir`, when it exists: the path is checked once, and it is
    /// returned when the check answered yes (see [`first_existing_path`]).
    pub fn from_explicit_path(&self, dir: &str) -> (r: Option<PathBuf>)
        ensures
            exists|answers: Seq<bool>| #[trigger]
                answers_in_order(1, answers) && answers_from_checks(
                    seq![path_from_text(dir@)],
                    answers,
                ) && r == first_answered_yes(seq![path_from_text(dir@)], answers, 0),
            r matches Some(p) ==> p == path_from_text(dir@),
    {
        let path = path_buf_from(dir);
        let places = vec![path];
        assert(places@ =~= seq![path_from_text(dir@)]);
        first_existing_path(places)
    }

    /// The places that detection tries, in order (see [`detect_places`]).
    pub fn places_to_try(
        &self,
        rime_user_dir: Option<&str>,
        base_dir: Option<&str>,
        platform: Platform,
    ) -> (r: Vec<PathBuf>)
        ensures
            r@ == detect_places(opt_str_view(rime_user_dir), opt_str_view(base_dir), platform),
    {
        let ghost rd = opt_str_view(rime_user_dir);
        let mut places: Vec<PathBuf> = Vec::new();
        if let Some(d) = rime_user_dir {
            places.push(path_buf_from(d));
        }
        let ghost first = places@;
        assert(first =~= match rd {
            Some(d) => seq![path_from_text(d)],
            None => Seq::<PathBuf>::empty(),
        });
        if let Some(b) = base_dir {
            let base = path_buf_from(b);
            let cands = self.user_dir_candidates(platform);
            let ghost cs = spec_user_dir_candidates(platform);
            let n = cands.len();
            for i in 0..n
                invariant
                    n == cands@.len(),
                    str_views(cands@) == cs,
                    base == path_from_text(b@),
                    places@ == first + cs.take(i as int).map_values(
                        |t: Seq<char>| joined_path(path_from_text(b@), t),
                    ),
            {
                let p = path_join(&base, cands[i]);
                assert(str_views(cands@)[i as int] == cands@[i as int]@);
                places.push(p);
                assert(cs.take(i + 1).map_values(|t: Seq<char>| joined_path(path_from_text(b@), t))
                    =~= cs.take(i as int).map_values(
                    |t: Seq<char>| joined_path(path_from_text(b@), t),
                ).push(p));
            }
            assert(cs.take(n as int) =~= cs);
        } else {
            assert(places@ =~= first + Seq::<PathBuf>::empty());
        }
        places
    }

    /// The Rime user directory, given the values of the environment variables
    /// `RIME_USER_DIR` and [`RimeDirDetector::base_dir_var`] (`None` when
    /// unset): the places of [`detect_places`] (the `RIME_USER_DIR`
    /// directory first) are checked in order until one exists, and that one
    /// is returned (see [`first_existing_path`]). The answers come from the
    /// filesystem.
    pub fn detect_with(
        &self,
        rime_user_dir: Option<&str>,
        base_dir: Option<&str>,
        platform: Platform,
    ) -> (r: Option<PathBuf>)
        ensures
            exists|answers: Seq<bool>| #[trigger]
                answers_in_order(
                    detect_places(opt_str_view(rime_user_dir), opt_str_view(base_dir), platform).len(),
                    answers,
                ) && answers_from_checks(
                    detect_places(opt_str_view(rime_user_dir), opt_str_view(base_dir), platform),
                    answers,
                ) && r == first_answered_yes(
                    detect_places(opt_str_view(rime_user_dir), opt_str_view(base_dir), platform),
                    answers,
                    0,
                ),
            r matches Some(p) ==> detect_places(
                opt_str_view(rime_user_dir),
                opt_str_view(base_dir),
                platform,
            ).contains(p),
    {
        let places = self.places_to_try(rime_user_dir, base_dir, platform);
        first_existing_path(places)
    }

    /// The environment variable holding the directory that the platform's
    /// candidates are relative to.
    pub fn base_dir_var(&self, platform: Platform) -> (r: &'static str)
        ensures
            r@ == spec_base_dir_var(platform),
    {
        match platform {
            Platform::Windows => "APPDATA",
            _ => "HOME",
        }
    }

    /// The candidate user directories relative to the base directory, in
    /// the order they are tried.
    pub fn user_dir_candidates(&self, platform: Platform) -> (r: Vec<&'static str>)
        ensures
            str_views(r@) == spec_user_dir_candidates(platform),
    {
        let c: Vec<&'static str> = match platform {
            Platform::Windows => vec!["Rime"],
            Platform::MacOs => vec!["Library/Rime"],
            Platform::Linux => vec![
                ".config/fcitx/rime",
                ".local/share/fcitx5/rime",
                ".config/ibus/rime",
            ],
            Platform::Other => Vec::new(),
        };
        assert(str_views(c@) =~= spec_user_dir_candidates(platform));
        c
    }
}

/// The directory named by `RIME_USER_DIR` wins: when its check answered
/// yes, detection returns it, whatever the other places are.
pub proof fn law_rime_user_dir_first(
    d: Seq<char>,
    base_dir: Option<Seq<char>>,
    platform: Platform,
    answers: Seq<bool>,
)
    requires
        answers_in_order(detect_places(Some(d), base_dir, platform).len(), answers),
        answers.len() > 0,
        answers[0],
    ensures
        first_answered_yes(detect_places(Some(d), base_dir, platform), answers, 0) == Some(
            path_from_text(d),
        ),
{
    let places = detect_places(Some(d), base_dir, platform);
    assert(places[0] == path_from_text(d));
}

/// Without `RIME_USER_DIR`, detection returns a candidate under the base
/// directory, the first whose check answered yes.
pub proof fn law_candidates_without_rime_user_dir(
    b: Seq<char>,
    platform: Platform,
    answers: Seq<bool>,
)
    requires
        answers_in_order(detect_places(None, Some(b), platform).len(), answers),
    ensures
        first_answered_yes(detect_places(None, Some(b), platform), answers, 0) matches Some(p)
            ==> p == joined_path(
            path_from_text(b),
            spec_user_dir_candidates(platform)[answers.len() - 1],
        ),
{
    let places = detect_places(None, Some(b), platform);
    law_first_existing_is_first(places, answers);
    assert(places =~= spec_user_dir_candidates(platform).map_values(
        |t: Seq<char>| joined_path(path_from_text(b), t),
    ));
}

/// The usual places of the Rime user directory: `Rime` under `APPDATA` on
/// Windows; `Library/Rime` under `HOME` on macOS; under `HOME` on Linux,
/// fcitx's `.config/fcitx/rime`, then fcitx5's `.local/share/fcitx5/rime`,
/// then ibus's `.config/ibus/rime`; none elsewhere.
pub proof fn law_user_dir_places()
    ensures
        spec_base_dir_var(Platform::Windows) == "APPDATA"@,
        spec_base_dir_var(Platform::MacOs) == "HOME"@,
        spec_base_dir_var(Platform::Linux) == "HOME"@,
        spec_user_dir_candidates(Platform::Windows) == seq!["Rime"@],
        spec_user_dir_candidates(Platform::MacOs) == seq!["Library/Rime"@],
        spec_user_dir_candidates(Platform::Linux) == seq![
            ".config/fcitx/rime"@,
            ".local/share/fcitx5/rime"@,
            ".config/ibus/rime"@,
        ],
        spec_user_dir_candidates(Platform::Other).len() == 0,
{
}

} // verus!
