//! One line of a dictionary body: a `word<TAB>code[<TAB>weight]` entry or a
//! `## name` group header.
use vstd::prelude::*;

use crate::text::{
    chars_of, decimal, push_chars, is_ws, lemma_decimal_digits, lemma_parse_decimal, lemma_split_cons,
    lemma_split_single, lemma_trim_after_space, lemma_trim_unpadded,
    parse_u32, parse_u32_chars, push_decimal, split, split_chars,
    starts_with, starts_with_at, string_of, string_views, strip_prefixes, strip_prefixes_chars, trim, trim_chars,
};

verus! {

/// A dictionary entry, or a group header when `group` is set.
#[derive(Debug, Clone, PartialEq)]
pub struct Entry {
    pub word: String,
    pub code: String,
    pub weight: u32,
    pub group: Option<String>,
}

/// The mathematical content of an [`Entry`].
#[verifier::ext_equal]
pub struct EntryModel {
    pub word: Seq<char>,
    pub code: Seq<char>,
    pub weight: u32,
    pub group: Option<Seq<char>>,
}

/// The characters of an optional string.
pub open spec fn opt_view(o: Option<String>) -> Option<Seq<char>> {
    match o {
        Some(s) => Some(s@),
        None => None,
    }
}

impl View for Entry {
    type V = EntryModel;

    open spec fn view(&self) -> EntryModel {
        EntryModel {
            word: self.word@,
            code: self.code@,
            weight: self.weight,
            group: opt_view(self.group),
        }
    }
}

/// `##`, the marker of a group header.
pub open spec fn group_marker() -> Seq<char> {
    seq!['#', '#']
}

/// `## `, the prefix of a group header that [`Entry::group`] writes.
pub open spec fn group_prefix() -> Seq<char> {
    seq!['#', '#', ' ']
}

/// The weight field of a split entry line: the third field read as a `u32`,
/// or 0 when it is absent or not a number.
pub open spec fn weight_field(parts: Seq<Seq<char>>) -> u32 {
    if parts.len() > 2 {
        match parse_u32(parts[2]) {
            Some(w) => w,
            None => 0,
        }
    } else {
        0
    }
}

/// What a dictionary line denotes. Blank lines and `#` comments denote
/// nothing; `##` lines are group headers named by the rest of the line; any
/// other line needs at least a word and a code separated by a tab.
pub open spec fn spec_parse_entry(line: Seq<char>) -> Option<EntryModel> {
    let t = trim(line);
    if t.len() == 0 {
        None
    } else if starts_with(t, group_marker()) {
        Some(
            EntryModel {
                word: t,
                code: Seq::empty(),
                weight: 0,
                group: Some(trim(strip_prefixes(t, group_marker()))),
            },
        )
    } else if t[0] == '#' {
        None
    } else {
        let parts = split(t, '\t');
        if parts.len() < 2 {
            None
        } else {
            Some(
                EntryModel {
                    word: parts[0],
                    code: parts[1],
                    weight: weight_field(parts),
                    group: None,
                },
            )
        }
    }
}

/// The line that an entry is written as.
pub open spec fn spec_format_entry(e: EntryModel) -> Seq<char> {
    if e.group is Some {
        e.word
    } else if e.weight > 0 {
        e.word + seq!['\t'] + e.code + seq!['\t'] + decimal(e.weight as nat)
    } else {
        e.word + seq!['\t'] + e.code
    }
}

/// `s` has no tab in it.
pub open spec fn tab_free(s: Seq<char>) -> bool {
    forall|i: int| 0 <= i < s.len() ==> s[i] != '\t'
}

/// An entry whose written line reads back as the same entry: a group header
/// `## name` as [`Entry::group`] makes it, with a name that is neither empty
/// nor padded with whitespace, or
/// a plain entry whose word starts with a character other than whitespace
/// and `#`, whose word and code hold no tab, and whose line does not end in
/// whitespace.
pub open spec fn is_canonical(e: EntryModel) -> bool {
    match e.group {
        Some(g) => {
            &&& g.len() > 0
            &&& !is_ws(g[0])
            &&& !is_ws(g.last())
            &&& e.word == group_prefix() + g
            &&& e.code.len() == 0
            &&& e.weight == 0
        },
        None => {
            &&& e.word.len() > 0
            &&& !is_ws(e.word[0])
            &&& e.word[0] != '#'
            &&& tab_free(e.word)
            &&& tab_free(e.code)
            &&& (e.weight > 0 || (e.code.len() > 0 && !is_ws(e.code.last())))
        },
    }
}

impl Entry {
    /// A plain entry.
    pub fn new(word: String, code: String, weight: u32) -> (r: Self)
        ensures
            r@ == (EntryModel { word: word@, code: code@, weight, group: None }),
    {
        Entry { word, code, weight, group: None }
    }

    /// A group header named `name`, written `## name`.
    pub fn group(name: String) -> (r: Self)
        ensures
            r@ == (EntryModel {
                word: group_prefix() + name@,
                code: Seq::empty(),
                weight: 0,
                group: Some(name@),
            }),
    {
        let mut w: Vec<char> = vec!['#', '#', ' '];
        let nc = chars_of(name.as_str());
        assert(w@ == group_prefix());
        push_chars(&mut w, nc.as_slice());
        Entry { word: string_of(w.as_slice()), code: String::new(), weight: 0, group: Some(name) }
    }

    /// Reads one dictionary line.
    pub fn parse(line: &str) -> (r: Option<Self>)
        ensures
            match r {
                Some(e) => spec_parse_entry(line@) == Some(e@),
                None => spec_parse_entry(line@) is None,
            },
    {
        let chars = chars_of(line);
        let t = trim_chars(chars.as_slice());
        if t.len() == 0 {
            return None;
        }
        let marker: Vec<char> = vec!['#', '#'];
        proof {
            assert(t@.skip(0) == t@);
            assert(marker@ == group_marker());
        }
        if starts_with_at(t.as_slice(), 0, marker.as_slice()) {
            let rest = strip_prefixes_chars(t.as_slice(), marker.as_slice());
            let name = trim_chars(rest.as_slice());
            return Some(
                Entry {
                    word: string_of(t.as_slice()),
                    code: String::new(),
                    weight: 0,
                    group: Some(string_of(name.as_slice())),
                },
            );
        }
        if t[0] == '#' {
            return None;
        }
        let parts = split_chars(t.as_slice(), '\t');
        if parts.len() < 2 {
            return None;
        }
        let weight = if parts.len() > 2 {
            match parse_u32_chars(parts[2].as_slice()) {
                Some(w) => w,
                None => 0,
            }
        } else {
            0
        };
        let word = string_of(parts[0].as_slice());
        let code = string_of(parts[1].as_slice());
        Some(Entry { word, code, weight, group: None })
    }

    /// Whether this entry is a group header.
    pub fn is_group(&self) -> (r: bool)
        ensures
            r == (self@.group is Some),
    {
        self.group.is_some()
    }

    /// The line this entry is written as: the header text for a group,
    /// otherwise the tab-separated word, code and (when non-zero) weight.
    pub fn format(&self) -> (r: String)
        ensures
            r@ == spec_format_entry(self@),
    {
        if self.is_group() {
            return self.word.clone();
        }
        let mut out = chars_of(self.word.as_str());
        let code = chars_of(self.code.as_str());
        out.push('\t');
        push_chars(&mut out, code.as_slice());
        if self.weight > 0 {
            out.push('\t');
            push_decimal(&mut out, self.weight);
        }
        string_of(out.as_slice())
    }
}

/// Writing a canonical entry and reading the line back gives the entry.
pub proof fn law_parse_format_roundtrip(e: EntryModel)
    requires
        is_canonical(e),
    ensures
        spec_parse_entry(spec_format_entry(e)) == Some(e),
{
    let line = spec_format_entry(e);
    match e.group {
        Some(g) => {
            assert(line == group_prefix() + g);
            assert(line[0] == '#');
            assert(line.last() == g.last());
            lemma_trim_unpadded(line);
            assert(line.subrange(0, 2) =~= group_marker());
            let rest = line.skip(2);
            assert(rest =~= seq![' '] + g);
            assert(!starts_with(rest, group_marker())) by {
                assert(rest[0] == ' ');
                if starts_with(rest, group_marker()) {
                    assert(rest.subrange(0, 2)[0] == '#');
                }
            }
            assert(strip_prefixes(rest, group_marker()) == rest);
            assert(starts_with(line, group_marker()));
            assert(line.skip(group_marker().len() as int) == rest);
            assert(strip_prefixes(line, group_marker()) == strip_prefixes(rest, group_marker()));
            lemma_trim_after_space(g);
        },
        None => {
            let tab = seq!['\t'];
            let head = e.word + tab + e.code;
            assert(line[0] == e.word[0]);
            if e.weight > 0 {
                lemma_decimal_digits(e.weight as nat);
                let d = decimal(e.weight as nat);
                assert(line == head + tab + d);
                assert(line.last() == d.last());
            } else {
                assert(line == head);
                assert(line.last() == e.code.last());
            }
            lemma_trim_unpadded(line);
            assert(!starts_with(line, group_marker())) by {
                if starts_with(line, group_marker()) {
                    assert(line.subrange(0, 2)[0] == '#');
                }
            }
            lemma_split_cons(e.word, '\t', e.code + tab + decimal(e.weight as nat));
            if e.weight > 0 {
                lemma_decimal_digits(e.weight as nat);
                assert(line =~= e.word + tab + (e.code + tab + decimal(e.weight as nat)));
                lemma_split_cons(e.code, '\t', decimal(e.weight as nat));
                lemma_split_single(decimal(e.weight as nat), '\t');
                lemma_parse_decimal(e.weight);
                let parts = split(line, '\t');
                assert(parts =~= seq![e.word, e.code, decimal(e.weight as nat)]);
            } else {
                lemma_split_cons(e.word, '\t', e.code);
                lemma_split_single(e.code, '\t');
                let parts = split(line, '\t');
                assert(parts =~= seq![e.word, e.code]);
            }
        },
    }
}

/// The entries that a sequence of lines denotes, in order; lines that denote
/// nothing are left out.
pub open spec fn parse_lines(lines: Seq<Seq<char>>) -> Seq<EntryModel>
    decreases lines.len(),
{
    if lines.len() == 0 {
        Seq::empty()
    } else {
        let rest = parse_lines(lines.drop_last());
        match spec_parse_entry(lines.last()) {
            Some(e) => rest.push(e),
            None => rest,
        }
    }
}

/// The models of a sequence of entries.
pub open spec fn entry_views(v: Seq<Entry>) -> Seq<EntryModel> {
    v.map_values(|e: Entry| e@)
}

/// Reads every line and keeps the entries, in order.
pub fn parse_entries(lines: &[String]) -> (r: Vec<Entry>)
    ensures
        entry_views(r@) == parse_lines(string_views(lines@)),
{
    let mut r: Vec<Entry> = Vec::new();
    let n = lines.len();
    for i in 0..n
        invariant
            n == lines@.len(),
            entry_views(r@) == parse_lines(string_views(lines@).take(i as int)),
    {
        let ghost ls = string_views(lines@);
        proof {
            assert(ls.take(i + 1).drop_last() =~= ls.take(i as int));
            assert(ls.take(i + 1).last() == lines@[i as int]@);
        }
        match Entry::parse(lines[i].as_str()) {
            Some(e) => {
                let ghost old_r = r@;
                r.push(e);
                assert(entry_views(r@) =~= entry_views(old_r).push(e@));
            },
            None => {},
        }
    }
    assert(string_views(lines@).take(n as int) =~= string_views(lines@));
    r
}

} // verus!
