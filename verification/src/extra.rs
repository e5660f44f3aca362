//! Editing the raw lines of the main dictionary and of the extra dictionary
//! that new words go to: linking the extra dictionary from the main one's
//! `import_tables`, finding entries, and appending new ones.
use vstd::prelude::*;

use crate::dict::header::{
    find_header_end, find_import_key, import_key_from, item_line, item_marker,
    lemma_header_end_from, lemma_import_key_from, spec_find_header_end,
};
use crate::text::{
    after_last, after_last_chars, chars_of, decimal, free_of, is_ws, lead_count,
    lemma_decimal_digits, lemma_lead_count_bound, lemma_parse_decimal, lemma_split_cons,
    lemma_split_pieces, lemma_split_single, ne_pred, parse_u32, parse_u32_chars, push_chars,
    push_decimal, split, starts_with, starts_with_at, string_of, string_views, trim, trim_chars,
    trim_start, trim_start_chars,
};

verus! {

/// The file name of the main dictionary.
pub const MAIN_DICT: &'static str = "evan_mixied_wubi_pinyin.dict.yaml";

/// The file name of the extra dictionary that new words go to.
pub const EXTRA_DICT: &'static str = "wubi86_jidian_extra.dict.yaml";

/// The table name of the extra dictionary.
pub const EXTRA_NAME: &'static str = "wubi86_jidian_extra";

// ---------------------------------------------------------------------------
// Linking the extra dictionary
// ---------------------------------------------------------------------------

/// Whether some line starts (after indentation) with `- name`.
pub open spec fn spec_has_import_line(lines: Seq<Seq<char>>, name: Seq<char>) -> bool {
    exists|i: int|
        0 <= i < lines.len() && starts_with(trim_start(#[trigger] lines[i]), item_marker() + name)
}

/// Whether some line of `lines` starts (after indentation) with
/// `- import_name`.
pub fn has_import(lines: &[String], import_name: &str) -> (r: bool)
    ensures
        r == spec_has_import_line(string_views(lines@), import_name@),
{
    let mut target: Vec<char> = vec!['-', ' '];
    let nc = chars_of(import_name);
    push_chars(&mut target, nc.as_slice());
    assert(target@ == item_marker() + import_name@);
    let ghost ls = string_views(lines@);
    let n = lines.len();
    for i in 0..n
        invariant
            n == lines@.len(),
            ls == string_views(lines@),
            target@ == item_marker() + import_name@,
            forall|j: int|
                0 <= j < i ==> !starts_with(trim_start(#[trigger] ls[j]), item_marker() + import_name@),
    {
        assert(ls[i as int] == lines@[i as int]@);
        let t = trim_start_chars(chars_of(lines[i].as_str()).as_slice());
        assert(t@.skip(0) == t@);
        if starts_with_at(t.as_slice(), 0, target.as_slice()) {
            return true;
        }
    }
    false
}

/// A line that continues the `import_tables` block: a list item, a blank
/// line or a comment.
pub open spec fn continues_import_block(line: Seq<char>) -> bool {
    let t = trim_start(line);
    starts_with(t, item_marker()) || trim(line).len() == 0 || (t.len() > 0 && t[0] == '#')
}

/// The first line from `j` on that does not continue the import block (or
/// the number of lines when all do).
pub open spec fn block_end_from(lines: Seq<Seq<char>>, j: int) -> int
    decreases lines.len() - j,
{
    if j < 0 || j >= lines.len() {
        j
    } else if continues_import_block(lines[j]) {
        block_end_from(lines, j + 1)
    } else {
        j
    }
}

/// The main dictionary's lines after linking the extra dictionary, and
/// whether they changed: nothing changes when a line already imports it or
/// there is no `import_tables:` key; otherwise an item line for it goes
/// right after the key's block of items, blank lines and comments.
pub open spec fn spec_ensure_import(lines: Seq<Seq<char>>, name: Seq<char>) -> (bool, Seq<Seq<char>>) {
    if spec_has_import_line(lines, name) {
        (false, lines)
    } else {
        match import_key_from(lines, 0) {
            None => (false, lines),
            Some(i) => (true, lines.insert(block_end_from(lines, i + 1), item_line(name))),
        }
    }
}

proof fn lemma_block_end_from(lines: Seq<Seq<char>>, j: int)
    requires
        0 <= j <= lines.len(),
    ensures
        j <= block_end_from(lines, j) <= lines.len(),
    decreases lines.len() - j,
{
    if j < lines.len() && continues_import_block(lines[j]) {
        lemma_block_end_from(lines, j + 1);
    }
}

/// Adds an item line for the extra dictionary to the `import_tables` of the
/// main dictionary's `lines`, unless a line already imports it or there is
/// no `import_tables:` key; returns whether it added the line.
pub fn ensure_import_tables(lines: &mut Vec<String>) -> (r: bool)
    ensures
        (r, string_views(final(lines)@)) == spec_ensure_import(string_views(old(lines)@), EXTRA_NAME@),
{
    let ghost ls = string_views(lines@);
    if has_import(lines.as_slice(), EXTRA_NAME) {
        return false;
    }
    let marker: Vec<char> = vec!['-', ' '];
    let n = lines.len();
    let k = match find_import_key(lines.as_slice()) {
        Some(k) => k,
        None => {
            return false;
        },
    };
    proof {
        lemma_import_key_from(ls, 0);
    }
    let mut j: usize = k + 1;
    while j < n
        invariant
            n == lines@.len() == ls.len(),
            ls == string_views(lines@),
            marker@ == item_marker(),
            k < j <= n,
            block_end_from(ls, j as int) == block_end_from(ls, k + 1),
        ensures
            j == block_end_from(ls, k + 1),
        decreases n - j,
    {
        assert(ls[j as int] == lines@[j as int]@);
        let chars = chars_of(lines[j].as_str());
        let t = trim_start_chars(chars.as_slice());
        let full = trim_chars(chars.as_slice());
        assert(t@.skip(0) == t@);
        if starts_with_at(t.as_slice(), 0, marker.as_slice()) || full.len() == 0 || (t.len() > 0
            && t[0] == '#') {
            j = j + 1;
        } else {
            break;
        }
    }
    let mut line = chars_of("  - ");
    proof {
        reveal_strlit("  - ");
    }
    let nc = chars_of(EXTRA_NAME);
    push_chars(&mut line, nc.as_slice());
    assert(line@ =~= item_line(EXTRA_NAME@));
    let text = string_of(line.as_slice());
    lines.insert(j, text);
    assert(string_views(lines@) =~= ls.insert(j as int, item_line(EXTRA_NAME@)));
    true
}

/// The version that a new extra dictionary starts at.
pub open spec fn initial_version() -> Seq<char> {
    seq!['0', '.', '0', '.', '1']
}

/// The lines of a new extra dictionary: a header that names it and lists
/// its columns, and no entries.
pub open spec fn spec_extra_dict_template() -> Seq<Seq<char>> {
    seq![
        "---"@,
        "name: wubi86_jidian_extra"@,
        "version: \""@ + initial_version() + "\""@,
        "sort: by_weight"@,
        "columns:"@,
        "  - text"@,
        "  - code"@,
        "  - weight"@,
        "  - stem"@,
        "..."@,
    ]
}

/// Appends a copy of `s` to `lines`.
fn push_line(lines: &mut Vec<String>, s: &str)
    ensures
        string_views(final(lines)@) == string_views(old(lines)@).push(s@),
{
    let ghost old_lines = string_views(lines@);
    lines.push(string_of(chars_of(s).as_slice()));
    assert(string_views(lines@) =~= old_lines.push(s@));
}

/// The lines of a new extra dictionary.
pub fn extra_dict_template() -> (r: Vec<String>)
    ensures
        string_views(r@) == spec_extra_dict_template(),
{
    let mut lines: Vec<String> = Vec::new();
    push_line(&mut lines, "---");
    push_line(&mut lines, "name: wubi86_jidian_extra");
    let mut version = chars_of("version: \"");
    let digits: Vec<char> = vec!['0', '.', '0', '.', '1'];
    push_chars(&mut version, digits.as_slice());
    let ghost vmid = version@;
    version.push('"');
    proof {
        reveal_strlit("\"");
        assert(version@ =~= vmid + "\""@);
    }
    let ghost old_lines = string_views(lines@);
    lines.push(string_of(version.as_slice()));
    assert(string_views(lines@) =~= old_lines.push("version: \""@ + initial_version() + "\""@));
    push_line(&mut lines, "sort: by_weight");
    push_line(&mut lines, "columns:");
    push_line(&mut lines, "  - text");
    push_line(&mut lines, "  - code");
    push_line(&mut lines, "  - weight");
    push_line(&mut lines, "  - stem");
    push_line(&mut lines, "...");
    assert(string_views(lines@) =~= spec_extra_dict_template());
    lines
}

// ---------------------------------------------------------------------------
// Entries as raw lines
// ---------------------------------------------------------------------------

/// `word<TAB>code`, the start of an entry's line.
pub open spec fn entry_needle(word: Seq<char>, code: Seq<char>) -> Seq<char> {
    word + seq!['\t'] + code
}

/// Whether the trimmed `line` is an entry with this word and code: it
/// starts with `word<TAB>code`, followed by nothing or by a tab.
pub open spec fn line_has_entry(line: Seq<char>, word: Seq<char>, code: Seq<char>) -> bool {
    let t = trim(line);
    let nd = entry_needle(word, code);
    starts_with(t, nd) && (t.len() == nd.len() || t[nd.len() as int] == '\t')
}

/// The first line, from `i` on, that is an entry with this word and code.
pub open spec fn entry_line_from(lines: Seq<Seq<char>>, word: Seq<char>, code: Seq<char>, i: int) -> Option<int>
    decreases lines.len() - i,
{
    if i < 0 || i >= lines.len() {
        None
    } else if line_has_entry(lines[i], word, code) {
        Some(i)
    } else {
        entry_line_from(lines, word, code, i + 1)
    }
}

proof fn lemma_entry_line_from(lines: Seq<Seq<char>>, word: Seq<char>, code: Seq<char>, i: int)
    requires
        0 <= i,
    ensures
        entry_line_from(lines, word, code, i) matches Some(k) ==> i <= k < lines.len()
            && line_has_entry(lines[k], word, code),
    decreases lines.len() - i,
{
    if i < lines.len() && !line_has_entry(lines[i], word, code) {
        lemma_entry_line_from(lines, word, code, i + 1);
    }
}

/// The weight written at the end of an entry line: its last tab-separated
/// field, trimmed and read as a number, or 0 when it is not one.
pub open spec fn spec_parse_weight(line: Seq<char>) -> u32 {
    match parse_u32(trim(after_last(line, '\t'))) {
        Some(w) => w,
        None => 0,
    }
}

/// The line `word<TAB>code<TAB>weight`.
pub open spec fn spec_format_entry_line(word: Seq<char>, code: Seq<char>, weight: u32) -> Seq<char> {
    entry_needle(word, code) + seq!['\t'] + decimal(weight as nat)
}

/// The weight written at the end of an entry line.
pub fn parse_weight(line: &str) -> (r: u32)
    ensures
        r == spec_parse_weight(line@),
{
    let chars = chars_of(line);
    let last = after_last_chars(chars.as_slice(), '\t');
    let t = trim_chars(last.as_slice());
    match parse_u32_chars(t.as_slice()) {
        Some(w) => w,
        None => 0,
    }
}

/// The first line of `lines` that is an entry with this word and code.
pub fn entry_exists<'a>(lines: &'a [String], word: &str, code: &str) -> (r: Option<&'a String>)
    ensures
        match entry_line_from(string_views(lines@), word@, code@, 0) {
            Some(i) => r == Some(&lines@[i]),
            None => r is None,
        },
{
    let ghost ls = string_views(lines@);
    let mut needle = chars_of(word);
    needle.push('\t');
    let cc = chars_of(code);
    push_chars(&mut needle, cc.as_slice());
    assert(needle@ == entry_needle(word@, code@));
    let nl = needle.len();
    let n = lines.len();
    let mut i: usize = 0;
    while i < n
        invariant
            n == lines@.len() == ls.len(),
            ls == string_views(lines@),
            needle@ == entry_needle(word@, code@),
            nl == needle@.len(),
            i <= n,
            entry_line_from(ls, word@, code@, i as int) == entry_line_from(ls, word@, code@, 0),
        decreases n - i,
    {
        assert(ls[i as int] == lines@[i as int]@);
        let t = trim_chars(chars_of(lines[i].as_str()).as_slice());
        assert(t@.skip(0) == t@);
        if starts_with_at(t.as_slice(), 0, needle.as_slice()) && (t.len() == nl || t[nl] == '\t') {
            return Some(&lines[i]);
        }
        i = i + 1;
    }
    None
}

/// The line `word<TAB>code<TAB>weight`.
pub fn format_entry(word: &str, code: &str, weight: u32) -> (r: String)
    ensures
        r@ == spec_format_entry_line(word@, code@, weight),
{
    let mut out = chars_of(word);
    out.push('\t');
    let cc = chars_of(code);
    push_chars(&mut out, cc.as_slice());
    out.push('\t');
    push_decimal(&mut out, weight);
    string_of(out.as_slice())
}

/// What happened when a word was to be added.
#[derive(Debug, Clone, Copy, PartialEq, Eq)]
pub enum AddOutcome {
    /// The entry line was appended.
    Added,
    /// An entry with the same word and code was already there, with this
    /// weight; nothing changed.
    Exists { weight: u32 },
}

/// Appends the line `word<TAB>code<TAB>weight` to the dictionary body
/// `lines`, unless a line already holds an entry with this word and code.
pub fn add_entry_line(lines: &mut Vec<String>, word: &str, code: &str, weight: u32) -> (r: AddOutcome)
    ensures
        match entry_line_from(string_views(old(lines)@), word@, code@, 0) {
            Some(i) => r == (AddOutcome::Exists {
                weight: spec_parse_weight(string_views(old(lines)@)[i]),
            }) && final(lines)@ == old(lines)@,
            None => r == AddOutcome::Added && string_views(final(lines)@) == string_views(
                old(lines)@,
            ).push(spec_format_entry_line(word@, code@, weight)),
        },
{
    let ghost ls = string_views(lines@);
    proof {
        lemma_entry_line_from(ls, word@, code@, 0);
    }
    match entry_exists(lines.as_slice(), word, code) {
        Some(existing) => {
            let w = parse_weight(existing.as_str());
            return AddOutcome::Exists { weight: w };
        },
        None => {},
    }
    let line = format_entry(word, code, weight);
    lines.push(line);
    assert(string_views(lines@) =~= ls.push(spec_format_entry_line(word@, code@, weight)));
    AddOutcome::Added
}

/// The lines of a dictionary file split into its header (up to and with the
/// `...` line) and its body; `None` when there is no `...` line after the
/// first line.
pub fn split_header_body(lines: &[String]) -> (r: Option<(Vec<String>, Vec<String>)>)
    ensures
        match spec_find_header_end(string_views(lines@)) {
            Some(e) => r matches Some((h, b)) && string_views(h@) == string_views(lines@).take(
                e + 1,
            ) && string_views(b@) == string_views(lines@).skip(e + 1),
            None => r is None,
        },
{
    let ghost ls = string_views(lines@);
    let e = match find_header_end(lines) {
        Some(e) => e,
        None => return None,
    };
    let total = lines.len();
    proof {
        lemma_header_end_from(ls, 0);
        assert(ls.len() == total);
    }
    let mut head: Vec<String> = Vec::new();
    let mut body: Vec<String> = Vec::new();
    for i in 0..total
        invariant
            total == lines@.len() == ls.len(),
            ls == string_views(lines@),
            e < total,
            i <= e + 1 ==> string_views(head@) == ls.take(i as int) && body@.len() == 0,
            i > e + 1 ==> string_views(head@) == ls.take(e + 1) && string_views(body@) == ls.subrange(
                e + 1,
                i as int,
            ),
    {
        let line = lines[i].clone();
        assert(ls[i as int] == line@);
        if i <= e {
            let ghost old_head = string_views(head@);
            head.push(line);
            assert(string_views(head@) =~= old_head.push(line@));
            assert(string_views(head@) =~= ls.take(i + 1));
        } else {
            let ghost old_body = string_views(body@);
            body.push(line);
            assert(string_views(body@) =~= old_body.push(line@));
            assert(string_views(body@) =~= ls.subrange(e + 1, i + 1));
        }
    }
    assert(ls.subrange(e + 1, total as int) =~= ls.skip(e + 1));
    assert(string_views(body@) =~= ls.skip(e + 1));
    Some((head, body))
}

// ---------------------------------------------------------------------------
// Laws
// ---------------------------------------------------------------------------

/// The weight read from a formatted entry line is the weight written.
pub proof fn law_parse_weight_of_format(word: Seq<char>, code: Seq<char>, weight: u32)
    ensures
        spec_parse_weight(spec_format_entry_line(word, code, weight)) == weight,
{
    let d = decimal(weight as nat);
    let line = spec_format_entry_line(word, code, weight);
    lemma_decimal_digits(weight as nat);
    let f = crate::text::ne_pred('\t');
    assert forall|j: int| line.len() - d.len() <= j < line.len() implies f(#[trigger] line[j]) by {
        assert(line[j] == d[j - (line.len() - d.len())]);
    }
    assert(line[line.len() - 1 - d.len()] == '\t');
    crate::text::lemma_trail_count_is(line, f, d.len() as int);
    assert(after_last(line, '\t') =~= d);
    lemma_decimal_digits(weight as nat);
    assert(crate::text::is_digit(d[0]));
    crate::text::lemma_trim_unpadded(d);
    lemma_parse_decimal(weight);
}

/// Once an entry line has been appended, the entry is found, so adding the
/// same word and code again changes nothing. (The word must not start with
/// whitespace, which trimming would remove.)
pub proof fn law_added_entry_is_found(
    lines: Seq<Seq<char>>,
    word: Seq<char>,
    code: Seq<char>,
    weight: u32,
)
    requires
        word.len() > 0,
        !is_ws(word[0]),
    ensures
        entry_line_from(lines.push(spec_format_entry_line(word, code, weight)), word, code, 0) is Some,
{
    let l2 = lines.push(spec_format_entry_line(word, code, weight));
    let line = spec_format_entry_line(word, code, weight);
    let nd = entry_needle(word, code);
    lemma_decimal_digits(weight as nat);
    assert(line[0] == word[0]);
    assert(line.last() == decimal(weight as nat).last());
    crate::text::lemma_trim_unpadded(line);
    assert(line.subrange(0, nd.len() as int) =~= nd);
    assert(line[nd.len() as int] == '\t');
    assert(line_has_entry(l2[lines.len() as int], word, code));
    lemma_found_at_or_before(l2, word, code, 0, lines.len() as int);
}

/// A search from `i` finds something when line `k >= i` qualifies.
proof fn lemma_found_at_or_before(lines: Seq<Seq<char>>, word: Seq<char>, code: Seq<char>, i: int, k: int)
    requires
        0 <= i <= k < lines.len(),
        line_has_entry(lines[k], word, code),
    ensures
        entry_line_from(lines, word, code, i) is Some,
    decreases k - i,
{
    if i < k && !line_has_entry(lines[i], word, code) {
        lemma_found_at_or_before(lines, word, code, i + 1, k);
    }
}

/// Once the main dictionary's lines link the extra dictionary, linking it
/// again changes nothing.
pub proof fn law_ensure_import_idempotent(lines: Seq<Seq<char>>, name: Seq<char>)
    ensures
        spec_ensure_import(spec_ensure_import(lines, name).1, name) == (false, spec_ensure_import(
            lines,
            name,
        ).1),
{
    let (changed, l2) = spec_ensure_import(lines, name);
    if changed {
        let i = import_key_from(lines, 0)->0;
        lemma_import_key_from(lines, 0);
        lemma_block_end_from(lines, i + 1);
        let at = block_end_from(lines, i + 1);
        assert(l2[at] == item_line(name));
        let t = trim_start(item_line(name));
        let f = crate::text::ws_pred();
        assert(item_line(name)[0] == ' ' && item_line(name)[1] == ' ' && item_line(name)[2] == '-');
        assert forall|j: int| 0 <= j < 2 implies f(#[trigger] item_line(name)[j]) by {}
        crate::text::lemma_lead_count_is(item_line(name), f, 2);
        assert(t =~= item_marker() + name);
        assert(t.subrange(0, (item_marker() + name).len() as int) =~= item_marker() + name);
        assert(starts_with(trim_start(l2[at]), item_marker() + name));
        assert(spec_has_import_line(l2, name));
    }
}

/// The first two tab-separated fields of the trimmed line are `word` and
/// `code`.
pub open spec fn first_fields_are(line: Seq<char>, word: Seq<char>, code: Seq<char>) -> bool {
    let p = split(trim(line), '\t');
    p.len() >= 2 && p[0] == word && p[1] == code
}

/// The first piece of a split, and what follows it.
proof fn lemma_split_first(s: Seq<char>, c: char)
    ensures
        lead_count(s, ne_pred(c)) >= s.len() ==> split(s, c) == seq![s],
        lead_count(s, ne_pred(c)) < s.len() ==> {
            let i = lead_count(s, ne_pred(c)) as int;
            &&& split(s, c)[0] == s.take(i)
            &&& s[i] == c
            &&& split(s, c).len() == 1 + split(s.skip(i + 1), c).len()
            &&& split(s, c)[1] == split(s.skip(i + 1), c)[0]
        },
{
    lemma_lead_count_bound(s, ne_pred(c));
    let i = lead_count(s, ne_pred(c)) as int;
    if i < s.len() {
        lemma_split_pieces(s.skip(i + 1), c);
    }
}

/// A line is an entry with this word and code exactly when the first two
/// tab-separated fields of the trimmed line are that word and that code
/// (for a word and code without tabs): a line whose second field is a
/// longer or other code is not one.
pub proof fn law_entry_is_its_first_fields(line: Seq<char>, word: Seq<char>, code: Seq<char>)
    requires
        free_of(word, '\t'),
        free_of(code, '\t'),
    ensures
        line_has_entry(line, word, code) <==> first_fields_are(line, word, code),
{
    let t = trim(line);
    let nd = entry_needle(word, code);
    let tab = seq!['\t'];
    if line_has_entry(line, word, code) {
        let rest = t.skip(nd.len() as int);
        assert(t.subrange(0, nd.len() as int) == nd);
        assert forall|x: int| 0 <= x < t.len() implies t[x] == (nd + rest)[x] by {
            if x < nd.len() {
                assert(t[x] == t.subrange(0, nd.len() as int)[x]);
            }
        }
        assert(t =~= nd + rest);
        assert(t =~= word + tab + (code + rest));
        lemma_split_cons(word, '\t', code + rest);
        if rest.len() == 0 {
            assert(code + rest =~= code);
            lemma_split_single(code, '\t');
        } else {
            assert(rest[0] == '\t');
            assert(code + rest =~= code + tab + rest.drop_first());
            lemma_split_cons(code, '\t', rest.drop_first());
        }
    }
    if first_fields_are(line, word, code) {
        lemma_split_first(t, '\t');
        let i = lead_count(t, ne_pred('\t')) as int;
        assert(i < t.len());
        assert(t.take(i) == word);
        let r1 = t.skip(i + 1);
        lemma_split_first(r1, '\t');
        let j = lead_count(r1, ne_pred('\t')) as int;
        assert(t.subrange(0, nd.len() as int) =~= nd) by {
            if j >= r1.len() {
                assert(r1 == code);
            } else {
                assert(r1.take(j) == code);
            }
        }
        if j < r1.len() {
            assert(r1.take(j) == code);
            assert(t[nd.len() as int] == r1[j]);
        } else {
            assert(r1 == code);
            assert(t.len() == nd.len());
        }
    }
}

/// The search finds nothing exactly when no line is an entry with this word
/// and code.
proof fn lemma_entry_line_none(lines: Seq<Seq<char>>, word: Seq<char>, code: Seq<char>, i: int)
    requires
        0 <= i,
    ensures
        entry_line_from(lines, word, code, i) is None <==> forall|k: int|
            i <= k < lines.len() ==> !line_has_entry(#[trigger] lines[k], word, code),
    decreases lines.len() - i,
{
    if i < lines.len() {
        lemma_entry_line_none(lines, word, code, i + 1);
    }
}

/// Adding a word and code to a body appends the line exactly when no line
/// of the body has that word and that code as its first two fields (for a
/// word and code without tabs); otherwise the body stays as it is.
pub proof fn law_add_appends_new_fields(lines: Seq<Seq<char>>, word: Seq<char>, code: Seq<char>)
    requires
        free_of(word, '\t'),
        free_of(code, '\t'),
    ensures
        entry_line_from(lines, word, code, 0) is None <==> forall|k: int|
            0 <= k < lines.len() ==> !first_fields_are(#[trigger] lines[k], word, code),
{
    lemma_entry_line_none(lines, word, code, 0);
    assert forall|k: int| 0 <= k < lines.len() implies (line_has_entry(
        #[trigger] lines[k],
        word,
        code,
    ) <==> first_fields_are(lines[k], word, code)) by {
        law_entry_is_its_first_fields(lines[k], word, code);
    }
}

} // verus!
