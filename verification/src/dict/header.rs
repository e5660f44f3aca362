//! The YAML header of a dictionary file: the lines from the first line up
//! to the `...` line that ends the header, with the fields the tools read.
use vstd::prelude::*;

use crate::dict::entry::opt_view;
use crate::text::{
    chars_eq, chars_of, push_chars, split, split_chars, starts_with, starts_with_at, string_of, string_views,
    strip_prefixes, strip_prefixes_chars, trim, trim_char, trim_char_chars, trim_chars, trim_start,
    trim_start_chars,
};

verus! {

// ---------------------------------------------------------------------------
// Model
// ---------------------------------------------------------------------------

/// The line `...` that ends a YAML header.
pub open spec fn end_marker() -> Seq<char> {
    seq!['.', '.', '.']
}

/// The first line after the first one whose trimmed text is `...`,
/// searching from line `i` on.
pub open spec fn header_end_from(lines: Seq<Seq<char>>, i: int) -> Option<int>
    decreases lines.len() - i,
{
    if i < 0 || i >= lines.len() {
        None
    } else if i > 0 && is_end_line(lines[i]) {
        Some(i)
    } else {
        header_end_from(lines, i + 1)
    }
}

/// The index of the line that ends the header: the first line, other than
/// the first one, whose trimmed text is `...`.
pub open spec fn spec_find_header_end(lines: Seq<Seq<char>>) -> Option<int> {
    header_end_from(lines, 0)
}

/// A line whose trimmed text is `...`.
pub open spec fn is_end_line(line: Seq<char>) -> bool {
    trim(line) == end_marker()
}

/// A search for the header end from `i` finds `e` when `e` is an end line
/// and no line between `i` and `e`, other than the first, is one.
proof fn lemma_header_end_at(s: Seq<Seq<char>>, i: int, e: int)
    requires
        0 <= i <= e < s.len(),
        0 < e,
        is_end_line(s[e]),
        forall|j: int| 0 < j < e ==> !is_end_line(#[trigger] s[j]),
    ensures
        header_end_from(s, i) == Some(e),
    decreases e - i,
{
    if i < e {
        lemma_header_end_at(s, i + 1, e);
    }
}

/// No line before the header end found from `i`, other than the first, is
/// an end line.
proof fn lemma_header_end_first(s: Seq<Seq<char>>, i: int, e: int)
    requires
        0 <= i,
        header_end_from(s, i) == Some(e),
    ensures
        forall|j: int| i <= j < e && 0 < j ==> !is_end_line(#[trigger] s[j]),
    decreases s.len() - i,
{
    lemma_header_end_from(s, i);
    if i < e {
        lemma_header_end_first(s, i + 1, e);
    }
}

/// Inserting a line that is not an end line, before the last line of
/// header lines that end at their last line, keeps them ending there, as
/// long as the first line is not an end line either.
pub proof fn lemma_insert_keeps_end(raw: Seq<Seq<char>>, at: int, x: Seq<char>)
    requires
        spec_find_header_end(raw) == Some(raw.len() - 1),
        raw.len() >= 1,
        !is_end_line(raw[0]),
        0 <= at <= raw.len() - 1,
        !is_end_line(x),
    ensures
        spec_find_header_end(raw.insert(at, x)) == Some(raw.len() as int),
        !is_end_line(raw.insert(at, x)[0]),
{
    let t = raw.insert(at, x);
    let e = raw.len() - 1;
    lemma_header_end_from(raw, 0);
    lemma_header_end_first(raw, 0, e);
    assert(t[e + 1] == raw[e]);
    assert forall|j: int| 0 < j < e + 1 implies !is_end_line(#[trigger] t[j]) by {
        if j < at {
            assert(t[j] == raw[j]);
        } else if j > at {
            assert(t[j] == raw[j - 1]);
            if j - 1 == 0 {
                assert(!is_end_line(raw[0]));
            }
        }
    }
    lemma_header_end_at(t, 0, e + 1);
    if at > 0 {
        assert(t[0] == raw[0]);
    }
}

/// What a search for the header end finds is a `...` line after the first.
pub proof fn lemma_header_end_from(lines: Seq<Seq<char>>, i: int)
    requires
        0 <= i,
    ensures
        header_end_from(lines, i) matches Some(e) ==> i <= e < lines.len() && e > 0 && trim(
            lines[e],
        ) == end_marker(),
    decreases lines.len() - i,
{
    if i < lines.len() && !(i > 0 && trim(lines[i]) == end_marker()) {
        lemma_header_end_from(lines, i + 1);
    }
}

/// The header end found in `s` from `i` is found in any `t` that agrees
/// with `s` up to it.
pub proof fn lemma_header_end_agree(s: Seq<Seq<char>>, t: Seq<Seq<char>>, i: int, e: int)
    requires
        0 <= i,
        header_end_from(s, i) == Some(e),
        e < t.len(),
        forall|j: int| 0 <= j <= e ==> #[trigger] t[j] == s[j],
    ensures
        header_end_from(t, i) == Some(e),
    decreases s.len() - i,
{
    lemma_header_end_from(s, i);
    if i < e {
        assert(t[i] == s[i]);
        lemma_header_end_from(s, i + 1);
        lemma_header_end_agree(s, t, i + 1, e);
    } else {
        assert(t[e] == s[e]);
    }
}

/// A header whose lines end at their first `...` line after the first line,
/// as the lines of a header read from a file do.
pub open spec fn ends_at_last_line(h: HeaderModel) -> bool {
    spec_find_header_end(h.raw) == Some(h.raw.len() - 1)
}

/// The value that a `key: value` line gives: the text after the key, with
/// surrounding whitespace and then double and single quotes removed.
pub open spec fn field_value(line: Seq<char>, target: Seq<char>) -> Seq<char> {
    trim_char(trim_char(trim(strip_prefixes(trim_start(line), target)), '"'), '\'')
}

/// The first non-empty value of a line that starts (after indentation) with
/// `target`, searching from line `i` on.
pub open spec fn field_from(lines: Seq<Seq<char>>, target: Seq<char>, i: int) -> Option<Seq<char>>
    decreases lines.len() - i,
{
    if i < 0 || i >= lines.len() {
        None
    } else if starts_with(trim_start(lines[i]), target) && field_value(lines[i], target).len() > 0 {
        Some(field_value(lines[i], target))
    } else {
        field_from(lines, target, i + 1)
    }
}

/// The value of the header field `field` (`field: value`).
pub open spec fn spec_extract_field(lines: Seq<Seq<char>>, field: Seq<char>) -> Option<Seq<char>> {
    field_from(lines, field.push(':'), 0)
}

// ---------------------------------------------------------------------------
// Header end and fields
// ---------------------------------------------------------------------------

/// The index of the `...` line that ends the header, if there is one.
pub fn find_header_end(lines: &[String]) -> (r: Option<usize>)
    ensures
        match r {
            Some(e) => spec_find_header_end(string_views(lines@)) == Some(e as int),
            None => spec_find_header_end(string_views(lines@)) is None,
        },
{
    let ghost ls = string_views(lines@);
    let dots: Vec<char> = vec!['.', '.', '.'];
    let n = lines.len();
    let mut i: usize = 0;
    while i < n
        invariant
            n == lines@.len() == ls.len(),
            ls == string_views(lines@),
            dots@ == end_marker(),
            i <= n,
            header_end_from(ls, i as int) == spec_find_header_end(ls),
        decreases n - i,
    {
        let t = trim_chars(chars_of(lines[i].as_str()).as_slice());
        assert(ls[i as int] == lines@[i as int]@);
        if i > 0 && chars_eq(t.as_slice(), dots.as_slice()) {
            return Some(i);
        }
        i = i + 1;
    }
    None
}

/// The value of `field` in `lines`: the first line that starts (after
/// indentation) with `field:` and has a non-empty value.
pub fn extract_field(lines: &[String], field: &str) -> (r: Option<String>)
    ensures
        opt_view(r) == spec_extract_field(string_views(lines@), field@),
{
    let ghost ls = string_views(lines@);
    let mut target = chars_of(field);
    target.push(':');
    let n = lines.len();
    let mut i: usize = 0;
    while i < n
        invariant
            n == lines@.len() == ls.len(),
            ls == string_views(lines@),
            target@ == field@.push(':'),
            i <= n,
            field_from(ls, target@, i as int) == spec_extract_field(ls, field@),
        decreases n - i,
    {
        assert(ls[i as int] == lines@[i as int]@);
        let t = trim_start_chars(chars_of(lines[i].as_str()).as_slice());
        assert(t@.skip(0) == t@);
        if starts_with_at(t.as_slice(), 0, target.as_slice()) {
            let v0 = strip_prefixes_chars(t.as_slice(), target.as_slice());
            let v1 = trim_chars(v0.as_slice());
            let v2 = trim_char_chars(v1.as_slice(), '"');
            let v3 = trim_char_chars(v2.as_slice(), '\'');
            if v3.len() > 0 {
                return Some(string_of(v3.as_slice()));
            }
        }
        i = i + 1;
    }
    None
}

// ---------------------------------------------------------------------------
// The import_tables section
// ---------------------------------------------------------------------------

/// `import_tables:`, the key of the list of imported tables.
pub open spec fn import_key_text() -> Seq<char> {
    "import_tables:"@
}

/// `# import_tables:`, the same key commented out.
pub open spec fn commented_import_key_text() -> Seq<char> {
    "# import_tables:"@
}

/// `- `, the start of a list item.
pub open spec fn item_marker() -> Seq<char> {
    seq!['-', ' ']
}

/// A line holding the `import_tables:` key, possibly commented out.
pub open spec fn is_import_key(line: Seq<char>) -> bool {
    starts_with(trim_start(line), import_key_text()) || starts_with(
        trim_start(line),
        commented_import_key_text(),
    )
}

/// The first line holding the `import_tables:` key, searching from `i` on.
pub open spec fn import_key_from(lines: Seq<Seq<char>>, i: int) -> Option<int>
    decreases lines.len() - i,
{
    if i < 0 || i >= lines.len() {
        None
    } else if is_import_key(lines[i]) {
        Some(i)
    } else {
        import_key_from(lines, i + 1)
    }
}

/// What a search for the key line finds is a key line at or after `i`.
pub proof fn lemma_import_key_from(lines: Seq<Seq<char>>, i: int)
    requires
        0 <= i,
    ensures
        import_key_from(lines, i) matches Some(k) ==> i <= k < lines.len() && is_import_key(
            lines[k],
        ),
    decreases lines.len() - i,
{
    if i < lines.len() && !is_import_key(lines[i]) {
        lemma_import_key_from(lines, i + 1);
    }
}

/// The table that a list item names: the item text without its `- `
/// markers, trimmed, up to a `#` comment, trimmed again.
pub open spec fn item_name(t: Seq<char>) -> Seq<char> {
    trim(split(trim(strip_prefixes(t, item_marker())), '#')[0])
}

/// The list items that follow the key, from line `j` on: items are read
/// (and their line indexes kept, named or not), blank and comment lines are
/// passed over, and any other line ends the list.
pub open spec fn scan_imports(lines: Seq<Seq<char>>, j: int) -> (Seq<Seq<char>>, Seq<usize>)
    decreases lines.len() - j,
{
    if j < 0 || j >= lines.len() {
        (Seq::empty(), Seq::empty())
    } else {
        let t = trim_start(lines[j]);
        if starts_with(t, item_marker()) {
            let rest = scan_imports(lines, j + 1);
            let name = item_name(t);
            (
                if name.len() > 0 {
                    seq![name] + rest.0
                } else {
                    rest.0
                },
                seq![j as usize] + rest.1,
            )
        } else if t.len() == 0 || t[0] == '#' {
            scan_imports(lines, j + 1)
        } else {
            (Seq::empty(), Seq::empty())
        }
    }
}

/// The mathematical content of a [`DictHeader`].
#[verifier::ext_equal]
pub struct HeaderModel {
    pub header_end: usize,
    pub name: Seq<char>,
    pub version: Option<Seq<char>>,
    pub sort: Option<Seq<char>>,
    pub import_tables: Seq<Seq<char>>,
    pub raw: Seq<Seq<char>>,
    pub import_line_indices: Seq<usize>,
    pub import_key_index: Option<usize>,
}

/// The header that `lines` start with, if they hold a `...` line after the
/// first one.
pub open spec fn spec_parse_header(lines: Seq<Seq<char>>) -> Option<HeaderModel> {
    match spec_find_header_end(lines) {
        None => None,
        Some(e) => {
            let raw = lines.take(e + 1);
            let key = import_key_from(raw, 0);
            let scanned = match key {
                Some(k) => scan_imports(raw, k + 1),
                None => (Seq::empty(), Seq::empty()),
            };
            Some(
                HeaderModel {
                    header_end: e as usize,
                    name: match spec_extract_field(raw, "name"@) {
                        Some(v) => v,
                        None => Seq::empty(),
                    },
                    version: spec_extract_field(raw, "version"@),
                    sort: spec_extract_field(raw, "sort"@),
                    import_tables: scanned.0,
                    raw,
                    import_line_indices: scanned.1,
                    import_key_index: match key {
                        Some(k) => Some(k as usize),
                        None => None,
                    },
                },
            )
        },
    }
}

/// The header of a dictionary file.
#[derive(Debug, Clone)]
pub struct DictHeader {
    pub header_end: usize,
    pub name: String,
    pub version: Option<String>,
    pub sort: Option<String>,
    pub import_tables: Vec<String>,
    /// All header lines preserved verbatim (including --- and ...)
    raw: Vec<String>,
    /// Indexes of import_tables list item lines within `raw`
    import_line_indices: Vec<usize>,
    /// Index of the `import_tables:` key line, if present
    import_key_index: Option<usize>,
}

impl DictHeader {
    /// The header's lines.
    pub closed spec fn raw_lines(&self) -> Seq<Seq<char>> {
        string_views(self.raw@)
    }

    /// The indexes of the import list items among the header's lines.
    pub closed spec fn import_lines(&self) -> Seq<usize> {
        self.import_line_indices@
    }

    /// The index of the `import_tables:` key among the header's lines.
    pub closed spec fn import_key(&self) -> Option<usize> {
        self.import_key_index
    }
}

impl View for DictHeader {
    type V = HeaderModel;

    closed spec fn view(&self) -> HeaderModel {
        HeaderModel {
            header_end: self.header_end,
            name: self.name@,
            version: opt_view(self.version),
            sort: opt_view(self.sort),
            import_tables: string_views(self.import_tables@),
            raw: self.raw_lines(),
            import_line_indices: self.import_lines(),
            import_key_index: self.import_key(),
        }
    }
}

/// The index of the first line holding the `import_tables:` key (possibly
/// commented out).
pub fn find_import_key(raw: &[String]) -> (r: Option<usize>)
    ensures
        match r {
            Some(k) => import_key_from(string_views(raw@), 0) == Some(k as int),
            None => import_key_from(string_views(raw@), 0) is None,
        },
{
    let ghost ls = string_views(raw@);
    let key = chars_of("import_tables:");
    let commented = chars_of("# import_tables:");
    let n = raw.len();
    let mut i: usize = 0;
    while i < n
        invariant
            n == raw@.len() == ls.len(),
            ls == string_views(raw@),
            key@ == import_key_text(),
            commented@ == commented_import_key_text(),
            i <= n,
            import_key_from(ls, i as int) == import_key_from(ls, 0),
        decreases n - i,
    {
        assert(ls[i as int] == raw@[i as int]@);
        let t = trim_start_chars(chars_of(raw[i].as_str()).as_slice());
        assert(t@.skip(0) == t@);
        if starts_with_at(t.as_slice(), 0, key.as_slice()) || starts_with_at(
            t.as_slice(),
            0,
            commented.as_slice(),
        ) {
            return Some(i);
        }
        i = i + 1;
    }
    None
}

/// The list items after the key line `k`.
fn collect_imports(raw: &[String], k: usize) -> (r: (Vec<String>, Vec<usize>))
    requires
        k < raw@.len(),
    ensures
        string_views(r.0@) == scan_imports(string_views(raw@), k + 1).0,
        r.1@ == scan_imports(string_views(raw@), k + 1).1,
{
    let ghost ls = string_views(raw@);
    let marker: Vec<char> = vec!['-', ' '];
    let mut names: Vec<String> = Vec::new();
    let mut indices: Vec<usize> = Vec::new();
    let n = raw.len();
    let mut j: usize = k + 1;
    while j < n
        invariant
            n == raw@.len() == ls.len(),
            ls == string_views(raw@),
            marker@ == item_marker(),
            k + 1 <= j <= n,
            string_views(names@) + scan_imports(ls, j as int).0 == scan_imports(ls, k + 1).0,
            indices@ + scan_imports(ls, j as int).1 == scan_imports(ls, k + 1).1,
        decreases n - j,
    {
        assert(ls[j as int] == raw@[j as int]@);
        let t = trim_start_chars(chars_of(raw[j].as_str()).as_slice());
        assert(t@.skip(0) == t@);
        if starts_with_at(t.as_slice(), 0, marker.as_slice()) {
            let val = trim_chars(strip_prefixes_chars(t.as_slice(), marker.as_slice()).as_slice());
            let pieces = split_chars(val.as_slice(), '#');
            proof {
                crate::text::lemma_split_pieces(val@, '#');
            }
            let name = trim_chars(pieces[0].as_slice());
            let ghost rest = scan_imports(ls, j + 1);
            let ghost old_names = string_views(names@);
            let ghost old_indices = indices@;
            if name.len() > 0 {
                names.push(string_of(name.as_slice()));
                assert(string_views(names@) =~= old_names.push(name@));
                assert(string_views(names@) + rest.0 =~= old_names + (seq![name@] + rest.0));
            } else {
                assert(string_views(names@) =~= old_names);
            }
            indices.push(j);
            assert(indices@ + rest.1 =~= old_indices + (seq![j] + rest.1));
        } else if t.len() == 0 || t[0] == '#' {
        } else {
            assert(scan_imports(ls, j as int).0 =~= Seq::<Seq<char>>::empty());
            assert(string_views(names@) + scan_imports(ls, j as int).0 =~= string_views(names@));
            assert(indices@ + scan_imports(ls, j as int).1 =~= indices@);
            return (names, indices);
        }
        j = j + 1;
    }
    assert(string_views(names@) + scan_imports(ls, n as int).0 =~= string_views(names@));
    assert(indices@ + scan_imports(ls, n as int).1 =~= indices@);
    (names, indices)
}

impl DictHeader {
    /// Reads the header at the start of `lines`; `None` when no line after
    /// the first one is `...`.
    pub fn parse(lines: &[String]) -> (r: Option<Self>)
        ensures
            match r {
                Some(h) => spec_parse_header(string_views(lines@)) == Some(h@) && h.wf()
                    && ends_at_last_line(h@) && items_before_end(h@) && (!is_end_line(lines@[0]@)
                    ==> closed_header(h@)),
                None => spec_parse_header(string_views(lines@)) is None,
            },
    {
        let header_end = match find_header_end(lines) {
            Some(e) => e,
            None => return None,
        };
        let ghost ls = string_views(lines@);
        let total = lines.len();
        proof {
            assert(ls.len() == total);
            lemma_header_end_from(ls, 0);
            lemma_parsed_header_wf(ls);
            lemma_parsed_items_before_end(ls);
            assert(ls[0] == lines@[0]@);
            if !is_end_line(ls[0]) {
                lemma_parsed_header_closed(ls);
            }
        }
        let mut raw: Vec<String> = Vec::new();
        let mut i: usize = 0;
        while i <= header_end
            invariant
                header_end < lines@.len(),
                ls == string_views(lines@),
                i <= header_end + 1,
                string_views(raw@) == ls.take(i as int),
            decreases header_end + 1 - i,
        {
            let line = lines[i].clone();
            let ghost old_raw = string_views(raw@);
            raw.push(line);
            assert(ls[i as int] == lines@[i as int]@);
            assert(string_views(raw@) =~= old_raw.push(line@));
            assert(string_views(raw@) =~= ls.take(i + 1));
            i = i + 1;
        }
        let name = match extract_field(raw.as_slice(), "name") {
            Some(v) => v,
            None => String::new(),
        };
        let version = extract_field(raw.as_slice(), "version");
        let sort = extract_field(raw.as_slice(), "sort");
        let key = find_import_key(raw.as_slice());
        proof {
            lemma_import_key_from(string_views(raw@), 0);
        }
        let (import_tables, import_line_indices) = match key {
            Some(k) => collect_imports(raw.as_slice(), k),
            None => (Vec::new(), Vec::new()),
        };
        let h = DictHeader {
            header_end,
            name,
            version,
            sort,
            import_tables,
            raw,
            import_line_indices,
            import_key_index: key,
        };
        proof {
            assert(string_views(h.import_tables@) =~= spec_parse_header(ls).unwrap().import_tables);
            assert(h@ =~= spec_parse_header(ls).unwrap());
            lemma_header_end_agree(ls, ls.take(header_end + 1), 0, header_end as int);
        }
        Some(h)
    }

    /// The header's lines, as they were read (and extended by
    /// [`DictHeader::add_import`]).
    pub fn to_lines(&self) -> (r: &[String])
        ensures
            string_views(r@) == self@.raw,
    {
        self.raw.as_slice()
    }
}

// ---------------------------------------------------------------------------
// Imports: query and insertion
// ---------------------------------------------------------------------------

/// The list item line `  - name` that [`DictHeader::add_import`] writes.
pub open spec fn item_line(name: Seq<char>) -> Seq<char> {
    seq![' ', ' ', '-', ' '] + name
}

/// Whether a header imports `name`: its import list holds it, or one of its
/// lines starts (after indentation) with `- name`.
pub open spec fn spec_has_import(h: HeaderModel, name: Seq<char>) -> bool {
    ||| h.import_tables.contains(name)
    ||| exists|i: int|
        0 <= i < h.raw.len() && starts_with(trim_start(#[trigger] h.raw[i]), item_marker() + name)
}

/// A line before which a new `import_tables:` block goes: `columns:`,
/// `encoder:` or the `...` end line.
pub open spec fn is_block_start(line: Seq<char>) -> bool {
    ||| starts_with(trim_start(line), "columns:"@)
    ||| starts_with(trim_start(line), "encoder:"@)
    ||| trim_start(line) == end_marker()
}

/// The first line, from `i` on, before which a new block goes.
pub open spec fn block_start_from(lines: Seq<Seq<char>>, i: int) -> Option<int>
    decreases lines.len() - i,
{
    if i < 0 || i >= lines.len() {
        None
    } else if is_block_start(lines[i]) {
        Some(i)
    } else {
        block_start_from(lines, i + 1)
    }
}

/// A header whose bookkeeping is consistent: its lines end at `header_end`,
/// and the key and item indexes point at lines.
pub open spec fn wf_header(h: HeaderModel) -> bool {
    &&& h.raw.len() >= 1
    &&& h.header_end + 1 == h.raw.len()
    &&& forall|j: int| 0 <= j < h.import_line_indices.len() ==> #[trigger] h.import_line_indices[j]
        < h.raw.len()
    &&& h.import_key_index matches Some(k) ==> k < h.raw.len()
}

/// The header after `name` is added to its imports: when the header has an
/// `import_tables:` key, an item line goes after the last item (or after the
/// key); otherwise a new `import_tables:` block with the item goes before
/// the first `columns:`, `encoder:` or `...` line (or before the last line).
pub open spec fn spec_add_import(h: HeaderModel, name: Seq<char>) -> HeaderModel {
    match h.import_key_index {
        Some(k) => {
            let at = if h.import_line_indices.len() > 0 {
                h.import_line_indices.last() + 1
            } else {
                k + 1
            };
            HeaderModel {
                header_end: (h.header_end + 1) as usize,
                import_tables: h.import_tables.push(name),
                raw: h.raw.insert(at, item_line(name)),
                import_line_indices: h.import_line_indices.push(at as usize),
                ..h
            }
        },
        None => {
            let at = match block_start_from(h.raw, 0) {
                Some(p) => p,
                None => h.raw.len() - 1,
            };
            HeaderModel {
                header_end: (h.header_end + 2) as usize,
                import_tables: h.import_tables.push(name),
                raw: h.raw.insert(at, import_key_text()).insert(at + 1, item_line(name)),
                import_line_indices: seq![(at + 1) as usize],
                import_key_index: Some(at as usize),
                ..h
            }
        },
    }
}

/// What a search for the block start finds is at or after `i`.
pub proof fn lemma_block_start_from(lines: Seq<Seq<char>>, i: int)
    requires
        0 <= i,
    ensures
        block_start_from(lines, i) matches Some(p) ==> i <= p < lines.len(),
    decreases lines.len() - i,
{
    if i < lines.len() && !is_block_start(lines[i]) {
        lemma_block_start_from(lines, i + 1);
    }
}

/// The item indexes that a scan from `j` finds lie between `j` and the end.
pub proof fn lemma_scan_imports_bounds(lines: Seq<Seq<char>>, j: int)
    requires
        0 <= j,
        lines.len() <= usize::MAX,
    ensures
        forall|x: int|
            0 <= x < scan_imports(lines, j).1.len() ==> j <= #[trigger] scan_imports(lines, j).1[x]
                < lines.len() && starts_with(
                trim_start(lines[scan_imports(lines, j).1[x] as int]),
                item_marker(),
            ),
    decreases lines.len() - j,
{
    if j < lines.len() {
        lemma_scan_imports_bounds(lines, j + 1);
        let t = trim_start(lines[j]);
        if starts_with(t, item_marker()) {
            let rest = scan_imports(lines, j + 1);
            assert forall|x: int| 0 <= x < scan_imports(lines, j).1.len() implies j
                <= #[trigger] scan_imports(lines, j).1[x] < lines.len() && starts_with(
                trim_start(lines[scan_imports(lines, j).1[x] as int]),
                item_marker(),
            ) by {
                if x > 0 {
                    assert(scan_imports(lines, j).1[x] == rest.1[x - 1]);
                }
            }
        } else if t.len() == 0 || t[0] == '#' {
            let rest = scan_imports(lines, j + 1);
            assert(scan_imports(lines, j) == rest);
            assert forall|x: int| 0 <= x < scan_imports(lines, j).1.len() implies j
                <= #[trigger] scan_imports(lines, j).1[x] < lines.len() && starts_with(
                trim_start(lines[scan_imports(lines, j).1[x] as int]),
                item_marker(),
            ) by {
                assert(scan_imports(lines, j).1[x] == rest.1[x]);
            }
        }
    }
}

/// A header read from lines is consistent.
pub proof fn lemma_parsed_header_wf(lines: Seq<Seq<char>>)
    requires
        lines.len() <= usize::MAX,
    ensures
        spec_parse_header(lines) matches Some(h) ==> wf_header(h),
{
    lemma_header_end_from(lines, 0);
    if let Some(e) = spec_find_header_end(lines) {
        let raw = lines.take(e + 1);
        lemma_import_key_from(raw, 0);
        if let Some(k) = import_key_from(raw, 0) {
            lemma_scan_imports_bounds(raw, k + 1);
        }
    }
}

/// The first line before which a new `import_tables:` block goes.
fn find_block_start(raw: &[String]) -> (r: Option<usize>)
    ensures
        match r {
            Some(p) => block_start_from(string_views(raw@), 0) == Some(p as int),
            None => block_start_from(string_views(raw@), 0) is None,
        },
{
    let ghost ls = string_views(raw@);
    let columns = chars_of("columns:");
    let encoder = chars_of("encoder:");
    let dots: Vec<char> = vec!['.', '.', '.'];
    let n = raw.len();
    let mut i: usize = 0;
    while i < n
        invariant
            n == raw@.len() == ls.len(),
            ls == string_views(raw@),
            columns@ == "columns:"@,
            encoder@ == "encoder:"@,
            dots@ == end_marker(),
            i <= n,
            block_start_from(ls, i as int) == block_start_from(ls, 0),
        decreases n - i,
    {
        assert(ls[i as int] == raw@[i as int]@);
        let t = trim_start_chars(chars_of(raw[i].as_str()).as_slice());
        assert(t@.skip(0) == t@);
        if starts_with_at(t.as_slice(), 0, columns.as_slice()) || starts_with_at(
            t.as_slice(),
            0,
            encoder.as_slice(),
        ) || chars_eq(t.as_slice(), dots.as_slice()) {
            return Some(i);
        }
        i = i + 1;
    }
    None
}

impl DictHeader {
    /// Whether the header's bookkeeping is consistent (see [`wf_header`]).
    pub open spec fn wf(&self) -> bool {
        wf_header(self@)
    }

    /// Whether the header imports `name`: the import list holds it, or a
    /// header line starts (after indentation) with `- name`.
    pub fn has_import(&self, name: &str) -> (r: bool)
        ensures
            r == spec_has_import(self@, name@),
    {
        let nc = chars_of(name);
        let mut target: Vec<char> = vec!['-', ' '];
        push_chars(&mut target, nc.as_slice());
        assert(target@ == item_marker() + name@);
        let ghost tables = string_views(self.import_tables@);
        let n = self.import_tables.len();
        for i in 0..n
            invariant
                n == self.import_tables@.len(),
                nc@ == name@,
                tables == string_views(self.import_tables@),
                forall|j: int| 0 <= j < i ==> tables[j] != name@,
        {
            let t = chars_of(self.import_tables[i].as_str());
            assert(tables[i as int] == self.import_tables@[i as int]@);
            if chars_eq(t.as_slice(), nc.as_slice()) {
                assert(tables.contains(name@));
                return true;
            }
        }
        assert(!tables.contains(name@));
        let ghost ls = string_views(self.raw@);
        let k = self.raw.len();
        for i in 0..k
            invariant
                k == self.raw@.len(),
                ls == string_views(self.raw@),
                target@ == item_marker() + name@,
                forall|j: int|
                    0 <= j < i ==> !starts_with(trim_start(#[trigger] ls[j]), item_marker() + name@),
        {
            assert(ls[i as int] == self.raw@[i as int]@);
            let t = trim_start_chars(chars_of(self.raw[i].as_str()).as_slice());
            assert(t@.skip(0) == t@);
            if starts_with_at(t.as_slice(), 0, target.as_slice()) {
                assert(self@.raw == ls);
                assert(starts_with(trim_start(self@.raw[i as int]), item_marker() + name@));
                return true;
            }
        }
        assert(self@.raw == ls);
        false
    }

    /// Adds `name` to the imported tables unless the header already imports
    /// it; returns whether it added the table.
    pub fn add_import(&mut self, name: &str) -> (r: bool)
        requires
            old(self).wf(),
            old(self)@.header_end + 2 <= usize::MAX,
        ensures
            r == !spec_has_import(old(self)@, name@),
            r ==> final(self)@ == spec_add_import(old(self)@, name@),
            !r ==> final(self)@ == old(self)@,
            final(self).wf(),
            closed_header(old(self)@) ==> closed_header(final(self)@),
    {
        if self.has_import(name) {
            return false;
        }
        let ghost h = self@;
        let nc = chars_of(name);
        let mut line = chars_of("  - ");
        proof {
            reveal_strlit("  - ");
        }
        push_chars(&mut line, nc.as_slice());
        assert(line@ =~= item_line(name@));
        let target = string_of(line.as_slice());
        let table_name = string_of(nc.as_slice());
        match self.import_key_index {
            Some(key_idx) => {
                let n_items = self.import_line_indices.len();
                let insert_at = if n_items > 0 {
                    self.import_line_indices[n_items - 1] + 1
                } else {
                    key_idx + 1
                };
                self.raw.insert(insert_at, target);
                self.header_end = self.header_end + 1;
                self.import_tables.push(table_name);
                self.import_line_indices.push(insert_at);
                proof {
                    assert(self@.raw =~= h.raw.insert(insert_at as int, item_line(name@)));
                    assert(self@ =~= spec_add_import(h, name@));
                }
            },
            None => {
                let insert_at = match find_block_start(self.raw.as_slice()) {
                    Some(p) => p,
                    None => self.raw.len() - 1,
                };
                proof {
                    lemma_block_start_from(h.raw, 0);
                }
                let key_line = string_of(chars_of("import_tables:").as_slice());
                self.raw.insert(insert_at, key_line);
                self.raw.insert(insert_at + 1, target);
                self.header_end = self.header_end + 2;
                self.import_tables.push(table_name);
                self.import_key_index = Some(insert_at);
                self.import_line_indices = vec![insert_at + 1];
                proof {
                    assert(self@.raw =~= h.raw.insert(insert_at as int, import_key_text()).insert(
                        insert_at + 1,
                        item_line(name@),
                    ));
                    assert(self@ =~= spec_add_import(h, name@));
                }
            },
        }
        proof {
            if closed_header(h) {
                law_add_import_keeps_header_closed(h, name@);
            }
        }
        true
    }
}

/// Once a table has been added to a header's imports, the header imports
/// it, so adding it again changes nothing.
pub proof fn law_added_import_is_present(h: HeaderModel, name: Seq<char>)
    requires
        wf_header(h),
        h.header_end + 2 <= usize::MAX,
        !spec_has_import(h, name),
    ensures
        spec_has_import(spec_add_import(h, name), name),
        wf_header(spec_add_import(h, name)),
{
    let h2 = spec_add_import(h, name);
    assert(h2.import_tables.last() == name);
    assert(h2.import_tables.contains(name));
    lemma_block_start_from(h.raw, 0);
    match h.import_key_index {
        Some(k) => {
            let at = if h.import_line_indices.len() > 0 {
                h.import_line_indices.last() + 1
            } else {
                k + 1
            };
            if h.import_line_indices.len() > 0 {
                assert(h.import_line_indices[h.import_line_indices.len() - 1] < h.raw.len());
            }
            assert(h2.raw.len() == h.raw.len() + 1);
            assert forall|j: int| 0 <= j < h2.import_line_indices.len() implies #[trigger]
                h2.import_line_indices[j] < h2.raw.len() by {
                if j < h.import_line_indices.len() {
                    assert(h2.import_line_indices[j] == h.import_line_indices[j]);
                }
            }
        },
        None => {
            assert(h2.raw.len() == h.raw.len() + 2);
        },
    }
}

/// A header that ends at its last line (the `...` line), whose first line
/// is not an end line, and whose import key and items come before the last
/// line.
pub open spec fn closed_header(h: HeaderModel) -> bool {
    &&& h.raw.len() >= 1
    &&& ends_at_last_line(h)
    &&& !is_end_line(h.raw[0])
    &&& items_before_end(h)
}

/// The import key and the import items of a header come before its last
/// line.
pub open spec fn items_before_end(h: HeaderModel) -> bool {
    &&& h.import_key_index matches Some(k) ==> k < h.raw.len() - 1
    &&& forall|j: int| 0 <= j < h.import_line_indices.len() ==> #[trigger] h.import_line_indices[j]
        < h.raw.len() - 1
}

/// A line whose text after indentation starts with something other than
/// `.` is not an end line.
proof fn lemma_not_end_line(l: Seq<char>)
    requires
        trim_start(l).len() > 0,
        trim_start(l)[0] != '.',
    ensures
        !is_end_line(l),
{
    crate::text::lemma_trim_keeps_first(l);
    assert(end_marker()[0] == '.');
}

/// A line whose text after indentation starts with a prefix that does not
/// start with `.` is not an end line.
proof fn lemma_prefixed_not_end_line(l: Seq<char>, p: Seq<char>)
    requires
        starts_with(trim_start(l), p),
        p.len() > 0,
        p[0] != '.',
    ensures
        !is_end_line(l),
{
    assert(trim_start(l).subrange(0, p.len() as int)[0] == trim_start(l)[0]);
    lemma_not_end_line(l);
}

/// A header read from lines ends at its last line and has its import key
/// and items before it.
pub proof fn lemma_parsed_items_before_end(lines: Seq<Seq<char>>)
    requires
        lines.len() <= usize::MAX,
    ensures
        spec_parse_header(lines) matches Some(h) ==> h.raw.len() >= 1 && ends_at_last_line(h)
            && items_before_end(h),
{
    lemma_header_end_from(lines, 0);
    lemma_parsed_header_wf(lines);
    if let Some(e) = spec_find_header_end(lines) {
        let raw = lines.take(e + 1);
        let h = spec_parse_header(lines).unwrap();
        lemma_header_end_agree(lines, raw, 0, e);
        assert(raw[e] == lines[e]);
        lemma_import_key_from(raw, 0);
        if let Some(k) = import_key_from(raw, 0) {
            reveal_strlit("import_tables:");
            reveal_strlit("# import_tables:");
            if starts_with(trim_start(raw[k]), import_key_text()) {
                lemma_prefixed_not_end_line(raw[k], import_key_text());
            } else {
                lemma_prefixed_not_end_line(raw[k], commented_import_key_text());
            }
            lemma_scan_imports_bounds(raw, k + 1);
            assert forall|j: int| 0 <= j < h.import_line_indices.len() implies #[trigger]
                h.import_line_indices[j] < h.raw.len() - 1 by {
                let x = h.import_line_indices[j] as int;
                lemma_prefixed_not_end_line(raw[x], item_marker());
            }
        }
    }
}

/// A header read from lines whose first line is not an end line is closed.
pub proof fn lemma_parsed_header_closed(lines: Seq<Seq<char>>)
    requires
        lines.len() <= usize::MAX,
        lines.len() > 0,
        !is_end_line(lines[0]),
    ensures
        spec_parse_header(lines) matches Some(h) ==> closed_header(h),
{
    lemma_parsed_items_before_end(lines);
    if let Some(e) = spec_find_header_end(lines) {
        lemma_header_end_from(lines, 0);
        assert(lines.take(e + 1)[0] == lines[0]);
    }
}

/// Adding a table to the imports of a closed header gives a closed header:
/// the lines written back still end with the header's `...` line, and
/// reading them again finds the header at the same place.
pub proof fn law_add_import_keeps_header_closed(h: HeaderModel, name: Seq<char>)
    requires
        wf_header(h),
        closed_header(h),
        h.header_end + 2 <= usize::MAX,
    ensures
        closed_header(spec_add_import(h, name)),
{
    let h2 = spec_add_import(h, name);
    let item = item_line(name);
    assert(item.subrange(0, 4) =~= seq![' ', ' ', '-', ' ']);
    assert(item[0] == ' ' && item[1] == ' ' && item[2] == '-');
    crate::text::lemma_lead_count_is(item, crate::text::ws_pred(), 2);
    assert(trim_start(item)[0] == '-');
    lemma_not_end_line(item);
    lemma_block_start_from(h.raw, 0);
    match h.import_key_index {
        Some(k) => {
            let at = if h.import_line_indices.len() > 0 {
                h.import_line_indices.last() + 1
            } else {
                k + 1
            };
            if h.import_line_indices.len() > 0 {
                assert(h.import_line_indices[h.import_line_indices.len() - 1] < h.raw.len() - 1);
            }
            lemma_insert_keeps_end(h.raw, at, item);
            assert forall|j: int| 0 <= j < h2.import_line_indices.len() implies #[trigger]
                h2.import_line_indices[j] < h2.raw.len() - 1 by {
                if j < h.import_line_indices.len() {
                    assert(h2.import_line_indices[j] == h.import_line_indices[j]);
                }
            }
        },
        None => {
            let at = match block_start_from(h.raw, 0) {
                Some(p) => p,
                None => h.raw.len() - 1,
            };
            let key = import_key_text();
            reveal_strlit("import_tables:");
            assert(key.len() > 0 && key[0] == 'i');
            crate::text::lemma_lead_count_is(key, crate::text::ws_pred(), 0);
            assert(key.skip(0) =~= key);
            lemma_not_end_line(key);
            lemma_insert_keeps_end(h.raw, at, key);
            let r1 = h.raw.insert(at, key);
            lemma_insert_keeps_end(r1, at + 1, item);
        },
    }
}

/// Where [`spec_add_import`] puts the new lines of `h`: for a header with
/// an `import_tables:` key, the item line goes in at `at`; otherwise the key
/// line goes in at `at` and the item line right after it.
pub open spec fn import_inserted_at(h: HeaderModel, name: Seq<char>, at: int) -> Seq<Seq<char>> {
    match h.import_key_index {
        Some(_) => h.raw.insert(at, item_line(name)),
        None => h.raw.insert(at, import_key_text()).insert(at + 1, item_line(name)),
    }
}

/// Adding an import keeps the old header lines, in order, with the new
/// lines put in before the last one: one line when the header has an
/// `import_tables:` key, two otherwise; the last line stays last.
pub proof fn law_add_import_keeps_lines(h: HeaderModel, name: Seq<char>)
    requires
        wf_header(h),
        items_before_end(h),
    ensures
        spec_add_import(h, name).raw.len() == h.raw.len() + (if h.import_key_index is Some {
            1int
        } else {
            2int
        }),
        spec_add_import(h, name).raw.last() == h.raw.last(),
        exists|at: int|
            0 <= at < h.raw.len() && spec_add_import(h, name).raw == #[trigger] import_inserted_at(
                h,
                name,
                at,
            ),
{
    let h2 = spec_add_import(h, name);
    lemma_block_start_from(h.raw, 0);
    match h.import_key_index {
        Some(k) => {
            let at = if h.import_line_indices.len() > 0 {
                h.import_line_indices.last() + 1
            } else {
                k + 1
            };
            if h.import_line_indices.len() > 0 {
                assert(h.import_line_indices[h.import_line_indices.len() - 1] < h.raw.len() - 1);
            }
            assert(h2.raw == import_inserted_at(h, name, at));
            assert(h2.raw[h2.raw.len() - 1] == h.raw[h.raw.len() - 1]);
        },
        None => {
            let at = match block_start_from(h.raw, 0) {
                Some(p) => p,
                None => h.raw.len() - 1,
            };
            assert(h2.raw == import_inserted_at(h, name, at));
            assert(h2.raw[h2.raw.len() - 1] == h.raw[h.raw.len() - 1]);
        },
    }
}

/// A search from `i` finds an end when line `j >= i` (not the first) is
/// one.
proof fn lemma_header_end_some(lines: Seq<Seq<char>>, i: int, j: int)
    requires
        0 <= i <= j < lines.len(),
        0 < j,
        is_end_line(lines[j]),
    ensures
        header_end_from(lines, i) is Some,
    decreases j - i,
{
    if i < j && !(i > 0 && is_end_line(lines[i])) {
        lemma_header_end_some(lines, i + 1, j);
    }
}

/// The header ends at the first line after the first one whose trimmed
/// text is `...`; there is no end when no such line exists.
pub proof fn law_header_end_is_first_marker(lines: Seq<Seq<char>>)
    ensures
        spec_find_header_end(lines) matches Some(e) ==> {
            &&& 0 < e < lines.len()
            &&& trim(lines[e]) == seq!['.', '.', '.']
            &&& forall|j: int| 0 < j < e ==> trim(#[trigger] lines[j]) != seq!['.', '.', '.']
        },
        spec_find_header_end(lines) is None ==> forall|j: int|
            0 < j < lines.len() ==> trim(#[trigger] lines[j]) != seq!['.', '.', '.'],
{
    lemma_header_end_from(lines, 0);
    if let Some(e) = spec_find_header_end(lines) {
        lemma_header_end_first(lines, 0, e);
        assert forall|j: int| 0 < j < e implies trim(#[trigger] lines[j]) != seq!['.', '.', '.'] by {
            assert(!is_end_line(lines[j]));
        }
    } else {
        assert forall|j: int| 0 < j < lines.len() implies trim(#[trigger] lines[j]) != seq![
            '.',
            '.',
            '.',
        ] by {
            if trim(lines[j]) == seq!['.', '.', '.'] {
                lemma_header_end_some(lines, 0, j);
            }
        }
    }
}

} // verus!
