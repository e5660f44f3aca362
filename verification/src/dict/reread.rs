//! Reading a header's lines again after a table was added to its imports
//! gives the header that the addition made.
use vstd::prelude::*;

use crate::dict::header::{
    block_start_from, closed_header, field_from, import_key_from, import_key_text,
    is_block_start, is_end_line, is_import_key, item_line, item_marker, item_name,
    law_add_import_keeps_header_closed, lemma_block_start_from, lemma_import_key_from,
    lemma_parsed_header_closed, lemma_parsed_header_wf, scan_imports, spec_add_import,
    spec_extract_field, spec_parse_header, wf_header,
};
use crate::text::{
    free_of, is_ws, lemma_lead_count_is, lemma_split_single, lemma_trim_keeps_first,
    lemma_trim_unpadded, starts_with, strip_prefixes, trim, trim_start, ws_pred,
};

verus! {

/// A line that a scan of the import list passes: a list item, a blank line
/// or a comment.
pub open spec fn continues_scan(line: Seq<char>) -> bool {
    let t = trim_start(line);
    starts_with(t, item_marker()) || t.len() == 0 || t[0] == '#'
}

/// A field search over lines with a line put in at `at` finds what it finds
/// without it, when the new line does not start with the field's target.
proof fn lemma_field_insert(
    r: Seq<Seq<char>>,
    at: int,
    x: Seq<char>,
    target: Seq<char>,
    i: int,
)
    requires
        0 <= at <= r.len(),
        0 <= i <= r.len() + 1,
        !starts_with(trim_start(x), target),
    ensures
        field_from(r.insert(at, x), target, i) == (if i <= at {
            field_from(r, target, i)
        } else {
            field_from(r, target, i - 1)
        }),
    decreases r.len() + 1 - i,
{
    let r2 = r.insert(at, x);
    if i < r2.len() {
        lemma_field_insert(r, at, x, target, i + 1);
        if i < at {
            assert(r2[i] == r[i]);
        } else if i > at {
            assert(r2[i] == r[i - 1]);
        }
    }
}

/// A text whose first character after indentation is not the first
/// character of `target` does not start (after indentation) with it.
proof fn lemma_first_differs(x: Seq<char>, target: Seq<char>)
    requires
        target.len() > 0,
        trim_start(x).len() > 0,
        trim_start(x)[0] != target[0],
    ensures
        !starts_with(trim_start(x), target),
{
    if starts_with(trim_start(x), target) {
        assert(trim_start(x).subrange(0, target.len() as int)[0] == trim_start(x)[0]);
    }
}

/// The key search finds the same key after a line is put in after it.
proof fn lemma_key_insert_after(r: Seq<Seq<char>>, at: int, x: Seq<char>, i: int, k: int)
    requires
        0 <= i <= k < at <= r.len(),
        import_key_from(r, i) == Some(k),
    ensures
        import_key_from(r.insert(at, x), i) == Some(k),
    decreases k - i,
{
    let r2 = r.insert(at, x);
    lemma_import_key_from(r, i);
    assert(r2[i] == r[i]);
    if i < k {
        lemma_key_insert_after(r, at, x, i + 1, k);
    }
}

/// No line from `i` on is a key line when the key search from `i` finds
/// nothing.
proof fn lemma_no_key(r: Seq<Seq<char>>, i: int)
    requires
        0 <= i,
        import_key_from(r, i) is None,
    ensures
        forall|j: int| i <= j < r.len() ==> !is_import_key(#[trigger] r[j]),
    decreases r.len() - i,
{
    if i < r.len() {
        lemma_no_key(r, i + 1);
    }
}

/// The key search finds a key line that no key line comes before.
proof fn lemma_key_at(r: Seq<Seq<char>>, i: int, p: int)
    requires
        0 <= i <= p < r.len(),
        is_import_key(r[p]),
        forall|j: int| i <= j < p ==> !is_import_key(#[trigger] r[j]),
    ensures
        import_key_from(r, i) == Some(p),
    decreases p - i,
{
    if i < p {
        lemma_key_at(r, i + 1, p);
    }
}

/// A scan finds no more names than items.
proof fn lemma_scan_names_le(r: Seq<Seq<char>>, j: int)
    ensures
        scan_imports(r, j).0.len() <= scan_imports(r, j).1.len(),
    decreases r.len() - j,
{
    if 0 <= j < r.len() {
        lemma_scan_names_le(r, j + 1);
    }
}

/// A scan that found items passed every line from its start to the last
/// item, and finds nothing after that item.
proof fn lemma_scan_last(r: Seq<Seq<char>>, j: int)
    requires
        0 <= j,
        r.len() <= usize::MAX,
        scan_imports(r, j).1.len() > 0,
    ensures
        j <= scan_imports(r, j).1.last() < r.len(),
        forall|i: int| j <= i <= scan_imports(r, j).1.last() ==> continues_scan(#[trigger] r[i]),
        scan_imports(r, scan_imports(r, j).1.last() + 1) == (
            Seq::<Seq<char>>::empty(),
            Seq::<usize>::empty(),
        ),
    decreases r.len() - j,
{
    let t = trim_start(r[j]);
    let s = scan_imports(r, j);
    let rest = scan_imports(r, j + 1);
    assert(j < r.len());
    if starts_with(t, item_marker()) {
        if rest.1.len() == 0 {
            lemma_scan_names_le(r, j + 1);
            assert(s.1 =~= seq![j as usize]);
            assert(rest.0 =~= Seq::<Seq<char>>::empty());
            assert(rest.1 =~= Seq::<usize>::empty());
        } else {
            lemma_scan_last(r, j + 1);
            assert(s.1.last() == rest.1.last());
        }
    } else {
        assert(t.len() == 0 || t[0] == '#');
        assert(s == rest);
        lemma_scan_last(r, j + 1);
    }
}

/// A scan from `j + 1` over lines with a line put in at `at <= j` finds
/// nothing when a scan from `j` over the lines without it finds nothing.
proof fn lemma_scan_empty_shift(r: Seq<Seq<char>>, at: int, x: Seq<char>, j: int)
    requires
        0 <= at <= j,
        at <= r.len(),
        scan_imports(r, j) == (Seq::<Seq<char>>::empty(), Seq::<usize>::empty()),
    ensures
        scan_imports(r.insert(at, x), j + 1) == (Seq::<Seq<char>>::empty(), Seq::<usize>::empty()),
    decreases r.len() - j,
{
    let r2 = r.insert(at, x);
    if j < r.len() {
        assert(r2[j + 1] == r[j]);
        let t = trim_start(r[j]);
        if starts_with(t, item_marker()) {
            assert(scan_imports(r, j).1.len() > 0);
        } else if t.len() == 0 || t[0] == '#' {
            lemma_scan_empty_shift(r, at, x, j + 1);
        }
    }
}

/// Putting an item line in at `at`, where the scan from `j` passes every
/// line up to `at` and finds nothing from `at` on, adds that item last.
proof fn lemma_scan_insert(r: Seq<Seq<char>>, at: int, x: Seq<char>, n: Seq<char>, j: int)
    requires
        0 <= j <= at <= r.len(),
        at < usize::MAX,
        forall|i: int| j <= i < at ==> continues_scan(#[trigger] r[i]),
        scan_imports(r, at) == (Seq::<Seq<char>>::empty(), Seq::<usize>::empty()),
        starts_with(trim_start(x), item_marker()),
        item_name(trim_start(x)) == n,
        n.len() > 0,
    ensures
        scan_imports(r.insert(at, x), j) == (
            scan_imports(r, j).0.push(n),
            scan_imports(r, j).1.push(at as usize),
        ),
    decreases at - j,
{
    let r2 = r.insert(at, x);
    if j == at {
        lemma_scan_empty_shift(r, at, x, at);
        assert(r2[at] == x);
        assert(scan_imports(r2, j).0 =~= seq![n]);
        assert(scan_imports(r2, j).1 =~= seq![at as usize]);
        assert(Seq::<Seq<char>>::empty().push(n) =~= seq![n]);
        assert(Seq::<usize>::empty().push(at as usize) =~= seq![at as usize]);
    } else {
        lemma_scan_insert(r, at, x, n, j + 1);
        assert(r2[j] == r[j]);
        assert(continues_scan(r[j]));
        let t = trim_start(r[j]);
        let a = scan_imports(r, j + 1);
        if starts_with(t, item_marker()) {
            let nm = item_name(t);
            if nm.len() > 0 {
                assert(seq![nm] + a.0.push(n) =~= (seq![nm] + a.0).push(n));
            }
            assert(seq![j as usize] + a.1.push(at as usize) =~= (seq![j as usize] + a.1).push(
                at as usize,
            ));
        }
    }
}

/// The item line that [`spec_add_import`] writes for a plain table name
/// reads back as a list item naming that table.
proof fn lemma_item_line_name(name: Seq<char>)
    requires
        name.len() > 0,
        !is_ws(name[0]),
        !is_ws(name.last()),
        free_of(name, '#'),
        !starts_with(name, item_marker()),
    ensures
        starts_with(trim_start(item_line(name)), item_marker()),
        item_name(trim_start(item_line(name))) == name,
        trim_start(item_line(name))[0] == '-',
{
    let il = item_line(name);
    assert(il[0] == ' ' && il[1] == ' ' && il[2] == '-');
    assert forall|j: int| 0 <= j < 2 implies ws_pred()(#[trigger] il[j]) by {}
    lemma_lead_count_is(il, ws_pred(), 2);
    let t = trim_start(il);
    assert(t =~= item_marker() + name);
    assert(t.subrange(0, 2) =~= item_marker());
    assert(t.skip(2) =~= name);
    assert(strip_prefixes(t, item_marker()) == strip_prefixes(name, item_marker()));
    lemma_trim_unpadded(name);
    lemma_split_single(name, '#');
}

/// A line before which a new `import_tables:` block goes, or the header's
/// `...` line, ends a scan of the import list.
proof fn lemma_stop_line(l: Seq<char>)
    requires
        is_block_start(l) || is_end_line(l),
    ensures
        trim_start(l).len() > 0,
        trim_start(l)[0] != '#',
        trim_start(l)[0] != '-',
        !continues_scan(l),
{
    let t = trim_start(l);
    reveal_strlit("columns:");
    reveal_strlit("encoder:");
    if is_block_start(l) {
        if starts_with(t, "columns:"@) {
            assert(t.subrange(0, 8)[0] == t[0]);
        } else if starts_with(t, "encoder:"@) {
            assert(t.subrange(0, 8)[0] == t[0]);
        }
    } else {
        if t.len() == 0 {
            assert(trim(l) =~= Seq::<char>::empty());
        }
        lemma_trim_keeps_first(l);
    }
    if starts_with(t, item_marker()) {
        assert(t.subrange(0, 2)[0] == t[0]);
    }
}

/// What a search for the block start finds is a block start.
proof fn lemma_block_start_is(r: Seq<Seq<char>>, i: int)
    requires
        0 <= i,
    ensures
        block_start_from(r, i) matches Some(p) ==> is_block_start(r[p]),
    decreases r.len() - i,
{
    if i < r.len() && !is_block_start(r[i]) {
        lemma_block_start_is(r, i + 1);
    }
}

/// The `import_tables:` key line is a key line, and starts with `i`.
proof fn lemma_key_line()
    ensures
        is_import_key(import_key_text()),
        trim_start(import_key_text()).len() > 0,
        trim_start(import_key_text())[0] == 'i',
{
    let k = import_key_text();
    reveal_strlit("import_tables:");
    lemma_lead_count_is(k, ws_pred(), 0);
    assert(k.skip(0) =~= k);
    assert(k.subrange(0, k.len() as int) =~= k);
}

/// The fields the header reads are found the same after lines that start
/// with `-` or `i` are put in.
proof fn lemma_fields_keep(r: Seq<Seq<char>>, at: int, x: Seq<char>, field: Seq<char>)
    requires
        0 <= at <= r.len(),
        trim_start(x).len() > 0,
        trim_start(x)[0] == '-' || trim_start(x)[0] == 'i',
        field == "name"@ || field == "version"@ || field == "sort"@,
    ensures
        spec_extract_field(r.insert(at, x), field) == spec_extract_field(r, field),
{
    reveal_strlit("name");
    reveal_strlit("version");
    reveal_strlit("sort");
    let target = field.push(':');
    assert(target[0] == field[0]);
    lemma_first_differs(x, target);
    lemma_field_insert(r, at, x, target, 0);
}

/// Reading a header's lines again after a table was added to its imports
/// gives the header that the addition made: the same end, name, version and
/// sort, the old imports followed by the new table, and the item lines
/// where the addition put them. This holds for a header read from lines
/// whose first line is not `...`, and a table name that is not empty, is
/// not padded with whitespace, holds no `#` and does not itself start with
/// `- `.
pub proof fn law_reread_added_import(lines: Seq<Seq<char>>, name: Seq<char>)
    requires
        lines.len() <= usize::MAX,
        lines.len() > 0,
        !is_end_line(lines[0]),
        spec_parse_header(lines) is Some,
        spec_parse_header(lines).unwrap().header_end + 2 <= usize::MAX,
        name.len() > 0,
        !is_ws(name[0]),
        !is_ws(name.last()),
        free_of(name, '#'),
        !starts_with(name, item_marker()),
    ensures
        spec_parse_header(spec_add_import(spec_parse_header(lines).unwrap(), name).raw) == Some(
            spec_add_import(spec_parse_header(lines).unwrap(), name),
        ),
{
    let h = spec_parse_header(lines).unwrap();
    let h2 = spec_add_import(h, name);
    let r = h.raw;
    let r2 = h2.raw;
    lemma_parsed_header_wf(lines);
    lemma_parsed_header_closed(lines);
    law_add_import_keeps_header_closed(h, name);
    assert(wf_header(h) && closed_header(h) && closed_header(h2));
    lemma_item_line_name(name);
    lemma_key_line();
    let item = item_line(name);
    lemma_block_start_from(r, 0);
    lemma_import_key_from(r, 0);
    match h.import_key_index {
        Some(k) => {
            let key = import_key_from(r, 0);
            assert(key == Some(k as int));
            let sc = scan_imports(r, k + 1);
            crate::dict::header::lemma_scan_imports_bounds(r, k + 1);
            let at = if h.import_line_indices.len() > 0 {
                h.import_line_indices.last() + 1
            } else {
                k + 1
            };
            if sc.1.len() > 0 {
                lemma_scan_last(r, k + 1);
                assert(sc.1[sc.1.len() - 1] >= k + 1);
            } else {
                lemma_scan_names_le(r, k + 1);
                assert(sc.0 =~= Seq::<Seq<char>>::empty());
                assert(sc.1 =~= Seq::<usize>::empty());
            }
            assert(at <= r.len() - 1);
            assert(r2 == r.insert(at, item));
            lemma_fields_keep(r, at, item, "name"@);
            lemma_fields_keep(r, at, item, "version"@);
            lemma_fields_keep(r, at, item, "sort"@);
            lemma_key_insert_after(r, at, item, 0, k as int);
            lemma_scan_insert(r, at, item, name, k + 1);
            let e2 = r2.len() - 1;
            assert(r2.take(e2 + 1) =~= r2);
            assert(spec_parse_header(r2).unwrap() =~= h2);
        },
        None => {
            let at = match block_start_from(r, 0) {
                Some(p) => p,
                None => r.len() - 1,
            };
            let key = import_key_text();
            let r1 = r.insert(at, key);
            assert(r2 == r1.insert(at + 1, item));
            lemma_fields_keep(r, at, key, "name"@);
            lemma_fields_keep(r, at, key, "version"@);
            lemma_fields_keep(r, at, key, "sort"@);
            lemma_fields_keep(r1, at + 1, item, "name"@);
            lemma_fields_keep(r1, at + 1, item, "version"@);
            lemma_fields_keep(r1, at + 1, item, "sort"@);
            lemma_no_key(r, 0);
            assert forall|j: int| 0 <= j < at implies !is_import_key(#[trigger] r2[j]) by {
                assert(r2[j] == r[j]);
            }
            assert(r2[at] == key);
            lemma_key_at(r2, 0, at);
            if block_start_from(r, 0) is None {
                crate::dict::header::lemma_header_end_from(r, 0);
                assert(is_end_line(r[r.len() - 1]));
            } else {
                lemma_block_start_is(r, 0);
            }
            lemma_stop_line(r[at]);
            assert(r2[at + 2] == r[at]);
            assert(r2[at + 1] == item);
            assert(scan_imports(r2, at + 2) == (Seq::<Seq<char>>::empty(), Seq::<usize>::empty()));
            assert(scan_imports(r2, at + 1).0 =~= seq![name]);
            assert(scan_imports(r2, at + 1).1 =~= seq![(at + 1) as usize]);
            assert(h.import_tables =~= Seq::<Seq<char>>::empty());
            let e2 = r2.len() - 1;
            assert(r2.take(e2 + 1) =~= r2);
            assert(spec_parse_header(r2).unwrap() =~= h2);
        },
    }
}

} // verus!
