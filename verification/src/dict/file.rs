//! A whole dictionary file: its header and the entries of its body.
use vstd::prelude::*;

use crate::dict::entry::{
    entry_views, parse_entries, parse_lines, spec_format_entry, spec_parse_entry, Entry,
    EntryModel,
};
use crate::dict::header::{
    ends_at_last_line, find_header_end, lemma_header_end_agree, lemma_header_end_from,
    spec_parse_header, DictHeader, HeaderModel,
};
use crate::text::{
    free_of, joined_lines, law_lines_of_joined, lemma_trim_drop_ws_last, string_views, strip_cr,
    text_lines,
};

verus! {

/// A dictionary: its header and its entries (group headers included).
#[derive(Debug, Clone)]
pub struct DictFile {
    pub header: DictHeader,
    pub entries: Vec<Entry>,
}

/// Whether some entry of `es` has word `w` and code `c`.
pub open spec fn has_word_code(es: Seq<EntryModel>, w: Seq<char>, c: Seq<char>) -> bool {
    exists|i: int| 0 <= i < es.len() && (#[trigger] es[i]).word == w && es[i].code == c
}

/// No two entries of `es` share both word and code.
pub open spec fn no_duplicates(es: Seq<EntryModel>) -> bool {
    forall|i: int, j: int|
        0 <= i < j < es.len() ==> !((#[trigger] es[i]).word == (#[trigger] es[j]).word && es[i].code
            == es[j].code)
}

/// The header and entries that the lines of a dictionary file hold: the
/// header up to its `...` line, and the entries of every later line.
pub open spec fn spec_parse_dict(lines: Seq<Seq<char>>) -> Option<(HeaderModel, Seq<EntryModel>)> {
    match spec_parse_header(lines) {
        Some(h) => Some((h, parse_lines(lines.skip(h.header_end + 1)))),
        None => None,
    }
}

/// The lines a dictionary is written as: its header lines, then one line per
/// entry.
pub open spec fn spec_render_dict(h: HeaderModel, es: Seq<EntryModel>) -> Seq<Seq<char>> {
    h.raw + es.map_values(|e: EntryModel| spec_format_entry(e))
}

impl DictFile {
    /// Appends `entry` unless an entry with the same word and code is
    /// already there; returns whether it appended.
    pub fn add_entry(&mut self, entry: Entry) -> (r: bool)
        ensures
            r == !has_word_code(entry_views(old(self).entries@), entry@.word, entry@.code),
            r ==> entry_views(final(self).entries@) == entry_views(old(self).entries@).push(
                entry@,
            ),
            !r ==> final(self).entries@ == old(self).entries@,
            final(self).header == old(self).header,
    {
        let ghost es = entry_views(self.entries@);
        let n = self.entries.len();
        for i in 0..n
            invariant
                n == self.entries@.len(),
                es == entry_views(self.entries@),
                forall|j: int|
                    0 <= j < i ==> !((#[trigger] es[j]).word == entry@.word && es[j].code
                        == entry@.code),
        {
            let e = &self.entries[i];
            assert(es[i as int] == e@);
            if e.word == entry.word && e.code == entry.code {
                assert(es[i as int].word == entry@.word && es[i as int].code == entry@.code);
                return false;
            }
        }
        self.entries.push(entry);
        assert(entry_views(self.entries@) =~= es.push(entry@));
        true
    }

    /// The lines this dictionary is written as: the header lines, then each
    /// entry's line.
    pub fn render_lines(&self) -> (r: Vec<String>)
        ensures
            string_views(r@) == spec_render_dict(self.header@, entry_views(self.entries@)),
    {
        let head = self.header.to_lines();
        let mut out: Vec<String> = Vec::new();
        let hn = head.len();
        for i in 0..hn
            invariant
                hn == head@.len(),
                string_views(out@) == string_views(head@).take(i as int),
        {
            let line = head[i].clone();
            let ghost old_out = string_views(out@);
            out.push(line);
            assert(string_views(head@)[i as int] == head@[i as int]@);
            assert(string_views(out@) =~= old_out.push(line@));
            assert(string_views(out@) =~= string_views(head@).take(i + 1));
        }
        assert(string_views(head@).take(hn as int) =~= string_views(head@));
        let ghost es = entry_views(self.entries@);
        let ghost fs = es.map_values(|e: EntryModel| spec_format_entry(e));
        let en = self.entries.len();
        for i in 0..en
            invariant
                en == self.entries@.len(),
                es == entry_views(self.entries@),
                fs == es.map_values(|e: EntryModel| spec_format_entry(e)),
                string_views(out@) == self.header@.raw + fs.take(i as int),
        {
            let line = self.entries[i].format();
            assert(es[i as int] == self.entries@[i as int]@);
            assert(fs[i as int] == line@);
            let ghost old_out = string_views(out@);
            out.push(line);
            assert(string_views(out@) =~= old_out.push(line@));
            assert(string_views(out@) =~= self.header@.raw + fs.take(i + 1));
        }
        assert(fs.take(en as int) =~= fs);
        out
    }
}

/// Reads a dictionary from the lines of its file: `None` when the header
/// has no `...` line after the first line.
pub fn parse_dict(lines: &[String]) -> (r: Option<DictFile>)
    ensures
        match r {
            Some(d) => spec_parse_dict(string_views(lines@)) == Some(
                (d.header@, entry_views(d.entries@)),
            ) && d.header.wf(),
            None => spec_parse_dict(string_views(lines@)) is None,
        },
{
    let header = match DictHeader::parse(lines) {
        Some(h) => h,
        None => return None,
    };
    let header_end = match find_header_end(lines) {
        Some(e) => e,
        None => return None,
    };
    let ghost ls = string_views(lines@);
    let total = lines.len();
    proof {
        lemma_header_end_from(ls, 0);
        assert(ls.len() == total);
    }
    let (_, body) = lines.split_at(header_end + 1);
    assert(string_views(body@) =~= ls.skip(header_end + 1));
    let entries = parse_entries(body);
    Some(DictFile { header, entries })
}

/// An entry whose written line reads back as the entry.
pub open spec fn reads_back(e: EntryModel) -> bool {
    spec_parse_entry(spec_format_entry(e)) == Some(e)
}

/// Lines that each read as the matching entry give those entries.
proof fn lemma_parse_lines_of(ls: Seq<Seq<char>>, es: Seq<EntryModel>)
    requires
        ls.len() == es.len(),
        forall|i: int| 0 <= i < ls.len() ==> spec_parse_entry(#[trigger] ls[i]) == Some(es[i]),
    ensures
        parse_lines(ls) == es,
    decreases ls.len(),
{
    if ls.len() > 0 {
        let l2 = ls.drop_last();
        let e2 = es.drop_last();
        assert forall|i: int| 0 <= i < l2.len() implies spec_parse_entry(#[trigger] l2[i]) == Some(
            e2[i],
        ) by {
            assert(l2[i] == ls[i]);
            assert(spec_parse_entry(ls[i]) == Some(es[i]));
        }
        lemma_parse_lines_of(l2, e2);
        assert(spec_parse_entry(ls[ls.len() - 1]) == Some(es[es.len() - 1]));
        assert(parse_lines(ls) =~= es);
    }
}

/// A `\r` at the end of a line does not change what the line reads as.
proof fn lemma_parse_strip_cr(l: Seq<char>)
    ensures
        spec_parse_entry(strip_cr(l)) == spec_parse_entry(l),
{
    if l.len() > 0 && l.last() == '\r' {
        lemma_trim_drop_ws_last(l);
    }
}

/// Adding an entry whose word and code are new keeps the entries free of
/// duplicates, and afterwards the entry is there, so adding it again is
/// refused.
pub proof fn law_add_entry_no_duplicates(es: Seq<EntryModel>, e: EntryModel)
    requires
        no_duplicates(es),
        !has_word_code(es, e.word, e.code),
    ensures
        no_duplicates(es.push(e)),
        has_word_code(es.push(e), e.word, e.code),
{
    let es2 = es.push(e);
    assert(es2[es.len() as int] == e);
    assert forall|i: int, j: int|
        0 <= i < j < es2.len() implies !((#[trigger] es2[i]).word == (#[trigger] es2[j]).word
        && es2[i].code == es2[j].code) by {
        assert(es2[i] == es[i]);
        if j < es.len() {
            assert(es2[j] == es[j]);
        }
    }
}

/// Writing a dictionary and reading the lines back gives the same header
/// lines and the same entries, when the header ends at its `...` line and
/// every entry's written line reads back as the entry (as every canonical
/// entry's does, see [`crate::dict::entry::law_parse_format_roundtrip`]).
pub proof fn law_render_parse_roundtrip(h: HeaderModel, es: Seq<EntryModel>)
    requires
        ends_at_last_line(h),
        h.raw.len() <= usize::MAX,
        forall|i: int| 0 <= i < es.len() ==> reads_back(#[trigger] es[i]),
    ensures
        spec_parse_dict(spec_render_dict(h, es)) == Some((spec_parse_header(h.raw).unwrap(), es)),
        spec_parse_header(h.raw).unwrap().raw == h.raw,
{
    let lines = spec_render_dict(h, es);
    let e = h.raw.len() - 1;
    assert forall|j: int| 0 <= j <= e implies #[trigger] lines[j] == h.raw[j] by {}
    lemma_header_end_agree(h.raw, lines, 0, e);
    assert(lines.take(e + 1) =~= h.raw);
    assert(h.raw.take(e + 1) =~= h.raw);
    let fs = es.map_values(|x: EntryModel| spec_format_entry(x));
    assert(lines.skip(e + 1) =~= fs);
    assert forall|i: int| 0 <= i < fs.len() implies spec_parse_entry(#[trigger] fs[i]) == Some(
        es[i],
    ) by {
        assert(reads_back(es[i]));
    }
    lemma_parse_lines_of(fs, es);
    assert(spec_parse_header(lines).unwrap().header_end == e);
}

/// A line that a file keeps as it is: no `\n` in it, and no `\r` at its end.
pub open spec fn keeps_as_line(l: Seq<char>) -> bool {
    free_of(l, '\n') && !(l.len() > 0 && l.last() == '\r')
}

/// Saving a dictionary (each line followed by `\n`) and loading the file
/// back (its lines, then the header and entries) gives the same header lines
/// and the same entries, when the header ends at its `...` line, every
/// header line is kept as it is by a file, and every entry's written line
/// holds no `\n` and reads back as the entry.
pub proof fn law_save_load_roundtrip(h: HeaderModel, es: Seq<EntryModel>)
    requires
        ends_at_last_line(h),
        h.raw.len() <= usize::MAX,
        forall|i: int| 0 <= i < h.raw.len() ==> keeps_as_line(#[trigger] h.raw[i]),
        forall|i: int|
            0 <= i < es.len() ==> reads_back(#[trigger] es[i]) && free_of(
                spec_format_entry(es[i]),
                '\n',
            ),
    ensures
        spec_parse_dict(text_lines(joined_lines(spec_render_dict(h, es)))) == Some(
            (spec_parse_header(h.raw).unwrap(), es),
        ),
{
    let lines = spec_render_dict(h, es);
    let fs = es.map_values(|x: EntryModel| spec_format_entry(x));
    assert forall|k: int| 0 <= k < lines.len() implies free_of(#[trigger] lines[k], '\n') by {
        if k < h.raw.len() {
            assert(lines[k] == h.raw[k]);
            assert(keeps_as_line(h.raw[k]));
        } else {
            assert(lines[k] == fs[k - h.raw.len()]);
        }
    }
    law_lines_of_joined(lines);
    let read = lines.map_values(|l: Seq<char>| strip_cr(l));
    let e = h.raw.len() - 1;
    assert forall|j: int| 0 <= j <= e implies #[trigger] read[j] == h.raw[j] by {
        assert(lines[j] == h.raw[j]);
        assert(keeps_as_line(h.raw[j]));
    }
    lemma_header_end_agree(h.raw, read, 0, e);
    assert(read.take(e + 1) =~= h.raw);
    assert(h.raw.take(e + 1) =~= h.raw);
    let body = read.skip(e + 1);
    assert forall|i: int| 0 <= i < body.len() implies spec_parse_entry(#[trigger] body[i]) == Some(
        es[i],
    ) by {
        assert(body[i] == strip_cr(fs[i]));
        lemma_parse_strip_cr(fs[i]);
        assert(reads_back(es[i]));
    }
    lemma_parse_lines_of(body, es);
    assert(spec_parse_header(read).unwrap().header_end == e);
}

} // verus!
