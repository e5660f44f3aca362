//! The code of each single character, taken from the single-character
//! entries of a dictionary.
use std::collections::HashMap;
use vstd::prelude::*;

use crate::dict::entry::{entry_views, parse_entries, parse_lines, Entry, EntryModel};
use crate::text::{chars_of, string_views};

verus! {

/// `HashMap::insert` on a map keyed by `char`: afterwards the map sends `k`
/// to `v` and is otherwise unchanged (std's `char` hashing and equality are
/// deterministic and agree with `==`).
#[verifier::external_body]
fn map_insert<V>(m: &mut HashMap<char, V>, k: char, v: V)
    ensures
        final(m)@ == old(m)@.insert(k, v),
{
    m.insert(k, v);
}

/// `HashMap::get` on a map keyed by `char`: the value stored under `k`, or
/// `None` when `k` has none.
#[verifier::external_body]
fn map_get<'a, V>(m: &'a HashMap<char, V>, k: char) -> (r: Option<&'a V>)
    ensures
        match r {
            Some(v) => m@.contains_key(k) && m@[k] == *v,
            None => !m@.contains_key(k),
        },
{
    m.get(&k)
}

/// `HashMap::contains_key` on a map keyed by `char`.
#[verifier::external_body]
fn map_contains<V>(m: &HashMap<char, V>, k: char) -> (r: bool)
    ensures
        r == m@.contains_key(k),
{
    m.contains_key(&k)
}

/// An entry that gives the code of one character: not a group header, and
/// a word of exactly one character.
pub open spec fn is_char_entry(e: EntryModel) -> bool {
    e.group is None && e.word.len() == 1
}

/// For each character, the code and weight of the first of its
/// single-character entries with the highest weight.
pub open spec fn best_codes(es: Seq<EntryModel>) -> Map<char, (Seq<char>, u32)>
    decreases es.len(),
{
    if es.len() == 0 {
        Map::empty()
    } else {
        let m = best_codes(es.drop_last());
        let e = es.last();
        if !is_char_entry(e) {
            m
        } else {
            let ch = e.word[0];
            if !m.contains_key(ch) || e.weight > m[ch].1 {
                m.insert(ch, (e.code, e.weight))
            } else {
                m
            }
        }
    }
}

/// The character table that a list of entries gives.
pub open spec fn code_table(es: Seq<EntryModel>) -> Map<char, Seq<char>> {
    best_codes(es).map_values(|p: (Seq<char>, u32)| p.0)
}

/// `es[i]` is the entry whose code a table built from `es` keeps for `ch`:
/// a single-character entry for `ch` whose weight no other entry for `ch`
/// exceeds, and the first one with that weight.
pub open spec fn is_best_entry(es: Seq<EntryModel>, ch: char, i: int) -> bool {
    &&& 0 <= i < es.len()
    &&& is_char_entry(es[i])
    &&& es[i].word[0] == ch
    &&& forall|j: int|
        0 <= j < es.len() && is_char_entry(#[trigger] es[j]) && es[j].word[0] == ch ==> es[j].weight
            <= es[i].weight && (es[j].weight == es[i].weight ==> i <= j)
}

/// A table maps a character exactly when some single-character entry names
/// it, and then to the code of the first entry with the highest weight.
pub proof fn law_highest_weight_wins(es: Seq<EntryModel>, ch: char)
    ensures
        code_table(es).contains_key(ch) <==> exists|i: int|
            0 <= i < es.len() && is_char_entry(#[trigger] es[i]) && es[i].word[0] == ch,
        code_table(es).contains_key(ch) ==> exists|i: int|
            #[trigger] is_best_entry(es, ch, i) && code_table(es)[ch] == es[i].code,
{
    lemma_best_codes(es, ch);
}

proof fn lemma_best_codes(es: Seq<EntryModel>, ch: char)
    ensures
        best_codes(es).contains_key(ch) <==> exists|i: int|
            0 <= i < es.len() && is_char_entry(#[trigger] es[i]) && es[i].word[0] == ch,
        best_codes(es).contains_key(ch) ==> exists|i: int|
            #[trigger] is_best_entry(es, ch, i) && best_codes(es)[ch] == (es[i].code, es[i].weight),
    decreases es.len(),
{
    if es.len() > 0 {
        let p = es.drop_last();
        let e = es.last();
        let last = es.len() - 1;
        lemma_best_codes(p, ch);
        assert forall|j: int| 0 <= j < p.len() implies #[trigger] es[j] == p[j] by {}
        if best_codes(p).contains_key(ch) {
            let i = choose|i: int| #[trigger]
                is_best_entry(p, ch, i) && best_codes(p)[ch] == (p[i].code, p[i].weight);
            if is_char_entry(e) && e.word[0] == ch && e.weight > best_codes(p)[ch].1 {
                assert(is_best_entry(es, ch, last));
            } else {
                assert(is_best_entry(es, ch, i)) by {
                    assert forall|j: int|
                        0 <= j < es.len() && is_char_entry(#[trigger] es[j]) && es[j].word[0]
                            == ch implies es[j].weight <= es[i].weight && (es[j].weight
                        == es[i].weight ==> i <= j) by {
                        if j < p.len() {
                            assert(p[j] == es[j]);
                        }
                    }
                }
            }
            assert(0 <= i < es.len() && is_char_entry(es[i]) && es[i].word[0] == ch);
        } else {
            if is_char_entry(e) && e.word[0] == ch {
                assert(is_best_entry(es, ch, last));
            } else {
                assert forall|i: int|
                    0 <= i < es.len() && is_char_entry(#[trigger] es[i]) implies es[i].word[0]
                    != ch by {
                    if i < p.len() {
                        assert(p[i] == es[i]);
                    }
                }
            }
        }
    }
}

/// The code of each character, from the single-character entries of a
/// dictionary.
#[derive(Debug, Clone)]
pub struct CharMap {
    inner: HashMap<char, String>,
}

impl CharMap {
    /// The map that holds the table.
    pub closed spec fn table(&self) -> HashMap<char, String> {
        self.inner
    }
}

impl View for CharMap {
    type V = Map<char, Seq<char>>;

    open spec fn view(&self) -> Map<char, Seq<char>> {
        self.table()@.map_values(|s: String| s@)
    }
}

impl CharMap {
    /// The table of the single-character entries of `entries`: each character
    /// gets the code of its first entry with the highest weight.
    pub fn from_entries(entries: &[Entry]) -> (r: Self)
        ensures
            r@ == code_table(entry_views(entries@)),
    {
        let ghost es = entry_views(entries@);
        let mut codes: HashMap<char, String> = HashMap::new();
        let mut weights: HashMap<char, u32> = HashMap::new();
        let n = entries.len();
        for i in 0..n
            invariant
                n == entries@.len(),
                es == entry_views(entries@),
                codes@.map_values(|s: String| s@) == code_table(es.take(i as int)),
                weights@ == best_codes(es.take(i as int)).map_values(|p: (Seq<char>, u32)| p.1),
        {
            let entry = &entries[i];
            proof {
                assert(es.take(i + 1).drop_last() =~= es.take(i as int));
                assert(es.take(i + 1).last() == entry@);
            }
            if !entry.is_group() {
                let word = chars_of(entry.word.as_str());
                if word.len() == 1 {
                    let ch = word[0];
                    let weight = entry.weight;
                    let ghost m = best_codes(es.take(i as int));
                    proof {
                        assert(weights@.contains_key(ch) == m.contains_key(ch));
                        if m.contains_key(ch) {
                            assert(weights@[ch] == m[ch].1);
                        }
                    }
                    let better = match map_get(&weights, ch) {
                        Some(w) => weight > *w,
                        None => true,
                    };
                    if better {
                        let code = entry.code.clone();
                        let ghost old_codes = codes@;
                        map_insert(&mut codes, ch, code);
                        map_insert(&mut weights, ch, weight);
                        proof {
                            let m2 = m.insert(ch, (entry@.code, weight));
                            let t = m2.map_values(|p: (Seq<char>, u32)| p.0);
                            assert(old_codes.map_values(|s: String| s@) == m.map_values(
                                |p: (Seq<char>, u32)| p.0,
                            ));
                            let cv = codes@.map_values(|s: String| s@);
                            assert forall|k: char| #[trigger] cv.contains_key(k) implies cv[k]
                                == t[k] && t.contains_key(k) by {
                                assert(codes@.contains_key(k));
                                assert(cv[k] == codes@[k]@);
                                if k != ch {
                                    assert(old_codes.contains_key(k));
                                    assert(old_codes.map_values(|s: String| s@).contains_key(k));
                                    assert(m.map_values(|p: (Seq<char>, u32)| p.0).contains_key(k));
                                    assert(m.contains_key(k));
                                    assert(old_codes.map_values(|s: String| s@)[k] == old_codes[k]@);
                                    assert(m.map_values(|p: (Seq<char>, u32)| p.0)[k] == m[k].0);
                                }
                            }
                            assert forall|k: char| #[trigger] t.contains_key(k) implies cv.contains_key(k) by {
                                if k != ch {
                                    assert(m.map_values(|p: (Seq<char>, u32)| p.0).contains_key(k));
                                    assert(old_codes.map_values(|s: String| s@).contains_key(k));
                                }
                                assert(codes@.contains_key(k));
                            }
                            assert(codes@.map_values(|s: String| s@) =~= m2.map_values(
                                |p: (Seq<char>, u32)| p.0,
                            ));
                            assert(weights@ =~= m2.map_values(|p: (Seq<char>, u32)| p.1));
                        }
                    }
                }
            }
        }
        proof {
            assert(es.take(n as int) =~= es);
        }
        let r = CharMap { inner: codes };
        assert(r@ =~= code_table(es));
        r
    }

    /// The table of the entries that `lines` hold.
    pub fn from_lines(lines: &[String]) -> (r: Self)
        ensures
            r@ == code_table(parse_lines(string_views(lines@))),
    {
        let entries = parse_entries(lines);
        Self::from_entries(entries.as_slice())
    }

    /// The code of `ch`, if the table has one.
    pub fn get(&self, ch: char) -> (r: Option<&str>)
        ensures
            match r {
                Some(s) => self@.contains_key(ch) && self@[ch] == s@,
                None => !self@.contains_key(ch),
            },
    {
        match map_get(&self.inner, ch) {
            Some(s) => Some(s.as_str()),
            None => None,
        }
    }

    /// Whether the table has no character.
    pub fn is_empty(&self) -> (r: bool)
        ensures
            r == (self@ == Map::<char, Seq<char>>::empty()),
    {
        let r = self.inner.is_empty();
        proof {
            if r {
                assert(self@ =~= Map::<char, Seq<char>>::empty());
            } else {
                if self@ == Map::<char, Seq<char>>::empty() {
                    assert(self.inner@ =~= Map::<char, String>::empty()) by {
                        assert forall|k: char| !self.inner@.contains_key(k) by {
                            assert(!self@.contains_key(k));
                        }
                    }
                }
            }
        }
        r
    }

    /// Whether the table has a code for `ch`.
    pub fn contains(&self, ch: char) -> (r: bool)
        ensures
            r == self@.contains_key(ch),
    {
        map_contains(&self.inner, ch)
    }

    /// The table as a map from character to code.
    pub fn into_inner(self) -> (r: HashMap<char, String>)
        ensures
            r == self.table(),
    {
        self.inner
    }
}

impl From<CharMap> for HashMap<char, String> {
    fn from(map: CharMap) -> (r: Self) {
        map.inner
    }
}

impl vstd::std_specs::convert::FromSpecImpl<CharMap> for HashMap<char, String> {
    open spec fn obeys_from_spec() -> bool {
        true
    }

    open spec fn from_spec(v: CharMap) -> Self {
        v.table()
    }
}

} // verus!
