//! Wubi 86 phrase codes, built from the codes of the phrase's characters.
use vstd::prelude::*;

use crate::encoder::char_map::CharMap;
use crate::text::{chars_of, string_of};

verus! {

/// The first `k` characters of `s`, or all of `s` when it is shorter.
pub open spec fn prefix(s: Seq<char>, k: int) -> Seq<char> {
    if s.len() <= k {
        s
    } else {
        s.take(k)
    }
}

/// The characters of `word` that `table` has no code for, in order.
pub open spec fn unknown_chars(word: Seq<char>, table: Map<char, Seq<char>>) -> Seq<char> {
    word.filter(|c: char| !table.contains_key(c))
}

/// The Wubi 86 code of a phrase whose characters all have codes: two
/// characters give the first two letters of each code; three give the first
/// letter of the first two codes and the first two letters of the third;
/// four or more give the first letter of the codes of the first, second,
/// third and last characters.
pub open spec fn phrase_code(word: Seq<char>, table: Map<char, Seq<char>>) -> Seq<char> {
    let n = word.len();
    let c = |i: int| table[word[i]];
    if n == 2 {
        prefix(c(0), 2) + prefix(c(1), 2)
    } else if n == 3 {
        prefix(c(0), 1) + prefix(c(1), 1) + prefix(c(2), 2)
    } else {
        prefix(c(0), 1) + prefix(c(1), 1) + prefix(c(2), 1) + prefix(c(n - 1), 1)
    }
}

/// The outcome of encoding a phrase.
#[derive(Debug, Clone, PartialEq)]
pub struct EncodeResult {
    /// The phrase's code, when it could be built.
    pub code: Option<String>,
    /// Why it could not: the characters without a code, or the whole phrase
    /// when it is shorter than two characters.
    pub missing_chars: Vec<char>,
}

/// The Wubi 86 phrase encoder.
pub struct Wubi86Encoder;

/// Appends `prefix(s, k)` to `out`.
fn push_prefix(out: &mut Vec<char>, s: &[char], k: usize)
    ensures
        final(out)@ == old(out)@ + prefix(s@, k as int),
{
    let m = if s.len() <= k { s.len() } else { k };
    let ghost start = out@;
    for i in 0..m
        invariant
            m <= s@.len(),
            m == (if s@.len() <= k { s@.len() as int } else { k as int }),
            out@ == start + s@.take(i as int),
    {
        out.push(s[i]);
        assert(s@.take(i + 1) == s@.take(i as int).push(s@[i as int]));
    }
    assert(prefix(s@, k as int) == s@.take(m as int));
}

impl Wubi86Encoder {
    /// Encodes `word` with the character codes of `char_map`. Phrases of
    /// fewer than two characters have no code and report all their
    /// characters; otherwise the code exists exactly when every character
    /// has one, and the characters without one are reported.
    pub fn encode(&self, word: &str, char_map: &CharMap) -> (r: EncodeResult)
        ensures
            word@.len() < 2 ==> r.code is None && r.missing_chars@ == word@,
            word@.len() >= 2 ==> r.missing_chars@ == unknown_chars(word@, char_map@),
            word@.len() >= 2 ==> match r.code {
                Some(code) => r.missing_chars@.len() == 0 && code@ == phrase_code(
                    word@,
                    char_map@,
                ),
                None => r.missing_chars@.len() > 0,
            },
    {
        let chars = chars_of(word);
        let n = chars.len();
        if n < 2 {
            return EncodeResult { code: None, missing_chars: chars };
        }
        let ghost table = char_map@;
        let ghost pred = |c: char| !table.contains_key(c);
        let mut codes: Vec<Vec<char>> = Vec::new();
        let mut missing: Vec<char> = Vec::new();
        let mut i: usize = 0;
        while i < n
            invariant
                i <= n,
                n == chars@.len(),
                chars@ == word@,
                table == char_map@,
                pred == (|c: char| !table.contains_key(c)),
                missing@ == chars@.take(i as int).filter(pred),
                missing@.len() == 0 ==> codes@.len() == i,
                missing@.len() == 0 ==> forall|j: int|
                    0 <= j < i ==> table.contains_key(#[trigger] chars@[j]),
                missing@.len() == 0 ==> forall|j: int|
                    0 <= j < i ==> #[trigger] codes@[j]@ == table[chars@[j]],
            decreases n - i,
        {
            proof {
                reveal_with_fuel(Seq::<_>::filter, 1);
                assert(chars@.take(i + 1).drop_last() =~= chars@.take(i as int));
                assert(chars@.take(i + 1).last() == chars@[i as int]);
            }
            match char_map.get(chars[i]) {
                Some(code) => {
                    if missing.len() == 0 {
                        let ghost old_codes = codes@;
                        codes.push(chars_of(code));
                        assert forall|j: int| 0 <= j < i + 1 implies #[trigger] codes@[j]@
                            == table[chars@[j]] by {
                            if j < i {
                                assert(codes@[j] == old_codes[j]);
                                assert(old_codes[j]@ == table[chars@[j]]);
                            }
                        }
                    }
                },
                None => {
                    missing.push(chars[i]);
                },
            }
            i = i + 1;
        }
        proof {
            assert(chars@.take(n as int) =~= chars@);
        }
        if missing.len() > 0 {
            return EncodeResult { code: None, missing_chars: missing };
        }
        let mut out: Vec<char> = Vec::new();
        if n == 2 {
            push_prefix(&mut out, codes[0].as_slice(), 2);
            push_prefix(&mut out, codes[1].as_slice(), 2);
        } else if n == 3 {
            push_prefix(&mut out, codes[0].as_slice(), 1);
            push_prefix(&mut out, codes[1].as_slice(), 1);
            push_prefix(&mut out, codes[2].as_slice(), 2);
        } else {
            push_prefix(&mut out, codes[0].as_slice(), 1);
            push_prefix(&mut out, codes[1].as_slice(), 1);
            push_prefix(&mut out, codes[2].as_slice(), 1);
            push_prefix(&mut out, codes[n - 1].as_slice(), 1);
        }
        proof {
            assert(out@ =~= phrase_code(word@, table));
        }
        EncodeResult { code: Some(string_of(out.as_slice())), missing_chars: missing }
    }
}

/// A phrase of four or more characters keeps its code and its characters
/// without a code when characters that all have codes are put before its
/// last character: only the first three characters and the last one count.
pub proof fn law_insert_before_last(word: Seq<char>, x: Seq<char>, table: Map<char, Seq<char>>)
    requires
        word.len() >= 4,
        forall|i: int| 0 <= i < x.len() ==> table.contains_key(#[trigger] x[i]),
    ensures
        phrase_code(word.drop_last() + x + seq![word.last()], table) == phrase_code(word, table),
        unknown_chars(word.drop_last() + x + seq![word.last()], table) == unknown_chars(
            word,
            table,
        ),
{
    let head = word.drop_last();
    let w2 = head + x + seq![word.last()];
    let pred = |c: char| !table.contains_key(c);
    assert(w2[0] == word[0] && w2[1] == word[1] && w2[2] == word[2]);
    assert(w2[w2.len() - 1] == word[word.len() - 1]);
    assert(phrase_code(w2, table) =~= phrase_code(word, table));
    assert(word =~= head + seq![word.last()]);
    Seq::filter_distributes_over_add(head + x, seq![word.last()], pred);
    Seq::filter_distributes_over_add(head, x, pred);
    Seq::filter_distributes_over_add(head, seq![word.last()], pred);
    assert(x.filter(pred) =~= Seq::<char>::empty()) by {
        x.lemma_filter_len(pred);
        if x.filter(pred).len() > 0 {
            x.lemma_filter_contains_rev(pred, x.filter(pred)[0]);
            x.filter(pred).lemma_filter_pred(pred, 0);
        }
    }
    assert(head + x + seq![word.last()] == w2);
    assert(unknown_chars(w2, table) =~= unknown_chars(word, table));
}

/// Every character of the phrase has a non-empty code in the table.
pub open spec fn all_coded(word: Seq<char>, table: Map<char, Seq<char>>) -> bool {
    forall|i: int|
        0 <= i < word.len() ==> table.contains_key(#[trigger] word[i]) && table[word[i]].len() > 0
}

/// The letters of a phrase code. A phrase code has at most four letters.
/// Two characters give up to two letters of each code (the first two, or
/// the whole code when shorter); three characters give the first letter of
/// the first and second codes, then up to two letters of the third; four
/// or more give the first letters of the codes of the first three
/// characters and of the last one.
pub proof fn law_phrase_code_letters(word: Seq<char>, table: Map<char, Seq<char>>)
    requires
        word.len() >= 2,
        all_coded(word, table),
    ensures
        phrase_code(word, table).len() <= 4,
        word.len() == 2 ==> {
            let a = table[word[0]];
            let b = table[word[1]];
            let c = phrase_code(word, table);
            let la = if a.len() < 2 { a.len() as int } else { 2 };
            &&& c.len() == la + (if b.len() < 2 { b.len() as int } else { 2 })
            &&& c[0] == a[0]
            &&& (a.len() >= 2 ==> c[1] == a[1])
            &&& c[la] == b[0]
            &&& (b.len() >= 2 ==> c[la + 1] == b[1])
        },
        word.len() == 3 ==> {
            let c = phrase_code(word, table);
            let z = table[word[2]];
            &&& c.len() == 2 + (if z.len() < 2 { z.len() as int } else { 2 })
            &&& c[0] == table[word[0]][0]
            &&& c[1] == table[word[1]][0]
            &&& c[2] == z[0]
            &&& (z.len() >= 2 ==> c[3] == z[1])
        },
        word.len() >= 4 ==> {
            let c = phrase_code(word, table);
            &&& c.len() == 4
            &&& c[0] == table[word[0]][0]
            &&& c[1] == table[word[1]][0]
            &&& c[2] == table[word[2]][0]
            &&& c[3] == table[word[word.len() - 1]][0]
        },
{
    let n = word.len();
    assert(table.contains_key(word[0]) && table[word[0]].len() > 0);
    assert(table.contains_key(word[1]) && table[word[1]].len() > 0);
    if n >= 3 {
        assert(table.contains_key(word[2]) && table[word[2]].len() > 0);
    }
    assert(table.contains_key(word[n - 1]) && table[word[n - 1]].len() > 0);
}

/// A phrase code never has more than four letters, whatever the codes of
/// its characters.
pub proof fn law_phrase_code_short(word: Seq<char>, table: Map<char, Seq<char>>)
    requires
        word.len() >= 2,
    ensures
        phrase_code(word, table).len() <= 4,
{
}

} // verus!
