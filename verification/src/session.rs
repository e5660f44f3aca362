//! The interactive word-adding session: the user enters a word, its code and
//! a weight, one line each, and each complete answer adds an entry to the
//! extra dictionary's body. The session decides what each input line means;
//! the program around it prompts, reads and reports.
use vstd::prelude::*;

use crate::extra::{
    add_entry_line, entry_line_from, spec_format_entry_line, spec_parse_weight, AddOutcome,
};
use crate::text::{
    chars_of, decimal, lemma_decimal_digits, lemma_parse_decimal, lemma_trim_unpadded, parse_u32,
    parse_u32_text, string_of, string_views, trim, trim_chars, trim_text,
};

verus! {

/// The weight of a word added without one.
pub const DEFAULT_WEIGHT: u32 = 10;

/// Whether the program runs the interactive session: when asked to, or when
/// neither a word nor a code was given on the command line.
pub fn is_interactive(forced: bool, word_given: bool, code_given: bool) -> (r: bool)
    ensures
        r == (forced || (!word_given && !code_given)),
{
    forced || (!word_given && !code_given)
}

/// The weight a weight answer gives: the trimmed answer read as a number,
/// or [`DEFAULT_WEIGHT`] when it is not one.
pub open spec fn spec_answer_weight(input: Seq<char>) -> u32 {
    match parse_u32(trim(input)) {
        Some(w) => w,
        None => DEFAULT_WEIGHT,
    }
}

/// What the session asks for next.
#[derive(Debug, Clone, Copy, PartialEq, Eq, Structural)]
pub enum Ask {
    Word,
    Code,
    Weight,
}

/// What one line of input led to.
#[derive(Debug, Clone, Copy, PartialEq, Eq, Structural)]
pub enum Event {
    /// A word was given; its code comes next.
    GotWord,
    /// A code was given; the weight comes next.
    GotCode,
    /// The code was empty: the word is dropped and a new word is asked for.
    EmptyCode,
    /// The entry was appended with this weight.
    Added { weight: u32 },
    /// An entry with this word and code was already there, with this weight;
    /// nothing changed.
    Exists { weight: u32 },
    /// The word was empty: the session is over.
    Finished,
}

/// The mathematical content of a [`Session`].
pub struct SessionModel {
    pub body: Seq<Seq<char>>,
    pub count: u32,
    pub ask: Ask,
    pub word: Seq<char>,
    pub code: Seq<char>,
}

/// `n + 1`, held at `u32::MAX`.
pub open spec fn count_after(n: u32) -> u32 {
    if n < u32::MAX {
        (n + 1) as u32
    } else {
        n
    }
}

/// The session after one line of input, and what the line led to.
///
/// - Asked for a word: an empty (trimmed) answer finishes the session;
///   otherwise the trimmed answer is the word and the code is asked for.
/// - Asked for a code: an empty answer drops the word and asks for a new
///   one; otherwise the trimmed answer is the code and the weight is asked
///   for.
/// - Asked for a weight: the answer gives the weight (see
///   [`spec_answer_weight`]); the entry is appended unless the body already
///   has one with this word and code; the count grows with each entry
///   appended; a new word is asked for.
pub open spec fn spec_step(s: SessionModel, input: Seq<char>) -> (SessionModel, Event) {
    match s.ask {
        Ask::Word => {
            let w = trim(input);
            if w.len() == 0 {
                (s, Event::Finished)
            } else {
                (SessionModel { ask: Ask::Code, word: w, ..s }, Event::GotWord)
            }
        },
        Ask::Code => {
            let c = trim(input);
            if c.len() == 0 {
                (SessionModel { ask: Ask::Word, ..s }, Event::EmptyCode)
            } else {
                (SessionModel { ask: Ask::Weight, code: c, ..s }, Event::GotCode)
            }
        },
        Ask::Weight => {
            let weight = spec_answer_weight(input);
            match entry_line_from(s.body, s.word, s.code, 0) {
                Some(i) => (
                    SessionModel { ask: Ask::Word, ..s },
                    Event::Exists { weight: spec_parse_weight(s.body[i]) },
                ),
                None => (
                    SessionModel {
                        ask: Ask::Word,
                        body: s.body.push(spec_format_entry_line(s.word, s.code, weight)),
                        count: count_after(s.count),
                        ..s
                    },
                    Event::Added { weight },
                ),
            }
        },
    }
}

/// An interactive session over the body of the extra dictionary.
pub struct Session {
    body: Vec<String>,
    count: u32,
    ask: Ask,
    word: String,
    code: String,
}

impl View for Session {
    type V = SessionModel;

    closed spec fn view(&self) -> SessionModel {
        SessionModel {
            body: string_views(self.body@),
            count: self.count,
            ask: self.ask,
            word: self.word@,
            code: self.code@,
        }
    }
}

impl Session {
    /// A session that adds to `body` and first asks for a word.
    pub fn new(body: Vec<String>) -> (s: Self)
        ensures
            s@.body == string_views(body@),
            s@.count == 0,
            s@.ask == Ask::Word,
            s@.word.len() == 0,
            s@.code.len() == 0,
    {
        Session { body, count: 0, ask: Ask::Word, word: String::new(), code: String::new() }
    }

    /// What the session asks for next.
    pub fn ask(&self) -> (r: Ask)
        ensures
            r == self@.ask,
    {
        self.ask
    }

    /// The number of entries appended so far.
    pub fn count(&self) -> (r: u32)
        ensures
            r == self@.count,
    {
        self.count
    }

    /// The current word.
    pub fn word(&self) -> (r: &str)
        ensures
            r@ == self@.word,
    {
        self.word.as_str()
    }

    /// The current code.
    pub fn code(&self) -> (r: &str)
        ensures
            r@ == self@.code,
    {
        self.code.as_str()
    }

    /// The body with the entries appended.
    pub fn into_body(self) -> (r: Vec<String>)
        ensures
            string_views(r@) == self@.body,
    {
        self.body
    }

    /// Takes one line of input (see [`spec_step`]).
    pub fn step(&mut self, input: &str) -> (e: Event)
        ensures
            (final(self)@, e) == spec_step(old(self)@, input@),
    {
        match self.ask {
            Ask::Word => {
                let w = trim_chars(chars_of(input).as_slice());
                if w.len() == 0 {
                    Event::Finished
                } else {
                    self.word = string_of(w.as_slice());
                    self.ask = Ask::Code;
                    Event::GotWord
                }
            },
            Ask::Code => {
                let c = trim_chars(chars_of(input).as_slice());
                self.ask = Ask::Word;
                if c.len() == 0 {
                    Event::EmptyCode
                } else {
                    self.code = string_of(c.as_slice());
                    self.ask = Ask::Weight;
                    Event::GotCode
                }
            },
            Ask::Weight => {
                let t = trim_text(input);
                let weight = match parse_u32_text(t.as_str()) {
                    Some(w) => w,
                    None => DEFAULT_WEIGHT,
                };
                self.ask = Ask::Word;
                match add_entry_line(&mut self.body, self.word.as_str(), self.code.as_str(), weight) {
                    AddOutcome::Added => {
                        if self.count < u32::MAX {
                            self.count = self.count + 1;
                        }
                        Event::Added { weight }
                    },
                    AddOutcome::Exists { weight: w } => Event::Exists { weight: w },
                }
            },
        }
    }
}

/// A step never removes or changes a line of the body: the old body is a
/// prefix of the new one, which is at most one line longer, and it grows
/// exactly when the step reports an added entry, which the count then
/// records (up to `u32::MAX`).
pub proof fn law_step_only_appends(s: SessionModel, input: Seq<char>)
    ensures
        ({
            let (t, e) = spec_step(s, input);
            &&& s.body.len() <= t.body.len() <= s.body.len() + 1
            &&& t.body.take(s.body.len() as int) == s.body
            &&& (t.body.len() == s.body.len() + 1 <==> e is Added)
            &&& t.count == (if e is Added { count_after(s.count) } else { s.count })
        }),
{
    let (t, e) = spec_step(s, input);
    assert(t.body.take(s.body.len() as int) =~= s.body);
}

/// What the session asks next after each kind of answer: after a word it
/// asks for the code (or, on a blank word, finishes and changes nothing);
/// after a code it asks for the weight (or, on a blank code, for a new
/// word); after a weight it always asks for a new word, whether the entry
/// was added or was already there. Only a weight answer touches the body.
pub proof fn law_session_prompts(s: SessionModel, input: Seq<char>)
    ensures
        ({
            let (t, e) = spec_step(s, input);
            &&& s.ask == Ask::Word ==> ((e == Event::Finished) <==> trim(input).len() == 0)
            &&& s.ask == Ask::Word && e == Event::Finished ==> t == s
            &&& s.ask == Ask::Word && e != Event::Finished ==> t.ask == Ask::Code && t.word == trim(
                input,
            ) && e == Event::GotWord
            &&& s.ask == Ask::Code ==> t.ask == (if trim(input).len() == 0 {
                Ask::Word
            } else {
                Ask::Weight
            })
            &&& s.ask == Ask::Code && trim(input).len() > 0 ==> t.code == trim(input) && t.word
                == s.word
            &&& s.ask == Ask::Weight ==> t.ask == Ask::Word && (e is Added || e is Exists)
            &&& s.ask != Ask::Weight ==> t.body == s.body && t.count == s.count
        }),
{
}

/// A weight answer for a word and code that the body has no entry for
/// appends the line `word<TAB>code<TAB>weight`, where the weight is the
/// number the answer writes, or 10 when the answer is blank.
pub proof fn law_weight_answer(s: SessionModel, w: u32)
    requires
        s.ask == Ask::Weight,
        entry_line_from(s.body, s.word, s.code, 0) is None,
    ensures
        spec_step(s, decimal(w as nat)).1 == (Event::Added { weight: w }),
        spec_step(s, decimal(w as nat)).0.body == s.body.push(
            s.word + seq!['\t'] + s.code + seq!['\t'] + decimal(w as nat),
        ),
        spec_step(s, Seq::empty()).1 == (Event::Added { weight: 10 }),
{
    lemma_parse_decimal(w);
    lemma_decimal_digits(w as nat);
    lemma_trim_unpadded(decimal(w as nat));
    assert(trim(Seq::<char>::empty()) =~= Seq::<char>::empty());
}

} // verus!
