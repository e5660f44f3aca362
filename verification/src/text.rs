//! Character-level text operations used by the dictionary formats: whitespace
//! trimming, prefix matching, splitting on a separator and decimal numbers.
//! Every operation works on a `Seq<char>` model and has an exact contract.
use vstd::prelude::*;

verus! {

// ---------------------------------------------------------------------------
// Whitespace and trimming
// ---------------------------------------------------------------------------

/// The characters with the Unicode `White_Space` property (what
/// `char::is_whitespace` accepts, and what `str::trim` removes).
pub open spec fn is_ws(c: char) -> bool {
    ||| ('\u{9}' <= c && c <= '\u{d}')
    ||| c == ' '
    ||| c == '\u{85}'
    ||| c == '\u{a0}'
    ||| c == '\u{1680}'
    ||| ('\u{2000}' <= c && c <= '\u{200a}')
    ||| c == '\u{2028}'
    ||| c == '\u{2029}'
    ||| c == '\u{202f}'
    ||| c == '\u{205f}'
    ||| c == '\u{3000}'
}

/// The predicate "is whitespace".
pub open spec fn ws_pred() -> spec_fn(char) -> bool {
    |c: char| is_ws(c)
}

/// The predicate "is the character `c`".
pub open spec fn eq_pred(c: char) -> spec_fn(char) -> bool {
    |x: char| x == c
}

/// The predicate "is not the character `c`".
pub open spec fn ne_pred(c: char) -> spec_fn(char) -> bool {
    |x: char| x != c
}

/// Length of the longest prefix of `s` whose characters all satisfy `f`.
pub open spec fn lead_count(s: Seq<char>, f: spec_fn(char) -> bool) -> nat
    decreases s.len(),
{
    if s.len() > 0 && f(s[0]) {
        1 + lead_count(s.drop_first(), f)
    } else {
        0
    }
}

/// Length of the longest suffix of `s` whose characters all satisfy `f`.
pub open spec fn trail_count(s: Seq<char>, f: spec_fn(char) -> bool) -> nat
    decreases s.len(),
{
    if s.len() > 0 && f(s.last()) {
        1 + trail_count(s.drop_last(), f)
    } else {
        0
    }
}

/// `s` without its leading whitespace (`str::trim_start`).
pub open spec fn trim_start(s: Seq<char>) -> Seq<char> {
    s.skip(lead_count(s, ws_pred()) as int)
}

/// `s` without its trailing whitespace (`str::trim_end`).
pub open spec fn trim_end(s: Seq<char>) -> Seq<char> {
    s.take(s.len() - trail_count(s, ws_pred()))
}

/// `s` without leading and trailing whitespace (`str::trim`).
pub open spec fn trim(s: Seq<char>) -> Seq<char> {
    trim_end(trim_start(s))
}

/// `s` without leading and trailing copies of `c` (`str::trim_matches` with a char).
pub open spec fn trim_char(s: Seq<char>, c: char) -> Seq<char> {
    let t = s.skip(lead_count(s, eq_pred(c)) as int);
    t.take(t.len() - trail_count(t, eq_pred(c)))
}

pub proof fn lemma_lead_count_bound(s: Seq<char>, f: spec_fn(char) -> bool)
    ensures
        lead_count(s, f) <= s.len(),
        forall|j: int| 0 <= j < lead_count(s, f) ==> f(#[trigger] s[j]),
        lead_count(s, f) < s.len() ==> !f(s[lead_count(s, f) as int]),
    decreases s.len(),
{
    if s.len() > 0 && f(s[0]) {
        lemma_lead_count_bound(s.drop_first(), f);
        assert forall|j: int| 0 <= j < lead_count(s, f) implies f(#[trigger] s[j]) by {
            if j > 0 {
                assert(s[j] == s.drop_first()[j - 1]);
            }
        }
        if lead_count(s, f) < s.len() {
            assert(s[lead_count(s, f) as int] == s.drop_first()[lead_count(s.drop_first(), f) as int]);
        }
    }
}

/// A prefix count that stops at the first character failing `f` is `lead_count`.
pub proof fn lemma_lead_count_is(s: Seq<char>, f: spec_fn(char) -> bool, i: int)
    requires
        0 <= i <= s.len(),
        forall|j: int| 0 <= j < i ==> f(#[trigger] s[j]),
        i == s.len() || !f(s[i]),
    ensures
        lead_count(s, f) == i,
    decreases i,
{
    if i > 0 {
        assert forall|j: int| 0 <= j < i - 1 implies f(#[trigger] s.drop_first()[j]) by {
            assert(s.drop_first()[j] == s[j + 1]);
        }
        if i < s.len() {
            assert(s.drop_first()[i - 1] == s[i]);
        }
        lemma_lead_count_is(s.drop_first(), f, i - 1);
    }
}

/// A suffix count that stops at the last character failing `f` is `trail_count`.
pub proof fn lemma_trail_count_is(s: Seq<char>, f: spec_fn(char) -> bool, k: int)
    requires
        0 <= k <= s.len(),
        forall|j: int| s.len() - k <= j < s.len() ==> f(#[trigger] s[j]),
        k == s.len() || !f(s[s.len() - 1 - k]),
    ensures
        trail_count(s, f) == k,
    decreases k,
{
    if k > 0 {
        let t = s.drop_last();
        assert forall|j: int| t.len() - (k - 1) <= j < t.len() implies f(#[trigger] t[j]) by {
            assert(t[j] == s[j]);
        }
        if k < s.len() {
            assert(t[t.len() - 1 - (k - 1)] == s[s.len() - 1 - k]);
        }
        lemma_trail_count_is(t, f, k - 1);
    }
}

/// The trailing run that `trail_count` measures lies within `s`, and each of
/// its characters satisfies `f`.
pub proof fn lemma_trail_count_bound(s: Seq<char>, f: spec_fn(char) -> bool)
    ensures
        trail_count(s, f) <= s.len(),
        forall|j: int| s.len() - trail_count(s, f) <= j < s.len() ==> f(#[trigger] s[j]),
    decreases s.len(),
{
    if s.len() > 0 && f(s.last()) {
        let t = s.drop_last();
        lemma_trail_count_bound(t, f);
        assert forall|j: int| s.len() - trail_count(s, f) <= j < s.len() implies f(
            #[trigger] s[j],
        ) by {
            if j < s.len() - 1 {
                assert(s[j] == t[j]);
            }
        }
    }
}

/// Trimming the end of a line that has text after its indentation keeps
/// the first character of that text.
pub proof fn lemma_trim_keeps_first(l: Seq<char>)
    requires
        trim_start(l).len() > 0,
    ensures
        trim(l).len() > 0,
        trim(l)[0] == trim_start(l)[0],
{
    let t = trim_start(l);
    lemma_lead_count_bound(l, ws_pred());
    assert(t[0] == l[lead_count(l, ws_pred()) as int]);
    lemma_trail_count_bound(t, ws_pred());
    if trail_count(t, ws_pred()) == t.len() {
        assert(ws_pred()(t[0]));
    }
}

/// Trimming ignores a whitespace character at the end.
pub proof fn lemma_trim_drop_ws_last(s: Seq<char>)
    requires
        s.len() > 0,
        is_ws(s.last()),
    ensures
        trim(s.drop_last()) == trim(s),
{
    let d = s.drop_last();
    let f = ws_pred();
    lemma_lead_count_bound(d, f);
    let k = lead_count(d, f);
    assert forall|j: int| 0 <= j < k implies f(#[trigger] s[j]) by {
        assert(s[j] == d[j]);
    }
    if k == d.len() {
        assert(f(s[s.len() - 1]));
        assert forall|j: int| 0 <= j < s.len() implies f(#[trigger] s[j]) by {
            if j < k {
                assert(s[j] == d[j]);
            }
        }
        lemma_lead_count_is(s, f, s.len() as int);
        assert(trim_start(s) =~= Seq::<char>::empty());
        assert(trim_start(d) =~= Seq::<char>::empty());
        lemma_trail_count_bound(Seq::<char>::empty(), f);
    } else {
        assert(s[k as int] == d[k as int]);
        lemma_lead_count_is(s, f, k as int);
        let t = s.skip(k as int);
        assert(trim_start(d) =~= t.drop_last());
        assert(t.last() == s.last());
        assert(f(t.last()));
        lemma_trail_count_bound(t.drop_last(), f);
        assert(trail_count(t, f) == 1 + trail_count(t.drop_last(), f));
        assert(trim_end(t.drop_last()) =~= trim_end(t));
    }
}

/// Whether `c` is whitespace (`char::is_whitespace`).
pub fn is_ws_char(c: char) -> (r: bool)
    ensures
        r == is_ws(c),
{
    ('\u{9}' <= c && c <= '\u{d}') || c == ' ' || c == '\u{85}' || c == '\u{a0}' || c == '\u{1680}'
        || ('\u{2000}' <= c && c <= '\u{200a}') || c == '\u{2028}' || c == '\u{2029}' || c
        == '\u{202f}' || c == '\u{205f}' || c == '\u{3000}'
}

// ---------------------------------------------------------------------------
// Conversions between `str`, `String` and `Vec<char>`
// ---------------------------------------------------------------------------

/// Appends one character to a `String` (`String::push`); the string's
/// characters become the old ones followed by `c`.
#[verifier::external_body]
fn push_char(s: &mut String, c: char)
    ensures
        final(s)@ == old(s)@.push(c),
{
    s.push(c);
}

/// Copies the characters of `s` into a vector.
pub fn chars_of(s: &str) -> (v: Vec<char>)
    ensures
        v@ == s@,
{
    let mut v: Vec<char> = Vec::new();
    for c in it: s.chars()
        invariant
            v@ == it.seq().take(it.index() as int),
    {
        v.push(c);
    }
    v
}

/// The characters of each string of a sequence.
pub open spec fn string_views(v: Seq<String>) -> Seq<Seq<char>> {
    v.map_values(|x: String| x@)
}

/// Appends the characters of `s` to `out`.
pub fn push_chars(out: &mut Vec<char>, s: &[char])
    ensures
        final(out)@ == old(out)@ + s@,
{
    let ghost start = out@;
    let n = s.len();
    for i in 0..n
        invariant
            n == s@.len(),
            out@ == start + s@.take(i as int),
    {
        out.push(s[i]);
        assert(s@.take(i + 1) == s@.take(i as int).push(s@[i as int]));
    }
    assert(s@.take(n as int) == s@);
}

/// A `String` holding the characters of `s`.
pub fn string_of(s: &[char]) -> (r: String)
    ensures
        r@ == s@,
{
    let mut r = String::new();
    let n = s.len();
    for i in 0..n
        invariant
            n == s@.len(),
            r@ == s@.take(i as int),
    {
        push_char(&mut r, s[i]);
        assert(s@.take(i + 1) == s@.take(i as int).push(s@[i as int]));
    }
    assert(s@.take(n as int) == s@);
    r
}

/// The characters `s[from..to]` as a new vector.
pub fn copy_range(s: &[char], from: usize, to: usize) -> (r: Vec<char>)
    requires
        from <= to <= s@.len(),
    ensures
        r@ == s@.subrange(from as int, to as int),
{
    let mut r: Vec<char> = Vec::new();
    let mut i = from;
    while i < to
        invariant
            from <= i <= to <= s@.len(),
            r@ == s@.subrange(from as int, i as int),
        decreases to - i,
    {
        r.push(s[i]);
        assert(s@.subrange(from as int, i + 1) == s@.subrange(from as int, i as int).push(s@[i as int]));
        i = i + 1;
    }
    r
}

/// The characters of `s` without leading and trailing whitespace.
pub fn trim_chars(s: &[char]) -> (r: Vec<char>)
    ensures
        r@ == trim(s@),
{
    let n = s.len();
    let mut i: usize = 0;
    while i < n && is_ws_char(s[i])
        invariant
            i <= n == s@.len(),
            forall|j: int| 0 <= j < i ==> is_ws(#[trigger] s@[j]),
        decreases n - i,
    {
        i = i + 1;
    }
    proof {
        lemma_lead_count_is(s@, ws_pred(), i as int);
    }
    let ghost t = s@.skip(i as int);
    let mut k: usize = 0;
    while k < n - i && is_ws_char(s[n - 1 - k])
        invariant
            i <= n == s@.len(),
            k <= n - i,
            t == s@.skip(i as int),
            forall|j: int| t.len() - k <= j < t.len() ==> is_ws(#[trigger] t[j]),
        decreases n - i - k,
    {
        assert(t[t.len() - 1 - k] == s@[n - 1 - k]);
        k = k + 1;
    }
    proof {
        if k < n - i {
            assert(t[t.len() - 1 - k] == s@[n - 1 - k]);
        }
        lemma_trail_count_is(t, ws_pred(), k as int);
        assert(trim(s@) == s@.subrange(i as int, (n - k) as int));
    }
    copy_range(s, i, n - k)
}

/// The characters of `s` without leading whitespace.
pub fn trim_start_chars(s: &[char]) -> (r: Vec<char>)
    ensures
        r@ == trim_start(s@),
{
    let n = s.len();
    let mut i: usize = 0;
    while i < n && is_ws_char(s[i])
        invariant
            i <= n == s@.len(),
            forall|j: int| 0 <= j < i ==> is_ws(#[trigger] s@[j]),
        decreases n - i,
    {
        i = i + 1;
    }
    proof {
        lemma_lead_count_is(s@, ws_pred(), i as int);
    }
    copy_range(s, i, n)
}

/// `s` with leading and trailing whitespace removed (`str::trim`).
pub fn trim_text(s: &str) -> (r: String)
    ensures
        r@ == trim(s@),
{
    let v = chars_of(s);
    let t = trim_chars(v.as_slice());
    string_of(t.as_slice())
}

// ---------------------------------------------------------------------------
// Prefixes
// ---------------------------------------------------------------------------

/// Whether `s` starts with `p` (`str::starts_with`).
pub open spec fn starts_with(s: Seq<char>, p: Seq<char>) -> bool {
    p.len() <= s.len() && s.subrange(0, p.len() as int) == p
}

/// `s` with every leading repetition of the non-empty pattern `p` removed
/// (`str::trim_start_matches` with a string pattern).
pub open spec fn strip_prefixes(s: Seq<char>, p: Seq<char>) -> Seq<char>
    decreases s.len(),
{
    if p.len() > 0 && starts_with(s, p) {
        strip_prefixes(s.skip(p.len() as int), p)
    } else {
        s
    }
}

/// Whether the characters `a` and `b` are the same sequence.
pub fn chars_eq(a: &[char], b: &[char]) -> (r: bool)
    ensures
        r == (a@ == b@),
{
    if a.len() != b.len() {
        return false;
    }
    let n = a.len();
    for i in 0..n
        invariant
            n == a@.len() == b@.len(),
            forall|j: int| 0 <= j < i ==> a@[j] == b@[j],
    {
        if a[i] != b[i] {
            return false;
        }
    }
    assert(a@ =~= b@);
    true
}

/// Whether `s[at..]` starts with `p`.
pub fn starts_with_at(s: &[char], at: usize, p: &[char]) -> (r: bool)
    requires
        at <= s@.len(),
    ensures
        r == starts_with(s@.skip(at as int), p@),
{
    let n = s.len();
    let m = p.len();
    if m > n - at {
        return false;
    }
    for i in 0..m
        invariant
            n == s@.len(),
            m == p@.len(),
            at + m <= n,
            forall|j: int| 0 <= j < i ==> s@[at + j] == p@[j],
    {
        if s[at + i] != p[i] {
            assert(s@.skip(at as int).subrange(0, m as int)[i as int] == s@[at + i]);
            return false;
        }
    }
    assert(s@.skip(at as int).subrange(0, m as int) =~= p@);
    true
}

/// `s` with every leading repetition of `p` removed.
pub fn strip_prefixes_chars(s: &[char], p: &[char]) -> (r: Vec<char>)
    ensures
        r@ == strip_prefixes(s@, p@),
{
    let n = s.len();
    let m = p.len();
    if m == 0 {
        return copy_range(s, 0, n);
    }
    let mut i: usize = 0;
    assert(s@.skip(0) == s@);
    while starts_with_at(s, i, p)
        invariant
            n == s@.len(),
            m == p@.len() > 0,
            i <= n,
            strip_prefixes(s@.skip(i as int), p@) == strip_prefixes(s@, p@),
        decreases n - i,
    {
        assert(s@.skip(i as int).skip(m as int) =~= s@.skip(i + m));
        i = i + m;
    }
    copy_range(s, i, n)
}

/// `s` without leading and trailing copies of `c`.
pub fn trim_char_chars(s: &[char], c: char) -> (r: Vec<char>)
    ensures
        r@ == trim_char(s@, c),
{
    let n = s.len();
    let mut i: usize = 0;
    while i < n && s[i] == c
        invariant
            i <= n == s@.len(),
            forall|j: int| 0 <= j < i ==> eq_pred(c)(#[trigger] s@[j]),
        decreases n - i,
    {
        i = i + 1;
    }
    proof {
        lemma_lead_count_is(s@, eq_pred(c), i as int);
    }
    let ghost t = s@.skip(i as int);
    let mut k: usize = 0;
    while k < n - i && s[n - 1 - k] == c
        invariant
            i <= n == s@.len(),
            k <= n - i,
            t == s@.skip(i as int),
            forall|j: int| t.len() - k <= j < t.len() ==> eq_pred(c)(#[trigger] t[j]),
        decreases n - i - k,
    {
        assert(t[t.len() - 1 - k] == s@[n - 1 - k]);
        k = k + 1;
    }
    proof {
        if k < n - i {
            assert(t[t.len() - 1 - k] == s@[n - 1 - k]);
        }
        lemma_trail_count_is(t, eq_pred(c), k as int);
        assert(trim_char(s@, c) == s@.subrange(i as int, (n - k) as int));
    }
    copy_range(s, i, n - k)
}

// ---------------------------------------------------------------------------
// Splitting on a separator
// ---------------------------------------------------------------------------

/// The pieces of `s` between occurrences of `c` (`str::split` with a char),
/// in order; there is always at least one piece.
pub open spec fn split(s: Seq<char>, c: char) -> Seq<Seq<char>>
    decreases s.len(),
{
    let i = lead_count(s, ne_pred(c));
    if i >= s.len() {
        seq![s]
    } else {
        seq![s.take(i as int)] + split(s.skip((i + 1) as int), c)
    }
}

/// A line without the `\r` of a `\r\n` line ending.
pub open spec fn strip_cr(line: Seq<char>) -> Seq<char> {
    if line.len() > 0 && line.last() == '\r' {
        line.drop_last()
    } else {
        line
    }
}

/// Piece `i` of the pieces of a text between `\n` characters, as a line:
/// a piece that a `\n` follows loses the `\r` of its `\r\n` ending; the
/// last piece, which no `\n` follows, is kept as it is.
pub open spec fn line_of_piece(p: Seq<Seq<char>>, i: int) -> Seq<char> {
    if i < p.len() - 1 {
        strip_cr(p[i])
    } else {
        p[i]
    }
}

/// The number of lines in a text split into pieces at `\n`: all pieces
/// but a final empty one (after a final `\n`, or of an empty text).
pub open spec fn line_count(p: Seq<Seq<char>>) -> nat {
    if p.len() > 0 && p.last().len() == 0 {
        (p.len() - 1) as nat
    } else {
        p.len()
    }
}

/// The lines of a text (`str::lines`): the pieces between `\n` characters,
/// without a final empty piece, where a `\r` right before a `\n` is part of
/// the line ending.
pub open spec fn text_lines(s: Seq<char>) -> Seq<Seq<char>> {
    let p = split(s, '\n');
    Seq::new(line_count(p), |i: int| line_of_piece(p, i))
}

/// The lines of a text (`str::lines`).
pub fn split_lines(text: &str) -> (r: Vec<String>)
    ensures
        string_views(r@) == text_lines(text@),
{
    let chars = chars_of(text);
    let pieces = split_chars(chars.as_slice(), '\n');
    proof {
        lemma_split_pieces(text@, '\n');
    }
    let ghost p = views(pieces@);
    let total = pieces.len();
    let n = if pieces[total - 1].len() == 0 {
        total - 1
    } else {
        total
    };
    assert(p[total - 1] == pieces@[total - 1]@);
    assert(n == line_count(p));
    let mut out: Vec<String> = Vec::new();
    for i in 0..n
        invariant
            n <= total == pieces@.len(),
            p == views(pieces@),
            out@.len() == i,
            forall|k: int| 0 <= k < i ==> (#[trigger] out@[k])@ == line_of_piece(p, k),
    {
        let piece = &pieces[i];
        let m = piece.len();
        assert(p[i as int] == piece@);
        let line = if i + 1 < total && m > 0 && piece[m - 1] == '\r' {
            string_of(copy_range(piece.as_slice(), 0, m - 1).as_slice())
        } else {
            string_of(piece.as_slice())
        };
        proof {
            if m > 0 && piece@[m - 1] == '\r' {
                assert(piece@.subrange(0, m - 1) =~= piece@.drop_last());
            }
        }
        assert(line@ == line_of_piece(p, i as int));
        out.push(line);
    }
    assert(string_views(out@) =~= text_lines(text@));
    out
}

/// The text of lines each followed by `\n`, as a file of them is written.
pub open spec fn joined_lines(ls: Seq<Seq<char>>) -> Seq<char>
    decreases ls.len(),
{
    if ls.len() == 0 {
        Seq::empty()
    } else {
        ls[0] + seq!['\n'] + joined_lines(ls.drop_first())
    }
}

/// Joining one more line appends it and its `\n`.
proof fn lemma_joined_push(ls: Seq<Seq<char>>, x: Seq<char>)
    ensures
        joined_lines(ls.push(x)) == joined_lines(ls) + x + seq!['\n'],
    decreases ls.len(),
{
    if ls.len() == 0 {
        assert(ls.push(x).drop_first() =~= Seq::<Seq<char>>::empty());
        assert(ls.push(x)[0] == x);
        assert(joined_lines(ls.push(x).drop_first()) == Seq::<char>::empty());
        assert(joined_lines(ls) == Seq::<char>::empty());
        assert(joined_lines(ls.push(x)) =~= x + seq!['\n']);
    } else {
        assert(ls.push(x).drop_first() =~= ls.drop_first().push(x));
        lemma_joined_push(ls.drop_first(), x);
        assert(joined_lines(ls.push(x)) =~= joined_lines(ls) + x + seq!['\n']);
    }
}

/// The text of `lines`, each followed by `\n`.
pub fn join_lines(lines: &[String]) -> (r: String)
    ensures
        r@ == joined_lines(string_views(lines@)),
{
    let ghost ls = string_views(lines@);
    let mut out: Vec<char> = Vec::new();
    let n = lines.len();
    for i in 0..n
        invariant
            n == lines@.len() == ls.len(),
            ls == string_views(lines@),
            out@ == joined_lines(ls.take(i as int)),
    {
        let cs = chars_of(lines[i].as_str());
        push_chars(&mut out, cs.as_slice());
        out.push('\n');
        proof {
            assert(ls[i as int] == cs@);
            assert(ls.take(i + 1) =~= ls.take(i as int).push(ls[i as int]));
            lemma_joined_push(ls.take(i as int), ls[i as int]);
            assert(out@ =~= joined_lines(ls.take(i as int)) + cs@ + seq!['\n']);
        }
    }
    assert(ls.take(n as int) =~= ls);
    string_of(out.as_slice())
}

/// Reading the lines of a text made of lines, each followed by `\n`, gives
/// the lines back, each without the `\r` at its end (a `\r\n` ending),
/// when no line holds a `\n`.
pub proof fn law_lines_of_joined(ls: Seq<Seq<char>>)
    requires
        forall|k: int| 0 <= k < ls.len() ==> free_of(#[trigger] ls[k], '\n'),
    ensures
        text_lines(joined_lines(ls)) == ls.map_values(|l: Seq<char>| strip_cr(l)),
{
    lemma_split_joined(ls);
    let p = split(joined_lines(ls), '\n');
    assert(p.last() == Seq::<char>::empty());
    assert(line_count(p) == ls.len());
    assert forall|k: int| 0 <= k < ls.len() implies #[trigger] p[k] == ls[k] by {}
    assert(text_lines(joined_lines(ls)) =~= ls.map_values(|l: Seq<char>| strip_cr(l)));
}

/// Splitting the text of lines at `\n` gives the lines and an empty piece.
proof fn lemma_split_joined(ls: Seq<Seq<char>>)
    requires
        forall|k: int| 0 <= k < ls.len() ==> free_of(#[trigger] ls[k], '\n'),
    ensures
        split(joined_lines(ls), '\n') == ls.push(Seq::<char>::empty()),
    decreases ls.len(),
{
    if ls.len() == 0 {
        lemma_split_single(Seq::<char>::empty(), '\n');
        assert(ls.push(Seq::<char>::empty()) =~= seq![Seq::<char>::empty()]);
    } else {
        let rest = ls.drop_first();
        assert forall|k: int| 0 <= k < rest.len() implies free_of(#[trigger] rest[k], '\n') by {
            assert(rest[k] == ls[k + 1]);
        }
        lemma_split_joined(rest);
        assert(free_of(ls[0], '\n'));
        lemma_split_cons(ls[0], '\n', joined_lines(rest));
        assert(ls.push(Seq::<char>::empty()) =~= seq![ls[0]] + rest.push(Seq::<char>::empty()));
    }
}

/// The piece of `s` after the last occurrence of `c`, or all of `s`
/// (the first item of `str::rsplit` with a char).
pub open spec fn after_last(s: Seq<char>, c: char) -> Seq<char> {
    s.skip(s.len() - trail_count(s, ne_pred(c)))
}

/// The views of a vector of character vectors.
pub open spec fn views(v: Seq<Vec<char>>) -> Seq<Seq<char>> {
    v.map_values(|x: Vec<char>| x@)
}

/// Every piece of `split(s, c)` is free of `c`, and `split` never yields
/// an empty list.
pub proof fn lemma_split_pieces(s: Seq<char>, c: char)
    ensures
        split(s, c).len() >= 1,
        forall|k: int, j: int|
            0 <= k < split(s, c).len() && 0 <= j < split(s, c)[k].len() ==> #[trigger] split(
                s,
                c,
            )[k][j] != c,
    decreases s.len(),
{
    let i = lead_count(s, ne_pred(c));
    lemma_lead_count_bound(s, ne_pred(c));
    if i >= s.len() {
        assert forall|k: int, j: int|
            0 <= k < split(s, c).len() && 0 <= j < split(s, c)[k].len() implies #[trigger] split(
            s,
            c,
        )[k][j] != c by {
            assert(ne_pred(c)(s[j]));
        }
    } else {
        lemma_split_pieces(s.skip((i + 1) as int), c);
        let rest = split(s.skip((i + 1) as int), c);
        assert forall|k: int, j: int|
            0 <= k < split(s, c).len() && 0 <= j < split(s, c)[k].len() implies #[trigger] split(
            s,
            c,
        )[k][j] != c by {
            if k == 0 {
                assert(ne_pred(c)(s[j]));
            } else {
                assert(split(s, c)[k] == rest[k - 1]);
            }
        }
    }
}

/// The pieces of `s` between occurrences of `c`.
pub fn split_chars(s: &[char], c: char) -> (r: Vec<Vec<char>>)
    ensures
        views(r@) == split(s@, c),
{
    let n = s.len();
    let mut parts: Vec<Vec<char>> = Vec::new();
    let mut start: usize = 0;
    let mut i: usize = 0;
    assert(s@.skip(0) == s@);
    while i < n
        invariant
            n == s@.len(),
            start <= i <= n,
            forall|j: int| start <= j < i ==> ne_pred(c)(#[trigger] s@[j]),
            views(parts@) + split(s@.skip(start as int), c) == split(s@, c),
        decreases n - i,
    {
        if s[i] == c {
            let ghost t = s@.skip(start as int);
            proof {
                assert forall|j: int| 0 <= j < i - start implies ne_pred(c)(#[trigger] t[j]) by {
                    assert(t[j] == s@[start + j]);
                }
                assert(t[i - start] == s@[i as int]);
                lemma_lead_count_is(t, ne_pred(c), i - start);
                assert(t.take(i - start) =~= s@.subrange(start as int, i as int));
                assert(t.skip(i - start + 1) =~= s@.skip(i + 1));
            }
            let piece = copy_range(s, start, i);
            let ghost old_parts = parts@;
            parts.push(piece);
            proof {
                assert(views(parts@) =~= views(old_parts).push(piece@));
                assert(views(parts@) + split(s@.skip(i + 1), c) =~= views(old_parts) + split(t, c));
            }
            start = i + 1;
        }
        i = i + 1;
    }
    let ghost t = s@.skip(start as int);
    proof {
        assert forall|j: int| 0 <= j < t.len() implies ne_pred(c)(#[trigger] t[j]) by {
            assert(t[j] == s@[start + j]);
        }
        lemma_lead_count_is(t, ne_pred(c), t.len() as int);
    }
    let piece = copy_range(s, start, n);
    let ghost old_parts = parts@;
    parts.push(piece);
    proof {
        assert(piece@ =~= t);
        assert(views(parts@) =~= views(old_parts).push(piece@));
        assert(views(parts@) =~= views(old_parts) + split(t, c));
    }
    parts
}

/// The characters after the last occurrence of `c` in `s`, or all of `s`.
pub fn after_last_chars(s: &[char], c: char) -> (r: Vec<char>)
    ensures
        r@ == after_last(s@, c),
{
    let n = s.len();
    let mut k: usize = 0;
    while k < n && s[n - 1 - k] != c
        invariant
            k <= n == s@.len(),
            forall|j: int| n - k <= j < n ==> ne_pred(c)(#[trigger] s@[j]),
        decreases n - k,
    {
        k = k + 1;
    }
    proof {
        lemma_trail_count_is(s@, ne_pred(c), k as int);
    }
    copy_range(s, n - k, n)
}

// ---------------------------------------------------------------------------
// Decimal numbers
// ---------------------------------------------------------------------------

/// An ASCII decimal digit.
pub open spec fn is_digit(c: char) -> bool {
    '0' <= c && c <= '9'
}

/// The value of an ASCII digit.
pub open spec fn digit_value(c: char) -> nat {
    ((c as int) - ('0' as int)) as nat
}

/// The character of a digit value below ten.
pub open spec fn digit_char(d: nat) -> char {
    (d + ('0' as nat)) as char
}

/// The number that the digit string `s` denotes (most significant first).
pub open spec fn digits_value(s: Seq<char>) -> nat
    decreases s.len(),
{
    if s.len() == 0 {
        0
    } else {
        digits_value(s.drop_last()) * 10 + digit_value(s.last())
    }
}

/// Whether every character of `s` is an ASCII digit.
pub open spec fn all_digits(s: Seq<char>) -> bool {
    forall|i: int| 0 <= i < s.len() ==> is_digit(#[trigger] s[i])
}

/// `s` without one leading `+`, if it has one.
pub open spec fn unsigned_part(s: Seq<char>) -> Seq<char> {
    if s.len() > 0 && s[0] == '+' {
        s.drop_first()
    } else {
        s
    }
}

/// What `str::parse::<u32>` accepts: an optional `+`, then one or more ASCII
/// digits whose value fits in a `u32`.
pub open spec fn parse_u32(s: Seq<char>) -> Option<u32> {
    let d = unsigned_part(s);
    if d.len() > 0 && all_digits(d) && digits_value(d) <= u32::MAX {
        Some(digits_value(d) as u32)
    } else {
        None
    }
}

/// The decimal representation of `n` without leading zeros (`u32`'s `Display`).
pub open spec fn decimal(n: nat) -> Seq<char>
    decreases n,
{
    if n < 10 {
        seq![digit_char(n)]
    } else {
        decimal(n / 10).push(digit_char(n % 10))
    }
}

proof fn lemma_digits_value_prefix(s: Seq<char>, i: int)
    requires
        0 <= i <= s.len(),
    ensures
        digits_value(s.take(i)) <= digits_value(s),
    decreases s.len(),
{
    if i < s.len() {
        lemma_digits_value_prefix(s.drop_last(), i);
        assert(s.drop_last().take(i) =~= s.take(i));
    } else {
        assert(s.take(i) =~= s);
    }
}

proof fn lemma_digit_char(d: nat)
    requires
        d < 10,
    ensures
        is_digit(digit_char(d)),
        digit_value(digit_char(d)) == d,
{
    assert(('0' as nat) == 48);
    assert((d + 48) as char as int == d + 48);
}

/// `decimal(n)` is a non-empty digit string denoting `n`.
pub proof fn lemma_decimal(n: nat)
    ensures
        decimal(n).len() >= 1,
        forall|i: int| 0 <= i < decimal(n).len() ==> is_digit(#[trigger] decimal(n)[i]),
        digits_value(decimal(n)) == n,
    decreases n,
{
    lemma_digit_char(n % 10);
    if n < 10 {
        assert(decimal(n).drop_last() =~= Seq::<char>::empty());
        assert(digits_value(Seq::<char>::empty()) == 0);
        assert(digits_value(decimal(n)) == digits_value(decimal(n).drop_last()) * 10 + digit_value(
            decimal(n).last(),
        ));
    } else {
        lemma_decimal(n / 10);
        let d = decimal(n);
        assert(n == (n / 10) * 10 + n % 10);
        assert(d.last() == digit_char(n % 10));
        assert(digits_value(d) == digits_value(d.drop_last()) * 10 + digit_value(d.last()));
        assert(d.drop_last() =~= decimal(n / 10));
        assert forall|i: int| 0 <= i < d.len() implies is_digit(#[trigger] d[i]) by {
            if i < d.len() - 1 {
                assert(d[i] == decimal(n / 10)[i]);
            }
        }
    }
}

/// Reading back the decimal form of a `u32` gives the number.
pub proof fn lemma_parse_decimal(n: u32)
    ensures
        parse_u32(decimal(n as nat)) == Some(n),
{
    lemma_decimal(n as nat);
}

/// Parses a decimal `u32` as `str::parse::<u32>` does.
pub fn parse_u32_chars(s: &[char]) -> (r: Option<u32>)
    ensures
        r == parse_u32(s@),
{
    let n = s.len();
    let start: usize = if n > 0 && s[0] == '+' { 1 } else { 0 };
    let ghost d = unsigned_part(s@);
    assert(d =~= s@.skip(start as int));
    if start == n {
        return None;
    }
    let mut acc: u64 = 0;
    let mut i = start;
    while i < n
        invariant
            start <= i <= n == s@.len(),
            start < n,
            d == s@.skip(start as int),
            d == unsigned_part(s@),
            acc == digits_value(d.take(i - start)),
            acc <= u32::MAX,
            forall|j: int| 0 <= j < i - start ==> is_digit(#[trigger] d[j]),
        decreases n - i,
    {
        let c = s[i];
        assert(d[i - start] == c);
        if !('0' <= c && c <= '9') {
            assert(!is_digit(d[i - start]));
            return None;
        }
        assert(d.take(i - start + 1).drop_last() =~= d.take(i - start));
        assert(d.take(i - start + 1).last() == c);
        assert(('0' as int) == 48);
        acc = acc * 10 + ((c as u32) - 48) as u64;
        if acc > 4294967295 {
            proof {
                lemma_digits_value_prefix(d, i - start + 1);
            }
            return None;
        }
        i = i + 1;
    }
    assert(d.take(n - start) =~= d);
    assert(d.len() == n - start);
    Some(acc as u32)
}

/// Parses `s` as a decimal `u32` (`str::parse::<u32>`).
pub fn parse_u32_text(s: &str) -> (r: Option<u32>)
    ensures
        r == parse_u32(s@),
{
    let v = chars_of(s);
    parse_u32_chars(v.as_slice())
}

/// Appends the decimal form of `n` to `out`.
pub fn push_decimal(out: &mut Vec<char>, n: u32)
    ensures
        final(out)@ == old(out)@ + decimal(n as nat),
    decreases n,
{
    if n >= 10 {
        push_decimal(out, n / 10);
    }
    let d = n % 10;
    out.push(((d + 48) as u8) as char);
    proof {
        assert((n as nat) % 10 == d);
    }
}

// ---------------------------------------------------------------------------
// Facts used by the round-trip laws
// ---------------------------------------------------------------------------

/// `c` does not occur in `s`.
pub open spec fn free_of(s: Seq<char>, c: char) -> bool {
    forall|i: int| 0 <= i < s.len() ==> s[i] != c
}

/// Trimming a sequence that neither starts nor ends with whitespace keeps it.
pub proof fn lemma_trim_unpadded(s: Seq<char>)
    requires
        s.len() > 0,
        !is_ws(s[0]),
        !is_ws(s.last()),
    ensures
        trim(s) == s,
{
    lemma_lead_count_is(s, ws_pred(), 0);
    assert(s.skip(0) == s);
    lemma_trail_count_is(s, ws_pred(), 0);
    assert(s.take(s.len() as int) == s);
}

/// Trimming one leading space off an unpadded sequence gives the sequence.
pub proof fn lemma_trim_after_space(g: Seq<char>)
    requires
        g.len() > 0,
        !is_ws(g[0]),
        !is_ws(g.last()),
    ensures
        trim(seq![' '] + g) == g,
{
    let s = seq![' '] + g;
    assert forall|j: int| 0 <= j < 1 implies ws_pred()(#[trigger] s[j]) by {}
    assert(s[1] == g[0]);
    lemma_lead_count_is(s, ws_pred(), 1);
    assert(s.skip(1) =~= g);
    lemma_trail_count_is(g, ws_pred(), 0);
    assert(g.take(g.len() as int) == g);
}

/// A piece free of the separator, then the separator, then the rest, splits
/// into that piece followed by the pieces of the rest.
pub proof fn lemma_split_cons(a: Seq<char>, c: char, b: Seq<char>)
    requires
        free_of(a, c),
    ensures
        split(a + seq![c] + b, c) == seq![a] + split(b, c),
{
    let s = a + seq![c] + b;
    assert forall|j: int| 0 <= j < a.len() implies ne_pred(c)(#[trigger] s[j]) by {
        assert(s[j] == a[j]);
    }
    assert(s[a.len() as int] == c);
    lemma_lead_count_is(s, ne_pred(c), a.len() as int);
    assert(s.take(a.len() as int) =~= a);
    assert(s.skip((a.len() + 1) as int) =~= b);
}

/// A sequence free of the separator splits into itself alone.
pub proof fn lemma_split_single(b: Seq<char>, c: char)
    requires
        free_of(b, c),
    ensures
        split(b, c) == seq![b],
{
    assert forall|j: int| 0 <= j < b.len() implies ne_pred(c)(#[trigger] b[j]) by {}
    lemma_lead_count_is(b, ne_pred(c), b.len() as int);
}

/// The decimal form of a number holds only digits, so no tab and no '#'.
pub proof fn lemma_decimal_digits(n: nat)
    ensures
        decimal(n).len() >= 1,
        all_digits(decimal(n)),
        !is_ws(decimal(n).last()),
        free_of(decimal(n), '\t'),
        free_of(decimal(n), '\n'),
{
    lemma_decimal(n);
    assert(is_digit(decimal(n)[decimal(n).len() - 1]));
    assert forall|i: int| 0 <= i < decimal(n).len() implies decimal(n)[i] != '\t' && decimal(n)[i]
        != '\n' by {
        assert(is_digit(decimal(n)[i]));
    }
}

} // verus!
