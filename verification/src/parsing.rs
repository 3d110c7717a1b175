//! Cloze-span extraction and the small pieces of text parsing the card
//! model relies on: a restartable iterator over cloze-delimited spans in
//! three styles, markdown heading recognition, and location prefixes.

use crate::card::{Card, CardContent};
use crate::date::Date;
use crate::fsrs::{FSRSState, ReviewLogItem};
use crate::text::{find_from, is_space_char, is_whitespace_char, match_at, str_eq};
use vstd::prelude::*;

verus! {

#[via_fn]
proof fn find_pos_decreases(s: Seq<char>, pat: Seq<char>, from: int) {
    if !(from < 0 || from + pat.len() > s.len()) && !match_at(s, pat, from) {
        if pat.len() == 0 {
            assert(s.subrange(from, from + pat.len() as int) =~= pat);
        }
    }
}

/// The first position at or after `from` where `pat` occurs in `s`.
pub open spec fn find_pos(s: Seq<char>, pat: Seq<char>, from: int) -> Option<int>
    decreases s.len() - from,
    via find_pos_decreases
{
    if from < 0 || from + pat.len() > s.len() {
        None
    } else if match_at(s, pat, from) {
        Some(from)
    } else {
        find_pos(s, pat, from + 1)
    }
}

pub proof fn lemma_find_pos_some(s: Seq<char>, pat: Seq<char>, from: int, i: int)
    requires
        0 <= from <= i,
        match_at(s, pat, i),
        forall|j: int| from <= j < i ==> !match_at(s, pat, j),
    ensures
        find_pos(s, pat, from) == Some(i),
    decreases i - from,
{
    if from < i {
        lemma_find_pos_some(s, pat, from + 1, i);
    }
}

pub proof fn lemma_find_pos_none(s: Seq<char>, pat: Seq<char>, from: int)
    requires
        forall|j: int| from <= j ==> !match_at(s, pat, j),
    ensures
        find_pos(s, pat, from) is None,
    decreases s.len() - from,
{
    if !(from < 0 || from + pat.len() > s.len()) {
        if pat.len() == 0 {
            assert(s.subrange(from, from + pat.len() as int) =~= pat);
            assert(false);
        }
        lemma_find_pos_none(s, pat, from + 1);
    }
}


/// The first position at or after `from` holding a non-whitespace
/// character.
pub open spec fn next_nonspace(s: Seq<char>, from: int) -> Option<int>
    decreases s.len() - from,
{
    if from < 0 || from >= s.len() {
        None
    } else if !is_space_char(s[from]) {
        Some(from)
    } else {
        next_nonspace(s, from + 1)
    }
}

/// The first position at or after `from` holding a newline.
pub open spec fn next_newline(s: Seq<char>, from: int) -> Option<int>
    decreases s.len() - from,
{
    if from < 0 || from >= s.len() {
        None
    } else if s[from] == '\n' {
        Some(from)
    } else {
        next_newline(s, from + 1)
    }
}

pub proof fn lemma_next_nonspace(s: Seq<char>, from: int)
    ensures
        next_nonspace(s, from) matches Some(j) ==> from <= j < s.len() && !is_space_char(s[j]),
    decreases s.len() - from,
{
    if !(from < 0 || from >= s.len()) && is_space_char(s[from]) {
        lemma_next_nonspace(s, from + 1);
    }
}

pub proof fn lemma_next_newline(s: Seq<char>, from: int)
    ensures
        next_newline(s, from) matches Some(j) ==> from <= j < s.len() && s[j] == '\n',
    decreases s.len() - from,
{
    if !(from < 0 || from >= s.len()) && s[from] != '\n' {
        lemma_next_newline(s, from + 1);
    }
}

#[via_fn]
proof fn line_starts_decreases(s: Seq<char>, from: int) {
    lemma_next_nonspace(s, from);
    match next_nonspace(s, from) {
        Some(j) => lemma_next_newline(s, j),
        None => {},
    }
}

/// The start positions of the non-blank lines of `s` at or after `from`:
/// each is the first non-whitespace character after the previous line's
/// newline.
pub open spec fn line_starts_of(s: Seq<char>, from: int) -> Seq<int>
    decreases s.len() - from,
    via line_starts_decreases
{
    match next_nonspace(s, from) {
        None => Seq::empty(),
        Some(j) => match next_newline(s, j) {
            None => seq![j],
            Some(k) => seq![j] + line_starts_of(s, k + 1),
        },
    }
}

/// Where the line beginning at `start` ends: at its newline, or at the end
/// of the text.
pub open spec fn line_end_of(s: Seq<char>, start: int) -> int {
    match next_newline(s, start) {
        Some(k) => k,
        None => s.len() as int,
    }
}

/// Every line start is in bounds, non-whitespace, and the starts increase.
pub proof fn lemma_line_starts(s: Seq<char>, from: int)
    ensures
        forall|m: int|
            0 <= m < line_starts_of(s, from).len() ==> from <= #[trigger] line_starts_of(
                s,
                from,
            )[m] < s.len() && !is_space_char(s[line_starts_of(s, from)[m]]),
        forall|m1: int, m2: int|
            0 <= m1 < m2 < line_starts_of(s, from).len() ==> #[trigger] line_starts_of(s, from)[m1]
                < #[trigger] line_starts_of(s, from)[m2],
    decreases s.len() - from,
{
    lemma_next_nonspace(s, from);
    let starts = line_starts_of(s, from);
    match next_nonspace(s, from) {
        Some(j) => {
            lemma_next_newline(s, j);
            match next_newline(s, j) {
                Some(k) => {
                    lemma_line_starts(s, k + 1);
                    let rest = line_starts_of(s, k + 1);
                    assert(starts == seq![j] + rest);
                    assert forall|m: int| 0 <= m < starts.len() implies from <= #[trigger] starts[m]
                        < s.len() && !is_space_char(s[starts[m]]) by {
                        if m > 0 {
                            assert(starts[m] == rest[m - 1]);
                        }
                    }
                    assert forall|m1: int, m2: int| 0 <= m1 < m2 < starts.len() implies #[trigger] starts[m1]
                        < #[trigger] starts[m2] by {
                        assert(starts[m2] == rest[m2 - 1]);
                        if m1 > 0 {
                            assert(starts[m1] == rest[m1 - 1]);
                        }
                    }
                },
                None => {},
            }
        },
        None => {},
    }
}

/// Line ends never exceed the text length.
pub proof fn lemma_line_end_bound(s: Seq<char>, a: int)
    ensures
        line_end_of(s, a) <= s.len(),
        a <= line_end_of(s, a) || line_end_of(s, a) == s.len(),
{
    lemma_next_newline(s, a);
}

/// Line ends are ordered as their starts are.
pub proof fn lemma_line_end_monotone(s: Seq<char>, a: int, b: int)
    requires
        0 <= a <= b,
    ensures
        line_end_of(s, a) <= line_end_of(s, b),
    decreases b - a,
{
    lemma_line_end_bound(s, a);
    lemma_line_end_bound(s, b);
    lemma_next_newline(s, a);
    lemma_next_newline(s, b);
    if a < b {
        if a < s.len() && s[a] != '\n' {
            assert(next_newline(s, a) == next_newline(s, a + 1));
            lemma_line_end_monotone(s, a + 1, b);
        }
    }
}

/// Scans for the first non-whitespace character at or after `from`.
fn scan_nonspace(s: &str, from: usize) -> (r: Option<usize>)
    ensures
        r matches Some(j) ==> next_nonspace(s@, from as int) == Some(j as int),
        r is None ==> next_nonspace(s@, from as int) is None,
{
    let n = s.unicode_len();
    let mut i = from;
    while i < n
        invariant
            n == s@.len(),
            from <= i,
            next_nonspace(s@, from as int) == next_nonspace(s@, i as int),
        decreases n - i,
    {
        if !is_whitespace_char(s.get_char(i)) {
            return Some(i);
        }
        i = i + 1;
    }
    None
}

/// Scans for the first newline at or after `from`.
pub fn scan_newline(s: &str, from: usize) -> (r: Option<usize>)
    ensures
        r matches Some(j) ==> next_newline(s@, from as int) == Some(j as int),
        r is None ==> next_newline(s@, from as int) is None,
{
    let n = s.unicode_len();
    let mut i = from;
    while i < n
        invariant
            n == s@.len(),
            from <= i,
            next_newline(s@, from as int) == next_newline(s@, i as int),
        decreases n - i,
    {
        if s.get_char(i) == '\n' {
            return Some(i);
        }
        i = i + 1;
    }
    None
}

/// Settings of the quotation style (kept for configuration compatibility).
#[derive(Clone, Copy, Debug)]
pub struct QuoteSettings {
    pub words_in_cloze: i32,
    pub words_before_after: i32,
}

/// Context width for the line-based cloze style.
#[derive(Clone, Copy, Debug)]
pub struct LineSettings {
    pub lines_before_after: i32,
}

/// Which cloze delimiters an iterator scans for.
#[derive(Clone, Copy, Debug)]
pub enum ClozeType {
    TripleBrace,
    TripleParen,
    Lines(LineSettings),
}

/// A lazy, restartable scanner over the cloze spans of one text.
pub struct ClozeIterator {
    pub curr: usize,
    pub input: String,
    pub cloze_type: ClozeType,
    pub quote_words: Vec<usize>,
    pub quote_word_index: Option<usize>,
}

/// One extracted span: the text before the hidden part, the hidden part,
/// the text after it, and the span's character offsets in the input.
pub struct ClozeItem {
    pub cloze_start: usize,
    pub cloze_end: usize,
    pub before: String,
    pub clozed: String,
    pub after: String,
}

pub open spec fn brace_open() -> Seq<char> {
    seq!['{', '{', '{']
}

pub open spec fn brace_close() -> Seq<char> {
    seq!['}', '}', '}']
}

pub open spec fn paren_open() -> Seq<char> {
    seq!['(', '(', '(']
}

pub open spec fn paren_close() -> Seq<char> {
    seq![')', ')', ')']
}

/// The next delimited span at or after `cur`: the opening delimiter's
/// position and the closing delimiter's position (searched from the
/// opening position on).
pub open spec fn cloze_span(s: Seq<char>, cur: int, open: Seq<char>, close: Seq<char>) -> Option<
    (int, int),
> {
    match find_pos(s, open, cur) {
        Some(start) => match find_pos(s, close, start) {
            Some(cp) => Some((start, cp)),
            None => None,
        },
        None => None,
    }
}

/// Whether the close of the span ending at `end` is escaped: the character
/// four places before the end is a backslash. The escape character is then
/// dropped and the delimiter character before it kept in the hidden text.
pub open spec fn span_escaped(s: Seq<char>, end: int) -> bool {
    end >= 4 && s[end - 4] == '\\'
}

/// What the hidden text of a span `(start, cp)` is.
pub open spec fn clozed_of(s: Seq<char>, start: int, cp: int) -> Seq<char> {
    let end = cp + 3;
    if span_escaped(s, end) {
        s.subrange(start + 3, end - 4)
    } else {
        s.subrange(start + 3, end - 3)
    }
}

impl ClozeIterator {
    /// A scanner at the start of `input`.
    pub fn new(cloze_type: ClozeType, input: String) -> (r: ClozeIterator)
        ensures
            r.curr == 0,
            r.input@ == input@,
            r.cloze_type == cloze_type,
            r.quote_word_index is None,
    {
        ClozeIterator {
            curr: 0,
            input,
            cloze_type,
            quote_words: Vec::new(),
            quote_word_index: None,
        }
    }

    /// Scans for the next span between `open` and `close`, both three
    /// characters long and sharing no character, advancing the cursor past
    /// the span.
    fn next_delimited(&mut self, open: &str, close: &str) -> (r: Option<ClozeItem>)
        requires
            open@.len() == 3,
            close@.len() == 3,
            forall|k1: int, k2: int| 0 <= k1 < 3 && 0 <= k2 < 3 ==> open@[k1] != close@[k2],
            forall|k: int| 0 <= k < 3 ==> open@[k] != '\\',
        ensures
            *final(self) == (ClozeIterator {
                curr: final(self).curr,
                ..*old(self)
            }),
            r is Some <==> cloze_span(old(self).input@, old(self).curr as int, open@, close@)
                is Some,
            r is None ==> final(self).curr == old(self).curr,
            r matches Some(item) ==> {
                let (start, cp) = cloze_span(
                    old(self).input@,
                    old(self).curr as int,
                    open@,
                    close@,
                )->Some_0;
                let s = old(self).input@;
                &&& item.cloze_start == start
                &&& item.cloze_end == cp + 3
                &&& item.before@ == s.take(start)
                &&& item.clozed@ == clozed_of(s, start, cp)
                &&& item.after@ == s.skip(cp + 3)
                &&& final(self).curr == cp + 3
            },
    {
        let ghost s = self.input@;
        let ghost cur0 = self.curr as int;
        let start = match find_from(self.input.as_str(), open, self.curr) {
            Some(p) => p,
            None => {
                proof {
                    lemma_find_pos_none(s, open@, cur0);
                }
                return None;
            },
        };
        proof {
            lemma_find_pos_some(s, open@, cur0, start as int);
        }
        let cp = match find_from(self.input.as_str(), close, start) {
            Some(p) => p,
            None => {
                proof {
                    lemma_find_pos_none(s, close@, start as int);
                }
                return None;
            },
        };
        let n = self.input.as_str().unicode_len();
        proof {
            lemma_find_pos_some(s, close@, start as int, cp as int);
            // The closing match cannot overlap the opening one: the two
            // delimiters share no character.
            assert forall|k: int| 0 <= k < 3 implies s[start + k] == open@[k] by {
                assert(s.subrange(start as int, start + 3)[k] == s[start + k]);
            }
            assert(s.subrange(cp as int, cp + 3)[0] == s[cp as int]);
            assert(s[cp as int] == close@[0]);
            if cp < start + 3 {
                assert(s[cp as int] == open@[cp - start]);
                assert(false);
            }
        }
        let end = cp + 3;
        proof {
            // An escaped close leaves at least one character of hidden
            // text: the escape cannot sit inside the opening delimiter.
            if end >= 4 && s[end - 4] == '\\' {
                assert(cp >= start + 3);
                if cp == start + 3 {
                    assert(s[start + 2] == open@[2]);
                    assert(false);
                }
            }
        }
        let escaped = if end >= 4 {
            self.input.as_str().get_char(end - 4) == '\\'
        } else {
            false
        };
        let before = self.input.as_str().substring_char(0, start).to_owned();
        let clozed = if escaped {
            self.input.as_str().substring_char(start + 3, end - 4).to_owned()
        } else {
            self.input.as_str().substring_char(start + 3, end - 3).to_owned()
        };
        let after = self.input.as_str().substring_char(end, n).to_owned();
        self.curr = end;
        proof {
            assert(s.skip(end as int) =~= s.subrange(end as int, s.len() as int));
            assert(s.take(start as int) =~= s.subrange(0, start as int));
        }
        Some(
            ClozeItem {
                cloze_start: start,
                cloze_end: end,
                before,
                clozed,
                after,
            },
        )
    }

    /// The next triple-brace span; the text after the span is kept.
    pub fn next_brace(&mut self) -> (r: Option<ClozeItem>)
        ensures
            *final(self) == (ClozeIterator {
                curr: final(self).curr,
                ..*old(self)
            }),
            r is Some <==> cloze_span(
                old(self).input@,
                old(self).curr as int,
                brace_open(),
                brace_close(),
            ) is Some,
            r is None ==> final(self).curr == old(self).curr,
            r matches Some(item) ==> {
                let (start, cp) = cloze_span(
                    old(self).input@,
                    old(self).curr as int,
                    brace_open(),
                    brace_close(),
                )->Some_0;
                let s = old(self).input@;
                &&& item.cloze_start == start
                &&& item.cloze_end == cp + 3
                &&& item.before@ == s.take(start)
                &&& item.clozed@ == clozed_of(s, start, cp)
                &&& item.after@ == s.skip(cp + 3)
                &&& final(self).curr == cp + 3
            },
    {
        proof {
            reveal_strlit("{{{");
            reveal_strlit("}}}");
            assert("{{{"@ =~= brace_open());
            assert("}}}"@ =~= brace_close());
        }
        self.next_delimited("{{{", "}}}")
    }

    /// The next triple-paren span; the text after the span is kept.
    pub fn next_paren(&mut self) -> (r: Option<ClozeItem>)
        ensures
            *final(self) == (ClozeIterator {
                curr: final(self).curr,
                ..*old(self)
            }),
            r is Some <==> cloze_span(
                old(self).input@,
                old(self).curr as int,
                paren_open(),
                paren_close(),
            ) is Some,
            r is None ==> final(self).curr == old(self).curr,
            r matches Some(item) ==> {
                let (start, cp) = cloze_span(
                    old(self).input@,
                    old(self).curr as int,
                    paren_open(),
                    paren_close(),
                )->Some_0;
                let s = old(self).input@;
                &&& item.cloze_start == start
                &&& item.cloze_end == cp + 3
                &&& item.before@ == s.take(start)
                &&& item.clozed@ == clozed_of(s, start, cp)
                &&& item.after@ == s.skip(cp + 3)
                &&& final(self).curr == cp + 3
            },
    {
        proof {
            reveal_strlit("(((");
            reveal_strlit(")))");
            assert("((("@ =~= paren_open());
            assert(")))"@ =~= paren_close());
        }
        self.next_delimited("(((", ")))")
    }
}

impl ClozeIterator {
    /// The scanner's bookkeeping is sound: once the line table exists it
    /// holds exactly the line starts of the input.
    pub open spec fn wf(&self) -> bool {
        self.quote_word_index is Some ==> self.quote_words@.map_values(|u: usize| u as int)
            == line_starts_of(self.input@, 0)
    }

    /// Builds the table of line start positions.
    fn build_line_vec(&mut self)
        ensures
            final(self).quote_words@.map_values(|u: usize| u as int) == line_starts_of(
                old(self).input@,
                0,
            ),
            final(self).quote_word_index == Some(0usize),
            final(self).input == old(self).input,
            final(self).cloze_type == old(self).cloze_type,
            final(self).curr == old(self).curr,
    {

        let ghost s = self.input@;
        let ghost inp0 = self.input;
        let ghost ct = self.cloze_type;
        let ghost cur0 = self.curr;
        let n = self.input.as_str().unicode_len();
        self.quote_words = Vec::new();
        let mut i: usize = 0;
        proof {
            assert(self.quote_words@.map_values(|u: usize| u as int) + line_starts_of(s, 0)
                =~= line_starts_of(s, 0));
        }
        loop
            invariant_except_break
                inp0 == self.input,
                s == self.input@,
                n == s.len(),
                ct == self.cloze_type,
                cur0 == self.curr,
                0 <= i,
                line_starts_of(s, 0) == self.quote_words@.map_values(|u: usize| u as int)
                    + line_starts_of(s, i as int),
            ensures
                inp0 == self.input,
                s == self.input@,
                ct == self.cloze_type,
                cur0 == self.curr,
                self.quote_words@.map_values(|u: usize| u as int) == line_starts_of(s, 0),
            decreases s.len() - i,
        {
            let ghost done = self.quote_words@.map_values(|u: usize| u as int);
            match scan_nonspace(self.input.as_str(), i) {
                None => {
                    proof {
                        assert(line_starts_of(s, i as int) =~= Seq::<int>::empty());
                        assert(done + line_starts_of(s, i as int) =~= done);
                    }
                    break ;
                },
                Some(j) => {
                    proof {
                        lemma_next_nonspace(s, i as int);
                    }
                    self.quote_words.push(j);
                    proof {
                        assert(self.quote_words@.map_values(|u: usize| u as int) =~= done.push(
                            j as int,
                        ));
                    }
                    match scan_newline(self.input.as_str(), j) {
                        None => {
                            proof {
                                assert(line_starts_of(s, i as int) =~= seq![j as int]);
                                assert(done.push(j as int) =~= done + line_starts_of(s, i as int));
                            }
                            break ;
                        },
                        Some(k) => {
                            proof {
                                lemma_next_newline(s, j as int);
                                assert(line_starts_of(s, i as int) == seq![j as int]
                                    + line_starts_of(s, k + 1));
                                assert(done.push(j as int) + line_starts_of(s, k + 1) =~= done + (
                                seq![j as int] + line_starts_of(s, k + 1)));
                            }
                            i = k + 1;
                        },
                    }
                },
            }
        }
        self.quote_word_index = Some(0);
    }

    /// Where the line starting at table entry `index` (clamped to the last
    /// entry) ends.
    fn get_line_ending(&self, index: usize) -> (r: usize)
        requires
            self.quote_words@.len() > 0,
        ensures
            ({
                let starts = self.quote_words@.map_values(|u: usize| u as int);
                let idx = if index < self.quote_words@.len() {
                    index as int
                } else {
                    self.quote_words@.len() - 1
                };
                r as int == line_end_of(self.input@, starts[idx])
            }),
    {
        let idx = if index >= self.quote_words.len() {
            self.quote_words.len() - 1
        } else {
            index
        };
        let start = self.quote_words[idx];
        match scan_newline(self.input.as_str(), start) {
            Some(k) => k,
            None => {
                let n = self.input.as_str().unicode_len();
                n
            },
        }
    }

    /// The next line-based span: one line hidden, `lines_before_after`
    /// lines of context kept on each side, clamped at the text boundaries.
    pub fn next_line(&mut self, settings: LineSettings) -> (r: Option<ClozeItem>)
        requires
            old(self).wf(),
            settings.lines_before_after >= 0,
        ensures
            final(self).wf(),
            final(self).input == old(self).input,
            final(self).cloze_type == old(self).cloze_type,
            final(self).curr == old(self).curr,
            final(self).quote_words@.map_values(|u: usize| u as int) == line_starts_of(
                old(self).input@,
                0,
            ),
            ({
                let s = old(self).input@;
                let starts = line_starts_of(s, 0);
                let idx = match old(self).quote_word_index {
                    None => 0int,
                    Some(v) => v as int,
                };
                let k = settings.lines_before_after as int;
                &&& (r is None <==> idx >= starts.len())
                &&& r is None ==> final(self).quote_word_index == Some(idx as usize)
                &&& r matches Some(item) ==> {
                    let bidx = if idx >= k {
                        idx - k
                    } else {
                        0int
                    };
                    let aidx = if idx + k < starts.len() {
                        idx + k
                    } else {
                        starts.len() - 1
                    };
                    let cs = starts[idx];
                    let ce = line_end_of(s, cs);
                    let ae = line_end_of(s, starts[aidx]);
                    &&& item.cloze_start == cs
                    &&& item.cloze_end == ae
                    &&& item.before@ == s.subrange(starts[bidx], cs)
                    &&& item.clozed@ == s.subrange(cs, ce)
                    &&& item.after@ == s.subrange(ce, ae)
                    &&& final(self).quote_word_index == Some((idx + 1) as usize)
                }
            }),
    {
        let ghost s = self.input@;
        if self.quote_word_index.is_none() {
            self.build_line_vec();
        }
        let index = self.quote_word_index.unwrap();
        let qlen = self.quote_words.len();
        if index >= qlen {
            return None;
        }
        proof {
            lemma_line_starts(s, 0);
        }
        let kk = settings.lines_before_after as usize;
        let bidx = if index >= kk {
            index - kk
        } else {
            0
        };
        let room = qlen - 1 - index;
        let aidx = if room < kk {
            qlen - 1
        } else {
            index + kk
        };
        let before_start = self.quote_words[bidx];
        let cloze_start = self.quote_words[index];
        let cloze_end = self.get_line_ending(index);
        let after_end = self.get_line_ending(aidx);
        proof {
            let starts = line_starts_of(s, 0);
            lemma_line_end_bound(s, starts[index as int]);
            lemma_line_end_bound(s, starts[aidx as int]);
            if bidx < index {
                assert(starts[bidx as int] < starts[index as int]);
            }
            lemma_next_newline(s, starts[index as int]);
            lemma_line_end_monotone(s, starts[index as int], starts[aidx as int]);
        }
        let before = self.input.as_str().substring_char(before_start, cloze_start).to_owned();
        let clozed = self.input.as_str().substring_char(cloze_start, cloze_end).to_owned();
        let after = self.input.as_str().substring_char(cloze_end, after_end).to_owned();
        self.quote_word_index = Some(index + 1);
        Some(
            ClozeItem {
                cloze_start,
                cloze_end: after_end,
                before,
                clozed,
                after,
            },
        )
    }

    /// The next span in the scanner's own style.
    pub fn next(&mut self) -> (r: Option<ClozeItem>)
        requires
            old(self).wf(),
            old(self).cloze_type matches ClozeType::Lines(st) ==> st.lines_before_after >= 0,
        ensures
            final(self).wf(),
            final(self).input == old(self).input,
            final(self).cloze_type == old(self).cloze_type,
            old(self).cloze_type is TripleBrace ==> brace_step_holds(*old(self), *final(self), r),
            old(self).cloze_type is TripleParen ==> paren_step_holds(*old(self), *final(self), r),
            old(self).cloze_type matches ClozeType::Lines(st) ==> line_step_holds(
                *old(self),
                *final(self),
                r,
                st,
            ),
    {
        match self.cloze_type {
            ClozeType::TripleBrace => self.next_brace(),
            ClozeType::TripleParen => self.next_paren(),
            ClozeType::Lines(settings) => self.next_line(settings),
        }
    }
}

/// What one step of the triple-brace scanner does.
pub open spec fn brace_step_holds(
    pre: ClozeIterator,
    post: ClozeIterator,
    r: Option<ClozeItem>,
) -> bool {
    &&& post.quote_words == pre.quote_words
    &&& post.quote_word_index == pre.quote_word_index
    &&& (r is Some <==> cloze_span(pre.input@, pre.curr as int, brace_open(), brace_close())
        is Some)
    &&& (r is None ==> post.curr == pre.curr)
    &&& (r matches Some(item) ==> {
        let (start, cp) = cloze_span(
            pre.input@,
            pre.curr as int,
            brace_open(),
            brace_close(),
        )->Some_0;
        let s = pre.input@;
        &&& item.cloze_start == start
        &&& item.cloze_end == cp + 3
        &&& item.before@ == s.take(start)
        &&& item.clozed@ == clozed_of(s, start, cp)
        &&& item.after@ == s.skip(cp + 3)
        &&& post.curr == cp + 3
    })
}

/// What one step of the triple-paren scanner does.
pub open spec fn paren_step_holds(
    pre: ClozeIterator,
    post: ClozeIterator,
    r: Option<ClozeItem>,
) -> bool {
    &&& post.quote_words == pre.quote_words
    &&& post.quote_word_index == pre.quote_word_index
    &&& (r is Some <==> cloze_span(pre.input@, pre.curr as int, paren_open(), paren_close())
        is Some)
    &&& (r is None ==> post.curr == pre.curr)
    &&& (r matches Some(item) ==> {
        let (start, cp) = cloze_span(
            pre.input@,
            pre.curr as int,
            paren_open(),
            paren_close(),
        )->Some_0;
        let s = pre.input@;
        &&& item.cloze_start == start
        &&& item.cloze_end == cp + 3
        &&& item.before@ == s.take(start)
        &&& item.clozed@ == clozed_of(s, start, cp)
        &&& item.after@ == s.skip(cp + 3)
        &&& post.curr == cp + 3
    })
}

/// What one step of the line-based scanner does.
pub open spec fn line_step_holds(
    pre: ClozeIterator,
    post: ClozeIterator,
    r: Option<ClozeItem>,
    settings: LineSettings,
) -> bool {
    let s = pre.input@;
    let starts = line_starts_of(s, 0);
    let idx = match pre.quote_word_index {
        None => 0int,
        Some(v) => v as int,
    };
    let k = settings.lines_before_after as int;
    &&& post.curr == pre.curr
    &&& post.quote_words@.map_values(|u: usize| u as int) == starts
    &&& (r is None <==> idx >= starts.len())
    &&& (r is None ==> post.quote_word_index == Some(idx as usize))
    &&& (r matches Some(item) ==> {
        let bidx = if idx >= k {
            idx - k
        } else {
            0int
        };
        let aidx = if idx + k < starts.len() {
            idx + k
        } else {
            starts.len() - 1
        };
        let cs = starts[idx];
        let ce = line_end_of(s, cs);
        let ae = line_end_of(s, starts[aidx]);
        &&& item.cloze_start == cs
        &&& item.cloze_end == ae
        &&& item.before@ == s.subrange(starts[bidx], cs)
        &&& item.clozed@ == s.subrange(cs, ce)
        &&& item.after@ == s.subrange(ce, ae)
        &&& post.quote_word_index == Some((idx + 1) as usize)
    })
}


/// Index of the first non-whitespace character, or the length when all of
/// `s` is whitespace.
pub open spec fn trim_start_of(s: Seq<char>) -> int {
    match next_nonspace(s, 0) {
        Some(j) => j,
        None => s.len() as int,
    }
}

/// One past the last non-whitespace character, or zero when all of `s` is
/// whitespace.
pub open spec fn trim_end_of(s: Seq<char>) -> int
    decreases s.len(),
{
    if s.len() == 0 {
        0
    } else if !is_space_char(s.last()) {
        s.len() as int
    } else {
        trim_end_of(s.drop_last())
    }
}

/// `s` with leading and trailing whitespace removed.
pub open spec fn trim_of(s: Seq<char>) -> Seq<char> {
    if next_nonspace(s, 0) is Some {
        s.subrange(trim_start_of(s), trim_end_of(s))
    } else {
        Seq::empty()
    }
}

/// Behind any non-whitespace character the trimmed end lies strictly.
proof fn lemma_trim_end_after(s: Seq<char>, j: int)
    requires
        0 <= j < s.len(),
        !is_space_char(s[j]),
    ensures
        j < trim_end_of(s) <= s.len(),
    decreases s.len(),
{
    if s.len() > 0 && is_space_char(s.last()) {
        assert(j < s.len() - 1);
        lemma_trim_end_after(s.drop_last(), j);
    }
}

/// Removes leading and trailing whitespace, as `str::trim` does.
pub fn trim_str(s: &str) -> (r: String)
    ensures
        r@ == trim_of(s@),
{
    let a = match scan_nonspace(s, 0) {
        Some(a) => a,
        None => {
            return String::new();
        },
    };
    proof {
        lemma_next_nonspace(s@, 0);
        lemma_trim_end_after(s@, a as int);
    }
    let n = s.unicode_len();
    let mut j = n;
    proof {
        assert(s@.take(n as int) =~= s@);
    }
    while j > a && is_whitespace_char(s.get_char(j - 1))
        invariant
            n == s@.len(),
            a < n,
            !is_space_char(s@[a as int]),
            a as int + 1 <= trim_end_of(s@),
            a < j <= n,
            trim_end_of(s@) == trim_end_of(s@.take(j as int)),
        decreases j,
    {
        proof {
            assert(s@.take(j as int).last() == s@[j - 1]);
            assert(s@.take(j as int).drop_last() =~= s@.take(j - 1));
            lemma_trim_end_after(s@.take(j as int), a as int);
        }
        j = j - 1;
    }
    proof {
        assert(s@.take(j as int).last() == s@[j - 1]);
        if j > a {
            assert(trim_end_of(s@.take(j as int)) == j as int);
        }
    }
    s.substring_char(a, j).to_owned()
}

/// One heading line of the source text: its title and its level.
pub struct Heading {
    pub title: String,
    pub level: u32,
}

/// The first position at or after `from` holding a whitespace character
/// other than `#`.
pub open spec fn heading_split(s: Seq<char>, from: int) -> Option<int>
    decreases s.len() - from,
{
    if from < 0 || from >= s.len() {
        None
    } else if s[from] != '#' && is_space_char(s[from]) {
        Some(from)
    } else {
        heading_split(s, from + 1)
    }
}

/// What a heading line yields: the trimmed title after the first
/// non-`#` whitespace, and that position as the level. Lines not starting
/// with `#`, without such a split, or with an empty title are no headings.
pub open spec fn heading_of(line: Seq<char>) -> Option<(Seq<char>, int)> {
    if line.len() == 0 || line[0] != '#' {
        None
    } else {
        match heading_split(line, 0) {
            None => None,
            Some(i) => {
                let title = trim_of(line.skip(i));
                if title.len() == 0 {
                    None
                } else {
                    Some((title, i))
                }
            },
        }
    }
}

/// Recognizes a markdown heading line.
pub fn check_markdown_heading(line: &str) -> (r: Option<Heading>)
    ensures
        r is Some <==> heading_of(line@) is Some,
        r matches Some(h) ==> {
            let (title, level) = heading_of(line@)->Some_0;
            h.title@ == title && h.level as int == (if level <= u32::MAX {
                level
            } else {
                u32::MAX as int
            })
        },
{
    let n = line.unicode_len();
    if n == 0 {
        return None;
    }
    if line.get_char(0) != '#' {
        return None;
    }
    let mut i: usize = 0;
    loop
        invariant
            n == line@.len(),
            0 < n,
            line@[0] == '#',
            0 <= i <= n,
            heading_split(line@, 0) == heading_split(line@, i as int),
        decreases n - i,
    {
        if i >= n {
            return None;
        }
        let c = line.get_char(i);
        if c != '#' && is_whitespace_char(c) {
            let title = trim_str(line.substring_char(i, n));
            proof {
                assert(line@.subrange(i as int, n as int) =~= line@.skip(i as int));
            }
            if title.as_str().unicode_len() == 0 {
                return None;
            }
            let level: u32 = if i <= 0xFFFF_FFFF {
                i as u32
            } else {
                0xFFFF_FFFF
            };
            proof {
                assert(heading_of(line@) matches Some(p) && p.1 == i as int);
            }
            return Some(Heading { title, level });
        }
        i = i + 1;
    }
}

/// The location prefix built from a stack of headings: the titles joined
/// with ` > `, an empty accumulator taking the first title as it is.
pub open spec fn prefix_fold(acc: Seq<char>, titles: Seq<Seq<char>>) -> Seq<char>
    decreases titles.len(),
{
    if titles.len() == 0 {
        acc
    } else {
        prefix_fold(
            if acc.len() == 0 {
                titles[0]
            } else {
                acc + seq![' ', '>', ' '] + titles[0]
            },
            titles.skip(1),
        )
    }
}

/// The prefix named by a heading stack.
pub open spec fn prefix_of(hs: Seq<Heading>) -> Seq<char> {
    prefix_fold(Seq::empty(), hs.map_values(|h: Heading| h.title@))
}

/// Joins the headings into a location prefix.
pub fn create_prefix(headings: &Vec<Heading>) -> (r: String)
    ensures
        r@ == prefix_of(headings@),
{
    proof {
        reveal_strlit(" > ");
    }
    let ghost titles = headings@.map_values(|h: Heading| h.title@);
    let mut acc = String::new();
    let mut i: usize = 0;
    proof {
        assert(titles.skip(0) =~= titles);
    }
    while i < headings.len()
        invariant
            titles == headings@.map_values(|h: Heading| h.title@),
            0 <= i <= headings@.len(),
            prefix_of(headings@) == prefix_fold(acc@, titles.skip(i as int)),
            " > "@ == seq![' ', '>', ' '],
        decreases headings@.len() - i,
    {
        let ghost rem = titles.skip(i as int);
        if acc.as_str().unicode_len() == 0 {
            acc = headings[i].title.clone();
            proof {
                assert(rem[0] == titles[i as int]);
            }
        } else {
            acc.append(" > ");
            acc.append(headings[i].title.as_str());
            proof {
                assert(rem[0] == titles[i as int]);
            }
        }
        i = i + 1;
        proof {
            assert(rem.skip(1) =~= titles.skip(i as int));
        }
    }
    proof {
        assert(titles.skip(i as int) =~= Seq::<Seq<char>>::empty());
    }
    acc
}


/// Removes trailing whitespace only, as `str::trim_end` does.
pub fn trim_end_str(s: &str) -> (r: String)
    ensures
        r@ == s@.take(trim_end_of(s@)),
{
    let n = s.unicode_len();
    let mut j = n;
    proof {
        assert(s@.take(n as int) =~= s@);
    }
    while j > 0 && is_whitespace_char(s.get_char(j - 1))
        invariant
            n == s@.len(),
            0 <= j <= n,
            trim_end_of(s@) == trim_end_of(s@.take(j as int)),
        decreases j,
    {
        proof {
            assert(s@.take(j as int).last() == s@[j - 1]);
            assert(s@.take(j as int).drop_last() =~= s@.take(j - 1));
        }
        j = j - 1;
    }
    proof {
        if j > 0 {
            assert(s@.take(j as int).last() == s@[j - 1]);
            assert(trim_end_of(s@.take(j as int)) == j as int);
        }
        assert(s@.subrange(0, trim_end_of(s@)) =~= s@.take(trim_end_of(s@)));
    }
    s.substring_char(0, j).to_owned()
}


pub proof fn lemma_find_pos_props(s: Seq<char>, pat: Seq<char>, from: int)
    ensures
        find_pos(s, pat, from) matches Some(i) ==> from <= i && match_at(s, pat, i),
    decreases s.len() - from,
{
    if !(from < 0 || from + pat.len() > s.len()) && !match_at(s, pat, from) {
        if pat.len() == 0 {
            assert(s.subrange(from, from + pat.len() as int) =~= pat);
            assert(false);
        }
        lemma_find_pos_props(s, pat, from + 1);
    }
}

#[via_fn]
proof fn spans_decreases(s: Seq<char>, cur: int, open: Seq<char>, close: Seq<char>) {
    lemma_find_pos_props(s, open, cur);
    match find_pos(s, open, cur) {
        Some(st) => lemma_find_pos_props(s, close, st),
        None => {},
    }
}

/// All delimited spans of `s` at or after `cur`, in scan order.
pub open spec fn spans_of(s: Seq<char>, cur: int, open: Seq<char>, close: Seq<char>) -> Seq<
    (int, int),
>
    decreases s.len() - cur,
    via spans_decreases
{
    if open.len() != 3 || close.len() != 3 {
        Seq::empty()
    } else {
        match cloze_span(s, cur, open, close) {
            None => Seq::empty(),
            Some((st, cp)) => seq![(st, cp)] + spans_of(s, cp + 3, open, close),
        }
    }
}

/// Every span is in bounds and the spans advance.
pub proof fn lemma_spans_props(s: Seq<char>, cur: int, open: Seq<char>, close: Seq<char>)
    requires
        open.len() == 3,
        close.len() == 3,
    ensures
        forall|m: int|
            0 <= m < spans_of(s, cur, open, close).len() ==> {
                let (st, cp) = #[trigger] spans_of(s, cur, open, close)[m];
                cur <= st <= cp && cp + 3 <= s.len()
            },
    decreases s.len() - cur,
{
    lemma_find_pos_props(s, open, cur);
    match find_pos(s, open, cur) {
        Some(st) => {
            lemma_find_pos_props(s, close, st);
            match find_pos(s, close, st) {
                Some(cp) => {
                    lemma_spans_props(s, cp + 3, open, close);
                    let all = spans_of(s, cur, open, close);
                    let rest = spans_of(s, cp + 3, open, close);
                    assert forall|m: int| 0 <= m < all.len() implies {
                        let (a, b) = #[trigger] all[m];
                        cur <= a <= b && b + 3 <= s.len()
                    } by {
                        if m > 0 {
                            assert(all[m] == rest[m - 1]);
                        }
                    }
                },
                None => {},
            }
        },
        None => {},
    }
}

#[via_fn]
proof fn replace_from_decreases(s: Seq<char>, cur: int, open: Seq<char>, close: Seq<char>) {
    lemma_find_pos_props(s, open, cur);
    match find_pos(s, open, cur) {
        Some(st) => lemma_find_pos_props(s, close, st),
        None => {},
    }
}

/// The text with every delimited span replaced by its hidden content, from
/// `cur` on.
pub open spec fn replace_from(s: Seq<char>, cur: int, open: Seq<char>, close: Seq<char>) -> Seq<
    char,
>
    decreases s.len() - cur,
    via replace_from_decreases
{
    if open.len() != 3 || close.len() != 3 {
        s.skip(cur)
    } else {
        match cloze_span(s, cur, open, close) {
            None => s.skip(cur),
            Some((st, cp)) => s.subrange(cur, st) + clozed_of(s, st, cp) + replace_from(
                s,
                cp + 3,
                open,
                close,
            ),
        }
    }
}


/// There are no more spans than characters after `cur`.
pub proof fn lemma_spans_len(s: Seq<char>, cur: int, open: Seq<char>, close: Seq<char>)
    requires
        open.len() == 3,
        close.len() == 3,
    ensures
        spans_of(s, cur, open, close).len() <= s.len() - cur || spans_of(
            s,
            cur,
            open,
            close,
        ).len() == 0,
    decreases s.len() - cur,
{
    lemma_find_pos_props(s, open, cur);
    match find_pos(s, open, cur) {
        Some(st) => {
            lemma_find_pos_props(s, close, st);
            match find_pos(s, close, st) {
                Some(cp) => {
                    lemma_spans_len(s, cp + 3, open, close);
                },
                None => {},
            }
        },
        None => {},
    }
}

/// There are no more line starts than characters.
pub proof fn lemma_line_starts_len(s: Seq<char>, from: int)
    ensures
        line_starts_of(s, from).len() <= s.len() - from || line_starts_of(s, from).len() == 0,
    decreases s.len() - from,
{
    lemma_next_nonspace(s, from);
    match next_nonspace(s, from) {
        Some(j) => {
            lemma_next_newline(s, j);
            match next_newline(s, j) {
                Some(kk) => {
                    lemma_line_starts_len(s, kk + 1);
                },
                None => {},
            }
        },
        None => {},
    }
}

/// The parser's running state: the heading stack (title and level), the
/// multi-line block state (`0` outside, `1` in a front, `2` in a back),
/// the block texts gathered so far, and the cards produced, each as
/// (prefix, front, back).
pub struct ParseModel {
    pub headings: Seq<(Seq<char>, int)>,
    pub block: int,
    pub mfront: Seq<char>,
    pub mback: Seq<char>,
    pub cards: Seq<(Seq<char>, Seq<char>, Seq<char>)>,
}

/// Where a new heading enters the stack: before the first kept entry (at
/// or after position one) whose level is not below it.
pub open spec fn heading_slot(hs: Seq<(Seq<char>, int)>, lvl: int, i: int) -> int
    decreases hs.len() - i,
{
    if i >= hs.len() {
        hs.len() as int
    } else if i < 1 {
        heading_slot(hs, lvl, if 1 <= hs.len() { 1int } else { hs.len() as int })
    } else if hs[i].1 < lvl {
        heading_slot(hs, lvl, i + 1)
    } else {
        i
    }
}

/// The location prefix the heading stack names.
pub open spec fn stack_prefix(hs: Seq<(Seq<char>, int)>) -> Seq<char> {
    prefix_fold(Seq::empty(), hs.map_values(|h: (Seq<char>, int)| h.0))
}

/// One line of input advances the parser: an inline `:: ` line yields a
/// card, a heading line reshapes the stack, and `:::` fences gather a
/// multi-line front and back into a card.
pub open spec fn parse_step(st: ParseModel, line: Seq<char>) -> ParseModel {
    let st1 = match find_pos(line, seq![':', ':', ' '], 0) {
        Some(i) => ParseModel {
            cards: st.cards.push(
                (stack_prefix(st.headings), line.take(i), line.skip(i + 3)),
            ),
            ..st
        },
        None => st,
    };
    let st2 = match heading_of(line) {
        Some((title, lvl)) => {
            let lvlc = if lvl <= u32::MAX {
                lvl
            } else {
                u32::MAX as int
            };
            let slot = heading_slot(st1.headings, lvlc, 1);
            ParseModel { headings: st1.headings.take(slot).push((title, lvlc)), ..st1 }
        },
        None => st1,
    };
    if line == seq![':', ':', ':'] {
        if st2.block == 0 {
            ParseModel { block: 1, ..st2 }
        } else if st2.block == 1 {
            ParseModel { block: 2, ..st2 }
        } else {
            ParseModel {
                block: 0,
                mfront: Seq::empty(),
                mback: Seq::empty(),
                cards: st2.cards.push((stack_prefix(st2.headings), st2.mfront, st2.mback)),
                ..st2
            }
        }
    } else if st2.block == 1 {
        ParseModel { mfront: st2.mfront + line + seq!['\n'], ..st2 }
    } else if st2.block == 2 {
        ParseModel { mback: st2.mback + line + seq!['\n'], ..st2 }
    } else {
        st2
    }
}

/// The parser folded over a sequence of lines.
pub open spec fn parse_fold(st: ParseModel, lines: Seq<Seq<char>>) -> ParseModel
    decreases lines.len(),
{
    if lines.len() == 0 {
        st
    } else {
        parse_fold(parse_step(st, lines[0]), lines.skip(1))
    }
}

/// The parser's starting state under an optional file heading.
pub open spec fn parse_start(heading: Option<Seq<char>>) -> ParseModel {
    ParseModel {
        headings: seq![
            (
                match heading {
                    Some(h) => h,
                    None => seq!['F', 'i', 'l', 'e'],
                },
                0int,
            ),
        ],
        block: 0,
        mfront: Seq::empty(),
        mback: Seq::empty(),
        cards: Seq::empty(),
    }
}


/// Builds one card from parsed texts.
fn assemble_card(prefix: String, front: String, back: String, date: Date) -> (r: Card)
    ensures
        r.content.prefix@ == prefix@,
        r.content.front@ == front@,
        r.content.back@ == back@,
        r.content.editable,
        r.content.base is None,
        r.content.cloze_index is None,
        r.fsrs_state@ == crate::card::fresh_state_model(date.day as int),
{
    let st = FSRSState::new(date);
    proof {
        assert(st.review_log@ =~= Seq::<ReviewLogItem>::empty());
    }
    Card {
        fsrs_state: st,
        content: CardContent {
            prefix,
            front,
            back,
            editable: true,
            base: None,
            cloze_index: None,
        },
    }
}

/// Whether the cards built so far match the parser model's output.
pub open spec fn cards_match(
    out: Seq<Card>,
    built: Seq<(Seq<char>, Seq<char>, Seq<char>)>,
    date: Date,
) -> bool {
    &&& out.len() == built.len()
    &&& forall|i: int|
        0 <= i < out.len() ==> {
            let c = #[trigger] out[i];
            &&& c.content.prefix@ == built[i].0
            &&& c.content.front@ == built[i].1
            &&& c.content.back@ == built[i].2
            &&& c.content.editable
            &&& c.content.base is None
            &&& c.content.cloze_index is None
            &&& c.fsrs_state@ == crate::card::fresh_state_model(date.day as int)
        }
}

/// Whether an exec heading stack matches the model's.
pub open spec fn headings_match(hs: Seq<Heading>, m: Seq<(Seq<char>, int)>) -> bool {
    &&& hs.len() == m.len()
    &&& forall|i: int|
        0 <= i < hs.len() ==> (#[trigger] hs[i]).title@ == m[i].0 && hs[i].level as int == m[i].1
}

/// Parses a source text into authored cards: each `front:: back` line and
/// each `:::`-fenced front and back pair yields one card, carrying the
/// location prefix its heading lines name.
pub fn parse_cards(input: &str, date: Date, heading: Option<String>) -> (r: Vec<Card>)
    ensures
        ({
            let hm = match heading {
                Some(h) => Some(h@),
                None => None,
            };
            let fin = parse_fold(parse_start(hm), crate::deck::split_lines(input@, 0));
            cards_match(r@, fin.cards, date)
        }),
{
    proof {
        reveal_strlit("File");
        reveal_strlit(":: ");
        reveal_strlit(":::");
        reveal_strlit("\n");
        assert("File"@ =~= seq!['F', 'i', 'l', 'e']);
        assert(":: "@ =~= seq![':', ':', ' ']);
        assert(":::"@ =~= seq![':', ':', ':']);
        assert("\n"@ =~= seq!['\n']);
    }
    let ghost hm = match heading {
        Some(ref h) => Some(h@),
        None => None::<Seq<char>>,
    };
    let ghost lines = crate::deck::split_lines(input@, 0);
    let ghost target = parse_fold(parse_start(hm), lines);
    let mut vec: Vec<Card> = Vec::new();
    let mut block: u8 = 0;
    let mut mfront = String::new();
    let mut mback = String::new();
    let mut headings: Vec<Heading> = Vec::new();
    match heading {
        Some(value) => headings.push(Heading { title: value, level: 0 }),
        None => headings.push(Heading { title: String::from_str("File"), level: 0 }),
    }
    let ghost st0 = parse_start(hm);
    proof {
        assert(headings_match(headings@, st0.headings));
        assert(cards_match(vec@, st0.cards, date));
    }
    let n = input.unicode_len();
    let mut from: usize = 0;
    let ghost st = st0;
    while from < n
        invariant
            n == input@.len(),
            0 <= from <= n,
            lines == crate::deck::split_lines(input@, 0),
            target == parse_fold(parse_start(hm), lines),
            target == parse_fold(st, crate::deck::split_lines(input@, from as int)),
            headings_match(headings@, st.headings),
            headings@.len() >= 1,
            cards_match(vec@, st.cards, date),
            block as int == st.block,
            block <= 2,
            mfront@ == st.mfront,
            mback@ == st.mback,
            ":: "@ == seq![':', ':', ' '],
            ":::"@ == seq![':', ':', ':'],
            "\n"@ == seq!['\n'],
        decreases n - from,
    {
        let ghost rem = crate::deck::split_lines(input@, from as int);
        let end = match scan_newline(input, from) {
            Some(k) => k,
            None => n,
        };
        proof {
            lemma_next_newline(input@, from as int);
        }
        let mut line = input.substring_char(from, end);
        let ln0 = line.unicode_len();
        if ln0 > 0 && line.get_char(ln0 - 1) == '\r' {
            line = input.substring_char(from, end - 1);
        }
        proof {
            if input@.subrange(from as int, end as int).len() > 0 && input@.subrange(
                from as int,
                end as int,
            ).last() == '\r' {
                assert(input@.subrange(from as int, end as int - 1) =~= input@.subrange(
                    from as int,
                    end as int,
                ).drop_last());
            }
            assert(line@ == crate::deck::strip_cr(input@.subrange(from as int, end as int)));
            assert(rem[0] == line@);
        }
        let ghost st_pre = st;
        let ln = line.unicode_len();
        // Inline card lines.
        match find_from(line, ":: ", 0) {
            Some(i) => {
                proof {
                    assert forall|j: int| 0 <= j < i implies !crate::text::match_at(
                        line@,
                        seq![':', ':', ' '],
                        j,
                    ) by {
                        assert(!crate::text::match_at(line@, ":: "@, j));
                    }
                    lemma_find_pos_some(line@, seq![':', ':', ' '], 0, i as int);
                    assert(line@.subrange(0, i as int) =~= line@.take(i as int));
                    assert(line@.subrange(i + 3, ln as int) =~= line@.skip(i + 3));
                }
                let prefix = create_prefix(&headings);
                proof {
                    assert(headings@.map_values(|h: Heading| h.title@) =~= st.headings.map_values(
                        |h: (Seq<char>, int)| h.0,
                    ));
                }
                let front = line.substring_char(0, i).to_owned();
                let back = line.substring_char(i + 3, ln).to_owned();
                let card = assemble_card(prefix, front, back, date);
                vec.push(card);
            },
            None => {
                proof {
                    assert forall|j: int| 0 <= j implies !crate::text::match_at(
                        line@,
                        seq![':', ':', ' '],
                        j,
                    ) by {
                        assert(!crate::text::match_at(line@, ":: "@, j));
                    }
                    lemma_find_pos_none(line@, seq![':', ':', ' '], 0);
                }
            },
        }
        let ghost st1 = match find_pos(line@, seq![':', ':', ' '], 0) {
            Some(i) => ParseModel {
                cards: st.cards.push(
                    (stack_prefix(st.headings), line@.take(i), line@.skip(i + 3)),
                ),
                ..st
            },
            None => st,
        };
        proof {
            assert(cards_match(vec@, st1.cards, date));
        }
        // Heading lines reshape the stack.
        match check_markdown_heading(line) {
            Some(value) => {
                let mut insert_index: usize = 1;
                while insert_index < headings.len() && headings[insert_index].level < value.level
                    invariant
                        1 <= insert_index <= headings@.len(),
                        headings_match(headings@, st1.headings),
                        heading_slot(st1.headings, value.level as int, 1) == heading_slot(
                            st1.headings,
                            value.level as int,
                            insert_index as int,
                        ),
                        headings@.len() >= 1,
                    decreases headings@.len() - insert_index,
                {
                    insert_index = insert_index + 1;
                }
                proof {
                    assert(heading_slot(st1.headings, value.level as int, 1)
                        == insert_index as int);
                }
                while headings.len() > insert_index
                    invariant
                        insert_index <= headings@.len(),
                        headings@.len() <= st1.headings.len(),
                        forall|t: int|
                            0 <= t < headings@.len() ==> (#[trigger] headings@[t]).title@
                                == st1.headings[t].0 && headings@[t].level as int
                                == st1.headings[t].1,
                    decreases headings@.len(),
                {
                    headings.pop();
                }
                headings.push(value);
                proof {
                    let slot = heading_slot(st1.headings, value.level as int, 1);
                    assert(headings_match(
                        headings@,
                        st1.headings.take(slot).push((value.title@, value.level as int)),
                    ));
                }
            },
            None => {},
        }
        let ghost st2 = match heading_of(line@) {
            Some((title, lvl)) => {
                let lvlc = if lvl <= u32::MAX {
                    lvl
                } else {
                    u32::MAX as int
                };
                let slot = heading_slot(st1.headings, lvlc, 1);
                ParseModel { headings: st1.headings.take(slot).push((title, lvlc)), ..st1 }
            },
            None => st1,
        };
        proof {
            assert(headings_match(headings@, st2.headings));
        }
        // Fence lines and block gathering.
        if str_eq(line, ":::") {
            if block == 0 {
                block = 1;
            } else if block == 1 {
                block = 2;
            } else {
                let prefix = create_prefix(&headings);
                proof {
                    assert(headings@.map_values(|h: Heading| h.title@)
                        =~= st2.headings.map_values(|h: (Seq<char>, int)| h.0));
                }
                let card = assemble_card(prefix, mfront, mback, date);
                vec.push(card);
                mfront = String::new();
                mback = String::new();
                block = 0;
            }
        } else if block == 1 {
            mfront.append(line);
            mfront.append("\n");
        } else if block == 2 {
            mback.append(line);
            mback.append("\n");
        }
        proof {
            st = parse_step(st_pre, line@);
            assert(st == parse_step(st_pre, rem[0]));
            assert(headings_match(headings@, st.headings));
            assert(cards_match(vec@, st.cards, date));
            assert(block as int == st.block);
            assert(mfront@ == st.mfront);
            assert(mback@ == st.mback);
        }
        from = if end < n {
            end + 1
        } else {
            n
        };
        proof {
            if end < n {
                assert(rem.skip(1) =~= crate::deck::split_lines(input@, from as int));
            } else {
                assert(crate::deck::split_lines(input@, from as int) =~= Seq::<Seq<char>>::empty());
                assert(rem.skip(1) =~= Seq::<Seq<char>>::empty());
            }
            assert(target == parse_fold(st, crate::deck::split_lines(input@, from as int)));
        }
    }
    proof {
        assert(crate::deck::split_lines(input@, from as int) =~= Seq::<Seq<char>>::empty());
    }
    vec
}


/// The first whitespace character at or after `from`.
pub open spec fn next_space(s: Seq<char>, from: int) -> Option<int>
    decreases s.len() - from,
{
    if from < 0 || from >= s.len() {
        None
    } else if is_space_char(s[from]) {
        Some(from)
    } else {
        next_space(s, from + 1)
    }
}

pub proof fn lemma_next_space(s: Seq<char>, from: int)
    ensures
        next_space(s, from) matches Some(j) ==> from <= j < s.len() && is_space_char(s[j]),
    decreases s.len() - from,
{
    if !(from < 0 || from >= s.len()) && !is_space_char(s[from]) {
        lemma_next_space(s, from + 1);
    }
}

#[via_fn]
proof fn split_words_decreases(s: Seq<char>, from: int) {
    lemma_next_nonspace(s, from);
    match next_nonspace(s, from) {
        Some(j) => lemma_next_space(s, j),
        None => {},
    }
}

/// The whitespace-separated words of `s` at or after `from`.
pub open spec fn split_words(s: Seq<char>, from: int) -> Seq<Seq<char>>
    decreases s.len() - from,
    via split_words_decreases
{
    match next_nonspace(s, from) {
        None => Seq::empty(),
        Some(j) => {
            let e = match next_space(s, j) {
                Some(k) => k,
                None => s.len() as int,
            };
            seq![s.subrange(j, e)] + split_words(s, e)
        },
    }
}

/// Scans for the first whitespace character at or after `from`.
fn scan_space(s: &str, from: usize) -> (r: Option<usize>)
    ensures
        r matches Some(j) ==> next_space(s@, from as int) == Some(j as int),
        r is None ==> next_space(s@, from as int) is None,
{
    let n = s.unicode_len();
    let mut i = from;
    while i < n
        invariant
            n == s@.len(),
            from <= i,
            next_space(s@, from as int) == next_space(s@, i as int),
        decreases n - i,
    {
        if is_whitespace_char(s.get_char(i)) {
            return Some(i);
        }
        i = i + 1;
    }
    None
}

/// Splits a text at whitespace, as `str::split_whitespace` does.
pub fn split_words_vec(s: &str) -> (r: Vec<String>)
    ensures
        r@.len() == split_words(s@, 0).len(),
        forall|i: int| 0 <= i < r@.len() ==> r@[i]@ == split_words(s@, 0)[i],
{
    let n = s.unicode_len();
    let mut words: Vec<String> = Vec::new();
    let mut from: usize = 0;
    proof {
        assert(words@.map_values(|t: String| t@) + split_words(s@, 0) =~= split_words(s@, 0));
    }
    loop
        invariant_except_break
            n == s@.len(),
            0 <= from,
            split_words(s@, 0) == words@.map_values(|t: String| t@) + split_words(
                s@,
                from as int,
            ),
        ensures
            split_words(s@, 0) == words@.map_values(|t: String| t@),
        decreases n - from,
    {
        let ghost done = words@.map_values(|t: String| t@);
        let j = match scan_nonspace(s, from) {
            Some(j) => j,
            None => {
                proof {
                    assert(split_words(s@, from as int) =~= Seq::<Seq<char>>::empty());
                    assert(done + split_words(s@, from as int) =~= done);
                }
                break ;
            },
        };
        proof {
            lemma_next_nonspace(s@, from as int);
        }
        let e = match scan_space(s, j) {
            Some(k) => k,
            None => n,
        };
        proof {
            lemma_next_space(s@, j as int);
        }
        let word = s.substring_char(j, e).to_owned();
        words.push(word);
        proof {
            assert(words@.map_values(|t: String| t@) =~= done.push(s@.subrange(
                j as int,
                e as int,
            )));
            assert(done.push(s@.subrange(j as int, e as int)) + split_words(s@, e as int)
                =~= done + split_words(s@, from as int));
        }
        from = e;
    }
    words
}

/// Where a card's text sits in a source file: its first character and its
/// length, in characters.
pub struct CardLocationData {
    pub index: usize,
    pub len: usize,
}

/// The heading stack after one line.
pub open spec fn stack_after(hs: Seq<(Seq<char>, int)>, line: Seq<char>) -> Seq<(Seq<char>, int)> {
    match heading_of(line) {
        Some((title, lvl)) => {
            let lvlc = if lvl <= u32::MAX {
                lvl
            } else {
                u32::MAX as int
            };
            let slot = heading_slot(hs, lvlc, 1);
            hs.take(slot).push((title, lvlc))
        },
        None => hs,
    }
}

#[via_fn]
proof fn find_card_from_decreases(
    s: Seq<char>,
    from: int,
    hs: Seq<(Seq<char>, int)>,
    block: int,
    mfront: Seq<char>,
    mback: Seq<char>,
    mstart: int,
    pfx: Seq<char>,
    fr: Seq<char>,
    bk: Seq<char>,
) {
    lemma_next_newline(s, from);
}

/// The location of the first card in the source text whose prefix, front
/// and back all equal the target, scanning inline `:: ` lines and `:::`
/// fences exactly as the card parser does.
pub open spec fn find_card_from(
    s: Seq<char>,
    from: int,
    hs: Seq<(Seq<char>, int)>,
    block: int,
    mfront: Seq<char>,
    mback: Seq<char>,
    mstart: int,
    pfx: Seq<char>,
    fr: Seq<char>,
    bk: Seq<char>,
) -> Option<(int, int)>
    decreases s.len() - from,
    via find_card_from_decreases
{
    if from < 0 || from >= s.len() {
        None
    } else {
        let end = match next_newline(s, from) {
            Some(k) => k,
            None => s.len() as int,
        };
        let nxt = if end < s.len() {
            end + 1
        } else {
            s.len() as int
        };
        let line = crate::deck::strip_cr(s.subrange(from, end));
        let hit_inline = match find_pos(line, seq![':', ':', ' '], 0) {
            Some(i) => stack_prefix(hs) == pfx && line.take(i) == fr && line.skip(i + 3) == bk,
            None => false,
        };
        if hit_inline {
            Some((from, line.len() as int))
        } else {
            let hs2 = stack_after(hs, line);
            if line == seq![':', ':', ':'] {
                if block == 0 {
                    find_card_from(s, nxt, hs2, 1, mfront, mback, from, pfx, fr, bk)
                } else if block == 1 {
                    find_card_from(s, nxt, hs2, 2, mfront, mback, mstart, pfx, fr, bk)
                } else if stack_prefix(hs2) == pfx && mfront == fr && mback == bk {
                    Some((mstart, from + line.len() - mstart))
                } else {
                    find_card_from(
                        s,
                        nxt,
                        hs2,
                        0,
                        Seq::empty(),
                        Seq::empty(),
                        mstart,
                        pfx,
                        fr,
                        bk,
                    )
                }
            } else if block == 1 {
                find_card_from(s, nxt, hs2, 1, mfront + line + seq!['\n'], mback, mstart, pfx, fr, bk)
            } else if block == 2 {
                find_card_from(s, nxt, hs2, 2, mfront, mback + line + seq!['\n'], mstart, pfx, fr, bk)
            } else {
                find_card_from(s, nxt, hs2, block, mfront, mback, mstart, pfx, fr, bk)
            }
        }
    }
}


/// The view of an optional file heading.
pub open spec fn heading_model(h: Option<String>) -> Option<Seq<char>> {
    match h {
        Some(t) => Some(t@),
        None => None,
    }
}

/// The location of the target card in a source text, under an optional
/// file heading.
pub open spec fn found_card(
    s: Seq<char>,
    heading: Option<Seq<char>>,
    pfx: Seq<char>,
    fr: Seq<char>,
    bk: Seq<char>,
) -> Option<(int, int)> {
    find_card_from(
        s,
        0,
        parse_start(heading).headings,
        0,
        Seq::empty(),
        Seq::empty(),
        0,
        pfx,
        fr,
        bk,
    )
}

/// Finds the card with the given identity and back text in a source text.
#[verifier::rlimit(80)]
pub fn find_card(input: &str, card: &Card, heading: &Option<String>) -> (r: Option<
    CardLocationData,
>)
    ensures
        r is Some <==> found_card(
            input@,
            heading_model(*heading),
            card.content.prefix@,
            card.content.front@,
            card.content.back@,
        ) is Some,
        r matches Some(loc) ==> Some((loc.index as int, loc.len as int)) == found_card(
            input@,
            heading_model(*heading),
            card.content.prefix@,
            card.content.front@,
            card.content.back@,
        ),
        r matches Some(loc) ==> loc.index + loc.len <= input@.len(),
{
    proof {
        reveal_strlit("File");
        reveal_strlit(":: ");
        reveal_strlit(":::");
        reveal_strlit("\n");
        assert("File"@ =~= seq!['F', 'i', 'l', 'e']);
        assert(":: "@ =~= seq![':', ':', ' ']);
        assert(":::"@ =~= seq![':', ':', ':']);
        assert("\n"@ =~= seq!['\n']);
    }
    let ghost hm = heading_model(*heading);
    let ghost pfx = card.content.prefix@;
    let ghost fr = card.content.front@;
    let ghost bk = card.content.back@;
    let ghost target = found_card(input@, hm, pfx, fr, bk);
    let mut block: u8 = 0;
    let mut mfront = String::new();
    let mut mback = String::new();
    let mut mstart: usize = 0;
    let mut headings: Vec<Heading> = Vec::new();
    match heading {
        Some(value) => headings.push(Heading { title: value.clone(), level: 0 }),
        None => headings.push(Heading { title: String::from_str("File"), level: 0 }),
    }
    proof {
        assert(headings_match(headings@, parse_start(hm).headings));
    }
    let n = input.unicode_len();
    let mut from: usize = 0;
    let ghost hsm = parse_start(hm).headings;
    while from < n
        invariant
            n == input@.len(),
            0 <= from <= n,
            hm == heading_model(*heading),
            target == found_card(input@, hm, pfx, fr, bk),
            target == find_card_from(
                input@,
                from as int,
                hsm,
                block as int,
                mfront@,
                mback@,
                mstart as int,
                pfx,
                fr,
                bk,
            ),
            pfx == card.content.prefix@,
            fr == card.content.front@,
            bk == card.content.back@,
            headings_match(headings@, hsm),
            headings@.len() >= 1,
            block <= 2,
            mstart <= from,
            ":: "@ == seq![':', ':', ' '],
            ":::"@ == seq![':', ':', ':'],
            "\n"@ == seq!['\n'],
        decreases n - from,
    {
        let end = match scan_newline(input, from) {
            Some(k) => k,
            None => n,
        };
        proof {
            lemma_next_newline(input@, from as int);
        }
        let mut line = input.substring_char(from, end);
        let ln0 = line.unicode_len();
        if ln0 > 0 && line.get_char(ln0 - 1) == '\r' {
            line = input.substring_char(from, end - 1);
        }
        proof {
            if input@.subrange(from as int, end as int).len() > 0 && input@.subrange(
                from as int,
                end as int,
            ).last() == '\r' {
                assert(input@.subrange(from as int, end as int - 1) =~= input@.subrange(
                    from as int,
                    end as int,
                ).drop_last());
            }
            assert(line@ == crate::deck::strip_cr(input@.subrange(from as int, end as int)));
        }
        let ln = line.unicode_len();
        match find_from(line, ":: ", 0) {
            Some(i) => {
                proof {
                    assert forall|j: int| 0 <= j < i implies !crate::text::match_at(
                        line@,
                        seq![':', ':', ' '],
                        j,
                    ) by {
                        assert(!crate::text::match_at(line@, ":: "@, j));
                    }
                    lemma_find_pos_some(line@, seq![':', ':', ' '], 0, i as int);
                    assert(line@.subrange(0, i as int) =~= line@.take(i as int));
                    assert(line@.subrange(i + 3, ln as int) =~= line@.skip(i + 3));
                }
                let prefix = create_prefix(&headings);
                proof {
                    assert(headings@.map_values(|h: Heading| h.title@) =~= hsm.map_values(
                        |h: (Seq<char>, int)| h.0,
                    ));
                }
                let front = line.substring_char(0, i);
                let back = line.substring_char(i + 3, ln);
                if str_eq(prefix.as_str(), card.content.prefix.as_str()) && str_eq(
                    front,
                    card.content.front.as_str(),
                ) && str_eq(back, card.content.back.as_str()) {
                    proof {
                        assert(ln as int <= n - from);
                        assert(target == Some((from as int, ln as int)));
                    }
                    return Some(CardLocationData { index: from, len: ln });
                }
            },
            None => {
                proof {
                    assert forall|j: int| 0 <= j implies !crate::text::match_at(
                        line@,
                        seq![':', ':', ' '],
                        j,
                    ) by {
                        assert(!crate::text::match_at(line@, ":: "@, j));
                    }
                    lemma_find_pos_none(line@, seq![':', ':', ' '], 0);
                }
            },
        }
        let ghost hs2 = stack_after(hsm, line@);
        match check_markdown_heading(line) {
            Some(value) => {
                let mut insert_index: usize = 1;
                while insert_index < headings.len() && headings[insert_index].level < value.level
                    invariant
                        1 <= insert_index <= headings@.len(),
                        headings_match(headings@, hsm),
                        heading_slot(hsm, value.level as int, 1) == heading_slot(
                            hsm,
                            value.level as int,
                            insert_index as int,
                        ),
                        headings@.len() >= 1,
                    decreases headings@.len() - insert_index,
                {
                    insert_index = insert_index + 1;
                }
                proof {
                    assert(heading_slot(hsm, value.level as int, 1) == insert_index as int);
                }
                while headings.len() > insert_index
                    invariant
                        insert_index <= headings@.len(),
                        headings@.len() <= hsm.len(),
                        forall|t: int|
                            0 <= t < headings@.len() ==> (#[trigger] headings@[t]).title@
                                == hsm[t].0 && headings@[t].level as int == hsm[t].1,
                    decreases headings@.len(),
                {
                    headings.pop();
                }
                headings.push(value);
                proof {
                    assert(headings_match(headings@, hs2));
                }
            },
            None => {},
        }
        proof {
            hsm = hs2;
        }
        if str_eq(line, ":::") {
            if block == 0 {
                mstart = from;
                block = 1;
            } else if block == 1 {
                block = 2;
            } else {
                let prefix = create_prefix(&headings);
                proof {
                    assert(headings@.map_values(|h: Heading| h.title@) =~= hsm.map_values(
                        |h: (Seq<char>, int)| h.0,
                    ));
                }
                if str_eq(prefix.as_str(), card.content.prefix.as_str()) && str_eq(
                    mfront.as_str(),
                    card.content.front.as_str(),
                ) && str_eq(mback.as_str(), card.content.back.as_str()) {
                    proof {
                        assert(ln as int <= n - from);
                        assert(target == Some((mstart as int, from + ln - mstart)));
                    }
                    return Some(CardLocationData { index: mstart, len: from + ln - mstart });
                }
                mfront = String::new();
                mback = String::new();
                block = 0;
            }
        } else if block == 1 {
            mfront.append(line);
            mfront.append("\n");
        } else if block == 2 {
            mback.append(line);
            mback.append("\n");
        }
        from = if end < n {
            end + 1
        } else {
            n
        };
    }
    None
}

/// Replaces one card's text in a source file with another card's,
/// rendering the new card in the source form; nothing changes when the
/// card is not found.
pub fn replace_card(input: &str, heading: Option<String>, card: &Card, new_card: &Card) -> (r:
    Option<String>)
    ensures
        r is Some <==> found_card(
            input@,
            heading_model(heading),
            card.content.prefix@,
            card.content.front@,
            card.content.back@,
        ) is Some,
        r matches Some(out) ==> {
            let (idx, len) = found_card(
                input@,
                heading_model(heading),
                card.content.prefix@,
                card.content.front@,
                card.content.back@,
            )->Some_0;
            out@ == input@.take(idx) + crate::card::content_text_of(
                new_card.content.front@,
                new_card.content.back@,
            ) + input@.skip(idx + len)
        },
{
    let location = match find_card(input, card, &heading) {
        Some(l) => l,
        None => {
            return None;
        },
    };
    let n = input.unicode_len();
    let mut output = input.substring_char(0, location.index).to_owned();
    let rendered = new_card.content.to_string();
    output.append(rendered.as_str());
    output.append(input.substring_char(location.index + location.len, n));
    proof {
        assert(input@.subrange(0, location.index as int) =~= input@.take(location.index as int));
        assert(input@.subrange(location.index + location.len, n as int) =~= input@.skip(
            location.index + location.len,
        ));
    }
    Some(output)
}

} // verus!
