//! The card and collection model: a card's content and identity, its
//! editability classification, the tab-separated export row, and the
//! expansion of authored cards into derived cloze cards.

use crate::date::Date;
use crate::fsrs::{decode_of, encode_of, FSRSState, ReviewLogItem};
use crate::parsing::{
    brace_close, brace_open, cloze_span, clozed_of, find_pos, lemma_find_pos_none,
    lemma_find_pos_some, lemma_line_starts, line_end_of, line_starts_of, paren_close, paren_open,
    replace_from, spans_of, trim_end_of, trim_end_str, ClozeIterator, ClozeType, LineSettings,
};
use crate::text::{
    bool_text_of, bool_to_str, contains_seq, contains_str, convert_from_singleline,
    convert_to_singleline, find_from, i64_to_string, int_text_of, int_text_val, is_float_text,
    is_float_text_str, is_int_text, join_tabs, lemma_float_text_tab_free, lemma_int_text_roundtrip,
    lemma_join_tabs_push, lemma_match_single, lemma_singleline_clean, lemma_singleline_roundtrip,
    lemma_split_join, line_clean, multiline_of, parse_bool, parse_i32, parse_i64, roundtrip_safe,
    singleline_of, split_tabs, split_tabs_vec, tab_free,
};
use vstd::prelude::*;

verus! {

/// The authored side of a card: its location prefix, front and back text,
/// whether the author may edit it directly, and, for a derived card, which
/// base card it came from and its position among that card's derivations.
#[derive(Debug, Clone)]
pub struct CardContent {
    pub prefix: String,
    pub front: String,
    pub back: String,
    pub editable: bool,
    pub base: Option<usize>,
    pub cloze_index: Option<usize>,
}

/// Per-card metadata an author can attach to select a derivation mode.
#[derive(Debug, Clone)]
pub struct CardMetadata {
    pub surrounding_lines: u32,
    pub card_type: String,
}

/// The context width used when none is configured.
pub fn default_surrounding_lines() -> (r: u32)
    ensures
        r == 2,
{
    2
}

/// How a card may be edited: directly, through its base card, or not at
/// all (the losing side of a duplicate).
#[derive(Debug, PartialEq, Eq, Structural)]
pub enum Editable {
    Editable,
    BaseEditable,
    NotEditable,
}

/// A reviewable card: content plus memory state.
#[derive(Debug, Clone)]
pub struct Card {
    pub content: CardContent,
    pub fsrs_state: FSRSState,
}

/// The file part of a location prefix: everything before the first `>`,
/// with trailing whitespace removed.
pub open spec fn md_filename_of(prefix: Seq<char>) -> Seq<char> {
    let seg = match find_pos(prefix, seq!['>'], 0) {
        Some(k) => prefix.take(k),
        None => prefix,
    };
    seg.take(trim_end_of(seg))
}

/// A card's back text rendered behind its front for source files: a
/// multi-line front uses the fenced form, a single-line front the inline
/// form.
pub open spec fn content_text_of(front: Seq<char>, back: Seq<char>) -> Seq<char> {
    if contains_seq(front, seq!['\n']) {
        seq![':', ':', ':', '\n'] + front + seq![':', ':', ':', '\n'] + back + seq![':', ':', ':']
    } else {
        front + seq![':', ':', ' '] + back
    }
}

/// The front text with every newline written as backslash-n.
pub open spec fn nl_escaped_of(s: Seq<char>) -> Seq<char>
    decreases s.len(),
{
    if s.len() == 0 {
        Seq::empty()
    } else if s[0] == '\n' {
        seq!['\\', 'n'] + nl_escaped_of(s.skip(1))
    } else {
        seq![s[0]] + nl_escaped_of(s.skip(1))
    }
}

impl CardContent {
    /// Empty, directly editable content with no base link.
    pub fn new() -> (r: CardContent)
        ensures
            r.prefix@ == Seq::<char>::empty(),
            r.front@ == Seq::<char>::empty(),
            r.back@ == Seq::<char>::empty(),
            r.editable,
            r.base is None,
            r.cloze_index is None,
    {
        CardContent {
            prefix: String::new(),
            front: String::new(),
            back: String::new(),
            editable: true,
            base: None,
            cloze_index: None,
        }
    }

    /// The editability class: editable content first, then content that
    /// can be edited through its base card, then nothing.
    pub fn get_editability(&self) -> (r: Editable)
        ensures
            r == (if self.editable {
                Editable::Editable
            } else if self.base is Some {
                Editable::BaseEditable
            } else {
                Editable::NotEditable
            }),
    {
        if self.editable {
            Editable::Editable
        } else if self.base.is_some() {
            Editable::BaseEditable
        } else {
            Editable::NotEditable
        }
    }

    /// The source file named by the prefix.
    pub fn get_md_filename(&self) -> (r: String)
        ensures
            r@ == md_filename_of(self.prefix@),
    {
        proof {
            reveal_strlit(">");
            assert(">"@ =~= seq!['>']);
        }
        let s = self.prefix.as_str();
        let n = s.unicode_len();
        let seg = match find_from(s, ">", 0) {
            Some(k) => {
                proof {
                    assert forall|j: int| 0 <= j < k implies !crate::text::match_at(
                        s@,
                        seq!['>'],
                        j,
                    ) by {
                        assert(!crate::text::match_at(s@, ">"@, j));
                    }
                    lemma_match_single(s@, '>', k as int);
                    lemma_find_pos_some(s@, seq!['>'], 0, k as int);
                    assert(s@.subrange(0, k as int) =~= s@.take(k as int));
                }
                s.substring_char(0, k)
            },
            None => {
                proof {
                    assert forall|j: int| 0 <= j implies !crate::text::match_at(
                        s@,
                        seq!['>'],
                        j,
                    ) by {
                        assert(!crate::text::match_at(s@, ">"@, j));
                    }
                    lemma_find_pos_none(s@, seq!['>'], 0);
                }
                s
            },
        };
        trim_end_str(seg)
    }

    /// The content rendered as source text.
    pub fn to_string(&self) -> (r: String)
        ensures
            r@ == content_text_of(self.front@, self.back@),
    {
        proof {
            reveal_strlit(":::\n");
            reveal_strlit(":::");
            reveal_strlit(":: ");
            reveal_strlit("\n");
        }
        let multiline = contains_str(self.front.as_str(), "\n");
        proof {
            assert("\n"@ =~= seq!['\n']);
        }
        let mut out = String::new();
        if multiline {
            out.append(":::\n");
            out.append(self.front.as_str());
            out.append(":::\n");
            out.append(self.back.as_str());
            out.append(":::");
            proof {
                assert(":::\n"@ =~= seq![':', ':', ':', '\n']);
                assert(":::"@ =~= seq![':', ':', ':']);
                assert(out@ =~= content_text_of(self.front@, self.back@));
            }
        } else {
            out.append(self.front.as_str());
            out.append(":: ");
            out.append(self.back.as_str());
            proof {
                assert(":: "@ =~= seq![':', ':', ' ']);
                assert(out@ =~= content_text_of(self.front@, self.back@));
            }
        }
        out
    }

    /// The front on one line, newlines written as backslash-n.
    pub fn get_singleline_front(&self) -> (r: String)
        ensures
            r@ == nl_escaped_of(self.front@),
    {
        proof {
            reveal_strlit("\\n");
        }
        let s = self.front.as_str();
        let n = s.unicode_len();
        let mut out = String::new();
        let mut i: usize = 0;
        proof {
            assert(s@.skip(0) =~= s@);
            assert(out@ + nl_escaped_of(s@) =~= nl_escaped_of(s@));
        }
        while i < n
            invariant
                n == s@.len(),
                0 <= i <= n,
                nl_escaped_of(s@) == out@ + nl_escaped_of(s@.skip(i as int)),
                "\\n"@ == seq!['\\', 'n'],
            decreases n - i,
        {
            let ghost rem = s@.skip(i as int);
            let ghost out0 = out@;
            proof {
                assert(rem[0] == s@[i as int]);
            }
            if s.get_char(i) == '\n' {
                out.append("\\n");
            } else {
                out.append(s.substring_char(i, i + 1));
                proof {
                    assert(s@.subrange(i as int, i + 1) =~= seq![rem[0]]);
                }
            }
            i = i + 1;
            proof {
                assert(rem.skip(1) =~= s@.skip(i as int));
                assert(out@ + nl_escaped_of(s@.skip(i as int)) =~= out0 + nl_escaped_of(rem));
            }
        }
        proof {
            assert(s@.skip(n as int) =~= Seq::<char>::empty());
            assert(out@ + nl_escaped_of(s@.skip(n as int)) =~= out@);
        }
        out
    }

    /// The prefix and the front on two lines, for display.
    pub fn get_formatted_front(&self) -> (r: String)
        ensures
            r@ == self.prefix@ + seq!['\n'] + self.front@,
    {
        proof {
            reveal_strlit("\n");
        }
        let mut out = self.prefix.clone();
        proof {
            assert("\n"@ =~= seq!['\n']);
        }
        out.append("\n");
        out.append(self.front.as_str());
        out
    }

    /// The identity key: the prefix and the front, concatenated.
    pub fn key(&self) -> (r: String)
        ensures
            r@ == self.prefix@ + self.front@,
    {
        let mut out = self.prefix.clone();
        out.append(self.front.as_str());
        out
    }
}

impl Card {
    /// An empty card with a fresh memory state.
    pub fn new() -> (r: Card)
        ensures
            r.content.prefix@ == Seq::<char>::empty(),
            r.content.front@ == Seq::<char>::empty(),
            r.content.back@ == Seq::<char>::empty(),
            r.content.editable,
            r.content.base is None,
            r.content.cloze_index is None,
            r.fsrs_state.date_added == (Date { day: 1 }),
            r.fsrs_state.last_review == (Date { day: 1 }),
            r.fsrs_state.review_date == (Date { day: 1 }),
            r.fsrs_state.difficulty@ == "0"@,
            r.fsrs_state.stability@ == "0"@,
            !r.fsrs_state.buried,
            r.fsrs_state.complete_history,
            r.fsrs_state.review_log@.len() == 0,
    {
        Card { content: CardContent::new(), fsrs_state: FSRSState::new(Date { day: 1 }) }
    }

    /// Whether the word occurs in the front, back or prefix text.
    pub fn contains(&self, word: &str) -> (r: bool)
        ensures
            r == (contains_seq(self.content.front@, word@) || contains_seq(
                self.content.back@,
                word@,
            ) || contains_seq(self.content.prefix@, word@)),
    {
        contains_str(self.content.front.as_str(), word) || contains_str(
            self.content.back.as_str(),
            word,
        ) || contains_str(self.content.prefix.as_str(), word)
    }
}

/// Why a tab-separated row could not be read back into a card.
#[derive(Clone, Copy, Debug, PartialEq, Eq, Structural)]
pub enum TsvError {
    MissingReviewDate,
    InvalidReviewDate,
    MissingDifficulty,
    InvalidDifficulty,
    MissingStability,
    InvalidStability,
    MissingPrefix,
    MissingFront,
    MissingBack,
    MissingDateAdded,
    InvalidDateAdded,
    MissingCompleteHistory,
    InvalidCompleteHistory,
    MissingLastReview,
    InvalidLastReview,
    InvalidReviewLog,
}

/// The fields of a card's export row, in order: days to review, the two
/// model numerals, the prefix, the escaped front and back, days to the
/// adding date, the history-complete flag, days to the last review, and
/// one packed entry per review-log item.
pub open spec fn tsv_fields_of(card: Card, date: Date) -> Seq<Seq<char>> {
    seq![
        int_text_of(card.fsrs_state.review_date.day - date.day),
        card.fsrs_state.difficulty@,
        card.fsrs_state.stability@,
        card.content.prefix@,
        singleline_of(card.content.front@),
        singleline_of(card.content.back@),
        int_text_of(card.fsrs_state.date_added.day - date.day),
        bool_text_of(
            card.fsrs_state.complete_history && card.fsrs_state.review_log@.len() == 0,
        ),
        int_text_of(card.fsrs_state.last_review.day - date.day),
    ] + card.fsrs_state.review_log@.map_values(
        |item: ReviewLogItem| int_text_of(encode_of(item.answer, item.day.day) as int),
    )
}

/// A card's export row: its fields joined with tabs.
pub open spec fn tsv_text_of(card: Card, date: Date) -> Seq<char> {
    join_tabs(tsv_fields_of(card, date))
}

/// Whether one trailing row field is a well-formed packed log entry.
pub open spec fn log_entry_ok(p: Seq<char>) -> bool {
    &&& is_int_text(p)
    &&& i64::MIN <= int_text_val(p) <= i64::MAX
    &&& decode_of(int_text_val(p) as i64) is Ok
}

/// The first fault of an export row, if any, checked field by field in
/// reading order.
pub open spec fn tsv_parse_err(parts: Seq<Seq<char>>, date: Date) -> Option<TsvError> {
    if parts.len() < 1 {
        Some(TsvError::MissingReviewDate)
    } else if !(is_int_text(parts[0]) && i32::MIN <= int_text_val(parts[0]) <= i32::MAX && i32::MIN
        <= date.day + int_text_val(parts[0]) <= i32::MAX) {
        Some(TsvError::InvalidReviewDate)
    } else if parts.len() < 2 {
        Some(TsvError::MissingDifficulty)
    } else if !is_float_text(parts[1]) {
        Some(TsvError::InvalidDifficulty)
    } else if parts.len() < 3 {
        Some(TsvError::MissingStability)
    } else if !is_float_text(parts[2]) {
        Some(TsvError::InvalidStability)
    } else if parts.len() < 4 {
        Some(TsvError::MissingPrefix)
    } else if parts.len() < 5 {
        Some(TsvError::MissingFront)
    } else if parts.len() < 6 {
        Some(TsvError::MissingBack)
    } else if parts.len() < 7 {
        Some(TsvError::MissingDateAdded)
    } else if !(is_int_text(parts[6]) && i32::MIN <= int_text_val(parts[6]) <= i32::MAX && i32::MIN
        <= date.day + int_text_val(parts[6]) <= i32::MAX) {
        Some(TsvError::InvalidDateAdded)
    } else if parts.len() < 8 {
        Some(TsvError::MissingCompleteHistory)
    } else if parts[7] != bool_text_of(true) && parts[7] != bool_text_of(false) {
        Some(TsvError::InvalidCompleteHistory)
    } else if parts.len() < 9 {
        Some(TsvError::MissingLastReview)
    } else if !(is_int_text(parts[8]) && i32::MIN <= int_text_val(parts[8]) <= i32::MAX && i32::MIN
        <= date.day + int_text_val(parts[8]) <= i32::MAX) {
        Some(TsvError::InvalidLastReview)
    } else if exists|k: int| 9 <= k < parts.len() && !log_entry_ok(#[trigger] parts[k]) {
        Some(TsvError::InvalidReviewLog)
    } else {
        None
    }
}

/// What reading a faultless export row yields, field by field.
pub open spec fn tsv_parsed_ok(card: Card, parts: Seq<Seq<char>>, date: Date) -> bool {
    &&& card.fsrs_state.review_date.day == date.day + int_text_val(parts[0])
    &&& card.fsrs_state.difficulty@ == parts[1]
    &&& card.fsrs_state.stability@ == parts[2]
    &&& card.content.prefix@ == parts[3]
    &&& card.content.front@ == multiline_of(parts[4])
    &&& card.content.back@ == multiline_of(parts[5])
    &&& card.fsrs_state.date_added.day == date.day + int_text_val(parts[6])
    &&& card.fsrs_state.complete_history == (parts[7] == bool_text_of(true))
    &&& card.fsrs_state.last_review.day == date.day + int_text_val(parts[8])
    &&& !card.fsrs_state.buried
    &&& card.content.editable
    &&& card.content.base is None
    &&& card.content.cloze_index is None
    &&& card.fsrs_state.review_log@.len() == parts.len() - 9
    &&& forall|k: int|
        0 <= k < parts.len() - 9 ==> #[trigger] card.fsrs_state.review_log@[k] == decode_of(
            int_text_val(parts[k + 9]) as i64,
        )->Ok_0
}

impl Card {
    /// Renders the card as one export row.
    pub fn format_to_tsv(&self, current_date: Date) -> (r: String)
        requires
            i32::MIN <= self.fsrs_state.review_date.day - current_date.day <= i32::MAX,
            i32::MIN <= self.fsrs_state.date_added.day - current_date.day <= i32::MAX,
            i32::MIN <= self.fsrs_state.last_review.day - current_date.day <= i32::MAX,
        ensures
            r@ == tsv_text_of(*self, current_date),
    {
        proof {
            reveal_strlit("\t");
            assert("\t"@ =~= seq!['\t']);
        }
        let ghost fields = tsv_fields_of(*self, current_date);
        let days_to_review: i64 = self.fsrs_state.review_date.day as i64
            - current_date.day as i64;
        let date_added: i64 = self.fsrs_state.date_added.day as i64 - current_date.day as i64;
        let last_review: i64 = self.fsrs_state.last_review.day as i64 - current_date.day as i64;
        let mut out = i64_to_string(days_to_review);
        proof {
            assert(fields.take(1) =~= seq![fields[0]]);
            assert(join_tabs(fields.take(1)) == fields[0]);
        }
        out.append("\t");
        out.append(self.fsrs_state.difficulty.as_str());
        proof {
            assert(fields.take(2) =~= fields.take(1).push(fields[1]));
            lemma_join_tabs_push(fields.take(1), fields[1]);
            assert(out@ =~= join_tabs(fields.take(2)));
        }
        out.append("\t");
        out.append(self.fsrs_state.stability.as_str());
        proof {
            assert(fields.take(3) =~= fields.take(2).push(fields[2]));
            lemma_join_tabs_push(fields.take(2), fields[2]);
            assert(out@ =~= join_tabs(fields.take(3)));
        }
        out.append("\t");
        out.append(self.content.prefix.as_str());
        proof {
            assert(fields.take(4) =~= fields.take(3).push(fields[3]));
            lemma_join_tabs_push(fields.take(3), fields[3]);
            assert(out@ =~= join_tabs(fields.take(4)));
        }
        out.append("\t");
        let front = convert_to_singleline(self.content.front.clone());
        out.append(front.as_str());
        proof {
            assert(fields.take(5) =~= fields.take(4).push(fields[4]));
            lemma_join_tabs_push(fields.take(4), fields[4]);
            assert(out@ =~= join_tabs(fields.take(5)));
        }
        out.append("\t");
        let back = convert_to_singleline(self.content.back.clone());
        out.append(back.as_str());
        proof {
            assert(fields.take(6) =~= fields.take(5).push(fields[5]));
            lemma_join_tabs_push(fields.take(5), fields[5]);
            assert(out@ =~= join_tabs(fields.take(6)));
        }
        out.append("\t");
        let added = i64_to_string(date_added);
        out.append(added.as_str());
        proof {
            assert(fields.take(7) =~= fields.take(6).push(fields[6]));
            lemma_join_tabs_push(fields.take(6), fields[6]);
            assert(out@ =~= join_tabs(fields.take(7)));
        }
        out.append("\t");
        out.append(bool_to_str(self.fsrs_state.first_review()));
        proof {
            assert(fields.take(8) =~= fields.take(7).push(fields[7]));
            lemma_join_tabs_push(fields.take(7), fields[7]);
            assert(out@ =~= join_tabs(fields.take(8)));
        }
        out.append("\t");
        let last = i64_to_string(last_review);
        out.append(last.as_str());
        proof {
            assert(fields.take(9) =~= fields.take(8).push(fields[8]));
            lemma_join_tabs_push(fields.take(8), fields[8]);
            assert(out@ =~= join_tabs(fields.take(9)));
        }
        let mut li: usize = 0;
        let log_len = self.fsrs_state.review_log.len();
        while li < log_len
            invariant
                log_len == self.fsrs_state.review_log@.len(),
                fields == tsv_fields_of(*self, current_date),
                fields.len() == 9 + log_len,
                0 <= li <= log_len,
                out@ == join_tabs(fields.take(9 + li as int)),
                "\t"@ == seq!['\t'],
            decreases log_len - li,
        {
            let entry = self.fsrs_state.review_log[li].encode();
            out.append("\t");
            let txt = i64_to_string(entry);
            out.append(txt.as_str());
            proof {
                let idx = 9 + li as int;
                assert(fields[idx] == self.fsrs_state.review_log@.map_values(
                    |item: ReviewLogItem| int_text_of(encode_of(item.answer, item.day.day) as int),
                )[li as int]);
                assert(fields.take(idx + 1) =~= fields.take(idx).push(fields[idx]));
                lemma_join_tabs_push(fields.take(idx), fields[idx]);
                assert(out@ =~= join_tabs(fields.take(idx + 1)));
            }
            li = li + 1;
        }
        proof {
            assert(fields.take(9 + log_len as int) =~= fields);
        }
        out
    }

    /// Reads a card back from one export row. The errors name the first
    /// fault in reading order; a faultless row always reads back.
    pub fn from_tsv(input: &str, current_date: Date) -> (r: Result<Card, TsvError>)
        ensures
            r is Ok <==> tsv_parse_err(split_tabs(input@), current_date) is None,
            r matches Err(e) ==> Some(e) == tsv_parse_err(split_tabs(input@), current_date),
            r matches Ok(card) ==> tsv_parsed_ok(card, split_tabs(input@), current_date),
    {
        let ghost pview = split_tabs(input@);
        let parts = split_tabs_vec(input);
        let mut card = Card::new();
        if parts.len() < 1 {
            return Err(TsvError::MissingReviewDate);
        }
        let days_to_review = match parse_i32(parts[0].as_str()) {
            Some(v) => v,
            None => {
                return Err(TsvError::InvalidReviewDate);
            },
        };
        card.fsrs_state.review_date = match current_date.checked_add_days(days_to_review) {
            Some(d) => d,
            None => {
                return Err(TsvError::InvalidReviewDate);
            },
        };
        if parts.len() < 2 {
            return Err(TsvError::MissingDifficulty);
        }
        if !is_float_text_str(parts[1].as_str()) {
            return Err(TsvError::InvalidDifficulty);
        }
        card.fsrs_state.difficulty = parts[1].clone();
        if parts.len() < 3 {
            return Err(TsvError::MissingStability);
        }
        if !is_float_text_str(parts[2].as_str()) {
            return Err(TsvError::InvalidStability);
        }
        card.fsrs_state.stability = parts[2].clone();
        if parts.len() < 4 {
            return Err(TsvError::MissingPrefix);
        }
        card.content.prefix = parts[3].clone();
        if parts.len() < 5 {
            return Err(TsvError::MissingFront);
        }
        card.content.front = convert_from_singleline(parts[4].clone());
        if parts.len() < 6 {
            return Err(TsvError::MissingBack);
        }
        card.content.back = convert_from_singleline(parts[5].clone());
        if parts.len() < 7 {
            return Err(TsvError::MissingDateAdded);
        }
        let date_added = match parse_i32(parts[6].as_str()) {
            Some(v) => v,
            None => {
                return Err(TsvError::InvalidDateAdded);
            },
        };
        card.fsrs_state.date_added = match current_date.checked_add_days(date_added) {
            Some(d) => d,
            None => {
                return Err(TsvError::InvalidDateAdded);
            },
        };
        if parts.len() < 8 {
            return Err(TsvError::MissingCompleteHistory);
        }
        card.fsrs_state.complete_history = match parse_bool(parts[7].as_str()) {
            Some(b) => b,
            None => {
                return Err(TsvError::InvalidCompleteHistory);
            },
        };
        if parts.len() < 9 {
            return Err(TsvError::MissingLastReview);
        }
        let last_review = match parse_i32(parts[8].as_str()) {
            Some(v) => v,
            None => {
                return Err(TsvError::InvalidLastReview);
            },
        };
        card.fsrs_state.last_review = match current_date.checked_add_days(last_review) {
            Some(d) => d,
            None => {
                return Err(TsvError::InvalidLastReview);
            },
        };
        let mut k: usize = 9;
        proof {
            assert(tsv_parse_err(pview, current_date) == (if (exists|i: int|
                9 <= i < pview.len() && !log_entry_ok(#[trigger] pview[i])) {
                Some(TsvError::InvalidReviewLog)
            } else {
                None::<TsvError>
            }));
        }
        while k < parts.len()
            invariant
                pview == split_tabs(input@),
                tsv_parse_err(pview, current_date) == (if (exists|i: int|
                    9 <= i < pview.len() && !log_entry_ok(#[trigger] pview[i])) {
                    Some(TsvError::InvalidReviewLog)
                } else {
                    None::<TsvError>
                }),
                parts@.len() == pview.len(),
                forall|i: int| 0 <= i < pview.len() ==> parts@[i]@ == pview[i],
                9 <= k <= pview.len(),
                forall|i: int| 9 <= i < k ==> log_entry_ok(#[trigger] pview[i]),
                card.fsrs_state.review_log@.len() == k - 9,
                forall|i: int|
                    0 <= i < k - 9 ==> #[trigger] card.fsrs_state.review_log@[i] == decode_of(
                        int_text_val(pview[i + 9]) as i64,
                    )->Ok_0,
                card.fsrs_state.review_date.day == current_date.day + int_text_val(pview[0]),
                card.fsrs_state.difficulty@ == pview[1],
                card.fsrs_state.stability@ == pview[2],
                card.content.prefix@ == pview[3],
                card.content.front@ == multiline_of(pview[4]),
                card.content.back@ == multiline_of(pview[5]),
                card.fsrs_state.date_added.day == current_date.day + int_text_val(pview[6]),
                card.fsrs_state.complete_history == (pview[7] == bool_text_of(true)),
                card.fsrs_state.last_review.day == current_date.day + int_text_val(pview[8]),
                !card.fsrs_state.buried,
                card.content.editable,
                card.content.base is None,
                card.content.cloze_index is None,
            decreases parts@.len() - k,
        {
            proof {
                assert(parts@[k as int]@ == pview[k as int]);
            }
            let encoded = match parse_i64(parts[k].as_str()) {
                Some(v) => v,
                None => {
                    proof {
                        assert(!log_entry_ok(pview[k as int]));
                    }
                    return Err(TsvError::InvalidReviewLog);
                },
            };
            proof {
                assert(int_text_val(pview[k as int]) as i64 == encoded);
            }
            let item = match ReviewLogItem::from(encoded) {
                Ok(item) => item,
                Err(_) => {
                    proof {
                        assert(!log_entry_ok(pview[k as int]));
                    }
                    return Err(TsvError::InvalidReviewLog);
                },
            };
            proof {
                assert(log_entry_ok(pview[k as int]));
            }
            card.fsrs_state.review_log.push(item);
            k = k + 1;
        }
        Ok(card)
    }
}


/// Rendering a card as an export row, reading the row back, and rendering
/// again gives the identical row. This holds for every card whose prefix
/// holds no tab, whose front and back do not already contain a bracketed
/// escape form, whose numeral texts are well formed, whose recorded days
/// are nonnegative, and whose day offsets fit the row's integer fields.
pub proof fn lemma_tsv_roundtrip(card: Card, date: Date, card2: Card)
    requires
        i32::MIN <= card.fsrs_state.review_date.day - date.day <= i32::MAX,
        i32::MIN <= card.fsrs_state.date_added.day - date.day <= i32::MAX,
        i32::MIN <= card.fsrs_state.last_review.day - date.day <= i32::MAX,
        tab_free(card.content.prefix@),
        is_float_text(card.fsrs_state.difficulty@),
        is_float_text(card.fsrs_state.stability@),
        roundtrip_safe(card.content.front@),
        roundtrip_safe(card.content.back@),
        forall|i: int|
            0 <= i < card.fsrs_state.review_log@.len()
                ==> #[trigger] card.fsrs_state.review_log@[i].day.day >= 0,
    ensures
        split_tabs(tsv_text_of(card, date)) == tsv_fields_of(card, date),
        tsv_parse_err(split_tabs(tsv_text_of(card, date)), date) is None,
        tsv_parsed_ok(card2, split_tabs(tsv_text_of(card, date)), date) ==> tsv_text_of(
            card2,
            date,
        ) == tsv_text_of(card, date),
{
    let fields = tsv_fields_of(card, date);
    let st = card.fsrs_state;
    let log = st.review_log@;
    let logmap = log.map_values(
        |item: ReviewLogItem| int_text_of(encode_of(item.answer, item.day.day) as int),
    );
    assert(fields.len() == 9 + log.len());
    lemma_int_text_roundtrip(st.review_date.day - date.day);
    lemma_int_text_roundtrip(st.date_added.day - date.day);
    lemma_int_text_roundtrip(st.last_review.day - date.day);
    lemma_float_text_tab_free(st.difficulty@);
    lemma_float_text_tab_free(st.stability@);
    lemma_singleline_clean(card.content.front@);
    lemma_singleline_clean(card.content.back@);
    assert(tab_free(singleline_of(card.content.front@))) by {
        assert(line_clean(singleline_of(card.content.front@)));
    }
    assert(tab_free(singleline_of(card.content.back@))) by {
        assert(line_clean(singleline_of(card.content.back@)));
    }
    let fr = st.complete_history && log.len() == 0;
    assert(tab_free(bool_text_of(fr))) by {
        assert forall|i: int| 0 <= i < bool_text_of(fr).len() implies bool_text_of(fr)[i] != '\t'
            by {}
    }
    assert forall|i: int| 0 <= i < log.len() implies log_entry_ok(#[trigger] logmap[i]) && tab_free(
        logmap[i],
    ) && logmap[i].len() > 0 by {
        let e = encode_of(log[i].answer, log[i].day.day);
        lemma_int_text_roundtrip(e as int);
        crate::fsrs::lemma_review_log_roundtrip(log[i]);
        assert(logmap[i] == int_text_of(e as int));
        assert(int_text_val(logmap[i]) == e as int);
        assert(is_int_text(logmap[i]));
    }
    assert forall|i: int| 0 <= i < fields.len() implies tab_free(#[trigger] fields[i]) by {
        if i >= 9 {
            assert(fields[i] == logmap[i - 9]);
        }
    }
    assert(fields.last().len() > 0) by {
        if log.len() == 0 {
            assert(fields.last() == int_text_of(st.last_review.day - date.day));
            assert(is_int_text(fields.last()));
        } else {
            assert(fields.last() == logmap[log.len() - 1]);
        }
    }
    lemma_split_join(fields);
    let parts = split_tabs(tsv_text_of(card, date));
    assert(parts == fields);
    assert(tsv_parse_err(parts, date) is None) by {
        assert(parts[0] == int_text_of(st.review_date.day - date.day));
        assert(int_text_val(parts[0]) == st.review_date.day - date.day);
        assert(parts[6] == int_text_of(st.date_added.day - date.day));
        assert(parts[8] == int_text_of(st.last_review.day - date.day));
        assert(parts[7] == bool_text_of(fr));
        assert(fr ==> parts[7] == bool_text_of(true));
        assert(!fr ==> parts[7] == bool_text_of(false));
        assert forall|k: int| 9 <= k < parts.len() implies log_entry_ok(#[trigger] parts[k]) by {
            assert(parts[k] == logmap[k - 9]);
        }
    }
    if tsv_parsed_ok(card2, parts, date) {
        lemma_singleline_roundtrip(card.content.front@);
        lemma_singleline_roundtrip(card.content.back@);
        assert(card2.content.front@ == card.content.front@);
        assert(card2.content.back@ == card.content.back@);
        assert(card2.fsrs_state.review_date.day == st.review_date.day);
        assert(card2.fsrs_state.date_added.day == st.date_added.day);
        assert(card2.fsrs_state.last_review.day == st.last_review.day);
        let fr2 = card2.fsrs_state.complete_history && card2.fsrs_state.review_log@.len() == 0;
        assert(card2.fsrs_state.complete_history == fr) by {
            if fr {
                assert(parts[7] == bool_text_of(true));
            } else {
                assert(bool_text_of(true).len() != bool_text_of(false).len());
                assert(parts[7] != bool_text_of(true));
            }
        }
        assert(card2.fsrs_state.review_log@.len() == log.len());
        assert(fr2 == fr);
        let log2map = card2.fsrs_state.review_log@.map_values(
            |item: ReviewLogItem| int_text_of(encode_of(item.answer, item.day.day) as int),
        );
        assert forall|i: int| 0 <= i < log.len() implies #[trigger] log2map[i] == logmap[i] by {
            let e = encode_of(log[i].answer, log[i].day.day);
            crate::fsrs::lemma_review_log_roundtrip(log[i]);
            lemma_int_text_roundtrip(e as int);
            assert(card2.fsrs_state.review_log@[i] == decode_of(
                int_text_val(parts[i + 9]) as i64,
            )->Ok_0);
            assert(parts[i + 9] == logmap[i - 0]);
            assert(int_text_val(logmap[i]) == e as int);
            assert(card2.fsrs_state.review_log@[i] == log[i]);
        }
        let fields2 = tsv_fields_of(card2, date);
        assert(fields2 =~= fields);
    }
}


/// The mathematical shadow of a card's content.
pub struct ContentModel {
    pub prefix: Seq<char>,
    pub front: Seq<char>,
    pub back: Seq<char>,
    pub editable: bool,
    pub base: Option<int>,
    pub cloze_index: Option<int>,
}

/// The mathematical shadow of a memory state: day numbers as integers,
/// numeral texts as character sequences.
pub struct StateModel {
    pub date_added: int,
    pub last_review: int,
    pub review_date: int,
    pub difficulty: Seq<char>,
    pub stability: Seq<char>,
    pub buried: bool,
    pub complete_history: bool,
    pub review_log: Seq<ReviewLogItem>,
}

/// The mathematical shadow of a card.
pub struct CardModel {
    pub content: ContentModel,
    pub state: StateModel,
}

impl View for FSRSState {
    type V = StateModel;

    open spec fn view(&self) -> StateModel {
        StateModel {
            date_added: self.date_added.day as int,
            last_review: self.last_review.day as int,
            review_date: self.review_date.day as int,
            difficulty: self.difficulty@,
            stability: self.stability@,
            buried: self.buried,
            complete_history: self.complete_history,
            review_log: self.review_log@,
        }
    }
}

impl View for CardContent {
    type V = ContentModel;

    open spec fn view(&self) -> ContentModel {
        ContentModel {
            prefix: self.prefix@,
            front: self.front@,
            back: self.back@,
            editable: self.editable,
            base: match self.base {
                Some(u) => Some(u as int),
                None => None,
            },
            cloze_index: match self.cloze_index {
                Some(u) => Some(u as int),
                None => None,
            },
        }
    }
}

impl View for Card {
    type V = CardModel;

    open spec fn view(&self) -> CardModel {
        CardModel { content: self.content@, state: self.fsrs_state@ }
    }
}

/// The views of a sequence of cards.
pub open spec fn views_of(cs: Seq<Card>) -> Seq<CardModel> {
    cs.map_values(|c: Card| c@)
}

/// A memory state as `FSRSState::new` makes it on the given day.
pub open spec fn fresh_state_model(date: int) -> StateModel {
    StateModel {
        date_added: date,
        last_review: date,
        review_date: date,
        difficulty: "0"@,
        stability: "0"@,
        buried: false,
        complete_history: true,
        review_log: Seq::empty(),
    }
}

/// The identity key of a card: prefix and front, concatenated.
pub open spec fn key_of(c: CardModel) -> Seq<char> {
    c.content.prefix + c.content.front
}

impl FSRSState {
    /// A field-for-field copy.
    pub fn duplicate(&self) -> (r: FSRSState)
        ensures
            r@ == self@,
            r.date_added == self.date_added,
            r.last_review == self.last_review,
            r.review_date == self.review_date,
    {
        let mut log: Vec<ReviewLogItem> = Vec::new();
        let mut i: usize = 0;
        while i < self.review_log.len()
            invariant
                0 <= i <= self.review_log@.len(),
                log@ == self.review_log@.take(i as int),
            decreases self.review_log@.len() - i,
        {
            log.push(self.review_log[i]);
            proof {
                assert(self.review_log@.take(i + 1) =~= self.review_log@.take(i as int).push(
                    self.review_log@[i as int],
                ));
            }
            i = i + 1;
        }
        proof {
            assert(self.review_log@.take(i as int) =~= self.review_log@);
        }
        FSRSState {
            date_added: self.date_added,
            last_review: self.last_review,
            review_date: self.review_date,
            difficulty: self.difficulty.clone(),
            stability: self.stability.clone(),
            buried: self.buried,
            complete_history: self.complete_history,
            review_log: log,
        }
    }
}

impl CardContent {
    /// A field-for-field copy.
    pub fn duplicate(&self) -> (r: CardContent)
        ensures
            r@ == self@,
    {
        CardContent {
            prefix: self.prefix.clone(),
            front: self.front.clone(),
            back: self.back.clone(),
            editable: self.editable,
            base: self.base,
            cloze_index: self.cloze_index,
        }
    }
}

impl Card {
    /// A field-for-field copy.
    pub fn duplicate(&self) -> (r: Card)
        ensures
            r@ == self@,
    {
        Card { content: self.content.duplicate(), fsrs_state: self.fsrs_state.duplicate() }
    }
}

/// The front text of a derived card in the plain cloze styles: the root's
/// front, a blank line, and the back text with the hidden span replaced by
/// a placeholder and every sibling span shown plainly.
pub open spec fn basic_front_of(
    root_front: Seq<char>,
    s: Seq<char>,
    st: int,
    cp: int,
    open: Seq<char>,
    close: Seq<char>,
) -> Seq<char> {
    root_front + seq!['\n', '\n'] + replace_from(s.take(st), 0, open, close) + seq![
        '{',
        '.',
        '.',
        '.',
        '}',
    ] + replace_from(s.skip(cp + 3), 0, open, close)
}

/// The `m`-th derived card of a root card under the plain cloze styles.
pub open spec fn derived_card_model(
    root: CardModel,
    base_idx: int,
    m: int,
    open: Seq<char>,
    close: Seq<char>,
) -> CardModel {
    let (st, cp) = spans_of(root.content.back, 0, open, close)[m];
    CardModel {
        content: ContentModel {
            prefix: root.content.prefix,
            front: basic_front_of(root.content.front, root.content.back, st, cp, open, close),
            back: clozed_of(root.content.back, st, cp),
            editable: false,
            base: Some(base_idx),
            cloze_index: Some(m),
        },
        state: fresh_state_model(root.state.date_added),
    }
}

/// All derived cards of a root card under the plain cloze styles.
pub open spec fn derived_cards_of(
    root: CardModel,
    base_idx: int,
    open: Seq<char>,
    close: Seq<char>,
) -> Seq<CardModel> {
    Seq::new(
        spans_of(root.content.back, 0, open, close).len(),
        |m: int| derived_card_model(root, base_idx, m, open, close),
    )
}

/// What adding one authored card does to a collection under construction:
/// a card whose back holds a complete brace span is expanded in the brace
/// style, else one with a complete paren span in the paren style, and a
/// card with no complete span stays reviewable as it is.
pub open spec fn create_cards_step(
    cards: Seq<CardModel>,
    bases: Seq<CardModel>,
    c: CardModel,
) -> (Seq<CardModel>, Seq<CardModel>) {
    let has_brace = cloze_span(c.content.back, 0, brace_open(), brace_close()) is Some;
    let has_paren = cloze_span(c.content.back, 0, paren_open(), paren_close()) is Some;
    if !has_brace && !has_paren {
        (cards.push(c), bases)
    } else if has_brace {
        (
            cards + derived_cards_of(c, bases.len() as int, brace_open(), brace_close()),
            bases.push(c),
        )
    } else {
        (
            cards + derived_cards_of(c, bases.len() as int, paren_open(), paren_close()),
            bases.push(c),
        )
    }
}

/// The collection built from a sequence of authored cards.
pub open spec fn build_collection(
    inputs: Seq<CardModel>,
    cards: Seq<CardModel>,
    bases: Seq<CardModel>,
) -> (Seq<CardModel>, Seq<CardModel>)
    decreases inputs.len(),
{
    if inputs.len() == 0 {
        (cards, bases)
    } else {
        let (c1, b1) = create_cards_step(cards, bases, inputs[0]);
        build_collection(inputs.skip(1), c1, b1)
    }
}

/// Replaces every cloze span of `input` by its hidden content.
pub fn replace_cloze(input: &str, cloze_type: ClozeType) -> (r: String)
    requires
        cloze_type is TripleBrace || cloze_type is TripleParen,
    ensures
        cloze_type is TripleBrace ==> r@ == replace_from(input@, 0, brace_open(), brace_close()),
        cloze_type is TripleParen ==> r@ == replace_from(input@, 0, paren_open(), paren_close()),
{
    let ghost o = if cloze_type is TripleBrace {
        brace_open()
    } else {
        paren_open()
    };
    let ghost c = if cloze_type is TripleBrace {
        brace_close()
    } else {
        paren_close()
    };
    let n = input.unicode_len();
    let mut it = ClozeIterator::new(cloze_type, input.to_owned());
    let mut out = String::new();
    let mut prev: usize = 0;
    proof {
        assert(input@.skip(0) =~= input@);
    }
    loop
        invariant_except_break
            it.input@ == input@,
            it.cloze_type == cloze_type,
            it.wf(),
            cloze_type is TripleBrace || cloze_type is TripleParen,
            o == (if cloze_type is TripleBrace {
                brace_open()
            } else {
                paren_open()
            }),
            c == (if cloze_type is TripleBrace {
                brace_close()
            } else {
                paren_close()
            }),
            n == input@.len(),
            prev == it.curr,
            prev <= n,
            replace_from(input@, 0, o, c) == out@ + replace_from(input@, it.curr as int, o, c),
        ensures
            out@ == replace_from(input@, 0, o, c),
        decreases n - prev,
    {
        let ghost out0 = out@;
        let ghost cur0 = it.curr as int;
        match it.next() {
            None => {
                out.append(input.substring_char(prev, n));
                proof {
                    assert(input@.subrange(prev as int, n as int) =~= input@.skip(prev as int));
                    assert(replace_from(input@, cur0, o, c) == input@.skip(cur0));
                }
                break ;
            },
            Some(item) => {
                proof {
                    let (st, cp) = cloze_span(input@, cur0, o, c)->Some_0;
                    crate::parsing::lemma_find_pos_props(input@, o, cur0);
                    crate::parsing::lemma_find_pos_props(input@, c, st);
                }
                out.append(input.substring_char(prev, item.cloze_start));
                out.append(item.clozed.as_str());
                prev = item.cloze_end;
                proof {
                    let (st, cp) = cloze_span(input@, cur0, o, c)->Some_0;
                    assert(out@ =~= out0 + input@.subrange(cur0, st) + clozed_of(input@, st, cp));
                    assert(replace_from(input@, cur0, o, c) == input@.subrange(cur0, st)
                        + clozed_of(input@, st, cp) + replace_from(input@, cp + 3, o, c));
                    assert(out@ + replace_from(input@, it.curr as int, o, c) =~= out0
                        + replace_from(input@, cur0, o, c));
                }
            },
        }
    }
    out
}


/// A freshly expanded card set: the authored base cards that produced
/// derivations, and the full reviewable set.
#[derive(Debug)]
pub struct CardCollection {
    pub base_cards: Vec<Card>,
    pub cards: Vec<Card>,
}

/// The documented collection invariant: every derived card's base index is
/// valid within the base cards.
pub open spec fn collection_wf(cards: Seq<CardModel>, bases: Seq<CardModel>) -> bool {
    forall|i: int|
        0 <= i < cards.len() ==> (#[trigger] cards[i].content.base matches Some(b) ==> 0 <= b
            < bases.len())
}

impl CardCollection {
    /// Expands one root card with plain cloze markers: one derived card
    /// per span, then the root joins the base cards.
    fn create_basic_cloze_cards(&mut self, card: Card, cloze_type: ClozeType)
        requires
            cloze_type is TripleBrace || cloze_type is TripleParen,
        ensures
            ({
                let o = if cloze_type is TripleBrace {
                    brace_open()
                } else {
                    paren_open()
                };
                let c = if cloze_type is TripleBrace {
                    brace_close()
                } else {
                    paren_close()
                };
                &&& views_of(final(self).cards@) == views_of(old(self).cards@) + derived_cards_of(
                    card@,
                    old(self).base_cards@.len() as int,
                    o,
                    c,
                )
                &&& views_of(final(self).base_cards@) == views_of(old(self).base_cards@).push(
                    card@,
                )
            }),
    {
        let ghost o = if cloze_type is TripleBrace {
            brace_open()
        } else {
            paren_open()
        };
        let ghost cc = if cloze_type is TripleBrace {
            brace_close()
        } else {
            paren_close()
        };
        let ghost s = card.content.back@;
        let ghost spans = spans_of(s, 0, o, cc);
        let ghost cards0 = views_of(self.cards@);
        let ghost bases0 = views_of(self.base_cards@);
        let ghost cardm = card@;
        let base_idx = self.base_cards.len();
        let n = card.content.back.as_str().unicode_len();
        let mut it = ClozeIterator::new(cloze_type, card.content.back.clone());
        let mut count: usize = 0;
        proof {
            assert(spans.skip(0) =~= spans);
            crate::parsing::lemma_spans_len(s, 0, o, cc);
        }
        loop
            invariant_except_break
                it.input@ == s,
                it.cloze_type == cloze_type,
                it.wf(),
                cloze_type is TripleBrace || cloze_type is TripleParen,
                o == (if cloze_type is TripleBrace {
                    brace_open()
                } else {
                    paren_open()
                }),
                cc == (if cloze_type is TripleBrace {
                    brace_close()
                } else {
                    paren_close()
                }),
                spans == spans_of(s, 0, o, cc),
                n == s.len(),
                spans.len() <= n,
                cardm == card@,
                s == card.content.back@,
                cardm.content.back == s,
                0 <= count,
                count + spans_of(s, it.curr as int, o, cc).len() == spans.len(),
                spans.skip(count as int) == spans_of(s, it.curr as int, o, cc),
                it.curr <= s.len(),
                base_idx == self.base_cards@.len(),
                views_of(self.base_cards@) == bases0,
                views_of(self.cards@) == cards0 + derived_cards_of(cardm, base_idx as int, o, cc).take(count as int),
            ensures
                views_of(self.base_cards@) == bases0,
                views_of(self.cards@) == cards0 + derived_cards_of(
                    cardm,
                    base_idx as int,
                    o,
                    cc,
                ),
            decreases s.len() - it.curr,
        {
            let ghost cur0 = it.curr as int;
            match it.next() {
                None => {
                    proof {
                        assert(spans_of(s, cur0, o, cc) =~= Seq::<(int, int)>::empty());
                        assert(spans.skip(count as int) =~= Seq::<(int, int)>::empty());
                        assert(count == spans.len());
                        assert(derived_cards_of(cardm, base_idx as int, o, cc).take(
                            count as int,
                        ) =~= derived_cards_of(cardm, base_idx as int, o, cc));
                    }
                    break ;
                },
                Some(item) => {
                    proof {
                        let (st, cp) = cloze_span(s, cur0, o, cc)->Some_0;
                        crate::parsing::lemma_find_pos_props(s, o, cur0);
                        crate::parsing::lemma_find_pos_props(s, cc, st);
                        assert(spans_of(s, cur0, o, cc) == seq![(st, cp)] + spans_of(
                            s,
                            cp + 3,
                            o,
                            cc,
                        ));
                        assert(spans.skip(count as int)[0] == (st, cp));
                        assert(spans[count as int] == (st, cp));
                    }
                    let mut cloze_front = copy_front(&card);
                    cloze_front.append("\n\n");
                    let before_repl = replace_cloze(item.before.as_str(), cloze_type);
                    cloze_front.append(before_repl.as_str());
                    cloze_front.append("{...}");
                    let after_repl = replace_cloze(item.after.as_str(), cloze_type);
                    cloze_front.append(after_repl.as_str());
                    let cloze_card = Card {
                        fsrs_state: FSRSState::new(card.fsrs_state.date_added),
                        content: CardContent {
                            prefix: card.content.prefix.clone(),
                            front: cloze_front,
                            back: item.clozed,
                            editable: false,
                            base: Some(base_idx),
                            cloze_index: Some(count),
                        },
                    };
                    proof {
                        let (st, cp) = cloze_span(s, cur0, o, cc)->Some_0;
                        reveal_strlit("\n\n");
                        reveal_strlit("{...}");
                        assert("\n\n"@ =~= seq!['\n', '\n']);
                        assert("{...}"@ =~= seq!['{', '.', '.', '.', '}']);
                        assert(cloze_card@.content.front =~= basic_front_of(
                            cardm.content.front,
                            s,
                            st,
                            cp,
                            o,
                            cc,
                        ));
                        assert(cloze_card.fsrs_state.review_log@ =~= Seq::<
                            ReviewLogItem,
                        >::empty());
                        assert(cloze_card@.state == fresh_state_model(cardm.state.date_added));
                        assert(cloze_card@.content.back == clozed_of(s, st, cp));
                        assert(cloze_card@ == derived_card_model(
                            cardm,
                            base_idx as int,
                            count as int,
                            o,
                            cc,
                        ));
                    }
                    self.cards.push(cloze_card);
                    proof {
                        let derived = derived_cards_of(cardm, base_idx as int, o, cc);
                        assert(count < spans.len());
                        assert(derived[count as int] == derived_card_model(
                            cardm,
                            base_idx as int,
                            count as int,
                            o,
                            cc,
                        ));
                        assert(derived.take(count + 1) =~= derived.take(count as int).push(
                            derived[count as int],
                        ));
                        assert(views_of(self.cards@) =~= (cards0 + derived.take(
                            count as int,
                        )).push(cloze_card@));
                        assert((cards0 + derived.take(count as int)).push(cloze_card@)
                            =~= cards0 + derived.take(count + 1));
                        let (st, cp) = cloze_span(s, cur0, o, cc)->Some_0;
                        assert(spans.skip(count as int).skip(1) =~= spans.skip(count + 1));
                    }
                    count = count + 1;
                },
            }
        }
        self.base_cards.push(card);
        proof {
            assert(views_of(self.base_cards@) =~= bases0.push(cardm));
        }
    }

    /// Adds one authored card: expands it in the brace style when its back
    /// holds a complete brace span, in the paren style when it holds a
    /// complete paren span, and keeps it reviewable as it is otherwise.
    fn create_cards(&mut self, card: Card)
        ensures
            (views_of(final(self).cards@), views_of(final(self).base_cards@))
                == create_cards_step(
                views_of(old(self).cards@),
                views_of(old(self).base_cards@),
                card@,
            ),
    {
        proof {
            reveal_strlit("{{{");
            reveal_strlit("}}}");
            reveal_strlit("(((");
            reveal_strlit(")))");
            assert("{{{"@ =~= brace_open());
            assert("}}}"@ =~= brace_close());
            assert("((("@ =~= paren_open());
            assert(")))"@ =~= paren_close());
        }
        let back = card.content.back.as_str();
        let has_triple_braces = has_complete_span(back, "{{{", "}}}");
        let has_triple_paren = has_complete_span(back, "(((", ")))");
        if !has_triple_paren && !has_triple_braces {
            self.cards.push(card);
            proof {
                assert(views_of(self.cards@) =~= views_of(old(self).cards@).push(card@));
            }
        } else if has_triple_braces {
            self.create_basic_cloze_cards(card, ClozeType::TripleBrace);
        } else {
            self.create_basic_cloze_cards(card, ClozeType::TripleParen);
        }
    }

    /// Builds a collection from authored cards, expanding cloze markers.
    pub fn from(cards: Vec<Card>) -> (r: Result<CardCollection, ()>)
        ensures
            r is Ok,
            r matches Ok(col) ==> (views_of(col.cards@), views_of(col.base_cards@))
                == build_collection(views_of(cards@), Seq::empty(), Seq::empty()),
    {
        let ghost inputs = views_of(cards@);
        let mut collection = CardCollection { cards: Vec::new(), base_cards: Vec::new() };
        let mut rest = cards;
        proof {
            assert(views_of(rest@).skip(0) =~= views_of(rest@));
            assert(views_of(collection.cards@) =~= Seq::<CardModel>::empty());
            assert(views_of(collection.base_cards@) =~= Seq::<CardModel>::empty());
        }
        while rest.len() > 0
            invariant
                build_collection(
                    views_of(rest@),
                    views_of(collection.cards@),
                    views_of(collection.base_cards@),
                ) == build_collection(inputs, Seq::empty(), Seq::empty()),
            decreases rest@.len(),
        {
            let ghost rv = views_of(rest@);
            let card = rest.remove(0);
            proof {
                assert(views_of(rest@) =~= rv.skip(1));
                assert(rv[0] == card@);
            }
            collection.create_cards(card);
        }
        proof {
            assert(views_of(rest@).len() == 0);
        }
        Ok(collection)
    }
}


/// Decides whether the text holds a complete delimited span: an opening
/// delimiter with a closing one at or after it.
fn has_complete_span(s: &str, open: &str, close: &str) -> (r: bool)
    ensures
        r == (cloze_span(s@, 0, open@, close@) is Some),
{
    match find_from(s, open, 0) {
        None => {
            proof {
                crate::parsing::lemma_find_pos_none(s@, open@, 0);
            }
            false
        },
        Some(st) => {
            proof {
                crate::parsing::lemma_find_pos_some(s@, open@, 0, st as int);
            }
            match find_from(s, close, st) {
                None => {
                    proof {
                        crate::parsing::lemma_find_pos_none(s@, close@, st as int);
                    }
                    false
                },
                Some(cp) => {
                    proof {
                        crate::parsing::lemma_find_pos_some(s@, close@, st as int, cp as int);
                    }
                    true
                },
            }
        },
    }
}

/// A copy of a card's front text.
fn copy_front(card: &Card) -> (r: String)
    ensures
        r@ == card.content.front@,
{
    card.content.front.clone()
}


/// The `m`-th derived card of a root under the line-based style: one line
/// hidden, `k` lines of context each side, truncated context marked with
/// ellipses, and the hidden line re-wrapped in brace markers on the back.
pub open spec fn line_derived_model(root: CardModel, base_idx: int, m: int, k: int) -> CardModel {
    let s = root.content.back;
    let starts = line_starts_of(s, 0);
    let bidx = if m >= k {
        m - k
    } else {
        0int
    };
    let aidx = if m + k < starts.len() {
        m + k
    } else {
        starts.len() - 1
    };
    let bstart = starts[bidx];
    let cs = starts[m];
    let ce = line_end_of(s, cs);
    let ae = line_end_of(s, starts[aidx]);
    let front = (if bstart == 0 {
        Seq::<char>::empty()
    } else {
        seq!['.', '.', '.', '\n']
    }) + s.subrange(bstart, cs) + seq!['{', '.', '.', '.', '}'] + s.subrange(ce, ae) + (if ae
        >= s.len() - 1 {
        Seq::<char>::empty()
    } else {
        seq!['\n', '.', '.', '.']
    });
    let back = seq!['{', '{', '{'] + s.subrange(cs, ce) + seq!['}', '}', '}'];
    CardModel {
        content: ContentModel {
            prefix: root.content.prefix,
            front,
            back,
            editable: false,
            base: Some(base_idx),
            cloze_index: Some(m),
        },
        state: fresh_state_model(root.state.date_added),
    }
}

/// All line-based derived cards of a root card.
pub open spec fn line_derived_cards(root: CardModel, base_idx: int, k: int) -> Seq<CardModel> {
    Seq::new(
        line_starts_of(root.content.back, 0).len(),
        |m: int| line_derived_model(root, base_idx, m, k),
    )
}

impl CardCollection {
    /// Expands one root card in the line-based style: one derived card per
    /// non-blank line of the back text. The root itself is not added to
    /// the base cards here.
    pub fn create_cloze_cards(&mut self, card: &Card, cloze_type: ClozeType)
        requires
            cloze_type matches ClozeType::Lines(st) && st.lines_before_after >= 0,
        ensures
            ({
                let k = (cloze_type->Lines_0).lines_before_after as int;
                &&& views_of(final(self).cards@) == views_of(old(self).cards@)
                    + line_derived_cards(card@, old(self).base_cards@.len() as int, k)
                &&& final(self).base_cards == old(self).base_cards
            }),
    {
        proof {
            reveal_strlit("...\n");
            reveal_strlit("{...}");
            reveal_strlit("\n...");
            reveal_strlit("{{{");
            reveal_strlit("}}}");
        }
        let ghost s = card.content.back@;
        let ghost starts = line_starts_of(s, 0);
        let ghost cards0 = views_of(self.cards@);
        let ghost cardm = card@;
        let settings = match cloze_type {
            ClozeType::Lines(st) => st,
            _ => LineSettings { lines_before_after: 0 },
        };
        let ghost k = settings.lines_before_after as int;
        let ghost derived = line_derived_cards(cardm, self.base_cards@.len() as int, k);
        let base_idx = self.base_cards.len();
        let n = card.content.back.as_str().unicode_len();
        let mut it = ClozeIterator::new(cloze_type, card.content.back.clone());
        let mut m: usize = 0;
        proof {
            lemma_line_starts(s, 0);
            crate::parsing::lemma_line_starts_len(s, 0);
            assert(derived.take(0) =~= Seq::<CardModel>::empty());
            assert(cards0 + derived.take(0) =~= cards0);
        }
        loop
            invariant_except_break
                it.input@ == s,
                it.wf(),
                it.cloze_type == cloze_type,
                it.curr == 0,
                cloze_type matches ClozeType::Lines(st2) && st2 == settings,
                settings.lines_before_after >= 0,
                k == settings.lines_before_after as int,
                s == card.content.back@,
                cardm == card@,
                cardm.content.back == s,
                n == s.len(),
                starts == line_starts_of(s, 0),
                derived == line_derived_cards(cardm, base_idx as int, k),
                derived.len() == starts.len(),
                0 <= m,
                m <= starts.len(),
                starts.len() <= n,
                (match it.quote_word_index {
                    None => m == 0,
                    Some(v) => v as int == m as int,
                }),
                base_idx == self.base_cards@.len(),
                self.base_cards == old(self).base_cards,
                views_of(self.cards@) == cards0 + derived.take(m as int),
                "...\n"@ == seq!['.', '.', '.', '\n'],
                "{...}"@ == seq!['{', '.', '.', '.', '}'],
                "\n..."@ == seq!['\n', '.', '.', '.'],
                "{{{"@ == seq!['{', '{', '{'],
                "}}}"@ == seq!['}', '}', '}'],
            ensures
                self.base_cards == old(self).base_cards,
                views_of(self.cards@) == cards0 + derived,
            decreases starts.len() - m,
        {
            match it.next() {
                None => {
                    proof {
                        assert(m == starts.len());
                        assert(derived.take(m as int) =~= derived);
                    }
                    break ;
                },
                Some(item) => {
                    proof {
                        lemma_line_starts(s, 0);
                        crate::parsing::lemma_line_end_bound(s, starts[m as int]);
                    }
                    let mut cloze_front: String;
                    let blen = item.before.as_str().unicode_len();
                    if !(blen == item.cloze_start) {
                        cloze_front = String::from_str("...\n");
                    } else {
                        cloze_front = String::new();
                    }
                    cloze_front.append(item.before.as_str());
                    cloze_front.append("{...}");
                    cloze_front.append(item.after.as_str());
                    if !(item.cloze_end >= n - 1) {
                        cloze_front.append("\n...");
                    }
                    let mut cloze_back = String::from_str("{{{");
                    cloze_back.append(item.clozed.as_str());
                    cloze_back.append("}}}");
                    let cloze_card = Card {
                        fsrs_state: FSRSState::new(card.fsrs_state.date_added),
                        content: CardContent {
                            prefix: card.content.prefix.clone(),
                            front: cloze_front,
                            back: cloze_back,
                            editable: false,
                            base: Some(base_idx),
                            cloze_index: Some(m),
                        },
                    };
                    proof {
                        let model = line_derived_model(cardm, base_idx as int, m as int, k);
                        let bidx = if m as int >= k {
                            m as int - k
                        } else {
                            0int
                        };
                        assert(starts[bidx] >= 0);
                        assert(item.before@.len() == starts[m as int] - starts[bidx]);
                        assert((blen == item.cloze_start) == (starts[bidx] == 0));
                        assert(cloze_card.fsrs_state.review_log@ =~= Seq::<
                            ReviewLogItem,
                        >::empty());
                        assert(cloze_card@.content.front =~= model.content.front);
                        assert(cloze_card@.content.back =~= model.content.back);
                        assert(cloze_card@ == model);
                    }
                    self.cards.push(cloze_card);
                    proof {
                        assert(derived[m as int] == line_derived_model(
                            cardm,
                            base_idx as int,
                            m as int,
                            k,
                        ));
                        assert(derived.take(m + 1) =~= derived.take(m as int).push(
                            derived[m as int],
                        ));
                        assert(views_of(self.cards@) =~= (cards0 + derived.take(m as int)).push(
                            cloze_card@,
                        ));
                        assert((cards0 + derived.take(m as int)).push(cloze_card@) =~= cards0
                            + derived.take(m + 1));
                    }
                    m = m + 1;
                },
            }
        }
    }

    /// Expands a root card whose metadata selects a derivation mode; only
    /// the line mode exists.
    pub fn create_special_cards(&mut self, card: &Card, metadata: CardMetadata)
        requires
            metadata.card_type@ == "line"@,
            metadata.surrounding_lines <= 0x7FFF_FFFF,
        ensures
            ({
                let k = metadata.surrounding_lines as int;
                &&& views_of(final(self).cards@) == views_of(old(self).cards@)
                    + line_derived_cards(card@, old(self).base_cards@.len() as int, k)
                &&& final(self).base_cards == old(self).base_cards
            }),
    {
        self.create_cloze_cards(
            card,
            ClozeType::Lines(
                LineSettings { lines_before_after: metadata.surrounding_lines as i32 },
            ),
        );
    }
}


impl PartialEq for CardContent {
    /// Content equality is identity equality: the prefix and the front.
    fn eq(&self, other: &Self) -> bool {
        self.front == other.front && self.prefix == other.prefix
    }
}

impl vstd::std_specs::cmp::PartialEqSpecImpl for CardContent {
    open spec fn obeys_eq_spec() -> bool {
        true
    }

    open spec fn eq_spec(&self, other: &Self) -> bool {
        self.front@ == other.front@ && self.prefix@ == other.prefix@
    }
}


} // verus!
