//! Per-card memory state and its review transitions. The continuous part of
//! the model (difficulty and stability) is carried as decimal text and is
//! recomputed outside the verified core; this module owns everything
//! discrete: the review log, the bury flag, and the scheduling dates.

use crate::date::Date;
use vstd::prelude::*;

verus! {

/// The outcome of answering a card. `Bury` is a pseudo-outcome: it only sets
/// the bury flag and never touches the memory model.
#[derive(Clone, Copy, Debug, PartialEq, Eq, Structural)]
pub enum ReviewAnswer {
    Again,
    Hard,
    Good,
    Easy,
    Bury,
}

/// What the session should do with the answered card.
#[derive(Clone, Copy, Debug, PartialEq, Eq, Structural)]
pub enum ReviewResult {
    Again,
    Discard,
}

/// One recorded review: the outcome and the day it happened.
#[derive(Clone, Copy, Debug, PartialEq, Eq, Structural)]
pub struct ReviewLogItem {
    pub answer: ReviewAnswer,
    pub day: Date,
}

/// The integer code a review outcome carries in the packed log encoding.
pub open spec fn answer_code(a: ReviewAnswer) -> i64 {
    match a {
        ReviewAnswer::Bury => 0,
        ReviewAnswer::Again => 1,
        ReviewAnswer::Hard => 2,
        ReviewAnswer::Good => 3,
        ReviewAnswer::Easy => 4,
    }
}

/// The packed form of a log entry: outcome code in the high 32 bits, the day
/// number (sign-extended) in the low 32 bits.
pub open spec fn encode_of(answer: ReviewAnswer, day: i32) -> i64 {
    (answer_code(answer) << 32) | (day as i64)
}

/// The day number held in the low 32 bits of a packed log entry.
pub open spec fn decode_day(value: i64) -> i32 {
    let low = value & 0xFFFF_FFFF;
    if low >= 0x8000_0000 {
        (low - 0x1_0000_0000) as i32
    } else {
        low as i32
    }
}

/// The log entry a packed value decodes to; `Err` on an unknown outcome code.
pub open spec fn decode_of(value: i64) -> Result<ReviewLogItem, ()> {
    let code = value >> 32;
    let day = Date { day: decode_day(value) };
    if code == 0 {
        Ok(ReviewLogItem { answer: ReviewAnswer::Bury, day })
    } else if code == 1 {
        Ok(ReviewLogItem { answer: ReviewAnswer::Again, day })
    } else if code == 2 {
        Ok(ReviewLogItem { answer: ReviewAnswer::Hard, day })
    } else if code == 3 {
        Ok(ReviewLogItem { answer: ReviewAnswer::Good, day })
    } else if code == 4 {
        Ok(ReviewLogItem { answer: ReviewAnswer::Easy, day })
    } else {
        Err(())
    }
}

impl ReviewLogItem {
    /// Unpacks a log entry; `Err` exactly when the high word is no known
    /// outcome code.
    pub fn from(value: i64) -> (r: Result<ReviewLogItem, ()>)
        ensures
            r == decode_of(value),
            r is Ok <==> 0 <= value >> 32i64 <= 4,
    {
        let code = value >> 32;
        let answer = if code == 0 {
            ReviewAnswer::Bury
        } else if code == 1 {
            ReviewAnswer::Again
        } else if code == 2 {
            ReviewAnswer::Hard
        } else if code == 3 {
            ReviewAnswer::Good
        } else if code == 4 {
            ReviewAnswer::Easy
        } else {
            return Err(());
        };
        let low = value & 0xFFFF_FFFF;
        proof {
            assert(0 <= (value & 0xFFFF_FFFF) < 0x1_0000_0000) by (bit_vector);
        }
        let day: i32 = if low >= 0x8000_0000 {
            (low - 0x1_0000_0000) as i32
        } else {
            low as i32
        };
        Ok(ReviewLogItem { day: Date { day }, answer })
    }

    /// Packs the entry into one signed 64-bit value.
    pub fn encode(&self) -> (r: i64)
        ensures
            r == encode_of(self.answer, self.day.day),
    {
        let value: i64 = match self.answer {
            ReviewAnswer::Bury => 0,
            ReviewAnswer::Again => 1,
            ReviewAnswer::Hard => 2,
            ReviewAnswer::Good => 3,
            ReviewAnswer::Easy => 4,
        };
        (value << 32) | (self.day.day as i64)
    }
}

/// Packing then unpacking a log entry gives the entry back, for every
/// outcome and every nonnegative day number. (A negative day number is
/// absorbed by the sign extension of the low word and does not survive.)
pub proof fn lemma_review_log_roundtrip(item: ReviewLogItem)
    requires
        item.day.day >= 0,
    ensures
        decode_of(encode_of(item.answer, item.day.day)) == Ok::<ReviewLogItem, ()>(item),
{
    let day = item.day.day;
    let c = answer_code(item.answer);
    assert(0 <= c <= 4);
    assert(((c << 32) | (day as i64)) >> 32 == c) by (bit_vector)
        requires
            day >= 0 && 0 <= c <= 4,
    ;
    assert(((c << 32) | (day as i64)) & 0xFFFF_FFFF == day as i64) by (bit_vector)
        requires
            day >= 0 && 0 <= c <= 4,
    ;
    let v = encode_of(item.answer, item.day.day);
    assert(decode_day(v) == day);
}

/// The memory state of one card. `difficulty` and `stability` hold the
/// decimal text of the model's two continuous quantities; the verified core
/// moves them around unchanged and the numeric model outside recomputes
/// them at each review.
#[derive(Clone, Debug)]
pub struct FSRSState {
    pub date_added: Date,
    pub last_review: Date,
    pub review_date: Date,
    pub difficulty: String,
    pub stability: String,
    pub buried: bool,
    pub complete_history: bool,
    pub review_log: Vec<ReviewLogItem>,
}

/// The values the numeric model computed for one review: the new difficulty
/// and stability texts, and the jittered interval in days that applies when
/// the answer was correct.
pub struct ReviewUpdate {
    pub difficulty: String,
    pub stability: String,
    pub interval_days: i32,
}

impl FSRSState {
    /// A fresh state: never reviewed, due immediately, with an empty log.
    pub fn new(date: Date) -> (r: FSRSState)
        ensures
            r.date_added == date,
            r.last_review == date,
            r.review_date == date,
            r.difficulty@ == "0"@,
            r.stability@ == "0"@,
            !r.buried,
            r.complete_history,
            r.review_log@.len() == 0,
    {
        FSRSState {
            date_added: date,
            last_review: date,
            review_date: date,
            difficulty: String::from_str("0"),
            stability: String::from_str("0"),
            buried: false,
            complete_history: true,
            review_log: Vec::new(),
        }
    }

    /// Whether the card still awaits its first recorded review.
    pub fn first_review(&self) -> (r: bool)
        ensures
            r == (self.complete_history && self.review_log@.len() == 0),
    {
        self.complete_history && self.review_log.is_empty()
    }

    /// The review transition. `Bury` only sets the bury flag. Any other
    /// outcome is logged (or marks the history incomplete), adopts the
    /// newly computed difficulty and stability, and reschedules the card:
    /// due immediately again after `Again`, due `interval_days` later
    /// otherwise. After any review the due date never precedes the last
    /// review, provided it did not before (`Bury` changes neither date).
    pub fn review(
        &mut self,
        answer: ReviewAnswer,
        date: &Date,
        track_history: bool,
        update: ReviewUpdate,
    ) -> (r: ReviewResult)
        requires
            !(answer is Bury) && !(answer is Again) ==> 0 <= update.interval_days && date.day
                + update.interval_days <= i32::MAX,
        ensures
            r == (if answer is Again {
                ReviewResult::Again
            } else {
                ReviewResult::Discard
            }),
            old(self).review_date.day >= old(self).last_review.day ==> final(self).review_date.day
                >= final(self).last_review.day,
            final(self).date_added == old(self).date_added,
            answer is Bury ==> *final(self) == (FSRSState { buried: true, ..*old(self) }),
            !(answer is Bury) ==> {
                &&& final(self).buried == old(self).buried
                &&& final(self).review_log@ == (if track_history {
                    old(self).review_log@.push(ReviewLogItem { answer, day: *date })
                } else {
                    old(self).review_log@
                })
                &&& final(self).complete_history == (old(self).complete_history && track_history)
                &&& final(self).difficulty@ == update.difficulty@
                &&& final(self).stability@ == update.stability@
                &&& final(self).last_review == *date
                &&& final(self).review_date == (if answer is Again {
                    *date
                } else {
                    Date { day: (date.day + update.interval_days) as i32 }
                })
                &&& final(self).review_date.day >= final(self).last_review.day
            },
    {
        if let ReviewAnswer::Bury = answer {
            self.buried = true;
            return ReviewResult::Discard;
        }

        if track_history {
            self.review_log.push(ReviewLogItem { answer: answer.clone(), day: *date });
        } else {
            self.complete_history = false;
        }

        self.difficulty = update.difficulty;
        self.stability = update.stability;

        if let ReviewAnswer::Again = answer {
            self.review_date = *date;
            self.last_review = *date;
            ReviewResult::Again
        } else {
            self.last_review = *date;
            self.review_date = Date { day: date.day + update.interval_days };
            ReviewResult::Discard
        }
    }
}

} // verus!
