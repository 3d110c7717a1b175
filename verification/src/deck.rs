//! The long-lived deck: the card store, the review-session state machine,
//! the day-level load balancing and rescheduling, and the reconciliation
//! that merges freshly expanded collections while preserving history.

use crate::card::{
    build_collection, key_of, views_of, Card, CardCollection, CardModel, ContentModel, TsvError,
    tsv_parse_err, tsv_parsed_ok,
};
use crate::date::Date;
use crate::fsrs::{ReviewAnswer, ReviewLogItem, ReviewResult, ReviewUpdate};
use crate::rand::{mix_of, next_state_of, SplitMix64};
use crate::text::{contains_seq, contains_str, lex_le, lex_le_str, split_tabs, str_eq};
use vstd::multiset::Multiset;
use vstd::prelude::*;

verus! {

/// The deck: the reviewable cards, the orphans kept for relinking, the
/// authored base cards, configuration, and the transient review-session
/// state (the active index list, the position in it, and the session day).
#[derive(Debug)]
pub struct Deck {
    pub cards: Vec<Card>,
    pub orphans: Vec<Card>,
    pub track_review_history: bool,
    pub base_cards: Vec<Card>,
    pub review_index: Option<usize>,
    pub edited_cards: Vec<(Card, Card)>,
    pub review_indices: Vec<usize>,
    pub review_date: Option<Date>,
}

impl Deck {
    /// The session bookkeeping points at real entries.
    pub open spec fn session_wf(&self) -> bool {
        &&& (self.review_index matches Some(i) ==> i < self.review_indices@.len())
        &&& forall|j: int|
            0 <= j < self.review_indices@.len() ==> (#[trigger] self.review_indices@[j])
                < self.cards@.len()
    }

    /// An empty deck with no session.
    pub fn new() -> (r: Deck)
        ensures
            r.cards@.len() == 0,
            r.orphans@.len() == 0,
            r.base_cards@.len() == 0,
            r.review_indices@.len() == 0,
            r.review_index is None,
            r.review_date is None,
            r.edited_cards@.len() == 0,
            !r.track_review_history,
            r.session_wf(),
    {
        Deck {
            cards: Vec::new(),
            orphans: Vec::new(),
            review_indices: Vec::new(),
            review_index: None,
            review_date: None,
            edited_cards: Vec::new(),
            base_cards: Vec::new(),
            track_review_history: false,
        }
    }

    /// Ends the session: clears the active set and position.
    pub fn stop_review(&mut self)
        ensures
            *final(self) == (Deck {
                review_indices: final(self).review_indices,
                review_index: None,
                review_date: None,
                ..*old(self)
            }),
            final(self).review_indices@.len() == 0,
            final(self).session_wf(),
    {
        self.review_indices.clear();
        self.review_index = None;
        self.review_date = None;
    }

    /// The card at the session's current position.
    pub fn get_review_card(&self) -> (r: Option<&Card>)
        requires
            self.session_wf(),
        ensures
            r is Some <==> self.review_index is Some,
            r matches Some(c) ==> self.review_index matches Some(i) && *c
                == self.cards@[self.review_indices@[i as int] as int],
    {
        if let Some(index) = self.review_index {
            let card_index = self.review_indices[index];
            Some(&self.cards[card_index])
        } else {
            None
        }
    }

    /// The number of cards still active in the session.
    pub fn active_review_count(&self) -> (r: usize)
        ensures
            r == self.review_indices@.len(),
    {
        self.review_indices.len()
    }
}

/// The position the session draws after an answer: none when the set is
/// empty, the only position when one is left, else a uniform draw that is
/// pushed one forward when it would repeat the previous position.
pub open spec fn gen_index_of(count: int, prev: Option<usize>, rand: u64) -> Option<int> {
    if count == 0 {
        None
    } else if count == 1 {
        Some(0int)
    } else {
        let v = (rand as int) % count;
        match prev {
            Some(p) => if v == p as int {
                Some((v + 1) % count)
            } else {
                Some(v)
            },
            None => Some(v),
        }
    }
}

/// Whether an optional index equals an optional mathematical position.
pub open spec fn index_matches(ri: Option<usize>, m: Option<int>) -> bool {
    match (ri, m) {
        (None, None) => true,
        (Some(u), Some(v)) => u as int == v,
        _ => false,
    }
}

/// The session never repeats a position: with two or more active cards the
/// drawn position always differs from the previous one.
pub proof fn lemma_no_immediate_repeat(count: int, prev: usize, rand: u64)
    requires
        count >= 2,
        (prev as int) < count,
    ensures
        gen_index_of(count, Some(prev), rand) matches Some(v) && v != prev as int,
{
    let v = (rand as int) % count;
    assert(0 <= v < count);
    if v == prev as int {
        assert((v + 1) % count != v) by {
            if v + 1 < count {
                assert((v + 1) % count == v + 1) by (nonlinear_arith)
                    requires
                        0 <= v + 1 < count,
                ;
            } else {
                assert(v + 1 == count);
                assert(count % count == 0) by (nonlinear_arith)
                    requires
                        count >= 2,
                ;
            }
        }
    }
}

impl Deck {
    /// Draws the next session position. With fewer than two active cards
    /// no randomness is consumed.
    fn gen_review_index(&mut self, generator: &mut SplitMix64)
        ensures
            *final(self) == (Deck { review_index: final(self).review_index, ..*old(self) }),
            old(self).review_indices@.len() >= 2 ==> final(generator)@ == next_state_of(
                old(generator)@,
            ),
            old(self).review_indices@.len() < 2 ==> final(generator)@ == old(generator)@,
            index_matches(
                final(self).review_index,
                gen_index_of(
                    old(self).review_indices@.len() as int,
                    old(self).review_index,
                    mix_of(next_state_of(old(generator)@)),
                ),
            ),
            final(self).session_wf() <==> (forall|j: int|
                0 <= j < final(self).review_indices@.len() ==> (
                #[trigger] final(self).review_indices@[j]) < final(self).cards@.len()),
    {
        let count = self.review_indices.len();
        if count == 0 {
            self.review_index = None;
        } else if count == 1 {
            self.review_index = Some(0);
        } else {
            let r = generator.next_rand();
            let mut new_index = (r % (count as u64)) as usize;
            if let Some(prev) = self.review_index {
                if new_index == prev {
                    new_index = (new_index + 1) % count;
                }
            }
            self.review_index = Some(new_index);
        }
    }
}

/// The indices of the non-buried cards due on or before `day`, in order.
pub open spec fn due_indices(cards: Seq<CardModel>, day: int, from: int) -> Seq<int>
    decreases cards.len() - from,
{
    if from < 0 || from >= cards.len() {
        Seq::empty()
    } else if day >= cards[from].state.review_date && !cards[from].state.buried {
        seq![from] + due_indices(cards, day, from + 1)
    } else {
        due_indices(cards, day, from + 1)
    }
}

/// The indices of all non-buried cards, in order.
pub open spec fn unburied_indices(cards: Seq<CardModel>, from: int) -> Seq<int>
    decreases cards.len() - from,
{
    if from < 0 || from >= cards.len() {
        Seq::empty()
    } else if !cards[from].state.buried {
        seq![from] + unburied_indices(cards, from + 1)
    } else {
        unburied_indices(cards, from + 1)
    }
}

pub proof fn lemma_due_indices_bounds(cards: Seq<CardModel>, day: int, from: int)
    ensures
        forall|j: int|
            0 <= j < due_indices(cards, day, from).len() ==> from <= #[trigger] due_indices(
                cards,
                day,
                from,
            )[j] < cards.len(),
    decreases cards.len() - from,
{
    if !(from < 0 || from >= cards.len()) {
        lemma_due_indices_bounds(cards, day, from + 1);
        let all = due_indices(cards, day, from);
        let rest = due_indices(cards, day, from + 1);
        assert forall|j: int| 0 <= j < all.len() implies from <= #[trigger] all[j] < cards.len()
            by {
            if day >= cards[from].state.review_date && !cards[from].state.buried {
                if j > 0 {
                    assert(all[j] == rest[j - 1]);
                }
            } else {
                assert(all[j] == rest[j]);
            }
        }
    }
}

pub proof fn lemma_unburied_indices_bounds(cards: Seq<CardModel>, from: int)
    ensures
        forall|j: int|
            0 <= j < unburied_indices(cards, from).len() ==> from <= #[trigger] unburied_indices(
                cards,
                from,
            )[j] < cards.len(),
    decreases cards.len() - from,
{
    if !(from < 0 || from >= cards.len()) {
        lemma_unburied_indices_bounds(cards, from + 1);
        let all = unburied_indices(cards, from);
        let rest = unburied_indices(cards, from + 1);
        assert forall|j: int| 0 <= j < all.len() implies from <= #[trigger] all[j] < cards.len()
            by {
            if !cards[from].state.buried {
                if j > 0 {
                    assert(all[j] == rest[j - 1]);
                }
            } else {
                assert(all[j] == rest[j]);
            }
        }
    }
}

/// Collects the indices of the cards due on or before `date` that are not
/// buried.
pub fn get_indices_to_review(cards: &Vec<Card>, date: Date) -> (r: Vec<usize>)
    ensures
        r@.map_values(|u: usize| u as int) == due_indices(views_of(cards@), date.day as int, 0),
{
    let ghost cm = views_of(cards@);
    let mut items: Vec<usize> = Vec::new();
    let mut i: usize = 0;
    proof {
        assert(items@.map_values(|u: usize| u as int) + due_indices(cm, date.day as int, 0)
            =~= due_indices(cm, date.day as int, 0));
    }
    while i < cards.len()
        invariant
            cm == views_of(cards@),
            0 <= i <= cards@.len(),
            due_indices(cm, date.day as int, 0) == items@.map_values(|u: usize| u as int)
                + due_indices(cm, date.day as int, i as int),
        decreases cards@.len() - i,
    {
        let ghost done = items@.map_values(|u: usize| u as int);
        if date.is_after(&cards[i].fsrs_state.review_date) && !cards[i].fsrs_state.buried {
            items.push(i);
            proof {
                assert(items@.map_values(|u: usize| u as int) =~= done.push(i as int));
                assert(done.push(i as int) + due_indices(cm, date.day as int, i + 1) =~= done + (
                seq![i as int] + due_indices(cm, date.day as int, i + 1)));
            }
        }
        i = i + 1;
    }
    proof {
        assert(due_indices(cm, date.day as int, i as int) =~= Seq::<int>::empty());
        assert(items@.map_values(|u: usize| u as int) + Seq::<int>::empty() =~= items@.map_values(
            |u: usize| u as int,
        ));
    }
    items
}

/// How many cards have their due day exactly on `d`.
pub open spec fn count_on_day(cards: Seq<CardModel>, d: int, from: int) -> int
    decreases cards.len() - from,
{
    if from < 0 || from >= cards.len() {
        0
    } else {
        (if cards[from].state.review_date == d {
            1int
        } else {
            0int
        }) + count_on_day(cards, d, from + 1)
    }
}

/// The balancing shift for a card landing on `day`: one day earlier when
/// today's load strictly exceeds yesterday's and tomorrow is no lighter
/// than yesterday; one day later when today exceeds tomorrow and yesterday
/// does too; else none.
pub open spec fn offset_of(cards: Seq<CardModel>, day: int) -> int {
    let yesterday = count_on_day(cards, day - 1, 0);
    let today = count_on_day(cards, day, 0);
    let tomorrow = count_on_day(cards, day + 1, 0);
    if today > yesterday && tomorrow >= yesterday {
        -1
    } else if today > tomorrow && yesterday > tomorrow {
        1
    } else {
        0
    }
}

impl Deck {
    /// Starts a session over the cards due on `date`.
    pub fn start_review(&mut self, date: Date, generator: &mut SplitMix64)
        ensures
            *final(self) == (Deck {
                review_indices: final(self).review_indices,
                review_index: final(self).review_index,
                review_date: Some(date),
                ..*old(self)
            }),
            final(self).review_indices@.map_values(|u: usize| u as int) == due_indices(
                views_of(old(self).cards@),
                date.day as int,
                0,
            ),
            index_matches(
                final(self).review_index,
                gen_index_of(
                    final(self).review_indices@.len() as int,
                    old(self).review_index,
                    mix_of(next_state_of(old(generator)@)),
                ),
            ),
            final(self).review_indices@.len() >= 2 ==> final(generator)@ == next_state_of(
                old(generator)@,
            ),
            final(self).review_indices@.len() < 2 ==> final(generator)@ == old(generator)@,
            final(self).session_wf(),
    {
        self.review_indices = get_indices_to_review(&self.cards, date);
        self.review_date = Some(date);
        proof {
            lemma_due_indices_bounds(views_of(self.cards@), date.day as int, 0);
            assert forall|j: int| 0 <= j < self.review_indices@.len() implies (
            #[trigger] self.review_indices@[j]) < self.cards@.len() by {
                assert(self.review_indices@.map_values(|u: usize| u as int)[j]
                    == self.review_indices@[j] as int);
            }
        }
        self.gen_review_index(generator);
    }

    /// Starts a session over every non-buried card.
    pub fn start_all_review(&mut self, date: Date, generator: &mut SplitMix64)
        ensures
            *final(self) == (Deck {
                review_indices: final(self).review_indices,
                review_index: final(self).review_index,
                review_date: Some(date),
                ..*old(self)
            }),
            final(self).review_indices@.map_values(|u: usize| u as int) == unburied_indices(
                views_of(old(self).cards@),
                0,
            ),
            index_matches(
                final(self).review_index,
                gen_index_of(
                    final(self).review_indices@.len() as int,
                    old(self).review_index,
                    mix_of(next_state_of(old(generator)@)),
                ),
            ),
            final(self).review_indices@.len() >= 2 ==> final(generator)@ == next_state_of(
                old(generator)@,
            ),
            final(self).review_indices@.len() < 2 ==> final(generator)@ == old(generator)@,
            final(self).session_wf(),
    {
        let ghost cm = views_of(self.cards@);
        let mut items: Vec<usize> = Vec::new();
        let mut i: usize = 0;
        proof {
            assert(items@.map_values(|u: usize| u as int) + unburied_indices(cm, 0)
                =~= unburied_indices(cm, 0));
        }
        while i < self.cards.len()
            invariant
                cm == views_of(self.cards@),
                0 <= i <= self.cards@.len(),
                unburied_indices(cm, 0) == items@.map_values(|u: usize| u as int)
                    + unburied_indices(cm, i as int),
            decreases self.cards@.len() - i,
        {
            let ghost done = items@.map_values(|u: usize| u as int);
            if !self.cards[i].fsrs_state.buried {
                items.push(i);
                proof {
                    assert(items@.map_values(|u: usize| u as int) =~= done.push(i as int));
                    assert(done.push(i as int) + unburied_indices(cm, i + 1) =~= done + (seq![
                        i as int,
                    ] + unburied_indices(cm, i + 1)));
                }
            }
            i = i + 1;
        }
        proof {
            assert(unburied_indices(cm, i as int) =~= Seq::<int>::empty());
            assert(items@.map_values(|u: usize| u as int) + Seq::<int>::empty()
                =~= items@.map_values(|u: usize| u as int));
        }
        self.review_indices = items;
        self.review_date = Some(date);
        proof {
            lemma_unburied_indices_bounds(cm, 0);
            assert forall|j: int| 0 <= j < self.review_indices@.len() implies (
            #[trigger] self.review_indices@[j]) < self.cards@.len() by {
                assert(self.review_indices@.map_values(|u: usize| u as int)[j]
                    == self.review_indices@[j] as int);
            }
        }
        self.gen_review_index(generator);
    }

    /// How many cards a session on `date` would hold.
    pub fn cards_to_review_count(&self, date: Date) -> (r: usize)
        ensures
            r == due_indices(views_of(self.cards@), date.day as int, 0).len(),
    {
        get_indices_to_review(&self.cards, date).len()
    }

    /// The balancing shift for a card landing on `day`.
    fn card_review_offset(&self, day: Date) -> (r: i32)
        ensures
            r as int == offset_of(views_of(self.cards@), day.day as int),
            -1 <= r <= 1,
    {
        let ghost cm = views_of(self.cards@);
        let mut yesterday_count: usize = 0;
        let mut today_count: usize = 0;
        let mut tomorrow_count: usize = 0;
        let mut i: usize = 0;
        while i < self.cards.len()
            invariant
                cm == views_of(self.cards@),
                0 <= i <= self.cards@.len(),
                today_count == count_on_day(cm, day.day as int, 0) - count_on_day(
                    cm,
                    day.day as int,
                    i as int,
                ),
                yesterday_count == count_on_day(cm, day.day as int - 1, 0) - count_on_day(
                    cm,
                    day.day as int - 1,
                    i as int,
                ),
                tomorrow_count == count_on_day(cm, day.day as int + 1, 0) - count_on_day(
                    cm,
                    day.day as int + 1,
                    i as int,
                ),
                today_count <= i,
                yesterday_count <= i,
                tomorrow_count <= i,
            decreases self.cards@.len() - i,
        {
            proof {
                lemma_count_on_day_step(cm, day.day as int, i as int);
                lemma_count_on_day_step(cm, day.day as int - 1, i as int);
                lemma_count_on_day_step(cm, day.day as int + 1, i as int);
            }
            let rd = self.cards[i].fsrs_state.review_date.day;
            if rd == day.day {
                today_count = today_count + 1;
            } else if (rd as i64) + 1 == day.day as i64 {
                yesterday_count = yesterday_count + 1;
            } else if (rd as i64) - 1 == day.day as i64 {
                tomorrow_count = tomorrow_count + 1;
            }
            i = i + 1;
        }
        proof {
            assert(count_on_day(cm, day.day as int, i as int) == 0);
            assert(count_on_day(cm, day.day as int - 1, i as int) == 0);
            assert(count_on_day(cm, day.day as int + 1, i as int) == 0);
        }
        if today_count > yesterday_count && tomorrow_count >= yesterday_count {
            -1
        } else if today_count > tomorrow_count && yesterday_count > tomorrow_count {
            1
        } else {
            0
        }
    }
}

/// One scan step of the day counter.
proof fn lemma_count_on_day_step(cards: Seq<CardModel>, d: int, i: int)
    requires
        0 <= i < cards.len(),
    ensures
        count_on_day(cards, d, i) == (if cards[i].state.review_date == d {
            1int
        } else {
            0int
        }) + count_on_day(cards, d, i + 1),
        count_on_day(cards, d, i + 1) >= 0,
{
    lemma_count_on_day_nonneg(cards, d, i + 1);
}

proof fn lemma_count_on_day_nonneg(cards: Seq<CardModel>, d: int, from: int)
    ensures
        count_on_day(cards, d, from) >= 0,
        count_on_day(cards, d, from) <= cards.len() - from || count_on_day(cards, d, from) == 0,
    decreases cards.len() - from,
{
    if !(from < 0 || from >= cards.len()) {
        lemma_count_on_day_nonneg(cards, d, from + 1);
    }
}


/// The memory state after a review transition, at the model level: what
/// `FSRSState::review` leaves behind.
pub open spec fn post_review_state(
    olds: crate::card::StateModel,
    answer: ReviewAnswer,
    date: Date,
    track: bool,
    diff: Seq<char>,
    stab: Seq<char>,
    k: int,
) -> crate::card::StateModel {
    if answer is Bury {
        crate::card::StateModel { buried: true, ..olds }
    } else {
        crate::card::StateModel {
            date_added: olds.date_added,
            last_review: date.day as int,
            review_date: if answer is Again {
                date.day as int
            } else {
                date.day + k
            },
            difficulty: diff,
            stability: stab,
            buried: olds.buried,
            complete_history: olds.complete_history && track,
            review_log: if track {
                olds.review_log.push(ReviewLogItem { answer, day: date })
            } else {
                olds.review_log
            },
        }
    }
}

impl Deck {
    /// Answers the session's current card: runs the review transition,
    /// applies the balancing shift when the card leaves the session with
    /// high stability, removes it from the active set on a discard, and
    /// draws the next position. After any non-bury answer the card's due
    /// date does not precede its last review.
    pub fn review_card(
        &mut self,
        answer: ReviewAnswer,
        update: ReviewUpdate,
        stability_high: bool,
        generator: &mut SplitMix64,
    )
        requires
            old(self).session_wf(),
            old(self).review_index is Some,
            old(self).review_date is Some,
            !(answer is Bury) && !(answer is Again) ==> 1 <= update.interval_days && i32::MIN < old(
                self,
            ).review_date->Some_0.day + update.interval_days < i32::MAX,
            answer is Bury && stability_high ==> i32::MIN < old(self).cards@[old(
                self,
            ).review_indices@[old(self).review_index->Some_0 as int] as int].fsrs_state.review_date.day
                < i32::MAX,
        ensures
            final(self).orphans == old(self).orphans,
            final(self).base_cards == old(self).base_cards,
            final(self).edited_cards == old(self).edited_cards,
            final(self).track_review_history == old(self).track_review_history,
            final(self).review_date == old(self).review_date,
            final(self).cards@.len() == old(self).cards@.len(),
            final(self).session_wf(),
            ({
                let ri = old(self).review_index->Some_0 as int;
                let ci = old(self).review_indices@[ri] as int;
                let d = old(self).review_date->Some_0;
                let oldm = views_of(old(self).cards@)[ci];
                let discard = !(answer is Again);
                let reviewed = post_review_state(
                    oldm.state,
                    answer,
                    d,
                    old(self).track_review_history,
                    update.difficulty@,
                    update.stability@,
                    update.interval_days as int,
                );
                let mid = views_of(old(self).cards@).update(
                    ci,
                    CardModel { content: oldm.content, state: reviewed },
                );
                let off = if discard && stability_high {
                    offset_of(mid, reviewed.review_date)
                } else {
                    0int
                };
                let finals = crate::card::StateModel {
                    review_date: reviewed.review_date + off,
                    ..reviewed
                };
                &&& views_of(final(self).cards@) == mid.update(
                    ci,
                    CardModel { content: oldm.content, state: finals },
                )
                &&& !(answer is Bury) ==> finals.review_date >= finals.last_review
                &&& (if discard {
                    final(self).review_indices@ == old(self).review_indices@.remove(ri)
                } else {
                    final(self).review_indices@ == old(self).review_indices@
                })
                &&& ({
                    let count2 = final(self).review_indices@.len() as int;
                    &&& index_matches(
                        final(self).review_index,
                        gen_index_of(
                            count2,
                            old(self).review_index,
                            mix_of(next_state_of(old(generator)@)),
                        ),
                    )
                    &&& (count2 >= 2 ==> final(generator)@ == next_state_of(old(generator)@))
                    &&& (count2 < 2 ==> final(generator)@ == old(generator)@)
                })
            }),
    {
        let ghost oldcards = views_of(self.cards@);
        let ri = self.review_index.unwrap();
        let ci = self.review_indices[ri];
        let date = self.review_date.unwrap();
        let track = self.track_review_history;
        let mut card = self.cards.remove(ci);
        let ghost oldm = oldcards[ci as int];
        let result = card.fsrs_state.review(answer, &date, track, update);
        self.cards.insert(ci, card);
        proof {
            assert(self.cards@ =~= old(self).cards@.update(ci as int, self.cards@[ci as int]));
            assert(views_of(self.cards@) =~= oldcards.update(
                ci as int,
                self.cards@[ci as int]@,
            ));
        }
        match result {
            ReviewResult::Discard => {
                if stability_high {
                    let rd = self.cards[ci].fsrs_state.review_date;
                    let offset = self.card_review_offset(rd);
                    let mut c2 = self.cards.remove(ci);
                    c2.fsrs_state.review_date = Date { day: c2.fsrs_state.review_date.day + offset };
                    self.cards.insert(ci, c2);
                    proof {
                        assert(self.cards@ =~= old(self).cards@.update(
                            ci as int,
                            self.cards@[ci as int],
                        ));
                        assert(views_of(self.cards@) =~= oldcards.update(
                            ci as int,
                            self.cards@[ci as int]@,
                        ));
                    }
                }
                self.review_indices.remove(ri);
            },
            ReviewResult::Again => {},
        }
        proof {
            assert forall|j: int| 0 <= j < self.review_indices@.len() implies (
            #[trigger] self.review_indices@[j]) < self.cards@.len() by {
                if result is Discard && j >= ri {
                    assert(self.review_indices@[j] == old(self).review_indices@[j + 1]);
                }
            }
        }
        self.gen_review_index(generator);
        proof {
            let reviewed = post_review_state(
                oldm.state,
                answer,
                date,
                track,
                update.difficulty@,
                update.stability@,
                update.interval_days as int,
            );
            let mid = oldcards.update(
                ci as int,
                CardModel { content: oldm.content, state: reviewed },
            );
            let off = if !(answer is Again) && stability_high {
                offset_of(mid, reviewed.review_date)
            } else {
                0int
            };
            let finals = crate::card::StateModel {
                review_date: reviewed.review_date + off,
                ..reviewed
            };
            assert(views_of(self.cards@) =~= mid.update(
                ci as int,
                CardModel { content: oldm.content, state: finals },
            ));
        }
    }
}


/// First entry of `m` whose identity key is `k`, at or after `from`.
pub open spec fn find_key(m: Seq<CardModel>, k: Seq<char>, from: int) -> Option<int>
    decreases m.len() - from,
{
    if from < 0 || from >= m.len() {
        None
    } else if key_of(m[from]) == k {
        Some(from)
    } else {
        find_key(m, k, from + 1)
    }
}

/// First entry of `os` whose front text is `f`, at or after `from`.
pub open spec fn find_front(os: Seq<CardModel>, f: Seq<char>, from: int) -> Option<int>
    decreases os.len() - from,
{
    if from < 0 || from >= os.len() {
        None
    } else if os[from].content.front == f {
        Some(from)
    } else {
        find_front(os, f, from + 1)
    }
}

/// The card with its editability withdrawn, as the loser of a duplicate.
pub open spec fn demoted(c: CardModel) -> CardModel {
    CardModel { content: ContentModel { editable: false, ..c.content }, state: c.state }
}

/// Inserting one new card into the keyed map: a recurring key demotes the
/// earlier survivor, a fresh key joins the map.
pub open spec fn dedup_insert(acc: Seq<CardModel>, c: CardModel) -> Seq<CardModel> {
    match find_key(acc, key_of(c), 0) {
        Some(j) => acc.update(j, demoted(acc[j])),
        None => acc.push(c),
    }
}

/// The keyed map of a freshly expanded card list: exactly one survivor per
/// identity, in first-seen order.
pub open spec fn dedup_map(news: Seq<CardModel>, acc: Seq<CardModel>) -> Seq<CardModel>
    decreases news.len(),
{
    if news.len() == 0 {
        acc
    } else {
        dedup_map(news.skip(1), dedup_insert(acc, news[0]))
    }
}

/// Draining the old cards against the map: an old card whose key survives
/// adopts the new content and keeps its memory state; the rest become
/// orphans. Yields the updated cards, the orphans, and the unconsumed map.
pub open spec fn adopt(
    olds: Seq<CardModel>,
    map: Seq<CardModel>,
    upd: Seq<CardModel>,
    orph: Seq<CardModel>,
) -> (Seq<CardModel>, Seq<CardModel>, Seq<CardModel>)
    decreases olds.len(),
{
    if olds.len() == 0 {
        (upd, orph, map)
    } else {
        let o = olds[0];
        match find_key(map, key_of(o), 0) {
            Some(j) => adopt(
                olds.skip(1),
                map.remove(j),
                upd.push(CardModel { content: map[j].content, state: o.state }),
                orph,
            ),
            None => adopt(olds.skip(1), map, upd, orph.push(o)),
        }
    }
}

/// Genuinely new identities recover history from an orphan with the same
/// front text, when one exists.
pub open spec fn relink(
    left: Seq<CardModel>,
    orph: Seq<CardModel>,
    upd: Seq<CardModel>,
) -> (Seq<CardModel>, Seq<CardModel>)
    decreases left.len(),
{
    if left.len() == 0 {
        (upd, orph)
    } else {
        let c = left[0];
        match find_front(orph, c.content.front, 0) {
            Some(j) => relink(
                left.skip(1),
                orph.remove(j),
                upd.push(CardModel { content: c.content, state: orph[j].state }),
            ),
            None => relink(left.skip(1), orph, upd.push(c)),
        }
    }
}

/// Ordered by the front text, the identity ordering.
pub open spec fn sorted_by_front(cs: Seq<CardModel>) -> bool {
    forall|i: int, j: int|
        0 <= i < j < cs.len() ==> lex_le(#[trigger] cs[i].content.front, #[trigger] cs[j].content.front)
}

/// The lexicographic order is reflexive.
proof fn lemma_lex_refl(a: Seq<char>)
    ensures
        lex_le(a, a),
    decreases a.len(),
{
    if a.len() > 0 {
        lemma_lex_refl(a.skip(1));
    }
}

/// The lexicographic order is total.
proof fn lemma_lex_total(a: Seq<char>, b: Seq<char>)
    ensures
        lex_le(a, b) || lex_le(b, a),
    decreases a.len(),
{
    if a.len() > 0 && b.len() > 0 && a[0] == b[0] {
        lemma_lex_total(a.skip(1), b.skip(1));
    }
}

/// The lexicographic order is transitive.
proof fn lemma_lex_trans(a: Seq<char>, b: Seq<char>, c: Seq<char>)
    requires
        lex_le(a, b),
        lex_le(b, c),
    ensures
        lex_le(a, c),
    decreases a.len(),
{
    if a.len() > 0 && b.len() > 0 && c.len() > 0 && a[0] == b[0] && b[0] == c[0] {
        lemma_lex_trans(a.skip(1), b.skip(1), c.skip(1));
    }
}

/// Finds the first entry of `map` with the given key.
fn find_key_vec(map: &Vec<Card>, k: &String) -> (r: Option<usize>)
    ensures
        r matches Some(j) ==> find_key(views_of(map@), k@, 0) == Some(j as int) && j < map@.len()
            && key_of(views_of(map@)[j as int]) == k@,
        r is None ==> find_key(views_of(map@), k@, 0) is None,
{
    let ghost mv = views_of(map@);
    let mut i: usize = 0;
    while i < map.len()
        invariant
            mv == views_of(map@),
            0 <= i <= map@.len(),
            find_key(mv, k@, 0) == find_key(mv, k@, i as int),
        decreases map@.len() - i,
    {
        let ek = map[i].content.key();
        if str_eq(ek.as_str(), k.as_str()) {
            return Some(i);
        }
        i = i + 1;
    }
    None
}

/// Finds the first entry of `os` with the given front text.
fn find_front_vec(os: &Vec<Card>, f: &String) -> (r: Option<usize>)
    ensures
        r matches Some(j) ==> find_front(views_of(os@), f@, 0) == Some(j as int) && j < os@.len()
            && views_of(os@)[j as int].content.front == f@,
        r is None ==> find_front(views_of(os@), f@, 0) is None,
{
    let ghost ov = views_of(os@);
    let mut i: usize = 0;
    while i < os.len()
        invariant
            ov == views_of(os@),
            0 <= i <= os@.len(),
            find_front(ov, f@, 0) == find_front(ov, f@, i as int),
        decreases os@.len() - i,
    {
        if str_eq(os[i].content.front.as_str(), f.as_str()) {
            return Some(i);
        }
        i = i + 1;
    }
    None
}

/// Sorts cards by their front text with a stable selection: the earliest
/// minimal front leaves first.
fn sort_by_front(cards: Vec<Card>) -> (r: Vec<Card>)
    ensures
        sorted_by_front(views_of(r@)),
        views_of(r@).to_multiset() == views_of(cards@).to_multiset(),
{
    broadcast use vstd::seq_lib::group_to_multiset_ensures;

    let ghost orig = views_of(cards@);
    let mut rest = cards;
    let mut out: Vec<Card> = Vec::new();
    proof {
        assert(views_of(out@) =~= Seq::<CardModel>::empty());
        assert(views_of(out@).to_multiset().add(views_of(rest@).to_multiset())
            =~= orig.to_multiset());
    }
    while rest.len() > 0
        invariant
            views_of(out@).to_multiset().add(views_of(rest@).to_multiset()) == orig.to_multiset(),
            sorted_by_front(views_of(out@)),
            forall|i: int, j: int|
                0 <= i < views_of(out@).len() && 0 <= j < views_of(rest@).len() ==> lex_le(
                    #[trigger] views_of(out@)[i].content.front,
                    #[trigger] views_of(rest@)[j].content.front,
                ),
        decreases rest@.len(),
    {
        let ghost rv = views_of(rest@);
        let ghost ov = views_of(out@);
        let mut best: usize = 0;
        let mut j: usize = 1;
        proof {
            lemma_lex_refl(rv[0].content.front);
        }
        while j < rest.len()
            invariant
                rv == views_of(rest@),
                rest@.len() > 0,
                0 <= best < j <= rest@.len(),
                forall|k: int|
                    0 <= k < j ==> lex_le(
                        rv[best as int].content.front,
                        #[trigger] rv[k].content.front,
                    ),
            decreases rest@.len() - j,
        {
            if !lex_le_str(rest[best].content.front.as_str(), rest[j].content.front.as_str()) {
                proof {
                    lemma_lex_total(rv[best as int].content.front, rv[j as int].content.front);
                    assert forall|k: int| 0 <= k < j + 1 implies lex_le(
                        rv[j as int].content.front,
                        #[trigger] rv[k].content.front,
                    ) by {
                        if k < j {
                            lemma_lex_trans(
                                rv[j as int].content.front,
                                rv[best as int].content.front,
                                rv[k].content.front,
                            );
                        } else {
                            lemma_lex_refl(rv[j as int].content.front);
                        }
                    }
                }
                best = j;
            }
            j = j + 1;
        }
        let picked = rest.remove(best);
        proof {
            assert(views_of(rest@) =~= rv.remove(best as int));
            vstd::seq_lib::to_multiset_remove(rv, best as int);
        }
        out.push(picked);
        proof {
            assert(views_of(out@) =~= ov.push(picked@));
            vstd::seq_lib::to_multiset_build(ov, picked@);
            assert(picked@ == rv[best as int]);
            assert(rv.contains(rv[best as int]));
            vstd::seq_lib::to_multiset_contains(rv, rv[best as int]);
            assert(views_of(out@).to_multiset().add(views_of(rest@).to_multiset())
                =~= orig.to_multiset());
            assert(sorted_by_front(views_of(out@)));
            assert forall|i: int, jx: int|
                0 <= i < views_of(out@).len() && 0 <= jx < views_of(rest@).len() implies lex_le(
                #[trigger] views_of(out@)[i].content.front,
                #[trigger] views_of(rest@)[jx].content.front,
            ) by {
                let nrv = views_of(rest@);
                if jx < best {
                    assert(nrv[jx] == rv[jx]);
                } else {
                    assert(nrv[jx] == rv[jx + 1]);
                }
                if i < ov.len() {
                } else {
                    assert(views_of(out@)[i] == picked@);
                }
            }
        }
    }
    proof {
        assert(views_of(rest@).to_multiset() =~= Multiset::<CardModel>::empty());
        assert(views_of(out@).to_multiset().add(views_of(rest@).to_multiset())
            =~= views_of(out@).to_multiset());
    }
    out
}

impl Deck {
    /// Reconciles a freshly expanded collection into the deck: duplicate
    /// identities are demoted to one non-editable survivor, matched
    /// identities adopt the new content but keep their memory state,
    /// vanished identities become orphans, genuinely new identities
    /// recover state from an orphan with the same front, and the card set
    /// ends sorted by the identity ordering.
    pub fn replace_cards(&mut self, collection: CardCollection) -> (r: Result<(), ()>)
        ensures
            r is Ok,
            final(self).track_review_history == old(self).track_review_history,
            final(self).review_index == old(self).review_index,
            final(self).review_indices == old(self).review_indices,
            final(self).review_date == old(self).review_date,
            final(self).edited_cards == old(self).edited_cards,
            views_of(final(self).base_cards@) == views_of(collection.base_cards@),
            ({
                let m0 = dedup_map(views_of(collection.cards@), Seq::empty());
                let (upd, orph, left) = adopt(
                    views_of(old(self).cards@),
                    m0,
                    Seq::empty(),
                    views_of(old(self).orphans@),
                );
                let (updated, orph2) = relink(left, orph, upd);
                &&& views_of(final(self).orphans@) == orph2
                &&& sorted_by_front(views_of(final(self).cards@))
                &&& views_of(final(self).cards@).to_multiset() == updated.to_multiset()
            }),
    {
        let ghost newsv = views_of(collection.cards@);
        let mut news = collection.cards;
        self.base_cards = collection.base_cards;
        let mut map: Vec<Card> = Vec::new();
        proof {
            assert(views_of(news@).skip(0) =~= views_of(news@));
            assert(views_of(map@) =~= Seq::<CardModel>::empty());
        }
        while news.len() > 0
            invariant
                dedup_map(views_of(news@), views_of(map@)) == dedup_map(newsv, Seq::empty()),
            decreases news@.len(),
        {
            let ghost nv = views_of(news@);
            let ghost mv = views_of(map@);
            let card = news.remove(0);
            proof {
                assert(views_of(news@) =~= nv.skip(1));
                assert(nv[0] == card@);
            }
            let k = card.content.key();
            match find_key_vec(&map, &k) {
                Some(j) => {
                    let mut e = map.remove(j);
                    e.content.editable = false;
                    let ghost em = e@;
                    map.insert(j, e);
                    proof {
                        assert(views_of(map@) =~= mv.update(j as int, em));
                        assert(em == demoted(mv[j as int]));
                        assert(views_of(map@) == dedup_insert(mv, card@));
                    }
                },
                None => {
                    map.push(card);
                    proof {
                        assert(views_of(map@) =~= mv.push(card@));
                    }
                },
            }
        }
        proof {
            assert(views_of(news@).len() == 0);
            assert(views_of(map@) == dedup_map(newsv, Seq::empty()));
        }
        let ghost m0 = views_of(map@);
        let ghost olds0 = views_of(self.cards@);
        let ghost orph0 = views_of(self.orphans@);
        let mut updated: Vec<Card> = Vec::new();
        proof {
            assert(views_of(updated@) =~= Seq::<CardModel>::empty());
            assert(olds0.skip(0) =~= olds0);
        }
        while self.cards.len() > 0
            invariant
                adopt(views_of(self.cards@), views_of(map@), views_of(updated@), views_of(self.orphans@))
                    == adopt(olds0, m0, Seq::empty(), orph0),
                self.track_review_history == old(self).track_review_history,
                self.review_index == old(self).review_index,
                self.review_indices == old(self).review_indices,
                self.review_date == old(self).review_date,
                self.edited_cards == old(self).edited_cards,
                views_of(self.base_cards@) == views_of(collection.base_cards@),
            decreases self.cards@.len(),
        {
            let ghost cv = views_of(self.cards@);
            let ghost mv = views_of(map@);
            let ghost uv = views_of(updated@);
            let ghost orv = views_of(self.orphans@);
            let mut card = self.cards.remove(0);
            proof {
                assert(views_of(self.cards@) =~= cv.skip(1));
                assert(cv[0] == card@);
            }
            let k = card.content.key();
            match find_key_vec(&map, &k) {
                Some(j) => {
                    let e = map.remove(j);
                    card.content = e.content;
                    updated.push(card);
                    proof {
                        assert(views_of(map@) =~= mv.remove(j as int));
                        assert(views_of(updated@) =~= uv.push(
                            CardModel { content: mv[j as int].content, state: cv[0].state },
                        ));
                    }
                },
                None => {
                    self.orphans.push(card);
                    proof {
                        assert(views_of(self.orphans@) =~= orv.push(cv[0]));
                    }
                },
            }
        }
        proof {
            assert(views_of(self.cards@).len() == 0);
        }
        while map.len() > 0
            invariant
                relink(views_of(map@), views_of(self.orphans@), views_of(updated@)) == relink(
                    adopt(olds0, m0, Seq::empty(), orph0).2,
                    adopt(olds0, m0, Seq::empty(), orph0).1,
                    adopt(olds0, m0, Seq::empty(), orph0).0,
                ),
                self.cards@.len() == 0,
                self.track_review_history == old(self).track_review_history,
                self.review_index == old(self).review_index,
                self.review_indices == old(self).review_indices,
                self.review_date == old(self).review_date,
                self.edited_cards == old(self).edited_cards,
                views_of(self.base_cards@) == views_of(collection.base_cards@),
            decreases map@.len(),
        {
            let ghost mv = views_of(map@);
            let ghost uv = views_of(updated@);
            let ghost orv = views_of(self.orphans@);
            let mut c = map.remove(0);
            proof {
                assert(views_of(map@) =~= mv.skip(1));
                assert(mv[0] == c@);
            }
            match find_front_vec(&self.orphans, &c.content.front) {
                Some(j) => {
                    let o = self.orphans.remove(j);
                    c.fsrs_state = o.fsrs_state;
                    updated.push(c);
                    proof {
                        assert(views_of(self.orphans@) =~= orv.remove(j as int));
                        assert(views_of(updated@) =~= uv.push(
                            CardModel { content: mv[0].content, state: orv[j as int].state },
                        ));
                    }
                },
                None => {
                    updated.push(c);
                    proof {
                        assert(views_of(updated@) =~= uv.push(mv[0]));
                    }
                },
            }
        }
        proof {
            assert(views_of(map@).len() == 0);
        }
        self.cards = sort_by_front(updated);
        Ok(())
    }
}


/// The identity keys of a card list.
pub open spec fn keys_of(cs: Seq<CardModel>) -> Seq<Seq<char>> {
    cs.map_values(|c: CardModel| key_of(c))
}

proof fn lemma_find_key_exists(m: Seq<CardModel>, k: Seq<char>, from: int)
    requires
        0 <= from,
        exists|j: int| from <= j < m.len() && key_of(#[trigger] m[j]) == k,
    ensures
        find_key(m, k, from) is Some,
    decreases m.len() - from,
{
    if from < m.len() && key_of(m[from]) != k {
        let w = choose|j: int| from <= j < m.len() && key_of(#[trigger] m[j]) == k;
        assert(from + 1 <= w);
        lemma_find_key_exists(m, k, from + 1);
    }
}

proof fn lemma_find_key_props(m: Seq<CardModel>, k: Seq<char>, from: int)
    ensures
        find_key(m, k, from) matches Some(j) ==> from <= j < m.len() && key_of(m[j]) == k,
    decreases m.len() - from,
{
    if !(from < 0 || from >= m.len()) && key_of(m[from]) != k {
        lemma_find_key_props(m, k, from + 1);
    }
}

/// Reconciliation preserves history: every card the adoption step carries
/// over keeps the whole memory state of an old card with its identity. In
/// particular the adding date and the stability survive a re-ingestion of
/// unchanged content.
pub proof fn lemma_adopt_preserves_history(
    olds: Seq<CardModel>,
    map: Seq<CardModel>,
    upd: Seq<CardModel>,
    orph: Seq<CardModel>,
)
    ensures
        ({
            let (u, o, l) = adopt(olds, map, upd, orph);
            forall|j: int|
                upd.len() <= j < u.len() ==> exists|i: int|
                    0 <= i < olds.len() && (#[trigger] u[j]).state == olds[i].state && key_of(
                        u[j],
                    ) == key_of(olds[i])
        }),
    decreases olds.len(),
{
    let (u, o, l) = adopt(olds, map, upd, orph);
    if olds.len() > 0 {
        let c0 = olds[0];
        lemma_find_key_props(map, key_of(c0), 0);
        match find_key(map, key_of(c0), 0) {
            Some(jm) => {
                let pushed = CardModel { content: map[jm].content, state: c0.state };
                let upd1 = upd.push(pushed);
                lemma_adopt_preserves_history(olds.skip(1), map.remove(jm), upd1, orph);
                let (u2, o2, l2) = adopt(olds.skip(1), map.remove(jm), upd1, orph);
                assert(u == u2);
                assert forall|j: int| upd.len() <= j < u.len() implies exists|i: int|
                    0 <= i < olds.len() && (#[trigger] u[j]).state == olds[i].state && key_of(
                        u[j],
                    ) == key_of(olds[i]) by {
                    if j == upd.len() {
                        assert(u[j] == pushed) by {
                            lemma_adopt_prefix(olds.skip(1), map.remove(jm), upd1, orph);
                        }
                        assert(u[j].state == olds[0].state && key_of(u[j]) == key_of(olds[0]));
                    } else {
                        assert(upd1.len() <= j < u2.len());
                        assert(exists|i: int|
                            0 <= i < olds.skip(1).len() && (#[trigger] u2[j]).state == olds.skip(
                                1,
                            )[i].state && key_of(u2[j]) == key_of(olds.skip(1)[i]));
                        let i0 = choose|i: int|
                            0 <= i < olds.skip(1).len() && (#[trigger] u2[j]).state == olds.skip(
                                1,
                            )[i].state && key_of(u2[j]) == key_of(olds.skip(1)[i]);
                        assert(olds.skip(1)[i0] == olds[i0 + 1]);
                    }
                }
            },
            None => {
                lemma_adopt_preserves_history(olds.skip(1), map, upd, orph.push(c0));
                let (u2, o2, l2) = adopt(olds.skip(1), map, upd, orph.push(c0));
                assert(u == u2);
                assert forall|j: int| upd.len() <= j < u.len() implies exists|i: int|
                    0 <= i < olds.len() && (#[trigger] u[j]).state == olds[i].state && key_of(
                        u[j],
                    ) == key_of(olds[i]) by {
                    assert(exists|i: int|
                        0 <= i < olds.skip(1).len() && (#[trigger] u2[j]).state == olds.skip(
                            1,
                        )[i].state && key_of(u2[j]) == key_of(olds.skip(1)[i]));
                    let i0 = choose|i: int|
                        0 <= i < olds.skip(1).len() && (#[trigger] u2[j]).state == olds.skip(
                            1,
                        )[i].state && key_of(u2[j]) == key_of(olds.skip(1)[i]);
                    assert(olds.skip(1)[i0] == olds[i0 + 1]);
                }
            },
        }
    }
}

/// The adoption step only appends to the updated accumulator.
proof fn lemma_adopt_prefix(olds: Seq<CardModel>, map: Seq<CardModel>, upd: Seq<CardModel>, orph: Seq<CardModel>)
    ensures
        ({
            let (u, o, l) = adopt(olds, map, upd, orph);
            u.len() >= upd.len() && forall|j: int| 0 <= j < upd.len() ==> u[j] == upd[j]
        }),
    decreases olds.len(),
{
    if olds.len() > 0 {
        let c0 = olds[0];
        match find_key(map, key_of(c0), 0) {
            Some(jm) => {
                let pushed = CardModel { content: map[jm].content, state: c0.state };
                lemma_adopt_prefix(olds.skip(1), map.remove(jm), upd.push(pushed), orph);
            },
            None => {
                lemma_adopt_prefix(olds.skip(1), map, upd, orph.push(c0));
            },
        }
    }
}

/// Reconciling a card set whose identities match the incoming map exactly
/// (one for one, as multisets of keys) orphans nothing, consumes the whole
/// map, and keeps the card count.
pub proof fn lemma_adopt_balanced(
    olds: Seq<CardModel>,
    map: Seq<CardModel>,
    upd: Seq<CardModel>,
    orph: Seq<CardModel>,
)
    requires
        keys_of(olds).to_multiset() == keys_of(map).to_multiset(),
    ensures
        ({
            let (u, o, l) = adopt(olds, map, upd, orph);
            &&& o == orph
            &&& l.len() == 0
            &&& u.len() == upd.len() + olds.len()
        }),
    decreases olds.len(),
{
    broadcast use vstd::seq_lib::group_to_multiset_ensures;

    if olds.len() == 0 {
        assert(keys_of(olds).to_multiset() =~= Multiset::<Seq<char>>::empty());
        assert(keys_of(map).to_multiset().len() == 0);
        assert(keys_of(map).len() == 0);
        assert(map.len() == 0);
    } else {
        let k0 = key_of(olds[0]);
        assert(keys_of(olds)[0] == k0);
        assert(keys_of(olds).contains(k0));
        vstd::seq_lib::to_multiset_contains(keys_of(olds), k0);
        vstd::seq_lib::to_multiset_contains(keys_of(map), k0);
        assert(keys_of(map).contains(k0));
        let w = choose|j: int| 0 <= j < keys_of(map).len() && keys_of(map)[j] == k0;
        assert(key_of(map[w]) == k0);
        lemma_find_key_exists(map, k0, 0);
        lemma_find_key_props(map, k0, 0);
        let jm = find_key(map, k0, 0)->Some_0;
        let pushed = CardModel { content: map[jm].content, state: olds[0].state };
        assert(keys_of(map.remove(jm)) =~= keys_of(map).remove(jm));
        assert(keys_of(olds.skip(1)) =~= keys_of(olds).remove(0));
        vstd::seq_lib::to_multiset_remove(keys_of(map), jm);
        vstd::seq_lib::to_multiset_remove(keys_of(olds), 0);
        assert(keys_of(map)[jm] == k0);
        assert(keys_of(olds.skip(1)).to_multiset() =~= keys_of(map.remove(jm)).to_multiset());
        lemma_adopt_balanced(olds.skip(1), map.remove(jm), upd.push(pushed), orph);
    }
}


/// Whether a card takes part in a rescheduling window starting at `first`
/// and `days` long: not buried and due before the window's end.
pub open spec fn in_window(c: CardModel, first: int, days: int) -> bool {
    !c.state.buried && c.state.review_date - first < days
}

/// The search radius a window card needs before every window day is among
/// its candidates.
pub open spec fn need_of(c: CardModel, first: int, days: int) -> int {
    let a = c.state.review_date - first;
    let b = first + days - 1 - c.state.review_date;
    if a > b {
        a
    } else {
        b
    }
}

/// The largest radius any window card needs.
pub open spec fn max_need(cards: Seq<CardModel>, first: int, days: int, from: int) -> int
    decreases cards.len() - from,
{
    if from < 0 || from >= cards.len() {
        0
    } else {
        let rest = max_need(cards, first, days, from + 1);
        let mine = if in_window(cards[from], first, days) {
            need_of(cards[from], first, days)
        } else {
            0int
        };
        if mine > rest {
            mine
        } else {
            rest
        }
    }
}

proof fn lemma_max_need_covers(cards: Seq<CardModel>, first: int, days: int, from: int, ci: int)
    requires
        days >= 1,
        0 <= from <= ci < cards.len(),
        in_window(cards[ci], first, days),
    ensures
        need_of(cards[ci], first, days) <= max_need(cards, first, days, from),
    decreases cards.len() - from,
{
    if from < ci {
        lemma_max_need_covers(cards, first, days, from + 1, ci);
    }
}

proof fn lemma_max_need_nonneg(cards: Seq<CardModel>, first: int, days: int, from: int)
    ensures
        max_need(cards, first, days, from) >= 0,
    decreases cards.len() - from,
{
    if !(from < 0 || from >= cards.len()) {
        lemma_max_need_nonneg(cards, first, days, from + 1);
    }
}


/// How many cards at or after `from` take part in the window.
pub open spec fn window_count(cards: Seq<CardModel>, first: int, days: int, from: int) -> int
    decreases cards.len() - from,
{
    if from < 0 || from >= cards.len() {
        0
    } else {
        (if in_window(cards[from], first, days) {
            1int
        } else {
            0int
        }) + window_count(cards, first, days, from + 1)
    }
}

/// The per-day limit a rescheduling run enforces: the caller's cap, raised
/// to the least value that fits every window card.
pub open spec fn resched_cap(user: int, wtotal: int, days: int) -> int {
    let per = (wtotal + days - 1) / days;
    if user > per {
        user
    } else {
        per
    }
}

/// How many window cards outside the unplaced list `rem` are due on day
/// `d` in the current card state.
pub open spec fn placed_on_day(
    olds: Seq<CardModel>,
    cur: Seq<CardModel>,
    rem: Seq<usize>,
    first: int,
    days: int,
    d: int,
    from: int,
) -> int
    decreases olds.len() - from,
{
    if from < 0 || from >= olds.len() {
        0
    } else {
        (if in_window(olds[from], first, days) && !contains_idx(rem, from) && cur[
            from
        ].state.review_date == d {
            1int
        } else {
            0int
        }) + placed_on_day(olds, cur, rem, first, days, d, from + 1)
    }
}

/// While every window card is still unplaced, nothing counts as placed.
proof fn lemma_placed_zero(
    olds: Seq<CardModel>,
    cur: Seq<CardModel>,
    rem: Seq<usize>,
    first: int,
    days: int,
    d: int,
    from: int,
)
    requires
        forall|ci: int|
            0 <= ci < olds.len() && in_window(#[trigger] olds[ci], first, days) ==> contains_idx(
                rem,
                ci,
            ),
    ensures
        placed_on_day(olds, cur, rem, first, days, d, from) == 0,
    decreases olds.len() - from,
{
    if !(from < 0 || from >= olds.len()) {
        lemma_placed_zero(olds, cur, rem, first, days, d, from + 1);
    }
}

/// The placed count only depends on which indices remain, not on the
/// list's shape.
proof fn lemma_placed_membership(
    olds: Seq<CardModel>,
    cur: Seq<CardModel>,
    rem1: Seq<usize>,
    rem2: Seq<usize>,
    first: int,
    days: int,
    d: int,
    from: int,
)
    requires
        forall|ci: int| contains_idx(rem1, ci) == contains_idx(rem2, ci),
    ensures
        placed_on_day(olds, cur, rem1, first, days, d, from) == placed_on_day(
            olds,
            cur,
            rem2,
            first,
            days,
            d,
            from,
        ),
    decreases olds.len() - from,
{
    if !(from < 0 || from >= olds.len()) {
        lemma_placed_membership(olds, cur, rem1, rem2, first, days, d, from + 1);
    }
}

/// Placing one unplaced window card on its day raises that day's placed
/// count by one and no other day's.
proof fn lemma_placed_update(
    olds: Seq<CardModel>,
    cur: Seq<CardModel>,
    cur2: Seq<CardModel>,
    rem: Seq<usize>,
    rem2: Seq<usize>,
    idx: int,
    m2: CardModel,
    first: int,
    days: int,
    d: int,
    from: int,
)
    requires
        0 <= from,
        0 <= idx < olds.len(),
        cur.len() == olds.len(),
        in_window(olds[idx], first, days),
        contains_idx(rem, idx),
        !contains_idx(rem2, idx),
        forall|ci: int| ci != idx ==> contains_idx(rem, ci) == contains_idx(rem2, ci),
        cur2 == cur.update(idx, m2),
    ensures
        placed_on_day(olds, cur2, rem2, first, days, d, from) == placed_on_day(
            olds,
            cur,
            rem,
            first,
            days,
            d,
            from,
        ) + (if from <= idx && m2.state.review_date == d {
            1int
        } else {
            0int
        }),
    decreases olds.len() - from,
{
    if !(from < 0 || from >= olds.len()) {
        lemma_placed_update(olds, cur, cur2, rem, rem2, idx, m2, first, days, d, from + 1);
        if from == idx {
            assert(cur2[from] == m2);
            assert(!contains_idx(rem2, from));
        } else {
            assert(cur2[from] == cur[from]);
            assert(contains_idx(rem, from) == contains_idx(rem2, from));
        }
    }
}

/// The total of a day-count vector.
pub open spec fn sum_of(s: Seq<usize>) -> int
    decreases s.len(),
{
    if s.len() == 0 {
        0
    } else {
        sum_of(s.drop_last()) + s.last()
    }
}

proof fn lemma_sum_update(s: Seq<usize>, d: int, v: usize)
    requires
        0 <= d < s.len(),
    ensures
        sum_of(s.update(d, v)) == sum_of(s) - s[d] + v,
    decreases s.len(),
{
    if d == s.len() - 1 {
        assert(s.update(d, v).drop_last() =~= s.drop_last());
    } else {
        assert(s.update(d, v).drop_last() =~= s.drop_last().update(d, v));
        lemma_sum_update(s.drop_last(), d, v);
    }
}

/// A day-count vector whose total is under its capacity has a day with
/// room to spare.
proof fn lemma_pigeonhole(s: Seq<usize>, cap: usize)
    requires
        sum_of(s) < s.len() * cap,
    ensures
        exists|d: int| 0 <= d < s.len() && s[d] < cap,
    decreases s.len(),
{
    assert(s.len() > 0);
    if s.last() < cap {
        assert(0 <= s.len() - 1 < s.len() && s[s.len() - 1] < cap);
    } else {
        assert((s.len() - 1) * cap == s.len() * cap - cap) by (nonlinear_arith);
        lemma_pigeonhole(s.drop_last(), cap);
        let d = choose|d: int| 0 <= d < s.drop_last().len() && s.drop_last()[d] < cap;
        assert(s[d] < cap);
    }
}

/// Whether `ci` occurs in an index list.
pub open spec fn contains_idx(s: Seq<usize>, ci: int) -> bool {
    exists|t: int| 0 <= t < s.len() && (#[trigger] s[t]) as int == ci
}

/// The state of one card during a rescheduling run, relative to the
/// remaining unplaced indices: unplaced and out-of-window cards are
/// untouched, placed ones moved into the window with nothing else changed.
pub open spec fn resched_invariant(
    olds: Seq<CardModel>,
    cur: Seq<CardModel>,
    remaining: Seq<usize>,
    first: int,
    days: int,
) -> bool {
    &&& cur.len() == olds.len()
    &&& forall|ci: int|
        0 <= ci < olds.len() ==> if contains_idx(remaining, ci) || !in_window(
            #[trigger] olds[ci],
            first,
            days,
        ) {
            cur[ci] == olds[ci]
        } else {
            &&& cur[ci].content == olds[ci].content
            &&& cur[ci].state == (crate::card::StateModel {
                review_date: cur[ci].state.review_date,
                ..olds[ci].state
            })
            &&& first <= cur[ci].state.review_date < first + days
        }
}

proof fn lemma_max_need_bound(cards: Seq<CardModel>, first: int, days: int, from: int)
    requires
        1 <= days <= 0x8000_0000,
        -0x8000_0000 <= first <= 0x8000_0000,
        forall|i: int|
            0 <= i < cards.len() ==> -0x8000_0000 <= (#[trigger] cards[i]).state.review_date
                <= 0x8000_0000,
    ensures
        max_need(cards, first, days, from) <= 0x4_0000_0000,
    decreases cards.len() - from,
{
    if !(from < 0 || from >= cards.len()) {
        lemma_max_need_bound(cards, first, days, from + 1);
    }
}

impl Deck {
    /// Spreads the cards due before `first_day + days` over the window at
    /// up to `max_cards_per_day` a day (raised to fit them all when too
    /// small), scanning candidate days at growing distance from each
    /// card's own due day. Cards outside the window, and everything but
    /// the due dates of the moved cards, stay untouched; every moved card
    /// ends inside the window, and the scan always terminates because the
    /// radius eventually covers the whole window, whose capacity suffices.
    #[verifier::loop_isolation(false)]
    #[verifier::rlimit(60)]
    pub fn reschedule(&mut self, first_day: Date, days: i32, max_cards_per_day: usize)
        requires
            1 <= days,
            first_day.day + days <= i32::MAX,
            old(self).cards@.len() + days <= usize::MAX,
            max_cards_per_day <= usize::MAX - old(self).cards@.len(),
        ensures
            *final(self) == (Deck { cards: final(self).cards, ..*old(self) }),
            resched_invariant(
                views_of(old(self).cards@),
                views_of(final(self).cards@),
                Seq::empty(),
                first_day.day as int,
                days as int,
            ),
            forall|d: int|
                first_day.day <= d < first_day.day + days ==> placed_on_day(
                    views_of(old(self).cards@),
                    views_of(final(self).cards@),
                    Seq::empty(),
                    first_day.day as int,
                    days as int,
                    d,
                    0,
                ) <= resched_cap(
                    max_cards_per_day as int,
                    window_count(
                        views_of(old(self).cards@),
                        first_day.day as int,
                        days as int,
                        0,
                    ),
                    days as int,
                ),
    {
        let ghost olds = views_of(self.cards@);
        let ghost firsti = first_day.day as int;
        let ghost daysi = days as int;
        proof {
            assert forall|ci: int| 0 <= ci < olds.len() implies -0x8000_0000 <= (
            #[trigger] olds[ci]).state.review_date <= 0x8000_0000 by {
                assert(olds[ci] == old(self).cards@[ci]@);
            }
        }
        let mut indices: Vec<usize> = Vec::new();
        let mut i: usize = 0;
        while i < self.cards.len()
            invariant
                self.cards == old(self).cards,
                0 <= i <= olds.len(),
                forall|t: int|
                    0 <= t < indices@.len() ==> ((#[trigger] indices@[t]) as int) < i as int
                        && in_window(olds[indices@[t] as int], firsti, daysi),
                forall|t1: int, t2: int|
                    0 <= t1 < t2 < indices@.len() ==> (#[trigger] indices@[t1]) < (
                    #[trigger] indices@[t2]),
                forall|ci: int|
                    0 <= ci < i && in_window(#[trigger] olds[ci], firsti, daysi) ==> contains_idx(
                        indices@,
                        ci,
                    ),
                indices@.len() <= i,
                indices@.len() as int == window_count(olds, firsti, daysi, 0) - window_count(
                    olds,
                    firsti,
                    daysi,
                    i as int,
                ),
            decreases olds.len() - i,
        {
            let ghost inds0 = indices@;
            let c = &self.cards[i];
            let inwin = !c.fsrs_state.buried && (c.fsrs_state.review_date.day as i64) - (
            first_day.day as i64) < days as i64;
            proof {
                assert(olds[i as int] == self.cards@[i as int]@);
                assert(inwin == in_window(olds[i as int], firsti, daysi));
            }
            if inwin {
                indices.push(i);
                proof {
                    assert(indices@[indices@.len() - 1] == i);
                }
            }
            proof {
                assert forall|ci: int|
                    0 <= ci < i + 1 && in_window(#[trigger] olds[ci], firsti, daysi) implies
                    contains_idx(indices@, ci) by {
                    if ci == i as int {
                        assert(indices@[indices@.len() - 1] as int == ci);
                    } else {
                        let t = choose|t: int|
                            0 <= t < inds0.len() && (#[trigger] inds0[t]) as int == ci;
                        assert(indices@[t] == inds0[t]);
                    }
                }
            }
            i = i + 1;
        }
        let window_total = indices.len();
        let ghost wtotal = window_total as int;
        proof {
            assert(window_count(olds, firsti, daysi, olds.len() as int) == 0);
            assert(wtotal == window_count(olds, firsti, daysi, 0));
        }
        let cards_per_day = (window_total + (days as usize) - 1) / (days as usize);
        let cap = if max_cards_per_day > cards_per_day {
            max_cards_per_day
        } else {
            cards_per_day
        };
        proof {
            assert(wtotal <= daysi * (cards_per_day as int)) by (nonlinear_arith)
                requires
                    daysi >= 1,
                    cards_per_day as int == (wtotal + daysi - 1) / daysi,
                    wtotal >= 0,
            ;
            assert(daysi * (cards_per_day as int) <= daysi * (cap as int)) by (nonlinear_arith)
                requires
                    daysi >= 1,
                    cards_per_day as int <= cap as int,
            ;
            assert(cap as int == resched_cap(max_cards_per_day as int, wtotal, daysi));
        }
        let mut counts: Vec<usize> = Vec::new();
        let mut z: usize = 0;
        while z < days as usize
            invariant
                0 <= z <= days as usize,
                counts@.len() == z,
                forall|d: int| 0 <= d < z ==> (#[trigger] counts@[d]) == 0,
                sum_of(counts@) == 0,
            decreases days as usize - z,
        {
            let ghost c0 = counts@;
            counts.push(0);
            proof {
                assert(counts@.drop_last() =~= c0);
            }
            z = z + 1;
        }
        let ghost b = max_need(olds, firsti, daysi, 0);
        proof {
            lemma_max_need_nonneg(olds, firsti, daysi, 0);
            lemma_max_need_bound(olds, firsti, daysi, 0);
        }
        let mut max_diff: i64 = 0;
        proof {
            assert(indices@.skip(0) =~= indices@);
            assert forall|dd: int| 0 <= dd < daysi implies (#[trigger] counts@[dd]) as int
                == placed_on_day(olds, views_of(self.cards@), indices@, firsti, daysi, firsti + dd, 0)
                by {
                lemma_placed_zero(
                    olds,
                    views_of(self.cards@),
                    indices@,
                    firsti,
                    daysi,
                    firsti + dd,
                    0,
                );
            }
        }
        while indices.len() > 0
            invariant
                self.orphans == old(self).orphans,
                self.base_cards == old(self).base_cards,
                self.track_review_history == old(self).track_review_history,
                self.review_index == old(self).review_index,
                self.review_indices == old(self).review_indices,
                self.review_date == old(self).review_date,
                self.edited_cards == old(self).edited_cards,
                resched_invariant(olds, views_of(self.cards@), indices@, firsti, daysi),
                forall|t: int|
                    0 <= t < indices@.len() ==> ((#[trigger] indices@[t]) as int) < olds.len()
                        && in_window(olds[indices@[t] as int], firsti, daysi),
                forall|t1: int, t2: int|
                    0 <= t1 < t2 < indices@.len() ==> (#[trigger] indices@[t1]) != (
                    #[trigger] indices@[t2]),
                counts@.len() == daysi,
                forall|d: int| 0 <= d < daysi ==> (#[trigger] counts@[d]) <= cap,
                sum_of(counts@) == wtotal - indices@.len(),
                forall|dd: int|
                    0 <= dd < daysi ==> (#[trigger] counts@[dd]) as int == placed_on_day(
                        olds,
                        views_of(self.cards@),
                        indices@,
                        firsti,
                        daysi,
                        firsti + dd,
                        0,
                    ),
                indices@.len() <= wtotal,
                indices@.len() > 0 ==> max_diff as int <= b,
                0 <= max_diff <= b + 1,
            decreases b + 1 - max_diff,
        {
            let ghost inds0 = indices@;
            let mut new_indices: Vec<usize> = Vec::new();
            let mut p: usize = 0;
            proof {
                assert(indices@.skip(0) + new_indices@ =~= indices@);
            }
            while p < indices.len()
                invariant
                    self.orphans == old(self).orphans,
                    self.base_cards == old(self).base_cards,
                    self.track_review_history == old(self).track_review_history,
                    self.review_index == old(self).review_index,
                    self.review_indices == old(self).review_indices,
                    self.review_date == old(self).review_date,
                    self.edited_cards == old(self).edited_cards,
                    inds0 == indices@,
                    0 <= p <= indices@.len(),
                    resched_invariant(
                        olds,
                        views_of(self.cards@),
                        indices@.skip(p as int) + new_indices@,
                        firsti,
                        daysi,
                    ),
                    forall|t: int|
                        0 <= t < new_indices@.len() ==> contains_idx(
                            indices@.take(p as int),
                            (#[trigger] new_indices@[t]) as int,
                        ),
                    forall|t1: int, t2: int|
                        0 <= t1 < t2 < new_indices@.len() ==> (#[trigger] new_indices@[t1]) != (
                        #[trigger] new_indices@[t2]),
                    counts@.len() == daysi,
                    forall|d: int| 0 <= d < daysi ==> (#[trigger] counts@[d]) <= cap,
                    sum_of(counts@) == wtotal - (indices@.len() - p) - new_indices@.len(),
                    forall|dd: int|
                        0 <= dd < daysi ==> (#[trigger] counts@[dd]) as int == placed_on_day(
                            olds,
                            views_of(self.cards@),
                            indices@.skip(p as int) + new_indices@,
                            firsti,
                            daysi,
                            firsti + dd,
                            0,
                        ),
                    indices@.len() - p + new_indices@.len() <= wtotal,
                    max_diff as int >= b ==> new_indices@.len() == 0,
                decreases indices@.len() - p,
            {
                let idx = indices[p];
                let ghost remaining = indices@.skip(p as int) + new_indices@;
                proof {
                    assert(indices@.skip(p as int)[0] == idx);
                    assert(remaining[0] == idx);
                    assert(contains_idx(remaining, idx as int));
                    assert(views_of(self.cards@)[idx as int] == olds[idx as int]);
                    assert(views_of(self.cards@)[idx as int] == self.cards@[idx as int]@);
                }
                let rd: i64 = self.cards[idx].fsrs_state.review_date.day as i64;
                let span: i64 = 2 * max_diff + 1;
                let mut k: i64 = 0;
                let mut placed: bool = false;
                let mut placed_day: usize = 0;
                while k < span && !placed
                    invariant
                        0 <= k <= span,
                        span == 2 * max_diff + 1,
                        !placed ==> forall|kk: int|
                            #![trigger (rd - firsti - max_diff + kk)]
                            0 <= kk < k ==> !(0 <= rd - firsti - max_diff + kk < daysi && counts@[
                                rd - firsti - max_diff + kk
                            ] < cap),
                        placed ==> (placed_day as int) < daysi && counts@[placed_day as int] < cap,
                        placed ==> rd - firsti - max_diff <= placed_day as int <= rd - firsti
                            + max_diff,
                    decreases span - k, (if placed {
                        0int
                    } else {
                        1int
                    }),
                {
                    let day_idx: i64 = rd - (first_day.day as i64) - max_diff + k;
                    if 0 <= day_idx && day_idx < days as i64 {
                        let di = day_idx as usize;
                        if counts[di] < cap {
                            placed = true;
                            placed_day = di;
                        } else {
                            k = k + 1;
                        }
                    } else {
                        k = k + 1;
                    }
                }
                let ghost newrem = indices@.skip(p + 1) + new_indices@.push(idx);
                let ghost placedrem = indices@.skip(p + 1) + new_indices@;
                proof {
                    assert(newrem[newrem.len() - 1] == idx);
                    assert(contains_idx(newrem, idx as int));
                    // Membership in the remaining set shifts by one
                    // processed entry; the card itself leaves it exactly
                    // when it was placed.
                    assert forall|ci: int| contains_idx(remaining, ci) implies ci == idx as int
                        || (contains_idx(placedrem, ci) && contains_idx(newrem, ci)) by {
                        let t = choose|t: int|
                            0 <= t < remaining.len() && (#[trigger] remaining[t]) as int == ci;
                        if t == 0 {
                            assert(remaining[0] == idx);
                        } else if t < indices@.skip(p as int).len() {
                            assert(remaining[t] == indices@.skip(p as int)[t]);
                            assert(indices@.skip(p as int)[t] == indices@.skip(p + 1)[t - 1]);
                            assert(placedrem[t - 1] == indices@.skip(p + 1)[t - 1]);
                            assert(newrem[t - 1] == indices@.skip(p + 1)[t - 1]);
                        } else {
                            let t2 = t - indices@.skip(p as int).len();
                            assert(remaining[t] == new_indices@[t2]);
                            assert(placedrem[indices@.skip(p + 1).len() + t2] == new_indices@[t2]);
                            assert(newrem[indices@.skip(p + 1).len() + t2]
                                == new_indices@.push(idx)[t2]);
                        }
                    }
                    assert forall|ci: int| contains_idx(placedrem, ci) implies contains_idx(
                        remaining,
                        ci,
                    ) by {
                        let t = choose|t: int|
                            0 <= t < placedrem.len() && (#[trigger] placedrem[t]) as int == ci;
                        if t < indices@.skip(p + 1).len() {
                            assert(placedrem[t] == indices@.skip(p + 1)[t]);
                            assert(indices@.skip(p as int)[t + 1] == indices@.skip(p + 1)[t]);
                            assert(remaining[t + 1] == indices@.skip(p as int)[t + 1]);
                        } else {
                            let t2 = t - indices@.skip(p + 1).len();
                            assert(placedrem[t] == new_indices@[t2]);
                            assert(remaining[indices@.skip(p as int).len() + t2]
                                == new_indices@[t2]);
                        }
                    }
                    assert forall|ci: int| contains_idx(newrem, ci) implies contains_idx(
                        remaining,
                        ci,
                    ) by {
                        let t = choose|t: int|
                            0 <= t < newrem.len() && (#[trigger] newrem[t]) as int == ci;
                        if t < indices@.skip(p + 1).len() {
                            assert(newrem[t] == indices@.skip(p + 1)[t]);
                            assert(indices@.skip(p as int)[t + 1] == indices@.skip(p + 1)[t]);
                            assert(remaining[t + 1] == indices@.skip(p as int)[t + 1]);
                        } else {
                            let t2 = t - indices@.skip(p + 1).len();
                            assert(newrem[t] == new_indices@.push(idx)[t2]);
                            if t2 < new_indices@.len() {
                                assert(remaining[indices@.skip(p as int).len() + t2]
                                    == new_indices@[t2]);
                            } else {
                                assert(new_indices@.push(idx)[t2] == idx);
                                assert(remaining[0] == idx);
                            }
                        }
                    }
                }
                if placed {
                    let ghost counts0 = counts@;
                    let ghost cur0 = views_of(self.cards@);
                    let newday: i32 = first_day.day + (placed_day as i32);
                    let mut card = self.cards.remove(idx);
                    card.fsrs_state.review_date = Date { day: newday };
                    self.cards.insert(idx, card);
                    let oldcount = counts[placed_day];
                    counts.set(placed_day, oldcount + 1);
                    proof {
                        lemma_sum_update(counts0, placed_day as int, (oldcount + 1) as usize);
                        assert(views_of(self.cards@) =~= cur0.update(
                            idx as int,
                            self.cards@[idx as int]@,
                        ));
                        assert(!contains_idx(placedrem, idx as int)) by {
                            if contains_idx(placedrem, idx as int) {
                                let t = choose|t: int|
                                    0 <= t < placedrem.len() && (#[trigger] placedrem[t]) as int
                                        == idx as int;
                                if t < indices@.skip(p + 1).len() {
                                    assert(placedrem[t] == indices@[p + 1 + t]);
                                    assert(indices@[p as int] == idx);
                                } else {
                                    let t2 = t - indices@.skip(p + 1).len();
                                    assert(contains_idx(
                                        indices@.take(p as int),
                                        new_indices@[t2] as int,
                                    ));
                                    let t3 = choose|t3: int|
                                        0 <= t3 < p && (#[trigger] indices@.take(p as int)[t3])
                                            as int == idx as int;
                                    assert(indices@[t3] == indices@.take(p as int)[t3]);
                                    assert(indices@[p as int] == idx);
                                }
                            }
                        }
                        assert(resched_invariant(
                            olds,
                            views_of(self.cards@),
                            placedrem,
                            firsti,
                            daysi,
                        ));
                        let m2 = self.cards@[idx as int]@;
                        assert(m2.state.review_date == firsti + placed_day);
                        assert forall|ci: int| ci != idx as int implies contains_idx(
                            remaining,
                            ci,
                        ) == contains_idx(placedrem, ci) by {}
                        assert forall|dd: int| 0 <= dd < daysi implies (
                        #[trigger] counts@[dd]) as int == placed_on_day(
                            olds,
                            views_of(self.cards@),
                            placedrem,
                            firsti,
                            daysi,
                            firsti + dd,
                            0,
                        ) by {
                            lemma_placed_update(
                                olds,
                                cur0,
                                views_of(self.cards@),
                                remaining,
                                placedrem,
                                idx as int,
                                m2,
                                firsti,
                                daysi,
                                firsti + dd,
                                0,
                            );
                        }
                    }
                } else {
                    new_indices.push(idx);
                    proof {
                        // A radius beyond every card's need always places:
                        // some window day has spare room, and the scan
                        // covered every window day.
                        if max_diff as int >= b {
                            lemma_max_need_covers(olds, firsti, daysi, 0, idx as int);
                            assert(sum_of(counts@) < daysi * (cap as int));
                            lemma_pigeonhole(counts@, cap);
                            let dstar = choose|d: int|
                                0 <= d < counts@.len() && (#[trigger] counts@[d]) < cap;
                            let kstar = dstar - (rd - firsti - max_diff);
                            assert(rd - firsti <= need_of(olds[idx as int], firsti, daysi));
                            assert(firsti + daysi - 1 - rd <= need_of(
                                olds[idx as int],
                                firsti,
                                daysi,
                            ));
                            assert(0 <= kstar < 2 * max_diff + 1);
                            assert(rd - firsti - max_diff + kstar == dstar);
                            assert(false);
                        }
                        assert forall|ci: int| contains_idx(remaining, ci) implies contains_idx(
                            newrem,
                            ci,
                        ) by {}
                        assert forall|ci: int| 0 <= ci < olds.len() implies contains_idx(
                            newrem,
                            ci,
                        ) == contains_idx(remaining, ci) by {}
                        assert(resched_invariant(
                            olds,
                            views_of(self.cards@),
                            newrem,
                            firsti,
                            daysi,
                        ));
                        assert forall|dd: int| 0 <= dd < daysi implies (
                        #[trigger] counts@[dd]) as int == placed_on_day(
                            olds,
                            views_of(self.cards@),
                            newrem,
                            firsti,
                            daysi,
                            firsti + dd,
                            0,
                        ) by {
                            lemma_placed_membership(
                                olds,
                                views_of(self.cards@),
                                remaining,
                                newrem,
                                firsti,
                                daysi,
                                firsti + dd,
                                0,
                            );
                        }
                    }
                }
                p = p + 1;
                proof {
                    if placed {
                        assert(indices@.skip(p as int) + new_indices@ =~= placedrem);
                    } else {
                        assert(indices@.skip(p as int) + new_indices@ =~= newrem);
                    }
                }
            }
            proof {
                assert(max_diff as int >= b ==> new_indices@.len() == 0);
            }
            let ghost nv = new_indices@;
            indices = new_indices;
            max_diff = max_diff + 1;
            proof {
                assert(indices@ == nv);
                if indices@.len() > 0 {
                    assert(!((max_diff - 1) as int >= b));
                    assert(max_diff as int <= b);
                }
                assert(indices@.skip(0) + Seq::<usize>::empty() =~= indices@);
                assert(resched_invariant(olds, views_of(self.cards@), indices@, firsti, daysi));
                assert forall|t: int| 0 <= t < indices@.len() implies ((
                #[trigger] indices@[t]) as int) < olds.len() && in_window(
                    olds[indices@[t] as int],
                    firsti,
                    daysi,
                ) by {
                    assert(contains_idx(inds0, indices@[t] as int)) by {
                        assert(contains_idx(inds0.take(inds0.len() as int), indices@[t] as int));
                        let t3 = choose|t3: int|
                            0 <= t3 < inds0.len() && (#[trigger] inds0.take(
                                inds0.len() as int,
                            )[t3]) as int == indices@[t] as int;
                        assert(inds0[t3] == inds0.take(inds0.len() as int)[t3]);
                    }
                    let t4 = choose|t4: int|
                        0 <= t4 < inds0.len() && (#[trigger] inds0[t4]) as int == indices@[t]
                            as int;
                }
            }
        }
        proof {
            assert forall|ci: int| !contains_idx(Seq::<usize>::empty(), ci) by {}
            assert forall|ci: int| !contains_idx(indices@, ci) by {}
            assert(resched_invariant(
                olds,
                views_of(self.cards@),
                Seq::<usize>::empty(),
                firsti,
                daysi,
            ));
            assert forall|d: int| firsti <= d < firsti + daysi implies placed_on_day(
                olds,
                views_of(self.cards@),
                Seq::<usize>::empty(),
                firsti,
                daysi,
                d,
                0,
            ) <= resched_cap(max_cards_per_day as int, wtotal, daysi) by {
                let dd = d - firsti;
                lemma_placed_membership(
                    olds,
                    views_of(self.cards@),
                    indices@,
                    Seq::<usize>::empty(),
                    firsti,
                    daysi,
                    d,
                    0,
                );
                assert(counts@[dd] as int == placed_on_day(
                    olds,
                    views_of(self.cards@),
                    indices@,
                    firsti,
                    daysi,
                    firsti + dd,
                    0,
                ));
                assert(counts@[dd] <= cap);
            }
        }
    }
}

proof fn lemma_mod_step(a: int, n: int)
    requires
        0 <= a,
        1 <= n,
    ensures
        (a + 1) % n == (if a % n == n - 1 {
            0int
        } else {
            a % n + 1
        }),
{
    vstd::arithmetic::div_mod::lemma_fundamental_div_mod(a, n);
    vstd::arithmetic::div_mod::lemma_mod_bound(a, n);
    if a % n == n - 1 {
        assert(a + 1 == (a / n + 1) * n + 0) by (nonlinear_arith)
            requires
                a == n * (a / n) + a % n,
                a % n == n - 1,
        ;
        vstd::arithmetic::div_mod::lemma_fundamental_div_mod_converse_mod(a + 1, n, a / n + 1, 0);
    } else {
        assert(a + 1 == (a / n) * n + (a % n + 1)) by (nonlinear_arith)
            requires
                a == n * (a / n) + a % n,
        ;
        vstd::arithmetic::div_mod::lemma_fundamental_div_mod_converse_mod(
            a + 1,
            n,
            a / n,
            a % n + 1,
        );
    }
}

/// The first acceptable card index scanning cyclically from `start`: not
/// already chosen and not buried.
pub open spec fn scan_acceptable(
    cards: Seq<CardModel>,
    chosen: Seq<usize>,
    start: int,
    k: int,
) -> Option<int>
    decreases cards.len() - k,
{
    if k < 0 || k >= cards.len() {
        None
    } else {
        let idx = (start + k) % (cards.len() as int);
        if !contains_idx(chosen, idx) && !cards[idx].state.buried {
            Some(idx)
        } else {
            scan_acceptable(cards, chosen, start, k + 1)
        }
    }
}

proof fn lemma_scan_acceptable_props(cards: Seq<CardModel>, chosen: Seq<usize>, start: int, k: int)
    ensures
        scan_acceptable(cards, chosen, start, k) matches Some(idx) ==> 0 <= idx < cards.len()
            && !contains_idx(chosen, idx) && !cards[idx].state.buried,
    decreases cards.len() - k,
{
    if !(k < 0 || k >= cards.len()) {
        vstd::arithmetic::div_mod::lemma_mod_bound(start + k, cards.len() as int);
        lemma_scan_acceptable_props(cards, chosen, start, k + 1);
    }
}

/// What sampling without replacement draws: one generator step per try,
/// each a cyclic scan from a uniform start; a try finding nothing ends the
/// sampling.
pub open spec fn random_fill(
    cards: Seq<CardModel>,
    chosen: Seq<usize>,
    gen: u64,
    remaining: int,
) -> (Seq<usize>, u64)
    decreases remaining,
{
    if remaining <= 0 || cards.len() == 0 {
        (chosen, gen)
    } else {
        let g1 = next_state_of(gen);
        let r = mix_of(g1);
        let start = (r as int) % (cards.len() as int);
        match scan_acceptable(cards, chosen, start, 0) {
            None => (chosen, g1),
            Some(idx) => random_fill(cards, chosen.push(idx as usize), g1, remaining - 1),
        }
    }
}

impl Deck {
    /// Sets one card's due date to the given count of days after its last
    /// review, as the fractional rescheduler computes it.
    pub fn reschedule_card(&mut self, index: usize, no_days: i32)
        requires
            index < old(self).cards@.len(),
            no_days >= 1,
            old(self).cards@[index as int].fsrs_state.last_review.day + no_days <= i32::MAX,
        ensures
            *final(self) == (Deck { cards: final(self).cards, ..*old(self) }),
            final(self).cards@.len() == old(self).cards@.len(),
            forall|j: int|
                0 <= j < old(self).cards@.len() && j != index ==> final(self).cards@[j] == old(
                    self,
                ).cards@[j],
            final(self).cards@[index as int].content == old(self).cards@[index as int].content,
            final(self).cards@[index as int].fsrs_state == (crate::fsrs::FSRSState {
                review_date: Date {
                    day: (old(self).cards@[index as int].fsrs_state.last_review.day
                        + no_days) as i32,
                },
                ..old(self).cards@[index as int].fsrs_state
            }),
    {
        let mut card = self.cards.remove(index);
        let lr = card.fsrs_state.last_review;
        card.fsrs_state.review_date = Date { day: lr.day + no_days };
        self.cards.insert(index, card);
        proof {
            assert(self.cards@ =~= old(self).cards@.update(
                index as int,
                self.cards@[index as int],
            ));
        }
    }

    /// Starts a session over up to `review_count` distinct non-buried
    /// cards, sampled with one generator draw per pick; a draw that finds
    /// no acceptable card ends the sampling early.
    pub fn start_random_review(
        &mut self,
        date: Date,
        generator: &mut SplitMix64,
        review_count: usize,
    )
        ensures
            *final(self) == (Deck {
                review_indices: final(self).review_indices,
                review_index: final(self).review_index,
                review_date: Some(date),
                ..*old(self)
            }),
            final(self).session_wf(),
            ({
                let target = if review_count <= old(self).cards@.len() {
                    review_count as int
                } else {
                    old(self).cards@.len() as int
                };
                let (chosen, g1) = random_fill(
                    views_of(old(self).cards@),
                    Seq::empty(),
                    old(generator)@,
                    target,
                );
                &&& final(self).review_indices@ == chosen
                &&& (chosen.len() >= 2 ==> final(generator)@ == next_state_of(g1))
                &&& (chosen.len() < 2 ==> final(generator)@ == g1)
                &&& index_matches(
                    final(self).review_index,
                    gen_index_of(
                        chosen.len() as int,
                        old(self).review_index,
                        mix_of(next_state_of(g1)),
                    ),
                )
            }),
    {
        let ghost cm = views_of(self.cards@);
        let ghost g0 = old(generator)@;
        self.review_indices = Vec::new();
        let count = if review_count <= self.cards.len() {
            review_count
        } else {
            self.cards.len()
        };
        let ghost target = count as int;
        let len = self.cards.len();
        let mut made: usize = 0;
        loop
            invariant_except_break
                cm == views_of(old(self).cards@),
                cm == views_of(self.cards@),
                g0 == old(generator)@,
                target == count as int,
                count <= cm.len(),
                len == cm.len(),
                self.review_index == old(self).review_index,
                self.review_date == old(self).review_date,
                self.cards == old(self).cards,
                self.orphans == old(self).orphans,
                self.base_cards == old(self).base_cards,
                self.edited_cards == old(self).edited_cards,
                self.track_review_history == old(self).track_review_history,
                0 <= made <= count,
                forall|t: int|
                    0 <= t < self.review_indices@.len() ==> ((
                    #[trigger] self.review_indices@[t]) as int) < cm.len(),
                random_fill(cm, self.review_indices@, generator@, target - made) == random_fill(
                    cm,
                    Seq::empty(),
                    g0,
                    target,
                ),
            ensures
                cm == views_of(old(self).cards@),
                cm == views_of(self.cards@),
                g0 == old(generator)@,
                target == count as int,
                self.review_index == old(self).review_index,
                self.review_date == old(self).review_date,
                self.cards == old(self).cards,
                self.orphans == old(self).orphans,
                self.base_cards == old(self).base_cards,
                self.edited_cards == old(self).edited_cards,
                self.track_review_history == old(self).track_review_history,
                forall|t: int|
                    0 <= t < self.review_indices@.len() ==> ((
                    #[trigger] self.review_indices@[t]) as int) < cm.len(),
                (self.review_indices@, generator@) == random_fill(cm, Seq::empty(), g0, target),
            decreases count - made,
        {
            if made >= count {
                break ;
            }
            let ghost chosen0 = self.review_indices@;
            let ghost gpre = generator@;
            let r = generator.next_rand();
            let start = (r % (len as u64)) as usize;
            proof {
                vstd::arithmetic::div_mod::lemma_mod_bound(r as int, len as int);
                assert(start as int == (mix_of(next_state_of(gpre)) as int) % (cm.len() as int));
            }
            let mut k: usize = 0;
            let mut idx: usize = start;
            let mut found: Option<usize> = None;
            proof {
                vstd::arithmetic::div_mod::lemma_fundamental_div_mod_converse_mod(
                    start as int,
                    len as int,
                    0,
                    start as int,
                );
            }
            while k < len
                invariant_except_break
                    len == cm.len(),
                    len == self.cards@.len(),
                    1 <= len,
                    0 <= k <= len,
                    idx as int == (start as int + k as int) % (len as int),
                    found is None,
                    scan_acceptable(cm, chosen0, start as int, 0) == scan_acceptable(
                        cm,
                        chosen0,
                        start as int,
                        k as int,
                    ),
                    self.review_indices@ == chosen0,
                    cm == views_of(self.cards@),
                    self.cards == old(self).cards,
                ensures
                    self.review_indices@ == chosen0,
                    cm == views_of(self.cards@),
                    self.cards == old(self).cards,
                    len == cm.len(),
                    found matches Some(fi) ==> scan_acceptable(cm, chosen0, start as int, 0)
                        == Some(fi as int),
                    found is None ==> scan_acceptable(cm, chosen0, start as int, 0) is None,
                decreases len - k,
            {
                proof {
                    vstd::arithmetic::div_mod::lemma_mod_bound(
                        start as int + k as int,
                        len as int,
                    );
                }
                let taken = self.contains_index(idx);
                let buried = self.cards[idx].fsrs_state.buried;
                proof {
                    assert(cm[idx as int] == self.cards@[idx as int]@);
                }
                if !taken && !buried {
                    found = Some(idx);
                    break ;
                }
                k = k + 1;
                proof {
                    lemma_mod_step(start as int + k as int - 1, len as int);
                }
                idx = if idx + 1 >= len {
                    0
                } else {
                    idx + 1
                };
            }
            match found {
                Some(fi) => {
                    self.review_indices.push(fi);
                    proof {
                        lemma_scan_acceptable_props(cm, chosen0, start as int, 0);
                        assert(self.review_indices@ =~= chosen0.push(fi));
                    }
                    made = made + 1;
                },
                None => {
                    break ;
                },
            }
        }
        self.review_date = Some(date);
        self.gen_review_index(generator);
    }

    /// Whether an index is already in the active set.
    fn contains_index(&self, idx: usize) -> (r: bool)
        ensures
            r == contains_idx(self.review_indices@, idx as int),
    {
        let mut t: usize = 0;
        while t < self.review_indices.len()
            invariant
                0 <= t <= self.review_indices@.len(),
                forall|u: int| 0 <= u < t ==> (#[trigger] self.review_indices@[u]) != idx,
            decreases self.review_indices@.len() - t,
        {
            if self.review_indices[t] == idx {
                return true;
            }
            t = t + 1;
        }
        false
    }
}


/// A text with its final newline guaranteed.
pub open spec fn with_final_nl(s: Seq<char>) -> Seq<char> {
    if s.len() > 0 && s.last() == '\n' {
        s
    } else {
        s.push('\n')
    }
}

/// A card with its texts closed by newlines whenever either side is
/// multi-line.
pub open spec fn fix_card_model(c: CardModel) -> CardModel {
    if contains_seq(c.content.front, seq!['\n']) || contains_seq(c.content.back, seq!['\n']) {
        CardModel {
            content: ContentModel {
                front: with_final_nl(c.content.front),
                back: with_final_nl(c.content.back),
                ..c.content
            },
            state: c.state,
        }
    } else {
        c
    }
}

/// Closes a multi-line card's texts with newlines.
pub fn fix_card_new_lines(card: Card) -> (r: Card)
    ensures
        r@ == fix_card_model(card@),
{
    proof {
        reveal_strlit("\n");
        assert("\n"@ =~= seq!['\n']);
    }
    let ghost orig = card@;
    let front_newlines = contains_str(card.content.front.as_str(), "\n");
    let back_newlines = contains_str(card.content.back.as_str(), "\n");
    let mut card = card;
    if front_newlines || back_newlines {
        let fn_ = card.content.front.as_str().unicode_len();
        let f_ok = fn_ > 0 && card.content.front.as_str().get_char(fn_ - 1) == '\n';
        if !f_ok {
            card.content.front.append("\n");
            proof {
                assert(card.content.front@ =~= with_final_nl(card.content.front@.drop_last()));
            }
        }
        let bn = card.content.back.as_str().unicode_len();
        let b_ok = bn > 0 && card.content.back.as_str().get_char(bn - 1) == '\n';
        if !b_ok {
            card.content.back.append("\n");
            proof {
                assert(card.content.back@ =~= with_final_nl(card.content.back@.drop_last()));
            }
        }
        proof {
            assert(card@.content.front == with_final_nl(orig.content.front));
            assert(card@.content.back == with_final_nl(orig.content.back));
            assert(card@ == fix_card_model(orig));
        }
    }
    card
}

/// The first card derived from base `bidx` with derivation position `ci`.
pub open spec fn find_child(
    cards: Seq<CardModel>,
    bidx: int,
    ci: Option<int>,
    from: int,
) -> Option<int>
    decreases cards.len() - from,
{
    if from < 0 || from >= cards.len() {
        None
    } else if cards[from].content.base == Some(bidx) && cards[from].content.cloze_index == ci {
        Some(from)
    } else {
        find_child(cards, bidx, ci, from + 1)
    }
}

/// What writing the re-derived cards of an edited base card back does:
/// each derived card updates in place the existing card sharing its base
/// and position, keeping that card's memory state; derived cards with no
/// such match are appended as they are.
pub open spec fn apply_edit(
    cards: Seq<CardModel>,
    bidx: int,
    dcards: Seq<CardModel>,
    m: int,
) -> Seq<CardModel>
    decreases dcards.len() - m,
{
    if m < 0 || m >= dcards.len() {
        cards
    } else {
        let d = dcards[m];
        match find_child(cards, bidx, d.content.cloze_index, 0) {
            Some(j) => apply_edit(
                cards.update(
                    j,
                    CardModel {
                        content: ContentModel { base: Some(bidx), ..d.content },
                        state: cards[j].state,
                    },
                ),
                bidx,
                dcards,
                m + 1,
            ),
            None => apply_edit(cards.push(d), bidx, dcards, m + 1),
        }
    }
}

/// Decides equality of two optional indices.
fn opt_eq(a: Option<usize>, b: Option<usize>) -> (r: bool)
    ensures
        r == (a == b),
{
    match (a, b) {
        (None, None) => true,
        (Some(x), Some(y)) => x == y,
        _ => false,
    }
}

impl Deck {
    /// Finds the stored card derived from base `bidx` at position `ci`.
    fn find_child_card(&self, bidx: usize, ci: Option<usize>) -> (r: Option<usize>)
        ensures
            ({
                let cim = match ci {
                    Some(u) => Some(u as int),
                    None => None,
                };
                &&& (r matches Some(j) ==> find_child(views_of(self.cards@), bidx as int, cim, 0)
                    == Some(j as int) && j < self.cards@.len())
                &&& (r is None ==> find_child(views_of(self.cards@), bidx as int, cim, 0) is None)
            }),
    {
        let ghost cm = views_of(self.cards@);
        let ghost cim = match ci {
            Some(u) => Some(u as int),
            None => None,
        };
        let mut j: usize = 0;
        while j < self.cards.len()
            invariant
                cm == views_of(self.cards@),
                0 <= j <= self.cards@.len(),
                cim == (match ci {
                    Some(u) => Some(u as int),
                    None => None,
                }),
                find_child(cm, bidx as int, cim, 0) == find_child(cm, bidx as int, cim, j as int),
            decreases self.cards@.len() - j,
        {
            let c = &self.cards[j];
            proof {
                assert(cm[j as int] == self.cards@[j as int]@);
            }
            if opt_eq(c.content.base, Some(bidx)) && opt_eq(c.content.cloze_index, ci) {
                return Some(j);
            }
            j = j + 1;
        }
        None
    }

    /// Replaces an authored base card: the stored base card is swapped for
    /// the edited one, the edit is queued for writing back to source, and
    /// the re-derived cards update their stored counterparts in place
    /// (keeping their memory state) or are appended when new.
    pub fn edit_base_card(&mut self, base_card_index: usize, new_card: Card)
        requires
            base_card_index < old(self).base_cards@.len(),
        ensures
            final(self).orphans == old(self).orphans,
            final(self).track_review_history == old(self).track_review_history,
            final(self).review_index == old(self).review_index,
            final(self).review_indices == old(self).review_indices,
            final(self).review_date == old(self).review_date,
            ({
                let fixed = fix_card_model(new_card@);
                let (dcards, dbases) = build_collection(seq![fixed], Seq::empty(), Seq::empty());
                &&& views_of(final(self).base_cards@) == views_of(old(self).base_cards@).update(
                    base_card_index as int,
                    fixed,
                )
                &&& final(self).edited_cards@.len() == old(self).edited_cards@.len() + 1
                &&& (forall|t: int|
                    0 <= t < old(self).edited_cards@.len() ==> final(self).edited_cards@[t] == old(
                        self,
                    ).edited_cards@[t])
                &&& final(self).edited_cards@.last().0@ == views_of(old(self).base_cards@)[
                    base_card_index as int]
                &&& final(self).edited_cards@.last().1@ == fixed
                &&& views_of(final(self).cards@) == apply_edit(
                    views_of(old(self).cards@),
                    base_card_index as int,
                    dcards,
                    0,
                )
            }),
    {
        let ghost fixedm = fix_card_model(new_card@);
        let new_card = fix_card_new_lines(new_card);
        let for_queue = new_card.duplicate();
        let for_coll = new_card.duplicate();
        let mut single: Vec<Card> = Vec::new();
        single.push(for_coll);
        proof {
            assert(views_of(single@) =~= seq![fixedm]);
        }
        let collection = match CardCollection::from(single) {
            Ok(c) => c,
            Err(_) => {
                proof {
                    assert(false);
                }
                CardCollection { base_cards: Vec::new(), cards: Vec::new() }
            },
        };
        let old_base = self.base_cards.remove(base_card_index);
        self.base_cards.insert(base_card_index, new_card);
        proof {
            assert(self.base_cards@ =~= old(self).base_cards@.update(
                base_card_index as int,
                self.base_cards@[base_card_index as int],
            ));
            assert(views_of(self.base_cards@) =~= views_of(old(self).base_cards@).update(
                base_card_index as int,
                fixedm,
            ));
        }
        self.edited_cards.push((old_base, for_queue));
        proof {
            assert(self.edited_cards@.last().0@ == views_of(old(self).base_cards@)[
                base_card_index as int]);
        }
        let ghost dcards = views_of(collection.cards@);
        proof {
            assert((views_of(collection.cards@), views_of(collection.base_cards@))
                == build_collection(seq![fixedm], Seq::empty(), Seq::empty())) by {
                assert(seq![fixedm].skip(1) =~= Seq::<CardModel>::empty());
            }
        }
        let mut derived = collection.cards;
        let dlen = derived.len();
        proof {
            assert(dcards.len() == dlen as int);
        }
        let mut m: usize = 0;
        let ghost cards0 = views_of(self.cards@);
        while derived.len() > 0
            invariant
                self.orphans == old(self).orphans,
                self.track_review_history == old(self).track_review_history,
                self.review_index == old(self).review_index,
                self.review_indices == old(self).review_indices,
                self.review_date == old(self).review_date,
                views_of(self.base_cards@) == views_of(old(self).base_cards@).update(
                    base_card_index as int,
                    fixedm,
                ),
                self.edited_cards@.len() == old(self).edited_cards@.len() + 1,
                forall|t: int|
                    0 <= t < old(self).edited_cards@.len() ==> self.edited_cards@[t] == old(
                        self,
                    ).edited_cards@[t],
                self.edited_cards@.last().0@ == views_of(old(self).base_cards@)[
                    base_card_index as int],
                self.edited_cards@.last().1@ == fixedm,
                0 <= m <= dcards.len(),
                dcards.len() <= usize::MAX,
                views_of(derived@) == dcards.skip(m as int),
                apply_edit(views_of(self.cards@), base_card_index as int, dcards, m as int)
                    == apply_edit(cards0, base_card_index as int, dcards, 0),
            decreases derived@.len(),
        {
            let ghost dv = views_of(derived@);
            let ghost cur = views_of(self.cards@);
            let clozed_card = derived.remove(0);
            proof {
                assert(views_of(derived@) =~= dv.skip(1));
                assert(dv.skip(1) =~= dcards.skip(m + 1));
                assert(dv[0] == clozed_card@);
                assert(dcards[m as int] == clozed_card@);
            }
            match self.find_child_card(base_card_index, clozed_card.content.cloze_index) {
                Some(j) => {
                    let mut c = self.cards.remove(j);
                    c.content = clozed_card.content;
                    c.content.base = Some(base_card_index);
                    self.cards.insert(j, c);
                    proof {
                        assert(views_of(self.cards@) =~= cur.update(
                            j as int,
                            CardModel {
                                content: ContentModel {
                                    base: Some(base_card_index as int),
                                    ..clozed_card@.content
                                },
                                state: cur[j as int].state,
                            },
                        ));
                    }
                },
                None => {
                    self.cards.push(clozed_card);
                    proof {
                        assert(views_of(self.cards@) =~= cur.push(dcards[m as int]));
                    }
                },
            }
            m = m + 1;
        }
        proof {
            assert(views_of(derived@).len() == 0);
            assert(dcards.skip(m as int).len() == 0);
            assert(m == dcards.len());
        }
    }

    /// Replaces the base card behind a derived card.
    pub fn edit_card(&mut self, new_card: Card, card_index: usize)
        requires
            card_index < old(self).cards@.len(),
            old(self).cards@[card_index as int].content.base matches Some(b) && b < old(
                self,
            ).base_cards@.len(),
        ensures
            final(self).orphans == old(self).orphans,
            final(self).track_review_history == old(self).track_review_history,
            final(self).review_index == old(self).review_index,
            final(self).review_indices == old(self).review_indices,
            final(self).review_date == old(self).review_date,
            ({
                let bidx = old(self).cards@[card_index as int].content.base->Some_0;
                let fixed = fix_card_model(new_card@);
                let (dcards, dbases) = build_collection(seq![fixed], Seq::empty(), Seq::empty());
                &&& views_of(final(self).base_cards@) == views_of(old(self).base_cards@).update(
                    bidx as int,
                    fixed,
                )
                &&& views_of(final(self).cards@) == apply_edit(
                    views_of(old(self).cards@),
                    bidx as int,
                    dcards,
                    0,
                )
            }),
    {
        let base_index = self.cards[card_index].content.base.unwrap();
        self.edit_base_card(base_index, new_card);
    }

    /// Loads a deck from tab-separated rows, one card a line; fails with
    /// exactly the first faulty line's fault.
    pub fn load_from_tsv(input: &str, date: Date) -> (r: Result<Deck, TsvError>)
        ensures
            r is Ok <==> first_line_err(split_lines(input@, 0), date) is None,
            r matches Err(e) ==> Some(e) == first_line_err(split_lines(input@, 0), date),
            r matches Ok(deck) ==> {
                let lines = split_lines(input@, 0);
                &&& deck.cards@.len() == lines.len()
                &&& (forall|i: int|
                    0 <= i < lines.len() ==> tsv_parse_err(
                        split_tabs(#[trigger] lines[i]),
                        date,
                    ) is None && tsv_parsed_ok(deck.cards@[i], split_tabs(lines[i]), date))
                &&& deck.orphans@.len() == 0
                &&& deck.base_cards@.len() == 0
                &&& deck.review_index is None
                &&& deck.review_date is None
                &&& !deck.track_review_history
            },
    {
        let mut deck = Deck::new();
        let n = input.unicode_len();
        let ghost lines = split_lines(input@, 0);
        let mut from: usize = 0;
        proof {
            assert(lines.skip(0) =~= lines);
        }
        while from < n
            invariant
                n == input@.len(),
                0 <= from <= n,
                lines == split_lines(input@, 0),
                deck.cards@.len() + split_lines(input@, from as int).len() == lines.len(),
                lines.skip(deck.cards@.len() as int) == split_lines(input@, from as int),
                first_line_err(lines, date) == first_line_err(
                    lines.skip(deck.cards@.len() as int),
                    date,
                ),
                forall|i: int|
                    0 <= i < deck.cards@.len() ==> tsv_parse_err(
                        split_tabs(#[trigger] lines[i]),
                        date,
                    ) is None && tsv_parsed_ok(deck.cards@[i], split_tabs(lines[i]), date),
                deck.orphans@.len() == 0,
                deck.base_cards@.len() == 0,
                deck.review_index is None,
                deck.review_date is None,
                !deck.track_review_history,
            decreases n - from,
        {
            let ghost rem = split_lines(input@, from as int);
            let end = match crate::parsing::scan_newline(input, from) {
                Some(k) => k,
                None => n,
            };
            proof {
                crate::parsing::lemma_next_newline(input@, from as int);
            }
            let mut line = input.substring_char(from, end);
            let ln = line.unicode_len();
            if ln > 0 && line.get_char(ln - 1) == '\r' {
                line = input.substring_char(from, end - 1);
            }
            proof {
                assert(input@.subrange(from as int, end as int) =~= input@.subrange(
                    from as int,
                    end as int,
                ));
                if input@.subrange(from as int, end as int).len() > 0 && input@.subrange(
                    from as int,
                    end as int,
                ).last() == '\r' {
                    assert(input@.subrange(from as int, end as int - 1) =~= input@.subrange(
                        from as int,
                        end as int,
                    ).drop_last());
                }
                assert(line@ == strip_cr(input@.subrange(from as int, end as int)));
                assert(rem[0] == strip_cr(input@.subrange(from as int, end as int)));
            }
            let card = match Card::from_tsv(line, date) {
                Ok(c) => c,
                Err(e) => {
                    proof {
                        assert(lines[deck.cards@.len() as int] == line@);
                        assert(lines.skip(deck.cards@.len() as int)[0] == line@);
                        assert(first_line_err(lines, date) == Some(e));
                    }
                    return Err(e);
                },
            };
            proof {
                assert(lines[deck.cards@.len() as int] == line@);
            }
            proof {
                assert(lines.skip(deck.cards@.len() as int)[0] == line@);
                assert(lines.skip(deck.cards@.len() as int).skip(1) =~= lines.skip(
                    deck.cards@.len() as int + 1,
                ));
            }
            deck.cards.push(card);
            proof {
                assert(lines.skip(deck.cards@.len() as int) =~= rem.skip(1));
            }
            from = if end < n {
                end + 1
            } else {
                n
            };
            proof {
                if end < n {
                    assert(rem.skip(1) =~= split_lines(input@, from as int));
                } else {
                    assert(split_lines(input@, from as int) =~= Seq::<Seq<char>>::empty());
                    assert(rem.skip(1) =~= Seq::<Seq<char>>::empty());
                }
            }
        }
        proof {
            assert(split_lines(input@, from as int) =~= Seq::<Seq<char>>::empty());
            assert(first_line_err(lines.skip(deck.cards@.len() as int), date) is None);
        }
        Ok(deck)
    }
}


/// The first faulty line's fault, in reading order, if any.
pub open spec fn first_line_err(lines: Seq<Seq<char>>, date: Date) -> Option<TsvError>
    decreases lines.len(),
{
    if lines.len() == 0 {
        None
    } else {
        match tsv_parse_err(split_tabs(lines[0]), date) {
            Some(e) => Some(e),
            None => first_line_err(lines.skip(1), date),
        }
    }
}

/// A line with a trailing carriage return removed.
pub open spec fn strip_cr(t: Seq<char>) -> Seq<char> {
    if t.len() > 0 && t.last() == '\r' {
        t.drop_last()
    } else {
        t
    }
}

#[via_fn]
proof fn split_lines_decreases(s: Seq<char>, from: int) {
    crate::parsing::lemma_next_newline(s, from);
}

/// The lines of a text, separated at newlines, each without a trailing
/// carriage return; a trailing newline closes the last line.
pub open spec fn split_lines(s: Seq<char>, from: int) -> Seq<Seq<char>>
    decreases s.len() - from,
    via split_lines_decreases
{
    if from < 0 || from >= s.len() {
        Seq::empty()
    } else {
        match crate::parsing::next_newline(s, from) {
            None => seq![strip_cr(s.subrange(from, s.len() as int))],
            Some(k) => seq![strip_cr(s.subrange(from, k))] + split_lines(s, k + 1),
        }
    }
}


/// Lists with the same cards (as multisets) carry the same keys.
proof fn lemma_keys_multiset(s1: Seq<CardModel>, s2: Seq<CardModel>)
    requires
        s1.to_multiset() == s2.to_multiset(),
    ensures
        keys_of(s1).to_multiset() == keys_of(s2).to_multiset(),
    decreases s1.len(),
{
    broadcast use vstd::seq_lib::group_to_multiset_ensures;
    broadcast use vstd::multiset::group_multiset_axioms;

    if s1.len() == 0 {
        assert(s1.to_multiset().len() == 0);
        assert(s2.to_multiset().len() == 0);
        assert(s2.len() == 0);
        assert(keys_of(s1) =~= Seq::<Seq<char>>::empty());
        assert(keys_of(s2) =~= Seq::<Seq<char>>::empty());
    } else {
        let x = s1.last();
        assert(s1.contains(x));
        vstd::seq_lib::to_multiset_contains(s1, x);
        vstd::seq_lib::to_multiset_contains(s2, x);
        assert(s2.contains(x));
        let j = choose|j: int| 0 <= j < s2.len() && s2[j] == x;
        let s1p = s1.remove(s1.len() - 1);
        let s2p = s2.remove(j);
        vstd::seq_lib::to_multiset_remove(s1, s1.len() - 1);
        vstd::seq_lib::to_multiset_remove(s2, j);
        assert(s1p.to_multiset() =~= s2p.to_multiset());
        lemma_keys_multiset(s1p, s2p);
        assert(keys_of(s1p) =~= keys_of(s1).remove(s1.len() - 1));
        assert(keys_of(s2p) =~= keys_of(s2).remove(j));
        vstd::seq_lib::to_multiset_remove(keys_of(s1), s1.len() - 1);
        vstd::seq_lib::to_multiset_remove(keys_of(s2), j);
        assert(keys_of(s1)[s1.len() - 1] == key_of(x));
        assert(keys_of(s2)[j] == key_of(x));
        assert(keys_of(s1).contains(keys_of(s1)[s1.len() - 1]));
        vstd::seq_lib::to_multiset_contains(keys_of(s1), key_of(x));
        assert(keys_of(s2).contains(keys_of(s2)[j]));
        vstd::seq_lib::to_multiset_contains(keys_of(s2), key_of(x));
        let k1 = keys_of(s1).to_multiset();
        let k2 = keys_of(s2).to_multiset();
        assert(k1.remove(key_of(x)) =~= k2.remove(key_of(x)));
        assert(k1.count(key_of(x)) > 0);
        assert(k2.count(key_of(x)) > 0);
        assert forall|a: Seq<char>| k1.count(a) == k2.count(a) by {
            if a == key_of(x) {
                assert(k1.remove(a).count(a) == k1.count(a) - 1);
                assert(k2.remove(a).count(a) == k2.count(a) - 1);
            } else {
                assert(k1.remove(key_of(x)).count(a) == k1.count(a));
                assert(k2.remove(key_of(x)).count(a) == k2.count(a));
            }
        }
        assert(k1 =~= k2);
    }
}

/// Adoption moves keys around without making or losing any: what leaves
/// the map enters the updated cards.
proof fn lemma_adopt_keys(
    olds: Seq<CardModel>,
    map: Seq<CardModel>,
    upd: Seq<CardModel>,
    orph: Seq<CardModel>,
)
    ensures
        ({
            let (u, o, l) = adopt(olds, map, upd, orph);
            keys_of(u).to_multiset().add(keys_of(l).to_multiset()) == keys_of(
                upd,
            ).to_multiset().add(keys_of(map).to_multiset())
        }),
    decreases olds.len(),
{
    broadcast use vstd::seq_lib::group_to_multiset_ensures;
    broadcast use vstd::multiset::group_multiset_axioms;

    if olds.len() > 0 {
        let c0 = olds[0];
        lemma_find_key_props(map, key_of(c0), 0);
        match find_key(map, key_of(c0), 0) {
            Some(jm) => {
                let pushed = CardModel { content: map[jm].content, state: c0.state };
                lemma_adopt_keys(olds.skip(1), map.remove(jm), upd.push(pushed), orph);
                assert(keys_of(upd.push(pushed)) =~= keys_of(upd).push(key_of(pushed)));
                assert(keys_of(map.remove(jm)) =~= keys_of(map).remove(jm));
                vstd::seq_lib::to_multiset_remove(keys_of(map), jm);
                assert(key_of(pushed) == key_of(map[jm]));
                assert(keys_of(map)[jm] == key_of(map[jm]));
                assert(keys_of(map).contains(keys_of(map)[jm]));
                vstd::seq_lib::to_multiset_contains(keys_of(map), key_of(map[jm]));
                assert(keys_of(upd).to_multiset().insert(key_of(pushed)).add(
                    keys_of(map).to_multiset().remove(key_of(map[jm])),
                ) =~= keys_of(upd).to_multiset().add(keys_of(map).to_multiset()));
            },
            None => {
                lemma_adopt_keys(olds.skip(1), map, upd, orph.push(c0));
            },
        }
    }
}

/// Relinking hands every remaining map entry on with its key unchanged.
proof fn lemma_relink_keys(left: Seq<CardModel>, orph: Seq<CardModel>, upd: Seq<CardModel>)
    ensures
        ({
            let (u, o) = relink(left, orph, upd);
            keys_of(u).to_multiset() == keys_of(upd).to_multiset().add(
                keys_of(left).to_multiset(),
            )
        }),
    decreases left.len(),
{
    broadcast use vstd::seq_lib::group_to_multiset_ensures;
    broadcast use vstd::multiset::group_multiset_axioms;

    if left.len() == 0 {
        assert(keys_of(left) =~= Seq::<Seq<char>>::empty());
        let (u, o) = relink(left, orph, upd);
        assert(keys_of(u).to_multiset() =~= keys_of(upd).to_multiset().add(
            keys_of(left).to_multiset(),
        ));
    } else {
        let c = left[0];
        let stepped = match find_front(orph, c.content.front, 0) {
            Some(j) => CardModel { content: c.content, state: orph[j].state },
            None => c,
        };
        assert(key_of(stepped) == key_of(c));
        match find_front(orph, c.content.front, 0) {
            Some(j) => {
                lemma_relink_keys(left.skip(1), orph.remove(j), upd.push(stepped));
            },
            None => {
                lemma_relink_keys(left.skip(1), orph, upd.push(stepped));
            },
        }
        assert(keys_of(upd.push(stepped)) =~= keys_of(upd).push(key_of(c)));
        assert(keys_of(left.skip(1)) =~= keys_of(left).remove(0));
        vstd::seq_lib::to_multiset_remove(keys_of(left), 0);
        assert(keys_of(left)[0] == key_of(c));
        assert(keys_of(left).contains(keys_of(left)[0]));
        vstd::seq_lib::to_multiset_contains(keys_of(left), key_of(c));
        assert(keys_of(upd).to_multiset().insert(key_of(c)).add(
            keys_of(left).to_multiset().remove(key_of(c)),
        ) =~= keys_of(upd).to_multiset().add(keys_of(left).to_multiset()));
    }
}

/// Reconciling twice in a row with one collection changes nothing the
/// second time: starting from any deck, one reconciliation leaves a card
/// set whose identities match the collection's surviving identities one
/// for one, so a second reconciliation with the same collection makes no
/// orphans and keeps the card count.
pub proof fn lemma_replace_twice_idempotent(
    cards0: Seq<CardModel>,
    news: Seq<CardModel>,
    orphs0: Seq<CardModel>,
    cards1: Seq<CardModel>,
    orphs1: Seq<CardModel>,
)
    requires
        ({
            // `cards1` is the card set one reconciliation of `news` into
            // `cards0` leaves behind, in any order.
            let m0 = dedup_map(news, Seq::empty());
            let (upd, orphm, left) = adopt(cards0, m0, Seq::empty(), orphs0);
            let (updated1, orph1) = relink(left, orphm, upd);
            cards1.to_multiset() == updated1.to_multiset()
        }),
    ensures
        ({
            let m0 = dedup_map(news, Seq::empty());
            let (upd2, orph2, left2) = adopt(cards1, m0, Seq::empty(), orphs1);
            let (updated2, orphf) = relink(left2, orph2, upd2);
            &&& orphf == orphs1
            &&& updated2.len() == cards1.len()
        }),
{
    broadcast use vstd::seq_lib::group_to_multiset_ensures;
    broadcast use vstd::multiset::group_multiset_axioms;

    let m0 = dedup_map(news, Seq::empty());
    let (upd, orphm, left) = adopt(cards0, m0, Seq::empty(), orphs0);
    let (updated1, orph1) = relink(left, orphm, upd);
    lemma_adopt_keys(cards0, m0, Seq::empty(), orphs0);
    lemma_relink_keys(left, orphm, upd);
    assert(keys_of(Seq::<CardModel>::empty()) =~= Seq::<Seq<char>>::empty());
    assert(keys_of(updated1).to_multiset() =~= keys_of(m0).to_multiset());
    lemma_keys_multiset(cards1, updated1);
    lemma_adopt_balanced(cards1, m0, Seq::empty(), orphs1);
    let (upd2, orph2, left2) = adopt(cards1, m0, Seq::empty(), orphs1);
    assert(left2.len() == 0);
    assert(relink(left2, orph2, upd2) == (upd2, orph2));
}



/// Whether a card's texts hold every search word.
pub open spec fn card_matches_words(c: CardModel, words: Seq<Seq<char>>) -> bool {
    forall|t: int|
        0 <= t < words.len() ==> contains_seq(c.content.front, #[trigger] words[t]) || contains_seq(
            c.content.back,
            words[t],
        ) || contains_seq(c.content.prefix, words[t])
}

/// The indices of the cards holding every search word, in order.
pub open spec fn matching_indices(cards: Seq<CardModel>, words: Seq<Seq<char>>, from: int) -> Seq<
    int,
>
    decreases cards.len() - from,
{
    if from < 0 || from >= cards.len() {
        Seq::empty()
    } else if card_matches_words(cards[from], words) {
        seq![from] + matching_indices(cards, words, from + 1)
    } else {
        matching_indices(cards, words, from + 1)
    }
}

impl Deck {
    /// The indices of the cards whose front, back or prefix holds every
    /// whitespace-separated word of the search text.
    pub fn find_cards(&self, search_input: String) -> (r: Vec<usize>)
        ensures
            r@.map_values(|u: usize| u as int) == matching_indices(
                views_of(self.cards@),
                crate::parsing::split_words(search_input@, 0),
                0,
            ),
    {
        let ghost cm = views_of(self.cards@);
        let ghost wordsm = crate::parsing::split_words(search_input@, 0);
        let words = crate::parsing::split_words_vec(search_input.as_str());
        let mut out: Vec<usize> = Vec::new();
        let mut i: usize = 0;
        proof {
            assert(out@.map_values(|u: usize| u as int) + matching_indices(cm, wordsm, 0)
                =~= matching_indices(cm, wordsm, 0));
        }
        while i < self.cards.len()
            invariant
                cm == views_of(self.cards@),
                wordsm == crate::parsing::split_words(search_input@, 0),
                words@.len() == wordsm.len(),
                forall|t: int| 0 <= t < words@.len() ==> (#[trigger] words@[t])@ == wordsm[t],
                0 <= i <= self.cards@.len(),
                matching_indices(cm, wordsm, 0) == out@.map_values(|u: usize| u as int)
                    + matching_indices(cm, wordsm, i as int),
            decreases self.cards@.len() - i,
        {
            let ghost done = out@.map_values(|u: usize| u as int);
            let mut all = true;
            let mut t: usize = 0;
            while t < words.len()
                invariant
                    i < self.cards@.len(),
                    cm == views_of(self.cards@),
                    words@.len() == wordsm.len(),
                    forall|tt: int|
                        0 <= tt < words@.len() ==> (#[trigger] words@[tt])@ == wordsm[tt],
                    0 <= t <= words@.len(),
                    all == (forall|tt: int|
                        0 <= tt < t ==> contains_seq(
                            cm[i as int].content.front,
                            #[trigger] wordsm[tt],
                        ) || contains_seq(cm[i as int].content.back, wordsm[tt]) || contains_seq(
                            cm[i as int].content.prefix,
                            wordsm[tt],
                        )),
                decreases words@.len() - t,
            {
                proof {
                    assert(cm[i as int] == self.cards@[i as int]@);
                }
                let hit = self.cards[i].contains(words[t].as_str());
                if !hit {
                    all = false;
                }
                t = t + 1;
            }
            proof {
                if all {
                    assert(card_matches_words(cm[i as int], wordsm));
                } else {
                    assert(!card_matches_words(cm[i as int], wordsm));
                }
            }
            if all {
                out.push(i);
                proof {
                    assert(out@.map_values(|u: usize| u as int) =~= done.push(i as int));
                    assert(done.push(i as int) + matching_indices(cm, wordsm, i + 1) =~= done + (
                    seq![i as int] + matching_indices(cm, wordsm, i + 1)));
                }
            }
            i = i + 1;
        }
        proof {
            assert(matching_indices(cm, wordsm, i as int) =~= Seq::<int>::empty());
            assert(out@.map_values(|u: usize| u as int) + Seq::<int>::empty() =~= out@.map_values(
                |u: usize| u as int,
            ));
        }
        out
    }
}


} // verus!
