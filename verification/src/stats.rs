//! The accuracy table: per review age in days, how many first answers of a
//! day were correct out of how many were given, with the overall pair at
//! key `-1`.

use crate::card::{views_of, CardModel};
use crate::date::Date;
use crate::deck::Deck;
use crate::fsrs::{ReviewAnswer, ReviewLogItem};
use vstd::map::*;
use vstd::prelude::*;

verus! {

/// One review-log entry folded into the accuracy table: the first entry of
/// a day (per card) adds one to the overall total at key `-1` and one to
/// the bucket of its age in days, counting it as correct unless the answer
/// was `Again`; further entries on the same day as the previous one are
/// skipped.
pub open spec fn acc_step(
    m: Map<int, (int, int)>,
    prev: int,
    item: ReviewLogItem,
    current: int,
) -> (Map<int, (int, int)>, int) {
    if item.day.day as int == prev {
        (m, prev)
    } else {
        let wrong = item.answer is Again;
        let tot = m[-1];
        let m1 = m.insert(
            -1,
            (
                tot.0 + if wrong {
                    0int
                } else {
                    1int
                },
                tot.1 + 1,
            ),
        );
        let day = current - item.day.day;
        let c: int = if wrong {
            0
        } else {
            1
        };
        let pcpt = if m1.dom().contains(day) {
            m1[day]
        } else {
            (0int, 0int)
        };
        (m1.insert(day, (c + pcpt.0, 1 + pcpt.1)), item.day.day as int)
    }
}

/// A card's review log folded into the accuracy table.
pub open spec fn acc_log(
    m: Map<int, (int, int)>,
    prev: int,
    log: Seq<ReviewLogItem>,
    current: int,
) -> (Map<int, (int, int)>, int)
    decreases log.len(),
{
    if log.len() == 0 {
        (m, prev)
    } else {
        let s1 = acc_step(m, prev, log[0], current);
        acc_log(s1.0, s1.1, log.skip(1), current)
    }
}

/// All cards' review logs folded into the accuracy table, each card
/// starting with day zero as the previous day.
pub open spec fn acc_cards(m: Map<int, (int, int)>, cards: Seq<CardModel>, current: int) -> Map<
    int,
    (int, int),
>
    decreases cards.len(),
{
    if cards.len() == 0 {
        m
    } else {
        acc_cards(acc_log(m, 0, cards[0].state.review_log, current).0, cards.skip(1), current)
    }
}

/// The deck's accuracy table: per review age in days, how many first
/// answers of a day were correct and how many were given, with the overall
/// pair at key `-1`.
pub open spec fn accuracy_of(cards: Seq<CardModel>, current: int) -> Map<int, (int, int)> {
    acc_cards(map![-1int => (0int, 0int)], cards, current)
}

/// How many review-log entries the cards at or after `from` hold.
pub open spec fn total_entries(cards: Seq<CardModel>, from: int) -> int
    decreases cards.len() - from,
{
    if from < 0 || from >= cards.len() {
        0
    } else {
        cards[from].state.review_log.len() + total_entries(cards, from + 1)
    }
}

/// Whether every logged day's age from `current` fits the table's key
/// type.
pub open spec fn acc_days_ok(cards: Seq<CardModel>, current: int) -> bool {
    forall|i: int, j: int|
        0 <= i < cards.len() && 0 <= j < cards[i].state.review_log.len() ==> i32::MIN <= current
            - (#[trigger] cards[i].state.review_log[j]).day.day <= i32::MAX
}

/// Whether a table rendering is faithful to the accuracy map: strictly
/// ascending keys that enumerate the map's domain, with the map's values.
pub open spec fn acc_table_matches(acc: Seq<(i32, (u64, u64))>, m: Map<int, (int, int)>) -> bool {
    &&& forall|t1: int, t2: int|
        0 <= t1 < t2 < acc.len() ==> (#[trigger] acc[t1]).0 < (#[trigger] acc[t2]).0
    &&& forall|t: int|
        0 <= t < acc.len() ==> m.dom().contains((#[trigger] acc[t]).0 as int) && m[
            acc[t].0 as int] == (acc[t].1.0 as int, acc[t].1.1 as int)
    &&& forall|k: int|
        m.dom().contains(k) ==> exists|t: int| 0 <= t < acc.len() && (#[trigger] acc[t]).0 as int
            == k
}

/// Finds the entry with the given key, or where it would be inserted to
/// keep the keys ascending.
fn acc_find(acc: &Vec<(i32, (u64, u64))>, key: i32) -> (r: Result<usize, usize>)
    requires
        forall|t1: int, t2: int|
            0 <= t1 < t2 < acc@.len() ==> (#[trigger] acc@[t1]).0 < (#[trigger] acc@[t2]).0,
    ensures
        r matches Ok(t) ==> t < acc@.len() && acc@[t as int].0 == key,
        r matches Err(t) ==> t <= acc@.len() && (forall|u: int|
            0 <= u < acc@.len() ==> (#[trigger] acc@[u]).0 != key) && (forall|u: int|
            0 <= u < t ==> (#[trigger] acc@[u]).0 < key) && (forall|u: int|
            t <= u < acc@.len() ==> key < (#[trigger] acc@[u]).0),
{
    let mut t: usize = 0;
    while t < acc.len()
        invariant
            forall|t1: int, t2: int|
                0 <= t1 < t2 < acc@.len() ==> (#[trigger] acc@[t1]).0 < (#[trigger] acc@[t2]).0,
            0 <= t <= acc@.len(),
            forall|u: int| 0 <= u < t ==> (#[trigger] acc@[u]).0 < key,
        decreases acc@.len() - t,
    {
        let k = acc[t].0;
        if k == key {
            return Ok(t);
        }
        if k > key {
            return Err(t);
        }
        t = t + 1;
    }
    Err(t)
}

proof fn lemma_total_entries_nonneg(cards: Seq<CardModel>, from: int)
    ensures
        total_entries(cards, from) >= 0,
    decreases cards.len() - from,
{
    if !(from < 0 || from >= cards.len()) {
        lemma_total_entries_nonneg(cards, from + 1);
    }
}

impl Deck {
    /// The accuracy table over the review logs, ascending by review age:
    /// per age in days, how many first answers of a day were correct out
    /// of how many were given, with the overall pair at key `-1`.
    pub fn get_accuracy_data(&self, current_day: Date) -> (r: Vec<(i32, (u64, u64))>)
        requires
            acc_days_ok(views_of(self.cards@), current_day.day as int),
            2 * total_entries(views_of(self.cards@), 0) <= u64::MAX,
        ensures
            acc_table_matches(r@, accuracy_of(views_of(self.cards@), current_day.day as int)),
    {
        let ghost cm = views_of(self.cards@);
        let ghost cur = current_day.day as int;
        let ghost target = accuracy_of(cm, cur);
        let mut acc: Vec<(i32, (u64, u64))> = Vec::new();
        acc.push((-1, (0, 0)));
        let ghost mut mm: Map<int, (int, int)> = map![-1int => (0int, 0int)];
        let ghost mut processed: int = 0;
        proof {
            assert(acc@[0].0 as int == -1int);
            assert(acc_table_matches(acc@, mm));
            assert(cm.skip(0) =~= cm);
            lemma_total_entries_nonneg(cm, 0);
        }
        let mut ci: usize = 0;
        while ci < self.cards.len()
            invariant
                cm == views_of(self.cards@),
                cur == current_day.day as int,
                target == accuracy_of(cm, cur),
                acc_days_ok(cm, cur),
                0 <= ci <= cm.len(),
                acc_cards(mm, cm.skip(ci as int), cur) == target,
                acc_table_matches(acc@, mm),
                mm.dom().contains(-1int),
                forall|t: int|
                    0 <= t < acc@.len() ==> (#[trigger] acc@[t]).1.0 <= acc@[t].1.1 && (
                    acc@[t].1.1 as int) <= 2 * processed,
                0 <= processed,
                2 * (processed + total_entries(cm, ci as int)) <= u64::MAX,
            decreases cm.len() - ci,
        {
            let ghost log = cm[ci as int].state.review_log;
            proof {
                assert(cm[ci as int] == self.cards@[ci as int]@);
                assert(cm.skip(ci as int)[0] == cm[ci as int]);
                assert(acc_cards(mm, cm.skip(ci as int), cur) == acc_cards(
                    acc_log(mm, 0, log, cur).0,
                    cm.skip(ci as int).skip(1),
                    cur,
                ));
                assert(cm.skip(ci as int).skip(1) =~= cm.skip(ci as int + 1));
                assert(total_entries(cm, ci as int) == log.len() + total_entries(
                    cm,
                    ci as int + 1,
                ));
                lemma_total_entries_nonneg(cm, ci as int + 1);
                assert(log.skip(0) =~= log);
            }
            let mut prev: i32 = 0;
            let mut li: usize = 0;
            while li < self.cards[ci].fsrs_state.review_log.len()
                invariant
                    cm == views_of(self.cards@),
                    cur == current_day.day as int,
                    target == accuracy_of(cm, cur),
                    acc_days_ok(cm, cur),
                    0 <= ci < cm.len(),
                    log == cm[ci as int].state.review_log,
                    0 <= li <= log.len(),
                    acc_cards(
                        acc_log(mm, prev as int, log.skip(li as int), cur).0,
                        cm.skip(ci as int + 1),
                        cur,
                    ) == target,
                    acc_table_matches(acc@, mm),
                    mm.dom().contains(-1int),
                    forall|t: int|
                        0 <= t < acc@.len() ==> (#[trigger] acc@[t]).1.0 <= acc@[t].1.1 && (
                        acc@[t].1.1 as int) <= 2 * processed,
                    0 <= processed,
                    2 * (processed + (log.len() - li) + total_entries(cm, ci as int + 1))
                        <= u64::MAX,
                    total_entries(cm, ci as int + 1) >= 0,
                decreases log.len() - li,
            {
                let item = self.cards[ci].fsrs_state.review_log[li];
                let ghost mm0 = mm;
                let ghost prev0 = prev as int;
                proof {
                    assert(log[li as int] == item);
                    assert(log.skip(li as int)[0] == item);
                    assert(log.skip(li as int).skip(1) =~= log.skip(li as int + 1));
                }
                if item.day.day == prev {
                    proof {
                        assert(acc_step(mm, prev as int, item, cur) == (mm, prev as int));
                        processed = processed + 1;
                    }
                } else {
                    prev = item.day.day;
                    let wrong = item.answer == ReviewAnswer::Again;
                    let t_idx = match acc_find(&acc, -1) {
                        Ok(t) => t,
                        Err(_) => {
                            proof {
                                let w = choose|t: int|
                                    0 <= t < acc@.len() && (#[trigger] acc@[t]).0 as int
                                        == -1int;
                                assert(acc@[w].0 == -1i32);
                                assert(false);
                            }
                            0
                        },
                    };
                    let ghost acc0 = acc@;
                    let (tc, tt) = acc[t_idx].1;
                    proof {
                        assert((tc as int, tt as int) == mm[-1int]);
                    }
                    let nc: u64 = if wrong {
                        tc
                    } else {
                        tc + 1
                    };
                    acc.set(t_idx, (-1, (nc, tt + 1)));
                    let ghost mm1 = mm.insert(
                        -1int,
                        (
                            mm[-1int].0 + if wrong {
                                0int
                            } else {
                                1int
                            },
                            mm[-1int].1 + 1,
                        ),
                    );
                    proof {
                        assert(acc@ =~= acc0.update(t_idx as int, (-1i32, (nc, (tt + 1) as u64))));
                        assert forall|t: int| 0 <= t < acc@.len() implies mm1.dom().contains((
                        #[trigger] acc@[t]).0 as int) && mm1[acc@[t].0 as int] == (
                        acc@[t].1.0 as int, acc@[t].1.1 as int) by {
                            if t != t_idx as int {
                                assert(acc@[t] == acc0[t]);
                                assert(acc@[t].0 != -1i32);
                            }
                        }
                        assert(acc_table_matches(acc@, mm1)) by {
                            assert forall|k: int| mm1.dom().contains(k) implies exists|t: int|
                                0 <= t < acc@.len() && (#[trigger] acc@[t]).0 as int == k by {
                                let w = choose|t: int|
                                    0 <= t < acc0.len() && (#[trigger] acc0[t]).0 as int == k;
                                assert(acc@[w].0 as int == k);
                            }
                        }
                    }
                    let day64: i64 = current_day.day as i64 - item.day.day as i64;
                    proof {
                        assert(i32::MIN <= cur - log[li as int].day.day <= i32::MAX);
                    }
                    let day: i32 = day64 as i32;
                    let c0: u64 = if wrong {
                        0
                    } else {
                        1
                    };
                    let ghost pcpt = if mm1.dom().contains(cur - item.day.day as int) {
                        mm1[cur - item.day.day as int]
                    } else {
                        (0int, 0int)
                    };
                    let ghost acc1 = acc@;
                    proof {
                        assert(day as int == cur - item.day.day as int);
                    }
                    match acc_find(&acc, day) {
                        Ok(t) => {
                            let (pc, pt) = acc[t].1;
                            proof {
                                assert((pc as int, pt as int) == mm1[day as int]);
                                assert(pcpt == (pc as int, pt as int));
                            }
                            acc.set(t, (day, (c0 + pc, pt + 1)));
                            proof {
                                assert(acc@ =~= acc1.update(
                                    t as int,
                                    (day, ((c0 + pc) as u64, (pt + 1) as u64)),
                                ));
                                let mm2 = mm1.insert(day as int, (c0 as int + pcpt.0, 1 + pcpt.1));
                                assert forall|u: int| 0 <= u < acc@.len() implies mm2.dom().contains(
                                (#[trigger] acc@[u]).0 as int) && mm2[acc@[u].0 as int] == (
                                acc@[u].1.0 as int, acc@[u].1.1 as int) by {
                                    if u != t as int {
                                        assert(acc@[u] == acc1[u]);
                                        assert(acc@[u].0 != day);
                                    }
                                }
                                assert(acc_table_matches(acc@, mm2)) by {
                                    assert forall|k: int| mm2.dom().contains(k) implies exists|u: int|
                                        0 <= u < acc@.len() && (#[trigger] acc@[u]).0 as int == k
                                        by {
                                        let w = choose|u: int|
                                            0 <= u < acc1.len() && (#[trigger] acc1[u]).0 as int
                                                == k;
                                        assert(acc@[w].0 as int == k);
                                    }
                                }
                            }
                        },
                        Err(t) => {
                            proof {
                                assert(!mm1.dom().contains(day as int)) by {
                                    if mm1.dom().contains(day as int) {
                                        let w = choose|u: int|
                                            0 <= u < acc1.len() && (#[trigger] acc1[u]).0 as int
                                                == day as int;
                                        assert(acc1[w].0 == day);
                                    }
                                }
                                assert(pcpt == (0int, 0int));
                            }
                            acc.insert(t, (day, (c0, 1)));
                            proof {
                                assert(acc@ =~= acc1.insert(t as int, (day, (c0, 1u64))));
                                assert forall|u: int| 0 <= u < acc@.len() implies acc@[u] == (
                                if u < t as int {
                                    acc1[u]
                                } else if u == t as int {
                                    (day, (c0, 1u64))
                                } else {
                                    acc1[u - 1]
                                }) by {
                                    assert(acc@ == acc1.take(t as int) + seq![
                                        (day, (c0, 1u64)),
                                    ] + acc1.skip(t as int));
                                }
                                let mm2 = mm1.insert(day as int, (c0 as int + pcpt.0, 1 + pcpt.1));
                                assert forall|u: int| 0 <= u < acc@.len() implies mm2.dom().contains(
                                (#[trigger] acc@[u]).0 as int) && mm2[acc@[u].0 as int] == (
                                acc@[u].1.0 as int, acc@[u].1.1 as int) by {
                                    if u < t as int {
                                        assert(acc@[u] == acc1[u]);
                                        assert(acc@[u].0 < day);
                                    } else if u > t as int {
                                        assert(acc@[u] == acc1[u - 1]);
                                        assert(acc@[u].0 > day);
                                    }
                                }
                                assert(acc_table_matches(acc@, mm2)) by {
                                    assert forall|k: int| mm2.dom().contains(k) implies exists|u: int|
                                        0 <= u < acc@.len() && (#[trigger] acc@[u]).0 as int == k
                                        by {
                                        if k == day as int {
                                            assert(acc@[t as int].0 as int == k);
                                        } else {
                                            let w = choose|u: int|
                                                0 <= u < acc1.len() && (
                                                #[trigger] acc1[u]).0 as int == k;
                                            if w < t as int {
                                                assert(acc@[w].0 as int == k);
                                            } else {
                                                assert(acc@[w + 1].0 as int == k);
                                            }
                                        }
                                    }
                                }
                            }
                        },
                    }
                    let ghost mm2 = mm1.insert(day as int, (c0 as int + pcpt.0, 1 + pcpt.1));
                    proof {
                        assert(acc_table_matches(acc@, mm2));
                        assert(acc_step(mm0, prev0, item, cur) == (mm2, item.day.day as int));
                        mm = mm2;
                        processed = processed + 1;
                        assert forall|t: int| 0 <= t < acc@.len() implies (
                        #[trigger] acc@[t]).1.0 <= acc@[t].1.1 && (acc@[t].1.1 as int) <= 2
                            * processed by {}
                    }
                }
                li = li + 1;
            }
            proof {
                assert(log.skip(log.len() as int) =~= Seq::<ReviewLogItem>::empty());
                assert(acc_log(mm, prev as int, log.skip(log.len() as int), cur) == (
                mm,
                prev as int,
                ));
            }
            ci = ci + 1;
        }
        proof {
            assert(cm.skip(ci as int) =~= Seq::<CardModel>::empty());
            assert(acc_cards(mm, cm.skip(ci as int), cur) == mm);
        }
        acc
    }
}

} // verus!
