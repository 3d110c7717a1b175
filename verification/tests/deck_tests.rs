use tmemo::card::{Card, CardCollection, CardContent, Editable};
use tmemo::date::Date;
use tmemo::deck::{get_indices_to_review, Deck};
use tmemo::fsrs::{FSRSState, ReviewAnswer, ReviewLogItem, ReviewUpdate};
use tmemo::rand::SplitMix64;

const W: [f64; 17] = [
    0.5701, 1.4436, 4.1386, 10.9355, 5.1443, 1.2006, 0.8627, 0.0362, 1.629, 0.1342, 1.0166,
    2.1174, 0.0839, 0.3204, 1.4676, 0.219, 2.8237,
];
const TARGET_RETENTION: f64 = 0.9;
const FACTOR: f64 = 19.0 / 81.0;
const DECAY: f64 = -0.5;
const E: f64 = std::f64::consts::E;

fn date(year: i32, month: u32, day: u32) -> Date {
    Date::from_ymd_opt(year, month, day).unwrap()
}

fn default_date() -> Date {
    Date::from_yo_opt(2024, 1).unwrap()
}

fn new_card(front: &str) -> Card {
    new_card_with_date(front, default_date())
}

fn new_card_with_date(front: &str, date: Date) -> Card {
    Card {
        content: CardContent {
            prefix: String::new(),
            front: front.to_owned(),
            back: String::new(),
            editable: true,
            base: None,
            cloze_index: None,
        },
        fsrs_state: FSRSState::new(date),
    }
}

fn new_card_with_back(front: &str, back: &str) -> Card {
    let mut c = new_card(front);
    c.content.back = back.to_owned();
    c
}

fn new_difficulty(d: f64, g: f64) -> f64 {
    let mut new_d = d - W[6] * (g - 3.0);
    new_d = W[7] * (W[4] - new_d) + new_d;
    new_d.clamp(1.0, 10.0)
}

fn power_forgetting_curve(delta_t: f64, stability: f64) -> f64 {
    (1.0 + FACTOR * delta_t / stability).powf(DECAY)
}

fn retention_of(state: &FSRSState, stability: f64, date: &Date) -> f64 {
    let mut t: f64 = (date.day - state.last_review.day).into();
    t = if t >= 1.0 { t } else { 1.0 };
    power_forgetting_curve(t, stability)
}

fn interval_of(stability: f64) -> f64 {
    (stability / FACTOR * (TARGET_RETENTION.powf(1.0 / DECAY) - 1.0)).max(1.0)
}

/// The numeric half of the review transition: what the formulas make of
/// the current state, one answer and one jitter fraction.
fn compute_update(state: &FSRSState, answer: ReviewAnswer, date: &Date, fraction: f64) -> (ReviewUpdate, bool) {
    let d: f64 = state.difficulty.parse().unwrap();
    let s: f64 = state.stability.parse().unwrap();
    if let ReviewAnswer::Bury = answer {
        return (
            ReviewUpdate {
                difficulty: state.difficulty.clone(),
                stability: state.stability.clone(),
                interval_days: 0,
            },
            s > 2.0,
        );
    }
    let first = state.complete_history && state.review_log.is_empty();
    let (new_s, new_d) = if first {
        match answer {
            ReviewAnswer::Easy => (W[3], W[4] - W[5]),
            ReviewAnswer::Good => (W[2], W[4]),
            ReviewAnswer::Hard => (W[1], W[4] + W[5]),
            ReviewAnswer::Again => (W[0], W[4] + W[5] * 2.0),
            ReviewAnswer::Bury => unreachable!(),
        }
    } else {
        let retention = retention_of(state, s, date);
        match answer {
            ReviewAnswer::Again => {
                let ns = W[11] * d.powf(-W[12]) * ((s + 1.0).powf(W[13]) - 1.0)
                    * E.powf(W[14] * (1.0 - retention));
                (ns, new_difficulty(d, 1.0))
            }
            _ => {
                let hard_penalty = if let ReviewAnswer::Hard = answer { W[15] } else { 1.0 };
                let easy_bonus = if let ReviewAnswer::Easy = answer { W[16] } else { 1.0 };
                let ns = s
                    * (E.powf(W[8])
                        * (11.0 - d)
                        * s.powf(-W[9])
                        * (E.powf(W[10] * (1.0 - retention)) - 1.0)
                        * hard_penalty
                        * easy_bonus
                        + 1.0);
                let g = match answer {
                    ReviewAnswer::Easy => 4.0,
                    ReviewAnswer::Good => 3.0,
                    ReviewAnswer::Hard => 2.0,
                    _ => unreachable!(),
                };
                (ns, new_difficulty(d, g))
            }
        }
    };
    let days = (interval_of(new_s) * fraction).round() as i32;
    (
        ReviewUpdate {
            difficulty: format!("{}", new_d),
            stability: format!("{}", new_s),
            interval_days: days.max(1),
        },
        new_s > 2.0,
    )
}

/// Answers the current session card, drawing the jitter fraction from the
/// generator as the interactive flow does.
fn answer_card(deck: &mut Deck, answer: ReviewAnswer, generator: &mut SplitMix64) {
    let fraction = generator.next_rand() as f64 / (2.0_f64).powf(64.0) * 0.2 + 0.9;
    let date = deck.review_date.unwrap();
    let (update, high) = {
        let card = deck.get_review_card().unwrap();
        compute_update(&card.fsrs_state, answer, &date, fraction)
    };
    deck.review_card(answer, update, high, generator);
}

#[test]
fn orphan_linking_works() {
    let mut deck = Deck::new();
    let cards1 = vec![
        new_card_with_date("front1", date(2024, 1, 1)),
        new_card_with_date("front2", date(2024, 1, 1)),
    ];
    let mut cards2 = vec![
        new_card_with_date("front1", date(2024, 1, 2)),
        new_card_with_date("front2", date(2024, 1, 2)),
    ];
    cards2[0].content.prefix = "a".to_string();
    cards2[1].content.prefix = "b".to_string();
    let collection1 = CardCollection::from(cards1).unwrap();
    let collection2 = CardCollection::from(cards2).unwrap();

    let _ = deck.replace_cards(collection1);
    let _ = deck.replace_cards(collection2);
    assert!(deck.orphans.is_empty());
    assert_eq!(deck.cards[0].fsrs_state.date_added, date(2024, 1, 1));
    assert_eq!(deck.cards[1].fsrs_state.date_added, date(2024, 1, 1));
}

#[test]
fn cloze_card_editing_works() {
    let cloze_cards = vec![new_card_with_back("front1", "{{{back1}}} {{{back2}}}")];
    let collection = CardCollection::from(cloze_cards).unwrap();
    let mut deck = Deck::new();
    let _ = deck.replace_cards(collection);

    assert_eq!(deck.cards.len(), 2);
    deck.edit_base_card(0, new_card_with_back("front1", "{{{back3}}} {{{back4}}}"));
    assert_eq!(deck.cards[0].content.front, "front1\n\nback3 {...}");
    assert_eq!(deck.cards[1].content.front, "front1\n\n{...} back4");
    deck.edit_base_card(
        0,
        new_card_with_back("front1", "{{{back3}}} {{{back4}}} {{{back5}}}"),
    );
    assert_eq!(deck.cards.len(), 3);
    assert_eq!(deck.cards[0].content.front, "front1\n\nback3 {...} back5");
    assert_eq!(deck.cards[1].content.front, "front1\n\n{...} back4 back5");
    assert_eq!(deck.cards[2].content.front, "front1\n\nback3 back4 {...}");
}

#[test]
fn reschedule_works() {
    let mut deck = Deck::new();
    let mut vec: Vec<Card> = vec![];
    let start_day = date(2024, 1, 1);

    for i in 0..50 {
        vec.push(new_card_with_date(&format!("test{}", i), start_day));
    }
    let collection = CardCollection::from(vec).unwrap();
    let _ = deck.replace_cards(collection);
    deck.reschedule(date(2024, 1, 1), 2, 1);
    assert_eq!(deck.cards[0].fsrs_state.review_date, start_day);
    assert_eq!(
        deck.cards[25].fsrs_state.review_date,
        start_day.checked_add_days(1).unwrap()
    );
}

#[test]
fn reschedule_terminates_with_zero_cap() {
    let mut deck = Deck::new();
    let mut vec: Vec<Card> = vec![];
    for i in 0..10 {
        vec.push(new_card_with_date(&format!("c{}", i), date(2024, 1, 1)));
    }
    let _ = deck.replace_cards(CardCollection::from(vec).unwrap());
    deck.reschedule(date(2024, 1, 1), 3, 0);
    let first = date(2024, 1, 1).day;
    for c in &deck.cards {
        assert!(c.fsrs_state.review_date.day >= first);
        assert!(c.fsrs_state.review_date.day < first + 3);
    }
}

#[test]
fn review_works() {
    let mut deck = Deck::new();
    let vec = vec![
        new_card_with_date("card1", date(2024, 1, 1)),
        new_card_with_date("card2", date(2024, 2, 1)),
        new_card_with_date("card3", date(2024, 1, 15)),
    ];

    let mut generator = SplitMix64::from_seed(42);
    let collection = CardCollection::from(vec).unwrap();

    let _ = deck.replace_cards(collection);
    deck.start_review(date(2024, 1, 15), &mut generator);
    for i in 0..100 {
        assert_eq!(deck.active_review_count(), 2);
        if i % 2 == 0 {
            assert_eq!(deck.get_review_card().unwrap().content.front, "card3");
        } else {
            assert_eq!(deck.get_review_card().unwrap().content.front, "card1");
        }
        answer_card(&mut deck, ReviewAnswer::Again, &mut generator);
    }
    assert_eq!(deck.get_review_card().unwrap().content.front, "card3");
    answer_card(&mut deck, ReviewAnswer::Good, &mut generator);
    assert_eq!(deck.active_review_count(), 1);
    assert_eq!(deck.get_review_card().unwrap().content.front, "card1");
    answer_card(&mut deck, ReviewAnswer::Good, &mut generator);
    assert_eq!(deck.active_review_count(), 0);
    assert!(deck.get_review_card().is_none());
    deck.start_review(date(2024, 1, 15), &mut generator);
    assert_eq!(deck.active_review_count(), 0);
    assert_eq!(deck.cards[0].fsrs_state.review_date, date(2024, 1, 16));
    assert_eq!(deck.cards[1].fsrs_state.review_date, date(2024, 2, 1));
    assert_eq!(deck.cards[2].fsrs_state.review_date, date(2024, 1, 16));
}

#[test]
fn getting_review_cards_works() {
    let vec = vec![
        Card {
            content: CardContent::new(),
            fsrs_state: FSRSState::new(date(2024, 1, 1)),
        },
        Card {
            content: CardContent::new(),
            fsrs_state: FSRSState::new(date(2024, 2, 1)),
        },
        Card {
            content: CardContent::new(),
            fsrs_state: FSRSState::new(date(2024, 1, 15)),
        },
    ];

    let indices = get_indices_to_review(&vec, date(2024, 1, 15));
    assert_eq!(indices[0], 0);
    assert_eq!(indices[1], 2);
}

#[test]
fn update_works() {
    let cards: Vec<Card> = (0..100).map(|x| new_card(&format!("{}", x))).collect();
    let collection = CardCollection::from(cards).unwrap();
    let cards2: Vec<Card> = (0..100).map(|x| new_card(&format!("{}", x))).collect();
    let collection2 = CardCollection::from(cards2).unwrap();

    let mut deck: Deck = Deck::new();
    let _ = deck.replace_cards(collection);
    assert_eq!(deck.cards.len(), 100);
    let _ = deck.replace_cards(collection2);
    assert_eq!(deck.cards.len(), 100);
    assert_eq!(deck.orphans.len(), 0);
}

#[test]
fn random_review_works() {
    let cards: Vec<Card> = (0..100).map(|x| new_card(&format!("{}", x))).collect();
    let mut generator = SplitMix64::from_seed(0);

    let mut deck: Deck = Deck::new();
    let _ = deck.replace_cards(CardCollection::from(cards).unwrap());
    deck.start_random_review(default_date(), &mut generator, 20);
    assert!(deck.review_index.is_some());
    assert_eq!(deck.active_review_count(), 20);
}

#[test]
fn duplicates_error() {
    let cards: Vec<Card> = vec![new_card("front"), new_card("front")];

    let mut deck: Deck = Deck::new();
    let result = deck.replace_cards(CardCollection::from(cards).unwrap());
    assert!(result.is_ok());
    assert_eq!(deck.cards.len(), 1);
    assert_eq!(
        deck.cards[0].content.get_editability(),
        Editable::NotEditable
    );
}

#[test]
fn session_never_repeats_a_position() {
    let cards: Vec<Card> = (0..5).map(|x| new_card(&format!("n{}", x))).collect();
    let mut generator = SplitMix64::from_seed(7);
    let mut deck = Deck::new();
    let _ = deck.replace_cards(CardCollection::from(cards).unwrap());
    deck.start_all_review(default_date(), &mut generator);
    let mut prev = deck.review_index.unwrap();
    for _ in 0..200 {
        answer_card(&mut deck, ReviewAnswer::Again, &mut generator);
        let cur = deck.review_index.unwrap();
        assert_ne!(cur, prev, "the session repeated a position");
        prev = cur;
    }
}

#[test]
fn review_keeps_due_after_last_review() {
    let mut generator = SplitMix64::from_seed(3);
    let mut deck = Deck::new();
    let cards: Vec<Card> = (0..4).map(|x| new_card(&format!("p{}", x))).collect();
    let _ = deck.replace_cards(CardCollection::from(cards).unwrap());
    deck.track_review_history = true;
    deck.start_review(default_date(), &mut generator);
    for answer in [
        ReviewAnswer::Again,
        ReviewAnswer::Hard,
        ReviewAnswer::Good,
        ReviewAnswer::Easy,
    ] {
        answer_card(&mut deck, answer, &mut generator);
    }
    for c in &deck.cards {
        assert!(c.fsrs_state.review_date.day >= c.fsrs_state.last_review.day);
        assert!(!c.fsrs_state.review_log.is_empty());
    }
}

#[test]
fn fractional_reschedule_stays_after_last_review() {
    let mut deck = Deck::new();
    let cards: Vec<Card> = (0..6).map(|x| new_card(&format!("r{}", x))).collect();
    let _ = deck.replace_cards(CardCollection::from(cards).unwrap());
    let mut rng = SplitMix64::from_seed(9);
    for i in 0..deck.cards.len() {
        if deck.cards[i].fsrs_state.buried {
            continue;
        }
        let value = rng.next_rand() as f64 / (2.0_f64).powf(64.0) * 0.2 + 0.9;
        let gap = (deck.cards[i].fsrs_state.review_date.day
            - deck.cards[i].fsrs_state.last_review.day) as f64;
        let days = (gap * value).round().max(1.0) as i32;
        deck.reschedule_card(i, days);
        assert!(
            deck.cards[i].fsrs_state.review_date.day
                > deck.cards[i].fsrs_state.last_review.day
        );
    }
}

#[test]
fn load_from_tsv_reads_lines() {
    let today = Date { day: 1000 };
    let input = "5\t1.5\t2.5\tp\tf1\tb1\t-4\ttrue\t-1\n3\t1.5\t2.5\tp\tf2\tb2\t-4\ttrue\t-1\n";
    let deck = Deck::load_from_tsv(input, today).unwrap();
    assert_eq!(deck.cards.len(), 2);
    assert_eq!(deck.cards[0].content.front, "f1");
    assert_eq!(deck.cards[1].content.front, "f2");
    assert_eq!(deck.cards[1].fsrs_state.review_date.day, 1003);
    assert!(Deck::load_from_tsv("nonsense", today).is_err());
}

#[test]
fn accuracy_table() {
    let mut deck = Deck::new();
    let mut a = new_card("a");
    a.fsrs_state.review_log = vec![
        ReviewLogItem { answer: ReviewAnswer::Good, day: Date { day: 90 } },
        ReviewLogItem { answer: ReviewAnswer::Again, day: Date { day: 90 } },
        ReviewLogItem { answer: ReviewAnswer::Again, day: Date { day: 95 } },
    ];
    let mut b = new_card("b");
    b.fsrs_state.review_log = vec![ReviewLogItem {
        answer: ReviewAnswer::Easy,
        day: Date { day: 95 },
    }];
    deck.cards.push(a);
    deck.cards.push(b);
    let table = deck.get_accuracy_data(Date { day: 100 });
    assert_eq!(table, vec![(-1, (2, 3)), (5, (1, 2)), (10, (1, 1))]);
}
