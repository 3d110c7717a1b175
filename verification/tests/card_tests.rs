use tmemo::card::{Card, CardCollection, CardContent, Editable, TsvError};
use tmemo::date::Date;
use tmemo::fsrs::FSRSState;

fn default_date() -> Date {
    Date::from_yo_opt(2024, 1).unwrap()
}

#[test]
fn test_cloze_cards_work2() {
    let cards = vec![Card {
        fsrs_state: FSRSState::new(default_date()),
        content: CardContent {
            prefix: "test".to_string(),
            front: "test".to_string(),
            back: "a reference to an i32 with {{{an explicit lifetime 'a}}}".to_string(),
            editable: false,
            base: None,
            cloze_index: None,
        },
    }];

    let collection = CardCollection::from(cards).unwrap();
    assert_eq!(collection.base_cards.len(), 1);
    assert_eq!(collection.cards.len(), 1);
    assert_eq!(
        &collection.cards[0].content.front,
        "test\n\na reference to an i32 with {...}"
    );
}

#[test]
fn test_cloze_cards_work() {
    let cards = vec![
        Card {
            fsrs_state: FSRSState::new(default_date()),
            content: CardContent {
                prefix: "test".to_string(),
                front: "".to_string(),
                back: "{{{test1}}} {{{test2}}}".to_string(),
                editable: false,
                base: None,
                cloze_index: None,
            },
        },
        Card {
            fsrs_state: FSRSState::new(default_date()),
            content: CardContent {
                prefix: "test2".to_string(),
                front: "".to_string(),
                back: "{{{test1}}} {{{test2}}}".to_string(),
                editable: false,
                base: None,
                cloze_index: None,
            },
        },
    ];

    let collection = CardCollection::from(cards).unwrap();
    assert_eq!(collection.base_cards.len(), 2);
    assert_eq!(collection.cards.len(), 4);
    assert_eq!(&collection.cards[0].content.front, "\n\n{...} test2");
    assert_eq!(&collection.cards[1].content.front, "\n\ntest1 {...}");
    assert_eq!(&collection.cards[2].content.front, "\n\n{...} test2");
    assert_eq!(&collection.cards[3].content.front, "\n\ntest1 {...}");
    assert_eq!(collection.cards[0].content.base.unwrap(), 0);
    assert_eq!(collection.cards[1].content.base.unwrap(), 0);
    assert_eq!(collection.cards[2].content.base.unwrap(), 1);
    assert_eq!(collection.cards[3].content.base.unwrap(), 1);
}

#[test]
fn test_paren_cloze_cards_work() {
    let cards = vec![Card {
        fsrs_state: FSRSState::new(default_date()),
        content: CardContent {
            prefix: "test".to_string(),
            front: "".to_string(),
            back: "xd (((test1))) (((test2)))".to_string(),
            editable: false,
            base: None,
            cloze_index: None,
        },
    }];

    let collection = CardCollection::from(cards).unwrap();
    assert_eq!(collection.base_cards.len(), 1);
    assert_eq!(collection.cards.len(), 2);
    assert_eq!(&collection.cards[0].content.front, "\n\nxd {...} test2");
    assert_eq!(&collection.cards[1].content.front, "\n\nxd test1 {...}");
    assert_eq!(&collection.cards[0].content.back, "test1");
    assert_eq!(&collection.cards[1].content.back, "test2");
    assert_eq!(collection.cards[0].content.base.unwrap(), 0);
    assert_eq!(collection.cards[1].content.base.unwrap(), 0);
}

#[test]
fn incomplete_markers_stay_reviewable() {
    let cards = vec![Card {
        fsrs_state: FSRSState::new(default_date()),
        content: CardContent {
            prefix: "test".to_string(),
            front: "front".to_string(),
            back: "}}} {{{".to_string(),
            editable: true,
            base: None,
            cloze_index: None,
        },
    }];

    let collection = CardCollection::from(cards).unwrap();
    assert_eq!(collection.base_cards.len(), 0);
    assert_eq!(collection.cards.len(), 1);
    assert_eq!(&collection.cards[0].content.back, "}}} {{{");
    assert!(collection.cards[0].content.editable);
}

#[test]
fn tsv_conversion_works() {
    let mut card = Card::new();
    card.fsrs_state.date_added = Date { day: 5 };
    card.fsrs_state.review_date = Date { day: 999 };
    card.fsrs_state.complete_history = false;
    card.fsrs_state.difficulty = String::from("4.12356");
    card.fsrs_state.stability = String::from("3.2456");
    card.fsrs_state.last_review = Date { day: 995 };
    card.content.front = String::from("test1\n\t\\\\n");
    card.content.back = String::from("test3\n\tasd\\\\t");
    card.content.prefix = String::from("a");
    let current_day = Date { day: 1000 };
    let output = card.format_to_tsv(current_day);
    let parsed = Card::from_tsv(&output, current_day).unwrap();
    let output2 = parsed.format_to_tsv(current_day);
    assert_eq!(output, output2);
    assert_eq!(parsed.content.front, card.content.front);
    assert_eq!(parsed.content.back, card.content.back);
}

#[test]
fn md_filename_works() {
    let card_content = CardContent {
        prefix: "test.md > asd".to_string(),
        front: "".to_string(),
        back: "".to_string(),
        editable: true,
        base: None,
        cloze_index: None,
    };

    let card_content2 = CardContent {
        prefix: "test2.md".to_string(),
        front: "".to_string(),
        back: "".to_string(),
        editable: true,
        base: None,
        cloze_index: None,
    };

    assert_eq!(card_content.get_md_filename(), "test.md");
    assert_eq!(card_content2.get_md_filename(), "test2.md");
}

#[test]
fn tsv_errors_are_reported() {
    let d = Date { day: 1000 };
    assert_eq!(Card::from_tsv("", d).unwrap_err(), TsvError::MissingReviewDate);
    assert_eq!(Card::from_tsv("abc", d).unwrap_err(), TsvError::InvalidReviewDate);
    assert_eq!(Card::from_tsv("5", d).unwrap_err(), TsvError::MissingDifficulty);
    assert_eq!(Card::from_tsv("5\tx1", d).unwrap_err(), TsvError::InvalidDifficulty);
    assert_eq!(Card::from_tsv("5\t1.5", d).unwrap_err(), TsvError::MissingStability);
    assert_eq!(Card::from_tsv("5\t1.5\t..", d).unwrap_err(), TsvError::InvalidStability);
    assert_eq!(Card::from_tsv("5\t1.5\t2.5", d).unwrap_err(), TsvError::MissingPrefix);
    assert_eq!(Card::from_tsv("5\t1.5\t2.5\tp", d).unwrap_err(), TsvError::MissingFront);
    assert_eq!(Card::from_tsv("5\t1.5\t2.5\tp\tf", d).unwrap_err(), TsvError::MissingBack);
    assert_eq!(Card::from_tsv("5\t1.5\t2.5\tp\tf\tb", d).unwrap_err(), TsvError::MissingDateAdded);
    assert_eq!(Card::from_tsv("5\t1.5\t2.5\tp\tf\tb\tzz", d).unwrap_err(), TsvError::InvalidDateAdded);
    assert_eq!(Card::from_tsv("5\t1.5\t2.5\tp\tf\tb\t-4", d).unwrap_err(), TsvError::MissingCompleteHistory);
    assert_eq!(Card::from_tsv("5\t1.5\t2.5\tp\tf\tb\t-4\tmaybe", d).unwrap_err(), TsvError::InvalidCompleteHistory);
    assert_eq!(Card::from_tsv("5\t1.5\t2.5\tp\tf\tb\t-4\ttrue", d).unwrap_err(), TsvError::MissingLastReview);
    assert_eq!(Card::from_tsv("5\t1.5\t2.5\tp\tf\tb\t-4\ttrue\tq", d).unwrap_err(), TsvError::InvalidLastReview);
    assert_eq!(Card::from_tsv("5\t1.5\t2.5\tp\tf\tb\t-4\ttrue\t-1\tnope", d).unwrap_err(), TsvError::InvalidReviewLog);
    let ok = Card::from_tsv("5\t1.5\t2.5\tp\tf\tb\t-4\ttrue\t-1", d).unwrap();
    assert_eq!(ok.fsrs_state.review_date.day, 1005);
    assert_eq!(ok.fsrs_state.date_added.day, 996);
    assert_eq!(ok.fsrs_state.last_review.day, 999);
    assert_eq!(ok.content.prefix, "p");
    assert!(ok.fsrs_state.complete_history);
}

#[test]
fn editability_classes() {
    let mut c = CardContent::new();
    assert_eq!(c.get_editability(), Editable::Editable);
    c.editable = false;
    assert_eq!(c.get_editability(), Editable::NotEditable);
    c.base = Some(0);
    assert_eq!(c.get_editability(), Editable::BaseEditable);
}

#[test]
fn content_rendering() {
    let mut c = CardContent::new();
    c.front = String::from("f");
    c.back = String::from("b");
    assert_eq!(c.to_string(), "f:: b");
    c.front = String::from("l1\nl2\n");
    assert_eq!(c.to_string(), ":::\nl1\nl2\n:::\nb:::");
    assert_eq!(c.get_singleline_front(), "l1\\nl2\\n");
    c.prefix = String::from("pre");
    assert_eq!(c.get_formatted_front(), "pre\nl1\nl2\n");
    assert_eq!(c.key(), "prel1\nl2\n");
}
