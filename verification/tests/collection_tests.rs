use tmemo::card::{Card, CardCollection, CardContent, CardMetadata};
use tmemo::date::Date;
use tmemo::deck::Deck;
use tmemo::fsrs::FSRSState;

fn card_with(front: &str, back: &str, prefix: &str) -> Card {
    Card {
        content: CardContent {
            prefix: prefix.to_string(),
            front: front.to_string(),
            back: back.to_string(),
            editable: true,
            base: None,
            cloze_index: None,
        },
        fsrs_state: FSRSState::new(Date { day: 100 }),
    }
}

#[test]
fn line_mode_derivation() {
    let root = card_with("", "alpha\nbeta\ngamma", "p");
    let mut collection = CardCollection {
        base_cards: Vec::new(),
        cards: Vec::new(),
    };
    let metadata = CardMetadata {
        surrounding_lines: 1,
        card_type: "line".to_string(),
    };
    collection.create_special_cards(&root, metadata);
    assert_eq!(collection.cards.len(), 3);
    assert_eq!(collection.cards[0].content.front, "{...}\nbeta\n...");
    assert_eq!(collection.cards[0].content.back, "{{{alpha}}}");
    assert_eq!(collection.cards[1].content.front, "alpha\n{...}\ngamma");
    assert_eq!(collection.cards[1].content.back, "{{{beta}}}");
    assert_eq!(collection.cards[2].content.front, "...\nbeta\n{...}");
    assert_eq!(collection.cards[2].content.back, "{{{gamma}}}");
    for (i, c) in collection.cards.iter().enumerate() {
        assert_eq!(c.content.base, Some(0));
        assert_eq!(c.content.cloze_index, Some(i));
        assert!(!c.content.editable);
    }
}

#[test]
fn searching_cards() {
    let mut deck = Deck::new();
    let cards = vec![
        card_with("alpha one", "body", "notes"),
        card_with("beta two", "alpha inside", "notes"),
        card_with("gamma", "other", "alpha prefix"),
    ];
    let _ = deck.replace_cards(CardCollection::from(cards).unwrap());
    let all = deck.find_cards("alpha".to_string());
    assert_eq!(all.len(), 3);
    let narrowed = deck.find_cards("alpha one".to_string());
    assert_eq!(narrowed.len(), 1);
    assert_eq!(deck.cards[narrowed[0]].content.front, "alpha one");
    assert_eq!(deck.find_cards("absent".to_string()).len(), 0);
    assert_eq!(deck.find_cards("  ".to_string()).len(), 3);
}
