use tmemo::card::CardContent;
use tmemo::date::Date;
use tmemo::parsing::{
    check_markdown_heading, create_prefix, parse_cards, replace_card, ClozeIterator, ClozeType,
    Heading, LineSettings,
};

#[test]
fn create_prefix_works() {
    let headings = vec![
        Heading {
            title: "a".to_string(),
            level: 0,
        },
        Heading {
            title: "b".to_string(),
            level: 1,
        },
        Heading {
            title: "c".to_string(),
            level: 2,
        },
    ];
    let prefix = create_prefix(&headings);
    assert_eq!(&prefix, "a > b > c");
}

#[test]
fn test_md_heading_parsing() {
    let heading = check_markdown_heading("# test").unwrap();
    assert_eq!(&heading.title, "test");
    assert_eq!(heading.level, 1);
    let not_heading = check_markdown_heading(" # test");
    assert!(not_heading.is_none());
    let not_heading2 = check_markdown_heading("#test");
    assert!(not_heading2.is_none());
    let heading_level2 = check_markdown_heading("## test").unwrap();
    assert_eq!(&heading_level2.title, "test");
    assert_eq!(heading_level2.level, 2);
}

#[test]
fn escaping_cloze_works() {
    let input = "{{{test}\\}}}}";
    let mut iterator = ClozeIterator::new(ClozeType::TripleBrace, input.to_string());
    let item = iterator.next().unwrap();
    assert_eq!(item.clozed, "test}")
}

#[test]
fn brace_iteration_is_restartable_and_finite() {
    let input = "a {{{x}}} b {{{y}}} c";
    let mut it = ClozeIterator::new(ClozeType::TripleBrace, input.to_string());
    let first = it.next().unwrap();
    assert_eq!(first.before, "a ");
    assert_eq!(first.clozed, "x");
    assert_eq!(first.after, " b {{{y}}} c");
    let second = it.next().unwrap();
    assert_eq!(second.clozed, "y");
    assert!(it.next().is_none());

    let mut again = ClozeIterator::new(ClozeType::TripleBrace, input.to_string());
    assert_eq!(again.next().unwrap().clozed, "x");
}

#[test]
fn line_cloze_spans() {
    let input = "one\ntwo\nthree";
    let settings = LineSettings { lines_before_after: 1 };
    let mut it = ClozeIterator::new(ClozeType::Lines(settings), input.to_string());
    let a = it.next().unwrap();
    assert_eq!(a.before, "");
    assert_eq!(a.clozed, "one");
    assert_eq!(a.after, "\ntwo");
    let b = it.next().unwrap();
    assert_eq!(b.before, "one\n");
    assert_eq!(b.clozed, "two");
    assert_eq!(b.after, "\nthree");
    let c = it.next().unwrap();
    assert_eq!(c.clozed, "three");
    assert_eq!(c.after, "");
    assert!(it.next().is_none());
}

#[test]
fn inline_parsing_works() {
    let input = "front:: back\n\
                 front2:: back2\n\
                 notparsed::notparsed2\n";
    let cards = parse_cards(input, Date::from_ymd_opt(2024, 1, 1).unwrap(), None);
    assert_eq!(
        cards[0].content,
        CardContent {
            prefix: "File".to_string(),
            front: "front".to_string(),
            back: "back".to_string(),
            editable: true,
            base: None,
            cloze_index: None,
        }
    );
    assert_eq!(
        cards[1].content,
        CardContent {
            prefix: "File".to_string(),
            front: "front2".to_string(),
            back: "back2".to_string(),
            editable: true,
            base: None,
            cloze_index: None,
        }
    );
    assert_eq!(cards.len(), 2);
}

#[test]
fn headings_work() {
    let input = "# heading\n\
                 ## heading2\n\
                 front:: back\n\
                 front2:: back2\n
                 notparsed::notparsed2\n";
    let cards = parse_cards(input, Date::from_ymd_opt(2024, 1, 1).unwrap(), None);
    assert_eq!(
        cards[0].content,
        CardContent {
            prefix: "File > heading > heading2".to_string(),
            front: "front".to_string(),
            back: "back".to_string(),
            editable: true,
            base: None,
            cloze_index: None,
        }
    );
    assert_eq!(
        cards[1].content,
        CardContent {
            prefix: "File > heading > heading2".to_string(),
            front: "front2".to_string(),
            back: "back2".to_string(),
            editable: true,
            base: None,
            cloze_index: None,
        }
    );
    assert_eq!(cards.len(), 2);
}

#[test]
fn multiline_parsing_works() {
    let input = "askdjasldkjasldkjqweqwee\n\
    :::\n\
    front line1\n\
    front line2\n\
    :::\n\
    back line1\n\
    back line2\n\
    :::\n
    asdlaskjdjlasjda\n\
    ajsdlasjdlkasjda\n\
    qweqwe\n";

    let cards = parse_cards(input, Date::from_ymd_opt(2024, 1, 1).unwrap(), None);
    assert_eq!(cards.len(), 1);
    assert_eq!(cards[0].content.front, "front line1\nfront line2\n");
    assert_eq!(cards[0].content.back, "back line1\nback line2\n");
}

#[test]
fn replacing_idempotence() {
    let input = ":::\n\
     front line1\n\
    \tfront line2\n\
    :::\n\
    back line1\n\
    back line2\n\
    \n\
    :::\n
    test1 :: test2\n";

    let cards = parse_cards(input, Date::from_ymd_opt(2024, 1, 1).unwrap(), None);
    let replaced = replace_card(input, None, &cards[0], &cards[0]);
    assert_eq!(replaced.unwrap(), input);
    let replaced = replace_card(input, None, &cards[1], &cards[1]);
    assert_eq!(replaced.unwrap(), input);
}

#[test]
fn replacing() {
    let input = " test1:: test2\n";
    let cards = parse_cards(input, Date::from_ymd_opt(2024, 1, 1).unwrap(), None);
    let mut new_card = cards[0].clone();
    new_card.content.front = " best1".to_string();
    new_card.content.back = "best2".to_string();
    let replaced = replace_card(input, None, &cards[0], &new_card);
    assert_eq!(&replaced.unwrap(), " best1:: best2\n");
}

#[test]
fn replacing2() {
    let input = "\r\n test1:: test2\r\n";
    let cards = parse_cards(input, Date::from_ymd_opt(2024, 1, 1).unwrap(), None);
    let mut new_card = cards[0].clone();
    new_card.content.front = " best1".to_string();
    new_card.content.back = "best2".to_string();
    let replaced = replace_card(input, None, &cards[0], &new_card);
    assert_eq!(&replaced.unwrap(), "\r\n best1:: best2\r\n");
}
