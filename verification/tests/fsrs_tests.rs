use tmemo::date::Date;
use tmemo::fsrs::{FSRSState, ReviewAnswer, ReviewLogItem, ReviewResult, ReviewUpdate};

#[test]
fn review_log_serialization_works() {
    for i in 1000..2000 {
        for answer in [
            ReviewAnswer::Bury,
            ReviewAnswer::Again,
            ReviewAnswer::Hard,
            ReviewAnswer::Good,
            ReviewAnswer::Easy,
        ] {
            let item = ReviewLogItem {
                day: Date { day: i },
                answer,
            };
            let encoded = item.encode();
            let decoded = ReviewLogItem::from(encoded).unwrap();
            assert_eq!(decoded, item);
        }
    }
}

#[test]
fn review_transition_discrete_parts() {
    let day = Date { day: 100 };
    let mut st = FSRSState::new(day);
    assert!(st.first_review());
    let update = ReviewUpdate {
        difficulty: String::from("5.1443"),
        stability: String::from("4.1386"),
        interval_days: 4,
    };
    let r = st.review(
        ReviewAnswer::Good,
        &Date { day: 105 },
        true,
        update,
    );
    assert_eq!(r, ReviewResult::Discard);
    assert_eq!(st.last_review.day, 105);
    assert_eq!(st.review_date.day, 109);
    assert!(st.review_date.day >= st.last_review.day);
    assert_eq!(st.review_log.len(), 1);
    assert_eq!(st.review_log[0].answer, ReviewAnswer::Good);
    assert!(!st.first_review());

    let update2 = ReviewUpdate {
        difficulty: String::from("6.0"),
        stability: String::from("0.57"),
        interval_days: 0,
    };
    let r2 = st.review(ReviewAnswer::Again, &Date { day: 109 }, false, update2);
    assert_eq!(r2, ReviewResult::Again);
    assert_eq!(st.review_date.day, 109);
    assert_eq!(st.last_review.day, 109);
    assert!(!st.complete_history);
    assert_eq!(st.review_log.len(), 1);

    let update3 = ReviewUpdate {
        difficulty: String::from("6.0"),
        stability: String::from("3.0"),
        interval_days: 3,
    };
    let r3 = st.review(ReviewAnswer::Bury, &Date { day: 110 }, true, update3);
    assert_eq!(r3, ReviewResult::Discard);
    assert!(st.buried);
    assert_eq!(st.last_review.day, 109);
}
