use flashcards::codec::ParseError;
use flashcards::FlashcardDeck;

fn load(text: &str) -> Result<FlashcardDeck, ParseError> {
    FlashcardDeck::from_text(&text.as_bytes().to_vec())
}

#[test]
fn loads_a_single_record() {
    let text = "1. Created: 2024-01-02 03:04:05 +0000\n   Question: What is Rust?\n   Answer: A language\n\n";
    let deck = load(text).unwrap();
    assert_eq!(deck.cards.len(), 1);
    assert_eq!(deck.cards[0].question, b"What is Rust?".to_vec());
    assert_eq!(deck.cards[0].answer, b"A language".to_vec());
}

#[test]
fn loads_records_in_order() {
    let text = "1. Created: 2024-01-02 03:04:05 +0000\n   Question: q1\n   Answer: a1\n\n\
                2. Created: 2024-01-02 03:04:05 +0000\n   Question: q2\n   Answer: a2\n\n";
    let deck = load(text).unwrap();
    assert_eq!(deck.cards.len(), 2);
    assert_eq!(deck.cards[0].question, b"q1".to_vec());
    assert_eq!(deck.cards[1].question, b"q2".to_vec());
}

#[test]
fn fields_are_trimmed() {
    let text = "1. Created: 2024-01-02 03:04:05 +0000\n   Question:   spaced out  \n   Answer: \tanswer\t\n\n";
    let deck = load(text).unwrap();
    assert_eq!(deck.cards[0].question, b"spaced out".to_vec());
    assert_eq!(deck.cards[0].answer, b"answer".to_vec());
}

#[test]
fn a_block_missing_its_answer_line_is_skipped() {
    let text = "1. Created: 2024-01-02 03:04:05 +0000\n   Question: incomplete\n\n\
                2. Created: 2024-01-02 03:04:05 +0000\n   Question: whole\n   Answer: yes\n\n";
    let deck = load(text).unwrap();
    assert_eq!(deck.cards.len(), 1);
    assert_eq!(deck.cards[0].question, b"whole".to_vec());
}

#[test]
fn stray_text_between_records_is_skipped() {
    let text = "some header line\n\n1. Created: 2024-01-02 03:04:05 +0000\n   Question: q\n   Answer: a\n\ntrailing note\n";
    let deck = load(text).unwrap();
    assert_eq!(deck.cards.len(), 1);
}

#[test]
fn an_unparsable_timestamp_fails_the_whole_load() {
    let text = "1. Created: 2024-01-02 03:04:05 +0000\n   Question: fine\n   Answer: ok\n\n\
                2. Created: not a date\n   Question: q\n   Answer: a\n\n";
    assert_eq!(load(text).err(), Some(ParseError::InvalidTimestamp));
}

#[test]
fn an_out_of_range_timestamp_fails_the_whole_load() {
    let text = "1. Created: 2024-13-40 99:99:99 +0000\n   Question: q\n   Answer: a\n\n";
    assert_eq!(load(text).err(), Some(ParseError::InvalidTimestamp));
}

#[test]
fn a_fractional_second_timestamp_is_accepted() {
    let text = "1. Created: 2024-01-02 03:04:05.123456 +0130\n   Question: q\n   Answer: a\n\n";
    let deck = load(text).unwrap();
    assert_eq!(deck.cards.len(), 1);
}

#[test]
fn empty_text_loads_an_empty_deck() {
    let deck = load("").unwrap();
    assert_eq!(deck.cards.len(), 0);
}
