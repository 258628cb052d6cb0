use flashcards::{Flashcard, FlashcardDeck};

fn card(question: &str, answer: &str) -> Flashcard {
    Flashcard { question: question.as_bytes().to_vec(), answer: answer.as_bytes().to_vec() }
}

fn pairs(deck: &FlashcardDeck) -> Vec<(String, String)> {
    deck.cards
        .iter()
        .map(|c| {
            (
                String::from_utf8(c.question.clone()).unwrap(),
                String::from_utf8(c.answer.clone()).unwrap(),
            )
        })
        .collect()
}

#[test]
fn new_deck_is_empty() {
    let deck = FlashcardDeck::new();
    assert_eq!(deck.cards.len(), 0);
}

#[test]
fn add_card_appends_at_the_end() {
    let mut deck = FlashcardDeck::new();
    deck.add_card(card("q1", "a1"));
    deck.add_card(card("q2", "a2"));
    assert_eq!(deck.cards.len(), 2);
    deck.add_card(card("q3", "a3"));
    assert_eq!(deck.cards.len(), 3);
    assert_eq!(deck.cards[2].question, b"q3".to_vec());
    assert_eq!(deck.cards[2].answer, b"a3".to_vec());
    assert_eq!(deck.cards[0].question, b"q1".to_vec());
}

#[test]
fn round_trip_keeps_questions_and_answers() {
    let mut deck = FlashcardDeck::new();
    deck.add_card(card("What is Rust?", "A systems language"));
    deck.add_card(card("2 + 2", "4"));
    deck.add_card(card("Capital of France", "Paris"));
    let text = deck.save_text().expect("the clock should yield a usable timestamp");
    let reloaded = FlashcardDeck::from_text(&text).expect("saved text should load");
    assert_eq!(pairs(&deck), pairs(&reloaded));
}

#[test]
fn round_trip_of_empty_deck() {
    let deck = FlashcardDeck::new();
    let text = deck.save_text().expect("the clock should yield a usable timestamp");
    assert_eq!(text.len(), 0);
    let reloaded = FlashcardDeck::from_text(&text).expect("empty text should load");
    assert_eq!(reloaded.cards.len(), 0);
}

#[test]
fn rendered_text_has_the_expected_shape() {
    let mut deck = FlashcardDeck::new();
    deck.add_card(card("q", "a"));
    deck.add_card(card("r", "b"));
    let ts = b"2024-01-02 03:04:05 +0000".to_vec();
    let text = deck.to_text(&ts);
    let expected = "1. Created: 2024-01-02 03:04:05 +0000\n   Question: q\n   Answer: a\n\n\
                    2. Created: 2024-01-02 03:04:05 +0000\n   Question: r\n   Answer: b\n\n";
    assert_eq!(String::from_utf8(text).unwrap(), expected);
}
