use flashcards::study::is_affirmative;
use flashcards::{Flashcard, FlashcardDeck};

fn card(question: &str, answer: &str) -> Flashcard {
    Flashcard { question: question.as_bytes().to_vec(), answer: answer.as_bytes().to_vec() }
}

fn answers(list: &[&str]) -> Vec<Vec<u8>> {
    list.iter().map(|a| a.as_bytes().to_vec()).collect()
}

#[test]
fn studying_an_empty_deck_leaves_it_unchanged() {
    let mut deck = FlashcardDeck::new();
    deck.study_with_answers(&answers(&[]));
    assert_eq!(deck.cards.len(), 0);
}

#[test]
fn correct_cards_are_removed_and_the_rest_keep_their_order() {
    let mut deck = FlashcardDeck::new();
    deck.add_card(card("A", "a"));
    deck.add_card(card("B", "b"));
    deck.add_card(card("C", "c"));
    deck.study_with_answers(&answers(&["y", "n", "y"]));
    assert_eq!(deck.cards.len(), 1);
    assert_eq!(deck.cards[0].question, b"B".to_vec());
}

#[test]
fn answering_no_to_everything_keeps_the_deck() {
    let mut deck = FlashcardDeck::new();
    deck.add_card(card("A", "a"));
    deck.add_card(card("B", "b"));
    deck.study_with_answers(&answers(&["n", ""]));
    assert_eq!(deck.cards.len(), 2);
    assert_eq!(deck.cards[0].question, b"A".to_vec());
    assert_eq!(deck.cards[1].question, b"B".to_vec());
}

#[test]
fn answering_yes_to_everything_empties_the_deck() {
    let mut deck = FlashcardDeck::new();
    deck.add_card(card("A", "a"));
    deck.add_card(card("B", "b"));
    deck.study_with_answers(&answers(&["yes", "Y"]));
    assert_eq!(deck.cards.len(), 0);
}

#[test]
fn study_step_removes_on_yes_and_keeps_the_index() {
    let mut deck = FlashcardDeck::new();
    deck.add_card(card("A", "a"));
    deck.add_card(card("B", "b"));
    let next = deck.study_step(0, &b"y".to_vec());
    assert_eq!(next, 0);
    assert_eq!(deck.cards.len(), 1);
    assert_eq!(deck.cards[0].question, b"B".to_vec());
}

#[test]
fn study_step_advances_on_no_and_keeps_the_card() {
    let mut deck = FlashcardDeck::new();
    deck.add_card(card("A", "a"));
    let next = deck.study_step(0, &b"no".to_vec());
    assert_eq!(next, 1);
    assert_eq!(deck.cards.len(), 1);
}

#[test]
fn affirmative_answers_are_case_insensitive() {
    for yes in ["y", "Y", "yes", "YES", "yEs", "Yes", " y ", "\tYES\n"] {
        assert!(is_affirmative(&yes.as_bytes().to_vec()), "expected affirmative: {:?}", yes);
    }
}

#[test]
fn everything_else_counts_as_negative() {
    for no in ["", "n", "no", "N", "yess", "ye", "oui", " ", "y e s"] {
        assert!(!is_affirmative(&no.as_bytes().to_vec()), "expected negative: {:?}", no);
    }
}
