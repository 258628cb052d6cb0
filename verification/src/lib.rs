//! A flashcard study library: an ordered deck of question/answer cards,
//! a flat-text persistence codec, and the study rules that remove cards
//! the user has mastered.

pub mod codec;
pub mod study;
pub mod text;

use vstd::prelude::*;

verus! {

/// A single question/answer pair. Both fields are byte strings so that the
/// codec and the study rules can be stated over `Seq<u8>`.
pub struct Flashcard {
    pub question: Vec<u8>,
    pub answer: Vec<u8>,
}

/// Mathematical image of a `Flashcard`: the pair of byte sequences.
pub ghost struct CardView {
    pub question: Seq<u8>,
    pub answer: Seq<u8>,
}

impl View for Flashcard {
    type V = CardView;

    open spec fn view(&self) -> CardView {
        CardView { question: self.question@, answer: self.answer@ }
    }
}

/// The views of a sequence of flashcards, in order.
pub open spec fn card_views(cs: Seq<Flashcard>) -> Seq<CardView> {
    cs.map_values(|c: Flashcard| c@)
}

/// An ordered deck of flashcards; insertion order is the display,
/// study and on-disk order.
pub struct FlashcardDeck {
    pub cards: Vec<Flashcard>,
}

impl View for FlashcardDeck {
    type V = Seq<CardView>;

    open spec fn view(&self) -> Seq<CardView> {
        card_views(self.cards@)
    }
}

impl FlashcardDeck {
    /// The empty deck.
    pub fn new() -> (deck: Self)
        ensures
            deck@ == Seq::<CardView>::empty(),
    {
        let deck = FlashcardDeck { cards: Vec::new() };
        proof {
            assert(deck@ =~= Seq::<CardView>::empty());
        }
        deck
    }

    /// Appends `card` at the end of the deck.
    pub fn add_card(&mut self, card: Flashcard)
        ensures
            final(self)@ == old(self)@.push(card@),
    {
        let ghost prev = self@;
        self.cards.push(card);
        proof {
            assert(self@ =~= prev.push(card@));
        }
    }
}

} // verus!
