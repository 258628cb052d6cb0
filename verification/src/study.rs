//! The study session rules. Cards are presented in order; a card answered
//! affirmatively (a case-insensitive `y` or `yes`, surrounding whitespace
//! ignored) is removed from the deck, any other answer keeps it, and the
//! kept cards stay in their original relative order.

use vstd::prelude::*;

use crate::text::{bytes_eq, is_space, lower_byte, lower_spec, to_lower, trim, trim_front,
    trim_back, trim_spec, views};
use crate::{CardView, FlashcardDeck};

verus! {

/// The bytes of `"y"`.
pub open spec fn yes_short() -> Seq<u8> {
    seq![121u8]
}

/// The bytes of `"yes"`.
pub open spec fn yes_long() -> Seq<u8> {
    seq![121u8, 101u8, 115u8]
}

/// Whether an answer counts as affirmative: after trimming and ASCII
/// lowercasing it reads `y` or `yes`.
pub open spec fn affirmative(s: Seq<u8>) -> bool {
    lower_spec(trim_spec(s)) == yes_short() || lower_spec(trim_spec(s)) == yes_long()
}

/// Decides whether an answer counts as affirmative.
pub fn is_affirmative(response: &Vec<u8>) -> (r: bool)
    ensures
        r == affirmative(response@),
{
    let t = trim(response);
    let l = to_lower(&t);
    let mut y: Vec<u8> = Vec::new();
    y.push(121);
    let mut yes: Vec<u8> = Vec::new();
    yes.push(121);
    yes.push(101);
    yes.push(115);
    proof {
        assert(y@ =~= yes_short());
        assert(yes@ =~= yes_long());
    }
    let short = bytes_eq(&l, &y);
    let long = bytes_eq(&l, &yes);
    short || long
}

/// The deck left after studying: the cards are presented in order, one
/// answer each; a card whose answer is affirmative leaves, the rest stay
/// in their original order.
pub open spec fn study_spec(cards: Seq<CardView>, answers: Seq<Seq<u8>>) -> Seq<CardView>
    decreases cards.len(),
{
    if cards.len() == 0 {
        Seq::<CardView>::empty()
    } else if answers.len() == 0 {
        cards
    } else if affirmative(answers[0]) {
        study_spec(cards.drop_first(), answers.drop_first())
    } else {
        seq![cards[0]] + study_spec(cards.drop_first(), answers.drop_first())
    }
}

/// Studying an empty deck ends at once and leaves it empty, whatever
/// answers stand ready.
pub proof fn lemma_study_empty_deck(answers: Seq<Seq<u8>>)
    ensures
        study_spec(Seq::<CardView>::empty(), answers) == Seq::<CardView>::empty(),
{
}

/// One more presented card extends the session's outcome at the end: it is
/// dropped when its answer is affirmative and appended otherwise.
proof fn lemma_study_snoc(cards: Seq<CardView>, answers: Seq<Seq<u8>>, c: CardView, a: Seq<u8>)
    requires
        cards.len() == answers.len(),
    ensures
        study_spec(cards.push(c), answers.push(a)) == study_spec(cards, answers) + (if affirmative(
            a,
        ) {
            Seq::<CardView>::empty()
        } else {
            seq![c]
        }),
    decreases cards.len(),
{
    let tail = if affirmative(a) {
        Seq::<CardView>::empty()
    } else {
        seq![c]
    };
    if cards.len() == 0 {
        assert(cards.push(c).drop_first() =~= Seq::<CardView>::empty());
        assert(answers.push(a).drop_first() =~= Seq::<Seq<u8>>::empty());
        assert(cards.push(c)[0] == c);
        assert(answers.push(a)[0] == a);
        assert(study_spec(Seq::<CardView>::empty(), Seq::<Seq<u8>>::empty())
            == Seq::<CardView>::empty());
        if affirmative(a) {
            assert(study_spec(cards.push(c), answers.push(a)) == Seq::<CardView>::empty());
        } else {
            assert(study_spec(cards.push(c), answers.push(a)) == seq![c]
                + Seq::<CardView>::empty());
            assert(seq![c] + Seq::<CardView>::empty() =~= seq![c]);
        }
        assert(study_spec(cards, answers) == Seq::<CardView>::empty());
        assert(Seq::<CardView>::empty() + tail =~= tail);
    } else {
        assert(cards.push(c).drop_first() =~= cards.drop_first().push(c));
        assert(answers.push(a).drop_first() =~= answers.drop_first().push(a));
        lemma_study_snoc(cards.drop_first(), answers.drop_first(), c, a);
        assert(cards.push(c)[0] == cards[0]);
        assert(answers.push(a)[0] == answers[0]);
        if !affirmative(answers[0]) {
            assert(seq![cards[0]] + (study_spec(cards.drop_first(), answers.drop_first()) + tail)
                =~= (seq![cards[0]] + study_spec(cards.drop_first(), answers.drop_first()))
                + tail);
        }
    }
}

impl FlashcardDeck {
    /// Runs a whole study session over the deck, consuming one answer per
    /// card in the deck's order, as `study_spec` describes.
    pub fn study_with_answers(&mut self, answers: &Vec<Vec<u8>>)
        requires
            answers@.len() == old(self)@.len(),
        ensures
            final(self)@ == study_spec(old(self)@, views(answers@)),
    {
        let ghost orig = self@;
        let ghost ans = views(answers@);
        let n = answers.len();
        let mut current: usize = 0;
        let mut k: usize = 0;
        proof {
            assert(orig.subrange(0, 0) =~= Seq::<CardView>::empty());
            assert(ans.subrange(0, 0) =~= Seq::<Seq<u8>>::empty());
            assert(orig.subrange(0, n as int) =~= orig);
            assert(Seq::<CardView>::empty() + orig =~= orig);
        }
        while current < self.cards.len()
            invariant
                n == ans.len(),
                n == orig.len(),
                ans == views(answers@),
                answers@.len() == n,
                k <= n,
                self@ == study_spec(orig.subrange(0, k as int), ans.subrange(0, k as int))
                    + orig.subrange(k as int, n as int),
                current == study_spec(orig.subrange(0, k as int), ans.subrange(0, k as int)).len(),
            decreases n - k,
        {
            let ghost pre_c = orig.subrange(0, k as int);
            let ghost pre_a = ans.subrange(0, k as int);
            proof {
                assert(self@.len() == self.cards@.len());
                assert(k < n);
                assert(self@[current as int] == orig[k as int]);
                assert(orig.subrange(0, k + 1) =~= pre_c.push(orig[k as int]));
                assert(ans.subrange(0, k + 1) =~= pre_a.push(ans[k as int]));
                lemma_study_snoc(pre_c, pre_a, orig[k as int], ans[k as int]);
            }
            let response = &answers[k];
            proof {
                assert(response@ == ans[k as int]);
            }
            if is_affirmative(response) {
                let ghost before = self@;
                self.cards.remove(current);
                proof {
                    assert(self@ =~= before.remove(current as int));
                    assert(before.remove(current as int) =~= study_spec(pre_c, pre_a)
                        + orig.subrange(k + 1, n as int));
                    assert(study_spec(orig.subrange(0, k + 1), ans.subrange(0, k + 1))
                        =~= study_spec(pre_c, pre_a));
                }
            } else {
                current = current + 1;
                proof {
                    assert(study_spec(orig.subrange(0, k + 1), ans.subrange(0, k + 1))
                        =~= study_spec(pre_c, pre_a) + seq![orig[k as int]]);
                    assert(orig.subrange(k as int, n as int) =~= seq![orig[k as int]]
                        + orig.subrange(k + 1, n as int));
                    assert(self@ =~= (study_spec(pre_c, pre_a) + seq![orig[k as int]])
                        + orig.subrange(k + 1, n as int));
                }
            }
            k = k + 1;
        }
        proof {
            assert(self@.len() == self.cards@.len());
            assert(orig.subrange(k as int, n as int).len() == 0);
            assert(k == n);
            assert(orig.subrange(0, n as int) =~= orig);
            assert(ans.subrange(0, n as int) =~= ans);
            assert(self@ =~= study_spec(orig, ans));
        }
    }

    /// One step of an interactive study session at position `current`: an
    /// affirmative answer removes the current card and the next card takes
    /// its index; any other answer keeps it and the index advances.
    pub fn study_step(&mut self, current: usize, response: &Vec<u8>) -> (next: usize)
        requires
            current < old(self)@.len(),
        ensures
            affirmative(response@) ==> final(self)@ == old(self)@.remove(current as int) && next
                == current,
            !affirmative(response@) ==> final(self)@ == old(self)@ && next == current + 1,
    {
        let n = self.cards.len();
        proof {
            assert(self@.len() == n);
        }
        if is_affirmative(response) {
            let ghost before = self@;
            self.cards.remove(current);
            proof {
                assert(self@ =~= before.remove(current as int));
            }
            current
        } else {
            current + 1
        }
    }
}

/// Lowercasing does not disturb leading whitespace.
proof fn lemma_trim_front_lower(s: Seq<u8>)
    ensures
        trim_front(lower_spec(s)) == lower_spec(trim_front(s)),
    decreases s.len(),
{
    if s.len() > 0 {
        assert(lower_spec(s).len() == s.len());
        assert(lower_spec(s)[0] == lower_byte(s[0]));
        assert(is_space(lower_byte(s[0])) == is_space(s[0]));
        if is_space(s[0]) {
            assert(lower_spec(s).drop_first() =~= lower_spec(s.drop_first()));
            lemma_trim_front_lower(s.drop_first());
        }
    }
}

/// Lowercasing does not disturb trailing whitespace.
proof fn lemma_trim_back_lower(s: Seq<u8>)
    ensures
        trim_back(lower_spec(s)) == lower_spec(trim_back(s)),
    decreases s.len(),
{
    if s.len() > 0 {
        assert(lower_spec(s).len() == s.len());
        assert(lower_spec(s)[s.len() - 1] == lower_byte(s[s.len() - 1]));
        assert(is_space(lower_byte(s[s.len() - 1])) == is_space(s[s.len() - 1]));
        if is_space(s[s.len() - 1]) {
            assert(lower_spec(s).drop_last() =~= lower_spec(s.drop_last()));
            lemma_trim_back_lower(s.drop_last());
        }
    }
}

/// Lowercasing twice is lowercasing once.
proof fn lemma_lower_idempotent(s: Seq<u8>)
    ensures
        lower_spec(lower_spec(s)) == lower_spec(s),
{
    assert forall|i: int| 0 <= i < s.len() implies lower_spec(lower_spec(s))[i] == lower_spec(s)[i]
        by {
        assert(lower_spec(s)[i] == lower_byte(s[i]));
        assert(lower_spec(lower_spec(s))[i] == lower_byte(lower_byte(s[i])));
    }
    assert(lower_spec(lower_spec(s)) =~= lower_spec(s));
}

/// The affirmative test is case-insensitive: lowercasing an answer
/// beforehand never changes the outcome.
pub proof fn lemma_affirmative_case_insensitive(s: Seq<u8>)
    ensures
        affirmative(lower_spec(s)) == affirmative(s),
{
    lemma_trim_front_lower(s);
    lemma_trim_back_lower(trim_front(s));
    assert(trim_spec(lower_spec(s)) == lower_spec(trim_spec(s)));
    lemma_lower_idempotent(trim_spec(s));
}

} // verus!
