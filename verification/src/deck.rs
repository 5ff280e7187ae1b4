use vstd::prelude::*;

use rand::rngs::ThreadRng;
use rand::seq::SliceRandom;
use rand::Rng;

use crate::card::{card_of_index, Card, Cards};
use crate::hand::Hand;

verus! {

#[verifier::external_type_specification]
#[verifier::external_body]
pub struct ExThreadRng(ThreadRng);

/// A random index below `n`: `rand::Rng::gen_range` over `0..n`. The crate
/// panics on an empty range and otherwise returns a value inside it; which one
/// depends on the generator and is not stated.
#[verifier::external_body]
fn gen_index(rng: &mut ThreadRng, n: usize) -> (r: usize)
    requires
        n > 0,
    ensures
        r < n,
{
    rng.gen_range(0..n)
}

/// Shuffles the cards with `rand::seq::SliceRandom::shuffle`, which only swaps
/// elements of the slice: the result holds the same cards. Their order depends
/// on the generator and is not stated.
#[verifier::external_body]
fn shuffle_cards(rng: &mut ThreadRng, cards: &mut Vec<Card>)
    ensures
        final(cards)@.to_multiset() == old(cards)@.to_multiset(),
{
    cards.shuffle(rng)
}

/// Why a card could not be drawn.
#[derive(Clone, Copy, Debug, PartialEq, Eq, Structural)]
pub enum DeckError {
    /// No card is left in the deck.
    Empty,
}

/// The cards not yet dealt, in random order; drawn cards move behind the
/// remaining ones so that `reset` can bring them back.
pub struct Deck {
    cards: Vec<Card>,
    max_len: usize,
    len: usize,
}

/// Two lists holding the same cards: one has no card twice exactly when the other has none,
/// and they hold the same cards.
proof fn lemma_same_multiset(a: Seq<Card>, b: Seq<Card>)
    requires
        a.to_multiset() == b.to_multiset(),
    ensures
        a.no_duplicates() ==> b.no_duplicates(),
        a.len() == b.len(),
        forall|c: Card| a.contains(c) <==> b.contains(c),
{
    vstd::seq_lib::to_multiset_len(a);
    vstd::seq_lib::to_multiset_len(b);
    if a.no_duplicates() {
        a.lemma_multiset_has_no_duplicates();
        b.lemma_multiset_has_no_duplicates_conv();
    }
    assert forall|c: Card| a.contains(c) <==> b.contains(c) by {
        vstd::seq_lib::to_multiset_contains(a, c);
        vstd::seq_lib::to_multiset_contains(b, c);
    }
}

impl Deck {
    /// The cards are distinct and at most all of them remain.
    pub closed spec fn wf(self) -> bool {
        &&& self.cards@.len() == self.max_len
        &&& self.len <= self.max_len
        &&& self.cards@.no_duplicates()
    }

    /// The cards still in the deck.
    pub closed spec fn remaining(self) -> Set<Card> {
        self.cards@.subrange(0, self.len as int).to_set()
    }

    /// The cards still in the deck, as a list.
    pub closed spec fn remaining_list(self) -> Seq<Card> {
        self.cards@.subrange(0, self.len as int)
    }

    /// The remaining cards are those of the list, one for each that remains.
    pub proof fn lemma_remaining_list(self)
        requires
            self.wf(),
        ensures
            self.remaining() == self.remaining_list().to_set(),
            self.remaining_list().len() == self.remaining_count(),
    {
    }

    /// How many cards remain.
    pub closed spec fn remaining_count(self) -> int {
        self.len as int
    }

    /// The cards of the deck, drawn ones included.
    pub closed spec fn all_cards(self) -> Set<Card> {
        self.cards@.to_set()
    }

    /// A shuffled deck of the cards that are not in `known_cards`.
    pub fn from_cards(rng: &mut ThreadRng, known_cards: Cards) -> (d: Deck)
        ensures
            d.wf(),
            forall|c: Card| d.all_cards().contains(c) <==> !known_cards.contains(c),
            d.remaining() == d.all_cards(),
    {
        let mut cards: Vec<Card> = Vec::new();
        let mut i: usize = 0;
        while i < 52
            invariant
                i <= 52,
                cards@.no_duplicates(),
                forall|k: int| 0 <= k < cards@.len() ==> (#[trigger] cards@[k]).index() < i,
                forall|c: Card| #[trigger] cards@.contains(c) <==> (c.index() < i && !known_cards.contains(c)),
            decreases 52 - i,
        {
            let c = Card::from_index_52_by_rank(i);
            if !known_cards.has(c) {
                let ghost before = cards@;
                cards.push(c);
                proof {
                    assert forall|x: Card| #[trigger] cards@.contains(x) <==> (x.index() < i + 1 && !known_cards.contains(x)) by {
                        if cards@.contains(x) && x != c {
                            let k = choose|k: int| 0 <= k < cards@.len() && cards@[k] == x;
                            assert(before[k] == x);
                        }
                        if before.contains(x) {
                            let k = choose|k: int| 0 <= k < before.len() && before[k] == x;
                            assert(cards@[k] == x);
                        }
                        if x.index() == i {
                            Card::lemma_index_injective(x, c);
                            assert(cards@[before.len() as int] == c);
                        }
                    }
                }
            } else {
                proof {
                    assert forall|x: Card| #[trigger] cards@.contains(x) <==> (x.index() < i + 1 && !known_cards.contains(x)) by {
                        if x.index() == i {
                            Card::lemma_index_injective(x, c);
                        }
                    }
                }
            }
            i = i + 1;
        }
        let ghost before = cards@;
        shuffle_cards(rng, &mut cards);
        proof {
            lemma_same_multiset(before, cards@);
            assert forall|c: Card| c.index() < 52 by {
                c.lemma_index();
            }
        }
        let n = cards.len();
        let d = Deck { cards, max_len: n, len: n };
        proof {
            assert(d.cards@.subrange(0, n as int) =~= d.cards@);
        }
        d
    }

    /// Draws the card at `index` of the remaining ones.
    pub fn take_card(&mut self, index: usize) -> (c: Card)
        requires
            old(self).wf(),
            index < old(self).remaining_count(),
        ensures
            final(self).wf(),
            old(self).remaining().contains(c),
            final(self).remaining() == old(self).remaining().remove(c),
            final(self).all_cards() == old(self).all_cards(),
            final(self).remaining_count() == old(self).remaining_count() - 1,
    {
        let last = self.len - 1;
        let ghost old_cards = self.cards@;
        let c = self.cards[index];
        let d = self.cards[last];
        self.cards.set(index, d);
        self.cards.set(last, c);
        self.len = last;
        proof {
            let new_cards = self.cards@;
            assert(new_cards =~= old_cards.update(index as int, d).update(last as int, c));
            assert forall|x: Card| new_cards.contains(x) <==> old_cards.contains(x) by {
                if old_cards.contains(x) {
                    let k = choose|k: int| 0 <= k < old_cards.len() && old_cards[k] == x;
                    if k == index {
                        assert(new_cards[last as int] == x);
                    } else if k == last {
                        assert(new_cards[index as int] == x);
                    } else {
                        assert(new_cards[k] == x);
                    }
                }
                if new_cards.contains(x) {
                    let k = choose|k: int| 0 <= k < new_cards.len() && new_cards[k] == x;
                    if k == index {
                        assert(old_cards[last as int] == x);
                    } else if k == last {
                        assert(old_cards[index as int] == x);
                    } else {
                        assert(old_cards[k] == x);
                    }
                }
            }
            assert(new_cards.no_duplicates()) by {
                assert forall|a: int, b: int| 0 <= a < new_cards.len() && 0 <= b < new_cards.len() && a != b implies new_cards[a]
                    != new_cards[b] by {
                    let oa = if a == index {
                        last as int
                    } else if a == last {
                        index as int
                    } else {
                        a
                    };
                    let ob = if b == index {
                        last as int
                    } else if b == last {
                        index as int
                    } else {
                        b
                    };
                    assert(new_cards[a] == old_cards[oa]);
                    assert(new_cards[b] == old_cards[ob]);
                }
            }
            assert(self.all_cards() =~= old(self).all_cards());
            assert forall|x: Card| self.remaining().contains(x) <==> old(self).remaining().remove(c).contains(x) by {
                if old_cards.subrange(0, last + 1).contains(x) && x != c {
                    let k = choose|k: int| 0 <= k < last + 1 && #[trigger] old_cards.subrange(0, last + 1)[k] == x;
                    if k == last {
                        assert(new_cards.subrange(0, last as int)[index as int] == x);
                    } else {
                        assert(k != index);
                        assert(new_cards.subrange(0, last as int)[k] == x);
                    }
                }
                if new_cards.subrange(0, last as int).contains(x) {
                    let k = choose|k: int| 0 <= k < last && #[trigger] new_cards.subrange(0, last as int)[k] == x;
                    if k == index {
                        assert(old_cards.subrange(0, last + 1)[last as int] == x);
                        assert(old_cards[last as int] != old_cards[index as int]);
                    } else {
                        assert(old_cards.subrange(0, last + 1)[k] == x);
                        assert(old_cards[k] != old_cards[index as int]);
                    }
                }
            }
            assert(old_cards.subrange(0, last + 1)[index as int] == c);
            assert(self.remaining() =~= old(self).remaining().remove(c));
        }
        c
    }

    /// Draws a random card of the remaining ones, if any is left.
    pub fn draw(&mut self, rng: &mut ThreadRng) -> (r: Option<Card>)
        requires
            old(self).wf(),
        ensures
            final(self).wf(),
            final(self).all_cards() == old(self).all_cards(),
            match r {
                None => old(self).remaining() == Set::<Card>::empty() && final(self).remaining() == old(
                    self,
                ).remaining(),
                Some(c) => old(self).remaining().contains(c) && final(self).remaining() == old(
                    self,
                ).remaining().remove(c),
            },
            r is None <==> old(self).remaining_count() == 0,
            r is None ==> final(self).remaining_count() == 0,
            r is Some ==> final(self).remaining_count() == old(self).remaining_count() - 1,
    {
        if self.len == 0 {
            proof {
                assert(self.remaining() =~= Set::<Card>::empty());
            }
            None
        } else {
            let index = gen_index(rng, self.len);
            Some(self.take_card(index))
        }
    }

    /// Draws a random card, or reports an empty deck.
    pub fn draw_result(&mut self, rng: &mut ThreadRng) -> (r: Result<Card, DeckError>)
        requires
            old(self).wf(),
        ensures
            final(self).wf(),
            final(self).all_cards() == old(self).all_cards(),
            match r {
                Err(_) => old(self).remaining() == Set::<Card>::empty() && final(self).remaining() == old(
                    self,
                ).remaining(),
                Ok(c) => old(self).remaining().contains(c) && final(self).remaining() == old(
                    self,
                ).remaining().remove(c),
            },
    {
        match self.draw(rng) {
            Some(c) => Ok(c),
            None => Err(DeckError::Empty),
        }
    }

    /// Draws two random cards as a hand, if two are left.
    pub fn hand(&mut self, rng: &mut ThreadRng) -> (r: Option<Hand>)
        requires
            old(self).wf(),
        ensures
            final(self).wf(),
            final(self).all_cards() == old(self).all_cards(),
            r matches Some(h) ==> h.wf() && old(self).remaining().contains(h.0) && old(self).remaining().contains(h.1)
                && final(self).remaining() == old(self).remaining().remove(h.0).remove(h.1),
            r is Some <==> old(self).remaining_count() >= 2,
            r is Some ==> final(self).remaining_count() == old(self).remaining_count() - 2,
            r is None ==> final(self).remaining_count() == 0,
    {
        let a = match self.draw(rng) {
            Some(c) => c,
            None => return None,
        };
        let b = match self.draw(rng) {
            Some(c) => c,
            None => return None,
        };
        let h = Hand::of_two_cards(a, b);
        proof {
            if let Some(hand) = h {
                if hand.0 == b {
                    assert(old(self).remaining().remove(a).remove(b) =~= old(self).remaining().remove(b).remove(a));
                }
            }
        }
        h
    }

    /// Puts every drawn card back.
    pub fn reset(&mut self)
        requires
            old(self).wf(),
        ensures
            final(self).wf(),
            final(self).all_cards() == old(self).all_cards(),
            final(self).remaining() == final(self).all_cards(),
    {
        self.len = self.max_len;
        proof {
            assert(self.cards@.subrange(0, self.len as int) =~= self.cards@);
        }
    }
}

} // verus!
