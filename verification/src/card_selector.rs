use vstd::prelude::*;

use crate::card::{Card, Cards};

verus! {

/// The choice of some cards, in the order they were picked, where some cards
/// may be disabled and the number of cards to pick lies between a minimum and a
/// maximum.
pub struct CardSelector {
    cards: Cards,
    in_order: Vec<Card>,
    disabled: Cards,
    min: usize,
    max: usize,
}

impl CardSelector {
    /// The picked cards are those of the pick order, each once, none of them
    /// disabled, and the bounds are `0 <= min <= max <= 52` with `max > 0`.
    pub closed spec fn wf(self) -> bool {
        &&& forall|c: Card| self.cards.contains(c) <==> self.in_order@.contains(c)
        &&& self.in_order@.no_duplicates()
        &&& forall|c: Card| !(self.cards.contains(c) && self.disabled.contains(c))
        &&& self.min <= self.max <= 52
        &&& self.max > 0
    }

    /// The picked cards, in the order they were picked.
    pub closed spec fn picked(self) -> Seq<Card> {
        self.in_order@
    }

    /// Whether a card cannot be picked.
    pub closed spec fn is_disabled(self, c: Card) -> bool {
        self.disabled.contains(c)
    }

    pub closed spec fn min_cards(self) -> int {
        self.min as int
    }

    pub closed spec fn max_cards(self) -> int {
        self.max as int
    }

    /// A selector of one card, nothing picked or disabled.
    pub fn new() -> (s: CardSelector)
        ensures
            s.wf(),
            s.picked() == Seq::<Card>::empty(),
            forall|c: Card| !s.is_disabled(c),
            s.min_cards() == 1,
            s.max_cards() == 1,
    {
        let s = CardSelector { cards: Cards::empty(), in_order: Vec::new(), disabled: Cards::empty(), min: 1, max: 1 };
        proof {
            assert(s.in_order@.no_duplicates());
        }
        s
    }

    /// The set of the picked cards has as many cards as were picked.
    pub proof fn lemma_picked_count(self, c: Cards)
        requires
            self.wf(),
            forall|d: Card| c.contains(d) <==> self.picked().contains(d),
        ensures
            c.view_set().len() == self.picked().len(),
    {
        assert(c.view_set() =~= self.picked().to_set());
        self.picked().unique_seq_to_set();
    }

    /// The picked cards.
    pub fn cards(&self) -> (c: Cards)
        requires
            self.wf(),
        ensures
            forall|d: Card| c.contains(d) <==> self.picked().contains(d),
    {
        self.cards
    }

    /// The picked cards, in the order they were picked.
    pub fn cards_in_order(&self) -> (v: &[Card])
        ensures
            v@ == self.picked(),
    {
        self.in_order.as_slice()
    }

    /// Unpicks all cards.
    pub fn reset(&mut self)
        requires
            old(self).wf(),
        ensures
            final(self).wf(),
            final(self).picked() == Seq::<Card>::empty(),
            forall|c: Card| final(self).is_disabled(c) == old(self).is_disabled(c),
            final(self).min_cards() == old(self).min_cards(),
            final(self).max_cards() == old(self).max_cards(),
    {
        self.cards = Cards::empty();
        self.in_order = Vec::new();
        proof {
            assert(self.in_order@.no_duplicates());
        }
    }

    /// Sets how many cards are to be picked.
    pub fn set_min_max(&mut self, min: usize, max: usize)
        requires
            old(self).wf(),
            max <= 52,
            min <= max,
            max > 0,
        ensures
            final(self).wf(),
            final(self).picked() == old(self).picked(),
            forall|c: Card| final(self).is_disabled(c) == old(self).is_disabled(c),
            final(self).min_cards() == min,
            final(self).max_cards() == max,
    {
        self.min = min;
        self.max = max;
    }

    /// Disables the given cards; picked cards among them are unpicked.
    pub fn set_disabled(&mut self, disabled: Cards)
        requires
            old(self).wf(),
        ensures
            final(self).wf(),
            final(self).picked() == old(self).picked().filter(|c: Card| !disabled.contains(c)),
            forall|c: Card| final(self).is_disabled(c) == disabled.contains(c),
            final(self).min_cards() == old(self).min_cards(),
            final(self).max_cards() == old(self).max_cards(),
    {
        let ghost keep = |c: Card| !disabled.contains(c);
        let mut order: Vec<Card> = Vec::new();
        let mut cards = Cards::empty();
        let mut i: usize = 0;
        while i < self.in_order.len()
            invariant
                i <= self.in_order@.len(),
                self.in_order@.no_duplicates(),
                keep == (|c: Card| !disabled.contains(c)),
                order@ == self.in_order@.subrange(0, i as int).filter(keep),
                order@.no_duplicates(),
                forall|c: Card| cards.contains(c) <==> order@.contains(c),
                forall|c: Card| order@.contains(c) ==> !disabled.contains(c) && self.in_order@.subrange(0, i as int).contains(c),
            decreases self.in_order@.len() - i,
        {
            let c = self.in_order[i];
            let ghost before = order@;
            proof {
                assert(self.in_order@.subrange(0, i + 1) =~= self.in_order@.subrange(0, i as int).push(c));
                self.in_order@.subrange(0, i as int).lemma_filter_push(c, keep);
            }
            if !disabled.has(c) {
                order.push(c);
                cards.add(c);
                proof {
                    assert(!before.contains(c)) by {
                        if before.contains(c) {
                            let j = choose|j: int| 0 <= j < i && self.in_order@.subrange(0, i as int)[j] == c;
                            assert(self.in_order@[j] == self.in_order@[i as int]);
                        }
                    }
                    assert forall|x: Card| order@.contains(x) <==> (before.contains(x) || x == c) by {
                        if order@.contains(x) && x != c {
                            let j = choose|j: int| 0 <= j < order@.len() && order@[j] == x;
                            assert(before[j] == x);
                        }
                        if before.contains(x) {
                            let j = choose|j: int| 0 <= j < before.len() && before[j] == x;
                            assert(order@[j] == x);
                        }
                        if x == c {
                            assert(order@[before.len() as int] == c);
                        }
                    }
                }
            }
            proof {
                assert forall|x: Card| order@.contains(x) implies !disabled.contains(x) && self.in_order@.subrange(
                    0,
                    i + 1,
                ).contains(x) by {
                    if x != c || before.contains(x) {
                        if before.contains(x) {
                            let j = choose|j: int| 0 <= j < i && self.in_order@.subrange(0, i as int)[j] == x;
                            assert(self.in_order@.subrange(0, i + 1)[j] == x);
                        }
                    } else {
                        assert(self.in_order@.subrange(0, i + 1)[i as int] == c);
                    }
                }
            }
            i = i + 1;
        }
        proof {
            assert(self.in_order@.subrange(0, self.in_order@.len() as int) =~= self.in_order@);
        }
        self.in_order = order;
        self.cards = cards;
        self.disabled = disabled;
    }

    /// What a click on a card does: a disabled card stays as it is, a picked
    /// card is unpicked, another one is picked last.
    pub fn click(&mut self, card: Card)
        requires
            old(self).wf(),
        ensures
            final(self).wf(),
            final(self).picked() == if old(self).is_disabled(card) {
                old(self).picked()
            } else if old(self).picked().contains(card) {
                old(self).picked().filter(|c: Card| c != card)
            } else {
                old(self).picked().push(card)
            },
            forall|c: Card| final(self).is_disabled(c) == old(self).is_disabled(c),
            final(self).min_cards() == old(self).min_cards(),
            final(self).max_cards() == old(self).max_cards(),
    {
        if self.disabled.has(card) {
            return;
        }
        if self.cards.has(card) {
            self.remove_card(card);
        } else {
            let ghost before = self.in_order@;
            self.cards.add(card);
            self.in_order.push(card);
            proof {
                assert forall|x: Card| self.in_order@.contains(x) <==> (before.contains(x) || x == card) by {
                    if self.in_order@.contains(x) && x != card {
                        let j = choose|j: int| 0 <= j < self.in_order@.len() && self.in_order@[j] == x;
                        assert(before[j] == x);
                    }
                    if before.contains(x) {
                        let j = choose|j: int| 0 <= j < before.len() && before[j] == x;
                        assert(self.in_order@[j] == x);
                    }
                    if x == card {
                        assert(self.in_order@[before.len() as int] == card);
                    }
                }
            }
        }
    }

    /// Unpicks a picked card.
    fn remove_card(&mut self, card: Card)
        requires
            old(self).wf(),
        ensures
            final(self).wf(),
            final(self).picked() == old(self).picked().filter(|c: Card| c != card),
            final(self).disabled == old(self).disabled,
            final(self).min == old(self).min,
            final(self).max == old(self).max,
    {
        let ghost keep = |c: Card| c != card;
        let mut order: Vec<Card> = Vec::new();
        let mut i: usize = 0;
        while i < self.in_order.len()
            invariant
                i <= self.in_order@.len(),
                self.in_order@.no_duplicates(),
                keep == (|c: Card| c != card),
                order@ == self.in_order@.subrange(0, i as int).filter(keep),
                order@.no_duplicates(),
                forall|c: Card| order@.contains(c) <==> (c != card && self.in_order@.subrange(0, i as int).contains(c)),
            decreases self.in_order@.len() - i,
        {
            let c = self.in_order[i];
            let ghost before = order@;
            proof {
                assert(self.in_order@.subrange(0, i + 1) =~= self.in_order@.subrange(0, i as int).push(c));
                self.in_order@.subrange(0, i as int).lemma_filter_push(c, keep);
            }
            if c != card {
                order.push(c);
                proof {
                    assert(!before.contains(c)) by {
                        if before.contains(c) {
                            let j = choose|j: int| 0 <= j < i && self.in_order@.subrange(0, i as int)[j] == c;
                            assert(self.in_order@[j] == self.in_order@[i as int]);
                        }
                    }
                }
            }
            proof {
                assert forall|x: Card| order@.contains(x) <==> (x != card && self.in_order@.subrange(0, i + 1).contains(
                    x,
                )) by {
                    if order@.contains(x) {
                        let j = choose|j: int| 0 <= j < order@.len() && order@[j] == x;
                        if j < before.len() {
                            assert(before[j] == x);
                            assert(before.contains(x));
                            assert(self.in_order@.subrange(0, i as int).contains(x));
                            let k = choose|k: int| 0 <= k < i && self.in_order@.subrange(0, i as int)[k] == x;
                            assert(self.in_order@.subrange(0, i + 1)[k] == x);
                        } else {
                            assert(self.in_order@.subrange(0, i + 1)[i as int] == x);
                        }
                    }
                    if x != card && self.in_order@.subrange(0, i + 1).contains(x) {
                        let k = choose|k: int| 0 <= k < i + 1 && #[trigger] self.in_order@.subrange(0, i + 1)[k] == x;
                        if k < i {
                            assert(self.in_order@.subrange(0, i as int)[k] == x);
                            assert(before.contains(x));
                            let j = choose|j: int| 0 <= j < before.len() && before[j] == x;
                            assert(order@[j] == x);
                        } else {
                            assert(order@[before.len() as int] == x);
                        }
                    }
                }
            }
            i = i + 1;
        }
        proof {
            assert(self.in_order@.subrange(0, self.in_order@.len() as int) =~= self.in_order@);
        }
        self.in_order = order;
        self.cards.remove(card);
    }

    /// Whether the number of picked cards lies between the minimum and the maximum.
    pub fn can_apply(&self) -> (r: bool)
        requires
            self.wf(),
        ensures
            r == (self.min_cards() <= self.picked().len() <= self.max_cards()),
    {
        let n = self.in_order.len();
        n >= self.min && n <= self.max
    }
}

} // verus!
