use vstd::prelude::*;
use std::cmp::Ordering;

use crate::card::{card_of_index, card_seq_from_bytes, has_duplicate, spec_card_seq_from_bytes, Card, CardError, Cards, Rank, Suite};

verus! {

/// Number of two-card starting hands.
pub const HAND_COUNT: usize = 1326;

/// Index of the first hand whose lower card has index `l`, when hands are
/// enumerated by lower card, then higher card.
pub open spec fn hand_block_start(l: int) -> int
    decreases l,
{
    if l <= 0 {
        0
    } else {
        hand_block_start(l - 1) + (52 - l)
    }
}

/// Position of the hand with lower card index `l` and higher card index `h`.
pub open spec fn hand_index_of(l: int, h: int) -> int {
    hand_block_start(l) + (h - l - 1)
}

proof fn lemma_block_start_closed(l: int)
    requires
        0 <= l,
    ensures
        2 * hand_block_start(l) == l * (103 - l),
    decreases l,
{
    if l > 0 {
        lemma_block_start_closed(l - 1);
        assert((l - 1) * (103 - (l - 1)) + 2 * (52 - l) == l * (103 - l)) by (nonlinear_arith);
        assert(hand_block_start(l) == hand_block_start(l - 1) + (52 - l));
    } else {
        assert(l * (103 - l) == 0) by (nonlinear_arith)
            requires
                l == 0,
        ;
    }
}

proof fn lemma_block_start_mono(a: int, b: int)
    requires
        0 <= a <= b <= 52,
    ensures
        hand_block_start(a) + (b - a) * 0 <= hand_block_start(b),
        a < b ==> hand_block_start(a) + (51 - a) <= hand_block_start(b),
    decreases b - a,
{
    if a < b {
        lemma_block_start_mono(a, b - 1);
    }
}

proof fn lemma_block_start_52()
    ensures
        hand_block_start(51) == 1326,
        hand_block_start(52) == 1326,
{
    lemma_block_start_closed(51);
    lemma_block_start_closed(52);
}

/// Hand positions are distinct for distinct pairs and lie below the hand count.
proof fn lemma_hand_index_range(l: int, h: int)
    requires
        0 <= l < h < 52,
    ensures
        hand_block_start(l) <= hand_index_of(l, h) < hand_block_start(l + 1),
        0 <= hand_index_of(l, h) < 1326,
{
    lemma_block_start_52();
    lemma_block_start_mono(l + 1, 52);
    lemma_block_start_mono(0, l);
}

/// A two-card starting hand; the first card is the higher one by index.
#[derive(Clone, Copy, Debug, PartialEq, Eq, Structural, Hash)]
pub struct Hand(pub Card, pub Card);

/// The starting hand at `index`, in the enumeration order of `Hand::all`.
pub open spec fn hand_of_index(index: int) -> Hand {
    let l = choose|l: int| 0 <= l < 52 && #[trigger] hand_block_start(l) <= index < hand_block_start(l + 1);
    let h = index - hand_block_start(l) + l + 1;
    Hand(card_of_index(h), card_of_index(l))
}

impl Hand {
    /// Hand invariant: the higher card comes first.
    pub open spec fn wf(self) -> bool {
        self.0.index() > self.1.index()
    }

    /// Position of the hand in the enumeration of all hands.
    pub open spec fn index(self) -> int {
        hand_index_of(self.1.index(), self.0.index())
    }

    /// The lowest hand by rank: three and two of diamonds.
    pub fn min() -> (h: Hand)
        ensures
            h.wf(),
    {
        Hand(Card::of(Rank::Three, Suite::Diamonds), Card::of(Rank::Two, Suite::Diamonds))
    }

    /// The hand holding both cards, or `None` when they are the same card.
    pub fn of_two_cards(a: Card, b: Card) -> (h: Option<Hand>)
        ensures
            h is None <==> a == b,
            h matches Some(hand) ==> hand.wf() && (hand.0 == a || hand.0 == b) && (hand.1 == a
                || hand.1 == b),
    {
        let ai = a.to_index_52_by_rank();
        let bi = b.to_index_52_by_rank();
        proof {
            Card::lemma_index_injective(a, b);
        }
        if ai < bi {
            Some(Hand(b, a))
        } else if ai == bi {
            None
        } else {
            Some(Hand(a, b))
        }
    }

    pub fn high(self) -> (c: Card)
        ensures
            c == self.0,
    {
        self.0
    }

    pub fn low(self) -> (c: Card)
        ensures
            c == self.1,
    {
        self.1
    }

    /// Whether both cards have the same suite.
    pub fn suited(self) -> (r: bool)
        ensures
            r == (self.0.suite == self.1.suite),
    {
        self.0.suite == self.1.suite
    }

    pub fn to_card_array(self) -> (a: [Card; 2])
        ensures
            a@ == seq![self.0, self.1],
    {
        let a = [self.0, self.1];
        proof {
            assert(a@ =~= seq![self.0, self.1]);
        }
        a
    }

    pub fn to_cards(self) -> (s: Cards)
        ensures
            forall|c: Card| s.contains(c) <==> (c == self.0 || c == self.1),
    {
        Cards::empty().with(self.0).with(self.1)
    }

    /// Position of the hand in the enumeration of all hands.
    pub fn to_index(self) -> (i: usize)
        requires
            self.wf(),
        ensures
            i == self.index(),
            i < HAND_COUNT,
    {
        let low = self.1.to_index_52_by_rank();
        let high = self.0.to_index_52_by_rank();
        proof {
            lemma_block_start_closed(low as int);
            lemma_hand_index_range(low as int, high as int);
            assert(low * (103 - low) <= 52 * 103) by (nonlinear_arith)
                requires
                    low < 52,
            ;
        }
        let low_index = low * (103 - low) / 2;
        low_index + (high - low - 1)
    }

    /// The hand at `index` in the enumeration of all hands.
    pub fn from_index(index: usize) -> (h: Hand)
        requires
            index < HAND_COUNT,
        ensures
            h.wf(),
            h.index() == index,
            h == hand_of_index(index as int),
    {
        let mut l: usize = 0;
        let mut start: usize = 0;
        proof {
            lemma_block_start_52();
        }
        while start + (51 - l) <= index
            invariant
                l < 52,
                start == hand_block_start(l as int),
                start <= index < 1326,
                hand_block_start(52) == 1326,
            decreases 52 - l,
        {
            proof {
                if l + 1 >= 52 {
                    assert(hand_block_start(l + 1) == start + (51 - l));
                    lemma_block_start_mono((l + 1) as int, 52);
                }
            }
            start = start + (51 - l);
            l = l + 1;
        }
        let h = index - start + l + 1;
        proof {
            assert(hand_block_start(l + 1) == start + (51 - l));
            lemma_hand_index_range(l as int, h as int);
            let l2 = choose|l2: int|
                0 <= l2 < 52 && #[trigger] hand_block_start(l2) <= index < hand_block_start(l2 + 1);
            if l2 < l {
                lemma_block_start_mono(l2 + 1, l as int);
            } else if l2 > l {
                lemma_block_start_mono(l + 1, l2);
            }
            Card::lemma_of_index(h as int);
            Card::lemma_of_index(l as int);
        }
        Hand(Card::from_index_52_by_rank(h), Card::from_index_52_by_rank(l))
    }

    /// All hands, in index order.
    pub fn all() -> (v: Vec<Hand>)
        ensures
            v@.len() == HAND_COUNT,
            forall|i: int| 0 <= i < HAND_COUNT ==> v@[i] == hand_of_index(i) && (#[trigger] v@[i]).index() == i,
    {
        let mut v: Vec<Hand> = Vec::new();
        let mut i: usize = 0;
        while i < HAND_COUNT
            invariant
                i <= HAND_COUNT,
                v@.len() == i,
                forall|k: int| 0 <= k < i ==> v@[k] == hand_of_index(k) && (#[trigger] v@[k]).index() == k,
            decreases HAND_COUNT - i,
        {
            v.push(Hand::from_index(i));
            i = i + 1;
        }
        v
    }

    /// The hand made of the two cards of `cards`.
    pub fn from_cards(cards: Cards) -> (res: Result<Hand, CardError>)
        ensures
            res is Ok <==> cards.view_set().len() == 2,
            res is Err ==> res == Err::<Hand, CardError>(CardError::WrongCardCount),
            res matches Ok(h) ==> h.wf() && forall|c: Card| cards.contains(c) <==> (c == h.0 || c == h.1),
    {
        let v = cards.iter();
        proof {
            assert(v@.no_duplicates()) by {
                assert forall|k: int, l: int| 0 <= k < v@.len() && 0 <= l < v@.len() && k != l implies v@[k] != v@[l] by {
                    if k < l {
                        assert(v@[k].index() < v@[l].index());
                    } else {
                        assert(v@[l].index() < v@[k].index());
                    }
                }
            }
            v@.unique_seq_to_set();
            assert(cards.view_set() =~= v@.to_set());
        }
        if v.len() != 2 {
            return Err(CardError::WrongCardCount);
        }
        let h = Hand(v[1], v[0]);
        proof {
            assert forall|c: Card| cards.contains(c) <==> (c == h.0 || c == h.1) by {
                if cards.contains(c) {
                    let k = choose|k: int| 0 <= k < v@.len() && v@[k] == c;
                }
                if c == h.0 {
                    assert(v@.contains(v@[1]));
                }
                if c == h.1 {
                    assert(v@.contains(v@[0]));
                }
            }
        }
        Ok(h)
    }

    /// Reads a hand written as two cards, such as `AsKd`.
    pub fn from_bytes(b: &[u8]) -> (res: Result<Hand, CardError>)
        ensures
            match spec_card_seq_from_bytes(b@) {
                Err(e) => res == Err::<Hand, CardError>(e),
                Ok(cs) => if has_duplicate(cs) {
                    res == Err::<Hand, CardError>(CardError::DuplicateCard)
                } else if cs.len() != 2 {
                    res == Err::<Hand, CardError>(CardError::WrongCardCount)
                } else {
                    res matches Ok(h) && h.wf() && ((h.0 == cs[0] && h.1 == cs[1]) || (h.0 == cs[1]
                        && h.1 == cs[0]))
                },
            },
    {
        let cards = match Cards::from_bytes(b) {
            Ok(c) => c,
            Err(e) => return Err(e),
        };
        proof {
            if let Ok(cs) = spec_card_seq_from_bytes(b@) {
                if !has_duplicate(cs) {
                    assert(cs.no_duplicates());
                    cs.unique_seq_to_set();
                    assert(cards.view_set() =~= cs.to_set());
                }
            }
        }
        let res = Hand::from_cards(cards);
        proof {
            if let Ok(h) = res {
                let cs = spec_card_seq_from_bytes(b@)->Ok_0;
                assert(cards.contains(cs[0]));
                assert(cards.contains(cs[1]));
            }
        }
        res
    }

    /// The hand order by rank: higher ranks first compared, then lower ranks,
    /// then the higher card's suite, then the lower card's suite.
    pub open spec fn rank_order(self, other: Hand) -> int {
        let a = seq![self.0.rank.index(), self.1.rank.index(), self.0.suite.index(), self.1.suite.index()];
        let b = seq![other.0.rank.index(), other.1.rank.index(), other.0.suite.index(), other.1.suite.index()];
        if a[0] != b[0] {
            if a[0] < b[0] { -1 } else { 1 }
        } else if a[1] != b[1] {
            if a[1] < b[1] { -1 } else { 1 }
        } else if a[2] != b[2] {
            if a[2] < b[2] { -1 } else { 1 }
        } else if a[3] != b[3] {
            if a[3] < b[3] { -1 } else { 1 }
        } else {
            0
        }
    }

    /// Compares two hands by rank, as `rank_order` describes.
    pub fn cmp_by_rank(self, other: Hand) -> (r: Ordering)
        ensures
            (r == Ordering::Less) == (self.rank_order(other) < 0),
            (r == Ordering::Equal) == (self.rank_order(other) == 0),
            (r == Ordering::Greater) == (self.rank_order(other) > 0),
    {
        let a0 = self.0.rank.to_usize();
        let b0 = other.0.rank.to_usize();
        let a1 = self.1.rank.to_usize();
        let b1 = other.1.rank.to_usize();
        let a2 = self.0.suite.to_usize();
        let b2 = other.0.suite.to_usize();
        let a3 = self.1.suite.to_usize();
        let b3 = other.1.suite.to_usize();
        if a0 != b0 {
            if a0 < b0 { Ordering::Less } else { Ordering::Greater }
        } else if a1 != b1 {
            if a1 < b1 { Ordering::Less } else { Ordering::Greater }
        } else if a2 != b2 {
            if a2 < b2 { Ordering::Less } else { Ordering::Greater }
        } else if a3 != b3 {
            if a3 < b3 { Ordering::Less } else { Ordering::Greater }
        } else {
            Ordering::Equal
        }
    }
}

/// Positions and hands correspond one to one: reading the hand at a
/// position and taking its position gives the position back, and the other way round.
pub proof fn law_hand_index_bijection(h: Hand, i: int)
    requires
        h.wf(),
        0 <= i < 1326,
    ensures
        0 <= h.index() < 1326,
        hand_of_index(h.index()) == h,
        hand_of_index(i).wf(),
        hand_of_index(i).index() == i,
{
    let l = h.1.index();
    let hi = h.0.index();
    h.0.lemma_index();
    h.1.lemma_index();
    lemma_hand_index_range(l, hi);
    let idx = h.index();
    let l2 = choose|l2: int| 0 <= l2 < 52 && #[trigger] hand_block_start(l2) <= idx < hand_block_start(l2 + 1);
    if l2 < l {
        lemma_block_start_mono(l2 + 1, l);
    } else if l2 > l {
        lemma_block_start_mono(l + 1, l2);
    }
    assert(l2 == l);
    lemma_hand_of_index_wf(i);
}

pub(crate) proof fn lemma_hand_of_index_wf(i: int)
    requires
        0 <= i < 1326,
    ensures
        hand_of_index(i).wf(),
        hand_of_index(i).index() == i,
{
    lemma_block_start_52();
    assert(exists|l: int| 0 <= l < 52 && #[trigger] hand_block_start(l) <= i < hand_block_start(l + 1)) by {
        lemma_exists_block(i, 0);
    }
    let l = choose|l: int| 0 <= l < 52 && #[trigger] hand_block_start(l) <= i < hand_block_start(l + 1);
    let h = i - hand_block_start(l) + l + 1;
    assert(hand_block_start(l + 1) == hand_block_start(l) + (51 - l));
    Card::lemma_of_index(h);
    Card::lemma_of_index(l);
}

proof fn lemma_exists_block(i: int, l: int)
    requires
        0 <= l < 52,
        hand_block_start(l) <= i < 1326,
        hand_block_start(52) == 1326,
    ensures
        exists|l2: int| 0 <= l2 < 52 && #[trigger] hand_block_start(l2) <= i < hand_block_start(l2 + 1),
    decreases 52 - l,
{
    if i < hand_block_start(l + 1) {
    } else {
        if l + 1 == 52 {
        } else {
            lemma_exists_block(i, l + 1);
        }
    }
}

} // verus!
