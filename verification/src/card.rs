use vstd::prelude::*;
use vstd::string::StringExecFns;
use std::cmp::Ordering;

verus! {

/// Why a card, a set of cards or a hand could not be read.
#[derive(Clone, Copy, Debug, PartialEq, Eq, Structural)]
pub enum CardError {
    /// A byte is not one of `23456789TJQKA`.
    InvalidRank,
    /// A byte is not one of `dchs`.
    InvalidSuite,
    /// The text does not have the expected length.
    InvalidLength,
    /// The same card occurs twice.
    DuplicateCard,
    /// A hand needs exactly two cards.
    WrongCardCount,
}

/// The rank of a card, from two up to ace.
#[derive(Clone, Copy, Debug, PartialEq, Eq, Structural, Hash)]
pub enum Rank {
    Two,
    Three,
    Four,
    Five,
    Six,
    Seven,
    Eight,
    Nine,
    Ten,
    Jack,
    Queen,
    King,
    Ace,
}

/// The rank with index `i` (two is 0, ace is 12).
pub open spec fn rank_of_index(i: int) -> Rank {
    if i <= 0 {
        Rank::Two
    } else if i == 1 {
        Rank::Three
    } else if i == 2 {
        Rank::Four
    } else if i == 3 {
        Rank::Five
    } else if i == 4 {
        Rank::Six
    } else if i == 5 {
        Rank::Seven
    } else if i == 6 {
        Rank::Eight
    } else if i == 7 {
        Rank::Nine
    } else if i == 8 {
        Rank::Ten
    } else if i == 9 {
        Rank::Jack
    } else if i == 10 {
        Rank::Queen
    } else if i == 11 {
        Rank::King
    } else {
        Rank::Ace
    }
}

/// The rank named by a character, if any.
pub open spec fn spec_rank_from_ascii(b: u8) -> Option<Rank> {
    if b == 50u8 {
        Some(Rank::Two)
    } else if b == 51u8 {
        Some(Rank::Three)
    } else if b == 52u8 {
        Some(Rank::Four)
    } else if b == 53u8 {
        Some(Rank::Five)
    } else if b == 54u8 {
        Some(Rank::Six)
    } else if b == 55u8 {
        Some(Rank::Seven)
    } else if b == 56u8 {
        Some(Rank::Eight)
    } else if b == 57u8 {
        Some(Rank::Nine)
    } else if b == 84u8 {
        Some(Rank::Ten)
    } else if b == 74u8 {
        Some(Rank::Jack)
    } else if b == 81u8 {
        Some(Rank::Queen)
    } else if b == 75u8 {
        Some(Rank::King)
    } else if b == 65u8 {
        Some(Rank::Ace)
    } else {
        None
    }
}

/// The suite named by a character, if any.
pub open spec fn spec_suite_from_ascii(b: u8) -> Option<Suite> {
    if b == 100u8 {
        Some(Suite::Diamonds)
    } else if b == 99u8 {
        Some(Suite::Clubs)
    } else if b == 104u8 {
        Some(Suite::Hearts)
    } else if b == 115u8 {
        Some(Suite::Spades)
    } else {
        None
    }
}

/// The card named by a rank character and a suite character.
pub open spec fn spec_card_from_ascii(r: u8, s: u8) -> Result<Card, CardError> {
    match spec_rank_from_ascii(r) {
        None => Err(CardError::InvalidRank),
        Some(rank) => match spec_suite_from_ascii(s) {
            None => Err(CardError::InvalidSuite),
            Some(suite) => Ok(Card { rank, suite }),
        },
    }
}

impl Rank {
    pub const COUNT: usize = 13;

    /// Position of the rank, two is 0 and ace is 12.
    pub open spec fn index(self) -> int {
        match self {
            Rank::Two => 0,
            Rank::Three => 1,
            Rank::Four => 2,
            Rank::Five => 3,
            Rank::Six => 4,
            Rank::Seven => 5,
            Rank::Eight => 6,
            Rank::Nine => 7,
            Rank::Ten => 8,
            Rank::Jack => 9,
            Rank::Queen => 10,
            Rank::King => 11,
            Rank::Ace => 12,
        }
    }

    /// The character that names the rank.
    pub open spec fn ascii(self) -> u8 {
        match self {
            Rank::Two => 50u8,
            Rank::Three => 51u8,
            Rank::Four => 52u8,
            Rank::Five => 53u8,
            Rank::Six => 54u8,
            Rank::Seven => 55u8,
            Rank::Eight => 56u8,
            Rank::Nine => 57u8,
            Rank::Ten => 84u8,
            Rank::Jack => 74u8,
            Rank::Queen => 81u8,
            Rank::King => 75u8,
            Rank::Ace => 65u8,
        }
    }

    pub proof fn lemma_index_roundtrip(self)
        ensures
            0 <= self.index() < 13,
            rank_of_index(self.index()) == self,
    {
    }

    pub proof fn lemma_index_injective(a: Rank, b: Rank)
        ensures
            (a.index() == b.index()) == (a == b),
    {
    }

    pub fn to_usize(self) -> (r: usize)
        ensures
            r == self.index(),
    {
        match self {
            Rank::Two => 0,
            Rank::Three => 1,
            Rank::Four => 2,
            Rank::Five => 3,
            Rank::Six => 4,
            Rank::Seven => 5,
            Rank::Eight => 6,
            Rank::Nine => 7,
            Rank::Ten => 8,
            Rank::Jack => 9,
            Rank::Queen => 10,
            Rank::King => 11,
            Rank::Ace => 12,
        }
    }

    pub fn from_usize(i: usize) -> (r: Rank)
        requires
            i < 13,
        ensures
            r.index() == i,
            r == rank_of_index(i as int),
    {
        match i {
            0 => Rank::Two,
            1 => Rank::Three,
            2 => Rank::Four,
            3 => Rank::Five,
            4 => Rank::Six,
            5 => Rank::Seven,
            6 => Rank::Eight,
            7 => Rank::Nine,
            8 => Rank::Ten,
            9 => Rank::Jack,
            10 => Rank::Queen,
            11 => Rank::King,
            _ => Rank::Ace,
        }
    }

    /// Reads a rank from its character.
    pub fn from_ascii(b: u8) -> (r: Result<Rank, CardError>)
        ensures
            r == match spec_rank_from_ascii(b) {
                Some(rank) => Ok(rank),
                None => Err(CardError::InvalidRank),
            },
            r matches Ok(rank) ==> rank.ascii() == b,
            (exists|rank: Rank| rank.ascii() == b) ==> r is Ok,
    {
        if b == 50u8 {
            Ok(Rank::Two)
        } else if b == 51u8 {
            Ok(Rank::Three)
        } else if b == 52u8 {
            Ok(Rank::Four)
        } else if b == 53u8 {
            Ok(Rank::Five)
        } else if b == 54u8 {
            Ok(Rank::Six)
        } else if b == 55u8 {
            Ok(Rank::Seven)
        } else if b == 56u8 {
            Ok(Rank::Eight)
        } else if b == 57u8 {
            Ok(Rank::Nine)
        } else if b == 84u8 {
            Ok(Rank::Ten)
        } else if b == 74u8 {
            Ok(Rank::Jack)
        } else if b == 81u8 {
            Ok(Rank::Queen)
        } else if b == 75u8 {
            Ok(Rank::King)
        } else if b == 65u8 {
            Ok(Rank::Ace)
        } else {
            Err(CardError::InvalidRank)
        }
    }

    /// The character that names the rank.
    pub fn to_ascii(self) -> (b: u8)
        ensures
            b == self.ascii(),
    {
        match self {
            Rank::Two => 50u8,
            Rank::Three => 51u8,
            Rank::Four => 52u8,
            Rank::Five => 53u8,
            Rank::Six => 54u8,
            Rank::Seven => 55u8,
            Rank::Eight => 56u8,
            Rank::Nine => 57u8,
            Rank::Ten => 84u8,
            Rank::Jack => 74u8,
            Rank::Queen => 81u8,
            Rank::King => 75u8,
            Rank::Ace => 65u8,
        }
    }

    /// The next lower rank, if any.
    pub fn predecessor(self) -> (r: Option<Rank>)
        ensures
            self.index() == 0 ==> r is None,
            self.index() > 0 ==> r == Some(rank_of_index(self.index() - 1)),
    {
        let i = self.to_usize();
        if i == 0 {
            None
        } else {
            Some(Rank::from_usize(i - 1))
        }
    }
}

/// The suite of a card.
#[derive(Clone, Copy, Debug, PartialEq, Eq, Structural, Hash)]
pub enum Suite {
    Diamonds,
    Clubs,
    Hearts,
    Spades,
}

/// The suite with index `i`.
pub open spec fn suite_of_index(i: int) -> Suite {
    if i <= 0 {
        Suite::Diamonds
    } else if i == 1 {
        Suite::Clubs
    } else if i == 2 {
        Suite::Hearts
    } else {
        Suite::Spades
    }
}

impl Suite {
    pub const COUNT: usize = 4;

    pub open spec fn index(self) -> int {
        match self {
            Suite::Diamonds => 0,
            Suite::Clubs => 1,
            Suite::Hearts => 2,
            Suite::Spades => 3,
        }
    }

    pub open spec fn ascii(self) -> u8 {
        match self {
            Suite::Diamonds => 100u8,
            Suite::Clubs => 99u8,
            Suite::Hearts => 104u8,
            Suite::Spades => 115u8,
        }
    }

    pub fn to_usize(self) -> (r: usize)
        ensures
            r == self.index(),
    {
        match self {
            Suite::Diamonds => 0,
            Suite::Clubs => 1,
            Suite::Hearts => 2,
            Suite::Spades => 3,
        }
    }

    pub fn from_usize(i: usize) -> (r: Suite)
        requires
            i < 4,
        ensures
            r.index() == i,
            r == suite_of_index(i as int),
    {
        match i {
            0 => Suite::Diamonds,
            1 => Suite::Clubs,
            2 => Suite::Hearts,
            _ => Suite::Spades,
        }
    }

    /// Reads a suite from its character.
    pub fn from_ascii(b: u8) -> (r: Result<Suite, CardError>)
        ensures
            r == match spec_suite_from_ascii(b) {
                Some(s) => Ok(s),
                None => Err(CardError::InvalidSuite),
            },
            r matches Ok(s) ==> s.ascii() == b,
            (exists|s: Suite| s.ascii() == b) ==> r is Ok,
    {
        if b == 100u8 {
            Ok(Suite::Diamonds)
        } else if b == 99u8 {
            Ok(Suite::Clubs)
        } else if b == 104u8 {
            Ok(Suite::Hearts)
        } else if b == 115u8 {
            Ok(Suite::Spades)
        } else {
            Err(CardError::InvalidSuite)
        }
    }

    pub fn to_ascii(self) -> (b: u8)
        ensures
            b == self.ascii(),
    {
        match self {
            Suite::Diamonds => 100u8,
            Suite::Clubs => 99u8,
            Suite::Hearts => 104u8,
            Suite::Spades => 115u8,
        }
    }
}

/// A playing card.
#[derive(Clone, Copy, Debug, PartialEq, Eq, Structural, Hash)]
pub struct Card {
    pub rank: Rank,
    pub suite: Suite,
}

/// The card at position `i` when the deck is sorted by rank, then suite.
pub open spec fn card_of_index(i: int) -> Card {
    Card { rank: rank_of_index(i / 4), suite: suite_of_index(i % 4) }
}

impl Card {
    pub const COUNT: usize = 52;

    /// Position of the card when the deck is sorted by rank, then suite.
    pub open spec fn index(self) -> int {
        self.rank.index() * 4 + self.suite.index()
    }

    pub proof fn lemma_index(self)
        ensures
            0 <= self.index() < 52,
            card_of_index(self.index()) == self,
    {
    }

    pub proof fn lemma_index_injective(a: Card, b: Card)
        ensures
            (a.index() == b.index()) == (a == b),
    {
        a.lemma_index();
        b.lemma_index();
    }

    pub proof fn lemma_of_index(i: int)
        requires
            0 <= i < 52,
        ensures
            card_of_index(i).index() == i,
    {
    }

    /// All 52 cards, by rank, then by suite.
    pub fn all_by_rank() -> (v: Vec<Card>)
        ensures
            v@.len() == 52,
            forall|i: int| 0 <= i < 52 ==> (#[trigger] v@[i]).index() == i,
    {
        let mut v: Vec<Card> = Vec::new();
        let mut i: usize = 0;
        while i < 52
            invariant
                i <= 52,
                v@.len() == i,
                forall|k: int| 0 <= k < i ==> (#[trigger] v@[k]).index() == k,
            decreases 52 - i,
        {
            v.push(Card::from_index_52_by_rank(i));
            i = i + 1;
        }
        v
    }

    /// Compares by rank, then by suite.
    pub fn cmp_by_rank(self, other: Card) -> (r: Ordering)
        ensures
            (r == Ordering::Less) == (self.spec_cmp_by_rank(other) < 0),
            (r == Ordering::Equal) == (self.spec_cmp_by_rank(other) == 0),
            (r == Ordering::Greater) == (self.spec_cmp_by_rank(other) > 0),
    {
        let a = self.to_index_52_by_rank();
        let b = other.to_index_52_by_rank();
        if a < b {
            Ordering::Less
        } else if a == b {
            Ordering::Equal
        } else {
            Ordering::Greater
        }
    }

    /// The lowest card, the two of diamonds.
    pub fn min() -> (c: Card)
        ensures
            c.index() == 0,
    {
        Card { rank: Rank::Two, suite: Suite::Diamonds }
    }

    pub fn of(rank: Rank, suite: Suite) -> (c: Card)
        ensures
            c.rank == rank,
            c.suite == suite,
    {
        Card { rank, suite }
    }

    pub fn rank(self) -> (r: Rank)
        ensures
            r == self.rank,
    {
        self.rank
    }

    pub fn suite(self) -> (s: Suite)
        ensures
            s == self.suite,
    {
        self.suite
    }

    pub fn to_index_52_by_rank(self) -> (i: usize)
        ensures
            i == self.index(),
            i < 52,
    {
        self.rank.to_usize() * 4 + self.suite.to_usize()
    }

    pub fn from_index_52_by_rank(i: usize) -> (c: Card)
        requires
            i < 52,
        ensures
            c == card_of_index(i as int),
            c.index() == i,
    {
        Card { rank: Rank::from_usize(i / 4), suite: Suite::from_usize(i % 4) }
    }

    /// Reads a card from its rank and suite characters, such as `As`.
    pub fn from_ascii_pair(r: u8, s: u8) -> (res: Result<Card, CardError>)
        ensures
            res == spec_card_from_ascii(r, s),
    {
        let rank = match Rank::from_ascii(r) {
            Ok(rank) => rank,
            Err(e) => return Err(e),
        };
        let suite = match Suite::from_ascii(s) {
            Ok(suite) => suite,
            Err(e) => return Err(e),
        };
        Ok(Card { rank, suite })
    }

    /// Reads a card from exactly two bytes, such as `As`.
    pub fn from_bytes(b: &[u8]) -> (res: Result<Card, CardError>)
        ensures
            b@.len() != 2 ==> res == Err::<Card, CardError>(CardError::InvalidLength),
            b@.len() == 2 ==> res == spec_card_from_ascii(b@[0], b@[1]),
    {
        if b.len() != 2 {
            return Err(CardError::InvalidLength);
        }
        Card::from_ascii_pair(b[0], b[1])
    }

    /// The characters of a card read back as that card.
    pub proof fn lemma_ascii_roundtrip(self)
        ensures
            spec_card_from_ascii(self.rank.ascii(), self.suite.ascii()) == Ok::<Card, CardError>(self),
    {
    }

    /// The two characters that name the card.
    pub fn to_ascii_pair(self) -> (r: (u8, u8))
        ensures
            r == (self.rank.ascii(), self.suite.ascii()),
    {
        (self.rank.to_ascii(), self.suite.to_ascii())
    }

    /// Compares by rank, then by suite index; `-1`, `0` or `1`.
    pub open spec fn spec_cmp_by_rank(self, other: Card) -> int {
        if self.index() < other.index() {
            -1
        } else if self.index() == other.index() {
            0
        } else {
            1
        }
    }
}

proof fn lemma_u64_bit_or(x: u64, k: u64, j: u64)
    by (bit_vector)
    requires
        k < 64,
        j < 64,
    ensures
        (((x | (1u64 << k)) >> j) & 1u64 == 1u64) == ((((x >> j) & 1u64) == 1u64) || j == k),
{
}

proof fn lemma_u64_bit_and(x: u64, y: u64, j: u64)
    by (bit_vector)
    requires
        j < 64,
    ensures
        (((x & y) >> j) & 1u64 == 1u64) == ((((x >> j) & 1u64) == 1u64) && (((y >> j) & 1u64)
            == 1u64)),
{
}

proof fn lemma_u64_bit_clear(x: u64, k: u64, j: u64)
    by (bit_vector)
    requires
        k < 64,
        j < 64,
    ensures
        (((x & !(1u64 << k)) >> j) & 1u64 == 1u64) == ((((x >> j) & 1u64) == 1u64) && j != k),
{
}

proof fn lemma_u64_bit_test(x: u64, k: u64)
    by (bit_vector)
    requires
        k < 64,
    ensures
        ((x & (1u64 << k)) != 0u64) == (((x >> k) & 1u64) == 1u64),
{
}

proof fn lemma_u64_zero(j: u64)
    by (bit_vector)
    requires
        j < 64,
    ensures
        ((0u64 >> j) & 1u64) != 1u64,
{
}

proof fn lemma_cards_set_le_52(s: Set<Card>, v: Seq<Card>)
    requires
        v.to_set() == s,
        v.len() == s.len(),
        forall|k: int, l: int| 0 <= k < l < v.len() ==> v[k].index() < v[l].index(),
    ensures
        s.len() <= 52,
{
    if v.len() > 52 {
        lemma_strictly_increasing_bound(v, 52);
    }
}

proof fn lemma_strictly_increasing_bound(v: Seq<Card>, n: int)
    requires
        0 <= n < v.len(),
        forall|k: int, l: int| 0 <= k < l < v.len() ==> v[k].index() < v[l].index(),
    ensures
        v[n].index() >= n,
    decreases n,
{
    if n > 0 {
        lemma_strictly_increasing_bound(v, n - 1);
    } else {
        v[0].lemma_index();
    }
}

/// Bit `k` of a 64-bit word.
pub open spec fn word_bit(x: u64, k: int) -> bool {
    ((x >> (k as u64)) & 1u64) == 1u64
}

/// A set of cards.
#[derive(Clone, Copy, Debug, PartialEq, Eq, Structural)]
pub struct Cards {
    bits: u64,
}

impl Cards {
    /// Whether `c` is in the set.
    pub closed spec fn contains(self, c: Card) -> bool {
        word_bit(self.bits, c.index())
    }

    /// The set as a mathematical set.
    pub open spec fn view_set(self) -> Set<Card> {
        Set::new(|c: Card| self.contains(c))
    }

    /// The empty set.
    pub fn empty() -> (s: Cards)
        ensures
            forall|c: Card| !s.contains(c),
    {
        let s = Cards { bits: 0 };
        proof {
            assert forall|c: Card| !s.contains(c) by {
                c.lemma_index();
                lemma_u64_zero(c.index() as u64);
            }
        }
        s
    }

    pub fn has(&self, c: Card) -> (r: bool)
        ensures
            r == self.contains(c),
    {
        let k = c.to_index_52_by_rank() as u64;
        proof {
            lemma_u64_bit_test(self.bits, k);
        }
        (self.bits & (1u64 << k)) != 0
    }

    /// Adds `c` to the set.
    pub fn add(&mut self, c: Card)
        ensures
            forall|d: Card| final(self).contains(d) <==> (old(self).contains(d) || d == c),
    {
        let k = c.to_index_52_by_rank() as u64;
        let old_bits = self.bits;
        self.bits = old_bits | (1u64 << k);
        proof {
            assert forall|d: Card| self.contains(d) <==> (old(self).contains(d) || d == c) by {
                d.lemma_index();
                Card::lemma_index_injective(c, d);
                lemma_u64_bit_or(old_bits, k, d.index() as u64);
            }
        }
    }

    /// Adds `c` unless it is already a member; tells whether it was added.
    pub fn try_add(&mut self, c: Card) -> (added: bool)
        ensures
            added == !old(self).contains(c),
            forall|d: Card| final(self).contains(d) <==> (old(self).contains(d) || d == c),
    {
        if self.has(c) {
            false
        } else {
            self.add(c);
            true
        }
    }

    /// The set with `c` added.
    pub fn with(self, c: Card) -> (s: Cards)
        ensures
            forall|d: Card| s.contains(d) <==> (self.contains(d) || d == c),
    {
        let mut s = self;
        s.add(c);
        s
    }

    /// Removes `c` from the set.
    pub fn remove(&mut self, c: Card)
        ensures
            forall|d: Card| final(self).contains(d) <==> (old(self).contains(d) && d != c),
    {
        let k = c.to_index_52_by_rank() as u64;
        let old_bits = self.bits;
        self.bits = old_bits & !(1u64 << k);
        proof {
            assert forall|d: Card| self.contains(d) <==> (old(self).contains(d) && d != c) by {
                d.lemma_index();
                Card::lemma_index_injective(c, d);
                lemma_u64_bit_clear(old_bits, k, d.index() as u64);
            }
        }
    }

    /// The cards in both sets.
    pub fn bitand(self, other: Cards) -> (s: Cards)
        ensures
            forall|d: Card| s.contains(d) <==> (self.contains(d) && other.contains(d)),
    {
        let s = Cards { bits: self.bits & other.bits };
        proof {
            assert forall|d: Card| s.contains(d) <==> (self.contains(d) && other.contains(d)) by {
                d.lemma_index();
                lemma_u64_bit_and(self.bits, other.bits, d.index() as u64);
            }
        }
        s
    }

    /// The members, sorted by rank, then suite.
    pub fn iter(&self) -> (v: Vec<Card>)
        ensures
            forall|k: int, l: int| 0 <= k < l < v@.len() ==> v@[k].index() < v@[l].index(),
            forall|c: Card| self.contains(c) <==> v@.contains(c),
    {
        let mut v: Vec<Card> = Vec::new();
        let mut i: usize = 0;
        while i < 52
            invariant
                i <= 52,
                forall|k: int, l: int| 0 <= k < l < v@.len() ==> v@[k].index() < v@[l].index(),
                forall|k: int| 0 <= k < v@.len() ==> v@[k].index() < i,
                forall|c: Card| (self.contains(c) && c.index() < i) <==> v@.contains(c),
            decreases 52 - i,
        {
            let c = Card::from_index_52_by_rank(i);
            let ghost old_v = v@;
            if self.has(c) {
                v.push(c);
            }
            proof {
                assert forall|d: Card| (self.contains(d) && d.index() < i + 1) <==> v@.contains(d) by {
                    Card::lemma_index_injective(c, d);
                    if v@.contains(d) && d != c {
                        let k = choose|k: int| 0 <= k < v@.len() && v@[k] == d;
                        if k < old_v.len() {
                            assert(old_v.contains(d));
                        }
                    }
                    if old_v.contains(d) {
                        let k = choose|k: int| 0 <= k < old_v.len() && old_v[k] == d;
                        assert(v@[k] == d);
                    }
                    if d == c && self.contains(d) {
                        assert(v@[v@.len() - 1] == c);
                    }
                }
            }
            i = i + 1;
        }
        v
    }

    /// The number of members.
    pub fn count(&self) -> (n: u32)
        ensures
            n == self.view_set().len(),
            n <= 52,
    {
        let v = self.iter();
        proof {
            assert(v@.no_duplicates()) by {
                assert forall|k: int, l: int| 0 <= k < v@.len() && 0 <= l < v@.len() && k != l implies v@[k] != v@[l] by {
                    if k < l {
                        assert(v@[k].index() < v@[l].index());
                    } else {
                        assert(v@[l].index() < v@[k].index());
                    }
                }
            }
            v@.unique_seq_to_set();
            assert(self.view_set() =~= v@.to_set());
            lemma_cards_set_le_52(self.view_set(), v@);
        }
        v.len() as u32
    }

    /// The set of the given cards, or `None` when a card occurs twice.
    pub fn from_slice(cards: &[Card]) -> (r: Option<Cards>)
        ensures
            r is None <==> exists|i: int, j: int|
                0 <= i < j < cards@.len() && cards@[i] == cards@[j],
            r matches Some(s) ==> forall|c: Card| s.contains(c) <==> cards@.contains(c),
    {
        let mut s = Cards::empty();
        let mut i: usize = 0;
        while i < cards.len()
            invariant
                i <= cards@.len(),
                forall|c: Card| s.contains(c) <==> exists|k: int| 0 <= k < i && cards@[k] == c,
                forall|k: int, l: int| 0 <= k < l < i ==> cards@[k] != cards@[l],
            decreases cards@.len() - i,
        {
            let c = cards[i];
            if !s.try_add(c) {
                proof {
                    let k = choose|k: int| 0 <= k < i && cards@[k] == c;
                    assert(cards@[k] == cards@[i as int]);
                }
                return None;
            }
            proof {
                assert forall|d: Card| s.contains(d) <==> exists|k: int| 0 <= k < i + 1 && cards@[k] == d by {
                    if d == c {
                        assert(cards@[i as int] == d);
                    }
                }
            }
            i = i + 1;
        }
        proof {
            assert forall|c: Card| s.contains(c) <==> cards@.contains(c) by {
                if cards@.contains(c) {
                    let k = choose|k: int| 0 <= k < cards@.len() && cards@[k] == c;
                }
            }
        }
        Some(s)
    }
}

/// The cards named in `b`, two characters per card, from left to right.
pub open spec fn spec_card_seq_from_bytes(b: Seq<u8>) -> Result<Seq<Card>, CardError>
    decreases b.len(),
{
    if b.len() % 2 != 0 {
        Err(CardError::InvalidLength)
    } else if b.len() == 0 {
        Ok(Seq::empty())
    } else {
        match spec_card_from_ascii(b[0], b[1]) {
            Err(e) => Err(e),
            Ok(c) => match spec_card_seq_from_bytes(b.skip(2)) {
                Err(e) => Err(e),
                Ok(rest) => Ok(seq![c] + rest),
            },
        }
    }
}

/// Whether a card occurs twice in `cs`.
pub open spec fn has_duplicate(cs: Seq<Card>) -> bool {
    exists|i: int, j: int| 0 <= i < j < cs.len() && cs[i] == cs[j]
}

/// Reads cards written as rank and suite characters, such as `AsKd`.
pub fn card_seq_from_bytes(b: &[u8]) -> (res: Result<Vec<Card>, CardError>)
    ensures
        match spec_card_seq_from_bytes(b@) {
            Err(e) => res == Err::<Vec<Card>, CardError>(e),
            Ok(cs) => res matches Ok(v) && v@ == cs,
        },
{
    if b.len() % 2 != 0 {
        return Err(CardError::InvalidLength);
    }
    let mut v: Vec<Card> = Vec::new();
    let mut i: usize = 0;
    proof {
        assert(b@.skip(0) =~= b@);
    }
    while i < b.len()
        invariant
            i <= b@.len(),
            i % 2 == 0,
            b@.len() % 2 == 0,
            match spec_card_seq_from_bytes(b@.skip(i as int)) {
                Err(e) => spec_card_seq_from_bytes(b@) == Err::<Seq<Card>, CardError>(e),
                Ok(rest) => spec_card_seq_from_bytes(b@) == Ok::<Seq<Card>, CardError>(v@ + rest),
            },
        decreases b@.len() - i,
    {
        let ghost tail = b@.skip(i as int);
        proof {
            assert(tail.skip(2) =~= b@.skip(i + 2));
            assert(tail[0] == b@[i as int] && tail[1] == b@[i + 1]);
        }
        match Card::from_ascii_pair(b[i], b[i + 1]) {
            Err(e) => {
                return Err(e);
            },
            Ok(c) => {
                proof {
                    match spec_card_seq_from_bytes(b@.skip(i + 2)) {
                        Err(e) => {},
                        Ok(rest) => {
                            assert(v@.push(c) + rest =~= v@ + (seq![c] + rest));
                        },
                    }
                }
                v.push(c);
            },
        }
        i = i + 2;
    }
    proof {
        assert(b@.skip(b@.len() as int) =~= Seq::<u8>::empty());
        assert(v@ + Seq::<Card>::empty() =~= v@);
    }
    Ok(v)
}

impl Cards {
    /// Reads a set of cards written as rank and suite characters, such as `AsKd`.
    pub fn from_bytes(b: &[u8]) -> (res: Result<Cards, CardError>)
        ensures
            match spec_card_seq_from_bytes(b@) {
                Err(e) => res == Err::<Cards, CardError>(e),
                Ok(cs) => if has_duplicate(cs) {
                    res == Err::<Cards, CardError>(CardError::DuplicateCard)
                } else {
                    res matches Ok(set) && forall|c: Card| set.contains(c) <==> cs.contains(c)
                },
            },
    {
        let v = match card_seq_from_bytes(b) {
            Ok(v) => v,
            Err(e) => return Err(e),
        };
        match Cards::from_slice(v.as_slice()) {
            Some(s) => Ok(s),
            None => Err(CardError::DuplicateCard),
        }
    }
}

/// The text of a card: its rank character, then its suite character.
pub open spec fn card_chars(c: Card) -> Seq<char> {
    seq![c.rank.ascii() as char, c.suite.ascii() as char]
}

/// The rank character as text.
pub(crate) fn rank_text(r: Rank) -> (s: &'static str)
    ensures
        s@ == seq![r.ascii() as char],
{
    match r {
        Rank::Two => {
            proof {
                reveal_strlit("2");
            }
            "2"
        },
        Rank::Three => {
            proof {
                reveal_strlit("3");
            }
            "3"
        },
        Rank::Four => {
            proof {
                reveal_strlit("4");
            }
            "4"
        },
        Rank::Five => {
            proof {
                reveal_strlit("5");
            }
            "5"
        },
        Rank::Six => {
            proof {
                reveal_strlit("6");
            }
            "6"
        },
        Rank::Seven => {
            proof {
                reveal_strlit("7");
            }
            "7"
        },
        Rank::Eight => {
            proof {
                reveal_strlit("8");
            }
            "8"
        },
        Rank::Nine => {
            proof {
                reveal_strlit("9");
            }
            "9"
        },
        Rank::Ten => {
            proof {
                reveal_strlit("T");
            }
            "T"
        },
        Rank::Jack => {
            proof {
                reveal_strlit("J");
            }
            "J"
        },
        Rank::Queen => {
            proof {
                reveal_strlit("Q");
            }
            "Q"
        },
        Rank::King => {
            proof {
                reveal_strlit("K");
            }
            "K"
        },
        Rank::Ace => {
            proof {
                reveal_strlit("A");
            }
            "A"
        },
    }
}

/// The suite character as text.
fn suite_text(su: Suite) -> (s: &'static str)
    ensures
        s@ == seq![su.ascii() as char],
{
    match su {
        Suite::Diamonds => {
            proof {
                reveal_strlit("d");
            }
            "d"
        },
        Suite::Clubs => {
            proof {
                reveal_strlit("c");
            }
            "c"
        },
        Suite::Hearts => {
            proof {
                reveal_strlit("h");
            }
            "h"
        },
        Suite::Spades => {
            proof {
                reveal_strlit("s");
            }
            "s"
        },
    }
}

impl Card {
    /// The card as text, such as `Ah`.
    pub fn to_string(&self) -> (s: String)
        ensures
            s@ == card_chars(*self),
    {
        let mut s = String::from_str(rank_text(self.rank));
        s.append(suite_text(self.suite));
        proof {
            assert(s@ =~= card_chars(*self));
        }
        s
    }
}

} // verus!
