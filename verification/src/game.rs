use vstd::prelude::*;

use crate::card::{Card, Cards};
use crate::hand::Hand;

verus! {

/// Largest number of players at a table.
pub const MAX_PLAYERS: usize = 10;

/// Smallest number of players at a table.
pub const MIN_PLAYERS: usize = 2;

/// Largest number of runouts of the board.
pub const MAX_RUNOUTS: usize = 4;

/// Why a game operation was refused.
#[derive(Clone, Copy, Debug, PartialEq, Eq, Structural)]
pub enum GameError {
    PlayerIndexTooLarge,
    SeatIndexTooLarge,
    BadBoardLength,
    DuplicateBoardCard,
}

/// A betting round.
#[derive(Clone, Copy, Debug, PartialEq, Eq, Structural, Hash)]
pub enum Street {
    PreFlop,
    Flop,
    Turn,
    River,
}

/// The street with index `i` (pre flop is 0, river is 3).
pub open spec fn street_of_index(i: int) -> Street {
    if i <= 0 {
        Street::PreFlop
    } else if i == 1 {
        Street::Flop
    } else if i == 2 {
        Street::Turn
    } else {
        Street::River
    }
}

impl Street {
    pub const COUNT: usize = 4;

    pub open spec fn index(self) -> int {
        match self {
            Street::PreFlop => 0,
            Street::Flop => 1,
            Street::Turn => 2,
            Street::River => 3,
        }
    }

    /// Number of community cards dealt once this street is reached.
    pub open spec fn card_count(self) -> int {
        match self {
            Street::PreFlop => 0,
            Street::Flop => 3,
            Street::Turn => 4,
            Street::River => 5,
        }
    }

    /// The streets in order.
    pub fn streets() -> (v: [Street; 4])
        ensures
            forall|i: int| 0 <= i < 4 ==> (#[trigger] v@[i]).index() == i,
    {
        [Street::PreFlop, Street::Flop, Street::Turn, Street::River]
    }

    pub fn previous(self) -> (r: Option<Street>)
        ensures
            self.index() == 0 ==> r is None,
            self.index() > 0 ==> r == Some(street_of_index(self.index() - 1)),
    {
        match self {
            Street::PreFlop => None,
            Street::Flop => Some(Street::PreFlop),
            Street::Turn => Some(Street::Flop),
            Street::River => Some(Street::Turn),
        }
    }

    pub fn next(self) -> (r: Option<Street>)
        ensures
            self.index() == 3 ==> r is None,
            self.index() < 3 ==> r == Some(street_of_index(self.index() + 1)),
    {
        match self {
            Street::PreFlop => Some(Street::Flop),
            Street::Flop => Some(Street::Turn),
            Street::Turn => Some(Street::River),
            Street::River => None,
        }
    }

    pub fn to_usize(self) -> (r: usize)
        ensures
            r == self.index(),
    {
        match self {
            Street::PreFlop => 0,
            Street::Flop => 1,
            Street::Turn => 2,
            Street::River => 3,
        }
    }

    pub fn from_usize(i: usize) -> (s: Street)
        requires
            i < 4,
        ensures
            s.index() == i,
            s == street_of_index(i as int),
    {
        match i {
            0 => Street::PreFlop,
            1 => Street::Flop,
            2 => Street::Turn,
            _ => Street::River,
        }
    }

    /// Number of community cards on the board once this street is reached.
    pub fn community_card_count(self) -> (n: usize)
        ensures
            n == self.card_count(),
    {
        match self {
            Street::PreFlop => 0,
            Street::Flop => 3,
            Street::Turn => 4,
            Street::River => 5,
        }
    }

    /// Number of community cards dealt on this street.
    pub fn new_community_card_count(self) -> (n: usize)
        ensures
            n == self.card_count() - if self.index() == 0 {
                0
            } else {
                street_of_index(self.index() - 1).card_count()
            },
    {
        match self {
            Street::PreFlop => 0,
            Street::Flop => 3,
            Street::Turn => 1,
            Street::River => 1,
        }
    }
}

/// The community cards of one runout.
#[derive(Clone, Copy, Debug, PartialEq, Eq)]
pub struct Board {
    pub(crate) cards: [Card; 5],
    pub(crate) street: Street,
}

impl Board {
    /// The dealt cards.
    pub closed spec fn dealt(self) -> Seq<Card> {
        self.cards@.subrange(0, self.street.card_count())
    }

    pub closed spec fn street_of(self) -> Street {
        self.street
    }

    /// The first `n` card slots, dealt or not.
    pub closed spec fn first_cards(self, n: int) -> Seq<Card> {
        self.cards@.subrange(0, n)
    }

    pub(crate) proof fn lemma_parts(self, n: int)
        ensures
            self.dealt() == self.cards@.subrange(0, self.street.card_count()),
            self.first_cards(n) == self.cards@.subrange(0, n),
            self.street_of() == self.street,
    {
    }

    pub proof fn lemma_dealt_first(self)
        ensures
            self.dealt() == self.first_cards(self.street_of().card_count()),
            self.dealt().len() == self.street_of().card_count(),
    {
    }

    /// The card kept in place `i` of the board, dealt or not.
    pub closed spec fn slot(self, i: int) -> Card {
        self.cards@[i]
    }

    /// A board is fixed by its street, its dealt cards and its undealt
    /// places; so a board made from the cards of a board whose undealt
    /// places hold the lowest card (as `empty` and `from_cards` make them)
    /// is that same board.
    pub proof fn law_board_determined(a: Board, b: Board)
        requires
            a.street_of() == b.street_of(),
            a.dealt() == b.dealt(),
            forall|i: int| a.dealt().len() <= i < 5 ==> (#[trigger] a.slot(i)).index() == 0,
            forall|i: int| b.dealt().len() <= i < 5 ==> (#[trigger] b.slot(i)).index() == 0,
        ensures
            a == b,
    {
        assert forall|i: int| 0 <= i < 5 implies a.cards@[i] == b.cards@[i] by {
            if i < a.dealt().len() {
                assert(a.dealt()[i] == a.cards@[i]);
                assert(b.dealt()[i] == b.cards@[i]);
            } else {
                assert(a.slot(i).index() == 0 && b.slot(i).index() == 0);
                Card::lemma_index_injective(a.cards@[i], b.cards@[i]);
            }
        }
        assert(a.cards@ =~= b.cards@);
        assert(a.cards == b.cards);
    }

    /// The board before the flop.
    pub fn empty() -> (b: Board)
        ensures
            b.street_of() == Street::PreFlop,
            b.dealt() == Seq::<Card>::empty(),
            forall|i: int| 0 <= i < 5 ==> (#[trigger] b.slot(i)).index() == 0,
    {
        let b = Board { cards: [Card::min(); 5], street: Street::PreFlop };
        proof {
            assert(b.dealt() =~= Seq::<Card>::empty());
        }
        b
    }

    /// The board holding the given cards: none, a flop, a turn or a river.
    pub fn from_cards(given_cards: &[Card]) -> (r: Result<Board, GameError>)
        ensures
            !(given_cards@.len() == 0 || 3 <= given_cards@.len() <= 5) ==> r == Err::<
                Board,
                GameError,
            >(GameError::BadBoardLength),
            (given_cards@.len() == 0 || 3 <= given_cards@.len() <= 5) ==> (r is Err <==> exists|
                i: int,
                j: int,
            | 0 <= i < j < given_cards@.len() && given_cards@[i] == given_cards@[j]),
            r is Err ==> r == Err::<Board, GameError>(GameError::BadBoardLength) || r == Err::<
                Board,
                GameError,
            >(GameError::DuplicateBoardCard),
            r matches Ok(b) ==> b.dealt() == given_cards@ && b.street_of().card_count()
                == given_cards@.len() && forall|i: int|
                given_cards@.len() <= i < 5 ==> (#[trigger] b.slot(i)).index() == 0,
    {
        let n = given_cards.len();
        let street = if n == 0 {
            Street::PreFlop
        } else if n == 3 {
            Street::Flop
        } else if n == 4 {
            Street::Turn
        } else if n == 5 {
            Street::River
        } else {
            return Err(GameError::BadBoardLength);
        };
        if Cards::from_slice(given_cards).is_none() {
            return Err(GameError::DuplicateBoardCard);
        }
        let mut cards = [Card::min(); 5];
        let mut i: usize = 0;
        while i < n
            invariant
                i <= n,
                n == given_cards@.len(),
                n <= 5,
                forall|k: int| 0 <= k < i ==> cards@[k] == given_cards@[k],
                forall|k: int| i <= k < 5 ==> (#[trigger] cards@[k]).index() == 0,
            decreases n - i,
        {
            cards[i] = given_cards[i];
            i = i + 1;
        }
        let b = Board { cards, street };
        proof {
            assert(b.dealt() =~= given_cards@);
        }
        Ok(b)
    }

    /// The dealt cards.
    pub fn cards(&self) -> (v: Vec<Card>)
        ensures
            v@ == self.dealt(),
    {
        let n = self.street.community_card_count();
        let mut v: Vec<Card> = Vec::new();
        let mut i: usize = 0;
        while i < n
            invariant
                i <= n,
                n == self.street.card_count(),
                n <= 5,
                v@ == self.cards@.subrange(0, i as int),
            decreases n - i,
        {
            v.push(self.cards[i]);
            proof {
                assert(v@ =~= self.cards@.subrange(0, i + 1));
            }
            i = i + 1;
        }
        v
    }

    /// The dealt cards as a set.
    pub fn cards_set(&self) -> (s: Option<Cards>)
        ensures
            s matches Some(set) ==> forall|c: Card| set.contains(c) <==> self.dealt().contains(c),
            s is None <==> exists|i: int, j: int|
                0 <= i < j < self.dealt().len() && self.dealt()[i] == self.dealt()[j],
    {
        let v = self.cards();
        Cards::from_slice(v.as_slice())
    }

    pub fn street(&self) -> (s: Street)
        ensures
            s == self.street_of(),
    {
        self.street
    }

    /// The flop cards, once dealt.
    pub fn flop(&self) -> (r: Option<[Card; 3]>)
        ensures
            self.street_of().index() >= 1 ==> (r matches Some(f) && f@ == self.dealt().subrange(0, 3)),
            self.street_of().index() < 1 ==> r is None,
    {
        if self.street.to_usize() >= 1 {
            let f = [self.cards[0], self.cards[1], self.cards[2]];
            proof {
                assert(f@ =~= self.dealt().subrange(0, 3));
            }
            Some(f)
        } else {
            None
        }
    }

    /// The turn card, once dealt.
    pub fn turn(&self) -> (r: Option<Card>)
        ensures
            r == if self.dealt().len() > 3 {
                Some(self.dealt()[3])
            } else {
                None::<Card>
            },
    {
        if self.street.community_card_count() > 3 {
            Some(self.cards[3])
        } else {
            None
        }
    }

    /// The river card, once dealt.
    pub fn river(&self) -> (r: Option<Card>)
        ensures
            r == if self.dealt().len() > 4 {
                Some(self.dealt()[4])
            } else {
                None::<Card>
            },
    {
        if self.street.community_card_count() > 4 {
            Some(self.cards[4])
        } else {
            None
        }
    }
}

/// A player, identified by position at the table (0 up to 9).
#[derive(Clone, Copy, Debug, PartialEq, Eq, Structural, Hash)]
pub struct Player(pub u8);

impl Player {
    pub open spec fn value(self) -> int {
        self.0 as int
    }

    /// The player with the given index, if it is below the player limit.
    pub fn try_from_u8(value: u8) -> (r: Result<Player, GameError>)
        ensures
            (value as usize) < MAX_PLAYERS ==> r == Ok::<Player, GameError>(Player(value)),
            (value as usize) >= MAX_PLAYERS ==> r == Err::<Player, GameError>(
                GameError::PlayerIndexTooLarge,
            ),
    {
        if value as usize >= MAX_PLAYERS {
            Err(GameError::PlayerIndexTooLarge)
        } else {
            Ok(Player(value))
        }
    }

    /// The player with the given index, if it is below the player limit.
    pub fn try_from_usize(value: usize) -> (r: Result<Player, GameError>)
        ensures
            value < MAX_PLAYERS ==> r == Ok::<Player, GameError>(Player(value as u8)),
            value >= MAX_PLAYERS ==> r == Err::<Player, GameError>(GameError::PlayerIndexTooLarge),
    {
        if value >= MAX_PLAYERS {
            Err(GameError::PlayerIndexTooLarge)
        } else {
            Ok(Player(value as u8))
        }
    }

    pub fn to_u8(self) -> (r: u8)
        ensures
            r == self.0,
    {
        self.0
    }

    pub fn to_usize(self) -> (r: usize)
        ensures
            r == self.0,
    {
        self.0 as usize
    }

    /// The first player.
    pub fn zero() -> (p: Player)
        ensures
            p.value() == 0,
    {
        Player(0)
    }
}

/// A seat at the table (0 up to 9).
#[derive(Clone, Copy, Debug, PartialEq, Eq, Structural, Hash)]
pub struct Seat(pub u8);

impl Seat {
    pub open spec fn value(self) -> int {
        self.0 as int
    }

    /// The seat with the given index, if it is below the player limit.
    pub fn try_from_u8(value: u8) -> (r: Result<Seat, GameError>)
        ensures
            (value as usize) < MAX_PLAYERS ==> r == Ok::<Seat, GameError>(Seat(value)),
            (value as usize) >= MAX_PLAYERS ==> r == Err::<Seat, GameError>(
                GameError::SeatIndexTooLarge,
            ),
    {
        if value as usize >= MAX_PLAYERS {
            Err(GameError::SeatIndexTooLarge)
        } else {
            Ok(Seat(value))
        }
    }

    /// The seat with the given index, if it is below the player limit.
    pub fn try_from_usize(value: usize) -> (r: Result<Seat, GameError>)
        ensures
            value < MAX_PLAYERS ==> r == Ok::<Seat, GameError>(Seat(value as u8)),
            value >= MAX_PLAYERS ==> r == Err::<Seat, GameError>(GameError::SeatIndexTooLarge),
    {
        if value >= MAX_PLAYERS {
            Err(GameError::SeatIndexTooLarge)
        } else {
            Ok(Seat(value as u8))
        }
    }

    pub fn to_u8(self) -> (r: u8)
        ensures
            r == self.0,
    {
        self.0
    }

    pub fn to_usize(self) -> (r: usize)
        ensures
            r == self.0,
    {
        self.0 as usize
    }
}

/// An amount of chips.
#[derive(Clone, Copy, Debug, PartialEq, Eq, Structural, Hash)]
pub struct Amount(pub u32);

/// `n / d` rounded to the nearest integer, halves away from zero.
pub open spec fn div_round(n: int, d: int) -> int {
    (2 * n + d) / (2 * d)
}

impl Amount {
    pub open spec fn value(self) -> int {
        self.0 as int
    }

    pub fn new(n: u32) -> (a: Amount)
        ensures
            a.value() == n,
    {
        Amount(n)
    }

    pub fn zero() -> (a: Amount)
        ensures
            a.value() == 0,
    {
        Amount(0)
    }

    pub fn to_u32(self) -> (n: u32)
        ensures
            n == self.0,
    {
        self.0
    }

    /// The amount in thousandths of `big_blind`, rounded to the nearest thousandth.
    pub open spec fn spec_to_milli_big_blinds(self, big_blind: Amount) -> MilliBigBlind {
        MilliBigBlind(
            ((self.value() / big_blind.value()) * 1000 + div_round(
                (self.value() % big_blind.value()) * 1000,
                big_blind.value(),
            )) as i64,
        )
    }

    /// The amount in thousandths of `big_blind`, rounded to the nearest thousandth.
    pub fn to_milli_big_blinds_rounded(self, big_blind: Amount) -> (m: MilliBigBlind)
        requires
            big_blind.value() > 0,
        ensures
            m.value() == (self.value() / big_blind.value()) * 1000 + div_round(
                (self.value() % big_blind.value()) * 1000,
                big_blind.value(),
            ),
            m == self.spec_to_milli_big_blinds(big_blind),
    {
        let full_blinds = self.0 / big_blind.0;
        let remainder = self.0 % big_blind.0;
        let n: u64 = remainder as u64 * 1000;
        let d: u64 = big_blind.0 as u64;
        proof {
            assert(remainder < big_blind.0);
            assert(remainder as u64 * 1000 <= 4294967295u64 * 1000) by (nonlinear_arith)
                requires
                    remainder <= 4294967295u32,
            ;
        }
        let frac = (2 * n + d) / (2 * d);
        proof {
            assert(frac <= 1000) by (nonlinear_arith)
                requires
                    n == remainder * 1000,
                    remainder < d,
                    frac == (2 * n + d) / (2 * d),
                    d > 0,
            ;
        }
        MilliBigBlind(full_blinds as i64 * 1000 + frac as i64)
    }

    pub fn checked_add(self, rhs: Amount) -> (r: Option<Amount>)
        ensures
            self.value() + rhs.value() <= u32::MAX ==> r == Some(
                Amount((self.value() + rhs.value()) as u32),
            ),
            self.value() + rhs.value() > u32::MAX ==> r is None,
    {
        match self.0.checked_add(rhs.0) {
            Some(n) => Some(Amount(n)),
            None => None,
        }
    }

    pub fn checked_sub(self, rhs: Amount) -> (r: Option<Amount>)
        ensures
            self.value() >= rhs.value() ==> r == Some(Amount((self.value() - rhs.value()) as u32)),
            self.value() < rhs.value() ==> r is None,
    {
        match self.0.checked_sub(rhs.0) {
            Some(n) => Some(Amount(n)),
            None => None,
        }
    }

    pub fn checked_mul(self, rhs: u32) -> (r: Option<Amount>)
        ensures
            self.value() * rhs <= u32::MAX ==> r == Some(Amount((self.value() * rhs) as u32)),
            self.value() * rhs > u32::MAX ==> r is None,
    {
        match self.0.checked_mul(rhs) {
            Some(n) => Some(Amount(n)),
            None => None,
        }
    }

    pub fn saturating_add(self, rhs: Amount) -> (r: Amount)
        ensures
            r.value() == if self.value() + rhs.value() > u32::MAX {
                u32::MAX as int
            } else {
                self.value() + rhs.value()
            },
    {
        Amount(self.0.saturating_add(rhs.0))
    }

    pub fn saturating_sub(self, rhs: Amount) -> (r: Amount)
        ensures
            r.value() == if self.value() < rhs.value() {
                0
            } else {
                self.value() - rhs.value()
            },
    {
        Amount(self.0.saturating_sub(rhs.0))
    }

    pub fn saturating_mul(self, rhs: u32) -> (r: Amount)
        ensures
            r.value() == if self.value() * rhs > u32::MAX {
                u32::MAX as int
            } else {
                self.value() * rhs
            },
    {
        match self.0.checked_mul(rhs) {
            Some(n) => Amount(n),
            None => Amount(u32::MAX),
        }
    }
}

/// An amount in thousandths of a big blind.
#[derive(Clone, Copy, Debug, PartialEq, Eq, Structural, Hash)]
pub struct MilliBigBlind(pub i64);

impl MilliBigBlind {
    pub open spec fn value(self) -> int {
        self.0 as int
    }

    pub fn new(n: i64) -> (m: MilliBigBlind)
        ensures
            m.value() == n,
    {
        MilliBigBlind(n)
    }

    pub fn to_i64(self) -> (n: i64)
        ensures
            n == self.0,
    {
        self.0
    }

    /// The amount of chips this many thousandths of `big_blind` make, rounded
    /// half up; `None` when negative or too large for an amount.
    pub open spec fn spec_to_amount(self, big_blind: Amount) -> Option<Amount> {
        if self.value() < 0 || self.value() / 1000 > u32::MAX || (self.value() / 1000) * big_blind.value()
            > u32::MAX || (self.value() / 1000) * big_blind.value() + div_round(
            (self.value() % 1000) * big_blind.value(),
            1000,
        ) > u32::MAX {
            None
        } else {
            Some(
                Amount(
                    ((self.value() / 1000) * big_blind.value() + div_round(
                        (self.value() % 1000) * big_blind.value(),
                        1000,
                    )) as u32,
                ),
            )
        }
    }

    /// The amount of chips this many thousandths of `big_blind` make, rounded to
    /// the nearest chip; `None` when negative or too large for an amount.
    pub fn to_amount_rounded(self, big_blind: Amount) -> (r: Option<Amount>)
        ensures
            r == self.spec_to_amount(big_blind),
    {
        if self.0 < 0 {
            return None;
        }
        let full = self.0 / 1000;
        let frac = (self.0 % 1000) as u64;
        if full > u32::MAX as i64 {
            return None;
        }
        let full_blinds = match (full as u32).checked_mul(big_blind.0) {
            Some(n) => n,
            None => return None,
        };
        proof {
            assert(frac * big_blind.0 <= 999 * 4294967295u64) by (nonlinear_arith)
                requires
                    frac < 1000,
                    big_blind.0 <= 4294967295u32,
            ;
        }
        let n: u64 = frac * big_blind.0 as u64;
        let rounded = (2 * n + 1000) / 2000;
        proof {
            assert(rounded <= big_blind.0) by (nonlinear_arith)
                requires
                    rounded == (2 * n + 1000) / 2000,
                    n == frac * big_blind.0,
                    frac < 1000,
            ;
        }
        match full_blinds.checked_add(rounded as u32) {
            Some(n) => Some(Amount(n)),
            None => None,
        }
    }

    /// The distance between two values.
    pub fn abs_diff(self, other: MilliBigBlind) -> (d: u64)
        ensures
            d == if self.value() >= other.value() {
                self.value() - other.value()
            } else {
                other.value() - self.value()
            },
    {
        if self.0 >= other.0 {
            (self.0 as i128 - other.0 as i128) as u64
        } else {
            (other.0 as i128 - self.0 as i128) as u64
        }
    }
}

/// Something that happens in a hand.
#[derive(Clone, Copy, Debug, PartialEq, Eq)]
pub enum Action {
    Post { player: Player, amount: Amount, dead: bool },
    Straddle { player: Player, amount: Amount },
    Fold(Player),
    Check(Player),
    Call { player: Player, amount: Amount },
    Bet { player: Player, amount: Amount },
    Raise { player: Player, old_stack: Amount, amount: Amount, to: Amount },
    Flop([Card; 3]),
    Turn(Card),
    River(Card),
    UncalledBet { player: Player, amount: Amount },
    Shows { player: Player, hand: Hand },
    MucksOrUnknown(Player),
}

/// The street an action deals, if it deals one.
pub open spec fn action_street(a: Action) -> Option<Street> {
    match a {
        Action::Flop(_) => Some(Street::Flop),
        Action::Turn(_) => Some(Street::Turn),
        Action::River(_) => Some(Street::River),
        _ => None,
    }
}

/// The player taking a betting action (posts, straddles, folds, checks, calls, bets, raises).
pub open spec fn action_player(a: Action) -> Option<Player> {
    match a {
        Action::Post { player, .. } => Some(player),
        Action::Straddle { player, .. } => Some(player),
        Action::Fold(player) => Some(player),
        Action::Check(player) => Some(player),
        Action::Call { player, .. } => Some(player),
        Action::Bet { player, .. } => Some(player),
        Action::Raise { player, .. } => Some(player),
        _ => None,
    }
}

/// Whether two actions are equal.
pub fn actions_equal(a: &Action, b: &Action) -> (r: bool)
    ensures
        r == (*a == *b),
{
    match (a, b) {
        (
            Action::Post { player: p1, amount: a1, dead: d1 },
            Action::Post { player: p2, amount: a2, dead: d2 },
        ) => p1.0 == p2.0 && a1.0 == a2.0 && *d1 == *d2,
        (Action::Straddle { player: p1, amount: a1 }, Action::Straddle { player: p2, amount: a2 }) =>
            p1.0 == p2.0 && a1.0 == a2.0,
        (Action::Fold(p1), Action::Fold(p2)) => p1.0 == p2.0,
        (Action::Check(p1), Action::Check(p2)) => p1.0 == p2.0,
        (Action::Call { player: p1, amount: a1 }, Action::Call { player: p2, amount: a2 }) => p1.0
            == p2.0 && a1.0 == a2.0,
        (Action::Bet { player: p1, amount: a1 }, Action::Bet { player: p2, amount: a2 }) => p1.0
            == p2.0 && a1.0 == a2.0,
        (
            Action::Raise { player: p1, old_stack: o1, amount: a1, to: t1 },
            Action::Raise { player: p2, old_stack: o2, amount: a2, to: t2 },
        ) => p1.0 == p2.0 && o1.0 == o2.0 && a1.0 == a2.0 && t1.0 == t2.0,
        (Action::Flop(f1), Action::Flop(f2)) => {
            let r = f1[0] == f2[0] && f1[1] == f2[1] && f1[2] == f2[2];
            proof {
                if r {
                    assert(f1@ =~= f2@);
                    assert(*f1 =~= *f2);
                }
            }
            r
        },
        (Action::Turn(c1), Action::Turn(c2)) => *c1 == *c2,
        (Action::River(c1), Action::River(c2)) => *c1 == *c2,
        (
            Action::UncalledBet { player: p1, amount: a1 },
            Action::UncalledBet { player: p2, amount: a2 },
        ) => p1.0 == p2.0 && a1.0 == a2.0,
        (Action::Shows { player: p1, hand: h1 }, Action::Shows { player: p2, hand: h2 }) => p1.0
            == p2.0 && *h1 == *h2,
        (Action::MucksOrUnknown(p1), Action::MucksOrUnknown(p2)) => p1.0 == p2.0,
        _ => false,
    }
}

impl Action {
    /// A short name of the kind of action.
    pub fn kind_str(self) -> (s: &'static str)
        ensures
            s == match self {
                Action::Post { .. } => "Post",
                Action::Straddle { .. } => "Straddle",
                Action::Fold(_) => "Fold",
                Action::Check(_) => "Check",
                Action::Call { .. } => "Call",
                Action::Bet { .. } => "Bet",
                Action::Raise { .. } => "Raise",
                Action::Flop(_) => "Flop",
                Action::Turn(_) => "Turn",
                Action::River(_) => "River",
                Action::UncalledBet { .. } => "Uncalled bet",
                Action::Shows { .. } => "Shows",
                Action::MucksOrUnknown(_) => "Mucks",
            },
    {
        match self {
            Action::Post { .. } => "Post",
            Action::Straddle { .. } => "Straddle",
            Action::Fold(_) => "Fold",
            Action::Check(_) => "Check",
            Action::Call { .. } => "Call",
            Action::Bet { .. } => "Bet",
            Action::Raise { .. } => "Raise",
            Action::Flop(_) => "Flop",
            Action::Turn(_) => "Turn",
            Action::River(_) => "River",
            Action::UncalledBet { .. } => "Uncalled bet",
            Action::Shows { .. } => "Shows",
            Action::MucksOrUnknown(_) => "Mucks",
        }
    }

    /// The one-letter code of a betting action.
    pub fn player_char(self) -> (c: Option<char>)
        ensures
            c == match self {
                Action::Post { .. } => Some('p'),
                Action::Straddle { .. } => Some('s'),
                Action::Fold(_) => Some('f'),
                Action::Check(_) => Some('x'),
                Action::Call { .. } => Some('c'),
                Action::Bet { .. } => Some('b'),
                Action::Raise { .. } => Some('r'),
                _ => None::<char>,
            },
    {
        match self {
            Action::Post { .. } => Some('p'),
            Action::Straddle { .. } => Some('s'),
            Action::Fold(_) => Some('f'),
            Action::Check(_) => Some('x'),
            Action::Call { .. } => Some('c'),
            Action::Bet { .. } => Some('b'),
            Action::Raise { .. } => Some('r'),
            _ => None,
        }
    }

    pub fn is_street(self) -> (r: bool)
        ensures
            r == action_street(self).is_some(),
    {
        self.street().is_some()
    }

    pub fn street(self) -> (r: Option<Street>)
        ensures
            r == action_street(self),
    {
        match self {
            Action::Flop(_) => Some(Street::Flop),
            Action::Turn(_) => Some(Street::Turn),
            Action::River(_) => Some(Street::River),
            _ => None,
        }
    }

    pub fn is_player(self) -> (r: bool)
        ensures
            r == action_player(self).is_some(),
    {
        self.player().is_some()
    }

    pub fn player(self) -> (r: Option<Player>)
        ensures
            r == action_player(self),
    {
        match self {
            Action::Post { player, .. } => Some(player),
            Action::Straddle { player, .. } => Some(player),
            Action::Fold(player) => Some(player),
            Action::Check(player) => Some(player),
            Action::Call { player, .. } => Some(player),
            Action::Bet { player, .. } => Some(player),
            Action::Raise { player, .. } => Some(player),
            _ => None,
        }
    }

    /// The player an action belongs to, including returned bets, shows and mucks.
    pub fn player_all(self) -> (r: Option<Player>)
        ensures
            r == match self {
                Action::UncalledBet { player, .. } => Some(player),
                Action::Shows { player, .. } => Some(player),
                Action::MucksOrUnknown(player) => Some(player),
                _ => action_player(self),
            },
    {
        match self {
            Action::UncalledBet { player, .. } => Some(player),
            Action::Shows { player, .. } => Some(player),
            Action::MucksOrUnknown(player) => Some(player),
            _ => self.player(),
        }
    }
}

/// What the game waits for next.
#[derive(Clone, Copy, Debug, PartialEq, Eq, Structural)]
pub enum State {
    Post,
    Player(Player),
    Street(Street),
    UncalledBet { player: Player, amount: Amount },
    ShowOrMuck(Player),
    ShowdownOrNextRunout,
    End,
}

/// Abbreviation and full name of the position `index` seats left of the button
/// at a table of `count` players.
pub open spec fn position_label(count: int, index: int) -> (&'static str, &'static str) {
    if count == 2 {
        if index == 0 { ("BTN", "Small Blind / Dealer") } else { ("BB", "Big Blind") }
    } else if index == 0 {
        ("BTN", "Button")
    } else if index == 1 {
        ("SB", "Small Blind")
    } else if index == 2 {
        ("BB", "Big Blind")
    } else if index == 3 {
        ("UTG", "Under the Gun")
    } else if count - index == 1 {
        ("CO", "Cutoff")
    } else if count - index == 2 {
        ("HJ", "Hijack")
    } else if count - index == 3 {
        ("LJ", "Lowjack")
    } else if index == 4 {
        ("UTG+1", "Under the Gun +1")
    } else if index == 5 {
        ("UTG+2", "Under the Gun +2")
    } else {
        ("UTG+3", "Under the Gun +3")
    }
}

pub(crate) fn position_label_exec(count: usize, index: usize) -> (r: (&'static str, &'static str))
    requires
        2 <= count <= MAX_PLAYERS,
        index < count,
    ensures
        r == position_label(count as int, index as int),
{
    if count == 2 {
        if index == 0 { ("BTN", "Small Blind / Dealer") } else { ("BB", "Big Blind") }
    } else if index == 0 {
        ("BTN", "Button")
    } else if index == 1 {
        ("SB", "Small Blind")
    } else if index == 2 {
        ("BB", "Big Blind")
    } else if index == 3 {
        ("UTG", "Under the Gun")
    } else if count - index == 1 {
        ("CO", "Cutoff")
    } else if count - index == 2 {
        ("HJ", "Hijack")
    } else if count - index == 3 {
        ("LJ", "Lowjack")
    } else if index == 4 {
        ("UTG+1", "Under the Gun +1")
    } else if index == 5 {
        ("UTG+2", "Under the Gun +2")
    } else {
        ("UTG+3", "Under the Gun +3")
    }
}

/// Seats left of the button that `player` sits.
pub open spec fn button_offset(player_count: int, button: int, player: int) -> int {
    (player_count - button + player) % player_count
}



/// With a big blind of at most 1 000 chips, converting an amount to rounded
/// thousandths of the big blind and back gives the amount again.
pub proof fn law_milli_round_trip(a: Amount, big_blind: Amount)
    requires
        1 <= big_blind.value() <= 1000,
    ensures
        a.spec_to_milli_big_blinds(big_blind).spec_to_amount(big_blind) == Some(a),
{
    let b = big_blind.value();
    let x = a.value();
    let q = x / b;
    let r = x % b;
    vstd::arithmetic::div_mod::lemma_fundamental_div_mod(x, b);
    assert(0 <= r < b);
    assert(0 <= q <= x) by (nonlinear_arith)
        requires
            x == b * q + r,
            0 <= r < b,
            b >= 1,
            x >= 0,
    ;
    let f = div_round(r * 1000, b);
    assert(f == (2000 * r + b) / (2 * b));
    vstd::arithmetic::div_mod::lemma_fundamental_div_mod(2000 * r + b, 2 * b);
    let t = (2000 * r + b) % (2 * b);
    assert(0 <= t < 2 * b);
    assert(2000 * r + b == 2 * b * f + t);
    assert(0 <= f < 1000) by (nonlinear_arith)
        requires
            2000 * r + b == 2 * b * f + t,
            0 <= t < 2 * b,
            0 <= r < b,
            1 <= b <= 1000,
    ;
    let mv = q * 1000 + f;
    assert(0 <= mv <= x * 1000 + 999) by (nonlinear_arith)
        requires
            mv == q * 1000 + f,
            0 <= q <= x,
            0 <= f < 1000,
    ;
    assert(x <= u32::MAX);
    let m = a.spec_to_milli_big_blinds(big_blind);
    assert(m.value() == mv);
    vstd::arithmetic::div_mod::lemma_fundamental_div_mod_converse(mv, 1000, q, f);
    assert(mv / 1000 == q && mv % 1000 == f);
    assert(q * b <= x) by (nonlinear_arith)
        requires
            x == b * q + r,
            0 <= r,
    ;
    // Rounding f thousandths of the big blind gives back the remainder.
    let fb = f * b;
    assert(2000 * r <= 2 * fb + 1000 < 2000 * r + 2000) by (nonlinear_arith)
        requires
            2000 * r + b == 2 * b * f + t,
            fb == f * b,
            0 <= t < 2 * b,
            1 <= b <= 1000,
            0 <= r,
    {
        if b == 1000 {
            assert(2000 * f <= 2000 * r + 1000);
            assert(f <= r);
        }
    }
    vstd::arithmetic::div_mod::lemma_fundamental_div_mod_converse(2 * fb + 1000, 2000, r, 2 * fb + 1000 - 2000 * r);
    assert(div_round(f * b, 1000) == r);
    assert(q * b + r == x);
}

/// The names of the seats at a table of five to ten players: the button, the
/// blinds and under the gun first, then the cutoff right before the button,
/// the hijack before it from six players on and the lowjack before that from
/// seven on; the seats left between are under the gun plus one, two and three.
pub proof fn law_position_names(count: int, index: int)
    requires
        5 <= count <= MAX_PLAYERS,
        0 <= index < count,
    ensures
        index == 0 ==> position_label(count, index) == ("BTN", "Button"),
        index == 1 ==> position_label(count, index) == ("SB", "Small Blind"),
        index == 2 ==> position_label(count, index) == ("BB", "Big Blind"),
        index == 3 ==> position_label(count, index) == ("UTG", "Under the Gun"),
        index == count - 1 ==> position_label(count, index) == ("CO", "Cutoff"),
        count >= 6 && index == count - 2 ==> position_label(count, index) == ("HJ", "Hijack"),
        count >= 7 && index == count - 3 ==> position_label(count, index) == ("LJ", "Lowjack"),
        4 <= index < count - 3 ==> position_label(count, index) == if index == 4 {
            ("UTG+1", "Under the Gun +1")
        } else if index == 5 {
            ("UTG+2", "Under the Gun +2")
        } else {
            ("UTG+3", "Under the Gun +3")
        },
{
}

/// With three players the seats are the button and the two blinds; with four,
/// under the gun is the seat before the button; heads up the button posts
/// the small blind.
pub proof fn law_small_table_names(count: int, index: int)
    requires
        2 <= count <= 4,
        0 <= index < count,
    ensures
        count == 2 ==> position_label(count, index) == if index == 0 {
            ("BTN", "Small Blind / Dealer")
        } else {
            ("BB", "Big Blind")
        },
        count >= 3 && index == 0 ==> position_label(count, index) == ("BTN", "Button"),
        count >= 3 && index == 1 ==> position_label(count, index) == ("SB", "Small Blind"),
        count >= 3 && index == 2 ==> position_label(count, index) == ("BB", "Big Blind"),
        count == 4 && index == 3 ==> position_label(count, index) == ("UTG", "Under the Gun"),
{
}

} // verus!
