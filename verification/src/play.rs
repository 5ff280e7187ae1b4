use vstd::prelude::*;

use crate::bitset::Bitset;
use crate::card::{Card, Cards};
use crate::game::{
    action_player, action_street, position_label, button_offset, Action, Amount,
    Board, GameError, MilliBigBlind, Player, Seat, State, Street, street_of_index, MAX_PLAYERS,
    MAX_RUNOUTS, MIN_PLAYERS,
};
use crate::hand::Hand;
use chrono::NaiveDateTime;
use rand::rngs::ThreadRng;

use crate::deck::Deck;

verus! {

#[verifier::external_type_specification]
#[verifier::external_body]
pub struct ExNaiveDateTime(NaiveDateTime);

/// Why a game could not be set up or an operation was refused.
#[derive(Clone, Copy, Debug, PartialEq, Eq, Structural)]
pub enum PlayError {
    /// Fewer than two or more than ten players.
    PlayerCount,
    /// The button is not one of the players.
    InvalidButton,
    /// A player starts with no chips.
    EmptyStack,
    /// The starting stacks add up to more than an amount can hold.
    TotalStacksOverflow,
    /// Two players have the same name.
    DuplicatePlayerName,
    /// A player name is empty.
    EmptyPlayerName,
    /// Some players have a seat and some do not.
    SeatConfigIncomplete,
    /// A seat is beyond the table size.
    SeatTooLarge,
    /// Two players have the same seat.
    DuplicateSeat,
    /// A card is used twice among hands and boards.
    DuplicateCard,
    /// The max players value is out of range.
    InvalidMaxPlayers,
    /// The hero is not one of the players.
    InvalidHero,
    /// An action was given while the replay stands before the last action.
    NotAtFinalAction,
    /// Nobody is to act.
    NoCurrentPlayer,
    /// The player to act may not check.
    CheckNotAllowed,
    /// The player to act may not call.
    CallNotAllowed,
    /// The player to act may not bet.
    BetNotAllowed,
    /// The bet is below the minimum.
    BetTooSmall,
    /// The player to act may not raise.
    RaiseNotAllowed,
    /// The raise is below the minimum.
    RaiseTooSmall,
    /// The player cannot afford the amount.
    CannotAfford,
    /// An amount computation overflowed.
    AmountOverflow,
    /// A player index is not one of the players.
    InvalidPlayer,
    /// The operation is not allowed at this point of the hand.
    WrongState,
    /// A post or straddle breaks the posting rules.
    InvalidPost,
    /// A recorded action does not match the one replayed.
    ReplayMismatch,
    /// A hand is already set to a different hand, or is missing.
    InvalidHand,
    /// The showdown amounts do not fit the pot.
    InvalidShowdown,
    /// Replaying stored actions gave a different record.
    ActionsMismatch,
    /// A stored action was reached in a state in which what it needs is not
    /// defined (see `raise_defined`, `post_defined`, `uncalled_fits`,
    /// `deal_defined` and `deal_scan_ok`).
    UnsupportedState,
    /// Every card is already known, so none can be drawn.
    NoCardsLeft,
}

/// How a player joins a game.
#[derive(Clone, Debug)]
pub struct PlayerData {
    pub name: Option<String>,
    pub seat: Option<Seat>,
    pub hand: Option<Hand>,
    pub starting_stack: Amount,
}

impl PlayerData {
    /// A player with the given stack and no name, seat or hand.
    pub fn with_starting_stack(starting_stack: Amount) -> (p: PlayerData)
        ensures
            p.name is None,
            p.seat is None,
            p.hand is None,
            p.starting_stack == starting_stack,
    {
        PlayerData { name: None, seat: None, hand: None, starting_stack }
    }
}

/// Sum of the first `n` amounts.
pub open spec fn sum_amounts(s: Seq<Amount>, n: int) -> int
    decreases n,
{
    if n <= 0 {
        0
    } else {
        sum_amounts(s, n - 1) + s[n - 1].value()
    }
}

/// The cards of the first `n` known hands, higher card first.
pub open spec fn hand_cards(hands: Seq<Option<Hand>>, n: int) -> Seq<Card>
    decreases n,
{
    if n <= 0 {
        Seq::empty()
    } else {
        match hands[n - 1] {
            Some(h) => hand_cards(hands, n - 1).push(h.0).push(h.1),
            None => hand_cards(hands, n - 1),
        }
    }
}

/// The hand cards of the first `m` players depend only on their hands.
proof fn lemma_hand_cards_same(a: Seq<Option<Hand>>, b: Seq<Option<Hand>>, m: int)
    requires
        forall|i: int| 0 <= i < m ==> a[i] == b[i],
    ensures
        hand_cards(a, m) == hand_cards(b, m),
    decreases m,
{
    if m > 0 {
        lemma_hand_cards_same(a, b, m - 1);
    }
}

/// The length, first and last character of each short position name.
spec fn label_code(count: int, index: int) -> (int, char, char) {
    if index == 0 {
        (3, 'B', 'N')
    } else if index == 1 {
        if count == 2 {
            (2, 'B', 'B')
        } else {
            (2, 'S', 'B')
        }
    } else if index == 2 {
        (2, 'B', 'B')
    } else if index == 3 {
        (3, 'U', 'G')
    } else if count - index == 1 {
        (2, 'C', 'O')
    } else if count - index == 2 {
        (2, 'H', 'J')
    } else if count - index == 3 {
        (2, 'L', 'J')
    } else if index == 4 {
        (5, 'U', '1')
    } else if index == 5 {
        (5, 'U', '2')
    } else {
        (5, 'U', '3')
    }
}

proof fn lemma_label_code(count: int, index: int)
    requires
        MIN_PLAYERS <= count <= MAX_PLAYERS,
        0 <= index < count,
    ensures
        ({
            let l = position_label(count, index).0@;
            &&& l.len() == label_code(count, index).0
            &&& l.len() > 0
            &&& l[0] == label_code(count, index).1
            &&& l[l.len() - 1] == label_code(count, index).2
        }),
{
    reveal_strlit("BTN");
    reveal_strlit("BB");
    reveal_strlit("SB");
    reveal_strlit("UTG");
    reveal_strlit("CO");
    reveal_strlit("HJ");
    reveal_strlit("LJ");
    reveal_strlit("UTG+1");
    reveal_strlit("UTG+2");
    reveal_strlit("UTG+3");
}

/// The short position names at a table are all different.
pub proof fn lemma_position_labels_distinct(count: int, i: int, j: int)
    requires
        MIN_PLAYERS <= count <= MAX_PLAYERS,
        0 <= i < j < count,
    ensures
        position_label(count, i).0@ != position_label(count, j).0@,
{
    lemma_label_code(count, i);
    lemma_label_code(count, j);
    assert(label_code(count, i) != label_code(count, j));
}

/// The sum of `n` equal amounts.
proof fn lemma_sum_equal_amounts(s: Seq<Amount>, n: int, d: Amount)
    requires
        0 <= n <= s.len(),
        forall|k: int| 0 <= k < n ==> s[k] == d,
    ensures
        sum_amounts(s, n) == n * d.value(),
    decreases n,
{
    if n > 0 {
        lemma_sum_equal_amounts(s, n - 1, d);
        let v = d.value();
        assert(s[n - 1] == d);
        assert(sum_amounts(s, n) == sum_amounts(s, n - 1) + s[n - 1].value());
        assert(n * v == (n - 1) * v + v) by (nonlinear_arith);
    } else {
        assert(0 * d.value() == 0);
    }
}

/// No cards are known of players without hands.
proof fn lemma_hand_cards_none(hands: Seq<Option<Hand>>, n: int)
    requires
        0 <= n <= hands.len(),
        forall|k: int| 0 <= k < n ==> hands[k] is None,
    ensures
        hand_cards(hands, n).len() == 0,
    decreases n,
{
    if n > 0 {
        lemma_hand_cards_none(hands, n - 1);
    }
}

/// Players with the same stack and nothing else, with the first on the
/// button, can start a game when the stacks add up to an amount.
pub proof fn lemma_plain_players_ok(players: Seq<PlayerData>, d: Amount)
    requires
        MIN_PLAYERS <= players.len() <= MAX_PLAYERS,
        d.value() > 0,
        players.len() * d.value() <= u32::MAX,
        forall|k: int|
            0 <= k < players.len() ==> (#[trigger] players[k]).name is None && players[k].seat is None
                && players[k].hand is None && players[k].starting_stack == d,
    ensures
        new_game_error(players, Player(0)) is None,
{
    let n = players.len() as int;
    let stacks = players.map_values(|p: PlayerData| p.starting_stack);
    lemma_sum_equal_amounts(stacks, n, d);
    assert forall|i: int, j: int| 0 <= i < j < n implies display_name(players, Player(0), i) != display_name(
        players,
        Player(0),
        j,
    ) by {
        assert((n - 0 + i) % n == i) by (nonlinear_arith)
            requires
                0 <= i < n,
        {
            assert(n + i == 1 * n + i);
        }
        assert((n - 0 + j) % n == j) by (nonlinear_arith)
            requires
                0 <= j < n,
        {
            assert(n + j == 1 * n + j);
        }
        lemma_position_labels_distinct(n, i, j);
    }
    let hands = players.map_values(|p: PlayerData| p.hand);
    lemma_hand_cards_none(hands, n);
    assert(hand_cards(hands, n) =~= Seq::<Card>::empty());
}

/// Giving player `p`, who had no hand, the hand `h` adds its two cards.
proof fn lemma_hand_cards_set(hands: Seq<Option<Hand>>, n: int, p: int, h: Hand)
    requires
        0 <= p < n <= hands.len(),
        hands[p] is None,
    ensures
        hand_cards(hands.update(p, Some(h)), n).to_multiset() == hand_cards(hands, n).to_multiset().insert(h.0).insert(
            h.1,
        ),
    decreases n,
{
    broadcast use vstd::seq_lib::to_multiset_build;
    broadcast use vstd::multiset::group_multiset_axioms;

    let u = hands.update(p, Some(h));
    if n - 1 == p {
        lemma_hand_cards_same(u, hands, n - 1);
        assert(hand_cards(u, n) == hand_cards(hands, n - 1).push(h.0).push(h.1));
        assert(hand_cards(u, n).to_multiset() =~= hand_cards(hands, n).to_multiset().insert(h.0).insert(h.1));
    } else {
        lemma_hand_cards_set(hands, n - 1, p, h);
        match hands[n - 1] {
            Some(x) => {
                assert(hand_cards(u, n).to_multiset() =~= hand_cards(hands, n).to_multiset().insert(h.0).insert(h.1));
            },
            None => {},
        }
    }
}

/// Adding two distinct new cards to cards that occur once each keeps them
/// occurring once each.
proof fn lemma_add_two_fresh(old_cards: Seq<Card>, new_cards: Seq<Card>, x: Card, y: Card)
    requires
        !crate::card::has_duplicate(old_cards),
        new_cards.to_multiset() == old_cards.to_multiset().insert(x).insert(y),
        !old_cards.contains(x),
        !old_cards.contains(y),
        x != y,
    ensures
        !crate::card::has_duplicate(new_cards),
{
    broadcast use vstd::multiset::group_multiset_axioms;

    assert(old_cards.no_duplicates());
    old_cards.lemma_multiset_has_no_duplicates();
    vstd::seq_lib::to_multiset_contains(old_cards, x);
    vstd::seq_lib::to_multiset_contains(old_cards, y);
    assert forall|c: Card| new_cards.to_multiset().contains(c) implies new_cards.to_multiset().count(c) == 1 by {
        vstd::seq_lib::to_multiset_contains(old_cards, c);
    }
    new_cards.lemma_multiset_has_no_duplicates_conv();
}

/// How many of the first `n` players have no hand.
pub open spec fn missing_hands(hands: Seq<Option<Hand>>, n: int) -> int
    decreases n,
{
    if n <= 0 {
        0
    } else {
        missing_hands(hands, n - 1) + if hands[n - 1] is None {
            1int
        } else {
            0int
        }
    }
}

/// The name shown for the player at index `i`: its own, or its position's.
pub open spec fn display_name(players: Seq<PlayerData>, button: Player, i: int) -> Seq<char> {
    match players[i].name {
        Some(n) => n@,
        None => position_label(players.len() as int, button_offset(players.len() as int, button.value(), i)).0@,
    }
}

/// The errors of setting up a game from `players`, in the order they are checked.
pub open spec fn new_game_error(players: Seq<PlayerData>, button: Player) -> Option<PlayError> {
    let n = players.len() as int;
    if n < MIN_PLAYERS || n > MAX_PLAYERS {
        Some(PlayError::PlayerCount)
    } else if button.value() >= n {
        Some(PlayError::InvalidButton)
    } else if exists|i: int| 0 <= i < n && (#[trigger] players[i]).starting_stack.value() == 0 {
        Some(PlayError::EmptyStack)
    } else if sum_amounts(players.map_values(|p: PlayerData| p.starting_stack), n) > u32::MAX {
        Some(PlayError::TotalStacksOverflow)
    } else if exists|i: int, j: int|
        0 <= i < j < n && display_name(players, button, i) == display_name(players, button, j) {
        Some(PlayError::DuplicatePlayerName)
    } else if exists|i: int|
        0 <= i < n && ((#[trigger] players[i]).name matches Some(name) && name@.len() == 0) {
        Some(PlayError::EmptyPlayerName)
    } else if (exists|i: int| 0 <= i < n && (#[trigger] players[i]).seat is Some) && (exists|i: int|
        0 <= i < n && (#[trigger] players[i]).seat is None) {
        Some(PlayError::SeatConfigIncomplete)
    } else if exists|i: int|
        0 <= i < n && ((#[trigger] players[i]).seat matches Some(s) && s.value() >= MAX_PLAYERS) {
        Some(PlayError::SeatTooLarge)
    } else if exists|i: int, j: int|
        0 <= i < j < n && players[i].seat is Some && players[i].seat == players[j].seat {
        Some(PlayError::DuplicateSeat)
    } else if crate::card::has_duplicate(
        hand_cards(players.map_values(|p: PlayerData| p.hand), n),
    ) {
        Some(PlayError::DuplicateCard)
    } else {
        None
    }
}

/// A hand of Texas Hold'em: the players, the actions so far and where the
/// replay of those actions currently stands.
#[derive(Clone, Debug)]
pub struct Game {
    pub(crate) player_count: u8,
    pub(crate) button: Player,
    pub(crate) small_blind: Amount,
    pub(crate) big_blind: Amount,
    pub(crate) starting_stacks: Vec<Amount>,
    pub(crate) names: Vec<Option<String>>,
    pub(crate) seats: Vec<Seat>,
    pub(crate) unit: Option<String>,
    pub(crate) max_players: Option<u8>,
    pub(crate) location: Option<String>,
    pub(crate) table_name: Option<String>,
    pub(crate) hand_name: Option<String>,
    pub(crate) date: Option<NaiveDateTime>,
    pub(crate) additional_metadata: Vec<(String, String)>,
    pub(crate) hero: Option<Player>,
    pub(crate) hands: Vec<Option<Hand>>,
    pub(crate) actions: Vec<Action>,
    pub(crate) boards: Vec<Board>,
    pub(crate) current_board: usize,
    pub(crate) reference_stacks: Vec<Amount>,
    pub(crate) stacks_in_street: Vec<Amount>,
    pub(crate) showdown_stacks: Vec<Amount>,
    pub(crate) current_street_index: usize,
    pub(crate) current_action_index: usize,
    pub(crate) current_player: Option<Player>,
    pub(crate) not_folded: Bitset<2>,
    pub(crate) hand_shown: Bitset<2>,
    pub(crate) hand_mucked: Bitset<2>,
    pub(crate) at_end: bool,
}

impl Game {
    /// Number of players.
    pub closed spec fn pc(self) -> int {
        self.player_count as int
    }

    pub closed spec fn button_player(self) -> Player {
        self.button
    }

    pub closed spec fn small_blind_amount(self) -> Amount {
        self.small_blind
    }

    pub closed spec fn big_blind_amount(self) -> Amount {
        self.big_blind
    }

    /// All recorded actions, including those after the replay position.
    pub closed spec fn action_log(self) -> Seq<Action> {
        self.actions@
    }

    /// The replay stands within the action log: the actions seen so far are
    /// a prefix of it.
    pub proof fn lemma_replay_within(self)
        requires
            self.wf(),
        ensures
            0 <= self.replay_index() <= self.action_log().len(),
    {
    }

    /// Position of the replay in the action log.
    pub closed spec fn replay_index(self) -> int {
        self.current_action_index as int
    }

    pub closed spec fn player_now(self) -> Option<Player> {
        self.current_player
    }

    pub closed spec fn hand_at(self, i: int) -> Option<Hand> {
        self.hands@[i]
    }

    pub closed spec fn name_at(self, i: int) -> Option<String> {
        self.names@[i]
    }

    pub closed spec fn seat_at(self, i: int) -> Seat {
        self.seats@[i]
    }

    /// Index of the street of the current runout.
    pub closed spec fn street_idx(self) -> int {
        self.boards@[self.current_board as int].street_of().index()
    }

    /// Stack of player `p` in street `s`.
    pub closed spec fn stk(self, s: int, p: int) -> int {
        self.stacks_in_street@[s * 10 + p].value()
    }

    /// Stack of `p` at the start of the hand, minus dead posts.
    pub closed spec fn reference(self, p: int) -> int {
        self.reference_stacks@[p].value()
    }

    /// Starting stack of `p`.
    pub closed spec fn starting(self, p: int) -> int {
        self.starting_stacks@[p].value()
    }

    /// Stack of `p` in the current street.
    pub closed spec fn cur(self, p: int) -> int {
        self.stk(self.street_idx(), p)
    }

    /// Stack of `p` before the current street.
    pub closed spec fn prev(self, p: int) -> int {
        if self.street_idx() == 0 {
            self.reference(p)
        } else {
            self.stk(self.street_idx() - 1, p)
        }
    }

    /// Chips `p` put in so far, not counting dead posts.
    pub closed spec fn inv(self, p: int) -> int {
        self.reference(p) - self.cur(p)
    }

    /// Chips `p` put in so far, counting dead posts.
    pub closed spec fn total_inv(self, p: int) -> int {
        self.starting(p) - self.cur(p)
    }

    /// Sum of `total_inv` over the first `n` players.
    pub closed spec fn pot_upto(self, n: int) -> int
        decreases n,
    {
        if n <= 0 {
            0
        } else {
            self.pot_upto(n - 1) + self.total_inv(n - 1)
        }
    }

    /// The whole pot.
    pub closed spec fn pot(self) -> int {
        self.pot_upto(self.pc())
    }

    /// Sum of the starting stacks of the first `n` players.
    pub closed spec fn starting_upto(self, n: int) -> int
        decreases n,
    {
        if n <= 0 {
            0
        } else {
            self.starting_upto(n - 1) + self.starting(n - 1)
        }
    }

    /// Sum of the current stacks of the first `n` players.
    pub closed spec fn cur_upto(self, n: int) -> int
        decreases n,
    {
        if n <= 0 {
            0
        } else {
            self.cur_upto(n - 1) + self.cur(n - 1)
        }
    }

    /// Largest investment among the first `n` players (at least 0).
    pub closed spec fn max_inv_upto(self, n: int) -> int
        decreases n,
    {
        if n <= 0 {
            0
        } else {
            let m = self.max_inv_upto(n - 1);
            if self.inv(n - 1) > m {
                self.inv(n - 1)
            } else {
                m
            }
        }
    }

    /// Largest investment of any player.
    pub closed spec fn max_inv(self) -> int {
        self.max_inv_upto(self.pc())
    }

    /// Whether `p` has not folded.
    pub closed spec fn in_hand(self, p: int) -> bool {
        self.not_folded.contains(p)
    }

    /// The invariant every game keeps.
    pub closed spec fn wf(self) -> bool {
        &&& 2 <= self.player_count <= 10
        &&& self.button.value() < self.pc()
        &&& self.starting_stacks@.len() == 10
        &&& self.reference_stacks@.len() == 10
        &&& self.showdown_stacks@.len() == 10
        &&& self.names@.len() == 10
        &&& self.seats@.len() == 10
        &&& self.hands@.len() == 10
        &&& self.stacks_in_street@.len() == 40
        &&& self.boards@.len() == 4
        &&& self.current_board < 4
        &&& self.current_action_index <= self.actions@.len()
        &&& self.current_street_index <= self.current_action_index
        &&& (self.current_street_index == 0 || action_street(
            self.actions@[self.current_street_index - 1],
        ) is Some)
        &&& (self.current_player matches Some(p) ==> p.value() < self.pc())
        &&& (forall|i: int|
            0 <= i < self.actions@.len() ==> (action_player(#[trigger] self.actions@[i]) matches Some(
                q,
            ) ==> q.value() < self.pc()))
        &&& (self.hero matches Some(h) ==> h.value() < self.pc())
        &&& (self.max_players matches Some(m) ==> self.pc() <= m <= 10)
        &&& (forall|p: int| 0 <= p < 10 ==> #[trigger] self.reference(p) <= self.starting(p))
        &&& (forall|s: int, p: int|
            0 <= s <= self.street_idx() && 0 <= p < 10 ==> #[trigger] self.stk(s, p) <= if s == 0 {
                self.reference(p)
            } else {
                self.stk(s - 1, p)
            })
        &&& self.starting_upto(self.pc()) <= u32::MAX
        &&& (forall|p: int| 0 <= p < self.pc() ==> #[trigger] self.starting(p) > 0)
        &&& (self.current_action_index == 0 ==> self.fresh())
        &&& (forall|i: int| #[trigger] self.not_folded.contains(i) ==> 0 <= i < self.pc())
        &&& (forall|i: int| #[trigger] self.hand_shown.contains(i) ==> 0 <= i < self.pc())
        &&& (forall|i: int| #[trigger] self.hand_mucked.contains(i) ==> 0 <= i < self.pc())
    }

    /// The state before the first post: pre flop on the first board, nobody to
    /// act, everybody in the hand with the full starting stack.
    pub closed spec fn fresh(self) -> bool {
        &&& self.current_board == 0
        &&& self.boards@[0].street_of() == Street::PreFlop
        &&& self.current_street_index == 0
        &&& self.current_player is None
        &&& !self.at_end
        &&& forall|p: int|
            0 <= p < self.pc() ==> #[trigger] self.in_hand(p) && self.reference(p) == self.starting(p)
                && self.stk(0, p) == self.starting(p)
    }

    proof fn lemma_stack_chain(self, s: int, p: int)
        requires
            self.wf(),
            0 <= s <= self.street_idx(),
            0 <= p < 10,
        ensures
            self.stk(s, p) <= self.reference(p),
        decreases s,
    {
        if s > 0 {
            self.lemma_stack_chain(s - 1, p);
        }
    }

    /// Current stacks never exceed the stacks before the street, the reference
    /// stacks or the starting stacks.
    pub proof fn lemma_stacks_ordered(self, p: int)
        requires
            self.wf(),
            0 <= p < 10,
        ensures
            0 <= self.cur(p) <= self.prev(p) <= self.reference(p) <= self.starting(p),
    {
        self.boards@[self.current_board as int].street_of();
        assert(0 <= self.street_idx() < 4);
        self.lemma_stack_chain(self.street_idx(), p);
        if self.street_idx() > 0 {
            self.lemma_stack_chain(self.street_idx() - 1, p);
        }
    }

    proof fn lemma_pot_upto_bound(self, n: int)
        requires
            self.wf(),
            0 <= n <= 10,
        ensures
            0 <= self.pot_upto(n) <= self.starting_upto(n),
            self.pot_upto(n) + self.cur_upto(n) == self.starting_upto(n),
        decreases n,
    {
        if n > 0 {
            self.lemma_pot_upto_bound(n - 1);
            self.lemma_stacks_ordered(n - 1);
        }
    }

    proof fn lemma_starting_upto_mono(self, a: int, b: int)
        requires
            self.wf(),
            0 <= a <= b <= 10,
        ensures
            self.starting_upto(a) <= self.starting_upto(b),
        decreases b - a,
    {
        if a < b {
            self.lemma_starting_upto_mono(a, b - 1);
        }
    }
}

proof fn lemma_sum_amounts_mono(s: Seq<Amount>, a: int, b: int)
    requires
        0 <= a <= b <= s.len(),
    ensures
        sum_amounts(s, a) <= sum_amounts(s, b),
    decreases b - a,
{
    if a < b {
        lemma_sum_amounts_mono(s, a, b - 1);
    }
}

fn display_name_exec(players: &[PlayerData], button: Player, i: usize) -> (name: String)
    requires
        2 <= players@.len() <= MAX_PLAYERS,
        button.value() < players@.len(),
        i < players@.len(),
    ensures
        name@ == display_name(players@, button, i as int),
{
    match &players[i].name {
        Some(n) => n.clone(),
        None => {
            let n = players.len();
            let label = Game::position_name(n, button, Player(i as u8));
            match label {
                Some(l) => String::from_str(l.0),
                None => {
                    assert(false);
                    String::new()
                },
            }
        },
    }
}

/// Whether some name occurs twice among the first `n` display names.
fn names_have_duplicate(names: &Vec<String>) -> (r: bool)
    ensures
        r == exists|i: int, j: int| 0 <= i < j < names@.len() && names@[i]@ == names@[j]@,
{
    let mut j: usize = 0;
    while j < names.len()
        invariant
            j <= names@.len(),
            forall|a: int, b: int| 0 <= a < b < j ==> names@[a]@ != names@[b]@,
        decreases names@.len() - j,
    {
        let mut i: usize = 0;
        while i < j
            invariant
                i <= j < names@.len(),
                forall|a: int, b: int| 0 <= a < b < j ==> names@[a]@ != names@[b]@,
                forall|a: int| 0 <= a < i ==> names@[a]@ != names@[j as int]@,
            decreases j - i,
        {
            if names[i] == names[j] {
                return true;
            }
            i = i + 1;
        }
        j = j + 1;
    }
    false
}

/// Checks the starting stacks: none empty, and their total fits an amount.
#[verifier::loop_isolation(false)]
fn check_stacks(players: &[PlayerData]) -> (r: Result<(), PlayError>)
    requires
        players@.len() <= MAX_PLAYERS,
    ensures
        r == if exists|i: int|
            0 <= i < players@.len() && (#[trigger] players@[i]).starting_stack.value() == 0 {
            Err(PlayError::EmptyStack)
        } else if sum_amounts(players@.map_values(|p: PlayerData| p.starting_stack), players@.len() as int)
            > u32::MAX {
            Err(PlayError::TotalStacksOverflow)
        } else {
            Ok(())
        },
{
    let n = players.len();
    let ghost stacks_seq = players@.map_values(|p: PlayerData| p.starting_stack);
    let mut i: usize = 0;
    while i < n
        invariant
            i <= n,
            forall|k: int| 0 <= k < i ==> (#[trigger] players@[k]).starting_stack.value() != 0,
        decreases n - i,
    {
        if players[i].starting_stack.0 == 0 {
            proof {
                assert(players@[i as int].starting_stack.value() == 0);
            }
            return Err(PlayError::EmptyStack);
        }
        i = i + 1;
    }
    let mut total: u32 = 0;
    let mut i: usize = 0;
    while i < n
        invariant
            i <= n,
            total == sum_amounts(stacks_seq, i as int),
        decreases n - i,
    {
        match total.checked_add(players[i].starting_stack.0) {
            Some(t) => total = t,
            None => {
                proof {
                    assert(stacks_seq[i as int] == players@[i as int].starting_stack);
                    lemma_sum_amounts_mono(stacks_seq, i + 1, n as int);
                }
                return Err(PlayError::TotalStacksOverflow);
            },
        }
        i = i + 1;
    }
    Ok(())
}

/// Checks the names: display names distinct, and no empty name.
#[verifier::loop_isolation(false)]
fn check_names(players: &[PlayerData], button: Player) -> (r: Result<(), PlayError>)
    requires
        2 <= players@.len() <= MAX_PLAYERS,
        button.value() < players@.len(),
    ensures
        r == if exists|i: int, j: int|
            0 <= i < j < players@.len() && display_name(players@, button, i) == display_name(
                players@,
                button,
                j,
            ) {
            Err(PlayError::DuplicatePlayerName)
        } else if exists|i: int|
            0 <= i < players@.len() && ((#[trigger] players@[i]).name matches Some(name)
                && name@.len() == 0) {
            Err(PlayError::EmptyPlayerName)
        } else {
            Ok(())
        },
{
    let n = players.len();
    let mut display: Vec<String> = Vec::new();
    let mut i: usize = 0;
    while i < n
        invariant
            i <= n,
            display@.len() == i,
            forall|k: int| 0 <= k < i ==> (#[trigger] display@[k])@ == display_name(players@, button, k),
        decreases n - i,
    {
        display.push(display_name_exec(players, button, i));
        i = i + 1;
    }
    if names_have_duplicate(&display) {
        proof {
            let (a, b) = choose|a: int, b: int| 0 <= a < b < display@.len() && display@[a]@ == display@[b]@;
            assert(display_name(players@, button, a) == display_name(players@, button, b));
        }
        return Err(PlayError::DuplicatePlayerName);
    }
    assert(!exists|a: int, b: int|
        0 <= a < b < n && display_name(players@, button, a) == display_name(players@, button, b)) by {
        if exists|a: int, b: int|
            0 <= a < b < n && display_name(players@, button, a) == display_name(players@, button, b) {
            let (a, b) = choose|a: int, b: int|
                0 <= a < b < n && display_name(players@, button, a) == display_name(players@, button, b);
            assert(display@[a]@ == display@[b]@);
        }
    }
    let mut i: usize = 0;
    while i < n
        invariant
            i <= n,
            forall|k: int| 0 <= k < i ==> !((#[trigger] players@[k]).name matches Some(name) && name@.len() == 0),
        decreases n - i,
    {
        match &players[i].name {
            Some(name) => {
                if name.as_str().is_empty() {
                    proof {
                        assert(players@[i as int].name matches Some(nm) && nm@.len() == 0);
                    }
                    return Err(PlayError::EmptyPlayerName);
                }
            },
            None => {},
        }
        i = i + 1;
    }
    Ok(())
}

/// The seat of each player: the configured seats, or the player indices when none is configured.
#[verifier::loop_isolation(false)]
fn build_seats(players: &[PlayerData]) -> (r: Result<Vec<Seat>, PlayError>)
    requires
        players@.len() <= MAX_PLAYERS,
    ensures
        r is Err ==> r == if (exists|i: int| 0 <= i < players@.len() && (#[trigger] players@[i]).seat is Some) && (
            exists|i: int| 0 <= i < players@.len() && (#[trigger] players@[i]).seat is None) {
            Err::<Vec<Seat>, PlayError>(PlayError::SeatConfigIncomplete)
        } else if exists|i: int|
            0 <= i < players@.len() && ((#[trigger] players@[i]).seat matches Some(s) && s.value()
                >= MAX_PLAYERS) {
            Err::<Vec<Seat>, PlayError>(PlayError::SeatTooLarge)
        } else {
            Err::<Vec<Seat>, PlayError>(PlayError::DuplicateSeat)
        },
        r is Err <==> ((exists|i: int| 0 <= i < players@.len() && (#[trigger] players@[i]).seat is Some) && (
            exists|i: int| 0 <= i < players@.len() && (#[trigger] players@[i]).seat is None)) || (
            exists|i: int|
            0 <= i < players@.len() && ((#[trigger] players@[i]).seat matches Some(s) && s.value()
                >= MAX_PLAYERS)) || (exists|i: int, j: int|
            0 <= i < j < players@.len() && players@[i].seat is Some && players@[i].seat
                == players@[j].seat),
        r matches Ok(v) ==> v@.len() == MAX_PLAYERS && forall|i: int|
            0 <= i < players@.len() ==> (#[trigger] v@[i]) == match players@[i].seat {
                Some(s) => s,
                None => Seat(i as u8),
            },
{
    let n = players.len();
    let mut seat_count: usize = 0;
    let mut i: usize = 0;
    while i < n
        invariant
            i <= n,
            seat_count <= i,
            seat_count == 0 ==> forall|k: int| 0 <= k < i ==> (#[trigger] players@[k]).seat is None,
            seat_count == i ==> forall|k: int| 0 <= k < i ==> (#[trigger] players@[k]).seat is Some,
            (0 < seat_count < i) ==> (exists|k: int| 0 <= k < i && (#[trigger] players@[k]).seat is Some) && (exists|k: int| 0 <= k < i && (#[trigger] players@[k]).seat is None),
        decreases n - i,
    {
        if players[i].seat.is_some() {
            seat_count = seat_count + 1;
        }
        proof {
            if seat_count == 1 && players@[i as int].seat is Some && i > 0 {
                assert(players@[0].seat is None);
            }
            if 0 < seat_count && players@[i as int].seat is None && seat_count == i {
                assert(players@[0].seat is Some);
            }
        }
        i = i + 1;
    }
    let mut seats: Vec<Seat> = Vec::new();
    let mut i: usize = 0;
    while i < MAX_PLAYERS
        invariant
            i <= MAX_PLAYERS,
            seats@.len() == i,
            forall|k: int| 0 <= k < i ==> (#[trigger] seats@[k]) == Seat(k as u8),
        decreases MAX_PLAYERS - i,
    {
        seats.push(Seat(i as u8));
        i = i + 1;
    }
    if seat_count == 0 {
        assert(!(exists|k: int| 0 <= k < n && (#[trigger] players@[k]).seat is Some));
        return Ok(seats);
    }
    if seat_count != n {
        return Err(PlayError::SeatConfigIncomplete);
    }
    assert(!(exists|k: int| 0 <= k < n && (#[trigger] players@[k]).seat is None));
    let mut i: usize = 0;
    while i < n
        invariant
            i <= n,
            forall|k: int| 0 <= k < i ==> !((#[trigger] players@[k]).seat matches Some(s) && s.value() >= MAX_PLAYERS),
        decreases n - i,
    {
        match players[i].seat {
            Some(s) => {
                if s.0 as usize >= MAX_PLAYERS {
                    proof {
                        assert(players@[i as int].seat matches Some(st) && st.value() >= MAX_PLAYERS);
                    }
                    return Err(PlayError::SeatTooLarge);
                }
            },
            None => {},
        }
        i = i + 1;
    }
    let mut j: usize = 0;
    while j < n
        invariant
            j <= n,
            forall|a: int, b: int| 0 <= a < b < j ==> players@[a].seat != players@[b].seat,
        decreases n - j,
    {
        let mut i: usize = 0;
        while i < j
            invariant
                i <= j < n,
                forall|a: int, b: int| 0 <= a < b < j ==> players@[a].seat != players@[b].seat,
                forall|a: int| 0 <= a < i ==> players@[a].seat != players@[j as int].seat,
            decreases j - i,
        {
            let si = players[i].seat.unwrap();
            let sj = players[j].seat.unwrap();
            if si.0 == sj.0 {
                proof {
                    assert(players@[i as int].seat == players@[j as int].seat);
                }
                return Err(PlayError::DuplicateSeat);
            }
            i = i + 1;
        }
        j = j + 1;
    }
    let mut i: usize = 0;
    while i < n
        invariant
            i <= n,
            seats@.len() == MAX_PLAYERS,
            forall|k: int| 0 <= k < i ==> (#[trigger] seats@[k]) == players@[k].seat->Some_0,
            forall|k: int| i <= k < MAX_PLAYERS ==> (#[trigger] seats@[k]) == Seat(k as u8),
        decreases n - i,
    {
        seats.set(i, players[i].seat.unwrap());
        i = i + 1;
    }
    Ok(seats)
}

/// Whether a card appears in two of the given hands.
#[verifier::loop_isolation(false)]
fn hands_have_duplicate(players: &[PlayerData]) -> (r: bool)
    ensures
        r == crate::card::has_duplicate(
            hand_cards(players@.map_values(|p: PlayerData| p.hand), players@.len() as int),
        ),
{
    let n = players.len();
    let ghost hands_seq = players@.map_values(|p: PlayerData| p.hand);
    let mut known: Vec<Card> = Vec::new();
    let mut i: usize = 0;
    while i < n
        invariant
            i <= n,
            known@ == hand_cards(hands_seq, i as int),
        decreases n - i,
    {
        match players[i].hand {
            Some(h) => {
                known.push(h.0);
                known.push(h.1);
            },
            None => {},
        }
        i = i + 1;
    }
    Cards::from_slice(known.as_slice()).is_none()
}

impl Game {
    /// The showdown stacks are those given, or all zero when none are given.
    pub open spec fn showdown_matches(self, stacks: Option<Vec<Amount>>) -> bool {
        match stacks {
            Some(v) => forall|p: int| 0 <= p < self.pc() ==> self.showdown_stack(p) == v@[p].value(),
            None => forall|p: int| 0 <= p < 10 ==> self.showdown_stack(p) == 0,
        }
    }

    proof fn lemma_showdown_matches_same(a: Game, b: Game, stacks: Option<Vec<Amount>>)
        requires
            a.showdown_stacks@ == b.showdown_stacks@,
            a.player_count == b.player_count,
            a.showdown_matches(stacks),
        ensures
            b.showdown_matches(stacks),
    {
        assert(a.pc() == b.pc());
        assert forall|p: int| 0 <= p < 10 implies a.showdown_stack(p) == b.showdown_stack(p) by {}
        match stacks {
            Some(v) => {
                assert forall|p: int| 0 <= p < b.pc() implies b.showdown_stack(p) == v@[p].value() by {
                    assert(a.showdown_stack(p) == b.showdown_stack(p));
                }
            },
            None => {
                assert forall|p: int| 0 <= p < 10 implies b.showdown_stack(p) == 0 by {
                    assert(a.showdown_stack(p) == b.showdown_stack(p));
                }
            },
        }
    }

    /// The game's players are `players`, in order: their names, hands,
    /// starting stacks, and seats (the index where no seat is given).
    pub open spec fn holds_players(self, players: Seq<PlayerData>) -> bool {
        &&& self.pc() == players.len()
        &&& forall|i: int|
            0 <= i < players.len() ==> {
                &&& self.name_at(i) == (#[trigger] players[i]).name
                &&& self.hand_at(i) == players[i].hand
                &&& self.starting(i) == players[i].starting_stack.value()
                &&& self.seat_at(i) == match players[i].seat {
                    Some(s) => s,
                    None => Seat(i as u8),
                }
            }
    }

    /// What a game that `new` makes of `players`, `button` and the blinds is:
    /// the players and their stacks as given, nothing played, no hero.
    pub open spec fn opens(self, players: Seq<PlayerData>, button: Player, small_blind: Amount, big_blind: Amount) -> bool {
        &&& self.wf()
        &&& self.pc() == players.len()
        &&& self.holds_players(players)
        &&& self.button_player() == button
        &&& self.small_blind_amount() == small_blind
        &&& self.big_blind_amount() == big_blind
        &&& self.action_log().len() == 0
        &&& self.replay_index() == 0
        &&& self.blinds_ok(false)
        &&& self.state_spec() == State::Post
        &&& self.player_now() is None
        &&& self.hero_of() is None
        &&& self.max_players_of() is None
        &&& self.pot() == 0
        &&& self.street_idx() == 0
        &&& forall|p: int| 0 <= p < 10 ==> self.showdown_stack(p) == 0
        &&& forall|i: int| 0 <= i < players.len() ==> self.starting(i) == (
        #[trigger] players[i]).starting_stack.value() && self.cur(i) == self.starting(i)
            && self.reference(i) == self.starting(i) && self.hand_at(i) == players[i].hand
            && self.name_at(i) == players[i].name && self.in_hand(i)
    }

    /// Sets up a hand for the given players, with `button` on the button.
    #[verifier::loop_isolation(false)]
    pub fn new(players: &[PlayerData], button: Player, small_blind: Amount, big_blind: Amount) -> (r:
        Result<Game, PlayError>)
        ensures
            match new_game_error(players@, button) {
                Some(e) => r == Err::<Game, PlayError>(e),
                None => r is Ok,
            },
            r matches Ok(g) ==> g.opens(players@, button, small_blind, big_blind),
    {
        let n = players.len();
        if n < MIN_PLAYERS || n > MAX_PLAYERS {
            return Err(PlayError::PlayerCount);
        }
        if button.to_usize() >= n {
            return Err(PlayError::InvalidButton);
        }
        let ghost stacks_seq = players@.map_values(|p: PlayerData| p.starting_stack);
        match check_stacks(players) {
            Ok(()) => {},
            Err(e) => return Err(e),
        }
        match check_names(players, button) {
            Ok(()) => {},
            Err(e) => return Err(e),
        }
        let seats = match build_seats(players) {
            Ok(v) => v,
            Err(e) => return Err(e),
        };
        if hands_have_duplicate(players) {
            return Err(PlayError::DuplicateCard);
        }
        assert(new_game_error(players@, button) is None);
        let g = Game::build(players, button, small_blind, big_blind, seats);
        proof {
            lemma_pot_zero_fresh(g, g.pc());
        }
        Ok(g)
    }

    #[verifier::loop_isolation(false)]
    fn build(players: &[PlayerData], button: Player, small_blind: Amount, big_blind: Amount, seats: Vec<Seat>) -> (g: Game)
        requires
            2 <= players@.len() <= MAX_PLAYERS,
            button.value() < players@.len(),
            seats@.len() == MAX_PLAYERS,
            sum_amounts(players@.map_values(|p: PlayerData| p.starting_stack), players@.len() as int) <= u32::MAX,
            forall|i: int| 0 <= i < players@.len() ==> (#[trigger] players@[i]).starting_stack.value() > 0,
        ensures
            g.wf(),
            g.pc() == players@.len(),
            g.button_player() == button,
            g.small_blind_amount() == small_blind,
            g.big_blind_amount() == big_blind,
            g.action_log().len() == 0,
            g.player_now() is None,
            g.street_idx() == 0,
            forall|i: int| 0 <= i < players@.len() ==> g.starting(i) == (
            #[trigger] players@[i]).starting_stack.value() && g.cur(i) == g.starting(i)
                && g.reference(i) == g.starting(i) && g.hand_at(i) == players@[i].hand
                && g.name_at(i) == players@[i].name && g.in_hand(i),
            g.seats@ == seats@,
            g.hero_of() is None,
            g.max_players_of() is None,
            g.replay_index() == 0,
            g.fresh(),
            forall|p: int| 0 <= p < 10 ==> g.showdown_stack(p) == 0,
    {
        let n = players.len();
        let ghost stacks_seq = players@.map_values(|p: PlayerData| p.starting_stack);
        // Build the game.
        let mut starting_stacks: Vec<Amount> = Vec::new();
        let mut names: Vec<Option<String>> = Vec::new();
        let mut hands: Vec<Option<Hand>> = Vec::new();
        let mut showdown_stacks: Vec<Amount> = Vec::new();
        let mut i: usize = 0;
        while i < MAX_PLAYERS
            invariant
                i <= MAX_PLAYERS,
                n == players@.len(),
                2 <= n <= MAX_PLAYERS,
                starting_stacks@.len() == i,
                names@.len() == i,
                hands@.len() == i,
                showdown_stacks@.len() == i,
                forall|k: int| 0 <= k < i ==> (#[trigger] showdown_stacks@[k]).value() == 0,
                forall|k: int| 0 <= k < i && k < n ==> (#[trigger] starting_stacks@[k]) == players@[k].starting_stack,
                forall|k: int| 0 <= k < i && k < n ==> (#[trigger] names@[k]) == players@[k].name,
                forall|k: int| 0 <= k < i && k < n ==> (#[trigger] hands@[k]) == players@[k].hand,
                forall|k: int| 0 <= k < i && k >= n ==> (#[trigger] starting_stacks@[k]).value() == 0,
            decreases MAX_PLAYERS - i,
        {
            if i < n {
                starting_stacks.push(players[i].starting_stack);
                let nm = match &players[i].name {
                    Some(x) => Some(x.clone()),
                    None => None,
                };
                names.push(nm);
                hands.push(players[i].hand);
            } else {
                starting_stacks.push(Amount(0));
                names.push(None);
                hands.push(None);
            }
            showdown_stacks.push(Amount(0));
            i = i + 1;
        }
        let mut stacks_in_street: Vec<Amount> = Vec::new();
        let mut k: usize = 0;
        while k < 4 * MAX_PLAYERS
            invariant
                k <= 4 * MAX_PLAYERS,
                starting_stacks@.len() == MAX_PLAYERS,
                stacks_in_street@.len() == k,
                forall|j: int| 0 <= j < k ==> #[trigger] stacks_in_street@[j] == starting_stacks@[j % 10],
            decreases 4 * MAX_PLAYERS - k,
        {
            stacks_in_street.push(starting_stacks[k % MAX_PLAYERS]);
            k = k + 1;
        }
        let mut boards: Vec<Board> = Vec::new();
        let mut k: usize = 0;
        while k < MAX_RUNOUTS
            invariant
                k <= MAX_RUNOUTS,
                boards@.len() == k,
                forall|j: int| 0 <= j < k ==> (#[trigger] boards@[j]).street_of() == Street::PreFlop,
            decreases MAX_RUNOUTS - k,
        {
            boards.push(Board::empty());
            k = k + 1;
        }
        let reference_stacks = starting_stacks.clone();
        let g = Game {
            player_count: n as u8,
            button,
            small_blind,
            big_blind,
            starting_stacks,
            names,
            seats,
            unit: None,
            max_players: None,
            location: None,
            table_name: None,
            hand_name: None,
            date: None,
            additional_metadata: Vec::new(),
            hero: None,
            hands,
            actions: Vec::new(),
            boards,
            current_board: 0,
            reference_stacks,
            stacks_in_street,
            showdown_stacks,
            current_street_index: 0,
            current_action_index: 0,
            current_player: None,
            not_folded: Bitset::ones(n),
            hand_shown: Bitset::empty(),
            hand_mucked: Bitset::empty(),
            at_end: false,
        };
        proof {
            assert(g.reference_stacks@ =~= g.starting_stacks@);
            assert(g.street_idx() == 0);
            assert forall|s: int, p: int|
                0 <= s <= g.street_idx() && 0 <= p < 10 implies #[trigger] g.stk(s, p) <= if s == 0 {
                    g.reference(p)
                } else {
                    g.stk(s - 1, p)
                } by {
                assert(g.stacks_in_street@[s * 10 + p] == g.starting_stacks@[(s * 10 + p) % 10]);
                assert((s * 10 + p) % 10 == p);
            }
            assert forall|i: int| 0 <= i < players@.len() implies g.cur(i) == g.starting(i) by {
                assert(g.stacks_in_street@[0 * 10 + i] == g.starting_stacks@[(0 * 10 + i) % 10]);
            }
            lemma_starting_matches(g, players@, stacks_seq, n as int);
        }
        g
    }
}

proof fn lemma_starting_upto_eq(a: Game, b: Game, n: int)
    requires
        a.starting_stacks@ == b.starting_stacks@,
    ensures
        a.starting_upto(n) == b.starting_upto(n),
    decreases n,
{
    if n > 0 {
        lemma_starting_upto_eq(a, b, n - 1);
    }
}

proof fn lemma_starting_matches(g: Game, players: Seq<PlayerData>, stacks_seq: Seq<Amount>, n: int)
    requires
        0 <= n <= players.len(),
        players.len() <= 10,
        g.starting_stacks@.len() == 10,
        stacks_seq == players.map_values(|p: PlayerData| p.starting_stack),
        forall|k: int| 0 <= k < players.len() ==> (#[trigger] g.starting_stacks@[k]) == players[k].starting_stack,
    ensures
        g.starting_upto(n) == sum_amounts(stacks_seq, n),
    decreases n,
{
    if n > 0 {
        lemma_starting_matches(g, players, stacks_seq, n - 1);
    }
}

impl Game {
    fn stack_at(&self, s: usize, p: usize) -> (a: Amount)
        requires
            self.wf(),
            s < 4,
            p < 10,
        ensures
            a.value() == self.stk(s as int, p as int),
    {
        self.stacks_in_street[s * MAX_PLAYERS + p]
    }

    fn street_index(&self) -> (s: usize)
        requires
            self.wf(),
        ensures
            s == self.street_idx(),
            s < 4,
    {
        self.boards[self.current_board].street().to_usize()
    }

    /// Number of players.
    pub fn player_count(&self) -> (n: usize)
        requires
            self.wf(),
        ensures
            n == self.pc(),
            2 <= n <= MAX_PLAYERS,
    {
        self.player_count as usize
    }

    pub fn button(&self) -> (p: Player)
        ensures
            p == self.button_player(),
    {
        self.button
    }

    pub fn small_blind(&self) -> (a: Amount)
        ensures
            a == self.small_blind_amount(),
    {
        self.small_blind
    }

    pub fn big_blind(&self) -> (a: Amount)
        ensures
            a == self.big_blind_amount(),
    {
        self.big_blind
    }

    pub closed spec fn unit_of(self) -> Option<String> {
        self.unit
    }

    pub closed spec fn location_of(self) -> Option<String> {
        self.location
    }

    pub closed spec fn table_name_of(self) -> Option<String> {
        self.table_name
    }

    pub closed spec fn hand_name_of(self) -> Option<String> {
        self.hand_name
    }

    pub closed spec fn date_of(self) -> Option<NaiveDateTime> {
        self.date
    }

    /// Extra data of the hand: keys with their values written as JSON.
    pub closed spec fn metadata_of(self) -> Seq<(String, String)> {
        self.additional_metadata@
    }

    pub closed spec fn max_players_of(self) -> Option<u8> {
        self.max_players
    }

    pub closed spec fn hero_of(self) -> Option<Player> {
        self.hero
    }

    /// Everything but the descriptive data (unit, location, names, hero, max players) is the same.
    /// The players' names and seats are the same.
    pub closed spec fn same_people(self, other: Game) -> bool {
        &&& self.names@ == other.names@
        &&& self.seats@ == other.seats@
    }

    pub closed spec fn same_play(self, other: Game) -> bool {
        &&& self.player_count == other.player_count
        &&& self.button == other.button
        &&& self.small_blind == other.small_blind
        &&& self.big_blind == other.big_blind
        &&& self.starting_stacks@ == other.starting_stacks@
        &&& self.hands@ == other.hands@
        &&& self.actions@ == other.actions@
        &&& self.boards@ == other.boards@
        &&& self.current_board == other.current_board
        &&& self.reference_stacks@ == other.reference_stacks@
        &&& self.stacks_in_street@ == other.stacks_in_street@
        &&& self.showdown_stacks@ == other.showdown_stacks@
        &&& self.current_street_index == other.current_street_index
        &&& self.current_action_index == other.current_action_index
        &&& self.current_player == other.current_player
        &&& self.not_folded == other.not_folded
        &&& self.hand_shown == other.hand_shown
        &&& self.hand_mucked == other.hand_mucked
        &&& self.at_end == other.at_end
    }

    #[verifier::spinoff_prover]
    proof fn lemma_wf_same_play(a: Game, b: Game)
        requires
            a.wf(),
            b.same_play(a),
            b.names@.len() == 10,
            b.seats@.len() == 10,
            b.hero matches Some(h) ==> h.value() < b.pc(),
            b.max_players matches Some(m) ==> b.pc() <= m <= 10,
        ensures
            b.wf(),
    {
        assert(b.street_idx() == a.street_idx());
        assert forall|p: int| 0 <= p < 10 implies #[trigger] b.reference(p) <= b.starting(p) by {
            assert(b.reference(p) == a.reference(p));
            assert(b.starting(p) == a.starting(p));
        }
        assert forall|s: int, p: int|
            0 <= s <= b.street_idx() && 0 <= p < 10 implies #[trigger] b.stk(s, p) <= if s == 0 {
                b.reference(p)
            } else {
                b.stk(s - 1, p)
            } by {
            assert(b.stk(s, p) == a.stk(s, p));
            assert(b.reference(p) == a.reference(p));
            assert(a.stk(s, p) <= if s == 0 {
                a.reference(p)
            } else {
                a.stk(s - 1, p)
            });
            if s > 0 {
                assert(b.stk(s - 1, p) == a.stk(s - 1, p));
            }
        }
        lemma_starting_upto_eq(a, b, b.pc());
        assert forall|p: int| 0 <= p < b.pc() implies #[trigger] b.starting(p) > 0 by {
            assert(a.starting(p) > 0);
        }
        if b.current_action_index == 0 {
            assert forall|p: int| 0 <= p < b.pc() implies #[trigger] b.in_hand(p) && b.reference(p) == b.starting(p)
                && b.stk(0, p) == b.starting(p) by {
                assert(a.in_hand(p));
            }
            assert(b.fresh());
        }
        assert(b.actions@ == a.actions@);
        assert(forall|i: int|
            0 <= i < b.actions@.len() ==> (action_player(#[trigger] b.actions@[i]) matches Some(q) ==> q.value() < b.pc()));
        assert(forall|i: int| #[trigger] b.not_folded.contains(i) ==> 0 <= i < b.pc());
        assert(forall|i: int| #[trigger] b.hand_shown.contains(i) ==> 0 <= i < b.pc());
        assert(forall|i: int| #[trigger] b.hand_mucked.contains(i) ==> 0 <= i < b.pc());
        assert(b.starting_upto(b.pc()) <= u32::MAX);
    }

    fn clone_opt_string(s: &Option<String>) -> (r: Option<String>)
        ensures
            r == *s,
    {
        match s {
            Some(x) => Some(x.clone()),
            None => None,
        }
    }

    pub fn unit(&self) -> (u: Option<String>)
        ensures
            u == self.unit_of(),
    {
        Self::clone_opt_string(&self.unit)
    }

    pub fn set_unit(&mut self, unit: String)
        requires
            old(self).wf(),
        ensures
            final(self).wf(),
            final(self).unit_of() == Some(unit),
            final(self).same_play(*old(self)),
    {
        self.unit = Some(unit);
        proof {
            Game::lemma_wf_same_play(*old(self), *self);
        }
    }

    pub fn clear_unit(&mut self)
        requires
            old(self).wf(),
        ensures
            final(self).wf(),
            final(self).unit_of() is None,
            final(self).same_play(*old(self)),
    {
        self.unit = None;
        proof {
            Game::lemma_wf_same_play(*old(self), *self);
        }
    }

    pub fn location(&self) -> (u: Option<String>)
        ensures
            u == self.location_of(),
    {
        Self::clone_opt_string(&self.location)
    }

    pub fn set_location(&mut self, location: String)
        requires
            old(self).wf(),
        ensures
            final(self).wf(),
            final(self).location_of() == Some(location),
            final(self).same_play(*old(self)),
    {
        self.location = Some(location);
        proof {
            Game::lemma_wf_same_play(*old(self), *self);
        }
    }

    pub fn clear_location(&mut self)
        requires
            old(self).wf(),
        ensures
            final(self).wf(),
            final(self).location_of() is None,
            final(self).same_play(*old(self)),
    {
        self.location = None;
        proof {
            Game::lemma_wf_same_play(*old(self), *self);
        }
    }

    pub fn table_name(&self) -> (u: Option<String>)
        ensures
            u == self.table_name_of(),
    {
        Self::clone_opt_string(&self.table_name)
    }

    pub fn set_table_name(&mut self, table_name: String)
        requires
            old(self).wf(),
        ensures
            final(self).wf(),
            final(self).table_name_of() == Some(table_name),
            final(self).same_play(*old(self)),
    {
        self.table_name = Some(table_name);
        proof {
            Game::lemma_wf_same_play(*old(self), *self);
        }
    }

    pub fn clear_table_name(&mut self)
        requires
            old(self).wf(),
        ensures
            final(self).wf(),
            final(self).table_name_of() is None,
            final(self).same_play(*old(self)),
    {
        self.table_name = None;
        proof {
            Game::lemma_wf_same_play(*old(self), *self);
        }
    }

    pub fn hand_name(&self) -> (u: Option<String>)
        ensures
            u == self.hand_name_of(),
    {
        Self::clone_opt_string(&self.hand_name)
    }

    pub fn set_hand_name(&mut self, hand_name: String)
        requires
            old(self).wf(),
        ensures
            final(self).wf(),
            final(self).hand_name_of() == Some(hand_name),
            final(self).same_play(*old(self)),
    {
        self.hand_name = Some(hand_name);
        proof {
            Game::lemma_wf_same_play(*old(self), *self);
        }
    }

    pub fn clear_hand_name(&mut self)
        requires
            old(self).wf(),
        ensures
            final(self).wf(),
            final(self).hand_name_of() is None,
            final(self).same_play(*old(self)),
    {
        self.hand_name = None;
        proof {
            Game::lemma_wf_same_play(*old(self), *self);
        }
    }

    /// An amount in thousandths of the big blind, rounded to the nearest thousandth.
    pub fn amount_to_milli_big_blinds_rounded(&self, amount: Amount) -> (m: MilliBigBlind)
        requires
            self.big_blind_amount().value() > 0,
        ensures
            m == amount.spec_to_milli_big_blinds(self.big_blind_amount()),
    {
        amount.to_milli_big_blinds_rounded(self.big_blind)
    }

    /// The players of the game.
    pub fn players(&self) -> (v: Vec<Player>)
        requires
            self.wf(),
        ensures
            v@.len() == self.pc(),
            forall|i: int| 0 <= i < self.pc() ==> (#[trigger] v@[i]).value() == i,
    {
        let mut v: Vec<Player> = Vec::new();
        let mut i: u8 = 0;
        while i < self.player_count
            invariant
                self.wf(),
                i <= self.pc(),
                v@.len() == i,
                forall|k: int| 0 <= k < i ==> (#[trigger] v@[k]).value() == k,
            decreases self.pc() - i,
        {
            v.push(Player(i));
            i = i + 1;
        }
        v
    }

    pub fn clear_date(&mut self)
        requires
            old(self).wf(),
        ensures
            final(self).wf(),
            final(self).date_of() is None,
            final(self).same_play(*old(self)),
    {
        self.date = None;
        proof {
            Game::lemma_wf_same_play(*old(self), *self);
        }
    }

    /// When the hand was played, if known.
    pub fn date(&self) -> (d: Option<NaiveDateTime>)
        ensures
            d == self.date_of(),
    {
        self.date
    }

    pub fn set_date(&mut self, date: NaiveDateTime)
        requires
            old(self).wf(),
        ensures
            final(self).wf(),
            final(self).date_of() == Some(date),
            final(self).same_play(*old(self)),
    {
        self.date = Some(date);
        proof {
            Game::lemma_wf_same_play(*old(self), *self);
        }
    }

    /// Position of the first extra data entry with the given key.
    fn metadata_position(&self, key: &str) -> (r: Option<usize>)
        ensures
            match r {
                Some(i) => i < self.metadata_of().len() && self.metadata_of()[i as int].0@ == key@ && forall|j: int|
                    0 <= j < i ==> self.metadata_of()[j].0@ != key@,
                None => forall|j: int| 0 <= j < self.metadata_of().len() ==> self.metadata_of()[j].0@ != key@,
            },
    {
        let k = key.to_owned();
        let mut i: usize = 0;
        while i < self.additional_metadata.len()
            invariant
                k@ == key@,
                i <= self.additional_metadata@.len(),
                forall|j: int| 0 <= j < i ==> self.additional_metadata@[j].0@ != key@,
            decreases self.additional_metadata@.len() - i,
        {
            if self.additional_metadata[i].0 == k {
                return Some(i);
            }
            i = i + 1;
        }
        None
    }

    /// The extra data stored under `key`, written as JSON.
    pub fn additional_metadata(&self, key: &str) -> (r: Option<String>)
        ensures
            match r {
                Some(v) => exists|i: int|
                    0 <= i < self.metadata_of().len() && self.metadata_of()[i].0@ == key@ && self.metadata_of()[i].1
                        == v,
                None => forall|j: int| 0 <= j < self.metadata_of().len() ==> self.metadata_of()[j].0@ != key@,
            },
    {
        match self.metadata_position(key) {
            Some(i) => Some(self.additional_metadata[i].1.clone()),
            None => None,
        }
    }

    /// Stores extra data (written as JSON) under `key`, replacing what the key held.
    pub fn set_additional_metadata(&mut self, key: String, value: String)
        requires
            old(self).wf(),
        ensures
            final(self).wf(),
            final(self).same_play(*old(self)),
            exists|i: int|
                0 <= i < final(self).metadata_of().len() && final(self).metadata_of()[i].0@ == key@
                    && final(self).metadata_of()[i].1 == value,
            forall|j: int|
                0 <= j < old(self).metadata_of().len() && old(self).metadata_of()[j].0@ != key@
                    ==> final(self).metadata_of().contains(old(self).metadata_of()[j]),
    {
        let pos = self.metadata_position(key.as_str());
        let ghost old_entries = self.additional_metadata@;
        match pos {
            Some(i) => {
                let mut entries: Vec<(String, String)> = Vec::new();
                let mut j: usize = 0;
                while j < self.additional_metadata.len()
                    invariant
                        self.additional_metadata@ == old_entries,
                        i < old_entries.len(),
                        j <= old_entries.len(),
                        entries@.len() == j,
                        forall|x: int| 0 <= x < j && x != i ==> entries@[x] == old_entries[x],
                        j > i ==> entries@[i as int].0@ == key@ && entries@[i as int].1 == value,
                    decreases old_entries.len() - j,
                {
                    if j == i {
                        entries.push((key.clone(), value.clone()));
                    } else {
                        let e = &self.additional_metadata[j];
                        entries.push((e.0.clone(), e.1.clone()));
                    }
                    j = j + 1;
                }
                self.additional_metadata = entries;
                proof {
                    assert(self.metadata_of()[i as int].0@ == key@ && self.metadata_of()[i as int].1 == value);
                    assert forall|x: int|
                        0 <= x < old_entries.len() && old_entries[x].0@ != key@ implies self.additional_metadata@.contains(
                        old_entries[x],
                    ) by {
                        assert(x != i);
                        assert(self.additional_metadata@[x] == old_entries[x]);
                    }
                }
            },
            None => {
                self.additional_metadata.push((key, value));
                proof {
                    let n = old_entries.len() as int;
                    assert(self.metadata_of()[n].0@ == key@ && self.metadata_of()[n].1 == value);
                    assert forall|x: int|
                        0 <= x < old_entries.len() && old_entries[x].0@ != key@ implies self.additional_metadata@.contains(
                        old_entries[x],
                    ) by {
                        assert(self.additional_metadata@[x] == old_entries[x]);
                    }
                }
            },
        }
        proof {
            Game::lemma_wf_same_play(*old(self), *self);
        }
    }

    /// Removes the extra data stored under `key`.
    pub fn clear_additional_metadata(&mut self, key: &str)
        requires
            old(self).wf(),
        ensures
            final(self).wf(),
            final(self).same_play(*old(self)),
            forall|j: int| 0 <= j < final(self).metadata_of().len() ==> final(self).metadata_of()[j].0@ != key@,
            forall|j: int|
                0 <= j < old(self).metadata_of().len() && old(self).metadata_of()[j].0@ != key@
                    ==> final(self).metadata_of().contains(old(self).metadata_of()[j]),
    {
        let ghost old_entries = self.additional_metadata@;
        let k = key.to_owned();
        let mut entries: Vec<(String, String)> = Vec::new();
        let mut j: usize = 0;
        while j < self.additional_metadata.len()
            invariant
                self.additional_metadata@ == old_entries,
                k@ == key@,
                j <= old_entries.len(),
                forall|x: int| 0 <= x < entries@.len() ==> entries@[x].0@ != key@,
                forall|x: int| 0 <= x < j && old_entries[x].0@ != key@ ==> entries@.contains(old_entries[x]),
            decreases old_entries.len() - j,
        {
            let e = &self.additional_metadata[j];
            if e.0 != k {
                let ghost before = entries@;
                entries.push((e.0.clone(), e.1.clone()));
                proof {
                    assert forall|x: int| 0 <= x < j + 1 && old_entries[x].0@ != key@ implies entries@.contains(
                        old_entries[x],
                    ) by {
                        if x < j {
                            let y = choose|y: int| 0 <= y < before.len() && before[y] == old_entries[x];
                            assert(entries@[y] == old_entries[x]);
                        } else {
                            assert(entries@[before.len() as int] == old_entries[x]);
                        }
                    }
                }
            }
            j = j + 1;
        }
        self.additional_metadata = entries;
        proof {
            Game::lemma_wf_same_play(*old(self), *self);
        }
    }

    /// The table size the hand was played at, if known.
    pub fn max_players(&self) -> (m: Option<usize>)
        ensures
            m == match self.max_players_of() {
                Some(n) => Some(n as usize),
                None => None::<usize>,
            },
    {
        match self.max_players {
            Some(n) => Some(n as usize),
            None => None,
        }
    }

    /// Sets the table size; it must lie between the player count and ten.
    pub fn set_max_players(&mut self, max_players: usize) -> (r: Result<(), PlayError>)
        requires
            old(self).wf(),
        ensures
            final(self).wf(),
            final(self).same_play(*old(self)),
            final(self).same_people(*old(self)),
            final(self).hero_of() == old(self).hero_of(),
            (max_players < MIN_PLAYERS || max_players > MAX_PLAYERS || max_players < old(self).pc())
                ==> r == Err::<(), PlayError>(PlayError::InvalidMaxPlayers) && final(self).max_players_of() == old(self).max_players_of(),
            !(max_players < MIN_PLAYERS || max_players > MAX_PLAYERS || max_players < old(self).pc())
                ==> r is Ok && final(self).max_players_of() == Some(max_players as u8),
    {
        if max_players < MIN_PLAYERS || max_players > MAX_PLAYERS || max_players < self.player_count as usize {
            Err(PlayError::InvalidMaxPlayers)
        } else {
            self.max_players = Some(max_players as u8);
            proof {
                Game::lemma_wf_same_play(*old(self), *self);
            }
            Ok(())
        }
    }

    pub fn clear_max_players(&mut self)
        requires
            old(self).wf(),
        ensures
            final(self).wf(),
            final(self).max_players_of() is None,
            final(self).same_play(*old(self)),
    {
        self.max_players = None;
        proof {
            Game::lemma_wf_same_play(*old(self), *self);
        }
    }

    pub fn hero(&self) -> (h: Option<Player>)
        ensures
            h == self.hero_of(),
    {
        self.hero
    }

    /// Marks `hero` as the player whose view the hand is told from.
    pub fn set_hero(&mut self, hero: Player) -> (r: Result<(), PlayError>)
        requires
            old(self).wf(),
        ensures
            final(self).wf(),
            final(self).same_play(*old(self)),
            final(self).same_people(*old(self)),
            final(self).max_players_of() == old(self).max_players_of(),
            hero.value() >= old(self).pc() ==> r == Err::<(), PlayError>(PlayError::InvalidHero)
                && final(self).hero_of() == old(self).hero_of(),
            hero.value() < old(self).pc() ==> r is Ok && final(self).hero_of() == Some(hero),
    {
        if hero.0 >= self.player_count {
            Err(PlayError::InvalidHero)
        } else {
            self.hero = Some(hero);
            proof {
                Game::lemma_wf_same_play(*old(self), *self);
            }
            Ok(())
        }
    }

    pub fn clear_hero(&mut self)
        requires
            old(self).wf(),
        ensures
            final(self).wf(),
            final(self).hero_of() is None,
            final(self).same_play(*old(self)),
    {
        self.hero = None;
        proof {
            Game::lemma_wf_same_play(*old(self), *self);
        }
    }

    /// Whether only two players play.
    pub fn is_heads_up_table(&self) -> (r: bool)
        requires
            self.wf(),
        ensures
            r == (self.pc() == 2),
    {
        self.player_count == 2
    }

    /// The player who posts the small blind: the button heads up, else left of the button.
    pub closed spec fn sb_player(self) -> int {
        if self.pc() == 2 {
            self.button.value()
        } else {
            (self.button.value() + 1) % self.pc()
        }
    }

    /// The player who posts the big blind.
    pub closed spec fn bb_player(self) -> int {
        if self.pc() == 2 {
            (self.button.value() + 1) % self.pc()
        } else {
            (self.button.value() + 2) % self.pc()
        }
    }

    pub fn small_blind_player(&self) -> (p: Player)
        requires
            self.wf(),
        ensures
            p.value() == self.sb_player(),
            p.value() < self.pc(),
    {
        let offset: usize = if self.player_count == 2 { 0 } else { 1 };
        Player(((self.button.0 as usize + offset) % self.player_count as usize) as u8)
    }

    pub fn big_blind_player(&self) -> (p: Player)
        requires
            self.wf(),
        ensures
            p.value() == self.bb_player(),
            p.value() < self.pc(),
    {
        let offset: usize = if self.player_count == 2 { 1 } else { 2 };
        Player(((self.button.0 as usize + offset) % self.player_count as usize) as u8)
    }

    fn first_to_act_post_flop(&self) -> (p: Player)
        requires
            self.wf(),
        ensures
            p.value() == (self.button.value() + 1) % self.pc(),
    {
        Player(((self.button.0 as usize + 1) % self.player_count as usize) as u8)
    }

    pub closed spec fn board_now(self) -> Board {
        self.boards@[self.current_board as int]
    }

    /// The board of the current runout.
    pub fn board(&self) -> (b: Board)
        requires
            self.wf(),
        ensures
            b == self.board_now(),
            b.street_of().index() == self.street_idx(),
    {
        self.boards[self.current_board]
    }

    /// The starting stacks of the players.
    pub fn starting_stacks(&self) -> (v: Vec<Amount>)
        requires
            self.wf(),
        ensures
            v@.len() == self.pc(),
            forall|p: int| 0 <= p < self.pc() ==> (#[trigger] v@[p]).value() == self.starting(p),
    {
        let mut v: Vec<Amount> = Vec::new();
        let mut i: usize = 0;
        while i < self.player_count as usize
            invariant
                self.wf(),
                i <= self.pc(),
                v@.len() == i,
                forall|p: int| 0 <= p < i ==> (#[trigger] v@[p]).value() == self.starting(p),
            decreases self.pc() - i,
        {
            v.push(self.starting_stacks[i]);
            i = i + 1;
        }
        v
    }

    /// The stacks in the current street.
    pub fn current_street_stacks(&self) -> (v: Vec<Amount>)
        requires
            self.wf(),
        ensures
            v@.len() == self.pc(),
            forall|p: int| 0 <= p < self.pc() ==> (#[trigger] v@[p]).value() == self.cur(p),
    {
        let s = self.street_index();
        let mut v: Vec<Amount> = Vec::new();
        let mut i: usize = 0;
        while i < self.player_count as usize
            invariant
                self.wf(),
                s == self.street_idx(),
                s < 4,
                i <= self.pc(),
                v@.len() == i,
                forall|p: int| 0 <= p < i ==> (#[trigger] v@[p]).value() == self.cur(p),
            decreases self.pc() - i,
        {
            v.push(self.stack_at(s, i));
            i = i + 1;
        }
        v
    }

    /// The stacks before the current street.
    pub fn previous_street_stacks(&self) -> (v: Vec<Amount>)
        requires
            self.wf(),
        ensures
            v@.len() == self.pc(),
            forall|p: int| 0 <= p < self.pc() ==> (#[trigger] v@[p]).value() == self.prev(p),
    {
        let s = self.street_index();
        let mut v: Vec<Amount> = Vec::new();
        let mut i: usize = 0;
        while i < self.player_count as usize
            invariant
                self.wf(),
                s == self.street_idx(),
                s < 4,
                i <= self.pc(),
                v@.len() == i,
                forall|p: int| 0 <= p < i ==> (#[trigger] v@[p]).value() == self.prev(p),
            decreases self.pc() - i,
        {
            if s == 0 {
                v.push(self.reference_stacks[i]);
            } else {
                v.push(self.stack_at(s - 1, i));
            }
            i = i + 1;
        }
        v
    }

    fn cur_stack(&self, p: usize) -> (a: Amount)
        requires
            self.wf(),
            p < 10,
        ensures
            a.value() == self.cur(p as int),
    {
        self.stack_at(self.street_index(), p)
    }

    fn prev_stack(&self, p: usize) -> (a: Amount)
        requires
            self.wf(),
            p < 10,
        ensures
            a.value() == self.prev(p as int),
    {
        let s = self.street_index();
        if s == 0 {
            self.reference_stacks[p]
        } else {
            self.stack_at(s - 1, p)
        }
    }

    /// The stack the current player had before this street.
    pub fn previous_street_stack(&self) -> (a: Option<Amount>)
        requires
            self.wf(),
        ensures
            a == match self.player_now() {
                Some(p) => Some(Amount(self.prev(p.value()) as u32)),
                None => None::<Amount>,
            },
    {
        match self.current_player {
            Some(p) => {
                let a = self.prev_stack(p.0 as usize);
                Some(a)
            },
            None => None,
        }
    }

    /// Chips `player` put in, counting dead posts.
    pub fn total_invested(&self, player: Player) -> (a: Amount)
        requires
            self.wf(),
            player.value() < self.pc(),
        ensures
            a.value() == self.total_inv(player.value()),
    {
        proof {
            self.lemma_stacks_ordered(player.value());
        }
        Amount(self.starting_stacks[player.0 as usize].0 - self.cur_stack(player.0 as usize).0)
    }

    /// Chips `player` put in, not counting dead posts.
    pub fn invested(&self, player: Player) -> (a: Amount)
        requires
            self.wf(),
            player.value() < self.pc(),
        ensures
            a.value() == self.inv(player.value()),
    {
        proof {
            self.lemma_stacks_ordered(player.value());
        }
        Amount(self.reference_stacks[player.0 as usize].0 - self.cur_stack(player.0 as usize).0)
    }

    /// Chips `player` put in during the current street.
    pub fn invested_in_street(&self, player: Player) -> (a: Amount)
        requires
            self.wf(),
            player.value() < self.pc(),
        ensures
            a.value() == self.prev(player.value()) - self.cur(player.value()),
    {
        proof {
            self.lemma_stacks_ordered(player.value());
        }
        Amount(self.prev_stack(player.0 as usize).0 - self.cur_stack(player.0 as usize).0)
    }

    /// All chips put in by all players.
    pub fn total_pot(&self) -> (a: Amount)
        requires
            self.wf(),
        ensures
            a.value() == self.pot(),
    {
        let mut total: u32 = 0;
        let mut i: usize = 0;
        while i < self.player_count as usize
            invariant
                self.wf(),
                i <= self.pc(),
                total == self.pot_upto(i as int),
            decreases self.pc() - i,
        {
            proof {
                self.lemma_pot_upto_bound(i + 1);
                self.lemma_starting_upto_mono(i + 1, self.pc());
                self.lemma_stacks_ordered(i as int);
            }
            let t = self.total_invested(Player(i as u8));
            total = total + t.0;
            i = i + 1;
        }
        Amount(total)
    }

    /// Whether `player` folded.
    pub fn folded(&self, player: Player) -> (r: bool)
        requires
            self.wf(),
            player.value() < self.pc(),
        ensures
            r == !self.in_hand(player.value()),
    {
        !self.not_folded.has(player.0 as usize)
    }

    /// Whether `player` has no chips left behind in this street.
    pub closed spec fn all_in_spec(self, p: int) -> bool {
        self.cur(p) == 0
    }

    fn is_all_in(&self, player: Player) -> (r: bool)
        requires
            self.wf(),
            player.value() < self.pc(),
        ensures
            r == self.all_in_spec(player.value()),
    {
        self.cur_stack(player.0 as usize).0 == 0
    }

    /// Whether `player` is still in the hand and can still act.
    pub fn in_hand_not_all_in(&self, player: Player) -> (r: bool)
        requires
            self.wf(),
            player.value() < self.pc(),
        ensures
            r == (self.in_hand(player.value()) && !self.all_in_spec(player.value())),
    {
        self.not_folded.has(player.0 as usize) && !self.is_all_in(player)
    }

    /// The players who have not folded, in seat order.
    pub fn players_not_folded(&self) -> (v: Vec<Player>)
        requires
            self.wf(),
        ensures
            forall|k: int, l: int| 0 <= k < l < v@.len() ==> v@[k].value() < v@[l].value(),
            forall|k: int| 0 <= k < v@.len() ==> v@[k].value() < self.pc() && self.in_hand(v@[k].value()),
            forall|p: int| 0 <= p < self.pc() && self.in_hand(p) ==> v@.contains(Player(p as u8)),
    {
        let idx = self.not_folded.iter(self.player_count as usize);
        let mut v: Vec<Player> = Vec::new();
        let mut i: usize = 0;
        while i < idx.len()
            invariant
                self.wf(),
                i <= idx@.len(),
                forall|k: int, l: int| 0 <= k < l < idx@.len() ==> idx@[k] < idx@[l],
                forall|k: int| 0 <= k < idx@.len() ==> idx@[k] < self.pc() && self.not_folded.contains(idx@[k] as int),
                forall|j: usize| #![trigger self.not_folded.contains(j as int)]
                    j < self.pc() && self.not_folded.contains(j as int) ==> idx@.contains(j),
                v@.len() == i,
                forall|k: int| 0 <= k < i ==> (#[trigger] v@[k]).value() == idx@[k],
            decreases idx@.len() - i,
        {
            v.push(Player(idx[i] as u8));
            i = i + 1;
        }
        proof {
            assert forall|p: int| 0 <= p < self.pc() && self.in_hand(p) implies v@.contains(Player(p as u8)) by {
                assert(self.not_folded.contains((p as usize) as int));
                let k = choose|k: int| 0 <= k < idx@.len() && idx@[k] == p as usize;
                assert(v@[k] == Player(p as u8));
            }
        }
        v
    }

    /// The player to act, if any.
    pub fn current_player(&self) -> (p: Option<Player>)
        ensures
            p == self.player_now(),
    {
        self.current_player
    }

    /// The current player's stack in this street.
    pub fn current_stack(&self) -> (a: Option<Amount>)
        requires
            self.wf(),
        ensures
            a == match self.player_now() {
                Some(p) => Some(Amount(self.cur(p.value()) as u32)),
                None => None::<Amount>,
            },
    {
        match self.current_player {
            Some(p) => Some(self.cur_stack(p.0 as usize)),
            None => None,
        }
    }

    /// The name shown for player `p`: its own, or its position's.
    pub closed spec fn shown_name(self, p: int) -> Seq<char> {
        match self.names@[p] {
            Some(n) => n@,
            None => position_label(self.pc(), button_offset(self.pc(), self.button.value(), p)).0@,
        }
    }

    /// The name of `player`, or the name of its position when it has none.
    pub fn player_name(&self, player: Player) -> (name: String)
        requires
            self.wf(),
            player.value() < self.pc(),
        ensures
            name@ == self.shown_name(player.value()),
    {
        match &self.names[player.0 as usize] {
            Some(n) => n.clone(),
            None => {
                match Game::position_name(self.player_count as usize, self.button, player) {
                    Some(l) => String::from_str(l.0),
                    None => {
                        assert(false);
                        String::new()
                    },
                }
            },
        }
    }

    /// The first player shown under `name`.
    pub fn player_by_name(&self, name: &str) -> (r: Option<Player>)
        requires
            self.wf(),
        ensures
            r matches Some(p) ==> p.value() < self.pc() && self.shown_name(p.value()) == name@,
            r matches Some(p) ==> forall|q: int| 0 <= q < p.value() ==> self.shown_name(q) != name@,
            r is None ==> forall|q: int| 0 <= q < self.pc() ==> self.shown_name(q) != name@,
    {
        let target = String::from_str(name);
        let mut i: usize = 0;
        while i < self.player_count as usize
            invariant
                self.wf(),
                i <= self.pc(),
                target@ == name@,
                forall|q: int| 0 <= q < i ==> self.shown_name(q) != name@,
            decreases self.pc() - i,
        {
            let n = self.player_name(Player(i as u8));
            if n == target {
                return Some(Player(i as u8));
            }
            i = i + 1;
        }
        None
    }

    /// The seat of `player`.
    pub fn seat(&self, player: Player) -> (s: Seat)
        requires
            self.wf(),
            player.value() < self.pc(),
        ensures
            s == self.seat_at(player.value()),
    {
        self.seats[player.0 as usize]
    }

    /// The hand of `player`, when known.
    pub fn get_hand(&self, player: Player) -> (h: Option<Hand>)
        requires
            self.wf(),
        ensures
            h == if player.value() >= self.pc() {
                None::<Hand>
            } else {
                self.hand_at(player.value())
            },
    {
        if player.0 >= self.player_count {
            None
        } else {
            self.hands[player.0 as usize]
        }
    }

    /// The hand of the current player, when known.
    pub fn current_hand(&self) -> (h: Option<Hand>)
        requires
            self.wf(),
        ensures
            h == match self.player_now() {
                Some(p) => self.hand_at(p.value()),
                None => None::<Hand>,
            },
    {
        match self.current_player {
            Some(p) => self.get_hand(p),
            None => None,
        }
    }

    pub closed spec fn shown(self, p: int) -> bool {
        self.hand_shown.contains(p)
    }

    pub closed spec fn mucked(self, p: int) -> bool {
        self.hand_mucked.contains(p)
    }

    /// Whether `player` showed the hand.
    pub fn hand_shown(&self, player: Player) -> (r: bool)
        requires
            self.wf(),
            player.value() < self.pc(),
        ensures
            r == self.shown(player.value()),
    {
        self.hand_shown.has(player.0 as usize)
    }

    /// Whether `player` mucked the hand.
    pub fn hand_mucked(&self, player: Player) -> (r: bool)
        requires
            self.wf(),
            player.value() < self.pc(),
        ensures
            r == self.mucked(player.value()),
    {
        self.hand_mucked.has(player.0 as usize)
    }

    /// The actions up to the replay position.
    pub fn actions(&self) -> (v: Vec<Action>)
        requires
            self.wf(),
        ensures
            v@ == self.action_log().subrange(0, self.replay_index()),
    {
        let mut v: Vec<Action> = Vec::new();
        let mut i: usize = 0;
        while i < self.current_action_index
            invariant
                self.wf(),
                i <= self.current_action_index,
                v@ == self.actions@.subrange(0, i as int),
            decreases self.current_action_index - i,
        {
            v.push(self.actions[i]);
            proof {
                assert(v@ =~= self.actions@.subrange(0, i + 1));
            }
            i = i + 1;
        }
        v
    }

    /// The boards of the runouts so far.
    pub closed spec fn runout_boards(self) -> Seq<Board> {
        self.boards@.subrange(0, self.current_board + 1)
    }

    /// The boards of all runouts so far.
    pub fn runouts(&self) -> (v: Vec<Board>)
        requires
            self.wf(),
        ensures
            v@ == self.runout_boards(),
            v@.len() >= 1,
    {
        let mut v: Vec<Board> = Vec::new();
        let mut i: usize = 0;
        while i <= self.current_board
            invariant
                self.wf(),
                i <= self.current_board + 1,
                v@ == self.boards@.subrange(0, i as int),
            decreases self.current_board + 1 - i,
        {
            v.push(self.boards[i]);
            proof {
                assert(v@ =~= self.boards@.subrange(0, i + 1));
            }
            i = i + 1;
        }
        v
    }

    /// Whether an action can be stepped back.
    pub fn can_previous(&self) -> (r: bool)
        ensures
            r == (self.replay_index() > 0),
    {
        self.current_action_index > 0
    }
}


/// Largest amount bet or raised by among the first `n` actions (0 when none).
pub open spec fn bet_max(s: Seq<Action>, n: int) -> int
    decreases n,
{
    if n <= 0 {
        0
    } else {
        let m = bet_max(s, n - 1);
        match s[n - 1] {
            Action::Bet { amount, .. } => if amount.value() > m {
                amount.value()
            } else {
                m
            },
            Action::Raise { amount, .. } => if amount.value() > m {
                amount.value()
            } else {
                m
            },
            _ => m,
        }
    }
}

/// The total a player had put in after the last bet or raise among the first
/// `n` actions (0 when none).
pub open spec fn last_to(s: Seq<Action>, n: int) -> int
    decreases n,
{
    if n <= 0 {
        0
    } else {
        match s[n - 1] {
            Action::Bet { amount, .. } => amount.value(),
            Action::Raise { to, .. } => to.value(),
            _ => last_to(s, n - 1),
        }
    }
}

/// Largest straddle or live post among the first `n` actions (-1 when none).
pub open spec fn post_max(s: Seq<Action>, n: int) -> int
    decreases n,
{
    if n <= 0 {
        -1
    } else {
        let m = post_max(s, n - 1);
        let v = match s[n - 1] {
            Action::Straddle { amount, .. } => amount.value(),
            Action::Post { amount, dead, .. } => if dead {
                -1
            } else {
                amount.value()
            },
            _ => -1,
        };
        if v > m {
            v
        } else {
            m
        }
    }
}

/// Whether an action is a check or a fold.
pub open spec fn is_passive(a: Action) -> bool {
    a is Check || a is Fold
}

impl Game {
    /// Where the betting actions of the current street end, searching from `i`.
    spec fn street_end_from(self, i: int) -> int
        decreases self.current_action_index - i,
    {
        if i >= self.current_action_index {
            self.current_action_index as int
        } else if action_player(self.actions@[i]) is None {
            i
        } else {
            self.street_end_from(i + 1)
        }
    }

    /// The betting actions of the current street.
    pub closed spec fn street_actions(self) -> Seq<Action> {
        self.actions@.subrange(
            self.current_street_index as int,
            self.street_end_from(self.current_street_index as int),
        )
    }

    /// Whether only checks and folds happened in this street, so a bet is open.
    pub closed spec fn bet_open(self) -> bool {
        forall|i: int| 0 <= i < self.street_actions().len() ==> is_passive(#[trigger] self.street_actions()[i])
    }

    /// What `p` has to put in to match the largest investment.
    pub closed spec fn to_call(self, p: int) -> int {
        self.max_inv() - self.inv(p)
    }

    proof fn lemma_street_end(self, i: int)
        requires
            self.wf(),
            self.current_street_index <= i <= self.current_action_index,
        ensures
            i <= self.street_end_from(i) <= self.current_action_index,
            forall|j: int|
                i <= j < self.street_end_from(i) ==> action_player(#[trigger] self.actions@[j]) is Some,
        decreases self.current_action_index - i,
    {
        if i < self.current_action_index && action_player(self.actions@[i]) is Some {
            self.lemma_street_end(i + 1);
        }
    }

    proof fn lemma_max_inv(self, n: int)
        requires
            self.wf(),
            0 <= n <= 10,
        ensures
            0 <= self.max_inv_upto(n) <= u32::MAX,
            forall|k: int| 0 <= k < n ==> self.inv(k) <= #[trigger] self.max_inv_upto(n),
            self.max_inv_upto(n) == 0 || exists|k: int| 0 <= k < n && self.inv(k) == self.max_inv_upto(n),
        decreases n,
    {
        if n > 0 {
            self.lemma_max_inv(n - 1);
            self.lemma_stacks_ordered(n - 1);
            assert forall|k: int| 0 <= k < n implies self.inv(k) <= #[trigger] self.max_inv_upto(n) by {
                if k < n - 1 {
                    assert(self.inv(k) <= self.max_inv_upto(n - 1));
                }
            }
        }
    }

    /// Index where the betting actions of the current street end.
    fn street_end(&self) -> (e: usize)
        requires
            self.wf(),
        ensures
            e == self.street_end_from(self.current_street_index as int),
            self.current_street_index <= e <= self.current_action_index,
    {
        proof {
            self.lemma_street_end(self.current_street_index as int);
        }
        let mut i = self.current_street_index;
        while i < self.current_action_index
            invariant
                self.wf(),
                self.current_street_index <= i <= self.current_action_index,
                self.street_end_from(self.current_street_index as int) == self.street_end_from(i as int),
            decreases self.current_action_index - i,
        {
            if !self.actions[i].is_player() {
                return i;
            }
            i = i + 1;
        }
        i
    }

    /// The betting actions of the current street.
    pub fn actions_in_street(&self) -> (v: Vec<Action>)
        requires
            self.wf(),
        ensures
            v@ == self.street_actions(),
    {
        let e = self.street_end();
        let mut v: Vec<Action> = Vec::new();
        let mut i = self.current_street_index;
        while i < e
            invariant
                self.wf(),
                self.current_street_index <= i <= e,
                e <= self.current_action_index,
                v@ == self.actions@.subrange(self.current_street_index as int, i as int),
            decreases e - i,
        {
            v.push(self.actions[i]);
            proof {
                assert(v@ =~= self.actions@.subrange(self.current_street_index as int, i + 1));
            }
            i = i + 1;
        }
        v
    }

    /// The largest investment of any player.
    fn max_invested(&self) -> (a: Amount)
        requires
            self.wf(),
        ensures
            a.value() == self.max_inv(),
    {
        let mut m: u32 = 0;
        let mut p: usize = 0;
        while p < self.player_count as usize
            invariant
                self.wf(),
                p <= self.pc(),
                m == self.max_inv_upto(p as int),
            decreases self.pc() - p,
        {
            let x = self.invested(Player(p as u8));
            if x.0 > m {
                m = x.0;
            }
            p = p + 1;
        }
        Amount(m)
    }

    /// What `player` has to put in to match the largest investment.
    fn call_amount(&self, player: Player) -> (a: Amount)
        requires
            self.wf(),
            player.value() < self.pc(),
        ensures
            a.value() == self.to_call(player.value()),
            0 <= self.to_call(player.value()),
    {
        proof {
            self.lemma_max_inv(self.pc());
            self.lemma_stacks_ordered(player.value());
        }
        let m = self.max_invested();
        let i = self.invested(player);
        Amount(m.0 - i.0)
    }

    /// The player to act can check: nothing is left to call.
    pub open spec fn check_offered(self) -> bool {
        self.player_now() matches Some(p) && self.to_call(p.value()) == 0
    }

    /// What the player to act can call: what is left to call, limited by the
    /// stack; nothing when nothing is left to call.
    pub open spec fn call_offered(self) -> Option<Amount> {
        match self.player_now() {
            None => None::<Amount>,
            Some(p) => if self.to_call(p.value()) == 0 {
                None::<Amount>
            } else if self.cur(p.value()) < self.to_call(p.value()) {
                Some(Amount(self.cur(p.value()) as u32))
            } else {
                Some(Amount(self.to_call(p.value()) as u32))
            },
        }
    }

    /// Checking and calling exclude each other, and the player to act is
    /// always offered one of them.
    pub proof fn law_check_or_call(self)
        ensures
            self.check_offered() ==> self.call_offered() is None,
            self.call_offered() is Some ==> !self.check_offered(),
            self.player_now() is Some ==> (self.check_offered() || self.call_offered() is Some),
    {
    }

    /// Whether the current player may check.
    pub fn can_check(&self) -> (r: bool)
        requires
            self.wf(),
        ensures
            r == self.check_offered(),
    {
        match self.current_player {
            None => false,
            Some(p) => self.call_amount(p).0 == 0,
        }
    }

    /// What the current player may call: the amount owed, limited by the stack.
    pub fn can_call(&self) -> (r: Option<Amount>)
        requires
            self.wf(),
        ensures
            r == self.call_offered(),
    {
        match self.current_player {
            None => None,
            Some(p) => {
                let amount = self.call_amount(p);
                if amount.0 == 0 {
                    None
                } else {
                    let stack = self.cur_stack(p.0 as usize);
                    if stack.0 < amount.0 {
                        Some(stack)
                    } else {
                        Some(amount)
                    }
                }
            },
        }
    }

    /// The smallest bet the current player may make, when nobody bet yet in this
    /// street: the big blind, limited by the stack.
    pub fn can_bet(&self) -> (r: Option<Amount>)
        requires
            self.wf(),
        ensures
            r == match self.player_now() {
                None => None::<Amount>,
                Some(p) => if self.bet_open() {
                    if self.cur(p.value()) < self.big_blind_amount().value() {
                        Some(Amount(self.cur(p.value()) as u32))
                    } else {
                        Some(self.big_blind_amount())
                    }
                } else {
                    None::<Amount>
                },
            },
    {
        match self.current_player {
            None => None,
            Some(p) => {
                let v = self.actions_in_street();
                let mut i: usize = 0;
                while i < v.len()
                    invariant
                        self.wf(),
                        v@ == self.street_actions(),
                        i <= v@.len(),
                        forall|j: int| 0 <= j < i ==> is_passive(#[trigger] v@[j]),
                    decreases v@.len() - i,
                {
                    match v[i] {
                        Action::Check(_) => {},
                        Action::Fold(_) => {},
                        _ => {
                            assert(!is_passive(v@[i as int]));
                            return None;
                        },
                    }
                    i = i + 1;
                }
                let stack = self.cur_stack(p.0 as usize);
                if stack.0 < self.big_blind.0 {
                    Some(stack)
                } else {
                    Some(self.big_blind)
                }
            },
        }
    }
}


impl Game {
    /// Size and total of the last full bet or raise of this street, before the
    /// big blind floor: from the bets and raises, or pre flop from the posts
    /// and straddles when nobody bet.
    pub closed spec fn raise_base(self) -> (int, int) {
        let s = self.street_actions();
        let a0 = bet_max(s, s.len() as int);
        if a0 == 0 {
            (post_max(s, s.len() as int), post_max(s, s.len() as int))
        } else {
            (a0, last_to(s, s.len() as int))
        }
    }

    /// Whether the current street has no bet and is past the pre flop.
    pub closed spec fn no_raise_street(self) -> bool {
        bet_max(self.street_actions(), self.street_actions().len() as int) == 0 && self.street_idx()
            != 0
    }

    /// The raise size floor: the last full raise, at least the big blind.
    pub closed spec fn raise_step(self) -> int {
        if self.raise_base().0 < self.big_blind.value() {
            self.big_blind.value()
        } else {
            self.raise_base().0
        }
    }

    /// The state in which the raise computation is defined: a raise total to
    /// start from exists and is positive, the minimum total fits in an amount,
    /// and a player short of the minimum total still covers the last total.
    /// Outside it there is no last total to raise from, or the minimum total
    /// or the stack left below the last total is not an amount.
    pub closed spec fn raise_defined(self) -> bool {
        match self.current_player {
            None => true,
            Some(p) => self.no_raise_street() || {
                let t = self.raise_base().1;
                let to = t + self.raise_step();
                &&& t > 0
                &&& to <= u32::MAX
                &&& (self.to_call(p.value()) < self.cur(p.value()) && to > self.prev(p.value())) ==> t
                    <= self.prev(p.value())
            },
        }
    }

    /// The smallest raise of the current player as (size, total in this street).
    pub closed spec fn raise_spec(self) -> Option<(int, int)> {
        match self.current_player {
            None => None,
            Some(p) => if self.no_raise_street() {
                None
            } else {
                let t = self.raise_base().1;
                let to = t + self.raise_step();
                if self.to_call(p.value()) >= self.cur(p.value()) {
                    None
                } else if to > self.prev(p.value()) {
                    Some((self.prev(p.value()) - t, self.prev(p.value())))
                } else {
                    Some((self.raise_step(), to))
                }
            },
        }
    }

    /// The smallest raise the current player may make, as the raise size and the
    /// total put in this street; limited by what the player had before the street.
    pub fn can_raise(&self) -> (r: Option<(Amount, Amount)>)
        requires
            self.wf(),
            self.raise_defined(),
        ensures
            match self.raise_spec() {
                None => r is None,
                Some((a, t)) => r == Some((Amount(a as u32), Amount(t as u32))),
            },
    {
        let player = match self.current_player {
            None => return None,
            Some(p) => p,
        };
        let v = self.actions_in_street();
        let ghost n = v@.len() as int;
        let mut last_amount: u32 = 0;
        let mut last_total: u32 = 0;
        let mut i: usize = 0;
        while i < v.len()
            invariant
                self.wf(),
                v@ == self.street_actions(),
                i <= v@.len(),
                last_amount == bet_max(v@, i as int),
                last_total == last_to(v@, i as int),
            decreases v@.len() - i,
        {
            match v[i] {
                Action::Bet { amount, .. } => {
                    if amount.0 > last_amount {
                        last_amount = amount.0;
                    }
                    last_total = amount.0;
                },
                Action::Raise { amount, to, .. } => {
                    if amount.0 > last_amount {
                        last_amount = amount.0;
                    }
                    last_total = to.0;
                },
                _ => {},
            }
            i = i + 1;
        }
        if last_amount == 0 {
            if self.street_index() != 0 {
                return None;
            }
            let mut m: Option<u32> = None;
            let mut k: usize = 0;
            while k < v.len()
                invariant
                    self.wf(),
                    v@ == self.street_actions(),
                    k <= v@.len(),
                    post_max(v@, k as int) == match m {
                        None => -1,
                        Some(x) => x as int,
                    },
                decreases v@.len() - k,
            {
                let x: Option<u32> = match v[k] {
                    Action::Straddle { amount, .. } => Some(amount.0),
                    Action::Post { amount, dead, .. } => if dead {
                        None
                    } else {
                        Some(amount.0)
                    },
                    _ => None,
                };
                match x {
                    Some(y) => {
                        match m {
                            None => {
                                m = Some(y);
                            },
                            Some(z) => {
                                if y > z {
                                    m = Some(y);
                                }
                            },
                        }
                    },
                    None => {},
                }
                k = k + 1;
            }
            match m {
                Some(x) => {
                    last_amount = x;
                    last_total = x;
                },
                None => {
                    return None;
                },
            }
        }
        if last_amount < self.big_blind.0 {
            last_amount = self.big_blind.0;
        }
        let call = self.call_amount(player);
        let old_stack = self.prev_stack(player.0 as usize);
        let current = self.cur_stack(player.0 as usize);
        let to = last_total + last_amount;
        if call.0 >= current.0 {
            None
        } else if to > old_stack.0 {
            Some((Amount(old_stack.0 - last_total), old_stack))
        } else {
            Some((Amount(last_amount), Amount(to)))
        }
    }

    /// Whether the raise computation is defined in this state (see `raise_defined`).
    pub fn raise_is_defined(&self) -> (r: bool)
        requires
            self.wf(),
        ensures
            r == self.raise_defined(),
    {
        let player = match self.current_player {
            None => return true,
            Some(p) => p,
        };
        let v = self.actions_in_street();
        let mut last_amount: u32 = 0;
        let mut last_total: u32 = 0;
        let mut i: usize = 0;
        while i < v.len()
            invariant
                self.wf(),
                v@ == self.street_actions(),
                i <= v@.len(),
                last_amount == bet_max(v@, i as int),
                last_total == last_to(v@, i as int),
            decreases v@.len() - i,
        {
            match v[i] {
                Action::Bet { amount, .. } => {
                    if amount.0 > last_amount {
                        last_amount = amount.0;
                    }
                    last_total = amount.0;
                },
                Action::Raise { amount, to, .. } => {
                    if amount.0 > last_amount {
                        last_amount = amount.0;
                    }
                    last_total = to.0;
                },
                _ => {},
            }
            i = i + 1;
        }
        if last_amount == 0 {
            if self.street_index() != 0 {
                return true;
            }
            let mut m: Option<u32> = None;
            let mut k: usize = 0;
            while k < v.len()
                invariant
                    self.wf(),
                    v@ == self.street_actions(),
                    k <= v@.len(),
                    post_max(v@, k as int) == match m {
                        None => -1,
                        Some(x) => x as int,
                    },
                decreases v@.len() - k,
            {
                let x: Option<u32> = match v[k] {
                    Action::Straddle { amount, .. } => Some(amount.0),
                    Action::Post { amount, dead, .. } => if dead {
                        None
                    } else {
                        Some(amount.0)
                    },
                    _ => None,
                };
                match x {
                    Some(y) => {
                        match m {
                            None => {
                                m = Some(y);
                            },
                            Some(z) => {
                                if y > z {
                                    m = Some(y);
                                }
                            },
                        }
                    },
                    None => {},
                }
                k = k + 1;
            }
            match m {
                Some(x) => {
                    last_amount = x;
                    last_total = x;
                },
                None => {
                    return false;
                },
            }
        }
        if last_amount < self.big_blind.0 {
            last_amount = self.big_blind.0;
        }
        if last_total == 0 {
            return false;
        }
        let to: u64 = last_total as u64 + last_amount as u64;
        if to > 4294967295u64 {
            return false;
        }
        let call = self.call_amount(player);
        let old_stack = self.prev_stack(player.0 as usize);
        let current = self.cur_stack(player.0 as usize);
        if call.0 < current.0 && to > old_stack.0 as u64 {
            last_total <= old_stack.0
        } else {
            true
        }
    }

    /// Whether an additional post can be checked in this state (see `post_defined`).
    pub fn post_is_defined(&self) -> (r: bool)
        requires
            self.wf(),
        ensures
            r == self.post_defined(),
    {
        if self.current_action_index == 0 || self.street_index() != 0 {
            return true;
        }
        let v = self.actions_in_street();
        let mut i: usize = 0;
        while i < v.len()
            invariant
                self.wf(),
                v@ == self.street_actions(),
                i <= v@.len(),
                forall|j: int| 0 <= j < i ==> #[trigger] v@[j] is Post,
            decreases v@.len() - i,
        {
            match v[i] {
                Action::Post { .. } => {},
                _ => {
                    return true;
                },
            }
            i = i + 1;
        }
        match self.actions[self.current_action_index - 1] {
            Action::Post { .. } => true,
            _ => false,
        }
    }

    /// The most the current player may put in this street, when a bet or a raise
    /// is open to the player.
    pub fn can_all_in(&self) -> (r: Option<Amount>)
        requires
            self.wf(),
            self.raise_defined(),
        ensures
            r == match self.player_now() {
                None => None::<Amount>,
                Some(p) => if self.bet_open() || self.raise_spec() is Some {
                    Some(Amount(self.prev(p.value()) as u32))
                } else {
                    None::<Amount>
                },
            },
    {
        let player = match self.current_player {
            None => return None,
            Some(p) => p,
        };
        if self.can_bet().is_some() || self.can_raise().is_some() {
            Some(self.prev_stack(player.0 as usize))
        } else {
            None
        }
    }
}


impl Game {
    /// Whether `q` is still in the hand and has chips behind.
    pub closed spec fn live(self, q: int) -> bool {
        self.in_hand(q) && self.cur(q) != 0
    }

    /// Number of live players among the first `n`.
    pub closed spec fn live_upto(self, n: int) -> nat
        decreases n,
    {
        if n <= 0 {
            0
        } else if self.live(n - 1) {
            self.live_upto(n - 1) + 1
        } else {
            self.live_upto(n - 1)
        }
    }

    /// Whether `q` took a voluntary action (not a post or straddle) in this street.
    pub closed spec fn acted(self, q: int) -> bool {
        exists|i: int|
            0 <= i < self.street_actions().len() && !(self.street_actions()[i] is Post)
                && !(self.street_actions()[i] is Straddle) && (action_player(
                #[trigger] self.street_actions()[i],
            ) matches Some(x) && x.value() == q)
    }

    /// The betting round is over: every live player acted (or only one is left)
    /// and all live players put in the same amount.
    pub closed spec fn round_closed(self) -> bool {
        &&& (self.live_upto(self.pc()) == 1 || forall|q: int| 0 <= q < self.pc() && self.live(q) ==> self.acted(q))
        &&& forall|q: int| 0 <= q < self.pc() && self.live(q) ==> self.inv(q) == self.max_inv()
    }

    /// The first live player found going round the table from `start`, trying
    /// offsets `k`, `k + 1`, ... below the player count.
    pub closed spec fn rotate_from(self, start: int, k: int) -> Option<Player>
        decreases self.pc() - k,
    {
        if k >= self.pc() {
            None
        } else if self.live((start + k) % self.pc()) {
            Some(Player(((start + k) % self.pc()) as u8))
        } else {
            self.rotate_from(start, k + 1)
        }
    }

    /// Who acts after `start`: nobody when the round is over, else the next live
    /// player round the table.
    pub closed spec fn next_to_act(self, start: int) -> Option<Player> {
        if self.round_closed() {
            None
        } else {
            self.rotate_from(start, 1)
        }
    }

    proof fn lemma_rotate_from(self, start: int, k: int)
        requires
            self.wf(),
            0 <= start < self.pc(),
            1 <= k,
        ensures
            self.rotate_from(start, k) matches Some(q) ==> q.value() < self.pc() && self.live(
                q.value(),
            ),
        decreases self.pc() - k,
    {
        if k < self.pc() && !self.live((start + k) % self.pc()) {
            self.lemma_rotate_from(start, k + 1);
        }
    }

    /// Whether `q` took a voluntary action among `v`.
    fn has_acted(v: &Vec<Action>, q: usize) -> (r: bool)
        ensures
            r == exists|i: int|
                0 <= i < v@.len() && !(v@[i] is Post) && !(v@[i] is Straddle) && (action_player(
                    #[trigger] v@[i],
                ) matches Some(x) && x.value() == q),
    {
        let mut i: usize = 0;
        while i < v.len()
            invariant
                i <= v@.len(),
                forall|j: int|
                    0 <= j < i ==> !(!(v@[j] is Post) && !(v@[j] is Straddle) && (action_player(
                        #[trigger] v@[j],
                    ) matches Some(x) && x.value() == q)),
            decreases v@.len() - i,
        {
            let a = v[i];
            let hit = match a {
                Action::Post { .. } => false,
                Action::Straddle { .. } => false,
                _ => match a.player() {
                    Some(x) => x.0 as usize == q,
                    None => false,
                },
            };
            if hit {
                return true;
            }
            i = i + 1;
        }
        false
    }

    /// Whether the betting round is over.
    fn round_is_closed(&self) -> (r: bool)
        requires
            self.wf(),
        ensures
            r == self.round_closed(),
    {
        let v = self.actions_in_street();
        let max = self.max_invested();
        let n = self.player_count as usize;
        let mut count: usize = 0;
        let mut all_acted = true;
        let mut all_equal = true;
        let mut q: usize = 0;
        while q < n
            invariant
                self.wf(),
                n == self.pc(),
                v@ == self.street_actions(),
                max.value() == self.max_inv(),
                q <= n,
                count == self.live_upto(q as int),
                count <= q,
                all_acted == forall|x: int| 0 <= x < q && self.live(x) ==> self.acted(x),
                all_equal == forall|x: int| 0 <= x < q && self.live(x) ==> self.inv(x) == self.max_inv(),
            decreases n - q,
        {
            let live = self.not_folded.has(q) && self.cur_stack(q).0 != 0;
            if live {
                count = count + 1;
                let acted = Self::has_acted(&v, q);
                proof {
                    assert(acted == self.acted(q as int));
                }
                if !acted {
                    all_acted = false;
                }
                if self.invested(Player(q as u8)).0 != max.0 {
                    all_equal = false;
                }
            }
            q = q + 1;
        }
        (count == 1 || all_acted) && all_equal
    }

    proof fn lemma_wf_set_player(a: Game, p: Option<Player>)
        requires
            a.wf(),
            p matches Some(x) ==> x.value() < a.pc(),
            a.current_action_index == 0 ==> p is None,
        ensures
            (Game { current_player: p, ..a }).wf(),
    {
        let b = Game { current_player: p, ..a };
        assert forall|q: int| 0 <= q < b.pc() implies #[trigger] b.starting(q) > 0 by {
            assert(a.starting(q) > 0);
        }
        if b.current_action_index == 0 {
            assert forall|q: int| 0 <= q < b.pc() implies #[trigger] b.in_hand(q) && b.reference(q) == b.starting(q)
                && b.stk(0, q) == b.starting(q) by {
                assert(a.in_hand(q));
            }
        }
        assert(b.street_idx() == a.street_idx());
        assert forall|q: int| 0 <= q < 10 implies #[trigger] b.reference(q) <= b.starting(q) by {
            assert(b.reference(q) == a.reference(q));
        }
        assert forall|s: int, q: int|
            0 <= s <= b.street_idx() && 0 <= q < 10 implies #[trigger] b.stk(s, q) <= if s == 0 {
                b.reference(q)
            } else {
                b.stk(s - 1, q)
            } by {
            assert(b.stk(s, q) == a.stk(s, q));
            assert(a.stk(s, q) <= if s == 0 {
                a.reference(q)
            } else {
                a.stk(s - 1, q)
            });
        }
        lemma_starting_upto_eq(a, b, b.pc());
    }

    /// Moves the turn to the next live player after the current one, or to
    /// nobody when the betting round is over.
    fn next_player(&mut self)
        requires
            old(self).wf(),
            old(self).player_now() is Some,
        ensures
            *final(self) == (Game {
                current_player: old(self).next_to_act(old(self).player_now()->Some_0.value()),
                ..*old(self)
            }),
            final(self).wf(),
    {
        let start = match self.current_player {
            Some(p) => p,
            None => return,
        };
        let ghost g = *self;
        if self.round_is_closed() {
            self.current_player = None;
            proof {
                Self::lemma_wf_set_player(g, None);
            }
            return;
        }
        let n = self.player_count as usize;
        let mut k: usize = 1;
        while k < n
            invariant
                g.wf(),
                !g.round_closed(),
                g.player_now() == Some(start),
                *old(self) == g,
                *self == g,
                n == g.pc(),
                1 <= k <= n,
                start.value() < n,
                g.rotate_from(start.value(), 1) == g.rotate_from(start.value(), k as int),
            decreases n - k,
        {
            let q = (start.0 as usize + k) % n;
            if self.not_folded.has(q) && self.cur_stack(q).0 != 0 {
                proof {
                    assert(q as int == (start.value() + k) % (g.pc()));
                    assert(g.live(q as int));
                    assert(g.rotate_from(start.value(), k as int) == Some(Player(q as u8)));
                    Self::lemma_wf_set_player(g, Some(Player(q as u8)));
                }
                self.current_player = Some(Player(q as u8));
                return;
            }
            k = k + 1;
        }
        self.current_player = None;
        proof {
            Self::lemma_wf_set_player(g, None);
        }
    }
}


impl Game {
    /// The players, blinds, names, seats, hands and descriptive data are the same.
    pub closed spec fn same_table(self, other: Game) -> bool {
        &&& self.player_count == other.player_count
        &&& self.button == other.button
        &&& self.small_blind == other.small_blind
        &&& self.big_blind == other.big_blind
        &&& self.starting_stacks@ == other.starting_stacks@
        &&& self.names@ == other.names@
        &&& self.seats@ == other.seats@
        &&& self.unit == other.unit
        &&& self.max_players == other.max_players
        &&& self.location == other.location
        &&& self.table_name == other.table_name
        &&& self.hand_name == other.hand_name
        &&& self.hero == other.hero
        &&& self.hands@ == other.hands@
    }

    /// Everything but the betting state and the boards is the same.
    pub closed spec fn same_setup_but_boards(self, other: Game) -> bool {
        &&& self.player_count == other.player_count
        &&& self.button == other.button
        &&& self.small_blind == other.small_blind
        &&& self.big_blind == other.big_blind
        &&& self.starting_stacks@ == other.starting_stacks@
        &&& self.names@ == other.names@
        &&& self.seats@ == other.seats@
        &&& self.unit == other.unit
        &&& self.max_players == other.max_players
        &&& self.location == other.location
        &&& self.table_name == other.table_name
        &&& self.hand_name == other.hand_name
        &&& self.hero == other.hero
        &&& self.hands@ == other.hands@
        &&& self.reference_stacks@ == other.reference_stacks@
        &&& self.showdown_stacks@ == other.showdown_stacks@
        &&& self.hand_shown == other.hand_shown
        &&& self.hand_mucked == other.hand_mucked
        &&& self.at_end == other.at_end
        &&& self.not_folded == other.not_folded
    }

    /// The table, the players and the showdown stacks are the same.
    pub closed spec fn keeps_table(self, other: Game) -> bool {
        &&& self.same_table(other)
        &&& self.showdown_stacks@ == other.showdown_stacks@
    }

    /// A game that keeps the table of another has its players, button,
    /// blinds, hero and seat count.
    pub proof fn lemma_keeps_table_fields(a: Game, b: Game)
        requires
            b.keeps_table(a),
        ensures
            b.pc() == a.pc(),
            b.button_player() == a.button_player(),
            b.small_blind_amount() == a.small_blind_amount(),
            b.big_blind_amount() == a.big_blind_amount(),
            b.hero_of() == a.hero_of(),
            b.max_players_of() == a.max_players_of(),
            forall|i: int| #[trigger] b.starting(i) == a.starting(i),
            forall|i: int| #[trigger] b.name_at(i) == a.name_at(i),
            forall|i: int| #[trigger] b.hand_at(i) == a.hand_at(i),
            forall|i: int| #[trigger] b.seat_at(i) == a.seat_at(i),
    {
    }

    /// Every game keeps its own table.
    pub proof fn lemma_keeps_table_refl(self)
        ensures
            self.keeps_table(self),
    {
    }

    /// Keeping the table carries over a sequence of steps.
    pub proof fn lemma_keeps_table_trans(a: Game, b: Game, c: Game)
        requires
            b.keeps_table(a),
            c.keeps_table(b),
        ensures
            c.keeps_table(a),
    {
    }

    /// Index where the current street's actions start.
    pub closed spec fn street_start(self) -> int {
        self.current_street_index as int
    }

    /// Everything but the betting state (stacks in streets, action log, replay
    /// position, player to act, folds) is the same.
    pub closed spec fn same_setup(self, other: Game) -> bool {
        &&& self.player_count == other.player_count
        &&& self.button == other.button
        &&& self.small_blind == other.small_blind
        &&& self.big_blind == other.big_blind
        &&& self.starting_stacks@ == other.starting_stacks@
        &&& self.names@ == other.names@
        &&& self.seats@ == other.seats@
        &&& self.unit == other.unit
        &&& self.max_players == other.max_players
        &&& self.location == other.location
        &&& self.table_name == other.table_name
        &&& self.hand_name == other.hand_name
        &&& self.hero == other.hero
        &&& self.hands@ == other.hands@
        &&& self.boards@ == other.boards@
        &&& self.current_board == other.current_board
        &&& self.showdown_stacks@ == other.showdown_stacks@
        &&& self.current_street_index == other.current_street_index
        &&& self.hand_shown == other.hand_shown
        &&& self.hand_mucked == other.hand_mucked
        &&& self.at_end == other.at_end
    }

    /// The replay stands at the last recorded action, so new actions may be added.
    pub closed spec fn at_final_action(self) -> bool {
        self.current_action_index == self.actions@.len()
    }

    proof fn lemma_pot_change(a: Game, b: Game, p: int, n: int)
        requires
            a.starting_stacks@ == b.starting_stacks@,
            forall|q: int| 0 <= q < 10 && q != p ==> a.cur(q) == b.cur(q),
            0 <= n <= 10,
        ensures
            b.pot_upto(n) == a.pot_upto(n) + if p < n && 0 <= p {
                a.cur(p) - b.cur(p)
            } else {
                0
            },
        decreases n,
    {
        if n > 0 {
            Self::lemma_pot_change(a, b, p, n - 1);
            if n - 1 != p {
                assert(a.cur(n - 1) == b.cur(n - 1));
            }
        }
    }

    proof fn lemma_pot_change2(a: Game, b: Game, p1: int, p2: int, n: int)
        requires
            a.starting_stacks@ == b.starting_stacks@,
            p1 != p2,
            forall|q: int| 0 <= q < 10 && q != p1 && q != p2 ==> a.cur(q) == b.cur(q),
            0 <= n <= 10,
        ensures
            b.pot_upto(n) == a.pot_upto(n) + (if 0 <= p1 < n {
                a.cur(p1) - b.cur(p1)
            } else {
                0
            }) + (if 0 <= p2 < n {
                a.cur(p2) - b.cur(p2)
            } else {
                0
            }),
        decreases n,
    {
        if n > 0 {
            Self::lemma_pot_change2(a, b, p1, p2, n - 1);
        }
    }

    proof fn lemma_max_inv_eq(a: Game, b: Game, n: int)
        requires
            forall|q: int| 0 <= q < n ==> a.inv(q) == b.inv(q),
        ensures
            a.max_inv_upto(n) == b.max_inv_upto(n),
        decreases n,
    {
        if n > 0 {
            Self::lemma_max_inv_eq(a, b, n - 1);
        }
    }

    fn check_pre_update(&self, replay: bool) -> (r: Result<(), PlayError>)
        ensures
            r is Ok <==> (replay || self.at_final_action()),
            r is Err ==> r == Err::<(), PlayError>(PlayError::NotAtFinalAction),
    {
        if !replay && self.current_action_index != self.actions.len() {
            Err(PlayError::NotAtFinalAction)
        } else {
            Ok(())
        }
    }

    /// Whether the action to record can be recorded: appended at the end, or,
    /// when replaying, equal to the next recorded action.
    pub closed spec fn can_record(self, replay: bool, action: Action) -> bool {
        if replay {
            self.current_action_index < self.actions@.len() && self.actions@[self.current_action_index as int]
                == action
        } else {
            self.current_action_index == self.actions@.len()
        }
    }

    fn check_record(&self, replay: bool, action: &Action) -> (r: Result<(), PlayError>)
        requires
            self.wf(),
        ensures
            r is Ok <==> self.can_record(replay, *action),
            r is Err ==> r == Err::<(), PlayError>(if replay {
                PlayError::ReplayMismatch
            } else {
                PlayError::NotAtFinalAction
            }),
    {
        if replay {
            if self.current_action_index < self.actions.len() && crate::game::actions_equal(
                &self.actions[self.current_action_index],
                action,
            ) {
                Ok(())
            } else {
                Err(PlayError::ReplayMismatch)
            }
        } else if self.current_action_index == self.actions.len() {
            Ok(())
        } else {
            Err(PlayError::NotAtFinalAction)
        }
    }

    /// The log after recording `action`.
    pub open spec fn log_after(self, replay: bool, action: Action) -> Seq<Action> {
        if replay {
            self.action_log()
        } else {
            self.action_log().push(action)
        }
    }

    /// Records a betting action of the player to act `p`, whose stack in this
    /// street becomes `new_stack` (and who leaves the hand when `fold`), then
    /// passes the turn.
    fn take_turn(&mut self, replay: bool, p: Player, new_stack: Amount, action: Action, fold: bool)
        requires
            old(self).wf(),
            old(self).player_now() == Some(p),
            new_stack.value() <= old(self).prev(p.value()),
            old(self).can_record(replay, action),
            action_player(action) == Some(p),
        ensures
            final(self).wf(),
            final(self).same_setup(*old(self)),
            final(self).street_idx() == old(self).street_idx(),
            final(self).action_log() == old(self).log_after(replay, action),
            final(self).replay_index() == old(self).replay_index() + 1,
            final(self).cur(p.value()) == new_stack.value(),
            forall|q: int| 0 <= q < 10 && q != p.value() ==> final(self).cur(q) == old(self).cur(q),
            forall|q: int| 0 <= q < 10 ==> final(self).prev(q) == old(self).prev(q),
            forall|q: int| 0 <= q < 10 ==> final(self).reference(q) == old(self).reference(q),
            forall|q: int|
                #![trigger final(self).in_hand(q)]
                0 <= q < 10 ==> final(self).in_hand(q) == (old(self).in_hand(q) && !(fold && q
                    == p.value())),
            final(self).player_now() == final(self).next_to_act(p.value()),
            final(self).pot() == old(self).pot() + old(self).cur(p.value()) - new_stack.value(),
    {
        let ghost g = *self;
        let s = self.street_index();
        let pi = p.0 as usize;
        self.stacks_in_street.set(s * MAX_PLAYERS + pi, new_stack);
        if fold {
            self.not_folded.remove(pi);
        }
        if !replay {
            self.actions.push(action);
            assert(self.actions@.len() == g.actions@.len() + 1);
        }
        let len = self.actions.len();
        assert(self.current_action_index == g.current_action_index);
        assert(self.current_action_index < len);
        self.current_action_index = self.current_action_index + 1;
        proof {
            assert(self.street_idx() == g.street_idx());
            if self.current_street_index > 0 {
                assert(self.actions@[self.current_street_index - 1] == g.actions@[self.current_street_index - 1]);
            }
            assert forall|q: int| 0 <= q < 10 && q != p.value() implies self.cur(q) == g.cur(q) by {
                assert(s * 10 + q != s * 10 + pi);
            }
            assert forall|t: int, q: int| 0 <= t < 4 && 0 <= q < 10 && !(t == s && q == pi) implies
                self.stk(t, q) == g.stk(t, q) by {
                assert(t * 10 + q != s * 10 + pi) by (nonlinear_arith)
                    requires
                        0 <= t < 4,
                        0 <= q < 10,
                        0 <= s < 4,
                        0 <= pi < 10,
                        !(t == s && q == pi),
                ;
            }
            assert forall|q: int| 0 <= q < 10 implies self.prev(q) == g.prev(q) by {
                if s > 0 {
                    assert(self.stk(s - 1, q) == g.stk(s - 1, q));
                }
            }
            assert forall|t: int, q: int|
                0 <= t <= self.street_idx() && 0 <= q < 10 implies #[trigger] self.stk(t, q) <= if t == 0 {
                    self.reference(q)
                } else {
                    self.stk(t - 1, q)
                } by {
                if t == s && q == pi {
                    assert(self.stk(t, q) == new_stack.value());
                } else {
                    assert(self.stk(t, q) == g.stk(t, q));
                    assert(g.stk(t, q) <= if t == 0 {
                        g.reference(q)
                    } else {
                        g.stk(t - 1, q)
                    });
                    if t > 0 {
                        if t - 1 == s && q == pi {
                            assert(false);
                        } else {
                            assert(self.stk(t - 1, q) == g.stk(t - 1, q));
                        }
                    }
                }
            }
            assert forall|i: int| 0 <= i < self.actions@.len() implies (action_player(
                #[trigger] self.actions@[i],
            ) matches Some(x) ==> x.value() < self.pc()) by {
                if i < g.actions@.len() {
                    assert(self.actions@[i] == g.actions@[i]);
                }
            }
            lemma_starting_upto_eq(g, *self, self.pc());
            assert(2 <= self.player_count <= 10);
            assert(self.stacks_in_street@.len() == 40);
            assert(self.current_action_index <= self.actions@.len());
            assert(self.current_street_index <= self.current_action_index);
            assert(self.current_street_index == 0 || action_street(
                self.actions@[self.current_street_index - 1],
            ) is Some);
            assert forall|q: int| 0 <= q < 10 implies #[trigger] self.reference(q) <= self.starting(q) by {
                assert(self.reference(q) == g.reference(q));
                assert(self.starting(q) == g.starting(q));
            }
            assert(self.starting_upto(self.pc()) <= u32::MAX);
            assert forall|q: int| 0 <= q < self.pc() implies #[trigger] self.starting(q) > 0 by {
                assert(g.starting(q) > 0);
            }
            assert(self.wf());
            Self::lemma_pot_change(g, *self, p.value(), self.pc());
        }
        let ghost mid = *self;
        self.next_player();
        proof {
            Self::lemma_player_irrelevant(mid, *self);
        }
    }

    /// The player to act folds.
    fn fold_step(&mut self, replay: bool) -> (r: Result<(), PlayError>)
        requires
            old(self).wf(),
        ensures
            final(self).keeps_table(*old(self)),
            final(self).wf(),
            r is Ok <==> old(self).fold_ok(replay),
            r is Err ==> *final(self) == *old(self),
            r is Ok ==> old(self).fold_effect(*final(self), replay),
    {
        self.check_pre_update(replay)?;
        let p = match self.current_player {
            Some(p) => p,
            None => return Err(PlayError::NoCurrentPlayer),
        };
        let action = Action::Fold(p);
        self.check_record(replay, &action)?;
        proof {
            self.lemma_stacks_ordered(p.value());
        }
        let stack = self.cur_stack(p.0 as usize);
        self.take_turn(replay, p, stack, action, true);
        Ok(())
    }

    /// The player to act checks.
    fn check_step(&mut self, replay: bool) -> (r: Result<(), PlayError>)
        requires
            old(self).wf(),
        ensures
            final(self).keeps_table(*old(self)),
            final(self).wf(),
            r is Ok <==> old(self).check_ok(replay),
            r is Err ==> *final(self) == *old(self),
            r is Ok ==> old(self).check_effect(*final(self), replay),
    {
        self.check_pre_update(replay)?;
        let p = match self.current_player {
            Some(p) => p,
            None => return Err(PlayError::NoCurrentPlayer),
        };
        if !self.can_check() {
            return Err(PlayError::CheckNotAllowed);
        }
        let action = Action::Check(p);
        self.check_record(replay, &action)?;
        proof {
            self.lemma_stacks_ordered(p.value());
        }
        let stack = self.cur_stack(p.0 as usize);
        self.take_turn(replay, p, stack, action, false);
        Ok(())
    }

    /// The call amount of the player to act, as `can_call` gives it.
    pub closed spec fn call_spec(self) -> Option<int> {
        match self.player_now() {
            None => None,
            Some(p) => if self.to_call(p.value()) == 0 {
                None
            } else if self.cur(p.value()) < self.to_call(p.value()) {
                Some(self.cur(p.value()))
            } else {
                Some(self.to_call(p.value()))
            },
        }
    }

    /// The player to act calls.
    fn call_step(&mut self, replay: bool) -> (r: Result<(), PlayError>)
        requires
            old(self).wf(),
        ensures
            final(self).keeps_table(*old(self)),
            final(self).wf(),
            r is Ok <==> old(self).call_ok(replay),
            r is Err ==> *final(self) == *old(self),
            r is Ok ==> old(self).call_effect(*final(self), replay),
    {
        self.check_pre_update(replay)?;
        let p = match self.current_player {
            Some(p) => p,
            None => return Err(PlayError::NoCurrentPlayer),
        };
        proof {
            self.lemma_max_inv(self.pc());
            self.lemma_stacks_ordered(p.value());
        }
        let amount = match self.can_call() {
            Some(a) => a,
            None => return Err(PlayError::CallNotAllowed),
        };
        let action = Action::Call { player: p, amount };
        self.check_record(replay, &action)?;
        proof {
            self.lemma_stacks_ordered(p.value());
        }
        let stack = self.cur_stack(p.0 as usize);
        proof {
            assert(amount.value() <= stack.value());
        }
        self.take_turn(replay, p, Amount(stack.0 - amount.0), action, false);
        Ok(())
    }

    /// The player to act bets `amount`.
    fn bet_step(&mut self, replay: bool, amount: Amount) -> (r: Result<(), PlayError>)
        requires
            old(self).wf(),
        ensures
            final(self).keeps_table(*old(self)),
            final(self).wf(),
            r is Ok <==> old(self).bet_ok(replay, amount),
            r is Err ==> *final(self) == *old(self),
            r is Ok ==> old(self).bet_effect(*final(self), replay, amount),
    {
        self.check_pre_update(replay)?;
        let p = match self.current_player {
            Some(p) => p,
            None => return Err(PlayError::NoCurrentPlayer),
        };
        let min_amount = match self.can_bet() {
            Some(a) => a,
            None => return Err(PlayError::BetNotAllowed),
        };
        if amount.0 < min_amount.0 {
            return Err(PlayError::BetTooSmall);
        }
        let stack = self.cur_stack(p.0 as usize);
        if amount.0 > stack.0 {
            return Err(PlayError::CannotAfford);
        }
        let action = Action::Bet { player: p, amount };
        self.check_record(replay, &action)?;
        proof {
            self.lemma_stacks_ordered(p.value());
        }
        self.take_turn(replay, p, Amount(stack.0 - amount.0), action, false);
        Ok(())
    }

    /// The smallest bet of `p`: the big blind, limited by the stack.
    pub closed spec fn min_bet(self, p: int) -> int {
        if self.cur(p) < self.big_blind.value() {
            self.cur(p)
        } else {
            self.big_blind.value()
        }
    }
}


impl Game {
    /// `b` is `a` with another player to act.
    pub closed spec fn only_player_differs(a: Game, b: Game) -> bool {
        b == (Game { current_player: b.current_player, ..a })
    }

    proof fn lemma_street_end_eq(a: Game, b: Game, i: int)
        requires
            Self::only_player_differs(a, b),
        ensures
            a.street_end_from(i) == b.street_end_from(i),
        decreases a.current_action_index - i,
    {
        if i < a.current_action_index && action_player(a.actions@[i]) is Some {
            Self::lemma_street_end_eq(a, b, i + 1);
        }
    }

    proof fn lemma_all_in_eq(a: Game, b: Game, n: int)
        requires
            Self::only_player_differs(a, b),
        ensures
            a.all_in_upto(n) == b.all_in_upto(n),
            a.all_in_terminated() == b.all_in_terminated(),
        decreases n,
    {
        if n > 0 {
            Self::lemma_all_in_eq(a, b, n - 1);
        }
        Self::lemma_all_in_upto_eq(a, b, a.pc());
    }

    proof fn lemma_all_in_upto_eq(a: Game, b: Game, n: int)
        requires
            Self::only_player_differs(a, b),
        ensures
            a.all_in_upto(n) == b.all_in_upto(n),
        decreases n,
    {
        if n > 0 {
            Self::lemma_all_in_upto_eq(a, b, n - 1);
        }
    }

    proof fn lemma_live_upto_eq(a: Game, b: Game, n: int)
        requires
            Self::only_player_differs(a, b),
        ensures
            a.live_upto(n) == b.live_upto(n),
        decreases n,
    {
        if n > 0 {
            Self::lemma_live_upto_eq(a, b, n - 1);
        }
    }

    proof fn lemma_rotate_eq(a: Game, b: Game, start: int, k: int)
        requires
            Self::only_player_differs(a, b),
        ensures
            a.rotate_from(start, k) == b.rotate_from(start, k),
        decreases a.pc() - k,
    {
        if k < a.pc() {
            Self::lemma_rotate_eq(a, b, start, k + 1);
        }
    }

    proof fn lemma_pot_eq(a: Game, b: Game, n: int)
        requires
            Self::only_player_differs(a, b),
        ensures
            a.pot_upto(n) == b.pot_upto(n),
        decreases n,
    {
        if n > 0 {
            Self::lemma_pot_eq(a, b, n - 1);
        }
    }

    proof fn lemma_max_inv_upto_eq(a: Game, b: Game, n: int)
        requires
            Self::only_player_differs(a, b),
        ensures
            a.max_inv_upto(n) == b.max_inv_upto(n),
        decreases n,
    {
        if n > 0 {
            Self::lemma_max_inv_upto_eq(a, b, n - 1);
        }
    }

    /// Who is to act does not change what comes next, nor the pot.
    proof fn lemma_player_irrelevant(a: Game, b: Game)
        requires
            Self::only_player_differs(a, b),
        ensures
            forall|s: int| a.next_to_act(s) == b.next_to_act(s),
            a.pot() == b.pot(),
            a.street_actions() == b.street_actions(),
            a.max_inv() == b.max_inv(),
    {
        Self::lemma_street_end_eq(a, b, a.current_street_index as int);
        Self::lemma_live_upto_eq(a, b, a.pc());
        Self::lemma_max_inv_upto_eq(a, b, a.pc());
        Self::lemma_pot_eq(a, b, a.pc());
        assert(a.street_actions() == b.street_actions());
        assert forall|q: int| a.acted(q) == b.acted(q) && a.live(q) == b.live(q) && a.inv(q) == b.inv(q) by {}
        assert(a.round_closed() == b.round_closed());
        assert forall|s: int| a.next_to_act(s) == b.next_to_act(s) by {
            Self::lemma_rotate_eq(a, b, s, 1);
        }
    }
}


impl Game {
    /// The player to act raises to a street total of `to`. With `checked`, a
    /// total below the minimum is refused; without, the raise size is derived
    /// from the minimum raise whatever the total.
    fn raise_to_step(&mut self, replay: bool, to: Amount, checked: bool) -> (r: Result<(), PlayError>)
        requires
            old(self).wf(),
            old(self).raise_defined(),
        ensures
            final(self).keeps_table(*old(self)),
            final(self).wf(),
            r is Ok <==> old(self).raise_ok(replay, to, checked),
            r is Err ==> *final(self) == *old(self),
            r is Ok ==> old(self).raise_effect(*final(self), replay, to),
    {
        self.check_pre_update(replay)?;
        let p = match self.current_player {
            Some(p) => p,
            None => return Err(PlayError::NoCurrentPlayer),
        };
        let (min_amount, min_to) = match self.can_raise() {
            Some(x) => x,
            None => return Err(PlayError::RaiseNotAllowed),
        };
        if checked && to.0 < min_to.0 {
            return Err(PlayError::RaiseTooSmall);
        }
        let previous = self.prev_stack(p.0 as usize);
        if to.0 > previous.0 {
            return Err(PlayError::CannotAfford);
        }
        let amount = if checked {
            match min_amount.0.checked_add(to.0 - min_to.0) {
                Some(a) => a,
                None => return Err(PlayError::AmountOverflow),
            }
        } else {
            match min_amount.0.checked_add(to.0) {
                Some(x) => match x.checked_sub(min_to.0) {
                    Some(a) => a,
                    None => return Err(PlayError::AmountOverflow),
                },
                None => return Err(PlayError::AmountOverflow),
            }
        };
        let old_stack = self.cur_stack(p.0 as usize);
        let action = Action::Raise { player: p, old_stack, amount: Amount(amount), to };
        proof {
            assert(action == self.raise_action(to));
        }
        self.check_record(replay, &action)?;
        proof {
            self.lemma_stacks_ordered(p.value());
        }
        self.take_turn(replay, p, Amount(previous.0 - to.0), action, false);
        Ok(())
    }

    /// The raise size of a raise to `to`: the minimum size plus what the total
    /// exceeds the minimum total by.
    pub closed spec fn raise_size(self, to: int) -> int {
        self.raise_spec()->Some_0.0 + to - self.raise_spec()->Some_0.1
    }

    /// The action recorded for a raise of the player to act to `to`.
    pub closed spec fn raise_action(self, to: Amount) -> Action {
        Action::Raise {
            player: self.player_now()->Some_0,
            old_stack: Amount(self.cur(self.player_now()->Some_0.value()) as u32),
            amount: Amount(self.raise_size(to.value()) as u32),
            to,
        }
    }
}


impl Game {
    /// The amount `p` posts for a blind of `blind`: the blind, or the whole
    /// starting stack when it is smaller.
    pub closed spec fn blind_post(self, p: int, blind: Amount) -> Amount {
        if self.starting(p) < blind.value() {
            self.starting_stacks@[p]
        } else {
            blind
        }
    }

    /// The two blind posts.
    pub closed spec fn blind_actions(self) -> Seq<Action> {
        seq![
            Action::Post {
                player: Player(self.sb_player() as u8),
                amount: self.blind_post(self.sb_player(), self.small_blind),
                dead: false,
            },
            Action::Post {
                player: Player(self.bb_player() as u8),
                amount: self.blind_post(self.bb_player(), self.big_blind),
                dead: false,
            },
        ]
    }

    /// Posts the small and the big blind at the start of the hand.
    fn blinds_step(&mut self, replay: bool) -> (r: Result<(), PlayError>)
        requires
            old(self).wf(),
        ensures
            final(self).keeps_table(*old(self)),
            final(self).wf(),
            r is Err ==> *final(self) == *old(self),
            r is Ok <==> old(self).blinds_ok(replay),
            r is Ok ==> final(self).blinds_posted(*old(self), replay),
    {
        self.check_pre_update(replay)?;
        if self.current_action_index != 0 {
            return Err(PlayError::WrongState);
        }
        let ghost g = *self;
        let sb = self.small_blind_player();
        let bb = self.big_blind_player();
        let si = sb.0 as usize;
        let bi = bb.0 as usize;
        let sb_amount = if self.starting_stacks[si].0 < self.small_blind.0 {
            self.starting_stacks[si]
        } else {
            self.small_blind
        };
        let bb_amount = if self.starting_stacks[bi].0 < self.big_blind.0 {
            self.starting_stacks[bi]
        } else {
            self.big_blind
        };
        let first = Action::Post { player: sb, amount: sb_amount, dead: false };
        let second = Action::Post { player: bb, amount: bb_amount, dead: false };
        proof {
            assert(seq![first, second] == g.blind_actions());
        }
        if replay {
            if self.actions.len() < 2 || !crate::game::actions_equal(&self.actions[0], &first)
                || !crate::game::actions_equal(&self.actions[1], &second) {
                proof {
                    if g.actions@.len() >= 2 {
                        assert(g.actions@.subrange(0, 2)[0] == g.actions@[0]);
                        assert(g.actions@.subrange(0, 2)[1] == g.actions@[1]);
                    }
                }
                return Err(PlayError::ReplayMismatch);
            }
            proof {
                assert(g.actions@.subrange(0, 2) =~= seq![first, second]);
            }
        }
        let s_stack = self.starting_stacks[si];
        let b_stack = self.starting_stacks[bi];
        self.stacks_in_street.set(si, Amount(s_stack.0 - sb_amount.0));
        self.stacks_in_street.set(bi, Amount(b_stack.0 - bb_amount.0));
        if !replay {
            self.actions.push(first);
            self.actions.push(second);
        }
        self.current_action_index = 2;
        self.current_player = Some(bb);
        proof {
            assert(g.fresh());
            lemma_blinds_differ(g.button.value(), g.pc());
            assert(sb.value() != bb.value());
            assert(self.street_idx() == 0);
            assert forall|q: int| 0 <= q < 10 && q != si && q != bi implies self.stk(0, q) == g.stk(0, q) by {}
            assert forall|t: int, q: int|
                0 <= t <= self.street_idx() && 0 <= q < 10 implies #[trigger] self.stk(t, q) <= if t == 0 {
                    self.reference(q)
                } else {
                    self.stk(t - 1, q)
                } by {
                assert(t == 0);
                assert(self.reference(q) == g.reference(q));
                if q == si || q == bi {
                    assert(g.in_hand(q));
                }
                if q != si && q != bi {
                    assert(self.stk(0, q) == g.stk(0, q));
                    assert(g.stk(0, q) <= g.reference(q));
                }
            }
            assert forall|q: int| 0 <= q < 10 implies #[trigger] self.reference(q) <= self.starting(q) by {
                assert(self.reference(q) == g.reference(q));
            }
            assert forall|q: int| 0 <= q < self.pc() implies #[trigger] self.starting(q) > 0 by {
                assert(g.starting(q) > 0);
            }
            assert forall|i: int| 0 <= i < self.actions@.len() implies (action_player(
                #[trigger] self.actions@[i],
            ) matches Some(x) ==> x.value() < self.pc()) by {
                if !replay {
                    assert(self.actions@ =~= seq![first, second]);
                }
            }
            lemma_starting_upto_eq(g, *self, self.pc());
            assert(self.wf());
            assert forall|q: int| 0 <= q < 10 && q != si && q != bi implies self.cur(q) == g.cur(q) by {}
            Self::lemma_pot_change2(g, *self, si as int, bi as int, self.pc());
            g.lemma_pot_upto_bound(g.pc());
            lemma_pot_zero_fresh(g, g.pc());
        }
        let ghost mid = *self;
        self.next_player();
        proof {
            Self::lemma_player_irrelevant(mid, *self);
            assert(g.in_hand(si as int));
            assert(g.in_hand(bi as int));
            assert(self.same_setup(g));
            assert(self.cur(si as int) == g.starting(si as int) - g.blind_post(si as int, g.small_blind).value());
            assert(self.cur(bi as int) == g.starting(bi as int) - g.blind_post(bi as int, g.big_blind).value());
            assert forall|q: int| 0 <= q < g.pc() implies #[trigger] self.in_hand(q) by {
                assert(g.in_hand(q));
            }
            assert forall|q: int| 0 <= q < g.pc() && q != si && q != bi implies self.cur(q) == g.starting(q) by {
                assert(g.in_hand(q));
            }
            if !replay {
                assert(self.action_log() =~= g.blind_actions());
            }
            assert(self.pot() == g.blind_post(si as int, g.small_blind).value() + g.blind_post(bi as int, g.big_blind).value());
        }
        Ok(())
    }
}


proof fn lemma_pot_zero_fresh(g: Game, n: int)
    requires
        g.wf(),
        g.fresh(),
        0 <= n <= g.pc(),
    ensures
        g.pot_upto(n) == 0,
    decreases n,
{
    if n > 0 {
        lemma_pot_zero_fresh(g, n - 1);
        assert(g.street_idx() == 0);
        assert(g.in_hand(n - 1));
        assert(g.cur(n - 1) == g.stk(0, n - 1));
    }
}


proof fn lemma_mod_step(x: int, m: int)
    by (nonlinear_arith)
    requires
        0 <= x < 2 * m,
        m > 0,
    ensures
        x % m == if x < m {
            x
        } else {
            x - m
        },
{
    if x >= m {
        assert(x == m + (x - m));
    }
}

/// Small and big blind are different players.
proof fn lemma_blinds_differ(b: int, n: int)
    requires
        0 <= b < n,
        2 <= n,
    ensures
        (if n == 2 { b } else { (b + 1) % n }) != (if n == 2 { (b + 1) % n } else { (b + 2) % n }),
        0 <= (if n == 2 { b } else { (b + 1) % n }) < n,
        0 <= (if n == 2 { (b + 1) % n } else { (b + 2) % n }) < n,
{
    lemma_mod_step(b + 1, n);
    lemma_mod_step(b + 2, n);
}


impl Game {
    /// Whether every betting action of this street is a post.
    pub closed spec fn only_posts(self) -> bool {
        forall|i: int| 0 <= i < self.street_actions().len() ==> #[trigger] self.street_actions()[i] is Post
    }

    /// Whether `c` posted in this street.
    pub closed spec fn posted(self, c: int) -> bool {
        exists|i: int|
            0 <= i < self.street_actions().len() && (#[trigger] self.street_actions()[i] matches Action::Post {
                player,
                ..
            } && player.value() == c)
    }

    /// Seats left of the small blind.
    pub closed spec fn from_small_blind(self, c: int) -> int {
        (c - self.sb_player() + self.pc()) % self.pc()
    }

    /// The last recorded action before the replay position.
    pub closed spec fn last_action(self) -> Action {
        self.actions@[self.current_action_index - 1]
    }

    /// The states in which an additional post can be checked: when the street
    /// holds only posts, the action before the replay position is a post,
    /// the post the next one is checked against.
    pub closed spec fn post_defined(self) -> bool {
        (self.current_action_index > 0 && self.street_idx() == 0 && self.only_posts()) ==> self.last_action() is Post
    }

    /// Why an additional post of `amount` by `player` (a dead one when `dead`) is
    /// refused, checked in this order; `None` when it is accepted.
    pub closed spec fn additional_post_error(self, replay: bool, player: Player, amount: Amount, dead: bool) -> Option<PlayError> {
        if !(replay || self.at_final_action()) {
            Some(PlayError::NotAtFinalAction)
        } else if player.value() >= self.pc() {
            Some(PlayError::InvalidPlayer)
        } else if amount.value() == 0 {
            Some(PlayError::InvalidPost)
        } else if self.current_action_index == 0 || self.street_idx() != 0 {
            Some(PlayError::WrongState)
        } else if !self.only_posts() {
            Some(PlayError::InvalidPost)
        } else if exists|c: int|
            0 <= c < self.pc() && self.from_small_blind(c) > self.from_small_blind(player.value())
                && #[trigger] self.posted(c) {
            Some(PlayError::InvalidPost)
        } else if (self.last_action() matches Action::Post { player: lp, amount: la, dead: ld } && lp
            == player && ((dead && !ld) || (ld == dead && la.value() > amount.value()))) {
            Some(PlayError::InvalidPost)
        } else if amount.value() > self.cur(player.value()) {
            Some(PlayError::CannotAfford)
        } else if !self.can_record(replay, Action::Post { player, amount, dead }) {
            Some(if replay { PlayError::ReplayMismatch } else { PlayError::NotAtFinalAction })
        } else {
            None
        }
    }

    /// Whether `c` posted among `v`.
    fn has_posted(v: &Vec<Action>, c: usize) -> (r: bool)
        ensures
            r == exists|i: int|
                0 <= i < v@.len() && (#[trigger] v@[i] matches Action::Post { player, .. } && player.value() == c),
    {
        let mut i: usize = 0;
        while i < v.len()
            invariant
                i <= v@.len(),
                forall|j: int|
                    0 <= j < i ==> !(#[trigger] v@[j] matches Action::Post { player, .. } && player.value() == c),
            decreases v@.len() - i,
        {
            match v[i] {
                Action::Post { player, .. } => {
                    if player.0 as usize == c {
                        return true;
                    }
                },
                _ => {},
            }
            i = i + 1;
        }
        false
    }

    /// An additional post before the action starts: a straddle-free post of
    /// `amount` by `player`, dead (not counting toward the player's bets) when
    /// `dead`.
    #[verifier::rlimit(40)]
    #[verifier::loop_isolation(false)]
    fn additional_post_step(&mut self, replay: bool, player: Player, amount: Amount, dead: bool) -> (r: Result<(), PlayError>)
        requires
            old(self).wf(),
            old(self).post_defined(),
        ensures
            final(self).keeps_table(*old(self)),
            final(self).wf(),
            match old(self).additional_post_error(replay, player, amount, dead) {
                Some(e) => r == Err::<(), PlayError>(e),
                None => r is Ok,
            },
            r is Err ==> *final(self) == *old(self),
            r is Ok ==> ({
                let p = player.value();
                &&& final(self).same_setup(*old(self))
                &&& final(self).street_idx() == 0
                &&& final(self).action_log() == old(self).log_after(replay, Action::Post { player, amount, dead })
                &&& final(self).replay_index() == old(self).replay_index() + 1
                &&& final(self).cur(p) == old(self).cur(p) - amount.value()
                &&& final(self).reference(p) == old(self).reference(p) - if dead {
                    amount.value()
                } else {
                    0
                }
                &&& forall|q: int| 0 <= q < 10 && q != p ==> final(self).cur(q) == old(self).cur(q)
                    && final(self).reference(q) == old(self).reference(q)
                &&& forall|q: int|
                    #![trigger final(self).in_hand(q)]
                    0 <= q < 10 ==> final(self).in_hand(q) == old(self).in_hand(q)
                &&& final(self).player_now() == old(self).player_now()
                &&& final(self).pot() == old(self).pot() + amount.value()
            }),
    {
        self.check_pre_update(replay)?;
        let n = self.player_count as usize;
        if player.0 as usize >= n {
            return Err(PlayError::InvalidPlayer);
        }
        if amount.0 == 0 {
            return Err(PlayError::InvalidPost);
        }
        if self.current_action_index == 0 || self.street_index() != 0 {
            return Err(PlayError::WrongState);
        }
        let v = self.actions_in_street();
        let mut i: usize = 0;
        while i < v.len()
            invariant
                self.wf(),
                v@ == self.street_actions(),
                i <= v@.len(),
                forall|j: int| 0 <= j < i ==> #[trigger] v@[j] is Post,
            decreases v@.len() - i,
        {
            match v[i] {
                Action::Post { .. } => {},
                _ => {
                    proof {
                        assert(!(self.street_actions()[i as int] is Post));
                        assert(!self.only_posts());
                    }
                    return Err(PlayError::InvalidPost);
                },
            }
            i = i + 1;
        }
        proof {
            assert(self.only_posts());
        }
        let sb = self.small_blind_player().0 as usize;
        let own = (player.0 as usize + n - sb) % n;
        proof {
            assert(own == self.from_small_blind(player.value()));
        }
        let mut c: usize = 0;
        while c < n
            invariant
                self.wf(),
                n == self.pc(),
                sb == self.sb_player(),
                own == self.from_small_blind(player.value()),
                v@ == self.street_actions(),
                self.only_posts(),
                c <= n,
                forall|x: int|
                    0 <= x < c && self.from_small_blind(x) > self.from_small_blind(player.value()) ==> !#[trigger] self.posted(x),
            decreases n - c,
        {
            let off = (c + n - sb) % n;
            proof {
                assert(off == self.from_small_blind(c as int));
            }
            if off > own && Self::has_posted(&v, c) {
                proof {
                    assert(self.posted(c as int));
                    assert(self.only_posts());
                    assert(0 <= c < self.pc() && self.from_small_blind(c as int) > self.from_small_blind(player.value())
                        && self.posted(c as int));
                }
                return Err(PlayError::InvalidPost);
            }
            c = c + 1;
        }
        let last = self.actions[self.current_action_index - 1];
        match last {
            Action::Post { player: lp, amount: la, dead: ld } => {
                if lp.0 == player.0 {
                    if dead && !ld {
                        return Err(PlayError::InvalidPost);
                    }
                    if ld == dead && la.0 > amount.0 {
                        return Err(PlayError::InvalidPost);
                    }
                }
            },
            _ => {
                proof {
                    assert(self.only_posts());
                    assert(false);
                }
                return Err(PlayError::InvalidPost);
            },
        }
        let pi = player.0 as usize;
        let stack = self.stacks_in_street[pi];
        if amount.0 > stack.0 {
            return Err(PlayError::CannotAfford);
        }
        let action = Action::Post { player, amount, dead };
        self.check_record(replay, &action)?;
        let ghost g = *self;
        proof {
            self.lemma_stacks_ordered(pi as int);
        }
        self.stacks_in_street.set(pi, Amount(stack.0 - amount.0));
        if dead {
            let r = self.reference_stacks[pi];
            self.reference_stacks.set(pi, Amount(r.0 - amount.0));
        }
        if !replay {
            self.actions.push(action);
        }
        let len = self.actions.len();
        assert(self.current_action_index < len);
        self.current_action_index = self.current_action_index + 1;
        proof {
            assert(self.street_idx() == 0);
            assert forall|q: int| 0 <= q < 10 && q != pi implies self.cur(q) == g.cur(q) && self.reference(q) == g.reference(q) by {}
            if self.current_street_index > 0 {
                assert(self.actions@[self.current_street_index - 1] == g.actions@[self.current_street_index - 1]);
            }
            assert forall|t: int, q: int|
                0 <= t <= self.street_idx() && 0 <= q < 10 implies #[trigger] self.stk(t, q) <= if t == 0 {
                    self.reference(q)
                } else {
                    self.stk(t - 1, q)
                } by {
                assert(t == 0);
                assert(g.stk(0, q) <= g.reference(q));
            }
            assert forall|q: int| 0 <= q < 10 implies #[trigger] self.reference(q) <= self.starting(q) by {
                assert(g.reference(q) <= g.starting(q));
            }
            assert forall|q: int| 0 <= q < self.pc() implies #[trigger] self.starting(q) > 0 by {
                assert(g.starting(q) > 0);
            }
            assert forall|i: int| 0 <= i < self.actions@.len() implies (action_player(
                #[trigger] self.actions@[i],
            ) matches Some(x) ==> x.value() < self.pc()) by {
                if i < g.actions@.len() {
                    assert(self.actions@[i] == g.actions@[i]);
                }
            }
            lemma_starting_upto_eq(g, *self, self.pc());
            assert(self.wf());
            Self::lemma_pot_change(g, *self, pi as int, self.pc());
        }
        Ok(())
    }
}


/// The size the next straddle is measured against after the first `n` actions
/// of the street (starting from the big blind `bb`): a straddle at least double
/// the last full one becomes the new one. Other actions than posts and
/// straddles, and doubling past the largest amount, are errors.
pub open spec fn straddle_floor(s: Seq<Action>, n: int, bb: int) -> Result<int, PlayError>
    decreases n,
{
    if n <= 0 {
        Ok(bb)
    } else {
        match straddle_floor(s, n - 1, bb) {
            Err(e) => Err(e),
            Ok(last) => match s[n - 1] {
                Action::Straddle { amount, .. } => if 2 * last > u32::MAX {
                    Err(PlayError::AmountOverflow)
                } else if amount.value() >= 2 * last {
                    Ok(amount.value())
                } else {
                    Ok(last)
                },
                Action::Post { .. } => Ok(last),
                _ => Err(PlayError::InvalidPost),
            },
        }
    }
}

proof fn lemma_straddle_floor(s: Seq<Action>, k: int, n: int, bb: int)
    requires
        0 <= k <= n <= s.len(),
        0 <= bb <= u32::MAX,
    ensures
        straddle_floor(s, n, bb) matches Ok(v) ==> 0 <= v <= u32::MAX,
        straddle_floor(s, k, bb) is Err ==> straddle_floor(s, n, bb) == straddle_floor(s, k, bb),
    decreases n,
{
    if n > 0 {
        if k < n {
            lemma_straddle_floor(s, k, n - 1, bb);
        } else {
            lemma_straddle_floor(s, k - 1, n - 1, bb);
        }
    }
}

impl Game {
    /// The smallest straddle `player` may post, or why none is allowed.
    pub closed spec fn straddle_spec(self, player: Player) -> Result<int, PlayError> {
        if player.value() >= self.pc() {
            Err(PlayError::InvalidPlayer)
        } else if self.current_action_index == 0 || self.street_idx() != 0 {
            Err(PlayError::WrongState)
        } else if self.cur(player.value()) == 0 {
            Err(PlayError::WrongState)
        } else {
            match straddle_floor(
                self.street_actions(),
                self.street_actions().len() as int,
                self.big_blind.value(),
            ) {
                Err(e) => Err(e),
                Ok(last) => if 2 * last > u32::MAX {
                    Err(PlayError::AmountOverflow)
                } else if self.reference(player.value()) < 2 * last {
                    Ok(self.reference(player.value()))
                } else {
                    Ok(2 * last)
                },
            }
        }
    }

    /// The smallest straddle `player` may post: double the last full straddle
    /// (at least double the big blind), limited by the player's stack.
    #[verifier::loop_isolation(false)]
    pub fn can_straddle(&self, player: Player) -> (r: Result<Amount, PlayError>)
        requires
            self.wf(),
        ensures
            match self.straddle_spec(player) {
                Ok(a) => r == Ok::<Amount, PlayError>(Amount(a as u32)) && 0 <= a <= u32::MAX,
                Err(e) => r == Err::<Amount, PlayError>(e),
            },
    {
        if player.0 >= self.player_count {
            return Err(PlayError::InvalidPlayer);
        }
        if self.current_action_index == 0 || self.street_index() != 0 {
            return Err(PlayError::WrongState);
        }
        if self.is_all_in(player) {
            return Err(PlayError::WrongState);
        }
        let v = self.actions_in_street();
        let mut last: u32 = self.big_blind.0;
        let mut i: usize = 0;
        while i < v.len()
            invariant
                self.wf(),
                v@ == self.street_actions(),
                i <= v@.len(),
                straddle_floor(v@, i as int, self.big_blind.value()) == Ok::<int, PlayError>(last as int),
            decreases v@.len() - i,
        {
            match v[i] {
                Action::Straddle { amount, .. } => {
                    let required = match last.checked_mul(2) {
                        Some(x) => x,
                        None => {
                            proof {
                                lemma_straddle_floor(v@, i + 1, v@.len() as int, self.big_blind.value());
                            }
                            return Err(PlayError::AmountOverflow);
                        },
                    };
                    if amount.0 >= required {
                        last = amount.0;
                    }
                },
                Action::Post { .. } => {},
                _ => {
                    proof {
                        lemma_straddle_floor(v@, i + 1, v@.len() as int, self.big_blind.value());
                    }
                    return Err(PlayError::InvalidPost);
                },
            }
            i = i + 1;
        }
        proof {
            lemma_straddle_floor(v@, v@.len() as int, v@.len() as int, self.big_blind.value());
        }
        let required = match last.checked_mul(2) {
            Some(x) => x,
            None => return Err(PlayError::AmountOverflow),
        };
        let reference = self.reference_stacks[player.0 as usize];
        if reference.0 < required {
            Ok(reference)
        } else {
            Ok(Amount(required))
        }
    }

    /// What a straddle of `amount` by `player` makes of the game: the chips
    /// go in, and the player after the straddler is to act.
    pub open spec fn straddle_effect(self, next: Game, replay: bool, player: Player, amount: Amount) -> bool {
        let p = player.value();
        &&& next.same_setup(self)
        &&& next.street_idx() == 0
        &&& next.action_log() == self.log_after(replay, Action::Straddle { player, amount })
        &&& next.replay_index() == self.replay_index() + 1
        &&& next.cur(p) == self.reference(p) - amount.value()
        &&& forall|q: int| 0 <= q < 10 && q != p ==> next.cur(q) == self.cur(q)
        &&& forall|q: int| 0 <= q < 10 ==> next.reference(q) == self.reference(q)
        &&& forall|q: int|
            #![trigger next.in_hand(q)]
            0 <= q < 10 ==> next.in_hand(q) == self.in_hand(q)
        &&& next.player_now() == Some(Player(((p + 1) % self.pc()) as u8))
        &&& next.pot() == self.pot() + self.cur(p) - (self.reference(p)
            - amount.value())
    }

    fn straddle_step(&mut self, replay: bool, player: Player, amount: Amount) -> (r: Result<(), PlayError>)
        requires
            old(self).wf(),
        ensures
            final(self).keeps_table(*old(self)),
            final(self).wf(),
            r is Err ==> *final(self) == *old(self),
            r is Ok <==> old(self).straddle_ok(replay, player, amount),
            r is Ok ==> old(self).straddle_effect(*final(self), replay, player, amount),
    {
        self.check_pre_update(replay)?;
        let required = self.can_straddle(player)?;
        if amount.0 < required.0 {
            return Err(PlayError::InvalidPost);
        }
        let pi = player.0 as usize;
        let reference = self.reference_stacks[pi];
        if amount.0 > reference.0 {
            return Err(PlayError::CannotAfford);
        }
        let action = Action::Straddle { player, amount };
        self.check_record(replay, &action)?;
        let ghost g = *self;
        proof {
            self.lemma_stacks_ordered(pi as int);
        }
        self.stacks_in_street.set(pi, Amount(reference.0 - amount.0));
        if !replay {
            self.actions.push(action);
        }
        let len = self.actions.len();
        assert(self.current_action_index < len);
        self.current_action_index = self.current_action_index + 1;
        self.current_player = Some(Player(((player.0 as usize + 1) % self.player_count as usize) as u8));
        proof {
            assert(self.street_idx() == 0);
            assert forall|q: int| 0 <= q < 10 && q != pi implies self.cur(q) == g.cur(q) by {}
            if self.current_street_index > 0 {
                assert(self.actions@[self.current_street_index - 1] == g.actions@[self.current_street_index - 1]);
            }
            assert forall|t: int, q: int|
                0 <= t <= self.street_idx() && 0 <= q < 10 implies #[trigger] self.stk(t, q) <= if t == 0 {
                    self.reference(q)
                } else {
                    self.stk(t - 1, q)
                } by {
                assert(t == 0);
                assert(g.stk(0, q) <= g.reference(q));
            }
            assert forall|q: int| 0 <= q < 10 implies #[trigger] self.reference(q) <= self.starting(q) by {
                assert(g.reference(q) <= g.starting(q));
            }
            assert forall|q: int| 0 <= q < self.pc() implies #[trigger] self.starting(q) > 0 by {
                assert(g.starting(q) > 0);
            }
            assert forall|i: int| 0 <= i < self.actions@.len() implies (action_player(
                #[trigger] self.actions@[i],
            ) matches Some(x) ==> x.value() < self.pc()) by {
                if i < g.actions@.len() {
                    assert(self.actions@[i] == g.actions@[i]);
                }
            }
            lemma_starting_upto_eq(g, *self, self.pc());
            assert(self.wf());
            Self::lemma_pot_change(g, *self, pi as int, self.pc());
        }
        Ok(())
    }
}


/// The player of the last bet or raise among the first `n` actions.
pub open spec fn last_aggressor(s: Seq<Action>, n: int) -> Option<Player>
    decreases n,
{
    if n <= 0 {
        None
    } else {
        match s[n - 1] {
            Action::Bet { player, .. } => Some(player),
            Action::Raise { player, .. } => Some(player),
            _ => last_aggressor(s, n - 1),
        }
    }
}


/// The increment of a bet or raise (0 for other actions).
pub open spec fn increment_of(a: Action) -> int {
    match a {
        Action::Bet { amount, .. } => amount.value(),
        Action::Raise { amount, .. } => amount.value(),
        _ => 0,
    }
}

/// `bet_max` is the largest increment of a bet or raise among the first `n`
/// actions: no increment exceeds it, and one reaches it unless there is none.
pub proof fn law_bet_max_is_largest(s: Seq<Action>, n: int)
    requires
        0 <= n <= s.len(),
    ensures
        bet_max(s, n) >= 0,
        forall|i: int| 0 <= i < n ==> increment_of(#[trigger] s[i]) <= bet_max(s, n),
        bet_max(s, n) > 0 ==> exists|i: int| 0 <= i < n && increment_of(#[trigger] s[i]) == bet_max(s, n),
    decreases n,
{
    if n > 0 {
        law_bet_max_is_largest(s, n - 1);
        if bet_max(s, n) > 0 && bet_max(s, n) != bet_max(s, n - 1) {
            assert(increment_of(s[n - 1]) == bet_max(s, n));
        }
    }
}

/// `last_to` is the total of the last bet or raise among the first `n`
/// actions.
pub proof fn law_last_to_is_last(s: Seq<Action>, n: int, i: int)
    requires
        0 <= i < n <= s.len(),
        s[i] is Bet || s[i] is Raise,
        forall|j: int| i < j < n ==> !(#[trigger] s[j] is Bet) && !(s[j] is Raise),
    ensures
        last_to(s, n) == match s[i] {
            Action::Bet { amount, .. } => amount.value(),
            Action::Raise { to, .. } => to.value(),
            _ => 0,
        },
    decreases n - i,
{
    if n - 1 > i {
        assert(!(s[n - 1] is Bet) && !(s[n - 1] is Raise));
        law_last_to_is_last(s, n - 1, i);
    }
}

impl Game {
    /// The smallest raise offered to the player to act: by the largest bet or
    /// raise increment `d` of the street (at least the big blind), to the total
    /// `t` of the street's last bet or raise plus that, when the player has
    /// chips beyond the call and the new total is within the stack the player
    /// began the street with; all in, to that stack, when it is not. Before
    /// the flop with no bet yet, the largest live post or straddle stands for
    /// both `d` and `t`. No raise is offered to a player who cannot pay more
    /// than the call, nor after the flop before anybody bet.
    pub proof fn law_min_raise(self)
        requires
            self.wf(),
        ensures
            ({
                let s = self.street_actions();
                let n = s.len() as int;
                let bb = self.big_blind_amount().value();
                let d = if bet_max(s, n) > 0 {
                    bet_max(s, n)
                } else {
                    post_max(s, n)
                };
                let t = if bet_max(s, n) > 0 {
                    last_to(s, n)
                } else {
                    post_max(s, n)
                };
                let step = if d < bb {
                    bb
                } else {
                    d
                };
                let p = self.player_now()->Some_0.value();
                &&& (self.player_now() is Some && (bet_max(s, n) > 0 || self.street_idx() == 0) && self.to_call(p)
                    < self.cur(p) && t + step <= self.prev(p)) ==> self.raise_spec() == Some((step, t + step))
                &&& (self.player_now() is Some && (bet_max(s, n) > 0 || self.street_idx() == 0) && self.to_call(p)
                    < self.cur(p) && t + step > self.prev(p)) ==> self.raise_spec() == Some(
                    (self.prev(p) - t, self.prev(p)),
                )
                &&& (self.player_now() is Some && self.to_call(p) >= self.cur(p)) ==> self.raise_spec() is None
                &&& (bet_max(s, n) == 0 && self.street_idx() != 0) ==> self.raise_spec() is None
            }),
    {
        let s = self.street_actions();
        let n = s.len() as int;
        assert(self.raise_base() == if bet_max(s, n) == 0 {
            (post_max(s, n), post_max(s, n))
        } else {
            (bet_max(s, n), last_to(s, n))
        });
        assert(self.no_raise_street() == (bet_max(s, n) == 0 && self.street_idx() != 0));
        law_bet_max_is_largest(s, n);
    }

    /// The seat `i` places round from `start`.
    pub open spec fn seat_round(self, start: int, i: int) -> int {
        (start + i) % self.pc()
    }

    /// Player `q` is in the hand and neither showed nor mucked.
    pub open spec fn may_show(self, q: int) -> bool {
        self.in_hand(q) && !self.shown(q) && !self.mucked(q)
    }

    /// Who shows first once the betting is over: the first player still in
    /// the hand (who neither showed nor mucked) going round from the seat left
    /// of the button when nobody bet on the last street, else from the last
    /// bettor or raiser of that street.
    pub proof fn law_first_to_show(self, k: int)
        requires
            self.wf(),
            self.show_spec() is Some,
            0 <= k < self.pc(),
        ensures
            ({
                let s = self.street_actions();
                let left = (self.button_player().value() + 1) % self.pc();
                last_aggressor(s, s.len() as int) is None && self.may_show(self.seat_round(left, k)) && (forall|j: int|
                    0 <= j < k ==> !self.may_show(#[trigger] self.seat_round(left, j))) ==> self.show_spec() == Some(
                    Player(self.seat_round(left, k) as u8),
                )
            }),
            ({
                let s = self.street_actions();
                last_aggressor(s, s.len() as int) matches Some(ap) ==> (self.may_show(self.seat_round(ap.value(), k))
                    && (forall|j: int| 0 <= j < k ==> !self.may_show(#[trigger] self.seat_round(ap.value(), j)))
                    ==> self.show_spec() == Some(Player(self.seat_round(ap.value(), k) as u8)))
            }),
    {
        let s = self.street_actions();
        let left = (self.button_player().value() + 1) % self.pc();
        if last_aggressor(s, s.len() as int) is None {
            self.lemma_show_from_first(left, 0, k);
        }
        if let Some(ap) = last_aggressor(s, s.len() as int) {
            self.lemma_show_from_first(ap.value(), 0, k);
        }
    }

    /// Going round from `start`, the first player who may show at offset `k`
    /// or later is found at `k` when none from `j` up to `k` may.
    proof fn lemma_show_from_first(self, start: int, j: int, k: int)
        requires
            self.wf(),
            0 <= j <= k < self.pc(),
        ensures
            self.may_show(self.seat_round(start, k)) && (forall|i: int|
                j <= i < k ==> !self.may_show(#[trigger] self.seat_round(start, i))) ==> self.show_from(start, j)
                == Some(Player(self.seat_round(start, k) as u8)),
        decreases k - j,
    {
        let q = (start + j) % self.pc();
        assert(q == self.seat_round(start, j));
        if j < k {
            self.lemma_show_from_first(start, j + 1, k);
            if self.may_show(self.seat_round(start, k)) && (forall|i: int|
                j <= i < k ==> !self.may_show(#[trigger] self.seat_round(start, i))) {
                assert(!self.may_show(self.seat_round(start, j)));
                assert(self.show_from(start, j) == self.show_from(start, j + 1));
            }
        }
    }
}

impl Game {
    /// Number of players still in the hand.
    pub closed spec fn in_hand_count(self) -> nat {
        self.not_folded.size()
    }

    /// Number of players among the first `n` who are in the hand and all in.
    pub closed spec fn all_in_upto(self, n: int) -> nat
        decreases n,
    {
        if n <= 0 {
            0
        } else if self.in_hand(n - 1) && self.cur(n - 1) == 0 {
            self.all_in_upto(n - 1) + 1
        } else {
            self.all_in_upto(n - 1)
        }
    }

    /// At most one player in the hand still has chips behind.
    pub closed spec fn all_in_terminated(self) -> bool {
        self.in_hand_count() >= 1 && self.in_hand_count() - 1 <= self.all_in_upto(self.pc())
    }

    /// The betting of the hand is over.
    pub closed spec fn action_ended(self) -> bool {
        ||| self.in_hand_count() == 1
        ||| (self.current_player is None && self.street_idx() == 3)
        ||| (self.current_player is None && self.all_in_terminated())
    }

    /// The last player (in seat order) with the largest investment among the
    /// first `n`; -1 when `n` is 0.
    pub closed spec fn top_upto(self, n: int) -> int
        decreases n,
    {
        if n <= 0 {
            -1
        } else {
            let t = self.top_upto(n - 1);
            if t < 0 || self.inv(n - 1) >= self.inv(t) {
                n - 1
            } else {
                t
            }
        }
    }

    /// The largest investment among the first `n` players other than `x` (at least 0).
    pub closed spec fn max_except(self, n: int, x: int) -> int
        decreases n,
    {
        if n <= 0 {
            0
        } else {
            let m = self.max_except(n - 1, x);
            if n - 1 != x && self.inv(n - 1) > m {
                self.inv(n - 1)
            } else {
                m
            }
        }
    }

    /// The bet that nobody called once the betting is over: its player and the
    /// part above the second largest investment.
    pub closed spec fn uncalled_spec(self) -> Option<(Player, int)> {
        if !self.action_ended() {
            None
        } else {
            let t = self.top_upto(self.pc());
            let sec = self.max_except(self.pc(), t);
            if self.inv(t) == sec {
                None
            } else {
                Some((Player(t as u8), self.inv(t) - sec))
            }
        }
    }

    /// The first player from offset `k` on, going round from `start`, who is in
    /// the hand and neither showed nor mucked.
    pub closed spec fn show_from(self, start: int, k: int) -> Option<Player>
        decreases self.pc() - k,
    {
        if k >= self.pc() {
            None
        } else {
            let q = (start + k) % self.pc();
            if self.in_hand(q) && !self.shown(q) && !self.mucked(q) {
                Some(Player(q as u8))
            } else {
                self.show_from(start, k + 1)
            }
        }
    }

    /// Who shows or mucks next: starting from the last bettor or raiser of the
    /// street (else left of the button), once the betting is over in a hand
    /// with several players that not all showed or mucked.
    pub closed spec fn show_spec(self) -> Option<Player> {
        if !self.action_ended() || self.in_hand_count() == 1 || self.hand_shown.size()
            + self.hand_mucked.size() == self.in_hand_count() {
            None
        } else {
            let start = match last_aggressor(self.street_actions(), self.street_actions().len() as int) {
                Some(p) => p.value(),
                None => (self.button.value() + 1) % self.pc(),
            };
            self.show_from(start, 0)
        }
    }

    /// The street that may be dealt next.
    pub closed spec fn next_street_spec(self) -> Option<Street> {
        if self.show_spec() is None && self.current_player is None && (self.street_actions().len() > 0
            || self.live_upto(self.pc()) <= 1) && self.in_hand_count() > 1 && self.street_idx() != 3 {
            Some(street_of_index(self.street_idx() + 1))
        } else {
            None
        }
    }

    /// What the game waits for.
    pub closed spec fn state_spec(self) -> State {
        if self.current_action_index == 0 {
            State::Post
        } else if self.current_player is Some {
            State::Player(self.current_player->Some_0)
        } else if self.uncalled_spec() is Some {
            State::UncalledBet {
                player: self.uncalled_spec()->Some_0.0,
                amount: Amount(self.uncalled_spec()->Some_0.1 as u32),
            }
        } else if self.show_spec() is Some {
            State::ShowOrMuck(self.show_spec()->Some_0)
        } else if self.next_street_spec() is Some {
            State::Street(self.next_street_spec()->Some_0)
        } else if self.at_end {
            State::End
        } else {
            State::ShowdownOrNextRunout
        }
    }

    fn in_hand_count_exec(&self) -> (n: u32)
        ensures
            n == self.in_hand_count(),
            n <= 16,
    {
        proof {
            self.not_folded.lemma_size_bound();
        }
        self.not_folded.count()
    }

    fn all_in_count(&self) -> (n: usize)
        requires
            self.wf(),
        ensures
            n == self.all_in_upto(self.pc()),
    {
        let mut n: usize = 0;
        let mut q: usize = 0;
        while q < self.player_count as usize
            invariant
                self.wf(),
                q <= self.pc(),
                n == self.all_in_upto(q as int),
                n <= q,
            decreases self.pc() - q,
        {
            if self.not_folded.has(q) && self.cur_stack(q).0 == 0 {
                n = n + 1;
            }
            q = q + 1;
        }
        n
    }

    fn all_in_terminated_hand(&self) -> (r: bool)
        requires
            self.wf(),
        ensures
            r == self.all_in_terminated(),
    {
        let c = self.in_hand_count_exec();
        let a = self.all_in_count();
        c >= 1 && ((c - 1) as usize) <= a
    }

    fn action_ended_exec(&self) -> (r: bool)
        requires
            self.wf(),
        ensures
            r == self.action_ended(),
    {
        self.in_hand_count_exec() == 1 || (self.current_player.is_none() && self.street_index() == 3)
            || (self.current_player.is_none() && self.all_in_terminated_hand())
    }

    /// The uncalled bet once the betting is over.
    fn can_uncalled_bet(&self) -> (r: Option<(Player, Amount)>)
        requires
            self.wf(),
        ensures
            r == match self.uncalled_spec() {
                None => None::<(Player, Amount)>,
                Some((p, a)) => Some((p, Amount(a as u32))),
            },
            r matches Some((p, a)) ==> p.value() < self.pc() && a.value() > 0,
    {
        if !self.action_ended_exec() {
            return None;
        }
        let n = self.player_count as usize;
        let mut top: usize = 0;
        let mut top_inv = self.invested(Player(0));
        let mut q: usize = 1;
        proof {
            self.lemma_stacks_ordered(0);
            assert(self.top_upto(0) == -1);
            assert(self.top_upto(1) == 0);
        }
        while q < n
            invariant
                self.wf(),
                n == self.pc(),
                1 <= q <= n,
                top < q,
                top as int == self.top_upto(q as int),
                top_inv.value() == self.inv(top as int),
            decreases n - q,
        {
            let x = self.invested(Player(q as u8));
            if x.0 >= top_inv.0 {
                top = q;
                top_inv = x;
            }
            q = q + 1;
        }
        let mut sec: u32 = 0;
        let mut q: usize = 0;
        while q < n
            invariant
                self.wf(),
                n == self.pc(),
                top < n,
                q <= n,
                sec == self.max_except(q as int, top as int),
            decreases n - q,
        {
            if q != top {
                let x = self.invested(Player(q as u8));
                if x.0 > sec {
                    sec = x.0;
                }
            }
            q = q + 1;
        }
        proof {
            self.lemma_top_is_max(n as int);
            self.lemma_max_except(n as int, top as int);
        }
        if top_inv.0 == sec {
            None
        } else {
            Some((Player(top as u8), Amount(top_inv.0 - sec)))
        }
    }

    proof fn lemma_top_is_max(self, n: int)
        requires
            self.wf(),
            1 <= n <= self.pc(),
        ensures
            0 <= self.top_upto(n) < n,
            forall|q: int| 0 <= q < n ==> #[trigger] self.inv(q) <= self.inv(self.top_upto(n)),
        decreases n,
    {
        assert(self.top_upto(0) == -1);
        if n > 1 {
            self.lemma_top_is_max(n - 1);
        }
    }

    proof fn lemma_max_except(self, n: int, x: int)
        requires
            self.wf(),
            0 <= n <= self.pc(),
        ensures
            0 <= self.max_except(n, x),
            forall|q: int| 0 <= q < n && q != x ==> self.inv(q) <= self.max_except(n, x),
            self.max_except(n, x) == 0 || exists|q: int| 0 <= q < n && q != x && self.inv(q) == self.max_except(n, x),
        decreases n,
    {
        if n > 0 {
            self.lemma_max_except(n - 1, x);
            self.lemma_stacks_ordered(n - 1);
        }
    }
}


impl Game {
    /// Who shows or mucks next, if anybody.
    #[verifier::loop_isolation(false)]
    fn next_show_or_muck(&self) -> (r: Option<Player>)
        requires
            self.wf(),
        ensures
            r == self.show_spec(),
            r matches Some(p) ==> p.value() < self.pc() && self.in_hand(p.value()) && !self.shown(
                p.value(),
            ) && !self.mucked(p.value()),
    {
        proof {
            self.hand_shown.lemma_size_bound();
            self.hand_mucked.lemma_size_bound();
        }
        let count = self.in_hand_count_exec();
        if !self.action_ended_exec() || count == 1 || self.hand_shown.count() + self.hand_mucked.count()
            == count {
            return None;
        }
        let v = self.actions_in_street();
        let mut agg: Option<Player> = None;
        let mut i: usize = 0;
        while i < v.len()
            invariant
                self.wf(),
                v@ == self.street_actions(),
                i <= v@.len(),
                agg == last_aggressor(v@, i as int),
            decreases v@.len() - i,
        {
            match v[i] {
                Action::Bet { player, .. } => {
                    agg = Some(player);
                },
                Action::Raise { player, .. } => {
                    agg = Some(player);
                },
                _ => {},
            }
            i = i + 1;
        }
        proof {
            if agg is Some {
                self.lemma_aggressor_in_range(v@.len() as int);
            }
        }
        let start: usize = match agg {
            Some(p) => p.0 as usize,
            None => (self.button.0 as usize + 1) % self.player_count as usize,
        };
        let ghost st = start as int;
        let n = self.player_count as usize;
        let mut k: usize = 0;
        while k < n
            invariant
                self.wf(),
                n == self.pc(),
                k <= n,
                start < n,
                start == st,
                self.show_from(st, 0) == self.show_from(st, k as int),
            decreases n - k,
        {
            let q = (start + k) % n;
            if self.not_folded.has(q) && !self.hand_shown.has(q) && !self.hand_mucked.has(q) {
                proof {
                    assert(self.show_from(st, k as int) == Some(Player(q as u8)));
                }
                return Some(Player(q as u8));
            }
            k = k + 1;
        }
        None
    }

    proof fn lemma_aggressor_in_range(self, n: int)
        requires
            self.wf(),
            0 <= n <= self.street_actions().len(),
        ensures
            last_aggressor(self.street_actions(), n) matches Some(p) ==> p.value() < self.pc(),
        decreases n,
    {
        self.lemma_street_end(self.current_street_index as int);
        if n > 0 {
            let i = self.current_street_index + n - 1;
            assert(self.street_actions()[n - 1] == self.actions@[i]);
            self.lemma_aggressor_in_range(n - 1);
        }
    }

    /// The street that may be dealt next.
    fn can_next_street(&self) -> (r: Option<Street>)
        requires
            self.wf(),
        ensures
            r == self.next_street_spec(),
    {
        if self.next_show_or_muck().is_some() || self.current_player.is_some() {
            return None;
        }
        let e = self.street_end();
        let live = self.live_count();
        if !(e > self.current_street_index || live <= 1) {
            return None;
        }
        if self.in_hand_count_exec() <= 1 {
            return None;
        }
        let s = self.street_index();
        if s == 3 {
            return None;
        }
        Some(Street::from_usize(s + 1))
    }

    /// Number of players in the hand with chips behind.
    fn live_count(&self) -> (n: usize)
        requires
            self.wf(),
        ensures
            n == self.live_upto(self.pc()),
    {
        let mut n: usize = 0;
        let mut q: usize = 0;
        while q < self.player_count as usize
            invariant
                self.wf(),
                q <= self.pc(),
                n == self.live_upto(q as int),
                n <= q,
            decreases self.pc() - q,
        {
            if self.not_folded.has(q) && self.cur_stack(q).0 != 0 {
                n = n + 1;
            }
            q = q + 1;
        }
        n
    }

    /// What the game waits for: the posts, a player's action, the return of an
    /// uncalled bet, a show or muck, the next street, the showdown (or another
    /// runout), or nothing as the hand is over.
    pub fn state(&self) -> (st: State)
        requires
            self.wf(),
        ensures
            st == self.state_spec(),
            st matches State::Player(p) ==> p.value() < self.pc(),
            st matches State::UncalledBet { player, amount } ==> player.value() < self.pc()
                && amount.value() > 0,
            st matches State::ShowOrMuck(p) ==> p.value() < self.pc() && self.in_hand(p.value())
                && !self.shown(p.value()) && !self.mucked(p.value()),
    {
        if self.current_action_index == 0 {
            State::Post
        } else if let Some(p) = self.current_player {
            State::Player(p)
        } else if let Some((player, amount)) = self.can_uncalled_bet() {
            State::UncalledBet { player, amount }
        } else if let Some(player) = self.next_show_or_muck() {
            State::ShowOrMuck(player)
        } else if let Some(street) = self.can_next_street() {
            State::Street(street)
        } else if self.at_end {
            State::End
        } else {
            State::ShowdownOrNextRunout
        }
    }
}



impl Game {
    /// The player to act puts in everything it had before the street: a bet
    /// when a bet is open, else a raise.
    pub fn all_in(&mut self) -> (r: Result<(), PlayError>)
        requires
            old(self).wf(),
            old(self).raise_defined(),
        ensures
            final(self).wf(),
            r is Err ==> *final(self) == *old(self),
            r is Ok <==> ({
                let p = old(self).player_now()->Some_0.value();
                let all = old(self).prev(p);
                &&& old(self).player_now() is Some
                &&& old(self).at_final_action()
                &&& if old(self).bet_open() {
                    all >= old(self).min_bet(p) && all <= old(self).cur(p)
                } else {
                    &&& old(self).raise_spec() is Some
                    &&& all >= old(self).raise_spec()->Some_0.1
                    &&& 0 <= old(self).raise_size(all) <= u32::MAX
                }
            }),
            r is Ok ==> ({
                let p = old(self).player_now()->Some_0;
                let all = Amount(old(self).prev(p.value()) as u32);
                &&& final(self).same_setup(*old(self))
                &&& final(self).street_idx() == old(self).street_idx()
                &&& final(self).action_log() == old(self).action_log().push(if old(self).bet_open() {
                    Action::Bet { player: p, amount: all }
                } else {
                    old(self).raise_action(all)
                })
                &&& final(self).replay_index() == old(self).replay_index() + 1
                &&& final(self).cur(p.value()) == if old(self).bet_open() {
                    old(self).cur(p.value()) - all.value()
                } else {
                    0
                }
                &&& forall|q: int| 0 <= q < 10 && q != p.value() ==> final(self).cur(q) == old(self).cur(q)
                &&& forall|q: int|
                    #![trigger final(self).in_hand(q)]
                    0 <= q < 10 ==> final(self).in_hand(q) == old(self).in_hand(q)
                &&& final(self).player_now() == final(self).next_to_act(p.value())
                &&& final(self).pot() == old(self).pot() + old(self).cur(p.value()) - final(self).cur(
                    p.value(),
                )
            }),
    {
        self.check_pre_update(false)?;
        let amount = match self.can_all_in() {
            Some(a) => a,
            None => return Err(PlayError::WrongState),
        };
        let p = match self.current_player {
            Some(p) => p,
            None => return Err(PlayError::NoCurrentPlayer),
        };
        proof {
            self.lemma_stacks_ordered(p.value());
        }
        if self.can_bet().is_some() {
            self.bet_step(false, amount)
        } else {
            self.raise_to_step(false, amount, true)
        }
    }
}


/// Number of actions among the first `n` that deal street `st`.
pub open spec fn street_deals(s: Seq<Action>, n: int, st: Street) -> nat
    decreases n,
{
    if n <= 0 {
        0
    } else if action_street(s[n - 1]) == Some(st) {
        street_deals(s, n - 1, st) + 1
    } else {
        street_deals(s, n - 1, st)
    }
}

/// How many community cards all runouts share, given the action log: none
/// when the flop was dealt more than once, the flop when the turn was, the turn
/// when the river was; -1 when no street was dealt twice.
pub open spec fn shared_of(log: Seq<Action>) -> int {
    let n = log.len() as int;
    if street_deals(log, n, Street::Flop) > 1 {
        0
    } else if street_deals(log, n, Street::Turn) > 1 {
        3
    } else if street_deals(log, n, Street::River) > 1 {
        4
    } else {
        -1
    }
}

/// The cards of the boards 1 to `b` past the first `m` shared ones.
pub open spec fn runout_list(dealts: Seq<Seq<Card>>, b: int, m: int) -> Seq<Card>
    decreases b,
{
    if b <= 0 {
        Seq::empty()
    } else {
        runout_list(dealts, b - 1, m) + dealts[b].subrange(m, dealts[b].len() as int)
    }
}

/// Every known card: the known hands of the `pc` players, the first board, and
/// the own cards of the boards up to `cb`.
pub open spec fn known_of(hands: Seq<Option<Hand>>, pc: int, dealts: Seq<Seq<Card>>, cb: int, m: int) -> Seq<Card> {
    hand_cards(hands, pc) + dealts[0] + runout_list(dealts, cb, m)
}

/// The boards up to `cb` agree with the first on their `m` shared cards.
pub open spec fn dealts_defined(dealts: Seq<Seq<Card>>, cb: int, m: int) -> bool {
    cb > 0 ==> {
        &&& m >= 0
        &&& dealts[0].len() >= m
        &&& forall|b: int|
            1 <= b <= cb ==> (#[trigger] dealts[b]).len() >= m && dealts[b].subrange(0, m)
                == dealts[0].subrange(0, m)
    }
}

impl Game {
    /// The dealt cards of each of the four boards.
    pub closed spec fn dealts(self) -> Seq<Seq<Card>> {
        Seq::new(4, |b: int| self.boards@[b].dealt())
    }

    /// Index of the current runout.
    pub closed spec fn board_index(self) -> int {
        self.current_board as int
    }

    /// How many community cards all runouts share.
    pub closed spec fn shared_cards(self) -> int {
        shared_of(self.actions@)
    }

    /// Every known card.
    pub closed spec fn known_seq(self) -> Seq<Card> {
        known_of(self.hands@, self.pc(), self.dealts(), self.current_board as int, self.shared_cards())
    }

    /// The runouts agree on the shared cards, so the known cards can be listed.
    pub closed spec fn cards_defined(self) -> bool {
        dealts_defined(self.dealts(), self.current_board as int, self.shared_cards())
    }

    fn count_street_deals(&self, st: Street) -> (n: usize)
        requires
            self.wf(),
        ensures
            n == street_deals(self.actions@, self.actions@.len() as int, st),
    {
        let mut n: usize = 0;
        let mut i: usize = 0;
        while i < self.actions.len()
            invariant
                i <= self.actions@.len(),
                n == street_deals(self.actions@, i as int, st),
                n <= i,
            decreases self.actions@.len() - i,
        {
            match self.actions[i].street() {
                Some(x) => {
                    if x == st {
                        n = n + 1;
                    }
                },
                None => {},
            }
            i = i + 1;
        }
        n
    }

    /// All known cards, refused when a card is known twice.
    fn check_cards(&self) -> (r: Result<Cards, PlayError>)
        requires
            self.wf(),
            self.cards_defined(),
        ensures
            r is Err <==> crate::card::has_duplicate(self.known_seq()),
            r is Err ==> r == Err::<Cards, PlayError>(PlayError::DuplicateCard),
            r matches Ok(set) ==> forall|c: Card| set.contains(c) <==> self.known_seq().contains(c),
    {
        let mut known: Vec<Card> = Vec::new();
        let mut p: usize = 0;
        while p < self.player_count as usize
            invariant
                self.wf(),
                p <= self.pc(),
                known@ == hand_cards(self.hands@, p as int),
            decreases self.pc() - p,
        {
            match self.hands[p] {
                Some(h) => {
                    known.push(h.0);
                    known.push(h.1);
                },
                None => {},
            }
            p = p + 1;
        }
        let first = self.boards[0].cards();
        let mut i: usize = 0;
        let ghost base = known@;
        while i < first.len()
            invariant
                i <= first@.len(),
                known@ == base + first@.subrange(0, i as int),
            decreases first@.len() - i,
        {
            known.push(first[i]);
            proof {
                assert(known@ =~= base + first@.subrange(0, i + 1));
            }
            i = i + 1;
        }
        proof {
            assert(first@.subrange(0, first@.len() as int) =~= first@);
            assert(self.dealts()[0] == first@);
        }
        if self.current_board > 0 {
            let flops = self.count_street_deals(Street::Flop);
            let turns = self.count_street_deals(Street::Turn);
            let rivers = self.count_street_deals(Street::River);
            let m: usize = if flops > 1 {
                0
            } else if turns > 1 {
                3
            } else if rivers > 1 {
                4
            } else {
                0
            };
            proof {
                assert(m == self.shared_cards());
            }
            let ghost base2 = known@;
            let mut b: usize = 1;
            while b <= self.current_board
                invariant
                    self.wf(),
                    self.cards_defined(),
                    self.current_board > 0,
                    m == self.shared_cards(),
                    1 <= b <= self.current_board + 1,
                    known@ == base2 + runout_list(self.dealts(), b - 1, m as int),
                decreases self.current_board + 1 - b,
            {
                let cards = self.boards[b].cards();
                proof {
                    assert(self.dealts()[b as int] == cards@);
                    assert(cards@.len() >= m);
                }
                let mut k: usize = m;
                let ghost before = known@;
                while k < cards.len()
                    invariant
                        m <= k <= cards@.len(),
                        known@ == before + cards@.subrange(m as int, k as int),
                    decreases cards@.len() - k,
                {
                    known.push(cards[k]);
                    proof {
                        assert(known@ =~= before + cards@.subrange(m as int, k + 1));
                    }
                    k = k + 1;
                }
                proof {
                    assert(self.dealts()[b as int] == cards@);
                    assert(known@ =~= base2 + runout_list(self.dealts(), b as int, m as int));
                }
                b = b + 1;
            }
        } else {
            proof {
                assert(runout_list(self.dealts(), 0, self.shared_cards()) =~= Seq::<Card>::empty());
                assert(known@ =~= self.known_seq());
            }
        }
        proof {
            assert(known@ =~= self.known_seq());
        }
        match Cards::from_slice(known.as_slice()) {
            Some(set) => Ok(set),
            None => Err(PlayError::DuplicateCard),
        }
    }

    /// All known cards: the known hands and the dealt boards.
    pub fn known_cards(&self) -> (r: Option<Cards>)
        requires
            self.wf(),
            self.cards_defined(),
        ensures
            r is None <==> crate::card::has_duplicate(self.known_seq()),
            r matches Some(set) ==> forall|c: Card| set.contains(c) <==> self.known_seq().contains(c),
    {
        match self.check_cards() {
            Ok(s) => Some(s),
            Err(_) => None,
        }
    }
}


impl Game {
    /// The stacks, the folds and the player to act are the same.
    pub closed spec fn same_betting(self, other: Game) -> bool {
        &&& self.stacks_in_street@ == other.stacks_in_street@
        &&& self.reference_stacks@ == other.reference_stacks@
        &&& self.current_player == other.current_player
        &&& self.not_folded == other.not_folded
    }

    /// Records an action that involves no betting player.
    fn record_action(&mut self, replay: bool, action: Action)
        requires
            old(self).wf(),
            old(self).can_record(replay, action),
            action_player(action) is None,
            old(self).current_action_index > 0,
        ensures
            final(self).wf(),
            final(self).same_setup(*old(self)),
            final(self).same_betting(*old(self)),
            final(self).action_log() == old(self).log_after(replay, action),
            final(self).replay_index() == old(self).replay_index() + 1,
    {
        let ghost g = *self;
        if !replay {
            self.actions.push(action);
        }
        let len = self.actions.len();
        assert(self.current_action_index < len);
        self.current_action_index = self.current_action_index + 1;
        proof {
            if self.current_street_index > 0 {
                assert(self.actions@[self.current_street_index - 1] == g.actions@[self.current_street_index - 1]);
            }
            assert forall|i: int| 0 <= i < self.actions@.len() implies (action_player(
                #[trigger] self.actions@[i],
            ) matches Some(x) ==> x.value() < self.pc()) by {
                if i < g.actions@.len() {
                    assert(self.actions@[i] == g.actions@[i]);
                }
            }
            assert(self.street_idx() == g.street_idx());
            assert forall|t: int, q: int|
                0 <= t <= self.street_idx() && 0 <= q < 10 implies #[trigger] self.stk(t, q) <= if t == 0 {
                    self.reference(q)
                } else {
                    self.stk(t - 1, q)
                } by {
                assert(g.stk(t, q) <= if t == 0 {
                    g.reference(q)
                } else {
                    g.stk(t - 1, q)
                });
            }
            assert forall|q: int| 0 <= q < 10 implies #[trigger] self.reference(q) <= self.starting(q) by {
                assert(g.reference(q) <= g.starting(q));
            }
            assert forall|q: int| 0 <= q < self.pc() implies #[trigger] self.starting(q) > 0 by {
                assert(g.starting(q) > 0);
            }
            lemma_starting_upto_eq(g, *self, self.pc());
        }
    }

    /// The uncalled bet goes back to its player: adding it to the player's
    /// stack gives an amount.
    pub closed spec fn uncalled_fits(self) -> bool {
        self.uncalled_spec() matches Some((p, a)) ==> self.cur(p.value()) + a <= self.prev(p.value())
    }

    /// What returning the uncalled bet makes of the game: the chips go back
    /// from the pot to the player who bet them.
    pub open spec fn uncalled_effect(self, next: Game, replay: bool) -> bool {
        let p = self.uncalled_spec()->Some_0.0.value();
        let a = self.uncalled_spec()->Some_0.1;
        &&& next.same_setup(self)
        &&& next.street_idx() == self.street_idx()
        &&& next.action_log() == self.log_after(replay, self.uncalled_action())
        &&& next.replay_index() == self.replay_index() + 1
        &&& next.cur(p) == self.cur(p) + a
        &&& forall|q: int| 0 <= q < 10 && q != p ==> next.cur(q) == self.cur(q)
        &&& forall|q: int|
            #![trigger next.in_hand(q)]
            0 <= q < 10 ==> next.in_hand(q) == self.in_hand(q)
        &&& next.player_now() == self.player_now()
        &&& next.pot() == self.pot() - a
    }

    fn uncalled_bet_step(&mut self, replay: bool) -> (r: Result<(), PlayError>)
        requires
            old(self).wf(),
            old(self).uncalled_fits(),
        ensures
            final(self).keeps_table(*old(self)),
            final(self).wf(),
            r is Err ==> *final(self) == *old(self),
            r is Ok <==> old(self).uncalled_ok(replay),
            r is Ok ==> old(self).uncalled_effect(*final(self), replay),
    {
        self.check_pre_update(replay)?;
        let (player, amount) = match self.state() {
            State::UncalledBet { player, amount } => (player, amount),
            _ => return Err(PlayError::WrongState),
        };
        proof {
            assert(self.uncalled_spec() is Some);
            let t = self.top_upto(self.pc());
            self.lemma_top_is_max(self.pc());
            self.lemma_max_except(self.pc(), t);
            self.lemma_stacks_ordered(t);
            assert(amount.value() == self.uncalled_spec()->Some_0.1);
            assert(player == self.uncalled_spec()->Some_0.0);
        }
        let action = Action::UncalledBet { player, amount };
        proof {
            assert(action == self.uncalled_action());
        }
        self.check_record(replay, &action)?;
        let ghost g = *self;
        let pi = player.0 as usize;
        let s = self.street_index();
        let stack = self.cur_stack(pi);
        proof {
            g.lemma_stacks_ordered(pi as int);
        }
        self.stacks_in_street.set(s * MAX_PLAYERS + pi, Amount(stack.0 + amount.0));
        proof {
            assert(self.street_idx() == g.street_idx());
            assert forall|q: int| 0 <= q < 10 && q != pi implies self.cur(q) == g.cur(q) by {
                assert(s * 10 + q != s * 10 + pi);
            }
            assert forall|t: int, q: int| 0 <= t < 4 && 0 <= q < 10 && !(t == s && q == pi) implies
                self.stk(t, q) == g.stk(t, q) by {
                assert(t * 10 + q != s * 10 + pi) by (nonlinear_arith)
                    requires
                        0 <= t < 4,
                        0 <= q < 10,
                        0 <= s < 4,
                        0 <= pi < 10,
                        !(t == s && q == pi),
                ;
            }
            assert forall|t: int, q: int|
                0 <= t <= self.street_idx() && 0 <= q < 10 implies #[trigger] self.stk(t, q) <= if t == 0 {
                    self.reference(q)
                } else {
                    self.stk(t - 1, q)
                } by {
                if !(t == s && q == pi) {
                    assert(g.stk(t, q) <= if t == 0 {
                        g.reference(q)
                    } else {
                        g.stk(t - 1, q)
                    });
                    if t > 0 && !(t - 1 == s && q == pi) {
                        assert(self.stk(t - 1, q) == g.stk(t - 1, q));
                    }
                } else {
                    assert(self.stk(t, q) == g.cur(q) + amount.value());
                    assert(g.cur(q) + amount.value() <= g.prev(q));
                    if t > 0 {
                        assert(self.stk(t - 1, q) == g.stk(t - 1, q));
                    }
                }
            }
            assert forall|q: int| 0 <= q < 10 implies #[trigger] self.reference(q) <= self.starting(q) by {
                assert(g.reference(q) <= g.starting(q));
            }
            assert forall|q: int| 0 <= q < self.pc() implies #[trigger] self.starting(q) > 0 by {
                assert(g.starting(q) > 0);
            }
            lemma_starting_upto_eq(g, *self, self.pc());
            assert(self.wf());
            Self::lemma_pot_change(g, *self, pi as int, self.pc());
        }
        let ghost mid = *self;
        self.record_action(replay, action);
        proof {
            assert(self.street_idx() == mid.street_idx());
            assert forall|q: int| 0 <= q < 10 implies self.cur(q) == mid.cur(q) by {}
            Self::lemma_pot_change(mid, *self, -1, self.pc());
        }
        Ok(())
    }

    /// The action returning the uncalled bet.
    pub closed spec fn uncalled_action(self) -> Action {
        Action::UncalledBet {
            player: self.uncalled_spec()->Some_0.0,
            amount: Amount(self.uncalled_spec()->Some_0.1 as u32),
        }
    }

    /// The player due to show or muck, as `state` reports it.
    pub closed spec fn shower(self) -> Player {
        self.state_spec()->ShowOrMuck_0
    }

    /// What showing a hand makes of the game: the hand of the player whose
    /// turn it is to show is marked shown, the betting unchanged.
    pub open spec fn show_effect(self, next: Game, replay: bool) -> bool {
        let p = self.shower();
        &&& next.same_betting(self)
        &&& next.action_log() == self.log_after(
            replay,
            Action::Shows { player: p, hand: self.hand_at(p.value())->Some_0 },
        )
        &&& next.replay_index() == self.replay_index() + 1
        &&& forall|q: int| next.shown(q) == (self.shown(q) || q == p.value())
        &&& forall|q: int| next.mucked(q) == self.mucked(q)
    }

    fn show_hand_step(&mut self, replay: bool) -> (r: Result<(), PlayError>)
        requires
            old(self).wf(),
        ensures
            final(self).keeps_table(*old(self)),
            final(self).wf(),
            r is Err ==> *final(self) == *old(self),
            r is Ok <==> old(self).show_ok(replay),
            r is Ok ==> old(self).show_effect(*final(self), replay),
    {
        self.check_pre_update(replay)?;
        let player = match self.state() {
            State::ShowOrMuck(p) => p,
            _ => return Err(PlayError::WrongState),
        };
        proof {
            assert(self.show_spec() == Some(player));
        }
        let pi = player.0 as usize;
        let hand = match self.hands[pi] {
            Some(h) => h,
            None => return Err(PlayError::InvalidHand),
        };
        let action = Action::Shows { player, hand };
        self.check_record(replay, &action)?;
        let ghost g = *self;
        self.hand_shown.set(pi);
        proof {
            assert forall|i: int| #[trigger] self.hand_shown.contains(i) implies 0 <= i < self.pc() by {
                if i != pi {
                    assert(g.hand_shown.contains(i));
                }
            }
            Self::lemma_wf_flags(g, *self);
        }
        self.record_action(replay, action);
        Ok(())
    }

    /// What mucking makes of the game: the hand of the player whose turn it is
    /// to show is marked mucked, the betting unchanged.
    pub open spec fn muck_effect(self, next: Game, replay: bool) -> bool {
        let p = self.shower();
        &&& next.same_betting(self)
        &&& next.action_log() == self.log_after(replay, Action::MucksOrUnknown(p))
        &&& next.replay_index() == self.replay_index() + 1
        &&& forall|q: int| next.mucked(q) == (self.mucked(q) || q == p.value())
        &&& forall|q: int| next.shown(q) == self.shown(q)
    }

    fn muck_hand_step(&mut self, replay: bool) -> (r: Result<(), PlayError>)
        requires
            old(self).wf(),
        ensures
            final(self).keeps_table(*old(self)),
            final(self).wf(),
            r is Err ==> *final(self) == *old(self),
            r is Ok <==> old(self).muck_ok(replay),
            r is Ok ==> old(self).muck_effect(*final(self), replay),
    {
        self.check_pre_update(replay)?;
        let player = match self.state() {
            State::ShowOrMuck(p) => p,
            _ => return Err(PlayError::WrongState),
        };
        proof {
            assert(self.show_spec() == Some(player));
        }
        let pi = player.0 as usize;
        let action = Action::MucksOrUnknown(player);
        self.check_record(replay, &action)?;
        let ghost g = *self;
        self.hand_mucked.set(pi);
        proof {
            assert forall|i: int| #[trigger] self.hand_mucked.contains(i) implies 0 <= i < self.pc() by {
                if i != pi {
                    assert(g.hand_mucked.contains(i));
                }
            }
            Self::lemma_wf_flags(g, *self);
        }
        self.record_action(replay, action);
        Ok(())
    }

    /// Changing only the shown and mucked players keeps the invariant.
    proof fn lemma_wf_flags(a: Game, b: Game)
        requires
            a.wf(),
            b == (Game { hand_shown: b.hand_shown, hand_mucked: b.hand_mucked, ..a }),
            forall|i: int| #[trigger] b.hand_shown.contains(i) ==> 0 <= i < b.pc(),
            forall|i: int| #[trigger] b.hand_mucked.contains(i) ==> 0 <= i < b.pc(),
        ensures
            b.wf(),
    {
        assert(b.street_idx() == a.street_idx());
        assert forall|t: int, q: int|
            0 <= t <= b.street_idx() && 0 <= q < 10 implies #[trigger] b.stk(t, q) <= if t == 0 {
                b.reference(q)
            } else {
                b.stk(t - 1, q)
            } by {
            assert(a.stk(t, q) <= if t == 0 {
                a.reference(q)
            } else {
                a.stk(t - 1, q)
            });
        }
        assert forall|q: int| 0 <= q < 10 implies #[trigger] b.reference(q) <= b.starting(q) by {
            assert(a.reference(q) <= a.starting(q));
        }
        assert forall|q: int| 0 <= q < b.pc() implies #[trigger] b.starting(q) > 0 by {
            assert(a.starting(q) > 0);
        }
        lemma_starting_upto_eq(a, b, b.pc());
        if b.current_action_index == 0 {
            assert forall|q: int| 0 <= q < b.pc() implies #[trigger] b.in_hand(q) && b.reference(q) == b.starting(q)
                && b.stk(0, q) == b.starting(q) by {
                assert(a.in_hand(q));
            }
        }
    }

    /// Sets the hand of `player`; a known hand cannot be changed to another.
    pub fn set_hand(&mut self, player: Player, hand: Hand) -> (r: Result<(), PlayError>)
        requires
            old(self).wf(),
            old(self).cards_defined(),
        ensures
            final(self).wf(),
            final(self).cards_defined() == old(self).cards_defined(),
            final(self).pc() == old(self).pc(),
            player.value() >= old(self).pc() ==> r == Err::<(), PlayError>(PlayError::InvalidPlayer)
                && *final(self) == *old(self),
            player.value() < old(self).pc() && (old(self).hand_at(player.value()) matches Some(h) && h
                != hand) ==> r == Err::<(), PlayError>(PlayError::InvalidHand) && *final(self) == *old(self),
            (player.value() < old(self).pc() && !(old(self).hand_at(player.value()) matches Some(h) && h
                != hand)) ==> ({
                &&& final(self).hand_at(player.value()) == Some(hand)
                &&& forall|q: int| 0 <= q < 10 && q != player.value() ==> final(self).hand_at(q) == old(self).hand_at(q)
                &&& final(self).same_betting(*old(self))
                &&& final(self).action_log() == old(self).action_log()
                &&& final(self).replay_index() == old(self).replay_index()
                &&& (r is Err <==> crate::card::has_duplicate(final(self).known_seq()))
                &&& (r is Err ==> r == Err::<(), PlayError>(PlayError::DuplicateCard))
                &&& final(self).known_seq() == old(self).known_with_hand(player.value(), hand)
            }),
    {
        if player.0 >= self.player_count {
            return Err(PlayError::InvalidPlayer);
        }
        let pi = player.0 as usize;
        match self.hands[pi] {
            Some(h) => {
                if h != hand {
                    return Err(PlayError::InvalidHand);
                }
            },
            None => {},
        }
        let ghost g = *self;
        self.hands.set(pi, Some(hand));
        proof {
            Self::lemma_wf_hands(g, *self);
            assert(self.cards_defined() == g.cards_defined()) by {
                Self::lemma_runouts_same(g, *self, 0);
            }
        }
        let r = self.check_cards();
        proof {
            assert(self.hands@[pi as int] == Some(hand));
            assert(self.same_betting(g));
            Self::lemma_runouts_same(g, *self, 0);
            assert(self.hands@ =~= g.hands@.update(pi as int, Some(hand)));
        }
        match r {
            Ok(_) => Ok(()),
            Err(e) => Err(e),
        }
    }

    /// The known cards once `p` holds `h`.
    pub closed spec fn known_with_hand(self, p: int, h: Hand) -> Seq<Card> {
        known_of(self.hands@.update(p, Some(h)), self.pc(), self.dealts(), self.current_board as int, self.shared_cards())
    }

    /// Giving a player who had no hand the hand `h` adds its two cards to
    /// the known cards.
    proof fn lemma_known_with_hand(self, p: int, h: Hand)
        requires
            self.wf(),
            0 <= p < self.pc(),
            self.hand_at(p) is None,
        ensures
            self.known_with_hand(p, h).to_multiset() == self.known_seq().to_multiset().insert(h.0).insert(h.1),
    {
        broadcast use vstd::seq_lib::lemma_multiset_commutative;
        broadcast use vstd::multiset::group_multiset_axioms;

        lemma_hand_cards_set(self.hands@, self.pc(), p, h);
        let a = hand_cards(self.hands@, self.pc());
        let b = hand_cards(self.hands@.update(p, Some(h)), self.pc());
        let rest = self.dealts()[0] + runout_list(self.dealts(), self.current_board as int, self.shared_cards());
        assert(self.known_seq() =~= a + rest);
        assert(self.known_with_hand(p, h) =~= b + rest);
        assert(self.known_with_hand(p, h).to_multiset() =~= self.known_seq().to_multiset().insert(h.0).insert(h.1));
    }

    proof fn lemma_runouts_same(a: Game, b: Game, k: int)
        requires
            a.actions@ == b.actions@,
            a.boards@ == b.boards@,
        ensures
            a.dealts() == b.dealts(),
            a.shared_cards() == b.shared_cards(),
    {
        assert(a.dealts() =~= b.dealts());
    }

    /// Changing only the hands keeps the invariant.
    proof fn lemma_wf_hands(a: Game, b: Game)
        requires
            a.wf(),
            b == (Game { hands: b.hands, ..a }),
            b.hands@.len() == 10,
        ensures
            b.wf(),
    {
        assert(b.street_idx() == a.street_idx());
        assert forall|t: int, q: int|
            0 <= t <= b.street_idx() && 0 <= q < 10 implies #[trigger] b.stk(t, q) <= if t == 0 {
                b.reference(q)
            } else {
                b.stk(t - 1, q)
            } by {
            assert(a.stk(t, q) <= if t == 0 {
                a.reference(q)
            } else {
                a.stk(t - 1, q)
            });
        }
        assert forall|q: int| 0 <= q < 10 implies #[trigger] b.reference(q) <= b.starting(q) by {
            assert(a.reference(q) <= a.starting(q));
        }
        assert forall|q: int| 0 <= q < b.pc() implies #[trigger] b.starting(q) > 0 by {
            assert(a.starting(q) > 0);
        }
        lemma_starting_upto_eq(a, b, b.pc());
        if b.current_action_index == 0 {
            assert forall|q: int| 0 <= q < b.pc() implies #[trigger] b.in_hand(q) && b.reference(q) == b.starting(q)
                && b.stk(0, q) == b.starting(q) by {
                assert(a.in_hand(q));
            }
        }
    }
}


/// The street a further runout starts from, found scanning the log from `i`:
/// the first dealt street directly followed by another deal, or the last
/// action when it deals a street.
pub open spec fn runout_start(log: Seq<Action>, i: int) -> Option<Street>
    decreases log.len() - i,
{
    if i >= log.len() {
        None
    } else {
        match action_street(log[i]) {
            Some(st) => if i + 1 < log.len() {
                if action_street(log[i + 1]) is Some {
                    Some(st)
                } else {
                    runout_start(log, i + 1)
                }
            } else {
                Some(st)
            },
            None => runout_start(log, i + 1),
        }
    }
}

/// The scan of `runout_start` only ends on a last dealt street that is the river.
pub open spec fn runout_scan_ok(log: Seq<Action>, i: int) -> bool
    decreases log.len() - i,
{
    if i >= log.len() {
        true
    } else {
        match action_street(log[i]) {
            Some(st) => if i + 1 < log.len() {
                if action_street(log[i + 1]) is Some {
                    true
                } else {
                    runout_scan_ok(log, i + 1)
                }
            } else {
                st == Street::River
            },
            None => runout_scan_ok(log, i + 1),
        }
    }
}

/// How many cards dealing the street `s` adds.
pub open spec fn action_street_size(s: Street) -> int {
    if s is Flop {
        3
    } else {
        1
    }
}

/// The cards a dealing action deals.
pub open spec fn action_cards(a: Action) -> Seq<Card> {
    match a {
        Action::Flop(f) => f@,
        Action::Turn(c) => seq![c],
        Action::River(c) => seq![c],
        _ => Seq::empty(),
    }
}

impl Game {
    /// The street that can be dealt now and whether it starts a further runout.
    pub closed spec fn deal_plan(self) -> Option<(Street, bool)> {
        match self.state_spec() {
            State::Street(s) => Some((s, false)),
            State::ShowdownOrNextRunout => if self.current_board >= 3 || !self.all_in_terminated() {
                None
            } else {
                match runout_start(self.actions@, 0) {
                    Some(s) => Some((s, true)),
                    None => None,
                }
            },
            _ => None,
        }
    }

    /// The dealt cards of every board once `action` deals its street, on a
    /// further runout when `fresh_runout`.
    pub closed spec fn dealt_after(self, action: Action, fresh_runout: bool) -> Seq<Seq<Card>> {
        let cb2 = if fresh_runout {
            self.current_board + 1
        } else {
            self.current_board as int
        };
        let pos = action_street(action)->Some_0.card_count() - action_cards(action).len();
        self.dealts().update(
            cb2,
            self.boards@[self.current_board as int].first_cards(pos) + action_cards(action),
        )
    }

    /// The board index once the street is dealt.
    pub closed spec fn board_after(self, fresh_runout: bool) -> int {
        if fresh_runout {
            self.current_board + 1
        } else {
            self.current_board as int
        }
    }

    /// The known cards once `action` deals its street.
    pub closed spec fn known_after(self, replay: bool, action: Action, fresh_runout: bool) -> Seq<Card> {
        known_of(
            self.hands@,
            self.pc(),
            self.dealt_after(action, fresh_runout),
            self.board_after(fresh_runout),
            shared_of(self.log_after(replay, action)),
        )
    }

    /// The states in which dealing `action` can be checked: the scan for the
    /// start of a further runout ends well, and after the deal all runouts agree
    /// on their shared cards; a new runout starts at a street already played,
    /// and when runouts differ, some street was dealt twice.
    pub closed spec fn deal_defined(self, replay: bool, action: Action) -> bool {
        &&& (self.state_spec() is ShowdownOrNextRunout && self.current_board < 3 && self.all_in_terminated())
            ==> runout_scan_ok(self.actions@, 0)
        &&& (self.deal_plan() is Some && self.deal_plan()->Some_0.1) ==> self.deal_plan()->Some_0.0.index()
            - 1 <= self.street_idx()
        &&& (self.deal_plan() is Some && Some(self.deal_plan()->Some_0.0) == action_street(action))
            ==> dealts_defined(
            self.dealt_after(action, self.deal_plan()->Some_0.1),
            self.board_after(self.deal_plan()->Some_0.1),
            shared_of(self.log_after(replay, action)),
        )
    }

    /// Whether returning the uncalled bet can be checked in this state (see `uncalled_fits`).
    pub fn uncalled_is_fitting(&self) -> (r: bool)
        requires
            self.wf(),
        ensures
            r == self.uncalled_fits(),
    {
        match self.can_uncalled_bet() {
            None => true,
            Some((p, a)) => {
                let cur = self.cur_stack(p.0 as usize);
                let prev = self.prev_stack(p.0 as usize);
                proof {
                    let t = self.top_upto(self.pc());
                    self.lemma_top_is_max(self.pc());
                    self.lemma_max_except(self.pc(), t);
                    self.lemma_stacks_ordered(t);
                    assert(a.value() == self.uncalled_spec()->Some_0.1);
                }
                cur.0 as u64 + a.0 as u64 <= prev.0 as u64
            },
        }
    }

    /// Whether the scan for the start of a further runout ends well (see `runout_scan_ok`).
    fn runout_scan_ok_exec(&self) -> (r: bool)
        requires
            self.wf(),
        ensures
            r == runout_scan_ok(self.actions@, 0),
    {
        let n = self.actions.len();
        let mut ok = true;
        let mut i: usize = n;
        while i > 0
            invariant
                n == self.actions@.len(),
                i <= n,
                ok == runout_scan_ok(self.actions@, i as int),
            decreases i,
        {
            let k = i - 1;
            match self.actions[k].street() {
                Some(st) => {
                    if k + 1 < n {
                        if self.actions[k + 1].is_street() {
                            ok = true;
                        }
                    } else {
                        ok = st == Street::River;
                    }
                },
                None => {},
            }
            i = k;
        }
        ok
    }

    /// Whether dealing `action` can be checked in this state (see `deal_defined`).
    pub fn deal_is_defined(&self, action: Action) -> (r: bool)
        requires
            self.wf(),
        ensures
            r == self.deal_defined(false, action),
    {
        self.deal_defined_check(false, action)
    }

    /// Whether dealing `action` (recorded already when `replay`) can be checked.
    #[verifier::loop_isolation(false)]
    fn deal_defined_check(&self, replay: bool, action: Action) -> (r: bool)
        requires
            self.wf(),
        ensures
            r == self.deal_defined(replay, action),
    {
        let scan_needed = match self.state() {
            State::ShowdownOrNextRunout => self.current_board < 3 && self.all_in_terminated_hand(),
            _ => false,
        };
        if scan_needed && !self.runout_scan_ok_exec() {
            return false;
        }
        let (s, fresh) = match self.deal_plan_exec() {
            None => return true,
            Some(p) => p,
        };
        if fresh && s.to_usize() - 1 > self.street_index() {
            return false;
        }
        let st = match action.street() {
            Some(x) => x,
            None => return true,
        };
        if st != s {
            return true;
        }
        let ghost log = self.log_after(replay, action);
        let cb2: usize = if fresh {
            self.current_board + 1
        } else {
            self.current_board
        };
        if cb2 == 0 {
            return true;
        }
        let flops = self.count_street_deals(Street::Flop);
        let turns = self.count_street_deals(Street::Turn);
        let rivers = self.count_street_deals(Street::River);
        proof {
            lemma_street_deals_push(self.actions@, action, Street::Flop);
            lemma_street_deals_push(self.actions@, action, Street::Turn);
            lemma_street_deals_push(self.actions@, action, Street::River);
            assert(!replay ==> log.len() == self.actions@.len() + 1);
        }
        let m: usize = if flops > 1 || (flops == 1 && !replay && st == Street::Flop) {
            0
        } else if turns > 1 || (turns == 1 && !replay && st == Street::Turn) {
            3
        } else if rivers > 1 || (rivers == 1 && !replay && st == Street::River) {
            4
        } else {
            return false;
        };
        proof {
            assert(shared_of(log) == m);
        }
        let ghost dealts = self.dealt_after(action, fresh);
        let first = self.boards[0].cards();
        let new_board = self.dealt_board(action, s, fresh).cards();
        proof {
            assert(dealts[0] == self.boards@[0].dealt());
            assert(new_board@ == dealts[cb2 as int]);
        }
        if first.len() < m {
            return false;
        }
        proof {
            assert(self.deal_defined(replay, action) == dealts_defined(dealts, cb2 as int, m as int));
        }
        let mut b: usize = 1;
        while b <= cb2
            invariant
                self.wf(),
                self.deal_defined(replay, action) == dealts_defined(dealts, cb2 as int, m as int),
                1 <= b <= cb2 + 1,
                cb2 < 4,
                cb2 == self.board_after(fresh),
                dealts == self.dealt_after(action, fresh),
                first@ == dealts[0],
                new_board@ == dealts[cb2 as int],
                m <= first@.len(),
                forall|j: int|
                    1 <= j < b ==> (#[trigger] dealts[j]).len() >= m && dealts[j].subrange(0, m as int)
                        == dealts[0].subrange(0, m as int),
            decreases cb2 + 1 - b,
        {
            let cards = if b == cb2 {
                new_board.clone()
            } else {
                self.boards[b].cards()
            };
            proof {
                assert(cards@ == dealts[b as int]);
            }
            if cards.len() < m {
                proof {
                    assert(!((dealts[b as int]).len() >= m && dealts[b as int].subrange(0, m as int)
                        == dealts[0].subrange(0, m as int)));
                }
                return false;
            }
            let mut k: usize = 0;
            while k < m
                invariant
                    k <= m,
                    m <= cards@.len(),
                    m <= first@.len(),
                    forall|j: int| 0 <= j < k ==> cards@[j] == first@[j],
                decreases m - k,
            {
                if cards[k] != first[k] {
                    proof {
                        assert(cards@.subrange(0, m as int)[k as int] != first@.subrange(0, m as int)[k as int]);
                        assert(!((dealts[b as int]).len() >= m && dealts[b as int].subrange(0, m as int)
                            == dealts[0].subrange(0, m as int)));
                    }
                    return false;
                }
                k = k + 1;
            }
            proof {
                assert(cards@.subrange(0, m as int) =~= first@.subrange(0, m as int));
            }
            b = b + 1;
        }
        true
    }

    /// The start of a further runout.
    fn runout_start_exec(&self) -> (r: Option<Street>)
        requires
            self.wf(),
            runout_scan_ok(self.actions@, 0),
        ensures
            r == runout_start(self.actions@, 0),
            r matches Some(s) ==> s.index() >= 1,
    {
        let n = self.actions.len();
        let mut i: usize = 0;
        while i < n
            invariant
                n == self.actions@.len(),
                i <= n,
                runout_start(self.actions@, 0) == runout_start(self.actions@, i as int),
                runout_scan_ok(self.actions@, i as int),
            decreases n - i,
        {
            match self.actions[i].street() {
                Some(st) => {
                    if i + 1 < n {
                        if self.actions[i + 1].is_street() {
                            return Some(st);
                        }
                    } else {
                        return Some(st);
                    }
                },
                None => {},
            }
            i = i + 1;
        }
        None
    }

    fn deal_plan_exec(&self) -> (r: Option<(Street, bool)>)
        requires
            self.wf(),
            (self.state_spec() is ShowdownOrNextRunout && self.current_board < 3
                && self.all_in_terminated()) ==> runout_scan_ok(self.actions@, 0),
        ensures
            r == self.deal_plan(),
            r matches Some((s, nr)) ==> s.index() >= 1 && (nr ==> self.current_board < 3) && (!nr ==> s.index()
                == self.street_idx() + 1),
    {
        match self.state() {
            State::Street(s) => Some((s, false)),
            State::ShowdownOrNextRunout => {
                if self.current_board >= 3 || !self.all_in_terminated_hand() {
                    None
                } else {
                    match self.runout_start_exec() {
                        Some(s) => Some((s, true)),
                        None => None,
                    }
                }
            },
            _ => None,
        }
    }

    /// Collects the known cards of the given hands and boards.
    fn collect_known(&self, dealts: &Vec<Vec<Card>>, cb: usize, m: usize) -> (v: Vec<Card>)
        requires
            self.wf(),
            dealts@.len() == 4,
            cb < 4,
            dealts_defined(dealts@.map_values(|d: Vec<Card>| d@), cb as int, m as int),
        ensures
            v@ == known_of(self.hands@, self.pc(), dealts@.map_values(|d: Vec<Card>| d@), cb as int, m as int),
    {
        let ghost ds = dealts@.map_values(|d: Vec<Card>| d@);
        let mut known: Vec<Card> = Vec::new();
        let mut p: usize = 0;
        while p < self.player_count as usize
            invariant
                self.wf(),
                p <= self.pc(),
                known@ == hand_cards(self.hands@, p as int),
            decreases self.pc() - p,
        {
            match self.hands[p] {
                Some(h) => {
                    known.push(h.0);
                    known.push(h.1);
                },
                None => {},
            }
            p = p + 1;
        }
        let ghost base = known@;
        let first = &dealts[0];
        let mut i: usize = 0;
        while i < first.len()
            invariant
                i <= first@.len(),
                known@ == base + first@.subrange(0, i as int),
            decreases first@.len() - i,
        {
            known.push(first[i]);
            proof {
                assert(known@ =~= base + first@.subrange(0, i + 1));
            }
            i = i + 1;
        }
        proof {
            assert(first@.subrange(0, first@.len() as int) =~= first@);
            assert(ds[0] == first@);
        }
        let ghost base2 = known@;
        let mut b: usize = 1;
        while b <= cb
            invariant
                dealts@.len() == 4,
                cb < 4,
                ds == dealts@.map_values(|d: Vec<Card>| d@),
                dealts_defined(ds, cb as int, m as int),
                1 <= b <= cb + 1,
                known@ == base2 + runout_list(ds, b - 1, m as int),
            decreases cb + 1 - b,
        {
            let cards = &dealts[b];
            proof {
                assert(ds[b as int] == cards@);
                assert(cards@.len() >= m);
            }
            let mut k: usize = m;
            let ghost before = known@;
            while k < cards.len()
                invariant
                    m <= k <= cards@.len(),
                    known@ == before + cards@.subrange(m as int, k as int),
                decreases cards@.len() - k,
            {
                known.push(cards[k]);
                proof {
                    assert(known@ =~= before + cards@.subrange(m as int, k + 1));
                }
                k = k + 1;
            }
            proof {
                assert(known@ =~= base2 + runout_list(ds, b as int, m as int));
            }
            b = b + 1;
        }
        proof {
            assert(known@ =~= known_of(self.hands@, self.pc(), ds, cb as int, m as int));
        }
        known
    }
}


impl Game {
    /// What dealing `action` makes of the game: the cards are on the board of
    /// the runout the deal goes to, the stacks are those at the start of the
    /// street, and the first player after the button is to act.
    pub open spec fn deal_effect(self, next: Game, replay: bool, action: Action) -> bool {
        let st = action_street(action)->Some_0;
        let nr = self.deal_plan()->Some_0.1;
        &&& next.same_setup_but_boards(self)
        &&& next.dealts() == self.dealt_after(action, nr)
        &&& next.board_index() == self.board_after(nr)
        &&& next.street_idx() == st.index()
        &&& next.action_log() == self.log_after(replay, action)
        &&& next.replay_index() == self.replay_index() + 1
        &&& next.street_start() == next.replay_index()
        &&& forall|q: int| 0 <= q < 10 ==> next.cur(q) == self.stk(st.index() - 1, q)
        &&& forall|q: int|
            #![trigger next.in_hand(q)]
            0 <= q < 10 ==> next.in_hand(q) == self.in_hand(q)
        &&& next.player_now() == if next.all_in_terminated() {
            None
        } else {
            next.rotate_from(self.button_player().value(), 1)
        }
    }

    /// Deals the street of `action` (a flop, turn or river) on the current
    /// runout, or on a further runout once the hand is all in at showdown.
    #[verifier::rlimit(100)]
    #[verifier::loop_isolation(false)]
    fn deal_step(&mut self, replay: bool, action: Action) -> (r: Result<(), PlayError>)
        requires
            old(self).wf(),
            action_street(action) is Some,
            old(self).deal_defined(replay, action),
        ensures
            final(self).keeps_table(*old(self)),
            final(self).wf(),
            r != Err::<(), PlayError>(PlayError::NoCardsLeft),
            r is Err ==> *final(self) == *old(self),
            r is Ok <==> old(self).deal_ok(replay, action),
            r is Ok ==> old(self).deal_effect(*final(self), replay, action),
    {
        let street = match action.street() {
            Some(s) => s,
            None => return Err(PlayError::WrongState),
        };
        self.check_pre_update(replay)?;
        let (st, nr) = match self.deal_plan_exec() {
            Some(x) => x,
            None => return Err(PlayError::WrongState),
        };
        if st != street {
            return Err(PlayError::WrongState);
        }
        self.check_record(replay, &action)?;
        let board = self.dealt_board(action, street, nr);
        if !self.deal_cards_ok(replay, action, street, nr, board) {
            return Err(PlayError::DuplicateCard);
        }
        self.deal_commit(replay, action, street, nr, board);
        Ok(())
    }

    /// The board of the runout being dealt, once `action` deals `street`.
    fn dealt_board(&self, action: Action, street: Street, nr: bool) -> (board: Board)
        requires
            self.wf(),
            action_street(action) == Some(street),
            nr ==> self.current_board < 3,
        ensures
            board.dealt() == self.boards@[self.current_board as int].first_cards(
                street.card_count() - action_cards(action).len(),
            ) + action_cards(action),
            board.street_of() == street,
    {
        let cb = self.current_board;
        let src = self.boards[cb];
        let si = street.to_usize();
        let pos: usize = if si == 1 { 0 } else if si == 2 { 3 } else { 4 };
        let mut cards: [Card; 5] = if nr {
            let mut c = [Card::min(); 5];
            let mut k: usize = 0;
            while k < pos
                invariant
                    k <= pos <= 4,
                    forall|j: int| 0 <= j < k ==> c@[j] == src.cards@[j],
                decreases pos - k,
            {
                c[k] = src.cards[k];
                k = k + 1;
            }
            c
        } else {
            src.cards
        };
        match action {
            Action::Flop(f) => {
                cards[0] = f[0];
                cards[1] = f[1];
                cards[2] = f[2];
            },
            Action::Turn(c) => {
                cards[3] = c;
            },
            Action::River(c) => {
                cards[4] = c;
            },
            _ => {},
        }
        let board = Board { cards, street };
        proof {
            assert(pos == street.card_count() - action_cards(action).len());
            board.lemma_parts(0);
            src.lemma_parts(pos as int);
            assert(board.dealt() =~= src.first_cards(pos as int) + action_cards(action));
        }
        board
    }

    /// Whether the known cards stay distinct once `board` is dealt.
    #[verifier::loop_isolation(false)]
    fn deal_cards_ok(&self, replay: bool, action: Action, street: Street, nr: bool, board: Board) -> (ok: bool)
        requires
            self.wf(),
            action_street(action) == Some(street),
            nr ==> self.current_board < 3,
            self.can_record(replay, action),
            board.dealt() == self.boards@[self.current_board as int].first_cards(
                street.card_count() - action_cards(action).len(),
            ) + action_cards(action),
            dealts_defined(
                self.dealt_after(action, nr),
                self.board_after(nr),
                shared_of(self.log_after(replay, action)),
            ),
        ensures
            ok == !crate::card::has_duplicate(self.known_after(replay, action, nr)),
    {
        let ghost g = *self;
        let cb = self.current_board;
        let cb2 = if nr { cb + 1 } else { cb };
        let flops = self.count_street_deals(Street::Flop);
        let turns = self.count_street_deals(Street::Turn);
        let rivers = self.count_street_deals(Street::River);
        let more_flops = flops > 1 || (flops == 1 && !replay && street == Street::Flop);
        let more_turns = turns > 1 || (turns == 1 && !replay && street == Street::Turn);
        let more_rivers = rivers > 1 || (rivers == 1 && !replay && street == Street::River);
        let m: usize = if more_flops {
            0
        } else if more_turns {
            3
        } else if more_rivers {
            4
        } else {
            0
        };
        proof {
            let log = g.log_after(replay, action);
            if !replay {
                assert(log.subrange(0, g.actions@.len() as int) =~= g.actions@);
                lemma_street_deals_push(g.actions@, action, Street::Flop);
                lemma_street_deals_push(g.actions@, action, Street::Turn);
                lemma_street_deals_push(g.actions@, action, Street::River);
            }
            assert(cb2 > 0 ==> m == shared_of(log));
        }
        let mut dealts: Vec<Vec<Card>> = Vec::new();
        let mut b: usize = 0;
        while b < 4
            invariant
                b <= 4,
                dealts@.len() == b,
                forall|j: int| 0 <= j < b ==> (#[trigger] dealts@[j])@ == g.dealt_after(action, nr)[j],
            decreases 4 - b,
        {
            if b == cb2 {
                dealts.push(board.cards());
            } else {
                dealts.push(self.boards[b].cards());
            }
            b = b + 1;
        }
        proof {
            assert(dealts@.map_values(|d: Vec<Card>| d@) =~= g.dealt_after(action, nr));
        }
        let known = self.collect_known(&dealts, cb2, m);
        proof {
            if cb2 == 0 {
                assert(runout_list(g.dealt_after(action, nr), 0, m as int) =~= runout_list(
                    g.dealt_after(action, nr),
                    0,
                    shared_of(g.log_after(replay, action)),
                ));
            }
            assert(known@ == g.known_after(replay, action, nr));
        }
        Cards::from_slice(known.as_slice()).is_some()
    }

    /// Commits the deal of `action` with the new `board`.
    fn deal_commit(&mut self, replay: bool, action: Action, street: Street, nr: bool, board: Board)
        requires
            old(self).wf(),
            action_street(action) == Some(street),
            street.index() >= 1,
            nr ==> old(self).current_board < 3,
            nr ==> street.index() - 1 <= old(self).street_idx(),
            !nr ==> street.index() == old(self).street_idx() + 1,
            old(self).can_record(replay, action),
            board.dealt() == old(self).boards@[old(self).current_board as int].first_cards(
                street.card_count() - action_cards(action).len(),
            ) + action_cards(action),
            board.street_of() == street,
        ensures
            final(self).wf(),
            final(self).same_setup_but_boards(*old(self)),
            final(self).dealts() == old(self).dealt_after(action, nr),
            final(self).board_index() == old(self).board_after(nr),
            final(self).street_idx() == street.index(),
            final(self).action_log() == old(self).log_after(replay, action),
            final(self).replay_index() == old(self).replay_index() + 1,
            final(self).street_start() == final(self).replay_index(),
            forall|q: int| 0 <= q < 10 ==> final(self).cur(q) == old(self).stk(street.index() - 1, q),
            forall|q: int|
                #![trigger final(self).in_hand(q)]
                0 <= q < 10 ==> final(self).in_hand(q) == old(self).in_hand(q),
            final(self).player_now() == if final(self).all_in_terminated() {
                None
            } else {
                final(self).rotate_from(old(self).button_player().value(), 1)
            },
    {
        let ghost g = *self;
        let cb = self.current_board;
        let cb2 = if nr { cb + 1 } else { cb };
        let si = street.to_usize();
        self.boards.set(cb2, board);
        self.current_board = cb2;
        self.copy_stacks_from(si);
        if !replay {
            self.actions.push(action);
        }
        let len = self.actions.len();
        assert(self.current_action_index < len);
        self.current_action_index = self.current_action_index + 1;
        self.current_street_index = self.current_action_index;
        self.current_player = None;
        proof {
            Self::lemma_deal_wf(g, *self, replay, action, street, nr, board);
        }
        self.first_to_act();
    }

    proof fn lemma_deal_wf(g: Game, f: Game, replay: bool, action: Action, street: Street, nr: bool, board: Board)
        requires
            g.wf(),
            action_street(action) == Some(street),
            street.index() >= 1,
            nr ==> g.current_board < 3,
            nr ==> street.index() - 1 <= g.street_idx(),
            !nr ==> street.index() == g.street_idx() + 1,
            g.can_record(replay, action),
            board.dealt() == g.boards@[g.current_board as int].first_cards(
                street.card_count() - action_cards(action).len(),
            ) + action_cards(action),
            board.street_of() == street,
            f.same_setup_but_boards(g),
            f.boards@ == g.boards@.update(f.current_board as int, board),
            f.current_board == (if nr { g.current_board + 1 } else { g.current_board as int }),
            f.stacks_in_street@.len() == 40,
            forall|j: int| 0 <= j < 40 ==> (#[trigger] f.stacks_in_street@[j]) == if street.index() * 10 <= j {
                g.stacks_in_street@[(street.index() - 1) * 10 + j % 10]
            } else {
                g.stacks_in_street@[j]
            },
            f.actions@ == g.log_after(replay, action),
            f.current_action_index == g.current_action_index + 1,
            f.current_street_index == f.current_action_index,
            f.current_player is None,
        ensures
            f.wf(),
            f.dealts() == g.dealt_after(action, nr),
            f.street_idx() == street.index(),
            forall|q: int| 0 <= q < 10 ==> f.cur(q) == g.stk(street.index() - 1, q),
    {
        let si = street.index();
        board.lemma_parts(0);
        assert(f.street_idx() == si);
        assert forall|t: int, q: int| 0 <= t < 4 && 0 <= q < 10 implies #[trigger] f.stk(t, q) == if t >= si {
            g.stk(si - 1, q)
        } else {
            g.stk(t, q)
        } by {
            assert(0 <= t * 10 + q < 40) by (nonlinear_arith)
                requires
                    0 <= t < 4,
                    0 <= q < 10,
            ;
            assert((t * 10 + q) % 10 == q) by (nonlinear_arith)
                requires
                    0 <= t < 4,
                    0 <= q < 10,
            ;
            if t >= si {
                assert(si * 10 <= t * 10 + q) by (nonlinear_arith)
                    requires
                        si <= t,
                        0 <= q,
                ;
            } else {
                assert(t * 10 + q < si * 10) by (nonlinear_arith)
                    requires
                        t < si,
                        q < 10,
                ;
            }
        }
        assert forall|t: int, q: int|
            0 <= t <= f.street_idx() && 0 <= q < 10 implies #[trigger] f.stk(t, q) <= if t == 0 {
                f.reference(q)
            } else {
                f.stk(t - 1, q)
            } by {
            if t < si {
                assert(g.stk(t, q) <= if t == 0 {
                    g.reference(q)
                } else {
                    g.stk(t - 1, q)
                });
                if t > 0 {
                    assert(f.stk(t - 1, q) == g.stk(t - 1, q));
                }
            } else {
                assert(f.stk(t, q) == g.stk(si - 1, q));
                assert(f.stk(t - 1, q) == g.stk(si - 1, q));
            }
        }
        assert(f.actions@[f.current_street_index - 1] == action);
        assert forall|i: int| 0 <= i < f.actions@.len() implies (action_player(
            #[trigger] f.actions@[i],
        ) matches Some(x) ==> x.value() < f.pc()) by {
            if i < g.actions@.len() {
                assert(f.actions@[i] == g.actions@[i]);
            }
        }
        assert forall|q: int| 0 <= q < 10 implies #[trigger] f.reference(q) <= f.starting(q) by {
            assert(g.reference(q) <= g.starting(q));
        }
        assert forall|q: int| 0 <= q < f.pc() implies #[trigger] f.starting(q) > 0 by {
            assert(g.starting(q) > 0);
        }
        lemma_starting_upto_eq(g, f, f.pc());
        assert(f.dealts() =~= g.dealt_after(action, nr));
        assert forall|q: int| 0 <= q < 10 implies f.cur(q) == g.stk(si - 1, q) by {}
    }

    /// Sets the stacks of street `si` and the streets after it to those of the
    /// street before it.
    fn copy_stacks_from(&mut self, si: usize)
        requires
            1 <= si < 4,
            old(self).stacks_in_street@.len() == 40,
        ensures
            *final(self) == (Game { stacks_in_street: final(self).stacks_in_street, ..*old(self) }),
            final(self).stacks_in_street@.len() == 40,
            forall|j: int| 0 <= j < 40 ==> (#[trigger] final(self).stacks_in_street@[j]) == if si * 10 <= j {
                old(self).stacks_in_street@[(si - 1) * 10 + j % 10]
            } else {
                old(self).stacks_in_street@[j]
            },
    {
        let ghost g = *self;
        let mut t: usize = si;
        while t < 4
            invariant
                *self == (Game { stacks_in_street: self.stacks_in_street, ..g }),
                si <= t <= 4,
                1 <= si < 4,
                self.stacks_in_street@.len() == 40,
                forall|j: int| 0 <= j < 40 ==> (#[trigger] self.stacks_in_street@[j]) == if si * 10 <= j < t * 10 {
                    g.stacks_in_street@[(si - 1) * 10 + j % 10]
                } else {
                    g.stacks_in_street@[j]
                },
            decreases 4 - t,
        {
            let mut q: usize = 0;
            while q < MAX_PLAYERS
                invariant
                    *self == (Game { stacks_in_street: self.stacks_in_street, ..g }),
                    si <= t < 4,
                    1 <= si < 4,
                    q <= 10,
                    self.stacks_in_street@.len() == 40,
                    forall|j: int| 0 <= j < 40 ==> (#[trigger] self.stacks_in_street@[j]) == if si * 10 <= j < t * 10 + q {
                        g.stacks_in_street@[(si - 1) * 10 + j % 10]
                    } else {
                        g.stacks_in_street@[j]
                    },
                decreases 10 - q,
            {
                let v = self.stacks_in_street[(si - 1) * MAX_PLAYERS + q];
                self.stacks_in_street.set(t * MAX_PLAYERS + q, v);
                q = q + 1;
            }
            t = t + 1;
        }
    }

    /// Gives the turn to the first player left of the button with chips behind,
    /// unless at most one player in the hand has chips behind.
    fn first_to_act(&mut self)
        requires
            old(self).wf(),
            old(self).current_player is None,
            old(self).current_action_index > 0,
        ensures
            final(self).wf(),
            *final(self) == (Game { current_player: final(self).current_player, ..*old(self) }),
            final(self).player_now() == if final(self).all_in_terminated() {
                None
            } else {
                final(self).rotate_from(old(self).button_player().value(), 1)
            },
    {
        let ghost h = *self;
        if self.all_in_terminated_hand() {
            return;
        }
        let n = self.player_count as usize;
        let start = self.button.0 as usize;
        let mut k: usize = 1;
        while k < n
            invariant
                h.wf(),
                *self == h,
                *old(self) == h,
                h.current_action_index > 0,
                !h.all_in_terminated(),
                n == h.pc(),
                1 <= k <= n,
                start == h.button.value(),
                h.rotate_from(start as int, 1) == h.rotate_from(start as int, k as int),
            decreases n - k,
        {
            let q = (start + k) % n;
            if self.not_folded.has(q) && self.cur_stack(q).0 != 0 {
                proof {
                    assert(q as int == (start + k) % (h.pc()));
                    assert(h.live(q as int));
                    assert(h.rotate_from(start as int, k as int) == Some(Player(q as u8)));
                    Self::lemma_wf_set_player(h, Some(Player(q as u8)));
                }
                self.current_player = Some(Player(q as u8));
                proof {
                    Self::lemma_rotate_eq(h, *self, start as int, 1);
                    Self::lemma_all_in_eq(h, *self, self.pc());
                }
                return;
            }
            k = k + 1;
        }
    }
}

proof fn lemma_street_deals_push(s: Seq<Action>, a: Action, st: Street)
    ensures
        street_deals(s.push(a), s.len() + 1int, st) == street_deals(s, s.len() as int, st) + if action_street(a)
            == Some(st) {
            1int
        } else {
            0int
        },
{
    lemma_street_deals_prefix(s.push(a), s, s.len() as int, st);
}

proof fn lemma_street_deals_prefix(s: Seq<Action>, t: Seq<Action>, n: int, st: Street)
    requires
        0 <= n <= t.len(),
        n <= s.len(),
        forall|i: int| 0 <= i < n ==> s[i] == t[i],
    ensures
        street_deals(s, n, st) == street_deals(t, n, st),
    decreases n,
{
    if n > 0 {
        lemma_street_deals_prefix(s, t, n - 1, st);
    }
}


impl Game {
    /// When the player to act may fold.
    pub closed spec fn fold_ok(self, replay: bool) -> bool {
        (self.player_now() is Some && (replay || self.at_final_action())
                && self.can_record(replay, Action::Fold(self.player_now()->Some_0)))
    }

    /// When the player to act may check.
    pub closed spec fn check_ok(self, replay: bool) -> bool {
        (self.player_now() is Some && (replay || self.at_final_action())
                && self.to_call(self.player_now()->Some_0.value()) == 0
                && self.can_record(replay, Action::Check(self.player_now()->Some_0)))
    }

    /// When the player to act may call.
    pub closed spec fn call_ok(self, replay: bool) -> bool {
        (self.player_now() is Some && (replay || self.at_final_action())
                && self.call_spec() is Some && self.can_record(
                replay,
                Action::Call {
                    player: self.player_now()->Some_0,
                    amount: Amount(self.call_spec()->Some_0 as u32),
                },
            ))
    }

    /// When the player to act may bet `amount`.
    pub closed spec fn bet_ok(self, replay: bool, amount: Amount) -> bool {
        (self.player_now() is Some && (replay || self.at_final_action())
                && self.bet_open() && amount.value() >= self.min_bet(
                self.player_now()->Some_0.value(),
            ) && amount.value() <= self.cur(self.player_now()->Some_0.value())
                && self.can_record(
                replay,
                Action::Bet { player: self.player_now()->Some_0, amount },
            ))
    }

    /// When the player to act may raise to `to` (with the minimum check when `checked`).
    pub closed spec fn raise_ok(self, replay: bool, to: Amount, checked: bool) -> bool {
        ({
                &&& self.player_now() is Some
                &&& (replay || self.at_final_action())
                &&& self.raise_spec() is Some
                &&& (checked ==> to.value() >= self.raise_spec()->Some_0.1)
                &&& to.value() <= self.prev(self.player_now()->Some_0.value())
                &&& 0 <= self.raise_size(to.value()) <= u32::MAX
                &&& (!checked ==> self.raise_spec()->Some_0.0 + to.value() <= u32::MAX)
                &&& self.can_record(replay, self.raise_action(to))
            })
    }

    /// When `player` may straddle `amount`.
    pub closed spec fn straddle_ok(self, replay: bool, player: Player, amount: Amount) -> bool {
        ((replay || self.at_final_action()) && self.straddle_spec(player) is Ok
                && amount.value() >= self.straddle_spec(player)->Ok_0 && amount.value()
                <= self.reference(player.value()) && self.can_record(
                replay,
                Action::Straddle { player, amount },
            ))
    }

    /// When the uncalled bet can be returned.
    pub closed spec fn uncalled_ok(self, replay: bool) -> bool {
        ((replay || self.at_final_action()) && self.state_spec() is UncalledBet
                && self.can_record(replay, self.uncalled_action()))
    }

    /// When the player due to show can show the hand.
    pub closed spec fn show_ok(self, replay: bool) -> bool {
        ((replay || self.at_final_action()) && self.state_spec() is ShowOrMuck
                && self.hand_at(self.shower().value()) is Some && self.can_record(
                replay,
                Action::Shows {
                    player: self.shower(),
                    hand: self.hand_at(self.shower().value())->Some_0,
                },
            ))
    }

    /// When the player due to show can muck.
    pub closed spec fn muck_ok(self, replay: bool) -> bool {
        ((replay || self.at_final_action()) && self.state_spec() is ShowOrMuck
                && self.can_record(replay, Action::MucksOrUnknown(self.shower())))
    }

    /// When `action` can deal its street.
    pub closed spec fn deal_ok(self, replay: bool, action: Action) -> bool {
        ({
                &&& replay || self.at_final_action()
                &&& self.deal_plan() is Some
                &&& Some(self.deal_plan()->Some_0.0) == action_street(action)
                &&& self.can_record(replay, action)
                &&& !crate::card::has_duplicate(
                    self.known_after(replay, action, self.deal_plan()->Some_0.1),
                )
            })
    }

    /// When the blinds can be posted.
    pub closed spec fn blinds_ok(self, replay: bool) -> bool {
        ((replay || self.at_final_action()) && self.replay_index() == 0 && (
            replay ==> (self.action_log().len() >= 2 && self.action_log().subrange(0, 2)
                == self.blind_actions())))
    }

}



impl Game {
    /// What applying `action` as the next action makes of the game: the effect
    /// of the step the action stands for.
    pub open spec fn apply_effect(self, next: Game, action: Action) -> bool {
        match action {
            Action::Post { .. } => false,
            Action::Straddle { player, amount } => self.straddle_effect(next, false, player, amount),
            Action::Fold(_) => self.fold_effect(next, false),
            Action::Check(_) => self.check_effect(next, false),
            Action::Call { .. } => self.call_effect(next, false),
            Action::Bet { amount, .. } => self.bet_effect(next, false, amount),
            Action::Raise { to, .. } => self.raise_effect(next, false, to),
            Action::Flop(_) => self.deal_effect(next, false, action),
            Action::Turn(_) => self.deal_effect(next, false, action),
            Action::River(_) => self.deal_effect(next, false, action),
            Action::UncalledBet { .. } => self.uncalled_effect(next, false),
            Action::Shows { .. } => self.show_effect(next, false),
            Action::MucksOrUnknown(_) => self.muck_effect(next, false),
        }
    }

    /// The computations an action needs are defined: the raise computation
    /// for a raise, the returned amount for an uncalled bet, the deal for a
    /// deal.
    pub open spec fn apply_defined(self, action: Action) -> bool {
        &&& action is Raise ==> self.raise_defined()
        &&& action is UncalledBet ==> self.uncalled_fits()
        &&& action_street(action) is Some ==> self.deal_defined(false, action)
    }

    /// When `action` can be applied as the next action.
    pub closed spec fn apply_ok(self, action: Action) -> bool {
        &&& self.at_final_action()
        &&& (action is Straddle || action_player(action) == self.current_player)
        &&& match action {
            Action::Post { .. } => false,
            Action::Straddle { player, amount } => self.straddle_ok(false, player, amount),
            Action::Fold(_) => self.fold_ok(false),
            Action::Check(_) => self.check_ok(false),
            Action::Call { amount, .. } => self.call_spec() is Some && Amount(self.call_spec()->Some_0 as u32)
                == amount && self.call_ok(false),
            Action::Bet { amount, .. } => self.bet_ok(false, amount),
            Action::Raise { to, .. } => self.raise_ok(false, to, true),
            Action::Flop(_) => self.deal_ok(false, action),
            Action::Turn(_) => self.deal_ok(false, action),
            Action::River(_) => self.deal_ok(false, action),
            Action::UncalledBet { player, amount } => self.state_spec() == (State::UncalledBet {
                player,
                amount,
            }) && self.uncalled_ok(false),
            Action::Shows { player, hand } => self.state_spec() == State::ShowOrMuck(player) && self.hand_at(
                player.value(),
            ) == Some(hand) && self.show_ok(false),
            Action::MucksOrUnknown(player) => self.state_spec() == State::ShowOrMuck(player) && self.muck_ok(
                false,
            ),
        }
    }

    /// The action recorded when `action` is applied: a raise records its size
    /// and the stack before it, everything else as given.
    pub closed spec fn applied_action(self, action: Action) -> Action {
        match action {
            Action::Raise { to, .. } => self.raise_action(to),
            _ => action,
        }
    }

    /// Applies a recorded action of any kind (but a post) as the next action.
    pub fn apply_action(&mut self, action: Action) -> (r: Result<(), PlayError>)
        requires
            old(self).wf(),
            old(self).apply_defined(action),
        ensures
            final(self).wf(),
            r is Err ==> *final(self) == *old(self),
            r is Ok <==> old(self).apply_ok(action),
            r is Ok ==> old(self).apply_effect(*final(self), action),
            final(self).keeps_table(*old(self)),
            r is Ok ==> final(self).action_log() == old(self).action_log().push(
                old(self).applied_action(action),
            ) && final(self).replay_index() == old(self).replay_index() + 1,
    {
        self.check_pre_update(false)?;
        let is_straddle = match action {
            Action::Straddle { .. } => true,
            _ => false,
        };
        if !is_straddle {
            let same = match (action.player(), self.current_player) {
                (Some(a), Some(b)) => a == b,
                (None, None) => true,
                _ => false,
            };
            if !same {
                return Err(PlayError::WrongState);
            }
        }
        match action {
            Action::Post { .. } => Err(PlayError::InvalidPost),
            Action::Straddle { player, amount } => self.straddle_step(false, player, amount),
            Action::Fold(_) => self.fold_step(false),
            Action::Check(_) => self.check_step(false),
            Action::Call { amount, .. } => {
                match self.can_call() {
                    Some(a) => {
                        if a != amount {
                            return Err(PlayError::CallNotAllowed);
                        }
                    },
                    None => {
                        return Err(PlayError::CallNotAllowed);
                    },
                }
                self.call_step(false)
            },
            Action::Bet { amount, .. } => self.bet_step(false, amount),
            Action::Raise { to, .. } => self.raise_to_step(false, to, true),
            Action::Flop(_) => self.deal_step(false, action),
            Action::Turn(_) => self.deal_step(false, action),
            Action::River(_) => self.deal_step(false, action),
            Action::UncalledBet { player, amount } => {
                let st = self.state();
                match st {
                    State::UncalledBet { player: p, amount: a } => {
                        if p != player || a != amount {
                            return Err(PlayError::WrongState);
                        }
                    },
                    _ => {
                        return Err(PlayError::WrongState);
                    },
                }
                self.uncalled_bet_step(false)
            },
            Action::Shows { player, hand } => {
                let st = self.state();
                match st {
                    State::ShowOrMuck(p) => {
                        if p != player {
                            return Err(PlayError::WrongState);
                        }
                    },
                    _ => {
                        return Err(PlayError::WrongState);
                    },
                }
                match self.get_hand(player) {
                    Some(h) => {
                        if h != hand {
                            return Err(PlayError::WrongState);
                        }
                    },
                    None => {
                        return Err(PlayError::WrongState);
                    },
                }
                self.show_hand_step(false)
            },
            Action::MucksOrUnknown(player) => {
                let st = self.state();
                match st {
                    State::ShowOrMuck(p) => {
                        if p != player {
                            return Err(PlayError::WrongState);
                        }
                    },
                    _ => {
                        return Err(PlayError::WrongState);
                    },
                }
                self.muck_hand_step(false)
            },
        }
    }
}


impl Game {
    /// The recorded action can be stepped back over in the current state: the
    /// chips it moved fit the stacks, a shown or mucked hand is marked so, a
    /// post or straddle lies on the first board before the flop, and any other
    /// action has an action before it.
    pub closed spec fn undoable(self) -> bool {
        &&& self.current_action_index > 0
        &&& (self.last_action() is Post || self.last_action() is Straddle || self.current_action_index >= 2)
        &&& match self.last_action() {
            Action::Post { .. } => self.current_board == 0 && self.street_idx() == 0,
            Action::Straddle { .. } => self.current_board == 0 && self.street_idx() == 0,
            Action::Fold(_) => true,
            Action::Check(_) => true,
            Action::Call { player, amount } => self.cur(player.value()) + amount.value() <= self.prev(
                player.value(),
            ),
            Action::Bet { player, amount } => self.cur(player.value()) + amount.value() <= self.prev(
                player.value(),
            ),
            Action::Raise { player, old_stack, .. } => old_stack.value() <= self.prev(player.value()),
            Action::Flop(_) => self.street_back_ok(),
            Action::Turn(_) => self.street_back_ok(),
            Action::River(_) => self.street_back_ok(),
            Action::UncalledBet { player, amount } => player.value() < self.pc() && amount.value() <= self.cur(
                player.value(),
            ),
            Action::Shows { player, .. } => self.shown(player.value()),
            Action::MucksOrUnknown(player) => self.mucked(player.value()),
        }
    }

    /// A dealt street can be taken back: either it started a further runout
    /// (the action before it dealt a river) or the street before it exists.
    pub closed spec fn street_back_ok(self) -> bool {
        &&& self.current_street_index >= 1
        &&& if action_street(self.actions@[self.current_action_index - 2]) == Some(Street::River) {
            self.current_board > 0 && self.chain_ok(
                self.street_idx(),
                self.boards@[self.current_board - 1].street_of().index(),
            )
        } else {
            self.street_idx() > 0
        }
    }

    /// The stacks of streets `lo + 1` to `hi` never exceed those of the street before.
    pub closed spec fn chain_ok(self, lo: int, hi: int) -> bool {
        forall|t: int, q: int| lo < t <= hi && 0 <= q < 10 ==> #[trigger] self.stk(t, q) <= self.stk(t - 1, q)
    }

    /// Whether the hand was declared over by a showdown.
    pub closed spec fn ended(self) -> bool {
        self.at_end
    }

    /// The game with the showdown taken back.
    pub closed spec fn without_end(self) -> Game {
        Game { at_end: false, ..self }
    }

    /// Whether `previous` steps back.
    pub closed spec fn can_step_back(self) -> bool {
        self.current_action_index > 0 && (self.at_end || self.undoable())
    }

    /// Index just past the last dealt street among the first `i` actions (0 when none).
    pub closed spec fn street_start_before(self, i: int) -> int
        decreases i,
    {
        if i <= 0 {
            0
        } else if action_street(self.actions@[i - 1]) is Some {
            i
        } else {
            self.street_start_before(i - 1)
        }
    }

    /// The same players are in the hand.
    pub closed spec fn in_hand_same(self, other: Game) -> bool {
        self.not_folded == other.not_folded
    }

    /// Steps a betting action back: `p`'s stack in the street becomes
    /// `new_stack`, `to_act` acts, and `p` is back in the hand when `unfold`.
    fn undo_turn(&mut self, p: Player, new_stack: Amount, to_act: Option<Player>, unfold: bool)
        requires
            old(self).wf(),
            old(self).current_action_index >= 2,
            action_street(old(self).last_action()) is None,
            p.value() < old(self).pc(),
            new_stack.value() <= old(self).prev(p.value()),
            to_act matches Some(x) ==> x.value() < old(self).pc(),
        ensures
            final(self).wf(),
            final(self).same_setup(*old(self)),
            final(self).action_log() == old(self).action_log(),
            final(self).replay_index() == old(self).replay_index() - 1,
            final(self).player_now() == to_act,
            final(self).street_idx() == old(self).street_idx(),
            final(self).cur(p.value()) == new_stack.value(),
            forall|q: int| 0 <= q < 10 && q != p.value() ==> final(self).cur(q) == old(self).cur(q),
            forall|q: int| 0 <= q < 10 ==> final(self).prev(q) == old(self).prev(q),
            forall|q: int|
                #![trigger final(self).in_hand(q)]
                final(self).in_hand(q) == (old(self).in_hand(q) || (unfold && q == p.value())),
            !unfold ==> final(self).in_hand_same(*old(self)),
    {
        let ghost g = *self;
        let s = self.street_index();
        let pi = p.0 as usize;
        self.stacks_in_street.set(s * MAX_PLAYERS + pi, new_stack);
        if unfold {
            self.not_folded.set(pi);
        }
        self.current_player = to_act;
        self.current_action_index = self.current_action_index - 1;
        proof {
            assert(self.street_idx() == g.street_idx());
            assert forall|t: int, q: int| 0 <= t < 4 && 0 <= q < 10 && !(t == s && q == pi) implies
                self.stk(t, q) == g.stk(t, q) by {
                assert(t * 10 + q != s * 10 + pi) by (nonlinear_arith)
                    requires
                        0 <= t < 4,
                        0 <= q < 10,
                        0 <= s < 4,
                        0 <= pi < 10,
                        !(t == s && q == pi),
                ;
            }
            assert forall|q: int| 0 <= q < 10 && q != pi implies self.cur(q) == g.cur(q) by {
                assert(self.stk(s as int, q) == g.stk(s as int, q));
            }
            assert forall|q: int| 0 <= q < 10 implies self.prev(q) == g.prev(q) by {
                if s > 0 {
                    assert(self.stk(s - 1, q) == g.stk(s - 1, q));
                }
            }
            assert forall|t: int, q: int|
                0 <= t <= self.street_idx() && 0 <= q < 10 implies #[trigger] self.stk(t, q) <= if t == 0 {
                    self.reference(q)
                } else {
                    self.stk(t - 1, q)
                } by {
                if t == s && q == pi {
                    if t > 0 {
                        assert(self.stk(t - 1, q) == g.stk(t - 1, q));
                    }
                } else {
                    assert(g.stk(t, q) <= if t == 0 {
                        g.reference(q)
                    } else {
                        g.stk(t - 1, q)
                    });
                    if t > 0 && !(t - 1 == s && q == pi) {
                        assert(self.stk(t - 1, q) == g.stk(t - 1, q));
                    }
                }
            }
            if g.current_street_index == g.current_action_index {
                assert(action_street(g.actions@[g.current_street_index - 1]) is Some);
                assert(false);
            }
            assert forall|q: int| 0 <= q < 10 implies #[trigger] self.reference(q) <= self.starting(q) by {
                assert(g.reference(q) <= g.starting(q));
            }
            assert forall|q: int| 0 <= q < self.pc() implies #[trigger] self.starting(q) > 0 by {
                assert(g.starting(q) > 0);
            }
            assert forall|i: int| #[trigger] self.not_folded.contains(i) implies 0 <= i < self.pc() by {
                if i != pi {
                    assert(g.not_folded.contains(i));
                }
            }
            lemma_starting_upto_eq(g, *self, self.pc());
        }
    }

    /// Goes back to the state before the first post.
    fn reset_to_start(&mut self)
        requires
            old(self).wf(),
            old(self).current_board == 0,
            old(self).street_idx() == 0,
            !old(self).at_end,
        ensures
            final(self).wf(),
            final(self).same_table(*old(self)),
            final(self).boards@ == old(self).boards@,
            final(self).hand_shown == old(self).hand_shown,
            final(self).hand_mucked == old(self).hand_mucked,
            final(self).showdown_stacks@ == old(self).showdown_stacks@,
            !final(self).at_end,
            final(self).action_log() == old(self).action_log(),
            final(self).replay_index() == 0,
            final(self).player_now() is None,
            forall|q: int|
                0 <= q < old(self).pc() ==> #[trigger] final(self).in_hand(q) && final(self).cur(q)
                    == old(self).starting(q) && final(self).reference(q) == old(self).starting(q),
            final(self).fresh(),
    {
        let ghost g = *self;
        let n = self.player_count as usize;
        let mut q: usize = 0;
        while q < MAX_PLAYERS
            invariant
                *self == (Game { stacks_in_street: self.stacks_in_street, reference_stacks: self.reference_stacks, ..g }),
                q <= 10,
                self.stacks_in_street@.len() == 40,
                self.reference_stacks@.len() == 10,
                g.starting_stacks@.len() == 10,
                forall|j: int| 0 <= j < 40 ==> (#[trigger] self.stacks_in_street@[j]) == if 10 <= j {
                    g.stacks_in_street@[j]
                } else if j < q {
                    g.starting_stacks@[j]
                } else {
                    g.stacks_in_street@[j]
                },
                forall|j: int| 0 <= j < 10 ==> (#[trigger] self.reference_stacks@[j]) == if j < q {
                    g.starting_stacks@[j]
                } else {
                    g.reference_stacks@[j]
                },
            decreases 10 - q,
        {
            let v = self.starting_stacks[q];
            self.stacks_in_street.set(q, v);
            self.reference_stacks.set(q, v);
            q = q + 1;
        }
        self.not_folded = Bitset::ones(n);
        self.current_player = None;
        self.current_action_index = 0;
        self.current_street_index = 0;
        proof {
            assert(self.street_idx() == 0);
            assert forall|t: int, p: int|
                0 <= t <= self.street_idx() && 0 <= p < 10 implies #[trigger] self.stk(t, p) <= if t == 0 {
                    self.reference(p)
                } else {
                    self.stk(t - 1, p)
                } by {
                assert(t == 0);
            }
            assert forall|p: int| 0 <= p < 10 implies #[trigger] self.reference(p) <= self.starting(p) by {}
            assert forall|p: int| 0 <= p < self.pc() implies #[trigger] self.starting(p) > 0 by {
                assert(g.starting(p) > 0);
            }
            lemma_starting_upto_eq(g, *self, self.pc());
            assert(g.boards@[0].street_of() == Street::PreFlop);
        }
    }
}


impl Game {
    /// Whether the stacks of streets `lo + 1` to `hi` never exceed those of the
    /// street before.
    fn chain_holds(&self, lo: usize, hi: usize) -> (r: bool)
        requires
            self.wf(),
            lo < 4,
            hi < 4,
        ensures
            r == self.chain_ok(lo as int, hi as int),
    {
        if lo >= hi {
            return true;
        }
        let mut t: usize = lo + 1;
        while t <= hi
            invariant
                self.wf(),
                hi < 4,
                lo + 1 <= t <= hi + 1,
                forall|u: int, q: int| lo < u < t && 0 <= q < 10 ==> #[trigger] self.stk(u, q) <= self.stk(u - 1, q),
            decreases hi + 1 - t,
        {
            let mut q: usize = 0;
            while q < MAX_PLAYERS
                invariant
                    self.wf(),
                    hi < 4,
                    lo + 1 <= t <= hi,
                    q <= 10,
                    forall|u: int, x: int| lo < u < t && 0 <= x < 10 ==> #[trigger] self.stk(u, x) <= self.stk(u - 1, x),
                    forall|x: int| 0 <= x < q ==> #[trigger] self.stk(t as int, x) <= self.stk(t - 1, x),
                decreases 10 - q,
            {
                if self.stack_at(t, q).0 > self.stack_at(t - 1, q).0 {
                    return false;
                }
                q = q + 1;
            }
            t = t + 1;
        }
        true
    }

    fn street_start_before_exec(&self, i: usize) -> (r: usize)
        requires
            self.wf(),
            i <= self.actions@.len(),
        ensures
            r == self.street_start_before(i as int),
            r <= i,
            r == 0 || action_street(self.actions@[r - 1]) is Some,
    {
        let mut k: usize = i;
        while k > 0
            invariant
                k <= i <= self.actions@.len(),
                self.street_start_before(i as int) == self.street_start_before(k as int),
            decreases k,
        {
            if self.actions[k - 1].is_street() {
                return k;
            }
            k = k - 1;
        }
        0
    }

    /// Takes back the last dealt street.
    #[verifier::rlimit(60)]
    fn previous_street_step(&mut self)
        requires
            old(self).wf(),
            old(self).current_action_index >= 2,
            action_street(old(self).last_action()) is Some,
            old(self).street_back_ok(),
        ensures
            final(self).wf(),
            final(self).same_setup_but_boards(*old(self)),
            final(self).stacks_in_street@ == old(self).stacks_in_street@,
            final(self).action_log() == old(self).action_log(),
            final(self).replay_index() == old(self).replay_index() - 1,
            final(self).player_now() is None,
            final(self).street_start() == old(self).street_start_before(old(self).street_start() - 1),
    {
        let ghost g = *self;
        let csi = self.street_start_before_exec(self.current_street_index - 1);
        let before = self.actions[self.current_action_index - 2];
        let cb = self.current_board;
        let runout = match before.street() {
            Some(st) => st == Street::River,
            None => false,
        };
        if runout {
            self.boards.set(cb, Board::empty());
            self.current_board = cb - 1;
        } else {
            let board = self.boards[cb];
            let prev = match board.street().previous() {
                Some(p) => p,
                None => {
                    assert(false);
                    Street::PreFlop
                },
            };
            let keep = prev.community_card_count();
            let mut cards = board.cards;
            let mut k: usize = keep;
            while k < 5
                invariant
                    keep <= k <= 5,
                    forall|j: int| 0 <= j < keep ==> cards@[j] == board.cards@[j],
                decreases 5 - k,
            {
                cards[k] = Card::min();
                k = k + 1;
            }
            let nb = Board { cards, street: prev };
            proof {
                nb.lemma_parts(0);
            }
            self.boards.set(cb, nb);
        }
        self.current_street_index = csi;
        self.current_player = None;
        self.current_action_index = self.current_action_index - 1;
        proof {
            assert(self.street_idx() <= g.street_idx() || runout);
            if runout {
                assert(self.street_idx() == g.boards@[g.current_board - 1].street_of().index());
                assert forall|t: int, q: int|
                    0 <= t <= self.street_idx() && 0 <= q < 10 implies #[trigger] self.stk(t, q) <= if t == 0 {
                        self.reference(q)
                    } else {
                        self.stk(t - 1, q)
                    } by {
                    assert(self.stk(t, q) == g.stk(t, q));
                    if t <= g.street_idx() {
                        assert(g.stk(t, q) <= if t == 0 {
                            g.reference(q)
                        } else {
                            g.stk(t - 1, q)
                        });
                    } else {
                        assert(g.chain_ok(g.street_idx(), g.boards@[g.current_board - 1].street_of().index()));
                        assert(g.stk(t, q) <= g.stk(t - 1, q));
                    }
                }
            } else {
                assert(self.street_idx() == g.street_idx() - 1);
                assert forall|t: int, q: int|
                    0 <= t <= self.street_idx() && 0 <= q < 10 implies #[trigger] self.stk(t, q) <= if t == 0 {
                        self.reference(q)
                    } else {
                        self.stk(t - 1, q)
                    } by {
                    assert(g.stk(t, q) <= if t == 0 {
                        g.reference(q)
                    } else {
                        g.stk(t - 1, q)
                    });
                }
            }
            assert forall|q: int| 0 <= q < 10 implies #[trigger] self.reference(q) <= self.starting(q) by {
                assert(g.reference(q) <= g.starting(q));
            }
            assert forall|q: int| 0 <= q < self.pc() implies #[trigger] self.starting(q) > 0 by {
                assert(g.starting(q) > 0);
            }
            lemma_starting_upto_eq(g, *self, self.pc());
        }
    }

    /// Steps the replay one action back; the action stays recorded, so `next`
    /// can replay it. Returns whether it stepped.
    pub fn previous(&mut self) -> (r: bool)
        requires
            old(self).wf(),
        ensures
            final(self).wf(),
            r == old(self).can_step_back(),
            !r ==> *final(self) == *old(self),
            r && old(self).ended() ==> *final(self) == old(self).without_end(),
            r ==> !final(self).ended(),
            r && !old(self).ended() ==> final(self).replay_index() < old(self).replay_index(),
            r && !old(self).ended() ==> final(self).action_log() == old(self).action_log(),
            r && !old(self).ended() ==> match old(self).last_action() {
                Action::Post { .. } => final(self).replay_index() == 0 && final(self).fresh(),
                Action::Straddle { .. } => final(self).replay_index() == 0 && final(self).fresh(),
                Action::Fold(p) => (forall|q: int| 0 <= q < 10 ==> final(self).prev(q) == old(self).prev(q))
                    && final(self).replay_index() == old(self).replay_index() - 1
                    && final(self).player_now() == Some(p) && (forall|q: int|
                    #![trigger final(self).in_hand(q)]
                    final(self).in_hand(q) == (old(self).in_hand(q) || q == p.value())) && forall|q: int|
                    0 <= q < 10 ==> final(self).cur(q) == old(self).cur(q),
                Action::Check(p) => (forall|q: int| 0 <= q < 10 ==> final(self).prev(q) == old(self).prev(q))
                    && final(self).replay_index() == old(self).replay_index() - 1
                    && final(self).player_now() == Some(p) && final(self).in_hand_same(*old(self))
                    && forall|q: int| 0 <= q < 10 ==> final(self).cur(q) == old(self).cur(q),
                Action::Call { player, amount } => (forall|q: int| 0 <= q < 10 ==> final(self).prev(q) == old(self).prev(q))
                    && final(self).replay_index() == old(self).replay_index() - 1
                    && final(self).player_now() == Some(player) && final(self).in_hand_same(*old(self))
                    && final(self).cur(player.value()) == old(self).cur(player.value()) + amount.value()
                    && forall|q: int| 0 <= q < 10 && q != player.value() ==> final(self).cur(q) == old(self).cur(q),
                Action::Bet { player, amount } => (forall|q: int| 0 <= q < 10 ==> final(self).prev(q) == old(self).prev(q))
                    && final(self).replay_index() == old(self).replay_index() - 1
                    && final(self).player_now() == Some(player) && final(self).in_hand_same(*old(self))
                    && final(self).cur(player.value()) == old(self).cur(player.value()) + amount.value()
                    && forall|q: int| 0 <= q < 10 && q != player.value() ==> final(self).cur(q) == old(self).cur(q),
                Action::Raise { player, old_stack, .. } => (forall|q: int| 0 <= q < 10 ==> final(self).prev(q) == old(self).prev(q))
                    && final(self).replay_index() == old(self).replay_index()
                    - 1 && final(self).player_now() == Some(player) && final(self).in_hand_same(*old(self))
                    && final(self).cur(player.value()) == old_stack.value() && forall|q: int|
                    0 <= q < 10 && q != player.value() ==> final(self).cur(q) == old(self).cur(q),
                Action::UncalledBet { player, amount } => final(self).replay_index() == old(self).replay_index()
                    - 1 && final(self).player_now() == old(self).player_now() && final(self).in_hand_same(
                    *old(self),
                ) && final(self).cur(player.value()) == old(self).cur(player.value()) - amount.value()
                    && forall|q: int| 0 <= q < 10 && q != player.value() ==> final(self).cur(q) == old(self).cur(q),
                Action::Shows { player, .. } => final(self).replay_index() == old(self).replay_index() - 1
                    && final(self).same_betting(*old(self)) && forall|q: int|
                    final(self).shown(q) == (old(self).shown(q) && q != player.value()),
                Action::MucksOrUnknown(player) => final(self).replay_index() == old(self).replay_index() - 1
                    && final(self).same_betting(*old(self)) && forall|q: int|
                    final(self).mucked(q) == (old(self).mucked(q) && q != player.value()),
                _ => final(self).replay_index() == old(self).replay_index() - 1 && final(self).player_now() is None
                    && final(self).street_start() == old(self).street_start_before(old(self).street_start() - 1),
            },
    {
        if self.current_action_index == 0 {
            return false;
        }
        let ghost g = *self;
        if self.at_end {
            self.at_end = false;
            proof {
                Self::lemma_wf_end(g, *self);
            }
            return true;
        }
        let i = self.current_action_index - 1;
        let action = self.actions[i];
        proof {
            assert(action == g.last_action());
        }
        match action {
            Action::Post { .. } | Action::Straddle { .. } => {
                if self.current_board != 0 || self.street_index() != 0 {
                    return false;
                }
                self.reset_to_start();
                return true;
            },
            _ => {},
        }
        if self.current_action_index < 2 {
            return false;
        }
        proof {
            assert(action_player(g.actions@[i as int]) matches Some(x) ==> x.value() < g.pc());
        }
        match action {
            Action::Fold(p) => {
                let pi = p.0 as usize;
                proof {
                    self.lemma_stacks_ordered(pi as int);
                }
                let stack = self.cur_stack(pi);
                self.undo_turn(p, stack, Some(p), true);
                true
            },
            Action::Check(p) => {
                let pi = p.0 as usize;
                proof {
                    self.lemma_stacks_ordered(pi as int);
                }
                let stack = self.cur_stack(pi);
                self.undo_turn(p, stack, Some(p), false);
                true
            },
            Action::Call { player, amount } | Action::Bet { player, amount } => {
                let pi = player.0 as usize;
                proof {
                    self.lemma_stacks_ordered(pi as int);
                }
                let stack = self.cur_stack(pi);
                let prev = self.prev_stack(pi);
                if amount.0 > prev.0 - stack.0 {
                    return false;
                }
                self.undo_turn(player, Amount(stack.0 + amount.0), Some(player), false);
                true
            },
            Action::Raise { player, old_stack, .. } => {
                let pi = player.0 as usize;
                let prev = self.prev_stack(pi);
                if old_stack.0 > prev.0 {
                    return false;
                }
                self.undo_turn(player, old_stack, Some(player), false);
                true
            },
            Action::Flop(_) | Action::Turn(_) | Action::River(_) => {
                if self.current_street_index < 1 {
                    return false;
                }
                let before = self.actions[self.current_action_index - 2];
                let runout = match before.street() {
                    Some(st) => st == Street::River,
                    None => false,
                };
                let ok = if runout {
                    self.current_board > 0 && self.chain_holds(
                        self.street_index(),
                        self.boards[self.current_board - 1].street().to_usize(),
                    )
                } else {
                    self.street_index() > 0
                };
                if !ok {
                    return false;
                }
                self.previous_street_step();
                true
            },
            Action::UncalledBet { player, amount } => {
                if player.0 >= self.player_count {
                    return false;
                }
                let pi = player.0 as usize;
                let stack = self.cur_stack(pi);
                if amount.0 > stack.0 {
                    return false;
                }
                proof {
                    self.lemma_stacks_ordered(pi as int);
                }
                let to_act = self.current_player;
                self.undo_turn(player, Amount(stack.0 - amount.0), to_act, false);
                true
            },
            Action::Shows { player, .. } => {
                if !self.hand_shown.has(player.0 as usize) {
                    return false;
                }
                self.undo_flag(player, true);
                true
            },
            Action::MucksOrUnknown(player) => {
                if !self.hand_mucked.has(player.0 as usize) {
                    return false;
                }
                self.undo_flag(player, false);
                true
            },
            _ => false,
        }
    }

    proof fn lemma_wf_end(a: Game, b: Game)
        requires
            a.wf(),
            b == (Game { at_end: b.at_end, ..a }),
            a.current_action_index == 0 ==> !b.at_end,
        ensures
            b.wf(),
    {
        assert(b.street_idx() == a.street_idx());
        assert forall|t: int, q: int|
            0 <= t <= b.street_idx() && 0 <= q < 10 implies #[trigger] b.stk(t, q) <= if t == 0 {
                b.reference(q)
            } else {
                b.stk(t - 1, q)
            } by {
            assert(a.stk(t, q) <= if t == 0 {
                a.reference(q)
            } else {
                a.stk(t - 1, q)
            });
        }
        assert forall|q: int| 0 <= q < 10 implies #[trigger] b.reference(q) <= b.starting(q) by {
            assert(a.reference(q) <= a.starting(q));
        }
        assert forall|q: int| 0 <= q < b.pc() implies #[trigger] b.starting(q) > 0 by {
            assert(a.starting(q) > 0);
        }
        lemma_starting_upto_eq(a, b, b.pc());
        if b.current_action_index == 0 {
            assert forall|q: int| 0 <= q < b.pc() implies #[trigger] b.in_hand(q) && b.reference(q) == b.starting(q)
                && b.stk(0, q) == b.starting(q) by {
                assert(a.in_hand(q));
            }
        }
    }

    /// Steps back a show (`shown`) or a muck of `p`.
    fn undo_flag(&mut self, p: Player, shown: bool)
        requires
            old(self).wf(),
            old(self).current_action_index >= 2,
            action_street(old(self).last_action()) is None,
            shown ==> old(self).shown(p.value()),
            !shown ==> old(self).mucked(p.value()),
        ensures
            final(self).wf(),
            final(self).same_setup_but_boards(Game { hand_shown: final(self).hand_shown, hand_mucked: final(self).hand_mucked, ..*old(self) }),
            final(self).same_betting(*old(self)),
            final(self).action_log() == old(self).action_log(),
            final(self).replay_index() == old(self).replay_index() - 1,
            forall|q: int| final(self).shown(q) == (old(self).shown(q) && !(shown && q == p.value())),
            forall|q: int| final(self).mucked(q) == (old(self).mucked(q) && !(!shown && q == p.value())),
    {
        let ghost g = *self;
        if shown {
            self.hand_shown.remove(p.0 as usize);
        } else {
            self.hand_mucked.remove(p.0 as usize);
        }
        self.current_action_index = self.current_action_index - 1;
        proof {
            assert(self.street_idx() == g.street_idx());
            if g.current_street_index == g.current_action_index {
                assert(action_street(g.actions@[g.current_street_index - 1]) is Some);
                assert(false);
            }
            assert forall|t: int, q: int|
                0 <= t <= self.street_idx() && 0 <= q < 10 implies #[trigger] self.stk(t, q) <= if t == 0 {
                    self.reference(q)
                } else {
                    self.stk(t - 1, q)
                } by {
                assert(g.stk(t, q) <= if t == 0 {
                    g.reference(q)
                } else {
                    g.stk(t - 1, q)
                });
            }
            assert forall|q: int| 0 <= q < 10 implies #[trigger] self.reference(q) <= self.starting(q) by {
                assert(g.reference(q) <= g.starting(q));
            }
            assert forall|q: int| 0 <= q < self.pc() implies #[trigger] self.starting(q) > 0 by {
                assert(g.starting(q) > 0);
            }
            assert forall|i: int| #[trigger] self.hand_shown.contains(i) implies 0 <= i < self.pc() by {
                assert(g.hand_shown.contains(i));
            }
            assert forall|i: int| #[trigger] self.hand_mucked.contains(i) implies 0 <= i < self.pc() by {
                assert(g.hand_mucked.contains(i));
            }
            lemma_starting_upto_eq(g, *self, self.pc());
        }
    }
}

impl Game {
    /// The game after the player to act folds.
    pub closed spec fn fold_effect(self, next: Game, replay: bool) -> bool {
        let p = self.player_now()->Some_0;
        &&& next.same_setup(self)
        &&& next.street_idx() == self.street_idx()
        &&& forall|q: int| 0 <= q < 10 ==> next.prev(q) == self.prev(q)
        &&& next.action_log() == self.log_after(replay, Action::Fold(p))
        &&& next.replay_index() == self.replay_index() + 1
        &&& forall|q: int| 0 <= q < 10 ==> next.cur(q) == self.cur(q)
        &&& forall|q: int|
                #![trigger next.in_hand(q)]
                0 <= q < 10 ==> next.in_hand(q) == (self.in_hand(q) && q != p.value())
        &&& next.player_now() == next.next_to_act(p.value())
        &&& next.pot() == self.pot()
    }

    /// The game after the player to act checks.
    pub closed spec fn check_effect(self, next: Game, replay: bool) -> bool {
        let p = self.player_now()->Some_0;
        &&& next.same_setup(self)
        &&& next.street_idx() == self.street_idx()
        &&& forall|q: int| 0 <= q < 10 ==> next.prev(q) == self.prev(q)
        &&& next.action_log() == self.log_after(replay, Action::Check(p))
        &&& next.replay_index() == self.replay_index() + 1
        &&& forall|q: int| 0 <= q < 10 ==> next.cur(q) == self.cur(q)
        &&& forall|q: int|
                #![trigger next.in_hand(q)]
                0 <= q < 10 ==> next.in_hand(q) == self.in_hand(q)
        &&& next.player_now() == next.next_to_act(p.value())
        &&& next.pot() == self.pot()
    }

    /// The game after the player to act calls.
    pub closed spec fn call_effect(self, next: Game, replay: bool) -> bool {
        let p = self.player_now()->Some_0;
        let amount = self.call_spec()->Some_0;
        &&& next.same_setup(self)
        &&& next.street_idx() == self.street_idx()
        &&& forall|q: int| 0 <= q < 10 ==> next.prev(q) == self.prev(q)
        &&& next.action_log() == self.log_after(
                replay,
                Action::Call { player: p, amount: Amount(amount as u32) },
        )
        &&& next.replay_index() == self.replay_index() + 1
        &&& next.cur(p.value()) == self.cur(p.value()) - amount
        &&& forall|q: int| 0 <= q < 10 && q != p.value() ==> next.cur(q) == self.cur(q)
        &&& forall|q: int|
                #![trigger next.in_hand(q)]
                0 <= q < 10 ==> next.in_hand(q) == self.in_hand(q)
        &&& next.player_now() == next.next_to_act(p.value())
        &&& next.pot() == self.pot() + amount
    }

    /// The game after the player to act bets `amount`.
    pub closed spec fn bet_effect(self, next: Game, replay: bool, amount: Amount) -> bool {
        let p = self.player_now()->Some_0;
        &&& next.same_setup(self)
        &&& next.street_idx() == self.street_idx()
        &&& forall|q: int| 0 <= q < 10 ==> next.prev(q) == self.prev(q)
        &&& next.action_log() == self.log_after(replay, Action::Bet { player: p, amount })
        &&& next.replay_index() == self.replay_index() + 1
        &&& next.cur(p.value()) == self.cur(p.value()) - amount.value()
        &&& forall|q: int| 0 <= q < 10 && q != p.value() ==> next.cur(q) == self.cur(q)
        &&& forall|q: int|
                #![trigger next.in_hand(q)]
                0 <= q < 10 ==> next.in_hand(q) == self.in_hand(q)
        &&& next.player_now() == next.next_to_act(p.value())
        &&& next.pot() == self.pot() + amount.value()
    }

    /// The game after the player to act raises to `to`.
    pub closed spec fn raise_effect(self, next: Game, replay: bool, to: Amount) -> bool {
        let p = self.player_now()->Some_0;
        &&& next.same_setup(self)
        &&& next.street_idx() == self.street_idx()
        &&& forall|q: int| 0 <= q < 10 ==> next.prev(q) == self.prev(q)
        &&& next.action_log() == self.log_after(replay, self.raise_action(to))
        &&& next.replay_index() == self.replay_index() + 1
        &&& next.cur(p.value()) == self.prev(p.value()) - to.value()
        &&& forall|q: int| 0 <= q < 10 && q != p.value() ==> next.cur(q) == self.cur(q)
        &&& forall|q: int|
                #![trigger next.in_hand(q)]
                0 <= q < 10 ==> next.in_hand(q) == self.in_hand(q)
        &&& next.player_now() == next.next_to_act(p.value())
        &&& next.pot() == self.pot() + self.cur(p.value()) - (self.prev(
                p.value(),
        ) - to.value())
    }

}

impl Game {
    /// What `undo` leaves: the replay steps back and the actions after it are
    /// dropped; a taken back showdown clears the showdown stacks.
    pub closed spec fn undo_effect(self, next: Game) -> bool {
        &&& next.action_log() == self.action_log().subrange(0, next.replay_index())
        &&& !next.ended()
        &&& if self.ended() {
            &&& next.replay_index() == self.replay_index()
            &&& next.same_betting(self)
            &&& forall|q: int| 0 <= q < 10 ==> next.showdown_stacks@[q].value() == 0
        } else {
            match self.last_action() {
                Action::Fold(p) => next.replay_index() == self.replay_index() - 1 && next.player_now() == Some(p)
                    && (forall|q: int|
                    #![trigger next.in_hand(q)]
                    next.in_hand(q) == (self.in_hand(q) || q == p.value())) && forall|q: int|
                    0 <= q < 10 ==> next.cur(q) == self.cur(q) && next.prev(q) == self.prev(q),
                Action::Check(p) => next.replay_index() == self.replay_index() - 1 && next.player_now() == Some(p)
                    && next.in_hand_same(self) && forall|q: int|
                    0 <= q < 10 ==> next.cur(q) == self.cur(q) && next.prev(q) == self.prev(q),
                Action::Call { player, amount } => next.replay_index() == self.replay_index() - 1
                    && next.player_now() == Some(player) && next.in_hand_same(self) && next.cur(player.value())
                    == self.cur(player.value()) + amount.value() && (forall|q: int|
                    0 <= q < 10 && q != player.value() ==> next.cur(q) == self.cur(q)) && forall|q: int|
                    0 <= q < 10 ==> next.prev(q) == self.prev(q),
                Action::Bet { player, amount } => next.replay_index() == self.replay_index() - 1
                    && next.player_now() == Some(player) && next.in_hand_same(self) && next.cur(player.value())
                    == self.cur(player.value()) + amount.value() && (forall|q: int|
                    0 <= q < 10 && q != player.value() ==> next.cur(q) == self.cur(q)) && forall|q: int|
                    0 <= q < 10 ==> next.prev(q) == self.prev(q),
                Action::Raise { player, old_stack, .. } => next.replay_index() == self.replay_index() - 1
                    && next.player_now() == Some(player) && next.in_hand_same(self) && next.cur(player.value())
                    == old_stack.value() && (forall|q: int|
                    0 <= q < 10 && q != player.value() ==> next.cur(q) == self.cur(q)) && forall|q: int|
                    0 <= q < 10 ==> next.prev(q) == self.prev(q),
                _ => next.replay_index() < self.replay_index(),
            }
        }
    }

    /// Takes back the last action and drops it from the record.
    pub fn undo(&mut self) -> (r: Result<(), PlayError>)
        requires
            old(self).wf(),
        ensures
            final(self).wf(),
            r is Err ==> *final(self) == *old(self),
            r is Ok <==> (old(self).at_final_action() && old(self).can_step_back()),
            r is Ok ==> old(self).undo_effect(*final(self)),
    {
        self.check_pre_update(false)?;
        if self.current_action_index == 0 {
            return Err(PlayError::WrongState);
        }
        let st = self.state();
        let was_end = self.at_end;
        let ghost g = *self;
        if !self.previous() {
            return Err(PlayError::WrongState);
        }
        let ghost h = *self;
        if was_end {
            let mut q: usize = 0;
            while q < MAX_PLAYERS
                invariant
                    *self == (Game { showdown_stacks: self.showdown_stacks, ..h }),
                    q <= 10,
                    self.showdown_stacks@.len() == 10,
                    forall|j: int| 0 <= j < q ==> (#[trigger] self.showdown_stacks@[j]).value() == 0,
                decreases 10 - q,
            {
                self.showdown_stacks.set(q, Amount(0));
                q = q + 1;
            }
            proof {
                Self::lemma_wf_showdown(h, *self);
            }
        }
        let ghost k = *self;
        let n = self.current_action_index;
        self.actions.truncate(n);
        proof {
            assert(self.actions@ =~= k.actions@.subrange(0, n as int));
            Self::lemma_wf_truncate(k, *self);
            assert(was_end == g.ended());
            assert(k.action_log() == g.action_log());
            assert(self.street_idx() == k.street_idx());
            assert forall|q: int| 0 <= q < 10 implies self.cur(q) == k.cur(q) && self.prev(q) == k.prev(q) by {}
            if !was_end {
                assert(k == h);
                assert forall|q: int| 0 <= q < 10 implies self.cur(q) == h.cur(q) && self.prev(q) == h.prev(q) by {}
                assert forall|q: int| #[trigger] self.in_hand(q) == h.in_hand(q) by {}
            }
            assert(self.action_log() == g.action_log().subrange(0, self.replay_index()));
            assert(!self.ended());
            if was_end {
                assert(self.replay_index() == g.replay_index());
                assert(self.same_betting(g));
                assert(forall|q: int| 0 <= q < 10 ==> self.showdown_stacks@[q].value() == 0);
            }
        }
        Ok(())
    }

    proof fn lemma_wf_showdown(a: Game, b: Game)
        requires
            a.wf(),
            b == (Game { showdown_stacks: b.showdown_stacks, ..a }),
            b.showdown_stacks@.len() == 10,
        ensures
            b.wf(),
    {
        assert(b.street_idx() == a.street_idx());
        assert forall|t: int, q: int|
            0 <= t <= b.street_idx() && 0 <= q < 10 implies #[trigger] b.stk(t, q) <= if t == 0 {
                b.reference(q)
            } else {
                b.stk(t - 1, q)
            } by {
            assert(a.stk(t, q) <= if t == 0 {
                a.reference(q)
            } else {
                a.stk(t - 1, q)
            });
        }
        assert forall|q: int| 0 <= q < 10 implies #[trigger] b.reference(q) <= b.starting(q) by {
            assert(a.reference(q) <= a.starting(q));
        }
        assert forall|q: int| 0 <= q < b.pc() implies #[trigger] b.starting(q) > 0 by {
            assert(a.starting(q) > 0);
        }
        lemma_starting_upto_eq(a, b, b.pc());
        if b.current_action_index == 0 {
            assert forall|q: int| 0 <= q < b.pc() implies #[trigger] b.in_hand(q) && b.reference(q) == b.starting(q)
                && b.stk(0, q) == b.starting(q) by {
                assert(a.in_hand(q));
            }
        }
    }

    proof fn lemma_wf_truncate(a: Game, b: Game)
        requires
            a.wf(),
            b == (Game { actions: b.actions, ..a }),
            b.actions@ == a.actions@.subrange(0, a.current_action_index as int),
        ensures
            b.wf(),
    {
        assert(b.street_idx() == a.street_idx());
        if b.current_street_index > 0 {
            assert(b.actions@[b.current_street_index - 1] == a.actions@[b.current_street_index - 1]);
        }
        assert forall|i: int| 0 <= i < b.actions@.len() implies (action_player(
            #[trigger] b.actions@[i],
        ) matches Some(x) ==> x.value() < b.pc()) by {
            assert(b.actions@[i] == a.actions@[i]);
        }
        assert forall|t: int, q: int|
            0 <= t <= b.street_idx() && 0 <= q < 10 implies #[trigger] b.stk(t, q) <= if t == 0 {
                b.reference(q)
            } else {
                b.stk(t - 1, q)
            } by {
            assert(a.stk(t, q) <= if t == 0 {
                a.reference(q)
            } else {
                a.stk(t - 1, q)
            });
        }
        assert forall|q: int| 0 <= q < 10 implies #[trigger] b.reference(q) <= b.starting(q) by {
            assert(a.reference(q) <= a.starting(q));
        }
        assert forall|q: int| 0 <= q < b.pc() implies #[trigger] b.starting(q) > 0 by {
            assert(a.starting(q) > 0);
        }
        lemma_starting_upto_eq(a, b, b.pc());
        if b.current_action_index == 0 {
            assert forall|q: int| 0 <= q < b.pc() implies #[trigger] b.in_hand(q) && b.reference(q) == b.starting(q)
                && b.stk(0, q) == b.starting(q) by {
                assert(a.in_hand(q));
            }
        }
    }
}

impl Game {
    /// No chip is made or lost: the pot and the players' current stacks add up
    /// to the starting stacks, and the pot never exceeds them.
    pub proof fn law_chips_conserved(g: Game)
        requires
            g.wf(),
        ensures
            g.pot() + g.cur_upto(g.pc()) == g.starting_upto(g.pc()),
            0 <= g.pot() <= g.starting_upto(g.pc()),
    {
        g.lemma_pot_upto_bound(g.pc());
    }

    proof fn lemma_undo_turn(a: Game, b: Game, p: int)
        requires
            a.wf(),
            a.player_now() matches Some(x) && x.value() == p,
            !a.ended(),
            b.same_setup(a),
            b.replay_index() == a.replay_index() + 1,
            b.action_log().len() == a.action_log().len() + 1,
            a.at_final_action(),
            b.action_log().subrange(0, a.action_log().len() as int) == a.action_log(),
        ensures
            a.replay_index() >= 1,
            b.at_final_action(),
            !b.ended(),
            b.current_action_index >= 2,
            b.action_log().subrange(0, a.replay_index()) == a.action_log(),
    {
        assert(a.current_action_index != 0);
    }

    /// Undoing a check gives back the stacks, the players in the hand, the
    /// player to act and the record of the game before it.
    pub proof fn law_undo_check(a: Game, b: Game, c: Game)
        requires
            a.wf(),
            !a.ended(),
            a.check_ok(false),
            a.check_effect(b, false),
            b.undo_effect(c),
        ensures
            b.at_final_action() && b.can_step_back(),
            c.action_log() == a.action_log(),
            c.replay_index() == a.replay_index(),
            c.player_now() == a.player_now(),
            forall|q: int| 0 <= q < 10 ==> c.cur(q) == a.cur(q) && c.prev(q) == a.prev(q),
            forall|q: int| 0 <= q < 10 ==> #[trigger] c.in_hand(q) == a.in_hand(q),
    {
        let p = a.player_now()->Some_0.value();
        assert(b.action_log().subrange(0, a.action_log().len() as int) =~= a.action_log());
        Self::lemma_undo_turn(a, b, p);
        a.lemma_stacks_ordered(p);
        assert(b.last_action() == Action::Check(a.player_now()->Some_0));
        assert forall|q: int| 0 <= q < 10 implies #[trigger] c.in_hand(q) == a.in_hand(q) by {
            assert(c.in_hand(q) == b.in_hand(q));
            assert(b.in_hand(q) == a.in_hand(q));
        }
    }

    /// Undoing a call gives back the stacks, the players in the hand, the
    /// player to act and the record of the game before it.
    pub proof fn law_undo_call(a: Game, b: Game, c: Game)
        requires
            a.wf(),
            !a.ended(),
            a.call_ok(false),
            a.call_effect(b, false),
            b.undo_effect(c),
        ensures
            b.at_final_action() && b.can_step_back(),
            c.action_log() == a.action_log(),
            c.replay_index() == a.replay_index(),
            c.player_now() == a.player_now(),
            forall|q: int| 0 <= q < 10 ==> c.cur(q) == a.cur(q) && c.prev(q) == a.prev(q),
            forall|q: int| 0 <= q < 10 ==> #[trigger] c.in_hand(q) == a.in_hand(q),
    {
        let p = a.player_now()->Some_0.value();
        assert(b.action_log().subrange(0, a.action_log().len() as int) =~= a.action_log());
        Self::lemma_undo_turn(a, b, p);
        a.lemma_stacks_ordered(p);
        assert(b.last_action() == Action::Call { player: a.player_now()->Some_0, amount: Amount(a.call_spec()->Some_0 as u32) });
        a.lemma_max_inv(a.pc());
        assert forall|q: int| 0 <= q < 10 implies #[trigger] c.in_hand(q) == a.in_hand(q) by {
            assert(c.in_hand(q) == b.in_hand(q));
            assert(b.in_hand(q) == a.in_hand(q));
        }
    }

    /// Undoing a bet of `amount` gives back the stacks, the players in the hand, the
    /// player to act and the record of the game before it.
    pub proof fn law_undo_bet(a: Game, b: Game, c: Game, amount: Amount)
        requires
            a.wf(),
            !a.ended(),
            a.bet_ok(false, amount),
            a.bet_effect(b, false, amount),
            b.undo_effect(c),
        ensures
            b.at_final_action() && b.can_step_back(),
            c.action_log() == a.action_log(),
            c.replay_index() == a.replay_index(),
            c.player_now() == a.player_now(),
            forall|q: int| 0 <= q < 10 ==> c.cur(q) == a.cur(q) && c.prev(q) == a.prev(q),
            forall|q: int| 0 <= q < 10 ==> #[trigger] c.in_hand(q) == a.in_hand(q),
    {
        let p = a.player_now()->Some_0.value();
        assert(b.action_log().subrange(0, a.action_log().len() as int) =~= a.action_log());
        Self::lemma_undo_turn(a, b, p);
        a.lemma_stacks_ordered(p);
        assert(b.last_action() == Action::Bet { player: a.player_now()->Some_0, amount });
        assert forall|q: int| 0 <= q < 10 implies #[trigger] c.in_hand(q) == a.in_hand(q) by {
            assert(c.in_hand(q) == b.in_hand(q));
            assert(b.in_hand(q) == a.in_hand(q));
        }
    }

    /// Undoing a raise to `to` gives back the stacks, the players in the hand, the
    /// player to act and the record of the game before it.
    pub proof fn law_undo_raise(a: Game, b: Game, c: Game, to: Amount)
        requires
            a.wf(),
            !a.ended(),
            a.raise_ok(false, to, true),
            a.raise_effect(b, false, to),
            b.undo_effect(c),
        ensures
            b.at_final_action() && b.can_step_back(),
            c.action_log() == a.action_log(),
            c.replay_index() == a.replay_index(),
            c.player_now() == a.player_now(),
            forall|q: int| 0 <= q < 10 ==> c.cur(q) == a.cur(q) && c.prev(q) == a.prev(q),
            forall|q: int| 0 <= q < 10 ==> #[trigger] c.in_hand(q) == a.in_hand(q),
    {
        let p = a.player_now()->Some_0.value();
        assert(b.action_log().subrange(0, a.action_log().len() as int) =~= a.action_log());
        Self::lemma_undo_turn(a, b, p);
        a.lemma_stacks_ordered(p);
        assert(b.last_action() == a.raise_action(to));
        assert forall|q: int| 0 <= q < 10 implies #[trigger] c.in_hand(q) == a.in_hand(q) by {
            assert(c.in_hand(q) == b.in_hand(q));
            assert(b.in_hand(q) == a.in_hand(q));
        }
    }

    /// Undoing a fold gives back the stacks, the players in the hand, the player
    /// to act and the record of the game before it.
    pub proof fn law_undo_fold(a: Game, b: Game, c: Game)
        requires
            a.wf(),
            !a.ended(),
            a.player_now() matches Some(x) && a.in_hand(x.value()),
            a.fold_ok(false),
            a.fold_effect(b, false),
            b.undo_effect(c),
        ensures
            b.at_final_action() && b.can_step_back(),
            c.action_log() == a.action_log(),
            c.replay_index() == a.replay_index(),
            c.player_now() == a.player_now(),
            forall|q: int| 0 <= q < 10 ==> c.cur(q) == a.cur(q) && c.prev(q) == a.prev(q),
            forall|q: int| 0 <= q < 10 ==> #[trigger] c.in_hand(q) == a.in_hand(q),
    {
        let p = a.player_now()->Some_0.value();
        assert(b.action_log().subrange(0, a.action_log().len() as int) =~= a.action_log());
        Self::lemma_undo_turn(a, b, p);
        assert(b.last_action() == Action::Fold(a.player_now()->Some_0));
        assert forall|q: int| 0 <= q < 10 implies #[trigger] c.in_hand(q) == a.in_hand(q) by {
            assert(b.in_hand(q) == (a.in_hand(q) && q != p));
        }
    }
}

/// Sum of the first `n` shares.
pub open spec fn share_total(shares: Seq<(Player, Amount)>, n: int) -> int
    decreases n,
{
    if n <= 0 {
        0
    } else {
        share_total(shares, n - 1) + shares[n - 1].1.value()
    }
}

/// Sum of the first `n` shares that go to player `p`.
pub open spec fn share_of(shares: Seq<(Player, Amount)>, n: int, p: int) -> int
    decreases n,
{
    if n <= 0 {
        0
    } else {
        share_of(shares, n - 1, p) + if shares[n - 1].0.value() == p {
            shares[n - 1].1.value()
        } else {
            0
        }
    }
}

proof fn lemma_share_bounds(shares: Seq<(Player, Amount)>, n: int, p: int)
    requires
        0 <= n <= shares.len(),
    ensures
        0 <= share_of(shares, n, p) <= share_total(shares, n),
        0 <= share_total(shares, n),
    decreases n,
{
    if n > 0 {
        lemma_share_bounds(shares, n - 1, p);
    }
}

proof fn lemma_share_mono(shares: Seq<(Player, Amount)>, a: int, b: int, p: int)
    requires
        0 <= a <= b <= shares.len(),
    ensures
        share_of(shares, a, p) <= share_of(shares, b, p),
        share_total(shares, a) <= share_total(shares, b),
    decreases b,
{
    if a < b {
        lemma_share_mono(shares, a, b - 1, p);
    }
}

/// Sum over the players below `m` of their shares among the first `n`.
pub open spec fn share_sum(shares: Seq<(Player, Amount)>, n: int, m: int) -> int
    decreases m,
{
    if m <= 0 {
        0
    } else {
        share_sum(shares, n, m - 1) + share_of(shares, n, m - 1)
    }
}

proof fn lemma_share_sum_step(shares: Seq<(Player, Amount)>, n: int, m: int)
    requires
        1 <= n <= shares.len(),
        0 <= m,
    ensures
        share_sum(shares, n, m) == share_sum(shares, n - 1, m) + if shares[n - 1].0.value() < m {
            shares[n - 1].1.value()
        } else {
            0
        },
    decreases m,
{
    if m > 0 {
        lemma_share_sum_step(shares, n, m - 1);
    }
}

/// When every share goes to a player below `m`, the shares of those players
/// add up to all shares.
proof fn lemma_share_sum(shares: Seq<(Player, Amount)>, n: int, m: int)
    requires
        0 <= n <= shares.len(),
        0 <= m,
        forall|i: int| 0 <= i < n ==> (#[trigger] shares[i]).0.value() < m,
    ensures
        share_sum(shares, n, m) == share_total(shares, n),
    decreases n,
{
    if n == 0 {
        lemma_share_sum_zero(shares, m);
    } else {
        lemma_share_sum(shares, n - 1, m);
        lemma_share_sum_step(shares, n, m);
    }
}

proof fn lemma_share_sum_zero(shares: Seq<(Player, Amount)>, m: int)
    requires
        0 <= m,
    ensures
        share_sum(shares, 0, m) == 0,
    decreases m,
{
    if m > 0 {
        lemma_share_sum_zero(shares, m - 1);
    }
}

impl Game {
    proof fn lemma_showdown_sum(g: Game, f: Game, shares: Seq<(Player, Amount)>, m: int)
        requires
            0 <= m <= g.pc(),
            forall|p: int| 0 <= p < g.pc() ==> f.showdown_stack(p) == g.cur(p) + share_of(shares, shares.len() as int, p),
        ensures
            f.showdown_upto(m) == g.cur_upto(m) + share_sum(shares, shares.len() as int, m),
        decreases m,
    {
        if m > 0 {
            Self::lemma_showdown_sum(g, f, shares, m - 1);
        }
    }

    /// Stack of `p` after the showdown.
    pub closed spec fn showdown_stack(self, p: int) -> int {
        self.showdown_stacks@[p].value()
    }

    /// Sum of the showdown stacks of the first `n` players.
    pub closed spec fn showdown_upto(self, n: int) -> int
        decreases n,
    {
        if n <= 0 {
            0
        } else {
            self.showdown_upto(n - 1) + self.showdown_stack(n - 1)
        }
    }

    /// When the showdown can be settled with the given pot shares and rake:
    /// every share goes to a player, positive shares only to players in the
    /// hand, nothing overflows, and the shares and the rake make up the pot.
    pub closed spec fn showdown_custom_ok(self, rake: Amount, shares: Seq<(Player, Amount)>) -> bool {
        &&& self.at_final_action()
        &&& self.state_spec() is ShowdownOrNextRunout
        &&& forall|i: int|
            0 <= i < shares.len() ==> (#[trigger] shares[i]).0.value() < self.pc() && (shares[i].1.value() > 0
                ==> self.in_hand(shares[i].0.value()))
        &&& share_total(shares, shares.len() as int) <= u32::MAX
        &&& forall|p: int| 0 <= p < self.pc() ==> self.cur(p) + share_of(shares, shares.len() as int, p) <= u32::MAX
        &&& share_total(shares, shares.len() as int) + rake.value() == self.pot()
    }

    /// Settles the showdown: each player keeps the current stack plus the pot
    /// shares handed to it; the rest of the pot is rake.
    #[verifier::loop_isolation(false)]
    pub fn showdown_custom(&mut self, total_rake: Amount, shares: &[(Player, Amount)]) -> (r: Result<(), PlayError>)
        requires
            old(self).wf(),
        ensures
            final(self).wf(),
            r is Err ==> *final(self) == *old(self),
            r is Ok <==> old(self).showdown_custom_ok(total_rake, shares@),
            r is Ok ==> ({
                &&& final(self).same_table(*old(self))
                &&& final(self).same_betting(*old(self))
                &&& final(self).dealts() == old(self).dealts()
                &&& final(self).ended()
                &&& final(self).action_log() == old(self).action_log()
                &&& final(self).replay_index() == old(self).replay_index()
                &&& forall|p: int| 0 <= p < old(self).pc() ==> final(self).showdown_stack(p) == old(self).cur(p)
                    + share_of(shares@, shares@.len() as int, p)
                &&& final(self).showdown_upto(final(self).pc()) + total_rake.value() == old(self).starting_upto(
                    old(self).pc(),
                )
            }),
    {
        self.check_pre_update(false)?;
        match self.state() {
            State::ShowdownOrNextRunout => {},
            _ => return Err(PlayError::WrongState),
        }
        let ghost g = *self;
        let n = self.player_count as usize;
        let mut stacks: Vec<Amount> = Vec::new();
        let mut q: usize = 0;
        while q < MAX_PLAYERS
            invariant
                q <= 10,
                stacks@.len() == q,
                forall|j: int| 0 <= j < q ==> (#[trigger] stacks@[j]).value() == if j < n {
                    g.cur(j)
                } else {
                    g.showdown_stack(j)
                },
            decreases 10 - q,
        {
            if q < n {
                stacks.push(self.cur_stack(q));
            } else {
                stacks.push(self.showdown_stacks[q]);
            }
            q = q + 1;
        }
        let mut total: u32 = 0;
        let mut i: usize = 0;
        while i < shares.len()
            invariant
                i <= shares@.len(),
                stacks@.len() == 10,
                total == share_total(shares@, i as int),
                forall|j: int| 0 <= j < 10 ==> (#[trigger] stacks@[j]).value() == if j < n {
                    g.cur(j) + share_of(shares@, i as int, j)
                } else {
                    g.showdown_stack(j)
                },
                forall|k: int|
                    0 <= k < i ==> (#[trigger] shares@[k]).0.value() < g.pc() && (shares@[k].1.value() > 0
                        ==> g.in_hand(shares@[k].0.value())),
            decreases shares@.len() - i,
        {
            let (player, share) = shares[i];
            if player.0 as usize >= n {
                return Err(PlayError::InvalidPlayer);
            }
            if share.0 > 0 && !self.not_folded.has(player.0 as usize) {
                return Err(PlayError::InvalidShowdown);
            }
            let t = match total.checked_add(share.0) {
                Some(t) => t,
                None => {
                    proof {
                        lemma_share_mono(shares@, i + 1, shares@.len() as int, player.value());
                    }
                    return Err(PlayError::InvalidShowdown);
                },
            };
            let pi = player.0 as usize;
            let cur = stacks[pi];
            let ns = match cur.0.checked_add(share.0) {
                Some(x) => x,
                None => {
                    proof {
                        lemma_share_mono(shares@, i + 1, shares@.len() as int, player.value());
                    }
                    return Err(PlayError::InvalidShowdown);
                },
            };
            stacks.set(pi, Amount(ns));
            total = t;
            i = i + 1;
        }
        proof {
            assert forall|p: int| 0 <= p < g.pc() implies g.cur(p) + share_of(shares@, shares@.len() as int, p)
                <= u32::MAX by {
                assert(stacks@[p].value() == g.cur(p) + share_of(shares@, shares@.len() as int, p));
            }
        }
        let pot = self.total_pot();
        match total.checked_add(total_rake.0) {
            Some(x) => {
                if x != pot.0 {
                    return Err(PlayError::InvalidShowdown);
                }
            },
            None => {
                return Err(PlayError::InvalidShowdown);
            },
        }
        self.showdown_stacks = stacks;
        let ghost h = *self;
        proof {
            Self::lemma_wf_showdown(g, h);
        }
        self.at_end = true;
        proof {
            Self::lemma_wf_end(h, *self);
            assert(share_total(shares@, shares@.len() as int) + total_rake.value() == g.pot());
            lemma_share_sum(shares@, shares@.len() as int, g.pc());
            Self::lemma_showdown_sum(g, *self, shares@, g.pc());
            g.lemma_pot_upto_bound(g.pc());
        }
        Ok(())
    }
}

impl Game {
    /// Why the given showdown stacks are refused, checked in this order.
    pub closed spec fn showdown_stacks_error(self, stacks: Seq<Amount>) -> Option<PlayError> {
        if stacks.len() != self.pc() {
            Some(PlayError::InvalidShowdown)
        } else if sum_amounts(stacks, stacks.len() as int) > u32::MAX {
            Some(PlayError::InvalidShowdown)
        } else if sum_amounts(stacks, stacks.len() as int) > self.starting_upto(self.pc()) {
            Some(PlayError::InvalidShowdown)
        } else if exists|p: int|
            0 <= p < self.pc() && (#[trigger] stacks[p]).value() > self.starting(p) && !self.in_hand(p) {
            Some(PlayError::InvalidShowdown)
        } else if !self.at_final_action() {
            Some(PlayError::NotAtFinalAction)
        } else if !(self.state_spec() is ShowdownOrNextRunout) {
            Some(PlayError::WrongState)
        } else {
            None
        }
    }

    /// Settles the showdown with the given final stacks, which may not add up
    /// to more than the starting stacks, nor give a folded player more than it
    /// started with.
    #[verifier::loop_isolation(false)]
    pub fn showdown_stacks(&mut self, stacks: &[Amount]) -> (r: Result<(), PlayError>)
        requires
            old(self).wf(),
        ensures
            final(self).wf(),
            match old(self).showdown_stacks_error(stacks@) {
                Some(e) => r == Err::<(), PlayError>(e) && *final(self) == *old(self),
                None => r is Ok,
            },
            r is Ok ==> ({
                &&& final(self).same_table(*old(self))
                &&& final(self).same_betting(*old(self))
                &&& final(self).dealts() == old(self).dealts()
                &&& final(self).ended()
                &&& final(self).action_log() == old(self).action_log()
                &&& final(self).replay_index() == old(self).replay_index()
                &&& forall|p: int| 0 <= p < old(self).pc() ==> final(self).showdown_stack(p) == stacks@[p].value()
            }),
    {
        let n = self.player_count as usize;
        if stacks.len() != n {
            return Err(PlayError::InvalidShowdown);
        }
        let mut total: u32 = 0;
        let mut i: usize = 0;
        while i < n
            invariant
                i <= n,
                total == sum_amounts(stacks@, i as int),
            decreases n - i,
        {
            match total.checked_add(stacks[i].0) {
                Some(t) => total = t,
                None => {
                    proof {
                        lemma_sum_amounts_mono(stacks@, i + 1, n as int);
                    }
                    return Err(PlayError::InvalidShowdown);
                },
            }
            i = i + 1;
        }
        let mut expected: u32 = 0;
        let mut i: usize = 0;
        while i < n
            invariant
                i <= n,
                expected == self.starting_upto(i as int),
            decreases n - i,
        {
            proof {
                self.lemma_starting_upto_mono(i + 1, n as int);
            }
            expected = expected + self.starting_stacks[i].0;
            i = i + 1;
        }
        if total > expected {
            return Err(PlayError::InvalidShowdown);
        }
        let mut i: usize = 0;
        while i < n
            invariant
                i <= n,
                forall|p: int| 0 <= p < i ==> !((#[trigger] stacks@[p]).value() > self.starting(p) && !self.in_hand(p)),
            decreases n - i,
        {
            if stacks[i].0 > self.starting_stacks[i].0 && !self.not_folded.has(i) {
                proof {
                    assert(stacks@[i as int].value() > self.starting(i as int) && !self.in_hand(i as int));
                }
                return Err(PlayError::InvalidShowdown);
            }
            i = i + 1;
        }
        self.check_pre_update(false)?;
        match self.state() {
            State::ShowdownOrNextRunout => {},
            _ => return Err(PlayError::WrongState),
        }
        let ghost g = *self;
        let mut q: usize = 0;
        while q < n
            invariant
                *self == (Game { showdown_stacks: self.showdown_stacks, ..g }),
                q <= n,
                self.showdown_stacks@.len() == 10,
                forall|j: int| 0 <= j < 10 ==> (#[trigger] self.showdown_stacks@[j]) == if j < q {
                    stacks@[j]
                } else {
                    g.showdown_stacks@[j]
                },
            decreases n - q,
        {
            self.showdown_stacks.set(q, stacks[q]);
            q = q + 1;
        }
        let ghost h = *self;
        proof {
            Self::lemma_wf_showdown(g, h);
        }
        self.at_end = true;
        proof {
            Self::lemma_wf_end(h, *self);
        }
        Ok(())
    }

    /// Whether `next` can step forward: a recorded action lies ahead, or the
    /// showdown can be marked as reached.
    pub closed spec fn can_next_spec(self) -> bool {
        let set = exists|p: int| 0 <= p < self.pc() && #[trigger] self.showdown_stack(p) != 0;
        let at_final = self.at_final_action();
        match self.state_spec() {
            State::ShowdownOrNextRunout => set || !at_final,
            _ => !at_final,
        }
    }

    /// Whether `next` can step forward.
    pub fn can_next(&self) -> (r: bool)
        requires
            self.wf(),
        ensures
            r == self.can_next_spec(),
    {
        let n = self.player_count as usize;
        let mut set = false;
        let mut q: usize = 0;
        while q < n
            invariant
                self.wf(),
                n == self.pc(),
                q <= n,
                set == exists|p: int| 0 <= p < q && #[trigger] self.showdown_stack(p) != 0,
            decreases n - q,
        {
            if self.showdown_stacks[q].0 != 0 {
                set = true;
                proof {
                    assert(self.showdown_stack(q as int) != 0);
                }
            } else {
                proof {
                    assert(self.showdown_stack(q as int) == 0);
                }
            }
            q = q + 1;
        }
        let at_final = self.current_action_index == self.actions.len();
        match self.state() {
            State::ShowdownOrNextRunout => set || !at_final,
            _ => !at_final,
        }
    }

    /// The stacks shown to the players: the showdown stacks once the hand is
    /// over, else the stacks in the current street.
    pub fn current_stacks(&self) -> (v: Vec<Amount>)
        requires
            self.wf(),
        ensures
            v@.len() == self.pc(),
            forall|p: int| 0 <= p < self.pc() ==> (#[trigger] v@[p]).value() == if self.state_spec() is End {
                self.showdown_stack(p)
            } else {
                self.cur(p)
            },
    {
        let end = match self.state() {
            State::End => true,
            _ => false,
        };
        let mut v: Vec<Amount> = Vec::new();
        let mut q: usize = 0;
        while q < self.player_count as usize
            invariant
                self.wf(),
                q <= self.pc(),
                end == (self.state_spec() is End),
                v@.len() == q,
                forall|p: int| 0 <= p < q ==> (#[trigger] v@[p]).value() == if end {
                    self.showdown_stack(p)
                } else {
                    self.cur(p)
                },
            decreases self.pc() - q,
        {
            if end {
                v.push(self.showdown_stacks[q]);
            } else {
                v.push(self.cur_stack(q));
            }
            q = q + 1;
        }
        v
    }

    /// Steps the replay back to the start; the actions stay recorded.
    pub fn rewind(&mut self)
        requires
            old(self).wf(),
        ensures
            final(self).wf(),
            !final(self).can_step_back(),
            final(self).action_log() == old(self).action_log(),
    {
        while self.previous()
            invariant
                self.wf(),
                self.action_log() == old(self).action_log(),
            decreases self.replay_index() * 2 + if self.ended() {
                1int
            } else {
                0int
            },
        {
        }
    }

    /// Clears all actions: back to the state before the first post.
    pub fn reset(&mut self)
        requires
            old(self).wf(),
        ensures
            final(self).wf(),
            final(self).same_table(*old(self)),
            final(self).action_log().len() == 0,
            final(self).replay_index() == 0,
            final(self).fresh(),
            forall|p: int| 0 <= p < final(self).pc() ==> final(self).showdown_stack(p) == 0,
            forall|b: int| 0 <= b < 4 ==> (#[trigger] final(self).dealts()[b]).len() == 0,
    {
        let ghost g = *self;
        let n = self.player_count as usize;
        let mut stacks: Vec<Amount> = Vec::new();
        let mut t: usize = 0;
        while t < 40
            invariant
                g.starting_stacks@.len() == 10,
                self.starting_stacks@ == g.starting_stacks@,
                stacks@.len() == t,
                t <= 40,
                forall|j: int| 0 <= j < t ==> (#[trigger] stacks@[j]) == g.starting_stacks@[j % 10],
            decreases 40 - t,
        {
            stacks.push(self.starting_stacks[t % MAX_PLAYERS]);
            t = t + 1;
        }
        let mut showdown: Vec<Amount> = Vec::new();
        let mut q: usize = 0;
        while q < MAX_PLAYERS
            invariant
                showdown@.len() == q,
                q <= 10,
                forall|j: int| 0 <= j < q ==> (#[trigger] showdown@[j]).value() == 0,
            decreases 10 - q,
        {
            showdown.push(Amount(0));
            q = q + 1;
        }
        let mut boards: Vec<Board> = Vec::new();
        let mut b: usize = 0;
        while b < MAX_RUNOUTS
            invariant
                boards@.len() == b,
                b <= 4,
                forall|j: int| 0 <= j < b ==> (#[trigger] boards@[j]).street_of() == Street::PreFlop
                    && boards@[j].dealt().len() == 0,
            decreases 4 - b,
        {
            boards.push(Board::empty());
            b = b + 1;
        }
        let reference = self.starting_stacks.clone();
        self.actions = Vec::new();
        self.stacks_in_street = stacks;
        self.reference_stacks = reference;
        self.showdown_stacks = showdown;
        self.boards = boards;
        self.current_board = 0;
        self.current_street_index = 0;
        self.current_action_index = 0;
        self.current_player = None;
        self.not_folded = Bitset::ones(n);
        self.hand_shown = Bitset::empty();
        self.hand_mucked = Bitset::empty();
        self.at_end = false;
        proof {
            assert(self.reference_stacks@ =~= self.starting_stacks@);
            assert(self.street_idx() == 0);
            assert forall|t: int, p: int|
                0 <= t <= self.street_idx() && 0 <= p < 10 implies #[trigger] self.stk(t, p) <= if t == 0 {
                    self.reference(p)
                } else {
                    self.stk(t - 1, p)
                } by {
                assert(self.stacks_in_street@[t * 10 + p] == g.starting_stacks@[(t * 10 + p) % 10]);
            }
            assert forall|p: int| 0 <= p < self.pc() implies #[trigger] self.starting(p) > 0 by {
                assert(g.starting(p) > 0);
            }
            assert forall|p: int| 0 <= p < self.pc() implies #[trigger] self.in_hand(p) && self.reference(p)
                == self.starting(p) && self.stk(0, p) == self.starting(p) by {
                assert(self.stacks_in_street@[0 * 10 + p] == g.starting_stacks@[(0 * 10 + p) % 10]);
            }
            lemma_starting_upto_eq(g, *self, self.pc());
            assert(self.dealts() =~= Seq::new(4, |b: int| self.boards@[b].dealt()));
        }
    }
}

impl Game {
    /// The player to act folds.
    pub fn fold(&mut self) -> (r: Result<(), PlayError>)
        requires
            old(self).wf(),
        ensures
            final(self).keeps_table(*old(self)),
            final(self).wf(),
            r is Ok <==> old(self).fold_ok(false),
            r is Err ==> *final(self) == *old(self),
            r is Ok ==> old(self).fold_effect(*final(self), false),
    {
        self.fold_step(false)
    }

    /// The player to act checks.
    pub fn check(&mut self) -> (r: Result<(), PlayError>)
        requires
            old(self).wf(),
        ensures
            final(self).keeps_table(*old(self)),
            final(self).wf(),
            r is Ok <==> old(self).check_ok(false),
            r is Err ==> *final(self) == *old(self),
            r is Ok ==> old(self).check_effect(*final(self), false),
    {
        self.check_step(false)
    }

    /// The player to act calls what `can_call` gives.
    pub fn call(&mut self) -> (r: Result<(), PlayError>)
        requires
            old(self).wf(),
        ensures
            final(self).keeps_table(*old(self)),
            final(self).wf(),
            r is Ok <==> old(self).call_ok(false),
            r is Err ==> *final(self) == *old(self),
            r is Ok ==> old(self).call_effect(*final(self), false),
    {
        self.call_step(false)
    }

    /// The player to act bets `amount`, at least the minimum of `can_bet`.
    pub fn bet(&mut self, amount: Amount) -> (r: Result<(), PlayError>)
        requires
            old(self).wf(),
        ensures
            final(self).wf(),
            r is Ok <==> old(self).bet_ok(false, amount),
            r is Err ==> *final(self) == *old(self),
            r is Ok ==> old(self).bet_effect(*final(self), false, amount),
    {
        self.bet_step(false, amount)
    }

    /// The player to act raises to a street total of `to`, at least the minimum total of `can_raise`.
    pub fn raise(&mut self, to: Amount) -> (r: Result<(), PlayError>)
        requires
            old(self).wf(),
            old(self).raise_defined(),
        ensures
            final(self).wf(),
            r is Ok <==> old(self).raise_ok(false, to, true),
            r is Err ==> *final(self) == *old(self),
            r is Ok ==> old(self).raise_effect(*final(self), false, to),
    {
        self.raise_to_step(false, to, true)
    }

    /// The player to act raises to a street total of `to` without the minimum check; the raise size is the minimum size moved by the difference to the minimum total.
    pub fn unsafe_raise_min_bet_unchecked(&mut self, to: Amount) -> (r: Result<(), PlayError>)
        requires
            old(self).wf(),
            old(self).raise_defined(),
        ensures
            final(self).keeps_table(*old(self)),
            final(self).wf(),
            r is Ok <==> old(self).raise_ok(false, to, false),
            r is Err ==> *final(self) == *old(self),
            r is Ok ==> old(self).raise_effect(*final(self), false, to),
    {
        self.raise_to_step(false, to, false)
    }

    /// What posting the blinds makes of `before`: the small and big blind
    /// posted (each capped by the player's stack) and the first player to act
    /// after the big blind; when replaying, the recorded log is kept.
    pub open spec fn blinds_posted(self, before: Game, replay: bool) -> bool {
        let sb = before.sb_player();
        let bb = before.bb_player();
        &&& self.same_setup(before)
        &&& self.street_idx() == 0
        &&& self.action_log() == if replay {
            before.action_log()
        } else {
            before.blind_actions()
        }
        &&& self.replay_index() == 2
        &&& self.cur(sb) == before.starting(sb) - before.blind_post(sb, before.small_blind_amount()).value()
        &&& self.cur(bb) == before.starting(bb) - before.blind_post(bb, before.big_blind_amount()).value()
        &&& forall|q: int|
            0 <= q < before.pc() && q != sb && q != bb ==> self.cur(q) == before.starting(q)
        &&& forall|q: int| 0 <= q < before.pc() ==> #[trigger] self.in_hand(q)
        &&& self.player_now() == self.next_to_act(bb)
        &&& self.pot() == before.blind_post(sb, before.small_blind_amount()).value()
            + before.blind_post(bb, before.big_blind_amount()).value()
    }

    /// Posts the small and the big blind to start the hand.
    pub fn post_small_and_big_blind(&mut self) -> (r: Result<(), PlayError>)
        requires
            old(self).wf(),
        ensures
            final(self).keeps_table(*old(self)),
            final(self).wf(),
            r is Err ==> *final(self) == *old(self),
            r is Ok <==> old(self).blinds_ok(false),
            r is Ok ==> final(self).blinds_posted(*old(self), false),
    {
        self.blinds_step(false)
    }

    /// What an additional post of `amount` by `player` makes of the game: the
    /// chips go in, counting toward the player's bets unless the post is dead.
    pub open spec fn post_effect(self, next: Game, player: Player, amount: Amount, dead: bool) -> bool {
        let p = player.value();
        &&& next.same_setup(self)
        &&& next.street_idx() == 0
        &&& next.action_log() == self.action_log().push(Action::Post { player, amount, dead })
        &&& next.replay_index() == self.replay_index() + 1
        &&& next.cur(p) == self.cur(p) - amount.value()
        &&& next.reference(p) == self.reference(p) - if dead {
            amount.value()
        } else {
            0
        }
        &&& forall|q: int| 0 <= q < 10 && q != p ==> next.cur(q) == self.cur(q)
            && next.reference(q) == self.reference(q)
        &&& forall|q: int|
            #![trigger next.in_hand(q)]
            0 <= q < 10 ==> next.in_hand(q) == self.in_hand(q)
        &&& next.player_now() == self.player_now()
        &&& next.pot() == self.pot() + amount.value()
    }

    /// An additional post before the action starts, in order from the small blind; a dead post does not count toward the player's bets.
    pub fn additional_post(&mut self, player: Player, amount: Amount, dead: bool) -> (r: Result<(), PlayError>)
        requires
            old(self).wf(),
            old(self).post_defined(),
        ensures
            final(self).keeps_table(*old(self)),
            final(self).wf(),
            match old(self).additional_post_error(false, player, amount, dead) {
                Some(e) => r == Err::<(), PlayError>(e),
                None => r is Ok,
            },
            r is Err ==> *final(self) == *old(self),
            r is Ok ==> old(self).post_effect(*final(self), player, amount, dead),
    {
        self.additional_post_step(false, player, amount, dead)
    }

    /// A straddle of `amount` by `player`, at least `can_straddle`; the player left of the straddler acts next.
    pub fn straddle(&mut self, player: Player, amount: Amount) -> (r: Result<(), PlayError>)
        requires
            old(self).wf(),
        ensures
            final(self).keeps_table(*old(self)),
            final(self).wf(),
            r is Err ==> *final(self) == *old(self),
            r is Ok <==> old(self).straddle_ok(false, player, amount),
            r is Ok ==> old(self).straddle_effect(*final(self), false, player, amount),
    {
        self.straddle_step(false, player, amount)
    }

    /// Deals the flop.
    pub fn flop(&mut self, flop: [Card; 3]) -> (r: Result<(), PlayError>)
        requires
            old(self).wf(),
            old(self).deal_defined(false, Action::Flop(flop)),
        ensures
            final(self).wf(),
            r is Err ==> *final(self) == *old(self),
            r is Ok <==> old(self).deal_ok(false, Action::Flop(flop)),
            r is Ok ==> ({
                let st = Street::Flop;
                let nr = old(self).deal_plan()->Some_0.1;
                &&& final(self).same_setup_but_boards(*old(self))
                &&& final(self).dealts() == old(self).dealt_after(Action::Flop(flop), nr)
                &&& final(self).board_index() == old(self).board_after(nr)
                &&& final(self).street_idx() == st.index()
                &&& final(self).action_log() == old(self).action_log().push(Action::Flop(flop))
                &&& final(self).replay_index() == old(self).replay_index() + 1
                &&& final(self).street_start() == final(self).replay_index()
                &&& forall|q: int| 0 <= q < 10 ==> final(self).cur(q) == old(self).stk(st.index() - 1, q)
                &&& forall|q: int|
                    #![trigger final(self).in_hand(q)]
                    0 <= q < 10 ==> final(self).in_hand(q) == old(self).in_hand(q)
                &&& final(self).player_now() == if final(self).all_in_terminated() {
                    None
                } else {
                    final(self).rotate_from(old(self).button_player().value(), 1)
                }
            }),
    {
        self.deal_step(false, Action::Flop(flop))
    }

    /// Deals the turn.
    pub fn turn(&mut self, turn: Card) -> (r: Result<(), PlayError>)
        requires
            old(self).wf(),
            old(self).deal_defined(false, Action::Turn(turn)),
        ensures
            final(self).wf(),
            r is Err ==> *final(self) == *old(self),
            r is Ok <==> old(self).deal_ok(false, Action::Turn(turn)),
            r is Ok ==> ({
                let st = Street::Turn;
                let nr = old(self).deal_plan()->Some_0.1;
                &&& final(self).same_setup_but_boards(*old(self))
                &&& final(self).dealts() == old(self).dealt_after(Action::Turn(turn), nr)
                &&& final(self).board_index() == old(self).board_after(nr)
                &&& final(self).street_idx() == st.index()
                &&& final(self).action_log() == old(self).action_log().push(Action::Turn(turn))
                &&& final(self).replay_index() == old(self).replay_index() + 1
                &&& final(self).street_start() == final(self).replay_index()
                &&& forall|q: int| 0 <= q < 10 ==> final(self).cur(q) == old(self).stk(st.index() - 1, q)
                &&& forall|q: int|
                    #![trigger final(self).in_hand(q)]
                    0 <= q < 10 ==> final(self).in_hand(q) == old(self).in_hand(q)
                &&& final(self).player_now() == if final(self).all_in_terminated() {
                    None
                } else {
                    final(self).rotate_from(old(self).button_player().value(), 1)
                }
            }),
    {
        self.deal_step(false, Action::Turn(turn))
    }

    /// Deals the river.
    pub fn river(&mut self, river: Card) -> (r: Result<(), PlayError>)
        requires
            old(self).wf(),
            old(self).deal_defined(false, Action::River(river)),
        ensures
            final(self).wf(),
            r is Err ==> *final(self) == *old(self),
            r is Ok <==> old(self).deal_ok(false, Action::River(river)),
            r is Ok ==> ({
                let st = Street::River;
                let nr = old(self).deal_plan()->Some_0.1;
                &&& final(self).same_setup_but_boards(*old(self))
                &&& final(self).dealts() == old(self).dealt_after(Action::River(river), nr)
                &&& final(self).board_index() == old(self).board_after(nr)
                &&& final(self).street_idx() == st.index()
                &&& final(self).action_log() == old(self).action_log().push(Action::River(river))
                &&& final(self).replay_index() == old(self).replay_index() + 1
                &&& final(self).street_start() == final(self).replay_index()
                &&& forall|q: int| 0 <= q < 10 ==> final(self).cur(q) == old(self).stk(st.index() - 1, q)
                &&& forall|q: int|
                    #![trigger final(self).in_hand(q)]
                    0 <= q < 10 ==> final(self).in_hand(q) == old(self).in_hand(q)
                &&& final(self).player_now() == if final(self).all_in_terminated() {
                    None
                } else {
                    final(self).rotate_from(old(self).button_player().value(), 1)
                }
            }),
    {
        self.deal_step(false, Action::River(river))
    }

    /// Returns the uncalled bet to its player.
    pub fn uncalled_bet(&mut self) -> (r: Result<(), PlayError>)
        requires
            old(self).wf(),
            old(self).uncalled_fits(),
        ensures
            final(self).wf(),
            r is Err ==> *final(self) == *old(self),
            r is Ok <==> old(self).uncalled_ok(false),
            r is Ok ==> ({
                let p = old(self).uncalled_spec()->Some_0.0.value();
                let a = old(self).uncalled_spec()->Some_0.1;
                &&& final(self).same_setup(*old(self))
                &&& final(self).street_idx() == old(self).street_idx()
                &&& final(self).action_log() == old(self).action_log().push(old(self).uncalled_action())
                &&& final(self).replay_index() == old(self).replay_index() + 1
                &&& final(self).cur(p) == old(self).cur(p) + a
                &&& forall|q: int| 0 <= q < 10 && q != p ==> final(self).cur(q) == old(self).cur(q)
                &&& forall|q: int|
                    #![trigger final(self).in_hand(q)]
                    0 <= q < 10 ==> final(self).in_hand(q) == old(self).in_hand(q)
                &&& final(self).player_now() == old(self).player_now()
                &&& final(self).pot() == old(self).pot() - a
            }),
    {
        self.uncalled_bet_step(false)
    }

    /// The player due to show or muck shows the hand.
    pub fn show_hand(&mut self) -> (r: Result<(), PlayError>)
        requires
            old(self).wf(),
        ensures
            final(self).wf(),
            r is Err ==> *final(self) == *old(self),
            r is Ok <==> old(self).show_ok(false),
            r is Ok ==> ({
                let p = old(self).shower();
                &&& final(self).same_betting(*old(self))
                &&& final(self).action_log() == old(self).action_log().push(Action::Shows { player: p, hand: old(self).hand_at(p.value())->Some_0 },
                )
                &&& final(self).replay_index() == old(self).replay_index() + 1
                &&& forall|q: int| final(self).shown(q) == (old(self).shown(q) || q == p.value())
                &&& forall|q: int| final(self).mucked(q) == old(self).mucked(q)
            }),
    {
        self.show_hand_step(false)
    }

    /// The player due to show or muck mucks (or the hand stays unknown).
    pub fn muck_hand(&mut self) -> (r: Result<(), PlayError>)
        requires
            old(self).wf(),
        ensures
            final(self).wf(),
            r is Err ==> *final(self) == *old(self),
            r is Ok <==> old(self).muck_ok(false),
            r is Ok ==> ({
                let p = old(self).shower();
                &&& final(self).same_betting(*old(self))
                &&& final(self).action_log() == old(self).action_log().push(Action::MucksOrUnknown(p))
                &&& final(self).replay_index() == old(self).replay_index() + 1
                &&& forall|q: int| final(self).mucked(q) == (old(self).mucked(q) || q == p.value())
                &&& forall|q: int| final(self).shown(q) == old(self).shown(q)
            }),
    {
        self.muck_hand_step(false)
    }
}

/// The stored form of a game: its setup, the extra data and the actions.
#[derive(Clone, Debug)]
pub struct GameData {
    pub unit: Option<String>,
    pub max_players: Option<u8>,
    pub location: Option<String>,
    pub date: Option<NaiveDateTime>,
    pub table_name: Option<String>,
    pub hand_name: Option<String>,
    pub additional_metadata: Vec<(String, String)>,
    pub hero_index: Option<Player>,
    pub players: Vec<PlayerData>,
    pub button_index: Player,
    pub small_blind: Amount,
    pub big_blind: Amount,
    pub actions: Vec<Action>,
    pub showdown_stacks: Option<Vec<Amount>>,
}

impl Default for GameData {
    /// Six players with 1 000 chips each, the first on the button, blinds of 5 and 10, no actions.
    fn default() -> (d: GameData)
        ensures
            d.players@.len() == 6,
            forall|i: int| 0 <= i < 6 ==> (#[trigger] d.players@[i]).name is None && d.players@[i].seat is None
                && d.players@[i].hand is None && d.players@[i].starting_stack == Amount(1000),
            d.button_index == Player(0),
            d.small_blind == Amount(5),
            d.big_blind == Amount(10),
            d.actions@.len() == 0,
            d.showdown_stacks is None,
            d.hero_index is None,
            d.additional_metadata@.len() == 0,
    {
        let mut players: Vec<PlayerData> = Vec::new();
        let mut i: usize = 0;
        while i < 6
            invariant
                i <= 6,
                players@.len() == i,
                forall|k: int| 0 <= k < i ==> (#[trigger] players@[k]).name is None && players@[k].seat is None
                    && players@[k].hand is None && players@[k].starting_stack == Amount(1000),
            decreases 6 - i,
        {
            players.push(PlayerData::with_starting_stack(Amount(1000)));
            i = i + 1;
        }
        GameData {
            unit: None,
            max_players: None,
            location: None,
            date: None,
            table_name: None,
            hand_name: None,
            additional_metadata: Vec::new(),
            hero_index: None,
            players,
            button_index: Player(0),
            small_blind: Amount(5),
            big_blind: Amount(10),
            actions: Vec::new(),
            showdown_stacks: None,
        }
    }
}

/// A copy of a list of key and value texts.
fn copy_metadata(v: &Vec<(String, String)>) -> (r: Vec<(String, String)>)
    ensures
        r@ == v@,
{
    let mut r: Vec<(String, String)> = Vec::new();
    let mut i: usize = 0;
    while i < v.len()
        invariant
            i <= v@.len(),
            r@ == v@.subrange(0, i as int),
        decreases v@.len() - i,
    {
        let e = &v[i];
        r.push((e.0.clone(), e.1.clone()));
        proof {
            assert(r@ =~= v@.subrange(0, i + 1));
        }
        i = i + 1;
    }
    proof {
        assert(v@.subrange(0, v@.len() as int) =~= v@);
    }
    r
}

impl Game {
    /// The stack of `p` at the showdown, zero before it.
    pub closed spec fn showdown_amount(self, p: int) -> Amount {
        self.showdown_stacks@[p]
    }

    /// `d` is the stored form of this game.
    pub open spec fn describes(self, d: GameData) -> bool {
        &&& d.unit == self.unit_of()
        &&& d.max_players == self.max_players_of()
        &&& d.location == self.location_of()
        &&& d.date == self.date_of()
        &&& d.table_name == self.table_name_of()
        &&& d.hand_name == self.hand_name_of()
        &&& d.additional_metadata@ == self.metadata_of()
        &&& d.hero_index == self.hero_of()
        &&& d.button_index == self.button_player()
        &&& d.small_blind == self.small_blind_amount()
        &&& d.big_blind == self.big_blind_amount()
        &&& d.actions@ == self.action_log()
        &&& d.players@.len() == self.pc()
        &&& forall|i: int|
                0 <= i < self.pc() ==> (#[trigger] d.players@[i]).name == self.name_at(i) && d.players@[i].seat
                    == Some(self.seat_at(i)) && d.players@[i].hand == self.hand_at(i) && d.players@[i].starting_stack.value()
                    == self.starting(i)
        &&& match d.showdown_stacks {
                None => forall|i: int| 0 <= i < self.pc() ==> self.showdown_amount(i).value() == 0,
                Some(v) => v@.len() == self.pc() && (exists|i: int| 0 <= i < self.pc() && self.showdown_amount(i).value()
                    != 0) && forall|i: int| 0 <= i < self.pc() ==> v@[i] == self.showdown_amount(i),
            }
    }

    /// The stored form of the game; showdown stacks are stored when one of them is not zero.
    pub fn to_game_data(&self) -> (d: GameData)
        requires
            self.wf(),
        ensures
            self.describes(d),
            0 <= self.replay_index() <= d.actions@.len(),
            d.actions@.subrange(0, self.replay_index()) == self.action_log().subrange(0, self.replay_index()),
    {
        let n = self.player_count as usize;
        let mut players: Vec<PlayerData> = Vec::new();
        let mut i: usize = 0;
        while i < n
            invariant
                self.wf(),
                n == self.pc(),
                i <= n,
                players@.len() == i,
                forall|k: int|
                    0 <= k < i ==> (#[trigger] players@[k]).name == self.name_at(k) && players@[k].seat == Some(
                        self.seat_at(k),
                    ) && players@[k].hand == self.hand_at(k) && players@[k].starting_stack.value() == self.starting(k),
            decreases n - i,
        {
            players.push(
                PlayerData {
                    name: Self::clone_opt_string(&self.names[i]),
                    seat: Some(self.seats[i]),
                    hand: self.hands[i],
                    starting_stack: self.starting_stacks[i],
                },
            );
            i = i + 1;
        }
        let mut any_showdown = false;
        let mut stacks: Vec<Amount> = Vec::new();
        let mut k: usize = 0;
        while k < n
            invariant
                self.wf(),
                n == self.pc(),
                k <= n,
                stacks@.len() == k,
                forall|j: int| 0 <= j < k ==> stacks@[j] == self.showdown_amount(j),
                any_showdown == exists|j: int| 0 <= j < k && self.showdown_amount(j).value() != 0,
            decreases n - k,
        {
            let a = self.showdown_stacks[k];
            if a.0 != 0 {
                any_showdown = true;
            }
            stacks.push(a);
            proof {
                assert(self.showdown_amount(k as int) == a);
                if !any_showdown {
                    assert forall|x: int| 0 <= x < k + 1 implies self.showdown_amount(x).value() == 0 by {
                        if x < k {
                            assert(!(0 <= x < k && self.showdown_amount(x).value() != 0));
                        }
                    }
                }
            }
            k = k + 1;
        }
        let mut actions: Vec<Action> = Vec::new();
        let mut j: usize = 0;
        while j < self.actions.len()
            invariant
                self.wf(),
                j <= self.actions@.len(),
                actions@ == self.actions@.subrange(0, j as int),
            decreases self.actions@.len() - j,
        {
            actions.push(self.actions[j]);
            proof {
                assert(actions@ =~= self.actions@.subrange(0, j + 1));
            }
            j = j + 1;
        }
        proof {
            assert(self.actions@.subrange(0, self.actions@.len() as int) =~= self.actions@);
        }
        GameData {
            unit: Self::clone_opt_string(&self.unit),
            max_players: self.max_players,
            location: Self::clone_opt_string(&self.location),
            date: self.date,
            table_name: Self::clone_opt_string(&self.table_name),
            hand_name: Self::clone_opt_string(&self.hand_name),
            additional_metadata: copy_metadata(&self.additional_metadata),
            hero_index: self.hero,
            players,
            button_index: self.button,
            small_blind: self.small_blind,
            big_blind: self.big_blind,
            actions,
            showdown_stacks: if any_showdown {
                Some(stacks)
            } else {
                None
            },
        }
    }
}

impl Game {
    /// Replaying position `k` of `actions` still belongs to the additional
    /// posts that follow the blinds.
    pub open spec fn posting_at(actions: Seq<Action>, k: int) -> bool {
        forall|j: int| 2 <= j <= k ==> (#[trigger] actions[j]) is Post
    }

    /// The recorded action `a` can be replayed on `self`, as an additional post
    /// while `posting`, else as the next action, in a state this library plays.
    #[verifier::opaque]
    pub open spec fn replay_ok_at(self, a: Action, posting: bool) -> bool {
        if posting {
            match a {
                Action::Post { player, amount, dead } => self.post_defined() && self.additional_post_error(
                    false,
                    player,
                    amount,
                    dead,
                ) is None,
                _ => false,
            }
        } else {
            &&& self.apply_defined(a)
            &&& self.apply_ok(a)
        }
    }

    /// What replaying `a` on `self` makes of it.
    #[verifier::opaque]
    pub open spec fn replay_effect(self, next: Game, a: Action, posting: bool) -> bool {
        &&& next.wf()
        &&& next.keeps_table(self)
        &&& next.replay_index() == self.replay_index() + 1
        &&& next.action_log() == self.action_log().push(if posting { a } else { self.applied_action(a) })
        &&& if posting {
            a matches Action::Post { player, amount, dead } && self.post_effect(next, player, amount, dead)
        } else {
            self.apply_effect(next, a)
        }
    }

    /// `games` starts at `start`, the game with the blinds posted, and each later
    /// game is what replaying the next recorded action, from position 2 up to
    /// position `n`, makes of the game before it.
    pub open spec fn replays_through(start: Game, games: Seq<Game>, actions: Seq<Action>, n: int) -> bool {
        &&& 2 <= n <= actions.len()
        &&& games.len() == n - 1
        &&& games[0] == start
        &&& forall|j: int|
            0 <= j < n - 2 ==> (#[trigger] games[j]).replay_ok_at(actions[j + 2], Game::posting_at(actions, j + 2))
                && games[j].replay_effect(games[j + 1], actions[j + 2], Game::posting_at(actions, j + 2))
    }

    /// The game set up from `data`, before any action is replayed.
    pub open spec fn set_up_from(self, fresh: Game, data: GameData) -> bool {
        &&& fresh.opens(data.players@, data.button_index, data.small_blind, data.big_blind)
        &&& self.wf()
        &&& self.same_play(fresh)
        &&& self.same_people(fresh)
        &&& self.hero_of() == data.hero_index
        &&& self.max_players_of() == data.max_players
    }

    /// The recorded log of `data` replays: it is empty or longer than the
    /// blinds, and however its actions are replayed from the blinds on, each
    /// of them can be replayed when its turn comes, the replay gives back the
    /// recorded log, and the stored showdown stacks can be set at its end.
    pub open spec fn log_replays(data: GameData) -> bool {
        &&& data.actions@.len() != 1
        &&& forall|fresh: Game, base: Game|
            #![trigger base.set_up_from(fresh, data)]
            base.set_up_from(fresh, data) && data.actions@.len() == 0 ==> (data.showdown_stacks matches Some(v)
                ==> base.showdown_stacks_error(v@) is None)
        &&& forall|fresh: Game, base: Game, start: Game, games: Seq<Game>, m: int|
            #![trigger base.set_up_from(fresh, data), start.blinds_posted(base, false), Game::replays_through(start, games, data.actions@, m)]
            base.set_up_from(fresh, data) && start.wf() && start.blinds_posted(base, false) && Game::replays_through(
                start,
                games,
                data.actions@,
                m,
            ) ==> (m < data.actions@.len() ==> games[m - 2].replay_ok_at(
                data.actions@[m],
                Game::posting_at(data.actions@, m),
            )) && (m == data.actions@.len() ==> games[m - 2].action_log() == data.actions@ && (
            data.showdown_stacks matches Some(v) ==> games[m - 2].showdown_stacks_error(v@) is None))
    }
}

impl Game {
    /// Replays the recorded actions of `data` on the game set up from it: the
    /// blinds, then the additional posts, then every other action in turn.
    #[verifier::rlimit(100)]
    #[verifier::spinoff_prover]
    fn replay_actions(game: &mut Game, data: &GameData, Ghost(fresh): Ghost<Game>) -> (r: Result<(), PlayError>)
        requires
            old(game).set_up_from(fresh, *data),
            old(game).action_log().len() == 0,
            old(game).replay_index() == 0,
        ensures
            final(game).wf(),
            final(game).keeps_table(*old(game)),
            final(game).replay_index() == final(game).action_log().len(),
            r is Err ==> !Game::log_replays(*data),
            r is Ok && data.actions@.len() == 0 ==> *final(game) == *old(game),
            r is Ok && data.actions@.len() >= 2 ==> exists|start: Game, games: Seq<Game>|
                #![trigger Game::replays_through(start, games, data.actions@, data.actions@.len() as int)]
                start.wf() && start.blinds_posted(*old(game), false) && Game::replays_through(
                    start,
                    games,
                    data.actions@,
                    data.actions@.len() as int,
                ) && games[data.actions@.len() - 2] == *final(game),
    {
        let n = data.actions.len();
        let ghost acts = data.actions@;
        let ghost ok = Game::log_replays(*data);
        let ghost base = *game;
        let ghost g0 = fresh;
        proof {
            game.lemma_keeps_table_refl();
        }
        let ghost mut games: Seq<Game> = Seq::empty();
        let ghost mut start = *game;
        if n > 0 {
            proof {
                assert(base.blinds_ok(false));
            }
            game.post_small_and_big_blind()?;
            proof {
                start = *game;
                games = seq![*game];
            }
            let mut i: usize = 2;
            while i < n
                invariant
                    game.wf(),
                    game.keeps_table(base),
                    game.replay_index() == game.action_log().len(),
                    n == data.actions@.len(),
                    acts == data.actions@,
                    ok == Game::log_replays(*data),
                    base.set_up_from(g0, *data),
                    start.wf(),
                    start.blinds_posted(base, false),
                    2 <= i,
                    n >= 2 ==> i <= n,
                    i <= n ==> Game::replays_through(start, games, acts, i as int) && games[i - 2] == *game,
                    forall|j: int| 2 <= j < i ==> (#[trigger] acts[j]) is Post,
                    base == *old(game),
                ensures
                    i >= n || !(acts[i as int] is Post),
                decreases n - i,
            {
                match data.actions[i] {
                    Action::Post { player, amount, dead } => {
                        proof {
                            assert(Game::posting_at(acts, i as int));
                        }
                        if !game.post_is_defined() {
                            proof {
                                reveal(Game::replay_ok_at);
                                assert(!games[i - 2].replay_ok_at(acts[i as int], true));
                            }
                            return Err(PlayError::UnsupportedState);
                        }
                        let ghost before = *game;
                        match game.additional_post(player, amount, dead) {
                            Ok(()) => {},
                            Err(e) => {
                                proof {
                                    reveal(Game::replay_ok_at);
                                    assert(!games[i - 2].replay_ok_at(acts[i as int], true));
                                }
                                return Err(e);
                            },
                        }
                        proof {
                            Game::lemma_keeps_table_trans(base, before, *game);
                            let next = games.push(*game);
                            assert(before.replay_ok_at(acts[i as int], true)) by {
                                reveal(Game::replay_ok_at);
                            }
                            assert(before.replay_effect(*game, acts[i as int], true)) by {
                                reveal(Game::replay_effect);
                            }
                            assert forall|j: int| 0 <= j < i + 1 - 2 implies (#[trigger] next[j]).replay_ok_at(
                                acts[j + 2],
                                Game::posting_at(acts, j + 2),
                            ) && next[j].replay_effect(next[j + 1], acts[j + 2], Game::posting_at(acts, j + 2)) by {
                                if j < i - 2 {
                                    assert(next[j] == games[j]);
                                    assert(next[j + 1] == games[j + 1]);
                                }
                            }
                            games = next;
                        }
                        i = i + 1;
                    },
                    _ => {
                        break;
                    },
                }
            }
            let ghost i0 = i;
            while i < n
                invariant
                    game.wf(),
                    game.keeps_table(base),
                    game.replay_index() == game.action_log().len(),
                    n == data.actions@.len(),
                    acts == data.actions@,
                    ok == Game::log_replays(*data),
                    base.set_up_from(g0, *data),
                    start.wf(),
                    start.blinds_posted(base, false),
                    2 <= i0 <= i,
                    n >= 2 ==> i <= n,
                    i <= n ==> Game::replays_through(start, games, acts, i as int) && games[i - 2] == *game,
                    i0 < n ==> !(acts[i0 as int] is Post),
                    base == *old(game),
                decreases n - i,
            {
                let a = data.actions[i];
                proof {
                    assert(!Game::posting_at(acts, i as int)) by {
                        assert(!(acts[i0 as int] is Post));
                    }
                }
                let is_raise = match a {
                    Action::Raise { .. } => true,
                    _ => false,
                };
                let is_uncalled = match a {
                    Action::UncalledBet { .. } => true,
                    _ => false,
                };
                if (is_raise && !game.raise_is_defined()) || (is_uncalled && !game.uncalled_is_fitting()) || (
                a.is_street() && !game.deal_is_defined(a)) {
                    proof {
                        reveal(Game::replay_ok_at);
                        assert(!games[i - 2].replay_ok_at(acts[i as int], false));
                    }
                    return Err(PlayError::UnsupportedState);
                }
                let ghost before = *game;
                match game.apply_action(a) {
                    Ok(()) => {},
                    Err(e) => {
                        proof {
                            reveal(Game::replay_ok_at);
                            assert(!games[i - 2].replay_ok_at(acts[i as int], false));
                        }
                        return Err(e);
                    },
                }
                proof {
                    Game::lemma_keeps_table_trans(base, before, *game);
                    let next = games.push(*game);
                    assert(before.replay_ok_at(acts[i as int], false)) by {
                        reveal(Game::replay_ok_at);
                    }
                    assert(before.replay_effect(*game, acts[i as int], false)) by {
                        reveal(Game::replay_effect);
                    }
                    assert forall|j: int| 0 <= j < i + 1 - 2 implies (#[trigger] next[j]).replay_ok_at(
                        acts[j + 2],
                        Game::posting_at(acts, j + 2),
                    ) && next[j].replay_effect(next[j + 1], acts[j + 2], Game::posting_at(acts, j + 2)) by {
                        if j < i - 2 {
                            assert(next[j] == games[j]);
                            assert(next[j + 1] == games[j + 1]);
                        }
                    }
                    games = next;
                }
                i = i + 1;
            }
            proof {
                if n >= 2 {
                    assert(Game::replays_through(start, games, acts, n as int) && games[n - 2] == *game);
                }
            }
        }
        Ok(())
    }
}

impl Game {
    /// What reading `data` back gives: the players, seats, blinds, hero,
    /// table size, log, showdown stacks and extra data stored in it, with the
    /// replay at the end of the log.
    pub open spec fn read_from(self, data: GameData) -> bool {
        &&& self.wf()
        &&& self.holds_players(data.players@)
        &&& self.button_player() == data.button_index
        &&& self.small_blind_amount() == data.small_blind
        &&& self.big_blind_amount() == data.big_blind
        &&& self.hero_of() == data.hero_index
        &&& self.max_players_of() == data.max_players
        &&& self.replay_index() == data.actions@.len()
        &&& self.showdown_matches(data.showdown_stacks)
        &&& self.action_log() == data.actions@
        &&& self.unit_of() == data.unit
        &&& self.location_of() == data.location
        &&& self.table_name_of() == data.table_name
        &&& self.hand_name_of() == data.hand_name
        &&& self.date_of() == data.date
        &&& self.metadata_of() == data.additional_metadata@
    }

    /// Reading a game back from its stored form and storing it again gives
    /// the same stored form: the same players, seats, hands, stacks, blinds,
    /// hero, table size, log, showdown stacks and extra data.
    pub proof fn law_stored_form_read_back(g: Game, d: GameData, back: Game)
        requires
            g.wf(),
            g.describes(d),
            back.read_from(d),
        ensures
            back.describes(d),
            back.action_log() == g.action_log(),
            back.replay_index() == back.action_log().len(),
    {
        assert forall|i: int| 0 <= i < back.pc() implies (#[trigger] d.players@[i]).name == back.name_at(i)
            && d.players@[i].seat == Some(back.seat_at(i)) && d.players@[i].hand == back.hand_at(i)
            && d.players@[i].starting_stack.value() == back.starting(i) by {
            assert(d.players@[i].seat == Some(g.seat_at(i)));
        }
        match d.showdown_stacks {
            Some(v) => {
                assert forall|i: int| 0 <= i < back.pc() implies v@[i] == back.showdown_amount(i) by {
                    assert(back.showdown_stack(i) == v@[i].value());
                }
                let i = choose|i: int| 0 <= i < g.pc() && g.showdown_amount(i).value() != 0;
                assert(v@[i] == g.showdown_amount(i));
                assert(back.showdown_amount(i).value() != 0);
            },
            None => {
                assert forall|i: int| 0 <= i < back.pc() implies back.showdown_amount(i).value() == 0 by {
                    assert(back.showdown_stack(i) == 0);
                }
            },
        }
    }

    /// The game from its stored form: the setup is checked, the actions are
    /// replayed from the blinds on (the additional posts first), the showdown
    /// stacks set and the extra data stored. An action reached where what it
    /// needs is not defined gives `UnsupportedState`.
    #[verifier::loop_isolation(false)]
    #[verifier::rlimit(100)]
    #[verifier::spinoff_prover]
    pub fn from_game_data(data: &GameData) -> (r: Result<Game, PlayError>)
        ensures
            new_game_error(data.players@, data.button_index) matches Some(e) ==> r == Err::<Game, PlayError>(e),
            new_game_error(data.players@, data.button_index) is None && (data.max_players matches Some(m) ==> (
            data.players@.len() <= m <= MAX_PLAYERS)) && (data.hero_index matches Some(h) ==> h.value()
                < data.players@.len()) && data.actions@.len() == 0 && data.showdown_stacks is None ==> r is Ok,
            new_game_error(data.players@, data.button_index) is None && (data.max_players matches Some(m) ==> (
            data.players@.len() <= m <= MAX_PLAYERS)) && (data.hero_index matches Some(h) ==> h.value()
                < data.players@.len()) && Game::log_replays(*data) ==> r is Ok,
            r matches Ok(g) ==> g.read_from(*data),
            r matches Ok(g) ==> data.actions@.len() >= 2 ==> exists|fresh: Game, base: Game, start: Game, games: Seq<Game>|
                #![trigger base.set_up_from(fresh, *data), Game::replays_through(start, games, data.actions@, data.actions@.len() as int)]
                base.set_up_from(fresh, *data) && start.wf() && start.blinds_posted(base, false) && Game::replays_through(
                    start,
                    games,
                    data.actions@,
                    data.actions@.len() as int,
                ) && g.same_betting(games[data.actions@.len() - 2]) && g.dealts() == games[data.actions@.len() - 2].dealts(),
    {
        let mut game = Game::new(data.players.as_slice(), data.button_index, data.small_blind, data.big_blind)?;
        let ghost g0 = game;
        match data.max_players {
            Some(m) => {
                game.set_max_players(m as usize)?;
            },
            None => {},
        }
        match data.hero_index {
            Some(h) => {
                game.set_hero(h)?;
            },
            None => {},
        }
        let ghost base = game;
        assert(base.same_play(g0) && base.same_people(g0));
        assert(base.holds_players(data.players@));
        let n = data.actions.len();
        let ghost acts = data.actions@;
        let ghost ok = Game::log_replays(*data);
        proof {
            assert(base.set_up_from(g0, *data));
        }
        Self::replay_actions(&mut game, data, Ghost(g0))?;
        let ghost chain: (Game, Seq<Game>) = choose|start: Game, games: Seq<Game>|
            #![trigger Game::replays_through(start, games, acts, n as int)]
            start.wf() && start.blinds_posted(base, false) && Game::replays_through(start, games, acts, n as int)
                && games[n - 2] == game;
        let ghost start = chain.0;
        let ghost games = chain.1;
        if game.actions.len() != n {
            proof {
                if ok && n > 0 {
                    assert(games[n - 2].action_log() == acts);
                }
            }
            return Err(PlayError::ActionsMismatch);
        }
        let mut k: usize = 0;
        while k < n
            invariant
                n == data.actions@.len(),
                game.actions@.len() == n,
                k <= n,
                forall|j: int| 0 <= j < k ==> game.actions@[j] == data.actions@[j],
            decreases n - k,
        {
            if !crate::game::actions_equal(&game.actions[k], &data.actions[k]) {
                proof {
                    if ok && n > 0 {
                        assert(games[n - 2].action_log() == acts);
                        assert(game.action_log() == acts);
                    }
                }
                return Err(PlayError::ActionsMismatch);
            }
            k = k + 1;
        }
        proof {
            assert(game.actions@ =~= data.actions@);
        }
        let ghost before_showdown = game;
        assert(game.keeps_table(base));
        assert(game.replay_index() == game.action_log().len());
        match &data.showdown_stacks {
            Some(stacks) => {
                let ghost before = game;
                match game.showdown_stacks(stacks.as_slice()) {
                    Ok(()) => {},
                    Err(e) => {
                        proof {
                            if ok {
                                if n > 0 {
                                    assert(games[n - 2] == before);
                                    assert(before.showdown_stacks_error(stacks@) is None);
                                } else {
                                    assert(before == base);
                                    assert(base.showdown_stacks_error(stacks@) is None);
                                }
                            }
                        }
                        return Err(e);
                    },
                }
                assert(forall|p: int| 0 <= p < game.pc() ==> game.showdown_stack(p) == stacks@[p].value());
                assert(game.showdown_matches(data.showdown_stacks));
            },
            None => {
                assert(game.showdown_stacks@ == base.showdown_stacks@);
                assert(base.showdown_stacks@ == g0.showdown_stacks@);
                assert(forall|p: int| 0 <= p < 10 ==> game.showdown_stack(p) == g0.showdown_stack(p));
                assert(forall|p: int| 0 <= p < 10 ==> game.showdown_stack(p) == 0);
                assert(game.showdown_matches(data.showdown_stacks));
            },
        }
        let ghost g = game;
        assert(base.holds_players(data.players@));
        assert(game.same_table(base));
        assert(game.holds_players(data.players@));
        assert(game.button_player() == data.button_index);
        assert(game.hero_of() == data.hero_index);
        assert(game.max_players_of() == data.max_players);
        assert(game.replay_index() == data.actions@.len());
        game.unit = Self::clone_opt_string(&data.unit);
        game.location = Self::clone_opt_string(&data.location);
        game.table_name = Self::clone_opt_string(&data.table_name);
        game.hand_name = Self::clone_opt_string(&data.hand_name);
        game.date = data.date;
        game.additional_metadata = copy_metadata(&data.additional_metadata);
        proof {
            Game::lemma_wf_same_play(g, game);
            assert(game.holds_players(data.players@));
            assert(game.replay_index() == data.actions@.len());
            assert(game.hero_of() == data.hero_index);
            assert(game.max_players_of() == data.max_players);
            Game::lemma_showdown_matches_same(g, game, data.showdown_stacks);
            if n >= 2 {
                assert(g.same_betting(games[n - 2]) && g.dealts() == games[n - 2].dealts());
                assert(game.same_betting(games[n - 2]) && game.dealts() == games[n - 2].dealts());
                assert(base.set_up_from(g0, *data) && start.wf() && start.blinds_posted(base, false)
                    && Game::replays_through(start, games, acts, n as int));
            }
        }
        Ok(game)
    }
}

/// What the replay shows at one position: the state and the betting options.
#[derive(Clone, Copy, Debug)]
pub struct GameValidationEntry {
    pub state: State,
    pub check: bool,
    pub call: Option<Amount>,
    pub bet: Option<Amount>,
    pub raise: Option<(Amount, Amount)>,
}

/// The stored form of a game with what its replay shows at every position.
#[derive(Clone, Debug)]
pub struct GameValidationData {
    pub game: GameData,
    pub validations: Vec<GameValidationEntry>,
}

impl Game {
    /// The recorded action the replay stands before.
    pub closed spec fn pending_action(self) -> Action {
        self.actions@[self.current_action_index as int]
    }

    /// Whether the recorded action the replay stands before can be replayed
    /// in this state (a post is replayed together with the blinds, a
    /// straddle only after them).
    pub closed spec fn replay_step_ok(self) -> bool {
        match self.pending_action() {
            Action::Post { .. } => false,
            Action::Straddle { .. } => false,
            Action::Fold(_) => self.fold_ok(true),
            Action::Check(_) => self.check_ok(true),
            Action::Call { .. } => self.call_ok(true),
            Action::Bet { amount, .. } => self.bet_ok(true, amount),
            Action::Raise { to, .. } => self.raise_defined() && self.raise_ok(true, to, true),
            Action::Flop(_) | Action::Turn(_) | Action::River(_) => self.deal_defined(true, self.pending_action())
                && self.deal_ok(true, self.pending_action()),
            Action::UncalledBet { .. } => self.uncalled_fits() && self.uncalled_ok(true),
            Action::Shows { .. } => self.show_ok(true),
            Action::MucksOrUnknown(_) => self.muck_ok(true),
        }
    }

    /// What replaying the pending action makes of the game: the effect of
    /// the step it stands for (posts and straddles are replayed with the
    /// blinds).
    pub open spec fn replay_step_effect(self, next: Game) -> bool {
        match self.pending_action() {
            Action::Post { .. } => false,
            Action::Straddle { .. } => false,
            Action::Fold(_) => self.fold_effect(next, true),
            Action::Check(_) => self.check_effect(next, true),
            Action::Call { .. } => self.call_effect(next, true),
            Action::Bet { amount, .. } => self.bet_effect(next, true, amount),
            Action::Raise { to, .. } => self.raise_effect(next, true, to),
            Action::Flop(_) | Action::Turn(_) | Action::River(_) => self.deal_effect(next, true, self.pending_action()),
            Action::UncalledBet { .. } => self.uncalled_effect(next, true),
            Action::Shows { .. } => self.show_effect(next, true),
            Action::MucksOrUnknown(_) => self.muck_effect(next, true),
        }
    }

    /// `next` is the game with the end of the hand marked and nothing else
    /// changed.
    pub closed spec fn end_marked(self, next: Game) -> bool {
        next == Game { at_end: true, ..self }
    }

    /// The replay cannot step on: nothing is left to replay, the end of a
    /// hand with no action is not marked, or the pending action is a post
    /// (whose replay with the blinds failed) or cannot be replayed.
    pub closed spec fn replay_blocked(self) -> bool {
        ||| !self.can_next_spec()
        ||| (self.at_final_action() && self.replay_index() == 0)
        ||| (!self.at_final_action() && (self.pending_action() is Post || !self.replay_step_ok()))
    }

    /// Replays the blinds, then the additional posts and straddles recorded after them.
    fn next_posts_straddles(&mut self) -> (r: Result<(), PlayError>)
        requires
            old(self).wf(),
        ensures
            final(self).wf(),
            final(self).action_log() == old(self).action_log(),
            r is Ok ==> final(self).replay_index() > old(self).replay_index(),
            !old(self).blinds_ok(true) ==> r is Err && *final(self) == *old(self),
            old(self).blinds_ok(true) && (old(self).action_log().len() == 2 || !(old(self).action_log()[2] is Post
                || old(self).action_log()[2] is Straddle)) ==> r is Ok && final(self).replay_index() == 2,
            r is Ok ==> final(self).replay_index() >= 2 && (final(self).at_final_action() || !(
            final(self).pending_action() is Post || final(self).pending_action() is Straddle)),
            r is Err ==> *final(self) == *old(self) || (!final(self).at_final_action() && (
            final(self).pending_action() is Post || final(self).pending_action() is Straddle)),
            final(self).replay_index() >= old(self).replay_index(),
    {
        self.blinds_step(true)?;
        while self.current_action_index < self.actions.len()
            invariant
                self.wf(),
                self.action_log() == old(self).action_log(),
                self.replay_index() >= 2,
                old(self).replay_index() == 0,
                old(self).blinds_ok(true),
                self.replay_index() > 2 ==> (old(self).action_log()[2] is Post || old(self).action_log()[2] is Straddle),
            ensures
                self.wf(),
                self.action_log() == old(self).action_log(),
                self.replay_index() >= 2,
                self.replay_index() > 2 ==> (old(self).action_log()[2] is Post || old(self).action_log()[2] is Straddle),
                self.at_final_action() || !(self.pending_action() is Post || self.pending_action() is Straddle),
            decreases self.actions@.len() - self.current_action_index,
        {
            match self.actions[self.current_action_index] {
                Action::Post { player, amount, dead } => {
                    if !self.post_is_defined() {
                        return Err(PlayError::UnsupportedState);
                    }
                    self.additional_post_step(true, player, amount, dead)?;
                },
                Action::Straddle { player, amount } => {
                    self.straddle_step(true, player, amount)?;
                },
                _ => {
                    break;
                },
            }
        }
        Ok(())
    }

    /// Replays the next recorded action, or marks the end of a hand whose
    /// showdown stacks are set. `false` when there is nothing to replay, and
    /// when the recorded action cannot be replayed in this state (the replay
    /// then stays as far as it got).
    pub fn next(&mut self) -> (r: bool)
        requires
            old(self).wf(),
        ensures
            final(self).wf(),
            final(self).action_log() == old(self).action_log(),
            !old(self).can_next_spec() ==> !r && *final(self) == *old(self),
            r ==> final(self).replay_index() > old(self).replay_index() || (final(self).replay_index()
                == old(self).replay_index() && !old(self).ended() && final(self).ended()),
            old(self).can_next_spec() && old(self).at_final_action() ==> (r <==> old(self).replay_index() > 0)
                && (r ==> final(self).ended() && final(self).replay_index() == old(self).replay_index()
                && old(self).end_marked(*final(self))),
            old(self).can_next_spec() && !old(self).at_final_action() && !(old(self).pending_action() is Post) && r
                ==> old(self).replay_step_effect(*final(self)),
            old(self).can_next_spec() && !old(self).at_final_action() && !(old(self).pending_action() is Post) ==> (r
                <==> old(self).replay_step_ok()) && (!r ==> *final(self) == *old(self)),
            old(self).can_next_spec() && !old(self).at_final_action() && old(self).pending_action() is Post ==> ((
            !old(self).blinds_ok(true) ==> !r) && (r ==> final(self).replay_index() >= 2 && (
            final(self).at_final_action() || !(final(self).pending_action() is Post
                || final(self).pending_action() is Straddle)))),
            !r ==> final(self).replay_blocked(),
            final(self).replay_index() >= old(self).replay_index(),
    {
        if !self.can_next() {
            return false;
        }
        let at_final = self.current_action_index == self.actions.len();
        match self.state() {
            State::ShowdownOrNextRunout => {
                if at_final {
                    if self.current_action_index == 0 {
                        return false;
                    }
                    let ghost g = *self;
                    self.at_end = true;
                    proof {
                        Self::lemma_wf_end(g, *self);
                    }
                    return true;
                }
            },
            _ => {},
        }
        if at_final {
            return false;
        }
        let action = self.actions[self.current_action_index];
        let ok = match action {
            Action::Post { .. } => self.next_posts_straddles().is_ok(),
            Action::Straddle { .. } => false,
            Action::Fold(_) => self.fold_step(true).is_ok(),
            Action::Check(_) => self.check_step(true).is_ok(),
            Action::Call { .. } => self.call_step(true).is_ok(),
            Action::Bet { amount, .. } => self.bet_step(true, amount).is_ok(),
            Action::Raise { to, .. } => self.raise_is_defined() && self.raise_to_step(true, to, true).is_ok(),
            Action::Flop(_) | Action::Turn(_) | Action::River(_) => self.deal_defined_check(true, action)
                && self.deal_step(true, action).is_ok(),
            Action::UncalledBet { .. } => self.uncalled_is_fitting() && self.uncalled_bet_step(true).is_ok(),
            Action::Shows { .. } => self.show_hand_step(true).is_ok(),
            Action::MucksOrUnknown(_) => self.muck_hand_step(true).is_ok(),
        };
        ok
    }

    /// How far the replay is from its end: two for each recorded action not
    /// yet replayed, and one while the end of the hand is not marked.
    pub closed spec fn replay_remaining(self) -> int {
        2 * (self.action_log().len() - self.replay_index()) + if self.ended() {
            0int
        } else {
            1int
        }
    }

    /// Replays every recorded action that can be replayed.
    pub fn forward(&mut self)
        requires
            old(self).wf(),
        ensures
            final(self).wf(),
            final(self).action_log() == old(self).action_log(),
            final(self).replay_index() >= old(self).replay_index(),
            final(self).replay_blocked(),
    {
        loop
            invariant
                self.wf(),
                self.action_log() == old(self).action_log(),
                self.replay_index() >= old(self).replay_index(),
            ensures
                self.wf(),
                self.action_log() == old(self).action_log(),
                self.replay_index() >= old(self).replay_index(),
                self.replay_blocked(),
            decreases self.replay_remaining(),
        {
            if !self.next() {
                break;
            }
        }
    }

    /// The state and the betting options at the current position.
    pub fn validation_entry(&self) -> (e: GameValidationEntry)
        requires
            self.wf(),
            self.raise_defined(),
        ensures
            e.state == self.state_spec(),
            e.check == (self.player_now() matches Some(p) && self.to_call(p.value()) == 0),
            match self.raise_spec() {
                None => e.raise is None,
                Some((a, t)) => e.raise == Some((Amount(a as u32), Amount(t as u32))),
            },
    {
        GameValidationEntry {
            state: self.state(),
            check: self.can_check(),
            call: self.can_call(),
            bet: self.can_bet(),
            raise: self.can_raise(),
        }
    }

    /// The stored form of the game, with what the replay shows at every
    /// position from the start on; the game ends replayed as far as it goes.
    pub fn to_validation_data(&mut self) -> (v: Result<GameValidationData, PlayError>)
        requires
            old(self).wf(),
        ensures
            final(self).wf(),
            final(self).action_log() == old(self).action_log(),
            match v {
                Ok(data) => old(self).describes(data.game) && data.validations@.len() >= 1,
                Err(e) => e == PlayError::UnsupportedState,
            },
    {
        let game = self.to_game_data();
        self.rewind();
        let mut validations: Vec<GameValidationEntry> = Vec::new();
        loop
            invariant
                self.wf(),
                self.action_log() == old(self).action_log(),
                old(self).describes(game),
            ensures
                validations@.len() >= 1,
            decreases self.replay_remaining(),
        {
            if !self.raise_is_defined() {
                return Err(PlayError::UnsupportedState);
            }
            validations.push(self.validation_entry());
            if !self.next() {
                break;
            }
        }
        Ok(GameValidationData { game, validations })
    }
}


impl Game {
    /// The scan for the start of a further runout, which dealing in the
    /// showdown of an all-in hand needs, ends well: a deal that ends the
    /// recorded actions is the river.
    pub closed spec fn deal_scan_ok(self) -> bool {
        (self.state_spec() is ShowdownOrNextRunout && self.current_board < 3 && self.all_in_terminated())
            ==> runout_scan_ok(self.actions@, 0)
    }

    /// Every card that is not known is among `drawn`.
    pub closed spec fn unknown_within(self, drawn: Seq<Card>) -> bool {
        forall|c: Card| !self.known_seq().contains(c) ==> #[trigger] drawn.contains(c)
    }

    /// `a` deals the street to be dealt next with distinct cards, none of
    /// them known.
    pub closed spec fn fresh_deal(self, a: Action) -> bool {
        &&& self.deal_plan() is Some
        &&& action_street(a) == Some(self.deal_plan()->Some_0.0)
        &&& action_cards(a).no_duplicates()
        &&& forall|c: Card| #[trigger] action_cards(a).contains(c) ==> !self.known_seq().contains(c)
    }

    /// Draws the cards of the street to be dealt next from the cards that are
    /// not known yet, and deals them. It fails when the runout scan fails,
    /// when no street can be dealt, when a card is known twice, when fewer
    /// cards are unknown than the street needs, and else only when the drawn
    /// deal cannot be made, which some deal of unknown cards then shows.
    pub fn draw_next_street(&mut self, rng: &mut ThreadRng) -> (r: Result<(), PlayError>)
        requires
            old(self).wf(),
            old(self).cards_defined(),
        ensures
            final(self).wf(),
            r is Err ==> *final(self) == *old(self),
            !old(self).deal_scan_ok() ==> r == Err::<(), PlayError>(PlayError::UnsupportedState),
            old(self).deal_scan_ok() && old(self).deal_plan() is None ==> r == Err::<(), PlayError>(PlayError::WrongState),
            old(self).deal_scan_ok() && old(self).deal_plan() is Some && crate::card::has_duplicate(old(self).known_seq())
                ==> r == Err::<(), PlayError>(PlayError::DuplicateCard),
            r == Err::<(), PlayError>(PlayError::NoCardsLeft) ==> old(self).deal_plan() is Some && exists|drawn: Seq<Card>|
                drawn.len() < action_street_size(old(self).deal_plan()->Some_0.0) && #[trigger] old(self).unknown_within(drawn),
            old(self).deal_scan_ok() && old(self).deal_plan() is Some && !crate::card::has_duplicate(old(self).known_seq())
                && r is Err && r != Err::<(), PlayError>(PlayError::NoCardsLeft) ==> exists|a: Action|
                #[trigger] old(self).fresh_deal(a) && !(old(self).deal_defined(false, a) && old(self).deal_ok(false, a)),
            r is Ok ==> ({
                let a = final(self).action_log().last();
                let nr = old(self).deal_plan()->Some_0.1;
                &&& old(self).deal_ok(false, a)
                &&& old(self).fresh_deal(a)
                &&& final(self).action_log() == old(self).action_log().push(a)
                &&& final(self).dealts() == old(self).dealt_after(a, nr)
                &&& final(self).board_index() == old(self).board_after(nr)
            }),
    {
        let scan_needed = match self.state() {
            State::ShowdownOrNextRunout => self.current_board < 3 && self.all_in_terminated_hand(),
            _ => false,
        };
        if scan_needed && !self.runout_scan_ok_exec() {
            return Err(PlayError::UnsupportedState);
        }
        let street = match self.deal_plan_exec() {
            Some((s, _)) => s,
            None => {
                return Err(PlayError::WrongState);
            },
        };
        let known = match self.known_cards() {
            Some(k) => k,
            None => {
                return Err(PlayError::DuplicateCard);
            },
        };
        let mut deck = Deck::from_cards(rng, known);
        let ghost fresh = deck.all_cards();
        let first = match deck.draw(rng) {
            Some(c) => c,
            None => {
                proof {
                    let drawn = Seq::<Card>::empty();
                    assert forall|c: Card| !self.known_seq().contains(c) implies #[trigger] drawn.contains(c) by {
                        assert(!known.contains(c));
                        assert(fresh.contains(c));
                    }
                    assert(self.unknown_within(drawn));
                }
                return Err(PlayError::NoCardsLeft);
            },
        };
        let action = match street {
            Street::Flop => {
                let second = match deck.draw(rng) {
                    Some(c) => c,
                    None => {
                        proof {
                            let drawn = seq![first];
                            assert forall|c: Card| !self.known_seq().contains(c) implies #[trigger] drawn.contains(c) by {
                                assert(!known.contains(c));
                                assert(fresh.contains(c));
                                if c != first {
                                    assert(fresh.remove(first).contains(c));
                                }
                                assert(drawn[0] == first);
                            }
                            assert(self.unknown_within(drawn));
                        }
                        return Err(PlayError::NoCardsLeft);
                    },
                };
                let third = match deck.draw(rng) {
                    Some(c) => c,
                    None => {
                        proof {
                            let drawn = seq![first, second];
                            assert forall|c: Card| !self.known_seq().contains(c) implies #[trigger] drawn.contains(c) by {
                                assert(!known.contains(c));
                                assert(fresh.contains(c));
                                if c != first && c != second {
                                    assert(fresh.remove(first).remove(second).contains(c));
                                }
                                assert(drawn[0] == first);
                                assert(drawn[1] == second);
                            }
                            assert(self.unknown_within(drawn));
                        }
                        return Err(PlayError::NoCardsLeft);
                    },
                };
                Action::Flop([first, second, third])
            },
            Street::Turn => Action::Turn(first),
            Street::River => Action::River(first),
            Street::PreFlop => {
                return Err(PlayError::WrongState);
            },
        };
        proof {
            assert forall|c: Card| #[trigger] action_cards(action).contains(c) implies !self.known_seq().contains(
                c,
            ) by {
                let i = action_cards(action).index_of(c);
                assert(action_cards(action)[i] == c);
                assert(fresh.contains(c));
                assert(!known.contains(c));
            }
            if let Action::Flop(f) = action {
                assert(f@ =~= seq![f[0], f[1], f[2]]);
            }
            assert(action_cards(action).no_duplicates());
            assert(self.fresh_deal(action));
        }
        if !self.deal_defined_check(false, action) {
            return Err(PlayError::UnsupportedState);
        }
        let r = self.deal_step(false, action);
        proof {
            if r is Ok {
                assert(self.action_log().last() == action);
            }
        }
        r
    }

    /// How many players have no hand.
    pub closed spec fn missing_hand_count(self) -> int {
        missing_hands(self.hands@, self.pc())
    }

    /// Gives every player whose hand is not known a hand drawn from the
    /// cards that are not known yet. It fails only when a card is known
    /// twice, or when fewer cards are unknown than the missing hands need.
    pub fn draw_unset_hands(&mut self, rng: &mut ThreadRng) -> (r: Result<(), PlayError>)
        requires
            old(self).wf(),
            old(self).cards_defined(),
        ensures
            final(self).wf(),
            final(self).cards_defined(),
            final(self).same_betting(*old(self)),
            final(self).action_log() == old(self).action_log(),
            final(self).replay_index() == old(self).replay_index(),
            forall|q: int| 0 <= q < 10 && old(self).hand_at(q) is Some ==> final(self).hand_at(q) == old(self).hand_at(q),
            r is Ok ==> forall|q: int| 0 <= q < old(self).pc() ==> #[trigger] final(self).hand_at(q) is Some,
            r is Ok ==> !crate::card::has_duplicate(final(self).known_seq()),
            crate::card::has_duplicate(old(self).known_seq()) ==> r == Err::<(), PlayError>(PlayError::DuplicateCard)
                && *final(self) == *old(self),
            !crate::card::has_duplicate(old(self).known_seq()) && r is Err ==> r == Err::<(), PlayError>(
                PlayError::NoCardsLeft,
            ) && exists|drawn: Seq<Card>|
                drawn.len() < 2 * old(self).missing_hand_count() && #[trigger] old(self).unknown_within(drawn),
    {
        let known = match self.known_cards() {
            Some(k) => k,
            None => {
                return Err(PlayError::DuplicateCard);
            },
        };
        let mut deck = Deck::from_cards(rng, known);
        let n = self.player_count as usize;
        let ghost mut drawn: Seq<Card> = Seq::empty();
        proof {
            assert forall|c: Card| deck.remaining().contains(c) implies !self.known_seq().contains(c) by {
                assert(!known.contains(c));
            }
            assert forall|c: Card| !self.known_seq().contains(c) implies drawn.contains(c) || deck.remaining().contains(c) by {
                assert(!known.contains(c));
            }
        }
        let mut p: usize = 0;
        while p < n
            invariant
                self.wf(),
                old(self).wf(),
                self.cards_defined(),
                deck.wf(),
                n == self.pc(),
                n == old(self).pc(),
                n <= 10,
                p <= n,
                self.same_betting(*old(self)),
                self.action_log() == old(self).action_log(),
                self.replay_index() == old(self).replay_index(),
                forall|q: int| 0 <= q < 10 && old(self).hand_at(q) is Some ==> self.hand_at(q) == old(self).hand_at(q),
                forall|q: int| p <= q < 10 ==> self.hand_at(q) == old(self).hand_at(q),
                forall|q: int| 0 <= q < p ==> #[trigger] self.hand_at(q) is Some,
                !crate::card::has_duplicate(self.known_seq()),
                !crate::card::has_duplicate(old(self).known_seq()),
                drawn.len() == 2 * missing_hands(old(self).hands@, p as int),
                forall|c: Card| #[trigger] deck.remaining().contains(c) ==> !self.known_seq().contains(c),
                forall|c: Card|
                    !old(self).known_seq().contains(c) ==> #[trigger] drawn.contains(c) || deck.remaining().contains(c),
            decreases n - p,
        {
            proof {
                assert(self.hand_at(p as int) == old(self).hand_at(p as int));
                assert(old(self).hands@[p as int] == self.hands@[p as int]);
            }
            if self.hands[p].is_none() {
                let ghost before = deck;
                let h = match deck.hand(rng) {
                    Some(h) => h,
                    None => {
                        proof {
                            before.lemma_remaining_list();
                            let w = drawn + before.remaining_list();
                            assert forall|c: Card| !old(self).known_seq().contains(c) implies #[trigger] w.contains(c) by {
                                if drawn.contains(c) {
                                    let k = choose|k: int| 0 <= k < drawn.len() && drawn[k] == c;
                                    assert(w[k] == c);
                                } else {
                                    assert(before.remaining().contains(c));
                                    let k = choose|k: int|
                                        0 <= k < before.remaining_list().len() && before.remaining_list()[k] == c;
                                    assert(w[drawn.len() + k] == c);
                                }
                            }
                            assert(old(self).unknown_within(w));
                            lemma_missing_hands_grow(old(self).hands@, p as int + 1, n as int);
                            assert(old(self).hands@[p as int] is None);
                        }
                        return Err(PlayError::NoCardsLeft);
                    },
                };
                let ghost g = *self;
                proof {
                    g.lemma_known_with_hand(p as int, h);
                    assert(!g.known_seq().contains(h.0));
                    assert(!g.known_seq().contains(h.1));
                    lemma_add_two_fresh(g.known_seq(), g.known_with_hand(p as int, h), h.0, h.1);
                }
                self.set_hand(Player(p as u8), h)?;
                proof {
                    broadcast use vstd::multiset::group_multiset_axioms;

                    let ghost old_drawn = drawn;
                    drawn = drawn.push(h.0).push(h.1);
                    assert forall|c: Card| #[trigger] deck.remaining().contains(c) implies !self.known_seq().contains(c) by {
                        vstd::seq_lib::to_multiset_contains(self.known_seq(), c);
                        vstd::seq_lib::to_multiset_contains(g.known_seq(), c);
                    }
                    assert forall|c: Card| !old(self).known_seq().contains(c) implies #[trigger] drawn.contains(c)
                        || deck.remaining().contains(c) by {
                        if old_drawn.contains(c) {
                            let k = choose|k: int| 0 <= k < old_drawn.len() && old_drawn[k] == c;
                            assert(drawn[k] == c);
                        } else if c == h.0 {
                            assert(drawn[old_drawn.len() as int] == c);
                        } else if c == h.1 {
                            assert(drawn[old_drawn.len() as int + 1] == c);
                        }
                    }
                }
            }
            p = p + 1;
        }
        Ok(())
    }
}

/// Counting the players without a hand over more players gives no fewer.
proof fn lemma_missing_hands_grow(hands: Seq<Option<Hand>>, m: int, n: int)
    requires
        0 <= m <= n,
    ensures
        missing_hands(hands, m) <= missing_hands(hands, n),
    decreases n - m,
{
    if m < n {
        lemma_missing_hands_grow(hands, m, n - 1);
    }
}

} // verus!
