use vstd::prelude::*;

use crate::card::{Card, Cards};
use crate::card_selector::CardSelector;
use crate::game::{button_offset, position_label, Amount, Player, MAX_PLAYERS, MIN_PLAYERS};
use crate::hand::Hand;
use crate::play::{Game, GameData, PlayError, PlayerData, new_game_error};

verus! {

/// A player of the game being set up, with the index of the program that
/// plays for it, if one does.
#[derive(Clone, Debug)]
pub struct GameBuilderPlayer {
    pub player: PlayerData,
    pub action_generator: Option<usize>,
}

/// A game that was set up, its players and whether the community cards are
/// picked by hand.
pub struct GameBuilderConfig {
    pub game: Game,
    pub players: Vec<GameBuilderPlayer>,
    pub pick_community_cards: bool,
}

/// The state of the form that sets up a game: the players with their stacks,
/// hands and programs, the button and the blinds. Edits of the player list
/// that the form requests during one pass are applied together at its end.
pub struct GameBuilder {
    players: Vec<GameBuilderPlayer>,
    button_index: u8,
    small_blind: Amount,
    big_blind: Amount,
    hand_selector: CardSelector,
    hand_selector_for: Option<usize>,
    player_action_generators: Vec<String>,
    default_player_action_generator: Option<usize>,
    pick_community_cards: bool,
    remove_hand: Option<usize>,
    remove_player: Option<usize>,
    swap_players: Option<(usize, usize)>,
}

/// The short name shown for the player at `index`: its position when the
/// table and the button allow one, else `Player`.
pub open spec fn seat_label(count: int, button: int, index: int) -> &'static str {
    if MIN_PLAYERS <= count <= MAX_PLAYERS && 0 <= button < count && 0 <= index < count {
        position_label(count, button_offset(count, button, index)).0
    } else {
        "Player"
    }
}

/// Whether `c` is one of the cards of `h`.
pub open spec fn hand_holds(h: Option<Hand>, c: Card) -> bool {
    h matches Some(x) && (x.0 == c || x.1 == c)
}

/// The player `p` with another hand.
pub open spec fn with_hand(p: GameBuilderPlayer, hand: Option<Hand>) -> GameBuilderPlayer {
    GameBuilderPlayer { player: PlayerData { hand, ..p.player }, ..p }
}

/// The setup data of each player of `players`.
pub open spec fn roster_data(players: Seq<GameBuilderPlayer>) -> Seq<PlayerData> {
    Seq::new(players.len(), |i: int| players[i].player)
}

/// The player `p` with another starting stack.
pub open spec fn with_stack(p: GameBuilderPlayer, stack: Amount) -> GameBuilderPlayer {
    GameBuilderPlayer { player: PlayerData { starting_stack: stack, ..p.player }, ..p }
}

/// The player list and the button once a requested hand removal is applied.
pub open spec fn hand_removed(players: Seq<GameBuilderPlayer>, r: Option<usize>) -> Seq<GameBuilderPlayer> {
    match r {
        Some(i) => if i < players.len() {
            players.update(i as int, with_hand(players[i as int], None))
        } else {
            players
        },
        None => players,
    }
}

/// The player list and the button once a requested player removal is
/// applied; a table keeps at least two players, and removing the button's
/// player moves the button to the first player.
pub open spec fn player_removed(players: Seq<GameBuilderPlayer>, button: int, r: Option<usize>) -> (
    Seq<GameBuilderPlayer>,
    int,
) {
    match r {
        Some(i) => if i < players.len() && players.len() > MIN_PLAYERS {
            (players.remove(i as int), if i == button {
                0
            } else {
                button
            })
        } else {
            (players, button)
        },
        None => (players, button),
    }
}

/// The player list and the button once a requested swap of two players is
/// applied; the button follows its player.
pub open spec fn players_swapped(players: Seq<GameBuilderPlayer>, button: int, r: Option<(usize, usize)>) -> (
    Seq<GameBuilderPlayer>,
    int,
) {
    match r {
        Some((a, b)) => if a < players.len() && b < players.len() {
            (players.update(a as int, players[b as int]).update(b as int, players[a as int]), if button == a {
                b as int
            } else if button == b {
                a as int
            } else {
                button
            })
        } else {
            (players, button)
        },
        None => (players, button),
    }
}

fn copy_player_data(p: &PlayerData) -> (r: PlayerData)
    ensures
        r == *p,
{
    let name = match &p.name {
        Some(n) => Some(n.clone()),
        None => None,
    };
    PlayerData { name, seat: p.seat, hand: p.hand, starting_stack: p.starting_stack }
}

fn copy_builder_player(p: &GameBuilderPlayer) -> (r: GameBuilderPlayer)
    ensures
        r == *p,
{
    GameBuilderPlayer { player: copy_player_data(&p.player), action_generator: p.action_generator }
}

impl GameBuilder {
    /// Between two and ten players; the hand selector picks exactly two cards
    /// and, while it is open, picks for one of the players.
    pub closed spec fn wf(self) -> bool {
        &&& MIN_PLAYERS <= self.players@.len() <= MAX_PLAYERS
        &&& self.hand_selector.wf()
        &&& self.hand_selector.min_cards() == 2
        &&& self.hand_selector.max_cards() == 2
        &&& self.hand_selector_for matches Some(i) ==> i < self.players@.len()
    }

    pub closed spec fn roster(self) -> Seq<GameBuilderPlayer> {
        self.players@
    }

    pub closed spec fn button(self) -> int {
        self.button_index as int
    }

    pub closed spec fn small_blind_amount(self) -> Amount {
        self.small_blind
    }

    pub closed spec fn big_blind_amount(self) -> Amount {
        self.big_blind
    }

    /// The player whose hand is being picked, if any.
    pub closed spec fn selecting(self) -> Option<usize> {
        self.hand_selector_for
    }

    pub closed spec fn selector(self) -> CardSelector {
        self.hand_selector
    }

    pub closed spec fn picks_community_cards(self) -> bool {
        self.pick_community_cards
    }

    pub closed spec fn generator_names(self) -> Seq<String> {
        self.player_action_generators@
    }

    pub closed spec fn default_generator(self) -> Option<usize> {
        self.default_player_action_generator
    }

    pub closed spec fn pending_hand_removal(self) -> Option<usize> {
        self.remove_hand
    }

    pub closed spec fn pending_player_removal(self) -> Option<usize> {
        self.remove_player
    }

    pub closed spec fn pending_swap(self) -> Option<(usize, usize)> {
        self.swap_players
    }

    /// Everything but the players and the button is the same.
    pub closed spec fn same_settings(self, other: GameBuilder) -> bool {
        &&& self.small_blind == other.small_blind
        &&& self.big_blind == other.big_blind
        &&& self.hand_selector == other.hand_selector
        &&& self.hand_selector_for == other.hand_selector_for
        &&& self.player_action_generators@ == other.player_action_generators@
        &&& self.default_player_action_generator == other.default_player_action_generator
        &&& self.pick_community_cards == other.pick_community_cards
        &&& self.remove_hand == other.remove_hand
        &&& self.remove_player == other.remove_player
        &&& self.swap_players == other.swap_players
    }

    /// The form for the default game: six players with 1 000 chips each,
    /// the first on the button, blinds of 5 and 10, every player played by
    /// the default program.
    pub fn new(player_action_generators: Vec<String>, default_player_action_generator: Option<usize>) -> (b:
        GameBuilder)
        ensures
            b.wf(),
            b.roster().len() == 6,
            forall|i: int|
                0 <= i < 6 ==> (#[trigger] b.roster()[i]).player.name is None && b.roster()[i].player.seat is None
                    && b.roster()[i].player.hand is None && b.roster()[i].player.starting_stack == Amount(1000)
                    && b.roster()[i].action_generator == default_player_action_generator,
            b.button() == 0,
            b.small_blind_amount() == Amount(5),
            b.big_blind_amount() == Amount(10),
            b.selecting() is None,
            b.selector().picked().len() == 0,
            !b.picks_community_cards(),
            b.generator_names() == player_action_generators@,
            b.default_generator() == default_player_action_generator,
            b.pending_hand_removal() is None,
            b.pending_player_removal() is None,
            b.pending_swap() is None,
    {
        let mut hand_selector = CardSelector::new();
        hand_selector.set_min_max(2, 2);
        let data = GameData::default();
        let mut players: Vec<GameBuilderPlayer> = Vec::new();
        let mut i: usize = 0;
        while i < data.players.len()
            invariant
                data.players@.len() == 6,
                forall|k: int|
                    0 <= k < 6 ==> (#[trigger] data.players@[k]).name is None && data.players@[k].seat is None
                        && data.players@[k].hand is None && data.players@[k].starting_stack == Amount(1000),
                i <= 6,
                players@.len() == i,
                forall|k: int|
                    0 <= k < i ==> #[trigger] players@[k] == (GameBuilderPlayer {
                        player: data.players@[k],
                        action_generator: default_player_action_generator,
                    }),
            decreases 6 - i,
        {
            players.push(
                GameBuilderPlayer {
                    player: copy_player_data(&data.players[i]),
                    action_generator: default_player_action_generator,
                },
            );
            i = i + 1;
        }
        GameBuilder {
            players,
            button_index: data.button_index.0,
            small_blind: data.small_blind,
            big_blind: data.big_blind,
            hand_selector,
            hand_selector_for: None,
            player_action_generators,
            default_player_action_generator,
            pick_community_cards: false,
            remove_hand: None,
            remove_player: None,
            swap_players: None,
        }
    }

    /// The players as they stand.
    pub fn players(&self) -> (v: &Vec<GameBuilderPlayer>)
        ensures
            v@ == self.roster(),
    {
        &self.players
    }

    /// The index of the player on the button.
    pub fn button_index(&self) -> (b: u8)
        ensures
            b == self.button(),
    {
        self.button_index
    }

    /// Forgets the edits requested in the previous pass of the form.
    pub fn view_reset(&mut self)
        requires
            old(self).wf(),
        ensures
            final(self).wf(),
            final(self).roster() == old(self).roster(),
            final(self).button() == old(self).button(),
            final(self).pending_hand_removal() is None,
            final(self).pending_player_removal() is None,
            final(self).pending_swap() is None,
            final(self).selecting() == old(self).selecting(),
            final(self).selector() == old(self).selector(),
    {
        self.remove_hand = None;
        self.remove_player = None;
        self.swap_players = None;
    }

    /// Sets the blinds.
    pub fn set_blinds(&mut self, small_blind: Amount, big_blind: Amount)
        requires
            old(self).wf(),
        ensures
            final(self).wf(),
            final(self).roster() == old(self).roster(),
            final(self).button() == old(self).button(),
            final(self).small_blind_amount() == small_blind,
            final(self).big_blind_amount() == big_blind,
            final(self).selecting() == old(self).selecting(),
    {
        self.small_blind = small_blind;
        self.big_blind = big_blind;
    }

    /// Chooses whether the community cards are picked by hand.
    pub fn set_pick_community_cards(&mut self, pick: bool)
        requires
            old(self).wf(),
        ensures
            final(self).wf(),
            final(self).roster() == old(self).roster(),
            final(self).picks_community_cards() == pick,
    {
        self.pick_community_cards = pick;
    }

    /// Puts the button on the player at `index`.
    pub fn set_button(&mut self, index: u8)
        requires
            old(self).wf(),
            index < old(self).roster().len(),
        ensures
            final(self).wf(),
            final(self).same_settings(*old(self)),
            final(self).roster() == old(self).roster(),
            final(self).button() == index,
    {
        self.button_index = index;
    }

    /// Sets the starting stack of the player at `index`.
    pub fn set_starting_stack(&mut self, index: usize, stack: Amount)
        requires
            old(self).wf(),
            index < old(self).roster().len(),
        ensures
            final(self).wf(),
            final(self).same_settings(*old(self)),
            final(self).button() == old(self).button(),
            final(self).roster() == old(self).roster().update(index as int, with_stack(old(self).roster()[index as int], stack)),
    {
        let mut p = self.players.remove(index);
        p.player.starting_stack = stack;
        self.players.insert(index, p);
        proof {
            assert(self.players@ =~= old(self).players@.update(index as int, with_stack(old(self).players@[index as int], stack)));
        }
    }

    /// Chooses the program that plays for the player at `index`, or none.
    pub fn set_action_generator(&mut self, index: usize, generator: Option<usize>)
        requires
            old(self).wf(),
            index < old(self).roster().len(),
            generator matches Some(g) ==> g < old(self).generator_names().len(),
        ensures
            final(self).wf(),
            final(self).same_settings(*old(self)),
            final(self).button() == old(self).button(),
            final(self).roster() == old(self).roster().update(
                index as int,
                GameBuilderPlayer { action_generator: generator, ..old(self).roster()[index as int] },
            ),
    {
        let mut p = self.players.remove(index);
        p.action_generator = generator;
        self.players.insert(index, p);
        proof {
            assert(self.players@ =~= old(self).players@.update(
                index as int,
                GameBuilderPlayer { action_generator: generator, ..old(self).players@[index as int] },
            ));
        }
    }

    /// Gives every player a stack of a hundred big blinds, unless that
    /// amount does not fit in an amount.
    pub fn use_100_big_blind_stacks(&mut self)
        requires
            old(self).wf(),
        ensures
            final(self).wf(),
            final(self).same_settings(*old(self)),
            final(self).button() == old(self).button(),
            final(self).roster().len() == old(self).roster().len(),
            old(self).big_blind_amount().value() * 100 > u32::MAX ==> final(self).roster() == old(self).roster(),
            old(self).big_blind_amount().value() * 100 <= u32::MAX ==> forall|i: int|
                0 <= i < old(self).roster().len() ==> #[trigger] final(self).roster()[i] == with_stack(
                    old(self).roster()[i],
                    Amount((old(self).big_blind_amount().value() * 100) as u32),
                ),
    {
        let stack = match self.big_blind.checked_mul(100) {
            Some(s) => s,
            None => {
                return;
            },
        };
        let n = self.players.len();
        let mut i: usize = 0;
        while i < n
            invariant
                self.wf(),
                self.same_settings(*old(self)),
                self.button() == old(self).button(),
                n == self.players@.len(),
                n == old(self).players@.len(),
                i <= n,
                forall|k: int| 0 <= k < i ==> #[trigger] self.players@[k] == with_stack(old(self).players@[k], stack),
                forall|k: int| i <= k < n ==> #[trigger] self.players@[k] == old(self).players@[k],
            decreases n - i,
        {
            let ghost before = self.players@;
            let mut p = self.players.remove(i);
            p.player.starting_stack = stack;
            self.players.insert(i, p);
            proof {
                assert(self.players@ =~= before.update(i as int, with_stack(before[i as int], stack)));
            }
            i = i + 1;
        }
    }

    /// Names the player at `index`; an empty name, or the name of the
    /// player's position, leaves the player unnamed.
    pub fn set_player_name(&mut self, index: usize, name: String)
        requires
            old(self).wf(),
            index < old(self).roster().len(),
        ensures
            final(self).wf(),
            final(self).same_settings(*old(self)),
            final(self).button() == old(self).button(),
            final(self).roster() == old(self).roster().update(
                index as int,
                GameBuilderPlayer {
                    player: PlayerData {
                        name: if name@.len() == 0 || name@ == seat_label(
                            old(self).roster().len() as int,
                            old(self).button(),
                            index as int,
                        )@ {
                            None
                        } else {
                            Some(name)
                        },
                        ..old(self).roster()[index as int].player
                    },
                    ..old(self).roster()[index as int]
                },
            ),
    {
        let count = self.players.len();
        let label = match Game::position_name(count, Player(self.button_index), Player(index as u8)) {
            Some((short, _)) => short,
            None => "Player",
        };
        let label_string = label.to_owned();
        let unnamed = name.as_str().is_empty() || name == label_string;
        let mut p = self.players.remove(index);
        p.player.name = if unnamed {
            None
        } else {
            Some(name)
        };
        self.players.insert(index, p);
        proof {
            assert(self.players@ =~= old(self).players@.update(index as int, self.players@[index as int]));
        }
    }

    /// Asks to move the player at `index` one place down, the last to the top.
    pub fn request_swap_down(&mut self, index: usize)
        requires
            old(self).wf(),
            index < old(self).roster().len(),
        ensures
            final(self).wf(),
            final(self).roster() == old(self).roster(),
            final(self).button() == old(self).button(),
            final(self).pending_swap() == Some((index, ((index + 1) % (old(self).roster().len() as int)) as usize)),
            final(self).pending_hand_removal() == old(self).pending_hand_removal(),
            final(self).pending_player_removal() == old(self).pending_player_removal(),
            final(self).selecting() == old(self).selecting(),
    {
        let n = self.players.len();
        self.swap_players = Some((index, (index + 1) % n));
    }

    /// Asks to move the player at `index` one place up, the first to the bottom.
    pub fn request_swap_up(&mut self, index: usize)
        requires
            old(self).wf(),
            index < old(self).roster().len(),
        ensures
            final(self).wf(),
            final(self).roster() == old(self).roster(),
            final(self).button() == old(self).button(),
            final(self).pending_swap() == Some((index, if index == 0 {
                (old(self).roster().len() - 1) as usize
            } else {
                (index - 1) as usize
            })),
            final(self).pending_hand_removal() == old(self).pending_hand_removal(),
            final(self).pending_player_removal() == old(self).pending_player_removal(),
            final(self).selecting() == old(self).selecting(),
    {
        let n = self.players.len();
        let other = if index == 0 {
            n - 1
        } else {
            index - 1
        };
        self.swap_players = Some((index, other));
    }

    /// Asks to remove the player at `index`.
    pub fn request_remove_player(&mut self, index: usize)
        requires
            old(self).wf(),
            index < old(self).roster().len(),
        ensures
            final(self).wf(),
            final(self).roster() == old(self).roster(),
            final(self).button() == old(self).button(),
            final(self).pending_player_removal() == Some(index),
            final(self).pending_hand_removal() == old(self).pending_hand_removal(),
            final(self).pending_swap() == old(self).pending_swap(),
            final(self).selecting() == old(self).selecting(),
    {
        self.remove_player = Some(index);
    }

    /// Asks to forget the hand of the player at `index`.
    pub fn request_remove_hand(&mut self, index: usize)
        requires
            old(self).wf(),
            index < old(self).roster().len(),
        ensures
            final(self).wf(),
            final(self).roster() == old(self).roster(),
            final(self).button() == old(self).button(),
            final(self).pending_hand_removal() == Some(index),
            final(self).pending_player_removal() == old(self).pending_player_removal(),
            final(self).pending_swap() == old(self).pending_swap(),
            final(self).selecting() == old(self).selecting(),
    {
        self.remove_hand = Some(index);
    }

    fn remove_hand_at(&mut self, i: usize)
        requires
            old(self).wf(),
            i < old(self).players@.len(),
        ensures
            final(self).wf(),
            final(self).same_settings(*old(self)),
            final(self).button_index == old(self).button_index,
            final(self).players@ == old(self).players@.update(i as int, with_hand(old(self).players@[i as int], None)),
    {
        let mut p = self.players.remove(i);
        p.player.hand = None;
        self.players.insert(i, p);
        proof {
            assert(self.players@ =~= old(self).players@.update(i as int, with_hand(old(self).players@[i as int], None)));
        }
    }

    fn swap_at(&mut self, a: usize, b: usize)
        requires
            old(self).wf(),
            a < old(self).players@.len(),
            b < old(self).players@.len(),
        ensures
            final(self).wf(),
            final(self).same_settings(*old(self)),
            (final(self).players@, final(self).button()) == players_swapped(
                old(self).players@,
                old(self).button(),
                Some((a, b)),
            ),
    {
        let ghost before = self.players@;
        if a != b {
            let (lo, hi) = if a < b {
                (a, b)
            } else {
                (b, a)
            };
            let high = self.players.remove(hi);
            let low = self.players.remove(lo);
            self.players.insert(lo, high);
            self.players.insert(hi, low);
            proof {
                assert(self.players@ =~= before.update(a as int, before[b as int]).update(b as int, before[a as int]));
            }
        } else {
            proof {
                assert(before.update(a as int, before[b as int]).update(b as int, before[a as int]) =~= before);
            }
        }
        let ab = a as u8;
        let bb = b as u8;
        if self.button_index == ab {
            self.button_index = bb;
        } else if self.button_index == bb {
            self.button_index = ab;
        }
    }

    /// Applies the edits requested in this pass: first the hand removal,
    /// then the player removal, then the swap. Nothing is applied while a
    /// hand is being picked. An edit whose player is no longer there after an
    /// earlier one is dropped.
    pub fn apply_edits(&mut self)
        requires
            old(self).wf(),
        ensures
            final(self).wf(),
            final(self).same_settings(*old(self)),
            old(self).selecting() is Some ==> final(self).roster() == old(self).roster() && final(self).button()
                == old(self).button(),
            old(self).selecting() is None ==> ({
                let s1 = hand_removed(old(self).roster(), old(self).pending_hand_removal());
                let s2 = player_removed(s1, old(self).button(), old(self).pending_player_removal());
                let s3 = players_swapped(s2.0, s2.1, old(self).pending_swap());
                final(self).roster() == s3.0 && final(self).button() == s3.1
            }),
    {
        if self.hand_selector_for.is_some() {
            return;
        }
        match self.remove_hand {
            Some(i) => {
                if i < self.players.len() {
                    self.remove_hand_at(i);
                }
            },
            None => {},
        }
        let ghost s1 = self.players@;
        assert(s1 == hand_removed(old(self).roster(), old(self).pending_hand_removal()));
        match self.remove_player {
            Some(i) => {
                if i < self.players.len() && self.players.len() > MIN_PLAYERS {
                    self.players.remove(i);
                    if i == self.button_index as usize {
                        self.button_index = 0;
                    }
                }
            },
            None => {},
        }
        let ghost s2 = (self.players@, self.button());
        assert(s2 == player_removed(s1, old(self).button(), old(self).pending_player_removal()));
        match self.swap_players {
            Some((a, b)) => {
                if a < self.players.len() && b < self.players.len() {
                    self.swap_at(a, b);
                }
            },
            None => {},
        }
    }

    /// Opens the hand selector for the player at `index`: the cards of the
    /// other players' hands cannot be picked.
    pub fn select_hand_for(&mut self, index: usize)
        requires
            old(self).wf(),
            index < old(self).roster().len(),
        ensures
            final(self).wf(),
            final(self).roster() == old(self).roster(),
            final(self).button() == old(self).button(),
            final(self).selecting() == Some(index),
            forall|c: Card|
                final(self).selector().is_disabled(c) == ((exists|j: int|
                    0 <= j < old(self).roster().len() && hand_holds(
                        #[trigger] old(self).roster()[j].player.hand,
                        c,
                    )) && !hand_holds(old(self).roster()[index as int].player.hand, c)),
    {
        let mut known = Cards::empty();
        let n = self.players.len();
        let mut j: usize = 0;
        while j < n
            invariant
                n == self.players@.len(),
                self.players@ == old(self).players@,
                j <= n,
                forall|c: Card|
                    known.contains(c) == (exists|k: int|
                        0 <= k < j && hand_holds(#[trigger] self.players@[k].player.hand, c)),
            decreases n - j,
        {
            match self.players[j].player.hand {
                Some(h) => {
                    known = known.with(h.0).with(h.1);
                    proof {
                        assert forall|c: Card|
                            known.contains(c) == (exists|k: int|
                                0 <= k < j + 1 && hand_holds(#[trigger] self.players@[k].player.hand, c)) by {
                            if hand_holds(self.players@[j as int].player.hand, c) {
                                assert(0 <= j < j + 1);
                            }
                        }
                    }
                },
                None => {
                    proof {
                        assert forall|c: Card|
                            known.contains(c) == (exists|k: int|
                                0 <= k < j + 1 && hand_holds(#[trigger] self.players@[k].player.hand, c)) by {
                            if exists|k: int| 0 <= k < j + 1 && hand_holds(#[trigger] self.players@[k].player.hand, c) {
                                let k = choose|k: int| 0 <= k < j + 1 && hand_holds(#[trigger] self.players@[k].player.hand, c);
                                assert(k != j);
                            }
                        }
                    }
                },
            }
            j = j + 1;
        }
        let ghost all_known = known;
        match self.players[index].player.hand {
            Some(h) => {
                known.remove(h.0);
                known.remove(h.1);
            },
            None => {},
        }
        assert forall|c: Card|
            known.contains(c) == ((exists|j: int|
                0 <= j < old(self).roster().len() && hand_holds(#[trigger] old(self).roster()[j].player.hand, c))
                && !hand_holds(old(self).roster()[index as int].player.hand, c)) by {
            assert(all_known.contains(c) == (exists|j: int|
                0 <= j < n && hand_holds(#[trigger] self.players@[j].player.hand, c)));
        }
        self.hand_selector.set_disabled(known);
        self.hand_selector_for = Some(index);
        assert forall|c: Card|
            self.selector().is_disabled(c) == ((exists|j: int|
                0 <= j < old(self).roster().len() && hand_holds(#[trigger] old(self).roster()[j].player.hand, c))
                && !hand_holds(old(self).roster()[index as int].player.hand, c)) by {
            assert(self.selector().is_disabled(c) == known.contains(c));
        }
    }

    /// Clicks a card in the open hand selector.
    pub fn click_hand_card(&mut self, card: Card)
        requires
            old(self).wf(),
        ensures
            final(self).wf(),
            final(self).roster() == old(self).roster(),
            final(self).button() == old(self).button(),
            final(self).selecting() == old(self).selecting(),
            final(self).selector().picked() == if old(self).selector().is_disabled(card) {
                old(self).selector().picked()
            } else if old(self).selector().picked().contains(card) {
                old(self).selector().picked().filter(|c: Card| c != card)
            } else {
                old(self).selector().picked().push(card)
            },
    {
        self.hand_selector.click(card);
    }

    /// Closes the hand selector once two cards are picked, giving them to
    /// the player it was opened for; `false` when no hand is being picked or
    /// the picked cards are not two.
    pub fn finish_hand_selection(&mut self) -> (r: bool)
        requires
            old(self).wf(),
        ensures
            final(self).wf(),
            final(self).button() == old(self).button(),
            r <==> (old(self).selecting() is Some && old(self).selector().picked().len() == 2),
            !r ==> final(self).roster() == old(self).roster() && final(self).selecting() == old(self).selecting(),
            r ==> ({
                let i = old(self).selecting()->Some_0;
                let picked = old(self).selector().picked();
                &&& final(self).selecting() is None
                &&& final(self).selector().picked().len() == 0
                &&& final(self).roster().len() == old(self).roster().len()
                &&& forall|k: int| 0 <= k < old(self).roster().len() && k != i ==> #[trigger] final(self).roster()[k] == old(self).roster()[k]
                &&& final(self).roster()[i as int].player.hand matches Some(h) && h.wf() && (forall|c: Card|
                    picked.contains(c) <==> (c == h.0 || c == h.1))
                &&& final(self).roster()[i as int] == with_hand(old(self).roster()[i as int], final(self).roster()[i as int].player.hand)
            }),
    {
        let i = match self.hand_selector_for {
            Some(i) => i,
            None => {
                return false;
            },
        };
        let cards = self.hand_selector.cards();
        let h = match Hand::from_cards(cards) {
            Ok(h) => h,
            Err(_) => {
                proof {
                    self.hand_selector.lemma_picked_count(cards);
                }
                return false;
            },
        };
        proof {
            self.hand_selector.lemma_picked_count(cards);
        }
        let ghost picked = self.hand_selector.picked();
        let mut p = self.players.remove(i);
        p.player.hand = Some(h);
        self.players.insert(i, p);
        proof {
            assert(self.players@ =~= old(self).players@.update(i as int, with_hand(old(self).players@[i as int], Some(h))));
            assert forall|c: Card| picked.contains(c) <==> (c == h.0 || c == h.1) by {
                assert(cards.contains(c) <==> picked.contains(c));
            }
        }
        self.hand_selector.reset();
        self.hand_selector_for = None;
        true
    }

    /// Adds a player with a hundred big blinds (as much as an amount holds
    /// when that is more), played by the default program; nothing happens
    /// while a hand is being picked or when the table is full.
    pub fn add_player(&mut self)
        requires
            old(self).wf(),
        ensures
            final(self).wf(),
            final(self).same_settings(*old(self)),
            final(self).button() == old(self).button(),
            old(self).selecting() is Some || old(self).roster().len() >= MAX_PLAYERS ==> final(self).roster()
                == old(self).roster(),
            old(self).selecting() is None && old(self).roster().len() < MAX_PLAYERS ==> ({
                let p = final(self).roster().last();
                &&& final(self).roster() == old(self).roster().push(p)
                &&& p.player.name is None && p.player.seat is None && p.player.hand is None
                &&& p.player.starting_stack.value() == if old(self).big_blind_amount().value() * 100 > u32::MAX {
                    u32::MAX as int
                } else {
                    old(self).big_blind_amount().value() * 100
                }
                &&& p.action_generator == old(self).default_generator()
            }),
    {
        if self.hand_selector_for.is_none() && self.players.len() < MAX_PLAYERS {
            let starting_stack = self.big_blind.saturating_mul(100);
            self.players.push(
                GameBuilderPlayer {
                    player: PlayerData::with_starting_stack(starting_stack),
                    action_generator: self.default_player_action_generator,
                },
            );
        }
    }

    /// The game the form describes, with no actions yet.
    pub fn configure(&self) -> (r: Result<GameBuilderConfig, PlayError>)
        requires
            self.wf(),
        ensures
            new_game_error(roster_data(self.roster()), Player(self.button() as u8))
                matches Some(e) ==> r == Err::<GameBuilderConfig, PlayError>(e),
            new_game_error(roster_data(self.roster()), Player(self.button() as u8)) is None ==> r is Ok,
            r matches Ok(config) ==> {
                &&& config.game.wf()
                &&& config.game.holds_players(roster_data(self.roster()))
                &&& config.game.button_player() == Player(self.button() as u8)
                &&& config.game.small_blind_amount() == self.small_blind_amount()
                &&& config.game.big_blind_amount() == self.big_blind_amount()
                &&& config.game.hero_of() is None
                &&& config.game.max_players_of() is None
                &&& config.game.action_log().len() == 0
                &&& config.players@ == self.roster()
                &&& config.pick_community_cards == self.picks_community_cards()
            },
    {
        let mut players: Vec<PlayerData> = Vec::new();
        let mut builder_players: Vec<GameBuilderPlayer> = Vec::new();
        let mut i: usize = 0;
        while i < self.players.len()
            invariant
                i <= self.players@.len(),
                players@ == roster_data(self.players@.subrange(0, i as int)),
                builder_players@ == self.players@.subrange(0, i as int),
            decreases self.players@.len() - i,
        {
            players.push(copy_player_data(&self.players[i].player));
            builder_players.push(copy_builder_player(&self.players[i]));
            proof {
                assert(players@ =~= roster_data(self.players@.subrange(0, i + 1)));
                assert(builder_players@ =~= self.players@.subrange(0, i + 1));
            }
            i = i + 1;
        }
        proof {
            assert(players@ =~= roster_data(self.players@));
            assert(builder_players@ =~= self.players@);
        }
        let data = GameData {
            unit: None,
            max_players: None,
            location: None,
            date: None,
            table_name: None,
            hand_name: None,
            additional_metadata: Vec::new(),
            hero_index: None,
            players,
            button_index: Player(self.button_index),
            small_blind: self.small_blind,
            big_blind: self.big_blind,
            actions: Vec::new(),
            showdown_stacks: None,
        };
        let game = Game::from_game_data(&data)?;
        Ok(GameBuilderConfig { game, players: builder_players, pick_community_cards: self.pick_community_cards })
    }
}

} // verus!
