use vstd::prelude::*;
use vstd::string::StringExecFns;
use vstd::string::StringSliceAdditionalSpecFns;

use crate::card::{card_chars, spec_card_from_ascii, Card, CardError};
use crate::game::{action_player, action_street, Amount, Player, Seat, State, Street};
use crate::play::{Game, GameData};
use chrono::NaiveDateTime;

verus! {

/// Why a stored flop could not be read.
#[derive(Clone, Copy, Debug, PartialEq, Eq, Structural)]
pub enum FlopError {
    /// The text is not six bytes long.
    BadLength,
    /// The text holds a byte that is not ASCII.
    NotAscii,
    /// A card is not valid.
    Card(CardError),
    /// A card occurs twice.
    DuplicateCard,
}

/// The three cards of a flop.
#[derive(Clone, Copy, Debug)]
pub struct Flop(pub [Card; 3]);

/// The flop written as six characters, such as `AhKd2c`.
pub open spec fn flop_from_bytes(b: Seq<u8>) -> Result<Flop, FlopError> {
    if b.len() != 6 {
        Err(FlopError::BadLength)
    } else if exists|i: int| 0 <= i < 6 && b[i] >= 128 {
        Err(FlopError::NotAscii)
    } else {
        match spec_card_from_ascii(b[0], b[1]) {
            Err(e) => Err(FlopError::Card(e)),
            Ok(c0) => match spec_card_from_ascii(b[2], b[3]) {
                Err(e) => Err(FlopError::Card(e)),
                Ok(c1) => if c1 == c0 {
                    Err(FlopError::DuplicateCard)
                } else {
                    match spec_card_from_ascii(b[4], b[5]) {
                        Err(e) => Err(FlopError::Card(e)),
                        Ok(c2) => if c2 == c0 || c2 == c1 {
                            Err(FlopError::DuplicateCard)
                        } else {
                            Ok(Flop([c0, c1, c2]))
                        },
                    }
                },
            },
        }
    }
}

impl Flop {
    /// The flop as six characters, such as `AhKd2c`.
    pub fn to_string(self) -> (s: String)
        ensures
            s@ == card_chars(self.0[0]) + card_chars(self.0[1]) + card_chars(self.0[2]),
    {
        let mut out = self.0[0].to_string();
        let b = self.0[1].to_string();
        out.append(b.as_str());
        let c = self.0[2].to_string();
        out.append(c.as_str());
        out
    }

    /// Reads a flop stored as six characters.
    pub fn from_bytes(b: &[u8]) -> (r: Result<Flop, FlopError>)
        ensures
            r == flop_from_bytes(b@),
    {
        if b.len() != 6 {
            return Err(FlopError::BadLength);
        }
        let mut i: usize = 0;
        while i < 6
            invariant
                b@.len() == 6,
                i <= 6,
                forall|j: int| 0 <= j < i ==> b@[j] < 128,
            decreases 6 - i,
        {
            if b[i] >= 128 {
                return Err(FlopError::NotAscii);
            }
            i = i + 1;
        }
        let c0 = match Card::from_ascii_pair(b[0], b[1]) {
            Ok(c) => c,
            Err(e) => return Err(FlopError::Card(e)),
        };
        let c1 = match Card::from_ascii_pair(b[2], b[3]) {
            Ok(c) => c,
            Err(e) => return Err(FlopError::Card(e)),
        };
        if c1 == c0 {
            return Err(FlopError::DuplicateCard);
        }
        let c2 = match Card::from_ascii_pair(b[4], b[5]) {
            Ok(c) => c,
            Err(e) => return Err(FlopError::Card(e)),
        };
        if c2 == c0 || c2 == c1 {
            return Err(FlopError::DuplicateCard);
        }
        Ok(Flop([c0, c1, c2]))
    }
}

/// How far the betting went before the flop.
#[derive(Clone, Copy, Debug, PartialEq, Eq, Structural)]
pub enum PotKind {
    Walk,
    Limped,
    SRP,
    ThreeBet,
    FourBet,
    FiveBetPlus,
}


/// The name under which a pot kind is stored.
pub open spec fn pot_kind_name(k: PotKind) -> &'static str {
    match k {
        PotKind::Walk => "walk",
        PotKind::Limped => "limped",
        PotKind::SRP => "srp",
        PotKind::ThreeBet => "3-bet",
        PotKind::FourBet => "4-bet",
        PotKind::FiveBetPlus => "5-bet+",
    }
}

/// Whether two byte strings are the same.
fn same_bytes(a: &[u8], b: &[u8]) -> (r: bool)
    ensures
        r == (a@ == b@),
{
    if a.len() != b.len() {
        return false;
    }
    let mut i: usize = 0;
    while i < a.len()
        invariant
            a@.len() == b@.len(),
            i <= a@.len(),
            forall|j: int| 0 <= j < i ==> a@[j] == b@[j],
        decreases a@.len() - i,
    {
        if a[i] != b[i] {
            return false;
        }
        i = i + 1;
    }
    proof {
        assert(a@ =~= b@);
    }
    true
}

impl PotKind {
    /// The pot kind stored under the name `s`, if any.
    pub fn from_str(s: &str) -> (r: Option<PotKind>)
        ensures
            r matches Some(k) ==> s.spec_bytes() == pot_kind_name(k).spec_bytes(),
            r is None ==> forall|k: PotKind| s.spec_bytes() != #[trigger] pot_kind_name(k).spec_bytes(),
    {
        let b = s.as_bytes();
        if same_bytes(b, PotKind::Walk.to_str().as_bytes()) {
            return Some(PotKind::Walk);
        }
        if same_bytes(b, PotKind::Limped.to_str().as_bytes()) {
            return Some(PotKind::Limped);
        }
        if same_bytes(b, PotKind::SRP.to_str().as_bytes()) {
            return Some(PotKind::SRP);
        }
        if same_bytes(b, PotKind::ThreeBet.to_str().as_bytes()) {
            return Some(PotKind::ThreeBet);
        }
        if same_bytes(b, PotKind::FourBet.to_str().as_bytes()) {
            return Some(PotKind::FourBet);
        }
        if same_bytes(b, PotKind::FiveBetPlus.to_str().as_bytes()) {
            return Some(PotKind::FiveBetPlus);
        }
        proof {
            assert forall|k: PotKind| s.spec_bytes() != #[trigger] pot_kind_name(k).spec_bytes() by {
                match k {
                    PotKind::Walk => {},
                    PotKind::Limped => {},
                    PotKind::SRP => {},
                    PotKind::ThreeBet => {},
                    PotKind::FourBet => {},
                    PotKind::FiveBetPlus => {},
                }
            }
        }
        None
    }

    /// The name under which the pot kind is stored.
    pub fn to_str(self) -> (s: &'static str)
        ensures
            s == pot_kind_name(self),
    {
        match self {
            PotKind::Walk => "walk",
            PotKind::Limped => "limped",
            PotKind::SRP => "srp",
            PotKind::ThreeBet => "3-bet",
            PotKind::FourBet => "4-bet",
            PotKind::FiveBetPlus => "5-bet+",
        }
    }
}

/// The pot kind once action `a` has been seen before the flop: a call of
/// an unraised pot limps, and each raise goes one kind up.
pub open spec fn pot_kind_step(k: PotKind, a: crate::game::Action) -> PotKind {
    match a {
        crate::game::Action::Call { .. } => match k {
            PotKind::Walk => PotKind::Limped,
            _ => k,
        },
        crate::game::Action::Raise { .. } => match k {
            PotKind::Walk => PotKind::SRP,
            PotKind::Limped => PotKind::SRP,
            PotKind::SRP => PotKind::ThreeBet,
            PotKind::ThreeBet => PotKind::FourBet,
            PotKind::FourBet => PotKind::FiveBetPlus,
            PotKind::FiveBetPlus => PotKind::FiveBetPlus,
        },
        _ => k,
    }
}

/// The pot kind after the first `n` actions.
pub open spec fn pot_kind_after(actions: Seq<crate::game::Action>, n: int) -> PotKind
    decreases n,
{
    if n <= 0 {
        PotKind::Walk
    } else {
        pot_kind_step(pot_kind_after(actions, n - 1), actions[n - 1])
    }
}

/// Where the actions before the flop end, looking from `i` on.
pub open spec fn flop_index_from(actions: Seq<crate::game::Action>, i: int) -> int
    decreases actions.len() - i,
{
    if i >= actions.len() {
        actions.len() as int
    } else if actions[i] is Flop {
        i
    } else {
        flop_index_from(actions, i + 1)
    }
}

/// The number of actions before the flop.
pub open spec fn pre_flop_len(actions: Seq<crate::game::Action>) -> int {
    flop_index_from(actions, 0)
}

/// A player other than the blinds posts among the first `n` actions.
#[verifier::opaque]
pub open spec fn posting_in(actions: Seq<crate::game::Action>, n: int, sb: int, bb: int) -> bool {
    exists|i: int|
        0 <= i < n && (#[trigger] actions[i] matches crate::game::Action::Post { player, .. } && player.value()
            != sb && player.value() != bb)
}

/// Someone straddles among the first `n` actions.
#[verifier::opaque]
pub open spec fn straddling_in(actions: Seq<crate::game::Action>, n: int) -> bool {
    exists|i: int| 0 <= i < n && #[trigger] actions[i] is Straddle
}

/// Someone calls an unraised pot among the first `n` actions.
#[verifier::opaque]
pub open spec fn limping_in(actions: Seq<crate::game::Action>, n: int) -> bool {
    exists|i: int|
        0 <= i < n && #[trigger] actions[i] is Call && (pot_kind_after(actions, i) is Walk || pot_kind_after(
            actions,
            i,
        ) is Limped)
}

/// `p` raises among the first `i` actions.
#[verifier::opaque]
pub open spec fn raised_before(actions: Seq<crate::game::Action>, i: int, p: Player) -> bool {
    exists|j: int| 0 <= j < i && (#[trigger] actions[j] matches crate::game::Action::Raise { player, .. } && player == p)
}

/// Someone who has not raised calls a re-raised pot among the first `n` actions.
#[verifier::opaque]
pub open spec fn cold_calling_in(actions: Seq<crate::game::Action>, n: int) -> bool {
    exists|i: int|
        0 <= i < n && (#[trigger] actions[i] matches crate::game::Action::Call { player, .. } && (pot_kind_after(
            actions,
            i,
        ) is ThreeBet || pot_kind_after(actions, i) is FourBet || pot_kind_after(actions, i) is FiveBetPlus)
            && !raised_before(actions, i, player))
}

/// `p` folds among the first `n` actions.
#[verifier::opaque]
pub open spec fn folded_in(actions: Seq<crate::game::Action>, n: int, p: int) -> bool {
    exists|i: int| 0 <= i < n && #[trigger] actions[i] == crate::game::Action::Fold(Player(p as u8))
}

/// How many of the players below `m` fold among the first `n` actions.
pub open spec fn folded_count(actions: Seq<crate::game::Action>, n: int, m: int) -> int
    decreases m,
{
    if m <= 0 {
        0
    } else {
        folded_count(actions, n, m - 1) + if folded_in(actions, n, m - 1) {
            1int
        } else {
            0int
        }
    }
}

/// How many of the players below `m` are still in the hand.
pub open spec fn in_hand_below(g: Game, m: int) -> int
    decreases m,
{
    if m <= 0 {
        0
    } else {
        in_hand_below(g, m - 1) + if g.in_hand(m - 1) {
            1int
        } else {
            0int
        }
    }
}

/// `p` ends the hand with more than it had on the last street.
pub open spec fn won_chips(g: Game, p: int) -> bool {
    g.showdown_stack(p) > g.cur(p)
}

/// What is stored of a hand, for searching hands.
#[derive(Clone, Debug)]
pub struct Hand {
    pub id: Option<u64>,
    pub unit: Option<String>,
    pub max_players: Option<u8>,
    pub game_location: Option<String>,
    pub game_date: Option<NaiveDateTime>,
    pub table_name: Option<String>,
    pub hand_name: Option<String>,
    pub hero_index: Option<Player>,
    pub player_count: u8,
    pub small_blind: Amount,
    pub big_blind: Amount,
    pub button_index: Player,
    pub first_flop: Option<Flop>,
    pub first_turn: Option<Card>,
    pub first_river: Option<Card>,
    pub pot_kind: PotKind,
    pub posting: bool,
    pub straddling: bool,
    pub pre_flop_limping: bool,
    pub pre_flop_cold_calling: bool,
    pub players_post_flop: Option<u8>,
    pub players_at_showdown: Option<u8>,
    pub single_winner: Option<u8>,
    pub final_full_pot_size: Amount,
}

/// `h` is the stored summary of the finished game `g` whose stored form is `d`.
pub open spec fn summarizes(h: Hand, g: Game, d: GameData) -> bool {
    let b = g.runout_boards()[0];
    let a = g.action_log().subrange(0, g.replay_index());
    let n = pre_flop_len(a);
    let folds = folded_count(a, n, 256);
    let showdown = in_hand_below(g, g.pc());
    &&& h.id is None
    &&& h.unit == g.unit_of()
    &&& h.max_players == d.max_players
    &&& h.game_location == g.location_of()
    &&& h.game_date == g.date_of()
    &&& h.table_name == g.table_name_of()
    &&& h.hand_name == g.hand_name_of()
    &&& h.hero_index == d.hero_index
    &&& h.player_count == g.pc()
    &&& h.small_blind == g.small_blind_amount()
    &&& h.big_blind == g.big_blind_amount()
    &&& h.button_index == d.button_index
    &&& (h.first_flop is Some) == (b.street_of().index() >= 1)
    &&& (h.first_flop matches Some(f) ==> f.0@ == b.dealt().subrange(0, 3))
    &&& h.first_turn == if b.dealt().len() > 3 {
        Some(b.dealt()[3])
    } else {
        None::<Card>
    }
    &&& h.first_river == if b.dealt().len() > 4 {
        Some(b.dealt()[4])
    } else {
        None::<Card>
    }
    &&& h.pot_kind == pot_kind_after(a, n)
    &&& h.posting == posting_in(a, n, g.sb_player(), g.bb_player())
    &&& h.straddling == straddling_in(a, n)
    &&& h.pre_flop_limping == limping_in(a, n)
    &&& h.pre_flop_cold_calling == cold_calling_in(a, n)
    &&& h.players_post_flop == if g.pc() - folds > 1 {
        Some((g.pc() - folds) as u8)
    } else {
        None::<u8>
    }
    &&& h.players_at_showdown == if showdown <= 1 {
        None::<u8>
    } else {
        Some(showdown as u8)
    }
    &&& (h.single_winner matches Some(w) ==> w < g.pc() && won_chips(g, w as int) && forall|q: int|
        0 <= q < g.pc() && q != w ==> !won_chips(g, q))
    &&& (h.single_winner is None ==> forall|w: int|
        0 <= w < g.pc() && won_chips(g, w) ==> exists|q: int| 0 <= q < g.pc() && q != w && won_chips(g, q))
    &&& h.final_full_pot_size.value() == g.pot()
}

impl Hand {
    /// The stored summary of a finished game whose stored form is `game_data`.
    pub fn from_game(game: &Game, game_data: &GameData) -> (h: Hand)
        requires
            game.wf(),
            game.state_spec() is End,
        ensures
            summarizes(h, *game, *game_data),
    {
        let runouts = game.runouts();
        let first_runout = runouts[0];
        let n = game.player_count();
        let mut not_folded: usize = 0;
        let mut p: usize = 0;
        while p < n
            invariant
                game.wf(),
                n == game.pc(),
                n <= 10,
                p <= n,
                not_folded == in_hand_below(*game, p as int),
                not_folded <= p,
            decreases n - p,
        {
            if !game.folded(Player(p as u8)) {
                not_folded = not_folded + 1;
            }
            proof {
                assert(in_hand_below(*game, p as int + 1) == in_hand_below(*game, p as int) + if game.in_hand(
                    p as int,
                ) {
                    1int
                } else {
                    0int
                });
            }
            p = p + 1;
        }
        let players_at_showdown = if not_folded <= 1 {
            None
        } else {
            Some(not_folded as u8)
        };
        let stacks = game.current_stacks();
        let street_stacks = game.current_street_stacks();
        let mut single_winner: Option<u8> = None;
        let mut winners: usize = 0;
        let mut q: usize = 0;
        while q < n
            invariant
                game.wf(),
                game.state_spec() is End,
                n == game.pc(),
                n <= 10,
                q <= n,
                stacks@.len() == n,
                street_stacks@.len() == n,
                forall|k: int| 0 <= k < n ==> (#[trigger] stacks@[k]).value() == game.showdown_stack(k),
                forall|k: int| 0 <= k < n ==> (#[trigger] street_stacks@[k]).value() == game.cur(k),
                winners <= q,
                winners == 0 ==> single_winner is None && forall|k: int| 0 <= k < q ==> !won_chips(*game, k),
                winners == 1 ==> (single_winner matches Some(w) && w < q && won_chips(*game, w as int) && forall|k: int|
                    0 <= k < q && k != w ==> !won_chips(*game, k)),
                winners >= 2 ==> single_winner is None && exists|a: int, b: int|
                    0 <= a < b < q && won_chips(*game, a) && won_chips(*game, b),
            decreases n - q,
        {
            let ghost w0 = single_winner;
            let ghost old_winners = winners;
            if stacks[q].0 > street_stacks[q].0 {
                proof {
                    assert(won_chips(*game, q as int));
                    if old_winners >= 2 {
                        let (x, y) = choose|x: int, y: int| 0 <= x < y < q && won_chips(*game, x) && won_chips(*game, y);
                        assert(0 <= x < y < q + 1);
                    } else if old_winners == 1 {
                        let w = w0->Some_0 as int;
                        assert(0 <= w < q as int && won_chips(*game, w) && won_chips(*game, q as int));
                    }
                }
                if winners == 0 {
                    single_winner = Some(q as u8);
                } else {
                    single_winner = None;
                }
                winners = winners + 1;
            } else {
                proof {
                    assert(!won_chips(*game, q as int));
                    if old_winners >= 2 {
                        let (x, y) = choose|x: int, y: int| 0 <= x < y < q && won_chips(*game, x) && won_chips(*game, y);
                        assert(0 <= x < y < q + 1);
                    }
                }
            }
            q = q + 1;
        }
        let mut hand = Hand {
            id: None,
            unit: game.unit(),
            max_players: game_data.max_players,
            game_location: game.location(),
            game_date: game.date(),
            table_name: game.table_name(),
            hand_name: game.hand_name(),
            hero_index: game_data.hero_index,
            player_count: n as u8,
            small_blind: game.small_blind(),
            big_blind: game.big_blind(),
            button_index: game_data.button_index,
            first_flop: match first_runout.flop() {
                Some(f) => Some(Flop(f)),
                None => None,
            },
            first_turn: first_runout.turn(),
            first_river: first_runout.river(),
            pot_kind: PotKind::Walk,
            posting: false,
            straddling: false,
            pre_flop_limping: false,
            pre_flop_cold_calling: false,
            players_post_flop: None,
            players_at_showdown,
            single_winner,
            final_full_pot_size: game.total_pot(),
        };
        hand.set_pre_flop(game);
        hand
    }

    /// Fills in what the actions before the flop show: the pot kind, extra
    /// posts and straddles, limps and cold calls, and how many players see
    /// the flop.
    pub fn set_pre_flop(&mut self, game: &Game)
        requires
            game.wf(),
        ensures
            ({
                let a = game.action_log().subrange(0, game.replay_index());
                let n = pre_flop_len(a);
                let folds = folded_count(a, n, 256);
                &&& final(self).pot_kind == pot_kind_after(a, n)
                &&& final(self).posting == (old(self).posting || posting_in(a, n, game.sb_player(), game.bb_player()))
                &&& final(self).straddling == (old(self).straddling || straddling_in(a, n))
                &&& final(self).pre_flop_limping == (old(self).pre_flop_limping || limping_in(a, n))
                &&& final(self).pre_flop_cold_calling == (old(self).pre_flop_cold_calling || cold_calling_in(a, n))
                &&& final(self).players_post_flop == if game.pc() - folds > 1 {
                    Some((game.pc() - folds) as u8)
                } else {
                    old(self).players_post_flop
                }
            }),
            final(self).id == old(self).id,
            final(self).unit == old(self).unit,
            final(self).max_players == old(self).max_players,
            final(self).game_location == old(self).game_location,
            final(self).game_date == old(self).game_date,
            final(self).table_name == old(self).table_name,
            final(self).hand_name == old(self).hand_name,
            final(self).hero_index == old(self).hero_index,
            final(self).player_count == old(self).player_count,
            final(self).small_blind == old(self).small_blind,
            final(self).big_blind == old(self).big_blind,
            final(self).button_index == old(self).button_index,
            final(self).first_flop == old(self).first_flop,
            final(self).first_turn == old(self).first_turn,
            final(self).first_river == old(self).first_river,
            final(self).players_at_showdown == old(self).players_at_showdown,
            final(self).single_winner == old(self).single_winner,
            final(self).final_full_pot_size == old(self).final_full_pot_size,
    {
        let actions = game.actions();
        let ghost a = actions@;
        let sb = game.small_blind_player();
        let bb = game.big_blind_player();
        let mut scan = PreFlopScan::new();
        let mut i: usize = 0;
        while i < actions.len()
            invariant_except_break
                flop_index_from(a, 0) == flop_index_from(a, i as int),
            invariant
                a == actions@,
                i <= a.len(),
                scan.matches(a, i as int, sb.value(), bb.value()),
            ensures
                i == flop_index_from(a, 0),
            decreases a.len() - i,
        {
            let action = actions[i];
            match action {
                crate::game::Action::Flop(_) => {
                    break;
                },
                _ => {},
            }
            scan.step(action, sb, bb, Ghost(a), Ghost(i as int));
            i = i + 1;
        }
        let folds = scan.fold_count(Ghost(a), Ghost(i as int), Ghost(sb.value()), Ghost(bb.value()));
        self.pot_kind = scan.pot_kind;
        self.posting = self.posting || scan.posting;
        self.straddling = self.straddling || scan.straddling;
        self.pre_flop_limping = self.pre_flop_limping || scan.limping;
        self.pre_flop_cold_calling = self.pre_flop_cold_calling || scan.cold_calling;
        let n = game.player_count();
        if folds < n && n - folds > 1 {
            self.players_post_flop = Some((n - folds) as u8);
        }
    }
}

/// What the actions before the flop have shown so far.
struct PreFlopScan {
    pot_kind: PotKind,
    posting: bool,
    straddling: bool,
    limping: bool,
    cold_calling: bool,
    raisers: Vec<bool>,
    folded: Vec<bool>,
}

impl PreFlopScan {
    /// The scan stands after the first `i` of the actions `a`.
    spec fn matches(self, a: Seq<crate::game::Action>, i: int, sb: int, bb: int) -> bool {
        &&& 0 <= i <= a.len()
        &&& self.raisers@.len() == 256
        &&& self.folded@.len() == 256
        &&& self.pot_kind == pot_kind_after(a, i)
        &&& self.posting == posting_in(a, i, sb, bb)
        &&& self.straddling == straddling_in(a, i)
        &&& self.limping == limping_in(a, i)
        &&& self.cold_calling == cold_calling_in(a, i)
        &&& forall|p: int| 0 <= p < 256 ==> #[trigger] self.raisers@[p] == raised_before(a, i, Player(p as u8))
        &&& forall|p: int| 0 <= p < 256 ==> #[trigger] self.folded@[p] == folded_in(a, i, p)
    }

    fn new() -> (s: PreFlopScan)
        ensures
            forall|a: Seq<crate::game::Action>, sb: int, bb: int| #[trigger] s.matches(a, 0, sb, bb),
    {
        let mut raisers: Vec<bool> = Vec::new();
        let mut folded: Vec<bool> = Vec::new();
        let mut k: usize = 0;
        while k < 256
            invariant
                k <= 256,
                raisers@.len() == k,
                folded@.len() == k,
                forall|j: int| 0 <= j < k ==> !(#[trigger] raisers@[j]),
                forall|j: int| 0 <= j < k ==> !(#[trigger] folded@[j]),
            decreases 256 - k,
        {
            raisers.push(false);
            folded.push(false);
            k = k + 1;
        }
        proof {
            reveal(posting_in);
            reveal(straddling_in);
            reveal(limping_in);
            reveal(cold_calling_in);
            reveal(raised_before);
            reveal(folded_in);
        }
        PreFlopScan {
            pot_kind: PotKind::Walk,
            posting: false,
            straddling: false,
            limping: false,
            cold_calling: false,
            raisers,
            folded,
        }
    }

    /// Takes in the action `action`, the `i`-th of `a`.
    fn step(&mut self, action: crate::game::Action, sb: Player, bb: Player, Ghost(a): Ghost<Seq<crate::game::Action>>, Ghost(i): Ghost<int>)
        requires
            old(self).matches(a, i, sb.value(), bb.value()),
            0 <= i < a.len(),
            a[i] == action,
        ensures
            final(self).matches(a, i + 1, sb.value(), bb.value()),
    {
        proof {
            lemma_scan_step(a, i, sb.value(), bb.value());
        }
        let kind = self.pot_kind;
        let other_post = match action {
            crate::game::Action::Post { player, .. } => player.0 != sb.0 && player.0 != bb.0,
            _ => false,
        };
        let straddle = match action {
            crate::game::Action::Straddle { .. } => true,
            _ => false,
        };
        let unraised = match kind {
            PotKind::Walk | PotKind::Limped => true,
            _ => false,
        };
        let reraised = match kind {
            PotKind::ThreeBet | PotKind::FourBet | PotKind::FiveBetPlus => true,
            _ => false,
        };
        let (limp, cold_call) = match action {
            crate::game::Action::Call { player, .. } => {
                proof {
                    assert(self.raisers@[player.0 as int] == raised_before(a, i, Player(player.0)));
                }
                (unraised, reraised && !self.raisers[player.0 as usize])
            },
            _ => (false, false),
        };
        self.pot_kind = pot_kind_next(kind, action);
        self.posting = self.posting || other_post;
        self.straddling = self.straddling || straddle;
        self.limping = self.limping || limp;
        self.cold_calling = self.cold_calling || cold_call;
        note_raise(&mut self.raisers, action, Ghost(a), Ghost(i));
        note_fold(&mut self.folded, action, Ghost(a), Ghost(i));
    }

    /// How many players folded among the first `i` actions.
    fn fold_count(&self, Ghost(a): Ghost<Seq<crate::game::Action>>, Ghost(i): Ghost<int>, Ghost(sb): Ghost<int>, Ghost(bb): Ghost<int>) -> (n: usize)
        requires
            self.matches(a, i, sb, bb),
        ensures
            n == folded_count(a, i, 256),
    {
        let mut folds: usize = 0;
        let mut p: usize = 0;
        while p < 256
            invariant
                self.matches(a, i, sb, bb),
                p <= 256,
                folds == folded_count(a, i, p as int),
                folds <= p,
            decreases 256 - p,
        {
            if self.folded[p] {
                folds = folds + 1;
            }
            p = p + 1;
        }
        folds
    }
}

/// How the summaries of the actions grow by the `i`-th action.
proof fn lemma_scan_step(a: Seq<crate::game::Action>, i: int, sb: int, bb: int)
    requires
        0 <= i < a.len(),
    ensures
        pot_kind_after(a, i + 1) == pot_kind_step(pot_kind_after(a, i), a[i]),
        posting_in(a, i + 1, sb, bb) == (posting_in(a, i, sb, bb) || (a[i] matches crate::game::Action::Post {
            player,
            ..
        } && player.value() != sb && player.value() != bb)),
        straddling_in(a, i + 1) == (straddling_in(a, i) || a[i] is Straddle),
        limping_in(a, i + 1) == (limping_in(a, i) || (a[i] is Call && (pot_kind_after(a, i) is Walk
            || pot_kind_after(a, i) is Limped))),
        cold_calling_in(a, i + 1) == (cold_calling_in(a, i) || (a[i] matches crate::game::Action::Call {
            player,
            ..
        } && (pot_kind_after(a, i) is ThreeBet || pot_kind_after(a, i) is FourBet || pot_kind_after(a, i) is FiveBetPlus)
            && !raised_before(a, i, player))),
{
    lemma_posting_step(a, i, sb, bb);
    lemma_straddling_step(a, i);
    lemma_limping_step(a, i);
    lemma_cold_calling_step(a, i);
}

proof fn lemma_posting_step(a: Seq<crate::game::Action>, i: int, sb: int, bb: int)
    requires
        0 <= i < a.len(),
    ensures
        posting_in(a, i + 1, sb, bb) == (posting_in(a, i, sb, bb) || (a[i] matches crate::game::Action::Post {
            player,
            ..
        } && player.value() != sb && player.value() != bb)),
{
    reveal(posting_in);
    if posting_in(a, i, sb, bb) {
        let j = choose|j: int|
            0 <= j < i && (#[trigger] a[j] matches crate::game::Action::Post { player, .. } && player.value() != sb
                && player.value() != bb);
        assert(0 <= j < i + 1);
    }
}

proof fn lemma_straddling_step(a: Seq<crate::game::Action>, i: int)
    requires
        0 <= i < a.len(),
    ensures
        straddling_in(a, i + 1) == (straddling_in(a, i) || a[i] is Straddle),
{
    reveal(straddling_in);
    if straddling_in(a, i) {
        let j = choose|j: int| 0 <= j < i && #[trigger] a[j] is Straddle;
        assert(0 <= j < i + 1);
    }
}

proof fn lemma_limping_step(a: Seq<crate::game::Action>, i: int)
    requires
        0 <= i < a.len(),
    ensures
        limping_in(a, i + 1) == (limping_in(a, i) || (a[i] is Call && (pot_kind_after(a, i) is Walk
            || pot_kind_after(a, i) is Limped))),
{
    reveal(limping_in);
    if limping_in(a, i) {
        let j = choose|j: int|
            0 <= j < i && #[trigger] a[j] is Call && (pot_kind_after(a, j) is Walk || pot_kind_after(a, j) is Limped);
        assert(0 <= j < i + 1);
    }
}

proof fn lemma_cold_calling_step(a: Seq<crate::game::Action>, i: int)
    requires
        0 <= i < a.len(),
    ensures
        cold_calling_in(a, i + 1) == (cold_calling_in(a, i) || (a[i] matches crate::game::Action::Call {
            player,
            ..
        } && (pot_kind_after(a, i) is ThreeBet || pot_kind_after(a, i) is FourBet || pot_kind_after(a, i) is FiveBetPlus)
            && !raised_before(a, i, player))),
{
    reveal(cold_calling_in);
    reveal(raised_before);
    if cold_calling_in(a, i) {
        let j = choose|j: int|
            0 <= j < i && (#[trigger] a[j] matches crate::game::Action::Call { player, .. } && (pot_kind_after(a, j) is ThreeBet
                || pot_kind_after(a, j) is FourBet || pot_kind_after(a, j) is FiveBetPlus) && !raised_before(a, j, player));
        assert(0 <= j < i + 1);
    }
}

proof fn lemma_raised_step(a: Seq<crate::game::Action>, i: int, p: Player)
    requires
        0 <= i < a.len(),
    ensures
        raised_before(a, i + 1, p) == (raised_before(a, i, p) || (a[i] matches crate::game::Action::Raise {
            player,
            ..
        } && player == p)),
{
    reveal(raised_before);
    if raised_before(a, i, p) {
        let j = choose|j: int| 0 <= j < i && (#[trigger] a[j] matches crate::game::Action::Raise { player, .. } && player == p);
        assert(0 <= j < i + 1);
    }
}

proof fn lemma_folded_step(a: Seq<crate::game::Action>, i: int, p: int)
    requires
        0 <= i < a.len(),
    ensures
        folded_in(a, i + 1, p) == (folded_in(a, i, p) || a[i] == crate::game::Action::Fold(Player(p as u8))),
{
    reveal(folded_in);
    if folded_in(a, i, p) {
        let j = choose|j: int| 0 <= j < i && #[trigger] a[j] == crate::game::Action::Fold(Player(p as u8));
        assert(0 <= j < i + 1);
    }
}


/// The pot kind once `action` has been seen.
fn pot_kind_next(kind: PotKind, action: crate::game::Action) -> (k: PotKind)
    ensures
        k == pot_kind_step(kind, action),
{
    match action {
        crate::game::Action::Call { .. } => match kind {
            PotKind::Walk => PotKind::Limped,
            _ => kind,
        },
        crate::game::Action::Raise { .. } => match kind {
            PotKind::Walk | PotKind::Limped => PotKind::SRP,
            PotKind::SRP => PotKind::ThreeBet,
            PotKind::ThreeBet => PotKind::FourBet,
            PotKind::FourBet | PotKind::FiveBetPlus => PotKind::FiveBetPlus,
        },
        _ => kind,
    }
}

/// Marks the raiser of the `i`-th action, if it is a raise.
fn note_raise(raisers: &mut Vec<bool>, action: crate::game::Action, Ghost(a): Ghost<Seq<crate::game::Action>>, Ghost(i): Ghost<int>)
    requires
        old(raisers)@.len() == 256,
        forall|p: int| 0 <= p < 256 ==> #[trigger] old(raisers)@[p] == raised_before(a, i, Player(p as u8)),
        0 <= i < a.len(),
        a[i] == action,
    ensures
        final(raisers)@.len() == 256,
        forall|p: int| 0 <= p < 256 ==> #[trigger] final(raisers)@[p] == raised_before(a, i + 1, Player(p as u8)),
{
    match action {
        crate::game::Action::Raise { player, .. } => {
            raisers.set(player.0 as usize, true);
        },
        _ => {},
    }
    proof {
        assert forall|p: int| 0 <= p < 256 implies #[trigger] raisers@[p] == raised_before(a, i + 1, Player(p as u8)) by {
            lemma_raised_step(a, i, Player(p as u8));
        }
    }
}

/// Marks the player of the `i`-th action as folded, if it is a fold.
fn note_fold(folded: &mut Vec<bool>, action: crate::game::Action, Ghost(a): Ghost<Seq<crate::game::Action>>, Ghost(i): Ghost<int>)
    requires
        old(folded)@.len() == 256,
        forall|p: int| 0 <= p < 256 ==> #[trigger] old(folded)@[p] == folded_in(a, i, p),
        0 <= i < a.len(),
        a[i] == action,
    ensures
        final(folded)@.len() == 256,
        forall|p: int| 0 <= p < 256 ==> #[trigger] final(folded)@[p] == folded_in(a, i + 1, p),
{
    match action {
        crate::game::Action::Fold(player) => {
            folded.set(player.0 as usize, true);
        },
        _ => {},
    }
    proof {
        assert forall|p: int| 0 <= p < 256 implies #[trigger] folded@[p] == folded_in(a, i + 1, p) by {
            lemma_folded_step(a, i, p);
        }
    }
}


/// A betting action as it is stored: one letter per action.
#[derive(Clone, Copy, Debug, PartialEq, Eq, Structural)]
pub enum Action {
    Post,
    Straddle,
    Fold,
    Check,
    Call,
    Bet,
    Raise,
}

/// The letter that stands for a stored action.
pub open spec fn action_letter(a: Action) -> char {
    match a {
        Action::Post => 'p',
        Action::Straddle => 's',
        Action::Fold => 'f',
        Action::Check => 'x',
        Action::Call => 'c',
        Action::Bet => 'b',
        Action::Raise => 'r',
    }
}

/// The stored action of a byte, if it is one of the letters.
pub open spec fn action_of_byte(b: u8) -> Option<Action> {
    if b == 112 {
        Some(Action::Post)
    } else if b == 115 {
        Some(Action::Straddle)
    } else if b == 102 {
        Some(Action::Fold)
    } else if b == 120 {
        Some(Action::Check)
    } else if b == 99 {
        Some(Action::Call)
    } else if b == 98 {
        Some(Action::Bet)
    } else if b == 114 {
        Some(Action::Raise)
    } else {
        None
    }
}

/// The stored action of a game action; dealing, returned bets and showdown
/// actions are not stored this way.
pub open spec fn action_of_game(a: crate::game::Action) -> Option<Action> {
    match a {
        crate::game::Action::Post { .. } => Some(Action::Post),
        crate::game::Action::Straddle { .. } => Some(Action::Straddle),
        crate::game::Action::Fold(_) => Some(Action::Fold),
        crate::game::Action::Check(_) => Some(Action::Check),
        crate::game::Action::Call { .. } => Some(Action::Call),
        crate::game::Action::Bet { .. } => Some(Action::Bet),
        crate::game::Action::Raise { .. } => Some(Action::Raise),
        _ => None,
    }
}

impl Action {
    /// The action a stored letter stands for.
    pub fn from_byte(b: u8) -> (r: Option<Action>)
        ensures
            r == action_of_byte(b),
    {
        if b == 112 {
            Some(Action::Post)
        } else if b == 115 {
            Some(Action::Straddle)
        } else if b == 102 {
            Some(Action::Fold)
        } else if b == 120 {
            Some(Action::Check)
        } else if b == 99 {
            Some(Action::Call)
        } else if b == 98 {
            Some(Action::Bet)
        } else if b == 114 {
            Some(Action::Raise)
        } else {
            None
        }
    }

    /// The stored form of a game action, if it has one.
    pub fn from_game(action: crate::game::Action) -> (r: Option<Action>)
        ensures
            r == action_of_game(action),
    {
        match action {
            crate::game::Action::Post { .. } => Some(Action::Post),
            crate::game::Action::Straddle { .. } => Some(Action::Straddle),
            crate::game::Action::Fold(_) => Some(Action::Fold),
            crate::game::Action::Check(_) => Some(Action::Check),
            crate::game::Action::Call { .. } => Some(Action::Call),
            crate::game::Action::Bet { .. } => Some(Action::Bet),
            crate::game::Action::Raise { .. } => Some(Action::Raise),
            _ => None,
        }
    }

    /// The letter the action is stored as.
    pub fn to_char(self) -> (c: char)
        ensures
            c == action_letter(self),
    {
        match self {
            Action::Post => 'p',
            Action::Straddle => 's',
            Action::Fold => 'f',
            Action::Check => 'x',
            Action::Call => 'c',
            Action::Bet => 'b',
            Action::Raise => 'r',
        }
    }

    fn to_text(self) -> (s: &'static str)
        ensures
            s@ == seq![action_letter(self)],
    {
        match self {
            Action::Post => {
                proof {
                    reveal_strlit("p");
                }
                "p"
            },
            Action::Straddle => {
                proof {
                    reveal_strlit("s");
                }
                "s"
            },
            Action::Fold => {
                proof {
                    reveal_strlit("f");
                }
                "f"
            },
            Action::Check => {
                proof {
                    reveal_strlit("x");
                }
                "x"
            },
            Action::Call => {
                proof {
                    reveal_strlit("c");
                }
                "c"
            },
            Action::Bet => {
                proof {
                    reveal_strlit("b");
                }
                "b"
            },
            Action::Raise => {
                proof {
                    reveal_strlit("r");
                }
                "r"
            },
        }
    }
}

/// Why stored data could not be read.
#[derive(Clone, Copy, Debug, PartialEq, Eq, Structural)]
pub enum DbError {
    /// A byte of a stored action list is not an action letter.
    InvalidActions,
}

/// The actions of one player in one street, in order.
#[derive(Clone, Debug)]
pub struct Actions(pub Vec<Action>);

/// The letters of stored actions.
pub open spec fn action_letters(v: Seq<Action>) -> Seq<char> {
    Seq::new(v.len(), |i: int| action_letter(v[i]))
}

impl Actions {
    /// No actions.
    pub fn empty() -> (a: Actions)
        ensures
            a.0@.len() == 0,
    {
        Actions(Vec::new())
    }

    /// Reads actions stored as letters.
    pub fn from_str(s: &str) -> (r: Result<Actions, DbError>)
        ensures
            match r {
                Ok(a) => a.0@.len() == s.spec_bytes().len() && forall|i: int|
                    0 <= i < a.0@.len() ==> action_of_byte(s.spec_bytes()[i]) == Some(#[trigger] a.0@[i]),
                Err(e) => e == DbError::InvalidActions && exists|i: int|
                    0 <= i < s.spec_bytes().len() && action_of_byte(#[trigger] s.spec_bytes()[i]) is None,
            },
    {
        let bytes = s.as_bytes();
        let mut out: Vec<Action> = Vec::new();
        let mut i: usize = 0;
        while i < bytes.len()
            invariant
                bytes@ == s.spec_bytes(),
                i <= bytes@.len(),
                out@.len() == i,
                forall|k: int| 0 <= k < i ==> action_of_byte(bytes@[k]) == Some(#[trigger] out@[k]),
            decreases bytes@.len() - i,
        {
            match Action::from_byte(bytes[i]) {
                Some(a) => out.push(a),
                None => {
                    return Err(DbError::InvalidActions);
                },
            }
            i = i + 1;
        }
        Ok(Actions(out))
    }

    /// The actions as letters; `None` when there are none.
    pub fn to_string(&self) -> (r: Option<String>)
        ensures
            match r {
                None => self.0@.len() == 0,
                Some(s) => self.0@.len() > 0 && s@ == action_letters(self.0@),
            },
    {
        if self.0.len() == 0 {
            return None;
        }
        let mut out = String::new();
        let mut i: usize = 0;
        while i < self.0.len()
            invariant
                i <= self.0@.len(),
                out@ == action_letters(self.0@.subrange(0, i as int)),
            decreases self.0@.len() - i,
        {
            let t = self.0[i].to_text();
            out.append(t);
            proof {
                assert(out@ =~= action_letters(self.0@.subrange(0, i + 1)));
            }
            i = i + 1;
        }
        proof {
            assert(self.0@.subrange(0, self.0@.len() as int) =~= self.0@);
        }
        Some(out)
    }
}

/// What is stored of one player of a hand.
#[derive(Clone, Debug)]
pub struct HandPlayer {
    pub hand_id: Option<u64>,
    pub player: u8,
    pub player_name: Option<String>,
    pub seat: Option<Seat>,
    pub hand: Option<crate::hand::Hand>,
    pub went_to_showdown: bool,
    pub starting_stack: Amount,
    pub pot_contribution: Amount,
    pub showdown_stack: Amount,
    pub pre_flop_action: Actions,
    pub flop_action: Actions,
    pub turn_action: Actions,
    pub river_action: Actions,
}

/// The stored form of a game, with its key once it is stored.
pub struct HandData {
    pub id: Option<u64>,
    pub data: GameData,
}

/// Everything that is stored of one finished game.
pub struct HandBundle {
    pub data: HandData,
    pub hand: Hand,
    pub players: Vec<HandPlayer>,
}

/// The street in which the action after the first `n` is taken.
pub open spec fn street_before(actions: Seq<crate::game::Action>, n: int) -> Street
    decreases n,
{
    if n <= 0 {
        Street::PreFlop
    } else {
        match action_street(actions[n - 1]) {
            Some(s) => s,
            None => street_before(actions, n - 1),
        }
    }
}

/// The stored actions of player `p` in street `st` among the first `n` actions.
pub open spec fn player_street_actions(actions: Seq<crate::game::Action>, n: int, p: int, st: Street) -> Seq<Action>
    decreases n,
{
    if n <= 0 {
        Seq::empty()
    } else {
        let prev = player_street_actions(actions, n - 1, p, st);
        let a = actions[n - 1];
        match action_of_game(a) {
            Some(x) => if action_player(a) == Some(Player(p as u8)) && street_before(actions, n - 1) == st {
                prev.push(x)
            } else {
                prev
            },
            None => prev,
        }
    }
}

/// The stored actions of a player in one street.
pub open spec fn street_list(h: HandPlayer, st: Street) -> Seq<Action> {
    match st {
        Street::PreFlop => h.pre_flop_action.0@,
        Street::Flop => h.flop_action.0@,
        Street::Turn => h.turn_action.0@,
        Street::River => h.river_action.0@,
    }
}

fn push_street_action(players: &mut Vec<HandPlayer>, p: usize, st: Street, x: Action)
    requires
        p < old(players)@.len(),
    ensures
        final(players)@.len() == old(players)@.len(),
        forall|q: int| 0 <= q < old(players)@.len() && q != p ==> #[trigger] final(players)@[q] == old(players)@[q],
        forall|s: Street|
            #[trigger] street_list(final(players)@[p as int], s) == if s == st {
                street_list(old(players)@[p as int], s).push(x)
            } else {
                street_list(old(players)@[p as int], s)
            },
        final(players)@[p as int].player == old(players)@[p as int].player,
        final(players)@[p as int].hand_id == old(players)@[p as int].hand_id,
        final(players)@[p as int].player_name == old(players)@[p as int].player_name,
        final(players)@[p as int].seat == old(players)@[p as int].seat,
        final(players)@[p as int].hand == old(players)@[p as int].hand,
        final(players)@[p as int].went_to_showdown == old(players)@[p as int].went_to_showdown,
        final(players)@[p as int].starting_stack == old(players)@[p as int].starting_stack,
        final(players)@[p as int].pot_contribution == old(players)@[p as int].pot_contribution,
        final(players)@[p as int].showdown_stack == old(players)@[p as int].showdown_stack,
{
    let mut h = players.remove(p);
    match st {
        Street::PreFlop => h.pre_flop_action.0.push(x),
        Street::Flop => h.flop_action.0.push(x),
        Street::Turn => h.turn_action.0.push(x),
        Street::River => h.river_action.0.push(x),
    }
    players.insert(p, h);
    proof {
        assert forall|q: int| 0 <= q < old(players)@.len() && q != p implies #[trigger] players@[q] == old(players)@[q] by {
            if q < p {
                assert(players@[q] == old(players)@.remove(p as int)[q]);
            } else {
                assert(players@[q] == old(players)@.remove(p as int)[q - 1]);
            }
        }
    }
}

impl HandBundle {
    /// Everything that is stored of a finished game.
    pub fn from_game(game: &Game) -> (b: HandBundle)
        requires
            game.wf(),
            game.state_spec() is End,
        ensures
            b.data.id is None,
            game.describes(b.data.data),
            summarizes(b.hand, *game, b.data.data),
            b.players@.len() == game.pc(),
            forall|q: int|
                0 <= q < game.pc() ==> {
                    let h = #[trigger] b.players@[q];
                    &&& h.hand_id is None
                    &&& h.player == q
                    &&& h.player_name == game.name_at(q)
                    &&& h.seat == Some(game.seat_at(q))
                    &&& h.hand == game.hand_at(q)
                    &&& h.went_to_showdown == (b.hand.players_at_showdown is Some && game.in_hand(q))
                    &&& h.starting_stack.value() == game.starting(q)
                    &&& h.pot_contribution.value() == game.total_inv(q)
                    &&& h.showdown_stack.value() == game.showdown_stack(q)
                    &&& forall|s: Street|
                        #[trigger] street_list(h, s) == player_street_actions(
                            game.action_log(),
                            game.action_log().len() as int,
                            q,
                            s,
                        )
                },
    {
        let game_data = game.to_game_data();
        let hand = Hand::from_game(game, &game_data);
        let stacks = game.current_stacks();
        let n = game.player_count();
        let mut players: Vec<HandPlayer> = Vec::new();
        let mut i: usize = 0;
        while i < n
            invariant
                game.wf(),
                game.state_spec() is End,
                game.describes(game_data),
                n == game.pc(),
                n <= 10,
                stacks@.len() == n,
                forall|k: int| 0 <= k < n ==> (#[trigger] stacks@[k]).value() == game.showdown_stack(k),
                i <= n,
                players@.len() == i,
                forall|q: int|
                    0 <= q < i ==> {
                        let h = #[trigger] players@[q];
                        &&& h.hand_id is None
                        &&& h.player == q
                        &&& h.player_name == game.name_at(q)
                        &&& h.seat == Some(game.seat_at(q))
                        &&& h.hand == game.hand_at(q)
                        &&& h.went_to_showdown == (hand.players_at_showdown is Some && game.in_hand(q))
                        &&& h.starting_stack.value() == game.starting(q)
                        &&& h.pot_contribution.value() == game.total_inv(q)
                        &&& h.showdown_stack.value() == game.showdown_stack(q)
                        &&& forall|s: Street| #[trigger] street_list(h, s).len() == 0
                    },
            decreases n - i,
        {
            let pd = &game_data.players[i];
            let name = match &pd.name {
                Some(x) => Some(x.clone()),
                None => None,
            };
            let went = hand.players_at_showdown.is_some() && !game.folded(Player(i as u8));
            let h = HandPlayer {
                hand_id: None,
                player: i as u8,
                player_name: name,
                seat: pd.seat,
                hand: pd.hand,
                went_to_showdown: went,
                starting_stack: pd.starting_stack,
                pot_contribution: game.total_invested(Player(i as u8)),
                showdown_stack: stacks[i],
                pre_flop_action: Actions::empty(),
                flop_action: Actions::empty(),
                turn_action: Actions::empty(),
                river_action: Actions::empty(),
            };
            players.push(h);
            i = i + 1;
        }
        let mut bundle = HandBundle { data: HandData { id: None, data: game_data }, hand, players };
        bundle.fill_player_actions(Ghost(*game));
        bundle
    }

    /// Adds each betting action of the stored game to its player's list for
    /// its street.
    pub fn fill_player_actions(&mut self, Ghost(game): Ghost<Game>)
        requires
            game.describes(old(self).data.data),
            old(self).players@.len() == game.pc(),
            game.pc() <= 10,
            forall|q: int, s: Street| 0 <= q < game.pc() ==> #[trigger] street_list(old(self).players@[q], s).len() == 0,
        ensures
            final(self).data == old(self).data,
            final(self).hand == old(self).hand,
            final(self).players@.len() == old(self).players@.len(),
            forall|q: int|
                0 <= q < game.pc() ==> {
                    let h = #[trigger] final(self).players@[q];
                    let h0 = old(self).players@[q];
                    &&& h.hand_id == h0.hand_id
                    &&& h.player == h0.player
                    &&& h.player_name == h0.player_name
                    &&& h.seat == h0.seat
                    &&& h.hand == h0.hand
                    &&& h.went_to_showdown == h0.went_to_showdown
                    &&& h.starting_stack == h0.starting_stack
                    &&& h.pot_contribution == h0.pot_contribution
                    &&& h.showdown_stack == h0.showdown_stack
                    &&& forall|s: Street|
                        #[trigger] street_list(h, s) == player_street_actions(
                            game.action_log(),
                            game.action_log().len() as int,
                            q,
                            s,
                        )
                },
    {
        let n = self.data.data.actions.len();
        let ghost a = self.data.data.actions@;
        let mut street = Street::PreFlop;
        let mut i: usize = 0;
        while i < n
            invariant
                a == game.action_log(),
                a == self.data.data.actions@,
                n == a.len(),
                i <= n,
                street == street_before(a, i as int),
                self.data == old(self).data,
                self.hand == old(self).hand,
                self.players@.len() == old(self).players@.len(),
                self.players@.len() == game.pc(),
                game.pc() <= 10,
                forall|q: int|
                    0 <= q < game.pc() ==> {
                        let h = #[trigger] self.players@[q];
                        let h0 = old(self).players@[q];
                        &&& h.hand_id == h0.hand_id
                        &&& h.player == h0.player
                        &&& h.player_name == h0.player_name
                        &&& h.seat == h0.seat
                        &&& h.hand == h0.hand
                        &&& h.went_to_showdown == h0.went_to_showdown
                        &&& h.starting_stack == h0.starting_stack
                        &&& h.pot_contribution == h0.pot_contribution
                        &&& h.showdown_stack == h0.showdown_stack
                        &&& forall|s: Street| #[trigger] street_list(h, s) == player_street_actions(a, i as int, q, s)
                    },
            decreases n - i,
        {
            let ga = self.data.data.actions[i];
            let ghost before = self.players@;
            match ga.street() {
                Some(s) => {
                    street = s;
                },
                None => match Action::from_game(ga) {
                    Some(x) => {
                        let p = match ga.player() {
                            Some(p) => p.0 as usize,
                            None => self.players.len(),
                        };
                        if p < self.players.len() {
                            push_street_action(&mut self.players, p, street, x);
                        }
                    },
                    None => {},
                },
            }
            proof {
                let ii = i as int;
                assert forall|q: int, s: Street|
                    0 <= q < game.pc() implies #[trigger] street_list(self.players@[q], s) == player_street_actions(
                    a,
                    ii + 1,
                    q,
                    s,
                ) by {
                    assert(street_list(before[q], s) == player_street_actions(a, ii, q, s));
                }
            }
            i = i + 1;
        }
    }
}


/// Number of raises among the first `n` actions.
pub open spec fn raises_in(actions: Seq<crate::game::Action>, n: int) -> int
    decreases n,
{
    if n <= 0 {
        0
    } else {
        raises_in(actions, n - 1) + if actions[n - 1] is Raise {
            1int
        } else {
            0int
        }
    }
}

/// Whether a call comes among the first `n` actions.
pub open spec fn has_call(actions: Seq<crate::game::Action>, n: int) -> bool
    decreases n,
{
    if n <= 0 {
        false
    } else {
        has_call(actions, n - 1) || actions[n - 1] is Call
    }
}

/// The pot kind counts the raises before the flop: none leaves a walk, or a
/// limped pot when somebody called; one raise makes a single raised pot, two
/// a 3-bet pot, three a 4-bet pot, and four or more a 5-bet+ pot.
pub proof fn law_pot_kind_counts_raises(actions: Seq<crate::game::Action>, n: int)
    requires
        0 <= n <= actions.len(),
    ensures
        raises_in(actions, n) == 0 ==> pot_kind_after(actions, n) == if has_call(actions, n) {
            PotKind::Limped
        } else {
            PotKind::Walk
        },
        raises_in(actions, n) == 1 ==> pot_kind_after(actions, n) == PotKind::SRP,
        raises_in(actions, n) == 2 ==> pot_kind_after(actions, n) == PotKind::ThreeBet,
        raises_in(actions, n) == 3 ==> pot_kind_after(actions, n) == PotKind::FourBet,
        raises_in(actions, n) >= 4 ==> pot_kind_after(actions, n) == PotKind::FiveBetPlus,
    decreases n,
{
    if n > 0 {
        law_pot_kind_counts_raises(actions, n - 1);
        assert(raises_in(actions, n - 1) >= 0) by {
            lemma_raises_nonneg(actions, n - 1);
        }
    }
}

proof fn lemma_raises_nonneg(actions: Seq<crate::game::Action>, n: int)
    ensures
        raises_in(actions, n) >= 0,
    decreases n,
{
    if n > 0 {
        lemma_raises_nonneg(actions, n - 1);
    }
}

} // verus!
