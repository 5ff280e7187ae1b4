use vstd::prelude::*;

use crate::card::Rank;
use crate::game::{Action, Amount, MilliBigBlind, Player, State, Street, MAX_PLAYERS, MIN_PLAYERS};
use crate::play::{lemma_plain_players_ok, new_game_error, Game, PlayError, PlayerData};
use crate::range::{cell_combos, cell_hand_set, law_cell_hand_count, RangeEntry};

verus! {

/// The largest frequency: 10 000 stands for 100 %.
pub const MAX_FREQUENCY: u16 = 10_000;

/// Why a range configuration is refused.
#[derive(Clone, Copy, Debug, PartialEq, Eq, Structural)]
pub enum RangeConfigError {
    /// An amount does not fit in a chip amount.
    AmountOutOfRange,
    /// The game the actions are played in refused an action.
    Play(PlayError),
    /// Rounding up the frequencies of an entry overflowed.
    RoundingOverflow,
    /// Two actions of an entry are the same.
    DuplicateAction,
    /// A frequency of the total range is above 100 %.
    TotalRangeFrequencyTooLarge,
    /// A frequency of an action is above 100 %.
    ActionFrequencyTooLarge,
    /// The frequencies of the actions of a range entry add up to more than 100 %.
    TotalFrequenciesOverflow,
    /// The stored frequency of an action is not the one its ranges give.
    BadActionFrequency,
    /// With a fold action, the frequencies of every range entry must add up to 100 %.
    InvalidTotalFrequencies,
    /// The stored total frequency is not the one the total range gives.
    BadTotalFrequency,
    /// The game reached a state in which this library does not play the next
    /// action (see `Game::raise_defined` and `Game::post_defined`), or an action
    /// could not be taken back.
    UnsupportedGameState,
    /// The stack depth is below one big blind.
    DepthTooSmall,
    /// The number of players is not between two and ten.
    InvalidMaxPlayers,
    /// The small blind is not above zero and at most one big blind.
    InvalidSmallBlind,
    /// Two entries have the same previous actions.
    DuplicatePreviousActions,
}

/// A pre flop action of a range configuration; amounts are in thousandths of a
/// big blind, which are chips in a game with a big blind of 1 000.
#[derive(Clone, Copy, Debug, PartialEq, Eq, Structural, Hash)]
pub enum PreFlopAction {
    Post { player: u8, amount: MilliBigBlind },
    Straddle { player: u8, amount: MilliBigBlind },
    Fold,
    Check,
    Call,
    Raise(MilliBigBlind),
}

/// Whether a recorded action is of the kind of a pre flop action.
pub open spec fn same_kind(a: PreFlopAction, action: Action) -> bool {
    match (a, action) {
        (PreFlopAction::Post { .. }, Action::Post { .. }) => true,
        (PreFlopAction::Straddle { .. }, Action::Straddle { .. }) => true,
        (PreFlopAction::Fold, Action::Fold(_)) => true,
        (PreFlopAction::Check, Action::Check(_)) => true,
        (PreFlopAction::Call, Action::Call { .. }) => true,
        (PreFlopAction::Raise(_), Action::Raise { .. }) => true,
        _ => false,
    }
}

/// Whether a value in thousandths of a big blind is a chip amount.
pub open spec fn fits_amount(m: MilliBigBlind) -> bool {
    0 <= m.value() <= u32::MAX
}

/// Whether `game` accepts the pre flop action as the next action.
pub open spec fn pre_flop_ok(game: Game, a: PreFlopAction) -> bool {
    match a {
        PreFlopAction::Post { player, amount } => fits_amount(amount) && game.additional_post_error(
            false,
            Player(player),
            Amount(amount.value() as u32),
            false,
        ) is None,
        PreFlopAction::Straddle { player, amount } => fits_amount(amount) && game.straddle_ok(
            false,
            Player(player),
            Amount(amount.value() as u32),
        ),
        PreFlopAction::Fold => game.fold_ok(false),
        PreFlopAction::Check => game.check_ok(false),
        PreFlopAction::Call => game.call_ok(false),
        PreFlopAction::Raise(to) => fits_amount(to) && game.raise_ok(false, Amount(to.value() as u32), false),
    }
}

/// An error that checking an entry can give (not one about the settings of a
/// whole configuration).
pub open spec fn is_entry_error(e: RangeConfigError) -> bool {
    !(e is DepthTooSmall || e is InvalidMaxPlayers || e is InvalidSmallBlind || e is DuplicatePreviousActions)
}

/// An error about amounts or about the game the actions are played in.
pub open spec fn is_game_error(e: RangeConfigError) -> bool {
    e == RangeConfigError::AmountOutOfRange || e is Play || e == RangeConfigError::UnsupportedGameState
}

/// What playing the pre flop action does to `game`, giving `next`.
pub open spec fn pre_flop_effect(game: Game, next: Game, a: PreFlopAction) -> bool {
    match a {
        PreFlopAction::Post { player, amount } => game.post_effect(
            next,
            Player(player),
            Amount(amount.value() as u32),
            false,
        ),
        PreFlopAction::Straddle { player, amount } => game.straddle_effect(
            next,
            false,
            Player(player),
            Amount(amount.value() as u32),
        ),
        PreFlopAction::Fold => game.fold_effect(next, false),
        PreFlopAction::Check => game.check_effect(next, false),
        PreFlopAction::Call => game.call_effect(next, false),
        PreFlopAction::Raise(to) => game.raise_effect(next, false, Amount(to.value() as u32)),
    }
}

/// The chip amount of a value in thousandths of a big blind, in a game with a
/// big blind of 1 000.
fn to_chips(m: MilliBigBlind) -> (r: Result<Amount, RangeConfigError>)
    ensures
        fits_amount(m) ==> r == Ok::<Amount, RangeConfigError>(Amount(m.value() as u32)),
        !fits_amount(m) ==> r == Err::<Amount, RangeConfigError>(RangeConfigError::AmountOutOfRange),
{
    if m.0 < 0 || m.0 > 4294967295i64 {
        Err(RangeConfigError::AmountOutOfRange)
    } else {
        Ok(Amount(m.0 as u32))
    }
}

impl PreFlopAction {
    /// Whether a recorded action is of the same kind.
    pub fn is_action_kind(self, action: Action) -> (r: bool)
        ensures
            r == same_kind(self, action),
    {
        match (self, action) {
            (PreFlopAction::Post { .. }, Action::Post { .. }) => true,
            (PreFlopAction::Straddle { .. }, Action::Straddle { .. }) => true,
            (PreFlopAction::Fold, Action::Fold(_)) => true,
            (PreFlopAction::Check, Action::Check(_)) => true,
            (PreFlopAction::Call, Action::Call { .. }) => true,
            (PreFlopAction::Raise(_), Action::Raise { .. }) => true,
            _ => false,
        }
    }

    /// Plays the action as the next action of `game`; a raise goes to its total
    /// without the minimum raise check.
    pub fn apply_to_game(self, game: &mut Game) -> (r: Result<(), RangeConfigError>)
        requires
            old(game).wf(),
            pre_flop_defined(*old(game), self),
        ensures
            final(game).wf(),
            r is Ok <==> pre_flop_ok(*old(game), self),
            r is Err ==> *final(game) == *old(game),
            r is Ok ==> pre_flop_effect(*old(game), *final(game), self),
            final(game).keeps_table(*old(game)),
            r matches Err(e) ==> is_game_error(e),
    {
        proof {
            old(game).lemma_keeps_table_refl();
        }
        match self {
            PreFlopAction::Post { player, amount } => {
                let a = to_chips(amount)?;
                match game.additional_post(Player(player), a, false) {
                    Ok(()) => Ok(()),
                    Err(e) => Err(RangeConfigError::Play(e)),
                }
            },
            PreFlopAction::Straddle { player, amount } => {
                let a = to_chips(amount)?;
                match game.straddle(Player(player), a) {
                    Ok(()) => Ok(()),
                    Err(e) => Err(RangeConfigError::Play(e)),
                }
            },
            PreFlopAction::Fold => match game.fold() {
                Ok(()) => Ok(()),
                Err(e) => Err(RangeConfigError::Play(e)),
            },
            PreFlopAction::Check => match game.check() {
                Ok(()) => Ok(()),
                Err(e) => Err(RangeConfigError::Play(e)),
            },
            PreFlopAction::Call => match game.call() {
                Ok(()) => Ok(()),
                Err(e) => Err(RangeConfigError::Play(e)),
            },
            PreFlopAction::Raise(to) => {
                let a = to_chips(to)?;
                match game.unsafe_raise_min_bet_unchecked(a) {
                    Ok(()) => Ok(()),
                    Err(e) => Err(RangeConfigError::Play(e)),
                }
            },
        }
    }
}

impl PreFlopAction {
    /// Whether the computation the action needs is defined on `game` (see
    /// `pre_flop_defined`).
    pub fn defined_on(self, game: &Game) -> (r: bool)
        requires
            game.wf(),
        ensures
            r == pre_flop_defined(*game, self),
    {
        match self {
            PreFlopAction::Raise(_) => game.raise_is_defined(),
            PreFlopAction::Post { .. } => game.post_is_defined(),
            _ => true,
        }
    }
}

/// The cell at position `k` of the row by row layout of the table.
pub open spec fn flat_cell(k: int) -> (int, int) {
    (k / 13, k % 13)
}

/// The cell listed at position `k` of `entries`: rows from aces down, each
/// row from its ace column down.
pub open spec fn listed_cell(k: int) -> (int, int) {
    (12 - k / 13, 12 - k % 13)
}

/// A value for each of the 169 cells of the pre flop table.
#[derive(Debug)]
pub struct PreFlopRangeTableWith<T> {
    pub(crate) table: Vec<T>,
}

impl<T> PreFlopRangeTableWith<T> {
    /// The table holds one value per cell.
    #[verifier::type_invariant]
    spec fn wf(self) -> bool {
        self.table@.len() == 169
    }

    /// The value of cell `c`.
    pub closed spec fn value_at(self, c: (int, int)) -> T {
        self.table@[c.0 * 13 + c.1]
    }
}

proof fn lemma_flat(k: int)
    requires
        0 <= k < 169,
    ensures
        0 <= flat_cell(k).0 < 13,
        0 <= flat_cell(k).1 < 13,
        flat_cell(k).0 * 13 + flat_cell(k).1 == k,
        0 <= listed_cell(k).0 < 13,
        0 <= listed_cell(k).1 < 13,
{
}

proof fn lemma_cell_flat(a: int, b: int)
    requires
        0 <= a < 13,
        0 <= b < 13,
    ensures
        0 <= a * 13 + b < 169,
        flat_cell(a * 13 + b) == (a, b),
{
    assert((a * 13 + b) / 13 == a) by (nonlinear_arith)
        requires
            0 <= a < 13,
            0 <= b < 13,
    ;
    assert((a * 13 + b) % 13 == b) by (nonlinear_arith)
        requires
            0 <= a < 13,
            0 <= b < 13,
    ;
}

/// A wf entry sits inside the table.
proof fn lemma_entry_cell(e: RangeEntry)
    ensures
        0 <= e.cell().0 < 13,
        0 <= e.cell().1 < 13,
{
    e.lemma_cell_bounded();
}

impl<T: Copy> Clone for PreFlopRangeTableWith<T> {
    fn clone(&self) -> (r: Self)
        ensures
            forall|a: int, b: int| 0 <= a < 13 && 0 <= b < 13 ==> r.value_at((a, b)) == self.value_at((a, b)),
    {
        proof {
            use_type_invariant(self);
        }
        let mut table: Vec<T> = Vec::new();
        let mut k: usize = 0;
        while k < 169
            invariant
                k <= 169,
                self.table@.len() == 169,
                table@.len() == k,
                forall|i: int| 0 <= i < k ==> table@[i] == self.table@[i],
            decreases 169 - k,
        {
            table.push(self.table[k]);
            k = k + 1;
        }
        let r = PreFlopRangeTableWith { table };
        proof {
            assert forall|a: int, b: int| 0 <= a < 13 && 0 <= b < 13 implies r.value_at((a, b)) == self.value_at(
                (a, b),
            ) by {
                lemma_cell_flat(a, b);
            }
        }
        r
    }
}

impl<T: Copy> PreFlopRangeTableWith<T> {
    /// The table with `value` in every cell.
    pub fn filled(value: T) -> (t: Self)
        ensures
            forall|a: int, b: int| 0 <= a < 13 && 0 <= b < 13 ==> t.value_at((a, b)) == value,
    {
        let mut table: Vec<T> = Vec::new();
        let mut k: usize = 0;
        while k < 169
            invariant
                k <= 169,
                table@.len() == k,
                forall|i: int| 0 <= i < k ==> table@[i] == value,
            decreases 169 - k,
        {
            table.push(value);
            k = k + 1;
        }
        let t = PreFlopRangeTableWith { table };
        proof {
            assert forall|a: int, b: int| 0 <= a < 13 && 0 <= b < 13 implies t.value_at((a, b)) == value by {
                lemma_cell_flat(a, b);
            }
        }
        t
    }

    /// The value of the entry's cell.
    pub fn get(&self, entry: RangeEntry) -> (v: T)
        ensures
            v == self.value_at(entry.cell()),
    {
        proof {
            use_type_invariant(self);
        }
        let (a, b) = entry.first_second();
        proof {
            lemma_entry_cell(entry);
            lemma_cell_flat(a.index(), b.index());
        }
        self.table[a.to_usize() * 13 + b.to_usize()]
    }

    /// The value at position `k` of the row by row layout.
    fn get_flat(&self, k: usize) -> (v: T)
        requires
            k < 169,
        ensures
            v == self.value_at(flat_cell(k as int)),
    {
        proof {
            use_type_invariant(self);
            lemma_flat(k as int);
        }
        self.table[k]
    }

    /// Sets the value of the entry's cell.
    pub fn set(&mut self, entry: RangeEntry, value: T)
        ensures
            final(self).value_at(entry.cell()) == value,
            forall|a: int, b: int|
                0 <= a < 13 && 0 <= b < 13 && (a, b) != entry.cell() ==> final(self).value_at((a, b))
                    == old(self).value_at((a, b)),
    {
        proof {
            use_type_invariant(&*self);
        }
        let (a, b) = entry.first_second();
        proof {
            lemma_entry_cell(entry);
            lemma_cell_flat(a.index(), b.index());
        }
        let target = a.to_usize() * 13 + b.to_usize();
        let mut table: Vec<T> = Vec::new();
        let mut k: usize = 0;
        while k < 169
            invariant
                k <= 169,
                self.table@.len() == 169,
                target < 169,
                table@.len() == k,
                forall|i: int| 0 <= i < k ==> table@[i] == if i == target {
                    value
                } else {
                    self.table@[i]
                },
            decreases 169 - k,
        {
            if k == target {
                table.push(value);
            } else {
                table.push(self.table[k]);
            }
            k = k + 1;
        }
        self.table = table;
        proof {
            assert forall|x: int, y: int|
                0 <= x < 13 && 0 <= y < 13 && (x, y) != entry.cell() implies self.value_at((x, y)) == old(
                self,
            ).value_at((x, y)) by {
                lemma_cell_flat(x, y);
                lemma_cell_flat(a.index(), b.index());
            }
        }
    }

    /// The entries of the table with their values: rows from aces down, each
    /// row from its ace column down.
    pub fn entries(&self) -> (v: Vec<(RangeEntry, T)>)
        ensures
            v@.len() == 169,
            forall|k: int|
                0 <= k < 169 ==> (#[trigger] v@[k]).0.cell() == listed_cell(k) && v@[k].1 == self.value_at(
                    listed_cell(k),
                ) && v@[k].0.wf(),
    {
        let mut v: Vec<(RangeEntry, T)> = Vec::new();
        let mut k: usize = 0;
        while k < 169
            invariant
                k <= 169,
                v@.len() == k,
                forall|i: int|
                    0 <= i < k ==> (#[trigger] v@[i]).0.cell() == listed_cell(i) && v@[i].1 == self.value_at(
                        listed_cell(i),
                    ) && v@[i].0.wf(),
            decreases 169 - k,
        {
            proof {
                lemma_flat(k as int);
            }
            let row = Rank::from_usize(12 - k / 13);
            let column = Rank::from_usize(12 - k % 13);
            let entry = RangeEntry::from_row_column(row, column);
            let value = self.get(entry);
            v.push((entry, value));
            k = k + 1;
        }
        v
    }
}

/// Sum over the first `n` cells (row by row) of the total frequency, the
/// number of hands of the cell and the action frequency.
pub open spec fn action_weight(total: PreFlopRangeTableWith<u16>, range: PreFlopRangeTableWith<u16>, n: int) -> int
    decreases n,
{
    if n <= 0 {
        0
    } else {
        action_weight(total, range, n - 1) + total.value_at(flat_cell(n - 1)) * cell_combos(
            flat_cell(n - 1).0,
            flat_cell(n - 1).1,
        ) * range.value_at(flat_cell(n - 1))
    }
}

/// Sum over the first `n` cells (row by row) of the number of hands of the cell
/// times its total frequency.
pub open spec fn total_weight(total: PreFlopRangeTableWith<u16>, n: int) -> int
    decreases n,
{
    if n <= 0 {
        0
    } else {
        total_weight(total, n - 1) + cell_combos(flat_cell(n - 1).0, flat_cell(n - 1).1) * total.value_at(
            flat_cell(n - 1),
        )
    }
}

/// The frequency of an action over a total range: how many hands of the total
/// range take the action, each weighted by both frequencies.
pub fn action_frequency(total: &PreFlopRangeTableWith<u16>, range: &PreFlopRangeTableWith<u16>) -> (f: u64)
    ensures
        f == action_weight(*total, *range, 169),
{
    let mut f: u64 = 0;
    let mut k: usize = 0;
    while k < 169
        invariant
            k <= 169,
            f == action_weight(*total, *range, k as int),
            f <= k * (65535 * 12 * 65535),
        decreases 169 - k,
    {
        let t = total.get_flat(k);
        let r = range.get_flat(k);
        let c: u64 = combos_flat(k);
        proof {
            assert(t as u64 * c <= 65535 * 12) by (nonlinear_arith)
                requires
                    c <= 12,
            ;
            assert(t as u64 * c * r as u64 <= 65535 * 12 * 65535) by (nonlinear_arith)
                requires
                    t * c <= 65535 * 12,
            ;
        }
        let term: u64 = t as u64 * c * r as u64;
        proof {
            assert(f + term <= (k + 1) * (65535 * 12 * 65535)) by (nonlinear_arith)
                requires
                    f <= k * (65535 * 12 * 65535),
                    term <= 65535 * 12 * 65535,
            ;
            assert((k + 1) * (65535 * 12 * 65535) <= 169 * (65535 * 12 * 65535)) by (nonlinear_arith)
                requires
                    k < 169,
            ;
        }
        f = f + term;
        k = k + 1;
    }
    f
}

/// The number of hands of the cell at position `k` of the row by row layout.
fn combos_flat(k: usize) -> (c: u64)
    requires
        k < 169,
    ensures
        c == cell_combos(flat_cell(k as int).0, flat_cell(k as int).1),
        c <= 12,
{
    let a = k / 13;
    let b = k % 13;
    if a == b {
        6
    } else if a > b {
        4
    } else {
        12
    }
}

/// The weighted number of hands of a total range.
pub fn total_frequency(total: &PreFlopRangeTableWith<u16>) -> (f: u64)
    ensures
        f == total_weight(*total, 169),
{
    let mut f: u64 = 0;
    let mut k: usize = 0;
    while k < 169
        invariant
            k <= 169,
            f == total_weight(*total, k as int),
            f <= k * (12 * 65535),
        decreases 169 - k,
    {
        let t = total.get_flat(k);
        let c: u64 = combos_flat(k);
        proof {
            assert(c * t as u64 <= 12 * 65535) by (nonlinear_arith)
                requires
                    c <= 12,
            ;
        }
        let term: u64 = c * t as u64;
        proof {
            assert(f + term <= (k + 1) * (12 * 65535)) by (nonlinear_arith)
                requires
                    f <= k * (12 * 65535),
                    term <= 12 * 65535,
            ;
        }
        f = f + term;
        k = k + 1;
    }
    f
}

/// One action of a range configuration entry, with its frequency per cell.
#[derive(Clone, Debug)]
pub struct RangeAction {
    pub(crate) action: PreFlopAction,
    pub(crate) frequency: u64,
    pub(crate) range: PreFlopRangeTableWith<u16>,
    pub(crate) ev: Option<PreFlopRangeTableWith<MilliBigBlind>>,
}

impl RangeAction {
    pub closed spec fn spec_action(self) -> PreFlopAction {
        self.action
    }

    pub closed spec fn spec_frequency(self) -> int {
        self.frequency as int
    }

    pub closed spec fn spec_range(self) -> PreFlopRangeTableWith<u16> {
        self.range
    }

    pub closed spec fn spec_ev(self) -> Option<PreFlopRangeTableWith<MilliBigBlind>> {
        self.ev
    }

    /// The action with its frequency over `total_range`.
    pub fn new(
        action: PreFlopAction,
        total_range: &PreFlopRangeTableWith<u16>,
        range: PreFlopRangeTableWith<u16>,
        ev: Option<PreFlopRangeTableWith<MilliBigBlind>>,
    ) -> (r: RangeAction)
        ensures
            r.spec_action() == action,
            r.spec_range() == range,
            r.spec_ev() == ev,
            r.spec_frequency() == action_weight(*total_range, range, 169),
    {
        let frequency = action_frequency(total_range, &range);
        RangeAction { action, frequency, range, ev }
    }

    /// The action from stored parts; the stored frequency is checked when the
    /// entry holding the action is built.
    pub fn from_parts(
        action: PreFlopAction,
        frequency: u64,
        range: PreFlopRangeTableWith<u16>,
        ev: Option<PreFlopRangeTableWith<MilliBigBlind>>,
    ) -> (r: RangeAction)
        ensures
            r.spec_action() == action,
            r.spec_frequency() == frequency,
            r.spec_range() == range,
            r.spec_ev() == ev,
    {
        RangeAction { action, frequency, range, ev }
    }

    /// The stored frequency of the action.
    pub fn frequency(&self) -> (f: u64)
        ensures
            f == self.spec_frequency(),
    {
        self.frequency
    }

    /// The action.
    pub fn action(&self) -> (a: PreFlopAction)
        ensures
            a == self.spec_action(),
    {
        self.action
    }

    /// The frequency of the action per cell, 10 000 standing for 100 %.
    pub fn range(&self) -> (r: &PreFlopRangeTableWith<u16>)
        ensures
            *r == self.spec_range(),
    {
        &self.range
    }

    /// The expected value per cell, when known.
    pub fn ev(&self) -> (r: Option<&PreFlopRangeTableWith<MilliBigBlind>>)
        ensures
            match self.spec_ev() {
                Some(e) => r == Some(&e),
                None => r is None,
            },
    {
        match &self.ev {
            Some(e) => Some(e),
            None => None,
        }
    }
}

/// Whether `c` is a cell of the table.
pub open spec fn in_table(c: (int, int)) -> bool {
    0 <= c.0 < 13 && 0 <= c.1 < 13
}

/// Sum of the frequencies of cell `c` over the first `n` actions.
pub open spec fn cell_sum(acts: Seq<RangeAction>, c: (int, int), n: int) -> int
    decreases n,
{
    if n <= 0 {
        0
    } else {
        cell_sum(acts, c, n - 1) + acts[n - 1].spec_range().value_at(c)
    }
}

/// No two actions are the same.
pub open spec fn actions_distinct(acts: Seq<RangeAction>) -> bool {
    forall|i: int, j: int| 0 <= i < j < acts.len() ==> acts[i].spec_action() != acts[j].spec_action()
}

/// One of the actions is a fold.
pub open spec fn has_fold_action(acts: Seq<RangeAction>) -> bool {
    exists|i: int| 0 <= i < acts.len() && acts[i].spec_action() == PreFlopAction::Fold
}

/// The frequency rules of an entry: distinct actions, frequencies of at most
/// 100 %, action frequencies of a cell adding up to at most 100 % (exactly
/// 100 % when one action is a fold), and stored frequencies that match the ranges.
pub open spec fn frequencies_ok(total: PreFlopRangeTableWith<u16>, total_frequency: int, acts: Seq<RangeAction>) -> bool {
    &&& actions_distinct(acts)
    &&& forall|c: (int, int)| in_table(c) ==> total.value_at(c) <= MAX_FREQUENCY
    &&& forall|i: int, c: (int, int)|
        0 <= i < acts.len() && in_table(c) ==> acts[i].spec_range().value_at(c) <= MAX_FREQUENCY
    &&& forall|c: (int, int)| in_table(c) ==> cell_sum(acts, c, acts.len() as int) <= MAX_FREQUENCY
    &&& forall|i: int|
        0 <= i < acts.len() ==> acts[i].spec_frequency() == action_weight(total, acts[i].spec_range(), 169)
    &&& has_fold_action(acts) ==> forall|c: (int, int)|
        in_table(c) ==> cell_sum(acts, c, acts.len() as int) == MAX_FREQUENCY
    &&& total_frequency == total_weight(total, 169)
}

/// Action `i` has the largest frequency in cell `c`, and is the last one that has it.
pub open spec fn is_last_max(acts: Seq<RangeAction>, c: (int, int), i: int) -> bool {
    &&& 0 <= i < acts.len()
    &&& forall|j: int| 0 <= j < acts.len() ==> acts[j].spec_range().value_at(c) <= acts[i].spec_range().value_at(c)
    &&& forall|j: int| i < j < acts.len() ==> acts[j].spec_range().value_at(c) < acts[i].spec_range().value_at(c)
}

/// The frequency of action `i` in cell `c` once rounded up: when one action is
/// a fold and the frequencies of the cell add up to less than 100 %, the rest
/// goes to the action with the largest frequency (the last one of several).
pub open spec fn rounded_value(acts: Seq<RangeAction>, c: (int, int), i: int) -> int {
    let v = acts[i].spec_range().value_at(c) as int;
    let sum = cell_sum(acts, c, acts.len() as int);
    if has_fold_action(acts) && sum < MAX_FREQUENCY && is_last_max(acts, c, i) {
        v + (MAX_FREQUENCY - sum)
    } else {
        v
    }
}

/// Rounding up overflows: with a fold action, the frequencies of some cell
/// add up to more than a `u16` holds.
pub open spec fn rounding_overflows(acts: Seq<RangeAction>) -> bool {
    has_fold_action(acts) && exists|c: (int, int)| in_table(c) && cell_sum(acts, c, acts.len() as int) > 65535
}

proof fn lemma_cell_sum_bounds(acts: Seq<RangeAction>, c: (int, int), n: int, i: int)
    requires
        0 <= i < n <= acts.len(),
    ensures
        acts[i].spec_range().value_at(c) <= cell_sum(acts, c, n),
        cell_sum(acts, c, i) <= cell_sum(acts, c, n),
        0 <= cell_sum(acts, c, i),
    decreases n,
{
    if n - 1 > i {
        lemma_cell_sum_bounds(acts, c, n - 1, i);
    } else {
        lemma_cell_sum_nonneg(acts, c, i);
    }
}

proof fn lemma_cell_sum_nonneg(acts: Seq<RangeAction>, c: (int, int), n: int)
    ensures
        0 <= cell_sum(acts, c, n),
    decreases n,
{
    if n > 0 {
        lemma_cell_sum_nonneg(acts, c, n - 1);
    }
}

/// The frequency sums of every cell over `acts` (row by row), or the overflow error.
fn cell_sums(acts: &Vec<RangeAction>) -> (r: Result<(Vec<u16>, Vec<usize>), RangeConfigError>)
    requires
        acts@.len() > 0,
    ensures
        r is Err <==> exists|c: (int, int)| in_table(c) && cell_sum(acts@, c, acts@.len() as int) > 65535,
        r is Err ==> r == Err::<(Vec<u16>, Vec<usize>), RangeConfigError>(RangeConfigError::RoundingOverflow),
        r matches Ok((sums, best)) ==> sums@.len() == 169 && best@.len() == 169 && forall|k: int|
            0 <= k < 169 ==> #[trigger] sums@[k] == cell_sum(acts@, flat_cell(k), acts@.len() as int) && is_last_max(
                acts@,
                flat_cell(k),
                best@[k] as int,
            ),
{
    let mut sums: Vec<u16> = Vec::new();
    let mut best: Vec<usize> = Vec::new();
    let mut k: usize = 0;
    while k < 169
        invariant
            acts@.len() > 0,
            k <= 169,
            sums@.len() == k,
            best@.len() == k,
            forall|j: int|
                0 <= j < k ==> sums@[j] == cell_sum(acts@, flat_cell(j), acts@.len() as int) && is_last_max(
                    acts@,
                    flat_cell(j),
                    best@[j] as int,
                ),
        decreases 169 - k,
    {
        let ghost c = flat_cell(k as int);
        let mut sum: u16 = 0;
        let mut m: usize = 0;
        let mut i: usize = 0;
        while i < acts.len()
            invariant
                acts@.len() > 0,
                k < 169,
                c == flat_cell(k as int),
                i <= acts@.len(),
                sum == cell_sum(acts@, c, i as int),
                i > 0 ==> m < i && (forall|j: int| 0 <= j < i ==> acts@[j].spec_range().value_at(c)
                    <= acts@[m as int].spec_range().value_at(c)) && (forall|j: int|
                    m < j < i ==> acts@[j].spec_range().value_at(c) < acts@[m as int].spec_range().value_at(c)),
            decreases acts@.len() - i,
        {
            let v = acts[i].range.get_flat(k);
            if i == 0 || v >= acts[m].range.get_flat(k) {
                m = i;
            }
            match sum.checked_add(v) {
                Some(t) => {
                    sum = t;
                },
                None => {
                    proof {
                        lemma_flat(k as int);
                        if i + 1 < acts@.len() {
                            lemma_cell_sum_bounds(acts@, c, acts@.len() as int, i + 1);
                        }
                        assert(in_table(c) && cell_sum(acts@, c, acts@.len() as int) > 65535);
                    }
                    return Err(RangeConfigError::RoundingOverflow);
                },
            }
            i = i + 1;
        }
        sums.push(sum);
        best.push(m);
        k = k + 1;
    }
    proof {
        assert forall|c: (int, int)| in_table(c) implies cell_sum(acts@, c, acts@.len() as int) <= 65535 by {
            lemma_cell_flat(c.0, c.1);
            assert(sums@[c.0 * 13 + c.1] == cell_sum(acts@, c, acts@.len() as int));
        }
    }
    Ok((sums, best))
}

/// The action with each cell rounded up as `rounded_value` says, its frequency
/// recomputed over `total`.
#[verifier::spinoff_prover]
fn round_action(
    a: RangeAction,
    i: usize,
    sums: &Vec<u16>,
    best: &Vec<usize>,
    total: &PreFlopRangeTableWith<u16>,
    Ghost(acts): Ghost<Seq<RangeAction>>,
) -> (r: RangeAction)
    requires
        0 <= i < acts.len(),
        acts[i as int] == a,
        has_fold_action(acts),
        sums@.len() == 169,
        best@.len() == 169,
        forall|k: int|
            0 <= k < 169 ==> #[trigger] sums@[k] == cell_sum(acts, flat_cell(k), acts.len() as int)
                && is_last_max(acts, flat_cell(k), best@[k] as int),
    ensures
        r.spec_action() == a.spec_action(),
        r.spec_ev() == a.spec_ev(),
        forall|c: (int, int)| in_table(c) ==> r.spec_range().value_at(c) == rounded_value(acts, c, i as int),
        r.spec_frequency() == action_weight(*total, r.spec_range(), 169),
{
    proof {
        assert(sums@[0] == cell_sum(acts, flat_cell(0), acts.len() as int));
        use_type_invariant(&a.range);
        assert(forall|j: int|
                0 <= j < 169 ==> #[trigger] sums@[j] == cell_sum(acts, flat_cell(j), acts.len() as int) && is_last_max(
                    acts,
                    flat_cell(j),
                    best@[j] as int,
                ));
    }
    let mut table: Vec<u16> = Vec::new();
    let mut k: usize = 0;
    while k < 169
        invariant
            k <= 169,
            a.range.table@.len() == 169,
            0 <= i < acts.len(),
            acts[i as int] == a,
            has_fold_action(acts),
            sums@.len() == 169,
            best@.len() == 169,
            forall|j: int|
                0 <= j < 169 ==> #[trigger] sums@[j] == cell_sum(acts, flat_cell(j), acts.len() as int) && is_last_max(
                    acts,
                    flat_cell(j),
                    best@[j] as int,
                ),
            table@.len() == k,
            forall|j: int| 0 <= j < k ==> table@[j] == rounded_value(acts, flat_cell(j), i as int),
        decreases 169 - k,
    {
        let v = a.range.get_flat(k);
        proof {
            lemma_cell_sum_bounds(acts, flat_cell(k as int), acts.len() as int, i as int);
        }
        if sums[k] < MAX_FREQUENCY && best[k] == i {
            table.push(v + (MAX_FREQUENCY - sums[k]));
        } else {
            table.push(v);
            proof {
                if sums[k as int] < MAX_FREQUENCY && is_last_max(acts, flat_cell(k as int), i as int) {
                    assert(is_last_max(acts, flat_cell(k as int), best@[k as int] as int));
                    assert(best@[k as int] == i);
                }
            }
        }
        k = k + 1;
    }
    let range = PreFlopRangeTableWith { table };
    proof {
        assert forall|c: (int, int)| in_table(c) implies range.value_at(c) == rounded_value(acts, c, i as int) by {
            lemma_cell_flat(c.0, c.1);
        }
    }
    let frequency = action_frequency(total, &range);
    RangeAction { action: a.action, frequency, range, ev: a.ev }
}

/// Whether one of the actions is a fold.
fn contains_fold_action(acts: &Vec<RangeAction>) -> (r: bool)
    ensures
        r == has_fold_action(acts@),
{
    let mut i: usize = 0;
    while i < acts.len()
        invariant
            i <= acts@.len(),
            forall|j: int| 0 <= j < i ==> acts@[j].spec_action() != PreFlopAction::Fold,
        decreases acts@.len() - i,
    {
        if acts[i].action == PreFlopAction::Fold {
            return true;
        }
        i = i + 1;
    }
    false
}

/// Rounds up the frequencies of the actions (see `rounded_value`) and
/// recomputes their frequencies over `total`.
fn round_up(acts: Vec<RangeAction>, total: &PreFlopRangeTableWith<u16>) -> (r: Result<Vec<RangeAction>, RangeConfigError>)
    ensures
        r is Err <==> rounding_overflows(acts@),
        r is Err ==> r == Err::<Vec<RangeAction>, RangeConfigError>(RangeConfigError::RoundingOverflow),
        r matches Ok(v) ==> rounded_actions(acts@, v@, *total),
{
    if !contains_fold_action(&acts) {
        proof {
            assert forall|i: int, c: (int, int)| 0 <= i < acts@.len() && in_table(c) implies acts@[i].spec_range().value_at(c) == rounded_value(acts@, c, i) by {}
        }
        return recompute_frequencies(acts, total);
    }
    let (sums, best) = cell_sums(&acts)?;
    let ghost orig = acts@;
    let mut rest = acts;
    let mut out: Vec<RangeAction> = Vec::new();
    let mut i: usize = 0;
    let n = rest.len();
    while rest.len() > 0
        invariant
            n == orig.len(),
            has_fold_action(orig),
            sums@.len() == 169,
            best@.len() == 169,
            forall|k: int|
                0 <= k < 169 ==> #[trigger] sums@[k] == cell_sum(orig, flat_cell(k), orig.len() as int) && is_last_max(
                    orig,
                    flat_cell(k),
                    best@[k] as int,
                ),
            i + rest@.len() == n,
            rest@ == orig.subrange(i as int, n as int),
            out@.len() == i,
            forall|j: int| 0 <= j < i ==> rounded_action(orig, j, #[trigger] out@[j], *total),
        decreases rest@.len(),
    {
        let a = rest.remove(0);
        proof {
            assert(a == orig[i as int]);
        }
        let r = round_action(a, i, &sums, &best, total, Ghost(orig));
        out.push(r);
        proof {
            assert(rest@ =~= orig.subrange(i + 1, n as int));
        }
        i = i + 1;
    }
    Ok(out)
}

/// Action `out` is action `j` of `acts` with its frequencies rounded up and its
/// frequency recomputed over `total`.
pub open spec fn rounded_action(acts: Seq<RangeAction>, j: int, out: RangeAction, total: PreFlopRangeTableWith<u16>) -> bool {
    &&& out.spec_action() == acts[j].spec_action()
    &&& out.spec_ev() == acts[j].spec_ev()
    &&& forall|c: (int, int)| in_table(c) ==> out.spec_range().value_at(c) == rounded_value(acts, c, j)
    &&& out.spec_frequency() == action_weight(total, out.spec_range(), 169)
}

/// Every action of `out` is the action of `acts` at its position, rounded up.
pub open spec fn rounded_actions(acts: Seq<RangeAction>, out: Seq<RangeAction>, total: PreFlopRangeTableWith<u16>) -> bool {
    &&& out.len() == acts.len()
    &&& forall|j: int| 0 <= j < acts.len() ==> rounded_action(acts, j, #[trigger] out[j], total)
}

/// The actions with their frequencies recomputed over `total`.
fn recompute_frequencies(acts: Vec<RangeAction>, total: &PreFlopRangeTableWith<u16>) -> (r: Result<Vec<RangeAction>, RangeConfigError>)
    requires
        forall|i: int, c: (int, int)| 0 <= i < acts@.len() && in_table(c) ==> acts@[i].spec_range().value_at(c) == rounded_value(acts@, c, i),
    ensures
        r matches Ok(v) && rounded_actions(acts@, v@, *total),
{
    let ghost orig = acts@;
    let mut rest = acts;
    let mut out: Vec<RangeAction> = Vec::new();
    let mut i: usize = 0;
    let n = rest.len();
    while rest.len() > 0
        invariant
            n == orig.len(),
            forall|j: int, c: (int, int)| 0 <= j < orig.len() && in_table(c) ==> orig[j].spec_range().value_at(c) == rounded_value(orig, c, j),
            i + rest@.len() == n,
            rest@ == orig.subrange(i as int, n as int),
            out@.len() == i,
            forall|j: int| 0 <= j < i ==> rounded_action(orig, j, #[trigger] out@[j], *total),
        decreases rest@.len(),
    {
        let a = rest.remove(0);
        let frequency = action_frequency(total, &a.range);
        let r = RangeAction { action: a.action, frequency, range: a.range, ev: a.ev };
        out.push(r);
        proof {
            assert(rest@ =~= orig.subrange(i + 1, n as int));
        }
        i = i + 1;
    }
    Ok(out)
}

/// Whether two action lists are the same.
fn same_actions(a: &[PreFlopAction], b: &[PreFlopAction]) -> (r: bool)
    ensures
        r == (a@ == b@),
{
    if a.len() != b.len() {
        return false;
    }
    let mut i: usize = 0;
    while i < a.len()
        invariant
            a@.len() == b@.len(),
            i <= a@.len(),
            forall|j: int| 0 <= j < i ==> a@[j] == b@[j],
        decreases a@.len() - i,
    {
        if a[i] != b[i] {
            return false;
        }
        i = i + 1;
    }
    proof {
        assert(a@ =~= b@);
    }
    true
}

/// The players of the game an entry is played in: `max_players` players with
/// `depth` chips each and nothing else known of them.
pub open spec fn plain_players(max_players: int, depth: MilliBigBlind) -> Seq<PlayerData> {
    Seq::new(
        max_players as nat,
        |i: int|
            PlayerData { name: None, seat: None, hand: None, starting_stack: Amount(depth.value() as u32) },
    )
}

/// The computation `a` needs is defined on `game`: the raise computation for
/// a raise, the post check for a post.
pub open spec fn pre_flop_defined(game: Game, a: PreFlopAction) -> bool {
    &&& a is Raise ==> game.raise_defined()
    &&& a is Post ==> game.post_defined()
}

/// `a` can be played as the next action of `game`, in a state this library
/// plays (see `pre_flop_defined`).
pub open spec fn step_ok(game: Game, a: PreFlopAction) -> bool {
    pre_flop_defined(game, a) && pre_flop_ok(game, a)
}

/// `games` starts at `start`, and each later game is what playing the next of
/// the first `n` actions on the game before it gives.
pub open spec fn plays_through(start: Game, games: Seq<Game>, actions: Seq<PreFlopAction>, n: int) -> bool {
    &&& 0 <= n <= actions.len()
    &&& games.len() == n + 1
    &&& games[0] == start
    &&& forall|k: int| 0 <= k <= n ==> (#[trigger] games[k]).wf()
    &&& forall|k: int|
        0 <= k < n ==> step_ok(#[trigger] games[k], actions[k]) && pre_flop_effect(games[k], games[k + 1], actions[k])
}

/// The game of an entry can be built: the amounts fit, the players can sit
/// down, and however the previous actions are played from the table with the
/// blinds posted, each of them can be played when its turn comes.
pub open spec fn game_builds(
    max_players: int,
    depth: MilliBigBlind,
    small_blind: MilliBigBlind,
    actions: Seq<PreFlopAction>,
) -> bool {
    &&& fits_amount(depth)
    &&& fits_amount(small_blind)
    &&& new_game_error(plain_players(max_players, depth), Player(0)) is None
    &&& forall|fresh: Game, start: Game, games: Seq<Game>, n: int|
        #![trigger fresh.opens(plain_players(max_players, depth), Player(0), Amount(small_blind.value() as u32), Amount(1000)), start.blinds_posted(fresh, false), plays_through(start, games, actions, n)]
        fresh.opens(plain_players(max_players, depth), Player(0), Amount(small_blind.value() as u32), Amount(1000))
            && start.blinds_posted(fresh, false) && plays_through(start, games, actions, n) && n < actions.len()
            ==> step_ok(games[n], actions[n])
}

/// The game the actions of an entry are played in: `max_players` players with
/// `depth` chips each, the first player on the button, the given small blind and
/// a big blind of 1 000, the blinds posted and `previous_actions` played.
pub fn build_game(
    max_players: usize,
    depth: MilliBigBlind,
    small_blind: MilliBigBlind,
    previous_actions: &[PreFlopAction],
) -> (r: Result<Game, RangeConfigError>)
    ensures
        !fits_amount(depth) ==> r == Err::<Game, RangeConfigError>(RangeConfigError::AmountOutOfRange),
        fits_amount(depth) && !fits_amount(small_blind) ==> r == Err::<Game, RangeConfigError>(
            RangeConfigError::AmountOutOfRange,
        ),
        r matches Ok(g) ==> {
            &&& g.wf()
            &&& g.pc() == max_players
            &&& g.button_player() == Player(0)
            &&& g.small_blind_amount() == Amount(small_blind.value() as u32)
            &&& g.big_blind_amount() == Amount(1000)
            &&& g.hero_of() is None
            &&& forall|i: int|
                0 <= i < max_players ==> g.starting(i) == depth.value() && g.name_at(i) is None && #[trigger] g.hand_at(
                    i,
                ) is None
        },
        r matches Err(e) ==> is_game_error(e),
        MIN_PLAYERS <= max_players <= MAX_PLAYERS && fits_amount(depth) && fits_amount(small_blind)
            && depth.value() > 0 && max_players * depth.value() <= u32::MAX && previous_actions@.len() == 0
            ==> r is Ok,
        game_builds(max_players as int, depth, small_blind, previous_actions@) ==> r is Ok,
        r matches Ok(g) ==> exists|fresh: Game, start: Game, games: Seq<Game>|
            #![trigger fresh.opens(plain_players(max_players as int, depth), Player(0), Amount(small_blind.value() as u32), Amount(1000)), start.blinds_posted(fresh, false), plays_through(start, games, previous_actions@, previous_actions@.len() as int)]
            fresh.opens(plain_players(max_players as int, depth), Player(0), Amount(small_blind.value() as u32), Amount(1000))
                && start.blinds_posted(fresh, false) && plays_through(start, games, previous_actions@, previous_actions@.len() as int)
                && games.last() == g,
{
    let d = to_chips(depth)?;
    let ghost plain = plain_players(max_players as int, depth);
    let mut players: Vec<PlayerData> = Vec::new();
    let mut i: usize = 0;
    while i < max_players
        invariant
            i <= max_players,
            players@.len() == i,
            d == Amount(depth.value() as u32),
            plain == plain_players(max_players as int, depth),
            forall|k: int| 0 <= k < i ==> (#[trigger] players@[k]) == plain[k],
        decreases max_players - i,
    {
        players.push(PlayerData::with_starting_stack(d));
        i = i + 1;
    }
    proof {
        assert(players@ =~= plain);
        if MIN_PLAYERS <= max_players <= MAX_PLAYERS && depth.value() > 0 && max_players * depth.value()
            <= u32::MAX {
            assert forall|k: int| 0 <= k < players@.len() implies (#[trigger] players@[k]).name is None
                && players@[k].seat is None && players@[k].hand is None && players@[k].starting_stack == d by {
                assert(players@[k] == plain[k]);
            }
            lemma_plain_players_ok(players@, d);
        }
    }
    let sb = to_chips(small_blind)?;
    let mut game = match Game::new(players.as_slice(), Player(0), sb, Amount(1000)) {
        Ok(g) => g,
        Err(e) => return Err(RangeConfigError::Play(e)),
    };
    let ghost fresh = game;
    assert forall|i: int|
        0 <= i < max_players implies fresh.starting(i) == depth.value() && fresh.name_at(i) is None
            && #[trigger] fresh.hand_at(i) is None by {
        assert(players@[i] == plain[i]);
    }
    match game.post_small_and_big_blind() {
        Ok(()) => {},
        Err(e) => return Err(RangeConfigError::Play(e)),
    }
    let ghost start = game;
    let ghost mut games: Seq<Game> = seq![game];
    let ghost acts = previous_actions@;
    let mut k: usize = 0;
    while k < previous_actions.len()
        invariant
            game.wf(),
            fits_amount(depth),
            fits_amount(small_blind),
            acts == previous_actions@,
            k <= acts.len(),
            fresh.opens(plain, Player(0), Amount(small_blind.value() as u32), Amount(1000)),
            plain == plain_players(max_players as int, depth),
            start.blinds_posted(fresh, false),
            plays_through(start, games, acts, k as int),
            games[k as int] == game,
            game.keeps_table(fresh),
            fresh.pc() == max_players,
            fresh.button_player() == Player(0),
            fresh.small_blind_amount() == Amount(small_blind.value() as u32),
            fresh.big_blind_amount() == Amount(1000),
            fresh.hero_of() is None,
            forall|i: int|
                0 <= i < max_players ==> fresh.starting(i) == depth.value() && fresh.name_at(i) is None
                    && #[trigger] fresh.hand_at(i) is None,
        decreases acts.len() - k,
    {
        if !previous_actions[k].defined_on(&game) {
            proof {
                assert(!step_ok(games[k as int], acts[k as int]));
            }
            return Err(RangeConfigError::UnsupportedGameState);
        }
        let ghost before = game;
        let step = previous_actions[k].apply_to_game(&mut game);
        if let Err(e) = step {
            proof {
                assert(!step_ok(games[k as int], acts[k as int]));
            }
            return Err(e);
        }
        proof {
            Game::lemma_keeps_table_trans(fresh, before, game);
            let next = games.push(game);
            assert(step_ok(before, acts[k as int]));
            assert forall|j: int| 0 <= j <= k + 1 implies (#[trigger] next[j]).wf() by {
                if j <= k {
                    assert(next[j] == games[j]);
                }
            }
            assert forall|j: int| 0 <= j < k + 1 implies step_ok(#[trigger] next[j], acts[j])
                && pre_flop_effect(next[j], next[j + 1], acts[j]) by {
                if j < k {
                    assert(next[j] == games[j]);
                    assert(next[j + 1] == games[j + 1]);
                    assert(step_ok(games[j], acts[j]));
                }
            }
            games = next;
        }
        k = k + 1;
    }
    proof {
        Game::lemma_keeps_table_fields(fresh, game);
    }
    Ok(game)
}

/// The ranges of the actions a player takes after some previous actions.
#[derive(Clone, Debug)]
pub struct RangeConfigEntry {
    pub(crate) previous_actions: Vec<PreFlopAction>,
    pub(crate) total_range: PreFlopRangeTableWith<u16>,
    pub(crate) total_frequency: u64,
    pub(crate) actions: Vec<RangeAction>,
}

/// The stored form of a range configuration entry.
#[derive(Clone, Debug)]
pub struct RangeConfigEntryData {
    pub previous_actions: Vec<PreFlopAction>,
    pub total_range: PreFlopRangeTableWith<u16>,
    pub total_frequency: u64,
    pub actions: Vec<RangeAction>,
}

/// Each frequency error names a rule of `frequencies_ok` that is broken.
pub open spec fn error_has_cause(
    r: Result<(), RangeConfigError>,
    total: PreFlopRangeTableWith<u16>,
    total_frequency: int,
    acts: Seq<RangeAction>,
) -> bool {
    &&& r == Err::<(), RangeConfigError>(RangeConfigError::DuplicateAction) ==> !actions_distinct(acts)
    &&& r == Err::<(), RangeConfigError>(RangeConfigError::TotalRangeFrequencyTooLarge) ==> exists|c: (int, int)|
        in_table(c) && total.value_at(c) > MAX_FREQUENCY
    &&& r == Err::<(), RangeConfigError>(RangeConfigError::ActionFrequencyTooLarge) ==> exists|i: int, c: (int, int)|
        0 <= i < acts.len() && in_table(c) && acts[i].spec_range().value_at(c) > MAX_FREQUENCY
    &&& r == Err::<(), RangeConfigError>(RangeConfigError::TotalFrequenciesOverflow) ==> exists|c: (int, int)|
        in_table(c) && cell_sum(acts, c, acts.len() as int) > MAX_FREQUENCY
    &&& r == Err::<(), RangeConfigError>(RangeConfigError::BadActionFrequency) ==> exists|i: int|
        0 <= i < acts.len() && acts[i].spec_frequency() != action_weight(total, acts[i].spec_range(), 169)
    &&& r == Err::<(), RangeConfigError>(RangeConfigError::InvalidTotalFrequencies) ==> has_fold_action(acts)
        && exists|c: (int, int)| in_table(c) && cell_sum(acts, c, acts.len() as int) != MAX_FREQUENCY
    &&& r == Err::<(), RangeConfigError>(RangeConfigError::BadTotalFrequency) ==> total_frequency != total_weight(
        total,
        169,
    )
}

/// `states` starts at `start`; each of the first `n` actions is played on
/// the state before it, giving the game in `tried`, and taken back, giving the
/// next state.
pub open spec fn tries_through(
    start: Game,
    states: Seq<Game>,
    tried: Seq<Game>,
    acts: Seq<RangeAction>,
    n: int,
) -> bool {
    &&& 0 <= n <= acts.len()
    &&& states.len() == n + 1
    &&& tried.len() == n
    &&& states[0] == start
    &&& forall|k: int| 0 <= k <= n ==> (#[trigger] states[k]).wf()
    &&& forall|k: int|
        0 <= k < n ==> step_ok(#[trigger] states[k], acts[k].spec_action()) && pre_flop_effect(
            states[k],
            tried[k],
            acts[k].spec_action(),
        ) && tried[k].wf() && tried[k].undo_effect(states[k + 1])
}

/// Every action of an entry can be tried on its game: however the previous
/// actions and the actions before it were played and taken back, the action
/// can be played, and however it was played, it can be taken back.
pub open spec fn actions_playable(
    max_players: int,
    depth: MilliBigBlind,
    small_blind: MilliBigBlind,
    previous_actions: Seq<PreFlopAction>,
    acts: Seq<RangeAction>,
) -> bool {
    forall|fresh: Game, start: Game, games: Seq<Game>, states: Seq<Game>, tried: Seq<Game>, n: int|
        #![trigger fresh.opens(plain_players(max_players, depth), Player(0), Amount(small_blind.value() as u32), Amount(1000)), start.blinds_posted(fresh, false), plays_through(start, games, previous_actions, previous_actions.len() as int), tries_through(games.last(), states, tried, acts, n)]
        fresh.opens(plain_players(max_players, depth), Player(0), Amount(small_blind.value() as u32), Amount(1000))
            && start.blinds_posted(fresh, false) && plays_through(start, games, previous_actions, previous_actions.len() as int)
            && tries_through(games.last(), states, tried, acts, n) && n < acts.len() ==> step_ok(
            states[n],
            acts[n].spec_action(),
        ) && forall|next: Game|
            #![trigger pre_flop_effect(states[n], next, acts[n].spec_action())]
            pre_flop_effect(states[n], next, acts[n].spec_action()) && next.wf() ==> next.at_final_action()
                && next.can_step_back()
}

/// A game error of an entry comes from its previous actions, when they do not
/// build a game (see `game_builds`), or else from trying one of its actions
/// (see `actions_playable`).
pub open spec fn game_error_cause(
    e: RangeConfigError,
    max_players: int,
    depth: MilliBigBlind,
    small_blind: MilliBigBlind,
    previous_actions: Seq<PreFlopAction>,
    acts: Seq<RangeAction>,
) -> bool {
    is_game_error(e) ==> !game_builds(max_players, depth, small_blind, previous_actions) || !actions_playable(
        max_players,
        depth,
        small_blind,
        previous_actions,
        acts,
    )
}

/// What an error of an entry says of it: a frequency error names a broken
/// rule (see `error_has_cause`), a game error comes from the game (see
/// `game_error_cause`).
pub open spec fn entry_error_cause(
    e: RangeConfigError,
    d: RangeConfigEntryData,
    max_players: int,
    depth: MilliBigBlind,
    small_blind: MilliBigBlind,
) -> bool {
    &&& error_has_cause(Err(e), d.total_range, total_weight(d.total_range, 169), d.actions@)
    &&& game_error_cause(e, max_players, depth, small_blind, d.previous_actions@, d.actions@)
}

/// An entry whose game builds, whose actions can be tried on it, and whose
/// frequencies keep the rules.
pub open spec fn entry_ok(
    previous_actions: Seq<PreFlopAction>,
    total_range: PreFlopRangeTableWith<u16>,
    acts: Seq<RangeAction>,
    max_players: int,
    depth: MilliBigBlind,
    small_blind: MilliBigBlind,
) -> bool {
    &&& game_builds(max_players, depth, small_blind, previous_actions)
    &&& actions_playable(max_players, depth, small_blind, previous_actions, acts)
    &&& frequencies_ok(total_range, total_weight(total_range, 169), acts)
}

/// Whether two actions of the list are the same.
fn has_duplicate_action(acts: &Vec<RangeAction>) -> (r: bool)
    ensures
        r == !actions_distinct(acts@),
{
    let mut i: usize = 0;
    while i < acts.len()
        invariant
            i <= acts@.len(),
            forall|a: int, b: int| 0 <= a < i && a < b < acts@.len() ==> acts@[a].spec_action() != acts@[b].spec_action(),
        decreases acts@.len() - i,
    {
        let mut j: usize = i + 1;
        while j < acts.len()
            invariant
                i < acts@.len(),
                i < j <= acts@.len(),
                forall|a: int, b: int| 0 <= a < i && a < b < acts@.len() ==> acts@[a].spec_action() != acts@[b].spec_action(),
                forall|b: int| i < b < j ==> acts@[i as int].spec_action() != acts@[b].spec_action(),
            decreases acts@.len() - j,
        {
            if acts[i].action == acts[j].action {
                return true;
            }
            j = j + 1;
        }
        i = i + 1;
    }
    false
}

impl RangeConfigEntry {
    pub closed spec fn spec_previous_actions(self) -> Seq<PreFlopAction> {
        self.previous_actions@
    }

    pub closed spec fn spec_total_range(self) -> PreFlopRangeTableWith<u16> {
        self.total_range
    }

    pub closed spec fn spec_total_frequency(self) -> int {
        self.total_frequency as int
    }

    pub closed spec fn spec_actions(self) -> Seq<RangeAction> {
        self.actions@
    }

    /// Checks the entry: the previous actions can be played, every action can be
    /// played after them, and the frequency rules of `frequencies_ok` hold.
    fn validate(&self, max_players: usize, depth: MilliBigBlind, small_blind: MilliBigBlind) -> (r: Result<(), RangeConfigError>)
        ensures
            r is Ok ==> frequencies_ok(self.total_range, self.total_frequency as int, self.actions@),
            error_has_cause(r, self.total_range, self.total_frequency as int, self.actions@),
            r matches Err(e) ==> is_entry_error(e),
            r matches Err(e) ==> game_error_cause(
                e,
                max_players as int,
                depth,
                small_blind,
                self.previous_actions@,
                self.actions@,
            ),
            game_builds(max_players as int, depth, small_blind, self.previous_actions@) && actions_playable(
                max_players as int,
                depth,
                small_blind,
                self.previous_actions@,
                self.actions@,
            ) && frequencies_ok(self.total_range, self.total_frequency as int, self.actions@) ==> r is Ok,
    {
        let ghost acts = self.actions@;
        let ghost total = self.total_range;
        let ghost prev = self.previous_actions@;
        let mut game = build_game(max_players, depth, small_blind, self.previous_actions.as_slice())?;
        let ghost built: (Game, Game, Seq<Game>) = choose|fresh: Game, start: Game, games: Seq<Game>|
            #![trigger fresh.opens(plain_players(max_players as int, depth), Player(0), Amount(small_blind.value() as u32), Amount(1000)), start.blinds_posted(fresh, false), plays_through(start, games, prev, prev.len() as int)]
            fresh.opens(plain_players(max_players as int, depth), Player(0), Amount(small_blind.value() as u32), Amount(1000))
                && start.blinds_posted(fresh, false) && plays_through(start, games, prev, prev.len() as int)
                && games.last() == game;
        let ghost fresh = built.0;
        let ghost start = built.1;
        let ghost games = built.2;
        let ghost mut states: Seq<Game> = seq![game];
        let ghost mut tried: Seq<Game> = Seq::empty();
        if has_duplicate_action(&self.actions) {
            return Err(RangeConfigError::DuplicateAction);
        }
        let mut f: usize = 0;
        while f < 169
            invariant
                f <= 169,
                total == self.total_range,
                forall|j: int| 0 <= j < f ==> total.value_at(flat_cell(j)) <= MAX_FREQUENCY,
            decreases 169 - f,
        {
            if self.total_range.get_flat(f) > MAX_FREQUENCY {
                proof {
                    lemma_flat(f as int);
                    assert(in_table(flat_cell(f as int)) && total.value_at(flat_cell(f as int)) > MAX_FREQUENCY);
                }
                return Err(RangeConfigError::TotalRangeFrequencyTooLarge);
            }
            f = f + 1;
        }
        proof {
            assert forall|c: (int, int)| in_table(c) implies total.value_at(c) <= MAX_FREQUENCY by {
                lemma_cell_flat(c.0, c.1);
            }
        }
        let mut totals: Vec<u16> = Vec::new();
        while totals.len() < 169
            invariant
                totals@.len() <= 169,
                forall|j: int| 0 <= j < totals@.len() ==> totals@[j] == 0,
            decreases 169 - totals@.len(),
        {
            totals.push(0);
        }
        let mut i: usize = 0;
        while i < self.actions.len()
            invariant
                game.wf(),
                acts == self.actions@,
                total == self.total_range,
                i <= acts.len(),
                totals@.len() == 169,
                forall|j: int| 0 <= j < 169 ==> totals@[j] <= MAX_FREQUENCY,
                actions_distinct(acts),
                forall|c: (int, int)| in_table(c) ==> total.value_at(c) <= MAX_FREQUENCY,
                forall|j: int| 0 <= j < 169 ==> #[trigger] totals@[j] == cell_sum(acts, flat_cell(j), i as int),
                forall|a: int, c: (int, int)|
                    0 <= a < i && in_table(c) ==> acts[a].spec_range().value_at(c) <= MAX_FREQUENCY,
                forall|a: int| 0 <= a < i ==> acts[a].spec_frequency() == action_weight(total, acts[a].spec_range(), 169),
                prev == self.previous_actions@,
                fresh.opens(plain_players(max_players as int, depth), Player(0), Amount(small_blind.value() as u32), Amount(1000)),
                start.blinds_posted(fresh, false),
                plays_through(start, games, prev, prev.len() as int),
                tries_through(games.last(), states, tried, acts, i as int),
                states[i as int] == game,
            decreases acts.len() - i,
        {
            let a = self.actions[i].action;
            if !a.defined_on(&game) {
                proof {
                    assert(!step_ok(states[i as int], acts[i as int].spec_action()));
                }
                return Err(RangeConfigError::UnsupportedGameState);
            }
            let ghost before = game;
            match a.apply_to_game(&mut game) {
                Ok(()) => {},
                Err(e) => {
                    proof {
                        assert(!step_ok(states[i as int], acts[i as int].spec_action()));
                    }
                    return Err(e);
                },
            }
            let ghost after = game;
            match game.undo() {
                Ok(()) => {},
                Err(_) => {
                    proof {
                        assert(pre_flop_effect(states[i as int], after, acts[i as int].spec_action()) && after.wf());
                        assert(!(after.at_final_action() && after.can_step_back()));
                    }
                    return Err(RangeConfigError::UnsupportedGameState);
                },
            }
            proof {
                let ns = states.push(game);
                let nt = tried.push(after);
                assert forall|k: int| 0 <= k <= i + 1 implies (#[trigger] ns[k]).wf() by {
                    if k <= i {
                        assert(ns[k] == states[k]);
                    }
                }
                assert forall|k: int| 0 <= k < i + 1 implies step_ok(#[trigger] ns[k], acts[k].spec_action())
                    && pre_flop_effect(ns[k], nt[k], acts[k].spec_action()) && nt[k].wf() && nt[k].undo_effect(
                    ns[k + 1],
                ) by {
                    if k < i {
                        assert(ns[k] == states[k]);
                        assert(ns[k + 1] == states[k + 1]);
                        assert(nt[k] == tried[k]);
                        assert(step_ok(states[k], acts[k].spec_action()));
                    }
                }
                states = ns;
                tried = nt;
            }
            let range = &self.actions[i].range;
            let mut g: usize = 169;
            while g > 0
                invariant
                    acts == self.actions@,
                    i < acts.len(),
                    *range == acts[i as int].spec_range(),
                    g <= 169,
                    totals@.len() == 169,
                    forall|j: int| 0 <= j < 169 ==> totals@[j] <= MAX_FREQUENCY,
                    forall|j: int| 0 <= j < g ==> #[trigger] totals@[j] == cell_sum(acts, flat_cell(j), i as int),
                    forall|j: int| g <= j < 169 ==> #[trigger] totals@[j] == cell_sum(acts, flat_cell(j), i + 1),
                    forall|j: int| g <= j < 169 ==> range.value_at(flat_cell(j)) <= MAX_FREQUENCY,
                decreases g,
            {
                let h = g - 1;
                let v = range.get_flat(h);
                if v > MAX_FREQUENCY {
                    proof {
                        lemma_flat(h as int);
                        assert(in_table(flat_cell(h as int)));
                    }
                    return Err(RangeConfigError::ActionFrequencyTooLarge);
                }
                let t = totals[h];
                if t as u32 + v as u32 > MAX_FREQUENCY as u32 {
                    proof {
                        lemma_flat(h as int);
                        let c = flat_cell(h as int);
                        assert(cell_sum(acts, c, i + 1) > MAX_FREQUENCY);
                        if i + 1 < acts.len() {
                            lemma_cell_sum_bounds(acts, c, acts.len() as int, i + 1);
                        }
                        assert(in_table(c) && cell_sum(acts, c, acts.len() as int) > MAX_FREQUENCY);
                    }
                    return Err(RangeConfigError::TotalFrequenciesOverflow);
                }
                totals.set(h, t + v);
                g = h;
            }
            let expected = action_frequency(&self.total_range, range);
            if self.actions[i].frequency != expected {
                return Err(RangeConfigError::BadActionFrequency);
            }
            proof {
                assert forall|c: (int, int)| in_table(c) implies acts[i as int].spec_range().value_at(c) <= MAX_FREQUENCY by {
                    lemma_cell_flat(c.0, c.1);
                }
            }
            i = i + 1;
        }
        proof {
            assert forall|c: (int, int)| in_table(c) implies cell_sum(acts, c, acts.len() as int) <= MAX_FREQUENCY by {
                lemma_cell_flat(c.0, c.1);
                assert(totals@[c.0 * 13 + c.1] == cell_sum(acts, c, acts.len() as int));
            }
        }
        if contains_fold_action(&self.actions) {
            let mut f: usize = 0;
            while f < 169
                invariant
                    acts == self.actions@,
                    has_fold_action(acts),
                    totals@.len() == 169,
                    forall|j: int| 0 <= j < 169 ==> #[trigger] totals@[j] == cell_sum(acts, flat_cell(j), acts.len() as int),
                    f <= 169,
                    forall|j: int| 0 <= j < f ==> cell_sum(acts, flat_cell(j), acts.len() as int) == MAX_FREQUENCY,
                decreases 169 - f,
            {
                if totals[f] != MAX_FREQUENCY {
                    proof {
                        lemma_flat(f as int);
                        assert(totals@[f as int] == cell_sum(acts, flat_cell(f as int), acts.len() as int));
                        assert(in_table(flat_cell(f as int)) && cell_sum(acts, flat_cell(f as int), acts.len() as int)
                            != MAX_FREQUENCY);
                    }
                    return Err(RangeConfigError::InvalidTotalFrequencies);
                }
                f = f + 1;
            }
            proof {
                assert forall|c: (int, int)| in_table(c) implies cell_sum(acts, c, acts.len() as int) == MAX_FREQUENCY by {
                    lemma_cell_flat(c.0, c.1);
                }
            }
        }
        if self.total_frequency != total_frequency(&self.total_range) {
            return Err(RangeConfigError::BadTotalFrequency);
        }
        Ok(())
    }

    /// An entry from its parts: when `round_up_frequencies` is set, the
    /// frequencies are first rounded up (see `rounded_value`); then the total
    /// frequency is computed and the entry checked (see `validate`).
    pub fn new(
        previous_actions: Vec<PreFlopAction>,
        total_range: PreFlopRangeTableWith<u16>,
        actions: Vec<RangeAction>,
        max_players: usize,
        depth: MilliBigBlind,
        small_blind: MilliBigBlind,
        round_up_frequencies: bool,
    ) -> (r: Result<RangeConfigEntry, RangeConfigError>)
        ensures
            round_up_frequencies && rounding_overflows(actions@) ==> r == Err::<RangeConfigEntry, RangeConfigError>(
                RangeConfigError::RoundingOverflow,
            ),
            r matches Err(e) ==> is_entry_error(e),
            r matches Ok(e) ==> {
                &&& e.spec_previous_actions() == previous_actions@
                &&& e.spec_total_range() == total_range
                &&& e.spec_total_frequency() == total_weight(total_range, 169)
                &&& if round_up_frequencies {
                    rounded_actions(actions@, e.spec_actions(), total_range)
                } else {
                    e.spec_actions() == actions@
                }
                &&& frequencies_ok(total_range, e.spec_total_frequency(), e.spec_actions())
            },
            !round_up_frequencies ==> error_has_cause(
                match r {
                    Ok(_) => Ok(()),
                    Err(e) => Err(e),
                },
                total_range,
                total_weight(total_range, 169),
                actions@,
            ),
            !round_up_frequencies ==> (r matches Err(e) ==> game_error_cause(
                e,
                max_players as int,
                depth,
                small_blind,
                previous_actions@,
                actions@,
            )),
            !round_up_frequencies && entry_ok(
                previous_actions@,
                total_range,
                actions@,
                max_players as int,
                depth,
                small_blind,
            ) ==> r is Ok,
            round_up_frequencies && !rounding_overflows(actions@) && (forall|rounded: Seq<RangeAction>|
                #[trigger] rounded_actions(actions@, rounded, total_range) ==> entry_ok(
                    previous_actions@,
                    total_range,
                    rounded,
                    max_players as int,
                    depth,
                    small_blind,
                )) ==> r is Ok,
    {
        let actions = if round_up_frequencies {
            round_up(actions, &total_range)?
        } else {
            actions
        };
        let total_frequency = total_frequency(&total_range);
        let entry = RangeConfigEntry { previous_actions, total_range, total_frequency, actions };
        match entry.validate(max_players, depth, small_blind) {
            Ok(()) => Ok(entry),
            Err(e) => Err(e),
        }
    }

    /// The actions before this decision, the blinds not counted.
    pub fn previous_actions(&self) -> (r: &[PreFlopAction])
        ensures
            r@ == self.spec_previous_actions(),
    {
        self.previous_actions.as_slice()
    }

    /// The frequency of each cell in the range of the player to act.
    pub fn total_range(&self) -> (r: &PreFlopRangeTableWith<u16>)
        ensures
            *r == self.spec_total_range(),
    {
        &self.total_range
    }

    /// The actions with their ranges.
    pub fn actions(&self) -> (r: &[RangeAction])
        ensures
            r@ == self.spec_actions(),
    {
        self.actions.as_slice()
    }

    /// The entry from its stored form; the stored total frequency is computed anew.
    pub fn from_data(
        data: RangeConfigEntryData,
        max_players: usize,
        depth: MilliBigBlind,
        small_blind: MilliBigBlind,
    ) -> (r: Result<RangeConfigEntry, RangeConfigError>)
        ensures
            r matches Ok(e) ==> {
                &&& e.spec_previous_actions() == data.previous_actions@
                &&& e.spec_total_range() == data.total_range
                &&& e.spec_total_frequency() == total_weight(data.total_range, 169)
                &&& e.spec_actions() == data.actions@
                &&& frequencies_ok(data.total_range, e.spec_total_frequency(), e.spec_actions())
            },
            r matches Err(e) ==> is_entry_error(e),
            error_has_cause(
                match r {
                    Ok(_) => Ok(()),
                    Err(e) => Err(e),
                },
                data.total_range,
                total_weight(data.total_range, 169),
                data.actions@,
            ),
            r matches Err(e) ==> game_error_cause(
                e,
                max_players as int,
                depth,
                small_blind,
                data.previous_actions@,
                data.actions@,
            ),
            entry_ok(
                data.previous_actions@,
                data.total_range,
                data.actions@,
                max_players as int,
                depth,
                small_blind,
            ) ==> r is Ok,
    {
        Self::new(
            data.previous_actions,
            data.total_range,
            data.actions,
            max_players,
            depth,
            small_blind,
            false,
        )
    }

    /// The stored form of the entry.
    pub fn to_data(self) -> (d: RangeConfigEntryData)
        ensures
            d.previous_actions@ == self.spec_previous_actions(),
            d.total_range == self.spec_total_range(),
            d.total_frequency == self.spec_total_frequency(),
            d.actions@ == self.spec_actions(),
    {
        RangeConfigEntryData {
            previous_actions: self.previous_actions,
            total_range: self.total_range,
            total_frequency: self.total_frequency,
            actions: self.actions,
        }
    }
}

/// The stored form of a range configuration.
#[derive(Clone, Debug)]
pub struct RangeConfigData {
    pub description: Option<String>,
    pub max_players: usize,
    pub depth: MilliBigBlind,
    pub small_blind: MilliBigBlind,
    pub ranges: Vec<RangeConfigEntryData>,
}

/// Pre flop ranges for a table size, stack depth and small blind, one entry per
/// sequence of previous actions.
#[derive(Clone, Debug)]
pub struct RangeConfig {
    pub(crate) description: Option<String>,
    pub(crate) max_players: usize,
    pub(crate) depth: MilliBigBlind,
    pub(crate) small_blind: MilliBigBlind,
    pub(crate) ranges: Vec<RangeConfigEntry>,
}

/// Why the settings of a configuration are refused, checked in this order.
pub open spec fn config_settings_error(data: RangeConfigData) -> Option<RangeConfigError> {
    if data.depth.value() < 1000 {
        Some(RangeConfigError::DepthTooSmall)
    } else if data.max_players < MIN_PLAYERS || data.max_players > MAX_PLAYERS {
        Some(RangeConfigError::InvalidMaxPlayers)
    } else if data.small_blind.value() <= 0 || data.small_blind.value() > 1000 {
        Some(RangeConfigError::InvalidSmallBlind)
    } else {
        None
    }
}

/// Two entries have the same previous actions.
pub open spec fn has_duplicate_previous_actions(ranges: Seq<RangeConfigEntryData>) -> bool {
    exists|i: int, j: int|
        0 <= i < j < ranges.len() && ranges[i].previous_actions@ == ranges[j].previous_actions@
}

/// `e` is the entry read from `d` with the given settings.
pub open spec fn entry_from_data(d: RangeConfigEntryData, e: RangeConfigEntry) -> bool {
    &&& e.spec_previous_actions() == d.previous_actions@
    &&& e.spec_total_range() == d.total_range
    &&& e.spec_total_frequency() == total_weight(d.total_range, 169)
    &&& e.spec_actions() == d.actions@
    &&& frequencies_ok(d.total_range, e.spec_total_frequency(), e.spec_actions())
}

impl RangeConfig {
    pub closed spec fn spec_description(self) -> Option<String> {
        self.description
    }

    pub closed spec fn spec_max_players(self) -> usize {
        self.max_players
    }

    pub closed spec fn spec_depth(self) -> MilliBigBlind {
        self.depth
    }

    pub closed spec fn spec_small_blind(self) -> MilliBigBlind {
        self.small_blind
    }

    pub closed spec fn spec_ranges(self) -> Seq<RangeConfigEntry> {
        self.ranges@
    }

    /// The configuration from its stored form: the settings are checked, then
    /// each entry in order, refusing one whose previous actions an earlier entry has.
    pub fn from_data(data: RangeConfigData) -> (r: Result<RangeConfig, RangeConfigError>)
        ensures
            config_settings_error(data) matches Some(e) ==> r == Err::<RangeConfig, RangeConfigError>(e),
            r matches Ok(c) ==> {
                &&& config_settings_error(data) is None
                &&& !has_duplicate_previous_actions(data.ranges@)
                &&& c.spec_description() == data.description
                &&& c.spec_max_players() == data.max_players
                &&& c.spec_depth() == data.depth
                &&& c.spec_small_blind() == data.small_blind
                &&& c.spec_ranges().len() == data.ranges@.len()
                &&& forall|i: int|
                    0 <= i < data.ranges@.len() ==> entry_from_data(data.ranges@[i], #[trigger] c.spec_ranges()[i])
            },
            r == Err::<RangeConfig, RangeConfigError>(RangeConfigError::DuplicatePreviousActions)
                ==> has_duplicate_previous_actions(data.ranges@),
            r matches Err(e) ==> config_settings_error(data) == Some(e) || (e == RangeConfigError::DuplicatePreviousActions
                && has_duplicate_previous_actions(data.ranges@)) || exists|i: int|
                0 <= i < data.ranges@.len() && entry_error_cause(
                    e,
                    #[trigger] data.ranges@[i],
                    data.max_players as int,
                    data.depth,
                    data.small_blind,
                ),
            config_settings_error(data) is None && !has_duplicate_previous_actions(data.ranges@) && (forall|i: int|
                0 <= i < data.ranges@.len() ==> entry_ok(
                    (#[trigger] data.ranges@[i]).previous_actions@,
                    data.ranges@[i].total_range,
                    data.ranges@[i].actions@,
                    data.max_players as int,
                    data.depth,
                    data.small_blind,
                )) ==> r is Ok,
    {
        if data.depth.0 < 1000 {
            return Err(RangeConfigError::DepthTooSmall);
        }
        if data.max_players < MIN_PLAYERS || data.max_players > MAX_PLAYERS {
            return Err(RangeConfigError::InvalidMaxPlayers);
        }
        if data.small_blind.0 <= 0 || data.small_blind.0 > 1000 {
            return Err(RangeConfigError::InvalidSmallBlind);
        }
        let ghost all = data.ranges@;
        let mut seen: Vec<Vec<PreFlopAction>> = Vec::new();
        let mut ranges: Vec<RangeConfigEntry> = Vec::new();
        let mut rest = data.ranges;
        let n = rest.len();
        let mut i: usize = 0;
        while rest.len() > 0
            invariant
                n == all.len(),
                all == data.ranges@,
                config_settings_error(data) is None,
                i + rest@.len() == n,
                rest@ == all.subrange(i as int, n as int),
                seen@.len() == i,
                ranges@.len() == i,
                forall|j: int| 0 <= j < i ==> (#[trigger] seen@[j])@ == all[j].previous_actions@,
                forall|a: int, b: int| 0 <= a < b < i ==> all[a].previous_actions@ != all[b].previous_actions@,
                forall|j: int| 0 <= j < i ==> entry_from_data(all[j], #[trigger] ranges@[j]),
            decreases rest@.len(),
        {
            let entry = rest.remove(0);
            proof {
                assert(entry == all[i as int]);
            }
            let mut k: usize = 0;
            while k < seen.len()
                invariant
                    i < n,
                    n == all.len(),
                    all == data.ranges@,
                    config_settings_error(data) is None,
                    entry == all[i as int],
                    seen@.len() == i,
                    k <= i,
                    forall|j: int| 0 <= j < i ==> (#[trigger] seen@[j])@ == all[j].previous_actions@,
                    forall|j: int| 0 <= j < k ==> all[j].previous_actions@ != entry.previous_actions@,
                decreases i - k,
            {
                if same_actions(seen[k].as_slice(), entry.previous_actions.as_slice()) {
                    proof {
                        assert(all[k as int].previous_actions@ == all[i as int].previous_actions@);
                        assert(0 <= k < i < all.len());
                    }
                    return Err(RangeConfigError::DuplicatePreviousActions);
                }
                k = k + 1;
            }
            let previous = copy_actions(entry.previous_actions.as_slice());
            let e = match RangeConfigEntry::from_data(entry, data.max_players, data.depth, data.small_blind) {
                Ok(e) => e,
                Err(err) => {
                    proof {
                        assert(entry_error_cause(
                            err,
                            all[i as int],
                            data.max_players as int,
                            data.depth,
                            data.small_blind,
                        ));
                    }
                    return Err(err);
                },
            };
            seen.push(previous);
            ranges.push(e);
            proof {
                assert(rest@ =~= all.subrange(i + 1, n as int));
            }
            i = i + 1;
        }
        proof {
            assert(!has_duplicate_previous_actions(all));
        }
        Ok(RangeConfig {
            description: data.description,
            max_players: data.max_players,
            depth: data.depth,
            small_blind: data.small_blind,
            ranges,
        })
    }

    /// The stored form of the configuration.
    pub fn to_data(self) -> (d: RangeConfigData)
        ensures
            d.description == self.spec_description(),
            d.max_players == self.spec_max_players(),
            d.depth == self.spec_depth(),
            d.small_blind == self.spec_small_blind(),
            d.ranges@.len() == self.spec_ranges().len(),
            forall|i: int|
                0 <= i < d.ranges@.len() ==> {
                    let e = self.spec_ranges()[i];
                    &&& (#[trigger] d.ranges@[i]).previous_actions@ == e.spec_previous_actions()
                    &&& d.ranges@[i].total_range == e.spec_total_range()
                    &&& d.ranges@[i].total_frequency == e.spec_total_frequency()
                    &&& d.ranges@[i].actions@ == e.spec_actions()
                },
    {
        let ghost all = self.ranges@;
        let mut rest = self.ranges;
        let n = rest.len();
        let mut out: Vec<RangeConfigEntryData> = Vec::new();
        let mut i: usize = 0;
        while rest.len() > 0
            invariant
                n == all.len(),
                i + rest@.len() == n,
                rest@ == all.subrange(i as int, n as int),
                out@.len() == i,
                forall|j: int|
                    0 <= j < i ==> {
                        let e = all[j];
                        &&& (#[trigger] out@[j]).previous_actions@ == e.spec_previous_actions()
                        &&& out@[j].total_range == e.spec_total_range()
                        &&& out@[j].total_frequency == e.spec_total_frequency()
                        &&& out@[j].actions@ == e.spec_actions()
                    },
            decreases rest@.len(),
        {
            let e = rest.remove(0);
            proof {
                assert(e == all[i as int]);
            }
            out.push(e.to_data());
            proof {
                assert(rest@ =~= all.subrange(i + 1, n as int));
            }
            i = i + 1;
        }
        RangeConfigData {
            description: self.description,
            max_players: self.max_players,
            depth: self.depth,
            small_blind: self.small_blind,
            ranges: out,
        }
    }
}

impl Default for RangeConfig {
    /// Ten players, one hundred big blinds deep, a small blind of half a big blind, no ranges.
    fn default() -> (r: RangeConfig)
        ensures
            r.spec_description() is None,
            r.spec_max_players() == MAX_PLAYERS,
            r.spec_depth().value() == 100_000,
            r.spec_small_blind().value() == 500,
            r.spec_ranges().len() == 0,
    {
        RangeConfig {
            description: None,
            max_players: MAX_PLAYERS,
            depth: MilliBigBlind(100_000),
            small_blind: MilliBigBlind(500),
            ranges: Vec::new(),
        }
    }
}

/// A copy of a list of actions.
fn copy_actions(a: &[PreFlopAction]) -> (r: Vec<PreFlopAction>)
    ensures
        r@ == a@,
{
    let mut r: Vec<PreFlopAction> = Vec::new();
    let mut i: usize = 0;
    while i < a.len()
        invariant
            i <= a@.len(),
            r@ == a@.subrange(0, i as int),
        decreases a@.len() - i,
    {
        r.push(a[i]);
        proof {
            assert(r@ =~= a@.subrange(0, i + 1));
        }
        i = i + 1;
    }
    proof {
        assert(a@.subrange(0, a@.len() as int) =~= a@);
    }
    r
}

/// Why no entry of a configuration fits a game.
#[derive(Clone, Copy, Debug, PartialEq, Eq, Structural)]
pub enum RangeLookupError {
    /// The game has more players than the configuration.
    TooManyPlayers,
    /// The game is heads up but the configuration is not.
    NotHeadsUp,
    /// The small blinds differ.
    SmallBlindMismatch,
    /// A starting stack is not as deep as the configuration.
    DepthMismatch,
    /// The blinds are not posted yet.
    MissingPosts,
    /// The game is past the pre flop.
    NotPreFlop,
    /// No entry has the previous actions of the game.
    NoMatchingRange,
}

/// Whether an entry with `previous` actions fits the recorded `actions` of a
/// game with `skip` fewer players than the configuration: the skipped players
/// fold, and the other actions (after the two blinds) are of the same kinds.
pub open spec fn entry_fits(previous: Seq<PreFlopAction>, actions: Seq<Action>, skip: int) -> bool {
    &&& actions.len() >= 2
    &&& forall|i: int| 0 <= i < skip && i < previous.len() ==> previous[i] == PreFlopAction::Fold
    &&& previous.len() == actions.len() - 2
    &&& forall|i: int| skip <= i < previous.len() ==> same_kind(previous[i], actions[i - skip + 2])
}

/// Sum of the distances between the raise totals of the entry and those of the
/// game, over the first `n` compared actions (saturating at the largest `u64`).
pub open spec fn raise_diff(previous: Seq<PreFlopAction>, actions: Seq<Action>, skip: int, n: int) -> int
    decreases n,
{
    if n <= 0 {
        0
    } else {
        let prev = raise_diff(previous, actions, skip, n - 1);
        let d: int = match (previous[skip + n - 1], actions[n + 1]) {
            (PreFlopAction::Raise(a), Action::Raise { to, .. }) => if a.value() >= to.value() {
                a.value() - to.value()
            } else {
                to.value() - a.value()
            },
            _ => 0,
        };
        if prev + d > u64::MAX {
            u64::MAX as int
        } else {
            prev + d
        }
    }
}

/// Whether the entry fits the recorded actions (see `entry_fits`).
fn fits_actions(previous: &Vec<PreFlopAction>, actions: &Vec<Action>, skip: usize) -> (r: bool)
    ensures
        r == entry_fits(previous@, actions@, skip as int),
{
    if actions.len() < 2 {
        return false;
    }
    let mut i: usize = 0;
    while i < skip && i < previous.len()
        invariant
            i <= previous@.len(),
            forall|j: int| 0 <= j < i && j < skip ==> previous@[j] == PreFlopAction::Fold,
        decreases previous@.len() - i,
    {
        if previous[i] != PreFlopAction::Fold {
            return false;
        }
        i = i + 1;
    }
    if previous.len() != actions.len() - 2 {
        return false;
    }
    if skip < previous.len() {
        let n = previous.len() - skip;
        let mut j: usize = 0;
        while j < n
            invariant
                actions@.len() >= 2,
                previous@.len() == actions@.len() - 2,
                skip + n == previous@.len(),
                previous@.len() <= usize::MAX,
                actions@.len() <= usize::MAX,
                j <= n,
                forall|x: int| skip <= x < skip + j ==> same_kind(previous@[x], actions@[x - skip + 2]),
            decreases n - j,
        {
            if !previous[skip + j].is_action_kind(actions[j + 2]) {
                return false;
            }
            j = j + 1;
        }
    }
    true
}

/// The raise distance of an entry that fits (see `raise_diff`).
fn raise_distance(previous: &Vec<PreFlopAction>, actions: &Vec<Action>, skip: usize) -> (d: u64)
    requires
        entry_fits(previous@, actions@, skip as int),
    ensures
        d == raise_diff(previous@, actions@, skip as int, previous@.len() - skip),
{
    if skip >= previous.len() {
        return 0;
    }
    let total = actions.len();
    let n = previous.len() - skip;
    let mut d: u64 = 0;
    let mut i: usize = 0;
    while i < n
        invariant
            n == previous@.len() - skip,
            skip + n == previous@.len(),
            previous@.len() <= usize::MAX,
            total == actions@.len(),
            actions@.len() >= 2,
            previous@.len() == actions@.len() - 2,
            i <= n,
            d == raise_diff(previous@, actions@, skip as int, i as int),
        decreases n - i,
    {
        let x: u64 = match (previous[skip + i], actions[i + 2]) {
            (PreFlopAction::Raise(a), Action::Raise { to, .. }) => a.abs_diff(MilliBigBlind(to.0 as i64)),
            _ => 0,
        };
        d = d.saturating_add(x);
        i = i + 1;
    }
    d
}

impl RangeConfig {
    /// Why the configuration cannot be looked up for `game`, in the order
    /// the conditions are checked: more players than the configuration, a
    /// heads-up game for a configuration that is not, another small blind,
    /// a stack of another depth, blinds not posted, or past the pre flop.
    pub open spec fn lookup_error(self, game: Game) -> Option<RangeLookupError> {
        let bb = game.big_blind_amount();
        if game.pc() > self.spec_max_players() {
            Some(RangeLookupError::TooManyPlayers)
        } else if game.pc() == 2 && self.spec_max_players() != 2 {
            Some(RangeLookupError::NotHeadsUp)
        } else if game.small_blind_amount().spec_to_milli_big_blinds(bb) != self.spec_small_blind() {
            Some(RangeLookupError::SmallBlindMismatch)
        } else if exists|p: int|
            0 <= p < game.pc() && #[trigger] Amount(game.starting(p) as u32).spec_to_milli_big_blinds(bb)
                != self.spec_depth() {
            Some(RangeLookupError::DepthMismatch)
        } else if game.state_spec() is Post {
            Some(RangeLookupError::MissingPosts)
        } else if game.street_idx() != 0 {
            Some(RangeLookupError::NotPreFlop)
        } else {
            None
        }
    }

    /// The entries (by position) that fit the game so far; the game must be
    /// pre flop with the blinds posted, have at most the configuration's players
    /// (exactly two when heads up), its small blind and its stack depth.
    #[verifier::loop_isolation(false)]
    pub fn by_game_action_kinds(&self, game: &Game) -> (r: Result<Vec<usize>, RangeLookupError>)
        requires
            game.wf(),
            game.big_blind_amount().value() > 0,
        ensures
            match self.lookup_error(*game) {
                Some(e) => r == Err::<Vec<usize>, RangeLookupError>(e),
                None => r is Ok,
            },
            r matches Ok(v) ==> {
                let actions = game.action_log().subrange(0, game.replay_index());
                let skip = self.spec_max_players() - game.pc();
                &&& game.pc() <= self.spec_max_players()
                &&& game.small_blind_amount().spec_to_milli_big_blinds(game.big_blind_amount()) == self.spec_small_blind()
                &&& forall|i: int| 0 <= i < v@.len() ==> v@[i] < self.spec_ranges().len()
                &&& forall|i: int, j: int| 0 <= i < j < v@.len() ==> v@[i] < v@[j]
                &&& forall|e: usize| e < self.spec_ranges().len() ==> (#[trigger] v@.contains(e) <==> entry_fits(
                    self.spec_ranges()[e as int].spec_previous_actions(),
                    actions,
                    skip,
                ))
            },
    {
        let n = game.player_count();
        if n > self.max_players {
            return Err(RangeLookupError::TooManyPlayers);
        }
        if game.is_heads_up_table() && self.max_players != 2 {
            return Err(RangeLookupError::NotHeadsUp);
        }
        if self.small_blind.0 != game.amount_to_milli_big_blinds_rounded(game.small_blind()).0 {
            return Err(RangeLookupError::SmallBlindMismatch);
        }
        let stacks = game.starting_stacks();
        let mut p: usize = 0;
        while p < stacks.len()
            invariant
                p <= stacks@.len(),
                stacks@.len() == game.pc(),
                forall|q: int| 0 <= q < game.pc() ==> (#[trigger] stacks@[q]).value() == game.starting(q),
                game.big_blind_amount().value() > 0,
                forall|q: int|
                    0 <= q < p ==> #[trigger] Amount(game.starting(q) as u32).spec_to_milli_big_blinds(game.big_blind_amount())
                        == self.spec_depth(),
            decreases stacks@.len() - p,
        {
            proof {
                assert(stacks@[p as int] == Amount(game.starting(p as int) as u32));
            }
            if game.amount_to_milli_big_blinds_rounded(stacks[p]).0 != self.depth.0 {
                return Err(RangeLookupError::DepthMismatch);
            }
            p = p + 1;
        }
        let actions = game.actions();
        match game.state() {
            State::Post => {
                return Err(RangeLookupError::MissingPosts);
            },
            _ => {},
        }
        if game.board().street() != Street::PreFlop {
            return Err(RangeLookupError::NotPreFlop);
        }
        let skip = self.max_players - n;
        let mut v: Vec<usize> = Vec::new();
        let mut e: usize = 0;
        while e < self.ranges.len()
            invariant
                e <= self.ranges@.len(),
                forall|i: int| 0 <= i < v@.len() ==> v@[i] < e,
                forall|i: int, j: int| 0 <= i < j < v@.len() ==> v@[i] < v@[j],
                forall|x: usize| x < e ==> (#[trigger] v@.contains(x) <==> entry_fits(
                    self.ranges@[x as int].spec_previous_actions(),
                    actions@,
                    skip as int,
                )),
            decreases self.ranges@.len() - e,
        {
            let ghost before = v@;
            if fits_actions(&self.ranges[e].previous_actions, &actions, skip) {
                v.push(e);
                proof {
                    assert forall|x: usize| x < e + 1 implies (#[trigger] v@.contains(x) <==> entry_fits(
                        self.ranges@[x as int].spec_previous_actions(),
                        actions@,
                        skip as int,
                    )) by {
                        if x < e {
                            if before.contains(x) {
                                let k = choose|k: int| 0 <= k < before.len() && before[k] == x;
                                assert(v@[k] == x);
                            }
                            if v@.contains(x) {
                                let k = choose|k: int| 0 <= k < v@.len() && v@[k] == x;
                                assert(k < before.len());
                                assert(before[k] == x);
                            }
                        } else {
                            assert(v@[before.len() as int] == e);
                        }
                    }
                }
            } else {
                proof {
                    assert(!v@.contains(e));
                }
            }
            e = e + 1;
        }
        Ok(v)
    }

    /// The fitting entry whose raise totals are closest to those of the game
    /// (the first of several), with its distance.
    #[verifier::loop_isolation(false)]
    pub fn by_game_best_fit_raise_simple(&self, game: &Game) -> (r: Result<(usize, u64), RangeLookupError>)
        requires
            game.wf(),
            game.big_blind_amount().value() > 0,
        ensures
            self.lookup_error(*game) matches Some(e) ==> r == Err::<(usize, u64), RangeLookupError>(e),
            self.lookup_error(*game) is None ==> (r is Err <==> !exists|e: usize|
                e < self.spec_ranges().len() && #[trigger] entry_fits(
                    self.spec_ranges()[e as int].spec_previous_actions(),
                    game.action_log().subrange(0, game.replay_index()),
                    self.spec_max_players() - game.pc(),
                )),
            self.lookup_error(*game) is None && r is Err ==> r == Err::<(usize, u64), RangeLookupError>(
                RangeLookupError::NoMatchingRange,
            ),
            r matches Ok((i, d)) ==> {
                let actions = game.action_log().subrange(0, game.replay_index());
                let skip = self.spec_max_players() - game.pc();
                let prev = self.spec_ranges()[i as int].spec_previous_actions();
                &&& i < self.spec_ranges().len()
                &&& entry_fits(prev, actions, skip)
                &&& d == raise_diff(prev, actions, skip, prev.len() - skip)
                &&& forall|e: usize|
                    e < self.spec_ranges().len() && entry_fits(self.spec_ranges()[e as int].spec_previous_actions(), actions, skip)
                        ==> d <= #[trigger] raise_diff(
                        self.spec_ranges()[e as int].spec_previous_actions(),
                        actions,
                        skip,
                        self.spec_ranges()[e as int].spec_previous_actions().len() - skip,
                    )
            },
    {
        let fits = self.by_game_action_kinds(game)?;
        if fits.len() == 0 {
            proof {
                let actions = game.action_log().subrange(0, game.replay_index());
                assert forall|e: usize| e < self.spec_ranges().len() implies !#[trigger] entry_fits(
                    self.spec_ranges()[e as int].spec_previous_actions(),
                    actions,
                    self.spec_max_players() - game.pc(),
                ) by {
                    assert(!fits@.contains(e));
                }
            }
            return Err(RangeLookupError::NoMatchingRange);
        }
        let actions = game.actions();
        let skip = self.max_players - game.player_count();
        let mut best = fits[0];
        proof {
            assert(fits@.contains(fits@[0]));
        }
        let mut best_diff = raise_distance(&self.ranges[best].previous_actions, &actions, skip);
        let mut k: usize = 1;
        while k < fits.len()
            invariant
                1 <= k <= fits@.len(),
                best < self.spec_ranges().len(),
                entry_fits(self.spec_ranges()[best as int].spec_previous_actions(), actions@, skip as int),
                best_diff == raise_diff(self.spec_ranges()[best as int].spec_previous_actions(), actions@, skip as int,
                    self.spec_ranges()[best as int].spec_previous_actions().len() - skip),
                forall|j: int| 0 <= j < k ==> best_diff <= raise_diff(
                    self.spec_ranges()[fits@[j] as int].spec_previous_actions(),
                    actions@,
                    skip as int,
                    self.spec_ranges()[fits@[j] as int].spec_previous_actions().len() - skip,
                ),
            decreases fits@.len() - k,
        {
            let e = fits[k];
            proof {
                assert(fits@.contains(e));
                assert(e < self.spec_ranges().len());
            }
            let d = raise_distance(&self.ranges[e].previous_actions, &actions, skip);
            if d < best_diff {
                best = e;
                best_diff = d;
            }
            k = k + 1;
        }
        proof {
            assert forall|e: usize|
                e < self.spec_ranges().len() && entry_fits(self.spec_ranges()[e as int].spec_previous_actions(), actions@, skip as int)
                    implies best_diff <= #[trigger] raise_diff(
                    self.spec_ranges()[e as int].spec_previous_actions(),
                    actions@,
                    skip as int,
                    self.spec_ranges()[e as int].spec_previous_actions().len() - skip,
                ) by {
                assert(fits@.contains(e));
                let j = choose|j: int| 0 <= j < fits@.len() && fits@[j] == e;
                assert(best_diff <= raise_diff(
                    self.spec_ranges()[fits@[j] as int].spec_previous_actions(),
                    actions@,
                    skip as int,
                    self.spec_ranges()[fits@[j] as int].spec_previous_actions().len() - skip,
                ));
            }
        }
        Ok((best, best_diff))
    }
}

/// Sum over the first `n` actions of their rounded frequencies in cell `c`.
pub open spec fn rounded_sum(acts: Seq<RangeAction>, c: (int, int), n: int) -> int
    decreases n,
{
    if n <= 0 {
        0
    } else {
        rounded_sum(acts, c, n - 1) + rounded_value(acts, c, n - 1)
    }
}

proof fn lemma_rounded_sum(acts: Seq<RangeAction>, c: (int, int), n: int, best: int)
    requires
        0 <= n <= acts.len(),
        has_fold_action(acts),
        cell_sum(acts, c, acts.len() as int) < MAX_FREQUENCY,
        is_last_max(acts, c, best),
    ensures
        rounded_sum(acts, c, n) == cell_sum(acts, c, n) + if best < n {
            MAX_FREQUENCY - cell_sum(acts, c, acts.len() as int)
        } else {
            0
        },
    decreases n,
{
    if n > 0 {
        lemma_rounded_sum(acts, c, n - 1, best);
        if n - 1 != best {
            assert(!is_last_max(acts, c, n - 1)) by {
                if is_last_max(acts, c, n - 1) {
                    if n - 1 < best {
                        assert(acts[best].spec_range().value_at(c) < acts[n - 1].spec_range().value_at(c));
                    } else {
                        assert(acts[n - 1].spec_range().value_at(c) < acts[best].spec_range().value_at(c));
                    }
                }
            }
        }
    }
}

/// A last largest action exists in every cell of a non-empty list of actions.
proof fn lemma_last_max_exists(acts: Seq<RangeAction>, c: (int, int), n: int) -> (best: int)
    requires
        0 < n <= acts.len(),
    ensures
        0 <= best < n,
        forall|j: int| 0 <= j < n ==> acts[j].spec_range().value_at(c) <= acts[best].spec_range().value_at(c),
        forall|j: int| best < j < n ==> acts[j].spec_range().value_at(c) < acts[best].spec_range().value_at(c),
    decreases n,
{
    if n == 1 {
        0
    } else {
        let b = lemma_last_max_exists(acts, c, n - 1);
        if acts[n - 1].spec_range().value_at(c) >= acts[b].spec_range().value_at(c) {
            n - 1
        } else {
            b
        }
    }
}

proof fn lemma_rounded_cell_sum(acts: Seq<RangeAction>, out: Seq<RangeAction>, total: PreFlopRangeTableWith<u16>, c: (int, int), n: int)
    requires
        rounded_actions(acts, out, total),
        in_table(c),
        0 <= n <= acts.len(),
    ensures
        cell_sum(out, c, n) == rounded_sum(acts, c, n),
    decreases n,
{
    if n > 0 {
        lemma_rounded_cell_sum(acts, out, total, c, n - 1);
        assert(rounded_action(acts, n - 1, out[n - 1], total));
    }
}

/// Rounding up fills the cells: with a fold action, in every cell whose
/// frequencies add up to at most 100 % the rounded actions add up to exactly
/// 100 %, and a cell above 100 % is left as it is.
pub proof fn law_rounding_fills_cells(acts: Seq<RangeAction>, out: Seq<RangeAction>, total: PreFlopRangeTableWith<u16>, c: (int, int))
    requires
        has_fold_action(acts),
        rounded_actions(acts, out, total),
        in_table(c),
    ensures
        cell_sum(acts, c, acts.len() as int) <= MAX_FREQUENCY ==> cell_sum(out, c, out.len() as int)
            == MAX_FREQUENCY,
        cell_sum(acts, c, acts.len() as int) > MAX_FREQUENCY ==> cell_sum(out, c, out.len() as int)
            == cell_sum(acts, c, acts.len() as int),
{
    lemma_rounded_cell_sum(acts, out, total, c, acts.len() as int);
    let n = acts.len() as int;
    let best = lemma_last_max_exists(acts, c, n);
    assert(is_last_max(acts, c, best));
    if cell_sum(acts, c, n) < MAX_FREQUENCY {
        lemma_rounded_sum(acts, c, n, best);
    } else {
        lemma_rounded_plain(acts, c, n);
    }
}

proof fn lemma_rounded_plain(acts: Seq<RangeAction>, c: (int, int), n: int)
    requires
        0 <= n <= acts.len(),
        cell_sum(acts, c, acts.len() as int) >= MAX_FREQUENCY,
    ensures
        rounded_sum(acts, c, n) == cell_sum(acts, c, n),
    decreases n,
{
    if n > 0 {
        lemma_rounded_plain(acts, c, n - 1);
    }
}


/// Sum over the first `n` cells (row by row) of the cell's total frequency
/// times the number of hands in the cell times the action's frequency there.
pub open spec fn hand_weighted_sum(total: PreFlopRangeTableWith<u16>, range: PreFlopRangeTableWith<u16>, n: int) -> int
    decreases n,
{
    if n <= 0 {
        0
    } else {
        hand_weighted_sum(total, range, n - 1) + total.value_at(flat_cell(n - 1)) * cell_hand_set(
            flat_cell(n - 1),
        ).len() * range.value_at(flat_cell(n - 1))
    }
}

/// Sum over the first `n` cells of the number of hands in the cell times its
/// total frequency.
pub open spec fn hand_count_sum(total: PreFlopRangeTableWith<u16>, n: int) -> int
    decreases n,
{
    if n <= 0 {
        0
    } else {
        hand_count_sum(total, n - 1) + cell_hand_set(flat_cell(n - 1)).len() * total.value_at(flat_cell(n - 1))
    }
}

/// The frequency of an action counts every hand: each cell adds its total
/// frequency times the number of hands in it (6 for a pair, 4 suited, 12
/// offsuit) times the action's frequency there; the total frequency likewise
/// counts each hand once at its cell's total frequency.
pub proof fn law_frequencies_count_hands(total: PreFlopRangeTableWith<u16>, range: PreFlopRangeTableWith<u16>, n: int)
    requires
        0 <= n <= 169,
    ensures
        action_weight(total, range, n) == hand_weighted_sum(total, range, n),
        total_weight(total, n) == hand_count_sum(total, n),
    decreases n,
{
    if n > 0 {
        law_frequencies_count_hands(total, range, n - 1);
        let c = flat_cell(n - 1);
        law_cell_hand_count(c);
    }
}

/// When the action takes only cell `c`, its frequency is the cell's total
/// frequency times the number of hands in the cell times the action's
/// frequency there.
pub proof fn law_single_cell_frequency(
    total: PreFlopRangeTableWith<u16>,
    range: PreFlopRangeTableWith<u16>,
    c: (int, int),
)
    requires
        0 <= c.0 < 13,
        0 <= c.1 < 13,
        forall|d: (int, int)| 0 <= d.0 < 13 && 0 <= d.1 < 13 && d != c ==> range.value_at(d) == 0,
    ensures
        action_weight(total, range, 169) == total.value_at(c) * cell_hand_set(c).len() * range.value_at(c),
{
    lemma_single_cell_prefix(total, range, c, 169);
}

proof fn lemma_single_cell_prefix(
    total: PreFlopRangeTableWith<u16>,
    range: PreFlopRangeTableWith<u16>,
    c: (int, int),
    n: int,
)
    requires
        0 <= c.0 < 13,
        0 <= c.1 < 13,
        0 <= n <= 169,
        forall|d: (int, int)| 0 <= d.0 < 13 && 0 <= d.1 < 13 && d != c ==> range.value_at(d) == 0,
    ensures
        action_weight(total, range, n) == if n > c.0 * 13 + c.1 {
            total.value_at(c) * cell_hand_set(c).len() * range.value_at(c)
        } else {
            0
        },
    decreases n,
{
    law_frequencies_count_hands(total, range, n);
    if n > 0 {
        lemma_single_cell_prefix(total, range, c, n - 1);
        law_frequencies_count_hands(total, range, n - 1);
        let d = flat_cell(n - 1);
        law_cell_hand_count(d);
        if d != c {
            assert(range.value_at(d) == 0);
            assert(total.value_at(d) * cell_hand_set(d).len() * range.value_at(d) == 0) by (nonlinear_arith)
                requires
                    range.value_at(d) == 0,
            ;
        }
    }
}

} // verus!
