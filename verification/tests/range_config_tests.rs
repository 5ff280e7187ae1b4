use poker_core::card::Rank;
use poker_core::game::{Amount, MilliBigBlind, Player};
use poker_core::play::{Game, PlayerData};
use poker_core::range::RangeEntry;
use poker_core::range_config::{
    action_frequency, total_frequency, PreFlopAction, PreFlopRangeTableWith, RangeAction, RangeConfig,
    RangeConfigData, RangeConfigEntry, RangeConfigEntryData, RangeConfigError, RangeLookupError,
};

fn action(a: PreFlopAction, total: &PreFlopRangeTableWith<u16>, freq: u16) -> RangeAction {
    RangeAction::new(a, total, PreFlopRangeTableWith::filled(freq), None)
}

#[test]
fn frequencies_of_full_tables() {
    let total = PreFlopRangeTableWith::filled(10_000u16);
    // 1326 hands, each at 100 %.
    assert_eq!(total_frequency(&total), 1326 * 10_000);
    let half = PreFlopRangeTableWith::filled(5_000u16);
    assert_eq!(action_frequency(&total, &half), 1326 * 10_000 * 5_000);
    let a = action(PreFlopAction::Fold, &total, 5_000);
    assert_eq!(a.action(), PreFlopAction::Fold);
    assert!(a.ev().is_none());
    let e = RangeEntry::new(Rank::Ace, Rank::King, true).unwrap();
    assert_eq!(a.range().get(e), 5_000);
}

#[test]
fn table_set_and_entries() {
    let mut t = PreFlopRangeTableWith::filled(0u16);
    let e = RangeEntry::new(Rank::Ace, Rank::King, false).unwrap();
    t.set(e, 7);
    assert_eq!(t.get(e), 7);
    assert_eq!(t.get(RangeEntry::new(Rank::Ace, Rank::King, true).unwrap()), 0);
    let entries = t.entries();
    assert_eq!(entries.len(), 169);
    // The first listed entry is the pair of aces.
    assert_eq!(entries[0].0, RangeEntry::paired(Rank::Ace));
    assert_eq!(entries.iter().filter(|(_, v)| *v == 7).count(), 1);
}

fn entry(actions: Vec<RangeAction>, round_up: bool) -> Result<RangeConfigEntry, RangeConfigError> {
    let total = PreFlopRangeTableWith::filled(10_000u16);
    RangeConfigEntry::new(Vec::new(), total, actions, 6, MilliBigBlind(100_000), MilliBigBlind(500), round_up)
}

#[test]
fn entry_with_fold_and_raise() {
    let total = PreFlopRangeTableWith::filled(10_000u16);
    let actions = vec![
        action(PreFlopAction::Fold, &total, 5_000),
        action(PreFlopAction::Raise(MilliBigBlind(2_500)), &total, 5_000),
    ];
    let e = entry(actions, false).unwrap();
    assert_eq!(e.actions().len(), 2);
    assert_eq!(e.previous_actions().len(), 0);
    assert_eq!(e.total_range().get(RangeEntry::paired(Rank::Two)), 10_000);
}

#[test]
fn entry_errors() {
    let total = PreFlopRangeTableWith::filled(10_000u16);
    let short = vec![
        action(PreFlopAction::Fold, &total, 5_000),
        action(PreFlopAction::Raise(MilliBigBlind(2_500)), &total, 4_000),
    ];
    assert_eq!(entry(short, false).unwrap_err(), RangeConfigError::InvalidTotalFrequencies);
    let twice = vec![action(PreFlopAction::Fold, &total, 5_000), action(PreFlopAction::Fold, &total, 5_000)];
    assert_eq!(entry(twice, false).unwrap_err(), RangeConfigError::DuplicateAction);
    let over = vec![
        action(PreFlopAction::Fold, &total, 6_000),
        action(PreFlopAction::Call, &total, 6_000),
    ];
    assert_eq!(entry(over, false).unwrap_err(), RangeConfigError::TotalFrequenciesOverflow);
    let too_large = vec![action(PreFlopAction::Call, &total, 10_001)];
    assert_eq!(entry(too_large, false).unwrap_err(), RangeConfigError::ActionFrequencyTooLarge);
    let check = vec![action(PreFlopAction::Check, &total, 10_000)];
    assert!(matches!(entry(check, false).unwrap_err(), RangeConfigError::Play(_)));
}

#[test]
fn entry_rounds_up_to_largest_action() {
    let total = PreFlopRangeTableWith::filled(10_000u16);
    let short = vec![
        action(PreFlopAction::Fold, &total, 5_000),
        action(PreFlopAction::Raise(MilliBigBlind(2_500)), &total, 4_000),
    ];
    let e = entry(short, true).unwrap();
    let aa = RangeEntry::paired(Rank::Ace);
    assert_eq!(e.actions()[0].range().get(aa), 6_000);
    assert_eq!(e.actions()[1].range().get(aa), 4_000);
    // Equal frequencies: the last action gets the rest.
    let tie = vec![
        action(PreFlopAction::Fold, &total, 4_000),
        action(PreFlopAction::Raise(MilliBigBlind(2_500)), &total, 4_000),
    ];
    let e = entry(tie, true).unwrap();
    assert_eq!(e.actions()[1].range().get(aa), 6_000);
}

#[test]
fn config_from_data() {
    let total = PreFlopRangeTableWith::filled(10_000u16);
    let data_entry = RangeConfigEntryData {
        previous_actions: Vec::new(),
        total_range: total.clone(),
        total_frequency: 0,
        actions: vec![
            action(PreFlopAction::Fold, &total, 5_000),
            action(PreFlopAction::Call, &total, 5_000),
        ],
    };
    let data = RangeConfigData {
        description: Some("test".to_string()),
        max_players: 6,
        depth: MilliBigBlind(100_000),
        small_blind: MilliBigBlind(500),
        ranges: vec![data_entry.clone()],
    };
    let config = RangeConfig::from_data(data.clone()).unwrap();
    let back = config.to_data();
    assert_eq!(back.ranges.len(), 1);
    assert_eq!(back.ranges[0].total_frequency, 1326 * 10_000);
    assert_eq!(back.max_players, 6);

    let mut twice = data.clone();
    twice.ranges.push(data_entry);
    assert_eq!(RangeConfig::from_data(twice).unwrap_err(), RangeConfigError::DuplicatePreviousActions);

    let mut shallow = data.clone();
    shallow.depth = MilliBigBlind(999);
    assert_eq!(RangeConfig::from_data(shallow).unwrap_err(), RangeConfigError::DepthTooSmall);
    let mut many = data.clone();
    many.max_players = 11;
    assert_eq!(RangeConfig::from_data(many).unwrap_err(), RangeConfigError::InvalidMaxPlayers);
    let mut blind = data;
    blind.small_blind = MilliBigBlind(0);
    assert_eq!(RangeConfig::from_data(blind).unwrap_err(), RangeConfigError::InvalidSmallBlind);
}

#[test]
fn config_lookup_by_game() {
    let total = PreFlopRangeTableWith::filled(10_000u16);
    let entry = |previous: Vec<PreFlopAction>| RangeConfigEntryData {
        previous_actions: previous,
        total_range: total.clone(),
        total_frequency: 0,
        actions: vec![
            action(PreFlopAction::Fold, &total, 5_000),
            action(PreFlopAction::Raise(MilliBigBlind(2_500)), &total, 5_000),
        ],
    };
    let data = RangeConfigData {
        description: None,
        max_players: 6,
        depth: MilliBigBlind(100_000),
        small_blind: MilliBigBlind(500),
        ranges: vec![entry(Vec::new()), entry(vec![PreFlopAction::Fold])],
    };
    let config = RangeConfig::from_data(data).unwrap();

    let players = vec![PlayerData::with_starting_stack(Amount(100_000)); 6];
    let mut game = Game::new(&players, Player(0), Amount(500), Amount(1_000)).unwrap();
    assert_eq!(config.by_game_action_kinds(&game).unwrap_err(), RangeLookupError::MissingPosts);
    game.post_small_and_big_blind().unwrap();
    assert_eq!(config.by_game_action_kinds(&game).unwrap(), vec![0]);
    game.fold().unwrap();
    assert_eq!(config.by_game_action_kinds(&game).unwrap(), vec![1]);
    assert_eq!(config.by_game_best_fit_raise_simple(&game).unwrap(), (1, 0));

    let deep = vec![PlayerData::with_starting_stack(Amount(200_000)); 6];
    let mut other = Game::new(&deep, Player(0), Amount(500), Amount(1_000)).unwrap();
    other.post_small_and_big_blind().unwrap();
    assert_eq!(config.by_game_action_kinds(&other).unwrap_err(), RangeLookupError::DepthMismatch);
}

#[test]
fn game_for_an_entry_without_previous_actions() {
    let g = poker_core::range_config::build_game(6, MilliBigBlind(100_000), MilliBigBlind(500), &[]).unwrap();
    assert_eq!(g.player_count(), 6);
    assert_eq!(g.button(), Player(0));
    assert_eq!(g.small_blind(), Amount(500));
    assert_eq!(g.big_blind(), Amount(1000));
    assert_eq!(g.actions().len(), 2);
    // Too many chips for the table.
    assert!(poker_core::range_config::build_game(10, MilliBigBlind(1_000_000_000), MilliBigBlind(500), &[]).is_err());
    // Previous actions are played after the blinds.
    let g = poker_core::range_config::build_game(
        6,
        MilliBigBlind(100_000),
        MilliBigBlind(500),
        &[PreFlopAction::Fold, PreFlopAction::Call],
    )
    .unwrap();
    assert_eq!(g.actions().len(), 4);
}

#[test]
fn config_errors_name_their_entry() {
    let total = PreFlopRangeTableWith::filled(10_000u16);
    let bad = RangeConfigEntryData {
        previous_actions: vec![PreFlopAction::Check],
        total_range: total.clone(),
        total_frequency: 0,
        actions: Vec::new(),
    };
    let data = RangeConfigData {
        description: None,
        max_players: 6,
        depth: MilliBigBlind(100_000),
        small_blind: MilliBigBlind(500),
        ranges: vec![bad],
    };
    assert!(matches!(RangeConfig::from_data(data), Err(RangeConfigError::Play(_))));
}
