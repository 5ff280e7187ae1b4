use poker_core::card::{Card, Rank, Suite};
use poker_core::db::{Action, Actions, DbError, HandBundle, PotKind};
use poker_core::game::{Amount, Player, State};
use poker_core::history_viewer::HistoryViewer;
use poker_core::play::{Game, PlayerData};

fn finished_game() -> Game {
    let players = vec![PlayerData::with_starting_stack(Amount(1_000)); 3];
    let mut game = Game::new(&players, Player(0), Amount(5), Amount(10)).unwrap();
    game.post_small_and_big_blind().unwrap();
    game.call().unwrap();
    game.raise(Amount(40)).unwrap();
    game.raise(Amount(120)).unwrap();
    game.call().unwrap();
    game.fold().unwrap();
    game.flop([
        Card::of(Rank::Ace, Suite::Spades),
        Card::of(Rank::Seven, Suite::Hearts),
        Card::of(Rank::Two, Suite::Clubs),
    ])
    .unwrap();
    assert_eq!(game.current_player(), Some(Player(2)));
    game.bet(Amount(100)).unwrap();
    game.fold().unwrap();
    game.uncalled_bet().unwrap();
    game.showdown_stacks(&[Amount(880), Amount(960), Amount(1160)]).unwrap();
    assert_eq!(game.state(), State::End);
    game
}

#[test]
fn bundle_summarizes_pre_flop() {
    let game = finished_game();
    let bundle = HandBundle::from_game(&game);
    let hand = &bundle.hand;
    assert_eq!(hand.pot_kind, PotKind::ThreeBet);
    assert!(hand.pre_flop_limping);
    assert!(hand.pre_flop_cold_calling);
    assert!(!hand.posting);
    assert!(!hand.straddling);
    assert_eq!(hand.players_post_flop, Some(2));
    assert_eq!(hand.players_at_showdown, None);
    assert_eq!(hand.single_winner, Some(2));
    assert_eq!(hand.player_count, 3);
    assert_eq!(hand.final_full_pot_size, Amount(280));
    assert_eq!(hand.first_flop.unwrap().to_string(), "As7h2c");
    assert_eq!(hand.first_turn, None);
    assert_eq!(bundle.data.data.actions.len(), 11);
}

#[test]
fn bundle_lists_actions_by_street() {
    let game = finished_game();
    let bundle = HandBundle::from_game(&game);
    let p = &bundle.players;
    assert_eq!(p.len(), 3);
    assert_eq!(p[0].pre_flop_action.to_string(), Some("cc".to_string()));
    assert_eq!(p[0].flop_action.to_string(), Some("f".to_string()));
    assert_eq!(p[1].pre_flop_action.to_string(), Some("prf".to_string()));
    assert_eq!(p[1].flop_action.to_string(), None);
    assert_eq!(p[2].pre_flop_action.to_string(), Some("pr".to_string()));
    assert_eq!(p[2].flop_action.to_string(), Some("b".to_string()));
    assert_eq!(p[2].showdown_stack, Amount(1160));
    assert_eq!(p[1].pot_contribution, Amount(40));
    assert!(!p[0].went_to_showdown);
}

#[test]
fn stored_action_letters() {
    let a = Actions::from_str("pxcbr").unwrap();
    assert_eq!(a.0.len(), 5);
    assert!(matches!(a.0[1], Action::Check));
    assert_eq!(a.to_string(), Some("pxcbr".to_string()));
    assert!(matches!(Actions::from_str("pz"), Err(DbError::InvalidActions)));
    assert_eq!(Actions::empty().to_string(), None);
    assert_eq!(Action::Straddle.to_char(), 's');
    assert!(Action::from_byte(b'q').is_none());
    assert_eq!(PotKind::FiveBetPlus.to_str(), "5-bet+");
    assert_eq!(PotKind::SRP.to_str(), "srp");
}

#[test]
fn history_keeps_entries() {
    let game = finished_game();
    let bundle = HandBundle::from_game(&game);
    let viewer = HistoryViewer::new(vec![(bundle.hand.clone(), Some(bundle.players[0].clone()))]);
    assert_eq!(viewer.entries().len(), 1);
}

#[test]
fn pot_kind_names_read_back() {
    for k in [PotKind::Walk, PotKind::Limped, PotKind::SRP, PotKind::ThreeBet, PotKind::FourBet, PotKind::FiveBetPlus] {
        assert_eq!(PotKind::from_str(k.to_str()), Some(k));
    }
    assert_eq!(PotKind::from_str("3-bet"), Some(PotKind::ThreeBet));
    assert_eq!(PotKind::from_str("6-bet"), None);
    assert_eq!(PotKind::from_str(""), None);
}
