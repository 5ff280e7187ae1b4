use poker_core::card::{Card, Rank, Suite};
use poker_core::game::{Amount, MilliBigBlind, Player, State, Street};
use poker_core::play::{Game, PlayError, PlayerData};

fn three_player_game() -> Game {
    let players = vec![PlayerData::with_starting_stack(Amount(1_000)); 3];
    Game::new(&players, Player(0), Amount(5), Amount(10)).unwrap()
}

fn chips(game: &Game) -> u32 {
    game.current_stacks().iter().map(|a| a.0).sum::<u32>() + game.total_pot().0
}

#[test]
fn new_game_errors() {
    let one = vec![PlayerData::with_starting_stack(Amount(1_000)); 1];
    assert_eq!(Game::new(&one, Player(0), Amount(5), Amount(10)).unwrap_err(), PlayError::PlayerCount);
    let two = vec![PlayerData::with_starting_stack(Amount(1_000)); 2];
    assert_eq!(Game::new(&two, Player(2), Amount(5), Amount(10)).unwrap_err(), PlayError::InvalidButton);
    let empty = vec![PlayerData::with_starting_stack(Amount(0)); 2];
    assert_eq!(Game::new(&empty, Player(0), Amount(5), Amount(10)).unwrap_err(), PlayError::EmptyStack);
}

#[test]
fn blinds_and_first_decision() {
    let mut game = three_player_game();
    assert_eq!(game.state(), State::Post);
    game.post_small_and_big_blind().unwrap();
    assert_eq!(game.small_blind_player(), Player(1));
    assert_eq!(game.big_blind_player(), Player(2));
    assert_eq!(game.state(), State::Player(Player(0)));
    assert!(!game.can_check());
    assert_eq!(game.can_call(), Some(Amount(10)));
    assert_eq!(game.can_raise(), Some((Amount(10), Amount(20))));
    assert_eq!(game.total_pot(), Amount(15));
    assert_eq!(chips(&game), 3_000);
}

#[test]
fn pre_flop_round_and_flop() {
    let mut game = three_player_game();
    game.post_small_and_big_blind().unwrap();
    game.call().unwrap();
    assert_eq!(game.current_player(), Some(Player(1)));
    assert_eq!(game.can_call(), Some(Amount(5)));
    game.fold().unwrap();
    assert_eq!(game.current_player(), Some(Player(2)));
    assert!(game.can_check());
    assert_eq!(game.check(), Ok(()));
    assert_eq!(game.state(), State::Street(Street::Flop));
    assert_eq!(game.total_pot(), Amount(25));
    let flop = [
        Card::of(Rank::Ace, Suite::Spades),
        Card::of(Rank::Seven, Suite::Hearts),
        Card::of(Rank::Two, Suite::Clubs),
    ];
    game.flop(flop).unwrap();
    assert_eq!(game.board().street(), Street::Flop);
    assert_eq!(game.state(), State::Player(Player(2)));
    assert_eq!(game.can_bet(), Some(Amount(10)));
    game.bet(Amount(20)).unwrap();
    assert_eq!(game.current_player(), Some(Player(0)));
    assert_eq!(chips(&game), 3_000);
    game.raise(Amount(60)).unwrap();
    game.fold().unwrap();
    assert!(matches!(game.state(), State::UncalledBet { .. }));
    assert_eq!(chips(&game), 3_000);
}

#[test]
fn undo_gives_back_the_state() {
    let mut game = three_player_game();
    game.post_small_and_big_blind().unwrap();
    let stacks = game.current_stacks();
    game.raise(Amount(30)).unwrap();
    assert_eq!(game.current_player(), Some(Player(1)));
    game.undo().unwrap();
    assert_eq!(game.current_player(), Some(Player(0)));
    assert_eq!(game.current_stacks(), stacks);
    assert_eq!(game.actions().len(), 2);
    game.fold().unwrap();
    game.undo().unwrap();
    assert_eq!(game.current_player(), Some(Player(0)));
    assert_eq!(game.current_stacks(), stacks);
}

#[test]
fn wrong_actions_are_refused() {
    let mut game = three_player_game();
    assert_eq!(game.fold(), Err(PlayError::NoCurrentPlayer));
    game.post_small_and_big_blind().unwrap();
    assert_eq!(game.check(), Err(PlayError::CheckNotAllowed));
    assert_eq!(game.raise(Amount(15)), Err(PlayError::RaiseTooSmall));
    assert_eq!(game.post_small_and_big_blind(), Err(PlayError::WrongState));
}

#[test]
fn amount_formulas() {
    assert_eq!(Amount(15).to_milli_big_blinds_rounded(Amount(10)), MilliBigBlind(1_500));
    assert_eq!(Amount(1).to_milli_big_blinds_rounded(Amount(3)), MilliBigBlind(333));
    assert_eq!(Amount(2).to_milli_big_blinds_rounded(Amount(3)), MilliBigBlind(667));
    assert_eq!(MilliBigBlind(1_500).to_amount_rounded(Amount(10)), Some(Amount(15)));
    assert_eq!(MilliBigBlind(-1).to_amount_rounded(Amount(10)), None);
    assert_eq!(MilliBigBlind(5).abs_diff(MilliBigBlind(-5)), 10);
    assert_eq!(Amount(u32::MAX).checked_add(Amount(1)), None);
    assert_eq!(Amount(u32::MAX).saturating_add(Amount(1)), Amount(u32::MAX));
    assert_eq!(Amount(3).saturating_sub(Amount(5)), Amount(0));
    assert_eq!(Amount(3).checked_mul(4), Some(Amount(12)));
}

#[test]
fn streets() {
    assert_eq!(Street::PreFlop.next(), Some(Street::Flop));
    assert_eq!(Street::River.next(), None);
    assert_eq!(Street::PreFlop.previous(), None);
    assert_eq!(Street::Turn.community_card_count(), 4);
    assert_eq!(Street::Flop.new_community_card_count(), 3);
    assert_eq!(Street::River.to_usize(), 3);
}

#[test]
fn game_data_round_trip() {
    let mut game = three_player_game();
    game.set_unit("chips".to_string());
    game.set_additional_metadata("site".to_string(), "\"home\"".to_string());
    game.set_additional_metadata("site".to_string(), "\"club\"".to_string());
    assert_eq!(game.additional_metadata("site"), Some("\"club\"".to_string()));
    game.post_small_and_big_blind().unwrap();
    game.call().unwrap();
    game.fold().unwrap();
    game.check().unwrap();
    let data = game.to_game_data();
    assert_eq!(data.players.len(), 3);
    assert_eq!(data.actions.len(), 5);
    assert!(data.showdown_stacks.is_none());
    assert_eq!(data.unit, Some("chips".to_string()));
    let back = Game::from_game_data(&data).unwrap();
    assert_eq!(back.actions(), game.actions());
    assert_eq!(back.state(), game.state());
    assert_eq!(back.current_stacks(), game.current_stacks());
    assert_eq!(back.additional_metadata("site"), Some("\"club\"".to_string()));
    let mut cleared = back;
    cleared.clear_additional_metadata("site");
    assert_eq!(cleared.additional_metadata("site"), None);
}

#[test]
fn game_data_refuses_bad_setup() {
    let mut data = poker_core::play::GameData::default();
    assert_eq!(data.players.len(), 6);
    data.button_index = Player(6);
    assert_eq!(Game::from_game_data(&data).unwrap_err(), PlayError::InvalidButton);
    let mut data = poker_core::play::GameData::default();
    data.max_players = Some(3);
    assert_eq!(Game::from_game_data(&data).unwrap_err(), PlayError::InvalidMaxPlayers);
    let mut data = poker_core::play::GameData::default();
    data.actions = vec![poker_core::game::Action::Fold(Player(0))];
    assert!(Game::from_game_data(&data).is_err());
}

#[test]
fn replay_steps_forward() {
    let mut game = three_player_game();
    game.post_small_and_big_blind().unwrap();
    game.call().unwrap();
    game.fold().unwrap();
    game.check().unwrap();
    let end_state = game.state();
    let end_stacks = game.current_stacks();
    game.rewind();
    assert_eq!(game.state(), State::Post);
    assert!(game.can_next());
    assert!(game.next());
    assert_eq!(game.state(), State::Player(Player(0)));
    game.forward();
    assert_eq!(game.state(), end_state);
    assert_eq!(game.current_stacks(), end_stacks);
    assert!(!game.can_next());
    assert!(!game.next());
    assert_eq!(game.actions().len(), 5);
}

#[test]
fn validation_data_lists_every_position() {
    let mut game = three_player_game();
    game.post_small_and_big_blind().unwrap();
    game.call().unwrap();
    game.fold().unwrap();
    game.check().unwrap();
    let data = game.to_validation_data().unwrap();
    assert_eq!(data.game.actions.len(), 5);
    assert_eq!(data.validations.len(), 5);
    assert_eq!(data.validations[0].state, State::Post);
    assert_eq!(data.validations[1].state, State::Player(Player(0)));
    assert_eq!(data.validations[1].call, Some(Amount(10)));
    assert_eq!(data.validations[1].raise, Some((Amount(10), Amount(20))));
    assert!(!data.validations[1].check);
    assert_eq!(data.validations[3].state, State::Player(Player(2)));
    assert!(data.validations[3].check);
    assert_eq!(data.validations[4].state, State::Street(Street::Flop));
    assert_eq!(game.state(), State::Street(Street::Flop));
}

#[test]
fn position_names_by_table_size() {
    assert_eq!(Game::position_names(1), None);
    assert_eq!(Game::position_names(11), None);
    assert_eq!(
        Game::position_names(2),
        Some(vec![("BTN", "Small Blind / Dealer"), ("BB", "Big Blind")])
    );
    let six: Vec<&str> = Game::position_names(6).unwrap().iter().map(|p| p.0).collect();
    assert_eq!(six, vec!["BTN", "SB", "BB", "UTG", "HJ", "CO"]);
    let ten: Vec<&str> = Game::position_names(10).unwrap().iter().map(|p| p.0).collect();
    assert_eq!(
        ten,
        vec!["BTN", "SB", "BB", "UTG", "UTG+1", "UTG+2", "UTG+3", "LJ", "HJ", "CO"]
    );
    let seven: Vec<&str> = Game::position_names(7).unwrap().iter().map(|p| p.1).collect();
    assert_eq!(seven[4], "Lowjack");
}

#[test]
fn position_of_a_player() {
    assert_eq!(Game::position_name(6, Player(4), Player(4)), Some(("BTN", "Button")));
    assert_eq!(Game::position_name(6, Player(4), Player(1)), Some(("UTG", "Under the Gun")));
    assert_eq!(Game::position_name(6, Player(4), Player(3)), Some(("CO", "Cutoff")));
    assert_eq!(Game::position_name(6, Player(6), Player(3)), None);
    assert_eq!(Game::player_to_button_offset(6, Player(4), Player(1)), Some(Player(3)));
    assert_eq!(Game::player_to_button_offset(6, Player(4), Player(7)), None);
    assert_eq!(Game::player_to_button_offset(1, Player(0), Player(0)), None);
}

#[test]
fn drawn_streets_use_unknown_cards() {
    let mut rng = rand::thread_rng();
    let mut game = three_player_game();
    assert_eq!(game.draw_next_street(&mut rng), Err(PlayError::WrongState));
    game.draw_unset_hands(&mut rng).unwrap();
    for p in 0..3u8 {
        assert!(game.get_hand(Player(p)).is_some());
    }
    assert_eq!(game.known_cards().unwrap().count(), 6);
    game.post_small_and_big_blind().unwrap();
    game.call().unwrap();
    game.call().unwrap();
    game.check().unwrap();
    assert_eq!(game.state(), State::Street(Street::Flop));
    game.draw_next_street(&mut rng).unwrap();
    assert_eq!(game.board().street(), Street::Flop);
    assert_eq!(game.known_cards().unwrap().count(), 9);
    assert_eq!(game.state(), State::Player(Player(1)));
    game.check().unwrap();
    game.check().unwrap();
    game.check().unwrap();
    game.draw_next_street(&mut rng).unwrap();
    assert_eq!(game.board().street(), Street::Turn);
    assert_eq!(game.known_cards().unwrap().count(), 10);
}

#[test]
fn forward_stops_where_replay_is_blocked() {
    let mut game = three_player_game();
    game.post_small_and_big_blind().unwrap();
    game.call().unwrap();
    game.rewind();
    assert!(game.next());
    assert_eq!(game.state(), State::Player(Player(0)));
    game.forward();
    assert_eq!(game.state(), State::Player(Player(1)));
    assert!(!game.can_next());
}

#[test]
fn milli_big_blinds_round_trip() {
    for bb in [1u32, 3, 10, 25, 240, 999, 1000] {
        for a in (0u32..5_000).chain([u32::MAX / 2, u32::MAX - 1, u32::MAX]) {
            let m = Amount(a).to_milli_big_blinds_rounded(Amount(bb));
            assert_eq!(m.to_amount_rounded(Amount(bb)), Some(Amount(a)), "amount {} big blind {}", a, bb);
        }
    }
}

#[test]
fn applied_actions_move_the_chips() {
    let mut game = three_player_game();
    game.post_small_and_big_blind().unwrap();
    let call = game.can_call().unwrap();
    game.apply_action(poker_core::game::Action::Call { player: Player(0), amount: call }).unwrap();
    assert_eq!(game.current_stacks()[0], Amount(990));
    assert_eq!(game.current_player(), Some(Player(1)));
    game.apply_action(poker_core::game::Action::Fold(Player(1))).unwrap();
    assert_eq!(game.current_player(), Some(Player(2)));
    assert_eq!(game.total_pot(), Amount(25));
    // A post cannot be applied as the next action.
    assert!(game.apply_action(poker_core::game::Action::Post { player: Player(2), amount: Amount(10), dead: false }).is_err());
}

#[test]
fn stored_game_reads_back_to_the_same_state() {
    let mut game = three_player_game();
    game.post_small_and_big_blind().unwrap();
    game.call().unwrap();
    game.fold().unwrap();
    let data = game.to_game_data();
    let back = Game::from_game_data(&data).unwrap();
    assert_eq!(back.current_stacks(), game.current_stacks());
    assert_eq!(back.current_player(), game.current_player());
    assert_eq!(back.total_pot(), game.total_pot());
    assert_eq!(back.actions(), game.actions());
    let again = Game::from_game_data(&back.to_game_data()).unwrap();
    assert_eq!(again.current_stacks(), back.current_stacks());
    assert_eq!(again.to_game_data().actions, data.actions);
}

#[test]
fn check_and_call_exclude_each_other() {
    let mut game = three_player_game();
    game.post_small_and_big_blind().unwrap();
    assert!(!game.can_check() && game.can_call().is_some());
    game.call().unwrap();
    game.call().unwrap();
    assert!(game.can_check() && game.can_call().is_none());
}
