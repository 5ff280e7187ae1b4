use poker_core::card::{Card, Rank, Suite};
use poker_core::game::{Amount, Player};
use poker_core::game_builder::GameBuilder;
use poker_core::play::PlayError;

fn builder() -> GameBuilder {
    GameBuilder::new(vec!["always fold".to_string(), "always call".to_string()], Some(1))
}

#[test]
fn builder_starts_with_the_default_table() {
    let b = builder();
    assert_eq!(b.players().len(), 6);
    assert_eq!(b.button_index(), 0);
    for p in b.players() {
        assert_eq!(p.player.starting_stack, Amount(1000));
        assert_eq!(p.action_generator, Some(1));
        assert!(p.player.name.is_none());
    }
    let config = b.configure().unwrap();
    assert_eq!(config.players.len(), 6);
    assert_eq!(config.game.player_count(), 6);
    assert!(!config.pick_community_cards);
}

#[test]
fn builder_names_and_stacks() {
    let mut b = builder();
    b.set_player_name(0, "BTN".to_string());
    assert_eq!(b.players()[0].player.name, None);
    b.set_player_name(1, "Alice".to_string());
    assert_eq!(b.players()[1].player.name, Some("Alice".to_string()));
    b.set_player_name(1, String::new());
    assert_eq!(b.players()[1].player.name, None);
    b.set_blinds(Amount(10), Amount(20));
    b.use_100_big_blind_stacks();
    assert!(b.players().iter().all(|p| p.player.starting_stack == Amount(2000)));
    b.set_blinds(Amount(10), Amount(u32::MAX));
    b.use_100_big_blind_stacks();
    assert!(b.players().iter().all(|p| p.player.starting_stack == Amount(2000)));
    b.set_starting_stack(2, Amount(5));
    assert_eq!(b.players()[2].player.starting_stack, Amount(5));
}

#[test]
fn builder_edits_apply_together() {
    let mut b = builder();
    b.set_player_name(5, "Eve".to_string());
    b.set_button(5);
    b.request_swap_down(5);
    b.apply_edits();
    assert_eq!(b.players()[0].player.name, Some("Eve".to_string()));
    assert_eq!(b.button_index(), 0);
    b.view_reset();
    b.request_remove_player(0);
    b.apply_edits();
    assert_eq!(b.players().len(), 5);
    assert_eq!(b.button_index(), 0);
    b.view_reset();
    b.request_swap_up(0);
    b.apply_edits();
    assert_eq!(b.button_index(), 4);
    b.view_reset();
    b.add_player();
    assert_eq!(b.players().len(), 6);
    assert_eq!(b.players()[5].player.starting_stack, Amount(1000));
    for _ in 0..10 {
        b.add_player();
    }
    assert_eq!(b.players().len(), 10);
}

#[test]
fn builder_keeps_two_players() {
    let mut b = builder();
    for _ in 0..10 {
        b.view_reset();
        b.request_remove_player(0);
        b.apply_edits();
    }
    assert_eq!(b.players().len(), 2);
}

#[test]
fn builder_picks_hands() {
    let mut b = builder();
    assert!(!b.finish_hand_selection());
    b.select_hand_for(0);
    b.click_hand_card(Card::of(Rank::Ace, Suite::Spades));
    assert!(!b.finish_hand_selection());
    b.add_player();
    assert_eq!(b.players().len(), 6);
    b.click_hand_card(Card::of(Rank::King, Suite::Spades));
    assert!(b.finish_hand_selection());
    let hand = b.players()[0].player.hand.unwrap();
    assert_eq!(hand.high(), Card::of(Rank::Ace, Suite::Spades));
    assert_eq!(hand.low(), Card::of(Rank::King, Suite::Spades));
    b.select_hand_for(1);
    b.click_hand_card(Card::of(Rank::Ace, Suite::Spades));
    b.click_hand_card(Card::of(Rank::Two, Suite::Hearts));
    assert!(!b.finish_hand_selection());
    b.click_hand_card(Card::of(Rank::Three, Suite::Hearts));
    assert!(b.finish_hand_selection());
    b.view_reset();
    b.request_remove_hand(0);
    b.apply_edits();
    assert!(b.players()[0].player.hand.is_none());
    assert!(b.players()[1].player.hand.is_some());
    let config = b.configure().unwrap();
    assert_eq!(config.game.get_hand(Player(1)), b.players()[1].player.hand);
}

#[test]
fn builder_reports_setup_errors() {
    let mut b = builder();
    b.set_player_name(1, "Bob".to_string());
    b.set_player_name(2, "Bob".to_string());
    assert_eq!(b.configure().err(), Some(PlayError::DuplicatePlayerName));
    let mut b = builder();
    b.set_starting_stack(3, Amount(0));
    assert_eq!(b.configure().err(), Some(PlayError::EmptyStack));
}
