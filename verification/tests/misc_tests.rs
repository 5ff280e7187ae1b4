use poker_core::ai::{AiAction, AiError, RangeActionKind};
use poker_core::bitset::Bitset;
use poker_core::card::{Card, CardError, Cards, Rank, Suite};
use poker_core::card_selector::CardSelector;
use poker_core::db::{Flop, FlopError};
use poker_core::deck::{Deck, DeckError};
use poker_core::game::MilliBigBlind;
use poker_core::range_config::PreFlopAction;

#[test]
fn bitset_operations() {
    let mut b: Bitset<2> = Bitset::ones(3);
    assert_eq!(b.count(), 3);
    assert!(b.has(2));
    assert!(!b.has(3));
    b.set(9);
    b.remove(0);
    assert_eq!(b.iter(16), vec![1, 2, 9]);
    let c = b.with(15);
    assert!(c.has(15));
    assert!(!b.has(15));
    assert!(!b.has(100));
}

#[test]
fn card_selector_clicks() {
    let ah = Card::of(Rank::Ace, Suite::Hearts);
    let ks = Card::of(Rank::King, Suite::Spades);
    let mut s = CardSelector::new();
    s.set_min_max(2, 2);
    s.click(ah);
    assert!(!s.can_apply());
    s.click(ks);
    assert!(s.can_apply());
    assert_eq!(s.cards_in_order(), &[ah, ks]);
    s.click(ah);
    assert_eq!(s.cards_in_order(), &[ks]);
    s.click(ah);
    let disabled = Cards::empty().with(ks);
    s.set_disabled(disabled);
    assert_eq!(s.cards_in_order(), &[ah]);
    s.click(ks);
    assert_eq!(s.cards_in_order(), &[ah]);
    assert!(s.cards().has(ah));
    s.reset();
    assert!(s.cards_in_order().is_empty());
}

#[test]
fn flop_text() {
    let flop = Flop::from_bytes(b"AhKd2c").unwrap();
    assert_eq!(flop.0[0], Card::of(Rank::Ace, Suite::Hearts));
    assert_eq!(flop.to_string(), "AhKd2c");
    assert_eq!(Flop::from_bytes(b"AhKd2").unwrap_err(), FlopError::BadLength);
    assert_eq!(Flop::from_bytes(b"AhAh2c").unwrap_err(), FlopError::DuplicateCard);
    assert_eq!(Flop::from_bytes(b"AhKx2c").unwrap_err(), FlopError::Card(CardError::InvalidSuite));
}

#[test]
fn ai_actions() {
    assert!(matches!(AiAction::from_pre_flop(PreFlopAction::Fold, 100), Ok(AiAction::Fold)));
    assert!(matches!(AiAction::from_pre_flop(PreFlopAction::Check, 100), Ok(AiAction::CheckFold)));
    assert!(matches!(AiAction::from_pre_flop(PreFlopAction::Call, 100), Ok(AiAction::CheckCall)));
    assert!(matches!(
        AiAction::from_pre_flop(PreFlopAction::Raise(MilliBigBlind(2_500)), 100),
        Ok(AiAction::BetRaise(250))
    ));
    assert!(matches!(
        AiAction::from_pre_flop(PreFlopAction::Post { player: 0, amount: MilliBigBlind(1_000) }, 100),
        Err(AiError::PostOrStraddle)
    ));
    assert!(matches!(
        AiAction::from_range(RangeActionKind::Bet(MilliBigBlind(-1)), 100),
        Err(AiError::AmountConversion)
    ));
    assert!(matches!(AiAction::from_range(RangeActionKind::Bet(MilliBigBlind(1_234)), 10), Ok(AiAction::BetRaise(12))));
    assert!(AiAction::CheckFold.contains_fold());
    assert!(!AiAction::CheckCall.contains_fold());
}

#[test]
fn deck_draws_every_card_once() {
    let mut rng = rand::thread_rng();
    let known = Cards::empty().with(Card::of(Rank::Ace, Suite::Hearts));
    let mut deck = Deck::from_cards(&mut rng, known);
    let mut seen = Cards::empty();
    for _ in 0..51 {
        let c = deck.draw(&mut rng).unwrap();
        assert!(!seen.has(c));
        assert!(!known.has(c));
        seen.add(c);
    }
    assert!(deck.draw(&mut rng).is_none());
    assert_eq!(deck.draw_result(&mut rng), Err(DeckError::Empty));
    deck.reset();
    let h = deck.hand(&mut rng).unwrap();
    assert!(h.0 != h.1);
    assert_eq!(seen.count(), 51);
}

#[test]
fn deck_hand_needs_two_cards() {
    let mut rng = rand::thread_rng();
    let mut known = Cards::empty();
    for c in Card::all_by_rank() {
        if c != Card::of(Rank::Ace, Suite::Hearts) {
            known.add(c);
        }
    }
    let mut deck = Deck::from_cards(&mut rng, known);
    assert!(deck.hand(&mut rng).is_none());
    assert!(deck.draw(&mut rng).is_none());
}
