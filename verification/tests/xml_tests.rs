use poker_core::card::{Card, CardError, Rank, Suite};
use poker_core::xml_parser::{parse_card, ActionKind, ActionKindError, Price, PriceError};

#[test]
fn prices_in_cents() {
    assert_eq!(Price::from_str("€12,34"), Ok(Price(1234)));
    assert_eq!(Price::from_str("€0.5"), Ok(Price(50)));
    assert_eq!(Price::from_str("€7"), Ok(Price(700)));
    assert_eq!(Price::from_str("€+3.05"), Ok(Price(305)));
    assert_eq!(Price::from_str("12,34"), Err(PriceError::MissingUnit));
    assert_eq!(Price::from_str("€1,234"), Err(PriceError::InvalidFormat));
    assert_eq!(Price::from_str("€1,2,3"), Err(PriceError::InvalidFormat));
    assert_eq!(Price::from_str("€a"), Err(PriceError::InvalidNumber));
    assert_eq!(Price::from_str("€"), Err(PriceError::InvalidNumber));
    assert_eq!(Price::from_str("€1,"), Err(PriceError::InvalidNumber));
    assert_eq!(Price::from_str("€42949673"), Err(PriceError::TooLarge));
    assert_eq!(Price::from_str("€42949672,95"), Ok(Price(4294967295)));
}

#[test]
fn stored_action_numbers() {
    assert_eq!(ActionKind::try_from_u8(23), Ok(ActionKind::Raise));
    assert_eq!(ActionKind::try_from_u8(7), Ok(ActionKind::AllIn));
    assert_eq!(ActionKind::try_from_u8(15), Err(ActionKindError::AnteNotSupported));
    assert_eq!(ActionKind::try_from_u8(6), Err(ActionKindError::Unknown(6)));
}

#[test]
fn cards_suit_first() {
    assert_eq!(parse_card("S10"), Ok(Card::of(Rank::Ten, Suite::Spades)));
    assert_eq!(parse_card("hA"), Ok(Card::of(Rank::Ace, Suite::Hearts)));
    assert_eq!(parse_card("D2"), Ok(Card::of(Rank::Two, Suite::Diamonds)));
    assert_eq!(parse_card("X"), Err(CardError::InvalidLength));
    assert_eq!(parse_card("Q2"), Err(CardError::InvalidSuite));
    assert_eq!(parse_card("s11"), Err(CardError::InvalidRank));
}
