use poker_core::card::{Card, Rank, Suite};
use poker_core::hand::{Hand, HAND_COUNT};

#[test]
fn test_const_hands() {
    let mut index = 0;
    let hands = Hand::all();

    for a in Card::all_by_rank() {
        for b in Card::all_by_rank() {
            if b.cmp_by_rank(a).is_gt() {
                let hand = Hand::of_two_cards(a, b).unwrap();
                assert_eq!(hand, hands[index]);
                index += 1;
            }
        }
    }

    assert_eq!(index, HAND_COUNT);
}

#[test]
fn hand_index_round_trip() {
    for index in 0..HAND_COUNT {
        let hand = Hand::from_index(index);
        assert_eq!(hand.to_index(), index);
    }
    let hand = Hand::of_two_cards(Card::of(Rank::Two, Suite::Clubs), Card::of(Rank::Two, Suite::Diamonds)).unwrap();
    assert_eq!(hand.to_index(), 0);
    let hand = Hand::of_two_cards(Card::of(Rank::Ace, Suite::Hearts), Card::of(Rank::Ace, Suite::Spades)).unwrap();
    assert_eq!(hand.to_index(), HAND_COUNT - 1);
}

#[test]
fn hand_from_bytes_orders_cards() {
    let hand = Hand::from_bytes(b"2sAh").unwrap();
    assert_eq!(hand.0, Card::of(Rank::Ace, Suite::Hearts));
    assert_eq!(hand.1, Card::of(Rank::Two, Suite::Spades));
    assert!(Hand::from_bytes(b"AhAh").is_err());
    assert!(Hand::from_bytes(b"Ah").is_err());
    assert!(Hand::from_bytes(b"AhKx").is_err());
}

#[test]
fn card_text() {
    assert_eq!(Card::of(Rank::Ten, Suite::Clubs).to_string(), "Tc");
    assert_eq!(Card::of(Rank::Two, Suite::Diamonds).to_string(), "2d");
    let c = Card::from_ascii_pair(b'Q', b's').unwrap();
    assert_eq!(c, Card::of(Rank::Queen, Suite::Spades));
}
