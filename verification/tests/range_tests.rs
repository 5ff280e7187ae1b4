use poker_core::card::{Card, CardError, Rank, Suite};
use poker_core::hand::Hand;
use poker_core::range::{PreFlopRangeTable, RangeEntry, RangeError};
use poker_core::range_table::RangeTable;

fn hand(s: &str) -> Hand {
    Hand::from_bytes(s.as_bytes()).unwrap()
}

#[test]
fn pre_flop_parse_counts() {
    let t = PreFlopRangeTable::parse("QQ+,AKs,AJo+").unwrap();
    // QQ, KK, AA, AKs, AJo, AQo, AKo
    assert_eq!(t.count(), 7);
    assert_eq!(t.count_hands(), 3 * 6 + 4 + 3 * 12);
    assert!(t.contains(hand("AsKs")));
    assert!(t.contains(hand("AsKd")));
    assert!(!t.contains(hand("AsTd")));
    assert!(t.contains(hand("QcQd")));
    assert!(!t.contains(hand("JcJd")));
}

#[test]
fn pre_flop_parse_full_and_space() {
    let t = PreFlopRangeTable::parse("  full \n").unwrap();
    assert_eq!(t.count(), 169);
    assert_eq!(t.count_hands(), 1326);
    let e = PreFlopRangeTable::empty();
    assert!(e.is_empty());
    assert!(!t.is_empty());
    assert_eq!(PreFlopRangeTable::full().count(), 169);
}

#[test]
fn pre_flop_parse_errors() {
    assert_eq!(PreFlopRangeTable::parse("QQ,QQ").unwrap_err(), RangeError::Duplicate);
    assert_eq!(PreFlopRangeTable::parse("KAs").unwrap_err(), RangeError::LowNotBelowHigh);
    assert_eq!(PreFlopRangeTable::parse("AK").unwrap_err(), RangeError::Format);
    assert_eq!(PreFlopRangeTable::parse("XX").unwrap_err(), RangeError::Card(CardError::InvalidRank));
    assert_eq!(PreFlopRangeTable::parse("TT+,QQ").unwrap_err(), RangeError::Duplicate);
}

#[test]
fn pre_flop_card_set() {
    let t = PreFlopRangeTable::parse("AA").unwrap();
    let cards = t.card_set();
    assert_eq!(cards.count(), 4);
    assert!(cards.has(Card::of(Rank::Ace, Suite::Spades)));
    assert!(!cards.has(Card::of(Rank::King, Suite::Spades)));
}

#[test]
fn range_entry_shapes() {
    let e = RangeEntry::new(Rank::Ace, Rank::King, true).unwrap();
    assert!(e.suited());
    assert!(!e.pair());
    assert_eq!(e.combo_count(), 4);
    assert_eq!(RangeEntry::paired(Rank::Seven).combo_count(), 6);
    assert_eq!(RangeEntry::new(Rank::Ace, Rank::King, false).unwrap().combo_count(), 12);
    assert!(RangeEntry::new(Rank::King, Rank::Ace, false).is_none());
    assert!(RangeEntry::new(Rank::King, Rank::King, true).is_none());
    assert_eq!(RangeEntry::from_bytes(b"AKs").unwrap(), e);
}

#[test]
fn range_table_parse_hands() {
    let t = RangeTable::parse("QQ+,7h6h").unwrap();
    assert_eq!(t.count(), 3 * 6 + 1);
    assert!(t.has_hand(hand("7h6h")));
    assert!(!t.has_hand(hand("7h6d")));
    assert!(t.has_hand(hand("KsKd")));
    assert_eq!(RangeTable::parse("7h6h,7h6h").unwrap_err(), RangeError::Duplicate);
    assert_eq!(RangeTable::parse("QQ+,QhQd").unwrap_err(), RangeError::Duplicate);
    assert_eq!(RangeTable::parse("7h7h").unwrap_err(), RangeError::Card(CardError::DuplicateCard));
    assert_eq!(RangeTable::parse("full").unwrap().count(), 1326);
    assert_eq!(RangeTable::parse("AKs").unwrap().count(), 4);
    assert_eq!(RangeTable::parse("A2o+").unwrap().count(), 12 * 12);
}

#[test]
fn range_table_from_pre_flop_table() {
    let pre = PreFlopRangeTable::parse("TT+,AQs+,KQo").unwrap();
    let t = RangeTable::from_range_table(&pre);
    assert_eq!(t.count(), pre.count_hands());
    for h in pre.to_vec() {
        assert!(t.has_hand(h));
    }
    let listed = t.to_vec();
    assert_eq!(listed.len() as u32, t.count());
    for w in listed.windows(2) {
        assert!(w[0].to_index() < w[1].to_index());
    }
}

#[test]
fn range_table_add_and_intersect() {
    let mut t = RangeTable::empty();
    assert!(t.is_empty());
    t.add_hand(hand("AsKs"));
    assert_eq!(t.try_add_hand(hand("AsKs")), Err(RangeError::Duplicate));
    assert_eq!(t.try_add_hand(hand("AdKd")), Ok(()));
    t.add_hand_unchecked(hand("AdKd"));
    assert_eq!(t.count(), 2);
    let other = RangeTable::from_hands(&[hand("AdKd"), hand("2c2d")]);
    t.bitand_assign(&other);
    assert_eq!(t.count(), 1);
    assert!(t.has_hand(hand("AdKd")));
    let mut it = t.iter();
    assert_eq!(it.next(), Some(hand("AdKd")));
    assert_eq!(it.next(), None);
}

#[test]
fn listed_hands_match_the_count() {
    let t = PreFlopRangeTable::parse("QQ+,AKs,AJo+").unwrap();
    let listed = t.to_vec();
    assert_eq!(listed.len() as u32, t.count_hands());
    assert_eq!(listed.len(), 3 * 6 + 4 + 3 * 12);
    let e = PreFlopRangeTable::empty();
    assert_eq!(e.to_vec().len(), 0);
    assert_eq!(e.count_hands(), 0);
}

#[test]
fn hand_count_is_the_sum_of_combinations() {
    // 6 per pair, 4 per suited, 12 per offsuit entry.
    let t = PreFlopRangeTable::parse("22,A2s,K9o").unwrap();
    assert_eq!(t.count_hands(), 6 + 4 + 12);
    assert_eq!(t.to_vec().len(), 22);
    let e = PreFlopRangeTable::parse("").map(|t| t.count_hands());
    if let Ok(n) = e {
        assert_eq!(n, 0);
    }
}

#[test]
fn unicode_white_space_is_trimmed() {
    let t = PreFlopRangeTable::parse("\u{a0}\u{3000} AA,KK\u{2009}\n\u{85}").unwrap();
    assert_eq!(t.count(), 2);
    let r = RangeTable::parse("\u{2028}AA\u{a0}").unwrap();
    assert_eq!(r.count(), 6);
    assert!(PreFlopRangeTable::parse("A\u{a0}A").is_err());
}

#[test]
fn both_range_readers_agree() {
    for s in ["QQ+,AKs,AJo+", " full ", "22+", "K9s+,T8o", "AA,AA", "XX"] {
        let a = RangeTable::parse(s);
        let b = PreFlopRangeTable::parse(s);
        assert_eq!(a.is_ok(), b.is_ok(), "{}", s);
        if let (Ok(a), Ok(b)) = (a, b) {
            let c = RangeTable::from_range_table(&b);
            assert_eq!(a.count(), c.count());
            for h in c.to_vec() {
                assert!(a.has_hand(h));
            }
        }
    }
}
