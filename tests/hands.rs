use poker_hands::cards::{deck_shuffled, deck_unshuffled, Card, Rank, Suit};
use poker_hands::combo::{
    detect_combo, detect_flush, detect_four_of_kind, detect_full_house, detect_high_card,
    detect_pair, detect_straight, detect_straight_flush, detect_three_of_kind, detect_two_pair,
    Combo, ComboRank,
};
use std::cmp::Ordering;

fn c(rank: Rank, suit: Suit) -> Card {
    Card::new(rank, suit)
}

fn ranks(combo: &Combo) -> Vec<Rank> {
    combo.cards.iter().map(|card| card.rank).collect()
}

fn count_rank(cards: &[Card], rank: Rank) -> usize {
    cards.iter().filter(|card| card.rank == rank).count()
}

use Rank::{Ace, Deuce, Eight, Five, Four, Jack, King, Nine, Queen, Seven, Six, Ten, Three};
use Suit::{Clubs, Diamonds, Hearts, Spades};

#[test]
fn ace_low_straight() {
    let wheel = detect_combo(&[c(Ace, Spades), c(Deuce, Hearts), c(Three, Diamonds), c(Four, Clubs), c(Five, Spades)]);
    assert_eq!(wheel.combo_rank, ComboRank::Straight);
    assert_eq!(ranks(&wheel), vec![Five, Four, Three, Deuce, Ace]);
    let six_high = detect_combo(&[c(Six, Spades), c(Deuce, Hearts), c(Three, Diamonds), c(Four, Clubs), c(Five, Spades)]);
    assert_eq!(six_high.combo_rank, ComboRank::Straight);
    assert_eq!(ranks(&six_high), vec![Six, Five, Four, Three, Deuce]);
    assert!(wheel < six_high);
    let high = detect_combo(&[c(Ace, Spades), c(King, Hearts), c(Three, Diamonds), c(Four, Clubs), c(Five, Spades)]);
    assert_eq!(high.combo_rank, ComboRank::HighCard);
    assert!(high < wheel);
}

#[test]
fn royal_and_straight_flush() {
    let royal = detect_combo(&[c(Ten, Spades), c(Jack, Spades), c(Queen, Spades), c(King, Spades), c(Ace, Spades)]);
    assert_eq!(royal.combo_rank, ComboRank::RoyalFlush);
    assert_eq!(ranks(&royal), vec![Ace, King, Queen, Jack, Ten]);
    let king_high = detect_combo(&[c(Nine, Spades), c(Ten, Spades), c(Jack, Spades), c(Queen, Spades), c(King, Spades)]);
    assert_eq!(king_high.combo_rank, ComboRank::StraightFlush);
    assert_eq!(king_high.cards[0].rank, King);
    assert!(king_high < royal);
    assert_eq!(king_high.cmp(&royal), Ordering::Less);
}

#[test]
fn tie_break_ignores_suits() {
    let a = detect_combo(&[c(Ace, Spades), c(Ace, Hearts), c(King, Diamonds), c(King, Clubs), c(Deuce, Spades)]);
    let b = detect_combo(&[c(Ace, Diamonds), c(Ace, Clubs), c(King, Hearts), c(King, Spades), c(Deuce, Hearts)]);
    assert_eq!(a.combo_rank, ComboRank::TwoPair);
    assert_eq!(ranks(&a), vec![Ace, Ace, King, King, Deuce]);
    assert!(a == b);
    assert_eq!(a.cmp(&b), Ordering::Equal);
    assert_eq!(a.partial_cmp(&b), Some(Ordering::Equal));
}

#[test]
fn full_house_from_seven_cards() {
    let hand = [
        c(Three, Spades), c(Three, Hearts), c(Three, Diamonds), c(Nine, Spades),
        c(Nine, Hearts), c(Deuce, Diamonds), c(Five, Clubs),
    ];
    let combo = detect_combo(&hand);
    assert_eq!(combo.combo_rank, ComboRank::FullHouse);
    assert_eq!(ranks(&combo), vec![Three, Three, Three, Nine, Nine]);
}

#[test]
fn classifying_twice_gives_equal_hands() {
    let hand = [c(Seven, Spades), c(Seven, Hearts), c(King, Clubs), c(Ace, Spades), c(Deuce, Diamonds)];
    let a = detect_combo(&hand);
    let b = detect_combo(&hand);
    assert!(a == b);
    assert_eq!(a.combo_rank, ComboRank::Pair);
    assert_eq!(ranks(&a), vec![Seven, Seven, Ace, King, Deuce]);
}

#[test]
fn result_is_five_cards_of_the_input() {
    let hand = [
        c(Queen, Hearts), c(Four, Spades), c(Queen, Clubs), c(Nine, Diamonds),
        c(Jack, Hearts), c(Four, Hearts), c(Deuce, Clubs),
    ];
    let combo = detect_combo(&hand);
    assert_eq!(combo.cards.len(), 5);
    for card in combo.cards.iter() {
        assert!(hand.contains(card));
        assert!(count_rank(&combo.cards, card.rank) <= count_rank(&hand, card.rank));
    }
    assert_eq!(combo.combo_rank, ComboRank::TwoPair);
    assert_eq!(ranks(&combo), vec![Queen, Queen, Four, Four, Jack]);
}

#[test]
fn four_of_kind_beats_full_house_reading() {
    let hand = [
        c(Eight, Spades), c(Eight, Hearts), c(Eight, Diamonds), c(Eight, Clubs),
        c(King, Hearts), c(King, Spades), c(Three, Clubs),
    ];
    let combo = detect_combo(&hand);
    assert_eq!(combo.combo_rank, ComboRank::FourOfKind);
    assert_eq!(ranks(&combo), vec![Eight, Eight, Eight, Eight, King]);
}

#[test]
fn order_is_total_and_transitive() {
    let pair = detect_combo(&[c(Six, Spades), c(Six, Hearts), c(King, Clubs), c(Ace, Spades), c(Deuce, Diamonds)]);
    let better_pair = detect_combo(&[c(Six, Clubs), c(Six, Diamonds), c(King, Hearts), c(Ace, Hearts), c(Three, Diamonds)]);
    let trips = detect_combo(&[c(Four, Spades), c(Four, Hearts), c(Four, Clubs), c(Ace, Spades), c(Deuce, Diamonds)]);
    assert!(pair < better_pair && !(pair == better_pair) && !(pair > better_pair));
    assert!(better_pair < trips);
    assert!(pair < trips);
    assert_eq!(trips.cmp(&pair), Ordering::Greater);
    assert_eq!(pair.cmp(&pair), Ordering::Equal);
}

#[test]
fn high_card_takes_five_highest() {
    let combo = detect_high_card(&[
        c(Deuce, Spades), c(Nine, Hearts), c(Jack, Clubs), c(Four, Spades), c(King, Diamonds),
        c(Seven, Clubs), c(Three, Hearts),
    ]);
    assert_eq!(combo.combo_rank, ComboRank::HighCard);
    assert_eq!(ranks(&combo), vec![King, Jack, Nine, Seven, Four]);
}

#[test]
fn pair_and_no_pair() {
    let none = detect_pair(&[c(Deuce, Spades), c(Nine, Hearts), c(Jack, Clubs), c(Four, Spades), c(King, Diamonds)]);
    assert!(none.is_none());
    let combo = detect_pair(&[c(Nine, Spades), c(Nine, Hearts), c(Jack, Clubs), c(Four, Spades), c(King, Diamonds)]).unwrap();
    assert_eq!(combo.combo_rank, ComboRank::Pair);
    assert_eq!(ranks(&combo), vec![Nine, Nine, King, Jack, Four]);
}

#[test]
fn two_pair_needs_two_ranks() {
    let quads = [c(Ace, Spades), c(Ace, Hearts), c(Ace, Clubs), c(Ace, Diamonds), c(King, Diamonds)];
    assert!(detect_two_pair(&quads).is_none());
    let with_pair = [
        c(Ace, Spades), c(Ace, Hearts), c(Ace, Clubs), c(Ace, Diamonds), c(King, Diamonds),
        c(King, Clubs), c(Three, Clubs),
    ];
    let combo = detect_two_pair(&with_pair).unwrap();
    assert_eq!(ranks(&combo), vec![Ace, Ace, King, King, Ace]);
}

#[test]
fn three_of_kind_prefers_higher_triple() {
    let hand = [
        c(Five, Spades), c(Five, Hearts), c(Five, Clubs), c(Jack, Spades), c(Jack, Hearts),
        c(Jack, Clubs), c(Deuce, Clubs),
    ];
    let combo = detect_three_of_kind(&hand).unwrap();
    assert_eq!(combo.combo_rank, ComboRank::ThreeOfKind);
    assert_eq!(ranks(&combo), vec![Jack, Jack, Jack, Five, Five]);
    let full = detect_full_house(&hand).unwrap();
    assert_eq!(ranks(&full), vec![Jack, Jack, Jack, Five, Five]);
    assert!(detect_three_of_kind(&[c(Five, Spades), c(Five, Hearts), c(Six, Clubs), c(Jack, Spades), c(Ace, Hearts)]).is_none());
}

#[test]
fn four_of_kind_kicker() {
    let hand = [c(Deuce, Spades), c(Deuce, Hearts), c(Deuce, Clubs), c(Deuce, Diamonds), c(Seven, Hearts), c(Queen, Clubs)];
    let combo = detect_four_of_kind(&hand).unwrap();
    assert_eq!(ranks(&combo), vec![Deuce, Deuce, Deuce, Deuce, Queen]);
    assert!(detect_four_of_kind(&hand[1..]).is_none());
}

#[test]
fn full_house_needs_a_pair() {
    let hand = [c(Ten, Spades), c(Ten, Hearts), c(Ten, Clubs), c(Six, Diamonds), c(Seven, Hearts)];
    assert!(detect_full_house(&hand).is_none());
}

#[test]
fn straight_picks_highest_run() {
    let hand = [
        c(Four, Spades), c(Five, Hearts), c(Six, Clubs), c(Seven, Diamonds), c(Eight, Hearts),
        c(Nine, Clubs), c(Ace, Clubs),
    ];
    let combo = detect_straight(&hand).unwrap();
    assert_eq!(ranks(&combo), vec![Nine, Eight, Seven, Six, Five]);
    let broken = [c(Four, Spades), c(Five, Hearts), c(Six, Clubs), c(Seven, Diamonds), c(Nine, Hearts)];
    assert!(detect_straight(&broken).is_none());
}

#[test]
fn flush_prefers_higher_suit() {
    let hand = [
        c(Deuce, Hearts), c(Five, Hearts), c(Nine, Hearts), c(Jack, Hearts), c(King, Hearts),
        c(Three, Clubs), c(Six, Clubs), c(Nine, Clubs), c(Jack, Clubs), c(Ace, Clubs),
    ];
    let combo = detect_flush(&hand).unwrap();
    assert_eq!(combo.combo_rank, ComboRank::Flush);
    assert_eq!(ranks(&combo), vec![Ace, Jack, Nine, Six, Three]);
    assert!(combo.cards.iter().all(|card| card.suit == Clubs));
    let best = detect_combo(&hand);
    assert_eq!(best.combo_rank, ComboRank::Flush);
    assert!(detect_flush(&hand[..5]).is_some());
    assert!(detect_flush(&hand[1..6]).is_none());
}

#[test]
fn straight_flush_in_one_suit_only() {
    let mixed = [c(Five, Hearts), c(Six, Hearts), c(Seven, Hearts), c(Eight, Hearts), c(Nine, Spades), c(Deuce, Hearts)];
    assert!(detect_straight_flush(&mixed).is_none());
    assert_eq!(detect_combo(&mixed).combo_rank, ComboRank::Flush);
    let wheel = [c(Ace, Diamonds), c(Deuce, Diamonds), c(Three, Diamonds), c(Four, Diamonds), c(Five, Diamonds), c(Six, Clubs)];
    let combo = detect_straight_flush(&wheel).unwrap();
    assert_eq!(combo.combo_rank, ComboRank::StraightFlush);
    assert_eq!(ranks(&combo), vec![Five, Four, Three, Deuce, Ace]);
}

#[test]
fn rank_and_suit_text() {
    assert_eq!(Ten.to_string(), "t");
    assert_eq!(Deuce.to_string(), "2");
    assert_eq!(Ace.to_string(), "A");
    assert_eq!(Spades.to_unicode_string(), "\u{2660}");
    assert_eq!(Clubs.to_ascii_string(), "d");
    assert_eq!(Hearts.to_ascii_string(), "b");
}

#[test]
fn card_text() {
    assert_eq!(c(Ace, Spades).to_long_ascii_string(), "Aa");
    assert_eq!(c(Ace, Spades).to_long_unicode_string(), "A\u{2660}");
    assert_eq!(c(Ten, Diamonds).to_long_ascii_string(), "tc");
    assert_eq!(c(Ace, Spades).to_short_unicode_string(), "\u{1F0A1}");
    assert_eq!(c(Queen, Hearts).to_short_unicode_string(), "\u{1F0BD}");
    assert_eq!(c(King, Clubs).to_short_unicode_string(), "\u{1F0DE}");
    assert_eq!(c(Jack, Diamonds).to_short_unicode_string(), "\u{1F0CB}");
}

#[test]
fn combo_text() {
    let combo = detect_combo(&[c(Ace, Spades), c(Seven, Diamonds), c(King, Clubs), c(Seven, Spades), c(Seven, Hearts)]);
    assert_eq!(combo.combo_rank.to_string(), "three of kind");
    assert_eq!(combo.to_long_ascii_string(), "three of kind: 7b 7a 7c Aa Kd");
    assert_eq!(combo.to_long_unicode_string(), "three of kind: 7\u{2665} 7\u{2660} 7\u{2666} A\u{2660} K\u{2663}");
    assert_eq!(combo.to_short_unicode_string(), "three of kind: \u{1F0B7} \u{1F0A7} \u{1F0C7} \u{1F0A1} \u{1F0DE}");
}

#[test]
fn unshuffled_deck_order() {
    let deck = deck_unshuffled();
    assert_eq!(deck.len(), 52);
    assert_eq!(deck[0], c(Ace, Spades));
    assert_eq!(deck[1], c(Deuce, Spades));
    assert_eq!(deck[12], c(King, Spades));
    assert_eq!(deck[13], c(Ace, Hearts));
    assert_eq!(deck[51], c(King, Clubs));
}

#[test]
fn shuffled_deck_is_a_permutation() {
    let plain = deck_unshuffled();
    let mut moved = false;
    for _ in 0..3 {
        let deck = deck_shuffled();
        assert_eq!(deck.len(), 52);
        for card in plain.iter() {
            assert_eq!(deck.iter().filter(|d| *d == card).count(), 1);
        }
        moved = moved || deck != plain;
    }
    assert!(moved);
}

#[test]
fn whole_deck_is_a_royal_flush() {
    let deck = deck_unshuffled();
    let combo = detect_combo(&deck);
    assert_eq!(combo.combo_rank, ComboRank::RoyalFlush);
    assert_eq!(ranks(&combo), vec![Ace, King, Queen, Jack, Ten]);
    let suit = combo.cards[0].suit;
    assert!(combo.cards.iter().all(|card| card.suit == suit));
}

#[test]
fn higher_straight_flush_wins_across_suits() {
    let hand = [
        c(Deuce, Hearts), c(Three, Hearts), c(Four, Hearts), c(Five, Hearts), c(Six, Hearts),
        c(Seven, Clubs), c(Eight, Clubs), c(Nine, Clubs), c(Ten, Clubs), c(Jack, Clubs),
    ];
    let combo = detect_combo(&hand);
    assert_eq!(combo.combo_rank, ComboRank::StraightFlush);
    assert_eq!(ranks(&combo), vec![Jack, Ten, Nine, Eight, Seven]);
    assert!(combo.cards.iter().all(|card| card.suit == Clubs));
}

#[test]
fn no_card_is_used_twice() {
    let hand = [c(King, Spades), c(King, Hearts), c(King, Clubs), c(Four, Diamonds), c(Nine, Hearts)];
    let combo = detect_combo(&hand);
    assert_eq!(combo.combo_rank, ComboRank::ThreeOfKind);
    for (i, a) in combo.cards.iter().enumerate() {
        for b in combo.cards.iter().skip(i + 1) {
            assert_ne!(a, b);
        }
    }
}
