use vstd::prelude::*;
use rand::seq::SliceRandom;

verus! {

/// Face value of a card, from the lowest (`Deuce`) to the highest (`Ace`).
#[derive(Copy, Clone, Debug, PartialEq, Eq, Structural, Hash)]
pub enum Rank {
    Deuce,
    Three,
    Four,
    Five,
    Six,
    Seven,
    Eight,
    Nine,
    Ten,
    Jack,
    Queen,
    King,
    Ace,
}

/// Text of each rank, indexed by `Rank::spec_index`.
pub open spec fn rank_chars() -> Seq<char> {
    seq!['2', '3', '4', '5', '6', '7', '8', '9', 't', 'J', 'Q', 'K', 'A']
}

/// Unicode symbol of each suit, indexed by `Suit::spec_index`.
pub open spec fn suit_symbols() -> Seq<char> {
    seq!['\u{2660}', '\u{2665}', '\u{2666}', '\u{2663}']
}

/// ASCII code of each suit, indexed by `Suit::spec_index`.
pub open spec fn suit_codes() -> Seq<char> {
    seq!['a', 'b', 'c', 'd']
}

impl Rank {
    /// Position of the rank in the order of strength: 0 for `Deuce`, 12 for `Ace`.
    pub open spec fn spec_index(self) -> int {
        match self {
            Rank::Deuce => 0,
            Rank::Three => 1,
            Rank::Four => 2,
            Rank::Five => 3,
            Rank::Six => 4,
            Rank::Seven => 5,
            Rank::Eight => 6,
            Rank::Nine => 7,
            Rank::Ten => 8,
            Rank::Jack => 9,
            Rank::Queen => 10,
            Rank::King => 11,
            Rank::Ace => 12,
        }
    }

    pub fn index(self) -> (r: u8)
        ensures
            r as int == self.spec_index(),
            r < 13,
    {
        match self {
            Rank::Deuce => 0,
            Rank::Three => 1,
            Rank::Four => 2,
            Rank::Five => 3,
            Rank::Six => 4,
            Rank::Seven => 5,
            Rank::Eight => 6,
            Rank::Nine => 7,
            Rank::Ten => 8,
            Rank::Jack => 9,
            Rank::Queen => 10,
            Rank::King => 11,
            Rank::Ace => 12,
        }
    }

    pub fn from_index(i: u8) -> (r: Rank)
        requires
            i < 13,
        ensures
            r.spec_index() == i as int,
    {
        let table = [
            Rank::Deuce,
            Rank::Three,
            Rank::Four,
            Rank::Five,
            Rank::Six,
            Rank::Seven,
            Rank::Eight,
            Rank::Nine,
            Rank::Ten,
            Rank::Jack,
            Rank::Queen,
            Rank::King,
            Rank::Ace,
        ];
        table[i as usize]
    }

    /// The rank as text: its digit, or `t`, `J`, `Q`, `K`, `A`.
    pub fn to_string(self) -> (r: String)
        ensures
            r@ == seq![rank_chars()[self.spec_index()]],
    {
        let table = ["2", "3", "4", "5", "6", "7", "8", "9", "t", "J", "Q", "K", "A"];
        proof {
            reveal_strlit("2");
            reveal_strlit("3");
            reveal_strlit("4");
            reveal_strlit("5");
            reveal_strlit("6");
            reveal_strlit("7");
            reveal_strlit("8");
            reveal_strlit("9");
            reveal_strlit("t");
            reveal_strlit("J");
            reveal_strlit("Q");
            reveal_strlit("K");
            reveal_strlit("A");
        }
        table[self.index() as usize].to_string()
    }
}

/// Suit of a card. Suits have no order among them.
#[derive(Copy, Clone, Debug, PartialEq, Eq, Structural, Hash)]
pub enum Suit {
    Spades,
    Hearts,
    Diamonds,
    Clubs,
}

impl Suit {
    pub open spec fn spec_index(self) -> int {
        match self {
            Suit::Spades => 0,
            Suit::Hearts => 1,
            Suit::Diamonds => 2,
            Suit::Clubs => 3,
        }
    }

    pub fn index(self) -> (r: u8)
        ensures
            r as int == self.spec_index(),
            r < 4,
    {
        match self {
            Suit::Spades => 0,
            Suit::Hearts => 1,
            Suit::Diamonds => 2,
            Suit::Clubs => 3,
        }
    }

    pub fn from_index(i: u8) -> (r: Suit)
        requires
            i < 4,
        ensures
            r.spec_index() == i as int,
    {
        let table = [Suit::Spades, Suit::Hearts, Suit::Diamonds, Suit::Clubs];
        table[i as usize]
    }

    /// The suit as its Unicode symbol.
    pub fn to_unicode_string(self) -> (r: String)
        ensures
            r@ == seq![suit_symbols()[self.spec_index()]],
    {
        let table = ["\u{2660}", "\u{2665}", "\u{2666}", "\u{2663}"];
        proof {
            reveal_strlit("\u{2660}");
            reveal_strlit("\u{2665}");
            reveal_strlit("\u{2666}");
            reveal_strlit("\u{2663}");
        }
        table[self.index() as usize].to_string()
    }

    /// The suit as a single ASCII letter.
    pub fn to_ascii_string(self) -> (r: String)
        ensures
            r@ == seq![suit_codes()[self.spec_index()]],
    {
        let table = ["a", "b", "c", "d"];
        proof {
            reveal_strlit("a");
            reveal_strlit("b");
            reveal_strlit("c");
            reveal_strlit("d");
        }
        table[self.index() as usize].to_string()
    }
}

/// A playing card: a rank and a suit.
#[derive(Copy, Clone, Debug, PartialEq, Eq, Structural, Hash)]
pub struct Card {
    pub rank: Rank,
    pub suit: Suit,
}

/// Offset of a rank inside a row of the Unicode playing-card block.
/// The block places the ace first and has a knight between jack and queen.
pub open spec fn glyph_offset(rank: int) -> int {
    if rank == 12 {
        1
    } else if rank <= 9 {
        rank + 2
    } else {
        rank + 3
    }
}

/// Code point of the single-character symbol of a card.
pub open spec fn glyph_code(c: Card) -> int {
    0x1F0A0 + 0x10 * c.suit.spec_index() + glyph_offset(c.rank.spec_index())
}

impl Card {
    pub fn new(rank: Rank, suit: Suit) -> (r: Card)
        ensures
            r.rank == rank,
            r.suit == suit,
    {
        Card { rank, suit }
    }

    /// The card as one symbol of the Unicode playing-card block.
    pub fn to_short_unicode_string(self) -> (r: String)
        ensures
            r@.len() == 1,
            r@[0] as int == glyph_code(self),
    {
        let spades = [
            "\u{1F0A2}", "\u{1F0A3}", "\u{1F0A4}", "\u{1F0A5}", "\u{1F0A6}", "\u{1F0A7}",
            "\u{1F0A8}", "\u{1F0A9}", "\u{1F0AA}", "\u{1F0AB}", "\u{1F0AD}", "\u{1F0AE}",
            "\u{1F0A1}",
        ];
        let hearts = [
            "\u{1F0B2}", "\u{1F0B3}", "\u{1F0B4}", "\u{1F0B5}", "\u{1F0B6}", "\u{1F0B7}",
            "\u{1F0B8}", "\u{1F0B9}", "\u{1F0BA}", "\u{1F0BB}", "\u{1F0BD}", "\u{1F0BE}",
            "\u{1F0B1}",
        ];
        let diamonds = [
            "\u{1F0C2}", "\u{1F0C3}", "\u{1F0C4}", "\u{1F0C5}", "\u{1F0C6}", "\u{1F0C7}",
            "\u{1F0C8}", "\u{1F0C9}", "\u{1F0CA}", "\u{1F0CB}", "\u{1F0CD}", "\u{1F0CE}",
            "\u{1F0C1}",
        ];
        let clubs = [
            "\u{1F0D2}", "\u{1F0D3}", "\u{1F0D4}", "\u{1F0D5}", "\u{1F0D6}", "\u{1F0D7}",
            "\u{1F0D8}", "\u{1F0D9}", "\u{1F0DA}", "\u{1F0DB}", "\u{1F0DD}", "\u{1F0DE}",
            "\u{1F0D1}",
        ];
        proof {
            reveal_strlit("\u{1F0A2}"); reveal_strlit("\u{1F0A3}"); reveal_strlit("\u{1F0A4}");
            reveal_strlit("\u{1F0A5}"); reveal_strlit("\u{1F0A6}"); reveal_strlit("\u{1F0A7}");
            reveal_strlit("\u{1F0A8}"); reveal_strlit("\u{1F0A9}"); reveal_strlit("\u{1F0AA}");
            reveal_strlit("\u{1F0AB}"); reveal_strlit("\u{1F0AD}"); reveal_strlit("\u{1F0AE}");
            reveal_strlit("\u{1F0A1}");
            reveal_strlit("\u{1F0B2}"); reveal_strlit("\u{1F0B3}"); reveal_strlit("\u{1F0B4}");
            reveal_strlit("\u{1F0B5}"); reveal_strlit("\u{1F0B6}"); reveal_strlit("\u{1F0B7}");
            reveal_strlit("\u{1F0B8}"); reveal_strlit("\u{1F0B9}"); reveal_strlit("\u{1F0BA}");
            reveal_strlit("\u{1F0BB}"); reveal_strlit("\u{1F0BD}"); reveal_strlit("\u{1F0BE}");
            reveal_strlit("\u{1F0B1}");
            reveal_strlit("\u{1F0C2}"); reveal_strlit("\u{1F0C3}"); reveal_strlit("\u{1F0C4}");
            reveal_strlit("\u{1F0C5}"); reveal_strlit("\u{1F0C6}"); reveal_strlit("\u{1F0C7}");
            reveal_strlit("\u{1F0C8}"); reveal_strlit("\u{1F0C9}"); reveal_strlit("\u{1F0CA}");
            reveal_strlit("\u{1F0CB}"); reveal_strlit("\u{1F0CD}"); reveal_strlit("\u{1F0CE}");
            reveal_strlit("\u{1F0C1}");
            reveal_strlit("\u{1F0D2}"); reveal_strlit("\u{1F0D3}"); reveal_strlit("\u{1F0D4}");
            reveal_strlit("\u{1F0D5}"); reveal_strlit("\u{1F0D6}"); reveal_strlit("\u{1F0D7}");
            reveal_strlit("\u{1F0D8}"); reveal_strlit("\u{1F0D9}"); reveal_strlit("\u{1F0DA}");
            reveal_strlit("\u{1F0DB}"); reveal_strlit("\u{1F0DD}"); reveal_strlit("\u{1F0DE}");
            reveal_strlit("\u{1F0D1}");
        }
        let r = self.rank.index() as usize;
        let row = match self.suit {
            Suit::Spades => spades,
            Suit::Hearts => hearts,
            Suit::Diamonds => diamonds,
            Suit::Clubs => clubs,
        };
        row[r].to_string()
    }

    /// The rank text followed by the suit's Unicode symbol, as in `A♠`.
    pub fn to_long_unicode_string(self) -> (r: String)
        ensures
            r@ == seq![rank_chars()[self.rank.spec_index()], suit_symbols()[self.suit.spec_index()]],
    {
        let mut res = self.rank.to_string();
        let suit = self.suit.to_unicode_string();
        res.append(suit.as_str());
        res
    }

    /// The rank text followed by the suit's ASCII code, as in `Aa`.
    pub fn to_long_ascii_string(self) -> (r: String)
        ensures
            r@ == seq![rank_chars()[self.rank.spec_index()], suit_codes()[self.suit.spec_index()]],
    {
        let mut res = self.rank.to_string();
        let suit = self.suit.to_ascii_string();
        res.append(suit.as_str());
        res
    }
}

/// Rank of the card at a position inside one suit of the unshuffled deck:
/// the ace first, then `Deuce` up to `King`.
pub open spec fn deck_rank(pos: int) -> int {
    if pos == 0 {
        12
    } else {
        pos - 1
    }
}

/// The unshuffled deck: the four suits in the order of `Suit::spec_index`,
/// each running ace, deuce, ..., king.
pub open spec fn is_unshuffled_deck(d: Seq<Card>) -> bool {
    &&& d.len() == 52
    &&& forall|i: int|
        0 <= i < 52 ==> (#[trigger] d[i]).suit.spec_index() == i / 13
            && d[i].rank.spec_index() == deck_rank(i % 13)
}

/// All 52 cards, in the fixed order of `is_unshuffled_deck`.
pub fn deck_unshuffled() -> (r: Vec<Card>)
    ensures
        is_unshuffled_deck(r@),
{
    let mut res: Vec<Card> = Vec::with_capacity(52);
    let mut s: u8 = 0;
    while s < 4
        invariant
            s <= 4,
            res@.len() == 13 * s,
            forall|i: int|
                0 <= i < res@.len() ==> (#[trigger] res@[i]).suit.spec_index() == i / 13
                    && res@[i].rank.spec_index() == deck_rank(i % 13),
        decreases 4 - s,
    {
        let suit = Suit::from_index(s);
        let mut pos: u8 = 0;
        while pos < 13
            invariant
                s < 4,
                pos <= 13,
                suit.spec_index() == s,
                res@.len() == 13 * s + pos,
                forall|i: int|
                    0 <= i < res@.len() ==> (#[trigger] res@[i]).suit.spec_index() == i / 13
                        && res@[i].rank.spec_index() == deck_rank(i % 13),
            decreases 13 - pos,
        {
            let rank = if pos == 0 {
                Rank::Ace
            } else {
                Rank::from_index(pos - 1)
            };
            res.push(Card { rank, suit });
            pos = pos + 1;
        }
        s = s + 1;
    }
    res
}

/// Relies on rand's `SliceRandom::shuffle` with the thread-local generator:
/// it only swaps elements, so the cards stay the same, in some order.
#[verifier::external_body]
fn shuffle_cards(cards: &mut Vec<Card>)
    ensures
        final(cards)@.to_multiset() == old(cards)@.to_multiset(),
        final(cards)@.len() == old(cards)@.len(),
{
    cards.shuffle(&mut rand::thread_rng());
}

/// All 52 cards in a random order.
pub fn deck_shuffled() -> (r: Vec<Card>)
    ensures
        r@.len() == 52,
        exists|d: Seq<Card>| is_unshuffled_deck(d) && r@.to_multiset() == d.to_multiset(),
{
    let mut deck = deck_unshuffled();
    let ghost d = deck@;
    shuffle_cards(&mut deck);
    assert(is_unshuffled_deck(d) && deck@.to_multiset() == d.to_multiset());
    deck
}

} // verus!
