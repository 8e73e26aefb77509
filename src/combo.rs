use vstd::prelude::*;
use vstd::multiset::Multiset;
use crate::cards::{Card, Suit, glyph_code, rank_chars, suit_codes, suit_symbols};
use std::cmp::Ordering;
use crate::grouping::{
    basket_sizes, groups_multiset, filter_by_suit, find_basket, find_straight, get_kickers, join_baskets,
    ranks_less, split_by_rank, take_basket,
};
use crate::ranks::{
    highest_with, histogram, lemma_highest_with, lemma_len_is_total, lemma_rank_count_concat,
    lemma_lex_trichotomy, lemma_of_suit, lemma_rank_count_uniform, lemma_total_update, lex_lt, of_suit, rank_count,
    ranks_of, straight_ranks, straight_top, top_ranks,
};

verus! {

broadcast use {vstd::multiset::group_multiset_axioms, vstd::seq_lib::group_to_multiset_ensures};

/// Category of a poker hand, from the weakest to the strongest.
#[derive(Copy, Clone, Debug, PartialEq, Eq, Structural, Hash)]
pub enum ComboRank {
    HighCard,
    Pair,
    TwoPair,
    ThreeOfKind,
    Straight,
    Flush,
    FullHouse,
    FourOfKind,
    StraightFlush,
    RoyalFlush,
}

impl ComboRank {
    /// Strength of the category: 0 for `HighCard` up to 9 for `RoyalFlush`.
    pub open spec fn spec_index(self) -> int {
        match self {
            ComboRank::HighCard => 0,
            ComboRank::Pair => 1,
            ComboRank::TwoPair => 2,
            ComboRank::ThreeOfKind => 3,
            ComboRank::Straight => 4,
            ComboRank::Flush => 5,
            ComboRank::FullHouse => 6,
            ComboRank::FourOfKind => 7,
            ComboRank::StraightFlush => 8,
            ComboRank::RoyalFlush => 9,
        }
    }

    pub fn index(self) -> (r: u8)
        ensures
            r as int == self.spec_index(),
    {
        match self {
            ComboRank::HighCard => 0,
            ComboRank::Pair => 1,
            ComboRank::TwoPair => 2,
            ComboRank::ThreeOfKind => 3,
            ComboRank::Straight => 4,
            ComboRank::Flush => 5,
            ComboRank::FullHouse => 6,
            ComboRank::FourOfKind => 7,
            ComboRank::StraightFlush => 8,
            ComboRank::RoyalFlush => 9,
        }
    }

    /// Name of the category in words.
    pub open spec fn text(self) -> Seq<char> {
        match self {
            ComboRank::HighCard => "high card"@,
            ComboRank::Pair => "pair"@,
            ComboRank::TwoPair => "two pair"@,
            ComboRank::ThreeOfKind => "three of kind"@,
            ComboRank::Straight => "straight"@,
            ComboRank::Flush => "flush"@,
            ComboRank::FullHouse => "full house"@,
            ComboRank::FourOfKind => "four of kind"@,
            ComboRank::StraightFlush => "straight flush"@,
            ComboRank::RoyalFlush => "royal flush"@,
        }
    }

    pub fn to_string(self) -> (r: String)
        ensures
            r@ == self.text(),
    {
        match self {
            ComboRank::HighCard => "high card",
            ComboRank::Pair => "pair",
            ComboRank::TwoPair => "two pair",
            ComboRank::ThreeOfKind => "three of kind",
            ComboRank::Straight => "straight",
            ComboRank::Flush => "flush",
            ComboRank::FullHouse => "full house",
            ComboRank::FourOfKind => "four of kind",
            ComboRank::StraightFlush => "straight flush",
            ComboRank::RoyalFlush => "royal flush",
        }.to_string()
    }
}

/// A classified hand: its category and five cards, the cards that make the
/// category first, then the kickers by rank, descending.
#[derive(Copy, Clone, Debug)]
pub struct Combo {
    pub combo_rank: ComboRank,
    pub cards: [Card; 5],
}

/// What orders two hands: the category first, then the rank of each card, in order.
pub open spec fn combo_key(c: Combo) -> Seq<int> {
    seq![c.combo_rank.spec_index()] + ranks_of(c.cards@)
}

/// How `a` compares with `b`; suits play no part.
pub open spec fn combo_order(a: Combo, b: Combo) -> Ordering {
    if lex_lt(combo_key(a), combo_key(b)) {
        Ordering::Less
    } else if combo_key(a) == combo_key(b) {
        Ordering::Equal
    } else {
        Ordering::Greater
    }
}

/// The text of a hand: the category name, a colon, and the five card texts
/// separated by spaces.
pub open spec fn layout(
    name: Seq<char>,
    c0: Seq<char>,
    c1: Seq<char>,
    c2: Seq<char>,
    c3: Seq<char>,
    c4: Seq<char>,
) -> Seq<char> {
    name + seq![':', ' '] + c0 + seq![' '] + c1 + seq![' '] + c2 + seq![' '] + c3 + seq![' '] + c4
}

/// A one-character text holding the symbol of card `c`.
pub open spec fn is_glyph_of(t: Seq<char>, c: Card) -> bool {
    t.len() == 1 && t[0] as int == glyph_code(c)
}

pub open spec fn long_unicode_text(c: Card) -> Seq<char> {
    seq![rank_chars()[c.rank.spec_index()], suit_symbols()[c.suit.spec_index()]]
}

pub open spec fn long_ascii_text(c: Card) -> Seq<char> {
    seq![rank_chars()[c.rank.spec_index()], suit_codes()[c.suit.spec_index()]]
}

fn join_texts(name: String, c0: String, c1: String, c2: String, c3: String, c4: String) -> (r:
    String)
    ensures
        r@ == layout(name@, c0@, c1@, c2@, c3@, c4@),
{
    proof {
        reveal_strlit(": ");
        reveal_strlit(" ");
    }
    let mut r = name;
    r.append(": ");
    r.append(c0.as_str());
    r.append(" ");
    r.append(c1.as_str());
    r.append(" ");
    r.append(c2.as_str());
    r.append(" ");
    r.append(c3.as_str());
    r.append(" ");
    r.append(c4.as_str());
    r
}

impl Combo {
    /// The hand with each card as one playing-card symbol.
    pub fn to_short_unicode_string(&self) -> (r: String)
        ensures
            exists|t0: Seq<char>, t1: Seq<char>, t2: Seq<char>, t3: Seq<char>, t4: Seq<char>|
                {
                    &&& is_glyph_of(t0, self.cards[0])
                    &&& is_glyph_of(t1, self.cards[1])
                    &&& is_glyph_of(t2, self.cards[2])
                    &&& is_glyph_of(t3, self.cards[3])
                    &&& is_glyph_of(t4, self.cards[4])
                    &&& r@ == #[trigger] layout(self.combo_rank.text(), t0, t1, t2, t3, t4)
                },
    {
        let c0 = self.cards[0].to_short_unicode_string();
        let c1 = self.cards[1].to_short_unicode_string();
        let c2 = self.cards[2].to_short_unicode_string();
        let c3 = self.cards[3].to_short_unicode_string();
        let c4 = self.cards[4].to_short_unicode_string();
        let ghost (t0, t1, t2, t3, t4) = (c0@, c1@, c2@, c3@, c4@);
        let r = join_texts(self.combo_rank.to_string(), c0, c1, c2, c3, c4);
        assert(is_glyph_of(t0, self.cards[0]) && is_glyph_of(t4, self.cards[4]));
        assert(r@ == layout(self.combo_rank.text(), t0, t1, t2, t3, t4));
        r
    }

    /// The hand with each card as its rank text and suit symbol.
    pub fn to_long_unicode_string(&self) -> (r: String)
        ensures
            r@ == layout(
                self.combo_rank.text(),
                long_unicode_text(self.cards[0]),
                long_unicode_text(self.cards[1]),
                long_unicode_text(self.cards[2]),
                long_unicode_text(self.cards[3]),
                long_unicode_text(self.cards[4]),
            ),
    {
        join_texts(
            self.combo_rank.to_string(),
            self.cards[0].to_long_unicode_string(),
            self.cards[1].to_long_unicode_string(),
            self.cards[2].to_long_unicode_string(),
            self.cards[3].to_long_unicode_string(),
            self.cards[4].to_long_unicode_string(),
        )
    }

    /// The hand with each card as its rank text and suit letter.
    pub fn to_long_ascii_string(&self) -> (r: String)
        ensures
            r@ == layout(
                self.combo_rank.text(),
                long_ascii_text(self.cards[0]),
                long_ascii_text(self.cards[1]),
                long_ascii_text(self.cards[2]),
                long_ascii_text(self.cards[3]),
                long_ascii_text(self.cards[4]),
            ),
    {
        join_texts(
            self.combo_rank.to_string(),
            self.cards[0].to_long_ascii_string(),
            self.cards[1].to_long_ascii_string(),
            self.cards[2].to_long_ascii_string(),
            self.cards[3].to_long_ascii_string(),
            self.cards[4].to_long_ascii_string(),
        )
    }

    /// Orders two hands by category, then by the ranks of their cards, in order.
    pub fn cmp(&self, other: &Combo) -> (r: Ordering)
        ensures
            r == combo_order(*self, *other),
    {
        let a = self.combo_rank.index();
        let b = other.combo_rank.index();
        proof {
            assert(combo_key(*self).drop_first() =~= ranks_of(self.cards@));
            assert(combo_key(*other).drop_first() =~= ranks_of(other.cards@));
            lemma_lex_trichotomy(combo_key(*self), combo_key(*other));
        }
        if a < b {
            Ordering::Less
        } else if b < a {
            Ordering::Greater
        } else if ranks_less(self.cards.as_slice(), other.cards.as_slice()) {
            Ordering::Less
        } else if ranks_less(other.cards.as_slice(), self.cards.as_slice()) {
            Ordering::Greater
        } else {
            proof {
                lemma_lex_trichotomy(ranks_of(self.cards@), ranks_of(other.cards@));
                assert(combo_key(*self) =~= combo_key(*other));
            }
            Ordering::Equal
        }
    }
}

impl PartialEq for Combo {
    fn eq(&self, other: &Combo) -> (r: bool) {
        let o = self.cmp(other);
        proof {
            lemma_lex_trichotomy(combo_key(*self), combo_key(*other));
        }
        matches!(o, Ordering::Equal)
    }
}

impl vstd::std_specs::cmp::PartialEqSpecImpl for Combo {
    open spec fn obeys_eq_spec() -> bool {
        true
    }

    open spec fn eq_spec(&self, other: &Combo) -> bool {
        combo_key(*self) == combo_key(*other)
    }
}

impl Eq for Combo {

}

impl PartialOrd for Combo {
    fn partial_cmp(&self, other: &Combo) -> (r: Option<Ordering>) {
        Some(self.cmp(other))
    }
}

impl vstd::std_specs::cmp::PartialOrdSpecImpl for Combo {
    open spec fn obeys_partial_cmp_spec() -> bool {
        true
    }

    open spec fn partial_cmp_spec(&self, other: &Combo) -> Option<Ordering> {
        Some(combo_order(*self, *other))
    }
}

// Model of the categories over a histogram `h` of ranks (see `histogram`).

/// `h` with `k` cards of rank `x` taken out.
pub open spec fn remove_n(h: Seq<int>, x: int, k: int) -> Seq<int> {
    h.update(x, h[x] - k)
}

/// Rank of the best pair, or -1.
pub open spec fn pair_rank(h: Seq<int>) -> int {
    highest_with(h, 2, 12)
}

/// Rank of the best pair of another rank than `pair_rank`, or -1.
pub open spec fn second_pair_rank(h: Seq<int>) -> int {
    highest_with(h.update(pair_rank(h), 0), 2, 12)
}

/// Rank of the best three of a kind, or -1.
pub open spec fn triple_rank(h: Seq<int>) -> int {
    highest_with(h, 3, 12)
}

/// Rank of the pair that goes with `triple_rank` in a full house, or -1.
pub open spec fn full_house_pair_rank(h: Seq<int>) -> int {
    highest_with(h.update(triple_rank(h), 0), 2, 12)
}

/// Rank of the best four of a kind, or -1.
pub open spec fn quad_rank(h: Seq<int>) -> int {
    highest_with(h, 4, 12)
}

pub open spec fn high_card_ranks(h: Seq<int>) -> Seq<int> {
    top_ranks(h, 12, 5)
}

pub open spec fn pair_ranks(h: Seq<int>) -> Seq<int> {
    let p = pair_rank(h);
    seq![p, p] + top_ranks(remove_n(h, p, 2), 12, 3)
}

pub open spec fn two_pair_ranks(h: Seq<int>) -> Seq<int> {
    let p = pair_rank(h);
    let q = second_pair_rank(h);
    seq![p, p, q, q] + top_ranks(remove_n(remove_n(h, p, 2), q, 2), 12, 1)
}

pub open spec fn three_of_kind_ranks(h: Seq<int>) -> Seq<int> {
    let t = triple_rank(h);
    seq![t, t, t] + top_ranks(remove_n(h, t, 3), 12, 2)
}

pub open spec fn full_house_ranks(h: Seq<int>) -> Seq<int> {
    let t = triple_rank(h);
    let p = full_house_pair_rank(h);
    seq![t, t, t, p, p]
}

pub open spec fn four_of_kind_ranks(h: Seq<int>) -> Seq<int> {
    let q = quad_rank(h);
    seq![q, q, q, q] + top_ranks(remove_n(h, q, 4), 12, 1)
}

/// Top rank of the best straight, or -1.
pub open spec fn best_straight_top(h: Seq<int>) -> int {
    straight_top(h, 12)
}

/// Top rank of the best straight among the cards of suit `u`, or -1.
pub open spec fn suit_straight_top(s: Seq<Card>, u: int) -> int {
    straight_top(histogram(of_suit(s, u)), 12)
}

pub open spec fn max(a: int, b: int) -> int {
    if a < b {
        b
    } else {
        a
    }
}

/// Top rank of the best straight in one suit over the suits below `n`, or -1.
pub open spec fn straight_flush_top_upto(s: Seq<Card>, n: int) -> int
    decreases n,
{
    if n <= 0 {
        -1
    } else {
        max(straight_flush_top_upto(s, n - 1), suit_straight_top(s, n - 1))
    }
}

/// Top rank of the best straight flush, or -1.
pub open spec fn straight_flush_top(s: Seq<Card>) -> int {
    straight_flush_top_upto(s, 4)
}

/// Suit `u` holds at least five cards.
pub open spec fn flush_in(s: Seq<Card>, u: int) -> bool {
    of_suit(s, u).len() >= 5
}

pub open spec fn has_flush(s: Seq<Card>) -> bool {
    exists|u: int| 0 <= u < 4 && flush_in(s, u)
}

/// Ranks of the five highest cards of suit `u` if it makes a flush, else empty.
pub open spec fn flush_candidate(s: Seq<Card>, u: int) -> Seq<int> {
    if flush_in(s, u) {
        top_ranks(histogram(of_suit(s, u)), 12, 5)
    } else {
        Seq::empty()
    }
}

pub open spec fn lex_max(a: Seq<int>, b: Seq<int>) -> Seq<int> {
    if lex_lt(a, b) {
        b
    } else {
        a
    }
}

/// The greatest `flush_candidate` over the suits below `n`.
pub open spec fn best_flush_upto(s: Seq<Card>, n: int) -> Seq<int>
    decreases n,
{
    if n <= 0 {
        Seq::empty()
    } else {
        lex_max(best_flush_upto(s, n - 1), flush_candidate(s, n - 1))
    }
}

/// Ranks of the best flush: the five highest cards of the suit whose five
/// highest cards rank highest.
pub open spec fn flush_ranks(s: Seq<Card>) -> Seq<int> {
    best_flush_upto(s, 4)
}

/// All cards of `c` share one suit.
pub open spec fn one_suit(c: Seq<Card>) -> bool {
    forall|i: int| 0 <= i < c.len() ==> (#[trigger] c[i]).suit == c[0].suit
}

/// The cards of `c` are cards of `s`, none of them more often than `s` holds it.
pub open spec fn drawn_from(c: Seq<Card>, s: Seq<Card>) -> bool {
    c.to_multiset().subset_of(s.to_multiset())
}

/// Cards `a` set aside from `s`, and cards `b` taken from what was left.
proof fn lemma_drawn_parts(a: Seq<Card>, b: Seq<Card>, rest: Multiset<Card>, s: Seq<Card>)
    requires
        b.to_multiset().subset_of(rest),
        rest.add(a.to_multiset()) == s.to_multiset(),
    ensures
        drawn_from(a + b, s),
{
    vstd::seq_lib::lemma_multiset_commutative(a, b);
    assert forall|c: Card| #[trigger] (a + b).to_multiset().count(c) <= s.to_multiset().count(c) by {
        assert(rest.add(a.to_multiset()).count(c) == s.to_multiset().count(c));
    }
}

proof fn lemma_drawn_trans(a: Seq<Card>, b: Seq<Card>, s: Seq<Card>)
    requires
        drawn_from(a, b),
        drawn_from(b, s),
    ensures
        drawn_from(a, s),
{
    assert forall|c: Card| #[trigger] a.to_multiset().count(c) <= s.to_multiset().count(c) by {
        assert(a.to_multiset().count(c) <= b.to_multiset().count(c));
        assert(b.to_multiset().count(c) <= s.to_multiset().count(c));
    }
}

proof fn lemma_histogram_append_uniform(a: Seq<Card>, b: Seq<Card>, x: int)
    requires
        0 <= x < 13,
        forall|j: int| 0 <= j < b.len() ==> (#[trigger] b[j]).rank.spec_index() == x,
    ensures
        histogram(a + b) == histogram(a).update(x, histogram(a)[x] + b.len()),
{
    assert forall|r: int| 0 <= r < 13 implies rank_count(a + b, r) == rank_count(a, r) + if r
        == x {
        b.len()
    } else {
        0
    } by {
        lemma_rank_count_concat(a, b, r);
        lemma_rank_count_uniform(b, x, r);
    }
    assert(histogram(a + b) =~= histogram(a).update(x, histogram(a)[x] + b.len()));
}

/// The five highest cards.
pub fn detect_high_card(cards: &[Card]) -> (res: Combo)
    requires
        cards@.len() >= 5,
    ensures
        res.combo_rank == ComboRank::HighCard,
        ranks_of(res.cards@) == high_card_ranks(histogram(cards@)),
        drawn_from(res.cards@, cards@),
{
    let kickers = get_kickers(cards, 5);
    let res = Combo {
        combo_rank: ComboRank::HighCard,
        cards: [kickers[0], kickers[1], kickers[2], kickers[3], kickers[4]],
    };
    assert(res.cards@ =~= kickers@);
    res
}

/// The best pair and the three highest other cards, if a rank repeats.
pub fn detect_pair(cards: &[Card]) -> (res: Option<Combo>)
    requires
        cards@.len() >= 5,
    ensures
        res is None <==> pair_rank(histogram(cards@)) < 0,
        res matches Some(c) ==> c.combo_rank == ComboRank::Pair && ranks_of(c.cards@) == pair_ranks(
            histogram(cards@),
        ) && drawn_from(c.cards@, cards@),
{
    let ghost s = cards@;
    let ghost h = histogram(s);
    let mut groups = split_by_rank(cards);
    match find_basket(&mut groups, 2, Ghost(s)) {
        None => None,
        Some(pair) => {
            let remaining = join_baskets(&groups, Ghost(s));
            let ghost p = pair.rank.spec_index();
            proof {
                lemma_len_is_total(s);
                lemma_len_is_total(remaining@);
                lemma_total_update(h, p, h[p] - 2, 13);
            }
            let kickers = get_kickers(remaining.as_slice(), 3);
            let res = Combo {
                combo_rank: ComboRank::Pair,
                cards: [pair.cards[0], pair.cards[1], kickers[0], kickers[1], kickers[2]],
            };
            assert(ranks_of(res.cards@) =~= pair_ranks(h));
            proof {
                assert(res.cards@ =~= pair.cards@ + kickers@);
                lemma_drawn_parts(pair.cards@, kickers@, remaining@.to_multiset(), s);
            }
            Some(res)
        },
    }
}


/// The best pair, a pair of another rank, and the highest other card.
pub fn detect_two_pair(cards: &[Card]) -> (res: Option<Combo>)
    requires
        cards@.len() >= 5,
    ensures
        res is None <==> pair_rank(histogram(cards@)) < 0 || second_pair_rank(histogram(cards@)) < 0,
        res matches Some(c) ==> c.combo_rank == ComboRank::TwoPair && ranks_of(c.cards@)
            == two_pair_ranks(histogram(cards@)) && drawn_from(c.cards@, cards@),
{
    let ghost s = cards@;
    let ghost h = histogram(s);
    let mut groups = split_by_rank(cards);
    let first = match find_basket(&mut groups, 2, Ghost(s)) {
        None => return None,
        Some(b) => b,
    };
    let ghost p = first.rank.spec_index();
    let mut rest = take_basket(&mut groups, first.rank.index(), Ghost(s));
    assert(basket_sizes(groups@) =~= h.update(p, 0));
    let second = match find_basket(&mut groups, 2, Ghost(s)) {
        None => return None,
        Some(b) => b,
    };
    let ghost q = second.rank.spec_index();
    let mut remaining = join_baskets(&groups, Ghost(s));
    let ghost joined = remaining@;
    let ghost rest_cards = rest@;
    remaining.append(&mut rest);
    proof {
        lemma_highest_with(h.update(p, 0), 2, 12);
        lemma_histogram_append_uniform(joined, rest_cards, p);
        assert(histogram(remaining@) =~= remove_n(remove_n(h, p, 2), q, 2));
        lemma_len_is_total(s);
        lemma_len_is_total(remaining@);
        lemma_total_update(h, p, h[p] - 2, 13);
        lemma_total_update(remove_n(h, p, 2), q, h[q] - 2, 13);
        assert(forall|j: int| 0 <= j < remaining@.len() ==> s.contains(#[trigger] remaining@[j]));
    }
    let kickers = get_kickers(remaining.as_slice(), 1);
    let res = Combo {
        combo_rank: ComboRank::TwoPair,
        cards: [first.cards[0], first.cards[1], second.cards[0], second.cards[1], kickers[0]],
    };
    assert(ranks_of(res.cards@) =~= two_pair_ranks(h));
    proof {
        let a = first.cards@ + second.cards@;
        vstd::seq_lib::lemma_multiset_commutative(first.cards@, second.cards@);
        vstd::seq_lib::lemma_multiset_commutative(joined, rest_cards);
        assert(remaining@.to_multiset().add(a.to_multiset()) =~= s.to_multiset());
        assert(res.cards@ =~= a + kickers@);
        lemma_drawn_parts(a, kickers@, remaining@.to_multiset(), s);
    }
    Some(res)
}

/// The best three of a kind and the two highest other cards.
pub fn detect_three_of_kind(cards: &[Card]) -> (res: Option<Combo>)
    requires
        cards@.len() >= 5,
    ensures
        res is None <==> triple_rank(histogram(cards@)) < 0,
        res matches Some(c) ==> c.combo_rank == ComboRank::ThreeOfKind && ranks_of(c.cards@)
            == three_of_kind_ranks(histogram(cards@)) && drawn_from(c.cards@, cards@),
{
    let ghost s = cards@;
    let ghost h = histogram(s);
    let mut groups = split_by_rank(cards);
    match find_basket(&mut groups, 3, Ghost(s)) {
        None => None,
        Some(three) => {
            let remaining = join_baskets(&groups, Ghost(s));
            let ghost t = three.rank.spec_index();
            proof {
                lemma_len_is_total(s);
                lemma_len_is_total(remaining@);
                lemma_total_update(h, t, h[t] - 3, 13);
            }
            let kickers = get_kickers(remaining.as_slice(), 2);
            let res = Combo {
                combo_rank: ComboRank::ThreeOfKind,
                cards: [three.cards[0], three.cards[1], three.cards[2], kickers[0], kickers[1]],
            };
            assert(ranks_of(res.cards@) =~= three_of_kind_ranks(h));
            proof {
                assert(res.cards@ =~= three.cards@ + kickers@);
                lemma_drawn_parts(three.cards@, kickers@, remaining@.to_multiset(), s);
            }
            Some(res)
        },
    }
}

/// The best four of a kind and the highest other card.
#[verifier::rlimit(40)]
pub fn detect_four_of_kind(cards: &[Card]) -> (res: Option<Combo>)
    requires
        cards@.len() >= 5,
    ensures
        res is None <==> quad_rank(histogram(cards@)) < 0,
        res matches Some(c) ==> c.combo_rank == ComboRank::FourOfKind && ranks_of(c.cards@)
            == four_of_kind_ranks(histogram(cards@)) && drawn_from(c.cards@, cards@),
{
    let ghost s = cards@;
    let ghost h = histogram(s);
    let mut groups = split_by_rank(cards);
    match find_basket(&mut groups, 4, Ghost(s)) {
        None => None,
        Some(four) => {
            let remaining = join_baskets(&groups, Ghost(s));
            let ghost q = four.rank.spec_index();
            proof {
                lemma_len_is_total(s);
                lemma_len_is_total(remaining@);
                lemma_total_update(h, q, h[q] - 4, 13);
            }
            let kickers = get_kickers(remaining.as_slice(), 1);
            let res = Combo {
                combo_rank: ComboRank::FourOfKind,
                cards: [four.cards[0], four.cards[1], four.cards[2], four.cards[3], kickers[0]],
            };
            assert(ranks_of(res.cards@) =~= four_of_kind_ranks(h));
            proof {
                assert(res.cards@ =~= four.cards@ + kickers@);
                lemma_drawn_parts(four.cards@, kickers@, remaining@.to_multiset(), s);
            }
            Some(res)
        },
    }
}

/// The best three of a kind and the best pair of another rank.
pub fn detect_full_house(cards: &[Card]) -> (res: Option<Combo>)
    requires
        cards@.len() >= 5,
    ensures
        res is None <==> triple_rank(histogram(cards@)) < 0 || full_house_pair_rank(
            histogram(cards@),
        ) < 0,
        res matches Some(c) ==> c.combo_rank == ComboRank::FullHouse && ranks_of(c.cards@)
            == full_house_ranks(histogram(cards@)) && drawn_from(c.cards@, cards@),
{
    let ghost s = cards@;
    let ghost h = histogram(s);
    let mut groups = split_by_rank(cards);
    let three = match find_basket(&mut groups, 3, Ghost(s)) {
        None => return None,
        Some(b) => b,
    };
    let ghost t = three.rank.spec_index();
    let rest = take_basket(&mut groups, three.rank.index(), Ghost(s));
    assert(basket_sizes(groups@) =~= h.update(t, 0));
    let pair = match find_basket(&mut groups, 2, Ghost(s)) {
        None => return None,
        Some(b) => b,
    };
    let res = Combo {
        combo_rank: ComboRank::FullHouse,
        cards: [three.cards[0], three.cards[1], three.cards[2], pair.cards[0], pair.cards[1]],
    };
    assert(ranks_of(res.cards@) =~= full_house_ranks(h));
    proof {
        let left = groups_multiset(groups@).add(pair.cards@.to_multiset()).add(rest@.to_multiset());
        assert(left.add(three.cards@.to_multiset()) =~= s.to_multiset());
        assert(res.cards@ =~= three.cards@ + pair.cards@);
        lemma_drawn_parts(three.cards@, pair.cards@, left, s);
    }
    Some(res)
}


fn combo_of(combo_rank: ComboRank, v: &Vec<Card>) -> (res: Combo)
    requires
        v@.len() == 5,
    ensures
        res.combo_rank == combo_rank,
        res.cards@ == v@,
{
    let res = Combo { combo_rank, cards: [v[0], v[1], v[2], v[3], v[4]] };
    assert(res.cards@ =~= v@);
    res
}

/// The highest straight; an ace may stand below the deuce.
pub fn detect_straight(cards: &[Card]) -> (res: Option<Combo>)
    requires
        cards@.len() >= 5,
    ensures
        res is None <==> best_straight_top(histogram(cards@)) < 0,
        res matches Some(c) ==> c.combo_rank == ComboRank::Straight && ranks_of(c.cards@)
            == straight_ranks(best_straight_top(histogram(cards@))) && drawn_from(c.cards@, cards@),
{
    match find_straight(cards) {
        None => None,
        Some(v) => Some(combo_of(ComboRank::Straight, &v)),
    }
}

/// The five highest cards of the suit whose five highest cards rank highest,
/// if a suit holds five cards or more.
pub fn detect_flush(cards: &[Card]) -> (res: Option<Combo>)
    requires
        cards@.len() >= 5,
    ensures
        res is None <==> !has_flush(cards@),
        res matches Some(c) ==> c.combo_rank == ComboRank::Flush && ranks_of(c.cards@)
            == flush_ranks(cards@) && drawn_from(c.cards@, cards@) && one_suit(c.cards@),
{
    let ghost s = cards@;
    let mut best: Vec<Card> = Vec::new();
    let mut u: u8 = 0;
    while u < 4
        invariant
            u <= 4,
            s == cards@,
            ranks_of(best@) == best_flush_upto(s, u as int),
            best@.len() == 0 <==> forall|v: int| 0 <= v < u ==> !flush_in(s, v),
            best@.len() == 0 || best@.len() == 5,
            drawn_from(best@, s),
            one_suit(best@),
        decreases 4 - u,
    {
        let suit = Suit::from_index(u);
        let sub = filter_by_suit(cards, suit);
        proof {
            lemma_of_suit(s, u as int);
        }
        if sub.len() >= 5 {
            assert(flush_in(s, u as int));
            let top = get_kickers(sub.as_slice(), 5);
            assert(lex_lt(ranks_of(best@), ranks_of(top@)) || best@.len() == 5) by {
                if best@.len() == 0 {
                    assert(ranks_of(best@).len() == 0);
                }
            }
            if ranks_less(best.as_slice(), top.as_slice()) {
                best = top;
                proof {
                    lemma_drawn_trans(best@, sub@, s);
                    assert forall|i: int| 0 <= i < 5 implies #[trigger] best@[i].suit == best@[0].suit by {
                        assert(sub@.contains(best@[i]));
                        assert(sub@.contains(best@[0]));
                    }
                }
            } else {
                assert(best@.len() == 5);
            }
        } else {
            assert(!flush_in(s, u as int));
            assert(lex_max(best_flush_upto(s, u as int), Seq::empty()) == best_flush_upto(s, u as int));
        }
        u = u + 1;
    }
    if best.len() == 0 {
        None
    } else {
        Some(combo_of(ComboRank::Flush, &best))
    }
}

/// The highest straight within one suit: a royal flush when it runs up to
/// the ace, else a straight flush.
pub fn detect_straight_flush(cards: &[Card]) -> (res: Option<Combo>)
    requires
        cards@.len() >= 5,
    ensures
        res is None <==> straight_flush_top(cards@) < 0,
        res matches Some(c) ==> c.combo_rank == (if straight_flush_top(cards@) == 12 {
            ComboRank::RoyalFlush
        } else {
            ComboRank::StraightFlush
        }) && ranks_of(c.cards@) == straight_ranks(straight_flush_top(cards@)) && drawn_from(
            c.cards@,
            cards@,
        ) && one_suit(c.cards@),
{
    let ghost s = cards@;
    let mut best: Vec<Card> = Vec::new();
    let mut best_top: u8 = 0;
    let mut u: u8 = 0;
    while u < 4
        invariant
            u <= 4,
            s == cards@,
            best@.len() == 0 ==> straight_flush_top_upto(s, u as int) == -1,
            best@.len() != 0 ==> best@.len() == 5 && best_top as int == straight_flush_top_upto(
                s,
                u as int,
            ) && ranks_of(best@) == straight_ranks(best_top as int),
            drawn_from(best@, s),
            one_suit(best@),
        decreases 4 - u,
    {
        let suit = Suit::from_index(u);
        let sub = filter_by_suit(cards, suit);
        proof {
            lemma_of_suit(s, u as int);
        }
        match find_straight(sub.as_slice()) {
            None => {},
            Some(v) => {
                let top = v[0].rank.index();
                assert(ranks_of(v@)[0] == top);
                if best.len() == 0 || top > best_top {
                    best = v;
                    best_top = top;
                    proof {
                        lemma_drawn_trans(best@, sub@, s);
                        assert forall|i: int| 0 <= i < 5 implies #[trigger] best@[i].suit == best@[0].suit by {
                            assert(sub@.contains(best@[i]));
                            assert(sub@.contains(best@[0]));
                        }
                    }
                }
            },
        }
        u = u + 1;
    }
    if best.len() == 0 {
        None
    } else if best_top == 12 {
        Some(combo_of(ComboRank::RoyalFlush, &best))
    } else {
        Some(combo_of(ComboRank::StraightFlush, &best))
    }
}


/// Category of the best hand in `s`: the strongest category that `s` holds.
pub open spec fn category(s: Seq<Card>) -> ComboRank {
    let h = histogram(s);
    if straight_flush_top(s) == 12 {
        ComboRank::RoyalFlush
    } else if straight_flush_top(s) >= 0 {
        ComboRank::StraightFlush
    } else if quad_rank(h) >= 0 {
        ComboRank::FourOfKind
    } else if triple_rank(h) >= 0 && full_house_pair_rank(h) >= 0 {
        ComboRank::FullHouse
    } else if has_flush(s) {
        ComboRank::Flush
    } else if best_straight_top(h) >= 0 {
        ComboRank::Straight
    } else if triple_rank(h) >= 0 {
        ComboRank::ThreeOfKind
    } else if pair_rank(h) >= 0 && second_pair_rank(h) >= 0 {
        ComboRank::TwoPair
    } else if pair_rank(h) >= 0 {
        ComboRank::Pair
    } else {
        ComboRank::HighCard
    }
}

/// Ranks of the five cards of the best hand of category `k` in `s`.
pub open spec fn category_ranks(s: Seq<Card>, k: ComboRank) -> Seq<int> {
    let h = histogram(s);
    match k {
        ComboRank::RoyalFlush => straight_ranks(straight_flush_top(s)),
        ComboRank::StraightFlush => straight_ranks(straight_flush_top(s)),
        ComboRank::FourOfKind => four_of_kind_ranks(h),
        ComboRank::FullHouse => full_house_ranks(h),
        ComboRank::Flush => flush_ranks(s),
        ComboRank::Straight => straight_ranks(best_straight_top(h)),
        ComboRank::ThreeOfKind => three_of_kind_ranks(h),
        ComboRank::TwoPair => two_pair_ranks(h),
        ComboRank::Pair => pair_ranks(h),
        ComboRank::HighCard => high_card_ranks(h),
    }
}

/// `c` is the best hand that the cards `s` hold: its category, the ranks of
/// its five cards, cards taken from `s`, and one suit for the flushes.
pub open spec fn is_best_combo(s: Seq<Card>, c: Combo) -> bool {
    &&& c.combo_rank == category(s)
    &&& ranks_of(c.cards@) == category_ranks(s, category(s))
    &&& drawn_from(c.cards@, s)
    &&& (c.combo_rank == ComboRank::Flush || c.combo_rank == ComboRank::StraightFlush
        || c.combo_rank == ComboRank::RoyalFlush) ==> one_suit(c.cards@)
}

/// Detects the best hand that `cards` hold, trying the categories from the
/// strongest down.
pub fn detect_combo(cards: &[Card]) -> (res: Combo)
    requires
        cards@.len() >= 5,
    ensures
        is_best_combo(cards@, res),
{
    if let Some(c) = detect_straight_flush(cards) {
        c
    } else if let Some(c) = detect_four_of_kind(cards) {
        c
    } else if let Some(c) = detect_full_house(cards) {
        c
    } else if let Some(c) = detect_flush(cards) {
        c
    } else if let Some(c) = detect_straight(cards) {
        c
    } else if let Some(c) = detect_three_of_kind(cards) {
        c
    } else if let Some(c) = detect_two_pair(cards) {
        c
    } else if let Some(c) = detect_pair(cards) {
        c
    } else {
        detect_high_card(cards)
    }
}

} // verus!
