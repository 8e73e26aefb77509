use vstd::prelude::*;
use crate::cards::Card;
use std::cmp::Ordering;
use crate::combo::{
    best_flush_upto, best_straight_top, category, combo_key, combo_order, flush_candidate, flush_in,
    full_house_pair_rank, is_best_combo, pair_rank, quad_rank, remove_n, second_pair_rank,
    straight_flush_top_upto, suit_straight_top, triple_rank, Combo, ComboRank,
};
use crate::ranks::{
    histogram, lemma_highest_with, lemma_lex_transitive, lemma_lex_trichotomy, lemma_of_suit,
    lemma_straight_top, lex_lt, of_suit, rank_count, ranks_of, run_at, straight_ranks, top_ranks,
    wrap_rank, min,
};

verus! {

/// How often `x` occurs in `q`.
pub open spec fn count_of(q: Seq<int>, x: int) -> nat
    decreases q.len(),
{
    if q.len() == 0 {
        0
    } else {
        count_of(q.drop_last(), x) + if q.last() == x {
            1nat
        } else {
            0nat
        }
    }
}

proof fn lemma_count_of_concat(a: Seq<int>, b: Seq<int>, x: int)
    ensures
        count_of(a + b, x) == count_of(a, x) + count_of(b, x),
    decreases b.len(),
{
    if b.len() > 0 {
        assert((a + b).drop_last() =~= a + b.drop_last());
        lemma_count_of_concat(a, b.drop_last(), x);
    } else {
        assert(a + b =~= a);
    }
}

proof fn lemma_count_of_repeat(n: nat, r: int, x: int)
    ensures
        count_of(Seq::new(n, |i: int| r), x) == if x == r {
            n
        } else {
            0
        },
    decreases n,
{
    if n > 0 {
        assert(Seq::new(n, |i: int| r).drop_last() =~= Seq::new((n - 1) as nat, |i: int| r));
        lemma_count_of_repeat((n - 1) as nat, r, x);
    }
}

pub open spec fn nonneg(h: Seq<int>) -> bool {
    h.len() == 13 && forall|i: int| 0 <= i < 13 ==> h[i] >= 0
}

proof fn lemma_count_top_ranks(h: Seq<int>, r: int, n: int, x: int)
    requires
        nonneg(h),
        -1 <= r <= 12,
    ensures
        count_of(top_ranks(h, r, n), x) <= if 0 <= x <= r {
            h[x]
        } else {
            0
        },
    decreases r + 1,
{
    if r >= 0 && n > 0 {
        let t = min(h[r], n);
        lemma_count_of_concat(Seq::new(t as nat, |i: int| r), top_ranks(h, r - 1, n - t), x);
        lemma_count_of_repeat(t as nat, r, x);
        lemma_count_top_ranks(h, r - 1, n - t, x);
    }
}

proof fn lemma_count_straight(t: int, x: int)
    requires
        3 <= t <= 12,
    ensures
        count_of(straight_ranks(t), x) <= 1,
        count_of(straight_ranks(t), x) > 0 ==> exists|i: int|
            0 <= i < 5 && x == #[trigger] wrap_rank(t - i),
{
    reveal_with_fuel(count_of, 6);
    let q = straight_ranks(t);
    assert(q.drop_last().drop_last().drop_last().drop_last().drop_last() =~= Seq::<int>::empty());
    if count_of(q, x) > 0 {
        if x == t {
            assert(x == wrap_rank(t - 0));
        } else if x == t - 1 {
            assert(x == wrap_rank(t - 1));
        } else if x == t - 2 {
            assert(x == wrap_rank(t - 2));
        } else if x == t - 3 {
            assert(x == wrap_rank(t - 3));
        } else {
            assert(x == wrap_rank(t - 4));
        }
    }
}

proof fn lemma_straight_within(h: Seq<int>, t: int, x: int)
    requires
        3 <= t <= 12,
        run_at(h, t),
    ensures
        count_of(straight_ranks(t), x) <= 1,
        count_of(straight_ranks(t), x) > 0 ==> h[x] > 0,
{
    lemma_count_straight(t, x);
}

proof fn lemma_straight_flush_source(s: Seq<Card>, n: int)
    requires
        0 <= n <= 4,
    ensures
        straight_flush_top_upto(s, n) == -1 || exists|u: int|
            0 <= u < n && straight_flush_top_upto(s, n) == #[trigger] suit_straight_top(s, u),
    decreases n,
{
    if n > 0 {
        lemma_straight_flush_source(s, n - 1);
    }
}

proof fn lemma_flush_source(s: Seq<Card>, n: int)
    requires
        0 <= n <= 4,
    ensures
        best_flush_upto(s, n).len() == 0 || exists|u: int|
            0 <= u < n && flush_in(s, u) && best_flush_upto(s, n) == #[trigger] flush_candidate(
                s,
                u,
            ),
    decreases n,
{
    if n > 0 {
        lemma_flush_source(s, n - 1);
    }
}

proof fn lemma_pair_like(h: Seq<int>, p: int, k: int, n: int, x: int)
    requires
        nonneg(h),
        0 <= p < 13,
        h[p] >= k >= 0,
    ensures
        count_of(Seq::new(k as nat, |i: int| p) + top_ranks(remove_n(h, p, k), 12, n), x) <= if 0
            <= x < 13 {
            h[x]
        } else {
            0
        },
{
    lemma_count_of_concat(Seq::new(k as nat, |i: int| p), top_ranks(remove_n(h, p, k), 12, n), x);
    lemma_count_of_repeat(k as nat, p, x);
    lemma_count_top_ranks(remove_n(h, p, k), 12, n, x);
}

/// The best hand is five cards of the input, none used more often than the
/// input holds it, so its ranks are a sub-multiset of the input's ranks.
pub proof fn lemma_best_combo_within_input(s: Seq<Card>, c: Combo)
    requires
        s.len() >= 5,
        is_best_combo(s, c),
    ensures
        c.cards@.len() == 5,
        c.cards@.to_multiset().subset_of(s.to_multiset()),
        forall|x: int| 0 <= x < 13 ==> #[trigger] count_of(ranks_of(c.cards@), x) <= rank_count(s, x),
{
    let h = histogram(s);
    let q = ranks_of(c.cards@);
    assert forall|x: int| 0 <= x < 13 implies #[trigger] count_of(q, x) <= rank_count(s, x) by {
        assert(h[x] == rank_count(s, x));
        assert(nonneg(h));
        match category(s) {
            ComboRank::HighCard => {
                lemma_count_top_ranks(h, 12, 5, x);
            },
            ComboRank::Pair => {
                let p = pair_rank(h);
                lemma_highest_with(h, 2, 12);
                assert(q =~= Seq::new(2, |i: int| p) + top_ranks(remove_n(h, p, 2), 12, 3));
                lemma_pair_like(h, p, 2, 3, x);
            },
            ComboRank::TwoPair => {
                let p = pair_rank(h);
                let p2 = second_pair_rank(h);
                lemma_highest_with(h, 2, 12);
                lemma_highest_with(h.update(p, 0), 2, 12);
                let h1 = remove_n(h, p, 2);
                assert(nonneg(h1));
                assert(q =~= Seq::new(2, |i: int| p) + (Seq::new(2, |i: int| p2) + top_ranks(
                    remove_n(h1, p2, 2),
                    12,
                    1,
                )));
                lemma_pair_like(h1, p2, 2, 1, x);
                lemma_count_of_concat(
                    Seq::new(2, |i: int| p),
                    Seq::new(2, |i: int| p2) + top_ranks(remove_n(h1, p2, 2), 12, 1),
                    x,
                );
                lemma_count_of_repeat(2, p, x);
            },
            ComboRank::ThreeOfKind => {
                let t = triple_rank(h);
                lemma_highest_with(h, 3, 12);
                assert(q =~= Seq::new(3, |i: int| t) + top_ranks(remove_n(h, t, 3), 12, 2));
                lemma_pair_like(h, t, 3, 2, x);
            },
            ComboRank::FourOfKind => {
                let t = quad_rank(h);
                lemma_highest_with(h, 4, 12);
                assert(q =~= Seq::new(4, |i: int| t) + top_ranks(remove_n(h, t, 4), 12, 1));
                lemma_pair_like(h, t, 4, 1, x);
            },
            ComboRank::FullHouse => {
                let t = triple_rank(h);
                let p = full_house_pair_rank(h);
                lemma_highest_with(h, 3, 12);
                lemma_highest_with(h.update(t, 0), 2, 12);
                assert(q =~= Seq::new(3, |i: int| t) + Seq::new(2, |i: int| p));
                lemma_count_of_concat(Seq::new(3, |i: int| t), Seq::new(2, |i: int| p), x);
                lemma_count_of_repeat(3, t, x);
                lemma_count_of_repeat(2, p, x);
            },
            ComboRank::Straight => {
                let t = best_straight_top(h);
                lemma_straight_top(h, 12);
                lemma_straight_within(h, t, x);
            },
            ComboRank::Flush => {
                lemma_flush_source(s, 4);
                let u = choose|u: int|
                    0 <= u < 4 && flush_in(s, u) && best_flush_upto(s, 4) == #[trigger] flush_candidate(
                        s,
                        u,
                    );
                let hs = histogram(of_suit(s, u));
                assert(nonneg(hs));
                lemma_count_top_ranks(hs, 12, 5, x);
                lemma_of_suit(s, u);
                assert(hs[x] == rank_count(of_suit(s, u), x));
            },
            _ => {
                let t = straight_flush_top_upto(s, 4);
                lemma_straight_flush_source(s, 4);
                let u = choose|u: int| 0 <= u < 4 && t == #[trigger] suit_straight_top(s, u);
                let hs = histogram(of_suit(s, u));
                lemma_straight_top(hs, 12);
                lemma_straight_within(hs, t, x);
                lemma_of_suit(s, u);
                assert(hs[x] == rank_count(of_suit(s, u), x));
            },
        }
    }
}

/// Whenever the cards hold four of one rank, the best hand is at least a
/// four of a kind, whatever full house or two pair they also hold.
pub proof fn lemma_four_of_kind_floor(s: Seq<Card>, c: Combo, r: int)
    requires
        s.len() >= 5,
        0 <= r < 13,
        rank_count(s, r) >= 4,
        is_best_combo(s, c),
    ensures
        c.combo_rank.spec_index() >= ComboRank::FourOfKind.spec_index(),
{
    let h = histogram(s);
    lemma_highest_with(h, 4, 12);
    assert(h[r] >= 4);
}

/// Classifying the same cards twice gives equal hands.
pub proof fn lemma_best_combo_unique(s: Seq<Card>, a: Combo, b: Combo)
    requires
        is_best_combo(s, a),
        is_best_combo(s, b),
    ensures
        combo_key(a) == combo_key(b),
{
}

/// Hands are totally ordered: of two hands exactly one is smaller, or they are
/// equal, and no hand is smaller than itself.
pub proof fn lemma_combo_order_total(a: Combo, b: Combo)
    ensures
        combo_order(a, b) == Ordering::Less <==> combo_order(b, a) == Ordering::Greater,
        combo_order(a, b) == Ordering::Equal <==> combo_order(b, a) == Ordering::Equal,
        combo_order(a, a) == Ordering::Equal,
        lex_lt(combo_key(a), combo_key(b)) || combo_key(a) == combo_key(b) || lex_lt(
            combo_key(b),
            combo_key(a),
        ),
        !(lex_lt(combo_key(a), combo_key(b)) && lex_lt(combo_key(b), combo_key(a))),
        combo_key(a) == combo_key(b) ==> !lex_lt(combo_key(a), combo_key(b)),
{
    lemma_lex_trichotomy(combo_key(a), combo_key(b));
    lemma_lex_trichotomy(combo_key(b), combo_key(a));
    lemma_lex_trichotomy(combo_key(a), combo_key(a));
}

/// The order on hands is transitive.
pub proof fn lemma_combo_order_transitive(a: Combo, b: Combo, c: Combo)
    requires
        combo_order(a, b) == Ordering::Less,
        combo_order(b, c) == Ordering::Less,
    ensures
        combo_order(a, c) == Ordering::Less,
{
    lemma_lex_transitive(combo_key(a), combo_key(b), combo_key(c));
}

} // verus!
