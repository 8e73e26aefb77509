use vstd::prelude::*;
use crate::cards::Card;

verus! {

broadcast use {vstd::multiset::group_multiset_axioms, vstd::seq_lib::group_to_multiset_ensures};

/// Number of cards of rank `r` in `s`.
pub open spec fn rank_count(s: Seq<Card>, r: int) -> nat
    decreases s.len(),
{
    if s.len() == 0 {
        0
    } else {
        rank_count(s.drop_last(), r) + if s.last().rank.spec_index() == r {
            1nat
        } else {
            0nat
        }
    }
}

/// Number of cards in `s` whose rank is below `r`.
pub open spec fn count_below(s: Seq<Card>, r: int) -> nat
    decreases s.len(),
{
    if s.len() == 0 {
        0
    } else {
        count_below(s.drop_last(), r) + if s.last().rank.spec_index() < r {
            1nat
        } else {
            0nat
        }
    }
}

/// How many cards of each rank `s` holds, indexed by rank.
pub open spec fn histogram(s: Seq<Card>) -> Seq<int> {
    Seq::new(13, |r: int| rank_count(s, r) as int)
}

/// The ranks of the cards of `s`, in the same order.
pub open spec fn ranks_of(s: Seq<Card>) -> Seq<int> {
    s.map_values(|c: Card| c.rank.spec_index())
}

pub open spec fn min(a: int, b: int) -> int {
    if a < b {
        a
    } else {
        b
    }
}

/// The `n` highest ranks of a histogram `h`, taking only ranks up to `r`,
/// in descending order, each rank repeated as often as `h` holds it.
pub open spec fn top_ranks(h: Seq<int>, r: int, n: int) -> Seq<int>
    decreases r + 1,
{
    if r < 0 || n <= 0 {
        Seq::empty()
    } else {
        let t = min(h[r], n);
        Seq::new(t as nat, |i: int| r) + top_ranks(h, r - 1, n - t)
    }
}

/// The highest rank up to `r` that `h` holds at least `k` times, or -1.
pub open spec fn highest_with(h: Seq<int>, k: int, r: int) -> int
    decreases r + 1,
{
    if r < 0 {
        -1
    } else if h[r] >= k {
        r
    } else {
        highest_with(h, k, r - 1)
    }
}

pub proof fn lemma_rank_count_concat(a: Seq<Card>, b: Seq<Card>, r: int)
    ensures
        rank_count(a + b, r) == rank_count(a, r) + rank_count(b, r),
    decreases b.len(),
{
    if b.len() > 0 {
        assert((a + b).drop_last() =~= a + b.drop_last());
        lemma_rank_count_concat(a, b.drop_last(), r);
    } else {
        assert(a + b =~= a);
    }
}

pub proof fn lemma_count_below_step(s: Seq<Card>, r: int)
    ensures
        count_below(s, r + 1) == count_below(s, r) + rank_count(s, r),
    decreases s.len(),
{
    if s.len() > 0 {
        lemma_count_below_step(s.drop_last(), r);
    }
}

pub proof fn lemma_count_below_bounds(s: Seq<Card>)
    ensures
        count_below(s, 13) == s.len(),
        count_below(s, 0) == 0,
    decreases s.len(),
{
    if s.len() > 0 {
        lemma_count_below_bounds(s.drop_last());
    }
}

/// Sum of `h[0]` up to `h[r - 1]`.
pub open spec fn total(h: Seq<int>, r: int) -> int
    decreases r,
{
    if r <= 0 {
        0
    } else {
        total(h, r - 1) + h[r - 1]
    }
}

pub proof fn lemma_total_update(h: Seq<int>, x: int, v: int, r: int)
    requires
        0 <= x < h.len(),
        r <= h.len(),
    ensures
        total(h.update(x, v), r) == total(h, r) + if x < r {
            v - h[x]
        } else {
            0
        },
    decreases r,
{
    if r > 0 {
        lemma_total_update(h, x, v, r - 1);
    }
}

/// A sequence of cards is as long as the sum of its histogram.
pub proof fn lemma_len_is_total(s: Seq<Card>)
    ensures
        s.len() == total(histogram(s), 13),
{
    lemma_count_below_bounds(s);
    assert forall|r: int| 0 <= r <= 13 implies count_below(s, r) == total(histogram(s), r) by {
        lemma_count_below_total(s, r);
    }
}

proof fn lemma_count_below_total(s: Seq<Card>, r: int)
    requires
        0 <= r <= 13,
    ensures
        count_below(s, r) == total(histogram(s), r),
    decreases r,
{
    if r == 0 {
        lemma_count_below_bounds(s);
    } else {
        lemma_count_below_total(s, r - 1);
        lemma_count_below_step(s, r - 1);
    }
}

/// A sequence of cards all of rank `x` counts only at `x`.
pub proof fn lemma_rank_count_uniform(s: Seq<Card>, x: int, r: int)
    requires
        forall|j: int| 0 <= j < s.len() ==> (#[trigger] s[j]).rank.spec_index() == x,
    ensures
        rank_count(s, r) == if r == x {
            s.len()
        } else {
            0
        },
    decreases s.len(),
{
    if s.len() > 0 {
        lemma_rank_count_uniform(s.drop_last(), x, r);
    }
}

/// Skipping ranks held fewer than `k` times does not change `highest_with`.
pub proof fn lemma_highest_skip(h: Seq<int>, k: int, a: int, b: int)
    requires
        -1 <= a <= b,
        forall|r: int| a < r <= b ==> h[r] < k,
    ensures
        highest_with(h, k, b) == highest_with(h, k, a),
    decreases b - a,
{
    if a < b {
        lemma_highest_skip(h, k, a, b - 1);
    }
}

/// What `highest_with` returns: a rank held at least `k` times, above which
/// up to `r` none is.
pub proof fn lemma_highest_with(h: Seq<int>, k: int, r: int)
    requires
        -1 <= r < h.len(),
    ensures
        -1 <= highest_with(h, k, r) <= r,
        highest_with(h, k, r) >= 0 ==> h[highest_with(h, k, r)] >= k,
        forall|q: int| highest_with(h, k, r) < q <= r ==> h[q] < k,
    decreases r + 1,
{
    if r >= 0 {
        lemma_highest_with(h, k, r - 1);
    }
}

/// Lexicographic order on rank sequences; a sequence that runs out first is the smaller.
pub open spec fn lex_lt(a: Seq<int>, b: Seq<int>) -> bool
    decreases a.len(),
{
    if a.len() == 0 || b.len() == 0 {
        a.len() < b.len()
    } else if a[0] != b[0] {
        a[0] < b[0]
    } else {
        lex_lt(a.drop_first(), b.drop_first())
    }
}

/// Ace counts below Deuce at the bottom of a straight.
pub open spec fn wrap_rank(r: int) -> int {
    if r < 0 {
        12
    } else {
        r
    }
}

/// `h` holds the five consecutive ranks that end at `t`.
pub open spec fn run_at(h: Seq<int>, t: int) -> bool {
    forall|i: int| 0 <= i < 5 ==> h[#[trigger] wrap_rank(t - i)] > 0
}

/// Top rank of the highest straight whose top is at most `t`, or -1.
/// The lowest straight, ace to five, has its top at `Five` (index 3).
pub open spec fn straight_top(h: Seq<int>, t: int) -> int
    decreases t + 1,
{
    if t < 3 {
        -1
    } else if run_at(h, t) {
        t
    } else {
        straight_top(h, t - 1)
    }
}

/// The five ranks of the straight whose top is `t`, top first.
pub open spec fn straight_ranks(t: int) -> Seq<int> {
    seq![t, t - 1, t - 2, t - 3, wrap_rank(t - 4)]
}

pub proof fn lemma_straight_skip(h: Seq<int>, a: int, b: int)
    requires
        2 <= a <= b,
        forall|q: int| a < q <= b ==> !run_at(h, q),
    ensures
        straight_top(h, b) == straight_top(h, a),
    decreases b - a,
{
    if a < b {
        lemma_straight_skip(h, a, b - 1);
    }
}

pub proof fn lemma_straight_top(h: Seq<int>, t: int)
    ensures
        straight_top(h, t) == -1 || (3 <= straight_top(h, t) <= t && run_at(h, straight_top(h, t))),
    decreases t + 1,
{
    if t >= 3 {
        lemma_straight_top(h, t - 1);
    }
}

/// The cards of `s` of suit `u`, in order.
pub open spec fn of_suit(s: Seq<Card>, u: int) -> Seq<Card>
    decreases s.len(),
{
    if s.len() == 0 {
        Seq::empty()
    } else if s.last().suit.spec_index() == u {
        of_suit(s.drop_last(), u).push(s.last())
    } else {
        of_suit(s.drop_last(), u)
    }
}

pub proof fn lemma_of_suit(s: Seq<Card>, u: int)
    ensures
        forall|i: int|
            0 <= i < of_suit(s, u).len() ==> (#[trigger] of_suit(s, u)[i]).suit.spec_index() == u
                && s.contains(of_suit(s, u)[i]),
        forall|r: int| rank_count(of_suit(s, u), r) <= #[trigger] rank_count(s, r),
        of_suit(s, u).to_multiset().subset_of(s.to_multiset()),
    decreases s.len(),
{
    if s.len() > 0 {
        let t = s.drop_last();
        lemma_of_suit(t, u);
        assert(s =~= t.push(s.last()));
        assert forall|c: Card| #[trigger] of_suit(s, u).to_multiset().count(c) <= s.to_multiset().count(c) by {
            assert(of_suit(t, u).to_multiset().count(c) <= t.to_multiset().count(c));
        }
        assert forall|i: int| 0 <= i < of_suit(s, u).len() implies (#[trigger] of_suit(
            s,
            u,
        )[i]).suit.spec_index() == u && s.contains(of_suit(s, u)[i]) by {
            if i < of_suit(t, u).len() {
                assert(t.contains(of_suit(t, u)[i]));
                let k = choose|k: int| 0 <= k < t.len() && t[k] == of_suit(t, u)[i];
                assert(s[k] == t[k]);
            } else {
                assert(s[s.len() - 1] == s.last());
            }
        }
        assert forall|r: int| rank_count(of_suit(s, u), r) <= #[trigger] rank_count(s, r) by {
            assert(rank_count(of_suit(t, u), r) <= rank_count(t, r));
            if s.last().suit.spec_index() == u {
                assert(of_suit(s, u).drop_last() =~= of_suit(t, u));
                assert(of_suit(s, u).last() == s.last());
            }
        }
    }
}

pub proof fn lemma_lex_irreflexive(a: Seq<int>)
    ensures
        !lex_lt(a, a),
    decreases a.len(),
{
    if a.len() > 0 {
        lemma_lex_irreflexive(a.drop_first());
    }
}

/// Of two rank sequences of one length, exactly one is smaller, or they are equal.
pub proof fn lemma_lex_trichotomy(a: Seq<int>, b: Seq<int>)
    requires
        a.len() == b.len(),
    ensures
        lex_lt(a, b) || a == b || lex_lt(b, a),
        !(lex_lt(a, b) && lex_lt(b, a)),
        a == b ==> !lex_lt(a, b),
    decreases a.len(),
{
    lemma_lex_irreflexive(a);
    if a.len() == 0 {
        assert(a =~= b);
    } else if a[0] == b[0] {
        lemma_lex_trichotomy(a.drop_first(), b.drop_first());
        if a.drop_first() == b.drop_first() {
            assert forall|i: int| 0 <= i < a.len() implies a[i] == b[i] by {
                if i > 0 {
                    assert(a[i] == a.drop_first()[i - 1]);
                    assert(b[i] == b.drop_first()[i - 1]);
                }
            }
            assert(a =~= b);
        }
    }
}

pub proof fn lemma_lex_transitive(a: Seq<int>, b: Seq<int>, c: Seq<int>)
    requires
        lex_lt(a, b),
        lex_lt(b, c),
    ensures
        lex_lt(a, c),
    decreases a.len(),
{
    if a.len() > 0 && b.len() > 0 && c.len() > 0 && a[0] == b[0] && b[0] == c[0] {
        lemma_lex_transitive(a.drop_first(), b.drop_first(), c.drop_first());
    }
}

} // verus!
