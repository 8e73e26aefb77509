use vstd::prelude::*;
use vstd::multiset::Multiset;
use crate::cards::{Card, Rank, Suit};
use crate::ranks::{
    count_below, histogram, lemma_count_below_bounds, lemma_count_below_step, min, rank_count,
    ranks_of, top_ranks, highest_with, lemma_highest_skip, lemma_rank_count_concat,
    lemma_rank_count_uniform, lex_lt, lemma_straight_skip, of_suit, run_at, straight_ranks,
    straight_top, wrap_rank,
};

verus! {

broadcast use {vstd::multiset::group_multiset_axioms, vstd::seq_lib::group_to_multiset_ensures};

/// The cards of one rank.
pub(crate) struct RankBasket {
    pub(crate) rank: Rank,
    pub(crate) cards: Vec<Card>,
}

/// The baskets of a hand: one per rank, at the index of that rank, each holding
/// cards of its rank only, all taken from `s`. An empty basket is a rank that is
/// absent. Scanning goes from the highest index down, that is by rank, descending.
pub(crate) open spec fn groups_wf(g: Seq<RankBasket>, s: Seq<Card>) -> bool {
    &&& g.len() == 13
    &&& forall|r: int| 0 <= r < 13 ==> (#[trigger] g[r]).rank.spec_index() == r
    &&& forall|r: int, j: int|
        0 <= r < 13 && 0 <= j < g[r].cards@.len() ==> (#[trigger] g[r].cards@[j]).rank.spec_index()
            == r && s.contains(g[r].cards@[j])
}

/// How many cards each basket holds, indexed by rank.
pub(crate) open spec fn basket_sizes(g: Seq<RankBasket>) -> Seq<int> {
    Seq::new(13, |r: int| g[r].cards@.len() as int)
}

/// The cards that the baskets from index `lo` up hold.
pub(crate) open spec fn basket_multiset(g: Seq<RankBasket>, lo: int) -> Multiset<Card>
    decreases 13 - lo,
{
    if lo >= 13 || lo < 0 {
        Multiset::empty()
    } else {
        g[lo].cards@.to_multiset().add(basket_multiset(g, lo + 1))
    }
}

/// The cards that all baskets hold.
pub(crate) open spec fn groups_multiset(g: Seq<RankBasket>) -> Multiset<Card> {
    basket_multiset(g, 0)
}

/// Replacing one basket changes what the baskets hold by what it changes.
proof fn lemma_basket_multiset_update(
    g: Seq<RankBasket>,
    x: int,
    b: RankBasket,
    m1: Multiset<Card>,
    m2: Multiset<Card>,
    lo: int,
)
    requires
        g.len() == 13,
        0 <= x < 13,
        0 <= lo <= 13,
        g[x].cards@.to_multiset().add(m1) == b.cards@.to_multiset().add(m2),
    ensures
        lo <= x ==> basket_multiset(g, lo).add(m1) == basket_multiset(g.update(x, b), lo).add(m2),
        x < lo ==> basket_multiset(g, lo) == basket_multiset(g.update(x, b), lo),
    decreases 13 - lo,
{
    if lo < 13 {
        lemma_basket_multiset_update(g, x, b, m1, m2, lo + 1);
        let g2 = g.update(x, b);
        let r1 = basket_multiset(g, lo + 1);
        let r2 = basket_multiset(g2, lo + 1);
        assert(basket_multiset(g, lo) == g[lo].cards@.to_multiset().add(r1));
        assert(basket_multiset(g2, lo) == g2[lo].cards@.to_multiset().add(r2));
        if lo == x {
            assert(g2[lo] == b);
            assert(r1 == r2);
            assert forall|c: Card|
                #[trigger] basket_multiset(g, lo).add(m1).count(c) == basket_multiset(g2, lo).add(
                    m2,
                ).count(c) by {
                assert(g[x].cards@.to_multiset().add(m1).count(c) == b.cards@.to_multiset().add(
                    m2,
                ).count(c));
                assert(g[x].cards@.to_multiset().add(m1).count(c) == g[x].cards@.to_multiset().count(c)
                    + m1.count(c));
                assert(b.cards@.to_multiset().add(m2).count(c) == b.cards@.to_multiset().count(c)
                    + m2.count(c));
                assert(basket_multiset(g, lo).add(m1).count(c) == g[x].cards@.to_multiset().count(c)
                    + r1.count(c) + m1.count(c));
                assert(basket_multiset(g2, lo).add(m2).count(c) == b.cards@.to_multiset().count(c)
                    + r2.count(c) + m2.count(c));
            }
            assert(basket_multiset(g, lo).add(m1) =~= basket_multiset(g2, lo).add(m2));
        } else if lo < x {
            assert forall|c: Card|
                #[trigger] basket_multiset(g, lo).add(m1).count(c) == basket_multiset(g2, lo).add(
                    m2,
                ).count(c) by {
                assert(r1.add(m1).count(c) == r2.add(m2).count(c));
            }
            assert(basket_multiset(g, lo).add(m1) =~= basket_multiset(g2, lo).add(m2));
        } else {
            assert(basket_multiset(g, lo) =~= basket_multiset(g2, lo));
        }
    }
}

proof fn lemma_split_multiset(g: Seq<RankBasket>, s: Seq<Card>, lo: int)
    requires
        g.len() == 13,
        0 <= lo <= 13,
        forall|q: int, c: Card|
            0 <= q < 13 ==> #[trigger] g[q].cards@.to_multiset().count(c) == if c.rank.spec_index()
                == q {
                s.to_multiset().count(c)
            } else {
                0
            },
    ensures
        forall|c: Card|
            #[trigger] basket_multiset(g, lo).count(c) == if c.rank.spec_index() >= lo {
                s.to_multiset().count(c)
            } else {
                0
            },
    decreases 13 - lo,
{
    if lo < 13 {
        lemma_split_multiset(g, s, lo + 1);
        assert forall|c: Card|
            #[trigger] basket_multiset(g, lo).count(c) == if c.rank.spec_index() >= lo {
                s.to_multiset().count(c)
            } else {
                0
            } by {
            assert(basket_multiset(g, lo) == g[lo].cards@.to_multiset().add(basket_multiset(g, lo + 1)));
            assert(g[lo].cards@.to_multiset().count(c) == if c.rank.spec_index() == lo {
                s.to_multiset().count(c)
            } else {
                0
            });
        }
    } else {
        assert forall|c: Card| #[trigger] basket_multiset(g, lo).count(c) == 0 by {
            assert(c.rank.spec_index() < 13);
        }
    }
}

/// Groups `cards` by rank.
pub(crate) fn split_by_rank(cards: &[Card]) -> (res: Vec<RankBasket>)
    ensures
        groups_wf(res@, cards@),
        basket_sizes(res@) == histogram(cards@),
        groups_multiset(res@) == cards@.to_multiset(),
{
    let mut res: Vec<RankBasket> = Vec::with_capacity(13);
    let mut r: u8 = 0;
    while r < 13
        invariant
            r <= 13,
            res@.len() == r,
            forall|q: int| 0 <= q < r ==> (#[trigger] res@[q]).rank.spec_index() == q,
            forall|q: int, j: int|
                0 <= q < r && 0 <= j < res@[q].cards@.len() ==> (#[trigger] res@[q].cards@[j]).rank.spec_index()
                    == q && cards@.contains(res@[q].cards@[j]),
            forall|q: int| 0 <= q < r ==> (#[trigger] res@[q]).cards@.len() == rank_count(cards@, q),
            forall|q: int, c: Card|
                0 <= q < r ==> #[trigger] res@[q].cards@.to_multiset().count(c) == if c.rank.spec_index()
                    == q {
                    cards@.to_multiset().count(c)
                } else {
                    0
                },
        decreases 13 - r,
    {
        let mut group: Vec<Card> = Vec::new();
        let mut j: usize = 0;
        while j < cards.len()
            invariant
                r < 13,
                j <= cards@.len(),
                group@.len() == rank_count(cards@.take(j as int), r as int),
                forall|q: int| 0 <= q < group@.len() ==> (#[trigger] group@[q]).rank.spec_index()
                    == r && cards@.contains(group@[q]),
                forall|c: Card|
                    #[trigger] group@.to_multiset().count(c) == if c.rank.spec_index() == r {
                        cards@.take(j as int).to_multiset().count(c)
                    } else {
                        0
                    },
            decreases cards@.len() - j,
        {
            assert(cards@.take(j + 1).drop_last() =~= cards@.take(j as int));
            assert(cards@.take(j + 1) =~= cards@.take(j as int).push(cards@[j as int]));
            if cards[j].rank.index() == r {
                assert(cards@.contains(cards@[j as int]));
                group.push(cards[j]);
            }
            j = j + 1;
        }
        assert(cards@.take(cards@.len() as int) =~= cards@);
        let ghost prev = res@;
        res.push(RankBasket { rank: Rank::from_index(r), cards: group });
        assert forall|q: int, c: Card|
            0 <= q <= r implies #[trigger] res@[q].cards@.to_multiset().count(c) == if c.rank.spec_index()
                == q {
                cards@.to_multiset().count(c)
            } else {
                0
            } by {
            if q < r {
                assert(res@[q] == prev[q]);
            }
        }
        r = r + 1;
    }
    assert(basket_sizes(res@) =~= histogram(cards@));
    proof {
        lemma_split_multiset(res@, cards@, 0);
        assert(groups_multiset(res@) =~= cards@.to_multiset());
    }
    res
}

/// Takes `k` cards out of the highest-ranked basket that holds at least `k`.
pub(crate) fn find_basket(groups: &mut Vec<RankBasket>, k: usize, Ghost(s): Ghost<Seq<Card>>) -> (res:
    Option<RankBasket>)
    requires
        groups_wf(old(groups)@, s),
        k >= 1,
    ensures
        groups_wf(final(groups)@, s),
        ({
            let h = basket_sizes(old(groups)@);
            let x = highest_with(h, k as int, 12);
            match res {
                None => x == -1 && final(groups)@ == old(groups)@,
                Some(b) => {
                    &&& groups_multiset(old(groups)@) == groups_multiset(final(groups)@).add(
                        b.cards@.to_multiset(),
                    )
                    &&& 0 <= x < 13
                    &&& b.rank.spec_index() == x
                    &&& b.cards@.len() == k
                    &&& forall|j: int|
                        0 <= j < k ==> (#[trigger] b.cards@[j]).rank.spec_index() == x
                            && s.contains(b.cards@[j])
                    &&& basket_sizes(final(groups)@) == h.update(x, h[x] - k)
                },
            }
        }),
{
    let ghost h = basket_sizes(groups@);
    let mut i: usize = 13;
    while i > 0
        invariant
            i <= 13,
            groups_wf(groups@, s),
            groups@ == old(groups)@,
            h == basket_sizes(groups@),
            forall|r: int| i <= r < 13 ==> h[r] < k,
        decreases i,
    {
        let idx = i - 1;
        if groups[idx].cards.len() >= k {
            proof {
                lemma_highest_skip(h, k as int, idx as int, 12);
                assert(highest_with(h, k as int, idx as int) == idx);
            }
            let ghost old_groups = groups@;
            let mut basket = RankBasket { rank: groups[idx].rank, cards: Vec::new() };
            groups.set_and_swap(idx, &mut basket);
            let ghost orig = basket.cards@;
            let mut taken: Vec<Card> = Vec::with_capacity(k);
            while taken.len() < k
                invariant
                    k <= orig.len(),
                    idx < 13,
                    old_groups.len() == 13,
                    basket.cards@ == orig.take(orig.len() - taken@.len()),
                    basket.rank == old_groups[idx as int].rank,
                    orig.to_multiset() == basket.cards@.to_multiset().add(taken@.to_multiset()),
                    taken@.len() <= k,
                    forall|j: int|
                        0 <= j < taken@.len() ==> (#[trigger] taken@[j]).rank.spec_index() == idx
                            && s.contains(taken@[j]),
                    forall|j: int|
                        0 <= j < orig.len() ==> (#[trigger] orig[j]).rank.spec_index() == idx
                            && s.contains(orig[j]),
                decreases k - taken@.len(),
            {
                let ghost before = basket.cards@;
                let ghost taken_before = taken@;
                let c = basket.cards.pop().unwrap();
                taken.push(c);
                assert(basket.cards@ =~= orig.take(orig.len() - taken@.len()));
                proof {
                    assert(before =~= basket.cards@.push(c));
                    assert(orig.to_multiset() =~= basket.cards@.to_multiset().add(taken@.to_multiset()));
                }
            }
            let rank = basket.rank;
            assert(rank.spec_index() == idx);
            let ghost left = basket;
            groups.set(idx, basket);
            proof {
                assert(groups@ =~= old_groups.update(idx as int, left));
                assert(old_groups[idx as int].cards@ == orig);
                assert(orig.to_multiset().add(Multiset::empty()) =~= left.cards@.to_multiset().add(
                    taken@.to_multiset(),
                ));
                lemma_basket_multiset_update(
                    old_groups,
                    idx as int,
                    left,
                    Multiset::empty(),
                    taken@.to_multiset(),
                    0,
                );
                assert(groups_multiset(old_groups).add(Multiset::empty()) =~= groups_multiset(old_groups));
                assert(basket_sizes(groups@) =~= h.update(idx as int, h[idx as int] - k));
                assert forall|r: int, j: int|
                    0 <= r < 13 && 0 <= j < groups@[r].cards@.len() implies (#[trigger] groups@[r].cards@[j]).rank.spec_index()
                        == r && s.contains(groups@[r].cards@[j]) by {
                    if r == idx {
                        assert(groups@[r].cards@[j] == orig[j]);
                    } else {
                        assert(groups@[r] == old_groups[r]);
                    }
                }
            }
            let b = RankBasket { rank, cards: taken };
            assert(highest_with(h, k as int, 12) == idx);
            return Some(b);
        }
        i = idx;
    }
    proof {
        lemma_highest_skip(h, k as int, -1, 12);
    }
    None
}

/// Empties the basket of rank `x` and returns what it held.
pub(crate) fn take_basket(groups: &mut Vec<RankBasket>, x: u8, Ghost(s): Ghost<Seq<Card>>) -> (res: Vec<Card>)
    requires
        groups_wf(old(groups)@, s),
        x < 13,
    ensures
        groups_wf(final(groups)@, s),
        res@.len() == basket_sizes(old(groups)@)[x as int],
        forall|j: int|
            0 <= j < res@.len() ==> (#[trigger] res@[j]).rank.spec_index() == x && s.contains(res@[j]),
        basket_sizes(final(groups)@) == basket_sizes(old(groups)@).update(x as int, 0),
        groups_multiset(old(groups)@) == groups_multiset(final(groups)@).add(res@.to_multiset()),
{
    let ghost old_groups = groups@;
    let mut basket = RankBasket { rank: groups[x as usize].rank, cards: Vec::new() };
    let ghost empty = basket;
    groups.set_and_swap(x as usize, &mut basket);
    proof {
        assert(empty.cards@.to_multiset() =~= Multiset::empty());
        assert(old_groups[x as int].cards@.to_multiset().add(Multiset::empty()) =~= empty.cards@.to_multiset().add(
            basket.cards@.to_multiset(),
        ));
        lemma_basket_multiset_update(
            old_groups,
            x as int,
            empty,
            Multiset::empty(),
            basket.cards@.to_multiset(),
            0,
        );
        assert(groups_multiset(old_groups).add(Multiset::empty()) =~= groups_multiset(old_groups));
        assert(basket_sizes(groups@) =~= basket_sizes(old_groups).update(x as int, 0));
        assert forall|r: int, j: int|
            0 <= r < 13 && 0 <= j < groups@[r].cards@.len() implies (#[trigger] groups@[r].cards@[j]).rank.spec_index()
                == r && s.contains(groups@[r].cards@[j]) by {
            assert(groups@[r] == old_groups[r]);
        }
        assert forall|j: int| 0 <= j < basket.cards@.len() implies (#[trigger] basket.cards@[j]).rank.spec_index() == x
            && s.contains(basket.cards@[j]) by {
            assert(basket.cards@[j] == old_groups[x as int].cards@[j]);
        }
    }
    basket.cards
}

/// All cards left in the baskets, highest rank first.
pub(crate) fn join_baskets(groups: &Vec<RankBasket>, Ghost(s): Ghost<Seq<Card>>) -> (res: Vec<Card>)
    requires
        groups_wf(groups@, s),
    ensures
        histogram(res@) == basket_sizes(groups@),
        forall|j: int| 0 <= j < res@.len() ==> s.contains(#[trigger] res@[j]),
        res@.to_multiset() == groups_multiset(groups@),
{
    let ghost g = groups@;
    let mut res: Vec<Card> = Vec::new();
    let mut i: usize = 13;
    while i > 0
        invariant
            i <= 13,
            g == groups@,
            groups_wf(g, s),
            forall|r: int| 0 <= r < 13 ==> rank_count(res@, r) == if r >= i {
                g[r].cards@.len()
            } else {
                0
            },
            forall|j: int| 0 <= j < res@.len() ==> s.contains(#[trigger] res@[j]),
            res@.to_multiset() == basket_multiset(g, i as int),
        decreases i,
    {
        let idx = i - 1;
        let basket = &groups[idx];
        let ghost before = res@;
        let mut j: usize = 0;
        while j < basket.cards.len()
            invariant
                idx < 13,
                basket == g[idx as int],
                groups_wf(g, s),
                j <= basket.cards@.len(),
                res@ == before + basket.cards@.take(j as int),
                forall|q: int| 0 <= q < res@.len() ==> s.contains(#[trigger] res@[q]),
            decreases basket.cards@.len() - j,
        {
            res.push(basket.cards[j]);
            assert(basket.cards@.take(j + 1) =~= basket.cards@.take(j as int).push(basket.cards@[j as int]));
            j = j + 1;
            assert(s.contains(g[idx as int].cards@[j - 1]));
        }
        proof {
            assert(basket.cards@.take(basket.cards@.len() as int) =~= basket.cards@);
            vstd::seq_lib::lemma_multiset_commutative(before, basket.cards@);
            assert(res@.to_multiset() =~= basket_multiset(g, idx as int));
            assert forall|r: int| 0 <= r < 13 implies rank_count(res@, r) == if r >= idx {
                g[r].cards@.len()
            } else {
                0
            } by {
                lemma_rank_count_concat(before, basket.cards@, r);
                assert forall|q: int| 0 <= q < basket.cards@.len() implies (#[trigger] basket.cards@[q]).rank.spec_index() == idx by {
                    assert(g[idx as int].cards@[q].rank.spec_index() == idx);
                }
                lemma_rank_count_uniform(basket.cards@, idx as int, r);
            }
        }
        i = idx;
    }
    assert(histogram(res@) =~= basket_sizes(g));
    res
}

/// The `n` highest cards of `cards` by rank, highest first.
pub(crate) fn get_kickers(cards: &[Card], n: usize) -> (res: Vec<Card>)
    requires
        n <= cards@.len(),
    ensures
        res@.len() == n,
        ranks_of(res@) == top_ranks(histogram(cards@), 12, n as int),
        forall|i: int| 0 <= i < res@.len() ==> cards@.contains(#[trigger] res@[i]),
        res@.to_multiset().subset_of(cards@.to_multiset()),
{
    let ghost h = histogram(cards@);
    let mut res: Vec<Card> = Vec::with_capacity(n);
    let mut hi: usize = 13;
    proof {
        lemma_count_below_bounds(cards@);
        assert(ranks_of(res@) =~= Seq::<int>::empty());
        assert(ranks_of(res@) + top_ranks(h, 12, n as int) =~= top_ranks(h, 12, n as int));
    }
    while hi > 0
        invariant
            hi <= 13,
            n <= cards@.len(),
            h == histogram(cards@),
            res@.len() <= n,
            res@.len() == min(n as int, cards@.len() - count_below(cards@, hi as int)),
            ranks_of(res@) + top_ranks(h, hi - 1, n - res@.len()) == top_ranks(h, 12, n as int),
            forall|i: int| 0 <= i < res@.len() ==> cards@.contains(#[trigger] res@[i]),
            forall|i: int| 0 <= i < res@.len() ==> (#[trigger] res@[i]).rank.spec_index() >= hi,
            res@.to_multiset().subset_of(cards@.to_multiset()),
        decreases hi,
    {
        let r: u8 = (hi - 1) as u8;
        let m: usize = n - res.len();
        let ghost start = res@;
        proof {
            assert forall|c: Card| c.rank.spec_index() == r implies #[trigger] start.to_multiset().count(c) == 0 by {
                if start.to_multiset().count(c) > 0 {
                    assert(start.contains(c));
                }
            }
            assert(cards@.take(0) =~= Seq::<Card>::empty());
        }
        let mut taken: usize = 0;
        let mut j: usize = 0;
        while j < cards.len()
            invariant
                r as int == hi - 1,
                hi <= 13,
                m == n - start.len(),
                j <= cards@.len(),
                taken == min(m as int, rank_count(cards@.take(j as int), r as int) as int),
                res@.len() == start.len() + taken,
                ranks_of(res@) == ranks_of(start) + Seq::new(taken as nat, |i: int| r as int),
                forall|i: int| 0 <= i < res@.len() ==> cards@.contains(#[trigger] res@[i]),
                forall|i: int| 0 <= i < start.len() ==> (#[trigger] start[i]).rank.spec_index() >= hi,
                forall|i: int| 0 <= i < res@.len() ==> (#[trigger] res@[i]).rank.spec_index() >= r,
                start.to_multiset().subset_of(cards@.to_multiset()),
                forall|c: Card|
                    c.rank.spec_index() != r ==> #[trigger] res@.to_multiset().count(c)
                        == start.to_multiset().count(c),
                forall|c: Card|
                    c.rank.spec_index() == r ==> #[trigger] res@.to_multiset().count(c)
                        <= cards@.take(j as int).to_multiset().count(c),
            decreases cards@.len() - j,
        {
            assert(cards@.take(j + 1).drop_last() =~= cards@.take(j as int));
            assert(cards@.take(j + 1) =~= cards@.take(j as int).push(cards@[j as int]));
            if taken < m && cards[j].rank.index() == r {
                let ghost prev = res@;
                res.push(cards[j]);
                taken = taken + 1;
                proof {
                    assert(res@ == prev.push(cards@[j as int]));
                    assert(ranks_of(res@) =~= ranks_of(prev).push(r as int));
                    assert(ranks_of(res@) =~= ranks_of(start) + Seq::new(
                        taken as nat,
                        |i: int| r as int,
                    ));
                    assert(cards@.contains(cards@[j as int]));
                }
            }
            j = j + 1;
        }
        proof {
            assert(cards@.take(cards@.len() as int) =~= cards@);
            assert forall|c: Card| #[trigger] res@.to_multiset().count(c) <= cards@.to_multiset().count(c) by {
                if c.rank.spec_index() != r {
                    assert(start.to_multiset().count(c) <= cards@.to_multiset().count(c));
                }
            }
            lemma_count_below_step(cards@, r as int);
            let t = min(h[r as int], m as int);
            assert(h[r as int] == rank_count(cards@, r as int));
            assert(taken == t);
            if m > 0 {
                assert(top_ranks(h, r as int, m as int) == Seq::new(t as nat, |i: int| r as int)
                    + top_ranks(h, r - 1, m - t));
            }
            assert(ranks_of(res@) + top_ranks(h, r - 1, n - res@.len()) =~= ranks_of(start)
                + top_ranks(h, r as int, m as int));
        }
        hi = hi - 1;
    }
    res
}

/// The cards of `cards` of one suit, in order.
pub(crate) fn filter_by_suit(cards: &[Card], suit: Suit) -> (res: Vec<Card>)
    ensures
        res@ == of_suit(cards@, suit.spec_index()),
{
    let mut res: Vec<Card> = Vec::with_capacity(cards.len());
    let mut j: usize = 0;
    while j < cards.len()
        invariant
            j <= cards@.len(),
            res@ == of_suit(cards@.take(j as int), suit.spec_index()),
        decreases cards@.len() - j,
    {
        assert(cards@.take(j + 1).drop_last() =~= cards@.take(j as int));
        if cards[j].suit == suit {
            res.push(cards[j]);
        }
        j = j + 1;
    }
    assert(cards@.take(cards@.len() as int) =~= cards@);
    res
}

/// Compares two card sequences by rank, position by position.
pub(crate) fn ranks_less(a: &[Card], b: &[Card]) -> (r: bool)
    ensures
        r == lex_lt(ranks_of(a@), ranks_of(b@)),
{
    let mut i: usize = 0;
    assert(ranks_of(a@).skip(0) =~= ranks_of(a@));
    assert(ranks_of(b@).skip(0) =~= ranks_of(b@));
    while i < a.len() && i < b.len()
        invariant
            i <= a@.len(),
            i <= b@.len(),
            lex_lt(ranks_of(a@), ranks_of(b@)) == lex_lt(ranks_of(a@).skip(i as int), ranks_of(b@).skip(i as int)),
        decreases a@.len() - i,
    {
        let x = a[i].rank.index();
        let y = b[i].rank.index();
        assert(ranks_of(a@).skip(i as int)[0] == x);
        assert(ranks_of(b@).skip(i as int)[0] == y);
        if x != y {
            return x < y;
        }
        assert(ranks_of(a@).skip(i as int).drop_first() =~= ranks_of(a@).skip(i + 1));
        assert(ranks_of(b@).skip(i as int).drop_first() =~= ranks_of(b@).skip(i + 1));
        i = i + 1;
    }
    a.len() < b.len()
}

/// The highest straight that `cards` holds, one card of each of its ranks,
/// from the top rank down.
pub(crate) fn find_straight(cards: &[Card]) -> (res: Option<Vec<Card>>)
    ensures
        ({
            let t = straight_top(histogram(cards@), 12);
            match res {
                None => t == -1,
                Some(v) => {
                    &&& 3 <= t <= 12
                    &&& v@.len() == 5
                    &&& ranks_of(v@) == straight_ranks(t)
                    &&& forall|i: int| 0 <= i < 5 ==> cards@.contains(#[trigger] v@[i])
                    &&& v@.to_multiset().subset_of(cards@.to_multiset())
                }
            }
        }),
{
    let ghost h = histogram(cards@);
    let groups = split_by_rank(cards);
    let mut t: usize = 13;
    while t > 3
        invariant
            3 <= t <= 13,
            groups_wf(groups@, cards@),
            basket_sizes(groups@) == h,
            h == histogram(cards@),
            forall|q: int| t <= q <= 12 ==> !run_at(h, q),
        decreases t,
    {
        let top = t - 1;
        let mut ok = true;
        let mut i: usize = 0;
        while i < 5
            invariant
                3 <= top <= 12,
                i <= 5,
                groups_wf(groups@, cards@),
                basket_sizes(groups@) == h,
                ok == forall|j: int| 0 <= j < i ==> h[#[trigger] wrap_rank(top - j)] > 0,
            decreases 5 - i,
        {
            let r: usize = if i <= top {
                top - i
            } else {
                12
            };
            assert(r == wrap_rank(top - i));
            if groups[r].cards.len() == 0 {
                ok = false;
            }
            i = i + 1;
        }
        if ok {
            proof {
                lemma_straight_skip(h, top as int, 12);
            }
            let mut res: Vec<Card> = Vec::with_capacity(5);
            let mut i: usize = 0;
            while i < 5
                invariant
                    3 <= top <= 12,
                    i <= 5,
                    groups_wf(groups@, cards@),
                    basket_sizes(groups@) == h,
                    run_at(h, top as int),
                    res@.len() == i,
                    forall|j: int| 0 <= j < i ==> (#[trigger] res@[j]).rank.spec_index() == wrap_rank(top - j)
                        && cards@.contains(res@[j]),
                decreases 5 - i,
            {
                let r: usize = if i <= top {
                    top - i
                } else {
                    12
                };
                assert(r == wrap_rank(top - i));
                assert(h[r as int] > 0);
                res.push(groups[r].cards[0]);
                i = i + 1;
            }
            assert(ranks_of(res@) =~= straight_ranks(top as int));
            assert(straight_top(h, top as int) == top);
            proof {
                assert forall|a: int, b: int| 0 <= a < res@.len() && 0 <= b < res@.len() && a != b implies res@[a]
                    != res@[b] by {
                    assert(ranks_of(res@)[a] != ranks_of(res@)[b]);
                }
                res@.lemma_multiset_has_no_duplicates();
                assert forall|c: Card| #[trigger] res@.to_multiset().count(c) <= cards@.to_multiset().count(c) by {
                    if res@.to_multiset().count(c) > 0 {
                        assert(res@.contains(c));
                        let k = choose|k: int| 0 <= k < res@.len() && res@[k] == c;
                        assert(cards@.contains(res@[k]));
                    }
                }
            }
            assert(straight_top(h, 12) == top);
            return Some(res);
        }
        t = top;
    }
    proof {
        lemma_straight_skip(h, 2, 12);
    }
    None
}

} // verus!
