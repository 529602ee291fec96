//! Classification of a hand: its groups of equal rank, its single cards,
//! straights and the category.

use vstd::prelude::*;
use crate::card::{Card, Rank};
use crate::hand::Hand;

verus! {

/// The nine categories, weakest first.
#[derive(Debug, Clone, Copy, PartialEq, Eq, Structural, PartialOrd, Ord, Hash)]
pub enum Category {
    HighCard,
    OnePair,
    TwoPairs,
    ThreeOfAKind,
    Straight,
    Flush,
    FullHouse,
    FourOfAKind,
    StraightFlush,
}

impl Category {
    /// Position of the category, from 0 for `HighCard` to 8 for
    /// `StraightFlush`; a higher position beats a lower one.
    pub open spec fn spec_index(&self) -> u8 {
        match self {
            Category::HighCard => 0u8,
            Category::OnePair => 1u8,
            Category::TwoPairs => 2u8,
            Category::ThreeOfAKind => 3u8,
            Category::Straight => 4u8,
            Category::Flush => 5u8,
            Category::FullHouse => 6u8,
            Category::FourOfAKind => 7u8,
            Category::StraightFlush => 8u8,
        }
    }

    /// Position of the category, weakest first.
    #[verifier::when_used_as_spec(spec_index)]
    pub fn index(&self) -> (r: u8)
        ensures
            r == self.spec_index(),
    {
        match self {
            Category::HighCard => 0,
            Category::OnePair => 1,
            Category::TwoPairs => 2,
            Category::ThreeOfAKind => 3,
            Category::Straight => 4,
            Category::Flush => 5,
            Category::FullHouse => 6,
            Category::FourOfAKind => 7,
            Category::StraightFlush => 8,
        }
    }
}

/// Groups of cards of equal rank, as (count, rank) pairs.
#[derive(Debug, Clone, PartialEq, Eq)]
pub struct KindGroups(pub Vec<(usize, Rank)>);

/// The numbers of the ranks `v`, in the same order.
pub open spec fn rank_values(v: Seq<Rank>) -> Seq<int> {
    v.map_values(|r: Rank| r.spec_value() as int)
}

/// The rank numbers of the cards of a hand, in stored order.
pub open spec fn ranks_of(h: Hand) -> Seq<int> {
    h.cards().map_values(|c: Card| c.rank.spec_value() as int)
}

/// How many entries of `s` equal `r`.
pub open spec fn rank_count(s: Seq<int>, r: int) -> nat
    decreases s.len(),
{
    if s.len() == 0 {
        0
    } else {
        rank_count(s.drop_last(), r) + if s.last() == r {
            1nat
        } else {
            0nat
        }
    }
}

/// Every (count, rank) pair a group could have, strongest first: counts
/// four, three and two, and within a count ranks Ace (14) down to Two (2).
pub open spec fn group_candidates() -> Seq<(int, int)> {
    Seq::new(39, |k: int| (4 - k / 13, 14 - k % 13))
}

/// The rank numbers from Ace (14) down to Two (2).
pub open spec fn rank_candidates() -> Seq<int> {
    Seq::new(13, |k: int| 14 - k)
}

/// The groups of `s`: a (count, rank) pair for every rank that occurs two or
/// more times, by count and then rank, both descending.
pub open spec fn groups_of(s: Seq<int>) -> Seq<(int, int)> {
    group_candidates().filter(is_group_of(s))
}

/// The pair (count, rank) is a group of `s`: the rank occurs exactly
/// count times.
pub open spec fn is_group_of(s: Seq<int>) -> spec_fn((int, int)) -> bool {
    |g: (int, int)| rank_count(s, g.1) == g.0
}

/// The rank occurs exactly once in `s`.
pub open spec fn is_single_of(s: Seq<int>) -> spec_fn(int) -> bool {
    |r: int| rank_count(s, r) == 1
}

/// The ranks that occur exactly once in `s`, descending.
pub open spec fn singles_of(s: Seq<int>) -> Seq<int> {
    rank_candidates().filter(is_single_of(s))
}

/// Each rank is one less than the one before it.
pub open spec fn is_run(r: Seq<int>) -> bool {
    forall|i: int| 0 <= i < r.len() - 1 ==> r[i] - 1 == #[trigger] r[i + 1]
}

/// Ace, then Five, then a run down from Five: the straight in which the Ace
/// counts low.
pub open spec fn is_wheel(r: Seq<int>) -> bool {
    r.len() >= 2 && r[0] == 14 && r[1] == 5 && is_run(r.drop_first())
}

/// The descending ranks `r` form a straight.
pub open spec fn is_straight(r: Seq<int>) -> bool {
    is_run(r) || is_wheel(r)
}

/// The descending ranks `r` form a straight only with the Ace counted low.
pub open spec fn is_low_ace(r: Seq<int>) -> bool {
    !is_run(r) && is_wheel(r)
}

/// The category of a hand, decided by the shape of its groups and, where
/// it has none, by flush and straight.
pub open spec fn category_of(h: Hand) -> Category {
    let g = groups_of(ranks_of(h));
    let rem = singles_of(ranks_of(h));
    if g.len() == 0 {
        if h.spec_is_flush() && is_straight(rem) {
            Category::StraightFlush
        } else if h.spec_is_flush() {
            Category::Flush
        } else if is_straight(rem) {
            Category::Straight
        } else {
            Category::HighCard
        }
    } else if g.len() == 1 {
        if g[0].0 == 2 {
            Category::OnePair
        } else if g[0].0 == 3 {
            Category::ThreeOfAKind
        } else {
            Category::FourOfAKind
        }
    } else if g[0].0 == 2 {
        Category::TwoPairs
    } else {
        Category::FullHouse
    }
}

/// The hand is a straight, or a straight flush, only with the Ace counted
/// low.
pub open spec fn low_ace_of(h: Hand) -> bool {
    groups_of(ranks_of(h)).len() == 0 && is_low_ace(singles_of(ranks_of(h)))
}

/// The groups `v` as (count, rank number) pairs.
pub open spec fn group_pairs(v: Seq<(usize, Rank)>) -> Seq<(int, int)> {
    v.map_values(|g: (usize, Rank)| (g.0 as int, g.1.spec_value() as int))
}

impl KindGroups {
    /// The groups as (count, rank number) pairs.
    pub open spec fn pairs(&self) -> Seq<(int, int)> {
        group_pairs(self.0@)
    }
}

impl Hand {
    /// The card at position `i` of the hand.
    pub fn card(&self, i: usize) -> (r: Card)
        requires
            i < 5,
        ensures
            r == self.cards()[i as int],
    {
        if i == 0 {
            self.0.0
        } else if i == 1 {
            self.0.1
        } else if i == 2 {
            self.0.2
        } else if i == 3 {
            self.0.3
        } else {
            self.0.4
        }
    }

    /// The groups of cards of equal rank, strongest first, and the ranks of
    /// the remaining cards, descending.
    pub fn kind_groups(&self) -> (r: (KindGroups, Vec<Rank>))
        ensures
            r.0.pairs() == groups_of(ranks_of(*self)),
            rank_values(r.1@) == singles_of(ranks_of(*self)),
    {
        let ghost s = ranks_of(*self);
        let mut counts: Vec<u8> = vec![0u8; 15];
        let mut i: usize = 0;
        while i < 5
            invariant
                i <= 5,
                s == ranks_of(*self),
                counts@.len() == 15,
                forall|r: int| 0 <= r < 15 ==> counts@[r] == rank_count(s.take(i as int), r),
            decreases 5 - i,
        {
            let v = self.card(i).rank.value();
            proof {
                assert(s.take(i + 1).drop_last() =~= s.take(i as int));
                assert(counts@[v as int] <= i) by {
                    lemma_rank_count_le(s.take(i as int), v as int);
                }
            }
            let n = counts[v as usize];
            counts.set(v as usize, n + 1);
            i = i + 1;
        }
        assert(s.take(5) =~= s);
        // walk the group candidates strongest first, keeping those that occur
        let mut groups: Vec<(usize, Rank)> = Vec::new();
        let mut k: usize = 0;
        while k < 39
            invariant
                k <= 39,
                counts@.len() == 15,
                forall|r: int| 0 <= r < 15 ==> counts@[r] == rank_count(s, r),
                group_pairs(groups@) == group_candidates().take(k as int).filter(is_group_of(s)),
            decreases 39 - k,
        {
            let c: u8 = 4 - (k / 13) as u8;
            let v: u8 = 14 - (k % 13) as u8;
            proof {
                assert(group_candidates()[k as int] == (c as int, v as int));
                assert(counts@[v as int] == rank_count(s, v as int));
                assert(is_group_of(s)(group_candidates()[k as int]) == (rank_count(s, v as int) == c as int));
                assert(group_candidates().take(k + 1) =~= group_candidates().take(k as int).push(
                    group_candidates()[k as int],
                ));
                group_candidates().take(k as int).lemma_filter_push(group_candidates()[k as int], is_group_of(s));
            }
            if counts[v as usize] == c {
                let ghost old_groups = groups@;
                groups.push((c as usize, Rank::from_value(v)));
                assert(group_pairs(groups@) =~= group_pairs(old_groups).push(
                    group_candidates()[k as int],
                ));
            }
            k = k + 1;
        }
        assert(group_candidates().take(39) =~= group_candidates());
        // then the ranks from Ace down, keeping those that occur once
        let mut singles: Vec<Rank> = Vec::new();
        let mut k: usize = 0;
        while k < 13
            invariant
                k <= 13,
                counts@.len() == 15,
                forall|r: int| 0 <= r < 15 ==> counts@[r] == rank_count(s, r),
                rank_values(singles@) == rank_candidates().take(k as int).filter(is_single_of(s)),
            decreases 13 - k,
        {
            let v: u8 = 14 - k as u8;
            proof {
                assert(rank_candidates()[k as int] == v as int);
                assert(is_single_of(s)(rank_candidates()[k as int]) == (counts@[v as int] == 1));
                assert(rank_candidates().take(k + 1) =~= rank_candidates().take(k as int).push(
                    rank_candidates()[k as int],
                ));
                rank_candidates().take(k as int).lemma_filter_push(rank_candidates()[k as int], is_single_of(s));
            }
            if counts[v as usize] == 1 {
                let ghost old_singles = singles@;
                singles.push(Rank::from_value(v));
                assert(rank_values(singles@) =~= rank_values(old_singles).push(
                    rank_candidates()[k as int],
                ));
            }
            k = k + 1;
        }
        assert(rank_candidates().take(13) =~= rank_candidates());
        (KindGroups(groups), singles)
    }
}

/// The group `a` is stronger than `b`: a larger count, or the same count
/// and a higher rank.
pub open spec fn pair_gt(a: (int, int), b: (int, int)) -> bool {
    a.0 > b.0 || (a.0 == b.0 && a.1 > b.1)
}

proof fn lemma_filter_pairs(s: Seq<(int, int)>, p: spec_fn((int, int)) -> bool)
    requires
        forall|i: int, j: int| 0 <= i < j < s.len() ==> pair_gt(s[i], s[j]),
    ensures
        forall|i: int|
            0 <= i < s.filter(p).len() ==> p(#[trigger] s.filter(p)[i]) && s.contains(
                s.filter(p)[i],
            ),
        forall|i: int, j: int|
            0 <= i < j < s.filter(p).len() ==> pair_gt(s.filter(p)[i], s.filter(p)[j]),
    decreases s.len(),
{
    reveal(Seq::filter);
    if s.len() > 0 {
        let t = s.drop_last();
        let f = t.filter(p);
        lemma_filter_pairs(t, p);
        assert forall|x: (int, int)| t.contains(x) implies s.contains(x) && pair_gt(
            x,
            s.last(),
        ) by {
            let m = choose|m: int| 0 <= m < t.len() && t[m] == x;
            assert(s[m] == x);
        }
        if p(s.last()) {
            let sf = f.push(s.last());
            assert(s.filter(p) == sf);
            assert(s[s.len() - 1] == s.last());
            assert forall|i: int| 0 <= i < sf.len() implies p(#[trigger] sf[i]) && s.contains(
                sf[i],
            ) by {
                if i < f.len() {
                    assert(sf[i] == f[i]);
                    assert(t.contains(f[i]));
                }
            }
            assert forall|i: int, j: int| 0 <= i < j < sf.len() implies pair_gt(sf[i], sf[j]) by {
                assert(sf[i] == f[i]);
                assert(t.contains(f[i]));
                if j < f.len() {
                    assert(sf[j] == f[j]);
                }
            }
        } else {
            assert(s.filter(p) == f);
            assert forall|i: int| 0 <= i < f.len() implies p(#[trigger] f[i]) && s.contains(
                f[i],
            ) by {
                assert(t.contains(f[i]));
            }
        }
    }
}

proof fn lemma_filter_ranks(s: Seq<int>, p: spec_fn(int) -> bool)
    requires
        forall|i: int, j: int| 0 <= i < j < s.len() ==> s[i] > s[j],
    ensures
        forall|i: int|
            0 <= i < s.filter(p).len() ==> p(#[trigger] s.filter(p)[i]) && s.contains(
                s.filter(p)[i],
            ),
        forall|i: int, j: int| 0 <= i < j < s.filter(p).len() ==> s.filter(p)[i] > s.filter(p)[j],
        forall|i: int| 0 <= i < s.len() && p(s[i]) ==> s.filter(p).contains(#[trigger] s[i]),
    decreases s.len(),
{
    reveal(Seq::filter);
    if s.len() > 0 {
        let t = s.drop_last();
        lemma_filter_ranks(t, p);
        assert forall|x: int| t.contains(x) implies s.contains(x) && x > s.last() by {
            let m = choose|m: int| 0 <= m < t.len() && t[m] == x;
            assert(s[m] == x);
        }
        assert forall|i: int| 0 <= i < s.len() && p(s[i]) implies s.filter(p).contains(
            #[trigger] s[i],
        ) by {
            if i < s.len() - 1 {
                assert(t[i] == s[i]);
                let f = t.filter(p);
                let m = choose|m: int| 0 <= m < f.len() && f[m] == s[i];
                assert(s.filter(p)[m] == s[i]);
            } else {
                assert(s.filter(p)[s.filter(p).len() - 1] == s[i]);
            }
        }
    }
}

/// Counting the ranks of a hand one card at a time.
pub proof fn lemma_count5(h: Hand, r: int)
    ensures
        rank_count(ranks_of(h), r) == (if h.0.0.rank.spec_value() == r {
            1int
        } else {
            0int
        }) + (if h.0.1.rank.spec_value() == r {
            1int
        } else {
            0int
        }) + (if h.0.2.rank.spec_value() == r {
            1int
        } else {
            0int
        }) + (if h.0.3.rank.spec_value() == r {
            1int
        } else {
            0int
        }) + (if h.0.4.rank.spec_value() == r {
            1int
        } else {
            0int
        }),
{
    let s = ranks_of(h);
    assert(s.drop_last().drop_last().drop_last().drop_last().drop_last() =~= Seq::<int>::empty());
    reveal_with_fuel(rank_count, 6);
}

proof fn lemma_count_at_most_four(h: Hand, r: int)
    requires
        h.wf(),
    ensures
        rank_count(ranks_of(h), r) <= 4,
{
    lemma_count5(h, r);
}

proof fn lemma_two_ranks(h: Hand, r1: int, r2: int)
    requires
        r1 != r2,
    ensures
        rank_count(ranks_of(h), r1) + rank_count(ranks_of(h), r2) <= 5,
{
    lemma_count5(h, r1);
    lemma_count5(h, r2);
}

proof fn lemma_three_ranks(h: Hand, r1: int, r2: int, r3: int)
    requires
        r1 != r2,
        r1 != r3,
        r2 != r3,
    ensures
        rank_count(ranks_of(h), r1) + rank_count(ranks_of(h), r2) + rank_count(ranks_of(h), r3)
            <= 5,
{
    lemma_count5(h, r1);
    lemma_count5(h, r2);
    lemma_count5(h, r3);
}

proof fn lemma_six_ranks(h: Hand, r: Seq<int>)
    requires
        r.len() == 6,
        forall|i: int, j: int| 0 <= i < j < 6 ==> r[i] != r[j],
    ensures
        exists|i: int| 0 <= i < 6 && rank_count(ranks_of(h), #[trigger] r[i]) == 0,
{
    lemma_count5(h, r[0]);
    lemma_count5(h, r[1]);
    lemma_count5(h, r[2]);
    lemma_count5(h, r[3]);
    lemma_count5(h, r[4]);
    lemma_count5(h, r[5]);
    if rank_count(ranks_of(h), r[0]) == 0 {
        assert(rank_count(ranks_of(h), r[0]) == 0);
    } else if rank_count(ranks_of(h), r[1]) == 0 {
        assert(rank_count(ranks_of(h), r[1]) == 0);
    } else if rank_count(ranks_of(h), r[2]) == 0 {
        assert(rank_count(ranks_of(h), r[2]) == 0);
    } else if rank_count(ranks_of(h), r[3]) == 0 {
        assert(rank_count(ranks_of(h), r[3]) == 0);
    } else if rank_count(ranks_of(h), r[4]) == 0 {
        assert(rank_count(ranks_of(h), r[4]) == 0);
    } else {
        assert(rank_count(ranks_of(h), r[5]) == 0);
    }
}

proof fn lemma_candidates_descend()
    ensures
        forall|i: int, j: int|
            0 <= i < j < group_candidates().len() ==> pair_gt(
                group_candidates()[i],
                group_candidates()[j],
            ),
        forall|i: int, j: int|
            0 <= i < j < rank_candidates().len() ==> rank_candidates()[i] > rank_candidates()[j],
{
    assert forall|i: int, j: int|
        0 <= i < j < group_candidates().len() implies pair_gt(
        group_candidates()[i],
        group_candidates()[j],
    ) by {
        assert(i / 13 <= j / 13) by (nonlinear_arith)
            requires
                0 <= i < j,
        ;
        if i / 13 == j / 13 {
            assert(i % 13 < j % 13) by (nonlinear_arith)
                requires
                    0 <= i < j,
                    i / 13 == j / 13,
            ;
        }
    }
}

/// What the groups and singles of any hand are made of: groups hold counts
/// from two to four, strongest first; singles are ranks that occur once,
/// descending, and every such rank is among them.
pub proof fn lemma_groups_singles(h: Hand)
    ensures
        forall|i: int|
            0 <= i < groups_of(ranks_of(h)).len() ==> 2 <= (#[trigger] groups_of(
                ranks_of(h),
            )[i]).0 <= 4 && rank_count(ranks_of(h), groups_of(ranks_of(h))[i].1) == groups_of(
                ranks_of(h),
            )[i].0,
        forall|i: int, j: int|
            0 <= i < j < groups_of(ranks_of(h)).len() ==> pair_gt(
                groups_of(ranks_of(h))[i],
                groups_of(ranks_of(h))[j],
            ),
        forall|i: int|
            0 <= i < singles_of(ranks_of(h)).len() ==> 2 <= #[trigger] singles_of(ranks_of(h))[i]
                <= 14 && rank_count(ranks_of(h), singles_of(ranks_of(h))[i]) == 1,
        forall|i: int, j: int|
            0 <= i < j < singles_of(ranks_of(h)).len() ==> singles_of(ranks_of(h))[i]
                > singles_of(ranks_of(h))[j],
        forall|r: int|
            2 <= r <= 14 && rank_count(ranks_of(h), r) == 1 ==> #[trigger] singles_of(
                ranks_of(h),
            ).contains(r),
{
    let s = ranks_of(h);
    lemma_candidates_descend();
    lemma_filter_pairs(group_candidates(), is_group_of(s));
    lemma_filter_ranks(rank_candidates(), is_single_of(s));
    let g = groups_of(s);
    let rem = singles_of(s);
    assert forall|i: int| 0 <= i < g.len() implies 2 <= #[trigger] g[i].0 <= 4 by {
        let m = choose|m: int| 0 <= m < 39 && group_candidates()[m] == g[i];
    }
    assert forall|i: int| 0 <= i < rem.len() implies 2 <= #[trigger] rem[i] <= 14 by {
        let m = choose|m: int| 0 <= m < 13 && rank_candidates()[m] == rem[i];
    }
    assert forall|r: int| 2 <= r <= 14 && rank_count(s, r) == 1 implies #[trigger] rem.contains(
        r,
    ) by {
        assert(rank_candidates()[14 - r] == r);
    }
}

/// The group shapes of a well-formed hand are exactly those of the category
/// table: none, one group of two, three or four cards, two pairs, or three
/// cards and a pair.
pub proof fn lemma_group_shapes(h: Hand)
    requires
        h.wf(),
    ensures
        groups_of(ranks_of(h)).len() <= 2,
        groups_of(ranks_of(h)).len() == 1 ==> 2 <= groups_of(ranks_of(h))[0].0 <= 4,
        groups_of(ranks_of(h)).len() == 2 ==> (groups_of(ranks_of(h))[0].0 == 2
            || groups_of(ranks_of(h))[0].0 == 3) && groups_of(ranks_of(h))[1].0 == 2,
{
    let s = ranks_of(h);
    let g = groups_of(s);
    lemma_groups_singles(h);
    if g.len() >= 2 {
        assert(pair_gt(g[0], g[1]));
        lemma_two_ranks(h, g[0].1, g[1].1);
    }
    if g.len() >= 3 {
        assert(pair_gt(g[0], g[2]));
        assert(pair_gt(g[1], g[2]));
        lemma_three_ranks(h, g[0].1, g[1].1, g[2].1);
    }
}

/// A hand has at most five singles; one without groups has exactly five.
pub proof fn lemma_singles_count(h: Hand)
    requires
        h.wf(),
    ensures
        singles_of(ranks_of(h)).len() <= 5,
        groups_of(ranks_of(h)).len() == 0 ==> singles_of(ranks_of(h)).len() == 5,
{
    let s = ranks_of(h);
    let g = groups_of(s);
    let rem = singles_of(s);
    lemma_groups_singles(h);
    if rem.len() > 5 {
        lemma_six_ranks(h, rem.take(6));
    }
    if g.len() == 0 {
        lemma_no_groups(h);
        lemma_card_ranks(h);
        if rem.len() < 5 {
            let i0 = choose|m: int| 0 <= m < rem.len() && rem[m] == s[0];
            let i1 = choose|m: int| 0 <= m < rem.len() && rem[m] == s[1];
            let i2 = choose|m: int| 0 <= m < rem.len() && rem[m] == s[2];
            let i3 = choose|m: int| 0 <= m < rem.len() && rem[m] == s[3];
            let i4 = choose|m: int| 0 <= m < rem.len() && rem[m] == s[4];
            assert(false);
        }
    }
}

proof fn lemma_card_ranks(h: Hand)
    requires
        h.wf(),
    ensures
        forall|i: int| 0 <= i < 5 ==> 2 <= #[trigger] ranks_of(h)[i] <= 14,
        forall|i: int, j: int|
            0 <= i < j < 5 ==> ranks_of(h)[i] <= ranks_of(h)[j],
{
}

/// Without groups, every rank of the hand occurs once.
pub proof fn lemma_no_groups(h: Hand)
    requires
        h.wf(),
        groups_of(ranks_of(h)).len() == 0,
    ensures
        forall|i: int| 0 <= i < 5 ==> rank_count(ranks_of(h), #[trigger] ranks_of(h)[i]) == 1,
        forall|i: int| 0 <= i < 5 ==> singles_of(ranks_of(h)).contains(#[trigger] ranks_of(h)[i]),
        forall|i: int, j: int| 0 <= i < j < 5 ==> ranks_of(h)[i] < ranks_of(h)[j],
{
    let s = ranks_of(h);
    lemma_card_ranks(h);
    lemma_groups_singles(h);
    assert forall|i: int| 0 <= i < 5 implies rank_count(s, #[trigger] s[i]) == 1 by {
        let c = rank_count(s, s[i]);
        lemma_count5(h, s[i]);
        lemma_count_at_most_four(h, s[i]);
        if c >= 2 {
            let k = (4 - c) * 13 + (14 - s[i]);
            assert(group_candidates()[k] == (c as int, s[i]));
            group_candidates().lemma_filter_contains(is_group_of(s), k);
        }
    }
    assert forall|i: int, j: int| 0 <= i < j < 5 implies s[i] < s[j] by {
        lemma_count5(h, s[i]);
    }
}

/// Whether `ranks[from..]` descend by exactly one at each step.
fn is_run_from(ranks: &Vec<Rank>, from: usize) -> (r: bool)
    requires
        from <= ranks@.len(),
    ensures
        r == is_run(rank_values(ranks@).skip(from as int)),
{
    let ghost t = rank_values(ranks@).skip(from as int);
    let mut i: usize = from;
    while i < ranks.len() && i < ranks.len() - 1
        invariant
            from <= i <= ranks@.len(),
            t == rank_values(ranks@).skip(from as int),
            forall|k: int| 0 <= k < i - from && k < t.len() - 1 ==> t[k] - 1 == #[trigger] t[k + 1],
        decreases ranks@.len() - i,
    {
        if ranks[i].value() != ranks[i + 1].value() + 1 {
            assert(t[i - from] - 1 != t[i - from + 1]);
            return false;
        }
        i = i + 1;
    }
    true
}

impl Hand {
    /// Whether the descending ranks `ranks` form a straight, and whether
    /// they do so only with the Ace counted low (Ace, Five, Four, Three,
    /// Two). An Ace never stands inside a straight.
    pub fn straight_type(ranks: &Vec<Rank>) -> (r: (bool, bool))
        requires
            ranks@.len() >= 1,
        ensures
            r.0 == is_straight(rank_values(ranks@)),
            r.1 == is_low_ace(rank_values(ranks@)),
    {
        let ghost v = rank_values(ranks@);
        assert(v.skip(0) =~= v);
        assert(v.skip(1) =~= v.drop_first());
        if ranks[0] == Rank::Ace {
            if is_run_from(ranks, 0) {
                return (true, false);
            }
            if ranks[1] == Rank::Five && is_run_from(ranks, 1) {
                return (true, true);
            }
        }
        (is_run_from(ranks, 0), false)
    }

    /// The category of the hand, its groups, its singles and whether it is
    /// a straight only with the Ace counted low.
    pub fn categorize(&self) -> (r: (Category, KindGroups, Vec<Rank>, bool))
        requires
            self.wf(),
        ensures
            r.0 == category_of(*self),
            r.1.pairs() == groups_of(ranks_of(*self)),
            rank_values(r.2@) == singles_of(ranks_of(*self)),
            r.3 == low_ace_of(*self),
    {
        let (groups, singles) = self.kind_groups();
        proof {
            lemma_group_shapes(*self);
            lemma_singles_count(*self);
        }
        let n = groups.0.len();
        if n == 0 {
            let (is_straight, is_low_ace) = Self::straight_type(&singles);
            if self.is_flush() {
                if is_straight {
                    return (Category::StraightFlush, groups, singles, is_low_ace);
                }
                return (Category::Flush, groups, singles, is_low_ace);
            }
            if is_straight {
                return (Category::Straight, groups, singles, is_low_ace);
            }
            return (Category::HighCard, groups, singles, false);
        }
        let top = groups.0[0].0;
        assert(top as int == groups_of(ranks_of(*self))[0].0);
        if n == 1 {
            if top == 2 {
                (Category::OnePair, groups, singles, false)
            } else if top == 3 {
                (Category::ThreeOfAKind, groups, singles, false)
            } else {
                (Category::FourOfAKind, groups, singles, false)
            }
        } else if top == 2 {
            (Category::TwoPairs, groups, singles, false)
        } else {
            (Category::FullHouse, groups, singles, false)
        }
    }
}

proof fn lemma_rank_count_le(s: Seq<int>, r: int)
    ensures
        rank_count(s, r) <= s.len(),
    decreases s.len(),
{
    if s.len() > 0 {
        lemma_rank_count_le(s.drop_last(), r);
    }
}

} // verus!
