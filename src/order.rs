//! The order of hands by poker value.

use vstd::prelude::*;
use std::cmp::Ordering;
use crate::card::Rank;
use crate::classify::{
    Category, KindGroups, category_of, groups_of, low_ace_of, lemma_group_shapes, rank_values,
    ranks_of, singles_of,
};
use crate::hand::Hand;

verus! {

/// Lexicographic order on sequences of numbers: the first position where
/// they differ decides, and a proper prefix comes first.
pub open spec fn lex_cmp(a: Seq<int>, b: Seq<int>) -> Ordering
    decreases a.len(),
{
    if a.len() == 0 {
        if b.len() == 0 {
            Ordering::Equal
        } else {
            Ordering::Less
        }
    } else if b.len() == 0 {
        Ordering::Greater
    } else if a[0] < b[0] {
        Ordering::Less
    } else if a[0] > b[0] {
        Ordering::Greater
    } else {
        lex_cmp(a.drop_first(), b.drop_first())
    }
}

/// The same comparison seen from the other side.
pub open spec fn flip(o: Ordering) -> Ordering {
    match o {
        Ordering::Less => Ordering::Greater,
        Ordering::Equal => Ordering::Equal,
        Ordering::Greater => Ordering::Less,
    }
}

/// Comparison of two lists of groups: lists of different lengths, or with
/// different counts at the first position where they differ, are not
/// comparable; otherwise the first differing rank decides.
pub open spec fn groups_cmp(a: Seq<(int, int)>, b: Seq<(int, int)>) -> Option<Ordering> {
    if a.len() != b.len() {
        None
    } else {
        groups_cmp_from(a, b, 0)
    }
}

/// `groups_cmp` of two lists of equal length, from position `i` on.
pub open spec fn groups_cmp_from(a: Seq<(int, int)>, b: Seq<(int, int)>, i: int) -> Option<
    Ordering,
>
    decreases a.len() - i,
{
    if i < 0 || i >= a.len() {
        Some(Ordering::Equal)
    } else if a[i].0 != b[i].0 {
        None
    } else if a[i].1 < b[i].1 {
        Some(Ordering::Less)
    } else if a[i].1 > b[i].1 {
        Some(Ordering::Greater)
    } else {
        groups_cmp_from(a, b, i + 1)
    }
}

/// The ranks of groups, in order.
pub open spec fn group_ranks(g: Seq<(int, int)>) -> Seq<int> {
    g.map_values(|p: (int, int)| p.1)
}

/// The value of a hand as a sequence of numbers, most significant first:
/// the category, the ranks of its groups (strongest group first), 0 for a
/// straight with the Ace counted low and 1 otherwise, and the ranks of its
/// single cards, descending.
pub open spec fn strength(h: Hand) -> Seq<int> {
    seq![category_of(h).spec_index() as int] + group_ranks(groups_of(ranks_of(h))) + seq![
        if low_ace_of(h) {
            0int
        } else {
            1int
        },
    ] + singles_of(ranks_of(h))
}

/// How hand `a` compares with hand `b` by poker value.
pub open spec fn hand_cmp(a: Hand, b: Hand) -> Ordering {
    lex_cmp(strength(a), strength(b))
}

/// Two sequences compare equal exactly when they are the same.
pub proof fn lemma_lex_equal(a: Seq<int>, b: Seq<int>)
    ensures
        lex_cmp(a, b) == Ordering::Equal <==> a == b,
    decreases a.len(),
{
    if a.len() > 0 && b.len() > 0 {
        lemma_lex_equal(a.drop_first(), b.drop_first());
        if a[0] == b[0] && a.drop_first() == b.drop_first() {
            assert(a =~= seq![a[0]] + a.drop_first());
            assert(b =~= seq![b[0]] + b.drop_first());
        }
        if a == b {
            assert(a.drop_first() == b.drop_first());
        }
    } else if a.len() == 0 && b.len() == 0 {
        assert(a =~= b);
    }
}

/// Comparing the other way round gives the opposite answer.
pub proof fn lemma_lex_flip(a: Seq<int>, b: Seq<int>)
    ensures
        lex_cmp(b, a) == flip(lex_cmp(a, b)),
    decreases a.len(),
{
    if a.len() > 0 && b.len() > 0 {
        lemma_lex_flip(a.drop_first(), b.drop_first());
    }
}

/// "Comes before" is transitive.
pub proof fn lemma_lex_less_trans(a: Seq<int>, b: Seq<int>, c: Seq<int>)
    requires
        lex_cmp(a, b) == Ordering::Less,
        lex_cmp(b, c) == Ordering::Less,
    ensures
        lex_cmp(a, c) == Ordering::Less,
    decreases a.len(),
{
    if a.len() > 0 && b.len() > 0 && c.len() > 0 {
        if a[0] == b[0] && b[0] == c[0] {
            lemma_lex_less_trans(a.drop_first(), b.drop_first(), c.drop_first());
        }
    }
}

proof fn lemma_lex_prefix(p: Seq<int>, x: Seq<int>, y: Seq<int>)
    ensures
        lex_cmp(p + x, p + y) == lex_cmp(x, y),
    decreases p.len(),
{
    if p.len() > 0 {
        assert((p + x).drop_first() =~= p.drop_first() + x);
        assert((p + y).drop_first() =~= p.drop_first() + y);
        lemma_lex_prefix(p.drop_first(), x, y);
    } else {
        assert(p + x =~= x);
        assert(p + y =~= y);
    }
}

proof fn lemma_lex_decided(a: Seq<int>, b: Seq<int>, x: Seq<int>, y: Seq<int>)
    requires
        a.len() == b.len(),
        lex_cmp(a, b) != Ordering::Equal,
    ensures
        lex_cmp(a + x, b + y) == lex_cmp(a, b),
    decreases a.len(),
{
    if a.len() > 0 {
        assert((a + x).drop_first() =~= a.drop_first() + x);
        assert((b + y).drop_first() =~= b.drop_first() + y);
        if a[0] == b[0] {
            lemma_lex_decided(a.drop_first(), b.drop_first(), x, y);
        }
    }
}

/// With the same counts at every position, comparing groups is comparing
/// their ranks.
proof fn lemma_groups_cmp_ranks(a: Seq<(int, int)>, b: Seq<(int, int)>, i: int)
    requires
        a.len() == b.len(),
        0 <= i <= a.len(),
        forall|k: int| 0 <= k < a.len() ==> (#[trigger] a[k]).0 == b[k].0,
    ensures
        groups_cmp_from(a, b, i) == Some(
            lex_cmp(group_ranks(a).skip(i), group_ranks(b).skip(i)),
        ),
    decreases a.len() - i,
{
    if i < a.len() {
        lemma_groups_cmp_ranks(a, b, i + 1);
        assert(group_ranks(a).skip(i).drop_first() =~= group_ranks(a).skip(i + 1));
        assert(group_ranks(b).skip(i).drop_first() =~= group_ranks(b).skip(i + 1));
    }
}

/// Hands of one category have groups of the same counts.
proof fn lemma_same_shape(h1: Hand, h2: Hand)
    requires
        h1.wf(),
        h2.wf(),
        category_of(h1) == category_of(h2),
    ensures
        groups_of(ranks_of(h1)).len() == groups_of(ranks_of(h2)).len(),
        forall|k: int|
            0 <= k < groups_of(ranks_of(h1)).len() ==> (#[trigger] groups_of(ranks_of(h1))[k]).0
                == groups_of(ranks_of(h2))[k].0,
{
    lemma_group_shapes(h1);
    lemma_group_shapes(h2);
}

/// Hands are totally ordered by value: comparing the other way round gives
/// the opposite answer, every hand ties with itself, tied hands compare
/// alike with every hand, and "less than" is transitive.
pub proof fn lemma_hand_order(a: Hand, b: Hand, c: Hand)
    ensures
        hand_cmp(b, a) == flip(hand_cmp(a, b)),
        hand_cmp(a, a) == Ordering::Equal,
        hand_cmp(a, b) == Ordering::Equal ==> hand_cmp(a, c) == hand_cmp(b, c),
        hand_cmp(a, b) == Ordering::Less && hand_cmp(b, c) == Ordering::Less ==> hand_cmp(a, c)
            == Ordering::Less,
{
    lemma_lex_flip(strength(a), strength(b));
    lemma_lex_equal(strength(a), strength(a));
    lemma_lex_equal(strength(a), strength(b));
    if hand_cmp(a, b) == Ordering::Less && hand_cmp(b, c) == Ordering::Less {
        lemma_lex_less_trans(strength(a), strength(b), strength(c));
    }
}

/// The category decides first: a hand of a lower category loses to one of a
/// higher category, whatever their ranks.
pub proof fn lemma_category_decides(a: Hand, b: Hand)
    requires
        category_of(a).spec_index() < category_of(b).spec_index(),
    ensures
        hand_cmp(a, b) == Ordering::Less,
        hand_cmp(b, a) == Ordering::Greater,
{
    assert(strength(a)[0] == category_of(a).spec_index() as int);
    assert(strength(b)[0] == category_of(b).spec_index() as int);
}

impl KindGroups {
    /// Compares two lists of groups of the same shape by their ranks: the
    /// first differing rank decides. `None` where the lengths or the counts
    /// differ.
    pub fn partial_cmp(&self, other: &Self) -> (r: Option<Ordering>)
        ensures
            r == groups_cmp(self.pairs(), other.pairs()),
    {
        let a = &self.0;
        let b = &other.0;
        if a.len() != b.len() {
            return None;
        }
        let mut i: usize = 0;
        while i < a.len()
            invariant
                a@.len() == b@.len(),
                0 <= i <= a@.len(),
                a@ == self.0@,
                b@ == other.0@,
                groups_cmp(self.pairs(), other.pairs()) == groups_cmp_from(
                    self.pairs(),
                    other.pairs(),
                    i as int,
                ),
            decreases a@.len() - i,
        {
            if a[i].0 != b[i].0 {
                return None;
            }
            let x = a[i].1.value();
            let y = b[i].1.value();
            if x < y {
                return Some(Ordering::Less);
            }
            if x > y {
                return Some(Ordering::Greater);
            }
            i = i + 1;
        }
        Some(Ordering::Equal)
    }
}

/// Compares two lists of ranks lexicographically by rank number.
fn compare_ranks(a: &Vec<Rank>, b: &Vec<Rank>) -> (r: Ordering)
    ensures
        r == lex_cmp(rank_values(a@), rank_values(b@)),
{
    let ghost va = rank_values(a@);
    let ghost vb = rank_values(b@);
    assert(va.skip(0) =~= va);
    assert(vb.skip(0) =~= vb);
    let mut i: usize = 0;
    loop
        invariant
            i <= a@.len(),
            i <= b@.len(),
            va == rank_values(a@),
            vb == rank_values(b@),
            lex_cmp(va, vb) == lex_cmp(va.skip(i as int), vb.skip(i as int)),
        decreases a@.len() - i,
    {
        if i == a.len() {
            if i == b.len() {
                return Ordering::Equal;
            }
            return Ordering::Less;
        }
        if i == b.len() {
            return Ordering::Greater;
        }
        let x = a[i].value();
        let y = b[i].value();
        assert(va.skip(i as int)[0] == x as int);
        assert(vb.skip(i as int)[0] == y as int);
        if x < y {
            return Ordering::Less;
        }
        if x > y {
            return Ordering::Greater;
        }
        assert(va.skip(i as int).drop_first() =~= va.skip(i + 1));
        assert(vb.skip(i as int).drop_first() =~= vb.skip(i + 1));
        i = i + 1;
    }
}

impl Hand {
    /// Compares two hands by poker value: category first, then the ranks of
    /// the groups, then (for straights) whether the Ace counts low, then the
    /// ranks of the single cards. Suits never matter.
    pub fn compare(&self, other: &Hand) -> (r: Ordering)
        requires
            self.wf(),
            other.wf(),
        ensures
            r == hand_cmp(*self, *other),
    {
        let (cat1, groups1, singles1, low1) = self.categorize();
        let (cat2, groups2, singles2, low2) = other.categorize();
        let ghost g1 = group_ranks(groups1.pairs());
        let ghost g2 = group_ranks(groups2.pairs());
        let ghost f1 = seq![if low1 { 0int } else { 1int }];
        let ghost f2 = seq![if low2 { 0int } else { 1int }];
        let ghost s1 = rank_values(singles1@);
        let ghost s2 = rank_values(singles2@);
        let ghost c = seq![cat1.spec_index() as int];
        assert(strength(*self) == c + g1 + f1 + s1);
        let i1 = cat1.index();
        let i2 = cat2.index();
        if i1 != i2 {
            assert(strength(*self)[0] == i1 as int);
            assert(strength(*other)[0] == i2 as int);
            return if i1 < i2 {
                Ordering::Less
            } else {
                Ordering::Greater
            };
        }
        assert(cat1 == cat2);
        assert(strength(*other) == c + g2 + f2 + s2);
        proof {
            lemma_same_shape(*self, *other);
            lemma_groups_cmp_ranks(groups1.pairs(), groups2.pairs(), 0);
            assert(g1.skip(0) =~= g1);
            assert(g2.skip(0) =~= g2);
            assert(c + g1 + f1 + s1 =~= c + (g1 + (f1 + s1)));
            assert(c + g2 + f2 + s2 =~= c + (g2 + (f2 + s2)));
            lemma_lex_prefix(c, g1 + (f1 + s1), g2 + (f2 + s2));
        }
        match groups1.partial_cmp(&groups2) {
            Some(Ordering::Less) => {
                proof {
                    lemma_lex_decided(g1, g2, f1 + s1, f2 + s2);
                }
                return Ordering::Less;
            },
            Some(Ordering::Greater) => {
                proof {
                    lemma_lex_decided(g1, g2, f1 + s1, f2 + s2);
                }
                return Ordering::Greater;
            },
            _ => {},
        }
        proof {
            lemma_lex_equal(g1, g2);
            lemma_lex_prefix(g1, f1 + s1, f2 + s2);
        }
        if cat1 == Category::StraightFlush || cat1 == Category::Straight {
            if low1 != low2 {
                return if low1 {
                    Ordering::Less
                } else {
                    Ordering::Greater
                };
            }
        }
        assert(f1 == f2);
        proof {
            lemma_lex_prefix(f1, s1, s2);
        }
        compare_ranks(&singles1, &singles2)
    }
}

} // verus!
