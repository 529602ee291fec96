//! Properties of parsing, classification and ranking that hold of every
//! hand.

use vstd::prelude::*;
use std::cmp::Ordering;
use crate::card::{Card, Rank, card_of_text, card_text, rank_of_text, rank_text, suit_code, suit_of_code};
use crate::hand::{Hand, hand_of_text, keys_of, lemma_hand_unique, named_cards, names_hand};
use crate::text::{cards_of_words, hand_text, join_words, space_len, starts_space, no_space, split_from, words};
use crate::classify::{
    Category, category_of, groups_of, is_run, is_wheel, lemma_count5, lemma_groups_singles,
    lemma_no_groups, lemma_singles_count, low_ace_of, ranks_of, singles_of,
};
use crate::order::{hand_cmp, lex_cmp, strength};

verus! {

proof fn lemma_split_word(w: Seq<u8>, rest: Seq<u8>, cur: Seq<u8>)
    requires
        no_space(w),
    ensures
        split_from(w + rest, cur) == split_from(rest, cur + w),
    decreases w.len(),
{
    if w.len() == 0 {
        assert(w + rest =~= rest);
        assert(cur + w =~= cur);
    } else {
        assert((w + rest)[0] == w[0]);
        assert(space_len(w + rest) == 0);
        assert((w + rest).drop_first() =~= w.drop_first() + rest);
        assert(cur.push(w[0]) + w.drop_first() =~= cur + w);
        lemma_split_word(w.drop_first(), rest, cur.push(w[0]));
    }
}

proof fn lemma_split_joined(ws: Seq<Seq<u8>>)
    requires
        forall|i: int| 0 <= i < ws.len() ==> (#[trigger] ws[i]).len() > 0 && no_space(ws[i]),
    ensures
        words(join_words(ws)) == ws,
    decreases ws.len(),
{
    if ws.len() == 0 {
        assert(words(join_words(ws)) =~= ws);
    } else if ws.len() == 1 {
        lemma_split_word(ws[0], seq![], seq![]);
        assert(ws[0] + Seq::<u8>::empty() =~= ws[0]);
        assert(Seq::<u8>::empty() + ws[0] =~= ws[0]);
        assert(seq![ws[0]] =~= ws);
    } else {
        let w = ws[0];
        let j = join_words(ws.drop_first());
        assert(w + seq![32u8] + j =~= w + (seq![32u8] + j));
        lemma_split_word(w, seq![32u8] + j, seq![]);
        assert(Seq::<u8>::empty() + w =~= w);
        assert((seq![32u8] + j).skip(1) =~= j);
        assert(space_len(seq![32u8] + j) == 1);
        assert((seq![32u8] + j)[0] == 32u8);
        lemma_split_joined(ws.drop_first());
        assert(seq![w] + ws.drop_first() =~= ws);
    }
}

proof fn lemma_rank_text(r: Rank)
    ensures
        rank_of_text(rank_text(r)) == Some(r),
        no_space(rank_text(r)),
        1 <= rank_text(r).len() <= 2,
{
}

/// Reading back the text of a card gives the card.
pub proof fn lemma_card_text(c: Card)
    ensures
        card_of_text(card_text(c)) == Some(c),
        no_space(card_text(c)),
        card_text(c).len() > 0,
{
    lemma_rank_text(c.rank);
    let t = card_text(c);
    assert(t.drop_last() =~= rank_text(c.rank));
    assert(t.last() == suit_code(c.suit));
    assert(suit_of_code(suit_code(c.suit)) == Some(c.suit));
    assert forall|i: int| 0 <= i < t.len() implies !starts_space(#[trigger] t[i]) by {
        if i < t.len() - 1 {
            assert(t[i] == rank_text(c.rank)[i]);
        }
    }
}

proof fn lemma_cards_of_texts(cs: Seq<Card>)
    ensures
        cards_of_words(cs.map_values(|c: Card| card_text(c))) == Some(cs),
    decreases cs.len(),
{
    let ws = cs.map_values(|c: Card| card_text(c));
    if cs.len() == 0 {
        assert(ws.len() == 0);
        assert(cs =~= seq![]);
    } else {
        lemma_cards_of_texts(cs.drop_last());
        assert(ws.drop_last() =~= cs.drop_last().map_values(|c: Card| card_text(c)));
        lemma_card_text(cs.last());
        assert(cs.drop_last().push(cs.last()) =~= cs);
    }
}

/// Writing a hand out as text (`Hand::to_bytes`) and parsing that text
/// (`Hand::from_str`) gives the same hand back: the text names five distinct
/// cards, and the hand it names is the one written.
pub proof fn lemma_text_round_trip(h: Hand)
    requires
        h.wf(),
    ensures
        names_hand(hand_text(h)),
        hand_of_text(hand_text(h)) == h,
{
    let cs = h.cards();
    let ws = cs.map_values(|c: Card| card_text(c));
    assert forall|i: int| 0 <= i < ws.len() implies (#[trigger] ws[i]).len() > 0 && no_space(
        ws[i],
    ) by {
        lemma_card_text(cs[i]);
    }
    lemma_split_joined(ws);
    lemma_cards_of_texts(cs);
    let b = hand_text(h);
    assert(named_cards(b) == cs);
    assert(keys_of(cs) =~= h.keys());
    assert(h.keys().no_duplicates());
    let g = hand_of_text(b);
    assert(h.wf() && h.keys().to_multiset() == keys_of(named_cards(b)).to_multiset());
    lemma_hand_unique(g, h);
}

/// A hand with five different ranks has no groups, and its singles are its
/// ranks, descending.
proof fn lemma_distinct_ranks(h: Hand)
    requires
        h.wf(),
        ranks_of(h)[0] < ranks_of(h)[1] < ranks_of(h)[2] < ranks_of(h)[3] < ranks_of(h)[4],
    ensures
        groups_of(ranks_of(h)).len() == 0,
        singles_of(ranks_of(h)) == seq![
            ranks_of(h)[4],
            ranks_of(h)[3],
            ranks_of(h)[2],
            ranks_of(h)[1],
            ranks_of(h)[0],
        ],
{
    let s = ranks_of(h);
    let g = groups_of(s);
    let rem = singles_of(s);
    lemma_groups_singles(h);
    if g.len() > 0 {
        lemma_count5(h, g[0].1);
    }
    lemma_singles_count(h);
    lemma_count5(h, rem[0]);
    lemma_count5(h, rem[1]);
    lemma_count5(h, rem[2]);
    lemma_count5(h, rem[3]);
    lemma_count5(h, rem[4]);
    assert(rem =~= seq![s[4], s[3], s[2], s[1], s[0]]);
}

/// A flush of Ten, Jack, Queen, King and Ace is a straight flush.
pub proof fn lemma_ace_high_straight_flush(h: Hand)
    requires
        h.wf(),
        h.spec_is_flush(),
        ranks_of(h) == seq![10int, 11, 12, 13, 14],
    ensures
        category_of(h) == Category::StraightFlush,
        !low_ace_of(h),
{
    lemma_distinct_ranks(h);
    assert(is_run(singles_of(ranks_of(h))));
}

/// A flush of Ace, Two, Three, Four and Five is a straight flush with the
/// Ace counted low.
pub proof fn lemma_wheel_straight_flush(h: Hand)
    requires
        h.wf(),
        h.spec_is_flush(),
        ranks_of(h) == seq![2int, 3, 4, 5, 14],
    ensures
        category_of(h) == Category::StraightFlush,
        low_ace_of(h),
{
    lemma_distinct_ranks(h);
    let rem = singles_of(ranks_of(h));
    assert(rem[0] - 1 != rem[1]);
    assert(is_run(rem.drop_first()));
}

/// The straight flush from Ace to Five loses to the one from Two to Six.
pub proof fn lemma_wheel_below_six_high(w: Hand, s: Hand)
    requires
        w.wf(),
        w.spec_is_flush(),
        ranks_of(w) == seq![2int, 3, 4, 5, 14],
        s.wf(),
        s.spec_is_flush(),
        ranks_of(s) == seq![2int, 3, 4, 5, 6],
    ensures
        category_of(w) == Category::StraightFlush,
        category_of(s) == Category::StraightFlush,
        hand_cmp(w, s) == Ordering::Less,
{
    lemma_wheel_straight_flush(w);
    lemma_distinct_ranks(s);
    assert(is_run(singles_of(ranks_of(s))));
    assert(strength(w)[0] == strength(s)[0]);
    assert(strength(w)[1] == 0);
    assert(strength(s)[1] == 1);
    assert(strength(w).drop_first()[0] == 0);
    assert(strength(s).drop_first()[0] == 1);
    assert(lex_cmp(strength(w).drop_first(), strength(s).drop_first()) == Ordering::Less);
    assert(lex_cmp(strength(w), strength(s)) == Ordering::Less);
}

/// An Ace never stands inside a straight: a hand holding a King, an Ace and
/// a Two is neither a straight nor a straight flush.
pub proof fn lemma_no_ace_inside_straight(h: Hand)
    requires
        h.wf(),
        ranks_of(h).contains(13),
        ranks_of(h).contains(14),
        ranks_of(h).contains(2),
    ensures
        category_of(h) != Category::Straight,
        category_of(h) != Category::StraightFlush,
{
    let s = ranks_of(h);
    let rem = singles_of(s);
    if groups_of(s).len() == 0 {
        lemma_no_groups(h);
        lemma_singles_count(h);
        lemma_groups_singles(h);
        let a = choose|i: int| 0 <= i < 5 && s[i] == 14;
        let k = choose|i: int| 0 <= i < 5 && s[i] == 13;
        let t = choose|i: int| 0 <= i < 5 && s[i] == 2;
        assert(rem.contains(s[a]));
        assert(rem.contains(s[k]));
        assert(rem.contains(s[t]));
        let ia = choose|i: int| 0 <= i < rem.len() && rem[i] == 14;
        let ik = choose|i: int| 0 <= i < rem.len() && rem[i] == 13;
        let it = choose|i: int| 0 <= i < rem.len() && rem[i] == 2;
        assert(ia == 0) by {
            if ia > 0 {
                assert(rem[0] > rem[ia]);
            }
        }
        // a run down from the Ace ends at Ten, never reaching the Two
        if is_run(rem) {
            lemma_run_values(rem, it);
        }
        // the wheel goes from the Ace straight to the Five, skipping the King
        if is_wheel(rem) {
            assert forall|m: int| 1 <= m < rem.len() implies rem[m] == 6 - m by {
                lemma_run_values(rem.drop_first(), m - 1);
            }
            if ik >= 1 {
                assert(rem[ik] == 6 - ik);
            }
        }
    }
}

proof fn lemma_run_values(r: Seq<int>, m: int)
    requires
        is_run(r),
        0 <= m < r.len(),
    ensures
        r[m] == r[0] - m,
    decreases m,
{
    if m > 0 {
        lemma_run_values(r, m - 1);
        let i = m - 1;
        assert(r[i] - 1 == r[i + 1]);
    }
}

} // verus!
