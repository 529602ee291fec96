//! Hand text: cards separated by whitespace.

use vstd::prelude::*;
use crate::card::{Card, Rank, Suit, card_of_text, card_of_bytes, card_text};
use crate::hand::Hand;

verus! {

/// ASCII whitespace: space, tab, line feed, vertical tab, form feed and
/// carriage return.
pub open spec fn is_ascii_space(c: u8) -> bool {
    c == 32 || (9 <= c && c <= 13)
}

/// The byte `c` can begin the UTF-8 encoding of a whitespace character.
pub open spec fn starts_space(c: u8) -> bool {
    is_ascii_space(c) || c == 0xC2 || c == 0xE1 || c == 0xE2 || c == 0xE3
}

/// The length in bytes of the whitespace character that `b` begins with, or
/// 0 where it begins with none. Whitespace is Unicode's White_Space
/// property, in UTF-8: the ASCII whitespace, U+0085, U+00A0, U+1680,
/// U+2000 to U+200A, U+2028, U+2029, U+202F, U+205F and U+3000.
pub open spec fn space_len(b: Seq<u8>) -> nat {
    if b.len() >= 1 && is_ascii_space(b[0]) {
        1
    } else if b.len() >= 2 && b[0] == 0xC2 && (b[1] == 0x85 || b[1] == 0xA0) {
        2
    } else if b.len() >= 3 && b[0] == 0xE1 && b[1] == 0x9A && b[2] == 0x80 {
        3
    } else if b.len() >= 3 && b[0] == 0xE2 && b[1] == 0x80 && ((0x80 <= b[2] && b[2] <= 0x8A)
        || b[2] == 0xA8 || b[2] == 0xA9 || b[2] == 0xAF) {
        3
    } else if b.len() >= 3 && b[0] == 0xE2 && b[1] == 0x81 && b[2] == 0x9F {
        3
    } else if b.len() >= 3 && b[0] == 0xE3 && b[1] == 0x80 && b[2] == 0x80 {
        3
    } else {
        0
    }
}

/// The words of `b` when `cur` holds the bytes of a word already begun:
/// the maximal runs of characters that are not whitespace, in order.
pub open spec fn split_from(b: Seq<u8>, cur: Seq<u8>) -> Seq<Seq<u8>>
    decreases b.len(),
{
    if b.len() == 0 {
        if cur.len() == 0 {
            seq![]
        } else {
            seq![cur]
        }
    } else if space_len(b) > 0 {
        if cur.len() == 0 {
            split_from(b.skip(space_len(b) as int), seq![])
        } else {
            seq![cur] + split_from(b.skip(space_len(b) as int), seq![])
        }
    } else {
        split_from(b.drop_first(), cur.push(b[0]))
    }
}

/// The length of the whitespace character that `b[i..]` begins with, or 0.
fn space_len_at(b: &[u8], i: usize) -> (n: usize)
    requires
        i < b@.len(),
    ensures
        n == space_len(b@.skip(i as int)),
{
    let left = b.len() - i;
    let c = b[i];
    if c == 32 || (9 <= c && c <= 13) {
        1
    } else if left >= 2 && c == 0xC2 && (b[i + 1] == 0x85 || b[i + 1] == 0xA0) {
        2
    } else if left >= 3 && c == 0xE1 && b[i + 1] == 0x9A && b[i + 2] == 0x80 {
        3
    } else if left >= 3 && c == 0xE2 && b[i + 1] == 0x80 && ((0x80 <= b[i + 2] && b[i + 2]
        <= 0x8A) || b[i + 2] == 0xA8 || b[i + 2] == 0xA9 || b[i + 2] == 0xAF) {
        3
    } else if left >= 3 && c == 0xE2 && b[i + 1] == 0x81 && b[i + 2] == 0x9F {
        3
    } else if left >= 3 && c == 0xE3 && b[i + 1] == 0x80 && b[i + 2] == 0x80 {
        3
    } else {
        0
    }
}

/// The words of `b`: its maximal runs of characters that are not whitespace.
pub open spec fn words(b: Seq<u8>) -> Seq<Seq<u8>> {
    split_from(b, seq![])
}

/// The cards that the words `ws` name, if every one of them names a card.
pub open spec fn cards_of_words(ws: Seq<Seq<u8>>) -> Option<Seq<Card>>
    decreases ws.len(),
{
    if ws.len() == 0 {
        Some(seq![])
    } else {
        match (cards_of_words(ws.drop_last()), card_of_text(ws.last())) {
            (Some(cs), Some(c)) => Some(cs.push(c)),
            _ => None,
        }
    }
}

proof fn lemma_cards_of_words_none(p: Seq<Seq<u8>>, q: Seq<Seq<u8>>)
    requires
        cards_of_words(p) is None,
    ensures
        cards_of_words(p + q) is None,
    decreases q.len(),
{
    if q.len() == 0 {
        assert(p + q =~= p);
    } else {
        lemma_cards_of_words_none(p, q.drop_last());
        assert((p + q).drop_last() =~= p + q.drop_last());
    }
}

/// The cards named by the words of `b[..]`, or `None` where a word names
/// no card.
pub fn cards_of_bytes(b: &[u8]) -> (r: Option<Vec<Card>>)
    ensures
        match r {
            Some(v) => cards_of_words(words(b@)) == Some(v@),
            None => cards_of_words(words(b@)) is None,
        },
{
    let mut cards: Vec<Card> = Vec::new();
    let ghost mut done: Seq<Seq<u8>> = seq![];
    let mut start: usize = 0;
    let mut i: usize = 0;
    assert(b@.skip(0) =~= b@);
    assert(b@.subrange(0, 0) =~= Seq::<u8>::empty());
    while i < b.len()
        invariant
            start <= i <= b@.len(),
            cards_of_words(done) == Some(cards@),
            words(b@) == done + split_from(b@.skip(i as int), b@.subrange(start as int, i as int)),
        decreases b@.len() - i,
    {
        let ghost cur = b@.subrange(start as int, i as int);
        let ghost rest = b@.skip(i as int);
        let n = space_len_at(b, i);
        if n > 0 {
            let ghost after = split_from(b@.skip(i + n), seq![]);
            assert(rest.skip(n as int) =~= b@.skip(i + n));
            if start < i {
                match card_of_bytes(b, start, i) {
                    Some(c) => {
                        proof {
                            assert(done + split_from(rest, cur) =~= done.push(cur) + after);
                            assert(done.push(cur).drop_last() =~= done);
                            done = done.push(cur);
                        }
                        cards.push(c);
                    },
                    None => {
                        proof {
                            assert(done.push(cur).drop_last() =~= done);
                            lemma_cards_of_words_none(done.push(cur), after);
                            assert(done + split_from(rest, cur) =~= done.push(cur) + after);
                        }
                        return None;
                    },
                }
            } else {
                assert(cur.len() == 0);
            }
            start = i + n;
            i = i + n;
            assert(b@.subrange(start as int, i as int) =~= Seq::<u8>::empty());
        } else {
            assert(rest.drop_first() =~= b@.skip(i + 1));
            assert(rest[0] == b@[i as int]);
            assert(b@.subrange(start as int, i + 1) =~= cur.push(b@[i as int]));
            i = i + 1;
        }
    }
    let ghost cur = b@.subrange(start as int, i as int);
    if start < i {
        match card_of_bytes(b, start, i) {
            Some(c) => {
                proof {
                    assert(done.push(cur).drop_last() =~= done);
                    assert(done + split_from(b@.skip(i as int), cur) =~= done.push(cur));
                }
                cards.push(c);
            },
            None => {
                proof {
                    assert(done.push(cur).drop_last() =~= done);
                    assert(done + split_from(b@.skip(i as int), cur) =~= done.push(cur));
                }
                return None;
            },
        }
    } else {
        assert(done + split_from(b@.skip(i as int), cur) =~= done);
    }
    Some(cards)
}

/// No byte of `w` can begin a whitespace character.
pub open spec fn no_space(w: Seq<u8>) -> bool {
    forall|i: int| 0 <= i < w.len() ==> !starts_space(#[trigger] w[i])
}

/// The words `ws` joined by single spaces.
pub open spec fn join_words(ws: Seq<Seq<u8>>) -> Seq<u8>
    decreases ws.len(),
{
    if ws.len() == 0 {
        seq![]
    } else if ws.len() == 1 {
        ws[0]
    } else {
        ws[0] + seq![32u8] + join_words(ws.drop_first())  // a space
    }
}

/// The text of a hand: the texts of its cards in stored order, separated by
/// single spaces.
pub open spec fn hand_text(h: Hand) -> Seq<u8> {
    join_words(h.cards().map_values(|c: Card| card_text(c)))
}

proof fn lemma_join_push(ws: Seq<Seq<u8>>, w: Seq<u8>)
    requires
        ws.len() > 0,
    ensures
        join_words(ws.push(w)) == join_words(ws) + seq![32u8] + w,
    decreases ws.len(),
{
    if ws.len() == 1 {
        assert(ws.push(w).drop_first() =~= seq![w]);
        assert(ws.push(w)[0] == ws[0]);
        assert(join_words(seq![w]) == w);
        assert(join_words(ws) == ws[0]);
    } else {
        lemma_join_push(ws.drop_first(), w);
        assert(ws.push(w).drop_first() =~= ws.drop_first().push(w));
        assert(ws.push(w)[0] == ws[0]);
        let a = ws[0] + seq![32u8];
        assert(join_words(ws.push(w)) == a + join_words(ws.drop_first().push(w)));
        assert(join_words(ws) == a + join_words(ws.drop_first()));
        assert(a + (join_words(ws.drop_first()) + seq![32u8] + w) =~= a + join_words(
            ws.drop_first(),
        ) + seq![32u8] + w);
    }
}

impl Hand {
    /// The text of the hand: its cards in stored order, separated by single
    /// spaces, as bytes.
    pub fn to_bytes(&self) -> (r: Vec<u8>)
        ensures
            r@ == hand_text(*self),
    {
        let ghost ws = self.cards().map_values(|c: Card| card_text(c));
        let mut out: Vec<u8> = Vec::new();
        push_card_text(&mut out, self.0.0);
        assert(ws.take(1) =~= seq![ws[0]]);
        assert(out@ =~= join_words(ws.take(1)));
        let mut i: usize = 1;
        while i < 5
            invariant
                1 <= i <= 5,
                ws == self.cards().map_values(|c: Card| card_text(c)),
                out@ == join_words(ws.take(i as int)),
            decreases 5 - i,
        {
            out.push(32);  // ' '
            push_card_text(&mut out, self.card(i));
            proof {
                assert(ws.take(i + 1) =~= ws.take(i as int).push(ws[i as int]));
                lemma_join_push(ws.take(i as int), ws[i as int]);
            }
            i = i + 1;
        }
        assert(ws.take(5) =~= ws);
        out
    }
}

/// Appends the text of the card `c` to `out`.
fn push_card_text(out: &mut Vec<u8>, c: Card)
    ensures
        final(out)@ == old(out)@ + card_text(c),
{
    let ghost start = out@;
    match c.rank {
        Rank::Two => out.push(50),  // '2'
        Rank::Three => out.push(51),  // '3'
        Rank::Four => out.push(52),  // '4'
        Rank::Five => out.push(53),  // '5'
        Rank::Six => out.push(54),  // '6'
        Rank::Seven => out.push(55),  // '7'
        Rank::Eight => out.push(56),  // '8'
        Rank::Nine => out.push(57),  // '9'
        Rank::Ten => {
            out.push(49);  // '1'
            out.push(48);  // '0'
        },
        Rank::Jack => out.push(74),  // 'J'
        Rank::Queen => out.push(81),  // 'Q'
        Rank::King => out.push(75),  // 'K'
        Rank::Ace => out.push(65),  // 'A'
    }
    match c.suit {
        Suit::Hearts => out.push(72),  // 'H'
        Suit::Diamonds => out.push(68),  // 'D'
        Suit::Clubs => out.push(67),  // 'C'
        Suit::Spades => out.push(83),  // 'S'
    }
    assert(out@ =~= start + card_text(c));
}

} // verus!
