//! Hands of five cards, kept in ascending card order.

use vstd::prelude::*;
use vstd::string::StringSliceAdditionalSpecFns;
use crate::card::Card;
use crate::text::{cards_of_bytes, cards_of_words, words};

verus! {

/// Five cards in strictly ascending order of `Card::key`, that is by rank and
/// then by suit.
#[derive(Debug, Clone, Copy, PartialEq, Eq)]
pub struct Hand(pub (Card, Card, Card, Card, Card));

/// The keys of the cards `cs`, in the same order.
pub open spec fn keys_of(cs: Seq<Card>) -> Seq<u8> {
    cs.map_values(|c: Card| c.spec_key())
}

/// The text `b` names exactly five cards, no two of them the same.
pub open spec fn names_hand(b: Seq<u8>) -> bool {
    match cards_of_words(words(b)) {
        Some(cs) => cs.len() == 5 && keys_of(cs).no_duplicates(),
        None => false,
    }
}

/// The cards named by the text `b`, in the order of the text.
pub open spec fn named_cards(b: Seq<u8>) -> Seq<Card> {
    cards_of_words(words(b))->Some_0
}

/// The hand that the text `b` names: the named cards, in ascending order.
pub open spec fn hand_of_text(b: Seq<u8>) -> Hand {
    choose|h: Hand| h.wf() && h.keys().to_multiset() == keys_of(named_cards(b)).to_multiset()
}

/// Two strictly ascending sequences with the same elements are equal.
proof fn lemma_ascending_unique(a: Seq<u8>, b: Seq<u8>)
    requires
        forall|i: int, j: int| 0 <= i < j < a.len() ==> a[i] < a[j],
        forall|i: int, j: int| 0 <= i < j < b.len() ==> b[i] < b[j],
        a.to_multiset() == b.to_multiset(),
    ensures
        a == b,
    decreases a.len(),
{
    broadcast use vstd::seq_lib::group_to_multiset_ensures;

    assert(a.len() == a.to_multiset().len());
    assert(b.len() == b.to_multiset().len());
    if a.len() == 0 {
        assert(a =~= b);
    } else {
        let x = a.last();
        let y = b.last();
        assert(a.to_multiset().count(x) > 0) by {
            assert(a.contains(x)) by {
                assert(a[a.len() - 1] == x);
            }
        }
        assert(b.to_multiset().count(y) > 0) by {
            assert(b.contains(y)) by {
                assert(b[b.len() - 1] == y);
            }
        }
        assert(b.contains(x));
        assert(a.contains(y));
        let i = choose|i: int| 0 <= i < b.len() && b[i] == x;
        let j = choose|j: int| 0 <= j < a.len() && a[j] == y;
        assert(x <= y);
        assert(y <= x);
        assert(a.drop_last().push(x) =~= a);
        assert(b.drop_last().push(y) =~= b);
        assert(a.drop_last().to_multiset() =~= a.to_multiset().remove(x));
        assert(b.drop_last().to_multiset() =~= b.to_multiset().remove(y));
        lemma_ascending_unique(a.drop_last(), b.drop_last());
    }
}

/// Cards with the same key are the same card.
pub proof fn lemma_key_injective(c: Card, d: Card)
    requires
        c.spec_key() == d.spec_key(),
    ensures
        c == d,
{
}

/// Two well-formed hands with the same cards are the same hand.
pub proof fn lemma_hand_unique(h: Hand, g: Hand)
    requires
        h.wf(),
        g.wf(),
        h.keys().to_multiset() == g.keys().to_multiset(),
    ensures
        h == g,
{
    lemma_ascending_unique(h.keys(), g.keys());
    assert(h.keys()[0] == g.keys()[0]);
    assert(h.keys()[1] == g.keys()[1]);
    assert(h.keys()[2] == g.keys()[2]);
    assert(h.keys()[3] == g.keys()[3]);
    assert(h.keys()[4] == g.keys()[4]);
    lemma_key_injective(h.0.0, g.0.0);
    lemma_key_injective(h.0.1, g.0.1);
    lemma_key_injective(h.0.2, g.0.2);
    lemma_key_injective(h.0.3, g.0.3);
    lemma_key_injective(h.0.4, g.0.4);
}

/// Card keys run from 8 (Two of Hearts) to 59 (Ace of Spades).
pub proof fn lemma_key_range(c: Card)
    ensures
        8 <= c.spec_key() < 60,
{
}

/// Relies on itertools::sorted: it returns the same keys, in ascending order.
#[verifier::external_body]
fn sorted_keys(keys: Vec<u8>) -> (r: Vec<u8>)
    ensures
        r@.to_multiset() == keys@.to_multiset(),
        forall|i: int, j: int| 0 <= i <= j < r@.len() ==> r@[i] <= r@[j],
{
    itertools::sorted(keys).collect()
}

impl Hand {
    /// The five cards, in stored order.
    pub open spec fn cards(&self) -> Seq<Card> {
        seq![self.0.0, self.0.1, self.0.2, self.0.3, self.0.4]
    }

    /// The keys of the five cards, in stored order.
    pub open spec fn keys(&self) -> Seq<u8> {
        keys_of(self.cards())
    }

    /// The cards are in strictly ascending order of key; in particular no
    /// card occurs twice.
    pub open spec fn wf(&self) -> bool {
        &&& self.0.0.spec_key() < self.0.1.spec_key()
        &&& self.0.1.spec_key() < self.0.2.spec_key()
        &&& self.0.2.spec_key() < self.0.3.spec_key()
        &&& self.0.3.spec_key() < self.0.4.spec_key()
    }

    /// All five cards have the same suit.
    pub open spec fn spec_is_flush(&self) -> bool {
        &&& self.0.1.suit == self.0.0.suit
        &&& self.0.2.suit == self.0.0.suit
        &&& self.0.3.suit == self.0.0.suit
        &&& self.0.4.suit == self.0.0.suit
    }

    /// Builds a hand from five cards given in strictly ascending order.
    pub fn new(c1: Card, c2: Card, c3: Card, c4: Card, c5: Card) -> (r: Result<Self, &'static str>)
        ensures
            r is Ok <==> (c1.spec_key() < c2.spec_key() && c2.spec_key() < c3.spec_key()
                && c3.spec_key() < c4.spec_key() && c4.spec_key() < c5.spec_key()),
            r matches Ok(h) ==> h == Hand((c1, c2, c3, c4, c5)) && h.wf(),
            r matches Err(e) ==> e@ == "Cards are not in order"@,
    {
        if c1.key() < c2.key() && c2.key() < c3.key() && c3.key() < c4.key() && c4.key()
            < c5.key() {
            Ok(Hand((c1, c2, c3, c4, c5)))
        } else {
            Err("Cards are not in order")
        }
    }

    /// Parses five whitespace-separated cards, in any order, into a hand.
    /// Returns `None` where a word is not a card, where there are not
    /// exactly five words, or where a card occurs twice.
    pub fn from_str(s: &str) -> (r: Option<Self>)
        ensures
            r is Some <==> names_hand(s.spec_bytes()),
            r matches Some(h) ==> h.wf() && h.keys().to_multiset() == keys_of(
                named_cards(s.spec_bytes()),
            ).to_multiset() && h == hand_of_text(s.spec_bytes()),
    {
        let cards = match cards_of_bytes(s.as_bytes()) {
            Some(v) => v,
            None => return None,
        };
        if cards.len() != 5 {
            return None;
        }
        let mut keys: Vec<u8> = Vec::new();
        let mut i: usize = 0;
        while i < 5
            invariant
                i <= 5,
                cards@.len() == 5,
                keys@ == keys_of(cards@).take(i as int),
            decreases 5 - i,
        {
            keys.push(cards[i].key());
            i = i + 1;
            assert(keys@ =~= keys_of(cards@).take(i as int));
        }
        assert(keys@ =~= keys_of(cards@));
        let ghost k = keys@;
        let sorted = sorted_keys(keys);
        proof {
            broadcast use vstd::seq_lib::group_to_multiset_ensures;

            assert(sorted@.len() == 5) by {
                assert(sorted@.len() == sorted@.to_multiset().len());
                assert(k.len() == k.to_multiset().len());
            }
            assert forall|j: int| 0 <= j < 5 implies 8 <= #[trigger] sorted@[j] < 60 by {
                assert(sorted@.to_multiset().count(sorted@[j]) > 0);
                assert(k.contains(sorted@[j]));
                let m = choose|m: int| 0 <= m < k.len() && k[m] == sorted@[j];
                lemma_key_range(cards@[m]);
            }
            if k.no_duplicates() {
                k.lemma_multiset_has_no_duplicates();
                sorted@.lemma_multiset_has_no_duplicates_conv();
            } else {
                if sorted@[0] < sorted@[1] && sorted@[1] < sorted@[2] && sorted@[2] < sorted@[3]
                    && sorted@[3] < sorted@[4] {
                    assert(sorted@.no_duplicates());
                    sorted@.lemma_multiset_has_no_duplicates();
                    k.lemma_multiset_has_no_duplicates_conv();
                }
            }
        }
        let h = Hand::new(
            Card::from_key(sorted[0]),
            Card::from_key(sorted[1]),
            Card::from_key(sorted[2]),
            Card::from_key(sorted[3]),
            Card::from_key(sorted[4]),
        );
        match h {
            Ok(h) => {
                assert(h.keys() =~= sorted@);
                proof {
                    let b = s.spec_bytes();
                    assert(keys_of(named_cards(b)) == k);
                    let g = hand_of_text(b);
                    assert(g.wf() && g.keys().to_multiset() == keys_of(named_cards(b)).to_multiset());
                    lemma_hand_unique(h, g);
                }
                Some(h)
            },
            Err(_) => None,
        }
    }

    /// Whether all five cards share one suit.
    pub fn is_flush(&self) -> (r: bool)
        ensures
            r == self.spec_is_flush(),
    {
        let cards = self.0;
        cards.1.suit == cards.0.suit && cards.2.suit == cards.0.suit && cards.3.suit
            == cards.0.suit && cards.4.suit == cards.0.suit
    }
}

} // verus!
