//! Picking the winning hands out of a list.

use vstd::prelude::*;
use vstd::string::StringSliceAdditionalSpecFns;
use std::cmp::Ordering;
use crate::hand::{Hand, hand_of_text, names_hand};
use crate::order::{hand_cmp, lemma_hand_order};

verus! {

/// The hand that the text `s` names.
pub open spec fn hand_of(s: &str) -> Hand {
    hand_of_text(s.spec_bytes())
}

/// The hand of `s` is beaten by none of the hands of `hs`.
pub open spec fn wins_among<'a>(hs: Seq<&'a str>) -> spec_fn(&'a str) -> bool {
    |s: &'a str| forall|j: int| 0 <= j < hs.len() ==> hand_cmp(hand_of(s), hand_of(#[trigger] hs[j])) != Ordering::Less
}

/// Returns, in their order, the hands that no other hand of `hands` beats:
/// the hands tied for best. The strings returned are the ones given, not
/// copies. An empty list has no winners.
///
/// Every entry must name a hand (see `Hand::from_str`): a malformed entry is
/// the caller's error for the whole list, not one to be skipped.
pub fn winning_hands<'a>(hands: &[&'a str]) -> (r: Vec<&'a str>)
    requires
        forall|i: int| 0 <= i < hands@.len() ==> names_hand(#[trigger] hands@[i].spec_bytes()),
    ensures
        r@ == hands@.filter(wins_among(hands@)),
{
    let n = hands.len();
    let mut parsed: Vec<Hand> = Vec::new();
    let mut i: usize = 0;
    while i < n
        invariant
            n == hands@.len(),
            i <= n,
            forall|k: int| 0 <= k < hands@.len() ==> names_hand(#[trigger] hands@[k].spec_bytes()),
            parsed@.len() == i,
            forall|k: int| 0 <= k < i ==> #[trigger] parsed@[k] == hand_of(hands@[k]) && parsed@[k].wf(),
        decreases n - i,
    {
        parsed.push(Hand::from_str(hands[i]).unwrap());
        i = i + 1;
    }
    if n == 0 {
        proof {
            reveal(Seq::filter);
        }
        return Vec::new();
    }
    let mut best: usize = 0;
    let mut i: usize = 1;
    proof {
        lemma_hand_order(parsed@[0], parsed@[0], parsed@[0]);
    }
    while i < n
        invariant
            n == hands@.len(),
            parsed@.len() == n,
            forall|k: int| 0 <= k < n ==> #[trigger] parsed@[k] == hand_of(hands@[k]) && parsed@[k].wf(),
            1 <= i <= n,
            best < i,
            forall|k: int| 0 <= k < i ==> hand_cmp(#[trigger] parsed@[k], parsed@[best as int]) != Ordering::Greater,
        decreases n - i,
    {
        let o = parsed[i].compare(&parsed[best]);
        match o {
            Ordering::Greater => {
                proof {
                    assert forall|k: int| 0 <= k < i + 1 implies hand_cmp(
                        #[trigger] parsed@[k],
                        parsed@[i as int],
                    ) != Ordering::Greater by {
                        lemma_hand_order(parsed@[k], parsed@[best as int], parsed@[i as int]);
                        lemma_hand_order(parsed@[best as int], parsed@[i as int], parsed@[k]);
                        lemma_hand_order(parsed@[i as int], parsed@[k], parsed@[best as int]);
                    }
                }
                best = i;
            },
            _ => {
                proof {
                    lemma_hand_order(parsed@[i as int], parsed@[best as int], parsed@[best as int]);
                }
            },
        }
        i = i + 1;
    }
    let mut winners: Vec<&'a str> = Vec::new();
    let mut i: usize = 0;
    while i < n
        invariant
            n == hands@.len(),
            parsed@.len() == n,
            forall|k: int| 0 <= k < n ==> #[trigger] parsed@[k] == hand_of(hands@[k]) && parsed@[k].wf(),
            best < n,
            forall|k: int| 0 <= k < n ==> hand_cmp(#[trigger] parsed@[k], parsed@[best as int]) != Ordering::Greater,
            i <= n,
            winners@ == hands@.take(i as int).filter(wins_among(hands@)),
        decreases n - i,
    {
        let o = parsed[i].compare(&parsed[best]);
        proof {
            assert(hands@.take(i + 1) =~= hands@.take(i as int).push(hands@[i as int]));
            hands@.take(i as int).lemma_filter_push(hands@[i as int], wins_among(hands@));
            let h = parsed@[i as int];
            let m = parsed@[best as int];
            if o == Ordering::Equal {
                assert forall|j: int| 0 <= j < hands@.len() implies hand_cmp(
                    hand_of(hands@[i as int]),
                    hand_of(#[trigger] hands@[j]),
                ) != Ordering::Less by {
                    assert(parsed@[j] == hand_of(hands@[j]));
                    lemma_hand_order(h, m, parsed@[j]);
                    lemma_hand_order(parsed@[j], m, h);
                }
            } else {
                lemma_hand_order(h, m, h);
                assert(hand_cmp(hand_of(hands@[i as int]), hand_of(hands@[best as int])) == Ordering::Less);
            }
        }
        match o {
            Ordering::Equal => {
                winners.push(hands[i]);
            },
            _ => {},
        }
        i = i + 1;
    }
    assert(hands@.take(n as int) =~= hands@);
    winners
}

} // verus!
