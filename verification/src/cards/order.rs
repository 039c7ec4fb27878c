//! How evaluated hands compare: by strength first, then value by value.
use vstd::prelude::*;

use core::cmp::Ordering;
use vstd::std_specs::cmp::PartialEqSpecImpl;
use vstd::std_specs::cmp::PartialOrdSpecImpl;

use super::{strength_rank, value_rank, CardValue, EvaluatedHand, HandStrength};

verus! {

/// Compares five values from position `i` on: -1, 0 or 1.
pub open spec fn values_order(a: Seq<u8>, b: Seq<u8>, i: int) -> int
    decreases 5 - i,
{
    if i >= 5 || i < 0 {
        0
    } else if a[i] < b[i] {
        -1
    } else if a[i] > b[i] {
        1
    } else {
        values_order(a, b, i + 1)
    }
}

/// Compares two evaluated hands: -1 when `a` is weaker, 1 when it is
/// stronger, 0 when they tie.
pub open spec fn hand_order(a: (HandStrength, Seq<u8>), b: (HandStrength, Seq<u8>)) -> int {
    if strength_rank(a.0) < strength_rank(b.0) {
        -1
    } else if strength_rank(a.0) > strength_rank(b.0) {
        1
    } else {
        values_order(a.1, b.1, 0)
    }
}

pub open spec fn ordering_of(c: int) -> Ordering {
    if c < 0 {
        Ordering::Less
    } else if c > 0 {
        Ordering::Greater
    } else {
        Ordering::Equal
    }
}

fn strength_index(h: HandStrength) -> (r: u8)
    ensures
        r == strength_rank(h),
{
    match h {
        HandStrength::HighCard => 0,
        HandStrength::OnePair => 1,
        HandStrength::TwoPair => 2,
        HandStrength::ThreeOfAKind => 3,
        HandStrength::Straight => 4,
        HandStrength::Flush => 5,
        HandStrength::FullHouse => 6,
        HandStrength::FourOfAKind => 7,
        HandStrength::StraightFlush => 8,
        HandStrength::RoyalFlush => 9,
    }
}

impl EvaluatedHand {
    /// -1, 0 or 1 as this hand is weaker than, ties with or beats `other`.
    pub fn compare(&self, other: &Self) -> (c: i8)
        ensures
            c == hand_order(self@, other@),
    {
        let a = strength_index(self.0);
        let b = strength_index(other.0);
        if a < b {
            return -1;
        }
        if a > b {
            return 1;
        }
        let mut i: usize = 5;
        let mut c: i8 = 0;
        while i > 0
            invariant
                i <= 5,
                self@.1.len() == 5,
                other@.1.len() == 5,
                c == values_order(self@.1, other@.1, i as int),
                self@ == (self.0, self.1@.map_values(|v: CardValue| value_rank(v))),
                other@ == (other.0, other.1@.map_values(|v: CardValue| value_rank(v))),
            decreases i,
        {
            i = i - 1;
            let x = self.1[i].rank();
            let y = other.1[i].rank();
            if x < y {
                c = -1;
            } else if x > y {
                c = 1;
            }
        }
        c
    }
}

impl PartialEq for EvaluatedHand {
    fn eq(&self, other: &Self) -> (r: bool) {
        let same = self.compare(other) == 0 && self.0 == other.0;
        proof {
            lemma_order_zero_same(self@, other@);
        }
        same
    }
}

impl PartialEqSpecImpl for EvaluatedHand {
    open spec fn obeys_eq_spec() -> bool {
        true
    }

    open spec fn eq_spec(&self, other: &Self) -> bool {
        self@ == other@
    }
}

impl Eq for EvaluatedHand {

}

impl PartialOrd for EvaluatedHand {
    fn partial_cmp(&self, other: &Self) -> (r: Option<Ordering>) {
        let c = self.compare(other);
        if c < 0 {
            Some(Ordering::Less)
        } else if c > 0 {
            Some(Ordering::Greater)
        } else {
            Some(Ordering::Equal)
        }
    }
}

impl PartialOrdSpecImpl for EvaluatedHand {
    open spec fn obeys_partial_cmp_spec() -> bool {
        true
    }

    open spec fn partial_cmp_spec(&self, other: &Self) -> Option<Ordering> {
        Some(ordering_of(hand_order(self@, other@)))
    }
}

/// Two hands of five values tie exactly when they are the same hand.
pub proof fn lemma_order_zero_same(a: (HandStrength, Seq<u8>), b: (HandStrength, Seq<u8>))
    requires
        a.1.len() == 5,
        b.1.len() == 5,
    ensures
        (hand_order(a, b) == 0 && a.0 == b.0) <==> a == b,
{
    if hand_order(a, b) == 0 && a.0 == b.0 {
        lemma_values_order_zero(a.1, b.1, 0);
        assert(a.1 =~= b.1);
    }
    if a == b {
        lemma_values_order_refl(a.1, 0);
    }
}

proof fn lemma_values_order_zero(a: Seq<u8>, b: Seq<u8>, i: int)
    requires
        a.len() == 5,
        b.len() == 5,
        0 <= i <= 5,
        values_order(a, b, i) == 0,
    ensures
        forall|k: int| i <= k < 5 ==> a[k] == b[k],
    decreases 5 - i,
{
    if i < 5 {
        lemma_values_order_zero(a, b, i + 1);
    }
}

proof fn lemma_values_order_refl(a: Seq<u8>, i: int)
    requires
        0 <= i <= 5,
    ensures
        values_order(a, a, i) == 0,
    decreases 5 - i,
{
    if i < 5 {
        lemma_values_order_refl(a, i + 1);
    }
}

proof fn lemma_values_order_antisym(a: Seq<u8>, b: Seq<u8>, i: int)
    requires
        0 <= i <= 5,
    ensures
        values_order(a, b, i) == -values_order(b, a, i),
    decreases 5 - i,
{
    if i < 5 {
        lemma_values_order_antisym(a, b, i + 1);
    }
}

proof fn lemma_values_order_trans(a: Seq<u8>, b: Seq<u8>, c: Seq<u8>, i: int)
    requires
        0 <= i <= 5,
        values_order(a, b, i) <= 0,
        values_order(b, c, i) <= 0,
    ensures
        values_order(a, c, i) <= 0,
        values_order(a, b, i) < 0 || values_order(b, c, i) < 0 ==> values_order(a, c, i) < 0,
    decreases 5 - i,
{
    if i < 5 && a[i] == b[i] && b[i] == c[i] {
        lemma_values_order_trans(a, b, c, i + 1);
    }
}

/// Comparing hands is antisymmetric: swapping the hands flips the result.
pub proof fn lemma_hand_order_antisymmetric(a: (HandStrength, Seq<u8>), b: (HandStrength, Seq<u8>))
    ensures
        hand_order(a, b) == -hand_order(b, a),
        hand_order(a, a) == 0,
{
    lemma_values_order_antisym(a.1, b.1, 0);
    lemma_values_order_refl(a.1, 0);
}

/// Comparing hands is transitive: a hand no stronger than a second, which is
/// no stronger than a third, is no stronger than the third.
pub proof fn lemma_hand_order_transitive(
    a: (HandStrength, Seq<u8>),
    b: (HandStrength, Seq<u8>),
    c: (HandStrength, Seq<u8>),
)
    requires
        hand_order(a, b) <= 0,
        hand_order(b, c) <= 0,
    ensures
        hand_order(a, c) <= 0,
        hand_order(a, b) < 0 || hand_order(b, c) < 0 ==> hand_order(a, c) < 0,
{
    if strength_rank(a.0) == strength_rank(b.0) && strength_rank(b.0) == strength_rank(c.0) {
        lemma_values_order_trans(a.1, b.1, c.1, 0);
    }
}

/// A stronger kind of hand beats a weaker one whatever the card values.
/// The kinds of hand rank in the order they are declared: high card, one
/// pair, two pair, three of a kind, straight, flush, full house, four of a
/// kind, straight flush, royal flush; a hand of a later kind beats any hand of
/// an earlier kind, so a flush beats a straight.
pub proof fn law_kinds_rank_in_declared_order(a: (HandStrength, Seq<u8>), b: (HandStrength, Seq<u8>))
    ensures
        strength_rank(HandStrength::HighCard) == 0,
        strength_rank(HandStrength::OnePair) == 1,
        strength_rank(HandStrength::TwoPair) == 2,
        strength_rank(HandStrength::ThreeOfAKind) == 3,
        strength_rank(HandStrength::Straight) == 4,
        strength_rank(HandStrength::Flush) == 5,
        strength_rank(HandStrength::FullHouse) == 6,
        strength_rank(HandStrength::FourOfAKind) == 7,
        strength_rank(HandStrength::StraightFlush) == 8,
        strength_rank(HandStrength::RoyalFlush) == 9,
        a.0 == HandStrength::Flush && b.0 == HandStrength::Straight ==> hand_order(a, b) == 1 && hand_order(b, a) == -1,
        a.0 == HandStrength::FullHouse && b.0 == HandStrength::Flush ==> hand_order(a, b) == 1,
        a.0 == HandStrength::Straight && b.0 == HandStrength::ThreeOfAKind ==> hand_order(a, b) == 1,
        a.0 == HandStrength::FourOfAKind && b.0 == HandStrength::FullHouse ==> hand_order(a, b) == 1,
        a.0 == HandStrength::TwoPair && b.0 == HandStrength::OnePair ==> hand_order(a, b) == 1,
        a.0 == HandStrength::RoyalFlush && b.0 != HandStrength::RoyalFlush ==> hand_order(a, b) == 1,
        a.0 == HandStrength::HighCard && b.0 != HandStrength::HighCard ==> hand_order(a, b) == -1,
{
}

pub proof fn lemma_stronger_kind_wins(a: (HandStrength, Seq<u8>), b: (HandStrength, Seq<u8>))
    requires
        strength_rank(a.0) > strength_rank(b.0),
    ensures
        hand_order(a, b) == 1,
{
}

} // verus!
