use vstd::prelude::*;
use rand::seq::SliceRandom;

pub mod eval;
pub mod order;

use eval::{
    count_is, first_count, first_run, full_house_partner, full_house_value, has_run, high_low,
    others, second_pair, straight_flush_suit_from, sum_above, two_pair_value, desc_values, distinct_desc, distinct_values, evaluable, evaluation, find_run,
    first_with_count, five_of_suit, flush_suit_of, full_house_of, full_house_partner_of,
    high_low_values, lemma_desc_shape, lemma_first_index_bounds, lemma_high_low_shape,
    lemma_others_len, lemma_top_index_bounds, lemma_value_row_sum, others_row, others_values, pair_partner_of,
    pair_with_partner, presence_row, royal_suit_of, second_pair_of, straight_flush_suit_of,
    suit_list, suit_lists, suit_row, trips_with_partner, two_pair_of, unshift, unshift_exec,
    value_counts,
};

verus! {

/// The four suits, in the order in which the game ranks them.
#[derive(Debug, Clone, Copy, PartialEq, Eq, Structural)]
pub enum CardSuite {
    Hearts,
    Diamonds,
    Clubs,
    Spades,
}

/// The thirteen card values, from lowest to highest.
#[derive(Debug, Clone, Copy, PartialEq, Eq, Structural)]
pub enum CardValue {
    Two,
    Three,
    Four,
    Five,
    Six,
    Seven,
    Eight,
    Nine,
    Ten,
    Jack,
    Queen,
    King,
    Ace,
}

#[derive(Debug, Clone, Copy, PartialEq, Eq, Structural)]
pub struct Card {
    pub suite: CardSuite,
    pub value: CardValue,
}

/// The kinds of poker hand, from weakest to strongest.
#[derive(Debug, Clone, Copy, PartialEq, Eq, Structural)]
pub enum HandStrength {
    HighCard,
    OnePair,
    TwoPair,
    ThreeOfAKind,
    Straight,
    Flush,
    FullHouse,
    FourOfAKind,
    StraightFlush,
    RoyalFlush,
}

pub open spec fn strength_rank(h: HandStrength) -> int {
    match h {
        HandStrength::HighCard => 0,
        HandStrength::OnePair => 1,
        HandStrength::TwoPair => 2,
        HandStrength::ThreeOfAKind => 3,
        HandStrength::Straight => 4,
        HandStrength::Flush => 5,
        HandStrength::FullHouse => 6,
        HandStrength::FourOfAKind => 7,
        HandStrength::StraightFlush => 8,
        HandStrength::RoyalFlush => 9,
    }
}

/// Position of a suit in suit order (Hearts is 0, Spades is 3).
pub open spec fn suit_rank(s: CardSuite) -> int {
    match s {
        CardSuite::Hearts => 0,
        CardSuite::Diamonds => 1,
        CardSuite::Clubs => 2,
        CardSuite::Spades => 3,
    }
}

pub open spec fn suit_of_rank(r: int) -> CardSuite {
    if r == 0 {
        CardSuite::Hearts
    } else if r == 1 {
        CardSuite::Diamonds
    } else if r == 2 {
        CardSuite::Clubs
    } else {
        CardSuite::Spades
    }
}

/// Position of a value in value order (Two is 0, Ace is 12).
pub open spec fn value_rank(v: CardValue) -> u8 {
    match v {
        CardValue::Two => 0,
        CardValue::Three => 1,
        CardValue::Four => 2,
        CardValue::Five => 3,
        CardValue::Six => 4,
        CardValue::Seven => 5,
        CardValue::Eight => 6,
        CardValue::Nine => 7,
        CardValue::Ten => 8,
        CardValue::Jack => 9,
        CardValue::Queen => 10,
        CardValue::King => 11,
        CardValue::Ace => 12,
    }
}

pub open spec fn value_of_rank(r: u8) -> CardValue {
    if r == 0 {
        CardValue::Two
    } else if r == 1 {
        CardValue::Three
    } else if r == 2 {
        CardValue::Four
    } else if r == 3 {
        CardValue::Five
    } else if r == 4 {
        CardValue::Six
    } else if r == 5 {
        CardValue::Seven
    } else if r == 6 {
        CardValue::Eight
    } else if r == 7 {
        CardValue::Nine
    } else if r == 8 {
        CardValue::Ten
    } else if r == 9 {
        CardValue::Jack
    } else if r == 10 {
        CardValue::Queen
    } else if r == 11 {
        CardValue::King
    } else {
        CardValue::Ace
    }
}

/// A value's rank leads back to the value, and ranks run from 0 to 12.
pub proof fn lemma_value_rank_roundtrip(v: CardValue)
    ensures
        value_of_rank(value_rank(v)) == v,
        value_rank(v) < 13,
{
}

/// Each rank from 0 to 12 is the rank of its value.
pub proof fn lemma_rank_value_roundtrip(r: u8)
    requires
        r < 13,
    ensures
        value_rank(value_of_rank(r)) == r,
{
}

impl CardSuite {
    pub fn rank(&self) -> (r: u8)
        ensures
            r == suit_rank(*self),
    {
        match self {
            CardSuite::Hearts => 0,
            CardSuite::Diamonds => 1,
            CardSuite::Clubs => 2,
            CardSuite::Spades => 3,
        }
    }

    pub fn from_rank(r: u8) -> (s: CardSuite)
        requires
            r < 4,
        ensures
            s == suit_of_rank(r as int),
            suit_rank(s) == r,
    {
        if r == 0 {
            CardSuite::Hearts
        } else if r == 1 {
            CardSuite::Diamonds
        } else if r == 2 {
            CardSuite::Clubs
        } else {
            CardSuite::Spades
        }
    }
}

impl CardValue {
    pub fn rank(&self) -> (r: u8)
        ensures
            r == value_rank(*self),
            r < 13,
    {
        match self {
            CardValue::Two => 0,
            CardValue::Three => 1,
            CardValue::Four => 2,
            CardValue::Five => 3,
            CardValue::Six => 4,
            CardValue::Seven => 5,
            CardValue::Eight => 6,
            CardValue::Nine => 7,
            CardValue::Ten => 8,
            CardValue::Jack => 9,
            CardValue::Queen => 10,
            CardValue::King => 11,
            CardValue::Ace => 12,
        }
    }

    pub fn from_rank(r: u8) -> (v: CardValue)
        requires
            r < 13,
        ensures
            v == value_of_rank(r),
            value_rank(v) == r,
    {
        if r == 0 {
            CardValue::Two
        } else if r == 1 {
            CardValue::Three
        } else if r == 2 {
            CardValue::Four
        } else if r == 3 {
            CardValue::Five
        } else if r == 4 {
            CardValue::Six
        } else if r == 5 {
            CardValue::Seven
        } else if r == 6 {
            CardValue::Eight
        } else if r == 7 {
            CardValue::Nine
        } else if r == 8 {
            CardValue::Ten
        } else if r == 9 {
            CardValue::Jack
        } else if r == 10 {
            CardValue::Queen
        } else if r == 11 {
            CardValue::King
        } else {
            CardValue::Ace
        }
    }
}

/// The card at position `i` of an ordered deck: suits in suit order, each
/// suit running from Two to Ace.
pub open spec fn ordered_card(i: int) -> Card {
    Card { suite: suit_of_rank(i / 13), value: value_of_rank((i % 13) as u8) }
}

pub open spec fn ordered_deck() -> Seq<Card> {
    Seq::new(52, |i: int| ordered_card(i))
}

/// A deck of cards; cards are dealt from its end.
#[derive(Debug)]
pub struct Deck(Vec<Card>);

impl Clone for Deck {
    fn clone(&self) -> (deck: Self)
        ensures
            deck@ == self@,
    {
        let cards = self.0.clone();
        assert(cards@ =~= self.0@);
        Deck(cards)
    }
}

impl View for Deck {
    type V = Seq<Card>;

    closed spec fn view(&self) -> Seq<Card> {
        self.0@
    }
}

/// `rand`'s `SliceRandom::shuffle` with the thread-local generator: it reorders
/// the slice in place, so the cards that come out are those that went in.
/// Which order comes out is left unsaid: it rests on chance.
#[verifier::external_body]
fn shuffle_cards(cards: &mut Vec<Card>)
    ensures
        final(cards)@.to_multiset() == old(cards)@.to_multiset(),
        final(cards)@.len() == old(cards)@.len(),
{
    let mut rng = rand::thread_rng();
    cards.as_mut_slice().shuffle(&mut rng);
}

impl Deck {
    /// All 52 cards, Hearts first, each suit from Two to Ace.
    pub fn ordered() -> (deck: Self)
        ensures
            deck@ == ordered_deck(),
    {
        let mut deck: Vec<Card> = Vec::new();
        let mut s: u8 = 0;
        while s < 4
            invariant
                s <= 4,
                deck@.len() == 13 * s,
                forall|i: int| 0 <= i < deck@.len() ==> #[trigger] deck@[i] == ordered_card(i),
            decreases 4 - s,
        {
            let suite = CardSuite::from_rank(s);
            let mut v: u8 = 0;
            while v < 13
                invariant
                    s < 4,
                    v <= 13,
                    suite == suit_of_rank(s as int),
                    deck@.len() == 13 * s + v,
                    forall|i: int| 0 <= i < deck@.len() ==> #[trigger] deck@[i] == ordered_card(i),
                decreases 13 - v,
            {
                let value = CardValue::from_rank(v);
                let ghost idx = 13 * s + v;
                assert(idx / 13 == s as int && idx % 13 == v as int) by (nonlinear_arith)
                    requires
                        idx == 13 * s + v,
                        v < 13,
                ;
                deck.push(Card { suite, value });
                v = v + 1;
            }
            s = s + 1;
        }
        assert(deck@ =~= ordered_deck());
        Deck(deck)
    }

    /// Deals the last card of the deck; the deck must not be empty.
    pub fn pop(&mut self) -> (card: Card)
        requires
            old(self)@.len() > 0,
        ensures
            card == old(self)@.last(),
            final(self)@ == old(self)@.drop_last(),
    {
        self.0.pop().unwrap()
    }

    /// A deck is fresh while no card has been dealt from it.
    pub fn is_fresh(&self) -> (fresh: bool)
        ensures
            fresh == (self@.len() == 52),
    {
        self.0.len() == 52
    }

    pub fn len(&self) -> (n: usize)
        ensures
            n == self@.len(),
    {
        self.0.len()
    }

    /// The cards, the last one dealt first.
    pub(crate) fn as_slice(&self) -> (cards: &[Card])
        ensures
            cards@ == self@,
    {
        self.0.as_slice()
    }

    /// A deck made of the given cards, the last one dealt first.
    pub fn from_cards(cards: Vec<Card>) -> (deck: Self)
        ensures
            deck@ == cards@,
    {
        Deck(cards)
    }
}

impl Default for Deck {
    /// An ordered deck in a random order.
    fn default() -> (deck: Self)
        ensures
            deck@.to_multiset() == ordered_deck().to_multiset(),
            deck@.len() == 52,
    {
        let Deck(mut cards) = Self::ordered();
        shuffle_cards(&mut cards);
        Deck(cards)
    }
}

/// A hand's strength and the values of the five cards that make it.
#[derive(Debug, Clone, Copy)]
pub struct EvaluatedHand(HandStrength, [CardValue; 5]);

impl View for EvaluatedHand {
    type V = (HandStrength, Seq<u8>);

    closed spec fn view(&self) -> (HandStrength, Seq<u8>) {
        (self.0, self.1@.map_values(|v: CardValue| value_rank(v)))
    }
}

/// The cards a player can use: their own two, then the table's.
pub open spec fn hand_cards(player_cards: (Card, Card), table_cards: Seq<Card>) -> Seq<Card> {
    seq![player_cards.0, player_cards.1] + table_cards
}

/// The display name of a hand strength.
pub open spec fn strength_name(h: HandStrength) -> Seq<char> {
    match h {
        HandStrength::HighCard => "High Card"@,
        HandStrength::OnePair => "Pair"@,
        HandStrength::TwoPair => "Two Pair"@,
        HandStrength::ThreeOfAKind => "Three of a Kind"@,
        HandStrength::Straight => "Straight"@,
        HandStrength::Flush => "Flush"@,
        HandStrength::FullHouse => "Full House"@,
        HandStrength::FourOfAKind => "Four of a Kind"@,
        HandStrength::StraightFlush => "Straight Flush"@,
        HandStrength::RoyalFlush => "Royal Flush"@,
    }
}

impl HandStrength {
    /// The name under which the strength is shown to players.
    pub fn name(&self) -> (s: &'static str)
        ensures
            s@ == strength_name(*self),
    {
        match self {
            HandStrength::HighCard => "High Card",
            HandStrength::OnePair => "Pair",
            HandStrength::TwoPair => "Two Pair",
            HandStrength::ThreeOfAKind => "Three of a Kind",
            HandStrength::Straight => "Straight",
            HandStrength::Flush => "Flush",
            HandStrength::FullHouse => "Full House",
            HandStrength::FourOfAKind => "Four of a Kind",
            HandStrength::StraightFlush => "Straight Flush",
            HandStrength::RoyalFlush => "Royal Flush",
        }
    }

    pub fn to_string(&self) -> (s: String)
        ensures
            s@ == strength_name(*self),
    {
        let name = self.name();
        name.to_owned()
    }
}

fn make_hand(strength: HandStrength, a: u8, b: u8, c: u8, d: u8, e: u8) -> (hand: EvaluatedHand)
    requires
        a < 13,
        b < 13,
        c < 13,
        d < 13,
        e < 13,
    ensures
        hand@ == (strength, seq![a, b, c, d, e]),
{
    let values = [
        CardValue::from_rank(a),
        CardValue::from_rank(b),
        CardValue::from_rank(c),
        CardValue::from_rank(d),
        CardValue::from_rank(e),
    ];
    let hand = EvaluatedHand(strength, values);
    assert(hand@.1 =~= seq![a, b, c, d, e]);
    hand
}

impl EvaluatedHand {
    pub fn strength(&self) -> (h: HandStrength)
        ensures
            h == self@.0,
    {
        self.0
    }

    pub fn cards(&self) -> (values: &[CardValue; 5])
        ensures
            values@.map_values(|v: CardValue| value_rank(v)) == self@.1,
    {
        &self.1
    }
}

impl Card {
    /// Evaluates the best poker hand that the player's two cards make with the
    /// cards on the table. At least five cards are needed.
    pub fn evaluate_hand(player_cards: &(Card, Card), table_cards: &[Card]) -> (hand: EvaluatedHand)
        requires
            evaluable(hand_cards(*player_cards, table_cards@)),
        ensures
            hand@ == evaluation(hand_cards(*player_cards, table_cards@)),
    {
        let all = hand_of(player_cards, table_cards);
        match evaluate_all(&all) {
            Some(hand) => hand,
            None => {
                assert(false);
                make_hand(HandStrength::HighCard, 0, 0, 0, 0, 0)
            },
        }
    }

    /// The hand, when the cards can be evaluated.
    pub fn try_evaluate_hand(player_cards: &(Card, Card), table_cards: &[Card]) -> (hand: Option<EvaluatedHand>)
        requires
            table_cards@.len() + 2 <= usize::MAX,
        ensures
            match hand {
                Some(h) => evaluable(hand_cards(*player_cards, table_cards@)) && h@ == evaluation(
                    hand_cards(*player_cards, table_cards@),
                ),
                None => !evaluable(hand_cards(*player_cards, table_cards@)),
            },
    {
        let all = hand_of(player_cards, table_cards);
        if all.len() < 5 {
            return None;
        }
        evaluate_all(&all)
    }
}

/// The player's two cards followed by the table's.
fn hand_of(player_cards: &(Card, Card), table_cards: &[Card]) -> (all: Vec<Card>)
    requires
        table_cards@.len() + 2 <= usize::MAX,
    ensures
        all@ == hand_cards(*player_cards, table_cards@),
{
    let ghost cards = hand_cards(*player_cards, table_cards@);
    let mut all: Vec<Card> = Vec::new();
    all.push(player_cards.0);
    all.push(player_cards.1);
    let mut i: usize = 0;
    while i < table_cards.len()
        invariant
            i <= table_cards@.len(),
            all@ == seq![player_cards.0, player_cards.1] + table_cards@.take(i as int),
        decreases table_cards@.len() - i,
    {
        all.push(table_cards[i]);
        i = i + 1;
        assert(all@ =~= seq![player_cards.0, player_cards.1] + table_cards@.take(i as int));
    }
    assert(table_cards@.take(table_cards@.len() as int) =~= table_cards@);
    assert(all@ == cards);
    all
}

/// The best hand the cards make, when they can be evaluated.
fn evaluate_all(all: &Vec<Card>) -> (hand: Option<EvaluatedHand>)
    requires
        5 <= all@.len() <= usize::MAX,
    ensures
        match hand {
            Some(h) => evaluable(all@) && h@ == evaluation(all@),
            None => !evaluable(all@),
        },
{
    let ghost cards = all@;
    let row = value_counts(all);
    let lists = suit_lists(all);
    proof {
        lemma_value_row_sum(cards);
        assert forall|s: int| 0 <= s < 4 implies forall|k: int|
            0 <= k < #[trigger] suit_list(cards, s).len() ==> suit_list(cards, s)[k] < 13 by {
            lemma_desc_shape(suit_row(cards, s), 0);
        }
    }
    if royal_suit_of(&lists, Ghost(cards)) < 4 {
        return Some(make_hand(HandStrength::RoyalFlush, 12, 11, 10, 9, 8));
    }
    let sf = straight_flush_suit_of(&lists, Ghost(cards));
    if sf < 4 {
        proof {
            lemma_first_index_bounds(straight_flush_suit_from(cards), 0, 4);
        }
        return Some(straight_flush_hand(&lists[sf]));
    }
    if let Some(hand) = four_of_a_kind_hand(&row) {
        return Some(hand);
    }
    if let Some(hand) = full_house_hand(&row) {
        return Some(hand);
    }
    let fs = flush_suit_of(&lists, Ghost(cards));
    if fs < 4 {
        proof {
            lemma_first_index_bounds(five_of_suit(cards), 0, 4);
        }
        return Some(flush_hand(&lists[fs]));
    }
    if let Some(hand) = straight_hand(&row) {
        return Some(hand);
    }
    if let Some(hand) = three_of_a_kind_hand(&row) {
        return Some(hand);
    }
    if let Some(hand) = two_pair_hand(&row) {
        return Some(hand);
    }
    if let Some(hand) = one_pair_hand(&row) {
        return Some(hand);
    }
    let distinct = distinct_values(&row);
    if distinct.len() >= 5 {
        Some(high_card_hand(&row))
    } else {
        None
    }
}

/// Five values of a suit falling by exactly four.
fn straight_flush_hand(l: &Vec<u8>) -> (hand: EvaluatedHand)
    requires
        has_run(l@),
        forall|k: int| 0 <= k < l@.len() ==> #[trigger] l@[k] < 13,
    ensures
        hand@ == (HandStrength::StraightFlush, l@.subrange(first_run(l@), first_run(l@) + 5)),
{
    let j = find_run(l);
    let n = l.len();
    assert(j + 4 < n);
    let hand = make_hand(HandStrength::StraightFlush, l[j], l[j + 1], l[j + 2], l[j + 3], l[j + 4]);
    assert(l@.subrange(j as int, j + 5) =~= seq![l@[j as int], l@[j + 1], l@[j + 2], l@[j + 3], l@[j + 4]]);
    hand
}

/// The five highest values of a suit.
fn flush_hand(l: &Vec<u8>) -> (hand: EvaluatedHand)
    requires
        l@.len() >= 5,
        forall|k: int| 0 <= k < l@.len() ==> #[trigger] l@[k] < 13,
    ensures
        hand@ == (HandStrength::Flush, l@.take(5)),
{
    let hand = make_hand(HandStrength::Flush, l[0], l[1], l[2], l[3], l[4]);
    assert(l@.take(5) =~= seq![l@[0], l@[1], l@[2], l@[3], l@[4]]);
    hand
}

fn four_of_a_kind_hand(row: &Vec<usize>) -> (hand: Option<EvaluatedHand>)
    requires
        row@.len() == 13,
        sum_above(row@, 0) >= 5,
    ensures
        hand is Some <==> first_count(row@, 4) < 13,
        hand matches Some(h) ==> h@ == ({
            let q = first_count(row@, 4);
            (HandStrength::FourOfAKind, seq![q as u8, q as u8, q as u8, q as u8, others(row@, q, q)[0]])
        }),
{
    let q = first_with_count(row, 4);
    if q < 13 {
        proof {
            lemma_first_index_bounds(count_is(row@, 4), 0, 13);
            lemma_others_len(row@, q as int, q as int);
            lemma_desc_shape(others_row(row@, q as int, q as int), 0);
        }
        let o = others_values(row, q, q);
        Some(make_hand(HandStrength::FourOfAKind, q as u8, q as u8, q as u8, q as u8, o[0]))
    } else {
        None
    }
}

fn full_house_hand(row: &Vec<usize>) -> (hand: Option<EvaluatedHand>)
    requires
        row@.len() == 13,
    ensures
        hand is Some <==> full_house_value(row@) < 13,
        hand matches Some(h) ==> h@ == ({
            let t = full_house_value(row@) as u8;
            let o = full_house_partner(row@, t as int) as u8;
            (HandStrength::FullHouse, seq![t, t, t, o, o])
        }),
{
    let t = full_house_of(row);
    if t < 13 {
        let o = full_house_partner_of(row, t);
        proof {
            lemma_top_index_bounds(trips_with_partner(row@), 13);
        }
        Some(make_hand(HandStrength::FullHouse, t as u8, t as u8, t as u8, o as u8, o as u8))
    } else {
        None
    }
}

fn straight_hand(row: &Vec<usize>) -> (hand: Option<EvaluatedHand>)
    requires
        row@.len() == 13,
    ensures
        hand is Some <==> has_run(high_low(row@)),
        hand matches Some(h) ==> h@ == ({
            let hl = high_low(row@);
            let j = first_run(hl);
            (HandStrength::Straight, hl.subrange(j, j + 5).map_values(|x: u8| unshift(x)))
        }),
{
    let h = high_low_values(row);
    let j = find_run(&h);
    if j < h.len() && h.len() - j > 4 {
        let k = j + 4;
        if h[j] as i64 - h[k] as i64 == 4 {
            proof {
                lemma_high_low_shape(row@);
            }
            let hand = make_hand(
                HandStrength::Straight,
                unshift_exec(h[j]),
                unshift_exec(h[j + 1]),
                unshift_exec(h[j + 2]),
                unshift_exec(h[j + 3]),
                unshift_exec(h[k]),
            );
            assert(h@.subrange(j as int, j + 5).map_values(|x: u8| unshift(x)) =~= seq![
                unshift(h@[j as int]),
                unshift(h@[j + 1]),
                unshift(h@[j + 2]),
                unshift(h@[j + 3]),
                unshift(h@[j + 4]),
            ]);
            return Some(hand);
        }
    }
    None
}

fn three_of_a_kind_hand(row: &Vec<usize>) -> (hand: Option<EvaluatedHand>)
    requires
        row@.len() == 13,
        sum_above(row@, 0) >= 5,
    ensures
        hand is Some <==> first_count(row@, 3) < 13,
        hand matches Some(h) ==> h@ == ({
            let t = first_count(row@, 3);
            let o = others(row@, t, t);
            (HandStrength::ThreeOfAKind, seq![t as u8, t as u8, t as u8, o[0], o[1]])
        }),
{
    let t = first_with_count(row, 3);
    if t < 13 {
        proof {
            lemma_first_index_bounds(count_is(row@, 3), 0, 13);
            lemma_others_len(row@, t as int, t as int);
            lemma_desc_shape(others_row(row@, t as int, t as int), 0);
        }
        let o = others_values(row, t, t);
        Some(make_hand(HandStrength::ThreeOfAKind, t as u8, t as u8, t as u8, o[0], o[1]))
    } else {
        None
    }
}

fn two_pair_hand(row: &Vec<usize>) -> (hand: Option<EvaluatedHand>)
    requires
        row@.len() == 13,
        sum_above(row@, 0) >= 5,
    ensures
        hand is Some <==> two_pair_value(row@) < 13,
        hand matches Some(h) ==> h@ == ({
            let a = two_pair_value(row@);
            let b = second_pair(row@, a);
            (HandStrength::TwoPair, seq![a as u8, a as u8, b as u8, b as u8, others(row@, a, b)[0]])
        }),
{
    let a = two_pair_of(row);
    if a < 13 {
        let b = second_pair_of(row, a);
        proof {
            lemma_top_index_bounds(pair_with_partner(row@), 13);
            lemma_top_index_bounds(pair_partner_of(row@, a as int), 13);
            lemma_others_len(row@, a as int, b as int);
            lemma_desc_shape(others_row(row@, a as int, b as int), 0);
        }
        let o = others_values(row, a, b);
        Some(make_hand(HandStrength::TwoPair, a as u8, a as u8, b as u8, b as u8, o[0]))
    } else {
        None
    }
}

fn one_pair_hand(row: &Vec<usize>) -> (hand: Option<EvaluatedHand>)
    requires
        row@.len() == 13,
        sum_above(row@, 0) >= 5,
    ensures
        hand is Some <==> first_count(row@, 2) < 13,
        hand matches Some(h) ==> h@ == ({
            let p = first_count(row@, 2);
            let o = others(row@, p, p);
            (HandStrength::OnePair, seq![p as u8, p as u8, o[0], o[1], o[2]])
        }),
{
    let p = first_with_count(row, 2);
    if p < 13 {
        proof {
            lemma_first_index_bounds(count_is(row@, 2), 0, 13);
            lemma_others_len(row@, p as int, p as int);
            lemma_desc_shape(others_row(row@, p as int, p as int), 0);
        }
        let o = others_values(row, p, p);
        Some(make_hand(HandStrength::OnePair, p as u8, p as u8, o[0], o[1], o[2]))
    } else {
        None
    }
}

fn high_card_hand(row: &Vec<usize>) -> (hand: EvaluatedHand)
    requires
        row@.len() == 13,
        distinct_desc(row@).len() >= 5,
    ensures
        hand@ == (HandStrength::HighCard, distinct_desc(row@).take(5)),
{
    let d = distinct_values(row);
    proof {
        lemma_desc_shape(presence_row(row@), 0);
    }
    let hand = make_hand(HandStrength::HighCard, d[0], d[1], d[2], d[3], d[4]);
    assert(d@.take(5) =~= seq![d@[0], d@[1], d@[2], d@[3], d@[4]]);
    hand
}

} // verus!
