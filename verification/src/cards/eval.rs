//! What a hand of cards is worth, stated over how many cards of each suit and
//! value it holds, and the executable pieces that compute it.
use vstd::prelude::*;

use super::{suit_rank, value_rank, Card, CardSuite, CardValue, HandStrength};

verus! {

/// Number of cards of suit `s` and value `v`.
pub open spec fn count_sv(cards: Seq<Card>, s: int, v: int) -> nat
    decreases cards.len(),
{
    if cards.len() == 0 {
        0
    } else {
        count_sv(cards.drop_last(), s, v) + (if suit_rank(cards.last().suite) == s && value_rank(
            cards.last().value,
        ) == v {
            1nat
        } else {
            0nat
        })
    }
}

/// Number of cards of value `v`, whatever their suit.
pub open spec fn count_v(cards: Seq<Card>, v: int) -> nat
    decreases cards.len(),
{
    if cards.len() == 0 {
        0
    } else {
        count_v(cards.drop_last(), v) + (if value_rank(cards.last().value) == v {
            1nat
        } else {
            0nat
        })
    }
}

/// For each value, how many cards of suit `s` have it.
pub open spec fn suit_row(cards: Seq<Card>, s: int) -> Seq<usize> {
    Seq::new(13, |v: int| count_sv(cards, s, v) as usize)
}

/// For each value, how many cards have it.
pub open spec fn value_row(cards: Seq<Card>) -> Seq<usize> {
    Seq::new(13, |v: int| count_v(cards, v) as usize)
}

/// For each value, 1 if the row counts it at all and 0 otherwise.
pub open spec fn presence_row(row: Seq<usize>) -> Seq<usize> {
    Seq::new(13, |v: int| if row[v] > 0 { 1usize } else { 0usize })
}

/// The row with the entries for `a` and `b` set to zero.
pub open spec fn others_row(row: Seq<usize>, a: int, b: int) -> Seq<usize> {
    Seq::new(13, |v: int| if v == a || v == b { 0usize } else { row[v] })
}

/// The values `12` down to `v`, each repeated as often as `row` says.
pub open spec fn desc_above(row: Seq<usize>, v: int) -> Seq<u8>
    decreases 13 - v,
{
    if v >= 13 || v < 0 {
        Seq::empty()
    } else {
        desc_above(row, v + 1) + Seq::new(row[v] as nat, |i: int| v as u8)
    }
}

/// All values that `row` counts, highest first, with repetition.
pub open spec fn desc(row: Seq<usize>) -> Seq<u8> {
    desc_above(row, 0)
}

pub open spec fn sum_above(row: Seq<usize>, v: int) -> nat
    decreases 13 - v,
{
    if v >= 13 || v < 0 {
        0
    } else {
        sum_above(row, v + 1) + row[v] as nat
    }
}

/// The first `i` in `lo..hi` with `p(i)`, or `hi` when there is none.
pub open spec fn first_index(p: spec_fn(int) -> bool, lo: int, hi: int) -> int
    decreases hi - lo,
{
    if lo >= hi {
        hi
    } else if p(lo) {
        lo
    } else {
        first_index(p, lo + 1, hi)
    }
}

/// The highest `i` below `k` with `p(i)`, or 13 when there is none.
pub open spec fn top_index(p: spec_fn(int) -> bool, k: int) -> int
    decreases k,
{
    if k <= 0 {
        13
    } else if p(k - 1) {
        k - 1
    } else {
        top_index(p, k - 1)
    }
}

/// Five values starting at `j` that fall by exactly four.
pub open spec fn run_at(vals: Seq<u8>, j: int) -> bool {
    0 <= j && j + 4 < vals.len() && vals[j] - vals[j + 4] == 4
}

pub open spec fn run_from(vals: Seq<u8>) -> spec_fn(int) -> bool {
    |j: int| run_at(vals, j)
}

pub open spec fn first_run(vals: Seq<u8>) -> int {
    first_index(run_from(vals), 0, if vals.len() >= 4 { vals.len() - 4 } else { 0 })
}

pub open spec fn has_run(vals: Seq<u8>) -> bool {
    run_at(vals, first_run(vals))
}

/// The values of the cards of suit `s`, highest first.
pub open spec fn suit_list(cards: Seq<Card>, s: int) -> Seq<u8> {
    desc(suit_row(cards, s))
}

pub open spec fn royal_values() -> Seq<u8> {
    seq![12u8, 11u8, 10u8, 9u8, 8u8]
}

pub open spec fn is_royal_suit(cards: Seq<Card>, s: int) -> bool {
    suit_list(cards, s).len() >= 5 && suit_list(cards, s).take(5) == royal_values()
}

pub open spec fn royal_suit(cards: Seq<Card>) -> spec_fn(int) -> bool {
    |s: int| is_royal_suit(cards, s)
}

pub open spec fn has_royal_flush(cards: Seq<Card>) -> bool {
    first_index(royal_suit(cards), 0, 4) < 4
}

pub open spec fn straight_flush_suit_ok(cards: Seq<Card>, s: int) -> bool {
    suit_list(cards, s).len() >= 5 && has_run(suit_list(cards, s))
}

pub open spec fn straight_flush_suit_from(cards: Seq<Card>) -> spec_fn(int) -> bool {
    |s: int| straight_flush_suit_ok(cards, s)
}

/// The first suit whose cards hold five values falling by exactly four.
pub open spec fn straight_flush_suit(cards: Seq<Card>) -> int {
    first_index(straight_flush_suit_from(cards), 0, 4)
}

/// Holds of the values that the row counts exactly `k` times.
pub open spec fn count_is(row: Seq<usize>, k: int) -> spec_fn(int) -> bool {
    |v: int| row[v] == k
}

/// The lowest value counted exactly `k` times, or 13.
pub open spec fn first_count(row: Seq<usize>, k: int) -> int {
    first_index(count_is(row, k), 0, 13)
}

pub open spec fn partner_of(row: Seq<usize>, t: int) -> spec_fn(int) -> bool {
    |o: int| o != t && row[o] >= 2
}

/// The highest value other than `t` counted at least twice.
pub open spec fn full_house_partner(row: Seq<usize>, t: int) -> int {
    top_index(partner_of(row, t), 13)
}

pub open spec fn trips_with_partner(row: Seq<usize>) -> spec_fn(int) -> bool {
    |t: int| row[t] == 3 && full_house_partner(row, t) < 13
}

/// The highest value counted exactly three times that has a partner.
pub open spec fn full_house_value(row: Seq<usize>) -> int {
    top_index(trips_with_partner(row), 13)
}

pub open spec fn five_of_suit(cards: Seq<Card>) -> spec_fn(int) -> bool {
    |s: int| suit_list(cards, s).len() >= 5
}

pub open spec fn flush_suit(cards: Seq<Card>) -> int {
    first_index(five_of_suit(cards), 0, 4)
}

/// The distinct values, highest first.
pub open spec fn distinct_desc(row: Seq<usize>) -> Seq<u8> {
    desc(presence_row(row))
}

pub open spec fn shift_up(r: u8) -> u8 {
    (r + 2) as u8
}

/// The distinct values shifted up by two, highest first, followed by 1 for an
/// ace that counts low.
pub open spec fn high_low(row: Seq<usize>) -> Seq<u8> {
    distinct_desc(row).map_values(|r: u8| shift_up(r)) + (if row[12] > 0 {
        seq![1u8]
    } else {
        Seq::empty()
    })
}

pub open spec fn unshift(h: u8) -> u8 {
    if h == 1 {
        12u8
    } else {
        (h - 2) as u8
    }
}

pub open spec fn pair_partner_of(row: Seq<usize>, v: int) -> spec_fn(int) -> bool {
    |w: int| w != v && row[w] == 2
}

/// The highest value other than `v` counted exactly twice.
pub open spec fn second_pair(row: Seq<usize>, v: int) -> int {
    top_index(pair_partner_of(row, v), 13)
}

pub open spec fn pair_with_partner(row: Seq<usize>) -> spec_fn(int) -> bool {
    |v: int| row[v] == 2 && second_pair(row, v) < 13
}

/// The highest value counted exactly twice that has a second pair.
pub open spec fn two_pair_value(row: Seq<usize>) -> int {
    top_index(pair_with_partner(row), 13)
}

/// The values of the row other than `a` and `b`, highest first.
pub open spec fn others(row: Seq<usize>, a: int, b: int) -> Seq<u8> {
    desc(others_row(row, a, b))
}

/// What a hand is worth: its strength and the values of the five cards that
/// make it, checked from the strongest kind of hand down.
pub open spec fn evaluation(cards: Seq<Card>) -> (HandStrength, Seq<u8>) {
    let row = value_row(cards);
    if has_royal_flush(cards) {
        (HandStrength::RoyalFlush, royal_values())
    } else if straight_flush_suit(cards) < 4 {
        let vals = suit_list(cards, straight_flush_suit(cards));
        let j = first_run(vals);
        (HandStrength::StraightFlush, vals.subrange(j, j + 5))
    } else if first_count(row, 4) < 13 {
        let q = first_count(row, 4);
        let k = others(row, q, q)[0];
        (HandStrength::FourOfAKind, seq![q as u8, q as u8, q as u8, q as u8, k])
    } else if full_house_value(row) < 13 {
        let t = full_house_value(row) as u8;
        let o = full_house_partner(row, t as int) as u8;
        (HandStrength::FullHouse, seq![t, t, t, o, o])
    } else if flush_suit(cards) < 4 {
        (HandStrength::Flush, suit_list(cards, flush_suit(cards)).take(5))
    } else if has_run(high_low(row)) {
        let h = high_low(row);
        let j = first_run(h);
        (HandStrength::Straight, h.subrange(j, j + 5).map_values(|x: u8| unshift(x)))
    } else if first_count(row, 3) < 13 {
        let t = first_count(row, 3);
        let o = others(row, t, t);
        (HandStrength::ThreeOfAKind, seq![t as u8, t as u8, t as u8, o[0], o[1]])
    } else if two_pair_value(row) < 13 {
        let a = two_pair_value(row);
        let b = second_pair(row, a);
        (HandStrength::TwoPair, seq![a as u8, a as u8, b as u8, b as u8, others(row, a, b)[0]])
    } else if first_count(row, 2) < 13 {
        let p = first_count(row, 2);
        let o = others(row, p, p);
        (HandStrength::OnePair, seq![p as u8, p as u8, o[0], o[1], o[2]])
    } else {
        (HandStrength::HighCard, distinct_desc(row).take(5))
    }
}

/// A hand can be evaluated when it has five cards and does not fall through
/// to a high card with fewer than five distinct values.
pub open spec fn evaluable(cards: Seq<Card>) -> bool {
    5 <= cards.len() <= usize::MAX && (evaluation(cards).0 != HandStrength::HighCard
        || distinct_desc(value_row(cards)).len() >= 5)
}

// ---------------------------------------------------------------------------
// Lemmas
// ---------------------------------------------------------------------------

pub proof fn lemma_first_index(p: spec_fn(int) -> bool, lo: int, i: int, hi: int)
    requires
        lo <= i <= hi,
        forall|j: int| lo <= j < i ==> !#[trigger] p(j),
        i == hi || p(i),
    ensures
        first_index(p, lo, hi) == i,
    decreases i - lo,
{
    if lo < i {
        lemma_first_index(p, lo + 1, i, hi);
    }
}

pub proof fn lemma_top_index(p: spec_fn(int) -> bool, k: int, i: int)
    requires
        0 <= k <= 13,
        -1 <= i < k,
        forall|j: int| i < j < k ==> !#[trigger] p(j),
        i == -1 || p(i),
    ensures
        top_index(p, k) == (if i == -1 {
            13
        } else {
            i
        }),
    decreases k,
{
    if k > 0 && i < k - 1 {
        lemma_top_index(p, k - 1, i);
    }
}

pub proof fn lemma_top_index_bounds(p: spec_fn(int) -> bool, k: int)
    requires
        0 <= k <= 13,
    ensures
        top_index(p, k) == 13 || (0 <= top_index(p, k) < k && p(top_index(p, k))),
    decreases k,
{
    if k > 0 && !p(k - 1) {
        lemma_top_index_bounds(p, k - 1);
    }
}

pub proof fn lemma_first_index_bounds(p: spec_fn(int) -> bool, lo: int, hi: int)
    requires
        lo <= hi,
    ensures
        lo <= first_index(p, lo, hi) <= hi,
        first_index(p, lo, hi) < hi ==> p(first_index(p, lo, hi)),
        forall|j: int| lo <= j < first_index(p, lo, hi) ==> !#[trigger] p(j),
    decreases hi - lo,
{
    if lo < hi && !p(lo) {
        lemma_first_index_bounds(p, lo + 1, hi);
    }
}

pub proof fn lemma_desc_len(row: Seq<usize>, v: int)
    requires
        0 <= v <= 13,
        row.len() == 13,
    ensures
        desc_above(row, v).len() == sum_above(row, v),
    decreases 13 - v,
{
    if v < 13 {
        lemma_desc_len(row, v + 1);
    }
}

/// Every value in `desc_above(row, v)` is at least `v`, below 13, and the
/// sequence never rises.
pub proof fn lemma_desc_shape(row: Seq<usize>, v: int)
    requires
        0 <= v <= 13,
        row.len() == 13,
    ensures
        forall|i: int| 0 <= i < desc_above(row, v).len() ==> v <= #[trigger] desc_above(row, v)[i] < 13,
        forall|i: int, j: int|
            0 <= i <= j < desc_above(row, v).len() ==> #[trigger] desc_above(row, v)[i]
                >= #[trigger] desc_above(row, v)[j],
    decreases 13 - v,
{
    if v < 13 {
        lemma_desc_shape(row, v + 1);
        let a = desc_above(row, v + 1);
        let b = Seq::new(row[v] as nat, |i: int| v as u8);
        let d = desc_above(row, v);
        assert(d == a + b);
        assert forall|i: int| 0 <= i < d.len() implies v <= #[trigger] d[i] < 13 by {
            if i < a.len() {
                assert(d[i] == a[i]);
            } else {
                assert(d[i] == b[i - a.len()]);
            }
        }
        assert forall|i: int, j: int| 0 <= i <= j < d.len() implies #[trigger] d[i] >= #[trigger] d[j] by {
            if j < a.len() {
                assert(d[i] == a[i] && d[j] == a[j]);
            } else if i < a.len() {
                assert(d[i] == a[i] && d[j] == b[j - a.len()]);
            } else {
                assert(d[i] == b[i - a.len()] && d[j] == b[j - a.len()]);
            }
        }
    }
}

pub proof fn lemma_count_v_le(cards: Seq<Card>, v: int)
    ensures
        count_v(cards, v) <= cards.len(),
    decreases cards.len(),
{
    if cards.len() > 0 {
        lemma_count_v_le(cards.drop_last(), v);
    }
}

pub proof fn lemma_count_sv_le(cards: Seq<Card>, s: int, v: int)
    ensures
        count_sv(cards, s, v) <= cards.len(),
    decreases cards.len(),
{
    if cards.len() > 0 {
        lemma_count_sv_le(cards.drop_last(), s, v);
    }
}

/// Adding one to entry `k` of a row adds one to its sum from `v` up.
pub proof fn lemma_sum_bump(a: Seq<usize>, b: Seq<usize>, k: int, v: int)
    requires
        a.len() == 13,
        b.len() == 13,
        0 <= k < 13,
        0 <= v <= 13,
        b[k] == a[k] + 1,
        forall|u: int| 0 <= u < 13 && u != k ==> b[u] == a[u],
    ensures
        sum_above(b, v) == sum_above(a, v) + (if v <= k {
            1nat
        } else {
            0nat
        }),
    decreases 13 - v,
{
    if v < 13 {
        lemma_sum_bump(a, b, k, v + 1);
    }
}

/// The value row of a hand sums to the number of cards in it.
pub proof fn lemma_value_row_sum(cards: Seq<Card>)
    requires
        cards.len() <= usize::MAX,
    ensures
        sum_above(value_row(cards), 0) == cards.len(),
    decreases cards.len(),
{
    if cards.len() == 0 {
        lemma_sum_zero(value_row(cards), 0);
    } else {
        let prev = cards.drop_last();
        lemma_value_row_sum(prev);
        let k = value_rank(cards.last().value) as int;
        lemma_count_v_le(prev, k);
        assert forall|u: int| 0 <= u < 13 implies #[trigger] count_v(prev, u) <= prev.len() by {
            lemma_count_v_le(prev, u);
        }
        lemma_sum_bump(value_row(prev), value_row(cards), k, 0);
    }
}

pub proof fn lemma_sum_zero(row: Seq<usize>, v: int)
    requires
        row.len() == 13,
        0 <= v <= 13,
        forall|u: int| 0 <= u < 13 ==> row[u] == 0,
    ensures
        sum_above(row, v) == 0,
    decreases 13 - v,
{
    if v < 13 {
        lemma_sum_zero(row, v + 1);
    }
}

/// Zeroing entries `a` and `b` of a row takes their counts off its sum.
pub proof fn lemma_sum_without(row: Seq<usize>, other: Seq<usize>, a: int, b: int, v: int)
    requires
        row.len() == 13,
        other.len() == 13,
        0 <= a < 13,
        0 <= b < 13,
        0 <= v <= 13,
        forall|u: int| 0 <= u < 13 && u != a && u != b ==> other[u] == row[u],
        other[a] == 0,
        other[b] == 0,
    ensures
        sum_above(other, v) + (if v <= a {
            row[a] as nat
        } else {
            0nat
        }) + (if v <= b && b != a {
            row[b] as nat
        } else {
            0nat
        }) == sum_above(row, v),
    decreases 13 - v,
{
    if v < 13 {
        lemma_sum_without(row, other, a, b, v + 1);
    }
}

/// How many values `others(row, a, b)` lists.
pub proof fn lemma_others_len(row: Seq<usize>, a: int, b: int)
    requires
        row.len() == 13,
        0 <= a < 13,
        0 <= b < 13,
    ensures
        others(row, a, b).len() + row[a] + (if b != a {
            row[b] as nat
        } else {
            0nat
        }) == sum_above(row, 0),
{
    lemma_sum_without(row, others_row(row, a, b), a, b, 0);
    lemma_desc_len(others_row(row, a, b), 0);
}

// ---------------------------------------------------------------------------
// Executable pieces
// ---------------------------------------------------------------------------

fn zero_row() -> (row: Vec<usize>)
    ensures
        row@.len() == 13,
        forall|v: int| 0 <= v < 13 ==> row@[v] == 0,
{
    let mut row: Vec<usize> = Vec::new();
    while row.len() < 13
        invariant
            row@.len() <= 13,
            forall|v: int| 0 <= v < row@.len() ==> row@[v] == 0,
        decreases 13 - row@.len(),
    {
        row.push(0);
    }
    row
}

/// How many cards have each value.
pub fn value_counts(cards: &Vec<Card>) -> (row: Vec<usize>)
    ensures
        row@ == value_row(cards@),
{
    let mut row = zero_row();
    let mut i: usize = 0;
    while i < cards.len()
        invariant
            i <= cards@.len(),
            row@ == value_row(cards@.take(i as int)),
        decreases cards@.len() - i,
    {
        let ghost before = cards@.take(i as int);
        let ghost after = cards@.take(i as int + 1);
        assert(after.drop_last() =~= before);
        let v = cards[i].value.rank() as usize;
        proof {
            lemma_count_v_le(before, v as int);
        }
        row.set(v, row[v] + 1);
        assert(row@ =~= value_row(after));
        i = i + 1;
    }
    assert(cards@.take(cards@.len() as int) =~= cards@);
    row
}

/// How many cards of suit `s` have each value.
pub fn suit_counts(cards: &Vec<Card>, s: u8) -> (row: Vec<usize>)
    ensures
        row@ == suit_row(cards@, s as int),
{
    let mut row = zero_row();
    let mut i: usize = 0;
    while i < cards.len()
        invariant
            i <= cards@.len(),
            row@ == suit_row(cards@.take(i as int), s as int),
        decreases cards@.len() - i,
    {
        let ghost before = cards@.take(i as int);
        let ghost after = cards@.take(i as int + 1);
        assert(after.drop_last() =~= before);
        if cards[i].suite.rank() == s {
            let v = cards[i].value.rank() as usize;
            proof {
                lemma_count_sv_le(before, s as int, v as int);
            }
            row.set(v, row[v] + 1);
        }
        assert(row@ =~= suit_row(after, s as int));
        i = i + 1;
    }
    assert(cards@.take(cards@.len() as int) =~= cards@);
    row
}

/// The values that a row counts, highest first, with repetition.
pub fn desc_values(row: &Vec<usize>) -> (vals: Vec<u8>)
    requires
        row@.len() == 13,
    ensures
        vals@ == desc(row@),
{
    let mut vals: Vec<u8> = Vec::new();
    let mut v: usize = 13;
    while v > 0
        invariant
            v <= 13,
            row@.len() == 13,
            vals@ == desc_above(row@, v as int),
        decreases v,
    {
        v = v - 1;
        let n = row[v];
        let ghost base = vals@;
        let mut k: usize = 0;
        while k < n
            invariant
                k <= n,
                v < 13,
                n == row@[v as int],
                vals@ == base + Seq::new(k as nat, |i: int| v as u8),
            decreases n - k,
        {
            vals.push(v as u8);
            k = k + 1;
            assert(vals@ =~= base + Seq::new(k as nat, |i: int| v as u8));
        }
    }
    vals
}

/// The first value that the row counts exactly `k` times, or 13.
pub fn first_with_count(row: &Vec<usize>, k: usize) -> (v: usize)
    requires
        row@.len() == 13,
    ensures
        v == first_count(row@, k as int),
{
    let mut v: usize = 0;
    while v < 13
        invariant
            v <= 13,
            row@.len() == 13,
            forall|j: int| 0 <= j < v ==> !#[trigger] count_is(row@, k as int)(j),
        decreases 13 - v,
    {
        if row[v] == k {
            proof {
                lemma_first_index(count_is(row@, k as int), 0, v as int, 13);
            }
            return v;
        }
        v = v + 1;
    }
    proof {
        lemma_first_index(count_is(row@, k as int), 0, 13, 13);
    }
    13
}

/// The highest value other than `t` counted at least twice, or 13.
pub fn full_house_partner_of(row: &Vec<usize>, t: usize) -> (o: usize)
    requires
        row@.len() == 13,
    ensures
        o == full_house_partner(row@, t as int),
{
    let mut k: usize = 13;
    while k > 0
        invariant
            k <= 13,
            row@.len() == 13,
            forall|j: int| k <= j < 13 ==> !#[trigger] partner_of(row@, t as int)(j),
        decreases k,
    {
        let o = k - 1;
        if o != t && row[o] >= 2 {
            proof {
                lemma_top_index(partner_of(row@, t as int), 13, o as int);
            }
            return o;
        }
        k = o;
    }
    proof {
        lemma_top_index(partner_of(row@, t as int), 13, -1);
    }
    13
}

/// The highest value counted exactly three times that has a partner, or 13.
pub fn full_house_of(row: &Vec<usize>) -> (t: usize)
    requires
        row@.len() == 13,
    ensures
        t == full_house_value(row@),
{
    let mut k: usize = 13;
    while k > 0
        invariant
            k <= 13,
            row@.len() == 13,
            forall|j: int| k <= j < 13 ==> !#[trigger] trips_with_partner(row@)(j),
        decreases k,
    {
        let t = k - 1;
        if row[t] == 3 && full_house_partner_of(row, t) < 13 {
            proof {
                lemma_top_index(trips_with_partner(row@), 13, t as int);
            }
            return t;
        }
        k = t;
    }
    proof {
        lemma_top_index(trips_with_partner(row@), 13, -1);
    }
    13
}

/// The highest value other than `v` counted exactly twice, or 13.
pub fn second_pair_of(row: &Vec<usize>, v: usize) -> (w: usize)
    requires
        row@.len() == 13,
    ensures
        w == second_pair(row@, v as int),
{
    let mut k: usize = 13;
    while k > 0
        invariant
            k <= 13,
            row@.len() == 13,
            forall|j: int| k <= j < 13 ==> !#[trigger] pair_partner_of(row@, v as int)(j),
        decreases k,
    {
        let w = k - 1;
        if w != v && row[w] == 2 {
            proof {
                lemma_top_index(pair_partner_of(row@, v as int), 13, w as int);
            }
            return w;
        }
        k = w;
    }
    proof {
        lemma_top_index(pair_partner_of(row@, v as int), 13, -1);
    }
    13
}

/// The highest value counted exactly twice that has a second pair, or 13.
pub fn two_pair_of(row: &Vec<usize>) -> (v: usize)
    requires
        row@.len() == 13,
    ensures
        v == two_pair_value(row@),
{
    let mut k: usize = 13;
    while k > 0
        invariant
            k <= 13,
            row@.len() == 13,
            forall|j: int| k <= j < 13 ==> !#[trigger] pair_with_partner(row@)(j),
        decreases k,
    {
        let v = k - 1;
        if row[v] == 2 && second_pair_of(row, v) < 13 {
            proof {
                lemma_top_index(pair_with_partner(row@), 13, v as int);
            }
            return v;
        }
        k = v;
    }
    proof {
        lemma_top_index(pair_with_partner(row@), 13, -1);
    }
    13
}

/// The row's values other than `a` and `b`, highest first.
pub fn others_values(row: &Vec<usize>, a: usize, b: usize) -> (vals: Vec<u8>)
    requires
        row@.len() == 13,
    ensures
        vals@ == others(row@, a as int, b as int),
{
    let mut rest = zero_row();
    let mut v: usize = 0;
    while v < 13
        invariant
            v <= 13,
            row@.len() == 13,
            rest@.len() == 13,
            forall|u: int| 0 <= u < v ==> rest@[u] == others_row(row@, a as int, b as int)[u],
            forall|u: int| v <= u < 13 ==> rest@[u] == 0,
        decreases 13 - v,
    {
        if v != a && v != b {
            rest.set(v, row[v]);
        }
        v = v + 1;
    }
    assert(rest@ =~= others_row(row@, a as int, b as int));
    desc_values(&rest)
}

/// The row's distinct values, highest first.
pub fn distinct_values(row: &Vec<usize>) -> (vals: Vec<u8>)
    requires
        row@.len() == 13,
    ensures
        vals@ == distinct_desc(row@),
{
    let mut present = zero_row();
    let mut v: usize = 0;
    while v < 13
        invariant
            v <= 13,
            row@.len() == 13,
            present@.len() == 13,
            forall|u: int| 0 <= u < v ==> present@[u] == presence_row(row@)[u],
            forall|u: int| v <= u < 13 ==> present@[u] == 0,
        decreases 13 - v,
    {
        if row[v] > 0 {
            present.set(v, 1);
        }
        v = v + 1;
    }
    assert(present@ =~= presence_row(row@));
    desc_values(&present)
}

/// The distinct values shifted up by two, with 1 added for a low ace.
pub fn high_low_values(row: &Vec<usize>) -> (vals: Vec<u8>)
    requires
        row@.len() == 13,
    ensures
        vals@ == high_low(row@),
{
    let distinct = distinct_values(row);
    proof {
        lemma_desc_shape(presence_row(row@), 0);
    }
    let mut vals: Vec<u8> = Vec::new();
    let mut i: usize = 0;
    while i < distinct.len()
        invariant
            i <= distinct@.len(),
            distinct@ == distinct_desc(row@),
            forall|j: int| 0 <= j < distinct@.len() ==> #[trigger] distinct@[j] < 13,
            vals@ == distinct@.take(i as int).map_values(|r: u8| shift_up(r)),
        decreases distinct@.len() - i,
    {
        vals.push(distinct[i] + 2);
        i = i + 1;
        assert(vals@ =~= distinct@.take(i as int).map_values(|r: u8| shift_up(r)));
    }
    assert(distinct@.take(distinct@.len() as int) =~= distinct@);
    if row[12] > 0 {
        vals.push(1);
    }
    assert(vals@ =~= high_low(row@));
    vals
}

/// The first position at which five values fall by exactly four; when there
/// is none, the position is past the last window.
pub fn find_run(vals: &Vec<u8>) -> (j: usize)
    ensures
        j == first_run(vals@),
{
    let n = vals.len();
    let hi: usize = if n >= 4 { n - 4 } else { 0 };
    let mut j: usize = 0;
    while j < hi
        invariant
            n == vals@.len(),
            j <= hi,
            hi <= vals@.len(),
            hi == (if vals@.len() >= 4 { vals@.len() - 4 } else { 0 }),
            forall|k: int| 0 <= k < j ==> !#[trigger] run_from(vals@)(k),
        decreases hi - j,
    {
        let k: usize = j + 4;
        if vals[j] as i64 - vals[k] as i64 == 4 {
            proof {
                lemma_first_index(run_from(vals@), 0, j as int, hi as int);
            }
            return j;
        }
        j = j + 1;
    }
    proof {
        lemma_first_index(run_from(vals@), 0, hi as int, hi as int);
    }
    hi
}

/// `lists[s]` holds the values of the cards of suit `s`, highest first.
pub open spec fn lists_match(lists: Seq<Vec<u8>>, cards: Seq<Card>) -> bool {
    lists.len() == 4 && forall|s: int| 0 <= s < 4 ==> #[trigger] lists[s]@ == suit_list(cards, s)
}

pub fn suit_lists(cards: &Vec<Card>) -> (lists: Vec<Vec<u8>>)
    ensures
        lists_match(lists@, cards@),
{
    let mut lists: Vec<Vec<u8>> = Vec::new();
    let mut s: u8 = 0;
    while s < 4
        invariant
            s <= 4,
            lists@.len() == s,
            forall|j: int| 0 <= j < s ==> #[trigger] lists@[j]@ == suit_list(cards@, j),
        decreases 4 - s,
    {
        let row = suit_counts(cards, s);
        lists.push(desc_values(&row));
        s = s + 1;
    }
    lists
}

/// The first suit whose five highest values make a royal flush, or 4.
pub fn royal_suit_of(lists: &Vec<Vec<u8>>, Ghost(cards): Ghost<Seq<Card>>) -> (s: usize)
    requires
        lists_match(lists@, cards),
    ensures
        s == first_index(royal_suit(cards), 0, 4),
{
    let mut s: usize = 0;
    while s < 4
        invariant
            s <= 4,
            lists_match(lists@, cards),
            forall|j: int| 0 <= j < s ==> !#[trigger] royal_suit(cards)(j),
        decreases 4 - s,
    {
        let l = &lists[s];
        if l.len() >= 5 && l[0] == 12 && l[1] == 11 && l[2] == 10 && l[3] == 9 && l[4] == 8 {
            assert(l@.take(5) =~= royal_values());
            proof {
                lemma_first_index(royal_suit(cards), 0, s as int, 4);
            }
            return s;
        }
        assert(l@.len() >= 5 ==> l@.take(5)[0] == l@[0] && l@.take(5)[1] == l@[1] && l@.take(5)[2]
            == l@[2] && l@.take(5)[3] == l@[3] && l@.take(5)[4] == l@[4]);
        s = s + 1;
    }
    proof {
        lemma_first_index(royal_suit(cards), 0, 4, 4);
    }
    4
}

/// The first suit with five values falling by exactly four, or 4.
pub fn straight_flush_suit_of(lists: &Vec<Vec<u8>>, Ghost(cards): Ghost<Seq<Card>>) -> (s: usize)
    requires
        lists_match(lists@, cards),
    ensures
        s == straight_flush_suit(cards),
{
    let mut s: usize = 0;
    while s < 4
        invariant
            s <= 4,
            lists_match(lists@, cards),
            forall|j: int| 0 <= j < s ==> !#[trigger] straight_flush_suit_from(cards)(j),
        decreases 4 - s,
    {
        let l = &lists[s];
        if l.len() >= 5 {
            let j = find_run(l);
            if j < l.len() && l.len() - j > 4 {
                let k = j + 4;
                if l[j] as i64 - l[k] as i64 == 4 {
                    proof {
                        lemma_first_index(straight_flush_suit_from(cards), 0, s as int, 4);
                    }
                    return s;
                }
            }
        }
        s = s + 1;
    }
    proof {
        lemma_first_index(straight_flush_suit_from(cards), 0, 4, 4);
    }
    4
}

/// The first suit with at least five cards, or 4.
pub fn flush_suit_of(lists: &Vec<Vec<u8>>, Ghost(cards): Ghost<Seq<Card>>) -> (s: usize)
    requires
        lists_match(lists@, cards),
    ensures
        s == flush_suit(cards),
{
    let mut s: usize = 0;
    while s < 4
        invariant
            s <= 4,
            lists_match(lists@, cards),
            forall|j: int| 0 <= j < s ==> !#[trigger] five_of_suit(cards)(j),
        decreases 4 - s,
    {
        if lists[s].len() >= 5 {
            proof {
                lemma_first_index(five_of_suit(cards), 0, s as int, 4);
            }
            return s;
        }
        s = s + 1;
    }
    proof {
        lemma_first_index(five_of_suit(cards), 0, 4, 4);
    }
    4
}

pub fn unshift_exec(h: u8) -> (r: u8)
    requires
        h == 1 || 2 <= h < 15,
    ensures
        r == unshift(h),
        r < 13,
{
    if h == 1 {
        12
    } else {
        h - 2
    }
}

/// Every entry of `high_low(row)` is 1 or lies in `2..15`.
pub proof fn lemma_high_low_shape(row: Seq<usize>)
    requires
        row.len() == 13,
    ensures
        forall|i: int| 0 <= i < high_low(row).len() ==> #[trigger] high_low(row)[i] == 1 || 2
            <= high_low(row)[i] < 15,
{
    lemma_desc_shape(presence_row(row), 0);
    let d = distinct_desc(row);
    let m = d.map_values(|r: u8| shift_up(r));
    let h = high_low(row);
    assert forall|i: int| 0 <= i < h.len() implies #[trigger] h[i] == 1 || 2 <= h[i] < 15 by {
        if i < m.len() {
            assert(h[i] == m[i]);
            assert(m[i] == shift_up(d[i]));
        }
    }
}

} // verus!
