//! Paying out the pot at the showdown, side pots included.
use vstd::prelude::*;

use crate::cards::eval::{evaluation, first_index, lemma_first_index};
use crate::cards::order::hand_order;
use crate::cards::{hand_cards, HandStrength};
use crate::state::players::seat_of;
use crate::cards::eval::evaluable;
use crate::cards::{Card, EvaluatedHand};
use crate::state::players::{lemma_seat_of_bounds, Players};
use crate::state::{bet_view, GameView, PlayerId, PlayerView, State};

use super::pot_laws::{
    bounds_rise, lemma_folded_upto_sum, lemma_pot_bounds_rise, lemma_with_folded_sum, count_ge, excess, folded_total, lemma_count_ge_nonneg, lemma_count_is_layer, lemma_excess_all_below,
    lemma_excess_nonneg, lemma_excess_step, lemma_excess_zero, lemma_folded_total_prefix, lemma_least_stake_least,
    lemma_stakes_split, lemma_winnings_mono, stake_sum, stake_total,
};
use super::rules::{not_folded, set_seat};

verus! {

/// The players still in the hand, each with their stake.
pub open spec fn contenders(seats: Seq<(Seq<char>, PlayerView)>) -> Seq<(Seq<char>, u64)> {
    not_folded(seats).map_values(|e: (Seq<char>, PlayerView)| (e.1.id, e.1.stake))
}

/// The least stake of at least `lo`, if any.
pub open spec fn least_stake_from(c: Seq<(Seq<char>, u64)>, lo: int) -> Option<u64>
    decreases c.len(),
{
    if c.len() == 0 {
        None
    } else {
        let rest = least_stake_from(c.drop_last(), lo);
        let s = c.last().1;
        if s >= lo && (rest is None || s < rest->0) {
            Some(s)
        } else {
            rest
        }
    }
}

/// The distinct stakes of at least `lo`, in increasing order.
pub open spec fn levels_from(c: Seq<(Seq<char>, u64)>, lo: int) -> Seq<u64>
    decreases 0x1_0000_0000_0000_0000 - lo,
{
    if lo < 0 || lo > u64::MAX {
        Seq::empty()
    } else {
        match least_stake_from(c, lo) {
            Some(m) => if m >= lo {
                seq![m] + levels_from(c, m + 1)
            } else {
                Seq::empty()
            },
            None => Seq::empty(),
        }
    }
}

/// The bounds of the pots: 0 and then each distinct stake.
pub open spec fn pot_bounds(c: Seq<(Seq<char>, u64)>) -> Seq<u64> {
    seq![0u64] + levels_from(c, 0)
}

/// The players who can win a pot: those who staked at least `hi`.
pub open spec fn layer_ids(c: Seq<(Seq<char>, u64)>, hi: u64) -> Seq<Seq<char>> {
    c.filter(|e: (Seq<char>, u64)| e.1 >= hi).map_values(|e: (Seq<char>, u64)| e.0)
}

/// The main pot and the side pots: for each step between bounds, what every
/// player who reached it put in, and who can win it.
pub open spec fn base_pots(c: Seq<(Seq<char>, u64)>) -> Seq<(int, Seq<Seq<char>>)> {
    let w = pot_bounds(c);
    Seq::new(
        (w.len() - 1) as nat,
        |i: int| (layer_ids(c, w[i + 1]).len() * (w[i + 1] - w[i]), layer_ids(c, w[i + 1])),
    )
}

/// The part of a folded stake `s` that lies between the bounds `w[k]` and
/// `w[k + 1]`; the last pot takes all of it that lies above its lower bound.
pub open spec fn folded_part(s: int, w: Seq<u64>, k: int) -> int {
    let lo = if s < w[k] {
        s
    } else {
        w[k] as int
    };
    if k + 2 >= w.len() {
        s - lo
    } else {
        (if s < w[k + 1] {
            s
        } else {
            w[k + 1] as int
        }) - lo
    }
}

/// The pots before `upto` with their parts of a folded stake `s` added.
pub open spec fn folded_upto(pots: Seq<(int, Seq<Seq<char>>)>, w: Seq<u64>, s: int, upto: int) -> Seq<
    (int, Seq<Seq<char>>),
> {
    Seq::new(
        pots.len(),
        |k: int|
            if k < upto {
                (pots[k].0 + folded_part(s, w, k), pots[k].1)
            } else {
                pots[k]
            },
    )
}

/// A folded player's stake stays in the winnable pots: each pot takes the
/// part of it that lies between its bounds, and the last pot what lies above.
pub open spec fn add_folded(pots: Seq<(int, Seq<Seq<char>>)>, w: Seq<u64>, stake: u64) -> Seq<(int, Seq<Seq<char>>)> {
    folded_upto(pots, w, stake as int, pots.len() as int)
}

/// The pots with the stakes of the folded players added, in seating order.
pub open spec fn with_folded(pots: Seq<(int, Seq<Seq<char>>)>, w: Seq<u64>, seats: Seq<(Seq<char>, PlayerView)>) -> Seq<
    (int, Seq<Seq<char>>),
>
    decreases seats.len(),
{
    if seats.len() == 0 {
        pots
    } else {
        let before = with_folded(pots, w, seats.drop_last());
        if seats.last().1.folded {
            add_folded(before, w, seats.last().1.stake)
        } else {
            before
        }
    }
}

pub open spec fn all_pots(g: GameView) -> Seq<(int, Seq<Seq<char>>)> {
    with_folded(base_pots(contenders(g.seats)), pot_bounds(contenders(g.seats)), g.seats)
}

/// The hand of the player in seat `j`.
pub open spec fn score(g: GameView, j: int) -> (HandStrength, Seq<u8>) {
    evaluation(hand_cards(g.seats[j].1.cards, g.table))
}

/// The best hand among the first `n` seats whose players can win the pot with
/// identifiers `ids`.
pub open spec fn best_among(g: GameView, ids: Seq<Seq<char>>, n: int) -> Option<(HandStrength, Seq<u8>)>
    decreases n,
{
    if n <= 0 {
        None
    } else {
        let rest = best_among(g, ids, n - 1);
        if ids.contains(g.seats[n - 1].1.id) {
            match rest {
                Some(b) => if hand_order(score(g, n - 1), b) > 0 {
                    Some(score(g, n - 1))
                } else {
                    Some(b)
                },
                None => Some(score(g, n - 1)),
            }
        } else {
            rest
        }
    }
}

pub open spec fn best_hand(g: GameView, ids: Seq<Seq<char>>) -> Option<(HandStrength, Seq<u8>)> {
    best_among(g, ids, g.seats.len() as int)
}

/// The player in seat `j` wins a pot with identifiers `ids`: they can win it
/// and hold the best hand among those who can.
pub open spec fn wins(g: GameView, ids: Seq<Seq<char>>, j: int) -> bool {
    ids.contains(g.seats[j].1.id) && best_hand(g, ids) == Some(score(g, j))
}

/// How many of the first `n` seats win the pot.
pub open spec fn winner_count(g: GameView, ids: Seq<Seq<char>>, n: int) -> nat
    decreases n,
{
    if n <= 0 {
        0
    } else {
        winner_count(g, ids, n - 1) + (if wins(g, ids, n - 1) {
            1nat
        } else {
            0nat
        })
    }
}

/// What the player in seat `j` takes from the first `k` pots: an equal share
/// of each pot they win, rounded down.
pub open spec fn winnings(g: GameView, pots: Seq<(int, Seq<Seq<char>>)>, j: int, k: int) -> int
    decreases k,
{
    if k <= 0 {
        0
    } else {
        winnings(g, pots, j, k - 1) + (if wins(g, pots[k - 1].1, j) {
            pots[k - 1].0 / (winner_count(g, pots[k - 1].1, g.seats.len() as int) as int)
        } else {
            0
        })
    }
}

pub open spec fn paid_seat(g: GameView, pots: Seq<(int, Seq<Seq<char>>)>, j: int) -> (Seq<char>, PlayerView) {
    (g.seats[j].0, PlayerView { balance: (g.seats[j].1.balance + winnings(g, pots, j, pots.len() as int)) as u64, ..g.seats[j].1 })
}

/// The showdown: with one player left in the hand they take the pot; with
/// more, each pot goes to the best hands among those who can win it, and the
/// pot is emptied. With no player left nothing is paid.
pub open spec fn payout(g: GameView) -> GameView {
    let c = contenders(g.seats);
    if c.len() == 0 {
        g
    } else if c.len() == 1 {
        let i = seat_of(g.seats, c[0].0);
        set_seat(g, i, PlayerView { balance: (g.seats[i].1.balance + g.pot) as u64, ..g.seats[i].1 })
    } else {
        let pots = all_pots(g);
        GameView { seats: Seq::new(g.seats.len(), |j: int| paid_seat(g, pots, j)), pot: 0, ..g }
    }
}

// ---------------------------------------------------------------------------
// Facts about the pots
// ---------------------------------------------------------------------------

pub open spec fn contender_of(e: (Seq<char>, PlayerView)) -> (Seq<char>, u64) {
    (e.1.id, e.1.stake)
}

pub proof fn lemma_contenders_step(seats: Seq<(Seq<char>, PlayerView)>, i: int)
    requires
        0 <= i < seats.len(),
    ensures
        contenders(seats.take(i + 1)) == (if !seats[i].1.folded {
            contenders(seats.take(i)).push(contender_of(seats[i]))
        } else {
            contenders(seats.take(i))
        }),
{
    reveal_with_fuel(Seq::<_>::filter, 1);
    assert(seats.take(i + 1).drop_last() =~= seats.take(i));
    assert(seats.take(i + 1).last() == seats[i]);
    if !seats[i].1.folded {
        assert(not_folded(seats.take(i + 1)) == not_folded(seats.take(i)).push(seats[i]));
        assert(contenders(seats.take(i + 1)) =~= contenders(seats.take(i)).push(contender_of(seats[i])));
    } else {
        assert(not_folded(seats.take(i + 1)) == not_folded(seats.take(i)));
    }
}

/// Each contender is a seated player who has not folded, with their stake.
pub proof fn lemma_contender_seat(seats: Seq<(Seq<char>, PlayerView)>, k: int)
    requires
        0 <= k < contenders(seats).len(),
    ensures
        exists|j: int|
            0 <= j < seats.len() && contender_of(#[trigger] seats[j]) == contenders(seats)[k] && !seats[j].1.folded,
{
    let nf = not_folded(seats);
    assert(nf.contains(nf[k]));
    seats.lemma_filter_contains_rev(|e: (Seq<char>, PlayerView)| !e.1.folded, nf[k]);
    seats.lemma_filter_pred(|e: (Seq<char>, PlayerView)| !e.1.folded, k);
    let j = choose|j: int| 0 <= j < seats.len() && seats[j] == nf[k];
    assert(contender_of(seats[j]) == contenders(seats)[k]);
}

pub proof fn lemma_contenders_len(seats: Seq<(Seq<char>, PlayerView)>)
    ensures
        contenders(seats).len() <= seats.len(),
{
    seats.lemma_filter_len(|e: (Seq<char>, PlayerView)| !e.1.folded);
}

/// The least stake of at least `lo` is one of the stakes, and there is one
/// unless every stake falls below `lo`.
pub proof fn lemma_least_stake(c: Seq<(Seq<char>, u64)>, lo: int)
    ensures
        match least_stake_from(c, lo) {
            Some(m) => m >= lo && exists|i: int| 0 <= i < c.len() && (#[trigger] c[i]).1 == m,
            None => forall|i: int| 0 <= i < c.len() ==> (#[trigger] c[i]).1 < lo,
        },
    decreases c.len(),
{
    if c.len() > 0 {
        lemma_least_stake(c.drop_last(), lo);
        let rest = least_stake_from(c.drop_last(), lo);
        match rest {
            Some(m) => {
                let i = choose|i: int| 0 <= i < c.drop_last().len() && (#[trigger] c.drop_last()[i]).1 == m;
                assert(c[i] == c.drop_last()[i]);
            },
            None => {
                assert forall|i: int| 0 <= i < c.len() - 1 implies (#[trigger] c[i]).1 < lo by {
                    assert(c[i] == c.drop_last()[i]);
                }
            },
        }
        if least_stake_from(c, lo) == Some(c.last().1) {
            assert(c[c.len() - 1].1 == c.last().1);
        }
    }
}

pub proof fn lemma_least_stake_step(c: Seq<(Seq<char>, u64)>, lo: int, i: int)
    requires
        0 <= i < c.len(),
    ensures
        least_stake_from(c.take(i + 1), lo) == (if c[i].1 >= lo && (least_stake_from(c.take(i), lo) is None || c[i].1
            < least_stake_from(c.take(i), lo)->0) {
            Some(c[i].1)
        } else {
            least_stake_from(c.take(i), lo)
        }),
{
    assert(c.take(i + 1).drop_last() =~= c.take(i));
}

pub proof fn lemma_layer_step(c: Seq<(Seq<char>, u64)>, hi: u64, i: int)
    requires
        0 <= i < c.len(),
    ensures
        layer_ids(c.take(i + 1), hi) == (if c[i].1 >= hi {
            layer_ids(c.take(i), hi).push(c[i].0)
        } else {
            layer_ids(c.take(i), hi)
        }),
{
    reveal_with_fuel(Seq::<_>::filter, 1);
    assert(c.take(i + 1).drop_last() =~= c.take(i));
    if c[i].1 >= hi {
        assert(layer_ids(c.take(i + 1), hi) =~= layer_ids(c.take(i), hi).push(c[i].0));
    }
}

/// Who can win a pot: at most every contender, and at least one when some
/// contender staked `hi`.
pub proof fn lemma_layer_len(c: Seq<(Seq<char>, u64)>, hi: u64, i: int)
    requires
        0 <= i < c.len(),
        c[i].1 >= hi,
    ensures
        0 < layer_ids(c, hi).len() <= c.len(),
{
    c.lemma_filter_len(|e: (Seq<char>, u64)| e.1 >= hi);
    c.lemma_filter_contains(|e: (Seq<char>, u64)| e.1 >= hi, i);
}

/// All that the pots hold.
pub open spec fn amount_sum(pots: Seq<(int, Seq<Seq<char>>)>) -> int
    decreases pots.len(),
{
    if pots.len() == 0 {
        0
    } else {
        amount_sum(pots.drop_last()) + pots.last().0
    }
}

pub proof fn lemma_amount_sum_update(pots: Seq<(int, Seq<Seq<char>>)>, k: int, extra: int)
    requires
        0 <= k < pots.len(),
    ensures
        amount_sum(pots.update(k, (pots[k].0 + extra, pots[k].1))) == amount_sum(pots) + extra,
    decreases pots.len(),
{
    let u = pots.update(k, (pots[k].0 + extra, pots[k].1));
    if k < pots.len() - 1 {
        assert(u.drop_last() =~= pots.drop_last().update(k, (pots[k].0 + extra, pots[k].1)));
        lemma_amount_sum_update(pots.drop_last(), k, extra);
    } else {
        assert(u.drop_last() =~= pots.drop_last());
    }
}

pub proof fn lemma_amount_le_sum(pots: Seq<(int, Seq<Seq<char>>)>, k: int)
    requires
        0 <= k < pots.len(),
        forall|i: int| 0 <= i < pots.len() ==> (#[trigger] pots[i]).0 >= 0,
    ensures
        pots[k].0 <= amount_sum(pots),
        amount_sum(pots) >= 0,
    decreases pots.len(),
{
    if k < pots.len() - 1 {
        assert forall|i: int| 0 <= i < pots.drop_last().len() implies (#[trigger] pots.drop_last()[i]).0 >= 0 by {
            assert(pots.drop_last()[i] == pots[i]);
        }
        lemma_amount_le_sum(pots.drop_last(), k);
        assert(pots.drop_last()[k] == pots[k]);
    } else {
        lemma_amount_sum_nonneg(pots.drop_last());
    }
}

pub proof fn lemma_amount_sum_nonneg(pots: Seq<(int, Seq<Seq<char>>)>)
    requires
        forall|i: int| 0 <= i < pots.len() ==> (#[trigger] pots[i]).0 >= 0,
    ensures
        amount_sum(pots) >= 0,
    decreases pots.len(),
{
    if pots.len() > 0 {
        assert forall|i: int| 0 <= i < pots.drop_last().len() implies (#[trigger] pots.drop_last()[i]).0 >= 0 by {
            assert(pots.drop_last()[i] == pots[i]);
        }
        lemma_amount_sum_nonneg(pots.drop_last());
    }
}

/// Whoever wins a pot is counted among its winners.
pub proof fn lemma_winner_counted(g: GameView, ids: Seq<Seq<char>>, n: int, j: int)
    requires
        0 <= j < n,
        wins(g, ids, j),
    ensures
        winner_count(g, ids, n) >= 1,
    decreases n,
{
    if j < n - 1 {
        lemma_winner_counted(g, ids, n - 1, j);
    }
}

/// No player takes more than the pots hold.
pub proof fn lemma_winnings_le(g: GameView, pots: Seq<(int, Seq<Seq<char>>)>, j: int, k: int)
    requires
        0 <= j < g.seats.len(),
        0 <= k <= pots.len(),
        forall|i: int| 0 <= i < pots.len() ==> (#[trigger] pots[i]).0 >= 0,
    ensures
        0 <= winnings(g, pots, j, k) <= amount_sum(pots.take(k)),
    decreases k,
{
    if k > 0 {
        lemma_winnings_le(g, pots, j, k - 1);
        assert(pots.take(k).drop_last() =~= pots.take(k - 1));
        if wins(g, pots[k - 1].1, j) {
            lemma_winner_counted(g, pots[k - 1].1, g.seats.len() as int, j);
            let a = pots[k - 1].0;
            let w = winner_count(g, pots[k - 1].1, g.seats.len() as int) as int;
            assert(0 <= a / w <= a) by (nonlinear_arith)
                requires
                    a >= 0,
                    w >= 1,
            ;
        }
    }
}

pub proof fn lemma_amount_sum_prefix(pots: Seq<(int, Seq<Seq<char>>)>, k: int)
    requires
        0 <= k <= pots.len(),
        forall|i: int| 0 <= i < pots.len() ==> (#[trigger] pots[i]).0 >= 0,
    ensures
        amount_sum(pots.take(k)) <= amount_sum(pots),
    decreases pots.len() - k,
{
    if k < pots.len() {
        lemma_amount_sum_prefix(pots, k + 1);
        assert(pots.take(k + 1).drop_last() =~= pots.take(k));
    } else {
        assert(pots.take(k) =~= pots);
    }
}

// ---------------------------------------------------------------------------
// Paying out
// ---------------------------------------------------------------------------

pub open spec fn bets_view(s: Seq<(PlayerId, u64)>) -> Seq<(Seq<char>, u64)> {
    s.map_values(|b: (PlayerId, u64)| bet_view(b))
}

pub open spec fn ids_view(s: Seq<PlayerId>) -> Seq<Seq<char>> {
    s.map_values(|id: PlayerId| id@)
}

pub open spec fn pots_view(amounts: Seq<u64>, layers: Seq<Vec<PlayerId>>) -> Seq<(int, Seq<Seq<char>>)> {
    Seq::new(amounts.len(), |k: int| (amounts[k] as int, ids_view(layers[k]@)))
}

/// The pot between bounds `w[k]` and `w[k + 1]`.
pub open spec fn pot_between(c: Seq<(Seq<char>, u64)>, w: Seq<u64>, k: int) -> (int, Seq<Seq<char>>) {
    (layer_ids(c, w[k + 1]).len() * (w[k + 1] - w[k]), layer_ids(c, w[k + 1]))
}

/// What the showdown needs to run without failing: a lone player left in the
/// hand is seated under their identifier and the pot fits on top of their
/// balance; with more players in the hand, the stakes add up within `u64`,
/// every seated player's hand can be evaluated, and what each seat takes fits
/// on top of its balance.
pub open spec fn payout_ready(g: GameView) -> bool {
    let c = contenders(g.seats);
    &&& c.len() == 1 ==> {
        let i = seat_of(g.seats, c[0].0);
        i < g.seats.len() && g.seats[i].1.balance + g.pot <= u64::MAX
    }
    &&& c.len() >= 2 ==> {
        &&& stake_sum(g.seats) <= u64::MAX
        &&& forall|j: int| 0 <= j < g.seats.len() ==> evaluable(hand_cards((#[trigger] g.seats[j]).1.cards, g.table))
        &&& forall|j: int|
            0 <= j < g.seats.len() ==> (#[trigger] g.seats[j]).1.balance + winnings(g, all_pots(g), j, all_pots(g).len() as int)
                <= u64::MAX
    }
}

/// The players still in the hand, with their stakes, in seating order.
fn stakes_in_hand(players: &Players) -> (c: Vec<(PlayerId, u64)>)
    ensures
        bets_view(c@) == contenders(players.seats()),
{
    let ghost seats = players.seats();
    let n = players.len();
    let mut c: Vec<(PlayerId, u64)> = Vec::new();
    let mut i: usize = 0;
    assert(contenders(seats.take(0)) =~= Seq::<(Seq<char>, u64)>::empty()) by {
        reveal_with_fuel(Seq::<_>::filter, 1);
    }
    assert(bets_view(c@) =~= contenders(seats.take(0)));
    while i < n
        invariant
            n == seats.len(),
            i <= n,
            seats == players.seats(),
            bets_view(c@) == contenders(seats.take(i as int)),
        decreases n - i,
    {
        let p = &players.at(i).1;
        proof {
            lemma_contenders_step(seats, i as int);
        }
        if !p.folded {
            c.push((p.id.clone(), p.stake));
            assert(bets_view(c@) =~= contenders(seats.take(i as int)).push(contender_of(seats[i as int])));
        }
        i = i + 1;
    }
    assert(seats.take(n as int) =~= seats);
    c
}

/// The least stake of at least `lo`.
fn least_stake(c: &Vec<(PlayerId, u64)>, lo: u64) -> (m: Option<u64>)
    ensures
        m == least_stake_from(bets_view(c@), lo as int),
{
    let ghost cv = bets_view(c@);
    let n = c.len();
    let mut best: Option<u64> = None;
    let mut i: usize = 0;
    while i < n
        invariant
            n == c@.len(),
            cv == bets_view(c@),
            i <= n,
            best == least_stake_from(cv.take(i as int), lo as int),
        decreases n - i,
    {
        proof {
            lemma_least_stake_step(cv, lo as int, i as int);
        }
        let s = c[i].1;
        let lower = match best {
            None => true,
            Some(b) => s < b,
        };
        if s >= lo && lower {
            best = Some(s);
        }
        i = i + 1;
    }
    assert(cv.take(n as int) =~= cv);
    best
}

/// The identifiers of those who staked at least `hi`.
fn layer_of(c: &Vec<(PlayerId, u64)>, hi: u64) -> (ids: Vec<PlayerId>)
    ensures
        ids_view(ids@) == layer_ids(bets_view(c@), hi),
{
    let ghost cv = bets_view(c@);
    let n = c.len();
    let mut ids: Vec<PlayerId> = Vec::new();
    let mut i: usize = 0;
    assert(layer_ids(cv.take(0), hi) =~= Seq::<Seq<char>>::empty()) by {
        reveal_with_fuel(Seq::<_>::filter, 1);
    }
    assert(ids_view(ids@) =~= layer_ids(cv.take(0), hi));
    while i < n
        invariant
            n == c@.len(),
            cv == bets_view(c@),
            i <= n,
            ids_view(ids@) == layer_ids(cv.take(i as int), hi),
        decreases n - i,
    {
        proof {
            lemma_layer_step(cv, hi, i as int);
        }
        if c[i].1 >= hi {
            ids.push(c[i].0.clone());
            assert(ids_view(ids@) =~= layer_ids(cv.take(i as int), hi).push(cv[i as int].0));
        }
        i = i + 1;
    }
    assert(cv.take(n as int) =~= cv);
    ids
}

/// The main pot and the side pots, one for each distinct stake.
fn base_pot_list(c: &Vec<(PlayerId, u64)>) -> (pots: (Vec<u64>, Vec<Vec<PlayerId>>, Vec<u64>))
    requires
        stake_total(bets_view(c@)) <= u64::MAX,
    ensures
        pots.0@.len() == pots.1@.len(),
        pots.2@ == pot_bounds(bets_view(c@)),
        pots_view(pots.0@, pots.1@) == base_pots(bets_view(c@)),
        forall|k: int| 0 <= k < pots.1@.len() ==> (#[trigger] pots.1@[k])@.len() > 0,
        amount_sum(pots_view(pots.0@, pots.1@)) == stake_total(bets_view(c@)),
{
    let ghost cv = bets_view(c@);
    let mut amounts: Vec<u64> = Vec::new();
    let mut layers: Vec<Vec<PlayerId>> = Vec::new();
    let mut bounds: Vec<u64> = vec![0u64];
    let ghost mut levels: Seq<u64> = Seq::empty();
    let mut prev: u64 = 0;
    assert(bounds@ =~= seq![0u64] + levels);
    let mut search: u64 = 0;
    let mut finished = false;
    assert(levels + levels_from(cv, 0) =~= levels_from(cv, 0));
    assert(pots_view(amounts@, layers@) =~= Seq::<(int, Seq<Seq<char>>)>::empty());
    proof {
        lemma_excess_zero(cv);
    }
    while !finished
        invariant
            cv == bets_view(c@),
            cv.len() == c@.len(),
            stake_total(cv) <= u64::MAX,
            amounts@.len() == levels.len(),
            layers@.len() == levels.len(),
            bounds@ == seq![0u64] + levels,
            levels_from(cv, 0) == levels + (if finished {
                Seq::<u64>::empty()
            } else {
                levels_from(cv, search as int)
            }),
            prev == (seq![0u64] + levels).last(),
            !finished ==> search == (if levels.len() == 0 {
                0
            } else {
                prev + 1
            }),
            forall|k: int| 0 <= k < levels.len() ==> #[trigger] pots_view(amounts@, layers@)[k] == pot_between(cv, seq![0u64] + levels, k),
            forall|k: int| 0 <= k < layers@.len() ==> (#[trigger] layers@[k])@.len() > 0,
            amount_sum(pots_view(amounts@, layers@)) + excess(cv, prev as int) == stake_total(cv),
            finished ==> excess(cv, prev as int) == 0,
        decreases (if finished {
            0int
        } else {
            0x1_0000_0000_0000_0001 - search
        }),
    {
        proof {
            lemma_least_stake(cv, search as int);
            lemma_least_stake_least(cv, search as int);
        }
        match least_stake(c, search) {
            None => {
                finished = true;
                assert(levels + Seq::<u64>::empty() =~= levels);
                assert forall|i: int| 0 <= i < cv.len() implies (#[trigger] cv[i]).1 <= prev by {}
                proof {
                    lemma_excess_all_below(cv, prev as int);
                }
            },
            Some(m) => {
                let ghost idx = choose|i: int| 0 <= i < cv.len() && (#[trigger] cv[i]).1 == m;
                assert(cv[idx].1 == c@[idx].1);
                proof {
                    lemma_layer_len(cv, m, idx);
                    lemma_count_is_layer(cv, m);
                    assert forall|i: int| 0 <= i < cv.len() implies (#[trigger] cv[i]).1 <= prev || cv[i].1 >= m by {
                        if cv[i].1 > prev {
                            assert(cv[i].1 >= search);
                        }
                    }
                    lemma_excess_step(cv, prev as int, m as int);
                    lemma_excess_nonneg(cv, m as int);
                    lemma_count_ge_nonneg(cv, m as int);
                    let pv = pots_view(amounts@, layers@);
                    assert forall|k: int| 0 <= k < pv.len() implies (#[trigger] pv[k]).0 >= 0 by {}
                    lemma_amount_sum_nonneg(pv);
                }
                let ghost w = seq![0u64] + levels;
                let ghost old_pots = pots_view(amounts@, layers@);
                let layer = layer_of(c, m);
                let count = layer.len() as u64;
                assert(count * (m - prev) <= excess(cv, prev as int)) by (nonlinear_arith)
                    requires
                        excess(cv, prev as int) == count_ge(cv, m as int) * (m - prev) + excess(cv, m as int),
                        excess(cv, m as int) >= 0,
                        count == count_ge(cv, m as int),
                ;
                let amount = count * (m - prev);
                amounts.push(amount);
                layers.push(layer);
                bounds.push(m);
                proof {
                    let np = pots_view(amounts@, layers@);
                    assert(np.drop_last() =~= old_pots);
                    if m == u64::MAX {
                        assert(levels_from(cv, m + 1) =~= Seq::<u64>::empty());
                    }
                    assert(levels + levels_from(cv, search as int) =~= levels.push(m) + levels_from(cv, m + 1));
                    levels = levels.push(m);
                    assert(bounds@ =~= seq![0u64] + levels);
                    let w2 = seq![0u64] + levels;
                    assert forall|k: int| 0 <= k < levels.len() implies #[trigger] np[k] == pot_between(cv, w2, k) by {
                        if k < levels.len() - 1 {
                            assert(np[k] == old_pots[k]);
                            assert(w2[k] == w[k] && w2[k + 1] == w[k + 1]);
                        }
                    }
                }
                prev = m;
                if m == u64::MAX {
                    finished = true;
                    proof {
                        assert forall|i: int| 0 <= i < cv.len() implies (#[trigger] cv[i]).1 <= prev by {}
                        lemma_excess_all_below(cv, prev as int);
                        assert(levels + Seq::<u64>::empty() =~= levels);
                    }
                } else {
                    search = m + 1;
                }
            },
        }
    }
    let ghost w = seq![0u64] + levels;
    assert(levels_from(cv, 0) =~= levels);
    assert(pots_view(amounts@, layers@) =~= base_pots(cv)) by {
        assert(pot_bounds(cv) == w);
        assert forall|k: int| 0 <= k < levels.len() implies #[trigger] pots_view(amounts@, layers@)[k] == base_pots(cv)[k] by {
            assert(pots_view(amounts@, layers@)[k] == pot_between(cv, w, k));
        }
    }
    (amounts, layers, bounds)
}

/// The folded players' stakes, each spread over the pots by the bounds.
fn add_folded_stakes(players: &Players, amounts: &mut Vec<u64>, layers: &Vec<Vec<PlayerId>>, bounds: &Vec<u64>)
    requires
        old(amounts)@.len() == layers@.len(),
        layers@.len() >= 1,
        bounds@.len() == layers@.len() + 1,
        bounds_rise(bounds@),
        amount_sum(pots_view(old(amounts)@, layers@)) + folded_total(players.seats()) <= u64::MAX,
    ensures
        final(amounts)@.len() == layers@.len(),
        pots_view(final(amounts)@, layers@) == with_folded(pots_view(old(amounts)@, layers@), bounds@, players.seats()),
{
    let ghost seats = players.seats();
    let ghost w = bounds@;
    let ghost start = pots_view(old(amounts)@, layers@);
    let n = players.len();
    let np = layers.len();
    let mut i: usize = 0;
    assert(seats.take(0) =~= Seq::<(Seq<char>, PlayerView)>::empty());
    assert forall|q: int| 0 <= q < start.len() implies (#[trigger] start[q]).0 >= 0 by {}
    while i < n
        invariant
            n == seats.len(),
            seats == players.seats(),
            w == bounds@,
            np == layers@.len(),
            np >= 1,
            w.len() == np + 1,
            bounds_rise(w),
            forall|q: int| 0 <= q < start.len() ==> (#[trigger] start[q]).0 >= 0,
            start.len() == np,
            amount_sum(start) + folded_total(seats) <= u64::MAX,
            amounts@.len() == np,
            i <= n,
            pots_view(amounts@, layers@) == with_folded(start, w, seats.take(i as int)),
        decreases n - i,
    {
        let ghost before = pots_view(amounts@, layers@);
        assert(seats.take(i + 1).drop_last() =~= seats.take(i as int));
        assert(seats.take(i + 1).last() == seats[i as int]);
        proof {
            lemma_folded_total_prefix(seats, i + 1);
            lemma_with_folded_sum(start, w, seats.take(i as int));
        }
        let p = &players.at(i).1;
        if p.folded {
            let stake = p.stake;
            let mut k: usize = 0;
            while k < np
                invariant
                    np == layers@.len(),
                    np >= 1,
                    w == bounds@,
                    w.len() == np + 1,
                    bounds_rise(w),
                    amounts@.len() == np,
                    before.len() == np,
                    forall|q: int| 0 <= q < before.len() ==> (#[trigger] before[q]).0 >= 0,
                    amount_sum(before) + stake <= u64::MAX,
                    k <= np,
                    pots_view(amounts@, layers@) == folded_upto(before, w, stake as int, k as int),
                decreases np - k,
            {
                proof {
                    lemma_folded_upto_sum(before, w, stake as int, k as int);
                    lemma_folded_upto_sum(before, w, stake as int, k + 1);
                    assert(w[k as int] <= w[k + 1]);
                    let cur = folded_upto(before, w, stake as int, k as int);
                    assert forall|q: int| 0 <= q < cur.len() implies (#[trigger] cur[q]).0 >= 0 by {
                        assert(cur[q].0 >= before[q].0);
                    }
                    lemma_amount_le_sum(cur, k as int);
                    assert(cur[k as int] == before[k as int]);
                }
                let lo = if stake < bounds[k] {
                    stake
                } else {
                    bounds[k]
                };
                let part = if k + 1 == np {
                    stake - lo
                } else {
                    (if stake < bounds[k + 1] {
                        stake
                    } else {
                        bounds[k + 1]
                    }) - lo
                };
                assert(part as int == folded_part(stake as int, w, k as int));
                assert(amounts@[k as int] as int == before[k as int].0) by {
                    assert(pots_view(amounts@, layers@)[k as int] == folded_upto(before, w, stake as int, k as int)[k as int]);
                }
                let ghost old_amounts = amounts@;
                let added = amounts[k] + part;
                amounts[k] = added;
                assert forall|q: int| 0 <= q < np implies #[trigger] pots_view(amounts@, layers@)[q] == folded_upto(
                    before,
                    w,
                    stake as int,
                    k + 1,
                )[q] by {
                    if q != k {
                        assert(pots_view(old_amounts, layers@)[q] == folded_upto(before, w, stake as int, k as int)[q]);
                    }
                }
                assert(pots_view(amounts@, layers@) =~= folded_upto(before, w, stake as int, k + 1));
                k = k + 1;
            }
        }
        i = i + 1;
    }
    assert(seats.take(n as int) =~= seats);
}

/// The identifier and the hand of each seated player.
fn seat_scores(state: &State) -> (r: (Vec<PlayerId>, Vec<EvaluatedHand>))
    requires
        forall|j: int| 0 <= j < state.game().seats.len() ==> evaluable(hand_cards((#[trigger] state.game().seats[j]).1.cards, state.game().table)),
    ensures
        r.0@.len() == state.game().seats.len(),
        r.1@.len() == state.game().seats.len(),
        forall|j: int| 0 <= j < r.0@.len() ==> (#[trigger] r.0@[j])@ == state.game().seats[j].1.id,
        forall|j: int| 0 <= j < r.1@.len() ==> (#[trigger] r.1@[j])@ == score(state.game(), j),
{
    let ghost g = state.game();
    let n = state.players.len();
    let mut ids: Vec<PlayerId> = Vec::new();
    let mut scores: Vec<EvaluatedHand> = Vec::new();
    let mut i: usize = 0;
    while i < n
        invariant
            n == g.seats.len(),
            g == state.game(),
            forall|j: int| 0 <= j < g.seats.len() ==> evaluable(hand_cards((#[trigger] g.seats[j]).1.cards, g.table)),
            i <= n,
            ids@.len() == i,
            scores@.len() == i,
            forall|j: int| 0 <= j < i ==> (#[trigger] ids@[j])@ == g.seats[j].1.id,
            forall|j: int| 0 <= j < i ==> (#[trigger] scores@[j])@ == score(g, j),
        decreases n - i,
    {
        let p = &state.players.at(i).1;
        assert(g.seats[i as int].1.cards == p.cards);
        let hand = Card::evaluate_hand(&p.cards, state.round.cards_on_table.as_slice());
        ids.push(p.id.clone());
        scores.push(hand);
        i = i + 1;
    }
    (ids, scores)
}

fn holds_id(ids: &Vec<PlayerId>, id: &PlayerId) -> (found: bool)
    ensures
        found == ids_view(ids@).contains(id@),
{
    let n = ids.len();
    let mut k: usize = 0;
    while k < n
        invariant
            n == ids@.len(),
            k <= n,
            forall|q: int| 0 <= q < k ==> (#[trigger] ids@[q])@ != id@,
        decreases n - k,
    {
        if ids[k] == *id {
            assert(ids_view(ids@)[k as int] == id@);
            return true;
        }
        k = k + 1;
    }
    assert forall|q: int| 0 <= q < ids_view(ids@).len() implies #[trigger] ids_view(ids@)[q] != id@ by {
        assert(ids_view(ids@)[q] == ids@[q]@);
    }
    false
}

pub open spec fn scored(g: GameView, ids: Seq<PlayerId>, scores: Seq<EvaluatedHand>) -> bool {
    &&& ids.len() == g.seats.len()
    &&& scores.len() == g.seats.len()
    &&& forall|j: int| 0 <= j < ids.len() ==> (#[trigger] ids[j])@ == g.seats[j].1.id
    &&& forall|j: int| 0 <= j < scores.len() ==> (#[trigger] scores[j])@ == score(g, j)
}

/// The best hand among those who can win the pot.
fn best_score(layer: &Vec<PlayerId>, ids: &Vec<PlayerId>, scores: &Vec<EvaluatedHand>, Ghost(g): Ghost<GameView>) -> (best: Option<EvaluatedHand>)
    requires
        scored(g, ids@, scores@),
    ensures
        match best {
            Some(b) => best_hand(g, ids_view(layer@)) == Some(b@),
            None => best_hand(g, ids_view(layer@)) is None,
        },
{
    let n = ids.len();
    let mut best: Option<EvaluatedHand> = None;
    let mut j: usize = 0;
    while j < n
        invariant
            n == g.seats.len(),
            scored(g, ids@, scores@),
            j <= n,
            match best {
                Some(b) => best_among(g, ids_view(layer@), j as int) == Some(b@),
                None => best_among(g, ids_view(layer@), j as int) is None,
            },
        decreases n - j,
    {
        if holds_id(layer, &ids[j]) {
            let s = scores[j];
            match best {
                Some(b) => {
                    if s.compare(&b) > 0 {
                        best = Some(s);
                    }
                },
                None => {
                    best = Some(s);
                },
            }
        }
        j = j + 1;
    }
    best
}

/// How many seated players hold the best hand among those who can win the
/// pot.
fn count_winners(layer: &Vec<PlayerId>, ids: &Vec<PlayerId>, scores: &Vec<EvaluatedHand>, best: &EvaluatedHand, Ghost(g): Ghost<GameView>) -> (count: usize)
    requires
        scored(g, ids@, scores@),
        best_hand(g, ids_view(layer@)) == Some(best@),
    ensures
        count == winner_count(g, ids_view(layer@), g.seats.len() as int),
{
    let n = ids.len();
    let mut count: usize = 0;
    let mut j: usize = 0;
    while j < n
        invariant
            n == g.seats.len(),
            scored(g, ids@, scores@),
            best_hand(g, ids_view(layer@)) == Some(best@),
            j <= n,
            count == winner_count(g, ids_view(layer@), j as int),
            count <= j,
        decreases n - j,
    {
        if holds_id(layer, &ids[j]) && scores[j] == *best {
            count = count + 1;
        }
        j = j + 1;
    }
    count
}

pub open spec fn paid_after(g: GameView, pots: Seq<(int, Seq<Seq<char>>)>, j: int, k: int) -> (Seq<char>, PlayerView) {
    (g.seats[j].0, PlayerView { balance: (g.seats[j].1.balance + winnings(g, pots, j, k)) as u64, ..g.seats[j].1 })
}

/// Pays every pot out to its winners.
fn pay_winners(
    players: &mut Players,
    amounts: &Vec<u64>,
    layers: &Vec<Vec<PlayerId>>,
    ids: &Vec<PlayerId>,
    scores: &Vec<EvaluatedHand>,
    Ghost(g): Ghost<GameView>,
)
    requires
        old(players).seats() == g.seats,
        scored(g, ids@, scores@),
        amounts@.len() == layers@.len(),
        forall|j: int|
            0 <= j < g.seats.len() ==> (#[trigger] g.seats[j]).1.balance + winnings(
                g,
                pots_view(amounts@, layers@),
                j,
                amounts@.len() as int,
            ) <= u64::MAX,
    ensures
        final(players).dormant() == old(players).dormant(),
        final(players).seats() == Seq::new(g.seats.len(), |j: int| paid_seat(g, pots_view(amounts@, layers@), j)),
{
    let ghost pots = pots_view(amounts@, layers@);
    let n = players.len();
    let np = amounts.len();
    let mut k: usize = 0;
    assert forall|j: int| 0 <= j < n implies #[trigger] players.seats()[j] == paid_after(g, pots, j, 0) by {
        assert(players.seats()[j] =~= paid_after(g, pots, j, 0));
    }
    while k < np
        invariant
            n == g.seats.len(),
            np == pots.len(),
            amounts@.len() == layers@.len(),
            pots == pots_view(amounts@, layers@),
            scored(g, ids@, scores@),
            forall|j: int| 0 <= j < g.seats.len() ==> (#[trigger] g.seats[j]).1.balance + winnings(g, pots, j, np as int) <= u64::MAX,
            k <= np,
            players.seats().len() == n,
            players.dormant() == old(players).dormant(),
            forall|j: int| 0 <= j < n ==> #[trigger] players.seats()[j] == paid_after(g, pots, j, k as int),
        decreases np - k,
    {
        let best = best_score(&layers[k], ids, scores, Ghost(g));
        assert(pots[k as int].1 == ids_view(layers@[k as int]@));
        match best {
            Some(b) => {
                let count = count_winners(&layers[k], ids, scores, &b, Ghost(g));
                let mut j: usize = 0;
                while j < n
                    invariant
                        n == g.seats.len(),
                        np == pots.len(),
                        k < np,
                        amounts@.len() == layers@.len(),
                        pots == pots_view(amounts@, layers@),
                        pots[k as int].1 == ids_view(layers@[k as int]@),
                        scored(g, ids@, scores@),
                        forall|q: int| 0 <= q < g.seats.len() ==> (#[trigger] g.seats[q]).1.balance + winnings(g, pots, q, np as int) <= u64::MAX,
                        best_hand(g, pots[k as int].1) == Some(b@),
                        count == winner_count(g, pots[k as int].1, n as int),
                        j <= n,
                        players.seats().len() == n,
                        players.dormant() == old(players).dormant(),
                        forall|q: int| 0 <= q < j ==> #[trigger] players.seats()[q] == paid_after(g, pots, q, k + 1),
                        forall|q: int| j <= q < n ==> #[trigger] players.seats()[q] == paid_after(g, pots, q, k as int),
                    decreases n - j,
                {
                    proof {
                        assert forall|q: int| 0 <= q < pots.len() implies (#[trigger] pots[q]).0 >= 0 by {}
                        lemma_winnings_le(g, pots, j as int, k as int);
                        lemma_winnings_mono(g, pots, j as int, k + 1, np as int);
                        assert(g.seats[j as int].1.balance + winnings(g, pots, j as int, np as int) <= u64::MAX);
                    }
                    if holds_id(&layers[k], &ids[j]) && scores[j] == b {
                        proof {
                            lemma_winner_counted(g, pots[k as int].1, n as int, j as int);
                        }
                        let share = amounts[k] / (count as u64);
                        let p = players.at_mut(j);
                        p.balance = p.balance + share;
                        assert(players.seats()[j as int] =~= paid_after(g, pots, j as int, k + 1));
                    } else {
                        assert(players.seats()[j as int] =~= paid_after(g, pots, j as int, k + 1));
                    }
                    j = j + 1;
                }
            },
            None => {
                assert forall|j: int| 0 <= j < n implies #[trigger] players.seats()[j] == paid_after(g, pots, j, k + 1) by {
                    assert(!wins(g, pots[k as int].1, j));
                    assert(paid_after(g, pots, j, k + 1) =~= paid_after(g, pots, j, k as int));
                }
            },
        }
        k = k + 1;
    }
    assert(players.seats() =~= Seq::new(g.seats.len(), |j: int| paid_seat(g, pots, j)));
}

/// The showdown: with one player left in the hand they take the pot; with
/// more, each pot goes to the best hands among those who can win it, and the
/// pot is emptied.
pub fn payout_game_winners(state: &mut State)
    requires
        payout_ready(old(state).game()),
    ensures
        final(state).game() == payout(old(state).game()),
        final(state).same_surroundings(old(state)),
{
    let ghost g = state.game();
    let c = stakes_in_hand(&state.players);
    proof {
        lemma_contenders_len(g.seats);
    }
    if c.len() == 0 {
        return;
    }
    if c.len() == 1 {
        proof {
            lemma_seat_of_bounds(g.seats, c@[0].0@);
            assert(contenders(g.seats)[0] == bet_view(c@[0]));
        }
        let pot = state.round.pot;
        match state.players.get_mut(&c[0].0) {
            Some(p) => {
                p.balance = p.balance + pot;
            },
            None => {},
        }
        assert(state.game() =~= payout(g));
        return;
    }
    proof {
        lemma_stakes_split(g.seats);
        crate::game::pot_laws::lemma_folded_total_nonneg(g.seats);
    }
    let (mut amounts, layers, bounds) = base_pot_list(&c);
    proof {
        lemma_pot_bounds_rise(bets_view(c@));
    }
    add_folded_stakes(&state.players, &mut amounts, &layers, &bounds);
    let (ids, scores) = seat_scores(state);
    pay_winners(&mut state.players, &amounts, &layers, &ids, &scores, Ghost(g));
    state.round.pot = 0;
    assert(state.game() =~= payout(g));
}

} // verus!
