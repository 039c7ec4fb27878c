//! Where the chips go at the showdown: the pots hold exactly what the players
//! still in the hand staked, and the winners take no more than the pots hold.
use vstd::prelude::*;

use crate::cards::eval::lemma_first_index_bounds;
use crate::state::players::{lemma_seat_of_bounds, seat_of};
use crate::state::{GameView, PlayerView};

use super::laws::{balance_sum, lemma_balance_sum_update};
use super::rules::{
    after_action, bet_outcome, clear_bets, complete_round, fold_outcome, next_turn, place_cards, post_blind,
    bet_runs, reset_players, set_seat, staked, start_outcome, turn_choice,
};
use crate::state::{BetAction, GameStatus, BIG_BLIND, SMALL_BLIND};
use super::payout::{
    add_folded, all_pots, amount_sum, base_pots, contender_of, contenders, folded_part, folded_upto, layer_ids, least_stake_from,
    lemma_amount_le_sum, lemma_amount_sum_nonneg, lemma_amount_sum_prefix, lemma_amount_sum_update,
    lemma_contender_seat, lemma_contenders_step, lemma_least_stake, lemma_winner_counted, lemma_winnings_le,
    levels_from, paid_seat, payout, payout_ready, pot_between, pot_bounds, winner_count, winnings, wins, with_folded,
};

verus! {

/// The sum of the stakes.
pub open spec fn stake_total(c: Seq<(Seq<char>, u64)>) -> int
    decreases c.len(),
{
    if c.len() == 0 {
        0
    } else {
        stake_total(c.drop_last()) + c.last().1
    }
}

/// How far the stakes reach past `floor`, added up.
pub open spec fn excess(c: Seq<(Seq<char>, u64)>, floor: int) -> int
    decreases c.len(),
{
    if c.len() == 0 {
        0
    } else {
        excess(c.drop_last(), floor) + (if c.last().1 > floor {
            c.last().1 - floor
        } else {
            0
        })
    }
}

/// How many stakes reach `hi`.
pub open spec fn count_ge(c: Seq<(Seq<char>, u64)>, hi: int) -> int
    decreases c.len(),
{
    if c.len() == 0 {
        0
    } else {
        count_ge(c.drop_last(), hi) + (if c.last().1 >= hi {
            1int
        } else {
            0
        })
    }
}

/// The pots between consecutive bounds.
pub open spec fn pots_from(c: Seq<(Seq<char>, u64)>, w: Seq<u64>) -> Seq<(int, Seq<Seq<char>>)> {
    Seq::new((w.len() - 1) as nat, |i: int| pot_between(c, w, i))
}

/// The stakes of every seated player.
pub open spec fn stake_sum(seats: Seq<(Seq<char>, PlayerView)>) -> int
    decreases seats.len(),
{
    if seats.len() == 0 {
        0
    } else {
        stake_sum(seats.drop_last()) + seats.last().1.stake
    }
}

/// The stakes of the players who folded.
pub open spec fn folded_total(seats: Seq<(Seq<char>, PlayerView)>) -> int
    decreases seats.len(),
{
    if seats.len() == 0 {
        0
    } else {
        folded_total(seats.drop_last()) + (if seats.last().1.folded {
            seats.last().1.stake as int
        } else {
            0
        })
    }
}

/// What the first `n` seats take from the first `k` pots.
pub open spec fn winnings_sum(g: GameView, pots: Seq<(int, Seq<Seq<char>>)>, n: int, k: int) -> int
    decreases n,
{
    if n <= 0 {
        0
    } else {
        winnings_sum(g, pots, n - 1, k) + winnings(g, pots, n - 1, k)
    }
}

pub proof fn lemma_least_stake_least(c: Seq<(Seq<char>, u64)>, lo: int)
    ensures
        least_stake_from(c, lo) matches Some(m) ==> forall|i: int| 0 <= i < c.len() && (#[trigger] c[i]).1 >= lo ==> c[i].1 >= m,
    decreases c.len(),
{
    if c.len() > 0 {
        let d = c.drop_last();
        lemma_least_stake_least(d, lo);
        lemma_least_stake(d, lo);
        match least_stake_from(c, lo) {
            Some(m) => {
                assert forall|i: int| 0 <= i < c.len() && (#[trigger] c[i]).1 >= lo implies c[i].1 >= m by {
                    if i < c.len() - 1 {
                        assert(c[i] == d[i]);
                    } else {
                        assert(c[i] == c.last());
                    }
                }
            },
            None => {},
        }
    }
}

pub proof fn lemma_count_is_layer(c: Seq<(Seq<char>, u64)>, hi: u64)
    ensures
        layer_ids(c, hi).len() == count_ge(c, hi as int),
    decreases c.len(),
{
    reveal_with_fuel(Seq::<_>::filter, 1);
    if c.len() > 0 {
        lemma_count_is_layer(c.drop_last(), hi);
    }
}

pub proof fn lemma_excess_all_below(c: Seq<(Seq<char>, u64)>, floor: int)
    requires
        forall|i: int| 0 <= i < c.len() ==> (#[trigger] c[i]).1 <= floor,
    ensures
        excess(c, floor) == 0,
    decreases c.len(),
{
    if c.len() > 0 {
        assert forall|i: int| 0 <= i < c.drop_last().len() implies (#[trigger] c.drop_last()[i]).1 <= floor by {
            assert(c.drop_last()[i] == c[i]);
        }
        lemma_excess_all_below(c.drop_last(), floor);
        assert(c[c.len() - 1] == c.last());
    }
}

pub proof fn lemma_excess_nonneg(c: Seq<(Seq<char>, u64)>, floor: int)
    ensures
        excess(c, floor) >= 0,
    decreases c.len(),
{
    if c.len() > 0 {
        lemma_excess_nonneg(c.drop_last(), floor);
    }
}

pub proof fn lemma_folded_total_prefix(seats: Seq<(Seq<char>, PlayerView)>, i: int)
    requires
        0 <= i <= seats.len(),
    ensures
        folded_total(seats.take(i)) <= folded_total(seats),
    decreases seats.len() - i,
{
    if i < seats.len() {
        lemma_folded_total_prefix(seats, i + 1);
        assert(seats.take(i + 1).drop_last() =~= seats.take(i));
    } else {
        assert(seats.take(i) =~= seats);
    }
}

/// Later pots only add to what a seat takes.
pub proof fn lemma_winnings_mono(g: GameView, pots: Seq<(int, Seq<Seq<char>>)>, j: int, k: int, l: int)
    requires
        0 <= j < g.seats.len(),
        0 <= k <= l <= pots.len(),
        forall|i: int| 0 <= i < pots.len() ==> (#[trigger] pots[i]).0 >= 0,
    ensures
        winnings(g, pots, j, k) <= winnings(g, pots, j, l),
    decreases l - k,
{
    if k < l {
        lemma_winnings_mono(g, pots, j, k, l - 1);
        if wins(g, pots[l - 1].1, j) {
            let a = pots[l - 1].0;
            lemma_winner_counted(g, pots[l - 1].1, g.seats.len() as int, j);
            let w = winner_count(g, pots[l - 1].1, g.seats.len() as int) as int;
            assert(a / w >= 0) by (nonlinear_arith)
                requires
                    a >= 0,
                    w > 0,
            ;
        }
    }
}

pub proof fn lemma_excess_zero(c: Seq<(Seq<char>, u64)>)
    ensures
        excess(c, 0) == stake_total(c),
    decreases c.len(),
{
    if c.len() > 0 {
        lemma_excess_zero(c.drop_last());
    }
}

/// Raising the floor from `lo` to `hi`, with no stake strictly between, takes
/// `hi - lo` from every stake that reaches `hi`.
pub proof fn lemma_excess_step(c: Seq<(Seq<char>, u64)>, lo: int, hi: int)
    requires
        lo <= hi,
        forall|i: int| 0 <= i < c.len() ==> (#[trigger] c[i]).1 <= lo || c[i].1 >= hi,
    ensures
        excess(c, lo) == count_ge(c, hi) * (hi - lo) + excess(c, hi),
    decreases c.len(),
{
    if c.len() > 0 {
        assert forall|i: int| 0 <= i < c.drop_last().len() implies (#[trigger] c.drop_last()[i]).1 <= lo
            || c.drop_last()[i].1 >= hi by {
            assert(c.drop_last()[i] == c[i]);
        }
        lemma_excess_step(c.drop_last(), lo, hi);
        assert(c[c.len() - 1] == c.last());
        let k = count_ge(c.drop_last(), hi);
        assert((k + 1) * (hi - lo) == k * (hi - lo) + (hi - lo)) by (nonlinear_arith);
    }
}

pub proof fn lemma_amount_sum_first(pots: Seq<(int, Seq<Seq<char>>)>)
    requires
        pots.len() > 0,
    ensures
        amount_sum(pots) == pots[0].0 + amount_sum(pots.drop_first()),
    decreases pots.len(),
{
    if pots.len() > 1 {
        lemma_amount_sum_first(pots.drop_last());
        assert(pots.drop_last().drop_first() =~= pots.drop_first().drop_last());
        assert(pots.drop_last()[0] == pots[0]);
        assert(pots.drop_first().last() == pots.last());
        assert(amount_sum(pots.drop_first()) == amount_sum(pots.drop_first().drop_last()) + pots.last().0);
    } else {
        assert(pots.drop_last().len() == 0);
        assert(pots.drop_first().len() == 0);
        assert(amount_sum(pots.drop_last()) == 0);
        assert(amount_sum(pots.drop_first()) == 0);
        assert(pots.last() == pots[0]);
    }
}

/// The pots from `floor` up hold, between them, how far the stakes reach past
/// `floor`.
pub proof fn lemma_layered_pots(c: Seq<(Seq<char>, u64)>, floor: int, lo: int)
    requires
        0 <= floor <= u64::MAX,
        (lo == 0 && floor == 0) || lo == floor + 1,
    ensures
        amount_sum(pots_from(c, seq![floor as u64] + levels_from(c, lo))) == excess(c, floor),
        forall|k: int|
            0 <= k < pots_from(c, seq![floor as u64] + levels_from(c, lo)).len() ==> (#[trigger] pots_from(
                c,
                seq![floor as u64] + levels_from(c, lo),
            )[k]).0 >= 0,
    decreases 0x1_0000_0000_0000_0001 - lo,
{
    let w = seq![floor as u64] + levels_from(c, lo);
    lemma_least_stake(c, lo);
    lemma_least_stake_least(c, lo);
    if lo > u64::MAX {
        assert(levels_from(c, lo) =~= Seq::<u64>::empty());
        assert(pots_from(c, w) =~= Seq::<(int, Seq<Seq<char>>)>::empty());
        lemma_excess_all_below(c, floor);
    } else {
        match least_stake_from(c, lo) {
            None => {
                assert(levels_from(c, lo) =~= Seq::<u64>::empty());
                assert(pots_from(c, w) =~= Seq::<(int, Seq<Seq<char>>)>::empty());
                lemma_excess_all_below(c, floor);
            },
            Some(m) => {
                let rest = levels_from(c, m + 1);
                assert(levels_from(c, lo) == seq![m] + rest);
                let w2 = seq![m] + rest;
                assert(w.drop_first() =~= w2);
                lemma_layered_pots(c, m as int, m + 1);
                let p = pots_from(c, w);
                assert(p.drop_first() =~= pots_from(c, w2));
                lemma_amount_sum_first(p);
                lemma_count_is_layer(c, m);
                assert forall|i: int| 0 <= i < c.len() implies (#[trigger] c[i]).1 <= floor || c[i].1 >= m by {
                    if c[i].1 > floor {
                        assert(c[i].1 >= lo);
                    }
                }
                lemma_excess_step(c, floor, m as int);
                assert(p[0] == pot_between(c, w, 0));
                assert(w[0] == floor && w[1] == m);
                assert(count_ge(c, m as int) * (m - floor) >= 0) by (nonlinear_arith)
                    requires
                        count_ge(c, m as int) >= 0,
                        m >= floor,
                ;
                assert forall|k: int| 0 <= k < p.len() implies (#[trigger] p[k]).0 >= 0 by {
                    if k > 0 {
                        assert(p[k] == pots_from(c, w2)[k - 1]);
                    }
                }
            },
        }
    }
}

pub proof fn lemma_count_ge_nonneg(c: Seq<(Seq<char>, u64)>, hi: int)
    ensures
        count_ge(c, hi) >= 0,
    decreases c.len(),
{
    if c.len() > 0 {
        lemma_count_ge_nonneg(c.drop_last(), hi);
    }
}

/// The main pot and the side pots hold exactly what the players still in the
/// hand staked.
pub proof fn law_base_pots_hold_the_stakes(c: Seq<(Seq<char>, u64)>)
    ensures
        amount_sum(base_pots(c)) == stake_total(c),
        forall|k: int| 0 <= k < base_pots(c).len() ==> (#[trigger] base_pots(c)[k]).0 >= 0,
{
    lemma_layered_pots(c, 0, 0);
    assert(base_pots(c) =~= pots_from(c, seq![0u64] + levels_from(c, 0)));
    lemma_excess_zero(c);
}

/// Bounds that start at 0 and never fall.
pub open spec fn bounds_rise(w: Seq<u64>) -> bool {
    &&& w.len() >= 1
    &&& w[0] == 0
    &&& forall|i: int, j: int| 0 <= i <= j < w.len() ==> #[trigger] w[i] <= #[trigger] w[j]
}

/// The distinct stakes from `lo` up reach at least `lo` and rise.
pub proof fn lemma_levels_from_rise(c: Seq<(Seq<char>, u64)>, lo: int)
    requires
        lo >= 0,
    ensures
        forall|i: int| 0 <= i < levels_from(c, lo).len() ==> #[trigger] levels_from(c, lo)[i] >= lo,
        forall|i: int, j: int| 0 <= i < j < levels_from(c, lo).len() ==> #[trigger] levels_from(c, lo)[i] < #[trigger] levels_from(c, lo)[j],
    decreases 0x1_0000_0000_0000_0001 - lo,
{
    lemma_least_stake(c, lo);
    if lo <= u64::MAX {
        match least_stake_from(c, lo) {
            Some(m) => {
                lemma_levels_from_rise(c, m + 1);
                let l = levels_from(c, lo);
                let r = levels_from(c, m + 1);
                assert(l == seq![m] + r);
                assert forall|i: int| 0 <= i < l.len() implies #[trigger] l[i] >= lo by {
                    if i > 0 {
                        assert(l[i] == r[i - 1]);
                    }
                }
                assert forall|i: int, j: int| 0 <= i < j < l.len() implies #[trigger] l[i] < #[trigger] l[j] by {
                    assert(l[j] == r[j - 1]);
                    if i > 0 {
                        assert(l[i] == r[i - 1]);
                    }
                }
            },
            None => {},
        }
    }
}

/// The bounds of the pots start at 0 and rise; with anybody in the hand there
/// is at least one pot.
pub proof fn lemma_pot_bounds_rise(c: Seq<(Seq<char>, u64)>)
    ensures
        bounds_rise(pot_bounds(c)),
        c.len() > 0 ==> pot_bounds(c).len() >= 2,
        base_pots(c).len() == pot_bounds(c).len() - 1,
{
    lemma_levels_from_rise(c, 0);
    let w = pot_bounds(c);
    let l = levels_from(c, 0);
    assert forall|i: int, j: int| 0 <= i <= j < w.len() implies #[trigger] w[i] <= #[trigger] w[j] by {
        if i > 0 {
            assert(w[i] == l[i - 1] && w[j] == l[j - 1]);
            if i < j {
                assert(l[i - 1] < l[j - 1]);
            }
        } else if j > 0 {
            assert(w[j] == l[j - 1]);
        }
    }
    if c.len() > 0 {
        lemma_least_stake(c, 0);
        assert(c[0].1 >= 0);
        assert(least_stake_from(c, 0) is Some);
    }
}

/// Adding the parts of a folded stake to the pots before `k` adds the stake
/// up to the bound `w[k]`; adding them to all pots adds the whole stake.
pub proof fn lemma_folded_upto_sum(pots: Seq<(int, Seq<Seq<char>>)>, w: Seq<u64>, s: int, k: int)
    requires
        pots.len() >= 1,
        w.len() == pots.len() + 1,
        bounds_rise(w),
        s >= 0,
        0 <= k <= pots.len(),
    ensures
        amount_sum(folded_upto(pots, w, s, k)) == amount_sum(pots) + (if k == pots.len() {
            s
        } else if s < w[k] {
            s
        } else {
            w[k] as int
        }),
        forall|q: int| 0 <= q < pots.len() ==> (#[trigger] folded_upto(pots, w, s, k)[q]).0 >= pots[q].0,
        folded_upto(pots, w, s, k).len() == pots.len(),
    decreases k,
{
    if k == 0 {
        assert(folded_upto(pots, w, s, 0) =~= pots);
    } else {
        lemma_folded_upto_sum(pots, w, s, k - 1);
        let before = folded_upto(pots, w, s, k - 1);
        let part = folded_part(s, w, k - 1);
        assert(w[k - 1] <= w[k]);
        assert(before[k - 1] == pots[k - 1]);
        lemma_amount_sum_update(before, k - 1, part);
        assert(folded_upto(pots, w, s, k) =~= before.update(k - 1, (before[k - 1].0 + part, before[k - 1].1)));
    }
}

/// Adding the folded players' stakes adds exactly what they staked.
pub proof fn lemma_with_folded_sum(pots: Seq<(int, Seq<Seq<char>>)>, w: Seq<u64>, seats: Seq<(Seq<char>, PlayerView)>)
    requires
        pots.len() >= 1,
        w.len() == pots.len() + 1,
        bounds_rise(w),
        forall|k: int| 0 <= k < pots.len() ==> (#[trigger] pots[k]).0 >= 0,
    ensures
        amount_sum(with_folded(pots, w, seats)) == amount_sum(pots) + folded_total(seats),
        with_folded(pots, w, seats).len() == pots.len(),
        forall|k: int| 0 <= k < pots.len() ==> (#[trigger] with_folded(pots, w, seats)[k]).0 >= 0,
    decreases seats.len(),
{
    if seats.len() > 0 {
        lemma_with_folded_sum(pots, w, seats.drop_last());
        let before = with_folded(pots, w, seats.drop_last());
        if seats.last().1.folded {
            let s = seats.last().1.stake;
            lemma_folded_upto_sum(before, w, s as int, before.len() as int);
            assert forall|k: int| 0 <= k < pots.len() implies (#[trigger] with_folded(pots, w, seats)[k]).0 >= 0 by {
                assert(with_folded(pots, w, seats)[k].0 >= before[k].0);
            }
        }
    }
}

/// The stakes of the players still in the hand and of those who folded make
/// up all the stakes.
pub proof fn lemma_stakes_split(seats: Seq<(Seq<char>, PlayerView)>)
    ensures
        stake_total(contenders(seats)) + folded_total(seats) == stake_sum(seats),
    decreases seats.len(),
{
    if seats.len() > 0 {
        let n = seats.len() - 1;
        lemma_stakes_split(seats.drop_last());
        lemma_contenders_step(seats, n);
        assert(seats.take(n + 1) =~= seats);
        assert(seats.take(n) =~= seats.drop_last());
        if !seats[n].1.folded {
            let c = contenders(seats.drop_last()).push(contender_of(seats[n]));
            assert(c.drop_last() =~= contenders(seats.drop_last()));
        }
    }
}

pub proof fn lemma_stake_sum_le(seats: Seq<(Seq<char>, PlayerView)>, cap: int)
    requires
        cap >= 0,
        forall|i: int| 0 <= i < seats.len() ==> (#[trigger] seats[i]).1.stake <= cap,
    ensures
        0 <= stake_sum(seats) <= seats.len() * cap,
    decreases seats.len(),
{
    if seats.len() > 0 {
        assert forall|i: int| 0 <= i < seats.drop_last().len() implies (#[trigger] seats.drop_last()[i]).1.stake <= cap by {
            assert(seats.drop_last()[i] == seats[i]);
        }
        lemma_stake_sum_le(seats.drop_last(), cap);
        assert(seats[seats.len() - 1] == seats.last());
        assert((seats.len() - 1) * cap + cap == seats.len() * cap) by (nonlinear_arith);
    }
}

pub proof fn lemma_folded_total_nonneg(seats: Seq<(Seq<char>, PlayerView)>)
    ensures
        folded_total(seats) >= 0,
    decreases seats.len(),
{
    if seats.len() > 0 {
        lemma_folded_total_nonneg(seats.drop_last());
    }
}

/// Paying a pot adds its share to each of its winners.
pub proof fn lemma_winnings_sum_step(g: GameView, pots: Seq<(int, Seq<Seq<char>>)>, n: int, k: int)
    requires
        1 <= k <= pots.len(),
        0 <= n,
    ensures
        winnings_sum(g, pots, n, k) == winnings_sum(g, pots, n, k - 1) + winner_count(g, pots[k - 1].1, n) * (pots[k
            - 1].0 / (winner_count(g, pots[k - 1].1, g.seats.len() as int) as int)),
    decreases n,
{
    let ids = pots[k - 1].1;
    let share = pots[k - 1].0 / (winner_count(g, ids, g.seats.len() as int) as int);
    if n > 0 {
        lemma_winnings_sum_step(g, pots, n - 1, k);
        let c = winner_count(g, ids, n - 1) as int;
        assert(winnings(g, pots, n - 1, k) == winnings(g, pots, n - 1, k - 1) + (if wins(g, ids, n - 1) {
            share
        } else {
            0
        }));
        assert(winner_count(g, ids, n) == winner_count(g, ids, n - 1) + (if wins(g, ids, n - 1) {
            1nat
        } else {
            0nat
        }));
        assert((c + 1) * share == c * share + share) by (nonlinear_arith);
    } else {
        assert(winner_count(g, ids, n) == 0);
        assert(0 * share == 0);
    }
}

pub proof fn lemma_winnings_sum_zero(g: GameView, pots: Seq<(int, Seq<Seq<char>>)>, n: int)
    ensures
        winnings_sum(g, pots, n, 0) == 0,
    decreases n,
{
    if n > 0 {
        lemma_winnings_sum_zero(g, pots, n - 1);
    }
}

/// The winners take no more than the pots hold.
pub proof fn lemma_winnings_sum_le(g: GameView, pots: Seq<(int, Seq<Seq<char>>)>, k: int)
    requires
        0 <= k <= pots.len(),
        forall|i: int| 0 <= i < pots.len() ==> (#[trigger] pots[i]).0 >= 0,
    ensures
        winnings_sum(g, pots, g.seats.len() as int, k) <= amount_sum(pots.take(k)),
    decreases k,
{
    if k == 0 {
        lemma_winnings_sum_zero(g, pots, g.seats.len() as int);
        assert(pots.take(0).len() == 0);
    }
    if k > 0 {
        lemma_winnings_sum_le(g, pots, k - 1);
        lemma_winnings_sum_step(g, pots, g.seats.len() as int, k);
        assert(pots.take(k).drop_last() =~= pots.take(k - 1));
        let c = winner_count(g, pots[k - 1].1, g.seats.len() as int) as int;
        let a = pots[k - 1].0;
        assert(pots.take(k).last() == pots[k - 1]);
        assert(amount_sum(pots.take(k)) == amount_sum(pots.take(k - 1)) + a);
        if c == 0 {
            assert(c * (a / c) == 0);
        } else {
            assert(c * (a / c) <= a) by (nonlinear_arith)
                requires
                    a >= 0,
                    c >= 1,
            ;
        }
    }
}

pub proof fn lemma_winnings_sum_nonneg(g: GameView, pots: Seq<(int, Seq<Seq<char>>)>, n: int, k: int)
    requires
        0 <= n <= g.seats.len(),
        0 <= k <= pots.len(),
        forall|i: int| 0 <= i < pots.len() ==> (#[trigger] pots[i]).0 >= 0,
    ensures
        winnings_sum(g, pots, n, k) >= 0,
    decreases n,
{
    if n > 0 {
        lemma_winnings_sum_nonneg(g, pots, n - 1, k);
        lemma_winnings_le(g, pots, n - 1, k);
    }
}

/// The balances after the pots are paid add up to those before plus what the
/// seats took.
pub proof fn lemma_paid_balances(g: GameView, pots: Seq<(int, Seq<Seq<char>>)>, n: int)
    requires
        0 <= n <= g.seats.len(),
        forall|j: int|
            0 <= j < g.seats.len() ==> (#[trigger] g.seats[j]).1.balance + winnings(g, pots, j, pots.len() as int)
                <= u64::MAX,
        forall|i: int| 0 <= i < pots.len() ==> (#[trigger] pots[i]).0 >= 0,
    ensures
        balance_sum(Seq::new(n as nat, |j: int| paid_seat(g, pots, j))) == balance_sum(g.seats.take(n)) + winnings_sum(
            g,
            pots,
            n,
            pots.len() as int,
        ),
    decreases n,
{
    if n > 0 {
        lemma_paid_balances(g, pots, n - 1);
        let s = Seq::new(n as nat, |j: int| paid_seat(g, pots, j));
        assert(s.drop_last() =~= Seq::new((n - 1) as nat, |j: int| paid_seat(g, pots, j)));
        assert(g.seats.take(n).drop_last() =~= g.seats.take(n - 1));
        lemma_winnings_le(g, pots, n - 1, pots.len() as int);
        assert(g.seats.take(n).last() == g.seats[n - 1]);
    } else {
        assert(g.seats.take(0).len() == 0);
    }
}

/// What splitting the first `k` pots leaves unpaid: of a pot with winners,
/// what does not divide evenly among them; of a pot without winners, all of
/// it.
pub open spec fn split_remainder(g: GameView, pots: Seq<(int, Seq<Seq<char>>)>, k: int) -> int
    decreases k,
{
    if k <= 0 {
        0
    } else {
        let c = winner_count(g, pots[k - 1].1, g.seats.len() as int) as int;
        split_remainder(g, pots, k - 1) + (if c > 0 {
            pots[k - 1].0 % c
        } else {
            pots[k - 1].0
        })
    }
}

/// The winners take all the pots hold but the remainders of the splits.
pub proof fn lemma_winnings_and_remainder(g: GameView, pots: Seq<(int, Seq<Seq<char>>)>, k: int)
    requires
        0 <= k <= pots.len(),
        forall|i: int| 0 <= i < pots.len() ==> (#[trigger] pots[i]).0 >= 0,
    ensures
        winnings_sum(g, pots, g.seats.len() as int, k) + split_remainder(g, pots, k) == amount_sum(pots.take(k)),
        split_remainder(g, pots, k) >= 0,
    decreases k,
{
    if k == 0 {
        lemma_winnings_sum_zero(g, pots, g.seats.len() as int);
        assert(pots.take(0).len() == 0);
    } else {
        lemma_winnings_and_remainder(g, pots, k - 1);
        lemma_winnings_sum_step(g, pots, g.seats.len() as int, k);
        assert(pots.take(k).drop_last() =~= pots.take(k - 1));
        assert(pots.take(k).last() == pots[k - 1]);
        let c = winner_count(g, pots[k - 1].1, g.seats.len() as int) as int;
        let a = pots[k - 1].0;
        if c > 0 {
            assert(c * (a / c) + a % c == a && a % c >= 0) by (nonlinear_arith)
                requires
                    c > 0,
                    a >= 0,
            ;
        } else {
            assert(c * (a / c) == 0);
        }
    }
}

/// With anybody in the hand, the pots hold exactly what every seated player
/// staked, folded or not.
pub proof fn law_pots_hold_all_stakes(g: GameView)
    requires
        contenders(g.seats).len() >= 1,
    ensures
        amount_sum(all_pots(g)) == stake_sum(g.seats),
{
    let c = contenders(g.seats);
    law_base_pots_hold_the_stakes(c);
    lemma_pot_bounds_rise(c);
    lemma_with_folded_sum(base_pots(c), pot_bounds(c), g.seats);
    lemma_stakes_split(g.seats);
}

/// At the showdown with two or more players in the hand, everything staked is
/// paid out to the winners, but for what does not divide evenly among the
/// winners of a pot; and the pot is emptied. With one player left in the
/// hand, they take the whole pot (and the pot is left as it stands).
pub proof fn law_showdown_pays_out_the_stakes(g: GameView)
    requires
        payout_ready(g),
    ensures
        contenders(g.seats).len() >= 2 ==> {
            &&& balance_sum(payout(g).seats) + split_remainder(g, all_pots(g), all_pots(g).len() as int) == balance_sum(g.seats)
                + stake_sum(g.seats)
            &&& split_remainder(g, all_pots(g), all_pots(g).len() as int) >= 0
            &&& payout(g).pot == 0
        },
        contenders(g.seats).len() == 1 ==> balance_sum(payout(g).seats) == balance_sum(g.seats) + g.pot && payout(g).pot
            == g.pot,
{
    let c = contenders(g.seats);
    if c.len() == 1 {
        lemma_seat_of_bounds(g.seats, c[0].0);
        let i = seat_of(g.seats, c[0].0);
        lemma_balance_sum_update(
            g.seats,
            i,
            (g.seats[i].0, PlayerView { balance: (g.seats[i].1.balance + g.pot) as u64, ..g.seats[i].1 }),
        );
    } else if c.len() >= 2 {
        let pots = all_pots(g);
        law_pots_hold_all_stakes(g);
        law_base_pots_hold_the_stakes(c);
        lemma_pot_bounds_rise(c);
        lemma_with_folded_sum(base_pots(c), pot_bounds(c), g.seats);
        lemma_paid_balances(g, pots, g.seats.len() as int);
        assert(g.seats.take(g.seats.len() as int) =~= g.seats);
        lemma_winnings_and_remainder(g, pots, pots.len() as int);
        assert(pots.take(pots.len() as int) =~= pots);
    }
}

// ---------------------------------------------------------------------------
// The pot is the stakes
// ---------------------------------------------------------------------------

/// How much the pot holds beyond the seated players' stakes.
pub open spec fn pot_surplus(g: GameView) -> int {
    g.pot - stake_sum(g.seats)
}

pub proof fn lemma_stake_sum_update(seats: Seq<(Seq<char>, PlayerView)>, i: int, e: (Seq<char>, PlayerView))
    requires
        0 <= i < seats.len(),
    ensures
        stake_sum(seats.update(i, e)) == stake_sum(seats) - seats[i].1.stake + e.1.stake,
    decreases seats.len(),
{
    let u = seats.update(i, e);
    if i < seats.len() - 1 {
        assert(u.drop_last() =~= seats.drop_last().update(i, e));
        lemma_stake_sum_update(seats.drop_last(), i, e);
    } else {
        assert(u.drop_last() =~= seats.drop_last());
    }
}

pub proof fn lemma_stake_sum_zero(seats: Seq<(Seq<char>, PlayerView)>)
    requires
        forall|i: int| 0 <= i < seats.len() ==> (#[trigger] seats[i]).1.stake == 0,
    ensures
        stake_sum(seats) == 0,
    decreases seats.len(),
{
    if seats.len() > 0 {
        assert forall|i: int| 0 <= i < seats.drop_last().len() implies (#[trigger] seats.drop_last()[i]).1.stake == 0 by {
            assert(seats.drop_last()[i] == seats[i]);
        }
        lemma_stake_sum_zero(seats.drop_last());
        assert(seats[seats.len() - 1] == seats.last());
    }
}

/// A blind goes into the pot and into the player's stake alike.
pub proof fn lemma_blind_keeps_surplus(g: GameView, id: Seq<char>, cap: u64)
    requires
        seat_of(g.seats, id) < g.seats.len(),
        0 <= seat_of(g.seats, id),
        g.pot + cap <= u64::MAX,
        g.seats[seat_of(g.seats, id)].1.stake + cap <= u64::MAX,
    ensures
        pot_surplus(post_blind(g, id, cap)) == pot_surplus(g),
{
    let i = seat_of(g.seats, id);
    let p = g.seats[i].1;
    let s = if p.balance < cap {
        p.balance
    } else {
        cap
    };
    lemma_stake_sum_update(g.seats, i, (g.seats[i].0, PlayerView { balance: (p.balance - s) as u64, stake: (p.stake + s) as u64, ..p }));
}

/// Passing the turn on keeps the surplus; so does taking the blinds, when
/// they fit.
pub proof fn lemma_next_turn_keeps_surplus(g: GameView, cur: Option<Seq<char>>, now: u64)
    requires
        cur is None && g.table.len() == 0 && g.seats.len() >= 2 ==> super::rules::blinds_fit(g),
    ensures
        pot_surplus(next_turn(g, cur, now)) == pot_surplus(g),
{
    let (g1, next) = turn_choice(g, cur);
    if cur is None && g.table.len() == 0 && g.seats.len() >= 2 {
        lemma_seat_of_bounds(g.seats, g.seats[0].0);
        lemma_seat_of_bounds(g.seats, g.seats[1].0);
        let i = seat_of(g.seats, g.seats[0].0);
        let j = seat_of(g.seats, g.seats[1].0);
        assert(g.seats[i].1.stake + SMALL_BLIND + BIG_BLIND <= u64::MAX);
        assert(g.seats[j].1.stake + SMALL_BLIND + BIG_BLIND <= u64::MAX);
        let ga = post_blind(g, g.seats[0].0, 10);
        lemma_blind_keeps_surplus(g, g.seats[0].0, 10);
        crate::state::players::lemma_seat_of_keys(ga.seats, g.seats, g.seats[1].0);
        assert(ga.seats[j].1.stake <= g.seats[j].1.stake + 10);
        lemma_blind_keeps_surplus(ga, g.seats[1].0, 20);
        assert(g1 == super::rules::accept_blinds(g, g.seats[0].0, g.seats[1].0));
    }
    assert(pot_surplus(g1) == pot_surplus(g));
    match next {
        Some(id) => {
            lemma_seat_of_bounds(g1.seats, id);
            let i = seat_of(g1.seats, id);
            if 0 <= i < g1.seats.len() {
                lemma_stake_sum_update(g1.seats, i, (g1.seats[i].0, PlayerView { ttl: Some(super::rules::deadline(now)), ..g1.seats[i].1 }));
            }
        },
        None => {},
    }
}

pub proof fn lemma_complete_round_keeps_surplus(g: GameView, now: u64)
    requires
        complete_round(g, now).status != GameStatus::Complete,
    ensures
        pot_surplus(complete_round(g, now)) == pot_surplus(g),
    decreases 5 - g.table.len(),
{
    if g.table.len() == 0 || g.table.len() == 3 || g.table.len() == 4 {
        let count = if g.table.len() == 0 {
            3int
        } else {
            1int
        };
        let gp = place_cards(g, count);
        assert(gp.table.len() > 0);
        lemma_next_turn_keeps_surplus(gp, None, now);
        let g1 = clear_bets(next_turn(gp, None, now));
        if g1.turn is None {
            lemma_complete_round_keeps_surplus(g1, now);
        }
    }
}

pub proof fn lemma_after_action_keeps_surplus(g: GameView, id: Seq<char>, now: u64)
    requires
        after_action(g, id, now).status != GameStatus::Complete,
    ensures
        pot_surplus(after_action(g, id, now)) == pot_surplus(g),
{
    reveal(after_action);
    lemma_next_turn_keeps_surplus(g, Some(id), now);
    let g1 = next_turn(g, Some(id), now);
    if g1.turn is None {
        lemma_complete_round_keeps_surplus(g1, now);
    }
}

/// A bet puts into the pot exactly what it adds to the player's stake, and
/// nothing else on the way to the next turn moves either: while the game goes
/// on, the pot stays its stakes plus whatever it held beyond them.
pub proof fn law_bet_adds_to_pot_what_it_stakes(g: GameView, id: Seq<char>, action: BetAction, now: u64)
    requires
        bet_runs(g, id, action, now),
        bet_outcome(g, id, action, now).1 is Ok,
        bet_outcome(g, id, action, now).0.status != GameStatus::Complete,
    ensures
        pot_surplus(bet_outcome(g, id, action, now).0) == pot_surplus(g),
{
    let i = seat_of(g.seats, id);
    lemma_seat_of_bounds(g.seats, id);
    let p = g.seats[i].1;
    match super::rules::validation(g, id, action) {
        Ok(act) => {
            let stake = super::rules::stake_in_round(g, id);
            let call = super::rules::call_or_zero(g);
            match act {
                BetAction::Check => {
                    let s = staked(g, i, p.balance, 0);
                    lemma_stake_sum_update(g.seats, i, s.seats[i]);
                    lemma_after_action_keeps_surplus(s, id, now);
                },
                BetAction::Call => {
                    let owed = (call - stake) as u64;
                    let c = if owed < p.balance {
                        owed
                    } else {
                        p.balance
                    };
                    let g1 = GameView { calls: g.calls.push((id, c)), ..g };
                    let s = staked(g1, i, (p.balance - c) as u64, c);
                    lemma_stake_sum_update(g1.seats, i, s.seats[i]);
                    lemma_after_action_keeps_surplus(s, id, now);
                },
                BetAction::RaiseTo(x) => {
                    let g1 = GameView { raises: g.raises.push((id, x)), ..g };
                    let add = x - stake;
                    let s = staked(g1, i, (p.balance - add) as u64, add as u64);
                    lemma_stake_sum_update(g1.seats, i, s.seats[i]);
                    lemma_after_action_keeps_surplus(s, id, now);
                },
            }
        },
        Err(_) => {},
    }
}

/// A fold moves no chip unless it ends the game.
pub proof fn law_fold_keeps_pot_surplus(g: GameView, id: Seq<char>, now: u64)
    requires
        fold_outcome(g, id, now).1 is Ok,
        fold_outcome(g, id, now).0.status != GameStatus::Complete,
    ensures
        pot_surplus(fold_outcome(g, id, now).0) == pot_surplus(g),
{
    let i = seat_of(g.seats, id);
    lemma_seat_of_bounds(g.seats, id);
    let g1 = set_seat(g, i, PlayerView { folded: true, ..g.seats[i].1 });
    lemma_stake_sum_update(g.seats, i, g1.seats[i]);
    if super::rules::not_folded(g1.seats).len() != 1 {
        lemma_after_action_keeps_surplus(g1, id, now);
    }
}

/// A game starts with the pot holding exactly the blinds that were staked.
pub proof fn law_start_makes_pot_the_stakes(g: GameView, now: u64, deck: Seq<crate::cards::Card>)
    requires
        start_outcome(g, now, deck).1 is Ok,
    ensures
        start_outcome(g, now, deck).0.pot == stake_sum(start_outcome(g, now, deck).0.seats),
{
    let g0 = reset_players(GameView { table: Seq::empty(), pot: 0, ..g });
    lemma_stake_sum_zero(g0.seats);
    lemma_next_turn_keeps_surplus(g0, None, now);
}

} // verus!
