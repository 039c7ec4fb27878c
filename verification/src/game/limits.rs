//! Within the limits that `checks` tests at run time, every move runs without
//! failing: the limits are a sufficient test for what each move needs.
use vstd::prelude::*;

use crate::state::players::{lemma_seat_of_bounds, seat_of};
use crate::state::{BetAction, GameView, PlayerView};

use super::laws::lemma_first_not_folded_bounds;
use super::payout::{
    all_pots, amount_sum, base_pots, contenders, lemma_amount_sum_prefix, lemma_contender_seat, lemma_winnings_le,
    payout_ready, winnings,
};
use super::pot_laws::{
    law_base_pots_hold_the_stakes, lemma_folded_total_nonneg, lemma_stake_sum_le, lemma_stakes_split,
    lemma_with_folded_sum,
};
use super::rules::{
    after_runs, bet_runs, call_or_zero, clear_bets, complete_runs, final_table, finishable, first_not_folded, fold_runs,
    lemma_bounded_sane, lemma_place_cards_final, levels_rise, next_turn, not_folded, place_cards, playable,
    raise_reaches_stake, sane, seats_keyed, set_seat, stake_fits, stake_in_round, staked, turn_runs, validation,
};
use super::{expiry_runs, lemma_min_raise_bounded, lemma_stakes_bounded, lemma_stakes_fit, turn_expired};

verus! {

/// Passing the turn on without taking blinds changes only whose turn it is
/// and one player's deadline.
pub proof fn lemma_next_turn_shape(g: GameView, cur: Option<Seq<char>>, now: u64)
    requires
        cur is Some || g.table.len() > 0 || g.seats.len() < 2,
    ensures
        next_turn(g, cur, now).seats.len() == g.seats.len(),
        forall|i: int|
            0 <= i < g.seats.len() ==> (#[trigger] next_turn(g, cur, now).seats[i]).0 == g.seats[i].0
                && next_turn(g, cur, now).seats[i].1 == (PlayerView { ttl: next_turn(g, cur, now).seats[i].1.ttl, ..g.seats[i].1 }),
        next_turn(g, cur, now) == (GameView { seats: next_turn(g, cur, now).seats, turn: next_turn(g, cur, now).turn, ..g }),
{
    let r = next_turn(g, cur, now);
    let (g1, next) = super::rules::turn_choice(g, cur);
    assert(g1 == g);
    match next {
        Some(id) => {
            lemma_seat_of_bounds(g.seats, id);
            let k = seat_of(g.seats, id);
            if k < g.seats.len() {
                assert(r.seats == g.seats.update(k, (g.seats[k].0, PlayerView { ttl: Some(super::rules::deadline(now)), ..g.seats[k].1 })));
            } else {
                assert(r.seats == g.seats);
            }
        },
        None => {
            assert(r.seats == g.seats);
        },
    }
    assert forall|i: int| 0 <= i < g.seats.len() implies (#[trigger] r.seats[i]).0 == g.seats[i].0 && r.seats[i].1 == (
    PlayerView { ttl: r.seats[i].1.ttl, ..g.seats[i].1 }) by {
        assert(r.seats[i].1 =~= PlayerView { ttl: r.seats[i].1.ttl, ..g.seats[i].1 });
    }
    assert(r =~= GameView { seats: r.seats, turn: r.turn, ..g });
}

/// The working bounds hold of a game whose seats differ only in deadlines.
pub proof fn lemma_finishable_deadlines(g: GameView, h: GameView)
    requires
        finishable(g),
        h.seats.len() == g.seats.len(),
        forall|i: int|
            0 <= i < g.seats.len() ==> (#[trigger] h.seats[i]).0 == g.seats[i].0 && h.seats[i].1 == (PlayerView {
                ttl: h.seats[i].1.ttl,
                ..g.seats[i].1
            }),
        h == (GameView { seats: h.seats, turn: h.turn, ..g }),
    ensures
        finishable(h),
{
    assert(final_table(h) == final_table(g));
    assert forall|i: int| 0 <= i < h.seats.len() implies (#[trigger] h.seats[i]).1.balance <= 2 * super::rules::chip_cap()
        && h.seats[i].1.stake <= 2 * super::rules::chip_cap() by {
        assert(g.seats[i].1.balance <= 2 * super::rules::chip_cap());
    }
    assert forall|i: int, j: int| 0 <= i < j < h.seats.len() implies (#[trigger] h.seats[i]).0 != (#[trigger] h.seats[j]).0 by {
        assert(g.seats[i].0 != g.seats[j].0);
    }
    assert forall|i: int| 0 <= i < h.seats.len() implies (#[trigger] h.seats[i]).0 == h.seats[i].1.id by {
        assert(g.seats[i].0 == g.seats[i].1.id);
    }
    assert forall|i: int| 0 <= i < h.seats.len() implies crate::cards::eval::evaluable(
        crate::cards::hand_cards((#[trigger] h.seats[i]).1.cards, final_table(h)),
    ) by {
        assert(crate::cards::eval::evaluable(crate::cards::hand_cards(g.seats[i].1.cards, final_table(g))));
    }
}

/// Within the working bounds the showdown runs.
pub proof fn lemma_finishable_payout(g: GameView)
    requires
        finishable(g),
        g.table.len() == 5,
    ensures
        payout_ready(g),
{
    let c = contenders(g.seats);
    assert(final_table(g) =~= g.table);
    if c.len() == 1 {
        lemma_contender_seat(g.seats, 0);
        let j = choose|j: int| 0 <= j < g.seats.len() && super::payout::contender_of(#[trigger] g.seats[j]) == c[0] && !g.seats[j].1.folded;
        assert(g.seats[j].0 == c[0].0);
        lemma_seat_of_bounds(g.seats, c[0].0);
        let i = seat_of(g.seats, c[0].0);
        assert(g.seats[i].1.balance <= 0x200_0000_0000);
    }
    if c.len() >= 2 {
        let pots = all_pots(g);
        law_base_pots_hold_the_stakes(c);
        super::pot_laws::lemma_pot_bounds_rise(c);
        lemma_with_folded_sum(base_pots(c), super::payout::pot_bounds(c), g.seats);
        lemma_stakes_split(g.seats);
        lemma_folded_total_nonneg(g.seats);
        lemma_stake_sum_le(g.seats, 0x200_0000_0000);
        assert(g.seats.len() * 0x200_0000_0000 <= 0x100 * 0x200_0000_0000) by (nonlinear_arith)
            requires
                g.seats.len() <= 0x100,
        ;
        assert forall|j: int| 0 <= j < g.seats.len() implies (#[trigger] g.seats[j]).1.balance + winnings(
            g,
            pots,
            j,
            pots.len() as int,
        ) <= u64::MAX by {
            lemma_winnings_le(g, pots, j, pots.len() as int);
            lemma_amount_sum_prefix(pots, pots.len() as int);
        }
    }
}

/// Within the working bounds the rest of the hand runs.
pub proof fn lemma_finishable_completes(g: GameView, now: u64)
    requires
        finishable(g),
    ensures
        complete_runs(g, now),
    decreases 5 - g.table.len(),
{
    if g.table.len() == 0 || g.table.len() == 3 || g.table.len() == 4 {
        let count = if g.table.len() == 0 {
            3int
        } else {
            1int
        };
        lemma_place_cards_final(g, count);
        let gp = place_cards(g, count);
        assert(finishable(gp));
        lemma_next_turn_shape(gp, None, now);
        lemma_finishable_deadlines(gp, next_turn(gp, None, now));
        let g1 = clear_bets(next_turn(gp, None, now));
        assert(finishable(g1));
        if g1.turn is None {
            lemma_finishable_completes(g1, now);
        }
    } else {
        lemma_finishable_payout(g);
    }
}

/// Within the working bounds, passing the turn on and what follows runs.
pub proof fn lemma_finishable_after(g: GameView, id: Seq<char>, now: u64)
    requires
        finishable(g),
        g.seats.len() >= 2,
    ensures
        after_runs(g, id, now),
{
    assert forall|i: int| 0 <= i < g.seats.len() && super::rules::in_play(#[trigger] g.seats[i].1) implies stake_fits(
        g,
        g.seats[i].1.id,
    ) by {
        lemma_stakes_fit(g, g.seats[i].1.id);
    }
    lemma_stakes_fit(g, id);
    assert(turn_runs(g, id));
    let g1 = next_turn(g, Some(id), now);
    lemma_next_turn_shape(g, Some(id), now);
    lemma_finishable_deadlines(g, g1);
    lemma_finishable_completes(g1, now);
}

/// In a playable game a bet whose raise, if allowed, reaches the player's
/// stake runs without failing.
pub proof fn law_playable_bet_runs(g: GameView, id: Seq<char>, action: BetAction, now: u64)
    requires
        g.status == super::GameStatus::Playing && g.turn == Some(id) ==> playable(g) && raise_reaches_stake(g, id, action),
    ensures
        bet_runs(g, id, action, now),
{
    if g.status == super::GameStatus::Playing && g.turn == Some(id) {
        lemma_bounded_sane(g);
        lemma_stakes_fit(g, id);
        lemma_stakes_bounded(g, id);
        lemma_min_raise_bounded(g);
        lemma_seat_of_bounds(g.seats, id);
        let i = seat_of(g.seats, id);
        match validation(g, id, action) {
            Ok(act) => {
                if i < g.seats.len() {
                    let p = g.seats[i].1;
                    assert(p.balance <= 0x100_0000_0000 && p.stake <= 0x100_0000_0000);
                    let stake = stake_in_round(g, id);
                    let call = call_or_zero(g);
                    match act {
                        BetAction::Check => {
                            if g.raises.len() == 0 {
                                assert(g.calls =~= Seq::<(Seq<char>, u64)>::empty());
                            }
                            let s = staked(g, i, p.balance, 0);
                            assert(final_table(s) == final_table(g));
                            assert(finishable(s));
                            lemma_finishable_after(s, id, now);
                        },
                        BetAction::Call => {
                            let owed = (call - stake) as u64;
                            let c = if owed < p.balance {
                                owed
                            } else {
                                p.balance
                            };
                            let g1 = GameView { calls: g.calls.push((id, c)), ..g };
                            let s = staked(g1, i, (p.balance - c) as u64, c);
                            assert(final_table(s) == final_table(g));
                            assert(finishable(s));
                            lemma_finishable_after(s, id, now);
                        },
                        BetAction::RaiseTo(r) => {
                            if r - stake <= p.balance {
                                let g1 = GameView { raises: g.raises.push((id, r)), ..g };
                                let s = staked(g1, i, (p.balance - (r - stake)) as u64, (r - stake) as u64);
                                assert(final_table(s) == final_table(g));
                                assert(finishable(s));
                                lemma_finishable_after(s, id, now);
                            }
                        },
                    }
                }
            },
            Err(_) => {},
        }
    }
}

/// In a playable game a fold runs without failing.
pub proof fn law_playable_fold_runs(g: GameView, id: Seq<char>, now: u64)
    requires
        g.turn == Some(id) ==> playable(g),
    ensures
        fold_runs(g, id, now),
{
    let i = seat_of(g.seats, id);
    if g.turn == Some(id) && i < g.seats.len() {
        lemma_bounded_sane(g);
        lemma_seat_of_bounds(g.seats, id);
        let g1 = set_seat(g, i, PlayerView { folded: true, ..g.seats[i].1 });
        if not_folded(g1.seats).len() == 1 {
            lemma_first_not_folded_bounds(g1.seats);
            let w = first_not_folded(g1.seats);
            if w < g1.seats.len() {
                assert(g.seats[w].1.balance <= 0x100_0000_0000);
            } else {
                super::laws::lemma_all_folded(g1.seats);
            }
        } else {
            assert(final_table(g1) == final_table(g));
            assert(finishable(g1));
            lemma_finishable_after(g1, id, now);
        }
    }
}

/// In a playable game, a turn that ran out is taken away without failing.
pub proof fn law_playable_expiry_runs(g: GameView, now: u64)
    requires
        turn_expired(g, now) ==> playable(g),
    ensures
        turn_expired(g, now) ==> expiry_runs(g, now),
{
    if turn_expired(g, now) {
        let t = g.turn->0;
        lemma_seat_of_bounds(g.seats, t);
        let id = g.seats[seat_of(g.seats, t)].1.id;
        assert(id == t);
        law_playable_fold_runs(g, id, now);
    }
}

} // verus!
