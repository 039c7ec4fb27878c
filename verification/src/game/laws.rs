//! What the rules promise across a whole move: where the chips go, what a
//! refusal leaves, and whose turn comes next.
use vstd::prelude::*;

use crate::state::players::seat_of;
use crate::state::{BetAction, GameStatus, GameView, PlayerView, BIG_BLIND};

use super::rules::{
    min_raise_to, raise_levels, stake_in_round,
    accept_blinds, after_action, bet_outcome, clear_bets, complete_round, first_in_play_from, fold_outcome, in_play,
    next_players_turn, next_turn, place_cards, post_blind, bet_runs, fold_runs, reset_players, rotate_dealer,
    sane, set_seat, staked, start_outcome, starting_player, turn_choice,
};

verus! {

/// The sum of the seated players' balances.
pub open spec fn balance_sum(seats: Seq<(Seq<char>, PlayerView)>) -> int
    decreases seats.len(),
{
    if seats.len() == 0 {
        0
    } else {
        balance_sum(seats.drop_last()) + seats.last().1.balance
    }
}

/// All the chips in a game: the players' balances and the pot.
pub open spec fn chips(g: GameView) -> int {
    balance_sum(g.seats) + g.pot
}

pub proof fn lemma_balance_sum_update(seats: Seq<(Seq<char>, PlayerView)>, i: int, e: (Seq<char>, PlayerView))
    requires
        0 <= i < seats.len(),
    ensures
        balance_sum(seats.update(i, e)) == balance_sum(seats) - seats[i].1.balance + e.1.balance,
    decreases seats.len(),
{
    let u = seats.update(i, e);
    if i < seats.len() - 1 {
        assert(u.drop_last() =~= seats.drop_last().update(i, e));
        lemma_balance_sum_update(seats.drop_last(), i, e);
    } else {
        assert(u.drop_last() =~= seats.drop_last());
    }
}

pub proof fn lemma_balance_sum_first(seats: Seq<(Seq<char>, PlayerView)>)
    requires
        seats.len() > 0,
    ensures
        balance_sum(seats) == seats[0].1.balance + balance_sum(seats.drop_first()),
    decreases seats.len(),
{
    if seats.len() > 1 {
        lemma_balance_sum_first(seats.drop_last());
        assert(seats.drop_last().drop_first() =~= seats.drop_first().drop_last());
        assert(seats.drop_first().last() == seats.last());
        assert(seats.drop_last()[0] == seats[0]);
        assert(balance_sum(seats.drop_first()) == balance_sum(seats.drop_first().drop_last()) + seats.last().1.balance);
    } else {
        assert(seats.drop_first().len() == 0);
        assert(seats.drop_last().len() == 0);
        assert(balance_sum(seats.drop_first()) == 0);
        assert(balance_sum(seats.drop_last()) == 0);
        assert(seats.last() == seats[0]);
    }
}

/// Balances are kept by anything that changes only other fields of the
/// seats.
pub proof fn lemma_balance_sum_same(a: Seq<(Seq<char>, PlayerView)>, b: Seq<(Seq<char>, PlayerView)>)
    requires
        a.len() == b.len(),
        forall|i: int| 0 <= i < a.len() ==> (#[trigger] a[i]).1.balance == b[i].1.balance,
    ensures
        balance_sum(a) == balance_sum(b),
    decreases a.len(),
{
    if a.len() > 0 {
        assert forall|i: int| 0 <= i < a.drop_last().len() implies (#[trigger] a.drop_last()[i]).1.balance
            == b.drop_last()[i].1.balance by {
            assert(a.drop_last()[i] == a[i]);
            assert(b.drop_last()[i] == b[i]);
        }
        lemma_balance_sum_same(a.drop_last(), b.drop_last());
    }
}

pub proof fn lemma_rotate_keeps_chips(g: GameView)
    ensures
        chips(rotate_dealer(g)) == chips(g),
{
    if g.seats.len() > 0 {
        let r = g.seats.drop_first().push(g.seats[0]);
        assert(r.drop_last() =~= g.seats.drop_first());
        lemma_balance_sum_first(g.seats);
    }
}

pub proof fn lemma_reset_keeps_chips(g: GameView)
    ensures
        chips(reset_players(g)) == chips(g),
{
    lemma_balance_sum_same(reset_players(g).seats, g.seats);
}

/// A blind moves chips from a player's balance into the pot.
pub proof fn lemma_blind_keeps_chips(g: GameView, id: Seq<char>, cap: u64)
    requires
        seat_of(g.seats, id) < g.seats.len(),
        0 <= seat_of(g.seats, id),
        g.pot + cap <= u64::MAX,
    ensures
        chips(post_blind(g, id, cap)) == chips(g),
{
    let i = seat_of(g.seats, id);
    let p = g.seats[i].1;
    let s = if p.balance < cap {
        p.balance
    } else {
        cap
    };
    lemma_balance_sum_update(g.seats, i, (g.seats[i].0, PlayerView { balance: (p.balance - s) as u64, stake: (p.stake + s) as u64, ..p }));
}

/// Passing the turn on moves no chips, and neither does starting a betting
/// round on a table with cards; taking the blinds moves them into the pot.
pub proof fn lemma_next_turn_keeps_chips(g: GameView, cur: Option<Seq<char>>, now: u64)
    requires
        cur is None && g.table.len() == 0 && g.seats.len() >= 2 ==> g.pot + 30 <= u64::MAX,
    ensures
        chips(next_turn(g, cur, now)) == chips(g),
{
    let (g1, next) = turn_choice(g, cur);
    if cur is None && g.table.len() == 0 && g.seats.len() >= 2 {
        crate::state::players::lemma_seat_of_bounds(g.seats, g.seats[0].0);
        crate::state::players::lemma_seat_of_bounds(g.seats, g.seats[1].0);
        let ga = post_blind(g, g.seats[0].0, 10);
        lemma_blind_keeps_chips(g, g.seats[0].0, 10);
        crate::state::players::lemma_seat_of_keys(ga.seats, g.seats, g.seats[1].0);
        lemma_blind_keeps_chips(ga, g.seats[1].0, 20);
        assert(g1 == accept_blinds(g, g.seats[0].0, g.seats[1].0));
    }
    assert(chips(g1) == chips(g));
    match next {
        Some(id) => {
            crate::state::players::lemma_seat_of_bounds(g1.seats, id);
            let i = seat_of(g1.seats, id);
            if 0 <= i < g1.seats.len() {
                lemma_balance_sum_update(g1.seats, i, (g1.seats[i].0, PlayerView { ttl: Some(super::rules::deadline(now)), ..g1.seats[i].1 }));
            }
        },
        None => {},
    }
}

/// Ending a betting round moves no chips unless it ends the game.
pub proof fn lemma_complete_round_keeps_chips(g: GameView, now: u64)
    requires
        complete_round(g, now).status != GameStatus::Complete,
    ensures
        chips(complete_round(g, now)) == chips(g),
    decreases 5 - g.table.len(),
{
    if g.table.len() == 0 || g.table.len() == 3 || g.table.len() == 4 {
        let count = if g.table.len() == 0 {
            3int
        } else {
            1int
        };
        let gp = place_cards(g, count);
        assert(gp.table.len() > 0);
        lemma_next_turn_keeps_chips(gp, None, now);
        let g1 = clear_bets(next_turn(gp, None, now));
        if g1.turn is None {
            lemma_complete_round_keeps_chips(g1, now);
        }
    }
}

pub proof fn lemma_after_action_keeps_chips(g: GameView, id: Seq<char>, now: u64)
    requires
        after_action(g, id, now).status != GameStatus::Complete,
    ensures
        chips(after_action(g, id, now)) == chips(g),
{
    reveal(after_action);
    lemma_next_turn_keeps_chips(g, Some(id), now);
    let g1 = next_turn(g, Some(id), now);
    if g1.turn is None {
        lemma_complete_round_keeps_chips(g1, now);
    }
}

/// An accepted bet moves chips from the player into the pot and none
/// anywhere else: unless it ends the game, the chips in play stay the same.
pub proof fn law_bet_keeps_chips(g: GameView, id: Seq<char>, action: BetAction, now: u64)
    requires
        bet_runs(g, id, action, now),
        bet_outcome(g, id, action, now).1 is Ok,
        bet_outcome(g, id, action, now).0.status != GameStatus::Complete,
    ensures
        chips(bet_outcome(g, id, action, now).0) == chips(g),
{
    let i = seat_of(g.seats, id);
    crate::state::players::lemma_seat_of_bounds(g.seats, id);
    let p = g.seats[i].1;
    let (r, _) = bet_outcome(g, id, action, now);
    match super::rules::validation(g, id, action) {
        Ok(act) => {
            let stake = super::rules::stake_in_round(g, id);
            let call = super::rules::call_or_zero(g);
            match act {
                BetAction::Check => {
                    let s = staked(g, i, p.balance, 0);
                    lemma_balance_sum_update(g.seats, i, s.seats[i]);
                    lemma_after_action_keeps_chips(s, id, now);
                },
                BetAction::Call => {
                    let owed = (call - stake) as u64;
                    let c = if owed < p.balance {
                        owed
                    } else {
                        p.balance
                    };
                    let g1 = GameView { calls: g.calls.push((id, c)), ..g };
                    let s = staked(g1, i, (p.balance - c) as u64, c);
                    lemma_balance_sum_update(g1.seats, i, s.seats[i]);
                    lemma_after_action_keeps_chips(s, id, now);
                },
                BetAction::RaiseTo(x) => {
                    let g1 = GameView { raises: g.raises.push((id, x)), ..g };
                    let add = x - stake;
                    let s = staked(g1, i, (p.balance - add) as u64, add as u64);
                    lemma_balance_sum_update(g1.seats, i, s.seats[i]);
                    lemma_after_action_keeps_chips(s, id, now);
                },
            }
        },
        Err(_) => {},
    }
}

/// A refused bet leaves the game as it was, with one exception: a raise the
/// player cannot afford stays recorded.
pub proof fn law_refused_bet_changes_nothing(g: GameView, id: Seq<char>, action: BetAction, now: u64)
    requires
        bet_outcome(g, id, action, now).1 is Err,
        bet_outcome(g, id, action, now).1 != Err::<(), Seq<char>>("Not enough balance"@),
    ensures
        bet_outcome(g, id, action, now).0 == g,
{
}

/// A refused fold leaves the game as it was.
pub proof fn law_refused_fold_changes_nothing(g: GameView, id: Seq<char>, now: u64)
    requires
        fold_outcome(g, id, now).1 is Err,
    ensures
        fold_outcome(g, id, now).0 == g,
{
}

/// A refused start leaves the game as it was.
pub proof fn law_refused_start_changes_nothing(g: GameView, now: u64, deck: Seq<crate::cards::Card>)
    requires
        start_outcome(g, now, deck).1 is Err,
    ensures
        start_outcome(g, now, deck).0 == g,
{
}

/// When every other player has folded, the last one takes the whole pot:
/// the game ends, the pot is empty and no chip is lost.
pub proof fn law_last_player_takes_pot(g: GameView, id: Seq<char>, now: u64)
    requires
        fold_runs(g, id, now),
        fold_outcome(g, id, now).1 is Ok,
        fold_outcome(g, id, now).0.status == GameStatus::Complete,
        ({
            let i = seat_of(g.seats, id);
            let g1 = set_seat(g, i, PlayerView { folded: true, ..g.seats[i].1 });
            super::rules::not_folded(g1.seats).len() == 1
        }),
    ensures
        fold_outcome(g, id, now).0.pot == 0,
        chips(fold_outcome(g, id, now).0) == chips(g),
{
    let i = seat_of(g.seats, id);
    crate::state::players::lemma_seat_of_bounds(g.seats, id);
    let g1 = set_seat(g, i, PlayerView { folded: true, ..g.seats[i].1 });
    lemma_balance_sum_update(g.seats, i, g1.seats[i]);
    let w = super::rules::first_not_folded(g1.seats);
    lemma_first_not_folded_bounds(g1.seats);
    assert(w < g1.seats.len()) by {
        if w >= g1.seats.len() {
            lemma_all_folded(g1.seats);
        }
    }
    let g2 = GameView {
        pot: 0,
        ..set_seat(g1, w, PlayerView { balance: (g1.seats[w].1.balance + g1.pot) as u64, ..g1.seats[w].1 })
    };
    lemma_balance_sum_update(g1.seats, w, g2.seats[w]);
    lemma_reset_keeps_chips(g2);
    lemma_rotate_keeps_chips(reset_players(g2));
}

pub proof fn lemma_first_not_folded_bounds(seats: Seq<(Seq<char>, PlayerView)>)
    ensures
        0 <= super::rules::first_not_folded(seats) <= seats.len(),
        super::rules::first_not_folded(seats) < seats.len() ==> !seats[super::rules::first_not_folded(seats)].1.folded,
        forall|j: int| 0 <= j < super::rules::first_not_folded(seats) ==> (#[trigger] seats[j]).1.folded,
    decreases seats.len(),
{
    if seats.len() > 0 && seats[0].1.folded {
        lemma_first_not_folded_bounds(seats.drop_first());
        assert forall|j: int| 0 <= j < super::rules::first_not_folded(seats) implies (#[trigger] seats[j]).1.folded by {
            if j > 0 {
                assert(seats[j] == seats.drop_first()[j - 1]);
            }
        }
    }
}

/// When everybody has folded, nobody is left in the hand.
pub proof fn lemma_all_folded(seats: Seq<(Seq<char>, PlayerView)>)
    requires
        forall|j: int| 0 <= j < seats.len() ==> (#[trigger] seats[j]).1.folded,
    ensures
        super::rules::not_folded(seats).len() == 0,
    decreases seats.len(),
{
    reveal_with_fuel(Seq::<_>::filter, 1);
    if seats.len() > 0 {
        assert forall|j: int| 0 <= j < seats.drop_last().len() implies (#[trigger] seats.drop_last()[j]).1.folded by {
            assert(seats.drop_last()[j] == seats[j]);
        }
        lemma_all_folded(seats.drop_last());
        assert(seats.last().1.folded);
    }
}

/// Dealing from the deck onto the table moves cards and neither loses nor
/// adds any: the table and the deck hold the same cards between them before
/// and after.
pub proof fn law_dealing_keeps_the_cards(g: GameView, count: int)
    requires
        0 <= count <= g.deck.len(),
    ensures
        (place_cards(g, count).table + place_cards(g, count).deck).to_multiset() == (g.table + g.deck).to_multiset(),
{
    broadcast use vstd::multiset::group_multiset_axioms;

    let n = g.deck.len();
    let top = g.deck.skip(n - count);
    let rest = g.deck.take(n - count);
    assert(super::rules::dealt(g.deck, count) =~= top.reverse());
    top.lemma_reverse_to_multiset();
    assert(g.deck =~= rest + top);
    vstd::seq_lib::lemma_multiset_commutative(rest, top);
    vstd::seq_lib::lemma_multiset_commutative(g.table, g.deck);
    let t2 = g.table + top.reverse();
    vstd::seq_lib::lemma_multiset_commutative(g.table, top.reverse());
    vstd::seq_lib::lemma_multiset_commutative(t2, rest);
    assert(place_cards(g, count).table + place_cards(g, count).deck == t2 + rest);
    assert((t2 + rest).to_multiset() =~= (g.table + g.deck).to_multiset());
}

/// Starting a game empties the pot and then takes the blinds into it from
/// the players' balances.
pub proof fn law_start_takes_blinds(g: GameView, now: u64, deck: Seq<crate::cards::Card>)
    requires
        start_outcome(g, now, deck).1 is Ok,
    ensures
        chips(start_outcome(g, now, deck).0) == balance_sum(g.seats),
{
    let g0 = GameView { table: Seq::empty(), pot: 0, ..g };
    lemma_reset_keeps_chips(g0);
    lemma_next_turn_keeps_chips(reset_players(g0), None, now);
}

pub proof fn lemma_first_in_play_bounds(seats: Seq<(Seq<char>, PlayerView)>, k: int)
    requires
        0 <= k,
    ensures
        k <= first_in_play_from(seats, k) || first_in_play_from(seats, k) == seats.len(),
        first_in_play_from(seats, k) <= seats.len() || k > seats.len(),
        first_in_play_from(seats, k) < seats.len() ==> in_play(seats[first_in_play_from(seats, k)].1),
    decreases seats.len() - k,
{
    if k < seats.len() && !in_play(seats[k].1) {
        lemma_first_in_play_bounds(seats, k + 1);
    }
}

/// Once blinds are posted, the turn only ever passes to a seated player who
/// has not folded and has chips left.
pub proof fn law_turn_goes_to_player_in_play(g: GameView, cur: Seq<char>)
    requires
        next_players_turn(g, cur) is Some,
    ensures
        exists|i: int| 0 <= i < g.seats.len() && (#[trigger] g.seats[i]).0 == next_players_turn(g, cur)->0 && in_play(g.seats[i].1),
{
    crate::state::players::lemma_seat_of_bounds(g.seats, cur);
    let pos = seat_of(g.seats, cur);
    lemma_first_in_play_bounds(g.seats, 0);
    if pos < g.seats.len() {
        lemma_first_in_play_bounds(g.seats, pos + 1);
        let a = first_in_play_from(g.seats, pos + 1);
        if a < g.seats.len() {
            assert(g.seats[a].0 == next_players_turn(g, cur)->0);
        } else {
            let f = first_in_play_from(g.seats, 0);
            assert(g.seats[f].0 == next_players_turn(g, cur)->0);
        }
    } else {
        let f = first_in_play_from(g.seats, 0);
        assert(g.seats[f].0 == next_players_turn(g, cur)->0);
    }
}

/// A betting round on a dealt table starts with a seated player in play.
pub proof fn law_round_starts_with_player_in_play(g: GameView)
    requires
        starting_player(g) is Some,
    ensures
        exists|i: int| 0 <= i < g.seats.len() && (#[trigger] g.seats[i]).0 == starting_player(g)->0 && in_play(g.seats[i].1),
{
    lemma_first_in_play_bounds(g.seats, 0);
    let a = first_in_play_from(g.seats, 0);
    assert(g.seats[a].0 == starting_player(g)->0);
}

// ---------------------------------------------------------------------------
// The least raise and a player's stake
// ---------------------------------------------------------------------------

/// The highest of some levels is one of them and no level exceeds it.
pub proof fn lemma_max_of(s: Seq<u64>)
    requires
        s.len() > 0,
    ensures
        forall|k: int| 0 <= k < s.len() ==> #[trigger] s[k] <= super::rules::max_of(s),
        exists|j: int| 0 <= j < s.len() && #[trigger] s[j] == super::rules::max_of(s),
    decreases s.len(),
{
    let d = s.drop_last();
    if d.len() > 0 {
        lemma_max_of(d);
        let j = choose|j: int| 0 <= j < d.len() && #[trigger] d[j] == super::rules::max_of(d);
        assert(s[j] == d[j]);
        assert forall|k: int| 0 <= k < s.len() implies #[trigger] s[k] <= super::rules::max_of(s) by {
            if k < d.len() {
                assert(s[k] == d[k]);
            }
        }
        if s.last() > super::rules::max_of(d) {
            assert(s[s.len() - 1] == super::rules::max_of(s));
        } else {
            assert(s[j] == super::rules::max_of(s));
        }
    } else {
        assert(super::rules::max_of(d) == 0);
        assert(s[0] == s.last());
        assert(s[0] == super::rules::max_of(s));
    }
}

/// The step from level `i` to the next.
pub open spec fn step_at(l: Seq<u64>, i: int) -> int {
    l[i + 1] - l[i]
}

/// The largest step is at least every step between consecutive levels, and
/// it is one of them or 0.
pub proof fn lemma_largest_step(s: Seq<u64>)
    ensures
        forall|i: int| 0 <= i < s.len() - 1 ==> #[trigger] step_at(s, i) <= super::rules::largest_step(s),
        super::rules::largest_step(s) >= 0,
        super::rules::largest_step(s) == 0 || exists|i: int| 0 <= i < s.len() - 1 && super::rules::largest_step(s) == #[trigger] step_at(s, i),
    decreases s.len(),
{
    if s.len() >= 2 {
        let d = s.drop_last();
        lemma_largest_step(d);
        assert forall|i: int| 0 <= i < s.len() - 1 implies #[trigger] step_at(s, i) <= super::rules::largest_step(s) by {
            if i < s.len() - 2 {
                assert(s[i] == d[i] && s[i + 1] == d[i + 1]);
                assert(step_at(d, i) <= super::rules::largest_step(d));
            } else {
                assert(s[i + 1] == s.last());
            }
        }
        if super::rules::largest_step(s) != 0 {
            if super::rules::largest_step(s) == s.last() - s[s.len() - 2] {
                let i = s.len() - 2;
                assert(s[i + 1] == s.last());
                assert(super::rules::largest_step(s) == step_at(s, i));
            } else {
                let i = choose|i: int| 0 <= i < d.len() - 1 && super::rules::largest_step(d) == #[trigger] step_at(d, i);
                assert(s[i] == d[i] && s[i + 1] == d[i + 1]);
                assert(super::rules::largest_step(s) == step_at(s, i));
            }
        }
    }
}

/// The highest level plus the larger of the big blind and the largest step.
pub open spec fn least_over(l: Seq<u64>) -> int {
    let st = super::rules::largest_step(l);
    super::rules::max_of(l) + (if st > BIG_BLIND {
        st
    } else {
        BIG_BLIND as int
    })
}

proof fn lemma_least_over(l: Seq<u64>)
    requires
        l.len() > 0,
    ensures
        forall|j: int| 0 <= j < l.len() ==> least_over(l) >= #[trigger] l[j] + BIG_BLIND,
        forall|i: int, j: int|
            0 <= i < l.len() - 1 && 0 <= j < l.len() ==> least_over(l) >= #[trigger] l[j] + #[trigger] step_at(l, i),
        exists|j: int|
            0 <= j < l.len() && (forall|k: int| 0 <= k < l.len() ==> #[trigger] l[k] <= l[j]) && (least_over(l) == #[trigger] l[j]
                + BIG_BLIND || exists|i: int| 0 <= i < l.len() - 1 && least_over(l) == l[j] + #[trigger] step_at(l, i)),
{
    lemma_max_of(l);
    lemma_largest_step(l);
    let m = super::rules::max_of(l);
    let st = super::rules::largest_step(l);
    let v = least_over(l);
    assert(v == m + (if st > BIG_BLIND {
        st
    } else {
        BIG_BLIND as int
    }));
    let j = choose|j: int| 0 <= j < l.len() && #[trigger] l[j] == m;
    assert forall|k: int| 0 <= k < l.len() implies v >= #[trigger] l[k] + BIG_BLIND by {
        assert(l[k] <= m);
    }
    assert forall|i: int, k: int| 0 <= i < l.len() - 1 && 0 <= k < l.len() implies v >= #[trigger] l[k] + #[trigger] step_at(
        l,
        i,
    ) by {
        assert(step_at(l, i) <= st);
        assert(l[k] <= m);
    }
    assert forall|k: int| 0 <= k < l.len() implies #[trigger] l[k] <= l[j] by {
        assert(l[k] <= m);
    }
    if st > BIG_BLIND {
        let i = choose|i: int| 0 <= i < l.len() - 1 && st == #[trigger] step_at(l, i);
        assert(v == l[j] + step_at(l, i));
    } else {
        assert(v == l[j] + BIG_BLIND);
    }
}

/// The least a raise must reach is the highest raise so far plus the larger
/// of the big blind and the largest step between consecutive raise levels
/// (0, then each raise in order): it reaches every level plus the big blind
/// and every level plus every step, and it is the highest level plus either
/// the big blind or one of the steps.
pub proof fn law_least_raise(g: GameView)
    ensures
        raise_levels(g).len() == g.raises.len() + 1,
        raise_levels(g)[0] == 0,
        forall|i: int| 0 <= i < g.raises.len() ==> #[trigger] raise_levels(g)[i + 1] == g.raises[i].1,
        forall|j: int| 0 <= j < raise_levels(g).len() ==> min_raise_to(g) >= #[trigger] raise_levels(g)[j] + BIG_BLIND,
        forall|i: int, j: int|
            0 <= i < raise_levels(g).len() - 1 && 0 <= j < raise_levels(g).len() ==> min_raise_to(g) >= #[trigger] raise_levels(
                g,
            )[j] + #[trigger] step_at(raise_levels(g), i),
        exists|j: int|
            0 <= j < raise_levels(g).len() && (forall|k: int| 0 <= k < raise_levels(g).len() ==> #[trigger] raise_levels(g)[k]
                <= raise_levels(g)[j]) && (min_raise_to(g) == #[trigger] raise_levels(g)[j] + BIG_BLIND || exists|i: int|
                0 <= i < raise_levels(g).len() - 1 && min_raise_to(g) == raise_levels(g)[j] + #[trigger] step_at(raise_levels(g), i)),
{
    let l = raise_levels(g);
    assert forall|i: int| 0 <= i < g.raises.len() implies #[trigger] l[i + 1] == g.raises[i].1 by {}
    lemma_least_over(l);
    assert(min_raise_to(g) == least_over(l));
}

/// A player who made the last raise of the round has staked exactly that
/// raise; a player who has neither raised nor called has staked nothing.
pub proof fn law_stake_in_round(g: GameView, id: Seq<char>)
    ensures
        g.raises.len() > 0 && g.raises.last().0 == id ==> stake_in_round(g, id) == g.raises.last().1,
        (forall|i: int| 0 <= i < g.raises.len() ==> (#[trigger] g.raises[i]).0 != id) && (forall|i: int|
            0 <= i < g.calls.len() ==> (#[trigger] g.calls[i]).0 != id) ==> stake_in_round(g, id) == 0,
{
    if (forall|i: int| 0 <= i < g.raises.len() ==> (#[trigger] g.raises[i]).0 != id) && (forall|i: int|
        0 <= i < g.calls.len() ==> (#[trigger] g.calls[i]).0 != id) {
        lemma_untouched_max_raise(g.raises, id);
        lemma_untouched_calls(g.calls, id);
    }
}

proof fn lemma_untouched_max_raise(s: Seq<(Seq<char>, u64)>, id: Seq<char>)
    requires
        forall|i: int| 0 <= i < s.len() ==> (#[trigger] s[i]).0 != id,
    ensures
        super::rules::max_raise_by(s, id) == 0,
    decreases s.len(),
{
    if s.len() > 0 {
        assert forall|i: int| 0 <= i < s.drop_last().len() implies (#[trigger] s.drop_last()[i]).0 != id by {
            assert(s.drop_last()[i] == s[i]);
        }
        lemma_untouched_max_raise(s.drop_last(), id);
        assert(s[s.len() - 1] == s.last());
    }
}

proof fn lemma_untouched_calls(s: Seq<(Seq<char>, u64)>, id: Seq<char>)
    requires
        forall|i: int| 0 <= i < s.len() ==> (#[trigger] s[i]).0 != id,
    ensures
        super::rules::calls_by(s, id) == 0,
    decreases s.len(),
{
    if s.len() > 0 {
        assert forall|i: int| 0 <= i < s.drop_last().len() implies (#[trigger] s.drop_last()[i]).0 != id by {
            assert(s.drop_last()[i] == s[i]);
        }
        lemma_untouched_calls(s.drop_last(), id);
        assert(s[s.len() - 1] == s.last());
    }
}

} // verus!
