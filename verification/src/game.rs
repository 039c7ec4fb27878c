//! The game: joining, blinds, bets, folds, rounds and the showdown.
use vstd::prelude::*;

pub mod checks;
pub mod laws;
pub mod limits;
pub mod payout;
pub mod pot_laws;
pub mod rules;

use crate::cards::{Card, Deck};
use crate::state::players::Players;
use crate::state::dt::Instant;
use crate::state::players::{lemma_seat_of_bounds, lemma_seat_of_keys, seat_of};
use crate::state::{
    bet_view, BetAction, GameView, PlayerId, PlayerView, State, BIG_BLIND, PLAYER_TURN_TIMEOUT_SECONDS, SMALL_BLIND,
};
use crate::text::u64_to_string;
use payout::{payout_game_winners, payout_ready, score};
use crate::cards::order::hand_order;
use crate::cards::eval::evaluable;
use crate::cards::hand_cards;
use crate::cards::{strength_name, CardSuite, CardValue};
use crate::models::{ClientCard, CompletedGame, GameClientPlayer, GamePhase};
use crate::state::token::Token;
use crate::state::{GameStatus, Player, Round, GAME_IDLE_TIMEOUT_SECONDS, MAX_PLAYERS, STARTING_BALANCE};
use rules::{
    all_called, call_amount as spec_call_amount, call_or_zero, calls_by, dealt, first_in_play_from, in_play,
    next_players_turn, post_blind, starting_player, turn_timeout_ms, finishable, lemma_place_cards_final,
    clear_bets, final_table, bounded, playable, raise_reaches_stake, staked, bet_outcome, fold_outcome,
    not_folded, first_not_folded, start_outcome, joined, lemma_bounded_sane, lemma_not_folded_step,
    lemma_first_not_folded, set_seat, largest_step, after_runs, bet_runs, blinds_fit, complete_runs, fold_runs,
    next_turn_runs, settle_runs, turn_runs, levels_rise, max_of, max_raise_by,
    min_raise_to as spec_min_raise_to, place_cards, raise_levels, reset_seat, sane, stake_fits, stake_in_round,
    validation,
};

verus! {

// ---------------------------------------------------------------------------
// Arithmetic facts
// ---------------------------------------------------------------------------

pub proof fn lemma_calls_by_prefix(s: Seq<(Seq<char>, u64)>, id: Seq<char>, i: int)
    requires
        0 <= i <= s.len(),
    ensures
        calls_by(s.take(i), id) <= calls_by(s, id),
    decreases s.len(),
{
    if i < s.len() {
        assert(s.drop_last().take(i) =~= s.take(i));
        lemma_calls_by_prefix(s.drop_last(), id, i);
    } else {
        assert(s.take(i) =~= s);
    }
}

pub proof fn lemma_calls_by_le(s: Seq<(Seq<char>, u64)>, id: Seq<char>, cap: int)
    requires
        forall|i: int| 0 <= i < s.len() ==> (#[trigger] s[i]).1 <= cap,
        cap >= 0,
    ensures
        calls_by(s, id) <= s.len() * cap,
    decreases s.len(),
{
    if s.len() > 0 {
        assert forall|i: int| 0 <= i < s.drop_last().len() implies (#[trigger] s.drop_last()[i]).1 <= cap by {
            assert(s.drop_last()[i] == s[i]);
        }
        lemma_calls_by_le(s.drop_last(), id, cap);
        assert(s[s.len() - 1].1 <= cap);
        assert((s.len() - 1) * cap + cap == s.len() * cap) by (nonlinear_arith);
    }
}

pub proof fn lemma_max_raise_le(s: Seq<(Seq<char>, u64)>, id: Seq<char>, cap: int)
    requires
        forall|i: int| 0 <= i < s.len() ==> (#[trigger] s[i]).1 <= cap,
        cap >= 0,
    ensures
        max_raise_by(s, id) <= cap,
    decreases s.len(),
{
    if s.len() > 0 {
        assert forall|i: int| 0 <= i < s.drop_last().len() implies (#[trigger] s.drop_last()[i]).1 <= cap by {
            assert(s.drop_last()[i] == s[i]);
        }
        lemma_max_raise_le(s.drop_last(), id, cap);
        assert(s[s.len() - 1].1 <= cap);
    }
}

/// Under the working bounds every player's stake in the round can be worked
/// out, and stays below 2^54.
pub proof fn lemma_stakes_fit(g: GameView, id: Seq<char>)
    requires
        sane(g),
    ensures
        stake_fits(g, id),
        max_raise_by(g.raises, id) + calls_by(g.calls, id) <= 0x40_0000_0000_0000,
        0 <= stake_in_round(g, id) <= 0x40_0000_0000_0000,
{
    lemma_max_raise_le(g.raises, id, 0x10_0000_0000_0000);
    lemma_calls_by_le(g.calls, id, 0x200_0000_0000);
    assert(g.calls.len() * 0x200_0000_0000 <= 0x401 * 0x200_0000_0000) by (nonlinear_arith)
        requires
            g.calls.len() <= 0x401,
    ;
}

/// Levels that all stay within `cap` have their highest level and their
/// largest step within it too.
pub proof fn lemma_levels_within(s: Seq<u64>, cap: int)
    requires
        forall|i: int| 0 <= i < s.len() ==> #[trigger] s[i] <= cap,
        cap >= 0,
    ensures
        max_of(s) <= cap,
        largest_step(s) <= cap,
    decreases s.len(),
{
    if s.len() > 0 {
        assert forall|i: int| 0 <= i < s.drop_last().len() implies #[trigger] s.drop_last()[i] <= cap by {
            assert(s.drop_last()[i] == s[i]);
        }
        lemma_levels_within(s.drop_last(), cap);
        assert(s[s.len() - 1] == s.last());
    }
}

/// Within the working bounds the least raise stays below 2^53.
pub proof fn lemma_min_raise_bounded(g: GameView)
    requires
        sane(g),
    ensures
        spec_min_raise_to(g) <= 0x20_0000_0000_0000,
{
    let levels = raise_levels(g);
    assert forall|i: int| 0 <= i < levels.len() implies #[trigger] levels[i] <= 0x10_0000_0000_0000 by {
        if i > 0 {
            assert(levels[i] == g.raises[i - 1].1);
        }
    }
    lemma_levels_within(levels, 0x10_0000_0000_0000);
}

/// Within the limits, a player's stake in the round stays below 2^51.
pub proof fn lemma_stakes_bounded(g: GameView, id: Seq<char>)
    requires
        bounded(g),
    ensures
        0 <= stake_in_round(g, id) <= 0x8_0000_0000_0000,
{
    lemma_max_raise_le(g.raises, id, 0x100_0000_0000);
    lemma_calls_by_le(g.calls, id, 0x100_0000_0000);
    assert(g.calls.len() * 0x100_0000_0000 <= 0x400 * 0x100_0000_0000) by (nonlinear_arith)
        requires
            g.calls.len() <= 0x400,
    ;
}

// ---------------------------------------------------------------------------
// Bets
// ---------------------------------------------------------------------------

/// The amount to call: the last raise, if any.
pub fn call_amount(state: &State) -> (call: Option<u64>)
    ensures
        call == spec_call_amount(state.game()),
{
    let n = state.round.raises.len();
    if n > 0 {
        Some(state.round.raises[n - 1].1)
    } else {
        None
    }
}

/// What the player has staked in the current betting round.
pub fn player_stake_in_round(state: &State, player_id: &PlayerId) -> (stake: u64)
    requires
        stake_fits(state.game(), player_id@),
    ensures
        stake == stake_in_round(state.game(), player_id@),
{
    let ghost g = state.game();
    let raises = &state.round.raises;
    let calls = &state.round.calls;
    let n = raises.len();
    if n > 0 && raises[n - 1].0 == *player_id {
        return raises[n - 1].1;
    }
    let mut max_raise: u64 = 0;
    let mut i: usize = 0;
    while i < n
        invariant
            n == raises@.len(),
            i <= n,
            g.raises == raises@.map_values(|b: (PlayerId, u64)| bet_view(b)),
            max_raise == max_raise_by(g.raises.take(i as int), player_id@),
        decreases n - i,
    {
        assert(g.raises.take(i + 1).drop_last() =~= g.raises.take(i as int));
        if raises[i].0 == *player_id && raises[i].1 > max_raise {
            max_raise = raises[i].1;
        }
        i = i + 1;
    }
    assert(g.raises.take(n as int) =~= g.raises);
    let m = calls.len();
    let mut sum: u64 = 0;
    let mut j: usize = 0;
    while j < m
        invariant
            m == calls@.len(),
            j <= m,
            g.calls == calls@.map_values(|b: (PlayerId, u64)| bet_view(b)),
            sum == calls_by(g.calls.take(j as int), player_id@),
            max_raise == max_raise_by(g.raises, player_id@),
            max_raise_by(g.raises, player_id@) + calls_by(g.calls, player_id@) <= u64::MAX,
        decreases m - j,
    {
        assert(g.calls.take(j + 1).drop_last() =~= g.calls.take(j as int));
        proof {
            lemma_calls_by_prefix(g.calls, player_id@, j + 1);
        }
        if calls[j].0 == *player_id {
            sum = sum + calls[j].1;
        }
        j = j + 1;
    }
    assert(g.calls.take(m as int) =~= g.calls);
    max_raise + sum
}

/// The least a raise must reach: the highest raise so far plus the largest
/// step between consecutive raises, and at least the big blind above it.
pub fn min_raise_to(state: &State) -> (least: u64)
    requires
        levels_rise(state.game()),
        spec_min_raise_to(state.game()) <= u64::MAX,
    ensures
        least == spec_min_raise_to(state.game()),
{
    let ghost g = state.game();
    let ghost levels = raise_levels(g);
    let raises = &state.round.raises;
    let n = raises.len();
    let mut max_level: u64 = 0;
    let mut step: u64 = 0;
    let mut prev: u64 = 0;
    let mut i: usize = 0;
    assert(levels.take(1) =~= seq![0u64]);
    assert(levels.take(1).drop_last() =~= Seq::<u64>::empty());
    assert(max_of(Seq::<u64>::empty()) == 0);
    assert(levels.take(1).last() == 0);
    assert(max_of(levels.take(1)) == 0);
    while i < n
        invariant
            n == raises@.len(),
            i <= n,
            levels == seq![0u64] + g.raises.map_values(|b: (Seq<char>, u64)| b.1),
            g.raises == raises@.map_values(|b: (PlayerId, u64)| bet_view(b)),
            levels_rise(g),
            levels.len() == n + 1,
            levels == raise_levels(g),
            max_level == max_of(levels.take(i + 1)),
            step == largest_step(levels.take(i + 1)),
            prev == levels[i as int],
        decreases n - i,
    {
        let level = raises[i].1;
        assert(levels[i + 1] == level);
        assert(raise_levels(g)[i as int] <= raise_levels(g)[i + 1]);
        assert(levels.take(i + 2).drop_last() =~= levels.take(i + 1));
        assert(levels.take(i + 2)[i as int] == prev);
        assert(g.raises[i as int].1 == level);
        if level > max_level {
            max_level = level;
        }
        let d = level - prev;
        if d > step {
            step = d;
        }
        prev = level;
        i = i + 1;
    }
    assert(levels.take(n + 1) =~= levels);
    let bump = if step > BIG_BLIND { step } else { BIG_BLIND };
    max_level + bump
}

fn raise_message(least: u64) -> (message: String)
    ensures
        message@ == "Raise must be at least "@ + crate::text::decimal(least as nat),
{
    let text = "Raise must be at least ".to_string();
    let number = u64_to_string(least);
    text.concat(number.as_str())
}

/// Whether a bet is allowed: a check only when nobody raised past the
/// player's stake, a raise to at least the call and the minimum raise, a call
/// only when there is something left to call.
pub fn validate_bet_action(state: &State, player_id: &PlayerId, action: &BetAction) -> (r: Result<BetAction, String>)
    requires
        stake_fits(state.game(), player_id@),
        action matches BetAction::RaiseTo(r) && r != 0 ==> levels_rise(state.game()) && spec_min_raise_to(state.game())
            <= u64::MAX,
    ensures
        match r {
            Ok(a) => validation(state.game(), player_id@, *action) == Ok::<BetAction, Seq<char>>(a),
            Err(e) => validation(state.game(), player_id@, *action) == Err::<BetAction, Seq<char>>(e@),
        },
{
    let n = state.round.raises.len();
    let last_raise = if n > 0 { state.round.raises[n - 1].1 } else { 0 };
    let stake = player_stake_in_round(state, player_id);
    match action {
        BetAction::Check => {
            if n > 0 && stake != last_raise {
                Err("Cannot check after a raise".to_string())
            } else {
                Ok(BetAction::Check)
            }
        },
        BetAction::RaiseTo(raise_to) => {
            if *raise_to == 0 {
                return Err("Stake cannot be 0 for raise".to_string());
            }
            let call = match call_amount(state) {
                Some(c) => c,
                None => 0,
            };
            let least_raise = min_raise_to(state);
            let least = if call > least_raise { call } else { least_raise };
            if *raise_to < least {
                Err(raise_message(least))
            } else {
                Ok(BetAction::RaiseTo(*raise_to))
            }
        },
        BetAction::Call => {
            match call_amount(state) {
                None => Err("No bets to call".to_string()),
                Some(call) => {
                    if stake >= call {
                        Err("Cannot call, already called".to_string())
                    } else {
                        Ok(BetAction::Call)
                    }
                },
            }
        },
    }
}

// ---------------------------------------------------------------------------
// Seats, cards and the dealer
// ---------------------------------------------------------------------------

/// Every seated player's stake back to 0, and nobody folded.
fn reset_seats(players: &mut Players)
    ensures
        final(players).seats() == old(players).seats().map_values(|e: (Seq<char>, PlayerView)| reset_seat(e)),
        final(players).dormant() == old(players).dormant(),
{
    let n = players.len();
    let mut i: usize = 0;
    while i < n
        invariant
            n == old(players).seats().len(),
            i <= n,
            players.seats().len() == n,
            players.dormant() == old(players).dormant(),
            forall|j: int| 0 <= j < i ==> #[trigger] players.seats()[j] == reset_seat(old(players).seats()[j]),
            forall|j: int| i <= j < n ==> #[trigger] players.seats()[j] == old(players).seats()[j],
        decreases n - i,
    {
        let p = players.at_mut(i);
        p.stake = 0;
        p.folded = false;
        i = i + 1;
    }
    assert(players.seats() =~= old(players).seats().map_values(|e: (Seq<char>, PlayerView)| reset_seat(e)));
}

/// Every player's stake back to 0, nobody folded, and nobody's turn.
fn reset_players(state: &mut State)
    ensures
        final(state).game() == rules::reset_players(old(state).game()),
        final(state).same_surroundings(old(state)),
{
    reset_seats(&mut state.players);
    state.round.players_turn = None;
    assert(state.game() =~= rules::reset_players(old(state).game()));
}

/// The first seated player moves to the last seat.
fn rotate_dealer(state: &mut State)
    ensures
        final(state).game() == rules::rotate_dealer(old(state).game()),
        final(state).same_surroundings(old(state)),
{
    match state.players.pop_first() {
        Some(entry) => {
            let (id, player) = entry;
            state.players.insert(id, player);
            assert(state.game() =~= rules::rotate_dealer(old(state).game()));
        },
        None => {},
    }
}

/// Deals `count` cards from the end of the deck onto the table.
fn deal_onto(deck: &mut Deck, table: &mut Vec<Card>, count: usize)
    requires
        old(deck)@.len() >= count,
    ensures
        final(table)@ == old(table)@ + dealt(old(deck)@, count as int),
        final(deck)@ == old(deck)@.take(old(deck)@.len() - count),
{
    let mut k: usize = 0;
    while k < count
        invariant
            k <= count,
            old(deck)@.len() >= count,
            deck@ == old(deck)@.take(old(deck)@.len() - k),
            table@ == old(table)@ + dealt(old(deck)@, k as int),
        decreases count - k,
    {
        let card = deck.pop();
        table.push(card);
        k = k + 1;
        assert(deck@ =~= old(deck)@.take(old(deck)@.len() - k));
        assert(table@ =~= old(table)@ + dealt(old(deck)@, k as int));
    }
}

fn place_cards_on_table(state: &mut State, count: usize)
    requires
        old(state).round.deck@.len() >= count,
    ensures
        final(state).game() == place_cards(old(state).game(), count as int),
        final(state).same_surroundings(old(state)),
{
    deal_onto(&mut state.round.deck, &mut state.round.cards_on_table, count);
    assert(state.game() =~= place_cards(old(state).game(), count as int));
}

// ---------------------------------------------------------------------------
// Turns
// ---------------------------------------------------------------------------

pub proof fn lemma_first_in_play(seats: Seq<(Seq<char>, PlayerView)>, k: int, i: int)
    requires
        0 <= k <= i <= seats.len(),
        forall|j: int| k <= j < i ==> !in_play(#[trigger] seats[j].1),
        i == seats.len() || in_play(seats[i].1),
    ensures
        first_in_play_from(seats, k) == i,
    decreases i - k,
{
    if k < i {
        lemma_first_in_play(seats, k + 1, i);
    }
}

/// The first seat from `from` on whose player is in play, or the number of
/// seats.
fn first_in_play(players: &Players, from: usize) -> (k: usize)
    ensures
        k == first_in_play_from(players.seats(), from as int),
        k <= players.seats().len(),
{
    let n = players.len();
    if from >= n {
        return n;
    }
    let mut k = from;
    while k < n
        invariant
            n == players.seats().len(),
            from <= k <= n,
            forall|j: int| from <= j < k ==> !in_play(#[trigger] players.seats()[j].1),
        decreases n - k,
    {
        let p = &players.at(k).1;
        if !p.folded && p.balance > 0 {
            proof {
                lemma_first_in_play(players.seats(), from as int, k as int);
            }
            return k;
        }
        k = k + 1;
    }
    proof {
        lemma_first_in_play(players.seats(), from as int, k as int);
    }
    k
}

/// Who starts a betting round: the first player in play, when at least two
/// are.
fn get_rounds_starting_player(state: &State) -> (id: Option<PlayerId>)
    ensures
        match id {
            Some(x) => starting_player(state.game()) == Some(x@),
            None => starting_player(state.game()) is None,
        },
{
    let n = state.players.len();
    let a = first_in_play(&state.players, 0);
    if a >= n {
        return None;
    }
    let b = first_in_play(&state.players, a + 1);
    if b >= n {
        return None;
    }
    Some(state.players.at(a).0.clone())
}

/// Every player in play has staked exactly `call` in the round.
fn all_players_called(state: &State, call: u64) -> (all: bool)
    requires
        forall|i: int|
            0 <= i < state.game().seats.len() && in_play(#[trigger] state.game().seats[i].1) ==> stake_fits(
                state.game(),
                state.game().seats[i].1.id,
            ),
    ensures
        all == all_called(state.game(), call as int),
{
    let ghost g = state.game();
    let n = state.players.len();
    let mut i: usize = 0;
    while i < n
        invariant
            n == g.seats.len(),
            i <= n,
            g == state.game(),
            forall|j: int| 0 <= j < g.seats.len() && in_play(#[trigger] g.seats[j].1) ==> stake_fits(g, g.seats[j].1.id),
            forall|j: int| 0 <= j < i && in_play(#[trigger] g.seats[j].1) ==> stake_in_round(g, g.seats[j].1.id) == call,
        decreases n - i,
    {
        let p = &state.players.at(i).1;
        if !p.folded && p.balance > 0 {
            assert(in_play(g.seats[i as int].1));
            if player_stake_in_round(state, &p.id) != call {
                return false;
            }
        }
        i = i + 1;
    }
    true
}

/// Whose turn follows the current player's, or none when the betting round
/// is over.
fn get_next_players_turn(state: &State, current_player_id: &PlayerId) -> (next: Option<PlayerId>)
    requires
        turn_runs(state.game(), current_player_id@),
    ensures
        match next {
            Some(x) => next_players_turn(state.game(), current_player_id@) == Some(x@),
            None => next_players_turn(state.game(), current_player_id@) is None,
        },
{
    let ghost g = state.game();
    let call = match call_amount(state) {
        Some(c) => c,
        None => 0,
    };
    let first_round = state.round.cards_on_table.len() < 3;
    if call > 0 && (!first_round || state.round.raises.len() > 2) {
        if all_players_called(state, call) {
            return None;
        }
    }
    if first_round {
        let is_big_blind = state.players.at(1).0 == *current_player_id;
        if is_big_blind {
            if player_stake_in_round(state, current_player_id) == BIG_BLIND {
                return None;
            }
        }
    }
    let n = state.players.len();
    let pos = state.players.position(current_player_id);
    let after = if pos < n {
        first_in_play(&state.players, pos + 1)
    } else {
        n
    };
    if after < n {
        return Some(state.players.at(after).0.clone());
    }
    let f = first_in_play(&state.players, 0);
    if f < n {
        let p = &state.players.at(f).1;
        proof {
            laws::lemma_first_in_play_bounds(g.seats, 0);
            assert(in_play(g.seats[f as int].1));
        }
        if player_stake_in_round(state, &p.id) != call {
            return Some(state.players.at(f).0.clone());
        }
    }
    None
}

/// Takes a blind of at most `cap` from the first player seated under `id`.
fn post_blind_from(state: &mut State, id: &PlayerId, cap: u64)
    requires
        seat_of(old(state).game().seats, id@) < old(state).game().seats.len(),
        old(state).game().seats[seat_of(old(state).game().seats, id@)].1.stake + cap <= u64::MAX,
        old(state).game().pot + cap <= u64::MAX,
    ensures
        final(state).game() == post_blind(old(state).game(), id@, cap),
        final(state).same_surroundings(old(state)),
{
    let ghost g = state.game();
    proof {
        lemma_seat_of_bounds(g.seats, id@);
    }
    match state.players.get_mut(id) {
        Some(p) => {
            let s = if p.balance < cap {
                p.balance
            } else {
                cap
            };
            p.balance = p.balance - s;
            p.stake = p.stake + s;
            state.round.pot = state.round.pot + s;
            state.round.raises.push((p.id.clone(), s));
            assert(state.game().raises =~= g.raises.push((g.seats[seat_of(g.seats, id@)].1.id, s)));
            assert(state.game() =~= post_blind(g, id@, cap));
        },
        None => {},
    }
}

/// The small and the big blind.
fn accept_blinds(state: &mut State, small_blind_player: PlayerId, big_blind_player: PlayerId)
    requires
        blinds_fit(old(state).game()),
        seat_of(old(state).game().seats, small_blind_player@) < old(state).game().seats.len(),
        seat_of(old(state).game().seats, big_blind_player@) < old(state).game().seats.len(),
    ensures
        final(state).game() == rules::accept_blinds(old(state).game(), small_blind_player@, big_blind_player@),
        final(state).same_surroundings(old(state)),
{
    let ghost g = state.game();
    let ghost i = seat_of(g.seats, small_blind_player@);
    proof {
        lemma_seat_of_bounds(g.seats, small_blind_player@);
        lemma_seat_of_bounds(g.seats, big_blind_player@);
    }
    assert(g.seats[i].1.stake <= u64::MAX - 30);
    post_blind_from(state, &small_blind_player, SMALL_BLIND);
    let ghost j = seat_of(g.seats, big_blind_player@);
    proof {
        lemma_seat_of_keys(state.game().seats, g.seats, big_blind_player@);
    }
    assert(state.game().seats[j].1.stake <= u64::MAX - 30 + SMALL_BLIND) by {
        assert(g.seats[j].1.stake <= u64::MAX - 30);
    }
    post_blind_from(state, &big_blind_player, BIG_BLIND);
}

/// Passes the turn on from `current_player_id`, or, when there is none,
/// starts a betting round (taking the blinds when no card is on the table).
/// The player whose turn it becomes has until a minute after `now`.
fn next_turn(state: &mut State, current_player_id: Option<&PlayerId>, now: u64)
    requires
        next_turn_runs(
            old(state).game(),
            match current_player_id {
                Some(id) => Some(id@),
                None => None,
            },
        ),
    ensures
        final(state).game() == rules::next_turn(
            old(state).game(),
            match current_player_id {
                Some(id) => Some(id@),
                None => None,
            },
            now,
        ),
        final(state).same_surroundings(old(state)),
{
    let ghost g = state.game();
    let next = match current_player_id {
        Some(id) => get_next_players_turn(state, id),
        None => {
            let n = state.players.len();
            if n < 2 {
                state.round.players_turn = None;
                assert(state.game() =~= rules::next_turn(g, None, now));
                return;
            }
            if state.round.cards_on_table.len() == 0 {
                let small = state.players.at(0).0.clone();
                let big = state.players.at(1).0.clone();
                let next_player = state.players.at(2 % n).0.clone();
                proof {
                    lemma_seat_of_bounds(g.seats, small@);
                    lemma_seat_of_bounds(g.seats, big@);
                }
                accept_blinds(state, small, big);
                Some(next_player)
            } else {
                get_rounds_starting_player(state)
            }
        },
    };
    let ghost g1 = state.game();
    match &next {
        Some(id) => {
            proof {
                lemma_seat_of_bounds(g1.seats, id@);
            }
            match state.players.get_mut(id) {
                Some(p) => {
                    p.ttl = Some(Instant::from_ms(now.saturating_add(PLAYER_TURN_TIMEOUT_SECONDS * 1000)));
                },
                None => {},
            }
        },
        None => {},
    }
    state.round.players_turn = next;
    assert(state.game() =~= rules::next_turn(
        g,
        match current_player_id {
            Some(id) => Some(id@),
            None => None,
        },
        now,
    ));
}

// ---------------------------------------------------------------------------
// Rounds
// ---------------------------------------------------------------------------

/// Ends a betting round: deals the flop, the turn or the river and starts the
/// next betting round, or after the river pays out and ends the game. A
/// betting round in which nobody can bet ends at once.
fn complete_round(state: &mut State, now: u64)
    requires
        complete_runs(old(state).game(), now),
    ensures
        final(state).game() == rules::complete_round(old(state).game(), now),
        final(state).same_surroundings(old(state)),
    decreases 5 - old(state).game().table.len(),
{
    let ghost g = state.game();
    let n = state.round.cards_on_table.len();
    if n == 0 || n == 3 || n == 4 {
        let count: usize = if n == 0 {
            3
        } else {
            1
        };
        place_cards_on_table(state, count);
        next_turn(state, None, now);
        state.round.raises.clear();
        state.round.calls.clear();
        let ghost g1 = state.game();
        assert(g1 =~= clear_bets(rules::next_turn(place_cards(g, count as int), None, now)));
        if state.round.players_turn.is_none() {
            complete_round(state, now);
        }
    } else if n == 5 {
        payout_game_winners(state);
        reset_players(state);
        rotate_dealer(state);
        state.status = GameStatus::Complete;
        state.round.raises.clear();
        state.round.calls.clear();
        assert(state.game() =~= rules::complete_round(g, now));
    }
}

/// An outcome's error as plain text.
pub open spec fn outcome(r: Result<(), String>) -> Result<(), Seq<char>> {
    match r {
        Ok(()) => Ok(()),
        Err(e) => Err(e@),
    }
}

/// After a bet or a fold the turn passes on, and the betting round ends when
/// nobody is left to act.
fn after_action(state: &mut State, player_id: &PlayerId, now: u64)
    requires
        after_runs(old(state).game(), player_id@, now),
    ensures
        final(state).game() == rules::after_action(old(state).game(), player_id@, now),
        final(state).same_surroundings(old(state)),
{
    reveal(rules::after_action);
    next_turn(state, Some(player_id), now);
    if state.round.players_turn.is_none() {
        complete_round(state, now);
    }
}

/// The player in seat `i` is left with `balance`, `amount` goes into the pot,
/// and the turn passes on.
fn settle(state: &mut State, i: usize, balance: u64, amount: u64, player_id: &PlayerId, now: u64)
    requires
        i < old(state).game().seats.len(),
        settle_runs(old(state).game(), i as int, balance, amount, player_id@, now),
    ensures
        final(state).game() == rules::settle(old(state).game(), i as int, balance, amount, player_id@, now),
        final(state).same_surroundings(old(state)),
{
    let ghost g = state.game();
    let p = state.players.at_mut(i);
    p.balance = balance;
    p.stake = p.stake + amount;
    state.round.pot = state.round.pot + amount;
    assert(state.game() =~= staked(g, i as int, balance, amount));
    after_action(state, player_id, now);
}

/// Takes a check, a call or a raise from the player whose turn it is, at
/// time `now`.
#[verifier::rlimit(30)]
pub fn accept_player_bet_at(state: &mut State, player_id: &PlayerId, action: BetAction, now: u64) -> (r: Result<(), String>)
    requires
        bet_runs(old(state).game(), player_id@, action, now),
    ensures
        (final(state).game(), outcome(r)) == bet_outcome(old(state).game(), player_id@, action, now),
        final(state).same_surroundings(old(state)),
{
    let ghost g = state.game();
    if state.status != GameStatus::Playing {
        return Err("Game not started".to_string());
    }
    let my_turn = match &state.round.players_turn {
        Some(t) => *t == *player_id,
        None => false,
    };
    if !my_turn {
        return Err("Not your turn".to_string());
    }
    let action = match validate_bet_action(state, player_id, &action) {
        Ok(a) => a,
        Err(e) => {
            return Err(e);
        },
    };
    let stake = player_stake_in_round(state, player_id);
    let least = min_raise_to(state);
    let call = match call_amount(state) {
        Some(c) => c,
        None => 0,
    };
    let i = state.players.position(player_id);
    if i >= state.players.len() {
        return Err("Player not found".to_string());
    }
    let balance = state.players.at(i).1.balance;
    match action {
        BetAction::Check => {
            if call - stake > 0 {
                return Err("Cannot check, must call".to_string());
            }
            settle(state, i, balance, 0, player_id, now);
        },
        BetAction::Call => {
            let owed = call - stake;
            let c = if owed < balance {
                owed
            } else {
                balance
            };
            state.round.calls.push((player_id.clone(), c));
            assert(state.game() =~= GameView { calls: g.calls.push((player_id@, c)), ..g });
            settle(state, i, balance - c, c, player_id, now);
        },
        BetAction::RaiseTo(raise_to) => {
            if raise_to < least {
                return Err(raise_message(least));
            }
            state.round.raises.push((player_id.clone(), raise_to));
            assert(state.game() =~= GameView { raises: g.raises.push((player_id@, raise_to)), ..g });
            let add = raise_to - stake;
            if add > balance {
                return Err("Not enough balance".to_string());
            }
            settle(state, i, balance - add, add, player_id, now);
        },
    }
    Ok(())
}

/// How many seated players have not folded, and the seat of the first.
fn unfolded(players: &Players) -> (r: (usize, usize))
    ensures
        r.0 == not_folded(players.seats()).len(),
        r.1 == first_not_folded(players.seats()),
        r.1 <= players.seats().len(),
        r.0 > 0 ==> r.1 < players.seats().len(),
{
    let ghost seats = players.seats();
    let n = players.len();
    let mut count: usize = 0;
    let mut first: usize = n;
    let mut i: usize = 0;
    assert(not_folded(seats.take(0)) =~= Seq::<(Seq<char>, PlayerView)>::empty()) by {
        reveal_with_fuel(Seq::<_>::filter, 1);
    }
    while i < n
        invariant
            n == seats.len(),
            seats == players.seats(),
            i <= n,
            count == not_folded(seats.take(i as int)).len(),
            count <= i,
            first == n ==> forall|j: int| 0 <= j < i ==> (#[trigger] seats[j]).1.folded,
            first < n ==> first < i && !seats[first as int].1.folded && forall|j: int| 0 <= j < first ==> (#[trigger] seats[j]).1.folded,
            first <= n,
            first == n ==> count == 0,
        decreases n - i,
    {
        proof {
            lemma_not_folded_step(seats, i as int);
        }
        if !players.at(i).1.folded {
            count = count + 1;
            if first == n {
                first = i;
            }
        }
        i = i + 1;
    }
    assert(seats.take(n as int) =~= seats);
    proof {
        lemma_first_not_folded(seats, first as int);
    }
    (count, first)
}

/// The player whose turn it is folds, at time `now`. When only one player is
/// left in the hand, they take the pot and the game ends.
#[verifier::rlimit(30)]
pub fn fold_player_at(state: &mut State, player_id: &PlayerId, now: u64) -> (r: Result<(), String>)
    requires
        fold_runs(old(state).game(), player_id@, now),
    ensures
        (final(state).game(), outcome(r)) == fold_outcome(old(state).game(), player_id@, now),
        final(state).same_surroundings(old(state)),
{
    let ghost g = state.game();
    let my_turn = match &state.round.players_turn {
        Some(t) => *t == *player_id,
        None => false,
    };
    if !my_turn {
        return Err("Not your turn".to_string());
    }
    let i = state.players.position(player_id);
    if i >= state.players.len() {
        return Err("Player not found".to_string());
    }
    state.players.at_mut(i).folded = true;
    let ghost g1 = state.game();
    assert(g1 =~= set_seat(g, i as int, PlayerView { folded: true, ..g.seats[i as int].1 }));
    let (count, first) = unfolded(&state.players);
    if count == 1 {
        let pot = state.round.pot;
        let p = state.players.at_mut(first);
        p.balance = p.balance + pot;
        state.round.pot = 0;
        assert(state.game() =~= GameView {
            pot: 0,
            ..set_seat(g1, first as int, PlayerView { balance: (g1.seats[first as int].1.balance + g1.pot) as u64, ..g1.seats[first as int].1 })
        });
        reset_players(state);
        rotate_dealer(state);
        state.status = GameStatus::Complete;
        state.round.raises.clear();
        state.round.calls.clear();
        assert(state.game() =~= fold_outcome(g, player_id@, now).0);
        return Ok(());
    }
    after_action(state, player_id, now);
    Ok(())
}

/// Starts a game at time `now`: clears the table and the pot, takes the
/// blinds and gives the first turn. A finished game's deck is replaced by
/// `fresh_deck`.
pub fn start_game_at(state: &mut State, now: u64, fresh_deck: Deck) -> (r: Result<(), String>)
    ensures
        (final(state).game(), outcome(r)) == start_outcome(old(state).game(), now, fresh_deck@),
        final(state).same_surroundings(old(state)),
{
    let ghost g = state.game();
    if state.status == GameStatus::Playing {
        return Err("Game already started".to_string());
    }
    if state.players.len() < 2 {
        return Err("Not enough players".to_string());
    }
    state.round.cards_on_table.clear();
    state.round.pot = 0;
    assert(state.game() =~= GameView { table: Seq::empty(), pot: 0, ..g });
    reset_players(state);
    next_turn(state, None, now);
    if state.status == GameStatus::Complete {
        state.round.deck = fresh_deck;
    }
    state.status = GameStatus::Playing;
    assert(state.game() =~= start_outcome(g, now, fresh_deck@).0);
    Ok(())
}

/// A control character: one of the C0 or C1 control codes.
pub open spec fn is_control_char(c: char) -> bool {
    c <= '\u{1f}' || ('\u{7f}' <= c && c <= '\u{9f}')
}

/// A name a player may join under: not empty, at most 24 bytes long, and
/// free of control characters.
pub open spec fn valid_name(name: &str) -> bool {
    &&& name@.len() > 0
    &&& name.len() <= 24
    &&& forall|i: int| 0 <= i < name@.len() ==> !is_control_char(#[trigger] name@[i])
}

/// Whether a player may join under the name.
pub fn valid_player_name(name: &str) -> (ok: bool)
    ensures
        ok == valid_name(name),
{
    if name.is_empty() || name.len() > 24 {
        return false;
    }
    let n = name.unicode_len();
    let mut i: usize = 0;
    while i < n
        invariant
            n == name@.len(),
            i <= n,
            forall|j: int| 0 <= j < i ==> !is_control_char(#[trigger] name@[j]),
        decreases n - i,
    {
        let c = name.get_char(i);
        if c <= '\u{1f}' || ('\u{7f}' <= c && c <= '\u{9f}') {
            return false;
        }
        i = i + 1;
    }
    true
}

/// Seats a new player under the given identifier, dealt the next two cards
/// of the deck, unless the game is under way or the room is full.
pub fn add_new_player_with_id(state: &mut State, player_name: &str, player_id: PlayerId) -> (r: Result<PlayerId, String>)
    requires
        old(state).game().status != GameStatus::Playing && old(state).game().seats.len() < MAX_PLAYERS
            ==> old(state).game().deck.len() >= 2,
    ensures
        final(state).same_surroundings(old(state)),
        match r {
            Ok(id) => {
                &&& old(state).game().status != GameStatus::Playing
                &&& old(state).game().seats.len() < MAX_PLAYERS
                &&& id@ == player_id@
                &&& exists|token: Seq<char>| token.len() <= 8 && final(state).game() == #[trigger] joined(old(state).game(), id@, player_name@, token)
            },
            Err(e) => {
                &&& final(state).game() == old(state).game()
                &&& if old(state).game().status == GameStatus::Playing {
                    e@ == "Game already started"@
                } else {
                    old(state).game().seats.len() >= MAX_PLAYERS && e@ == "Room is full"@
                }
            },
        },
{
    let ghost g = state.game();
    if state.status == GameStatus::Playing {
        return Err("Game already started".to_string());
    }
    if state.players.len() >= MAX_PLAYERS {
        return Err("Room is full".to_string());
    }
    let card_1 = state.round.deck.pop();
    let card_2 = state.round.deck.pop();
    let funds_token = Token::default();
    let ghost tok = funds_token.value@;
    let apid = String::new();
    assert(apid@ =~= Seq::<char>::empty());
    let name = player_name.to_string();
    assert(name@ == player_name@);
    let player = Player {
        name,
        id: player_id.clone(),
        emoji: None,
        funds_token,
        balance: STARTING_BALANCE,
        stake: 0,
        folded: false,
        photo: None,
        ttl: None,
        apid,
        cards: (card_1, card_2),
    };
    state.players.insert(player_id.clone(), player);
    assert(state.round.deck@ =~= g.deck.take(g.deck.len() - 2));
    assert(state.game() =~= joined(g, player_id@, player_name@, tok));
    assert(tok.len() <= 8 && state.game() == joined(g, player_id@, player_name@, tok));
    let r: Result<PlayerId, String> = Ok(player_id);
    assert(r->Ok_0@ == player_id@);
    r
}

/// Seats a new player under a fresh identifier, dealt the next two cards of
/// the deck, unless the game is under way or the room is full.
pub fn add_new_player(state: &mut State, player_name: &str) -> (r: Result<PlayerId, String>)
    requires
        old(state).game().status != GameStatus::Playing && old(state).game().seats.len() < MAX_PLAYERS
            ==> old(state).game().deck.len() >= 2,
    ensures
        final(state).same_surroundings(old(state)),
        match r {
            Ok(id) => {
                &&& old(state).game().status != GameStatus::Playing
                &&& old(state).game().seats.len() < MAX_PLAYERS
                &&& crate::state::id::uuid_shape(id@)
                &&& exists|token: Seq<char>| token.len() <= 8 && final(state).game() == #[trigger] joined(old(state).game(), id@, player_name@, token)
            },
            Err(e) => {
                &&& final(state).game() == old(state).game()
                &&& if old(state).game().status == GameStatus::Playing {
                    e@ == "Game already started"@
                } else {
                    old(state).game().seats.len() >= MAX_PLAYERS && e@ == "Room is full"@
                }
            },
        },
{
    let player_id = PlayerId::default();
    add_new_player_with_id(state, player_name, player_id)
}

// ---------------------------------------------------------------------------
// The same, at the current time
// ---------------------------------------------------------------------------

/// Takes a check, a call or a raise from the player whose turn it is.
pub fn accept_player_bet(state: &mut State, player_id: &PlayerId, action: BetAction) -> (r: Result<(), String>)
    requires
        forall|now: u64| #[trigger] bet_runs(old(state).game(), player_id@, action, now),
    ensures
        exists|now: u64| (final(state).game(), outcome(r)) == #[trigger] bet_outcome(old(state).game(), player_id@, action, now),
        final(state).same_surroundings(old(state)),
{
    let now = Instant::now_ms();
    accept_player_bet_at(state, player_id, action, now)
}

/// The player whose turn it is folds.
pub fn fold_player(state: &mut State, player_id: &PlayerId) -> (r: Result<(), String>)
    requires
        forall|now: u64| #[trigger] fold_runs(old(state).game(), player_id@, now),
    ensures
        exists|now: u64| (final(state).game(), outcome(r)) == #[trigger] fold_outcome(old(state).game(), player_id@, now),
        final(state).same_surroundings(old(state)),
{
    let now = Instant::now_ms();
    fold_player_at(state, player_id, now)
}

/// Starts a game; a finished game's deck is replaced by a shuffled one.
pub fn start_game(state: &mut State) -> (r: Result<(), String>)
    ensures
        exists|now: u64, deck: Seq<Card>|
            deck.len() == 52 && deck.to_multiset() == crate::cards::ordered_deck().to_multiset() && (final(state).game(), outcome(r))
                == #[trigger] start_outcome(old(state).game(), now, deck),
        final(state).same_surroundings(old(state)),
{
    let now = Instant::now_ms();
    let deck = Deck::default();
    start_game_at(state, now, deck)
}

// ---------------------------------------------------------------------------
// Turn deadlines
// ---------------------------------------------------------------------------

/// What clearing a player's turn deadline at time `now` does: it is refused
/// once the deadline has passed.
pub open spec fn ttl_reset(g: GameView, id: Seq<char>, now: u64) -> (GameView, Result<(), Seq<char>>) {
    let i = seat_of(g.seats, id);
    if i >= g.seats.len() {
        (g, Err("Player not found"@))
    } else {
        let p = g.seats[i].1;
        match p.ttl {
            Some(t) if t < now => (g, Err("Player's turn has expired"@)),
            _ => (set_seat(g, i, PlayerView { ttl: None, ..p }), Ok(())),
        }
    }
}

/// Clears the player's turn deadline at time `now`, unless it has passed.
pub fn reset_ttl_at(state: &mut State, id: &PlayerId, now: u64) -> (r: Result<(), String>)
    ensures
        (final(state).game(), outcome(r)) == ttl_reset(old(state).game(), id@, now),
        final(state).same_surroundings(old(state)),
{
    let ghost g = state.game();
    proof {
        lemma_seat_of_bounds(g.seats, id@);
    }
    match state.players.get_mut(id) {
        Some(player) => {
            let expired = match player.ttl {
                Some(ttl) => ttl.as_u64() < now,
                None => false,
            };
            if expired {
                Err("Player's turn has expired".to_string())
            } else {
                player.ttl = None;
                assert(state.game() =~= ttl_reset(g, id@, now).0);
                Ok(())
            }
        },
        None => Err("Player not found".to_string()),
    }
}

/// Clears the player's turn deadline, unless it has passed.
pub fn reset_ttl(state: &mut State, id: &PlayerId) -> (r: Result<(), String>)
    ensures
        exists|now: u64| (final(state).game(), outcome(r)) == #[trigger] ttl_reset(old(state).game(), id@, now),
        final(state).same_surroundings(old(state)),
{
    let now = Instant::now_ms();
    reset_ttl_at(state, id, now)
}

/// When the player's turn runs out, if they have a deadline.
pub fn turn_expires_dt(state: &State, player_id: &PlayerId) -> (dt: Option<u64>)
    ensures
        dt == (if seat_of(state.game().seats, player_id@) < state.game().seats.len() {
            state.game().seats[seat_of(state.game().seats, player_id@)].1.ttl
        } else {
            None
        }),
{
    match state.players.get(player_id) {
        Some(p) => match p.ttl {
            Some(t) => Some(t.as_u64()),
            None => None,
        },
        None => None,
    }
}

// ---------------------------------------------------------------------------
// What the clients see
// ---------------------------------------------------------------------------

pub open spec fn client_card(c: Card) -> ClientCard {
    (c.suite, c.value)
}

/// The cards on the table, as suit and value.
pub fn cards_on_table(state: &State) -> (cards: Vec<ClientCard>)
    ensures
        cards@ == state.game().table.map_values(|c: Card| client_card(c)),
{
    let table = &state.round.cards_on_table;
    let n = table.len();
    let mut cards: Vec<ClientCard> = Vec::new();
    let mut i: usize = 0;
    while i < n
        invariant
            n == table@.len(),
            i <= n,
            cards@ == table@.take(i as int).map_values(|c: Card| client_card(c)),
        decreases n - i,
    {
        cards.push((table[i].suite, table[i].value));
        i = i + 1;
        assert(cards@ =~= table@.take(i as int).map_values(|c: Card| client_card(c)));
    }
    assert(table@.take(n as int) =~= table@);
    cards
}

/// The player's two cards, as suit and value.
pub fn cards_in_hand(state: &State, player_id: &PlayerId) -> (cards: (ClientCard, ClientCard))
    requires
        seat_of(state.game().seats, player_id@) < state.game().seats.len(),
    ensures
        ({
            let p = state.game().seats[seat_of(state.game().seats, player_id@)].1;
            cards == (client_card(p.cards.0), client_card(p.cards.1))
        }),
{
    match state.players.get(player_id) {
        Some(player) => {
            let c = player.cards;
            ((c.0.suite, c.0.value), (c.1.suite, c.1.value))
        },
        None => {
            assert(false);
            ((CardSuite::Hearts, CardValue::Two), (CardSuite::Hearts, CardValue::Two))
        },
    }
}

pub open spec fn phase_of(status: GameStatus) -> GamePhase {
    match status {
        GameStatus::Joining => GamePhase::Waiting,
        GameStatus::Playing => GamePhase::Playing,
        GameStatus::Complete => GamePhase::Complete,
        GameStatus::Idle => GamePhase::Idle,
    }
}

/// Where the room stands, as shown to its clients.
pub fn game_phase(state: &State) -> (phase: GamePhase)
    ensures
        phase == phase_of(state.status),
{
    match state.status {
        GameStatus::Joining => GamePhase::Waiting,
        GameStatus::Playing => GamePhase::Playing,
        GameStatus::Complete => GamePhase::Complete,
        GameStatus::Idle => GamePhase::Idle,
    }
}

/// The last of the first `n` seats whose hand no other of them beats.
pub open spec fn last_best_seat(g: GameView, n: int) -> int
    decreases n,
{
    if n <= 1 {
        0
    } else {
        let b = last_best_seat(g, n - 1);
        if hand_order(score(g, n - 1), score(g, b)) >= 0 {
            n - 1
        } else {
            b
        }
    }
}

/// Every seat's hand can be evaluated with the cards on the table.
pub open spec fn hands_evaluable(g: GameView) -> bool {
    forall|j: int| 0 <= j < g.seats.len() ==> evaluable(hand_cards((#[trigger] g.seats[j]).1.cards, g.table))
}

/// How a finished game ended: the last seated player with the best hand, that
/// hand's name, and everybody's cards.
pub fn completed_game(state: &State) -> (completed: Option<CompletedGame>)
    requires
        state.status == GameStatus::Complete ==> hands_evaluable(state.game()),
    ensures
        match completed {
            None => state.status != GameStatus::Complete || state.game().seats.len() == 0,
            Some(c) => {
                let g = state.game();
                let w = last_best_seat(g, g.seats.len() as int);
                &&& state.status == GameStatus::Complete
                &&& g.seats.len() > 0
                &&& c.winner_name@ == g.seats[w].1.name
                &&& c.winning_hand@ == strength_name(score(g, w).0)
                &&& c.player_cards@ == g.seats.map_values(
                    |e: (Seq<char>, PlayerView)| (client_card(e.1.cards.0), client_card(e.1.cards.1)),
                )
            },
        },
{
    let ghost g = state.game();
    if state.status != GameStatus::Complete {
        return None;
    }
    let n = state.players.len();
    if n == 0 {
        return None;
    }
    let table = state.round.cards_on_table.as_slice();
    let mut best_seat: usize = 0;
    let mut best = Card::evaluate_hand(&state.players.at(0).1.cards, table);
    let mut player_cards: Vec<(ClientCard, ClientCard)> = Vec::new();
    let mut i: usize = 0;
    while i < n
        invariant
            n == g.seats.len(),
            n > 0,
            g == state.game(),
            table@ == g.table,
            hands_evaluable(g),
            i <= n,
            best_seat < n,
            i > 0 ==> best_seat == last_best_seat(g, i as int),
            i == 0 ==> best_seat == 0,
            best@ == score(g, best_seat as int),
            player_cards@ == g.seats.take(i as int).map_values(
                |e: (Seq<char>, PlayerView)| (client_card(e.1.cards.0), client_card(e.1.cards.1)),
            ),
        decreases n - i,
    {
        let c = state.players.at(i).1.cards;
        if i > 0 {
            let hand = Card::evaluate_hand(&c, table);
            if hand.compare(&best) >= 0 {
                best = hand;
                best_seat = i;
            }
        }
        player_cards.push(((c.0.suite, c.0.value), (c.1.suite, c.1.value)));
        i = i + 1;
        assert(player_cards@ =~= g.seats.take(i as int).map_values(
            |e: (Seq<char>, PlayerView)| (client_card(e.1.cards.0), client_card(e.1.cards.1)),
        ));
    }
    assert(g.seats.take(n as int) =~= g.seats);
    let winner_name = state.players.at(best_seat).1.name.clone();
    Some(CompletedGame { winner_name, winning_hand: best.strength().to_string(), player_cards })
}

/// Where a player's photo is served, when they have one.
pub open spec fn photo_url(p: PlayerView) -> Option<Seq<char>> {
    match p.photo {
        Some((_, token)) => Some("player/"@ + p.id + "/photo?hash="@ + token),
        None => None,
    }
}

fn player_photo_url(p: &crate::state::Player) -> (url: Option<String>)
    ensures
        match url {
            Some(u) => photo_url(p@) == Some(u@),
            None => photo_url(p@) is None,
        },
{
    match &p.photo {
        Some(photo) => {
            let url = "player/".to_string();
            let url = url.concat(p.id.as_str());
            let url = url.concat("/photo?hash=");
            let url = url.concat(photo.1.as_str());
            Some(url)
        },
        None => None,
    }
}

pub open spec fn text_of(o: Option<String>) -> Option<Seq<char>> {
    match o {
        Some(s) => Some(s@),
        None => None,
    }
}

/// The seated players as the room's screen shows them.
pub fn room_players(state: &State) -> (players: Vec<GameClientPlayer>)
    ensures
        players@.len() == state.game().seats.len(),
        forall|i: int|
            0 <= i < players@.len() ==> {
                let p = state.game().seats[i].1;
                &&& (#[trigger] players@[i]).name@ == p.name
                &&& players@[i].balance == p.balance
                &&& players@[i].folded == p.folded
                &&& text_of(players@[i].photo) == photo_url(p)
                &&& players@[i].turn_expires_dt == p.ttl
            },
{
    let ghost g = state.game();
    let n = state.players.len();
    let mut players: Vec<GameClientPlayer> = Vec::new();
    let mut i: usize = 0;
    while i < n
        invariant
            n == g.seats.len(),
            g == state.game(),
            i <= n,
            players@.len() == i,
            forall|j: int|
                0 <= j < i ==> {
                    let p = g.seats[j].1;
                    &&& (#[trigger] players@[j]).name@ == p.name
                    &&& players@[j].balance == p.balance
                    &&& players@[j].folded == p.folded
                    &&& text_of(players@[j].photo) == photo_url(p)
                    &&& players@[j].turn_expires_dt == p.ttl
                },
        decreases n - i,
    {
        let p = &state.players.at(i).1;
        let turn_expires_dt = match p.ttl {
            Some(t) => Some(t.as_u64()),
            None => None,
        };
        let photo = player_photo_url(p);
        players.push(GameClientPlayer { name: p.name.clone(), balance: p.balance, folded: p.folded, photo, turn_expires_dt });
        i = i + 1;
    }
    players
}

// ---------------------------------------------------------------------------
// Housekeeping: idle rooms and turns that ran out
// ---------------------------------------------------------------------------

/// How long a room may stand without an update: five minutes while players
/// join, twenty once a game is over; no limit while a game is under way or
/// the room is idle.
pub open spec fn idle_limit_ms(status: GameStatus) -> Option<int> {
    match status {
        GameStatus::Joining => Some(GAME_IDLE_TIMEOUT_SECONDS * 1000),
        GameStatus::Complete => Some(GAME_IDLE_TIMEOUT_SECONDS * 1000 * 4),
        _ => None,
    }
}

/// Whether a room last updated at `last_update` has stood too long at `now`.
pub fn idle_timeout_reached(status: GameStatus, last_update: u64, now: u64) -> (reached: bool)
    requires
        idle_limit_ms(status) is Some ==> last_update <= now,
    ensures
        reached == match idle_limit_ms(status) {
            Some(limit) => now - last_update > limit,
            None => false,
        },
{
    let idle_ms: Option<u64> = match status {
        GameStatus::Joining => Some(GAME_IDLE_TIMEOUT_SECONDS * 1000),
        GameStatus::Complete => Some(GAME_IDLE_TIMEOUT_SECONDS * 1000 * 4),
        _ => None,
    };
    match idle_ms {
        Some(limit) => now - last_update > limit,
        None => false,
    }
}

/// Whether an idle room is to be started afresh at `now`: it has stood too
/// long, and a game was dealt or finished in it.
pub fn idle_reset_due(state: &State, now: u64) -> (due: bool)
    requires
        idle_limit_ms(state.status) is Some ==> state.last_update@ <= now,
    ensures
        due == ((match idle_limit_ms(state.status) {
            Some(limit) => now - state.last_update@ > limit,
            None => false,
        }) && (state.game().deck.len() != 52 || state.status == GameStatus::Complete)),
{
    idle_timeout_reached(state.status, state.last_update.as_u64(), now) && (!state.round.deck.is_fresh()
        || state.status == GameStatus::Complete)
}

/// Whether a room last updated at `last_update` has gone unused for longer
/// than the idle timeout at `now`, so that it can be disposed of.
pub fn room_expired(last_update: u64, now: u64) -> (expired: bool)
    requires
        last_update + GAME_IDLE_TIMEOUT_SECONDS * 1000 <= u64::MAX,
    ensures
        expired == (last_update + GAME_IDLE_TIMEOUT_SECONDS * 1000 < now),
{
    let room_expires_at = last_update + GAME_IDLE_TIMEOUT_SECONDS * 1000;
    room_expires_at < now
}

/// The player whose turn it is has let their deadline pass.
pub open spec fn turn_expired(g: GameView, now: u64) -> bool {
    match g.turn {
        Some(id) => {
            let i = seat_of(g.seats, id);
            i < g.seats.len() && match g.seats[i].1.ttl {
                Some(t) => t < now,
                None => false,
            }
        },
        None => false,
    }
}

pub open spec fn without_deadline(e: (Seq<char>, PlayerView)) -> (Seq<char>, PlayerView) {
    (e.0, PlayerView { ttl: None, ..e.1 })
}

/// The player whose turn ran out is seated under their own identifier, and
/// their fold runs without failing.
pub open spec fn expiry_runs(g: GameView, now: u64) -> bool {
    let id = g.seats[seat_of(g.seats, g.turn->0)].1.id;
    id == g.turn->0 && fold_runs(g, id, now)
}

/// What a turn that ran out does: the player folds and leaves their seat; with
/// fewer than two left the room goes back to waiting for players, with a new
/// round dealt from `deck` and nobody's deadline running.
pub open spec fn expiry_outcome(g: GameView, now: u64, deck: Seq<Card>) -> GameView {
    let id = g.seats[seat_of(g.seats, g.turn->0)].1.id;
    let g1 = fold_outcome(g, id, now).0;
    let k = seat_of(g1.seats, id);
    let g2 = if k < g1.seats.len() {
        GameView { seats: g1.seats.remove(k), dormant: g1.dormant.push(g1.seats[k].1), ..g1 }
    } else {
        g1
    };
    if g2.seats.len() < 2 {
        GameView {
            seats: g2.seats.map_values(|e: (Seq<char>, PlayerView)| without_deadline(e)),
            pot: 0,
            deck,
            table: Seq::empty(),
            turn: None,
            raises: Seq::empty(),
            calls: Seq::empty(),
            status: GameStatus::Joining,
            ..g2
        }
    } else {
        g2
    }
}

fn clear_deadlines(players: &mut Players)
    ensures
        final(players).seats() == old(players).seats().map_values(|e: (Seq<char>, PlayerView)| without_deadline(e)),
        final(players).dormant() == old(players).dormant(),
{
    let n = players.len();
    let mut i: usize = 0;
    while i < n
        invariant
            n == old(players).seats().len(),
            i <= n,
            players.seats().len() == n,
            players.dormant() == old(players).dormant(),
            forall|j: int| 0 <= j < i ==> #[trigger] players.seats()[j] == without_deadline(old(players).seats()[j]),
            forall|j: int| i <= j < n ==> #[trigger] players.seats()[j] == old(players).seats()[j],
        decreases n - i,
    {
        players.at_mut(i).ttl = None;
        i = i + 1;
    }
    assert(players.seats() =~= old(players).seats().map_values(|e: (Seq<char>, PlayerView)| without_deadline(e)));
}

/// When the deadline of the player whose turn it is has passed at `now`, they
/// fold and leave; with fewer than two players left the room goes back to
/// waiting for players. Says whether that happened.
pub fn expire_player_turn_at(state: &mut State, now: u64) -> (expired: bool)
    requires
        turn_expired(old(state).game(), now) ==> expiry_runs(old(state).game(), now),
    ensures
        expired == turn_expired(old(state).game(), now),
        !expired ==> final(state).game() == old(state).game() && final(state).same_surroundings(old(state)),
        expired ==> {
            &&& exists|deck: Seq<Card>|
                deck.len() == 52 && deck.to_multiset() == crate::cards::ordered_deck().to_multiset() && final(state).game()
                    == #[trigger] expiry_outcome(old(state).game(), now, deck)
            &&& final(state).last_update@ == now
            &&& final(state).ticker == old(state).ticker
            &&& final(state).config == old(state).config
            &&& final(state).disposed == old(state).disposed
            &&& final(state).round.completed == (if final(state).game().seats.len() < 2 {
                None
            } else {
                old(state).round.completed
            })
        },
{
    let ghost g = state.game();
    let current = match &state.round.players_turn {
        Some(id) => id.clone(),
        None => {
            return false;
        },
    };
    proof {
        lemma_seat_of_bounds(g.seats, current@);
    }
    let player_id = match state.players.get(&current) {
        Some(p) => {
            let expired = match p.ttl {
                Some(t) => t.as_u64() < now,
                None => false,
            };
            if !expired {
                return false;
            }
            p.id.clone()
        },
        None => {
            return false;
        },
    };
    let _ = fold_player_at(state, &player_id, now);
    let ghost g1 = state.game();
    let _ = state.players.remove(&player_id);
    let ghost g2 = state.game();
    assert(g2 =~= (if seat_of(g1.seats, player_id@) < g1.seats.len() {
        GameView { seats: g1.seats.remove(seat_of(g1.seats, player_id@)), dormant: g1.dormant.push(g1.seats[seat_of(g1.seats, player_id@)].1), ..g1 }
    } else {
        g1
    }));
    let ghost mut deck_used: Seq<Card> = crate::cards::ordered_deck();
    if state.players.len() < 2 {
        state.status = GameStatus::Joining;
        state.round = Round::new();
        proof {
            deck_used = state.round.deck@;
        }
        clear_deadlines(&mut state.players);
        assert(state.game() =~= expiry_outcome(g, now, deck_used));
    } else {
        assert(state.game() =~= expiry_outcome(g, now, deck_used));
    }
    state.last_update = Instant::from_ms(now);
    true
}

} // verus!
