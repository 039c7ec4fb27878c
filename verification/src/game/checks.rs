//! Whether a room's state meets what the game rules need, checked at run
//! time.
use vstd::prelude::*;

use crate::cards::eval::evaluable;
use crate::cards::{hand_cards, Card};
use crate::state::{bet_view, GameView, PlayerId, State};

use super::payout::bets_view;
use super::rules::{bounded, dealt, final_table, levels_rise, playable, raise_levels, sane, seats_keyed};
use super::{hands_evaluable, lemma_stakes_fit};

verus! {

/// Every seated player's balance is at most `balance_cap` and stake at most
/// `stake_cap`.
fn seats_within(state: &State, balance_cap: u64, stake_cap: u64) -> (ok: bool)
    ensures
        ok == forall|i: int|
            0 <= i < state.game().seats.len() ==> (#[trigger] state.game().seats[i]).1.balance <= balance_cap
                && state.game().seats[i].1.stake <= stake_cap,
{
    let ghost g = state.game();
    let n = state.players.len();
    let mut i: usize = 0;
    while i < n
        invariant
            n == g.seats.len(),
            g == state.game(),
            i <= n,
            forall|j: int| 0 <= j < i ==> (#[trigger] g.seats[j]).1.balance <= balance_cap && g.seats[j].1.stake <= stake_cap,
        decreases n - i,
    {
        let p = &state.players.at(i).1;
        if p.balance > balance_cap || p.stake > stake_cap {
            return false;
        }
        i = i + 1;
    }
    true
}

/// Every bet is at most `cap`.
fn bets_within(bets: &Vec<(PlayerId, u64)>, cap: u64) -> (ok: bool)
    ensures
        ok == forall|i: int| 0 <= i < bets_view(bets@).len() ==> (#[trigger] bets_view(bets@)[i]).1 <= cap,
{
    let n = bets.len();
    let mut i: usize = 0;
    while i < n
        invariant
            n == bets@.len(),
            i <= n,
            forall|j: int| 0 <= j < i ==> (#[trigger] bets_view(bets@)[j]).1 <= cap,
        decreases n - i,
    {
        if bets[i].1 > cap {
            assert(bets_view(bets@)[i as int].1 == bets@[i as int].1);
            return false;
        }
        i = i + 1;
    }
    true
}

/// Whether amounts and counts stay within the limits that the rules work
/// under.
pub fn within_limits(state: &State) -> (ok: bool)
    ensures
        ok == bounded(state.game()),
{
    let ghost g = state.game();
    assert(g.raises == bets_view(state.round.raises@));
    assert(g.calls == bets_view(state.round.calls@));
    state.players.len() <= 0x100 && state.round.raises.len() <= 0x400 && state.round.calls.len() <= 0x400
        && state.round.pot <= 0x100_0000_0000 * 0x400 && seats_within(state, 0x100_0000_0000, 0x100_0000_0000)
        && bets_within(&state.round.raises, 0x100_0000_0000) && bets_within(&state.round.calls, 0x100_0000_0000)
}

/// Whether amounts and counts leave room for the bets of a round.
pub fn within_round_limits(state: &State) -> (ok: bool)
    ensures
        ok == sane(state.game()),
{
    let ghost g = state.game();
    assert(g.raises == bets_view(state.round.raises@));
    assert(g.calls == bets_view(state.round.calls@));
    state.players.len() <= 0x100 && state.round.raises.len() <= 0x401 && state.round.calls.len() <= 0x401
        && state.round.pot <= 0x10_0000_0000_0000 && seats_within(state, 0x200_0000_0000, 0x200_0000_0000)
        && bets_within(&state.round.raises, 0x10_0000_0000_0000) && bets_within(&state.round.calls, 0x200_0000_0000)
}

/// Whether each seat is under its player's identifier, and no identifier is
/// seated twice.
fn seats_keyed_check(state: &State) -> (ok: bool)
    ensures
        ok == seats_keyed(state.game()),
{
    let ghost g = state.game();
    let n = state.players.len();
    let mut i: usize = 0;
    while i < n
        invariant
            n == g.seats.len(),
            g == state.game(),
            i <= n,
            forall|a: int| 0 <= a < i ==> (#[trigger] g.seats[a]).0 == g.seats[a].1.id,
            forall|a: int, b: int| 0 <= a < b < n && a < i ==> (#[trigger] g.seats[a]).0 != (#[trigger] g.seats[b]).0,
        decreases n - i,
    {
        let entry = state.players.at(i);
        if !(entry.0 == entry.1.id) {
            return false;
        }
        let mut j: usize = i + 1;
        while j < n
            invariant
                n == g.seats.len(),
                g == state.game(),
                i < n,
                i + 1 <= j <= n,
                seat_view_is(g, i as int, entry),
                forall|b: int| i < b < j ==> g.seats[i as int].0 != (#[trigger] g.seats[b]).0,
            decreases n - j,
        {
            if state.players.at(j).0 == entry.0 {
                return false;
            }
            j = j + 1;
        }
        i = i + 1;
    }
    true
}

pub open spec fn seat_view_is(g: GameView, i: int, entry: &(PlayerId, crate::state::Player)) -> bool {
    g.seats[i] == crate::state::players::seat_view(*entry)
}

/// Whether the raises never fall.
pub fn raises_rise(state: &State) -> (ok: bool)
    ensures
        ok == levels_rise(state.game()),
{
    let ghost g = state.game();
    let ghost levels = raise_levels(g);
    let raises = &state.round.raises;
    let n = raises.len();
    let mut prev: u64 = 0;
    let mut i: usize = 0;
    while i < n
        invariant
            n == raises@.len(),
            g == state.game(),
            g.raises == raises@.map_values(|b: (PlayerId, u64)| bet_view(b)),
            levels == seq![0u64] + g.raises.map_values(|b: (Seq<char>, u64)| b.1),
            levels == raise_levels(g),
            levels.len() == n + 1,
            i <= n,
            prev == levels[i as int],
            forall|k: int| 0 <= k < i ==> #[trigger] levels[k] <= levels[k + 1],
        decreases n - i,
    {
        let level = raises[i].1;
        assert(g.raises[i as int].1 == level);
        assert(levels[i + 1] == level);
        if level < prev {
            assert(!(raise_levels(g)[i as int] <= raise_levels(g)[i + 1]));
            return false;
        }
        prev = level;
        i = i + 1;
    }
    assert forall|k: int| 0 <= k < raise_levels(g).len() - 1 implies #[trigger] raise_levels(g)[k] <= raise_levels(g)[k + 1] by {
        assert(levels[k] <= levels[k + 1]);
    }
    true
}

/// The table as it will be once all five cards are out.
fn final_table_cards(state: &State) -> (cards: Vec<Card>)
    requires
        state.game().deck.len() >= 5 - state.game().table.len(),
        state.game().table.len() <= 5,
    ensures
        cards@ == final_table(state.game()),
{
    let ghost g = state.game();
    let table = &state.round.cards_on_table;
    let mut cards: Vec<Card> = Vec::new();
    let mut i: usize = 0;
    while i < table.len()
        invariant
            i <= table@.len(),
            cards@ == table@.take(i as int),
        decreases table@.len() - i,
    {
        cards.push(table[i]);
        i = i + 1;
        assert(cards@ =~= table@.take(i as int));
    }
    assert(table@.take(table@.len() as int) =~= table@);
    let count = 5 - table.len();
    let deck = state.round.deck.as_slice();
    let m = deck.len();
    let mut k: usize = 0;
    while k < count
        invariant
            g == state.game(),
            count == 5 - g.table.len(),
            m == g.deck.len(),
            deck@ == g.deck,
            m >= count,
            k <= count,
            cards@ == g.table + dealt(g.deck, k as int),
        decreases count - k,
    {
        cards.push(deck[m - 1 - k]);
        k = k + 1;
        assert(cards@ =~= g.table + dealt(g.deck, k as int));
    }
    cards
}

/// Whether every seated player's hand can be evaluated with the final table.
fn final_hands_evaluable(state: &State) -> (ok: bool)
    requires
        state.game().deck.len() >= 5 - state.game().table.len(),
        state.game().table.len() <= 5,
    ensures
        ok == forall|i: int|
            0 <= i < state.game().seats.len() ==> evaluable(
                hand_cards((#[trigger] state.game().seats[i]).1.cards, final_table(state.game())),
            ),
{
    let ghost g = state.game();
    let table = final_table_cards(state);
    let n = state.players.len();
    let mut i: usize = 0;
    while i < n
        invariant
            n == g.seats.len(),
            g == state.game(),
            table@ == final_table(g),
            table@.len() == 5,
            i <= n,
            forall|j: int| 0 <= j < i ==> evaluable(hand_cards((#[trigger] g.seats[j]).1.cards, final_table(g))),
        decreases n - i,
    {
        let p = &state.players.at(i).1;
        match Card::try_evaluate_hand(&p.cards, table.as_slice()) {
            Some(_) => {},
            None => {
                return false;
            },
        }
        i = i + 1;
    }
    true
}

/// Whether the game is in a state from which the rules run to the end of
/// the hand: see `playable`.
pub fn is_playable(state: &State) -> (ok: bool)
    ensures
        ok == playable(state.game()),
{
    let ghost g = state.game();
    let t = state.round.cards_on_table.len();
    if !within_limits(state) || !seats_keyed_check(state) || state.players.len() < 2 {
        return false;
    }
    if !(t == 0 || t == 3 || t == 4 || t == 5) || state.round.deck.len() < 5 - t {
        return false;
    }
    if !raises_rise(state) {
        return false;
    }
    if state.round.raises.len() == 0 && state.round.calls.len() != 0 {
        return false;
    }
    final_hands_evaluable(state)
}

/// Whether every seated player's hand can be evaluated with the cards on
/// the table.
pub fn hands_evaluable_now(state: &State) -> (ok: bool)
    ensures
        ok == hands_evaluable(state.game()),
{
    let ghost g = state.game();
    let n = state.players.len();
    let table = state.round.cards_on_table.as_slice();
    let mut i: usize = 0;
    if table.len() > usize::MAX - 2 {
        if n > 0 {
            assert(!evaluable(hand_cards(g.seats[0].1.cards, g.table)));
        }
        return n == 0;
    }
    while i < n
        invariant
            n == g.seats.len(),
            g == state.game(),
            table@ == g.table,
            table@.len() + 2 <= usize::MAX,
            i <= n,
            forall|j: int| 0 <= j < i ==> evaluable(hand_cards((#[trigger] g.seats[j]).1.cards, g.table)),
        decreases n - i,
    {
        let p = &state.players.at(i).1;
        match Card::try_evaluate_hand(&p.cards, table) {
            Some(_) => {},
            None => {
                return false;
            },
        }
        i = i + 1;
    }
    true
}

} // verus!
