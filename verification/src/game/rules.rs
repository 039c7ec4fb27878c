//! The rules of a betting round, as functions on plain values.
use vstd::prelude::*;

use crate::cards::eval::evaluable;
use crate::cards::{hand_cards, Card};
use crate::state::players::seat_of;
use crate::state::{BetAction, GameStatus, GameView, PlayerView, BIG_BLIND, PLAYER_TURN_TIMEOUT_SECONDS, SMALL_BLIND, STARTING_BALANCE};
use crate::text::decimal;

use super::payout::{payout, payout_ready};

verus! {

/// Every chip amount in play stays below this, so that no sum of them
/// overflows.
pub open spec fn chip_cap() -> int {
    0x100_0000_0000
}

/// The number of bets in a round stays below this.
pub open spec fn count_cap() -> int {
    0x400
}

/// The number of seats stays below this.
pub open spec fn seat_cap() -> int {
    0x100
}

/// How long a player has for their turn, in milliseconds.
pub open spec fn turn_timeout_ms() -> int {
    PLAYER_TURN_TIMEOUT_SECONDS * 1000
}

/// When a turn that starts at `now` runs out; the last representable
/// instant when that lies past it.
pub open spec fn deadline(now: u64) -> u64 {
    if now + turn_timeout_ms() <= u64::MAX {
        (now + turn_timeout_ms()) as u64
    } else {
        u64::MAX
    }
}

// ---------------------------------------------------------------------------
// Bets
// ---------------------------------------------------------------------------

/// The amount to call: the last raise, if any.
pub open spec fn call_amount(g: GameView) -> Option<u64> {
    if g.raises.len() > 0 {
        Some(g.raises.last().1)
    } else {
        None
    }
}

pub open spec fn call_or_zero(g: GameView) -> u64 {
    match call_amount(g) {
        Some(c) => c,
        None => 0,
    }
}

/// The highest raise `id` made, or 0.
pub open spec fn max_raise_by(raises: Seq<(Seq<char>, u64)>, id: Seq<char>) -> u64
    decreases raises.len(),
{
    if raises.len() == 0 {
        0
    } else {
        let m = max_raise_by(raises.drop_last(), id);
        if raises.last().0 == id && raises.last().1 > m {
            raises.last().1
        } else {
            m
        }
    }
}

/// The sum of the calls `id` made.
pub open spec fn calls_by(calls: Seq<(Seq<char>, u64)>, id: Seq<char>) -> nat
    decreases calls.len(),
{
    if calls.len() == 0 {
        0
    } else {
        calls_by(calls.drop_last(), id) + (if calls.last().0 == id {
            calls.last().1 as nat
        } else {
            0nat
        })
    }
}

/// What `id` has staked in the current betting round: the last raise when it
/// is theirs, otherwise their highest raise plus their calls.
pub open spec fn stake_in_round(g: GameView, id: Seq<char>) -> int {
    if g.raises.len() > 0 && g.raises.last().0 == id {
        g.raises.last().1 as int
    } else {
        max_raise_by(g.raises, id) + calls_by(g.calls, id)
    }
}

/// Working out a player's stake in the round stays within `u64`.
pub open spec fn stake_fits(g: GameView, id: Seq<char>) -> bool {
    max_raise_by(g.raises, id) + calls_by(g.calls, id) <= u64::MAX
}

/// The raise levels: 0, then each raise in order.
pub open spec fn raise_levels(g: GameView) -> Seq<u64> {
    seq![0u64] + g.raises.map_values(|b: (Seq<char>, u64)| b.1)
}

pub open spec fn max_of(s: Seq<u64>) -> u64
    decreases s.len(),
{
    if s.len() == 0 {
        0
    } else if s.last() > max_of(s.drop_last()) {
        s.last()
    } else {
        max_of(s.drop_last())
    }
}

/// The largest step between consecutive levels, or 0.
pub open spec fn largest_step(s: Seq<u64>) -> int
    decreases s.len(),
{
    if s.len() < 2 {
        0
    } else {
        let d = s.last() - s[s.len() - 2];
        let m = largest_step(s.drop_last());
        if d > m {
            d
        } else {
            m
        }
    }
}

/// Each raise level is at least the one before.
pub open spec fn levels_rise(g: GameView) -> bool {
    forall|i: int| 0 <= i < raise_levels(g).len() - 1 ==> #[trigger] raise_levels(g)[i] <= raise_levels(g)[i + 1]
}

/// The least a raise must reach: the highest level plus the largest step so
/// far, and at least the big blind above it.
pub open spec fn min_raise_to(g: GameView) -> int {
    let step = largest_step(raise_levels(g));
    max_of(raise_levels(g)) + (if step > BIG_BLIND {
        step
    } else {
        BIG_BLIND as int
    })
}

/// Whether a bet is allowed, and what it is when it is.
pub open spec fn validation(g: GameView, id: Seq<char>, action: BetAction) -> Result<BetAction, Seq<char>> {
    let last_raise = if g.raises.len() > 0 {
        g.raises.last().1
    } else {
        0
    };
    let stake = stake_in_round(g, id);
    match action {
        BetAction::Check => if g.raises.len() > 0 && stake != last_raise {
            Err("Cannot check after a raise"@)
        } else {
            Ok(BetAction::Check)
        },
        BetAction::RaiseTo(r) => if r == 0 {
            Err("Stake cannot be 0 for raise"@)
        } else {
            let least = if call_or_zero(g) > min_raise_to(g) {
                call_or_zero(g) as int
            } else {
                min_raise_to(g)
            };
            if r < least {
                Err("Raise must be at least "@ + decimal(least as nat))
            } else {
                Ok(BetAction::RaiseTo(r))
            }
        },
        BetAction::Call => match call_amount(g) {
            None => Err("No bets to call"@),
            Some(c) => if stake >= c {
                Err("Cannot call, already called"@)
            } else {
                Ok(BetAction::Call)
            },
        },
    }
}

// ---------------------------------------------------------------------------
// Seats
// ---------------------------------------------------------------------------

pub open spec fn set_seat(g: GameView, i: int, p: PlayerView) -> GameView {
    GameView { seats: g.seats.update(i, (g.seats[i].0, p)), ..g }
}

/// A player takes part in the betting while they have not folded and have
/// chips left.
pub open spec fn in_play(p: PlayerView) -> bool {
    !p.folded && p.balance > 0
}

/// The first seat from `k` on whose player is in play, or the number of seats.
pub open spec fn first_in_play_from(seats: Seq<(Seq<char>, PlayerView)>, k: int) -> int
    decreases seats.len() - k,
{
    if k >= seats.len() {
        seats.len() as int
    } else if in_play(seats[k].1) {
        k
    } else {
        first_in_play_from(seats, k + 1)
    }
}

pub open spec fn reset_seat(e: (Seq<char>, PlayerView)) -> (Seq<char>, PlayerView) {
    (e.0, PlayerView { stake: 0, folded: false, ..e.1 })
}

/// Every player's stake back to 0 and nobody folded; nobody's turn.
pub open spec fn reset_players(g: GameView) -> GameView {
    GameView { seats: g.seats.map_values(|e: (Seq<char>, PlayerView)| reset_seat(e)), turn: None, ..g }
}

/// The first seat moves to the end.
pub open spec fn rotate_dealer(g: GameView) -> GameView {
    if g.seats.len() > 0 {
        GameView { seats: g.seats.drop_first().push(g.seats[0]), ..g }
    } else {
        g
    }
}

/// The next `count` cards dealt from the end of the deck, in the order dealt.
pub open spec fn dealt(deck: Seq<Card>, count: int) -> Seq<Card> {
    Seq::new(count as nat, |i: int| deck[deck.len() - 1 - i])
}

pub open spec fn place_cards(g: GameView, count: int) -> GameView {
    GameView { table: g.table + dealt(g.deck, count), deck: g.deck.take(g.deck.len() - count), ..g }
}

/// The table as it will be once all five cards are out.
pub open spec fn final_table(g: GameView) -> Seq<Card> {
    g.table + dealt(g.deck, 5 - g.table.len())
}

// ---------------------------------------------------------------------------
// Turns
// ---------------------------------------------------------------------------

/// A blind of at most `cap` from the first player seated under `id`.
pub open spec fn post_blind(g: GameView, id: Seq<char>, cap: u64) -> GameView {
    let i = seat_of(g.seats, id);
    let p = g.seats[i].1;
    let s = if p.balance < cap {
        p.balance
    } else {
        cap
    };
    GameView {
        seats: g.seats.update(i, (g.seats[i].0, PlayerView { balance: (p.balance - s) as u64, stake: (p.stake + s) as u64, ..p })),
        pot: (g.pot + s) as u64,
        raises: g.raises.push((p.id, s)),
        ..g
    }
}

pub open spec fn accept_blinds(g: GameView, small: Seq<char>, big: Seq<char>) -> GameView {
    post_blind(post_blind(g, small, SMALL_BLIND), big, BIG_BLIND)
}

/// The first player in play starts a betting round, unless fewer than two
/// players are in play.
pub open spec fn starting_player(g: GameView) -> Option<Seq<char>> {
    let a = first_in_play_from(g.seats, 0);
    let b = first_in_play_from(g.seats, a + 1);
    if a < g.seats.len() && b < g.seats.len() {
        Some(g.seats[a].0)
    } else {
        None
    }
}

/// Every player in play has staked exactly `call` this round.
pub open spec fn all_called(g: GameView, call: int) -> bool {
    forall|i: int| 0 <= i < g.seats.len() && in_play(#[trigger] g.seats[i].1) ==> stake_in_round(g, g.seats[i].1.id) == call
}

/// Whose turn follows `cur`'s, or none when the betting round is over.
pub open spec fn next_players_turn(g: GameView, cur: Seq<char>) -> Option<Seq<char>> {
    let call = call_or_zero(g);
    let first_round = g.table.len() < 3;
    if call > 0 && (!first_round || g.raises.len() > 2) && all_called(g, call as int) {
        None
    } else if first_round && cur == g.seats[1].0 && stake_in_round(g, cur) == BIG_BLIND {
        None
    } else {
        let pos = seat_of(g.seats, cur);
        let after = if pos < g.seats.len() {
            first_in_play_from(g.seats, pos + 1)
        } else {
            g.seats.len() as int
        };
        if after < g.seats.len() {
            Some(g.seats[after].0)
        } else {
            let f = first_in_play_from(g.seats, 0);
            if f < g.seats.len() && stake_in_round(g, g.seats[f].1.id) != call {
                Some(g.seats[f].0)
            } else {
                None
            }
        }
    }
}

/// The state once blinds are taken (when a hand starts) and the next player
/// chosen.
pub open spec fn turn_choice(g: GameView, cur: Option<Seq<char>>) -> (GameView, Option<Seq<char>>) {
    match cur {
        Some(id) => (g, next_players_turn(g, id)),
        None => if g.seats.len() < 2 {
            (g, None)
        } else if g.table.len() == 0 {
            let n = g.seats.len();
            (accept_blinds(g, g.seats[0].0, g.seats[1].0), Some(g.seats[2int % (n as int)].0))
        } else {
            (g, starting_player(g))
        },
    }
}

/// Passes the turn on from `cur` (or starts a betting round when `cur` is
/// none); the player whose turn it becomes has until `now` plus the turn
/// timeout.
pub open spec fn next_turn(g: GameView, cur: Option<Seq<char>>, now: u64) -> GameView {
    let (g1, next) = turn_choice(g, cur);
    let g2 = match next {
        Some(id) => {
            let i = seat_of(g1.seats, id);
            if i < g1.seats.len() {
                set_seat(g1, i, PlayerView { ttl: Some(deadline(now)), ..g1.seats[i].1 })
            } else {
                g1
            }
        },
        None => g1,
    };
    GameView { turn: next, ..g2 }
}

// ---------------------------------------------------------------------------
// Rounds
// ---------------------------------------------------------------------------

pub open spec fn clear_bets(g: GameView) -> GameView {
    GameView { raises: Seq::empty(), calls: Seq::empty(), ..g }
}

/// Ends the game: pays out, resets the players, moves the dealer on.
pub open spec fn finish_game(g: GameView) -> GameView {
    clear_bets(GameView { status: GameStatus::Complete, ..rotate_dealer(reset_players(payout(g))) })
}

/// Ends a betting round: deals the flop, turn or river and starts the next
/// betting round, or after the river settles the game. A betting round in
/// which nobody can bet ends at once.
pub open spec fn complete_round(g: GameView, now: u64) -> GameView
    decreases 5 - g.table.len(),
{
    if g.table.len() == 0 || g.table.len() == 3 || g.table.len() == 4 {
        let count = if g.table.len() == 0 {
            3int
        } else {
            1int
        };
        let g1 = clear_bets(next_turn(place_cards(g, count), None, now));
        if g1.turn is None {
            complete_round(g1, now)
        } else {
            g1
        }
    } else if g.table.len() == 5 {
        finish_game(g)
    } else {
        g
    }
}

/// After a bet or a fold: the turn passes on, and the betting round ends when
/// nobody is left to act.
#[verifier::opaque]
pub open spec fn after_action(g: GameView, id: Seq<char>, now: u64) -> GameView {
    let g1 = next_turn(g, Some(id), now);
    if g1.turn is None {
        complete_round(g1, now)
    } else {
        g1
    }
}

/// The player in seat `i` is left with `balance`, and `amount` goes from them
/// into the pot.
pub open spec fn staked(g: GameView, i: int, balance: u64, amount: u64) -> GameView {
    let p = g.seats[i].1;
    GameView { pot: (g.pot + amount) as u64, ..set_seat(g, i, PlayerView { balance, stake: (p.stake + amount) as u64, ..p }) }
}

/// A bet settles, and the turn passes on.
pub open spec fn settle(g: GameView, i: int, balance: u64, amount: u64, id: Seq<char>, now: u64) -> GameView {
    after_action(staked(g, i, balance, amount), id, now)
}

/// What a bet does: the state after it and whether it was accepted. A raise
/// is recorded before the balance is checked, so it stays recorded when the
/// player cannot afford it.
pub open spec fn bet_outcome(g: GameView, id: Seq<char>, action: BetAction, now: u64) -> (GameView, Result<(), Seq<char>>) {
    if g.status != GameStatus::Playing {
        (g, Err("Game not started"@))
    } else if g.turn != Some(id) {
        (g, Err("Not your turn"@))
    } else {
        match validation(g, id, action) {
            Err(e) => (g, Err(e)),
            Ok(act) => {
                let stake = stake_in_round(g, id);
                let least = min_raise_to(g);
                let call = call_or_zero(g);
                let i = seat_of(g.seats, id);
                if i >= g.seats.len() {
                    (g, Err("Player not found"@))
                } else {
                    let p = g.seats[i].1;
                    match act {
                        BetAction::Check => if call - stake > 0 {
                            (g, Err("Cannot check, must call"@))
                        } else {
                            (settle(g, i, p.balance, 0, id, now), Ok(()))
                        },
                        BetAction::Call => {
                            let owed = (call - stake) as u64;
                            let c = if owed < p.balance {
                                owed
                            } else {
                                p.balance
                            };
                            let g1 = GameView { calls: g.calls.push((id, c)), ..g };
                            (settle(g1, i, (p.balance - c) as u64, c, id, now), Ok(()))
                        },
                        BetAction::RaiseTo(r) => if r < least {
                            (g, Err("Raise must be at least "@ + decimal(least as nat)))
                        } else {
                            let g1 = GameView { raises: g.raises.push((id, r)), ..g };
                            let add = r - stake;
                            if add > p.balance {
                                (g1, Err("Not enough balance"@))
                            } else {
                                (settle(g1, i, (p.balance - add) as u64, add as u64, id, now), Ok(()))
                            }
                        },
                    }
                }
            },
        }
    }
}

/// The players who have not folded.
pub open spec fn not_folded(seats: Seq<(Seq<char>, PlayerView)>) -> Seq<(Seq<char>, PlayerView)> {
    seats.filter(|e: (Seq<char>, PlayerView)| !e.1.folded)
}

/// What a fold does: the state after it and whether it was accepted. When only
/// one player is left, they take the pot and the game ends.
pub open spec fn fold_outcome(g: GameView, id: Seq<char>, now: u64) -> (GameView, Result<(), Seq<char>>) {
    if g.turn != Some(id) {
        (g, Err("Not your turn"@))
    } else {
        let i = seat_of(g.seats, id);
        if i >= g.seats.len() {
            (g, Err("Player not found"@))
        } else {
            let g1 = set_seat(g, i, PlayerView { folded: true, ..g.seats[i].1 });
            let left = not_folded(g1.seats);
            if left.len() == 1 {
                let w = first_not_folded(g1.seats);
                let g2 = GameView {
                    pot: 0,
                    ..set_seat(g1, w, PlayerView { balance: (g1.seats[w].1.balance + g1.pot) as u64, ..g1.seats[w].1 })
                };
                (clear_bets(GameView { status: GameStatus::Complete, ..rotate_dealer(reset_players(g2)) }), Ok(()))
            } else {
                (after_action(g1, id, now), Ok(()))
            }
        }
    }
}

pub proof fn lemma_not_folded_step(seats: Seq<(Seq<char>, PlayerView)>, i: int)
    requires
        0 <= i < seats.len(),
    ensures
        not_folded(seats.take(i + 1)) == (if !seats[i].1.folded {
            not_folded(seats.take(i)).push(seats[i])
        } else {
            not_folded(seats.take(i))
        }),
{
    reveal_with_fuel(Seq::<_>::filter, 1);
    assert(seats.take(i + 1).drop_last() =~= seats.take(i));
    assert(seats.take(i + 1).last() == seats[i]);
}

pub proof fn lemma_first_not_folded(seats: Seq<(Seq<char>, PlayerView)>, i: int)
    requires
        0 <= i <= seats.len(),
        forall|j: int| 0 <= j < i ==> (#[trigger] seats[j]).1.folded,
        i == seats.len() || !seats[i].1.folded,
    ensures
        first_not_folded(seats) == i,
    decreases seats.len(),
{
    if seats.len() > 0 && seats[0].1.folded {
        assert forall|j: int| 0 <= j < i - 1 implies (#[trigger] seats.drop_first()[j]).1.folded by {
            assert(seats.drop_first()[j] == seats[j + 1]);
        }
        lemma_first_not_folded(seats.drop_first(), i - 1);
    }
}

/// The first seat whose player has not folded, or the number of seats.
pub open spec fn first_not_folded(seats: Seq<(Seq<char>, PlayerView)>) -> int
    decreases seats.len(),
{
    if seats.len() == 0 {
        0
    } else if !seats[0].1.folded {
        0
    } else {
        1 + first_not_folded(seats.drop_first())
    }
}

/// What starting a game does, given the deck that a finished game is replaced
/// with.
pub open spec fn start_outcome(g: GameView, now: u64, fresh_deck: Seq<Card>) -> (GameView, Result<(), Seq<char>>) {
    if g.status == GameStatus::Playing {
        (g, Err("Game already started"@))
    } else if g.seats.len() < 2 {
        (g, Err("Not enough players"@))
    } else {
        let g1 = next_turn(reset_players(GameView { table: Seq::empty(), pot: 0, ..g }), None, now);
        let g2 = if g.status == GameStatus::Complete {
            GameView { deck: fresh_deck, ..g1 }
        } else {
            g1
        };
        (GameView { status: GameStatus::Playing, ..g2 }, Ok(()))
    }
}

// ---------------------------------------------------------------------------
// What the rules need of a state
// ---------------------------------------------------------------------------

/// Amounts and counts stay far enough from the limits of `u64` that no sum the
/// rules form overflows.
pub open spec fn bounded(g: GameView) -> bool {
    &&& g.seats.len() <= seat_cap()
    &&& g.raises.len() <= count_cap()
    &&& g.calls.len() <= count_cap()
    &&& g.pot <= chip_cap() * count_cap()
    &&& forall|i: int| 0 <= i < g.seats.len() ==> (#[trigger] g.seats[i]).1.balance <= chip_cap() && g.seats[i].1.stake <= chip_cap()
    &&& forall|i: int| 0 <= i < g.raises.len() ==> (#[trigger] g.raises[i]).1 <= chip_cap()
    &&& forall|i: int| 0 <= i < g.calls.len() ==> (#[trigger] g.calls[i]).1 <= chip_cap()
}

/// The looser bounds that hold while a bet is worked through: one more bet
/// recorded, one more bet's worth in a stake and in the pot, and a raise that
/// may reach past a player's stake and balance.
pub open spec fn sane(g: GameView) -> bool {
    &&& g.seats.len() <= seat_cap()
    &&& g.raises.len() <= count_cap() + 1
    &&& g.calls.len() <= count_cap() + 1
    &&& g.pot <= 0x10_0000_0000_0000
    &&& forall|i: int| 0 <= i < g.seats.len() ==> (#[trigger] g.seats[i]).1.balance <= 2 * chip_cap() && g.seats[i].1.stake <= 2 * chip_cap()
    &&& forall|i: int| 0 <= i < g.raises.len() ==> (#[trigger] g.raises[i]).1 <= 0x10_0000_0000_0000
    &&& forall|i: int| 0 <= i < g.calls.len() ==> (#[trigger] g.calls[i]).1 <= 2 * chip_cap()
}

/// Each seat is under its player's own identifier, and no identifier is
/// seated twice.
pub open spec fn seats_keyed(g: GameView) -> bool {
    &&& forall|i: int| 0 <= i < g.seats.len() ==> (#[trigger] g.seats[i]).0 == g.seats[i].1.id
    &&& forall|i: int, j: int| 0 <= i < j < g.seats.len() ==> (#[trigger] g.seats[i]).0 != (#[trigger] g.seats[j]).0
}

/// What a betting game in progress needs for the rules to run to the end of
/// the hand without failing: two seated players, a table of 0, 3, 4 or 5
/// cards, enough cards in the deck to finish it, raises that never fall, no
/// calls before a raise, and hands that can be evaluated at the showdown.
pub open spec fn playable(g: GameView) -> bool {
    &&& bounded(g)
    &&& seats_keyed(g)
    &&& g.seats.len() >= 2
    &&& (g.table.len() == 0 || g.table.len() == 3 || g.table.len() == 4 || g.table.len() == 5)
    &&& g.deck.len() >= 5 - g.table.len()
    &&& levels_rise(g)
    &&& (g.raises.len() == 0 ==> g.calls.len() == 0)
    &&& forall|i: int| 0 <= i < g.seats.len() ==> evaluable(hand_cards((#[trigger] g.seats[i]).1.cards, final_table(g)))
}

/// What a betting round needs to run to the end of the hand without failing:
/// the working bounds, seats under their players' identifiers, a table of 0,
/// 3, 4 or 5 cards, enough cards in the deck to finish it, and hands that can
/// be evaluated at the showdown.
pub open spec fn finishable(g: GameView) -> bool {
    &&& sane(g)
    &&& seats_keyed(g)
    &&& (g.table.len() == 0 || g.table.len() == 3 || g.table.len() == 4 || g.table.len() == 5)
    &&& g.deck.len() >= 5 - g.table.len()
    &&& forall|i: int| 0 <= i < g.seats.len() ==> evaluable(hand_cards((#[trigger] g.seats[i]).1.cards, final_table(g)))
}

/// What a bet needs, beyond a playable game, for its arithmetic not to
/// underflow: a raise that is allowed reaches at least the player's stake.
pub open spec fn raise_reaches_stake(g: GameView, id: Seq<char>, action: BetAction) -> bool {
    match action {
        BetAction::RaiseTo(r) => validation(g, id, action) is Ok ==> r >= stake_in_round(g, id),
        _ => true,
    }
}

/// Dealing `a` cards and then `b` more deals the same cards as dealing
/// `a + b` at once.
pub proof fn lemma_dealt_split(deck: Seq<Card>, a: int, b: int)
    requires
        0 <= a,
        0 <= b,
        a + b <= deck.len(),
    ensures
        dealt(deck, a) + dealt(deck.take(deck.len() - a), b) == dealt(deck, a + b),
{
    assert(dealt(deck, a) + dealt(deck.take(deck.len() - a), b) =~= dealt(deck, a + b));
}

/// Dealing onto the table leaves the final table as it was.
pub proof fn lemma_place_cards_final(g: GameView, count: int)
    requires
        0 <= count,
        g.table.len() + count <= 5,
        g.deck.len() >= 5 - g.table.len(),
    ensures
        final_table(place_cards(g, count)) == final_table(g),
{
    lemma_dealt_split(g.deck, count, 5 - g.table.len() - count);
    assert(final_table(place_cards(g, count)) =~= final_table(g));
}

/// A player who just joined.
pub open spec fn new_player(name: Seq<char>, id: Seq<char>, token: Seq<char>, cards: (Card, Card)) -> PlayerView {
    PlayerView {
        name,
        id,
        emoji: None,
        funds_token: token,
        balance: STARTING_BALANCE,
        stake: 0,
        folded: false,
        photo: None,
        ttl: None,
        apid: Seq::empty(),
        cards,
    }
}

/// A player joins under `id`, dealt the next two cards of the deck.
pub open spec fn joined(g: GameView, id: Seq<char>, name: Seq<char>, token: Seq<char>) -> GameView {
    let cards = (g.deck[g.deck.len() - 1], g.deck[g.deck.len() - 2]);
    GameView { seats: g.seats.push((id, new_player(name, id, token, cards))), deck: g.deck.take(g.deck.len() - 2), ..g }
}

/// Amounts within the limits leave room for a round's bets.
pub proof fn lemma_bounded_sane(g: GameView)
    requires
        bounded(g),
    ensures
        sane(g),
{
}

// ---------------------------------------------------------------------------
// When a move runs without failing
// ---------------------------------------------------------------------------

/// Room in every stake and in the pot for the blinds.
pub open spec fn blinds_fit(g: GameView) -> bool {
    &&& g.pot + SMALL_BLIND + BIG_BLIND <= u64::MAX
    &&& forall|i: int| 0 <= i < g.seats.len() ==> (#[trigger] g.seats[i]).1.stake + SMALL_BLIND + BIG_BLIND <= u64::MAX
}

/// Choosing whose turn follows `cur` works out the stakes of the players in
/// play and, before the flop, of `cur`, and looks at the second seat.
pub open spec fn turn_runs(g: GameView, cur: Seq<char>) -> bool {
    &&& forall|i: int| 0 <= i < g.seats.len() && in_play(#[trigger] g.seats[i].1) ==> stake_fits(g, g.seats[i].1.id)
    &&& g.table.len() < 3 ==> g.seats.len() >= 2 && stake_fits(g, cur)
}

/// Passing the turn on runs without failing.
pub open spec fn next_turn_runs(g: GameView, cur: Option<Seq<char>>) -> bool {
    match cur {
        Some(id) => turn_runs(g, id),
        None => g.seats.len() >= 2 && g.table.len() == 0 ==> blinds_fit(g),
    }
}

/// Ending the betting round runs without failing: the deck holds the cards to
/// deal, the table has a size the rules know, and the showdown runs.
pub open spec fn complete_runs(g: GameView, now: u64) -> bool
    decreases 5 - g.table.len(),
{
    if g.table.len() == 0 || g.table.len() == 3 || g.table.len() == 4 {
        let count = if g.table.len() == 0 {
            3int
        } else {
            1int
        };
        let g1 = clear_bets(next_turn(place_cards(g, count), None, now));
        g.deck.len() >= count && (g1.turn is None ==> complete_runs(g1, now))
    } else if g.table.len() == 5 {
        payout_ready(g)
    } else {
        false
    }
}

/// What follows a bet or a fold runs without failing.
pub open spec fn after_runs(g: GameView, id: Seq<char>, now: u64) -> bool {
    let g1 = next_turn(g, Some(id), now);
    turn_runs(g, id) && (g1.turn is None ==> complete_runs(g1, now))
}

/// Settling a bet runs without failing.
pub open spec fn settle_runs(g: GameView, i: int, balance: u64, amount: u64, id: Seq<char>, now: u64) -> bool {
    &&& g.pot + amount <= u64::MAX
    &&& g.seats[i].1.stake + amount <= u64::MAX
    &&& after_runs(staked(g, i, balance, amount), id, now)
}

/// A bet runs without failing: the stake and the least raise can be worked
/// out, no subtraction falls below zero, and what follows runs.
pub open spec fn bet_runs(g: GameView, id: Seq<char>, action: BetAction, now: u64) -> bool {
    g.status == GameStatus::Playing && g.turn == Some(id) ==> {
        &&& stake_fits(g, id)
        &&& (action matches BetAction::RaiseTo(r) && r != 0 ==> levels_rise(g) && min_raise_to(g) <= u64::MAX)
        &&& match validation(g, id, action) {
            Err(_) => true,
            Ok(act) => {
                let stake = stake_in_round(g, id);
                let least = min_raise_to(g);
                let call = call_or_zero(g);
                let i = seat_of(g.seats, id);
                let p = g.seats[i].1;
                &&& levels_rise(g)
                &&& least <= u64::MAX
                &&& i < g.seats.len() ==> match act {
                    BetAction::Check => stake <= call && (call - stake <= 0 ==> settle_runs(g, i, p.balance, 0, id, now)),
                    BetAction::Call => {
                        let owed = (call - stake) as u64;
                        let c = if owed < p.balance {
                            owed
                        } else {
                            p.balance
                        };
                        settle_runs(GameView { calls: g.calls.push((id, c)), ..g }, i, (p.balance - c) as u64, c, id, now)
                    },
                    BetAction::RaiseTo(r) => r >= least ==> r >= stake && (r - stake <= p.balance ==> settle_runs(
                        GameView { raises: g.raises.push((id, r)), ..g },
                        i,
                        (p.balance - (r - stake)) as u64,
                        (r - stake) as u64,
                        id,
                        now,
                    )),
                }
            },
        }
    }
}

/// A fold runs without failing: the last player left can take the pot, or
/// what follows runs.
pub open spec fn fold_runs(g: GameView, id: Seq<char>, now: u64) -> bool {
    let i = seat_of(g.seats, id);
    g.turn == Some(id) && i < g.seats.len() ==> {
        let g1 = set_seat(g, i, PlayerView { folded: true, ..g.seats[i].1 });
        if not_folded(g1.seats).len() == 1 {
            let w = first_not_folded(g1.seats);
            g1.seats[w].1.balance + g1.pot <= u64::MAX
        } else {
            after_runs(g1, id, now)
        }
    }
}

} // verus!
