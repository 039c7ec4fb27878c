use flop_server::cards::Deck;
use flop_server::game::{
    accept_player_bet, add_new_player, cards_on_table, fold_player, player_stake_in_round, start_game,
};
use flop_server::state::config::RoomConfig;
use flop_server::state::BetAction as P;
use flop_server::state::{GameStatus, PlayerId, State, BIG_BLIND, SMALL_BLIND, STARTING_BALANCE};

#[derive(PartialEq)]
enum GameFixture {
    Round1,
    Round2,
    Round3,
    Round4,
}

fn new_state() -> State {
    State::new(RoomConfig::with_defaults(false))
}

fn start_two_player_game(game_fixture: GameFixture) -> (State, (PlayerId, PlayerId)) {
    let mut state = new_state();

    let player_1 = add_new_player(&mut state, "player_1").unwrap();
    let player_2 = add_new_player(&mut state, "player_2").unwrap();

    assert_eq!(state.players.len(), 2);
    assert_eq!(state.status, GameStatus::Joining);
    let starting_balance = state.players.iter().iter().map(|(_, p)| p.balance).next().unwrap();

    assert_eq!(starting_balance, STARTING_BALANCE);
    start_game(&mut state).unwrap();
    deal_biased_deck(&mut state, &player_1, &player_2, true);

    if game_fixture == GameFixture::Round1 {
        return (state, (player_1, player_2));
    }

    assert_eq!(state.round.pot, 30);
    accept_player_bet(&mut state, &player_1, P::Call).unwrap();
    assert_eq!(state.round.pot, 40);
    accept_player_bet(&mut state, &player_2, P::Check).unwrap();
    assert_eq!(state.round.pot, 40);
    assert_eq!(cards_on_table(&state).len(), 3);
    if game_fixture == GameFixture::Round2 {
        return (state, (player_1, player_2));
    }

    accept_player_bet(&mut state, &player_1, P::Check).unwrap();
    accept_player_bet(&mut state, &player_2, P::Check).unwrap();
    assert_eq!(cards_on_table(&state).len(), 4);
    if game_fixture == GameFixture::Round3 {
        return (state, (player_1, player_2));
    }

    accept_player_bet(&mut state, &player_1, P::Check).unwrap();
    accept_player_bet(&mut state, &player_2, P::Check).unwrap();

    assert_eq!(cards_on_table(&state).len(), 5);
    if game_fixture == GameFixture::Round4 {
        return (state, (player_1, player_2));
    }

    unreachable!();
}

fn start_three_player_game() -> (State, (PlayerId, PlayerId, PlayerId)) {
    let mut state = new_state();
    state.round.deck = Deck::ordered();

    let player_1 = add_new_player(&mut state, "player_1").unwrap();
    let player_2 = add_new_player(&mut state, "player_2").unwrap();
    let player_3 = add_new_player(&mut state, "player_3").unwrap();

    assert_eq!(state.players.len(), 3);
    assert_eq!(state.status, GameStatus::Joining);
    let starting_balance = state.players.iter().iter().map(|(_, p)| p.balance).next().unwrap();
    assert_eq!(starting_balance, STARTING_BALANCE);

    start_game(&mut state).unwrap();

    (state, (player_1, player_2, player_3))
}

fn deal_biased_deck(state: &mut State, player_1: &PlayerId, player_2: &PlayerId, player_1_loses: bool) {
    let mut deck = Deck::ordered();
    let (loser, winner) = if player_1_loses { (player_1, player_2) } else { (player_2, player_1) };

    // higher value cards first
    let winner = state.players.get_mut(winner).unwrap();
    winner.cards = (deck.pop(), deck.pop());
    // then lower value cards
    let loser = state.players.get_mut(loser).unwrap();
    loser.cards = (deck.pop(), deck.pop());

    // set the round deck
    state.round.deck = Deck::ordered();
}

#[test]
fn two_player_game_deals_correct_cards_to_table() {
    let (state, _) = start_two_player_game(GameFixture::Round1);
    assert_eq!(cards_on_table(&state).len(), 0);

    let (state, _) = start_two_player_game(GameFixture::Round2);
    assert_eq!(cards_on_table(&state).len(), 3);

    let (state, _) = start_two_player_game(GameFixture::Round3);
    assert_eq!(cards_on_table(&state).len(), 4);

    let (state, _) = start_two_player_game(GameFixture::Round4);
    assert_eq!(cards_on_table(&state).len(), 5);
}

#[test]
fn game_game_pays_outright_winner_from_pot() {
    let mut state = new_state();
    let state = &mut state;
    state.round.deck = Deck::ordered();

    let player_1 = add_new_player(state, "player_1").unwrap();
    let player_2 = add_new_player(state, "player_2").unwrap();
    let player_3 = add_new_player(state, "player_3").unwrap();
    let player_4 = add_new_player(state, "player_4").unwrap();
    let player_5 = add_new_player(state, "player_5").unwrap();

    assert_eq!(state.players.len(), 5);
    assert_eq!(state.status, GameStatus::Joining);
    let starting_balance = state.players.iter().iter().map(|(_, p)| p.balance).next().unwrap();
    assert_eq!(starting_balance, STARTING_BALANCE);

    start_game(state).unwrap();

    assert_eq!(cards_on_table(state).len(), 0);

    accept_player_bet(state, &player_3, P::Call).expect("R1-P3");
    accept_player_bet(state, &player_4, P::Call).expect("R1-P4");
    accept_player_bet(state, &player_5, P::Call).expect("R1-P5");
    accept_player_bet(state, &player_1, P::Call).expect("R1-P1");
    accept_player_bet(state, &player_2, P::Check).expect("R1-P2");
    assert_eq!(state.round.pot, 100);
    assert_eq!(cards_on_table(state).len(), 3);

    accept_player_bet(state, &player_1, P::RaiseTo(500)).expect("R2-P1");
    assert_eq!(state.round.pot, 600);
    accept_player_bet(state, &player_2, P::Call).expect("R2-P2");
    assert_eq!(state.round.pot, 1100);
    accept_player_bet(state, &player_3, P::Call).expect("R2-P3");
    assert_eq!(state.round.pot, 1600);
    fold_player(state, &player_4).expect("R2-P4");
    fold_player(state, &player_5).expect("R2-P4");

    assert_eq!(cards_on_table(state).len(), 4);

    accept_player_bet(state, &player_1, P::Check).unwrap();
    accept_player_bet(state, &player_2, P::Check).unwrap();
    accept_player_bet(state, &player_3, P::Check).unwrap();

    let pot_before_payout = state.round.pot;
    let winner_balance_before_payout = state.players.get(&player_1).unwrap().balance;

    assert_eq!(pot_before_payout, (BIG_BLIND * 5) + (500 * 3));
    assert_eq!(cards_on_table(state).len(), 5);

    accept_player_bet(state, &player_1, P::Check).unwrap();
    accept_player_bet(state, &player_2, P::Check).unwrap();
    accept_player_bet(state, &player_3, P::Check).unwrap();

    assert_eq!(cards_on_table(state).len(), 5);
    assert_eq!(state.status, GameStatus::Complete);
    assert_eq!(state.round.pot, 0);

    // wins remaining 4 players blinds and remaining 2 players 500 bets
    let winner = state.players.get(&player_1).unwrap();
    let expected_balance = STARTING_BALANCE + BIG_BLIND * 4 + 500 * 2;
    assert_eq!(winner_balance_before_payout + pot_before_payout, expected_balance);
    assert_eq!(winner.balance, expected_balance);
}

#[test]
fn two_player_game_pays_out_to_winner_after_others_fold_in_two_rounds() {
    let (mut state, (player_1, player_2)) = start_two_player_game(GameFixture::Round1);

    assert_eq!(cards_on_table(&state).len(), 0);

    fold_player(&mut state, &player_1).expect("R2-P1");
    assert_eq!(cards_on_table(&state).len(), 0);
    assert_eq!(state.status, GameStatus::Complete);
    assert_eq!(state.round.pot, 0);

    let winner = state.players.get(&player_2).unwrap();
    assert_eq!(winner.balance, STARTING_BALANCE + SMALL_BLIND);

    start_game(&mut state).unwrap();
    assert_eq!(cards_on_table(&state).len(), 0);

    let player_2_data = state.players.get(&player_2).unwrap();
    assert_eq!(player_2_data.stake, SMALL_BLIND);

    fold_player(&mut state, &player_2).expect("R2-P2");

    assert_eq!(cards_on_table(&state).len(), 0);
    assert_eq!(state.status, GameStatus::Complete);

    let winner = state.players.get(&player_1).unwrap();
    assert_eq!(winner.balance, STARTING_BALANCE);
}

#[test]
fn game_two_player_game_fold_on_small_blind() {
    let (mut state, (player_1, player_2)) = start_two_player_game(GameFixture::Round1);
    assert_eq!(cards_on_table(&state).len(), 0);
    assert_eq!(state.round.pot, 30);

    fold_player(&mut state, &player_1).expect("R2-P1");
    assert_eq!(state.status, GameStatus::Complete);
    assert_eq!(state.round.pot, 0);

    let winner = state.players.get(&player_2).unwrap();
    assert_eq!(winner.balance, STARTING_BALANCE + SMALL_BLIND);
}

#[test]
fn game_two_player_game_fold_on_big_blind() {
    let (mut state, (player_1, player_2)) = start_two_player_game(GameFixture::Round1);
    assert_eq!(cards_on_table(&state).len(), 0);
    assert_eq!(state.round.pot, 30);

    accept_player_bet(&mut state, &player_1, P::Call).unwrap();
    fold_player(&mut state, &player_2).expect("R2-P2");
    assert_eq!(state.status, GameStatus::Complete);
    assert_eq!(state.round.pot, 0);

    let winner = state.players.get(&player_1).unwrap();
    assert_eq!(winner.balance, STARTING_BALANCE + BIG_BLIND);
}

#[test]
fn game_two_player_game_fold_on_raise() {
    let (mut state, (player_1, player_2)) = start_two_player_game(GameFixture::Round1);
    assert_eq!(cards_on_table(&state).len(), 0);
    assert_eq!(state.round.pot, 30);

    fold_player(&mut state, &player_1).expect("R2-P1");
    assert_eq!(state.status, GameStatus::Complete);
    assert_eq!(state.round.pot, 0);

    let winner = state.players.get(&player_2).unwrap();
    assert_eq!(winner.balance, STARTING_BALANCE + SMALL_BLIND);
}

#[test]
fn two_player_game_reraising_minimum_works() {
    let (mut state, (player_1, player_2)) = start_two_player_game(GameFixture::Round4);
    assert_eq!(state.round.pot, 40);
    accept_player_bet(&mut state, &player_1, P::RaiseTo(BIG_BLIND)).unwrap();
    assert_eq!(state.status, GameStatus::Playing);
    assert_eq!(state.round.pot, 60);
    assert_eq!(state.players.get(&player_1).unwrap().stake, BIG_BLIND * 2);
    assert_eq!(state.players.get(&player_2).unwrap().stake, BIG_BLIND);

    accept_player_bet(&mut state, &player_2, P::RaiseTo(BIG_BLIND * 2)).unwrap();
    assert_eq!(state.round.pot, 100);
    assert_eq!(state.players.get(&player_1).unwrap().stake, BIG_BLIND * 2);
    assert_eq!(state.players.get(&player_2).unwrap().stake, BIG_BLIND * 3);

    accept_player_bet(&mut state, &player_1, P::RaiseTo(BIG_BLIND * 3)).unwrap();
    assert_eq!(state.players.get(&player_1).unwrap().stake, BIG_BLIND * 4);
    assert_eq!(state.players.get(&player_2).unwrap().stake, BIG_BLIND * 3);

    assert_eq!(state.status, GameStatus::Playing);

    assert_eq!(state.round.pot, 140);

    accept_player_bet(&mut state, &player_2, P::Call).unwrap();
    assert_eq!(state.status, GameStatus::Complete);
}

#[test]
fn three_player_game_fold_on_small_blind() {
    let (mut state, (player_1, player_2, player_3)) = start_three_player_game();
    assert_eq!(cards_on_table(&state).len(), 0);
    assert_eq!(state.round.pot, 30);

    fold_player(&mut state, &player_3).expect("R2-P3");
    fold_player(&mut state, &player_1).expect("R2-P1");
    assert_eq!(state.status, GameStatus::Complete);

    let winner = state.players.get(&player_2).unwrap();
    assert_eq!(winner.balance, STARTING_BALANCE + SMALL_BLIND);
}

#[test]
fn three_player_game_check_until_river_then_raise_on_last_player() {
    let (mut state, (player_1, player_2, player_3)) = start_three_player_game();
    assert_eq!(cards_on_table(&state).len(), 0);
    assert_eq!(state.round.pot, 30);

    accept_player_bet(&mut state, &player_3, P::Call).unwrap();
    accept_player_bet(&mut state, &player_1, P::Call).unwrap();
    accept_player_bet(&mut state, &player_2, P::Check).unwrap();

    assert_eq!(cards_on_table(&state).len(), 3);
    assert_eq!(state.round.pot, 60);

    accept_player_bet(&mut state, &player_1, P::Check).unwrap();
    accept_player_bet(&mut state, &player_2, P::Check).unwrap();
    accept_player_bet(&mut state, &player_3, P::Check).unwrap();

    assert_eq!(cards_on_table(&state).len(), 4);
    assert_eq!(state.round.pot, 60);

    accept_player_bet(&mut state, &player_1, P::Check).unwrap();
    accept_player_bet(&mut state, &player_2, P::Check).unwrap();
    accept_player_bet(&mut state, &player_3, P::Check).unwrap();

    assert_eq!(cards_on_table(&state).len(), 5);
    assert_eq!(state.round.pot, 60);

    accept_player_bet(&mut state, &player_1, P::RaiseTo(100)).unwrap();
    assert_eq!(player_stake_in_round(&state, &player_1), 100);

    accept_player_bet(&mut state, &player_2, P::Call).unwrap();
    assert_eq!(player_stake_in_round(&state, &player_2), 100);

    accept_player_bet(&mut state, &player_3, P::RaiseTo(200)).unwrap();
    assert_eq!(player_stake_in_round(&state, &player_3), 200);
    accept_player_bet(&mut state, &player_1, P::Call).unwrap();
    assert_eq!(player_stake_in_round(&state, &player_1), 200);

    accept_player_bet(&mut state, &player_2, P::Call).unwrap();
    assert_eq!(state.status, GameStatus::Complete);
}

#[test]
fn two_player_game_ends_in_big_win_next_game_accepts_call_to_all_in() {
    let (mut state, (player_1, player_2)) = start_two_player_game(GameFixture::Round4);

    assert_eq!(cards_on_table(&state).len(), 5);

    // game 1, round 4
    accept_player_bet(&mut state, &player_1, P::RaiseTo(500)).unwrap();
    accept_player_bet(&mut state, &player_2, P::Call).unwrap();
    assert_eq!(state.status, GameStatus::Complete);

    let player_1_balance = {
        let loser = state.players.get(&player_1).unwrap();
        let winner = state.players.get(&player_2).unwrap();
        assert!(winner.balance > loser.balance);
        loser.balance
    };

    // game 2, round 1
    start_game(&mut state).unwrap();
    accept_player_bet(&mut state, &player_2, P::RaiseTo(player_1_balance)).unwrap();
    accept_player_bet(&mut state, &player_1, P::Call).unwrap();
}

#[test]
fn two_player_game_ends_in_big_win_next_game_accepts_call_to_above_all_in() {
    let (mut state, (player_1, player_2)) = start_two_player_game(GameFixture::Round4);

    assert_eq!(cards_on_table(&state).len(), 5);

    // game 1, round 4
    accept_player_bet(&mut state, &player_1, P::RaiseTo(500)).unwrap();
    accept_player_bet(&mut state, &player_2, P::Call).unwrap();
    assert_eq!(state.status, GameStatus::Complete);

    let player_1_balance = {
        let loser = state.players.get(&player_1).unwrap();
        let winner = state.players.get(&player_2).unwrap();
        assert!(winner.balance > loser.balance);
        loser.balance
    };

    // game 2, round 1
    start_game(&mut state).unwrap();
    deal_biased_deck(&mut state, &player_1, &player_2, true);
    assert_eq!(state.status, GameStatus::Playing);

    accept_player_bet(&mut state, &player_2, P::RaiseTo(player_1_balance + 100)).unwrap();
    accept_player_bet(&mut state, &player_1, P::Call).unwrap();

    assert_eq!(cards_on_table(&state).len(), 5);
    assert_eq!(state.status, GameStatus::Complete);

    let loser = state.players.get(&player_1).unwrap();
    let winner = state.players.get(&player_2).unwrap();
    assert!(winner.balance > loser.balance);
    assert_eq!(loser.balance, 0);
}

#[test]
fn two_player_game_raising_round_one() {
    let (mut state, (player_1, player_2)) = start_two_player_game(GameFixture::Round1);

    assert_eq!(cards_on_table(&state).len(), 0);

    accept_player_bet(&mut state, &player_1, P::RaiseTo(BIG_BLIND * 2)).unwrap();

    accept_player_bet(&mut state, &player_2, P::RaiseTo(BIG_BLIND * 3)).unwrap();
    accept_player_bet(&mut state, &player_1, P::Call).unwrap();

    assert_eq!(cards_on_table(&state).len(), 3);
}

#[test]
fn two_player_game_raising_with_intermittent_calls_checking_balances() {
    let (mut state, (player_1, player_2)) = start_two_player_game(GameFixture::Round1);

    assert_eq!(cards_on_table(&state).len(), 0);
    assert_eq!(state.players.get(&player_1).unwrap().balance, STARTING_BALANCE - SMALL_BLIND);
    assert_eq!(state.players.get(&player_2).unwrap().balance, STARTING_BALANCE - BIG_BLIND);

    accept_player_bet(&mut state, &player_1, P::Call).unwrap();
    assert_eq!(state.players.get(&player_1).unwrap().balance, STARTING_BALANCE - BIG_BLIND);
    accept_player_bet(&mut state, &player_2, P::RaiseTo(BIG_BLIND * 2)).unwrap();
    assert_eq!(state.players.get(&player_2).unwrap().balance, STARTING_BALANCE - 40);
}

#[test]
fn three_player_game_folded_players_dont_have_turns_in_further_rounds() {
    let (mut state, (player_1, player_2, player_3)) = start_three_player_game();
    assert_eq!(cards_on_table(&state).len(), 0);

    accept_player_bet(&mut state, &player_3, P::Call).unwrap();
    fold_player(&mut state, &player_1).expect("R2-P1");
    accept_player_bet(&mut state, &player_2, P::Check).unwrap();

    assert_eq!(cards_on_table(&state).len(), 3);

    // ensure player 1 does not take a turn given they have folded
    accept_player_bet(&mut state, &player_2, P::Check).unwrap();
}

#[test]
fn three_player_game_raise_someone_over_all_in_completes() {
    let (mut state, (player_1, player_2, player_3)) = start_three_player_game();
    let player_1 = state.players.get_mut(&player_1).unwrap();
    player_1.balance = 100;

    let player_1 = player_1.id.clone();

    assert_eq!(cards_on_table(&state).len(), 0);

    accept_player_bet(&mut state, &player_3, P::Call).unwrap();
    accept_player_bet(&mut state, &player_1, P::Call).unwrap();
    accept_player_bet(&mut state, &player_2, P::Check).unwrap();

    assert_eq!(cards_on_table(&state).len(), 3);

    accept_player_bet(&mut state, &player_1, P::Check).unwrap();
    accept_player_bet(&mut state, &player_2, P::Check).unwrap();
    accept_player_bet(&mut state, &player_3, P::Check).unwrap();

    assert_eq!(cards_on_table(&state).len(), 4);

    accept_player_bet(&mut state, &player_1, P::Check).unwrap();
    accept_player_bet(&mut state, &player_2, P::Check).unwrap();
    accept_player_bet(&mut state, &player_3, P::Check).unwrap();

    assert_eq!(cards_on_table(&state).len(), 5);

    accept_player_bet(&mut state, &player_1, P::Check).unwrap();
    accept_player_bet(&mut state, &player_2, P::Check).unwrap();
    accept_player_bet(&mut state, &player_3, P::RaiseTo(200)).unwrap();
    accept_player_bet(&mut state, &player_1, P::Call).unwrap();
    accept_player_bet(&mut state, &player_2, P::Call).unwrap();

    assert_eq!(state.status, GameStatus::Complete);
}
