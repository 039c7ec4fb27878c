use flop_server::cards::{Card, CardSuite, CardValue, Deck, HandStrength};
use flop_server::game::checks::{hands_evaluable_now, is_playable, within_limits, within_round_limits};
use flop_server::game::{
    accept_player_bet, accept_player_bet_at, add_new_player, call_amount, cards_in_hand, completed_game,
    expire_player_turn_at, fold_player, fold_player_at, game_phase, idle_reset_due, idle_timeout_reached,
    min_raise_to, reset_ttl_at, room_players, start_game, start_game_at, turn_expires_dt, validate_bet_action,
};
use flop_server::models::GamePhase;
use flop_server::state::config::RoomConfig;
use flop_server::state::token::Token;
use flop_server::state::BetAction as P;
use flop_server::state::{GameStatus, PlayerId, PlayerPhoto, State, BIG_BLIND, MAX_PLAYERS, STARTING_BALANCE};

fn new_state() -> State {
    State::new(RoomConfig::with_defaults(true))
}

fn chips(state: &State) -> u64 {
    state.players.iter().iter().map(|(_, p)| p.balance).sum::<u64>() + state.round.pot
}

fn two_players_started() -> (State, PlayerId, PlayerId) {
    let mut state = new_state();
    state.round.deck = Deck::ordered();
    let a = add_new_player(&mut state, "a").unwrap();
    let b = add_new_player(&mut state, "b").unwrap();
    start_game_at(&mut state, 1_000, Deck::ordered()).unwrap();
    (state, a, b)
}

#[test]
fn joining_deals_two_cards_from_the_deck_end() {
    let mut state = new_state();
    state.round.deck = Deck::ordered();
    let a = add_new_player(&mut state, "a").unwrap();
    assert_eq!(state.round.deck.len(), 50);
    let (c1, c2) = cards_in_hand(&state, &a);
    assert_eq!(c1, (CardSuite::Spades, CardValue::Ace));
    assert_eq!(c2, (CardSuite::Spades, CardValue::King));
    let p = state.players.get(&a).unwrap();
    assert_eq!(p.balance, STARTING_BALANCE);
    assert_eq!(p.name, "a");
    assert_eq!(p.stake, 0);
    assert!(!p.folded);
    assert_eq!(a.as_str().len(), 36);
}

#[test]
fn joining_is_refused_while_playing_or_when_full() {
    let (mut state, _, _) = two_players_started();
    assert_eq!(add_new_player(&mut state, "c"), Err("Game already started".to_string()));

    let mut state = new_state();
    for i in 0..MAX_PLAYERS {
        add_new_player(&mut state, &format!("p{}", i)).unwrap();
    }
    assert_eq!(add_new_player(&mut state, "late"), Err("Room is full".to_string()));
    assert_eq!(state.players.len(), MAX_PLAYERS);
}

#[test]
fn starting_is_refused_twice_or_alone() {
    let mut state = new_state();
    add_new_player(&mut state, "a").unwrap();
    assert_eq!(start_game(&mut state), Err("Not enough players".to_string()));
    let (mut state, _, _) = two_players_started();
    assert_eq!(start_game(&mut state), Err("Game already started".to_string()));
}

#[test]
fn starting_takes_the_blinds_and_gives_the_turn() {
    let (state, a, b) = two_players_started();
    assert_eq!(state.status, GameStatus::Playing);
    assert_eq!(state.round.pot, 30);
    assert_eq!(state.players.get(&a).unwrap().stake, 10);
    assert_eq!(state.players.get(&b).unwrap().stake, 20);
    assert_eq!(state.round.players_turn, Some(a.clone()));
    assert_eq!(turn_expires_dt(&state, &a), Some(61_000));
    assert_eq!(turn_expires_dt(&state, &b), None);
    assert_eq!(call_amount(&state), Some(20));
    assert_eq!(min_raise_to(&state), 40);
    assert_eq!(chips(&state), 2 * STARTING_BALANCE);
}

#[test]
fn bets_are_refused_out_of_turn_or_before_the_game() {
    let mut state = new_state();
    let a = add_new_player(&mut state, "a").unwrap();
    assert_eq!(accept_player_bet(&mut state, &a, P::Check), Err("Game not started".to_string()));
    let (mut state, _, b) = two_players_started();
    assert_eq!(accept_player_bet_at(&mut state, &b, P::Call, 2_000), Err("Not your turn".to_string()));
    assert_eq!(fold_player_at(&mut state, &b, 2_000), Err("Not your turn".to_string()));
}

#[test]
fn bet_validation_messages() {
    let (mut state, a, b) = two_players_started();
    assert_eq!(validate_bet_action(&state, &a, &P::Check), Err("Cannot check after a raise".to_string()));
    assert_eq!(validate_bet_action(&state, &a, &P::RaiseTo(0)), Err("Stake cannot be 0 for raise".to_string()));
    assert_eq!(validate_bet_action(&state, &a, &P::RaiseTo(39)), Err("Raise must be at least 40".to_string()));
    assert_eq!(validate_bet_action(&state, &a, &P::RaiseTo(40)), Ok(P::RaiseTo(40)));
    assert_eq!(validate_bet_action(&state, &b, &P::Call), Err("Cannot call, already called".to_string()));
    assert_eq!(accept_player_bet_at(&mut state, &a, P::RaiseTo(39), 2_000), Err("Raise must be at least 40".to_string()));
    assert_eq!(state.round.pot, 30);

    accept_player_bet_at(&mut state, &a, P::Call, 2_000).unwrap();
    accept_player_bet_at(&mut state, &b, P::Check, 3_000).unwrap();
    assert_eq!(state.round.cards_on_table.len(), 3);
    assert_eq!(call_amount(&state), None);
    assert_eq!(validate_bet_action(&state, &b, &P::Call), Err("No bets to call".to_string()));
    assert_eq!(turn_expires_dt(&state, &a), Some(63_000));
}

#[test]
fn a_raise_beyond_the_balance_is_refused_but_recorded() {
    let (mut state, a, _) = two_players_started();
    let before = state.round.raises.len();
    assert_eq!(accept_player_bet_at(&mut state, &a, P::RaiseTo(5_000), 2_000), Err("Not enough balance".to_string()));
    assert_eq!(state.round.raises.len(), before + 1);
    assert_eq!(state.round.pot, 30);
    assert_eq!(state.players.get(&a).unwrap().balance, STARTING_BALANCE - 10);
}

#[test]
fn bets_keep_the_chips_in_play() {
    let (mut state, a, b) = two_players_started();
    accept_player_bet_at(&mut state, &a, P::RaiseTo(60), 2_000).unwrap();
    assert_eq!(chips(&state), 2 * STARTING_BALANCE);
    accept_player_bet_at(&mut state, &b, P::Call, 2_000).unwrap();
    assert_eq!(chips(&state), 2 * STARTING_BALANCE);
    assert_eq!(state.round.pot, 120);
    assert_eq!(state.round.cards_on_table.len(), 3);
}

#[test]
fn folding_to_the_last_player_hands_over_the_pot() {
    let (mut state, a, b) = two_players_started();
    fold_player_at(&mut state, &a, 2_000).unwrap();
    assert_eq!(state.status, GameStatus::Complete);
    assert_eq!(state.round.pot, 0);
    assert_eq!(state.players.get(&b).unwrap().balance, STARTING_BALANCE + 10);
    assert_eq!(chips(&state), 2 * STARTING_BALANCE);
    // the dealer moves on
    assert_eq!(state.players.iter()[0].0, b);
    assert_eq!(state.round.players_turn, None);
}

#[test]
fn split_pot_between_equal_hands() {
    let (mut state, a, b) = two_players_started();
    // the table holds a straight flush that neither hand improves
    state.players.get_mut(&a).unwrap().cards = (
        Card { suite: CardSuite::Hearts, value: CardValue::Two },
        Card { suite: CardSuite::Diamonds, value: CardValue::Two },
    );
    state.players.get_mut(&b).unwrap().cards = (
        Card { suite: CardSuite::Clubs, value: CardValue::Two },
        Card { suite: CardSuite::Spades, value: CardValue::Two },
    );
    accept_player_bet_at(&mut state, &a, P::Call, 2_000).unwrap();
    accept_player_bet_at(&mut state, &b, P::Check, 2_000).unwrap();
    for _ in 0..3 {
        accept_player_bet_at(&mut state, &a, P::Check, 2_000).unwrap();
        accept_player_bet_at(&mut state, &b, P::Check, 2_000).unwrap();
    }
    assert_eq!(state.status, GameStatus::Complete);
    assert_eq!(state.round.pot, 0);
    assert_eq!(state.players.get(&a).unwrap().balance, STARTING_BALANCE);
    assert_eq!(state.players.get(&b).unwrap().balance, STARTING_BALANCE);
    let done = completed_game(&state).unwrap();
    assert_eq!(done.winning_hand, "Straight Flush");
    assert_eq!(done.player_cards.len(), 2);
}

#[test]
fn side_pot_goes_back_to_the_bigger_stack() {
    let mut state = new_state();
    state.round.deck = Deck::ordered();
    let a = add_new_player(&mut state, "a").unwrap();
    let b = add_new_player(&mut state, "b").unwrap();
    state.players.get_mut(&a).unwrap().balance = 100;
    start_game_at(&mut state, 0, Deck::ordered()).unwrap();
    let card = |suite, value| Card { suite, value };
    state.players.get_mut(&a).unwrap().cards = (card(CardSuite::Hearts, CardValue::Ace), card(CardSuite::Diamonds, CardValue::Ace));
    state.players.get_mut(&b).unwrap().cards = (card(CardSuite::Hearts, CardValue::King), card(CardSuite::Diamonds, CardValue::Queen));
    state.round.deck = Deck::from_cards(vec![
        card(CardSuite::Spades, CardValue::Four),
        card(CardSuite::Clubs, CardValue::Jack),
        card(CardSuite::Hearts, CardValue::Nine),
        card(CardSuite::Diamonds, CardValue::Seven),
        card(CardSuite::Clubs, CardValue::Two),
    ]);
    accept_player_bet_at(&mut state, &a, P::Call, 0).unwrap();
    accept_player_bet_at(&mut state, &b, P::RaiseTo(500), 0).unwrap();
    accept_player_bet_at(&mut state, &a, P::Call, 0).unwrap();
    assert_eq!(state.status, GameStatus::Complete);
    // a went all in with 100 and wins twice that; b takes back the rest
    assert_eq!(state.players.get(&a).unwrap().balance, 200);
    assert_eq!(state.players.get(&b).unwrap().balance, STARTING_BALANCE - 100);
    assert_eq!(chips(&state), STARTING_BALANCE + 100);
}

#[test]
fn turn_deadlines() {
    let (mut state, a, b) = two_players_started();
    assert_eq!(reset_ttl_at(&mut state, &a, 70_000), Err("Player's turn has expired".to_string()));
    assert_eq!(turn_expires_dt(&state, &a), Some(61_000));
    assert_eq!(reset_ttl_at(&mut state, &a, 60_000), Ok(()));
    assert_eq!(turn_expires_dt(&state, &a), None);
    assert_eq!(reset_ttl_at(&mut state, &PlayerId::new_unchecked("nobody"), 0), Err("Player not found".to_string()));
    assert_eq!(reset_ttl_at(&mut state, &b, 0), Ok(()));
}

#[test]
fn an_expired_turn_folds_and_unseats_the_player() {
    let (mut state, a, b) = two_players_started();
    assert!(!expire_player_turn_at(&mut state, 61_000));
    assert_eq!(state.players.len(), 2);
    assert!(expire_player_turn_at(&mut state, 61_001));
    assert_eq!(state.players.len(), 1);
    assert!(state.players.get(&a).is_none());
    assert!(state.players.get_dormant(&a).is_some());
    assert_eq!(state.status, GameStatus::Joining);
    assert_eq!(state.round.pot, 0);
    assert_eq!(state.round.deck.len(), 52);
    assert_eq!(state.players.get(&b).unwrap().balance, STARTING_BALANCE + 10);
    assert_eq!(state.last_update.as_u64(), 61_001);
}

#[test]
fn idle_rooms() {
    assert!(!idle_timeout_reached(GameStatus::Joining, 0, 300_000));
    assert!(idle_timeout_reached(GameStatus::Joining, 0, 300_001));
    assert!(!idle_timeout_reached(GameStatus::Complete, 0, 1_200_000));
    assert!(idle_timeout_reached(GameStatus::Complete, 0, 1_200_001));
    assert!(!idle_timeout_reached(GameStatus::Playing, 0, u64::MAX));
    assert!(!idle_timeout_reached(GameStatus::Idle, 0, u64::MAX));

    let mut state = new_state();
    state.last_update = 0.into();
    assert!(!idle_reset_due(&state, 400_000));
    add_new_player(&mut state, "a").unwrap();
    assert!(idle_reset_due(&state, 400_000));
}

#[test]
fn phases_and_client_views() {
    let (mut state, a, b) = two_players_started();
    assert_eq!(game_phase(&state), GamePhase::Playing);
    state.players.get_mut(&b).unwrap().photo = Some(PlayerPhoto(vec![1, 2, 3], Token::from_uuid_text("abcd1234-0000")));
    let players = room_players(&state);
    assert_eq!(players.len(), 2);
    assert_eq!(players[0].name, "a");
    assert_eq!(players[0].balance, STARTING_BALANCE - 10);
    assert_eq!(players[0].turn_expires_dt, Some(61_000));
    assert_eq!(players[0].photo, None);
    assert_eq!(players[1].photo, Some(format!("player/{}/photo?hash=abcd1234", b.as_str())));
    assert!(completed_game(&state).is_none());
    fold_player(&mut state, &a).unwrap();
    assert_eq!(game_phase(&state), GamePhase::Complete);
    state.status = GameStatus::Joining;
    assert_eq!(game_phase(&state), GamePhase::Waiting);
    state.status = GameStatus::Idle;
    assert_eq!(game_phase(&state), GamePhase::Idle);
}

#[test]
fn completed_game_names_the_last_best_hand() {
    let (mut state, a, b) = two_players_started();
    accept_player_bet_at(&mut state, &a, P::Call, 2_000).unwrap();
    accept_player_bet_at(&mut state, &b, P::Check, 2_000).unwrap();
    for _ in 0..3 {
        accept_player_bet_at(&mut state, &a, P::Check, 2_000).unwrap();
        accept_player_bet_at(&mut state, &b, P::Check, 2_000).unwrap();
    }
    assert_eq!(state.status, GameStatus::Complete);
    assert!(hands_evaluable_now(&state));
    let done = completed_game(&state).unwrap();
    // a holds the ace and king of spades, b the queen and jack: the table
    // brings ten, nine and eight of spades, so b holds the straight flush
    assert_eq!(done.winner_name, "b");
    assert_eq!(done.winning_hand, HandStrength::StraightFlush.to_string());
    assert_eq!(state.players.get(&b).unwrap().balance, STARTING_BALANCE + BIG_BLIND);
}

#[test]
fn limits_and_playability_checks() {
    let (mut state, _, _) = two_players_started();
    assert!(within_limits(&state));
    assert!(within_round_limits(&state));
    assert!(is_playable(&state));
    state.round.deck = Deck::from_cards(Vec::new());
    assert!(!is_playable(&state));
    let mut state = new_state();
    add_new_player(&mut state, "a").unwrap();
    assert!(!is_playable(&state));
    let (mut state, a, _) = two_players_started();
    state.players.get_mut(&a).unwrap().balance = u64::MAX;
    assert!(!within_limits(&state));
    assert!(!within_round_limits(&state));
}

#[test]
fn refused_bets_and_folds_change_nothing() {
    let (mut state, a, b) = two_players_started();
    let raises = state.round.raises.len();
    let balance = state.players.get(&a).unwrap().balance;
    assert!(accept_player_bet_at(&mut state, &a, P::Check, 2_000).is_err());
    assert!(accept_player_bet_at(&mut state, &b, P::Call, 2_000).is_err());
    assert!(fold_player_at(&mut state, &b, 2_000).is_err());
    assert_eq!(state.round.raises.len(), raises);
    assert_eq!(state.round.calls.len(), 0);
    assert_eq!(state.round.pot, 30);
    assert_eq!(state.players.get(&a).unwrap().balance, balance);
    assert_eq!(state.round.players_turn, Some(a));
}

#[test]
fn dealing_moves_cards_from_the_deck_to_the_table() {
    let (mut state, a, b) = two_players_started();
    accept_player_bet_at(&mut state, &a, P::Call, 2_000).unwrap();
    accept_player_bet_at(&mut state, &b, P::Check, 2_000).unwrap();
    assert_eq!(state.round.cards_on_table.len(), 3);
    assert_eq!(state.round.deck.len(), 45);
    let mut seen = std::collections::HashSet::new();
    for card in state.round.cards_on_table.iter() {
        assert!(seen.insert((card.suite as u8, card.value as u8)));
    }
    let mut deck = Deck::from_cards(Vec::new());
    std::mem::swap(&mut deck, &mut state.round.deck);
    for _ in 0..45 {
        let card = deck.pop();
        assert!(seen.insert((card.suite as u8, card.value as u8)));
    }
    assert_eq!(seen.len(), 48);
    // the cards that came off first are the ones on the table
    assert_eq!(state.round.cards_on_table[0].value, CardValue::Ten);
    assert_eq!(state.round.cards_on_table[0].suite, CardSuite::Spades);
}

fn stakes(state: &State) -> u64 {
    state.players.iter().iter().map(|(_, p)| p.stake).sum::<u64>()
}

#[test]
fn the_pot_holds_the_stakes_while_the_game_goes_on() {
    let (mut state, a, b) = two_players_started();
    assert_eq!(state.round.pot, stakes(&state));
    accept_player_bet_at(&mut state, &a, P::RaiseTo(80), 2_000).unwrap();
    assert_eq!(state.round.pot, stakes(&state));
    accept_player_bet_at(&mut state, &b, P::Call, 2_000).unwrap();
    assert_eq!(state.round.pot, stakes(&state));
    assert_eq!(state.round.pot, 160);
    accept_player_bet_at(&mut state, &a, P::RaiseTo(40), 2_000).unwrap();
    accept_player_bet_at(&mut state, &b, P::Call, 2_000).unwrap();
    assert_eq!(state.round.pot, stakes(&state));
    assert_eq!(state.round.pot, 240);
}

#[test]
fn large_stacks_play_to_the_showdown() {
    let (mut state, a, b) = two_players_started();
    let big: u64 = 1 << 50;
    state.players.get_mut(&a).unwrap().balance = big;
    state.players.get_mut(&b).unwrap().balance = big;
    accept_player_bet_at(&mut state, &a, P::RaiseTo(big / 2), 2_000).unwrap();
    accept_player_bet_at(&mut state, &b, P::Call, 2_000).unwrap();
    for _ in 0..3 {
        accept_player_bet_at(&mut state, &a, P::Check, 2_000).unwrap();
        accept_player_bet_at(&mut state, &b, P::Check, 2_000).unwrap();
    }
    assert_eq!(state.status, GameStatus::Complete);
    assert_eq!(state.round.pot, 0);
    // b holds the higher straight flush and takes both stakes
    assert_eq!(state.players.get(&b).unwrap().balance, big - (big / 2 - 20) + big);
    assert_eq!(state.players.get(&a).unwrap().balance, big - (big / 2 - 10));
}

#[test]
fn a_folded_stake_stays_in_the_winnable_pots() {
    let mut state = new_state();
    let a = add_new_player(&mut state, "a").unwrap();
    let b = add_new_player(&mut state, "b").unwrap();
    let c = add_new_player(&mut state, "c").unwrap();
    let card = |suite, value| Card { suite, value };
    let seat = |state: &mut State, id: &PlayerId, cards: (Card, Card), stake: u64, folded: bool| {
        let p = state.players.get_mut(id).unwrap();
        p.cards = cards;
        p.stake = stake;
        p.folded = folded;
        p.balance
    };
    let a0 = seat(&mut state, &a, (card(CardSuite::Hearts, CardValue::Ace), card(CardSuite::Diamonds, CardValue::Ace)), 520, false);
    let b0 = seat(&mut state, &b, (card(CardSuite::Hearts, CardValue::King), card(CardSuite::Diamonds, CardValue::Queen)), 100, false);
    let c0 = seat(&mut state, &c, (card(CardSuite::Hearts, CardValue::Three), card(CardSuite::Diamonds, CardValue::Five)), 500, true);
    state.round.cards_on_table = vec![
        card(CardSuite::Clubs, CardValue::Two),
        card(CardSuite::Diamonds, CardValue::Seven),
        card(CardSuite::Hearts, CardValue::Nine),
        card(CardSuite::Clubs, CardValue::Jack),
        card(CardSuite::Spades, CardValue::Four),
    ];
    state.round.pot = 1120;
    flop_server::game::payout::payout_game_winners(&mut state);
    // main pot 200 + 100 of the folded stake, side pot 420 + the other 400
    assert_eq!(state.players.get(&a).unwrap().balance, a0 + 1120);
    assert_eq!(state.players.get(&b).unwrap().balance, b0);
    assert_eq!(state.players.get(&c).unwrap().balance, c0);
    assert_eq!(state.round.pot, 0);
}

#[test]
fn split_pots_leave_the_odd_chip() {
    let mut state = new_state();
    let a = add_new_player(&mut state, "a").unwrap();
    let b = add_new_player(&mut state, "b").unwrap();
    let c = add_new_player(&mut state, "c").unwrap();
    let card = |suite, value| Card { suite, value };
    for (id, stake, folded) in [(&a, 10u64, false), (&b, 10, false), (&c, 5, true)] {
        let p = state.players.get_mut(id).unwrap();
        p.cards = (card(CardSuite::Hearts, CardValue::Two), card(CardSuite::Diamonds, CardValue::Three));
        p.stake = stake;
        p.folded = folded;
    }
    state.round.cards_on_table = vec![
        card(CardSuite::Spades, CardValue::Ace),
        card(CardSuite::Spades, CardValue::King),
        card(CardSuite::Spades, CardValue::Queen),
        card(CardSuite::Spades, CardValue::Jack),
        card(CardSuite::Spades, CardValue::Ten),
    ];
    state.round.pot = 25;
    flop_server::game::payout::payout_game_winners(&mut state);
    // the board is a royal flush: a and b split 25, one chip is not paid out
    assert_eq!(state.players.get(&a).unwrap().balance, STARTING_BALANCE + 12);
    assert_eq!(state.players.get(&b).unwrap().balance, STARTING_BALANCE + 12);
    assert_eq!(state.round.pot, 0);
}
