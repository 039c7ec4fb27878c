use flop_server::cards::HandStrength;
use flop_server::game::add_new_player;
use flop_server::state::config::RoomConfig;
use flop_server::state::dt::Instant;
use flop_server::state::ticker::{Ticker, TickerEmoji, TickerEvent};
use flop_server::state::{BetAction, PlayerId, State};

#[test]
fn ticker_emits_events() {
    let mut ticker = Ticker::default();
    ticker.emit(TickerEvent::GameStarted);
    ticker.emit(TickerEvent::PlayerJoined(PlayerId::default()));

    assert_eq!(ticker.len(), 2);
}

#[test]
fn ticker_clears_expired_items() {
    let mut ticker = Ticker::default();
    ticker.emit(TickerEvent::GameStarted);
    ticker.emit_with_delay(TickerEvent::PlayerJoined(PlayerId::default()), 240_000);

    assert_eq!(ticker.len(), 2);

    let soon = Instant::default().as_u64() + 120_000;
    ticker.clear_expired_items(Instant::from(soon));

    assert_eq!(ticker.len(), 1);
}

#[test]
fn ticker_checks_for_expired_items() {
    let mut ticker = Ticker::default();
    ticker.emit(TickerEvent::GameStarted);
    ticker.emit_with_delay(TickerEvent::PlayerJoined(PlayerId::default()), 1000);

    let soon = Instant::default().as_u64() + 120_000;
    assert!(ticker.has_expired_items(Instant::from(soon)));
}

#[test]
fn ticker_emit_delayed_events() {
    let mut ticker = Ticker::default();
    ticker.emit(TickerEvent::GameStarted);
    ticker.emit_with_delay(TickerEvent::PlayerJoined(PlayerId::default()), 1000);
    ticker.emit_with_delay(TickerEvent::PlayerJoined(PlayerId::default()), 3000);

    let now = Instant::default().as_u64();
    let active_items = ticker.active_items(Instant::from(now)).len();
    assert_eq!(active_items, 1);

    let soon = now + 2000;
    let active_items = ticker.active_items(Instant::from(soon)).len();
    assert_eq!(active_items, 2);

    let soon = now + 4000;
    let active_items = ticker.active_items(Instant::from(soon)).len();
    assert_eq!(active_items, 3);
}

#[test]
fn ticker_emits_events_with_gap() {
    let mut ticker = Ticker::default();
    ticker.emit(TickerEvent::GameStarted);
    ticker.emit(TickerEvent::PlayerJoined(PlayerId::default()));
    ticker.emit(TickerEvent::PlayerJoined(PlayerId::default()));

    let now = Instant::default().as_u64();
    let active_items = ticker.active_items(Instant::from(now)).len();
    assert_eq!(active_items, 1);

    let soon = now + 2000;
    let active_items = ticker.active_items(Instant::from(soon)).len();
    assert_eq!(active_items, 3);
}

#[test]
fn ticker_items_follow_at_the_gap_and_last_ten_seconds() {
    let mut ticker = Ticker::new();
    ticker.emit_with_delay_at(TickerEvent::GameStarted, 0, 10_000);
    ticker.emit_with_delay_at(TickerEvent::RoundComplete, 0, 10_000);
    ticker.emit_with_delay_at(TickerEvent::RoundComplete, 5_000, 10_000);
    let items = ticker.iter();
    assert_eq!(items.len(), 3);
    assert_eq!(items[0].start.as_u64(), 10_000);
    assert_eq!(items[0].end.as_u64(), 20_000);
    assert_eq!(items[1].start.as_u64(), 10_500);
    assert_eq!(items[2].start.as_u64(), 15_000);
    assert_eq!(items[2].seq_index, 2);
    assert_eq!(ticker.timeout_ms(), 10_000);
    assert_eq!(ticker.active_items(Instant::from(10_600)), vec![0, 1]);
    assert!(!ticker.has_expired_items(Instant::from(19_999)));
    assert!(ticker.has_expired_items(Instant::from(20_000)));
    ticker.clear_expired_items(Instant::from(20_600));
    assert_eq!(ticker.len(), 1);
    assert_eq!(ticker.iter()[0].seq_index, 2);
}

fn room() -> State {
    State::new(RoomConfig::with_defaults(true))
}

#[test]
fn ticker_text_names_players() {
    let mut state = room();
    let id = add_new_player(&mut state, "ann").unwrap();
    assert_eq!(TickerEvent::GameStarted.format(&state), "Game started");
    assert_eq!(TickerEvent::PlayerJoined(id.clone()).format(&state), "Player ann joined the game");
    assert_eq!(TickerEvent::PlayerBet(id.clone(), BetAction::Check).format(&state), "Player ann checked");
    assert_eq!(
        TickerEvent::PlayerBet(id.clone(), BetAction::RaiseTo(250)).format(&state),
        "Player ann raised to \u{a3}250"
    );
    assert_eq!(
        TickerEvent::Winner(id.clone(), HandStrength::TwoPair).format(&state),
        "Player ann won with Two Pair"
    );
    assert_eq!(TickerEvent::PaidPot(id.clone(), 40).format(&state), "Player ann won \u{a3}40 from pot");
    assert_eq!(
        TickerEvent::PlayerSentEmoji(id.clone(), TickerEmoji::thumbs_up()).format(&state),
        "Player ann: \u{1F44D}"
    );
    let stranger = PlayerId::new_unchecked("someone");
    assert_eq!(TickerEvent::PlayerFolded(stranger.clone()).format(&state), "Previous player someone");
    assert_eq!(TickerEvent::PaidPot(stranger, 5).format(&state), "Player  won \u{a3}5 from pot");
}

#[test]
fn ticker_text_of_cards_and_splits() {
    let mut state = room();
    let ann = add_new_player(&mut state, "ann").unwrap();
    let bob = add_new_player(&mut state, "bob").unwrap();
    assert_eq!(TickerEvent::CardsDealtToTable(1).format(&state), "Dealt another card");
    assert_eq!(TickerEvent::CardsDealtToTable(3).format(&state), "Dealt 3 cards to table");
    assert_eq!(
        TickerEvent::SplitPotWinners(vec![ann.clone(), bob.clone()], HandStrength::FullHouse).format(&state),
        "Players ann, bob split pot with FullHouse"
    );
    assert_eq!(
        TickerEvent::PlayerTransferredBalance(ann, bob, 70).format(&state),
        "Player ann transferred \u{a3}70 to bob"
    );
    assert_eq!(TickerEvent::PlayerLeft("cy".to_string()).format(&state), "Player cy left the game");
    assert_eq!(TickerEvent::PlayerTurnTimeout("cy".to_string()).format(&state), "Player cy timed out");
}

#[test]
fn ticker_text_names_players_who_left() {
    let mut state = room();
    let ann = add_new_player(&mut state, "ann").unwrap();
    state.players.remove(&ann).unwrap();
    assert_eq!(TickerEvent::PlayerResumed(ann.clone()).format(&state), "Player ann rejoined the game");
    assert_eq!(TickerEvent::PaidPot(ann, 5).format(&state), "Player  won \u{a3}5 from pot");
}

#[test]
fn ticker_items_stay_in_order_through_clearing() {
    let mut ticker = Ticker::new();
    for k in 0..5u64 {
        ticker.emit_with_delay_at(TickerEvent::RoundComplete, k * 100, 1_000);
    }
    ticker.clear_expired_items(Instant::from(11_600));
    let items = ticker.iter();
    assert_eq!(items.len(), 3);
    for w in items.windows(2) {
        assert!(w[0].seq_index < w[1].seq_index);
        assert!(w[1].start.as_u64() >= w[0].start.as_u64() + 500);
    }
    for item in items {
        assert_eq!(item.end.as_u64() - item.start.as_u64(), ticker.timeout_ms());
    }
    ticker.emit_with_delay_at(TickerEvent::GameStarted, 0, 1_000);
    assert_eq!(ticker.len(), 4);
    assert_eq!(ticker.iter()[3].seq_index, 5);
    assert_eq!(ticker.iter()[3].start.as_u64(), ticker.iter()[2].start.as_u64() + 500);
}
