use std::str::FromStr;

use flop_server::app_metrics::metrics_labels::{http_requests, room_requests, room_requests_or_noop};
use flop_server::game::{add_new_player, add_new_player_with_id, room_expired, valid_player_name};
use flop_server::state::config::RoomConfig;
use flop_server::state::dt::Instant;
use flop_server::state::room::{RoomCode, RoomRegistry};
use flop_server::state::ticker::TickerEmoji;
use flop_server::state::token::Token;
use flop_server::state::{PlayerId, State, MAX_PLAYERS, SMALL_BLIND, STARTING_BALANCE};

#[test]
fn room_codes_parse_four_letters_in_upper_case() {
    let code = RoomCode::from_str("abCd").unwrap();
    assert_eq!(code.to_string(), "ABCD");
    assert_eq!(RoomCode::parse(code.as_str()).unwrap(), code);
    assert!(RoomCode::parse("abc").is_err());
    assert!(RoomCode::parse("abcde").is_err());
    assert!(RoomCode::parse("ab1d").is_err());
    let random = RoomCode::default();
    assert_eq!(random.as_str().len(), 4);
    assert!(random.as_str().chars().all(|c| c.is_ascii_uppercase()));
    assert_eq!(RoomCode::parse(random.as_str()).unwrap(), random);
}

#[test]
fn registry_keeps_players_in_existing_rooms() {
    let mut registry = RoomRegistry::default();
    let ann = PlayerId::new_unchecked("ann");
    let bob = PlayerId::new_unchecked("bob");
    let code = registry.create_room(&ann);
    assert_eq!(registry.get_room(&ann), Some(&code));
    assert!(registry.room_exists(&code));
    assert_eq!(registry.insert_player(&bob, &code), Ok(()));
    assert_eq!(registry.get_room(&bob), Some(&code));
    // the room stays while somebody is in it
    assert_eq!(registry.remove_room(&ann), None);
    assert!(registry.room_exists(&code));
    assert_eq!(registry.remove_room(&bob), Some(code.clone()));
    assert!(!registry.room_exists(&code));
    assert_eq!(registry.insert_player(&bob, &code), Err(()));
    assert_eq!(registry.get_room(&bob), None);
}

#[test]
fn registry_default_room_is_shared() {
    let mut registry = RoomRegistry::new();
    assert!(registry.get_default_room().is_none());
    let ann = PlayerId::new_unchecked("ann");
    let bob = PlayerId::new_unchecked("bob");
    let first = registry.get_or_create_default_room(&ann);
    let second = registry.get_or_create_default_room(&bob);
    assert_eq!(first, second);
    assert_eq!(registry.get_default_room(), Some(&first));
    registry.remove_room(&ann);
    registry.remove_room(&bob);
    assert!(registry.get_default_room().is_none());
}

#[test]
fn player_ids_are_canonical_uuids() {
    let id = PlayerId::default();
    assert_eq!(id.as_str().len(), 36);
    assert_eq!(PlayerId::parse(id.as_str()), Ok(id.clone()));
    let upper = id.as_str().to_uppercase();
    assert_eq!(PlayerId::parse(&upper), Ok(id.clone()));
    assert!(PlayerId::parse("not a uuid").is_err());
    assert!(PlayerId::from_str("").is_err());
    assert_eq!(PlayerId::new_unchecked("x").to_string(), "x");
}

#[test]
fn tokens_are_the_first_group_of_a_uuid() {
    let token = Token::from_uuid_text("0a1b2c3d-aaaa-bbbb");
    assert_eq!(token.as_str(), "0a1b2c3d");
    assert_eq!(Token::from_uuid_text("plain").to_string(), "plain");
    let random = Token::default();
    assert_eq!(random.as_str().len(), 8);
}

#[test]
fn instants_count_milliseconds() {
    let mut at = Instant::from(1_000);
    at.add_seconds(2);
    assert_eq!(at.as_u64(), 3_000);
    let ms: u64 = at.into();
    assert_eq!(ms, 3_000);
    let before = Instant::now_ms();
    at.set_now();
    assert!(at.as_u64() >= before);
}

#[test]
fn room_settings() {
    let config = RoomConfig::with_defaults(false);
    assert_eq!(config.small_blind(), SMALL_BLIND);
    assert_eq!(config.big_blind(), SMALL_BLIND * 2);
    assert_eq!(config.max_players(), MAX_PLAYERS);
    assert_eq!(config.starting_balance(), STARTING_BALANCE);
    assert!(!config.ticker_disabled());
    let config = config.with_small_blind(25).with_max_players(20).with_starting_balance(500).with_ticker_disabled();
    assert_eq!(config.small_blind(), 25);
    assert_eq!(config.big_blind(), 50);
    assert_eq!(config.max_players(), MAX_PLAYERS);
    assert_eq!(config.starting_balance(), 500);
    assert!(config.ticker_disabled());
    assert!(!config.with_ticker_enabled().ticker_disabled());
}

#[test]
fn emoji_messages() {
    assert_eq!(TickerEmoji::from_message(":+1:"), Some(TickerEmoji::thumbs_up()));
    assert_eq!(TickerEmoji::from_message("\u{1F44E}"), Some(TickerEmoji::thumbs_down()));
    assert_eq!(TickerEmoji::from_message(":money:"), Some(TickerEmoji::money()));
    assert_eq!(TickerEmoji::from_message("\u{1F602}").map(|e| e.as_char()), Some('\u{1F4B0}'));
    assert_eq!(TickerEmoji::from_message(":wave:"), None);
    assert_eq!(TickerEmoji::angry().as_char(), '\u{1F621}');
}

#[test]
fn metric_labels() {
    let labels = http_requests("GET", "/api/v1/room", 200);
    assert_eq!(labels.method, "GET");
    assert_eq!(labels.path, "/api/v1/room");
    assert_eq!(labels.status, "200");
    assert_eq!(room_requests("ABCD").room_code.as_deref(), Some("ABCD"));
    assert_eq!(room_requests_or_noop(Some("WXYZ")).room_code.as_deref(), Some("WXYZ"));
    assert_eq!(room_requests_or_noop(None).room_code, None);
}

#[test]
fn rooms_expire_after_five_idle_minutes() {
    assert!(!room_expired(1_000, 301_000));
    assert!(room_expired(1_000, 301_001));
}

#[test]
fn players_join_under_a_chosen_identifier() {
    let mut state = State::new(RoomConfig::with_defaults(true));
    let chosen = PlayerId::new_unchecked("chosen");
    assert_eq!(add_new_player_with_id(&mut state, "ann", chosen.clone()), Ok(chosen.clone()));
    assert_eq!(state.players.get(&chosen).unwrap().name, "ann");
    let other = add_new_player(&mut state, "bob").unwrap();
    assert_ne!(other, chosen);
    assert_eq!(state.players.keys(), vec![chosen, other]);
}

#[test]
fn players_who_leave_can_come_back() {
    let mut state = State::new(RoomConfig::with_defaults(true));
    let ann = add_new_player(&mut state, "ann").unwrap();
    state.players.get_mut(&ann).unwrap().apid = "browser".to_string();
    assert_eq!(state.players.get_non_dormant("browser").unwrap().id, ann);
    state.players.remove(&ann).unwrap();
    assert!(state.players.get_non_dormant("browser").is_none());
    assert_eq!(state.players.peek_dormant("browser").unwrap().id, ann);
    let back = state.players.promote_dormant("browser").unwrap();
    assert_eq!(back.id, ann);
    assert_eq!(state.players.len(), 1);
    assert!(state.players.get_dormant(&ann).is_none());
    assert!(state.players.promote_dormant("browser").is_none());
}

#[test]
fn player_names() {
    assert!(valid_player_name("ann"));
    assert!(valid_player_name("exactly twenty-four char"));
    assert!(!valid_player_name("twenty-five characters!!!"));
    assert!(!valid_player_name(""));
    assert!(!valid_player_name("tab\there"));
    assert!(!valid_player_name("bell\u{7}"));
    assert!(!valid_player_name("c1\u{85}"));
    // 24 bytes, 12 characters
    assert!(valid_player_name("\u{e9}\u{e9}\u{e9}\u{e9}\u{e9}\u{e9}\u{e9}\u{e9}\u{e9}\u{e9}\u{e9}\u{e9}"));
    assert!(!valid_player_name("\u{e9}\u{e9}\u{e9}\u{e9}\u{e9}\u{e9}\u{e9}\u{e9}\u{e9}\u{e9}\u{e9}\u{e9}a"));
}

#[test]
fn apid_cookies_carry_uuids() {
    let id = PlayerId::default();
    assert_eq!(flop_server::layer::apid_of_cookie(id.as_str()), Some(id.as_str().to_string()));
    let upper = id.as_str().to_uppercase();
    assert_eq!(flop_server::layer::apid_of_cookie(&upper), Some(upper.clone()));
    assert_eq!(flop_server::layer::apid_of_cookie("not-a-uuid"), None);
    assert_eq!(flop_server::layer::apid_of_cookie(""), None);
    let fresh = flop_server::layer::new_apid();
    assert_eq!(fresh.len(), 36);
    assert!(flop_server::layer::apid_of_cookie(&fresh).is_some());
}

#[test]
fn created_rooms_have_upper_case_codes() {
    let mut registry = RoomRegistry::new();
    for i in 0..20 {
        let code = registry.create_room(&PlayerId::new_unchecked(&format!("p{}", i)));
        assert_eq!(code.as_str().len(), 4);
        assert!(code.as_str().chars().all(|c| c.is_ascii_uppercase()));
    }
}
