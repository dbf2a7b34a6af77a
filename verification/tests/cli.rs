use ptcg_dragapult_bots::cli::{
    check_config, fmt_utc, game_end_summary, game_seed, intent_label, match_dir_name, opp_label,
    parse_args, parse_uint, parse_ws_server, sanitize, subscribe_msg, Config, NumErr,
    DEFAULT_CARDS_DIR, DEFAULT_LOG_DIR,
};
use ptcg_dragapult_bots::deck::{DeckEntry, DeckList};
use ptcg_dragapult_bots::rng::seed_bytes;
use ptcg_dragapult_bots::wire::protocol::ClientMessage;
use ptcg_dragapult_bots::wire::event::WirePlayerId;

fn base_cfg() -> Config {
    Config {
        server: "wss://h".to_string(),
        bot: "dragapult-takeuchi".to_string(),
        seed: 42,
        games: 1,
        deck_path: None,
        cards_dir: String::new(),
        log_dir: String::new(),
        participant_id: String::new(),
        auth_token: String::new(),
        bucket: String::new(),
        room: String::new(),
        vs: String::new(),
    }
}

fn args(v: &[&str]) -> Vec<String> {
    v.iter().map(|s| s.to_string()).collect()
}

#[test]
fn game_end_summary_renders_draw_for_none() {
    assert_eq!(
        game_end_summary(Some(WirePlayerId::P1), "PrizeTaken"),
        "winner=P1 reason=PrizeTaken"
    );
    assert_eq!(
        game_end_summary(Some(WirePlayerId::P2), "DeckOut"),
        "winner=P2 reason=DeckOut"
    );
    assert_eq!(
        game_end_summary(None, "PrizeTaken"),
        "winner=Draw reason=PrizeTaken"
    );
}

#[test]
fn fmt_utc_known_timestamps() {
    assert_eq!(fmt_utc(0), "1970-01-01T000000");
    assert_eq!(fmt_utc(1_700_000_000), "2023-11-14T221320");
    assert_eq!(fmt_utc(1_709_164_800), "2024-02-29T000000");
}

#[test]
fn sanitize_keeps_safe_chars_replaces_rest() {
    assert_eq!(sanitize("dragapult-takeuchi"), "dragapult-takeuchi");
    assert_eq!(sanitize("room_1"), "room_1");
    assert_eq!(sanitize("a/b c:d"), "a_b_c_d");
}

#[test]
fn intent_and_opp_labels_follow_priority() {
    let mut c = base_cfg();
    c.vs = "yopifutto".to_string();
    c.room = "r1".to_string();
    assert_eq!(intent_label(&c), "vs-bot:yopifutto");
    assert_eq!(opp_label(&c), "yopifutto");

    let mut c = base_cfg();
    c.room = "my room".to_string();
    assert_eq!(intent_label(&c), "room:my room");
    assert_eq!(opp_label(&c), "room-my_room");

    let c = base_cfg();
    assert_eq!(intent_label(&c), "none");
    assert_eq!(opp_label(&c), "none");

    let mut c = base_cfg();
    c.participant_id = "p1".to_string();
    assert_eq!(intent_label(&c), "ladder");
    assert_eq!(opp_label(&c), "ladder");
}

#[test]
fn parses_ws_url() {
    assert_eq!(
        parse_ws_server("ws://127.0.0.1:8765/x").unwrap(),
        ("127.0.0.1".to_string(), 8765, false)
    );
    assert_eq!(
        parse_ws_server("example.com:80").unwrap(),
        ("example.com".to_string(), 80, false)
    );
}

#[test]
fn parses_wss_default_port() {
    assert_eq!(
        parse_ws_server("wss://arena.ptcgtools.com").unwrap(),
        ("arena.ptcgtools.com".to_string(), 443, true)
    );
    assert_eq!(
        parse_ws_server("wss://arena.ptcgtools.com:8443/x").unwrap(),
        ("arena.ptcgtools.com".to_string(), 8443, true)
    );
}

#[test]
fn ws_without_port_defaults_80() {
    assert_eq!(
        parse_ws_server("ws://host").unwrap(),
        ("host".to_string(), 80, false)
    );
}

#[test]
fn ws_server_errors_name_the_input() {
    assert_eq!(
        parse_ws_server("ws://host:99999").unwrap_err(),
        "bad port in --server \"ws://host:99999\": number too large to fit in target type"
    );
    assert_eq!(
        parse_ws_server("ws://host:8x").unwrap_err(),
        "bad port in --server \"ws://host:8x\": invalid digit found in string"
    );
    assert_eq!(
        parse_ws_server("ws://host:").unwrap_err(),
        "bad port in --server \"ws://host:\": cannot parse integer from empty string"
    );
    assert_eq!(
        parse_ws_server("wss://:443").unwrap_err(),
        "--server has empty host (got \"wss://:443\")"
    );
    assert_eq!(
        parse_ws_server("ws:///path").unwrap_err(),
        "--server has empty host (got \"ws:///path\")"
    );
}

#[test]
fn ws_server_splits_at_last_colon() {
    assert_eq!(
        parse_ws_server("ws://a:b:81").unwrap(),
        ("a:b".to_string(), 81, false)
    );
}

#[test]
fn numbers_parse_like_std() {
    assert_eq!(parse_uint("42", 65535), Ok(42));
    assert_eq!(parse_uint("+7", 65535), Ok(7));
    assert_eq!(parse_uint("65535", 65535), Ok(65535));
    assert_eq!(parse_uint("65536", 65535), Err(NumErr::Overflow));
    assert_eq!(parse_uint("", 65535), Err(NumErr::Empty));
    assert_eq!(parse_uint("+", 65535), Err(NumErr::InvalidDigit));
    assert_eq!(parse_uint("-1", 65535), Err(NumErr::InvalidDigit));
    assert_eq!(parse_uint("99999x", 65535), Err(NumErr::Overflow));
    assert_eq!(parse_uint("12x45", 65535), Err(NumErr::InvalidDigit));
    assert_eq!(parse_uint("18446744073709551615", u64::MAX), Ok(u64::MAX));
    assert_eq!(parse_uint("18446744073709551616", u64::MAX), Err(NumErr::Overflow));
    for s in ["0", "1", "300", "+65535", "65536", "", "+", "-", "a", "1a", "999999", "00012"] {
        let ours = parse_uint(s, 65535).ok().map(|v| v as u16);
        assert_eq!(ours, s.parse::<u16>().ok(), "input {s:?}");
    }
}

#[test]
fn parse_args_defaults_and_values() {
    let c = parse_args(&args(&["--server", "wss://h"])).unwrap().unwrap();
    assert_eq!(c.server, "wss://h");
    assert_eq!(c.bot, "random");
    assert_eq!(c.seed, 42);
    assert_eq!(c.games, 1);
    assert_eq!(c.deck_path, None);
    assert_eq!(c.cards_dir, DEFAULT_CARDS_DIR);
    assert_eq!(c.log_dir, DEFAULT_LOG_DIR);
    assert_eq!(c.room, "");

    let c = parse_args(&args(&[
        "--bot", "dragapult-yopifutto", "--seed", "7", "--games", "3", "--deck", "d.yaml",
        "--room", "r", "--vs", "v", "--participant-id", "p", "--auth-token", "t", "--bucket",
        "b", "--cards-dir", "cd", "--log-dir", "ld", "--server", "ws://x:1",
    ]))
    .unwrap()
    .unwrap();
    assert_eq!(c.bot, "dragapult-yopifutto");
    assert_eq!(c.seed, 7);
    assert_eq!(c.games, 3);
    assert_eq!(c.deck_path.as_deref(), Some("d.yaml"));
    assert_eq!(c.room, "r");
    assert_eq!(c.vs, "v");
    assert_eq!(c.participant_id, "p");
    assert_eq!(c.auth_token, "t");
    assert_eq!(c.bucket, "b");
    assert_eq!(c.cards_dir, "cd");
    assert_eq!(c.log_dir, "ld");
    assert_eq!(c.server, "ws://x:1");
}

#[test]
fn parse_args_errors_and_help() {
    assert!(parse_args(&args(&["--help", "--bogus"])).unwrap().is_none());
    assert!(parse_args(&args(&["-h"])).unwrap().is_none());
    assert_eq!(parse_args(&args(&["--bogus"])).err().unwrap(), "unknown arg: --bogus");
    assert_eq!(parse_args(&args(&["--seed"])).err().unwrap(), "missing value for --seed");
    assert_eq!(
        parse_args(&args(&["--seed", "x"])).err().unwrap(),
        "invalid digit found in string"
    );
    assert_eq!(
        parse_args(&args(&["--games", "4294967296"])).err().unwrap(),
        "number too large to fit in target type"
    );
    assert_eq!(
        parse_args(&args(&[])).err().unwrap(),
        "connect requires --server wss://HOST (or ws://HOST:PORT)"
    );
}

#[test]
fn utc_stamps_roll_over_days_and_years() {
    assert_eq!(fmt_utc(86_399), "1970-01-01T235959");
    assert_eq!(fmt_utc(86_400), "1970-01-02T000000");
    assert_eq!(fmt_utc(951_782_400), "2000-02-29T000000");
    assert_eq!(fmt_utc(978_307_199), "2000-12-31T235959");
    assert_eq!(fmt_utc(4_107_542_400), "2100-03-01T000000");
}

#[test]
fn sanitize_twice_changes_nothing() {
    let once = sanitize("ä b/c-d_e");
    assert_eq!(once, "__b_c-d_e");
    assert_eq!(sanitize(&once), once);
}

#[test]
fn config_needs_a_known_bot_and_takes_any_intent() {
    let mut c = base_cfg();
    assert!(check_config(&c).is_ok());
    c.room = "r".to_string();
    assert!(check_config(&c).is_ok());
    c.bot = "nope".to_string();
    assert_eq!(
        check_config(&c).unwrap_err(),
        "--bot must be one of [\"random\", \"dragapult-takeuchi\", \"dragapult-yopifutto\"] (got \"nope\")"
    );
}

#[test]
fn no_intent_subscribes_to_an_open_match() {
    let c = base_cfg();
    assert!(check_config(&c).is_ok());
    match subscribe_msg(&c, None) {
        ClientMessage::Subscribe(m) => {
            assert_eq!(m.room, "");
            assert_eq!(m.vs_bot, "");
            assert_eq!(m.participant_id, "");
        }
        other => panic!("not a subscribe: {other:?}"),
    }
}

#[test]
fn game_seeds_wrap_and_name_directories() {
    assert_eq!(game_seed(42, 0), 42);
    assert_eq!(game_seed(42, 3), 45);
    assert_eq!(game_seed(u64::MAX, 1), 0);
    assert_eq!(game_seed(u64::MAX - 1, 5), 3);
    let mut c = base_cfg();
    c.room = "my room".to_string();
    assert_eq!(
        match_dir_name("2024-02-29T000000", &c, 2),
        "2024-02-29T000000-dragapult-takeuchi-vs-room-my_room-seed44"
    );
}

#[test]
fn subscribe_carries_the_intent_and_deck() {
    let mut c = base_cfg();
    c.vs = "yopifutto".to_string();
    c.bucket = "b".to_string();
    let deck = DeckList { name: None, cards: vec![DeckEntry { slug: "dreepy".to_string(), count: 4 }] };
    match subscribe_msg(&c, Some(deck.clone())) {
        ClientMessage::Subscribe(m) => {
            assert_eq!(m.vs_bot, "yopifutto");
            assert_eq!(m.bucket, "b");
            assert_eq!(m.room, "");
            assert_eq!(m.match_id, "");
            assert_eq!(m.from_seq, 0);
            assert_eq!(m.decklist, Some(deck));
        }
        other => panic!("not a subscribe: {other:?}"),
    }
}

#[test]
fn seed_bytes_are_little_endian_then_zero() {
    let b = seed_bytes(0x0102_0304_0506_0708);
    assert_eq!(b.len(), 32);
    assert_eq!(&b[..8], &0x0102_0304_0506_0708u64.to_le_bytes());
    assert!(b[8..].iter().all(|&x| x == 0));
    assert_eq!(&seed_bytes(42)[..8], &42u64.to_le_bytes());
}

#[test]
fn utc_stamps_follow_the_leap_year_rules() {
    assert_eq!(fmt_utc(951_782_400), "2000-02-29T000000");
    assert_eq!(fmt_utc(4_107_456_000), "2100-02-28T000000");
    assert_eq!(fmt_utc(4_107_456_000 + 86_400), "2100-03-01T000000");
    assert_eq!(fmt_utc(4_107_542_399), "2100-02-28T235959");
}
