use rand::{Rng, SeedableRng};
use ptcg_dragapult_bots::bots::build;
use ptcg_dragapult_bots::cards::CardFacts;
use ptcg_dragapult_bots::rng::game_rng;
use ptcg_dragapult_bots::session::{handle_server_msg, Step};
use ptcg_dragapult_bots::transport::TransportError;
use ptcg_dragapult_bots::wire::action::ActionDto;
use ptcg_dragapult_bots::wire::event::{EventDto, WirePlayerId};
use ptcg_dragapult_bots::wire::protocol::{
    ClientMessage, ClockSnapshot, EventMsg, PingMsg, PromptDto, PromptMsg, RequestMsg,
    ServerMessage, WireActor, WireClockOwner,
};
use ptcg_dragapult_bots::wire::state::{PlayerView, StateDto};

fn player() -> PlayerView {
    PlayerView {
        active: None,
        bench: vec![],
        hand: vec![],
        deck_size: 60,
        discard: vec![],
        lost_zone: vec![],
        prizes: vec![],
        energy_attached_this_turn: false,
        supporter_played_this_turn: false,
        mulligan_count: 0,
        had_ko_last_turn: false,
    }
}

fn clock() -> ClockSnapshot {
    ClockSnapshot {
        my_remaining_ms: 0,
        opp_remaining_ms: 0,
        running_for: WireClockOwner::Neither,
        my_deadline_unix_ms: None,
    }
}

fn state() -> StateDto {
    StateDto {
        turn: 1,
        phase: "main".to_string(),
        active_player: "me".to_string(),
        stadium: None,
        me: player(),
        opp: player(),
    }
}

fn event(e: EventDto) -> ServerMessage {
    ServerMessage::Event(EventMsg {
        seq: 1,
        actor: WireActor::System,
        timestamp_unix_ms: 0,
        replayed: false,
        event: e,
        clock: None,
    })
}

#[test]
fn game_end_finishes_with_the_result_line() {
    let reg = CardFacts::new();
    for name in ["random", "dragapult-takeuchi", "dragapult-yopifutto"] {
        let mut bot = build(name, &reg).unwrap();
        let mut rng = game_rng(1);
        let r = handle_server_msg(
            event(EventDto::GameEnd { winner: Some(WirePlayerId::P2), reason: "DeckOut".to_string() }),
            &mut bot,
            &mut rng,
        );
        match r {
            Ok(Step::Finish(s)) => assert_eq!(s, "winner=P2 reason=DeckOut"),
            _ => panic!("expected the end of the game"),
        }
        assert!(matches!(
            handle_server_msg(event(EventDto::TurnEnd), &mut bot, &mut rng),
            Ok(Step::Wait)
        ));
    }
}

#[test]
fn requests_prompts_and_pings_are_answered() {
    let reg = CardFacts::new();
    let mut bot = build("dragapult-takeuchi", &reg).unwrap();
    let mut rng = game_rng(7);
    let req = RequestMsg {
        request_id: "r-3".to_string(),
        resent: false,
        state: state(),
        legal_actions: vec![ActionDto::EndTurn],
        clock: clock(),
    };
    match handle_server_msg(ServerMessage::Request(req.clone()), &mut bot, &mut rng) {
        Ok(Step::Send(ClientMessage::Response(m))) => {
            assert_eq!(m.request_id, "r-3");
            assert_eq!(m.action, ActionDto::EndTurn);
        }
        _ => panic!("expected a response"),
    }
    let empty = RequestMsg { legal_actions: vec![], ..req };
    assert!(matches!(
        handle_server_msg(ServerMessage::Request(empty), &mut bot, &mut rng),
        Err(TransportError::Unexpected(_))
    ));
    let p = PromptMsg {
        request_id: "p-4".to_string(),
        parent_request_id: "r-3".to_string(),
        resent: false,
        kind: PromptDto::ChooseFirstOrSecond,
        min: 0,
        max: 0,
        state: None,
        shuffle_after: false,
        clock: clock(),
    };
    match handle_server_msg(ServerMessage::Prompt(p), &mut bot, &mut rng) {
        Ok(Step::Send(ClientMessage::Choice(c))) => {
            assert_eq!(c.request_id, "p-4");
            assert_eq!(c.yes, Some(false));
        }
        _ => panic!("expected a choice"),
    }
    match handle_server_msg(
        ServerMessage::Ping(PingMsg { server_current_seq: 9, server_time_unix_ms: 1 }),
        &mut bot,
        &mut rng,
    ) {
        Ok(Step::Send(ClientMessage::Pong(p))) => assert_eq!(p.last_seen_seq, 0),
        _ => panic!("expected a pong"),
    }
}

#[test]
fn game_rng_is_chacha_seeded_with_the_seed_bytes() {
    let mut bytes = [0u8; 32];
    bytes[..8].copy_from_slice(&42u64.to_le_bytes());
    let mut expected = rand_chacha::ChaCha20Rng::from_seed(bytes);
    let mut ours = game_rng(42);
    for _ in 0..4 {
        assert_eq!(ours.gen::<u64>(), expected.gen::<u64>());
    }
    assert_ne!(game_rng(42).gen::<u64>(), game_rng(43).gen::<u64>());
}
