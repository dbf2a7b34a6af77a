use ptcg_dragapult_bots::report::{format_player, format_pokemon, format_prompt, format_request, format_state};
use ptcg_dragapult_bots::wire::action::ActionDto;
use ptcg_dragapult_bots::wire::protocol::{ClockSnapshot, PromptDto, PromptMsg, RequestMsg, WireClockOwner};
use ptcg_dragapult_bots::wire::state::{EntityDto, PlayerView, PokemonInPlayDto, StateDto};

fn mon(entity_id: u32, card: Option<&str>) -> PokemonInPlayDto {
    PokemonInPlayDto {
        entity_id,
        card: card.map(|s| s.to_string()),
        stage: "basic".to_string(),
        evolution_stack: vec![],
        hp_max: 70,
        damage: 0,
        energy_attached: vec![],
        tool_attached: None,
        status_conditions: vec![],
        abilities_used_this_turn: vec![],
        is_terastallized: false,
        turn_in_play: 1,
    }
}

fn player() -> PlayerView {
    PlayerView {
        active: None,
        bench: vec![],
        hand: vec![],
        deck_size: 60,
        discard: vec![],
        lost_zone: vec![],
        prizes: vec![],
        energy_attached_this_turn: false,
        supporter_played_this_turn: false,
        mulligan_count: 0,
        had_ko_last_turn: false,
    }
}

fn clock() -> ClockSnapshot {
    ClockSnapshot {
        my_remaining_ms: 0,
        opp_remaining_ms: 0,
        running_for: WireClockOwner::Neither,
        my_deadline_unix_ms: None,
    }
}

fn ent(entity_id: u32, card: &str) -> EntityDto {
    EntityDto { entity_id, card: Some(card.to_string()) }
}

#[test]
fn format_pokemon_summarizes_hp_energy_status() {
    let p = PokemonInPlayDto {
        entity_id: 12,
        card: Some("dragapult-ex".to_string()),
        stage: "stage_2".to_string(),
        evolution_stack: vec![10, 11],
        hp_max: 320,
        damage: 60,
        energy_attached: vec![],
        tool_attached: None,
        status_conditions: vec!["burned".to_string()],
        abilities_used_this_turn: vec![],
        is_terastallized: false,
        turn_in_play: 4,
    };
    assert_eq!(format_pokemon(&p), "dragapult-ex#12 HP260/320 [burned]");
}

#[test]
fn format_pokemon_shows_energy_tool_and_hidden_cards() {
    let mut p = mon(3, None);
    p.damage = 90;
    p.energy_attached = vec![ent(40, "fire-energy"), ent(41, "psychic-energy")];
    p.tool_attached = Some(EntityDto { entity_id: 50, card: None });
    p.status_conditions = vec!["asleep".to_string(), "poisoned".to_string()];
    assert_eq!(format_pokemon(&p), "?#3 HP0/70 E×2 tool:? [asleep,poisoned]");
}

#[test]
fn format_player_and_state_lines() {
    let mut me = player();
    me.active = Some(mon(1, Some("dreepy")));
    me.bench = vec![mon(2, Some("budew")), mon(3, Some("duskull"))];
    me.hand = vec![ent(9, "lillie")];
    me.prizes = vec![ent(20, "x"), ent(21, "y")];
    assert_eq!(
        format_player("me ", &me),
        "  me  active: dreepy#1 HP70/70\n  me  bench : budew#2 HP70/70 | duskull#3 HP70/70\n  me  hand=1 deck=60 prizes=2 discard=0 lost=0"
    );
    let s = StateDto {
        turn: 3,
        phase: "main".to_string(),
        active_player: "me".to_string(),
        stadium: Some(ent(77, "jamming-tower")),
        me: player(),
        opp: player(),
    };
    assert_eq!(
        format_state(&s),
        "  stadium: jamming-tower\n  me  active: (none)\n  me  bench : (empty)\n  me  hand=0 deck=60 prizes=0 discard=0 lost=0\n  opp active: (none)\n  opp bench : (empty)\n  opp hand=0 deck=60 prizes=0 discard=0 lost=0"
    );
}

#[test]
fn format_request_and_prompt_headers() {
    let req = RequestMsg {
        request_id: "r-9".to_string(),
        resent: true,
        state: StateDto {
            turn: 5,
            phase: "main".to_string(),
            active_player: "opp".to_string(),
            stadium: None,
            me: player(),
            opp: player(),
        },
        legal_actions: vec![ActionDto::EndTurn, ActionDto::Concede],
        clock: clock(),
    };
    let acts = vec!["{\"type\":\"end_turn\"}".to_string(), "{\"type\":\"concede\"}".to_string()];
    let text = format_request(&req, &acts);
    assert!(text.starts_with("\n== request r-9 (turn 5, phase main, active opp) [resent] ==\n  me  active: (none)"));
    assert!(text.ends_with("\n  legal actions:\n    [0] {\"type\":\"end_turn\"}\n    [1] {\"type\":\"concede\"}"));
    let p = PromptMsg {
        request_id: "p-2".to_string(),
        parent_request_id: "r-9".to_string(),
        resent: false,
        kind: PromptDto::ChooseFirstOrSecond,
        min: 1,
        max: 2,
        state: None,
        shuffle_after: false,
        clock: clock(),
    };
    assert_eq!(
        format_prompt(&p, "{\"type\":\"choose_first_or_second\"}"),
        "\n-- prompt p-2 (parent r-9, choose 1..2) --\n  kind: {\"type\":\"choose_first_or_second\"}"
    );
}

#[test]
fn connect_uri_drops_default_ports() {
    use_transport();
}

fn use_transport() {
    use_authority("arena.ptcgtools.com", 443, true, "arena.ptcgtools.com");
    use_authority("arena.ptcgtools.com", 8443, true, "arena.ptcgtools.com:8443");
    use_authority("127.0.0.1", 80, false, "127.0.0.1");
    use_authority("127.0.0.1", 443, false, "127.0.0.1:443");
    assert_eq!(
        ptcg_dragapult_bots::transport::connect_uri("h:1", false),
        "ws://h:1/ai-battle/v1/connect"
    );
    assert_eq!(
        ptcg_dragapult_bots::transport::connect_uri("h", true),
        "wss://h/ai-battle/v1/connect"
    );
}

fn use_authority(host: &str, port: u16, secure: bool, want: &str) {
    assert_eq!(ptcg_dragapult_bots::transport::ws_authority(host, port, secure), want);
}
