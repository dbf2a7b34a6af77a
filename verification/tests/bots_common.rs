use ptcg_dragapult_bots::bots::{available, build, my_turn_number, pick_random_subset};
use ptcg_dragapult_bots::cards::{CardFacts};
use ptcg_dragapult_bots::wire::action::{ActionDto};
use ptcg_dragapult_bots::wire::protocol::{ClockSnapshot, PromptDto, PromptMsg, RequestMsg, WireClockOwner};
use ptcg_dragapult_bots::wire::state::{EntityDto, PlayerView, PokemonInPlayDto, StateDto};
use rand::SeedableRng;
use rand_chacha::ChaCha20Rng;

#[allow(dead_code)]
fn rng() -> ChaCha20Rng {
    ChaCha20Rng::from_seed([7u8; 32])
}

#[allow(dead_code)]
fn empty_player() -> PlayerView {
    PlayerView {
        active: None,
        bench: vec![],
        hand: vec![],
        deck_size: 60,
        discard: vec![],
        lost_zone: vec![],
        prizes: vec![],
        energy_attached_this_turn: false,
        supporter_played_this_turn: false,
        mulligan_count: 0,
        had_ko_last_turn: false,
    }
}

#[allow(dead_code)]
fn player_with_hand(hand: &[(u32, &str)]) -> PlayerView {
    let mut pv = empty_player();
    pv.hand = hand
        .iter()
        .map(|(id, slug)| EntityDto {
            entity_id: *id,
            card: Some((*slug).to_string()),
        })
        .collect();
    pv
}

#[allow(dead_code)]
fn state_with(active_player: &str, me: PlayerView) -> StateDto {
    StateDto {
        turn: 0,
        phase: "setup".to_string(),
        active_player: active_player.to_string(),
        stadium: None,
        me,
        opp: empty_player(),
    }
}

#[allow(dead_code)]
fn prompt_with_state(kind: PromptDto, state: StateDto) -> PromptMsg {
    let mut p = dummy_prompt(kind);
    p.state = Some(state);
    p
}

#[allow(dead_code)]
fn in_play(entity_id: u32, slug: &str) -> PokemonInPlayDto {
    PokemonInPlayDto {
        entity_id,
        card: Some(slug.to_string()),
        stage: "basic".to_string(),
        evolution_stack: vec![],
        hp_max: 60,
        damage: 0,
        energy_attached: vec![],
        tool_attached: None,
        status_conditions: vec![],
        abilities_used_this_turn: vec![],
        is_terastallized: false,
        turn_in_play: 1,
    }
}

#[allow(dead_code)]
fn request_with(state: StateDto, legal: Vec<ActionDto>) -> RequestMsg {
    let mut req = dummy_request(legal);
    req.state = state;
    req
}

#[allow(dead_code)]
fn dummy_request(legal: Vec<ActionDto>) -> RequestMsg {
    RequestMsg {
        request_id: "r-1".to_string(),
        resent: false,
        state: StateDto {
            turn: 1,
            phase: "main".to_string(),
            active_player: "me".to_string(),
            stadium: None,
            me: empty_player(),
            opp: empty_player(),
        },
        legal_actions: legal,
        clock: clock(),
    }
}

#[allow(dead_code)]
fn dummy_prompt(kind: PromptDto) -> PromptMsg {
    PromptMsg {
        request_id: "p-1".to_string(),
        parent_request_id: "r-1".to_string(),
        resent: false,
        kind,
        min: 0,
        max: 0,
        state: None,
        shuffle_after: false,
        clock: clock(),
    }
}

#[allow(dead_code)]
fn clock() -> ClockSnapshot {
    ClockSnapshot {
        my_remaining_ms: 0,
        opp_remaining_ms: 0,
        running_for: WireClockOwner::Neither,
        my_deadline_unix_ms: None,
    }
}


#[test]
fn build_known_names_returns_some() {
    let reg = CardFacts::new();
    assert!(build("random", &reg).is_some());
    assert!(build("dragapult-takeuchi", &reg).is_some());
    assert!(build("dragapult-yopifutto", &reg).is_some());
}

#[test]
fn build_unknown_name_returns_none() {
    let reg = CardFacts::new();
    assert!(build("nope", &reg).is_none());
}

#[test]
fn available_lists_buildable_names() {
    let reg = CardFacts::new();
    for name in available() {
        assert!(build(name, &reg).is_some(), "{name} should build");
    }
}

#[test]
fn pick_random_subset_in_range() {
    let mut rng = rng();
    let pool = vec![1, 2, 3, 4, 5];
    let v = pick_random_subset(&mut rng, &pool, 1, 3);
    assert!((1..=3).contains(&v.len()));
    for e in &v {
        assert!(pool.contains(e));
    }
}

#[test]
fn pick_random_subset_empty_pool() {
    let mut rng = rng();
    let v = pick_random_subset(&mut rng, &[], 0, 3);
    assert!(v.is_empty());
}

#[test]
fn my_turn_number_maps_turn_to_player_turn() {
    let mut s = state_with("me", empty_player());
    for (turn, expected) in [(0u32, 0u32), (1, 1), (2, 1), (3, 2), (4, 2), (5, 3), (6, 3)] {
        s.turn = turn;
        assert_eq!(my_turn_number(&s), expected, "turn={turn}");
    }
}
