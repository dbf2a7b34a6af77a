use ptcg_dragapult_bots::bots::random::{random_action, random_prompt_choice};
use ptcg_dragapult_bots::bots::{pick_random_subset, shuffle_strs};
use ptcg_dragapult_bots::transport::{TransportError};
use ptcg_dragapult_bots::wire::action::{ActionDto};
use ptcg_dragapult_bots::wire::protocol::{ClockSnapshot, PromptDto, PromptMsg, RequestMsg, WireClockOwner};
use ptcg_dragapult_bots::wire::state::{EntityDto, PlayerView, PokemonInPlayDto, StateDto};
use rand::SeedableRng;
use rand_chacha::ChaCha20Rng;

#[allow(dead_code)]
fn rng() -> ChaCha20Rng {
    ChaCha20Rng::from_seed([7u8; 32])
}

#[allow(dead_code)]
fn empty_player() -> PlayerView {
    PlayerView {
        active: None,
        bench: vec![],
        hand: vec![],
        deck_size: 60,
        discard: vec![],
        lost_zone: vec![],
        prizes: vec![],
        energy_attached_this_turn: false,
        supporter_played_this_turn: false,
        mulligan_count: 0,
        had_ko_last_turn: false,
    }
}

#[allow(dead_code)]
fn player_with_hand(hand: &[(u32, &str)]) -> PlayerView {
    let mut pv = empty_player();
    pv.hand = hand
        .iter()
        .map(|(id, slug)| EntityDto {
            entity_id: *id,
            card: Some((*slug).to_string()),
        })
        .collect();
    pv
}

#[allow(dead_code)]
fn state_with(active_player: &str, me: PlayerView) -> StateDto {
    StateDto {
        turn: 0,
        phase: "setup".to_string(),
        active_player: active_player.to_string(),
        stadium: None,
        me,
        opp: empty_player(),
    }
}

#[allow(dead_code)]
fn prompt_with_state(kind: PromptDto, state: StateDto) -> PromptMsg {
    let mut p = dummy_prompt(kind);
    p.state = Some(state);
    p
}

#[allow(dead_code)]
fn in_play(entity_id: u32, slug: &str) -> PokemonInPlayDto {
    PokemonInPlayDto {
        entity_id,
        card: Some(slug.to_string()),
        stage: "basic".to_string(),
        evolution_stack: vec![],
        hp_max: 60,
        damage: 0,
        energy_attached: vec![],
        tool_attached: None,
        status_conditions: vec![],
        abilities_used_this_turn: vec![],
        is_terastallized: false,
        turn_in_play: 1,
    }
}

#[allow(dead_code)]
fn request_with(state: StateDto, legal: Vec<ActionDto>) -> RequestMsg {
    let mut req = dummy_request(legal);
    req.state = state;
    req
}

#[allow(dead_code)]
fn dummy_request(legal: Vec<ActionDto>) -> RequestMsg {
    RequestMsg {
        request_id: "r-1".to_string(),
        resent: false,
        state: StateDto {
            turn: 1,
            phase: "main".to_string(),
            active_player: "me".to_string(),
            stadium: None,
            me: empty_player(),
            opp: empty_player(),
        },
        legal_actions: legal,
        clock: clock(),
    }
}

#[allow(dead_code)]
fn dummy_prompt(kind: PromptDto) -> PromptMsg {
    PromptMsg {
        request_id: "p-1".to_string(),
        parent_request_id: "r-1".to_string(),
        resent: false,
        kind,
        min: 0,
        max: 0,
        state: None,
        shuffle_after: false,
        clock: clock(),
    }
}

#[allow(dead_code)]
fn clock() -> ClockSnapshot {
    ClockSnapshot {
        my_remaining_ms: 0,
        opp_remaining_ms: 0,
        running_for: WireClockOwner::Neither,
        my_deadline_unix_ms: None,
    }
}


#[test]
fn random_action_picks_a_legal_action() {
    let legal = vec![ActionDto::EndTurn, ActionDto::Concede];
    let mut r = rng();
    let a = random_action(&dummy_request(legal.clone()), &mut r).expect("legal");
    assert!(legal.contains(&a));
}

#[test]
fn random_action_errors_on_empty_legal_set() {
    let mut r = rng();
    let err = random_action(&dummy_request(vec![]), &mut r).unwrap_err();
    assert!(matches!(err, TransportError::Unexpected(_)));
}


fn seeded(seed: u8) -> ChaCha20Rng {
    ChaCha20Rng::from_seed([seed; 32])
}

#[test]
fn random_draws_vary_with_the_seed() {
    let legal = vec![
        ActionDto::EndTurn,
        ActionDto::Concede,
        ActionDto::UseAttack { attack_index: 0 },
        ActionDto::UseAttack { attack_index: 1 },
    ];
    let mut seen = Vec::new();
    for seed in 0..16u8 {
        let a = random_action(&dummy_request(legal.clone()), &mut seeded(seed)).unwrap();
        assert!(legal.contains(&a));
        if !seen.contains(&a) {
            seen.push(a);
        }
    }
    assert!(seen.len() > 1);

    let pool: Vec<u32> = (1..=6).collect();
    let mut sizes = Vec::new();
    for seed in 0..16u8 {
        let v = pick_random_subset(&mut seeded(seed), &pool, 0, 6);
        assert!(v.len() <= 6);
        if !sizes.contains(&v.len()) {
            sizes.push(v.len());
        }
    }
    assert!(sizes.len() > 1);

    let mut answers = Vec::new();
    for seed in 0..16u8 {
        let c = random_prompt_choice(
            &dummy_prompt(PromptDto::ChooseYesNo { prompt_text: "?".to_string() }),
            &mut seeded(seed),
        );
        if !answers.contains(&c.yes) {
            answers.push(c.yes);
        }
    }
    assert!(answers.contains(&Some(true)) && answers.contains(&Some(false)));

    let mut branches = Vec::new();
    for seed in 0..16u8 {
        let c = random_prompt_choice(
            &dummy_prompt(PromptDto::ChooseOneBranch { branch_count: 4, labels: vec![] }),
            &mut seeded(seed),
        );
        let b = c.branch_index.unwrap();
        assert!(b < 4);
        if !branches.contains(&b) {
            branches.push(b);
        }
    }
    assert!(branches.len() > 1);
}

#[test]
fn shuffles_reorder_without_losing_anything() {
    let names: Vec<&'static str> = vec!["a", "b", "c", "d", "e", "f", "g", "h", "i", "j", "k", "l"];
    let out = shuffle_strs(&names, &mut seeded(3));
    assert_ne!(out, names);
    let mut sorted = out.clone();
    sorted.sort();
    assert_eq!(sorted, names);
}
