use ptcg_dragapult_bots::bots::dragapult_takeuchi::{CrispinStage, DragapultTakeuchiBot, distribute_damage_low_hp_first, has_evolvable_dreepy, okunote_supporter_priority, p_boss_use, p_boss_win, p_phantom_ready_active, p_phantom_ready_bench, p_phantom_unlikely, pick_snipe_target, supporter_refill_needed};
use ptcg_dragapult_bots::cards::{CardFacts};
use ptcg_dragapult_bots::wire::action::{ActionDto, ActionTarget, EntityId};
use ptcg_dragapult_bots::wire::protocol::{ClockSnapshot, PromptDto, PromptMsg, RequestMsg, WireClockOwner};
use ptcg_dragapult_bots::wire::state::{EntityDto, PlayerView, PokemonInPlayDto, StateDto};
use rand::SeedableRng;
use rand_chacha::ChaCha20Rng;

#[allow(dead_code)]
fn rng() -> ChaCha20Rng {
    ChaCha20Rng::from_seed([7u8; 32])
}

#[allow(dead_code)]
fn empty_player() -> PlayerView {
    PlayerView {
        active: None,
        bench: vec![],
        hand: vec![],
        deck_size: 60,
        discard: vec![],
        lost_zone: vec![],
        prizes: vec![],
        energy_attached_this_turn: false,
        supporter_played_this_turn: false,
        mulligan_count: 0,
        had_ko_last_turn: false,
    }
}

#[allow(dead_code)]
fn player_with_hand(hand: &[(u32, &str)]) -> PlayerView {
    let mut pv = empty_player();
    pv.hand = hand
        .iter()
        .map(|(id, slug)| EntityDto {
            entity_id: *id,
            card: Some((*slug).to_string()),
        })
        .collect();
    pv
}

#[allow(dead_code)]
fn state_with(active_player: &str, me: PlayerView) -> StateDto {
    StateDto {
        turn: 0,
        phase: "setup".to_string(),
        active_player: active_player.to_string(),
        stadium: None,
        me,
        opp: empty_player(),
    }
}

#[allow(dead_code)]
fn prompt_with_state(kind: PromptDto, state: StateDto) -> PromptMsg {
    let mut p = dummy_prompt(kind);
    p.state = Some(state);
    p
}

#[allow(dead_code)]
fn in_play(entity_id: u32, slug: &str) -> PokemonInPlayDto {
    PokemonInPlayDto {
        entity_id,
        card: Some(slug.to_string()),
        stage: "basic".to_string(),
        evolution_stack: vec![],
        hp_max: 60,
        damage: 0,
        energy_attached: vec![],
        tool_attached: None,
        status_conditions: vec![],
        abilities_used_this_turn: vec![],
        is_terastallized: false,
        turn_in_play: 1,
    }
}

#[allow(dead_code)]
fn request_with(state: StateDto, legal: Vec<ActionDto>) -> RequestMsg {
    let mut req = dummy_request(legal);
    req.state = state;
    req
}

#[allow(dead_code)]
fn dummy_request(legal: Vec<ActionDto>) -> RequestMsg {
    RequestMsg {
        request_id: "r-1".to_string(),
        resent: false,
        state: StateDto {
            turn: 1,
            phase: "main".to_string(),
            active_player: "me".to_string(),
            stadium: None,
            me: empty_player(),
            opp: empty_player(),
        },
        legal_actions: legal,
        clock: clock(),
    }
}

#[allow(dead_code)]
fn dummy_prompt(kind: PromptDto) -> PromptMsg {
    PromptMsg {
        request_id: "p-1".to_string(),
        parent_request_id: "r-1".to_string(),
        resent: false,
        kind,
        min: 0,
        max: 0,
        state: None,
        shuffle_after: false,
        clock: clock(),
    }
}

#[allow(dead_code)]
fn clock() -> ClockSnapshot {
    ClockSnapshot {
        my_remaining_ms: 0,
        opp_remaining_ms: 0,
        running_for: WireClockOwner::Neither,
        my_deadline_unix_ms: None,
    }
}


#[test]
fn chooses_to_go_second() {
    let mut bot = DragapultTakeuchiBot::new(CardFacts::new());
    let mut r = rng();
    let choice = bot.choose_prompt(&dummy_prompt(PromptDto::ChooseFirstOrSecond), &mut r);
    assert_eq!(choice.yes, Some(false));
}

#[test]
fn first_turn_active_prefers_dreepy() {
    let mut bot = DragapultTakeuchiBot::new(CardFacts::new());
    let mut r = rng();
    let me = player_with_hand(&[(10, "budew"), (11, "duskull"), (12, "dreepy")]);
    let p = prompt_with_state(
        PromptDto::ChooseInitialActive {
            eligible: vec![10, 11, 12],
        },
        state_with("me", me),
    );
    let choice = bot.choose_prompt(&p, &mut r);
    assert_eq!(choice.selected, vec![12]);
}

#[test]
fn dragapult_takeuchi_second_turn_active_prefers_budew() {
    let mut bot = DragapultTakeuchiBot::new(CardFacts::new());
    let mut r = rng();
    let me = player_with_hand(&[(20, "dreepy"), (21, "budew"), (22, "duskull")]);
    let p = prompt_with_state(
        PromptDto::ChooseInitialActive {
            eligible: vec![20, 21, 22],
        },
        state_with("opp", me),
    );
    let choice = bot.choose_prompt(&p, &mut r);
    assert_eq!(choice.selected, vec![21]);
}

#[test]
fn second_turn_active_falls_through_to_dreepy_without_budew() {
    let mut bot = DragapultTakeuchiBot::new(CardFacts::new());
    let mut r = rng();
    let me = player_with_hand(&[(30, "duskull"), (31, "dreepy"), (32, "meowth-ex")]);
    let p = prompt_with_state(
        PromptDto::ChooseInitialActive {
            eligible: vec![30, 31, 32],
        },
        state_with("opp", me),
    );
    let choice = bot.choose_prompt(&p, &mut r);
    assert_eq!(
        choice.selected,
        vec![31],
    );
}

#[test]
fn dragapult_takeuchi_uses_recon_directive_above_all() {
    let mut bot = DragapultTakeuchiBot::new(CardFacts::new());
    let mut r = rng();
    let mut me = PlayerView {
        bench: vec![in_play(7, "drakloak")],
        ..empty_player()
    };
    me.active = Some(in_play(1, "dragapult-ex"));
    let legal = vec![
        ActionDto::EndTurn,
        ActionDto::UseAbility {
            entity_id: EntityId(7),
            ability_index: 0,
        },
    ];
    let req = request_with(state_with("me", me), legal);
    let a = bot.choose_action(&req, &mut r).expect("action");
    assert!(
        matches!(a, ActionDto::UseAbility { entity_id, .. } if entity_id == EntityId(7)),
    );
}

fn state_with_active_and_hand(
    active: (u32, &str),
    in_play_extra: Vec<(u32, &str)>,
    hand: &[(u32, &str)],
) -> ptcg_dragapult_bots::wire::state::StateDto {
    let mut me = player_with_hand(hand);
    me.active = Some(in_play(active.0, active.1));
    me.bench = in_play_extra
        .into_iter()
        .map(|(id, slug)| in_play(id, slug))
        .collect();
    state_with("me", me)
}

#[test]
fn dragapult_takeuchi_evolves_toward_dragapult_line() {
    let mut bot = DragapultTakeuchiBot::new(CardFacts::new());
    let mut r = rng();
    let state =
        state_with_active_and_hand((1, "budew"), vec![(2, "dreepy")], &[(50, "drakloak")]);
    let legal = vec![
        ActionDto::EndTurn,
        ActionDto::PlayCard {
            entity_id: EntityId(50),
            target: None,
        },
    ];
    let req = request_with(state, legal);
    let a = bot.choose_action(&req, &mut r).expect("action");
    assert!(matches!(a, ActionDto::PlayCard { entity_id, .. } if entity_id == EntityId(50)));
}

#[test]
fn dronchi_stop_holds_drakloak_when_dragapult_already_in_play() {
    let mut bot = DragapultTakeuchiBot::new(CardFacts::new());
    let mut r = rng();
    let state = state_with_active_and_hand(
        (1, "dragapult-ex"),
        vec![(2, "drakloak")],
        &[(60, "dragapult-ex")],
    );
    let legal = vec![
        ActionDto::EndTurn,
        ActionDto::PlayCard {
            entity_id: EntityId(60),
            target: None,
        },
    ];
    let req = request_with(state, legal);
    let a = bot.choose_action(&req, &mut r).expect("action");
    assert_eq!(a, ActionDto::EndTurn);
}

#[test]
fn dragapult_takeuchi_places_basic_dreepy_to_bench() {
    let mut bot = DragapultTakeuchiBot::new(CardFacts::new());
    let mut r = rng();
    let me = player_with_hand(&[(70, "dreepy")]);
    let state = state_with("me", me);
    let legal = vec![
        ActionDto::EndTurn,
        ActionDto::PlayCard {
            entity_id: EntityId(70),
            target: None,
        },
    ];
    let req = request_with(state, legal);
    let a = bot.choose_action(&req, &mut r).expect("action");
    assert!(matches!(a, ActionDto::PlayCard { entity_id, .. } if entity_id == EntityId(70)));
}

fn in_play_with_energy(entity_id: u32, slug: &str, energy: &[&str]) -> PokemonInPlayDto {
    let mut p = in_play(entity_id, slug);
    p.energy_attached = energy
        .iter()
        .enumerate()
        .map(|(i, s)| ptcg_dragapult_bots::wire::state::EntityDto {
            entity_id: 900 + u32::try_from(i).unwrap_or(0),
            card: Some((*s).to_string()),
        })
        .collect();
    p
}

#[test]
fn attaches_psychic_first_to_dragapult() {
    let mut bot = DragapultTakeuchiBot::new(CardFacts::new());
    let mut r = rng();
    let mut me = player_with_hand(&[(200, "psychic-energy"), (201, "fire-energy")]);
    me.active = Some(in_play(1, "dragapult-ex"));
    let legal = vec![
        ActionDto::EndTurn,
        ActionDto::PlayCard {
            entity_id: EntityId(201),
            target: Some(ActionTarget::OwnActive),
        },
        ActionDto::PlayCard {
            entity_id: EntityId(200),
            target: Some(ActionTarget::OwnActive),
        },
    ];
    let a = bot
        .choose_action(&request_with(state_with("me", me), legal), &mut r)
        .expect("action");
    assert!(
        matches!(a, ActionDto::PlayCard { entity_id, .. } if entity_id == EntityId(200)),
    );
}

#[test]
fn avoids_second_fire_overflow() {
    let mut bot = DragapultTakeuchiBot::new(CardFacts::new());
    let mut r = rng();
    let mut me = player_with_hand(&[(201, "fire-energy"), (200, "psychic-energy")]);
    me.active = Some(in_play_with_energy(1, "dragapult-ex", &["fire-energy"]));
    let legal = vec![
        ActionDto::EndTurn,
        ActionDto::PlayCard {
            entity_id: EntityId(201),
            target: Some(ActionTarget::OwnActive),
        },
        ActionDto::PlayCard {
            entity_id: EntityId(200),
            target: Some(ActionTarget::OwnActive),
        },
    ];
    let a = bot
        .choose_action(&request_with(state_with("me", me), legal), &mut r)
        .expect("action");
    assert!(
        matches!(a, ActionDto::PlayCard { entity_id, .. } if entity_id == EntityId(200)),
    );
}

#[test]
fn prefers_bench_dragapult_over_active_drakloak() {
    let mut bot = DragapultTakeuchiBot::new(CardFacts::new());
    let mut r = rng();
    let mut me = player_with_hand(&[(200, "psychic-energy")]);
    me.active = Some(in_play(1, "drakloak"));
    me.bench = vec![in_play(2, "dragapult-ex")];
    let legal = vec![
        ActionDto::EndTurn,
        ActionDto::PlayCard {
            entity_id: EntityId(200),
            target: Some(ActionTarget::OwnActive),
        },
        ActionDto::PlayCard {
            entity_id: EntityId(200),
            target: Some(ActionTarget::OwnBench { index: 0 }),
        },
    ];
    let a = bot
        .choose_action(&request_with(state_with("me", me), legal), &mut r)
        .expect("action");
    assert!(
        matches!(
            a,
            ActionDto::PlayCard {
                target: Some(ActionTarget::OwnBench { index: 0 }),
                ..
            }
        ),
    );
}

fn opp_state(active: Option<(u32, u16, u16)>, bench: &[(u32, u16, u16)]) -> StateDto {
    let mk = |(id, hp_max, dmg): (u32, u16, u16)| {
        let mut p = in_play(id, "dummy");
        p.hp_max = hp_max;
        p.damage = dmg;
        p
    };
    let mut opp = empty_player();
    opp.active = active.map(mk);
    opp.bench = bench.iter().copied().map(mk).collect();
    let mut s = state_with("me", empty_player());
    s.opp = opp;
    s
}

#[test]
fn distribute_targets_lowest_hp_first() {
    let state = opp_state(None, &[(1, 30, 0), (2, 60, 0), (3, 200, 0)]);
    let p = prompt_with_state(
        PromptDto::DistributeDamage {
            eligible: vec![1, 2, 3],
            total: 6,
            per_target_max: None,
        },
        state,
    );
    let c = distribute_damage_low_hp_first(&p, &[1, 2, 3], 6, None).expect("dist");
    let pairs: std::collections::HashMap<u32, u8> = c
        .selected
        .iter()
        .copied()
        .zip(c.counts.iter().copied())
        .collect();
    assert_eq!(pairs.get(&1), Some(&3));
    assert_eq!(pairs.get(&2), Some(&3));
    assert_eq!(pairs.get(&3), None);
    assert_eq!(c.counts.iter().sum::<u8>(), 6);
}

#[test]
fn dragapult_takeuchi_distribute_respects_per_target_max() {
    let state = opp_state(None, &[(5, 200, 0)]);
    let p = prompt_with_state(
        PromptDto::DistributeDamage {
            eligible: vec![5],
            total: 6,
            per_target_max: Some(2),
        },
        state,
    );
    let c = distribute_damage_low_hp_first(&p, &[5], 6, Some(2)).expect("dist");
    assert_eq!(c.selected, vec![5]);
    assert_eq!(c.counts, vec![2]);
}

fn request_on_turn(me: PlayerView, legal: Vec<ActionDto>, turn: u32) -> RequestMsg {
    let mut s = state_with("me", me);
    s.turn = turn;
    request_with(s, legal)
}

#[test]
fn u6_plays_lillie_over_crispin_no_boss() {
    let mut bot = DragapultTakeuchiBot::new(CardFacts::new());
    let mut r = rng();
    let mut me = player_with_hand(&[(80, "lillie-s-determination"), (81, "boss-s-orders")]);
    me.active = Some(in_play(1, "drakloak"));
    let legal = vec![
        ActionDto::EndTurn,
        ActionDto::PlayCard {
            entity_id: EntityId(80),
            target: None,
        },
        ActionDto::PlayCard {
            entity_id: EntityId(81),
            target: None,
        },
    ];
    let a = bot
        .choose_action(&request_on_turn(me, legal, 3), &mut r)
        .expect("action");
    assert!(matches!(a, ActionDto::PlayCard { entity_id, .. } if entity_id == EntityId(80)));
}

#[test]
fn t2_5_second_player_plays_lillie() {
    let mut bot = DragapultTakeuchiBot::new(CardFacts::new());
    bot.am_i_first = Some(false);
    let mut r = rng();
    let mut me = player_with_hand(&[(80, "lillie-s-determination")]);
    me.active = Some(in_play(1, "budew"));
    let legal = vec![
        ActionDto::EndTurn,
        ActionDto::PlayCard {
            entity_id: EntityId(80),
            target: None,
        },
    ];
    let a = bot
        .choose_action(&request_on_turn(me, legal, 2), &mut r)
        .expect("action");
    assert!(matches!(a, ActionDto::PlayCard { entity_id, .. } if entity_id == EntityId(80)));
}

#[test]
fn v5_c_plays_lillie_without_dragapult() {
    let mut bot = DragapultTakeuchiBot::new(CardFacts::new());
    let mut r = rng();
    let mut me = player_with_hand(&[(81, "boss-s-orders")]);
    me.active = Some(in_play(1, "drakloak"));
    let legal = vec![
        ActionDto::EndTurn,
        ActionDto::PlayCard {
            entity_id: EntityId(81),
            target: None,
        },
    ];
    let a = bot
        .choose_action(&request_on_turn(me, legal, 5), &mut r)
        .expect("action");
    assert_eq!(a, ActionDto::EndTurn);
}

#[test]
fn v5_plays_boss_and_sets_target_when_boss_use() {
    let mut bot = DragapultTakeuchiBot::new(CardFacts::new());
    let mut r = rng();
    let mut me = phantom_ready_me();
    me.hand = vec![EntityDto {
        entity_id: 81,
        card: Some("boss-s-orders".into()),
    }];
    let mut s = state_with("me", me);
    s.turn = 5;
    let mut ex = in_play(40, "dragapult-ex");
    ex.hp_max = 200;
    s.opp.bench = vec![ex];
    let legal = vec![
        ActionDto::EndTurn,
        ActionDto::PlayCard {
            entity_id: EntityId(81),
            target: None,
        },
    ];
    let a = bot
        .choose_action(&request_with(s, legal), &mut r)
        .expect("action");
    assert!(matches!(a, ActionDto::PlayCard { entity_id, .. } if entity_id == EntityId(81)));
    assert_eq!(bot.pending_target, Some(40));
}

#[test]
fn p_boss_use_true_when_phantom_kos_two() {
    let mut me = phantom_ready_me();
    me.prizes = prizes_of(6);
    let mut s = state_with("me", me);
    s.opp.active = Some({
        let mut p = in_play(50, "dreepy");
        p.hp_max = 60;
        p
    });
    s.opp.bench = vec![{
        let mut p = in_play(51, "dreepy");
        p.hp_max = 60;
        p
    }];
    assert!(p_boss_use(&s));
}

#[test]
fn forced_cursed_bomb_when_dusclops_stuck_with_bench_attacker() {
    let mut bot = DragapultTakeuchiBot::new(CardFacts::new());
    let mut r = rng();
    let mut me = empty_player();
    me.active = Some(in_play(5, "dusclops"));
    me.bench = vec![in_play_with_energy(
        2,
        "dragapult-ex",
        &["fire-energy", "psychic-energy"],
    )];
    let legal = vec![
        ActionDto::EndTurn,
        ActionDto::UseAbility {
            entity_id: EntityId(5),
            ability_index: 0,
        },
    ];
    let a = bot
        .choose_action(&request_with(state_with("me", me), legal), &mut r)
        .expect("action");
    assert!(
        matches!(a, ActionDto::UseAbility { entity_id, .. } if entity_id == EntityId(5)),
    );
    assert!(bot.pending_cursed_random);
}

#[test]
fn no_forced_cursed_bomb_when_retreat_available() {
    let mut bot = DragapultTakeuchiBot::new(CardFacts::new());
    let mut r = rng();
    let mut me = empty_player();
    me.active = Some(in_play(5, "dusclops"));
    me.bench = vec![in_play_with_energy(
        2,
        "dragapult-ex",
        &["fire-energy", "psychic-energy"],
    )];
    let legal = vec![
        ActionDto::EndTurn,
        ActionDto::UseAbility {
            entity_id: EntityId(5),
            ability_index: 0,
        },
        ActionDto::Retreat {
            to_bench_index: 0,
            energy_to_discard: vec![],
        },
    ];
    let a = bot
        .choose_action(&request_with(state_with("me", me), legal), &mut r)
        .expect("action");
    assert!(
        matches!(a, ActionDto::Retreat { .. }),
    );
}

#[test]
fn uses_cursed_bomb_when_dusknoir_in_play() {
    let mut bot = DragapultTakeuchiBot::new(CardFacts::new());
    let mut r = rng();
    let mut me = PlayerView {
        bench: vec![in_play(9, "dusknoir")],
        ..empty_player()
    };
    me.active = Some(in_play(1, "dragapult-ex"));
    let legal = vec![
        ActionDto::EndTurn,
        ActionDto::UseAbility {
            entity_id: EntityId(9),
            ability_index: 0,
        },
    ];
    let a = bot
        .choose_action(&request_with(state_with("me", me), legal), &mut r)
        .expect("action");
    assert!(matches!(a, ActionDto::UseAbility { entity_id, .. } if entity_id == EntityId(9)));
}

#[test]
fn snipe_targets_opponent_ex_with_max_hp() {
    let mut opp = empty_player();
    let mut ex_big = in_play(21, "dragapult-ex");
    ex_big.hp_max = 320;
    let mut ex_small = in_play(22, "dragapult-ex");
    ex_small.hp_max = 280;
    let mut dro = in_play(23, "drakloak");
    dro.energy_attached = vec![
        ptcg_dragapult_bots::wire::state::EntityDto {
            entity_id: 901,
            card: Some("fire-energy".into()),
        },
        ptcg_dragapult_bots::wire::state::EntityDto {
            entity_id: 902,
            card: Some("psychic-energy".into()),
        },
    ];
    opp.active = Some(ex_small);
    opp.bench = vec![ex_big, dro];
    let mut s = state_with("me", empty_player());
    s.opp = opp;
    let p = prompt_with_state(
        PromptDto::ChooseTargetPokemon {
            targets: vec![21, 22, 23],
        },
        s,
    );
    assert_eq!(pick_snipe_target(&p, &[21, 22, 23]), Some(21));
}

#[test]
fn pending_target_overrides_snipe_priority() {
    let mut bot = DragapultTakeuchiBot::new(CardFacts::new());
    let mut r = rng();
    let mut opp = empty_player();
    let mut ex = in_play(21, "dragapult-ex");
    ex.hp_max = 320;
    opp.active = Some(ex);
    opp.bench = vec![in_play(22, "dreepy")];
    let mut s = state_with("me", empty_player());
    s.opp = opp;
    bot.pending_target = Some(22);
    let p = prompt_with_state(
        PromptDto::ChooseTargetPokemon {
            targets: vec![21, 22],
        },
        s,
    );
    let c = bot.choose_prompt(&p, &mut r);
    assert_eq!(c.selected, vec![22]);
}

#[test]
fn snipe_falls_to_energized_drakloak_without_ex() {
    let mut opp = empty_player();
    let mut dro = in_play(31, "drakloak");
    dro.energy_attached = vec![ptcg_dragapult_bots::wire::state::EntityDto {
        entity_id: 903,
        card: Some("fire-energy".into()),
    }];
    opp.active = Some(in_play(30, "dreepy"));
    opp.bench = vec![dro];
    let mut s = state_with("me", empty_player());
    s.opp = opp;
    let p = prompt_with_state(
        PromptDto::ChooseTargetPokemon {
            targets: vec![30, 31],
        },
        s,
    );
    assert_eq!(pick_snipe_target(&p, &[30, 31]), Some(31));
}

#[test]
fn retreats_to_bring_up_phantom_ready_dragapult() {
    let mut bot = DragapultTakeuchiBot::new(CardFacts::new());
    let mut r = rng();
    let mut me = empty_player();
    me.active = Some(in_play(1, "drakloak"));
    me.bench = vec![in_play_with_energy(
        2,
        "dragapult-ex",
        &["fire-energy", "psychic-energy"],
    )];
    let legal = vec![
        ActionDto::EndTurn,
        ActionDto::Retreat {
            to_bench_index: 0,
            energy_to_discard: vec![],
        },
    ];
    let a = bot
        .choose_action(&request_with(state_with("me", me), legal), &mut r)
        .expect("action");
    assert!(matches!(
        a,
        ActionDto::Retreat {
            to_bench_index: 0,
            ..
        }
    ));
}

#[test]
fn case2_retreats_to_budew_when_no_phantom_bench() {
    let mut bot = DragapultTakeuchiBot::new(CardFacts::new());
    let mut r = rng();
    let mut me = empty_player();
    me.active = Some(in_play(1, "drakloak"));
    me.bench = vec![in_play(2, "budew")];
    let legal = vec![
        ActionDto::EndTurn,
        ActionDto::Retreat {
            to_bench_index: 0,
            energy_to_discard: vec![],
        },
    ];
    let a = bot
        .choose_action(&request_with(state_with("me", me), legal), &mut r)
        .expect("action");
    assert!(
        matches!(
            a,
            ActionDto::Retreat {
                to_bench_index: 0,
                ..
            }
        ),
    );
}

#[test]
fn retreat_energy_attached_when_retreat_not_yet_legal() {
    let mut bot = DragapultTakeuchiBot::new(CardFacts::new());
    let mut r = rng();
    let mut me = player_with_hand(&[(200, "psychic-energy")]);
    me.active = Some(in_play(1, "drakloak"));
    me.bench = vec![in_play(2, "budew")];
    let legal = vec![
        ActionDto::EndTurn,
        ActionDto::PlayCard {
            entity_id: EntityId(200),
            target: Some(ActionTarget::OwnActive),
        },
    ];
    let a = bot
        .choose_action(&request_with(state_with("me", me), legal), &mut r)
        .expect("action");
    assert!(
        matches!(
            a,
            ActionDto::PlayCard {
                target: Some(ActionTarget::OwnActive),
                ..
            }
        ),
    );
}

#[test]
fn does_not_retreat_when_active_can_phantom_dive() {
    let mut bot = DragapultTakeuchiBot::new(CardFacts::new());
    let mut r = rng();
    let mut me = empty_player();
    me.active = Some(in_play_with_energy(
        1,
        "dragapult-ex",
        &["fire-energy", "psychic-energy"],
    ));
    me.bench = vec![in_play_with_energy(
        2,
        "dragapult-ex",
        &["fire-energy", "psychic-energy"],
    )];
    let legal = vec![
        ActionDto::EndTurn,
        ActionDto::Retreat {
            to_bench_index: 0,
            energy_to_discard: vec![],
        },
    ];
    let a = bot
        .choose_action(&request_with(state_with("me", me), legal), &mut r)
        .expect("action");
    assert_eq!(a, ActionDto::EndTurn);
}

#[test]
fn plays_pokemon_goods_poke_pad_first() {
    let mut bot = DragapultTakeuchiBot::new(CardFacts::new());
    let mut r = rng();
    let mut me = player_with_hand(&[(40, "buddy-buddy-poffin"), (41, "poke-pad")]);
    me.active = Some(in_play(1, "drakloak"));
    let legal = vec![
        ActionDto::EndTurn,
        ActionDto::PlayCard {
            entity_id: EntityId(40),
            target: None,
        },
        ActionDto::PlayCard {
            entity_id: EntityId(41),
            target: None,
        },
    ];
    let a = bot
        .choose_action(&request_with(state_with("me", me), legal), &mut r)
        .expect("action");
    assert!(matches!(a, ActionDto::PlayCard { entity_id, .. } if entity_id == EntityId(41)));
}

fn prizes_of(n: usize) -> Vec<EntityDto> {
    (0..n)
        .map(|i| EntityDto {
            entity_id: 800 + u32::try_from(i).unwrap_or(0),
            card: None,
        })
        .collect()
}

fn fetch_with(
    bot: &mut DragapultTakeuchiBot,
    source: &str,
    state: StateDto,
    opts: Vec<EntityDto>,
    min: u8,
    max: u8,
) -> Vec<u32> {
    bot.pending_search = Some(source.to_string());
    let mut p = prompt_with_state(
        PromptDto::ChooseFromZone {
            zone: "my_deck".into(),
            options: opts,
        },
        state,
    );
    p.min = min;
    p.max = max;
    let mut r = rng();
    bot.choose_prompt(&p, &mut r).selected
}

fn phantom_ready_me() -> PlayerView {
    let mut me = empty_player();
    me.active = Some(in_play_with_energy(
        1,
        "dragapult-ex",
        &["fire-energy", "psychic-energy"],
    ));
    me.prizes = prizes_of(6);
    me
}

#[test]
fn poke_pad_next_tier_dreepy_when_phantom_ready_and_no_dreepy() {
    let mut bot = DragapultTakeuchiBot::new(CardFacts::new());
    let opts = vec![
        EntityDto {
            entity_id: 51,
            card: Some("dreepy".into()),
        },
        EntityDto {
            entity_id: 52,
            card: Some("drakloak".into()),
        },
    ];
    let sel = fetch_with(
        &mut bot,
        "poke-pad",
        state_with("me", phantom_ready_me()),
        opts,
        1,
        1,
    );
    assert_eq!(sel, vec![51]);
}

#[test]
fn poke_pad_excludes_summoning_sick_dreepy_for_drakloak() {
    let mut bot = DragapultTakeuchiBot::new(CardFacts::new());
    let mut me = phantom_ready_me();
    let mut sick = in_play(2, "dreepy");
    sick.turn_in_play = 0;
    me.bench = vec![sick];
    assert!(!has_evolvable_dreepy(&state_with("me", me.clone())));
    let opts = vec![
        EntityDto {
            entity_id: 51,
            card: Some("dreepy".into()),
        },
        EntityDto {
            entity_id: 52,
            card: Some("drakloak".into()),
        },
    ];
    let sel = fetch_with(&mut bot, "poke-pad", state_with("me", me), opts, 1, 1);
    assert_eq!(
        sel,
        vec![51],
    );

    let mut me2 = phantom_ready_me();
    let mut ok = in_play(2, "dreepy");
    ok.turn_in_play = 1;
    me2.bench = vec![ok];
    assert!(has_evolvable_dreepy(&state_with("me", me2)));
}

#[test]
fn poke_pad_top_tier_budew_when_phantom_unlikely() {
    let mut bot = DragapultTakeuchiBot::new(CardFacts::new());
    let mut me = empty_player();
    me.active = Some(in_play(1, "drakloak"));
    me.prizes = prizes_of(6);
    let opts = vec![
        EntityDto {
            entity_id: 50,
            card: Some("budew".into()),
        },
        EntityDto {
            entity_id: 51,
            card: Some("dreepy".into()),
        },
    ];
    let sel = fetch_with(&mut bot, "poke-pad", state_with("me", me), opts, 1, 1);
    assert_eq!(sel, vec![50]);
}

#[test]
fn poke_pad_falls_through_when_top_tier_absent_in_deck() {
    let mut bot = DragapultTakeuchiBot::new(CardFacts::new());
    let mut me = empty_player();
    me.active = Some(in_play(1, "drakloak"));
    me.prizes = prizes_of(6);
    let opts = vec![
        EntityDto {
            entity_id: 70,
            card: Some("dusclops".into()),
        },
        EntityDto {
            entity_id: 71,
            card: Some("dreepy".into()),
        },
    ];
    let sel = fetch_with(&mut bot, "poke-pad", state_with("me", me), opts, 0, 1);
    assert_eq!(
        sel,
        vec![71],
    );
}

#[test]
fn poffin_takes_two_dreepy_when_phantom_ready() {
    let mut bot = DragapultTakeuchiBot::new(CardFacts::new());
    let opts = vec![
        EntityDto {
            entity_id: 60,
            card: Some("dreepy".into()),
        },
        EntityDto {
            entity_id: 61,
            card: Some("dreepy".into()),
        },
        EntityDto {
            entity_id: 62,
            card: Some("duskull".into()),
        },
    ];
    let sel = fetch_with(
        &mut bot,
        "buddy-buddy-poffin",
        state_with("me", phantom_ready_me()),
        opts,
        0,
        2,
    );
    assert_eq!(sel, vec![60, 61]);
}

#[test]
fn ultra_ball_top_tier_meowth_when_no_supporter() {
    let mut bot = DragapultTakeuchiBot::new(CardFacts::new());
    let opts = vec![
        EntityDto {
            entity_id: 70,
            card: Some("meowth-ex".into()),
        },
        EntityDto {
            entity_id: 71,
            card: Some("drakloak".into()),
        },
    ];
    let sel = fetch_with(
        &mut bot,
        "ultra-ball",
        state_with("me", phantom_ready_me()),
        opts,
        1,
        1,
    );
    assert_eq!(sel, vec![70]);
}

#[test]
fn ultra_ball_next_tier_dragapult_when_energized_drakloak() {
    let mut bot = DragapultTakeuchiBot::new(CardFacts::new());
    let mut me = phantom_ready_me();
    me.hand = vec![EntityDto {
        entity_id: 99,
        card: Some("lillie-s-determination".into()),
    }];
    me.bench = vec![in_play_with_energy(2, "drakloak", &["fire-energy"])];
    let opts = vec![
        EntityDto {
            entity_id: 80,
            card: Some("dragapult-ex".into()),
        },
        EntityDto {
            entity_id: 81,
            card: Some("dusclops".into()),
        },
    ];
    let sel = fetch_with(&mut bot, "ultra-ball", state_with("me", me), opts, 1, 1);
    assert_eq!(
        sel,
        vec![80],
    );
}

#[test]
fn ultra_ball_trash_picks_two_random_from_hand() {
    let mut bot = DragapultTakeuchiBot::new(CardFacts::new());
    let mut r = rng();
    let mut me = player_with_hand(&[(40, "fire-energy"), (41, "poke-pad"), (42, "dreepy")]);
    me.prizes = prizes_of(6);
    let opts = vec![
        EntityDto {
            entity_id: 40,
            card: Some("fire-energy".into()),
        },
        EntityDto {
            entity_id: 41,
            card: Some("poke-pad".into()),
        },
        EntityDto {
            entity_id: 42,
            card: Some("dreepy".into()),
        },
    ];
    let mut p = prompt_with_state(
        PromptDto::ChooseFromZone {
            zone: "my_deck".into(),
            options: opts,
        },
        state_with("me", me),
    );
    p.min = 2;
    p.max = 2;
    let sel = bot.choose_prompt(&p, &mut r).selected;
    assert_eq!(sel.len(), 2);
    for e in &sel {
        assert!([40, 41, 42].contains(e));
    }
}

#[test]
fn phantom_predicates_distinguish_active_and_bench() {
    let charged = in_play_with_energy(1, "dragapult-ex", &["fire-energy", "psychic-energy"]);
    let mut me = empty_player();
    me.active = Some(charged.clone());
    let s = state_with("me", me);
    assert!(p_phantom_ready_active(&s));
    assert!(!p_phantom_ready_bench(&s));
    assert!(!p_phantom_unlikely(&s));
    let mut me2 = empty_player();
    me2.active = Some(in_play(9, "drakloak"));
    me2.bench = vec![charged];
    let s2 = state_with("me", me2);
    assert!(!p_phantom_ready_active(&s2));
    assert!(p_phantom_ready_bench(&s2));
    assert!(p_phantom_unlikely(&s2));
}

#[test]
fn is_first_turn_going_second_only_on_second_player_first_turn() {
    let mut bot = DragapultTakeuchiBot::new(CardFacts::new());
    bot.am_i_first = Some(false);
    let mut s = state_with("me", empty_player());
    s.turn = 2;
    assert!(bot.is_first_turn_going_second(&s));
    s.turn = 4;
    assert!(!bot.is_first_turn_going_second(&s));
    bot.am_i_first = Some(true);
    s.turn = 1;
    assert!(!bot.is_first_turn_going_second(&s));
}

#[test]
fn p_boss_win_true_on_last_prize_or_lethal_phantom() {
    let mut me = phantom_ready_me();
    me.prizes = prizes_of(1);
    let s = state_with("me", me);
    assert!(p_boss_win(&s));
    let mut me2 = phantom_ready_me();
    me2.prizes = prizes_of(2);
    let mut s2 = state_with("me", me2);
    let mut ex = in_play(20, "dragapult-ex");
    ex.hp_max = 200;
    s2.opp.active = Some(ex);
    assert!(p_boss_win(&s2));
    let mut me3 = phantom_ready_me();
    me3.prizes = prizes_of(2);
    let mut s3 = state_with("me", me3);
    let mut tough = in_play(30, "dragapult-ex");
    tough.hp_max = 320;
    s3.opp.active = Some(tough);
    assert!(!p_boss_win(&s3));
}

#[test]
fn refill_own_turn_prefers_budew() {
    let mut bot = DragapultTakeuchiBot::new(CardFacts::new());
    let mut r = rng();
    let mut me = empty_player();
    me.bench = vec![
        in_play_with_energy(2, "dragapult-ex", &["fire-energy", "psychic-energy"]),
        in_play(3, "budew"),
    ];
    let p = prompt_with_state(
        PromptDto::ReplaceActiveAfterKo {
            bench_options: vec![2, 3],
        },
        state_with("me", me),
    );
    let c = bot.choose_prompt(&p, &mut r);
    assert_eq!(c.selected, vec![3]);
}

#[test]
fn refill_opp_turn_prefers_phantom_ready_dragapult_after_budew() {
    let mut bot = DragapultTakeuchiBot::new(CardFacts::new());
    let mut r = rng();
    let mut me = empty_player();
    me.bench = vec![
        in_play(2, "dreepy"),
        in_play_with_energy(3, "dragapult-ex", &["fire-energy", "psychic-energy"]),
    ];
    let p = prompt_with_state(
        PromptDto::ReplaceActiveAfterKo {
            bench_options: vec![2, 3],
        },
        state_with("opp", me),
    );
    let c = bot.choose_prompt(&p, &mut r);
    assert_eq!(
        c.selected,
        vec![3],
    );
}

#[test]
fn u2_basic_order_prefers_budew_over_duskull() {
    let mut bot = DragapultTakeuchiBot::new(CardFacts::new());
    let mut r = rng();
    let mut me = player_with_hand(&[(50, "duskull"), (51, "budew")]);
    me.active = Some(in_play(1, "drakloak"));
    let legal = vec![
        ActionDto::EndTurn,
        ActionDto::PlayCard {
            entity_id: EntityId(50),
            target: None,
        },
        ActionDto::PlayCard {
            entity_id: EntityId(51),
            target: None,
        },
    ];
    let a = bot
        .choose_action(&request_on_turn(me, legal, 3), &mut r)
        .expect("action");
    assert!(
        matches!(a, ActionDto::PlayCard { entity_id, .. } if entity_id == EntityId(51)),
    );
}

#[test]
fn v2_basic_order_prefers_duskull_over_budew() {
    let mut bot = DragapultTakeuchiBot::new(CardFacts::new());
    let mut r = rng();
    let mut me = player_with_hand(&[(50, "budew"), (51, "duskull")]);
    me.active = Some(in_play(1, "drakloak"));
    let legal = vec![
        ActionDto::EndTurn,
        ActionDto::PlayCard {
            entity_id: EntityId(50),
            target: None,
        },
        ActionDto::PlayCard {
            entity_id: EntityId(51),
            target: None,
        },
    ];
    let a = bot
        .choose_action(&request_on_turn(me, legal, 5), &mut r)
        .expect("action");
    assert!(
        matches!(a, ActionDto::PlayCard { entity_id, .. } if entity_id == EntityId(51)),
    );
}

#[test]
fn t1_attaches_psychic_to_active_dreepy() {
    let mut bot = DragapultTakeuchiBot::new(CardFacts::new());
    bot.am_i_first = Some(true);
    let mut r = rng();
    let mut me = player_with_hand(&[(200, "psychic-energy")]);
    me.active = Some(in_play(1, "dreepy"));
    me.bench = vec![in_play(2, "dreepy")];
    let mut s = state_with("me", me);
    s.turn = 1;
    let legal = vec![
        ActionDto::EndTurn,
        ActionDto::PlayCard {
            entity_id: EntityId(200),
            target: Some(ActionTarget::OwnActive),
        },
        ActionDto::PlayCard {
            entity_id: EntityId(200),
            target: Some(ActionTarget::OwnBench { index: 0 }),
        },
    ];
    let a = bot
        .choose_action(&request_with(s, legal), &mut r)
        .expect("action");
    assert!(
        matches!(
            a,
            ActionDto::PlayCard {
                target: Some(ActionTarget::OwnActive),
                ..
            }
        ),
    );
}

#[test]
fn plays_unfair_stamp_when_ko_last_turn() {
    let mut bot = DragapultTakeuchiBot::new(CardFacts::new());
    let mut r = rng();
    let mut me = player_with_hand(&[(90, "unfair-stamp")]);
    me.active = Some(in_play(1, "drakloak"));
    me.had_ko_last_turn = true;
    let legal = vec![
        ActionDto::EndTurn,
        ActionDto::PlayCard {
            entity_id: EntityId(90),
            target: None,
        },
    ];
    let a = bot
        .choose_action(&request_on_turn(me, legal, 5), &mut r)
        .expect("action");
    assert!(matches!(a, ActionDto::PlayCard { entity_id, .. } if entity_id == EntityId(90)));
}

#[test]
fn no_unfair_stamp_without_ko_last_turn() {
    let mut bot = DragapultTakeuchiBot::new(CardFacts::new());
    let mut r = rng();
    let mut me = player_with_hand(&[(90, "unfair-stamp")]);
    me.active = Some(in_play(1, "drakloak"));
    let legal = vec![
        ActionDto::EndTurn,
        ActionDto::PlayCard {
            entity_id: EntityId(90),
            target: None,
        },
    ];
    let a = bot
        .choose_action(&request_on_turn(me, legal, 5), &mut r)
        .expect("action");
    assert_eq!(a, ActionDto::EndTurn);
}

#[test]
fn plays_watchtower_when_meowth_used_and_opp_has_no_meowth() {
    let mut bot = DragapultTakeuchiBot::new(CardFacts::new());
    let mut r = rng();
    let mut me = player_with_hand(&[(91, "team-rocket-s-watchtower")]);
    me.active = Some(in_play(1, "drakloak"));
    me.bench = vec![in_play(2, "meowth-ex")];
    let legal = vec![
        ActionDto::EndTurn,
        ActionDto::PlayCard {
            entity_id: EntityId(91),
            target: None,
        },
    ];
    let a = bot
        .choose_action(&request_on_turn(me, legal, 5), &mut r)
        .expect("action");
    assert!(matches!(a, ActionDto::PlayCard { entity_id, .. } if entity_id == EntityId(91)));
}

#[test]
fn no_watchtower_when_opp_has_meowth() {
    let mut bot = DragapultTakeuchiBot::new(CardFacts::new());
    let mut r = rng();
    let mut me = player_with_hand(&[(91, "team-rocket-s-watchtower")]);
    me.active = Some(in_play(1, "drakloak"));
    me.bench = vec![in_play(2, "meowth-ex")];
    let mut s = state_with("me", me);
    s.turn = 5;
    s.opp.bench = vec![in_play(50, "meowth-ex")];
    let legal = vec![
        ActionDto::EndTurn,
        ActionDto::PlayCard {
            entity_id: EntityId(91),
            target: None,
        },
    ];
    let a = bot
        .choose_action(&request_with(s, legal), &mut r)
        .expect("action");
    assert_eq!(a, ActionDto::EndTurn);
}

#[test]
fn rare_candy_case1_targets_energized_dreepy() {
    let mut bot = DragapultTakeuchiBot::new(CardFacts::new());
    let mut r = rng();
    let mut me = player_with_hand(&[(70, "rare-candy"), (71, "dragapult-ex")]);
    me.active = Some(in_play(1, "drakloak"));
    me.bench = vec![in_play_with_energy(
        2,
        "dreepy",
        &["fire-energy", "psychic-energy"],
    )];
    let legal = vec![
        ActionDto::EndTurn,
        ActionDto::PlayCard {
            entity_id: EntityId(70),
            target: None,
        },
    ];
    let a = bot
        .choose_action(&request_on_turn(me, legal, 5), &mut r)
        .expect("action");
    assert!(
        matches!(a, ActionDto::PlayCard { entity_id, .. } if entity_id == EntityId(70)),
    );
    assert!(bot.pending_rare_candy);
    let p = prompt_with_state(PromptDto::ChooseTargetPokemon { targets: vec![2] }, {
        let mut me2 = empty_player();
        me2.active = Some(in_play(1, "drakloak"));
        me2.bench = vec![in_play_with_energy(
            2,
            "dreepy",
            &["fire-energy", "psychic-energy"],
        )];
        me2.hand = vec![EntityDto {
            entity_id: 71,
            card: Some("dragapult-ex".into()),
        }];
        state_with("me", me2)
    });
    let c = bot.choose_prompt(&p, &mut r);
    assert_eq!(c.selected, vec![2]);
}

#[test]
fn rare_candy_not_used_when_dragapult_already_in_play() {
    let mut bot = DragapultTakeuchiBot::new(CardFacts::new());
    let mut r = rng();
    let mut me = player_with_hand(&[(70, "rare-candy"), (71, "dragapult-ex")]);
    me.active = Some(in_play(1, "dragapult-ex"));
    me.bench = vec![in_play_with_energy(
        2,
        "dreepy",
        &["fire-energy", "psychic-energy"],
    )];
    let legal = vec![
        ActionDto::EndTurn,
        ActionDto::PlayCard {
            entity_id: EntityId(70),
            target: None,
        },
    ];
    let a = bot
        .choose_action(&request_on_turn(me, legal, 5), &mut r)
        .expect("action");
    assert_eq!(a, ActionDto::EndTurn);
}

#[test]
fn rare_candy_case2_targets_duskull() {
    let mut bot = DragapultTakeuchiBot::new(CardFacts::new());
    let mut r = rng();
    let mut me = player_with_hand(&[(70, "rare-candy"), (71, "dusknoir")]);
    me.active = Some(in_play(1, "drakloak"));
    me.bench = vec![in_play(2, "duskull")];
    let legal = vec![
        ActionDto::EndTurn,
        ActionDto::PlayCard {
            entity_id: EntityId(70),
            target: None,
        },
    ];
    let a = bot
        .choose_action(&request_on_turn(me, legal, 5), &mut r)
        .expect("action");
    assert!(matches!(a, ActionDto::PlayCard { entity_id, .. } if entity_id == EntityId(70)));
    let p = prompt_with_state(PromptDto::ChooseTargetPokemon { targets: vec![2] }, {
        let mut me2 = empty_player();
        me2.active = Some(in_play(1, "drakloak"));
        me2.bench = vec![in_play(2, "duskull")];
        me2.hand = vec![EntityDto {
            entity_id: 71,
            card: Some("dusknoir".into()),
        }];
        state_with("me", me2)
    });
    let c = bot.choose_prompt(&p, &mut r);
    assert_eq!(c.selected, vec![2]);
}

#[test]
fn crispin_attaches_missing_type_to_priority_target() {
    let mut bot = DragapultTakeuchiBot::new(CardFacts::new());
    bot.crispin_stage = CrispinStage::Idle;
    let mut r = rng();
    let mut me = empty_player();
    me.active = Some(in_play_with_energy(1, "dragapult-ex", &["fire-energy"]));
    me.bench = vec![in_play(2, "drakloak")];
    let state = state_with("me", me);

    bot.pending_search = Some("crispin".to_string());
    let opts_deck = vec![
        EntityDto {
            entity_id: 90,
            card: Some("fire-energy".into()),
        },
        EntityDto {
            entity_id: 91,
            card: Some("psychic-energy".into()),
        },
    ];
    let mut p1 = prompt_with_state(
        PromptDto::ChooseFromZone {
            zone: "deck".into(),
            options: opts_deck.clone(),
        },
        state.clone(),
    );
    p1.min = 0;
    p1.max = 2;
    let c1 = bot.choose_prompt(&p1, &mut r);
    assert_eq!(c1.selected.len(), 2);
    assert_eq!(bot.crispin_stage, CrispinStage::KeepInHand);

    let opts_hand = vec![
        EntityDto {
            entity_id: 90,
            card: Some("fire-energy".into()),
        },
        EntityDto {
            entity_id: 91,
            card: Some("psychic-energy".into()),
        },
    ];
    let mut me2 = empty_player();
    me2.active = Some(in_play_with_energy(1, "dragapult-ex", &["fire-energy"]));
    me2.bench = vec![in_play(2, "drakloak")];
    me2.hand = opts_hand.clone();
    let mut p2 = prompt_with_state(
        PromptDto::ChooseFromZone {
            zone: "deck".into(),
            options: opts_hand,
        },
        state_with("me", me2),
    );
    p2.min = 1;
    p2.max = 1;
    let c2 = bot.choose_prompt(&p2, &mut r);
    assert_eq!(c2.selected, vec![91]);
    assert_eq!(bot.crispin_stage, CrispinStage::AttachTarget);
    assert_eq!(
        bot.crispin_attach_target,
        Some(1),
    );

    let opts_mon = vec![
        EntityDto {
            entity_id: 1,
            card: Some("dragapult-ex".into()),
        },
        EntityDto {
            entity_id: 2,
            card: Some("drakloak".into()),
        },
    ];
    let p3 = prompt_with_state(
        PromptDto::ChooseFromZone {
            zone: "in_play".into(),
            options: opts_mon,
        },
        state,
    );
    let c3 = bot.choose_prompt(&p3, &mut r);
    assert_eq!(c3.selected, vec![1]);
    assert_eq!(bot.crispin_stage, CrispinStage::Idle);
}

#[test]
fn meowth_okunote_refill_when_no_usable_supporter() {
    let mut bot = DragapultTakeuchiBot::new(CardFacts::new());
    let mut r = rng();
    let mut me = player_with_hand(&[(85, "meowth-ex")]);
    me.active = Some(in_play(1, "drakloak"));
    let legal = vec![
        ActionDto::EndTurn,
        ActionDto::PlayCard {
            entity_id: EntityId(85),
            target: None,
        },
    ];
    let a = bot
        .choose_action(&request_on_turn(me, legal, 5), &mut r)
        .expect("action");
    assert!(
        matches!(a, ActionDto::PlayCard { entity_id, .. } if entity_id == EntityId(85)),
    );
    assert_eq!(bot.pending_search.as_deref(), Some("okunote"));
}

#[test]
fn supporter_refill_needed_logic() {
    let mut me = empty_player();
    me.active = Some(in_play(1, "drakloak"));
    me.prizes = prizes_of(6);
    assert!(supporter_refill_needed(&state_with("me", me.clone())));
    let mut me_l = me.clone();
    me_l.hand = vec![EntityDto {
        entity_id: 1,
        card: Some("lillie-s-determination".into()),
    }];
    assert!(!supporter_refill_needed(&state_with("me", me_l)));
    let mut me_b = me.clone();
    me_b.hand = vec![EntityDto {
        entity_id: 2,
        card: Some("boss-s-orders".into()),
    }];
    assert!(supporter_refill_needed(&state_with("me", me_b)));
}

#[test]
fn okunote_priority_crispin_when_dragapult_needs_energy() {
    let mut me = empty_player();
    me.active = Some(in_play(1, "dragapult-ex"));
    me.prizes = prizes_of(6);
    let pri = okunote_supporter_priority(&state_with("me", me));
    assert_eq!(pri.first(), Some(&"crispin"));
    let mut me2 = empty_player();
    me2.active = Some(in_play(1, "drakloak"));
    me2.prizes = prizes_of(6);
    let pri2 = okunote_supporter_priority(&state_with("me", me2));
    assert!(!pri2.contains(&"crispin"));
    assert_eq!(pri2.last(), Some(&"lillie-s-determination"));
}

#[test]
fn jamming_tower_overrides_watchtower_for_okunote_boss() {
    let mut bot = DragapultTakeuchiBot::new(CardFacts::new());
    let mut r = rng();
    let mut me = phantom_ready_me();
    me.hand = vec![
        EntityDto {
            entity_id: 85,
            card: Some("meowth-ex".into()),
        },
        EntityDto {
            entity_id: 86,
            card: Some("jamming-tower".into()),
        },
    ];
    let mut s = state_with("me", me);
    s.turn = 5;
    s.stadium = Some(EntityDto {
        entity_id: 70,
        card: Some("team-rocket-s-watchtower".into()),
    });
    let mut ex = in_play(40, "dragapult-ex");
    ex.hp_max = 200;
    s.opp.active = Some(ex);
    let legal = vec![
        ActionDto::EndTurn,
        ActionDto::PlayCard {
            entity_id: EntityId(85),
            target: None,
        },
        ActionDto::PlayCard {
            entity_id: EntityId(86),
            target: None,
        },
    ];
    let a = bot
        .choose_action(&request_with(s, legal), &mut r)
        .expect("action");
    assert!(
        matches!(a, ActionDto::PlayCard { entity_id, .. } if entity_id == EntityId(86)),
    );
}

#[test]
fn t1_okunote_refills_lillie_even_with_crispin_in_hand() {
    let mut bot = DragapultTakeuchiBot::new(CardFacts::new());
    let mut r = rng();
    let mut me = player_with_hand(&[(85, "meowth-ex"), (86, "crispin")]);
    me.active = Some(in_play(1, "drakloak"));
    let legal = vec![
        ActionDto::EndTurn,
        ActionDto::PlayCard {
            entity_id: EntityId(85),
            target: None,
        },
        ActionDto::PlayCard {
            entity_id: EntityId(86),
            target: None,
        },
    ];
    let a = bot
        .choose_action(&request_on_turn(me, legal, 1), &mut r)
        .expect("action");
    assert!(
        matches!(a, ActionDto::PlayCard { entity_id, .. } if entity_id == EntityId(85)),
    );
}

#[test]
fn t1_no_okunote_refill_when_lillie_in_hand() {
    let mut bot = DragapultTakeuchiBot::new(CardFacts::new());
    let mut r = rng();
    let mut me = player_with_hand(&[(85, "meowth-ex"), (87, "lillie-s-determination")]);
    me.active = Some(in_play(1, "drakloak"));
    let legal = vec![
        ActionDto::EndTurn,
        ActionDto::PlayCard {
            entity_id: EntityId(85),
            target: None,
        },
        ActionDto::PlayCard {
            entity_id: EntityId(87),
            target: None,
        },
    ];
    let a = bot
        .choose_action(&request_on_turn(me, legal, 1), &mut r)
        .expect("action");
    assert_eq!(
        a,
        ActionDto::EndTurn,
    );
}

#[test]
fn no_jamming_override_when_okunote_would_fetch_crispin() {
    let mut bot = DragapultTakeuchiBot::new(CardFacts::new());
    let mut r = rng();
    let mut me = empty_player();
    me.active = Some(in_play(1, "dragapult-ex"));
    me.hand = vec![
        EntityDto {
            entity_id: 85,
            card: Some("meowth-ex".into()),
        },
        EntityDto {
            entity_id: 86,
            card: Some("jamming-tower".into()),
        },
    ];
    me.prizes = prizes_of(6);
    let mut s = state_with("me", me);
    s.turn = 5;
    s.stadium = Some(EntityDto {
        entity_id: 70,
        card: Some("team-rocket-s-watchtower".into()),
    });
    let legal = vec![
        ActionDto::EndTurn,
        ActionDto::PlayCard {
            entity_id: EntityId(85),
            target: None,
        },
        ActionDto::PlayCard {
            entity_id: EntityId(86),
            target: None,
        },
    ];
    let a = bot
        .choose_action(&request_with(s, legal), &mut r)
        .expect("action");
    assert!(
        matches!(a, ActionDto::PlayCard { entity_id, .. } if entity_id == EntityId(85)),
    );
}

#[test]
fn crispin_stage_not_set_when_only_one_energy_fetched() {
    let mut bot = DragapultTakeuchiBot::new(CardFacts::new());
    bot.pending_search = Some("crispin".to_string());
    let mut r = rng();
    let opts = vec![EntityDto {
        entity_id: 90,
        card: Some("fire-energy".into()),
    }];
    let mut p = prompt_with_state(
        PromptDto::ChooseFromZone {
            zone: "deck".into(),
            options: opts,
        },
        state_with("me", empty_player()),
    );
    p.min = 0;
    p.max = 2;
    let c = bot.choose_prompt(&p, &mut r);
    assert_eq!(c.selected, vec![90]);
    assert_eq!(
        bot.crispin_stage,
        CrispinStage::Idle,
    );
}

#[test]
fn no_jamming_override_without_watchtower() {
    let mut bot = DragapultTakeuchiBot::new(CardFacts::new());
    let mut r = rng();
    let mut me = phantom_ready_me();
    me.hand = vec![
        EntityDto {
            entity_id: 85,
            card: Some("meowth-ex".into()),
        },
        EntityDto {
            entity_id: 86,
            card: Some("jamming-tower".into()),
        },
    ];
    let mut s = state_with("me", me);
    s.turn = 5;
    let mut ex = in_play(40, "dragapult-ex");
    ex.hp_max = 200;
    s.opp.active = Some(ex);
    let legal = vec![
        ActionDto::EndTurn,
        ActionDto::PlayCard {
            entity_id: EntityId(85),
            target: None,
        },
        ActionDto::PlayCard {
            entity_id: EntityId(86),
            target: None,
        },
    ];
    let a = bot
        .choose_action(&request_with(s, legal), &mut r)
        .expect("action");
    assert!(
        matches!(a, ActionDto::PlayCard { entity_id, .. } if entity_id == EntityId(85)),
    );
}

#[test]
fn no_recon_directive_falls_back() {
    let mut bot = DragapultTakeuchiBot::new(CardFacts::new());
    let mut r = rng();
    let me = PlayerView {
        active: Some(in_play(1, "budew")),
        ..empty_player()
    };
    let legal = vec![ActionDto::EndTurn];
    let req = request_with(state_with("me", me), legal);
    let a = bot.choose_action(&req, &mut r).expect("action");
    assert_eq!(a, ActionDto::EndTurn);
}

#[test]
fn dragapult_takeuchi_delegates_to_random_for_now() {
    let mut bot = DragapultTakeuchiBot::new(CardFacts::new());
    let legal = vec![ActionDto::EndTurn, ActionDto::Concede];
    let mut r = rng();
    let a = bot
        .choose_action(&dummy_request(legal.clone()), &mut r)
        .expect("legal");
    assert!(legal.contains(&a));
}
