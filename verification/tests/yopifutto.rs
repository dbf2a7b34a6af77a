use ptcg_dragapult_bots::bots::dragapult_yopifutto::{DragapultYopifuttoBot, desired_fetch_priority, pick_trash_targets, poffin_fetch_priority, recon_priority};
use ptcg_dragapult_bots::cards::{CardFacts};
use ptcg_dragapult_bots::wire::action::{ActionDto, ActionTarget, EntityId};
use ptcg_dragapult_bots::wire::protocol::{ClockSnapshot, PromptDto, PromptMsg, RequestMsg, WireClockOwner};
use ptcg_dragapult_bots::wire::state::{EntityDto, PlayerView, PokemonInPlayDto, StateDto};
use rand::SeedableRng;
use rand_chacha::ChaCha20Rng;

#[allow(dead_code)]
fn rng() -> ChaCha20Rng {
    ChaCha20Rng::from_seed([7u8; 32])
}

#[allow(dead_code)]
fn empty_player() -> PlayerView {
    PlayerView {
        active: None,
        bench: vec![],
        hand: vec![],
        deck_size: 60,
        discard: vec![],
        lost_zone: vec![],
        prizes: vec![],
        energy_attached_this_turn: false,
        supporter_played_this_turn: false,
        mulligan_count: 0,
        had_ko_last_turn: false,
    }
}

#[allow(dead_code)]
fn player_with_hand(hand: &[(u32, &str)]) -> PlayerView {
    let mut pv = empty_player();
    pv.hand = hand
        .iter()
        .map(|(id, slug)| EntityDto {
            entity_id: *id,
            card: Some((*slug).to_string()),
        })
        .collect();
    pv
}

#[allow(dead_code)]
fn state_with(active_player: &str, me: PlayerView) -> StateDto {
    StateDto {
        turn: 0,
        phase: "setup".to_string(),
        active_player: active_player.to_string(),
        stadium: None,
        me,
        opp: empty_player(),
    }
}

#[allow(dead_code)]
fn prompt_with_state(kind: PromptDto, state: StateDto) -> PromptMsg {
    let mut p = dummy_prompt(kind);
    p.state = Some(state);
    p
}

#[allow(dead_code)]
fn in_play(entity_id: u32, slug: &str) -> PokemonInPlayDto {
    PokemonInPlayDto {
        entity_id,
        card: Some(slug.to_string()),
        stage: "basic".to_string(),
        evolution_stack: vec![],
        hp_max: 60,
        damage: 0,
        energy_attached: vec![],
        tool_attached: None,
        status_conditions: vec![],
        abilities_used_this_turn: vec![],
        is_terastallized: false,
        turn_in_play: 1,
    }
}

#[allow(dead_code)]
fn request_with(state: StateDto, legal: Vec<ActionDto>) -> RequestMsg {
    let mut req = dummy_request(legal);
    req.state = state;
    req
}

#[allow(dead_code)]
fn dummy_request(legal: Vec<ActionDto>) -> RequestMsg {
    RequestMsg {
        request_id: "r-1".to_string(),
        resent: false,
        state: StateDto {
            turn: 1,
            phase: "main".to_string(),
            active_player: "me".to_string(),
            stadium: None,
            me: empty_player(),
            opp: empty_player(),
        },
        legal_actions: legal,
        clock: clock(),
    }
}

#[allow(dead_code)]
fn dummy_prompt(kind: PromptDto) -> PromptMsg {
    PromptMsg {
        request_id: "p-1".to_string(),
        parent_request_id: "r-1".to_string(),
        resent: false,
        kind,
        min: 0,
        max: 0,
        state: None,
        shuffle_after: false,
        clock: clock(),
    }
}

#[allow(dead_code)]
fn clock() -> ClockSnapshot {
    ClockSnapshot {
        my_remaining_ms: 0,
        opp_remaining_ms: 0,
        running_for: WireClockOwner::Neither,
        my_deadline_unix_ms: None,
    }
}


#[test]
fn chooses_to_go_first() {
    let mut bot = DragapultYopifuttoBot::new(CardFacts::new());
    let mut r = rng();
    let choice = bot.choose_prompt(&dummy_prompt(PromptDto::ChooseFirstOrSecond), &mut r);
    assert_eq!(choice.yes, Some(true));
}

#[test]
fn places_nothing_on_bench_at_setup() {
    let mut bot = DragapultYopifuttoBot::new(CardFacts::new());
    let mut r = rng();
    let p = dummy_prompt(PromptDto::PlaceInitialBench {
        eligible: vec![10, 11, 12],
        bench_max: 5,
    });
    let choice = bot.choose_prompt(&p, &mut r);
    assert!(
        choice.selected.is_empty(),
    );
}

#[test]
fn first_turn_active_prefers_duskull() {
    let mut bot = DragapultYopifuttoBot::new(CardFacts::new());
    let mut r = rng();
    let me = player_with_hand(&[(10, "dreepy"), (11, "budew"), (12, "duskull")]);
    let p = prompt_with_state(
        PromptDto::ChooseInitialActive {
            eligible: vec![10, 11, 12],
        },
        state_with("me", me),
    );
    let choice = bot.choose_prompt(&p, &mut r);
    assert_eq!(choice.selected, vec![12]);
}

#[test]
fn dragapult_yopifutto_second_turn_active_prefers_budew() {
    let mut bot = DragapultYopifuttoBot::new(CardFacts::new());
    let mut r = rng();
    let me = player_with_hand(&[(20, "dreepy"), (21, "budew"), (22, "duskull")]);
    let p = prompt_with_state(
        PromptDto::ChooseInitialActive {
            eligible: vec![20, 21, 22],
        },
        state_with("opp", me),
    );
    let choice = bot.choose_prompt(&p, &mut r);
    assert_eq!(choice.selected, vec![21]);
}

#[test]
fn first_turn_falls_through_to_dreepy_without_duskull() {
    let mut bot = DragapultYopifuttoBot::new(CardFacts::new());
    let mut r = rng();
    let me = player_with_hand(&[(30, "budew"), (31, "dreepy"), (32, "meowth-ex")]);
    let p = prompt_with_state(
        PromptDto::ChooseInitialActive {
            eligible: vec![30, 31, 32],
        },
        state_with("me", me),
    );
    let choice = bot.choose_prompt(&p, &mut r);
    assert_eq!(
        choice.selected,
        vec![31],
    );
}

#[test]
fn dragapult_yopifutto_uses_recon_directive_above_all() {
    let mut bot = DragapultYopifuttoBot::new(CardFacts::new());
    let mut r = rng();
    let mut me = PlayerView {
        bench: vec![in_play(7, "drakloak")],
        ..empty_player()
    };
    me.active = Some(in_play(1, "dragapult-ex"));
    let legal = vec![
        ActionDto::EndTurn,
        ActionDto::UseAbility {
            entity_id: EntityId(7),
            ability_index: 0,
        },
    ];
    let req = request_with(state_with("me", me), legal);
    let a = bot.choose_action(&req, &mut r).expect("action");
    assert!(
        matches!(a, ActionDto::UseAbility { entity_id, .. } if entity_id == EntityId(7)),
    );
}

fn state_with_active_and_hand(
    active: (u32, &str),
    bench_extra: Vec<(u32, &str)>,
    hand: &[(u32, &str)],
) -> ptcg_dragapult_bots::wire::state::StateDto {
    let mut me = player_with_hand(hand);
    me.active = Some(in_play(active.0, active.1));
    me.bench = bench_extra
        .into_iter()
        .map(|(id, slug)| in_play(id, slug))
        .collect();
    state_with("me", me)
}

#[test]
fn dragapult_yopifutto_evolves_toward_dragapult_line() {
    let mut bot = DragapultYopifuttoBot::new(CardFacts::new());
    let mut r = rng();
    let state =
        state_with_active_and_hand((1, "budew"), vec![(2, "dreepy")], &[(50, "drakloak")]);
    let legal = vec![
        ActionDto::EndTurn,
        ActionDto::PlayCard {
            entity_id: EntityId(50),
            target: None,
        },
    ];
    let req = request_with(state, legal);
    let a = bot.choose_action(&req, &mut r).expect("action");
    assert!(matches!(a, ActionDto::PlayCard { entity_id, .. } if entity_id == EntityId(50)));
}

#[test]
fn blanket_evolution_excludes_dragapult_ex() {
    let mut bot = DragapultYopifuttoBot::new(CardFacts::new());
    let mut r = rng();
    let state = state_with_active_and_hand(
        (1, "drakloak"),
        vec![(2, "drakloak")],
        &[(60, "dragapult-ex")],
    );
    let legal = vec![
        ActionDto::EndTurn,
        ActionDto::PlayCard {
            entity_id: EntityId(60),
            target: None,
        },
    ];
    let req = request_with(state, legal);
    let a = bot.choose_action(&req, &mut r).expect("action");
    assert_eq!(a, ActionDto::EndTurn);
}

#[test]
fn rare_candy_duskull_to_dusknoir_when_dusknoir_in_hand() {
    let mut bot = DragapultYopifuttoBot::new(CardFacts::new());
    let mut r = rng();
    let state = state_with_active_and_hand(
        (1, "drakloak"),
        vec![(2, "duskull")],
        &[(70, "rare-candy"), (71, "dusknoir")],
    );
    let legal = vec![
        ActionDto::EndTurn,
        ActionDto::PlayCard {
            entity_id: EntityId(70),
            target: None,
        },
    ];
    let a = bot
        .choose_action(&request_with(state, legal), &mut r)
        .expect("action");
    assert!(
        matches!(a, ActionDto::PlayCard { entity_id, .. } if entity_id == EntityId(70)),
    );
    assert!(bot.pending_rare_candy);
    let st =
        state_with_active_and_hand((1, "drakloak"), vec![(2, "duskull")], &[(71, "dusknoir")]);
    let p = prompt_with_state(PromptDto::ChooseTargetPokemon { targets: vec![2] }, st);
    let c = bot.choose_prompt(&p, &mut r);
    assert_eq!(c.selected, vec![2]);
}

#[test]
fn no_rare_candy_without_dusknoir_in_hand() {
    let mut bot = DragapultYopifuttoBot::new(CardFacts::new());
    let mut r = rng();
    let state = state_with_active_and_hand(
        (1, "drakloak"),
        vec![(2, "duskull")],
        &[(70, "rare-candy")],
    );
    let legal = vec![
        ActionDto::EndTurn,
        ActionDto::PlayCard {
            entity_id: EntityId(70),
            target: None,
        },
    ];
    let a = bot
        .choose_action(&request_with(state, legal), &mut r)
        .expect("action");
    assert_eq!(a, ActionDto::EndTurn);
}

#[test]
fn dragapult_yopifutto_places_basic_dreepy_to_bench() {
    let mut bot = DragapultYopifuttoBot::new(CardFacts::new());
    let mut r = rng();
    let me = player_with_hand(&[(70, "dreepy")]);
    let state = state_with("me", me);
    let legal = vec![
        ActionDto::EndTurn,
        ActionDto::PlayCard {
            entity_id: EntityId(70),
            target: None,
        },
    ];
    let req = request_with(state, legal);
    let a = bot.choose_action(&req, &mut r).expect("action");
    assert!(matches!(a, ActionDto::PlayCard { entity_id, .. } if entity_id == EntityId(70)));
}

#[test]
fn plays_buddy_buddy_poffin_when_legal() {
    let mut bot = DragapultYopifuttoBot::new(CardFacts::new());
    let mut r = rng();
    let mut me = player_with_hand(&[(80, "buddy-buddy-poffin")]);
    me.active = Some(in_play(1, "budew"));
    let legal = vec![
        ActionDto::EndTurn,
        ActionDto::PlayCard {
            entity_id: EntityId(80),
            target: None,
        },
    ];
    let req = request_with(state_with("me", me), legal);
    let a = bot.choose_action(&req, &mut r).expect("action");
    assert!(
        matches!(a, ActionDto::PlayCard { entity_id, .. } if entity_id == EntityId(80)),
    );
}

#[test]
fn poffin_search_picks_dreepy_first() {
    let mut bot = DragapultYopifuttoBot::new(CardFacts::new());
    let mut r = rng();
    let mk = |id: u32, slug: &str| EntityDto {
        entity_id: id,
        card: Some(slug.to_string()),
    };
    let options = vec![
        mk(10, "duskull"),
        mk(11, "dreepy"),
        mk(12, "dreepy"),
        mk(13, "budew"),
    ];
    let mut p = dummy_prompt(PromptDto::ChooseFromZone {
        zone: "deck".to_string(),
        options,
    });
    p.min = 0;
    p.max = 2;
    let c = bot.choose_prompt(&p, &mut r);
    assert_eq!(c.selected, vec![11, 12]);
}

#[test]
fn plays_poke_pad_when_legal() {
    let mut bot = DragapultYopifuttoBot::new(CardFacts::new());
    let mut r = rng();
    let mut me = player_with_hand(&[(81, "poke-pad")]);
    me.active = Some(in_play(1, "budew"));
    let legal = vec![
        ActionDto::EndTurn,
        ActionDto::PlayCard {
            entity_id: EntityId(81),
            target: None,
        },
    ];
    let req = request_with(state_with("me", me), legal);
    let a = bot.choose_action(&req, &mut r).expect("action");
    assert!(
        matches!(a, ActionDto::PlayCard { entity_id, .. } if entity_id == EntityId(81)),
    );
}

#[test]
fn poke_pad_search_picks_drakloak_when_line_ready() {
    let mut bot = DragapultYopifuttoBot::new(CardFacts::new());
    let mut r = rng();
    let mut me = empty_player();
    me.active = Some(in_play(1, "dragapult-ex"));
    me.bench = vec![in_play(2, "dreepy"), in_play(3, "budew")];
    let mk = |id: u32, slug: &str| EntityDto {
        entity_id: id,
        card: Some(slug.to_string()),
    };
    let options = vec![mk(20, "dreepy"), mk(21, "drakloak"), mk(22, "budew")];
    let mut p = prompt_with_state(
        PromptDto::ChooseFromZone {
            zone: "deck".to_string(),
            options,
        },
        state_with("me", me),
    );
    p.min = 1;
    p.max = 1;
    let c = bot.choose_prompt(&p, &mut r);
    assert_eq!(c.selected, vec![21]);
}

#[test]
fn ultra_ball_trash_picks_low_value_and_spares_drakloak() {
    let mut bot = DragapultYopifuttoBot::new(CardFacts::new());
    let mut r = rng();
    let me = player_with_hand(&[
        (40, "night-stretcher"),
        (41, "fire-energy"),
        (42, "drakloak"),
        (43, "dreepy"),
    ]);
    let mk = |id: u32, slug: &str| EntityDto {
        entity_id: id,
        card: Some(slug.to_string()),
    };
    let options = vec![
        mk(40, "night-stretcher"),
        mk(41, "fire-energy"),
        mk(42, "drakloak"),
        mk(43, "dreepy"),
    ];
    let mut p = prompt_with_state(
        PromptDto::ChooseFromZone {
            zone: "deck".to_string(),
            options,
        },
        state_with("me", me),
    );
    p.min = 2;
    p.max = 2;
    let c = bot.choose_prompt(&p, &mut r);
    assert_eq!(
        c.selected,
        vec![40, 41],
    );
}

#[test]
fn trash_dup_pokemon_before_other_goods() {
    let mk = |id: u32, slug: &str| EntityDto {
        entity_id: id,
        card: Some(slug.to_string()),
    };
    let options = vec![
        mk(10, "dreepy"),
        mk(11, "dreepy"),
        mk(12, "buddy-buddy-poffin"),
        mk(13, "drakloak"),
    ];
    let mut r = rng();
    let sel = pick_trash_targets(&options, 1, &mut r);
    assert_eq!(sel.len(), 1);
    assert!(
        [10, 11].contains(&sel[0]),
    );
}

#[test]
fn skips_ultra_ball_when_drakloak_in_hand() {
    let mut bot = DragapultYopifuttoBot::new(CardFacts::new());
    let mut r = rng();
    let mut me = player_with_hand(&[
        (50, "ultra-ball"),
        (51, "drakloak"),
        (52, "fire-energy"),
        (53, "psychic-energy"),
    ]);
    me.active = Some(in_play(1, "budew"));
    let legal = vec![
        ActionDto::EndTurn,
        ActionDto::PlayCard {
            entity_id: EntityId(50),
            target: None,
        },
    ];
    let req = request_with(state_with("me", me), legal);
    let a = bot.choose_action(&req, &mut r).expect("action");
    assert_eq!(
        a,
        ActionDto::EndTurn,
    );
}

fn in_play_with_energy(entity_id: u32, slug: &str, energy: &[&str]) -> PokemonInPlayDto {
    let mut p = in_play(entity_id, slug);
    p.energy_attached = energy
        .iter()
        .enumerate()
        .map(|(i, s)| EntityDto {
            entity_id: 900 + u32::try_from(i).unwrap_or(0),
            card: Some((*s).to_string()),
        })
        .collect();
    p
}

#[test]
fn attaches_fire_first_to_bench_drakloak() {
    let mut bot = DragapultYopifuttoBot::new(CardFacts::new());
    let mut r = rng();
    let mut me = player_with_hand(&[(200, "fire-energy"), (201, "psychic-energy")]);
    me.active = Some(in_play(1, "budew"));
    me.bench = vec![in_play(2, "drakloak")];
    let legal = vec![
        ActionDto::EndTurn,
        ActionDto::PlayCard {
            entity_id: EntityId(201),
            target: Some(ActionTarget::OwnBench { index: 0 }),
        },
        ActionDto::PlayCard {
            entity_id: EntityId(200),
            target: Some(ActionTarget::OwnBench { index: 0 }),
        },
    ];
    let a = bot
        .choose_action(&request_with(state_with("me", me), legal), &mut r)
        .expect("action");
    assert!(
        matches!(a, ActionDto::PlayCard { entity_id, .. } if entity_id == EntityId(200)),
    );
}

#[test]
fn avoids_second_fire_overflow_on_drakloak() {
    let mut bot = DragapultYopifuttoBot::new(CardFacts::new());
    let mut r = rng();
    let mut me = player_with_hand(&[(200, "fire-energy"), (201, "psychic-energy")]);
    me.active = Some(in_play(1, "budew"));
    me.bench = vec![in_play_with_energy(2, "drakloak", &["fire-energy"])];
    let legal = vec![
        ActionDto::EndTurn,
        ActionDto::PlayCard {
            entity_id: EntityId(200),
            target: Some(ActionTarget::OwnBench { index: 0 }),
        },
        ActionDto::PlayCard {
            entity_id: EntityId(201),
            target: Some(ActionTarget::OwnBench { index: 0 }),
        },
    ];
    let a = bot
        .choose_action(&request_with(state_with("me", me), legal), &mut r)
        .expect("action");
    assert!(
        matches!(a, ActionDto::PlayCard { entity_id, .. } if entity_id == EntityId(201)),
    );
}

#[test]
fn skips_energy_when_drakloak_full_and_attaches_dreepy() {
    let mut bot = DragapultYopifuttoBot::new(CardFacts::new());
    let mut r = rng();
    let mut me = player_with_hand(&[(200, "fire-energy")]);
    me.active = Some(in_play(1, "budew"));
    me.bench = vec![
        in_play_with_energy(2, "drakloak", &["fire-energy", "psychic-energy"]),
        in_play(3, "dreepy"),
    ];
    let legal = vec![
        ActionDto::EndTurn,
        ActionDto::PlayCard {
            entity_id: EntityId(200),
            target: Some(ActionTarget::OwnBench { index: 1 }),
        },
    ];
    let a = bot
        .choose_action(&request_with(state_with("me", me), legal), &mut r)
        .expect("action");
    assert!(
        matches!(
            a,
            ActionDto::PlayCard {
                target: Some(ActionTarget::OwnBench { index: 1 }),
                ..
            }
        ),
    );
}

fn opp_state(active: Option<(u32, u16, u16)>, bench: &[(u32, u16, u16)]) -> StateDto {
    let mk = |(id, hp_max, dmg): (u32, u16, u16)| {
        let mut p = in_play(id, "dummy");
        p.hp_max = hp_max;
        p.damage = dmg;
        p
    };
    let mut opp = empty_player();
    opp.active = active.map(mk);
    opp.bench = bench.iter().copied().map(mk).collect();
    let mut s = state_with("me", empty_player());
    s.opp = opp;
    s
}

fn opp_bench_state(bench: &[(u32, &str, u16, u16)]) -> StateDto {
    let mut opp = empty_player();
    opp.bench = bench
        .iter()
        .map(|&(id, slug, hp_max, dmg)| {
            let mut p = in_play(id, slug);
            p.hp_max = hp_max;
            p.damage = dmg;
            p
        })
        .collect();
    let mut s = state_with("me", empty_player());
    s.opp = opp;
    s
}

#[test]
fn distribute_falls_to_three_each_for_unknown_slugs() {
    let bot = DragapultYopifuttoBot::new(CardFacts::new());
    let state = opp_state(None, &[(1, 30, 0), (2, 60, 0), (3, 200, 0)]);
    let p = prompt_with_state(
        PromptDto::DistributeDamage {
            eligible: vec![1, 2, 3],
            total: 6,
            per_target_max: None,
        },
        state,
    );
    let c = bot
        .distribute_phantom_dive(&p, &[1, 2, 3], 6, None)
        .expect("dist");
    let pairs: std::collections::HashMap<u32, u8> = c
        .selected
        .iter()
        .copied()
        .zip(c.counts.iter().copied())
        .collect();
    assert_eq!(pairs.get(&1), Some(&3));
    assert_eq!(pairs.get(&2), Some(&3));
    assert_eq!(pairs.get(&3), None);
    assert_eq!(c.counts.iter().sum::<u8>(), 6);
}

#[test]
fn dragapult_yopifutto_distribute_respects_per_target_max() {
    let bot = DragapultYopifuttoBot::new(CardFacts::new());
    let state = opp_state(None, &[(5, 200, 0)]);
    let p = prompt_with_state(
        PromptDto::DistributeDamage {
            eligible: vec![5],
            total: 6,
            per_target_max: Some(2),
        },
        state,
    );
    let c = bot
        .distribute_phantom_dive(&p, &[5], 6, Some(2))
        .expect("dist");
    assert_eq!(c.selected, vec![5]);
    assert_eq!(c.counts, vec![2]);
}

#[test]
fn distribute_kos_drakloak_then_spills_to_dreepy() {
    let bot = DragapultYopifuttoBot::new(CardFacts::new());
    let state = opp_bench_state(&[(1, "drakloak", 120, 90), (2, "dreepy", 60, 0)]);
    let p = prompt_with_state(
        PromptDto::DistributeDamage {
            eligible: vec![1, 2],
            total: 6,
            per_target_max: None,
        },
        state,
    );
    let c = bot
        .distribute_phantom_dive(&p, &[1, 2], 6, None)
        .expect("dist");
    let pairs: std::collections::HashMap<u32, u8> = c
        .selected
        .iter()
        .copied()
        .zip(c.counts.iter().copied())
        .collect();
    assert_eq!(pairs.get(&1), Some(&3));
    assert_eq!(pairs.get(&2), Some(&3));
}

#[test]
fn distribute_single_primary_target_places_all_counters() {
    let bot = DragapultYopifuttoBot::new(CardFacts::new());
    let state = opp_bench_state(&[(20, "fezandipiti-ex", 210, 0)]);
    let p = prompt_with_state(
        PromptDto::DistributeDamage {
            eligible: vec![20],
            total: 6,
            per_target_max: None,
        },
        state,
    );
    let c = bot
        .distribute_phantom_dive(&p, &[20], 6, None)
        .expect("dist");
    assert_eq!(
        c.counts.iter().sum::<u8>(),
        6,
    );
    assert_eq!(c.selected, vec![20]);
}

#[test]
fn distribute_one_on_kiki_when_no_ko() {
    let bot = DragapultYopifuttoBot::new(CardFacts::new());
    let state = opp_bench_state(&[(1, "fezandipiti-ex", 200, 0), (2, "dummy", 200, 0)]);
    let p = prompt_with_state(
        PromptDto::DistributeDamage {
            eligible: vec![1, 2],
            total: 6,
            per_target_max: None,
        },
        state,
    );
    let c = bot
        .distribute_phantom_dive(&p, &[1, 2], 6, None)
        .expect("dist");
    let pairs: std::collections::HashMap<u32, u8> = c
        .selected
        .iter()
        .copied()
        .zip(c.counts.iter().copied())
        .collect();
    assert_eq!(pairs.get(&1), Some(&1));
    assert_eq!(c.counts.iter().sum::<u8>(), 6);
}

#[test]
fn find_attack_returns_none_without_registry() {
    let bot = DragapultYopifuttoBot::new(CardFacts::new());
    let mut me = empty_player();
    me.active = Some(in_play(1, "dragapult-ex"));
    let state = state_with("me", me);
    let legal = vec![ActionDto::UseAttack { attack_index: 0 }, ActionDto::EndTurn];
    assert!(bot.find_attack(&state, &legal).is_none());
}

#[test]
fn plays_crispin_when_field_energy_low() {
    let mut bot = DragapultYopifuttoBot::new(CardFacts::new());
    let mut r = rng();
    let mut me = player_with_hand(&[(90, "crispin"), (91, "lillie-s-determination")]);
    me.active = Some(in_play(1, "drakloak"));
    let legal = vec![
        ActionDto::EndTurn,
        ActionDto::PlayCard {
            entity_id: EntityId(90),
            target: None,
        },
        ActionDto::PlayCard {
            entity_id: EntityId(91),
            target: None,
        },
    ];
    let a = bot
        .choose_action(&request_with(state_with("me", me), legal), &mut r)
        .expect("action");
    assert!(
        matches!(a, ActionDto::PlayCard { entity_id, .. } if entity_id == EntityId(90)),
    );
}

#[test]
fn skips_crispin_and_plays_lillie_when_field_energy_high_in_f_turn() {
    let mut bot = DragapultYopifuttoBot::new(CardFacts::new());
    let mut r = rng();
    let mut me = player_with_hand(&[(90, "crispin"), (91, "lillie-s-determination")]);
    me.active = Some(in_play_with_energy(
        1,
        "drakloak",
        &["fire-energy", "psychic-energy"],
    ));
    me.bench = vec![in_play_with_energy(2, "dreepy", &["fire-energy"])];
    let mut state = state_with("me", me);
    state.turn = 5;
    let legal = vec![
        ActionDto::EndTurn,
        ActionDto::PlayCard {
            entity_id: EntityId(90),
            target: None,
        },
        ActionDto::PlayCard {
            entity_id: EntityId(91),
            target: None,
        },
    ];
    let a = bot
        .choose_action(&request_with(state, legal), &mut r)
        .expect("action");
    assert!(
        matches!(a, ActionDto::PlayCard { entity_id, .. } if entity_id == EntityId(91)),
    );
}

#[test]
fn crispin_used_unconditionally_in_c_turn_even_with_high_energy() {
    let mut bot = DragapultYopifuttoBot::new(CardFacts::new());
    let mut r = rng();
    let mut me = player_with_hand(&[(90, "crispin"), (91, "lillie-s-determination")]);
    me.active = Some(in_play_with_energy(
        1,
        "drakloak",
        &["fire-energy", "psychic-energy"],
    ));
    me.bench = vec![in_play_with_energy(2, "dreepy", &["fire-energy"])];
    let mut state = state_with("me", me);
    state.turn = 3;
    let legal = vec![
        ActionDto::EndTurn,
        ActionDto::PlayCard {
            entity_id: EntityId(90),
            target: None,
        },
        ActionDto::PlayCard {
            entity_id: EntityId(91),
            target: None,
        },
    ];
    let a = bot
        .choose_action(&request_with(state, legal), &mut r)
        .expect("action");
    assert!(
        matches!(a, ActionDto::PlayCard { entity_id, .. } if entity_id == EntityId(90)),
    );
}

#[test]
fn crispin_not_used_in_b_turn() {
    let mut bot = DragapultYopifuttoBot::new(CardFacts::new());
    let mut r = rng();
    let mut me = player_with_hand(&[(90, "crispin"), (91, "lillie-s-determination")]);
    me.active = Some(in_play(1, "drakloak"));
    let mut state = state_with("me", me);
    state.turn = 1;
    let legal = vec![
        ActionDto::EndTurn,
        ActionDto::PlayCard {
            entity_id: EntityId(90),
            target: None,
        },
        ActionDto::PlayCard {
            entity_id: EntityId(91),
            target: None,
        },
    ];
    let a = bot
        .choose_action(&request_with(state, legal), &mut r)
        .expect("action");
    assert!(
        matches!(a, ActionDto::PlayCard { entity_id, .. } if entity_id == EntityId(91)),
    );
}

#[test]
fn lillie_kept_when_board_phantom_ready() {
    let mut bot = DragapultYopifuttoBot::new(CardFacts::new());
    let mut r = rng();
    let mut me = player_with_hand(&[(91, "lillie-s-determination")]);
    me.active = Some(in_play_with_energy(
        1,
        "dragapult-ex",
        &["fire-energy", "psychic-energy"],
    ));
    me.bench = vec![in_play(2, "drakloak"), in_play(3, "drakloak")];
    let legal = vec![
        ActionDto::EndTurn,
        ActionDto::PlayCard {
            entity_id: EntityId(91),
            target: None,
        },
    ];
    let a = bot
        .choose_action(&request_with(state_with("me", me), legal), &mut r)
        .expect("action");
    assert_eq!(a, ActionDto::EndTurn);
}

#[test]
fn crispin_energy_search_picks_both_types() {
    let mut bot = DragapultYopifuttoBot::new(CardFacts::new());
    let mut r = rng();
    let mk = |id: u32, slug: &str| EntityDto {
        entity_id: id,
        card: Some(slug.to_string()),
    };
    let options = vec![mk(60, "fire-energy"), mk(61, "psychic-energy")];
    let mut p = prompt_with_state(
        PromptDto::ChooseFromZone {
            zone: "deck".to_string(),
            options,
        },
        state_with("me", empty_player()),
    );
    p.min = 0;
    p.max = 2;
    let c = bot.choose_prompt(&p, &mut r);
    assert_eq!(c.selected.len(), 2);
    assert!(c.selected.contains(&60) && c.selected.contains(&61));
}

#[test]
fn retreats_to_budew_when_active_not_attacker() {
    let mut bot = DragapultYopifuttoBot::new(CardFacts::new());
    let mut r = rng();
    let mut me = empty_player();
    me.active = Some(in_play_with_energy(1, "duskull", &["psychic-energy"]));
    me.bench = vec![in_play(2, "dreepy"), in_play(3, "budew")];
    let legal = vec![
        ActionDto::EndTurn,
        ActionDto::Retreat {
            to_bench_index: 0,
            energy_to_discard: vec![EntityId(901)],
        },
        ActionDto::Retreat {
            to_bench_index: 1,
            energy_to_discard: vec![EntityId(901)],
        },
    ];
    let a = bot
        .choose_action(&request_with(state_with("me", me), legal), &mut r)
        .expect("action");
    assert!(
        matches!(
            a,
            ActionDto::Retreat {
                to_bench_index: 1,
                ..
            }
        ),
    );
}

#[test]
fn retreats_to_phantom_dragapult_over_budew() {
    let mut bot = DragapultYopifuttoBot::new(CardFacts::new());
    let mut r = rng();
    let mut me = empty_player();
    me.active = Some(in_play_with_energy(1, "drakloak", &["psychic-energy"]));
    me.bench = vec![
        in_play_with_energy(2, "dragapult-ex", &["fire-energy", "psychic-energy"]),
        in_play(3, "budew"),
    ];
    let legal = vec![
        ActionDto::EndTurn,
        ActionDto::Retreat {
            to_bench_index: 0,
            energy_to_discard: vec![EntityId(901)],
        },
        ActionDto::Retreat {
            to_bench_index: 1,
            energy_to_discard: vec![EntityId(901)],
        },
    ];
    let a = bot
        .choose_action(&request_with(state_with("me", me), legal), &mut r)
        .expect("action");
    assert!(
        matches!(
            a,
            ActionDto::Retreat {
                to_bench_index: 0,
                ..
            }
        ),
    );
}

#[test]
fn no_retreat_when_active_is_budew_and_no_ready_dragapult() {
    let mut bot = DragapultYopifuttoBot::new(CardFacts::new());
    let mut r = rng();
    let mut me = empty_player();
    me.active = Some(in_play(1, "budew"));
    me.bench = vec![in_play(2, "dreepy")];
    let legal = vec![
        ActionDto::EndTurn,
        ActionDto::Retreat {
            to_bench_index: 0,
            energy_to_discard: vec![],
        },
    ];
    let a = bot
        .choose_action(&request_with(state_with("me", me), legal), &mut r)
        .expect("action");
    assert_eq!(
        a,
        ActionDto::EndTurn,
    );
}

#[test]
fn budew_retreats_to_ready_dragapult_for_phantom_dive() {
    let mut bot = DragapultYopifuttoBot::new(CardFacts::new());
    let mut r = rng();
    let mut me = empty_player();
    me.active = Some(in_play(1, "budew"));
    me.bench = vec![in_play_with_energy(
        2,
        "dragapult-ex",
        &["fire-energy", "psychic-energy"],
    )];
    let legal = vec![
        ActionDto::EndTurn,
        ActionDto::Retreat {
            to_bench_index: 0,
            energy_to_discard: vec![],
        },
    ];
    let a = bot
        .choose_action(&request_with(state_with("me", me), legal), &mut r)
        .expect("action");
    assert!(
        matches!(
            a,
            ActionDto::Retreat {
                to_bench_index: 0,
                ..
            }
        ),
    );
}

#[test]
fn okunote_search_picks_lillie() {
    let mut bot = DragapultYopifuttoBot::new(CardFacts::new());
    let mut r = rng();
    let mk = |id: u32, slug: &str| EntityDto {
        entity_id: id,
        card: Some(slug.to_string()),
    };
    let options = vec![
        mk(70, "crispin"),
        mk(71, "lillie-s-determination"),
        mk(72, "boss-s-orders"),
    ];
    let mut p = prompt_with_state(
        PromptDto::ChooseFromZone {
            zone: "deck".to_string(),
            options,
        },
        state_with("me", empty_player()),
    );
    p.min = 1;
    p.max = 1;
    let c = bot.choose_prompt(&p, &mut r);
    assert_eq!(c.selected, vec![71]);
}

fn boss_setup(
    opp_active: Option<(u32, &str, u16)>,
    opp_bench: &[(u32, &str, u16)],
) -> StateDto {
    let mut me = player_with_hand(&[(97, "boss-s-orders")]);
    me.active = Some(in_play(1, "drakloak"));
    me.bench = vec![in_play_with_energy(
        2,
        "dragapult-ex",
        &["fire-energy", "psychic-energy"],
    )];
    me.prizes = (0..6)
        .map(|i| EntityDto {
            entity_id: 700 + i,
            card: None,
        })
        .collect();
    let mut state = state_with("me", me);
    let mut opp = empty_player();
    opp.active = opp_active.map(|(id, slug, hp)| {
        let mut p = in_play(id, slug);
        p.hp_max = hp;
        p
    });
    opp.bench = opp_bench
        .iter()
        .map(|&(id, slug, hp)| {
            let mut p = in_play(id, slug);
            p.hp_max = hp;
            p
        })
        .collect();
    state.opp = opp;
    state
}

fn boss_legal() -> Vec<ActionDto> {
    vec![
        ActionDto::EndTurn,
        ActionDto::PlayCard {
            entity_id: EntityId(97),
            target: None,
        },
    ]
}

#[test]
fn boss_fa13_calls_kiki_when_no_opp_dragapult() {
    let mut bot = DragapultYopifuttoBot::new(CardFacts::new());
    let mut r = rng();
    let state = boss_setup(None, &[(50, "fezandipiti-ex", 200)]);
    let a = bot
        .choose_action(&request_with(state, boss_legal()), &mut r)
        .expect("action");
    assert!(
        matches!(a, ActionDto::PlayCard { entity_id, .. } if entity_id == EntityId(97)),
    );
}

#[test]
fn boss_fa13_calls_single_drakloak() {
    let mut bot = DragapultYopifuttoBot::new(CardFacts::new());
    let mut r = rng();
    let state = boss_setup(Some((40, "snorlax-dummy", 300)), &[(50, "drakloak", 120)]);
    let a = bot
        .choose_action(&request_with(state, boss_legal()), &mut r)
        .expect("action");
    assert!(
        matches!(a, ActionDto::PlayCard { entity_id, .. } if entity_id == EntityId(97)),
    );
}

#[test]
fn boss_fa13_not_used_when_opp_has_dragapult() {
    let mut bot = DragapultYopifuttoBot::new(CardFacts::new());
    let mut r = rng();
    let state = boss_setup(
        Some((40, "dragapult-ex", 320)),
        &[(50, "fezandipiti-ex", 200)],
    );
    let a = bot
        .choose_action(&request_with(state, boss_legal()), &mut r)
        .expect("action");
    assert_eq!(a, ActionDto::EndTurn);
}

#[test]
fn boss_fa13_not_used_without_matching_target() {
    let mut bot = DragapultYopifuttoBot::new(CardFacts::new());
    let mut r = rng();
    let state = boss_setup(None, &[(50, "drakloak", 120), (51, "drakloak", 120)]);
    let a = bot
        .choose_action(&request_with(state, boss_legal()), &mut r)
        .expect("action");
    assert_eq!(a, ActionDto::EndTurn);
}

#[test]
fn choose_target_is_random_without_pending() {
    let mut bot = DragapultYopifuttoBot::new(CardFacts::new());
    let mut r = rng();
    let state = opp_state(None, &[(1, 200, 0), (2, 60, 0), (3, 120, 0)]);
    let p = prompt_with_state(
        PromptDto::ChooseTargetPokemon {
            targets: vec![1, 2, 3],
        },
        state,
    );
    let c = bot.choose_prompt(&p, &mut r);
    assert_eq!(c.selected.len(), 1);
    assert!([1, 2, 3].contains(&c.selected[0]));
}

#[test]
fn cursed_bomb_target_is_largest_hp_ex() {
    let mut bot = DragapultYopifuttoBot::new(registry_with_ex("opp-ex"));
    let mut r = rng();
    let mut me = empty_player();
    me.active = Some(in_play(1, "drakloak"));
    me.bench = vec![
        in_play(2, "dusknoir"),
        in_play_with_energy(3, "dragapult-ex", &["fire-energy", "psychic-energy"]),
    ];
    let mut state = state_with("me", me);
    let mut opp = empty_player();
    let mut ex_big = in_play(50, "opp-ex");
    ex_big.hp_max = 330;
    let mut ex_small = in_play(51, "opp-ex");
    ex_small.hp_max = 60;
    opp.active = Some(ex_big);
    opp.bench = vec![ex_small];
    opp.prizes = (0..6)
        .map(|i| EntityDto {
            entity_id: 800 + i,
            card: None,
        })
        .collect();
    state.opp = opp;
    let legal = vec![
        ActionDto::EndTurn,
        ActionDto::UseAbility {
            entity_id: EntityId(2),
            ability_index: 0,
        },
    ];
    let a = bot
        .choose_action(&request_with(state.clone(), legal), &mut r)
        .expect("action");
    assert!(matches!(a, ActionDto::UseAbility { entity_id, .. } if entity_id == EntityId(2)));
    let p = prompt_with_state(
        PromptDto::ChooseTargetPokemon {
            targets: vec![50, 51],
        },
        state,
    );
    let c = bot.choose_prompt(&p, &mut r);
    assert_eq!(c.selected, vec![50]);
}

fn registry_with_ex(slug: &str) -> CardFacts {
    CardFacts::new().with_card(slug, 2, &[])
}

#[test]
fn cursed_bomb_used_when_phantom_ready_and_opp_has_ex() {
    let mut bot = DragapultYopifuttoBot::new(registry_with_ex("opp-ex"));
    let mut r = rng();
    let mut me = empty_player();
    me.active = Some(in_play(1, "drakloak"));
    me.bench = vec![
        in_play(2, "dusknoir"),
        in_play_with_energy(3, "dragapult-ex", &["fire-energy", "psychic-energy"]),
    ];
    let mut state = state_with("me", me);
    let mut opp = empty_player();
    let mut ex = in_play(50, "opp-ex");
    ex.hp_max = 200;
    opp.active = Some(ex);
    opp.prizes = (0..6)
        .map(|i| EntityDto {
            entity_id: 800 + i,
            card: None,
        })
        .collect();
    state.opp = opp;
    let legal = vec![
        ActionDto::EndTurn,
        ActionDto::UseAbility {
            entity_id: EntityId(2),
            ability_index: 0,
        },
    ];
    let a = bot
        .choose_action(&request_with(state, legal), &mut r)
        .expect("action");
    assert!(
        matches!(a, ActionDto::UseAbility { entity_id, .. } if entity_id == EntityId(2)),
    );
}

#[test]
fn cursed_bomb_not_used_when_opp_prizes_le_1() {
    let mut bot = DragapultYopifuttoBot::new(registry_with_ex("opp-ex"));
    let mut r = rng();
    let mut me = empty_player();
    me.active = Some(in_play(1, "drakloak"));
    me.bench = vec![
        in_play(2, "dusknoir"),
        in_play_with_energy(3, "dragapult-ex", &["fire-energy", "psychic-energy"]),
    ];
    let mut state = state_with("me", me);
    let mut opp = empty_player();
    let mut ex = in_play(50, "opp-ex");
    ex.hp_max = 200;
    opp.active = Some(ex);
    opp.prizes = vec![EntityDto {
        entity_id: 800,
        card: None,
    }];
    state.opp = opp;
    let legal = vec![
        ActionDto::EndTurn,
        ActionDto::UseAbility {
            entity_id: EntityId(2),
            ability_index: 0,
        },
    ];
    let a = bot
        .choose_action(&request_with(state, legal), &mut r)
        .expect("action");
    assert_eq!(a, ActionDto::EndTurn);
}

#[test]
fn cursed_bomb_not_used_without_phantom_ready_dragapult() {
    let mut bot = DragapultYopifuttoBot::new(registry_with_ex("opp-ex"));
    let mut r = rng();
    let mut me = empty_player();
    me.active = Some(in_play(1, "drakloak"));
    me.bench = vec![in_play(2, "dusknoir")];
    let mut state = state_with("me", me);
    let mut opp = empty_player();
    let mut ex = in_play(50, "opp-ex");
    ex.hp_max = 200;
    opp.active = Some(ex);
    opp.prizes = (0..6)
        .map(|i| EntityDto {
            entity_id: 800 + i,
            card: None,
        })
        .collect();
    state.opp = opp;
    let legal = vec![
        ActionDto::EndTurn,
        ActionDto::UseAbility {
            entity_id: EntityId(2),
            ability_index: 0,
        },
    ];
    let a = bot
        .choose_action(&request_with(state, legal), &mut r)
        .expect("action");
    assert_eq!(
        a,
        ActionDto::EndTurn,
    );
}

#[test]
fn uses_take_advantage_when_legal() {
    let mut bot = DragapultYopifuttoBot::new(CardFacts::new());
    let mut r = rng();
    let mut me = empty_player();
    me.active = Some(in_play(1, "drakloak"));
    me.bench = vec![in_play(2, "fezandipiti-ex")];
    let legal = vec![
        ActionDto::EndTurn,
        ActionDto::UseAbility {
            entity_id: EntityId(2),
            ability_index: 0,
        },
    ];
    let a = bot
        .choose_action(&request_with(state_with("me", me), legal), &mut r)
        .expect("action");
    assert!(
        matches!(a, ActionDto::UseAbility { entity_id, .. } if entity_id == EntityId(2)),
    );
}

#[test]
fn benches_fezandipiti_after_ko() {
    let mut bot = DragapultYopifuttoBot::new(CardFacts::new());
    let mut r = rng();
    let mut me = player_with_hand(&[(98, "fezandipiti-ex")]);
    me.active = Some(in_play(1, "budew"));
    me.had_ko_last_turn = true;
    let legal = vec![
        ActionDto::EndTurn,
        ActionDto::PlayCard {
            entity_id: EntityId(98),
            target: None,
        },
    ];
    let a = bot
        .choose_action(&request_with(state_with("me", me), legal), &mut r)
        .expect("action");
    assert!(
        matches!(a, ActionDto::PlayCard { entity_id, .. } if entity_id == EntityId(98)),
    );
}

#[test]
fn no_fezandipiti_setup_without_ko() {
    let mut bot = DragapultYopifuttoBot::new(CardFacts::new());
    let mut r = rng();
    let mut me = player_with_hand(&[(98, "fezandipiti-ex")]);
    me.active = Some(in_play(1, "budew"));
    me.had_ko_last_turn = false;
    let legal = vec![
        ActionDto::EndTurn,
        ActionDto::PlayCard {
            entity_id: EntityId(98),
            target: None,
        },
    ];
    let a = bot
        .choose_action(&request_with(state_with("me", me), legal), &mut r)
        .expect("action");
    assert_eq!(
        a,
        ActionDto::EndTurn,
    );
}

fn me_bench_state(turn: u32, slugs: &[&str]) -> StateDto {
    let mut me = empty_player();
    me.bench = slugs
        .iter()
        .enumerate()
        .map(|(i, s)| in_play(u32::try_from(i).unwrap_or(0) + 1, s))
        .collect();
    let mut s = state_with("me", me);
    s.turn = turn;
    s
}

#[test]
fn poffin_targets_three_dreepy_in_later_turns() {
    let state = me_bench_state(3, &["dreepy", "dreepy", "budew"]);
    let pri = poffin_fetch_priority(&state);
    assert_eq!(
        pri.first(),
        Some(&"dreepy"),
    );
}

#[test]
fn poffin_targets_two_dreepy_in_first_turn() {
    let state = me_bench_state(1, &["dreepy", "dreepy", "budew"]);
    let pri = poffin_fetch_priority(&state);
    assert_eq!(pri.first(), Some(&"duskull"));
}

#[test]
fn pokepad_fetches_dusclops_in_later_turn_with_two_hand_drakloak() {
    let mut me = empty_player();
    me.bench = vec![
        in_play(1, "dreepy"),
        in_play(2, "dreepy"),
        in_play(3, "budew"),
        in_play(4, "duskull"),
    ];
    me.hand = vec![
        EntityDto {
            entity_id: 20,
            card: Some("drakloak".to_string()),
        },
        EntityDto {
            entity_id: 21,
            card: Some("drakloak".to_string()),
        },
    ];
    let mut state = state_with("me", me);
    state.turn = 3;
    let pri = desired_fetch_priority(&state);
    assert_eq!(
        pri.first(),
        Some(&"dusclops"),
    );
}

#[test]
fn evolves_charged_drakloak_into_dragapult_ex() {
    let mut bot = DragapultYopifuttoBot::new(CardFacts::new());
    let mut r = rng();
    let mut me = player_with_hand(&[(80, "dragapult-ex")]);
    me.active = Some(in_play(1, "budew"));
    me.bench = vec![in_play_with_energy(
        2,
        "drakloak",
        &["fire-energy", "psychic-energy"],
    )];
    let legal = vec![
        ActionDto::EndTurn,
        ActionDto::PlayCard {
            entity_id: EntityId(80),
            target: Some(ActionTarget::OwnBench { index: 0 }),
        },
    ];
    let a = bot
        .choose_action(&request_with(state_with("me", me), legal), &mut r)
        .expect("action");
    assert!(
        matches!(a, ActionDto::PlayCard { entity_id, target: Some(ActionTarget::OwnBench { index: 0 }) } if entity_id == EntityId(80)),
    );
}

#[test]
fn no_attacker_evolution_when_drakloak_not_charged() {
    let mut bot = DragapultYopifuttoBot::new(CardFacts::new());
    let mut r = rng();
    let mut me = player_with_hand(&[(80, "dragapult-ex")]);
    me.active = Some(in_play(1, "budew"));
    me.bench = vec![in_play_with_energy(2, "drakloak", &["fire-energy"])];
    let legal = vec![
        ActionDto::EndTurn,
        ActionDto::PlayCard {
            entity_id: EntityId(80),
            target: Some(ActionTarget::OwnBench { index: 0 }),
        },
    ];
    let a = bot
        .choose_action(&request_with(state_with("me", me), legal), &mut r)
        .expect("action");
    assert_eq!(a, ActionDto::EndTurn);
}

#[test]
fn fetch_prioritizes_dragapult_ex_when_charged_drakloak_waiting() {
    let mut me = empty_player();
    me.bench = vec![in_play_with_energy(
        1,
        "drakloak",
        &["fire-energy", "psychic-energy"],
    )];
    let state = state_with("me", me);
    let pri = desired_fetch_priority(&state);
    assert_eq!(
        pri.first(),
        Some(&"dragapult-ex"),
    );
}

#[test]
fn recon_priority_c_turn_many_pokemon_prefers_lillie() {
    let mut r = rng();
    let state = me_bench_state(3, &["dreepy", "drakloak", "duskull", "budew"]);
    let pri = recon_priority(&state, &mut r);
    assert_eq!(
        pri.first(),
        Some(&"lillie-s-determination"),
    );
    assert_eq!(pri.get(1), Some(&"crispin"));
}

#[test]
fn recon_priority_f_turn_many_pokemon_prefers_crispin() {
    let mut r = rng();
    let state = me_bench_state(5, &["dreepy", "drakloak", "duskull", "budew"]);
    let pri = recon_priority(&state, &mut r);
    assert_eq!(pri.first(), Some(&"crispin"));
    assert_eq!(pri.get(1), Some(&"ultra-ball"));
}

#[test]
fn recon_priority_few_pokemon_prefers_development_goods() {
    let mut r = rng();
    let state = me_bench_state(3, &["dreepy"]);
    let pri = recon_priority(&state, &mut r);
    assert_eq!(
        pri.first(),
        Some(&"buddy-buddy-poffin"),
    );
}

#[test]
fn recon_f_few_pokemon_basics_are_front_in_any_order() {
    let mut r = rng();
    let state = me_bench_state(5, &["dreepy"]);
    let pri = recon_priority(&state, &mut r);
    let front: std::collections::HashSet<&str> = pri.iter().take(3).copied().collect();
    assert!(
        front.contains("dreepy") && front.contains("duskull") && front.contains("budew"),
    );
    assert_eq!(
        pri.get(3),
        Some(&"buddy-buddy-poffin"),
    );
}

fn d_group_state(
    my_sides: u32,
    opp_active: Option<(u32, &str, u16)>,
    opp_bench: &[(u32, &str, u16)],
) -> StateDto {
    let mut me = player_with_hand(&[(97, "boss-s-orders")]);
    me.active = Some(in_play(1, "drakloak"));
    me.bench = vec![in_play_with_energy(
        2,
        "dragapult-ex",
        &["fire-energy", "psychic-energy"],
    )];
    me.prizes = (0..my_sides)
        .map(|i| EntityDto {
            entity_id: 700 + i,
            card: None,
        })
        .collect();
    let mut state = state_with("me", me);
    let mut opp = empty_player();
    let mk = |(id, slug, hp): (u32, &str, u16)| {
        let mut p = in_play(id, slug);
        p.hp_max = hp;
        p
    };
    opp.active = opp_active.map(mk);
    opp.bench = opp_bench.iter().copied().map(mk).collect();
    opp.prizes = (0..6)
        .map(|i| EntityDto {
            entity_id: 900 + i,
            card: None,
        })
        .collect();
    state.opp = opp;
    state
}

#[test]
fn d_group_sides2_bosses_ko_able_bench_ex() {
    let mut bot = DragapultYopifuttoBot::new(registry_with_ex("opp-ex"));
    let mut r = rng();
    let state = d_group_state(2, None, &[(50, "opp-ex", 200)]);
    let a = bot
        .choose_action(&request_with(state, boss_legal()), &mut r)
        .expect("action");
    assert!(
        matches!(a, ActionDto::PlayCard { entity_id, .. } if entity_id == EntityId(97)),
    );
}

#[test]
fn d_a_1_bosses_ex_and_plans_six_counter_kos() {
    let mut bot = DragapultYopifuttoBot::new(registry_with_ex("opp-ex"));
    let mut r = rng();
    let state = d_group_state(
        4,
        None,
        &[(50, "opp-ex", 200), (51, "dummy", 30), (52, "dummy", 30)],
    );
    let a = bot
        .choose_action(&request_with(state.clone(), boss_legal()), &mut r)
        .expect("action");
    assert!(
        matches!(a, ActionDto::PlayCard { entity_id, .. } if entity_id == EntityId(97)),
    );
    let p = prompt_with_state(
        PromptDto::DistributeDamage {
            eligible: vec![51, 52],
            total: 6,
            per_target_max: None,
        },
        state,
    );
    let c = bot.choose_prompt(&p, &mut r);
    let pairs: std::collections::HashMap<u32, u8> = c
        .selected
        .iter()
        .copied()
        .zip(c.counts.iter().copied())
        .collect();
    assert_eq!(pairs.get(&51), Some(&3));
    assert_eq!(pairs.get(&52), Some(&3));
}

#[test]
fn d_a_1_cursed_bombs_330_ex_first() {
    let mut bot = DragapultYopifuttoBot::new(registry_with_ex("opp-ex"));
    let mut r = rng();
    let mut state = d_group_state(
        4,
        None,
        &[(50, "opp-ex", 330), (51, "dummy", 30), (52, "dummy", 30)],
    );
    state.me.bench.push(in_play(3, "dusknoir"));
    let legal = vec![
        ActionDto::EndTurn,
        ActionDto::PlayCard {
            entity_id: EntityId(97),
            target: None,
        },
        ActionDto::UseAbility {
            entity_id: EntityId(3),
            ability_index: 0,
        },
    ];
    let a = bot
        .choose_action(&request_with(state, legal), &mut r)
        .expect("action");
    assert!(
        matches!(a, ActionDto::UseAbility { entity_id, .. } if entity_id == EntityId(3)),
    );
}

#[test]
fn d_a_1_falls_through_without_small_targets() {
    let mut bot = DragapultYopifuttoBot::new(registry_with_ex("opp-ex"));
    let mut r = rng();
    let state = d_group_state(4, None, &[(50, "opp-ex", 200), (51, "dummy", 200)]);
    let a = bot
        .choose_action(&request_with(state, boss_legal()), &mut r)
        .expect("action");
    assert_eq!(a, ActionDto::EndTurn);
}

#[test]
fn d_group_inactive_when_sides_high() {
    let mut bot = DragapultYopifuttoBot::new(registry_with_ex("opp-ex"));
    let mut r = rng();
    let state = d_group_state(5, None, &[(50, "opp-ex", 200)]);
    let a = bot
        .choose_action(&request_with(state, boss_legal()), &mut r)
        .expect("action");
    assert_eq!(a, ActionDto::EndTurn);
}

#[test]
fn d_group_sides2_bosses_non_ex_highest_hp() {
    let mut bot = DragapultYopifuttoBot::new(CardFacts::new());
    let mut r = rng();
    let state = d_group_state(2, None, &[(50, "dummy-a", 60), (51, "dummy-b", 200)]);
    let a = bot
        .choose_action(&request_with(state.clone(), boss_legal()), &mut r)
        .expect("action");
    assert!(
        matches!(a, ActionDto::PlayCard { entity_id, .. } if entity_id == EntityId(97)),
    );
    let p = prompt_with_state(
        PromptDto::ChooseTargetPokemon {
            targets: vec![50, 51],
        },
        state,
    );
    let c = bot.choose_prompt(&p, &mut r);
    assert_eq!(c.selected, vec![51]);
}

#[test]
fn d_group_sides3_ignores_non_ex() {
    let mut bot = DragapultYopifuttoBot::new(CardFacts::new());
    let mut r = rng();
    let state = d_group_state(3, None, &[(50, "dummy", 200)]);
    let a = bot
        .choose_action(&request_with(state, boss_legal()), &mut r)
        .expect("action");
    assert_eq!(a, ActionDto::EndTurn);
}

#[test]
fn special_red_card_skipped_after_unfair_stamp_this_turn() {
    let mut bot = DragapultYopifuttoBot::new(CardFacts::new());
    let mut r = rng();
    let mut me1 = player_with_hand(&[(99, "unfair-stamp"), (98, "special-red-card")]);
    me1.active = Some(in_play(1, "drakloak"));
    me1.had_ko_last_turn = true;
    let mut s1 = state_with("me", me1);
    s1.turn = 7;
    s1.opp.hand = (0..4)
        .map(|i| EntityDto {
            entity_id: 600 + i,
            card: None,
        })
        .collect();
    s1.opp.prizes = (0..3)
        .map(|i| EntityDto {
            entity_id: 900 + i,
            card: None,
        })
        .collect();
    let legal1 = vec![
        ActionDto::EndTurn,
        ActionDto::PlayCard {
            entity_id: EntityId(99),
            target: None,
        },
        ActionDto::PlayCard {
            entity_id: EntityId(98),
            target: None,
        },
    ];
    let a1 = bot
        .choose_action(&request_with(s1, legal1), &mut r)
        .expect("a1");
    assert!(
        matches!(a1, ActionDto::PlayCard { entity_id, .. } if entity_id == EntityId(99)),
    );
    let mut me2 = player_with_hand(&[(98, "special-red-card")]);
    me2.active = Some(in_play(1, "drakloak"));
    let mut s2 = state_with("me", me2);
    s2.turn = 7;
    s2.opp.prizes = (0..3)
        .map(|i| EntityDto {
            entity_id: 900 + i,
            card: None,
        })
        .collect();
    let legal2 = vec![
        ActionDto::EndTurn,
        ActionDto::PlayCard {
            entity_id: EntityId(98),
            target: None,
        },
    ];
    let a2 = bot
        .choose_action(&request_with(s2, legal2), &mut r)
        .expect("a2");
    assert_eq!(a2, ActionDto::EndTurn);
}

#[test]
fn d_group_meowth_refills_boss_when_no_boss_in_hand() {
    let mut bot = DragapultYopifuttoBot::new(registry_with_ex("opp-ex"));
    let mut r = rng();
    let mut state = d_group_state(3, None, &[(50, "opp-ex", 200), (51, "dummy", 30)]);
    state.me.hand = vec![EntityDto {
        entity_id: 98,
        card: Some("meowth-ex".to_string()),
    }];
    let legal = vec![
        ActionDto::EndTurn,
        ActionDto::PlayCard {
            entity_id: EntityId(98),
            target: None,
        },
    ];
    let a = bot
        .choose_action(&request_with(state, legal), &mut r)
        .expect("action");
    assert!(
        matches!(a, ActionDto::PlayCard { entity_id, .. } if entity_id == EntityId(98)),
    );
}

#[test]
fn energy_psychic_first_in_c_turn_non_budew_active() {
    let mut bot = DragapultYopifuttoBot::new(CardFacts::new());
    let mut r = rng();
    let mut me = player_with_hand(&[(200, "fire-energy"), (201, "psychic-energy")]);
    me.active = Some(in_play(1, "drakloak"));
    let mut state = state_with("me", me);
    state.turn = 3;
    let legal = vec![
        ActionDto::EndTurn,
        ActionDto::PlayCard {
            entity_id: EntityId(200),
            target: Some(ActionTarget::OwnActive),
        },
        ActionDto::PlayCard {
            entity_id: EntityId(201),
            target: Some(ActionTarget::OwnActive),
        },
    ];
    let a = bot
        .choose_action(&request_with(state, legal), &mut r)
        .expect("action");
    assert!(
        matches!(a, ActionDto::PlayCard { entity_id, .. } if entity_id == EntityId(201)),
    );
}

#[test]
fn energy_fire_first_in_f_turn() {
    let mut bot = DragapultYopifuttoBot::new(CardFacts::new());
    let mut r = rng();
    let mut me = player_with_hand(&[(200, "fire-energy"), (201, "psychic-energy")]);
    me.active = Some(in_play(1, "drakloak"));
    let mut state = state_with("me", me);
    state.turn = 5;
    let legal = vec![
        ActionDto::EndTurn,
        ActionDto::PlayCard {
            entity_id: EntityId(200),
            target: Some(ActionTarget::OwnActive),
        },
        ActionDto::PlayCard {
            entity_id: EntityId(201),
            target: Some(ActionTarget::OwnActive),
        },
    ];
    let a = bot
        .choose_action(&request_with(state, legal), &mut r)
        .expect("action");
    assert!(
        matches!(a, ActionDto::PlayCard { entity_id, .. } if entity_id == EntityId(200)),
    );
}

#[test]
fn plays_unfair_stamp_after_ko_with_big_opp_hand() {
    let mut bot = DragapultYopifuttoBot::new(CardFacts::new());
    let mut r = rng();
    let mut me = player_with_hand(&[(99, "unfair-stamp")]);
    me.active = Some(in_play(1, "drakloak"));
    me.had_ko_last_turn = true;
    let mut state = state_with("me", me);
    state.opp.hand = (0..4)
        .map(|i| EntityDto {
            entity_id: 600 + i,
            card: None,
        })
        .collect();
    let legal = vec![
        ActionDto::EndTurn,
        ActionDto::PlayCard {
            entity_id: EntityId(99),
            target: None,
        },
    ];
    let a = bot
        .choose_action(&request_with(state, legal), &mut r)
        .expect("action");
    assert!(
        matches!(a, ActionDto::PlayCard { entity_id, .. } if entity_id == EntityId(99)),
    );
}

#[test]
fn plays_special_red_card_when_opp_low_prizes_and_no_phantom() {
    let mut bot = DragapultYopifuttoBot::new(CardFacts::new());
    let mut r = rng();
    let mut me = player_with_hand(&[(99, "special-red-card")]);
    me.active = Some(in_play(1, "drakloak"));
    let mut state = state_with("me", me);
    state.opp.prizes = (0..3)
        .map(|i| EntityDto {
            entity_id: 900 + i,
            card: None,
        })
        .collect();
    let legal = vec![
        ActionDto::EndTurn,
        ActionDto::PlayCard {
            entity_id: EntityId(99),
            target: None,
        },
    ];
    let a = bot
        .choose_action(&request_with(state, legal), &mut r)
        .expect("action");
    assert!(
        matches!(a, ActionDto::PlayCard { entity_id, .. } if entity_id == EntityId(99)),
    );
}

#[test]
fn dragapult_yopifutto_delegates_to_random_for_now() {
    let mut bot = DragapultYopifuttoBot::new(CardFacts::new());
    let legal = vec![ActionDto::EndTurn, ActionDto::Concede];
    let mut r = rng();
    let a = bot
        .choose_action(&dummy_request(legal.clone()), &mut r)
        .expect("legal");
    assert!(legal.contains(&a));
}
