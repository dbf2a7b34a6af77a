use ptcg_dragapult_bots::bots::dragapult_takeuchi::{distribute_damage_low_hp_first, pick_snipe_target, DragapultTakeuchiBot};
use ptcg_dragapult_bots::bots::dragapult_yopifutto::{pick_trash_targets, DragapultYopifuttoBot};
use ptcg_dragapult_bots::bots::random::random_action;
use ptcg_dragapult_bots::bots::{available, build, pick_from_zone};
use ptcg_dragapult_bots::cards::CardFacts;
use ptcg_dragapult_bots::wire::action::{ActionDto, ActionTarget, EntityId};
use ptcg_dragapult_bots::wire::protocol::{ClockSnapshot, PromptDto, PromptMsg, RequestMsg, WireClockOwner};
use ptcg_dragapult_bots::wire::state::{EntityDto, PlayerView, PokemonInPlayDto, StateDto};
use rand::SeedableRng;
use rand_chacha::ChaCha20Rng;

fn rng(seed: u8) -> ChaCha20Rng {
    ChaCha20Rng::from_seed([seed; 32])
}

fn player() -> PlayerView {
    PlayerView {
        active: None,
        bench: vec![],
        hand: vec![],
        deck_size: 60,
        discard: vec![],
        lost_zone: vec![],
        prizes: vec![],
        energy_attached_this_turn: false,
        supporter_played_this_turn: false,
        mulligan_count: 0,
        had_ko_last_turn: false,
    }
}

fn mon(entity_id: u32, slug: &str, hp_max: u16, damage: u16) -> PokemonInPlayDto {
    PokemonInPlayDto {
        entity_id,
        card: Some(slug.to_string()),
        stage: "basic".to_string(),
        evolution_stack: vec![],
        hp_max,
        damage,
        energy_attached: vec![],
        tool_attached: None,
        status_conditions: vec![],
        abilities_used_this_turn: vec![],
        is_terastallized: false,
        turn_in_play: 1,
    }
}

fn ent(entity_id: u32, card: &str) -> EntityDto {
    EntityDto { entity_id, card: Some(card.to_string()) }
}

fn clock() -> ClockSnapshot {
    ClockSnapshot {
        my_remaining_ms: 0,
        opp_remaining_ms: 0,
        running_for: WireClockOwner::Neither,
        my_deadline_unix_ms: None,
    }
}

fn state(me: PlayerView, opp: PlayerView, turn: u32) -> StateDto {
    StateDto {
        turn,
        phase: "main".to_string(),
        active_player: "me".to_string(),
        stadium: None,
        me,
        opp,
    }
}

fn prompt(kind: PromptDto, st: StateDto) -> PromptMsg {
    PromptMsg {
        request_id: "p".to_string(),
        parent_request_id: "r".to_string(),
        resent: false,
        kind,
        min: 0,
        max: 0,
        state: Some(st),
        shuffle_after: false,
        clock: clock(),
    }
}

fn opp_board() -> StateDto {
    let mut opp = player();
    opp.active = Some(mon(1, "dragapult-ex", 320, 0));
    opp.bench = vec![mon(2, "dreepy", 70, 0), mon(3, "drakloak", 90, 30), mon(4, "budew", 30, 0)];
    state(player(), opp, 3)
}

#[test]
fn distribution_places_the_total_within_the_cap() {
    let st = opp_board();
    for (total, cap) in [(6u8, Some(2u8)), (6, None), (13, Some(3)), (20, Some(4)), (3, Some(1))] {
        let p = prompt(
            PromptDto::DistributeDamage { eligible: vec![1, 2, 3, 4], total, per_target_max: cap },
            st.clone(),
        );
        let c = distribute_damage_low_hp_first(&p, &[1, 2, 3, 4], total, cap).expect("some");
        let limit = cap.unwrap_or(total);
        assert_eq!(c.selected.len(), c.counts.len());
        assert!(c.counts.iter().all(|&n| 1 <= n && n <= limit));
        let sum: u32 = c.counts.iter().map(|&n| n as u32).sum();
        assert_eq!(sum, (total as u32).min(limit as u32 * 4));
    }
}

#[test]
fn phantom_dive_keeps_to_the_cap_and_places_all() {
    let bot = DragapultYopifuttoBot::new(CardFacts::new().with_card("dragapult-ex", 2, &[]));
    let st = opp_board();
    for (total, cap) in [(6u8, Some(2u8)), (6, None), (13, Some(3)), (5, Some(1))] {
        let p = prompt(
            PromptDto::DistributeDamage { eligible: vec![1, 2, 3, 4], total, per_target_max: cap },
            st.clone(),
        );
        let c = bot.distribute_phantom_dive(&p, &[1, 2, 3, 4], total, cap).expect("some");
        let limit = cap.unwrap_or(total);
        assert_eq!(c.selected.len(), c.counts.len());
        assert!(c.counts.iter().all(|&n| 1 <= n && n <= limit), "{c:?}");
        let sum: u32 = c.counts.iter().map(|&n| n as u32).sum();
        assert_eq!(sum, (total as u32).min(limit as u32 * 4), "{c:?}");
    }
}

#[test]
fn deck_search_is_never_short_or_over() {
    let opts = vec![ent(1, "a"), ent(2, "b"), ent(3, "c"), ent(4, "a")];
    let c = pick_from_zone(&opts, &["a"], 3, 3);
    assert_eq!(c.selected, vec![1, 4, 2]);
    let c = pick_from_zone(&opts, &["z"], 2, 4);
    assert_eq!(c.selected, vec![1, 2]);
    let c = pick_from_zone(&opts, &["a", "b", "c"], 0, 2);
    assert_eq!(c.selected, vec![1, 4]);
    let c = pick_from_zone(&opts, &[], 9, 9);
    assert_eq!(c.selected, vec![1, 2, 3, 4]);
}

#[test]
fn available_names_all_build_and_others_do_not() {
    let reg = CardFacts::new();
    for name in available() {
        assert!(build(name, &reg).is_some());
    }
    for name in ["", "Random", "dragapult", "dragapult-takeuchi "] {
        assert!(build(name, &reg).is_none());
    }
}

fn requests() -> Vec<RequestMsg> {
    let mut me = player();
    me.active = Some(mon(10, "dreepy", 70, 0));
    me.bench = vec![mon(11, "drakloak", 90, 0), mon(12, "budew", 30, 0)];
    me.hand = vec![ent(20, "lillie"), ent(21, "ultra-ball"), ent(22, "psychic-energy")];
    let st = StateDto { active_player: "me".to_string(), ..opp_board() };
    let st = StateDto { me, ..st };
    let legal_sets = vec![
        vec![],
        vec![ActionDto::EndTurn],
        vec![ActionDto::Concede, ActionDto::EndTurn],
        vec![
            ActionDto::EndTurn,
            ActionDto::PlayCard { entity_id: EntityId(20), target: None },
            ActionDto::PlayCard { entity_id: EntityId(22), target: Some(ActionTarget::OwnActive) },
            ActionDto::UseAbility { entity_id: EntityId(11), ability_index: 0 },
            ActionDto::Retreat { to_bench_index: 1, energy_to_discard: vec![] },
            ActionDto::UseAttack { attack_index: 0 },
        ],
    ];
    let mut out = vec![];
    for (k, legal) in legal_sets.into_iter().enumerate() {
        out.push(RequestMsg {
            request_id: format!("r-{k}"),
            resent: false,
            state: StateDto { turn: k as u32 + 1, ..st.clone() },
            legal_actions: legal,
            clock: clock(),
        });
    }
    out
}

#[test]
fn every_bot_answers_with_a_legal_action() {
    for seed in 0..4u8 {
        for req in requests() {
            let mut r = rng(seed);
            let mut t = DragapultTakeuchiBot::new(CardFacts::new());
            let mut y = DragapultYopifuttoBot::new(CardFacts::new());
            let answers = vec![
                random_action(&req, &mut r),
                t.choose_action(&req, &mut r),
                y.choose_action(&req, &mut r),
            ];
            for a in answers {
                match a {
                    Ok(a) => assert!(req.legal_actions.contains(&a), "{a:?}"),
                    Err(_) => assert!(req.legal_actions.is_empty()),
                }
            }
        }
    }
}

fn remaining(st: &StateDto, id: u32) -> u32 {
    let opp = &st.opp;
    let m = opp.active.iter().chain(opp.bench.iter()).find(|m| m.entity_id == id).expect("opposing");
    m.hp_max.saturating_sub(m.damage) as u32
}

#[test]
fn distribution_goes_lowest_hp_first_and_needs_a_target() {
    let st = opp_board();
    for (total, cap) in [(6u8, None), (13, Some(3)), (3, Some(1)), (40, Some(10))] {
        let p = prompt(
            PromptDto::DistributeDamage { eligible: vec![1, 2, 3, 4], total, per_target_max: cap },
            st.clone(),
        );
        let c = distribute_damage_low_hp_first(&p, &[1, 2, 3, 4], total, cap).expect("some");
        for w in c.selected.windows(2) {
            assert!((remaining(&st, w[0]), w[0]) < (remaining(&st, w[1]), w[1]), "{c:?}");
        }
    }
    let p = prompt(
        PromptDto::DistributeDamage { eligible: vec![9], total: 6, per_target_max: None },
        st.clone(),
    );
    assert!(distribute_damage_low_hp_first(&p, &[9], 6, None).is_none());
    assert!(distribute_damage_low_hp_first(&p, &[1, 2], 0, None).is_none());
    assert!(distribute_damage_low_hp_first(&p, &[1, 2], 6, Some(0)).is_none());
}

#[test]
fn phantom_dive_targets_distinct_opposing_pokemon_and_knocks_out() {
    let bot = DragapultYopifuttoBot::new(CardFacts::new().with_card("dragapult-ex", 2, &[]));
    let st = opp_board();
    let p = prompt(
        PromptDto::DistributeDamage { eligible: vec![1, 2, 3, 4], total: 6, per_target_max: None },
        st.clone(),
    );
    let c = bot.distribute_phantom_dive(&p, &[1, 2, 3, 4], 6, None).expect("some");
    let mut ids = c.selected.clone();
    ids.sort();
    ids.dedup();
    assert_eq!(ids.len(), c.selected.len());
    assert!(c.selected.iter().all(|id| [1, 2, 3, 4].contains(id)));
    let at = c.selected.iter().position(|&id| id == 3).expect("drakloak is the knock-out pick");
    assert!(c.counts[at] >= 6, "{c:?}");
    assert!(bot.distribute_phantom_dive(&p, &[9], 6, None).is_none());
    assert!(bot.distribute_phantom_dive(&p, &[1, 2], 0, None).is_none());
    assert!(bot.distribute_phantom_dive(&p, &[1, 2], 6, Some(0)).is_none());
}

#[test]
fn snipe_target_is_offered_and_opposing() {
    let mut p = prompt(PromptDto::ChooseTargetPokemon { targets: vec![4, 2, 1, 99] }, opp_board());
    p.min = 1;
    p.max = 1;
    assert_eq!(pick_snipe_target(&p, &[4]), None);
    assert_eq!(pick_snipe_target(&p, &[99]), None);
    assert_eq!(pick_snipe_target(&p, &[4, 2]), Some(2));
    assert_eq!(pick_snipe_target(&p, &[4, 2, 1]), Some(1));
}

#[test]
fn ultra_ball_discard_is_legal() {
    let options = vec![
        ent(1, "drakloak"),
        ent(2, "budew"),
        ent(3, "fire-energy"),
        ent(4, "night-stretcher"),
        ent(5, "dreepy"),
    ];
    for seed in 0..8u8 {
        for count in 0..8usize {
            let r = pick_trash_targets(&options, count, &mut rng(seed));
            assert_eq!(r.len(), count.min(options.len()), "{r:?}");
            let mut ids = r.clone();
            ids.sort();
            ids.dedup();
            assert_eq!(ids.len(), r.len());
            assert!(r.iter().all(|id| (1..=5).contains(id)));
            if r.contains(&1) {
                assert!([2, 3, 4, 5].iter().all(|id| r.contains(id)), "{r:?}");
            }
        }
    }
}

#[test]
fn deck_search_takes_every_priority_option_below_max() {
    let opts = vec![ent(1, "c"), ent(2, "b"), ent(3, "a"), ent(4, "b"), ent(5, "d")];
    let c = pick_from_zone(&opts, &["b", "a"], 0, 5);
    for id in [2, 3, 4] {
        assert!(c.selected.contains(&id), "{:?}", c.selected);
    }
    assert!(!c.selected.contains(&1) && !c.selected.contains(&5));
    let c = pick_from_zone(&opts, &["b", "a"], 0, 2);
    assert_eq!(c.selected, vec![2, 4]);
}
