//! `DragapultYopifuttoBot`: the fixed strategy for the dragapult-ex deck (Yopifutto
//! persona).
//!
//! It shares the board-reading helpers with the Takeuchi persona and differs in its
//! priorities: it goes first when it wins the coin, keeps drakloak for the attacker, plays
//! out boss's orders by prizes left, and spreads Phantom Dive's counters by its own order.
//! Steps the persona leaves open are delegated to [`RandomPolicy`].

use vstd::prelude::*;

use crate::cards::{strs_view, CardFacts, FactView};
use crate::rng::draw_below;
use crate::transport::TransportError;
use crate::util::{
    card_is, card_is_exec, card_view, contains_u32, find_first, first_where, lemma_first_at,
    lemma_first_none, opt_int,
};
use crate::wire::action::{Action, ActionTarget};
use crate::wire::protocol::{PromptDto, PromptMsg, RequestMsg};
use crate::wire::state::{EntityDto, PokemonInPlayDto, StateDto};

use rand_chacha::ChaCha20Rng;

use super::board::{
    any_in_play, attach_by_priority, bench_target, charged, charged_spec, find_energy_attach_by,
    has_energy_spec, in_play, lemma_any_in_play, rem_hp, remaining_hp, retreats_to,
};
use super::dragapult_takeuchi::{
    dive_ready, first_attack, first_attack_exec, front_seq, uses_attack,
};
use super::{
    board_fits, count_in_hand, count_in_hand_spec, count_in_play, count_in_play_spec, find_ability,
    find_basic_placement, find_play, first_play_by_priority, mon_is, my_slug, my_turn_number, plays,
    turn_number, uses_ability_of, PromptChoice, RandomPolicy,
};

verus! {

// ============================================================================
// Board predicates
// ============================================================================

/// Some Pokémon of mine can use Phantom Dive.
pub open spec fn phantom_ready_spec(state: StateDto) -> bool {
    any_in_play(state.me, dive_ready())
}

/// Whether some Pokémon of mine can use Phantom Dive.
pub fn has_phantom_ready_dragapult(state: &StateDto) -> (r: bool)
    ensures
        r == phantom_ready_spec(*state),
{
    proof {
        lemma_any_in_play(state.me, dive_ready());
    }
    if let Some(a) = &state.me.active {
        if super::board::can_phantom_dive(a) {
            return true;
        }
    }
    let mut i: usize = 0;
    while i < state.me.bench.len()
        invariant
            i <= state.me.bench@.len(),
            forall|j: int| 0 <= j < i ==> !dive_ready()(#[trigger] state.me.bench@[j]),
        decreases state.me.bench.len() - i,
    {
        if super::board::can_phantom_dive(&state.me.bench[i]) {
            assert(dive_ready()(state.me.bench@[i as int]));
            return true;
        }
        i = i + 1;
    }
    false
}

/// The board is complete: Phantom Dive ready and two drakloak in play.
pub open spec fn board_ready_spec(state: StateDto) -> bool {
    phantom_ready_spec(state) && count_in_play_spec(state, "drakloak"@) >= 2
}

/// Whether the board is complete.
pub fn board_is_phantom_ready(state: &StateDto) -> (r: bool)
    requires
        board_fits(*state),
    ensures
        r == board_ready_spec(*state),
{
    has_phantom_ready_dragapult(state) && count_in_play(state, "drakloak") >= 2
}

/// Energy cards attached to the Pokémon of `s`.
pub open spec fn energy_sum(s: Seq<PokemonInPlayDto>) -> int
    decreases s.len(),
{
    if s.len() == 0 {
        0
    } else {
        energy_sum(s.drop_last()) + s.last().energy_attached@.len()
    }
}

/// Energy cards attached to my Pokémon in play (saturating at `usize::MAX`).
pub open spec fn field_energy_spec(state: StateDto) -> int {
    let t = energy_sum(in_play(state.me));
    if t > usize::MAX {
        usize::MAX as int
    } else {
        t
    }
}

/// Energy cards attached to my Pokémon in play.
pub fn field_energy_total(state: &StateDto) -> (r: usize)
    ensures
        r == field_energy_spec(*state),
{
    let ghost pre = front_seq(state.me.active);
    let mut total: usize = match &state.me.active {
        Some(a) => a.energy_attached.len(),
        None => 0,
    };
    proof {
        assert(pre + state.me.bench@.take(0) =~= pre);
        if pre.len() > 0 {
            assert(pre.drop_last() =~= Seq::<PokemonInPlayDto>::empty());
            assert(energy_sum(pre.drop_last()) == 0);
        }
    }
    let mut i: usize = 0;
    while i < state.me.bench.len()
        invariant
            i <= state.me.bench@.len(),
            total == (if energy_sum(pre + state.me.bench@.take(i as int)) > usize::MAX {
                usize::MAX as int
            } else {
                energy_sum(pre + state.me.bench@.take(i as int))
            }),
        decreases state.me.bench.len() - i,
    {
        proof {
            assert((pre + state.me.bench@.take(i + 1)).drop_last() =~= pre + state.me.bench@.take(
                i as int,
            ));
            assert((pre + state.me.bench@.take(i + 1)).last() == state.me.bench@[i as int]);
            lemma_energy_sum_nonneg(pre + state.me.bench@.take(i as int));
        }
        let n = state.me.bench[i].energy_attached.len();
        total = if total > usize::MAX - n {
            usize::MAX
        } else {
            total + n
        };
        i = i + 1;
    }
    proof {
        assert(state.me.bench@.take(i as int) =~= state.me.bench@);
        assert(pre + state.me.bench@ =~= in_play(state.me));
    }
    total
}

/// Energy sums are not negative.
pub proof fn lemma_energy_sum_nonneg(s: Seq<PokemonInPlayDto>)
    ensures
        energy_sum(s) >= 0,
    decreases s.len(),
{
    if s.len() > 0 {
        lemma_energy_sum_nonneg(s.drop_last());
    }
}

// ============================================================================
// Finding actions
// ============================================================================

/// Take Advantage: fezandipiti-ex's only activated ability (the engine allows it after a
/// knock-out), so any legal `UseAbility` of a fezandipiti-ex.
pub fn find_take_advantage(state: &StateDto, legal: &[Action]) -> (r: Option<usize>)
    ensures
        opt_int(r) == first_where(legal@, uses_ability_of(*state, "fezandipiti-ex"@)),
        r matches Some(k) ==> k < legal@.len(),
{
    find_ability(state, legal, "fezandipiti-ex")
}

/// Fezandipiti-ex onto the bench after one of mine was knocked out, when none is in play.
pub open spec fn fez_setup_spec(state: StateDto, legal: Seq<Action>) -> Option<int> {
    if !state.me.had_ko_last_turn || count_in_play_spec(state, "fezandipiti-ex"@) >= 1 {
        None
    } else {
        first_where(legal, plays(state, "fezandipiti-ex"@))
    }
}

/// Fezandipiti-ex onto the bench (see `fez_setup_spec`).
pub fn find_fezandipiti_setup(state: &StateDto, legal: &[Action]) -> (r: Option<usize>)
    requires
        board_fits(*state),
    ensures
        opt_int(r) == fez_setup_spec(*state, legal@),
        r matches Some(k) ==> k < legal@.len(),
{
    if !state.me.had_ko_last_turn || count_in_play(state, "fezandipiti-ex") >= 1 {
        return None;
    }
    find_play(state, legal, "fezandipiti-ex")
}

/// Goods in order: poffin, poke pad, ultra ball (kept while a drakloak is in hand).
pub open spec fn yopi_goods(state: StateDto) -> Seq<Seq<char>> {
    if count_in_hand_spec(state, "drakloak"@) >= 1 {
        seq!["buddy-buddy-poffin"@, "poke-pad"@]
    } else {
        seq!["buddy-buddy-poffin"@, "poke-pad"@, "ultra-ball"@]
    }
}

/// The first legal goods card in goods order.
pub fn find_goods_play(state: &StateDto, legal: &[Action]) -> (r: Option<usize>)
    ensures
        opt_int(r) == first_play_by_priority(*state, legal@, yopi_goods(*state)),
        r matches Some(k) ==> k < legal@.len(),
{
    if count_in_hand(state, "drakloak") >= 1 {
        let pri: &[&str] = &["buddy-buddy-poffin", "poke-pad"];
        assert(strs_view(pri@) =~= seq!["buddy-buddy-poffin"@, "poke-pad"@]);
        find_basic_placement(state, legal, pri)
    } else {
        let pri: &[&str] = &["buddy-buddy-poffin", "poke-pad", "ultra-ball"];
        assert(strs_view(pri@) =~= seq!["buddy-buddy-poffin"@, "poke-pad"@, "ultra-ball"@]);
        find_basic_placement(state, legal, pri)
    }
}

/// Charged drakloak (fire and psychic) as attachment targets: bench ones in order, then the
/// active one.
pub open spec fn charged_drakloak_targets(state: StateDto) -> Seq<ActionTarget> {
    targets_from(state.me.bench@, 0) + active_charged_target(state.me.active)
}

/// The active Pokémon as a target when it is a charged drakloak.
pub open spec fn active_charged_target(a: Option<PokemonInPlayDto>) -> Seq<ActionTarget> {
    match a {
        Some(x) => if charged_spec(x, "drakloak"@) {
            seq![ActionTarget::OwnActive]
        } else {
            Seq::empty()
        },
        None => Seq::empty(),
    }
}

/// Bench targets (by index) of the charged drakloak from bench index `i` on.
pub open spec fn targets_from(bench: Seq<PokemonInPlayDto>, i: int) -> Seq<ActionTarget>
    decreases bench.len() - i,
{
    if i < 0 || i >= bench.len() {
        Seq::empty()
    } else if charged_spec(bench[i], "drakloak"@) {
        seq![bench_target(i)] + targets_from(bench, i + 1)
    } else {
        targets_from(bench, i + 1)
    }
}

/// A legal evolution into dragapult-ex on `t`.
pub open spec fn evolves_on(state: StateDto, t: ActionTarget) -> spec_fn(Action) -> bool {
    |a: Action|
        match a {
            Action::PlayCard { entity_id, target: Some(tt) } => tt == t && my_slug(
                state,
                entity_id.0,
            ) == Some("dragapult-ex"@),
            _ => false,
        }
}

/// The first legal evolution into dragapult-ex onto one of the targets, in order.
pub open spec fn evolve_onto(state: StateDto, legal: Seq<Action>, ts: Seq<ActionTarget>) -> Option<int>
    decreases ts.len(),
{
    if ts.len() == 0 {
        None
    } else {
        match first_where(legal, evolves_on(state, ts[0])) {
            Some(i) => Some(i),
            None => evolve_onto(state, legal, ts.drop_first()),
        }
    }
}

/// The attacker: with no dragapult-ex in play, evolve a charged drakloak into one.
pub open spec fn attacker_evolution_spec(state: StateDto, legal: Seq<Action>) -> Option<int> {
    if count_in_play_spec(state, "dragapult-ex"@) >= 1 {
        None
    } else {
        evolve_onto(state, legal, charged_drakloak_targets(state))
    }
}

/// Index of the first legal evolution into dragapult-ex on `t`.
fn find_evolve_on(state: &StateDto, legal: &[Action], t: ActionTarget) -> (r: Option<usize>)
    ensures
        opt_int(r) == first_where(legal@, evolves_on(*state, t)),
        r matches Some(k) ==> k < legal@.len(),
{
    let mut j: usize = 0;
    while j < legal.len()
        invariant
            j <= legal@.len(),
            forall|q: int| 0 <= q < j ==> !evolves_on(*state, t)(#[trigger] legal@[q]),
        decreases legal.len() - j,
    {
        let hit = match &legal[j] {
            Action::PlayCard { entity_id, target: Some(tt) } => *tt == t && super::my_slug_is(
                state,
                entity_id.0,
                "dragapult-ex",
            ),
            _ => false,
        };
        if hit {
            proof {
                lemma_first_at(legal@, evolves_on(*state, t), j as int);
            }
            return Some(j);
        }
        j = j + 1;
    }
    proof {
        lemma_first_none(legal@, evolves_on(*state, t));
    }
    None
}

/// The attacker evolution (see `attacker_evolution_spec`).
pub fn find_attacker_evolution(state: &StateDto, legal: &[Action]) -> (r: Option<usize>)
    requires
        board_fits(*state),
    ensures
        opt_int(r) == attacker_evolution_spec(*state, legal@),
        r matches Some(k) ==> k < legal@.len(),
{
    if count_in_play(state, "dragapult-ex") >= 1 {
        return None;
    }
    let ghost bench = state.me.bench@;
    let ghost all = charged_drakloak_targets(*state);
    let ghost tail = active_charged_target(state.me.active);
    let mut i: usize = 0;
    while i < state.me.bench.len()
        invariant
            i <= bench.len(),
            bench == state.me.bench@,
            evolve_onto(*state, legal@, all) == evolve_onto(
                *state,
                legal@,
                targets_from(bench, i as int) + tail,
            ),
        decreases bench.len() - i,
    {
        if charged(&state.me.bench[i], "drakloak") {
            let idx: u8 = if i > 255 {
                255
            } else {
                i as u8
            };
            let t = ActionTarget::OwnBench { index: idx };
            assert(t == bench_target(i as int));
            proof {
                assert((targets_from(bench, i as int) + tail).drop_first() =~= targets_from(
                    bench,
                    i + 1,
                ) + tail);
                assert((targets_from(bench, i as int) + tail)[0] == t);
            }
            if let Some(k) = find_evolve_on(state, legal, t) {
                return Some(k);
            }
        } else {
            proof {
                assert(targets_from(bench, i as int) + tail =~= targets_from(bench, i + 1) + tail);
            }
        }
        i = i + 1;
    }
    proof {
        assert(targets_from(bench, i as int) + tail =~= tail);
        if tail.len() > 0 {
            assert(tail.drop_first() =~= Seq::<ActionTarget>::empty());
        }
        assert(evolve_onto(*state, legal@, Seq::<ActionTarget>::empty()) is None);
    }
    if let Some(a) = &state.me.active {
        if charged(a, "drakloak") {
            return find_evolve_on(state, legal, ActionTarget::OwnActive);
        }
    }
    None
}

} // verus!

verus! {

/// Energy targets of this persona: drakloak, then dragapult-ex, then dreepy.
pub open spec fn yopi_energy_pri() -> Seq<Seq<char>> {
    seq!["drakloak"@, "dragapult-ex"@, "dreepy"@]
}

/// Energy types in the order to try them: psychic first on my second turn with a non-budew
/// active Pokémon, else fire first.
pub open spec fn yopi_types(state: StateDto) -> Seq<Seq<char>> {
    let active_budew = state.me.active matches Some(a) && card_is(a.card, "budew"@);
    if turn_number(state) == 2 && !active_budew {
        seq!["psychic-energy"@, "fire-energy"@]
    } else {
        seq!["fire-energy"@, "psychic-energy"@]
    }
}

/// Energy attachment toward Phantom Dive (this persona's target and type order).
pub fn find_energy_attach(state: &StateDto, legal: &[Action]) -> (r: Option<usize>)
    ensures
        opt_int(r) == attach_by_priority(*state, legal@, yopi_energy_pri(), yopi_types(*state)),
        r matches Some(k) ==> k < legal@.len(),
{
    let active_budew = match &state.me.active {
        Some(a) => card_is_exec(&a.card, "budew"),
        None => false,
    };
    let pri: &[&str] = &["drakloak", "dragapult-ex", "dreepy"];
    assert(strs_view(pri@) =~= yopi_energy_pri());
    if my_turn_number(state) == 2 && !active_budew {
        let both: &'static [&'static str] = &["psychic-energy", "fire-energy"];
        assert(strs_view(both@) =~= yopi_types(*state));
        find_energy_attach_by(state, legal, pri, both)
    } else {
        let both: &'static [&'static str] = &["fire-energy", "psychic-energy"];
        assert(strs_view(both@) =~= yopi_types(*state));
        find_energy_attach_by(state, legal, pri, both)
    }
}

/// Disruption: unfair stamp after a knock-out of mine when the opponent holds 4 cards or
/// more; else special red card without Phantom Dive, with the opponent at 3 prizes or
/// fewer, when no unfair stamp was played this turn.
pub open spec fn yopi_disruption_spec(state: StateDto, legal: Seq<Action>, unfair_used: bool) -> Option<int> {
    let a = if state.me.had_ko_last_turn && state.opp.hand@.len() >= 4 {
        first_where(legal, plays(state, "unfair-stamp"@))
    } else {
        None
    };
    if a is Some {
        a
    } else if !phantom_ready_spec(state) && state.opp.prizes@.len() <= 3 && !unfair_used {
        first_where(legal, plays(state, "special-red-card"@))
    } else {
        None
    }
}

/// Disruption (see `yopi_disruption_spec`).
pub fn find_disruption(state: &StateDto, legal: &[Action], unfair_used: bool) -> (r: Option<usize>)
    ensures
        opt_int(r) == yopi_disruption_spec(*state, legal@, unfair_used),
        r matches Some(k) ==> k < legal@.len(),
{
    if state.me.had_ko_last_turn && state.opp.hand.len() >= 4 {
        if let Some(k) = find_play(state, legal, "unfair-stamp") {
            return Some(k);
        }
    }
    if !has_phantom_ready_dragapult(state) && state.opp.prizes.len() <= 3 && !unfair_used {
        return find_play(state, legal, "special-red-card");
    }
    None
}

/// The first bench index satisfying `f`, when it fits a byte.
pub open spec fn bench_index_u8(state: StateDto, f: spec_fn(PokemonInPlayDto) -> bool) -> Option<u8> {
    match first_where(state.me.bench@, f) {
        Some(i) => if i <= 255 {
            Some(i as u8)
        } else {
            None
        },
        None => None,
    }
}

/// A dragapult-ex with fire and psychic.
pub open spec fn charged_dragapult() -> spec_fn(PokemonInPlayDto) -> bool {
    |p: PokemonInPlayDto| charged_spec(p, "dragapult-ex"@)
}

/// Retreat: never from a dragapult-ex; from a budew only to a charged dragapult-ex on the
/// bench; from anything else to a charged dragapult-ex, else to a budew.
pub open spec fn yopi_retreat_spec(state: StateDto, legal: Seq<Action>) -> Option<int> {
    match state.me.active {
        None => None,
        Some(a) => match a.card {
            None => None,
            Some(c) => if c@ == "dragapult-ex"@ {
                None
            } else {
                let ready = bench_index_u8(state, charged_dragapult());
                let target = if c@ == "budew"@ {
                    ready
                } else if ready is Some {
                    ready
                } else {
                    bench_index_u8(state, mon_is("budew"@))
                };
                match target {
                    Some(t) => first_where(legal, retreats_to(t)),
                    None => None,
                }
            },
        },
    }
}

/// The first bench index of a charged dragapult-ex, when it fits a byte.
fn ready_index(state: &StateDto) -> (r: Option<u8>)
    ensures
        r == bench_index_u8(*state, charged_dragapult()),
{
    let mut i: usize = 0;
    while i < state.me.bench.len()
        invariant
            i <= state.me.bench@.len(),
            forall|j: int| 0 <= j < i ==> !charged_dragapult()(#[trigger] state.me.bench@[j]),
        decreases state.me.bench.len() - i,
    {
        if charged(&state.me.bench[i], "dragapult-ex") {
            proof {
                lemma_first_at(state.me.bench@, charged_dragapult(), i as int);
            }
            return if i <= 255 {
                Some(i as u8)
            } else {
                None
            };
        }
        i = i + 1;
    }
    proof {
        lemma_first_none(state.me.bench@, charged_dragapult());
    }
    None
}

/// Retreat (see `yopi_retreat_spec`).
pub fn find_retreat(state: &StateDto, legal: &[Action]) -> (r: Option<usize>)
    ensures
        opt_int(r) == yopi_retreat_spec(*state, legal@),
        r matches Some(k) ==> k < legal@.len(),
{
    let active = match &state.me.active {
        Some(a) => a,
        None => return None,
    };
    let slug = match &active.card {
        Some(c) => c,
        None => return None,
    };
    if super::string_is(slug, "dragapult-ex") {
        return None;
    }
    let ready = ready_index(state);
    let target = if super::string_is(slug, "budew") {
        ready
    } else if ready.is_some() {
        ready
    } else {
        match super::dragapult_takeuchi::first_bench_of(state, "budew") {
            Some(i) => if i <= 255 {
                Some(i as u8)
            } else {
                None
            },
            None => None,
        }
    };
    match target {
        Some(t) => super::board::retreat_to(legal, t as usize),
        None => None,
    }
}

/// The supporter: crispin when allowed by the turn (never on my first turn, always on my
/// second, later with fewer than 3 energies in play); else lillie unless the board is
/// complete.
pub open spec fn supporter_spec(state: StateDto, legal: Seq<Action>) -> Option<int> {
    let use_crispin = if turn_number(state) == 1 {
        false
    } else if turn_number(state) == 2 {
        true
    } else {
        field_energy_spec(state) < 3
    };
    let c = if use_crispin {
        first_where(legal, plays(state, "crispin"@))
    } else {
        None
    };
    if c is Some {
        c
    } else if !board_ready_spec(state) {
        first_where(legal, plays(state, "lillie-s-determination"@))
    } else {
        None
    }
}

/// Lillie's determination is kept back only on a complete board: with fewer than two
/// drakloak of mine in play and no crispin to play, a legal lillie's determination is the
/// supporter played (the first such action).
pub proof fn law_lillie_until_two_drakloak(state: StateDto, legal: Seq<Action>)
    requires
        count_in_play_spec(state, "drakloak"@) < 2,
        forall|i: int| 0 <= i < legal.len() ==> !#[trigger] plays(state, "crispin"@)(legal[i]),
        exists|i: int| 0 <= i < legal.len() && #[trigger] plays(state, "lillie-s-determination"@)(legal[i]),
    ensures
        supporter_spec(state, legal) matches Some(k) && 0 <= k < legal.len() && plays(
            state,
            "lillie-s-determination"@,
        )(legal[k]) && forall|j: int|
            0 <= j < k ==> !#[trigger] plays(state, "lillie-s-determination"@)(legal[j]),
{
    crate::util::lemma_first_where(legal, plays(state, "crispin"@));
    crate::util::lemma_first_where(legal, plays(state, "lillie-s-determination"@));
}

/// The supporter (see `supporter_spec`).
pub fn find_supporter(state: &StateDto, legal: &[Action]) -> (r: Option<usize>)
    requires
        board_fits(*state),
    ensures
        opt_int(r) == supporter_spec(*state, legal@),
        r matches Some(k) ==> k < legal@.len(),
{
    let n = my_turn_number(state);
    let use_crispin = if n == 1 {
        false
    } else if n == 2 {
        true
    } else {
        field_energy_total(state) < 3
    };
    if use_crispin {
        if let Some(k) = find_play(state, legal, "crispin") {
            return Some(k);
        }
    }
    if !board_is_phantom_ready(state) {
        return find_play(state, legal, "lillie-s-determination");
    }
    None
}

} // verus!

verus! {

// ============================================================================
// Deck search priorities
// ============================================================================

/// Appends the names of `w` to `v`.
fn push_all(v: &mut Vec<&'static str>, w: &[&'static str])
    ensures
        final(v)@ == old(v)@ + w@,
{
    let ghost v0 = v@;
    let mut i: usize = 0;
    while i < w.len()
        invariant
            i <= w@.len(),
            v@ == v0 + w@.take(i as int),
        decreases w.len() - i,
    {
        v.push(w[i]);
        proof {
            assert(w@.take(i + 1) =~= w@.take(i as int).push(w@[i as int]));
            assert(v0 + w@.take(i + 1) =~= (v0 + w@.take(i as int)).push(w@[i as int]));
        }
        i = i + 1;
    }
    proof {
        assert(w@.take(i as int) =~= w@);
    }
}

/// Number of my Pokémon in play.
pub open spec fn field_count(state: StateDto) -> int {
    (if state.me.active is Some {
        1int
    } else {
        0int
    }) + state.me.bench@.len()
}

/// Recon directive, few Pokémon in play (two or fewer): on my third turn on the basics in a
/// random order; poffin, poke pad, lillie; drakloak (and on my third turn on dragapult-ex)
/// when a dreepy is in play; unfair stamp; on my third turn on special red card; crispin and
/// boss's orders in a random order.
pub open spec fn recon_small_ok(state: StateDto, r: Seq<Seq<char>>) -> bool {
    let is_f = turn_number(state) >= 3;
    let evo = count_in_play_spec(state, "dreepy"@) >= 1;
    let a: int = if is_f {
        3
    } else {
        0
    };
    let mid: Seq<Seq<char>> = seq!["buddy-buddy-poffin"@, "poke-pad"@, "lillie-s-determination"@]
        + (if evo {
        if is_f {
            seq!["drakloak"@, "dragapult-ex"@]
        } else {
            seq!["drakloak"@]
        }
    } else {
        Seq::empty()
    }) + seq!["unfair-stamp"@] + (if is_f {
        seq!["special-red-card"@]
    } else {
        Seq::empty()
    });
    &&& r.len() == a + mid.len() + 2
    &&& (is_f ==> crate::rng::reorders(r.take(3), seq!["dreepy"@, "duskull"@, "budew"@]))
    &&& r.subrange(a, a + mid.len()) == mid
    &&& crate::rng::reorders(r.skip(a + mid.len()), seq!["crispin"@, "boss-s-orders"@])
}

/// Recon directive, third turn on with more than two Pokémon in play.
pub open spec fn recon_f() -> Seq<Seq<char>> {
    seq![
        "crispin"@,
        "ultra-ball"@,
        "lillie-s-determination"@,
        "poke-pad"@,
        "drakloak"@,
        "dragapult-ex"@,
        "psychic-energy"@,
        "fire-energy"@,
    ]
}

/// Recon directive, earlier turns with more than two Pokémon in play.
pub open spec fn recon_c() -> Seq<Seq<char>> {
    seq![
        "lillie-s-determination"@,
        "crispin"@,
        "poke-pad"@,
        "drakloak"@,
        "dragapult-ex"@,
        "psychic-energy"@,
        "fire-energy"@,
    ]
}

/// The card to keep from the recon directive, by number of Pokémon in play and turn.
pub open spec fn recon_ok(state: StateDto, r: Seq<Seq<char>>) -> bool {
    if field_count(state) <= 2 {
        recon_small_ok(state, r)
    } else if turn_number(state) >= 3 {
        r == recon_f()
    } else {
        r == recon_c()
    }
}

/// The card to keep from the recon directive (see `recon_ok`).
pub fn recon_priority(state: &StateDto, rng: &mut ChaCha20Rng) -> (r: Vec<&'static str>)
    requires
        board_fits(*state),
    ensures
        recon_ok(*state, strs_view(r@)),
{
    let field: usize = (if state.me.active.is_some() {
        1usize
    } else {
        0usize
    }) + state.me.bench.len();
    let is_f = my_turn_number(state) >= 3;
    let evo = count_in_play(state, "dreepy") >= 1;
    let mut pri: Vec<&'static str> = Vec::new();
    if field <= 2 {
        let basics: &[&'static str] = &["dreepy", "duskull", "budew"];
        if is_f {
            let sh = super::shuffle_strs(basics, rng);
            proof {
                super::lemma_reorders_view(sh@, basics@);
                assert(strs_view(basics@) =~= seq!["dreepy"@, "duskull"@, "budew"@]);
            }
            push_all(&mut pri, sh.as_slice());
        }
        let ghost first = pri@;
        let m1: &[&'static str] = &["buddy-buddy-poffin", "poke-pad", "lillie-s-determination"];
        push_all(&mut pri, m1);
        if evo {
            pri.push("drakloak");
            if is_f {
                pri.push("dragapult-ex");
            }
        }
        pri.push("unfair-stamp");
        if is_f {
            pri.push("special-red-card");
        }
        let ghost mid = pri@.skip(first.len() as int);
        let pair: &[&'static str] = &["crispin", "boss-s-orders"];
        let tail = super::shuffle_strs(pair, rng);
        proof {
            super::lemma_reorders_view(tail@, pair@);
            assert(strs_view(pair@) =~= seq!["crispin"@, "boss-s-orders"@]);
        }
        let ghost before_tail = pri@;
        push_all(&mut pri, tail.as_slice());
        proof {
            let a: int = if is_f {
                3
            } else {
                0
            };
            assert(first.len() == a);
            let midv: Seq<Seq<char>> = seq!["buddy-buddy-poffin"@, "poke-pad"@, "lillie-s-determination"@]
                + (if evo {
                if is_f {
                    seq!["drakloak"@, "dragapult-ex"@]
                } else {
                    seq!["drakloak"@]
                }
            } else {
                Seq::empty()
            }) + seq!["unfair-stamp"@] + (if is_f {
                seq!["special-red-card"@]
            } else {
                Seq::empty()
            });
            assert(strs_view(before_tail).skip(a) =~= midv);
            assert(strs_view(pri@).take(a) =~= strs_view(first));
            assert(strs_view(pri@).subrange(a, a + midv.len()) =~= midv);
            assert(strs_view(pri@).skip(a + midv.len()) =~= strs_view(tail@));
            if is_f {
                assert(strs_view(pri@).take(3) =~= strs_view(first));
            }
        }
    } else if is_f {
        let f: &[&'static str] = &[
            "crispin",
            "ultra-ball",
            "lillie-s-determination",
            "poke-pad",
            "drakloak",
            "dragapult-ex",
            "psychic-energy",
            "fire-energy",
        ];
        push_all(&mut pri, f);
        assert(strs_view(pri@) =~= recon_f());
    } else {
        let c: &[&'static str] = &[
            "lillie-s-determination",
            "crispin",
            "poke-pad",
            "drakloak",
            "dragapult-ex",
            "psychic-energy",
            "fire-energy",
        ];
        push_all(&mut pri, c);
        assert(strs_view(pri@) =~= recon_c());
    }
    pri
}

/// Poffin: dreepy until the dragapult line reaches its target (2 on my first turn, 3
/// later), budew when none is in play, then duskull, budew, dreepy.
pub open spec fn yopi_poffin_spec(state: StateDto) -> Seq<Seq<char>> {
    let target = if turn_number(state) >= 2 {
        3int
    } else {
        2int
    };
    let line = count_in_play_spec(state, "dreepy"@) + count_in_play_spec(state, "drakloak"@)
        + count_in_play_spec(state, "dragapult-ex"@);
    (if line < target {
        seq!["dreepy"@]
    } else {
        Seq::empty()
    }) + (if count_in_play_spec(state, "budew"@) < 1 {
        seq!["budew"@]
    } else {
        Seq::empty()
    }) + seq!["duskull"@, "budew"@, "dreepy"@]
}

/// Poffin fetch order (see `yopi_poffin_spec`).
pub fn poffin_fetch_priority(state: &StateDto) -> (r: Vec<&'static str>)
    requires
        board_fits(*state),
    ensures
        strs_view(r@) == yopi_poffin_spec(*state),
{
    let target: usize = if my_turn_number(state) >= 2 {
        3
    } else {
        2
    };
    let line = count_in_play(state, "dreepy") + count_in_play(state, "drakloak") + count_in_play(
        state,
        "dragapult-ex",
    );
    let mut pri: Vec<&'static str> = Vec::new();
    if line < target {
        pri.push("dreepy");
    }
    if count_in_play(state, "budew") < 1 {
        pri.push("budew");
    }
    pri.push("duskull");
    pri.push("budew");
    pri.push("dreepy");
    assert(strs_view(pri@) =~= yopi_poffin_spec(*state));
    pri
}

/// With no budew of mine in play, the poffin order names budew before any duskull.
pub proof fn law_poffin_budew_before_duskull(state: StateDto)
    requires
        count_in_play_spec(state, "budew"@) < 1,
    ensures
        forall|k: int|
            0 <= k < yopi_poffin_spec(state).len() && #[trigger] yopi_poffin_spec(state)[k]
                == "duskull"@ ==> exists|i: int|
                0 <= i < k && yopi_poffin_spec(state)[i] == "budew"@,
{
    reveal_strlit("dreepy");
    reveal_strlit("duskull");
    reveal_strlit("budew");
    let r = yopi_poffin_spec(state);
    assert forall|k: int| 0 <= k < r.len() && #[trigger] r[k] == "duskull"@ implies exists|i: int|
        0 <= i < k && r[i] == "budew"@ by {
        if r.len() == 5 {
            assert(r[0] == "dreepy"@);
            assert(r[0] != "duskull"@);
            assert(r[1] == "budew"@);
            assert(k >= 2);
        } else {
            assert(r[0] == "budew"@);
            assert(r[0] != "duskull"@);
            assert(k >= 1);
        }
    }
}

/// Poffin fetches a budew first when none of mine is in play and the dragapult line
/// (dreepy, drakloak, dragapult-ex) already has its size (2 on my first turn, 3 later): a
/// budew among the options is taken whenever the search may take anything.
pub proof fn law_poffin_fetches_budew(state: StateDto, opts: Seq<EntityDto>, min: u8, max: u8)
    requires
        count_in_play_spec(state, "budew"@) < 1,
        count_in_play_spec(state, "dreepy"@) + count_in_play_spec(state, "drakloak"@)
            + count_in_play_spec(state, "dragapult-ex"@) >= if turn_number(state) >= 2 {
            3int
        } else {
            2int
        },
        max >= 1,
        exists|j: int| 0 <= j < opts.len() && card_is(#[trigger] opts[j].card, "budew"@),
    ensures
        exists|j: int|
            0 <= j < opts.len() && card_is(#[trigger] opts[j].card, "budew"@) && super::pick_from_zone_spec(
                opts,
                yopi_poffin_spec(state),
                min,
                max,
            ).contains(opts[j].entity_id),
{
    let r = yopi_poffin_spec(state);
    assert(r[0] == "budew"@);
    super::law_pick_from_zone_first_priority(opts, r, min, max);
}

/// A drakloak with fire and psychic.
pub open spec fn charged_drakloak() -> spec_fn(PokemonInPlayDto) -> bool {
    |p: PokemonInPlayDto| charged_spec(p, "drakloak"@)
}

/// The fixed tail of the wanted-card order.
pub open spec fn desired_tail() -> Seq<Seq<char>> {
    seq![
        "drakloak"@,
        "dusclops"@,
        "dusknoir"@,
        "duskull"@,
        "dreepy"@,
        "budew"@,
        "fire-energy"@,
        "psychic-energy"@,
        "lillie-s-determination"@,
        "crispin"@,
        "boss-s-orders"@,
    ]
}

/// The card most wanted from a search: dragapult-ex for a charged drakloak with none in
/// play; dreepy with fewer than two of the dragapult line in play; budew with none in play;
/// from my second turn with two drakloak in hand, dusclops (with a duskull in play) or
/// duskull; then the fixed tail.
pub open spec fn desired_spec(state: StateDto) -> Seq<Seq<char>> {
    let line = count_in_play_spec(state, "dreepy"@) + count_in_play_spec(state, "drakloak"@)
        + count_in_play_spec(state, "dragapult-ex"@);
    (if any_in_play(state.me, charged_drakloak()) && count_in_play_spec(state, "dragapult-ex"@)
        == 0 {
        seq!["dragapult-ex"@]
    } else {
        Seq::empty()
    }) + (if line < 2 {
        seq!["dreepy"@]
    } else {
        Seq::empty()
    }) + (if count_in_play_spec(state, "budew"@) < 1 {
        seq!["budew"@]
    } else {
        Seq::empty()
    }) + (if turn_number(state) >= 2 && count_in_hand_spec(state, "drakloak"@) >= 2 {
        if count_in_play_spec(state, "duskull"@) >= 1 {
            seq!["dusclops"@]
        } else {
            seq!["duskull"@]
        }
    } else {
        Seq::empty()
    }) + desired_tail()
}

/// Whether I have a charged drakloak in play.
fn has_charged_drakloak(state: &StateDto) -> (r: bool)
    ensures
        r == any_in_play(state.me, charged_drakloak()),
{
    proof {
        lemma_any_in_play(state.me, charged_drakloak());
    }
    if let Some(a) = &state.me.active {
        if charged(a, "drakloak") {
            return true;
        }
    }
    let mut i: usize = 0;
    while i < state.me.bench.len()
        invariant
            i <= state.me.bench@.len(),
            forall|j: int| 0 <= j < i ==> !charged_drakloak()(#[trigger] state.me.bench@[j]),
        decreases state.me.bench.len() - i,
    {
        if charged(&state.me.bench[i], "drakloak") {
            assert(charged_drakloak()(state.me.bench@[i as int]));
            return true;
        }
        i = i + 1;
    }
    false
}

/// The wanted-card order (see `desired_spec`).
pub fn desired_fetch_priority(state: &StateDto) -> (r: Vec<&'static str>)
    requires
        board_fits(*state),
    ensures
        strs_view(r@) == desired_spec(*state),
{
    let line = count_in_play(state, "dreepy") + count_in_play(state, "drakloak") + count_in_play(
        state,
        "dragapult-ex",
    );
    let mut pri: Vec<&'static str> = Vec::new();
    if has_charged_drakloak(state) && count_in_play(state, "dragapult-ex") == 0 {
        pri.push("dragapult-ex");
    }
    if line < 2 {
        pri.push("dreepy");
    }
    if count_in_play(state, "budew") < 1 {
        pri.push("budew");
    }
    if my_turn_number(state) >= 2 && count_in_hand(state, "drakloak") >= 2 {
        if count_in_play(state, "duskull") >= 1 {
            pri.push("dusclops");
        } else {
            pri.push("duskull");
        }
    }
    let tail: &[&'static str] = &[
        "drakloak",
        "dusclops",
        "dusknoir",
        "duskull",
        "dreepy",
        "budew",
        "fire-energy",
        "psychic-energy",
        "lillie-s-determination",
        "crispin",
        "boss-s-orders",
    ];
    push_all(&mut pri, tail);
    assert(strs_view(pri@) =~= desired_spec(*state));
    pri
}

/// Boss's orders first for meowth-ex's ability when it fetches a boss.
pub open spec fn okunote_boss() -> Seq<Seq<char>> {
    seq!["boss-s-orders"@, "lillie-s-determination"@, "crispin"@]
}

/// The search order for `source`: poffin, recon directive, meowth-ex fetching boss's
/// orders, otherwise the wanted-card order.
pub open spec fn search_ok(state: StateDto, source: Option<Seq<char>>, r: Seq<Seq<char>>) -> bool {
    if source == Some("buddy-buddy-poffin"@) {
        r == yopi_poffin_spec(state)
    } else if source == Some("recon"@) {
        recon_ok(state, r)
    } else if source == Some("okunote-boss"@) {
        r == okunote_boss()
    } else {
        r == desired_spec(state)
    }
}

/// The search order (see `search_ok`).
pub fn search_priority(state: &StateDto, source: &Option<String>, rng: &mut ChaCha20Rng) -> (r: Vec<
    &'static str,
>)
    requires
        board_fits(*state),
    ensures
        search_ok(*state, card_view(*source), strs_view(r@)),
{
    if card_is_exec(source, "buddy-buddy-poffin") {
        poffin_fetch_priority(state)
    } else if card_is_exec(source, "recon") {
        recon_priority(state, rng)
    } else if card_is_exec(source, "okunote-boss") {
        let v: Vec<&'static str> = vec!["boss-s-orders", "lillie-s-determination", "crispin"];
        assert(strs_view(v@) =~= okunote_boss());
        v
    } else {
        desired_fetch_priority(state)
    }
}

/// The search order without a board.
pub open spec fn default_fetch() -> Seq<Seq<char>> {
    seq![
        "dreepy"@,
        "budew"@,
        "drakloak"@,
        "dusclops"@,
        "dusknoir"@,
        "duskull"@,
        "fire-energy"@,
        "psychic-energy"@,
        "lillie-s-determination"@,
        "crispin"@,
        "boss-s-orders"@,
    ]
}

} // verus!

verus! {

// ============================================================================
// Hand-discard cost (ultra ball)
// ============================================================================

/// The options whose slug is among `slugs`, as ids in option order.
pub open spec fn trash_ids(options: Seq<EntityDto>, slugs: Seq<Seq<char>>) -> Seq<u32>
    decreases options.len(),
{
    if options.len() == 0 {
        Seq::empty()
    } else {
        let r = trash_ids(options.drop_last(), slugs);
        if options.last().card matches Some(c) && slugs.contains(c@) {
            r.push(options.last().entity_id)
        } else {
            r
        }
    }
}

/// Whether `lit` (by characters) is among `slugs`.
fn slug_in(c: &String, slugs: &[&str]) -> (r: bool)
    ensures
        r == strs_view(slugs@).contains(c@),
{
    let mut i: usize = 0;
    while i < slugs.len()
        invariant
            i <= slugs@.len(),
            forall|j: int| 0 <= j < i ==> slugs@[j]@ != c@,
        decreases slugs.len() - i,
    {
        if super::string_is(c, slugs[i]) {
            assert(strs_view(slugs@)[i as int] == c@);
            return true;
        }
        i = i + 1;
    }
    proof {
        if strs_view(slugs@).contains(c@) {
            let j = choose|j: int| 0 <= j < strs_view(slugs@).len() && strs_view(slugs@)[j] == c@;
            assert(slugs@[j]@ == c@);
        }
    }
    false
}

/// The options whose slug is among `slugs` (see `trash_ids`).
pub fn trash_ids_of(options: &[EntityDto], slugs: &[&str]) -> (r: Vec<u32>)
    ensures
        r@ == trash_ids(options@, strs_view(slugs@)),
{
    let mut v: Vec<u32> = Vec::new();
    let mut i: usize = 0;
    while i < options.len()
        invariant
            i <= options@.len(),
            v@ == trash_ids(options@.take(i as int), strs_view(slugs@)),
        decreases options.len() - i,
    {
        proof {
            assert(options@.take(i + 1).drop_last() =~= options@.take(i as int));
            assert(options@.take(i + 1).last() == options@[i as int]);
        }
        let hit = match &options[i].card {
            Some(c) => slug_in(c, slugs),
            None => false,
        };
        if hit {
            v.push(options[i].entity_id);
        }
        i = i + 1;
    }
    proof {
        assert(options@.take(i as int) =~= options@);
    }
    v
}

/// `r` is a random order of `base` (its first 255 positions' worth, no position twice).
pub open spec fn shuffled(r: Seq<u32>, base: Seq<u32>) -> bool {
    &&& super::picks_distinct(r, base)
    &&& r.len() == if base.len() > 255 {
        255
    } else {
        base.len() as int
    }
}

/// A random order of `ids` (see `shuffled`).
pub fn trash_shuffle(ids: &[u32], rng: &mut ChaCha20Rng) -> (r: Vec<u32>)
    ensures
        shuffled(r@, ids@),
{
    let n: u8 = if ids.len() > 255 {
        255
    } else {
        ids.len() as u8
    };
    super::pick_random_subset(rng, ids, n, n)
}

/// `chosen` topped up from `ids` in order, skipping ids already chosen, while fewer than
/// `count` are chosen.
pub open spec fn tpush(chosen: Seq<u32>, ids: Seq<u32>, count: int) -> Seq<u32>
    decreases ids.len(),
{
    if ids.len() == 0 || chosen.len() >= count {
        chosen
    } else {
        let c = if chosen.contains(ids[0]) {
            chosen
        } else {
            chosen.push(ids[0])
        };
        tpush(c, ids.drop_first(), count)
    }
}

/// Tops `chosen` up from `ids` (see `tpush`).
pub fn trash_push(chosen: &mut Vec<u32>, ids: &[u32], count: usize)
    ensures
        final(chosen)@ == tpush(old(chosen)@, ids@, count as int),
{
    let ghost c0 = chosen@;
    let mut i: usize = 0;
    proof {
        assert(ids@.skip(0) =~= ids@);
    }
    while i < ids.len()
        invariant
            i <= ids@.len(),
            tpush(c0, ids@, count as int) == tpush(chosen@, ids@.skip(i as int), count as int),
        decreases ids.len() - i,
    {
        if chosen.len() >= count {
            return;
        }
        proof {
            assert(ids@.skip(i as int).drop_first() =~= ids@.skip(i + 1));
            assert(ids@.skip(i as int)[0] == ids@[i as int]);
        }
        if !contains_u32(chosen.as_slice(), ids[i]) {
            chosen.push(ids[i]);
        }
        i = i + 1;
    }
    proof {
        assert(ids@.skip(i as int) =~= Seq::<u32>::empty());
    }
}

/// Pokémon slugs of this deck.
pub open spec fn deck_pokemon() -> Seq<Seq<char>> {
    seq![
        "dreepy"@,
        "drakloak"@,
        "dragapult-ex"@,
        "duskull"@,
        "dusclops"@,
        "dusknoir"@,
        "meowth-ex"@,
        "fezandipiti-ex"@,
        "budew"@,
    ]
}

/// Number of options with slug `c`.
pub open spec fn same_card_count(options: Seq<EntityDto>, c: Seq<char>) -> nat {
    crate::util::count_where(options, super::ent_is(c))
}

/// The options that are a deck Pokémon other than drakloak held twice or more.
pub open spec fn dup_ids(all: Seq<EntityDto>, options: Seq<EntityDto>) -> Seq<u32>
    decreases options.len(),
{
    if options.len() == 0 {
        Seq::empty()
    } else {
        let r = dup_ids(all, options.drop_last());
        let o = options.last();
        if o.card matches Some(c) && c@ != "drakloak"@ && deck_pokemon().contains(c@)
            && same_card_count(all, c@) >= 2 {
            r.push(o.entity_id)
        } else {
            r
        }
    }
}

/// The options that are not a drakloak and not chosen yet.
pub open spec fn rest_ids(options: Seq<EntityDto>, chosen: Seq<u32>) -> Seq<u32>
    decreases options.len(),
{
    if options.len() == 0 {
        Seq::empty()
    } else {
        let r = rest_ids(options.drop_last(), chosen);
        let o = options.last();
        if !card_is(o.card, "drakloak"@) && !chosen.contains(o.entity_id) {
            r.push(o.entity_id)
        } else {
            r
        }
    }
}

/// The random orders used by the discard choice.
pub struct TrashDraws {
    pub stadiums: Seq<u32>,
    pub dups: Seq<u32>,
    pub goods: Seq<u32>,
    pub energy: Seq<u32>,
    pub rest: Seq<u32>,
}

/// The discard order before the last fallbacks: night stretcher, stadiums (random order),
/// one duplicated deck Pokémon (random), ultra ball, rare candy, other goods (random order),
/// boss's orders, crispin, lillie, energy (random order).
pub open spec fn trash_main(options: Seq<EntityDto>, count: int, d: TrashDraws) -> Seq<u32> {
    let c0 = tpush(Seq::empty(), trash_ids(options, seq!["night-stretcher"@]), count);
    let c1 = tpush(c0, d.stadiums, count);
    let c2 = if c1.len() < count && d.dups.len() > 0 {
        tpush(c1, seq![d.dups[0]], count)
    } else {
        c1
    };
    let c3 = tpush(c2, trash_ids(options, seq!["ultra-ball"@]), count);
    let c4 = tpush(c3, trash_ids(options, seq!["rare-candy"@]), count);
    let c5 = tpush(c4, d.goods, count);
    let c6 = tpush(c5, trash_ids(options, seq!["boss-s-orders"@]), count);
    let c7 = tpush(c6, trash_ids(options, seq!["crispin"@]), count);
    let c8 = tpush(c7, trash_ids(options, seq!["lillie-s-determination"@]), count);
    tpush(c8, d.energy, count)
}

/// The whole discard choice: `trash_main`, then other non-drakloak cards (random order), then
/// any option (a drakloak last).
pub open spec fn trash_all(options: Seq<EntityDto>, count: int, d: TrashDraws) -> Seq<u32> {
    let c9 = trash_main(options, count, d);
    let c10 = if c9.len() < count {
        tpush(c9, d.rest, count)
    } else {
        c9
    };
    if c10.len() < count {
        tpush(c10, super::random::ids_of(options), count)
    } else {
        c10
    }
}

/// Stadium slugs.
pub open spec fn stadium_slugs() -> Seq<Seq<char>> {
    seq!["jamming-tower"@, "team-rocket-s-watchtower"@]
}

/// Goods not named elsewhere in the discard order.
pub open spec fn other_goods() -> Seq<Seq<char>> {
    seq!["buddy-buddy-poffin"@, "poke-pad"@, "special-red-card"@, "unfair-stamp"@]
}

/// Energy slugs.
pub open spec fn energy_slugs() -> Seq<Seq<char>> {
    seq!["fire-energy"@, "psychic-energy"@]
}

/// Draws the discard choice allows.
pub open spec fn trash_draws_ok(options: Seq<EntityDto>, count: int, d: TrashDraws) -> bool {
    &&& shuffled(d.stadiums, trash_ids(options, stadium_slugs()))
    &&& shuffled(d.dups, dup_ids(options, options))
    &&& shuffled(d.goods, trash_ids(options, other_goods()))
    &&& shuffled(d.energy, trash_ids(options, energy_slugs()))
    &&& shuffled(d.rest, rest_ids(options, trash_main(options, count, d)))
}

/// The first `min(len, 255)` of `base`, as a witness of `shuffled`.
pub proof fn lemma_shuffled_prefix(base: Seq<u32>)
    ensures
        shuffled(
            base.take(
                if base.len() > 255 {
                    255
                } else {
                    base.len() as int
                },
            ),
            base,
        ),
{
    let n: int = if base.len() > 255 {
        255
    } else {
        base.len() as int
    };
    let r = base.take(n);
    let ix = Seq::new(n as nat, |k: int| k);
    assert(ix.len() == r.len());
    assert(forall|k: int| 0 <= k < ix.len() ==> 0 <= #[trigger] ix[k] < base.len() && r[k] == base[ix[k]]);
}

} // verus!

verus! {

/// The duplicated deck Pokémon among the options (see `dup_ids`).
fn dup_ids_exec(options: &[EntityDto]) -> (r: Vec<u32>)
    ensures
        r@ == dup_ids(options@, options@),
{
    let deck: &[&str] = &[
        "dreepy",
        "drakloak",
        "dragapult-ex",
        "duskull",
        "dusclops",
        "dusknoir",
        "meowth-ex",
        "fezandipiti-ex",
        "budew",
    ];
    assert(strs_view(deck@) =~= deck_pokemon());
    let mut v: Vec<u32> = Vec::new();
    let mut i: usize = 0;
    while i < options.len()
        invariant
            i <= options@.len(),
            v@ == dup_ids(options@, options@.take(i as int)),
        decreases options.len() - i,
    {
        proof {
            assert(options@.take(i + 1).drop_last() =~= options@.take(i as int));
            assert(options@.take(i + 1).last() == options@[i as int]);
        }
        let hit = match &options[i].card {
            Some(c) => !super::string_is(c, "drakloak") && slug_in(c, deck) && super::count_ents(
                options,
                c.as_str(),
            ) >= 2,
            None => false,
        };
        if hit {
            v.push(options[i].entity_id);
        }
        i = i + 1;
    }
    proof {
        assert(options@.take(i as int) =~= options@);
    }
    v
}

/// The options that are not a drakloak and not chosen yet (see `rest_ids`).
fn rest_ids_exec(options: &[EntityDto], chosen: &Vec<u32>) -> (r: Vec<u32>)
    ensures
        r@ == rest_ids(options@, chosen@),
{
    let mut v: Vec<u32> = Vec::new();
    let mut i: usize = 0;
    while i < options.len()
        invariant
            i <= options@.len(),
            v@ == rest_ids(options@.take(i as int), chosen@),
        decreases options.len() - i,
    {
        proof {
            assert(options@.take(i + 1).drop_last() =~= options@.take(i as int));
            assert(options@.take(i + 1).last() == options@[i as int]);
        }
        if !card_is_exec(&options[i].card, "drakloak") && !contains_u32(
            chosen.as_slice(),
            options[i].entity_id,
        ) {
            v.push(options[i].entity_id);
        }
        i = i + 1;
    }
    proof {
        assert(options@.take(i as int) =~= options@);
    }
    v
}

/// The cards to discard for ultra ball: `count` of them in the persona's discard order, with
/// random orders where it leaves the order open (see `trash_all`).
pub fn pick_trash_targets(options: &[EntityDto], count: usize, rng: &mut ChaCha20Rng) -> (r: Vec<u32>)
    ensures
        exists|d: TrashDraws|
            trash_draws_ok(options@, count as int, d) && r@ == #[trigger] trash_all(
                options@,
                count as int,
                d,
            ),
{
    let ghost c = count as int;
    let mut chosen: Vec<u32> = Vec::new();
    let night: &[&str] = &["night-stretcher"];
    assert(strs_view(night@) =~= seq!["night-stretcher"@]);
    trash_push(&mut chosen, trash_ids_of(options, night).as_slice(), count);
    let st: &[&str] = &["jamming-tower", "team-rocket-s-watchtower"];
    assert(strs_view(st@) =~= stadium_slugs());
    let s1 = trash_shuffle(trash_ids_of(options, st).as_slice(), rng);
    trash_push(&mut chosen, s1.as_slice(), count);
    let dups_base = dup_ids_exec(options);
    let ghost mut s2: Seq<u32> = dups_base@.take(
        if dups_base@.len() > 255 {
            255
        } else {
            dups_base@.len() as int
        },
    );
    proof {
        lemma_shuffled_prefix(dups_base@);
    }
    if chosen.len() < count {
        let sh = trash_shuffle(dups_base.as_slice(), rng);
        proof {
            s2 = sh@;
        }
        if sh.len() > 0 {
            let one: Vec<u32> = vec![sh[0]];
            assert(one@ =~= seq![sh@[0]]);
            trash_push(&mut chosen, one.as_slice(), count);
        }
    }
    let ub: &[&str] = &["ultra-ball"];
    assert(strs_view(ub@) =~= seq!["ultra-ball"@]);
    trash_push(&mut chosen, trash_ids_of(options, ub).as_slice(), count);
    let rc: &[&str] = &["rare-candy"];
    assert(strs_view(rc@) =~= seq!["rare-candy"@]);
    trash_push(&mut chosen, trash_ids_of(options, rc).as_slice(), count);
    let og: &[&str] = &["buddy-buddy-poffin", "poke-pad", "special-red-card", "unfair-stamp"];
    assert(strs_view(og@) =~= other_goods());
    let s3 = trash_shuffle(trash_ids_of(options, og).as_slice(), rng);
    trash_push(&mut chosen, s3.as_slice(), count);
    let bo: &[&str] = &["boss-s-orders"];
    assert(strs_view(bo@) =~= seq!["boss-s-orders"@]);
    trash_push(&mut chosen, trash_ids_of(options, bo).as_slice(), count);
    let cr: &[&str] = &["crispin"];
    assert(strs_view(cr@) =~= seq!["crispin"@]);
    trash_push(&mut chosen, trash_ids_of(options, cr).as_slice(), count);
    let li: &[&str] = &["lillie-s-determination"];
    assert(strs_view(li@) =~= seq!["lillie-s-determination"@]);
    trash_push(&mut chosen, trash_ids_of(options, li).as_slice(), count);
    let en: &[&str] = &["fire-energy", "psychic-energy"];
    assert(strs_view(en@) =~= energy_slugs());
    let s4 = trash_shuffle(trash_ids_of(options, en).as_slice(), rng);
    trash_push(&mut chosen, s4.as_slice(), count);
    let ghost main = chosen@;
    let ghost d0 = TrashDraws { stadiums: s1@, dups: s2, goods: s3@, energy: s4@, rest: Seq::empty() };
    assert(main == trash_main(options@, c, d0));
    let rest_base = rest_ids_exec(options, &chosen);
    let ghost mut s5: Seq<u32> = rest_base@.take(
        if rest_base@.len() > 255 {
            255
        } else {
            rest_base@.len() as int
        },
    );
    proof {
        lemma_shuffled_prefix(rest_base@);
    }
    if chosen.len() < count {
        let sh = trash_shuffle(rest_base.as_slice(), rng);
        proof {
            s5 = sh@;
        }
        trash_push(&mut chosen, sh.as_slice(), count);
    }
    if chosen.len() < count {
        let all = super::random::entity_ids(options);
        trash_push(&mut chosen, all.as_slice(), count);
    }
    let ghost d = TrashDraws { rest: s5, ..d0 };
    assert(trash_main(options@, c, d) == trash_main(options@, c, d0));
    assert(trash_draws_ok(options@, c, d));
    assert(chosen@ == trash_all(options@, c, d));
    chosen
}

} // verus!

verus! {

// ============================================================================
// Hand-discard cost: what the choice may contain
// ============================================================================

/// `x` is the id of an option that is not a drakloak.
pub open spec fn nd_id(options: Seq<EntityDto>, x: u32) -> bool {
    exists|j: int|
        0 <= j < options.len() && #[trigger] options[j].entity_id == x && !card_is(
            options[j].card,
            "drakloak"@,
        )
}

/// An option that is not a drakloak.
pub open spec fn not_drakloak() -> spec_fn(EntityDto) -> bool {
    |o: EntityDto| !card_is(o.card, "drakloak"@)
}

/// A choice so far: distinct ids of non-drakloak options, at most `count` of them.
pub open spec fn nd_choice(options: Seq<EntityDto>, c: Seq<u32>, count: int) -> bool {
    &&& c.no_duplicates()
    &&& c.len() <= count
    &&& forall|x: u32| #[trigger] c.contains(x) ==> nd_id(options, x)
}

proof fn lemma_nd_id_grow(options: Seq<EntityDto>, x: u32)
    requires
        options.len() > 0,
        nd_id(options.drop_last(), x),
    ensures
        nd_id(options, x),
{
    let j = choose|j: int|
        0 <= j < options.drop_last().len() && #[trigger] options.drop_last()[j].entity_id == x
            && !card_is(options.drop_last()[j].card, "drakloak"@);
    assert(options[j] == options.drop_last()[j]);
}

/// What topping up keeps: no id twice, at most `count`, the ids already chosen, nothing from
/// outside `chosen` and `ids`; and short of `count`, every id of `ids`.
proof fn lemma_tpush(chosen: Seq<u32>, ids: Seq<u32>, count: int)
    requires
        chosen.no_duplicates(),
        chosen.len() <= count,
    ensures
        tpush(chosen, ids, count).no_duplicates(),
        tpush(chosen, ids, count).len() <= count,
        forall|x: u32| #[trigger]
            tpush(chosen, ids, count).contains(x) ==> chosen.contains(x) || ids.contains(x),
        forall|x: u32| chosen.contains(x) ==> #[trigger] tpush(chosen, ids, count).contains(x),
        tpush(chosen, ids, count).len() < count ==> forall|x: u32|
            ids.contains(x) ==> #[trigger] tpush(chosen, ids, count).contains(x),
    decreases ids.len(),
{
    broadcast use vstd::seq_lib::lemma_seq_contains_after_push;

    if ids.len() == 0 || chosen.len() >= count {
    } else {
        let c = if chosen.contains(ids[0]) {
            chosen
        } else {
            chosen.push(ids[0])
        };
        assert(c.no_duplicates()) by {
            if !chosen.contains(ids[0]) {
                assert forall|i: int, j: int| 0 <= i < c.len() && 0 <= j < c.len() && i != j implies c[i]
                    != c[j] by {
                    if i == chosen.len() {
                        assert(chosen[j] == c[j]);
                    } else if j == chosen.len() {
                        assert(chosen[i] == c[i]);
                    }
                }
            }
        }
        lemma_tpush(c, ids.drop_first(), count);
        assert(c.contains(ids[0]));
        assert forall|x: u32| ids.drop_first().contains(x) implies ids.contains(x) by {
            let k = choose|k: int| 0 <= k < ids.drop_first().len() && ids.drop_first()[k] == x;
            assert(ids[k + 1] == x);
        }
        assert forall|x: u32| ids.contains(x) implies x == ids[0] || ids.drop_first().contains(x) by {
            let k = choose|k: int| 0 <= k < ids.len() && ids[k] == x;
            if k > 0 {
                assert(ids.drop_first()[k - 1] == x);
            }
        }
        assert forall|x: u32| chosen.contains(x) implies c.contains(x) by {}
    }
}

/// Topping up a choice from ids of non-drakloak options keeps it one.
proof fn lemma_tpush_nd(options: Seq<EntityDto>, chosen: Seq<u32>, ids: Seq<u32>, count: int)
    requires
        nd_choice(options, chosen, count),
        forall|x: u32| #[trigger] ids.contains(x) ==> nd_id(options, x),
    ensures
        nd_choice(options, tpush(chosen, ids, count), count),
{
    lemma_tpush(chosen, ids, count);
    let r = tpush(chosen, ids, count);
    assert forall|x: u32| #[trigger] r.contains(x) implies nd_id(options, x) by {
        if chosen.contains(x) {
        } else {
            assert(ids.contains(x));
        }
    }
}

/// Every id of a shuffle comes from its base.
proof fn lemma_shuffled_from(r: Seq<u32>, base: Seq<u32>)
    requires
        shuffled(r, base),
    ensures
        forall|x: u32| #[trigger] r.contains(x) ==> base.contains(x),
{
    let ix = choose|ix: Seq<int>|
        ix.len() == r.len() && (forall|k: int|
            0 <= k < ix.len() ==> 0 <= #[trigger] ix[k] < base.len() && r[k] == base[ix[k]]) && (
        forall|k1: int, k2: int| 0 <= k1 < k2 < ix.len() ==> ix[k1] != ix[k2]);
    assert forall|x: u32| #[trigger] r.contains(x) implies base.contains(x) by {
        let k = choose|k: int| 0 <= k < r.len() && r[k] == x;
        assert(0 <= ix[k] < base.len());
        assert(base[ix[k]] == x);
    }
}

/// A shuffle of at most 255 ids holds every one of them.
proof fn lemma_shuffled_full(r: Seq<u32>, base: Seq<u32>)
    requires
        shuffled(r, base),
        base.len() <= 255,
    ensures
        forall|x: u32| #[trigger] base.contains(x) ==> r.contains(x),
{
    let ix = choose|ix: Seq<int>|
        ix.len() == r.len() && (forall|k: int|
            0 <= k < ix.len() ==> 0 <= #[trigger] ix[k] < base.len() && r[k] == base[ix[k]]) && (
        forall|k1: int, k2: int| 0 <= k1 < k2 < ix.len() ==> ix[k1] != ix[k2]);
    let n = base.len() as int;
    assert(ix.no_duplicates()) by {
        assert forall|i: int, j: int| 0 <= i < ix.len() && 0 <= j < ix.len() && i != j implies ix[i]
            != ix[j] by {
            if i < j {
            } else {
            }
        }
    }
    ix.unique_seq_to_set();
    vstd::set_lib::lemma_int_range(0, n);
    assert(ix.to_set().subset_of(vstd::set_lib::set_int_range(0, n))) by {
        assert forall|t: int| #[trigger] ix.to_set().contains(t) implies vstd::set_lib::set_int_range(
            0,
            n,
        ).contains(t) by {
            let k = choose|k: int| 0 <= k < ix.len() && ix[k] == t;
            assert(0 <= ix[k] < n);
        }
    }
    vstd::seq_lib::seq_to_set_is_finite(ix);
    vstd::set_lib::lemma_subset_equality(ix.to_set(), vstd::set_lib::set_int_range(0, n));
    assert forall|x: u32| #[trigger] base.contains(x) implies r.contains(x) by {
        let t = choose|t: int| 0 <= t < base.len() && base[t] == x;
        assert(vstd::set_lib::set_int_range(0, n).contains(t));
        assert(ix.to_set().contains(t));
        let k = choose|k: int| 0 <= k < ix.len() && ix[k] == t;
        assert(r[k] == x);
    }
}

} // verus!

verus! {

/// The ids picked by slug are of options with such a slug.
proof fn lemma_trash_ids_nd(options: Seq<EntityDto>, slugs: Seq<Seq<char>>)
    requires
        !slugs.contains("drakloak"@),
    ensures
        forall|x: u32| #[trigger] trash_ids(options, slugs).contains(x) ==> nd_id(options, x),
    decreases options.len(),
{
    broadcast use vstd::seq_lib::lemma_seq_contains_after_push;

    if options.len() > 0 {
        lemma_trash_ids_nd(options.drop_last(), slugs);
        let o = options.last();
        assert forall|x: u32| #[trigger] trash_ids(options, slugs).contains(x) implies nd_id(options, x) by {
            if trash_ids(options.drop_last(), slugs).contains(x) {
                lemma_nd_id_grow(options, x);
            } else {
                assert(options[options.len() - 1] == o);
            }
        }
    }
}

/// The duplicated deck Pokémon are not drakloaks.
proof fn lemma_dup_ids_nd(all: Seq<EntityDto>, options: Seq<EntityDto>)
    ensures
        forall|x: u32| #[trigger] dup_ids(all, options).contains(x) ==> nd_id(options, x),
    decreases options.len(),
{
    broadcast use vstd::seq_lib::lemma_seq_contains_after_push;

    if options.len() > 0 {
        lemma_dup_ids_nd(all, options.drop_last());
        let o = options.last();
        assert forall|x: u32| #[trigger] dup_ids(all, options).contains(x) implies nd_id(options, x) by {
            if dup_ids(all, options.drop_last()).contains(x) {
                lemma_nd_id_grow(options, x);
            } else {
                assert(options[options.len() - 1] == o);
            }
        }
    }
}

/// The rest are the non-drakloak options not chosen yet, and no more of them than there are
/// non-drakloak options.
proof fn lemma_rest_ids(options: Seq<EntityDto>, chosen: Seq<u32>)
    ensures
        forall|x: u32| #[trigger] rest_ids(options, chosen).contains(x) ==> nd_id(options, x),
        forall|k: int|
            0 <= k < options.len() && !card_is(options[k].card, "drakloak"@) && !chosen.contains(
                options[k].entity_id,
            ) ==> #[trigger] rest_ids(options, chosen).contains(options[k].entity_id),
        rest_ids(options, chosen).len() <= crate::util::count_where(options, not_drakloak()),
    decreases options.len(),
{
    broadcast use vstd::seq_lib::lemma_seq_contains_after_push;

    if options.len() > 0 {
        let pre = options.drop_last();
        lemma_rest_ids(pre, chosen);
        let o = options.last();
        assert forall|x: u32| #[trigger] rest_ids(options, chosen).contains(x) implies nd_id(options, x) by {
            if rest_ids(pre, chosen).contains(x) {
                lemma_nd_id_grow(options, x);
            } else {
                assert(options[options.len() - 1] == o);
            }
        }
        assert forall|k: int|
            0 <= k < options.len() && !card_is(options[k].card, "drakloak"@) && !chosen.contains(
                options[k].entity_id,
            ) implies #[trigger] rest_ids(options, chosen).contains(options[k].entity_id) by {
            if k < options.len() - 1 {
                assert(pre[k] == options[k]);
                assert(rest_ids(pre, chosen).contains(pre[k].entity_id));
            }
        }
    }
}

/// No slug the discard order names before the fallbacks is drakloak.
proof fn lemma_trash_slugs()
    ensures
        !seq!["night-stretcher"@].contains("drakloak"@),
        !seq!["ultra-ball"@].contains("drakloak"@),
        !seq!["rare-candy"@].contains("drakloak"@),
        !seq!["boss-s-orders"@].contains("drakloak"@),
        !seq!["crispin"@].contains("drakloak"@),
        !seq!["lillie-s-determination"@].contains("drakloak"@),
        !stadium_slugs().contains("drakloak"@),
        !other_goods().contains("drakloak"@),
        !energy_slugs().contains("drakloak"@),
{
    reveal_strlit("drakloak");
    reveal_strlit("night-stretcher");
    reveal_strlit("ultra-ball");
    reveal_strlit("rare-candy");
    reveal_strlit("boss-s-orders");
    reveal_strlit("crispin");
    reveal_strlit("lillie-s-determination");
    reveal_strlit("jamming-tower");
    reveal_strlit("team-rocket-s-watchtower");
    reveal_strlit("buddy-buddy-poffin");
    reveal_strlit("poke-pad");
    reveal_strlit("special-red-card");
    reveal_strlit("unfair-stamp");
    reveal_strlit("fire-energy");
    reveal_strlit("psychic-energy");
    assert("poke-pad"@[0] != "drakloak"@[0]);
    assert forall|s: Seq<Seq<char>>, x: Seq<char>| s.len() == 1 && s[0] != x implies !#[trigger] s.contains(x) by {}
    assert forall|s: Seq<Seq<char>>, x: Seq<char>|
        s.len() == 2 && s[0] != x && s[1] != x implies !#[trigger] s.contains(x) by {}
    assert forall|s: Seq<Seq<char>>, x: Seq<char>|
        s.len() == 4 && s[0] != x && s[1] != x && s[2] != x && s[3] != x implies !#[trigger] s.contains(x) by {}
}

/// The discard order before the fallbacks chooses distinct non-drakloak options.
proof fn lemma_trash_main_nd(options: Seq<EntityDto>, count: int, d: TrashDraws)
    requires
        count >= 0,
        trash_draws_ok(options, count, d),
    ensures
        nd_choice(options, trash_main(options, count, d), count),
{
    lemma_trash_slugs();
    let e: Seq<u32> = Seq::empty();
    let night = trash_ids(options, seq!["night-stretcher"@]);
    lemma_trash_ids_nd(options, seq!["night-stretcher"@]);
    lemma_tpush_nd(options, e, night, count);
    let c0 = tpush(e, night, count);
    let st = trash_ids(options, stadium_slugs());
    lemma_trash_ids_nd(options, stadium_slugs());
    lemma_shuffled_from(d.stadiums, st);
    lemma_tpush_nd(options, c0, d.stadiums, count);
    let c1 = tpush(c0, d.stadiums, count);
    lemma_dup_ids_nd(options, options);
    lemma_shuffled_from(d.dups, dup_ids(options, options));
    if c1.len() < count && d.dups.len() > 0 {
        assert forall|x: u32| #[trigger] seq![d.dups[0]].contains(x) implies nd_id(options, x) by {
            assert(seq![d.dups[0]][0] == x);
            assert(d.dups.contains(d.dups[0]));
        }
        lemma_tpush_nd(options, c1, seq![d.dups[0]], count);
    }
    let c2 = if c1.len() < count && d.dups.len() > 0 {
        tpush(c1, seq![d.dups[0]], count)
    } else {
        c1
    };
    lemma_trash_ids_nd(options, seq!["ultra-ball"@]);
    lemma_tpush_nd(options, c2, trash_ids(options, seq!["ultra-ball"@]), count);
    let c3 = tpush(c2, trash_ids(options, seq!["ultra-ball"@]), count);
    lemma_trash_ids_nd(options, seq!["rare-candy"@]);
    lemma_tpush_nd(options, c3, trash_ids(options, seq!["rare-candy"@]), count);
    let c4 = tpush(c3, trash_ids(options, seq!["rare-candy"@]), count);
    lemma_trash_ids_nd(options, other_goods());
    lemma_shuffled_from(d.goods, trash_ids(options, other_goods()));
    lemma_tpush_nd(options, c4, d.goods, count);
    let c5 = tpush(c4, d.goods, count);
    lemma_trash_ids_nd(options, seq!["boss-s-orders"@]);
    lemma_tpush_nd(options, c5, trash_ids(options, seq!["boss-s-orders"@]), count);
    let c6 = tpush(c5, trash_ids(options, seq!["boss-s-orders"@]), count);
    lemma_trash_ids_nd(options, seq!["crispin"@]);
    lemma_tpush_nd(options, c6, trash_ids(options, seq!["crispin"@]), count);
    let c7 = tpush(c6, trash_ids(options, seq!["crispin"@]), count);
    lemma_trash_ids_nd(options, seq!["lillie-s-determination"@]);
    lemma_tpush_nd(options, c7, trash_ids(options, seq!["lillie-s-determination"@]), count);
    let c8 = tpush(c7, trash_ids(options, seq!["lillie-s-determination"@]), count);
    lemma_trash_ids_nd(options, energy_slugs());
    lemma_shuffled_from(d.energy, trash_ids(options, energy_slugs()));
    lemma_tpush_nd(options, c8, d.energy, count);
}

} // verus!

verus! {

/// Law: the ultra-ball discard is legal. Where the options have distinct ids, the choice names
/// distinct options, `min(count, options)` of them; and where at most 255 options are not a
/// drakloak, a drakloak is chosen only once every other option is.
pub proof fn law_trash_targets_legal(options: Seq<EntityDto>, count: int, d: TrashDraws)
    requires
        super::random::ids_of(options).no_duplicates(),
        count >= 0,
        trash_draws_ok(options, count, d),
    ensures
        trash_all(options, count, d).no_duplicates(),
        forall|x: u32| #[trigger]
            trash_all(options, count, d).contains(x) ==> super::random::ids_of(options).contains(x),
        trash_all(options, count, d).len() == if count < options.len() {
            count
        } else {
            options.len() as int
        },
        crate::util::count_where(options, not_drakloak()) <= 255 ==> forall|j: int, k: int|
            0 <= j < options.len() && 0 <= k < options.len() && card_is(
                options[j].card,
                "drakloak"@,
            ) && !card_is(options[k].card, "drakloak"@) && #[trigger] trash_all(
                options,
                count,
                d,
            ).contains(options[j].entity_id) ==> #[trigger] trash_all(options, count, d).contains(
                options[k].entity_id,
            ),
{
    let ids = super::random::ids_of(options);
    let c9 = trash_main(options, count, d);
    lemma_trash_main_nd(options, count, d);
    let c10 = if c9.len() < count {
        tpush(c9, d.rest, count)
    } else {
        c9
    };
    let r = trash_all(options, count, d);
    lemma_rest_ids(options, c9);
    lemma_shuffled_from(d.rest, rest_ids(options, c9));
    if c9.len() < count {
        lemma_tpush_nd(options, c9, d.rest, count);
        lemma_tpush(c9, d.rest, count);
    }
    assert(nd_choice(options, c10, count));
    assert forall|x: u32| nd_id(options, x) implies #[trigger] ids.contains(x) by {
        let j = choose|j: int|
            0 <= j < options.len() && #[trigger] options[j].entity_id == x && !card_is(
                options[j].card,
                "drakloak"@,
            );
        assert(ids[j] == x);
    }
    if c10.len() < count {
        lemma_tpush(c10, ids, count);
    }
    assert(r.no_duplicates());
    assert(r.len() <= count);
    assert(forall|x: u32| #[trigger] r.contains(x) ==> ids.contains(x));
    assert(r.len() < count ==> forall|x: u32| #[trigger] ids.contains(x) ==> r.contains(x));
    // Counting: `r` and `ids` are duplicate-free, and `r`'s ids are among `ids`.
    vstd::seq_lib::seq_to_set_is_finite(r);
    vstd::seq_lib::seq_to_set_is_finite(ids);
    r.unique_seq_to_set();
    ids.unique_seq_to_set();
    assert(r.to_set().subset_of(ids.to_set())) by {
        assert forall|x: u32| #[trigger] r.to_set().contains(x) implies ids.to_set().contains(x) by {
            assert(r.contains(x));
        }
    }
    vstd::set_lib::lemma_len_subset(r.to_set(), ids.to_set());
    if r.len() < count {
        assert(ids.to_set().subset_of(r.to_set())) by {
            assert forall|x: u32| #[trigger] ids.to_set().contains(x) implies r.to_set().contains(x) by {
                assert(ids.contains(x));
            }
        }
        vstd::set_lib::lemma_len_subset(ids.to_set(), r.to_set());
    }
    // A drakloak comes in only with the last fallback, after every other option.
    if crate::util::count_where(options, not_drakloak()) <= 255 {
        assert forall|j: int, k: int|
            0 <= j < options.len() && 0 <= k < options.len() && card_is(
                options[j].card,
                "drakloak"@,
            ) && !card_is(options[k].card, "drakloak"@) && #[trigger] r.contains(
                options[j].entity_id,
            ) implies #[trigger] r.contains(options[k].entity_id) by {
            let xj = options[j].entity_id;
            if c10.contains(xj) {
                let j2 = choose|j2: int|
                    0 <= j2 < options.len() && #[trigger] options[j2].entity_id == xj && !card_is(
                        options[j2].card,
                        "drakloak"@,
                    );
                assert(ids[j2] == ids[j]);
                assert(false);
            }
            assert(c10.len() < count);
            assert(c9.len() < count);
            lemma_shuffled_full(d.rest, rest_ids(options, c9));
            let xk = options[k].entity_id;
            if c9.contains(xk) {
                assert(c10.contains(xk));
            } else {
                assert(rest_ids(options, c9).contains(xk));
                assert(d.rest.contains(xk));
                assert(c10.contains(xk));
            }
            assert(r.contains(xk));
        }
    }
}

} // verus!

verus! {

// ============================================================================
// Targets among the opposing Pokémon
// ============================================================================

/// A Pokémon whose card the card facts call a rule-box card (prize value 2 or more).
pub open spec fn reg_ex(reg: Map<Seq<char>, FactView>) -> spec_fn(PokemonInPlayDto) -> bool {
    |p: PokemonInPlayDto|
        p.card matches Some(c) && reg.contains_key(c@) && reg[c@].prize_value >= 2
}

/// A Pokémon with 130 HP or less left.
pub open spec fn within_bomb() -> spec_fn(PokemonInPlayDto) -> bool {
    |p: PokemonInPlayDto| rem_hp(p) <= 130
}

/// The last Pokémon of `s` satisfying `f` with the most HP left.
pub open spec fn last_max_mon(s: Seq<PokemonInPlayDto>, f: spec_fn(PokemonInPlayDto) -> bool) -> Option<
    PokemonInPlayDto,
>
    decreases s.len(),
{
    if s.len() == 0 {
        None
    } else {
        let b = last_max_mon(s.drop_last(), f);
        let x = s.last();
        if f(x) {
            match b {
                Some(y) => if rem_hp(x) >= rem_hp(y) {
                    Some(x)
                } else {
                    Some(y)
                },
                None => Some(x),
            }
        } else {
            b
        }
    }
}

/// The bomb target predicate of `kind` (0: rule-box by the card facts, else 130 HP or less).
pub open spec fn bomb_pred(reg: Map<Seq<char>, FactView>, kind: u8) -> spec_fn(PokemonInPlayDto) -> bool {
    if kind == 0 {
        reg_ex(reg)
    } else {
        within_bomb()
    }
}

/// Whether `p` satisfies `bomb_pred(kind)`.
fn bomb_pred_exec(reg: &CardFacts, p: &PokemonInPlayDto, kind: u8) -> (r: bool)
    ensures
        r == bomb_pred(reg@, kind)(*p),
{
    if kind == 0 {
        match &p.card {
            Some(c) => super::slug_is_ex(reg, c.as_str()),
            None => false,
        }
    } else {
        remaining_hp(p) <= 130
    }
}

/// The opposing Pokémon in play satisfying `bomb_pred(kind)` with the most HP left (the
/// last one on a tie).
pub fn last_max_opp<'a>(reg: &CardFacts, state: &'a StateDto, kind: u8) -> (r: Option<&'a PokemonInPlayDto>)
    ensures
        match r {
            Some(m) => last_max_mon(in_play(state.opp), bomb_pred(reg@, kind)) == Some(*m),
            None => last_max_mon(in_play(state.opp), bomb_pred(reg@, kind)) is None,
        },
{
    let ghost f = bomb_pred(reg@, kind);
    let ghost pre = front_seq(state.opp.active);
    let mut best: Option<&PokemonInPlayDto> = None;
    if let Some(a) = &state.opp.active {
        if bomb_pred_exec(reg, a, kind) {
            best = Some(a);
        }
    }
    proof {
        assert(pre + state.opp.bench@.take(0) =~= pre);
        if pre.len() > 0 {
            assert(pre.drop_last() =~= Seq::<PokemonInPlayDto>::empty());
            assert(last_max_mon(pre.drop_last(), f) is None);
        }
    }
    let mut i: usize = 0;
    while i < state.opp.bench.len()
        invariant
            i <= state.opp.bench@.len(),
            f == bomb_pred(reg@, kind),
            match best {
                Some(m) => last_max_mon(pre + state.opp.bench@.take(i as int), f) == Some(*m),
                None => last_max_mon(pre + state.opp.bench@.take(i as int), f) is None,
            },
        decreases state.opp.bench.len() - i,
    {
        proof {
            assert((pre + state.opp.bench@.take(i + 1)).drop_last() =~= pre + state.opp.bench@.take(
                i as int,
            ));
            assert((pre + state.opp.bench@.take(i + 1)).last() == state.opp.bench@[i as int]);
        }
        let x = &state.opp.bench[i];
        if bomb_pred_exec(reg, x, kind) {
            match best {
                Some(y) => {
                    if remaining_hp(x) >= remaining_hp(y) {
                        best = Some(x);
                    }
                },
                None => {
                    best = Some(x);
                },
            }
        }
        i = i + 1;
    }
    proof {
        assert(state.opp.bench@.take(i as int) =~= state.opp.bench@);
        assert(pre + state.opp.bench@ =~= in_play(state.opp));
    }
    best
}

/// Rule-box Pokémon of the opponent with at most `max` HP left, as (id, HP left), in order.
pub open spec fn ex_list(reg: Map<Seq<char>, FactView>, s: Seq<PokemonInPlayDto>, max: int) -> Seq<
    (u32, u16),
>
    decreases s.len(),
{
    if s.len() == 0 {
        Seq::empty()
    } else {
        let r = ex_list(reg, s.drop_last(), max);
        let p = s.last();
        if reg_ex(reg)(p) && rem_hp(p) <= max {
            r.push((p.entity_id, rem_hp(p) as u16))
        } else {
            r
        }
    }
}

/// The first entry with the least HP left among those within `lim`.
pub open spec fn first_min(s: Seq<(u32, u16)>, lim: int) -> Option<(u32, u16)>
    decreases s.len(),
{
    if s.len() == 0 {
        None
    } else {
        let b = first_min(s.drop_last(), lim);
        let x = s.last();
        if x.1 <= lim {
            match b {
                Some(y) => if x.1 < y.1 {
                    Some(x)
                } else {
                    Some(y)
                },
                None => Some(x),
            }
        } else {
            b
        }
    }
}

/// The main rule-box target: with at most `max` HP left, preferring those within 200, the
/// one with the least HP left (the first on a tie).
pub open spec fn main_ex_spec(reg: Map<Seq<char>, FactView>, state: StateDto, max: int) -> Option<(u32, u16)> {
    let l = ex_list(reg, in_play(state.opp), max);
    if first_min(l, 200) is Some {
        first_min(l, 200)
    } else {
        first_min(l, 65535)
    }
}

/// The first entry with the least HP left among those within `lim`.
fn first_min_exec(v: &Vec<(u32, u16)>, lim: u16) -> (r: Option<(u32, u16)>)
    ensures
        r == first_min(v@, lim as int),
{
    let mut best: Option<(u32, u16)> = None;
    let mut i: usize = 0;
    while i < v.len()
        invariant
            i <= v@.len(),
            best == first_min(v@.take(i as int), lim as int),
        decreases v.len() - i,
    {
        proof {
            assert(v@.take(i + 1).drop_last() =~= v@.take(i as int));
            assert(v@.take(i + 1).last() == v@[i as int]);
        }
        let x = v[i];
        if x.1 <= lim {
            match best {
                Some(y) => {
                    if x.1 < y.1 {
                        best = Some(x);
                    }
                },
                None => {
                    best = Some(x);
                },
            }
        }
        i = i + 1;
    }
    proof {
        assert(v@.take(i as int) =~= v@);
    }
    best
}

/// Rule-box Pokémon of the opponent with at most `max` HP left (see `ex_list`).
fn ex_list_exec(reg: &CardFacts, state: &StateDto, max: u16) -> (r: Vec<(u32, u16)>)
    ensures
        r@ == ex_list(reg@, in_play(state.opp), max as int),
{
    let ghost pre = front_seq(state.opp.active);
    let mut v: Vec<(u32, u16)> = Vec::new();
    if let Some(a) = &state.opp.active {
        if bomb_pred_exec(reg, a, 0) && remaining_hp(a) <= max {
            v.push((a.entity_id, remaining_hp(a)));
        }
    }
    proof {
        assert(pre + state.opp.bench@.take(0) =~= pre);
        if pre.len() > 0 {
            assert(pre.drop_last() =~= Seq::<PokemonInPlayDto>::empty());
            assert(ex_list(reg@, pre.drop_last(), max as int) =~= Seq::<(u32, u16)>::empty());
        }
        assert(v@ =~= ex_list(reg@, pre, max as int));
    }
    let mut i: usize = 0;
    while i < state.opp.bench.len()
        invariant
            i <= state.opp.bench@.len(),
            v@ == ex_list(reg@, pre + state.opp.bench@.take(i as int), max as int),
        decreases state.opp.bench.len() - i,
    {
        proof {
            assert((pre + state.opp.bench@.take(i + 1)).drop_last() =~= pre + state.opp.bench@.take(
                i as int,
            ));
            assert((pre + state.opp.bench@.take(i + 1)).last() == state.opp.bench@[i as int]);
        }
        let p = &state.opp.bench[i];
        if bomb_pred_exec(reg, p, 0) && remaining_hp(p) <= max {
            v.push((p.entity_id, remaining_hp(p)));
        }
        i = i + 1;
    }
    proof {
        assert(state.opp.bench@.take(i as int) =~= state.opp.bench@);
        assert(pre + state.opp.bench@ =~= in_play(state.opp));
    }
    v
}

/// The main rule-box target (see `main_ex_spec`).
pub fn pick_main_ex(reg: &CardFacts, state: &StateDto, max_hp: u16) -> (r: Option<(u32, u16)>)
    ensures
        r == main_ex_spec(reg@, *state, max_hp as int),
{
    let l = ex_list_exec(reg, state, max_hp);
    match first_min_exec(&l, 200) {
        Some(x) => Some(x),
        None => first_min_exec(&l, 65535),
    }
}

} // verus!

verus! {

/// The opposing Pokémon other than `exclude` as (id, HP left, rule-box), in order.
pub open spec fn pokes(reg: Map<Seq<char>, FactView>, s: Seq<PokemonInPlayDto>, exclude: u32) -> Seq<
    (u32, u16, bool),
>
    decreases s.len(),
{
    if s.len() == 0 {
        Seq::empty()
    } else {
        let r = pokes(reg, s.drop_last(), exclude);
        let p = s.last();
        if p.entity_id != exclude {
            r.push((p.entity_id, rem_hp(p) as u16, reg_ex(reg)(p)))
        } else {
            r
        }
    }
}

/// The entries that are not rule-box, as (id, HP left).
pub open spec fn non_rule(ps: Seq<(u32, u16, bool)>) -> Seq<(u32, u16)>
    decreases ps.len(),
{
    if ps.len() == 0 {
        Seq::empty()
    } else {
        let r = non_rule(ps.drop_last());
        if !ps.last().2 {
            r.push((ps.last().0, ps.last().1))
        } else {
            r
        }
    }
}

/// The first pair `i < j` (in order of `i`, then `j`) whose HP left adds up to 60 or less,
/// scanning from `(i, j)`.
pub open spec fn pair_search(nr: Seq<(u32, u16)>, i: int, j: int) -> Option<(u32, u32)>
    decreases nr.len() - i, nr.len() - j,
{
    if i < 0 || i >= nr.len() {
        None
    } else if j < 0 || j >= nr.len() {
        pair_search(nr, i + 1, i + 2)
    } else if nr[i].1 + nr[j].1 <= 60 {
        Some((nr[i].0, nr[j].0))
    } else {
        pair_search(nr, i, j + 1)
    }
}

/// A rule-box entry with 60 HP or less left.
pub open spec fn small_ex() -> spec_fn((u32, u16, bool)) -> bool {
    |t: (u32, u16, bool)| t.2 && t.1 <= 60
}

/// A non-rule-box entry with 60 HP or less left.
pub open spec fn small_plain() -> spec_fn((u32, u16, bool)) -> bool {
    |t: (u32, u16, bool)| !t.2 && t.1 <= 60
}

/// The targets that 6 counters knock out for the prizes still needed after the main target
/// (`exclude`): none for 0; for 2 a rule-box Pokémon with 60 HP or less left, else two
/// others with 60 HP or less left together; for 1 another with 60 HP or less left.
pub open spec fn extra_spec(reg: Map<Seq<char>, FactView>, state: StateDto, needed: int, exclude: u32) -> Option<
    Seq<u32>,
> {
    let ps = pokes(reg, in_play(state.opp), exclude);
    if needed == 0 {
        Some(Seq::empty())
    } else if needed == 2 {
        match find_first(ps, small_ex()) {
            Some(t) => Some(seq![t.0]),
            None => match pair_search(non_rule(ps), 0, 1) {
                Some((a, b)) => Some(seq![a, b]),
                None => None,
            },
        }
    } else if needed == 1 {
        match find_first(ps, small_plain()) {
            Some(t) => Some(seq![t.0]),
            None => None,
        }
    } else {
        None
    }
}

/// The opposing Pokémon other than `exclude` (see `pokes`).
fn pokes_exec(reg: &CardFacts, state: &StateDto, exclude: u32) -> (r: Vec<(u32, u16, bool)>)
    ensures
        r@ == pokes(reg@, in_play(state.opp), exclude),
{
    let ghost pre = front_seq(state.opp.active);
    let mut v: Vec<(u32, u16, bool)> = Vec::new();
    if let Some(a) = &state.opp.active {
        if a.entity_id != exclude {
            v.push((a.entity_id, remaining_hp(a), bomb_pred_exec(reg, a, 0)));
        }
    }
    proof {
        assert(pre + state.opp.bench@.take(0) =~= pre);
        if pre.len() > 0 {
            assert(pre.drop_last() =~= Seq::<PokemonInPlayDto>::empty());
            assert(pokes(reg@, pre.drop_last(), exclude) =~= Seq::<(u32, u16, bool)>::empty());
        }
        assert(v@ =~= pokes(reg@, pre, exclude));
    }
    let mut i: usize = 0;
    while i < state.opp.bench.len()
        invariant
            i <= state.opp.bench@.len(),
            v@ == pokes(reg@, pre + state.opp.bench@.take(i as int), exclude),
        decreases state.opp.bench.len() - i,
    {
        proof {
            assert((pre + state.opp.bench@.take(i + 1)).drop_last() =~= pre + state.opp.bench@.take(
                i as int,
            ));
            assert((pre + state.opp.bench@.take(i + 1)).last() == state.opp.bench@[i as int]);
        }
        let p = &state.opp.bench[i];
        if p.entity_id != exclude {
            v.push((p.entity_id, remaining_hp(p), bomb_pred_exec(reg, p, 0)));
        }
        i = i + 1;
    }
    proof {
        assert(state.opp.bench@.take(i as int) =~= state.opp.bench@);
        assert(pre + state.opp.bench@ =~= in_play(state.opp));
    }
    v
}

/// The extra targets (see `extra_spec`).
pub fn find_extra_prize_targets(reg: &CardFacts, state: &StateDto, needed: usize, exclude: u32) -> (r:
    Option<Vec<u32>>)
    ensures
        match extra_spec(reg@, *state, needed as int, exclude) {
            Some(v) => r matches Some(x) && x@ == v,
            None => r is None,
        },
{
    if needed == 0 {
        return Some(Vec::new());
    }
    let ps = pokes_exec(reg, state, exclude);
    if needed == 2 {
        let mut i: usize = 0;
        while i < ps.len()
            invariant
                i <= ps@.len(),
                forall|j: int| 0 <= j < i ==> !small_ex()(#[trigger] ps@[j]),
            decreases ps.len() - i,
        {
            if ps[i].2 && ps[i].1 <= 60 {
                proof {
                    lemma_first_at(ps@, small_ex(), i as int);
                }
                let v: Vec<u32> = vec![ps[i].0];
                return Some(v);
            }
            i = i + 1;
        }
        proof {
            lemma_first_none(ps@, small_ex());
        }
        let mut nr: Vec<(u32, u16)> = Vec::new();
        let mut k: usize = 0;
        while k < ps.len()
            invariant
                k <= ps@.len(),
                nr@ == non_rule(ps@.take(k as int)),
            decreases ps.len() - k,
        {
            proof {
                assert(ps@.take(k + 1).drop_last() =~= ps@.take(k as int));
                assert(ps@.take(k + 1).last() == ps@[k as int]);
            }
            if !ps[k].2 {
                nr.push((ps[k].0, ps[k].1));
            }
            k = k + 1;
        }
        proof {
            assert(ps@.take(k as int) =~= ps@);
        }
        let n = nr.len();
        let mut a: usize = 0;
        while a < n
            invariant
                n == nr@.len(),
                a <= n,
                pair_search(nr@, 0, 1) == pair_search(nr@, a as int, a + 1),
            decreases n - a,
        {
            let mut b: usize = a + 1;
            while b < n
                invariant
                    n == nr@.len(),
                    a < n,
                    a + 1 <= b <= n,
                    pair_search(nr@, 0, 1) == pair_search(nr@, a as int, b as int),
                decreases n - b,
            {
                if nr[a].1 as u32 + nr[b].1 as u32 <= 60 {
                    let v: Vec<u32> = vec![nr[a].0, nr[b].0];
                    return Some(v);
                }
                b = b + 1;
            }
            a = a + 1;
        }
        return None;
    }
    if needed == 1 {
        let mut i: usize = 0;
        while i < ps.len()
            invariant
                i <= ps@.len(),
                forall|j: int| 0 <= j < i ==> !small_plain()(#[trigger] ps@[j]),
            decreases ps.len() - i,
        {
            if !ps[i].2 && ps[i].1 <= 60 {
                proof {
                    lemma_first_at(ps@, small_plain(), i as int);
                }
                let v: Vec<u32> = vec![ps[i].0];
                return Some(v);
            }
            i = i + 1;
        }
        proof {
            lemma_first_none(ps@, small_plain());
        }
        return None;
    }
    None
}

} // verus!

verus! {

// ============================================================================
// The bot and its memory
// ============================================================================

/// The fixed strategy bot for the dragapult-ex deck (Yopifutto persona).
pub struct DragapultYopifuttoBot {
    /// Card facts (rule-box test, attack indices by name).
    pub registry: CardFacts,
    /// Fallback for the decisions the persona leaves open.
    pub fallback: RandomPolicy,
    /// Target decided by the last action (boss's orders, Cursed Bomb), for the next target
    /// prompt.
    pub pending_target: Option<u32>,
    /// What the next zone prompt searches for (the card just played, or a recon directive).
    pub pending_search: Option<String>,
    /// The turn the per-turn flags belong to.
    pub current_turn: Option<u32>,
    /// Unfair stamp was played this turn.
    pub unfair_stamp_used_this_turn: bool,
    /// Targets for Phantom Dive's counters planned while closing out the game.
    pub pending_distribute: Option<Vec<u32>>,
    /// Rare candy was just played: its basic Pokémon is a duskull.
    pub pending_rare_candy: bool,
}

/// The bot's memory as values.
pub struct YopifuttoMemory {
    pub pending_target: Option<u32>,
    pub pending_search: Option<Seq<char>>,
    pub current_turn: Option<u32>,
    pub unfair_stamp_used_this_turn: bool,
    pub pending_distribute: Option<Seq<u32>>,
    pub pending_rare_candy: bool,
}

/// The ids of an optional list.
pub open spec fn opt_ids(v: Option<Vec<u32>>) -> Option<Seq<u32>> {
    match v {
        Some(x) => Some(x@),
        None => None,
    }
}

impl View for DragapultYopifuttoBot {
    type V = YopifuttoMemory;

    open spec fn view(&self) -> YopifuttoMemory {
        YopifuttoMemory {
            pending_target: self.pending_target,
            pending_search: card_view(self.pending_search),
            current_turn: self.current_turn,
            unfair_stamp_used_this_turn: self.unfair_stamp_used_this_turn,
            pending_distribute: opt_ids(self.pending_distribute),
            pending_rare_candy: self.pending_rare_candy,
        }
    }
}

/// The memory of a new bot.
pub open spec fn fresh_yopi() -> YopifuttoMemory {
    YopifuttoMemory {
        pending_target: None,
        pending_search: None,
        current_turn: None,
        unfair_stamp_used_this_turn: false,
        pending_distribute: None,
        pending_rare_candy: false,
    }
}

/// A fezandipiti-ex or meowth-ex (`slug`) with 200 HP or less left.
pub open spec fn small_mon(slug: Seq<char>) -> spec_fn(PokemonInPlayDto) -> bool {
    |p: PokemonInPlayDto| card_is(p.card, slug) && rem_hp(p) <= 200
}

/// Boss's orders outside the closing plays: with Phantom Dive ready, boss's orders legal
/// and no opposing dragapult-ex, bring up a fezandipiti-ex, else a meowth-ex, with 200 HP or
/// less left from the bench; else the only opposing drakloak when it is on the bench. The
/// action and the target.
pub open spec fn boss_fa13_spec(state: StateDto, legal: Seq<Action>) -> (Option<int>, Option<u32>) {
    let boss = first_where(legal, plays(state, "boss-s-orders"@));
    if !phantom_ready_spec(state) || boss is None || any_in_play(state.opp, mon_is("dragapult-ex"@)) {
        (None, None)
    } else if find_first(state.opp.bench@, small_mon("fezandipiti-ex"@)) is Some {
        (boss, Some(find_first(state.opp.bench@, small_mon("fezandipiti-ex"@))->0.entity_id))
    } else if find_first(state.opp.bench@, small_mon("meowth-ex"@)) is Some {
        (boss, Some(find_first(state.opp.bench@, small_mon("meowth-ex"@))->0.entity_id))
    } else if crate::util::count_where(in_play(state.opp), mon_is("drakloak"@)) == 1 && find_first(
        state.opp.bench@,
        mon_is("drakloak"@),
    ) is Some {
        (boss, Some(find_first(state.opp.bench@, mon_is("drakloak"@))->0.entity_id))
    } else {
        (None, None)
    }
}

/// The first opposing bench Pokémon satisfying `small_mon(slug)` (kind 0) or of slug `slug`
/// (kind 1).
fn first_opp_bench(state: &StateDto, slug: &str, kind: u8) -> (r: Option<u32>)
    ensures
        r == (match find_first(
            state.opp.bench@,
            if kind == 0 {
                small_mon(slug@)
            } else {
                mon_is(slug@)
            },
        ) {
            Some(p) => Some(p.entity_id),
            None => None,
        }),
{
    let ghost f = if kind == 0 {
        small_mon(slug@)
    } else {
        mon_is(slug@)
    };
    let mut i: usize = 0;
    while i < state.opp.bench.len()
        invariant
            i <= state.opp.bench@.len(),
            forall|j: int| 0 <= j < i ==> !f(#[trigger] state.opp.bench@[j]),
        decreases state.opp.bench.len() - i,
    {
        let p = &state.opp.bench[i];
        let hit = if kind == 0 {
            card_is_exec(&p.card, slug) && remaining_hp(p) <= 200
        } else {
            card_is_exec(&p.card, slug)
        };
        if hit {
            proof {
                lemma_first_at(state.opp.bench@, f, i as int);
            }
            return Some(p.entity_id);
        }
        i = i + 1;
    }
    proof {
        lemma_first_none(state.opp.bench@, f);
    }
    None
}

/// Number of opposing drakloak in play.
fn opp_drakloak_count(state: &StateDto) -> (r: usize)
    requires
        board_fits(*state),
    ensures
        r == crate::util::count_where(in_play(state.opp), mon_is("drakloak"@)),
{
    let ghost pre = front_seq(state.opp.active);
    let a: usize = match &state.opp.active {
        Some(x) => if card_is_exec(&x.card, "drakloak") {
            1
        } else {
            0
        },
        None => 0,
    };
    let b = super::count_mons(state.opp.bench.as_slice(), "drakloak");
    proof {
        crate::util::lemma_count_where_le(state.opp.bench@, mon_is("drakloak"@));
        assert(pre + state.opp.bench@ =~= in_play(state.opp));
        lemma_count_where_concat(pre, state.opp.bench@, mon_is("drakloak"@));
        if pre.len() > 0 {
            assert(pre.drop_last() =~= Seq::<PokemonInPlayDto>::empty());
            assert(crate::util::count_where(pre.drop_last(), mon_is("drakloak"@)) == 0);
            assert(pre.last() == state.opp.active->0);
        } else {
            assert(crate::util::count_where(pre, mon_is("drakloak"@)) == 0);
        }
    }
    a + b
}

/// Counting over a concatenation.
pub proof fn lemma_count_where_concat<A>(a: Seq<A>, b: Seq<A>, f: spec_fn(A) -> bool)
    ensures
        crate::util::count_where(a + b, f) == crate::util::count_where(a, f) + crate::util::count_where(
            b,
            f,
        ),
    decreases b.len(),
{
    if b.len() == 0 {
        assert(a + b =~= a);
    } else {
        lemma_count_where_concat(a, b.drop_last(), f);
        assert((a + b).drop_last() =~= a + b.drop_last());
        assert((a + b).last() == b.last());
    }
}

} // verus!

verus! {

/// The memory with the pending target replaced.
pub open spec fn y_target(m: YopifuttoMemory, t: Option<u32>) -> YopifuttoMemory {
    YopifuttoMemory { pending_target: t, ..m }
}

/// The memory with the pending search replaced.
pub open spec fn y_search(m: YopifuttoMemory, s: Option<Seq<char>>) -> YopifuttoMemory {
    YopifuttoMemory { pending_search: s, ..m }
}

/// The memory with the planned counters replaced.
pub open spec fn y_dist(m: YopifuttoMemory, d: Option<Seq<u32>>) -> YopifuttoMemory {
    YopifuttoMemory { pending_distribute: d, ..m }
}

/// A Cursed Bomb: a legal ability of my dusknoir.
pub open spec fn bomb_action(state: StateDto, legal: Seq<Action>) -> Option<int> {
    first_where(legal, uses_ability_of(state, "dusknoir"@))
}

/// Cursed Bomb before Phantom Dive: with the opponent above one prize and Phantom Dive
/// ready, onto the opposing rule-box Pokémon with the most HP left. Action and target.
pub open spec fn cursed_bomb_spec(reg: Map<Seq<char>, FactView>, state: StateDto, legal: Seq<Action>) -> (
    Option<int>,
    Option<u32>,
) {
    if state.opp.prizes@.len() <= 1 || !phantom_ready_spec(state) || bomb_action(state, legal) is None {
        (None, None)
    } else {
        match last_max_mon(in_play(state.opp), reg_ex(reg)) {
            Some(t) => (bomb_action(state, legal), Some(t.entity_id)),
            None => (None, None),
        }
    }
}

/// Cursed Bomb to finish: with the opponent above one prize, onto the opposing Pokémon with
/// the most HP left among those it knocks out (130 or less). Action and target.
pub open spec fn finisher_spec(state: StateDto, legal: Seq<Action>) -> (Option<int>, Option<u32>) {
    if state.opp.prizes@.len() <= 1 || bomb_action(state, legal) is None {
        (None, None)
    } else {
        match last_max_mon(in_play(state.opp), within_bomb()) {
            Some(t) => (bomb_action(state, legal), Some(t.entity_id)),
            None => (None, None),
        }
    }
}

/// Closing play with 4 or 3 prizes left: a main rule-box target (softened by Cursed Bomb
/// when a bomb and boss's orders allow up to 330 HP) plus targets for the other prizes;
/// meowth-ex to fetch boss's orders when it is not in hand; the bomb on the main target when
/// it has more than 200 HP left; boss's orders on it when it is not active; otherwise only
/// the counters are planned.
pub open spec fn da12_spec(
    reg: Map<Seq<char>, FactView>,
    m: YopifuttoMemory,
    state: StateDto,
    legal: Seq<Action>,
) -> (Option<int>, YopifuttoMemory) {
    let sides = state.me.prizes@.len() as int;
    let boss_in_hand = count_in_hand_spec(state, "boss-s-orders"@) >= 1;
    let bomb = bomb_action(state, legal);
    let can_cursed = bomb is Some && state.opp.prizes@.len() > 1 && boss_in_hand;
    let max: int = if can_cursed {
        330
    } else {
        200
    };
    match main_ex_spec(reg, state, max) {
        None => (None, m),
        Some(main) => match extra_spec(
            reg,
            state,
            if sides >= 2 {
                sides - 2
            } else {
                0
            },
            main.0,
        ) {
            None => (None, m),
            Some(extra) => if !boss_in_hand {
                let me = first_where(legal, plays(state, "meowth-ex"@));
                if me is Some {
                    (me, y_search(m, Some("okunote-boss"@)))
                } else {
                    (None, m)
                }
            } else if main.1 > 200 {
                if bomb is Some {
                    (bomb, y_target(m, Some(main.0)))
                } else {
                    (None, m)
                }
            } else if !(state.opp.active matches Some(a) && a.entity_id == main.0) {
                let boss = first_where(legal, plays(state, "boss-s-orders"@));
                if boss is Some {
                    (boss, y_dist(y_target(m, Some(main.0)), Some(extra)))
                } else {
                    (None, m)
                }
            } else {
                (None, y_dist(m, Some(extra)))
            },
        },
    }
}

/// Opposing bench Pokémon with 200 HP or less left, as (id, HP left).
pub open spec fn ko_list(s: Seq<PokemonInPlayDto>) -> Seq<(u32, u16)>
    decreases s.len(),
{
    if s.len() == 0 {
        Seq::empty()
    } else {
        let r = ko_list(s.drop_last());
        if rem_hp(s.last()) <= 200 {
            r.push((s.last().entity_id, rem_hp(s.last()) as u16))
        } else {
            r
        }
    }
}

/// The entry with the most HP left (the last on a tie).
pub open spec fn last_max_pair(s: Seq<(u32, u16)>) -> Option<(u32, u16)>
    decreases s.len(),
{
    if s.len() == 0 {
        None
    } else {
        let b = last_max_pair(s.drop_last());
        let x = s.last();
        match b {
            Some(y) => if x.1 >= y.1 {
                Some(x)
            } else {
                Some(y)
            },
            None => Some(x),
        }
    }
}

/// The id of an optional entry.
pub open spec fn pair_id(x: Option<(u32, u16)>) -> u32 {
    match x {
        Some((e, _)) => e,
        None => 0,
    }
}

/// Ids of the entries.
pub open spec fn pair_ids(s: Seq<(u32, u16)>) -> Seq<u32> {
    s.map_values(|x: (u32, u16)| x.0)
}

/// The closing plays with 4 prizes or fewer left and Phantom Dive ready (with `pick` the
/// random target on my last prizes): 4 or 3 prizes `da12_spec`; on my last prize a Cursed
/// Bomb finisher first; then boss's orders on a bench Pokémon it knocks out (the one with the
/// most HP left with 2 prizes left, `pick` otherwise), else meowth-ex to fetch boss's orders.
pub open spec fn dgroup_spec(
    reg: Map<Seq<char>, FactView>,
    m: YopifuttoMemory,
    state: StateDto,
    legal: Seq<Action>,
    pick: u32,
) -> (Option<int>, YopifuttoMemory) {
    let sides = state.me.prizes@.len();
    if sides > 4 || !phantom_ready_spec(state) {
        (None, m)
    } else if sides >= 3 {
        da12_spec(reg, m, state, legal)
    } else if sides == 1 && finisher_spec(state, legal).0 is Some {
        (finisher_spec(state, legal).0, y_target(m, finisher_spec(state, legal).1))
    } else {
        let kt = ko_list(state.opp.bench@);
        if kt.len() == 0 {
            (None, m)
        } else {
            let target = if sides == 2 {
                pair_id(last_max_pair(kt))
            } else {
                pick
            };
            let boss = first_where(legal, plays(state, "boss-s-orders"@));
            let me = first_where(legal, plays(state, "meowth-ex"@));
            if boss is Some {
                (boss, y_target(m, Some(target)))
            } else if me is Some {
                (me, y_search(m, Some("okunote-boss"@)))
            } else {
                (None, m)
            }
        }
    }
}

/// The random target the closing plays may draw: one of the knock-out list when it draws.
pub open spec fn dgroup_pick_ok(state: StateDto, pick: u32) -> bool {
    ko_list(state.opp.bench@).len() > 0 ==> pair_ids(ko_list(state.opp.bench@)).contains(pick)
}

/// Opposing bench Pokémon with 200 HP or less left (see `ko_list`).
fn ko_list_exec(state: &StateDto) -> (r: Vec<(u32, u16)>)
    ensures
        r@ == ko_list(state.opp.bench@),
{
    let mut v: Vec<(u32, u16)> = Vec::new();
    let mut i: usize = 0;
    while i < state.opp.bench.len()
        invariant
            i <= state.opp.bench@.len(),
            v@ == ko_list(state.opp.bench@.take(i as int)),
        decreases state.opp.bench.len() - i,
    {
        proof {
            assert(state.opp.bench@.take(i + 1).drop_last() =~= state.opp.bench@.take(i as int));
            assert(state.opp.bench@.take(i + 1).last() == state.opp.bench@[i as int]);
        }
        let p = &state.opp.bench[i];
        let rem = remaining_hp(p);
        if rem <= 200 {
            v.push((p.entity_id, rem));
        }
        i = i + 1;
    }
    proof {
        assert(state.opp.bench@.take(i as int) =~= state.opp.bench@);
    }
    v
}

/// The entry with the most HP left (see `last_max_pair`).
fn last_max_pair_exec(v: &Vec<(u32, u16)>) -> (r: Option<(u32, u16)>)
    ensures
        r == last_max_pair(v@),
{
    let mut best: Option<(u32, u16)> = None;
    let mut i: usize = 0;
    while i < v.len()
        invariant
            i <= v@.len(),
            best == last_max_pair(v@.take(i as int)),
        decreases v.len() - i,
    {
        proof {
            assert(v@.take(i + 1).drop_last() =~= v@.take(i as int));
            assert(v@.take(i + 1).last() == v@[i as int]);
        }
        let x = v[i];
        match best {
            Some(y) => {
                if x.1 >= y.1 {
                    best = Some(x);
                }
            },
            None => {
                best = Some(x);
            },
        }
        i = i + 1;
    }
    proof {
        assert(v@.take(i as int) =~= v@);
    }
    best
}

} // verus!

verus! {

/// Rare candy: its first legal play when a dusknoir is in hand and a duskull in play.
pub open spec fn y_rare_candy_spec(state: StateDto, legal: Seq<Action>) -> Option<int> {
    if count_in_hand_spec(state, "dusknoir"@) < 1 || count_in_play_spec(state, "duskull"@) < 1 {
        None
    } else {
        first_where(legal, plays(state, "rare-candy"@))
    }
}

/// The attack: with a dragapult-ex active, Phantom Dive; with a budew, Itchy Pollen.
pub open spec fn y_attack_spec(reg: Map<Seq<char>, FactView>, state: StateDto, legal: Seq<Action>) -> Option<
    int,
> {
    match state.me.active {
        Some(a) => match a.card {
            Some(c) => if c@ == "dragapult-ex"@ {
                first_attack(reg, c@, seq!["ファントムダイブ"@], legal)
            } else if c@ == "budew"@ {
                first_attack(reg, c@, seq!["むずむずかふん"@], legal)
            } else {
                None
            },
            None => None,
        },
        None => None,
    }
}

impl DragapultYopifuttoBot {
    /// A bot with the given card facts and an empty memory.
    pub fn new(registry: CardFacts) -> (r: Self)
        ensures
            r@ == fresh_yopi(),
            r.registry@ == registry@,
    {
        DragapultYopifuttoBot {
            registry,
            fallback: RandomPolicy,
            pending_target: None,
            pending_search: None,
            current_turn: None,
            unfair_stamp_used_this_turn: false,
            pending_distribute: None,
            pending_rare_candy: false,
        }
    }

    /// Rare candy (see `y_rare_candy_spec`); its basic Pokémon will be a duskull.
    pub fn find_rare_candy(&mut self, state: &StateDto, legal: &[Action]) -> (r: Option<usize>)
        requires
            board_fits(*state),
        ensures
            opt_int(r) == y_rare_candy_spec(*state, legal@),
            r matches Some(k) ==> k < legal@.len(),
            final(self).registry == old(self).registry,
            final(self)@ == (YopifuttoMemory {
                pending_rare_candy: old(self)@.pending_rare_candy || r is Some,
                ..old(self)@
            }),
    {
        let rc = match find_play(state, legal, "rare-candy") {
            Some(k) => k,
            None => return None,
        };
        if count_in_hand(state, "dusknoir") < 1 || count_in_play(state, "duskull") < 1 {
            return None;
        }
        self.pending_rare_candy = true;
        Some(rc)
    }

    /// The attack (see `y_attack_spec`).
    pub fn find_attack(&self, state: &StateDto, legal: &[Action]) -> (r: Option<usize>)
        ensures
            opt_int(r) == y_attack_spec(self.registry@, *state, legal@),
            r matches Some(k) ==> k < legal@.len(),
    {
        let active = match &state.me.active {
            Some(a) => a,
            None => return None,
        };
        let slug = match &active.card {
            Some(c) => c,
            None => return None,
        };
        if super::string_is(slug, "dragapult-ex") {
            let names: &[&str] = &["ファントムダイブ"];
            assert(strs_view(names@) =~= seq!["ファントムダイブ"@]);
            first_attack_exec(&self.registry, slug.as_str(), names, legal)
        } else if super::string_is(slug, "budew") {
            let names: &[&str] = &["むずむずかふん"];
            assert(strs_view(names@) =~= seq!["むずむずかふん"@]);
            first_attack_exec(&self.registry, slug.as_str(), names, legal)
        } else {
            None
        }
    }

    /// Boss's orders outside the closing plays (see `boss_fa13_spec`).
    pub fn find_boss_fa13(&mut self, state: &StateDto, legal: &[Action]) -> (r: Option<usize>)
        requires
            board_fits(*state),
        ensures
            opt_int(r) == boss_fa13_spec(*state, legal@).0,
            r matches Some(k) ==> k < legal@.len(),
            final(self).registry == old(self).registry,
            final(self)@ == (if r is Some {
                y_target(old(self)@, boss_fa13_spec(*state, legal@).1)
            } else {
                old(self)@
            }),
    {
        if !has_phantom_ready_dragapult(state) {
            return None;
        }
        let boss = match find_play(state, legal, "boss-s-orders") {
            Some(k) => k,
            None => return None,
        };
        if super::board::opp_has_in_play(state, "dragapult-ex") {
            return None;
        }
        if let Some(t) = first_opp_bench(state, "fezandipiti-ex", 0) {
            self.pending_target = Some(t);
            return Some(boss);
        }
        if let Some(t) = first_opp_bench(state, "meowth-ex", 0) {
            self.pending_target = Some(t);
            return Some(boss);
        }
        if opp_drakloak_count(state) == 1 {
            if let Some(t) = first_opp_bench(state, "drakloak", 1) {
                self.pending_target = Some(t);
                return Some(boss);
            }
        }
        None
    }

    /// Cursed Bomb before Phantom Dive (see `cursed_bomb_spec`).
    pub fn find_cursed_bomb(&mut self, state: &StateDto, legal: &[Action]) -> (r: Option<usize>)
        ensures
            opt_int(r) == cursed_bomb_spec(old(self).registry@, *state, legal@).0,
            r matches Some(k) ==> k < legal@.len(),
            final(self).registry == old(self).registry,
            final(self)@ == (if r is Some {
                y_target(old(self)@, cursed_bomb_spec(old(self).registry@, *state, legal@).1)
            } else {
                old(self)@
            }),
    {
        if state.opp.prizes.len() <= 1 || !has_phantom_ready_dragapult(state) {
            return None;
        }
        let bomb = match find_ability(state, legal, "dusknoir") {
            Some(k) => k,
            None => return None,
        };
        match last_max_opp(&self.registry, state, 0) {
            Some(t) => {
                self.pending_target = Some(t.entity_id);
                Some(bomb)
            },
            None => None,
        }
    }

    /// Cursed Bomb to finish (see `finisher_spec`).
    pub fn find_cursed_bomb_finisher(&mut self, state: &StateDto, legal: &[Action]) -> (r: Option<usize>)
        ensures
            opt_int(r) == finisher_spec(*state, legal@).0,
            r matches Some(k) ==> k < legal@.len(),
            final(self).registry == old(self).registry,
            final(self)@ == (if r is Some {
                y_target(old(self)@, finisher_spec(*state, legal@).1)
            } else {
                old(self)@
            }),
    {
        if state.opp.prizes.len() <= 1 {
            return None;
        }
        let bomb = match find_ability(state, legal, "dusknoir") {
            Some(k) => k,
            None => return None,
        };
        match last_max_opp(&self.registry, state, 1) {
            Some(t) => {
                self.pending_target = Some(t.entity_id);
                Some(bomb)
            },
            None => None,
        }
    }

    /// Closing play with 4 or 3 prizes left (see `da12_spec`).
    pub fn find_d_a_1_2(&mut self, state: &StateDto, legal: &[Action]) -> (r: Option<usize>)
        ensures
            opt_int(r) == da12_spec(old(self).registry@, old(self)@, *state, legal@).0,
            final(self)@ == da12_spec(old(self).registry@, old(self)@, *state, legal@).1,
            r matches Some(k) ==> k < legal@.len(),
            final(self).registry == old(self).registry,
    {
        let sides = state.me.prizes.len();
        let boss_in_hand = count_in_hand(state, "boss-s-orders") >= 1;
        let bomb = find_ability(state, legal, "dusknoir");
        let can_cursed = bomb.is_some() && state.opp.prizes.len() > 1 && boss_in_hand;
        let max_hp: u16 = if can_cursed {
            330
        } else {
            200
        };
        let main = match pick_main_ex(&self.registry, state, max_hp) {
            Some(x) => x,
            None => return None,
        };
        let needed: usize = if sides >= 2 {
            sides - 2
        } else {
            0
        };
        let extra = match find_extra_prize_targets(&self.registry, state, needed, main.0) {
            Some(v) => v,
            None => return None,
        };
        if !boss_in_hand {
            if let Some(k) = find_play(state, legal, "meowth-ex") {
                self.pending_search = Some("okunote-boss".to_owned());
                return Some(k);
            }
            return None;
        }
        if main.1 > 200 {
            if let Some(k) = bomb {
                self.pending_target = Some(main.0);
                return Some(k);
            }
            return None;
        }
        let main_is_active = match &state.opp.active {
            Some(a) => a.entity_id == main.0,
            None => false,
        };
        if !main_is_active {
            if let Some(k) = find_play(state, legal, "boss-s-orders") {
                self.pending_target = Some(main.0);
                self.pending_distribute = Some(extra);
                return Some(k);
            }
            return None;
        }
        self.pending_distribute = Some(extra);
        None
    }

    /// The closing plays (see `dgroup_spec`), with the random target they drew.
    pub fn find_d_group_action(&mut self, state: &StateDto, legal: &[Action], rng: &mut ChaCha20Rng) -> (r: (
        Option<usize>,
        Ghost<u32>,
    ))
        requires
            board_fits(*state),
        ensures
            dgroup_pick_ok(*state, r.1@),
            opt_int(r.0) == dgroup_spec(old(self).registry@, old(self)@, *state, legal@, r.1@).0,
            final(self)@ == dgroup_spec(old(self).registry@, old(self)@, *state, legal@, r.1@).1,
            r.0 matches Some(k) ==> k < legal@.len(),
            final(self).registry == old(self).registry,
    {
        let kt = ko_list_exec(state);
        let ghost default_pick: u32 = if kt@.len() > 0 {
            kt@[0].0
        } else {
            0
        };
        proof {
            if kt@.len() > 0 {
                assert(pair_ids(kt@)[0] == kt@[0].0);
                assert(pair_ids(kt@).contains(default_pick));
            }
        }
        let sides = state.me.prizes.len();
        if sides > 4 || !has_phantom_ready_dragapult(state) {
            return (None, Ghost(default_pick));
        }
        if sides >= 3 {
            let r = self.find_d_a_1_2(state, legal);
            return (r, Ghost(default_pick));
        }
        if sides == 1 {
            if let Some(k) = self.find_cursed_bomb_finisher(state, legal) {
                return (Some(k), Ghost(default_pick));
            }
        }
        if kt.len() == 0 {
            return (None, Ghost(default_pick));
        }
        let ghost mut pick = default_pick;
        let target: u32 = if sides == 2 {
            match last_max_pair_exec(&kt) {
                Some(x) => x.0,
                None => kt[0].0,
            }
        } else {
            let j = draw_below(rng, 0, kt.len());
            proof {
                pick = kt@[j as int].0;
                assert(pair_ids(kt@)[j as int] == pick);
            }
            kt[j].0
        };
        if let Some(k) = find_play(state, legal, "boss-s-orders") {
            self.pending_target = Some(target);
            return (Some(k), Ghost(pick));
        }
        if let Some(k) = find_play(state, legal, "meowth-ex") {
            self.pending_search = Some("okunote-boss".to_owned());
            return (Some(k), Ghost(pick));
        }
        (None, Ghost(pick))
    }
}

} // verus!

verus! {

// ============================================================================
// Phantom Dive's counters (this persona's order)
// ============================================================================

/// A target: (id, slug code, HP left, has energy, rule-box). Slug codes: 0 drakloak,
/// 1 dreepy, 2 duskull, 3 fezandipiti-ex, 4 anything else.
pub type DiveTarget = (u32, u8, u16, bool, bool);

/// The slug code of a card (a hidden card is "anything else").
pub open spec fn slug_code(card: Option<String>) -> u8 {
    if card_is(card, "drakloak"@) {
        0
    } else if card_is(card, "dreepy"@) {
        1
    } else if card_is(card, "duskull"@) {
        2
    } else if card_is(card, "fezandipiti-ex"@) {
        3
    } else {
        4
    }
}

/// The eligible opposing Pokémon as dive targets, in order.
pub open spec fn yts(reg: Map<Seq<char>, FactView>, state: StateDto, elig: Seq<u32>) -> Seq<DiveTarget>
    decreases elig.len(),
{
    if elig.len() == 0 {
        Seq::empty()
    } else {
        let r = yts(reg, state, elig.drop_last());
        match super::board::opp_mon(state, elig.last()) {
            Some(m) => r.push(
                (
                    elig.last(),
                    slug_code(m.card),
                    rem_hp(m) as u16,
                    m.energy_attached@.len() > 0,
                    reg_ex(reg)(m),
                ),
            ),
            None => r,
        }
    }
}

/// Counters placed on `id` so far.
pub open spec fn cnt(m: Map<u32, int>, id: u32) -> int {
    if m.contains_key(id) {
        m[id]
    } else {
        0
    }
}

/// `m` with `g` more counters on `id` (unchanged when `g` is 0).
pub open spec fn add_cnt(m: Map<u32, int>, id: u32, g: int) -> Map<u32, int> {
    if g > 0 {
        m.insert(id, cnt(m, id) + g)
    } else {
        m
    }
}

/// The first target of slug code `k` that `left` and the cap can knock out.
pub open spec fn ko_target(k: u8, left: int, cap: int) -> spec_fn(DiveTarget) -> bool {
    |t: DiveTarget|
        t.1 == k && super::dragapult_takeuchi::ko_byte(t.2 as int) <= left
            && super::dragapult_takeuchi::ko_byte(t.2 as int) <= cap
}

/// The primary target of the first phase: a drakloak, else a dreepy, else a duskull that
/// the counters knock out; else one counter on a fezandipiti-ex. Counters, what is left, and
/// the primary target.
pub open spec fn y_phase1(ts: Seq<DiveTarget>, total: int, cap: int) -> (Map<u32, int>, int, Option<u32>) {
    let e = Map::<u32, int>::empty();
    let f0 = find_first(ts, ko_target(0, total, cap));
    let f1 = find_first(ts, ko_target(1, total, cap));
    let f2 = find_first(ts, ko_target(2, total, cap));
    let hit = if f0 is Some {
        f0
    } else if f1 is Some {
        f1
    } else {
        f2
    };
    match hit {
        Some(t) => {
            let k = super::dragapult_takeuchi::ko_byte(t.2 as int) as int;
            (add_cnt(e, t.0, k), total - k, Some(t.0))
        },
        None => match find_first(ts, |t: DiveTarget| t.1 == 3) {
            Some(t) => if total >= 1 && cap >= 1 {
                (add_cnt(e, t.0, 1), total - 1, Some(t.0))
            } else {
                (e, total, None)
            },
            None => (e, total, None),
        },
    }
}

/// The targets other than the primary one (all of them without one).
pub open spec fn without(ts: Seq<DiveTarget>, prim: Option<u32>) -> Seq<DiveTarget>
    decreases ts.len(),
{
    if ts.len() == 0 {
        Seq::empty()
    } else {
        let r = without(ts.drop_last(), prim);
        if prim != Some(ts.last().0) {
            r.push(ts.last())
        } else {
            r
        }
    }
}

/// Rank for the rest after a primary target: dreepy, drakloak, rule-box with 80 HP or less
/// left, rule-box, others.
pub open spec fn rank_after(t: DiveTarget) -> int {
    if t.1 == 1 {
        0
    } else if t.1 == 0 {
        1
    } else if t.4 && t.2 <= 80 {
        2
    } else if t.4 {
        3
    } else {
        4
    }
}

/// Rank without a primary target: dreepy without energy, dreepy, drakloak with energy,
/// others.
pub open spec fn rank_plain(t: DiveTarget) -> int {
    if t.1 == 1 && !t.3 {
        0
    } else if t.1 == 1 {
        1
    } else if t.1 == 0 && t.3 {
        2
    } else {
        3
    }
}

/// The rank in force.
pub open spec fn rank_of(t: DiveTarget, after: bool) -> int {
    if after {
        rank_after(t)
    } else {
        rank_plain(t)
    }
}

/// Order of targets: by rank, then by id.
pub open spec fn y_lt(a: DiveTarget, b: DiveTarget, after: bool) -> bool {
    rank_of(a, after) < rank_of(b, after) || (rank_of(a, after) == rank_of(b, after) && a.0 < b.0)
}

/// Index of the first least target among the first `n`.
pub open spec fn y_min_idx(s: Seq<DiveTarget>, n: int, after: bool) -> int
    decreases n,
{
    if n <= 1 {
        0
    } else {
        let b = y_min_idx(s, n - 1, after);
        if y_lt(s[n - 1], s[b], after) {
            n - 1
        } else {
            b
        }
    }
}

/// The targets in order (the first least one repeatedly taken out).
pub open spec fn y_sort(s: Seq<DiveTarget>, after: bool) -> Seq<DiveTarget>
    decreases s.len(),
{
    if s.len() == 0 {
        s
    } else {
        let m = y_min_idx(s, s.len() as int, after);
        if 0 <= m < s.len() {
            seq![s[m]] + y_sort(s.remove(m), after)
        } else {
            s
        }
    }
}

/// Topping up each target of `order` to the cap, in order, from what is left.
pub open spec fn fill_to_cap(order: Seq<DiveTarget>, m: Map<u32, int>, left: int, cap: int) -> (Map<u32, int>, int)
    decreases order.len(),
{
    if order.len() == 0 {
        (m, left)
    } else {
        let id = order[0].0;
        let c = cnt(m, id);
        let g = if c < cap && left > 0 {
            super::dragapult_takeuchi::imin(left, cap - c)
        } else {
            0
        };
        fill_to_cap(order.drop_first(), add_cnt(m, id, g), left - g, cap)
    }
}

/// `per` counters (or what is left) on each target of `order`, in order.
pub open spec fn per_each(order: Seq<DiveTarget>, m: Map<u32, int>, left: int, per: int) -> (Map<u32, int>, int)
    decreases order.len(),
{
    if order.len() == 0 || left <= 0 {
        (m, left)
    } else {
        let g = super::dragapult_takeuchi::imin(per, left);
        per_each(order.drop_first(), add_cnt(m, order[0].0, g), left - g, per)
    }
}

/// The targets that got counters, in target order.
pub open spec fn y_placed(ts: Seq<DiveTarget>, m: Map<u32, int>) -> Seq<u32>
    decreases ts.len(),
{
    if ts.len() == 0 {
        Seq::empty()
    } else {
        let r = y_placed(ts.drop_last(), m);
        if cnt(m, ts.last().0) > 0 {
            r.push(ts.last().0)
        } else {
            r
        }
    }
}

/// Phantom Dive's counters by this persona's order: knock out a drakloak, else a dreepy, else
/// a duskull (else one counter on a fezandipiti-ex); the rest by `rank_after` up to the cap,
/// or without a primary target 3 each by `rank_plain` then up to the cap; then any counters
/// left onto any target up to the cap. The targets that got counters and their counts.
pub open spec fn dive_counts(reg: Map<Seq<char>, FactView>, p: PromptMsg, elig: Seq<u32>, total: u8, per: Option<u8>) -> Option<
    (Seq<u32>, Seq<u8>),
> {
    let cap = super::dragapult_takeuchi::dist_cap(total, per) as int;
    match p.state {
        None => None,
        Some(state) => {
            let ts = yts(reg, state, elig);
            if total == 0 || elig.len() == 0 || cap == 0 || ts.len() == 0 {
                None
            } else {
                let p1 = y_phase1(ts, total as int, cap);
                let order = without(ts, p1.2);
                let p2 = if p1.2 is Some {
                    fill_to_cap(y_sort(order, true), p1.0, p1.1, cap)
                } else {
                    let s = y_sort(order, false);
                    let a = per_each(s, p1.0, p1.1, super::dragapult_takeuchi::imin(3, cap));
                    fill_to_cap(s, a.0, a.1, cap)
                };
                let p3 = fill_to_cap(ts, p2.0, p2.1, cap);
                let ids = y_placed(ts, p3.0);
                if ids.len() == 0 {
                    None
                } else {
                    Some((ids, ids.map_values(|e: u32| cnt(p3.0, e) as u8)))
                }
            }
        },
    }
}

} // verus!

verus! {

/// The counters an association list records (a later entry for an id wins).
pub open spec fn assoc(l: Seq<(u32, u8)>) -> Map<u32, int>
    decreases l.len(),
{
    if l.len() == 0 {
        Map::empty()
    } else {
        assoc(l.drop_last()).insert(l.last().0, l.last().1 as int)
    }
}

/// No id occurs twice.
pub open spec fn ids_distinct(l: Seq<(u32, u8)>) -> bool {
    forall|i: int, j: int| 0 <= i < j < l.len() ==> l[i].0 != l[j].0
}

/// With distinct ids, the recorded counters are those of the entries.
pub proof fn lemma_assoc(l: Seq<(u32, u8)>)
    requires
        ids_distinct(l),
    ensures
        forall|i: int|
            0 <= i < l.len() ==> #[trigger] assoc(l).contains_key(l[i].0) && assoc(l)[l[i].0]
                == l[i].1 as int,
        forall|k: u32| #[trigger]
            assoc(l).contains_key(k) ==> exists|i: int| 0 <= i < l.len() && l[i].0 == k,
    decreases l.len(),
{
    if l.len() > 0 {
        let t = l.drop_last();
        assert(ids_distinct(t));
        lemma_assoc(t);
        assert forall|i: int| 0 <= i < l.len() implies #[trigger] assoc(l).contains_key(l[i].0)
            && assoc(l)[l[i].0] == l[i].1 as int by {
            if i < l.len() - 1 {
                assert(t[i] == l[i]);
                assert(l[i].0 != l[l.len() - 1].0);
                assert(assoc(t).contains_key(t[i].0));
            }
        }
        assert forall|k: u32| #[trigger] assoc(l).contains_key(k) implies exists|i: int|
            0 <= i < l.len() && l[i].0 == k by {
            if k != l.last().0 {
                assert(assoc(t).contains_key(k));
                let i = choose|i: int| 0 <= i < t.len() && t[i].0 == k;
                assert(l[i] == t[i]);
            } else {
                assert(l[l.len() - 1].0 == k);
            }
        }
    }
}

/// Counters recorded for `id`.
fn cnt_get(l: &Vec<(u32, u8)>, id: u32) -> (r: u8)
    requires
        ids_distinct(l@),
    ensures
        r == cnt(assoc(l@), id),
{
    proof {
        lemma_assoc(l@);
    }
    let mut i: usize = 0;
    while i < l.len()
        invariant
            i <= l@.len(),
            forall|j: int| 0 <= j < i ==> l@[j].0 != id,
        decreases l.len() - i,
    {
        if l[i].0 == id {
            assert(assoc(l@).contains_key(l@[i as int].0));
            return l[i].1;
        }
        i = i + 1;
    }
    proof {
        if assoc(l@).contains_key(id) {
            let j = choose|j: int| 0 <= j < l@.len() && l@[j].0 == id;
            assert(l@[j].0 != id);
        }
    }
    0
}

/// Records `g` more counters on `id`.
fn cnt_add(l: &mut Vec<(u32, u8)>, id: u32, g: u8)
    requires
        ids_distinct(old(l)@),
        cnt(assoc(old(l)@), id) + g <= 255,
    ensures
        ids_distinct(final(l)@),
        assoc(final(l)@) == add_cnt(assoc(old(l)@), id, g as int),
{
    if g == 0 {
        return;
    }
    proof {
        lemma_assoc(l@);
    }
    let c = cnt_get(l, id);
    let mut i: usize = 0;
    while i < l.len()
        invariant
            i <= l@.len(),
            l@ == old(l)@,
            forall|j: int| 0 <= j < i ==> l@[j].0 != id,
        decreases l.len() - i,
    {
        if l[i].0 == id {
            let ghost before = l@;
            l.set(i, (id, c + g));
            proof {
                assert(ids_distinct(l@)) by {
                    assert forall|a: int, b: int| 0 <= a < b < l@.len() implies l@[a].0 != l@[b].0 by {
                        assert(before[a].0 != before[b].0);
                    }
                }
                lemma_assoc(before);
                lemma_assoc(l@);
                let m1 = assoc(l@);
                let m2 = assoc(before).insert(id, c + g);
                assert forall|k: u32| m1.contains_key(k) <==> m2.contains_key(k) by {
                    if m1.contains_key(k) {
                        let j = choose|j: int| 0 <= j < l@.len() && l@[j].0 == k;
                        if j != i {
                            assert(assoc(before).contains_key(before[j].0));
                        }
                    }
                    if m2.contains_key(k) && k != id {
                        let j = choose|j: int| 0 <= j < before.len() && before[j].0 == k;
                        assert(m1.contains_key(l@[j].0));
                    }
                    if k == id {
                        assert(m1.contains_key(l@[i as int].0));
                    }
                }
                assert forall|k: u32| #[trigger] m1.contains_key(k) implies m1[k] == m2[k] by {
                    let j = choose|j: int| 0 <= j < l@.len() && l@[j].0 == k;
                    if j != i {
                        assert(assoc(before)[before[j].0] == before[j].1 as int);
                    }
                }
                assert(m1 =~= m2);
            }
            return;
        }
        i = i + 1;
    }
    let ghost before = l@;
    l.push((id, g));
    proof {
        lemma_assoc(before);
        assert(l@.drop_last() =~= before);
        assert(!assoc(before).contains_key(id)) by {
            if assoc(before).contains_key(id) {
                let j = choose|j: int| 0 <= j < before.len() && before[j].0 == id;
                assert(before[j].0 != id);
            }
        }
        assert forall|a: int, b: int| 0 <= a < b < l@.len() implies l@[a].0 != l@[b].0 by {
            if b == l@.len() - 1 {
                assert(before[a].0 != id);
            } else {
                assert(before[a].0 != before[b].0);
            }
        }
    }
}

} // verus!

verus! {

/// Every recorded count plus what is left stays within the total.
pub open spec fn bounded(m: Map<u32, int>, left: int, total: int) -> bool {
    forall|k: u32| #[trigger] cnt(m, k) + left <= total
}

/// The slug code of a card.
fn slug_code_exec(card: &Option<String>) -> (r: u8)
    ensures
        r == slug_code(*card),
{
    if card_is_exec(card, "drakloak") {
        0
    } else if card_is_exec(card, "dreepy") {
        1
    } else if card_is_exec(card, "duskull") {
        2
    } else if card_is_exec(card, "fezandipiti-ex") {
        3
    } else {
        4
    }
}

/// The dive targets (see `yts`).
fn yts_exec(reg: &CardFacts, state: &StateDto, elig: &[u32]) -> (r: Vec<DiveTarget>)
    ensures
        r@ == yts(reg@, *state, elig@),
{
    let mut v: Vec<DiveTarget> = Vec::new();
    let mut i: usize = 0;
    while i < elig.len()
        invariant
            i <= elig@.len(),
            v@ == yts(reg@, *state, elig@.take(i as int)),
        decreases elig.len() - i,
    {
        proof {
            assert(elig@.take(i + 1).drop_last() =~= elig@.take(i as int));
            assert(elig@.take(i + 1).last() == elig@[i as int]);
        }
        if let Some(m) = super::board::opp_in_play(state, elig[i]) {
            v.push(
                (
                    elig[i],
                    slug_code_exec(&m.card),
                    remaining_hp(m),
                    m.energy_attached.len() > 0,
                    bomb_pred_exec(reg, m, 0),
                ),
            );
        }
        i = i + 1;
    }
    proof {
        assert(elig@.take(i as int) =~= elig@);
    }
    v
}

/// The first target of slug code `k` that `left` and `cap` knock out.
fn find_ko_target(ts: &Vec<DiveTarget>, k: u8, left: u8, cap: u8) -> (r: Option<DiveTarget>)
    ensures
        r == find_first(ts@, ko_target(k, left as int, cap as int)),
{
    let mut i: usize = 0;
    while i < ts.len()
        invariant
            i <= ts@.len(),
            forall|j: int| 0 <= j < i ==> !ko_target(k, left as int, cap as int)(#[trigger] ts@[j]),
        decreases ts.len() - i,
    {
        let t = ts[i];
        let kb = super::dragapult_takeuchi::ko_byte_of(t.2);
        if t.1 == k && kb <= left && kb <= cap {
            proof {
                lemma_first_at(ts@, ko_target(k, left as int, cap as int), i as int);
            }
            return Some(t);
        }
        i = i + 1;
    }
    proof {
        lemma_first_none(ts@, ko_target(k, left as int, cap as int));
    }
    None
}

/// The first target that is a fezandipiti-ex.
fn find_fez(ts: &Vec<DiveTarget>) -> (r: Option<DiveTarget>)
    ensures
        r == find_first(ts@, |t: DiveTarget| t.1 == 3),
{
    let ghost f = |t: DiveTarget| t.1 == 3;
    let mut i: usize = 0;
    while i < ts.len()
        invariant
            i <= ts@.len(),
            forall|j: int| 0 <= j < i ==> !f(#[trigger] ts@[j]),
        decreases ts.len() - i,
    {
        if ts[i].1 == 3 {
            proof {
                lemma_first_at(ts@, f, i as int);
            }
            return Some(ts[i]);
        }
        i = i + 1;
    }
    proof {
        lemma_first_none(ts@, f);
    }
    None
}

/// The first phase (see `y_phase1`).
fn y_phase1_exec(ts: &Vec<DiveTarget>, total: u8, cap: u8) -> (r: (Vec<(u32, u8)>, u8, Option<u32>))
    ensures
        assoc(r.0@) == y_phase1(ts@, total as int, cap as int).0,
        r.1 == y_phase1(ts@, total as int, cap as int).1,
        r.2 == y_phase1(ts@, total as int, cap as int).2,
        ids_distinct(r.0@),
        bounded(assoc(r.0@), r.1 as int, total as int),
{
    let mut l: Vec<(u32, u8)> = Vec::new();
    assert(assoc(l@) =~= Map::<u32, int>::empty());
    let mut hit = find_ko_target(ts, 0, total, cap);
    if hit.is_none() {
        hit = find_ko_target(ts, 1, total, cap);
    }
    if hit.is_none() {
        hit = find_ko_target(ts, 2, total, cap);
    }
    proof {
        crate::util::lemma_first_where(ts@, ko_target(0, total as int, cap as int));
        crate::util::lemma_first_where(ts@, ko_target(1, total as int, cap as int));
        crate::util::lemma_first_where(ts@, ko_target(2, total as int, cap as int));
    }
    match hit {
        Some(t) => {
            let k = super::dragapult_takeuchi::ko_byte_of(t.2);
            assert(k <= total);
            cnt_add(&mut l, t.0, k);
            (l, total - k, Some(t.0))
        },
        None => match find_fez(ts) {
            Some(t) => if total >= 1 && cap >= 1 {
                cnt_add(&mut l, t.0, 1);
                (l, total - 1, Some(t.0))
            } else {
                (l, total, None)
            },
            None => (l, total, None),
        },
    }
}

/// The targets other than the primary one (see `without`).
fn without_exec(ts: &Vec<DiveTarget>, prim: Option<u32>) -> (r: Vec<DiveTarget>)
    ensures
        r@ == without(ts@, prim),
{
    let mut v: Vec<DiveTarget> = Vec::new();
    let mut i: usize = 0;
    while i < ts.len()
        invariant
            i <= ts@.len(),
            v@ == without(ts@.take(i as int), prim),
        decreases ts.len() - i,
    {
        proof {
            assert(ts@.take(i + 1).drop_last() =~= ts@.take(i as int));
            assert(ts@.take(i + 1).last() == ts@[i as int]);
        }
        if prim != Some(ts[i].0) {
            v.push(ts[i]);
        }
        i = i + 1;
    }
    proof {
        assert(ts@.take(i as int) =~= ts@);
    }
    v
}

/// The rank of a target in force.
fn rank_exec(t: DiveTarget, after: bool) -> (r: u8)
    ensures
        r == rank_of(t, after),
{
    if after {
        if t.1 == 1 {
            0
        } else if t.1 == 0 {
            1
        } else if t.4 && t.2 <= 80 {
            2
        } else if t.4 {
            3
        } else {
            4
        }
    } else {
        if t.1 == 1 && !t.3 {
            0
        } else if t.1 == 1 {
            1
        } else if t.1 == 0 && t.3 {
            2
        } else {
            3
        }
    }
}

/// `y_min_idx` is an index of the prefix.
pub proof fn lemma_y_min_idx(s: Seq<DiveTarget>, n: int, after: bool)
    requires
        1 <= n,
    ensures
        0 <= y_min_idx(s, n, after) < n,
    decreases n,
{
    if n > 1 {
        lemma_y_min_idx(s, n - 1, after);
    }
}

/// The targets in order (see `y_sort`).
fn y_sort_exec(v: Vec<DiveTarget>, after: bool) -> (r: Vec<DiveTarget>)
    ensures
        r@ == y_sort(v@, after),
{
    let mut work = v;
    let mut out: Vec<DiveTarget> = Vec::new();
    while work.len() > 0
        invariant
            y_sort(v@, after) == out@ + y_sort(work@, after),
        decreases work.len(),
    {
        let n = work.len();
        let mut best: usize = 0;
        let mut j: usize = 1;
        while j < n
            invariant
                n == work@.len(),
                1 <= j <= n,
                best == y_min_idx(work@, j as int, after),
                best < j,
            decreases n - j,
        {
            let a = work[j];
            let b = work[best];
            let ra = rank_exec(a, after);
            let rb = rank_exec(b, after);
            if ra < rb || (ra == rb && a.0 < b.0) {
                best = j;
            }
            j = j + 1;
        }
        proof {
            lemma_y_min_idx(work@, n as int, after);
        }
        let ghost before = work@;
        let x = work.remove(best);
        proof {
            assert(y_sort(before, after) == seq![before[best as int]] + y_sort(before.remove(best as int), after));
            assert(out@.push(x) + y_sort(work@, after) =~= out@ + (seq![x] + y_sort(work@, after)));
        }
        out.push(x);
    }
    proof {
        assert(out@ + y_sort(work@, after) =~= out@);
    }
    out
}

/// Tops each target of `order` up to the cap (see `fill_to_cap`).
fn fill_exec(order: &Vec<DiveTarget>, l: &mut Vec<(u32, u8)>, left: &mut u8, cap: u8, Ghost(total): Ghost<int>)
    requires
        ids_distinct(old(l)@),
        bounded(assoc(old(l)@), *old(left) as int, total),
        total <= 255,
    ensures
        ids_distinct(final(l)@),
        bounded(assoc(final(l)@), *final(left) as int, total),
        (assoc(final(l)@), *final(left) as int) == fill_to_cap(
            order@,
            assoc(old(l)@),
            *old(left) as int,
            cap as int,
        ),
{
    let ghost goal = fill_to_cap(order@, assoc(l@), *left as int, cap as int);
    let mut i: usize = 0;
    proof {
        assert(order@.skip(0) =~= order@);
    }
    while i < order.len()
        invariant
            i <= order@.len(),
            ids_distinct(l@),
            bounded(assoc(l@), *left as int, total),
            total <= 255,
            goal == fill_to_cap(order@.skip(i as int), assoc(l@), *left as int, cap as int),
        decreases order.len() - i,
    {
        proof {
            assert(order@.skip(i as int).drop_first() =~= order@.skip(i + 1));
            assert(order@.skip(i as int)[0] == order@[i as int]);
        }
        let id = order[i].0;
        let c = cnt_get(l, id);
        let g: u8 = if c < cap && *left > 0 {
            let room = cap - c;
            if *left <= room {
                *left
            } else {
                room
            }
        } else {
            0
        };
        proof {
            assert(cnt(assoc(l@), id) + *left <= total);
        }
        let ghost m0 = assoc(l@);
        let ghost l0 = *left;
        cnt_add(l, id, g);
        *left = *left - g;
        proof {
            assert forall|k: u32| #[trigger] cnt(assoc(l@), k) + *left <= total by {
                assert(cnt(m0, k) + l0 <= total);
                if k == id && g > 0 {
                    assert(cnt(assoc(l@), k) == cnt(m0, k) + g);
                } else if g > 0 {
                    assert(cnt(assoc(l@), k) == cnt(m0, k));
                }
            }
        }
        i = i + 1;
    }
    proof {
        assert(order@.skip(i as int) =~= Seq::<DiveTarget>::empty());
    }
}

} // verus!

verus! {

/// `per` counters on each target in order (see `per_each`).
fn per_exec(order: &Vec<DiveTarget>, l: &mut Vec<(u32, u8)>, left: &mut u8, per: u8, Ghost(total): Ghost<int>)
    requires
        ids_distinct(old(l)@),
        bounded(assoc(old(l)@), *old(left) as int, total),
        total <= 255,
    ensures
        ids_distinct(final(l)@),
        bounded(assoc(final(l)@), *final(left) as int, total),
        (assoc(final(l)@), *final(left) as int) == per_each(
            order@,
            assoc(old(l)@),
            *old(left) as int,
            per as int,
        ),
{
    let ghost goal = per_each(order@, assoc(l@), *left as int, per as int);
    let mut i: usize = 0;
    proof {
        assert(order@.skip(0) =~= order@);
    }
    while i < order.len()
        invariant
            i <= order@.len(),
            ids_distinct(l@),
            bounded(assoc(l@), *left as int, total),
            total <= 255,
            goal == per_each(order@.skip(i as int), assoc(l@), *left as int, per as int),
        decreases order.len() - i,
    {
        if *left == 0 {
            return;
        }
        proof {
            assert(order@.skip(i as int).drop_first() =~= order@.skip(i + 1));
            assert(order@.skip(i as int)[0] == order@[i as int]);
        }
        let id = order[i].0;
        let g: u8 = if per <= *left {
            per
        } else {
            *left
        };
        let ghost m0 = assoc(l@);
        let ghost l0 = *left;
        proof {
            assert(cnt(m0, id) + l0 <= total);
        }
        cnt_add(l, id, g);
        *left = *left - g;
        proof {
            assert forall|k: u32| #[trigger] cnt(assoc(l@), k) + *left <= total by {
                assert(cnt(m0, k) + l0 <= total);
                if k == id && g > 0 {
                    assert(cnt(assoc(l@), k) == cnt(m0, k) + g);
                } else if g > 0 {
                    assert(cnt(assoc(l@), k) == cnt(m0, k));
                }
            }
        }
        i = i + 1;
    }
    proof {
        assert(order@.skip(i as int) =~= Seq::<DiveTarget>::empty());
    }
}

/// The placed targets and their counts (see `y_placed`).
fn placed_exec(ts: &Vec<DiveTarget>, l: &Vec<(u32, u8)>) -> (r: (Vec<u32>, Vec<u8>))
    requires
        ids_distinct(l@),
    ensures
        r.0@ == y_placed(ts@, assoc(l@)),
        r.1@ == r.0@.map_values(|e: u32| cnt(assoc(l@), e) as u8),
{
    let mut ids: Vec<u32> = Vec::new();
    let mut cs: Vec<u8> = Vec::new();
    let mut i: usize = 0;
    while i < ts.len()
        invariant
            i <= ts@.len(),
            ids_distinct(l@),
            ids@ == y_placed(ts@.take(i as int), assoc(l@)),
            cs@ == ids@.map_values(|e: u32| cnt(assoc(l@), e) as u8),
        decreases ts.len() - i,
    {
        proof {
            assert(ts@.take(i + 1).drop_last() =~= ts@.take(i as int));
            assert(ts@.take(i + 1).last() == ts@[i as int]);
        }
        let c = cnt_get(l, ts[i].0);
        if c > 0 {
            ids.push(ts[i].0);
            cs.push(c);
            assert(cs@ =~= ids@.map_values(|e: u32| cnt(assoc(l@), e) as u8));
        }
        i = i + 1;
    }
    proof {
        assert(ts@.take(i as int) =~= ts@);
    }
    (ids, cs)
}

impl DragapultYopifuttoBot {
    /// Phantom Dive's counters by this persona's order (see `dive_counts`).
    pub fn distribute_phantom_dive(&self, p: &PromptMsg, eligible: &[u32], total: u8, per_target_max: Option<u8>) -> (r: Option<PromptChoice>)
        ensures
            match dive_counts(self.registry@, *p, eligible@, total, per_target_max) {
                Some((ids, counts)) => r matches Some(c) && c.selected@ == ids && c.counts@ == counts
                    && c.yes is None && c.branch_index is None,
                None => r is None,
            },
    {
        let state = match &p.state {
            Some(s) => s,
            None => return None,
        };
        if total == 0 || eligible.len() == 0 {
            return None;
        }
        let cap = match per_target_max {
            Some(c) => c,
            None => total,
        };
        if cap == 0 {
            return None;
        }
        let ts = yts_exec(&self.registry, state, eligible);
        if ts.len() == 0 {
            return None;
        }
        let (mut l, mut left, prim) = y_phase1_exec(&ts, total, cap);
        let order = without_exec(&ts, prim);
        if prim.is_some() {
            let sorted = y_sort_exec(order, true);
            fill_exec(&sorted, &mut l, &mut left, cap, Ghost(total as int));
        } else {
            let sorted = y_sort_exec(order, false);
            let per: u8 = if cap < 3 {
                cap
            } else {
                3
            };
            per_exec(&sorted, &mut l, &mut left, per, Ghost(total as int));
            fill_exec(&sorted, &mut l, &mut left, cap, Ghost(total as int));
        }
        fill_exec(&ts, &mut l, &mut left, cap, Ghost(total as int));
        let (selected, counts) = placed_exec(&ts, &l);
        if selected.len() == 0 {
            return None;
        }
        Some(PromptChoice { selected, counts, yes: None, branch_index: None })
    }
}

} // verus!

verus! {

/// Counters for the planned closing targets, in order: each offered, opposing target gets
/// what knocks it out, within the cap and what is left. Ids and counts.
pub open spec fn dtt(state: StateDto, elig: Seq<u32>, targets: Seq<u32>, left: int, cap: int) -> (Seq<u32>, Seq<u8>)
    decreases targets.len(),
{
    if targets.len() == 0 {
        (Seq::empty(), Seq::empty())
    } else {
        let t = targets[0];
        let rest = targets.drop_first();
        match super::board::opp_mon(state, t) {
            Some(m) => if !elig.contains(t) {
                dtt(state, elig, rest, left, cap)
            } else {
                let need = super::dragapult_takeuchi::ko_byte(rem_hp(m)) as int;
                let give = super::dragapult_takeuchi::imin(super::dragapult_takeuchi::imin(need, cap), left);
                if give <= 0 {
                    dtt(state, elig, rest, left, cap)
                } else {
                    let r = dtt(state, elig, rest, left - give, cap);
                    (seq![t] + r.0, seq![give as u8] + r.1)
                }
            },
            None => dtt(state, elig, rest, left, cap),
        }
    }
}

/// The planned closing counters: `dtt`, nothing without a board, counters or any placed.
pub open spec fn to_targets_spec(p: PromptMsg, elig: Seq<u32>, targets: Seq<u32>, total: u8, per: Option<u8>) -> Option<
    (Seq<u32>, Seq<u8>),
> {
    match p.state {
        None => None,
        Some(s) => if total == 0 {
            None
        } else {
            let r = dtt(s, elig, targets, total as int, super::dragapult_takeuchi::dist_cap(total, per) as int);
            if r.0.len() == 0 {
                None
            } else {
                Some(r)
            }
        },
    }
}

/// The planned closing counters (see `to_targets_spec`).
pub fn distribute_to_targets(p: &PromptMsg, eligible: &[u32], targets: &[u32], total: u8, per_target_max: Option<u8>) -> (r:
    Option<PromptChoice>)
    ensures
        match to_targets_spec(*p, eligible@, targets@, total, per_target_max) {
            Some((ids, counts)) => r matches Some(c) && c.selected@ == ids && c.counts@ == counts
                && c.yes is None && c.branch_index is None,
            None => r is None,
        },
{
    let state = match &p.state {
        Some(s) => s,
        None => return None,
    };
    if total == 0 {
        return None;
    }
    let cap = match per_target_max {
        Some(c) => c,
        None => total,
    };
    let ghost goal = dtt(*state, eligible@, targets@, total as int, cap as int);
    let mut selected: Vec<u32> = Vec::new();
    let mut counts: Vec<u8> = Vec::new();
    let mut left = total;
    let mut i: usize = 0;
    proof {
        assert(targets@.skip(0) =~= targets@);
    }
    while i < targets.len()
        invariant
            i <= targets@.len(),
            goal.0 == selected@ + dtt(*state, eligible@, targets@.skip(i as int), left as int, cap as int).0,
            goal.1 == counts@ + dtt(*state, eligible@, targets@.skip(i as int), left as int, cap as int).1,
        decreases targets.len() - i,
    {
        proof {
            assert(targets@.skip(i as int).drop_first() =~= targets@.skip(i + 1));
            assert(targets@.skip(i as int)[0] == targets@[i as int]);
        }
        let t = targets[i];
        if contains_u32(eligible, t) {
            if let Some(mon) = super::board::opp_in_play(state, t) {
                let need = super::dragapult_takeuchi::ko_byte_of(remaining_hp(mon));
                let a: u8 = if need <= cap {
                    need
                } else {
                    cap
                };
                let give: u8 = if a <= left {
                    a
                } else {
                    left
                };
                if give > 0 {
                    let ghost r = dtt(*state, eligible@, targets@.skip(i + 1), (left - give) as int, cap as int);
                    proof {
                        assert(selected@ + (seq![t] + r.0) =~= selected@.push(t) + r.0);
                        assert(counts@ + (seq![give] + r.1) =~= counts@.push(give) + r.1);
                    }
                    selected.push(t);
                    counts.push(give);
                    left = left - give;
                }
            }
        }
        i = i + 1;
    }
    proof {
        assert(targets@.skip(i as int) =~= Seq::<u32>::empty());
        assert(selected@ + Seq::<u32>::empty() =~= selected@);
        assert(counts@ + Seq::<u8>::empty() =~= counts@);
    }
    if selected.len() == 0 {
        return None;
    }
    Some(PromptChoice { selected, counts, yes: None, branch_index: None })
}

/// The targets that are my duskull.
pub open spec fn duskull_targets(state: StateDto, t: Seq<u32>) -> Seq<u32>
    decreases t.len(),
{
    if t.len() == 0 {
        Seq::empty()
    } else {
        let r = duskull_targets(state, t.drop_last());
        if my_slug(state, t.last()) == Some("duskull"@) {
            r.push(t.last())
        } else {
            r
        }
    }
}

/// The basic Pokémon for rare candy: a random duskull among the targets, else a random
/// target; nothing without a board or targets.
pub open spec fn y_candy_ok(state: Option<StateDto>, targets: Seq<u32>, r: Option<u32>) -> bool {
    match state {
        None => r is None,
        Some(s) => if duskull_targets(s, targets).len() > 0 {
            r matches Some(x) && duskull_targets(s, targets).contains(x)
        } else if targets.len() > 0 {
            r matches Some(x) && targets.contains(x)
        } else {
            r is None
        },
    }
}

/// The basic Pokémon for rare candy (see `y_candy_ok`).
pub fn pick_rare_candy_target(state: &Option<StateDto>, targets: &[u32], rng: &mut ChaCha20Rng) -> (r: Option<u32>)
    ensures
        y_candy_ok(*state, targets@, r),
{
    let s = match state {
        Some(s) => s,
        None => return None,
    };
    let mut d: Vec<u32> = Vec::new();
    let mut i: usize = 0;
    while i < targets.len()
        invariant
            i <= targets@.len(),
            d@ == duskull_targets(*s, targets@.take(i as int)),
        decreases targets.len() - i,
    {
        proof {
            assert(targets@.take(i + 1).drop_last() =~= targets@.take(i as int));
            assert(targets@.take(i + 1).last() == targets@[i as int]);
        }
        if super::my_slug_is(s, targets[i], "duskull") {
            d.push(targets[i]);
        }
        i = i + 1;
    }
    proof {
        assert(targets@.take(i as int) =~= targets@);
    }
    if d.len() > 0 {
        return super::random::random_member(d.as_slice(), rng);
    }
    super::random::random_member(targets, rng)
}

} // verus!

verus! {

/// Initial active priority when going first.
pub open spec fn y_pri_first() -> Seq<Seq<char>> {
    seq!["duskull"@, "dreepy"@, "budew"@, "fezandipiti-ex"@, "meowth-ex"@]
}

/// Initial active priority when going second.
pub open spec fn y_pri_second() -> Seq<Seq<char>> {
    seq!["budew"@, "dreepy"@, "duskull"@, "fezandipiti-ex"@, "meowth-ex"@]
}

/// The initial active Pokémon by the priority for going first or second.
pub open spec fn y_initial_spec(p: PromptMsg, eligible: Seq<u32>) -> Option<u32> {
    match p.state {
        None => None,
        Some(s) => super::pick_by_priority_spec(
            s,
            eligible,
            if s.active_player@ == "me"@ {
                y_pri_first()
            } else {
                y_pri_second()
            },
        ),
    }
}

/// How the bot answers a prompt and what it remembers (random parts as relations).
pub open spec fn yopi_prompt_ok(reg: Map<Seq<char>, FactView>, m: YopifuttoMemory, p: PromptMsg, m2: YopifuttoMemory, c: PromptChoice) -> bool {
    match p.kind {
        PromptDto::ChooseFirstOrSecond => {
            &&& m2 == m
            &&& c.selected@.len() == 0 && c.counts@.len() == 0 && c.yes == Some(true)
                && c.branch_index is None
        },
        PromptDto::ChooseInitialActive { eligible } => {
            &&& m2 == m
            &&& match y_initial_spec(p, eligible@) {
                Some(e) => super::selects(c, seq![e]),
                None => super::random::fallback_ok(p, c),
            }
        },
        PromptDto::PlaceInitialBench { .. } => m2 == m && super::selects(c, Seq::empty()),
        PromptDto::ChooseTargetPokemon { targets } => if m.pending_rare_candy {
            &&& m2 == (YopifuttoMemory { pending_rare_candy: false, ..m })
            &&& exists|t: Option<u32>|
                #[trigger] y_candy_ok(p.state, targets@, t) && match t {
                    Some(x) => super::selects(c, seq![x]),
                    None => super::random::fallback_ok(p, c),
                }
        } else {
            &&& m2 == y_target(m, None)
            &&& if m.pending_target matches Some(t) && targets@.contains(t) {
                super::selects(c, seq![m.pending_target->0])
            } else {
                super::dragapult_takeuchi::random_target_ok(p, targets@, c)
            }
        },
        PromptDto::DistributeDamage { eligible, total, per_target_max } => {
            let planned = match m.pending_distribute {
                Some(t) => to_targets_spec(p, eligible@, t, total, per_target_max),
                None => None,
            };
            let out = if planned is Some {
                planned
            } else {
                dive_counts(reg, p, eligible@, total, per_target_max)
            };
            &&& m2 == y_dist(m, None)
            &&& match out {
                Some((ids, counts)) => c.selected@ == ids && c.counts@ == counts && c.yes is None
                    && c.branch_index is None,
                None => super::random::fallback_ok(p, c),
            }
        },
        PromptDto::ChooseFromZone { options, .. } => if super::hand_discard_spec(p, options@) {
            &&& m2 == m
            &&& exists|d: TrashDraws|
                trash_draws_ok(options@, p.max as int, d) && super::selects(
                    c,
                    #[trigger] trash_all(options@, p.max as int, d),
                )
        } else {
            &&& m2 == y_search(m, None)
            &&& exists|pri: Seq<Seq<char>>|
                #[trigger] zone_pri_ok(p.state, m.pending_search, pri) && super::selects(
                    c,
                    super::pick_from_zone_spec(options@, pri, p.min, p.max),
                )
        },
        _ => m2 == m && super::random::fallback_ok(p, c),
    }
}

/// The search order for a zone prompt: by `search_ok` with a board, else the default.
pub open spec fn zone_pri_ok(state: Option<StateDto>, source: Option<Seq<char>>, pri: Seq<Seq<char>>) -> bool {
    match state {
        Some(s) => search_ok(s, source, pri),
        None => pri == default_fetch(),
    }
}

impl DragapultYopifuttoBot {
    /// The initial active Pokémon (see `y_initial_spec`).
    pub fn pick_initial_active(&self, p: &PromptMsg, eligible: &[u32]) -> (r: Option<PromptChoice>)
        ensures
            match y_initial_spec(*p, eligible@) {
                Some(e) => r matches Some(c) && super::selects(c, seq![e]),
                None => r is None,
            },
    {
        let state = match &p.state {
            Some(s) => s,
            None => return None,
        };
        let first: &[&str] = &["duskull", "dreepy", "budew", "fezandipiti-ex", "meowth-ex"];
        let second: &[&str] = &["budew", "dreepy", "duskull", "fezandipiti-ex", "meowth-ex"];
        assert(strs_view(first@) =~= y_pri_first());
        assert(strs_view(second@) =~= y_pri_second());
        let priority = if super::string_is(&state.active_player, "me") {
            first
        } else {
            second
        };
        match super::pick_by_slug_priority(state, eligible, priority) {
            Some(e) => Some(super::choice_one(e)),
            None => None,
        }
    }

    /// Answers a prompt (see `yopi_prompt_ok`).
    pub fn choose_prompt(&mut self, p: &PromptMsg, rng: &mut ChaCha20Rng) -> (r: PromptChoice)
        requires
            p.state matches Some(s) ==> board_fits(s),
        ensures
            yopi_prompt_ok(old(self).registry@, old(self)@, *p, final(self)@, r),
            final(self).registry == old(self).registry,
    {
        match &p.kind {
            PromptDto::ChooseFirstOrSecond => PromptChoice {
                selected: Vec::new(),
                counts: Vec::new(),
                yes: Some(true),
                branch_index: None,
            },
            PromptDto::ChooseInitialActive { eligible } => {
                match self.pick_initial_active(p, eligible.as_slice()) {
                    Some(c) => c,
                    None => super::random::fallback_prompt(p, rng),
                }
            },
            PromptDto::PlaceInitialBench { .. } => super::choice_of(Vec::new()),
            PromptDto::ChooseTargetPokemon { targets } => {
                if self.pending_rare_candy {
                    self.pending_rare_candy = false;
                    let t = pick_rare_candy_target(&p.state, targets.as_slice(), rng);
                    let c = match t {
                        Some(x) => super::choice_one(x),
                        None => super::random::fallback_prompt(p, rng),
                    };
                    assert(y_candy_ok(p.state, targets@, t));
                    return c;
                }
                let pending = self.pending_target;
                self.pending_target = None;
                if let Some(t) = pending {
                    if contains_u32(targets.as_slice(), t) {
                        return super::choice_one(t);
                    }
                }
                match super::random::random_member(targets.as_slice(), rng) {
                    Some(t) => {
                        let c = super::choice_one(t);
                        assert(super::selects(c, seq![t]));
                        c
                    },
                    None => super::random::fallback_prompt(p, rng),
                }
            },
            PromptDto::DistributeDamage { eligible, total, per_target_max } => {
                let planned_targets = self.pending_distribute.take();
                let planned = match &planned_targets {
                    Some(t) => distribute_to_targets(p, eligible.as_slice(), t.as_slice(), *total, *per_target_max),
                    None => None,
                };
                match planned {
                    Some(c) => c,
                    None => match self.distribute_phantom_dive(p, eligible.as_slice(), *total, *per_target_max) {
                        Some(c) => c,
                        None => super::random::fallback_prompt(p, rng),
                    },
                }
            },
            PromptDto::ChooseFromZone { options, .. } => {
                if super::is_hand_discard(p, options.as_slice()) {
                    let sel = pick_trash_targets(options.as_slice(), p.max as usize, rng);
                    return super::choice_of(sel);
                }
                let source = self.pending_search.take();
                let pri: Vec<&'static str> = match &p.state {
                    Some(s) => search_priority(s, &source, rng),
                    None => {
                        let v: Vec<&'static str> = vec![
                            "dreepy",
                            "budew",
                            "drakloak",
                            "dusclops",
                            "dusknoir",
                            "duskull",
                            "fire-energy",
                            "psychic-energy",
                            "lillie-s-determination",
                            "crispin",
                            "boss-s-orders",
                        ];
                        assert(strs_view(v@) =~= default_fetch());
                        v
                    },
                };
                assert(zone_pri_ok(p.state, card_view(source), strs_view(pri@)));
                super::pick_from_zone(options.as_slice(), pri.as_slice(), p.min, p.max)
            },
            _ => super::random::fallback_prompt(p, rng),
        }
    }
}

} // verus!

verus! {

/// Blanket evolution priority (dragapult-ex excluded): drakloak, dusclops, dusknoir.
pub open spec fn y_evolve_pri() -> Seq<Seq<char>> {
    seq!["drakloak"@, "dusclops"@, "dusknoir"@]
}

/// Basic Pokémon priority: dreepy, duskull, budew.
pub open spec fn y_basic_pri() -> Seq<Seq<char>> {
    seq!["dreepy"@, "duskull"@, "budew"@]
}

/// The per-turn flags are cleared when the turn changes.
pub open spec fn y_reset(m: YopifuttoMemory, turn: u32) -> YopifuttoMemory {
    if m.current_turn != Some(turn) {
        YopifuttoMemory {
            current_turn: Some(turn),
            unfair_stamp_used_this_turn: false,
            pending_rare_candy: false,
            ..m
        }
    } else {
        m
    }
}

/// The decision cascade of one action (with `pick` the random target of the closing
/// plays), after the per-turn reset: the index of the chosen legal action (`None`: nothing
/// applies and no `EndTurn` is legal) and the memory after. Recon directive, Take Advantage,
/// fezandipiti-ex, rare candy, evolution, the attacker, basic Pokémon, goods, energy, the
/// closing plays, boss's orders, supporter, Cursed Bomb, disruption, retreat, attack, end of
/// turn.
pub open spec fn yopi_steps(
    reg: Map<Seq<char>, FactView>,
    m: YopifuttoMemory,
    state: StateDto,
    legal: Seq<Action>,
    pick: u32,
) -> (Option<int>, YopifuttoMemory) {
    let dg = dgroup_spec(reg, m, state, legal, pick);
    let m1 = dg.1;
    if super::recon_directive_spec(state, legal) is Some {
        (super::recon_directive_spec(state, legal), y_search(m, Some("recon"@)))
    } else if first_where(legal, uses_ability_of(state, "fezandipiti-ex"@)) is Some {
        (first_where(legal, uses_ability_of(state, "fezandipiti-ex"@)), m)
    } else if fez_setup_spec(state, legal) is Some {
        (fez_setup_spec(state, legal), m)
    } else if y_rare_candy_spec(state, legal) is Some {
        (y_rare_candy_spec(state, legal), YopifuttoMemory { pending_rare_candy: true, ..m })
    } else if super::evolution_spec(state, legal, y_evolve_pri()) is Some {
        (super::evolution_spec(state, legal, y_evolve_pri()), m)
    } else if attacker_evolution_spec(state, legal) is Some {
        (attacker_evolution_spec(state, legal), m)
    } else if first_play_by_priority(state, legal, y_basic_pri()) is Some {
        (first_play_by_priority(state, legal, y_basic_pri()), m)
    } else if first_play_by_priority(state, legal, yopi_goods(state)) is Some {
        let i = first_play_by_priority(state, legal, yopi_goods(state))->0;
        (Some(i), y_search(m, super::play_slug(state, legal[i])))
    } else if attach_by_priority(state, legal, yopi_energy_pri(), yopi_types(state)) is Some {
        (attach_by_priority(state, legal, yopi_energy_pri(), yopi_types(state)), m)
    } else if dg.0 is Some {
        dg
    } else if boss_fa13_spec(state, legal).0 is Some {
        (boss_fa13_spec(state, legal).0, y_target(m1, boss_fa13_spec(state, legal).1))
    } else if supporter_spec(state, legal) is Some {
        let i = supporter_spec(state, legal)->0;
        (Some(i), y_search(m1, super::play_slug(state, legal[i])))
    } else if cursed_bomb_spec(reg, state, legal).0 is Some {
        (cursed_bomb_spec(reg, state, legal).0, y_target(m1, cursed_bomb_spec(reg, state, legal).1))
    } else if yopi_disruption_spec(state, legal, m1.unfair_stamp_used_this_turn) is Some {
        let i = yopi_disruption_spec(state, legal, m1.unfair_stamp_used_this_turn)->0;
        (
            Some(i),
            YopifuttoMemory {
                unfair_stamp_used_this_turn: m1.unfair_stamp_used_this_turn || super::play_slug(
                    state,
                    legal[i],
                ) == Some("unfair-stamp"@),
                ..m1
            },
        )
    } else if yopi_retreat_spec(state, legal) is Some {
        (yopi_retreat_spec(state, legal), m1)
    } else if y_attack_spec(reg, state, legal) is Some {
        (y_attack_spec(reg, state, legal), m1)
    } else {
        (first_where(legal, super::dragapult_takeuchi::is_end_turn()), m1)
    }
}

/// One action of the bot with the random target `pick`.
pub open spec fn yopi_action_holds(
    reg: Map<Seq<char>, FactView>,
    m: YopifuttoMemory,
    req: RequestMsg,
    m2: YopifuttoMemory,
    r: Result<Action, TransportError>,
    pick: u32,
) -> bool {
    let out = yopi_steps(reg, y_reset(m, req.state.turn), req.state, req.legal_actions@, pick);
    &&& dgroup_pick_ok(req.state, pick)
    &&& m2 == out.1
    &&& match out.0 {
        Some(i) => 0 <= i < req.legal_actions@.len() && (r matches Ok(a) && a@
            == req.legal_actions@[i]@),
        None => super::random::random_action_ok(req, r),
    }
}

impl DragapultYopifuttoBot {
    /// The decision cascade with the draw it made.
    #[verifier::rlimit(50)]
    fn act(&mut self, req: &RequestMsg, rng: &mut ChaCha20Rng) -> (r: (Result<Action, TransportError>, Ghost<u32>))
        requires
            board_fits(req.state),
        ensures
            final(self).registry == old(self).registry,
            yopi_action_holds(old(self).registry@, old(self)@, *req, final(self)@, r.0, r.1@),
    {
        let state = &req.state;
        let legal = req.legal_actions.as_slice();
        if self.current_turn != Some(state.turn) {
            self.current_turn = Some(state.turn);
            self.unfair_stamp_used_this_turn = false;
            self.pending_rare_candy = false;
        }
        let ghost m0 = self@;
        let ghost reg = self.registry@;
        assert(m0 == y_reset(old(self)@, state.turn));
        let kt = ko_list_exec(state);
        let ghost mut pick: u32 = if kt@.len() > 0 {
            kt@[0].0
        } else {
            0
        };
        proof {
            if kt@.len() > 0 {
                assert(pair_ids(kt@)[0] == kt@[0].0);
            }
        }
        if let Some(i) = super::find_recon_directive(state, legal) {
            self.pending_search = Some("recon".to_owned());
            return (Ok(legal[i].duplicate()), Ghost(pick));
        }
        if let Some(i) = find_take_advantage(state, legal) {
            return (Ok(legal[i].duplicate()), Ghost(pick));
        }
        if let Some(i) = find_fezandipiti_setup(state, legal) {
            return (Ok(legal[i].duplicate()), Ghost(pick));
        }
        if let Some(i) = self.find_rare_candy(state, legal) {
            return (Ok(legal[i].duplicate()), Ghost(pick));
        }
        let evolve: &[&str] = &["drakloak", "dusclops", "dusknoir"];
        assert(strs_view(evolve@) =~= y_evolve_pri());
        if let Some(i) = super::find_evolution(state, legal, evolve) {
            return (Ok(legal[i].duplicate()), Ghost(pick));
        }
        if let Some(i) = find_attacker_evolution(state, legal) {
            return (Ok(legal[i].duplicate()), Ghost(pick));
        }
        let basics: &[&str] = &["dreepy", "duskull", "budew"];
        assert(strs_view(basics@) =~= y_basic_pri());
        if let Some(i) = find_basic_placement(state, legal, basics) {
            return (Ok(legal[i].duplicate()), Ghost(pick));
        }
        if let Some(i) = find_goods_play(state, legal) {
            self.pending_search = super::dragapult_takeuchi::copy_slug(super::play_card_slug(state, &legal[i]));
            return (Ok(legal[i].duplicate()), Ghost(pick));
        }
        if let Some(i) = find_energy_attach(state, legal) {
            return (Ok(legal[i].duplicate()), Ghost(pick));
        }
        let (dg, Ghost(dpick)) = self.find_d_group_action(state, legal, rng);
        proof {
            pick = dpick;
        }
        if let Some(i) = dg {
            return (Ok(legal[i].duplicate()), Ghost(pick));
        }
        if let Some(i) = self.find_boss_fa13(state, legal) {
            return (Ok(legal[i].duplicate()), Ghost(pick));
        }
        if let Some(i) = find_supporter(state, legal) {
            self.pending_search = super::dragapult_takeuchi::copy_slug(super::play_card_slug(state, &legal[i]));
            return (Ok(legal[i].duplicate()), Ghost(pick));
        }
        if let Some(i) = self.find_cursed_bomb(state, legal) {
            return (Ok(legal[i].duplicate()), Ghost(pick));
        }
        if let Some(i) = find_disruption(state, legal, self.unfair_stamp_used_this_turn) {
            if super::plays_slug(state, &legal[i], "unfair-stamp") {
                self.unfair_stamp_used_this_turn = true;
            }
            return (Ok(legal[i].duplicate()), Ghost(pick));
        }
        if let Some(i) = find_retreat(state, legal) {
            return (Ok(legal[i].duplicate()), Ghost(pick));
        }
        if let Some(i) = self.find_attack(state, legal) {
            return (Ok(legal[i].duplicate()), Ghost(pick));
        }
        if let Some(i) = super::dragapult_takeuchi::find_end_turn(legal) {
            return (Ok(legal[i].duplicate()), Ghost(pick));
        }
        (super::random::random_action(req, rng), Ghost(pick))
    }

    /// Picks one action of my turn: the decision cascade (see `yopi_steps`), with the random
    /// fallback when no step applies and the turn cannot be ended.
    pub fn choose_action(&mut self, req: &RequestMsg, rng: &mut ChaCha20Rng) -> (r: Result<Action, TransportError>)
        requires
            board_fits(req.state),
        ensures
            final(self).registry == old(self).registry,
            exists|pick: u32|
                #[trigger] yopi_action_holds(old(self).registry@, old(self)@, *req, final(self)@, r, pick),
    {
        let (r, Ghost(pick)) = self.act(req, rng);
        r
    }
}

impl super::BotPolicy for DragapultYopifuttoBot {
    fn choose_action(&mut self, req: &RequestMsg, rng: &mut ChaCha20Rng) -> (r: Result<Action, TransportError>)
        ensures
            super::bot_action_ok(super::Bot::Yopifutto(*old(self)), *req, super::Bot::Yopifutto(*final(self)), r),
    {
        if super::board_fits_exec(&req.state) {
            DragapultYopifuttoBot::choose_action(self, req, rng)
        } else {
            super::random::random_action(req, rng)
        }
    }

    fn choose_prompt(&mut self, p: &PromptMsg, rng: &mut ChaCha20Rng) -> (r: PromptChoice)
        ensures
            super::bot_prompt_ok(super::Bot::Yopifutto(*old(self)), *p, super::Bot::Yopifutto(*final(self)), r),
    {
        let fits = match &p.state {
            Some(s) => super::board_fits_exec(s),
            None => true,
        };
        if fits {
            DragapultYopifuttoBot::choose_prompt(self, p, rng)
        } else {
            super::random::fallback_prompt(p, rng)
        }
    }
}

} // verus!

verus! {

// ============================================================================
// Laws of the Phantom Dive distribution
// ============================================================================

/// No count is above `cap`, none below zero.
pub open spec fn capped(m: Map<u32, int>, cap: int) -> bool {
    forall|k: u32| 0 <= #[trigger] cnt(m, k) <= cap
}

/// No id occurs twice among the targets.
pub open spec fn ids_unique(s: Seq<DiveTarget>) -> bool {
    forall|i: int, j: int| 0 <= i < j < s.len() ==> #[trigger] s[i].0 != #[trigger] s[j].0
}

/// Every id of `s` is an id of `t`.
pub open spec fn ids_within(s: Seq<DiveTarget>, t: Seq<DiveTarget>) -> bool {
    forall|i: int| 0 <= i < s.len() ==> exists|j: int| 0 <= j < t.len() && #[trigger] t[j].0 == #[trigger] s[i].0
}

proof fn lemma_yts_unique(reg: Map<Seq<char>, FactView>, state: StateDto, elig: Seq<u32>)
    requires
        elig.no_duplicates(),
    ensures
        ids_unique(yts(reg, state, elig)),
        forall|i: int|
            0 <= i < yts(reg, state, elig).len() ==> elig.contains(#[trigger] yts(reg, state, elig)[i].0),
    decreases elig.len(),
{
    if elig.len() > 0 {
        let e = elig.drop_last();
        assert forall|i: int, j: int| 0 <= i < j < e.len() implies e[i] != e[j] by {
            assert(e[i] == elig[i] && e[j] == elig[j]);
        }
        lemma_yts_unique(reg, state, e);
        let r = yts(reg, state, e);
        assert forall|i: int| 0 <= i < r.len() implies elig.contains(#[trigger] r[i].0) by {
            let k = choose|k: int| 0 <= k < e.len() && e[k] == r[i].0;
            assert(elig[k] == r[i].0);
        }
        if super::board::opp_mon(state, elig.last()) is Some {
            let s = yts(reg, state, elig);
            assert forall|i: int| 0 <= i < r.len() implies r[i].0 != elig.last() by {
                let k = choose|k: int| 0 <= k < e.len() && e[k] == r[i].0;
                assert(elig[k] == e[k]);
            }
            assert forall|i: int| 0 <= i < s.len() implies elig.contains(#[trigger] s[i].0) by {
                if i < r.len() {
                    assert(s[i] == r[i]);
                } else {
                    assert(elig[elig.len() - 1] == elig.last());
                }
            }
            assert forall|i: int, j: int| 0 <= i < j < s.len() implies #[trigger] s[i].0
                != #[trigger] s[j].0 by {
                if j < r.len() {
                    assert(s[i] == r[i] && s[j] == r[j]);
                } else {
                    assert(s[i] == r[i]);
                }
            }
        }
    }
}

proof fn lemma_without_unique(ts: Seq<DiveTarget>, prim: Option<u32>)
    requires
        ids_unique(ts),
    ensures
        ids_unique(without(ts, prim)),
        ids_within(without(ts, prim), ts),
    decreases ts.len(),
{
    if ts.len() > 0 {
        let t = ts.drop_last();
        assert forall|i: int, j: int| 0 <= i < j < t.len() implies #[trigger] t[i].0
            != #[trigger] t[j].0 by {
            assert(t[i] == ts[i] && t[j] == ts[j]);
        }
        lemma_without_unique(t, prim);
        let r = without(t, prim);
        assert forall|i: int| 0 <= i < r.len() implies exists|j: int|
            0 <= j < ts.len() && #[trigger] ts[j].0 == #[trigger] r[i].0 by {
            let k = choose|k: int| 0 <= k < t.len() && #[trigger] t[k].0 == r[i].0;
            assert(ts[k] == t[k]);
        }
        if prim != Some(ts.last().0) {
            let s = r.push(ts.last());
            assert forall|i: int| 0 <= i < r.len() implies r[i].0 != ts.last().0 by {
                let k = choose|k: int| 0 <= k < t.len() && #[trigger] t[k].0 == r[i].0;
                assert(ts[k] == t[k]);
                assert(ts[k].0 != ts[ts.len() - 1].0);
            }
            assert forall|i: int, j: int| 0 <= i < j < s.len() implies #[trigger] s[i].0
                != #[trigger] s[j].0 by {
                if j < r.len() {
                    assert(s[i] == r[i] && s[j] == r[j]);
                } else {
                    assert(s[i] == r[i]);
                }
            }
            assert forall|i: int| 0 <= i < s.len() implies exists|j: int|
                0 <= j < ts.len() && #[trigger] ts[j].0 == #[trigger] s[i].0 by {
                if i < r.len() {
                    assert(s[i] == r[i]);
                } else {
                    assert(ts[ts.len() - 1] == s[i]);
                }
            }
        }
    }
}

proof fn lemma_y_sort_unique(s: Seq<DiveTarget>, after: bool)
    requires
        ids_unique(s),
    ensures
        ids_unique(y_sort(s, after)),
        ids_within(y_sort(s, after), s),
    decreases s.len(),
{
    if s.len() > 0 {
        lemma_y_min_idx(s, s.len() as int, after);
        let m = y_min_idx(s, s.len() as int, after);
        let t = s.remove(m);
        assert forall|i: int| 0 <= i < t.len() implies #[trigger] t[i] == (if i < m {
            s[i]
        } else {
            s[i + 1]
        }) by {}
        assert forall|i: int, j: int| 0 <= i < j < t.len() implies #[trigger] t[i].0
            != #[trigger] t[j].0 by {
            assert(t[i] == (if i < m {
                s[i]
            } else {
                s[i + 1]
            }));
            assert(t[j] == (if j < m {
                s[j]
            } else {
                s[j + 1]
            }));
        }
        lemma_y_sort_unique(t, after);
        let r = y_sort(t, after);
        let out = seq![s[m]] + r;
        assert forall|i: int| 0 <= i < r.len() implies exists|j: int|
            0 <= j < s.len() && #[trigger] s[j].0 == #[trigger] r[i].0 by {
            let k = choose|k: int| 0 <= k < t.len() && #[trigger] t[k].0 == r[i].0;
            if k < m {
                assert(s[k] == t[k]);
            } else {
                assert(s[k + 1] == t[k]);
            }
        }
        assert forall|i: int| 0 <= i < r.len() implies r[i].0 != s[m].0 by {
            let k = choose|k: int| 0 <= k < t.len() && #[trigger] t[k].0 == r[i].0;
            if k < m {
                assert(s[k] == t[k]);
            } else {
                assert(s[k + 1] == t[k]);
            }
        }
        assert forall|i: int, j: int| 0 <= i < j < out.len() implies #[trigger] out[i].0
            != #[trigger] out[j].0 by {
            if i == 0 {
                assert(out[j] == r[j - 1]);
            } else {
                assert(out[i] == r[i - 1] && out[j] == r[j - 1]);
            }
        }
        assert forall|i: int| 0 <= i < out.len() implies exists|j: int|
            0 <= j < s.len() && #[trigger] s[j].0 == #[trigger] out[i].0 by {
            if i > 0 {
                assert(out[i] == r[i - 1]);
            }
        }
    }
}

proof fn lemma_per_each_capped(order: Seq<DiveTarget>, m: Map<u32, int>, left: int, per: int, cap: int)
    requires
        ids_unique(order),
        capped(m, cap),
        forall|j: int| 0 <= j < order.len() ==> cnt(m, #[trigger] order[j].0) == 0,
        0 <= per <= cap,
    ensures
        capped(per_each(order, m, left, per).0, cap),
    decreases order.len(),
{
    if order.len() > 0 && left > 0 {
        let g = super::dragapult_takeuchi::imin(per, left);
        let id = order[0].0;
        let m2 = add_cnt(m, id, g);
        let rest = order.drop_first();
        assert forall|k: u32| 0 <= #[trigger] cnt(m2, k) <= cap by {
            if k == id && g > 0 {
                assert(cnt(m, id) == 0);
            } else {
                assert(cnt(m2, k) == cnt(m, k));
            }
        }
        assert forall|i: int, j: int| 0 <= i < j < rest.len() implies #[trigger] rest[i].0
            != #[trigger] rest[j].0 by {
            assert(rest[i] == order[i + 1] && rest[j] == order[j + 1]);
        }
        assert forall|j: int| 0 <= j < rest.len() implies cnt(m2, #[trigger] rest[j].0) == 0 by {
            assert(rest[j] == order[j + 1]);
            assert(order[j + 1].0 != order[0].0);
            assert(cnt(m, order[j + 1].0) == 0);
        }
        lemma_per_each_capped(rest, m2, left - g, per, cap);
    }
}

proof fn lemma_fill_capped(order: Seq<DiveTarget>, m: Map<u32, int>, left: int, cap: int)
    requires
        capped(m, cap),
    ensures
        capped(fill_to_cap(order, m, left, cap).0, cap),
    decreases order.len(),
{
    if order.len() > 0 {
        let id = order[0].0;
        let c = cnt(m, id);
        let g = if c < cap && left > 0 {
            super::dragapult_takeuchi::imin(left, cap - c)
        } else {
            0
        };
        let m2 = add_cnt(m, id, g);
        assert forall|k: u32| 0 <= #[trigger] cnt(m2, k) <= cap by {
            if k != id || g <= 0 {
                assert(cnt(m2, k) == cnt(m, k));
            }
        }
        lemma_fill_capped(order.drop_first(), m2, left - g, cap);
    }
}

proof fn lemma_y_phase1_capped(ts: Seq<DiveTarget>, total: int, cap: int)
    requires
        cap >= 1,
        total >= 1,
    ensures
        capped(y_phase1(ts, total, cap).0, cap),
        y_phase1(ts, total, cap).2 is None ==> y_phase1(ts, total, cap).0 == Map::<u32, int>::empty(),
{
    let e = Map::<u32, int>::empty();
    assert forall|k: u32| 0 <= #[trigger] cnt(e, k) <= cap by {}
    let f0 = ko_target(0, total, cap);
    let f1 = ko_target(1, total, cap);
    let f2 = ko_target(2, total, cap);
    crate::util::lemma_first_where(ts, f0);
    crate::util::lemma_first_where(ts, f1);
    crate::util::lemma_first_where(ts, f2);
    let r = y_phase1(ts, total, cap).0;
    assert forall|k: u32| 0 <= #[trigger] cnt(r, k) <= cap by {
        if r.contains_key(k) {
            assert(r.dom().contains(k));
        }
    }
}

/// The targets that got counters all have a positive count.
proof fn lemma_y_placed(ts: Seq<DiveTarget>, m: Map<u32, int>)
    ensures
        forall|i: int| 0 <= i < y_placed(ts, m).len() ==> cnt(m, #[trigger] y_placed(ts, m)[i]) > 0,
    decreases ts.len(),
{
    if ts.len() > 0 {
        lemma_y_placed(ts.drop_last(), m);
        let r = y_placed(ts.drop_last(), m);
        if cnt(m, ts.last().0) > 0 {
            let s = r.push(ts.last().0);
            assert forall|i: int| 0 <= i < s.len() implies cnt(m, #[trigger] s[i]) > 0 by {
                if i < r.len() {
                    assert(s[i] == r[i]);
                }
            }
        }
    }
}

/// Phantom Dive's counters keep to the cap: on eligible targets that are all different,
/// every chosen target gets between one counter and the cap (`per_target_max`, or the total
/// without one).
pub proof fn law_phantom_dive_within_cap(
    reg: Map<Seq<char>, FactView>,
    p: PromptMsg,
    elig: Seq<u32>,
    total: u8,
    per: Option<u8>,
)
    requires
        elig.no_duplicates(),
    ensures
        match dive_counts(reg, p, elig, total, per) {
            Some((ids, counts)) => {
                &&& ids.len() == counts.len()
                &&& forall|i: int|
                    0 <= i < counts.len() ==> 1 <= #[trigger] counts[i]
                        <= super::dragapult_takeuchi::dist_cap(total, per)
            },
            None => true,
        },
{
    let cap = super::dragapult_takeuchi::dist_cap(total, per) as int;
    if let Some(state) = p.state {
        let ts = yts(reg, state, elig);
        if !(total == 0 || elig.len() == 0 || cap == 0 || ts.len() == 0) {
            lemma_yts_unique(reg, state, elig);
            lemma_y_phase1_capped(ts, total as int, cap);
            lemma_y_phase1_sum(ts, total as int, cap);
            let p1 = y_phase1(ts, total as int, cap);
            lemma_dive_phase2(ts, p1.0, p1.1, p1.2, cap);
            let order = without(ts, p1.2);
            let p2 = if p1.2 is Some {
                fill_to_cap(y_sort(order, true), p1.0, p1.1, cap)
            } else {
                let s = y_sort(order, false);
                let a = per_each(s, p1.0, p1.1, super::dragapult_takeuchi::imin(3, cap));
                fill_to_cap(s, a.0, a.1, cap)
            };
            lemma_fill_capped(ts, p2.0, p2.1, cap);
            let p3 = fill_to_cap(ts, p2.0, p2.1, cap);
            lemma_y_placed(ts, p3.0);
            let ids = y_placed(ts, p3.0);
            let counts = ids.map_values(|e: u32| cnt(p3.0, e) as u8);
            assert forall|i: int| 0 <= i < counts.len() implies 1 <= #[trigger] counts[i] <= cap by {
                assert(0 < cnt(p3.0, ids[i]) <= cap);
            }
        }
    }
}

} // verus!

verus! {

/// The bot answers a request with one of the request's legal actions, and with an error
/// only when there is none: whatever it drew, its answer meets what the random policy
/// promises.
pub proof fn law_yopifutto_answers_legally(
    reg: Map<Seq<char>, FactView>,
    m: YopifuttoMemory,
    req: RequestMsg,
    m2: YopifuttoMemory,
    r: Result<Action, TransportError>,
)
    requires
        exists|pick: u32| #[trigger] yopi_action_holds(reg, m, req, m2, r, pick),
    ensures
        super::random::random_action_ok(req, r),
{
    let pick = choose|pick: u32| #[trigger] yopi_action_holds(reg, m, req, m2, r, pick);
    let out = yopi_steps(reg, y_reset(m, req.state.turn), req.state, req.legal_actions@, pick);
    if let Some(i) = out.0 {
        assert(req.legal_actions@[i]@ == req.legal_actions@[i]@);
    }
}

} // verus!

verus! {

// ============================================================================
// Phantom Dive: all counters placed
// ============================================================================

/// The counters recorded for the targets of `ts`, added up.
pub open spec fn sum_cnt(ts: Seq<DiveTarget>, m: Map<u32, int>) -> int
    decreases ts.len(),
{
    if ts.len() == 0 {
        0
    } else {
        sum_cnt(ts.drop_last(), m) + cnt(m, ts.last().0)
    }
}

/// Whether `id` is the id of one of the targets.
pub open spec fn has_id(ts: Seq<DiveTarget>, id: u32) -> bool {
    exists|j: int| 0 <= j < ts.len() && #[trigger] ts[j].0 == id
}

proof fn lemma_sum_cnt_add(ts: Seq<DiveTarget>, m: Map<u32, int>, id: u32, g: int)
    requires
        ids_unique(ts),
        g >= 0,
    ensures
        sum_cnt(ts, add_cnt(m, id, g)) == sum_cnt(ts, m) + if has_id(ts, id) {
            g
        } else {
            0
        },
    decreases ts.len(),
{
    if ts.len() > 0 {
        let t = ts.drop_last();
        assert forall|i: int, j: int| 0 <= i < j < t.len() implies #[trigger] t[i].0
            != #[trigger] t[j].0 by {
            assert(t[i] == ts[i] && t[j] == ts[j]);
        }
        lemma_sum_cnt_add(t, m, id, g);
        let last = ts.last().0;
        if has_id(t, id) {
            let k = choose|k: int| 0 <= k < t.len() && #[trigger] t[k].0 == id;
            assert(ts[k] == t[k]);
            assert(ts[ts.len() - 1].0 == last);
            assert(has_id(ts, id));
        } else if last == id {
            assert(ts[ts.len() - 1].0 == id);
            assert(has_id(ts, id));
        } else {
            if has_id(ts, id) {
                let k = choose|k: int| 0 <= k < ts.len() && #[trigger] ts[k].0 == id;
                if k < t.len() {
                    assert(t[k] == ts[k]);
                } else {
                    assert(ts[k].0 == last);
                }
            }
        }
    }
}

proof fn lemma_sum_cnt_empty(ts: Seq<DiveTarget>)
    ensures
        sum_cnt(ts, Map::<u32, int>::empty()) == 0,
    decreases ts.len(),
{
    if ts.len() > 0 {
        lemma_sum_cnt_empty(ts.drop_last());
    }
}

proof fn lemma_sum_cnt_bounds(ts: Seq<DiveTarget>, m: Map<u32, int>, cap: int)
    requires
        capped(m, cap),
    ensures
        0 <= sum_cnt(ts, m) <= cap * ts.len(),
        (forall|j: int| 0 <= j < ts.len() ==> cnt(m, #[trigger] ts[j].0) == cap) ==> sum_cnt(ts, m)
            == cap * ts.len(),
    decreases ts.len(),
{
    if ts.len() == 0 {
        assert(cap * ts.len() == 0) by (nonlinear_arith)
            requires
                ts.len() == 0,
        ;
    } else {
        let t = ts.drop_last();
        lemma_sum_cnt_bounds(t, m, cap);
        assert(cnt(m, ts.last().0) <= cap);
        assert(cap * ts.len() == cap * t.len() + cap) by (nonlinear_arith)
            requires
                ts.len() == t.len() + 1,
        ;
        if forall|j: int| 0 <= j < ts.len() ==> cnt(m, #[trigger] ts[j].0) == cap {
            assert forall|j: int| 0 <= j < t.len() implies cnt(m, #[trigger] t[j].0) == cap by {
                assert(t[j] == ts[j]);
            }
            assert(ts[ts.len() - 1] == ts.last());
        }
    }
}

proof fn lemma_fill_sum(order: Seq<DiveTarget>, ts: Seq<DiveTarget>, m: Map<u32, int>, left: int, cap: int)
    requires
        ids_unique(ts),
        ids_within(order, ts),
        capped(m, cap),
        left >= 0,
    ensures
        ({
            let r = fill_to_cap(order, m, left, cap);
            &&& 0 <= r.1 <= left
            &&& sum_cnt(ts, r.0) + r.1 == sum_cnt(ts, m) + left
            &&& forall|k: u32| cnt(r.0, k) >= #[trigger] cnt(m, k)
            &&& r.1 > 0 ==> forall|j: int| 0 <= j < order.len() ==> cnt(r.0, #[trigger] order[j].0) == cap
        }),
    decreases order.len(),
{
    if order.len() > 0 {
        let id = order[0].0;
        let c = cnt(m, id);
        let g = if c < cap && left > 0 {
            super::dragapult_takeuchi::imin(left, cap - c)
        } else {
            0
        };
        let m2 = add_cnt(m, id, g);
        let rest = order.drop_first();
        assert forall|k: u32| 0 <= #[trigger] cnt(m2, k) <= cap by {
            if k != id || g <= 0 {
                assert(cnt(m2, k) == cnt(m, k));
            }
        }
        assert forall|i: int| 0 <= i < rest.len() implies exists|j: int|
            0 <= j < ts.len() && #[trigger] ts[j].0 == #[trigger] rest[i].0 by {
            assert(rest[i] == order[i + 1]);
        }
        lemma_fill_sum(rest, ts, m2, left - g, cap);
        lemma_sum_cnt_add(ts, m, id, g);
        assert(has_id(ts, id)) by {
            let j = choose|j: int| 0 <= j < ts.len() && #[trigger] ts[j].0 == order[0].0;
        }
        let r = fill_to_cap(rest, m2, left - g, cap);
        assert forall|k: u32| cnt(r.0, k) >= #[trigger] cnt(m, k) by {
            assert(cnt(m2, k) >= cnt(m, k));
        }
        if r.1 > 0 {
            assert forall|j: int| 0 <= j < order.len() implies cnt(r.0, #[trigger] order[j].0) == cap by {
                if j > 0 {
                    assert(order[j] == rest[j - 1]);
                    assert(cnt(r.0, rest[j - 1].0) == cap);
                } else {
                    lemma_fill_capped(rest, m2, left - g, cap);
                    assert(cnt(m, id) <= cap);
                    assert(cnt(m2, id) == cap);
                    assert(cnt(r.0, id) >= cnt(m2, id));
                    assert(cnt(r.0, id) <= cap);
                }
            }
        }
    }
}

proof fn lemma_per_each_sum(order: Seq<DiveTarget>, ts: Seq<DiveTarget>, m: Map<u32, int>, left: int, per: int)
    requires
        ids_unique(ts),
        ids_within(order, ts),
        left >= 0,
        per >= 0,
    ensures
        0 <= per_each(order, m, left, per).1 <= left,
        sum_cnt(ts, per_each(order, m, left, per).0) + per_each(order, m, left, per).1 == sum_cnt(
            ts,
            m,
        ) + left,
    decreases order.len(),
{
    if order.len() > 0 && left > 0 {
        let g = super::dragapult_takeuchi::imin(per, left);
        let id = order[0].0;
        let rest = order.drop_first();
        assert forall|i: int| 0 <= i < rest.len() implies exists|j: int|
            0 <= j < ts.len() && #[trigger] ts[j].0 == #[trigger] rest[i].0 by {
            assert(rest[i] == order[i + 1]);
        }
        lemma_sum_cnt_add(ts, m, id, g);
        assert(has_id(ts, id)) by {
            let j = choose|j: int| 0 <= j < ts.len() && #[trigger] ts[j].0 == order[0].0;
        }
        lemma_per_each_sum(rest, ts, add_cnt(m, id, g), left - g, per);
    }
}

proof fn lemma_y_phase1_sum(ts: Seq<DiveTarget>, total: int, cap: int)
    requires
        ids_unique(ts),
        total >= 1,
        cap >= 1,
    ensures
        0 <= y_phase1(ts, total, cap).1 <= total,
        sum_cnt(ts, y_phase1(ts, total, cap).0) + y_phase1(ts, total, cap).1 == total,
{
    let e = Map::<u32, int>::empty();
    lemma_sum_cnt_empty(ts);
    let f0 = ko_target(0, total, cap);
    let f1 = ko_target(1, total, cap);
    let f2 = ko_target(2, total, cap);
    let f3 = |t: DiveTarget| t.1 == 3;
    crate::util::lemma_first_where(ts, f0);
    crate::util::lemma_first_where(ts, f1);
    crate::util::lemma_first_where(ts, f2);
    crate::util::lemma_first_where(ts, f3);
    let hit = if find_first(ts, f0) is Some {
        find_first(ts, f0)
    } else if find_first(ts, f1) is Some {
        find_first(ts, f1)
    } else {
        find_first(ts, f2)
    };
    match hit {
        Some(t) => {
            let k = super::dragapult_takeuchi::ko_byte(t.2 as int) as int;
            assert(has_id(ts, t.0));
            lemma_sum_cnt_add(ts, e, t.0, k);
        },
        None => {
            if let Some(t) = find_first(ts, f3) {
                assert(has_id(ts, t.0));
                lemma_sum_cnt_add(ts, e, t.0, 1);
            }
        },
    }
}

/// The entries of `ts` with a positive count sum to all the counts.
proof fn lemma_placed_sum(ts: Seq<DiveTarget>, m: Map<u32, int>, cap: int)
    requires
        capped(m, cap),
        cap <= 255,
    ensures
        super::dragapult_takeuchi::sum_counts(
            y_placed(ts, m).map_values(|e: u32| cnt(m, e) as u8),
        ) == sum_cnt(ts, m),
    decreases ts.len(),
{
    if ts.len() > 0 {
        let t = ts.drop_last();
        lemma_placed_sum(t, m, cap);
        let r = y_placed(t, m);
        let x = ts.last().0;
        if cnt(m, x) > 0 {
            let a = r.map_values(|e: u32| cnt(m, e) as u8);
            assert(r.push(x).map_values(|e: u32| cnt(m, e) as u8) =~= a.push(cnt(m, x) as u8));
            lemma_sum_counts_push(a, cnt(m, x) as u8);
        }
    }
}

/// Adding one count at the end adds it to the sum.
proof fn lemma_sum_counts_push(s: Seq<u8>, x: u8)
    ensures
        super::dragapult_takeuchi::sum_counts(s.push(x)) == super::dragapult_takeuchi::sum_counts(s)
            + x,
    decreases s.len(),
{
    if s.len() > 0 {
        lemma_sum_counts_push(s.drop_first(), x);
        assert(s.push(x).drop_first() =~= s.drop_first().push(x));
        assert(s.push(x)[0] == s[0]);
    } else {
        assert(s.push(x).drop_first() =~= Seq::<u8>::empty());
        assert(s.push(x)[0] == x);
        assert(super::dragapult_takeuchi::sum_counts(Seq::<u8>::empty()) == 0);
    }
}

/// The second phase (see `dive_counts`) keeps to the cap and loses no counter.
proof fn lemma_dive_phase2(ts: Seq<DiveTarget>, m: Map<u32, int>, left: int, prim: Option<u32>, cap: int)
    requires
        ids_unique(ts),
        capped(m, cap),
        left >= 0,
        cap >= 1,
        prim is None ==> m == Map::<u32, int>::empty(),
    ensures
        ({
            let order = without(ts, prim);
            let p2 = if prim is Some {
                fill_to_cap(y_sort(order, true), m, left, cap)
            } else {
                let s = y_sort(order, false);
                let a = per_each(s, m, left, super::dragapult_takeuchi::imin(3, cap));
                fill_to_cap(s, a.0, a.1, cap)
            };
            &&& capped(p2.0, cap)
            &&& p2.1 >= 0
            &&& sum_cnt(ts, p2.0) + p2.1 == sum_cnt(ts, m) + left
        }),
{
    let order = without(ts, prim);
    lemma_without_unique(ts, prim);
    let after = prim is Some;
    let s = y_sort(order, after);
    lemma_y_sort_unique(order, after);
    assert forall|i: int| 0 <= i < s.len() implies exists|j: int|
        0 <= j < ts.len() && #[trigger] ts[j].0 == #[trigger] s[i].0 by {
        let k = choose|k: int| 0 <= k < order.len() && #[trigger] order[k].0 == s[i].0;
        let j = choose|j: int| 0 <= j < ts.len() && #[trigger] ts[j].0 == order[k].0;
    }
    if after {
        lemma_fill_sum(s, ts, m, left, cap);
        lemma_fill_capped(s, m, left, cap);
    } else {
        let per3 = super::dragapult_takeuchi::imin(3, cap);
        lemma_per_each_capped(s, m, left, per3, cap);
        lemma_per_each_sum(s, ts, m, left, per3);
        let a = per_each(s, m, left, per3);
        lemma_fill_sum(s, ts, a.0, a.1, cap);
        lemma_fill_capped(s, a.0, a.1, cap);
    }
}

/// Phantom Dive places all the counters it can: on eligible targets that are all different,
/// the counters add up to the total or, where the total does not fit, to the cap on every
/// eligible opposing target.
#[verifier::rlimit(40)]
pub proof fn law_phantom_dive_places_all(
    reg: Map<Seq<char>, FactView>,
    p: PromptMsg,
    elig: Seq<u32>,
    total: u8,
    per: Option<u8>,
)
    requires
        elig.no_duplicates(),
    ensures
        match dive_counts(reg, p, elig, total, per) {
            Some((ids, counts)) => super::dragapult_takeuchi::sum_counts(counts)
                == super::dragapult_takeuchi::imin(
                total as int,
                super::dragapult_takeuchi::dist_cap(total, per) * yts(
                    reg,
                    p.state.unwrap(),
                    elig,
                ).len(),
            ),
            None => true,
        },
{
    let cap = super::dragapult_takeuchi::dist_cap(total, per) as int;
    if let Some(state) = p.state {
        let ts = yts(reg, state, elig);
        if !(total == 0 || elig.len() == 0 || cap == 0 || ts.len() == 0) {
            assert(ids_unique(ts)) by {
                lemma_yts_unique(reg, state, elig);
            }
            let p1 = y_phase1(ts, total as int, cap);
            assert(capped(p1.0, cap) && 0 <= p1.1 && sum_cnt(ts, p1.0) + p1.1 == total && (p1.2 is None
                ==> p1.0 == Map::<u32, int>::empty())) by {
                lemma_y_phase1_capped(ts, total as int, cap);
                lemma_y_phase1_sum(ts, total as int, cap);
            }
            let order = without(ts, p1.2);
            let p2 = if p1.2 is Some {
                fill_to_cap(y_sort(order, true), p1.0, p1.1, cap)
            } else {
                let s = y_sort(order, false);
                let a = per_each(s, p1.0, p1.1, super::dragapult_takeuchi::imin(3, cap));
                fill_to_cap(s, a.0, a.1, cap)
            };
            assert(capped(p2.0, cap) && p2.1 >= 0 && sum_cnt(ts, p2.0) + p2.1 == total) by {
                lemma_dive_phase2(ts, p1.0, p1.1, p1.2, cap);
            }
            let p3 = fill_to_cap(ts, p2.0, p2.1, cap);
            assert(sum_cnt(ts, p3.0) == super::dragapult_takeuchi::imin(total as int, cap * ts.len())
                && capped(p3.0, cap)) by {
                assert forall|i: int| 0 <= i < ts.len() implies exists|j: int|
                    0 <= j < ts.len() && #[trigger] ts[j].0 == #[trigger] ts[i].0 by {}
                lemma_fill_sum(ts, ts, p2.0, p2.1, cap);
                lemma_fill_capped(ts, p2.0, p2.1, cap);
                lemma_sum_cnt_bounds(ts, p3.0, cap);
            }
            lemma_placed_sum(ts, p3.0, cap);
        }
    }
}

} // verus!

verus! {

proof fn lemma_dtt(state: StateDto, elig: Seq<u32>, targets: Seq<u32>, left: int, cap: int)
    requires
        left >= 0,
        cap <= 255,
    ensures
        dtt(state, elig, targets, left, cap).0.len() == dtt(state, elig, targets, left, cap).1.len(),
        super::dragapult_takeuchi::sum_counts(dtt(state, elig, targets, left, cap).1) <= left,
        forall|i: int|
            0 <= i < dtt(state, elig, targets, left, cap).1.len() ==> 1 <= #[trigger] dtt(
                state,
                elig,
                targets,
                left,
                cap,
            ).1[i] <= cap,
        forall|i: int|
            0 <= i < dtt(state, elig, targets, left, cap).0.len() ==> elig.contains(
                #[trigger] dtt(state, elig, targets, left, cap).0[i],
            ),
    decreases targets.len(),
{
    if targets.len() > 0 {
        let t = targets[0];
        let rest = targets.drop_first();
        match super::board::opp_mon(state, t) {
            Some(m) => if !elig.contains(t) {
                lemma_dtt(state, elig, rest, left, cap);
            } else {
                let need = super::dragapult_takeuchi::ko_byte(rem_hp(m)) as int;
                let give = super::dragapult_takeuchi::imin(super::dragapult_takeuchi::imin(need, cap), left);
                if give <= 0 {
                    lemma_dtt(state, elig, rest, left, cap);
                } else {
                    lemma_dtt(state, elig, rest, left - give, cap);
                    let r = dtt(state, elig, rest, left - give, cap);
                    let ids = seq![t] + r.0;
                    let cs = seq![give as u8] + r.1;
                    assert(cs.drop_first() =~= r.1);
                    assert forall|i: int| 0 <= i < cs.len() implies 1 <= #[trigger] cs[i] <= cap by {
                        if i > 0 {
                            assert(cs[i] == r.1[i - 1]);
                        }
                    }
                    assert forall|i: int| 0 <= i < ids.len() implies elig.contains(#[trigger] ids[i]) by {
                        if i > 0 {
                            assert(ids[i] == r.0[i - 1]);
                        }
                    }
                }
            },
            None => {
                lemma_dtt(state, elig, rest, left, cap);
            },
        }
    }
}

/// The planned closing counters stay within what is allowed: only offered targets, each
/// with between one counter and the cap, and no more than the total altogether.
pub proof fn law_to_targets_within_limits(
    p: PromptMsg,
    elig: Seq<u32>,
    targets: Seq<u32>,
    total: u8,
    per: Option<u8>,
)
    ensures
        match to_targets_spec(p, elig, targets, total, per) {
            Some((ids, counts)) => {
                &&& ids.len() == counts.len()
                &&& forall|i: int| 0 <= i < ids.len() ==> elig.contains(#[trigger] ids[i])
                &&& forall|i: int|
                    0 <= i < counts.len() ==> 1 <= #[trigger] counts[i]
                        <= super::dragapult_takeuchi::dist_cap(total, per)
                &&& super::dragapult_takeuchi::sum_counts(counts) <= total
            },
            None => true,
        },
{
    if let Some(s) = p.state {
        if total != 0 {
            lemma_dtt(s, elig, targets, total as int, super::dragapult_takeuchi::dist_cap(total, per) as int);
        }
    }
}

} // verus!

verus! {

// ============================================================================
// Phantom Dive: whom the counters go to
// ============================================================================

proof fn lemma_yts_opp(reg: Map<Seq<char>, FactView>, state: StateDto, elig: Seq<u32>)
    ensures
        forall|i: int|
            0 <= i < yts(reg, state, elig).len() ==> super::board::opp_mon(
                state,
                #[trigger] yts(reg, state, elig)[i].0,
            ) is Some,
        yts(reg, state, elig).len() == 0 <==> forall|i: int|
            0 <= i < elig.len() ==> super::board::opp_mon(state, #[trigger] elig[i]) is None,
    decreases elig.len(),
{
    if elig.len() > 0 {
        let e = elig.drop_last();
        lemma_yts_opp(reg, state, e);
        let r = yts(reg, state, e);
        let s = yts(reg, state, elig);
        if super::board::opp_mon(state, elig.last()) is Some {
            assert forall|i: int| 0 <= i < s.len() implies super::board::opp_mon(
                state,
                #[trigger] s[i].0,
            ) is Some by {
                if i < r.len() {
                    assert(s[i] == r[i]);
                }
            }
            assert(super::board::opp_mon(state, elig[elig.len() - 1]) is Some);
        } else {
            if r.len() == 0 {
                assert forall|i: int| 0 <= i < elig.len() implies super::board::opp_mon(
                    state,
                    #[trigger] elig[i],
                ) is None by {
                    if i < e.len() {
                        assert(elig[i] == e[i]);
                    }
                }
            } else {
                let k = choose|k: int|
                    0 <= k < e.len() && super::board::opp_mon(state, #[trigger] e[k]) is Some;
                assert(elig[k] == e[k]);
            }
        }
    }
}

/// The targets that got counters: ids of `ts`, each once when `ts` has no id twice, and
/// every target of `ts` with a positive count among them.
proof fn lemma_y_placed_ids(ts: Seq<DiveTarget>, m: Map<u32, int>)
    ensures
        forall|i: int| 0 <= i < y_placed(ts, m).len() ==> has_id(ts, #[trigger] y_placed(ts, m)[i]),
        forall|j: int| 0 <= j < ts.len() && cnt(m, #[trigger] ts[j].0) > 0 ==> y_placed(ts, m).contains(ts[j].0),
        ids_unique(ts) ==> y_placed(ts, m).no_duplicates(),
    decreases ts.len(),
{
    if ts.len() > 0 {
        let t = ts.drop_last();
        lemma_y_placed_ids(t, m);
        let r = y_placed(t, m);
        let x = ts.last().0;
        assert forall|i: int| 0 <= i < r.len() implies has_id(ts, #[trigger] r[i]) by {
            let k = choose|k: int| 0 <= k < t.len() && #[trigger] t[k].0 == r[i];
            assert(ts[k] == t[k]);
        }
        if ids_unique(ts) {
            assert forall|i: int, j: int| 0 <= i < j < t.len() implies #[trigger] t[i].0
                != #[trigger] t[j].0 by {
                assert(t[i] == ts[i] && t[j] == ts[j]);
            }
        }
        if cnt(m, x) > 0 {
            let s = r.push(x);
            assert(ts[ts.len() - 1].0 == x);
            assert forall|i: int| 0 <= i < s.len() implies has_id(ts, #[trigger] s[i]) by {
                if i < r.len() {
                    assert(s[i] == r[i]);
                }
            }
            assert forall|j: int| 0 <= j < ts.len() && cnt(m, #[trigger] ts[j].0) > 0 implies s.contains(ts[j].0) by {
                if j < t.len() {
                    assert(ts[j] == t[j]);
                    let k = choose|k: int| 0 <= k < r.len() && r[k] == t[j].0;
                    assert(s[k] == r[k]);
                } else {
                    assert(s[r.len() as int] == x);
                }
            }
            if ids_unique(ts) {
                assert forall|i: int| 0 <= i < r.len() implies r[i] != x by {
                    let k = choose|k: int| 0 <= k < t.len() && #[trigger] t[k].0 == r[i];
                    assert(ts[k] == t[k]);
                }
                assert forall|a: int, b: int| 0 <= a < s.len() && 0 <= b < s.len() && a != b implies s[a]
                    != s[b] by {
                    if a < r.len() && b < r.len() {
                        assert(s[a] == r[a] && s[b] == r[b]);
                    } else if a < r.len() {
                        assert(s[a] == r[a]);
                    } else {
                        assert(s[b] == r[b]);
                    }
                }
            }
        } else {
            assert forall|j: int| 0 <= j < ts.len() && cnt(m, #[trigger] ts[j].0) > 0 implies r.contains(ts[j].0) by {
                if j < t.len() {
                    assert(ts[j] == t[j]);
                } else {
                    assert(ts[j].0 == x);
                }
            }
        }
    }
}

/// The knock-out target of the first phase: a drakloak, else a dreepy, else a duskull that
/// the counters and the cap can knock out (see `y_phase1`).
pub open spec fn dive_ko_pick(ts: Seq<DiveTarget>, total: int, cap: int) -> Option<DiveTarget> {
    let f0 = find_first(ts, ko_target(0, total, cap));
    let f1 = find_first(ts, ko_target(1, total, cap));
    let f2 = find_first(ts, ko_target(2, total, cap));
    if f0 is Some {
        f0
    } else if f1 is Some {
        f1
    } else {
        f2
    }
}

/// The counts after all phases, and what is left (see `dive_counts`).
pub open spec fn dive_final(ts: Seq<DiveTarget>, total: int, cap: int) -> (Map<u32, int>, int) {
    let p1 = y_phase1(ts, total, cap);
    let order = without(ts, p1.2);
    let p2 = if p1.2 is Some {
        fill_to_cap(y_sort(order, true), p1.0, p1.1, cap)
    } else {
        let s = y_sort(order, false);
        let a = per_each(s, p1.0, p1.1, super::dragapult_takeuchi::imin(3, cap));
        fill_to_cap(s, a.0, a.1, cap)
    };
    fill_to_cap(ts, p2.0, p2.1, cap)
}

/// On distinct targets with counters and a cap, the last phase ends capped, with every
/// counter accounted for, and counts that never fell below the first phase's.
proof fn lemma_dive_final(ts: Seq<DiveTarget>, total: int, cap: int)
    requires
        ids_unique(ts),
        1 <= total,
        1 <= cap <= 255,
    ensures
        capped(dive_final(ts, total, cap).0, cap),
        sum_cnt(ts, dive_final(ts, total, cap).0) == super::dragapult_takeuchi::imin(total, cap * ts.len()),
        forall|k: u32| cnt(dive_final(ts, total, cap).0, k) >= #[trigger] cnt(y_phase1(ts, total, cap).0, k),
{
    lemma_y_phase1_capped(ts, total, cap);
    lemma_y_phase1_sum(ts, total, cap);
    let p1 = y_phase1(ts, total, cap);
    lemma_dive_phase2(ts, p1.0, p1.1, p1.2, cap);
    let order = without(ts, p1.2);
    let p2 = if p1.2 is Some {
        fill_to_cap(y_sort(order, true), p1.0, p1.1, cap)
    } else {
        let s = y_sort(order, false);
        let a = per_each(s, p1.0, p1.1, super::dragapult_takeuchi::imin(3, cap));
        fill_to_cap(s, a.0, a.1, cap)
    };
    assert forall|i: int| 0 <= i < ts.len() implies exists|j: int|
        0 <= j < ts.len() && #[trigger] ts[j].0 == #[trigger] ts[i].0 by {}
    lemma_fill_sum(ts, ts, p2.0, p2.1, cap);
    lemma_fill_capped(ts, p2.0, p2.1, cap);
    lemma_sum_cnt_bounds(ts, dive_final(ts, total, cap).0, cap);
    if p1.2 is Some {
        lemma_without_unique(ts, p1.2);
        let s = y_sort(order, true);
        lemma_y_sort_unique(order, true);
        assert forall|i: int| 0 <= i < s.len() implies exists|j: int|
            0 <= j < ts.len() && #[trigger] ts[j].0 == #[trigger] s[i].0 by {
            let k = choose|k: int| 0 <= k < order.len() && #[trigger] order[k].0 == s[i].0;
            let j = choose|j: int| 0 <= j < ts.len() && #[trigger] ts[j].0 == order[k].0;
        }
        lemma_fill_sum(s, ts, p1.0, p1.1, cap);
        assert forall|k: u32| cnt(dive_final(ts, total, cap).0, k) >= #[trigger] cnt(p1.0, k) by {
            assert(cnt(p2.0, k) >= cnt(p1.0, k));
        }
    } else {
        assert forall|k: u32| cnt(dive_final(ts, total, cap).0, k) >= #[trigger] cnt(p1.0, k) by {
            assert(cnt(p1.0, k) == 0);
            assert(cnt(p2.0, k) >= 0);
        }
    }
}

proof fn lemma_sum_cnt_zero(ts: Seq<DiveTarget>, m: Map<u32, int>)
    requires
        forall|j: int| 0 <= j < ts.len() ==> cnt(m, #[trigger] ts[j].0) <= 0,
    ensures
        sum_cnt(ts, m) <= 0,
    decreases ts.len(),
{
    if ts.len() > 0 {
        let t = ts.drop_last();
        assert forall|j: int| 0 <= j < t.len() implies cnt(m, #[trigger] t[j].0) <= 0 by {
            assert(t[j] == ts[j]);
        }
        lemma_sum_cnt_zero(t, m);
        assert(cnt(m, ts[ts.len() - 1].0) <= 0);
    }
}

/// Phantom Dive answers exactly when there is something to place: a board, counters, a
/// positive cap, and an eligible id of an opposing Pokémon in play. The targets it answers
/// with are all different, all eligible, and all opposing Pokémon in play (eligible ids
/// all different).
pub proof fn law_phantom_dive_targets(
    reg: Map<Seq<char>, FactView>,
    p: PromptMsg,
    elig: Seq<u32>,
    total: u8,
    per: Option<u8>,
)
    requires
        elig.no_duplicates(),
    ensures
        match p.state {
            None => dive_counts(reg, p, elig, total, per) is None,
            Some(s) => {
                &&& dive_counts(reg, p, elig, total, per) is None <==> (total == 0 || elig.len() == 0
                    || per == Some(0u8) || forall|i: int|
                    0 <= i < elig.len() ==> super::board::opp_mon(s, #[trigger] elig[i]) is None)
                &&& dive_counts(reg, p, elig, total, per) matches Some((ids, counts)) ==> {
                    &&& ids.no_duplicates()
                    &&& forall|i: int|
                        0 <= i < ids.len() ==> elig.contains(#[trigger] ids[i])
                            && super::board::opp_mon(s, ids[i]) is Some
                }
            },
        },
{
    let cap = super::dragapult_takeuchi::dist_cap(total, per) as int;
    if let Some(state) = p.state {
        let ts = yts(reg, state, elig);
        lemma_yts_opp(reg, state, elig);
        lemma_yts_unique(reg, state, elig);
        if !(total == 0 || elig.len() == 0 || cap == 0 || ts.len() == 0) {
            lemma_dive_final(ts, total as int, cap);
            let m = dive_final(ts, total as int, cap);
            lemma_y_placed_ids(ts, m.0);
            let ids = y_placed(ts, m.0);
            if ids.len() == 0 {
                lemma_sum_cnt_zero(ts, m.0);
                assert(cap * ts.len() >= 1) by (nonlinear_arith)
                    requires
                        cap >= 1,
                        ts.len() >= 1,
                ;
            }
            assert forall|i: int| 0 <= i < ids.len() implies elig.contains(#[trigger] ids[i])
                && super::board::opp_mon(state, ids[i]) is Some by {
                let j = choose|j: int| 0 <= j < ts.len() && #[trigger] ts[j].0 == ids[i];
                assert(super::board::opp_mon(state, ts[j].0) is Some);
            }
        }
    }
}

/// Where the first phase picks a knock-out target (a drakloak, else a dreepy, else a duskull
/// that the counters and the cap can knock out), Phantom Dive answers, and that target gets
/// at least the counters that knock it out.
pub open spec fn dive_knocks_out(
    reg: Map<Seq<char>, FactView>,
    p: PromptMsg,
    elig: Seq<u32>,
    total: u8,
    per: Option<u8>,
) -> bool {
    let cap = super::dragapult_takeuchi::dist_cap(total, per) as int;
    match p.state {
        Some(s) => total > 0 && cap > 0 ==> match dive_ko_pick(yts(reg, s, elig), total as int, cap) {
            Some(t) => match dive_counts(reg, p, elig, total, per) {
                Some(r) => exists|i: int|
                    0 <= i < r.0.len() && #[trigger] r.0[i] == t.0 && r.1[i]
                        >= super::dragapult_takeuchi::ko_byte(t.2 as int),
                None => false,
            },
            None => true,
        },
        None => true,
    }
}

/// Phantom Dive knocks out the first phase's pick (see `dive_knocks_out`), eligible ids all
/// different.
pub proof fn law_phantom_dive_knocks_out(
    reg: Map<Seq<char>, FactView>,
    p: PromptMsg,
    elig: Seq<u32>,
    total: u8,
    per: Option<u8>,
)
    requires
        elig.no_duplicates(),
    ensures
        dive_knocks_out(reg, p, elig, total, per),
{
    let cap = super::dragapult_takeuchi::dist_cap(total, per) as int;
    if let Some(state) = p.state {
        let ts = yts(reg, state, elig);
        if total > 0 && cap > 0 && dive_ko_pick(ts, total as int, cap) is Some {
            let t = dive_ko_pick(ts, total as int, cap)->0;
            crate::util::lemma_first_where(ts, ko_target(0, total as int, cap));
            crate::util::lemma_first_where(ts, ko_target(1, total as int, cap));
            crate::util::lemma_first_where(ts, ko_target(2, total as int, cap));
            let j = choose|j: int| 0 <= j < ts.len() && ts[j] == t;
            lemma_yts_unique(reg, state, elig);
            lemma_dive_final(ts, total as int, cap);
            let m = dive_final(ts, total as int, cap);
            let p1 = y_phase1(ts, total as int, cap);
            let k = super::dragapult_takeuchi::ko_byte(t.2 as int) as int;
            assert(cnt(p1.0, t.0) == k);
            assert(cnt(m.0, ts[j].0) >= k);
            lemma_y_placed_ids(ts, m.0);
            let ids = y_placed(ts, m.0);
            assert(ids.contains(ts[j].0));
            let i = choose|i: int| 0 <= i < ids.len() && ids[i] == ts[j].0;
            let counts = ids.map_values(|e: u32| cnt(m.0, e) as u8);
            assert(counts[i] == cnt(m.0, ids[i]) as u8);
            assert(cnt(m.0, ids[i]) <= cap);
            assert(dive_counts(reg, p, elig, total, per) == Some((ids, counts)));
            assert(ids[i] == t.0 && counts[i] >= k);
            assert(exists|i2: int|
                0 <= i2 < ids.len() && ids[i2] == t.0 && counts[i2]
                    >= super::dragapult_takeuchi::ko_byte(t.2 as int));
            assert(dive_ko_pick(yts(reg, state, elig), total as int, cap) == Some(t));
            let dc = dive_counts(reg, p, elig, total, per);
            assert(dc.unwrap().0[i] == t.0);
            assert(match dc {
                Some(r) => exists|i2: int|
                    0 <= i2 < r.0.len() && #[trigger] r.0[i2] == t.0 && r.1[i2]
                        >= super::dragapult_takeuchi::ko_byte(t.2 as int),
                None => false,
            });
            assert(p.state == Some(state));
            assert(dive_knocks_out(reg, p, elig, total, per));
        } else {
            assert(dive_knocks_out(reg, p, elig, total, per));
        }
    } else {
        assert(dive_knocks_out(reg, p, elig, total, per));
    }
}

} // verus!

verus! {

// ============================================================================
// Phantom Dive: where the counters left after the knock-out go
// ============================================================================

proof fn lemma_y_min_idx_least(s: Seq<DiveTarget>, n: int, after: bool)
    requires
        1 <= n <= s.len(),
    ensures
        forall|j: int| 0 <= j < n ==> !y_lt(#[trigger] s[j], s[y_min_idx(s, n, after)], after),
    decreases n,
{
    lemma_y_min_idx(s, n, after);
    if n > 1 {
        lemma_y_min_idx_least(s, n - 1, after);
        lemma_y_min_idx(s, n - 1, after);
    }
}

/// Sorting keeps every target and orders them: no later target comes before an earlier one.
proof fn lemma_y_sorted(s: Seq<DiveTarget>, after: bool)
    ensures
        forall|k: int| 0 <= k < s.len() ==> y_sort(s, after).contains(#[trigger] s[k]),
        forall|i: int, j: int|
            0 <= i < j < y_sort(s, after).len() ==> !y_lt(
                #[trigger] y_sort(s, after)[j],
                #[trigger] y_sort(s, after)[i],
                after,
            ),
    decreases s.len(),
{
    if s.len() > 0 {
        lemma_y_min_idx(s, s.len() as int, after);
        lemma_y_min_idx_least(s, s.len() as int, after);
        let m = y_min_idx(s, s.len() as int, after);
        let t = s.remove(m);
        assert forall|i: int| 0 <= i < t.len() implies #[trigger] t[i] == (if i < m {
            s[i]
        } else {
            s[i + 1]
        }) by {}
        lemma_y_sorted(t, after);
        let r = y_sort(t, after);
        let out = seq![s[m]] + r;
        assert(y_sort(s, after) == out);
        assert forall|k: int| 0 <= k < s.len() implies out.contains(#[trigger] s[k]) by {
            if k == m {
                assert(out[0] == s[k]);
            } else {
                let kt = if k < m {
                    k
                } else {
                    k - 1
                };
                assert(t[kt] == s[k]);
                assert(r.contains(t[kt]));
                let q = choose|q: int| 0 <= q < r.len() && r[q] == t[kt];
                assert(out[q + 1] == s[k]);
            }
        }
        assert forall|i: int| 0 <= i < r.len() implies !y_lt(#[trigger] r[i], s[m], after) by {
            lemma_y_sort_within(t, after);
            let k = choose|k: int| 0 <= k < t.len() && t[k] == r[i];
            if k < m {
                assert(s[k] == t[k]);
            } else {
                assert(s[k + 1] == t[k]);
            }
        }
        assert forall|i: int, j: int| 0 <= i < j < out.len() implies !y_lt(
            #[trigger] out[j],
            #[trigger] out[i],
            after,
        ) by {
            assert(out[j] == r[j - 1]);
            if i > 0 {
                assert(out[i] == r[i - 1]);
            }
        }
    }
}

/// Every target of the sorted order is one of the targets sorted.
proof fn lemma_y_sort_within(s: Seq<DiveTarget>, after: bool)
    ensures
        forall|i: int| 0 <= i < y_sort(s, after).len() ==> s.contains(#[trigger] y_sort(s, after)[i]),
    decreases s.len(),
{
    if s.len() > 0 {
        lemma_y_min_idx(s, s.len() as int, after);
        let m = y_min_idx(s, s.len() as int, after);
        let t = s.remove(m);
        lemma_y_sort_within(t, after);
        let r = y_sort(t, after);
        let out = seq![s[m]] + r;
        assert forall|i: int| 0 <= i < out.len() implies s.contains(#[trigger] out[i]) by {
            if i > 0 {
                assert(out[i] == r[i - 1]);
                let k = choose|k: int| 0 <= k < t.len() && t[k] == r[i - 1];
                if k < m {
                    assert(s[k] == t[k]);
                } else {
                    assert(s[k + 1] == t[k]);
                }
            }
        }
    }
}

/// Topping up in order: nothing is taken away; with nothing left nothing changes; a target
/// gets counters only once every earlier one is at the cap; and counters are left over only
/// when every target is at the cap.
proof fn lemma_fill_order(order: Seq<DiveTarget>, m: Map<u32, int>, left: int, cap: int)
    requires
        ids_unique(order),
    ensures
        ({
            let r = fill_to_cap(order, m, left, cap);
            &&& left <= 0 ==> r.0 == m && r.1 == left
            &&& r.1 <= left
            &&& forall|k: u32| cnt(r.0, k) >= #[trigger] cnt(m, k)
            &&& forall|i: int, j: int|
                0 <= i < j < order.len() && cnt(r.0, #[trigger] order[j].0) > cnt(m, order[j].0)
                    ==> cnt(r.0, #[trigger] order[i].0) >= cap
            &&& r.1 > 0 ==> forall|i: int| 0 <= i < order.len() ==> cnt(r.0, #[trigger] order[i].0) >= cap
        }),
    decreases order.len(),
{
    if order.len() > 0 {
        let id = order[0].0;
        let c = cnt(m, id);
        let g = if c < cap && left > 0 {
            super::dragapult_takeuchi::imin(left, cap - c)
        } else {
            0
        };
        let m1 = add_cnt(m, id, g);
        let l1 = left - g;
        let rest = order.drop_first();
        assert forall|i: int, j: int| 0 <= i < j < rest.len() implies #[trigger] rest[i].0
            != #[trigger] rest[j].0 by {
            assert(rest[i] == order[i + 1] && rest[j] == order[j + 1]);
        }
        lemma_fill_order(rest, m1, l1, cap);
        let r = fill_to_cap(rest, m1, l1, cap);
        assert(fill_to_cap(order, m, left, cap) == r);
        assert forall|k: u32| cnt(m1, k) >= #[trigger] cnt(m, k) by {}
        assert(l1 > 0 ==> cnt(m1, id) >= cap);
        assert forall|k: u32| k != id implies cnt(m1, k) == #[trigger] cnt(m, k) by {}
        assert forall|i: int, j: int|
            0 <= i < j < order.len() && cnt(r.0, #[trigger] order[j].0) > cnt(m, order[j].0)
                implies cnt(r.0, #[trigger] order[i].0) >= cap by {
            assert(order[j] == rest[j - 1]);
            assert(order[j].0 != id);
            if i == 0 {
                assert(r.0 != m1);
                assert(l1 > 0);
                assert(cnt(r.0, id) >= cnt(m1, id));
            } else {
                assert(order[i] == rest[i - 1]);
            }
        }
        assert forall|i: int| r.1 > 0 && 0 <= i < order.len() implies cnt(r.0, #[trigger] order[i].0) >= cap by {
            if i == 0 {
                assert(cnt(r.0, id) >= cnt(m1, id));
            } else {
                assert(order[i] == rest[i - 1]);
            }
        }
    }
}

/// Every target but the primary one stays.
proof fn lemma_without_members(ts: Seq<DiveTarget>, prim: Option<u32>)
    ensures
        forall|k: int| 0 <= k < ts.len() && prim != Some(ts[k].0) ==> without(ts, prim).contains(#[trigger] ts[k]),
    decreases ts.len(),
{
    broadcast use vstd::seq_lib::lemma_seq_contains_after_push;

    if ts.len() > 0 {
        let t = ts.drop_last();
        lemma_without_members(t, prim);
        assert forall|k: int| 0 <= k < ts.len() && prim != Some(ts[k].0) implies without(ts, prim).contains(
            #[trigger] ts[k],
        ) by {
            if k < t.len() {
                assert(t[k] == ts[k]);
            }
        }
    }
}

/// The order for the counters left after the knock-out: a dreepy before anything else, a
/// drakloak before anything but a dreepy, a rule-box Pokémon with 80 HP or less left
/// before other rule-box Pokémon and the rest, a rule-box Pokémon before the rest.
pub open spec fn leftover_first(a: DiveTarget, b: DiveTarget) -> bool {
    let a_dreepy = a.1 == 1;
    let a_drakloak = a.1 == 0;
    let b_dreepy = b.1 == 1;
    let b_drakloak = b.1 == 0;
    ||| a_dreepy && !b_dreepy
    ||| a_drakloak && !b_dreepy && !b_drakloak
    ||| !a_dreepy && !a_drakloak && a.4 && a.2 <= 80 && !b_dreepy && !b_drakloak && !(b.4 && b.2
        <= 80)
    ||| !a_dreepy && !a_drakloak && a.4 && !b_dreepy && !b_drakloak && !b.4
}

/// With a knock-out pick, the first phase places counters on that target only.
proof fn lemma_phase1_pick(ts: Seq<DiveTarget>, total: int, cap: int)
    requires
        dive_ko_pick(ts, total, cap) is Some,
    ensures
        y_phase1(ts, total, cap).2 == Some(dive_ko_pick(ts, total, cap).unwrap().0),
        forall|k: u32|
            k != dive_ko_pick(ts, total, cap).unwrap().0 ==> #[trigger] cnt(y_phase1(ts, total, cap).0, k)
                == 0,
{
}

/// Two fills in a row (the ordered rest, then all targets): a target of the ordered rest
/// that had no counters and gets some leaves every earlier one of that order at the cap.
proof fn lemma_two_fills(
    s: Seq<DiveTarget>,
    ts: Seq<DiveTarget>,
    m0: Map<u32, int>,
    l0: int,
    cap: int,
    ia: int,
    ib: int,
)
    requires
        ids_unique(s),
        ids_unique(ts),
        0 <= ia < ib < s.len(),
        cnt(m0, s[ib].0) == 0,
        cnt(
            fill_to_cap(ts, fill_to_cap(s, m0, l0, cap).0, fill_to_cap(s, m0, l0, cap).1, cap).0,
            s[ib].0,
        ) > 0,
    ensures
        cnt(
            fill_to_cap(ts, fill_to_cap(s, m0, l0, cap).0, fill_to_cap(s, m0, l0, cap).1, cap).0,
            s[ia].0,
        ) >= cap,
{
    let p2 = fill_to_cap(s, m0, l0, cap);
    let p3 = fill_to_cap(ts, p2.0, p2.1, cap);
    lemma_fill_order(s, m0, l0, cap);
    lemma_fill_order(ts, p2.0, p2.1, cap);
    if cnt(p2.0, s[ib].0) > 0 {
        assert(cnt(p2.0, s[ia].0) >= cap);
    } else {
        assert(p3.0 != p2.0);
        assert(cnt(p2.0, s[ia].0) >= cap);
    }
    assert(cnt(p3.0, s[ia].0) >= cnt(p2.0, s[ia].0));
}

/// With a knock-out pick, the phases after the first (see `dive_final`).
proof fn lemma_final_unfold(ts: Seq<DiveTarget>, total: int, cap: int)
    requires
        dive_ko_pick(ts, total, cap) is Some,
    ensures
        ({
            let p1 = y_phase1(ts, total, cap);
            let s = y_sort(without(ts, p1.2), true);
            let p2 = fill_to_cap(s, p1.0, p1.1, cap);
            dive_final(ts, total, cap) == fill_to_cap(ts, p2.0, p2.1, cap)
        }),
{
    lemma_phase1_pick(ts, total, cap);
}

/// Of two targets to sort, one that comes before the other is placed before it.
proof fn lemma_sorted_pos(order: Seq<DiveTarget>, after: bool, x: DiveTarget, y: DiveTarget)
    requires
        order.contains(x),
        order.contains(y),
        y_lt(x, y, after),
    ensures
        exists|ia: int, ib: int|
            0 <= ia < ib < y_sort(order, after).len() && #[trigger] y_sort(order, after)[ia] == x
                && #[trigger] y_sort(order, after)[ib] == y,
{
    let s = y_sort(order, after);
    lemma_y_sorted(order, after);
    let ka = choose|k: int| 0 <= k < order.len() && order[k] == x;
    let kb = choose|k: int| 0 <= k < order.len() && order[k] == y;
    assert(s.contains(order[ka]));
    assert(s.contains(order[kb]));
    let ia = choose|i: int| 0 <= i < s.len() && s[i] == x;
    let ib = choose|i: int| 0 <= i < s.len() && s[i] == y;
    assert(ia != ib) by {
        if ia == ib {
            assert(y_lt(x, x, after));
        }
    }
    if ib < ia {
        assert(!y_lt(s[ia], s[ib], after));
    }
    assert(s[ia] == x && s[ib] == y);
}

/// One pair of targets after the knock-out (see `lemma_leftover_order`).
#[verifier::spinoff_prover]
proof fn lemma_leftover_pair(ts: Seq<DiveTarget>, total: int, cap: int, a: int, b: int)
    requires
        ids_unique(ts),
        1 <= total,
        1 <= cap <= 255,
        dive_ko_pick(ts, total, cap) is Some,
        0 <= a < ts.len(),
        0 <= b < ts.len(),
        ts[a].0 != dive_ko_pick(ts, total, cap).unwrap().0,
        ts[b].0 != dive_ko_pick(ts, total, cap).unwrap().0,
        leftover_first(ts[a], ts[b]),
        cnt(dive_final(ts, total, cap).0, ts[b].0) > 0,
    ensures
        cnt(dive_final(ts, total, cap).0, ts[a].0) == cap,
{
    let p1 = y_phase1(ts, total, cap);
    lemma_phase1_pick(ts, total, cap);
    lemma_final_unfold(ts, total, cap);
    let order = without(ts, p1.2);
    lemma_without_unique(ts, p1.2);
    lemma_without_members(ts, p1.2);
    let s = y_sort(order, true);
    lemma_y_sort_unique(order, true);
    assert(order.contains(ts[a]));
    assert(order.contains(ts[b]));
    assert(y_lt(ts[a], ts[b], true));
    lemma_sorted_pos(order, true, ts[a], ts[b]);
    let (ia, ib) = choose|ia: int, ib: int|
        0 <= ia < ib < s.len() && #[trigger] s[ia] == ts[a] && #[trigger] s[ib] == ts[b];
    assert(cnt(p1.0, s[ib].0) == 0);
    lemma_two_fills(s, ts, p1.0, p1.1, cap, ia, ib);
    lemma_dive_final(ts, total, cap);
    assert(capped(dive_final(ts, total, cap).0, cap));
    assert(cnt(dive_final(ts, total, cap).0, ts[a].0) <= cap);
}

/// After the knock-out target, Phantom Dive's other counters go by `leftover_first`: a
/// target gets counters only when every target that comes before it is at the cap.
proof fn lemma_leftover_order(ts: Seq<DiveTarget>, total: int, cap: int)
    requires
        ids_unique(ts),
        1 <= total,
        1 <= cap <= 255,
        dive_ko_pick(ts, total, cap) is Some,
    ensures
        forall|a: int, b: int|
            0 <= a < ts.len() && 0 <= b < ts.len() && ts[a].0 != dive_ko_pick(ts, total, cap).unwrap().0
                && ts[b].0 != dive_ko_pick(ts, total, cap).unwrap().0 && #[trigger] leftover_first(ts[a], ts[b])
                && cnt(dive_final(ts, total, cap).0, ts[b].0) > 0 ==> #[trigger] cnt(
                dive_final(ts, total, cap).0,
                ts[a].0,
            ) == cap,
{
    assert forall|a: int, b: int|
        0 <= a < ts.len() && 0 <= b < ts.len() && ts[a].0 != dive_ko_pick(ts, total, cap).unwrap().0
            && ts[b].0 != dive_ko_pick(ts, total, cap).unwrap().0 && #[trigger] leftover_first(ts[a], ts[b])
            && cnt(dive_final(ts, total, cap).0, ts[b].0) > 0 implies #[trigger] cnt(
        dive_final(ts, total, cap).0,
        ts[a].0,
    ) == cap by {
        lemma_leftover_pair(ts, total, cap, a, b);
    }
}

} // verus!

verus! {

/// Phantom Dive spends the counters left after its knock-out by `leftover_first`: a dreepy
/// before anything else, then a drakloak, then a rule-box Pokémon with 80 HP or less left,
/// then other rule-box Pokémon, then the rest. A target other than the knock-out pick gets
/// counters only when every target that comes before it has the cap (eligible ids all
/// different).
pub proof fn law_phantom_dive_leftovers_by_rank(
    reg: Map<Seq<char>, FactView>,
    p: PromptMsg,
    elig: Seq<u32>,
    total: u8,
    per: Option<u8>,
)
    requires
        elig.no_duplicates(),
    ensures
        match p.state {
            Some(s) => {
                let ts = yts(reg, s, elig);
                let cap = super::dragapult_takeuchi::dist_cap(total, per) as int;
                dive_ko_pick(ts, total as int, cap) matches Some(t0) ==> (dive_counts(
                    reg,
                    p,
                    elig,
                    total,
                    per,
                ) matches Some((ids, counts)) ==> forall|a: int, b: int, i: int|
                    0 <= a < ts.len() && 0 <= b < ts.len() && ts[a].0 != t0.0 && ts[b].0 != t0.0
                        && #[trigger] leftover_first(ts[a], ts[b]) && 0 <= i < ids.len() && #[trigger] ids[i]
                        == ts[b].0 ==> exists|k: int|
                        0 <= k < ids.len() && ids[k] == ts[a].0 && counts[k] == cap)
            },
            None => true,
        },
{
    let cap = super::dragapult_takeuchi::dist_cap(total, per) as int;
    if let Some(state) = p.state {
        let ts = yts(reg, state, elig);
        if dive_ko_pick(ts, total as int, cap) is Some && dive_counts(reg, p, elig, total, per) is Some {
            let t0 = dive_ko_pick(ts, total as int, cap).unwrap();
            assert(total >= 1 && cap >= 1);
            lemma_yts_unique(reg, state, elig);
            lemma_leftover_order(ts, total as int, cap);
            let m = dive_final(ts, total as int, cap);
            lemma_y_placed_ids(ts, m.0);
            lemma_y_placed(ts, m.0);
            let ids = y_placed(ts, m.0);
            let counts = ids.map_values(|e: u32| cnt(m.0, e) as u8);
            assert(dive_counts(reg, p, elig, total, per) == Some((ids, counts)));
            assert forall|a: int, b: int, i: int|
                0 <= a < ts.len() && 0 <= b < ts.len() && ts[a].0 != t0.0 && ts[b].0 != t0.0
                    && #[trigger] leftover_first(ts[a], ts[b]) && 0 <= i < ids.len() && #[trigger] ids[i]
                    == ts[b].0 implies exists|k: int|
                0 <= k < ids.len() && ids[k] == ts[a].0 && counts[k] == cap by {
                assert(cnt(m.0, ids[i]) > 0);
                assert(cnt(m.0, ts[a].0) == cap);
                assert(ids.contains(ts[a].0));
                let k = choose|k: int| 0 <= k < ids.len() && ids[k] == ts[a].0;
                assert(counts[k] == cnt(m.0, ids[k]) as u8);
            }
        }
    }
}

} // verus!
