//! Board predicates used by both personas: energy, HP, Pokémon lookups.

use vstd::prelude::*;

use crate::util::{card_is, card_is_exec, first_where, find_first, lemma_first_at, lemma_first_none, opt_int};
use crate::wire::action::{Action, ActionTarget};
use crate::wire::state::{EntityDto, PokemonInPlayDto, PlayerView, StateDto};

use super::{ent_is, mon_id_is, mon_is, my_slug, my_slug_is};

verus! {

/// `mon` carries an energy card with slug `slug`.
pub open spec fn has_energy_spec(mon: PokemonInPlayDto, slug: Seq<char>) -> bool {
    exists|i: int| 0 <= i < mon.energy_attached@.len() && #[trigger] card_is(
        mon.energy_attached@[i].card,
        slug,
    )
}

/// Whether `mon` carries an energy card with slug `slug`.
pub fn has_energy(mon: &PokemonInPlayDto, slug: &str) -> (r: bool)
    ensures
        r == has_energy_spec(*mon, slug@),
{
    let mut i: usize = 0;
    while i < mon.energy_attached.len()
        invariant
            i <= mon.energy_attached@.len(),
            forall|j: int| 0 <= j < i ==> !card_is(#[trigger] mon.energy_attached@[j].card, slug@),
        decreases mon.energy_attached.len() - i,
    {
        if card_is_exec(&mon.energy_attached[i].card, slug) {
            return true;
        }
        i = i + 1;
    }
    false
}

/// `mon` can use Phantom Dive now: a dragapult-ex with a fire and a psychic energy.
pub open spec fn can_phantom_dive_spec(mon: PokemonInPlayDto) -> bool {
    &&& card_is(mon.card, "dragapult-ex"@)
    &&& has_energy_spec(mon, "fire-energy"@)
    &&& has_energy_spec(mon, "psychic-energy"@)
}

/// Whether `mon` can use Phantom Dive now.
pub fn can_phantom_dive(mon: &PokemonInPlayDto) -> (r: bool)
    ensures
        r == can_phantom_dive_spec(*mon),
{
    card_is_exec(&mon.card, "dragapult-ex") && has_energy(mon, "fire-energy") && has_energy(
        mon,
        "psychic-energy",
    )
}

/// `mon` is a `slug` with both a fire and a psychic energy.
pub open spec fn charged_spec(mon: PokemonInPlayDto, slug: Seq<char>) -> bool {
    &&& card_is(mon.card, slug)
    &&& has_energy_spec(mon, "fire-energy"@)
    &&& has_energy_spec(mon, "psychic-energy"@)
}

/// Whether `mon` is a `slug` with both a fire and a psychic energy.
pub fn charged(mon: &PokemonInPlayDto, slug: &str) -> (r: bool)
    ensures
        r == charged_spec(*mon, slug@),
{
    card_is_exec(&mon.card, slug) && has_energy(mon, "fire-energy") && has_energy(
        mon,
        "psychic-energy",
    )
}

/// Remaining HP (`hp_max - damage`, not below 0).
pub open spec fn rem_hp(p: PokemonInPlayDto) -> int {
    if p.damage > p.hp_max {
        0
    } else {
        p.hp_max - p.damage
    }
}

/// Remaining HP of a Pokémon.
pub fn remaining_hp(p: &PokemonInPlayDto) -> (r: u16)
    ensures
        r == rem_hp(*p),
{
    if p.damage > p.hp_max {
        0
    } else {
        p.hp_max - p.damage
    }
}

/// Counters needed to knock `rem` HP out: `ceil(rem / 10)`.
pub open spec fn ko_counters(rem: int) -> int {
    (rem + 9) / 10
}

/// A side's Pokémon in play: the active one first, then the bench.
pub open spec fn in_play(pv: PlayerView) -> Seq<PokemonInPlayDto> {
    match pv.active {
        Some(a) => seq![a] + pv.bench@,
        None => pv.bench@,
    }
}

/// Some Pokémon of the side (active or bench) satisfies `f`.
pub open spec fn any_in_play(pv: PlayerView, f: spec_fn(PokemonInPlayDto) -> bool) -> bool {
    exists|i: int| 0 <= i < in_play(pv).len() && #[trigger] f(in_play(pv)[i])
}

/// `any_in_play` split into the active Pokémon and the bench.
pub proof fn lemma_any_in_play(pv: PlayerView, f: spec_fn(PokemonInPlayDto) -> bool)
    ensures
        any_in_play(pv, f) == ((pv.active matches Some(a) && f(a)) || exists|i: int|
            0 <= i < pv.bench@.len() && #[trigger] f(pv.bench@[i])),
{
    let s = in_play(pv);
    match pv.active {
        Some(a) => {
            assert(s[0] == a);
            assert forall|i: int| 0 <= i < pv.bench@.len() implies s[i + 1] == pv.bench@[i] by {}
            if any_in_play(pv, f) {
                let i = choose|i: int| 0 <= i < s.len() && #[trigger] f(s[i]);
                if i > 0 {
                    assert(f(pv.bench@[i - 1]));
                }
            }
            if exists|i: int| 0 <= i < pv.bench@.len() && #[trigger] f(pv.bench@[i]) {
                let i = choose|i: int| 0 <= i < pv.bench@.len() && #[trigger] f(pv.bench@[i]);
                assert(f(s[i + 1]));
            }
            if f(a) {
                assert(f(s[0]));
            }
        },
        None => {},
    }
}

/// The Pokémon of the opponent with id `e`: the active one, else the first bench match.
pub open spec fn opp_mon(state: StateDto, e: u32) -> Option<PokemonInPlayDto> {
    if state.opp.active is Some && state.opp.active->0.entity_id == e {
        state.opp.active
    } else {
        find_first(state.opp.bench@, mon_id_is(e))
    }
}

/// The opponent's Pokémon with id `e`.
pub fn opp_in_play(state: &StateDto, e: u32) -> (r: Option<&PokemonInPlayDto>)
    ensures
        match r {
            Some(m) => opp_mon(*state, e) == Some(*m),
            None => opp_mon(*state, e) is None,
        },
{
    if let Some(a) = &state.opp.active {
        if a.entity_id == e {
            return Some(a);
        }
    }
    let mut i: usize = 0;
    while i < state.opp.bench.len()
        invariant
            i <= state.opp.bench@.len(),
            forall|j: int| 0 <= j < i ==> !mon_id_is(e)(#[trigger] state.opp.bench@[j]),
        decreases state.opp.bench.len() - i,
    {
        if state.opp.bench[i].entity_id == e {
            proof {
                lemma_first_at(state.opp.bench@, mon_id_is(e), i as int);
            }
            return Some(&state.opp.bench[i]);
        }
        i = i + 1;
    }
    proof {
        lemma_first_none(state.opp.bench@, mon_id_is(e));
    }
    None
}

/// My Pokémon in play with id `e`: the active one, else the first bench match.
pub open spec fn my_mon(state: StateDto, e: u32) -> Option<PokemonInPlayDto> {
    match state.me.active {
        Some(a) => if a.entity_id == e {
            Some(a)
        } else {
            find_first(state.me.bench@, mon_id_is(e))
        },
        None => find_first(state.me.bench@, mon_id_is(e)),
    }
}

/// My Pokémon in play with id `e`.
pub fn my_in_play(state: &StateDto, e: u32) -> (r: Option<&PokemonInPlayDto>)
    ensures
        match r {
            Some(m) => my_mon(*state, e) == Some(*m),
            None => my_mon(*state, e) is None,
        },
{
    if let Some(a) = &state.me.active {
        if a.entity_id == e {
            return Some(a);
        }
    }
    let mut i: usize = 0;
    while i < state.me.bench.len()
        invariant
            i <= state.me.bench@.len(),
            forall|j: int| 0 <= j < i ==> !mon_id_is(e)(#[trigger] state.me.bench@[j]),
        decreases state.me.bench.len() - i,
    {
        if state.me.bench[i].entity_id == e {
            proof {
                lemma_first_at(state.me.bench@, mon_id_is(e), i as int);
            }
            return Some(&state.me.bench[i]);
        }
        i = i + 1;
    }
    proof {
        lemma_first_none(state.me.bench@, mon_id_is(e));
    }
    None
}

/// `a` plays an energy card with slug `slug` onto `target`.
pub open spec fn attaches(state: StateDto, slug: Seq<char>, target: ActionTarget) -> spec_fn(
    Action,
) -> bool {
    |a: Action|
        match a {
            Action::PlayCard { entity_id, target: Some(t) } => t == target && my_slug(
                state,
                entity_id.0,
            ) == Some(slug),
            _ => false,
        }
}

/// Whether `a` plays an energy card with slug `slug` onto `target`.
pub fn is_energy_attach_to(state: &StateDto, a: &Action, slug: &str, target: ActionTarget) -> (r: bool)
    ensures
        r == attaches(*state, slug@, target)(*a),
{
    match a {
        Action::PlayCard { entity_id, target: Some(t) } => *t == target && my_slug_is(
            state,
            entity_id.0,
            slug,
        ),
        _ => false,
    }
}

/// Index of the first legal action that attaches a `slug` energy to `target`.
pub fn find_attach(state: &StateDto, legal: &[Action], slug: &str, target: ActionTarget) -> (r: Option<
    usize,
>)
    ensures
        opt_int(r) == first_where(legal@, attaches(*state, slug@, target)),
        r matches Some(k) ==> k < legal@.len(),
{
    let mut i: usize = 0;
    while i < legal.len()
        invariant
            i <= legal@.len(),
            forall|j: int| 0 <= j < i ==> !attaches(*state, slug@, target)(#[trigger] legal@[j]),
        decreases legal.len() - i,
    {
        if is_energy_attach_to(state, &legal[i], slug, target) {
            proof {
                lemma_first_at(legal@, attaches(*state, slug@, target), i as int);
            }
            return Some(i);
        }
        i = i + 1;
    }
    proof {
        lemma_first_none(legal@, attaches(*state, slug@, target));
    }
    None
}

/// Bench index `i` as an action target (indices beyond 255 saturate).
pub open spec fn bench_target(i: int) -> ActionTarget {
    ActionTarget::OwnBench { index: if i > 255 { 255u8 } else { i as u8 } }
}

/// My Pokémon of slug `slug` as energy targets: bench ones first (in bench order), then the
/// active one.
pub open spec fn slug_targets(state: StateDto, slug: Seq<char>) -> Seq<(ActionTarget, PokemonInPlayDto)> {
    let bench = Seq::new(state.me.bench@.len(), |i: int| (bench_target(i), state.me.bench@[i])).filter(
        |t: (ActionTarget, PokemonInPlayDto)| card_is(t.1.card, slug),
    );
    match state.me.active {
        Some(a) => if card_is(a.card, slug) {
            bench.push((ActionTarget::OwnActive, a))
        } else {
            bench
        },
        None => bench,
    }
}

/// Energy targets by slug priority; within a slug the bench comes first.
pub open spec fn targets_by_priority(state: StateDto, pri: Seq<Seq<char>>) -> Seq<
    (ActionTarget, PokemonInPlayDto),
>
    decreases pri.len(),
{
    if pri.len() == 0 {
        Seq::empty()
    } else {
        targets_by_priority(state, pri.drop_last()) + slug_targets(state, pri.last())
    }
}

} // verus!

verus! {

/// Energy types `mon` still lacks for Phantom Dive, in the order to try them: `both` when it
/// has neither, the missing one when it has one, nothing when it has both.
pub open spec fn wanted_types(mon: PokemonInPlayDto, both: Seq<Seq<char>>) -> Seq<Seq<char>> {
    let f = has_energy_spec(mon, "fire-energy"@);
    let p = has_energy_spec(mon, "psychic-energy"@);
    if !f && !p {
        both
    } else if f && !p {
        seq!["psychic-energy"@]
    } else if !f && p {
        seq!["fire-energy"@]
    } else {
        Seq::empty()
    }
}

/// The first legal attachment of one of `types` (in order) onto `t`.
pub open spec fn first_attach_of(state: StateDto, legal: Seq<Action>, types: Seq<Seq<char>>, t: ActionTarget) -> Option<
    int,
>
    decreases types.len(),
{
    if types.len() == 0 {
        None
    } else {
        match first_where(legal, attaches(state, types[0], t)) {
            Some(i) => Some(i),
            None => first_attach_of(state, legal, types.drop_first(), t),
        }
    }
}

/// The attachment for my active Pokémon, when it has slug `slug`.
pub open spec fn attach_at_active(state: StateDto, legal: Seq<Action>, slug: Seq<char>, both: Seq<Seq<char>>) -> Option<
    int,
> {
    match state.me.active {
        Some(a) => if card_is(a.card, slug) {
            first_attach_of(state, legal, wanted_types(a, both), ActionTarget::OwnActive)
        } else {
            None
        },
        None => None,
    }
}

/// The attachment for the bench Pokémon of slug `slug` from bench index `i` on, then for the
/// active Pokémon.
pub open spec fn attach_in_bench(
    state: StateDto,
    legal: Seq<Action>,
    slug: Seq<char>,
    both: Seq<Seq<char>>,
    i: int,
) -> Option<int>
    decreases state.me.bench@.len() - i,
{
    if i < 0 || i >= state.me.bench@.len() {
        attach_at_active(state, legal, slug, both)
    } else if card_is(state.me.bench@[i].card, slug) {
        match first_attach_of(state, legal, wanted_types(state.me.bench@[i], both), bench_target(i)) {
            Some(x) => Some(x),
            None => attach_in_bench(state, legal, slug, both, i + 1),
        }
    } else {
        attach_in_bench(state, legal, slug, both, i + 1)
    }
}

/// Energy attachment toward Phantom Dive: in slug priority order (bench before active
/// within a slug), the first Pokémon that lacks fire or psychic and that a legal action can
/// give a missing type, trying the types in order. Never a second fire or psychic.
pub open spec fn attach_by_priority(
    state: StateDto,
    legal: Seq<Action>,
    pri: Seq<Seq<char>>,
    both: Seq<Seq<char>>,
) -> Option<int>
    decreases pri.len(),
{
    if pri.len() == 0 {
        None
    } else {
        match attach_in_bench(state, legal, pri[0], both, 0) {
            Some(x) => Some(x),
            None => attach_by_priority(state, legal, pri.drop_first(), both),
        }
    }
}

/// The first legal attachment of one of `types` onto `t`.
pub fn find_attach_of(state: &StateDto, legal: &[Action], types: &[&str], t: ActionTarget) -> (r: Option<
    usize,
>)
    ensures
        opt_int(r) == first_attach_of(*state, legal@, crate::cards::strs_view(types@), t),
        r matches Some(k) ==> k < legal@.len(),
{
    let ghost tv = crate::cards::strs_view(types@);
    proof {
        assert(tv.skip(0) =~= tv);
    }
    let mut k: usize = 0;
    while k < types.len()
        invariant
            k <= types@.len(),
            tv == crate::cards::strs_view(types@),
            first_attach_of(*state, legal@, tv, t) == first_attach_of(
                *state,
                legal@,
                tv.skip(k as int),
                t,
            ),
        decreases types.len() - k,
    {
        proof {
            assert(tv.skip(k as int).drop_first() =~= tv.skip(k + 1));
            assert(tv.skip(k as int)[0] == types@[k as int]@);
        }
        if let Some(i) = find_attach(state, legal, types[k], t) {
            return Some(i);
        }
        k = k + 1;
    }
    None
}

/// The energy types `mon` lacks, in the order to try them (`both` first when it lacks both).
pub fn wanted_for(mon: &PokemonInPlayDto, both: &'static [&'static str]) -> (r: &'static [&'static str])
    ensures
        crate::cards::strs_view(r@) == wanted_types(*mon, crate::cards::strs_view(both@)),
{
    let f = has_energy(mon, "fire-energy");
    let p = has_energy(mon, "psychic-energy");
    if !f && !p {
        both
    } else if f && !p {
        let r: &'static [&'static str] = &["psychic-energy"];
        assert(crate::cards::strs_view(r@) =~= seq!["psychic-energy"@]);
        r
    } else if !f && p {
        let r: &'static [&'static str] = &["fire-energy"];
        assert(crate::cards::strs_view(r@) =~= seq!["fire-energy"@]);
        r
    } else {
        let r: &'static [&'static str] = &[];
        assert(crate::cards::strs_view(r@) =~= Seq::<Seq<char>>::empty());
        r
    }
}

/// Energy attachment toward Phantom Dive (see `attach_by_priority`).
pub fn find_energy_attach_by(
    state: &StateDto,
    legal: &[Action],
    priority: &[&str],
    both: &'static [&'static str],
) -> (r: Option<usize>)
    ensures
        opt_int(r) == attach_by_priority(
            *state,
            legal@,
            crate::cards::strs_view(priority@),
            crate::cards::strs_view(both@),
        ),
        r matches Some(k) ==> k < legal@.len(),
{
    let ghost pv = crate::cards::strs_view(priority@);
    let ghost bv = crate::cards::strs_view(both@);
    proof {
        assert(pv.skip(0) =~= pv);
    }
    let mut k: usize = 0;
    while k < priority.len()
        invariant
            k <= priority@.len(),
            pv == crate::cards::strs_view(priority@),
            attach_by_priority(*state, legal@, pv, bv) == attach_by_priority(
                *state,
                legal@,
                pv.skip(k as int),
                bv,
            ),
        decreases priority.len() - k,
    {
        proof {
            assert(pv.skip(k as int).drop_first() =~= pv.skip(k + 1));
            assert(pv.skip(k as int)[0] == priority@[k as int]@);
        }
        let slug = priority[k];
        let mut i: usize = 0;
        while i < state.me.bench.len()
            invariant
                i <= state.me.bench@.len(),
                attach_in_bench(*state, legal@, slug@, bv, 0) == attach_in_bench(
                    *state,
                    legal@,
                    slug@,
                    bv,
                    i as int,
                ),
            decreases state.me.bench.len() - i,
        {
            let b = &state.me.bench[i];
            if card_is_exec(&b.card, slug) {
                let idx: u8 = if i > 255 {
                    255
                } else {
                    i as u8
                };
                let t = ActionTarget::OwnBench { index: idx };
                assert(t == bench_target(i as int));
                let types = wanted_for(b, both);
                if let Some(x) = find_attach_of(state, legal, types, t) {
                    return Some(x);
                }
            }
            i = i + 1;
        }
        if let Some(a) = &state.me.active {
            if card_is_exec(&a.card, slug) {
                let types = wanted_for(a, both);
                if let Some(x) = find_attach_of(state, legal, types, ActionTarget::OwnActive) {
                    return Some(x);
                }
            }
        }
        k = k + 1;
    }
    None
}

} // verus!

verus! {

/// A legal retreat to bench index `i`.
pub open spec fn retreats_to(i: u8) -> spec_fn(Action) -> bool {
    |a: Action|
        match a {
            Action::Retreat { to_bench_index, .. } => to_bench_index == i,
            _ => false,
        }
}

/// The first legal retreat to bench index `idx` (none when `idx` does not fit a byte).
pub open spec fn retreat_to_spec(legal: Seq<Action>, idx: int) -> Option<int> {
    if 0 <= idx <= 255 {
        first_where(legal, retreats_to(idx as u8))
    } else {
        None
    }
}

/// Index of the first legal retreat to bench index `idx`.
pub fn retreat_to(legal: &[Action], idx: usize) -> (r: Option<usize>)
    ensures
        opt_int(r) == retreat_to_spec(legal@, idx as int),
        r matches Some(k) ==> k < legal@.len(),
{
    if idx > 255 {
        return None;
    }
    let i = idx as u8;
    let mut j: usize = 0;
    while j < legal.len()
        invariant
            j <= legal@.len(),
            forall|t: int| 0 <= t < j ==> !retreats_to(i)(#[trigger] legal@[t]),
        decreases legal.len() - j,
    {
        let hit = match &legal[j] {
            Action::Retreat { to_bench_index, .. } => *to_bench_index == i,
            _ => false,
        };
        if hit {
            proof {
                lemma_first_at(legal@, retreats_to(i), j as int);
            }
            return Some(j);
        }
        j = j + 1;
    }
    proof {
        lemma_first_none(legal@, retreats_to(i));
    }
    None
}

/// Some legal action is a retreat.
pub open spec fn any_retreat(legal: Seq<Action>) -> bool {
    exists|i: int| 0 <= i < legal.len() && #[trigger] legal[i] is Retreat
}

/// Whether some legal action is a retreat.
pub fn has_retreat(legal: &[Action]) -> (r: bool)
    ensures
        r == any_retreat(legal@),
{
    let mut j: usize = 0;
    while j < legal.len()
        invariant
            j <= legal@.len(),
            forall|t: int| 0 <= t < j ==> !(#[trigger] legal@[t] is Retreat),
        decreases legal.len() - j,
    {
        if let Action::Retreat { .. } = &legal[j] {
            return true;
        }
        j = j + 1;
    }
    false
}

/// Whether the opponent has a `slug` in play.
pub fn opp_has_in_play(state: &StateDto, slug: &str) -> (r: bool)
    ensures
        r == any_in_play(state.opp, mon_is(slug@)),
{
    proof {
        lemma_any_in_play(state.opp, mon_is(slug@));
    }
    if let Some(a) = &state.opp.active {
        if card_is_exec(&a.card, slug) {
            return true;
        }
    }
    let mut i: usize = 0;
    while i < state.opp.bench.len()
        invariant
            i <= state.opp.bench@.len(),
            forall|j: int| 0 <= j < i ==> !mon_is(slug@)(#[trigger] state.opp.bench@[j]),
        decreases state.opp.bench.len() - i,
    {
        if card_is_exec(&state.opp.bench[i].card, slug) {
            assert(mon_is(slug@)(state.opp.bench@[i as int]));
            return true;
        }
        i = i + 1;
    }
    false
}

/// Whether I have a `slug` in play.
pub fn me_has_in_play(state: &StateDto, slug: &str) -> (r: bool)
    ensures
        r == any_in_play(state.me, mon_is(slug@)),
{
    proof {
        lemma_any_in_play(state.me, mon_is(slug@));
    }
    if let Some(a) = &state.me.active {
        if card_is_exec(&a.card, slug) {
            return true;
        }
    }
    let mut i: usize = 0;
    while i < state.me.bench.len()
        invariant
            i <= state.me.bench@.len(),
            forall|j: int| 0 <= j < i ==> !mon_is(slug@)(#[trigger] state.me.bench@[j]),
        decreases state.me.bench.len() - i,
    {
        if card_is_exec(&state.me.bench[i].card, slug) {
            assert(mon_is(slug@)(state.me.bench@[i as int]));
            return true;
        }
        i = i + 1;
    }
    false
}

/// Some option has entity id `e`.
pub open spec fn in_options(options: Seq<EntityDto>, e: u32) -> bool {
    exists|j: int| 0 <= j < options.len() && #[trigger] options[j].entity_id == e
}

/// Whether some option has entity id `e`.
pub fn option_has(options: &[EntityDto], e: u32) -> (r: bool)
    ensures
        r == in_options(options@, e),
{
    let mut j: usize = 0;
    while j < options.len()
        invariant
            j <= options@.len(),
            forall|t: int| 0 <= t < j ==> #[trigger] options@[t].entity_id != e,
        decreases options.len() - j,
    {
        if options[j].entity_id == e {
            return true;
        }
        j = j + 1;
    }
    false
}

/// A Pokémon of slug `slug` that is among the options.
pub open spec fn own_in_options(options: Seq<EntityDto>, slug: Seq<char>) -> spec_fn(
    PokemonInPlayDto,
) -> bool {
    |p: PokemonInPlayDto| card_is(p.card, slug) && in_options(options, p.entity_id)
}

/// Scans `pri` in order: my active Pokémon of that slug when it is an option, else the first
/// such bench Pokémon that is an option.
pub open spec fn own_by_priority(state: StateDto, options: Seq<EntityDto>, pri: Seq<Seq<char>>) -> Option<
    u32,
>
    decreases pri.len(),
{
    if pri.len() == 0 {
        None
    } else if state.me.active matches Some(a) && own_in_options(options, pri[0])(a) {
        Some(state.me.active->0.entity_id)
    } else {
        match find_first(state.me.bench@, own_in_options(options, pri[0])) {
            Some(b) => Some(b.entity_id),
            None => own_by_priority(state, options, pri.drop_first()),
        }
    }
}

/// My Pokémon among the options by slug priority, the active one first within a slug.
pub fn pick_own_by_priority(state: &StateDto, options: &[EntityDto], priority: &[&str]) -> (r: Option<u32>)
    ensures
        r == own_by_priority(*state, options@, crate::cards::strs_view(priority@)),
{
    let ghost pv = crate::cards::strs_view(priority@);
    proof {
        assert(pv.skip(0) =~= pv);
    }
    let mut k: usize = 0;
    while k < priority.len()
        invariant
            k <= priority@.len(),
            pv == crate::cards::strs_view(priority@),
            own_by_priority(*state, options@, pv) == own_by_priority(*state, options@, pv.skip(k as int)),
        decreases priority.len() - k,
    {
        proof {
            assert(pv.skip(k as int).drop_first() =~= pv.skip(k + 1));
            assert(pv.skip(k as int)[0] == priority@[k as int]@);
        }
        let slug = priority[k];
        if let Some(a) = &state.me.active {
            if card_is_exec(&a.card, slug) && option_has(options, a.entity_id) {
                return Some(a.entity_id);
            }
        }
        let mut i: usize = 0;
        while i < state.me.bench.len()
            invariant
                i <= state.me.bench@.len(),
                forall|j: int| 0 <= j < i ==> !own_in_options(options@, slug@)(#[trigger] state.me.bench@[j]),
            decreases state.me.bench.len() - i,
        {
            let b = &state.me.bench[i];
            if card_is_exec(&b.card, slug) && option_has(options, b.entity_id) {
                proof {
                    lemma_first_at(state.me.bench@, own_in_options(options@, slug@), i as int);
                }
                return Some(b.entity_id);
            }
            i = i + 1;
        }
        proof {
            lemma_first_none(state.me.bench@, own_in_options(options@, slug@));
        }
        k = k + 1;
    }
    None
}

} // verus!

verus! {

/// The opponent's Pokémon with id `e` exists exactly when `e` is the id of the opposing
/// active Pokémon or of a Pokémon on the opposing bench.
pub proof fn lemma_opp_mon_some(state: StateDto, e: u32)
    ensures
        opp_mon(state, e) is Some <==> ((state.opp.active matches Some(a) && a.entity_id == e)
            || exists|j: int|
            0 <= j < state.opp.bench@.len() && #[trigger] state.opp.bench@[j].entity_id == e),
        opp_mon(state, e) matches Some(m) ==> m.entity_id == e,
{
    let b = state.opp.bench@;
    crate::util::lemma_first_where(b, super::mon_id_is(e));
    if exists|j: int| 0 <= j < b.len() && #[trigger] b[j].entity_id == e {
        let j = choose|j: int| 0 <= j < b.len() && #[trigger] b[j].entity_id == e;
        assert(super::mon_id_is(e)(b[j]));
    }
}

} // verus!
