//! `DragapultTakeuchiBot`: the fixed strategy for the dragapult-ex deck (Takeuchi persona).
//!
//! Steps of the strategy that the persona leaves open are delegated to [`RandomPolicy`].
//! Card facts (rule-box test, attack indices) come from [`CardFacts`]; the board only
//! carries slugs, stages, HP, damage, attached energy slugs, statuses and ability flags.

use vstd::prelude::*;

use crate::cards::{attack_index_spec, strs_view, CardFacts, FactView};
use crate::util::{
    card_is, card_is_exec, card_view, contains_u32, find_first, first_where, lemma_first_at, lemma_first_none,
    opt_int,
};
use crate::wire::action::{Action, ActionTarget};
use crate::rng::draw_below;
use crate::wire::protocol::{PromptDto, PromptMsg, RequestMsg};

use rand_chacha::ChaCha20Rng;
use crate::wire::state::{EntityDto, PokemonInPlayDto, StateDto};

use super::board::{
    any_retreat, attach_by_priority, find_attach_of, find_energy_attach_by, first_attach_of,
    has_retreat, retreat_to, retreat_to_spec, opp_in_play, opp_mon, charged, charged_spec,
    me_has_in_play, my_in_play, my_mon, opp_has_in_play, in_options, option_has, own_by_priority,
    pick_own_by_priority,
    any_in_play, can_phantom_dive, can_phantom_dive_spec, has_energy, has_energy_spec,
    in_play, ko_counters, lemma_any_in_play, rem_hp, remaining_hp,
};
use super::{
    board_fits, count_in_hand, count_in_hand_spec, count_in_play, count_in_play_spec, find_play,
    my_turn_number, plays, turn_number, find_ability, find_basic_placement, first_play_by_priority, mon_is,
    uses_ability_of, PromptChoice, RandomPolicy, shuffle_strs, lemma_reorders_view, mon_id_is,
    bench_index_of_pub, ent_is, pick_by_priority_spec, pick_by_slug_priority, choice_one, choice_of,
    selects, pick_random_subset, picks_distinct, subset_hi, subset_lo, hand_discard_spec,
    is_hand_discard, pick_from_zone, pick_from_zone_spec, evolution_spec, find_evolution,
    find_recon_directive, play_card_slug, play_slug, recon_directive_spec, board_fits_exec, BotPolicy,
};
use super::random::{random_action, random_action_ok};
use crate::transport::TransportError;
use super::random::{entity_ids, fallback_ok, fallback_prompt, ids_of, random_member};

verus! {

// ============================================================================
// Board predicates
// ============================================================================

/// A slug names a rule-box Pokémon: in this deck every one of them ends in `-ex`.
pub open spec fn ex_suffix(s: Seq<char>) -> bool {
    &&& s.len() >= 3
    &&& s[s.len() - 3] == '-'
    &&& s[s.len() - 2] == 'e'
    &&& s[s.len() - 1] == 'x'
}

/// Whether `slug` names a rule-box Pokémon (suffix `-ex`).
pub fn is_ex(slug: &str) -> (r: bool)
    ensures
        r == ex_suffix(slug@),
{
    let cs = crate::util::chars_of(slug);
    let n = cs.len();
    n >= 3 && cs[n - 3] == '-' && cs[n - 2] == 'e' && cs[n - 1] == 'x'
}

/// Prizes a knock-out of a Pokémon with slug `s` gives: 2 for a rule-box Pokémon, else 1.
pub open spec fn prize_of_slug(s: Seq<char>) -> int {
    if ex_suffix(s) {
        2
    } else {
        1
    }
}

/// Prizes a knock-out of a Pokémon with slug `slug` gives.
pub fn prize_value_of(slug: &str) -> (r: u32)
    ensures
        r == prize_of_slug(slug@),
{
    if is_ex(slug) {
        2
    } else {
        1
    }
}

/// The slug of a card, or the empty name when it is hidden.
pub open spec fn slug_or_empty(card: Option<String>) -> Seq<char> {
    match card {
        Some(c) => c@,
        None => Seq::empty(),
    }
}

/// Prizes a knock-out of `p` gives.
pub open spec fn mon_prize(p: PokemonInPlayDto) -> int {
    prize_of_slug(slug_or_empty(p.card))
}

/// Prizes a knock-out of `p` gives.
fn mon_prize_exec(p: &PokemonInPlayDto) -> (r: u32)
    ensures
        r == mon_prize(*p),
{
    match &p.card {
        Some(c) => prize_value_of(c.as_str()),
        None => {
            let e = String::new();
            prize_value_of(e.as_str())
        },
    }
}

/// `P_phantomReadyActive`: my active Pokémon can use Phantom Dive.
pub open spec fn phantom_ready_active(state: StateDto) -> bool {
    state.me.active matches Some(a) && can_phantom_dive_spec(a)
}

/// `P_phantomReadyBench`: some bench Pokémon of mine can use Phantom Dive.
pub open spec fn phantom_ready_bench(state: StateDto) -> bool {
    exists|i: int|
        0 <= i < state.me.bench@.len() && #[trigger] can_phantom_dive_spec(state.me.bench@[i])
}

/// `P_phantomReadyActive`: my active Pokémon can use Phantom Dive.
pub fn p_phantom_ready_active(state: &StateDto) -> (r: bool)
    ensures
        r == phantom_ready_active(*state),
{
    match &state.me.active {
        Some(a) => can_phantom_dive(a),
        None => false,
    }
}

/// `P_phantomReadyBench`: some bench Pokémon of mine can use Phantom Dive.
pub fn p_phantom_ready_bench(state: &StateDto) -> (r: bool)
    ensures
        r == phantom_ready_bench(*state),
{
    let mut i: usize = 0;
    while i < state.me.bench.len()
        invariant
            i <= state.me.bench@.len(),
            forall|j: int| 0 <= j < i ==> !can_phantom_dive_spec(#[trigger] state.me.bench@[j]),
        decreases state.me.bench.len() - i,
    {
        if can_phantom_dive(&state.me.bench[i]) {
            return true;
        }
        i = i + 1;
    }
    false
}

/// `P_phantomUnlikely`: Phantom Dive is not among the attacks right now (my active Pokémon
/// cannot use it; the hand is not looked ahead).
pub fn p_phantom_unlikely(state: &StateDto) -> (r: bool)
    ensures
        r == !phantom_ready_active(*state),
{
    !p_phantom_ready_active(state)
}

/// A dreepy that has been in play since before this turn (so it can evolve).
pub open spec fn evolvable_dreepy() -> spec_fn(PokemonInPlayDto) -> bool {
    |p: PokemonInPlayDto| card_is(p.card, "dreepy"@) && p.turn_in_play >= 1
}

/// Whether I have a dreepy in play that can evolve this turn.
pub fn has_evolvable_dreepy(state: &StateDto) -> (r: bool)
    ensures
        r == any_in_play(state.me, evolvable_dreepy()),
{
    proof {
        lemma_any_in_play(state.me, evolvable_dreepy());
    }
    if let Some(a) = &state.me.active {
        if card_is_exec(&a.card, "dreepy") && a.turn_in_play >= 1 {
            return true;
        }
    }
    let mut i: usize = 0;
    while i < state.me.bench.len()
        invariant
            i <= state.me.bench@.len(),
            forall|j: int| 0 <= j < i ==> !evolvable_dreepy()(#[trigger] state.me.bench@[j]),
        decreases state.me.bench.len() - i,
    {
        let b = &state.me.bench[i];
        if card_is_exec(&b.card, "dreepy") && b.turn_in_play >= 1 {
            assert(evolvable_dreepy()(state.me.bench@[i as int]));
            return true;
        }
        i = i + 1;
    }
    false
}

/// A Pokémon of slug `slug` with at least one energy attached.
pub open spec fn energized(slug: Seq<char>) -> spec_fn(PokemonInPlayDto) -> bool {
    |p: PokemonInPlayDto| card_is(p.card, slug) && p.energy_attached@.len() > 0
}

/// Whether I have a `slug` in play with at least one energy attached.
pub fn energized_in_play(state: &StateDto, slug: &str) -> (r: bool)
    ensures
        r == any_in_play(state.me, energized(slug@)),
{
    proof {
        lemma_any_in_play(state.me, energized(slug@));
    }
    if let Some(a) = &state.me.active {
        if card_is_exec(&a.card, slug) && a.energy_attached.len() > 0 {
            return true;
        }
    }
    let mut i: usize = 0;
    while i < state.me.bench.len()
        invariant
            i <= state.me.bench@.len(),
            forall|j: int| 0 <= j < i ==> !energized(slug@)(#[trigger] state.me.bench@[j]),
        decreases state.me.bench.len() - i,
    {
        let b = &state.me.bench[i];
        if card_is_exec(&b.card, slug) && b.energy_attached.len() > 0 {
            assert(energized(slug@)(state.me.bench@[i as int]));
            return true;
        }
        i = i + 1;
    }
    false
}

/// The active Pokémon is an attacker of this deck (a dragapult-ex or a budew).
pub open spec fn attacker_spec(mon: PokemonInPlayDto) -> bool {
    card_is(mon.card, "dragapult-ex"@) || card_is(mon.card, "budew"@)
}

/// Whether `mon` is an attacker of this deck.
pub fn active_is_attacker(mon: &PokemonInPlayDto) -> (r: bool)
    ensures
        r == attacker_spec(*mon),
{
    card_is_exec(&mon.card, "dragapult-ex") || card_is_exec(&mon.card, "budew")
}

} // verus!

verus! {

// ============================================================================
// What one Phantom Dive can take
// ============================================================================

/// The larger of two integers.
pub open spec fn imax(a: int, b: int) -> int {
    if a >= b {
        a
    } else {
        b
    }
}

/// Knock-out data of a Pokémon: counters needed, prizes given, remaining HP.
pub open spec fn ko_item(p: PokemonInPlayDto) -> (u32, u32, u16) {
    (ko_counters(rem_hp(p)) as u32, mon_prize(p) as u32, rem_hp(p) as u16)
}

/// Knock-out data of a list of Pokémon.
pub open spec fn ko_items(s: Seq<PokemonInPlayDto>) -> Seq<(u32, u32, u16)> {
    s.map_values(|p: PokemonInPlayDto| ko_item(p))
}

/// The most prizes, and separately the most knock-outs, that `cap` damage counters can take
/// from `items` (each knocked out Pokémon costs its counters; 0/1 choice per Pokémon).
pub open spec fn knap(items: Seq<(u32, u32, u16)>, cap: int) -> (int, int)
    decreases items.len(),
{
    if items.len() == 0 {
        (0, 0)
    } else {
        let rest = items.drop_last();
        let it = items.last();
        let skip = knap(rest, cap);
        if it.0 <= cap {
            let take = knap(rest, cap - it.0);
            (imax(skip.0, take.0 + it.1), imax(skip.1, take.1 + 1))
        } else {
            skip
        }
    }
}

/// What a Phantom Dive takes when `opp[xi]` is brought to the front: 200 damage there, and
/// 6 counters spread over the others.
pub open spec fn dive_outcome(opp: Seq<PokemonInPlayDto>, xi: int) -> (int, int) {
    let x = opp[xi];
    let main: (int, int) = if rem_hp(x) <= 200 {
        (mon_prize(x), 1)
    } else {
        (0, 0)
    };
    let b = knap(ko_items(opp).remove(xi), 6);
    (main.0 + b.0, main.1 + b.1)
}

/// The best outcomes over the first `n` choices of the Pokémon brought to the front.
pub open spec fn dive_best(opp: Seq<PokemonInPlayDto>, n: int) -> (int, int)
    decreases n,
{
    if n <= 0 {
        (0, 0)
    } else {
        let a = dive_best(opp, n - 1);
        let o = dive_outcome(opp, n - 1);
        (imax(a.0, o.0), imax(a.1, o.1))
    }
}

/// The most prizes and the most knock-outs one Phantom Dive can take, when any opposing
/// Pokémon can be brought to the front first (boss's orders).
pub open spec fn phantom_outcomes(state: StateDto) -> (int, int) {
    dive_best(in_play(state.opp), in_play(state.opp).len() as int)
}

fn max_u64(a: u64, b: u64) -> (r: u64)
    ensures
        r == imax(a as int, b as int),
{
    if a >= b {
        a
    } else {
        b
    }
}

/// Knock-out data of `p`.
fn ko_item_exec(p: &PokemonInPlayDto) -> (r: (u32, u32, u16))
    ensures
        r == ko_item(*p),
{
    let rem = remaining_hp(p);
    let cost: u32 = (rem as u32 + 9) / 10;
    (cost, mon_prize_exec(p), rem)
}

/// `knap` over the first `n` items, with both values bounded by the item count.
fn knap_exec(items: &Vec<(u32, u32, u16)>, n: usize, cap: u32) -> (r: (u64, u64))
    requires
        n <= items@.len(),
        items@.len() <= usize::MAX / 8,
        forall|i: int| 0 <= i < items@.len() ==> (#[trigger] items@[i]).1 <= 2,
    ensures
        r.0 == knap(items@.take(n as int), cap as int).0,
        r.1 == knap(items@.take(n as int), cap as int).1,
        r.0 <= 2 * n,
        r.1 <= n,
    decreases n,
{
    if n == 0 {
        return (0, 0);
    }
    proof {
        assert(items@.take(n as int).drop_last() =~= items@.take(n - 1));
        assert(items@.take(n as int).last() == items@[n - 1]);
    }
    let skip = knap_exec(items, n - 1, cap);
    let it = items[n - 1];
    if it.0 <= cap {
        let take = knap_exec(items, n - 1, cap - it.0);
        (max_u64(skip.0, take.0 + it.1 as u64), max_u64(skip.1, take.1 + 1))
    } else {
        skip
    }
}

/// The active Pokémon as a sequence of zero or one Pokémon.
pub open spec fn front_seq(a: Option<PokemonInPlayDto>) -> Seq<PokemonInPlayDto> {
    match a {
        Some(x) => seq![x],
        None => Seq::empty(),
    }
}

/// Knock-out data of the opposing Pokémon in play (active first, then the bench).
fn opp_items(state: &StateDto) -> (r: Vec<(u32, u32, u16)>)
    requires
        board_fits(*state),
    ensures
        r@ == ko_items(in_play(state.opp)),
        r@.len() <= usize::MAX / 8,
{
    let mut v: Vec<(u32, u32, u16)> = Vec::new();
    let ghost pre = front_seq(state.opp.active);
    if let Some(a) = &state.opp.active {
        v.push(ko_item_exec(a));
    }
    assert(v@ =~= ko_items(pre));
    let mut i: usize = 0;
    while i < state.opp.bench.len()
        invariant
            i <= state.opp.bench@.len(),
            v@ == ko_items(pre + state.opp.bench@.take(i as int)),
        decreases state.opp.bench.len() - i,
    {
        v.push(ko_item_exec(&state.opp.bench[i]));
        proof {
            assert(pre + state.opp.bench@.take(i + 1) =~= (pre + state.opp.bench@.take(
                i as int,
            )).push(state.opp.bench@[i as int]));
            assert(ko_items(pre + state.opp.bench@.take(i + 1)) =~= v@);
        }
        i = i + 1;
    }
    proof {
        assert(state.opp.bench@.take(i as int) =~= state.opp.bench@);
        assert(pre + state.opp.bench@ =~= in_play(state.opp));
    }
    v
}

/// The most prizes and the most knock-outs one Phantom Dive can take (see
/// `phantom_outcomes`).
pub fn phantom_dive_outcomes(state: &StateDto) -> (r: (u64, u64))
    requires
        board_fits(*state),
    ensures
        r.0 == phantom_outcomes(*state).0,
        r.1 == phantom_outcomes(*state).1,
{
    let items = opp_items(state);
    let ghost opp = in_play(state.opp);
    let n = items.len();
    let mut best_p: u64 = 0;
    let mut best_k: u64 = 0;
    let mut xi: usize = 0;
    while xi < n
        invariant
            n == items@.len(),
            n == opp.len(),
            items@ == ko_items(opp),
            opp == in_play(state.opp),
            xi <= n,
            best_p == dive_best(opp, xi as int).0,
            best_k == dive_best(opp, xi as int).1,
            best_p <= 2 * n + 2,
            best_k <= n + 1,
        decreases n - xi,
    {
        let mut rest: Vec<(u32, u32, u16)> = Vec::new();
        let mut j: usize = 0;
        while j < n
            invariant
                j <= n,
                xi < n,
                rest@ == (if j <= xi {
                    items@.take(j as int)
                } else {
                    items@.take(xi as int) + items@.subrange(xi + 1, j as int)
                }),
            decreases n - j,
        {
            if j != xi {
                rest.push(items[j]);
                proof {
                    if j < xi {
                        assert(items@.take(j + 1) =~= items@.take(j as int).push(items@[j as int]));
                    } else {
                        assert(items@.subrange(xi + 1, j + 1) =~= items@.subrange(
                            xi + 1,
                            j as int,
                        ).push(items@[j as int]));
                    }
                }
            }
            j = j + 1;
        }
        proof {
            assert(rest@ =~= items@.remove(xi as int));
            assert(rest@.take(rest@.len() as int) =~= rest@);
            assert forall|i: int| 0 <= i < rest@.len() implies (#[trigger] rest@[i]).1 <= 2 by {
                if i < xi {
                    assert(rest@[i] == items@[i]);
                } else {
                    assert(rest@[i] == items@[i + 1]);
                }
                assert(items@[i] == ko_item(opp[i]));
                assert(items@[i + 1] == ko_item(opp[i + 1]));
            }
        }
        let it = items[xi];
        proof {
            assert(it == ko_item(opp[xi as int]));
        }
        let (main_p, main_k): (u64, u64) = if it.2 <= 200 {
            (it.1 as u64, 1)
        } else {
            (0, 0)
        };
        let b = knap_exec(&rest, rest.len(), 6);
        best_p = max_u64(best_p, main_p + b.0);
        best_k = max_u64(best_k, main_k + b.1);
        xi = xi + 1;
    }
    (best_p, best_k)
}

} // verus!

verus! {

/// My prizes left, as the `u32` the strategy counts with (saturating).
pub open spec fn my_prizes_left(state: StateDto) -> int {
    if state.me.prizes@.len() <= u32::MAX {
        state.me.prizes@.len() as int
    } else {
        u32::MAX as int
    }
}

/// Some Pokémon of mine can use Phantom Dive (active or bench).
pub open spec fn phantom_ready(state: StateDto) -> bool {
    phantom_ready_active(state) || phantom_ready_bench(state)
}

/// `P_bossWin`: boss's orders wins the game: my last prize, or one Phantom Dive takes all
/// the prizes I have left.
pub open spec fn boss_win(state: StateDto) -> bool {
    if my_prizes_left(state) == 1 {
        true
    } else if !phantom_ready(state) {
        false
    } else {
        phantom_outcomes(state).0 >= my_prizes_left(state)
    }
}

/// `P_bossWin`.
pub fn p_boss_win(state: &StateDto) -> (r: bool)
    requires
        board_fits(*state),
    ensures
        r == boss_win(*state),
{
    let n = state.me.prizes.len();
    let my_prizes: u32 = if n <= u32::MAX as usize {
        n as u32
    } else {
        u32::MAX
    };
    if my_prizes == 1 {
        return true;
    }
    if !(p_phantom_ready_active(state) || p_phantom_ready_bench(state)) {
        return false;
    }
    phantom_dive_outcomes(state).0 >= my_prizes as u64
}

/// An opposing rule-box Pokémon that 200 damage knocks out.
pub open spec fn koable_ex() -> spec_fn(PokemonInPlayDto) -> bool {
    |p: PokemonInPlayDto| (p.card matches Some(c) && ex_suffix(c@)) && rem_hp(p) <= 200
}

/// `P_bossUse`: use boss's orders: my last prize, or (with Phantom Dive ready) an opposing
/// rule-box Pokémon can be knocked out, or one dive knocks out two or more.
pub open spec fn boss_use(state: StateDto) -> bool {
    if state.me.prizes@.len() == 1 {
        true
    } else if !phantom_ready(state) {
        false
    } else {
        any_in_play(state.opp, koable_ex()) || phantom_outcomes(state).1 >= 2
    }
}

/// Whether `p` is an opposing rule-box Pokémon that 200 damage knocks out.
fn koable_ex_exec(p: &PokemonInPlayDto) -> (r: bool)
    ensures
        r == koable_ex()(*p),
{
    match &p.card {
        Some(c) => is_ex(c.as_str()) && remaining_hp(p) <= 200,
        None => false,
    }
}

/// `P_bossUse`.
pub fn p_boss_use(state: &StateDto) -> (r: bool)
    requires
        board_fits(*state),
    ensures
        r == boss_use(*state),
{
    if state.me.prizes.len() == 1 {
        return true;
    }
    if !(p_phantom_ready_active(state) || p_phantom_ready_bench(state)) {
        return false;
    }
    proof {
        lemma_any_in_play(state.opp, koable_ex());
    }
    let mut can_ko_ex = match &state.opp.active {
        Some(a) => koable_ex_exec(a),
        None => false,
    };
    let mut i: usize = 0;
    while i < state.opp.bench.len() && !can_ko_ex
        invariant
            i <= state.opp.bench@.len(),
            can_ko_ex == ((state.opp.active matches Some(a) && koable_ex()(a)) || exists|j: int|
                0 <= j < i && #[trigger] koable_ex()(state.opp.bench@[j])),
        decreases state.opp.bench.len() - i,
    {
        if koable_ex_exec(&state.opp.bench[i]) {
            can_ko_ex = true;
        }
        i = i + 1;
    }
    can_ko_ex || phantom_dive_outcomes(state).1 >= 2
}

} // verus!

verus! {

// ============================================================================
// Snipe targets
// ============================================================================

/// The last element of `s` satisfying `f` with the greatest `key` (a later element wins a
/// tie, as `Iterator::max_by_key` does).
pub open spec fn last_max(s: Seq<u32>, f: spec_fn(u32) -> bool, key: spec_fn(u32) -> int) -> Option<
    u32,
>
    decreases s.len(),
{
    if s.len() == 0 {
        None
    } else {
        let b = last_max(s.drop_last(), f, key);
        let x = s.last();
        if f(x) {
            match b {
                Some(y) => if key(x) >= key(y) {
                    Some(x)
                } else {
                    Some(y)
                },
                None => Some(x),
            }
        } else {
            b
        }
    }
}

/// `last_max` picks an element of `s` that satisfies `f` and whose key no other such
/// element exceeds; it finds one whenever some element satisfies `f`.
pub proof fn lemma_last_max(s: Seq<u32>, f: spec_fn(u32) -> bool, key: spec_fn(u32) -> int)
    ensures
        last_max(s, f, key) matches Some(m) ==> s.contains(m) && f(m) && forall|i: int|
            0 <= i < s.len() && f(#[trigger] s[i]) ==> key(s[i]) <= key(m),
        last_max(s, f, key) is None <==> forall|i: int| 0 <= i < s.len() ==> !f(#[trigger] s[i]),
    decreases s.len(),
{
    if s.len() > 0 {
        let t = s.drop_last();
        let x = s.last();
        lemma_last_max(t, f, key);
        assert forall|i: int| 0 <= i < t.len() implies #[trigger] s[i] == t[i] by {}
        assert(s[s.len() - 1] == x);
        match last_max(t, f, key) {
            Some(y) => {
                let k = choose|k: int| 0 <= k < t.len() && t[k] == y;
                assert(s[k] == y);
                assert forall|i: int| 0 <= i < s.len() && f(#[trigger] s[i]) implies key(s[i])
                    <= key(last_max(s, f, key)->0) by {
                    if i < s.len() - 1 {
                        assert(f(t[i]));
                    }
                }
            },
            None => {
                assert forall|i: int| 0 <= i < s.len() && f(#[trigger] s[i]) implies key(s[i])
                    <= key(last_max(s, f, key)->0) by {
                    if i < s.len() - 1 {
                        assert(f(t[i]));
                    }
                }
                if !f(x) {
                    assert forall|i: int| 0 <= i < s.len() implies !f(#[trigger] s[i]) by {
                        if i < s.len() - 1 {
                            assert(!f(t[i]));
                        }
                    }
                }
            },
        }
    }
}

/// The targets that are opposing Pokémon in play, in order.
pub open spec fn opp_targets(state: StateDto, t: Seq<u32>) -> Seq<u32>
    decreases t.len(),
{
    if t.len() == 0 {
        Seq::empty()
    } else {
        let r = opp_targets(state, t.drop_last());
        if opp_mon(state, t.last()) is Some {
            r.push(t.last())
        } else {
            r
        }
    }
}

/// The opposing Pokémon with id `e` (meaningful for ids among `opp_targets`).
pub open spec fn target_mon(state: StateDto, e: u32) -> PokemonInPlayDto {
    opp_mon(state, e)->0
}

/// A target that is a rule-box Pokémon.
pub open spec fn ex_target(state: StateDto) -> spec_fn(u32) -> bool {
    |e: u32| ex_suffix(slug_or_empty(target_mon(state, e).card))
}

/// A target's maximum HP.
pub open spec fn hp_key(state: StateDto) -> spec_fn(u32) -> int {
    |e: u32| target_mon(state, e).hp_max as int
}

/// A target of slug `slug` with energy attached.
pub open spec fn energized_target(state: StateDto, slug: Seq<char>) -> spec_fn(u32) -> bool {
    |e: u32|
        slug_or_empty(target_mon(state, e).card) == slug && target_mon(
            state,
            e,
        ).energy_attached@.len() > 0
}

/// The number of energies on a target.
pub open spec fn energy_key(state: StateDto) -> spec_fn(u32) -> int {
    |e: u32| target_mon(state, e).energy_attached@.len() as int
}

/// A target of slug `slug`.
pub open spec fn slug_target(state: StateDto, slug: Seq<char>) -> spec_fn(u32) -> bool {
    |e: u32| slug_or_empty(target_mon(state, e).card) == slug
}

/// A target that is a dusclops or a dusknoir.
pub open spec fn dusk_target(state: StateDto) -> spec_fn(u32) -> bool {
    |e: u32|
        slug_or_empty(target_mon(state, e).card) == "dusclops"@ || slug_or_empty(
            target_mon(state, e).card,
        ) == "dusknoir"@
}

/// Snipe priority among the opposing targets: the rule-box Pokémon with the most HP, then
/// the energized drakloak with the most energy, then the energized dreepy with the most
/// energy, then the first drakloak, the first dreepy, the first dusclops or dusknoir;
/// otherwise nothing.
pub open spec fn snipe_spec(state: StateDto, targets: Seq<u32>) -> Option<u32> {
    let c = opp_targets(state, targets);
    if last_max(c, ex_target(state), hp_key(state)) is Some {
        last_max(c, ex_target(state), hp_key(state))
    } else if last_max(c, energized_target(state, "drakloak"@), energy_key(state)) is Some {
        last_max(c, energized_target(state, "drakloak"@), energy_key(state))
    } else if last_max(c, energized_target(state, "dreepy"@), energy_key(state)) is Some {
        last_max(c, energized_target(state, "dreepy"@), energy_key(state))
    } else if find_first(c, slug_target(state, "drakloak"@)) is Some {
        find_first(c, slug_target(state, "drakloak"@))
    } else if find_first(c, slug_target(state, "dreepy"@)) is Some {
        find_first(c, slug_target(state, "dreepy"@))
    } else {
        find_first(c, dusk_target(state))
    }
}

/// The targets that are opposing Pokémon in play.
fn opp_target_ids(state: &StateDto, targets: &[u32]) -> (r: Vec<u32>)
    ensures
        r@ == opp_targets(*state, targets@),
{
    let mut v: Vec<u32> = Vec::new();
    let mut i: usize = 0;
    while i < targets.len()
        invariant
            i <= targets@.len(),
            v@ == opp_targets(*state, targets@.take(i as int)),
        decreases targets.len() - i,
    {
        proof {
            assert(targets@.take(i + 1).drop_last() =~= targets@.take(i as int));
            assert(targets@.take(i + 1).last() == targets@[i as int]);
        }
        if opp_in_play(state, targets[i]).is_some() {
            v.push(targets[i]);
        }
        i = i + 1;
    }
    proof {
        assert(targets@.take(i as int) =~= targets@);
    }
    v
}

/// Whether `card` names `lit`, with a hidden card read as the empty name.
fn slug_is(card: &Option<String>, lit: &str) -> (r: bool)
    ensures
        r == (slug_or_empty(*card) == lit@),
{
    match card {
        Some(c) => crate::util::str_eq(c.as_str(), lit),
        None => {
            let e = String::new();
            crate::util::str_eq(e.as_str(), lit)
        },
    }
}

/// The opposing Pokémon with id `e`, which `opp_targets` guarantees.
fn target_of<'a>(state: &'a StateDto, e: u32) -> (r: &'a PokemonInPlayDto)
    requires
        opp_mon(*state, e) is Some,
    ensures
        *r == target_mon(*state, e),
{
    match opp_in_play(state, e) {
        Some(m) => m,
        None => {
            assert(false);
            &state.me.bench[0]
        },
    }
}

} // verus!

verus! {

/// Every id that `opp_targets` keeps names an opposing Pokémon in play.
pub proof fn lemma_opp_targets(state: StateDto, t: Seq<u32>)
    ensures
        forall|i: int|
            0 <= i < opp_targets(state, t).len() ==> opp_mon(
                state,
                #[trigger] opp_targets(state, t)[i],
            ) is Some,
    decreases t.len(),
{
    if t.len() > 0 {
        lemma_opp_targets(state, t.drop_last());
    }
}

/// The selection predicate of snipe tier `kind` (0: rule-box, 1: energized drakloak,
/// 2: energized dreepy, 3: drakloak, 4: dreepy, otherwise dusclops or dusknoir).
pub open spec fn snipe_pred(state: StateDto, kind: u8) -> spec_fn(u32) -> bool {
    if kind == 0 {
        ex_target(state)
    } else if kind == 1 {
        energized_target(state, "drakloak"@)
    } else if kind == 2 {
        energized_target(state, "dreepy"@)
    } else if kind == 3 {
        slug_target(state, "drakloak"@)
    } else if kind == 4 {
        slug_target(state, "dreepy"@)
    } else {
        dusk_target(state)
    }
}

/// The ordering key of snipe tier `kind`.
pub open spec fn snipe_key(state: StateDto, kind: u8) -> spec_fn(u32) -> int {
    if kind == 0 {
        hp_key(state)
    } else {
        energy_key(state)
    }
}

/// Whether target `e` satisfies the predicate of tier `kind`.
fn snipe_pred_exec(state: &StateDto, e: u32, kind: u8) -> (r: bool)
    requires
        opp_mon(*state, e) is Some,
    ensures
        r == snipe_pred(*state, kind)(e),
{
    let m = target_of(state, e);
    if kind == 0 {
        match &m.card {
            Some(c) => is_ex(c.as_str()),
            None => {
                let z = String::new();
                is_ex(z.as_str())
            },
        }
    } else if kind == 1 {
        slug_is(&m.card, "drakloak") && m.energy_attached.len() > 0
    } else if kind == 2 {
        slug_is(&m.card, "dreepy") && m.energy_attached.len() > 0
    } else if kind == 3 {
        slug_is(&m.card, "drakloak")
    } else if kind == 4 {
        slug_is(&m.card, "dreepy")
    } else {
        slug_is(&m.card, "dusclops") || slug_is(&m.card, "dusknoir")
    }
}

/// The key of target `e` in tier `kind`.
fn snipe_key_exec(state: &StateDto, e: u32, kind: u8) -> (r: usize)
    requires
        opp_mon(*state, e) is Some,
    ensures
        r == snipe_key(*state, kind)(e),
{
    let m = target_of(state, e);
    if kind == 0 {
        m.hp_max as usize
    } else {
        m.energy_attached.len()
    }
}

/// `last_max` over the candidates for tier `kind`.
fn last_max_of(state: &StateDto, c: &Vec<u32>, kind: u8) -> (r: Option<u32>)
    requires
        forall|i: int| 0 <= i < c@.len() ==> opp_mon(*state, #[trigger] c@[i]) is Some,
    ensures
        r == last_max(c@, snipe_pred(*state, kind), snipe_key(*state, kind)),
{
    let mut best: Option<u32> = None;
    let mut best_key: usize = 0;
    let mut i: usize = 0;
    while i < c.len()
        invariant
            i <= c@.len(),
            best == last_max(c@.take(i as int), snipe_pred(*state, kind), snipe_key(*state, kind)),
            best matches Some(b) ==> best_key == snipe_key(*state, kind)(b),
        decreases c.len() - i,
    {
        proof {
            assert(c@.take(i + 1).drop_last() =~= c@.take(i as int));
            assert(c@.take(i + 1).last() == c@[i as int]);
        }
        let x = c[i];
        if snipe_pred_exec(state, x, kind) {
            let k = snipe_key_exec(state, x, kind);
            match best {
                Some(_) => {
                    if k >= best_key {
                        best = Some(x);
                        best_key = k;
                    }
                },
                None => {
                    best = Some(x);
                    best_key = k;
                },
            }
        }
        i = i + 1;
    }
    proof {
        assert(c@.take(i as int) =~= c@);
    }
    best
}

/// `find_first` over the candidates for tier `kind`.
fn first_of_kind(state: &StateDto, c: &Vec<u32>, kind: u8) -> (r: Option<u32>)
    requires
        forall|i: int| 0 <= i < c@.len() ==> opp_mon(*state, #[trigger] c@[i]) is Some,
    ensures
        r == find_first(c@, snipe_pred(*state, kind)),
{
    let mut i: usize = 0;
    while i < c.len()
        invariant
            i <= c@.len(),
            forall|j: int| 0 <= j < i ==> !snipe_pred(*state, kind)(#[trigger] c@[j]),
        decreases c.len() - i,
    {
        if snipe_pred_exec(state, c[i], kind) {
            proof {
                crate::util::lemma_first_at(c@, snipe_pred(*state, kind), i as int);
            }
            return Some(c[i]);
        }
        i = i + 1;
    }
    proof {
        crate::util::lemma_first_none(c@, snipe_pred(*state, kind));
    }
    None
}

/// Snipe target among `targets` (see `snipe_spec`); `None` without a board or when no
/// target fits the priority.
pub fn pick_snipe_target(p: &PromptMsg, targets: &[u32]) -> (r: Option<u32>)
    ensures
        r == (match p.state {
            Some(s) => snipe_spec(s, targets@),
            None => None,
        }),
{
    let state = match &p.state {
        Some(s) => s,
        None => return None,
    };
    let c = opp_target_ids(state, targets);
    proof {
        lemma_opp_targets(*state, targets@);
    }
    if let Some(e) = last_max_of(state, &c, 0) {
        return Some(e);
    }
    if let Some(e) = last_max_of(state, &c, 1) {
        return Some(e);
    }
    if let Some(e) = last_max_of(state, &c, 2) {
        return Some(e);
    }
    if let Some(e) = first_of_kind(state, &c, 3) {
        return Some(e);
    }
    if let Some(e) = first_of_kind(state, &c, 4) {
        return Some(e);
    }
    first_of_kind(state, &c, 5)
}

} // verus!

verus! {

// ============================================================================
// Damage counter distribution: lowest remaining HP first
// ============================================================================

/// Counters to knock out `rem` HP as a byte: `ceil(rem / 10)`, at least 1, at most 255.
pub open spec fn ko_byte(rem: int) -> u8 {
    let k = ko_counters(rem);
    if k > 255 {
        255u8
    } else if k < 1 {
        1u8
    } else {
        k as u8
    }
}

/// The eligible ids that are opposing Pokémon in play, with remaining HP and counters to
/// knock out, in order.
pub open spec fn dist_targets(state: StateDto, elig: Seq<u32>) -> Seq<(u32, u16, u8)>
    decreases elig.len(),
{
    if elig.len() == 0 {
        Seq::empty()
    } else {
        let r = dist_targets(state, elig.drop_last());
        match opp_mon(state, elig.last()) {
            Some(m) => r.push((elig.last(), rem_hp(m) as u16, ko_byte(rem_hp(m)))),
            None => r,
        }
    }
}

/// Ordering of targets: lower remaining HP first, ties by lower entity id.
pub open spec fn dist_lt(a: (u32, u16, u8), b: (u32, u16, u8)) -> bool {
    a.1 < b.1 || (a.1 == b.1 && a.0 < b.0)
}

/// Index of the first least target among the first `n`.
pub open spec fn min_idx(s: Seq<(u32, u16, u8)>, n: int) -> int
    decreases n,
{
    if n <= 1 {
        0
    } else {
        let b = min_idx(s, n - 1);
        if dist_lt(s[n - 1], s[b]) {
            n - 1
        } else {
            b
        }
    }
}

/// The targets in order (the first least one repeatedly taken out).
pub open spec fn dist_sort(s: Seq<(u32, u16, u8)>) -> Seq<(u32, u16, u8)>
    decreases s.len(),
{
    if s.len() == 0 {
        s
    } else {
        let m = min_idx(s, s.len() as int);
        if 0 <= m < s.len() {
            seq![s[m]] + dist_sort(s.remove(m))
        } else {
            s
        }
    }
}

/// The smaller of two integers.
pub open spec fn imin(a: int, b: int) -> int {
    if a <= b {
        a
    } else {
        b
    }
}

/// First phase: in order, each target gets what knocks it out, within the cap and what is
/// left. Returns the counts and what is left.
pub open spec fn phase1(ts: Seq<(u32, u16, u8)>, left: int, cap: int) -> (Seq<u8>, int)
    decreases ts.len(),
{
    if ts.len() == 0 {
        (Seq::empty(), left)
    } else {
        let give = imin(imin(left, cap), ts[0].2 as int);
        let r = phase1(ts.drop_first(), left - give, cap);
        (seq![give as u8] + r.0, r.1)
    }
}

/// One pass of the second phase: in order, one more counter on each target below the cap,
/// while counters are left.
pub open spec fn pass(counts: Seq<u8>, left: int, cap: int) -> (Seq<u8>, int)
    decreases counts.len(),
{
    if counts.len() == 0 || left <= 0 {
        (counts, left)
    } else if counts[0] < cap {
        let r = pass(counts.drop_first(), left - 1, cap);
        (seq![(counts[0] + 1) as u8] + r.0, r.1)
    } else {
        let r = pass(counts.drop_first(), left, cap);
        (seq![counts[0]] + r.0, r.1)
    }
}

/// Second phase: passes until nothing is left or a pass places nothing.
pub open spec fn phase2(counts: Seq<u8>, left: int, cap: int) -> Seq<u8>
    decreases left,
{
    if left <= 0 {
        counts
    } else {
        let r = pass(counts, left, cap);
        if 0 <= r.1 < left {
            phase2(r.0, r.1, cap)
        } else {
            r.0
        }
    }
}

/// The ids of the targets with a positive count.
pub open spec fn placed_ids(ts: Seq<(u32, u16, u8)>, counts: Seq<u8>) -> Seq<u32>
    decreases ts.len(),
{
    if ts.len() == 0 || counts.len() == 0 {
        Seq::empty()
    } else {
        let r = placed_ids(ts.drop_first(), counts.drop_first());
        if counts[0] > 0 {
            seq![ts[0].0] + r
        } else {
            r
        }
    }
}

/// The positive counts.
pub open spec fn placed_counts(counts: Seq<u8>) -> Seq<u8>
    decreases counts.len(),
{
    if counts.len() == 0 {
        Seq::empty()
    } else {
        let r = placed_counts(counts.drop_first());
        if counts[0] > 0 {
            seq![counts[0]] + r
        } else {
            r
        }
    }
}

/// The cap per target: `per_target_max`, or the total when there is none.
pub open spec fn dist_cap(total: u8, per: Option<u8>) -> u8 {
    match per {
        Some(c) => c,
        None => total,
    }
}

/// The counts placed on the sorted targets, in their order.
pub open spec fn dist_counts(state: StateDto, elig: Seq<u32>, total: u8, per: Option<u8>) -> Seq<u8> {
    let ts = dist_sort(dist_targets(state, elig));
    let cap = dist_cap(total, per) as int;
    let p1 = phase1(ts, total as int, cap);
    phase2(p1.0, p1.1, cap)
}

/// The distribution of `total` counters over the opposing `eligible` Pokémon, lowest
/// remaining HP first: ids and counts of the targets that get any. `None` without a board,
/// without counters, without a cap, or without an opposing target.
pub open spec fn distribute_spec(p: PromptMsg, elig: Seq<u32>, total: u8, per: Option<u8>) -> Option<
    (Seq<u32>, Seq<u8>),
> {
    match p.state {
        None => None,
        Some(state) => if total == 0 || elig.len() == 0 || dist_cap(total, per) == 0
            || dist_targets(state, elig).len() == 0 {
            None
        } else {
            let ts = dist_sort(dist_targets(state, elig));
            let counts = dist_counts(state, elig, total, per);
            if placed_ids(ts, counts).len() == 0 {
                None
            } else {
                Some((placed_ids(ts, counts), placed_counts(counts)))
            }
        },
    }
}

} // verus!

verus! {

/// `min_idx` is an index of the prefix.
pub proof fn lemma_min_idx(s: Seq<(u32, u16, u8)>, n: int)
    requires
        1 <= n,
    ensures
        0 <= min_idx(s, n) < n,
    decreases n,
{
    if n > 1 {
        lemma_min_idx(s, n - 1);
    }
}

/// The eligible opposing targets with their knock-out data.
fn dist_targets_exec(state: &StateDto, elig: &[u32]) -> (r: Vec<(u32, u16, u8)>)
    ensures
        r@ == dist_targets(*state, elig@),
{
    let mut v: Vec<(u32, u16, u8)> = Vec::new();
    let mut i: usize = 0;
    while i < elig.len()
        invariant
            i <= elig@.len(),
            v@ == dist_targets(*state, elig@.take(i as int)),
        decreases elig.len() - i,
    {
        proof {
            assert(elig@.take(i + 1).drop_last() =~= elig@.take(i as int));
            assert(elig@.take(i + 1).last() == elig@[i as int]);
        }
        if let Some(m) = opp_in_play(state, elig[i]) {
            let rem = remaining_hp(m);
            let k: u16 = (rem / 10) + if rem % 10 == 0 {
                0
            } else {
                1
            };
            assert(k == ko_counters(rem as int)) by (nonlinear_arith)
                requires
                    k == rem / 10 + if rem % 10 == 0 {
                        0int
                    } else {
                        1int
                    },
            ;
            let kb: u8 = if k > 255 {
                255
            } else if k < 1 {
                1
            } else {
                k as u8
            };
            v.push((elig[i], rem, kb));
        }
        i = i + 1;
    }
    proof {
        assert(elig@.take(i as int) =~= elig@);
    }
    v
}

/// The targets in `dist_sort` order.
fn dist_sort_exec(v: Vec<(u32, u16, u8)>) -> (r: Vec<(u32, u16, u8)>)
    ensures
        r@ == dist_sort(v@),
{
    let mut work = v;
    let mut out: Vec<(u32, u16, u8)> = Vec::new();
    while work.len() > 0
        invariant
            dist_sort(v@) == out@ + dist_sort(work@),
        decreases work.len(),
    {
        let n = work.len();
        let mut best: usize = 0;
        let mut j: usize = 1;
        while j < n
            invariant
                n == work@.len(),
                1 <= j <= n,
                best == min_idx(work@, j as int),
                best < j,
            decreases n - j,
        {
            let a = work[j];
            let b = work[best];
            if a.1 < b.1 || (a.1 == b.1 && a.0 < b.0) {
                best = j;
            }
            j = j + 1;
        }
        proof {
            lemma_min_idx(work@, n as int);
        }
        let ghost before = work@;
        let x = work.remove(best);
        proof {
            assert(dist_sort(before) == seq![before[best as int]] + dist_sort(before.remove(best as int)));
            assert(work@ == before.remove(best as int));
            assert(out@.push(x) + dist_sort(work@) =~= out@ + (seq![x] + dist_sort(work@)));
        }
        out.push(x);
    }
    proof {
        assert(out@ + dist_sort(work@) =~= out@);
    }
    out
}

} // verus!

verus! {

/// First phase over the sorted targets.
fn phase1_exec(ts: &Vec<(u32, u16, u8)>, total: u8, cap: u8) -> (r: (Vec<u8>, u8))
    ensures
        r.0@ == phase1(ts@, total as int, cap as int).0,
        r.1 == phase1(ts@, total as int, cap as int).1,
        r.0@.len() == ts@.len(),
{
    let mut counts: Vec<u8> = Vec::new();
    let mut left: u8 = total;
    let mut i: usize = 0;
    proof {
        assert(ts@.skip(0) =~= ts@);
    }
    while i < ts.len()
        invariant
            i <= ts@.len(),
            counts@.len() == i,
            phase1(ts@, total as int, cap as int).0 == counts@ + phase1(
                ts@.skip(i as int),
                left as int,
                cap as int,
            ).0,
            phase1(ts@, total as int, cap as int).1 == phase1(
                ts@.skip(i as int),
                left as int,
                cap as int,
            ).1,
        decreases ts.len() - i,
    {
        proof {
            assert(ts@.skip(i as int).drop_first() =~= ts@.skip(i + 1));
            assert(ts@.skip(i as int)[0] == ts@[i as int]);
        }
        let k = ts[i].2;
        let a: u8 = if left <= cap {
            left
        } else {
            cap
        };
        let give: u8 = if a <= k {
            a
        } else {
            k
        };
        let ghost rest = phase1(ts@.skip(i + 1), (left - give) as int, cap as int);
        proof {
            assert(counts@ + (seq![give] + rest.0) =~= counts@.push(give) + rest.0);
        }
        counts.push(give);
        left = left - give;
        i = i + 1;
    }
    proof {
        assert(ts@.skip(i as int) =~= Seq::<(u32, u16, u8)>::empty());
        assert(counts@ + Seq::<u8>::empty() =~= counts@);
    }
    (counts, left)
}

/// One pass of the second phase.
fn pass_exec(counts: &Vec<u8>, left: u8, cap: u8) -> (r: (Vec<u8>, u8))
    ensures
        r.0@ == pass(counts@, left as int, cap as int).0,
        r.1 == pass(counts@, left as int, cap as int).1,
        r.0@.len() == counts@.len(),
        r.1 <= left,
{
    let mut next: Vec<u8> = Vec::new();
    let mut l: u8 = left;
    let mut i: usize = 0;
    proof {
        assert(counts@.skip(0) =~= counts@);
    }
    while i < counts.len()
        invariant
            i <= counts@.len(),
            next@.len() == i,
            l <= left,
            pass(counts@, left as int, cap as int).0 == next@ + pass(
                counts@.skip(i as int),
                l as int,
                cap as int,
            ).0,
            pass(counts@, left as int, cap as int).1 == pass(
                counts@.skip(i as int),
                l as int,
                cap as int,
            ).1,
        decreases counts.len() - i,
    {
        proof {
            assert(counts@.skip(i as int).drop_first() =~= counts@.skip(i + 1));
            assert(counts@.skip(i as int)[0] == counts@[i as int]);
        }
        let c = counts[i];
        if l > 0 && c < cap {
            let ghost rest = pass(counts@.skip(i + 1), (l - 1) as int, cap as int);
            proof {
                assert(next@ + (seq![(c + 1) as u8] + rest.0) =~= next@.push((c + 1) as u8) + rest.0);
            }
            next.push(c + 1);
            l = l - 1;
        } else {
            let ghost rest = pass(counts@.skip(i + 1), l as int, cap as int);
            proof {
                if l == 0 {
                    assert(counts@.skip(i as int) =~= seq![c] + counts@.skip(i + 1));
                }
                assert(next@ + (seq![c] + rest.0) =~= next@.push(c) + rest.0);
            }
            next.push(c);
        }
        i = i + 1;
    }
    proof {
        assert(counts@.skip(i as int) =~= Seq::<u8>::empty());
        assert(next@ + Seq::<u8>::empty() =~= next@);
    }
    (next, l)
}

/// Second phase.
fn phase2_exec(counts: Vec<u8>, left: u8, cap: u8) -> (r: Vec<u8>)
    ensures
        r@ == phase2(counts@, left as int, cap as int),
        r@.len() == counts@.len(),
{
    let ghost goal = phase2(counts@, left as int, cap as int);
    let ghost n = counts@.len();
    let mut cur = counts;
    let mut l = left;
    let mut done = false;
    while l > 0 && !done
        invariant
            cur@.len() == n,
            done ==> cur@ == goal,
            !done ==> phase2(cur@, l as int, cap as int) == goal,
        decreases l as int + if done {
            0int
        } else {
            1int
        },
    {
        let before = l;
        let (next, nl) = pass_exec(&cur, l, cap);
        cur = next;
        l = nl;
        if l == before {
            done = true;
        }
    }
    cur
}

/// The ids and counts of the targets that get counters.
fn placed(ts: &Vec<(u32, u16, u8)>, counts: &Vec<u8>) -> (r: (Vec<u32>, Vec<u8>))
    requires
        ts@.len() == counts@.len(),
    ensures
        r.0@ == placed_ids(ts@, counts@),
        r.1@ == placed_counts(counts@),
{
    let mut sel: Vec<u32> = Vec::new();
    let mut cnt: Vec<u8> = Vec::new();
    let mut i: usize = 0;
    proof {
        assert(ts@.skip(0) =~= ts@);
        assert(counts@.skip(0) =~= counts@);
    }
    while i < ts.len()
        invariant
            i <= ts@.len(),
            ts@.len() == counts@.len(),
            placed_ids(ts@, counts@) == sel@ + placed_ids(ts@.skip(i as int), counts@.skip(i as int)),
            placed_counts(counts@) == cnt@ + placed_counts(counts@.skip(i as int)),
        decreases ts.len() - i,
    {
        proof {
            assert(ts@.skip(i as int).drop_first() =~= ts@.skip(i + 1));
            assert(counts@.skip(i as int).drop_first() =~= counts@.skip(i + 1));
            assert(ts@.skip(i as int)[0] == ts@[i as int]);
            assert(counts@.skip(i as int)[0] == counts@[i as int]);
        }
        if counts[i] > 0 {
            let ghost r1 = placed_ids(ts@.skip(i + 1), counts@.skip(i + 1));
            let ghost r2 = placed_counts(counts@.skip(i + 1));
            proof {
                assert(sel@ + (seq![ts@[i as int].0] + r1) =~= sel@.push(ts@[i as int].0) + r1);
                assert(cnt@ + (seq![counts@[i as int]] + r2) =~= cnt@.push(counts@[i as int]) + r2);
            }
            sel.push(ts[i].0);
            cnt.push(counts[i]);
        }
        i = i + 1;
    }
    proof {
        assert(sel@ + Seq::<u32>::empty() =~= sel@);
        assert(cnt@ + Seq::<u8>::empty() =~= cnt@);
    }
    (sel, cnt)
}

/// Damage counters for Phantom Dive and the like: the opposing Pokémon with the least HP
/// left first, as many as knock each out, then the rest topped up in the same order within
/// the cap (see `distribute_spec`).
pub fn distribute_damage_low_hp_first(
    p: &PromptMsg,
    eligible: &[u32],
    total: u8,
    per_target_max: Option<u8>,
) -> (r: Option<PromptChoice>)
    ensures
        match distribute_spec(*p, eligible@, total, per_target_max) {
            Some((ids, counts)) => r matches Some(c) && c.selected@ == ids && c.counts@ == counts
                && c.yes is None && c.branch_index is None,
            None => r is None,
        },
{
    let state = match &p.state {
        Some(s) => s,
        None => return None,
    };
    if total == 0 || eligible.len() == 0 {
        return None;
    }
    let cap = match per_target_max {
        Some(c) => c,
        None => total,
    };
    if cap == 0 {
        return None;
    }
    let targets = dist_targets_exec(state, eligible);
    if targets.len() == 0 {
        return None;
    }
    let sorted = dist_sort_exec(targets);
    let (c1, left) = phase1_exec(&sorted, total, cap);
    let counts = phase2_exec(c1, left, cap);
    let (selected, cnt) = placed(&sorted, &counts);
    if selected.len() == 0 {
        return None;
    }
    Some(PromptChoice { selected, counts: cnt, yes: None, branch_index: None })
}

} // verus!

verus! {

// ============================================================================
// Finding actions
// ============================================================================

/// Cursed Bomb: dusknoir's only activated ability, so any legal `UseAbility` of a dusknoir.
pub open spec fn cursed_bomb_spec(state: StateDto, legal: Seq<Action>) -> Option<int> {
    first_where(legal, uses_ability_of(state, "dusknoir"@))
}

/// Index of a Cursed Bomb among the legal actions (used as soon as a dusknoir is in play).
pub fn find_cursed_bomb(state: &StateDto, legal: &[Action]) -> (r: Option<usize>)
    ensures
        opt_int(r) == cursed_bomb_spec(*state, legal@),
        r matches Some(k) ==> k < legal@.len(),
{
    find_ability(state, legal, "dusknoir")
}

/// Energy targets of this persona: dragapult-ex, then drakloak, then dreepy.
pub open spec fn energy_pri() -> Seq<Seq<char>> {
    seq!["dragapult-ex"@, "drakloak"@, "dreepy"@]
}

/// Energy types in the order to try them: psychic first, then fire.
pub open spec fn psy_fire() -> Seq<Seq<char>> {
    seq!["psychic-energy"@, "fire-energy"@]
}

/// Energy attachment toward Phantom Dive (never a second fire or psychic; bench before
/// active within a slug; psychic first).
pub fn find_energy_attach(state: &StateDto, legal: &[Action]) -> (r: Option<usize>)
    ensures
        opt_int(r) == attach_by_priority(*state, legal@, energy_pri(), psy_fire()),
        r matches Some(k) ==> k < legal@.len(),
{
    let pri: &[&str] = &["dragapult-ex", "drakloak", "dreepy"];
    let both: &'static [&'static str] = &["psychic-energy", "fire-energy"];
    assert(strs_view(pri@) =~= energy_pri());
    assert(strs_view(both@) =~= psy_fire());
    find_energy_attach_by(state, legal, pri, both)
}

/// A Pokémon that can use Phantom Dive.
pub open spec fn dive_ready() -> spec_fn(PokemonInPlayDto) -> bool {
    |p: PokemonInPlayDto| can_phantom_dive_spec(p)
}

/// Retreat to attack: to the first bench Pokémon that can use Phantom Dive; or, with none
/// on the bench and a non-attacker active, to the first bench budew.
pub open spec fn retreat_spec(state: StateDto, legal: Seq<Action>) -> Option<int> {
    match state.me.active {
        None => None,
        Some(a) => if can_phantom_dive_spec(a) {
            None
        } else {
            let c1 = match first_where(state.me.bench@, dive_ready()) {
                Some(i) => retreat_to_spec(legal, i),
                None => None,
            };
            if c1 is Some {
                c1
            } else if !phantom_ready_bench(state) && !attacker_spec(a) {
                match first_where(state.me.bench@, mon_is("budew"@)) {
                    Some(i) => retreat_to_spec(legal, i),
                    None => None,
                }
            } else {
                None
            }
        },
    }
}

/// Index of the first bench Pokémon that satisfies `dive_ready`.
fn first_dive_ready(state: &StateDto) -> (r: Option<usize>)
    ensures
        opt_int(r) == first_where(state.me.bench@, dive_ready()),
        r matches Some(k) ==> k < state.me.bench@.len(),
{
    let mut i: usize = 0;
    while i < state.me.bench.len()
        invariant
            i <= state.me.bench@.len(),
            forall|j: int| 0 <= j < i ==> !dive_ready()(#[trigger] state.me.bench@[j]),
        decreases state.me.bench.len() - i,
    {
        if can_phantom_dive(&state.me.bench[i]) {
            proof {
                lemma_first_at(state.me.bench@, dive_ready(), i as int);
            }
            return Some(i);
        }
        i = i + 1;
    }
    proof {
        lemma_first_none(state.me.bench@, dive_ready());
    }
    None
}

/// Index of the first bench Pokémon of slug `slug`.
pub fn first_bench_of(state: &StateDto, slug: &str) -> (r: Option<usize>)
    ensures
        opt_int(r) == first_where(state.me.bench@, mon_is(slug@)),
        r matches Some(k) ==> k < state.me.bench@.len(),
{
    let mut i: usize = 0;
    while i < state.me.bench.len()
        invariant
            i <= state.me.bench@.len(),
            forall|j: int| 0 <= j < i ==> !mon_is(slug@)(#[trigger] state.me.bench@[j]),
        decreases state.me.bench.len() - i,
    {
        if card_is_exec(&state.me.bench[i].card, slug) {
            proof {
                lemma_first_at(state.me.bench@, mon_is(slug@), i as int);
            }
            return Some(i);
        }
        i = i + 1;
    }
    proof {
        lemma_first_none(state.me.bench@, mon_is(slug@));
    }
    None
}

/// Retreat to attack (see `retreat_spec`).
pub fn find_retreat(state: &StateDto, legal: &[Action]) -> (r: Option<usize>)
    ensures
        opt_int(r) == retreat_spec(*state, legal@),
        r matches Some(k) ==> k < legal@.len(),
{
    let active = match &state.me.active {
        Some(a) => a,
        None => return None,
    };
    if can_phantom_dive(active) {
        return None;
    }
    if let Some(idx) = first_dive_ready(state) {
        if let Some(a) = retreat_to(legal, idx) {
            return Some(a);
        }
    }
    if !p_phantom_ready_bench(state) && !active_is_attacker(active) {
        if let Some(idx) = first_bench_of(state, "budew") {
            return retreat_to(legal, idx);
        }
    }
    None
}

/// Energy to make a retreat possible: when I want to retreat (to a bench Pokémon that can
/// use Phantom Dive, or, with none and a non-attacker active, to a bench budew) and no
/// retreat is legal, one basic energy (psychic first) onto the active Pokémon.
pub open spec fn retreat_energy_spec(state: StateDto, legal: Seq<Action>) -> Option<int> {
    match state.me.active {
        None => None,
        Some(a) => if can_phantom_dive_spec(a) || any_retreat(legal) {
            None
        } else {
            let w1 = phantom_ready_bench(state);
            let w2 = !w1 && !attacker_spec(a) && first_where(state.me.bench@, mon_is("budew"@)) is Some;
            if w1 || w2 {
                first_attach_of(state, legal, psy_fire(), ActionTarget::OwnActive)
            } else {
                None
            }
        },
    }
}

/// Energy to make a retreat possible (see `retreat_energy_spec`).
pub fn find_retreat_energy(state: &StateDto, legal: &[Action]) -> (r: Option<usize>)
    ensures
        opt_int(r) == retreat_energy_spec(*state, legal@),
        r matches Some(k) ==> k < legal@.len(),
{
    let active = match &state.me.active {
        Some(a) => a,
        None => return None,
    };
    if can_phantom_dive(active) || has_retreat(legal) {
        return None;
    }
    let w1 = p_phantom_ready_bench(state);
    let w2 = !w1 && !active_is_attacker(active) && first_bench_of(state, "budew").is_some();
    if !(w1 || w2) {
        return None;
    }
    let both: &[&str] = &["psychic-energy", "fire-energy"];
    assert(strs_view(both@) =~= psy_fire());
    find_attach_of(state, legal, both, ActionTarget::OwnActive)
}

/// Goods in the order to use them.
pub open spec fn goods_pri() -> Seq<Seq<char>> {
    seq!["poke-pad"@, "buddy-buddy-poffin"@, "ultra-ball"@, "night-stretcher"@]
}

/// The first legal goods card in goods priority order.
pub fn find_goods(state: &StateDto, legal: &[Action]) -> (r: Option<usize>)
    ensures
        opt_int(r) == first_play_by_priority(*state, legal@, goods_pri()),
        r matches Some(k) ==> k < legal@.len(),
{
    let pri: &[&str] = &["poke-pad", "buddy-buddy-poffin", "ultra-ball", "night-stretcher"];
    assert(strs_view(pri@) =~= goods_pri());
    find_basic_placement(state, legal, pri)
}

} // verus!

verus! {

/// A dreepy with both a fire and a psychic energy.
pub open spec fn charged_dreepy() -> spec_fn(PokemonInPlayDto) -> bool {
    |p: PokemonInPlayDto| charged_spec(p, "dreepy"@)
}

/// Rare candy, case 1: a charged dreepy in play, a dragapult-ex in hand, none in play.
pub open spec fn rare_candy_case1_spec(state: StateDto) -> bool {
    &&& count_in_play_spec(state, "dragapult-ex"@) == 0
    &&& count_in_hand_spec(state, "dragapult-ex"@) >= 1
    &&& any_in_play(state.me, charged_dreepy())
}

/// Rare candy, case 2: a duskull in play and a dusknoir in hand.
pub open spec fn rare_candy_case2_spec(state: StateDto) -> bool {
    &&& count_in_hand_spec(state, "dusknoir"@) >= 1
    &&& any_in_play(state.me, mon_is("duskull"@))
}

/// Whether I have a charged dreepy in play.
fn has_charged_dreepy(state: &StateDto) -> (r: bool)
    ensures
        r == any_in_play(state.me, charged_dreepy()),
{
    proof {
        lemma_any_in_play(state.me, charged_dreepy());
    }
    if let Some(a) = &state.me.active {
        if charged(a, "dreepy") {
            return true;
        }
    }
    let mut i: usize = 0;
    while i < state.me.bench.len()
        invariant
            i <= state.me.bench@.len(),
            forall|j: int| 0 <= j < i ==> !charged_dreepy()(#[trigger] state.me.bench@[j]),
        decreases state.me.bench.len() - i,
    {
        if charged(&state.me.bench[i], "dreepy") {
            assert(charged_dreepy()(state.me.bench@[i as int]));
            return true;
        }
        i = i + 1;
    }
    false
}

/// Rare candy, case 1.
pub fn rare_candy_case1(state: &StateDto) -> (r: bool)
    requires
        board_fits(*state),
    ensures
        r == rare_candy_case1_spec(*state),
{
    count_in_play(state, "dragapult-ex") == 0 && count_in_hand(state, "dragapult-ex") >= 1
        && has_charged_dreepy(state)
}

/// Rare candy, case 2.
pub fn rare_candy_case2(state: &StateDto) -> (r: bool)
    ensures
        r == rare_candy_case2_spec(*state),
{
    count_in_hand(state, "dusknoir") >= 1 && me_has_in_play(state, "duskull")
}

/// A target that is my charged dreepy.
pub open spec fn candy_dreepy(state: StateDto) -> spec_fn(u32) -> bool {
    |t: u32| my_mon(state, t) matches Some(p) && charged_spec(p, "dreepy"@)
}

/// A target that is my duskull.
pub open spec fn candy_duskull(state: StateDto) -> spec_fn(u32) -> bool {
    |t: u32| my_mon(state, t) matches Some(p) && card_is(p.card, "duskull"@)
}

/// The basic Pokémon for rare candy: in case 1 the first target that is a charged dreepy,
/// else the first target that is a duskull.
pub open spec fn rare_candy_target_spec(state: Option<StateDto>, targets: Seq<u32>) -> Option<u32> {
    match state {
        None => None,
        Some(s) => {
            let c1 = if rare_candy_case1_spec(s) {
                find_first(targets, candy_dreepy(s))
            } else {
                None
            };
            if c1 is Some {
                c1
            } else {
                find_first(targets, candy_duskull(s))
            }
        },
    }
}

/// The basic Pokémon for rare candy (see `rare_candy_target_spec`).
pub fn pick_rare_candy_target(state: &Option<StateDto>, targets: &[u32]) -> (r: Option<u32>)
    requires
        state matches Some(s) ==> board_fits(*s),
    ensures
        r == rare_candy_target_spec(*state, targets@),
{
    let s = match state {
        Some(s) => s,
        None => return None,
    };
    if rare_candy_case1(s) {
        let mut i: usize = 0;
        while i < targets.len()
            invariant
                i <= targets@.len(),
                forall|j: int| 0 <= j < i ==> !candy_dreepy(*s)(#[trigger] targets@[j]),
            decreases targets.len() - i,
        {
            let hit = match my_in_play(s, targets[i]) {
                Some(p) => charged(p, "dreepy"),
                None => false,
            };
            if hit {
                proof {
                    lemma_first_at(targets@, candy_dreepy(*s), i as int);
                }
                return Some(targets[i]);
            }
            i = i + 1;
        }
        proof {
            lemma_first_none(targets@, candy_dreepy(*s));
        }
    }
    let mut i: usize = 0;
    while i < targets.len()
        invariant
            i <= targets@.len(),
            forall|j: int| 0 <= j < i ==> !candy_duskull(*s)(#[trigger] targets@[j]),
        decreases targets.len() - i,
    {
        let hit = match my_in_play(s, targets[i]) {
            Some(p) => card_is_exec(&p.card, "duskull"),
            None => false,
        };
        if hit {
            proof {
                lemma_first_at(targets@, candy_duskull(*s), i as int);
            }
            return Some(targets[i]);
        }
        i = i + 1;
    }
    proof {
        lemma_first_none(targets@, candy_duskull(*s));
    }
    None
}

/// A supporter refill is needed: no supporter in hand, or only boss's orders while
/// `P_bossUse` fails.
pub open spec fn refill_needed_spec(state: StateDto) -> bool {
    let l = count_in_hand_spec(state, "lillie-s-determination"@) >= 1;
    let c = count_in_hand_spec(state, "crispin"@) >= 1;
    let b = count_in_hand_spec(state, "boss-s-orders"@) >= 1;
    if !l && !c && !b {
        true
    } else {
        !l && !c && b && !boss_use(state)
    }
}

/// Whether a supporter refill is needed.
pub fn supporter_refill_needed(state: &StateDto) -> (r: bool)
    requires
        board_fits(*state),
    ensures
        r == refill_needed_spec(*state),
{
    let l = count_in_hand(state, "lillie-s-determination") >= 1;
    let c = count_in_hand(state, "crispin") >= 1;
    let b = count_in_hand(state, "boss-s-orders") >= 1;
    if !l && !c && !b {
        return true;
    }
    !l && !c && b && !p_boss_use(state)
}

/// A dragapult-ex that lacks fire or psychic.
pub open spec fn needy_dragapult() -> spec_fn(PokemonInPlayDto) -> bool {
    |p: PokemonInPlayDto|
        card_is(p.card, "dragapult-ex"@) && !(has_energy_spec(p, "fire-energy"@) && has_energy_spec(
            p,
            "psychic-energy"@,
        ))
}

/// Supporters to fetch with meowth-ex's ability: crispin when a dragapult-ex in play lacks
/// energy, boss's orders when `P_bossUse`, then lillie.
pub open spec fn okunote_spec(state: StateDto) -> Seq<Seq<char>> {
    let a: Seq<Seq<char>> = if any_in_play(state.me, needy_dragapult()) {
        seq!["crispin"@]
    } else {
        Seq::empty()
    };
    let b: Seq<Seq<char>> = if boss_use(state) {
        seq!["boss-s-orders"@]
    } else {
        Seq::empty()
    };
    a + b + seq!["lillie-s-determination"@]
}

/// Whether a dragapult-ex of mine lacks energy.
fn has_needy_dragapult(state: &StateDto) -> (r: bool)
    ensures
        r == any_in_play(state.me, needy_dragapult()),
{
    proof {
        lemma_any_in_play(state.me, needy_dragapult());
    }
    if let Some(a) = &state.me.active {
        if card_is_exec(&a.card, "dragapult-ex") && !(has_energy(a, "fire-energy") && has_energy(
            a,
            "psychic-energy",
        )) {
            return true;
        }
    }
    let mut i: usize = 0;
    while i < state.me.bench.len()
        invariant
            i <= state.me.bench@.len(),
            forall|j: int| 0 <= j < i ==> !needy_dragapult()(#[trigger] state.me.bench@[j]),
        decreases state.me.bench.len() - i,
    {
        let b = &state.me.bench[i];
        if card_is_exec(&b.card, "dragapult-ex") && !(has_energy(b, "fire-energy") && has_energy(
            b,
            "psychic-energy",
        )) {
            assert(needy_dragapult()(state.me.bench@[i as int]));
            return true;
        }
        i = i + 1;
    }
    false
}

/// Supporters to fetch with meowth-ex's ability (see `okunote_spec`).
pub fn okunote_supporter_priority(state: &StateDto) -> (r: Vec<&'static str>)
    requires
        board_fits(*state),
    ensures
        strs_view(r@) == okunote_spec(*state),
{
    let mut pri: Vec<&'static str> = Vec::new();
    if has_needy_dragapult(state) {
        pri.push("crispin");
    }
    if p_boss_use(state) {
        pri.push("boss-s-orders");
    }
    pri.push("lillie-s-determination");
    assert(strs_view(pri@) =~= okunote_spec(*state));
    pri
}

/// Meowth-ex to refill supporters: on my first turn when lillie is not in hand, later when
/// a refill is needed; the first legal play of a meowth-ex.
pub open spec fn meowth_spec(state: StateDto, legal: Seq<Action>) -> Option<int> {
    let need = if turn_number(state) <= 1 {
        count_in_hand_spec(state, "lillie-s-determination"@) == 0
    } else {
        refill_needed_spec(state)
    };
    if need {
        first_where(legal, plays(state, "meowth-ex"@))
    } else {
        None
    }
}

/// Meowth-ex to refill supporters (see `meowth_spec`).
pub fn find_meowth_okunote(state: &StateDto, legal: &[Action]) -> (r: Option<usize>)
    requires
        board_fits(*state),
    ensures
        opt_int(r) == meowth_spec(*state, legal@),
        r matches Some(k) ==> k < legal@.len(),
{
    let need = if my_turn_number(state) <= 1 {
        count_in_hand(state, "lillie-s-determination") == 0
    } else {
        supporter_refill_needed(state)
    };
    if !need {
        return None;
    }
    find_play(state, legal, "meowth-ex")
}

/// Jamming tower over the watchtower: from my third turn, with the watchtower in play, a
/// refill needed whose first pick is boss's orders, and meowth-ex playable, the first legal
/// play of a jamming tower (it brings meowth-ex's ability back).
pub open spec fn jamming_spec(state: StateDto, legal: Seq<Action>) -> Option<int> {
    if turn_number(state) < 3 {
        None
    } else if !(state.stadium matches Some(st) && card_is(st.card, "team-rocket-s-watchtower"@)) {
        None
    } else if !refill_needed_spec(state) || okunote_spec(state)[0] != "boss-s-orders"@ {
        None
    } else if first_where(legal, plays(state, "meowth-ex"@)) is None {
        None
    } else {
        first_where(legal, plays(state, "jamming-tower"@))
    }
}

/// Jamming tower over the watchtower (see `jamming_spec`).
pub fn find_jamming_override(state: &StateDto, legal: &[Action]) -> (r: Option<usize>)
    requires
        board_fits(*state),
    ensures
        opt_int(r) == jamming_spec(*state, legal@),
        r matches Some(k) ==> k < legal@.len(),
{
    if my_turn_number(state) < 3 {
        return None;
    }
    let watchtower = match &state.stadium {
        Some(st) => card_is_exec(&st.card, "team-rocket-s-watchtower"),
        None => false,
    };
    if !watchtower {
        return None;
    }
    if !supporter_refill_needed(state) {
        return None;
    }
    let pri = okunote_supporter_priority(state);
    proof {
        assert(okunote_spec(*state).len() >= 1);
        assert(strs_view(pri@).len() == pri@.len());
        assert(strs_view(pri@)[0] == pri@[0]@);
    }
    if !crate::util::str_eq(pri[0], "boss-s-orders") {
        return None;
    }
    if find_play(state, legal, "meowth-ex").is_none() {
        return None;
    }
    find_play(state, legal, "jamming-tower")
}

/// Disruption after the supporter: unfair stamp when one of mine was knocked out last turn,
/// special red card when the opponent has 3 prizes or fewer left, the watchtower when my
/// meowth-ex is in play and the opponent has none; each the first legal play of that card.
pub open spec fn disruption_options(state: StateDto, legal: Seq<Action>) -> Seq<int> {
    let a: Seq<int> = if state.me.had_ko_last_turn && first_where(
        legal,
        plays(state, "unfair-stamp"@),
    ) is Some {
        seq![first_where(legal, plays(state, "unfair-stamp"@))->0]
    } else {
        Seq::empty()
    };
    let b: Seq<int> = if state.opp.prizes@.len() <= 3 && first_where(
        legal,
        plays(state, "special-red-card"@),
    ) is Some {
        seq![first_where(legal, plays(state, "special-red-card"@))->0]
    } else {
        Seq::empty()
    };
    let c: Seq<int> = if count_in_play_spec(state, "meowth-ex"@) >= 1 && !any_in_play(
        state.opp,
        mon_is("meowth-ex"@),
    ) && first_where(legal, plays(state, "team-rocket-s-watchtower"@)) is Some {
        seq![first_where(legal, plays(state, "team-rocket-s-watchtower"@))->0]
    } else {
        Seq::empty()
    };
    a + b + c
}

/// The disruption options (see `disruption_options`), as indices of legal actions.
fn disruption_options_exec(state: &StateDto, legal: &[Action]) -> (r: Vec<usize>)
    requires
        board_fits(*state),
    ensures
        r@.map_values(|k: usize| k as int) == disruption_options(*state, legal@),
        forall|i: int| 0 <= i < r@.len() ==> #[trigger] r@[i] < legal@.len(),
{
    let mut v: Vec<usize> = Vec::new();
    if state.me.had_ko_last_turn {
        if let Some(k) = find_play(state, legal, "unfair-stamp") {
            v.push(k);
        }
    }
    if state.opp.prizes.len() <= 3 {
        if let Some(k) = find_play(state, legal, "special-red-card") {
            v.push(k);
        }
    }
    if count_in_play(state, "meowth-ex") >= 1 && !opp_has_in_play(state, "meowth-ex") {
        if let Some(k) = find_play(state, legal, "team-rocket-s-watchtower") {
            v.push(k);
        }
    }
    assert(v@.map_values(|k: usize| k as int) =~= disruption_options(*state, legal@));
    v
}

/// Disruption after the supporter: one of the disruption options, drawn at random.
pub fn find_disruption(state: &StateDto, legal: &[Action], rng: &mut ChaCha20Rng) -> (r: Option<usize>)
    requires
        board_fits(*state),
    ensures
        disruption_options(*state, legal@).len() == 0 ==> r is None,
        disruption_options(*state, legal@).len() > 0 ==> (r matches Some(k)
            && disruption_options(*state, legal@).contains(k as int)),
        r matches Some(k) ==> k < legal@.len(),
{
    let opts = disruption_options_exec(state, legal);
    if opts.len() == 0 {
        return None;
    }
    let j = draw_below(rng, 0, opts.len());
    assert(opts@.map_values(|k: usize| k as int)[j as int] == opts@[j as int] as int);
    Some(opts[j])
}

} // verus!

verus! {

// ============================================================================
// The bot and its memory
// ============================================================================

/// Progress through crispin's two attachment prompts (energy kept in hand, then the target).
#[derive(Debug, Clone, Copy, PartialEq, Eq, Structural)]
pub enum CrispinStage {
    Idle,
    KeepInHand,
    AttachTarget,
}

/// The fixed strategy bot for the dragapult-ex deck (Takeuchi persona).
pub struct DragapultTakeuchiBot {
    /// Card facts (attack indices by name).
    pub registry: CardFacts,
    /// Fallback for the decisions the persona leaves open.
    pub fallback: RandomPolicy,
    /// Target decided by the last action (boss's orders), for the next target prompt.
    pub pending_target: Option<u32>,
    /// Slug of the search card just played, for the next zone prompt.
    pub pending_search: Option<String>,
    /// The turn the per-turn flags belong to.
    pub current_turn: Option<u32>,
    /// A forced Cursed Bomb was just used: its target is random.
    pub pending_cursed_random: bool,
    /// Rare candy was just played: its basic Pokémon is picked by priority.
    pub pending_rare_candy: bool,
    /// Progress through crispin's attachment prompts.
    pub crispin_stage: CrispinStage,
    /// Target planned for crispin's attachment.
    pub crispin_attach_target: Option<u32>,
    /// Whether I go first (known from the setup prompts).
    pub am_i_first: Option<bool>,
}

/// The bot's memory as values.
pub struct TakeuchiMemory {
    pub pending_target: Option<u32>,
    pub pending_search: Option<Seq<char>>,
    pub current_turn: Option<u32>,
    pub pending_cursed_random: bool,
    pub pending_rare_candy: bool,
    pub crispin_stage: CrispinStage,
    pub crispin_attach_target: Option<u32>,
    pub am_i_first: Option<bool>,
}

impl View for DragapultTakeuchiBot {
    type V = TakeuchiMemory;

    open spec fn view(&self) -> TakeuchiMemory {
        TakeuchiMemory {
            pending_target: self.pending_target,
            pending_search: card_view(self.pending_search),
            current_turn: self.current_turn,
            pending_cursed_random: self.pending_cursed_random,
            pending_rare_candy: self.pending_rare_candy,
            crispin_stage: self.crispin_stage,
            crispin_attach_target: self.crispin_attach_target,
            am_i_first: self.am_i_first,
        }
    }
}

/// The memory of a new bot: nothing pending, nothing known.
pub open spec fn fresh_memory() -> TakeuchiMemory {
    TakeuchiMemory {
        pending_target: None,
        pending_search: None,
        current_turn: None,
        pending_cursed_random: false,
        pending_rare_candy: false,
        crispin_stage: CrispinStage::Idle,
        crispin_attach_target: None,
        am_i_first: None,
    }
}

/// `isFirstTurnGoingSecond`: I go second and this is my first turn.
pub open spec fn first_turn_going_second(m: TakeuchiMemory, state: StateDto) -> bool {
    m.am_i_first == Some(false) && turn_number(state) == 1
}

/// The budew condition: my first turn going second, or `P_phantomUnlikely`.
pub open spec fn budew_condition_spec(m: TakeuchiMemory, state: StateDto) -> bool {
    first_turn_going_second(m, state) || !phantom_ready_active(state)
}

/// Energy for my active dreepy on my first turn going first: psychic when it lacks
/// psychic, else fire when it lacks fire.
pub open spec fn t1_wanted(a: PokemonInPlayDto) -> Seq<Seq<char>> {
    if !has_energy_spec(a, "psychic-energy"@) {
        seq!["psychic-energy"@]
    } else if !has_energy_spec(a, "fire-energy"@) {
        seq!["fire-energy"@]
    } else {
        Seq::empty()
    }
}

/// On my first turn going first, energy onto my active dreepy (psychic first, never a
/// second of a type).
pub open spec fn t1_energy_spec(m: TakeuchiMemory, state: StateDto, legal: Seq<Action>) -> Option<int> {
    if !(turn_number(state) == 1 && m.am_i_first == Some(true)) {
        None
    } else {
        match state.me.active {
            Some(a) => if card_is(a.card, "dreepy"@) {
                first_attach_of(state, legal, t1_wanted(a), ActionTarget::OwnActive)
            } else {
                None
            },
            None => None,
        }
    }
}

/// An opposing Pokémon that boss's orders can bring up for a knock-out: no damage, not a
/// budew, 200 HP or less left.
pub open spec fn boss_target() -> spec_fn(PokemonInPlayDto) -> bool {
    |p: PokemonInPlayDto| p.damage == 0 && !card_is(p.card, "budew"@) && rem_hp(p) <= 200
}

/// Ids of the Pokémon of `s` that satisfy `f`, in order.
pub open spec fn ids_where(s: Seq<PokemonInPlayDto>, f: spec_fn(PokemonInPlayDto) -> bool) -> Seq<u32>
    decreases s.len(),
{
    if s.len() == 0 {
        Seq::empty()
    } else {
        let r = ids_where(s.drop_last(), f);
        if f(s.last()) {
            r.push(s.last().entity_id)
        } else {
            r
        }
    }
}

/// Boss's orders targets among the opposing Pokémon in play.
pub open spec fn boss_cands(state: StateDto) -> Seq<u32> {
    ids_where(in_play(state.opp), boss_target())
}

/// Boss's orders: its first legal play, when it has a target.
pub open spec fn boss_spec(state: StateDto, legal: Seq<Action>) -> Option<int> {
    if boss_cands(state).len() > 0 {
        first_where(legal, plays(state, "boss-s-orders"@))
    } else {
        None
    }
}

/// Whether `p` is a boss's orders target.
fn boss_target_exec(p: &PokemonInPlayDto) -> (r: bool)
    ensures
        r == boss_target()(*p),
{
    p.damage == 0 && !card_is_exec(&p.card, "budew") && remaining_hp(p) <= 200
}

/// Boss's orders targets.
fn boss_cands_exec(state: &StateDto) -> (r: Vec<u32>)
    ensures
        r@ == boss_cands(*state),
{
    let mut v: Vec<u32> = Vec::new();
    let ghost pre = front_seq(state.opp.active);
    if let Some(a) = &state.opp.active {
        if boss_target_exec(a) {
            v.push(a.entity_id);
        }
    }
    proof {
        if pre.len() > 0 {
            assert(pre.drop_last() =~= Seq::<PokemonInPlayDto>::empty());
            assert(ids_where(pre.drop_last(), boss_target()) == Seq::<u32>::empty());
            assert(pre.last() == state.opp.active->0);
        }
        assert(v@ =~= ids_where(pre, boss_target()));
    }
    let mut i: usize = 0;
    while i < state.opp.bench.len()
        invariant
            i <= state.opp.bench@.len(),
            v@ == ids_where(pre + state.opp.bench@.take(i as int), boss_target()),
        decreases state.opp.bench.len() - i,
    {
        proof {
            assert((pre + state.opp.bench@.take(i + 1)).drop_last() =~= pre + state.opp.bench@.take(
                i as int,
            ));
            assert((pre + state.opp.bench@.take(i + 1)).last() == state.opp.bench@[i as int]);
        }
        if boss_target_exec(&state.opp.bench[i]) {
            v.push(state.opp.bench[i].entity_id);
        }
        i = i + 1;
    }
    proof {
        assert(state.opp.bench@.take(i as int) =~= state.opp.bench@);
        assert(pre + state.opp.bench@ =~= in_play(state.opp));
    }
    v
}

/// The supporter for my third turn on: with Phantom Dive ready, boss's orders when
/// `P_bossUse` (and it has a target), else lillie with 4 cards or fewer in hand, else
/// crispin; without, crispin when a dragapult-ex is in play, else lillie.
pub open spec fn support_v5_spec(state: StateDto, legal: Seq<Action>) -> Option<int> {
    if phantom_ready(state) {
        let boss = if boss_use(state) {
            boss_spec(state, legal)
        } else {
            None
        };
        let lil = if !boss_use(state) && state.me.hand@.len() <= 4 {
            first_where(legal, plays(state, "lillie-s-determination"@))
        } else {
            None
        };
        if boss is Some {
            boss
        } else if lil is Some {
            lil
        } else {
            first_where(legal, plays(state, "crispin"@))
        }
    } else if count_in_play_spec(state, "dragapult-ex"@) >= 1 {
        first_where(legal, plays(state, "crispin"@))
    } else {
        first_where(legal, plays(state, "lillie-s-determination"@))
    }
}

/// The supporter step: meowth-ex to refill first; on my first turn lillie when going
/// second; on my second turn lillie, else crispin; later `support_v5_spec`.
pub open spec fn support_spec(m: TakeuchiMemory, state: StateDto, legal: Seq<Action>) -> Option<int> {
    if meowth_spec(state, legal) is Some {
        meowth_spec(state, legal)
    } else if turn_number(state) <= 1 {
        if m.am_i_first == Some(false) {
            first_where(legal, plays(state, "lillie-s-determination"@))
        } else {
            None
        }
    } else if turn_number(state) == 2 {
        if first_where(legal, plays(state, "lillie-s-determination"@)) is Some {
            first_where(legal, plays(state, "lillie-s-determination"@))
        } else {
            first_where(legal, plays(state, "crispin"@))
        }
    } else {
        support_v5_spec(state, legal)
    }
}

/// The supporter step plays boss's orders (and so picks its target).
pub open spec fn support_takes_boss(state: StateDto, legal: Seq<Action>) -> bool {
    &&& meowth_spec(state, legal) is None
    &&& turn_number(state) >= 3
    &&& phantom_ready(state)
    &&& boss_use(state)
    &&& boss_spec(state, legal) is Some
}

impl DragapultTakeuchiBot {
    /// A bot with the given card facts and an empty memory.
    pub fn new(registry: CardFacts) -> (r: Self)
        ensures
            r@ == fresh_memory(),
            r.registry@ == registry@,
    {
        DragapultTakeuchiBot {
            registry,
            fallback: RandomPolicy,
            pending_target: None,
            pending_search: None,
            current_turn: None,
            pending_cursed_random: false,
            pending_rare_candy: false,
            crispin_stage: CrispinStage::Idle,
            crispin_attach_target: None,
            am_i_first: None,
        }
    }

    /// `isFirstTurnGoingSecond`.
    pub fn is_first_turn_going_second(&self, state: &StateDto) -> (r: bool)
        ensures
            r == first_turn_going_second(self@, *state),
    {
        self.am_i_first == Some(false) && my_turn_number(state) == 1
    }

    /// The budew condition.
    pub fn budew_condition(&self, state: &StateDto) -> (r: bool)
        ensures
            r == budew_condition_spec(self@, *state),
    {
        self.is_first_turn_going_second(state) || p_phantom_unlikely(state)
    }

    /// Energy onto my active dreepy on my first turn going first.
    pub fn find_t1_active_energy(&self, state: &StateDto, legal: &[Action]) -> (r: Option<usize>)
        ensures
            opt_int(r) == t1_energy_spec(self@, *state, legal@),
            r matches Some(k) ==> k < legal@.len(),
    {
        if !(my_turn_number(state) == 1 && self.am_i_first == Some(true)) {
            return None;
        }
        let active = match &state.me.active {
            Some(a) => a,
            None => return None,
        };
        if !card_is_exec(&active.card, "dreepy") {
            return None;
        }
        let wanted: &[&str] = if !has_energy(active, "psychic-energy") {
            let w: &[&str] = &["psychic-energy"];
            assert(strs_view(w@) =~= seq!["psychic-energy"@]);
            w
        } else if !has_energy(active, "fire-energy") {
            let w: &[&str] = &["fire-energy"];
            assert(strs_view(w@) =~= seq!["fire-energy"@]);
            w
        } else {
            let w: &[&str] = &[];
            assert(strs_view(w@) =~= Seq::<Seq<char>>::empty());
            w
        };
        find_attach_of(state, legal, wanted, ActionTarget::OwnActive)
    }

    /// Boss's orders with a random target among `boss_cands`, kept for the next target
    /// prompt.
    fn find_boss(&mut self, state: &StateDto, legal: &[Action], rng: &mut ChaCha20Rng) -> (r: Option<
        usize,
    >)
        ensures
            opt_int(r) == boss_spec(*state, legal@),
            r matches Some(k) ==> k < legal@.len(),
            r is Some ==> (final(self).pending_target matches Some(t) && boss_cands(
                *state,
            ).contains(t)),
            r is None ==> final(self).pending_target == old(self).pending_target,
            final(self).registry == old(self).registry,
            final(self).pending_search == old(self).pending_search,
            final(self).current_turn == old(self).current_turn,
            final(self).pending_cursed_random == old(self).pending_cursed_random,
            final(self).pending_rare_candy == old(self).pending_rare_candy,
            final(self).crispin_stage == old(self).crispin_stage,
            final(self).crispin_attach_target == old(self).crispin_attach_target,
            final(self).am_i_first == old(self).am_i_first,
    {
        let boss = match find_play(state, legal, "boss-s-orders") {
            Some(k) => k,
            None => {
                return None;
            },
        };
        let cands = boss_cands_exec(state);
        if cands.len() == 0 {
            return None;
        }
        let j = draw_below(rng, 0, cands.len());
        self.pending_target = Some(cands[j]);
        Some(boss)
    }
}

} // verus!

verus! {

/// The memory `m` with the pending target replaced.
pub open spec fn with_target(m: TakeuchiMemory, t: Option<u32>) -> TakeuchiMemory {
    TakeuchiMemory { pending_target: t, ..m }
}

/// Forced Cursed Bomb: my active dusclops or dusknoir cannot retreat while a bench
/// Pokémon can use Phantom Dive or a budew is in play: the first legal ability of the
/// active Pokémon.
pub open spec fn forced_bomb_spec(state: StateDto, legal: Seq<Action>) -> Option<int> {
    match state.me.active {
        None => None,
        Some(a) => if !(card_is(a.card, "dusclops"@) || card_is(a.card, "dusknoir"@)) {
            None
        } else if any_retreat(legal) {
            None
        } else if !(phantom_ready_bench(state) || count_in_play_spec(state, "budew"@) >= 1) {
            None
        } else {
            first_where(legal, ability_of_entity(a.entity_id))
        },
    }
}

/// A `UseAbility` of entity `e`.
pub open spec fn ability_of_entity(e: u32) -> spec_fn(Action) -> bool {
    |a: Action|
        match a {
            Action::UseAbility { entity_id, .. } => entity_id.0 == e,
            _ => false,
        }
}

/// Index of the first legal `UseAbility` of entity `e`.
pub fn find_ability_of_entity(legal: &[Action], e: u32) -> (r: Option<usize>)
    ensures
        opt_int(r) == first_where(legal@, ability_of_entity(e)),
        r matches Some(k) ==> k < legal@.len(),
{
    let mut j: usize = 0;
    while j < legal.len()
        invariant
            j <= legal@.len(),
            forall|t: int| 0 <= t < j ==> !ability_of_entity(e)(#[trigger] legal@[t]),
        decreases legal.len() - j,
    {
        let hit = match &legal[j] {
            Action::UseAbility { entity_id, .. } => entity_id.0 == e,
            _ => false,
        };
        if hit {
            proof {
                lemma_first_at(legal@, ability_of_entity(e), j as int);
            }
            return Some(j);
        }
        j = j + 1;
    }
    proof {
        lemma_first_none(legal@, ability_of_entity(e));
    }
    None
}

/// Rare candy: its first legal play, in case 1 or case 2.
pub open spec fn rare_candy_spec(state: StateDto, legal: Seq<Action>) -> Option<int> {
    if rare_candy_case1_spec(state) || rare_candy_case2_spec(state) {
        first_where(legal, plays(state, "rare-candy"@))
    } else {
        None
    }
}

/// A valid order of basic Pokémon to place: on my second turn dreepy, budew, duskull; later
/// dreepy, duskull, budew; on my first turn dreepy, then duskull and budew in either order.
pub open spec fn valid_basic(state: StateDto, bp: Seq<Seq<char>>) -> bool {
    if turn_number(state) == 2 {
        bp == seq!["dreepy"@, "budew"@, "duskull"@]
    } else if turn_number(state) >= 3 {
        bp == seq!["dreepy"@, "duskull"@, "budew"@]
    } else {
        &&& bp.len() == 3
        &&& bp[0] == "dreepy"@
        &&& crate::rng::reorders(bp.skip(1), seq!["duskull"@, "budew"@])
    }
}

/// The order of basic Pokémon to place this turn (see `valid_basic`).
pub fn basic_priority(state: &StateDto, rng: &mut ChaCha20Rng) -> (r: Vec<&'static str>)
    ensures
        valid_basic(*state, strs_view(r@)),
{
    let n = my_turn_number(state);
    if n == 2 {
        let v: Vec<&'static str> = vec!["dreepy", "budew", "duskull"];
        assert(strs_view(v@) =~= seq!["dreepy"@, "budew"@, "duskull"@]);
        v
    } else if n >= 3 {
        let v: Vec<&'static str> = vec!["dreepy", "duskull", "budew"];
        assert(strs_view(v@) =~= seq!["dreepy"@, "duskull"@, "budew"@]);
        v
    } else {
        let pair: &[&'static str] = &["duskull", "budew"];
        let sh = shuffle_strs(pair, rng);
        proof {
            lemma_reorders_view(sh@, pair@);
            assert(strs_view(pair@) =~= seq!["duskull"@, "budew"@]);
        }
        let mut v: Vec<&'static str> = Vec::new();
        v.push("dreepy");
        let mut i: usize = 0;
        while i < sh.len()
            invariant
                i <= sh@.len(),
                v@ == seq!["dreepy"].add(sh@.take(i as int)),
            decreases sh.len() - i,
        {
            v.push(sh[i]);
            proof {
                assert(sh@.take(i + 1) =~= sh@.take(i as int).push(sh@[i as int]));
                assert(seq!["dreepy"].add(sh@.take(i + 1)) =~= seq!["dreepy"].add(sh@.take(i as int)).push(sh@[i as int]));
            }
            i = i + 1;
        }
        proof {
            assert(sh@.take(i as int) =~= sh@);
            assert(strs_view(v@).skip(1) =~= strs_view(sh@));
            assert(strs_view(v@)[0] == "dreepy"@);
        }
        v
    }
}

impl DragapultTakeuchiBot {
    /// The supporter step (see `support_spec`); boss's orders keeps its random target.
    pub fn find_support(&mut self, state: &StateDto, legal: &[Action], rng: &mut ChaCha20Rng) -> (r: Option<
        usize,
    >)
        requires
            board_fits(*state),
        ensures
            opt_int(r) == support_spec(old(self)@, *state, legal@),
            r matches Some(k) ==> k < legal@.len(),
            final(self).registry == old(self).registry,
            final(self)@ == with_target(old(self)@, final(self).pending_target),
            support_takes_boss(*state, legal@) ==> (final(self).pending_target matches Some(t)
                && boss_cands(*state).contains(t)),
            !support_takes_boss(*state, legal@) ==> final(self).pending_target == old(
                self,
            ).pending_target,
    {
        if let Some(a) = find_meowth_okunote(state, legal) {
            return Some(a);
        }
        let n = my_turn_number(state);
        if n <= 1 {
            if self.am_i_first == Some(false) {
                return find_play(state, legal, "lillie-s-determination");
            } else {
                return None;
            }
        }
        if n == 2 {
            if let Some(a) = find_play(state, legal, "lillie-s-determination") {
                return Some(a);
            }
            return find_play(state, legal, "crispin");
        }
        if p_phantom_ready_active(state) || p_phantom_ready_bench(state) {
            let bu = p_boss_use(state);
            if bu {
                if let Some(a) = self.find_boss(state, legal, rng) {
                    return Some(a);
                }
            } else if state.me.hand.len() <= 4 {
                if let Some(a) = find_play(state, legal, "lillie-s-determination") {
                    return Some(a);
                }
            }
            return find_play(state, legal, "crispin");
        }
        if count_in_play(state, "dragapult-ex") >= 1 {
            find_play(state, legal, "crispin")
        } else {
            find_play(state, legal, "lillie-s-determination")
        }
    }

    /// Forced Cursed Bomb (see `forced_bomb_spec`); its target will be random.
    pub fn find_forced_cursed_bomb(&mut self, state: &StateDto, legal: &[Action]) -> (r: Option<usize>)
        requires
            board_fits(*state),
        ensures
            opt_int(r) == forced_bomb_spec(*state, legal@),
            r matches Some(k) ==> k < legal@.len(),
            final(self).registry == old(self).registry,
            final(self)@ == (TakeuchiMemory {
                pending_cursed_random: old(self)@.pending_cursed_random || r is Some,
                ..old(self)@
            }),
    {
        let active = match &state.me.active {
            Some(a) => a,
            None => return None,
        };
        if !(card_is_exec(&active.card, "dusclops") || card_is_exec(&active.card, "dusknoir")) {
            return None;
        }
        if has_retreat(legal) {
            return None;
        }
        if !(p_phantom_ready_bench(state) || count_in_play(state, "budew") >= 1) {
            return None;
        }
        let r = find_ability_of_entity(legal, active.entity_id);
        if r.is_some() {
            self.pending_cursed_random = true;
        }
        r
    }

    /// Rare candy (see `rare_candy_spec`); its basic Pokémon will be picked by priority.
    pub fn find_rare_candy(&mut self, state: &StateDto, legal: &[Action]) -> (r: Option<usize>)
        requires
            board_fits(*state),
        ensures
            opt_int(r) == rare_candy_spec(*state, legal@),
            r matches Some(k) ==> k < legal@.len(),
            final(self).registry == old(self).registry,
            final(self)@ == (TakeuchiMemory {
                pending_rare_candy: old(self)@.pending_rare_candy || r is Some,
                ..old(self)@
            }),
    {
        let rc = match find_play(state, legal, "rare-candy") {
            Some(k) => k,
            None => return None,
        };
        if !(rare_candy_case1(state) || rare_candy_case2(state)) {
            return None;
        }
        self.pending_rare_candy = true;
        Some(rc)
    }
}

} // verus!

verus! {

// ============================================================================
// Deck search priorities
// ============================================================================

/// Appends `w` to `v`.
fn append_strs(v: &mut Vec<&'static str>, w: &Vec<&'static str>)
    ensures
        final(v)@ == old(v)@ + w@,
{
    let mut i: usize = 0;
    let ghost v0 = v@;
    while i < w.len()
        invariant
            i <= w@.len(),
            v@ == v0 + w@.take(i as int),
        decreases w.len() - i,
    {
        v.push(w[i]);
        proof {
            assert(w@.take(i + 1) =~= w@.take(i as int).push(w@[i as int]));
            assert(v0 + w@.take(i + 1) =~= (v0 + w@.take(i as int)).push(w@[i as int]));
        }
        i = i + 1;
    }
    proof {
        assert(w@.take(i as int) =~= w@);
    }
}

/// Poke pad, first tier (in a random order): budew under the budew condition, drakloak
/// when a dreepy can evolve.
pub open spec fn pad_top(m: TakeuchiMemory, state: StateDto) -> Seq<Seq<char>> {
    (if budew_condition_spec(m, state) {
        seq!["budew"@]
    } else {
        Seq::empty()
    }) + (if any_in_play(state.me, evolvable_dreepy()) {
        seq!["drakloak"@]
    } else {
        Seq::empty()
    })
}

/// Poke pad, second tier: dreepy without one in play; with two drakloak and a duskull in
/// play, dusknoir (rare candy in hand and a duskull on the bench) or dusclops and dusknoir
/// in a random order; with two drakloak and no duskull, duskull.
pub open spec fn pad_mid_ok(state: StateDto, mid: Seq<Seq<char>>) -> bool {
    let d2 = count_in_play_spec(state, "drakloak"@) >= 2;
    if count_in_play_spec(state, "dreepy"@) == 0 {
        mid == seq!["dreepy"@]
    } else if d2 && count_in_play_spec(state, "duskull"@) >= 1 {
        if count_in_hand_spec(state, "rare-candy"@) >= 1 && first_where(
            state.me.bench@,
            mon_is("duskull"@),
        ) is Some {
            mid == seq!["dusknoir"@]
        } else {
            crate::rng::reorders(mid, seq!["dusclops"@, "dusknoir"@])
        }
    } else if d2 {
        mid == seq!["duskull"@]
    } else {
        mid == Seq::<Seq<char>>::empty()
    }
}

/// Poke pad fetch order: the first tier shuffled, the second tier, then budew.
pub open spec fn pad_ok(m: TakeuchiMemory, state: StateDto, r: Seq<Seq<char>>) -> bool {
    let t = pad_top(m, state);
    &&& r.len() >= t.len() + 1
    &&& crate::rng::reorders(r.take(t.len() as int), t)
    &&& pad_mid_ok(state, r.subrange(t.len() as int, r.len() - 1))
    &&& r.last() == "budew"@
}

/// Buddy-buddy poffin fetch order: budew under the budew condition, dreepy, duskull when
/// three of the dragapult line are in play, then budew, duskull, dreepy.
pub open spec fn poffin_spec(m: TakeuchiMemory, state: StateDto) -> Seq<Seq<char>> {
    let line = count_in_play_spec(state, "dreepy"@) + count_in_play_spec(state, "drakloak"@)
        + count_in_play_spec(state, "dragapult-ex"@);
    (if budew_condition_spec(m, state) {
        seq!["budew"@]
    } else {
        Seq::empty()
    }) + seq!["dreepy"@] + (if line >= 3 {
        seq!["duskull"@]
    } else {
        Seq::empty()
    }) + seq!["budew"@, "duskull"@, "dreepy"@]
}

/// Ultra ball, first tier (in a random order): meowth-ex when no lillie or crispin is in
/// hand or when boss's orders wins; budew under the budew condition.
pub open spec fn ultra_top(m: TakeuchiMemory, state: StateDto) -> Seq<Seq<char>> {
    let no_usable = count_in_hand_spec(state, "lillie-s-determination"@) == 0 && count_in_hand_spec(
        state,
        "crispin"@,
    ) == 0;
    (if no_usable || boss_win(state) {
        seq!["meowth-ex"@]
    } else {
        Seq::empty()
    }) + (if budew_condition_spec(m, state) {
        seq!["budew"@]
    } else {
        Seq::empty()
    })
}

/// Ultra ball, the rest: drakloak with no dragapult-ex or drakloak in play; dragapult-ex for
/// an energized drakloak; dragapult-ex for an energized dreepy with rare candy in hand;
/// then dusclops, dusknoir, budew.
pub open spec fn ultra_rest(state: StateDto) -> Seq<Seq<char>> {
    (if count_in_play_spec(state, "dragapult-ex"@) == 0 && count_in_play_spec(state, "drakloak"@)
        == 0 {
        seq!["drakloak"@]
    } else {
        Seq::empty()
    }) + (if any_in_play(state.me, energized("drakloak"@)) {
        seq!["dragapult-ex"@]
    } else {
        Seq::empty()
    }) + (if any_in_play(state.me, energized("dreepy"@)) && count_in_hand_spec(
        state,
        "rare-candy"@,
    ) >= 1 {
        seq!["dragapult-ex"@]
    } else {
        Seq::empty()
    }) + seq!["dusclops"@, "dusknoir"@, "budew"@]
}

/// Ultra ball fetch order: the first tier shuffled, then the rest.
pub open spec fn ultra_ok(m: TakeuchiMemory, state: StateDto, r: Seq<Seq<char>>) -> bool {
    let t = ultra_top(m, state);
    &&& r.len() >= t.len()
    &&& crate::rng::reorders(r.take(t.len() as int), t)
    &&& r.skip(t.len() as int) == ultra_rest(state)
}

/// Fetch order for the search card `source`: poke pad, poffin, ultra ball, or the supporters
/// of meowth-ex's ability; nothing (a random pick) for other sources or without a board.
pub open spec fn fetch_ok(
    m: TakeuchiMemory,
    state: Option<StateDto>,
    source: Option<Seq<char>>,
    r: Option<Seq<Seq<char>>>,
) -> bool {
    match state {
        None => r is None,
        Some(s) => if source == Some("poke-pad"@) {
            r matches Some(v) && pad_ok(m, s, v)
        } else if source == Some("buddy-buddy-poffin"@) {
            r == Some(poffin_spec(m, s))
        } else if source == Some("ultra-ball"@) {
            r matches Some(v) && ultra_ok(m, s, v)
        } else if source == Some("okunote"@) {
            r == Some(okunote_spec(s))
        } else {
            r is None
        },
    }
}

impl DragapultTakeuchiBot {
    /// Poke pad fetch order (see `pad_ok`).
    pub fn poke_pad_fetch(&self, state: &StateDto, rng: &mut ChaCha20Rng) -> (r: Vec<&'static str>)
        requires
            board_fits(*state),
        ensures
            pad_ok(self@, *state, strs_view(r@)),
    {
        let mut top: Vec<&'static str> = Vec::new();
        if self.budew_condition(state) {
            top.push("budew");
        }
        if has_evolvable_dreepy(state) {
            top.push("drakloak");
        }
        assert(strs_view(top@) =~= pad_top(self@, *state));
        let mut pri = shuffle_strs(top.as_slice(), rng);
        proof {
            lemma_reorders_view(pri@, top@);
        }
        let ghost first = pri@;
        let mut mid: Vec<&'static str> = Vec::new();
        let d2 = count_in_play(state, "drakloak") >= 2;
        if count_in_play(state, "dreepy") == 0 {
            mid.push("dreepy");
            assert(strs_view(mid@) =~= seq!["dreepy"@]);
        } else if d2 && count_in_play(state, "duskull") >= 1 {
            let rare = count_in_hand(state, "rare-candy") >= 1;
            let duskull_bench = first_bench_of(state, "duskull").is_some();
            if rare && duskull_bench {
                mid.push("dusknoir");
                assert(strs_view(mid@) =~= seq!["dusknoir"@]);
            } else {
                let pair: &[&'static str] = &["dusclops", "dusknoir"];
                mid = shuffle_strs(pair, rng);
                proof {
                    lemma_reorders_view(mid@, pair@);
                    assert(strs_view(pair@) =~= seq!["dusclops"@, "dusknoir"@]);
                }
            }
        } else if d2 {
            mid.push("duskull");
            assert(strs_view(mid@) =~= seq!["duskull"@]);
        } else {
            assert(strs_view(mid@) =~= Seq::<Seq<char>>::empty());
        }
        append_strs(&mut pri, &mid);
        pri.push("budew");
        proof {
            let t = pad_top(self@, *state);
            assert(first.len() == t.len());
            assert(pri@ == first + mid@ + seq!["budew"]);
            assert(strs_view(pri@).take(t.len() as int) =~= strs_view(first));
            assert(strs_view(pri@).subrange(t.len() as int, strs_view(pri@).len() - 1) =~= strs_view(
                mid@,
            ));
        }
        pri
    }

    /// Buddy-buddy poffin fetch order (see `poffin_spec`).
    pub fn poffin_fetch(&self, state: &StateDto) -> (r: Vec<&'static str>)
        requires
            board_fits(*state),
        ensures
            strs_view(r@) == poffin_spec(self@, *state),
    {
        let mut pri: Vec<&'static str> = Vec::new();
        if self.budew_condition(state) {
            pri.push("budew");
        }
        pri.push("dreepy");
        let line = count_in_play(state, "dreepy") + count_in_play(state, "drakloak") + count_in_play(
            state,
            "dragapult-ex",
        );
        if line >= 3 {
            pri.push("duskull");
        }
        pri.push("budew");
        pri.push("duskull");
        pri.push("dreepy");
        assert(strs_view(pri@) =~= poffin_spec(self@, *state));
        pri
    }

    /// Ultra ball fetch order (see `ultra_ok`).
    pub fn ultra_ball_fetch(&self, state: &StateDto, rng: &mut ChaCha20Rng) -> (r: Vec<&'static str>)
        requires
            board_fits(*state),
        ensures
            ultra_ok(self@, *state, strs_view(r@)),
    {
        let mut top: Vec<&'static str> = Vec::new();
        let no_usable = count_in_hand(state, "lillie-s-determination") == 0 && count_in_hand(
            state,
            "crispin",
        ) == 0;
        if no_usable || p_boss_win(state) {
            top.push("meowth-ex");
        }
        if self.budew_condition(state) {
            top.push("budew");
        }
        assert(strs_view(top@) =~= ultra_top(self@, *state));
        let mut pri = shuffle_strs(top.as_slice(), rng);
        proof {
            lemma_reorders_view(pri@, top@);
        }
        let ghost first = pri@;
        let mut rest: Vec<&'static str> = Vec::new();
        if count_in_play(state, "dragapult-ex") == 0 && count_in_play(state, "drakloak") == 0 {
            rest.push("drakloak");
        }
        if energized_in_play(state, "drakloak") {
            rest.push("dragapult-ex");
        }
        if energized_in_play(state, "dreepy") && count_in_hand(state, "rare-candy") >= 1 {
            rest.push("dragapult-ex");
        }
        rest.push("dusclops");
        rest.push("dusknoir");
        rest.push("budew");
        assert(strs_view(rest@) =~= ultra_rest(*state));
        append_strs(&mut pri, &rest);
        proof {
            let t = ultra_top(self@, *state);
            assert(first.len() == t.len());
            assert(strs_view(pri@).take(t.len() as int) =~= strs_view(first));
            assert(strs_view(pri@).skip(t.len() as int) =~= strs_view(rest@));
        }
        pri
    }

    /// Fetch order for the search card just played (see `fetch_ok`).
    pub fn fetch_priority(
        &self,
        state: &Option<StateDto>,
        source: &Option<String>,
        rng: &mut ChaCha20Rng,
    ) -> (r: Option<Vec<&'static str>>)
        requires
            state matches Some(s) ==> board_fits(*s),
        ensures
            fetch_ok(
                self@,
                *state,
                card_view(*source),
                match r {
                    Some(v) => Some(strs_view(v@)),
                    None => None,
                },
            ),
    {
        let s = match state {
            Some(s) => s,
            None => return None,
        };
        if card_is_exec(source, "poke-pad") {
            Some(self.poke_pad_fetch(s, rng))
        } else if card_is_exec(source, "buddy-buddy-poffin") {
            Some(self.poffin_fetch(s))
        } else if card_is_exec(source, "ultra-ball") {
            Some(self.ultra_ball_fetch(s, rng))
        } else if card_is_exec(source, "okunote") {
            Some(okunote_supporter_priority(s))
        } else {
            None
        }
    }
}

} // verus!

verus! {

// ============================================================================
// Prompts: replacement active, initial active, attacks, crispin
// ============================================================================

/// My bench Pokémon with id `e` (the first one).
pub open spec fn bench_mon(state: StateDto, e: u32) -> Option<PokemonInPlayDto> {
    find_first(state.me.bench@, mon_id_is(e))
}

/// An option that is my bench Pokémon satisfying `f`.
pub open spec fn bench_opt(state: StateDto, f: spec_fn(PokemonInPlayDto) -> bool) -> spec_fn(u32) -> bool {
    |e: u32| bench_mon(state, e) matches Some(p) && f(p)
}

/// A Pokémon of slug `slug` with energy attached (as a `PokemonInPlayDto` predicate).
pub open spec fn dusk_mon() -> spec_fn(PokemonInPlayDto) -> bool {
    |p: PokemonInPlayDto| card_is(p.card, "dusclops"@) || card_is(p.card, "dusknoir"@)
}

/// A Pokémon with energy attached.
pub open spec fn has_any_energy() -> spec_fn(PokemonInPlayDto) -> bool {
    |p: PokemonInPlayDto| p.energy_attached@.len() > 0
}

/// The options that are my bench Pokémon with energy attached.
pub open spec fn energized_opts(state: StateDto, opts: Seq<u32>) -> Seq<u32>
    decreases opts.len(),
{
    if opts.len() == 0 {
        Seq::empty()
    } else {
        let r = energized_opts(state, opts.drop_last());
        if bench_opt(state, has_any_energy())(opts.last()) {
            r.push(opts.last())
        } else {
            r
        }
    }
}

/// The replacement on the opponent's turn: budew, then a Pokémon that can use Phantom Dive,
/// an energized drakloak, an energized dreepy, a dusclops or dusknoir, a duskull, a dreepy
/// (each the first such option).
pub open spec fn refill_opp_spec(state: StateDto, opts: Seq<u32>) -> Option<u32> {
    let fs = seq![
        bench_opt(state, mon_is("budew"@)),
        bench_opt(state, dive_ready()),
        bench_opt(state, energized("drakloak"@)),
        bench_opt(state, energized("dreepy"@)),
        bench_opt(state, dusk_mon()),
        bench_opt(state, mon_is("duskull"@)),
        bench_opt(state, mon_is("dreepy"@)),
    ];
    first_hit(opts, fs)
}

/// The first option that satisfies the first predicate of `fs` that any option satisfies.
pub open spec fn first_hit(opts: Seq<u32>, fs: Seq<spec_fn(u32) -> bool>) -> Option<u32>
    decreases fs.len(),
{
    if fs.len() == 0 {
        None
    } else {
        match find_first(opts, fs[0]) {
            Some(e) => Some(e),
            None => first_hit(opts, fs.drop_first()),
        }
    }
}

/// The replacement after a knock-out: on my own turn a budew, else a random energized
/// Pokémon; on the opponent's turn `refill_opp_spec`. Nothing without a board.
pub open spec fn refill_ok(state: Option<StateDto>, opts: Seq<u32>, r: Option<u32>) -> bool {
    match state {
        None => r is None,
        Some(s) => if s.active_player@ == "me"@ {
            match find_first(opts, bench_opt(s, mon_is("budew"@))) {
                Some(e) => r == Some(e),
                None => if energized_opts(s, opts).len() == 0 {
                    r is None
                } else {
                    r matches Some(e) && energized_opts(s, opts).contains(e)
                },
            }
        } else {
            r == refill_opp_spec(s, opts)
        },
    }
}

/// Tier `k` of the replacement on the opponent's turn, for option `e`.
fn refill_tier(state: &StateDto, e: u32, k: usize) -> (r: bool)
    requires
        k < 7,
    ensures
        r == (seq![
            bench_opt(*state, mon_is("budew"@)),
            bench_opt(*state, dive_ready()),
            bench_opt(*state, energized("drakloak"@)),
            bench_opt(*state, energized("dreepy"@)),
            bench_opt(*state, dusk_mon()),
            bench_opt(*state, mon_is("duskull"@)),
            bench_opt(*state, mon_is("dreepy"@)),
        ][k as int])(e),
{
    let idx = bench_index_of_pub(state.me.bench.as_slice(), e);
    proof {
        crate::util::lemma_first_where(state.me.bench@, mon_id_is(e));
    }
    let p = match idx {
        Some(i) => &state.me.bench[i],
        None => return false,
    };
    if k == 0 {
        card_is_exec(&p.card, "budew")
    } else if k == 1 {
        can_phantom_dive(p)
    } else if k == 2 {
        card_is_exec(&p.card, "drakloak") && p.energy_attached.len() > 0
    } else if k == 3 {
        card_is_exec(&p.card, "dreepy") && p.energy_attached.len() > 0
    } else if k == 4 {
        card_is_exec(&p.card, "dusclops") || card_is_exec(&p.card, "dusknoir")
    } else if k == 5 {
        card_is_exec(&p.card, "duskull")
    } else {
        card_is_exec(&p.card, "dreepy")
    }
}

/// The replacement after a knock-out (see `refill_ok`).
pub fn pick_refill_active(state: &Option<StateDto>, bench_options: &[u32], rng: &mut ChaCha20Rng) -> (r: Option<u32>)
    ensures
        refill_ok(*state, bench_options@, r),
{
    let s = match state {
        Some(s) => s,
        None => return None,
    };
    let ghost fs = seq![
        bench_opt(*s, mon_is("budew"@)),
        bench_opt(*s, dive_ready()),
        bench_opt(*s, energized("drakloak"@)),
        bench_opt(*s, energized("dreepy"@)),
        bench_opt(*s, dusk_mon()),
        bench_opt(*s, mon_is("duskull"@)),
        bench_opt(*s, mon_is("dreepy"@)),
    ];
    let mine = super::string_is(&s.active_player, "me");
    let mut k: usize = 0;
    proof {
        assert(fs.skip(0) =~= fs);
    }
    while k < 7
        invariant
            k <= 7,
            fs.len() == 7,
            first_hit(bench_options@, fs) == first_hit(bench_options@, fs.skip(k as int)),
            mine ==> k == 0,
        decreases 7 - k,
    {
        proof {
            assert(fs.skip(k as int).drop_first() =~= fs.skip(k + 1));
            assert(fs.skip(k as int)[0] == fs[k as int]);
        }
        let mut j: usize = 0;
        while j < bench_options.len()
            invariant
                j <= bench_options@.len(),
                k < 7,
                forall|t: int| 0 <= t < j ==> !fs[k as int](#[trigger] bench_options@[t]),
            decreases bench_options.len() - j,
        {
            if refill_tier(s, bench_options[j], k) {
                proof {
                    lemma_first_at(bench_options@, fs[k as int], j as int);
                    assert(find_first(bench_options@, fs[k as int]) == Some(bench_options@[j as int]));
                }
                return Some(bench_options[j]);
            }
            j = j + 1;
        }
        proof {
            lemma_first_none(bench_options@, fs[k as int]);
        }
        if mine {
            let mut en: Vec<u32> = Vec::new();
            let mut t: usize = 0;
            while t < bench_options.len()
                invariant
                    t <= bench_options@.len(),
                    en@ == energized_opts(*s, bench_options@.take(t as int)),
                decreases bench_options.len() - t,
            {
                proof {
                    assert(bench_options@.take(t + 1).drop_last() =~= bench_options@.take(t as int));
                    assert(bench_options@.take(t + 1).last() == bench_options@[t as int]);
                    crate::util::lemma_first_where(s.me.bench@, mon_id_is(bench_options@[t as int]));
                }
                let e = bench_options[t];
                let hit = match bench_index_of_pub(s.me.bench.as_slice(), e) {
                    Some(i) => s.me.bench[i].energy_attached.len() > 0,
                    None => false,
                };
                if hit {
                    en.push(e);
                }
                t = t + 1;
            }
            proof {
                assert(bench_options@.take(t as int) =~= bench_options@);
            }
            if en.len() == 0 {
                return None;
            }
            let j = draw_below(rng, 0, en.len());
            assert(en@.contains(en@[j as int]));
            return Some(en[j]);
        }
        k = k + 1;
    }
    proof {
        assert(fs.skip(7) =~= Seq::<spec_fn(u32) -> bool>::empty());
    }
    None
}

} // verus!

verus! {

/// Initial active priority when going first.
pub open spec fn active_pri_first() -> Seq<Seq<char>> {
    seq!["dreepy"@, "budew"@, "duskull"@, "fezandipiti-ex"@, "meowth-ex"@]
}

/// Initial active priority when going second.
pub open spec fn active_pri_second() -> Seq<Seq<char>> {
    seq!["budew"@, "dreepy"@, "duskull"@, "fezandipiti-ex"@, "meowth-ex"@]
}

/// The initial active Pokémon: by the priority for going first or second (I go first when
/// the board names me the active player); nothing without a board.
pub open spec fn initial_spec(p: PromptMsg, eligible: Seq<u32>) -> Option<u32> {
    match p.state {
        None => None,
        Some(s) => pick_by_priority_spec(
            s,
            eligible,
            if s.active_player@ == "me"@ {
                active_pri_first()
            } else {
                active_pri_second()
            },
        ),
    }
}

/// A legal use of attack `i`.
pub open spec fn uses_attack(i: u8) -> spec_fn(Action) -> bool {
    |a: Action|
        match a {
            Action::UseAttack { attack_index } => attack_index == i,
            _ => false,
        }
}

/// The first attack of `names` (in order) that the card facts know for `slug` and that is
/// legal: the index of that legal action.
pub open spec fn first_attack(
    reg: Map<Seq<char>, FactView>,
    slug: Seq<char>,
    names: Seq<Seq<char>>,
    legal: Seq<Action>,
) -> Option<int>
    decreases names.len(),
{
    if names.len() == 0 {
        None
    } else {
        match attack_index_spec(reg, slug, names[0]) {
            Some(i) => match first_where(legal, uses_attack(i)) {
                Some(k) => Some(k),
                None => first_attack(reg, slug, names.drop_first(), legal),
            },
            None => first_attack(reg, slug, names.drop_first(), legal),
        }
    }
}

/// The attack: with a dragapult-ex active, Phantom Dive, then Jet Head; with a budew active,
/// Itchy Pollen; nothing else.
pub open spec fn attack_spec(reg: Map<Seq<char>, FactView>, state: StateDto, legal: Seq<Action>) -> Option<
    int,
> {
    match state.me.active {
        Some(a) => match a.card {
            Some(c) => if c@ == "dragapult-ex"@ {
                first_attack(reg, c@, seq!["ファントムダイブ"@, "ジェットヘッド"@], legal)
            } else if c@ == "budew"@ {
                first_attack(reg, c@, seq!["むずむずかふん"@], legal)
            } else {
                None
            },
            None => None,
        },
        None => None,
    }
}

/// Index of the first legal use of attack `i`.
fn find_attack_use(legal: &[Action], i: u8) -> (r: Option<usize>)
    ensures
        opt_int(r) == first_where(legal@, uses_attack(i)),
        r matches Some(k) ==> k < legal@.len(),
{
    let mut j: usize = 0;
    while j < legal.len()
        invariant
            j <= legal@.len(),
            forall|t: int| 0 <= t < j ==> !uses_attack(i)(#[trigger] legal@[t]),
        decreases legal.len() - j,
    {
        let hit = match &legal[j] {
            Action::UseAttack { attack_index } => *attack_index == i,
            _ => false,
        };
        if hit {
            proof {
                lemma_first_at(legal@, uses_attack(i), j as int);
            }
            return Some(j);
        }
        j = j + 1;
    }
    proof {
        lemma_first_none(legal@, uses_attack(i));
    }
    None
}

/// The slug's views, whether it names a dragapult-ex or a budew.
pub fn first_attack_exec(reg: &CardFacts, slug: &str, names: &[&str], legal: &[Action]) -> (r: Option<usize>)
    ensures
        opt_int(r) == first_attack(reg@, slug@, strs_view(names@), legal@),
        r matches Some(k) ==> k < legal@.len(),
{
    let ghost nv = strs_view(names@);
    proof {
        assert(nv.skip(0) =~= nv);
    }
    let mut k: usize = 0;
    while k < names.len()
        invariant
            k <= names@.len(),
            nv == strs_view(names@),
            first_attack(reg@, slug@, nv, legal@) == first_attack(reg@, slug@, nv.skip(k as int), legal@),
        decreases names.len() - k,
    {
        proof {
            assert(nv.skip(k as int).drop_first() =~= nv.skip(k + 1));
            assert(nv.skip(k as int)[0] == names@[k as int]@);
        }
        if let Some(i) = reg.attack_index(slug, names[k]) {
            if let Some(j) = find_attack_use(legal, i) {
                return Some(j);
            }
        }
        k = k + 1;
    }
    None
}

/// A bench Pokémon in the order crispin attaches to: the active one first, then the bench.
pub open spec fn slug_mons(state: StateDto, slug: Seq<char>) -> Seq<PokemonInPlayDto> {
    active_if(state.me.active, slug) + mons_where(state.me.bench@, mon_is(slug))
}

/// The active Pokémon when it has slug `slug`, as a sequence of zero or one Pokémon.
pub open spec fn active_if(a: Option<PokemonInPlayDto>, slug: Seq<char>) -> Seq<PokemonInPlayDto> {
    match a {
        Some(x) => if card_is(x.card, slug) {
            seq![x]
        } else {
            Seq::empty()
        },
        None => Seq::empty(),
    }
}

/// The Pokémon of `s` that satisfy `f`, in order.
pub open spec fn mons_where(s: Seq<PokemonInPlayDto>, f: spec_fn(PokemonInPlayDto) -> bool) -> Seq<
    PokemonInPlayDto,
>
    decreases s.len(),
{
    if s.len() == 0 {
        Seq::empty()
    } else {
        let r = mons_where(s.drop_last(), f);
        if f(s.last()) {
            r.push(s.last())
        } else {
            r
        }
    }
}

/// crispin's attachment targets in order: dragapult-ex, drakloak, dreepy (active first
/// within a slug).
pub open spec fn crispin_mons(state: StateDto) -> Seq<PokemonInPlayDto> {
    slug_mons(state, "dragapult-ex"@) + slug_mons(state, "drakloak"@) + slug_mons(state, "dreepy"@)
}

/// The first of `mons` that lacks an energy type crispin offers: (energy, target), psychic
/// first.
pub open spec fn plan_seq(mons: Seq<PokemonInPlayDto>, fire_e: Option<u32>, psy_e: Option<u32>) -> Option<
    (u32, u32),
>
    decreases mons.len(),
{
    if mons.len() == 0 {
        None
    } else {
        let m = mons[0];
        if !has_energy_spec(m, "psychic-energy"@) && psy_e is Some {
            Some((psy_e->0, m.entity_id))
        } else if !has_energy_spec(m, "fire-energy"@) && fire_e is Some {
            Some((fire_e->0, m.entity_id))
        } else {
            plan_seq(mons.drop_first(), fire_e, psy_e)
        }
    }
}

/// The id of the first option with slug `slug`.
pub open spec fn energy_opt(options: Seq<EntityDto>, slug: Seq<char>) -> Option<u32> {
    match find_first(options, ent_is(slug)) {
        Some(o) => Some(o.entity_id),
        None => None,
    }
}

/// crispin's plan: the energy to keep for attachment and its target.
pub open spec fn plan_spec(state: StateDto, options: Seq<EntityDto>) -> Option<(u32, u32)> {
    plan_seq(
        crispin_mons(state),
        energy_opt(options, "fire-energy"@),
        energy_opt(options, "psychic-energy"@),
    )
}

/// The id of the first option with slug `slug`.
fn energy_opt_exec(options: &[EntityDto], slug: &str) -> (r: Option<u32>)
    ensures
        r == energy_opt(options@, slug@),
{
    let mut i: usize = 0;
    while i < options.len()
        invariant
            i <= options@.len(),
            forall|j: int| 0 <= j < i ==> !ent_is(slug@)(#[trigger] options@[j]),
        decreases options.len() - i,
    {
        if card_is_exec(&options[i].card, slug) {
            proof {
                lemma_first_at(options@, ent_is(slug@), i as int);
            }
            return Some(options[i].entity_id);
        }
        i = i + 1;
    }
    proof {
        lemma_first_none(options@, ent_is(slug@));
    }
    None
}

/// `plan_seq` for one Pokémon.
fn plan_one(m: &PokemonInPlayDto, fire_e: Option<u32>, psy_e: Option<u32>) -> (r: Option<(u32, u32)>)
    ensures
        r == plan_seq(seq![*m], fire_e, psy_e),
{
    assert(seq![*m].drop_first() =~= Seq::<PokemonInPlayDto>::empty());
    assert(plan_seq(Seq::<PokemonInPlayDto>::empty(), fire_e, psy_e) is None);
    if !has_energy(m, "psychic-energy") && psy_e.is_some() {
        return Some((psy_e.unwrap(), m.entity_id));
    }
    if !has_energy(m, "fire-energy") && fire_e.is_some() {
        return Some((fire_e.unwrap(), m.entity_id));
    }
    None
}

/// `plan_seq` over a concatenation: the first part decides when it plans anything.
pub proof fn lemma_plan_seq_add(a: Seq<PokemonInPlayDto>, b: Seq<PokemonInPlayDto>, f: Option<u32>, p: Option<u32>)
    ensures
        plan_seq(a + b, f, p) == (if plan_seq(a, f, p) is Some {
            plan_seq(a, f, p)
        } else {
            plan_seq(b, f, p)
        }),
    decreases a.len(),
{
    if a.len() > 0 {
        assert((a + b).drop_first() =~= a.drop_first() + b);
        assert((a + b)[0] == a[0]);
        lemma_plan_seq_add(a.drop_first(), b, f, p);
    } else {
        assert(a + b =~= b);
    }
}

/// crispin's plan over my Pokémon of slug `slug` (active first, then the bench).
fn plan_slug(state: &StateDto, slug: &str, fire_e: Option<u32>, psy_e: Option<u32>) -> (r: Option<(u32, u32)>)
    ensures
        r == plan_seq(slug_mons(*state, slug@), fire_e, psy_e),
{
    let ghost pre = active_if(state.me.active, slug@);
    proof {
        lemma_plan_seq_add(pre, mons_where(state.me.bench@, mon_is(slug@)), fire_e, psy_e);
    }
    if let Some(a) = &state.me.active {
        if card_is_exec(&a.card, slug) {
            if let Some(x) = plan_one(a, fire_e, psy_e) {
                return Some(x);
            }
        }
    }
    assert(plan_seq(pre, fire_e, psy_e) is None) by {
        if pre.len() > 0 {
            assert(pre.drop_first() =~= Seq::<PokemonInPlayDto>::empty());
        }
    }
    let ghost bench = state.me.bench@;
    proof {
        assert(bench.skip(0) =~= bench);
    }
    let mut i: usize = 0;
    while i < state.me.bench.len()
        invariant
            i <= bench.len(),
            bench == state.me.bench@,
            plan_seq(mons_where(bench, mon_is(slug@)), fire_e, psy_e) == plan_seq(
                mons_where(bench.skip(i as int), mon_is(slug@)),
                fire_e,
                psy_e,
            ),
        decreases bench.len() - i,
    {
        let b = &state.me.bench[i];
        proof {
            assert(bench.skip(i as int).drop_first() =~= bench.skip(i + 1));
            assert(bench.skip(i as int)[0] == bench[i as int]);
            lemma_mons_where_cons(bench.skip(i as int), mon_is(slug@));
            lemma_plan_seq_add(
                seq![bench[i as int]],
                mons_where(bench.skip(i + 1), mon_is(slug@)),
                fire_e,
                psy_e,
            );
        }
        if card_is_exec(&b.card, slug) {
            if let Some(x) = plan_one(b, fire_e, psy_e) {
                return Some(x);
            }
        }
        i = i + 1;
    }
    proof {
        assert(bench.skip(i as int) =~= Seq::<PokemonInPlayDto>::empty());
        assert(mons_where(Seq::<PokemonInPlayDto>::empty(), mon_is(slug@)) =~= Seq::<PokemonInPlayDto>::empty());
    }
    None
}

/// `mons_where` unfolded at the front.
pub proof fn lemma_mons_where_cons(s: Seq<PokemonInPlayDto>, f: spec_fn(PokemonInPlayDto) -> bool)
    requires
        s.len() > 0,
    ensures
        mons_where(s, f) == (if f(s[0]) {
            seq![s[0]] + mons_where(s.drop_first(), f)
        } else {
            mons_where(s.drop_first(), f)
        }),
    decreases s.len(),
{
    if s.len() == 1 {
        assert(s.drop_last() =~= Seq::<PokemonInPlayDto>::empty());
        assert(s.drop_first() =~= Seq::<PokemonInPlayDto>::empty());
        assert(mons_where(Seq::<PokemonInPlayDto>::empty(), f) =~= Seq::<PokemonInPlayDto>::empty());
        if f(s[0]) {
            assert(seq![s[0]] + Seq::<PokemonInPlayDto>::empty() =~= Seq::<PokemonInPlayDto>::empty().push(s[0]));
        }
    } else {
        lemma_mons_where_cons(s.drop_last(), f);
        assert(s.drop_last().drop_first() =~= s.drop_first().drop_last());
        assert(s.drop_first().last() == s.last());
        assert(s.drop_last()[0] == s[0]);
        if f(s[0]) {
            if f(s.last()) {
                assert((seq![s[0]] + mons_where(s.drop_first().drop_last(), f)).push(s.last()) =~= seq![s[0]] + mons_where(s.drop_first().drop_last(), f).push(s.last()));
            }
        }
    }
}

} // verus!

verus! {

/// Priority of crispin's attachment target.
pub open spec fn crispin_pri() -> Seq<Seq<char>> {
    seq!["dragapult-ex"@, "drakloak"@, "dreepy"@]
}

/// A random pick of between `min` and `max` of the options (clipped), at distinct positions.
pub open spec fn random_pick_ok(options: Seq<EntityDto>, min: u8, max: u8, c: PromptChoice) -> bool {
    let ids = ids_of(options);
    &&& ids.len() == 0 ==> c.selected@.len() == 0
    &&& subset_lo(ids.len(), min) <= c.selected@.len() <= subset_hi(ids.len(), min, max)
    &&& picks_distinct(c.selected@, ids)
    &&& c.counts@ == Seq::<u8>::empty()
    &&& c.yes is None
    &&& c.branch_index is None
}

/// A random pick of the options.
pub fn random_pick(options: &[EntityDto], min: u8, max: u8, rng: &mut ChaCha20Rng) -> (r: PromptChoice)
    ensures
        random_pick_ok(options@, min, max, r),
{
    let ids = entity_ids(options);
    let sel = pick_random_subset(rng, ids.as_slice(), min, max);
    choice_of(sel)
}

/// The energy of a plan.
pub open spec fn planned_energy(plan: Option<(u32, u32)>) -> u32 {
    match plan {
        Some((e, _)) => e,
        None => 0,
    }
}

/// The target of a plan.
pub open spec fn planned_target(plan: Option<(u32, u32)>) -> u32 {
    match plan {
        Some((_, t)) => t,
        None => 0,
    }
}

/// The keep-in-hand prompt of crispin: with a plan and a one-card prompt, the planned
/// energy, remembering its target; otherwise a random pick and no target.
pub open spec fn keep_in_hand_ok(
    m: TakeuchiMemory,
    p: PromptMsg,
    options: Seq<EntityDto>,
    m2: TakeuchiMemory,
    c: PromptChoice,
) -> bool {
    let plan = match p.state {
        Some(s) => plan_spec(s, options),
        None => None,
    };
    &&& m2 == TakeuchiMemory {
        crispin_stage: CrispinStage::AttachTarget,
        crispin_attach_target: m2.crispin_attach_target,
        ..m
    }
    &&& if plan is Some && p.max == 1 {
        &&& m2.crispin_attach_target == Some(planned_target(plan))
        &&& selects(c, seq![planned_energy(plan)])
    } else {
        &&& m2.crispin_attach_target is None
        &&& random_pick_ok(options, p.min, p.max, c)
    }
}

/// The attach-target prompt of crispin: the remembered target when it is an option, else
/// my Pokémon by crispin's priority among the options, else a random option; the target is
/// forgotten and the stage ends.
pub open spec fn attach_target_ok(
    m: TakeuchiMemory,
    p: PromptMsg,
    options: Seq<EntityDto>,
    m2: TakeuchiMemory,
    c: PromptChoice,
) -> bool {
    let remembered = match m.crispin_attach_target {
        Some(t) => if in_options(options, t) {
            Some(t)
        } else {
            None
        },
        None => None,
    };
    let by_pri = match p.state {
        Some(s) => own_by_priority(s, options, crispin_pri()),
        None => None,
    };
    &&& m2 == TakeuchiMemory {
        crispin_stage: CrispinStage::Idle,
        crispin_attach_target: None,
        ..m
    }
    &&& if remembered is Some {
        selects(c, seq![remembered->0])
    } else if by_pri is Some {
        selects(c, seq![by_pri->0])
    } else if options.len() > 0 {
        exists|j: int| 0 <= j < options.len() && selects(c, seq![#[trigger] options[j].entity_id])
    } else {
        fallback_ok(p, c)
    }
}

impl DragapultTakeuchiBot {
    /// crispin's plan: the energy to keep for attachment and its target (see `plan_spec`).
    pub fn plan_crispin_attach(&self, state: &StateDto, options: &[EntityDto]) -> (r: Option<(u32, u32)>)
        ensures
            r == plan_spec(*state, options@),
    {
        let fire_e = energy_opt_exec(options, "fire-energy");
        let psy_e = energy_opt_exec(options, "psychic-energy");
        proof {
            lemma_plan_seq_add(
                slug_mons(*state, "dragapult-ex"@) + slug_mons(*state, "drakloak"@),
                slug_mons(*state, "dreepy"@),
                fire_e,
                psy_e,
            );
            lemma_plan_seq_add(slug_mons(*state, "dragapult-ex"@), slug_mons(*state, "drakloak"@), fire_e, psy_e);
        }
        if let Some(x) = plan_slug(state, "dragapult-ex", fire_e, psy_e) {
            return Some(x);
        }
        if let Some(x) = plan_slug(state, "drakloak", fire_e, psy_e) {
            return Some(x);
        }
        plan_slug(state, "dreepy", fire_e, psy_e)
    }

    /// The initial active Pokémon (see `initial_spec`).
    pub fn pick_initial_active(&self, p: &PromptMsg, eligible: &[u32]) -> (r: Option<PromptChoice>)
        ensures
            match initial_spec(*p, eligible@) {
                Some(e) => r matches Some(c) && selects(c, seq![e]),
                None => r is None,
            },
    {
        let state = match &p.state {
            Some(s) => s,
            None => return None,
        };
        let first: &[&str] = &["dreepy", "budew", "duskull", "fezandipiti-ex", "meowth-ex"];
        let second: &[&str] = &["budew", "dreepy", "duskull", "fezandipiti-ex", "meowth-ex"];
        assert(strs_view(first@) =~= active_pri_first());
        assert(strs_view(second@) =~= active_pri_second());
        let priority = if super::string_is(&state.active_player, "me") {
            first
        } else {
            second
        };
        match pick_by_slug_priority(state, eligible, priority) {
            Some(e) => Some(choice_one(e)),
            None => None,
        }
    }

    /// The attack to use (see `attack_spec`).
    pub fn find_attack(&self, state: &StateDto, legal: &[Action]) -> (r: Option<usize>)
        ensures
            opt_int(r) == attack_spec(self.registry@, *state, legal@),
            r matches Some(k) ==> k < legal@.len(),
    {
        let active = match &state.me.active {
            Some(a) => a,
            None => return None,
        };
        let slug = match &active.card {
            Some(c) => c,
            None => return None,
        };
        if super::string_is(slug, "dragapult-ex") {
            let names: &[&str] = &["ファントムダイブ", "ジェットヘッド"];
            assert(strs_view(names@) =~= seq!["ファントムダイブ"@, "ジェットヘッド"@]);
            first_attack_exec(&self.registry, slug.as_str(), names, legal)
        } else if super::string_is(slug, "budew") {
            let names: &[&str] = &["むずむずかふん"];
            assert(strs_view(names@) =~= seq!["むずむずかふん"@]);
            first_attack_exec(&self.registry, slug.as_str(), names, legal)
        } else {
            None
        }
    }

    /// The keep-in-hand prompt of crispin (see `keep_in_hand_ok`).
    fn crispin_keep_in_hand(&mut self, p: &PromptMsg, options: &[EntityDto], rng: &mut ChaCha20Rng) -> (r: PromptChoice)
        ensures
            keep_in_hand_ok(old(self)@, *p, options@, final(self)@, r),
            final(self).registry == old(self).registry,
    {
        let plan = match &p.state {
            Some(s) => self.plan_crispin_attach(s, options),
            None => None,
        };
        self.crispin_stage = CrispinStage::AttachTarget;
        if let Some((energy_e, target_e)) = plan {
            if p.max == 1 {
                self.crispin_attach_target = Some(target_e);
                return choice_one(energy_e);
            }
        }
        self.crispin_attach_target = None;
        random_pick(options, p.min, p.max, rng)
    }

    /// The attach-target prompt of crispin (see `attach_target_ok`).
    fn crispin_attach_target_choice(&mut self, p: &PromptMsg, options: &[EntityDto], rng: &mut ChaCha20Rng) -> (r: PromptChoice)
        ensures
            attach_target_ok(old(self)@, *p, options@, final(self)@, r),
            final(self).registry == old(self).registry,
    {
        self.crispin_stage = CrispinStage::Idle;
        let remembered = self.crispin_attach_target;
        self.crispin_attach_target = None;
        if let Some(t) = remembered {
            if option_has(options, t) {
                return choice_one(t);
            }
        }
        if let Some(s) = &p.state {
            let pri: &[&str] = &["dragapult-ex", "drakloak", "dreepy"];
            assert(strs_view(pri@) =~= crispin_pri());
            if let Some(t) = pick_own_by_priority(s, options, pri) {
                return choice_one(t);
            }
        }
        if options.len() > 0 {
            let j = draw_below(rng, 0, options.len());
            return choice_one(options[j].entity_id);
        }
        fallback_prompt(p, rng)
    }
}

} // verus!

verus! {

/// The names of an optional list of slugs.
pub open spec fn opt_names(fo: Option<Vec<&'static str>>) -> Option<Seq<Seq<char>>> {
    match fo {
        Some(v) => Some(strs_view(v@)),
        None => None,
    }
}

/// The memory `m` with the pending search replaced.
pub open spec fn with_search(m: TakeuchiMemory, s: Option<Seq<char>>) -> TakeuchiMemory {
    TakeuchiMemory { pending_search: s, ..m }
}

/// The zone prompt: crispin's two attachment prompts first; a hand-discard cost is a random
/// pick; after crispin, psychic and fire energy (the keep-in-hand prompt comes next when two
/// were taken); after another search card, its fetch order; otherwise the fallback. The
/// pending search is consumed.
pub open spec fn zone_ok(
    m: TakeuchiMemory,
    p: PromptMsg,
    options: Seq<EntityDto>,
    m2: TakeuchiMemory,
    c: PromptChoice,
) -> bool {
    if m.crispin_stage == CrispinStage::KeepInHand {
        keep_in_hand_ok(m, p, options, m2, c)
    } else if m.crispin_stage == CrispinStage::AttachTarget {
        attach_target_ok(m, p, options, m2, c)
    } else if hand_discard_spec(p, options) {
        m2 == m && random_pick_ok(options, p.min, p.max, c)
    } else {
        let m1 = with_search(m, None);
        if m.pending_search == Some("crispin"@) {
            let sel = pick_from_zone_spec(options, psy_fire(), p.min, p.max);
            &&& selects(c, sel)
            &&& m2 == (TakeuchiMemory {
                crispin_stage: if sel.len() >= 2 {
                    CrispinStage::KeepInHand
                } else {
                    m.crispin_stage
                },
                ..m1
            })
        } else {
            &&& m2 == m1
            &&& exists|fo: Option<Seq<Seq<char>>>|
                #[trigger] fetch_ok(m1, p.state, m.pending_search, fo) && match fo {
                    Some(pri) => selects(c, pick_from_zone_spec(options, pri, p.min, p.max)),
                    None => fallback_ok(p, c),
                }
        }
    }
}

/// An answer that selects one of `targets`, or the fallback when there is none.
pub open spec fn random_target_ok(p: PromptMsg, targets: Seq<u32>, c: PromptChoice) -> bool {
    if targets.len() > 0 {
        exists|t: u32| targets.contains(t) && #[trigger] selects(c, seq![t])
    } else {
        fallback_ok(p, c)
    }
}

/// The target prompt: after rare candy, its basic Pokémon by priority (else random); after
/// a forced Cursed Bomb, a random target; otherwise the pending target when offered, else
/// the snipe priority, else random. Each flag or pending target is consumed.
pub open spec fn target_ok(
    m: TakeuchiMemory,
    p: PromptMsg,
    targets: Seq<u32>,
    m2: TakeuchiMemory,
    c: PromptChoice,
) -> bool {
    if m.pending_rare_candy {
        let rc = rare_candy_target_spec(p.state, targets);
        &&& m2 == (TakeuchiMemory { pending_rare_candy: false, ..m })
        &&& if rc is Some {
            selects(c, seq![rc->0])
        } else {
            random_target_ok(p, targets, c)
        }
    } else if m.pending_cursed_random {
        &&& m2 == (TakeuchiMemory { pending_cursed_random: false, ..m })
        &&& random_target_ok(p, targets, c)
    } else {
        let pt = match m.pending_target {
            Some(t) => if targets.contains(t) {
                Some(t)
            } else {
                None
            },
            None => None,
        };
        let sn = match p.state {
            Some(s) => snipe_spec(s, targets),
            None => None,
        };
        &&& m2 == with_target(m, None)
        &&& if pt is Some {
            selects(c, seq![pt->0])
        } else if sn is Some {
            selects(c, seq![sn->0])
        } else {
            random_target_ok(p, targets, c)
        }
    }
}

impl DragapultTakeuchiBot {
    /// The zone prompt (see `zone_ok`).
    pub fn choose_from_zone(&mut self, p: &PromptMsg, options: &[EntityDto], rng: &mut ChaCha20Rng) -> (r: PromptChoice)
        requires
            p.state matches Some(s) ==> board_fits(s),
        ensures
            zone_ok(old(self)@, *p, options@, final(self)@, r),
            final(self).registry == old(self).registry,
    {
        if self.crispin_stage == CrispinStage::KeepInHand {
            return self.crispin_keep_in_hand(p, options, rng);
        }
        if self.crispin_stage == CrispinStage::AttachTarget {
            return self.crispin_attach_target_choice(p, options, rng);
        }
        if is_hand_discard(p, options) {
            return random_pick(options, p.min, p.max, rng);
        }
        let ghost m0 = self@;
        let source = self.pending_search.take();
        if card_is_exec(&source, "crispin") {
            let both: &[&str] = &["psychic-energy", "fire-energy"];
            assert(strs_view(both@) =~= psy_fire());
            let choice = pick_from_zone(options, both, p.min, p.max);
            if choice.selected.len() >= 2 {
                self.crispin_stage = CrispinStage::KeepInHand;
            }
            return choice;
        }
        let fo = self.fetch_priority(&p.state, &source, rng);
        let ghost fov = opt_names(fo);
        let r = match fo {
            Some(pri) => pick_from_zone(options, pri.as_slice(), p.min, p.max),
            None => fallback_prompt(p, rng),
        };
        assert(fetch_ok(with_search(m0, None), p.state, m0.pending_search, fov));
        r
    }

    /// A random target, or the fallback when there is none.
    fn random_target(&mut self, p: &PromptMsg, targets: &[u32], rng: &mut ChaCha20Rng) -> (r: PromptChoice)
        ensures
            random_target_ok(*p, targets@, r),
            *final(self) == *old(self),
    {
        match random_member(targets, rng) {
            Some(t) => {
                let c = choice_one(t);
                assert(selects(c, seq![t]));
                c
            },
            None => fallback_prompt(p, rng),
        }
    }

    /// The target prompt (see `target_ok`).
    pub fn choose_target(&mut self, p: &PromptMsg, targets: &[u32], rng: &mut ChaCha20Rng) -> (r: PromptChoice)
        requires
            p.state matches Some(s) ==> board_fits(s),
        ensures
            target_ok(old(self)@, *p, targets@, final(self)@, r),
            final(self).registry == old(self).registry,
    {
        if self.pending_rare_candy {
            self.pending_rare_candy = false;
            if let Some(t) = pick_rare_candy_target(&p.state, targets) {
                return choice_one(t);
            }
            return self.random_target(p, targets, rng);
        }
        if self.pending_cursed_random {
            self.pending_cursed_random = false;
            return self.random_target(p, targets, rng);
        }
        let pending = self.pending_target;
        self.pending_target = None;
        if let Some(t) = pending {
            if contains_u32(targets, t) {
                return choice_one(t);
            }
        }
        if let Some(t) = pick_snipe_target(p, targets) {
            return choice_one(t);
        }
        self.random_target(p, targets, rng)
    }
}

} // verus!

verus! {

/// How the bot answers a prompt and what it remembers (random parts as relations).
pub open spec fn takeuchi_prompt_ok(m: TakeuchiMemory, p: PromptMsg, m2: TakeuchiMemory, c: PromptChoice) -> bool {
    match p.kind {
        PromptDto::ChooseFirstOrSecond => {
            &&& m2 == (TakeuchiMemory { am_i_first: Some(false), ..m })
            &&& c.selected@.len() == 0 && c.counts@.len() == 0 && c.yes == Some(false)
                && c.branch_index is None
        },
        PromptDto::ChooseInitialActive { eligible } => {
            &&& m2 == (match p.state {
                Some(s) => TakeuchiMemory { am_i_first: Some(s.active_player@ == "me"@), ..m },
                None => m,
            })
            &&& match initial_spec(p, eligible@) {
                Some(e) => selects(c, seq![e]),
                None => fallback_ok(p, c),
            }
        },
        PromptDto::DistributeDamage { eligible, total, per_target_max } => {
            &&& m2 == m
            &&& match distribute_spec(p, eligible@, total, per_target_max) {
                Some((ids, counts)) => c.selected@ == ids && c.counts@ == counts && c.yes is None
                    && c.branch_index is None,
                None => fallback_ok(p, c),
            }
        },
        PromptDto::ChooseFromZone { options, .. } => zone_ok(m, p, options@, m2, c),
        PromptDto::ChooseTargetPokemon { targets } => target_ok(m, p, targets@, m2, c),
        PromptDto::ReplaceActiveAfterKo { bench_options } => {
            &&& m2 == m
            &&& exists|e: Option<u32>|
                #[trigger] refill_ok(p.state, bench_options@, e) && match e {
                    Some(x) => selects(c, seq![x]),
                    None => fallback_ok(p, c),
                }
        },
        _ => m2 == m && fallback_ok(p, c),
    }
}

impl DragapultTakeuchiBot {
    /// Answers a prompt (see `takeuchi_prompt_ok`).
    pub fn choose_prompt(&mut self, p: &PromptMsg, rng: &mut ChaCha20Rng) -> (r: PromptChoice)
        requires
            p.state matches Some(s) ==> board_fits(s),
        ensures
            takeuchi_prompt_ok(old(self)@, *p, final(self)@, r),
            final(self).registry == old(self).registry,
    {
        match &p.kind {
            PromptDto::ChooseFirstOrSecond => {
                self.am_i_first = Some(false);
                PromptChoice { selected: Vec::new(), counts: Vec::new(), yes: Some(false), branch_index: None }
            },
            PromptDto::ChooseInitialActive { eligible } => {
                if let Some(s) = &p.state {
                    self.am_i_first = Some(super::string_is(&s.active_player, "me"));
                }
                match self.pick_initial_active(p, eligible.as_slice()) {
                    Some(c) => c,
                    None => fallback_prompt(p, rng),
                }
            },
            PromptDto::DistributeDamage { eligible, total, per_target_max } => {
                match distribute_damage_low_hp_first(p, eligible.as_slice(), *total, *per_target_max) {
                    Some(c) => c,
                    None => fallback_prompt(p, rng),
                }
            },
            PromptDto::ChooseFromZone { options, .. } => self.choose_from_zone(p, options.as_slice(), rng),
            PromptDto::ChooseTargetPokemon { targets } => self.choose_target(p, targets.as_slice(), rng),
            PromptDto::ReplaceActiveAfterKo { bench_options } => {
                let e = pick_refill_active(&p.state, bench_options.as_slice(), rng);
                let c = match e {
                    Some(x) => choice_one(x),
                    None => fallback_prompt(p, rng),
                };
                assert(refill_ok(p.state, bench_options@, e));
                c
            },
            _ => fallback_prompt(p, rng),
        }
    }
}

} // verus!

verus! {

/// Evolution priority: dragapult-ex, drakloak, dusclops, dusknoir.
pub open spec fn evolve_pri() -> Seq<Seq<char>> {
    seq!["dragapult-ex"@, "drakloak"@, "dusclops"@, "dusknoir"@]
}

/// The per-turn memory is cleared when the turn changes.
pub open spec fn turn_reset(m: TakeuchiMemory, turn: u32) -> TakeuchiMemory {
    if m.current_turn != Some(turn) {
        TakeuchiMemory {
            current_turn: Some(turn),
            pending_cursed_random: false,
            pending_rare_candy: false,
            crispin_stage: CrispinStage::Idle,
            crispin_attach_target: None,
            pending_target: None,
            pending_search: None,
            ..m
        }
    } else {
        m
    }
}

/// The random choices of one action: the order of basic Pokémon, the disruption card,
/// boss's orders' target.
pub struct TakeuchiDraws {
    pub basic: Seq<Seq<char>>,
    pub disruption: int,
    pub boss_target: u32,
}

/// Draws the strategy allows.
pub open spec fn draws_ok(state: StateDto, legal: Seq<Action>, d: TakeuchiDraws) -> bool {
    &&& valid_basic(state, d.basic)
    &&& disruption_options(state, legal).len() > 0 ==> disruption_options(state, legal).contains(
        d.disruption,
    )
    &&& boss_cands(state).len() > 0 ==> boss_cands(state).contains(d.boss_target)
}

/// `EndTurn`.
pub open spec fn is_end_turn() -> spec_fn(Action) -> bool {
    |a: Action| a is EndTurn
}

/// What playing the supporter at `i` leaves to search: crispin's energy, meowth-ex's
/// supporters, or nothing.
pub open spec fn support_search(state: StateDto, legal: Seq<Action>, i: int) -> Option<Seq<char>> {
    if play_slug(state, legal[i]) == Some("crispin"@) {
        Some("crispin"@)
    } else if play_slug(state, legal[i]) == Some("meowth-ex"@) {
        Some("okunote"@)
    } else {
        None
    }
}

/// The decision cascade of one action, after the per-turn reset: the index of the chosen
/// legal action (`None`: no step applies and no `EndTurn` is legal) and the memory after.
/// Recon directive, Cursed Bomb, evolution, rare candy, basic Pokémon, goods, energy for a
/// retreat, first-turn energy, energy toward Phantom Dive, jamming tower, supporter,
/// disruption, forced Cursed Bomb, retreat, attack, end of turn.
pub open spec fn takeuchi_steps(
    reg: Map<Seq<char>, FactView>,
    m: TakeuchiMemory,
    state: StateDto,
    legal: Seq<Action>,
    d: TakeuchiDraws,
) -> (Option<int>, TakeuchiMemory) {
    if recon_directive_spec(state, legal) is Some {
        (recon_directive_spec(state, legal), with_search(m, None))
    } else if cursed_bomb_spec(state, legal) is Some {
        (cursed_bomb_spec(state, legal), m)
    } else if evolution_spec(state, legal, evolve_pri()) is Some {
        (evolution_spec(state, legal, evolve_pri()), m)
    } else if rare_candy_spec(state, legal) is Some {
        (rare_candy_spec(state, legal), TakeuchiMemory { pending_rare_candy: true, ..m })
    } else if first_play_by_priority(state, legal, d.basic) is Some {
        (first_play_by_priority(state, legal, d.basic), m)
    } else if first_play_by_priority(state, legal, goods_pri()) is Some {
        let i = first_play_by_priority(state, legal, goods_pri())->0;
        (Some(i), with_search(m, play_slug(state, legal[i])))
    } else if retreat_energy_spec(state, legal) is Some {
        (retreat_energy_spec(state, legal), m)
    } else if t1_energy_spec(m, state, legal) is Some {
        (t1_energy_spec(m, state, legal), m)
    } else if attach_by_priority(state, legal, energy_pri(), psy_fire()) is Some {
        (attach_by_priority(state, legal, energy_pri(), psy_fire()), m)
    } else if jamming_spec(state, legal) is Some {
        (jamming_spec(state, legal), m)
    } else if support_spec(m, state, legal) is Some {
        let i = support_spec(m, state, legal)->0;
        let m1 = if support_takes_boss(state, legal) {
            with_target(m, Some(d.boss_target))
        } else {
            m
        };
        (Some(i), with_search(m1, support_search(state, legal, i)))
    } else if disruption_options(state, legal).len() > 0 {
        (Some(d.disruption), m)
    } else if forced_bomb_spec(state, legal) is Some {
        (forced_bomb_spec(state, legal), TakeuchiMemory { pending_cursed_random: true, ..m })
    } else if retreat_spec(state, legal) is Some {
        (retreat_spec(state, legal), m)
    } else if attack_spec(reg, state, legal) is Some {
        (attack_spec(reg, state, legal), m)
    } else {
        (first_where(legal, is_end_turn()), m)
    }
}

/// One action of the bot with the draws `d`: the cascade's pick (the random fallback when
/// it picks nothing) and the memory after.
pub open spec fn takeuchi_action_holds(
    reg: Map<Seq<char>, FactView>,
    m: TakeuchiMemory,
    req: RequestMsg,
    m2: TakeuchiMemory,
    r: Result<Action, TransportError>,
    d: TakeuchiDraws,
) -> bool {
    let out = takeuchi_steps(reg, turn_reset(m, req.state.turn), req.state, req.legal_actions@, d);
    &&& draws_ok(req.state, req.legal_actions@, d)
    &&& m2 == out.1
    &&& match out.0 {
        Some(i) => 0 <= i < req.legal_actions@.len() && (r matches Ok(a) && a@
            == req.legal_actions@[i]@),
        None => random_action_ok(req, r),
    }
}

/// `r` is `s` reordered by the identity.
pub proof fn lemma_reorders_refl<T>(s: Seq<T>)
    ensures
        crate::rng::reorders(s, s),
{
    let p = Seq::new(s.len(), |i: int| i);
    assert(crate::rng::is_index_perm(p, s.len()));
    assert(forall|k: int| 0 <= k < s.len() ==> s[k] == s[p[k]]);
}

/// A basic order that the strategy allows on any turn.
pub open spec fn default_basic(state: StateDto) -> Seq<Seq<char>> {
    if turn_number(state) == 2 {
        seq!["dreepy"@, "budew"@, "duskull"@]
    } else {
        seq!["dreepy"@, "duskull"@, "budew"@]
    }
}

/// Draws that the strategy allows, for steps not reached.
pub open spec fn default_draws(state: StateDto, legal: Seq<Action>) -> TakeuchiDraws {
    TakeuchiDraws {
        basic: default_basic(state),
        disruption: if disruption_options(state, legal).len() > 0 {
            disruption_options(state, legal)[0]
        } else {
            0
        },
        boss_target: if boss_cands(state).len() > 0 {
            boss_cands(state)[0]
        } else {
            0
        },
    }
}

/// The default draws are allowed.
pub proof fn lemma_default_draws(state: StateDto, legal: Seq<Action>)
    ensures
        draws_ok(state, legal, default_draws(state, legal)),
{
    let b = seq!["duskull"@, "budew"@];
    lemma_reorders_refl(b);
    if turn_number(state) < 2 {
        assert(default_basic(state).skip(1) =~= b);
    }
    if disruption_options(state, legal).len() > 0 {
        assert(disruption_options(state, legal).contains(disruption_options(state, legal)[0]));
    }
    if boss_cands(state).len() > 0 {
        assert(boss_cands(state).contains(boss_cands(state)[0]));
    }
}

} // verus!

verus! {

/// Index of the first legal `EndTurn`.
pub fn find_end_turn(legal: &[Action]) -> (r: Option<usize>)
    ensures
        opt_int(r) == first_where(legal@, is_end_turn()),
        r matches Some(k) ==> k < legal@.len(),
{
    let mut j: usize = 0;
    while j < legal.len()
        invariant
            j <= legal@.len(),
            forall|t: int| 0 <= t < j ==> !is_end_turn()(#[trigger] legal@[t]),
        decreases legal.len() - j,
    {
        if let Action::EndTurn = &legal[j] {
            proof {
                lemma_first_at(legal@, is_end_turn(), j as int);
            }
            return Some(j);
        }
        j = j + 1;
    }
    proof {
        lemma_first_none(legal@, is_end_turn());
    }
    None
}

/// An owned copy of an optional slug.
pub fn copy_slug(s: Option<&String>) -> (r: Option<String>)
    ensures
        card_view(r) == match s {
            Some(x) => Some(x@),
            None => None,
        },
{
    match s {
        Some(x) => Some(x.clone()),
        None => None,
    }
}

impl DragapultTakeuchiBot {
    /// The decision cascade with the draws it made.
    #[verifier::rlimit(50)]
    fn act(&mut self, req: &RequestMsg, rng: &mut ChaCha20Rng) -> (r: (
        Result<Action, TransportError>,
        Ghost<TakeuchiDraws>,
    ))
        requires
            board_fits(req.state),
        ensures
            final(self).registry == old(self).registry,
            takeuchi_action_holds(old(self).registry@, old(self)@, *req, final(self)@, r.0, r.1@),
    {
        let state = &req.state;
        let legal = req.legal_actions.as_slice();
        if self.current_turn != Some(state.turn) {
            self.current_turn = Some(state.turn);
            self.pending_cursed_random = false;
            self.pending_rare_candy = false;
            self.crispin_stage = CrispinStage::Idle;
            self.crispin_attach_target = None;
            self.pending_target = None;
            self.pending_search = None;
        }
        let ghost m0 = self@;
        assert(m0 == turn_reset(old(self)@, state.turn));
        let ghost mut d = default_draws(*state, legal@);
        proof {
            lemma_default_draws(*state, legal@);
        }
        if let Some(i) = find_recon_directive(state, legal) {
            self.pending_search = None;
            return (Ok(legal[i].duplicate()), Ghost(d));
        }
        if let Some(i) = find_cursed_bomb(state, legal) {
            return (Ok(legal[i].duplicate()), Ghost(d));
        }
        let evolve: &[&str] = &["dragapult-ex", "drakloak", "dusclops", "dusknoir"];
        assert(strs_view(evolve@) =~= evolve_pri());
        if let Some(i) = find_evolution(state, legal, evolve) {
            return (Ok(legal[i].duplicate()), Ghost(d));
        }
        if let Some(i) = self.find_rare_candy(state, legal) {
            return (Ok(legal[i].duplicate()), Ghost(d));
        }
        let basics = basic_priority(state, rng);
        proof {
            d = TakeuchiDraws { basic: strs_view(basics@), ..d };
        }
        if let Some(i) = find_basic_placement(state, legal, basics.as_slice()) {
            return (Ok(legal[i].duplicate()), Ghost(d));
        }
        if let Some(i) = find_goods(state, legal) {
            self.pending_search = copy_slug(play_card_slug(state, &legal[i]));
            return (Ok(legal[i].duplicate()), Ghost(d));
        }
        if let Some(i) = find_retreat_energy(state, legal) {
            return (Ok(legal[i].duplicate()), Ghost(d));
        }
        if let Some(i) = self.find_t1_active_energy(state, legal) {
            return (Ok(legal[i].duplicate()), Ghost(d));
        }
        if let Some(i) = find_energy_attach(state, legal) {
            return (Ok(legal[i].duplicate()), Ghost(d));
        }
        if let Some(i) = find_jamming_override(state, legal) {
            return (Ok(legal[i].duplicate()), Ghost(d));
        }
        if let Some(i) = self.find_support(state, legal, rng) {
            proof {
                if support_takes_boss(*state, legal@) {
                    d = TakeuchiDraws { boss_target: self.pending_target->0, ..d };
                }
            }
            self.pending_search = match play_card_slug(state, &legal[i]) {
                Some(s) => if super::string_is(s, "crispin") {
                    Some("crispin".to_owned())
                } else if super::string_is(s, "meowth-ex") {
                    Some("okunote".to_owned())
                } else {
                    None
                },
                None => None,
            };
            return (Ok(legal[i].duplicate()), Ghost(d));
        }
        if let Some(i) = find_disruption(state, legal, rng) {
            proof {
                d = TakeuchiDraws { disruption: i as int, ..d };
            }
            return (Ok(legal[i].duplicate()), Ghost(d));
        }
        if let Some(i) = self.find_forced_cursed_bomb(state, legal) {
            return (Ok(legal[i].duplicate()), Ghost(d));
        }
        if let Some(i) = find_retreat(state, legal) {
            return (Ok(legal[i].duplicate()), Ghost(d));
        }
        if let Some(i) = self.find_attack(state, legal) {
            return (Ok(legal[i].duplicate()), Ghost(d));
        }
        if let Some(i) = find_end_turn(legal) {
            return (Ok(legal[i].duplicate()), Ghost(d));
        }
        (random_action(req, rng), Ghost(d))
    }

    /// Picks one action of my turn: the decision cascade (see `takeuchi_steps`), with the
    /// random fallback when no step applies and the turn cannot be ended.
    pub fn choose_action(&mut self, req: &RequestMsg, rng: &mut ChaCha20Rng) -> (r: Result<
        Action,
        TransportError,
    >)
        requires
            board_fits(req.state),
        ensures
            final(self).registry == old(self).registry,
            exists|d: TakeuchiDraws|
                #[trigger] takeuchi_action_holds(
                    old(self).registry@,
                    old(self)@,
                    *req,
                    final(self)@,
                    r,
                    d,
                ),
    {
        let (r, Ghost(d)) = self.act(req, rng);
        r
    }
}

impl BotPolicy for DragapultTakeuchiBot {
    fn choose_action(&mut self, req: &RequestMsg, rng: &mut ChaCha20Rng) -> (r: Result<Action, TransportError>)
        ensures
            super::bot_action_ok(super::Bot::Takeuchi(*old(self)), *req, super::Bot::Takeuchi(*final(self)), r),
    {
        if board_fits_exec(&req.state) {
            DragapultTakeuchiBot::choose_action(self, req, rng)
        } else {
            random_action(req, rng)
        }
    }

    fn choose_prompt(&mut self, p: &PromptMsg, rng: &mut ChaCha20Rng) -> (r: PromptChoice)
        ensures
            super::bot_prompt_ok(super::Bot::Takeuchi(*old(self)), *p, super::Bot::Takeuchi(*final(self)), r),
    {
        let fits = match &p.state {
            Some(s) => board_fits_exec(s),
            None => true,
        };
        if fits {
            DragapultTakeuchiBot::choose_prompt(self, p, rng)
        } else {
            fallback_prompt(p, rng)
        }
    }
}

} // verus!

verus! {

/// Counters to knock out `rem` HP as a byte (see `ko_byte`).
pub fn ko_byte_of(rem: u16) -> (r: u8)
    ensures
        r == ko_byte(rem as int),
{
    let k: u16 = (rem / 10) + if rem % 10 == 0 {
        0
    } else {
        1
    };
    assert(k == ko_counters(rem as int)) by (nonlinear_arith)
        requires
            k == rem / 10 + if rem % 10 == 0 {
                0int
            } else {
                1int
            },
    ;
    if k > 255 {
        255
    } else if k < 1 {
        1
    } else {
        k as u8
    }
}

} // verus!

verus! {

// ============================================================================
// Laws of the counter distribution
// ============================================================================

/// The sum of counts.
pub open spec fn sum_counts(s: Seq<u8>) -> int
    decreases s.len(),
{
    if s.len() == 0 {
        0
    } else {
        s[0] as int + sum_counts(s.drop_first())
    }
}

/// Every count is at most `cap`.
pub open spec fn all_le(s: Seq<u8>, cap: int) -> bool {
    forall|i: int| 0 <= i < s.len() ==> s[i] <= cap
}

proof fn lemma_sum_le_cap(s: Seq<u8>, cap: int)
    requires
        all_le(s, cap),
    ensures
        sum_counts(s) <= cap * s.len(),
        sum_counts(s) >= 0,
        (forall|i: int| 0 <= i < s.len() ==> s[i] == cap) ==> sum_counts(s) == cap * s.len(),
    decreases s.len(),
{
    if s.len() == 0 {
        assert(cap * s.len() == 0) by (nonlinear_arith)
            requires
                s.len() == 0,
        ;
    } else {
        let t = s.drop_first();
        assert forall|i: int| 0 <= i < t.len() implies t[i] <= cap by {
            assert(t[i] == s[i + 1]);
        }
        assert(s[0] <= cap);
        lemma_sum_le_cap(t, cap);
        assert(cap * s.len() == cap + cap * t.len()) by (nonlinear_arith)
            requires
                s.len() == t.len() + 1,
        ;
        if forall|i: int| 0 <= i < s.len() ==> s[i] == cap {
            assert forall|i: int| 0 <= i < t.len() implies t[i] == cap by {
                assert(t[i] == s[i + 1]);
            }
        }
    }
}

proof fn lemma_phase1(ts: Seq<(u32, u16, u8)>, left: int, cap: int)
    requires
        0 <= left,
        0 <= cap <= 255,
    ensures
        phase1(ts, left, cap).0.len() == ts.len(),
        all_le(phase1(ts, left, cap).0, cap),
        0 <= phase1(ts, left, cap).1,
        sum_counts(phase1(ts, left, cap).0) + phase1(ts, left, cap).1 == left,
    decreases ts.len(),
{
    if ts.len() > 0 {
        let give = imin(imin(left, cap), ts[0].2 as int);
        lemma_phase1(ts.drop_first(), left - give, cap);
        let r = phase1(ts.drop_first(), left - give, cap);
        let s = seq![give as u8] + r.0;
        assert(s.drop_first() =~= r.0);
        assert forall|i: int| 0 <= i < s.len() implies s[i] <= cap by {
            if i > 0 {
                assert(s[i] == r.0[i - 1]);
            }
        }
    }
}

proof fn lemma_pass(counts: Seq<u8>, left: int, cap: int)
    requires
        all_le(counts, cap),
        0 <= left,
        0 <= cap <= 255,
    ensures
        pass(counts, left, cap).0.len() == counts.len(),
        all_le(pass(counts, left, cap).0, cap),
        0 <= pass(counts, left, cap).1 <= left,
        sum_counts(pass(counts, left, cap).0) + pass(counts, left, cap).1 == sum_counts(counts)
            + left,
        (left > 0 && pass(counts, left, cap).1 == left) ==> forall|i: int|
            0 <= i < counts.len() ==> #[trigger] pass(counts, left, cap).0[i] == cap,
    decreases counts.len(),
{
    if counts.len() > 0 && left > 0 {
        let t = counts.drop_first();
        assert forall|i: int| 0 <= i < t.len() implies t[i] <= cap by {
            assert(t[i] == counts[i + 1]);
        }
        if counts[0] < cap {
            lemma_pass(t, left - 1, cap);
            let r = pass(t, left - 1, cap);
            let s = seq![(counts[0] + 1) as u8] + r.0;
            assert(s.drop_first() =~= r.0);
            assert forall|i: int| 0 <= i < s.len() implies s[i] <= cap by {
                if i > 0 {
                    assert(s[i] == r.0[i - 1]);
                }
            }
        } else {
            lemma_pass(t, left, cap);
            let r = pass(t, left, cap);
            let s = seq![counts[0]] + r.0;
            assert(s.drop_first() =~= r.0);
            assert forall|i: int| 0 <= i < s.len() implies s[i] <= cap by {
                if i > 0 {
                    assert(s[i] == r.0[i - 1]);
                }
            }
            if r.1 == left {
                assert forall|i: int| 0 <= i < s.len() implies s[i] == cap by {
                    if i > 0 {
                        assert(s[i] == r.0[i - 1]);
                    }
                }
            }
        }
    }
}

proof fn lemma_phase2(counts: Seq<u8>, left: int, cap: int)
    requires
        all_le(counts, cap),
        0 <= left,
        0 <= cap <= 255,
    ensures
        phase2(counts, left, cap).len() == counts.len(),
        all_le(phase2(counts, left, cap), cap),
        sum_counts(phase2(counts, left, cap)) == imin(sum_counts(counts) + left, cap * counts.len()),
    decreases left,
{
    lemma_sum_le_cap(counts, cap);
    if left > 0 {
        lemma_pass(counts, left, cap);
        let r = pass(counts, left, cap);
        if 0 <= r.1 < left {
            lemma_phase2(r.0, r.1, cap);
        } else {
            lemma_sum_le_cap(r.0, cap);
        }
    }
}

proof fn lemma_dist_sort_len(s: Seq<(u32, u16, u8)>)
    ensures
        dist_sort(s).len() == s.len(),
    decreases s.len(),
{
    if s.len() > 0 {
        lemma_min_idx(s, s.len() as int);
        let m = min_idx(s, s.len() as int);
        lemma_dist_sort_len(s.remove(m));
    }
}

proof fn lemma_placed(ts: Seq<(u32, u16, u8)>, counts: Seq<u8>, cap: int)
    requires
        ts.len() == counts.len(),
        all_le(counts, cap),
    ensures
        placed_ids(ts, counts).len() == placed_counts(counts).len(),
        sum_counts(placed_counts(counts)) == sum_counts(counts),
        forall|i: int|
            0 <= i < placed_counts(counts).len() ==> 1 <= #[trigger] placed_counts(counts)[i] <= cap,
    decreases counts.len(),
{
    if counts.len() > 0 {
        let t = counts.drop_first();
        assert forall|i: int| 0 <= i < t.len() implies t[i] <= cap by {
            assert(t[i] == counts[i + 1]);
        }
        lemma_placed(ts.drop_first(), t, cap);
        let r = placed_counts(t);
        if counts[0] > 0 {
            let s = seq![counts[0]] + r;
            assert(s.drop_first() =~= r);
            assert forall|i: int| 0 <= i < s.len() implies 1 <= #[trigger] s[i] <= cap by {
                if i > 0 {
                    assert(s[i] == r[i - 1]);
                }
            }
        }
    }
}

/// The counter distribution keeps to the cap and places all that it can: every chosen
/// target gets between one counter and the cap, and the counters placed add up to the
/// total or, where the total does not fit, to the cap on every eligible opposing target.
pub proof fn law_distribute_cap_and_total(p: PromptMsg, elig: Seq<u32>, total: u8, per: Option<u8>)
    ensures
        match distribute_spec(p, elig, total, per) {
            Some((ids, counts)) => {
                &&& ids.len() == counts.len()
                &&& forall|i: int|
                    0 <= i < counts.len() ==> 1 <= #[trigger] counts[i] <= dist_cap(total, per)
                &&& sum_counts(counts) == imin(
                    total as int,
                    dist_cap(total, per) * dist_targets(p.state.unwrap(), elig).len(),
                )
            },
            None => true,
        },
{
    if let Some(state) = p.state {
        if distribute_spec(p, elig, total, per) is Some {
            let ts = dist_sort(dist_targets(state, elig));
            let cap = dist_cap(total, per) as int;
            lemma_dist_sort_len(dist_targets(state, elig));
            lemma_phase1(ts, total as int, cap);
            let p1 = phase1(ts, total as int, cap);
            lemma_phase2(p1.0, p1.1, cap);
            let counts = dist_counts(state, elig, total, per);
            lemma_placed(ts, counts, cap);
        }
    }
}

} // verus!

verus! {

/// The bot answers a request with one of the request's legal actions, and with an error
/// only when there is none: whatever it drew, its answer meets what the random policy
/// promises.
pub proof fn law_takeuchi_answers_legally(
    reg: Map<Seq<char>, FactView>,
    m: TakeuchiMemory,
    req: RequestMsg,
    m2: TakeuchiMemory,
    r: Result<Action, TransportError>,
)
    requires
        exists|d: TakeuchiDraws| #[trigger] takeuchi_action_holds(reg, m, req, m2, r, d),
    ensures
        random_action_ok(req, r),
{
    let d = choose|d: TakeuchiDraws| #[trigger] takeuchi_action_holds(reg, m, req, m2, r, d);
    let out = takeuchi_steps(reg, turn_reset(m, req.state.turn), req.state, req.legal_actions@, d);
    if let Some(i) = out.0 {
        assert(req.legal_actions@[i]@ == req.legal_actions@[i]@);
    }
}

} // verus!

verus! {

// ============================================================================
// Laws of the knock-out search
// ============================================================================

/// The counters that knocking out the Pokémon marked in `mask` costs.
pub open spec fn sel_cost(items: Seq<(u32, u32, u16)>, mask: Seq<bool>) -> int
    decreases items.len(),
{
    if items.len() == 0 || mask.len() == 0 {
        0
    } else {
        sel_cost(items.drop_last(), mask.drop_last()) + if mask.last() {
            items.last().0 as int
        } else {
            0
        }
    }
}

/// The prizes that knocking out the Pokémon marked in `mask` takes.
pub open spec fn sel_prizes(items: Seq<(u32, u32, u16)>, mask: Seq<bool>) -> int
    decreases items.len(),
{
    if items.len() == 0 || mask.len() == 0 {
        0
    } else {
        sel_prizes(items.drop_last(), mask.drop_last()) + if mask.last() {
            items.last().1 as int
        } else {
            0
        }
    }
}

/// The number of Pokémon marked in `mask`.
pub open spec fn sel_count(items: Seq<(u32, u32, u16)>, mask: Seq<bool>) -> int
    decreases items.len(),
{
    if items.len() == 0 || mask.len() == 0 {
        0
    } else {
        sel_count(items.drop_last(), mask.drop_last()) + if mask.last() {
            1int
        } else {
            0
        }
    }
}

/// No choice of Pokémon that `cap` counters can knock out takes more prizes, or more
/// knock-outs, than the search finds.
pub proof fn law_knap_optimal(items: Seq<(u32, u32, u16)>, cap: int, mask: Seq<bool>)
    requires
        mask.len() == items.len(),
        sel_cost(items, mask) <= cap,
    ensures
        sel_prizes(items, mask) <= knap(items, cap).0,
        sel_count(items, mask) <= knap(items, cap).1,
    decreases items.len(),
{
    if items.len() > 0 {
        let rest = items.drop_last();
        let it = items.last();
        lemma_sel_cost_nonneg(rest, mask.drop_last());
        if mask.last() {
            law_knap_optimal(rest, cap - it.0, mask.drop_last());
        } else {
            law_knap_optimal(rest, cap, mask.drop_last());
        }
        lemma_knap_nonneg(rest, cap);
        if it.0 <= cap {
            lemma_knap_nonneg(rest, cap - it.0);
        }
    }
}

proof fn lemma_sel_cost_nonneg(items: Seq<(u32, u32, u16)>, mask: Seq<bool>)
    ensures
        sel_cost(items, mask) >= 0,
    decreases items.len(),
{
    if items.len() > 0 && mask.len() > 0 {
        lemma_sel_cost_nonneg(items.drop_last(), mask.drop_last());
    }
}

proof fn lemma_knap_nonneg(items: Seq<(u32, u32, u16)>, cap: int)
    ensures
        knap(items, cap).0 >= 0,
        knap(items, cap).1 >= 0,
    decreases items.len(),
{
    if items.len() > 0 {
        lemma_knap_nonneg(items.drop_last(), cap);
        if items.last().0 <= cap {
            lemma_knap_nonneg(items.drop_last(), cap - items.last().0);
        }
    }
}

/// A choice of Pokémon that the counters knock out and that takes the most prizes.
proof fn knap_prize_witness(items: Seq<(u32, u32, u16)>, cap: int) -> (mask: Seq<bool>)
    requires
        cap >= 0,
    ensures
        mask.len() == items.len(),
        sel_cost(items, mask) <= cap,
        sel_prizes(items, mask) == knap(items, cap).0,
    decreases items.len(),
{
    if items.len() == 0 {
        Seq::empty()
    } else {
        let rest = items.drop_last();
        let it = items.last();
        let skip = knap(rest, cap);
        if it.0 <= cap && knap(rest, cap - it.0).0 + it.1 > skip.0 {
            let m = knap_prize_witness(rest, cap - it.0);
            let r = m.push(true);
            assert(r.drop_last() =~= m);
            r
        } else {
            let m = knap_prize_witness(rest, cap);
            let r = m.push(false);
            assert(r.drop_last() =~= m);
            r
        }
    }
}

/// A choice of Pokémon that the counters knock out and that knocks out the most.
proof fn knap_count_witness(items: Seq<(u32, u32, u16)>, cap: int) -> (mask: Seq<bool>)
    requires
        cap >= 0,
    ensures
        mask.len() == items.len(),
        sel_cost(items, mask) <= cap,
        sel_count(items, mask) == knap(items, cap).1,
    decreases items.len(),
{
    if items.len() == 0 {
        Seq::empty()
    } else {
        let rest = items.drop_last();
        let it = items.last();
        let skip = knap(rest, cap);
        if it.0 <= cap && knap(rest, cap - it.0).1 + 1 > skip.1 {
            let m = knap_count_witness(rest, cap - it.0);
            let r = m.push(true);
            assert(r.drop_last() =~= m);
            r
        } else {
            let m = knap_count_witness(rest, cap);
            let r = m.push(false);
            assert(r.drop_last() =~= m);
            r
        }
    }
}

/// What the search finds can be had: some choice of Pokémon within `cap` counters takes
/// that many prizes, and some choice knocks out that many.
pub proof fn law_knap_attained(items: Seq<(u32, u32, u16)>, cap: int)
    requires
        cap >= 0,
    ensures
        exists|mask: Seq<bool>|
            mask.len() == items.len() && sel_cost(items, mask) <= cap && #[trigger] sel_prizes(items, mask)
                == knap(items, cap).0,
        exists|mask: Seq<bool>|
            mask.len() == items.len() && sel_cost(items, mask) <= cap && #[trigger] sel_count(items, mask)
                == knap(items, cap).1,
{
    let a = knap_prize_witness(items, cap);
    let b = knap_count_witness(items, cap);
    assert(sel_prizes(items, a) == knap(items, cap).0);
    assert(sel_count(items, b) == knap(items, cap).1);
}

} // verus!

verus! {

/// The snipe goes for the opposing rule-box Pokémon with the most HP left, whenever one of
/// the offered targets is such a Pokémon.
pub proof fn law_snipe_prefers_biggest_ex(state: StateDto, targets: Seq<u32>)
    ensures
        ({
            let c = opp_targets(state, targets);
            (exists|i: int| 0 <= i < c.len() && #[trigger] ex_target(state)(c[i])) ==> {
                &&& snipe_spec(state, targets) matches Some(t)
                &&& c.contains(t)
                &&& ex_target(state)(t)
                &&& forall|i: int|
                    0 <= i < c.len() && ex_target(state)(#[trigger] c[i]) ==> target_mon(
                        state,
                        c[i],
                    ).hp_max <= target_mon(state, t).hp_max
            }
        }),
{
    let c = opp_targets(state, targets);
    lemma_last_max(c, ex_target(state), hp_key(state));
}

/// With no rule-box Pokémon among the offered opposing targets, the snipe goes for an
/// energized drakloak with the most energy, if one is offered; with no energized drakloak
/// either, for an energized dreepy with the most energy, if one is offered.
pub proof fn law_snipe_prefers_most_energy(state: StateDto, targets: Seq<u32>)
    ensures
        ({
            let c = opp_targets(state, targets);
            let drak = energized_target(state, "drakloak"@);
            let dree = energized_target(state, "dreepy"@);
            &&& (forall|i: int| 0 <= i < c.len() ==> !ex_target(state)(#[trigger] c[i])) && (exists|
                i: int,
            | 0 <= i < c.len() && #[trigger] drak(c[i])) ==> {
                &&& snipe_spec(state, targets) matches Some(t)
                &&& c.contains(t)
                &&& drak(t)
                &&& forall|i: int|
                    0 <= i < c.len() && drak(#[trigger] c[i]) ==> target_mon(
                        state,
                        c[i],
                    ).energy_attached@.len() <= target_mon(state, t).energy_attached@.len()
            }
            &&& (forall|i: int| 0 <= i < c.len() ==> !ex_target(state)(#[trigger] c[i]) && !drak(c[i]))
                && (exists|i: int| 0 <= i < c.len() && #[trigger] dree(c[i])) ==> {
                &&& snipe_spec(state, targets) matches Some(t)
                &&& c.contains(t)
                &&& dree(t)
                &&& forall|i: int|
                    0 <= i < c.len() && dree(#[trigger] c[i]) ==> target_mon(
                        state,
                        c[i],
                    ).energy_attached@.len() <= target_mon(state, t).energy_attached@.len()
            }
        }),
{
    let c = opp_targets(state, targets);
    lemma_last_max(c, ex_target(state), hp_key(state));
    lemma_last_max(c, energized_target(state, "drakloak"@), energy_key(state));
    lemma_last_max(c, energized_target(state, "dreepy"@), energy_key(state));
}

} // verus!

verus! {

// ============================================================================
// Laws of the counter distribution: whom, in which order
// ============================================================================

/// No id occurs twice among the targets.
pub open spec fn tids_unique(s: Seq<(u32, u16, u8)>) -> bool {
    forall|i: int, j: int| 0 <= i < j < s.len() ==> #[trigger] s[i].0 != #[trigger] s[j].0
}

/// Every target of `s` is an element of `t`.
pub open spec fn within(s: Seq<(u32, u16, u8)>, t: Seq<(u32, u16, u8)>) -> bool {
    forall|i: int| 0 <= i < s.len() ==> t.contains(#[trigger] s[i])
}

/// The remaining HP of the opposing Pokémon with id `e`.
pub open spec fn opp_rem(state: StateDto, e: u32) -> int {
    rem_hp(opp_mon(state, e)->0)
}

/// `a` comes before `b` among the opposing Pokémon: less HP left, or as much and a lower id.
pub open spec fn hp_first(state: StateDto, a: u32, b: u32) -> bool {
    opp_rem(state, a) < opp_rem(state, b) || (opp_rem(state, a) == opp_rem(state, b) && a < b)
}

proof fn lemma_dist_targets(state: StateDto, elig: Seq<u32>)
    ensures
        forall|i: int|
            0 <= i < dist_targets(state, elig).len() ==> {
                let x = #[trigger] dist_targets(state, elig)[i];
                &&& elig.contains(x.0)
                &&& opp_mon(state, x.0) is Some
                &&& x.1 as int == opp_rem(state, x.0)
                &&& x.2 == ko_byte(opp_rem(state, x.0))
            },
        elig.no_duplicates() ==> tids_unique(dist_targets(state, elig)),
        dist_targets(state, elig).len() == 0 <==> forall|i: int|
            0 <= i < elig.len() ==> opp_mon(state, #[trigger] elig[i]) is None,
    decreases elig.len(),
{
    if elig.len() > 0 {
        let e = elig.drop_last();
        lemma_dist_targets(state, e);
        let r = dist_targets(state, e);
        let s = dist_targets(state, elig);
        let x = elig.last();
        assert forall|i: int| 0 <= i < r.len() implies elig.contains(#[trigger] r[i].0) by {
            let k = choose|k: int| 0 <= k < e.len() && e[k] == r[i].0;
            assert(elig[k] == e[k]);
        }
        if elig.no_duplicates() {
            assert forall|a: int, b: int| 0 <= a < e.len() && 0 <= b < e.len() && a != b implies e[a]
                != e[b] by {
                assert(e[a] == elig[a] && e[b] == elig[b]);
            }
        }
        match opp_mon(state, x) {
            Some(m) => {
                assert(m.hp_max <= 65535);
                assert(elig[elig.len() - 1] == x);
                assert forall|i: int| 0 <= i < s.len() implies {
                    let y = #[trigger] s[i];
                    &&& elig.contains(y.0)
                    &&& opp_mon(state, y.0) is Some
                    &&& y.1 as int == opp_rem(state, y.0)
                    &&& y.2 == ko_byte(opp_rem(state, y.0))
                } by {
                    if i < r.len() {
                        assert(s[i] == r[i]);
                    }
                }
                if elig.no_duplicates() {
                    assert forall|i: int| 0 <= i < r.len() implies r[i].0 != x by {
                        let k = choose|k: int| 0 <= k < e.len() && e[k] == r[i].0;
                        assert(elig[k] == e[k]);
                    }
                    assert forall|a: int, b: int| 0 <= a < b < s.len() implies #[trigger] s[a].0
                        != #[trigger] s[b].0 by {
                        if b < r.len() {
                            assert(s[a] == r[a] && s[b] == r[b]);
                        } else {
                            assert(s[a] == r[a]);
                        }
                    }
                }
            },
            None => {
                if r.len() == 0 {
                    assert forall|i: int| 0 <= i < elig.len() implies opp_mon(state, #[trigger] elig[i])
                        is None by {
                        if i < e.len() {
                            assert(elig[i] == e[i]);
                        }
                    }
                } else {
                    let k = choose|k: int| 0 <= k < e.len() && opp_mon(state, #[trigger] e[k]) is Some;
                    assert(elig[k] == e[k]);
                }
            },
        }
    }
}

/// The first least target is no greater than any target among the first `n`.
proof fn lemma_min_idx_least(s: Seq<(u32, u16, u8)>, n: int)
    requires
        1 <= n <= s.len(),
    ensures
        forall|j: int| 0 <= j < n ==> !dist_lt(#[trigger] s[j], s[min_idx(s, n)]),
    decreases n,
{
    lemma_min_idx(s, n);
    if n > 1 {
        lemma_min_idx_least(s, n - 1);
        lemma_min_idx(s, n - 1);
    }
}

/// Sorting keeps the targets and orders them: no later target comes before an earlier one.
proof fn lemma_dist_sort(s: Seq<(u32, u16, u8)>)
    ensures
        dist_sort(s).len() == s.len(),
        within(dist_sort(s), s),
        tids_unique(s) ==> tids_unique(dist_sort(s)),
        forall|i: int, j: int|
            0 <= i < j < dist_sort(s).len() ==> !dist_lt(#[trigger] dist_sort(s)[j], #[trigger] dist_sort(s)[i]),
    decreases s.len(),
{
    if s.len() > 0 {
        lemma_min_idx(s, s.len() as int);
        lemma_min_idx_least(s, s.len() as int);
        let m = min_idx(s, s.len() as int);
        let t = s.remove(m);
        assert forall|i: int| 0 <= i < t.len() implies #[trigger] t[i] == (if i < m {
            s[i]
        } else {
            s[i + 1]
        }) by {}
        lemma_dist_sort(t);
        let r = dist_sort(t);
        let out = seq![s[m]] + r;
        assert forall|i: int| 0 <= i < r.len() implies s.contains(#[trigger] r[i]) && !dist_lt(
            r[i],
            s[m],
        ) by {
            let k = choose|k: int| 0 <= k < t.len() && t[k] == r[i];
            if k < m {
                assert(s[k] == t[k]);
            } else {
                assert(s[k + 1] == t[k]);
            }
        }
        assert forall|i: int| 0 <= i < out.len() implies s.contains(#[trigger] out[i]) by {
            if i > 0 {
                assert(out[i] == r[i - 1]);
            }
        }
        assert forall|i: int, j: int| 0 <= i < j < out.len() implies !dist_lt(
            #[trigger] out[j],
            #[trigger] out[i],
        ) by {
            assert(out[j] == r[j - 1]);
            if i > 0 {
                assert(out[i] == r[i - 1]);
            }
        }
        if tids_unique(s) {
            assert forall|i: int, j: int| 0 <= i < j < t.len() implies #[trigger] t[i].0
                != #[trigger] t[j].0 by {
                assert(t[i] == (if i < m {
                    s[i]
                } else {
                    s[i + 1]
                }));
                assert(t[j] == (if j < m {
                    s[j]
                } else {
                    s[j + 1]
                }));
            }
            assert forall|i: int| 0 <= i < r.len() implies r[i].0 != s[m].0 by {
                let k = choose|k: int| 0 <= k < t.len() && t[k] == r[i];
                if k < m {
                    assert(s[k] == t[k]);
                } else {
                    assert(s[k + 1] == t[k]);
                }
            }
            assert forall|i: int, j: int| 0 <= i < j < out.len() implies #[trigger] out[i].0
                != #[trigger] out[j].0 by {
                assert(out[j] == r[j - 1]);
                if i > 0 {
                    assert(out[i] == r[i - 1]);
                }
            }
        }
    }
}

/// The ids placed are those of targets with a positive count.
proof fn lemma_placed_ids(ts: Seq<(u32, u16, u8)>, counts: Seq<u8>)
    requires
        ts.len() == counts.len(),
    ensures
        placed_ids(ts, counts).len() == placed_counts(counts).len(),
        forall|i: int|
            #![trigger placed_ids(ts, counts)[i]]
            0 <= i < placed_ids(ts, counts).len() ==> exists|k: int|
                0 <= k < ts.len() && #[trigger] ts[k].0 == placed_ids(ts, counts)[i] && counts[k]
                    == placed_counts(counts)[i] && counts[k] > 0,
    decreases ts.len(),
{
    if ts.len() > 0 {
        let t = ts.drop_first();
        let c = counts.drop_first();
        lemma_placed_ids(t, c);
        let ri = placed_ids(t, c);
        let rc = placed_counts(c);
        if counts[0] > 0 {
            let si = seq![ts[0].0] + ri;
            let sc = seq![counts[0]] + rc;
            assert forall|i: int| #![trigger si[i]] 0 <= i < si.len() implies exists|k: int|
                0 <= k < ts.len() && #[trigger] ts[k].0 == si[i] && counts[k] == sc[i] && counts[k] > 0 by {
                if i == 0 {
                    assert(ts[0].0 == si[0] && counts[0] == sc[0]);
                } else {
                    assert(si[i] == ri[i - 1] && sc[i] == rc[i - 1]);
                    let k = choose|k: int|
                        0 <= k < t.len() && #[trigger] t[k].0 == ri[i - 1] && c[k] == rc[i - 1] && c[k] > 0;
                    assert(ts[k + 1] == t[k] && counts[k + 1] == c[k]);
                }
            }
        } else {
            assert forall|i: int| #![trigger ri[i]] 0 <= i < ri.len() implies exists|k: int|
                0 <= k < ts.len() && #[trigger] ts[k].0 == ri[i] && counts[k] == rc[i] && counts[k] > 0 by {
                let k = choose|k: int| 0 <= k < t.len() && #[trigger] t[k].0 == ri[i] && c[k] == rc[i] && c[k] > 0;
                assert(ts[k + 1] == t[k] && counts[k + 1] == c[k]);
            }
        }
    }
}

/// The ids placed keep the order of the targets.
proof fn lemma_placed_order(state: StateDto, ts: Seq<(u32, u16, u8)>, counts: Seq<u8>)
    requires
        ts.len() == counts.len(),
        forall|k: int, l: int| 0 <= k < l < ts.len() ==> hp_first(state, #[trigger] ts[k].0, #[trigger] ts[l].0),
    ensures
        forall|i: int, j: int|
            0 <= i < j < placed_ids(ts, counts).len() ==> hp_first(
                state,
                #[trigger] placed_ids(ts, counts)[i],
                #[trigger] placed_ids(ts, counts)[j],
            ),
    decreases ts.len(),
{
    if ts.len() > 0 {
        let t = ts.drop_first();
        let c = counts.drop_first();
        assert forall|k: int, l: int| 0 <= k < l < t.len() implies hp_first(
            state,
            #[trigger] t[k].0,
            #[trigger] t[l].0,
        ) by {
            assert(t[k] == ts[k + 1] && t[l] == ts[l + 1]);
        }
        lemma_placed_order(state, t, c);
        lemma_placed_ids(t, c);
        let ri = placed_ids(t, c);
        if counts[0] > 0 {
            let si = seq![ts[0].0] + ri;
            assert forall|i: int, j: int| 0 <= i < j < si.len() implies hp_first(
                state,
                #[trigger] si[i],
                #[trigger] si[j],
            ) by {
                assert(si[j] == ri[j - 1]);
                if i == 0 {
                    let l = choose|l: int|
                        0 <= l < t.len() && #[trigger] t[l].0 == ri[j - 1] && c[l] == placed_counts(c)[j
                            - 1] && c[l] > 0;
                    assert(ts[l + 1] == t[l]);
                    assert(hp_first(state, ts[0].0, ts[l + 1].0));
                } else {
                    assert(si[i] == ri[i - 1]);
                    assert(hp_first(state, ri[i - 1], ri[j - 1]));
                }
            }
        }
    }
}

} // verus!

verus! {

proof fn lemma_phase1_ko(ts: Seq<(u32, u16, u8)>, left: int, cap: int)
    requires
        0 <= left,
        0 <= cap <= 255,
    ensures
        phase1(ts, left, cap).0.len() == ts.len(),
        forall|k: int|
            0 <= k < ts.len() ==> #[trigger] phase1(ts, left, cap).0[k] <= imin(cap, ts[k].2 as int),
        forall|k: int, l: int|
            0 <= k < l < ts.len() && #[trigger] phase1(ts, left, cap).0[l] > 0 ==> #[trigger] phase1(
                ts,
                left,
                cap,
            ).0[k] == imin(cap, ts[k].2 as int),
        phase1(ts, left, cap).1 > 0 ==> forall|k: int|
            0 <= k < ts.len() ==> #[trigger] phase1(ts, left, cap).0[k] == imin(cap, ts[k].2 as int),
        left == 0 ==> forall|k: int| 0 <= k < ts.len() ==> #[trigger] phase1(ts, left, cap).0[k] == 0,
    decreases ts.len(),
{
    if ts.len() > 0 {
        let give = imin(imin(left, cap), ts[0].2 as int);
        let t = ts.drop_first();
        lemma_phase1_ko(t, left - give, cap);
        lemma_phase1(t, left - give, cap);
        let r = phase1(t, left - give, cap);
        let c = seq![give as u8] + r.0;
        assert(phase1(ts, left, cap).0 == c);
        assert forall|k: int| 0 <= k < ts.len() implies #[trigger] c[k] <= imin(cap, ts[k].2 as int) by {
            if k > 0 {
                assert(c[k] == r.0[k - 1] && t[k - 1] == ts[k]);
            }
        }
        assert forall|k: int, l: int| 0 <= k < l < ts.len() && #[trigger] c[l] > 0 implies #[trigger] c[k]
            == imin(cap, ts[k].2 as int) by {
            assert(c[l] == r.0[l - 1]);
            if k == 0 {
                if left - give == 0 {
                    assert(r.0[l - 1] == 0);
                }
            } else {
                assert(c[k] == r.0[k - 1] && t[k - 1] == ts[k]);
                assert(r.0[l - 1] > 0);
            }
        }
        if r.1 > 0 {
            assert forall|k: int| 0 <= k < ts.len() implies #[trigger] c[k] == imin(cap, ts[k].2 as int) by {
                if k > 0 {
                    assert(c[k] == r.0[k - 1] && t[k - 1] == ts[k]);
                } else {
                    if left - give == 0 {
                        lemma_sum_le_cap(r.0, cap);
                        assert(r.1 == 0);
                    }
                }
            }
        }
        if left == 0 {
            assert forall|k: int| 0 <= k < ts.len() implies #[trigger] c[k] == 0 by {
                if k > 0 {
                    assert(c[k] == r.0[k - 1]);
                }
            }
        }
    }
}

proof fn lemma_pass_mono(counts: Seq<u8>, left: int, cap: int)
    requires
        all_le(counts, cap),
        0 <= left,
        0 <= cap <= 255,
    ensures
        forall|k: int| 0 <= k < counts.len() ==> #[trigger] pass(counts, left, cap).0[k] >= counts[k],
    decreases counts.len(),
{
    lemma_pass(counts, left, cap);
    if counts.len() > 0 && left > 0 {
        let t = counts.drop_first();
        assert forall|i: int| 0 <= i < t.len() implies t[i] <= cap by {
            assert(t[i] == counts[i + 1]);
        }
        let l2 = if counts[0] < cap {
            left - 1
        } else {
            left
        };
        lemma_pass_mono(t, l2, cap);
        let r = pass(t, l2, cap);
        let first: u8 = if counts[0] < cap {
            (counts[0] + 1) as u8
        } else {
            counts[0]
        };
        let c = seq![first] + r.0;
        assert(pass(counts, left, cap).0 == c);
        assert forall|k: int| 0 <= k < counts.len() implies #[trigger] c[k] >= counts[k] by {
            if k > 0 {
                assert(c[k] == r.0[k - 1] && t[k - 1] == counts[k]);
            }
        }
    }
}

proof fn lemma_phase2_mono(counts: Seq<u8>, left: int, cap: int)
    requires
        all_le(counts, cap),
        0 <= left,
        0 <= cap <= 255,
    ensures
        phase2(counts, left, cap).len() == counts.len(),
        forall|k: int| 0 <= k < counts.len() ==> #[trigger] phase2(counts, left, cap)[k] >= counts[k],
    decreases left,
{
    lemma_phase2(counts, left, cap);
    if left > 0 {
        lemma_pass(counts, left, cap);
        lemma_pass_mono(counts, left, cap);
        let r = pass(counts, left, cap);
        if 0 <= r.1 < left {
            lemma_phase2_mono(r.0, r.1, cap);
            assert forall|k: int| 0 <= k < counts.len() implies #[trigger] phase2(counts, left, cap)[k]
                >= counts[k] by {
                assert(phase2(r.0, r.1, cap)[k] >= r.0[k]);
            }
        }
    }
}

/// The counter distribution knocks out in order: along the targets sorted by HP left, a
/// target gets counters only once every target before it has what knocks it out, or the
/// cap.
pub proof fn law_distribute_knock_out_first(p: PromptMsg, elig: Seq<u32>, total: u8, per: Option<u8>)
    ensures
        match p.state {
            Some(s) => forall|k: int, l: int|
                0 <= k < l < dist_sort(dist_targets(s, elig)).len() && #[trigger] dist_counts(
                    s,
                    elig,
                    total,
                    per,
                )[l] > 0 ==> #[trigger] dist_counts(s, elig, total, per)[k] >= imin(
                    dist_cap(total, per) as int,
                    dist_sort(dist_targets(s, elig))[k].2 as int,
                ),
            None => true,
        },
{
    if let Some(s) = p.state {
        let ts = dist_sort(dist_targets(s, elig));
        let cap = dist_cap(total, per) as int;
        lemma_phase1(ts, total as int, cap);
        lemma_phase1_ko(ts, total as int, cap);
        let p1 = phase1(ts, total as int, cap);
        lemma_phase2_mono(p1.0, p1.1, cap);
        let c = dist_counts(s, elig, total, per);
        assert forall|k: int, l: int| 0 <= k < l < ts.len() && #[trigger] c[l] > 0 implies #[trigger] c[k]
            >= imin(cap, ts[k].2 as int) by {
            if p1.1 > 0 {
                assert(p1.0[k] == imin(cap, ts[k].2 as int));
                assert(c[k] >= p1.0[k]);
            } else {
                assert(c == p1.0);
                assert(p1.0[l] > 0);
            }
        }
    }
}

/// The counter distribution answers exactly when there is something to place: a board,
/// counters, a positive cap, and an eligible id of an opposing Pokémon in play. It places
/// counters only on eligible opposing Pokémon in play, each once; with eligible ids all
/// different, in order of HP left (lowest first, ties by lower id).
pub proof fn law_distribute_targets_in_order(p: PromptMsg, elig: Seq<u32>, total: u8, per: Option<u8>)
    ensures
        match p.state {
            None => distribute_spec(p, elig, total, per) is None,
            Some(s) => {
                &&& distribute_spec(p, elig, total, per) is None <==> (total == 0 || elig.len() == 0
                    || dist_cap(total, per) == 0 || forall|i: int|
                    0 <= i < elig.len() ==> opp_mon(s, #[trigger] elig[i]) is None)
                &&& distribute_spec(p, elig, total, per) matches Some((ids, counts)) ==> {
                    &&& forall|i: int|
                        0 <= i < ids.len() ==> elig.contains(#[trigger] ids[i]) && opp_mon(s, ids[i]) is Some
                    &&& elig.no_duplicates() ==> ids.no_duplicates() && forall|i: int, j: int|
                        0 <= i < j < ids.len() ==> hp_first(s, #[trigger] ids[i], #[trigger] ids[j])
                }
            },
        },
{
    if let Some(s) = p.state {
        let dt = dist_targets(s, elig);
        lemma_dist_targets(s, elig);
        lemma_dist_sort(dt);
        let ts = dist_sort(dt);
        let cap = dist_cap(total, per) as int;
        if !(total == 0 || elig.len() == 0 || cap == 0 || dt.len() == 0) {
            law_distribute_cap_and_total(p, elig, total, per);
            lemma_phase1(ts, total as int, cap);
            let p1 = phase1(ts, total as int, cap);
            lemma_phase2(p1.0, p1.1, cap);
            let c = dist_counts(s, elig, total, per);
            lemma_placed(ts, c, cap);
            lemma_placed_ids(ts, c);
            let ids = placed_ids(ts, c);
            if ids.len() == 0 {
                assert(placed_counts(c).len() == 0);
                assert(sum_counts(placed_counts(c)) == 0);
                assert(cap * dt.len() >= 1) by (nonlinear_arith)
                    requires
                        cap >= 1,
                        dt.len() >= 1,
                ;
                lemma_sum_le_cap(c, cap);
                assert(sum_counts(c) == imin(total as int, cap * ts.len()));
            }
            assert forall|i: int| 0 <= i < ids.len() implies elig.contains(#[trigger] ids[i]) && opp_mon(
                s,
                ids[i],
            ) is Some by {
                let k = choose|k: int| 0 <= k < ts.len() && #[trigger] ts[k].0 == ids[i] && c[k]
                    == placed_counts(c)[i] && c[k] > 0;
                assert(dt.contains(ts[k]));
                let q = choose|q: int| 0 <= q < dt.len() && dt[q] == ts[k];
            }
            if elig.no_duplicates() {
                assert forall|k: int, l: int| 0 <= k < l < ts.len() implies hp_first(
                    s,
                    #[trigger] ts[k].0,
                    #[trigger] ts[l].0,
                ) by {
                    assert(!dist_lt(ts[l], ts[k]));
                    assert(ts[k].0 != ts[l].0);
                    let a = choose|a: int| 0 <= a < dt.len() && dt[a] == ts[k];
                    let b = choose|b: int| 0 <= b < dt.len() && dt[b] == ts[l];
                }
                lemma_placed_order(s, ts, c);
                assert forall|i: int, j: int| 0 <= i < ids.len() && 0 <= j < ids.len() && i != j implies ids[i]
                    != ids[j] by {
                    if i < j {
                        assert(hp_first(s, ids[i], ids[j]));
                    } else {
                        assert(hp_first(s, ids[j], ids[i]));
                    }
                }
            }
        }
    }
}

} // verus!

verus! {

/// A target the snipe can take: a rule-box Pokémon, a drakloak, a dreepy, a dusclops or a
/// dusknoir.
pub open spec fn snipeable(state: StateDto, e: u32) -> bool {
    ex_target(state)(e) || slug_target(state, "drakloak"@)(e) || slug_target(state, "dreepy"@)(e)
        || dusk_target(state)(e)
}

proof fn lemma_opp_targets_members(state: StateDto, t: Seq<u32>)
    ensures
        forall|x: u32|
            #[trigger] opp_targets(state, t).contains(x) <==> t.contains(x) && opp_mon(state, x) is Some,
    decreases t.len(),
{
    if t.len() > 0 {
        let d = t.drop_last();
        lemma_opp_targets_members(state, d);
        let r = opp_targets(state, d);
        let s = opp_targets(state, t);
        assert forall|x: u32| #[trigger] s.contains(x) <==> t.contains(x) && opp_mon(state, x) is Some by {
            if s.contains(x) {
                let k = choose|k: int| 0 <= k < s.len() && s[k] == x;
                if k < r.len() {
                    assert(s[k] == r[k]);
                    assert(r.contains(x));
                    let q = choose|q: int| 0 <= q < d.len() && d[q] == x;
                    assert(t[q] == d[q]);
                } else {
                    assert(t[t.len() - 1] == x);
                }
            }
            if t.contains(x) && opp_mon(state, x) is Some {
                let q = choose|q: int| 0 <= q < t.len() && t[q] == x;
                if q < d.len() {
                    assert(d[q] == t[q]);
                    assert(r.contains(x));
                    let k = choose|k: int| 0 <= k < r.len() && r[k] == x;
                    if opp_mon(state, t.last()) is Some {
                        assert(s[k] == r[k]);
                    }
                } else {
                    assert(s[s.len() - 1] == x);
                }
            }
        }
    }
}

/// The snipe picks an offered target that is an opposing Pokémon in play, and picks one
/// exactly when some offered opposing Pokémon is a rule-box Pokémon, a drakloak, a dreepy,
/// a dusclops or a dusknoir.
pub proof fn law_snipe_target_offered(state: StateDto, targets: Seq<u32>)
    ensures
        snipe_spec(state, targets) matches Some(e) ==> targets.contains(e) && opp_mon(state, e) is Some,
        snipe_spec(state, targets) is None <==> forall|i: int|
            0 <= i < targets.len() && opp_mon(state, #[trigger] targets[i]) is Some ==> !snipeable(
                state,
                targets[i],
            ),
{
    let c = opp_targets(state, targets);
    lemma_opp_targets_members(state, targets);
    lemma_last_max(c, ex_target(state), hp_key(state));
    lemma_last_max(c, energized_target(state, "drakloak"@), energy_key(state));
    lemma_last_max(c, energized_target(state, "dreepy"@), energy_key(state));
    crate::util::lemma_first_where(c, slug_target(state, "drakloak"@));
    crate::util::lemma_first_where(c, slug_target(state, "dreepy"@));
    crate::util::lemma_first_where(c, dusk_target(state));
    if let Some(e) = snipe_spec(state, targets) {
        assert(c.contains(e));
    } else {
        assert forall|i: int| 0 <= i < targets.len() && opp_mon(state, #[trigger] targets[i]) is Some
            implies !snipeable(state, targets[i]) by {
            assert(targets.contains(targets[i]));
            assert(c.contains(targets[i]));
            let k = choose|k: int| 0 <= k < c.len() && c[k] == targets[i];
        }
    }
    if forall|i: int|
        0 <= i < targets.len() && opp_mon(state, #[trigger] targets[i]) is Some ==> !snipeable(
            state,
            targets[i],
        ) {
        assert forall|k: int| 0 <= k < c.len() implies !snipeable(state, #[trigger] c[k]) by {
            assert(c.contains(c[k]));
            let q = choose|q: int| 0 <= q < targets.len() && targets[q] == c[k];
        }
    }
}

} // verus!

verus! {

// ============================================================================
// Laws of one Phantom Dive after boss's orders
// ============================================================================

proof fn lemma_dive_best_ge(opp: Seq<PokemonInPlayDto>, n: int, xi: int)
    requires
        0 <= xi < n,
    ensures
        dive_best(opp, n).0 >= dive_outcome(opp, xi).0,
        dive_best(opp, n).1 >= dive_outcome(opp, xi).1,
    decreases n,
{
    if xi < n - 1 {
        lemma_dive_best_ge(opp, n - 1, xi);
    }
}

proof fn lemma_dive_best_attained(opp: Seq<PokemonInPlayDto>, n: int)
    requires
        1 <= n,
    ensures
        exists|xi: int| 0 <= xi < n && #[trigger] dive_outcome(opp, xi).0 == dive_best(opp, n).0,
        exists|xi: int| 0 <= xi < n && #[trigger] dive_outcome(opp, xi).1 == dive_best(opp, n).1,
    decreases n,
{
    if n > 1 {
        lemma_dive_best_attained(opp, n - 1);
        let a = choose|xi: int| 0 <= xi < n - 1 && #[trigger] dive_outcome(opp, xi).0 == dive_best(opp, n - 1).0;
        let b = choose|xi: int| 0 <= xi < n - 1 && #[trigger] dive_outcome(opp, xi).1 == dive_best(opp, n - 1).1;
        let o = dive_outcome(opp, n - 1);
        if o.0 >= dive_best(opp, n - 1).0 {
            assert(dive_outcome(opp, n - 1).0 == dive_best(opp, n).0);
        } else {
            assert(dive_outcome(opp, a).0 == dive_best(opp, n).0);
        }
        if o.1 >= dive_best(opp, n - 1).1 {
            assert(dive_outcome(opp, n - 1).1 == dive_best(opp, n).1);
        } else {
            assert(dive_outcome(opp, b).1 == dive_best(opp, n).1);
        }
    } else {
        lemma_knap_nonneg(ko_items(opp).remove(0), 6);
        assert(dive_best(opp, 0) == (0int, 0int));
        assert(dive_outcome(opp, 0).0 == dive_best(opp, 1).0);
        assert(dive_outcome(opp, 0).1 == dive_best(opp, 1).1);
    }
}

/// One Phantom Dive after boss's orders takes at least what any plan takes: bring any
/// opposing Pokémon `x` to the front (200 damage knock it out when it has 200 HP or less
/// left) and knock out any choice of the others that 6 damage counters can.
pub proof fn law_phantom_outcomes_beat_every_plan(state: StateDto, xi: int, mask: Seq<bool>)
    requires
        0 <= xi < in_play(state.opp).len(),
        mask.len() + 1 == in_play(state.opp).len(),
        sel_cost(ko_items(in_play(state.opp)).remove(xi), mask) <= 6,
    ensures
        ({
            let x = in_play(state.opp)[xi];
            let rest = ko_items(in_play(state.opp)).remove(xi);
            &&& (if rem_hp(x) <= 200 {
                mon_prize(x)
            } else {
                0
            }) + sel_prizes(rest, mask) <= phantom_outcomes(state).0
            &&& (if rem_hp(x) <= 200 {
                1int
            } else {
                0
            }) + sel_count(rest, mask) <= phantom_outcomes(state).1
        }),
{
    let opp = in_play(state.opp);
    let rest = ko_items(opp).remove(xi);
    assert(rest.len() == mask.len());
    law_knap_optimal(rest, 6, mask);
    lemma_dive_best_ge(opp, opp.len() as int, xi);
}

/// What one Phantom Dive after boss's orders is said to take is taken by some plan: some
/// Pokémon brought to the front and some choice of the others within 6 damage counters
/// take that many prizes, and some (maybe other) plan knocks out that many.
pub proof fn law_phantom_outcomes_attained(state: StateDto)
    requires
        in_play(state.opp).len() >= 1,
    ensures
        exists|xi: int, mask: Seq<bool>|
            0 <= xi < in_play(state.opp).len() && mask.len() + 1 == in_play(state.opp).len()
                && sel_cost(ko_items(in_play(state.opp)).remove(xi), mask) <= 6 && (if rem_hp(
                in_play(state.opp)[xi],
            ) <= 200 {
                mon_prize(in_play(state.opp)[xi])
            } else {
                0
            }) + #[trigger] sel_prizes(ko_items(in_play(state.opp)).remove(xi), mask)
                == phantom_outcomes(state).0,
        exists|xi: int, mask: Seq<bool>|
            0 <= xi < in_play(state.opp).len() && mask.len() + 1 == in_play(state.opp).len()
                && sel_cost(ko_items(in_play(state.opp)).remove(xi), mask) <= 6 && (if rem_hp(
                in_play(state.opp)[xi],
            ) <= 200 {
                1int
            } else {
                0
            }) + #[trigger] sel_count(ko_items(in_play(state.opp)).remove(xi), mask)
                == phantom_outcomes(state).1,
{
    let opp = in_play(state.opp);
    let n = opp.len() as int;
    lemma_dive_best_attained(opp, n);
    let a = choose|xi: int| 0 <= xi < n && #[trigger] dive_outcome(opp, xi).0 == dive_best(opp, n).0;
    let b = choose|xi: int| 0 <= xi < n && #[trigger] dive_outcome(opp, xi).1 == dive_best(opp, n).1;
    let ma = knap_prize_witness(ko_items(opp).remove(a), 6);
    let mb = knap_count_witness(ko_items(opp).remove(b), 6);
    assert(sel_prizes(ko_items(opp).remove(a), ma) == knap(ko_items(opp).remove(a), 6).0);
    assert(sel_count(ko_items(opp).remove(b), mb) == knap(ko_items(opp).remove(b), 6).1);
}

} // verus!
