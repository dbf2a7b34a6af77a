//! Decision policies of the bundled bots, and the board-reading helpers they share.
//!
//! Each bot implements [`BotPolicy`]. [`build`] makes a bot from its name; [`available`]
//! lists the names.

use vstd::prelude::*;

use crate::cards::{strs_view, CardFacts};
use crate::rng::{draw_below, draw_between, draw_shuffle};
use crate::transport::TransportError;
use crate::util::{
    card_is, card_is_exec, card_view, contains_u32, first_where, find_first, lemma_first_at,
    lemma_first_none, lemma_first_where, count_where, lemma_count_where_step, opt_int,
};
use crate::wire::action::{Action, ActionDto};
use crate::wire::protocol::{PromptMsg, RequestMsg};
use crate::wire::state::{EntityDto, PokemonInPlayDto, StateDto};

use rand_chacha::ChaCha20Rng;

pub mod board;
pub mod dragapult_takeuchi;
pub mod dragapult_yopifutto;
pub mod random;

pub use dragapult_takeuchi::DragapultTakeuchiBot;
pub use dragapult_yopifutto::DragapultYopifuttoBot;
pub use random::RandomPolicy;

verus! {

/// The parts of an answer to a prompt (assembled into a choice message).
#[derive(Debug, Clone, PartialEq, Eq)]
pub struct PromptChoice {
    pub selected: Vec<u32>,
    pub counts: Vec<u8>,
    pub yes: Option<bool>,
    pub branch_index: Option<u8>,
}

/// A prompt answer that selects `selected` and nothing else.
pub open spec fn selects(c: PromptChoice, selected: Seq<u32>) -> bool {
    &&& c.selected@ == selected
    &&& c.counts@ == Seq::<u8>::empty()
    &&& c.yes is None
    &&& c.branch_index is None
}

/// An answer that selects `selected` and nothing else.
pub fn choice_of(selected: Vec<u32>) -> (r: PromptChoice)
    ensures
        selects(r, selected@),
{
    PromptChoice { selected, counts: Vec::new(), yes: None, branch_index: None }
}

/// An answer that selects the single entity `e`.
pub fn choice_one(e: u32) -> (r: PromptChoice)
    ensures
        selects(r, seq![e]),
{
    let mut v: Vec<u32> = Vec::new();
    v.push(e);
    choice_of(v)
}

/// The decision interface of a bot.
pub trait BotPolicy {
    /// Picks one action of the player's turn, from `req.legal_actions`.
    fn choose_action(&mut self, req: &RequestMsg, rng: &mut ChaCha20Rng) -> Result<
        ActionDto,
        TransportError,
    >;

    /// Answers a prompt raised while an effect resolves.
    fn choose_prompt(&mut self, p: &PromptMsg, rng: &mut ChaCha20Rng) -> PromptChoice;
}

/// Names of the available bots.
pub open spec fn bot_names() -> Seq<Seq<char>> {
    seq!["random"@, "dragapult-takeuchi"@, "dragapult-yopifutto"@]
}

/// Names of the available bots (for `--bot` help and checks).
pub fn available() -> (r: &'static [&'static str])
    ensures
        strs_view(r@) == bot_names(),
{
    let r: &'static [&'static str] = &["random", "dragapult-takeuchi", "dragapult-yopifutto"];
    assert(strs_view(r@) =~= bot_names());
    r
}

// ============================================================================
// Board reading, shared by both personas
// ============================================================================

/// A Pokémon with entity id `e`.
pub open spec fn mon_id_is(e: u32) -> spec_fn(PokemonInPlayDto) -> bool {
    |p: PokemonInPlayDto| p.entity_id == e
}

/// An entity with id `e`.
pub open spec fn ent_id_is(e: u32) -> spec_fn(EntityDto) -> bool {
    |h: EntityDto| h.entity_id == e
}

/// A Pokémon whose slug is `slug`.
pub open spec fn mon_is(slug: Seq<char>) -> spec_fn(PokemonInPlayDto) -> bool {
    |p: PokemonInPlayDto| card_is(p.card, slug)
}

/// An entity whose slug is `slug`.
pub open spec fn ent_is(slug: Seq<char>) -> spec_fn(EntityDto) -> bool {
    |h: EntityDto| card_is(h.card, slug)
}

/// The slug of my entity `e`: the active Pokémon, else the first bench Pokémon with that id,
/// else the first hand card with that id.
pub open spec fn my_slug(state: StateDto, e: u32) -> Option<Seq<char>> {
    if state.me.active is Some && state.me.active->0.entity_id == e {
        card_view(state.me.active->0.card)
    } else {
        match find_first(state.me.bench@, mon_id_is(e)) {
            Some(b) => card_view(b.card),
            None => match find_first(state.me.hand@, ent_id_is(e)) {
                Some(h) => card_view(h.card),
                None => None,
            },
        }
    }
}

/// Index of the first bench Pokémon with id `e`.
fn bench_index_of(bench: &[PokemonInPlayDto], e: u32) -> (r: Option<usize>)
    ensures
        opt_int(r) == first_where(bench@, mon_id_is(e)),
        r matches Some(k) ==> k < bench@.len(),
{
    let mut i: usize = 0;
    while i < bench.len()
        invariant
            i <= bench@.len(),
            forall|j: int| 0 <= j < i ==> !mon_id_is(e)(#[trigger] bench@[j]),
        decreases bench.len() - i,
    {
        if bench[i].entity_id == e {
            proof {
                lemma_first_at(bench@, mon_id_is(e), i as int);
            }
            return Some(i);
        }
        i = i + 1;
    }
    proof {
        lemma_first_none(bench@, mon_id_is(e));
    }
    None
}

/// Index of the first bench Pokémon with id `e`.
pub fn bench_index_of_pub(bench: &[PokemonInPlayDto], e: u32) -> (r: Option<usize>)
    ensures
        opt_int(r) == first_where(bench@, mon_id_is(e)),
        r matches Some(k) ==> k < bench@.len(),
{
    bench_index_of(bench, e)
}

/// Index of the first entity with id `e`.
fn entity_index_of(v: &[EntityDto], e: u32) -> (r: Option<usize>)
    ensures
        opt_int(r) == first_where(v@, ent_id_is(e)),
        r matches Some(k) ==> k < v@.len(),
{
    let mut i: usize = 0;
    while i < v.len()
        invariant
            i <= v@.len(),
            forall|j: int| 0 <= j < i ==> !ent_id_is(e)(#[trigger] v@[j]),
        decreases v.len() - i,
    {
        if v[i].entity_id == e {
            proof {
                lemma_first_at(v@, ent_id_is(e), i as int);
            }
            return Some(i);
        }
        i = i + 1;
    }
    proof {
        lemma_first_none(v@, ent_id_is(e));
    }
    None
}

/// The slug of my entity `e` (active, then bench, then hand).
pub fn my_slug_of(state: &StateDto, e: u32) -> (r: Option<&String>)
    ensures
        match r {
            Some(s) => my_slug(*state, e) == Some(s@),
            None => my_slug(*state, e) is None,
        },
{
    if let Some(a) = &state.me.active {
        if a.entity_id == e {
            return match &a.card {
                Some(c) => Some(c),
                None => None,
            };
        }
    }
    if let Some(i) = bench_index_of(state.me.bench.as_slice(), e) {
        return match &state.me.bench[i].card {
            Some(c) => Some(c),
            None => None,
        };
    }
    match entity_index_of(state.me.hand.as_slice(), e) {
        Some(i) => match &state.me.hand[i].card {
            Some(c) => Some(c),
            None => None,
        },
        None => None,
    }
}

/// Whether my entity `e` has slug `lit`.
pub fn my_slug_is(state: &StateDto, e: u32, lit: &str) -> (r: bool)
    ensures
        r == (my_slug(*state, e) == Some(lit@)),
{
    match my_slug_of(state, e) {
        Some(s) => crate::util::str_eq(s.as_str(), lit),
        None => false,
    }
}

/// My own turn number: turns count from 1 and alternate, so it is `ceil(turn / 2)`
/// (1 = my first turn); 0 during setup (turn 0).
pub open spec fn turn_number(state: StateDto) -> int {
    (state.turn + 1) / 2
}

/// My own turn number (`ceil(turn / 2)`).
pub fn my_turn_number(state: &StateDto) -> (r: u32)
    ensures
        r == turn_number(*state),
{
    state.turn / 2 + state.turn % 2
}

/// Whether `slug` is a rule-box Pokémon according to the card facts.
pub fn slug_is_ex(cards: &CardFacts, slug: &str) -> (r: bool)
    ensures
        r == (cards@.contains_key(slug@) && cards@[slug@].prize_value >= 2),
{
    cards.is_ex(slug)
}

/// Sizes a machine can hold: every entry of these vectors takes more than 8 bytes, so none
/// of them reaches `usize::MAX / 8` elements.
pub open spec fn board_fits(state: StateDto) -> bool {
    &&& state.me.bench@.len() < usize::MAX / 8
    &&& state.me.hand@.len() < usize::MAX / 8
    &&& state.opp.bench@.len() < usize::MAX / 8
    &&& state.opp.hand@.len() < usize::MAX / 8
}

/// Number of my Pokémon in play (active and bench) with slug `slug`.
pub open spec fn count_in_play_spec(state: StateDto, slug: Seq<char>) -> int {
    (if state.me.active matches Some(a) && card_is(a.card, slug) {
        1int
    } else {
        0int
    }) + count_where(state.me.bench@, mon_is(slug))
}

/// Number of Pokémon in `v` with slug `slug`.
pub fn count_mons(v: &[PokemonInPlayDto], slug: &str) -> (r: usize)
    ensures
        r == count_where(v@, mon_is(slug@)),
{
    let mut n: usize = 0;
    let mut i: usize = 0;
    while i < v.len()
        invariant
            i <= v@.len(),
            n == count_where(v@.take(i as int), mon_is(slug@)),
            n <= i,
        decreases v.len() - i,
    {
        proof {
            lemma_count_where_step(v@, mon_is(slug@), i as int);
        }
        if card_is_exec(&v[i].card, slug) {
            n = n + 1;
        }
        i = i + 1;
    }
    proof {
        assert(v@.take(i as int) =~= v@);
    }
    n
}

/// Number of entities in `v` with slug `slug`.
pub fn count_ents(v: &[EntityDto], slug: &str) -> (r: usize)
    ensures
        r == count_where(v@, ent_is(slug@)),
{
    let mut n: usize = 0;
    let mut i: usize = 0;
    while i < v.len()
        invariant
            i <= v@.len(),
            n == count_where(v@.take(i as int), ent_is(slug@)),
            n <= i,
        decreases v.len() - i,
    {
        proof {
            lemma_count_where_step(v@, ent_is(slug@), i as int);
        }
        if card_is_exec(&v[i].card, slug) {
            n = n + 1;
        }
        i = i + 1;
    }
    proof {
        assert(v@.take(i as int) =~= v@);
    }
    n
}

/// Number of my Pokémon in play (active and bench) with slug `slug`.
pub fn count_in_play(state: &StateDto, slug: &str) -> (r: usize)
    requires
        board_fits(*state),
    ensures
        r == count_in_play_spec(*state, slug@),
        r <= state.me.bench@.len() + 1,
{
    let active: usize = match &state.me.active {
        Some(a) => if card_is_exec(&a.card, slug) {
            1
        } else {
            0
        },
        None => 0,
    };
    let bench = count_mons(state.me.bench.as_slice(), slug);
    proof {
        crate::util::lemma_count_where_le(state.me.bench@, mon_is(slug@));
    }
    active + bench
}

/// Number of cards with slug `slug` in my hand.
pub open spec fn count_in_hand_spec(state: StateDto, slug: Seq<char>) -> int {
    count_where(state.me.hand@, ent_is(slug)) as int
}

/// Number of cards with slug `slug` in my hand.
pub fn count_in_hand(state: &StateDto, slug: &str) -> (r: usize)
    ensures
        r == count_in_hand_spec(*state, slug@),
        r <= state.me.hand@.len(),
{
    proof {
        crate::util::lemma_count_where_le(state.me.hand@, ent_is(slug@));
    }
    count_ents(state.me.hand.as_slice(), slug)
}

} // verus!

verus! {

/// The slug of the hand card that a `PlayCard` action plays (`None` for other actions).
pub open spec fn play_slug(state: StateDto, a: Action) -> Option<Seq<char>> {
    match a {
        Action::PlayCard { entity_id, .. } => my_slug(state, entity_id.0),
        _ => None,
    }
}

/// A `PlayCard` of a card with slug `slug`.
pub open spec fn plays(state: StateDto, slug: Seq<char>) -> spec_fn(Action) -> bool {
    |a: Action| play_slug(state, a) == Some(slug)
}

/// A `UseAbility` of my Pokémon with slug `slug`.
pub open spec fn uses_ability_of(state: StateDto, slug: Seq<char>) -> spec_fn(Action) -> bool {
    |a: Action|
        match a {
            Action::UseAbility { entity_id, .. } => my_slug(state, entity_id.0) == Some(slug),
            _ => false,
        }
}

/// The slug of the card that `a` plays, if it is a `PlayCard`.
pub fn play_card_slug<'a>(state: &'a StateDto, a: &Action) -> (r: Option<&'a String>)
    ensures
        match r {
            Some(s) => play_slug(*state, *a) == Some(s@),
            None => play_slug(*state, *a) is None,
        },
{
    match a {
        Action::PlayCard { entity_id, .. } => my_slug_of(state, entity_id.0),
        _ => None,
    }
}

/// Whether `a` plays a card with slug `lit`.
pub fn plays_slug(state: &StateDto, a: &Action, lit: &str) -> (r: bool)
    ensures
        r == plays(*state, lit@)(*a),
{
    match a {
        Action::PlayCard { entity_id, .. } => my_slug_is(state, entity_id.0, lit),
        _ => false,
    }
}

/// Index of the first legal action that plays a card with slug `lit`.
pub fn find_play(state: &StateDto, legal: &[Action], lit: &str) -> (r: Option<usize>)
    ensures
        opt_int(r) == first_where(legal@, plays(*state, lit@)),
        r matches Some(k) ==> k < legal@.len(),
{
    let mut i: usize = 0;
    while i < legal.len()
        invariant
            i <= legal@.len(),
            forall|j: int| 0 <= j < i ==> !plays(*state, lit@)(#[trigger] legal@[j]),
        decreases legal.len() - i,
    {
        if plays_slug(state, &legal[i], lit) {
            proof {
                lemma_first_at(legal@, plays(*state, lit@), i as int);
            }
            return Some(i);
        }
        i = i + 1;
    }
    proof {
        lemma_first_none(legal@, plays(*state, lit@));
    }
    None
}

/// Whether `a` uses an ability of my Pokémon with slug `lit`.
pub fn uses_ability_slug(state: &StateDto, a: &Action, lit: &str) -> (r: bool)
    ensures
        r == uses_ability_of(*state, lit@)(*a),
{
    match a {
        Action::UseAbility { entity_id, .. } => my_slug_is(state, entity_id.0, lit),
        _ => false,
    }
}

/// Index of the first legal action that uses an ability of my Pokémon with slug `lit`.
pub fn find_ability(state: &StateDto, legal: &[Action], lit: &str) -> (r: Option<usize>)
    ensures
        opt_int(r) == first_where(legal@, uses_ability_of(*state, lit@)),
        r matches Some(k) ==> k < legal@.len(),
{
    let mut i: usize = 0;
    while i < legal.len()
        invariant
            i <= legal@.len(),
            forall|j: int| 0 <= j < i ==> !uses_ability_of(*state, lit@)(#[trigger] legal@[j]),
        decreases legal.len() - i,
    {
        if uses_ability_slug(state, &legal[i], lit) {
            proof {
                lemma_first_at(legal@, uses_ability_of(*state, lit@), i as int);
            }
            return Some(i);
        }
        i = i + 1;
    }
    proof {
        lemma_first_none(legal@, uses_ability_of(*state, lit@));
    }
    None
}

/// The recon-directive ability: drakloak's only activated ability, so any legal
/// `UseAbility` of a drakloak.
pub open spec fn recon_directive_spec(state: StateDto, legal: Seq<Action>) -> Option<int> {
    first_where(legal, uses_ability_of(state, "drakloak"@))
}

/// Index of the recon directive (drakloak's ability) among the legal actions.
pub fn find_recon_directive(state: &StateDto, legal: &[Action]) -> (r: Option<usize>)
    ensures
        opt_int(r) == recon_directive_spec(*state, legal@),
        r matches Some(k) ==> k < legal@.len(),
{
    find_ability(state, legal, "drakloak")
}

/// The first legal `PlayCard` whose slug comes first in `pri`.
pub open spec fn first_play_by_priority(
    state: StateDto,
    legal: Seq<Action>,
    pri: Seq<Seq<char>>,
) -> Option<int>
    decreases pri.len(),
{
    if pri.len() == 0 {
        None
    } else {
        match first_where(legal, plays(state, pri[0])) {
            Some(i) => Some(i),
            None => first_play_by_priority(state, legal, pri.drop_first()),
        }
    }
}

/// Like `first_play_by_priority`, except that while a dragapult-ex is in play no
/// dragapult-ex is played (evolution into it is held back).
pub open spec fn evolution_spec(state: StateDto, legal: Seq<Action>, pri: Seq<Seq<char>>) -> Option<
    int,
>
    decreases pri.len(),
{
    if pri.len() == 0 {
        None
    } else if pri[0] == "dragapult-ex"@ && count_in_play_spec(state, "dragapult-ex"@) >= 1 {
        evolution_spec(state, legal, pri.drop_first())
    } else {
        match first_where(legal, plays(state, pri[0])) {
            Some(i) => Some(i),
            None => evolution_spec(state, legal, pri.drop_first()),
        }
    }
}

/// First legal `PlayCard` of a basic Pokémon in `priority` order.
pub fn find_basic_placement(state: &StateDto, legal: &[Action], priority: &[&str]) -> (r: Option<
    usize,
>)
    ensures
        opt_int(r) == first_play_by_priority(*state, legal@, strs_view(priority@)),
        r matches Some(k) ==> k < legal@.len(),
{
    let ghost pv = strs_view(priority@);
    proof {
        assert(pv.skip(0) =~= pv);
    }
    let mut k: usize = 0;
    while k < priority.len()
        invariant
            k <= priority@.len(),
            pv == strs_view(priority@),
            first_play_by_priority(*state, legal@, pv) == first_play_by_priority(
                *state,
                legal@,
                pv.skip(k as int),
            ),
        decreases priority.len() - k,
    {
        proof {
            assert(pv.skip(k as int).drop_first() =~= pv.skip(k + 1));
            assert(pv.skip(k as int)[0] == priority@[k as int]@);
        }
        if let Some(i) = find_play(state, legal, priority[k]) {
            return Some(i);
        }
        k = k + 1;
    }
    None
}

/// Evolution in `priority` order, holding drakloak back from dragapult-ex while a
/// dragapult-ex is in play.
pub fn find_evolution(state: &StateDto, legal: &[Action], priority: &[&str]) -> (r: Option<usize>)
    requires
        board_fits(*state),
    ensures
        opt_int(r) == evolution_spec(*state, legal@, strs_view(priority@)),
        r matches Some(k) ==> k < legal@.len(),
{
    let ghost pv = strs_view(priority@);
    proof {
        assert(pv.skip(0) =~= pv);
    }
    let mut k: usize = 0;
    while k < priority.len()
        invariant
            k <= priority@.len(),
            pv == strs_view(priority@),
            evolution_spec(*state, legal@, pv) == evolution_spec(*state, legal@, pv.skip(k as int)),
        decreases priority.len() - k,
    {
        proof {
            assert(pv.skip(k as int).drop_first() =~= pv.skip(k + 1));
            assert(pv.skip(k as int)[0] == priority@[k as int]@);
        }
        let want = priority[k];
        if crate::util::str_eq(want, "dragapult-ex") && count_in_play(state, "dragapult-ex") >= 1 {
            k = k + 1;
            continue;
        }
        if let Some(i) = find_play(state, legal, want) {
            return Some(i);
        }
        k = k + 1;
    }
    None
}

/// My entity with id `e` has slug `slug`.
pub open spec fn id_has_slug(state: StateDto, slug: Seq<char>) -> spec_fn(u32) -> bool {
    |e: u32| my_slug(state, e) == Some(slug)
}

/// Scans `pri` in order and takes the first eligible entity of that slug; when no slug
/// matches, the first eligible entity.
pub open spec fn pick_by_priority_spec(state: StateDto, eligible: Seq<u32>, pri: Seq<Seq<char>>) -> Option<
    u32,
>
    decreases pri.len(),
{
    if pri.len() == 0 {
        if eligible.len() > 0 {
            Some(eligible[0])
        } else {
            None
        }
    } else {
        match find_first(eligible, id_has_slug(state, pri[0])) {
            Some(e) => Some(e),
            None => pick_by_priority_spec(state, eligible, pri.drop_first()),
        }
    }
}

/// First eligible entity by slug priority, else the first eligible entity.
pub fn pick_by_slug_priority(state: &StateDto, eligible: &[u32], priority: &[&str]) -> (r: Option<
    u32,
>)
    ensures
        r == pick_by_priority_spec(*state, eligible@, strs_view(priority@)),
{
    let ghost pv = strs_view(priority@);
    proof {
        assert(pv.skip(0) =~= pv);
    }
    let mut k: usize = 0;
    while k < priority.len()
        invariant
            k <= priority@.len(),
            pv == strs_view(priority@),
            pick_by_priority_spec(*state, eligible@, pv) == pick_by_priority_spec(
                *state,
                eligible@,
                pv.skip(k as int),
            ),
        decreases priority.len() - k,
    {
        proof {
            assert(pv.skip(k as int).drop_first() =~= pv.skip(k + 1));
            assert(pv.skip(k as int)[0] == priority@[k as int]@);
        }
        let want = priority[k];
        let mut j: usize = 0;
        while j < eligible.len()
            invariant
                j <= eligible@.len(),
                forall|t: int| 0 <= t < j ==> !id_has_slug(*state, want@)(#[trigger] eligible@[t]),
            decreases eligible.len() - j,
        {
            if my_slug_is(state, eligible[j], want) {
                proof {
                    lemma_first_at(eligible@, id_has_slug(*state, want@), j as int);
                }
                return Some(eligible[j]);
            }
            j = j + 1;
        }
        proof {
            lemma_first_none(eligible@, id_has_slug(*state, want@));
        }
        k = k + 1;
    }
    if eligible.len() > 0 {
        Some(eligible[0])
    } else {
        None
    }
}

} // verus!

verus! {

/// Some card of my hand has id `id`.
pub open spec fn in_my_hand(state: StateDto, id: u32) -> bool {
    exists|j: int| 0 <= j < state.me.hand@.len() && #[trigger] state.me.hand@[j].entity_id == id
}

/// Every option is a card of my hand (and there is at least one), on a prompt that carries
/// the board: the prompt then asks for a hand-discard cost rather than a deck search.
pub open spec fn hand_discard_spec(p: PromptMsg, options: Seq<EntityDto>) -> bool {
    &&& p.state is Some
    &&& options.len() > 0
    &&& forall|i: int| 0 <= i < options.len() ==> #[trigger] in_my_hand(p.state->0, options[i].entity_id)
}

/// Whether a zone choice is a hand-discard cost (every option is in my hand).
pub fn is_hand_discard(p: &PromptMsg, options: &[EntityDto]) -> (r: bool)
    ensures
        r == hand_discard_spec(*p, options@),
{
    let state = match &p.state {
        Some(s) => s,
        None => return false,
    };
    if options.len() == 0 {
        return false;
    }
    let hand = state.me.hand.as_slice();
    let mut i: usize = 0;
    while i < options.len()
        invariant
            i <= options@.len(),
            hand@ == state.me.hand@,
            forall|t: int| 0 <= t < i ==> #[trigger] in_my_hand(*state, options@[t].entity_id),
        decreases options.len() - i,
    {
        let found = entity_index_of(hand, options[i].entity_id);
        proof {
            lemma_first_where(hand@, ent_id_is(options@[i as int].entity_id));
        }
        match found {
            Some(j) => {
                assert(hand@[j as int].entity_id == options@[i as int].entity_id);
                assert(in_my_hand(*state, options@[i as int].entity_id));
            },
            None => {
                assert(!in_my_hand(*state, options@[i as int].entity_id)) by {
                    if in_my_hand(*state, options@[i as int].entity_id) {
                        let j = choose|j: int|
                            0 <= j < state.me.hand@.len() && #[trigger] state.me.hand@[j].entity_id
                                == options@[i as int].entity_id;
                        assert(!ent_id_is(options@[i as int].entity_id)(hand@[j]));
                    }
                }
                return false;
            },
        }
        i = i + 1;
    }
    true
}

/// `slugs` in an order that the draw decides (where the strategy leaves the order open).
pub fn shuffle_strs(slugs: &[&'static str], rng: &mut ChaCha20Rng) -> (r: Vec<&'static str>)
    ensures
        crate::rng::reorders(r@, slugs@),
{
    let mut v: Vec<&'static str> = Vec::new();
    let mut i: usize = 0;
    while i < slugs.len()
        invariant
            i <= slugs@.len(),
            v@ == slugs@.take(i as int),
        decreases slugs.len() - i,
    {
        v.push(slugs[i]);
        proof {
            assert(slugs@.take(i + 1) =~= slugs@.take(i as int).push(slugs@[i as int]));
        }
        i = i + 1;
    }
    proof {
        assert(slugs@.take(i as int) =~= slugs@);
    }
    draw_shuffle(rng, v)
}

/// `r` is `v` reordered, seen through the slugs' characters.
pub open spec fn reorders_names(r: Seq<Seq<char>>, v: Seq<Seq<char>>) -> bool {
    crate::rng::reorders(r, v)
}

/// A reordering of string slices is a reordering of their names.
pub proof fn lemma_reorders_view(r: Seq<&str>, v: Seq<&str>)
    requires
        crate::rng::reorders(r, v),
    ensures
        reorders_names(strs_view(r), strs_view(v)),
{
    let p = choose|p: Seq<int>|
        crate::rng::is_index_perm(p, v.len()) && #[trigger] r.len() == v.len() && forall|k: int|
            0 <= k < r.len() ==> r[k] == v[p[k]];
    assert(crate::rng::is_index_perm(p, strs_view(v).len()));
    assert(strs_view(r).len() == strs_view(v).len());
    assert forall|k: int| 0 <= k < strs_view(r).len() implies strs_view(r)[k] == strs_view(v)[p[k]] by {
        assert(r[k] == v[p[k]]);
    }
}

// ----------------------------------------------------------------------------
// Deck search by slug priority
// ----------------------------------------------------------------------------

/// One option considered for slug `want`: taken while fewer than `max` are taken, it has
/// that slug and it is not taken yet.
pub open spec fn zone_step(sel: Seq<u32>, o: EntityDto, want: Seq<char>, max: int) -> Seq<u32> {
    if sel.len() < max && card_is(o.card, want) && !sel.contains(o.entity_id) {
        sel.push(o.entity_id)
    } else {
        sel
    }
}

/// All options considered, in order, for slug `want`.
pub open spec fn zone_pass(sel: Seq<u32>, opts: Seq<EntityDto>, want: Seq<char>, max: int) -> Seq<
    u32,
>
    decreases opts.len(),
{
    if opts.len() == 0 {
        sel
    } else {
        zone_step(zone_pass(sel, opts.drop_last(), want, max), opts.last(), want, max)
    }
}

/// The options considered for every slug of `pri`, in priority order.
pub open spec fn zone_all(sel: Seq<u32>, opts: Seq<EntityDto>, pri: Seq<Seq<char>>, max: int) -> Seq<
    u32,
>
    decreases pri.len(),
{
    if pri.len() == 0 {
        sel
    } else {
        zone_pass(zone_all(sel, opts, pri.drop_last(), max), opts, pri.last(), max)
    }
}

/// Topping up with not-yet-taken options, in order, while fewer than `min` are taken.
pub open spec fn fill_pass(sel: Seq<u32>, opts: Seq<EntityDto>, min: int) -> Seq<u32>
    decreases opts.len(),
{
    if opts.len() == 0 {
        sel
    } else {
        let s = fill_pass(sel, opts.drop_last(), min);
        if s.len() < min && !s.contains(opts.last().entity_id) {
            s.push(opts.last().entity_id)
        } else {
            s
        }
    }
}

/// The entities a deck search takes: by slug priority up to `max`, then topped up to `min`
/// from the remaining options.
pub open spec fn pick_from_zone_spec(opts: Seq<EntityDto>, pri: Seq<Seq<char>>, min: u8, max: u8) -> Seq<
    u32,
> {
    fill_pass(zone_all(Seq::empty(), opts, pri, max as int), opts, min as int)
}

/// Deck search: takes options by slug priority up to `max`, then tops up to `min` from the
/// remaining options (so the answer is never short of the minimum).
pub fn pick_from_zone(options: &[EntityDto], priority: &[&str], min: u8, max: u8) -> (r: PromptChoice)
    ensures
        selects(r, pick_from_zone_spec(options@, strs_view(priority@), min, max)),
{
    let ghost pv = strs_view(priority@);
    let mut selected: Vec<u32> = Vec::new();
    let mut k: usize = 0;
    while k < priority.len()
        invariant
            k <= priority@.len(),
            pv == strs_view(priority@),
            selected@ == zone_all(Seq::empty(), options@, pv.take(k as int), max as int),
        decreases priority.len() - k,
    {
        let want = priority[k];
        let ghost base = selected@;
        let mut j: usize = 0;
        while j < options.len()
            invariant
                j <= options@.len(),
                selected@ == zone_pass(base, options@.take(j as int), want@, max as int),
            decreases options.len() - j,
        {
            proof {
                assert(options@.take(j + 1).drop_last() =~= options@.take(j as int));
                assert(options@.take(j + 1).last() == options@[j as int]);
            }
            let o = &options[j];
            if selected.len() < max as usize && card_is_exec(&o.card, want) && !contains_u32(
                selected.as_slice(),
                o.entity_id,
            ) {
                selected.push(o.entity_id);
            }
            j = j + 1;
        }
        proof {
            assert(options@.take(j as int) =~= options@);
            assert(pv.take(k + 1).drop_last() =~= pv.take(k as int));
            assert(pv.take(k + 1).last() == want@);
        }
        k = k + 1;
    }
    proof {
        assert(pv.take(k as int) =~= pv);
    }
    let ghost base = selected@;
    let mut j: usize = 0;
    while j < options.len()
        invariant
            j <= options@.len(),
            selected@ == fill_pass(base, options@.take(j as int), min as int),
        decreases options.len() - j,
    {
        proof {
            assert(options@.take(j + 1).drop_last() =~= options@.take(j as int));
            assert(options@.take(j + 1).last() == options@[j as int]);
        }
        if selected.len() < min as usize && !contains_u32(selected.as_slice(), options[j].entity_id) {
            selected.push(options[j].entity_id);
        }
        j = j + 1;
    }
    proof {
        assert(options@.take(j as int) =~= options@);
    }
    choice_of(selected)
}

// ----------------------------------------------------------------------------
// Random subsets
// ----------------------------------------------------------------------------

/// `r` takes elements of `pool` at distinct positions.
pub open spec fn picks_distinct(r: Seq<u32>, pool: Seq<u32>) -> bool {
    exists|ix: Seq<int>|
        ix.len() == r.len() && (forall|k: int|
            0 <= k < ix.len() ==> 0 <= #[trigger] ix[k] < pool.len() && r[k] == pool[ix[k]])
            && (forall|k1: int, k2: int| 0 <= k1 < k2 < ix.len() ==> ix[k1] != ix[k2])
}

/// Bounds of a random subset's size: `[min, max]` clipped to the pool.
pub open spec fn subset_lo(len: nat, min: u8) -> int {
    if (min as int) < len {
        min as int
    } else {
        len as int
    }
}

pub open spec fn subset_hi(len: nat, min: u8, max: u8) -> int {
    let h = if (max as int) < len {
        max as int
    } else {
        len as int
    };
    if h < subset_lo(len, min) {
        subset_lo(len, min)
    } else {
        h
    }
}

/// A random subset of `pool` with between `min` and `max` elements (clipped to the pool),
/// no position taken twice. An empty pool gives an empty subset.
pub fn pick_random_subset(rng: &mut ChaCha20Rng, pool: &[u32], min: u8, max: u8) -> (r: Vec<u32>)
    ensures
        pool@.len() == 0 ==> r@.len() == 0,
        subset_lo(pool@.len(), min) <= r@.len() <= subset_hi(pool@.len(), min, max),
        picks_distinct(r@, pool@),
{
    if pool.len() == 0 {
        let r: Vec<u32> = Vec::new();
        assert(picks_distinct(r@, pool@)) by {
            assert(Seq::<int>::empty().len() == r@.len());
        }
        return r;
    }
    let len = pool.len();
    let lo: usize = if (min as usize) < len {
        min as usize
    } else {
        len
    };
    let h: usize = if (max as usize) < len {
        max as usize
    } else {
        len
    };
    let hi: usize = if h < lo {
        lo
    } else {
        h
    };
    let n: usize = if hi == lo {
        lo
    } else {
        draw_between(rng, lo, hi)
    };
    let mut indices: Vec<usize> = Vec::new();
    let mut t: usize = 0;
    while t < len
        invariant
            t <= len,
            indices@.len() == t,
            forall|k: int| 0 <= k < t ==> indices@[k] == k,
        decreases len - t,
    {
        indices.push(t);
        t = t + 1;
    }
    let mut i: usize = 0;
    while i < n
        invariant
            n <= len,
            len == pool@.len(),
            i <= n,
            indices@.len() == len,
            forall|k: int| 0 <= k < len ==> #[trigger] indices@[k] < len,
            forall|k1: int, k2: int| 0 <= k1 < k2 < len ==> indices@[k1] != indices@[k2],
        decreases n - i,
    {
        let j = draw_below(rng, i, len);
        let a = indices[i];
        let b = indices[j];
        indices.set(i, b);
        indices.set(j, a);
        i = i + 1;
    }
    let mut out: Vec<u32> = Vec::new();
    let mut k: usize = 0;
    while k < n
        invariant
            n <= len,
            len == pool@.len(),
            k <= n,
            indices@.len() == len,
            forall|q: int| 0 <= q < len ==> #[trigger] indices@[q] < len,
            out@.len() == k,
            forall|q: int| 0 <= q < k ==> out@[q] == pool@[indices@[q] as int],
        decreases n - k,
    {
        out.push(pool[indices[k]]);
        k = k + 1;
    }
    proof {
        let ix = indices@.take(n as int).map_values(|x: usize| x as int);
        assert(ix.len() == out@.len());
        assert forall|q: int| 0 <= q < ix.len() implies 0 <= #[trigger] ix[q] < pool@.len()
            && out@[q] == pool@[ix[q]] by {
            assert(ix[q] == indices@[q] as int);
        }
        assert forall|k1: int, k2: int| 0 <= k1 < k2 < ix.len() implies ix[k1] != ix[k2] by {
            assert(ix[k1] == indices@[k1] as int);
            assert(ix[k2] == indices@[k2] as int);
        }
    }
    out
}

} // verus!

verus! {

/// Whether the board's vectors are within `board_fits`.
pub fn board_fits_exec(state: &StateDto) -> (r: bool)
    ensures
        r == board_fits(*state),
{
    state.me.bench.len() < usize::MAX / 8 && state.me.hand.len() < usize::MAX / 8
        && state.opp.bench.len() < usize::MAX / 8 && state.opp.hand.len() < usize::MAX / 8
}

/// Whether `s` holds the characters of `lit`.
pub fn string_is(s: &String, lit: &str) -> (r: bool)
    ensures
        r == (s@ == lit@),
{
    crate::util::str_eq(s.as_str(), lit)
}

} // verus!

verus! {

/// A bot chosen by name.
pub enum Bot {
    Random(RandomPolicy),
    Takeuchi(DragapultTakeuchiBot),
    Yopifutto(DragapultYopifuttoBot),
}

/// Builds the bot named `name` (the card facts are copied for the bots that read them);
/// `None` for an unknown name.
pub fn build(name: &str, cards: &CardFacts) -> (r: Option<Bot>)
    ensures
        name@ == "random"@ ==> r matches Some(Bot::Random(_)),
        name@ == "dragapult-takeuchi"@ ==> (r matches Some(Bot::Takeuchi(b)) && b@
            == dragapult_takeuchi::fresh_memory() && b.registry@ == cards@),
        name@ == "dragapult-yopifutto"@ ==> (r matches Some(Bot::Yopifutto(b)) && b@
            == dragapult_yopifutto::fresh_yopi() && b.registry@ == cards@),
        !bot_names().contains(name@) ==> r is None,
        r is Some <==> bot_names().contains(name@),
{
    proof {
        reveal_strlit("random");
        reveal_strlit("dragapult-takeuchi");
        reveal_strlit("dragapult-yopifutto");
    }
    if crate::util::str_eq(name, "random") {
        assert("random"@.len() == 6);
        assert("dragapult-takeuchi"@.len() == 18);
        assert("dragapult-yopifutto"@.len() == 19);
        Some(Bot::Random(RandomPolicy))
    } else if crate::util::str_eq(name, "dragapult-takeuchi") {
        assert("dragapult-takeuchi"@.len() == 18);
        assert("dragapult-yopifutto"@.len() == 19);
        let b = DragapultTakeuchiBot::new(cards.duplicate());
        Some(Bot::Takeuchi(b))
    } else if crate::util::str_eq(name, "dragapult-yopifutto") {
        let b = DragapultYopifuttoBot::new(cards.duplicate());
        Some(Bot::Yopifutto(b))
    } else {
        assert(!bot_names().contains(name@)) by {
            if bot_names().contains(name@) {
                let j = choose|j: int| 0 <= j < bot_names().len() && bot_names()[j] == name@;
                assert(j == 0 || j == 1 || j == 2);
            }
        }
        None
    }
}

impl BotPolicy for Bot {
    fn choose_action(&mut self, req: &RequestMsg, rng: &mut ChaCha20Rng) -> (r: Result<
        ActionDto,
        TransportError,
    >)
        ensures
            bot_action_ok(*old(self), *req, *final(self), r),
    {
        self.answer_request(req, rng)
    }

    fn choose_prompt(&mut self, p: &PromptMsg, rng: &mut ChaCha20Rng) -> (r: PromptChoice)
        ensures
            bot_prompt_ok(*old(self), *p, *final(self), r),
    {
        self.answer_prompt(p, rng)
    }
}

} // verus!

verus! {

// ============================================================================
// Laws of the deck search
// ============================================================================

/// Whether `x` is the entity id of one of `opts`.
pub open spec fn is_option_id(opts: Seq<EntityDto>, x: u32) -> bool {
    exists|j: int| 0 <= j < opts.len() && #[trigger] opts[j].entity_id == x
}

proof fn lemma_zone_pass(sel: Seq<u32>, opts: Seq<EntityDto>, want: Seq<char>, max: int, all: Seq<EntityDto>)
    requires
        sel.no_duplicates(),
        sel.len() <= max,
        forall|i: int| 0 <= i < sel.len() ==> is_option_id(all, #[trigger] sel[i]),
        forall|j: int| 0 <= j < opts.len() ==> is_option_id(all, #[trigger] opts[j].entity_id),
    ensures
        zone_pass(sel, opts, want, max).no_duplicates(),
        zone_pass(sel, opts, want, max).len() <= max,
        forall|i: int|
            0 <= i < zone_pass(sel, opts, want, max).len() ==> is_option_id(
                all,
                #[trigger] zone_pass(sel, opts, want, max)[i],
            ),
    decreases opts.len(),
{
    if opts.len() > 0 {
        let o = opts.drop_last();
        assert forall|j: int| 0 <= j < o.len() implies is_option_id(all, #[trigger] o[j].entity_id) by {
            assert(o[j] == opts[j]);
        }
        lemma_zone_pass(sel, o, want, max, all);
        let s = zone_pass(sel, o, want, max);
        let l = opts.last();
        if s.len() < max && card_is(l.card, want) && !s.contains(l.entity_id) {
            let t = s.push(l.entity_id);
            assert(is_option_id(all, opts[opts.len() - 1].entity_id));
            assert forall|i: int| 0 <= i < t.len() implies is_option_id(all, #[trigger] t[i]) by {
                if i < s.len() {
                    assert(t[i] == s[i]);
                }
            }
            assert forall|a: int, b: int| 0 <= a < t.len() && 0 <= b < t.len() && a != b implies t[a]
                != t[b] by {
                if b == s.len() {
                    assert(t[a] == s[a]);
                } else if a == s.len() {
                    assert(t[b] == s[b]);
                } else {
                    assert(t[a] == s[a] && t[b] == s[b]);
                }
            }
        }
    }
}

proof fn lemma_zone_all(sel: Seq<u32>, opts: Seq<EntityDto>, pri: Seq<Seq<char>>, max: int)
    requires
        sel.no_duplicates(),
        sel.len() <= max,
        forall|i: int| 0 <= i < sel.len() ==> is_option_id(opts, #[trigger] sel[i]),
    ensures
        zone_all(sel, opts, pri, max).no_duplicates(),
        zone_all(sel, opts, pri, max).len() <= max,
        forall|i: int|
            0 <= i < zone_all(sel, opts, pri, max).len() ==> is_option_id(
                opts,
                #[trigger] zone_all(sel, opts, pri, max)[i],
            ),
    decreases pri.len(),
{
    if pri.len() > 0 {
        lemma_zone_all(sel, opts, pri.drop_last(), max);
        assert forall|j: int| 0 <= j < opts.len() implies is_option_id(opts, #[trigger] opts[j].entity_id) by {}
        lemma_zone_pass(zone_all(sel, opts, pri.drop_last(), max), opts, pri.last(), max, opts);
    }
}

proof fn lemma_fill_pass(sel: Seq<u32>, opts: Seq<EntityDto>, min: int, all: Seq<EntityDto>)
    requires
        sel.no_duplicates(),
        forall|i: int| 0 <= i < sel.len() ==> is_option_id(all, #[trigger] sel[i]),
        forall|j: int| 0 <= j < opts.len() ==> is_option_id(all, #[trigger] opts[j].entity_id),
    ensures
        fill_pass(sel, opts, min).no_duplicates(),
        forall|i: int|
            0 <= i < fill_pass(sel, opts, min).len() ==> is_option_id(
                all,
                #[trigger] fill_pass(sel, opts, min)[i],
            ),
        fill_pass(sel, opts, min).len() <= sel.len() || fill_pass(sel, opts, min).len() <= min,
        fill_pass(sel, opts, min).len() >= sel.len(),
        fill_pass(sel, opts, min).len() >= min || forall|j: int|
            0 <= j < opts.len() ==> fill_pass(sel, opts, min).contains(#[trigger] opts[j].entity_id),
    decreases opts.len(),
{
    if opts.len() > 0 {
        let o = opts.drop_last();
        assert forall|j: int| 0 <= j < o.len() implies is_option_id(all, #[trigger] o[j].entity_id) by {
            assert(o[j] == opts[j]);
        }
        lemma_fill_pass(sel, o, min, all);
        let s = fill_pass(sel, o, min);
        let l = opts.last();
        if s.len() < min && !s.contains(l.entity_id) {
            let t = s.push(l.entity_id);
            assert(is_option_id(all, opts[opts.len() - 1].entity_id));
            assert forall|i: int| 0 <= i < t.len() implies is_option_id(all, #[trigger] t[i]) by {
                if i < s.len() {
                    assert(t[i] == s[i]);
                }
            }
            assert forall|a: int, b: int| 0 <= a < t.len() && 0 <= b < t.len() && a != b implies t[a]
                != t[b] by {
                if b == s.len() {
                    assert(t[a] == s[a]);
                } else if a == s.len() {
                    assert(t[b] == s[b]);
                } else {
                    assert(t[a] == s[a] && t[b] == s[b]);
                }
            }
            if t.len() < min {
                assert forall|j: int| 0 <= j < opts.len() implies t.contains(#[trigger] opts[j].entity_id) by {
                    if j < o.len() {
                        assert(o[j] == opts[j]);
                        let k = choose|k: int| 0 <= k < s.len() && s[k] == o[j].entity_id;
                        assert(t[k] == s[k]);
                    } else {
                        assert(t[s.len() as int] == l.entity_id);
                    }
                }
            }
        } else if s.len() < min {
            assert forall|j: int| 0 <= j < opts.len() implies s.contains(#[trigger] opts[j].entity_id) by {
                if j < o.len() {
                    assert(o[j] == opts[j]);
                }
            }
        }
    }
}

/// A deck search always answers legally: it takes option ids only, no id twice, never more
/// than `max` (nor than `min` where `min` is the larger), and, when the options hold at least
/// `min` different entities, never fewer than `min`.
pub proof fn law_pick_from_zone_legal(opts: Seq<EntityDto>, pri: Seq<Seq<char>>, min: u8, max: u8)
    ensures
        pick_from_zone_spec(opts, pri, min, max).no_duplicates(),
        forall|i: int|
            0 <= i < pick_from_zone_spec(opts, pri, min, max).len() ==> is_option_id(
                opts,
                #[trigger] pick_from_zone_spec(opts, pri, min, max)[i],
            ),
        pick_from_zone_spec(opts, pri, min, max).len() <= max || pick_from_zone_spec(
            opts,
            pri,
            min,
            max,
        ).len() <= min,
        opts.map_values(|o: EntityDto| o.entity_id).no_duplicates() && opts.len() >= min ==> pick_from_zone_spec(
            opts,
            pri,
            min,
            max,
        ).len() >= min,
{
    let e = Seq::<u32>::empty();
    lemma_zone_all(e, opts, pri, max as int);
    let z = zone_all(e, opts, pri, max as int);
    assert forall|j: int| 0 <= j < opts.len() implies is_option_id(opts, #[trigger] opts[j].entity_id) by {}
    lemma_fill_pass(z, opts, min as int, opts);
    let r = pick_from_zone_spec(opts, pri, min, max);
    let ids = opts.map_values(|o: EntityDto| o.entity_id);
    if ids.no_duplicates() && opts.len() >= min && r.len() < min {
        assert(ids.to_set().subset_of(r.to_set())) by {
            assert forall|x: u32| ids.to_set().contains(x) implies r.to_set().contains(x) by {
                let j = choose|j: int| 0 <= j < ids.len() && ids[j] == x;
                assert(r.contains(opts[j].entity_id));
            }
        }
        ids.unique_seq_to_set();
        r.unique_seq_to_set();
        vstd::set_lib::lemma_len_subset(ids.to_set(), r.to_set());
    }
}

/// A pass keeps what was taken and never shrinks.
proof fn lemma_zone_pass_grows(sel: Seq<u32>, opts: Seq<EntityDto>, want: Seq<char>, max: int)
    ensures
        zone_pass(sel, opts, want, max).len() >= sel.len(),
        forall|x: u32| sel.contains(x) ==> #[trigger] zone_pass(sel, opts, want, max).contains(x),
    decreases opts.len(),
{
    broadcast use vstd::seq_lib::lemma_seq_contains_after_push;

    if opts.len() > 0 {
        lemma_zone_pass_grows(sel, opts.drop_last(), want, max);
    }
}

/// A pass for slug `want` takes every option with that slug, unless `max` are taken.
proof fn lemma_zone_pass_takes(sel: Seq<u32>, opts: Seq<EntityDto>, want: Seq<char>, max: int)
    ensures
        forall|j: int|
            0 <= j < opts.len() && card_is(opts[j].card, want) ==> #[trigger] zone_pass(
                sel,
                opts,
                want,
                max,
            ).contains(opts[j].entity_id) || zone_pass(sel, opts, want, max).len() >= max,
    decreases opts.len(),
{
    broadcast use vstd::seq_lib::lemma_seq_contains_after_push;

    if opts.len() > 0 {
        let o = opts.drop_last();
        lemma_zone_pass_takes(sel, o, want, max);
        let s = zone_pass(sel, o, want, max);
        let r = zone_pass(sel, opts, want, max);
        assert(r == zone_step(s, opts.last(), want, max));
        assert forall|j: int| 0 <= j < opts.len() && card_is(opts[j].card, want) implies #[trigger] r.contains(
            opts[j].entity_id,
        ) || r.len() >= max by {
            if j < o.len() {
                assert(o[j] == opts[j]);
                assert(s.contains(o[j].entity_id) || s.len() >= max);
            }
        }
    }
}

/// The priority passes take every option whose slug has a priority, unless `max` are taken.
proof fn lemma_zone_all_takes(sel: Seq<u32>, opts: Seq<EntityDto>, pri: Seq<Seq<char>>, max: int)
    ensures
        forall|j: int, k: int|
            0 <= j < opts.len() && 0 <= k < pri.len() && #[trigger] card_is(opts[j].card, pri[k])
                ==> zone_all(sel, opts, pri, max).contains(opts[j].entity_id) || zone_all(
                sel,
                opts,
                pri,
                max,
            ).len() >= max,
    decreases pri.len(),
{
    if pri.len() > 0 {
        let p = pri.drop_last();
        lemma_zone_all_takes(sel, opts, p, max);
        let s = zone_all(sel, opts, p, max);
        lemma_zone_pass_grows(s, opts, pri.last(), max);
        lemma_zone_pass_takes(s, opts, pri.last(), max);
        let r = zone_all(sel, opts, pri, max);
        assert forall|j: int, k: int|
            0 <= j < opts.len() && 0 <= k < pri.len() && #[trigger] card_is(opts[j].card, pri[k]) implies r.contains(
            opts[j].entity_id,
        ) || r.len() >= max by {
            if k < p.len() {
                assert(p[k] == pri[k]);
                assert(card_is(opts[j].card, p[k]));
                assert(s.contains(opts[j].entity_id) || s.len() >= max);
            }
        }
    }
}

/// Topping up keeps what was taken.
proof fn lemma_fill_pass_grows(sel: Seq<u32>, opts: Seq<EntityDto>, min: int)
    ensures
        fill_pass(sel, opts, min).len() >= sel.len(),
        forall|x: u32| sel.contains(x) ==> #[trigger] fill_pass(sel, opts, min).contains(x),
    decreases opts.len(),
{
    broadcast use vstd::seq_lib::lemma_seq_contains_after_push;

    if opts.len() > 0 {
        lemma_fill_pass_grows(sel, opts.drop_last(), min);
    }
}

/// A deck search goes by priority: it takes every option whose slug is on the priority list,
/// unless it already takes `max` entities.
pub proof fn law_pick_from_zone_by_priority(opts: Seq<EntityDto>, pri: Seq<Seq<char>>, min: u8, max: u8)
    ensures
        forall|j: int, k: int|
            0 <= j < opts.len() && 0 <= k < pri.len() && #[trigger] card_is(opts[j].card, pri[k])
                ==> pick_from_zone_spec(opts, pri, min, max).contains(opts[j].entity_id)
                || pick_from_zone_spec(opts, pri, min, max).len() >= max,
{
    let z = zone_all(Seq::empty(), opts, pri, max as int);
    lemma_zone_all_takes(Seq::empty(), opts, pri, max as int);
    lemma_fill_pass_grows(z, opts, min as int);
}

/// A pass for a slug that no option has takes nothing.
proof fn lemma_zone_pass_none(sel: Seq<u32>, opts: Seq<EntityDto>, want: Seq<char>, max: int)
    requires
        forall|j: int| 0 <= j < opts.len() ==> !card_is(#[trigger] opts[j].card, want),
    ensures
        zone_pass(sel, opts, want, max) == sel,
    decreases opts.len(),
{
    if opts.len() > 0 {
        let o = opts.drop_last();
        assert forall|j: int| 0 <= j < o.len() implies !card_is(#[trigger] o[j].card, want) by {
            assert(o[j] == opts[j]);
        }
        lemma_zone_pass_none(sel, o, want, max);
        assert(!card_is(opts[opts.len() - 1].card, want));
    }
}

/// A pass for a slug that some option has, with room left, takes an option of that slug.
proof fn lemma_zone_pass_some(sel: Seq<u32>, opts: Seq<EntityDto>, want: Seq<char>, max: int)
    requires
        sel.len() < max,
        exists|j: int| 0 <= j < opts.len() && card_is(#[trigger] opts[j].card, want),
    ensures
        exists|j: int|
            0 <= j < opts.len() && card_is(#[trigger] opts[j].card, want) && zone_pass(
                sel,
                opts,
                want,
                max,
            ).contains(opts[j].entity_id),
    decreases opts.len(),
{
    broadcast use vstd::seq_lib::lemma_seq_contains_after_push;

    let o = opts.drop_last();
    let l = opts.last();
    let s = zone_pass(sel, o, want, max);
    let r = zone_pass(sel, opts, want, max);
    assert(r == zone_step(s, l, want, max));
    if exists|j: int| 0 <= j < o.len() && card_is(#[trigger] o[j].card, want) {
        lemma_zone_pass_some(sel, o, want, max);
        let j = choose|j: int|
            0 <= j < o.len() && card_is(#[trigger] o[j].card, want) && s.contains(o[j].entity_id);
        assert(o[j] == opts[j]);
        assert(r.contains(opts[j].entity_id));
    } else {
        lemma_zone_pass_none(sel, o, want, max);
        let j = choose|j: int| 0 <= j < opts.len() && card_is(#[trigger] opts[j].card, want);
        if j < o.len() {
            assert(o[j] == opts[j]);
            assert(card_is(o[j].card, want));
        }
        assert(opts[opts.len() - 1] == l);
        assert(card_is(l.card, want));
        assert(r.contains(l.entity_id));
    }
}

/// Later priority passes keep what the first one took.
proof fn lemma_zone_all_keeps_first(sel: Seq<u32>, opts: Seq<EntityDto>, pri: Seq<Seq<char>>, max: int)
    requires
        pri.len() >= 1,
    ensures
        forall|x: u32|
            zone_pass(sel, opts, pri[0], max).contains(x) ==> #[trigger] zone_all(sel, opts, pri, max).contains(x),
    decreases pri.len(),
{
    let p = pri.drop_last();
    if pri.len() == 1 {
        assert(zone_all(sel, opts, p, max) == sel);
    } else {
        lemma_zone_all_keeps_first(sel, opts, p, max);
        assert(p[0] == pri[0]);
        lemma_zone_pass_grows(zone_all(sel, opts, p, max), opts, pri.last(), max);
    }
}

/// A deck search takes an option of its first priority slug whenever one is offered and it
/// may take at least one entity.
pub proof fn law_pick_from_zone_first_priority(opts: Seq<EntityDto>, pri: Seq<Seq<char>>, min: u8, max: u8)
    requires
        pri.len() >= 1,
        max >= 1,
        exists|j: int| 0 <= j < opts.len() && card_is(#[trigger] opts[j].card, pri[0]),
    ensures
        exists|j: int|
            0 <= j < opts.len() && card_is(#[trigger] opts[j].card, pri[0]) && pick_from_zone_spec(
                opts,
                pri,
                min,
                max,
            ).contains(opts[j].entity_id),
{
    let e = Seq::<u32>::empty();
    lemma_zone_pass_some(e, opts, pri[0], max as int);
    lemma_zone_all_keeps_first(e, opts, pri, max as int);
    let z = zone_all(e, opts, pri, max as int);
    lemma_fill_pass_grows(z, opts, min as int);
    let j = choose|j: int|
        0 <= j < opts.len() && card_is(#[trigger] opts[j].card, pri[0]) && zone_pass(
            e,
            opts,
            pri[0],
            max as int,
        ).contains(opts[j].entity_id);
    assert(z.contains(opts[j].entity_id));
}

} // verus!

verus! {

/// Whether a bot's board checks hold for the prompt (the fallback answers otherwise).
pub open spec fn prompt_fits(p: PromptMsg) -> bool {
    p.state matches Some(s) ==> board_fits(s)
}

/// `r` is an answer of bot `b0` to request `req`, after which the bot is `b1`: the persona's
/// decision with some draw where the board fits, the random policy otherwise.
pub open spec fn bot_action_ok(b0: Bot, req: RequestMsg, b1: Bot, r: Result<ActionDto, TransportError>) -> bool {
    match b0 {
        Bot::Random(_) => b1 == b0 && random::random_action_ok(req, r),
        Bot::Takeuchi(t0) => b1 matches Bot::Takeuchi(t1) && t1.registry == t0.registry && if board_fits(
            req.state,
        ) {
            exists|d: dragapult_takeuchi::TakeuchiDraws|
                #[trigger] dragapult_takeuchi::takeuchi_action_holds(t0.registry@, t0@, req, t1@, r, d)
        } else {
            t1 == t0 && random::random_action_ok(req, r)
        },
        Bot::Yopifutto(y0) => b1 matches Bot::Yopifutto(y1) && y1.registry == y0.registry && if board_fits(
            req.state,
        ) {
            exists|pick: u32|
                #[trigger] dragapult_yopifutto::yopi_action_holds(y0.registry@, y0@, req, y1@, r, pick)
        } else {
            y1 == y0 && random::random_action_ok(req, r)
        },
    }
}

/// `c` is an answer of bot `b0` to prompt `p`, after which the bot is `b1`: the persona's
/// answer where the board fits, the random fallback otherwise.
pub open spec fn bot_prompt_ok(b0: Bot, p: PromptMsg, b1: Bot, c: PromptChoice) -> bool {
    match b0 {
        Bot::Random(_) => b1 == b0 && random::fallback_ok(p, c),
        Bot::Takeuchi(t0) => b1 matches Bot::Takeuchi(t1) && t1.registry == t0.registry && if prompt_fits(
            p,
        ) {
            dragapult_takeuchi::takeuchi_prompt_ok(t0@, p, t1@, c)
        } else {
            t1 == t0 && random::fallback_ok(p, c)
        },
        Bot::Yopifutto(y0) => b1 matches Bot::Yopifutto(y1) && y1.registry == y0.registry && if prompt_fits(
            p,
        ) {
            dragapult_yopifutto::yopi_prompt_ok(y0.registry@, y0@, p, y1@, c)
        } else {
            y1 == y0 && random::fallback_ok(p, c)
        },
    }
}

impl Bot {
    /// Answers a request with the named bot's strategy (see `bot_action_ok`): always one of
    /// the legal actions, and an error only when there is none.
    pub fn answer_request(&mut self, req: &RequestMsg, rng: &mut ChaCha20Rng) -> (r: Result<
        ActionDto,
        TransportError,
    >)
        ensures
            bot_action_ok(*old(self), *req, *final(self), r),
            random::random_action_ok(*req, r),
    {
        match self {
            Bot::Random(b) => b.choose_action(req, rng),
            Bot::Takeuchi(b) => {
                if board_fits_exec(&req.state) {
                    let ghost m = b@;
                    let ghost reg = b.registry@;
                    let r = b.choose_action(req, rng);
                    proof {
                        dragapult_takeuchi::law_takeuchi_answers_legally(reg, m, *req, b@, r);
                    }
                    r
                } else {
                    random::random_action(req, rng)
                }
            },
            Bot::Yopifutto(b) => {
                if board_fits_exec(&req.state) {
                    let ghost m = b@;
                    let ghost reg = b.registry@;
                    let r = b.choose_action(req, rng);
                    proof {
                        dragapult_yopifutto::law_yopifutto_answers_legally(reg, m, *req, b@, r);
                    }
                    r
                } else {
                    random::random_action(req, rng)
                }
            },
        }
    }

    /// Answers a prompt with the named bot's strategy (see `bot_prompt_ok`).
    pub fn answer_prompt(&mut self, p: &PromptMsg, rng: &mut ChaCha20Rng) -> (r: PromptChoice)
        ensures
            bot_prompt_ok(*old(self), *p, *final(self), r),
    {
        let fits = match &p.state {
            Some(s) => board_fits_exec(s),
            None => true,
        };
        match self {
            Bot::Random(_) => random::fallback_prompt(p, rng),
            Bot::Takeuchi(b) => {
                if fits {
                    b.choose_prompt(p, rng)
                } else {
                    random::fallback_prompt(p, rng)
                }
            },
            Bot::Yopifutto(b) => {
                if fits {
                    b.choose_prompt(p, rng)
                } else {
                    random::fallback_prompt(p, rng)
                }
            },
        }
    }
}

} // verus!
