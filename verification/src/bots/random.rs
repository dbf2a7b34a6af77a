//! `RandomPolicy`: picks uniformly among the legal actions and choices.
//!
//! It is the baseline bot and the fallback that the other bots delegate to.

use vstd::prelude::*;

use crate::rng::{draw_below, draw_below_u8, draw_between, draw_coin};
use crate::transport::TransportError;
use crate::wire::action::ActionDto;
use crate::wire::protocol::{PromptDto, PromptMsg, RequestMsg};
use crate::wire::state::EntityDto;

use rand_chacha::ChaCha20Rng;

use super::{pick_random_subset, picks_distinct, subset_hi, subset_lo, BotPolicy, PromptChoice};

verus! {

/// The uniform random policy.
pub struct RandomPolicy;

/// The prompts that `random_prompt_choice` can answer: a branch choice offers a branch.
pub open spec fn random_prompt_ok(p: PromptMsg) -> bool {
    match p.kind {
        PromptDto::ChooseOneBranch { branch_count, .. } => branch_count > 0,
        PromptDto::ChooseOpponentAttack { attack_count, .. } => attack_count > 0,
        _ => true,
    }
}

/// `s` is empty, or holds one element of `pool`.
pub open spec fn one_of_or_empty(s: Seq<u32>, pool: Seq<u32>) -> bool {
    if pool.len() == 0 {
        s.len() == 0
    } else {
        s.len() == 1 && pool.contains(s[0])
    }
}

/// The first element of `s` as a one-element sequence, or nothing.
pub open spec fn first_or_empty(s: Seq<u32>) -> Seq<u32> {
    if s.len() > 0 {
        seq![s[0]]
    } else {
        Seq::empty()
    }
}

/// Entity ids of a list of entities.
pub open spec fn ids_of(v: Seq<EntityDto>) -> Seq<u32> {
    v.map_values(|e: EntityDto| e.entity_id)
}

/// Entity ids of the copy candidates.
pub open spec fn cand_ids(v: Seq<(u32, Vec<String>)>) -> Seq<u32> {
    v.map_values(|c: (u32, Vec<String>)| c.0)
}

/// `n` clipped to `[1, 255]` (a count of names offered as branches).
pub open spec fn branch_span(n: nat) -> int {
    if n == 0 {
        1
    } else if n > 255 {
        255
    } else {
        n as int
    }
}

/// What the random policy selects for a prompt (the random part left as a relation).
pub open spec fn random_selected_ok(p: PromptMsg, sel: Seq<u32>) -> bool {
    match p.kind {
        PromptDto::ChooseFromZone { options, .. } => {
            let ids = ids_of(options@);
            &&& (ids.len() == 0 ==> sel.len() == 0)
            &&& subset_lo(ids.len(), p.min) <= sel.len() <= subset_hi(ids.len(), p.min, p.max)
            &&& picks_distinct(sel, ids)
        },
        PromptDto::ChooseTargetPokemon { targets } => one_of_or_empty(sel, targets@),
        PromptDto::ChooseInitialActive { eligible } => one_of_or_empty(sel, eligible@),
        PromptDto::PlaceInitialBench { eligible, bench_max } => exists|n: int|
            0 <= n <= bench_max && n <= eligible@.len() && sel == eligible@.take(n),
        PromptDto::ReplaceActiveAfterKo { bench_options } => one_of_or_empty(sel, bench_options@),
        PromptDto::DistributeDamage { eligible, total, .. } => sel == eligible@.take(
            if eligible@.len() < total {
                eligible@.len() as int
            } else {
                total as int
            },
        ),
        PromptDto::AttachEnergyTo { energy_options, pokemon_eligible } => sel == first_or_empty(
            energy_options@,
        ) + first_or_empty(pokemon_eligible@),
        PromptDto::DiscardFromAttached { eligible, .. } => sel == first_or_empty(eligible@),
        PromptDto::ReorderCards { cards, .. } => sel == cards@,
        PromptDto::SelectAbilityOrder { entries } => sel == entries@,
        PromptDto::PickAttackToCopy { candidates } => one_of_or_empty(sel, cand_ids(candidates@)),
        PromptDto::PeekAndReorder { peeked, .. } => sel == peeked@,
        PromptDto::AssignEnergyToTargets { energies, .. } => sel == energies@,
        PromptDto::PrizeHandSwapChoice { prize_options, hand_options } => if prize_options@.len()
            == 0 || hand_options@.len() == 0 {
            sel.len() == 0
        } else {
            sel == seq![prize_options@[0], hand_options@[0]]
        },
        _ => sel.len() == 0,
    }
}

/// `n` zeros, the first of which is replaced by `first` (nothing when `n == 0`).
pub open spec fn head_then_zeros(n: nat, first: u8) -> Seq<u8> {
    Seq::new(n, |i: int| if i == 0 { first } else { 0u8 })
}

/// The counts that go with the selection.
pub open spec fn random_counts(p: PromptMsg, sel: Seq<u32>) -> Seq<u8> {
    match p.kind {
        PromptDto::DistributeDamage { total, .. } => head_then_zeros(sel.len(), total),
        PromptDto::AssignEnergyToTargets { pokemon_eligible, .. } => if pokemon_eligible@.len()
            == 0 {
            Seq::empty()
        } else {
            Seq::new(sel.len(), |i: int| 0u8)
        },
        _ => Seq::empty(),
    }
}

/// The branch index that goes with the selection (the draw left as a range).
pub open spec fn random_branch_ok(p: PromptMsg, sel: Seq<u32>, b: Option<u8>) -> bool {
    match p.kind {
        PromptDto::ChooseOneBranch { branch_count, .. } => b matches Some(x) && x < branch_count,
        PromptDto::ChooseOpponentAttack { attack_count, .. } => b matches Some(x) && x
            < attack_count,
        PromptDto::ChooseStatusToRemove { statuses, .. } => b matches Some(x) && x < branch_span(
            statuses@.len(),
        ),
        PromptDto::PickAttackToCopy { candidates } => match crate::util::find_first(
            candidates@,
            cand_is(if sel.len() > 0 {
                sel[0]
            } else {
                0
            }),
        ) {
            Some(c) => sel.len() > 0 && (b matches Some(x) && x < branch_span(c.1@.len())),
            None => b is None,
        },
        _ => b is None,
    }
}

/// A copy candidate for entity `e`.
pub open spec fn cand_is(e: u32) -> spec_fn((u32, Vec<String>)) -> bool {
    |c: (u32, Vec<String>)| c.0 == e
}

/// What holds of every random answer to a prompt.
pub open spec fn random_choice_ok(p: PromptMsg, c: PromptChoice) -> bool {
    &&& random_selected_ok(p, c.selected@)
    &&& c.counts@ == random_counts(p, c.selected@)
    &&& (c.yes is Some <==> (p.kind is ChooseYesNo || p.kind is ChooseFirstOrSecond))
    &&& random_branch_ok(p, c.selected@, c.branch_index)
}

impl RandomPolicy {
    /// Picks one of the legal actions at random.
    pub fn choose_action(&mut self, req: &RequestMsg, rng: &mut ChaCha20Rng) -> (r: Result<
        ActionDto,
        TransportError,
    >)
        ensures
            random_action_ok(*req, r),
    {
        random_action(req, rng)
    }

    /// Answers a prompt at random.
    pub fn choose_prompt(&mut self, p: &PromptMsg, rng: &mut ChaCha20Rng) -> (r: PromptChoice)
        requires
            random_prompt_ok(*p),
        ensures
            random_choice_ok(*p, r),
    {
        random_prompt_choice(p, rng)
    }
}

/// A random action: an error exactly when there is no legal action, else one of them.
pub open spec fn random_action_ok(req: RequestMsg, r: Result<ActionDto, TransportError>) -> bool {
    if req.legal_actions@.len() == 0 {
        r matches Err(e) && e is Unexpected
    } else {
        r matches Ok(a) && exists|i: int|
            0 <= i < req.legal_actions@.len() && a@ == #[trigger] req.legal_actions@[i]@
    }
}

/// Picks one legal action uniformly at random; an error when there is none.
pub fn random_action(req: &RequestMsg, rng: &mut ChaCha20Rng) -> (r: Result<ActionDto, TransportError>)
    ensures
        random_action_ok(*req, r),
{
    if req.legal_actions.len() == 0 {
        return Err(TransportError::Unexpected("no legal actions".to_owned()));
    }
    let idx = draw_below(rng, 0, req.legal_actions.len());
    Ok(req.legal_actions[idx].duplicate())
}

/// One element of `v` at random, or nothing when `v` is empty.
fn one_random(v: &Vec<u32>, rng: &mut ChaCha20Rng) -> (r: Vec<u32>)
    ensures
        one_of_or_empty(r@, v@),
{
    let mut out: Vec<u32> = Vec::new();
    if v.len() > 0 {
        let k = draw_below(rng, 0, v.len());
        out.push(v[k]);
        assert(v@.contains(out@[0]));
    }
    out
}

/// The first element of `v`, or nothing.
fn first_of(v: &Vec<u32>) -> (r: Vec<u32>)
    ensures
        r@ == first_or_empty(v@),
{
    let mut out: Vec<u32> = Vec::new();
    if v.len() > 0 {
        out.push(v[0]);
    }
    assert(out@ =~= first_or_empty(v@));
    out
}

/// A copy of `v`.
fn copy_ids(v: &Vec<u32>) -> (r: Vec<u32>)
    ensures
        r@ == v@,
{
    let mut out: Vec<u32> = Vec::new();
    let mut i: usize = 0;
    while i < v.len()
        invariant
            i <= v@.len(),
            out@ == v@.take(i as int),
        decreases v.len() - i,
    {
        out.push(v[i]);
        assert(v@.take(i + 1) =~= v@.take(i as int).push(v@[i as int]));
        i = i + 1;
    }
    assert(v@.take(i as int) =~= v@);
    out
}

/// The first `n` elements of `v`.
fn take_ids(v: &Vec<u32>, n: usize) -> (r: Vec<u32>)
    requires
        n <= v@.len(),
    ensures
        r@ == v@.take(n as int),
{
    let mut out: Vec<u32> = Vec::new();
    let mut i: usize = 0;
    while i < n
        invariant
            i <= n,
            out@ == v@.take(i as int),
        decreases n - i,
    {
        out.push(v[i]);
        assert(v@.take(i + 1) =~= v@.take(i as int).push(v@[i as int]));
        i = i + 1;
    }
    out
}

/// `n` clipped to `[1, 255]`.
fn branch_span_exec(n: usize) -> (r: u8)
    ensures
        r == branch_span(n as nat),
{
    if n == 0 {
        1
    } else if n > 255 {
        255
    } else {
        n as u8
    }
}

/// A random answer to a prompt, by prompt kind.
pub fn random_prompt_choice(p: &PromptMsg, rng: &mut ChaCha20Rng) -> (r: PromptChoice)
    requires
        random_prompt_ok(*p),
    ensures
        random_choice_ok(*p, r),
{
    let selected: Vec<u32> = match &p.kind {
        PromptDto::ChooseFromZone { options, .. } => {
            let mut ids: Vec<u32> = Vec::new();
            let mut i: usize = 0;
            while i < options.len()
                invariant
                    i <= options@.len(),
                    ids@ == ids_of(options@.take(i as int)),
                decreases options.len() - i,
            {
                ids.push(options[i].entity_id);
                assert(ids@ =~= ids_of(options@.take(i + 1)));
                i = i + 1;
            }
            assert(options@.take(i as int) =~= options@);
            pick_random_subset(rng, ids.as_slice(), p.min, p.max)
        },
        PromptDto::ChooseTargetPokemon { targets } => one_random(targets, rng),
        PromptDto::ChooseInitialActive { eligible } => one_random(eligible, rng),
        PromptDto::PlaceInitialBench { eligible, bench_max } => {
            let cap: usize = if (*bench_max as usize) < eligible.len() {
                *bench_max as usize
            } else {
                eligible.len()
            };
            let count = draw_between(rng, 0, cap);
            take_ids(eligible, count)
        },
        PromptDto::ReplaceActiveAfterKo { bench_options } => one_random(bench_options, rng),
        PromptDto::DistributeDamage { eligible, total, .. } => {
            let count: usize = if eligible.len() < *total as usize {
                eligible.len()
            } else {
                *total as usize
            };
            take_ids(eligible, count)
        },
        PromptDto::AttachEnergyTo { energy_options, pokemon_eligible } => {
            let mut v: Vec<u32> = Vec::new();
            if energy_options.len() > 0 {
                v.push(energy_options[0]);
            }
            if pokemon_eligible.len() > 0 {
                v.push(pokemon_eligible[0]);
            }
            assert(v@ =~= first_or_empty(energy_options@) + first_or_empty(pokemon_eligible@));
            v
        },
        PromptDto::DiscardFromAttached { eligible, .. } => first_of(eligible),
        PromptDto::ReorderCards { cards, .. } => copy_ids(cards),
        PromptDto::SelectAbilityOrder { entries } => copy_ids(entries),
        PromptDto::PickAttackToCopy { candidates } => {
            let mut out: Vec<u32> = Vec::new();
            if candidates.len() > 0 {
                let k = draw_below(rng, 0, candidates.len());
                out.push(candidates[k].0);
                assert(cand_ids(candidates@)[k as int] == out@[0]);
                assert(cand_ids(candidates@).contains(out@[0]));
            }
            out
        },
        PromptDto::ChooseYesNo { .. }
        | PromptDto::ChooseFirstOrSecond
        | PromptDto::ChooseOneBranch { .. }
        | PromptDto::ChooseOpponentAttack { .. }
        | PromptDto::PickAmountFromEach { .. }
        | PromptDto::ChooseStatusToRemove { .. } => Vec::new(),
        PromptDto::PeekAndReorder { peeked, .. } => copy_ids(peeked),
        PromptDto::AssignEnergyToTargets { energies, .. } => copy_ids(energies),
        PromptDto::PrizeHandSwapChoice { prize_options, hand_options } => {
            let mut v: Vec<u32> = Vec::new();
            if prize_options.len() > 0 && hand_options.len() > 0 {
                v.push(prize_options[0]);
                v.push(hand_options[0]);
                assert(v@ =~= seq![prize_options@[0], hand_options@[0]]);
            }
            v
        },
    };
    let yes: Option<bool> = match &p.kind {
        PromptDto::ChooseYesNo { .. } | PromptDto::ChooseFirstOrSecond => Some(draw_coin(rng)),
        _ => None,
    };
    let counts: Vec<u8> = match &p.kind {
        PromptDto::DistributeDamage { total, .. } => {
            let mut c: Vec<u8> = Vec::new();
            let mut i: usize = 0;
            while i < selected.len()
                invariant
                    i <= selected@.len(),
                    c@ == head_then_zeros(i as nat, *total),
                decreases selected.len() - i,
            {
                if i == 0 {
                    c.push(*total);
                } else {
                    c.push(0);
                }
                assert(c@ =~= head_then_zeros((i + 1) as nat, *total));
                i = i + 1;
            }
            c
        },
        PromptDto::AssignEnergyToTargets { pokemon_eligible, .. } => {
            let mut c: Vec<u8> = Vec::new();
            if pokemon_eligible.len() > 0 {
                let mut i: usize = 0;
                while i < selected.len()
                    invariant
                        i <= selected@.len(),
                        c@ == Seq::new(i as nat, |j: int| 0u8),
                    decreases selected.len() - i,
                {
                    c.push(0);
                    assert(c@ =~= Seq::new((i + 1) as nat, |j: int| 0u8));
                    i = i + 1;
                }
            } else {
                assert(c@ =~= Seq::<u8>::empty());
            }
            c
        },
        _ => Vec::new(),
    };
    let branch_index: Option<u8> = match &p.kind {
        PromptDto::ChooseOneBranch { branch_count, .. } => Some(draw_below_u8(rng, *branch_count)),
        PromptDto::ChooseOpponentAttack { attack_count, .. } => Some(
            draw_below_u8(rng, *attack_count),
        ),
        PromptDto::ChooseStatusToRemove { statuses, .. } => {
            let n = branch_span_exec(statuses.len());
            Some(draw_below_u8(rng, n))
        },
        PromptDto::PickAttackToCopy { candidates } => {
            if selected.len() > 0 {
                let entity = selected[0];
                let mut i: usize = 0;
                let mut found: Option<usize> = None;
                while i < candidates.len()
                    invariant
                        i <= candidates@.len(),
                        found is None,
                        forall|j: int| 0 <= j < i ==> !cand_is(entity)(#[trigger] candidates@[j]),
                    decreases candidates.len() - i,
                {
                    if candidates[i].0 == entity {
                        found = Some(i);
                        break;
                    }
                    i = i + 1;
                }
                match found {
                    Some(k) => {
                        proof {
                            crate::util::lemma_first_at(candidates@, cand_is(entity), k as int);
                        }
                        let n = branch_span_exec(candidates[k].1.len());
                        Some(draw_below_u8(rng, n))
                    },
                    None => {
                        proof {
                            crate::util::lemma_first_none(candidates@, cand_is(entity));
                        }
                        None
                    },
                }
            } else {
                proof {
                    assert(one_of_or_empty(selected@, cand_ids(candidates@)));
                    if candidates@.len() > 0 {
                        assert(false);
                    }
                    crate::util::lemma_first_none(candidates@, cand_is(0));
                }
                None
            }
        },
        _ => None,
    };
    PromptChoice { selected, counts, yes, branch_index }
}

impl BotPolicy for RandomPolicy {
    fn choose_action(&mut self, req: &RequestMsg, rng: &mut ChaCha20Rng) -> (r: Result<
        ActionDto,
        TransportError,
    >)
        ensures
            random_action_ok(*req, r),
    {
        random_action(req, rng)
    }

    fn choose_prompt(&mut self, p: &PromptMsg, rng: &mut ChaCha20Rng) -> (r: PromptChoice)
        ensures
            fallback_ok(*p, r),
    {
        if random_prompt_ok_exec(p) {
            random_prompt_choice(p, rng)
        } else {
            PromptChoice { selected: Vec::new(), counts: Vec::new(), yes: None, branch_index: None }
        }
    }
}

/// Whether `random_prompt_choice` can answer `p` (a branch choice must offer a branch).
pub fn random_prompt_ok_exec(p: &PromptMsg) -> (r: bool)
    ensures
        r == random_prompt_ok(*p),
{
    match &p.kind {
        PromptDto::ChooseOneBranch { branch_count, .. } => *branch_count > 0,
        PromptDto::ChooseOpponentAttack { attack_count, .. } => *attack_count > 0,
        _ => true,
    }
}

} // verus!

verus! {

/// The random answer when the prompt allows one, else an empty answer.
pub fn fallback_prompt(p: &PromptMsg, rng: &mut ChaCha20Rng) -> (r: PromptChoice)
    ensures
        random_prompt_ok(*p) ==> random_choice_ok(*p, r),
        !random_prompt_ok(*p) ==> super::selects(r, Seq::empty()),
{
    if random_prompt_ok_exec(p) {
        random_prompt_choice(p, rng)
    } else {
        PromptChoice { selected: Vec::new(), counts: Vec::new(), yes: None, branch_index: None }
    }
}

/// What the fallback answer satisfies.
pub open spec fn fallback_ok(p: PromptMsg, c: PromptChoice) -> bool {
    &&& random_prompt_ok(p) ==> random_choice_ok(p, c)
    &&& !random_prompt_ok(p) ==> super::selects(c, Seq::empty())
}

} // verus!

verus! {

/// The entity ids of `options`, in order.
pub fn entity_ids(options: &[EntityDto]) -> (r: Vec<u32>)
    ensures
        r@ == ids_of(options@),
{
    let mut ids: Vec<u32> = Vec::new();
    let mut i: usize = 0;
    while i < options.len()
        invariant
            i <= options@.len(),
            ids@ == ids_of(options@.take(i as int)),
        decreases options.len() - i,
    {
        ids.push(options[i].entity_id);
        assert(ids@ =~= ids_of(options@.take(i + 1)));
        i = i + 1;
    }
    assert(options@.take(i as int) =~= options@);
    ids
}

/// A random element of `v`, or nothing when `v` is empty.
pub fn random_member(v: &[u32], rng: &mut ChaCha20Rng) -> (r: Option<u32>)
    ensures
        v@.len() == 0 ==> r is None,
        v@.len() > 0 ==> (r matches Some(x) && v@.contains(x)),
{
    if v.len() == 0 {
        return None;
    }
    let j = draw_below(rng, 0, v.len());
    assert(v@.contains(v@[j as int]));
    Some(v[j])
}

} // verus!
