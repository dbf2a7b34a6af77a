//! Actions a player picks in its main phase.

use vstd::prelude::*;

verus! {

/// Entity identifier. On the wire it is a plain `u32`.
#[derive(Debug, Clone, Copy, PartialEq, Eq, Hash)]
pub struct EntityId(pub u32);

/// An action the active player picks from the server's legal list.
#[derive(Debug, Clone, PartialEq, Eq)]
pub enum Action {
    /// Play a card from the hand onto the field or as an effect.
    PlayCard { entity_id: EntityId, target: Option<ActionTarget> },
    /// Use an activated ability of a Pokémon in play.
    UseAbility { entity_id: EntityId, ability_index: u8 },
    /// Use an activated ability of a card in the hand.
    UseInHandAbility { entity_id: EntityId, ability_index: u8 },
    /// Use the activated effect of the stadium in play.
    UseStadiumEffect { stadium_entity_id: EntityId },
    /// Retreat the active Pokémon to the bench.
    Retreat { to_bench_index: u8, energy_to_discard: Vec<EntityId> },
    /// Use an attack of the active Pokémon (ends the turn).
    UseAttack { attack_index: u8 },
    /// End the turn explicitly.
    EndTurn,
    /// Discard a fossil in play during one's own turn.
    DiscardFossil { entity_id: EntityId },
    /// Concede the game.
    Concede,
}

/// What an action points at (a Pokémon in play or the stadium).
#[derive(Debug, Clone, Copy, PartialEq, Eq, Structural)]
pub enum ActionTarget {
    OwnActive,
    OwnBench { index: u8 },
    OppActive,
    OppBench { index: u8 },
    Stadium,
}

/// The wire name of an action.
pub type ActionDto = Action;

/// An action as a mathematical value (the discarded energies as a sequence).
pub enum ActionView {
    PlayCard { entity_id: EntityId, target: Option<ActionTarget> },
    UseAbility { entity_id: EntityId, ability_index: u8 },
    UseInHandAbility { entity_id: EntityId, ability_index: u8 },
    UseStadiumEffect { stadium_entity_id: EntityId },
    Retreat { to_bench_index: u8, energy_to_discard: Seq<EntityId> },
    UseAttack { attack_index: u8 },
    EndTurn,
    DiscardFossil { entity_id: EntityId },
    Concede,
}

impl View for Action {
    type V = ActionView;

    open spec fn view(&self) -> ActionView {
        match self {
            Action::PlayCard { entity_id, target } => ActionView::PlayCard {
                entity_id: *entity_id,
                target: *target,
            },
            Action::UseAbility { entity_id, ability_index } => ActionView::UseAbility {
                entity_id: *entity_id,
                ability_index: *ability_index,
            },
            Action::UseInHandAbility { entity_id, ability_index } => ActionView::UseInHandAbility {
                entity_id: *entity_id,
                ability_index: *ability_index,
            },
            Action::UseStadiumEffect { stadium_entity_id } => ActionView::UseStadiumEffect {
                stadium_entity_id: *stadium_entity_id,
            },
            Action::Retreat { to_bench_index, energy_to_discard } => ActionView::Retreat {
                to_bench_index: *to_bench_index,
                energy_to_discard: energy_to_discard@,
            },
            Action::UseAttack { attack_index } => ActionView::UseAttack {
                attack_index: *attack_index,
            },
            Action::EndTurn => ActionView::EndTurn,
            Action::DiscardFossil { entity_id } => ActionView::DiscardFossil {
                entity_id: *entity_id,
            },
            Action::Concede => ActionView::Concede,
        }
    }
}

impl Action {
    /// A copy of this action.
    pub fn duplicate(&self) -> (r: Action)
        ensures
            r@ == self@,
    {
        match self {
            Action::PlayCard { entity_id, target } => Action::PlayCard {
                entity_id: *entity_id,
                target: *target,
            },
            Action::UseAbility { entity_id, ability_index } => Action::UseAbility {
                entity_id: *entity_id,
                ability_index: *ability_index,
            },
            Action::UseInHandAbility { entity_id, ability_index } => Action::UseInHandAbility {
                entity_id: *entity_id,
                ability_index: *ability_index,
            },
            Action::UseStadiumEffect { stadium_entity_id } => Action::UseStadiumEffect {
                stadium_entity_id: *stadium_entity_id,
            },
            Action::Retreat { to_bench_index, energy_to_discard } => {
                let mut v: Vec<EntityId> = Vec::new();
                let mut i: usize = 0;
                while i < energy_to_discard.len()
                    invariant
                        i <= energy_to_discard.len(),
                        v@ == energy_to_discard@.take(i as int),
                    decreases energy_to_discard.len() - i,
                {
                    v.push(energy_to_discard[i]);
                    proof {
                        assert(energy_to_discard@.take(i + 1) =~= energy_to_discard@.take(
                            i as int,
                        ).push(energy_to_discard@[i as int]));
                    }
                    i = i + 1;
                }
                proof {
                    assert(energy_to_discard@.take(i as int) =~= energy_to_discard@);
                }
                Action::Retreat { to_bench_index: *to_bench_index, energy_to_discard: v }
            },
            Action::UseAttack { attack_index } => Action::UseAttack {
                attack_index: *attack_index,
            },
            Action::EndTurn => Action::EndTurn,
            Action::DiscardFossil { entity_id } => Action::DiscardFossil {
                entity_id: *entity_id,
            },
            Action::Concede => Action::Concede,
        }
    }
}

} // verus!
