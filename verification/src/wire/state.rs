//! The board as the server shows it to one player.
//!
//! The own hand carries card names; the opponent's hand does not (`card: None`).
//! The deck is a size only. Discard, lost zone, the field and the stadium are public.

use vstd::prelude::*;

verus! {

/// The board seen from one side.
#[derive(Debug, Clone, PartialEq, Eq)]
pub struct StateDto {
    pub turn: u32,
    pub phase: String,
    /// `"me"` or `"opp"`.
    pub active_player: String,
    pub stadium: Option<EntityDto>,
    pub me: PlayerView,
    pub opp: PlayerView,
}

/// One player's side of the board.
#[derive(Debug, Clone, PartialEq, Eq)]
pub struct PlayerView {
    /// The active Pokémon, if any.
    pub active: Option<PokemonInPlayDto>,
    pub bench: Vec<PokemonInPlayDto>,
    pub hand: Vec<EntityDto>,
    pub deck_size: u32,
    pub discard: Vec<EntityDto>,
    pub lost_zone: Vec<EntityDto>,
    pub prizes: Vec<EntityDto>,
    pub energy_attached_this_turn: bool,
    pub supporter_played_this_turn: bool,
    pub mulligan_count: u8,
    /// Whether one of this player's Pokémon was knocked out in the opponent's last turn.
    pub had_ko_last_turn: bool,
}

/// A card entity; `card` is its slug when it is revealed.
#[derive(Debug, Clone, PartialEq, Eq)]
pub struct EntityDto {
    pub entity_id: u32,
    pub card: Option<String>,
}

/// A Pokémon in play.
#[derive(Debug, Clone, PartialEq, Eq)]
pub struct PokemonInPlayDto {
    pub entity_id: u32,
    pub card: Option<String>,
    pub stage: String,
    pub evolution_stack: Vec<u32>,
    pub hp_max: u16,
    pub damage: u16,
    pub energy_attached: Vec<EntityDto>,
    pub tool_attached: Option<EntityDto>,
    pub status_conditions: Vec<String>,
    pub abilities_used_this_turn: Vec<u8>,
    pub is_terastallized: bool,
    pub turn_in_play: u32,
}

} // verus!
