//! Event payloads broadcast by the server.

use vstd::prelude::*;

verus! {

/// An event payload; the client only receives these.
#[derive(Debug, Clone, PartialEq, Eq)]
pub enum EventDto {
    GameStart { p1_deck_size: u8, p2_deck_size: u8 },
    DecideFirstPlayer { result: WirePlayerId },
    SetupComplete,
    GameEnd { winner: Option<WirePlayerId>, reason: String },
    DealInitialHand { player: WirePlayerId, entities: Vec<u32> },
    Mulligan { player: WirePlayerId, count: u8 },
    PlaceActive { player: WirePlayerId, entity: u32 },
    PlaceBench { player: WirePlayerId, entity: u32, index: u8 },
    PlacePrizes { player: WirePlayerId, entities: Vec<u32> },
    TurnStart { turn: u32, active_player: WirePlayerId },
    DrawCard { player: WirePlayerId, entity: u32, deck_size_after: u32 },
    TurnEnd,
    Checkup,
    PlayItem { player: WirePlayerId, entity: u32, card: u32 },
    PlaySupporter { player: WirePlayerId, entity: u32, card: u32 },
    PlayStadium { player: WirePlayerId, entity: u32, card: u32 },
    AttachEnergy { player: WirePlayerId, energy: u32, to: u32 },
    Evolve { player: WirePlayerId, from: u32, to: u32 },
    RetreatPokemon { player: WirePlayerId, from: u32, to_bench_index: u8 },
    UseAbility { player: WirePlayerId, entity: u32, ability_index: u8 },
    DeclareAttack { player: WirePlayerId, entity: u32, attack_index: u8 },
    ApplyDamage { target: u32, amount: u16 },
    KnockOut { entity: u32 },
    TakePrize { player: WirePlayerId, entity: u32 },
    ApplyStatus { entity: u32, status: String },
    RemoveStatus { entity: u32, status: String },
    CoinFlip { purpose: String, result: String },
    /// Coarse notice of an engine-internal operation.
    Internal { name: String },
    /// Marks the end of the replay phase after a reconnect.
    LiveCaughtUp,
}

/// A player of the match.
#[derive(Debug, Clone, Copy, PartialEq, Eq, Structural)]
pub enum WirePlayerId {
    P1,
    P2,
}

} // verus!
