//! Messages between the server and a client.

use vstd::prelude::*;

use crate::deck::DeckList;
use crate::wire::action::ActionDto;
use crate::wire::event::EventDto;
use crate::wire::state::{EntityDto, StateDto};

verus! {

/// Protocol version.
pub const PROTOCOL_VERSION: &'static str = "0.1.0";

/// Point of view: `"me"`, `"opp"` or `"system"`.
#[derive(Debug, Clone, Copy, PartialEq, Eq, Structural)]
pub enum WireActor {
    Me,
    Opp,
    System,
}

/// Player identifier in a subscription answer.
#[derive(Debug, Clone, Copy, PartialEq, Eq, Structural)]
pub enum WirePlayer {
    P1,
    P2,
}

/// Clock snapshot.
#[derive(Debug, Clone, PartialEq, Eq)]
pub struct ClockSnapshot {
    pub my_remaining_ms: u64,
    pub opp_remaining_ms: u64,
    pub running_for: WireClockOwner,
    pub my_deadline_unix_ms: Option<u64>,
}

/// Whose clock is running.
#[derive(Debug, Clone, Copy, PartialEq, Eq, Structural)]
pub enum WireClockOwner {
    Me,
    Opp,
    /// No clock is running (`"none"` on the wire).
    Neither,
}

/// Time control settings.
#[derive(Debug, Clone, PartialEq, Eq)]
pub struct TimeControl {
    pub kind: TimeControlKind,
    pub main_ms: u64,
    pub increment_ms: u64,
    pub byoyomi_ms: u64,
    pub hard_per_response_ms: u64,
}

/// Kind of time control.
#[derive(Debug, Clone, Copy, PartialEq, Eq, Structural)]
pub enum TimeControlKind {
    SuddenDeath,
    Increment,
    Byoyomi,
    Correspondence,
}

impl Default for TimeControl {
    /// Correspondence play with a one-minute cap per response.
    fn default() -> (r: Self)
        ensures
            r.kind == TimeControlKind::Correspondence,
            r.main_ms == 0,
            r.increment_ms == 0,
            r.byoyomi_ms == 0,
            r.hard_per_response_ms == 60_000,
    {
        TimeControl {
            kind: TimeControlKind::Correspondence,
            main_ms: 0,
            increment_ms: 0,
            byoyomi_ms: 0,
            hard_per_response_ms: 60_000,
        }
    }
}

/// Display data of the opponent.
#[derive(Debug, Clone, PartialEq, Eq)]
pub struct OpponentInfo {
    pub ai_id: String,
    pub display_name: String,
}

/// A message from the server.
#[derive(Debug, Clone, PartialEq, Eq)]
pub enum ServerMessage {
    Subscribed(SubscribedMsg),
    Event(EventMsg),
    Request(RequestMsg),
    Prompt(PromptMsg),
    Ping(PingMsg),
    Error(ErrorMsg),
}

#[derive(Debug, Clone, PartialEq, Eq)]
pub struct SubscribedMsg {
    pub protocol_version: String,
    pub match_id: String,
    pub your_player: WirePlayer,
    pub server_current_seq: u64,
    pub opponent: OpponentInfo,
    pub time_control: TimeControl,
    /// Session token for reconnecting.
    pub session_token: String,
}

#[derive(Debug, Clone, PartialEq, Eq)]
pub struct EventMsg {
    pub seq: u64,
    pub actor: WireActor,
    pub timestamp_unix_ms: u64,
    pub replayed: bool,
    pub event: EventDto,
    pub clock: Option<ClockSnapshot>,
}

#[derive(Debug, Clone, PartialEq, Eq)]
pub struct RequestMsg {
    pub request_id: String,
    pub resent: bool,
    pub state: StateDto,
    pub legal_actions: Vec<ActionDto>,
    pub clock: ClockSnapshot,
}

#[derive(Debug, Clone, PartialEq, Eq)]
pub struct PromptMsg {
    pub request_id: String,
    pub parent_request_id: String,
    pub resent: bool,
    pub kind: PromptDto,
    pub min: u8,
    pub max: u8,
    /// The masked board at prompt time, when the server sends it.
    pub state: Option<StateDto>,
    pub shuffle_after: bool,
    pub clock: ClockSnapshot,
}

#[derive(Debug, Clone, PartialEq, Eq)]
pub struct PingMsg {
    pub server_current_seq: u64,
    pub server_time_unix_ms: u64,
}

#[derive(Debug, Clone, PartialEq, Eq)]
pub struct ErrorMsg {
    pub code: ErrorCode,
    pub message: String,
    pub related_request_id: Option<String>,
    pub fatal: bool,
}

#[derive(Debug, Clone, Copy, PartialEq, Eq, Structural)]
pub enum ErrorCode {
    IllegalAction,
    IllegalChoice,
    UnknownRequestId,
    FromSeqTooLarge,
    InvalidSessionToken,
    ProtocolViolation,
    InternalError,
}

/// A message from the client.
#[derive(Debug, Clone, PartialEq, Eq)]
pub enum ClientMessage {
    Subscribe(SubscribeMsg),
    Response(ResponseMsg),
    Choice(ChoiceMsg),
    Pong(PongMsg),
    Resync(ResyncMsg),
}

#[derive(Debug, Clone, Default, PartialEq, Eq)]
pub struct SubscribeMsg {
    pub match_id: String,
    pub session_token: String,
    pub from_seq: u64,
    /// Ladder account id; empty outside the ladder.
    pub participant_id: String,
    /// Authentication token issued at registration.
    pub auth_token: String,
    /// Waiting-queue key; empty for the server default.
    pub bucket: String,
    /// Private room id; two connections with the same room are paired.
    pub room: String,
    /// Name of a built-in server bot to play against (empty for none).
    pub vs_bot: String,
    /// The deck brought along.
    pub decklist: Option<DeckList>,
}

#[derive(Debug, Clone, PartialEq, Eq)]
pub struct ResponseMsg {
    pub request_id: String,
    pub action: ActionDto,
}

#[derive(Debug, Clone, PartialEq, Eq)]
pub struct ChoiceMsg {
    pub request_id: String,
    pub selected: Vec<u32>,
    pub counts: Vec<u8>,
    pub yes: Option<bool>,
    pub branch_index: Option<u8>,
}

#[derive(Debug, Clone, PartialEq, Eq)]
pub struct PongMsg {
    pub last_seen_seq: u64,
}

#[derive(Debug, Clone, PartialEq, Eq)]
pub struct ResyncMsg {
    pub missing_from: u64,
    pub missing_to: u64,
}

/// What a prompt asks for.
#[derive(Debug, Clone, PartialEq, Eq)]
pub enum PromptDto {
    ChooseFromZone { zone: String, options: Vec<EntityDto> },
    ChooseTargetPokemon { targets: Vec<u32> },
    DistributeDamage { eligible: Vec<u32>, total: u8, per_target_max: Option<u8> },
    AttachEnergyTo { energy_options: Vec<u32>, pokemon_eligible: Vec<u32> },
    DiscardFromAttached { eligible: Vec<u32>, kind_filter: String },
    ReorderCards { cards: Vec<u32>, destination: String },
    ReplaceActiveAfterKo { bench_options: Vec<u32> },
    ChooseYesNo { prompt_text: String },
    /// Setup: the coin winner picks who goes first; answered by `yes` (true = me first).
    ChooseFirstOrSecond,
    ChooseInitialActive { eligible: Vec<u32> },
    PlaceInitialBench { eligible: Vec<u32>, bench_max: u8 },
    SelectAbilityOrder { entries: Vec<u32> },
    ChooseOneBranch { branch_count: u8, labels: Vec<String> },
    PeekAndReorder { peeked: Vec<u32>, destination: String },
    AssignEnergyToTargets { energies: Vec<u32>, pokemon_eligible: Vec<u32> },
    ChooseOpponentAttack { attack_count: u8, labels: Vec<String> },
    PrizeHandSwapChoice { prize_options: Vec<u32>, hand_options: Vec<u32> },
    PickAmountFromEach {
        /// (source entity, its current counter maximum)
        sources: Vec<(u32, u8)>,
        /// entity the amounts go to
        dest: u32,
    },
    ChooseStatusToRemove {
        /// target entity
        target: u32,
        /// names of the candidate status conditions
        statuses: Vec<String>,
    },
    PickAttackToCopy {
        /// (Pokémon entity, attack names) pairs
        candidates: Vec<(u32, Vec<String>)>,
    },
}

} // verus!
