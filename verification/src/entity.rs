//! Entity vocabulary shared by the server and the clients: monster
//! animation states on the wire, the AI's richer internal states, boat
//! seats and the broadcast envelope.
use vstd::prelude::*;
use std::sync::Arc;

verus! {

/// Identity of a player.
pub type PlayerId = u64;

/// A monster's network-visible animation state.
#[derive(Debug, Clone, Copy, PartialEq, Eq, Structural)]
pub enum MonsterState {
    Idle,
    Walk,
    Run,
    Attack,
    Hit,
    Dead,
}

pub open spec fn monster_state_name(s: MonsterState) -> Seq<char> {
    match s {
        MonsterState::Idle => "idle"@,
        MonsterState::Walk => "walk"@,
        MonsterState::Run => "run"@,
        MonsterState::Attack => "attack"@,
        MonsterState::Hit => "hit"@,
        MonsterState::Dead => "dead"@,
    }
}

impl MonsterState {
    /// The state's wire name.
    pub fn as_str(&self) -> (r: &'static str)
        ensures
            r@ == monster_state_name(*self),
    {
        match self {
            MonsterState::Idle => "idle",
            MonsterState::Walk => "walk",
            MonsterState::Run => "run",
            MonsterState::Attack => "attack",
            MonsterState::Hit => "hit",
            MonsterState::Dead => "dead",
        }
    }
}

/// The AI's internal behavior state: a superset of the network state.
#[derive(Debug, Clone, Copy, PartialEq, Eq, Structural)]
pub enum AiState {
    Idle,
    Walk,
    Run,
    Attack,
    Hit,
    Dead,
    Flee,
    Return,
}

pub open spec fn spec_to_monster_state(s: AiState) -> MonsterState {
    match s {
        AiState::Idle => MonsterState::Idle,
        AiState::Walk => MonsterState::Walk,
        AiState::Run => MonsterState::Run,
        AiState::Attack => MonsterState::Attack,
        AiState::Hit => MonsterState::Hit,
        AiState::Dead => MonsterState::Dead,
        AiState::Flee => MonsterState::Run,
        AiState::Return => MonsterState::Walk,
    }
}

impl AiState {
    /// The network state shown for an AI state: fleeing looks like running
    /// and returning home like walking; the others show as themselves.
    pub fn to_monster_state(self) -> (r: MonsterState)
        ensures
            r == spec_to_monster_state(self),
    {
        match self {
            AiState::Idle => MonsterState::Idle,
            AiState::Walk => MonsterState::Walk,
            AiState::Run => MonsterState::Run,
            AiState::Attack => MonsterState::Attack,
            AiState::Hit => MonsterState::Hit,
            AiState::Dead => MonsterState::Dead,
            AiState::Flee => MonsterState::Run,
            AiState::Return => MonsterState::Walk,
        }
    }
}

/// Every network state is shown by some AI state (the mapping is onto).
pub proof fn lemma_every_monster_state_shown(m: MonsterState)
    ensures
        exists|s: AiState| spec_to_monster_state(s) == m,
{
    match m {
        MonsterState::Idle => assert(spec_to_monster_state(AiState::Idle) == m),
        MonsterState::Walk => assert(spec_to_monster_state(AiState::Walk) == m),
        MonsterState::Run => assert(spec_to_monster_state(AiState::Run) == m),
        MonsterState::Attack => assert(spec_to_monster_state(AiState::Attack) == m),
        MonsterState::Hit => assert(spec_to_monster_state(AiState::Hit) == m),
        MonsterState::Dead => assert(spec_to_monster_state(AiState::Dead) == m),
    }
}

/// One rider of a boat and the seat they hold; seat 0 is the helm.
#[derive(Debug, Clone, Copy, PartialEq, Eq, Structural)]
pub struct BoatPassenger {
    pub player_id: PlayerId,
    pub seat: u8,
}

/// One serialized message on the broadcast channel.
#[derive(Debug, Clone)]
pub struct BroadcastMessage {
    pub bytes: Arc<Vec<u8>>,
    /// If set, the message is not sent to this player.
    pub skip_player_id: Option<PlayerId>,
}

impl BroadcastMessage {
    /// Whether `player` is among the message's recipients.
    pub fn is_for(&self, player: PlayerId) -> (r: bool)
        ensures
            r == !(self.skip_player_id == Some(player)),
    {
        match self.skip_player_id {
            Some(p) => p != player,
            None => true,
        }
    }
}

} // verus!
