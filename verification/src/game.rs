//! Plain data carried by the orchestration layer around the core: player
//! records, table configuration, phases, commitments and results. The core
//! itself never holds this state; betting rounds, pot bookkeeping and
//! message routing live outside this crate.

use vstd::prelude::*;

use crate::cards::{Card, HandRank};

verus! {

/// Marker type naming the game application's interface.
pub struct PokerAbi;

/// Marker type naming the arena (global leaderboard) application's
/// interface.
pub struct PokerArenaAbi;

/// A player's seat status at the table.
#[derive(Debug, Clone, PartialEq, Eq, Structural)]
pub enum PlayerStatus {
    Waiting,
    Active,
    Folded,
    AllIn,
    SittingOut,
}

/// A betting decision submitted by a player.
#[derive(Debug, Clone, PartialEq, Eq, Structural)]
pub enum PlayerAction {
    Fold,
    Check,
    Call,
    Bet(u64),
    Raise(u64),
    AllIn,
}

/// A published commitment: the digest binding a player to hole cards, the
/// salt it was made with, and when it was created. Consumed exactly once at
/// reveal time by recomputing the digest and comparing.
#[derive(Debug, Clone, PartialEq, Eq)]
pub struct CardCommitment {
    pub cards_hash: Vec<u8>,
    pub salt: String,
    pub committed_at: u64,
}

/// The phase a hand is in, from seating to settlement.
#[derive(Debug, Clone, PartialEq, Eq, Structural)]
pub enum GamePhase {
    WaitingForPlayers,
    PreFlop,
    Flop,
    Turn,
    River,
    Showdown,
    HandComplete,
}

impl Default for GamePhase {
    /// A table starts out waiting for players.
    fn default() -> (r: Self)
        ensures
            r == GamePhase::WaitingForPlayers,
    {
        GamePhase::WaitingForPlayers
    }
}

/// A seated player's full record.
#[derive(Debug, Clone)]
pub struct PokerPlayer {
    pub address: String,
    pub name: String,
    pub chips: u64,
    pub position: u8,
    pub status: PlayerStatus,
    pub current_bet: u64,
    pub total_bet_this_hand: u64,
    pub hole_cards_commitment: Option<CardCommitment>,
    pub hole_cards: Option<[Card; 2]>,
    pub has_folded: bool,
    pub is_all_in: bool,
    pub last_action: Option<PlayerAction>,
}

/// Static configuration of one table.
#[derive(Debug)]
pub struct TableConfig {
    pub table_id: String,
    pub table_name: String,
    pub max_players: u8,
    pub small_blind: u64,
    pub big_blind: u64,
    pub buy_in_min: u64,
    pub buy_in_max: u64,
}

/// One leaderboard entry of the per-table leaderboard.
#[derive(Debug, Clone)]
pub struct LeaderboardData {
    pub chips: u64,
    pub chain_id: String,
}

impl Default for LeaderboardData {
    /// An empty entry: no chips, no chain.
    fn default() -> (r: Self)
        ensures
            r.chips == 0,
            r.chain_id@ == Seq::<char>::empty(),
    {
        LeaderboardData { chips: 0, chain_id: String::new() }
    }
}

/// A player's aggregate record on the global leaderboard.
#[derive(Debug, Clone, PartialEq, Eq)]
pub struct PlayerStats {
    pub name: String,
    pub chips: u64,
    pub hands_won: u64,
    pub hands_played: u64,
    pub biggest_pot: u64,
    pub chain_id: String,
    pub last_updated: u64,
}

impl Default for PlayerStats {
    /// A fresh record with every counter at zero.
    fn default() -> (r: Self)
        ensures
            r.chips == 0 && r.hands_won == 0 && r.hands_played == 0 && r.biggest_pot == 0
                && r.last_updated == 0,
            r.name@ == Seq::<char>::empty(),
            r.chain_id@ == Seq::<char>::empty(),
    {
        PlayerStats {
            name: String::new(),
            chips: 0,
            hands_won: 0,
            hands_played: 0,
            biggest_pot: 0,
            chain_id: String::new(),
            last_updated: 0,
        }
    }
}

/// One winner of a settled hand, with the hand that won and the prize paid.
#[derive(Debug, Clone)]
pub struct Winner {
    pub player: String,
    pub hand_rank: HandRank,
    pub cards: Vec<Card>,
    pub prize: u64,
}

} // verus!
