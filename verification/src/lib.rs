//! Rules engine for a dealer-less multiplayer card game.
//!
//! Three pure components: a seeded deck shuffler, a commit/reveal digest
//! scheme for hiding cards until showdown, and a poker hand evaluator with a
//! total order over hand strengths. Orchestration (betting rounds, pots,
//! persistence, messaging) lives outside this crate and calls into it.

pub mod cards;
pub mod commit_reveal;
pub mod deck;
pub mod game;
pub mod hand_evaluator;

pub use cards::{Card, HandRank, HandRankView, Rank, Suit};
pub use commit_reveal::CommitReveal;
pub use game::{
    CardCommitment, GamePhase, LeaderboardData, PlayerAction, PlayerStats, PlayerStatus, PokerAbi,
    PokerArenaAbi, PokerPlayer, TableConfig, Winner,
};
pub use hand_evaluator::HandEvaluator;
