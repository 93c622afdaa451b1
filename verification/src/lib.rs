//! Reconciliation engine for a competition solve-announcement bot.
//!
//! The library decides, from data fetched off a scoring platform and from the
//! durable record of what was already announced, which solve events and which
//! leaderboard rank-change events must be sent out, such that no event is ever
//! announced twice, even across process restarts.

pub mod config;
pub mod ctfd;
pub mod cycle;
pub mod leaderboard;
pub mod solves;

pub use ctfd::APIResponse;
pub use ctfd::Challenge;
pub use ctfd::ChallengeSolver;
pub use ctfd::ChallengeSolves;
pub use ctfd::ScoreboardEntry;
pub use ctfd::Team;
pub use ctfd::UpstreamError;
pub use ctfd::User;
pub use cycle::SolveCycle;
pub use leaderboard::RankEvent;
pub use leaderboard::RankedEntry;
pub use leaderboard::Snapshot;
pub use solves::AnnouncedSolve;
pub use solves::ReportedSolve;
pub use solves::SolveEvent;
pub use solves::SolveStore;
