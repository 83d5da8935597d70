//! Agent-based stochastic search for a cryptarithmetic puzzle.
mod agent;
mod board;
mod config;
mod engine;
mod hint;
mod puzzle;
mod random;
mod run_type;
mod table;

pub use agent::Agent;
pub use board::Blackboard;
pub use config::{sizes_or_range, BlackboardConfigData};
pub use engine::{
    blackboard, imitative, run_blackboard, run_imitative, BlackboardResult, BlackboardTrial,
    ImitativeResult, ImitativeTrial,
};
pub use hint::{Hint, LetterAssignment};
pub use puzzle::Problem;
pub use run_type::{run_type_of, RunType};
pub use table::LetterTable;
