//! Solvers for a handful of small text puzzles: calorie tallies, a rock-paper-scissors
//! strategy guide, rucksack priorities, overlapping section ranges, a crate-stacking
//! crane simulation and a datastream marker search.
//!
//! Every solver takes text that has already been read (whole, or split into lines)
//! and returns its answer or a typed error.

pub mod text;
pub mod calories;
pub mod rps;
pub mod rucksack;
pub mod camp;
pub mod supply_stacks;
pub mod tuning;

pub use text::get_input_lines;
pub use calories::{get_elf_calories, get_top_n_elf_calories, CalorieError};
pub use rps::{simulate_input_strategy_results, RPSMove, RPSResult, RPSRound, RpsError};
pub use rucksack::{get_badges_priority, get_total_priority, RucksackError};
pub use camp::{get_complete_overlaps, get_partial_overlaps, CampError};
pub use supply_stacks::{
    get_stack_tops, get_stack_tops_with_cratemover_9001, Movement, Stack, StackError,
};
pub use tuning::{get_start_of_packet_14_unrepeated, get_start_of_packet_4_unrepeated};
