//! An incremental fixed-point iteration engine over multiset collections
//! with signed multiplicities.
//!
//! Data flows as `Record`s: a value paired with a signed multiplicity.
//! A `Collection` is the canonical accumulated form of a batch of records.
//! Pure operators transform collections; a fixed-point iterator repeatedly
//! applies a caller-supplied step to its own state until a round produces
//! no net change; a driver owns logical time and exposes the converged
//! state as a stream of output differences.

mod collection;
mod driver;
mod errors;
mod fixpoint;
mod life;
mod ops;
mod value;

pub use collection::{
    accumulate, all_unit, distinct_values, fits, fold_records, insert_remove_pair,
    lemma_fold_permutation, lemma_insert_remove_cancels, net_zero, share_of, sum_of, Collection,
    Record,
};
pub use driver::{
    flush_cap_exhausted, flush_overflow, flush_reached, flush_unobstructed, log_net, log_ordered,
    settles_input, Driver, OutputEntry,
};
pub use errors::EngineError;
pub use fixpoint::{
    always_converges_on, certified_round, converged_under, iterate, reached_within, reaches,
    round_overflows, still_changing, Fixpoint, Phase,
};
pub use life::{
    cell_mult, cells_ok, delta_ok, evolving, generations_exhausted, generations_within,
    lemma_generation_reads_nets, life_delta, life_generation, life_next_mult, life_reaches,
    life_rule, life_successor, neighbor_total, run_game_of_life,
};
pub use ops::{
    concat_op, count, count_in, count_report, distinct, distinct_of, filter_op, flat_map_op,
    flat_map_overflows, flat_mapped_sum, join_op, join_report, lemma_distinct_idempotent, map_op,
    map_overflows, mapped_sum, negate, semijoin,
    spec_count_key,
};
pub use value::{key_of, Value};
