//! A verified interpreter core for a minimal tape-based language with eight
//! single-character instructions (`> < + - . , [ ]`) over a fixed-size,
//! wraparound tape of 8-bit cells.
//!
//! The crate has two components, used in sequence: a validator
//! ([`check_brackets`]) that checks bracket nesting and reports a precise
//! failure offset, and an executor that runs a validated program by small
//! steps against a mathematical semantics.

mod brackets;
mod error;
mod machine;
mod matching;

pub use brackets::balanced;
pub use brackets::check_brackets;
pub use brackets::depth;
pub use brackets::lemma_balanced_validates;
pub use brackets::lemma_unclosed_open_location;
pub use brackets::lemma_unmatched_close_location;
pub use brackets::reports_unmatched_at;
pub use brackets::scan_stack;
pub use brackets::unclosed_open;
pub use brackets::valid;
pub use error::BfError;
pub use error::BfErrorType;
pub use machine::cell_dec;
pub use machine::cell_inc;
pub use machine::dec_k;
pub use machine::inc_k;
pub use machine::init_state;
pub use machine::interpret;
pub use machine::is_halted;
pub use machine::lemma_cell_cycle;
pub use machine::lemma_cell_round_trip;
pub use machine::lemma_loop_back;
pub use machine::lemma_nested_loop_skip;
pub use machine::lemma_pointer_cycle;
pub use machine::lemma_pointer_round_trip;
pub use machine::lemma_step_preserves_wf;
pub use machine::move_left_k;
pub use machine::move_right_k;
pub use machine::repeated;
pub use machine::ptr_left;
pub use machine::ptr_right;
pub use machine::run_spec;
pub use machine::step_spec;
pub use machine::wf_state;
pub use machine::Machine;
pub use machine::MachineState;
pub use matching::scan_close;
pub use matching::scan_open;
