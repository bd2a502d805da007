//! Core of a database-backed background job runner: the locking and dispatch
//! engine that finds an available job row, locks it for the life of a
//! transaction, runs the matching handler behind a panic firewall, and then
//! retires the row (delete on success, retry bookkeeping on failure) while the
//! lock is still held.
//!
//! The engine's decisions are verified here over an explicit model of the
//! backing table; the host wires them to a real database and worker pool.
pub mod registry;
pub mod runner;
pub mod table;

pub use registry::Registry;
pub use runner::HandlerOutcome;
pub use runner::PanicPayload;
pub use runner::StepReport;
pub use runner::job_result;
pub use runner::panic_error_message;
pub use runner::run_all_pending_jobs;
pub use runner::run_single_job;
pub use runner::unknown_job_type_error;
pub use table::BackgroundJob;
pub use table::JobTable;
