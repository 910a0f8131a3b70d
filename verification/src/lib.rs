//! Infrastructure for state machines: hierarchical context ids, phase
//! tracking, structured message logging, and stop-the-world checkpoints.

pub mod calls;
pub mod checkpoint;
pub mod context_id;
pub mod ctx_path;
mod dash;
pub mod deeds;
pub mod event;
pub mod guards;
pub mod handshake;
pub mod hierarchy;
pub mod message_log;
pub mod monitor;
mod name_map;
pub mod phase_tracker;
pub mod quiesce;
pub mod state;
pub mod sync;
pub mod text;
pub mod threads;

pub use context_id::{ContextId, IdSource};
pub use ctx_path::{ancestors, is_valid_ctx_id};
pub use event::EventVisitor;
pub use message_log::{LogEntry, MessageLog, MessageLogLayer};
pub use phase_tracker::{DefaultPhaseTracker, PhaseTracker};
pub use state::{execute_io, execute_parallel, run_to_completion, Step};
