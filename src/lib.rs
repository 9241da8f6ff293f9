//! Deterministic transaction processing in the style of Calvin: record
//! identity, statement analysis, a FIFO record lock manager, a read/modify/
//! write executor over an in-transaction cache, and the scheduling decisions
//! that tie them together.

pub mod executor;
pub mod lock_manager;
pub mod peer;
pub mod record;
pub mod scheduler;
pub mod sequencer;
pub mod stmt_analyzer;
