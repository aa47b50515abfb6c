//! Optimistic transactions: the conflict summaries and the oracle that
//! serializes and validates commits.

pub mod conflict_manager;
pub mod oracle;
