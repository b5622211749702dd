//! Gossip of approval-voting messages: assignments and approvals are flooded
//! to peers exactly once per peer per message, for blocks in both our view and
//! the peer's, with reputation feedback and pruning on finality.
//!
//! The engine is a state machine: each handler takes an event, updates the
//! state and returns the outbound messages it decides on as a list of actions.
//! The one place where the engine waits on another component (the check of a
//! peer's message by approval voting) is split into two calls.

pub mod primitives;
pub mod knowledge;
pub mod block;
pub mod state;
pub mod laws;
pub mod subsystem;

pub use primitives::{
    Action, ApprovalCheckResult, AssignmentCert, AssignmentCertKind, AssignmentCheckResult, BlockApprovalMeta,
    BlockHash, BlockNumber, CandidateIndex, H256, IndirectAssignmentCert, IndirectSignedApprovalVote,
    MessageFingerprint, PeerId, Rep, ValidatorIndex, ValidatorSignature, View,
};
pub use block::ApprovalState;
pub use state::{ImportStep, State};
pub use subsystem::{ApprovalDistribution, Metrics};
