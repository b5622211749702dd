use vstd::prelude::*;

verus! {

/// A 256-bit value (a block hash, a VRF output, half a signature), as two
/// 128-bit words: `high` holds the first sixteen bytes in big-endian order.
#[derive(Clone, Copy, Debug, PartialEq, Eq, Structural, Hash)]
pub struct H256 {
    pub high: u128,
    pub low: u128,
}

/// The hash of a relay-chain block.
pub type BlockHash = H256;

/// The number of a relay-chain block.
pub type BlockNumber = u32;

/// The index of a validator in the session's validator set.
pub type ValidatorIndex = u32;

/// The index of a candidate among those included by a block.
pub type CandidateIndex = u32;

/// A connected peer, by the handle the network layer gave it.
#[derive(Clone, Copy, Debug, PartialEq, Eq, Structural, Hash)]
pub struct PeerId {
    pub id: u64,
}

/// A validator's signature (64 bytes).
#[derive(Clone, Copy, Debug, PartialEq, Eq, Structural)]
pub struct ValidatorSignature {
    pub first: H256,
    pub second: H256,
}

/// The criterion by which a validator claims an assignment.
#[derive(Clone, Copy, Debug, PartialEq, Eq, Structural)]
pub enum AssignmentCertKind {
    RelayVrfModulo { sample: u32 },
    RelayVrfDelay { core_index: u32 },
}

/// A certificate of an assignment: the claim, the VRF output and its proof.
#[derive(Clone, Copy, Debug, PartialEq, Eq, Structural)]
pub struct AssignmentCert {
    pub kind: AssignmentCertKind,
    pub vrf_output: H256,
    pub vrf_proof: ValidatorSignature,
}

/// An assignment certificate, along with the block and validator it is for.
#[derive(Clone, Copy, Debug, PartialEq, Eq, Structural)]
pub struct IndirectAssignmentCert {
    pub block_hash: BlockHash,
    pub validator: ValidatorIndex,
    pub cert: AssignmentCert,
}

/// A signed approval vote on a candidate of a block.
#[derive(Clone, Copy, Debug, PartialEq, Eq, Structural)]
pub struct IndirectSignedApprovalVote {
    pub block_hash: BlockHash,
    pub candidate_index: CandidateIndex,
    pub validator: ValidatorIndex,
    pub signature: ValidatorSignature,
}

/// The identity of a gossip message, used to detect duplicates.
#[derive(Clone, Copy, Debug, PartialEq, Eq, Structural, Hash)]
pub enum MessageFingerprint {
    Assignment(BlockHash, CandidateIndex, ValidatorIndex),
    Approval(BlockHash, CandidateIndex, ValidatorIndex),
}

/// The fingerprint of an assignment for candidate `c`.
pub open spec fn assignment_fp(a: IndirectAssignmentCert, c: CandidateIndex) -> MessageFingerprint {
    MessageFingerprint::Assignment(a.block_hash, c, a.validator)
}

/// The fingerprint of an approval vote.
pub open spec fn approval_fp(v: IndirectSignedApprovalVote) -> MessageFingerprint {
    MessageFingerprint::Approval(v.block_hash, v.candidate_index, v.validator)
}

/// The fingerprint of the assignment that an approval vote must follow.
pub open spec fn precedent_fp(v: IndirectSignedApprovalVote) -> MessageFingerprint {
    MessageFingerprint::Assignment(v.block_hash, v.candidate_index, v.validator)
}

/// A view of the chain: its heads and the number of the last finalized block.
#[derive(Clone, Debug, PartialEq, Eq)]
pub struct View {
    pub heads: Vec<BlockHash>,
    pub finalized_number: BlockNumber,
}

/// Metadata on a block that enters the unfinalized chain.
#[derive(Clone, Debug, PartialEq, Eq)]
pub struct BlockApprovalMeta {
    pub hash: BlockHash,
    pub number: BlockNumber,
    /// The hashes of the candidates the block includes, by candidate index.
    pub candidates: Vec<BlockHash>,
}

/// A change of a peer's reputation.
#[derive(Clone, Copy, Debug, PartialEq, Eq, Structural)]
pub enum Rep {
    CostUnexpectedMessage,
    CostDuplicateMessage,
    CostAssignmentTooFarInTheFuture,
    CostInvalidMessage,
    BenefitValidMessage,
    BenefitValidMessageFirst,
}

impl Rep {
    pub open spec fn spec_value(self) -> int {
        match self {
            Rep::CostUnexpectedMessage => -100,
            Rep::CostDuplicateMessage => -100,
            Rep::CostAssignmentTooFarInTheFuture => -10,
            Rep::CostInvalidMessage => -500,
            Rep::BenefitValidMessage => 10,
            Rep::BenefitValidMessageFirst => 15,
        }
    }

    /// The signed change to the peer's reputation.
    pub fn value(&self) -> (r: i32)
        ensures
            r == self.spec_value(),
    {
        match self {
            Rep::CostUnexpectedMessage => -100,
            Rep::CostDuplicateMessage => -100,
            Rep::CostAssignmentTooFarInTheFuture => -10,
            Rep::CostInvalidMessage => -500,
            Rep::BenefitValidMessage => 10,
            Rep::BenefitValidMessageFirst => 15,
        }
    }

    /// Why the reputation changes, for the network's records.
    pub fn reason(&self) -> &'static str {
        match self {
            Rep::CostUnexpectedMessage => "Peer sent an out-of-view assignment or approval",
            Rep::CostDuplicateMessage => "Peer sent identical messages",
            Rep::CostAssignmentTooFarInTheFuture => "The vote was valid but too far in the future",
            Rep::CostInvalidMessage => "The vote was bad",
            Rep::BenefitValidMessage => "Peer sent a valid message",
            Rep::BenefitValidMessageFirst => "Valid message with new information",
        }
    }
}

/// What approval voting answered on an assignment.
#[derive(Clone, Copy, Debug, PartialEq, Eq, Structural)]
pub enum AssignmentCheckResult {
    Accepted,
    AcceptedDuplicate,
    TooFarInFuture,
    Bad,
}

/// What approval voting answered on an approval vote.
#[derive(Clone, Copy, Debug, PartialEq, Eq, Structural)]
pub enum ApprovalCheckResult {
    Accepted,
    Bad,
}

/// An outbound message to the network bridge.
#[derive(Clone, Debug, PartialEq, Eq)]
pub enum Action {
    /// Send a batch of assignments to the peers.
    SendAssignments { peers: Vec<PeerId>, assignments: Vec<(IndirectAssignmentCert, CandidateIndex)> },
    /// Send a batch of approval votes to the peers.
    SendApprovals { peers: Vec<PeerId>, approvals: Vec<IndirectSignedApprovalVote> },
    /// Change the reputation of a peer.
    ReportPeer { peer: PeerId, rep: Rep },
}

impl Action {
    pub open spec fn is_send(self) -> bool {
        !(self is ReportPeer)
    }
}

} // verus!
