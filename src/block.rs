use vstd::prelude::*;
use crate::primitives::{
    AssignmentCert, IndirectAssignmentCert, IndirectSignedApprovalVote, BlockNumber, CandidateIndex, BlockHash, MessageFingerprint, PeerId,
    ValidatorIndex, ValidatorSignature,
};
use crate::knowledge::Knowledge;

verus! {

/// Where a validator stands on a candidate.
#[derive(Clone, Copy, Debug, PartialEq, Eq, Structural)]
pub enum ApprovalState {
    /// The assignment has been seen, the approval not yet.
    Assigned(AssignmentCert),
    /// The approval has been seen as well.
    Approved(AssignmentCert, ValidatorSignature),
}

impl ApprovalState {
    pub open spec fn spec_cert(self) -> AssignmentCert {
        match self {
            ApprovalState::Assigned(c) => c,
            ApprovalState::Approved(c, _) => c,
        }
    }
}

/// The state of one validator on one candidate of a block.
#[derive(Clone, Copy, Debug, PartialEq, Eq, Structural)]
pub struct ApprovalRecord {
    pub candidate_index: CandidateIndex,
    pub validator: ValidatorIndex,
    pub state: ApprovalState,
}

/// What a peer is known to know of a block's messages.
#[derive(Debug)]
pub struct PeerKnowledge {
    pub peer: PeerId,
    pub knowledge: Knowledge,
}

/// A block of the unfinalized chain that we track.
///
/// The candidate entries of the block are `candidates` (the candidate indices
/// the block includes) together with `approvals`, one record per candidate and
/// validator that has an approval state.
#[derive(Debug)]
pub struct BlockEntry {
    pub hash: BlockHash,
    pub number: BlockNumber,
    pub parent_hash: BlockHash,
    /// Our knowledge of messages on this block.
    pub knowledge: Knowledge,
    pub candidates: Vec<CandidateIndex>,
    pub approvals: Vec<ApprovalRecord>,
    /// The peers deemed to have this block in view, with what they know of it.
    pub known_by: Vec<PeerKnowledge>,
}

/// The state after an assignment with `cert`: only an absent state changes.
pub open spec fn assign(st: Option<ApprovalState>, cert: AssignmentCert) -> Option<ApprovalState> {
    match st {
        None => Some(ApprovalState::Assigned(cert)),
        Some(s) => Some(s),
    }
}

/// The state after an approval with `sig`: only an assigned state changes.
pub open spec fn approve(st: Option<ApprovalState>, sig: ValidatorSignature) -> Option<ApprovalState> {
    match st {
        Some(ApprovalState::Assigned(cert)) => Some(ApprovalState::Approved(cert, sig)),
        other => other,
    }
}

/// The assignment that a record carries, as it is gossiped.
pub open spec fn record_assignment(hash: BlockHash, r: ApprovalRecord) -> (IndirectAssignmentCert, CandidateIndex) {
    (IndirectAssignmentCert { block_hash: hash, validator: r.validator, cert: r.state.spec_cert() }, r.candidate_index)
}

/// The assignments of the records, in their order: every record carries one.
pub open spec fn assignments_of(hash: BlockHash, recs: Seq<ApprovalRecord>) -> Seq<(IndirectAssignmentCert, CandidateIndex)>
    decreases recs.len(),
{
    if recs.len() == 0 {
        Seq::empty()
    } else {
        assignments_of(hash, recs.drop_last()).push(record_assignment(hash, recs.last()))
    }
}

/// The approval votes of the approved records, in their order.
pub open spec fn approvals_of(hash: BlockHash, recs: Seq<ApprovalRecord>) -> Seq<IndirectSignedApprovalVote>
    decreases recs.len(),
{
    if recs.len() == 0 {
        Seq::empty()
    } else {
        let rest = approvals_of(hash, recs.drop_last());
        let r = recs.last();
        match r.state {
            ApprovalState::Approved(_, sig) => rest.push(
                IndirectSignedApprovalVote { block_hash: hash, candidate_index: r.candidate_index, validator: r.validator, signature: sig },
            ),
            ApprovalState::Assigned(_) => rest,
        }
    }
}

impl BlockEntry {
    pub open spec fn has_peer(&self, p: PeerId) -> bool {
        exists|k: int| 0 <= k < self.known_by@.len() && #[trigger] self.known_by@[k].peer == p
    }

    pub open spec fn peer_knows(&self, p: PeerId, f: MessageFingerprint) -> bool {
        exists|k: int|
            0 <= k < self.known_by@.len() && #[trigger] self.known_by@[k].peer == p
                && self.known_by@[k].knowledge.knows(f)
    }

    pub open spec fn has_candidate(&self, c: CandidateIndex) -> bool {
        self.candidates@.contains(c)
    }

    pub open spec fn has_record(&self, c: CandidateIndex, v: ValidatorIndex) -> bool {
        exists|a: int|
            0 <= a < self.approvals@.len() && #[trigger] self.approvals@[a].candidate_index == c
                && self.approvals@[a].validator == v
    }

    /// The approval state of validator `v` on candidate `c`, if any.
    pub open spec fn record_of(&self, c: CandidateIndex, v: ValidatorIndex) -> Option<ApprovalState> {
        if self.has_record(c, v) {
            let a = choose|a: int|
                0 <= a < self.approvals@.len() && #[trigger] self.approvals@[a].candidate_index == c
                    && self.approvals@[a].validator == v;
            Some(self.approvals@[a].state)
        } else {
            None
        }
    }

    /// What a peer knows is within what we know.
    pub open spec fn peers_within(&self) -> bool {
        forall|k: int| 0 <= k < self.known_by@.len() ==> #[trigger] self.known_by@[k].knowledge.within(&self.knowledge)
    }

    /// Every approval state, assigned or approved, has its assignment in our
    /// knowledge.
    pub open spec fn approvals_follow_assignments(&self) -> bool {
        forall|a: int|
            #![trigger self.approvals@[a]]
            0 <= a < self.approvals@.len()
                ==> self.knowledge.knows(
                MessageFingerprint::Assignment(self.hash, self.approvals@[a].candidate_index, self.approvals@[a].validator),
            )
    }

    pub open spec fn wf(&self) -> bool {
        &&& forall|k1: int, k2: int|
            #![trigger self.known_by@[k1], self.known_by@[k2]]
            0 <= k1 < self.known_by@.len() && 0 <= k2 < self.known_by@.len() && k1 != k2
                ==> self.known_by@[k1].peer != self.known_by@[k2].peer
        &&& forall|a1: int, a2: int|
            #![trigger self.approvals@[a1], self.approvals@[a2]]
            0 <= a1 < self.approvals@.len() && 0 <= a2 < self.approvals@.len() && a1 != a2
                && self.approvals@[a1].candidate_index == self.approvals@[a2].candidate_index
                ==> self.approvals@[a1].validator != self.approvals@[a2].validator
        &&& forall|a: int| 0 <= a < self.approvals@.len() ==> self.candidates@.contains(#[trigger] self.approvals@[a].candidate_index)
        &&& self.peers_within()
        &&& self.approvals_follow_assignments()
    }

    /// Everything but `known_by` is as in `other`.
    pub open spec fn same_but_peers(&self, other: &BlockEntry) -> bool {
        &&& self.hash == other.hash
        &&& self.number == other.number
        &&& self.parent_hash == other.parent_hash
        &&& self.knowledge == other.knowledge
        &&& self.candidates == other.candidates
        &&& self.approvals == other.approvals
    }

    /// A block with no knowledge, no approval state and no peers.
    pub fn new(hash: BlockHash, number: BlockNumber, parent_hash: BlockHash, candidates: Vec<CandidateIndex>) -> (r: BlockEntry)
        ensures
            r.wf(),
            r.hash == hash,
            r.number == number,
            r.parent_hash == parent_hash,
            r.candidates == candidates,
            r.approvals@.len() == 0,
            r.known_by@.len() == 0,
            forall|f: MessageFingerprint| !r.knowledge.knows(f),
    {
        let knowledge = Knowledge::new();
        BlockEntry {
            hash,
            number,
            parent_hash,
            knowledge,
            candidates,
            approvals: Vec::new(),
            known_by: Vec::new(),
        }
    }

    pub fn find_peer(&self, p: PeerId) -> (r: Option<usize>)
        ensures
            match r {
                Some(k) => k < self.known_by@.len() && self.known_by@[k as int].peer == p,
                None => !self.has_peer(p),
            },
    {
        let mut k: usize = 0;
        while k < self.known_by.len()
            invariant
                k <= self.known_by@.len(),
                forall|j: int| 0 <= j < k ==> self.known_by@[j].peer != p,
            decreases self.known_by@.len() - k,
        {
            if self.known_by[k].peer == p {
                return Some(k);
            }
            k += 1;
        }
        None
    }

    pub fn contains_candidate(&self, c: CandidateIndex) -> (r: bool)
        ensures
            r == self.has_candidate(c),
    {
        let mut i: usize = 0;
        while i < self.candidates.len()
            invariant
                i <= self.candidates@.len(),
                forall|j: int| 0 <= j < i ==> self.candidates@[j] != c,
            decreases self.candidates@.len() - i,
        {
            if self.candidates[i] == c {
                return true;
            }
            i += 1;
        }
        false
    }

    pub fn find_record(&self, c: CandidateIndex, v: ValidatorIndex) -> (r: Option<usize>)
        requires
            self.wf(),
        ensures
            match r {
                Some(a) => a < self.approvals@.len() && self.approvals@[a as int].candidate_index == c
                    && self.approvals@[a as int].validator == v
                    && self.record_of(c, v) == Some(self.approvals@[a as int].state),
                None => !self.has_record(c, v) && self.record_of(c, v) is None,
            },
    {
        let mut a: usize = 0;
        while a < self.approvals.len()
            invariant
                self.wf(),
                a <= self.approvals@.len(),
                forall|j: int| 0 <= j < a ==> !(#[trigger] self.approvals@[j].candidate_index == c && self.approvals@[j].validator == v),
            decreases self.approvals@.len() - a,
        {
            if self.approvals[a].candidate_index == c && self.approvals[a].validator == v {
                assert(self.has_record(c, v));
                proof {
                    let a2 = choose|a2: int|
                        0 <= a2 < self.approvals@.len() && #[trigger] self.approvals@[a2].candidate_index == c
                            && self.approvals@[a2].validator == v;
                    if a2 != a as int {
                        assert(self.approvals@[a2].candidate_index == self.approvals@[a as int].candidate_index);
                    }
                }
                return Some(a);
            }
            a += 1;
        }
        None
    }

    /// Records that peer `p` knows the message `f`, making `p` known to have
    /// the block if it was not.
    pub fn note_peer_knows(&mut self, p: PeerId, f: MessageFingerprint)
        requires
            old(self).wf(),
            old(self).knowledge.knows(f),
        ensures
            final(self).wf(),
            final(self).same_but_peers(old(self)),
            forall|q: PeerId| #[trigger] final(self).has_peer(q) == (old(self).has_peer(q) || q == p),
            forall|q: PeerId, g: MessageFingerprint|
                #[trigger] final(self).peer_knows(q, g) == (old(self).peer_knows(q, g) || (q == p && g == f)),
    {
        let ghost pre = *self;
        match self.find_peer(p) {
            Some(k) => {
                self.known_by[k].knowledge.insert(f);
                assert forall|q: PeerId, g: MessageFingerprint|
                    #[trigger] self.peer_knows(q, g) == (pre.peer_knows(q, g) || (q == p && g == f)) by {
                    if pre.peer_knows(q, g) {
                        let j = choose|j: int| 0 <= j < pre.known_by@.len() && #[trigger] pre.known_by@[j].peer == q
                            && pre.known_by@[j].knowledge.knows(g);
                        assert(self.known_by@[j].peer == q);
                    }
                    if q == p && g == f {
                        assert(self.known_by@[k as int].peer == q);
                    }
                    if self.peer_knows(q, g) {
                        let j = choose|j: int| 0 <= j < self.known_by@.len() && #[trigger] self.known_by@[j].peer == q
                            && self.known_by@[j].knowledge.knows(g);
                        if j != k {
                            assert(pre.known_by@[j].peer == q);
                        }
                    }
                }
                assert forall|q: PeerId| #[trigger] self.has_peer(q) == (pre.has_peer(q) || q == p) by {
                    if pre.has_peer(q) {
                        let j = choose|j: int| 0 <= j < pre.known_by@.len() && #[trigger] pre.known_by@[j].peer == q;
                        assert(self.known_by@[j].peer == q);
                    }
                    if self.has_peer(q) {
                        let j = choose|j: int| 0 <= j < self.known_by@.len() && #[trigger] self.known_by@[j].peer == q;
                        assert(pre.known_by@[j].peer == q);
                    }
                }
                assert forall|g: MessageFingerprint| #[trigger] self.known_by@[k as int].knowledge.knows(g)
                    implies self.knowledge.knows(g) by {
                    if g != f {
                        assert(pre.known_by@[k as int].knowledge.knows(g));
                        assert(pre.known_by@[k as int].knowledge.within(&pre.knowledge));
                    }
                }
                assert(self.peers_within()) by {
                    assert forall|j: int| 0 <= j < self.known_by@.len() implies #[trigger] self.known_by@[j].knowledge.within(&self.knowledge) by {
                        if j != k {
                            assert(pre.known_by@[j].knowledge.within(&pre.knowledge));
                        }
                    }
                }
            },
            None => {
                let mut knowledge = Knowledge::new();
                knowledge.insert(f);
                self.known_by.push(PeerKnowledge { peer: p, knowledge });
                let ghost n = pre.known_by@.len() as int;
                assert(self.known_by@[n].peer == p);
                assert forall|q: PeerId, g: MessageFingerprint|
                    #[trigger] self.peer_knows(q, g) == (pre.peer_knows(q, g) || (q == p && g == f)) by {
                    if pre.peer_knows(q, g) {
                        let j = choose|j: int| 0 <= j < pre.known_by@.len() && #[trigger] pre.known_by@[j].peer == q
                            && pre.known_by@[j].knowledge.knows(g);
                        assert(self.known_by@[j].peer == q);
                    }
                    if self.peer_knows(q, g) {
                        let j = choose|j: int| 0 <= j < self.known_by@.len() && #[trigger] self.known_by@[j].peer == q
                            && self.known_by@[j].knowledge.knows(g);
                        if j != n {
                            assert(pre.known_by@[j].peer == q);
                        }
                    }
                }
                assert forall|q: PeerId| #[trigger] self.has_peer(q) == (pre.has_peer(q) || q == p) by {
                    if pre.has_peer(q) {
                        let j = choose|j: int| 0 <= j < pre.known_by@.len() && #[trigger] pre.known_by@[j].peer == q;
                        assert(self.known_by@[j].peer == q);
                    }
                    if self.has_peer(q) {
                        let j = choose|j: int| 0 <= j < self.known_by@.len() && #[trigger] self.known_by@[j].peer == q;
                        if j != n {
                            assert(pre.known_by@[j].peer == q);
                        }
                    }
                }
                assert(self.peers_within()) by {
                    assert forall|j: int| 0 <= j < self.known_by@.len() implies #[trigger] self.known_by@[j].knowledge.within(&self.knowledge) by {
                        if j != n {
                            assert(pre.known_by@[j].knowledge.within(&pre.knowledge));
                        }
                    }
                }
            },
        }
    }

    pub proof fn lemma_record_at(&self, a: int)
        requires
            self.wf(),
            0 <= a < self.approvals@.len(),
        ensures
            self.record_of(self.approvals@[a].candidate_index, self.approvals@[a].validator)
                == Some(self.approvals@[a].state),
    {
        let c = self.approvals@[a].candidate_index;
        let v = self.approvals@[a].validator;
        assert(self.has_record(c, v));
        let a2 = choose|a2: int|
            0 <= a2 < self.approvals@.len() && #[trigger] self.approvals@[a2].candidate_index == c
                && self.approvals@[a2].validator == v;
        if a2 != a {
            assert(self.approvals@[a2].candidate_index == self.approvals@[a].candidate_index);
        }
    }

    /// Adds `f` to our knowledge of the block.
    pub fn learn(&mut self, f: MessageFingerprint)
        requires
            old(self).wf(),
        ensures
            final(self).wf(),
            final(self).hash == old(self).hash,
            final(self).number == old(self).number,
            final(self).parent_hash == old(self).parent_hash,
            final(self).candidates == old(self).candidates,
            final(self).approvals == old(self).approvals,
            final(self).known_by == old(self).known_by,
            forall|g: MessageFingerprint| #[trigger] final(self).knowledge.knows(g) == (old(self).knowledge.knows(g) || g == f),
    {
        let ghost pre = *self;
        self.knowledge.insert(f);
        assert forall|k: int| 0 <= k < self.known_by@.len() implies #[trigger] self.known_by@[k].knowledge.within(&self.knowledge) by {
            assert(pre.known_by@[k].knowledge.within(&pre.knowledge));
        }
    }

    /// Sets validator `v` on candidate `c` to assigned with `cert`, unless it
    /// has a state already or the block does not include candidate `c`.
    pub fn set_assigned(&mut self, c: CandidateIndex, v: ValidatorIndex, cert: AssignmentCert)
        requires
            old(self).wf(),
            old(self).knowledge.knows(MessageFingerprint::Assignment(old(self).hash, c, v)),
        ensures
            final(self).wf(),
            final(self).hash == old(self).hash,
            final(self).number == old(self).number,
            final(self).parent_hash == old(self).parent_hash,
            final(self).candidates == old(self).candidates,
            final(self).knowledge == old(self).knowledge,
            final(self).known_by == old(self).known_by,
            forall|c2: CandidateIndex, v2: ValidatorIndex| #[trigger] final(self).record_of(c2, v2) == if c2 == c
                && v2 == v && old(self).has_candidate(c) {
                assign(old(self).record_of(c, v), cert)
            } else {
                old(self).record_of(c2, v2)
            },
    {
        let ghost pre = *self;
        if !self.contains_candidate(c) {
            return;
        }
        match self.find_record(c, v) {
            Some(_) => {},
            None => {
                let rec = ApprovalRecord { candidate_index: c, validator: v, state: ApprovalState::Assigned(cert) };
                self.approvals.push(rec);
                let ghost n = pre.approvals@.len() as int;
                assert(self.approvals@[n] == rec);
                assert(self.wf()) by {
                    assert forall|a1: int, a2: int|
                        #![trigger self.approvals@[a1], self.approvals@[a2]]
                        0 <= a1 < self.approvals@.len() && 0 <= a2 < self.approvals@.len() && a1 != a2
                            && self.approvals@[a1].candidate_index == self.approvals@[a2].candidate_index
                            implies self.approvals@[a1].validator != self.approvals@[a2].validator by {
                        if a1 == n {
                            assert(pre.approvals@[a2] == self.approvals@[a2]);
                        } else if a2 == n {
                            assert(pre.approvals@[a1] == self.approvals@[a1]);
                        } else {
                            assert(pre.approvals@[a1] == self.approvals@[a1]);
                            assert(pre.approvals@[a2] == self.approvals@[a2]);
                        }
                    }
                    assert forall|a: int| 0 <= a < self.approvals@.len() implies self.candidates@.contains(#[trigger] self.approvals@[a].candidate_index) by {
                        if a != n {
                            assert(pre.approvals@[a] == self.approvals@[a]);
                        }
                    }
                    assert forall|a: int| #![trigger self.approvals@[a]] 0 <= a < self.approvals@.len()
                        implies self.knowledge.knows(MessageFingerprint::Assignment(self.hash, self.approvals@[a].candidate_index, self.approvals@[a].validator)) by {
                        if a != n {
                            assert(pre.approvals@[a] == self.approvals@[a]);
                        }
                    }
                }
                assert forall|c2: CandidateIndex, v2: ValidatorIndex| #[trigger] self.record_of(c2, v2) == if c2 == c
                    && v2 == v && pre.has_candidate(c) {
                    assign(pre.record_of(c, v), cert)
                } else {
                    pre.record_of(c2, v2)
                } by {
                    if self.has_record(c2, v2) {
                        let j = choose|j: int|
                            0 <= j < self.approvals@.len() && #[trigger] self.approvals@[j].candidate_index == c2
                                && self.approvals@[j].validator == v2;
                        self.lemma_record_at(j);
                        if j != n {
                            assert(pre.approvals@[j] == self.approvals@[j]);
                            pre.lemma_record_at(j);
                        }
                    } else {
                        if pre.has_record(c2, v2) {
                            let j = choose|j: int|
                                0 <= j < pre.approvals@.len() && #[trigger] pre.approvals@[j].candidate_index == c2
                                    && pre.approvals@[j].validator == v2;
                            assert(self.approvals@[j] == pre.approvals@[j]);
                        }
                        assert(self.approvals@[n].candidate_index == c);
                    }
                }
            },
        }
    }

    /// Sets validator `v` on candidate `c` from assigned to approved with
    /// `sig`; any other state is left as it is.
    pub fn set_approved(&mut self, c: CandidateIndex, v: ValidatorIndex, sig: ValidatorSignature)
        requires
            old(self).wf(),
        ensures
            final(self).wf(),
            final(self).hash == old(self).hash,
            final(self).number == old(self).number,
            final(self).parent_hash == old(self).parent_hash,
            final(self).candidates == old(self).candidates,
            final(self).knowledge == old(self).knowledge,
            final(self).known_by == old(self).known_by,
            forall|c2: CandidateIndex, v2: ValidatorIndex| #[trigger] final(self).record_of(c2, v2) == if c2 == c
                && v2 == v {
                approve(old(self).record_of(c, v), sig)
            } else {
                old(self).record_of(c2, v2)
            },
    {
        let ghost pre = *self;
        match self.find_record(c, v) {
            Some(a) => {
                match self.approvals[a].state {
                    ApprovalState::Assigned(cert) => {
                        let rec = ApprovalRecord { candidate_index: c, validator: v, state: ApprovalState::Approved(cert, sig) };
                        self.approvals.set(a, rec);
                        assert(self.wf()) by {
                            assert forall|a1: int, a2: int|
                                #![trigger self.approvals@[a1], self.approvals@[a2]]
                                0 <= a1 < self.approvals@.len() && 0 <= a2 < self.approvals@.len() && a1 != a2
                                    && self.approvals@[a1].candidate_index == self.approvals@[a2].candidate_index
                                    implies self.approvals@[a1].validator != self.approvals@[a2].validator by {
                                assert(pre.approvals@[a1].candidate_index == self.approvals@[a1].candidate_index);
                                assert(pre.approvals@[a2].candidate_index == self.approvals@[a2].candidate_index);
                            }
                            assert forall|a3: int| 0 <= a3 < self.approvals@.len() implies self.candidates@.contains(#[trigger] self.approvals@[a3].candidate_index) by {
                                assert(pre.approvals@[a3].candidate_index == self.approvals@[a3].candidate_index);
                            }
                            assert forall|a3: int| #![trigger self.approvals@[a3]] 0 <= a3 < self.approvals@.len()
                                implies self.knowledge.knows(MessageFingerprint::Assignment(self.hash, self.approvals@[a3].candidate_index, self.approvals@[a3].validator)) by {
                                assert(pre.approvals@[a3].candidate_index == self.approvals@[a3].candidate_index);
                                assert(pre.approvals@[a3].validator == self.approvals@[a3].validator);
                            }
                        }
                        assert forall|c2: CandidateIndex, v2: ValidatorIndex| #[trigger] self.record_of(c2, v2) == if c2 == c
                            && v2 == v {
                            approve(pre.record_of(c, v), sig)
                        } else {
                            pre.record_of(c2, v2)
                        } by {
                            if self.has_record(c2, v2) {
                                let j = choose|j: int|
                                    0 <= j < self.approvals@.len() && #[trigger] self.approvals@[j].candidate_index == c2
                                        && self.approvals@[j].validator == v2;
                                self.lemma_record_at(j);
                                assert(pre.approvals@[j].candidate_index == c2);
                                pre.lemma_record_at(j);
                            } else {
                                if pre.has_record(c2, v2) {
                                    let j = choose|j: int|
                                        0 <= j < pre.approvals@.len() && #[trigger] pre.approvals@[j].candidate_index == c2
                                            && pre.approvals@[j].validator == v2;
                                    assert(self.approvals@[j].candidate_index == c2);
                                }
                            }
                        }
                    },
                    ApprovalState::Approved(_, _) => {},
                }
            },
            None => {},
        }
    }

    /// Forgets what peer `p` knows of the block: `p` no longer has it in view.
    pub fn forget_peer(&mut self, p: PeerId)
        requires
            old(self).wf(),
        ensures
            final(self).wf(),
            final(self).same_but_peers(old(self)),
            forall|q: PeerId| #[trigger] final(self).has_peer(q) == (old(self).has_peer(q) && q != p),
            forall|q: PeerId, g: MessageFingerprint|
                #[trigger] final(self).peer_knows(q, g) == (old(self).peer_knows(q, g) && q != p),
            !old(self).has_peer(p) ==> *final(self) == *old(self),
    {
        let ghost pre = *self;
        match self.find_peer(p) {
            None => {},
            Some(k) => {
                self.known_by.remove(k);
                assert forall|j: int| 0 <= j < self.known_by@.len() implies #[trigger] self.known_by@[j] == pre.known_by@[if j < k { j } else { j + 1 }] by {}
                assert forall|q: PeerId| #[trigger] self.has_peer(q) == (pre.has_peer(q) && q != p) by {
                    if pre.has_peer(q) && q != p {
                        let j = choose|j: int| 0 <= j < pre.known_by@.len() && #[trigger] pre.known_by@[j].peer == q;
                        if j < k {
                            assert(self.known_by@[j].peer == q);
                        } else {
                            assert(self.known_by@[j - 1].peer == q);
                        }
                    }
                    if self.has_peer(q) {
                        let j = choose|j: int| 0 <= j < self.known_by@.len() && #[trigger] self.known_by@[j].peer == q;
                        let j2 = if j < k { j } else { j + 1 };
                        assert(pre.known_by@[j2].peer == q);
                        assert(j2 != k);
                    }
                }
                assert forall|q: PeerId, g: MessageFingerprint| #[trigger] self.peer_knows(q, g) == (pre.peer_knows(q, g) && q != p) by {
                    if pre.peer_knows(q, g) && q != p {
                        let j = choose|j: int| 0 <= j < pre.known_by@.len() && #[trigger] pre.known_by@[j].peer == q
                            && pre.known_by@[j].knowledge.knows(g);
                        if j < k {
                            assert(self.known_by@[j].peer == q);
                        } else {
                            assert(self.known_by@[j - 1].peer == q);
                        }
                    }
                    if self.peer_knows(q, g) {
                        let j = choose|j: int| 0 <= j < self.known_by@.len() && #[trigger] self.known_by@[j].peer == q
                            && self.known_by@[j].knowledge.knows(g);
                        let j2 = if j < k { j } else { j + 1 };
                        assert(pre.known_by@[j2].peer == q);
                        assert(j2 != k);
                    }
                }
                assert forall|k1: int, k2: int|
                    #![trigger self.known_by@[k1], self.known_by@[k2]]
                    0 <= k1 < self.known_by@.len() && 0 <= k2 < self.known_by@.len() && k1 != k2
                        implies self.known_by@[k1].peer != self.known_by@[k2].peer by {
                    let a = if k1 < k { k1 } else { k1 + 1 };
                    let b = if k2 < k { k2 } else { k2 + 1 };
                    assert(pre.known_by@[a].peer != pre.known_by@[b].peer);
                }
                assert forall|j: int| 0 <= j < self.known_by@.len() implies #[trigger] self.known_by@[j].knowledge.within(&self.knowledge) by {
                    let j2 = if j < k { j } else { j + 1 };
                    assert(pre.known_by@[j2].knowledge.within(&pre.knowledge));
                }
            },
        }
    }

    /// Makes peer `p` known to have the block, with a snapshot of our
    /// knowledge of it.
    pub fn add_peer_snapshot(&mut self, p: PeerId)
        requires
            old(self).wf(),
            !old(self).has_peer(p),
        ensures
            final(self).wf(),
            final(self).same_but_peers(old(self)),
            forall|q: PeerId| #[trigger] final(self).has_peer(q) == (old(self).has_peer(q) || q == p),
            forall|q: PeerId, g: MessageFingerprint| #[trigger] final(self).peer_knows(q, g)
                == if q == p { old(self).knowledge.knows(g) } else { old(self).peer_knows(q, g) },
    {
        let ghost pre = *self;
        let knowledge = self.knowledge.snapshot();
        self.known_by.push(PeerKnowledge { peer: p, knowledge });
        let ghost n = pre.known_by@.len() as int;
        assert(self.known_by@[n].peer == p);
        assert forall|q: PeerId, g: MessageFingerprint| #[trigger] self.peer_knows(q, g)
            == if q == p { pre.knowledge.knows(g) } else { pre.peer_knows(q, g) } by {
            if q == p {
                if self.peer_knows(q, g) {
                    let j = choose|j: int| 0 <= j < self.known_by@.len() && #[trigger] self.known_by@[j].peer == q
                        && self.known_by@[j].knowledge.knows(g);
                    if j != n {
                        assert(pre.known_by@[j].peer == q);
                    }
                }
            } else {
                if pre.peer_knows(q, g) {
                    let j = choose|j: int| 0 <= j < pre.known_by@.len() && #[trigger] pre.known_by@[j].peer == q
                        && pre.known_by@[j].knowledge.knows(g);
                    assert(self.known_by@[j].peer == q);
                }
                if self.peer_knows(q, g) {
                    let j = choose|j: int| 0 <= j < self.known_by@.len() && #[trigger] self.known_by@[j].peer == q
                        && self.known_by@[j].knowledge.knows(g);
                    assert(pre.known_by@[j].peer == q);
                }
            }
        }
        assert forall|q: PeerId| #[trigger] self.has_peer(q) == (pre.has_peer(q) || q == p) by {
            if pre.has_peer(q) {
                let j = choose|j: int| 0 <= j < pre.known_by@.len() && #[trigger] pre.known_by@[j].peer == q;
                assert(self.known_by@[j].peer == q);
            }
            if self.has_peer(q) {
                let j = choose|j: int| 0 <= j < self.known_by@.len() && #[trigger] self.known_by@[j].peer == q;
                if j != n {
                    assert(pre.known_by@[j].peer == q);
                }
            }
        }
        assert forall|k1: int, k2: int|
            #![trigger self.known_by@[k1], self.known_by@[k2]]
            0 <= k1 < self.known_by@.len() && 0 <= k2 < self.known_by@.len() && k1 != k2
                implies self.known_by@[k1].peer != self.known_by@[k2].peer by {
            if k1 == n {
                assert(pre.known_by@[k2].peer == self.known_by@[k2].peer);
            } else if k2 == n {
                assert(pre.known_by@[k1].peer == self.known_by@[k1].peer);
            } else {
                assert(pre.known_by@[k1] == self.known_by@[k1]);
                assert(pre.known_by@[k2] == self.known_by@[k2]);
            }
        }
        assert forall|j: int| 0 <= j < self.known_by@.len() implies #[trigger] self.known_by@[j].knowledge.within(&self.knowledge) by {
            if j != n {
                assert(pre.known_by@[j].knowledge.within(&pre.knowledge));
            }
        }
    }

    /// Creates an empty entry for candidate `c`, unless there is one.
    pub fn add_candidate(&mut self, c: CandidateIndex)
        requires
            old(self).wf(),
        ensures
            final(self).wf(),
            final(self).hash == old(self).hash,
            final(self).number == old(self).number,
            final(self).parent_hash == old(self).parent_hash,
            final(self).knowledge == old(self).knowledge,
            final(self).approvals == old(self).approvals,
            final(self).known_by == old(self).known_by,
            forall|c2: CandidateIndex| #[trigger] final(self).has_candidate(c2) == (old(self).has_candidate(c2) || c2 == c),
    {
        if !self.contains_candidate(c) {
            let ghost before = self.candidates@;
            self.candidates.push(c);
            assert forall|c2: CandidateIndex| #[trigger] self.candidates@.contains(c2) == (before.contains(c2) || c2 == c) by {
                if before.contains(c2) {
                    let j = choose|j: int| 0 <= j < before.len() && before[j] == c2;
                    assert(self.candidates@[j] == c2);
                }
                if c2 == c {
                    assert(self.candidates@[before.len() as int] == c2);
                }
            }
        }
    }
}

} // verus!
