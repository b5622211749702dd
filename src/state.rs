use vstd::prelude::*;
use crate::primitives::{
    Action, BlockApprovalMeta, ApprovalCheckResult, AssignmentCheckResult, BlockHash, BlockNumber, CandidateIndex,
    IndirectAssignmentCert, IndirectSignedApprovalVote, MessageFingerprint, PeerId, Rep,
    approval_fp, assignment_fp, precedent_fp,
};
use crate::block::{ApprovalState, BlockEntry, approvals_of, approve, assign, assignments_of};

verus! {

/// The last view a connected peer announced.
#[derive(Debug)]
pub struct PeerView {
    pub peer: PeerId,
    pub view: crate::primitives::View,
}

/// What is left to do with a message from a peer after the first half of
/// its import.
#[derive(Clone, Copy, Debug, PartialEq, Eq, Structural)]
pub enum ImportStep {
    /// The message has been dealt with.
    Done,
    /// The message must be checked by approval voting, whose answer goes to
    /// the second half of the import.
    AwaitCheck,
}

/// Our view of the unfinalized chain, the messages we have seen and the
/// views of our peers.
///
/// The blocks are held in one list, each with its number: the blocks of a
/// given number are those of the list that carry it.
#[derive(Debug)]
pub struct State {
    pub blocks: Vec<BlockEntry>,
    pub peer_views: Vec<PeerView>,
}

/// A report of `rep` on `peer`.
pub open spec fn report(peer: PeerId, rep: Rep) -> Action {
    Action::ReportPeer { peer, rep }
}

/// `act` sends the one assignment `(a, c)` to exactly the peers in `to`.
pub open spec fn sends_assignment(act: Action, a: IndirectAssignmentCert, c: CandidateIndex, to: spec_fn(PeerId) -> bool) -> bool {
    match act {
        Action::SendAssignments { peers, assignments } => assignments@ == seq![(a, c)]
            && forall|q: PeerId| #[trigger] peers@.contains(q) == to(q),
        _ => false,
    }
}

/// `act` sends the one approval vote `v` to exactly the peers in `to`.
pub open spec fn sends_approval(act: Action, v: IndirectSignedApprovalVote, to: spec_fn(PeerId) -> bool) -> bool {
    match act {
        Action::SendApprovals { peers, approvals } => approvals@ == seq![v]
            && forall|q: PeerId| #[trigger] peers@.contains(q) == to(q),
        _ => false,
    }
}

/// The assignments gossiped for the blocks at the indices `sent`, block by
/// block.
pub open spec fn gossip_assignments(blocks: Seq<BlockEntry>, sent: Seq<usize>) -> Seq<(IndirectAssignmentCert, CandidateIndex)>
    decreases sent.len(),
{
    if sent.len() == 0 {
        Seq::empty()
    } else {
        let b = blocks[sent.last() as int];
        gossip_assignments(blocks, sent.drop_last()) + assignments_of(b.hash, b.approvals@)
    }
}

/// The approval votes gossiped for the blocks at the indices `sent`, block
/// by block.
pub open spec fn gossip_approvals(blocks: Seq<BlockEntry>, sent: Seq<usize>) -> Seq<IndirectSignedApprovalVote>
    decreases sent.len(),
{
    if sent.len() == 0 {
        Seq::empty()
    } else {
        let b = blocks[sent.last() as int];
        gossip_approvals(blocks, sent.drop_last()) + approvals_of(b.hash, b.approvals@)
    }
}

/// `actions` send to `peer` one batch of the assignments `asg` and then one of
/// the approvals `apv`, each only if it is not empty.
pub open spec fn gossips(actions: Seq<Action>, peer: PeerId, asg: Seq<(IndirectAssignmentCert, CandidateIndex)>, apv: Seq<IndirectSignedApprovalVote>) -> bool {
    let n: int = if asg.len() > 0 { 1 } else { 0 };
    &&& actions.len() == n + if apv.len() > 0 { 1int } else { 0int }
    &&& asg.len() > 0 ==> match actions[0] {
        Action::SendAssignments { peers, assignments } => peers@ == seq![peer] && assignments@ == asg,
        _ => false,
    }
    &&& apv.len() > 0 ==> match actions[n] {
        Action::SendApprovals { peers, approvals } => peers@ == seq![peer] && approvals@ == apv,
        _ => false,
    }
}

/// Whether `h` is among `hashes`.
pub fn contains_hash(hashes: &Vec<BlockHash>, h: BlockHash) -> (r: bool)
    ensures
        r == hashes@.contains(h),
{
    let mut i: usize = 0;
    while i < hashes.len()
        invariant
            i <= hashes@.len(),
            forall|j: int| 0 <= j < i ==> hashes@[j] != h,
        decreases hashes@.len() - i,
    {
        if hashes[i] == h {
            return true;
        }
        i += 1;
    }
    false
}

impl State {
    pub open spec fn has_block(&self, h: BlockHash) -> bool {
        exists|i: int| 0 <= i < self.blocks@.len() && #[trigger] self.blocks@[i].hash == h
    }

    pub open spec fn connected(&self, p: PeerId) -> bool {
        exists|j: int| 0 <= j < self.peer_views@.len() && #[trigger] self.peer_views@[j].peer == p
    }

    pub open spec fn wf(&self) -> bool {
        &&& forall|i1: int, i2: int|
            #![trigger self.blocks@[i1], self.blocks@[i2]]
            0 <= i1 < self.blocks@.len() && 0 <= i2 < self.blocks@.len() && i1 != i2
                ==> self.blocks@[i1].hash != self.blocks@[i2].hash
        &&& forall|i: int| 0 <= i < self.blocks@.len() ==> (#[trigger] self.blocks@[i]).wf()
        &&& forall|j1: int, j2: int|
            #![trigger self.peer_views@[j1], self.peer_views@[j2]]
            0 <= j1 < self.peer_views@.len() && 0 <= j2 < self.peer_views@.len() && j1 != j2
                ==> self.peer_views@[j1].peer != self.peer_views@[j2].peer
    }

    /// Only the block at index `i` changed, and only in who knows what of it;
    /// peer `p` now knows `f` there if `p` passes `to`.
    pub open spec fn spread(&self, old: &State, i: int, f: MessageFingerprint, to: spec_fn(PeerId) -> bool) -> bool {
        &&& self.peer_views == old.peer_views
        &&& self.blocks@.len() == old.blocks@.len()
        &&& forall|j: int| 0 <= j < self.blocks@.len() && j != i ==> #[trigger] self.blocks@[j] == old.blocks@[j]
        &&& self.blocks@[i].same_but_peers(&old.blocks@[i])
        &&& forall|q: PeerId| #[trigger] self.blocks@[i].has_peer(q) == (old.blocks@[i].has_peer(q) || to(q))
        &&& forall|q: PeerId, g: MessageFingerprint|
            #[trigger] self.blocks@[i].peer_knows(q, g) == (old.blocks@[i].peer_knows(q, g) || (g == f && to(q)))
    }

    pub fn new() -> (r: State)
        ensures
            r.wf(),
            r.blocks@.len() == 0,
            r.peer_views@.len() == 0,
    {
        State { blocks: Vec::new(), peer_views: Vec::new() }
    }

    pub fn find_block(&self, h: BlockHash) -> (r: Option<usize>)
        ensures
            match r {
                Some(i) => i < self.blocks@.len() && self.blocks@[i as int].hash == h,
                None => !self.has_block(h),
            },
    {
        let mut i: usize = 0;
        while i < self.blocks.len()
            invariant
                i <= self.blocks@.len(),
                forall|j: int| 0 <= j < i ==> self.blocks@[j].hash != h,
            decreases self.blocks@.len() - i,
        {
            if self.blocks[i].hash == h {
                return Some(i);
            }
            i += 1;
        }
        None
    }

    pub fn find_peer_view(&self, p: PeerId) -> (r: Option<usize>)
        ensures
            match r {
                Some(j) => j < self.peer_views@.len() && self.peer_views@[j as int].peer == p,
                None => !self.connected(p),
            },
    {
        let mut j: usize = 0;
        while j < self.peer_views.len()
            invariant
                j <= self.peer_views@.len(),
                forall|k: int| 0 <= k < j ==> self.peer_views@[k].peer != p,
            decreases self.peer_views@.len() - j,
        {
            if self.peer_views[j].peer == p {
                return Some(j);
            }
            j += 1;
        }
        None
    }

    /// Records that peer `p` knows `f` on the block at index `i`.
    fn note_peer_knows(&mut self, i: usize, p: PeerId, f: MessageFingerprint)
        requires
            old(self).wf(),
            i < old(self).blocks@.len(),
            old(self).blocks@[i as int].knowledge.knows(f),
        ensures
            final(self).wf(),
            final(self).spread(old(self), i as int, f, |q: PeerId| q == p),
    {
        let ghost pre = *self;
        self.blocks[i].note_peer_knows(p, f);
        assert(self.wf()) by {
            assert forall|i1: int, i2: int|
                #![trigger self.blocks@[i1], self.blocks@[i2]]
                0 <= i1 < self.blocks@.len() && 0 <= i2 < self.blocks@.len() && i1 != i2
                    implies self.blocks@[i1].hash != self.blocks@[i2].hash by {
                assert(pre.blocks@[i1].hash == self.blocks@[i1].hash);
                assert(pre.blocks@[i2].hash == self.blocks@[i2].hash);
            }
        }
    }

    /// Adds `f` to our knowledge of the block at index `i`.
    fn learn(&mut self, i: usize, f: MessageFingerprint)
        requires
            old(self).wf(),
            i < old(self).blocks@.len(),
        ensures
            final(self).wf(),
            final(self).peer_views == old(self).peer_views,
            final(self).blocks@.len() == old(self).blocks@.len(),
            forall|j: int| 0 <= j < final(self).blocks@.len() && j != i ==> #[trigger] final(self).blocks@[j] == old(self).blocks@[j],
            final(self).blocks@[i as int].hash == old(self).blocks@[i as int].hash,
            final(self).blocks@[i as int].number == old(self).blocks@[i as int].number,
            final(self).blocks@[i as int].parent_hash == old(self).blocks@[i as int].parent_hash,
            final(self).blocks@[i as int].candidates == old(self).blocks@[i as int].candidates,
            final(self).blocks@[i as int].approvals == old(self).blocks@[i as int].approvals,
            final(self).blocks@[i as int].known_by == old(self).blocks@[i as int].known_by,
            forall|g: MessageFingerprint| #[trigger] final(self).blocks@[i as int].knowledge.knows(g)
                == (old(self).blocks@[i as int].knowledge.knows(g) || g == f),
    {
        let ghost pre = *self;
        self.blocks[i].learn(f);
        assert(self.wf()) by {
            assert forall|i1: int, i2: int|
                #![trigger self.blocks@[i1], self.blocks@[i2]]
                0 <= i1 < self.blocks@.len() && 0 <= i2 < self.blocks@.len() && i1 != i2
                    implies self.blocks@[i1].hash != self.blocks@[i2].hash by {
                assert(pre.blocks@[i1].hash == self.blocks@[i1].hash);
                assert(pre.blocks@[i2].hash == self.blocks@[i2].hash);
            }
        }
    }

    /// Records `f` as known to every connected peer but `exclude`, and returns
    /// those peers.
    fn circulate(&mut self, i: usize, exclude: Option<PeerId>, f: MessageFingerprint) -> (peers: Vec<PeerId>)
        requires
            old(self).wf(),
            i < old(self).blocks@.len(),
            old(self).blocks@[i as int].knowledge.knows(f),
        ensures
            final(self).wf(),
            final(self).spread(old(self), i as int, f, |q: PeerId| old(self).connected(q) && exclude != Some(q)),
            forall|q: PeerId| #[trigger] peers@.contains(q) == (old(self).connected(q) && exclude != Some(q)),
    {
        let ghost pre = *self;
        let mut peers: Vec<PeerId> = Vec::new();
        let mut j: usize = 0;
        while j < self.peer_views.len()
            invariant
                self.wf(),
                j <= self.peer_views@.len(),
                i < self.blocks@.len(),
                self.blocks@[i as int].knowledge.knows(f),
                self.spread(&pre, i as int, f, |q: PeerId| exists|k: int| 0 <= k < j && #[trigger] pre.peer_views@[k].peer == q && exclude != Some(q)),
                forall|q: PeerId| #[trigger] peers@.contains(q) == (exists|k: int| 0 <= k < j && #[trigger] pre.peer_views@[k].peer == q && exclude != Some(q)),
            decreases self.peer_views@.len() - j,
        {
            let p = self.peer_views[j].peer;
            let ghost peers_before = peers@;
            if exclude != Some(p) {
                self.note_peer_knows(i, p, f);
                peers.push(p);
                assert forall|q: PeerId| #[trigger] peers@.contains(q) == (peers_before.contains(q) || q == p) by {
                    if peers_before.contains(q) {
                        let k = choose|k: int| 0 <= k < peers_before.len() && peers_before[k] == q;
                        assert(peers@[k] == q);
                    }
                    if q == p {
                        assert(peers@[peers_before.len() as int] == q);
                    }
                }
            }
            assert forall|q: PeerId| (exists|k: int| 0 <= k < j + 1 && #[trigger] pre.peer_views@[k].peer == q && exclude != Some(q))
                == ((exists|k: int| 0 <= k < j && #[trigger] pre.peer_views@[k].peer == q && exclude != Some(q)) || (q == p && exclude != Some(q))) by {
                if q == p {
                    assert(pre.peer_views@[j as int].peer == q);
                }
            }
            j += 1;
        }
        assert forall|q: PeerId| (exists|k: int| 0 <= k < j && #[trigger] pre.peer_views@[k].peer == q && exclude != Some(q))
            == (pre.connected(q) && exclude != Some(q)) by {}
        peers
    }

    pub proof fn lemma_wf_after_update(&self, pre: &State, i: int)
        requires
            pre.wf(),
            0 <= i < pre.blocks@.len(),
            self.peer_views == pre.peer_views,
            self.blocks@.len() == pre.blocks@.len(),
            forall|j: int| 0 <= j < self.blocks@.len() && j != i ==> #[trigger] self.blocks@[j] == pre.blocks@[j],
            self.blocks@[i].hash == pre.blocks@[i].hash,
            self.blocks@[i].wf(),
        ensures
            self.wf(),
    {
        assert forall|i1: int, i2: int|
            #![trigger self.blocks@[i1], self.blocks@[i2]]
            0 <= i1 < self.blocks@.len() && 0 <= i2 < self.blocks@.len() && i1 != i2
                implies self.blocks@[i1].hash != self.blocks@[i2].hash by {
            assert(pre.blocks@[i1].hash == self.blocks@[i1].hash);
            assert(pre.blocks@[i2].hash == self.blocks@[i2].hash);
        }
        assert forall|j: int| 0 <= j < self.blocks@.len() implies (#[trigger] self.blocks@[j]).wf() by {
            if j != i {
                assert(pre.blocks@[j].wf());
            }
        }
    }

    /// Block `i` took the assignment `(a, c)`: we know it, the candidate state
    /// moved on, and the peers in `to` know it as well.
    pub open spec fn took_assignment(&self, old: &State, i: int, a: IndirectAssignmentCert, c: CandidateIndex, to: spec_fn(PeerId) -> bool) -> bool {
        let f = assignment_fp(a, c);
        let nb = self.blocks@[i];
        let ob = old.blocks@[i];
        &&& self.peer_views == old.peer_views
        &&& self.blocks@.len() == old.blocks@.len()
        &&& forall|j: int| 0 <= j < self.blocks@.len() && j != i ==> #[trigger] self.blocks@[j] == old.blocks@[j]
        &&& nb.hash == ob.hash
        &&& nb.number == ob.number
        &&& nb.parent_hash == ob.parent_hash
        &&& nb.candidates == ob.candidates
        &&& forall|g: MessageFingerprint| #[trigger] nb.knowledge.knows(g) == (ob.knowledge.knows(g) || g == f)
        &&& forall|c2: CandidateIndex, v2: u32| #[trigger] nb.record_of(c2, v2) == if c2 == c && v2 == a.validator
            && ob.has_candidate(c) {
            assign(ob.record_of(c, a.validator), a.cert)
        } else {
            ob.record_of(c2, v2)
        }
        &&& forall|q: PeerId| #[trigger] nb.has_peer(q) == (ob.has_peer(q) || to(q))
        &&& forall|q: PeerId, g: MessageFingerprint| #[trigger] nb.peer_knows(q, g) == (ob.peer_knows(q, g) || (g == f && to(q)))
    }

    /// Takes the assignment `(a, c)` into the block at index `i` and circulates
    /// it to every connected peer but the source.
    fn accept_assignment(&mut self, i: usize, source: Option<PeerId>, a: IndirectAssignmentCert, c: CandidateIndex) -> (act: Action)
        requires
            old(self).wf(),
            i < old(self).blocks@.len(),
            old(self).blocks@[i as int].hash == a.block_hash,
        ensures
            final(self).wf(),
            final(self).took_assignment(old(self), i as int, a, c, |q: PeerId| source == Some(q) || old(self).connected(q)),
            sends_assignment(act, a, c, |q: PeerId| old(self).connected(q) && source != Some(q)),
    {
        let ghost pre = *self;
        let f = MessageFingerprint::Assignment(a.block_hash, c, a.validator);
        self.learn(i, f);
        let ghost s1 = *self;
        match source {
            Some(p) => {
                self.note_peer_knows(i, p, f);
            },
            None => {},
        }
        let ghost s2 = *self;
        assert(s2.blocks@[i as int].knowledge == s1.blocks@[i as int].knowledge);
        let ghost s2b = self.blocks@[i as int];
        self.blocks[i].set_assigned(c, a.validator, a.cert);
        proof {
            self.lemma_wf_after_update(&s2, i as int);
        }
        let ghost s3 = *self;
        assert forall|q: PeerId| #[trigger] s3.blocks@[i as int].has_peer(q) == s2b.has_peer(q) by {}
        assert forall|q: PeerId, g: MessageFingerprint| #[trigger] s3.blocks@[i as int].peer_knows(q, g) == s2b.peer_knows(q, g) by {}
        let peers = self.circulate(i, source, f);
        proof {
            let nb = self.blocks@[i as int];
            let ob = pre.blocks@[i as int];
            assert forall|q: PeerId| #[trigger] ob.has_peer(q) == s1.blocks@[i as int].has_peer(q) by {}
            assert forall|q: PeerId, g: MessageFingerprint| #[trigger] ob.peer_knows(q, g) == s1.blocks@[i as int].peer_knows(q, g) by {}
            assert forall|c2: CandidateIndex, v2: u32| #[trigger] s2b.record_of(c2, v2) == ob.record_of(c2, v2) by {}
            assert forall|c2: CandidateIndex, v2: u32| #[trigger] nb.record_of(c2, v2) == s3.blocks@[i as int].record_of(c2, v2) by {}
            assert(s2b.has_candidate(c) == ob.has_candidate(c));
        }
        let mut assignments: Vec<(IndirectAssignmentCert, CandidateIndex)> = Vec::new();
        assignments.push((a, c));
        assert(assignments@ =~= seq![(a, c)]);
        assert(s3.peer_views == pre.peer_views);
        assert forall|q: PeerId| #[trigger] peers@.contains(q) == (pre.connected(q) && source != Some(q)) by {
            assert(s3.connected(q) == pre.connected(q));
        }
        Action::SendAssignments { peers, assignments }
    }

    /// What the first half of the import of an assignment from `peer` does.
    pub open spec fn begun_assignment(old: &State, new: &State, peer: PeerId, assignment: IndirectAssignmentCert, candidate_index: CandidateIndex, r: (ImportStep, Vec<Action>)) -> bool {
        &&& !old.has_block(assignment.block_hash) ==> r.0 == ImportStep::Done
            && r.1@ == seq![report(peer, Rep::CostUnexpectedMessage)] && *new == *old
        &&& forall|i: int| 0 <= i < old.blocks@.len() && #[trigger] old.blocks@[i].hash == assignment.block_hash ==> {
            let b = old.blocks@[i];
            let f = assignment_fp(assignment, candidate_index);
            let unexpected = if b.has_peer(peer) { Seq::<Action>::empty() } else { seq![report(peer, Rep::CostUnexpectedMessage)] };
            if b.peer_knows(peer, f) {
                r.0 == ImportStep::Done && r.1@ == seq![report(peer, Rep::CostDuplicateMessage)] && *new == *old
            } else if b.knowledge.knows(f) {
                &&& r.0 == ImportStep::Done
                &&& r.1@ == unexpected.push(report(peer, Rep::BenefitValidMessage))
                &&& new.spread(old, i, f, |q: PeerId| q == peer)
            } else {
                r.0 == ImportStep::AwaitCheck && r.1@ == unexpected && *new == *old
            }
        }
    }

    /// What the second half of the import of an assignment from `peer` does.
    pub open spec fn finished_assignment(old: &State, new: &State, peer: PeerId, assignment: IndirectAssignmentCert, candidate_index: CandidateIndex, result: AssignmentCheckResult, actions: Vec<Action>) -> bool {
        &&& !old.has_block(assignment.block_hash) ==> actions@.len() == 0 && *new == *old
        &&& forall|i: int| 0 <= i < old.blocks@.len() && #[trigger] old.blocks@[i].hash == assignment.block_hash ==> {
            let to = |q: PeerId| q == peer || old.connected(q);
            let others = |q: PeerId| old.connected(q) && q != peer;
            let absent = !old.blocks@[i].has_candidate(candidate_index);
            match result {
                AssignmentCheckResult::Accepted => if absent {
                    actions@ == seq![report(peer, Rep::BenefitValidMessageFirst)] && *new == *old
                } else {
                    &&& actions@.len() == 2
                    &&& actions@[0] == report(peer, Rep::BenefitValidMessageFirst)
                    &&& sends_assignment(actions@[1], assignment, candidate_index, others)
                    &&& new.took_assignment(old, i, assignment, candidate_index, to)
                },
                AssignmentCheckResult::AcceptedDuplicate => if absent {
                    actions@.len() == 0 && *new == *old
                } else {
                    &&& actions@.len() == 1
                    &&& sends_assignment(actions@[0], assignment, candidate_index, others)
                    &&& new.took_assignment(old, i, assignment, candidate_index, to)
                },
                AssignmentCheckResult::TooFarInFuture => {
                    actions@ == seq![report(peer, Rep::CostAssignmentTooFarInTheFuture)] && *new == *old
                },
                AssignmentCheckResult::Bad => {
                    actions@ == seq![report(peer, Rep::CostInvalidMessage)] && *new == *old
                },
            }
        }
    }

    /// What the first half of the import of an approval vote from `peer` does.
    pub open spec fn begun_approval(old: &State, new: &State, peer: PeerId, vote: IndirectSignedApprovalVote, r: (ImportStep, Vec<Action>)) -> bool {
        &&& !old.has_block(vote.block_hash) ==> r.0 == ImportStep::Done
            && r.1@ == seq![report(peer, Rep::CostUnexpectedMessage)] && *new == *old
        &&& forall|i: int| 0 <= i < old.blocks@.len() && #[trigger] old.blocks@[i].hash == vote.block_hash ==> {
            let b = old.blocks@[i];
            let f = approval_fp(vote);
            let unexpected = if b.has_peer(peer) { Seq::<Action>::empty() } else { seq![report(peer, Rep::CostUnexpectedMessage)] };
            if !b.has_candidate(vote.candidate_index) || !b.knowledge.knows(precedent_fp(vote)) {
                r.0 == ImportStep::Done && r.1@ == seq![report(peer, Rep::CostUnexpectedMessage)] && *new == *old
            } else if b.peer_knows(peer, f) {
                r.0 == ImportStep::Done && r.1@ == seq![report(peer, Rep::CostDuplicateMessage)] && *new == *old
            } else if b.knowledge.knows(f) {
                &&& r.0 == ImportStep::Done
                &&& r.1@ == unexpected.push(report(peer, Rep::BenefitValidMessage))
                &&& new.spread(old, i, f, |q: PeerId| q == peer)
            } else {
                r.0 == ImportStep::AwaitCheck && r.1@ == unexpected && *new == *old
            }
        }
    }

    /// What the second half of the import of an approval vote from `peer` does.
    pub open spec fn finished_approval(old: &State, new: &State, peer: PeerId, vote: IndirectSignedApprovalVote, result: ApprovalCheckResult, actions: Vec<Action>) -> bool {
        &&& !old.has_block(vote.block_hash) ==> actions@.len() == 0 && *new == *old
        &&& forall|i: int| 0 <= i < old.blocks@.len() && #[trigger] old.blocks@[i].hash == vote.block_hash ==> {
            let b = old.blocks@[i];
            let to = |q: PeerId| q == peer || old.connected(q);
            let others = |q: PeerId| old.connected(q) && q != peer;
            if !b.has_candidate(vote.candidate_index) || !b.knowledge.knows(precedent_fp(vote)) {
                actions@.len() == 0 && *new == *old
            } else {
                match result {
                    ApprovalCheckResult::Accepted => {
                        &&& actions@.len() == 2
                        &&& actions@[0] == report(peer, Rep::BenefitValidMessageFirst)
                        &&& sends_approval(actions@[1], vote, others)
                        &&& new.took_approval(old, i, vote, to)
                    },
                    ApprovalCheckResult::Bad => {
                        actions@ == seq![report(peer, Rep::CostInvalidMessage)] && *new == *old
                    },
                }
            }
        }
    }

    /// Distributes an assignment of our own: it is taken into its block and
    /// sent to every connected peer. An assignment for a block we do not
    /// track is dropped.
    pub fn distribute_assignment(&mut self, assignment: IndirectAssignmentCert, candidate_index: CandidateIndex) -> (actions: Vec<Action>)
        requires
            old(self).wf(),
        ensures
            final(self).wf(),
            !old(self).has_block(assignment.block_hash) ==> actions@.len() == 0 && *final(self) == *old(self),
            forall|i: int| 0 <= i < old(self).blocks@.len() && #[trigger] old(self).blocks@[i].hash == assignment.block_hash ==> {
                if old(self).blocks@[i].has_candidate(candidate_index) {
                    &&& actions@.len() == 1
                    &&& sends_assignment(actions@[0], assignment, candidate_index, |q: PeerId| old(self).connected(q))
                    &&& final(self).took_assignment(old(self), i, assignment, candidate_index, |q: PeerId| old(self).connected(q))
                } else {
                    actions@.len() == 0 && *final(self) == *old(self)
                }
            },
    {
        let mut actions: Vec<Action> = Vec::new();
        match self.find_block(assignment.block_hash) {
            None => {},
            Some(i) => {
                let ghost pre = *self;
                if self.blocks[i].contains_candidate(candidate_index) {
                    let act = self.accept_assignment(i, None, assignment, candidate_index);
                    actions.push(act);
                }
                proof {
                    assert forall|j: int| 0 <= j < pre.blocks@.len() && #[trigger] pre.blocks@[j].hash == assignment.block_hash implies j == i by {
                        if j != i {
                            assert(pre.blocks@[j].hash == pre.blocks@[i as int].hash);
                        }
                    }
                    assert forall|q: PeerId| (None::<PeerId> == Some(q) || pre.connected(q)) == #[trigger] pre.connected(q) by {}
                    assert forall|q: PeerId| (pre.connected(q) && None::<PeerId> != Some(q)) == #[trigger] pre.connected(q) by {}
                }
            },
        }
        actions
    }

    /// The first half of the import of an assignment from a peer: the checks
    /// that need no answer from approval voting.
    pub fn begin_peer_assignment(&mut self, peer: PeerId, assignment: IndirectAssignmentCert, candidate_index: CandidateIndex) -> (r: (ImportStep, Vec<Action>))
        requires
            old(self).wf(),
        ensures
            final(self).wf(),
            State::begun_assignment(old(self), final(self), peer, assignment, candidate_index, r),
    {
        let mut actions: Vec<Action> = Vec::new();
        let i = match self.find_block(assignment.block_hash) {
            None => {
                actions.push(Action::ReportPeer { peer, rep: Rep::CostUnexpectedMessage });
                assert(actions@ =~= seq![report(peer, Rep::CostUnexpectedMessage)]);
                return (ImportStep::Done, actions);
            },
            Some(i) => i,
        };
        let ghost pre = *self;
        proof {
            assert forall|j: int| 0 <= j < pre.blocks@.len() && #[trigger] pre.blocks@[j].hash == assignment.block_hash implies j == i by {
                if j != i {
                    assert(pre.blocks@[j].hash == pre.blocks@[i as int].hash);
                }
            }
        }
        let f = MessageFingerprint::Assignment(assignment.block_hash, candidate_index, assignment.validator);
        match self.blocks[i].find_peer(peer) {
            Some(k) => {
                if self.blocks[i].known_by[k].knowledge.contains(&f) {
                    actions.push(Action::ReportPeer { peer, rep: Rep::CostDuplicateMessage });
                    assert(actions@ =~= seq![report(peer, Rep::CostDuplicateMessage)]);
                    return (ImportStep::Done, actions);
                }
                proof {
                    let b = pre.blocks@[i as int];
                    assert(b.has_peer(peer));
                    if b.peer_knows(peer, f) {
                        let k2 = choose|k2: int| 0 <= k2 < b.known_by@.len() && #[trigger] b.known_by@[k2].peer == peer
                            && b.known_by@[k2].knowledge.knows(f);
                        if k2 != k {
                            assert(b.known_by@[k2].peer == b.known_by@[k as int].peer);
                        }
                    }
                }
            },
            None => {
                actions.push(Action::ReportPeer { peer, rep: Rep::CostUnexpectedMessage });
            },
        }
        if self.blocks[i].knowledge.contains(&f) {
            actions.push(Action::ReportPeer { peer, rep: Rep::BenefitValidMessage });
            self.note_peer_knows(i, peer, f);
            return (ImportStep::Done, actions);
        }
        (ImportStep::AwaitCheck, actions)
    }

    /// The second half of the import of an assignment from a peer, with
    /// approval voting's answer on it.
    pub fn finish_peer_assignment(
        &mut self,
        peer: PeerId,
        assignment: IndirectAssignmentCert,
        candidate_index: CandidateIndex,
        result: AssignmentCheckResult,
    ) -> (actions: Vec<Action>)
        requires
            old(self).wf(),
        ensures
            final(self).wf(),
            State::finished_assignment(old(self), final(self), peer, assignment, candidate_index, result, actions),
    {
        let mut actions: Vec<Action> = Vec::new();
        let i = match self.find_block(assignment.block_hash) {
            None => {
                return actions;
            },
            Some(i) => i,
        };
        let ghost pre = *self;
        proof {
            assert forall|j: int| 0 <= j < pre.blocks@.len() && #[trigger] pre.blocks@[j].hash == assignment.block_hash implies j == i by {
                if j != i {
                    assert(pre.blocks@[j].hash == pre.blocks@[i as int].hash);
                }
            }
            assert forall|q: PeerId| (Some(peer) == Some(q) || #[trigger] pre.connected(q)) == (q == peer || pre.connected(q)) by {}
            assert forall|q: PeerId| (#[trigger] pre.connected(q) && Some(peer) != Some(q)) == (pre.connected(q) && q != peer) by {}
        }
        let present = self.blocks[i].contains_candidate(candidate_index);
        match result {
            AssignmentCheckResult::Accepted => {
                actions.push(Action::ReportPeer { peer, rep: Rep::BenefitValidMessageFirst });
                if present {
                    let act = self.accept_assignment(i, Some(peer), assignment, candidate_index);
                    actions.push(act);
                } else {
                    assert(actions@ =~= seq![report(peer, Rep::BenefitValidMessageFirst)]);
                }
            },
            AssignmentCheckResult::AcceptedDuplicate => {
                if present {
                    let act = self.accept_assignment(i, Some(peer), assignment, candidate_index);
                    actions.push(act);
                }
            },
            AssignmentCheckResult::TooFarInFuture => {
                actions.push(Action::ReportPeer { peer, rep: Rep::CostAssignmentTooFarInTheFuture });
                assert(actions@ =~= seq![report(peer, Rep::CostAssignmentTooFarInTheFuture)]);
            },
            AssignmentCheckResult::Bad => {
                actions.push(Action::ReportPeer { peer, rep: Rep::CostInvalidMessage });
                assert(actions@ =~= seq![report(peer, Rep::CostInvalidMessage)]);
            },
        }
        actions
    }

    /// Block `i` took the approval vote `v`: we know it, an assigned state of
    /// its validator became approved, and the peers in `to` know it as well.
    pub open spec fn took_approval(&self, old: &State, i: int, v: IndirectSignedApprovalVote, to: spec_fn(PeerId) -> bool) -> bool {
        let f = approval_fp(v);
        let nb = self.blocks@[i];
        let ob = old.blocks@[i];
        &&& self.peer_views == old.peer_views
        &&& self.blocks@.len() == old.blocks@.len()
        &&& forall|j: int| 0 <= j < self.blocks@.len() && j != i ==> #[trigger] self.blocks@[j] == old.blocks@[j]
        &&& nb.hash == ob.hash
        &&& nb.number == ob.number
        &&& nb.parent_hash == ob.parent_hash
        &&& nb.candidates == ob.candidates
        &&& forall|g: MessageFingerprint| #[trigger] nb.knowledge.knows(g) == (ob.knowledge.knows(g) || g == f)
        &&& forall|c2: CandidateIndex, v2: u32| #[trigger] nb.record_of(c2, v2) == if c2 == v.candidate_index && v2 == v.validator {
            approve(ob.record_of(c2, v2), v.signature)
        } else {
            ob.record_of(c2, v2)
        }
        &&& forall|q: PeerId| #[trigger] nb.has_peer(q) == (ob.has_peer(q) || to(q))
        &&& forall|q: PeerId, g: MessageFingerprint| #[trigger] nb.peer_knows(q, g) == (ob.peer_knows(q, g) || (g == f && to(q)))
    }

    /// Takes the approval vote into the block at index `i` and circulates it
    /// to every connected peer but the source.
    fn accept_approval(&mut self, i: usize, source: Option<PeerId>, vote: IndirectSignedApprovalVote) -> (act: Action)
        requires
            old(self).wf(),
            i < old(self).blocks@.len(),
            old(self).blocks@[i as int].hash == vote.block_hash,
        ensures
            final(self).wf(),
            final(self).took_approval(old(self), i as int, vote, |q: PeerId| source == Some(q) || old(self).connected(q)),
            sends_approval(act, vote, |q: PeerId| old(self).connected(q) && source != Some(q)),
    {
        let ghost pre = *self;
        let f = MessageFingerprint::Approval(vote.block_hash, vote.candidate_index, vote.validator);
        self.learn(i, f);
        let ghost s1 = *self;
        match source {
            Some(p) => {
                self.note_peer_knows(i, p, f);
            },
            None => {},
        }
        let ghost s2 = *self;
        let ghost s2b = self.blocks@[i as int];
        self.blocks[i].set_approved(vote.candidate_index, vote.validator, vote.signature);
        proof {
            self.lemma_wf_after_update(&s2, i as int);
        }
        let ghost s3 = *self;
        assert forall|q: PeerId| #[trigger] s3.blocks@[i as int].has_peer(q) == s2b.has_peer(q) by {}
        assert forall|q: PeerId, g: MessageFingerprint| #[trigger] s3.blocks@[i as int].peer_knows(q, g) == s2b.peer_knows(q, g) by {}
        let peers = self.circulate(i, source, f);
        proof {
            let nb = self.blocks@[i as int];
            let ob = pre.blocks@[i as int];
            assert forall|q: PeerId| #[trigger] ob.has_peer(q) == s1.blocks@[i as int].has_peer(q) by {}
            assert forall|q: PeerId, g: MessageFingerprint| #[trigger] ob.peer_knows(q, g) == s1.blocks@[i as int].peer_knows(q, g) by {}
            assert forall|c2: CandidateIndex, v2: u32| #[trigger] s2b.record_of(c2, v2) == ob.record_of(c2, v2) by {}
            assert forall|c2: CandidateIndex, v2: u32| #[trigger] nb.record_of(c2, v2) == s3.blocks@[i as int].record_of(c2, v2) by {}
        }
        let mut approvals: Vec<IndirectSignedApprovalVote> = Vec::new();
        approvals.push(vote);
        assert(approvals@ =~= seq![vote]);
        assert(s3.peer_views == pre.peer_views);
        assert forall|q: PeerId| #[trigger] peers@.contains(q) == (pre.connected(q) && source != Some(q)) by {
            assert(s3.connected(q) == pre.connected(q));
        }
        Action::SendApprovals { peers, approvals }
    }

    /// Distributes an approval vote of our own: it is taken into its block
    /// and sent to every connected peer. A vote for a block we do not track,
    /// or for a candidate the block does not include, is dropped.
    pub fn distribute_approval(&mut self, vote: IndirectSignedApprovalVote) -> (actions: Vec<Action>)
        requires
            old(self).wf(),
        ensures
            final(self).wf(),
            !old(self).has_block(vote.block_hash) ==> actions@.len() == 0 && *final(self) == *old(self),
            forall|i: int| 0 <= i < old(self).blocks@.len() && #[trigger] old(self).blocks@[i].hash == vote.block_hash ==> {
                if old(self).blocks@[i].has_candidate(vote.candidate_index) {
                    &&& actions@.len() == 1
                    &&& sends_approval(actions@[0], vote, |q: PeerId| old(self).connected(q))
                    &&& final(self).took_approval(old(self), i, vote, |q: PeerId| old(self).connected(q))
                } else {
                    actions@.len() == 0 && *final(self) == *old(self)
                }
            },
    {
        let mut actions: Vec<Action> = Vec::new();
        match self.find_block(vote.block_hash) {
            None => {},
            Some(i) => {
                let ghost pre = *self;
                proof {
                    assert forall|j: int| 0 <= j < pre.blocks@.len() && #[trigger] pre.blocks@[j].hash == vote.block_hash implies j == i by {
                        if j != i {
                            assert(pre.blocks@[j].hash == pre.blocks@[i as int].hash);
                        }
                    }
                    assert forall|q: PeerId| (None::<PeerId> == Some(q) || pre.connected(q)) == #[trigger] pre.connected(q) by {}
                    assert forall|q: PeerId| (pre.connected(q) && None::<PeerId> != Some(q)) == #[trigger] pre.connected(q) by {}
                }
                if self.blocks[i].contains_candidate(vote.candidate_index) {
                    let act = self.accept_approval(i, None, vote);
                    actions.push(act);
                }
            },
        }
        actions
    }

    /// The first half of the import of an approval vote from a peer: the
    /// checks that need no answer from approval voting. A vote whose
    /// assignment we do not know is refused.
    pub fn begin_peer_approval(&mut self, peer: PeerId, vote: IndirectSignedApprovalVote) -> (r: (ImportStep, Vec<Action>))
        requires
            old(self).wf(),
        ensures
            final(self).wf(),
            State::begun_approval(old(self), final(self), peer, vote, r),
    {
        let mut actions: Vec<Action> = Vec::new();
        let i = match self.find_block(vote.block_hash) {
            None => {
                actions.push(Action::ReportPeer { peer, rep: Rep::CostUnexpectedMessage });
                assert(actions@ =~= seq![report(peer, Rep::CostUnexpectedMessage)]);
                return (ImportStep::Done, actions);
            },
            Some(i) => i,
        };
        let ghost pre = *self;
        proof {
            assert forall|j: int| 0 <= j < pre.blocks@.len() && #[trigger] pre.blocks@[j].hash == vote.block_hash implies j == i by {
                if j != i {
                    assert(pre.blocks@[j].hash == pre.blocks@[i as int].hash);
                }
            }
        }
        let assigned = MessageFingerprint::Assignment(vote.block_hash, vote.candidate_index, vote.validator);
        if !self.blocks[i].contains_candidate(vote.candidate_index) || !self.blocks[i].knowledge.contains(&assigned) {
            actions.push(Action::ReportPeer { peer, rep: Rep::CostUnexpectedMessage });
            assert(actions@ =~= seq![report(peer, Rep::CostUnexpectedMessage)]);
            return (ImportStep::Done, actions);
        }
        let f = MessageFingerprint::Approval(vote.block_hash, vote.candidate_index, vote.validator);
        match self.blocks[i].find_peer(peer) {
            Some(k) => {
                if self.blocks[i].known_by[k].knowledge.contains(&f) {
                    actions.push(Action::ReportPeer { peer, rep: Rep::CostDuplicateMessage });
                    assert(actions@ =~= seq![report(peer, Rep::CostDuplicateMessage)]);
                    return (ImportStep::Done, actions);
                }
                proof {
                    let b = pre.blocks@[i as int];
                    assert(b.has_peer(peer));
                    if b.peer_knows(peer, f) {
                        let k2 = choose|k2: int| 0 <= k2 < b.known_by@.len() && #[trigger] b.known_by@[k2].peer == peer
                            && b.known_by@[k2].knowledge.knows(f);
                        if k2 != k {
                            assert(b.known_by@[k2].peer == b.known_by@[k as int].peer);
                        }
                    }
                }
            },
            None => {
                actions.push(Action::ReportPeer { peer, rep: Rep::CostUnexpectedMessage });
            },
        }
        if self.blocks[i].knowledge.contains(&f) {
            actions.push(Action::ReportPeer { peer, rep: Rep::BenefitValidMessage });
            self.note_peer_knows(i, peer, f);
            return (ImportStep::Done, actions);
        }
        (ImportStep::AwaitCheck, actions)
    }

    /// The second half of the import of an approval vote from a peer, with
    /// approval voting's answer on it. A vote that the first half would have
    /// refused changes nothing.
    pub fn finish_peer_approval(&mut self, peer: PeerId, vote: IndirectSignedApprovalVote, result: ApprovalCheckResult) -> (actions: Vec<Action>)
        requires
            old(self).wf(),
        ensures
            final(self).wf(),
            State::finished_approval(old(self), final(self), peer, vote, result, actions),
    {
        let mut actions: Vec<Action> = Vec::new();
        let i = match self.find_block(vote.block_hash) {
            None => {
                return actions;
            },
            Some(i) => i,
        };
        let ghost pre = *self;
        proof {
            assert forall|j: int| 0 <= j < pre.blocks@.len() && #[trigger] pre.blocks@[j].hash == vote.block_hash implies j == i by {
                if j != i {
                    assert(pre.blocks@[j].hash == pre.blocks@[i as int].hash);
                }
            }
            assert forall|q: PeerId| (Some(peer) == Some(q) || #[trigger] pre.connected(q)) == (q == peer || pre.connected(q)) by {}
            assert forall|q: PeerId| (#[trigger] pre.connected(q) && Some(peer) != Some(q)) == (pre.connected(q) && q != peer) by {}
        }
        let assigned = MessageFingerprint::Assignment(vote.block_hash, vote.candidate_index, vote.validator);
        if !self.blocks[i].contains_candidate(vote.candidate_index) || !self.blocks[i].knowledge.contains(&assigned) {
            return actions;
        }
        match result {
            ApprovalCheckResult::Accepted => {
                actions.push(Action::ReportPeer { peer, rep: Rep::BenefitValidMessageFirst });
                let act = self.accept_approval(i, Some(peer), vote);
                actions.push(act);
            },
            ApprovalCheckResult::Bad => {
                actions.push(Action::ReportPeer { peer, rep: Rep::CostInvalidMessage });
                assert(actions@ =~= seq![report(peer, Rep::CostInvalidMessage)]);
            },
        }
        actions
    }

    /// A peer connected: it starts with an empty view, unless it had one.
    pub fn peer_connected(&mut self, peer: PeerId)
        requires
            old(self).wf(),
        ensures
            final(self).wf(),
            final(self).blocks == old(self).blocks,
            forall|q: PeerId| #[trigger] final(self).connected(q) == (old(self).connected(q) || q == peer),
            old(self).connected(peer) ==> *final(self) == *old(self),
            !old(self).connected(peer) ==> {
                &&& final(self).peer_views@.len() == old(self).peer_views@.len() + 1
                &&& final(self).peer_views@.drop_last() == old(self).peer_views@
                &&& final(self).peer_views@.last().peer == peer
                &&& final(self).peer_views@.last().view.heads@.len() == 0
                &&& final(self).peer_views@.last().view.finalized_number == 0
            },
    {
        match self.find_peer_view(peer) {
            Some(_) => {},
            None => {
                let ghost pre = *self;
                let view = crate::primitives::View { heads: Vec::new(), finalized_number: 0 };
                self.peer_views.push(PeerView { peer, view });
                let ghost n = pre.peer_views@.len() as int;
                assert(self.peer_views@[n].peer == peer);
                assert(self.peer_views@.drop_last() =~= pre.peer_views@);
                assert forall|q: PeerId| #[trigger] self.connected(q) == (pre.connected(q) || q == peer) by {
                    if pre.connected(q) {
                        let j = choose|j: int| 0 <= j < pre.peer_views@.len() && #[trigger] pre.peer_views@[j].peer == q;
                        assert(self.peer_views@[j].peer == q);
                    }
                    if self.connected(q) {
                        let j = choose|j: int| 0 <= j < self.peer_views@.len() && #[trigger] self.peer_views@[j].peer == q;
                        if j != n {
                            assert(pre.peer_views@[j].peer == q);
                        }
                    }
                }
                assert forall|j1: int, j2: int|
                    #![trigger self.peer_views@[j1], self.peer_views@[j2]]
                    0 <= j1 < self.peer_views@.len() && 0 <= j2 < self.peer_views@.len() && j1 != j2
                        implies self.peer_views@[j1].peer != self.peer_views@[j2].peer by {
                    if j1 == n {
                        assert(pre.peer_views@[j2].peer == self.peer_views@[j2].peer);
                    } else if j2 == n {
                        assert(pre.peer_views@[j1].peer == self.peer_views@[j1].peer);
                    } else {
                        assert(pre.peer_views@[j1].peer == self.peer_views@[j1].peer);
                        assert(pre.peer_views@[j2].peer == self.peer_views@[j2].peer);
                    }
                }
            },
        }
    }

    /// Forgets what peer `p` knows of the block at index `i`.
    fn forget_peer_at(&mut self, i: usize, p: PeerId)
        requires
            old(self).wf(),
            i < old(self).blocks@.len(),
        ensures
            final(self).wf(),
            final(self).peer_views == old(self).peer_views,
            final(self).blocks@.len() == old(self).blocks@.len(),
            forall|j: int| 0 <= j < final(self).blocks@.len() && j != i ==> #[trigger] final(self).blocks@[j] == old(self).blocks@[j],
            final(self).blocks@[i as int].same_but_peers(&old(self).blocks@[i as int]),
            forall|q: PeerId| #[trigger] final(self).blocks@[i as int].has_peer(q) == (old(self).blocks@[i as int].has_peer(q) && q != p),
            forall|q: PeerId, g: MessageFingerprint|
                #[trigger] final(self).blocks@[i as int].peer_knows(q, g) == (old(self).blocks@[i as int].peer_knows(q, g) && q != p),
            !old(self).blocks@[i as int].has_peer(p) ==> final(self).blocks@[i as int] == old(self).blocks@[i as int],
    {
        let ghost pre = *self;
        self.blocks[i].forget_peer(p);
        proof {
            self.lemma_wf_after_update(&pre, i as int);
        }
    }

    /// A peer disconnected: its view and everything it was known to know go.
    pub fn peer_disconnected(&mut self, peer: PeerId)
        requires
            old(self).wf(),
        ensures
            final(self).wf(),
            forall|q: PeerId| #[trigger] final(self).connected(q) == (old(self).connected(q) && q != peer),
            final(self).blocks@.len() == old(self).blocks@.len(),
            forall|i: int| 0 <= i < final(self).blocks@.len() ==> (#[trigger] final(self).blocks@[i]).same_but_peers(&old(self).blocks@[i]),
            forall|i: int, q: PeerId| 0 <= i < final(self).blocks@.len() ==>
                #[trigger] final(self).blocks@[i].has_peer(q) == (old(self).blocks@[i].has_peer(q) && q != peer),
            forall|i: int, q: PeerId, g: MessageFingerprint| 0 <= i < final(self).blocks@.len() ==>
                #[trigger] final(self).blocks@[i].peer_knows(q, g) == (old(self).blocks@[i].peer_knows(q, g) && q != peer),
            !final(self).connected(peer),
            forall|i: int| 0 <= i < final(self).blocks@.len() ==> !(#[trigger] final(self).blocks@[i]).has_peer(peer),
            old(self).connected(peer) ==> exists|j: int| 0 <= j < old(self).peer_views@.len()
                && #[trigger] old(self).peer_views@[j].peer == peer && final(self).peer_views@ == old(self).peer_views@.remove(j),
            !old(self).connected(peer) ==> final(self).peer_views == old(self).peer_views,
    {
        let ghost pre = *self;
        match self.find_peer_view(peer) {
            None => {},
            Some(k) => {
                self.peer_views.remove(k);
                assert forall|j: int| 0 <= j < self.peer_views@.len() implies #[trigger] self.peer_views@[j] == pre.peer_views@[if j < k { j } else { j + 1 }] by {}
                assert forall|j1: int, j2: int|
                    #![trigger self.peer_views@[j1], self.peer_views@[j2]]
                    0 <= j1 < self.peer_views@.len() && 0 <= j2 < self.peer_views@.len() && j1 != j2
                        implies self.peer_views@[j1].peer != self.peer_views@[j2].peer by {
                    let a = if j1 < k { j1 } else { j1 + 1 };
                    let b = if j2 < k { j2 } else { j2 + 1 };
                    assert(pre.peer_views@[a].peer != pre.peer_views@[b].peer);
                }
                assert forall|q: PeerId| #[trigger] self.connected(q) == (pre.connected(q) && q != peer) by {
                    if pre.connected(q) && q != peer {
                        let j = choose|j: int| 0 <= j < pre.peer_views@.len() && #[trigger] pre.peer_views@[j].peer == q;
                        if j < k {
                            assert(self.peer_views@[j].peer == q);
                        } else {
                            assert(self.peer_views@[j - 1].peer == q);
                        }
                    }
                    if self.connected(q) {
                        let j = choose|j: int| 0 <= j < self.peer_views@.len() && #[trigger] self.peer_views@[j].peer == q;
                        let j2 = if j < k { j } else { j + 1 };
                        assert(pre.peer_views@[j2].peer == q);
                        assert(j2 != k);
                    }
                }
            },
        }
        let ghost mid = *self;
        assert forall|q: PeerId| #[trigger] mid.connected(q) == (pre.connected(q) && q != peer) by {
            if q == peer && mid.connected(q) {
                let j = choose|j: int| 0 <= j < mid.peer_views@.len() && #[trigger] mid.peer_views@[j].peer == q;
                assert(pre.connected(q));
            }
        }
        let mut i: usize = 0;
        while i < self.blocks.len()
            invariant
                self.wf(),
                i <= self.blocks@.len(),
                self.peer_views == mid.peer_views,
                self.blocks@.len() == pre.blocks@.len(),
                mid.blocks == pre.blocks,
                forall|j: int| 0 <= j < self.blocks@.len() ==> (#[trigger] self.blocks@[j]).same_but_peers(&pre.blocks@[j]),
                forall|j: int| i <= j < self.blocks@.len() ==> #[trigger] self.blocks@[j] == pre.blocks@[j],
                forall|j: int, q: PeerId| 0 <= j < i ==>
                    #[trigger] self.blocks@[j].has_peer(q) == (pre.blocks@[j].has_peer(q) && q != peer),
                forall|j: int, q: PeerId, g: MessageFingerprint| 0 <= j < i ==>
                    #[trigger] self.blocks@[j].peer_knows(q, g) == (pre.blocks@[j].peer_knows(q, g) && q != peer),
            decreases self.blocks@.len() - i,
        {
            self.forget_peer_at(i, peer);
            i += 1;
        }
        assert forall|q: PeerId| #[trigger] self.connected(q) == mid.connected(q) by {
            if mid.connected(q) {
                let j = choose|j: int| 0 <= j < mid.peer_views@.len() && #[trigger] mid.peer_views@[j].peer == q;
                assert(self.peer_views@[j].peer == q);
            }
        }
    }

    /// Our view changed: every block at or below its finalized number goes.
    pub fn our_view_change(&mut self, view: &crate::primitives::View)
        requires
            old(self).wf(),
        ensures
            final(self).wf(),
            final(self).peer_views == old(self).peer_views,
            forall|b: BlockEntry| #[trigger] final(self).blocks@.contains(b)
                == (old(self).blocks@.contains(b) && b.number > view.finalized_number),
            forall|i: int| 0 <= i < final(self).blocks@.len() ==> #[trigger] final(self).blocks@[i].number > view.finalized_number,
    {
        let fin = view.finalized_number;
        let mut rest: Vec<BlockEntry> = Vec::new();
        std::mem::swap(&mut self.blocks, &mut rest);
        let ghost all = rest@;
        proof {
            assert(all == old(self).blocks@);
        }
        while rest.len() > 0
            invariant
                old(self).wf(),
                all == old(self).blocks@,
                self.peer_views == old(self).peer_views,
                rest@.len() <= all.len(),
                rest@ == all.subrange(0, rest@.len() as int),
                forall|b: BlockEntry| #[trigger] self.blocks@.contains(b)
                    == (exists|k: int| rest@.len() <= k < all.len() && #[trigger] all[k] == b && b.number > fin),
                forall|i: int, k: int| 0 <= i < self.blocks@.len() && 0 <= k < rest@.len()
                    ==> #[trigger] self.blocks@[i].hash != #[trigger] all[k].hash,
                self.wf(),
            decreases rest@.len(),
        {
            let ghost m = rest@.len() - 1;
            assert(rest@[m] == all[m]);
            let b = rest.pop().unwrap();
            assert(b == all[m]);
            if b.number > fin {
                let ghost before = self.blocks@;
                assert(all[m].wf());
                self.blocks.push(b);
                let ghost n = before.len() as int;
                assert(self.blocks@[n] == b);
                assert forall|x: BlockEntry| #[trigger] self.blocks@.contains(x) == (before.contains(x) || x == b) by {
                    if before.contains(x) {
                        let j = choose|j: int| 0 <= j < before.len() && before[j] == x;
                        assert(self.blocks@[j] == x);
                    }
                }
                assert forall|i1: int, i2: int|
                    #![trigger self.blocks@[i1], self.blocks@[i2]]
                    0 <= i1 < self.blocks@.len() && 0 <= i2 < self.blocks@.len() && i1 != i2
                        implies self.blocks@[i1].hash != self.blocks@[i2].hash by {
                    if i1 == n {
                        assert(before[i2].hash != all[m].hash);
                    } else if i2 == n {
                        assert(before[i1].hash != all[m].hash);
                    } else {
                        assert(before[i1] == self.blocks@[i1]);
                        assert(before[i2] == self.blocks@[i2]);
                    }
                }
                assert forall|i: int, k: int| 0 <= i < self.blocks@.len() && 0 <= k < rest@.len()
                    implies #[trigger] self.blocks@[i].hash != #[trigger] all[k].hash by {
                    if i == n {
                        assert(all[m].hash != all[k].hash);
                    } else {
                        assert(before[i] == self.blocks@[i]);
                    }
                }
            }
            assert forall|x: BlockEntry| #[trigger] self.blocks@.contains(x)
                == (exists|k: int| rest@.len() <= k < all.len() && #[trigger] all[k] == x && x.number > fin) by {
                if x == all[m] && x.number > fin {
                    assert(all[m] == x);
                }
            }
        }
        assert forall|i: int| 0 <= i < self.blocks@.len() implies #[trigger] self.blocks@[i].number > fin by {
            assert(self.blocks@.contains(self.blocks@[i]));
        }
    }

    /// The tracked block `h`, if it is not below `fin`, is known to be in
    /// `peer`'s view.
    pub open spec fn head_known(&self, peer: PeerId, h: BlockHash, fin: BlockNumber) -> bool {
        forall|i: int|
            0 <= i < self.blocks@.len() && #[trigger] self.blocks@[i].hash == h && self.blocks@[i].number >= fin
                ==> self.blocks@[i].has_peer(peer)
    }

    /// Every head of `view` that we track, and that is not below its
    /// finalized number, is known to be in `peer`'s view.
    pub open spec fn heads_known(&self, peer: PeerId, view: &crate::primitives::View) -> bool {
        forall|k: int| 0 <= k < view.heads@.len() ==> #[trigger] self.head_known(peer, view.heads@[k], view.finalized_number)
    }

    /// The blocks at the indices `sent`, and those alone, became known to be
    /// in `peer`'s view, each with a snapshot of our knowledge of it.
    pub open spec fn marked_from(&self, old: &State, peer: PeerId, sent: Seq<usize>) -> bool {
        &&& self.peer_views == old.peer_views
        &&& self.blocks@.len() == old.blocks@.len()
        &&& sent.no_duplicates()
        &&& forall|t: int| 0 <= t < sent.len() ==> #[trigger] sent[t] < self.blocks@.len()
        &&& forall|i: int| 0 <= i < self.blocks@.len() ==> (#[trigger] self.blocks@[i]).same_but_peers(&old.blocks@[i])
        &&& forall|i: int| 0 <= i < self.blocks@.len() ==> #[trigger] sent.contains(i as usize)
            == (!old.blocks@[i].has_peer(peer) && self.blocks@[i].has_peer(peer))
        &&& forall|i: int| 0 <= i < self.blocks@.len() && !sent.contains(i as usize) ==> #[trigger] self.blocks@[i] == old.blocks@[i]
        &&& forall|i: int, g: MessageFingerprint| 0 <= i < self.blocks@.len() && sent.contains(i as usize)
            ==> #[trigger] self.blocks@[i].peer_knows(peer, g) == old.blocks@[i].knowledge.knows(g)
        &&& forall|i: int, q: PeerId| 0 <= i < self.blocks@.len() && q != peer
            ==> #[trigger] self.blocks@[i].has_peer(q) == old.blocks@[i].has_peer(q)
        &&& forall|i: int, q: PeerId, g: MessageFingerprint| 0 <= i < self.blocks@.len() && q != peer
            ==> #[trigger] self.blocks@[i].peer_knows(q, g) == old.blocks@[i].peer_knows(q, g)
    }

    /// Makes `peer` known to have the block at index `i`.
    fn mark(&mut self, i: usize, peer: PeerId)
        requires
            old(self).wf(),
            i < old(self).blocks@.len(),
            !old(self).blocks@[i as int].has_peer(peer),
        ensures
            final(self).wf(),
            final(self).peer_views == old(self).peer_views,
            final(self).blocks@.len() == old(self).blocks@.len(),
            forall|j: int| 0 <= j < final(self).blocks@.len() && j != i ==> #[trigger] final(self).blocks@[j] == old(self).blocks@[j],
            final(self).blocks@[i as int].same_but_peers(&old(self).blocks@[i as int]),
            forall|q: PeerId| #[trigger] final(self).blocks@[i as int].has_peer(q) == (old(self).blocks@[i as int].has_peer(q) || q == peer),
            forall|q: PeerId, g: MessageFingerprint| #[trigger] final(self).blocks@[i as int].peer_knows(q, g)
                == if q == peer { old(self).blocks@[i as int].knowledge.knows(g) } else { old(self).blocks@[i as int].peer_knows(q, g) },
    {
        let ghost pre = *self;
        self.blocks[i].add_peer_snapshot(peer);
        proof {
            self.lemma_wf_after_update(&pre, i as int);
        }
    }

    /// The parent of the tracked block `h`.
    pub open spec fn parent_of(&self, h: BlockHash) -> BlockHash {
        let i = choose|i: int| 0 <= i < self.blocks@.len() && #[trigger] self.blocks@[i].hash == h;
        self.blocks@[i].parent_hash
    }

    /// The hash `k` parent steps back from `h`.
    pub open spec fn ancestor(&self, h: BlockHash, k: nat) -> BlockHash
        decreases k,
    {
        if k == 0 {
            h
        } else {
            self.parent_of(self.ancestor(h, (k - 1) as nat))
        }
    }

    /// The block `h` is one that a walk for `peer` goes through: tracked, not
    /// below `fin`, and not known to be in the peer's view.
    pub open spec fn walk_step(&self, peer: PeerId, fin: BlockNumber, h: BlockHash) -> bool {
        exists|i: int|
            0 <= i < self.blocks@.len() && #[trigger] self.blocks@[i].hash == h && self.blocks@[i].number >= fin
                && !self.blocks@[i].has_peer(peer)
    }

    /// The walk back from `h` goes through at least `k + 1` blocks.
    pub open spec fn walks(&self, peer: PeerId, fin: BlockNumber, h: BlockHash, k: nat) -> bool {
        forall|j: nat| j <= k ==> #[trigger] self.walk_step(peer, fin, self.ancestor(h, j))
    }

    /// The walk back from some head of `view` reaches the block `b`.
    pub open spec fn reached(&self, peer: PeerId, view: &crate::primitives::View, b: BlockHash) -> bool {
        exists|k: int, n: nat|
            0 <= k < view.heads@.len() && #[trigger] self.walks(peer, view.finalized_number, view.heads@[k], n)
                && self.ancestor(view.heads@[k], n) == b
    }

    /// Some tracked block `h` is known to be in `peer`'s view.
    pub open spec fn knows_block(&self, peer: PeerId, h: BlockHash) -> bool {
        exists|i: int| 0 <= i < self.blocks@.len() && #[trigger] self.blocks@[i].hash == h && self.blocks@[i].has_peer(peer)
    }

    /// Every block newly marked in `self` since `pre` has its parent marked
    /// too, unless a walk would not go through that parent.
    pub open spec fn marks_closed(&self, pre: &State, peer: PeerId, fin: BlockNumber, pending: Option<BlockHash>) -> bool {
        forall|i: int|
            0 <= i < self.blocks@.len() && (#[trigger] self.blocks@[i]).has_peer(peer) && !pre.blocks@[i].has_peer(peer)
                && pending != Some(pre.blocks@[i].hash)
                ==> !pre.walk_step(peer, fin, pre.blocks@[i].parent_hash) || self.knows_block(peer, pre.blocks@[i].parent_hash)
    }

    pub proof fn lemma_parent_of(&self, i: int)
        requires
            self.wf(),
            0 <= i < self.blocks@.len(),
        ensures
            self.parent_of(self.blocks@[i].hash) == self.blocks@[i].parent_hash,
    {
        let h = self.blocks@[i].hash;
        let j = choose|j: int| 0 <= j < self.blocks@.len() && #[trigger] self.blocks@[j].hash == h;
        if j != i {
            assert(self.blocks@[j].hash == self.blocks@[i].hash);
        }
    }

    /// From a marked block on, a closed set of marks holds every block that
    /// the walk goes through.
    pub proof fn lemma_closed_reach(&self, pre: &State, peer: PeerId, fin: BlockNumber, head: BlockHash, m: nat, n: nat)
        requires
            pre.wf(),
            self.blocks@.len() == pre.blocks@.len(),
            forall|i: int| 0 <= i < self.blocks@.len() ==> (#[trigger] self.blocks@[i]).same_but_peers(&pre.blocks@[i]),
            self.marks_closed(pre, peer, fin, None),
            pre.walks(peer, fin, head, n),
            m <= n,
            self.knows_block(peer, pre.ancestor(head, m)),
        ensures
            self.knows_block(peer, pre.ancestor(head, n)),
        decreases n - m,
    {
        if m < n {
            let x = pre.ancestor(head, m);
            assert(pre.walk_step(peer, fin, pre.ancestor(head, m)));
            let i = choose|i: int|
                0 <= i < pre.blocks@.len() && #[trigger] pre.blocks@[i].hash == x && pre.blocks@[i].number >= fin
                    && !pre.blocks@[i].has_peer(peer);
            let i2 = choose|i2: int| 0 <= i2 < self.blocks@.len() && #[trigger] self.blocks@[i2].hash == x && self.blocks@[i2].has_peer(peer);
            assert(self.blocks@[i2].same_but_peers(&pre.blocks@[i2]));
            if i2 != i {
                assert(pre.blocks@[i2].hash == pre.blocks@[i].hash);
            }
            assert(self.blocks@[i].has_peer(peer));
            pre.lemma_parent_of(i);
            assert(pre.ancestor(head, (m + 1) as nat) == pre.blocks@[i].parent_hash);
            assert(pre.walk_step(peer, fin, pre.ancestor(head, (m + 1) as nat)));
            self.lemma_closed_reach(pre, peer, fin, head, (m + 1) as nat, n);
        }
    }

    /// Walks back from each head of `view` through the parents, marking each
    /// block as known to `peer` until one is untracked, below the view's
    /// finalized number, or known to the peer already. Returns the indices
    /// of the blocks it marked.
    fn mark_in_view(&mut self, peer: PeerId, view: &crate::primitives::View) -> (sent: Vec<usize>)
        requires
            old(self).wf(),
        ensures
            final(self).wf(),
            final(self).marked_from(old(self), peer, sent@),
            final(self).heads_known(peer, view),
            old(self).heads_known(peer, view) ==> sent@.len() == 0 && *final(self) == *old(self),
            forall|i: int| 0 <= i < old(self).blocks@.len()
                ==> #[trigger] sent@.contains(i as usize) == old(self).reached(peer, view, old(self).blocks@[i].hash),
    {
        let ghost pre = *self;
        let fin = view.finalized_number;
        let mut sent: Vec<usize> = Vec::new();
        let mut hi: usize = 0;
        assert(self.marked_from(&pre, peer, sent@));
        while hi < view.heads.len()
            invariant
                self.wf(),
                hi <= view.heads@.len(),
                fin == view.finalized_number,
                self.marked_from(&pre, peer, sent@),
                forall|k: int| 0 <= k < hi ==> #[trigger] self.head_known(peer, view.heads@[k], fin),
                pre.heads_known(peer, view) ==> sent@.len() == 0 && *self == pre,
                pre.wf(),
                forall|i: int| 0 <= i < self.blocks@.len() && (#[trigger] self.blocks@[i]).has_peer(peer) && !pre.blocks@[i].has_peer(peer)
                    ==> pre.reached(peer, view, pre.blocks@[i].hash),
                forall|k: int, n: nat| 0 <= k < hi && #[trigger] pre.walks(peer, fin, view.heads@[k], n)
                    ==> self.knows_block(peer, pre.ancestor(view.heads@[k], n)),
                self.marks_closed(&pre, peer, fin, None),
            decreases view.heads@.len() - hi,
        {
            let head = view.heads[hi];
            let mut block = head;
            let mut fuel: usize = self.blocks.len();
            let mut go = true;
            let ghost mut steps: nat = 0;
            // Each step marks a block that was not marked before, so the walk
            // ends within as many steps as there are blocks.
            while go && fuel > 0
                invariant
                    self.wf(),
                    hi < view.heads@.len(),
                    head == view.heads@[hi as int],
                    fin == view.finalized_number,
                    self.marked_from(&pre, peer, sent@),
                    forall|k: int| 0 <= k < hi ==> #[trigger] self.head_known(peer, view.heads@[k], fin),
                    pre.heads_known(peer, view) ==> sent@.len() == 0 && *self == pre && block == head,
                    (block == head && fuel == self.blocks@.len()) || self.head_known(peer, head, fin),
                    !go ==> self.head_known(peer, head, fin),
                    pre.wf(),
                    block == pre.ancestor(head, steps),
                    go ==> fuel + steps == self.blocks@.len(),
                    sent@.len() >= steps,
                    steps > 0 ==> pre.walks(peer, fin, head, (steps - 1) as nat),
                    forall|j: nat| j < steps ==> self.knows_block(peer, #[trigger] pre.ancestor(head, j)),
                    forall|i: int| 0 <= i < self.blocks@.len() && (#[trigger] self.blocks@[i]).has_peer(peer) && !pre.blocks@[i].has_peer(peer)
                        ==> pre.reached(peer, view, pre.blocks@[i].hash),
                    forall|k: int, n: nat| 0 <= k < hi && #[trigger] pre.walks(peer, fin, view.heads@[k], n)
                        ==> self.knows_block(peer, pre.ancestor(view.heads@[k], n)),
                    self.marks_closed(&pre, peer, fin, if go && steps > 0 { Some(pre.ancestor(head, (steps - 1) as nat)) } else { None }),
                    !go ==> (pre.walk_step(peer, fin, block) ==> self.knows_block(peer, block)),
                decreases fuel,
            {
                let ghost s0 = *self;
                match self.find_block(block) {
                    None => {
                        proof {
                            assert(!pre.walk_step(peer, fin, block)) by {
                                if pre.walk_step(peer, fin, block) {
                                    let j = choose|j: int| 0 <= j < pre.blocks@.len() && #[trigger] pre.blocks@[j].hash == block
                                        && pre.blocks@[j].number >= fin && !pre.blocks@[j].has_peer(peer);
                                    assert(self.blocks@[j].same_but_peers(&pre.blocks@[j]));
                                    assert(self.blocks@[j].hash == block);
                                }
                            }
                            assert(self.marks_closed(&pre, peer, fin, None)) by {
                                assert forall|m: int|
                                    0 <= m < self.blocks@.len() && (#[trigger] self.blocks@[m]).has_peer(peer) && !pre.blocks@[m].has_peer(peer)
                                        && None::<BlockHash> != Some(pre.blocks@[m].hash)
                                    implies !pre.walk_step(peer, fin, pre.blocks@[m].parent_hash) || self.knows_block(peer, pre.blocks@[m].parent_hash) by {
                                    if steps > 0 && pre.blocks@[m].hash == pre.ancestor(head, (steps - 1) as nat) {
                                        pre.lemma_parent_of(m);
                                        assert(pre.ancestor(head, steps) == pre.parent_of(pre.ancestor(head, (steps - 1) as nat)));
                                    }
                                }
                            }
                        }
                        go = false;
                    },
                    Some(i) => {
                        proof {
                            assert forall|j: int| 0 <= j < self.blocks@.len() && #[trigger] self.blocks@[j].hash == block implies j == i by {
                                if j != i {
                                    assert(self.blocks@[j].hash == self.blocks@[i as int].hash);
                                }
                            }
                        }
                        if self.blocks[i].number < fin {
                            proof {
                                assert(!pre.walk_step(peer, fin, block)) by {
                                    if pre.walk_step(peer, fin, block) {
                                        let j = choose|j: int| 0 <= j < pre.blocks@.len() && #[trigger] pre.blocks@[j].hash == block
                                            && pre.blocks@[j].number >= fin && !pre.blocks@[j].has_peer(peer);
                                        assert(self.blocks@[j].same_but_peers(&pre.blocks@[j]));
                                        assert(self.blocks@[j].hash == block);
                                    }
                                }
                                assert(self.marks_closed(&pre, peer, fin, None)) by {
                                assert forall|m: int|
                                    0 <= m < self.blocks@.len() && (#[trigger] self.blocks@[m]).has_peer(peer) && !pre.blocks@[m].has_peer(peer)
                                        && None::<BlockHash> != Some(pre.blocks@[m].hash)
                                    implies !pre.walk_step(peer, fin, pre.blocks@[m].parent_hash) || self.knows_block(peer, pre.blocks@[m].parent_hash) by {
                                    if steps > 0 && pre.blocks@[m].hash == pre.ancestor(head, (steps - 1) as nat) {
                                        pre.lemma_parent_of(m);
                                        assert(pre.ancestor(head, steps) == pre.parent_of(pre.ancestor(head, (steps - 1) as nat)));
                                    }
                                }
                            }
                            }
                            go = false;
                        } else if self.blocks[i].find_peer(peer).is_some() {
                            proof {
                                assert(self.knows_block(peer, block)) by {
                                    assert(self.blocks@[i as int].hash == block);
                                }
                                assert(self.marks_closed(&pre, peer, fin, None)) by {
                                assert forall|m: int|
                                    0 <= m < self.blocks@.len() && (#[trigger] self.blocks@[m]).has_peer(peer) && !pre.blocks@[m].has_peer(peer)
                                        && None::<BlockHash> != Some(pre.blocks@[m].hash)
                                    implies !pre.walk_step(peer, fin, pre.blocks@[m].parent_hash) || self.knows_block(peer, pre.blocks@[m].parent_hash) by {
                                    if steps > 0 && pre.blocks@[m].hash == pre.ancestor(head, (steps - 1) as nat) {
                                        pre.lemma_parent_of(m);
                                        assert(pre.ancestor(head, steps) == pre.parent_of(pre.ancestor(head, (steps - 1) as nat)));
                                    }
                                }
                            }
                            }
                            go = false;
                        } else {
                            proof {
                                if pre.heads_known(peer, view) {
                                    assert(self.head_known(peer, view.heads@[hi as int], fin));
                                }
                            }
                            let ghost sent_before = sent@;
                            self.mark(i, peer);
                            sent.push(i);
                            proof {
                                let ii = i as int;
                                assert(sent_before.contains(ii as usize) == (!pre.blocks@[ii].has_peer(peer) && s0.blocks@[ii].has_peer(peer)));
                                assert(!sent_before.contains(i));
                                assert(s0.blocks@[ii] == pre.blocks@[ii]);
                                assert forall|t: int| 0 <= t < sent@.len() implies #[trigger] sent@[t] < self.blocks@.len() by {
                                    if t < sent_before.len() {
                                        assert(sent_before[t] == sent@[t]);
                                    }
                                }
                                assert forall|x: usize| #[trigger] sent@.contains(x) == (sent_before.contains(x) || x == i) by {
                                    if sent_before.contains(x) {
                                        let t = choose|t: int| 0 <= t < sent_before.len() && sent_before[t] == x;
                                        assert(sent@[t] == x);
                                    }
                                    if x == i {
                                        assert(sent@[sent_before.len() as int] == x);
                                    }
                                }
                                assert(sent@.no_duplicates()) by {
                                    assert forall|t1: int, t2: int| 0 <= t1 < sent@.len() && 0 <= t2 < sent@.len() && t1 != t2
                                        implies sent@[t1] != sent@[t2] by {
                                        if t1 < sent_before.len() && t2 < sent_before.len() {
                                            assert(sent_before[t1] == sent@[t1]);
                                            assert(sent_before[t2] == sent@[t2]);
                                        } else if t1 < sent_before.len() {
                                            assert(sent_before.contains(sent@[t1]));
                                        } else {
                                            assert(sent_before.contains(sent@[t2]));
                                        }
                                    }
                                }
                                assert forall|j: int| 0 <= j < self.blocks@.len() implies (#[trigger] self.blocks@[j]).same_but_peers(&pre.blocks@[j]) by {
                                    assert(s0.blocks@[j].same_but_peers(&pre.blocks@[j]));
                                }
                                assert forall|j: int| 0 <= j < self.blocks@.len() implies #[trigger] sent@.contains(j as usize)
                                    == (!pre.blocks@[j].has_peer(peer) && self.blocks@[j].has_peer(peer)) by {
                                    assert(sent_before.contains(j as usize) == (!pre.blocks@[j].has_peer(peer) && s0.blocks@[j].has_peer(peer)));
                                    assert(sent@.contains(j as usize) == (sent_before.contains(j as usize) || (j as usize) == i));
                                    assert(j < self.blocks.len());
                                    assert(((j as usize) == i) == (j == ii));
                                }
                                assert forall|j: int| 0 <= j < self.blocks@.len() && !sent@.contains(j as usize) implies #[trigger] self.blocks@[j] == pre.blocks@[j] by {
                                    assert(!sent_before.contains(j as usize));
                                }
                                assert forall|j: int, g: MessageFingerprint| 0 <= j < self.blocks@.len() && sent@.contains(j as usize)
                                    implies #[trigger] self.blocks@[j].peer_knows(peer, g) == pre.blocks@[j].knowledge.knows(g) by {
                                    if j != ii {
                                        assert(sent_before.contains(j as usize));
                                    }
                                }
                                assert forall|j: int, q: PeerId| 0 <= j < self.blocks@.len() && q != peer
                                    implies #[trigger] self.blocks@[j].has_peer(q) == pre.blocks@[j].has_peer(q) by {
                                    assert(s0.blocks@[j].has_peer(q) == pre.blocks@[j].has_peer(q));
                                }
                                assert forall|j: int, q: PeerId, g: MessageFingerprint| 0 <= j < self.blocks@.len() && q != peer
                                    implies #[trigger] self.blocks@[j].peer_knows(q, g) == pre.blocks@[j].peer_knows(q, g) by {
                                    assert(s0.blocks@[j].peer_knows(q, g) == pre.blocks@[j].peer_knows(q, g));
                                }
                                assert forall|k: int| 0 <= k <= hi implies #[trigger] self.head_known(peer, view.heads@[k], fin) by {
                                    assert forall|j: int| 0 <= j < self.blocks@.len() && #[trigger] self.blocks@[j].hash == view.heads@[k]
                                        && self.blocks@[j].number >= fin implies self.blocks@[j].has_peer(peer) by {
                                        if j != i {
                                            assert(s0.blocks@[j] == self.blocks@[j]);
                                            if k < hi {
                                                assert(s0.head_known(peer, view.heads@[k], fin));
                                            } else {
                                                assert(block == head || s0.head_known(peer, head, fin));
                                            }
                                        }
                                    }
                                }
                            }
                            proof {
                                let ii = i as int;
                                let st = steps;
                                assert(self.blocks@[ii].hash == block);
                                assert forall|x: BlockHash| s0.knows_block(peer, x) implies self.knows_block(peer, x) by {
                                    let j = choose|j: int| 0 <= j < s0.blocks@.len() && #[trigger] s0.blocks@[j].hash == x && s0.blocks@[j].has_peer(peer);
                                    if j != ii {
                                        assert(self.blocks@[j] == s0.blocks@[j]);
                                    }
                                    assert(self.blocks@[j].hash == x);
                                }
                                assert(!sent_before.contains(i));
                                assert(!pre.blocks@[ii].has_peer(peer));
                                assert(pre.blocks@[ii].hash == block);
                                assert(pre.walk_step(peer, fin, pre.ancestor(head, st)));
                                assert(pre.walks(peer, fin, head, st)) by {
                                    assert forall|j: nat| j <= st implies #[trigger] pre.walk_step(peer, fin, pre.ancestor(head, j)) by {
                                        if j < st {
                                            assert(pre.walks(peer, fin, head, (st - 1) as nat));
                                        }
                                    }
                                }
                                assert(pre.walks(peer, fin, view.heads@[hi as int], st));
                                assert forall|j: int| 0 <= j < self.blocks@.len() && (#[trigger] self.blocks@[j]).has_peer(peer) && !pre.blocks@[j].has_peer(peer)
                                    implies pre.reached(peer, view, pre.blocks@[j].hash) by {
                                    if j != ii {
                                        assert(self.blocks@[j] == s0.blocks@[j]);
                                    }
                                }
                                assert forall|k: int, n: nat| 0 <= k < hi && #[trigger] pre.walks(peer, fin, view.heads@[k], n)
                                    implies self.knows_block(peer, pre.ancestor(view.heads@[k], n)) by {
                                    assert(s0.knows_block(peer, pre.ancestor(view.heads@[k], n)));
                                }
                                assert forall|j: nat| j < st + 1 implies self.knows_block(peer, #[trigger] pre.ancestor(head, j)) by {
                                    if j < st {
                                        assert(s0.knows_block(peer, pre.ancestor(head, j)));
                                    }
                                }
                                pre.lemma_parent_of(ii);
                                assert(pre.ancestor(head, (st + 1) as nat) == pre.blocks@[ii].parent_hash);
                                assert forall|m: int|
                                    0 <= m < self.blocks@.len() && (#[trigger] self.blocks@[m]).has_peer(peer) && !pre.blocks@[m].has_peer(peer)
                                        && Some(pre.ancestor(head, st)) != Some(pre.blocks@[m].hash)
                                    implies !pre.walk_step(peer, fin, pre.blocks@[m].parent_hash) || self.knows_block(peer, pre.blocks@[m].parent_hash) by {
                                    if st > 0 && pre.blocks@[m].hash == pre.ancestor(head, (st - 1) as nat) {
                                        pre.lemma_parent_of(m);
                                        assert(pre.ancestor(head, st) == pre.parent_of(pre.ancestor(head, (st - 1) as nat)));
                                    } else {
                                        assert(m != ii);
                                        assert(s0.blocks@[m] == self.blocks@[m]);
                                        if s0.knows_block(peer, pre.blocks@[m].parent_hash) {
                                        }
                                    }
                                }
                                steps = st + 1;
                            }
                            block = self.blocks[i].parent_hash;
                        }
                    },
                }
                fuel -= 1;
            }
            proof {
                if go {
                    assert(fuel == 0);
                    lemma_covers(sent@, self.blocks@.len() as int);
                    if pre.walk_step(peer, fin, block) {
                        let j = choose|j: int| 0 <= j < pre.blocks@.len() && #[trigger] pre.blocks@[j].hash == block
                            && pre.blocks@[j].number >= fin && !pre.blocks@[j].has_peer(peer);
                        assert(sent@.contains(j as usize));
                        assert(self.blocks@[j].same_but_peers(&pre.blocks@[j]));
                        assert(self.blocks@[j].hash == block);
                    }
                    assert(self.marks_closed(&pre, peer, fin, None)) by {
                        assert forall|m: int|
                            0 <= m < self.blocks@.len() && (#[trigger] self.blocks@[m]).has_peer(peer) && !pre.blocks@[m].has_peer(peer)
                                && None::<BlockHash> != Some(pre.blocks@[m].hash)
                            implies !pre.walk_step(peer, fin, pre.blocks@[m].parent_hash) || self.knows_block(peer, pre.blocks@[m].parent_hash) by {
                            if steps > 0 && pre.blocks@[m].hash == pre.ancestor(head, (steps - 1) as nat) {
                                pre.lemma_parent_of(m);
                                assert(pre.ancestor(head, steps) == pre.parent_of(pre.ancestor(head, (steps - 1) as nat)));
                            }
                        }
                    }
                }
                assert forall|k: int, n: nat| 0 <= k < hi + 1 && #[trigger] pre.walks(peer, fin, view.heads@[k], n)
                    implies self.knows_block(peer, pre.ancestor(view.heads@[k], n)) by {
                    if k == hi && n >= steps {
                        assert(pre.walk_step(peer, fin, pre.ancestor(head, steps)));
                        self.lemma_closed_reach(&pre, peer, fin, head, steps, n);
                    }
                }
            }
            hi += 1;
        }
        proof {
            assert forall|i: int| 0 <= i < pre.blocks@.len()
                implies #[trigger] sent@.contains(i as usize) == pre.reached(peer, view, pre.blocks@[i].hash) by {
                if pre.reached(peer, view, pre.blocks@[i].hash) {
                    let (k, n) = choose|k: int, n: nat|
                        0 <= k < view.heads@.len() && #[trigger] pre.walks(peer, view.finalized_number, view.heads@[k], n)
                            && pre.ancestor(view.heads@[k], n) == pre.blocks@[i].hash;
                    assert(self.knows_block(peer, pre.blocks@[i].hash));
                    let j = choose|j: int| 0 <= j < self.blocks@.len() && #[trigger] self.blocks@[j].hash == pre.blocks@[i].hash && self.blocks@[j].has_peer(peer);
                    assert(self.blocks@[j].same_but_peers(&pre.blocks@[j]));
                    if j != i {
                        assert(pre.blocks@[j].hash == pre.blocks@[i].hash);
                    }
                    assert(pre.walk_step(peer, fin, pre.ancestor(view.heads@[k], n)));
                    let j2 = choose|j2: int| 0 <= j2 < pre.blocks@.len() && #[trigger] pre.blocks@[j2].hash == pre.blocks@[i].hash
                        && pre.blocks@[j2].number >= fin && !pre.blocks@[j2].has_peer(peer);
                    if j2 != i {
                        assert(pre.blocks@[j2].hash == pre.blocks@[i].hash);
                    }
                }
                assert(sent@.contains(i as usize) == (!pre.blocks@[i].has_peer(peer) && self.blocks@[i].has_peer(peer)));
            }
        }
        sent
    }

    /// The messages that tell `peer` everything we know of the blocks at the
    /// indices `sent`.
    fn gossip_for(&self, peer: PeerId, sent: &Vec<usize>) -> (actions: Vec<Action>)
        requires
            forall|t: int| 0 <= t < sent@.len() ==> #[trigger] sent@[t] < self.blocks@.len(),
        ensures
            gossips(actions@, peer, gossip_assignments(self.blocks@, sent@), gossip_approvals(self.blocks@, sent@)),
    {
        let mut assignments: Vec<(IndirectAssignmentCert, CandidateIndex)> = Vec::new();
        let mut approvals: Vec<IndirectSignedApprovalVote> = Vec::new();
        let mut t: usize = 0;
        while t < sent.len()
            invariant
                t <= sent@.len(),
                forall|u: int| 0 <= u < sent@.len() ==> #[trigger] sent@[u] < self.blocks@.len(),
                assignments@ == gossip_assignments(self.blocks@, sent@.subrange(0, t as int)),
                approvals@ == gossip_approvals(self.blocks@, sent@.subrange(0, t as int)),
            decreases sent@.len() - t,
        {
            let i = sent[t];
            assert(i < self.blocks@.len());
            let b = &self.blocks[i];
            let ghost asg0 = assignments@;
            let ghost apv0 = approvals@;
            let mut a: usize = 0;
            while a < b.approvals.len()
                invariant
                    a <= b.approvals@.len(),
                    assignments@ == asg0 + assignments_of(b.hash, b.approvals@.subrange(0, a as int)),
                    approvals@ == apv0 + approvals_of(b.hash, b.approvals@.subrange(0, a as int)),
                decreases b.approvals@.len() - a,
            {
                let r = b.approvals[a];
                let ghost sub = b.approvals@.subrange(0, a as int + 1);
                assert(sub.drop_last() =~= b.approvals@.subrange(0, a as int));
                assert(sub.last() == r);
                let cert = match r.state {
                    ApprovalState::Assigned(c) => c,
                    ApprovalState::Approved(c, _) => c,
                };
                assignments.push((IndirectAssignmentCert { block_hash: b.hash, validator: r.validator, cert }, r.candidate_index));
                assert(assignments@ =~= asg0 + assignments_of(b.hash, sub));
                match r.state {
                    ApprovalState::Approved(_, sig) => {
                        approvals.push(IndirectSignedApprovalVote {
                            block_hash: b.hash,
                            candidate_index: r.candidate_index,
                            validator: r.validator,
                            signature: sig,
                        });
                        assert(approvals@ =~= apv0 + approvals_of(b.hash, sub));
                    },
                    ApprovalState::Assigned(_) => {},
                }
                a += 1;
            }
            let ghost st = sent@.subrange(0, t as int + 1);
            assert(st.drop_last() =~= sent@.subrange(0, t as int));
            assert(st.last() == i);
            assert(b.approvals@.subrange(0, b.approvals@.len() as int) =~= b.approvals@);
            t += 1;
        }
        assert(sent@.subrange(0, sent@.len() as int) =~= sent@);
        let mut actions: Vec<Action> = Vec::new();
        if assignments.len() > 0 {
            let mut peers: Vec<PeerId> = Vec::new();
            peers.push(peer);
            assert(peers@ =~= seq![peer]);
            actions.push(Action::SendAssignments { peers, assignments });
        }
        let ghost n = actions@.len();
        if approvals.len() > 0 {
            let mut peers: Vec<PeerId> = Vec::new();
            peers.push(peer);
            assert(peers@ =~= seq![peer]);
            actions.push(Action::SendApprovals { peers, approvals });
            assert(actions@[n as int] == Action::SendApprovals { peers, approvals });
        }
        actions
    }

    /// `self` is what unifying `peer` with `view` made of `old`, sending
    /// `actions`: the blocks marked as known to `peer` are exactly those the
    /// walks back from the view's heads reach, and everything we know of them
    /// is sent.
    pub open spec fn unified(&self, old: &State, peer: PeerId, view: &crate::primitives::View, actions: Seq<Action>) -> bool {
        &&& exists|sent: Seq<usize>| #[trigger] self.marked_from(old, peer, sent)
            && (forall|i: int| 0 <= i < old.blocks@.len()
                ==> #[trigger] sent.contains(i as usize) == old.reached(peer, view, old.blocks@[i].hash))
            && gossips(actions, peer, gossip_assignments(self.blocks@, sent), gossip_approvals(self.blocks@, sent))
        &&& self.heads_known(peer, view)
        &&& old.heads_known(peer, view) ==> actions.len() == 0 && *self == *old
    }

    /// Brings `peer` up to date with `view`: every block that the walk back
    /// from the view's heads finds new to the peer is marked as known to it,
    /// and everything we know of those blocks is sent to it.
    pub fn unify_with_peer(&mut self, peer: PeerId, view: &crate::primitives::View) -> (actions: Vec<Action>)
        requires
            old(self).wf(),
        ensures
            final(self).wf(),
            final(self).unified(old(self), peer, view, actions@),
    {
        let sent = self.mark_in_view(peer, view);
        let actions = self.gossip_for(peer, &sent);
        proof {
            if sent@.len() == 0 {
                assert(gossip_assignments(self.blocks@, sent@).len() == 0);
                assert(gossip_approvals(self.blocks@, sent@).len() == 0);
            }
        }
        actions
    }

    /// `self` is `mid` with `peer` forgotten on every block numbered at most
    /// `fin`.
    pub open spec fn forgot_below(&self, mid: &State, peer: PeerId, fin: BlockNumber) -> bool {
        &&& self.blocks@.len() == mid.blocks@.len()
        &&& forall|i: int| 0 <= i < self.blocks@.len() ==> (#[trigger] self.blocks@[i]).same_but_peers(&mid.blocks@[i])
        &&& forall|i: int| 0 <= i < self.blocks@.len() && mid.blocks@[i].number > fin ==> #[trigger] self.blocks@[i] == mid.blocks@[i]
        &&& forall|i: int, q: PeerId| 0 <= i < self.blocks@.len() && mid.blocks@[i].number <= fin
            ==> #[trigger] self.blocks@[i].has_peer(q) == (mid.blocks@[i].has_peer(q) && q != peer)
        &&& forall|i: int, q: PeerId, g: MessageFingerprint| 0 <= i < self.blocks@.len() && mid.blocks@[i].number <= fin
            ==> #[trigger] self.blocks@[i].peer_knows(q, g) == (mid.blocks@[i].peer_knows(q, g) && q != peer)
        &&& forall|i: int| 0 <= i < self.blocks@.len() && !mid.blocks@[i].has_peer(peer) ==> #[trigger] self.blocks@[i] == mid.blocks@[i]
    }

    /// The view of `peer` is now `view`.
    pub open spec fn has_view(&self, peer: PeerId, view: crate::primitives::View) -> bool {
        exists|j: int| 0 <= j < self.peer_views@.len() && #[trigger] self.peer_views@[j].peer == peer && self.peer_views@[j].view == view
    }

    /// Records `view` as the view of `peer`.
    fn set_peer_view(&mut self, peer: PeerId, view: crate::primitives::View)
        requires
            old(self).wf(),
        ensures
            final(self).wf(),
            final(self).blocks == old(self).blocks,
            forall|q: PeerId| #[trigger] final(self).connected(q) == (old(self).connected(q) || q == peer),
            final(self).has_view(peer, view),
            old(self).connected(peer) ==> exists|j: int| 0 <= j < old(self).peer_views@.len()
                && #[trigger] old(self).peer_views@[j].peer == peer
                && final(self).peer_views@ == old(self).peer_views@.update(j, (PeerView { peer, view })),
            !old(self).connected(peer) ==> final(self).peer_views@ == old(self).peer_views@.push((PeerView { peer, view })),
    {
        let ghost pre = *self;
        let ghost v = view;
        match self.find_peer_view(peer) {
            Some(j) => {
                self.peer_views.set(j, PeerView { peer, view });
                assert(self.peer_views@[j as int].peer == peer);
                assert forall|q: PeerId| #[trigger] self.connected(q) == (pre.connected(q) || q == peer) by {
                    if pre.connected(q) {
                        let k = choose|k: int| 0 <= k < pre.peer_views@.len() && #[trigger] pre.peer_views@[k].peer == q;
                        assert(self.peer_views@[k].peer == q);
                    }
                    if self.connected(q) {
                        let k = choose|k: int| 0 <= k < self.peer_views@.len() && #[trigger] self.peer_views@[k].peer == q;
                        assert(pre.peer_views@[k].peer == q);
                    }
                }
                assert forall|j1: int, j2: int|
                    #![trigger self.peer_views@[j1], self.peer_views@[j2]]
                    0 <= j1 < self.peer_views@.len() && 0 <= j2 < self.peer_views@.len() && j1 != j2
                        implies self.peer_views@[j1].peer != self.peer_views@[j2].peer by {
                    assert(pre.peer_views@[j1].peer == self.peer_views@[j1].peer);
                    assert(pre.peer_views@[j2].peer == self.peer_views@[j2].peer);
                }
                assert(self.peer_views@[j as int].view == v);
            },
            None => {
                self.peer_views.push(PeerView { peer, view });
                let ghost n = pre.peer_views@.len() as int;
                assert(self.peer_views@[n].peer == peer);
                assert(self.peer_views@[n].view == v);
                assert forall|q: PeerId| #[trigger] self.connected(q) == (pre.connected(q) || q == peer) by {
                    if pre.connected(q) {
                        let k = choose|k: int| 0 <= k < pre.peer_views@.len() && #[trigger] pre.peer_views@[k].peer == q;
                        assert(self.peer_views@[k].peer == q);
                    }
                    if self.connected(q) {
                        let k = choose|k: int| 0 <= k < self.peer_views@.len() && #[trigger] self.peer_views@[k].peer == q;
                        if k != n {
                            assert(pre.peer_views@[k].peer == q);
                        }
                    }
                }
                assert forall|j1: int, j2: int|
                    #![trigger self.peer_views@[j1], self.peer_views@[j2]]
                    0 <= j1 < self.peer_views@.len() && 0 <= j2 < self.peer_views@.len() && j1 != j2
                        implies self.peer_views@[j1].peer != self.peer_views@[j2].peer by {
                    if j1 == n {
                        assert(pre.peer_views@[j2].peer == self.peer_views@[j2].peer);
                    } else if j2 == n {
                        assert(pre.peer_views@[j1].peer == self.peer_views@[j1].peer);
                    } else {
                        assert(pre.peer_views@[j1].peer == self.peer_views@[j1].peer);
                        assert(pre.peer_views@[j2].peer == self.peer_views@[j2].peer);
                    }
                }
            },
        }
    }

    /// What a change of `peer`'s view to `view` does.
    pub open spec fn view_changed(old: &State, new: &State, peer: PeerId, view: crate::primitives::View, actions: Seq<Action>) -> bool {
        &&& exists|mid: State| #[trigger] mid.unified(old, peer, &view, actions)
            && new.forgot_below(&mid, peer, view.finalized_number)
        &&& forall|q: PeerId| #[trigger] new.connected(q) == (old.connected(q) || q == peer)
        &&& new.has_view(peer, view)
        &&& old.connected(peer) ==> exists|j: int| 0 <= j < old.peer_views@.len()
            && #[trigger] old.peer_views@[j].peer == peer
            && new.peer_views@ == old.peer_views@.update(j, (PeerView { peer, view }))
        &&& !old.connected(peer) ==> new.peer_views@ == old.peer_views@.push((PeerView { peer, view }))
    }

    /// A peer's view changed: the peer is unified with the new view, which
    /// is recorded, and the peer is forgotten on every block at or below its
    /// finalized number.
    pub fn peer_view_change(&mut self, peer: PeerId, view: crate::primitives::View) -> (actions: Vec<Action>)
        requires
            old(self).wf(),
        ensures
            final(self).wf(),
            State::view_changed(old(self), final(self), peer, view, actions@),
    {
        let ghost v = view;
        let actions = self.unify_with_peer(peer, &view);
        let ghost mid = *self;
        let fin = view.finalized_number;
        self.set_peer_view(peer, view);
        let ghost mid2 = *self;
        let mut i: usize = 0;
        while i < self.blocks.len()
            invariant
                self.wf(),
                i <= self.blocks@.len(),
                self.peer_views == mid2.peer_views,
                mid2.blocks == mid.blocks,
                self.blocks@.len() == mid.blocks@.len(),
                forall|j: int| 0 <= j < self.blocks@.len() ==> (#[trigger] self.blocks@[j]).same_but_peers(&mid.blocks@[j]),
                forall|j: int| 0 <= j < self.blocks@.len() && (j >= i || mid.blocks@[j].number > fin) ==> #[trigger] self.blocks@[j] == mid.blocks@[j],
                forall|j: int, q: PeerId| 0 <= j < i && mid.blocks@[j].number <= fin
                    ==> #[trigger] self.blocks@[j].has_peer(q) == (mid.blocks@[j].has_peer(q) && q != peer),
                forall|j: int, q: PeerId, g: MessageFingerprint| 0 <= j < i && mid.blocks@[j].number <= fin
                    ==> #[trigger] self.blocks@[j].peer_knows(q, g) == (mid.blocks@[j].peer_knows(q, g) && q != peer),
                forall|j: int| 0 <= j < self.blocks@.len() && !mid.blocks@[j].has_peer(peer) ==> #[trigger] self.blocks@[j] == mid.blocks@[j],
            decreases self.blocks@.len() - i,
        {
            if self.blocks[i].number <= fin {
                self.forget_peer_at(i, peer);
            }
            i += 1;
        }
        assert(self.forgot_below(&mid, peer, fin));
        assert forall|q: PeerId| #[trigger] self.connected(q) == mid2.connected(q) by {
            if mid2.connected(q) {
                let k = choose|k: int| 0 <= k < mid2.peer_views@.len() && #[trigger] mid2.peer_views@[k].peer == q;
                assert(self.peer_views@[k].peer == q);
            }
        }
        assert(self.has_view(peer, v)) by {
            let k = choose|k: int| 0 <= k < mid2.peer_views@.len() && #[trigger] mid2.peer_views@[k].peer == peer && mid2.peer_views@[k].view == v;
            assert(self.peer_views@[k].peer == peer);
        }
        actions
    }

    /// Starts tracking the block of `meta`, whose parent is `parent_hash`,
    /// with no knowledge, no candidate entries and no peers. A block that is
    /// tracked already, or whose parent is unknown, is left out.
    pub fn add_block(&mut self, meta: &BlockApprovalMeta, parent_hash: Option<BlockHash>) -> (added: bool)
        requires
            old(self).wf(),
        ensures
            final(self).wf(),
            final(self).peer_views == old(self).peer_views,
            added == (!old(self).has_block(meta.hash) && parent_hash is Some),
            !added ==> *final(self) == *old(self),
            added ==> {
                let b = final(self).blocks@.last();
                &&& final(self).blocks@.len() == old(self).blocks@.len() + 1
                &&& final(self).blocks@.drop_last() == old(self).blocks@
                &&& b.hash == meta.hash
                &&& b.number == meta.number
                &&& b.parent_hash == parent_hash->Some_0
                &&& b.candidates@.len() == 0
                &&& b.approvals@.len() == 0
                &&& b.known_by@.len() == 0
                &&& forall|f: MessageFingerprint| !b.knowledge.knows(f)
            },
    {
        if self.find_block(meta.hash).is_some() {
            return false;
        }
        let parent = match parent_hash {
            Some(h) => h,
            None => {
                return false;
            },
        };
        let candidates: Vec<CandidateIndex> = Vec::new();
        let ghost pre = *self;
        let entry = BlockEntry::new(meta.hash, meta.number, parent, candidates);
        self.blocks.push(entry);
        let ghost n = pre.blocks@.len() as int;
        assert(self.blocks@.drop_last() =~= pre.blocks@);
        assert forall|i1: int, i2: int|
            #![trigger self.blocks@[i1], self.blocks@[i2]]
            0 <= i1 < self.blocks@.len() && 0 <= i2 < self.blocks@.len() && i1 != i2
                implies self.blocks@[i1].hash != self.blocks@[i2].hash by {
            if i1 == n {
                assert(pre.blocks@[i2].hash == self.blocks@[i2].hash);
            } else if i2 == n {
                assert(pre.blocks@[i1].hash == self.blocks@[i1].hash);
            } else {
                assert(pre.blocks@[i1] == self.blocks@[i1]);
                assert(pre.blocks@[i2] == self.blocks@[i2]);
            }
        }
        assert forall|i: int| 0 <= i < self.blocks@.len() implies (#[trigger] self.blocks@[i]).wf() by {
            if i != n {
                assert(pre.blocks@[i] == self.blocks@[i]);
            }
        }
        true
    }

    /// Creates an empty candidate entry `c` on the block `h`, if the block is
    /// tracked and has no such entry yet. Returns whether the block is tracked.
    pub fn add_candidate(&mut self, h: BlockHash, c: CandidateIndex) -> (known: bool)
        requires
            old(self).wf(),
        ensures
            final(self).wf(),
            known == old(self).has_block(h),
            !known ==> *final(self) == *old(self),
            final(self).peer_views == old(self).peer_views,
            final(self).blocks@.len() == old(self).blocks@.len(),
            forall|i: int| 0 <= i < final(self).blocks@.len() && old(self).blocks@[i].hash != h
                ==> #[trigger] final(self).blocks@[i] == old(self).blocks@[i],
            forall|i: int| 0 <= i < final(self).blocks@.len() && #[trigger] old(self).blocks@[i].hash == h ==> {
                let nb = final(self).blocks@[i];
                let ob = old(self).blocks@[i];
                &&& nb.hash == ob.hash
                &&& nb.number == ob.number
                &&& nb.parent_hash == ob.parent_hash
                &&& nb.knowledge == ob.knowledge
                &&& nb.approvals == ob.approvals
                &&& nb.known_by == ob.known_by
                &&& forall|c2: CandidateIndex| #[trigger] nb.has_candidate(c2) == (ob.has_candidate(c2) || c2 == c)
            },
    {
        match self.find_block(h) {
            None => false,
            Some(i) => {
                let ghost pre = *self;
                proof {
                    assert forall|j: int| 0 <= j < pre.blocks@.len() && #[trigger] pre.blocks@[j].hash == h implies j == i by {
                        if j != i {
                            assert(pre.blocks@[j].hash == pre.blocks@[i as int].hash);
                        }
                    }
                }
                self.blocks[i].add_candidate(c);
                proof {
                    self.lemma_wf_after_update(&pre, i as int);
                }
                true
            },
        }
    }

    /// `peer`'s heads that are among `hashes`, in the order of its view.
    fn heads_among(view: &crate::primitives::View, hashes: &Vec<BlockHash>) -> (r: crate::primitives::View)
        ensures
            r.finalized_number == view.finalized_number,
            forall|h: BlockHash| #[trigger] r.heads@.contains(h) == (view.heads@.contains(h) && hashes@.contains(h)),
    {
        let mut heads: Vec<BlockHash> = Vec::new();
        let mut k: usize = 0;
        while k < view.heads.len()
            invariant
                k <= view.heads@.len(),
                forall|h: BlockHash| #[trigger] heads@.contains(h) == (view.heads@.subrange(0, k as int).contains(h) && hashes@.contains(h)),
            decreases view.heads@.len() - k,
        {
            let h = view.heads[k];
            let ghost before = heads@;
            let ghost sub = view.heads@.subrange(0, k as int + 1);
            assert forall|x: BlockHash| #[trigger] sub.contains(x) == (view.heads@.subrange(0, k as int).contains(x) || x == h) by {
                if x == h {
                    assert(sub[k as int] == h);
                }
                if view.heads@.subrange(0, k as int).contains(x) {
                    let t = choose|t: int| 0 <= t < k && view.heads@.subrange(0, k as int)[t] == x;
                    assert(sub[t] == x);
                }
                if sub.contains(x) && x != h {
                    let t = choose|t: int| 0 <= t <= k && sub[t] == x;
                    assert(view.heads@.subrange(0, k as int)[t] == x);
                }
            }
            if contains_hash(hashes, h) {
                heads.push(h);
                assert forall|x: BlockHash| #[trigger] heads@.contains(x) == (before.contains(x) || x == h) by {
                    if before.contains(x) {
                        let t = choose|t: int| 0 <= t < before.len() && before[t] == x;
                        assert(heads@[t] == x);
                    }
                    if x == h {
                        assert(heads@[before.len() as int] == x);
                    }
                }
            }
            k += 1;
        }
        assert(view.heads@.subrange(0, view.heads@.len() as int) =~= view.heads@);
        crate::primitives::View { heads, finalized_number: view.finalized_number }
    }

    /// `states` runs from `old` through one unification per connected peer,
    /// in the order of `old.peer_views`: the peer at `j` with `views[j]`, its
    /// heads that are among `hashes`, sending `parts[j]`.
    pub open spec fn unified_in_turn(
        old: &State,
        hashes: Seq<BlockHash>,
        states: Seq<State>,
        views: Seq<crate::primitives::View>,
        parts: Seq<Seq<Action>>,
    ) -> bool {
        let n = views.len();
        &&& states.len() == n + 1
        &&& parts.len() == n
        &&& n <= old.peer_views@.len()
        &&& states[0] == *old
        &&& forall|j: int| 0 <= j < n ==> {
            let pv = old.peer_views@[j];
            &&& (#[trigger] views[j]).finalized_number == pv.view.finalized_number
            &&& forall|h: BlockHash| #[trigger] views[j].heads@.contains(h) == (pv.view.heads@.contains(h) && hashes.contains(h))
            &&& states[j + 1].unified(&states[j], pv.peer, &views[j], parts[j])
        }
    }

    /// What unifying every connected peer with its heads among `hashes` does.
    pub open spec fn unified_new(old: &State, new: &State, hashes: Seq<BlockHash>, actions: Seq<Action>) -> bool {
        &&& new.peer_views == old.peer_views
        &&& new.blocks@.len() == old.blocks@.len()
        &&& forall|i: int| 0 <= i < new.blocks@.len() ==> (#[trigger] new.blocks@[i]).same_but_peers(&old.blocks@[i])
        &&& forall|j: int, k: int|
            0 <= j < old.peer_views@.len() && 0 <= k < old.peer_views@[j].view.heads@.len()
                && hashes.contains(#[trigger] old.peer_views@[j].view.heads@[k])
                ==> new.head_known(old.peer_views@[j].peer, old.peer_views@[j].view.heads@[k],
                old.peer_views@[j].view.finalized_number)
        &&& forall|t: int| 0 <= t < actions.len() ==> (#[trigger] actions[t]).is_send()
        &&& exists|states: Seq<State>, views: Seq<crate::primitives::View>, parts: Seq<Seq<Action>>|
            #[trigger] State::unified_in_turn(old, hashes, states, views, parts)
            && views.len() == old.peer_views@.len() && states.last() == *new
            && actions == parts.flatten()
    }

    /// New blocks entered our view: each connected peer is unified with
    /// those of its heads that are among `hashes`.
    pub fn unify_new_blocks(&mut self, hashes: &Vec<BlockHash>) -> (actions: Vec<Action>)
        requires
            old(self).wf(),
        ensures
            final(self).wf(),
            State::unified_new(old(self), final(self), hashes@, actions@),
    {
        let ghost pre = *self;
        let mut actions: Vec<Action> = Vec::new();
        let mut j: usize = 0;
        let ghost mut states: Seq<State> = seq![pre];
        let ghost mut views: Seq<crate::primitives::View> = Seq::empty();
        let ghost mut parts: Seq<Seq<Action>> = Seq::empty();
        assert(parts.flatten() =~= actions@);
        while j < self.peer_views.len()
            invariant
                self.wf(),
                j <= self.peer_views@.len(),
                views.len() == j,
                State::unified_in_turn(&pre, hashes@, states, views, parts),
                states.last() == *self,
                actions@ == parts.flatten(),
                self.peer_views == pre.peer_views,
                self.blocks@.len() == pre.blocks@.len(),
                forall|i: int| 0 <= i < self.blocks@.len() ==> (#[trigger] self.blocks@[i]).same_but_peers(&pre.blocks@[i]),
                forall|j2: int, k: int|
                    0 <= j2 < j && 0 <= k < pre.peer_views@[j2].view.heads@.len()
                        && hashes@.contains(#[trigger] pre.peer_views@[j2].view.heads@[k])
                        ==> self.head_known(pre.peer_views@[j2].peer, pre.peer_views@[j2].view.heads@[k],
                        pre.peer_views@[j2].view.finalized_number),
                forall|t: int| 0 <= t < actions@.len() ==> (#[trigger] actions@[t]).is_send(),
            decreases self.peer_views@.len() - j,
        {
            let peer = self.peer_views[j].peer;
            let view = State::heads_among(&self.peer_views[j].view, hashes);
            let ghost s0 = *self;
            let mut more = self.unify_with_peer(peer, &view);
            proof {
                let sent = choose|sent: Seq<usize>| #[trigger] self.marked_from(&s0, peer, sent)
                    && gossips(more@, peer, gossip_assignments(self.blocks@, sent), gossip_approvals(self.blocks@, sent));
                assert forall|t: int| 0 <= t < more@.len() implies (#[trigger] more@[t]).is_send() by {}
                assert forall|i: int| 0 <= i < self.blocks@.len() implies (#[trigger] self.blocks@[i]).same_but_peers(&pre.blocks@[i]) by {
                    assert(self.blocks@[i].same_but_peers(&s0.blocks@[i]));
                }
                assert forall|j2: int, k: int|
                    0 <= j2 <= j && 0 <= k < pre.peer_views@[j2].view.heads@.len()
                        && hashes@.contains(#[trigger] pre.peer_views@[j2].view.heads@[k])
                        implies self.head_known(pre.peer_views@[j2].peer, pre.peer_views@[j2].view.heads@[k],
                        pre.peer_views@[j2].view.finalized_number) by {
                    let h = pre.peer_views@[j2].view.heads@[k];
                    let q = pre.peer_views@[j2].peer;
                    let fin = pre.peer_views@[j2].view.finalized_number;
                    if j2 == j {
                        assert(view.heads@.contains(h)) by {
                            assert(pre.peer_views@[j2].view.heads@.contains(h));
                        }
                        let k2 = choose|k2: int| 0 <= k2 < view.heads@.len() && view.heads@[k2] == h;
                        assert(self.head_known(peer, view.heads@[k2], view.finalized_number));
                    } else {
                        assert(s0.head_known(q, h, fin));
                        assert(q != peer);
                        assert forall|i: int| 0 <= i < self.blocks@.len() && #[trigger] self.blocks@[i].hash == h && self.blocks@[i].number >= fin
                            implies self.blocks@[i].has_peer(q) by {
                            assert(self.blocks@[i].has_peer(q) == s0.blocks@[i].has_peer(q));
                        }
                    }
                }
            }
            let ghost before = actions@;
            let ghost more_v = more@;
            proof {
                let old_parts = parts;
                let old_states = states;
                let old_views = views;
                states = states.push(*self);
                views = views.push(view);
                parts = parts.push(more_v);
                old_parts.lemma_flatten_push(more_v);
                assert(states[0] == pre);
                assert forall|t: int| 0 <= t < views.len() implies {
                    let pv = pre.peer_views@[t];
                    &&& (#[trigger] views[t]).finalized_number == pv.view.finalized_number
                    &&& forall|h: BlockHash| #[trigger] views[t].heads@.contains(h) == (pv.view.heads@.contains(h) && hashes@.contains(h))
                    &&& states[t + 1].unified(&states[t], pv.peer, &views[t], parts[t])
                } by {
                    if t < j {
                        assert(views[t] == old_views[t]);
                        assert(states[t] == old_states[t]);
                        assert(states[t + 1] == old_states[t + 1]);
                        assert(parts[t] == old_parts[t]);
                    } else {
                        assert(states[t] == s0);
                    }
                }
            }
            actions.append(&mut more);
            assert forall|t: int| 0 <= t < actions@.len() implies (#[trigger] actions@[t]).is_send() by {
                if t < before.len() {
                    assert(actions@[t] == before[t]);
                } else {
                    assert(actions@[t] == more_v[t - before.len()]);
                }
            }
            j += 1;
        }
        actions
    }

    /// Whether the block `h` is tracked.
    pub fn is_tracked(&self, h: BlockHash) -> (r: bool)
        ensures
            r == self.has_block(h),
    {
        self.find_block(h).is_some()
    }

    /// Whether `peer` is connected.
    pub fn is_connected(&self, peer: PeerId) -> (r: bool)
        ensures
            r == self.connected(peer),
    {
        self.find_peer_view(peer).is_some()
    }

    /// Whether we know the message `f` on the block `h`.
    pub fn knows(&self, h: BlockHash, f: MessageFingerprint) -> (r: bool)
        requires
            self.wf(),
        ensures
            r == exists|i: int| 0 <= i < self.blocks@.len() && #[trigger] self.blocks@[i].hash == h && self.blocks@[i].knowledge.knows(f),
    {
        match self.find_block(h) {
            None => false,
            Some(i) => {
                let r = self.blocks[i].knowledge.contains(&f);
                proof {
                    if !r {
                        assert forall|j: int| 0 <= j < self.blocks@.len() && #[trigger] self.blocks@[j].hash == h
                            implies !self.blocks@[j].knowledge.knows(f) by {
                            if j != i {
                                assert(self.blocks@[j].hash == self.blocks@[i as int].hash);
                            }
                        }
                    }
                }
                r
            },
        }
    }

    /// Whether `peer` is deemed to have the block `h` in view.
    pub fn peer_has_block(&self, h: BlockHash, peer: PeerId) -> (r: bool)
        requires
            self.wf(),
        ensures
            r == exists|i: int| 0 <= i < self.blocks@.len() && #[trigger] self.blocks@[i].hash == h && self.blocks@[i].has_peer(peer),
    {
        match self.find_block(h) {
            None => false,
            Some(i) => {
                let r = self.blocks[i].find_peer(peer).is_some();
                proof {
                    if !r {
                        assert forall|j: int| 0 <= j < self.blocks@.len() && #[trigger] self.blocks@[j].hash == h
                            implies !self.blocks@[j].has_peer(peer) by {
                            if j != i {
                                assert(self.blocks@[j].hash == self.blocks@[i as int].hash);
                            }
                        }
                    }
                }
                r
            },
        }
    }

    /// Whether `peer` is known to know the message `f` on the block `h`.
    pub fn peer_knows(&self, h: BlockHash, peer: PeerId, f: MessageFingerprint) -> (r: bool)
        requires
            self.wf(),
        ensures
            r == exists|i: int| 0 <= i < self.blocks@.len() && #[trigger] self.blocks@[i].hash == h && self.blocks@[i].peer_knows(peer, f),
    {
        match self.find_block(h) {
            None => false,
            Some(i) => {
                let r = match self.blocks[i].find_peer(peer) {
                    None => false,
                    Some(k) => self.blocks[i].known_by[k].knowledge.contains(&f),
                };
                proof {
                    let b = self.blocks@[i as int];
                    assert(b.wf());
                    if !r {
                        assert forall|j: int| 0 <= j < self.blocks@.len() && #[trigger] self.blocks@[j].hash == h
                            implies !self.blocks@[j].peer_knows(peer, f) by {
                            if j != i {
                                assert(self.blocks@[j].hash == self.blocks@[i as int].hash);
                            } else if b.peer_knows(peer, f) {
                                let k2 = choose|k2: int| 0 <= k2 < b.known_by@.len() && #[trigger] b.known_by@[k2].peer == peer
                                    && b.known_by@[k2].knowledge.knows(f);
                                let k = choose|k: int| 0 <= k < b.known_by@.len() && #[trigger] b.known_by@[k].peer == peer;
                                assert(b.known_by@[k2].peer == b.known_by@[k].peer);
                            }
                        }
                    }
                }
                r
            },
        }
    }

    /// The approval state of validator `v` on candidate `c` of the block `h`.
    pub fn approval_state(&self, h: BlockHash, c: CandidateIndex, v: u32) -> (r: Option<ApprovalState>)
        requires
            self.wf(),
        ensures
            !self.has_block(h) ==> r is None,
            forall|i: int| 0 <= i < self.blocks@.len() && #[trigger] self.blocks@[i].hash == h ==> r == self.blocks@[i].record_of(c, v),
    {
        match self.find_block(h) {
            None => None,
            Some(i) => {
                proof {
                    assert forall|j: int| 0 <= j < self.blocks@.len() && #[trigger] self.blocks@[j].hash == h implies j == i by {
                        if j != i {
                            assert(self.blocks@[j].hash == self.blocks@[i as int].hash);
                        }
                    }
                    assert(self.blocks@[i as int].wf());
                }
                match self.blocks[i].find_record(c, v) {
                    None => None,
                    Some(a) => Some(self.blocks[i].approvals[a].state),
                }
            },
        }
    }

    /// The hashes of the tracked blocks numbered `n`.
    pub fn blocks_numbered(&self, n: BlockNumber) -> (r: Vec<BlockHash>)
        ensures
            forall|h: BlockHash| #[trigger] r@.contains(h)
                == exists|i: int| 0 <= i < self.blocks@.len() && #[trigger] self.blocks@[i].hash == h && self.blocks@[i].number == n,
    {
        let mut r: Vec<BlockHash> = Vec::new();
        let mut i: usize = 0;
        while i < self.blocks.len()
            invariant
                i <= self.blocks@.len(),
                forall|h: BlockHash| #[trigger] r@.contains(h)
                    == exists|j: int| 0 <= j < i && #[trigger] self.blocks@[j].hash == h && self.blocks@[j].number == n,
            decreases self.blocks@.len() - i,
        {
            let ghost before = r@;
            if self.blocks[i].number == n {
                r.push(self.blocks[i].hash);
                assert forall|h: BlockHash| #[trigger] r@.contains(h) == (before.contains(h) || h == self.blocks@[i as int].hash) by {
                    if before.contains(h) {
                        let t = choose|t: int| 0 <= t < before.len() && before[t] == h;
                        assert(r@[t] == h);
                    }
                    if h == self.blocks@[i as int].hash {
                        assert(r@[before.len() as int] == h);
                    }
                }
            }
            assert forall|h: BlockHash| #[trigger] r@.contains(h)
                == (exists|j: int| 0 <= j < i + 1 && #[trigger] self.blocks@[j].hash == h && self.blocks@[j].number == n) by {
                if self.blocks@[i as int].hash == h && self.blocks@[i as int].number == n {
                    assert(self.blocks@[i as int].hash == h);
                }
            }
            i += 1;
        }
        r
    }

    /// `new` is `old` with a new block for each of the first `upto` metas
    /// that has a parent and was not tracked: `added` lists their hashes in
    /// the order they were added.
    pub open spec fn grew(
        old: &State,
        new: &State,
        metas: Seq<BlockApprovalMeta>,
        parents: Seq<Option<BlockHash>>,
        upto: int,
        added: Seq<BlockHash>,
    ) -> bool {
        let n = old.blocks@.len();
        &&& new.peer_views == old.peer_views
        &&& new.blocks@.len() == n + added.len()
        &&& new.blocks@.subrange(0, n as int) == old.blocks@
        &&& forall|t: int| 0 <= t < added.len() ==> {
            let b = #[trigger] new.blocks@[n + t];
            &&& b.hash == added[t]
            &&& b.candidates@.len() == 0
            &&& b.approvals@.len() == 0
            &&& b.known_by@.len() == 0
            &&& forall|f: MessageFingerprint| !b.knowledge.knows(f)
            &&& exists|k: int| 0 <= k < upto && #[trigger] metas[k].hash == added[t] && metas[k].number == b.number
                && parents[k] == Some(b.parent_hash)
        }
        &&& forall|k: int| 0 <= k < upto && (#[trigger] parents[k]) is Some ==> new.has_block(metas[k].hash)
    }

    /// New blocks entered our view, each with its parent where the chain API
    /// gave one: the blocks not tracked yet are added, and each connected
    /// peer is unified with those of its heads that were added.
    pub fn handle_new_blocks(&mut self, metas: &Vec<BlockApprovalMeta>, parents: &Vec<Option<BlockHash>>) -> (actions: Vec<Action>)
        requires
            old(self).wf(),
            metas@.len() == parents@.len(),
        ensures
            final(self).wf(),
            exists|mid: State, added: Seq<BlockHash>|
                #[trigger] State::grew(old(self), &mid, metas@, parents@, metas@.len() as int, added)
                && State::unified_new(&mid, final(self), added, actions@),
    {
        let ghost pre = *self;
        let ghost n = pre.blocks@.len() as int;
        let mut added: Vec<BlockHash> = Vec::new();
        let mut k: usize = 0;
        assert(self.blocks@.subrange(0, n) =~= pre.blocks@);
        while k < metas.len()
            invariant
                self.wf(),
                k <= metas@.len(),
                metas@.len() == parents@.len(),
                n == pre.blocks@.len(),
                State::grew(&pre, self, metas@, parents@, k as int, added@),
            decreases metas@.len() - k,
        {
            let ghost s0 = *self;
            let ghost added0 = added@;
            let meta = &metas[k];
            let parent = parents[k];
            let was_added = self.add_block(meta, parent);
            if was_added {
                added.push(meta.hash);
            }
            proof {
                let m = s0.blocks@.len() as int;
                if was_added {
                    assert(self.blocks@[m] == self.blocks@.last());
                    assert(self.blocks@.subrange(0, n) =~= pre.blocks@) by {
                        assert(self.blocks@.drop_last() == s0.blocks@);
                        assert forall|x: int| 0 <= x < n implies self.blocks@[x] == pre.blocks@[x] by {
                            assert(s0.blocks@[x] == s0.blocks@.subrange(0, n)[x]);
                            assert(self.blocks@.drop_last()[x] == self.blocks@[x]);
                        }
                    }
                    assert forall|t: int| 0 <= t < added@.len() implies {
                        let b = #[trigger] self.blocks@[n + t];
                        &&& b.hash == added@[t]
                        &&& b.candidates@.len() == 0
                        &&& b.approvals@.len() == 0
                        &&& b.known_by@.len() == 0
                        &&& forall|f: MessageFingerprint| !b.knowledge.knows(f)
                        &&& exists|k2: int| 0 <= k2 < k + 1 && #[trigger] metas@[k2].hash == added@[t] && metas@[k2].number == b.number
                            && parents@[k2] == Some(b.parent_hash)
                    } by {
                        if t < added0.len() {
                            assert(self.blocks@.drop_last()[n + t] == self.blocks@[n + t]);
                            assert(s0.blocks@[n + t] == self.blocks@[n + t]);
                            assert(added@[t] == added0[t]);
                            let b = s0.blocks@[n + t];
                            let k2 = choose|k2: int| 0 <= k2 < k && #[trigger] metas@[k2].hash == added0[t] && metas@[k2].number == b.number
                                && parents@[k2] == Some(b.parent_hash);
                            assert(metas@[k2].hash == added@[t]);
                        } else {
                            assert(n + t == m);
                            assert(metas@[k as int].hash == added@[t]);
                        }
                    }
                } else {
                    assert(added@ == added0);
                }
                assert forall|k2: int| 0 <= k2 < k + 1 && (#[trigger] parents@[k2]) is Some implies self.has_block(metas@[k2].hash) by {
                    if k2 < k {
                        assert(s0.has_block(metas@[k2].hash));
                        let j = choose|j: int| 0 <= j < s0.blocks@.len() && #[trigger] s0.blocks@[j].hash == metas@[k2].hash;
                        if was_added {
                            assert(self.blocks@.drop_last()[j] == self.blocks@[j]);
                        }
                        assert(self.blocks@[j].hash == metas@[k2].hash);
                    } else if !was_added {
                        assert(s0.has_block(metas@[k2].hash));
                    } else {
                        assert(self.blocks@[m].hash == metas@[k2].hash);
                    }
                }
                if !was_added {
                    assert forall|t: int| 0 <= t < added@.len() implies {
                        let b = #[trigger] self.blocks@[n + t];
                        &&& b.hash == added@[t]
                        &&& b.candidates@.len() == 0
                        &&& b.approvals@.len() == 0
                        &&& b.known_by@.len() == 0
                        &&& forall|f: MessageFingerprint| !b.knowledge.knows(f)
                        &&& exists|k2: int| 0 <= k2 < k + 1 && #[trigger] metas@[k2].hash == added@[t] && metas@[k2].number == b.number
                            && parents@[k2] == Some(b.parent_hash)
                    } by {
                        assert(s0.blocks@[n + t] == self.blocks@[n + t]);
                        let b = s0.blocks@[n + t];
                        let k2 = choose|k2: int| 0 <= k2 < k && #[trigger] metas@[k2].hash == added0[t] && metas@[k2].number == b.number
                            && parents@[k2] == Some(b.parent_hash);
                        assert(metas@[k2].hash == added@[t]);
                    }
                }
                assert(self.peer_views == pre.peer_views);
                assert(self.blocks@.len() == n + added@.len());
                assert(self.blocks@.subrange(0, n) == pre.blocks@);
                assert(State::grew(&pre, self, metas@, parents@, k as int + 1, added@));
            }
            k += 1;
        }
        let ghost mid = *self;
        let actions = self.unify_new_blocks(&added);
        assert(State::grew(&pre, &mid, metas@, parents@, metas@.len() as int, added@));
        actions
    }
}

/// A list without repeats of `n` or more indices below `n` holds each of them.
pub proof fn lemma_covers(sent: Seq<usize>, n: int)
    requires
        0 <= n,
        sent.no_duplicates(),
        forall|t: int| 0 <= t < sent.len() ==> #[trigger] sent[t] < n,
        sent.len() >= n,
    ensures
        forall|x: int| 0 <= x < n ==> #[trigger] sent.contains(x as usize),
{
    let t = sent.map_values(|x: usize| x as int);
    assert forall|a: int, b: int| 0 <= a < t.len() && 0 <= b < t.len() && a != b implies t[a] != t[b] by {
        assert(sent[a] != sent[b]);
    }
    assert(t.no_duplicates());
    t.unique_seq_to_set();
    let ts = t.to_set();
    let range = vstd::set_lib::set_int_range(0, n);
    vstd::set_lib::lemma_int_range(0, n);
    assert forall|x: int| ts.contains(x) implies range.contains(x) by {
        let a = choose|a: int| 0 <= a < t.len() && t[a] == x;
        assert(sent[a] < n);
    }
    assert(ts.subset_of(range));
    vstd::set_lib::lemma_len_subset(ts, range);
    vstd::set_lib::lemma_subset_equality(ts, range);
    assert forall|x: int| 0 <= x < n implies #[trigger] sent.contains(x as usize) by {
        assert(range.contains(x));
        assert(ts.contains(x));
        let a = choose|a: int| 0 <= a < t.len() && t[a] == x;
        assert(sent[a] == x as usize);
    }
}

} // verus!