use vstd::prelude::*;
use crate::primitives::{
    Action, ApprovalCheckResult, AssignmentCert, AssignmentCheckResult, CandidateIndex, IndirectAssignmentCert,
    IndirectSignedApprovalVote, MessageFingerprint, PeerId, Rep, ValidatorIndex, ValidatorSignature,
    precedent_fp,
};
use crate::block::ApprovalState;
use crate::state::{ImportStep, PeerView, State, report};

verus! {

/// How many of `acts` send messages to peers.
pub open spec fn send_count(acts: Seq<Action>) -> nat
    decreases acts.len(),
{
    if acts.len() == 0 {
        0
    } else {
        send_count(acts.drop_last()) + if acts.last().is_send() { 1nat } else { 0nat }
    }
}

/// Whatever a peer is known to know of a block, we know of it as well.
pub proof fn lemma_peer_knowledge_within_ours(s: &State, i: int, p: PeerId, f: MessageFingerprint)
    requires
        s.wf(),
        0 <= i < s.blocks@.len(),
        s.blocks@[i].peer_knows(p, f),
    ensures
        s.blocks@[i].knowledge.knows(f),
{
    let b = s.blocks@[i];
    assert(b.wf());
    let k = choose|k: int| 0 <= k < b.known_by@.len() && #[trigger] b.known_by@[k].peer == p && b.known_by@[k].knowledge.knows(f);
    assert(b.known_by@[k].knowledge.within(&b.knowledge));
}

/// A validator approved on a candidate of a block only where we know its
/// assignment on that candidate.
pub proof fn lemma_approved_follows_assignment(
    s: &State,
    i: int,
    c: CandidateIndex,
    v: ValidatorIndex,
    cert: AssignmentCert,
    sig: ValidatorSignature,
)
    requires
        s.wf(),
        0 <= i < s.blocks@.len(),
        s.blocks@[i].record_of(c, v) == Some(ApprovalState::Approved(cert, sig)),
    ensures
        s.blocks@[i].knowledge.knows(MessageFingerprint::Assignment(s.blocks@[i].hash, c, v)),
{
    let b = s.blocks@[i];
    assert(b.wf());
    let a = choose|a: int| 0 <= a < b.approvals@.len() && #[trigger] b.approvals@[a].candidate_index == c && b.approvals@[a].validator == v;
}

/// An assignment from a peer that approval voting accepted, for a candidate
/// its block includes, is circulated once; the same assignment from the same
/// peer again is a duplicate: it is penalised, changes nothing and goes
/// nowhere.
pub proof fn lemma_duplicate_assignment(
    s0: State,
    s1: State,
    s2: State,
    s3: State,
    peer: PeerId,
    a: IndirectAssignmentCert,
    c: CandidateIndex,
    r1: (ImportStep, Vec<Action>),
    result: AssignmentCheckResult,
    acts2: Vec<Action>,
    r3: (ImportStep, Vec<Action>),
)
    requires
        s0.wf(),
        State::begun_assignment(&s0, &s1, peer, a, c, r1),
        r1.0 == ImportStep::AwaitCheck,
        forall|i: int| 0 <= i < s0.blocks@.len() && #[trigger] s0.blocks@[i].hash == a.block_hash
            ==> s0.blocks@[i].has_candidate(c),
        State::finished_assignment(&s1, &s2, peer, a, c, result, acts2),
        result == AssignmentCheckResult::Accepted || result == AssignmentCheckResult::AcceptedDuplicate,
        State::begun_assignment(&s2, &s3, peer, a, c, r3),
    ensures
        send_count(r1.1@) == 0,
        send_count(acts2@) == 1,
        r3.0 == ImportStep::Done,
        r3.1@ == seq![report(peer, Rep::CostDuplicateMessage)],
        s3 == s2,
{
    let h = a.block_hash;
    let i = choose|i: int| 0 <= i < s0.blocks@.len() && #[trigger] s0.blocks@[i].hash == h;
    assert(s0.blocks@[i].hash == h);
    assert(s1 == s0);
    assert(s1.blocks@[i].hash == h);
    let f = MessageFingerprint::Assignment(h, c, a.validator);
    assert(s2.blocks@[i].peer_knows(peer, f));
    assert(s2.blocks@[i].hash == h);
    let b = s0.blocks@[i];
    let unexpected = if b.has_peer(peer) { Seq::<Action>::empty() } else { seq![report(peer, Rep::CostUnexpectedMessage)] };
    assert(r1.1@ == unexpected);
    if r1.1@.len() == 1 {
        assert(r1.1@.drop_last() =~= Seq::<Action>::empty());
        assert(send_count(r1.1@.drop_last()) == 0);
    }
    let x = acts2@;
    if result == AssignmentCheckResult::Accepted {
        assert(x.len() == 2);
        assert(x.drop_last().drop_last() =~= Seq::<Action>::empty());
        assert(send_count(x.drop_last().drop_last()) == 0);
        assert(x.drop_last().last() == report(peer, Rep::BenefitValidMessageFirst));
        assert(send_count(x.drop_last()) == 0);
        assert(x.last().is_send());
    } else {
        assert(x.len() == 1);
        assert(x.drop_last() =~= Seq::<Action>::empty());
        assert(send_count(x.drop_last()) == 0);
        assert(x.last().is_send());
    }
}

/// An approval vote from a peer that approval voting accepted is circulated
/// once; the same vote from the same peer again is a duplicate: it is
/// penalised, changes nothing and goes nowhere.
pub proof fn lemma_duplicate_approval(
    s0: State,
    s1: State,
    s2: State,
    s3: State,
    peer: PeerId,
    vote: IndirectSignedApprovalVote,
    r1: (ImportStep, Vec<Action>),
    acts2: Vec<Action>,
    r3: (ImportStep, Vec<Action>),
)
    requires
        s0.wf(),
        State::begun_approval(&s0, &s1, peer, vote, r1),
        r1.0 == ImportStep::AwaitCheck,
        State::finished_approval(&s1, &s2, peer, vote, ApprovalCheckResult::Accepted, acts2),
        State::begun_approval(&s2, &s3, peer, vote, r3),
    ensures
        send_count(r1.1@) == 0,
        send_count(acts2@) == 1,
        r3.0 == ImportStep::Done,
        r3.1@ == seq![report(peer, Rep::CostDuplicateMessage)],
        s3 == s2,
{
    let h = vote.block_hash;
    let i = choose|i: int| 0 <= i < s0.blocks@.len() && #[trigger] s0.blocks@[i].hash == h;
    assert(s0.blocks@[i].hash == h);
    assert(s1 == s0);
    assert(s1.blocks@[i].hash == h);
    let f = MessageFingerprint::Approval(h, vote.candidate_index, vote.validator);
    assert(s2.blocks@[i].peer_knows(peer, f));
    assert(s2.blocks@[i].hash == h);
    assert(s2.blocks@[i].knowledge.knows(precedent_fp(vote)));
    assert(s2.blocks@[i].has_candidate(vote.candidate_index));
    let b = s0.blocks@[i];
    let unexpected = if b.has_peer(peer) { Seq::<Action>::empty() } else { seq![report(peer, Rep::CostUnexpectedMessage)] };
    assert(r1.1@ == unexpected);
    if r1.1@.len() == 1 {
        assert(r1.1@.drop_last() =~= Seq::<Action>::empty());
        assert(send_count(r1.1@.drop_last()) == 0);
    }
    let x = acts2@;
    assert(x.len() == 2);
    assert(x.drop_last().drop_last() =~= Seq::<Action>::empty());
    assert(send_count(x.drop_last().drop_last()) == 0);
    assert(x.drop_last().last() == report(peer, Rep::BenefitValidMessageFirst));
    assert(send_count(x.drop_last()) == 0);
    assert(x.last().is_send());
}

/// Unifying a peer with a view a second time, with nothing changed in
/// between, sends nothing and changes nothing.
pub proof fn lemma_unify_idempotent(
    s0: State,
    s1: State,
    s2: State,
    peer: PeerId,
    view: crate::primitives::View,
    a1: Seq<Action>,
    a2: Seq<Action>,
)
    requires
        s1.unified(&s0, peer, &view, a1),
        s2.unified(&s1, peer, &view, a2),
    ensures
        a2.len() == 0,
        s2 == s1,
{
}

/// Changing a peer's view a second time to the same view sends nothing and
/// changes nothing, where no tracked head of the view is numbered exactly at
/// its finalized number (such a head is forgotten by the first change and
/// found again by the second).
pub proof fn lemma_repeat_view_change(
    s0: State,
    s1: State,
    s2: State,
    peer: PeerId,
    view: crate::primitives::View,
    a1: Seq<Action>,
    a2: Seq<Action>,
)
    requires
        s0.wf(),
        s1.wf(),
        State::view_changed(&s0, &s1, peer, view, a1),
        State::view_changed(&s1, &s2, peer, view, a2),
        forall|k: int, i: int|
            #![trigger s0.blocks@[i], view.heads@[k]]
            0 <= k < view.heads@.len() && 0 <= i < s0.blocks@.len() && s0.blocks@[i].hash == view.heads@[k]
                ==> s0.blocks@[i].number != view.finalized_number,
    ensures
        a2.len() == 0,
        s2.blocks@ == s1.blocks@,
        s2.peer_views@ == s1.peer_views@,
{
    let fin = view.finalized_number;
    let mid1 = choose|mid: State| #[trigger] mid.unified(&s0, peer, &view, a1) && s1.forgot_below(&mid, peer, fin);
    let sent1 = choose|sent: Seq<usize>| #[trigger] mid1.marked_from(&s0, peer, sent)
        && (forall|i: int| 0 <= i < s0.blocks@.len()
            ==> #[trigger] sent.contains(i as usize) == s0.reached(peer, &view, s0.blocks@[i].hash))
        && crate::state::gossips(a1, peer, crate::state::gossip_assignments(mid1.blocks@, sent), crate::state::gossip_approvals(mid1.blocks@, sent));
    assert(s1.heads_known(peer, &view)) by {
        assert forall|k: int| 0 <= k < view.heads@.len() implies #[trigger] s1.head_known(peer, view.heads@[k], fin) by {
            assert(mid1.head_known(peer, view.heads@[k], fin));
            assert forall|i: int| 0 <= i < s1.blocks@.len() && #[trigger] s1.blocks@[i].hash == view.heads@[k] && s1.blocks@[i].number >= fin
                implies s1.blocks@[i].has_peer(peer) by {
                assert(s1.blocks@[i].same_but_peers(&mid1.blocks@[i]));
                assert(mid1.blocks@[i].same_but_peers(&s0.blocks@[i]));
                assert(s0.blocks@[i].hash == view.heads@[k]);
                assert(s0.blocks@[i].number != fin);
                assert(s1.blocks@[i] == mid1.blocks@[i]);
            }
        }
    }
    let mid2 = choose|mid: State| #[trigger] mid.unified(&s1, peer, &view, a2) && s2.forgot_below(&mid, peer, fin);
    assert(mid2 == s1);
    assert forall|i: int| 0 <= i < s2.blocks@.len() implies #[trigger] s2.blocks@[i] == s1.blocks@[i] by {
        if s1.blocks@[i].number <= fin {
            assert(s1.blocks@[i].same_but_peers(&mid1.blocks@[i]));
            assert(s1.blocks@[i].has_peer(peer) == (mid1.blocks@[i].has_peer(peer) && peer != peer));
        }
    }
    assert(s2.blocks@ =~= s1.blocks@);
    assert(s1.connected(peer));
    let j = choose|j: int| 0 <= j < s1.peer_views@.len() && #[trigger] s1.peer_views@[j].peer == peer
        && s2.peer_views@ == s1.peer_views@.update(j, (PeerView { peer, view }));
    let j2 = choose|j2: int| 0 <= j2 < s1.peer_views@.len() && #[trigger] s1.peer_views@[j2].peer == peer && s1.peer_views@[j2].view == view;
    if j2 != j {
        assert(s1.peer_views@[j2].peer == s1.peer_views@[j].peer);
    }
    assert(s1.peer_views@[j] == (PeerView { peer, view }));
    assert(s2.peer_views@ =~= s1.peer_views@);
}

/// An approval vote from a peer whose assignment we do not know is penalised
/// and changes nothing, candidate states included.
pub proof fn lemma_approval_needs_assignment(
    s0: State,
    s1: State,
    peer: PeerId,
    vote: IndirectSignedApprovalVote,
    r: (ImportStep, Vec<Action>),
)
    requires
        s0.wf(),
        State::begun_approval(&s0, &s1, peer, vote, r),
        forall|i: int| 0 <= i < s0.blocks@.len() && #[trigger] s0.blocks@[i].hash == vote.block_hash
            ==> !s0.blocks@[i].knowledge.knows(precedent_fp(vote)),
    ensures
        r.0 == ImportStep::Done,
        r.1@ == seq![report(peer, Rep::CostUnexpectedMessage)],
        s1 == s0,
{
    if s0.has_block(vote.block_hash) {
        let i = choose|i: int| 0 <= i < s0.blocks@.len() && #[trigger] s0.blocks@[i].hash == vote.block_hash;
        assert(s0.blocks@[i].hash == vote.block_hash);
    }
}

/// The second half of the import of such a vote changes nothing either.
pub proof fn lemma_unchecked_approval_changes_nothing(
    s0: State,
    s1: State,
    peer: PeerId,
    vote: IndirectSignedApprovalVote,
    result: ApprovalCheckResult,
    acts: Vec<Action>,
)
    requires
        s0.wf(),
        State::finished_approval(&s0, &s1, peer, vote, result, acts),
        forall|i: int| 0 <= i < s0.blocks@.len() && #[trigger] s0.blocks@[i].hash == vote.block_hash
            ==> !s0.blocks@[i].knowledge.knows(precedent_fp(vote)),
    ensures
        acts@.len() == 0,
        s1 == s0,
{
    if s0.has_block(vote.block_hash) {
        let i = choose|i: int| 0 <= i < s0.blocks@.len() && #[trigger] s0.blocks@[i].hash == vote.block_hash;
        assert(s0.blocks@[i].hash == vote.block_hash);
    }
}

} // verus!
