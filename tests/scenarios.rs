use approval_distribution::{
    Action, ApprovalCheckResult, ApprovalDistribution, ApprovalState, AssignmentCert, AssignmentCertKind,
    AssignmentCheckResult, BlockApprovalMeta, BlockHash, H256, ImportStep, IndirectAssignmentCert,
    IndirectSignedApprovalVote, MessageFingerprint, Metrics, PeerId, Rep, State, ValidatorSignature, View,
};

fn hash(n: u128) -> BlockHash {
    H256 { high: 0, low: n }
}

fn peer(n: u64) -> PeerId {
    PeerId { id: n }
}

fn signature(n: u128) -> ValidatorSignature {
    ValidatorSignature { first: H256 { high: n, low: 1 }, second: H256 { high: n, low: 2 } }
}

fn cert(n: u32) -> AssignmentCert {
    AssignmentCert {
        kind: AssignmentCertKind::RelayVrfModulo { sample: n },
        vrf_output: H256 { high: 7, low: n as u128 },
        vrf_proof: signature(n as u128),
    }
}

fn assignment(block: BlockHash, validator: u32) -> IndirectAssignmentCert {
    IndirectAssignmentCert { block_hash: block, validator, cert: cert(validator) }
}

fn vote(block: BlockHash, candidate_index: u32, validator: u32) -> IndirectSignedApprovalVote {
    IndirectSignedApprovalVote { block_hash: block, candidate_index, validator, signature: signature(99) }
}

fn meta(h: BlockHash, number: u32, candidates: usize) -> BlockApprovalMeta {
    BlockApprovalMeta { hash: h, number, candidates: vec![hash(1000); candidates] }
}

/// Adds the block of `m` with an empty candidate entry for each of its
/// candidates.
fn track(state: &mut State, m: BlockApprovalMeta, parent: Option<BlockHash>) -> bool {
    let added = state.add_block(&m, parent);
    if added {
        for c in 0..m.candidates.len() {
            assert!(state.add_candidate(m.hash, c as u32));
        }
    }
    added
}

fn view(heads: Vec<BlockHash>, finalized_number: u32) -> View {
    View { heads, finalized_number }
}

fn report(p: PeerId, rep: Rep) -> Action {
    Action::ReportPeer { peer: p, rep }
}

/// Block 0 numbered 1 with one candidate; peers 1 and 2 connected, both
/// with block 0 in view.
fn two_peers_on_one_block() -> State {
    let mut state = State::new();
    assert!(track(&mut state, meta(hash(0), 1, 1), Some(hash(100))));
    state.peer_connected(peer(1));
    state.peer_connected(peer(2));
    assert!(state.peer_view_change(peer(1), view(vec![hash(0)], 0)).is_empty());
    assert!(state.peer_view_change(peer(2), view(vec![hash(0)], 0)).is_empty());
    state
}

fn import_assignment(state: &mut State, p: PeerId, a: IndirectAssignmentCert, c: u32, answer: AssignmentCheckResult) -> Vec<Action> {
    let (step, mut actions) = state.begin_peer_assignment(p, a, c);
    if step == ImportStep::AwaitCheck {
        actions.extend(state.finish_peer_assignment(p, a, c, answer));
    }
    actions
}

fn sends(actions: &[Action]) -> usize {
    actions.iter().filter(|a| !matches!(a, Action::ReportPeer { .. })).count()
}

#[test]
fn accept_and_forward_assignment() {
    let mut state = two_peers_on_one_block();
    let a = assignment(hash(0), 5);
    let actions = import_assignment(&mut state, peer(1), a, 0, AssignmentCheckResult::Accepted);
    assert_eq!(
        actions,
        vec![
            report(peer(1), Rep::BenefitValidMessageFirst),
            Action::SendAssignments { peers: vec![peer(2)], assignments: vec![(a, 0)] },
        ]
    );
    let f = MessageFingerprint::Assignment(hash(0), 0, 5);
    assert!(state.knows(hash(0), f));
    assert!(state.peer_knows(hash(0), peer(1), f));
    assert!(state.peer_knows(hash(0), peer(2), f));
    assert_eq!(state.approval_state(hash(0), 0, 5), Some(ApprovalState::Assigned(cert(5))));
}

#[test]
fn duplicate_from_same_peer() {
    let mut state = two_peers_on_one_block();
    let a = assignment(hash(0), 5);
    let first = import_assignment(&mut state, peer(1), a, 0, AssignmentCheckResult::Accepted);
    let second = import_assignment(&mut state, peer(1), a, 0, AssignmentCheckResult::Accepted);
    assert_eq!(second, vec![report(peer(1), Rep::CostDuplicateMessage)]);
    assert_eq!(sends(&first) + sends(&second), 1);
    assert_eq!(state.approval_state(hash(0), 0, 5), Some(ApprovalState::Assigned(cert(5))));
}

#[test]
fn approval_before_assignment() {
    let mut state = two_peers_on_one_block();
    let v = vote(hash(0), 0, 5);
    let (step, actions) = state.begin_peer_approval(peer(1), v);
    assert_eq!(step, ImportStep::Done);
    assert_eq!(actions, vec![report(peer(1), Rep::CostUnexpectedMessage)]);
    assert_eq!(state.approval_state(hash(0), 0, 5), None);
    assert!(!state.knows(hash(0), MessageFingerprint::Approval(hash(0), 0, 5)));
    assert!(state.finish_peer_approval(peer(1), v, ApprovalCheckResult::Accepted).is_empty());
    assert_eq!(state.approval_state(hash(0), 0, 5), None);
}

#[test]
fn unification_on_peer_view_change() {
    let mut state = State::new();
    assert!(track(&mut state, meta(hash(0), 1, 1), Some(hash(100))));
    assert!(track(&mut state, meta(hash(1), 2, 1), Some(hash(0))));
    assert!(track(&mut state, meta(hash(2), 3, 1), Some(hash(1))));
    let a = assignment(hash(1), 3);
    assert_eq!(
        state.distribute_assignment(a, 0),
        vec![Action::SendAssignments { peers: vec![], assignments: vec![(a, 0)] }]
    );
    let actions = state.peer_view_change(peer(1), view(vec![hash(2)], 0));
    assert_eq!(actions, vec![Action::SendAssignments { peers: vec![peer(1)], assignments: vec![(a, 0)] }]);
    for h in [hash(0), hash(1), hash(2)] {
        assert!(state.peer_has_block(h, peer(1)));
    }
    assert!(state.peer_knows(hash(1), peer(1), MessageFingerprint::Assignment(hash(1), 0, 3)));
}

#[test]
fn finalization_pruning() {
    let mut state = State::new();
    for n in 1..=5u32 {
        assert!(track(&mut state, meta(hash(n as u128), n, 0), Some(hash(n as u128 - 1))));
    }
    state.our_view_change(&view(vec![hash(5)], 3));
    for n in 1..=3u32 {
        assert!(!state.is_tracked(hash(n as u128)));
        assert!(state.blocks_numbered(n).is_empty());
    }
    assert_eq!(state.blocks_numbered(4), vec![hash(4)]);
    assert_eq!(state.blocks_numbered(5), vec![hash(5)]);
}

#[test]
fn collaborator_down() {
    let mut state = two_peers_on_one_block();
    let a = assignment(hash(0), 5);
    let (step, actions) = state.begin_peer_assignment(peer(1), a, 0);
    assert_eq!(step, ImportStep::AwaitCheck);
    assert!(actions.is_empty());
    // No answer came: the message is dropped.
    let f = MessageFingerprint::Assignment(hash(0), 0, 5);
    assert!(!state.knows(hash(0), f));
    assert!(!state.peer_knows(hash(0), peer(2), f));
    assert_eq!(state.approval_state(hash(0), 0, 5), None);
    // The engine goes on with the next event.
    let again = import_assignment(&mut state, peer(2), a, 0, AssignmentCheckResult::Accepted);
    assert_eq!(again.len(), 2);
    assert!(state.knows(hash(0), f));
}

#[test]
fn peer_known_by_within_our_knowledge() {
    let mut state = two_peers_on_one_block();
    let a = assignment(hash(0), 5);
    import_assignment(&mut state, peer(1), a, 0, AssignmentCheckResult::Accepted);
    for p in [peer(1), peer(2)] {
        for v in 0..8u32 {
            let f = MessageFingerprint::Assignment(hash(0), 0, v);
            if state.peer_knows(hash(0), p, f) {
                assert!(state.knows(hash(0), f));
            }
        }
    }
}

#[test]
fn approved_state_has_known_assignment() {
    let mut state = two_peers_on_one_block();
    let a = assignment(hash(0), 5);
    import_assignment(&mut state, peer(1), a, 0, AssignmentCheckResult::Accepted);
    let v = vote(hash(0), 0, 5);
    let (step, actions) = state.begin_peer_approval(peer(1), v);
    assert_eq!(step, ImportStep::AwaitCheck);
    assert!(actions.is_empty());
    let actions = state.finish_peer_approval(peer(1), v, ApprovalCheckResult::Accepted);
    assert_eq!(
        actions,
        vec![
            report(peer(1), Rep::BenefitValidMessageFirst),
            Action::SendApprovals { peers: vec![peer(2)], approvals: vec![v] },
        ]
    );
    assert_eq!(state.approval_state(hash(0), 0, 5), Some(ApprovalState::Approved(cert(5), signature(99))));
    assert!(state.knows(hash(0), MessageFingerprint::Assignment(hash(0), 0, 5)));
}

#[test]
fn pruned_blocks_gone_after_our_view_change() {
    let mut state = two_peers_on_one_block();
    assert!(track(&mut state, meta(hash(1), 2, 0), Some(hash(0))));
    state.our_view_change(&view(vec![hash(1)], 1));
    assert!(!state.is_tracked(hash(0)));
    assert!(state.is_tracked(hash(1)));
    state.our_view_change(&view(vec![hash(1)], 2));
    assert!(!state.is_tracked(hash(1)));
}

#[test]
fn disconnect_forgets_peer() {
    let mut state = two_peers_on_one_block();
    state.peer_disconnected(peer(1));
    assert!(!state.is_connected(peer(1)));
    assert!(!state.peer_has_block(hash(0), peer(1)));
    assert!(state.is_connected(peer(2)));
    assert!(state.peer_has_block(hash(0), peer(2)));
    let a = assignment(hash(0), 5);
    assert_eq!(
        state.distribute_assignment(a, 0),
        vec![Action::SendAssignments { peers: vec![peer(2)], assignments: vec![(a, 0)] }]
    );
}

#[test]
fn unify_twice_sends_nothing() {
    let mut state = State::new();
    assert!(track(&mut state, meta(hash(0), 1, 1), Some(hash(100))));
    let a = assignment(hash(0), 2);
    state.distribute_assignment(a, 0);
    let v = view(vec![hash(0)], 0);
    assert_eq!(state.unify_with_peer(peer(3), &v).len(), 1);
    assert!(state.unify_with_peer(peer(3), &v).is_empty());
}

#[test]
fn approval_without_assignment_penalised_from_unknown_peer() {
    let mut state = two_peers_on_one_block();
    let (step, actions) = state.begin_peer_approval(peer(9), vote(hash(0), 0, 1));
    assert_eq!(step, ImportStep::Done);
    assert_eq!(actions, vec![report(peer(9), Rep::CostUnexpectedMessage)]);
    let (_, actions) = state.begin_peer_approval(peer(1), vote(hash(0), 3, 1));
    assert_eq!(actions, vec![report(peer(1), Rep::CostUnexpectedMessage)]);
}

#[test]
fn unknown_block_is_unexpected() {
    let mut state = two_peers_on_one_block();
    let (step, actions) = state.begin_peer_assignment(peer(1), assignment(hash(42), 1), 0);
    assert_eq!(step, ImportStep::Done);
    assert_eq!(actions, vec![report(peer(1), Rep::CostUnexpectedMessage)]);
    assert!(state.distribute_assignment(assignment(hash(42), 1), 0).is_empty());
    assert!(state.distribute_approval(vote(hash(42), 0, 1)).is_empty());
}

#[test]
fn peer_without_block_in_view_is_charged_but_heard() {
    let mut state = two_peers_on_one_block();
    state.peer_connected(peer(3));
    let a = assignment(hash(0), 4);
    let actions = import_assignment(&mut state, peer(3), a, 0, AssignmentCheckResult::Accepted);
    assert_eq!(actions[0], report(peer(3), Rep::CostUnexpectedMessage));
    assert_eq!(actions[1], report(peer(3), Rep::BenefitValidMessageFirst));
    match &actions[2] {
        Action::SendAssignments { peers, assignments } => {
            let mut peers = peers.clone();
            peers.sort_by_key(|p| p.id);
            assert_eq!(peers, vec![peer(1), peer(2)]);
            assert_eq!(assignments, &vec![(a, 0)]);
        }
        other => panic!("unexpected action {:?}", other),
    }
    assert!(state.peer_has_block(hash(0), peer(3)));
}

#[test]
fn known_message_from_new_peer_is_rewarded() {
    let mut state = two_peers_on_one_block();
    let a = assignment(hash(0), 5);
    state.distribute_assignment(a, 0);
    state.peer_connected(peer(3));
    assert!(state.peer_view_change(peer(3), view(vec![], 0)).is_empty());
    let (step, actions) = state.begin_peer_assignment(peer(3), a, 0);
    assert_eq!(step, ImportStep::Done);
    assert_eq!(actions, vec![report(peer(3), Rep::CostUnexpectedMessage), report(peer(3), Rep::BenefitValidMessage)]);
    assert!(state.peer_knows(hash(0), peer(3), MessageFingerprint::Assignment(hash(0), 0, 5)));
}

#[test]
fn check_results_charge_the_peer() {
    let mut state = two_peers_on_one_block();
    let a = assignment(hash(0), 5);
    assert_eq!(
        import_assignment(&mut state, peer(1), a, 0, AssignmentCheckResult::TooFarInFuture),
        vec![report(peer(1), Rep::CostAssignmentTooFarInTheFuture)]
    );
    assert_eq!(
        import_assignment(&mut state, peer(1), a, 0, AssignmentCheckResult::Bad),
        vec![report(peer(1), Rep::CostInvalidMessage)]
    );
    assert_eq!(state.approval_state(hash(0), 0, 5), None);
    let dup = import_assignment(&mut state, peer(1), a, 0, AssignmentCheckResult::AcceptedDuplicate);
    assert_eq!(dup, vec![Action::SendAssignments { peers: vec![peer(2)], assignments: vec![(a, 0)] }]);
    let v = vote(hash(0), 0, 5);
    let (_, _) = state.begin_peer_approval(peer(1), v);
    assert_eq!(
        state.finish_peer_approval(peer(1), v, ApprovalCheckResult::Bad),
        vec![report(peer(1), Rep::CostInvalidMessage)]
    );
    assert_eq!(state.approval_state(hash(0), 0, 5), Some(ApprovalState::Assigned(cert(5))));
}

#[test]
fn reputation_values() {
    assert_eq!(Rep::CostUnexpectedMessage.value(), -100);
    assert_eq!(Rep::CostDuplicateMessage.value(), -100);
    assert_eq!(Rep::CostAssignmentTooFarInTheFuture.value(), -10);
    assert_eq!(Rep::CostInvalidMessage.value(), -500);
    assert_eq!(Rep::BenefitValidMessage.value(), 10);
    assert_eq!(Rep::BenefitValidMessageFirst.value(), 15);
    assert_eq!(Rep::CostInvalidMessage.reason(), "The vote was bad");
}

#[test]
fn add_block_skips_tracked_and_parentless() {
    let mut state = State::new();
    assert!(!track(&mut state, meta(hash(0), 1, 2), None));
    assert!(!state.is_tracked(hash(0)));
    assert!(track(&mut state, meta(hash(0), 1, 2), Some(hash(9))));
    assert!(!track(&mut state, meta(hash(0), 7, 2), Some(hash(9))));
    assert_eq!(state.blocks_numbered(1), vec![hash(0)]);
    assert!(state.blocks_numbered(7).is_empty());
}

#[test]
fn new_blocks_reach_peers_with_them_in_view() {
    let mut state = State::new();
    state.peer_connected(peer(1));
    state.peer_connected(peer(2));
    assert!(state.peer_view_change(peer(1), view(vec![hash(1)], 0)).is_empty());
    assert!(state.peer_view_change(peer(2), view(vec![hash(7)], 0)).is_empty());
    assert!(track(&mut state, meta(hash(0), 1, 1), Some(hash(100))));
    assert!(track(&mut state, meta(hash(1), 2, 1), Some(hash(0))));
    let actions = state.unify_new_blocks(&vec![hash(0), hash(1)]);
    assert!(actions.is_empty());
    assert!(state.peer_has_block(hash(0), peer(1)));
    assert!(state.peer_has_block(hash(1), peer(1)));
    assert!(!state.peer_has_block(hash(0), peer(2)));
    assert!(!state.peer_has_block(hash(1), peer(2)));
    let a = assignment(hash(1), 1);
    assert_eq!(
        state.distribute_assignment(a, 0),
        vec![Action::SendAssignments { peers: vec![peer(1), peer(2)], assignments: vec![(a, 0)] }]
    );
}

#[test]
fn peer_view_change_forgets_finalized_blocks() {
    let mut state = two_peers_on_one_block();
    assert!(track(&mut state, meta(hash(1), 2, 0), Some(hash(0))));
    state.peer_view_change(peer(1), view(vec![hash(1)], 1));
    assert!(!state.peer_has_block(hash(0), peer(1)));
    assert!(state.peer_has_block(hash(1), peer(1)));
    assert!(state.peer_has_block(hash(0), peer(2)));
}

#[test]
fn unification_sends_approvals_after_assignments() {
    let mut state = State::new();
    assert!(track(&mut state, meta(hash(0), 1, 1), Some(hash(100))));
    let a = assignment(hash(0), 4);
    let v = vote(hash(0), 0, 4);
    state.distribute_assignment(a, 0);
    assert_eq!(state.distribute_approval(v), vec![Action::SendApprovals { peers: vec![], approvals: vec![v] }]);
    let actions = state.unify_with_peer(peer(5), &view(vec![hash(0)], 0));
    assert_eq!(
        actions,
        vec![
            Action::SendAssignments { peers: vec![peer(5)], assignments: vec![(a, 0)] },
            Action::SendApprovals { peers: vec![peer(5)], approvals: vec![v] },
        ]
    );
    assert!(state.distribute_approval(vote(hash(0), 3, 4)).is_empty());
}

#[test]
fn subsystem_starts_empty() {
    let subsystem = ApprovalDistribution::new(Metrics::registered());
    assert!(subsystem.metrics.registered);
    let state = subsystem.initial_state();
    assert!(!state.is_tracked(hash(0)));
    assert!(!state.is_connected(peer(0)));
    assert!(!Metrics::unregistered().registered);
    assert_eq!(Metrics::default(), Metrics::unregistered());
}

#[test]
fn new_block_has_no_candidates() {
    let mut state = State::new();
    assert!(state.add_block(&meta(hash(0), 1, 3), Some(hash(100))));
    state.peer_connected(peer(1));
    let a = assignment(hash(0), 2);
    assert!(state.distribute_assignment(a, 0).is_empty());
    assert!(!state.knows(hash(0), MessageFingerprint::Assignment(hash(0), 0, 2)));
    assert!(state.add_candidate(hash(0), 0));
    assert!(!state.add_candidate(hash(5), 0));
    assert_eq!(state.distribute_assignment(a, 0).len(), 1);
    assert_eq!(state.approval_state(hash(0), 0, 2), Some(ApprovalState::Assigned(cert(2))));
}

#[test]
fn assignment_for_absent_candidate_not_circulated() {
    let mut state = two_peers_on_one_block();
    let a = assignment(hash(0), 5);
    let actions = import_assignment(&mut state, peer(1), a, 4, AssignmentCheckResult::Accepted);
    assert_eq!(actions, vec![report(peer(1), Rep::BenefitValidMessageFirst)]);
    let f = MessageFingerprint::Assignment(hash(0), 4, 5);
    assert!(!state.knows(hash(0), f));
    assert!(!state.peer_knows(hash(0), peer(2), f));
    assert!(import_assignment(&mut state, peer(2), a, 4, AssignmentCheckResult::AcceptedDuplicate).is_empty());
}

#[test]
fn unification_walks_back_through_parents() {
    let mut state = State::new();
    assert!(track(&mut state, meta(hash(0), 1, 1), Some(hash(100))));
    assert!(track(&mut state, meta(hash(1), 2, 1), Some(hash(0))));
    assert!(track(&mut state, meta(hash(2), 3, 1), Some(hash(1))));
    let a = assignment(hash(1), 3);
    state.distribute_assignment(a, 0);
    let actions = state.unify_with_peer(peer(1), &view(vec![hash(2)], 2));
    assert_eq!(actions, vec![Action::SendAssignments { peers: vec![peer(1)], assignments: vec![(a, 0)] }]);
    assert!(state.peer_has_block(hash(2), peer(1)));
    assert!(state.peer_has_block(hash(1), peer(1)));
    assert!(!state.peer_has_block(hash(0), peer(1)));
}

#[test]
fn new_blocks_unify_only_added_ones() {
    let mut state = State::new();
    assert!(track(&mut state, meta(hash(0), 1, 1), Some(hash(100))));
    let a = assignment(hash(0), 1);
    state.distribute_assignment(a, 0);
    state.peer_connected(peer(1));
    state.peer_connected(peer(2));
    assert!(state.peer_view_change(peer(1), view(vec![hash(1)], 0)).is_empty());
    assert!(state.peer_view_change(peer(2), view(vec![hash(0)], 0)).len() == 1);
    let actions = state.handle_new_blocks(
        &vec![meta(hash(0), 1, 0), meta(hash(1), 2, 0), meta(hash(3), 4, 0)],
        &vec![None, Some(hash(0)), None],
    );
    assert_eq!(actions, vec![Action::SendAssignments { peers: vec![peer(1)], assignments: vec![(a, 0)] }]);
    assert!(state.is_tracked(hash(1)));
    assert!(!state.is_tracked(hash(3)));
    assert!(state.peer_has_block(hash(1), peer(1)));
    assert!(state.peer_has_block(hash(0), peer(1)));
}

#[test]
fn connected_peer_starts_with_empty_view() {
    let mut state = State::new();
    state.peer_connected(peer(4));
    assert_eq!(state.peer_views.len(), 1);
    assert_eq!(state.peer_views[0].peer, peer(4));
    assert_eq!(state.peer_views[0].view, view(vec![], 0));
    state.peer_connected(peer(5));
    state.peer_view_change(peer(5), view(vec![hash(3)], 2));
    assert_eq!(state.peer_views[0].view, view(vec![], 0));
    assert_eq!(state.peer_views[1].view, view(vec![hash(3)], 2));
    state.peer_disconnected(peer(4));
    assert_eq!(state.peer_views.len(), 1);
    assert_eq!(state.peer_views[0].view, view(vec![hash(3)], 2));
}

#[test]
fn repeated_view_change_sends_nothing() {
    let mut state = State::new();
    assert!(track(&mut state, meta(hash(0), 1, 1), Some(hash(100))));
    assert!(track(&mut state, meta(hash(1), 2, 1), Some(hash(0))));
    let a = assignment(hash(1), 2);
    state.distribute_assignment(a, 0);
    state.peer_connected(peer(1));
    let v = view(vec![hash(1)], 1);
    assert_eq!(state.peer_view_change(peer(1), v.clone()).len(), 1);
    assert!(state.peer_view_change(peer(1), v.clone()).is_empty());
    assert!(state.peer_has_block(hash(1), peer(1)));
    assert!(!state.peer_has_block(hash(0), peer(1)));
    assert_eq!(state.peer_views.len(), 1);
    assert_eq!(state.peer_views[0].view, v);
}
