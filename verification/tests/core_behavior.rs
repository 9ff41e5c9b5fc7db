//! Behavioral tests for the pool, the per-fork states, the registry's
//! event handling, the facade's error taxonomy, and the lossy channel.

use bundle_builder_core::channel::{EventChannel, RecvOutcome};
use bundle_builder_core::pool::TransactionPool;
use bundle_builder_core::service::{AdmissionHook, BuilderConfig, ProxyGlobalState};
use bundle_builder_core::state::BuilderState;
use bundle_builder_core::types::{
    BuildError, BuilderStateId, Commitment, DaProposalInfo, Event, ParentBlockReferences,
    QuorumProposalInfo, Transaction,
};
use committable::{Committable, RawCommitmentBuilder};

struct Payload(Vec<u8>);

impl Committable for Payload {
    fn commit(&self) -> committable::Commitment<Self> {
        RawCommitmentBuilder::new("Txn Comm")
            .var_size_bytes(&self.0)
            .finalize()
    }
}

fn tx(payload: Vec<u8>) -> Transaction {
    let raw: [u8; 32] = Payload(payload.clone()).commit().into();
    let word = |i: usize| u64::from_le_bytes(raw[i * 8..i * 8 + 8].try_into().unwrap());
    Transaction::new(
        payload,
        Commitment {
            w0: word(0),
            w1: word(1),
            w2: word(2),
            w3: word(3),
        },
    )
}

fn digest(tag: u64) -> Commitment {
    Commitment {
        w0: tag,
        w1: tag.wrapping_mul(31),
        w2: tag.wrapping_add(7),
        w3: !tag,
    }
}

fn new_proxy() -> ProxyGlobalState {
    ProxyGlobalState::new(BuilderConfig::new(8, usize::MAX), AdmissionHook::NoHooks)
}

/// Registers a builder state for `view` extending `extends` by feeding
/// the proposal pair through the event channel.
fn register_fork(
    proxy: &mut ProxyGlobalState,
    view: u64,
    leaf: Commitment,
    extends: BuilderStateId,
    tx_count: u64,
) {
    let mut chan = EventChannel::new(4);
    chan.send(Event::NewDaProposal {
        da: DaProposalInfo {
            view,
            builder_commitment: digest(900 + view),
            tx_count,
        },
    });
    chan.send(Event::NewQuorumProposal {
        quorum: QuorumProposalInfo {
            view,
            leaf_commit: leaf,
            vid_commitment: digest(800 + view),
            builder_commitment: digest(900 + view),
            parent_view: extends.parent_view,
            parent_leaf_commit: extends.parent_commitment,
        },
    });
    proxy.process_events(&mut chan);
}

fn genesis_id() -> BuilderStateId {
    BuilderStateId {
        parent_view: 0,
        parent_commitment: digest(0),
    }
}

fn payloads(b: bundle_builder_core::types::Bundle) -> Vec<Vec<u8>> {
    b.transactions.into_iter().map(|t| t.payload).collect()
}

#[test]
fn pool_dedup_and_order() {
    let mut pool = TransactionPool::new();
    let commits = pool.submit(vec![tx(vec![1]), tx(vec![2]), tx(vec![1]), tx(vec![3])]);
    // one commitment per submitted transaction, in input order
    assert_eq!(commits.len(), 4);
    assert_eq!(commits[0], commits[2]);
    assert_ne!(commits[0], commits[1]);
    // the duplicate was not re-appended
    assert_eq!(pool.len(), 3);
    let all = pool.pending_since(0);
    assert_eq!(all[0].payload, vec![1]);
    assert_eq!(all[1].payload, vec![2]);
    assert_eq!(all[2].payload, vec![3]);
    // re-reading from a cursor after more submissions yields an extension
    let tail_before = pool.pending_since(1).len();
    pool.submit(vec![tx(vec![4])]);
    let tail_after = pool.pending_since(1);
    assert_eq!(tail_after.len(), tail_before + 1);
    assert_eq!(tail_after[tail_after.len() - 1].payload, vec![4]);
    // an empty submission is a no-op
    pool.submit(Vec::new());
    assert_eq!(pool.len(), 4);
}

#[test]
fn state_serves_in_pool_order_up_to_budget() {
    let mut pool = TransactionPool::new();
    pool.submit(vec![tx(vec![1]), tx(vec![2]), tx(vec![3])]);
    let refs = ParentBlockReferences {
        view_number: 5,
        leaf_commit: digest(5),
        vid_commitment: digest(6),
        builder_commitment: digest(7),
        tx_count: 0,
        last_nonempty_view: None,
    };
    let mut st = BuilderState::new(refs, 0, 2);
    // wrong successor view is rejected
    assert_eq!(
        st.serve_bundle(5, &pool).unwrap_err(),
        BuildError::ViewMismatch
    );
    // budget caps the bundle at two transactions
    let b = st.serve_bundle(6, &pool).unwrap();
    assert_eq!(payloads(b), vec![vec![1], vec![2]]);
}

#[test]
fn genesis_bundle_is_empty() {
    let mut proxy = new_proxy();
    let leaf = digest(1001);
    register_fork(&mut proxy, 0, leaf, genesis_id(), 0);
    let b = proxy.bundle(0, leaf, 1).unwrap();
    assert_eq!(b.transactions.len(), 0);
}

#[test]
fn idempotent_rerequest() {
    let mut proxy = new_proxy();
    proxy
        .submit_txns(vec![tx(vec![10]), tx(vec![11])])
        .unwrap();
    let leaf = digest(1001);
    register_fork(&mut proxy, 0, leaf, genesis_id(), 2);
    let first = payloads(proxy.bundle(0, leaf, 1).unwrap());
    let second = payloads(proxy.bundle(0, leaf, 1).unwrap());
    assert_eq!(first, vec![vec![10], vec![11]]);
    assert_eq!(first, second);
}

#[test]
fn dedup_across_submissions() {
    let mut proxy = new_proxy();
    proxy.submit_txns(vec![tx(vec![42]), tx(vec![42])]).unwrap();
    proxy.submit_txns(vec![tx(vec![42]), tx(vec![7])]).unwrap();
    let leaf = digest(1001);
    register_fork(&mut proxy, 0, leaf, genesis_id(), 2);
    // the twice-submitted payload appears exactly once in the bundle
    let served = payloads(proxy.bundle(0, leaf, 1).unwrap());
    assert_eq!(served, vec![vec![42], vec![7]]);
}

#[test]
fn fork_isolation() {
    let mut proxy = new_proxy();
    proxy.submit_txns(vec![tx(vec![1]), tx(vec![2])]).unwrap();
    // two forks extend the same (unknown) parent at the same view
    let leaf_a = digest(1001);
    let leaf_b = digest(1002);
    register_fork(&mut proxy, 3, leaf_a, genesis_id(), 2);
    register_fork(&mut proxy, 3, leaf_b, genesis_id(), 2);
    // serving fork A does not advance fork B's cursor: both serve all
    let from_a = payloads(proxy.bundle(3, leaf_a, 4).unwrap());
    let from_b = payloads(proxy.bundle(3, leaf_b, 4).unwrap());
    assert_eq!(from_a, vec![vec![1], vec![2]]);
    assert_eq!(from_b, from_a);
}

#[test]
fn pruning_on_decide() {
    let mut proxy = new_proxy();
    let leaf0 = digest(1000);
    let leaf1 = digest(1001);
    let leaf2 = digest(1002);
    register_fork(&mut proxy, 0, leaf0, genesis_id(), 0);
    register_fork(
        &mut proxy,
        1,
        leaf1,
        BuilderStateId {
            parent_view: 0,
            parent_commitment: leaf0,
        },
        0,
    );
    register_fork(
        &mut proxy,
        2,
        leaf2,
        BuilderStateId {
            parent_view: 1,
            parent_commitment: leaf1,
        },
        0,
    );
    let mut chan = EventChannel::new(4);
    chan.send(Event::Decide { decided_view: 1 });
    proxy.process_events(&mut chan);
    // everything at or below the decided view is unreachable
    assert_eq!(
        proxy.bundle(0, leaf0, 1).unwrap_err(),
        BuildError::UnknownParent
    );
    assert_eq!(
        proxy.bundle(1, leaf1, 2).unwrap_err(),
        BuildError::UnknownParent
    );
    // the frontier above the decided view stays servable
    assert!(proxy.bundle(2, leaf2, 3).is_ok());
    // stale proposals at or below the decided view are not re-created
    register_fork(&mut proxy, 1, leaf1, genesis_id(), 0);
    assert_eq!(
        proxy.bundle(1, leaf1, 2).unwrap_err(),
        BuildError::UnknownParent
    );
}

#[test]
fn unknown_parent() {
    let mut proxy = new_proxy();
    assert_eq!(
        proxy.bundle(9, digest(77), 10).unwrap_err(),
        BuildError::UnknownParent
    );
}

#[test]
fn view_mismatch() {
    let mut proxy = new_proxy();
    let leaf = digest(1001);
    register_fork(&mut proxy, 4, leaf, genesis_id(), 0);
    assert_eq!(
        proxy.bundle(4, leaf, 4).unwrap_err(),
        BuildError::ViewMismatch
    );
    assert_eq!(
        proxy.bundle(4, leaf, 6).unwrap_err(),
        BuildError::ViewMismatch
    );
    assert!(proxy.bundle(4, leaf, 5).is_ok());
}

#[test]
fn admission_hook_rejects_whole_batch() {
    let mut proxy = ProxyGlobalState::new(
        BuilderConfig::new(8, usize::MAX),
        AdmissionHook::MaxPayloadBytes(1),
    );
    // one oversized payload vetoes the batch; nothing is stored
    assert_eq!(
        proxy
            .submit_txns(vec![tx(vec![1]), tx(vec![2, 3])])
            .unwrap_err(),
        BuildError::PoolRejected
    );
    let leaf = digest(1001);
    register_fork(&mut proxy, 0, leaf, genesis_id(), 0);
    assert_eq!(proxy.bundle(0, leaf, 1).unwrap().transactions.len(), 0);
    // a batch within the cap passes
    assert!(proxy.submit_txns(vec![tx(vec![9])]).is_ok());
}

#[test]
fn empty_submission_is_ok() {
    let mut proxy = new_proxy();
    let commits = proxy.submit_txns(Vec::new()).unwrap();
    assert_eq!(commits.len(), 0);
}

#[test]
fn out_of_order_proposal_halves_still_pair() {
    let mut proxy = new_proxy();
    proxy.submit_txns(vec![tx(vec![5])]).unwrap();
    let leaf = digest(1001);
    let mut chan = EventChannel::new(4);
    // quorum half arrives before the DA half
    chan.send(Event::NewQuorumProposal {
        quorum: QuorumProposalInfo {
            view: 0,
            leaf_commit: leaf,
            vid_commitment: digest(800),
            builder_commitment: digest(900),
            parent_view: 0,
            parent_leaf_commit: digest(0),
        },
    });
    proxy.process_events(&mut chan);
    // not yet paired: the fork is unknown
    assert_eq!(
        proxy.bundle(0, leaf, 1).unwrap_err(),
        BuildError::UnknownParent
    );
    chan.send(Event::NewDaProposal {
        da: DaProposalInfo {
            view: 0,
            builder_commitment: digest(900),
            tx_count: 1,
        },
    });
    proxy.process_events(&mut chan);
    assert_eq!(payloads(proxy.bundle(0, leaf, 1).unwrap()), vec![vec![5]]);
}

#[test]
fn channel_drops_oldest_and_reports_lag() {
    let mut chan = EventChannel::new(2);
    chan.send(Event::Decide { decided_view: 1 });
    chan.send(Event::Decide { decided_view: 2 });
    chan.send(Event::Decide { decided_view: 3 });
    // the oldest event was dropped and the loss is reported first
    match chan.recv() {
        RecvOutcome::Lagged(n) => assert_eq!(n, 1),
        _ => panic!("expected a lag signal"),
    }
    match chan.recv() {
        RecvOutcome::Received(Event::Decide { decided_view }) => assert_eq!(decided_view, 2),
        _ => panic!("expected the second event"),
    }
    match chan.recv() {
        RecvOutcome::Received(Event::Decide { decided_view }) => assert_eq!(decided_view, 3),
        _ => panic!("expected the third event"),
    }
    match chan.recv() {
        RecvOutcome::Empty => {},
        _ => panic!("expected an empty channel"),
    }
}

#[test]
fn lag_is_counted_and_non_fatal() {
    let mut proxy = new_proxy();
    let mut chan = EventChannel::new(1);
    let leaf = digest(1001);
    chan.send(Event::Decide { decided_view: 0 });
    chan.send(Event::NewDaProposal {
        da: DaProposalInfo {
            view: 5,
            builder_commitment: digest(905),
            tx_count: 0,
        },
    });
    proxy.process_events(&mut chan);
    assert_eq!(proxy.global.missed_events(), 1);
    // the loop keeps consuming: the surviving half still pairs later
    chan.send(Event::NewQuorumProposal {
        quorum: QuorumProposalInfo {
            view: 5,
            leaf_commit: leaf,
            vid_commitment: digest(805),
            builder_commitment: digest(905),
            parent_view: 0,
            parent_leaf_commit: digest(0),
        },
    });
    proxy.process_events(&mut chan);
    assert!(proxy.bundle(5, leaf, 6).is_ok());
}

#[test]
fn closed_channel_degrades_gracefully() {
    let mut proxy = new_proxy();
    proxy.submit_txns(vec![tx(vec![8])]).unwrap();
    let leaf = digest(1001);
    register_fork(&mut proxy, 0, leaf, genesis_id(), 1);
    let mut chan = EventChannel::new(4);
    chan.close();
    proxy.process_events(&mut chan);
    assert!(proxy.global.is_event_source_closed());
    // existing registered states remain servable
    assert_eq!(payloads(proxy.bundle(0, leaf, 1).unwrap()), vec![vec![8]]);
}

#[test]
fn find_returns_registered_state() {
    let mut proxy = new_proxy();
    let leaf = digest(1001);
    register_fork(&mut proxy, 2, leaf, genesis_id(), 3);
    let st = proxy.global.find(2, leaf).unwrap();
    assert_eq!(st.parent.view_number, 2);
    assert_eq!(st.parent.tx_count, 3);
    assert_eq!(st.parent.last_nonempty_view, Some(2));
    assert!(proxy.global.find(2, digest(999)).is_none());
}

#[test]
fn reproposal_of_same_fork_is_idempotent() {
    let mut proxy = new_proxy();
    proxy.submit_txns(vec![tx(vec![1])]).unwrap();
    let leaf = digest(1001);
    register_fork(&mut proxy, 0, leaf, genesis_id(), 1);
    let first = payloads(proxy.bundle(0, leaf, 1).unwrap());
    assert_eq!(first, vec![vec![1]]);
    // the same proposal pair arrives again: the fork identifier is
    // already registered, so the state (and its cursor) is untouched
    proxy.submit_txns(vec![tx(vec![2])]).unwrap();
    register_fork(&mut proxy, 0, leaf, genesis_id(), 1);
    let second = payloads(proxy.bundle(0, leaf, 1).unwrap());
    assert_eq!(second, first);
}
