//! End-to-end simulation: several consensus rounds, each submitting a
//! batch and requesting the next bundle against the previously served
//! parent, must deliver every transaction exactly once and in order.

use bundle_builder_core::channel::EventChannel;
use bundle_builder_core::service::{AdmissionHook, BuilderConfig, ProxyGlobalState};
use bundle_builder_core::types::{
    BuilderStateId, Commitment, DaProposalInfo, Event, QuorumProposalInfo, Transaction,
};
use committable::{Committable, RawCommitmentBuilder};

struct Payload(Vec<u8>);

impl Committable for Payload {
    fn commit(&self) -> committable::Commitment<Self> {
        RawCommitmentBuilder::new("Txn Comm")
            .var_size_bytes(&self.0)
            .finalize()
    }
}

fn tx(payload: Vec<u8>) -> Transaction {
    let raw: [u8; 32] = Payload(payload.clone()).commit().into();
    let word = |i: usize| u64::from_le_bytes(raw[i * 8..i * 8 + 8].try_into().unwrap());
    Transaction::new(
        payload,
        Commitment {
            w0: word(0),
            w1: word(1),
            w2: word(2),
            w3: word(3),
        },
    )
}

fn digest(tag: u64) -> Commitment {
    Commitment {
        w0: tag,
        w1: tag.wrapping_mul(31),
        w2: tag.wrapping_add(7),
        w3: !tag,
    }
}

/// This test simulates multiple builder states receiving messages from the channels and processing them
#[test]
fn test_builder() {
    // Number of views to simulate
    const NUM_ROUNDS: usize = 5;
    // Number of transactions to submit per round
    const NUM_TXNS_PER_ROUND: usize = 4;

    let mut proxy = ProxyGlobalState::new(
        BuilderConfig::new(1024, usize::MAX),
        AdmissionHook::NoHooks,
    );
    let mut event_stream = EventChannel::new(1024);

    // Transactions to send
    let all_payloads = (0..NUM_ROUNDS)
        .map(|round| {
            (0..NUM_TXNS_PER_ROUND)
                .map(|tx_num| vec![round as u8, tx_num as u8])
                .collect::<Vec<_>>()
        })
        .collect::<Vec<_>>();

    // set up state to track between simulated consensus rounds
    let mut transaction_history: Vec<Vec<u8>> = Vec::new();
    let mut prev_id: Option<BuilderStateId> = None;

    // Simulate NUM_ROUNDS of consensus. First we submit the transactions for this round to the builder,
    // then construct DA and Quorum proposals extending what the builder served in the previous round
    // and request a new bundle.
    for round in 0..NUM_ROUNDS {
        // simulate transactions being submitted to the builder
        let batch: Vec<Transaction> = all_payloads[round].iter().map(|p| tx(p.clone())).collect();
        proxy.submit_txns(batch).unwrap();

        // simulate the consensus round: a proposal pair for this view,
        // extending the fork point served in the previous round
        let view = round as u64;
        let leaf_commit = digest(1000 + view);
        let extends = prev_id.unwrap_or(BuilderStateId {
            parent_view: 0,
            parent_commitment: digest(0),
        });
        event_stream.send(Event::NewDaProposal {
            da: DaProposalInfo {
                view,
                builder_commitment: digest(2000 + view),
                tx_count: NUM_TXNS_PER_ROUND as u64,
            },
        });
        event_stream.send(Event::NewQuorumProposal {
            quorum: QuorumProposalInfo {
                view,
                leaf_commit,
                vid_commitment: digest(3000 + view),
                builder_commitment: digest(2000 + view),
                parent_view: extends.parent_view,
                parent_leaf_commit: extends.parent_commitment,
            },
        });
        proxy.process_events(&mut event_stream);

        // get response
        let bundle = proxy.bundle(view, leaf_commit, round as u64 + 1).unwrap();

        // save transactions to history
        for t in bundle.transactions {
            transaction_history.push(t.payload);
        }
        prev_id = Some(BuilderStateId {
            parent_view: view,
            parent_commitment: leaf_commit,
        });
    }

    // we should've served all transactions submitted, and in correct order
    assert_eq!(
        transaction_history,
        all_payloads.into_iter().flatten().collect::<Vec<_>>()
    );
}
