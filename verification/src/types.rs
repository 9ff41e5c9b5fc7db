//! Plain data carried through the builder core.
//!
//! Cryptographic commitments are opaque, collision-resistant digests
//! computed outside this library (by the consensus stack); the core only
//! stores and compares them, so a digest is held here as four plain
//! 64-bit words of the 256-bit value.

use vstd::prelude::*;

verus! {

/// An opaque 256-bit content digest, as four little-endian 64-bit words.
/// Equality is content equality; the core never derives one itself.
#[derive(Clone, Copy, PartialEq, Eq, Structural, Debug)]
pub struct Commitment {
    pub w0: u64,
    pub w1: u64,
    pub w2: u64,
    pub w3: u64,
}

/// The registry key of one fork point: two proposals extending the same
/// parent at the same view map to the same id.
#[derive(Clone, Copy, PartialEq, Eq, Structural, Debug)]
pub struct BuilderStateId {
    pub parent_view: u64,
    pub parent_commitment: Commitment,
}

/// The minimal description of the block a builder state builds on top
/// of.  Immutable once constructed.
#[derive(Clone, Copy, Debug)]
pub struct ParentBlockReferences {
    pub view_number: u64,
    pub leaf_commit: Commitment,
    pub vid_commitment: Commitment,
    pub builder_commitment: Commitment,
    pub tx_count: u64,
    pub last_nonempty_view: Option<u64>,
}

impl ParentBlockReferences {
    /// The registry key under which a state with these references lives.
    pub open spec fn spec_id(self) -> BuilderStateId {
        BuilderStateId { parent_view: self.view_number, parent_commitment: self.leaf_commit }
    }

    /// Builds the registry key for a state with these references.
    pub fn id(&self) -> (r: BuilderStateId)
        ensures
            r == self.spec_id(),
    {
        BuilderStateId { parent_view: self.view_number, parent_commitment: self.leaf_commit }
    }
}

/// An opaque transaction payload together with its externally derived
/// content commitment, the identity under which the pool deduplicates.
#[derive(Debug)]
pub struct Transaction {
    pub payload: Vec<u8>,
    pub commitment: Commitment,
}

/// The mathematical model of a transaction.
pub struct TxModel {
    pub payload: Seq<u8>,
    pub commitment: Commitment,
}

impl View for Transaction {
    type V = TxModel;

    open spec fn view(&self) -> TxModel {
        TxModel { payload: self.payload@, commitment: self.commitment }
    }
}

impl Transaction {
    /// Wraps a payload and the digest derived for it by the external
    /// commitment function.
    pub fn new(payload: Vec<u8>, commitment: Commitment) -> (r: Transaction)
        ensures
            r@.payload == payload@,
            r@.commitment == commitment,
    {
        Transaction { payload, commitment }
    }

    /// A copy with the same payload bytes and commitment.
    pub fn duplicate(&self) -> (r: Transaction)
        ensures
            r@ == self@,
    {
        let mut bytes: Vec<u8> = Vec::new();
        let mut i: usize = 0;
        while i < self.payload.len()
            invariant
                i <= self.payload.len(),
                bytes@ == self.payload@.take(i as int),
            decreases self.payload.len() - i,
        {
            bytes.push(self.payload[i]);
            i = i + 1;
        }
        proof {
            assert(bytes@ == self.payload@);
        }
        Transaction { payload: bytes, commitment: self.commitment }
    }
}

/// The ordered transaction batch served for one requested view.
#[derive(Debug)]
pub struct Bundle {
    pub transactions: Vec<Transaction>,
}

impl View for Bundle {
    type V = Seq<TxModel>;

    open spec fn view(&self) -> Seq<TxModel> {
        self.transactions@.map(|i: int, t: Transaction| t@)
    }
}

/// Caller-facing failures of the facade.
#[derive(Clone, Copy, PartialEq, Eq, Structural, Debug)]
pub enum BuildError {
    /// The requested view is not the direct successor of the parent view.
    ViewMismatch,
    /// No builder state is registered for the requested fork point.
    UnknownParent,
    /// The admission hook vetoed the submission; nothing was stored.
    PoolRejected,
}

/// The data-availability half of a proposal: what the registry reads
/// from a DA proposal event.
#[derive(Clone, Copy)]
pub struct DaProposalInfo {
    pub view: u64,
    pub builder_commitment: Commitment,
    pub tx_count: u64,
}

/// The quorum half of a proposal: what the registry reads from a quorum
/// proposal event, including which fork point the proposal extends.
#[derive(Clone, Copy)]
pub struct QuorumProposalInfo {
    pub view: u64,
    pub leaf_commit: Commitment,
    pub vid_commitment: Commitment,
    pub builder_commitment: Commitment,
    pub parent_view: u64,
    pub parent_leaf_commit: Commitment,
}

/// One consensus event consumed by the registry's event loop.
#[derive(Clone, Copy)]
pub enum Event {
    NewDaProposal { da: DaProposalInfo },
    NewQuorumProposal { quorum: QuorumProposalInfo },
    Decide { decided_view: u64 },
}

} // verus!
