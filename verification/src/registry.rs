//! The global registry: the fork tree of builder states, the shared
//! pool, and the event-driven logic that spawns, forks, and prunes
//! states as consensus proposals and decide notifications arrive.

use vstd::prelude::*;
use crate::types::{
    Bundle, BuildError, BuilderStateId, Commitment, DaProposalInfo, Event, ParentBlockReferences,
    QuorumProposalInfo, Transaction, TxModel,
};
use crate::pool::{distinct_commitments, submit_result, TransactionPool};
use crate::state::BuilderState;

verus! {

/// One registry slot: a live builder state under its fork identifier.
#[derive(Clone, Copy)]
pub struct RegistryEntry {
    pub id: BuilderStateId,
    pub state: BuilderState,
}

/// The mathematical model of the whole builder core.
pub struct GlobalModel {
    pub registry: Seq<RegistryEntry>,
    pub pool: Seq<TxModel>,
    pub pending_da: Seq<DaProposalInfo>,
    pub pending_quorum: Seq<QuorumProposalInfo>,
    pub last_decided_view: Option<u64>,
    pub budget: usize,
    pub missed_events: u64,
    pub event_source_closed: bool,
}

/// Whether some slot of `reg` carries the fork identifier `id`.
pub open spec fn registered(reg: Seq<RegistryEntry>, id: BuilderStateId) -> bool {
    exists|i: int| 0 <= i < reg.len() && reg[i].id == id
}

/// The slot of `id` in `reg` (meaningful only when registered; unique
/// under the registry invariant).
pub open spec fn slot_of(reg: Seq<RegistryEntry>, id: BuilderStateId) -> int {
    choose|i: int| 0 <= i < reg.len() && reg[i].id == id
}

/// Whether a DA proposal for view `v` is pending.
pub open spec fn da_pending(s: Seq<DaProposalInfo>, v: u64) -> bool {
    exists|i: int| 0 <= i < s.len() && s[i].view == v
}

/// The position of the pending DA proposal for view `v`.
pub open spec fn da_slot(s: Seq<DaProposalInfo>, v: u64) -> int {
    choose|i: int| 0 <= i < s.len() && s[i].view == v
}

/// Whether a quorum proposal for view `v` is pending.
pub open spec fn quorum_pending(s: Seq<QuorumProposalInfo>, v: u64) -> bool {
    exists|i: int| 0 <= i < s.len() && s[i].view == v
}

/// The position of the pending quorum proposal for view `v`.
pub open spec fn quorum_slot(s: Seq<QuorumProposalInfo>, v: u64) -> int {
    choose|i: int| 0 <= i < s.len() && s[i].view == v
}

/// The registry after a decide event finalizing view `d`: every state
/// whose parent view is at most `d` is removed (decided if on the
/// finalized chain, orphaned otherwise); the frontier above `d` stays,
/// in order.
pub open spec fn prune(reg: Seq<RegistryEntry>, d: u64) -> Seq<RegistryEntry>
    decreases reg.len(),
{
    if reg.len() == 0 {
        Seq::empty()
    } else {
        let rest = prune(reg.drop_last(), d);
        if reg.last().id.parent_view > d {
            rest.push(reg.last())
        } else {
            rest
        }
    }
}

/// The references of the block a matched proposal pair describes, the
/// block a freshly spawned state will build on.
pub open spec fn pair_references(
    da: DaProposalInfo,
    quorum: QuorumProposalInfo,
    parent_last_nonempty: Option<u64>,
) -> ParentBlockReferences {
    ParentBlockReferences {
        view_number: quorum.view,
        leaf_commit: quorum.leaf_commit,
        vid_commitment: quorum.vid_commitment,
        builder_commitment: da.builder_commitment,
        tx_count: da.tx_count,
        last_nonempty_view: if da.tx_count > 0 {
            Some(quorum.view)
        } else {
            parent_last_nonempty
        },
    }
}

/// The model after the registry observes a matched DA + quorum pair:
/// a new state is spawned for the proposed block unless its fork
/// identifier is already registered (idempotent fork identity) or the
/// proposal is stale (at or below the last decided view).  The new
/// state's cursor is seeded from the parent state's cursor at fork
/// time, or from pool position zero when the parent is unknown.
pub open spec fn spawn_from_pair(
    m: GlobalModel,
    da: DaProposalInfo,
    quorum: QuorumProposalInfo,
) -> GlobalModel {
    let id = BuilderStateId { parent_view: quorum.view, parent_commitment: quorum.leaf_commit };
    let extends = BuilderStateId {
        parent_view: quorum.parent_view,
        parent_commitment: quorum.parent_leaf_commit,
    };
    let stale = match m.last_decided_view {
        Some(d) => quorum.view <= d,
        None => false,
    };
    if stale || registered(m.registry, id) {
        m
    } else {
        let known = registered(m.registry, extends);
        let base = if known {
            m.registry[slot_of(m.registry, extends)].state.cursor
        } else {
            0
        };
        let parent_last_nonempty = if known {
            m.registry[slot_of(m.registry, extends)].state.parent.last_nonempty_view
        } else {
            None
        };
        let state = BuilderState {
            parent: pair_references(da, quorum, parent_last_nonempty),
            base,
            cursor: base,
            served: false,
            budget: m.budget,
        };
        GlobalModel { registry: m.registry.push(RegistryEntry { id, state }), ..m }
    }
}

/// The model after one consensus event.
pub open spec fn step(m: GlobalModel, ev: Event) -> GlobalModel {
    match ev {
        Event::NewDaProposal { da } => {
            if quorum_pending(m.pending_quorum, da.view) {
                let q = m.pending_quorum[quorum_slot(m.pending_quorum, da.view)];
                let m1 = GlobalModel {
                    pending_quorum: m.pending_quorum.remove(
                        quorum_slot(m.pending_quorum, da.view),
                    ),
                    ..m
                };
                spawn_from_pair(m1, da, q)
            } else if da_pending(m.pending_da, da.view) {
                m
            } else {
                GlobalModel { pending_da: m.pending_da.push(da), ..m }
            }
        },
        Event::NewQuorumProposal { quorum } => {
            if da_pending(m.pending_da, quorum.view) {
                let da = m.pending_da[da_slot(m.pending_da, quorum.view)];
                let m1 = GlobalModel {
                    pending_da: m.pending_da.remove(da_slot(m.pending_da, quorum.view)),
                    ..m
                };
                spawn_from_pair(m1, da, quorum)
            } else if quorum_pending(m.pending_quorum, quorum.view) {
                m
            } else {
                GlobalModel { pending_quorum: m.pending_quorum.push(quorum), ..m }
            }
        },
        Event::Decide { decided_view } => {
            let new_last = match m.last_decided_view {
                Some(d) => if d >= decided_view {
                    d
                } else {
                    decided_view
                },
                None => decided_view,
            };
            GlobalModel {
                registry: prune(m.registry, decided_view),
                last_decided_view: Some(new_last),
                ..m
            }
        },
    }
}

/// Registry well-formedness, the invariant every operation preserves.
pub open spec fn model_wf(m: GlobalModel) -> bool {
    &&& distinct_commitments(m.pool)
    &&& forall|i: int, j: int|
        0 <= i < j < m.registry.len() ==> m.registry[i].id != m.registry[j].id
    &&& forall|i: int|
        0 <= i < m.registry.len() ==> (#[trigger] m.registry[i]).state.wf()
            && m.registry[i].state.cursor <= m.pool.len() && m.registry[i].id
            == m.registry[i].state.spec_id() && m.registry[i].state.budget == m.budget
    &&& forall|i: int, j: int|
        0 <= i < j < m.pending_da.len() ==> m.pending_da[i].view != m.pending_da[j].view
    &&& forall|i: int, j: int|
        0 <= i < j < m.pending_quorum.len() ==> m.pending_quorum[i].view
            != m.pending_quorum[j].view
    &&& m.last_decided_view matches Some(d) ==> forall|i: int|
        0 <= i < m.registry.len() ==> (#[trigger] m.registry[i]).id.parent_view > d
}

} // verus!

verus! {

/// `slot_of` returns the one slot that carries `id` when slots are
/// pairwise distinct.
pub proof fn lemma_slot_unique(reg: Seq<RegistryEntry>, id: BuilderStateId, i: int)
    requires
        forall|a: int, b: int| 0 <= a < b < reg.len() ==> reg[a].id != reg[b].id,
        0 <= i < reg.len(),
        reg[i].id == id,
    ensures
        registered(reg, id),
        slot_of(reg, id) == i,
{
    assert(registered(reg, id));
    let j = slot_of(reg, id);
    if j < i {
        assert(reg[j].id != reg[i].id);
    } else if j > i {
        assert(reg[i].id != reg[j].id);
    }
}

/// `da_slot` returns the one slot pending for view `v` when pending
/// views are pairwise distinct.
pub proof fn lemma_da_slot_unique(s: Seq<DaProposalInfo>, v: u64, i: int)
    requires
        forall|a: int, b: int| 0 <= a < b < s.len() ==> s[a].view != s[b].view,
        0 <= i < s.len(),
        s[i].view == v,
    ensures
        da_pending(s, v),
        da_slot(s, v) == i,
{
    assert(da_pending(s, v));
    let j = da_slot(s, v);
    if j < i {
        assert(s[j].view != s[i].view);
    } else if j > i {
        assert(s[i].view != s[j].view);
    }
}

/// `quorum_slot` returns the one slot pending for view `v` when pending
/// views are pairwise distinct.
pub proof fn lemma_quorum_slot_unique(s: Seq<QuorumProposalInfo>, v: u64, i: int)
    requires
        forall|a: int, b: int| 0 <= a < b < s.len() ==> s[a].view != s[b].view,
        0 <= i < s.len(),
        s[i].view == v,
    ensures
        quorum_pending(s, v),
        quorum_slot(s, v) == i,
{
    assert(quorum_pending(s, v));
    let j = quorum_slot(s, v);
    if j < i {
        assert(s[j].view != s[i].view);
    } else if j > i {
        assert(s[i].view != s[j].view);
    }
}

/// What a decide event leaves registered: exactly the slots above the
/// decided view, unchanged and in their old order's relative positions.
pub proof fn lemma_prune_properties(reg: Seq<RegistryEntry>, d: u64)
    requires
        forall|a: int, b: int| 0 <= a < b < reg.len() ==> reg[a].id != reg[b].id,
    ensures
        forall|a: int, b: int|
            0 <= a < b < prune(reg, d).len() ==> prune(reg, d)[a].id != prune(reg, d)[b].id,
        forall|k: int|
            0 <= k < prune(reg, d).len() ==> reg.contains(#[trigger] prune(reg, d)[k])
                && prune(reg, d)[k].id.parent_view > d,
        forall|j: int|
            0 <= j < reg.len() && (#[trigger] reg[j]).id.parent_view > d ==> prune(reg, d).contains(
                reg[j],
            ),
    decreases reg.len(),
{
    if reg.len() > 0 {
        assert forall|a: int, b: int|
            0 <= a < b < reg.drop_last().len() implies reg.drop_last()[a].id
            != reg.drop_last()[b].id by {
            assert(reg.drop_last()[a] == reg[a] && reg.drop_last()[b] == reg[b]);
        }
        lemma_prune_properties(reg.drop_last(), d);
        let rest = prune(reg.drop_last(), d);
        assert forall|a: int, b: int|
            0 <= a < b < prune(reg, d).len() implies prune(reg, d)[a].id != prune(
            reg,
            d,
        )[b].id by {
            if b == rest.len() && prune(reg, d).len() == rest.len() + 1 {
                assert(prune(reg, d)[b] == reg.last());
                assert(rest[a] == prune(reg, d)[a]);
                assert(reg.drop_last().contains(rest[a]));
                let j = choose|j: int|
                    0 <= j < reg.drop_last().len() && reg.drop_last()[j] == rest[a];
                assert(reg[j] == rest[a]);
                assert(reg[j].id != reg[reg.len() - 1].id);
            }
        }
        assert forall|k: int|
            0 <= k < prune(reg, d).len() implies reg.contains(#[trigger] prune(reg, d)[k])
            && prune(reg, d)[k].id.parent_view > d by {
            if k < rest.len() {
                assert(rest[k] == prune(reg, d)[k]);
                let j = choose|j: int| 0 <= j < reg.drop_last().len() && reg.drop_last()[j] == rest[k];
                assert(reg[j] == rest[k]);
            } else {
                assert(prune(reg, d)[k] == reg.last());
                assert(reg[reg.len() - 1] == reg.last());
            }
        }
        assert forall|j: int|
            0 <= j < reg.len() && (#[trigger] reg[j]).id.parent_view > d implies prune(
            reg,
            d,
        ).contains(reg[j]) by {
            if j < reg.len() - 1 {
                assert(reg.drop_last()[j] == reg[j]);
                assert(rest.contains(reg[j]));
                let k = choose|k: int| 0 <= k < rest.len() && rest[k] == reg[j];
                if reg.last().id.parent_view > d {
                    assert(prune(reg, d)[k] == reg[j]);
                } else {
                    assert(prune(reg, d)[k] == reg[j]);
                }
            } else {
                assert(prune(reg, d).last() == reg.last());
            }
        }
    }
}

/// An id registered after pruning was registered before, under the same
/// state; an id at or below the decided view is never registered after
/// pruning.
pub proof fn lemma_prune_registered(reg: Seq<RegistryEntry>, d: u64, id: BuilderStateId)
    requires
        forall|a: int, b: int| 0 <= a < b < reg.len() ==> reg[a].id != reg[b].id,
    ensures
        id.parent_view <= d ==> !registered(prune(reg, d), id),
        registered(prune(reg, d), id) ==> registered(reg, id) && prune(reg, d)[slot_of(
            prune(reg, d),
            id,
        )] == reg[slot_of(reg, id)],
        registered(reg, id) && id.parent_view > d ==> registered(prune(reg, d), id),
{
    lemma_prune_properties(reg, d);
    let pr = prune(reg, d);
    if registered(pr, id) {
        let k = slot_of(pr, id);
        assert(pr[k].id == id && reg.contains(pr[k]));
        if id.parent_view <= d {
            assert(false);
        }
        let j = choose|j: int| 0 <= j < reg.len() && reg[j] == pr[k];
        lemma_slot_unique(reg, id, j);
    }
    if registered(reg, id) && id.parent_view > d {
        let j = slot_of(reg, id);
        assert(pr.contains(reg[j]));
        let k = choose|k: int| 0 <= k < pr.len() && pr[k] == reg[j];
        assert(pr[k].id == id);
    }
}

/// The fork tree, its shared pool, and the event-consumption logic.
///
/// The registry invariant: at most one live state per fork identifier;
/// every live state is well formed against the pool; after a decide for
/// view `d`, only states strictly above `d` remain.
pub struct GlobalState {
    registry: Vec<RegistryEntry>,
    pool: TransactionPool,
    pending_da: Vec<DaProposalInfo>,
    pending_quorum: Vec<QuorumProposalInfo>,
    last_decided_view: Option<u64>,
    budget: usize,
    missed_events: u64,
    event_source_closed: bool,
}

impl View for GlobalState {
    type V = GlobalModel;

    closed spec fn view(&self) -> GlobalModel {
        GlobalModel {
            registry: self.registry@,
            pool: self.pool@,
            pending_da: self.pending_da@,
            pending_quorum: self.pending_quorum@,
            last_decided_view: self.last_decided_view,
            budget: self.budget,
            missed_events: self.missed_events,
            event_source_closed: self.event_source_closed,
        }
    }
}

impl GlobalState {
    /// The registry invariant (see `model_wf`), plus the pool's own.
    pub open spec fn wf(&self) -> bool {
        model_wf(self@) && self.pool_wf()
    }

    /// The pool invariant restated on the concrete pool so that callers
    /// of `submit` can rely on it.
    pub closed spec fn pool_wf(&self) -> bool {
        self.pool.wf()
    }

    /// An empty core: no states, no pool, no pending proposals, nothing
    /// decided; `budget` is the serving budget handed to every state.
    pub fn new(budget: usize) -> (r: GlobalState)
        ensures
            r.wf(),
            r@.registry == Seq::<RegistryEntry>::empty(),
            r@.pool == Seq::<TxModel>::empty(),
            r@.pending_da == Seq::<DaProposalInfo>::empty(),
            r@.pending_quorum == Seq::<QuorumProposalInfo>::empty(),
            r@.last_decided_view is None,
            r@.budget == budget,
            r@.missed_events == 0,
            !r@.event_source_closed,
    {
        let r = GlobalState {
            registry: Vec::new(),
            pool: TransactionPool::new(),
            pending_da: Vec::new(),
            pending_quorum: Vec::new(),
            last_decided_view: None,
            budget,
            missed_events: 0,
            event_source_closed: false,
        };
        proof {
            assert(r@.registry =~= Seq::<RegistryEntry>::empty());
            assert(r@.pending_da =~= Seq::<DaProposalInfo>::empty());
            assert(r@.pending_quorum =~= Seq::<QuorumProposalInfo>::empty());
        }
        r
    }

    /// The slot holding `id`, if any.
    fn find_slot(&self, id: &BuilderStateId) -> (r: Option<usize>)
        requires
            self.wf(),
        ensures
            match r {
                Some(i) => i < self@.registry.len() && self@.registry[i as int].id == *id
                    && slot_of(self@.registry, *id) == i && registered(self@.registry, *id),
                None => !registered(self@.registry, *id),
            },
    {
        let mut i: usize = 0;
        while i < self.registry.len()
            invariant
                self.wf(),
                i <= self@.registry.len(),
                self.registry@.len() == self@.registry.len(),
                forall|j: int| 0 <= j < i ==> self@.registry[j].id != *id,
            decreases self.registry.len() - i,
        {
            if self.registry[i].id == *id {
                proof {
                    lemma_slot_unique(self@.registry, *id, i as int);
                }
                return Some(i);
            }
            i = i + 1;
        }
        None
    }

    /// Exact-match lookup of the live state for a fork point, a copy of
    /// the registered state or nothing; no view-range search.
    pub fn find(&self, parent_view: u64, parent_commitment: Commitment) -> (r: Option<
        BuilderState,
    >)
        requires
            self.wf(),
        ensures
            ({
                let id = BuilderStateId { parent_view, parent_commitment };
                match r {
                    Some(s) => registered(self@.registry, id) && s == self@.registry[slot_of(
                        self@.registry,
                        id,
                    )].state,
                    None => !registered(self@.registry, id),
                }
            }),
    {
        let id = BuilderStateId { parent_view, parent_commitment };
        match self.find_slot(&id) {
            Some(i) => Some(self.registry[i].state),
            None => None,
        }
    }

    /// Appends the batch to the shared pool (deduplicated, in order;
    /// see `TransactionPool::submit`) and returns each submitted
    /// transaction's commitment in input order.  Registered states and
    /// everything else are untouched; no pooled transaction is ever
    /// dropped or reordered.
    pub fn submit(&mut self, batch: Vec<Transaction>) -> (r: Vec<Commitment>)
        requires
            old(self).wf(),
        ensures
            final(self).wf(),
            final(self)@ == (GlobalModel {
                pool: submit_result(
                    old(self)@.pool,
                    batch@.map(|i: int, t: Transaction| t@),
                ),
                ..old(self)@
            }),
            r@ == batch@.map(|i: int, t: Transaction| t@.commitment),
            old(self)@.pool.len() <= final(self)@.pool.len(),
            final(self)@.pool.subrange(0, old(self)@.pool.len() as int) == old(self)@.pool,
    {
        let ghost m0 = self@;
        let r = self.pool.submit(batch);
        proof {
            assert forall|i: int| 0 <= i < self@.registry.len() implies (#[trigger] self@.registry[i]).state.wf()
                && self@.registry[i].state.cursor <= self@.pool.len() && self@.registry[i].id
                == self@.registry[i].state.spec_id() && self@.registry[i].state.budget == self@.budget by {
                assert(m0.registry[i].state.cursor <= m0.pool.len());
            }
        }
        r
    }
}

} // verus!

verus! {

/// `a + b`, capped at the largest 64-bit value.
pub open spec fn saturating_add_u64(a: u64, b: u64) -> u64 {
    if a + b <= u64::MAX {
        (a + b) as u64
    } else {
        u64::MAX
    }
}

/// The outcome of one bundle request on the model: the next model and
/// either the served transactions or the exact error.
pub open spec fn bundle_model(
    m: GlobalModel,
    parent_view: u64,
    parent_commitment: Commitment,
    requested_view: u64,
) -> (GlobalModel, Result<Seq<TxModel>, BuildError>) {
    let id = BuilderStateId { parent_view, parent_commitment };
    if !registered(m.registry, id) {
        (m, Err(BuildError::UnknownParent))
    } else {
        let i = slot_of(m.registry, id);
        let s0 = m.registry[i].state;
        if !s0.answers_for(requested_view) {
            (m, Err(BuildError::ViewMismatch))
        } else {
            let s1 = s0.after_serve(m.pool.len());
            let m1 = GlobalModel {
                registry: m.registry.update(i, RegistryEntry { id, state: s1 }),
                ..m
            };
            (m1, Ok(m.pool.subrange(s1.base as int, s1.cursor as int)))
        }
    }
}


impl GlobalState {
    /// The slot of the pending DA proposal for view `v`, if any.
    fn find_pending_da(&self, v: u64) -> (r: Option<usize>)
        requires
            self.wf(),
        ensures
            match r {
                Some(i) => i < self@.pending_da.len() && self@.pending_da[i as int].view == v
                    && da_slot(self@.pending_da, v) == i && da_pending(self@.pending_da, v),
                None => !da_pending(self@.pending_da, v),
            },
    {
        let mut i: usize = 0;
        while i < self.pending_da.len()
            invariant
                self.wf(),
                i <= self@.pending_da.len(),
                self.pending_da@.len() == self@.pending_da.len(),
                forall|j: int| 0 <= j < i ==> self@.pending_da[j].view != v,
            decreases self.pending_da.len() - i,
        {
            if self.pending_da[i].view == v {
                proof {
                    lemma_da_slot_unique(self@.pending_da, v, i as int);
                }
                return Some(i);
            }
            i = i + 1;
        }
        None
    }

    /// The slot of the pending quorum proposal for view `v`, if any.
    fn find_pending_quorum(&self, v: u64) -> (r: Option<usize>)
        requires
            self.wf(),
        ensures
            match r {
                Some(i) => i < self@.pending_quorum.len() && self@.pending_quorum[i as int].view
                    == v && quorum_slot(self@.pending_quorum, v) == i && quorum_pending(
                    self@.pending_quorum,
                    v,
                ),
                None => !quorum_pending(self@.pending_quorum, v),
            },
    {
        let mut i: usize = 0;
        while i < self.pending_quorum.len()
            invariant
                self.wf(),
                i <= self@.pending_quorum.len(),
                self.pending_quorum@.len() == self@.pending_quorum.len(),
                forall|j: int| 0 <= j < i ==> self@.pending_quorum[j].view != v,
            decreases self.pending_quorum.len() - i,
        {
            if self.pending_quorum[i].view == v {
                proof {
                    lemma_quorum_slot_unique(self@.pending_quorum, v, i as int);
                }
                return Some(i);
            }
            i = i + 1;
        }
        None
    }

    /// Matches a DA proposal against a pending quorum proposal for the
    /// same view, or parks it.
    fn handle_da(&mut self, da: DaProposalInfo)
        requires
            old(self).wf(),
        ensures
            final(self).wf(),
            final(self)@ == step(old(self)@, Event::NewDaProposal { da }),
    {
        let ghost m0 = self@;
        match self.find_pending_quorum(da.view) {
            Some(i) => {
                let q = self.pending_quorum[i];
                self.pending_quorum.remove(i);
                proof {
                    assert forall|a: int, b: int|
                        0 <= a < b < self@.pending_quorum.len() implies self@.pending_quorum[a].view
                        != self@.pending_quorum[b].view by {
                        assert(self@.pending_quorum[a] == if a < i {
                            m0.pending_quorum[a]
                        } else {
                            m0.pending_quorum[a + 1]
                        });
                        assert(self@.pending_quorum[b] == if b < i {
                            m0.pending_quorum[b]
                        } else {
                            m0.pending_quorum[b + 1]
                        });
                    }
                }
                self.spawn_pair(da, q);
            },
            None => {
                match self.find_pending_da(da.view) {
                    Some(_slot) => {},
                    None => {
                        self.pending_da.push(da);
                        proof {
                            assert forall|a: int, b: int|
                                0 <= a < b < self@.pending_da.len() implies self@.pending_da[a].view
                                != self@.pending_da[b].view by {
                                if b == m0.pending_da.len() {
                                    assert(self@.pending_da[a] == m0.pending_da[a]);
                                }
                            }
                        }
                    },
                }
            },
        }
    }

    /// Matches a quorum proposal against a pending DA proposal for the
    /// same view, or parks it.
    fn handle_quorum(&mut self, quorum: QuorumProposalInfo)
        requires
            old(self).wf(),
        ensures
            final(self).wf(),
            final(self)@ == step(old(self)@, Event::NewQuorumProposal { quorum }),
    {
        let ghost m0 = self@;
        match self.find_pending_da(quorum.view) {
            Some(i) => {
                let da = self.pending_da[i];
                self.pending_da.remove(i);
                proof {
                    assert forall|a: int, b: int|
                        0 <= a < b < self@.pending_da.len() implies self@.pending_da[a].view
                        != self@.pending_da[b].view by {
                        assert(self@.pending_da[a] == if a < i {
                            m0.pending_da[a]
                        } else {
                            m0.pending_da[a + 1]
                        });
                        assert(self@.pending_da[b] == if b < i {
                            m0.pending_da[b]
                        } else {
                            m0.pending_da[b + 1]
                        });
                    }
                }
                self.spawn_pair(da, quorum);
            },
            None => {
                match self.find_pending_quorum(quorum.view) {
                    Some(_slot) => {},
                    None => {
                        self.pending_quorum.push(quorum);
                        proof {
                            assert forall|a: int, b: int|
                                0 <= a < b < self@.pending_quorum.len() implies self@.pending_quorum[a].view
                                != self@.pending_quorum[b].view by {
                                if b == m0.pending_quorum.len() {
                                    assert(self@.pending_quorum[a] == m0.pending_quorum[a]);
                                }
                            }
                        }
                    },
                }
            },
        }
    }

    /// Spawns the state for a matched proposal pair (see
    /// `spawn_from_pair`).
    fn spawn_pair(&mut self, da: DaProposalInfo, quorum: QuorumProposalInfo)
        requires
            old(self).wf(),
        ensures
            final(self).wf(),
            final(self)@ == spawn_from_pair(old(self)@, da, quorum),
    {
        let ghost m0 = self@;
        let id = BuilderStateId { parent_view: quorum.view, parent_commitment: quorum.leaf_commit };
        let stale = match self.last_decided_view {
            Some(d) => quorum.view <= d,
            None => false,
        };
        if stale {
            return;
        }
        if let Some(_existing) = self.find_slot(&id) {
            return;
        }
        let extends = BuilderStateId {
            parent_view: quorum.parent_view,
            parent_commitment: quorum.parent_leaf_commit,
        };
        let mut base: usize = 0;
        let mut parent_last_nonempty: Option<u64> = None;
        match self.find_slot(&extends) {
            Some(j) => {
                base = self.registry[j].state.cursor;
                parent_last_nonempty = self.registry[j].state.parent.last_nonempty_view;
            },
            None => {},
        }
        let refs = ParentBlockReferences {
            view_number: quorum.view,
            leaf_commit: quorum.leaf_commit,
            vid_commitment: quorum.vid_commitment,
            builder_commitment: da.builder_commitment,
            tx_count: da.tx_count,
            last_nonempty_view: if da.tx_count > 0 {
                Some(quorum.view)
            } else {
                parent_last_nonempty
            },
        };
        let state = BuilderState { parent: refs, base, cursor: base, served: false, budget: self.budget };
        self.registry.push(RegistryEntry { id, state });
        proof {
            assert(self@.registry =~= m0.registry.push(RegistryEntry { id, state }));
            assert forall|a: int, b: int|
                0 <= a < b < self@.registry.len() implies self@.registry[a].id
                != self@.registry[b].id by {
                if b == m0.registry.len() {
                    assert(self@.registry[a] == m0.registry[a]);
                }
            }
            assert forall|i: int|
                0 <= i < self@.registry.len() implies (#[trigger] self@.registry[i]).state.wf()
                && self@.registry[i].state.cursor <= self@.pool.len() && self@.registry[i].id
                == self@.registry[i].state.spec_id() && self@.registry[i].state.budget
                == self@.budget by {
                if i < m0.registry.len() {
                    assert(self@.registry[i] == m0.registry[i]);
                }
            }
        }
    }

    /// Removes every state finalized or orphaned by a decide event for
    /// `decided_view`, and records the decided frontier.
    fn handle_decide(&mut self, decided_view: u64)
        requires
            old(self).wf(),
        ensures
            final(self).wf(),
            final(self)@ == step(old(self)@, Event::Decide { decided_view }),
    {
        let ghost m0 = self@;
        let mut kept: Vec<RegistryEntry> = Vec::new();
        let mut i: usize = 0;
        proof {
            assert(kept@ =~= prune(m0.registry.take(0), decided_view));
        }
        while i < self.registry.len()
            invariant
                i <= self.registry@.len(),
                self@ == m0,
                kept@ == prune(m0.registry.take(i as int), decided_view),
            decreases self.registry.len() - i,
        {
            let e = self.registry[i];
            proof {
                assert(m0.registry.take(i as int + 1).drop_last() =~= m0.registry.take(i as int));
                assert(m0.registry.take(i as int + 1).last() == m0.registry[i as int]);
            }
            if e.id.parent_view > decided_view {
                kept.push(e);
            }
            i = i + 1;
        }
        proof {
            assert(m0.registry.take(m0.registry.len() as int) =~= m0.registry);
        }
        self.registry = kept;
        let new_last = match self.last_decided_view {
            Some(d) => if d >= decided_view {
                Some(d)
            } else {
                Some(decided_view)
            },
            None => Some(decided_view),
        };
        self.last_decided_view = new_last;
        proof {
            lemma_prune_properties(m0.registry, decided_view);
            assert forall|i: int|
                0 <= i < self@.registry.len() implies (#[trigger] self@.registry[i]).state.wf()
                && self@.registry[i].state.cursor <= self@.pool.len() && self@.registry[i].id
                == self@.registry[i].state.spec_id() && self@.registry[i].state.budget
                == self@.budget by {
                assert(m0.registry.contains(self@.registry[i]));
                let j = choose|j: int|
                    0 <= j < m0.registry.len() && m0.registry[j] == self@.registry[i];
                assert(m0.registry[j].state.wf());
            }
            match self@.last_decided_view {
                Some(dl) => {
                    assert forall|i: int|
                        0 <= i < self@.registry.len() implies (#[trigger] self@.registry[i]).id.parent_view
                        > dl by {
                        assert(m0.registry.contains(self@.registry[i]));
                        let j = choose|j: int|
                            0 <= j < m0.registry.len() && m0.registry[j] == self@.registry[i];
                        assert(m0.registry[j].id.parent_view > decided_view);
                        match m0.last_decided_view {
                            Some(d0) => {
                                assert(m0.registry[j].id.parent_view > d0);
                            },
                            None => {},
                        }
                    }
                },
                None => {},
            }
        }
    }

    /// Applies one consensus event to the registry: proposal halves are
    /// matched into fork spawns, decide events prune the fork tree.
    pub fn handle_event(&mut self, ev: Event)
        requires
            old(self).wf(),
        ensures
            final(self).wf(),
            final(self)@ == step(old(self)@, ev),
    {
        match ev {
            Event::NewDaProposal { da } => self.handle_da(da),
            Event::NewQuorumProposal { quorum } => self.handle_quorum(quorum),
            Event::Decide { decided_view } => self.handle_decide(decided_view),
        }
    }

    /// Records that the event channel dropped `missed` events under
    /// backpressure: a non-fatal, counted condition; registered states
    /// stay valid.
    pub fn note_lag(&mut self, missed: u64)
        requires
            old(self).wf(),
        ensures
            final(self).wf(),
            final(self)@ == (GlobalModel {
                missed_events: saturating_add_u64(old(self)@.missed_events, missed),
                ..old(self)@
            }),
    {
        if self.missed_events <= u64::MAX - missed {
            self.missed_events = self.missed_events + missed;
        } else {
            self.missed_events = u64::MAX;
        }
    }

    /// Records that the event source terminated: the registry stops
    /// evolving, but already-registered states remain servable.
    pub fn note_event_source_closed(&mut self)
        requires
            old(self).wf(),
        ensures
            final(self).wf(),
            final(self)@ == (GlobalModel { event_source_closed: true, ..old(self)@ }),
    {
        self.event_source_closed = true;
    }

    /// How many events the channel reported dropped so far.
    pub fn missed_events(&self) -> (r: u64)
        ensures
            r == self@.missed_events,
    {
        self.missed_events
    }

    /// Whether the event source has terminated.
    pub fn is_event_source_closed(&self) -> (r: bool)
        ensures
            r == self@.event_source_closed,
    {
        self.event_source_closed
    }

    /// Serves a bundle for the fork point `(parent_view,
    /// parent_commitment)` and the proposed `requested_view`.
    ///
    /// Fails with `UnknownParent` when no state is registered for that
    /// fork point, with `ViewMismatch` when the requested view is not
    /// the parent view's direct successor; otherwise delegates to the
    /// registered state's `serve_bundle`.  No other state is touched:
    /// serving one fork never advances a sibling fork's cursor.
    pub fn bundle(&mut self, parent_view: u64, parent_commitment: Commitment, requested_view: u64)
        -> (r: Result<Bundle, BuildError>)
        requires
            old(self).wf(),
        ensures
            final(self).wf(),
            final(self)@ == bundle_model(
                old(self)@,
                parent_view,
                parent_commitment,
                requested_view,
            ).0,
            match r {
                Ok(b) => bundle_model(old(self)@, parent_view, parent_commitment, requested_view).1
                    == Ok::<Seq<TxModel>, BuildError>(b@),
                Err(e) => bundle_model(old(self)@, parent_view, parent_commitment, requested_view).1
                    == Err::<Seq<TxModel>, BuildError>(e),
            },
    {
        let ghost m0 = self@;
        let id = BuilderStateId { parent_view, parent_commitment };
        let slot = self.find_slot(&id);
        match slot {
            None => Err(BuildError::UnknownParent),
            Some(i) => {
                let mut st = self.registry[i].state;
                let served = st.serve_bundle(requested_view, &self.pool);
                match served {
                    Err(e) => {
                        proof {
                            assert(self@ == m0);
                        }
                        Err(e)
                    },
                    Ok(b) => {
                        self.registry.set(i, RegistryEntry { id, state: st });
                        proof {
                            assert(self@.registry =~= m0.registry.update(
                                i as int,
                                RegistryEntry { id, state: st },
                            ));
                            assert forall|a: int, b0: int|
                                0 <= a < b0 < self@.registry.len() implies self@.registry[a].id
                                != self@.registry[b0].id by {
                                if a != i && b0 != i {
                                    assert(self@.registry[a] == m0.registry[a]);
                                    assert(self@.registry[b0] == m0.registry[b0]);
                                }
                            }
                            assert forall|k: int|
                                0 <= k < self@.registry.len() implies (#[trigger] self@.registry[k]).state.wf()
                                && self@.registry[k].state.cursor <= self@.pool.len()
                                && self@.registry[k].id == self@.registry[k].state.spec_id()
                                && self@.registry[k].state.budget == self@.budget by {
                                if k != i {
                                    assert(self@.registry[k] == m0.registry[k]);
                                }
                            }
                            match m0.last_decided_view {
                                Some(d0) => {
                                    assert forall|k: int|
                                        0 <= k < self@.registry.len() implies (
                                    #[trigger] self@.registry[k]).id.parent_view > d0 by {
                                        if k != i {
                                            assert(self@.registry[k] == m0.registry[k]);
                                        } else {
                                            assert(m0.registry[k].id.parent_view > d0);
                                        }
                                    }
                                },
                                None => {},
                            }
                        }
                        Ok(b)
                    },
                }
            },
        }
    }
}

} // verus!
