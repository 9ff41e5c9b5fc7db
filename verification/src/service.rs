//! The facade callers talk to: transaction submission (guarded by a
//! pluggable admission hook) and bundle retrieval, plus the event loop
//! that drains the consensus channel into the registry.

use vstd::prelude::*;
use crate::types::{Bundle, BuildError, Commitment, Event, Transaction, TxModel};
use crate::pool::submit_result;
use crate::registry::{bundle_model, saturating_add_u64, step, GlobalModel, GlobalState};
use crate::channel::{EventChannel, RecvOutcome};

verus! {

/// The admission capability: one narrow `on_submit` decision, with a
/// default accept-everything variant and a payload-size cap as an
/// alternative policy, selected at construction time.
#[derive(Clone, Copy)]
pub enum AdmissionHook {
    /// Admit every transaction.
    NoHooks,
    /// Admit only payloads of at most this many bytes.
    MaxPayloadBytes(usize),
}

impl AdmissionHook {
    /// Whether the hook accepts a transaction.
    pub open spec fn admits(self, t: TxModel) -> bool {
        match self {
            AdmissionHook::NoHooks => true,
            AdmissionHook::MaxPayloadBytes(n) => t.payload.len() <= n,
        }
    }

    /// The hook's decision on one transaction.
    pub fn on_submit(&self, t: &Transaction) -> (r: bool)
        ensures
            r == self.admits(t@),
    {
        match self {
            AdmissionHook::NoHooks => true,
            AdmissionHook::MaxPayloadBytes(n) => t.payload.len() <= *n,
        }
    }
}

/// Whether the hook admits every transaction of the batch.
pub open spec fn all_admitted(hook: AdmissionHook, batch: Seq<TxModel>) -> bool {
    forall|i: int| 0 <= i < batch.len() ==> hook.admits(#[trigger] batch[i])
}

/// The configuration surface of the core: the event channel's capacity
/// and the serving budget (the largest number of transactions one
/// bundle may carry).
#[derive(Clone, Copy)]
pub struct BuilderConfig {
    pub channel_capacity: usize,
    pub serving_budget: usize,
}

impl BuilderConfig {
    /// A configuration from its two knobs.
    pub fn new(channel_capacity: usize, serving_budget: usize) -> (r: BuilderConfig)
        requires
            channel_capacity >= 1,
        ensures
            r.channel_capacity == channel_capacity,
            r.serving_budget == serving_budget,
    {
        BuilderConfig { channel_capacity, serving_budget }
    }
}

/// The model after consuming a sequence of events, oldest first.
pub open spec fn run_events(m: GlobalModel, evs: Seq<Event>) -> GlobalModel
    decreases evs.len(),
{
    if evs.len() == 0 {
        m
    } else {
        run_events(step(m, evs[0]), evs.drop_first())
    }
}

/// One event step neither reads nor writes the lag counter and the
/// closed flag.
proof fn lemma_step_frame(m: GlobalModel, ev: Event, x: u64, c: bool)
    ensures
        step(GlobalModel { missed_events: x, event_source_closed: c, ..m }, ev) == (GlobalModel {
            missed_events: x,
            event_source_closed: c,
            ..step(m, ev)
        }),
{
}

/// Consuming a whole event sequence neither reads nor writes the lag
/// counter and the closed flag.
proof fn lemma_run_events_frame(m: GlobalModel, evs: Seq<Event>, x: u64, c: bool)
    ensures
        run_events(GlobalModel { missed_events: x, event_source_closed: c, ..m }, evs)
            == (GlobalModel { missed_events: x, event_source_closed: c, ..run_events(m, evs) }),
    decreases evs.len(),
{
    if evs.len() > 0 {
        lemma_step_frame(m, evs[0], x, c);
        lemma_run_events_frame(step(m, evs[0]), evs.drop_first(), x, c);
    }
}

/// The facade over the shared core: submission and bundle retrieval,
/// with the admission hook chosen at construction.
pub struct ProxyGlobalState {
    pub global: GlobalState,
    pub hook: AdmissionHook,
}

impl ProxyGlobalState {
    /// A facade over a fresh, empty core.
    pub fn new(config: BuilderConfig, hook: AdmissionHook) -> (r: ProxyGlobalState)
        ensures
            r.global.wf(),
            r.global@.registry.len() == 0,
            r.global@.pool.len() == 0,
            r.global@.pending_da.len() == 0,
            r.global@.pending_quorum.len() == 0,
            r.global@.last_decided_view is None,
            r.global@.budget == config.serving_budget,
            r.global@.missed_events == 0,
            !r.global@.event_source_closed,
            r.hook == hook,
    {
        ProxyGlobalState { global: GlobalState::new(config.serving_budget), hook }
    }

    /// Submits a batch of transactions.
    ///
    /// If the admission hook vetoes any transaction the whole batch is
    /// rejected with `PoolRejected` and nothing is stored — never a
    /// partial silent drop.  Otherwise the batch is appended to the
    /// shared pool in submission order, deduplicated by commitment, and
    /// the call returns every submitted transaction's commitment in
    /// input order; once accepted, no transaction is ever dropped from
    /// the pool.  An empty batch succeeds and changes nothing.
    pub fn submit_txns(&mut self, txns: Vec<Transaction>) -> (r: Result<
        Vec<Commitment>,
        BuildError,
    >)
        requires
            old(self).global.wf(),
        ensures
            final(self).global.wf(),
            final(self).hook == old(self).hook,
            !all_admitted(old(self).hook, txns@.map(|i: int, t: Transaction| t@)) ==> (r matches
                Err(e) && e == BuildError::PoolRejected && final(self).global@ == old(
                self,
            ).global@),
            all_admitted(old(self).hook, txns@.map(|i: int, t: Transaction| t@)) ==> (r matches Ok(
                cs,
            ) && cs@ == txns@.map(|i: int, t: Transaction| t@.commitment) && final(self).global@
                == (GlobalModel {
                pool: submit_result(
                    old(self).global@.pool,
                    txns@.map(|i: int, t: Transaction| t@),
                ),
                ..old(self).global@
            })),
    {
        let ghost bm = txns@.map(|i: int, t: Transaction| t@);
        let mut i: usize = 0;
        while i < txns.len()
            invariant
                i <= txns@.len(),
                bm == txns@.map(|k: int, t: Transaction| t@),
                forall|j: int| 0 <= j < i ==> self.hook.admits(#[trigger] bm[j]),
                self == old(self),
                self.global.wf(),
            decreases txns.len() - i,
        {
            if !self.hook.on_submit(&txns[i]) {
                proof {
                    assert(!self.hook.admits(bm[i as int]));
                }
                return Err(BuildError::PoolRejected);
            }
            i = i + 1;
        }
        let r = self.global.submit(txns);
        Ok(r)
    }

    /// Requests the bundle for fork point `(parent_view,
    /// parent_commitment)` and proposed view `requested_view`.
    ///
    /// Fails with `UnknownParent` when no builder state is registered
    /// for that fork point, with `ViewMismatch` when the requested view
    /// is not `parent_view + 1`; otherwise serves the registered
    /// state's bundle (see `GlobalState::bundle`).  The core answers
    /// immediately; a service layer that wants to cover the race where
    /// a request arrives just before its proposal event may retry an
    /// `UnknownParent` answer until its configured lookup timeout.
    pub fn bundle(&mut self, parent_view: u64, parent_commitment: Commitment, requested_view: u64)
        -> (r: Result<Bundle, BuildError>)
        requires
            old(self).global.wf(),
        ensures
            final(self).global.wf(),
            final(self).hook == old(self).hook,
            final(self).global@ == bundle_model(
                old(self).global@,
                parent_view,
                parent_commitment,
                requested_view,
            ).0,
            match r {
                Ok(b) => bundle_model(
                    old(self).global@,
                    parent_view,
                    parent_commitment,
                    requested_view,
                ).1 == Ok::<Seq<TxModel>, BuildError>(b@),
                Err(e) => bundle_model(
                    old(self).global@,
                    parent_view,
                    parent_commitment,
                    requested_view,
                ).1 == Err::<Seq<TxModel>, BuildError>(e),
            },
    {
        self.global.bundle(parent_view, parent_commitment, requested_view)
    }

    /// Drains every deliverable event from the channel into the
    /// registry, oldest first: a pending lag signal is absorbed into
    /// the lag counter (a recoverable staleness window, not a failure),
    /// and a closed channel marks the event source terminated, after
    /// which the registry stops evolving but stays servable.
    pub fn process_events(&mut self, chan: &mut EventChannel)
        requires
            old(self).global.wf(),
            old(chan).wf(),
        ensures
            final(self).global.wf(),
            final(chan).wf(),
            final(self).hook == old(self).hook,
            final(chan)@.queue.len() == 0,
            final(chan)@.missed == 0,
            final(chan)@.closed == old(chan)@.closed,
            final(chan)@.capacity == old(chan)@.capacity,
            final(self).global@ == (GlobalModel {
                missed_events: saturating_add_u64(
                    old(self).global@.missed_events,
                    old(chan)@.missed,
                ),
                event_source_closed: old(self).global@.event_source_closed || old(chan)@.closed,
                ..run_events(old(self).global@, old(chan)@.queue)
            }),
    {
        let ghost target: GlobalModel = GlobalModel {
            missed_events: saturating_add_u64(old(self).global@.missed_events, old(chan)@.missed),
            event_source_closed: old(self).global@.event_source_closed || old(chan)@.closed,
            ..run_events(old(self).global@, old(chan)@.queue)
        };
        proof {
            lemma_run_events_frame(
                old(self).global@,
                old(chan)@.queue,
                saturating_add_u64(old(self).global@.missed_events, old(chan)@.missed),
                old(self).global@.event_source_closed || old(chan)@.closed,
            );
        }
        loop
            invariant
                target == (GlobalModel {
                    missed_events: saturating_add_u64(
                        old(self).global@.missed_events,
                        old(chan)@.missed,
                    ),
                    event_source_closed: old(self).global@.event_source_closed
                        || old(chan)@.closed,
                    ..run_events(old(self).global@, old(chan)@.queue)
                }),
                self.global.wf(),
                chan.wf(),
                self.hook == old(self).hook,
                chan@.closed == old(chan)@.closed,
                chan@.capacity == old(chan)@.capacity,
                target == (GlobalModel {
                    missed_events: saturating_add_u64(self.global@.missed_events, chan@.missed),
                    event_source_closed: self.global@.event_source_closed || chan@.closed,
                    ..run_events(self.global@, chan@.queue)
                }),
            decreases chan@.queue.len() + (if chan@.missed > 0 { 1int } else { 0 }),
        {
            let ghost g0 = self.global@;
            let ghost c0 = chan@;
            match chan.recv() {
                RecvOutcome::Lagged(n) => {
                    self.global.note_lag(n);
                    proof {
                        lemma_run_events_frame(
                            g0,
                            c0.queue,
                            saturating_add_u64(g0.missed_events, c0.missed),
                            g0.event_source_closed || c0.closed,
                        );
                        lemma_run_events_frame(
                            self.global@,
                            chan@.queue,
                            saturating_add_u64(self.global@.missed_events, chan@.missed),
                            self.global@.event_source_closed || chan@.closed,
                        );
                    }
                },
                RecvOutcome::Received(ev) => {
                    self.global.handle_event(ev);
                    proof {
                        lemma_run_events_frame(
                            g0,
                            c0.queue,
                            saturating_add_u64(g0.missed_events, c0.missed),
                            g0.event_source_closed || c0.closed,
                        );
                        lemma_run_events_frame(
                            self.global@,
                            chan@.queue,
                            saturating_add_u64(self.global@.missed_events, chan@.missed),
                            self.global@.event_source_closed || chan@.closed,
                        );
                        assert(c0.queue.drop_first() =~= chan@.queue);
                    }
                },
                RecvOutcome::Empty => {
                    proof {
                        assert(chan@.missed == 0 && chan@.queue.len() == 0 && !chan@.closed);
                        assert(run_events(self.global@, chan@.queue) == self.global@);
                        assert(saturating_add_u64(self.global@.missed_events, 0)
                            == self.global@.missed_events);
                        assert(target == self.global@);
                    }
                    return;
                },
                RecvOutcome::Closed => {
                    proof {
                        assert(chan@.missed == 0 && chan@.queue.len() == 0 && chan@.closed);
                        assert(run_events(g0, c0.queue) == g0);
                        assert(saturating_add_u64(g0.missed_events, 0) == g0.missed_events);
                        assert(target == (GlobalModel { event_source_closed: true, ..g0 }));
                    }
                    self.global.note_event_source_closed();
                    return;
                },
            }
        }
    }
}

} // verus!
