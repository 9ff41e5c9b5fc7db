//! The global guarantees of the builder core, stated and proved over
//! the models that the executable contracts speak of.

use vstd::prelude::*;
use crate::types::{BuildError, BuilderStateId, Commitment, DaProposalInfo, Event, QuorumProposalInfo, TxModel};
use crate::pool::{distinct_commitments, holds_commitment, submit_result};
use crate::registry::{
    bundle_model, lemma_prune_registered, lemma_slot_unique, model_wf, registered, slot_of,
    spawn_from_pair, step, GlobalModel, RegistryEntry,
};

verus! {

/// Submitting a batch never disturbs what the pool already holds: the
/// old contents stay a prefix, in order.
pub proof fn lemma_submit_append_only(p: Seq<TxModel>, b: Seq<TxModel>)
    ensures
        p.len() <= submit_result(p, b).len(),
        submit_result(p, b).subrange(0, p.len() as int) == p,
    decreases b.len(),
{
    if b.len() > 0 {
        let s1 = if holds_commitment(p, b[0].commitment) {
            p
        } else {
            p.push(b[0])
        };
        lemma_submit_append_only(s1, b.drop_first());
        assert(s1.subrange(0, p.len() as int) =~= p);
        assert(submit_result(s1, b.drop_first()).subrange(0, p.len() as int) =~= submit_result(
            s1,
            b.drop_first(),
        ).subrange(0, s1.len() as int).subrange(0, p.len() as int));
    } else {
        assert(submit_result(p, b).subrange(0, p.len() as int) =~= p);
    }
}

/// Deduplication: however a batch is submitted, commitments stay
/// pairwise distinct in the pool, and every submitted commitment is
/// present afterwards.  Since every bundle is a range of the pool, no
/// bundle can ever carry a submitted-twice payload twice.
pub proof fn lemma_submit_dedup(p: Seq<TxModel>, b: Seq<TxModel>)
    requires
        distinct_commitments(p),
    ensures
        distinct_commitments(submit_result(p, b)),
        forall|k: int|
            0 <= k < b.len() ==> holds_commitment(submit_result(p, b), b[k].commitment),
    decreases b.len(),
{
    if b.len() > 0 {
        let s1 = if holds_commitment(p, b[0].commitment) {
            p
        } else {
            crate::pool::lemma_push_keeps_distinct(p, b[0]);
            p.push(b[0])
        };
        lemma_submit_dedup(s1, b.drop_first());
        lemma_submit_append_only(s1, b.drop_first());
        let res = submit_result(p, b);
        assert(holds_commitment(s1, b[0].commitment)) by {
            if holds_commitment(p, b[0].commitment) {
            } else {
                assert(s1[p.len() as int].commitment == b[0].commitment);
            }
        }
        assert(holds_commitment(res, b[0].commitment)) by {
            let w = choose|i: int| 0 <= i < s1.len() && s1[i].commitment == b[0].commitment;
            assert(res.subrange(0, s1.len() as int)[w] == s1[w]);
            assert(res[w].commitment == b[0].commitment);
        }
        assert forall|k: int|
            0 <= k < b.len() implies holds_commitment(res, b[k].commitment) by {
            if k > 0 {
                assert(b.drop_first()[k - 1] == b[k]);
            }
        }
    }
}

/// Any range of a deduplicated pool is itself free of repeated
/// commitments.
pub proof fn lemma_range_distinct(p: Seq<TxModel>, a: int, b: int)
    requires
        distinct_commitments(p),
        0 <= a <= b <= p.len(),
    ensures
        distinct_commitments(p.subrange(a, b)),
{
}

/// When nothing submitted collides — the submissions' commitments are
/// pairwise distinct and none is already pooled — submission appends
/// the whole batch: the pool becomes exactly the old contents followed
/// by the batch, in submission order, nothing lost, nothing repeated.
pub proof fn lemma_submit_all_new(p: Seq<TxModel>, b: Seq<TxModel>)
    requires
        distinct_commitments(p + b),
    ensures
        submit_result(p, b) == p + b,
    decreases b.len(),
{
    if b.len() == 0 {
        assert(p + b =~= p);
    } else {
        assert(!holds_commitment(p, b[0].commitment)) by {
            if holds_commitment(p, b[0].commitment) {
                let w = choose|i: int| 0 <= i < p.len() && p[i].commitment == b[0].commitment;
                assert((p + b)[w].commitment == (p + b)[p.len() as int].commitment);
            }
        }
        assert(p.push(b[0]) + b.drop_first() =~= p + b);
        lemma_submit_all_new(p.push(b[0]), b.drop_first());
        assert(submit_result(p, b) == submit_result(p.push(b[0]), b.drop_first()));
    }
}

/// The pool after a whole run of submissions, one batch after another.
pub open spec fn run_submissions(p: Seq<TxModel>, batches: Seq<Seq<TxModel>>) -> Seq<TxModel>
    decreases batches.len(),
{
    if batches.len() == 0 {
        p
    } else {
        run_submissions(submit_result(p, batches[0]), batches.drop_first())
    }
}

/// Exactly-once, in-order global intake: when no submission collides
/// with another or with the pool, a run of submissions leaves the pool
/// holding the old contents followed by every batch, flattened, in
/// submission order — no duplicates, no omissions.
pub proof fn theorem_submissions_fill_pool(p: Seq<TxModel>, batches: Seq<Seq<TxModel>>)
    requires
        distinct_commitments(p + batches.flatten()),
    ensures
        run_submissions(p, batches) == p + batches.flatten(),
    decreases batches.len(),
{
    if batches.len() == 0 {
        assert(batches.flatten() =~= Seq::<TxModel>::empty());
        assert(p + batches.flatten() =~= p);
    } else {
        assert(batches.flatten() == batches[0] + batches.drop_first().flatten());
        assert((p + batches[0]) + batches.drop_first().flatten() =~= p + batches.flatten());
        assert(distinct_commitments(p + batches[0])) by {
            let whole = p + batches.flatten();
            assert forall|i: int, j: int|
                0 <= i < j < (p + batches[0]).len() implies (p + batches[0])[i].commitment != (p
                + batches[0])[j].commitment by {
                assert((p + batches[0])[i] == whole[i] && (p + batches[0])[j] == whole[j]);
            }
        }
        lemma_submit_all_new(p, batches[0]);
        theorem_submissions_fill_pool(p + batches[0], batches.drop_first());
    }
}

/// The bundles cut out of a pool by a run of cursor positions: bundle
/// `i` is the pool range between cursor `i` and cursor `i + 1`, which
/// is what consecutive serves deliver when each state's cursor is
/// seeded from its parent's cursor at fork time.
pub open spec fn bundles_at_cuts(pool: Seq<TxModel>, cuts: Seq<int>) -> Seq<Seq<TxModel>> {
    Seq::new((cuts.len() - 1) as nat, |i: int| pool.subrange(cuts[i], cuts[i + 1]))
}

/// Exactly-once, in-order global delivery: a chain of serves whose
/// cursors start at the pool's beginning, never rewind, and end at the
/// pool's end hands out the entire pool, in pool order, with no
/// transaction repeated or skipped — the concatenation of the bundles
/// is the pool itself.
pub proof fn theorem_bundles_cover_pool(pool: Seq<TxModel>, cuts: Seq<int>)
    requires
        cuts.len() >= 1,
        cuts[0] == 0,
        cuts.last() <= pool.len(),
        forall|i: int| 0 <= i < cuts.len() - 1 ==> #[trigger] cuts[i] <= cuts[i + 1],
    ensures
        bundles_at_cuts(pool, cuts).flatten() == pool.subrange(0, cuts.last()),
    decreases cuts.len(),
{
    assert forall|i: int| 0 <= i < cuts.len() implies 0 <= #[trigger] cuts[i] <= cuts.last() by {
        lemma_cuts_monotone(cuts, i);
    }
    if cuts.len() == 1 {
        assert(bundles_at_cuts(pool, cuts) =~= Seq::<Seq<TxModel>>::empty());
        assert(bundles_at_cuts(pool, cuts).flatten() =~= pool.subrange(0, 0));
    } else {
        let pre = cuts.drop_last();
        lemma_cuts_monotone(cuts, cuts.len() - 2);
        theorem_bundles_cover_pool(pool, pre);
        assert(bundles_at_cuts(pool, pre) =~= bundles_at_cuts(pool, cuts).drop_last());
        let bs = bundles_at_cuts(pool, cuts);
        bs.lemma_flatten_and_flatten_alt_are_equivalent();
        bs.drop_last().lemma_flatten_and_flatten_alt_are_equivalent();
        assert(bs.flatten_alt() == bs.drop_last().flatten_alt() + bs.last());
        assert(bs.drop_last().flatten() + bs.last() =~= pool.subrange(0, cuts.last()));
    }
}

/// Every cursor of a monotone run beginning at zero stays between the
/// run's two ends.
proof fn lemma_cuts_monotone(cuts: Seq<int>, i: int)
    requires
        cuts.len() >= 1,
        cuts[0] == 0,
        forall|k: int| 0 <= k < cuts.len() - 1 ==> #[trigger] cuts[k] <= cuts[k + 1],
        0 <= i < cuts.len(),
    ensures
        0 <= cuts[i] <= cuts.last(),
    decreases cuts.len(),
{
    lemma_cuts_sorted(cuts, 0, i);
    lemma_cuts_sorted(cuts, i, cuts.len() - 1);
}

/// Stepwise monotonicity extends to any two positions.
proof fn lemma_cuts_sorted(cuts: Seq<int>, a: int, b: int)
    requires
        forall|k: int| 0 <= k < cuts.len() - 1 ==> #[trigger] cuts[k] <= cuts[k + 1],
        0 <= a <= b < cuts.len(),
    ensures
        cuts[a] <= cuts[b],
    decreases b - a,
{
    if a < b {
        lemma_cuts_sorted(cuts, a, b - 1);
        assert(cuts[b - 1] <= cuts[b]);
    }
}

} // verus!

verus! {

/// Genesis bundle is empty: a bundle request against a registered state
/// whose pool holds no transactions yields an empty transaction
/// sequence.
pub proof fn lemma_genesis_bundle_empty(
    m: GlobalModel,
    parent_view: u64,
    parent_commitment: Commitment,
    requested_view: u64,
)
    requires
        model_wf(m),
        m.pool.len() == 0,
        registered(m.registry, BuilderStateId { parent_view, parent_commitment }),
        m.registry[slot_of(
            m.registry,
            BuilderStateId { parent_view, parent_commitment },
        )].state.answers_for(requested_view),
    ensures
        bundle_model(m, parent_view, parent_commitment, requested_view).1 == Ok::<
            Seq<TxModel>,
            BuildError,
        >(Seq::empty()),
{
    let id = BuilderStateId { parent_view, parent_commitment };
    let i = slot_of(m.registry, id);
    let s0 = m.registry[i].state;
    let s1 = s0.after_serve(m.pool.len());
    assert(s0.cursor == 0 && s0.base == 0);
    assert(s1.base == 0 && s1.cursor == 0);
    assert(m.pool.subrange(0, 0) =~= Seq::<TxModel>::empty());
}

/// Idempotent re-request: asking twice for the same `(parent view,
/// parent commitment, requested view)` without anything in between
/// returns the same transaction sequence both times and leaves the
/// core exactly as after the first request.
pub proof fn lemma_idempotent_rerequest(
    m: GlobalModel,
    parent_view: u64,
    parent_commitment: Commitment,
    requested_view: u64,
)
    requires
        model_wf(m),
    ensures
        bundle_model(
            bundle_model(m, parent_view, parent_commitment, requested_view).0,
            parent_view,
            parent_commitment,
            requested_view,
        ) == bundle_model(m, parent_view, parent_commitment, requested_view),
{
    let id = BuilderStateId { parent_view, parent_commitment };
    if registered(m.registry, id) {
        let i = slot_of(m.registry, id);
        assert(0 <= i < m.registry.len() && m.registry[i].id == id);
        let s0 = m.registry[i].state;
        if s0.answers_for(requested_view) {
            let s1 = s0.after_serve(m.pool.len());
            let m1 = bundle_model(m, parent_view, parent_commitment, requested_view).0;
            assert(m1.registry == m.registry.update(i, RegistryEntry { id, state: s1 }));
            assert forall|a: int, b: int|
                0 <= a < b < m1.registry.len() implies m1.registry[a].id != m1.registry[b].id by {
                assert(m.registry[a].id != m.registry[b].id);
                assert(m1.registry[a].id == m.registry[a].id);
                assert(m1.registry[b].id == m.registry[b].id);
            }
            lemma_slot_unique(m1.registry, id, i);
            assert(s1.served);
            assert(s1.after_serve(m1.pool.len()) == s1);
            assert(m1.registry.update(i, RegistryEntry { id, state: s1 }) =~= m1.registry);
            let m2 = bundle_model(m1, parent_view, parent_commitment, requested_view).0;
            assert(m2 == m1);
        }
    }
}

/// Fork isolation: serving a bundle from one fork point never touches
/// any other registered fork's state — in particular it never advances
/// a sibling fork's cursor.
pub proof fn lemma_fork_isolation(
    m: GlobalModel,
    parent_view: u64,
    parent_commitment: Commitment,
    requested_view: u64,
    other: BuilderStateId,
)
    requires
        model_wf(m),
        other != (BuilderStateId { parent_view, parent_commitment }),
        registered(m.registry, other),
    ensures
        ({
            let m1 = bundle_model(m, parent_view, parent_commitment, requested_view).0;
            registered(m1.registry, other) && m1.registry[slot_of(m1.registry, other)].state
                == m.registry[slot_of(m.registry, other)].state
        }),
{
    let id = BuilderStateId { parent_view, parent_commitment };
    let m1 = bundle_model(m, parent_view, parent_commitment, requested_view).0;
    let j = slot_of(m.registry, other);
    assert(0 <= j < m.registry.len() && m.registry[j].id == other);
    if registered(m.registry, id) {
        let i = slot_of(m.registry, id);
        assert(0 <= i < m.registry.len() && m.registry[i].id == id);
        let s0 = m.registry[i].state;
        if s0.answers_for(requested_view) {
            assert(i != j);
            assert forall|a: int, b: int|
                0 <= a < b < m1.registry.len() implies m1.registry[a].id != m1.registry[b].id by {
                assert(m.registry[a].id != m.registry[b].id);
                assert(m1.registry[a].id == m.registry[a].id);
                assert(m1.registry[b].id == m.registry[b].id);
            }
            assert(m1.registry[j] == m.registry[j]);
            lemma_slot_unique(m1.registry, other, j);
        }
    }
}

/// Pruning on decide: once a decide event finalizes view `d`, every
/// fork point at or below `d` is unreachable — a bundle request for it
/// fails with `UnknownParent` and changes nothing — while every fork
/// strictly above `d` stays registered with its state untouched.
pub proof fn lemma_pruning_on_decide(m: GlobalModel, d: u64, id: BuilderStateId, rv: u64)
    requires
        model_wf(m),
    ensures
        ({
            let m1 = step(m, Event::Decide { decided_view: d });
            &&& id.parent_view <= d ==> !registered(m1.registry, id)
            &&& id.parent_view <= d ==> bundle_model(
                m1,
                id.parent_view,
                id.parent_commitment,
                rv,
            ) == (m1, Err::<Seq<TxModel>, BuildError>(BuildError::UnknownParent))
            &&& id.parent_view > d && registered(m.registry, id) ==> registered(m1.registry, id)
                && m1.registry[slot_of(m1.registry, id)].state == m.registry[slot_of(
                m.registry,
                id,
            )].state
        }),
{
    let m1 = step(m, Event::Decide { decided_view: d });
    lemma_prune_registered(m.registry, d, id);
    assert(id == (BuilderStateId {
        parent_view: id.parent_view,
        parent_commitment: id.parent_commitment,
    }));
}

/// Unknown parent: a bundle request for a fork point that was never
/// registered fails with `UnknownParent` and changes nothing.
pub proof fn lemma_unknown_parent(
    m: GlobalModel,
    parent_view: u64,
    parent_commitment: Commitment,
    requested_view: u64,
)
    requires
        !registered(m.registry, BuilderStateId { parent_view, parent_commitment }),
    ensures
        bundle_model(m, parent_view, parent_commitment, requested_view) == (m, Err::<
            Seq<TxModel>,
            BuildError,
        >(BuildError::UnknownParent)),
{
}

} // verus!

verus! {

/// Ancestor exclusion across forks: a state spawned for a proposal that
/// extends a known parent starts serving exactly where the parent's
/// cursor stands at fork time, so the child never re-serves anything
/// its parent branch already served, and consecutive serves along one
/// chain cut adjacent ranges out of the pool.
pub proof fn lemma_fork_seeds_cursor(
    m: GlobalModel,
    da: DaProposalInfo,
    quorum: QuorumProposalInfo,
)
    requires
        model_wf(m),
        registered(
            m.registry,
            BuilderStateId {
                parent_view: quorum.parent_view,
                parent_commitment: quorum.parent_leaf_commit,
            },
        ),
        !registered(
            m.registry,
            BuilderStateId { parent_view: quorum.view, parent_commitment: quorum.leaf_commit },
        ),
        m.last_decided_view matches Some(d) ==> quorum.view > d,
    ensures
        ({
            let child_id = BuilderStateId {
                parent_view: quorum.view,
                parent_commitment: quorum.leaf_commit,
            };
            let parent_slot = slot_of(
                m.registry,
                BuilderStateId {
                    parent_view: quorum.parent_view,
                    parent_commitment: quorum.parent_leaf_commit,
                },
            );
            let m1 = spawn_from_pair(m, da, quorum);
            &&& registered(m1.registry, child_id)
            &&& m1.registry[slot_of(m1.registry, child_id)].state.base == m.registry[
                parent_slot].state.cursor
            &&& m1.registry[slot_of(m1.registry, child_id)].state.cursor == m1.registry[slot_of(
                m1.registry,
                child_id,
            )].state.base
            &&& !m1.registry[slot_of(m1.registry, child_id)].state.served
        }),
{
    let child_id = BuilderStateId {
        parent_view: quorum.view,
        parent_commitment: quorum.leaf_commit,
    };
    let m1 = spawn_from_pair(m, da, quorum);
    let n = m.registry.len() as int;
    assert(m1.registry[n].id == child_id);
    assert forall|a: int, b: int|
        0 <= a < b < m1.registry.len() implies m1.registry[a].id != m1.registry[b].id by {
        if b < n {
            assert(m1.registry[a] == m.registry[a] && m1.registry[b] == m.registry[b]);
        } else {
            assert(m1.registry[a] == m.registry[a]);
            assert(m.registry[a].id != child_id);
        }
    }
    lemma_slot_unique(m1.registry, child_id, n);
}

} // verus!

verus! {

/// Exactly-once, in-order global delivery: starting from an empty pool,
/// submit any run of batches (no two transactions sharing a commitment)
/// and serve the whole pool through any chain of cursor-adjacent
/// bundles; the concatenation of the served bundles equals the
/// concatenation of the submitted batches — in submission order, with
/// no duplicates and no omissions.
pub proof fn theorem_exactly_once_delivery(batches: Seq<Seq<TxModel>>, cuts: Seq<int>)
    requires
        distinct_commitments(batches.flatten()),
        cuts.len() >= 1,
        cuts[0] == 0,
        cuts.last() == batches.flatten().len(),
        forall|i: int| 0 <= i < cuts.len() - 1 ==> #[trigger] cuts[i] <= cuts[i + 1],
    ensures
        bundles_at_cuts(run_submissions(Seq::empty(), batches), cuts).flatten()
            == batches.flatten(),
{
    let empty = Seq::<TxModel>::empty();
    assert(empty + batches.flatten() =~= batches.flatten());
    theorem_submissions_fill_pool(empty, batches);
    let pool = run_submissions(empty, batches);
    theorem_bundles_cover_pool(pool, cuts);
    assert(pool.subrange(0, cuts.last()) =~= pool);
}

} // verus!

verus! {

/// The model after one consensus round: the round's batch is submitted,
/// the round's proposal pair spawns the round's fork, and the bundle
/// for the fork's successor view is served.
pub open spec fn round_model(
    m: GlobalModel,
    batch: Seq<TxModel>,
    da: DaProposalInfo,
    quorum: QuorumProposalInfo,
) -> GlobalModel {
    let m1 = GlobalModel { pool: submit_result(m.pool, batch), ..m };
    let m2 = spawn_from_pair(m1, da, quorum);
    bundle_model(m2, quorum.view, quorum.leaf_commit, (quorum.view + 1) as u64).0
}

/// The bundle one consensus round serves (empty when the round's
/// request fails).
pub open spec fn round_bundle(
    m: GlobalModel,
    batch: Seq<TxModel>,
    da: DaProposalInfo,
    quorum: QuorumProposalInfo,
) -> Seq<TxModel> {
    let m1 = GlobalModel { pool: submit_result(m.pool, batch), ..m };
    let m2 = spawn_from_pair(m1, da, quorum);
    match bundle_model(m2, quorum.view, quorum.leaf_commit, (quorum.view + 1) as u64).1 {
        Ok(b) => b,
        Err(_) => Seq::empty(),
    }
}

/// The model after a whole run of consensus rounds.
pub open spec fn run_rounds(
    m: GlobalModel,
    batches: Seq<Seq<TxModel>>,
    das: Seq<DaProposalInfo>,
    quorums: Seq<QuorumProposalInfo>,
) -> GlobalModel
    decreases batches.len(),
{
    if batches.len() == 0 {
        m
    } else {
        run_rounds(
            round_model(m, batches[0], das[0], quorums[0]),
            batches.drop_first(),
            das.drop_first(),
            quorums.drop_first(),
        )
    }
}

/// The bundles a whole run of consensus rounds serves, in round order.
pub open spec fn rounds_served(
    m: GlobalModel,
    batches: Seq<Seq<TxModel>>,
    das: Seq<DaProposalInfo>,
    quorums: Seq<QuorumProposalInfo>,
) -> Seq<Seq<TxModel>>
    decreases batches.len(),
{
    if batches.len() == 0 {
        Seq::empty()
    } else {
        seq![round_bundle(m, batches[0], das[0], quorums[0])] + rounds_served(
            round_model(m, batches[0], das[0], quorums[0]),
            batches.drop_first(),
            das.drop_first(),
            quorums.drop_first(),
        )
    }
}

/// Exactly-once, in-order global delivery, end to end over the core's
/// own transition model: in any run of rounds where each round submits
/// a batch, spawns its fork extending the previously served fork, and
/// requests that fork's bundle, every round's bundle is exactly its
/// round's batch — so the concatenation of all served bundles equals
/// the concatenation of all submitted batches, in submission order,
/// with no duplicates and no omissions.
///
/// The premises are the round protocol itself: no two transactions
/// share a commitment, round views are distinct, fresh, and below the
/// largest view, each round extends the previous round's fork (the
/// first extends `prev`, the served frontier, or starts at an empty
/// pool when there is none), nothing was decided meanwhile, and the
/// serving budget covers the run.
pub proof fn theorem_round_trip_delivery(
    m: GlobalModel,
    batches: Seq<Seq<TxModel>>,
    das: Seq<DaProposalInfo>,
    quorums: Seq<QuorumProposalInfo>,
    prev: Option<BuilderStateId>,
)
    requires
        das.len() == batches.len(),
        quorums.len() == batches.len(),
        m.last_decided_view is None,
        forall|a: int, b: int|
            0 <= a < b < m.registry.len() ==> m.registry[a].id != m.registry[b].id,
        forall|i: int, k: int|
            0 <= i < quorums.len() && 0 <= k < m.registry.len() ==> (#[trigger] m.registry[
            k]).id.parent_view != (#[trigger] quorums[i]).view,
        forall|i: int, j: int| 0 <= i < j < quorums.len() ==> quorums[i].view != quorums[j].view,
        forall|i: int| 0 <= i < quorums.len() ==> (#[trigger] quorums[i]).view < u64::MAX,
        forall|i: int|
            1 <= i < quorums.len() ==> (#[trigger] quorums[i]).parent_view == quorums[i - 1].view
                && quorums[i].parent_leaf_commit == quorums[i - 1].leaf_commit,
        match prev {
            Some(p) => registered(m.registry, p) && m.registry[slot_of(
                m.registry,
                p,
            )].state.cursor == m.pool.len() && (batches.len() > 0 ==> quorums[0].parent_view
                == p.parent_view && quorums[0].parent_leaf_commit == p.parent_commitment),
            None => m.pool.len() == 0 && (batches.len() > 0 ==> !registered(
                m.registry,
                BuilderStateId {
                    parent_view: quorums[0].parent_view,
                    parent_commitment: quorums[0].parent_leaf_commit,
                },
            )),
        },
        m.budget >= m.pool.len() + batches.flatten().len(),
        distinct_commitments(m.pool + batches.flatten()),
    ensures
        rounds_served(m, batches, das, quorums) == batches,
        rounds_served(m, batches, das, quorums).flatten() == batches.flatten(),
        run_rounds(m, batches, das, quorums).pool == m.pool + batches.flatten(),
    decreases batches.len(),
{
    if batches.len() == 0 {
        assert(rounds_served(m, batches, das, quorums) =~= batches);
        assert(m.pool + batches.flatten() =~= m.pool);
    } else {
        let b0 = batches[0];
        let q0 = quorums[0];
        let rest = batches.drop_first().flatten();
        assert(batches.flatten() == b0 + rest);
        assert(b0.len() + rest.len() == batches.flatten().len()) by {
            assert((b0 + rest).len() == b0.len() + rest.len());
        }

        // the round's submission appends the whole batch
        assert(distinct_commitments(m.pool + b0)) by {
            let whole = m.pool + batches.flatten();
            assert forall|i: int, j: int|
                0 <= i < j < (m.pool + b0).len() implies (m.pool + b0)[i].commitment != (m.pool
                + b0)[j].commitment by {
                assert((m.pool + b0)[i] == whole[i] && (m.pool + b0)[j] == whole[j]);
            }
        }
        lemma_submit_all_new(m.pool, b0);
        let m1 = GlobalModel { pool: submit_result(m.pool, b0), ..m };
        assert(m1.pool == m.pool + b0);

        // the round's proposal pair spawns a fresh fork seeded at the
        // pool position before this round's batch
        let id0 = BuilderStateId { parent_view: q0.view, parent_commitment: q0.leaf_commit };
        assert(!registered(m1.registry, id0)) by {
            if registered(m1.registry, id0) {
                let w = choose|i: int|
                    0 <= i < m1.registry.len() && m1.registry[i].id == id0;
                assert(m.registry[w].id.parent_view != quorums[0].view);
            }
        }
        let m2 = spawn_from_pair(m1, das[0], q0);
        let n = m.registry.len() as int;
        let base0 = m.pool.len() as usize;
        assert(m2.registry[n].id == id0 && m2.registry[n].state.base == base0
            && m2.registry[n].state.cursor == base0 && !m2.registry[n].state.served
            && m2.registry[n].state.budget == m.budget && m2.registry[n].state.parent.view_number
            == q0.view) by {
            assert(m1.registry == m.registry);
            match prev {
                Some(p) => {
                    let extends = BuilderStateId {
                        parent_view: q0.parent_view,
                        parent_commitment: q0.parent_leaf_commit,
                    };
                    assert(extends == p);
                    assert(registered(m1.registry, extends));
                    assert(m1.registry[slot_of(m1.registry, extends)].state.cursor
                        == m.pool.len());
                },
                None => {
                    let extends = BuilderStateId {
                        parent_view: q0.parent_view,
                        parent_commitment: q0.parent_leaf_commit,
                    };
                    assert(!registered(m1.registry, extends));
                },
            }
        }
        assert forall|a: int, b: int|
            0 <= a < b < m2.registry.len() implies m2.registry[a].id != m2.registry[b].id by {
            if b < n {
                assert(m2.registry[a] == m.registry[a] && m2.registry[b] == m.registry[b]);
            } else {
                assert(m2.registry[a] == m.registry[a]);
                assert(m.registry[a].id.parent_view != quorums[0].view);
            }
        }
        lemma_slot_unique(m2.registry, id0, n);

        // the round's request serves exactly the round's batch
        let s0 = m2.registry[n].state;
        let rv = (q0.view + 1) as u64;
        assert(s0.answers_for(rv));
        let s1 = s0.after_serve(m2.pool.len());
        assert(s1.cursor == m1.pool.len());
        let served0 = round_bundle(m, b0, das[0], q0);
        assert(served0 == m1.pool.subrange(base0 as int, m1.pool.len() as int));
        assert(served0 =~= b0);
        let m3 = round_model(m, b0, das[0], q0);
        assert(m3.registry == m2.registry.update(n, RegistryEntry { id: id0, state: s1 }));
        assert(m3.registry =~= m.registry.push(RegistryEntry { id: id0, state: s1 }));
        assert(m3.pool == m1.pool && m3.budget == m.budget && m3.last_decided_view is None);

        // the rest of the run starts from the new frontier
        assert forall|a: int, b: int|
            0 <= a < b < m3.registry.len() implies m3.registry[a].id != m3.registry[b].id by {
            if b < n {
                assert(m3.registry[a] == m.registry[a] && m3.registry[b] == m.registry[b]);
            } else {
                assert(m3.registry[a] == m.registry[a]);
                assert(m.registry[a].id.parent_view != quorums[0].view);
            }
        }
        assert forall|i: int, k: int|
            0 <= i < quorums.drop_first().len() && 0 <= k < m3.registry.len() implies (
        #[trigger] m3.registry[k]).id.parent_view != (#[trigger] quorums.drop_first()[
        i]).view by {
            assert(quorums.drop_first()[i] == quorums[i + 1]);
            if k < n {
                assert(m3.registry[k] == m.registry[k]);
                assert(m.registry[k].id.parent_view != quorums[i + 1].view);
            } else {
                assert(m3.registry[k].id == id0);
                assert(quorums[0].view != quorums[i + 1].view);
            }
        }
        lemma_slot_unique(m3.registry, id0, n);
        assert(m3.registry[slot_of(m3.registry, id0)].state.cursor == m3.pool.len());
        assert(m3.pool + batches.drop_first().flatten() =~= m.pool + batches.flatten());
        assert forall|i: int, j: int|
            0 <= i < j < quorums.drop_first().len() implies quorums.drop_first()[i].view
            != quorums.drop_first()[j].view by {
            assert(quorums.drop_first()[i] == quorums[i + 1]);
            assert(quorums.drop_first()[j] == quorums[j + 1]);
        }
        assert forall|i: int|
            0 <= i < quorums.drop_first().len() implies (#[trigger] quorums.drop_first()[i]).view
            < u64::MAX by {
            assert(quorums.drop_first()[i] == quorums[i + 1]);
        }
        assert forall|i: int|
            1 <= i < quorums.drop_first().len() implies (#[trigger] quorums.drop_first()[
        i]).parent_view == quorums.drop_first()[i - 1].view && quorums.drop_first()[
        i].parent_leaf_commit == quorums.drop_first()[i - 1].leaf_commit by {
            assert(quorums.drop_first()[i] == quorums[i + 1]);
            assert(quorums.drop_first()[i - 1] == quorums[i]);
        }
        if batches.drop_first().len() > 0 {
            assert(quorums.drop_first()[0] == quorums[1]);
        }
        theorem_round_trip_delivery(
            m3,
            batches.drop_first(),
            das.drop_first(),
            quorums.drop_first(),
            Some(id0),
        );
        assert(rounds_served(m, batches, das, quorums) =~= batches);
        assert(rounds_served(m, batches, das, quorums).flatten() == batches.flatten());
        assert(run_rounds(m, batches, das, quorums).pool =~= m.pool + batches.flatten());
    }
}

} // verus!
