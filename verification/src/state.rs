//! One builder state per fork point: a cursor into the shared pool and
//! the references of the block the state builds on.

use vstd::prelude::*;
use crate::types::{Bundle, BuildError, BuilderStateId, ParentBlockReferences};
use crate::pool::TransactionPool;

verus! {

/// The speculative state of one branch of the fork tree.
///
/// `base` is the pool position this branch starts serving from (its
/// ancestors' transactions all sit before `base`, so ancestor exclusion
/// holds by construction); `cursor` is the position after everything
/// this branch has served.  The branch serves its bundle once and
/// re-serves the identical bundle on repeated requests.
#[derive(Clone, Copy)]
pub struct BuilderState {
    pub parent: ParentBlockReferences,
    pub base: usize,
    pub cursor: usize,
    pub served: bool,
    pub budget: usize,
}

impl BuilderState {
    /// Cursors never rewind below the fork point, and the cursor moves
    /// only when the bundle is served.
    pub open spec fn wf(self) -> bool {
        &&& self.base <= self.cursor
        &&& !self.served ==> self.cursor == self.base
    }

    /// The registry key of this state.
    pub open spec fn spec_id(self) -> BuilderStateId {
        self.parent.spec_id()
    }

    /// Whether `requested_view` is the direct successor of the parent
    /// view (the only view this state answers for).
    pub open spec fn answers_for(self, requested_view: u64) -> bool {
        self.parent.view_number < u64::MAX && requested_view == self.parent.view_number + 1
    }

    /// Where serving stops: after at most `budget` transactions, never
    /// past the end of the pool.
    pub open spec fn serve_end(self, pool_len: nat) -> int {
        if self.base + self.budget <= pool_len {
            self.base + self.budget
        } else {
            pool_len as int
        }
    }

    /// The state after a successful serve against a pool of `pool_len`
    /// transactions: the first serve fixes the bundle and advances the
    /// cursor; later serves change nothing.
    pub open spec fn after_serve(self, pool_len: nat) -> BuilderState {
        if self.served {
            self
        } else {
            BuilderState {
                cursor: self.serve_end(pool_len) as usize,
                served: true,
                ..self
            }
        }
    }

    /// A fresh state over `parent`, serving from pool position `base`
    /// (its parent branch's cursor at fork time, or zero at genesis).
    pub fn new(parent: ParentBlockReferences, base: usize, budget: usize) -> (r: BuilderState)
        ensures
            r == (BuilderState { parent, base, cursor: base, served: false, budget }),
            r.wf(),
    {
        BuilderState { parent, base, cursor: base, served: false, budget }
    }

    /// Serves the bundle for the proposed successor view.
    ///
    /// Fails with `ViewMismatch` unless `requested_view` is exactly the
    /// parent view's direct successor.  The first successful call
    /// selects the pending transactions after this branch's cursor, in
    /// pool order, up to the serving budget, and advances the cursor by
    /// exactly the transactions returned; repeated calls re-serve the
    /// identical bundle and move nothing.  Selection never removes
    /// anything from the shared pool.
    pub fn serve_bundle(&mut self, requested_view: u64, pool: &TransactionPool) -> (r: Result<
        Bundle,
        BuildError,
    >)
        requires
            old(self).wf(),
            old(self).cursor <= pool@.len(),
        ensures
            final(self).wf(),
            final(self).parent == old(self).parent,
            final(self).base == old(self).base,
            final(self).budget == old(self).budget,
            final(self).cursor >= old(self).cursor,
            !old(self).answers_for(requested_view) ==> (r matches Err(e) && e
                == BuildError::ViewMismatch && *final(self) == *old(self)),
            old(self).answers_for(requested_view) ==> *final(self) == old(self).after_serve(
                pool@.len(),
            ),
            old(self).answers_for(requested_view) ==> (r matches Ok(b) && b@ == pool@.subrange(
                final(self).base as int,
                final(self).cursor as int,
            )),
    {
        if !(self.parent.view_number < u64::MAX && requested_view == self.parent.view_number + 1) {
            return Err(BuildError::ViewMismatch);
        }
        if !self.served {
            let avail = pool.len() - self.base;
            let take = if self.budget < avail {
                self.budget
            } else {
                avail
            };
            self.cursor = self.base + take;
            self.served = true;
        }
        let txns = pool.get_range(self.base, self.cursor);
        Ok(Bundle { transactions: txns })
    }
}

} // verus!
