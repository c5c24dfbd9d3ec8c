//! The two ways to pull the items of a graph one at a time.

use vstd::prelude::*;
use crate::error::{pulled, resolution_of, DepGraphError};
use crate::graph::{ids_of, names_of, DepGraph};
use crate::model::Id;

verus! {

/// Pulls the next item that can be produced on the way to the graph's target,
/// and leaves it to the caller to mark it as satisfied.
pub struct DepGraphIterator<'a> {
    /// The graph that is pulled from.
    pub depgraph: &'a mut DepGraph,
}

/// Pulls the next item that can be produced on the way to the graph's target,
/// and marks it as satisfied.
pub struct DepGraphSatisfyingIterator<'a> {
    /// The graph that is pulled from.
    pub depgraph: &'a mut DepGraph,
}

impl<'a> DepGraphIterator<'a> {
    /// The next item, if one is left: none where no target is set or the
    /// target is satisfied. The graph stays as it is, so until the caller
    /// marks the item as satisfied the next pull gives it again.
    pub fn next(&mut self) -> (result: Option<Result<String, DepGraphError>>)
        ensures
            pulled(result) == old(self).depgraph@.pull(),
            *final(self).depgraph == *old(self).depgraph,
            final(self).depgraph@.wf(),
            *final(final(self).depgraph) == *final(old(self).depgraph),
    {
        let node = match self.depgraph.target() {
            None => {
                return None;
            },
            Some(node) => node,
        };
        if self.depgraph.is_satisfied(node) {
            return None;
        }
        Some(self.depgraph.get_next_dependency(node))
    }
}

impl<'a> DepGraphSatisfyingIterator<'a> {
    /// The next item, if one is left: none where no target is set or the
    /// target is satisfied. The item is marked as satisfied before it is
    /// given. A failed pull changes nothing.
    pub fn next(&mut self) -> (result: Option<Result<String, DepGraphError>>)
        ensures
            pulled(result) == old(self).depgraph@.pull(),
            final(self).depgraph@ == old(self).depgraph@.after_pull(),
            final(self).depgraph@.wf(),
            *final(final(self).depgraph) == *final(old(self).depgraph),
    {
        let node = match self.depgraph.target() {
            None => {
                return None;
            },
            Some(node) => node,
        };
        if self.depgraph.is_satisfied(node) {
            return None;
        }
        let next = self.depgraph.get_next_dependency(node);
        if let Ok(item) = &next {
            let given = [item.as_str()];
            assert(names_of(given@) =~= seq![item@]);
            self.depgraph.mark_as_satisfied(&given);
        }
        Some(next)
    }

    /// All the items that are left, in the order in which pulling gives
    /// them, each marked as satisfied. It stops at the first pull that fails,
    /// and returns that failure; the items given until then stay marked.
    pub fn collect(&mut self) -> (result: Result<Vec<String>, DepGraphError>)
        ensures
            final(self).depgraph@ == old(self).depgraph@.after_satisfying_sequence(),
            final(self).depgraph@.wf(),
            match result {
                Ok(items) => ids_of(items@) == old(self).depgraph@.satisfying_sequence()
                    && final(self).depgraph@.pull() is None,
                Err(error) => final(self).depgraph@.pull() == Some(
                    resolution_of(Err::<String, DepGraphError>(error)),
                ),
            },
            *final(final(self).depgraph) == *final(old(self).depgraph),
    {
        let ghost start = self.depgraph@;
        let mut items: Vec<String> = Vec::new();
        proof {
            use_type_invariant(&*self.depgraph);
            self.depgraph.lemma_inv_wf();
            assert(ids_of(items@) =~= Seq::<Id>::empty());
            assert(start.with_satisfied(Seq::<Id>::empty()).satisfied =~= start.satisfied);
            assert(Seq::<Id>::empty() + start.satisfying_sequence()
                =~= start.satisfying_sequence());
        }
        loop
            invariant
                start == old(self).depgraph@,
                self.depgraph@.wf(),
                self.depgraph@ == start.with_satisfied(ids_of(items@)),
                start.satisfying_sequence() == ids_of(items@)
                    + self.depgraph@.satisfying_sequence(),
                *final(self.depgraph) == *final(old(self).depgraph),
            decreases self.depgraph@.pending().len(),
        {
            let ghost before = self.depgraph@;
            let ghost given = ids_of(items@);
            match self.next() {
                None => {
                    proof {
                        assert(given + Seq::<Id>::empty() =~= given);
                    }
                    return Ok(items);
                },
                Some(Err(error)) => {
                    proof {
                        assert(given + Seq::<Id>::empty() =~= given);
                    }
                    return Err(error);
                },
                Some(Ok(item)) => {
                    proof {
                        before.lemma_pull_is_pending();
                        before.lemma_items_finite();
                        before.lemma_with_satisfied_one(item@);
                        before.items().lemma_set_insert_diff_decreases(before.satisfied, item@);
                        start.lemma_mark_as_satisfied_any_order(given, seq![item@]);
                        assert(ids_of(items@.push(item)) =~= given + seq![item@]);
                        assert(given + (seq![item@] + before.after_pull().satisfying_sequence())
                            =~= (given + seq![item@])
                            + before.after_pull().satisfying_sequence());
                    }
                    items.push(item);
                },
            }
        }
    }
}

} // verus!
