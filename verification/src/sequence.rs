//! The whole sequence of items that pulling with automatic marking gives.

use vstd::prelude::*;
use vstd::set_lib::lemma_set_subset_finite;
use vstd::seq_lib::seq_to_set_is_finite;
use crate::model::{GraphModel, Id, Resolution};

verus! {

impl GraphModel {
    /// Every item that the graph knows of: the registered ones, what they
    /// depend on, and the target.
    pub open spec fn items(self) -> Set<Id> {
        Set::new(
            |item: Id|
                self.dependencies.contains_key(item) || self.target == Some(item) || exists|
                    owner: Id,
                |
                    self.dependencies.contains_key(owner) && #[trigger] self.deps_of(
                        owner,
                    ).contains(item),
        )
    }

    /// The items that are not satisfied yet.
    pub open spec fn pending(self) -> Set<Id> {
        self.items().difference(self.satisfied)
    }

    /// A graph with finitely many registered items knows of finitely many
    /// items.
    pub proof fn lemma_items_finite(self)
        requires
            self.dependencies.dom().finite(),
        ensures
            self.items().finite(),
    {
        let keys = self.dependencies.dom();
        let named = keys.map(|owner: Id| self.deps_of(owner).to_set());
        keys.lemma_map_finite(|owner: Id| self.deps_of(owner).to_set());
        assert forall|deps: Set<Id>| named.contains(deps) implies #[trigger] deps.finite() by {
            let owner = choose|owner: Id|
                keys.contains(owner) && self.deps_of(owner).to_set() == deps;
            seq_to_set_is_finite(self.deps_of(owner));
        }
        named.lemma_flatten_finite();
        let target = match self.target {
            Some(target) => set![target],
            None => Set::empty(),
        };
        let all = keys.union(named.flatten()).union(target);
        assert forall|item: Id| self.items().contains(item) implies all.contains(item) by {
            if !self.dependencies.contains_key(item) && self.target != Some(item) {
                let owner = choose|owner: Id|
                    self.dependencies.contains_key(owner) && #[trigger] self.deps_of(
                        owner,
                    ).contains(item);
                assert(named.contains(self.deps_of(owner).to_set()));
                assert(self.deps_of(owner).to_set().contains(item));
            }
        }
        lemma_set_subset_finite(all, self.items());
    }

    /// A pull that gives an item gives one that the graph knows of and that
    /// is not satisfied yet.
    pub proof fn lemma_pull_is_pending(self)
        requires
            self.dependencies.dom().finite(),
            self.pull() is Some,
            self.pull()->Some_0 is Ready,
        ensures
            self.pending().contains(self.pull()->Some_0->Ready_0),
    {
        let target = self.target->Some_0;
        let trail = self.lemma_resolve_from_ready(target, Set::empty());
        if trail.len() > 1 {
            let owner = trail[trail.len() - 2];
            assert(self.deps_of(owner).contains(trail[trail.len() - 2 + 1]));
        }
    }

    /// Marking one item as satisfied adds it to the satisfied items and
    /// changes nothing else: the graph knows of the same items as before.
    pub proof fn lemma_with_satisfied_one(self, item: Id)
        ensures
            self.with_satisfied(seq![item]).satisfied == self.satisfied.insert(item),
            self.with_satisfied(seq![item]).dependencies == self.dependencies,
            self.with_satisfied(seq![item]).target == self.target,
            self.with_satisfied(seq![item]).items() == self.items(),
    {
        let after = self.with_satisfied(seq![item]);
        assert(seq![item][0] == item);
        assert(after.satisfied =~= self.satisfied.insert(item));
        assert forall|other: Id| after.items().contains(other) == self.items().contains(
            other,
        ) by {
            assert forall|owner: Id| after.deps_of(owner) == self.deps_of(owner) by {}
        }
        assert(after.items() =~= self.items());
    }

    /// The items that pulling with automatic marking gives, one after the
    /// other, until a pull gives none or fails.
    pub open spec fn satisfying_sequence(self) -> Seq<Id>
        decreases self.pending().len(),
        when self.dependencies.dom().finite()
        via Self::satisfying_sequence_decreases
    {
        match self.pull() {
            Some(Resolution::Ready(item)) => seq![item] + self.after_pull().satisfying_sequence(),
            _ => Seq::empty(),
        }
    }

    #[via_fn]
    proof fn satisfying_sequence_decreases(self) {
        match self.pull() {
            Some(Resolution::Ready(item)) => {
                self.lemma_pull_is_pending();
                self.lemma_items_finite();
                self.lemma_with_satisfied_one(item);
                self.items().lemma_set_insert_diff_decreases(self.satisfied, item);
            },
            _ => {},
        }
    }

    /// The graph once pulling with automatic marking has given all that it
    /// gives: what it gave is satisfied.
    pub open spec fn after_satisfying_sequence(self) -> GraphModel {
        self.with_satisfied(self.satisfying_sequence())
    }
}

} // verus!
