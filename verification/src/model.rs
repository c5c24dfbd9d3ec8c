//! The mathematical model of a dependency graph and of its resolution.

use vstd::prelude::*;

verus! {

/// An item's identifier: the characters of its name, compared exactly.
pub type Id = Seq<char>;

/// What one resolution request gives.
pub enum Resolution {
    /// The next item that can be produced: every one of its dependencies is
    /// satisfied already.
    Ready(Id),
    /// The walk came back to an item that it was already resolving.
    Cycle(Id),
}

/// The state of a dependency graph.
pub struct GraphModel {
    /// For each registered item, what it depends on, in the order of
    /// registration. An item without an entry depends on nothing.
    pub dependencies: Map<Id, Seq<Id>>,
    /// The items that count as resolved.
    pub satisfied: Set<Id>,
    /// The item whose dependencies are asked for, if one is set.
    pub target: Option<Id>,
}

/// `deps` with `dep` added at the end, unless it is there already.
pub open spec fn add_unique(deps: Seq<Id>, dep: Id) -> Seq<Id> {
    if deps.contains(dep) {
        deps
    } else {
        deps.push(dep)
    }
}

/// `deps` with each item of `more` added in turn, as `add_unique` does.
pub open spec fn extend_unique(deps: Seq<Id>, more: Seq<Id>) -> Seq<Id>
    decreases more.len(),
{
    if more.len() == 0 {
        deps
    } else {
        add_unique(extend_unique(deps, more.drop_last()), more.last())
    }
}

/// The first of `deps` that is not in `satisfied`, if there is one.
pub open spec fn first_unsatisfied(deps: Seq<Id>, satisfied: Set<Id>) -> Option<Id>
    decreases deps.len(),
{
    if deps.len() == 0 {
        None
    } else if !satisfied.contains(deps.first()) {
        Some(deps.first())
    } else {
        first_unsatisfied(deps.drop_first(), satisfied)
    }
}

impl GraphModel {
    /// The graph with no item registered, none satisfied and no target.
    pub open spec fn empty() -> GraphModel {
        GraphModel { dependencies: Map::empty(), satisfied: Set::empty(), target: None }
    }

    /// Finitely many items are registered, and no item depends twice on the
    /// same one.
    pub open spec fn wf(self) -> bool {
        &&& self.dependencies.dom().finite()
        &&& forall|item: Id| #[trigger]
            self.dependencies.contains_key(item) ==> self.dependencies[item].no_duplicates()
    }

    /// What `item` depends on: nothing, if it was never registered.
    pub open spec fn deps_of(self, item: Id) -> Seq<Id> {
        if self.dependencies.contains_key(item) {
            self.dependencies[item]
        } else {
            Seq::empty()
        }
    }

    /// The graph after `item` was registered as depending on `dep`.
    pub open spec fn with_dependency(self, item: Id, dep: Id) -> GraphModel {
        GraphModel {
            dependencies: self.dependencies.insert(item, add_unique(self.deps_of(item), dep)),
            ..self
        }
    }

    /// The graph after `item` was registered as depending on each of `deps`.
    pub open spec fn with_dependencies(self, item: Id, deps: Seq<Id>) -> GraphModel {
        GraphModel {
            dependencies: self.dependencies.insert(item, extend_unique(self.deps_of(item), deps)),
            ..self
        }
    }

    /// The graph with `target` as its target.
    pub open spec fn with_target(self, target: Id) -> GraphModel {
        GraphModel { target: Some(target), ..self }
    }

    /// The graph after each of `items` was marked as satisfied.
    pub open spec fn with_satisfied(self, items: Seq<Id>) -> GraphModel {
        GraphModel { satisfied: self.satisfied.union(items.to_set()), ..self }
    }

    /// The depth-first walk from `item`, with `path` the items that the walk
    /// has gone through already. It follows the first unsatisfied dependency
    /// of each item, and ends at the first item that has none.
    pub open spec fn resolve_from(self, item: Id, path: Set<Id>) -> Resolution
        decreases self.dependencies.dom().difference(path).len(),
        when self.dependencies.dom().finite()
        via Self::resolve_from_decreases
    {
        if path.contains(item) {
            Resolution::Cycle(item)
        } else if !self.dependencies.contains_key(item) {
            Resolution::Ready(item)
        } else {
            match first_unsatisfied(self.dependencies[item], self.satisfied) {
                None => Resolution::Ready(item),
                Some(dep) => self.resolve_from(dep, path.insert(item)),
            }
        }
    }

    #[via_fn]
    proof fn resolve_from_decreases(self, item: Id, path: Set<Id>) {
        if !path.contains(item) && self.dependencies.contains_key(item) {
            self.dependencies.dom().lemma_set_insert_diff_decreases(path, item);
        }
    }

    /// The next item that can be produced on the way to `item`.
    pub open spec fn resolve(self, item: Id) -> Resolution {
        self.resolve_from(item, Set::empty())
    }

    /// What one pull gives: nothing where no target is set or the target is
    /// satisfied, else the resolution of the target.
    pub open spec fn pull(self) -> Option<Resolution> {
        match self.target {
            None => None,
            Some(target) => if self.satisfied.contains(target) {
                None
            } else {
                Some(self.resolve(target))
            },
        }
    }

    /// The graph after a pull that marks what it gives: the item that was
    /// given is satisfied; where none was given, nothing has changed.
    pub open spec fn after_pull(self) -> GraphModel {
        match self.pull() {
            Some(Resolution::Ready(item)) => self.with_satisfied(seq![item]),
            _ => self,
        }
    }
}

} // verus!
