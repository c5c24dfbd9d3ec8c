//! Paths through a dependency graph, and what a resolution has to do with
//! them.

use vstd::prelude::*;
use crate::model::{first_unsatisfied, GraphModel, Id, Resolution};

verus! {

/// `first_unsatisfied` gives the first item of `deps` outside `satisfied`:
/// the one it gives is unsatisfied and all before it are satisfied, and it
/// gives none only where all are satisfied.
pub proof fn lemma_first_unsatisfied(deps: Seq<Id>, satisfied: Set<Id>)
    ensures
        match first_unsatisfied(deps, satisfied) {
            Some(dep) => exists|i: int|
                0 <= i < deps.len() && #[trigger] deps[i] == dep && !satisfied.contains(dep)
                    && forall|j: int| 0 <= j < i ==> satisfied.contains(#[trigger] deps[j]),
            None => forall|i: int| 0 <= i < deps.len() ==> satisfied.contains(#[trigger] deps[i]),
        },
    decreases deps.len(),
{
    if deps.len() == 0 {
    } else if !satisfied.contains(deps.first()) {
        assert(deps[0] == deps.first());
    } else {
        let rest = deps.drop_first();
        lemma_first_unsatisfied(rest, satisfied);
        match first_unsatisfied(rest, satisfied) {
            Some(dep) => {
                let i = choose|i: int|
                    0 <= i < rest.len() && #[trigger] rest[i] == dep && !satisfied.contains(dep)
                        && forall|j: int| 0 <= j < i ==> satisfied.contains(#[trigger] rest[j]);
                assert(deps[i + 1] == dep);
                assert forall|j: int| 0 <= j < i + 1 implies satisfied.contains(
                    #[trigger] deps[j],
                ) by {
                    if j > 0 {
                        assert(deps[j] == rest[j - 1]);
                    }
                }
            },
            None => {
                assert forall|i: int| 0 <= i < deps.len() implies satisfied.contains(
                    #[trigger] deps[i],
                ) by {
                    if i > 0 {
                        assert(deps[i] == rest[i - 1]);
                    }
                }
            },
        }
    }
}

impl GraphModel {
    /// Each item of `path` but the last depends on the one after it.
    pub open spec fn is_path(self, path: Seq<Id>) -> bool {
        &&& path.len() > 0
        &&& forall|i: int|
            0 <= i < path.len() - 1 ==> self.deps_of(#[trigger] path[i]).contains(path[i + 1])
    }

    /// `to` is `from` itself, a dependency of it, a dependency of one of
    /// those, and so on.
    pub open spec fn reachable(self, from: Id, to: Id) -> bool {
        exists|path: Seq<Id>|
            #![trigger self.is_path(path)]
            self.is_path(path) && path.first() == from && path.last() == to
    }

    /// None of the items of `path` is satisfied.
    pub open spec fn is_unsatisfied(self, path: Seq<Id>) -> bool {
        forall|i: int| 0 <= i < path.len() ==> !self.satisfied.contains(#[trigger] path[i])
    }

    /// `to` can be reached from `from` through unsatisfied items alone, the
    /// two of them included.
    pub open spec fn live_reachable(self, from: Id, to: Id) -> bool {
        exists|path: Seq<Id>|
            #![trigger self.is_path(path)]
            self.is_path(path) && self.is_unsatisfied(path) && path.first() == from && path.last()
                == to
    }

    /// No item depends on itself, directly or through others.
    pub open spec fn acyclic(self) -> bool {
        forall|path: Seq<Id>|
            #![trigger self.is_path(path)]
            self.is_path(path) && path.len() >= 2 ==> path.first() != path.last()
    }

    /// Paths, and with them cycles, are a matter of the dependencies alone:
    /// two graphs with the same dependencies have the same.
    pub proof fn lemma_same_dependencies_same_paths(self, other: GraphModel)
        requires
            self.dependencies == other.dependencies,
        ensures
            forall|path: Seq<Id>| #[trigger] self.is_path(path) == other.is_path(path),
            forall|from: Id, to: Id| #[trigger] self.reachable(from, to) == other.reachable(from, to),
            self.acyclic() == other.acyclic(),
    {
        assert forall|path: Seq<Id>| #[trigger] self.is_path(path) == other.is_path(path) by {
            assert forall|item: Id| self.deps_of(item) == other.deps_of(item) by {}
        }
        assert forall|from: Id, to: Id| #[trigger]
            self.reachable(from, to) == other.reachable(from, to) by {
            if self.reachable(from, to) {
                let path = choose|path: Seq<Id>|
                    #![trigger self.is_path(path)]
                    self.is_path(path) && path.first() == from && path.last() == to;
                assert(other.is_path(path));
            }
            if other.reachable(from, to) {
                let path = choose|path: Seq<Id>|
                    #![trigger other.is_path(path)]
                    other.is_path(path) && path.first() == from && path.last() == to;
                assert(self.is_path(path));
            }
        }
        if self.acyclic() {
            assert forall|path: Seq<Id>|
                #![trigger other.is_path(path)]
                other.is_path(path) && path.len() >= 2 implies path.first() != path.last() by {
                assert(self.is_path(path));
            }
        }
        if other.acyclic() {
            assert forall|path: Seq<Id>|
                #![trigger self.is_path(path)]
                self.is_path(path) && path.len() >= 2 implies path.first() != path.last() by {
                assert(other.is_path(path));
            }
        }
    }

    /// Where a walk gives an item, there is a path from where it started to
    /// that item. All of the path after its start is unsatisfied, and the
    /// item at its end has no unsatisfied dependency.
    pub proof fn lemma_resolve_from_ready(self, item: Id, visited: Set<Id>) -> (trail: Seq<Id>)
        requires
            self.dependencies.dom().finite(),
            self.resolve_from(item, visited) is Ready,
        ensures
            self.is_path(trail),
            trail.first() == item,
            self.resolve_from(item, visited) == Resolution::Ready(trail.last()),
            forall|i: int| 1 <= i < trail.len() ==> !self.satisfied.contains(#[trigger] trail[i]),
            first_unsatisfied(self.deps_of(trail.last()), self.satisfied) is None,
        decreases self.dependencies.dom().difference(visited).len(),
    {
        if !self.dependencies.contains_key(item) {
            seq![item]
        } else {
            match first_unsatisfied(self.dependencies[item], self.satisfied) {
                None => seq![item],
                Some(dep) => {
                    lemma_first_unsatisfied(self.dependencies[item], self.satisfied);
                    self.dependencies.dom().lemma_set_insert_diff_decreases(visited, item);
                    let rest = self.lemma_resolve_from_ready(dep, visited.insert(item));
                    let trail = seq![item] + rest;
                    assert forall|i: int| 0 <= i < trail.len() - 1 implies self.deps_of(
                        #[trigger] trail[i],
                    ).contains(trail[i + 1]) by {
                        if i > 0 {
                            assert(trail[i] == rest[i - 1]);
                            assert(trail[i + 1] == rest[i]);
                        }
                    }
                    assert forall|i: int| 1 <= i < trail.len() implies !self.satisfied.contains(
                        #[trigger] trail[i],
                    ) by {
                        assert(trail[i] == rest[i - 1]);
                    }
                    assert(trail.last() == rest.last());
                    trail
                },
            }
        }
    }

    /// In a graph without a cycle no walk fails: not one that has come to
    /// the end of `walk` through the items before it.
    pub proof fn lemma_resolve_from_acyclic(self, walk: Seq<Id>, visited: Set<Id>)
        requires
            self.dependencies.dom().finite(),
            self.acyclic(),
            self.is_path(walk),
            forall|item: Id| visited.contains(item) ==> walk.drop_last().contains(item),
        ensures
            self.resolve_from(walk.last(), visited) is Ready,
        decreases self.dependencies.dom().difference(visited).len(),
    {
        let item = walk.last();
        if visited.contains(item) {
            let i = choose|i: int| 0 <= i < walk.drop_last().len() && walk.drop_last()[i] == item;
            let turn = walk.subrange(i, walk.len() as int);
            assert forall|k: int| 0 <= k < turn.len() - 1 implies self.deps_of(
                #[trigger] turn[k],
            ).contains(turn[k + 1]) by {
                assert(turn[k] == walk[i + k]);
                assert(turn[k + 1] == walk[i + k + 1]);
            }
            assert(self.is_path(turn));
            assert(turn.first() == turn.last());
        } else if self.dependencies.contains_key(item) {
            match first_unsatisfied(self.dependencies[item], self.satisfied) {
                None => {},
                Some(dep) => {
                    lemma_first_unsatisfied(self.dependencies[item], self.satisfied);
                    self.dependencies.dom().lemma_set_insert_diff_decreases(visited, item);
                    let longer = walk.push(dep);
                    assert(longer.drop_last() =~= walk);
                    assert forall|k: int| 0 <= k < longer.len() - 1 implies self.deps_of(
                        #[trigger] longer[k],
                    ).contains(longer[k + 1]) by {
                        if k < walk.len() - 1 {
                            assert(longer[k] == walk[k]);
                            assert(longer[k + 1] == walk[k + 1]);
                        }
                    }
                    assert forall|other: Id| visited.insert(item).contains(other) implies longer
                        .drop_last().contains(other) by {
                        if other == item {
                            assert(walk[walk.len() - 1] == item);
                        } else {
                            let k = choose|k: int|
                                0 <= k < walk.drop_last().len() && walk.drop_last()[k] == other;
                            assert(walk[k] == other);
                        }
                    }
                    self.lemma_resolve_from_acyclic(longer, visited.insert(item));
                },
            }
        }
    }

    /// Where a walk fails, the item that it names lies on a cycle of
    /// unsatisfied items, and can be reached from where the walk started.
    /// `walk` is the way the walk has come, `visited` the items before its
    /// end.
    pub proof fn lemma_resolve_from_cycle(self, walk: Seq<Id>, visited: Set<Id>) -> (turn: Seq<Id>)
        requires
            self.dependencies.dom().finite(),
            self.is_path(walk),
            forall|i: int| 1 <= i < walk.len() ==> !self.satisfied.contains(#[trigger] walk[i]),
            forall|item: Id| visited.contains(item) ==> walk.drop_last().contains(item),
            self.resolve_from(walk.last(), visited) is Cycle,
        ensures
            self.resolve_from(walk.last(), visited) == Resolution::Cycle(turn.first()),
            self.is_path(turn),
            self.is_unsatisfied(turn),
            turn.len() >= 2,
            turn.first() == turn.last(),
            self.reachable(walk.first(), turn.first()),
        decreases self.dependencies.dom().difference(visited).len(),
    {
        let item = walk.last();
        if visited.contains(item) {
            let i = choose|i: int| 0 <= i < walk.drop_last().len() && walk.drop_last()[i] == item;
            let turn = walk.subrange(i, walk.len() as int);
            assert forall|k: int| 0 <= k < turn.len() - 1 implies self.deps_of(
                #[trigger] turn[k],
            ).contains(turn[k + 1]) by {
                assert(turn[k] == walk[i + k]);
                assert(turn[k + 1] == walk[i + k + 1]);
            }
            assert forall|k: int| 0 <= k < turn.len() implies !self.satisfied.contains(
                #[trigger] turn[k],
            ) by {
                assert(turn[k] == walk[i + k]);
                if i + k == 0 {
                    assert(walk[0] == walk[walk.len() - 1]);
                }
            }
            assert(turn.first() == item);
            assert(self.is_path(walk) && walk.first() == walk.first() && walk.last() == item);
            turn
        } else {
            let dep = first_unsatisfied(self.dependencies[item], self.satisfied)->Some_0;
            lemma_first_unsatisfied(self.dependencies[item], self.satisfied);
            self.dependencies.dom().lemma_set_insert_diff_decreases(visited, item);
            let longer = walk.push(dep);
            assert(longer.drop_last() =~= walk);
            assert forall|k: int| 0 <= k < longer.len() - 1 implies self.deps_of(
                #[trigger] longer[k],
            ).contains(longer[k + 1]) by {
                if k < walk.len() - 1 {
                    assert(longer[k] == walk[k]);
                    assert(longer[k + 1] == walk[k + 1]);
                }
            }
            assert forall|other: Id| visited.insert(item).contains(other) implies longer
                .drop_last().contains(other) by {
                if other == item {
                    assert(walk[walk.len() - 1] == item);
                } else {
                    let k = choose|k: int|
                        0 <= k < walk.drop_last().len() && walk.drop_last()[k] == other;
                    assert(walk[k] == other);
                }
            }
            assert forall|k: int| 1 <= k < longer.len() implies !self.satisfied.contains(
                #[trigger] longer[k],
            ) by {
                if k < walk.len() {
                    assert(longer[k] == walk[k]);
                }
            }
            let turn = self.lemma_resolve_from_cycle(longer, visited.insert(item));
            assert(longer.first() == walk.first());
            turn
        }
    }
}

} // verus!
