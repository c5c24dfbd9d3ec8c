//! Laws of dependency resolution, proved of the model.

use vstd::prelude::*;
use crate::model::{GraphModel, Id, Resolution};
use crate::walk::lemma_first_unsatisfied;

verus! {

impl GraphModel {
    /// The sequence that pulling with automatic marking gives is the item of
    /// the first pull, followed by the sequence of the graph in which that
    /// item is satisfied; it is empty where the first pull gives no item.
    pub proof fn lemma_satisfying_sequence_unfolds(self)
        requires
            self.wf(),
        ensures
            self.satisfying_sequence() == match self.pull() {
                Some(Resolution::Ready(item)) => seq![item] + self.after_pull().satisfying_sequence(),
                _ => Seq::empty(),
            },
            self.after_pull().wf(),
    {
    }

    /// When pulling with automatic marking has given all that it gives, a
    /// further pull gives no item: none is left, or the pull fails.
    pub proof fn lemma_satisfying_sequence_runs_out(self)
        requires
            self.wf(),
        ensures
            !(self.after_satisfying_sequence().pull() matches Some(Resolution::Ready(_))),
            self.after_satisfying_sequence().wf(),
        decreases self.pending().len(),
    {
        match self.pull() {
            Some(Resolution::Ready(item)) => {
                let after = self.after_pull();
                self.lemma_pull_is_pending();
                self.lemma_items_finite();
                self.lemma_with_satisfied_one(item);
                self.items().lemma_set_insert_diff_decreases(self.satisfied, item);
                after.lemma_satisfying_sequence_runs_out();
                self.lemma_mark_as_satisfied_any_order(seq![item], after.satisfying_sequence());
            },
            _ => {
                assert(self.after_satisfying_sequence().satisfied =~= self.satisfied);
            },
        }
    }

    /// Marking items as satisfied is idempotent: to mark them a second time
    /// changes nothing.
    pub proof fn lemma_mark_as_satisfied_idempotent(self, items: Seq<Id>)
        ensures
            self.with_satisfied(items).with_satisfied(items) == self.with_satisfied(items),
    {
        let once = self.with_satisfied(items);
        assert(once.with_satisfied(items).satisfied =~= once.satisfied);
    }

    /// Marking items as satisfied does not depend on the order: neither on
    /// that of two calls, nor on that of the items in one call.
    pub proof fn lemma_mark_as_satisfied_any_order(self, first: Seq<Id>, second: Seq<Id>)
        ensures
            self.with_satisfied(first).with_satisfied(second) == self.with_satisfied(
                second,
            ).with_satisfied(first),
            self.with_satisfied(first + second) == self.with_satisfied(first).with_satisfied(
                second,
            ),
            self.with_satisfied(first + second) == self.with_satisfied(second + first),
    {
        let one = self.with_satisfied(first).with_satisfied(second);
        let other = self.with_satisfied(second).with_satisfied(first);
        assert(one.satisfied =~= other.satisfied);
        assert forall|item: Id| (first + second).contains(item) <==> first.contains(item)
            || second.contains(item) by {
            if first.contains(item) {
                let i = choose|i: int| 0 <= i < first.len() && first[i] == item;
                assert((first + second)[i] == item);
            }
            if second.contains(item) {
                let i = choose|i: int| 0 <= i < second.len() && second[i] == item;
                assert((first + second)[first.len() + i] == item);
            }
        }
        assert forall|item: Id| (second + first).contains(item) <==> first.contains(item)
            || second.contains(item) by {
            if first.contains(item) {
                let i = choose|i: int| 0 <= i < first.len() && first[i] == item;
                assert((second + first)[second.len() + i] == item);
            }
            if second.contains(item) {
                let i = choose|i: int| 0 <= i < second.len() && second[i] == item;
                assert((second + first)[i] == item);
            }
        }
        assert(self.with_satisfied(first + second).satisfied =~= one.satisfied);
        assert(self.with_satisfied(second + first).satisfied =~= one.satisfied);
    }

    /// Registering a dependency keeps the graph well-formed, and to register
    /// the same dependency a second time changes nothing: no item depends
    /// twice on the same one.
    pub proof fn lemma_with_dependency_keeps_wf(self, item: Id, dep: Id)
        requires
            self.wf(),
        ensures
            self.with_dependency(item, dep).wf(),
            self.with_dependency(item, dep).deps_of(item).contains(dep),
            self.with_dependency(item, dep).with_dependency(item, dep) == self.with_dependency(
                item,
                dep,
            ),
    {
        let once = self.with_dependency(item, dep);
        let deps = self.deps_of(item);
        if !deps.contains(dep) {
            assert(deps.push(dep)[deps.len() as int] == dep);
        }
        assert(once.dependencies.dom() =~= self.dependencies.dom().insert(item));
        assert(once.with_dependency(item, dep).dependencies =~= once.dependencies);
    }

    /// Registering a list of dependencies is registering each of them in
    /// turn, and keeps the graph well-formed.
    pub proof fn lemma_with_dependencies_keeps_wf(self, item: Id, deps: Seq<Id>)
        requires
            self.wf(),
        ensures
            self.with_dependencies(item, deps).wf(),
            self.with_dependencies(item, deps).dependencies.contains_key(item),
            deps.len() > 0 ==> self.with_dependencies(item, deps) == self.with_dependencies(
                item,
                deps.drop_last(),
            ).with_dependency(item, deps.last()),
        decreases deps.len(),
    {
        let all = self.with_dependencies(item, deps);
        assert(all.dependencies.dom() =~= self.dependencies.dom().insert(item));
        if deps.len() > 0 {
            let before = self.with_dependencies(item, deps.drop_last());
            self.lemma_with_dependencies_keeps_wf(item, deps.drop_last());
            before.lemma_with_dependency_keeps_wf(item, deps.last());
            assert(before.with_dependency(item, deps.last()).dependencies =~= all.dependencies);
        }
    }

    /// In a graph without a cycle every resolution gives an item.
    pub proof fn lemma_acyclic_graph_resolves(self, item: Id)
        requires
            self.wf(),
            self.acyclic(),
        ensures
            self.resolve(item) is Ready,
    {
        let start = seq![item];
        assert(start.drop_last() =~= Seq::<Id>::empty());
        self.lemma_resolve_from_acyclic(start, Set::empty());
    }

    /// A resolution fails only where there is a cycle: the item that it names
    /// can be reached from where the resolution started, and depends on
    /// itself through unsatisfied items.
    pub proof fn lemma_cycle_error_names_item_on_cycle(self, item: Id, named: Id)
        requires
            self.wf(),
            self.resolve(item) == Resolution::Cycle(named),
        ensures
            self.reachable(item, named),
            exists|turn: Seq<Id>|
                #![trigger self.is_path(turn)]
                self.is_path(turn) && self.is_unsatisfied(turn) && turn.len() >= 2 && turn.first()
                    == named && turn.last() == named,
            !self.acyclic(),
    {
        let start = seq![item];
        assert(start.drop_last() =~= Seq::<Id>::empty());
        let turn = self.lemma_resolve_from_cycle(start, Set::empty());
        assert(self.is_path(turn));
    }

    /// An item all of whose dependencies are satisfied is resolved at once: a
    /// resolution that starts from it gives the item itself.
    pub proof fn lemma_ready_item_resolves_to_itself(self, item: Id)
        requires
            self.wf(),
            forall|i: int|
                0 <= i < self.deps_of(item).len() ==> self.satisfied.contains(
                    #[trigger] self.deps_of(item)[i],
                ),
        ensures
            self.resolve(item) == Resolution::Ready(item),
    {
        lemma_first_unsatisfied(self.deps_of(item), self.satisfied);
    }

    /// Whatever the graph, each item that pulling with automatic marking
    /// gives was not satisfied before, is given once only, and can be reached
    /// from the target through unsatisfied items; and each of its
    /// dependencies was satisfied from the start or is given before it.
    pub proof fn lemma_satisfying_sequence_is_ordered(self)
        requires
            self.wf(),
        ensures
            self.satisfying_sequence().no_duplicates(),
            forall|i: int|
                0 <= i < self.satisfying_sequence().len() ==> !self.satisfied.contains(
                    #[trigger] self.satisfying_sequence()[i],
                ),
            forall|i: int|
                0 <= i < self.satisfying_sequence().len() ==> self.target is Some
                    && self.live_reachable(
                    self.target->Some_0,
                    #[trigger] self.satisfying_sequence()[i],
                ),
            forall|i: int, dep: Id|
                0 <= i < self.satisfying_sequence().len() && #[trigger] self.deps_of(
                    self.satisfying_sequence()[i],
                ).contains(dep) ==> self.satisfied.contains(dep) || exists|j: int|
                    0 <= j < i && self.satisfying_sequence()[j] == dep,
        decreases self.pending().len(),
    {
        let given = self.satisfying_sequence();
        match self.pull() {
            Some(Resolution::Ready(item)) => {
                let target = self.target->Some_0;
                let after = self.after_pull();
                let rest = after.satisfying_sequence();
                self.lemma_pull_is_pending();
                self.lemma_items_finite();
                self.lemma_with_satisfied_one(item);
                self.items().lemma_set_insert_diff_decreases(self.satisfied, item);
                after.lemma_satisfying_sequence_is_ordered();
                assert(given == seq![item] + rest);
                assert(given[0] == item);
                assert forall|i: int| 1 <= i < given.len() implies given[i] == rest[i - 1] by {}
                let trail = self.lemma_resolve_from_ready(target, Set::empty());
                assert(self.is_unsatisfied(trail));
                lemma_first_unsatisfied(self.deps_of(item), self.satisfied);
                assert forall|i: int| 0 <= i < given.len() implies !self.satisfied.contains(
                    #[trigger] given[i],
                ) by {
                    if i > 0 {
                        assert(!after.satisfied.contains(rest[i - 1]));
                    }
                }
                assert forall|i: int, j: int|
                    0 <= i < given.len() && 0 <= j < given.len() && i != j implies given[i]
                    != given[j] by {
                    if i > 0 {
                        assert(!after.satisfied.contains(rest[i - 1]));
                    }
                    if j > 0 {
                        assert(!after.satisfied.contains(rest[j - 1]));
                    }
                }
                assert forall|i: int| 0 <= i < given.len() implies self.live_reachable(
                    target,
                    #[trigger] given[i],
                ) by {
                    if i > 0 {
                        assert(after.live_reachable(target, rest[i - 1]));
                        let path = choose|path: Seq<Id>|
                            #![trigger after.is_path(path)]
                            after.is_path(path) && after.is_unsatisfied(path) && path.first()
                                == target && path.last() == rest[i - 1];
                        assert(self.is_path(path));
                        assert(self.is_unsatisfied(path));
                    } else {
                        assert(self.is_path(trail));
                    }
                }
                assert forall|i: int, dep: Id|
                    0 <= i < given.len() && #[trigger] self.deps_of(given[i]).contains(
                        dep,
                    ) implies self.satisfied.contains(dep) || exists|j: int|
                    0 <= j < i && given[j] == dep by {
                    if i > 0 {
                        assert(after.deps_of(rest[i - 1]).contains(dep));
                        if dep == item {
                            assert(given[0] == dep);
                        } else if !self.satisfied.contains(dep) {
                            let j = choose|j: int| 0 <= j < i - 1 && rest[j] == dep;
                            assert(given[j + 1] == dep);
                        }
                    }
                }
            },
            _ => {},
        }
    }

    /// In a graph without a cycle, pulling with automatic marking does not
    /// stop before it has given the target: the target, unless it was
    /// satisfied from the start, is the last item given.
    pub proof fn lemma_satisfying_sequence_ends_with_target(self, target: Id)
        requires
            self.wf(),
            self.acyclic(),
            self.target == Some(target),
            !self.satisfied.contains(target),
        ensures
            self.satisfying_sequence().len() > 0,
            self.satisfying_sequence().last() == target,
        decreases self.pending().len(),
    {
        let start = seq![target];
        assert(start.drop_last() =~= Seq::<Id>::empty());
        self.lemma_resolve_from_acyclic(start, Set::empty());
        let item = self.resolve(target)->Ready_0;
        let after = self.after_pull();
        let rest = after.satisfying_sequence();
        self.lemma_pull_is_pending();
        self.lemma_items_finite();
        self.lemma_with_satisfied_one(item);
        self.items().lemma_set_insert_diff_decreases(self.satisfied, item);
        assert(self.satisfying_sequence() == seq![item] + rest);
        if item != target {
            assert forall|path: Seq<Id>|
                #![trigger after.is_path(path)]
                after.is_path(path) && path.len() >= 2 implies path.first() != path.last() by {
                assert(self.is_path(path));
            }
            after.lemma_satisfying_sequence_ends_with_target(target);
        } else {
            assert(rest.len() == 0);
        }
    }

    /// In a graph without a cycle no pull fails, so pulling with automatic
    /// marking goes on until nothing is left to give.
    pub proof fn lemma_acyclic_graph_runs_to_the_end(self)
        requires
            self.wf(),
            self.acyclic(),
        ensures
            self.pull() is None || self.pull()->Some_0 is Ready,
            self.after_pull().acyclic(),
            self.after_satisfying_sequence().acyclic(),
            self.after_satisfying_sequence().pull() is None,
    {
        let last = self.after_satisfying_sequence();
        self.lemma_satisfying_sequence_runs_out();
        self.lemma_same_dependencies_same_paths(last);
        self.lemma_same_dependencies_same_paths(self.after_pull());
        if self.target is Some {
            self.lemma_acyclic_graph_resolves(self.target->Some_0);
            last.lemma_acyclic_graph_resolves(self.target->Some_0);
        }
    }

    /// In a graph without a cycle, pulling with automatic marking gives every
    /// item of a path that starts at the target and holds no satisfied item.
    proof fn lemma_unsatisfied_path_is_given(self, path: Seq<Id>, k: int)
        requires
            self.wf(),
            self.acyclic(),
            self.is_path(path),
            self.is_unsatisfied(path),
            self.target == Some(path.first()),
            0 <= k < path.len(),
        ensures
            self.satisfying_sequence().contains(path[k]),
        decreases k,
    {
        let given = self.satisfying_sequence();
        if k == 0 {
            self.lemma_satisfying_sequence_ends_with_target(path[0]);
            assert(given[given.len() - 1] == path[0]);
        } else {
            self.lemma_unsatisfied_path_is_given(path, k - 1);
            self.lemma_satisfying_sequence_is_ordered();
            let i = choose|i: int| 0 <= i < given.len() && given[i] == path[k - 1];
            assert(self.deps_of(path[k - 1]).contains(path[k - 1 + 1]));
            assert(self.deps_of(given[i]).contains(path[k]));
            assert(!self.satisfied.contains(path[k]));
            assert(exists|j: int| 0 <= j < i && given[j] == path[k]);
        }
    }

    /// In a graph without a cycle, pulling with automatic marking gives
    /// exactly the items that can be reached from the target through
    /// unsatisfied items, each of them once. So an item that was satisfied
    /// beforehand is not given, nor is an item that the target reaches only
    /// through satisfied ones; an item that it also reaches in another way is
    /// given all the same.
    pub proof fn lemma_satisfying_sequence_gives_live_items(self, target: Id)
        requires
            self.wf(),
            self.acyclic(),
            self.target == Some(target),
        ensures
            self.satisfying_sequence().no_duplicates(),
            forall|item: Id|
                self.satisfying_sequence().contains(item) <==> #[trigger] self.live_reachable(
                    target,
                    item,
                ),
            forall|item: Id|
                self.satisfied.contains(item) ==> !self.satisfying_sequence().contains(item),
    {
        let given = self.satisfying_sequence();
        self.lemma_satisfying_sequence_is_ordered();
        assert forall|item: Id| #[trigger] self.live_reachable(target, item) implies given.contains(
            item,
        ) by {
            let path = choose|path: Seq<Id>|
                #![trigger self.is_path(path)]
                self.is_path(path) && self.is_unsatisfied(path) && path.first() == target
                    && path.last() == item;
            self.lemma_unsatisfied_path_is_given(path, path.len() - 1);
        }
    }

    /// In a graph without a cycle and with nothing satisfied, pulling with
    /// automatic marking gives every item that can be reached from the
    /// target, the target included, each of them once: as many items as can
    /// be reached. Each item comes after all that it depends on, and the
    /// target comes last.
    pub proof fn lemma_satisfying_sequence_gives_reachable_items(self, target: Id)
        requires
            self.wf(),
            self.acyclic(),
            self.target == Some(target),
            forall|item: Id| !self.satisfied.contains(item),
        ensures
            self.satisfying_sequence().no_duplicates(),
            forall|item: Id|
                self.satisfying_sequence().contains(item) <==> #[trigger] self.reachable(
                    target,
                    item,
                ),
            self.satisfying_sequence().len() == Set::new(
                |item: Id| self.reachable(target, item),
            ).len(),
            forall|i: int, dep: Id|
                0 <= i < self.satisfying_sequence().len() && #[trigger] self.deps_of(
                    self.satisfying_sequence()[i],
                ).contains(dep) ==> exists|j: int|
                    0 <= j < i && self.satisfying_sequence()[j] == dep,
            self.satisfying_sequence().len() > 0,
            self.satisfying_sequence().last() == target,
    {
        let given = self.satisfying_sequence();
        self.lemma_satisfying_sequence_gives_live_items(target);
        self.lemma_satisfying_sequence_is_ordered();
        self.lemma_satisfying_sequence_ends_with_target(target);
        assert forall|item: Id| #[trigger]
            self.reachable(target, item) == self.live_reachable(target, item) by {
            if self.reachable(target, item) {
                let path = choose|path: Seq<Id>|
                    #![trigger self.is_path(path)]
                    self.is_path(path) && path.first() == target && path.last() == item;
                assert(self.is_unsatisfied(path));
            }
            if self.live_reachable(target, item) {
                let path = choose|path: Seq<Id>|
                    #![trigger self.is_path(path)]
                    self.is_path(path) && self.is_unsatisfied(path) && path.first() == target
                        && path.last() == item;
                assert(self.is_path(path));
            }
        }
        given.unique_seq_to_set();
        assert(given.to_set() =~= Set::new(|item: Id| self.reachable(target, item)));
    }

    /// An item that depends on nothing is resolved at once, whatever is
    /// satisfied; and where pulling with automatic marking gives an item that
    /// depends on it, it has given the item itself before, unless that was
    /// satisfied from the start.
    pub proof fn lemma_item_without_dependencies_comes_first(self, item: Id)
        requires
            self.wf(),
            self.deps_of(item).len() == 0,
        ensures
            self.resolve(item) == Resolution::Ready(item),
            self.target == Some(item) && !self.satisfied.contains(item)
                ==> self.satisfying_sequence() == seq![item],
            forall|i: int|
                0 <= i < self.satisfying_sequence().len() && #[trigger] self.deps_of(
                    self.satisfying_sequence()[i],
                ).contains(item) && !self.satisfied.contains(item) ==> exists|j: int|
                    0 <= j < i && self.satisfying_sequence()[j] == item,
    {
        self.lemma_ready_item_resolves_to_itself(item);
        self.lemma_satisfying_sequence_is_ordered();
        if self.target == Some(item) && !self.satisfied.contains(item) {
            self.lemma_with_satisfied_one(item);
            assert(self.after_pull().pull() is None);
            assert(self.after_pull().satisfying_sequence() =~= Seq::<Id>::empty());
            assert(self.satisfying_sequence() =~= seq![item]);
        }
    }
}

} // verus!
