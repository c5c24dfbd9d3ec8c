//! The dependency graph itself.

use vstd::prelude::*;
use vstd::hash_map::StringHashMap;
use vstd::hash_set::StringHashSet;
use crate::error::{resolution_of, DepGraphError};
use crate::iter::{DepGraphIterator, DepGraphSatisfyingIterator};
use crate::model::{add_unique, extend_unique, first_unsatisfied, GraphModel, Id};

verus! {

/// The identifiers that a list of owned names holds.
pub open spec fn ids_of(names: Seq<String>) -> Seq<Id> {
    names.map_values(|name: String| name@)
}

/// The identifiers that a list of borrowed names holds.
pub open spec fn names_of(names: Seq<&str>) -> Seq<Id> {
    names.map_values(|name: &str| name@)
}

/// The dependencies that a stored mapping stands for.
pub open spec fn graph_of(stored: Map<Seq<char>, Vec<String>>) -> Map<Id, Seq<Id>> {
    Map::new(|item: Id| stored.contains_key(item), |item: Id| ids_of(stored[item]@))
}

/// A dependency graph: which items depend on which, which are satisfied
/// already, and the target whose dependencies are asked for.
pub struct DepGraph {
    dependencies: StringHashMap<Vec<String>>,
    target: Option<String>,
    satisfied: StringHashSet,
}

impl View for DepGraph {
    type V = GraphModel;

    closed spec fn view(&self) -> GraphModel {
        GraphModel {
            dependencies: graph_of(self.dependencies@),
            satisfied: self.satisfied@,
            target: match self.target {
                Some(target) => Some(target@),
                None => None,
            },
        }
    }
}

/// A copy of `names`.
fn copy_names(names: &Vec<String>) -> (copy: Vec<String>)
    ensures
        ids_of(copy@) == ids_of(names@),
{
    let mut copy: Vec<String> = Vec::with_capacity(names.len());
    let mut i: usize = 0;
    while i < names.len()
        invariant
            i <= names.len(),
            copy.len() == i,
            forall|j: int| 0 <= j < i ==> copy[j]@ == names[j]@,
        decreases names.len() - i,
    {
        copy.push(names[i].clone());
        i += 1;
    }
    assert(ids_of(copy@) =~= ids_of(names@));
    copy
}

/// Whether `names` holds `name`.
fn holds_name(names: &Vec<String>, name: &String) -> (found: bool)
    ensures
        found == ids_of(names@).contains(name@),
{
    let mut i: usize = 0;
    while i < names.len()
        invariant
            i <= names.len(),
            forall|j: int| 0 <= j < i ==> names[j]@ != name@,
        decreases names.len() - i,
    {
        if names[i] == *name {
            assert(ids_of(names@)[i as int] == name@);
            return true;
        }
        i += 1;
    }
    false
}

/// Adds `name` at the end of `names`, unless it is there already.
fn push_unique(names: &mut Vec<String>, name: &str)
    ensures
        ids_of(final(names)@) == add_unique(ids_of(old(names)@), name@),
{
    let owned = name.to_string();
    if !holds_name(names, &owned) {
        names.push(owned);
        assert(ids_of(names@) =~= ids_of(old(names)@).push(name@));
    }
}

/// The first of `names` that `satisfied` does not hold, if there is one.
fn first_unsatisfied_name<'a>(names: &'a Vec<String>, satisfied: &StringHashSet) -> (first: Option<
    &'a str,
>)
    ensures
        first_unsatisfied(ids_of(names@), satisfied@) == match first {
            Some(name) => Some(name@),
            None => None,
        },
{
    let ghost ids = ids_of(names@);
    assert(ids.skip(0) =~= ids);
    let mut i: usize = 0;
    while i < names.len()
        invariant
            i <= names.len(),
            ids == ids_of(names@),
            first_unsatisfied(ids, satisfied@) == first_unsatisfied(ids.skip(i as int), satisfied@),
        decreases names.len() - i,
    {
        let name = names[i].as_str();
        proof {
            assert(ids.skip(i as int).first() == name@);
            assert(ids.skip(i as int).drop_first() =~= ids.skip(i + 1));
        }
        if !satisfied.contains(name) {
            return Some(name);
        }
        i += 1;
    }
    None
}

impl DepGraph {
    #[verifier::type_invariant]
    pub(crate) closed spec fn inv(&self) -> bool {
        &&& self.dependencies@.dom().finite()
        &&& forall|item: Id| #[trigger]
            self.dependencies@.contains_key(item) ==> ids_of(
                self.dependencies@[item]@,
            ).no_duplicates()
    }

    /// A graph that meets its invariant has a well-formed model.
    pub(crate) proof fn lemma_inv_wf(&self)
        requires
            self.inv(),
        ensures
            self@.wf(),
    {
        assert(self@.dependencies.dom() =~= self.dependencies@.dom());
    }

    /// Creates an empty graph.
    pub fn new() -> (graph: DepGraph)
        ensures
            graph@ == GraphModel::empty(),
            graph@.wf(),
    {
        let graph = DepGraph {
            dependencies: StringHashMap::new(),
            target: None,
            satisfied: StringHashSet::new(),
        };
        assert(graph@.dependencies =~= Map::empty());
        graph
    }

    /// Registers that `node` depends on `depends_on`. Neither needs to be
    /// known yet. What `node` depends on already stays, in its order, and a
    /// dependency registered before is not added again.
    pub fn register_dependency(&mut self, node: &str, depends_on: &str)
        ensures
            final(self)@ == old(self)@.with_dependency(node@, depends_on@),
            final(self)@.wf(),
    {
        proof {
            use_type_invariant(&*self);
        }
        let mut deps = match self.dependencies.get(node) {
            Some(known) => copy_names(known),
            None => Vec::new(),
        };
        assert(ids_of(deps@) =~= self@.deps_of(node@));
        push_unique(&mut deps, depends_on);
        self.store_dependencies(node, deps);
        proof {
            use_type_invariant(&*self);
            self.lemma_inv_wf();
        }
    }

    /// Registers that `node` depends on each of `depends_on`, in that order.
    /// With an empty list `node` is registered as depending on nothing more
    /// than it did.
    pub fn register_dependencies(&mut self, node: &str, depends_on: &[&str])
        ensures
            final(self)@ == old(self)@.with_dependencies(node@, names_of(depends_on@)),
            final(self)@.wf(),
    {
        proof {
            use_type_invariant(&*self);
        }
        let mut deps = match self.dependencies.get(node) {
            Some(known) => copy_names(known),
            None => Vec::new(),
        };
        assert(ids_of(deps@) =~= self@.deps_of(node@));
        let ghost more = names_of(depends_on@);
        let mut i: usize = 0;
        while i < depends_on.len()
            invariant
                i <= depends_on.len(),
                more == names_of(depends_on@),
                ids_of(deps@) == extend_unique(old(self)@.deps_of(node@), more.take(i as int)),
                ids_of(deps@).no_duplicates(),
            decreases depends_on.len() - i,
        {
            push_unique(&mut deps, depends_on[i]);
            proof {
                assert(more.take(i + 1).drop_last() =~= more.take(i as int));
                assert(more.take(i + 1).last() == depends_on[i as int]@);
            }
            i += 1;
        }
        assert(more.take(i as int) =~= more);
        self.store_dependencies(node, deps);
        proof {
            use_type_invariant(&*self);
            self.lemma_inv_wf();
        }
    }

    /// Sets the item whose dependencies are asked for. A target set before is
    /// forgotten; the item needs not be registered.
    pub fn set_target(&mut self, target: &str)
        ensures
            final(self)@ == old(self)@.with_target(target@),
            final(self)@.wf(),
    {
        proof {
            use_type_invariant(&*self);
        }
        self.target = Some(target.to_string());
        proof {
            use_type_invariant(&*self);
            self.lemma_inv_wf();
        }
    }

    /// Marks each of `nodes` as satisfied: no pull gives it any more, and what
    /// depends on it no longer waits for it.
    pub fn mark_as_satisfied(&mut self, nodes: &[&str])
        ensures
            final(self)@ == old(self)@.with_satisfied(names_of(nodes@)),
            final(self)@.wf(),
    {
        proof {
            use_type_invariant(&*self);
        }
        let mut satisfied = StringHashSet::new();
        std::mem::swap(&mut satisfied, &mut self.satisfied);
        let ghost more = names_of(nodes@);
        let mut i: usize = 0;
        while i < nodes.len()
            invariant
                i <= nodes.len(),
                more == names_of(nodes@),
                satisfied@ == old(self)@.satisfied.union(more.take(i as int).to_set()),
            decreases nodes.len() - i,
        {
            satisfied.insert(nodes[i].to_string());
            proof {
                assert(more.take(i + 1) =~= more.take(i as int).push(nodes[i as int]@));
                more.take(i as int).lemma_push_to_set_commute(nodes[i as int]@);
                assert(satisfied@ =~= old(self)@.satisfied.union(more.take(i + 1).to_set()));
            }
            i += 1;
        }
        assert(more.take(i as int) =~= more);
        self.satisfied = satisfied;
        proof {
            use_type_invariant(&*self);
            self.lemma_inv_wf();
        }
    }

    /// The next item that can be produced on the way to `node`: the walk
    /// goes from `node` to its first unsatisfied dependency, from there to
    /// that one's first unsatisfied dependency, and so on, and gives the first
    /// item on which nothing unsatisfied is left. It fails where it comes back
    /// to an item that it went through, and names that item. The graph is not
    /// changed.
    pub fn get_next_dependency(&self, node: &str) -> (result: Result<String, DepGraphError>)
        ensures
            resolution_of(result) == self@.resolve(node@),
            self@.wf(),
    {
        proof {
            use_type_invariant(self);
            self.lemma_inv_wf();
        }
        let mut path = StringHashSet::new();
        let mut current: &str = node;
        loop
            invariant
                self@.wf(),
                self@.resolve_from(current@, path@) == self@.resolve(node@),
            decreases self@.dependencies.dom().difference(path@).len(),
        {
            if path.contains(current) {
                return Err(DepGraphError::CycleDetected(current.to_string()));
            }
            let deps = match self.dependencies.get(current) {
                None => {
                    return Ok(current.to_string());
                },
                Some(deps) => deps,
            };
            match first_unsatisfied_name(deps, &self.satisfied) {
                None => {
                    return Ok(current.to_string());
                },
                Some(dep) => {
                    proof {
                        self@.dependencies.dom().lemma_set_insert_diff_decreases(path@, current@);
                    }
                    path.insert(current.to_string());
                    current = dep;
                },
            }
        }
    }

    /// The sequence of pulls that leaves it to the caller to mark what was
    /// given as satisfied. It works on this graph for as long as it is kept.
    pub fn iter<'a>(&'a mut self) -> (pulls: DepGraphIterator<'a>)
        ensures
            *pulls.depgraph == *old(self),
            *final(pulls.depgraph) == *final(self),
            pulls.depgraph@.wf(),
    {
        proof {
            use_type_invariant(&*self);
            self.lemma_inv_wf();
        }
        DepGraphIterator { depgraph: self }
    }

    /// The sequence of pulls that marks each item as satisfied when it gives
    /// it. It works on this graph for as long as it is kept.
    pub fn satisfying_iter<'a>(&'a mut self) -> (pulls: DepGraphSatisfyingIterator<'a>)
        ensures
            *pulls.depgraph == *old(self),
            *final(pulls.depgraph) == *final(self),
            pulls.depgraph@.wf(),
    {
        proof {
            use_type_invariant(&*self);
            self.lemma_inv_wf();
        }
        DepGraphSatisfyingIterator { depgraph: self }
    }

    /// The target, if one is set.
    pub fn target(&self) -> (target: Option<&str>)
        ensures
            self@.target == match target {
                Some(name) => Some(name@),
                None => None,
            },
            self@.wf(),
    {
        proof {
            use_type_invariant(self);
            self.lemma_inv_wf();
        }
        match &self.target {
            Some(name) => Some(name.as_str()),
            None => None,
        }
    }

    /// Whether `node` is marked as satisfied.
    pub fn is_satisfied(&self, node: &str) -> (satisfied: bool)
        ensures
            satisfied == self@.satisfied.contains(node@),
            self@.wf(),
    {
        proof {
            use_type_invariant(self);
            self.lemma_inv_wf();
        }
        self.satisfied.contains(node)
    }

    /// What each registered item depends on.
    pub fn dependencies(&self) -> (stored: &StringHashMap<Vec<String>>)
        ensures
            graph_of(stored@) == self@.dependencies,
            self@.wf(),
    {
        proof {
            use_type_invariant(self);
            self.lemma_inv_wf();
        }
        &self.dependencies
    }

    /// Puts `deps` in place of what `node` depends on.
    fn store_dependencies(&mut self, node: &str, deps: Vec<String>)
        requires
            ids_of(deps@).no_duplicates(),
        ensures
            final(self)@ == (GraphModel {
                dependencies: old(self)@.dependencies.insert(node@, ids_of(deps@)),
                ..old(self)@
            }),
    {
        proof {
            use_type_invariant(&*self);
        }
        let mut dependencies = StringHashMap::new();
        std::mem::swap(&mut dependencies, &mut self.dependencies);
        dependencies.insert(node.to_string(), deps);
        assert(graph_of(dependencies@) =~= old(self)@.dependencies.insert(node@, ids_of(deps@)));
        assert(dependencies@.dom() =~= old(self).dependencies@.dom().insert(node@));
        self.dependencies = dependencies;
    }
}

} // verus!
