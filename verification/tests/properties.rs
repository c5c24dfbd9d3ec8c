use solvent::{DepGraph, DepGraphError};

fn names(list: &[&str]) -> Vec<String> {
    list.iter().map(|s| String::from(*s)).collect()
}

fn branching() -> DepGraph {
    let mut depgraph = DepGraph::new();
    depgraph.register_dependencies("a", &["b", "c", "d"]);
    depgraph.register_dependency("b", "d");
    depgraph.register_dependencies("c", &["e", "m", "g"]);
    depgraph.register_dependency("e", "f");
    depgraph.register_dependency("g", "h");
    depgraph.register_dependency("h", "i");
    depgraph.register_dependencies("i", &["j", "k"]);
    depgraph.register_dependencies("k", &["l", "m"]);
    depgraph.register_dependency("m", "n");
    depgraph
}

#[test]
fn new_graph_is_empty() {
    let mut depgraph = DepGraph::new();
    assert!(depgraph.dependencies().is_empty());
    assert_eq!(depgraph.target(), None);
    assert!(!depgraph.is_satisfied("a"));
    assert_eq!(depgraph.iter().next(), None);
    assert_eq!(depgraph.satisfying_iter().next(), None);
    assert_eq!(depgraph.satisfying_iter().collect(), Ok(Vec::new()));
}

#[test]
fn register_dependency_keeps_order_and_adds_once() {
    let mut depgraph = DepGraph::new();
    depgraph.register_dependency("a", "c");
    depgraph.register_dependency("a", "b");
    depgraph.register_dependency("a", "c");
    depgraph.register_dependency("a", "b");
    assert_eq!(depgraph.dependencies().get("a"), Some(&names(&["c", "b"])));
    assert_eq!(depgraph.dependencies().len(), 1);
    // what is only depended on gets no entry of its own
    assert_eq!(depgraph.dependencies().get("b"), None);
    assert_eq!(depgraph.dependencies().get("c"), None);
}

#[test]
fn register_dependencies_unions_in_order() {
    let mut depgraph = DepGraph::new();
    depgraph.register_dependencies("a", &["b", "c", "b"]);
    assert_eq!(depgraph.dependencies().get("a"), Some(&names(&["b", "c"])));
    depgraph.register_dependencies("a", &["d", "c", "e", "d"]);
    assert_eq!(depgraph.dependencies().get("a"), Some(&names(&["b", "c", "d", "e"])));
    depgraph.register_dependencies("a", &[]);
    assert_eq!(depgraph.dependencies().get("a"), Some(&names(&["b", "c", "d", "e"])));
}

#[test]
fn register_dependencies_with_empty_list_declares_a_leaf() {
    let mut depgraph = DepGraph::new();
    depgraph.register_dependencies("leaf", &[]);
    assert_eq!(depgraph.dependencies().get("leaf"), Some(&Vec::new()));
    depgraph.set_target("leaf");
    assert_eq!(depgraph.satisfying_iter().collect(), Ok(names(&["leaf"])));
}

#[test]
fn identifiers_are_compared_exactly() {
    let mut depgraph = DepGraph::new();
    depgraph.register_dependency("a", "B");
    depgraph.register_dependency("a", "b");
    depgraph.register_dependency("a", " b");
    depgraph.register_dependency("A", "b");
    assert_eq!(depgraph.dependencies().get("a"), Some(&names(&["B", "b", " b"])));
    assert_eq!(depgraph.dependencies().get("A"), Some(&names(&["b"])));
    depgraph.mark_as_satisfied(&["B"]);
    assert!(depgraph.is_satisfied("B"));
    assert!(!depgraph.is_satisfied("b"));
}

#[test]
fn set_target_overwrites_and_accepts_unknown_items() {
    let mut depgraph = DepGraph::new();
    depgraph.register_dependency("a", "b");
    depgraph.set_target("a");
    assert_eq!(depgraph.target(), Some("a"));
    depgraph.set_target("never registered");
    assert_eq!(depgraph.target(), Some("never registered"));
    assert_eq!(
        depgraph.satisfying_iter().collect(),
        Ok(names(&["never registered"]))
    );
    assert!(!depgraph.is_satisfied("a"));
    assert!(!depgraph.is_satisfied("b"));
}

#[test]
fn satisfied_target_gives_nothing() {
    let mut depgraph = DepGraph::new();
    depgraph.register_dependency("a", "b");
    depgraph.set_target("a");
    depgraph.mark_as_satisfied(&["a"]);
    assert_eq!(depgraph.iter().next(), None);
    assert_eq!(depgraph.satisfying_iter().next(), None);
    assert_eq!(depgraph.satisfying_iter().collect(), Ok(Vec::new()));
    assert!(!depgraph.is_satisfied("b"));
}

#[test]
fn mark_as_satisfied_accepts_unknown_items() {
    let mut depgraph = DepGraph::new();
    depgraph.mark_as_satisfied(&["x", "y"]);
    assert!(depgraph.is_satisfied("x"));
    assert!(depgraph.is_satisfied("y"));
    assert!(!depgraph.is_satisfied("z"));
    assert!(depgraph.dependencies().is_empty());
    depgraph.mark_as_satisfied(&[]);
    assert!(depgraph.is_satisfied("x"));
}

#[test]
fn marking_twice_is_marking_once() {
    let mut once = branching();
    once.set_target("a");
    once.mark_as_satisfied(&["c", "d"]);

    let mut twice = branching();
    twice.set_target("a");
    twice.mark_as_satisfied(&["c", "d"]);
    twice.mark_as_satisfied(&["d", "c", "d"]);

    for item in ["a", "b", "c", "d", "e", "m", "n"] {
        assert_eq!(once.is_satisfied(item), twice.is_satisfied(item));
    }
    let expected = names(&["b", "a"]);
    assert_eq!(once.satisfying_iter().collect(), Ok(expected.clone()));
    assert_eq!(twice.satisfying_iter().collect(), Ok(expected));
}

#[test]
fn marking_does_not_depend_on_the_order() {
    let mut one = branching();
    one.set_target("a");
    one.mark_as_satisfied(&["g", "e"]);
    one.mark_as_satisfied(&["b"]);

    let mut other = branching();
    other.set_target("a");
    other.mark_as_satisfied(&["b"]);
    other.mark_as_satisfied(&["e", "g"]);

    let expected = names(&["n", "m", "c", "d", "a"]);
    assert_eq!(one.satisfying_iter().collect(), Ok(expected.clone()));
    assert_eq!(other.satisfying_iter().collect(), Ok(expected));
}

#[test]
fn every_reachable_item_is_given_once_after_its_dependencies() {
    let mut depgraph = branching();
    depgraph.register_dependency("unrelated", "a");
    depgraph.set_target("a");
    let results = depgraph.satisfying_iter().collect().unwrap();

    let reachable = ["a", "b", "c", "d", "e", "f", "g", "h", "i", "j", "k", "l", "m", "n"];
    assert_eq!(results.len(), reachable.len());
    for item in reachable {
        assert_eq!(results.iter().filter(|r| r.as_str() == item).count(), 1);
    }
    assert!(!results.contains(&String::from("unrelated")));
    for (i, item) in results.iter().enumerate() {
        if let Some(deps) = depgraph.dependencies().get(item) {
            for dep in deps {
                let at = results.iter().position(|r| r == dep);
                assert!(at.is_some() && at.unwrap() < i);
            }
        }
    }
    assert_eq!(results.last(), Some(&String::from("a")));
    for item in reachable {
        assert!(depgraph.is_satisfied(item));
    }
}

#[test]
fn item_without_dependencies_is_ready_at_once() {
    let mut depgraph = branching();
    // never registered
    assert_eq!(depgraph.get_next_dependency("n"), Ok(String::from("n")));
    assert_eq!(depgraph.get_next_dependency("unknown"), Ok(String::from("unknown")));
    // registered with nothing
    depgraph.register_dependencies("alone", &[]);
    assert_eq!(depgraph.get_next_dependency("alone"), Ok(String::from("alone")));
    // and it is given before what depends on it
    depgraph.set_target("m");
    assert_eq!(depgraph.satisfying_iter().collect(), Ok(names(&["n", "m"])));
}

#[test]
fn item_with_satisfied_dependencies_is_ready_at_once() {
    let mut depgraph = branching();
    depgraph.mark_as_satisfied(&["j", "k"]);
    assert_eq!(depgraph.get_next_dependency("i"), Ok(String::from("i")));
    assert_eq!(depgraph.get_next_dependency("h"), Ok(String::from("i")));
}

#[test]
fn satisfied_item_hides_what_only_it_needs() {
    let mut depgraph = branching();
    depgraph.set_target("a");
    depgraph.mark_as_satisfied(&["g"]);
    // h, i, j, k, l are needed by g alone; m and n are needed by c too
    assert_eq!(
        depgraph.satisfying_iter().collect(),
        Ok(names(&["d", "b", "f", "e", "n", "m", "c", "a"]))
    );
    for hidden in ["h", "i", "j", "k", "l"] {
        assert!(!depgraph.is_satisfied(hidden));
    }
}

#[test]
fn satisfied_item_does_not_hide_what_another_needs() {
    let mut depgraph = DepGraph::new();
    depgraph.register_dependencies("top", &["left", "right"]);
    depgraph.register_dependency("left", "shared");
    depgraph.register_dependency("right", "shared");
    depgraph.register_dependency("left", "only left");
    depgraph.set_target("top");
    depgraph.mark_as_satisfied(&["left"]);
    assert_eq!(
        depgraph.satisfying_iter().collect(),
        Ok(names(&["shared", "right", "top"]))
    );
    assert!(!depgraph.is_satisfied("only left"));
}

#[test]
fn collect_gives_what_repeated_pulls_give() {
    let mut by_pulls = branching();
    by_pulls.set_target("c");
    let mut pulled: Vec<String> = Vec::new();
    loop {
        assert!(pulled.len() < 30);
        match by_pulls.satisfying_iter().next() {
            Some(item) => pulled.push(item.unwrap()),
            None => break,
        }
    }
    let mut at_once = branching();
    at_once.set_target("c");
    assert_eq!(at_once.satisfying_iter().collect(), Ok(pulled.clone()));
    assert_eq!(
        pulled,
        names(&["f", "e", "n", "m", "j", "l", "k", "i", "h", "g", "c"])
    );
    // nothing is left, and the sequence does not start again
    assert_eq!(at_once.satisfying_iter().collect(), Ok(Vec::new()));
}

#[test]
fn collect_stops_at_a_cycle_and_keeps_what_it_gave() {
    let mut depgraph = DepGraph::new();
    depgraph.register_dependencies("t", &["x", "a"]);
    depgraph.register_dependency("a", "b");
    depgraph.register_dependency("b", "a");
    depgraph.set_target("t");
    assert_eq!(
        depgraph.satisfying_iter().collect(),
        Err(DepGraphError::CycleDetected(String::from("a")))
    );
    assert!(depgraph.is_satisfied("x"));
    assert!(!depgraph.is_satisfied("a"));
    assert!(!depgraph.is_satisfied("b"));
    assert!(!depgraph.is_satisfied("t"));
    // the failure stays until the data are mended
    assert_eq!(
        depgraph.satisfying_iter().next(),
        Some(Err(DepGraphError::CycleDetected(String::from("a"))))
    );
}

#[test]
fn item_that_depends_on_itself_is_a_cycle() {
    let mut depgraph = DepGraph::new();
    depgraph.register_dependency("a", "a");
    depgraph.set_target("a");
    assert_eq!(
        depgraph.get_next_dependency("a"),
        Err(DepGraphError::CycleDetected(String::from("a")))
    );
    assert_eq!(
        depgraph.iter().next(),
        Some(Err(DepGraphError::CycleDetected(String::from("a"))))
    );
}

#[test]
fn new_target_resumes_after_the_first_is_exhausted() {
    let mut depgraph = branching();
    depgraph.set_target("m");
    assert_eq!(depgraph.satisfying_iter().collect(), Ok(names(&["n", "m"])));
    depgraph.set_target("c");
    assert_eq!(
        depgraph.satisfying_iter().collect(),
        Ok(names(&["f", "e", "j", "l", "k", "i", "h", "g", "c"]))
    );
}

#[test]
fn registration_between_pulls_is_taken_into_account() {
    let mut depgraph = DepGraph::new();
    depgraph.register_dependency("a", "b");
    depgraph.set_target("a");
    assert_eq!(depgraph.satisfying_iter().next(), Some(Ok(String::from("b"))));
    depgraph.register_dependency("a", "c");
    assert_eq!(depgraph.satisfying_iter().next(), Some(Ok(String::from("c"))));
    assert_eq!(depgraph.satisfying_iter().next(), Some(Ok(String::from("a"))));
    assert_eq!(depgraph.satisfying_iter().next(), None);
}

#[test]
fn long_chain_is_walked_without_recursion() {
    let mut depgraph = DepGraph::new();
    let n = 2000;
    for i in 0..n {
        depgraph.register_dependency(&format!("n{}", i), &format!("n{}", i + 1));
    }
    depgraph.set_target("n0");
    assert_eq!(depgraph.get_next_dependency("n0"), Ok(format!("n{}", n)));
    depgraph.mark_as_satisfied(&[format!("n{}", n).as_str()]);
    assert_eq!(depgraph.iter().next(), Some(Ok(format!("n{}", n - 1))));
}
