use std::collections::HashMap;

use solvent::DepGraph;

#[test]
fn solvent_test_branching() {
    let mut depgraph: DepGraph = DepGraph::new();

    depgraph.register_dependencies("a", &["b", "c", "d"]);
    depgraph.register_dependency("b", "d");
    depgraph.register_dependencies("c", &["e", "m", "g"]);
    depgraph.register_dependency("e", "f");
    depgraph.register_dependency("g", "h");
    depgraph.register_dependency("h", "i");
    depgraph.register_dependencies("i", &["j", "k"]);
    depgraph.register_dependencies("k", &["l", "m"]);
    depgraph.register_dependency("m", "n");

    depgraph.set_target("a");

    let mut results: Vec<String> = Vec::new();

    loop {
        // detect infinite looping bugs
        assert!(results.len() < 30);

        let node = match depgraph.iter().next() {
            Some(x) => x.unwrap(),
            None => break,
        };
        depgraph.mark_as_satisfied(&[node.as_str()]);

        // Check that all of that nodes dependencies have already been output
        let deps: Option<&Vec<String>> = depgraph.dependencies().get(&node);
        if deps.is_some() {
            for dep in deps.unwrap().iter() {
                assert!(results.contains(dep));
            }
        }

        results.push(node.clone());
    }
}

#[test]
fn solvent_test_updating_dependencies() {
    let mut depgraph: DepGraph = DepGraph::new();

    depgraph.register_dependencies("a", &["b", "c"]);
    depgraph.register_dependency("a", "d");
    assert!(depgraph.dependencies().get("a").unwrap().contains(&String::from("b")));
    assert!(depgraph.dependencies().get("a").unwrap().contains(&String::from("c")));
    assert!(depgraph.dependencies().get("a").unwrap().contains(&String::from("d")));
}

#[test]
fn solvent_test_satisfying() {
    let mut depgraph: DepGraph = DepGraph::new();

    depgraph.register_dependencies("a", &["b", "c", "d"]);
    depgraph.register_dependency("b", "d");
    depgraph.register_dependencies("c", &["e"]);

    depgraph.set_target("a");

    // The pulls borrow the graph, so we look at a copy of the dependencies.
    // This is a test, and performance is not important here.
    let mut dependency_copy: HashMap<String, Vec<String>> = HashMap::new();
    for node in ["a", "b", "c", "d", "e"] {
        if let Some(deps) = depgraph.dependencies().get(node) {
            dependency_copy.insert(String::from(node), deps.clone());
        }
    }

    let mut results: Vec<String> = Vec::new();

    let mut pulls = depgraph.satisfying_iter();
    while let Some(node) = pulls.next() {
        let node = node.unwrap();
        // detect infinite looping bugs
        assert!(results.len() < 30);

        // Check that all of that nodes dependencies have already been output
        let deps: Option<&Vec<String>> = dependency_copy.get(&node);
        if deps.is_some() {
            for dep in deps.unwrap().iter() {
                assert!(results.contains(dep));
            }
        }

        results.push(node);
    }
}

#[test]
fn solvent_test_circular() {
    let mut depgraph: DepGraph = DepGraph::new();
    depgraph.register_dependency("a", "b");
    depgraph.register_dependency("b", "c");
    depgraph.register_dependency("c", "a");
    depgraph.set_target("a");

    let mut results: Vec<String> = Vec::new();
    let mut failed = false;

    loop {
        // Detect infinite looping bugs
        if results.len() >= 30 {
            break;
        }

        let node = match depgraph.iter().next() {
            Some(Ok(x)) => x,
            Some(Err(_)) => {
                failed = true;
                break;
            }
            None => break,
        };
        depgraph.mark_as_satisfied(&[node.as_str()]);
        results.push(node);
    }
    assert!(failed);
}

#[test]
fn solvent_test_satisfied_stoppage() {
    let mut depgraph: DepGraph = DepGraph::new();
    depgraph.register_dependencies("superconn", &[]);
    depgraph.register_dependencies("owneruser", &["superconn"]);
    depgraph.register_dependencies("appuser", &["superconn"]);
    depgraph.register_dependencies("database", &["owneruser"]);
    depgraph.register_dependencies("ownerconn", &["database", "owneruser"]);
    depgraph.register_dependencies("adminconn", &["database"]);
    depgraph.register_dependencies("extensions", &["database", "adminconn"]);
    depgraph.register_dependencies("schema_table", &["database", "ownerconn"]);
    depgraph.register_dependencies(
        "schemas",
        &["ownerconn", "extensions", "schema_table", "appuser"],
    );
    depgraph.register_dependencies("appconn", &["database", "appuser", "schemas"]);

    depgraph.set_target("appconn");
    depgraph.mark_as_satisfied(&["owneruser", "appuser"]);

    let mut results: Vec<String> = Vec::new();

    loop {
        assert!(results.len() < 30);

        let node = match depgraph.iter().next() {
            Some(x) => x.unwrap(),
            None => break,
        };
        depgraph.mark_as_satisfied(&[node.as_str()]);
        results.push(node);
    }
    assert!(!results.contains(&String::from("superconn")));
}
