use logicly_sim::io::{
    dependency_order, order_dependency_graph, BuildError, CustomCircuitWrapper, Dependent,
    ErrorKind, RawCustomCircuit, RawObject,
};
use uuid::Uuid;

fn name_to_uuid(name: &str) -> Uuid {
    let mut name = name.as_bytes().to_vec();
    name.resize(16, 0);
    Uuid::from_bytes(name.try_into().unwrap())
}

fn make_circuit(name: &'static str, deps: Vec<&'static str>) -> CustomCircuitWrapper {
    CustomCircuitWrapper {
        label: String::from(""),
        uid: name_to_uuid(name).to_string(),
        name: name.to_string(),
        inner: RawCustomCircuit {
            objects: deps
                .into_iter()
                .map(|s| RawObject {
                    kind: name_to_uuid(s).to_string(),
                    uid: Uuid::new_v4().to_string(),
                    x: 0f64.to_bits(),
                    y: 0f64.to_bits(),
                    rotation: 0,
                    export_name: None,
                    outputs: None,
                    inputs: None,
                    text: None,
                    function_index: None,
                })
                .collect(),
            connections: vec![],
            locations: vec![],
        },
    }
}

fn ordered(deps: Vec<CustomCircuitWrapper>) -> Result<Vec<CustomCircuitWrapper>, String> {
    order_dependency_graph(deps).map_err(|e| e.message())
}

#[test]
fn orderdeps_ordered_1() {
    let a = make_circuit("a", vec![]);
    let b = make_circuit("b", vec![]);
    let c = make_circuit("c", vec![]);
    let d = make_circuit("d", vec![]);
    let deps = vec![a, b, c, d];
    assert_eq!(ordered(deps.clone()), Ok(deps));
}

#[test]
fn orderdeps_ordered_2() {
    let a = make_circuit("a", vec![]);
    let b = make_circuit("b", vec!["a"]);
    let c = make_circuit("c", vec!["b"]);
    let d = make_circuit("d", vec!["c"]);
    let deps = vec![a, b, c, d];
    assert_eq!(ordered(deps.clone()), Ok(deps));
}

#[test]
fn orderdeps_ordered_3() {
    let a = make_circuit("a", vec![]);
    let b = make_circuit("b", vec!["a"]);
    let c = make_circuit("c", vec!["a", "b"]);
    let d = make_circuit("d", vec!["b", "c"]);
    let deps = vec![a, b, c, d];
    assert_eq!(ordered(deps.clone()), Ok(deps));
}

#[test]
fn orderdeps_reorder_1() {
    let a = make_circuit("a", vec!["c"]);
    let b = make_circuit("b", vec![]);
    let c = make_circuit("c", vec!["b"]);
    let d = make_circuit("d", vec![]);
    let e = make_circuit("e", vec!["b"]);
    let deps = vec![a.clone(), b.clone(), c.clone(), d.clone(), e.clone()];
    assert_eq!(ordered(deps.clone()), Ok(vec![b, c, d, e, a]));
}

#[test]
fn orderdeps_reorder_2() {
    let a = make_circuit("a", vec!["c", "e"]);
    let b = make_circuit("b", vec!["d", "c"]);
    let c = make_circuit("c", vec![]);
    let d = make_circuit("d", vec!["c"]);
    let e = make_circuit("e", vec!["b"]);
    let deps = vec![a.clone(), b.clone(), c.clone(), d.clone(), e.clone()];
    assert_eq!(ordered(deps.clone()), Ok(vec![c, d, b, e, a]));
}

#[test]
fn orderdeps_cycle_1() {
    let a = make_circuit("a", vec!["a"]);
    let deps = vec![a.clone()];
    assert_eq!(
        ordered(deps.clone()),
        Err(format!("Circuit contains a dependency cycle: {} -> {}", a.uid, a.uid))
    );
}

#[test]
fn orderdeps_cycle_2() {
    let a = make_circuit("a", vec!["b"]);
    let b = make_circuit("b", vec!["a"]);
    let deps = vec![a.clone(), b.clone()];
    assert_eq!(
        ordered(deps.clone()),
        Err(format!("Circuit contains a dependency cycle: {} -> {} -> {}", a.uid, b.uid, a.uid))
    );
}

#[test]
fn orderdeps_cycle_3() {
    let a = make_circuit("a", vec!["b"]);
    let b = make_circuit("b", vec!["c"]);
    let c = make_circuit("c", vec!["d"]);
    let d = make_circuit("d", vec!["a"]);
    let deps = vec![d.clone(), c.clone(), b.clone(), a.clone()];
    assert_eq!(
        ordered(deps.clone()),
        Err(format!(
            "Circuit contains a dependency cycle: {} -> {} -> {} -> {} -> {}",
            d.uid, a.uid, b.uid, c.uid, d.uid
        ))
    );
}

fn node(uid: &str, needs: &[&str]) -> Dependent {
    Dependent { uid: uid.to_string(), needs: needs.iter().map(|s| s.to_string()).collect() }
}

fn path(uids: &[&str]) -> BuildError {
    BuildError::DependencyCycle(uids.iter().map(|s| s.to_string()).collect())
}

#[test]
fn no_definitions_are_in_order() {
    assert_eq!(dependency_order(&vec![]), Ok(vec![]));
    assert_eq!(ordered(vec![]), Ok(vec![]));
}

#[test]
fn b_after_a_and_the_cycle_when_a_needs_b() {
    let nodes = vec![node("B", &["A"]), node("A", &[])];
    assert_eq!(dependency_order(&nodes), Ok(vec![1, 0]));
    let nodes = vec![node("A", &["B"]), node("B", &["A"])];
    assert_eq!(dependency_order(&nodes), Err(path(&["A", "B", "A"])));
}

#[test]
fn emission_takes_several_passes() {
    // c waits for b, which waits for a, which comes last: one per pass.
    let nodes = vec![node("c", &["b"]), node("b", &["a"]), node("a", &[])];
    assert_eq!(dependency_order(&nodes), Ok(vec![2, 1, 0]));
}

#[test]
fn a_repeated_need_counts_once() {
    let nodes = vec![node("b", &["a", "a"]), node("a", &[])];
    assert_eq!(dependency_order(&nodes), Ok(vec![1, 0]));
}

#[test]
fn the_walk_starts_at_the_first_definition_left_waiting() {
    // a is emitted; the walk starts at b, not at index 0.
    let nodes = vec![node("a", &[]), node("b", &["c"]), node("c", &["b"])];
    assert_eq!(dependency_order(&nodes), Err(path(&["b", "c", "b"])));
}

#[test]
fn the_walk_follows_the_first_need_that_is_not_carried() {
    // b needs a (emitted) and then d and c: the walk follows d.
    let nodes = vec![
        node("a", &[]),
        node("b", &["a", "d", "c"]),
        node("c", &["b"]),
        node("d", &["b"]),
    ];
    assert_eq!(dependency_order(&nodes), Err(path(&["b", "d", "b"])));
}

#[test]
fn the_cycle_starts_where_the_walk_enters_it() {
    // a leads into the circle b -> c -> b but is not on it.
    let nodes = vec![node("a", &["b"]), node("b", &["c"]), node("c", &["b"])];
    assert_eq!(dependency_order(&nodes), Err(path(&["b", "c", "b"])));
}

#[test]
fn a_self_dependency_met_on_the_walk_is_reported_at_once() {
    let nodes = vec![node("a", &["b"]), node("b", &["c", "b"]), node("c", &["a"])];
    assert_eq!(dependency_order(&nodes), Err(path(&["b", "b"])));
}

#[test]
fn a_need_that_no_definition_carries_ends_the_walk() {
    let nodes = vec![node("a", &["missing"])];
    let failure = dependency_order(&nodes).unwrap_err();
    assert_eq!(failure, BuildError::CycleNotFound);
    assert_eq!(failure.kind(), ErrorKind::DependencyCycle);
    assert_eq!(failure.message(), "Circuit contains a dependency cycle: failed to find it");
}

#[test]
fn a_uid_carried_twice_satisfies_a_need_once_either_is_emitted() {
    let nodes = vec![node("x", &["y"]), node("x", &[]), node("y", &["x"])];
    assert_eq!(dependency_order(&nodes), Ok(vec![1, 2, 0]));
}

#[test]
fn kinds_without_uuid_syntax_are_no_dependencies() {
    let mut a = make_circuit("a", vec![]);
    a.inner.objects.push(RawObject {
        kind: "and@logic.ly".to_string(),
        uid: "gate".to_string(),
        x: 0,
        y: 0,
        rotation: 0,
        export_name: None,
        outputs: None,
        inputs: Some(2),
        text: None,
        function_index: None,
    });
    assert_eq!(ordered(vec![a.clone()]), Ok(vec![a]));
}

#[test]
fn the_message_of_a_cycle_joins_the_uids_with_arrows() {
    assert_eq!(path(&["p", "q", "p"]).message(), "Circuit contains a dependency cycle: p -> q -> p");
    assert_eq!(path(&["p"]).message(), "Circuit contains a dependency cycle: p");
    assert_eq!(path(&[]).message(), "Circuit contains a dependency cycle: ");
}
