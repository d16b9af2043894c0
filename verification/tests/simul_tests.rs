use logicly_sim::io::{
    Circuit, CustomCircuit, CustomCircuitWrapper, InputType, Object, ObjectInner, RawCircuit,
    RawConnection, RawCustomCircuit, RawObject, Rotation, SimpleGateType, XorType,
};
use logicly_sim::simul::{evaluate_gate, SObject, Simulation, SimulationError, TruthTable};
use logicly_sim::util::{bits_to_int, int_to_bits};

const HALF_ADDER: &str = "0f1e2d3c-4b5a-6978-8796-a5b4c3d2e1f0";
const FULL_ADDER: &str = "11111111-2222-3333-4444-555555555555";
const OSCILLATOR: &str = "aaaaaaaa-bbbb-cccc-dddd-eeeeeeeeeeee";

fn raw(kind: &str, uid: &str) -> RawObject {
    RawObject {
        kind: kind.to_string(),
        uid: uid.to_string(),
        x: 0,
        y: 0,
        rotation: 0,
        export_name: None,
        outputs: None,
        inputs: None,
        text: None,
        function_index: None,
    }
}

fn switch(uid: &str, name: Option<&str>) -> RawObject {
    RawObject {
        export_name: name.map(|n| n.to_string()),
        outputs: Some("false".to_string()),
        ..raw("switch@logic.ly", uid)
    }
}

fn high(uid: &str, name: Option<&str>) -> RawObject {
    RawObject { export_name: name.map(|n| n.to_string()), ..raw("constant_high@logic.ly", uid) }
}

fn bulb(uid: &str, name: Option<&str>) -> RawObject {
    RawObject { export_name: name.map(|n| n.to_string()), ..raw("light_bulb@logic.ly", uid) }
}

fn gate(kind: &str, uid: &str, inputs: u32) -> RawObject {
    RawObject { inputs: Some(inputs), ..raw(kind, uid) }
}

fn wire(from: &str, from_port: u32, to: &str, to_port: u32) -> RawConnection {
    RawConnection {
        input_uid: to.to_string(),
        output_uid: from.to_string(),
        input_index: to_port,
        output_index: from_port,
        points: None,
    }
}

fn document(
    customs: Option<Vec<CustomCircuitWrapper>>,
    objects: Vec<RawObject>,
    connections: Vec<RawConnection>,
) -> RawCircuit {
    RawCircuit { xmlns: None, objects, connections, settings: vec![], customs }
}

fn simulate(objects: Vec<RawObject>, connections: Vec<RawConnection>) -> Simulation {
    Simulation::try_from(Circuit::try_from(document(None, objects, connections)).unwrap()).unwrap()
}

fn values(pairs: &[(&str, bool)]) -> Vec<(String, bool)> {
    pairs.iter().map(|(name, value)| (name.to_string(), *value)).collect()
}

fn state(simulation: &Simulation) -> Vec<Vec<bool>> {
    (0..simulation.len()).map(|i| simulation.values(i).clone()).collect()
}

fn and_circuit() -> Simulation {
    simulate(
        vec![
            switch("sx", Some("x")),
            switch("sy", Some("y")),
            gate("and@logic.ly", "g", 2),
            bulb("o", Some("z")),
        ],
        vec![wire("sx", 0, "g", 0), wire("sy", 0, "g", 1), wire("g", 0, "o", 0)],
    )
}

fn half_adder_definition() -> CustomCircuitWrapper {
    CustomCircuitWrapper {
        name: "half adder".to_string(),
        uid: HALF_ADDER.to_string(),
        label: String::new(),
        inner: RawCustomCircuit {
            objects: vec![
                bulb("carry", Some("carry")),
                switch("a", Some("a")),
                gate("xor@logic.ly", "x", 2),
                switch("b", Some("b")),
                gate("and@logic.ly", "c", 2),
                bulb("sum", Some("sum")),
            ],
            connections: vec![
                wire("a", 0, "x", 0),
                wire("b", 0, "x", 1),
                wire("a", 0, "c", 0),
                wire("b", 0, "c", 1),
                wire("x", 0, "sum", 0),
                wire("c", 0, "carry", 0),
            ],
            locations: vec![],
        },
    }
}

fn full_adder_definition() -> CustomCircuitWrapper {
    CustomCircuitWrapper {
        name: "full adder".to_string(),
        uid: FULL_ADDER.to_string(),
        label: String::new(),
        inner: RawCustomCircuit {
            objects: vec![
                switch("a", Some("a")),
                switch("b", Some("b")),
                switch("cin", Some("cin")),
                raw(HALF_ADDER, "first"),
                raw(HALF_ADDER, "second"),
                gate("or@logic.ly", "either", 2),
                bulb("sum", Some("sum")),
                bulb("cout", Some("cout")),
            ],
            connections: vec![
                wire("a", 0, "first", 0),
                wire("b", 0, "first", 1),
                wire("first", 1, "second", 0),
                wire("cin", 0, "second", 1),
                wire("first", 0, "either", 0),
                wire("second", 0, "either", 1),
                wire("second", 1, "sum", 0),
                wire("either", 0, "cout", 0),
            ],
            locations: vec![],
        },
    }
}

fn oscillator_definition() -> CustomCircuitWrapper {
    CustomCircuitWrapper {
        name: "oscillator".to_string(),
        uid: OSCILLATOR.to_string(),
        label: String::new(),
        inner: RawCustomCircuit {
            objects: vec![gate("not@logic.ly", "n", 1), bulb("o", Some("o"))],
            connections: vec![wire("n", 0, "n", 0), wire("n", 0, "o", 0)],
            locations: vec![],
        },
    }
}

fn count(inputs: &[bool]) -> usize {
    inputs.iter().filter(|bit| **bit).count()
}

#[test]
fn gates_match_their_truth_tables() {
    for width in 0..=4u8 {
        for packed in 0..(1usize << width) {
            let inputs = int_to_bits(packed, width);
            let all = inputs.iter().all(|bit| *bit);
            let any = inputs.iter().any(|bit| *bit);
            let odd = count(&inputs) % 2 == 1;
            let one = count(&inputs) == 1;
            for xor_type in [XorType::Odd, XorType::One] {
                let parity = if xor_type == XorType::Odd { odd } else { one };
                assert_eq!(evaluate_gate(SimpleGateType::And, xor_type, &inputs), all);
                assert_eq!(evaluate_gate(SimpleGateType::Nand, xor_type, &inputs), !all);
                assert_eq!(evaluate_gate(SimpleGateType::Or, xor_type, &inputs), any);
                assert_eq!(evaluate_gate(SimpleGateType::Nor, xor_type, &inputs), !any);
                assert_eq!(evaluate_gate(SimpleGateType::Xor, xor_type, &inputs), parity);
                assert_eq!(evaluate_gate(SimpleGateType::Xnor, xor_type, &inputs), !parity);
                if width > 0 {
                    assert_eq!(evaluate_gate(SimpleGateType::Buffer, xor_type, &inputs), inputs[0]);
                    assert_eq!(evaluate_gate(SimpleGateType::Not, xor_type, &inputs), !inputs[0]);
                }
            }
        }
    }
}

#[test]
fn the_two_readings_of_exclusive_or_differ_from_three_inputs_on() {
    let three = [true, true, true];
    assert!(evaluate_gate(SimpleGateType::Xor, XorType::Odd, &three));
    assert!(!evaluate_gate(SimpleGateType::Xor, XorType::One, &three));
    assert!(!evaluate_gate(SimpleGateType::Xnor, XorType::Odd, &three));
    assert!(evaluate_gate(SimpleGateType::Xnor, XorType::One, &three));
}

#[test]
fn gates_without_inputs() {
    assert!(evaluate_gate(SimpleGateType::And, XorType::Odd, &[]));
    assert!(!evaluate_gate(SimpleGateType::Or, XorType::Odd, &[]));
    assert!(!evaluate_gate(SimpleGateType::Xor, XorType::One, &[]));
    assert!(evaluate_gate(SimpleGateType::Xnor, XorType::Odd, &[]));
}

#[test]
fn an_unconnected_port_is_false() {
    for (kind, expected) in [
        ("buffer@logic.ly", false),
        ("not@logic.ly", true),
        ("and@logic.ly", false),
        ("nand@logic.ly", true),
        ("or@logic.ly", true),
        ("nor@logic.ly", false),
        ("xor@logic.ly", true),
        ("xnor@logic.ly", false),
    ] {
        // Port 0 is unconnected, port 1 sees a constant true.
        let mut simulation = simulate(
            vec![high("h", None), gate(kind, "g", 2), bulb("o", Some("o"))],
            vec![wire("h", 0, "g", 1), wire("g", 0, "o", 0)],
        );
        assert_eq!(simulation.get_outputs(&vec![], 10), values(&[("o", expected)]), "{}", kind);
    }
}

#[test]
fn an_and_gate_between_two_switches_and_an_output() {
    let mut simulation = and_circuit();
    assert_eq!(
        simulation.get_outputs(&values(&[("x", false), ("y", false)]), 100),
        values(&[("z", false)])
    );
    assert_eq!(
        simulation.get_outputs(&values(&[("x", true), ("y", false)]), 100),
        values(&[("z", false)])
    );
    assert_eq!(
        simulation.get_outputs(&values(&[("x", true), ("y", true)]), 100),
        values(&[("z", true)])
    );
}

#[test]
fn an_inverter_on_a_constant_is_false_whatever_the_inputs() {
    for assignment in [vec![], values(&[("s", false)]), values(&[("s", true)]), values(&[("o", true)])] {
        let mut simulation = simulate(
            vec![high("h", None), switch("s", Some("s")), gate("not@logic.ly", "n", 1), bulb("o", Some("o"))],
            vec![wire("h", 0, "n", 0), wire("n", 0, "o", 0)],
        );
        assert_eq!(simulation.get_outputs(&assignment, 100), values(&[("o", false)]));
    }
}

#[test]
fn a_simulation_starts_with_initial_values_and_false_elsewhere() {
    let on = RawObject { outputs: Some("true".to_string()), ..switch("on", None) };
    let label = RawObject { text: Some("t".to_string()), ..raw("label@logic.ly", "l") };
    let simulation = simulate(
        vec![on, switch("off", None), high("h", None), raw("constant_low@logic.ly", "low"), gate("nand@logic.ly", "g", 2), raw("digit@logic.ly", "d"), bulb("o", None), label],
        vec![],
    );
    assert_eq!(
        state(&simulation),
        vec![
            vec![true],
            vec![false],
            vec![true],
            vec![false],
            vec![false],
            vec![false; 4],
            vec![false],
            vec![]
        ]
    );
    assert_eq!(simulation.len(), 8);
    assert!(simulation.object(5).is_output());
}

#[test]
fn a_pairing_starts_with_the_initial_value() {
    let input = Object {
        uid: "i".to_string(),
        x: 0,
        y: 0,
        rotation: Rotation::Up,
        inner: ObjectInner::Input { export_name: None, kind: InputType::Switch, value: true },
    };
    let paired = SObject::from(input.clone());
    assert_eq!(paired.object(), &input);
    assert_eq!(paired.values(), &vec![true]);
    let instance = Object {
        inner: ObjectInner::CustomGate { uuid: HALF_ADDER.to_string(), num_outputs: 3, connections: vec![] },
        ..input
    };
    assert_eq!(SObject::from(instance).values(), &vec![false; 3]);
}

#[test]
fn a_sweep_sees_new_values_before_and_old_values_after() {
    // b2 <- b1 <- h in the object list [b2, b1, h]: each sweep carries the
    // value one object further towards the front.
    let mut backward = simulate(
        vec![gate("buffer@logic.ly", "b2", 1), gate("buffer@logic.ly", "b1", 1), high("h", None)],
        vec![wire("h", 0, "b1", 0), wire("b1", 0, "b2", 0)],
    );
    assert!(backward.update_all_once());
    assert_eq!(state(&backward), vec![vec![false], vec![true], vec![true]]);
    assert!(backward.update_all_once());
    assert_eq!(state(&backward), vec![vec![true], vec![true], vec![true]]);
    assert!(!backward.update_all_once());
    // The same chain listed from the source on settles in one sweep.
    let mut forward = simulate(
        vec![high("h", None), gate("buffer@logic.ly", "b1", 1), gate("buffer@logic.ly", "b2", 1)],
        vec![wire("h", 0, "b1", 0), wire("b1", 0, "b2", 0)],
    );
    assert!(forward.update_all_once());
    assert_eq!(state(&forward), vec![vec![true], vec![true], vec![true]]);
    assert!(!forward.update_all_once());
}

#[test]
fn the_limit_counts_the_sweeps() {
    let inverter = || simulate(vec![gate("not@logic.ly", "n", 1)], vec![]);
    // The first sweep changes the value, the second finds it stable.
    let mut simulation = inverter();
    assert!(!simulation.update_until_done(0));
    assert_eq!(state(&simulation), vec![vec![false]]);
    assert!(!simulation.update_until_done(1));
    assert_eq!(state(&simulation), vec![vec![true]]);
    let mut simulation = inverter();
    assert!(simulation.update_until_done(2));
    assert_eq!(state(&simulation), vec![vec![true]]);
    assert!(simulation.update_until_done(1));
}

#[test]
fn a_circuit_without_feedback_is_stable_after_as_many_sweeps_as_objects() {
    // The worst order: every object reads the one after it.
    let length = 6;
    let mut objects: Vec<RawObject> =
        (0..length).map(|k| gate("not@logic.ly", &format!("n{}", k), 1)).collect();
    objects.push(switch("s", Some("s")));
    let connections: Vec<RawConnection> = (0..length)
        .map(|k| {
            let source = if k + 1 == length { "s".to_string() } else { format!("n{}", k + 1) };
            wire(&source, 0, &format!("n{}", k), 0)
        })
        .collect();
    let mut simulation = simulate(objects, connections);
    let total = simulation.len();
    for _ in 0..total {
        simulation.update_all_once();
    }
    assert!(!simulation.update_all_once());
    simulation.reset_state();
    assert!(simulation.update_until_done(total as u128 + 1));
}

#[test]
fn an_oscillator_is_never_stable() {
    let mut simulation = simulate(
        vec![gate("not@logic.ly", "n", 1), bulb("o", Some("o"))],
        vec![wire("n", 0, "n", 0), wire("n", 0, "o", 0)],
    );
    assert!(!simulation.update_until_done(1000));
    assert_eq!(simulation.get_truth_table(1000), None);
    // The outputs are read where the sweeps stopped.
    assert_eq!(simulation.get_outputs(&vec![], 3), values(&[("o", true)]));
    assert_eq!(simulation.get_outputs(&vec![], 4), values(&[("o", false)]));
}

#[test]
fn a_latch_keeps_what_was_set() {
    let mut latch = simulate(
        vec![
            switch("s", Some("set")),
            switch("r", Some("reset")),
            gate("nor@logic.ly", "q", 2),
            gate("nor@logic.ly", "nq", 2),
            bulb("o", Some("q")),
        ],
        vec![
            wire("r", 0, "q", 0),
            wire("nq", 0, "q", 1),
            wire("s", 0, "nq", 0),
            wire("q", 0, "nq", 1),
            wire("q", 0, "o", 0),
        ],
    );
    assert_eq!(latch.get_outputs(&values(&[("set", true)]), 100), values(&[("q", true)]));
    // Without a reset of the state the latch remembers.
    latch.set_input(0, false);
    assert!(latch.update_until_done(100));
    assert_eq!(latch.values(4), &vec![true]);
    latch.set_input(1, true);
    assert!(latch.update_until_done(100));
    assert_eq!(latch.values(4), &vec![false]);
}

#[test]
fn the_same_inputs_give_the_same_outputs() {
    let mut simulation = and_circuit();
    let both = values(&[("x", true), ("y", true)]);
    let first = simulation.get_outputs(&both, 100);
    simulation.get_outputs(&values(&[("x", false)]), 100);
    simulation.update_all_once();
    let second = simulation.get_outputs(&both, 100);
    assert_eq!(first, second);
    assert_eq!(first, and_circuit().get_outputs(&both, 100));
}

#[test]
fn a_reset_clears_everything_but_the_constants() {
    let on = RawObject { outputs: Some("true".to_string()), ..switch("on", Some("on")) };
    let mut simulation = simulate(
        vec![on, high("h", Some("h")), gate("not@logic.ly", "n", 1), raw("digit@logic.ly", "d")],
        vec![wire("h", 0, "d", 2)],
    );
    assert!(simulation.update_until_done(10));
    assert_eq!(
        state(&simulation),
        vec![vec![true], vec![true], vec![true], vec![false, false, true, false]]
    );
    simulation.reset_state();
    assert_eq!(state(&simulation), vec![vec![false], vec![true], vec![false], vec![false; 4]]);
}

#[test]
fn values_are_assigned_to_switches_and_buttons_by_name() {
    let button = RawObject {
        export_name: Some("p".to_string()),
        outputs: Some("false".to_string()),
        ..raw("push_button@logic.ly", "b")
    };
    let mut simulation = simulate(
        vec![
            switch("s1", Some("s")),
            switch("s2", Some("s")),
            button,
            switch("quiet", None),
            high("h", Some("h")),
            raw("constant_low@logic.ly", "l"),
        ],
        vec![],
    );
    // The last pair with a name counts; constants and unnamed inputs are
    // not driven; names that nothing carries are ignored.
    let inputs = values(&[
        ("s", false),
        ("p", true),
        ("h", false),
        ("quiet", true),
        ("l", true),
        ("nobody", true),
        ("s", true),
    ]);
    assert_eq!(simulation.get_outputs(&inputs, 10), vec![]);
    assert_eq!(
        state(&simulation),
        vec![vec![true], vec![true], vec![true], vec![false], vec![true], vec![false]]
    );
    // An input without a pair is false after the reset.
    simulation.get_outputs(&values(&[("p", true)]), 10);
    assert_eq!(simulation.values(0), &vec![false]);
}

#[test]
fn outputs_are_read_in_the_order_of_the_object_list() {
    let mut simulation = simulate(
        vec![
            bulb("o2", Some("second")),
            high("h", None),
            bulb("hidden", None),
            raw("digit@logic.ly", "d").clone(),
            RawObject { export_name: Some("digit".to_string()), ..raw("digit@logic.ly", "d2") },
            bulb("o1", Some("second")),
        ],
        vec![wire("h", 0, "o2", 0), wire("h", 0, "d2", 3), wire("h", 0, "hidden", 0)],
    );
    assert_eq!(
        simulation.get_outputs(&vec![], 10),
        values(&[("second", true), ("digit", false), ("second", false)])
    );
    assert_eq!(simulation.outputs(), vec![0, 4, 5]);
    assert_eq!(simulation.values(4), &vec![false, false, false, true]);
}

#[test]
fn the_handles_of_the_inputs() {
    let button = RawObject {
        export_name: Some("p".to_string()),
        outputs: Some("true".to_string()),
        ..raw("push_button@logic.ly", "b")
    };
    let mut simulation = simulate(
        vec![bulb("o", Some("o")), high("h", Some("h")), switch("quiet", None), button, switch("s", Some("s"))],
        vec![],
    );
    assert_eq!(simulation.inputs_mut(), vec![1, 3, 4]);
    assert_eq!(simulation.get_inputs_mut(), vec![("p".to_string(), 3), ("s".to_string(), 4)]);
    simulation.set_input(4, true);
    simulation.set_input(2, true);
    simulation.set_input(1, false);
    assert_eq!(state(&simulation), vec![vec![false], vec![false], vec![true], vec![true], vec![true]]);
}

#[test]
fn the_truth_table_of_the_and_gate() {
    let mut simulation = and_circuit();
    let table = simulation.get_truth_table(100).unwrap();
    assert_eq!(table.row_size(), 1);
    assert_eq!(table.len(), 4);
    assert_eq!(table.get_row(0), &[false]);
    assert_eq!(table.get_row(1), &[false]);
    assert_eq!(table.get_row(2), &[false]);
    assert_eq!(table.get_row(3), &[true]);
    // The values are those of the last row.
    assert_eq!(state(&simulation), vec![vec![true], vec![true], vec![true], vec![true]]);
}

#[test]
fn the_first_named_input_is_the_most_significant_bit() {
    // z = x and not y, with y listed first.
    let mut simulation = simulate(
        vec![
            switch("sy", Some("y")),
            bulb("o", Some("z")),
            switch("sx", Some("x")),
            gate("not@logic.ly", "n", 1),
            gate("and@logic.ly", "g", 2),
            bulb("copy", Some("x again")),
        ],
        vec![
            wire("sy", 0, "n", 0),
            wire("sx", 0, "g", 0),
            wire("n", 0, "g", 1),
            wire("g", 0, "o", 0),
            wire("sx", 0, "copy", 0),
        ],
    );
    let table = simulation.get_truth_table(100).unwrap();
    assert_eq!(table.row_size(), 2);
    assert_eq!(table.get_row(0b00), &[false, false]);
    assert_eq!(table.get_row(0b01), &[true, true]);
    assert_eq!(table.get_row(0b10), &[false, false]);
    assert_eq!(table.get_row(0b11), &[false, true]);
}

#[test]
fn a_truth_table_without_inputs_or_without_outputs() {
    let mut constant = simulate(
        vec![high("h", None), gate("not@logic.ly", "n", 1), bulb("o", Some("o"))],
        vec![wire("h", 0, "n", 0), wire("n", 0, "o", 0)],
    );
    let table = constant.get_truth_table(10).unwrap();
    assert_eq!((table.row_size(), table.len()), (1, 1));
    assert_eq!(table.get_row(0), &[false]);
    let mut blind = simulate(vec![switch("a", Some("a")), switch("b", Some("b"))], vec![]);
    let table = blind.get_truth_table(10).unwrap();
    assert_eq!((table.row_size(), table.len()), (0, 0));
    assert_eq!(table.get_row(3), &[] as &[bool]);
    assert_eq!(TruthTable::new(vec![true, false, false, true], 2).get_row(1), &[false, true]);
}

#[test]
fn a_named_constant_is_an_input_of_the_truth_table() {
    let mut simulation = simulate(
        vec![high("h", Some("h")), bulb("o", Some("o"))],
        vec![wire("h", 0, "o", 0)],
    );
    assert_eq!(simulation.get_outputs(&values(&[("h", false)]), 10), values(&[("o", true)]));
    let table = simulation.get_truth_table(10).unwrap();
    assert_eq!(table.len(), 2);
    assert_eq!(table.get_row(0), &[false]);
    assert_eq!(table.get_row(1), &[true]);
}

#[test]
fn a_row_that_is_not_stable_leaves_no_table() {
    // With s false the nand gate is constant; with s true it inverts
    // itself.
    let mut simulation = simulate(
        vec![switch("s", Some("s")), gate("nand@logic.ly", "g", 2), bulb("o", Some("o"))],
        vec![wire("s", 0, "g", 0), wire("g", 0, "g", 1), wire("g", 0, "o", 0)],
    );
    assert_eq!(simulation.get_outputs(&values(&[("s", false)]), 100), values(&[("o", true)]));
    assert!(simulation.update_until_done(1));
    assert_eq!(simulation.get_truth_table(100), None);
    assert_eq!(simulation.values(0), &vec![true]);
}

#[test]
fn the_outputs_of_a_circuit_are_the_rows_of_its_truth_table() {
    let circuit = || {
        let customs = Some(vec![half_adder_definition(), full_adder_definition()]);
        let built = Circuit::try_from(document(customs, vec![], vec![])).unwrap();
        let mut customs = built.customs.unwrap();
        let full = customs.pop().unwrap();
        Circuit { objects: full.objects, customs: Some(customs) }
    };
    let table = Simulation::try_from(circuit()).unwrap().get_truth_table(1000).unwrap();
    assert_eq!((table.row_size(), table.len()), (2, 16));
    let mut simulation = Simulation::try_from(circuit()).unwrap();
    for packed in 0..8usize {
        let bits = int_to_bits(packed, 3);
        let inputs = values(&[("a", bits[0]), ("b", bits[1]), ("cin", bits[2])]);
        let outputs = simulation.get_outputs(&inputs, 1000);
        let row = table.get_row(bits_to_int(&bits));
        assert_eq!(outputs, values(&[("sum", row[0]), ("cout", row[1])]));
        let sum = count(&bits);
        assert_eq!(row, &[sum % 2 == 1, sum >= 2]);
    }
}

#[test]
fn an_instance_looks_its_outputs_up_in_the_table() {
    let customs = Some(vec![full_adder_definition(), half_adder_definition()]);
    let circuit = Circuit::try_from(document(
        customs,
        vec![
            switch("a", Some("a")),
            switch("b", Some("b")),
            switch("c", Some("c")),
            raw(FULL_ADDER, "adder"),
            bulb("sum", Some("sum")),
            bulb("carry", Some("carry")),
        ],
        vec![
            wire("a", 0, "adder", 0),
            wire("b", 0, "adder", 1),
            wire("c", 0, "adder", 2),
            wire("adder", 0, "sum", 0),
            wire("adder", 1, "carry", 0),
        ],
    ))
    .unwrap();
    let mut simulation = Simulation::try_from(circuit).unwrap();
    assert_eq!(simulation.values(3), &vec![false, false]);
    for packed in 0..8usize {
        let bits = int_to_bits(packed, 3);
        let inputs = values(&[("a", bits[0]), ("b", bits[1]), ("c", bits[2])]);
        let sum = count(&bits);
        assert_eq!(
            simulation.get_outputs(&inputs, 100),
            values(&[("sum", sum % 2 == 1), ("carry", sum >= 2)])
        );
    }
    // The ports of the half adder are in the order of its object list:
    // carry before sum, a before b.
    let table = simulation.get_truth_table(100).unwrap();
    assert_eq!(table.get_row(0b011), &[false, true]);
    assert_eq!(table.get_row(0b100), &[true, false]);
}

#[test]
fn an_instance_of_a_definition_without_table_is_refused() {
    let circuit = Circuit::try_from(document(
        Some(vec![oscillator_definition()]),
        vec![raw(OSCILLATOR, "i")],
        vec![],
    ))
    .unwrap();
    assert_eq!(Simulation::try_from(circuit), Err(SimulationError::UnsupportedCustomGate));
    // A definition without table that nothing instantiates does no harm.
    let circuit =
        Circuit::try_from(document(Some(vec![oscillator_definition()]), vec![], vec![])).unwrap();
    assert!(Simulation::try_from(circuit).is_ok());
}

#[test]
fn a_definition_that_instantiates_one_without_table_is_refused() {
    let user = CustomCircuitWrapper {
        name: "user".to_string(),
        uid: FULL_ADDER.to_string(),
        label: String::new(),
        inner: RawCustomCircuit {
            objects: vec![raw(OSCILLATOR, "i"), bulb("o", Some("o"))],
            connections: vec![wire("i", 0, "o", 0)],
            locations: vec![],
        },
    };
    let circuit =
        Circuit::try_from(document(Some(vec![user, oscillator_definition()]), vec![], vec![]))
            .unwrap();
    assert_eq!(Simulation::try_from(circuit), Err(SimulationError::UnsupportedCustomGate));
}

#[test]
fn sub_circuits_have_to_come_after_those_they_instantiate() {
    let build = || {
        Circuit::try_from(document(
            Some(vec![half_adder_definition(), full_adder_definition()]),
            vec![],
            vec![],
        ))
        .unwrap()
    };
    assert!(Simulation::try_from(build()).is_ok());
    let mut customs = build().customs.unwrap();
    customs.reverse();
    assert_eq!(
        Simulation::try_from(Circuit { objects: vec![], customs: Some(customs) }),
        Err(SimulationError::MalformedNetlist)
    );
}

#[test]
fn a_definition_with_more_than_24_named_inputs_has_no_table() {
    let wide = |inputs: usize| {
        let mut objects: Vec<RawObject> = (0..inputs)
            .map(|k| switch(&format!("s{}", k), Some(&format!("s{}", k))))
            .collect();
        objects.push(bulb("o", Some("o")));
        CustomCircuitWrapper {
            name: "wide".to_string(),
            uid: HALF_ADDER.to_string(),
            label: String::new(),
            inner: RawCustomCircuit { objects, connections: vec![wire("s0", 0, "o", 0)], locations: vec![] },
        }
    };
    let circuit =
        Circuit::try_from(document(Some(vec![wide(25)]), vec![raw(HALF_ADDER, "i")], vec![])).unwrap();
    assert_eq!(Simulation::try_from(circuit), Err(SimulationError::UnsupportedCustomGate));
    let circuit =
        Circuit::try_from(document(Some(vec![wide(12)]), vec![raw(HALF_ADDER, "i")], vec![])).unwrap();
    let mut simulation = Simulation::try_from(circuit).unwrap();
    assert!(simulation.update_until_done(10));
    assert_eq!(simulation.values(0), &vec![false]);
}

fn plain(inner: ObjectInner) -> Object {
    Object { uid: String::new(), x: 0, y: 0, rotation: Rotation::Right, inner }
}

fn and_of(connections: Vec<Option<(u32, usize)>>) -> Object {
    plain(ObjectInner::SimpleGate { xor_type: XorType::Odd, kind: SimpleGateType::And, connections })
}

#[test]
fn a_netlist_that_cannot_be_evaluated_is_refused() {
    let label = plain(ObjectInner::Label { text: String::new() });
    let digit = plain(ObjectInner::Output { export_name: None, connections: vec![None; 4] });
    let malformed = [
        // A source that does not exist.
        vec![and_of(vec![Some((0, 1))])],
        // A port that the source does not have.
        vec![and_of(vec![Some((1, 0))])],
        vec![and_of(vec![Some((0, 1))]), label.clone()],
        vec![and_of(vec![Some((4, 1))]), digit.clone()],
        // A buffer or inverter without input port.
        vec![plain(ObjectInner::SimpleGate {
            xor_type: XorType::Odd,
            kind: SimpleGateType::Buffer,
            connections: vec![],
        })],
        vec![plain(ObjectInner::SimpleGate {
            xor_type: XorType::Odd,
            kind: SimpleGateType::Not,
            connections: vec![],
        })],
        // A named output without port.
        vec![plain(ObjectInner::Output { export_name: Some("o".to_string()), connections: vec![] })],
        // An instance of a definition that is not there.
        vec![plain(ObjectInner::CustomGate {
            uuid: HALF_ADDER.to_string(),
            num_outputs: 0,
            connections: vec![],
        })],
    ];
    for objects in malformed {
        let circuit = Circuit { objects, customs: None };
        assert_eq!(Simulation::try_from(circuit), Err(SimulationError::MalformedNetlist));
    }
    let sound = [
        vec![and_of(vec![Some((0, 0)), None])],
        vec![and_of(vec![Some((3, 1))]), digit],
        vec![plain(ObjectInner::Output { export_name: None, connections: vec![] }), label],
    ];
    for objects in sound {
        assert!(Simulation::try_from(Circuit { objects, customs: None }).is_ok());
    }
}

#[test]
fn an_instance_has_to_fit_the_table_of_its_definition() {
    let definition = || {
        let built =
            Circuit::try_from(document(Some(vec![half_adder_definition()]), vec![], vec![])).unwrap();
        built.customs
    };
    let instance = |num_outputs: u32, ports: usize| {
        plain(ObjectInner::CustomGate {
            uuid: HALF_ADDER.to_string(),
            num_outputs,
            connections: vec![None; ports],
        })
    };
    for (num_outputs, ports) in [(1, 2), (3, 2), (2, 1), (2, 3), (2, 0)] {
        let circuit = Circuit { objects: vec![instance(num_outputs, ports)], customs: definition() };
        assert_eq!(Simulation::try_from(circuit), Err(SimulationError::MalformedNetlist));
    }
    let circuit = Circuit { objects: vec![instance(2, 2)], customs: definition() };
    assert!(Simulation::try_from(circuit).is_ok());
}

#[test]
fn a_faulty_definition_is_refused_only_if_it_gets_a_table() {
    let faulty = |inputs: usize| {
        let mut objects: Vec<Object> = (0..inputs)
            .map(|k| {
                plain(ObjectInner::Input {
                    export_name: Some(format!("s{}", k)),
                    kind: InputType::Switch,
                    value: false,
                })
            })
            .collect();
        objects.push(and_of(vec![Some((0, 1000))]));
        CustomCircuit {
            objects,
            name: String::new(),
            uid: HALF_ADDER.to_string(),
            label: String::new(),
            locations: vec![],
        }
    };
    let circuit = Circuit { objects: vec![], customs: Some(vec![faulty(24)]) };
    assert_eq!(Simulation::try_from(circuit), Err(SimulationError::MalformedNetlist));
    let circuit = Circuit { objects: vec![], customs: Some(vec![faulty(25)]) };
    assert!(Simulation::try_from(circuit).is_ok());
}
