use logicly_sim::io::{
    Circuit, InputType, Object, ObjectInner, RawCircuit, RawConnection, RawObject, Rotation,
    SimpleGateType, XorType,
};
use logicly_sim::simul::{assignment, lookup_assigned, Simulation};
use logicly_sim::text::{cell, comes_before, decimal_text, repeat, sort_descending, truth};
use logicly_sim::util::{digits, power_of_two};

fn plain(inner: ObjectInner) -> Object {
    Object { uid: "u".to_string(), x: 0, y: 0, rotation: Rotation::Right, inner }
}

fn raw(kind: &str, uid: &str) -> RawObject {
    RawObject {
        kind: kind.to_string(),
        uid: uid.to_string(),
        x: 0,
        y: 0,
        rotation: 0,
        export_name: None,
        outputs: None,
        inputs: None,
        text: None,
        function_index: None,
    }
}

fn switch(uid: &str, name: &str) -> RawObject {
    RawObject {
        export_name: Some(name.to_string()),
        outputs: Some("false".to_string()),
        ..raw("switch@logic.ly", uid)
    }
}

fn wire(from: &str, to: &str, to_port: u32) -> RawConnection {
    RawConnection {
        input_uid: to.to_string(),
        output_uid: from.to_string(),
        input_index: to_port,
        output_index: 0,
        points: None,
    }
}

fn and_circuit(x: &str, y: &str, z: &str) -> Circuit {
    Circuit::try_from(RawCircuit {
        xmlns: None,
        objects: vec![
            switch("sx", x),
            switch("sy", y),
            RawObject { inputs: Some(2), ..raw("and@logic.ly", "g") },
            RawObject { export_name: Some(z.to_string()), ..raw("light_bulb@logic.ly", "o") },
        ],
        connections: vec![wire("sx", "g", 0), wire("sy", "g", 1), wire("g", "o", 0)],
        settings: vec![],
        customs: None,
    })
    .unwrap()
}

fn names(list: &[&str]) -> Vec<String> {
    list.iter().map(|name| name.to_string()).collect()
}

#[test]
fn numbers_in_decimal() {
    for number in [0u64, 1, 9, 10, 11, 99, 100, 270, 65535, 4294967296, u64::MAX] {
        assert_eq!(decimal_text(number), number.to_string());
    }
}

#[test]
fn repeated_pieces() {
    assert_eq!(repeat("-", 0), "");
    assert_eq!(repeat("-", 5), "-----");
    assert_eq!(repeat("ab", 3), "ababab");
    assert_eq!(repeat("", 1000), "");
}

#[test]
fn truth_in_letters() {
    assert_eq!(truth(true), "true");
    assert_eq!(truth(false), "false");
}

#[test]
fn a_cell_holds_its_letter_in_the_middle() {
    assert_eq!(cell(true, 5), "  T  ");
    assert_eq!(cell(false, 4), " F  ");
    assert_eq!(cell(true, 2), "T ");
    for width in 0..20usize {
        assert_eq!(cell(true, width), format!("{:^width$}", "T", width = width));
        assert_eq!(cell(false, width), format!("{:^width$}", "F", width = width));
    }
}

#[test]
fn powers_of_two_and_digits() {
    assert_eq!(power_of_two(0), 1);
    assert_eq!(power_of_two(10), 1024);
    assert_eq!(power_of_two(usize::BITS as usize - 1), 1 << (usize::BITS - 1));
    assert_eq!(digits(5, 4), vec![false, true, false, true]);
    assert_eq!(digits(1, 300).len(), 300);
    assert!(digits(1, 300)[299]);
}

#[test]
fn every_name_gets_its_bit_of_the_row() {
    let pairs = assignment(&names(&["a", "b", "c"]), 0b110);
    assert_eq!(
        pairs,
        vec![("a".to_string(), true), ("b".to_string(), true), ("c".to_string(), false)]
    );
    assert_eq!(assignment(&vec![], 3), vec![]);
    assert_eq!(lookup_assigned(&pairs, "b"), Some(true));
    assert_eq!(lookup_assigned(&pairs, "d"), None);
    let twice = vec![("a".to_string(), true), ("a".to_string(), false)];
    assert_eq!(lookup_assigned(&twice, "a"), Some(false));
}

#[test]
fn objects_in_words() {
    let gate = plain(ObjectInner::SimpleGate {
        xor_type: XorType::One,
        kind: SimpleGateType::Nand,
        connections: vec![Some((0, 12)), None, Some((3, 0))],
    });
    assert_eq!(gate.to_text(), "Gate Nand [12, NUL, 0#3]");
    let instance = plain(ObjectInner::CustomGate {
        uuid: "abc".to_string(),
        num_outputs: 2,
        connections: vec![],
    });
    assert_eq!(instance.to_text(), "CustomGate abc []");
    let output = plain(ObjectInner::Output {
        export_name: Some("out".to_string()),
        connections: vec![Some((1, 2))],
    });
    assert_eq!(output.to_text(), "Output(out) 2#1");
    let hidden = plain(ObjectInner::Output { export_name: None, connections: vec![None, None] });
    assert_eq!(hidden.to_text(), "Output(?) NUL, NUL");
    let input = plain(ObjectInner::Input {
        export_name: Some("in".to_string()),
        kind: InputType::Button,
        value: true,
    });
    assert_eq!(input.to_text(), "Input(in) Button true");
    let constant =
        plain(ObjectInner::Input { export_name: None, kind: InputType::False, value: false });
    assert_eq!(constant.to_text(), "Input(?) False false");
    let label = plain(ObjectInner::Label { text: "some text".to_string() });
    assert_eq!(label.to_text(), "Label: some text");
}

#[test]
fn a_circuit_in_words() {
    let circuit = and_circuit("x", "y", "z");
    assert_eq!(
        circuit.to_text(),
        "(0) Input(x) Switch false\n(1) Input(y) Switch false\n(2) Gate And [0, 1]\n(3) Output(z) 2\n"
    );
    assert_eq!(Circuit { objects: vec![], customs: None }.to_text(), "");
}

#[test]
fn a_simulation_in_words() {
    let mut simulation = Simulation::try_from(and_circuit("x", "y", "z")).unwrap();
    simulation.set_input(0, true);
    assert_eq!(
        simulation.to_text(),
        "(0) Input(x) Switch false | [true]\n(1) Input(y) Switch false | [false]\n\
         (2) Gate And [0, 1] | [false]\n(3) Output(z) 2 | [false]\n"
    );
    let digit = Circuit { objects: vec![
        plain(ObjectInner::Output { export_name: None, connections: vec![None; 4] }),
        plain(ObjectInner::Label { text: "l".to_string() }),
    ], customs: None };
    assert_eq!(
        Simulation::try_from(digit).unwrap().to_text(),
        "(0) Output(?) NUL, NUL, NUL, NUL | [false, false, false, false]\n(1) Label: l | []\n"
    );
}

#[test]
fn the_values_of_inputs_and_outputs_in_words() {
    let circuit = Circuit {
        objects: vec![
            plain(ObjectInner::Input { export_name: None, kind: InputType::True, value: true }),
            plain(ObjectInner::Label { text: "l".to_string() }),
            plain(ObjectInner::SimpleGate {
                xor_type: XorType::Odd,
                kind: SimpleGateType::Or,
                connections: vec![],
            }),
            plain(ObjectInner::Output {
                export_name: Some("digit".to_string()),
                connections: vec![None, Some((0, 0))],
            }),
        ],
        customs: None,
    };
    let mut simulation = Simulation::try_from(circuit).unwrap();
    assert_eq!(simulation.print_outputs(), vec!["u: [true]", "digit: [false, false]"]);
    simulation.update_all_once();
    assert_eq!(simulation.print_outputs(), vec!["u: [true]", "digit: [false, true]"]);
}

#[test]
fn the_lines_of_a_table() {
    let mut simulation = Simulation::try_from(and_circuit("x", "y", "z")).unwrap();
    assert_eq!(
        simulation.table_lines(&names(&["y", "x"]), &names(&["z"]), 100),
        vec!["y|x||z", "------", "F|F||F", "F|T||F", "T|F||F", "T|T||T"]
    );
    let mut simulation = Simulation::try_from(and_circuit("left", "r", "both")).unwrap();
    assert_eq!(
        simulation.table_lines(&names(&["r", "left"]), &names(&["both"]), 100),
        vec![
            "r|left||both",
            "------------",
            "F| F  || F  ",
            "F| T  || F  ",
            "T| F  || F  ",
            "T| T  || T  "
        ]
    );
}

#[test]
fn the_table_of_a_simulation_has_its_names_in_descending_order() {
    let mut simulation = Simulation::try_from(and_circuit("x", "y", "z")).unwrap();
    assert_eq!(
        simulation.print_truth_table(100),
        vec!["y|x||z", "------", "F|F||F", "F|T||F", "T|F||F", "T|T||T"]
    );
    let mut simulation = Simulation::try_from(and_circuit("b", "a", "out")).unwrap();
    assert_eq!(
        simulation.print_truth_table(100),
        vec!["b|a||out", "--------", "F|F|| F ", "F|T|| F ", "T|F|| F ", "T|T|| T "]
    );
    let mut simulation = Simulation::try_from(Circuit { objects: vec![], customs: None }).unwrap();
    assert_eq!(simulation.print_truth_table(100), vec!["||", "--", "||"]);
}

#[test]
fn the_order_of_strings() {
    let samples = ["", "a", "A", "ab", "b", "aa", "é", "z", "zz", "10", "9", "a\u{0}", "\u{10ffff}"];
    for left in samples {
        for right in samples {
            assert_eq!(comes_before(left, right), left < right, "{:?} {:?}", left, right);
        }
    }
    let names = names(&["b", "", "é", "a", "b", "ab", "B", "z", "a"]);
    let mut expected = names.clone();
    expected.sort_by(|a, b| b.cmp(a));
    assert_eq!(sort_descending(&names), expected);
    assert_eq!(sort_descending(&vec![]), Vec::<String>::new());
}

#[test]
fn a_table_without_inputs_or_outputs() {
    let mut simulation = Simulation::try_from(and_circuit("x", "y", "z")).unwrap();
    assert_eq!(simulation.table_lines(&vec![], &vec![], 100), vec!["||", "--", "||"]);
    assert_eq!(simulation.table_lines(&vec![], &names(&["z"]), 100), vec!["||z", "---", "||F"]);
    // A name that nothing carries is a column that drives nothing.
    assert_eq!(
        simulation.table_lines(&names(&["é"]), &names(&["z", "z"]), 100),
        vec!["é||z|z", "-------", "F ||F|F", "T ||F|F"]
    );
}

#[test]
fn of_a_name_in_two_columns_the_first_counts() {
    let mut simulation = Simulation::try_from(and_circuit("x", "x", "z")).unwrap();
    assert_eq!(
        simulation.table_lines(&names(&["x", "x"]), &names(&["z"]), 100),
        vec!["x|x||z", "------", "F|F||F", "F|F||F", "T|T||T", "T|T||T"]
    );
}
