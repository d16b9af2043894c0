use logicly_sim::io::{
    BuildError, Circuit, CustomCircuit, CustomCircuitWrapper, ErrorKind, InputType, Object,
    ObjectInner, RawCircuit, RawConnection, RawCustomCircuit, RawObject, Rotation,
    SimpleGateType, XorType,
};

const DEFINITION: &str = "0f1e2d3c-4b5a-6978-8796-a5b4c3d2e1f0";
const OTHER_DEFINITION: &str = "11111111-2222-3333-4444-555555555555";

fn raw(kind: &str, uid: &str) -> RawObject {
    RawObject {
        kind: kind.to_string(),
        uid: uid.to_string(),
        x: 1.5f64.to_bits(),
        y: (-2.0f64).to_bits(),
        rotation: 0,
        export_name: None,
        outputs: None,
        inputs: None,
        text: None,
        function_index: None,
    }
}

fn switch(uid: &str, name: Option<&str>) -> RawObject {
    RawObject {
        export_name: name.map(|n| n.to_string()),
        outputs: Some("false".to_string()),
        ..raw("switch@logic.ly", uid)
    }
}

fn bulb(uid: &str, name: Option<&str>) -> RawObject {
    RawObject { export_name: name.map(|n| n.to_string()), ..raw("light_bulb@logic.ly", uid) }
}

fn gate(kind: &str, uid: &str, inputs: u32) -> RawObject {
    RawObject { inputs: Some(inputs), ..raw(kind, uid) }
}

fn wire(from: &str, from_port: u32, to: &str, to_port: u32) -> RawConnection {
    RawConnection {
        input_uid: to.to_string(),
        output_uid: from.to_string(),
        input_index: to_port,
        output_index: from_port,
        points: None,
    }
}

fn build(raw: RawObject) -> Result<Object, BuildError> {
    Object::try_from(raw, &vec![])
}

fn slots(object: &Object) -> Vec<Option<(u32, usize)>> {
    match &object.inner {
        ObjectInner::SimpleGate { connections, .. }
        | ObjectInner::CustomGate { connections, .. }
        | ObjectInner::Output { connections, .. } => connections.clone(),
        _ => panic!("no input ports"),
    }
}

fn half_adder() -> CustomCircuit {
    let objects = Circuit::process_objects(
        vec![
            switch("a", Some("a")),
            switch("b", Some("b")),
            switch("unnamed", None),
            gate("xor@logic.ly", "x", 2),
            gate("and@logic.ly", "c", 2),
            bulb("sum", Some("sum")),
            bulb("carry", Some("carry")),
            bulb("probe", None),
        ],
        vec![
            wire("a", 0, "x", 0),
            wire("b", 0, "x", 1),
            wire("a", 0, "c", 0),
            wire("b", 0, "c", 1),
            wire("x", 0, "sum", 0),
            wire("c", 0, "carry", 0),
        ],
        &vec![],
    )
    .unwrap();
    CustomCircuit {
        objects,
        name: "half adder".to_string(),
        uid: DEFINITION.to_string(),
        label: "HA".to_string(),
        locations: vec![],
    }
}

#[test]
fn every_input_kind_builds_an_input() {
    for (kind, expected) in [
        ("switch@logic.ly", InputType::Switch),
        ("push_button@logic.ly", InputType::Button),
        ("constant_high@logic.ly", InputType::True),
        ("constant_low@logic.ly", InputType::False),
    ] {
        let record = RawObject {
            outputs: Some("true".to_string()),
            export_name: Some("in".to_string()),
            ..raw(kind, "u")
        };
        let object = build(record).unwrap();
        assert_eq!(object.uid, "u");
        assert_eq!(object.x, 1.5f64.to_bits());
        assert_eq!(object.y, (-2.0f64).to_bits());
        assert_eq!(object.rotation, Rotation::Right);
        assert_eq!(
            object.inner,
            ObjectInner::Input { export_name: Some("in".to_string()), kind: expected, value: true }
        );
        assert!(object.is_named_input());
        assert!(!object.is_output());
        assert_eq!(object.export_name_or_uid(), "in");
        assert_eq!(InputType::try_from(kind), Ok(expected));
    }
}

#[test]
fn a_constant_without_a_value_has_its_own() {
    assert_eq!(
        build(raw("constant_high@logic.ly", "h")).unwrap().inner,
        ObjectInner::Input { export_name: None, kind: InputType::True, value: true }
    );
    assert_eq!(
        build(raw("constant_low@logic.ly", "l")).unwrap().inner,
        ObjectInner::Input { export_name: None, kind: InputType::False, value: false }
    );
    let low_said_high =
        RawObject { outputs: Some("true".to_string()), ..raw("constant_low@logic.ly", "l") };
    assert_eq!(
        build(low_said_high).unwrap().inner,
        ObjectInner::Input { export_name: None, kind: InputType::False, value: true }
    );
}

#[test]
fn a_switch_without_a_value_is_refused() {
    for kind in ["switch@logic.ly", "push_button@logic.ly"] {
        let failure = build(raw(kind, "s")).unwrap_err();
        assert_eq!(failure, BuildError::MissingInitialValue);
        assert_eq!(failure.kind(), ErrorKind::SchemaViolation);
        assert_eq!(failure.message(), "Invalid gate");
    }
}

#[test]
fn an_input_value_other_than_true_or_false_is_refused() {
    let record = RawObject { outputs: Some("yes".to_string()), ..raw("switch@logic.ly", "s") };
    let failure = build(record).unwrap_err();
    assert_eq!(failure, BuildError::UnsupportedOutputFlag("yes".to_string()));
    assert_eq!(failure.kind(), ErrorKind::UnsupportedValue);
    assert_eq!(
        failure.message(),
        "invalid output field in object: expected 'true' or 'false', not yes"
    );
    let record = RawObject { outputs: Some("True".to_string()), ..raw("constant_high@logic.ly", "s") };
    assert_eq!(build(record), Err(BuildError::UnsupportedOutputFlag("True".to_string())));
}

#[test]
fn an_input_with_a_forbidden_attribute_is_refused() {
    let records = [
        RawObject { inputs: Some(1), ..switch("s", None) },
        RawObject { text: Some("t".to_string()), ..switch("s", None) },
        RawObject { function_index: Some(0), ..switch("s", None) },
    ];
    for record in records {
        let failure = build(record).unwrap_err();
        assert_eq!(failure, BuildError::InvalidInput);
        assert_eq!(failure.kind(), ErrorKind::SchemaViolation);
        assert_eq!(failure.message(), "Invalid gate: unexpected property");
    }
}

#[test]
fn outputs_have_one_or_four_ports() {
    let light = build(bulb("o", Some("out"))).unwrap();
    assert_eq!(
        light.inner,
        ObjectInner::Output { export_name: Some("out".to_string()), connections: vec![None] }
    );
    assert!(light.is_output());
    assert!(light.is_named_output());
    assert!(!light.is_named_input());
    assert_eq!(light.export_name_or_uid(), "out");
    let digit = build(raw("digit@logic.ly", "d")).unwrap();
    assert_eq!(digit.inner, ObjectInner::Output { export_name: None, connections: vec![None; 4] });
    assert!(digit.is_output());
    assert!(!digit.is_named_output());
    assert_eq!(digit.export_name_or_uid(), "d");
}

#[test]
fn an_output_with_a_forbidden_attribute_is_refused() {
    let records = [
        RawObject { outputs: Some("true".to_string()), ..bulb("o", None) },
        RawObject { inputs: Some(1), ..bulb("o", None) },
        RawObject { text: Some("t".to_string()), ..bulb("o", None) },
        RawObject { function_index: Some(1), ..raw("digit@logic.ly", "o") },
    ];
    for record in records {
        let failure = build(record).unwrap_err();
        assert_eq!(failure, BuildError::InvalidOutput);
        assert_eq!(failure.kind(), ErrorKind::SchemaViolation);
        assert_eq!(failure.message(), "Invalid light bulb");
    }
}

#[test]
fn a_label_carries_its_text() {
    let record = RawObject { text: Some("hello".to_string()), ..raw("label@logic.ly", "l") };
    assert_eq!(build(record).unwrap().inner, ObjectInner::Label { text: "hello".to_string() });
}

#[test]
fn a_label_without_text_or_with_more_is_refused() {
    let label = || RawObject { text: Some("t".to_string()), ..raw("label@logic.ly", "l") };
    let records = [
        raw("label@logic.ly", "l"),
        RawObject { export_name: Some("n".to_string()), ..label() },
        RawObject { outputs: Some("true".to_string()), ..label() },
        RawObject { inputs: Some(0), ..label() },
        RawObject { function_index: Some(0), ..label() },
    ];
    for record in records {
        let failure = build(record).unwrap_err();
        assert_eq!(failure, BuildError::InvalidLabel);
        assert_eq!(failure.kind(), ErrorKind::SchemaViolation);
        assert_eq!(failure.message(), "Invalid label: attributes are invalid");
    }
}

#[test]
fn every_gate_kind_builds_a_gate_with_its_input_count() {
    for (kind, expected) in [
        ("buffer@logic.ly", SimpleGateType::Buffer),
        ("not@logic.ly", SimpleGateType::Not),
        ("and@logic.ly", SimpleGateType::And),
        ("nand@logic.ly", SimpleGateType::Nand),
        ("or@logic.ly", SimpleGateType::Or),
        ("nor@logic.ly", SimpleGateType::Nor),
        ("xor@logic.ly", SimpleGateType::Xor),
        ("xnor@logic.ly", SimpleGateType::Xnor),
    ] {
        let object = build(gate(kind, "g", 3)).unwrap();
        assert_eq!(
            object.inner,
            ObjectInner::SimpleGate {
                xor_type: XorType::Odd,
                kind: expected,
                connections: vec![None, None, None]
            }
        );
        assert_eq!(SimpleGateType::try_from(kind), Ok(expected));
    }
    assert_eq!(slots(&build(gate("and@logic.ly", "g", 0)).unwrap()), vec![]);
}

#[test]
fn the_function_index_selects_the_reading_of_exclusive_or() {
    for (index, expected) in [
        (None, XorType::Odd),
        (Some(0), XorType::Odd),
        (Some(1), XorType::One),
        (Some(2), XorType::Odd),
    ] {
        let record = RawObject { function_index: index, ..gate("xor@logic.ly", "g", 2) };
        match build(record).unwrap().inner {
            ObjectInner::SimpleGate { xor_type, .. } => assert_eq!(xor_type, expected),
            other => panic!("not a gate: {:?}", other),
        }
    }
}

#[test]
fn a_gate_without_input_count_or_with_more_is_refused() {
    let records = [
        raw("and@logic.ly", "g"),
        RawObject { export_name: Some("n".to_string()), ..gate("and@logic.ly", "g", 2) },
        RawObject { outputs: Some("true".to_string()), ..gate("or@logic.ly", "g", 2) },
        RawObject { text: Some("t".to_string()), ..gate("not@logic.ly", "g", 1) },
    ];
    for record in records {
        let failure = build(record).unwrap_err();
        assert_eq!(failure, BuildError::InvalidGate);
        assert_eq!(failure.kind(), ErrorKind::SchemaViolation);
        assert_eq!(failure.message(), "Invalid gate: attributes are invalid");
    }
}

#[test]
fn an_instance_has_the_ports_of_its_definition() {
    let customs = vec![half_adder()];
    let object = Object::try_from(raw(DEFINITION, "i"), &customs).unwrap();
    assert_eq!(
        object.inner,
        ObjectInner::CustomGate {
            uuid: DEFINITION.to_string(),
            num_outputs: 2,
            connections: vec![None, None]
        }
    );
    let with_index = RawObject { function_index: Some(1), ..raw(DEFINITION, "i") };
    assert!(Object::try_from(with_index, &customs).is_ok());
}

#[test]
fn of_two_definitions_with_one_uid_the_last_counts() {
    let mut bare = half_adder();
    bare.objects.clear();
    let object = Object::try_from(raw(DEFINITION, "i"), &vec![half_adder(), bare]).unwrap();
    assert_eq!(
        object.inner,
        ObjectInner::CustomGate { uuid: DEFINITION.to_string(), num_outputs: 0, connections: vec![] }
    );
}

#[test]
fn an_instance_of_an_unknown_definition_is_refused() {
    let failure = Object::try_from(raw(OTHER_DEFINITION, "i"), &vec![half_adder()]).unwrap_err();
    assert_eq!(failure, BuildError::UnknownCustomCircuit("i".to_string()));
    assert_eq!(failure.kind(), ErrorKind::UnresolvedReference);
    assert_eq!(failure.message(), "Unknown custom circuit i");
}

#[test]
fn an_instance_with_a_forbidden_attribute_is_refused() {
    let customs = vec![half_adder()];
    let records = [
        RawObject { export_name: Some("n".to_string()), ..raw(DEFINITION, "i") },
        RawObject { outputs: Some("true".to_string()), ..raw(DEFINITION, "i") },
        RawObject { inputs: Some(2), ..raw(DEFINITION, "i") },
        RawObject { text: Some("t".to_string()), ..raw(OTHER_DEFINITION, "i") },
    ];
    for record in records {
        let failure = Object::try_from(record, &customs).unwrap_err();
        assert_eq!(failure, BuildError::InvalidCustomGate);
        assert_eq!(failure.kind(), ErrorKind::SchemaViolation);
        assert_eq!(failure.message(), "Invalid custom gate: attributes are invalid");
    }
}

#[test]
fn a_kind_that_is_neither_known_nor_a_uuid_is_refused() {
    for kind in ["", "and", "AND@logic.ly", "clock@logic.ly", "0f1e2d3c-4b5a-6978-8796"] {
        let failure = build(raw(kind, "u")).unwrap_err();
        assert_eq!(failure, BuildError::UnsupportedKind(kind.to_string()));
        assert_eq!(failure.kind(), ErrorKind::SchemaViolation);
        assert_eq!(failure.message(), format!("Unsupported object type {}", kind));
    }
}

#[test]
fn a_text_that_names_no_type_is_refused() {
    for text in ["", "switch", "and@logic.ly ", "Switch@logic.ly", "light_bulb@logic.ly"] {
        let failure = InputType::try_from(text).unwrap_err();
        assert_eq!(failure, BuildError::InvalidInputType(text.to_string()));
        assert_eq!(failure.kind(), ErrorKind::UnsupportedValue);
        assert_eq!(failure.message(), format!("invalid type {}", text));
        let failure = SimpleGateType::try_from(text).unwrap_err();
        assert_eq!(failure, BuildError::InvalidGateType(text.to_string()));
        assert_eq!(failure.kind(), ErrorKind::UnsupportedValue);
        assert_eq!(failure.message(), format!("invalid type for simple gate: {}", text));
    }
    assert!(InputType::try_from("and@logic.ly").is_err());
    assert!(SimpleGateType::try_from("switch@logic.ly").is_err());
}

#[test]
fn a_kind_in_any_spelling_of_a_uuid_is_an_instance() {
    // Only the spelling that a definition carries finds it.
    let customs = vec![half_adder()];
    let spellings = [
        DEFINITION.to_uppercase(),
        DEFINITION.replace('-', ""),
        format!("{{{}}}", DEFINITION),
        format!("urn:uuid:{}", DEFINITION),
    ];
    for kind in spellings {
        assert_eq!(
            Object::try_from(raw(&kind, "i"), &customs),
            Err(BuildError::UnknownCustomCircuit("i".to_string())),
            "{}",
            kind
        );
    }
    for kind in [format!("{}0", DEFINITION), format!("{{{}", DEFINITION), DEFINITION.replace('0', "g")] {
        assert_eq!(
            Object::try_from(raw(&kind, "i"), &customs),
            Err(BuildError::UnsupportedKind(kind.clone()))
        );
    }
}

#[test]
fn whether_a_kind_is_a_uuid_is_given_to_classify() {
    let customs = vec![half_adder()];
    assert!(Object::classify(raw(DEFINITION, "i"), true, &customs).is_ok());
    assert_eq!(
        Object::classify(raw(DEFINITION, "i"), false, &customs),
        Err(BuildError::UnsupportedKind(DEFINITION.to_string()))
    );
    assert_eq!(
        Object::classify(raw("no uuid", "i"), true, &customs),
        Err(BuildError::UnknownCustomCircuit("i".to_string()))
    );
    assert!(Object::classify(gate("and@logic.ly", "g", 2), true, &customs).is_ok());
}

#[test]
fn the_four_right_angles_are_the_rotations() {
    assert_eq!(Rotation::try_from(0), Ok(Rotation::Right));
    assert_eq!(Rotation::try_from(90), Ok(Rotation::Down));
    assert_eq!(Rotation::try_from(180), Ok(Rotation::Left));
    assert_eq!(Rotation::try_from(270), Ok(Rotation::Up));
    for (angle, rotation) in
        [(0, Rotation::Right), (90, Rotation::Down), (180, Rotation::Left), (270, Rotation::Up)]
    {
        let record = RawObject { rotation: angle, ..gate("and@logic.ly", "g", 2) };
        assert_eq!(build(record).unwrap().rotation, rotation);
    }
}

#[test]
fn any_other_rotation_is_refused() {
    for angle in [1u16, 45, 89, 91, 360, 65535] {
        let failure = Rotation::try_from(angle).unwrap_err();
        assert_eq!(failure, BuildError::UnsupportedRotation(angle));
        assert_eq!(failure.kind(), ErrorKind::UnsupportedValue);
        assert_eq!(failure.message(), format!("Unsupported rotation {}", angle));
        for record in [
            RawObject { rotation: angle, ..switch("s", None) },
            RawObject { rotation: angle, ..bulb("o", None) },
            RawObject { rotation: angle, text: Some("t".to_string()), ..raw("label@logic.ly", "l") },
            RawObject { rotation: angle, ..gate("nor@logic.ly", "g", 2) },
        ] {
            assert_eq!(build(record), Err(BuildError::UnsupportedRotation(angle)));
        }
        let instance = RawObject { rotation: angle, ..raw(DEFINITION, "i") };
        assert_eq!(
            Object::try_from(instance, &vec![half_adder()]),
            Err(BuildError::UnsupportedRotation(angle))
        );
    }
}

#[test]
fn the_order_of_the_checks() {
    // Attributes come before the rotation, the rotation before the value
    // of an input, the definition of an instance before the rotation.
    let record = RawObject { rotation: 45, inputs: Some(1), ..switch("s", None) };
    assert_eq!(build(record), Err(BuildError::InvalidInput));
    let record = RawObject { rotation: 45, outputs: Some("maybe".to_string()), ..switch("s", None) };
    assert_eq!(build(record), Err(BuildError::UnsupportedRotation(45)));
    let record = RawObject { rotation: 45, outputs: None, ..switch("s", None) };
    assert_eq!(build(record), Err(BuildError::UnsupportedRotation(45)));
    let record = RawObject { rotation: 45, ..raw(OTHER_DEFINITION, "i") };
    assert_eq!(
        Object::try_from(record, &vec![half_adder()]),
        Err(BuildError::UnknownCustomCircuit("i".to_string()))
    );
}

#[test]
fn a_connection_is_stored_on_its_target() {
    let objects = Circuit::process_objects(
        vec![switch("a", None), switch("b", None), gate("and@logic.ly", "g", 3), bulb("o", None)],
        vec![wire("b", 0, "g", 2), wire("a", 0, "g", 0), wire("g", 0, "o", 0)],
        &vec![],
    )
    .unwrap();
    assert_eq!(objects.len(), 4);
    assert_eq!(slots(&objects[2]), vec![Some((0, 0)), None, Some((0, 1))]);
    assert_eq!(slots(&objects[3]), vec![Some((0, 2))]);
}

#[test]
fn the_source_port_is_carried_over_unchecked() {
    let objects = Circuit::process_objects(
        vec![switch("a", None), raw("digit@logic.ly", "d")],
        vec![wire("a", 7, "d", 3)],
        &vec![],
    )
    .unwrap();
    assert_eq!(slots(&objects[1]), vec![None, None, None, Some((7, 0))]);
}

#[test]
fn the_last_connection_onto_a_port_stays() {
    let objects = Circuit::process_objects(
        vec![switch("a", None), switch("b", None), bulb("o", None)],
        vec![wire("a", 0, "o", 0), wire("b", 0, "o", 0)],
        &vec![],
    )
    .unwrap();
    assert_eq!(slots(&objects[2]), vec![Some((0, 1))]);
}

#[test]
fn of_two_objects_with_one_uid_a_connection_means_the_last() {
    let objects = Circuit::process_objects(
        vec![switch("s", None), switch("s", None), bulb("o", None), bulb("o", None)],
        vec![wire("s", 0, "o", 0)],
        &vec![],
    )
    .unwrap();
    assert_eq!(slots(&objects[2]), vec![None]);
    assert_eq!(slots(&objects[3]), vec![Some((0, 1))]);
}

#[test]
fn a_connection_onto_an_input_or_a_label_is_refused() {
    let label = RawObject { text: Some("t".to_string()), ..raw("label@logic.ly", "l") };
    for target in ["s", "l"] {
        let failure = Circuit::process_objects(
            vec![switch("s", None), label.clone(), gate("and@logic.ly", "g", 2)],
            vec![wire("g", 0, target, 0)],
            &vec![],
        )
        .unwrap_err();
        assert_eq!(failure, BuildError::InvalidConnectionTarget);
        assert_eq!(failure.kind(), ErrorKind::InvalidConnectionTarget);
        assert_eq!(
            failure.message(),
            "Invalid connection: cannot connect an output or a label to something else"
        );
    }
}

#[test]
fn a_connection_with_an_unknown_end_is_refused() {
    for (from, to) in [("nobody", "g"), ("s", "nobody"), ("nobody", "nothing")] {
        let failure = Circuit::process_objects(
            vec![switch("s", None), gate("and@logic.ly", "g", 2)],
            vec![wire(from, 0, to, 0)],
            &vec![],
        )
        .unwrap_err();
        assert_eq!(failure, BuildError::UnknownObject);
        assert_eq!(failure.kind(), ErrorKind::UnresolvedReference);
        assert_eq!(failure.message(), "UUID does not correspond to any known object");
    }
}

#[test]
fn a_connection_onto_a_port_out_of_range_is_refused() {
    for (target, port) in [("g", 2), ("g", u32::MAX), ("o", 1), ("d", 4), ("none", 0)] {
        let failure = Circuit::process_objects(
            vec![
                switch("s", None),
                gate("and@logic.ly", "g", 2),
                bulb("o", None),
                raw("digit@logic.ly", "d"),
                gate("or@logic.ly", "none", 0),
            ],
            vec![wire("s", 0, target, port)],
            &vec![],
        )
        .unwrap_err();
        assert_eq!(failure, BuildError::PortOutOfRange);
        assert_eq!(failure.kind(), ErrorKind::OutOfRangePort);
        assert_eq!(failure.message(), "Invalid connection: the input port is out of range");
    }
}

#[test]
fn the_names_of_the_types() {
    let inputs = [InputType::Switch, InputType::Button, InputType::True, InputType::False];
    assert_eq!(inputs.map(|kind| kind.name()), ["Switch", "Button", "True", "False"]);
    let gates = [
        SimpleGateType::Buffer,
        SimpleGateType::Not,
        SimpleGateType::And,
        SimpleGateType::Nand,
        SimpleGateType::Or,
        SimpleGateType::Nor,
        SimpleGateType::Xor,
        SimpleGateType::Xnor,
    ];
    assert_eq!(
        gates.map(|kind| kind.name()),
        ["Buffer", "Not", "And", "Nand", "Or", "Nor", "Xor", "Xnor"]
    );
}

#[test]
fn a_refused_record_comes_before_a_refused_connection() {
    let failure = Circuit::process_objects(
        vec![switch("s", None), raw("and@logic.ly", "g"), raw("what", "w")],
        vec![wire("nobody", 0, "s", 0)],
        &vec![],
    )
    .unwrap_err();
    assert_eq!(failure, BuildError::InvalidGate);
    let failure = Circuit::process_objects(
        vec![switch("s", None), gate("and@logic.ly", "g", 1)],
        vec![wire("s", 0, "g", 0), wire("s", 0, "g", 1), wire("s", 0, "s", 0)],
        &vec![],
    )
    .unwrap_err();
    assert_eq!(failure, BuildError::PortOutOfRange);
}

fn definition(uid: &str, name: &str, instances: &[&str]) -> CustomCircuitWrapper {
    let mut objects = vec![switch("in", Some("in")), bulb("out", Some("out"))];
    for (k, instance) in instances.iter().enumerate() {
        objects.push(raw(instance, &format!("instance {}", k)));
    }
    CustomCircuitWrapper {
        name: name.to_string(),
        uid: uid.to_string(),
        label: String::new(),
        inner: RawCustomCircuit { objects, connections: vec![wire("in", 0, "out", 0)], locations: vec![] },
    }
}

fn document(customs: Option<Vec<CustomCircuitWrapper>>, objects: Vec<RawObject>) -> RawCircuit {
    RawCircuit { xmlns: None, objects, connections: vec![], settings: vec![], customs }
}

#[test]
fn a_document_without_definitions_builds_without_them() {
    let circuit = Circuit::try_from(document(None, vec![switch("s", None)])).unwrap();
    assert_eq!(circuit.customs, None);
    assert_eq!(circuit.objects.len(), 1);
    assert_eq!(
        Circuit::try_from(document(None, vec![raw(DEFINITION, "i")])),
        Err(BuildError::UnknownCustomCircuit("i".to_string()))
    );
}

#[test]
fn definitions_are_built_in_dependency_order() {
    let b = definition(OTHER_DEFINITION, "B", &[DEFINITION]);
    let a = definition(DEFINITION, "A", &[]);
    let circuit =
        Circuit::try_from(document(Some(vec![b, a]), vec![raw(OTHER_DEFINITION, "top")])).unwrap();
    let customs = circuit.customs.unwrap();
    assert_eq!(customs.len(), 2);
    assert_eq!(customs[0].name, "A");
    assert_eq!(customs[0].uid, DEFINITION);
    assert_eq!(customs[1].name, "B");
    assert_eq!(slots(&customs[0].objects[1]), vec![Some((0, 0))]);
    assert_eq!(
        customs[1].objects[2].inner,
        ObjectInner::CustomGate { uuid: DEFINITION.to_string(), num_outputs: 1, connections: vec![None] }
    );
    assert_eq!(
        circuit.objects[0].inner,
        ObjectInner::CustomGate {
            uuid: OTHER_DEFINITION.to_string(),
            num_outputs: 1,
            connections: vec![None]
        }
    );
}

#[test]
fn definitions_in_a_circle_end_the_build() {
    let a = definition(DEFINITION, "A", &[OTHER_DEFINITION]);
    let b = definition(OTHER_DEFINITION, "B", &[DEFINITION]);
    let failure = Circuit::try_from(document(Some(vec![a, b]), vec![])).unwrap_err();
    assert_eq!(
        failure,
        BuildError::DependencyCycle(vec![
            DEFINITION.to_string(),
            OTHER_DEFINITION.to_string(),
            DEFINITION.to_string()
        ])
    );
    assert_eq!(failure.kind(), ErrorKind::DependencyCycle);
    assert_eq!(
        failure.message(),
        format!(
            "Circuit contains a dependency cycle: {} -> {} -> {}",
            DEFINITION, OTHER_DEFINITION, DEFINITION
        )
    );
}

#[test]
fn a_failure_in_a_definition_ends_the_build() {
    let mut a = definition(DEFINITION, "A", &[]);
    a.inner.connections.push(wire("in", 0, "out", 5));
    let failure =
        Circuit::try_from(document(Some(vec![a]), vec![raw("what", "w")])).unwrap_err();
    assert_eq!(failure, BuildError::PortOutOfRange);
    let a = definition(DEFINITION, "A", &[]);
    let failure =
        Circuit::try_from(document(Some(vec![a]), vec![raw("what", "w")])).unwrap_err();
    assert_eq!(failure, BuildError::UnsupportedKind("what".to_string()));
}
