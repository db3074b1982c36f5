use summon::circuit::{
    Circuit, CircuitError, CircuitInput, CircuitNumber, ConstantValue, Gate, MpcSettings,
    NumberOrBool,
};
use summon::name_map::NameMap;
use summon::ops::{to_bristol_binary_op, to_bristol_unary_op, BinaryOp, UnaryOp, VsType};
use summon::summon_io::InputDescriptor;

fn n(x: usize) -> NumberOrBool {
    NumberOrBool::Number(x)
}

fn b(x: bool) -> NumberOrBool {
    NumberOrBool::Bool(x)
}

fn binary(op: BinaryOp, l: NumberOrBool, r: NumberOrBool) -> Option<NumberOrBool> {
    NumberOrBool::binary_op(op, &l, &r)
}

#[test]
fn numbers_and_booleans() {
    assert_eq!(n(7).as_usize(), 7);
    assert_eq!(b(true).as_usize(), 1);
    assert_eq!(b(false).as_usize(), 0);
    assert!(n(3).as_bool());
    assert!(!n(0).as_bool());
    assert!(b(true).as_bool());
    assert_eq!(NumberOrBool::zero(), n(0));
    assert_eq!(NumberOrBool::from_constant(&ConstantValue::Number(9)), n(9));
    assert_eq!(NumberOrBool::from_constant(&ConstantValue::Bool(true)), b(true));
    assert_eq!(n(4).duplicate(), n(4));
    // a number is never the same as a boolean
    assert_ne!(n(1), b(true));
}

#[test]
fn unary_operators_on_numbers() {
    assert_eq!(NumberOrBool::unary_op(UnaryOp::Plus, &n(5)), n(5));
    assert_eq!(NumberOrBool::unary_op(UnaryOp::Plus, &b(true)), b(true));
    assert_eq!(NumberOrBool::unary_op(UnaryOp::Minus, &n(1)), n(usize::MAX));
    assert_eq!(NumberOrBool::unary_op(UnaryOp::Minus, &n(0)), n(0));
    assert_eq!(NumberOrBool::unary_op(UnaryOp::Not, &n(0)), b(true));
    assert_eq!(NumberOrBool::unary_op(UnaryOp::Not, &n(8)), b(false));
    assert_eq!(NumberOrBool::unary_op(UnaryOp::Not, &b(true)), b(false));
    assert_eq!(NumberOrBool::unary_op(UnaryOp::BitNot, &n(0)), n(usize::MAX));
    assert_eq!(NumberOrBool::unary_op(UnaryOp::BitNot, &n(usize::MAX - 1)), n(1));
}

#[test]
fn binary_operators_on_numbers() {
    assert_eq!(binary(BinaryOp::Plus, n(2), n(3)), Some(n(5)));
    assert_eq!(binary(BinaryOp::Plus, n(usize::MAX), n(2)), Some(n(1)));
    assert_eq!(binary(BinaryOp::Plus, b(true), n(2)), Some(n(3)));
    assert_eq!(binary(BinaryOp::Minus, n(2), n(3)), Some(n(usize::MAX)));
    assert_eq!(binary(BinaryOp::Mul, n(6), n(7)), Some(n(42)));
    assert_eq!(binary(BinaryOp::Mul, n(usize::MAX), n(2)), Some(n(usize::MAX - 1)));
    assert_eq!(binary(BinaryOp::Div, n(17), n(5)), Some(n(3)));
    assert_eq!(binary(BinaryOp::Div, n(17), n(0)), None);
    assert_eq!(binary(BinaryOp::Mod, n(17), n(5)), Some(n(2)));
    assert_eq!(binary(BinaryOp::Mod, n(17), n(0)), None);
    assert_eq!(binary(BinaryOp::Exp, n(2), n(10)), Some(n(1024)));
    assert_eq!(binary(BinaryOp::Exp, n(3), n(0)), Some(n(1)));
    assert_eq!(binary(BinaryOp::Exp, n(2), n(usize::BITS as usize)), Some(n(0)));
    assert_eq!(binary(BinaryOp::Exp, n(3), n(4)), Some(n(81)));
    assert_eq!(binary(BinaryOp::LooseEq, n(1), b(true)), Some(b(true)));
    assert_eq!(binary(BinaryOp::LooseNe, n(1), n(2)), Some(b(true)));
    assert_eq!(binary(BinaryOp::Eq, n(4), n(4)), Some(b(true)));
    assert_eq!(binary(BinaryOp::Ne, n(4), n(4)), Some(b(false)));
    assert_eq!(binary(BinaryOp::And, n(4), n(0)), Some(b(false)));
    assert_eq!(binary(BinaryOp::And, n(4), b(true)), Some(b(true)));
    assert_eq!(binary(BinaryOp::Or, n(0), b(false)), Some(b(false)));
    assert_eq!(binary(BinaryOp::Or, n(0), n(2)), Some(b(true)));
    assert_eq!(binary(BinaryOp::Less, n(1), n(2)), Some(b(true)));
    assert_eq!(binary(BinaryOp::Less, n(2), n(2)), Some(b(false)));
    assert_eq!(binary(BinaryOp::LessEq, n(2), n(2)), Some(b(true)));
    assert_eq!(binary(BinaryOp::Greater, n(3), n(2)), Some(b(true)));
    assert_eq!(binary(BinaryOp::GreaterEq, n(1), n(2)), Some(b(false)));
    assert_eq!(binary(BinaryOp::BitAnd, n(0b1100), n(0b1010)), Some(n(0b1000)));
    assert_eq!(binary(BinaryOp::BitOr, n(0b1100), n(0b1010)), Some(n(0b1110)));
    assert_eq!(binary(BinaryOp::BitXor, n(0b1100), n(0b1010)), Some(n(0b0110)));
    assert_eq!(binary(BinaryOp::LeftShift, n(3), n(4)), Some(n(48)));
    assert_eq!(binary(BinaryOp::LeftShift, n(3), n(usize::BITS as usize)), Some(n(3)));
    assert_eq!(binary(BinaryOp::RightShift, n(48), n(4)), Some(n(3)));
    assert_eq!(binary(BinaryOp::RightShiftUnsigned, n(usize::MAX), n(1)), Some(n(usize::MAX >> 1)));
}

fn small_circuit() -> Circuit {
    // wires: 0 = x, 1 = y, 2 = constant 10, 3 = x + y, 4 = (x + y) * 10, 5 = !(wire 4)
    let mut inputs = NameMap::new();
    inputs.insert("x".to_string(), CircuitInput { wire_id: 0, type_: VsType::Number });
    inputs.insert("y".to_string(), CircuitInput { wire_id: 1, type_: VsType::Number });
    let mut outputs = NameMap::new();
    outputs.insert("product".to_string(), 4);
    outputs.insert("is_zero".to_string(), 5);
    Circuit {
        size: 6,
        constants: vec![(2, ConstantValue::Number(10))],
        inputs,
        outputs,
        mpc_settings: MpcSettings(vec![]),
        gates: vec![
            Gate::Binary { op: BinaryOp::Plus, left: 0, right: 1, output: 3 },
            Gate::Binary { op: BinaryOp::Mul, left: 3, right: 2, output: 4 },
            Gate::Unary { op: UnaryOp::Not, input: 4, output: 5 },
        ],
    }
}

fn values(pairs: &[(&str, usize)]) -> NameMap<NumberOrBool> {
    let mut m = NameMap::new();
    for (name, v) in pairs {
        m.insert(name.to_string(), n(*v));
    }
    m
}

#[test]
fn working_a_circuit_out() {
    let circuit = small_circuit();
    let out = circuit.eval(&values(&[("x", 2), ("y", 3)])).unwrap();
    assert_eq!(out.len(), 2);
    assert_eq!(out.get("product"), Some(&n(50)));
    assert_eq!(out.get("is_zero"), Some(&b(false)));
    let out = circuit.eval(&values(&[("y", 0), ("x", 0), ("more", 9)])).unwrap();
    assert_eq!(out.get("product"), Some(&n(0)));
    assert_eq!(out.get("is_zero"), Some(&b(true)));
    assert_eq!(out.get("more"), None);
}

#[test]
fn a_missing_input_and_a_division_by_zero() {
    let circuit = small_circuit();
    // the inputs are looked up by rising name: `x` is at position 0, `y` at 1
    assert_eq!(circuit.eval(&values(&[("x", 2)])).err(), Some(CircuitError::MissingInput(1)));
    assert_eq!(circuit.eval(&values(&[])).err(), Some(CircuitError::MissingInput(0)));
    let mut dividing = small_circuit();
    dividing.gates[1] = Gate::Binary { op: BinaryOp::Div, left: 2, right: 3, output: 4 };
    assert_eq!(
        dividing.eval(&values(&[("x", 0), ("y", 0)])).err(),
        Some(CircuitError::DivisionByZero(1))
    );
    assert_eq!(
        dividing.eval(&values(&[("x", 1), ("y", 1)])).unwrap().get("product"),
        Some(&n(5))
    );
}

#[test]
fn depth_is_the_longest_chain_to_an_output() {
    let mut circuit = small_circuit();
    assert_eq!(circuit.depth(), 3);
    let mut outputs = NameMap::new();
    outputs.insert("sum".to_string(), 3);
    circuit.outputs = outputs;
    assert_eq!(circuit.depth(), 1);
    circuit.outputs = NameMap::new();
    assert_eq!(circuit.depth(), 0);
    assert_eq!(circuit.gates[2].output(), 5);
}

#[test]
fn bristol_form_of_a_circuit() {
    let export = small_circuit().to_bristol();
    assert_eq!(export.circuit.header.ngates(), 3);
    assert_eq!(export.circuit.header.nwires(), 6);
    assert_eq!(
        export.circuit.to_text(),
        "3 6\n2 1 1\n2 1 1\n\n2 1 0 1 3 ADD\n2 1 3 2 4 MUL\n1 1 4 5 INV\n"
    );
    assert_eq!(export.circuit.gates[2].k, 1);
    assert_eq!(export.circuit.gates[2].l, 1);
    assert_eq!(export.circuit.gates[2].ins, vec![4]);
    assert_eq!(export.circuit.gates[2].outs, vec![5]);
    assert_eq!(export.info.constants.len(), 1);
    assert_eq!(export.info.constants[0].name, "constant_10");
    assert_eq!(export.info.constants[0].value, ConstantValue::Number(10));
    assert_eq!(export.info.constants[0].address, 2);
    assert_eq!(export.info.inputs.len(), 2);
    assert_eq!(export.info.inputs[0].name, "x");
    assert_eq!(export.info.inputs[0].address, 0);
    assert_eq!(export.info.inputs[0].type_, VsType::Number);
    assert_eq!(export.info.inputs[0].width, 1);
    assert_eq!(export.info.inputs[1].name, "y");
    assert_eq!(export.info.outputs[0].name, "product");
    assert_eq!(export.info.outputs[0].address, 4);
    assert_eq!(export.info.outputs[1].name, "is_zero");
    assert_eq!(export.info.outputs[1].address, 5);
}

#[test]
fn names_of_operators() {
    assert_eq!(to_bristol_unary_op(UnaryOp::Not), "INV");
    assert_eq!(to_bristol_unary_op(UnaryOp::Plus), "COPY");
    assert_eq!(to_bristol_unary_op(UnaryOp::Minus), "NEG");
    assert_eq!(to_bristol_unary_op(UnaryOp::BitNot), "BITNOT");
    assert_eq!(to_bristol_binary_op(BinaryOp::Plus), "ADD");
    assert_eq!(to_bristol_binary_op(BinaryOp::Minus), "SUB");
    assert_eq!(to_bristol_binary_op(BinaryOp::Mul), "MUL");
    assert_eq!(to_bristol_binary_op(BinaryOp::And), "AND");
    assert_eq!(to_bristol_binary_op(BinaryOp::Or), "OR");
    assert_eq!(to_bristol_binary_op(BinaryOp::BitXor), "XOR");
    assert_eq!(to_bristol_binary_op(BinaryOp::Eq), "EQ");
    assert_eq!(to_bristol_binary_op(BinaryOp::LooseEq), "EQ");
    assert_eq!(to_bristol_binary_op(BinaryOp::Less), "LT");
    assert_eq!(to_bristol_binary_op(BinaryOp::LessEq), "LE");
}

fn descriptor(from: &str, name: &str, id: usize) -> InputDescriptor {
    InputDescriptor { from: from.to_string(), name: name.to_string(), id }
}

#[test]
fn settings_of_the_parties() {
    let parties = vec!["alice".to_string(), "bob".to_string(), "carol".to_string()];
    let inputs = vec![
        descriptor("bob", "b1", 0),
        descriptor("alice", "a1", 1),
        descriptor("bob", "b2", 2),
    ];
    let settings =
        MpcSettings::from_io(&parties, &inputs, vec!["out".to_string()]).unwrap().0;
    assert_eq!(settings.len(), 3);
    assert_eq!(settings[0].name, "alice");
    assert_eq!(settings[0].inputs, vec!["a1".to_string()]);
    assert_eq!(settings[1].name, "bob");
    assert_eq!(settings[1].inputs, vec!["b1".to_string(), "b2".to_string()]);
    assert_eq!(settings[2].name, "carol");
    assert!(settings[2].inputs.is_empty());
    for party in &settings {
        assert_eq!(party.outputs, vec!["out".to_string()]);
    }
    let stray = vec![descriptor("alice", "a1", 0), descriptor("dave", "d1", 1)];
    assert_eq!(
        MpcSettings::from_io(&parties, &stray, vec![]).err(),
        Some(CircuitError::UnknownParty(1))
    );
}
