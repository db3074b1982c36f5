use summon::bristol::BristolError;
use summon::circuit::{CircuitInput, ConstantValue, Gate, NumberOrBool};
use summon::circuit_builder::{
    as_circuit_signal, canon_of, get_dependencies, get_signal_dependencies, BuilderError,
    CircuitBuilder,
};
use summon::circuit_signal::SignalArena;
use summon::compile::{
    build, builder_error_message, check_entry_point, compile, generate_circuit, run_failure,
};
use summon::diagnostics_by_path::{Diagnostic, DiagnosticLevel, DiagnosticsByPath, Span};
use summon::name_map::NameMap;
use summon::ops::{BinaryOp, UnaryOp, VsType};
use summon::recycle::recycle;
use summon::summon_io::{HostError, HostErrorKind, SummonIO};
use summon::vs_value::{ObjectKind, SignalHandle, Val};

fn text(s: &str) -> Val {
    Val::String(s.to_string())
}

fn number_type() -> Val {
    Val::Object(ObjectKind::NumberType)
}

fn declare(io: &mut SummonIO, arena: &mut SignalArena, from: &str, name: &str) -> Val {
    io.input(arena, &vec![text(from), text(name), number_type()]).unwrap()
}

fn plus(arena: &mut SignalArena, l: &Val, r: &Val) -> Val {
    arena.override_binary_op(BinaryOp::Plus, l, r).unwrap().unwrap()
}

fn no_diagnostics() -> DiagnosticsByPath {
    DiagnosticsByPath(vec![])
}

fn main_path() -> String {
    "main.ts".to_string()
}

#[test]
fn sum_of_two_inputs_of_one_party() {
    let mut arena = SignalArena::new();
    let mut io = SummonIO::new(vec![]);
    let x = declare(&mut io, &mut arena, "alice", "x");
    let y = declare(&mut io, &mut arena, "alice", "y");
    let z = plus(&mut arena, &x, &y);
    io.output_public(&vec![text("z"), z]).unwrap();

    let ok = compile(&io, &arena, &main_path(), no_diagnostics()).unwrap();
    let circuit = ok.circuit;
    assert_eq!(circuit.size, 3);
    assert_eq!(circuit.inputs.len(), 2);
    assert_eq!(circuit.inputs.get("x"), Some(&CircuitInput { wire_id: 0, type_: VsType::Number }));
    assert_eq!(circuit.inputs.get("y"), Some(&CircuitInput { wire_id: 1, type_: VsType::Number }));
    assert_eq!(circuit.constants.len(), 0);
    assert_eq!(
        circuit.gates,
        vec![Gate::Binary { op: BinaryOp::Plus, left: 0, right: 1, output: 2 }]
    );
    assert_eq!(circuit.outputs.len(), 1);
    assert_eq!(circuit.outputs.get("z"), Some(&2));
    assert_eq!(circuit.depth(), 1);
    let settings = &circuit.mpc_settings.0;
    assert_eq!(settings.len(), 1);
    assert_eq!(settings[0].name, "alice");
    assert_eq!(settings[0].inputs, vec!["x".to_string(), "y".to_string()]);
    assert_eq!(settings[0].outputs, vec!["z".to_string()]);
    let export = circuit.to_bristol();
    assert_eq!(export.circuit.gates[0].op, "ADD");
    assert_eq!(export.circuit.to_text(), "1 3\n2 1 1\n1 1\n\n2 1 0 1 2 ADD\n");
}

#[test]
fn chain_of_adds() {
    let mut arena = SignalArena::new();
    let mut io = SummonIO::new(vec![]);
    let x = declare(&mut io, &mut arena, "alice", "x");
    let y = declare(&mut io, &mut arena, "bob", "y");
    let a = plus(&mut arena, &x, &y);
    let b = plus(&mut arena, &a, &x);
    let c = plus(&mut arena, &b, &y);
    let d = plus(&mut arena, &c, &x);
    io.output_public(&vec![text("out"), d]).unwrap();

    let circuit = compile(&io, &arena, &main_path(), no_diagnostics()).unwrap().circuit;
    assert_eq!(circuit.gates.len(), 4);
    for gate in &circuit.gates {
        assert!(matches!(gate, Gate::Binary { op: BinaryOp::Plus, .. }));
    }
    assert_eq!(circuit.depth(), 4);
    assert_eq!(circuit.inputs.get("x").unwrap().wire_id, 0);
    assert_eq!(circuit.inputs.get("y").unwrap().wire_id, 1);
    assert_eq!(circuit.size, 6);
    assert_eq!(circuit.outputs.get("out"), Some(&5));
    assert_eq!(
        circuit.gates,
        vec![
            Gate::Binary { op: BinaryOp::Plus, left: 0, right: 1, output: 2 },
            Gate::Binary { op: BinaryOp::Plus, left: 2, right: 0, output: 3 },
            Gate::Binary { op: BinaryOp::Plus, left: 3, right: 1, output: 4 },
            Gate::Binary { op: BinaryOp::Plus, left: 4, right: 0, output: 5 },
        ]
    );
    // two parties, each with its own input and with the output
    let settings = &circuit.mpc_settings.0;
    assert_eq!(settings.len(), 2);
    assert_eq!(settings[0].name, "alice");
    assert_eq!(settings[0].inputs, vec!["x".to_string()]);
    assert_eq!(settings[1].name, "bob");
    assert_eq!(settings[1].inputs, vec!["y".to_string()]);
    assert_eq!(settings[1].outputs, vec!["out".to_string()]);
}

#[test]
fn constant_folding_leaves_the_input_as_the_output() {
    let mut arena = SignalArena::new();
    let mut io = SummonIO::new(vec![]);
    let x = declare(&mut io, &mut arena, "alice", "x");
    let y = declare(&mut io, &mut arena, "alice", "y");
    let x0 = arena.override_binary_op(BinaryOp::Mul, &x, &Val::Number(0)).unwrap().unwrap();
    let y1 = arena.override_binary_op(BinaryOp::Mul, &y, &Val::Number(1)).unwrap().unwrap();
    assert_eq!(x0, Val::Number(0));
    let sum = arena.override_binary_op(BinaryOp::Plus, &x0, &y1).unwrap().unwrap();
    assert_eq!(sum, y);
    io.output_public(&vec![text("out"), sum]).unwrap();

    let circuit = compile(&io, &arena, &main_path(), no_diagnostics()).unwrap().circuit;
    assert_eq!(circuit.gates.len(), 0);
    assert_eq!(circuit.outputs.get("out"), Some(&1));
    assert_eq!(circuit.size, 2);
    assert_eq!(circuit.depth(), 0);
}

#[test]
fn factoring_gives_one_or_gate_and_one_and_gate() {
    let mut arena = SignalArena::new();
    let y = arena.input(VsType::Bool).unwrap();
    let a = arena.input(VsType::Bool).unwrap();
    let b = arena.input(VsType::Bool).unwrap();
    let ya = arena.override_binary_op(BinaryOp::And, &y, &a).unwrap().unwrap();
    let yb = arena.override_binary_op(BinaryOp::And, &y, &b).unwrap().unwrap();
    let out = arena.override_binary_op(BinaryOp::Or, &ya, &yb).unwrap().unwrap();

    let mut builder = CircuitBuilder::new();
    builder.include_inputs(&[0, 1, 2]).unwrap();
    let outputs = builder.include_outputs(&arena, &vec![("out".to_string(), out)]).unwrap();
    assert_eq!(
        builder.gates,
        vec![
            Gate::Binary { op: BinaryOp::Or, left: 1, right: 2, output: 3 },
            Gate::Binary { op: BinaryOp::And, left: 0, right: 3, output: 4 },
        ]
    );
    assert_eq!(outputs.get("out"), Some(&4));
    let circuit =
        generate_circuit(&vec![], outputs, builder, &vec![], &arena).unwrap();
    assert_eq!(circuit.depth(), 2);
    let export = circuit.to_bristol();
    assert_eq!(export.circuit.gates[0].op, "OR");
    assert_eq!(export.circuit.gates[1].op, "AND");
}

#[test]
fn recycling_an_adder_chain_from_the_builder() {
    let mut arena = SignalArena::new();
    let mut io = SummonIO::new(vec![]);
    let x = declare(&mut io, &mut arena, "alice", "x");
    let y = declare(&mut io, &mut arena, "alice", "y");
    let mut acc = plus(&mut arena, &x, &y);
    for i in 1..1000 {
        let other = if i % 2 == 1 { &x } else { &y };
        acc = plus(&mut arena, &acc, other);
    }
    io.output_public(&vec![text("out"), acc]).unwrap();
    let circuit = compile(&io, &arena, &main_path(), no_diagnostics()).unwrap().circuit;
    assert_eq!(circuit.size, 1002);
    assert_eq!(circuit.gates.len(), 1000);
    assert_eq!(circuit.depth(), 1000);
    let bristol = circuit.to_bristol().circuit;
    assert_eq!(bristol.header.nwires(), 1002);
    let recycled = recycle(&bristol).unwrap();
    assert_eq!(recycled.header.nwires(), 5);
    assert_eq!(recycled.gates.len(), 1000);
    assert_eq!(recycled.gates[0].ins, vec![0, 1]);
    assert_eq!(recycled.gates[999].outs, vec![4]);
}

#[test]
fn a_deep_chain_is_included_without_deep_calls() {
    let mut arena = SignalArena::new();
    let x = arena.input(VsType::Number).unwrap();
    let mut acc = x.clone();
    for _ in 0..200_000 {
        acc = arena.override_binary_op(BinaryOp::Plus, &acc, &x).unwrap().unwrap();
    }
    let mut builder = CircuitBuilder::new();
    builder.include_inputs(&[0]).unwrap();
    let wire = builder.include_val(&arena, &acc).unwrap();
    assert_eq!(wire, 200_000);
    assert_eq!(builder.gates.len(), 200_000);
    assert_eq!(builder.wire_count, 200_001);
}

#[test]
fn signals_are_taken_by_layer_and_then_by_identifier() {
    let mut arena = SignalArena::new();
    let x = arena.input(VsType::Number).unwrap(); // 0
    let y = arena.input(VsType::Number).unwrap(); // 1
    let deep = arena.override_binary_op(BinaryOp::Mul, &x, &y).unwrap().unwrap(); // 2
    let deeper = arena.override_binary_op(BinaryOp::Mul, &deep, &y).unwrap().unwrap(); // 3
    let shallow = arena.override_binary_op(BinaryOp::Minus, &x, &y).unwrap().unwrap(); // 4
    let root = arena.override_binary_op(BinaryOp::Plus, &deeper, &shallow).unwrap().unwrap(); // 5

    let mut builder = CircuitBuilder::new();
    builder.include_inputs(&[0, 1]).unwrap();
    let wire = builder.include_val(&arena, &root).unwrap();
    // first layer: signals 2 and 4; second: 3; third: 5
    assert_eq!(
        builder.gates,
        vec![
            Gate::Binary { op: BinaryOp::Mul, left: 0, right: 1, output: 2 },
            Gate::Binary { op: BinaryOp::Minus, left: 0, right: 1, output: 3 },
            Gate::Binary { op: BinaryOp::Mul, left: 2, right: 1, output: 4 },
            Gate::Binary { op: BinaryOp::Plus, left: 4, right: 3, output: 5 },
        ]
    );
    assert_eq!(wire, 5);
    // a signal that is included already keeps its wire
    assert_eq!(builder.include_val(&arena, &shallow).unwrap(), 3);
    assert_eq!(builder.include_signal(&arena, 2).unwrap(), 2);
    assert_eq!(builder.gates.len(), 4);
}

#[test]
fn a_shared_signal_gets_one_gate() {
    let mut arena = SignalArena::new();
    let x = arena.input(VsType::Number).unwrap();
    let double = arena.override_binary_op(BinaryOp::Plus, &x, &x).unwrap().unwrap();
    let square = arena.override_binary_op(BinaryOp::Mul, &double, &double).unwrap().unwrap();
    let mut builder = CircuitBuilder::new();
    builder.include_inputs(&[0]).unwrap();
    builder.include_val(&arena, &square).unwrap();
    assert_eq!(
        builder.gates,
        vec![
            Gate::Binary { op: BinaryOp::Plus, left: 0, right: 0, output: 1 },
            Gate::Binary { op: BinaryOp::Mul, left: 1, right: 1, output: 2 },
        ]
    );
}

#[test]
fn constants_get_one_wire_each_just_before_their_first_use() {
    let mut arena = SignalArena::new();
    let x = arena.input(VsType::Number).unwrap();
    let a = arena.override_binary_op(BinaryOp::Plus, &x, &Val::Number(5)).unwrap().unwrap();
    let b = arena.override_binary_op(BinaryOp::Mul, &a, &Val::Number(5)).unwrap().unwrap();
    let c = arena.override_binary_op(BinaryOp::Minus, &Val::Number(-1), &b).unwrap().unwrap();
    let d = arena.override_binary_op(BinaryOp::Eq, &c, &Val::Bool(true)).unwrap().unwrap();
    let mut builder = CircuitBuilder::new();
    builder.include_inputs(&[0]).unwrap();
    let outputs = builder.include_outputs(&arena, &vec![("d".to_string(), d)]).unwrap();
    assert_eq!(
        builder.gates,
        vec![
            Gate::Binary { op: BinaryOp::Plus, left: 0, right: 1, output: 2 },
            Gate::Binary { op: BinaryOp::Mul, left: 2, right: 1, output: 3 },
            Gate::Binary { op: BinaryOp::Minus, left: 4, right: 3, output: 5 },
            Gate::Binary { op: BinaryOp::Eq, left: 5, right: 6, output: 7 },
        ]
    );
    assert_eq!(
        builder.constants.in_order,
        vec![
            (1, ConstantValue::Number(5)),
            (4, ConstantValue::Number(usize::MAX)),
            (6, ConstantValue::Bool(true)),
        ]
    );
    assert_eq!(builder.constants.get(&ConstantValue::Number(5)), Some(1));
    assert_eq!(builder.constants.get(&ConstantValue::Bool(false)), None);
    let circuit = generate_circuit(&vec![], outputs, builder, &vec![], &arena).unwrap();
    assert_eq!(circuit.size, 8);
    assert_eq!(circuit.constants.len(), 3);
    let info = circuit.to_bristol().info;
    assert_eq!(info.constants[0].name, "constant_5");
    assert_eq!(info.constants[0].address, 1);
    assert_eq!(info.constants[0].type_, VsType::Number);
    assert_eq!(info.constants[0].width, 1);
    assert_eq!(info.constants[1].name, format!("constant_{}", usize::MAX));
    assert_eq!(info.constants[2].name, "constant_true");
    assert_eq!(info.constants[2].type_, VsType::Bool);
    assert_eq!(info.constants[2].address, 6);
    assert_eq!(info.outputs[0].name, "d");
    assert_eq!(info.outputs[0].address, 7);
}

#[test]
fn canonical_constants() {
    assert_eq!(canon_of(&Val::Bool(false)), Some(ConstantValue::Bool(false)));
    assert_eq!(canon_of(&Val::Number(0)), Some(ConstantValue::Number(0)));
    assert_eq!(canon_of(&Val::Number(7)), Some(ConstantValue::Number(7)));
    assert_eq!(canon_of(&Val::Number(-1)), Some(ConstantValue::Number(usize::MAX)));
    assert_eq!(canon_of(&Val::Number(-2)), Some(ConstantValue::Number(usize::MAX - 1)));
    assert_eq!(
        canon_of(&Val::Number(usize::MAX as i128)),
        Some(ConstantValue::Number(usize::MAX))
    );
    assert_eq!(canon_of(&Val::Number(usize::MAX as i128 + 1)), None);
    assert_eq!(canon_of(&Val::Number(-(usize::MAX as i128) - 1)), Some(ConstantValue::Number(0)));
    assert_eq!(canon_of(&Val::Number(-(usize::MAX as i128) - 2)), None);
    assert_eq!(canon_of(&Val::Null), None);
    assert_eq!(canon_of(&Val::Signal(SignalHandle { id: 0, type_: VsType::Number })), None);
}

#[test]
fn values_without_looking_deeper() {
    let mut arena = SignalArena::new();
    let x = arena.input(VsType::Number).unwrap();
    let y = arena.override_unary_op(UnaryOp::Minus, &x).unwrap().unwrap();
    let mut builder = CircuitBuilder::new();
    builder.include_inputs(&[0]).unwrap();
    assert_eq!(builder.include_val_shallow(&arena, &x), Ok(0));
    assert_eq!(builder.include_val_shallow(&arena, &y), Err(BuilderError::NotIncluded(1)));
    assert_eq!(builder.include_val_shallow(&arena, &Val::Number(3)), Ok(1));
    assert_eq!(builder.include_val_shallow(&arena, &Val::Number(3)), Ok(1));
    assert_eq!(builder.include_val_shallow(&arena, &Val::Bool(true)), Ok(2));
    assert_eq!(
        builder.include_val_shallow(&arena, &Val::Undefined),
        Err(BuilderError::UnsupportedValue)
    );
    assert_eq!(
        builder.include_val_shallow(&arena, &Val::Number(i128::MAX)),
        Err(BuilderError::ConstantOutOfRange)
    );
    assert_eq!(builder.wire_count, 3);
    assert_eq!(builder.include_signal_shallow(&arena, 1), Ok(3));
    assert_eq!(
        builder.gates,
        vec![Gate::Unary { op: UnaryOp::Minus, input: 0, output: 3 }]
    );
    assert_eq!(
        builder.include_signal_shallow(&arena, 1),
        Err(BuilderError::AlreadyIncluded(1))
    );
    assert_eq!(builder.include_signal_shallow(&arena, 9), Err(BuilderError::UnknownSignal(9)));
}

#[test]
fn builder_errors() {
    let mut arena = SignalArena::new();
    let x = arena.input(VsType::Number).unwrap();
    let stray = arena.input(VsType::Number).unwrap();
    let sum = arena.override_binary_op(BinaryOp::Plus, &x, &stray).unwrap().unwrap();
    let odd = arena.override_unary_op(UnaryOp::Not, &x).unwrap().unwrap();
    let big = arena
        .override_binary_op(BinaryOp::Plus, &x, &Val::Number(i128::MAX))
        .unwrap()
        .unwrap();

    let mut twice = CircuitBuilder::new();
    assert_eq!(twice.include_inputs(&[0, 1, 0]), Err(BuilderError::DuplicateInput(0)));
    assert_eq!(twice.wire_count, 0);
    assert_eq!(twice.wires_included.len(), 0);

    let mut builder = CircuitBuilder::new();
    builder.include_inputs(&[0]).unwrap();
    // the input with the identifier 1 was not given as an input
    assert_eq!(builder.include_val(&arena, &sum), Err(BuilderError::UnseededInput(1)));
    assert_eq!(builder.include_val(&arena, &big), Err(BuilderError::UnsupportedOperand(4)));
    assert_eq!(builder.include_signal(&arena, 99), Err(BuilderError::UnknownSignal(99)));
    assert_eq!(builder.gates.len(), 0);
    assert_eq!(builder.wire_count, 1);
    assert_eq!(builder.include_val(&arena, &odd), Ok(1));
    assert_eq!(
        builder.include_signal_shallow(&arena, 2),
        Err(BuilderError::NotIncluded(1))
    );
    assert_eq!(builder.include_signal_shallow(&arena, 1), Err(BuilderError::UnseededInput(1)));
    let failed = builder.include_outputs(&arena, &vec![("s".to_string(), sum.clone())]);
    assert_eq!(failed.err(), Some(BuilderError::UnseededInput(1)));
    assert_eq!(builder_error_message(BuilderError::UnseededInput(1)), "Input should have been included earlier: 1");
    assert_eq!(builder_error_message(BuilderError::TooManyWires), "Too many wires");
}

#[test]
fn dependencies_of_values() {
    let mut arena = SignalArena::new();
    let x = arena.input(VsType::Number).unwrap();
    let y = arena.override_binary_op(BinaryOp::Plus, &x, &Val::Number(2)).unwrap().unwrap();
    assert_eq!(get_dependencies(&arena, &y), vec![x.clone(), Val::Number(2)]);
    assert_eq!(get_dependencies(&arena, &x), vec![]);
    assert_eq!(get_dependencies(&arena, &Val::Number(1)), vec![]);
    assert_eq!(as_circuit_signal(&arena, &y).unwrap().id, 1);
    assert!(as_circuit_signal(&arena, &Val::Bool(true)).is_none());
    assert_eq!(get_signal_dependencies(arena.get(0)), vec![]);
    let neg = arena.override_unary_op(UnaryOp::Minus, &y).unwrap().unwrap();
    assert_eq!(get_dependencies(&arena, &neg), vec![y.clone()]);
}

#[test]
fn a_failing_build_is_an_internal_error() {
    let mut arena = SignalArena::new();
    let mut io = SummonIO::new(vec![]);
    let x = declare(&mut io, &mut arena, "alice", "x");
    let stray = arena.input(VsType::Number).unwrap();
    let sum = plus(&mut arena, &x, &stray);
    io.output_public(&vec![text("out"), sum]).unwrap();
    assert_eq!(build(&io, &arena).err(), Some(BuilderError::UnseededInput(1)));
    let err = compile(&io, &arena, &main_path(), no_diagnostics()).unwrap_err();
    assert!(err.circuit.is_none());
    assert!(err.diagnostics.has_internal_errors());
    assert!(err.diagnostics.has_errors());
    assert_eq!(err.diagnostics.0[0].0.path, "main.ts");
    assert_eq!(err.diagnostics.0[0].1[0].message, "Input should have been included earlier: 1");
}

#[test]
fn an_earlier_error_fails_the_compilation_but_gives_the_circuit() {
    let mut arena = SignalArena::new();
    let mut io = SummonIO::new(vec![("unused".to_string(), Val::Number(1))]);
    let x = declare(&mut io, &mut arena, "alice", "x");
    io.output_public(&vec![text("out"), x]).unwrap();
    let mut diagnostics = no_diagnostics();
    diagnostics.add(
        &main_path(),
        Diagnostic {
            level: DiagnosticLevel::Error,
            message: "something is wrong".to_string(),
            span: Span { lo: 0, hi: 1 },
        },
    );
    let err = compile(&io, &arena, &main_path(), diagnostics).unwrap_err();
    assert_eq!(err.circuit.unwrap().size, 1);
    assert!(err.diagnostics.has_errors());
    assert!(!err.diagnostics.has_internal_errors());
    // the unused public input is a lint of its own file
    assert_eq!(err.diagnostics.0[1].0.path, "(public inputs)");
    assert_eq!(err.diagnostics.0[1].1[0].level, DiagnosticLevel::Lint);
    assert_eq!(err.diagnostics.0[1].1[0].message, "Unused public input: unused");
}

#[test]
fn an_unused_public_input_is_only_a_lint() {
    let mut arena = SignalArena::new();
    let mut io = SummonIO::new(vec![
        ("used".to_string(), Val::Number(1)),
        ("unused".to_string(), Val::Number(2)),
    ]);
    let x = declare(&mut io, &mut arena, "alice", "x");
    let k = io.input_public(&vec![text("used"), number_type()]).unwrap();
    let sum = plus(&mut arena, &x, &k);
    io.output_public(&vec![text("out"), sum]).unwrap();
    let ok = compile(&io, &arena, &main_path(), no_diagnostics()).unwrap();
    assert!(!ok.diagnostics.has_errors());
    assert_eq!(ok.diagnostics.exit_code(), 0);
    assert_eq!(ok.diagnostics.0.len(), 1);
    assert_eq!(ok.diagnostics.0[0].1[0].message, "Unused public input: unused");
    assert_eq!(ok.circuit.constants, vec![(1, ConstantValue::Number(1))]);
    let inputs: NameMap<NumberOrBool> = {
        let mut m = NameMap::new();
        m.insert("x".to_string(), NumberOrBool::Number(41));
        m
    };
    let outputs = ok.circuit.eval(&inputs).unwrap();
    assert_eq!(outputs.get("out"), Some(&NumberOrBool::Number(42)));
}

#[test]
fn outputs_are_kept_by_name() {
    let mut arena = SignalArena::new();
    let mut io = SummonIO::new(vec![]);
    let x = declare(&mut io, &mut arena, "alice", "x");
    let y = declare(&mut io, &mut arena, "alice", "y");
    let sum = plus(&mut arena, &x, &y);
    let twice = plus(&mut arena, &sum, &sum);
    io.output_public(&vec![text("zeta"), sum.clone()]).unwrap();
    io.output_public(&vec![text("alpha"), twice.clone()]).unwrap();
    io.output_public(&vec![text("mid"), sum.clone()]).unwrap();
    let circuit = compile(&io, &arena, &main_path(), no_diagnostics()).unwrap().circuit;
    assert_eq!(circuit.outputs.get("zeta"), Some(&2));
    assert_eq!(circuit.outputs.get("mid"), Some(&2));
    assert_eq!(circuit.outputs.get("alpha"), Some(&3));
    assert_eq!(circuit.outputs.entry(0).0, "alpha");
    assert_eq!(circuit.outputs.entry(1).0, "mid");
    assert_eq!(circuit.outputs.entry(2).0, "zeta");
    assert_eq!(
        circuit.mpc_settings.0[0].outputs,
        vec!["alpha".to_string(), "mid".to_string(), "zeta".to_string()]
    );
    // by rising wire; on one wire by rising name
    let info = circuit.to_bristol().info;
    let names: Vec<&str> = info.outputs.iter().map(|o| o.name.as_str()).collect();
    assert_eq!(names, vec!["mid", "zeta", "alpha"]);
    let addresses: Vec<usize> = info.outputs.iter().map(|o| o.address).collect();
    assert_eq!(addresses, vec![2, 2, 3]);
    let input_names: Vec<&str> = info.inputs.iter().map(|o| o.name.as_str()).collect();
    assert_eq!(input_names, vec!["x", "y"]);
}

#[test]
fn a_circuit_without_constants_can_be_recycled_as_it_stands() {
    let mut arena = SignalArena::new();
    let mut io = SummonIO::new(vec![]);
    let x = declare(&mut io, &mut arena, "alice", "x");
    let y = declare(&mut io, &mut arena, "bob", "y");
    let sum = plus(&mut arena, &x, &y);
    let twice = plus(&mut arena, &sum, &sum);
    let more = plus(&mut arena, &twice, &x);
    io.output_public(&vec![text("out"), more]).unwrap();
    let circuit = compile(&io, &arena, &main_path(), no_diagnostics()).unwrap().circuit;
    assert_eq!(circuit.constants.len(), 0);
    assert_eq!(circuit.size, 5);

    let bristol = circuit.to_bristol().circuit;
    assert_eq!(bristol.to_text(), "3 5\n2 1 1\n1 1\n\n2 1 0 1 2 ADD\n2 1 2 2 3 ADD\n2 1 3 0 4 ADD\n");
    let recycled = recycle(&bristol).unwrap();
    assert!(recycled.header.nwires() <= circuit.size);
    assert_eq!(recycled.gates.len(), circuit.gates.len());
    assert_eq!(
        recycled.to_text(),
        "3 5\n2 1 1\n1 1\n\n2 1 0 1 2 ADD\n2 1 2 2 3 ADD\n2 1 3 0 4 ADD\n"
    );
}

#[test]
fn a_constant_has_no_place_among_the_wires_that_are_recycled() {
    let mut arena = SignalArena::new();
    let mut io = SummonIO::new(vec![]);
    let x = declare(&mut io, &mut arena, "alice", "x");
    let sum = plus(&mut arena, &x, &Val::Number(5));
    io.output_public(&vec![text("out"), sum]).unwrap();
    let circuit = compile(&io, &arena, &main_path(), no_diagnostics()).unwrap().circuit;
    assert_eq!(circuit.constants, vec![(1, ConstantValue::Number(5))]);
    let bristol = circuit.to_bristol().circuit;
    assert_eq!(recycle(&bristol).unwrap_err(), BristolError::UndefinedWire(1));
}

#[test]
fn an_entry_point_takes_one_parameter() {
    let kept = check_entry_point(1, &main_path(), no_diagnostics()).unwrap();
    assert!(kept.0.is_empty());

    for (count, message) in [
        (0, "number of main function arguments (0) is not 1"),
        (2, "number of main function arguments (2) is not 1"),
        (17, "number of main function arguments (17) is not 1"),
    ] {
        let err = check_entry_point(count, &main_path(), no_diagnostics()).unwrap_err();
        assert!(err.circuit.is_none());
        assert_eq!(err.diagnostics.0.len(), 1);
        assert_eq!(err.diagnostics.0[0].0.path, "main.ts");
        assert_eq!(err.diagnostics.0[0].1.len(), 1);
        assert_eq!(err.diagnostics.0[0].1[0].level, DiagnosticLevel::Error);
        assert_eq!(err.diagnostics.0[0].1[0].message, message);
        assert_eq!(err.diagnostics.0[0].1[0].span, Span { lo: 0, hi: 0 });
        assert_eq!(err.diagnostics.exit_code(), 1);
    }

    // what was said before stays
    let mut said = no_diagnostics();
    said.add(
        &"lib.ts".to_string(),
        Diagnostic { level: DiagnosticLevel::Lint, message: "m".to_string(), span: Span { lo: 1, hi: 2 } },
    );
    let err = check_entry_point(3, &main_path(), said).unwrap_err();
    assert_eq!(err.diagnostics.0.len(), 2);
    assert_eq!(err.diagnostics.0[0].0.path, "lib.ts");
    assert_eq!(err.diagnostics.0[1].1[0].message, "number of main function arguments (3) is not 1");
}

#[test]
fn a_run_that_failed_gives_no_circuit() {
    let mut io = SummonIO::new(vec![]);
    let err = io.input_public(&vec![text("missing"), number_type()]).unwrap_err();
    assert_eq!(err.kind, HostErrorKind::Error);
    assert_eq!(err.message, "Missing public input: \"missing\"");

    let failed = run_failure(&main_path(), &err, no_diagnostics());
    assert!(failed.circuit.is_none());
    assert_eq!(failed.diagnostics.0.len(), 1);
    assert_eq!(failed.diagnostics.0[0].0.path, "main.ts");
    assert_eq!(failed.diagnostics.0[0].1[0].level, DiagnosticLevel::Error);
    assert!(failed.diagnostics.0[0].1[0].message.contains("missing"));
    assert!(failed.diagnostics.has_errors());
    assert!(!failed.diagnostics.has_internal_errors());
    assert_eq!(failed.diagnostics.exit_code(), 1);

    let internal = HostError { kind: HostErrorKind::InternalError, message: "lost".to_string() };
    let failed = run_failure(&main_path(), &internal, no_diagnostics());
    assert_eq!(failed.diagnostics.0[0].1[0].level, DiagnosticLevel::InternalError);
    assert_eq!(failed.diagnostics.0[0].1[0].message, "lost");
    assert!(failed.diagnostics.has_internal_errors());
}

#[test]
fn the_settings_and_the_wires_of_the_outputs_of_a_compiled_circuit() {
    let mut arena = SignalArena::new();
    let mut io = SummonIO::new(vec![]);
    let x = declare(&mut io, &mut arena, "alice", "x");
    let y = declare(&mut io, &mut arena, "bob", "y");
    let z = declare(&mut io, &mut arena, "alice", "z");
    let sum = plus(&mut arena, &x, &y);
    let more = plus(&mut arena, &sum, &z);
    io.output_public(&vec![text("second"), more]).unwrap();
    io.output_public(&vec![text("first"), sum.clone()]).unwrap();
    io.output_public(&vec![text("same"), x]).unwrap();
    io.output_public(&vec![text("second"), sum]).unwrap();
    let circuit = compile(&io, &arena, &main_path(), no_diagnostics()).unwrap().circuit;
    assert_eq!(circuit.outputs.len(), 3);
    assert_eq!(circuit.outputs.get("first"), Some(&3));
    assert_eq!(circuit.outputs.get("same"), Some(&0));
    assert_eq!(circuit.outputs.get("second"), Some(&3));
    let settings = &circuit.mpc_settings.0;
    assert_eq!(settings.len(), 2);
    assert_eq!(settings[0].name, "alice");
    assert_eq!(settings[0].inputs, vec!["x", "z"]);
    assert_eq!(settings[0].outputs, vec!["first", "same", "second"]);
    assert_eq!(settings[1].name, "bob");
    assert_eq!(settings[1].inputs, vec!["y"]);
    assert_eq!(settings[1].outputs, vec!["first", "same", "second"]);
}
