use summon::circuit_signal::{
    both_circuit_signals, common_and, related_by_negation, typeof_, CircuitSignal,
    CircuitSignalData, SignalArena, SignalError,
};
use summon::id_generator::IdGenerator;
use summon::ops::{BinaryOp, UnaryOp, VsType};
use summon::vs_value::{SignalHandle, Val};

fn number_input(arena: &mut SignalArena) -> Val {
    arena.input(VsType::Number).unwrap()
}

fn bool_input(arena: &mut SignalArena) -> Val {
    arena.input(VsType::Bool).unwrap()
}

fn handle(v: &Val) -> SignalHandle {
    v.as_signal().unwrap()
}

#[test]
fn id_generator_counts_from_zero() {
    let mut gen = IdGenerator::new();
    assert_eq!(gen.gen(), 0);
    assert_eq!(gen.gen(), 1);
    assert_eq!(gen.gen(), 2);
    assert_eq!(gen.peek(), 3);
    let mut other = IdGenerator::default();
    assert_eq!(other.gen(), 0);
}

#[test]
fn new_signal_takes_the_next_id_and_the_type_of_its_data() {
    let mut gen = IdGenerator::new();
    let input = CircuitSignal::new(&mut gen, None, CircuitSignalData::Input).unwrap();
    assert_eq!(input.id, 0);
    assert_eq!(input.type_, VsType::Number);
    let forced = CircuitSignal::new(&mut gen, Some(VsType::Bool), CircuitSignalData::Input).unwrap();
    assert_eq!(forced.id, 1);
    assert_eq!(forced.type_, VsType::Bool);
    let bad = CircuitSignal::new(
        &mut gen,
        None,
        CircuitSignalData::BinaryOp(BinaryOp::And, Val::Bool(true), Val::Number(1)),
    );
    assert_eq!(
        bad.unwrap_err(),
        SignalError::IncompatibleTypes { left: VsType::Bool, right: VsType::Number }
    );
    // no identifier was used for the signal that could not be made
    assert_eq!(gen.peek(), 2);
}

#[test]
fn types_of_operators() {
    let n = Val::Number(3);
    let b = Val::Bool(true);
    let unary = |op| typeof_(&CircuitSignalData::UnaryOp(op, Val::Number(1))).unwrap();
    assert_eq!(unary(UnaryOp::Plus), VsType::Number);
    assert_eq!(unary(UnaryOp::Minus), VsType::Number);
    assert_eq!(unary(UnaryOp::BitNot), VsType::Number);
    assert_eq!(unary(UnaryOp::Not), VsType::Bool);
    let binary =
        |op, l: &Val, r: &Val| typeof_(&CircuitSignalData::BinaryOp(op, l.clone(), r.clone()));
    for op in [
        BinaryOp::Plus,
        BinaryOp::Minus,
        BinaryOp::Mul,
        BinaryOp::Div,
        BinaryOp::Mod,
        BinaryOp::Exp,
        BinaryOp::BitAnd,
        BinaryOp::BitOr,
        BinaryOp::BitXor,
        BinaryOp::LeftShift,
        BinaryOp::RightShift,
        BinaryOp::RightShiftUnsigned,
    ] {
        assert_eq!(binary(op, &n, &n).unwrap(), VsType::Number);
    }
    for op in [
        BinaryOp::LooseEq,
        BinaryOp::LooseNe,
        BinaryOp::Eq,
        BinaryOp::Ne,
        BinaryOp::Less,
        BinaryOp::LessEq,
        BinaryOp::Greater,
        BinaryOp::GreaterEq,
    ] {
        assert_eq!(binary(op, &n, &n).unwrap(), VsType::Bool);
    }
    for op in [BinaryOp::And, BinaryOp::Or] {
        assert_eq!(binary(op, &n, &n).unwrap(), VsType::Number);
        assert_eq!(binary(op, &b, &b).unwrap(), VsType::Bool);
        assert_eq!(
            binary(op, &n, &b).unwrap_err(),
            SignalError::IncompatibleTypes { left: VsType::Number, right: VsType::Bool }
        );
    }
    assert_eq!(typeof_(&CircuitSignalData::Input).unwrap(), VsType::Number);
}

#[test]
fn adding_zero_gives_the_signal_itself() {
    let mut arena = SignalArena::new();
    let x = number_input(&mut arena);
    let r = arena.override_binary_op(BinaryOp::Plus, &x, &Val::Number(0));
    assert_eq!(r, Some(Ok(x.clone())));
    let r = arena.override_binary_op(BinaryOp::Plus, &Val::Number(0), &x);
    assert_eq!(r, Some(Ok(x.clone())));
    assert_eq!(arena.len(), 1);
}

#[test]
fn multiplying_by_one_or_zero_makes_no_signal() {
    let mut arena = SignalArena::new();
    let x = number_input(&mut arena);
    assert_eq!(arena.override_binary_op(BinaryOp::Mul, &x, &Val::Number(1)), Some(Ok(x.clone())));
    assert_eq!(arena.override_binary_op(BinaryOp::Mul, &Val::Number(1), &x), Some(Ok(x.clone())));
    assert_eq!(
        arena.override_binary_op(BinaryOp::Mul, &x, &Val::Number(0)),
        Some(Ok(Val::Number(0)))
    );
    assert_eq!(
        arena.override_binary_op(BinaryOp::Mul, &Val::Number(0), &x),
        Some(Ok(Val::Number(0)))
    );
    assert_eq!(arena.len(), 1);
}

#[test]
fn a_signal_or_its_negation_is_true() {
    let mut arena = SignalArena::new();
    let x = bool_input(&mut arena);
    let not_x = arena.override_unary_op(UnaryOp::Not, &x).unwrap().unwrap();
    assert_eq!(arena.len(), 2);
    assert!(related_by_negation(&arena, &x, &not_x));
    assert!(related_by_negation(&arena, &not_x, &x));
    assert_eq!(arena.override_binary_op(BinaryOp::Or, &x, &not_x), Some(Ok(Val::Bool(true))));
    assert_eq!(arena.override_binary_op(BinaryOp::Or, &not_x, &x), Some(Ok(Val::Bool(true))));
    assert_eq!(arena.len(), 2);
    let other = bool_input(&mut arena);
    assert!(!related_by_negation(&arena, &other, &not_x));
    assert!(!related_by_negation(&arena, &x, &Val::Bool(true)));
}

#[test]
fn a_common_factor_is_taken_out() {
    let mut arena = SignalArena::new();
    let y = bool_input(&mut arena);
    let a = bool_input(&mut arena);
    let b = bool_input(&mut arena);
    let y_and_a = arena.override_binary_op(BinaryOp::And, &y, &a).unwrap().unwrap();
    let y_and_b = arena.override_binary_op(BinaryOp::And, &y, &b).unwrap().unwrap();
    assert_eq!(arena.len(), 5);
    assert_eq!(common_and(&arena, &y_and_a, &y_and_b), Some((handle(&y), a.clone(), b.clone())));
    assert_eq!(common_and(&arena, &y_and_a, &a), None);
    let result = arena.override_binary_op(BinaryOp::Or, &y_and_a, &y_and_b).unwrap().unwrap();
    // two signals were made: `a || b`, then `y && (a || b)`
    assert_eq!(arena.len(), 7);
    let inner = SignalHandle { id: 5, type_: VsType::Bool };
    assert_eq!(
        arena.get(5).data,
        CircuitSignalData::BinaryOp(BinaryOp::Or, a.clone(), b.clone())
    );
    assert_eq!(
        arena.get(6).data,
        CircuitSignalData::BinaryOp(BinaryOp::And, y.clone(), Val::Signal(inner))
    );
    assert_eq!(result, Val::Signal(SignalHandle { id: 6, type_: VsType::Bool }));
}

#[test]
fn a_common_factor_with_a_settled_rest() {
    let mut arena = SignalArena::new();
    let y = bool_input(&mut arena);
    let a = bool_input(&mut arena);
    let not_a = arena.override_unary_op(UnaryOp::Not, &a).unwrap().unwrap();
    let y_and_a = arena.override_binary_op(BinaryOp::And, &y, &a).unwrap().unwrap();
    let y_and_not_a = arena.override_binary_op(BinaryOp::And, &y, &not_a).unwrap().unwrap();
    let before = arena.len();
    let result = arena.override_binary_op(BinaryOp::Or, &y_and_a, &y_and_not_a).unwrap().unwrap();
    // `a || !a` is `true`, so only `y && true` is made
    assert_eq!(arena.len(), before + 1);
    assert_eq!(
        arena.get(handle(&result).id).data,
        CircuitSignalData::BinaryOp(BinaryOp::And, y.clone(), Val::Bool(true))
    );
}

#[test]
fn boolean_constants_are_folded() {
    let mut arena = SignalArena::new();
    let x = bool_input(&mut arena);
    let t = Val::Bool(true);
    let f = Val::Bool(false);
    assert_eq!(arena.override_binary_op(BinaryOp::And, &t, &x), Some(Ok(x.clone())));
    assert_eq!(arena.override_binary_op(BinaryOp::And, &x, &t), Some(Ok(x.clone())));
    assert_eq!(arena.override_binary_op(BinaryOp::And, &f, &x), Some(Ok(f.clone())));
    assert_eq!(arena.override_binary_op(BinaryOp::And, &x, &f), Some(Ok(f.clone())));
    assert_eq!(arena.override_binary_op(BinaryOp::Or, &t, &x), Some(Ok(t.clone())));
    assert_eq!(arena.override_binary_op(BinaryOp::Or, &x, &t), Some(Ok(t.clone())));
    assert_eq!(arena.override_binary_op(BinaryOp::Or, &f, &x), Some(Ok(x.clone())));
    assert_eq!(arena.override_binary_op(BinaryOp::Or, &x, &f), Some(Ok(x.clone())));
    assert_eq!(arena.len(), 1);
}

#[test]
fn other_operators_make_a_signal() {
    let mut arena = SignalArena::new();
    let x = number_input(&mut arena);
    let y = number_input(&mut arena);
    let sum = arena.override_binary_op(BinaryOp::Plus, &x, &y).unwrap().unwrap();
    assert_eq!(sum, Val::Signal(SignalHandle { id: 2, type_: VsType::Number }));
    assert_eq!(arena.get(2).data, CircuitSignalData::BinaryOp(BinaryOp::Plus, x.clone(), y.clone()));
    assert_eq!(arena.get(2).type_, VsType::Number);
    assert_eq!(arena.get(2).id, 2);
    let less = arena.override_binary_op(BinaryOp::Less, &x, &Val::Number(5)).unwrap().unwrap();
    assert_eq!(less, Val::Signal(SignalHandle { id: 3, type_: VsType::Bool }));
    let minus = arena.override_unary_op(UnaryOp::Minus, &x).unwrap().unwrap();
    assert_eq!(minus, Val::Signal(SignalHandle { id: 4, type_: VsType::Number }));
    assert_eq!(arena.get(4).data, CircuitSignalData::UnaryOp(UnaryOp::Minus, x.clone()));
    // a number that is not zero is no reason to fold
    let plus_one = arena.override_binary_op(BinaryOp::Plus, &x, &Val::Number(1)).unwrap().unwrap();
    assert_eq!(handle(&plus_one).id, 5);
}

#[test]
fn the_rules_do_not_apply_without_a_signal_or_to_other_values() {
    let mut arena = SignalArena::new();
    let x = number_input(&mut arena);
    assert_eq!(arena.override_binary_op(BinaryOp::Plus, &Val::Number(1), &Val::Number(2)), None);
    assert_eq!(
        arena.override_binary_op(BinaryOp::Plus, &x, &Val::String("s".to_string())),
        None
    );
    assert_eq!(arena.override_binary_op(BinaryOp::Plus, &Val::Undefined, &x), None);
    assert_eq!(arena.override_unary_op(UnaryOp::Not, &Val::Bool(true)), None);
    assert_eq!(arena.len(), 1);
}

#[test]
fn mixed_types_and_unknown_signals_are_errors() {
    let mut arena = SignalArena::new();
    let n = number_input(&mut arena);
    let b = bool_input(&mut arena);
    assert_eq!(
        arena.override_binary_op(BinaryOp::And, &n, &b),
        Some(Err(SignalError::IncompatibleTypes { left: VsType::Number, right: VsType::Bool }))
    );
    let stranger = Val::Signal(SignalHandle { id: 17, type_: VsType::Number });
    assert_eq!(
        arena.override_binary_op(BinaryOp::Plus, &n, &stranger),
        Some(Err(SignalError::UnknownSignal(17)))
    );
    assert_eq!(
        arena.override_unary_op(UnaryOp::Minus, &stranger),
        Some(Err(SignalError::UnknownSignal(17)))
    );
    let mistyped = Val::Signal(SignalHandle { id: 0, type_: VsType::Bool });
    assert_eq!(
        arena.override_binary_op(BinaryOp::Plus, &mistyped, &n),
        Some(Err(SignalError::UnknownSignal(0)))
    );
    assert_eq!(arena.len(), 2);
    assert!(arena.knows(&n));
    assert!(!arena.knows(&stranger));
}

#[test]
fn both_signals_are_told_apart_from_values() {
    let mut arena = SignalArena::new();
    let x = number_input(&mut arena);
    let y = number_input(&mut arena);
    assert_eq!(both_circuit_signals(&x, &y), Some((handle(&x), handle(&y))));
    assert_eq!(both_circuit_signals(&x, &Val::Number(1)), None);
    assert_eq!(x.typeof_(), VsType::Number);
    assert_eq!(Val::Null.typeof_(), VsType::Null);
    assert_eq!(Val::String("a".to_string()).typeof_(), VsType::String);
    assert!(x.numeric());
    assert!(!Val::Array.numeric());
}

#[test]
fn what_a_signal_cannot_be_used_for() {
    let mut arena = SignalArena::new();
    let x = number_input(&mut arena);
    let mut signal = arena.get(handle(&x).id).clone();
    assert_eq!(signal.typeof_(), VsType::Number);
    let err = signal.to_index().unwrap_err();
    assert_eq!(err.kind, summon::summon_io::HostErrorKind::TypeError);
    assert_eq!(err.message, "Cannot use CircuitSignal as index");
    let err = signal.is_truthy().unwrap_err();
    assert_eq!(err.kind, summon::summon_io::HostErrorKind::TypeError);
    assert_eq!(err.message, "Cannot use CircuitSignal as a condition");
    let err = signal.codify().unwrap_err();
    assert_eq!(err.message, "Cannot convert CircuitSignal to string");
    let err = signal.submov(&Val::Number(0), Val::Number(1)).unwrap_err();
    assert_eq!(err.kind, summon::summon_io::HostErrorKind::TypeError);
    assert_eq!(err.message, "Cannot assign to subscript of CircuitSignal");
    assert_eq!(signal.sub(&Val::Number(0)), Val::Undefined);
    assert_eq!(signal, *arena.get(0));
}
