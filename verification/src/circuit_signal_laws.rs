//! What the rules for operators on signals come to, for every signal.

use crate::circuit_signal::{
    as_and, done, known, negates, rank, signals_ok, spec_add, spec_binary, spec_common_and,
    spec_related_by_negation, spec_unary, CircuitSignal, CircuitSignalData, SignalError,
};
use crate::ops::{BinaryOp, UnaryOp, VsType};
use crate::vs_value::{SignalHandle, Val};
use vstd::prelude::*;

verus! {

/// Whether `x` is a signal that `signals` holds, of the type number or
/// boolean.
pub open spec fn is_signal_of(signals: Seq<CircuitSignal>, x: Val) -> bool {
    x is Signal && known(signals, x) && x.is_numeric()
}

/// `x + 0` and `0 + x` are `x` itself: no signal is made.
pub proof fn law_plus_zero(signals: Seq<CircuitSignal>, x: Val)
    requires
        is_signal_of(signals, x),
    ensures
        spec_binary(signals, BinaryOp::Plus, x, Val::Number(0)) == Some(done(signals, x)),
        spec_binary(signals, BinaryOp::Plus, Val::Number(0), x) == Some(done(signals, x)),
{
}

/// `x * 1` and `1 * x` are `x` itself: no signal is made.
pub proof fn law_times_one(signals: Seq<CircuitSignal>, x: Val)
    requires
        is_signal_of(signals, x),
    ensures
        spec_binary(signals, BinaryOp::Mul, x, Val::Number(1)) == Some(done(signals, x)),
        spec_binary(signals, BinaryOp::Mul, Val::Number(1), x) == Some(done(signals, x)),
{
}

/// `x * 0` and `0 * x` are the number zero: no signal is made.
pub proof fn law_times_zero(signals: Seq<CircuitSignal>, x: Val)
    requires
        is_signal_of(signals, x),
    ensures
        spec_binary(signals, BinaryOp::Mul, x, Val::Number(0)) == Some(
            done(signals, Val::Number(0)),
        ),
        spec_binary(signals, BinaryOp::Mul, Val::Number(0), x) == Some(
            done(signals, Val::Number(0)),
        ),
{
}

/// For a boolean signal `x`, `x || !x` and `!x || x` are `true`: beyond the
/// signal for `!x`, no signal is made.
pub proof fn law_or_with_negation(signals: Seq<CircuitSignal>, x: Val)
    requires
        is_signal_of(signals, x),
        x.spec_typeof() == VsType::Bool,
        signals.len() < usize::MAX,
    ensures
        spec_unary(signals, UnaryOp::Not, x) is Some,
        spec_unary(signals, UnaryOp::Not, x)->0.result is Ok,
        ({
            let negated = spec_unary(signals, UnaryOp::Not, x)->0;
            let not_x = negated.result->Ok_0;
            &&& spec_binary(negated.signals, BinaryOp::Or, x, not_x) == Some(
                done(negated.signals, Val::Bool(true)),
            )
            &&& spec_binary(negated.signals, BinaryOp::Or, not_x, x) == Some(
                done(negated.signals, Val::Bool(true)),
            )
        }),
{
    let negated = spec_unary(signals, UnaryOp::Not, x)->0;
    let not_x = negated.result->Ok_0;
    let h = not_x->Signal_0;
    let hx = x->Signal_0;
    assert(negated.signals[h.id as int].data == CircuitSignalData::UnaryOp(UnaryOp::Not, x));
    assert(negates(negated.signals, h, hx));
    assert(negated.signals[hx.id as int] == signals[hx.id as int]);
}

/// For signals `y`, `a` and `b` of one type, where `a || b` is not settled
/// by a rule: `(y && a) || (y && b)` makes exactly two signals, one for
/// `a || b` and one for `y && (a || b)`, and the second is the result.
pub proof fn law_common_factor(signals: Seq<CircuitSignal>, y: Val, a: Val, b: Val)
    requires
        signals_ok(signals),
        is_signal_of(signals, y),
        is_signal_of(signals, a),
        is_signal_of(signals, b),
        y.spec_typeof() == a.spec_typeof(),
        y.spec_typeof() == b.spec_typeof(),
        signals.len() + 4 <= usize::MAX,
        !spec_related_by_negation(signals, a, b),
        spec_common_and(signals, a, b) is None,
    ensures
        spec_binary(signals, BinaryOp::And, y, a) is Some,
        spec_binary(signals, BinaryOp::And, y, a)->0.result is Ok,
        ({
            let first = spec_binary(signals, BinaryOp::And, y, a)->0;
            let y_and_a = first.result->Ok_0;
            let second = spec_binary(first.signals, BinaryOp::And, y, b);
            &&& second is Some
            &&& second->0.result is Ok
            &&& {
                let y_and_b = second->0.result->Ok_0;
                let before = second->0.signals;
                let n = before.len() as usize;
                let t = y.spec_typeof();
                let a_or_b = Val::Signal(SignalHandle { id: n, type_: t });
                let last = spec_binary(before, BinaryOp::Or, y_and_a, y_and_b);
                &&& last is Some
                &&& last->0.result == Ok::<Val, SignalError>(
                    Val::Signal(SignalHandle { id: (n + 1) as usize, type_: t }),
                )
                &&& last->0.signals == before.push(
                    CircuitSignal {
                        type_: t,
                        data: CircuitSignalData::BinaryOp(BinaryOp::Or, a, b),
                        id: n,
                    },
                ).push(
                    CircuitSignal {
                        type_: t,
                        data: CircuitSignalData::BinaryOp(BinaryOp::And, y, a_or_b),
                        id: (n + 1) as usize,
                    },
                )
            }
        }),
{
    let t = y.spec_typeof();
    let hy = y->Signal_0;
    let ha = a->Signal_0;
    let hb = b->Signal_0;
    let first = spec_binary(signals, BinaryOp::And, y, a)->0;
    let d1 = CircuitSignalData::BinaryOp(BinaryOp::And, y, a);
    assert(first == spec_add(signals, None, d1));
    let y_and_a = first.result->Ok_0;
    let s1 = first.signals;
    let second = spec_binary(s1, BinaryOp::And, y, b)->0;
    let d2 = CircuitSignalData::BinaryOp(BinaryOp::And, y, b);
    assert(known(s1, y) && known(s1, b));
    assert(second == spec_add(s1, None, d2));
    let y_and_b = second.result->Ok_0;
    let s2 = second.signals;
    let h1 = y_and_a->Signal_0;
    let h2 = y_and_b->Signal_0;
    assert(s2[h1.id as int].data == d1);
    assert(s2[h2.id as int].data == d2);
    assert(known(s2, y_and_a) && known(s2, y_and_b));
    assert(!negates(s2, h1, h2));
    assert(!negates(s2, h2, h1));
    assert(as_and(s2, h1) == Some((hy, a)));
    assert(as_and(s2, h2) == Some((hy, b)));
    assert(spec_common_and(s2, y_and_a, y_and_b) == Some((hy, a, b)));
    assert(rank(a) < rank(y_and_a));
    assert(s2[ha.id as int] == signals[ha.id as int]);
    assert(s2[hb.id as int] == signals[hb.id as int]);
    assert(negates(s2, ha, hb) == negates(signals, ha, hb));
    assert(negates(s2, hb, ha) == negates(signals, hb, ha));
    assert(as_and(s2, ha) == as_and(signals, ha));
    assert(as_and(s2, hb) == as_and(signals, hb));
    assert(spec_common_and(s2, a, b) is None);
    assert(known(s2, a) && known(s2, b));
    let inner = spec_binary(s2, BinaryOp::Or, a, b)->0;
    assert(inner == spec_add(s2, None, CircuitSignalData::BinaryOp(BinaryOp::Or, a, b)));
}

} // verus!
