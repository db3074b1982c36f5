//! Signals: values that stand for a wire whose content is not yet known.
//!
//! Every signal is kept in a [`SignalArena`] under its identifier, and a value
//! refers to it by a handle. An operator applied to a signal yields a new
//! signal, unless one of a few local rules gives the result at once.

use crate::id_generator::IdGenerator;
use crate::ops::{is_comparison, is_logical, unary_type, BinaryOp, UnaryOp, VsType};
use crate::summon_io::{HostError, HostErrorKind};
use crate::vs_value::{SignalHandle, Val};
use vstd::prelude::*;
use vstd::string::StringExecFns;

verus! {

/// Why an operator could not be applied to a signal.
#[derive(Debug, Clone, Copy, PartialEq, Eq, Structural)]
pub enum SignalError {
    /// `&&` or `||` on operands whose types are not both number or both
    /// boolean.
    IncompatibleTypes { left: VsType, right: VsType },
    /// No identifier is left for a new signal.
    OutOfIds,
    /// A value names a signal that the arena does not hold, or gives it
    /// another type than the arena does.
    UnknownSignal(usize),
}

/// What a signal stands for: an input, or an operator on other values.
#[derive(Debug, PartialEq)]
pub enum CircuitSignalData {
    Input,
    UnaryOp(UnaryOp, Val),
    BinaryOp(BinaryOp, Val, Val),
}

impl Clone for CircuitSignalData {
    fn clone(&self) -> (r: Self)
        ensures
            r == *self,
    {
        match self {
            CircuitSignalData::Input => CircuitSignalData::Input,
            CircuitSignalData::UnaryOp(op, x) => CircuitSignalData::UnaryOp(*op, x.clone()),
            CircuitSignalData::BinaryOp(op, l, r) => CircuitSignalData::BinaryOp(
                *op,
                l.clone(),
                r.clone(),
            ),
        }
    }
}

/// A signal: its type, what it stands for, and its identifier.
#[derive(Debug, PartialEq)]
pub struct CircuitSignal {
    pub type_: VsType,
    pub data: CircuitSignalData,
    pub id: usize,
}

impl Clone for CircuitSignal {
    fn clone(&self) -> (r: Self)
        ensures
            r == *self,
    {
        CircuitSignal { type_: self.type_, data: self.data.clone(), id: self.id }
    }
}

/// The type of a signal that stands for `data`. An input is a number. `!`
/// gives a boolean, the other unary operators a number. A comparison gives a
/// boolean. `&&` and `||` give the type of their operands, which must both be
/// numbers or both be booleans. Every other binary operator gives a number.
pub open spec fn spec_typeof_data(data: CircuitSignalData) -> Result<VsType, SignalError> {
    match data {
        CircuitSignalData::Input => Ok(VsType::Number),
        CircuitSignalData::UnaryOp(op, _) => Ok(unary_type(op)),
        CircuitSignalData::BinaryOp(op, l, r) => if is_logical(op) {
            if l.spec_typeof() == VsType::Number && r.spec_typeof() == VsType::Number {
                Ok(VsType::Number)
            } else if l.spec_typeof() == VsType::Bool && r.spec_typeof() == VsType::Bool {
                Ok(VsType::Bool)
            } else {
                Err(
                    SignalError::IncompatibleTypes {
                        left: l.spec_typeof(),
                        right: r.spec_typeof(),
                    },
                )
            }
        } else if is_comparison(op) {
            Ok(VsType::Bool)
        } else {
            Ok(VsType::Number)
        },
    }
}

/// The type of a signal that stands for `data`.
pub fn typeof_(data: &CircuitSignalData) -> (r: Result<VsType, SignalError>)
    ensures
        r == spec_typeof_data(*data),
{
    match data {
        CircuitSignalData::Input => Ok(VsType::Number),
        CircuitSignalData::UnaryOp(op, _) => match op {
            UnaryOp::Plus => Ok(VsType::Number),
            UnaryOp::Minus => Ok(VsType::Number),
            UnaryOp::Not => Ok(VsType::Bool),
            UnaryOp::BitNot => Ok(VsType::Number),
        },
        CircuitSignalData::BinaryOp(op, left, right) => match op {
            BinaryOp::Plus => Ok(VsType::Number),
            BinaryOp::Minus => Ok(VsType::Number),
            BinaryOp::Mul => Ok(VsType::Number),
            BinaryOp::Div => Ok(VsType::Number),
            BinaryOp::Mod => Ok(VsType::Number),
            BinaryOp::Exp => Ok(VsType::Number),
            BinaryOp::LooseEq => Ok(VsType::Bool),
            BinaryOp::LooseNe => Ok(VsType::Bool),
            BinaryOp::Eq => Ok(VsType::Bool),
            BinaryOp::Ne => Ok(VsType::Bool),
            BinaryOp::And | BinaryOp::Or => {
                let lt = left.typeof_();
                let rt = right.typeof_();
                match (lt, rt) {
                    (VsType::Number, VsType::Number) => Ok(VsType::Number),
                    (VsType::Bool, VsType::Bool) => Ok(VsType::Bool),
                    _ => Err(SignalError::IncompatibleTypes { left: lt, right: rt }),
                }
            },
            BinaryOp::Less => Ok(VsType::Bool),
            BinaryOp::LessEq => Ok(VsType::Bool),
            BinaryOp::Greater => Ok(VsType::Bool),
            BinaryOp::GreaterEq => Ok(VsType::Bool),
            BinaryOp::BitAnd => Ok(VsType::Number),
            BinaryOp::BitOr => Ok(VsType::Number),
            BinaryOp::BitXor => Ok(VsType::Number),
            BinaryOp::LeftShift => Ok(VsType::Number),
            BinaryOp::RightShift => Ok(VsType::Number),
            BinaryOp::RightShiftUnsigned => Ok(VsType::Number),
        },
    }
}

impl CircuitSignal {
    /// A signal that stands for `data`, with the next identifier of
    /// `id_generator`. Its type is `type_` where one is given, else the type
    /// that `data` has; where `data` has none, no identifier is used.
    pub fn new(id_generator: &mut IdGenerator, type_: Option<VsType>, data: CircuitSignalData) -> (r:
        Result<CircuitSignal, SignalError>)
        requires
            old(id_generator)@ < usize::MAX,
        ensures
            match r {
                Ok(s) => {
                    &&& s.data == data
                    &&& s.id == old(id_generator)@
                    &&& final(id_generator)@ == old(id_generator)@ + 1
                    &&& match type_ {
                        Some(t) => s.type_ == t,
                        None => spec_typeof_data(data) == Ok::<VsType, SignalError>(s.type_),
                    }
                },
                Err(e) => {
                    &&& type_ is None
                    &&& spec_typeof_data(data) == Err::<VsType, SignalError>(e)
                    &&& final(id_generator)@ == old(id_generator)@
                },
            },
    {
        let type_ = match type_ {
            Some(t) => t,
            None => match typeof_(&data) {
                Ok(t) => t,
                Err(e) => {
                    return Err(e);
                },
            },
        };
        let id = id_generator.gen();
        Ok(CircuitSignal { type_, data, id })
    }
}

/// Whether the value `v`, if it is a signal, names a signal of `signals`
/// with an identifier below `limit`, and gives it the type that it has.
pub open spec fn known_below(signals: Seq<CircuitSignal>, v: Val, limit: int) -> bool {
    match v {
        Val::Signal(h) => h.id < limit && h.id < signals.len() && signals[h.id as int].type_
            == h.type_,
        _ => true,
    }
}

/// Whether the value `v`, if it is a signal, names a signal of `signals`
/// and gives it the type that it has.
pub open spec fn known(signals: Seq<CircuitSignal>, v: Val) -> bool {
    known_below(signals, v, signals.len() as int)
}

/// Whether the signal at `i` is sound: its identifier is its position, and
/// its operands are older signals or plain values; those of a binary
/// operator are numbers or booleans.
pub open spec fn signal_ok(signals: Seq<CircuitSignal>, i: int) -> bool {
    let s = signals[i];
    &&& s.id == i
    &&& match s.data {
        CircuitSignalData::Input => true,
        CircuitSignalData::UnaryOp(_, x) => known_below(signals, x, i),
        CircuitSignalData::BinaryOp(_, l, r) => {
            &&& known_below(signals, l, i)
            &&& known_below(signals, r, i)
            &&& l.is_numeric()
            &&& r.is_numeric()
        },
    }
}

/// Whether every signal of `signals` is sound.
pub open spec fn signals_ok(signals: Seq<CircuitSignal>) -> bool {
    forall|i: int| 0 <= i < signals.len() ==> #[trigger] signal_ok(signals, i)
}

/// Whether `new` holds the signals of `old`, and maybe more after them.
pub open spec fn extends(new: Seq<CircuitSignal>, old: Seq<CircuitSignal>) -> bool {
    &&& old.len() <= new.len()
    &&& forall|i: int| 0 <= i < old.len() ==> #[trigger] new[i] == old[i]
}

/// What applying an operator comes to: the signals that exist afterwards,
/// and the value that is the result, or why there is none.
pub struct Outcome {
    pub signals: Seq<CircuitSignal>,
    pub result: Result<Val, SignalError>,
}

/// The outcome that leaves the signals as they are and gives `v`.
pub open spec fn done(signals: Seq<CircuitSignal>, v: Val) -> Outcome {
    Outcome { signals, result: Ok(v) }
}

/// The outcome that leaves the signals as they are and fails with `e`.
pub open spec fn fail(signals: Seq<CircuitSignal>, e: SignalError) -> Outcome {
    Outcome { signals, result: Err(e) }
}

/// The outcome of making a new signal for `data`: it gets the next
/// identifier and the type `type_`, or the type of `data` where none is given.
pub open spec fn spec_add(
    signals: Seq<CircuitSignal>,
    type_: Option<VsType>,
    data: CircuitSignalData,
) -> Outcome {
    let t = match type_ {
        Some(t) => Ok(t),
        None => spec_typeof_data(data),
    };
    match t {
        Err(e) => fail(signals, e),
        Ok(t) => if signals.len() >= usize::MAX {
            fail(signals, SignalError::OutOfIds)
        } else {
            let id = signals.len() as usize;
            Outcome {
                signals: signals.push(CircuitSignal { type_: t, data, id }),
                result: Ok(Val::Signal(SignalHandle { id, type_: t })),
            }
        },
    }
}

/// Whether the signal `a` is `!b`.
pub open spec fn negates(signals: Seq<CircuitSignal>, a: SignalHandle, b: SignalHandle) -> bool {
    a.id < signals.len() && match signals[a.id as int].data {
        CircuitSignalData::UnaryOp(op, x) => op == UnaryOp::Not && match x {
            Val::Signal(h) => h.id == b.id,
            _ => false,
        },
        _ => false,
    }
}

/// Whether both values are signals and one is the negation of the other.
pub open spec fn spec_related_by_negation(signals: Seq<CircuitSignal>, l: Val, r: Val) -> bool {
    match (l, r) {
        (Val::Signal(a), Val::Signal(b)) => negates(signals, a, b) || negates(signals, b, a),
        _ => false,
    }
}

/// The two operands of the signal `h` if it is `y && a` with a signal `y`.
pub open spec fn as_and(signals: Seq<CircuitSignal>, h: SignalHandle) -> Option<
    (SignalHandle, Val),
> {
    if h.id < signals.len() {
        match signals[h.id as int].data {
            CircuitSignalData::BinaryOp(op, lhs, rhs) => if op == BinaryOp::And {
                match lhs {
                    Val::Signal(y) => Some((y, rhs)),
                    _ => None,
                }
            } else {
                None
            },
            _ => None,
        }
    } else {
        None
    }
}

/// If the values are the signals `y && a` and `y && b` with the same signal
/// `y`: `y`, `a` and `b`.
pub open spec fn spec_common_and(signals: Seq<CircuitSignal>, l: Val, r: Val) -> Option<
    (SignalHandle, Val, Val),
> {
    match (l, r) {
        (Val::Signal(hl), Val::Signal(hr)) => match (as_and(signals, hl), as_and(signals, hr)) {
            (Some((y1, a)), Some((y2, b))) => if y1.id == y2.id {
                Some((y1, a, b))
            } else {
                None
            },
            _ => None,
        },
        _ => None,
    }
}

/// The handles of both values if both are signals.
pub open spec fn spec_both_signals(l: Val, r: Val) -> Option<(SignalHandle, SignalHandle)> {
    match (l, r) {
        (Val::Signal(a), Val::Signal(b)) => Some((a, b)),
        _ => None,
    }
}

/// How old the signal behind `v` is at most: one more than its identifier,
/// and zero for a plain value.
pub open spec fn rank(v: Val) -> nat {
    match v {
        Val::Signal(h) => (h.id + 1) as nat,
        _ => 0,
    }
}

/// The first of `l` and `r` that names a signal which `signals` does not
/// hold in that way.
pub open spec fn first_unknown(signals: Seq<CircuitSignal>, l: Val, r: Val) -> Option<usize> {
    if !known(signals, l) {
        Some(l->Signal_0.id)
    } else if !known(signals, r) {
        Some(r->Signal_0.id)
    } else {
        None
    }
}

/// What `l || r` comes to for two booleans of which at least one is a
/// constant, if a rule applies: `true || x` is `true`, `false || x` is `x`.
pub open spec fn or_shortcut(l: Val, r: Val) -> Option<Val> {
    if l.spec_typeof() == VsType::Bool && r.spec_typeof() == VsType::Bool {
        if l == Val::Bool(true) {
            Some(Val::Bool(true))
        } else if l == Val::Bool(false) {
            Some(r)
        } else if r == Val::Bool(true) {
            Some(Val::Bool(true))
        } else if r == Val::Bool(false) {
            Some(l)
        } else {
            None
        }
    } else {
        None
    }
}

/// What `l && r` comes to for two booleans of which at least one is a
/// constant, if a rule applies: `true && x` is `x`, `false && x` is `false`.
pub open spec fn and_shortcut(l: Val, r: Val) -> Option<Val> {
    if l.spec_typeof() == VsType::Bool && r.spec_typeof() == VsType::Bool {
        if l == Val::Bool(true) {
            Some(r)
        } else if l == Val::Bool(false) {
            Some(Val::Bool(false))
        } else if r == Val::Bool(true) {
            Some(l)
        } else if r == Val::Bool(false) {
            Some(Val::Bool(false))
        } else {
            None
        }
    } else {
        None
    }
}

/// What `l + r` comes to if one of them is the number zero: the other.
pub open spec fn plus_shortcut(l: Val, r: Val) -> Option<Val> {
    if l == Val::Number(0) {
        Some(r)
    } else if r == Val::Number(0) {
        Some(l)
    } else {
        None
    }
}

/// What `l * r` comes to if one of them is the number one or zero: the
/// other for one, zero for zero.
pub open spec fn mul_shortcut(l: Val, r: Val) -> Option<Val> {
    if l == Val::Number(1) {
        Some(r)
    } else if l == Val::Number(0) {
        Some(Val::Number(0))
    } else if r == Val::Number(1) {
        Some(l)
    } else if r == Val::Number(0) {
        Some(Val::Number(0))
    } else {
        None
    }
}

/// What a binary operator applied to `l` and `r` comes to, where at least
/// one of them is a signal and both are numbers or booleans; `None` where
/// that is not so. The rules, in this order:
///
/// - `x + 0` and `0 + x` are `x`;
/// - `x * 1` and `1 * x` are `x`, `x * 0` and `0 * x` are `0`;
/// - `a || !a` and `!a || a` are `true`;
/// - `(y && a) || (y && b)` is `y && (a || b)`, with these rules applied to
///   `a || b`;
/// - `true || x` is `true`, `false || x` is `x`, and so from the right;
/// - `true && x` is `x`, `false && x` is `false`, and so from the right;
/// - otherwise the result is a new signal for the operator and its operands.
pub open spec fn spec_binary(signals: Seq<CircuitSignal>, op: BinaryOp, l: Val, r: Val) -> Option<
    Outcome,
>
    decreases rank(l),
{
    if !l.is_numeric() || !r.is_numeric() {
        None
    } else if !(l is Signal) && !(r is Signal) {
        None
    } else if first_unknown(signals, l, r) is Some {
        Some(fail(signals, SignalError::UnknownSignal(first_unknown(signals, l, r)->0)))
    } else {
        let node = spec_add(signals, None, CircuitSignalData::BinaryOp(op, l, r));
        Some(
            match op {
                BinaryOp::Plus => match plus_shortcut(l, r) {
                    Some(v) => done(signals, v),
                    None => node,
                },
                BinaryOp::Mul => match mul_shortcut(l, r) {
                    Some(v) => done(signals, v),
                    None => node,
                },
                BinaryOp::Or => if spec_related_by_negation(signals, l, r) {
                    done(signals, Val::Bool(true))
                } else {
                    match spec_common_and(signals, l, r) {
                        Some((y, a, b)) => if rank(a) < rank(l) {
                            let inner = match spec_binary(signals, BinaryOp::Or, a, b) {
                                Some(o) => o,
                                None => done(
                                    signals,
                                    if a.spec_truthy() {
                                        a
                                    } else {
                                        b
                                    },
                                ),
                            };
                            match inner.result {
                                Err(_) => inner,
                                Ok(a_or_b) => spec_add(
                                    inner.signals,
                                    None,
                                    CircuitSignalData::BinaryOp(
                                        BinaryOp::And,
                                        Val::Signal(y),
                                        a_or_b,
                                    ),
                                ),
                            }
                        } else {
                            node
                        },
                        None => match or_shortcut(l, r) {
                            Some(v) => done(signals, v),
                            None => node,
                        },
                    }
                },
                BinaryOp::And => match and_shortcut(l, r) {
                    Some(v) => done(signals, v),
                    None => node,
                },
                _ => node,
            },
        )
    }
}

/// What a unary operator applied to the signal `x` comes to: a new signal for
/// the operator and its operand; `None` where `x` is no signal.
pub open spec fn spec_unary(signals: Seq<CircuitSignal>, op: UnaryOp, x: Val) -> Option<Outcome> {
    if !(x is Signal) {
        None
    } else if !known(signals, x) {
        Some(fail(signals, SignalError::UnknownSignal(x->Signal_0.id)))
    } else {
        Some(spec_add(signals, None, CircuitSignalData::UnaryOp(op, x)))
    }
}

/// The signals of one compilation, each at the position that is its
/// identifier.
#[derive(Debug)]
pub struct SignalArena {
    signals: Vec<CircuitSignal>,
    id_gen: IdGenerator,
}

impl View for SignalArena {
    type V = Seq<CircuitSignal>;

    closed spec fn view(&self) -> Seq<CircuitSignal> {
        self.signals@
    }
}

impl SignalArena {
    /// Whether the next identifier is the number of signals.
    pub closed spec fn in_step(&self) -> bool {
        self.id_gen@ == self.signals@.len()
    }

    /// Whether the arena is sound: every signal is, and the next identifier
    /// is the number of signals.
    pub open spec fn wf(&self) -> bool {
        signals_ok(self@) && self.in_step()
    }

    /// An arena without signals.
    pub fn new() -> (arena: Self)
        ensures
            arena@.len() == 0,
            arena.wf(),
    {
        SignalArena { signals: Vec::new(), id_gen: IdGenerator::new() }
    }

    /// The number of signals.
    pub fn len(&self) -> (n: usize)
        ensures
            n == self@.len(),
    {
        self.signals.len()
    }

    /// The signal with the identifier `id`.
    pub fn get(&self, id: usize) -> (s: &CircuitSignal)
        requires
            id < self@.len(),
        ensures
            *s == self@[id as int],
    {
        &self.signals[id]
    }

    /// Whether `v`, if it is a signal, names a signal of this arena and
    /// gives it the type that it has.
    pub fn knows(&self, v: &Val) -> (r: bool)
        ensures
            r == known(self@, *v),
    {
        match v {
            Val::Signal(h) => h.id < self.signals.len() && self.signals[h.id].type_ == h.type_,
            _ => true,
        }
    }

    /// Makes a new signal for `data`.
    fn add(&mut self, type_: Option<VsType>, data: CircuitSignalData) -> (r: Result<
        Val,
        SignalError,
    >)
        requires
            old(self).wf(),
            match data {
                CircuitSignalData::Input => true,
                CircuitSignalData::UnaryOp(_, x) => known(old(self)@, x),
                CircuitSignalData::BinaryOp(_, l, r) => known(old(self)@, l) && known(
                    old(self)@,
                    r,
                ) && l.is_numeric() && r.is_numeric(),
            },
        ensures
            final(self).wf(),
            final(self)@ == spec_add(old(self)@, type_, data).signals,
            r == spec_add(old(self)@, type_, data).result,
            extends(final(self)@, old(self)@),
            r is Ok ==> known(final(self)@, r->Ok_0),
            r is Ok && type_ is None && !(data is Input) ==> r->Ok_0.is_numeric(),
    {
        if self.id_gen.peek() == usize::MAX {
            return match type_ {
                Some(_) => Err(SignalError::OutOfIds),
                None => match typeof_(&data) {
                    Ok(_) => Err(SignalError::OutOfIds),
                    Err(e) => Err(e),
                },
            };
        }
        let ghost before = self.signals@;
        match CircuitSignal::new(&mut self.id_gen, type_, data) {
            Err(e) => Err(e),
            Ok(signal) => {
                let handle = SignalHandle { id: signal.id, type_: signal.type_ };
                self.signals.push(signal);
                proof {
                    assert forall|i: int| 0 <= i < self.signals@.len() implies #[trigger] signal_ok(
                        self.signals@,
                        i,
                    ) by {
                        if i < before.len() {
                            assert(signal_ok(before, i));
                        }
                    }
                }
                Ok(Val::Signal(handle))
            },
        }
    }

    /// A new input signal of the type `type_`.
    pub fn input(&mut self, type_: VsType) -> (r: Result<Val, SignalError>)
        requires
            old(self).wf(),
        ensures
            final(self).wf(),
            final(self)@ == spec_add(old(self)@, Some(type_), CircuitSignalData::Input).signals,
            r == spec_add(old(self)@, Some(type_), CircuitSignalData::Input).result,
            extends(final(self)@, old(self)@),
    {
        self.add(Some(type_), CircuitSignalData::Input)
    }
}

/// The handles of both values if both are signals.
pub fn both_circuit_signals(left: &Val, right: &Val) -> (r: Option<(SignalHandle, SignalHandle)>)
    ensures
        r == spec_both_signals(*left, *right),
{
    match (left.as_signal(), right.as_signal()) {
        (Some(a), Some(b)) => Some((a, b)),
        _ => None,
    }
}

/// Whether the signal `a` of `arena` is `!b`.
fn is_negation_of(arena: &SignalArena, a: SignalHandle, b: SignalHandle) -> (r: bool)
    ensures
        r == negates(arena@, a, b),
{
    if a.id >= arena.len() {
        return false;
    }
    match &arena.get(a.id).data {
        CircuitSignalData::UnaryOp(op, x) => match op {
            UnaryOp::Not => match x.as_signal() {
                Some(h) => h.id == b.id,
                None => false,
            },
            _ => false,
        },
        _ => false,
    }
}

/// Whether both values are signals of `arena` and one is the negation of the
/// other.
pub fn related_by_negation(arena: &SignalArena, left: &Val, right: &Val) -> (r: bool)
    ensures
        r == spec_related_by_negation(arena@, *left, *right),
{
    match both_circuit_signals(left, right) {
        Some((a, b)) => is_negation_of(arena, a, b) || is_negation_of(arena, b, a),
        None => false,
    }
}

/// The two operands of the signal `h` of `arena` if it is `y && a` with a
/// signal `y`.
fn and_operands(arena: &SignalArena, h: SignalHandle) -> (r: Option<(SignalHandle, Val)>)
    ensures
        r == as_and(arena@, h),
{
    if h.id >= arena.len() {
        return None;
    }
    match &arena.get(h.id).data {
        CircuitSignalData::BinaryOp(op, lhs, rhs) => match op {
            BinaryOp::And => match lhs.as_signal() {
                Some(y) => Some((y, rhs.clone())),
                None => None,
            },
            _ => None,
        },
        _ => None,
    }
}

/// If the values are the signals `y && a` and `y && b` of `arena` with the
/// same signal `y`: `y`, `a` and `b`.
pub fn common_and(arena: &SignalArena, left: &Val, right: &Val) -> (r: Option<
    (SignalHandle, Val, Val),
>)
    ensures
        r == spec_common_and(arena@, *left, *right),
{
    match both_circuit_signals(left, right) {
        Some((hl, hr)) => match (and_operands(arena, hl), and_operands(arena, hr)) {
            (Some((y1, a)), Some((y2, b))) => if y1.id == y2.id {
                Some((y1, a, b))
            } else {
                None
            },
            _ => None,
        },
        None => None,
    }
}


/// Whether a boolean or a number counts as true.
fn is_truthy(v: &Val) -> (r: bool)
    ensures
        r == v.spec_truthy(),
{
    match v {
        Val::Bool(b) => *b,
        Val::Number(n) => *n != 0,
        _ => false,
    }
}

/// Whether `v` is the number `n`.
fn is_number(v: &Val, n: i128) -> (r: bool)
    ensures
        r == (*v == Val::Number(n)),
{
    match v {
        Val::Number(m) => *m == n,
        _ => false,
    }
}

/// Whether `v` is the boolean `b`.
fn is_bool(v: &Val, b: bool) -> (r: bool)
    ensures
        r == (*v == Val::Bool(b)),
{
    match v {
        Val::Bool(c) => *c == b,
        _ => false,
    }
}

fn plus_rule(l: &Val, r: &Val) -> (v: Option<Val>)
    ensures
        v == plus_shortcut(*l, *r),
{
    if is_number(l, 0) {
        Some(r.clone())
    } else if is_number(r, 0) {
        Some(l.clone())
    } else {
        None
    }
}

fn mul_rule(l: &Val, r: &Val) -> (v: Option<Val>)
    ensures
        v == mul_shortcut(*l, *r),
{
    if is_number(l, 1) {
        Some(r.clone())
    } else if is_number(l, 0) {
        Some(Val::Number(0))
    } else if is_number(r, 1) {
        Some(l.clone())
    } else if is_number(r, 0) {
        Some(Val::Number(0))
    } else {
        None
    }
}

fn or_rule(l: &Val, r: &Val) -> (v: Option<Val>)
    ensures
        v == or_shortcut(*l, *r),
{
    if l.typeof_() == VsType::Bool && r.typeof_() == VsType::Bool {
        if is_bool(l, true) {
            Some(Val::Bool(true))
        } else if is_bool(l, false) {
            Some(r.clone())
        } else if is_bool(r, true) {
            Some(Val::Bool(true))
        } else if is_bool(r, false) {
            Some(l.clone())
        } else {
            None
        }
    } else {
        None
    }
}

fn and_rule(l: &Val, r: &Val) -> (v: Option<Val>)
    ensures
        v == and_shortcut(*l, *r),
{
    if l.typeof_() == VsType::Bool && r.typeof_() == VsType::Bool {
        if is_bool(l, true) {
            Some(r.clone())
        } else if is_bool(l, false) {
            Some(Val::Bool(false))
        } else if is_bool(r, true) {
            Some(l.clone())
        } else if is_bool(r, false) {
            Some(Val::Bool(false))
        } else {
            None
        }
    } else {
        None
    }
}

impl SignalArena {
    /// Applies a binary operator to two values of which at least one is a
    /// signal. Gives `None`, and changes nothing, where neither is a signal or
    /// one of them is neither a number nor a boolean. Otherwise the result is
    /// the value that the rules of [`spec_binary`] give, or a new signal.
    pub fn override_binary_op(&mut self, op: BinaryOp, left: &Val, right: &Val) -> (r: Option<
        Result<Val, SignalError>,
    >)
        requires
            old(self).wf(),
        ensures
            final(self).wf(),
            extends(final(self)@, old(self)@),
            match spec_binary(old(self)@, op, *left, *right) {
                None => r is None && final(self)@ == old(self)@,
                Some(o) => r == Some(o.result) && final(self)@ == o.signals,
            },
            r matches Some(Ok(v)) ==> known(final(self)@, v) && v.is_numeric(),
        decreases rank(*left),
    {
        if !left.numeric() || !right.numeric() {
            return None;
        }
        if left.as_signal().is_none() && right.as_signal().is_none() {
            return None;
        }
        if !self.knows(left) {
            return match left.as_signal() {
                Some(h) => Some(Err(SignalError::UnknownSignal(h.id))),
                None => None,
            };
        }
        if !self.knows(right) {
            return match right.as_signal() {
                Some(h) => Some(Err(SignalError::UnknownSignal(h.id))),
                None => None,
            };
        }
        let ghost before = self@;
        let shortcut = match op {
            BinaryOp::Plus => plus_rule(left, right),
            BinaryOp::Mul => mul_rule(left, right),
            BinaryOp::Or => {
                if related_by_negation(self, left, right) {
                    Some(Val::Bool(true))
                } else {
                    match common_and(self, left, right) {
                        Some((y, a, b)) => {
                            proof {
                                let hl = left->Signal_0;
                                let hr = right->Signal_0;
                                assert(signal_ok(before, hl.id as int));
                                assert(signal_ok(before, hr.id as int));
                            }
                            let inner = match self.override_binary_op(BinaryOp::Or, &a, &b) {
                                Some(res) => res,
                                None => Ok(
                                    if is_truthy(&a) {
                                        a
                                    } else {
                                        b
                                    },
                                ),
                            };
                            return match inner {
                                Err(e) => Some(Err(e)),
                                Ok(a_or_b) => Some(
                                    self.add(
                                        None,
                                        CircuitSignalData::BinaryOp(
                                            BinaryOp::And,
                                            Val::Signal(y),
                                            a_or_b,
                                        ),
                                    ),
                                ),
                            };
                        },
                        None => or_rule(left, right),
                    }
                }
            },
            BinaryOp::And => and_rule(left, right),
            _ => None,
        };
        match shortcut {
            Some(v) => Some(Ok(v)),
            None => Some(
                self.add(None, CircuitSignalData::BinaryOp(op, left.clone(), right.clone())),
            ),
        }
    }

    /// Applies a unary operator to a signal: the result is a new signal.
    /// Gives `None`, and changes nothing, where `input` is no signal.
    pub fn override_unary_op(&mut self, op: UnaryOp, input: &Val) -> (r: Option<
        Result<Val, SignalError>,
    >)
        requires
            old(self).wf(),
        ensures
            final(self).wf(),
            extends(final(self)@, old(self)@),
            match spec_unary(old(self)@, op, *input) {
                None => r is None && final(self)@ == old(self)@,
                Some(o) => r == Some(o.result) && final(self)@ == o.signals,
            },
            r matches Some(Ok(v)) ==> known(final(self)@, v) && v.is_numeric(),
    {
        match input.as_signal() {
            None => None,
            Some(h) => {
                if !self.knows(input) {
                    return Some(Err(SignalError::UnknownSignal(h.id)));
                }
                Some(self.add(None, CircuitSignalData::UnaryOp(op, input.clone())))
            },
        }
    }
}


/// A type error with the message `message`.
fn type_error(message: &str) -> (e: HostError)
    ensures
        e.kind == HostErrorKind::TypeError,
        e.message@ == message@,
{
    HostError { kind: HostErrorKind::TypeError, message: String::from_str(message) }
}

impl CircuitSignal {
    /// The type of the signal.
    pub fn typeof_(&self) -> (t: VsType)
        ensures
            t == self.type_,
    {
        self.type_
    }

    /// A signal cannot be used as an index: what it holds is not known.
    pub fn to_index(&self) -> (r: Result<usize, HostError>)
        ensures
            r is Err,
            r->Err_0.kind == HostErrorKind::TypeError,
            r->Err_0.message@ == "Cannot use CircuitSignal as index"@,
    {
        Err(type_error("Cannot use CircuitSignal as index"))
    }

    /// A signal cannot decide which way a program goes: what it holds is
    /// not known.
    pub fn is_truthy(&self) -> (r: Result<bool, HostError>)
        ensures
            r is Err,
            r->Err_0.kind == HostErrorKind::TypeError,
            r->Err_0.message@ == "Cannot use CircuitSignal as a condition"@,
    {
        Err(type_error("Cannot use CircuitSignal as a condition"))
    }

    /// A signal cannot be written as a string: what it holds is not known.
    pub fn codify(&self) -> (r: Result<String, HostError>)
        ensures
            r is Err,
            r->Err_0.kind == HostErrorKind::TypeError,
            r->Err_0.message@ == "Cannot convert CircuitSignal to string"@,
    {
        Err(type_error("Cannot convert CircuitSignal to string"))
    }

    /// Nothing can be assigned to a subscript of a signal.
    pub fn submov(&mut self, key: &Val, value: Val) -> (r: Result<(), HostError>)
        ensures
            r is Err,
            r->Err_0.kind == HostErrorKind::TypeError,
            r->Err_0.message@ == "Cannot assign to subscript of CircuitSignal"@,
            *final(self) == *old(self),
    {
        Err(type_error("Cannot assign to subscript of CircuitSignal"))
    }

    /// A signal has nothing under any subscript.
    pub fn sub(&self, key: &Val) -> (r: Val)
        ensures
            r == Val::Undefined,
    {
        Val::Undefined
    }
}

} // verus!
