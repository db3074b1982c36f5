//! From signals to gates: every signal that an output depends on gets a wire,
//! and every such signal that is no input gets a gate.
//!
//! The signals that one output needs are taken in layers. The first layer
//! holds those whose operands all have a wire already; each later layer
//! holds those whose operands got their wires in the layers before, one of
//! them in the layer just before. Within a layer the signals are taken by
//! rising identifier. A signal gets the next free wire; a constant among its
//! operands that has no wire yet gets one just before it.

use crate::circuit::{ConstantValue, Gate};
use crate::circuit_builder_laws::{covers, lemma_covers_included, lemma_covers_step};
use crate::circuit_signal::{signal_ok, signals_ok, CircuitSignal, CircuitSignalData, SignalArena};
use crate::sorted::{add_member, in_order, is_rising, lemma_push_members};
use crate::name_map::NameMap;
use crate::ops::{BinaryOp, UnaryOp};
use crate::vs_value::{SignalHandle, Val};
use std::collections::BTreeSet;
use std::collections::HashMap;
use std::collections::HashSet;
use vstd::prelude::*;

verus! {

/// Why a value could not be included in a circuit.
#[derive(Debug, Clone, Copy, PartialEq, Eq, Structural)]
pub enum BuilderError {
    /// The same signal is given twice as an input.
    DuplicateInput(usize),
    /// The signal is not one of the arena.
    UnknownSignal(usize),
    /// The signal is an input that was not given as one.
    UnseededInput(usize),
    /// An operand of the signal is neither a signal, nor a boolean, nor a
    /// whole number that fits a wire.
    UnsupportedOperand(usize),
    /// The value is neither a signal, nor a boolean, nor a number.
    UnsupportedValue,
    /// The number does not fit a wire.
    ConstantOutOfRange,
    /// The signal has no wire yet.
    NotIncluded(usize),
    /// The signal has a wire already.
    AlreadyIncluded(usize),
    /// The wires cannot be counted in `usize`.
    TooManyWires,
}

/// What a wire holds: an input signal, a constant, or what a gate writes.
pub enum WireKind {
    Input(usize),
    Constant(ConstantValue),
    Gate(int),
}

/// The constant that stands for a plain value on a wire: a boolean stays as
/// it is, a number that is not negative too, and a negative number is taken
/// in two's complement. Other values, and numbers that are too large, have
/// none.
pub open spec fn canon(v: Val) -> Option<ConstantValue> {
    match v {
        Val::Bool(b) => Some(ConstantValue::Bool(b)),
        Val::Number(n) => if 0 <= n <= usize::MAX {
            Some(ConstantValue::Number(n as usize))
        } else if n < 0 && -n - 1 <= usize::MAX {
            Some(ConstantValue::Number((usize::MAX + n + 1) as usize))
        } else {
            None
        },
        _ => None,
    }
}

/// The operands of a signal, in order.
pub open spec fn operands(data: CircuitSignalData) -> Seq<Val> {
    match data {
        CircuitSignalData::Input => Seq::empty(),
        CircuitSignalData::UnaryOp(_, x) => seq![x],
        CircuitSignalData::BinaryOp(_, l, r) => seq![l, r],
    }
}

/// What a builder holds.
pub struct BuilderState {
    /// All gates so far, in the order in which they were made.
    pub gates: Seq<Gate>,
    /// The number of wires so far.
    pub wire_count: nat,
    /// The wire of each signal that has one.
    pub wires: Map<usize, usize>,
    /// The wire of each constant that has one.
    pub constants: Map<ConstantValue, usize>,
    /// For each position among the gates, the signal that it was made for.
    pub order: Seq<usize>,
    /// What each wire holds.
    pub kinds: Seq<WireKind>,
    /// The signals that were given as inputs.
    pub seeded: Set<usize>,
}

/// The state of a builder that has nothing yet.
pub open spec fn empty_state() -> BuilderState {
    BuilderState {
        gates: Seq::empty(),
        wire_count: 0,
        wires: Map::empty(),
        constants: Map::empty(),
        order: Seq::empty(),
        kinds: Seq::empty(),
        seeded: Set::empty(),
    }
}

/// Whether the value `x` has a wire: a signal if it was included, a plain
/// value if its constant has one.
pub open spec fn has_wire(st: BuilderState, x: Val) -> bool {
    match x {
        Val::Signal(h) => st.wires.contains_key(h.id),
        _ => canon(x) is Some && st.constants.contains_key(canon(x)->0),
    }
}

/// The wire of the value `x`.
pub open spec fn wire_of(st: BuilderState, x: Val) -> usize {
    match x {
        Val::Signal(h) => st.wires[h.id],
        _ => st.constants[canon(x)->0],
    }
}

/// Whether `gate` is what the signal data `data` asks for: the same
/// operator, on the wires of the operands, which lie below the wire written.
pub open spec fn encodes(st: BuilderState, data: CircuitSignalData, gate: Gate) -> bool {
    match data {
        CircuitSignalData::Input => false,
        CircuitSignalData::UnaryOp(op, x) => {
            &&& has_wire(st, x)
            &&& wire_of(st, x) < gate.spec_output()
            &&& gate == Gate::Unary { op, input: wire_of(st, x), output: gate.spec_output() }
        },
        CircuitSignalData::BinaryOp(op, l, r) => {
            &&& has_wire(st, l)
            &&& has_wire(st, r)
            &&& wire_of(st, l) < gate.spec_output()
            &&& wire_of(st, r) < gate.spec_output()
            &&& gate == Gate::Binary {
                op,
                left: wire_of(st, l),
                right: wire_of(st, r),
                output: gate.spec_output(),
            }
        },
    }
}

/// Whether what is recorded of position `g` among the gates fits: it was
/// made for a signal of the arena, writes the wire of that signal, and is
/// what the signal asks for.
pub open spec fn gate_ok(st: BuilderState, signals: Seq<CircuitSignal>, g: int) -> bool {
    let id = st.order[g];
    let gate = st.gates[g];
    &&& id < signals.len()
    &&& st.wires.contains_key(id)
    &&& st.wires[id] == gate.spec_output()
    &&& gate.spec_output() < st.wire_count
    &&& st.kinds[gate.spec_output() as int] == WireKind::Gate(g)
    &&& encodes(st, signals[id as int].data, gate)
}

/// Whether what is recorded of the wire `w` fits.
pub open spec fn kind_ok(st: BuilderState, w: int) -> bool {
    match st.kinds[w] {
        WireKind::Input(id) => st.seeded.contains(id) && st.wires[id] == w,
        WireKind::Constant(c) => st.constants.contains_key(c) && st.constants[c] == w,
        WireKind::Gate(g) => 0 <= g < st.gates.len() && st.gates[g].spec_output() == w,
    }
}

/// Whether the state of a builder is sound with respect to the signals of an
/// arena: every wire below the count holds exactly one thing, the inputs come
/// first, every signal with a wire is an input or has its gate, and every
/// gate reads wires below the one that it writes, which rise from gate to
/// gate.
pub open spec fn state_ok(st: BuilderState, signals: Seq<CircuitSignal>) -> bool {
    &&& st.order.len() == st.gates.len()
    &&& st.kinds.len() == st.wire_count
    &&& st.order.no_duplicates()
    &&& forall|id: usize| #[trigger]
        st.wires.contains_key(id) <==> st.seeded.contains(id) || st.order.contains(id)
    &&& forall|id: usize| #[trigger]
        st.seeded.contains(id) ==> !st.order.contains(id) && st.wires[id] < st.wire_count
            && st.kinds[st.wires[id] as int] == WireKind::Input(id)
    &&& forall|c: ConstantValue| #[trigger]
        st.constants.contains_key(c) ==> st.constants[c] < st.wire_count
            && st.kinds[st.constants[c] as int] == WireKind::Constant(c)
    &&& forall|g: int| 0 <= g < st.gates.len() ==> #[trigger] gate_ok(st, signals, g)
    &&& forall|w: int| 0 <= w < st.wire_count ==> #[trigger] kind_ok(st, w)
    &&& forall|v: int, w: int|
        0 <= v < w < st.wire_count && #[trigger] st.kinds[w] is Input ==> #[trigger] st.kinds[v]
            is Input
    &&& forall|g: int, h: int|
        0 <= g < h < st.gates.len() ==> (#[trigger] st.gates[g]).spec_output()
            < (#[trigger] st.gates[h]).spec_output()
}

/// The state after the constant `c` got a wire, if it had none.
pub open spec fn with_constant(st: BuilderState, c: ConstantValue) -> BuilderState {
    if st.constants.contains_key(c) {
        st
    } else {
        BuilderState {
            constants: st.constants.insert(c, st.wire_count as usize),
            wire_count: st.wire_count + 1,
            kinds: st.kinds.push(WireKind::Constant(c)),
            ..st
        }
    }
}

/// The state after the operand `x` got a wire, if it is a plain value whose
/// constant had none.
pub open spec fn with_operand(st: BuilderState, x: Val) -> BuilderState {
    match canon(x) {
        Some(c) => with_constant(st, c),
        None => st,
    }
}

/// The state after `gate` was added for the signal `id`; it writes the next
/// wire.
pub open spec fn with_gate(st: BuilderState, id: usize, gate: Gate) -> BuilderState {
    BuilderState {
        gates: st.gates.push(gate),
        wire_count: st.wire_count + 1,
        wires: st.wires.insert(id, st.wire_count as usize),
        order: st.order.push(id),
        kinds: st.kinds.push(WireKind::Gate(st.gates.len() as int)),
        ..st
    }
}

/// The state after the signal `id` got its wire and its gate: first the
/// constants among its operands get wires, in the order of the operands,
/// then the signal gets the next wire.
pub open spec fn emit(st: BuilderState, signals: Seq<CircuitSignal>, id: usize) -> BuilderState {
    match signals[id as int].data {
        CircuitSignalData::Input => st,
        CircuitSignalData::UnaryOp(op, x) => {
            let s1 = with_operand(st, x);
            with_gate(
                s1,
                id,
                Gate::Unary { op, input: wire_of(s1, x), output: s1.wire_count as usize },
            )
        },
        CircuitSignalData::BinaryOp(op, l, r) => {
            let s1 = with_operand(st, l);
            let s2 = with_operand(s1, r);
            with_gate(
                s2,
                id,
                Gate::Binary {
                    op,
                    left: wire_of(s2, l),
                    right: wire_of(s2, r),
                    output: s2.wire_count as usize,
                },
            )
        },
    }
}

/// The state after the signals `ids` got their wires and gates, one after
/// the other.
pub open spec fn emit_all(st: BuilderState, signals: Seq<CircuitSignal>, ids: Seq<usize>) -> BuilderState
    decreases ids.len(),
{
    if ids.len() == 0 {
        st
    } else {
        emit(emit_all(st, signals, ids.drop_last()), signals, ids.last())
    }
}

/// Whether the operand `v` is a signal without a wire.
pub open spec fn is_open(included: Set<usize>, v: Val) -> bool {
    match v {
        Val::Signal(h) => !included.contains(h.id),
        _ => false,
    }
}

/// Whether the signal `root` needs the signal `x` to get a wire before it
/// can get one: neither has a wire, and `x` is `root` or is reached from it
/// through operands without a wire.
pub open spec fn needs(
    signals: Seq<CircuitSignal>,
    included: Set<usize>,
    root: usize,
    x: usize,
) -> bool
    decreases root,
{
    &&& root < signals.len()
    &&& !included.contains(root)
    &&& (root == x || match signals[root as int].data {
        CircuitSignalData::Input => false,
        CircuitSignalData::UnaryOp(_, a) => match a {
            Val::Signal(h) => h.id < root && needs(signals, included, h.id, x),
            _ => false,
        },
        CircuitSignalData::BinaryOp(_, l, r) => (match l {
            Val::Signal(h) => h.id < root && needs(signals, included, h.id, x),
            _ => false,
        }) || (match r {
            Val::Signal(h) => h.id < root && needs(signals, included, h.id, x),
            _ => false,
        }),
    })
}

/// The layer of the signal `x`: zero if each operand is a plain value or
/// has a wire, else one more than the highest layer of its operands without
/// a wire.
pub open spec fn layer(signals: Seq<CircuitSignal>, included: Set<usize>, x: usize) -> nat
    decreases x,
{
    if x >= signals.len() {
        0
    } else {
        match signals[x as int].data {
            CircuitSignalData::Input => 0,
            CircuitSignalData::UnaryOp(_, a) => match a {
                Val::Signal(h) => if h.id < x && !included.contains(h.id) {
                    1 + layer(signals, included, h.id)
                } else {
                    0
                },
                _ => 0,
            },
            CircuitSignalData::BinaryOp(_, l, r) => {
                let ll = match l {
                    Val::Signal(h) => if h.id < x && !included.contains(h.id) {
                        1 + layer(signals, included, h.id)
                    } else {
                        0
                    },
                    _ => 0,
                };
                let lr = match r {
                    Val::Signal(h) => if h.id < x && !included.contains(h.id) {
                        1 + layer(signals, included, h.id)
                    } else {
                        0
                    },
                    _ => 0,
                };
                if ll >= lr {
                    ll
                } else {
                    lr
                }
            },
        }
    }
}

/// Whether the signal `a` is taken before the signal `b`: its layer is
/// lower, or the same with a lower identifier.
pub open spec fn comes_before(
    signals: Seq<CircuitSignal>,
    included: Set<usize>,
    a: usize,
    b: usize,
) -> bool {
    let la = layer(signals, included, a);
    let lb = layer(signals, included, b);
    la < lb || (la == lb && a < b)
}

/// Whether `ids` holds exactly the signals that `root` needs, each once, by
/// rising layer and, within a layer, by rising identifier.
pub open spec fn is_layered_order(
    signals: Seq<CircuitSignal>,
    included: Set<usize>,
    root: usize,
    ids: Seq<usize>,
) -> bool {
    &&& ids.no_duplicates()
    &&& forall|x: usize| ids.contains(x) <==> needs(signals, included, root, x)
    &&& forall|i: int, j: int|
        0 <= i < j < ids.len() ==> comes_before(
            signals,
            included,
            #[trigger] ids[i],
            #[trigger] ids[j],
        )
}

/// Whether the signal `x` cannot get a gate whatever has a wire: it is an
/// input, or one of its operands is a plain value without a constant.
pub open spec fn is_bad(signals: Seq<CircuitSignal>, x: usize) -> bool {
    match signals[x as int].data {
        CircuitSignalData::Input => true,
        CircuitSignalData::UnaryOp(_, a) => !(a is Signal) && canon(a) is None,
        CircuitSignalData::BinaryOp(_, l, r) => (!(l is Signal) && canon(l) is None) || (!(r
            is Signal) && canon(r) is None),
    }
}

/// The error for the signal `x` that cannot get a gate.
pub open spec fn bad_error(signals: Seq<CircuitSignal>, x: usize) -> BuilderError {
    if signals[x as int].data is Input {
        BuilderError::UnseededInput(x)
    } else {
        BuilderError::UnsupportedOperand(x)
    }
}

/// The constants with a wire, by the wire, in rising order.
pub open spec fn listed_constants(kinds: Seq<WireKind>) -> Seq<(usize, ConstantValue)>
    decreases kinds.len(),
{
    if kinds.len() == 0 {
        Seq::empty()
    } else {
        let front = listed_constants(kinds.drop_last());
        match kinds.last() {
            WireKind::Constant(c) => front.push(((kinds.len() - 1) as usize, c)),
            _ => front,
        }
    }
}

/// The wires of the constants.
pub struct ConstantWires {
    pub true_wire: Option<usize>,
    pub false_wire: Option<usize>,
    pub numbers: HashMap<usize, usize>,
    /// Each constant with its wire, in the order in which they got them.
    pub in_order: Vec<(usize, ConstantValue)>,
}

impl View for ConstantWires {
    type V = Map<ConstantValue, usize>;

    open spec fn view(&self) -> Map<ConstantValue, usize> {
        Map::new(
            |c: ConstantValue|
                match c {
                    ConstantValue::Bool(true) => self.true_wire is Some,
                    ConstantValue::Bool(false) => self.false_wire is Some,
                    ConstantValue::Number(n) => self.numbers@.contains_key(n),
                },
            |c: ConstantValue|
                match c {
                    ConstantValue::Bool(true) => self.true_wire->0,
                    ConstantValue::Bool(false) => self.false_wire->0,
                    ConstantValue::Number(n) => self.numbers@[n],
                },
        )
    }
}

impl ConstantWires {
    /// No constant has a wire.
    pub fn new() -> (r: Self)
        ensures
            r@ == Map::<ConstantValue, usize>::empty(),
            r.in_order@.len() == 0,
    {
        let r = ConstantWires {
            true_wire: None,
            false_wire: None,
            numbers: HashMap::new(),
            in_order: Vec::new(),
        };
        assert(r@ =~= Map::<ConstantValue, usize>::empty());
        r
    }

    /// The wire of the constant `c`, if it has one.
    pub fn get(&self, c: &ConstantValue) -> (r: Option<usize>)
        ensures
            r is Some <==> self@.contains_key(*c),
            r is Some ==> r->0 == self@[*c],
    {
        broadcast use vstd::std_specs::hash::group_hash_axioms;

        match c {
            ConstantValue::Bool(true) => self.true_wire,
            ConstantValue::Bool(false) => self.false_wire,
            ConstantValue::Number(n) => match self.numbers.get(n) {
                Some(w) => Some(*w),
                None => None,
            },
        }
    }

    /// Gives the constant `c` the wire `w`.
    pub fn insert(&mut self, c: ConstantValue, w: usize)
        ensures
            final(self)@ == old(self)@.insert(c, w),
            final(self).in_order@ == old(self).in_order@.push((w, c)),
    {
        broadcast use vstd::std_specs::hash::group_hash_axioms;

        match c {
            ConstantValue::Bool(true) => {
                self.true_wire = Some(w);
            },
            ConstantValue::Bool(false) => {
                self.false_wire = Some(w);
            },
            ConstantValue::Number(n) => {
                self.numbers.insert(n, w);
            },
        }
        self.in_order.push((w, c));
        assert(self@ =~= old(self)@.insert(c, w));
    }
}

/// Builds the gates of a circuit from the signals of an arena.
pub struct CircuitBuilder {
    pub gates: Vec<Gate>,
    pub wire_count: usize,
    /// The wire of each signal that has one, by its identifier.
    pub wires_included: HashMap<usize, usize>,
    pub constants: ConstantWires,
    /// For each position among `gates`, the signal that it was made for.
    pub order: Ghost<Seq<usize>>,
    /// What each wire holds.
    pub kinds: Ghost<Seq<WireKind>>,
    /// The signals that were given as inputs.
    pub seeded: Ghost<Set<usize>>,
}

impl View for CircuitBuilder {
    type V = BuilderState;

    open spec fn view(&self) -> BuilderState {
        BuilderState {
            gates: self.gates@,
            wire_count: self.wire_count as nat,
            wires: self.wires_included@,
            constants: self.constants@,
            order: self.order@,
            kinds: self.kinds@,
            seeded: self.seeded@,
        }
    }
}

/// The constant that stands for a plain value.
pub fn canon_of(v: &Val) -> (r: Option<ConstantValue>)
    ensures
        r == canon(*v),
{
    match v {
        Val::Bool(b) => Some(ConstantValue::Bool(*b)),
        Val::Number(n) => {
            let n: i128 = *n;
            if n >= 0 {
                if n <= usize::MAX as i128 {
                    Some(ConstantValue::Number(n as usize))
                } else {
                    None
                }
            } else {
                let m: i128 = -(n + 1);
                if m <= usize::MAX as i128 {
                    Some(ConstantValue::Number(usize::MAX - (m as usize)))
                } else {
                    None
                }
            }
        },
        _ => None,
    }
}

/// A state stays sound when a constant gets a wire.
pub proof fn lemma_with_constant(st: BuilderState, signals: Seq<CircuitSignal>, c: ConstantValue)
    requires
        state_ok(st, signals),
        st.wire_count < usize::MAX,
    ensures
        state_ok(with_constant(st, c), signals),
        with_constant(st, c).constants.contains_key(c),
        grows(st, with_constant(st, c)),
        with_constant(st, c).gates == st.gates,
        with_constant(st, c).wires == st.wires,
        with_constant(st, c).order == st.order,
        with_constant(st, c).seeded == st.seeded,
        st.wire_count <= with_constant(st, c).wire_count <= st.wire_count + 1,
        listed_constants(with_constant(st, c).kinds) == if st.constants.contains_key(c) {
            listed_constants(st.kinds)
        } else {
            listed_constants(st.kinds).push((st.wire_count as usize, c))
        },
{
    let s = with_constant(st, c);
    if !st.constants.contains_key(c) {
        assert(s.kinds.drop_last() =~= st.kinds);
        assert forall|g: int| 0 <= g < s.gates.len() implies #[trigger] gate_ok(s, signals, g) by {
            assert(gate_ok(st, signals, g));
            lemma_encodes_grows(st, s, signals[st.order[g] as int].data, st.gates[g]);
        }
        assert forall|w: int| 0 <= w < s.wire_count implies #[trigger] kind_ok(s, w) by {
            if w < st.wire_count {
                assert(kind_ok(st, w));
            }
        }
        assert forall|d: ConstantValue| #[trigger] s.constants.contains_key(d) implies s.constants[d]
            < s.wire_count && s.kinds[s.constants[d] as int] == WireKind::Constant(d) by {
            if d != c {
                assert(st.constants.contains_key(d));
            }
        }
        assert forall|v: int, w: int|
            0 <= v < w < s.wire_count && #[trigger] s.kinds[w] is Input implies #[trigger] s.kinds[v]
            is Input by {
            assert(s.kinds[w] == st.kinds[w]);
            assert(s.kinds[v] == st.kinds[v]);
        }
    }
}

/// Whether `new` has every wire that `old` has, for signals and for
/// constants, and every gate of `old` first.
pub open spec fn grows(old: BuilderState, new: BuilderState) -> bool {
    &&& forall|id: usize| #[trigger]
        old.wires.contains_key(id) ==> new.wires.contains_key(id) && new.wires[id] == old.wires[id]
    &&& forall|c: ConstantValue| #[trigger]
        old.constants.contains_key(c) ==> new.constants.contains_key(c) && new.constants[c]
            == old.constants[c]
    &&& old.gates.len() <= new.gates.len()
    &&& forall|g: int| 0 <= g < old.gates.len() ==> #[trigger] new.gates[g] == old.gates[g]
    &&& old.order.len() <= new.order.len()
    &&& forall|g: int| 0 <= g < old.order.len() ==> #[trigger] new.order[g] == old.order[g]
    &&& old.wire_count <= new.wire_count
    &&& new.seeded == old.seeded
}

/// What a gate stands for does not change when a state grows.
pub proof fn lemma_encodes_grows(
    old: BuilderState,
    new: BuilderState,
    data: CircuitSignalData,
    gate: Gate,
)
    requires
        encodes(old, data, gate),
        forall|id: usize| #[trigger]
            old.wires.contains_key(id) ==> new.wires.contains_key(id) && new.wires[id]
                == old.wires[id],
        forall|c: ConstantValue| #[trigger]
            old.constants.contains_key(c) ==> new.constants.contains_key(c) && new.constants[c]
                == old.constants[c],
    ensures
        encodes(new, data, gate),
{
    match data {
        CircuitSignalData::Input => {},
        CircuitSignalData::UnaryOp(_, x) => {
            lemma_wire_grows(old, new, x);
        },
        CircuitSignalData::BinaryOp(_, l, r) => {
            lemma_wire_grows(old, new, l);
            lemma_wire_grows(old, new, r);
        },
    }
}

/// A value keeps its wire when a state grows.
pub proof fn lemma_wire_grows(old: BuilderState, new: BuilderState, x: Val)
    requires
        has_wire(old, x),
        forall|id: usize| #[trigger]
            old.wires.contains_key(id) ==> new.wires.contains_key(id) && new.wires[id]
                == old.wires[id],
        forall|c: ConstantValue| #[trigger]
            old.constants.contains_key(c) ==> new.constants.contains_key(c) && new.constants[c]
                == old.constants[c],
    ensures
        has_wire(new, x),
        wire_of(new, x) == wire_of(old, x),
{
    match x {
        Val::Signal(h) => {
            assert(old.wires.contains_key(h.id));
        },
        _ => {
            assert(old.constants.contains_key(canon(x)->0));
        },
    }
}

/// What grew from what grew from a state grew from that state.
pub proof fn lemma_grows_trans(a: BuilderState, b: BuilderState, c: BuilderState)
    requires
        grows(a, b),
        grows(b, c),
    ensures
        grows(a, c),
{
    assert forall|id: usize| #[trigger] a.wires.contains_key(id) implies c.wires.contains_key(id)
        && c.wires[id] == a.wires[id] by {
        assert(b.wires.contains_key(id));
    }
    assert forall|k: ConstantValue| #[trigger]
        a.constants.contains_key(k) implies c.constants.contains_key(k) && c.constants[k]
        == a.constants[k] by {
        assert(b.constants.contains_key(k));
    }
    assert forall|g: int| 0 <= g < a.gates.len() implies #[trigger] c.gates[g] == a.gates[g] by {
        assert(b.gates[g] == a.gates[g]);
    }
    assert forall|g: int| 0 <= g < a.order.len() implies #[trigger] c.order[g] == a.order[g] by {
        assert(b.order[g] == a.order[g]);
    }
}

/// A state stays sound when a signal whose operands have wires gets its
/// gate.
pub proof fn lemma_with_gate(st: BuilderState, signals: Seq<CircuitSignal>, id: usize, gate: Gate)
    requires
        state_ok(st, signals),
        st.wire_count < usize::MAX,
        id < signals.len(),
        !st.wires.contains_key(id),
        gate.spec_output() == st.wire_count,
        encodes(st, signals[id as int].data, gate),
    ensures
        state_ok(with_gate(st, id, gate), signals),
        grows(st, with_gate(st, id, gate)),
        listed_constants(with_gate(st, id, gate).kinds) == listed_constants(st.kinds),
{
    let s = with_gate(st, id, gate);
    let n = st.gates.len() as int;
    assert(s.kinds.drop_last() =~= st.kinds);
    assert(!st.order.contains(id));
    assert(s.order.no_duplicates()) by {
        assert forall|i: int, j: int|
            0 <= i < s.order.len() && 0 <= j < s.order.len() && i != j implies s.order[i]
            != s.order[j] by {
            if i < n && j < n {
            } else if i < n {
                assert(st.order.contains(st.order[i]));
            } else {
                assert(st.order.contains(st.order[j]));
            }
        }
    }
    assert forall|x: usize| #[trigger]
        s.wires.contains_key(x) <==> s.seeded.contains(x) || s.order.contains(x) by {
        if x == id {
            assert(s.order[n] == id);
        } else {
            if st.order.contains(x) {
                let k = choose|k: int| 0 <= k < st.order.len() && st.order[k] == x;
                assert(s.order[k] == x);
            }
            if s.order.contains(x) {
                let k = choose|k: int| 0 <= k < s.order.len() && s.order[k] == x;
                assert(st.order[k] == x);
            }
            assert(st.wires.contains_key(x) <==> st.seeded.contains(x) || st.order.contains(x));
        }
    }
    assert forall|x: usize| #[trigger] s.seeded.contains(x) implies !s.order.contains(x)
        && s.wires[x] < s.wire_count && s.kinds[s.wires[x] as int] == WireKind::Input(x) by {
        assert(st.wires.contains_key(x));
        if s.order.contains(x) {
            let k = choose|k: int| 0 <= k < s.order.len() && s.order[k] == x;
            if k < n {
                assert(st.order.contains(x));
            }
        }
    }
    assert forall|g: int| 0 <= g < s.gates.len() implies #[trigger] gate_ok(s, signals, g) by {
        if g < n {
            assert(gate_ok(st, signals, g));
            lemma_encodes_grows(st, s, signals[st.order[g] as int].data, st.gates[g]);
        } else {
            lemma_encodes_grows(st, s, signals[id as int].data, gate);
        }
    }
    assert forall|w: int| 0 <= w < s.wire_count implies #[trigger] kind_ok(s, w) by {
        if w < st.wire_count {
            assert(kind_ok(st, w));
            match st.kinds[w] {
                WireKind::Input(x) => {
                    assert(st.wires.contains_key(x));
                },
                _ => {},
            }
        }
    }
    assert forall|v: int, w: int|
        0 <= v < w < s.wire_count && #[trigger] s.kinds[w] is Input implies #[trigger] s.kinds[v]
        is Input by {
        assert(s.kinds[w] == st.kinds[w]);
        assert(s.kinds[v] == st.kinds[v]);
    }
    assert forall|g: int, h: int| 0 <= g < h < s.gates.len() implies (#[trigger] s.gates[
        g
    ]).spec_output() < (#[trigger] s.gates[h]).spec_output() by {
        if h == n {
            assert(gate_ok(st, signals, g));
        }
    }
}

/// Whether the signal `id` can get its gate now: it has no wire, it is no
/// input, every operand that is a signal has a wire, and every other operand
/// has a constant.
pub open spec fn can_emit(st: BuilderState, signals: Seq<CircuitSignal>, id: usize) -> bool {
    &&& id < signals.len()
    &&& !st.wires.contains_key(id)
    &&& !is_bad(signals, id)
    &&& forall|k: int|
        0 <= k < operands(signals[id as int].data).len() ==> !is_open(
            st.wires.dom(),
            #[trigger] operands(signals[id as int].data)[k],
        )
}

/// A state stays sound when a signal that can get its gate gets it.
pub proof fn lemma_emit(st: BuilderState, signals: Seq<CircuitSignal>, id: usize)
    requires
        state_ok(st, signals),
        can_emit(st, signals, id),
        st.wire_count + 3 <= usize::MAX,
    ensures
        state_ok(emit(st, signals, id), signals),
        grows(st, emit(st, signals, id)),
        emit(st, signals, id).wires == st.wires.insert(
            id,
            (emit(st, signals, id).wire_count - 1) as usize,
        ),
        emit(st, signals, id).order == st.order.push(id),
        emit(st, signals, id).gates.len() == st.gates.len() + 1,
        st.wire_count < emit(st, signals, id).wire_count <= st.wire_count + 3,
{
    let data = signals[id as int].data;
    match data {
        CircuitSignalData::Input => {},
        CircuitSignalData::UnaryOp(op, x) => {
            assert(operands(data)[0] == x);
            let s1 = with_operand(st, x);
            if canon(x) is Some {
                lemma_with_constant(st, signals, canon(x)->0);
            }
            let gate = Gate::Unary { op, input: wire_of(s1, x), output: s1.wire_count as usize };
            assert(has_wire(s1, x)) by {
                if !(x is Signal) {
                } else {
                    assert(!is_open(st.wires.dom(), x));
                }
            }
            lemma_has_wire_below(s1, signals, x);
            lemma_with_gate(s1, signals, id, gate);
        },
        CircuitSignalData::BinaryOp(op, l, r) => {
            assert(operands(data)[0] == l);
            assert(operands(data)[1] == r);
            let s1 = with_operand(st, l);
            if canon(l) is Some {
                lemma_with_constant(st, signals, canon(l)->0);
            }
            let s2 = with_operand(s1, r);
            if canon(r) is Some {
                lemma_with_constant(s1, signals, canon(r)->0);
            }
            assert(has_wire(s1, l)) by {
                if l is Signal {
                    assert(!is_open(st.wires.dom(), l));
                }
            }
            lemma_wire_grows(s1, s2, l);
            assert(has_wire(s2, r)) by {
                if r is Signal {
                    assert(!is_open(st.wires.dom(), r));
                }
            }
            let gate = Gate::Binary {
                op,
                left: wire_of(s2, l),
                right: wire_of(s2, r),
                output: s2.wire_count as usize,
            };
            lemma_has_wire_below(s2, signals, l);
            lemma_has_wire_below(s2, signals, r);
            lemma_with_gate(s2, signals, id, gate);
        },
    }
}

/// The wire of a value lies below the number of wires.
pub proof fn lemma_has_wire_below(st: BuilderState, signals: Seq<CircuitSignal>, x: Val)
    requires
        state_ok(st, signals),
        has_wire(st, x),
    ensures
        wire_of(st, x) < st.wire_count,
{
    match x {
        Val::Signal(h) => {
            assert(st.wires.contains_key(h.id));
            if st.seeded.contains(h.id) {
            } else {
                assert(st.order.contains(h.id));
                let g = choose|g: int| 0 <= g < st.order.len() && st.order[g] == h.id;
                assert(gate_ok(st, signals, g));
            }
        },
        _ => {
            assert(st.constants.contains_key(canon(x)->0));
        },
    }
}

/// The state after the signals `ids` were given as inputs: they hold the
/// first wires, in their order.
pub open spec fn seeded_state(ids: Seq<usize>) -> BuilderState {
    BuilderState {
        gates: Seq::empty(),
        wire_count: ids.len(),
        wires: Map::new(|id: usize| ids.contains(id), |id: usize| ids.index_of(id) as usize),
        constants: Map::empty(),
        order: Seq::empty(),
        kinds: Seq::new(ids.len(), |i: int| WireKind::Input(ids[i])),
        seeded: ids.to_set(),
    }
}

/// Among wires that all hold inputs, no constant is listed.
proof fn lemma_no_constants_listed(kinds: Seq<WireKind>)
    requires
        forall|i: int| 0 <= i < kinds.len() ==> #[trigger] kinds[i] is Input,
    ensures
        listed_constants(kinds) == Seq::<(usize, ConstantValue)>::empty(),
    decreases kinds.len(),
{
    if kinds.len() > 0 {
        assert(kinds[kinds.len() - 1] is Input);
        assert forall|i: int| 0 <= i < kinds.drop_last().len() implies #[trigger] kinds.drop_last()[i]
            is Input by {
            assert(kinds.drop_last()[i] == kinds[i]);
        }
        lemma_no_constants_listed(kinds.drop_last());
    }
}

/// The first position of an entry of a list that is in it again later, if
/// there is one.
pub open spec fn first_repeat(ids: Seq<usize>, n: int) -> Option<usize>
    decreases n,
{
    if n <= 0 {
        None
    } else {
        match first_repeat(ids, n - 1) {
            Some(id) => Some(id),
            None => if ids.take(n - 1).contains(ids[n - 1]) {
                Some(ids[n - 1])
            } else {
                None
            },
        }
    }
}

proof fn lemma_first_repeat_none(ids: Seq<usize>, n: int)
    requires
        0 <= n <= ids.len(),
        first_repeat(ids, n) is None,
    ensures
        ids.take(n).no_duplicates(),
    decreases n,
{
    if n > 0 {
        lemma_first_repeat_none(ids, n - 1);
        let t = ids.take(n);
        let t0 = ids.take(n - 1);
        assert forall|i: int, j: int| 0 <= i < t.len() && 0 <= j < t.len() && i != j implies t[i]
            != t[j] by {
            if i < n - 1 && j < n - 1 {
                assert(t0[i] == t[i]);
                assert(t0[j] == t[j]);
            } else if i < n - 1 {
                assert(t0[i] == t[i]);
                assert(!t0.contains(ids[n - 1]));
            } else {
                assert(t0[j] == t[j]);
                assert(!t0.contains(ids[n - 1]));
            }
        }
    }
}

impl CircuitBuilder {
    /// Whether the builder is sound with respect to the signals of an arena.
    pub open spec fn wf(&self, signals: Seq<CircuitSignal>) -> bool {
        &&& state_ok(self@, signals)
        &&& self.constants.in_order@ == listed_constants(self.kinds@)
    }

    /// Whether the builder has nothing yet.
    pub open spec fn is_empty(&self) -> bool {
        self@ == empty_state() && self.constants.in_order@.len() == 0
    }

    /// A builder that has nothing yet.
    pub fn new() -> (b: Self)
        ensures
            b.is_empty(),
            forall|signals: Seq<CircuitSignal>| #[trigger] b.wf(signals),
    {
        let b = CircuitBuilder {
            gates: Vec::new(),
            wire_count: 0,
            wires_included: HashMap::new(),
            constants: ConstantWires::new(),
            order: Ghost(Seq::empty()),
            kinds: Ghost(Seq::empty()),
            seeded: Ghost(Set::empty()),
        };
        proof {
            assert(b@.gates =~= empty_state().gates);
            assert(b@.wires =~= empty_state().wires);
            assert(b.constants.in_order@ =~= listed_constants(b.kinds@));
        }
        b
    }

    /// Gives the first wires to the input signals `input_ids`, in their
    /// order. No signal may be given twice; where one is, nothing is included.
    pub fn include_inputs(&mut self, input_ids: &[usize]) -> (r: Result<(), BuilderError>)
        requires
            old(self).is_empty(),
        ensures
            match r {
                Ok(()) => {
                    &&& input_ids@.no_duplicates()
                    &&& final(self)@ == seeded_state(input_ids@)
                    &&& forall|signals: Seq<CircuitSignal>| #[trigger] final(self).wf(signals)
                },
                Err(e) => {
                    &&& first_repeat(input_ids@, input_ids@.len() as int) is Some
                    &&& e == BuilderError::DuplicateInput(
                        first_repeat(input_ids@, input_ids@.len() as int)->0,
                    )
                    &&& final(self).is_empty()
                },
            },
    {
        broadcast use vstd::std_specs::hash::group_hash_axioms;

        let ghost ids = input_ids@;
        let mut i: usize = 0;
        while i < input_ids.len()
            invariant
                i <= input_ids.len(),
                ids == input_ids@,
                first_repeat(ids, i as int) is None,
                self.gates@.len() == 0,
                self.constants@ == Map::<ConstantValue, usize>::empty(),
                self.constants.in_order@.len() == 0,
                self.order@ == Seq::<usize>::empty(),
                self.kinds@ == Seq::<WireKind>::empty(),
                self.seeded@ == Set::<usize>::empty(),
                self.wire_count == 0,
                forall|id: usize| #[trigger]
                    self.wires_included@.contains_key(id) <==> ids.take(i as int).contains(id),
                forall|k: int|
                    0 <= k < i ==> self.wires_included@[#[trigger] ids[k]] == k,
            decreases input_ids.len() - i,
        {
            let id = input_ids[i];
            proof {
                lemma_first_repeat_none(ids, i as int);
            }
            if self.wires_included.contains_key(&id) {
                self.wires_included = HashMap::new();
                proof {
                    lemma_first_repeat_some(ids, i + 1, ids.len() as int);
                    assert(self@.wires =~= empty_state().wires);
                    assert(self@.gates =~= empty_state().gates);
                }
                return Err(BuilderError::DuplicateInput(id));
            }
            self.wires_included.insert(id, i);
            proof {
                let t0 = ids.take(i as int);
                let t1 = ids.take(i + 1);
                assert(t1 =~= t0.push(id));
                assert forall|x: usize| #[trigger]
                    self.wires_included@.contains_key(x) <==> t1.contains(x) by {
                    if t1.contains(x) {
                        let k = choose|k: int| 0 <= k < t1.len() && t1[k] == x;
                        if k < i {
                            assert(t0[k] == x);
                        }
                    }
                    if t0.contains(x) {
                        let k = choose|k: int| 0 <= k < t0.len() && t0[k] == x;
                        assert(t1[k] == x);
                    }
                    if x == id {
                        assert(t1[i as int] == x);
                    }
                }
                assert forall|k: int| 0 <= k < i + 1 implies self.wires_included@[#[trigger] ids[k]]
                    == k by {
                    if k < i {
                        assert(t0[k] == ids[k]);
                        assert(t0.contains(ids[k]));
                    }
                }
            }
            i += 1;
        }
        self.wire_count = input_ids.len();
        self.kinds = Ghost(Seq::new(ids.len(), |i: int| WireKind::Input(ids[i])));
        self.seeded = Ghost(ids.to_set());
        proof {
            assert(ids.take(ids.len() as int) =~= ids);
            lemma_first_repeat_none(ids, ids.len() as int);
            let st = self@;
            let target = seeded_state(ids);
            assert(st.wires =~= target.wires) by {
                assert forall|id: usize| st.wires.contains_key(id) implies st.wires[id]
                    == target.wires[id] by {
                    let k = ids.index_of(id);
                    assert(ids[k] == id);
                }
            }
            assert(st.gates =~= target.gates);
            assert(st == target);
            lemma_no_constants_listed(st.kinds);
            assert(self.constants.in_order@ =~= listed_constants(self.kinds@));
            assert forall|signals: Seq<CircuitSignal>| #[trigger] self.wf(signals) by {
                lemma_seeded_state_ok(ids, signals);
                assert(state_ok(self@, signals));
            }
        }
        Ok(())
    }
}

proof fn lemma_first_repeat_some(ids: Seq<usize>, n: int, m: int)
    requires
        0 < n <= m <= ids.len(),
        first_repeat(ids, n - 1) is None,
        ids.take(n - 1).contains(ids[n - 1]),
    ensures
        first_repeat(ids, m) == Some(ids[n - 1]),
    decreases m - n,
{
    if n < m {
        lemma_first_repeat_some(ids, n, m - 1);
    }
}

/// The state after the inputs were given is sound.
pub proof fn lemma_seeded_state_ok(ids: Seq<usize>, signals: Seq<CircuitSignal>)
    requires
        ids.no_duplicates(),
        ids.len() <= usize::MAX,
    ensures
        state_ok(seeded_state(ids), signals),
{
    let st = seeded_state(ids);
    assert forall|id: usize| #[trigger] st.seeded.contains(id) implies !st.order.contains(id)
        && st.wires[id] < st.wire_count && st.kinds[st.wires[id] as int] == WireKind::Input(id) by {
        let k = ids.index_of(id);
        assert(ids[k] == id);
    }
    assert forall|w: int| 0 <= w < st.wire_count implies #[trigger] kind_ok(st, w) by {
        let id = ids[w];
        assert(ids.contains(id));
        let k = ids.index_of(id);
        assert(ids[k] == id);
    }
}

/// What stands in the way of giving the signal `id` its gate at once, if
/// anything does.
pub open spec fn shallow_error(st: BuilderState, signals: Seq<CircuitSignal>, id: usize) -> Option<
    BuilderError,
> {
    if id >= signals.len() {
        Some(BuilderError::UnknownSignal(id))
    } else if st.wires.contains_key(id) {
        Some(BuilderError::AlreadyIncluded(id))
    } else if is_bad(signals, id) {
        Some(bad_error(signals, id))
    } else {
        let ops = operands(signals[id as int].data);
        if ops.len() > 0 && is_open(st.wires.dom(), ops[0]) {
            Some(BuilderError::NotIncluded(ops[0]->Signal_0.id))
        } else if ops.len() > 1 && is_open(st.wires.dom(), ops[1]) {
            Some(BuilderError::NotIncluded(ops[1]->Signal_0.id))
        } else if st.wire_count + 3 > usize::MAX {
            Some(BuilderError::TooManyWires)
        } else {
            None
        }
    }
}

impl CircuitBuilder {
    /// The wire of the constant `c`, which gets the next wire if it has
    /// none.
    fn include_constant(&mut self, c: ConstantValue, Ghost(signals): Ghost<Seq<CircuitSignal>>) -> (w:
        usize)
        requires
            old(self).wf(signals),
            old(self).wire_count < usize::MAX,
        ensures
            final(self)@ == with_constant(old(self)@, c),
            final(self).wf(signals),
            w == final(self)@.constants[c],
            final(self)@.constants.contains_key(c),
    {
        proof {
            lemma_with_constant(self@, signals, c);
        }
        match self.constants.get(&c) {
            Some(w) => w,
            None => {
                let w = self.wire_count;
                self.wire_count = self.wire_count + 1;
                self.constants.insert(c, w);
                self.kinds = Ghost(self.kinds@.push(WireKind::Constant(c)));
                assert(self@ == with_constant(old(self)@, c));
                w
            },
        }
    }

    /// The wire of a value without looking at what a signal depends on: a
    /// signal must have its wire already; a boolean or a number gets the
    /// wire of its constant, which is the next wire if it has none.
    pub fn include_val_shallow(&mut self, arena: &SignalArena, val: &Val) -> (r: Result<
        usize,
        BuilderError,
    >)
        requires
            old(self).wf(arena@),
        ensures
            final(self).wf(arena@),
            grows(old(self)@, final(self)@),
            r is Ok ==> r->Ok_0 < final(self).wire_count,
            match *val {
                Val::Signal(h) => {
                    &&& final(self)@ == old(self)@
                    &&& r == if old(self)@.wires.contains_key(h.id) {
                        Ok::<usize, BuilderError>(old(self)@.wires[h.id])
                    } else {
                        Err(BuilderError::NotIncluded(h.id))
                    }
                },
                _ => match canon(*val) {
                    None => {
                        &&& final(self)@ == old(self)@
                        &&& r == Err::<usize, BuilderError>(
                            if *val is Number {
                                BuilderError::ConstantOutOfRange
                            } else {
                                BuilderError::UnsupportedValue
                            },
                        )
                    },
                    Some(c) => if old(self)@.constants.contains_key(c) {
                        final(self)@ == old(self)@ && r == Ok::<usize, BuilderError>(
                            old(self)@.constants[c],
                        )
                    } else if old(self).wire_count == usize::MAX {
                        final(self)@ == old(self)@ && r == Err::<usize, BuilderError>(
                            BuilderError::TooManyWires,
                        )
                    } else {
                        final(self)@ == with_constant(old(self)@, c) && r == Ok::<
                            usize,
                            BuilderError,
                        >(old(self).wire_count)
                    },
                },
            },
    {
        broadcast use vstd::std_specs::hash::group_hash_axioms;

        proof {
            if has_wire(self@, *val) {
                lemma_has_wire_below(self@, arena@, *val);
            }
            if canon(*val) is Some && self.wire_count < usize::MAX {
                lemma_with_constant(self@, arena@, canon(*val)->0);
            }
        }
        match val {
            Val::Signal(h) => match self.wires_included.get(&h.id) {
                Some(w) => Ok(*w),
                None => Err(BuilderError::NotIncluded(h.id)),
            },
            _ => match canon_of(val) {
                None => match val {
                    Val::Number(_) => Err(BuilderError::ConstantOutOfRange),
                    _ => Err(BuilderError::UnsupportedValue),
                },
                Some(c) => match self.constants.get(&c) {
                    Some(w) => Ok(w),
                    None => {
                        if self.wire_count == usize::MAX {
                            return Err(BuilderError::TooManyWires);
                        }
                        Ok(self.include_constant(c, Ghost(arena@)))
                    },
                },
            },
        }
    }

    /// The wire of the operand `x` of a signal that is about to get its
    /// gate.
    fn operand_wire(&mut self, x: &Val, Ghost(signals): Ghost<Seq<CircuitSignal>>) -> (w: usize)
        requires
            old(self).wf(signals),
            old(self).wire_count < usize::MAX,
            !is_open(old(self)@.wires.dom(), *x),
            !(*x is Signal) ==> canon(*x) is Some,
        ensures
            final(self)@ == with_operand(old(self)@, *x),
            final(self).wf(signals),
            has_wire(final(self)@, *x),
            w == wire_of(final(self)@, *x),
    {
        broadcast use vstd::std_specs::hash::group_hash_axioms;

        match x {
            Val::Signal(h) => match self.wires_included.get(&h.id) {
                Some(w) => *w,
                None => 0,
            },
            _ => match canon_of(x) {
                Some(c) => self.include_constant(c, Ghost(signals)),
                None => 0,
            },
        }
    }

    /// Adds `gate`, which writes the next wire, for the signal `id`.
    fn push_gate(&mut self, id: usize, gate: Gate, Ghost(signals): Ghost<Seq<CircuitSignal>>)
        requires
            old(self).wf(signals),
            old(self).wire_count < usize::MAX,
            id < signals.len(),
            !old(self)@.wires.contains_key(id),
            gate.spec_output() == old(self).wire_count,
            encodes(old(self)@, signals[id as int].data, gate),
        ensures
            final(self)@ == with_gate(old(self)@, id, gate),
            final(self).wf(signals),
    {
        broadcast use vstd::std_specs::hash::group_hash_axioms;

        proof {
            lemma_with_gate(self@, signals, id, gate);
        }
        let out = self.wire_count;
        self.kinds = Ghost(self.kinds@.push(WireKind::Gate(self.gates@.len() as int)));
        self.order = Ghost(self.order@.push(id));
        self.gates.push(gate);
        self.wire_count = self.wire_count + 1;
        self.wires_included.insert(id, out);
        assert(self@ == with_gate(old(self)@, id, gate));
    }

    /// Gives the signal `id` its wire and its gate.
    fn emit_node(&mut self, arena: &SignalArena, id: usize) -> (w: usize)
        requires
            old(self).wf(arena@),
            can_emit(old(self)@, arena@, id),
            old(self).wire_count + 3 <= usize::MAX,
        ensures
            final(self)@ == emit(old(self)@, arena@, id),
            final(self).wf(arena@),
            final(self)@.wires.contains_key(id),
            w == final(self)@.wires[id],
    {
        let ghost signals = arena@;
        let ghost st = self@;
        proof {
            lemma_emit(st, signals, id);
        }
        match &arena.get(id).data {
            CircuitSignalData::Input => 0,
            CircuitSignalData::UnaryOp(op, x) => {
                assert(operands(signals[id as int].data)[0] == *x);
                let input = self.operand_wire(x, Ghost(signals));
                let output = self.wire_count;
                proof {
                    lemma_has_wire_below(self@, signals, *x);
                }
                self.push_gate(id, Gate::Unary { op: *op, input, output }, Ghost(signals));
                output
            },
            CircuitSignalData::BinaryOp(op, l, r) => {
                assert(operands(signals[id as int].data)[0] == *l);
                assert(operands(signals[id as int].data)[1] == *r);
                let ghost s0 = self@;
                let left = self.operand_wire(l, Ghost(signals));
                let ghost s1 = self@;
                proof {
                    if canon(*l) is Some {
                        lemma_with_constant(s0, signals, canon(*l)->0);
                    }
                }
                let right = self.operand_wire(r, Ghost(signals));
                let output = self.wire_count;
                proof {
                    if canon(*r) is Some {
                        lemma_with_constant(s1, signals, canon(*r)->0);
                    }
                    lemma_wire_grows(s1, self@, *l);
                    lemma_has_wire_below(self@, signals, *l);
                    lemma_has_wire_below(self@, signals, *r);
                }
                self.push_gate(id, Gate::Binary { op: *op, left, right, output }, Ghost(signals));
                output
            },
        }
    }

    /// Gives the signal `id` its wire and its gate, if every signal among
    /// its operands has a wire already. Where it cannot, nothing changes.
    pub fn include_signal_shallow(&mut self, arena: &SignalArena, id: usize) -> (r: Result<
        usize,
        BuilderError,
    >)
        requires
            old(self).wf(arena@),
        ensures
            final(self).wf(arena@),
            match shallow_error(old(self)@, arena@, id) {
                Some(e) => r == Err::<usize, BuilderError>(e) && final(self)@ == old(self)@,
                None => final(self)@ == emit(old(self)@, arena@, id) && r == Ok::<
                    usize,
                    BuilderError,
                >(final(self)@.wires[id]),
            },
    {
        broadcast use vstd::std_specs::hash::group_hash_axioms;

        if id >= arena.len() {
            return Err(BuilderError::UnknownSignal(id));
        }
        if self.wires_included.contains_key(&id) {
            return Err(BuilderError::AlreadyIncluded(id));
        }
        if let Some(e) = bad_node(arena, id) {
            return Err(e);
        }
        let ghost ops = operands(arena@[id as int].data);
        let open = match &arena.get(id).data {
            CircuitSignalData::Input => None,
            CircuitSignalData::UnaryOp(_, x) => {
                assert(ops[0] == *x);
                self.open_operand(x)
            },
            CircuitSignalData::BinaryOp(_, l, r) => {
                assert(ops[0] == *l);
                assert(ops[1] == *r);
                match self.open_operand(l) {
                    Some(d) => Some(d),
                    None => self.open_operand(r),
                }
            },
        };
        if let Some(d) = open {
            return Err(BuilderError::NotIncluded(d));
        }
        if self.wire_count > usize::MAX - 3 {
            return Err(BuilderError::TooManyWires);
        }
        Ok(self.emit_node(arena, id))
    }

    /// The identifier of the operand `x` if it is a signal without a wire.
    fn open_operand(&self, x: &Val) -> (r: Option<usize>)
        ensures
            r is Some <==> is_open(self@.wires.dom(), *x),
            r is Some ==> r->0 == (*x)->Signal_0.id,
    {
        broadcast use vstd::std_specs::hash::group_hash_axioms;

        match x {
            Val::Signal(h) => if self.wires_included.contains_key(&h.id) {
                None
            } else {
                Some(h.id)
            },
            _ => None,
        }
    }
}

/// Whether the operand `x` is a plain value without a constant.
fn bad_operand(x: &Val) -> (r: bool)
    ensures
        r == (!(*x is Signal) && canon(*x) is None),
{
    match x {
        Val::Signal(_) => false,
        _ => canon_of(x).is_none(),
    }
}

/// The error for the signal `id` if it cannot get a gate whatever has a
/// wire.
fn bad_node(arena: &SignalArena, id: usize) -> (r: Option<BuilderError>)
    requires
        id < arena@.len(),
    ensures
        r is Some <==> is_bad(arena@, id),
        r is Some ==> r->0 == bad_error(arena@, id),
{
    match &arena.get(id).data {
        CircuitSignalData::Input => Some(BuilderError::UnseededInput(id)),
        CircuitSignalData::UnaryOp(_, x) => if bad_operand(x) {
            Some(BuilderError::UnsupportedOperand(id))
        } else {
            None
        },
        CircuitSignalData::BinaryOp(_, l, r) => if bad_operand(l) || bad_operand(r) {
            Some(BuilderError::UnsupportedOperand(id))
        } else {
            None
        },
    }
}

/// Whether `d` is an operand of the signal `p` that is a signal without a
/// wire.
pub open spec fn opens(
    signals: Seq<CircuitSignal>,
    included: Set<usize>,
    p: usize,
    d: usize,
) -> bool {
    p < signals.len() && !included.contains(d) && match signals[p as int].data {
        CircuitSignalData::Input => false,
        CircuitSignalData::UnaryOp(_, a) => a is Signal && a->Signal_0.id == d,
        CircuitSignalData::BinaryOp(_, l, r) => (l is Signal && l->Signal_0.id == d) || (r
            is Signal && r->Signal_0.id == d),
    }
}

/// Whether every operand of the signal `p` that is a signal has a wire.
pub open spec fn ready(signals: Seq<CircuitSignal>, included: Set<usize>, p: usize) -> bool {
    match signals[p as int].data {
        CircuitSignalData::Input => true,
        CircuitSignalData::UnaryOp(_, a) => !is_open(included, a),
        CircuitSignalData::BinaryOp(_, l, r) => !is_open(included, l) && !is_open(included, r),
    }
}

/// A signal without a wire needs itself.
pub proof fn lemma_needs_self(signals: Seq<CircuitSignal>, included: Set<usize>, root: usize)
    requires
        root < signals.len(),
        !included.contains(root),
    ensures
        needs(signals, included, root, root),
{
}

/// What a signal needs is a signal of the arena without a wire, and not
/// younger than it.
pub proof fn lemma_needs_bounds(
    signals: Seq<CircuitSignal>,
    included: Set<usize>,
    root: usize,
    x: usize,
)
    requires
        needs(signals, included, root, x),
    ensures
        x <= root,
        x < signals.len(),
        !included.contains(x),
    decreases root,
{
    if root != x {
        match signals[root as int].data {
            CircuitSignalData::Input => {},
            CircuitSignalData::UnaryOp(_, a) => {
                lemma_needs_bounds(signals, included, a->Signal_0.id, x);
            },
            CircuitSignalData::BinaryOp(_, l, r) => {
                if l is Signal && l->Signal_0.id < root && needs(
                    signals,
                    included,
                    l->Signal_0.id,
                    x,
                ) {
                    lemma_needs_bounds(signals, included, l->Signal_0.id, x);
                } else {
                    lemma_needs_bounds(signals, included, r->Signal_0.id, x);
                }
            },
        }
    }
}

/// What is needed by something that `root` needs is needed by `root`.
pub proof fn lemma_needs_step(
    signals: Seq<CircuitSignal>,
    included: Set<usize>,
    root: usize,
    p: usize,
    d: usize,
)
    requires
        signals_ok(signals),
        needs(signals, included, root, p),
        opens(signals, included, p, d),
    ensures
        needs(signals, included, root, d),
        d < p,
    decreases root,
{
    assert(signal_ok(signals, p as int));
    if root == p {
        lemma_needs_self(signals, included, d);
    } else {
        match signals[root as int].data {
            CircuitSignalData::Input => {},
            CircuitSignalData::UnaryOp(_, a) => {
                lemma_needs_step(signals, included, a->Signal_0.id, p, d);
            },
            CircuitSignalData::BinaryOp(_, l, r) => {
                if l is Signal && l->Signal_0.id < root && needs(
                    signals,
                    included,
                    l->Signal_0.id,
                    p,
                ) {
                    lemma_needs_step(signals, included, l->Signal_0.id, p, d);
                } else {
                    lemma_needs_step(signals, included, r->Signal_0.id, p, d);
                }
            },
        }
    }
}

/// A set that holds `root` and, with each signal, the operands that it
/// opens, holds all that `root` needs.
pub proof fn lemma_needs_closed(
    signals: Seq<CircuitSignal>,
    included: Set<usize>,
    root: usize,
    x: usize,
    found: Set<usize>,
)
    requires
        needs(signals, included, root, x),
        found.contains(root),
        forall|p: usize, d: usize|
            found.contains(p) && #[trigger] opens(signals, included, p, d) ==> found.contains(d),
    ensures
        found.contains(x),
    decreases root,
{
    reveal_with_fuel(needs, 2);
    if root != x {
        match signals[root as int].data {
            CircuitSignalData::Input => {},
            CircuitSignalData::UnaryOp(_, a) => {
                let d = a->Signal_0.id;
                assert(opens(signals, included, root, d));
                lemma_needs_closed(signals, included, d, x, found);
            },
            CircuitSignalData::BinaryOp(_, l, r) => {
                if l is Signal && l->Signal_0.id < root && needs(
                    signals,
                    included,
                    l->Signal_0.id,
                    x,
                ) {
                    let d = l->Signal_0.id;
                    assert(opens(signals, included, root, d));
                    lemma_needs_closed(signals, included, d, x, found);
                } else {
                    let d = r->Signal_0.id;
                    assert(opens(signals, included, root, d));
                    lemma_needs_closed(signals, included, d, x, found);
                }
            },
        }
    }
}

/// The parents recorded for the signal `d`.
spec fn parents_at(parents: Map<usize, Vec<usize>>, d: usize) -> Seq<usize> {
    if parents.contains_key(d) {
        parents[d]@
    } else {
        Seq::empty()
    }
}

/// Records `p` as a parent of `d`.
fn add_parent(parents: &mut HashMap<usize, Vec<usize>>, d: usize, p: usize)
    ensures
        parents_at(final(parents)@, d) == parents_at(old(parents)@, d).push(p),
        forall|e: usize| e != d ==> parents_at(final(parents)@, e) == parents_at(old(parents)@, e),
{
    broadcast use vstd::std_specs::hash::group_hash_axioms;

    let mut list = match parents.remove(&d) {
        Some(list) => list,
        None => Vec::new(),
    };
    list.push(p);
    parents.insert(d, list);
}

/// A list of distinct identifiers below `n` has at most `n` entries.
proof fn lemma_distinct_below(s: Seq<usize>, n: usize)
    requires
        s.no_duplicates(),
        forall|i: int| 0 <= i < s.len() ==> #[trigger] s[i] < n,
    ensures
        s.len() <= n,
{
    let f = |w: usize| w as int;
    let t = s.map_values(f);
    assert(t.no_duplicates()) by {
        assert forall|i: int, j: int| 0 <= i < t.len() && 0 <= j < t.len() && i != j implies t[
            i
        ] != t[j] by {
            assert(t[i] == s[i] as int);
            assert(t[j] == s[j] as int);
        }
    }
    t.unique_seq_to_set();
    let range = vstd::set_lib::set_int_range(0, n as int);
    vstd::set_lib::lemma_int_range(0, n as int);
    assert(t.to_set().subset_of(range)) by {
        assert forall|x: int| t.to_set().contains(x) implies range.contains(x) by {
            let i = choose|i: int| 0 <= i < t.len() && t[i] == x;
            assert(t[i] == s[i] as int);
        }
    }
    vstd::set_lib::lemma_len_subset(t.to_set(), range);
}

/// What was found of the signals that a signal needs.
struct Plan {
    /// The needed signals whose operands all have wires.
    pub leaves: BTreeSet<usize>,
    /// The same signals, each once, in the order in which they were found.
    pub listed: Ghost<Seq<usize>>,
    /// For each needed signal, the needed signals that have it as an operand.
    pub parents: HashMap<usize, Vec<usize>>,
    /// The number of needed signals.
    pub count: usize,
    /// The least needed signal that cannot get a gate, if there is one.
    pub bad: Option<usize>,
    /// The needed signals, each once.
    pub seen: Ghost<Seq<usize>>,
}

/// Whether `plan` is what is to be found of the signals that `root` needs.
spec fn plan_ok(
    signals: Seq<CircuitSignal>,
    included: Set<usize>,
    root: usize,
    plan: Plan,
) -> bool {
    &&& plan.seen@.no_duplicates()
    &&& plan.count == plan.seen@.len()
    &&& forall|x: usize|
        #![trigger plan.seen@.contains(x)]
        #![trigger needs(signals, included, root, x)]
        plan.seen@.contains(x) <==> needs(signals, included, root, x)
    &&& plan.leaves@ == plan.listed@.to_set()
    &&& plan.listed@.no_duplicates()
    &&& forall|x: usize|
        #![trigger plan.listed@.contains(x)]
        #![trigger needs(signals, included, root, x)]
        plan.listed@.contains(x) <==> needs(signals, included, root, x) && ready(
            signals,
            included,
            x,
        )
    &&& forall|d: usize| #[trigger] parents_at(plan.parents@, d).no_duplicates()
    &&& forall|d: usize, p: usize|
        #![trigger parents_at(plan.parents@, d).contains(p)]
        #![trigger opens(signals, included, p, d)]
        parents_at(plan.parents@, d).contains(p) <==> needs(signals, included, root, p) && opens(
            signals,
            included,
            p,
            d,
        )
    &&& match plan.bad {
        Some(b) => {
            &&& needs(signals, included, root, b)
            &&& is_bad(signals, b)
            &&& forall|x: usize|
                needs(signals, included, root, x) && #[trigger] is_bad(signals, x) ==> b <= x
        },
        None => forall|x: usize|
            needs(signals, included, root, x) ==> !#[trigger] is_bad(signals, x),
    }
}

impl CircuitBuilder {
    /// The operands of the signal `id` that are signals without a wire,
    /// each once, in the order of the operands.
    fn open_deps(&self, arena: &SignalArena, id: usize) -> (v: Vec<usize>)
        requires
            id < arena@.len(),
        ensures
            v@.no_duplicates(),
            forall|d: usize| v@.contains(d) <==> opens(arena@, self@.wires.dom(), id, d),
            v@.len() == 0 <==> ready(arena@, self@.wires.dom(), id),
    {
        let mut v: Vec<usize> = Vec::new();
        match &arena.get(id).data {
            CircuitSignalData::Input => {},
            CircuitSignalData::UnaryOp(_, a) => {
                if let Some(d) = self.open_operand(a) {
                    v.push(d);
                    assert(v@[0] == d);
                }
            },
            CircuitSignalData::BinaryOp(_, l, r) => {
                let dl = self.open_operand(l);
                let dr = self.open_operand(r);
                match (dl, dr) {
                    (Some(a), Some(b)) => {
                        v.push(a);
                        if b != a {
                            v.push(b);
                            assert(v@[1] == b);
                        }
                        assert(v@[0] == a);
                    },
                    (Some(a), None) => {
                        v.push(a);
                        assert(v@[0] == a);
                    },
                    (None, Some(b)) => {
                        v.push(b);
                        assert(v@[0] == b);
                    },
                    (None, None) => {},
                }
            },
        }
        v
    }
}

/// Whether `b` is the least of the signals in `found` that cannot get a
/// gate, or `None` where there is none.
pub open spec fn is_least_bad(signals: Seq<CircuitSignal>, found: Set<usize>, b: Option<usize>) -> bool {
    match b {
        Some(b) => {
            &&& found.contains(b)
            &&& is_bad(signals, b)
            &&& forall|x: usize| found.contains(x) && #[trigger] is_bad(signals, x) ==> b <= x
        },
        None => forall|x: usize| found.contains(x) ==> !#[trigger] is_bad(signals, x),
    }
}

/// What holds while the signals that `root` needs are looked for: those
/// found are needed, those to look at are needed, and nothing that a found
/// signal opens is forgotten.
spec fn search_inv(
    signals: Seq<CircuitSignal>,
    included: Set<usize>,
    root: usize,
    stack: Seq<usize>,
    found: Set<usize>,
    plan: Plan,
) -> bool {
    &&& forall|k: int| 0 <= k < stack.len() ==> needs(signals, included, root, #[trigger] stack[k])
    &&& plan.seen@.no_duplicates()
    &&& plan.count == plan.seen@.len()
    &&& forall|x: usize|
        #![trigger plan.seen@.contains(x)]
        #![trigger found.contains(x)]
        plan.seen@.contains(x) <==> found.contains(x)
    &&& forall|x: usize| #[trigger] found.contains(x) ==> needs(signals, included, root, x)
    &&& forall|p: usize, d: usize|
        found.contains(p) && #[trigger] opens(signals, included, p, d) ==> found.contains(d)
            || stack.contains(d)
    &&& found.contains(root) || stack.contains(root)
    &&& plan.leaves@ == plan.listed@.to_set()
    &&& plan.listed@.no_duplicates()
    &&& forall|x: usize|
        #![trigger plan.listed@.contains(x)]
        #![trigger found.contains(x)]
        plan.listed@.contains(x) <==> found.contains(x) && ready(signals, included, x)
    &&& forall|d: usize| #[trigger] parents_at(plan.parents@, d).no_duplicates()
    &&& forall|d: usize, p: usize|
        #![trigger parents_at(plan.parents@, d).contains(p)]
        #![trigger opens(signals, included, p, d)]
        parents_at(plan.parents@, d).contains(p) <==> found.contains(p) && opens(
            signals,
            included,
            p,
            d,
        )
    &&& is_least_bad(signals, found, plan.bad)
}

/// Once nothing is left to look at, everything that `root` needs was found.
proof fn lemma_search_done(
    signals: Seq<CircuitSignal>,
    included: Set<usize>,
    root: usize,
    found: Set<usize>,
    plan: Plan,
)
    requires
        search_inv(signals, included, root, Seq::empty(), found, plan),
    ensures
        plan_ok(signals, included, root, plan),
{
    assert forall|x: usize| #[trigger] needs(signals, included, root, x) implies found.contains(
        x,
    ) by {
        lemma_needs_closed(signals, included, root, x, found);
    }
}

impl CircuitBuilder {
    /// Finds the signals that `root` needs.
    fn discover(&self, arena: &SignalArena, root: usize) -> (plan: Plan)
        requires
            arena.wf(),
            root < arena@.len(),
            !self@.wires.contains_key(root),
        ensures
            plan_ok(arena@, self@.wires.dom(), root, plan),
            plan.count <= arena@.len(),
    {
        broadcast use vstd::std_specs::hash::group_hash_axioms;

        let ghost signals = arena@;
        let ghost inc = self@.wires.dom();
        let mut stack: Vec<usize> = Vec::new();
        stack.push(root);
        let mut found: HashSet<usize> = HashSet::new();
        let mut plan = Plan {
            leaves: BTreeSet::new(),
            listed: Ghost(Seq::empty()),
            parents: HashMap::new(),
            count: 0,
            bad: None,
            seen: Ghost(Seq::empty()),
        };
        proof {
            lemma_needs_self(signals, inc, root);
            assert(stack@[0] == root);
            assert(plan.leaves@ =~= plan.listed@.to_set());
        }
        let n = arena.len();
        while stack.len() > 0
            invariant
                n == signals.len(),
                signals == arena@,
                inc == self@.wires.dom(),
                signals_ok(signals),
                root < signals.len(),
                plan.count <= signals.len(),
                search_inv(signals, inc, root, stack@, found@, plan),
            decreases signals.len() - plan.count, stack@.len(),
        {
            let ghost stack0 = stack@;
            let ghost found0 = found@;
            let ghost plan0 = plan;
            let id = stack.pop().unwrap();
            let ghost base = stack@;
            proof {
                assert(stack0 =~= stack@.push(id));
                assert(needs(signals, inc, root, stack0[stack0.len() - 1]));
                lemma_needs_bounds(signals, inc, root, id);
                assert forall|x: usize| stack0.contains(x) implies stack@.contains(x) || x
                    == id by {
                    let k = choose|k: int| 0 <= k < stack0.len() && stack0[k] == x;
                    if k < stack@.len() {
                        assert(stack@[k] == x);
                    }
                }
            }
            if !found.contains(&id) {
                proof {
                    let seen1 = plan.seen@.push(id);
                    assert(seen1.no_duplicates()) by {
                        assert forall|i: int, j: int|
                            0 <= i < seen1.len() && 0 <= j < seen1.len() && i != j implies seen1[i]
                            != seen1[j] by {
                            if i < plan.seen@.len() {
                                assert(plan.seen@.contains(plan.seen@[i]));
                            }
                            if j < plan.seen@.len() {
                                assert(plan.seen@.contains(plan.seen@[j]));
                            }
                        }
                    }
                    assert forall|i: int| 0 <= i < seen1.len() implies #[trigger] seen1[i]
                        < signals.len() by {
                        if i < plan.seen@.len() {
                            assert(plan.seen@.contains(plan.seen@[i]));
                            assert(found@.contains(plan.seen@[i]));
                            lemma_needs_bounds(signals, inc, root, seen1[i]);
                        }
                    }
                    lemma_distinct_below(seen1, n);
                }
                found.insert(id);
                plan.count = plan.count + 1;
                plan.seen = Ghost(plan.seen@.push(id));
                let is_bad_here = bad_node(arena, id).is_some();
                if is_bad_here {
                    plan.bad = match plan.bad {
                        Some(b) => if b < id {
                            Some(b)
                        } else {
                            Some(id)
                        },
                        None => Some(id),
                    };
                }
                let deps = self.open_deps(arena, id);
                if deps.len() == 0 {
                    add_member(&mut plan.leaves, id);
                    proof {
                        lemma_push_members(plan.listed@, id);
                    }
                    plan.listed = Ghost(plan.listed@.push(id));
                }
                let ghost parents0 = plan.parents@;
                if deps.len() >= 1 {
                    let d = deps[0];
                    add_parent(&mut plan.parents, d, id);
                    stack.push(d);
                }
                let ghost parents1 = plan.parents@;
                let ghost stack1 = stack@;
                if deps.len() >= 2 {
                    let d = deps[1];
                    add_parent(&mut plan.parents, d, id);
                    stack.push(d);
                }
                proof {
                    let seen1 = plan.seen@;
                    let leaves1 = plan.listed@;
                    let st = stack@;
                    assert(parents0 == plan0.parents@);
                    assert(st =~= if deps@.len() >= 2 {
                        base.push(deps@[0]).push(deps@[1])
                    } else if deps@.len() >= 1 {
                        base.push(deps@[0])
                    } else {
                        base
                    });
                    assert(deps@.len() <= 2) by {
                        if deps@.len() > 2 {
                            let a = deps@[0];
                            let b = deps@[1];
                            let c = deps@[2];
                            assert(deps@.contains(a) && deps@.contains(b) && deps@.contains(c));
                            assert(opens(signals, inc, id, a));
                            assert(opens(signals, inc, id, b));
                            assert(opens(signals, inc, id, c));
                        }
                    }
                    // what was to look at stays so, but for `id`
                    assert forall|x: usize| stack0.contains(x) && x != id implies st.contains(
                        x,
                    ) by {
                        let k = choose|k: int| 0 <= k < stack0.len() && stack0[k] == x;
                        assert(k < stack0.len() - 1);
                        assert(st[k] == x);
                    }
                    assert forall|d: usize| deps@.contains(d) implies st.contains(d) by {
                        let k = choose|k: int| 0 <= k < deps@.len() && deps@[k] == d;
                        if k == 0 {
                            assert(st[stack0.len() - 1] == d);
                        } else {
                            assert(deps@.len() >= 2);
                            assert(st[stack0.len() as int] == d);
                        }
                    }
                    assert forall|k: int| 0 <= k < st.len() implies needs(
                        signals,
                        inc,
                        root,
                        #[trigger] st[k],
                    ) by {
                        if k < stack0.len() - 1 {
                            assert(st[k] == stack0[k]);
                        } else {
                            let d = st[k];
                            assert(deps@.contains(d)) by {
                                if k == stack0.len() - 1 {
                                    assert(deps@[0] == d);
                                } else {
                                    assert(deps@[1] == d);
                                }
                            }
                            lemma_needs_step(signals, inc, root, id, d);
                        }
                    }
                    assert forall|x: usize| seen1.contains(x) <==> found@.contains(x) by {
                        lemma_push_members(plan0.seen@, id);
                        assert(seen1.to_set().contains(x) == plan0.seen@.to_set().insert(
                            id,
                        ).contains(x));
                        assert(plan0.seen@.to_set().contains(x) == plan0.seen@.contains(x));
                        assert(seen1.to_set().contains(x) == seen1.contains(x));
                    }
                    assert forall|p: usize, d: usize|
                        found@.contains(p) && #[trigger] opens(
                            signals,
                            inc,
                            p,
                            d,
                        ) implies found@.contains(d) || st.contains(d) by {
                        if p == id {
                            assert(deps@.contains(d));
                        } else {
                            assert(found0.contains(d) || stack0.contains(d));
                        }
                    }
                    assert(leaves1.no_duplicates()) by {
                        if deps@.len() == 0 {
                            assert(!plan0.listed@.contains(id));
                            assert forall|i: int, j: int|
                                0 <= i < leaves1.len() && 0 <= j < leaves1.len() && i
                                    != j implies leaves1[i] != leaves1[j] by {
                                if i < plan0.listed@.len() {
                                    assert(plan0.listed@.contains(plan0.listed@[i]));
                                }
                                if j < plan0.listed@.len() {
                                    assert(plan0.listed@.contains(plan0.listed@[j]));
                                }
                            }
                        }
                    }
                    assert forall|x: usize|
                        leaves1.contains(x) <==> found@.contains(x) && ready(signals, inc, x) by {
                        if deps@.len() == 0 {
                            lemma_push_members(plan0.listed@, id);
                            assert(leaves1.to_set().contains(x) == plan0.listed@.to_set().insert(
                                id,
                            ).contains(x));
                            assert(plan0.listed@.to_set().contains(x) == plan0.listed@.contains(x));
                            assert(leaves1.to_set().contains(x) == leaves1.contains(x));
                        }
                    }
                    assert forall|d: usize, p: usize|
                        #![trigger parents_at(plan.parents@, d).contains(p)]
                        #![trigger opens(signals, inc, p, d)]
                        parents_at(plan.parents@, d).contains(p) <==> found@.contains(p) && opens(
                            signals,
                            inc,
                            p,
                            d,
                        ) by {
                        let before = parents_at(parents0, d);
                        let after = parents_at(plan.parents@, d);
                        assert(before.contains(p) <==> found0.contains(p) && opens(
                            signals,
                            inc,
                            p,
                            d,
                        ));
                        if deps@.contains(d) {
                            assert(after == before.push(id)) by {
                                let k = choose|k: int| 0 <= k < deps@.len() && deps@[k] == d;
                                if k == 0 {
                                    if deps@.len() >= 2 {
                                        assert(deps@[1] != deps@[0]);
                                    }
                                } else {
                                    assert(deps@[1] != deps@[0]);
                                }
                            }
                            lemma_push_members(before, id);
                            assert(after.to_set().contains(p) == before.to_set().insert(id).contains(
                                p,
                            ));
                            assert(before.to_set().contains(p) == before.contains(p));
                            assert(after.to_set().contains(p) == after.contains(p));
                        } else {
                            assert(after == before) by {
                                if deps@.len() >= 1 {
                                    assert(deps@.contains(deps@[0]));
                                }
                                if deps@.len() >= 2 {
                                    assert(deps@.contains(deps@[1]));
                                }
                            }
                        }
                    }
                    assert forall|d: usize| #[trigger]
                        parents_at(plan.parents@, d).no_duplicates() by {
                        let before = parents_at(parents0, d);
                        let after = parents_at(plan.parents@, d);
                        assert(before.no_duplicates());
                        assert(!before.contains(id));
                        if deps@.contains(d) {
                            assert(after == before.push(id)) by {
                                let k = choose|k: int| 0 <= k < deps@.len() && deps@[k] == d;
                                if k == 0 {
                                    if deps@.len() >= 2 {
                                        assert(deps@[1] != deps@[0]);
                                    }
                                } else {
                                    assert(deps@[1] != deps@[0]);
                                }
                            }
                            assert forall|i: int, j: int|
                                0 <= i < after.len() && 0 <= j < after.len() && i
                                    != j implies after[i] != after[j] by {
                                if i < before.len() {
                                    assert(before.contains(before[i]));
                                }
                                if j < before.len() {
                                    assert(before.contains(before[j]));
                                }
                            }
                        } else {
                            assert(after == before) by {
                                if deps@.len() >= 1 {
                                    assert(deps@.contains(deps@[0]));
                                }
                                if deps@.len() >= 2 {
                                    assert(deps@.contains(deps@[1]));
                                }
                            }
                        }
                    }
                    assert(is_least_bad(signals, found@, plan.bad));
                    assert(found@.contains(root) || st.contains(root));
                    assert(search_inv(signals, inc, root, stack@, found@, plan));
                }
            } else {
                proof {
                    assert forall|p: usize, d: usize|
                        found@.contains(p) && #[trigger] opens(
                            signals,
                            inc,
                            p,
                            d,
                        ) implies found@.contains(d) || stack@.contains(d) by {
                        assert(found0.contains(d) || stack0.contains(d));
                    }
                    assert forall|k: int| 0 <= k < stack@.len() implies needs(
                        signals,
                        inc,
                        root,
                        #[trigger] stack@[k],
                    ) by {
                        assert(stack@[k] == stack0[k]);
                    }
                    assert(search_inv(signals, inc, root, stack@, found@, plan));
                }
            }
        }
        proof {
            assert(stack@ =~= Seq::<usize>::empty());
            lemma_search_done(signals, inc, root, found@, plan);
        }
        plan
    }
}

/// A signal whose operands all have wires at the start is in the first
/// layer.
proof fn lemma_layer_zero(signals: Seq<CircuitSignal>, included: Set<usize>, p: usize)
    requires
        p < signals.len(),
        ready(signals, included, p),
    ensures
        layer(signals, included, p) == 0,
{
}

/// A signal whose operands all have wires now, all of them from a layer up
/// to `k` and one of them from layer `k`, is in layer `k + 1`.
proof fn lemma_layer_next(
    signals: Seq<CircuitSignal>,
    included: Set<usize>,
    now: Set<usize>,
    p: usize,
    d: usize,
    k: nat,
)
    requires
        signals_ok(signals),
        p < signals.len(),
        ready(signals, now, p),
        opens(signals, included, p, d),
        layer(signals, included, d) == k,
        forall|x: usize|
            now.contains(x) && !included.contains(x) ==> #[trigger] layer(signals, included, x)
                <= k,
    ensures
        layer(signals, included, p) == k + 1,
{
    assert(signal_ok(signals, p as int));
    match signals[p as int].data {
        CircuitSignalData::Input => {},
        CircuitSignalData::UnaryOp(_, a) => {
            lemma_operand_layer(signals, included, now, a, k);
        },
        CircuitSignalData::BinaryOp(_, l, r) => {
            lemma_operand_layer(signals, included, now, l, k);
            lemma_operand_layer(signals, included, now, r, k);
        },
    }
}

/// An operand with a wire now is a plain value, had its wire at the start,
/// or is a signal of a layer up to `k`.
proof fn lemma_operand_layer(
    signals: Seq<CircuitSignal>,
    included: Set<usize>,
    now: Set<usize>,
    v: Val,
    k: nat,
)
    requires
        !is_open(now, v),
        forall|x: usize|
            now.contains(x) && !included.contains(x) ==> #[trigger] layer(signals, included, x)
                <= k,
    ensures
        v is Signal && !included.contains(v->Signal_0.id) ==> layer(
            signals,
            included,
            v->Signal_0.id,
        ) <= k,
{
}

/// A list without repeats whose entries all stand in another list without
/// repeats is not longer than that list.
proof fn lemma_distinct_within(a: Seq<usize>, b: Seq<usize>)
    requires
        a.no_duplicates(),
        b.no_duplicates(),
        forall|i: int| 0 <= i < a.len() ==> b.contains(#[trigger] a[i]),
    ensures
        a.len() <= b.len(),
{
    a.unique_seq_to_set();
    b.unique_seq_to_set();
    assert(a.to_set().subset_of(b.to_set())) by {
        assert forall|x: usize| a.to_set().contains(x) implies b.to_set().contains(x) by {
            let i = choose|i: int| 0 <= i < a.len() && a[i] == x;
            assert(b.contains(a[i]));
        }
    }
    vstd::set_lib::lemma_len_subset(a.to_set(), b.to_set());
}

/// What holds of the signals that got their gates so far, in the rounds up
/// to round `k`.
spec fn emitted_ok(
    signals: Seq<CircuitSignal>,
    st0: BuilderState,
    root: usize,
    st: BuilderState,
    emitted: Seq<usize>,
    k: nat,
) -> bool {
    let inc0 = st0.wires.dom();
    &&& state_ok(st, signals)
    &&& st == emit_all(st0, signals, emitted)
    &&& st.order == st0.order + emitted
    &&& st.seeded == st0.seeded
    &&& grows(st0, st)
    &&& emitted.no_duplicates()
    &&& forall|x: usize| #[trigger]
        emitted.contains(x) ==> needs(signals, inc0, root, x) && layer(signals, inc0, x) <= k
    &&& forall|x: usize| #[trigger]
        st.wires.contains_key(x) <==> inc0.contains(x) || emitted.contains(x)
    &&& forall|i: int, j: int|
        0 <= i < j < emitted.len() ==> comes_before(
            signals,
            inc0,
            #[trigger] emitted[i],
            #[trigger] emitted[j],
        )
}

/// What holds of the needed signals that have no gate yet: those whose
/// operands all have wires are exactly those that wait in this round, those
/// that wait for the next, and those among `extra` that are found ready.
spec fn waiting_ok(
    signals: Seq<CircuitSignal>,
    st0: BuilderState,
    root: usize,
    st: BuilderState,
    emitted: Seq<usize>,
    now: Seq<usize>,
    next: Seq<usize>,
    extra: Seq<usize>,
) -> bool {
    let inc0 = st0.wires.dom();
    &&& forall|p: usize| #[trigger]
        needs(signals, inc0, root, p) && !emitted.contains(p) ==> (ready(
            signals,
            st.wires.dom(),
            p,
        ) <==> now.contains(p) || next.contains(p) || (extra.contains(p) && ready(
            signals,
            st.wires.dom(),
            p,
        )))
    &&& forall|i: int|
        0 <= i < extra.len() ==> {
            let q = #[trigger] extra[i];
            !now.contains(q) && !next.contains(q) && needs(signals, inc0, root, q)
                && !emitted.contains(q)
        }
}

/// Once no needed signal without a gate has all its operands on wires,
/// every needed signal has its gate.
proof fn lemma_all_emitted(
    signals: Seq<CircuitSignal>,
    st0: BuilderState,
    root: usize,
    st: BuilderState,
    emitted: Seq<usize>,
    p: usize,
)
    requires
        signals_ok(signals),
        forall|x: usize| #[trigger]
            st.wires.contains_key(x) <==> st0.wires.dom().contains(x) || emitted.contains(x),
        forall|q: usize| #[trigger]
            needs(signals, st0.wires.dom(), root, q) && !emitted.contains(q) ==> !ready(
                signals,
                st.wires.dom(),
                q,
            ),
        needs(signals, st0.wires.dom(), root, p),
    ensures
        emitted.contains(p),
    decreases p,
{
    let inc0 = st0.wires.dom();
    if !emitted.contains(p) {
        assert(!ready(signals, st.wires.dom(), p));
        lemma_needs_bounds(signals, inc0, root, p);
        assert(signal_ok(signals, p as int));
        match signals[p as int].data {
            CircuitSignalData::Input => {},
            CircuitSignalData::UnaryOp(_, a) => {
                let d = a->Signal_0.id;
                assert(!st.wires.contains_key(d));
                assert(opens(signals, inc0, p, d));
                lemma_needs_step(signals, inc0, root, p, d);
                lemma_all_emitted(signals, st0, root, st, emitted, d);
            },
            CircuitSignalData::BinaryOp(_, l, r) => {
                if is_open(st.wires.dom(), l) {
                    let d = l->Signal_0.id;
                    assert(!st.wires.contains_key(d));
                    assert(opens(signals, inc0, p, d));
                    lemma_needs_step(signals, inc0, root, p, d);
                    lemma_all_emitted(signals, st0, root, st, emitted, d);
                } else {
                    let d = r->Signal_0.id;
                    assert(!st.wires.contains_key(d));
                    assert(opens(signals, inc0, p, d));
                    lemma_needs_step(signals, inc0, root, p, d);
                    lemma_all_emitted(signals, st0, root, st, emitted, d);
                }
            },
        }
    }
}

/// The entries of a list from position `i` on are the entry at `i` and
/// those from `i + 1` on.
proof fn lemma_skip_contains(s: Seq<usize>, i: int, x: usize)
    requires
        0 <= i < s.len(),
    ensures
        s.skip(i).contains(x) <==> (x == s[i] || s.skip(i + 1).contains(x)),
{
    let a = s.skip(i);
    let b = s.skip(i + 1);
    if a.contains(x) {
        let k = choose|k: int| 0 <= k < a.len() && a[k] == x;
        if k > 0 {
            assert(b[k - 1] == x);
        }
    }
    if b.contains(x) {
        let k = choose|k: int| 0 <= k < b.len() && b[k] == x;
        assert(a[k + 1] == x);
    }
    if x == s[i] {
        assert(a[0] == x);
    }
}

/// A signal with a gate has all its operands on wires.
proof fn lemma_gate_operands(st: BuilderState, signals: Seq<CircuitSignal>, q: usize, d: usize)
    requires
        state_ok(st, signals),
        st.order.contains(q),
        q < signals.len(),
        match signals[q as int].data {
            CircuitSignalData::Input => false,
            CircuitSignalData::UnaryOp(_, a) => a is Signal && a->Signal_0.id == d,
            CircuitSignalData::BinaryOp(_, l, r) => (l is Signal && l->Signal_0.id == d) || (r
                is Signal && r->Signal_0.id == d),
        },
    ensures
        st.wires.contains_key(d),
{
    let g = choose|g: int| 0 <= g < st.order.len() && st.order[g] == q;
    assert(gate_ok(st, signals, g));
}

/// What holds after the signal `d`, first of those that wait in this round,
/// got its gate.
proof fn lemma_after_emit(
    signals: Seq<CircuitSignal>,
    st0: BuilderState,
    root: usize,
    st: BuilderState,
    emitted: Seq<usize>,
    k: nat,
    leaves: Seq<usize>,
    i: int,
    next: Seq<usize>,
    plan: Plan,
)
    requires
        signals_ok(signals),
        state_ok(st0, signals),
        plan_ok(signals, st0.wires.dom(), root, plan),
        plan.bad is None,
        emitted_ok(signals, st0, root, st, emitted, k),
        waiting_ok(signals, st0, root, st, emitted, leaves.skip(i), next, Seq::empty()),
        0 <= i < leaves.len(),
        is_rising(leaves),
        forall|m: int|
            0 <= m < leaves.len() ==> layer(signals, st0.wires.dom(), #[trigger] leaves[m]) == k
                && needs(signals, st0.wires.dom(), root, leaves[m]),
        forall|m: int| i <= m < leaves.len() ==> !emitted.contains(#[trigger] leaves[m]),
        forall|e: usize| #[trigger]
            emitted.contains(e) ==> layer(signals, st0.wires.dom(), e) < k || leaves.take(
                i,
            ).contains(e),
        st.wire_count + 3 <= usize::MAX,
    ensures
        can_emit(st, signals, leaves[i]),
        ({
            let d = leaves[i];
            let st1 = emit(st, signals, d);
            let emitted1 = emitted.push(d);
            &&& emitted_ok(signals, st0, root, st1, emitted1, k)
            &&& waiting_ok(
                signals,
                st0,
                root,
                st1,
                emitted1,
                leaves.skip(i + 1),
                next,
                parents_at(plan.parents@, d),
            )
            &&& forall|e: usize| #[trigger]
                emitted1.contains(e) ==> layer(signals, st0.wires.dom(), e) < k || leaves.take(
                    i + 1,
                ).contains(e)
            &&& forall|m: int| i + 1 <= m < leaves.len() ==> !emitted1.contains(#[trigger] leaves[m])
        }),
{
    let inc0 = st0.wires.dom();
    let d = leaves[i];
    let now = leaves.skip(i);
    let now1 = leaves.skip(i + 1);
    let extra = parents_at(plan.parents@, d);
    assert(needs(signals, inc0, root, d));
    lemma_needs_bounds(signals, inc0, root, d);
    assert(!emitted.contains(d));
    assert(now[0] == d);
    assert(now.contains(d));
    assert(ready(signals, st.wires.dom(), d));
    assert(can_emit(st, signals, d)) by {
        assert(!st.wires.contains_key(d));
        assert(!is_bad(signals, d));
        let ops = operands(signals[d as int].data);
        assert forall|m: int| 0 <= m < ops.len() implies !is_open(
            st.wires.dom(),
            #[trigger] ops[m],
        ) by {}
    }
    lemma_emit(st, signals, d);
    let st1 = emit(st, signals, d);
    lemma_grows_trans(st0, st, st1);
    let emitted1 = emitted.push(d);
    assert(emitted1.drop_last() =~= emitted);
    assert(st1.order =~= st0.order + emitted1);
    assert forall|x: usize| emitted1.contains(x) <==> emitted.contains(x) || x == d by {
        lemma_push_members(emitted, d);
        assert(emitted1.to_set().contains(x) == emitted.to_set().insert(d).contains(x));
        assert(emitted.to_set().contains(x) == emitted.contains(x));
        assert(emitted1.to_set().contains(x) == emitted1.contains(x));
    }
    assert(emitted1.no_duplicates()) by {
        assert forall|a: int, b: int|
            0 <= a < emitted1.len() && 0 <= b < emitted1.len() && a != b implies emitted1[a]
            != emitted1[b] by {
            if a < emitted.len() {
                assert(emitted.contains(emitted[a]));
            }
            if b < emitted.len() {
                assert(emitted.contains(emitted[b]));
            }
        }
    }
    assert forall|x: usize| #[trigger]
        st1.wires.contains_key(x) <==> inc0.contains(x) || emitted1.contains(x) by {
        assert(st.wires.contains_key(x) <==> inc0.contains(x) || emitted.contains(x));
    }
    assert forall|a: int, b: int| 0 <= a < b < emitted1.len() implies comes_before(
        signals,
        inc0,
        #[trigger] emitted1[a],
        #[trigger] emitted1[b],
    ) by {
        if b == emitted.len() {
            let e = emitted[a];
            assert(emitted.contains(e));
            if leaves.take(i).contains(e) {
                let m = choose|m: int| 0 <= m < leaves.take(i).len() && leaves.take(i)[m] == e;
                assert(leaves[m] == e);
            }
        }
    }
    assert forall|e: usize| #[trigger] emitted1.contains(e) implies layer(signals, inc0, e) < k
        || leaves.take(i + 1).contains(e) by {
        if e == d {
            assert(leaves.take(i + 1)[i] == d);
        } else {
            assert(emitted.contains(e));
            if leaves.take(i).contains(e) {
                let m = choose|m: int| 0 <= m < leaves.take(i).len() && leaves.take(i)[m] == e;
                assert(leaves.take(i + 1)[m] == e);
            }
        }
    }
    assert forall|m: int| i + 1 <= m < leaves.len() implies !emitted1.contains(
        #[trigger] leaves[m],
    ) by {
        assert(leaves[m] != leaves[i]);
    }
    // the needed signals that have no gate yet
    assert forall|p: usize| #[trigger]
        needs(signals, inc0, root, p) && !emitted1.contains(p) implies (ready(
        signals,
        st1.wires.dom(),
        p,
    ) <==> now1.contains(p) || next.contains(p) || (extra.contains(p) && ready(
        signals,
        st1.wires.dom(),
        p,
    ))) by {
        lemma_skip_contains(leaves, i, p);
        lemma_needs_bounds(signals, inc0, root, p);
        assert(signal_ok(signals, p as int));
        assert(!emitted.contains(p));
        if ready(signals, st.wires.dom(), p) {
            assert(ready(signals, st1.wires.dom(), p));
        } else if ready(signals, st1.wires.dom(), p) {
            assert(opens(signals, inc0, p, d));
        }
    }
    assert forall|m: int| 0 <= m < extra.len() implies {
        let q = #[trigger] extra[m];
        !now1.contains(q) && !next.contains(q) && needs(signals, inc0, root, q)
            && !emitted1.contains(q)
    } by {
        let q = extra[m];
        assert(extra.contains(q));
        assert(needs(signals, inc0, root, q) && opens(signals, inc0, q, d));
        assert(signal_ok(signals, q as int));
        if emitted.contains(q) {
            let a = choose|a: int| 0 <= a < emitted.len() && emitted[a] == q;
            assert(st.order[st0.order.len() + a] == q);
            assert(st.order.contains(q));
            lemma_gate_operands(st, signals, q, d);
        }
        assert(!ready(signals, st.wires.dom(), q));
        lemma_skip_contains(leaves, i, q);
    }
}

/// What holds after the parent `extra[0]` of the signal that just got its
/// gate was looked at: it waits for the next round if all its operands have
/// wires now.
proof fn lemma_after_parent(
    signals: Seq<CircuitSignal>,
    st0: BuilderState,
    root: usize,
    st: BuilderState,
    emitted: Seq<usize>,
    now: Seq<usize>,
    next: Seq<usize>,
    extra: Seq<usize>,
)
    requires
        waiting_ok(signals, st0, root, st, emitted, now, next, extra),
        extra.len() > 0,
        extra.no_duplicates(),
        next.no_duplicates(),
    ensures
        ({
            let p = extra[0];
            let next1 = if ready(signals, st.wires.dom(), p) {
                next.push(p)
            } else {
                next
            };
            &&& waiting_ok(signals, st0, root, st, emitted, now, next1, extra.skip(1))
            &&& next1.no_duplicates()
            &&& forall|x: usize|
                next1.contains(x) <==> next.contains(x) || (x == p && ready(
                    signals,
                    st.wires.dom(),
                    p,
                ))
        }),
{
    let inc0 = st0.wires.dom();
    let p = extra[0];
    let rest = extra.skip(1);
    let is_ready = ready(signals, st.wires.dom(), p);
    let next1 = if is_ready {
        next.push(p)
    } else {
        next
    };
    assert(!next.contains(p));
    assert forall|x: usize| next1.contains(x) <==> next.contains(x) || (x == p && is_ready) by {
        if is_ready {
            lemma_push_members(next, p);
            assert(next1.to_set().contains(x) == next.to_set().insert(p).contains(x));
            assert(next.to_set().contains(x) == next.contains(x));
            assert(next1.to_set().contains(x) == next1.contains(x));
        }
    }
    assert(next1.no_duplicates()) by {
        if is_ready {
            assert forall|a: int, b: int|
                0 <= a < next1.len() && 0 <= b < next1.len() && a != b implies next1[a]
                != next1[b] by {
                if a < next.len() {
                    assert(next.contains(next[a]));
                }
                if b < next.len() {
                    assert(next.contains(next[b]));
                }
            }
        }
    }
    assert forall|x: usize| extra.contains(x) <==> x == p || rest.contains(x) by {
        lemma_skip_contains(extra, 0, x);
        assert(extra.skip(0) =~= extra);
    }
    assert(!rest.contains(p)) by {
        if rest.contains(p) {
            let m = choose|m: int| 0 <= m < rest.len() && rest[m] == p;
            assert(extra[m + 1] == p);
        }
    }
    assert forall|m: int| 0 <= m < rest.len() implies {
        let q = #[trigger] rest[m];
        !now.contains(q) && !next1.contains(q) && needs(signals, inc0, root, q)
            && !emitted.contains(q)
    } by {
        assert(rest[m] == extra[m + 1]);
        assert(rest.contains(rest[m]));
    }
}

impl CircuitBuilder {
    /// Gives the signals that `root` needs their gates, layer by layer.
    fn emit_rounds(&mut self, arena: &SignalArena, root: usize, plan: &Plan) -> (done: Ghost<
        Seq<usize>,
    >)
        requires
            old(self).wf(arena@),
            arena.wf(),
            root < arena@.len(),
            !old(self)@.wires.contains_key(root),
            plan_ok(arena@, old(self)@.wires.dom(), root, *plan),
            plan.bad is None,
            old(self).wire_count + 3 * plan.count <= usize::MAX,
        ensures
            final(self).wf(arena@),
            final(self)@ == emit_all(old(self)@, arena@, done@),
            final(self)@.order == old(self)@.order + done@,
            is_layered_order(arena@, old(self)@.wires.dom(), root, done@),
            final(self)@.seeded == old(self)@.seeded,
            grows(old(self)@, final(self)@),
            forall|x: usize| #[trigger]
                final(self)@.wires.contains_key(x) <==> old(self)@.wires.contains_key(x)
                    || done@.contains(x),
    {
        broadcast use vstd::std_specs::hash::group_hash_axioms;

        let ghost signals = arena@;
        let ghost st0 = self@;
        let ghost inc0 = st0.wires.dom();
        let ghost mut emitted: Seq<usize> = Seq::empty();
        let ghost mut k: nat = 0;
        let mut leaves = in_order(&plan.leaves);
        proof {
            assert forall|x: usize| leaves@.contains(x) <==> plan.listed@.contains(x) by {
                assert(leaves@.to_set().contains(x) == plan.listed@.to_set().contains(x));
            }
            assert forall|m: int| 0 <= m < leaves@.len() implies layer(
                signals,
                inc0,
                #[trigger] leaves@[m],
            ) == 0 && needs(signals, inc0, root, leaves@[m]) by {
                assert(leaves@.contains(leaves@[m]));
                lemma_needs_bounds(signals, inc0, root, leaves@[m]);
                lemma_layer_zero(signals, inc0, leaves@[m]);
            }
            assert(st0.order + emitted =~= st0.order);
        }
        while leaves.len() > 0
            invariant
                signals == arena@,
                signals_ok(signals),
                inc0 == st0.wires.dom(),
                state_ok(st0, signals),
                plan_ok(signals, inc0, root, *plan),
                plan.bad is None,
                self.wf(signals),
                emitted_ok(signals, st0, root, self@, emitted, k),
                forall|e: usize| #[trigger] emitted.contains(e) ==> layer(signals, inc0, e) < k,
                waiting_ok(
                    signals,
                    st0,
                    root,
                    self@,
                    emitted,
                    leaves@,
                    Seq::empty(),
                    Seq::empty(),
                ),
                is_rising(leaves@),
                forall|m: int|
                    0 <= m < leaves@.len() ==> layer(signals, inc0, #[trigger] leaves@[m]) == k
                        && needs(signals, inc0, root, leaves@[m]),
                emitted.len() <= plan.count,
                self.wire_count + 3 * (plan.count - emitted.len()) <= usize::MAX,
            decreases plan.count - emitted.len(),
        {
            let ghost base = emitted;
            let mut next: BTreeSet<usize> = BTreeSet::new();
            let ghost mut waiting: Seq<usize> = Seq::empty();
            assert(next@ =~= waiting.to_set());
            let mut i: usize = 0;
            proof {
                assert(leaves@.skip(0) =~= leaves@);
                assert(leaves@.take(0) =~= Seq::<usize>::empty());
                assert forall|m: int| 0 <= m < leaves@.len() implies !emitted.contains(
                    #[trigger] leaves@[m],
                ) by {
                    if emitted.contains(leaves@[m]) {
                        assert(layer(signals, inc0, leaves@[m]) < k);
                    }
                }
            }
            while i < leaves.len()
                invariant
                    i <= leaves.len(),
                    signals == arena@,
                    signals_ok(signals),
                    inc0 == st0.wires.dom(),
                    state_ok(st0, signals),
                    plan_ok(signals, inc0, root, *plan),
                    plan.bad is None,
                    self.wf(signals),
                    emitted_ok(signals, st0, root, self@, emitted, k),
                    waiting_ok(
                        signals,
                        st0,
                        root,
                        self@,
                        emitted,
                        leaves@.skip(i as int),
                        waiting,
                        Seq::empty(),
                    ),
                    is_rising(leaves@),
                    forall|m: int|
                        0 <= m < leaves@.len() ==> layer(signals, inc0, #[trigger] leaves@[m]) == k
                            && needs(signals, inc0, root, leaves@[m]),
                    forall|m: int| i <= m < leaves@.len() ==> !emitted.contains(#[trigger] leaves@[m]),
                    forall|e: usize| #[trigger]
                        emitted.contains(e) ==> layer(signals, inc0, e) < k || leaves@.take(
                            i as int,
                        ).contains(e),
                    waiting.no_duplicates(),
                    next@ == waiting.to_set(),
                    forall|m: int|
                        0 <= m < waiting.len() ==> layer(signals, inc0, #[trigger] waiting[m]) == k + 1
                            && needs(signals, inc0, root, waiting[m]),
                    emitted.len() == base.len() + i,
                    emitted.len() <= plan.count,
                    self.wire_count + 3 * (plan.count - emitted.len()) <= usize::MAX,
                decreases leaves.len() - i,
            {
                let d = leaves[i];
                proof {
                    let emitted1 = emitted.push(d);
                    assert(emitted1.no_duplicates()) by {
                        assert forall|a: int, b: int|
                            0 <= a < emitted1.len() && 0 <= b < emitted1.len() && a
                                != b implies emitted1[a] != emitted1[b] by {
                            if a < emitted.len() {
                                assert(emitted.contains(emitted[a]));
                            }
                            if b < emitted.len() {
                                assert(emitted.contains(emitted[b]));
                            }
                        }
                    }
                    assert forall|a: int| 0 <= a < emitted1.len() implies plan.seen@.contains(
                        #[trigger] emitted1[a],
                    ) by {
                        if a < emitted.len() {
                            assert(emitted.contains(emitted[a]));
                        }
                    }
                    lemma_distinct_within(emitted1, plan.seen@);
                    lemma_after_emit(
                        signals,
                        st0,
                        root,
                        self@,
                        emitted,
                        k,
                        leaves@,
                        i as int,
                        waiting,
                        *plan,
                    );
                }
                self.emit_node(arena, d);
                proof {
                    emitted = emitted.push(d);
                }
                let ghost extra = parents_at(plan.parents@, d);
                match plan.parents.get(&d) {
                    None => {
                        assert(extra =~= Seq::<usize>::empty());
                    },
                    Some(list) => {
                        assert(list@ == extra);
                        let mut j: usize = 0;
                        assert(list@.skip(0) =~= list@);
                        while j < list.len()
                            invariant
                                j <= list.len(),
                                i < leaves.len(),
                                d == leaves@[i as int],
                                signals == arena@,
                                signals_ok(signals),
                                inc0 == st0.wires.dom(),
                                emitted_ok(signals, st0, root, self@, emitted, k),
                                emitted.contains(d),
                                layer(signals, inc0, d) == k,
                                list@ == extra,
                                extra.no_duplicates(),
                                forall|q: usize|
                                    extra.contains(q) ==> #[trigger] opens(signals, inc0, q, d),
                                waiting_ok(
                                    signals,
                                    st0,
                                    root,
                                    self@,
                                    emitted,
                                    leaves@.skip(i + 1),
                                    waiting,
                                    list@.skip(j as int),
                                ),
                                waiting.no_duplicates(),
                                next@ == waiting.to_set(),
                                forall|m: int|
                                    0 <= m < waiting.len() ==> layer(
                                        signals,
                                        inc0,
                                        #[trigger] waiting[m],
                                    ) == k + 1 && needs(signals, inc0, root, waiting[m]),
                            decreases list.len() - j,
                        {
                            let p = list[j];
                            let ghost rest = list@.skip(j as int);
                            proof {
                                assert(rest[0] == p);
                                assert(rest.no_duplicates()) by {
                                    assert forall|a: int, b: int|
                                        0 <= a < rest.len() && 0 <= b < rest.len() && a
                                            != b implies rest[a] != rest[b] by {
                                        assert(rest[a] == list@[a + j]);
                                        assert(rest[b] == list@[b + j]);
                                    }
                                }
                                lemma_after_parent(
                                    signals,
                                    st0,
                                    root,
                                    self@,
                                    emitted,
                                    leaves@.skip(i + 1),
                                    waiting,
                                    rest,
                                );
                                assert(rest.skip(1) =~= list@.skip(j + 1));
                                assert(needs(signals, inc0, root, p));
                                lemma_needs_bounds(signals, inc0, root, p);
                                assert(extra.contains(p)) by {
                                    assert(list@[j as int] == p);
                                }
                                assert(opens(signals, inc0, p, d));
                            }
                            let deps = self.open_deps(arena, p);
                            if deps.len() == 0 {
                                proof {
                                    assert forall|x: usize|
                                        self@.wires.dom().contains(x) && !inc0.contains(
                                            x,
                                        ) implies #[trigger] layer(signals, inc0, x) <= k by {
                                        assert(self@.wires.contains_key(x));
                                        assert(emitted.contains(x));
                                    }
                                    lemma_layer_next(signals, inc0, self@.wires.dom(), p, d, k);
                                }
                                add_member(&mut next, p);
                                proof {
                                    lemma_push_members(waiting, p);
                                    waiting = waiting.push(p);
                                }
                            }
                            j += 1;
                        }
                        assert(list@.skip(j as int) =~= Seq::<usize>::empty());
                    },
                }
                i += 1;
            }
            proof {
                assert(leaves@.skip(i as int) =~= Seq::<usize>::empty());
                assert(leaves@.take(i as int) =~= leaves@);
            }
            let ghost old_leaves = leaves@;
            leaves = in_order(&next);
            proof {
                assert forall|x: usize| leaves@.contains(x) <==> waiting.contains(x) by {
                    assert(leaves@.to_set().contains(x) == waiting.to_set().contains(x));
                }
                assert forall|e: usize| #[trigger] emitted.contains(e) implies layer(
                    signals,
                    inc0,
                    e,
                ) < k + 1 by {}
                assert forall|m: int| 0 <= m < leaves@.len() implies layer(
                    signals,
                    inc0,
                    #[trigger] leaves@[m],
                ) == k + 1 && needs(signals, inc0, root, leaves@[m]) by {
                    let x = leaves@[m];
                    assert(leaves@.contains(x));
                    assert(waiting.contains(x));
                    let a = choose|a: int| 0 <= a < waiting.len() && waiting[a] == x;
                    assert(layer(signals, inc0, waiting[a]) == k + 1);
                }
                k = k + 1;
            }
        }
        proof {
            assert(leaves@ =~= Seq::<usize>::empty());
            assert forall|q: usize| #[trigger]
                needs(signals, inc0, root, q) && !emitted.contains(q) implies !ready(
                signals,
                self@.wires.dom(),
                q,
            ) by {}
            assert forall|x: usize| emitted.contains(x) <==> needs(signals, inc0, root, x) by {
                if needs(signals, inc0, root, x) {
                    lemma_all_emitted(signals, st0, root, self@, emitted, x);
                }
            }
        }
        Ghost(emitted)
    }
}

/// The signals that `root` needs.
pub open spec fn needed(signals: Seq<CircuitSignal>, included: Set<usize>, root: usize) -> Set<
    usize,
> {
    Set::new(|x: usize| needs(signals, included, root, x))
}

/// The signals that `root` needs, by rising layer and, within a layer, by
/// rising identifier.
pub open spec fn layered_order(
    signals: Seq<CircuitSignal>,
    included: Set<usize>,
    root: usize,
) -> Seq<usize> {
    choose|ids: Seq<usize>| is_layered_order(signals, included, root, ids)
}

/// The least of the signals in `found` that cannot get a gate.
pub open spec fn least_bad(signals: Seq<CircuitSignal>, found: Set<usize>) -> usize {
    choose|b: usize| is_least_bad(signals, found, Some(b))
}

/// What including the signal `id` with all that it needs comes to: the
/// state afterwards, and the wire of the signal or why it has none.
///
/// A signal with a wire keeps it. Else, if a signal that it needs cannot get a
/// gate, nothing changes and the error names the least such signal; if there
/// may not be room for three wires for each needed signal, nothing changes
/// either. Else the needed signals get their gates in layered order.
pub open spec fn spec_include_signal(st: BuilderState, signals: Seq<CircuitSignal>, id: usize) -> (
    BuilderState,
    Result<usize, BuilderError>,
) {
    if id >= signals.len() {
        (st, Err(BuilderError::UnknownSignal(id)))
    } else if st.wires.contains_key(id) {
        (st, Ok(st.wires[id]))
    } else {
        let all = needed(signals, st.wires.dom(), id);
        if exists|b: usize| all.contains(b) && is_bad(signals, b) {
            (st, Err(bad_error(signals, least_bad(signals, all))))
        } else if st.wire_count + 3 * all.len() > usize::MAX {
            (st, Err(BuilderError::TooManyWires))
        } else {
            let after = emit_all(st, signals, layered_order(signals, st.wires.dom(), id));
            (after, Ok(after.wires[id]))
        }
    }
}

/// What including a plain value comes to: a boolean or a number gets the
/// wire of its constant, which is the next wire if it has none.
pub open spec fn spec_include_plain(st: BuilderState, v: Val) -> (
    BuilderState,
    Result<usize, BuilderError>,
) {
    match canon(v) {
        None => (
            st,
            Err(
                if v is Number {
                    BuilderError::ConstantOutOfRange
                } else {
                    BuilderError::UnsupportedValue
                },
            ),
        ),
        Some(c) => if st.constants.contains_key(c) {
            (st, Ok(st.constants[c]))
        } else if st.wire_count >= usize::MAX {
            (st, Err(BuilderError::TooManyWires))
        } else {
            (with_constant(st, c), Ok(st.wire_count as usize))
        },
    }
}

/// What including a value comes to.
pub open spec fn spec_include_val(st: BuilderState, signals: Seq<CircuitSignal>, v: Val) -> (
    BuilderState,
    Result<usize, BuilderError>,
) {
    match v {
        Val::Signal(h) => spec_include_signal(st, signals, h.id),
        _ => spec_include_plain(st, v),
    }
}

/// Two lists that both hold the needed signals in layered order are the
/// same.
pub proof fn lemma_layered_order_unique(
    signals: Seq<CircuitSignal>,
    included: Set<usize>,
    root: usize,
    a: Seq<usize>,
    b: Seq<usize>,
)
    requires
        is_layered_order(signals, included, root, a),
        is_layered_order(signals, included, root, b),
    ensures
        a == b,
{
    lemma_same_order(signals, included, a, b);
}

/// Two lists without repeats that hold the same signals, both in layered
/// order, are the same.
proof fn lemma_same_order(
    signals: Seq<CircuitSignal>,
    included: Set<usize>,
    a: Seq<usize>,
    b: Seq<usize>,
)
    requires
        a.no_duplicates(),
        b.no_duplicates(),
        forall|x: usize| a.contains(x) <==> b.contains(x),
        forall|i: int, j: int|
            0 <= i < j < a.len() ==> comes_before(
                signals,
                included,
                #[trigger] a[i],
                #[trigger] a[j],
            ),
        forall|i: int, j: int|
            0 <= i < j < b.len() ==> comes_before(
                signals,
                included,
                #[trigger] b[i],
                #[trigger] b[j],
            ),
    ensures
        a == b,
    decreases a.len(),
{
    if a.len() == 0 {
        if b.len() > 0 {
            assert(b.contains(b[0]));
        }
        assert(a =~= b);
    } else {
        assert(a.contains(a[0]));
        assert(b.contains(a[0]));
        let j = choose|j: int| 0 <= j < b.len() && b[j] == a[0];
        if j > 0 {
            assert(b.contains(b[0]));
            let i = choose|i: int| 0 <= i < a.len() && a[i] == b[0];
            assert(i > 0);
            assert(comes_before(signals, included, a[0], a[i]));
            assert(comes_before(signals, included, b[0], b[j]));
        }
        assert(b[0] == a[0]);
        let a1 = a.skip(1);
        let b1 = b.skip(1);
        assert forall|x: usize| a1.contains(x) <==> b1.contains(x) by {
            lemma_skip_contains(a, 0, x);
            lemma_skip_contains(b, 0, x);
            assert(a.skip(0) =~= a);
            assert(b.skip(0) =~= b);
            if a1.contains(x) {
                let k = choose|k: int| 0 <= k < a1.len() && a1[k] == x;
                assert(a[k + 1] == x);
                assert(x != a[0]);
            }
            if b1.contains(x) {
                let k = choose|k: int| 0 <= k < b1.len() && b1[k] == x;
                assert(b[k + 1] == x);
                assert(x != b[0]);
            }
        }
        assert forall|i: int, j: int| 0 <= i < j < a1.len() implies comes_before(
            signals,
            included,
            #[trigger] a1[i],
            #[trigger] a1[j],
        ) by {
            assert(comes_before(signals, included, a[i + 1], a[j + 1]));
        }
        assert forall|i: int, j: int| 0 <= i < j < b1.len() implies comes_before(
            signals,
            included,
            #[trigger] b1[i],
            #[trigger] b1[j],
        ) by {
            assert(comes_before(signals, included, b[i + 1], b[j + 1]));
        }
        lemma_same_order(signals, included, a1, b1);
        assert(a =~= seq![a[0]] + a1);
        assert(b =~= seq![b[0]] + b1);
    }
}

/// The number of needed signals is the length of a list that holds each of
/// them once.
proof fn lemma_needed_count(
    signals: Seq<CircuitSignal>,
    included: Set<usize>,
    root: usize,
    seen: Seq<usize>,
)
    requires
        seen.no_duplicates(),
        forall|x: usize| seen.contains(x) <==> needs(signals, included, root, x),
    ensures
        needed(signals, included, root).len() == seen.len(),
        needed(signals, included, root).finite(),
{
    seen.unique_seq_to_set();
    assert(seen.to_set() =~= needed(signals, included, root));
}

impl CircuitBuilder {
    /// The wire of the signal `id`. If it has none, it gets one, after all
    /// the signals that it needs got theirs. Where that cannot be, nothing
    /// changes.
    pub fn include_signal(&mut self, arena: &SignalArena, id: usize) -> (r: Result<
        usize,
        BuilderError,
    >)
        requires
            old(self).wf(arena@),
            arena.wf(),
        ensures
            final(self).wf(arena@),
            (final(self)@, r) == spec_include_signal(old(self)@, arena@, id),
            r is Ok ==> final(self)@.wires.contains_key(id) && is_layered_order(
                arena@,
                old(self)@.wires.dom(),
                id,
                final(self)@.order.skip(old(self)@.order.len() as int),
            ) && final(self)@ == emit_all(
                old(self)@,
                arena@,
                final(self)@.order.skip(old(self)@.order.len() as int),
            ),
            r is Ok ==> forall|roots: Set<usize>| #[trigger]
                covers(old(self)@, arena@, roots) ==> covers(
                    final(self)@,
                    arena@,
                    roots.insert(id),
                ),
            grows(old(self)@, final(self)@),
            r is Ok ==> r->Ok_0 < final(self).wire_count,
    {
        broadcast use vstd::std_specs::hash::group_hash_axioms;

        let ghost signals = arena@;
        let ghost st0 = self@;
        let ghost inc0 = st0.wires.dom();
        proof {
            if st0.wires.contains_key(id) {
                lemma_has_wire_below(
                    st0,
                    signals,
                    Val::Signal(SignalHandle { id, type_: crate::ops::VsType::Number }),
                );
            }
        }
        if id >= arena.len() {
            return Err(BuilderError::UnknownSignal(id));
        }
        if let Some(w) = self.wires_included.get(&id) {
            proof {
                let none = Seq::<usize>::empty();
                assert(st0.order.skip(st0.order.len() as int) =~= none);
                assert forall|x: usize| none.contains(x) <==> needs(signals, inc0, id, x) by {}
                assert forall|roots: Set<usize>| #[trigger]
                    covers(st0, signals, roots) implies covers(st0, signals, roots.insert(id)) by {
                    lemma_covers_included(st0, signals, roots, id);
                }
            }
            return Ok(*w);
        }
        let plan = self.discover(arena, id);
        let ghost all = needed(signals, inc0, id);
        proof {
            lemma_needed_count(signals, inc0, id, plan.seen@);
        }
        if let Some(b) = plan.bad {
            proof {
                assert(all.contains(b) && is_bad(signals, b));
                lemma_needs_bounds(signals, inc0, id, b);
                let c = least_bad(signals, all);
                assert(is_least_bad(signals, all, Some(b)));
                assert(is_least_bad(signals, all, Some(c)));
            }
            return Err(
                match bad_node(arena, b) {
                    Some(e) => e,
                    None => BuilderError::UnknownSignal(b),
                },
            );
        }
        if plan.count > (usize::MAX - self.wire_count) / 3 {
            return Err(BuilderError::TooManyWires);
        }
        let done = self.emit_rounds(arena, id, &plan);
        proof {
            lemma_layered_order_unique(
                signals,
                inc0,
                id,
                done@,
                layered_order(signals, inc0, id),
            );
            assert(self@.order.skip(st0.order.len() as int) =~= done@);
            lemma_needs_self(signals, inc0, id);
            assert(done@.contains(id));
            assert forall|roots: Set<usize>| #[trigger]
                covers(st0, signals, roots) implies covers(self@, signals, roots.insert(id)) by {
                lemma_covers_step(st0, self@, signals, roots, id, done@);
            }
            lemma_has_wire_below(
                self@,
                signals,
                Val::Signal(SignalHandle { id, type_: crate::ops::VsType::Number }),
            );
        }
        match self.wires_included.get(&id) {
            Some(w) => Ok(*w),
            None => Err(BuilderError::NotIncluded(id)),
        }
    }

    /// The wire of a value: of a signal as [`CircuitBuilder::include_signal`]
    /// gives it, of a plain value as
    /// [`CircuitBuilder::include_val_shallow`] does.
    pub fn include_val(&mut self, arena: &SignalArena, val: &Val) -> (r: Result<usize, BuilderError>)
        requires
            old(self).wf(arena@),
            arena.wf(),
        ensures
            final(self).wf(arena@),
            (final(self)@, r) == spec_include_val(old(self)@, arena@, *val),
            grows(old(self)@, final(self)@),
            r is Ok ==> r->Ok_0 < final(self).wire_count,
            r is Ok ==> has_wire(final(self)@, *val) && r->Ok_0 == wire_of(final(self)@, *val),
            r is Ok ==> forall|roots: Set<usize>| #[trigger]
                covers(old(self)@, arena@, roots) ==> covers(
                    final(self)@,
                    arena@,
                    match *val {
                        Val::Signal(h) => roots.insert(h.id),
                        _ => roots,
                    },
                ),
    {
        match val {
            Val::Signal(h) => self.include_signal(arena, h.id),
            _ => {
                let r = self.include_val_shallow(arena, val);
                proof {
                    assert(self@.order == old(self)@.order);
                    assert(self@.seeded == old(self)@.seeded);
                }
                r
            },
        }
    }
}

/// The operands of the signal that a value is; none for other values.
pub open spec fn dependencies(signals: Seq<CircuitSignal>, v: Val) -> Seq<Val> {
    match v {
        Val::Signal(h) => if h.id < signals.len() {
            operands(signals[h.id as int].data)
        } else {
            Seq::empty()
        },
        _ => Seq::empty(),
    }
}

/// The operands of a signal, in order.
pub fn get_signal_dependencies(signal: &CircuitSignal) -> (r: Vec<Val>)
    ensures
        r@ == operands(signal.data),
{
    let mut r: Vec<Val> = Vec::new();
    match &signal.data {
        CircuitSignalData::Input => {},
        CircuitSignalData::UnaryOp(_, x) => {
            r.push(x.clone());
        },
        CircuitSignalData::BinaryOp(_, left, right) => {
            r.push(left.clone());
            r.push(right.clone());
        },
    }
    assert(r@ =~= operands(signal.data));
    r
}

/// The signal of `arena` that a value is, if it is one.
pub fn as_circuit_signal<'a>(arena: &'a SignalArena, val: &Val) -> (r: Option<&'a CircuitSignal>)
    ensures
        match *val {
            Val::Signal(h) => if h.id < arena@.len() {
                r == Some(&arena@[h.id as int])
            } else {
                r is None
            },
            _ => r is None,
        },
{
    match val {
        Val::Signal(h) => if h.id < arena.len() {
            Some(arena.get(h.id))
        } else {
            None
        },
        _ => None,
    }
}

/// The operands of the signal that a value is; none for other values.
pub fn get_dependencies(arena: &SignalArena, val: &Val) -> (r: Vec<Val>)
    ensures
        r@ == dependencies(arena@, *val),
{
    match as_circuit_signal(arena, val) {
        Some(signal) => get_signal_dependencies(signal),
        None => Vec::new(),
    }
}

/// What including the values `vals` one after the other comes to: the state
/// afterwards, and their wires, or the first error, after which no further
/// value is included.
pub open spec fn spec_include_all(st: BuilderState, signals: Seq<CircuitSignal>, vals: Seq<Val>) -> (
    BuilderState,
    Result<Seq<usize>, BuilderError>,
)
    decreases vals.len(),
{
    if vals.len() == 0 {
        (st, Ok(Seq::empty()))
    } else {
        let (s1, r1) = spec_include_all(st, signals, vals.drop_last());
        match r1 {
            Err(e) => (s1, Err(e)),
            Ok(ws) => {
                let (s2, r2) = spec_include_val(s1, signals, vals.last());
                match r2 {
                    Err(e) => (s2, Err(e)),
                    Ok(w) => (s2, Ok(ws.push(w))),
                }
            },
        }
    }
}

/// The operands of all the outputs that are signals, output by output.
pub open spec fn all_dependencies(signals: Seq<CircuitSignal>, outs: Seq<(String, Val)>) -> Seq<Val>
    decreases outs.len(),
{
    if outs.len() == 0 {
        Seq::empty()
    } else {
        all_dependencies(signals, outs.drop_last()) + dependencies(signals, outs.last().1)
    }
}

/// The values of the outputs.
pub open spec fn output_values(outs: Seq<(String, Val)>) -> Seq<Val> {
    outs.map_values(|o: (String, Val)| o.1)
}

/// What including the outputs comes to: first the operands of all outputs
/// are included, then the outputs themselves.
pub open spec fn spec_include_outputs(
    st: BuilderState,
    signals: Seq<CircuitSignal>,
    outs: Seq<(String, Val)>,
) -> (BuilderState, Result<Seq<usize>, BuilderError>) {
    let (s1, r1) = spec_include_all(st, signals, all_dependencies(signals, outs));
    match r1 {
        Err(e) => (s1, Err(e)),
        Ok(_) => spec_include_all(s1, signals, output_values(outs)),
    }
}

/// The last position at which `name` stands among the first `n` outputs.
pub open spec fn last_named(outs: Seq<(String, Val)>, name: Seq<char>, n: int) -> Option<int>
    decreases n,
{
    if n <= 0 {
        None
    } else if outs[n - 1].0@ == name {
        Some(n - 1)
    } else {
        last_named(outs, name, n - 1)
    }
}

/// Once including values fails, it fails in the same way and in the same
/// state however many values follow.
proof fn lemma_include_all_error(
    st: BuilderState,
    signals: Seq<CircuitSignal>,
    vals: Seq<Val>,
    n: int,
)
    requires
        0 <= n <= vals.len(),
        spec_include_all(st, signals, vals.take(n)).1 is Err,
    ensures
        spec_include_all(st, signals, vals) == spec_include_all(st, signals, vals.take(n)),
    decreases vals.len() - n,
{
    if n < vals.len() {
        assert(vals.take(n + 1).drop_last() =~= vals.take(n));
        lemma_include_all_error(st, signals, vals, n + 1);
    } else {
        assert(vals.take(n) =~= vals);
    }
}

/// Whether the value `v` is the signal with the identifier `x`.
pub open spec fn is_signal_with(v: Val, x: usize) -> bool {
    v is Signal && v->Signal_0.id == x
}

/// The identifiers of the signals among the values `vals`.
pub open spec fn signal_ids(vals: Seq<Val>) -> Set<usize> {
    Set::new(|x: usize| exists|k: int| 0 <= k < vals.len() && is_signal_with(#[trigger] vals[k], x))
}

/// The signals among some values and one more value.
proof fn lemma_signal_ids_push(vals: Seq<Val>, v: Val)
    ensures
        signal_ids(vals.push(v)) == match v {
            Val::Signal(h) => signal_ids(vals).insert(h.id),
            _ => signal_ids(vals),
        },
{
    let more = vals.push(v);
    let target = match v {
        Val::Signal(h) => signal_ids(vals).insert(h.id),
        _ => signal_ids(vals),
    };
    assert forall|x: usize| signal_ids(more).contains(x) == target.contains(x) by {
        if signal_ids(more).contains(x) {
            let k = choose|k: int| 0 <= k < more.len() && is_signal_with(#[trigger] more[k], x);
            if k < vals.len() {
                assert(is_signal_with(vals[k], x));
            }
        }
        if signal_ids(vals).contains(x) {
            let k = choose|k: int| 0 <= k < vals.len() && is_signal_with(#[trigger] vals[k], x);
            assert(is_signal_with(more[k], x));
        }
        if is_signal_with(v, x) {
            assert(is_signal_with(more[vals.len() as int], x));
        }
    }
    assert(signal_ids(more) =~= target);
}

impl CircuitBuilder {
    /// Includes the values `vals` one after the other.
    fn include_all(&mut self, arena: &SignalArena, vals: &Vec<Val>) -> (r: Result<
        Vec<usize>,
        BuilderError,
    >)
        requires
            old(self).wf(arena@),
            arena.wf(),
        ensures
            final(self).wf(arena@),
            match r {
                Ok(ws) => (final(self)@, Ok::<Seq<usize>, BuilderError>(ws@)) == spec_include_all(
                    old(self)@,
                    arena@,
                    vals@,
                ),
                Err(e) => (final(self)@, Err::<Seq<usize>, BuilderError>(e)) == spec_include_all(
                    old(self)@,
                    arena@,
                    vals@,
                ),
            },
            r is Ok ==> r->Ok_0@.len() == vals@.len(),
            r is Ok ==> forall|roots: Set<usize>| #[trigger]
                covers(old(self)@, arena@, roots) ==> covers(
                    final(self)@,
                    arena@,
                    roots.union(signal_ids(vals@)),
                ),
            grows(old(self)@, final(self)@),
            r is Ok ==> forall|k: int|
                0 <= k < r->Ok_0@.len() ==> #[trigger] r->Ok_0@[k] < final(self).wire_count,
            r is Ok ==> forall|k: int|
                0 <= k < vals@.len() ==> has_wire(final(self)@, #[trigger] vals@[k])
                    && r->Ok_0@[k] == wire_of(final(self)@, vals@[k]),
    {
        let ghost st0 = self@;
        let mut ws: Vec<usize> = Vec::new();
        let mut i: usize = 0;
        assert(vals@.take(0) =~= Seq::<Val>::empty());
        proof {
            assert forall|roots: Set<usize>| #[trigger]
                covers(st0, arena@, roots) implies covers(
                st0,
                arena@,
                roots.union(signal_ids(vals@.take(0))),
            ) by {
                assert(roots.union(signal_ids(vals@.take(0))) =~= roots);
            }
        }
        while i < vals.len()
            invariant
                i <= vals.len(),
                arena.wf(),
                self.wf(arena@),
                st0 == old(self)@,
                forall|roots: Set<usize>| #[trigger]
                    covers(st0, arena@, roots) ==> covers(
                        self@,
                        arena@,
                        roots.union(signal_ids(vals@.take(i as int))),
                    ),
                grows(st0, self@),
                forall|k: int| 0 <= k < ws@.len() ==> #[trigger] ws@[k] < self.wire_count,
                forall|k: int|
                    0 <= k < i ==> has_wire(self@, #[trigger] vals@[k]) && ws@[k] == wire_of(
                        self@,
                        vals@[k],
                    ),
                ws@.len() == i,
                (self@, Ok::<Seq<usize>, BuilderError>(ws@)) == spec_include_all(
                    st0,
                    arena@,
                    vals@.take(i as int),
                ),
            decreases vals.len() - i,
        {
            assert(vals@.take(i + 1).drop_last() =~= vals@.take(i as int));
            assert(vals@.take(i + 1).last() == vals@[i as int]);
            let ghost s1 = self@;
            let ghost ws1 = ws@;
            let r = self.include_val(arena, &vals[i]);
            proof {
                lemma_grows_trans(st0, s1, self@);
            }
            match r {
                Ok(w) => {
                    ws.push(w);
                    proof {
                        assert forall|k: int| 0 <= k < ws@.len() implies #[trigger] ws@[k]
                            < self.wire_count by {
                            if k < ws1.len() {
                                assert(ws@[k] == ws1[k]);
                            }
                        }
                        assert forall|k: int| 0 <= k < i + 1 implies has_wire(
                            self@,
                            #[trigger] vals@[k],
                        ) && ws@[k] == wire_of(self@, vals@[k]) by {
                            if k < i {
                                assert(has_wire(s1, vals@[k]) && ws1[k] == wire_of(s1, vals@[k]));
                                assert(grows(s1, self@));
                            }
                        }
                        let v = vals@[i as int];
                        assert(vals@.take(i + 1) =~= vals@.take(i as int).push(v));
                        lemma_signal_ids_push(vals@.take(i as int), v);
                        assert forall|roots: Set<usize>| #[trigger]
                            covers(st0, arena@, roots) implies covers(
                            self@,
                            arena@,
                            roots.union(signal_ids(vals@.take(i + 1))),
                        ) by {
                            let mid = roots.union(signal_ids(vals@.take(i as int)));
                            assert(covers(s1, arena@, mid));
                            match v {
                                Val::Signal(h) => {
                                    assert(mid.insert(h.id) =~= roots.union(
                                        signal_ids(vals@.take(i + 1)),
                                    ));
                                },
                                _ => {},
                            }
                        }
                    }
                },
                Err(e) => {
                    proof {
                        assert(spec_include_val(s1, arena@, vals@[i as int]) == (
                            self@,
                            Err::<usize, BuilderError>(e),
                        ));
                        assert(spec_include_all(st0, arena@, vals@.take(i + 1)) == (
                            self@,
                            Err::<Seq<usize>, BuilderError>(e),
                        ));
                        lemma_include_all_error(st0, arena@, vals@, i + 1);
                    }
                    return Err(e);
                },
            }
            i += 1;
        }
        assert(vals@.take(i as int) =~= vals@);
        Ok(ws)
    }

    /// Includes the outputs: first the operands of each output that is a
    /// signal, then the outputs themselves. Gives the wire of each output by
    /// its name; of two outputs with one name the later counts.
    pub fn include_outputs(&mut self, arena: &SignalArena, output_vals: &Vec<(String, Val)>) -> (r:
        Result<NameMap<usize>, BuilderError>)
        requires
            old(self).wf(arena@),
            arena.wf(),
        ensures
            final(self).wf(arena@),
            final(self)@ == spec_include_outputs(old(self)@, arena@, output_vals@).0,
            match r {
                Err(e) => spec_include_outputs(old(self)@, arena@, output_vals@).1 == Err::<
                    Seq<usize>,
                    BuilderError,
                >(e),
                Ok(map) => {
                    let res = spec_include_outputs(old(self)@, arena@, output_vals@).1;
                    &&& res is Ok
                    &&& res->Ok_0.len() == output_vals@.len()
                    &&& map.wf()
                    &&& forall|name: Seq<char>|
                        map.has(name) <==> last_named(
                            output_vals@,
                            name,
                            output_vals@.len() as int,
                        ) is Some
                    &&& forall|name: Seq<char>|
                        map.has(name) ==> map.value(name) == res->Ok_0[last_named(
                            output_vals@,
                            name,
                            output_vals@.len() as int,
                        )->0]
                    &&& forall|i: int|
                        0 <= i < output_vals@.len() ==> has_wire(
                            final(self)@,
                            (#[trigger] output_vals@[i]).1,
                        ) && res->Ok_0[i] == wire_of(final(self)@, output_vals@[i].1)
                    &&& forall|roots: Set<usize>| #[trigger]
                        covers(old(self)@, arena@, roots) ==> covers(
                            final(self)@,
                            arena@,
                            roots.union(signal_ids(all_dependencies(arena@, output_vals@))).union(
                                signal_ids(output_values(output_vals@)),
                            ),
                        )
                    &&& forall|i: int|
                        0 <= i < map@.len() ==> (#[trigger] map@[i]).1 < final(self).wire_count
                },
            },
            grows(old(self)@, final(self)@),
    {
        let ghost signals = arena@;
        let ghost st0 = self@;
        let mut deps: Vec<Val> = Vec::new();
        let mut vals: Vec<Val> = Vec::new();
        let mut i: usize = 0;
        assert(output_vals@.take(0) =~= Seq::<(String, Val)>::empty());
        while i < output_vals.len()
            invariant
                i <= output_vals.len(),
                signals == arena@,
                deps@ == all_dependencies(signals, output_vals@.take(i as int)),
                vals@ == output_values(output_vals@.take(i as int)),
            decreases output_vals.len() - i,
        {
            let ghost upto = output_vals@.take(i + 1);
            assert(upto.drop_last() =~= output_vals@.take(i as int));
            assert(upto.last() == output_vals@[i as int]);
            let more = get_dependencies(arena, &output_vals[i].1);
            let mut k: usize = 0;
            let ghost before = deps@;
            while k < more.len()
                invariant
                    k <= more.len(),
                    deps@ == before + more@.take(k as int),
                decreases more.len() - k,
            {
                deps.push(more[k].clone());
                assert(more@.take(k + 1) =~= more@.take(k as int).push(more@[k as int]));
                assert(deps@ =~= before + more@.take(k + 1));
                k += 1;
            }
            assert(more@.take(k as int) =~= more@);
            let ghost prev = vals@;
            vals.push(output_vals[i].1.clone());
            assert(vals@ =~= output_values(upto));
            i += 1;
        }
        assert(output_vals@.take(i as int) =~= output_vals@);
        match self.include_all(arena, &deps) {
            Ok(_) => {},
            Err(e) => {
                return Err(e);
            },
        }
        let ghost st1 = self@;
        let included = self.include_all(arena, &vals);
        proof {
            lemma_grows_trans(st0, st1, self@);
        }
        let wires = match included {
            Ok(ws) => ws,
            Err(e) => {
                return Err(e);
            },
        };
        proof {
            assert forall|roots: Set<usize>| #[trigger]
                covers(st0, arena@, roots) implies covers(
                self@,
                arena@,
                roots.union(signal_ids(deps@)).union(signal_ids(vals@)),
            ) by {
                assert(covers(st1, arena@, roots.union(signal_ids(deps@))));
            }
            assert forall|i: int| 0 <= i < output_vals@.len() implies has_wire(
                self@,
                (#[trigger] output_vals@[i]).1,
            ) && wires@[i] == wire_of(self@, output_vals@[i].1) by {
                assert(vals@[i] == output_vals@[i].1);
            }
        }
        let mut map: NameMap<usize> = NameMap::new();
        let mut j: usize = 0;
        while j < output_vals.len()
            invariant
                j <= output_vals.len(),
                wires@.len() == output_vals@.len(),
                forall|k: int| 0 <= k < wires@.len() ==> #[trigger] wires@[k] < self.wire_count,
                forall|name: Seq<char>| map.has(name) ==> map.value(name) < self.wire_count,
                map.wf(),
                forall|name: Seq<char>|
                    map.has(name) <==> last_named(output_vals@, name, j as int) is Some,
                forall|name: Seq<char>|
                    map.has(name) ==> map.value(name) == wires@[last_named(
                        output_vals@,
                        name,
                        j as int,
                    )->0],
            decreases output_vals.len() - j,
        {
            let ghost old_map = map;
            let name = output_vals[j].0.clone();
            map.insert(name, wires[j]);
            proof {
                let this = output_vals@[j as int].0@;
                assert forall|other: Seq<char>|
                    map.has(other) <==> last_named(output_vals@, other, j + 1) is Some by {
                    if other != this {
                        assert(map.has(other) <==> old_map.has(other));
                    }
                }
                assert forall|other: Seq<char>| map.has(other) implies map.value(other)
                    == wires@[last_named(output_vals@, other, j + 1)->0] by {
                    if other != this {
                        assert(old_map.has(other));
                        assert(map.value(other) == old_map.value(other));
                    }
                }
                assert forall|other: Seq<char>| map.has(other) implies map.value(other)
                    < self.wire_count by {
                    if other != this {
                        assert(old_map.has(other));
                        assert(map.value(other) == old_map.value(other));
                    }
                }
            }
            j += 1;
        }
        proof {
            assert forall|i: int| 0 <= i < map@.len() implies (#[trigger] map@[i]).1
                < self.wire_count by {
                map.lemma_position(i);
            }
        }
        Ok(map)
    }
}

} // verus!
