//! Circuits of gates on numbered wires, before their wires are recycled.

use crate::bristol::{count_line, BristolCircuit, CircuitView, GateView, Header, HeaderView};
use crate::name_map::NameMap;
use crate::ops::{
    binary_mnemonic, to_bristol_binary_op, to_bristol_unary_op, unary_mnemonic, BinaryOp, UnaryOp,
    VsType,
};
use crate::text::{decimal, join_words, push_decimal, string_of};
use crate::summon_io::InputDescriptor;
use vstd::arithmetic::power::pow;
use vstd::prelude::*;
use vstd::string::StringExecFns;
use vstd::wrapping::usize_specs;

verus! {

/// A constant on a wire: a boolean, or a number in two's complement.
#[derive(Debug, Clone, Copy, PartialEq, Eq, Structural)]
pub enum ConstantValue {
    Bool(bool),
    Number(usize),
}

/// A gate: an operator, the wires that it reads and the wire that it writes.
#[derive(Debug, Clone, Copy, PartialEq, Eq, Structural)]
pub enum Gate {
    Unary { op: UnaryOp, input: usize, output: usize },
    Binary { op: BinaryOp, left: usize, right: usize, output: usize },
}

impl Gate {
    /// The wire that this gate writes.
    pub open spec fn spec_output(self) -> usize {
        match self {
            Gate::Unary { output, .. } => output,
            Gate::Binary { output, .. } => output,
        }
    }

    /// The wires that this gate reads, in the order of its operands.
    pub open spec fn spec_operands(self) -> Seq<usize> {
        match self {
            Gate::Unary { input, .. } => seq![input],
            Gate::Binary { left, right, .. } => seq![left, right],
        }
    }

    /// The wire that this gate writes.
    pub fn output(&self) -> (w: usize)
        ensures
            w == self.spec_output(),
    {
        match self {
            Gate::Unary { output, .. } => *output,
            Gate::Binary { output, .. } => *output,
        }
    }
}

/// An input of a circuit: its wire and its type.
#[derive(Debug, Clone, Copy, PartialEq, Eq, Structural)]
pub struct CircuitInput {
    pub wire_id: usize,
    pub type_: VsType,
}

/// What one party gives and gets: the names of its inputs and of its
/// outputs.
#[derive(Debug, Clone)]
pub struct MpcParticipantSettings {
    pub name: String,
    pub inputs: Vec<String>,
    pub outputs: Vec<String>,
}

/// What an [`MpcParticipantSettings`] holds.
pub struct ParticipantView {
    pub name: Seq<char>,
    pub inputs: Seq<Seq<char>>,
    pub outputs: Seq<Seq<char>>,
}

impl View for MpcParticipantSettings {
    type V = ParticipantView;

    open spec fn view(&self) -> ParticipantView {
        ParticipantView {
            name: self.name@,
            inputs: crate::text::string_views(self.inputs@),
            outputs: crate::text::string_views(self.outputs@),
        }
    }
}

/// The settings of all parties, in the order in which they were named.
#[derive(Debug, Clone)]
pub struct MpcSettings(pub Vec<MpcParticipantSettings>);

impl View for MpcSettings {
    type V = Seq<ParticipantView>;

    open spec fn view(&self) -> Seq<ParticipantView> {
        self.0@.map_values(|p: MpcParticipantSettings| p@)
    }
}

/// The first position at or after `from` that holds the name `name`, if
/// there is one.
pub open spec fn first_index(names: Seq<Seq<char>>, name: Seq<char>, from: int) -> Option<int>
    decreases names.len() - from,
{
    if from < 0 || from >= names.len() {
        None
    } else if names[from] == name {
        Some(from)
    } else {
        first_index(names, name, from + 1)
    }
}

/// The names of those of the first `n` inputs that come from the party at
/// position `at`, in order. An input comes from the first party that has
/// the name that the input gives.
pub open spec fn inputs_of(
    parties: Seq<Seq<char>>,
    descs: Seq<InputDescriptor>,
    at: int,
    n: int,
) -> Seq<Seq<char>>
    decreases n,
{
    if n <= 0 {
        Seq::empty()
    } else {
        let front = inputs_of(parties, descs, at, n - 1);
        if first_index(parties, descs[n - 1].from@, 0) == Some(at) {
            front.push(descs[n - 1].name@)
        } else {
            front
        }
    }
}

/// The first of the first `n` inputs whose party is not among the parties,
/// if there is one.
pub open spec fn first_stray(parties: Seq<Seq<char>>, descs: Seq<InputDescriptor>, n: int) -> Option<
    int,
>
    decreases n,
{
    if n <= 0 {
        None
    } else {
        match first_stray(parties, descs, n - 1) {
            Some(i) => Some(i),
            None => if first_index(parties, descs[n - 1].from@, 0) is Some {
                None
            } else {
                Some(n - 1)
            },
        }
    }
}

/// The settings of the parties `parties`: each party, in order, with the
/// names of the inputs that come from it, in their order, and the names of
/// all outputs.
pub open spec fn spec_settings(
    parties: Seq<Seq<char>>,
    descs: Seq<InputDescriptor>,
    outputs: Seq<Seq<char>>,
) -> Seq<ParticipantView> {
    Seq::new(
        parties.len(),
        |j: int|
            ParticipantView {
                name: parties[j],
                inputs: inputs_of(parties, descs, j, descs.len() as int),
                outputs,
            },
    )
}

/// Why a circuit could not be put together or worked out.
#[derive(Debug, Clone, Copy, PartialEq, Eq, Structural)]
pub enum CircuitError {
    /// The input at this position comes from a party that was not named.
    UnknownParty(usize),
    /// The input of the circuit at this position, by name, has no value.
    MissingInput(usize),
    /// A gate at this position divides by zero.
    DivisionByZero(usize),
}


/// The position of the first of `names` from `from` on that is `name`.
fn find_party(parties: &Vec<MpcParticipantSettings>, name: &String) -> (r: Option<usize>)
    ensures
        match r {
            Some(i) => i < parties@.len() && first_index(
                parties@.map_values(|p: MpcParticipantSettings| p.name@),
                name@,
                0,
            ) == Some(i as int),
            None => first_index(
                parties@.map_values(|p: MpcParticipantSettings| p.name@),
                name@,
                0,
            ) is None,
        },
{
    let ghost names = parties@.map_values(|p: MpcParticipantSettings| p.name@);
    let mut i: usize = 0;
    while i < parties.len()
        invariant
            i <= parties.len(),
            names == parties@.map_values(|p: MpcParticipantSettings| p.name@),
            first_index(names, name@, 0) == first_index(names, name@, i as int),
        decreases parties.len() - i,
    {
        assert(names[i as int] == parties@[i as int].name@);
        if parties[i].name == *name {
            return Some(i);
        }
        i += 1;
    }
    None
}

impl MpcSettings {
    /// The settings of the parties `parties`: each gets the names of the
    /// inputs that come from it, in their order, and the names of all
    /// outputs. Every input must come from one of the parties.
    pub fn from_io(
        parties: &Vec<String>,
        input_descriptors: &Vec<InputDescriptor>,
        outputs: Vec<String>,
    ) -> (r: Result<MpcSettings, CircuitError>)
        ensures
            match first_stray(
                crate::text::string_views(parties@),
                input_descriptors@,
                input_descriptors@.len() as int,
            ) {
                Some(i) => r == Err::<MpcSettings, CircuitError>(
                    CircuitError::UnknownParty(i as usize),
                ),
                None => {
                    &&& r is Ok
                    &&& r->Ok_0@ == spec_settings(
                        crate::text::string_views(parties@),
                        input_descriptors@,
                        crate::text::string_views(outputs@),
                    )
                    &&& r->Ok_0@.len() == parties@.len()
                    &&& forall|j: int|
                        0 <= j < parties@.len() ==> {
                            let p = #[trigger] r->Ok_0@[j];
                            &&& p.name == parties@[j]@
                            &&& p.inputs == inputs_of(
                                crate::text::string_views(parties@),
                                input_descriptors@,
                                j,
                                input_descriptors@.len() as int,
                            )
                            &&& p.outputs == crate::text::string_views(outputs@)
                        }
                },
            },
    {
        let ghost names = crate::text::string_views(parties@);
        let ghost descs = input_descriptors@;
        let mut participants: Vec<MpcParticipantSettings> = Vec::new();
        let mut i: usize = 0;
        while i < parties.len()
            invariant
                i <= parties.len(),
                participants@.len() == i,
                forall|j: int|
                    0 <= j < i ==> {
                        let p = #[trigger] participants@[j];
                        &&& p.name@ == parties@[j]@
                        &&& p.inputs@.len() == 0
                        &&& p.outputs@ == outputs@
                    },
            decreases parties.len() - i,
        {
            participants.push(
                MpcParticipantSettings {
                    name: parties[i].clone(),
                    inputs: Vec::new(),
                    outputs: clone_names(&outputs),
                },
            );
            i += 1;
        }
        proof {
            assert(participants@.map_values(|p: MpcParticipantSettings| p.name@) =~= names);
        }
        let mut k: usize = 0;
        while k < input_descriptors.len()
            invariant
                k <= input_descriptors.len(),
                names == crate::text::string_views(parties@),
                descs == input_descriptors@,
                participants@.len() == parties@.len(),
                participants@.map_values(|p: MpcParticipantSettings| p.name@) == names,
                first_stray(names, descs, k as int) is None,
                forall|j: int|
                    0 <= j < participants@.len() ==> {
                        let p = #[trigger] participants@[j];
                        &&& p.name@ == parties@[j]@
                        &&& crate::text::string_views(p.inputs@) == inputs_of(
                            names,
                            descs,
                            j,
                            k as int,
                        )
                        &&& crate::text::string_views(p.outputs@) == crate::text::string_views(
                            outputs@,
                        )
                    },
            decreases input_descriptors.len() - k,
        {
            let desc = &input_descriptors[k];
            match find_party(&participants, &desc.from) {
                None => {
                    proof {
                        lemma_first_stray(names, descs, k + 1, descs.len() as int);
                    }
                    return Err(CircuitError::UnknownParty(k));
                },
                Some(at) => {
                    let ghost before = participants@;
                    let mut entry = participants[at].clone_settings();
                    let ghost old_inputs = crate::text::string_views(entry.inputs@);
                    entry.inputs.push(desc.name.clone());
                    assert(crate::text::string_views(entry.inputs@) =~= old_inputs.push(
                        desc.name@,
                    ));
                    participants.set(at, entry);
                    proof {
                        assert(participants@.map_values(|p: MpcParticipantSettings| p.name@)
                            =~= names) by {
                            assert forall|j: int| 0 <= j < participants@.len() implies participants@.map_values(
                                |p: MpcParticipantSettings| p.name@,
                            )[j] == names[j] by {
                                assert(before.map_values(|p: MpcParticipantSettings| p.name@)[j]
                                    == names[j]);
                            }
                        }
                        assert forall|j: int| 0 <= j < participants@.len() implies {
                            let p = #[trigger] participants@[j];
                            &&& p.name@ == parties@[j]@
                            &&& crate::text::string_views(p.inputs@) == inputs_of(
                                names,
                                descs,
                                j,
                                k + 1,
                            )
                            &&& crate::text::string_views(p.outputs@) == crate::text::string_views(
                                outputs@,
                            )
                        } by {
                            if j != at {
                                assert(participants@[j] == before[j]);
                            }
                        }
                    }
                },
            }
            k += 1;
        }
        let settings = MpcSettings(participants);
        proof {
            assert forall|j: int| 0 <= j < parties@.len() implies {
                let p = #[trigger] settings@[j];
                &&& p.name == parties@[j]@
                &&& p.inputs == inputs_of(names, descs, j, descs.len() as int)
                &&& p.outputs == crate::text::string_views(outputs@)
            } by {
                assert(settings@[j] == settings.0@[j]@);
            }
            assert(settings@ =~= spec_settings(names, descs, crate::text::string_views(outputs@)));
        }
        Ok(settings)
    }
}

/// Once an input has no party, that input stays the first such.
proof fn lemma_first_stray(parties: Seq<Seq<char>>, descs: Seq<InputDescriptor>, n: int, m: int)
    requires
        0 < n <= m <= descs.len(),
        first_stray(parties, descs, n) == Some(n - 1),
    ensures
        first_stray(parties, descs, m) == Some(n - 1),
    decreases m - n,
{
    if n < m {
        lemma_first_stray(parties, descs, n, m - 1);
    }
}

/// A copy of a list of names.
fn clone_names(names: &Vec<String>) -> (r: Vec<String>)
    ensures
        r@ == names@,
{
    let mut r: Vec<String> = Vec::new();
    let mut i: usize = 0;
    while i < names.len()
        invariant
            i <= names.len(),
            r@ == names@.take(i as int),
        decreases names.len() - i,
    {
        r.push(names[i].clone());
        assert(names@.take(i + 1) =~= names@.take(i as int).push(names@[i as int]));
        i += 1;
    }
    assert(names@.take(i as int) =~= names@);
    r
}

impl MpcParticipantSettings {
    /// A copy of these settings.
    pub fn clone_settings(&self) -> (r: Self)
        ensures
            r.name == self.name,
            r.inputs@ == self.inputs@,
            r.outputs@ == self.outputs@,
    {
        MpcParticipantSettings {
            name: self.name.clone(),
            inputs: clone_names(&self.inputs),
            outputs: clone_names(&self.outputs),
        }
    }
}


/// The values that a circuit can be worked out on.
pub trait CircuitNumber: Sized {
    /// What a wire holds before anything is written to it.
    spec fn spec_zero() -> Self;

    /// The value of a constant.
    spec fn spec_from_constant(c: ConstantValue) -> Self;

    /// What a unary operator gives.
    spec fn spec_unary_op(op: UnaryOp, input: Self) -> Self;

    /// What a binary operator gives; nothing where it is not defined.
    spec fn spec_binary_op(op: BinaryOp, left: Self, right: Self) -> Option<Self>;

    fn zero() -> (r: Self)
        ensures
            r == Self::spec_zero(),
    ;

    fn from_constant(c: &ConstantValue) -> (r: Self)
        ensures
            r == Self::spec_from_constant(*c),
    ;

    fn unary_op(op: UnaryOp, input: &Self) -> (r: Self)
        ensures
            r == Self::spec_unary_op(op, *input),
    ;

    fn binary_op(op: BinaryOp, left: &Self, right: &Self) -> (r: Option<Self>)
        ensures
            r == Self::spec_binary_op(op, *left, *right),
    ;

    fn duplicate(&self) -> (r: Self)
        ensures
            r == *self,
    ;
}

/// A number of the size of a wire, or a boolean.
#[derive(Debug, Clone, Copy, PartialEq, Eq, Structural)]
pub enum NumberOrBool {
    Number(usize),
    Bool(bool),
}

/// The power of `base` to `exp`, taken modulo the number of values of
/// `usize`.
pub open spec fn spec_wrapping_pow(base: usize, exp: u32) -> usize {
    (pow(base as int, exp as nat) % (usize::MAX + 1)) as usize
}

/// The power that `usize::wrapping_pow` computes: by its documentation the
/// power of `base` to `exp`, wrapped around at the boundary of the type.
#[verifier::external_body]
fn wrapping_pow(base: usize, exp: u32) -> (r: usize)
    ensures
        r == spec_wrapping_pow(base, exp),
{
    base.wrapping_pow(exp)
}

impl NumberOrBool {
    /// The value as a number: `true` is one and `false` is zero.
    pub open spec fn spec_as_usize(self) -> usize {
        match self {
            NumberOrBool::Number(x) => x,
            NumberOrBool::Bool(x) => if x {
                1
            } else {
                0
            },
        }
    }

    /// The value as a boolean: every number but zero is `true`.
    pub open spec fn spec_as_bool(self) -> bool {
        match self {
            NumberOrBool::Number(x) => x != 0,
            NumberOrBool::Bool(x) => x,
        }
    }

    /// The value as a number: `true` is one and `false` is zero.
    pub fn as_usize(&self) -> (r: usize)
        ensures
            r == self.spec_as_usize(),
    {
        match self {
            NumberOrBool::Number(x) => *x,
            NumberOrBool::Bool(x) => if *x {
                1
            } else {
                0
            },
        }
    }

    /// The value as a boolean: every number but zero is `true`.
    pub fn as_bool(&self) -> (r: bool)
        ensures
            r == self.spec_as_bool(),
    {
        match self {
            NumberOrBool::Number(x) => *x != 0,
            NumberOrBool::Bool(x) => *x,
        }
    }
}

impl CircuitNumber for NumberOrBool {
    open spec fn spec_zero() -> Self {
        NumberOrBool::Number(0)
    }

    open spec fn spec_from_constant(c: ConstantValue) -> Self {
        match c {
            ConstantValue::Number(n) => NumberOrBool::Number(n),
            ConstantValue::Bool(b) => NumberOrBool::Bool(b),
        }
    }

    /// Arithmetic wraps around; `!` of a number is whether it is zero.
    open spec fn spec_unary_op(op: UnaryOp, input: Self) -> Self {
        match op {
            UnaryOp::Plus => input,
            UnaryOp::Minus => NumberOrBool::Number(
                usize_specs::wrapping_sub(0, input.spec_as_usize()),
            ),
            UnaryOp::Not => match input {
                NumberOrBool::Number(x) => NumberOrBool::Bool(x == 0),
                NumberOrBool::Bool(x) => NumberOrBool::Bool(!x),
            },
            UnaryOp::BitNot => NumberOrBool::Number(!input.spec_as_usize()),
        }
    }

    /// Arithmetic wraps around and takes booleans as zero and one; division
    /// and remainder by zero are not defined; comparisons are of numbers
    /// without sign; the amount of a shift is taken modulo the width of a
    /// wire.
    open spec fn spec_binary_op(op: BinaryOp, left: Self, right: Self) -> Option<Self> {
        let l = left.spec_as_usize();
        let r = right.spec_as_usize();
        match op {
            BinaryOp::Plus => Some(NumberOrBool::Number(usize_specs::wrapping_add(l, r))),
            BinaryOp::Minus => Some(NumberOrBool::Number(usize_specs::wrapping_sub(l, r))),
            BinaryOp::Mul => Some(NumberOrBool::Number(usize_specs::wrapping_mul(l, r))),
            BinaryOp::Div => if r == 0 {
                None
            } else {
                Some(NumberOrBool::Number(l / r))
            },
            BinaryOp::Mod => if r == 0 {
                None
            } else {
                Some(NumberOrBool::Number(l % r))
            },
            BinaryOp::Exp => Some(NumberOrBool::Number(spec_wrapping_pow(l, r as u32))),
            BinaryOp::LooseEq => Some(NumberOrBool::Bool(l == r)),
            BinaryOp::LooseNe => Some(NumberOrBool::Bool(l != r)),
            BinaryOp::Eq => Some(NumberOrBool::Bool(l == r)),
            BinaryOp::Ne => Some(NumberOrBool::Bool(l != r)),
            BinaryOp::And => Some(NumberOrBool::Bool(left.spec_as_bool() && right.spec_as_bool())),
            BinaryOp::Or => Some(NumberOrBool::Bool(left.spec_as_bool() || right.spec_as_bool())),
            BinaryOp::Less => Some(NumberOrBool::Bool(l < r)),
            BinaryOp::LessEq => Some(NumberOrBool::Bool(l <= r)),
            BinaryOp::Greater => Some(NumberOrBool::Bool(l > r)),
            BinaryOp::GreaterEq => Some(NumberOrBool::Bool(l >= r)),
            BinaryOp::BitAnd => Some(NumberOrBool::Number(l & r)),
            BinaryOp::BitOr => Some(NumberOrBool::Number(l | r)),
            BinaryOp::BitXor => Some(NumberOrBool::Number(l ^ r)),
            BinaryOp::LeftShift => Some(
                NumberOrBool::Number(usize_specs::wrapping_shl(l, r as u32)),
            ),
            BinaryOp::RightShift => Some(
                NumberOrBool::Number(usize_specs::wrapping_shr(l, r as u32)),
            ),
            BinaryOp::RightShiftUnsigned => Some(
                NumberOrBool::Number(usize_specs::wrapping_shr(l, r as u32)),
            ),
        }
    }

    fn zero() -> (r: Self) {
        NumberOrBool::Number(0)
    }

    fn from_constant(c: &ConstantValue) -> (r: Self) {
        match c {
            ConstantValue::Number(n) => NumberOrBool::Number(*n),
            ConstantValue::Bool(b) => NumberOrBool::Bool(*b),
        }
    }

    fn unary_op(op: UnaryOp, input: &Self) -> (r: Self) {
        match op {
            UnaryOp::Plus => *input,
            UnaryOp::Minus => NumberOrBool::Number(0usize.wrapping_sub(input.as_usize())),
            UnaryOp::Not => match input {
                NumberOrBool::Number(x) => NumberOrBool::Bool(*x == 0),
                NumberOrBool::Bool(x) => NumberOrBool::Bool(!*x),
            },
            UnaryOp::BitNot => NumberOrBool::Number(!input.as_usize()),
        }
    }

    fn binary_op(op: BinaryOp, left: &Self, right: &Self) -> (r: Option<Self>) {
        let l = left.as_usize();
        let r = right.as_usize();
        let amount: u32 = #[verifier::truncate]
        (r as u32);
        match op {
            BinaryOp::Plus => Some(NumberOrBool::Number(l.wrapping_add(r))),
            BinaryOp::Minus => Some(NumberOrBool::Number(l.wrapping_sub(r))),
            BinaryOp::Mul => Some(NumberOrBool::Number(l.wrapping_mul(r))),
            BinaryOp::Div => if r == 0 {
                None
            } else {
                Some(NumberOrBool::Number(l / r))
            },
            BinaryOp::Mod => if r == 0 {
                None
            } else {
                Some(NumberOrBool::Number(l % r))
            },
            BinaryOp::Exp => Some(NumberOrBool::Number(wrapping_pow(l, amount))),
            BinaryOp::LooseEq => Some(NumberOrBool::Bool(l == r)),
            BinaryOp::LooseNe => Some(NumberOrBool::Bool(l != r)),
            BinaryOp::Eq => Some(NumberOrBool::Bool(l == r)),
            BinaryOp::Ne => Some(NumberOrBool::Bool(l != r)),
            BinaryOp::And => Some(NumberOrBool::Bool(left.as_bool() && right.as_bool())),
            BinaryOp::Or => Some(NumberOrBool::Bool(left.as_bool() || right.as_bool())),
            BinaryOp::Less => Some(NumberOrBool::Bool(l < r)),
            BinaryOp::LessEq => Some(NumberOrBool::Bool(l <= r)),
            BinaryOp::Greater => Some(NumberOrBool::Bool(l > r)),
            BinaryOp::GreaterEq => Some(NumberOrBool::Bool(l >= r)),
            BinaryOp::BitAnd => Some(NumberOrBool::Number(l & r)),
            BinaryOp::BitOr => Some(NumberOrBool::Number(l | r)),
            BinaryOp::BitXor => Some(NumberOrBool::Number(l ^ r)),
            BinaryOp::LeftShift => Some(NumberOrBool::Number(l.wrapping_shl(amount))),
            BinaryOp::RightShift => Some(NumberOrBool::Number(l.wrapping_shr(amount))),
            BinaryOp::RightShiftUnsigned => Some(NumberOrBool::Number(l.wrapping_shr(amount))),
        }
    }

    fn duplicate(&self) -> (r: Self) {
        *self
    }
}


/// A circuit: gates on the wires `0 .. size`, with the wires of its inputs,
/// constants and outputs.
#[derive(Debug)]
pub struct Circuit {
    /// The number of wires.
    pub size: usize,
    /// The constants with their wires, by rising wire.
    pub constants: Vec<(usize, ConstantValue)>,
    /// The inputs by name.
    pub inputs: NameMap<CircuitInput>,
    /// The wire of each output, by name.
    pub outputs: NameMap<usize>,
    pub mpc_settings: MpcSettings,
    /// All gates, each after those that write what it reads.
    pub gates: Vec<Gate>,
}

/// The values on the wires after the first `n` inputs, by rising name, got
/// the values that `given` has for their names; or the first input for
/// which `given` has none.
pub open spec fn wires_after_inputs<N>(
    wires: Seq<N>,
    inputs: Seq<(String, CircuitInput)>,
    given: NameMap<N>,
    n: int,
) -> Result<Seq<N>, CircuitError>
    decreases n,
{
    if n <= 0 {
        Ok(wires)
    } else {
        match wires_after_inputs(wires, inputs, given, n - 1) {
            Err(e) => Err(e),
            Ok(w) => if given.has(inputs[n - 1].0@) {
                Ok(w.update(inputs[n - 1].1.wire_id as int, given.value(inputs[n - 1].0@)))
            } else {
                Err(CircuitError::MissingInput((n - 1) as usize))
            },
        }
    }
}

/// The values on the wires after the first `n` constants were written.
pub open spec fn wires_after_constants<N: CircuitNumber>(
    wires: Seq<N>,
    constants: Seq<(usize, ConstantValue)>,
    n: int,
) -> Seq<N>
    decreases n,
{
    if n <= 0 {
        wires
    } else {
        wires_after_constants(wires, constants, n - 1).update(
            constants[n - 1].0 as int,
            N::spec_from_constant(constants[n - 1].1),
        )
    }
}

/// The values on the wires after a gate, if what it computes is defined.
pub open spec fn wires_after_gate<N: CircuitNumber>(wires: Seq<N>, gate: Gate) -> Option<Seq<N>> {
    match gate {
        Gate::Unary { op, input, output } => Some(
            wires.update(output as int, N::spec_unary_op(op, wires[input as int])),
        ),
        Gate::Binary { op, left, right, output } => match N::spec_binary_op(
            op,
            wires[left as int],
            wires[right as int],
        ) {
            Some(v) => Some(wires.update(output as int, v)),
            None => None,
        },
    }
}

/// The values on the wires after the first `n` gates, or the first gate
/// that computes nothing.
pub open spec fn wires_after_gates<N: CircuitNumber>(wires: Seq<N>, gates: Seq<Gate>, n: int) -> Result<
    Seq<N>,
    CircuitError,
>
    decreases n,
{
    if n <= 0 {
        Ok(wires)
    } else {
        match wires_after_gates(wires, gates, n - 1) {
            Err(e) => Err(e),
            Ok(w) => match wires_after_gate(w, gates[n - 1]) {
                Some(w2) => Ok(w2),
                None => Err(CircuitError::DivisionByZero((n - 1) as usize)),
            },
        }
    }
}

/// The depth of every wire after the first `n` gates: zero for what no gate
/// wrote, and for what a gate wrote one more than the deepest wire that it
/// read.
pub open spec fn depths_after(size: nat, gates: Seq<Gate>, n: int) -> Seq<nat>
    decreases n,
{
    if n <= 0 {
        Seq::new(size, |i: int| 0nat)
    } else {
        let d = depths_after(size, gates, n - 1);
        match gates[n - 1] {
            Gate::Unary { input, output, .. } => d.update(output as int, 1 + d[input as int]),
            Gate::Binary { left, right, output, .. } => d.update(
                output as int,
                1 + if d[left as int] >= d[right as int] {
                    d[left as int]
                } else {
                    d[right as int]
                },
            ),
        }
    }
}

/// The greatest depth among the wires of the first `n` outputs.
pub open spec fn deepest_output(depths: Seq<nat>, outputs: Seq<(String, usize)>, n: int) -> nat
    decreases n,
{
    if n <= 0 {
        0
    } else {
        let front = deepest_output(depths, outputs, n - 1);
        let d = depths[outputs[n - 1].1 as int];
        if d >= front {
            d
        } else {
            front
        }
    }
}

impl Circuit {
    /// Whether the circuit is sound: every wire that it names lies below
    /// its size, and its inputs and outputs are kept by name.
    pub open spec fn wf(&self) -> bool {
        &&& self.inputs.wf()
        &&& self.outputs.wf()
        &&& forall|i: int|
            0 <= i < self.inputs@.len() ==> (#[trigger] self.inputs@[i]).1.wire_id < self.size
        &&& forall|i: int|
            0 <= i < self.outputs@.len() ==> (#[trigger] self.outputs@[i]).1 < self.size
        &&& forall|i: int|
            0 <= i < self.constants@.len() ==> (#[trigger] self.constants@[i]).0 < self.size
        &&& forall|g: int|
            0 <= g < self.gates@.len() ==> (#[trigger] self.gates@[g]).spec_output() < self.size
                && forall|k: int|
                0 <= k < self.gates@[g].spec_operands().len() ==> #[trigger] self.gates@[g].spec_operands()[k]
                    < self.size
    }

    /// The values on all wires after the circuit was worked out on the
    /// inputs that `given` has, or why it cannot be.
    pub open spec fn spec_wires<N: CircuitNumber>(&self, given: NameMap<N>) -> Result<
        Seq<N>,
        CircuitError,
    > {
        let start = Seq::new(self.size as nat, |i: int| N::spec_zero());
        match wires_after_inputs(start, self.inputs@, given, self.inputs@.len() as int) {
            Err(e) => Err(e),
            Ok(w) => wires_after_gates(
                wires_after_constants(w, self.constants@, self.constants@.len() as int),
                self.gates@,
                self.gates@.len() as int,
            ),
        }
    }

    /// Works the circuit out on the inputs `inputs`, which must hold a value
    /// for the name of each input of the circuit: first the wires of the
    /// inputs get their values, then those of the constants, then every gate
    /// writes its wire. Gives the values on the output wires by the names of
    /// the outputs.
    pub fn eval<N: CircuitNumber>(&self, inputs: &NameMap<N>) -> (r: Result<
        NameMap<N>,
        CircuitError,
    >)
        requires
            self.wf(),
            inputs.wf(),
        ensures
            match self.spec_wires(*inputs) {
                Err(e) => r == Err::<NameMap<N>, CircuitError>(e),
                Ok(wires) => {
                    &&& r is Ok
                    &&& r->Ok_0.wf()
                    &&& forall|name: Seq<char>| r->Ok_0.has(name) <==> self.outputs.has(name)
                    &&& forall|name: Seq<char>|
                        self.outputs.has(name) ==> r->Ok_0.value(name) == wires[self.outputs.value(
                            name,
                        ) as int]
                },
            },
    {
        let mut wires: Vec<N> = Vec::new();
        let mut i: usize = 0;
        while i < self.size
            invariant
                i <= self.size,
                wires@.len() == i,
                forall|k: int| 0 <= k < i ==> #[trigger] wires@[k] == N::spec_zero(),
            decreases self.size - i,
        {
            wires.push(N::zero());
            i += 1;
        }
        assert(wires@ =~= Seq::new(self.size as nat, |i: int| N::spec_zero()));
        let ghost start = wires@;
        let mut i: usize = 0;
        while i < self.inputs.len()
            invariant
                i <= self.inputs@.len(),
                self.wf(),
                inputs.wf(),
                wires@.len() == self.size,
                start == Seq::new(self.size as nat, |i: int| N::spec_zero()),
                wires_after_inputs(start, self.inputs@, *inputs, i as int) == Ok::<
                    Seq<N>,
                    CircuitError,
                >(wires@),
            decreases self.inputs@.len() - i,
        {
            let entry = self.inputs.entry(i);
            match inputs.get(entry.0.as_str()) {
                None => {
                    proof {
                        assert(wires_after_inputs(start, self.inputs@, *inputs, i + 1) == Err::<
                            Seq<N>,
                            CircuitError,
                        >(CircuitError::MissingInput(i)));
                        lemma_inputs_error(start, self.inputs@, *inputs, i + 1, self.inputs@.len() as int);
                    }
                    return Err(CircuitError::MissingInput(i));
                },
                Some(value) => {
                    wires.set(entry.1.wire_id, value.duplicate());
                },
            }
            i += 1;
        }
        let ghost after_inputs = wires@;
        let mut i: usize = 0;
        while i < self.constants.len()
            invariant
                i <= self.constants@.len(),
                self.wf(),
                wires@.len() == self.size,
                wires_after_constants(after_inputs, self.constants@, i as int) == wires@,
            decreases self.constants@.len() - i,
        {
            let (wire, c) = self.constants[i];
            wires.set(wire, N::from_constant(&c));
            i += 1;
        }
        let ghost after_constants = wires@;
        let mut g: usize = 0;
        while g < self.gates.len()
            invariant
                g <= self.gates@.len(),
                self.wf(),
                wires@.len() == self.size,
                after_inputs.len() == self.size,
                after_constants == wires_after_constants(
                    after_inputs,
                    self.constants@,
                    self.constants@.len() as int,
                ),
                wires_after_inputs(start, self.inputs@, *inputs, self.inputs@.len() as int) == Ok::<
                    Seq<N>,
                    CircuitError,
                >(after_inputs),
                start == Seq::new(self.size as nat, |i: int| N::spec_zero()),
                wires_after_gates(after_constants, self.gates@, g as int) == Ok::<
                    Seq<N>,
                    CircuitError,
                >(wires@),
            decreases self.gates@.len() - g,
        {
            let gate = self.gates[g];
            proof {
                assert(self.gates@[g as int].spec_output() < self.size);
                let ops = self.gates@[g as int].spec_operands();
                assert(forall|k: int| 0 <= k < ops.len() ==> #[trigger] ops[k] < self.size);
                match gate {
                    Gate::Unary { input, .. } => {
                        assert(ops[0] == input);
                    },
                    Gate::Binary { left, right, .. } => {
                        assert(ops[0] == left);
                        assert(ops[1] == right);
                    },
                }
            }
            match gate {
                Gate::Unary { op, input, output } => {
                    let v = N::unary_op(op, &wires[input]);
                    wires.set(output, v);
                },
                Gate::Binary { op, left, right, output } => {
                    match N::binary_op(op, &wires[left], &wires[right]) {
                        Some(v) => {
                            wires.set(output, v);
                        },
                        None => {
                            proof {
                                lemma_gates_error(
                                    after_constants,
                                    self.gates@,
                                    g + 1,
                                    self.gates@.len() as int,
                                );
                            }
                            return Err(CircuitError::DivisionByZero(g));
                        },
                    }
                },
            }
            g += 1;
        }
        let mut res: NameMap<N> = NameMap::new();
        let mut i: usize = 0;
        while i < self.outputs.len()
            invariant
                i <= self.outputs@.len(),
                self.wf(),
                wires@.len() == self.size,
                res.wf(),
                forall|name: Seq<char>|
                    res.has(name) <==> exists|k: int|
                        0 <= k < i && (#[trigger] self.outputs@[k]).0@ == name,
                forall|k: int|
                    0 <= k < i ==> res.value((#[trigger] self.outputs@[k]).0@) == wires@[self.outputs@[k].1 as int],
            decreases self.outputs@.len() - i,
        {
            let entry = self.outputs.entry(i);
            let ghost old_res = res;
            res.insert(entry.0.clone(), wires[entry.1].duplicate());
            proof {
                let this = self.outputs@[i as int].0@;
                assert forall|name: Seq<char>|
                    res.has(name) <==> exists|k: int|
                        0 <= k < i + 1 && (#[trigger] self.outputs@[k]).0@ == name by {
                    if name != this {
                        assert(res.has(name) <==> old_res.has(name));
                    }
                    if res.has(name) && name == this {
                        assert(self.outputs@[i as int].0@ == name);
                    }
                }
                assert forall|k: int| 0 <= k < i + 1 implies res.value(
                    (#[trigger] self.outputs@[k]).0@,
                ) == wires@[self.outputs@[k].1 as int] by {
                    if k < i {
                        self.outputs.lemma_position(k);
                        self.outputs.lemma_position(i as int);
                        assert(self.outputs@[k].0@ != this);
                        assert(old_res.has(self.outputs@[k].0@));
                    }
                }
            }
            i += 1;
        }
        proof {
            assert forall|name: Seq<char>| res.has(name) <==> self.outputs.has(name) by {}
            assert forall|name: Seq<char>| self.outputs.has(name) implies res.value(name)
                == wires@[self.outputs.value(name) as int] by {
                let k = choose|k: int| 0 <= k < self.outputs@.len() && self.outputs@[k].0@ == name;
                self.outputs.lemma_position(k);
            }
        }
        Ok(res)
    }

    /// The depth of the circuit: the longest chain of gates that ends at an
    /// output wire.
    pub open spec fn spec_depth(&self) -> nat {
        deepest_output(
            depths_after(self.size as nat, self.gates@, self.gates@.len() as int),
            self.outputs@,
            self.outputs@.len() as int,
        )
    }

    /// The depth of the circuit: the longest chain of gates that ends at an
    /// output wire. Inputs and constants have the depth zero; what a gate
    /// writes has one more than the deepest wire that it reads.
    pub fn depth(&self) -> (r: usize)
        requires
            self.wf(),
        ensures
            r == self.spec_depth(),
    {
        let mut depths: Vec<usize> = Vec::new();
        let mut i: usize = 0;
        while i < self.size
            invariant
                i <= self.size,
                depths@.len() == i,
                forall|k: int| 0 <= k < i ==> #[trigger] depths@[k] == 0,
            decreases self.size - i,
        {
            depths.push(0);
            i += 1;
        }
        let ghost size = self.size as nat;
        assert(depths@.map_values(|d: usize| d as nat) =~= depths_after(size, self.gates@, 0));
        let mut g: usize = 0;
        while g < self.gates.len()
            invariant
                g <= self.gates@.len(),
                self.wf(),
                size == self.size,
                depths@.len() == self.size,
                depths@.map_values(|d: usize| d as nat) == depths_after(
                    size,
                    self.gates@,
                    g as int,
                ),
                forall|k: int| 0 <= k < depths@.len() ==> #[trigger] depths@[k] <= g,
            decreases self.gates@.len() - g,
        {
            let gate = self.gates[g];
            let ghost before = depths@;
            proof {
                assert(self.gates@[g as int].spec_output() < self.size);
                let ops = self.gates@[g as int].spec_operands();
                assert(forall|k: int| 0 <= k < ops.len() ==> #[trigger] ops[k] < self.size);
                match gate {
                    Gate::Unary { input, .. } => {
                        assert(ops[0] == input);
                    },
                    Gate::Binary { left, right, .. } => {
                        assert(ops[0] == left);
                        assert(ops[1] == right);
                    },
                }
            }
            match gate {
                Gate::Unary { op: _, input, output } => {
                    let d = 1 + depths[input];
                    depths.set(output, d);
                    assert(before.map_values(|d: usize| d as nat)[input as int] == before[input as int]);
                },
                Gate::Binary { op: _, left, right, output } => {
                    let l = depths[left];
                    let r = depths[right];
                    let d = 1 + if l >= r {
                        l
                    } else {
                        r
                    };
                    depths.set(output, d);
                    assert(before.map_values(|d: usize| d as nat)[left as int] == before[left as int]);
                    assert(before.map_values(|d: usize| d as nat)[right as int] == before[right as int]);
                },
            }
            assert(depths@.map_values(|d: usize| d as nat) =~= depths_after(
                size,
                self.gates@,
                g + 1,
            ));
            g += 1;
        }
        let ghost all = depths_after(size, self.gates@, self.gates@.len() as int);
        let mut deepest: usize = 0;
        let mut i: usize = 0;
        while i < self.outputs.len()
            invariant
                i <= self.outputs@.len(),
                self.wf(),
                depths@.len() == self.size,
                depths@.map_values(|d: usize| d as nat) == all,
                deepest == deepest_output(all, self.outputs@, i as int),
            decreases self.outputs@.len() - i,
        {
            let wire = self.outputs.entry(i).1;
            let d = depths[wire];
            assert(all[wire as int] == depths@[wire as int]);
            if d >= deepest {
                deepest = d;
            }
            i += 1;
        }
        deepest
    }
}

/// Once an input has no value, that input stays the first such.
proof fn lemma_inputs_error<N>(
    wires: Seq<N>,
    inputs: Seq<(String, CircuitInput)>,
    given: NameMap<N>,
    n: int,
    m: int,
)
    requires
        0 < n <= m <= inputs.len(),
        wires_after_inputs(wires, inputs, given, n) is Err,
    ensures
        wires_after_inputs(wires, inputs, given, m) == wires_after_inputs(wires, inputs, given, n),
    decreases m - n,
{
    if n < m {
        lemma_inputs_error(wires, inputs, given, n, m - 1);
    }
}

/// Once a gate computes nothing, that gate stays the first such.
proof fn lemma_gates_error<N: CircuitNumber>(wires: Seq<N>, gates: Seq<Gate>, n: int, m: int)
    requires
        0 < n <= m <= gates.len(),
        wires_after_gates(wires, gates, n) is Err,
    ensures
        wires_after_gates(wires, gates, m) == wires_after_gates(wires, gates, n),
    decreases m - n,
{
    if n < m {
        lemma_gates_error(wires, gates, n, m - 1);
    }
}


/// What is known of a constant of a circuit.
#[derive(Debug, Clone)]
pub struct ConstantInfo {
    pub name: String,
    pub type_: VsType,
    pub value: ConstantValue,
    pub address: usize,
    pub width: usize,
}

/// What a [`ConstantInfo`] holds.
pub struct ConstantInfoView {
    pub name: Seq<char>,
    pub type_: VsType,
    pub value: ConstantValue,
    pub address: usize,
    pub width: usize,
}

impl View for ConstantInfo {
    type V = ConstantInfoView;

    open spec fn view(&self) -> ConstantInfoView {
        ConstantInfoView {
            name: self.name@,
            type_: self.type_,
            value: self.value,
            address: self.address,
            width: self.width,
        }
    }
}

/// What is known of an input or an output of a circuit.
#[derive(Debug, Clone)]
pub struct IOInfo {
    pub name: String,
    pub type_: VsType,
    pub address: usize,
    pub width: usize,
}

/// What an [`IOInfo`] holds.
pub struct IOInfoView {
    pub name: Seq<char>,
    pub type_: VsType,
    pub address: usize,
    pub width: usize,
}

impl View for IOInfo {
    type V = IOInfoView;

    open spec fn view(&self) -> IOInfoView {
        IOInfoView { name: self.name@, type_: self.type_, address: self.address, width: self.width }
    }
}

/// What is known of the constants, inputs and outputs of a circuit.
#[derive(Debug, Clone)]
pub struct CircuitInfo {
    pub constants: Vec<ConstantInfo>,
    pub inputs: Vec<IOInfo>,
    pub outputs: Vec<IOInfo>,
}

/// A circuit in Bristol form with what is known of its wires.
#[derive(Debug, Clone)]
pub struct BristolExport {
    pub circuit: BristolCircuit,
    pub info: CircuitInfo,
}

/// The text of a constant in JSON: `true`, `false`, or the decimal digits of
/// a number.
pub open spec fn constant_text(c: ConstantValue) -> Seq<char> {
    match c {
        ConstantValue::Bool(b) => if b {
            seq!['t', 'r', 'u', 'e']
        } else {
            seq!['f', 'a', 'l', 's', 'e']
        },
        ConstantValue::Number(n) => decimal(n as nat),
    }
}

/// The text of a boolean in JSON, as `serde_json` writes it: `Value::from`
/// gives the JSON value of the boolean, and `to_string` writes that value in
/// compact form, which is `true` or `false`.
#[verifier::external_body]
fn json_bool_text(b: bool) -> (s: String)
    ensures
        s@ == constant_text(ConstantValue::Bool(b)),
{
    serde_json::Value::from(b).to_string()
}

/// The text of a number without sign in JSON, as `serde_json` writes it:
/// `Value::from` gives the JSON value of the number, and `to_string` writes
/// that value in compact form, which is its decimal digits.
#[verifier::external_body]
fn json_number_text(n: usize) -> (s: String)
    ensures
        s@ == constant_text(ConstantValue::Number(n)),
{
    serde_json::Value::from(n).to_string()
}

/// The text of a constant in JSON.
fn json_text(value: &ConstantValue) -> (s: String)
    ensures
        s@ == constant_text(*value),
{
    match value {
        ConstantValue::Bool(b) => json_bool_text(*b),
        ConstantValue::Number(n) => json_number_text(*n),
    }
}

/// What is known of the constant `value` on the wire `address`.
pub open spec fn constant_info(address: usize, value: ConstantValue) -> ConstantInfoView {
    ConstantInfoView {
        name: "constant_"@ + constant_text(value),
        type_: match value {
            ConstantValue::Bool(_) => VsType::Bool,
            ConstantValue::Number(_) => VsType::Number,
        },
        value,
        address,
        width: 1,
    }
}

/// The first position at or after `from` whose address is above `address`.
pub open spec fn insert_point(s: Seq<IOInfoView>, address: usize, from: int) -> int
    decreases s.len() - from,
{
    if from < 0 || from >= s.len() {
        s.len() as int
    } else if s[from].address > address {
        from
    } else {
        insert_point(s, address, from + 1)
    }
}

/// The entries of `s` by rising address; entries with one address stay in
/// their order.
pub open spec fn sort_by_address(s: Seq<IOInfoView>) -> Seq<IOInfoView>
    decreases s.len(),
{
    if s.len() == 0 {
        Seq::empty()
    } else {
        let front = sort_by_address(s.drop_last());
        front.insert(insert_point(front, s.last().address, 0), s.last())
    }
}

/// The views of a list of entries.
pub open spec fn io_views(s: Seq<IOInfo>) -> Seq<IOInfoView> {
    s.map_values(|e: IOInfo| e@)
}

/// The header line for `n` inputs or outputs of one wire each: `n`, then a
/// one for each.
pub open spec fn io_line(n: nat) -> Seq<char> {
    join_words(seq![decimal(n)] + Seq::new(n, |i: int| seq!['1']))
}

/// A gate in Bristol form.
pub open spec fn bristol_gate(gate: Gate) -> GateView {
    match gate {
        Gate::Unary { op, input, output } => GateView {
            k: 1,
            l: 1,
            ins: seq![input],
            outs: seq![output],
            op: unary_mnemonic(op),
        },
        Gate::Binary { op, left, right, output } => GateView {
            k: 2,
            l: 1,
            ins: seq![left, right],
            outs: seq![output],
            op: binary_mnemonic(op),
        },
    }
}

/// Adds `entry` to `sorted` at its place by address, after the entries
/// with the same address.
fn insert_sorted(sorted: &mut Vec<IOInfo>, entry: IOInfo)
    ensures
        io_views(final(sorted)@) == io_views(old(sorted)@).insert(
            insert_point(io_views(old(sorted)@), entry.address, 0),
            entry@,
        ),
{
    let ghost views = io_views(sorted@);
    let mut i: usize = 0;
    while i < sorted.len() && sorted[i].address <= entry.address
        invariant
            i <= sorted.len(),
            views == io_views(sorted@),
            insert_point(views, entry.address, 0) == insert_point(views, entry.address, i as int),
        decreases sorted.len() - i,
    {
        assert(views[i as int] == sorted@[i as int]@);
        i += 1;
    }
    proof {
        if i < sorted.len() {
            assert(views[i as int] == sorted@[i as int]@);
        }
    }
    sorted.insert(i, entry);
    assert(io_views(sorted@) =~= views.insert(i as int, entry@));
}

/// The line for `n` inputs or outputs.
fn io_line_text(n: usize) -> (s: String)
    ensures
        s@ == io_line(n as nat),
{
    let mut line: Vec<char> = Vec::new();
    push_decimal(&mut line, n);
    let ghost head = seq![decimal(n as nat)];
    let mut i: usize = 0;
    assert(head + Seq::new(0nat, |i: int| seq!['1']) =~= head);
    proof {
        reveal_with_fuel(join_words, 2);
    }
    while i < n
        invariant
            i <= n,
            head == seq![decimal(n as nat)],
            line@ == join_words(head + Seq::new(i as nat, |k: int| seq!['1'])),
        decreases n - i,
    {
        line.push(' ');
        line.push('1');
        proof {
            let a = head + Seq::new(i as nat, |k: int| seq!['1']);
            let b = head + Seq::new((i + 1) as nat, |k: int| seq!['1']);
            assert(b =~= a.push(seq!['1']));
            assert(b.drop_last() =~= a);
            assert(line@ =~= join_words(b));
        }
        i += 1;
    }
    assert(line@.subrange(0, line@.len() as int) =~= line@);
    string_of(&line, 0, line.len())
}

impl Circuit {
    /// What is known of the inputs, before they are put in order.
    pub open spec fn input_entries(&self) -> Seq<IOInfoView> {
        self.inputs@.map_values(
            |e: (String, CircuitInput)|
                IOInfoView { name: e.0@, type_: e.1.type_, address: e.1.wire_id, width: 1 },
        )
    }

    /// What is known of the outputs, before they are put in order.
    pub open spec fn output_entries(&self) -> Seq<IOInfoView> {
        self.outputs@.map_values(
            |e: (String, usize)|
                IOInfoView { name: e.0@, type_: VsType::Number, address: e.1, width: 1 },
        )
    }

    /// The circuit in Bristol form. Its header has the numbers of gates and
    /// of wires, a line for the inputs and one for the outputs, each of one
    /// wire, and an empty line.
    pub open spec fn spec_bristol(&self) -> CircuitView {
        CircuitView {
            header: HeaderView {
                raw: seq![
                    count_line(self.gates@.len() as usize, self.size),
                    io_line(self.inputs@.len()),
                    io_line(self.outputs@.len()),
                    Seq::empty(),
                ],
                ngates: self.gates@.len() as usize,
                nwires: self.size,
            },
            gates: self.gates@.map_values(|g: Gate| bristol_gate(g)),
        }
    }

    /// The circuit in Bristol form, with what is known of its wires: the
    /// constants by rising wire, each named after its value; the inputs and
    /// the outputs by rising wire, those on one wire by rising name.
    pub fn to_bristol(&self) -> (r: BristolExport)
        ensures
            r.circuit@ == self.spec_bristol(),
            r.info.constants@.len() == self.constants@.len(),
            forall|i: int|
                0 <= i < self.constants@.len() ==> (#[trigger] r.info.constants@[i])@
                    == constant_info(self.constants@[i].0, self.constants@[i].1),
            io_views(r.info.inputs@) == sort_by_address(self.input_entries()),
            io_views(r.info.outputs@) == sort_by_address(self.output_entries()),
    {
        let mut gates: Vec<crate::bristol::Gate> = Vec::new();
        let mut g: usize = 0;
        while g < self.gates.len()
            invariant
                g <= self.gates@.len(),
                crate::bristol::gate_views(gates@) == self.gates@.take(g as int).map_values(
                    |g: Gate| bristol_gate(g),
                ),
            decreases self.gates@.len() - g,
        {
            let ghost before = crate::bristol::gate_views(gates@);
            let gate = match self.gates[g] {
                Gate::Unary { op, input, output } => {
                    let mut ins: Vec<usize> = Vec::new();
                    ins.push(input);
                    let mut outs: Vec<usize> = Vec::new();
                    outs.push(output);
                    assert(ins@ =~= seq![input]);
                    assert(outs@ =~= seq![output]);
                    crate::bristol::Gate { k: 1, l: 1, ins, outs, op: to_bristol_unary_op(op) }
                },
                Gate::Binary { op, left, right, output } => {
                    let mut ins: Vec<usize> = Vec::new();
                    ins.push(left);
                    ins.push(right);
                    let mut outs: Vec<usize> = Vec::new();
                    outs.push(output);
                    assert(ins@ =~= seq![left, right]);
                    assert(outs@ =~= seq![output]);
                    crate::bristol::Gate { k: 2, l: 1, ins, outs, op: to_bristol_binary_op(op) }
                },
            };
            assert(gate@ == bristol_gate(self.gates@[g as int]));
            gates.push(gate);
            proof {
                assert(crate::bristol::gate_views(gates@) =~= before.push(
                    bristol_gate(self.gates@[g as int]),
                ));
                assert(self.gates@.take(g + 1) =~= self.gates@.take(g as int).push(
                    self.gates@[g as int],
                ));
                assert(self.gates@.take(g + 1).map_values(|g: Gate| bristol_gate(g))
                    =~= before.push(bristol_gate(self.gates@[g as int])));
            }
            g += 1;
        }
        assert(self.gates@.take(g as int) =~= self.gates@);

        let mut constants: Vec<ConstantInfo> = Vec::new();
        let mut i: usize = 0;
        while i < self.constants.len()
            invariant
                i <= self.constants@.len(),
                constants@.len() == i,
                forall|k: int|
                    0 <= k < i ==> (#[trigger] constants@[k])@ == constant_info(
                        self.constants@[k].0,
                        self.constants@[k].1,
                    ),
            decreases self.constants@.len() - i,
        {
            let (address, value) = self.constants[i];
            let mut name = String::from_str("constant_");
            let text = json_text(&value);
            name.append(text.as_str());
            constants.push(
                ConstantInfo {
                    name,
                    type_: match value {
                        ConstantValue::Bool(_) => VsType::Bool,
                        ConstantValue::Number(_) => VsType::Number,
                    },
                    value,
                    address,
                    width: 1,
                },
            );
            i += 1;
        }

        let mut inputs: Vec<IOInfo> = Vec::new();
        let mut i: usize = 0;
        assert(self.input_entries().take(0) =~= Seq::<IOInfoView>::empty());
        assert(io_views(inputs@) =~= Seq::<IOInfoView>::empty());
        while i < self.inputs.len()
            invariant
                i <= self.inputs@.len(),
                io_views(inputs@) == sort_by_address(self.input_entries().take(i as int)),
            decreases self.inputs@.len() - i,
        {
            let entry = self.inputs.entry(i);
            let info = IOInfo {
                name: entry.0.clone(),
                type_: entry.1.type_,
                address: entry.1.wire_id,
                width: 1,
            };
            proof {
                let upto = self.input_entries().take(i + 1);
                assert(upto.drop_last() =~= self.input_entries().take(i as int));
                assert(upto.last() == info@);
            }
            insert_sorted(&mut inputs, info);
            i += 1;
        }
        assert(self.input_entries().take(i as int) =~= self.input_entries());

        let mut outputs: Vec<IOInfo> = Vec::new();
        let mut i: usize = 0;
        assert(self.output_entries().take(0) =~= Seq::<IOInfoView>::empty());
        assert(io_views(outputs@) =~= Seq::<IOInfoView>::empty());
        while i < self.outputs.len()
            invariant
                i <= self.outputs@.len(),
                io_views(outputs@) == sort_by_address(self.output_entries().take(i as int)),
            decreases self.outputs@.len() - i,
        {
            let entry = self.outputs.entry(i);
            let info = IOInfo {
                name: entry.0.clone(),
                type_: VsType::Number,
                address: entry.1,
                width: 1,
            };
            proof {
                let upto = self.output_entries().take(i + 1);
                assert(upto.drop_last() =~= self.output_entries().take(i as int));
                assert(upto.last() == info@);
            }
            insert_sorted(&mut outputs, info);
            i += 1;
        }
        assert(self.output_entries().take(i as int) =~= self.output_entries());

        let mut first: Vec<char> = Vec::new();
        push_decimal(&mut first, self.gates.len());
        first.push(' ');
        push_decimal(&mut first, self.size);
        proof {
            reveal_with_fuel(join_words, 3);
            assert(first@ =~= count_line(self.gates@.len() as usize, self.size));
            assert(first@.subrange(0, first@.len() as int) =~= first@);
        }
        let mut raw: Vec<String> = Vec::new();
        raw.push(string_of(&first, 0, first.len()));
        raw.push(io_line_text(self.inputs.len()));
        raw.push(io_line_text(self.outputs.len()));
        raw.push(String::new());
        assert(crate::text::string_views(raw@) =~= self.spec_bristol().header.raw);
        let header = Header::new(raw, self.gates.len(), self.size);
        BristolExport {
            circuit: BristolCircuit { header, gates },
            info: CircuitInfo { constants, inputs, outputs },
        }
    }
}

} // verus!
