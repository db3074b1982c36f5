//! The object through which a program declares the inputs, the outputs and
//! the parties of its circuit.

use crate::circuit_signal::{extends, spec_add, CircuitSignal, CircuitSignalData, SignalArena};
use crate::ops::VsType;
use crate::vs_value::{ObjectKind, Val};
use vstd::prelude::*;
use vstd::string::StringExecFns;

verus! {

/// An input of the circuit: the party that it comes from, its name, and
/// the identifier of its signal.
#[derive(Debug, Clone)]
pub struct InputDescriptor {
    pub from: String,
    pub name: String,
    pub id: usize,
}

/// The kind of an error that the program is told of.
#[derive(Debug, Clone, Copy, PartialEq, Eq, Structural)]
pub enum HostErrorKind {
    TypeError,
    Error,
    InternalError,
}

/// An error that the program is told of.
#[derive(Debug, Clone)]
pub struct HostError {
    pub kind: HostErrorKind,
    pub message: String,
}

/// The operations that a program can ask of the object.
#[derive(Debug, Clone, Copy, PartialEq, Eq, Structural)]
pub enum IoMethod {
    Input,
    InputPublic,
    Output,
    OutputPublic,
    AddParty,
}

/// What the object has collected.
#[derive(Debug)]
pub struct SummonIOData {
    /// The inputs, in the order in which they were declared.
    pub inputs: Vec<InputDescriptor>,
    /// The public inputs that the caller gave, by name.
    pub public_inputs: Vec<(String, Val)>,
    /// The names of the public inputs that the program asked for.
    pub public_inputs_used: Vec<String>,
    /// The public outputs, in the order in which their names came first.
    pub public_outputs: Vec<(String, Val)>,
    /// The parties, in the order in which they came first.
    pub parties: Vec<String>,
}

/// The object that a program declares its inputs and outputs with.
#[derive(Debug)]
pub struct SummonIO {
    pub data: SummonIOData,
}

/// Whether `name` is among the names `names`.
pub open spec fn has_name(names: Seq<String>, name: Seq<char>) -> bool {
    exists|i: int| 0 <= i < names.len() && (#[trigger] names[i])@ == name
}

/// Whether an input is named `name`.
pub open spec fn has_input(inputs: Seq<InputDescriptor>, name: Seq<char>) -> bool {
    exists|i: int| 0 <= i < inputs.len() && (#[trigger] inputs[i]).name@ == name
}

/// The first position with the name `name` among named values, if there is
/// one.
pub open spec fn find_named(entries: Seq<(String, Val)>, name: Seq<char>, n: int) -> Option<int>
    decreases n,
{
    if n <= 0 {
        None
    } else {
        match find_named(entries, name, n - 1) {
            Some(i) => Some(i),
            None => if entries[n - 1].0@ == name {
                Some(n - 1)
            } else {
                None
            },
        }
    }
}

/// Whether `names` holds `name`.
fn contains_name(names: &Vec<String>, name: &String) -> (r: bool)
    ensures
        r == has_name(names@, name@),
{
    let mut i: usize = 0;
    while i < names.len()
        invariant
            i <= names.len(),
            forall|k: int| 0 <= k < i ==> (#[trigger] names@[k])@ != name@,
        decreases names.len() - i,
    {
        if names[i] == *name {
            return true;
        }
        i += 1;
    }
    false
}

/// The first position with the name `name`.
fn position_named(entries: &Vec<(String, Val)>, name: &String) -> (r: Option<usize>)
    ensures
        match r {
            Some(i) => find_named(entries@, name@, entries@.len() as int) == Some(i as int) && i
                < entries@.len() && entries@[i as int].0@ == name@,
            None => find_named(entries@, name@, entries@.len() as int) is None,
        },
{
    let mut i: usize = 0;
    while i < entries.len()
        invariant
            i <= entries.len(),
            find_named(entries@, name@, i as int) is None,
        decreases entries.len() - i,
    {
        if entries[i].0 == *name {
            proof {
                lemma_find_named_found(entries@, name@, i + 1, entries@.len() as int);
            }
            return Some(i);
        }
        i += 1;
    }
    None
}

proof fn lemma_find_named_found(entries: Seq<(String, Val)>, name: Seq<char>, n: int, m: int)
    requires
        0 < n <= m <= entries.len(),
        find_named(entries, name, n) == Some(n - 1),
    ensures
        find_named(entries, name, m) == Some(n - 1),
    decreases m - n,
{
    if n < m {
        lemma_find_named_found(entries, name, n, m - 1);
    }
}

impl SummonIOData {
    /// Names a party, if it is not named yet.
    pub fn add_party(&mut self, party: String)
        ensures
            final(self).parties@ == if has_name(old(self).parties@, party@) {
                old(self).parties@
            } else {
                old(self).parties@.push(party)
            },
            final(self).inputs == old(self).inputs,
            final(self).public_inputs == old(self).public_inputs,
            final(self).public_inputs_used == old(self).public_inputs_used,
            final(self).public_outputs == old(self).public_outputs,
    {
        if contains_name(&self.parties, &party) {
            return ;
        }
        self.parties.push(party);
    }
}

/// The names of those of the first `n` public inputs that the program did
/// not ask for, in order.
pub open spec fn unused_names(data: SummonIOData, n: int) -> Seq<Seq<char>>
    decreases n,
{
    if n <= 0 {
        Seq::empty()
    } else {
        let front = unused_names(data, n - 1);
        let name = data.public_inputs@[n - 1].0@;
        if has_name(data.public_inputs_used@, name) {
            front
        } else {
            front.push(name)
        }
    }
}

impl SummonIO {
    /// An object with the public inputs `public_inputs` and nothing else
    /// yet.
    pub fn new(public_inputs: Vec<(String, Val)>) -> (io: Self)
        ensures
            io.data.public_inputs == public_inputs,
            io.data.inputs@.len() == 0,
            io.data.public_inputs_used@.len() == 0,
            io.data.public_outputs@.len() == 0,
            io.data.parties@.len() == 0,
    {
        SummonIO {
            data: SummonIOData {
                inputs: Vec::new(),
                public_inputs,
                public_inputs_used: Vec::new(),
                public_outputs: Vec::new(),
                parties: Vec::new(),
            },
        }
    }

    /// The names of the public inputs that the program did not ask for, in
    /// the order in which the caller gave them.
    pub fn unused_public_inputs(&self) -> (r: Vec<String>)
        ensures
            crate::text::string_views(r@) == unused_names(
                self.data,
                self.data.public_inputs@.len() as int,
            ),
    {
        let mut r: Vec<String> = Vec::new();
        let mut i: usize = 0;
        assert(crate::text::string_views(r@) =~= Seq::<Seq<char>>::empty());
        while i < self.data.public_inputs.len()
            invariant
                i <= self.data.public_inputs.len(),
                crate::text::string_views(r@) == unused_names(self.data, i as int),
            decreases self.data.public_inputs.len() - i,
        {
            let name = &self.data.public_inputs[i].0;
            if !contains_name(&self.data.public_inputs_used, name) {
                let ghost before = crate::text::string_views(r@);
                r.push(name.clone());
                assert(crate::text::string_views(r@) =~= before.push(name@));
            }
            i += 1;
        }
        r
    }

    /// The identifiers of the input signals, in the order in which the
    /// inputs were declared.
    pub fn input_ids(&self) -> (r: Vec<usize>)
        ensures
            r@ == self.data.inputs@.map_values(|d: InputDescriptor| d.id),
    {
        let mut r: Vec<usize> = Vec::new();
        let mut i: usize = 0;
        while i < self.data.inputs.len()
            invariant
                i <= self.data.inputs.len(),
                r@ == self.data.inputs@.take(i as int).map_values(|d: InputDescriptor| d.id),
            decreases self.data.inputs.len() - i,
        {
            r.push(self.data.inputs[i].id);
            assert(self.data.inputs@.take(i + 1) =~= self.data.inputs@.take(i as int).push(
                self.data.inputs@[i as int],
            ));
            assert(r@ =~= self.data.inputs@.take(i + 1).map_values(|d: InputDescriptor| d.id));
            i += 1;
        }
        assert(self.data.inputs@.take(i as int) =~= self.data.inputs@);
        r
    }
}

/// An error of the kind `kind` with the message `message`.
fn host_error(kind: HostErrorKind, message: &str) -> (e: HostError)
    ensures
        e.kind == kind,
        e.message@ == message@,
{
    HostError { kind, message: String::from_str(message) }
}

/// An error of the kind `kind` whose message is `before`, then `name`, then
/// a closing quotation mark.
fn quoting_error(kind: HostErrorKind, before: &str, name: &String) -> (e: HostError)
    ensures
        e.kind == kind,
        e.message@ == before@ + name@ + "\""@,
{
    let mut message = String::from_str(before);
    message.append(name.as_str());
    message.append("\"");
    HostError { kind, message }
}

/// Whether the value is the description of the type `number`.
pub open spec fn is_number_type(v: Val) -> bool {
    v == Val::Object(ObjectKind::NumberType)
}

/// Whether the inputs and the parties fit the signals of an arena and each
/// other: every input has its own name and an input signal of its own, older
/// inputs have older signals, the party of every input is named, and no
/// party and no public output is named twice.
pub open spec fn io_ok(data: SummonIOData, signals: Seq<CircuitSignal>) -> bool {
    &&& forall|i: int|
        0 <= i < data.inputs@.len() ==> (#[trigger] data.inputs@[i]).id < signals.len()
            && signals[data.inputs@[i].id as int].data is Input && has_name(
            data.parties@,
            data.inputs@[i].from@,
        )
    &&& forall|i: int, j: int|
        0 <= i < j < data.inputs@.len() ==> (#[trigger] data.inputs@[i]).name@
            != (#[trigger] data.inputs@[j]).name@ && data.inputs@[i].id < data.inputs@[j].id
    &&& forall|i: int, j: int|
        0 <= i < j < data.parties@.len() ==> (#[trigger] data.parties@[i])@
            != (#[trigger] data.parties@[j])@
    &&& forall|i: int, j: int|
        0 <= i < j < data.public_outputs@.len() ==> (#[trigger] data.public_outputs@[i]).0@
            != (#[trigger] data.public_outputs@[j]).0@
}

/// Whether no name stands twice among `names`.
fn names_differ(names: &Vec<String>) -> (r: bool)
    ensures
        r == (forall|i: int, j: int|
            0 <= i < j < names@.len() ==> (#[trigger] names@[i])@ != (#[trigger] names@[j])@),
{
    let mut j: usize = 0;
    while j < names.len()
        invariant
            j <= names@.len(),
            forall|a: int, b: int|
                0 <= a < b < j ==> (#[trigger] names@[a])@ != (#[trigger] names@[b])@,
        decreases names@.len() - j,
    {
        let mut i: usize = 0;
        while i < j
            invariant
                i <= j < names@.len(),
                forall|a: int| 0 <= a < i ==> (#[trigger] names@[a])@ != names@[j as int]@,
            decreases j - i,
        {
            if names[i] == names[j] {
                return false;
            }
            i += 1;
        }
        j += 1;
    }
    true
}

/// The names of the inputs, in their order.
fn input_names(inputs: &Vec<InputDescriptor>) -> (r: Vec<String>)
    ensures
        r@.len() == inputs@.len(),
        forall|i: int| 0 <= i < r@.len() ==> (#[trigger] r@[i])@ == inputs@[i].name@,
{
    let mut r: Vec<String> = Vec::new();
    let mut i: usize = 0;
    while i < inputs.len()
        invariant
            i <= inputs@.len(),
            r@.len() == i,
            forall|k: int| 0 <= k < i ==> (#[trigger] r@[k])@ == inputs@[k].name@,
        decreases inputs@.len() - i,
    {
        r.push(inputs[i].name.clone());
        i += 1;
    }
    r
}

/// The names of named values, in their order.
fn entry_names(entries: &Vec<(String, Val)>) -> (r: Vec<String>)
    ensures
        r@.len() == entries@.len(),
        forall|i: int| 0 <= i < r@.len() ==> (#[trigger] r@[i])@ == entries@[i].0@,
{
    let mut r: Vec<String> = Vec::new();
    let mut i: usize = 0;
    while i < entries.len()
        invariant
            i <= entries@.len(),
            r@.len() == i,
            forall|k: int| 0 <= k < i ==> (#[trigger] r@[k])@ == entries@[k].0@,
        decreases entries@.len() - i,
    {
        r.push(entries[i].0.clone());
        i += 1;
    }
    r
}

/// Whether every input has an input signal of `arena` and a party that is
/// known, and the identifiers of the inputs rise.
fn inputs_fit(data: &SummonIOData, arena: &SignalArena) -> (r: bool)
    ensures
        r == ((forall|i: int|
            0 <= i < data.inputs@.len() ==> (#[trigger] data.inputs@[i]).id < arena@.len()
                && arena@[data.inputs@[i].id as int].data is Input && has_name(
                data.parties@,
                data.inputs@[i].from@,
            )) && (forall|i: int, j: int|
            0 <= i < j < data.inputs@.len() ==> (#[trigger] data.inputs@[i]).id
                < (#[trigger] data.inputs@[j]).id)),
{
    let mut i: usize = 0;
    while i < data.inputs.len()
        invariant
            i <= data.inputs@.len(),
            forall|k: int|
                0 <= k < i ==> (#[trigger] data.inputs@[k]).id < arena@.len()
                    && arena@[data.inputs@[k].id as int].data is Input && has_name(
                    data.parties@,
                    data.inputs@[k].from@,
                ),
            forall|a: int, b: int|
                0 <= a < b < i ==> (#[trigger] data.inputs@[a]).id < (#[trigger] data.inputs@[b]).id,
        decreases data.inputs@.len() - i,
    {
        let d = &data.inputs[i];
        if d.id >= arena.len() {
            return false;
        }
        match arena.get(d.id).data {
            CircuitSignalData::Input => {},
            _ => {
                return false;
            },
        }
        if !contains_name(&data.parties, &d.from) {
            return false;
        }
        if i > 0 && data.inputs[i - 1].id >= d.id {
            assert(!(data.inputs@[i - 1].id < data.inputs@[i as int].id));
            return false;
        }
        i += 1;
    }
    true
}

/// What is to be said of the arguments of `input`, in the order in which
/// they are looked at.
pub enum InputCheck {
    TooFew,
    FromNoString,
    NameNoString,
    NoNumberType,
    Fine,
}

/// Looks at the arguments `(from, name, type)` of `input`.
pub open spec fn check_input(params: Seq<Val>) -> InputCheck {
    if params.len() < 3 {
        InputCheck::TooFew
    } else if !(params[0] is String) {
        InputCheck::FromNoString
    } else if !(params[1] is String) {
        InputCheck::NameNoString
    } else if !is_number_type(params[2]) {
        InputCheck::NoNumberType
    } else {
        InputCheck::Fine
    }
}

/// The message for a public input that the program asks for and that was
/// not given: it quotes the name.
pub open spec fn missing_public_input(name: Seq<char>) -> Seq<char> {
    "Missing public input: \""@ + name + "\""@
}

/// What is to be said of the arguments of `inputPublic`.
pub enum PublicInputCheck {
    TooFew,
    NameNoString,
    NoNumberType,
    Fine,
}

/// Looks at the arguments `(name, type)` of `inputPublic`.
pub open spec fn check_public_input(params: Seq<Val>) -> PublicInputCheck {
    if params.len() < 2 {
        PublicInputCheck::TooFew
    } else if !(params[0] is String) {
        PublicInputCheck::NameNoString
    } else if !is_number_type(params[1]) {
        PublicInputCheck::NoNumberType
    } else {
        PublicInputCheck::Fine
    }
}

/// What is to be said of the arguments of `outputPublic`.
pub enum PublicOutputCheck {
    TooFew,
    NameNoString,
    NoNumber,
    Fine,
}

/// Looks at the arguments `(name, value)` of `outputPublic`.
pub open spec fn check_public_output(params: Seq<Val>) -> PublicOutputCheck {
    if params.len() < 2 {
        PublicOutputCheck::TooFew
    } else if !(params[0] is String) {
        PublicOutputCheck::NameNoString
    } else if params[1].spec_typeof() != VsType::Number {
        PublicOutputCheck::NoNumber
    } else {
        PublicOutputCheck::Fine
    }
}

impl SummonIO {
    /// Whether the object fits the signals of an arena.
    pub open spec fn wf(&self, signals: Seq<CircuitSignal>) -> bool {
        io_ok(self.data, signals)
    }

    /// Whether what has been collected is sound for the signals of `arena`.
    pub fn is_sound(&self, arena: &SignalArena) -> (r: bool)
        ensures
            r == self.wf(arena@),
    {
        if !inputs_fit(&self.data, arena) {
            return false;
        }
        let inputs = input_names(&self.data.inputs);
        if !names_differ(&inputs) {
            proof {
                let (i, j) = choose|i: int, j: int|
                    0 <= i < j < inputs@.len() && (#[trigger] inputs@[i])@ == (
                    #[trigger] inputs@[j])@;
                assert(self.data.inputs@[i].name@ == self.data.inputs@[j].name@);
            }
            return false;
        }
        if !names_differ(&self.data.parties) {
            return false;
        }
        let outputs = entry_names(&self.data.public_outputs);
        if !names_differ(&outputs) {
            proof {
                let (i, j) = choose|i: int, j: int|
                    0 <= i < j < outputs@.len() && (#[trigger] outputs@[i])@ == (
                    #[trigger] outputs@[j])@;
                assert(self.data.public_outputs@[i].0@ == self.data.public_outputs@[j].0@);
            }
            return false;
        }
        assert forall|i: int, j: int| 0 <= i < j < self.data.inputs@.len() implies (
        #[trigger] self.data.inputs@[i]).name@ != (#[trigger] self.data.inputs@[j]).name@ by {
            assert(inputs@[i]@ != inputs@[j]@);
        }
        assert forall|i: int, j: int| 0 <= i < j < self.data.public_outputs@.len() implies (
        #[trigger] self.data.public_outputs@[i]).0@ != (#[trigger] self.data.public_outputs@[j]).0@ by {
            assert(outputs@[i]@ != outputs@[j]@);
        }
        true
    }

    /// `input(from, name, type)`: declares an input named `name` that comes
    /// from the party `from`, and gives its signal. The type must be the
    /// description of `number`. The signal is made before the name is looked
    /// up; a name that is taken leaves the inputs as they are.
    pub fn input(&mut self, arena: &mut SignalArena, params: &Vec<Val>) -> (r: Result<Val, HostError>)
        requires
            old(self).wf(old(arena)@),
            old(arena).wf(),
        ensures
            final(arena).wf(),
            final(self).wf(final(arena)@),
            extends(final(arena)@, old(arena)@),
            final(self).data.public_inputs == old(self).data.public_inputs,
            final(self).data.public_inputs_used == old(self).data.public_inputs_used,
            final(self).data.public_outputs == old(self).data.public_outputs,
            match check_input(params@) {
                InputCheck::TooFew => {
                    &&& r is Err
                    &&& r->Err_0.kind == HostErrorKind::TypeError
                    &&& r->Err_0.message@ == "Params (from, name, type) not provided"@
                    &&& final(arena)@ == old(arena)@
                    &&& final(self).data == old(self).data
                },
                InputCheck::FromNoString => {
                    &&& r is Err
                    &&& r->Err_0.kind == HostErrorKind::TypeError
                    &&& r->Err_0.message@ == "Expected `from` to be a string"@
                    &&& final(arena)@ == old(arena)@
                    &&& final(self).data == old(self).data
                },
                InputCheck::NameNoString => {
                    &&& r is Err
                    &&& r->Err_0.kind == HostErrorKind::TypeError
                    &&& r->Err_0.message@ == "Expected `name` to be a string"@
                    &&& final(arena)@ == old(arena)@
                    &&& final(self).data == old(self).data
                },
                InputCheck::NoNumberType => {
                    &&& r is Err
                    &&& r->Err_0.kind == HostErrorKind::InternalError
                    &&& r->Err_0.message@
                        == "Not implemented yet: type passed to io.input was something other than summon.number()"@
                    &&& final(arena)@ == old(arena)@
                    &&& final(self).data == old(self).data
                },
                InputCheck::Fine => {
                    let from = params@[0]->String_0;
                    let name = params@[1]->String_0;
                    let made = spec_add(
                        old(arena)@,
                        Some(VsType::Number),
                        CircuitSignalData::Input,
                    );
                    &&& final(arena)@ == made.signals
                    &&& match made.result {
                        Err(_) => {
                            &&& r is Err
                            &&& r->Err_0.kind == HostErrorKind::InternalError
                            &&& r->Err_0.message@ == "No identifier is left for a signal"@
                            &&& final(self).data == old(self).data
                        },
                        Ok(v) => if has_input(old(self).data.inputs@, name@) {
                            &&& r is Err
                            &&& r->Err_0.kind == HostErrorKind::Error
                            &&& r->Err_0.message@ == "Can't use existing input name: \""@ + name@
                                + "\""@
                            &&& final(self).data == old(self).data
                        } else {
                            &&& r == Ok::<Val, HostError>(v)
                            &&& final(self).data.inputs@.len() == old(self).data.inputs@.len() + 1
                            &&& final(self).data.inputs@.drop_last() == old(self).data.inputs@
                            &&& final(self).data.inputs@.last().from@ == from@
                            &&& final(self).data.inputs@.last().name@ == name@
                            &&& final(self).data.inputs@.last().id == v->Signal_0.id
                            &&& if has_name(old(self).data.parties@, from@) {
                                final(self).data.parties@ == old(self).data.parties@
                            } else {
                                final(self).data.parties@.len() == old(self).data.parties@.len()
                                    + 1 && final(self).data.parties@.drop_last() == old(self).data.parties@ && final(self).data.parties@.last()@ == from@
                            }
                        },
                    }
                },
            },
    {
        if params.len() < 3 {
            return Err(
                host_error(HostErrorKind::TypeError, "Params (from, name, type) not provided"),
            );
        }
        let from = match &params[0] {
            Val::String(s) => s,
            _ => {
                return Err(
                    host_error(HostErrorKind::TypeError, "Expected `from` to be a string"),
                );
            },
        };
        let name = match &params[1] {
            Val::String(s) => s,
            _ => {
                return Err(
                    host_error(HostErrorKind::TypeError, "Expected `name` to be a string"),
                );
            },
        };
        let is_number = match &params[2] {
            Val::Object(ObjectKind::NumberType) => true,
            _ => false,
        };
        if !is_number {
            return Err(
                host_error(
                    HostErrorKind::InternalError,
                    "Not implemented yet: type passed to io.input was something other than summon.number()",
                ),
            );
        }
        let ghost signals0 = arena@;
        let signal = match arena.input(VsType::Number) {
            Ok(v) => v,
            Err(_) => {
                return Err(
                    host_error(HostErrorKind::InternalError, "No identifier is left for a signal"),
                );
            },
        };
        let id = match signal.as_signal() {
            Some(h) => h.id,
            None => 0,
        };
        proof {
            assert forall|i: int| 0 <= i < self.data.inputs@.len() implies (
            #[trigger] self.data.inputs@[i]).id < arena@.len() && arena@[self.data.inputs@[i].id as int].data
                is Input by {
                assert(arena@[self.data.inputs@[i].id as int] == signals0[self.data.inputs@[i].id as int]);
            }
        }
        if self.has_input_named(name) {
            return Err(
                quoting_error(HostErrorKind::Error, "Can't use existing input name: \"", name),
            );
        }
        let ghost inputs0 = self.data.inputs@;
        let ghost parties0 = self.data.parties@;
        self.data.inputs.push(InputDescriptor { from: from.clone(), name: name.clone(), id });
        let party = from.clone();
        self.data.add_party(party);
        proof {
            let inputs1 = self.data.inputs@;
            assert(inputs1.drop_last() =~= inputs0);
            let parties1 = self.data.parties@;
            if !has_name(parties0, from@) {
                assert(parties1.drop_last() =~= parties0);
            }
            assert forall|x: Seq<char>| has_name(parties0, x) implies has_name(parties1, x) by {
                let k = choose|k: int| 0 <= k < parties0.len() && (#[trigger] parties0[k])@ == x;
                assert(parties1[k]@ == x);
            }
            assert(has_name(parties1, from@)) by {
                if !has_name(parties0, from@) {
                    assert(parties1[parties0.len() as int]@ == from@);
                }
            }
            assert forall|i: int| 0 <= i < inputs1.len() implies (#[trigger] inputs1[i]).id
                < arena@.len() && arena@[inputs1[i].id as int].data is Input && has_name(
                parties1,
                inputs1[i].from@,
            ) by {
                if i < inputs0.len() {
                    assert(inputs1[i] == inputs0[i]);
                    assert(has_name(parties0, inputs0[i].from@));
                }
            }
            assert forall|i: int, j: int| 0 <= i < j < inputs1.len() implies (
            #[trigger] inputs1[i]).name@ != (#[trigger] inputs1[j]).name@ && inputs1[i].id
                < inputs1[j].id by {
                assert(inputs1[i] == inputs0[i]);
                if j < inputs0.len() {
                    assert(inputs1[j] == inputs0[j]);
                } else {
                    assert(inputs0[i].id < signals0.len());
                }
            }
            assert forall|i: int, j: int| 0 <= i < j < parties1.len() implies (
            #[trigger] parties1[i])@ != (#[trigger] parties1[j])@ by {
                assert(parties1[i] == parties0[i]);
                if j < parties0.len() {
                    assert(parties1[j] == parties0[j]);
                }
            }
        }
        Ok(signal)
    }

    /// Whether an input is named `name`.
    fn has_input_named(&self, name: &String) -> (r: bool)
        ensures
            r == has_input(self.data.inputs@, name@),
    {
        let mut i: usize = 0;
        while i < self.data.inputs.len()
            invariant
                i <= self.data.inputs.len(),
                forall|k: int| 0 <= k < i ==> (#[trigger] self.data.inputs@[k]).name@ != name@,
            decreases self.data.inputs.len() - i,
        {
            if self.data.inputs[i].name == *name {
                return true;
            }
            i += 1;
        }
        false
    }

    /// `inputPublic(name, type)`: gives the public input named `name` that
    /// the caller gave, and notes that the program asked for it.
    pub fn input_public(&mut self, params: &Vec<Val>) -> (r: Result<Val, HostError>)
        ensures
            final(self).data.inputs == old(self).data.inputs,
            final(self).data.public_inputs == old(self).data.public_inputs,
            final(self).data.public_outputs == old(self).data.public_outputs,
            final(self).data.parties == old(self).data.parties,
            match check_public_input(params@) {
                PublicInputCheck::TooFew => {
                    &&& r is Err
                    &&& r->Err_0.kind == HostErrorKind::TypeError
                    &&& r->Err_0.message@ == "Params (name, type) not provided"@
                    &&& final(self).data == old(self).data
                },
                PublicInputCheck::NameNoString => {
                    &&& r is Err
                    &&& r->Err_0.kind == HostErrorKind::TypeError
                    &&& r->Err_0.message@ == "Expected `name` to be a string"@
                    &&& final(self).data == old(self).data
                },
                PublicInputCheck::NoNumberType => {
                    &&& r is Err
                    &&& r->Err_0.kind == HostErrorKind::InternalError
                    &&& r->Err_0.message@
                        == "Not implemented yet: type passed to io.publicInput was something other than summon.number()"@
                    &&& final(self).data == old(self).data
                },
                PublicInputCheck::Fine => {
                    let name = params@[0]->String_0;
                    let entries = old(self).data.public_inputs@;
                    match find_named(entries, name@, entries.len() as int) {
                        None => {
                            &&& r is Err
                            &&& r->Err_0.kind == HostErrorKind::Error
                            &&& r->Err_0.message@ == missing_public_input(name@)
                            &&& final(self).data == old(self).data
                        },
                        Some(i) => {
                            &&& r == Ok::<Val, HostError>(entries[i].1)
                            &&& final(self).data.public_inputs_used@ == if has_name(
                                old(self).data.public_inputs_used@,
                                name@,
                            ) {
                                old(self).data.public_inputs_used@
                            } else {
                                old(self).data.public_inputs_used@.push(
                                    final(self).data.public_inputs_used@.last(),
                                )
                            }
                            &&& has_name(final(self).data.public_inputs_used@, name@)
                        },
                    }
                },
            },
    {
        if params.len() < 2 {
            return Err(host_error(HostErrorKind::TypeError, "Params (name, type) not provided"));
        }
        let name = match &params[0] {
            Val::String(s) => s,
            _ => {
                return Err(
                    host_error(HostErrorKind::TypeError, "Expected `name` to be a string"),
                );
            },
        };
        let is_number = match &params[1] {
            Val::Object(ObjectKind::NumberType) => true,
            _ => false,
        };
        if !is_number {
            return Err(
                host_error(
                    HostErrorKind::InternalError,
                    "Not implemented yet: type passed to io.publicInput was something other than summon.number()",
                ),
            );
        }
        let value = match position_named(&self.data.public_inputs, name) {
            Some(i) => self.data.public_inputs[i].1.clone(),
            None => {
                return Err(quoting_error(HostErrorKind::Error, "Missing public input: \"", name));
            },
        };
        if !contains_name(&self.data.public_inputs_used, name) {
            let ghost before = self.data.public_inputs_used@;
            self.data.public_inputs_used.push(name.clone());
            assert(self.data.public_inputs_used@[before.len() as int]@ == name@);
        }
        Ok(value)
    }

    /// `output(to, name, value)`: an output for one party. This is not to be
    /// had yet: after its arguments were looked at, it fails.
    pub fn output(&self, params: &Vec<Val>) -> (r: Result<Val, HostError>)
        ensures
            r is Err,
            r->Err_0.kind == if params@.len() < 3 || !(params@[0] is String) || !(params@[1]
                is String) || params@[2].spec_typeof() != VsType::Number {
                HostErrorKind::TypeError
            } else {
                HostErrorKind::InternalError
            },
            r->Err_0.message@ == if params@.len() < 3 {
                "Params (to, name, value) not provided"@
            } else if !(params@[0] is String) {
                "Expected `to` to be a string (not implemented yet: array of strings)"@
            } else if !(params@[1] is String) {
                "Expected `name` to be a string"@
            } else if params@[2].spec_typeof() != VsType::Number {
                "Non-number outputs are not yet supported"@
            } else {
                "Not implemented yet: io.output"@
            },
    {
        if params.len() < 3 {
            return Err(
                host_error(HostErrorKind::TypeError, "Params (to, name, value) not provided"),
            );
        }
        match &params[0] {
            Val::String(_) => {},
            _ => {
                return Err(
                    host_error(
                        HostErrorKind::TypeError,
                        "Expected `to` to be a string (not implemented yet: array of strings)",
                    ),
                );
            },
        }
        match &params[1] {
            Val::String(_) => {},
            _ => {
                return Err(
                    host_error(HostErrorKind::TypeError, "Expected `name` to be a string"),
                );
            },
        }
        match params[2].typeof_() {
            VsType::Number => {},
            _ => {
                return Err(
                    host_error(
                        HostErrorKind::TypeError,
                        "Non-number outputs are not yet supported",
                    ),
                );
            },
        }
        Err(host_error(HostErrorKind::InternalError, "Not implemented yet: io.output"))
    }

    /// `outputPublic(name, value)`: sets the public output named `name` to
    /// `value`, which must be a number. A name that is set again keeps its
    /// place among the outputs.
    pub fn output_public(&mut self, params: &Vec<Val>) -> (r: Result<Val, HostError>)
        ensures
            final(self).data.inputs == old(self).data.inputs,
            final(self).data.public_inputs == old(self).data.public_inputs,
            final(self).data.public_inputs_used == old(self).data.public_inputs_used,
            final(self).data.parties == old(self).data.parties,
            forall|signals: Seq<CircuitSignal>| #[trigger]
                old(self).wf(signals) ==> final(self).wf(signals),
            match check_public_output(params@) {
                PublicOutputCheck::TooFew => {
                    &&& r is Err
                    &&& r->Err_0.kind == HostErrorKind::TypeError
                    &&& r->Err_0.message@ == "Params (name, value) not provided"@
                    &&& final(self).data == old(self).data
                },
                PublicOutputCheck::NameNoString => {
                    &&& r is Err
                    &&& r->Err_0.kind == HostErrorKind::TypeError
                    &&& r->Err_0.message@ == "Expected name to be a string"@
                    &&& final(self).data == old(self).data
                },
                PublicOutputCheck::NoNumber => {
                    &&& r is Err
                    &&& r->Err_0.kind == HostErrorKind::TypeError
                    &&& r->Err_0.message@ == "Non-number outputs are not yet supported"@
                    &&& final(self).data == old(self).data
                },
                PublicOutputCheck::Fine => {
                    let name = params@[0]->String_0;
                    let before = old(self).data.public_outputs@;
                    let after = final(self).data.public_outputs@;
                    &&& r == Ok::<Val, HostError>(Val::Undefined)
                    &&& match find_named(before, name@, before.len() as int) {
                        Some(i) => {
                            &&& after.len() == before.len()
                            &&& after[i].0@ == name@
                            &&& after[i].1 == params@[1]
                            &&& forall|k: int|
                                0 <= k < before.len() && k != i ==> #[trigger] after[k]
                                    == before[k]
                        },
                        None => {
                            &&& after.len() == before.len() + 1
                            &&& after.drop_last() == before
                            &&& after.last().0@ == name@
                            &&& after.last().1 == params@[1]
                        },
                    }
                },
            },
    {
        if params.len() < 2 {
            return Err(host_error(HostErrorKind::TypeError, "Params (name, value) not provided"));
        }
        let name = match &params[0] {
            Val::String(s) => s,
            _ => {
                return Err(host_error(HostErrorKind::TypeError, "Expected name to be a string"));
            },
        };
        match params[1].typeof_() {
            VsType::Number => {},
            _ => {
                return Err(
                    host_error(
                        HostErrorKind::TypeError,
                        "Non-number outputs are not yet supported",
                    ),
                );
            },
        }
        let ghost before = self.data.public_outputs@;
        match position_named(&self.data.public_outputs, name) {
            Some(i) => {
                self.data.public_outputs.set(i, (name.clone(), params[1].clone()));
                proof {
                    let after = self.data.public_outputs@;
                    assert forall|signals: Seq<CircuitSignal>| #[trigger]
                        old(self).wf(signals) implies self.wf(signals) by {
                        assert forall|a: int, b: int| 0 <= a < b < after.len() implies (
                        #[trigger] after[a]).0@ != (#[trigger] after[b]).0@ by {
                            assert(after[a].0@ == before[a].0@);
                            assert(after[b].0@ == before[b].0@);
                        }
                    }
                }
            },
            None => {
                self.data.public_outputs.push((name.clone(), params[1].clone()));
                proof {
                    let after = self.data.public_outputs@;
                    assert(after.drop_last() =~= before);
                    assert forall|signals: Seq<CircuitSignal>| #[trigger]
                        old(self).wf(signals) implies self.wf(signals) by {
                        assert forall|a: int, b: int| 0 <= a < b < after.len() implies (
                        #[trigger] after[a]).0@ != (#[trigger] after[b]).0@ by {
                            assert(after[a] == before[a]);
                            if b < before.len() {
                                assert(after[b] == before[b]);
                            } else {
                                lemma_find_named_none(before, name@, before.len() as int, a);
                            }
                        }
                    }
                }
            },
        }
        Ok(Val::Undefined)
    }

    /// `addParty(name)`: names a party that gives no input.
    pub fn add_party(&mut self, params: &Vec<Val>) -> (r: Result<Val, HostError>)
        ensures
            final(self).data.inputs == old(self).data.inputs,
            final(self).data.public_inputs == old(self).data.public_inputs,
            final(self).data.public_inputs_used == old(self).data.public_inputs_used,
            final(self).data.public_outputs == old(self).data.public_outputs,
            forall|signals: Seq<CircuitSignal>| #[trigger]
                old(self).wf(signals) ==> final(self).wf(signals),
            if params@.len() < 1 {
                &&& r is Err
                &&& r->Err_0.kind == HostErrorKind::TypeError
                &&& r->Err_0.message@ == "Params (party) not provided"@
                &&& final(self).data == old(self).data
            } else if !(params@[0] is String) {
                &&& r is Err
                &&& r->Err_0.kind == HostErrorKind::TypeError
                &&& r->Err_0.message@ == "Expected `party` to be a string"@
                &&& final(self).data == old(self).data
            } else {
                let party = params@[0]->String_0;
                &&& r == Ok::<Val, HostError>(Val::Undefined)
                &&& if has_name(old(self).data.parties@, party@) {
                    final(self).data.parties@ == old(self).data.parties@
                } else {
                    final(self).data.parties@.len() == old(self).data.parties@.len() + 1 && final(self).data.parties@.drop_last() == old(self).data.parties@ && final(self).data.parties@.last()@ == party@
                }
            },
    {
        if params.len() < 1 {
            return Err(host_error(HostErrorKind::TypeError, "Params (party) not provided"));
        }
        let party = match &params[0] {
            Val::String(s) => s,
            _ => {
                return Err(
                    host_error(HostErrorKind::TypeError, "Expected `party` to be a string"),
                );
            },
        };
        let ghost parties0 = self.data.parties@;
        self.data.add_party(party.clone());
        proof {
            let parties1 = self.data.parties@;
            if !has_name(parties0, party@) {
                assert(parties1.drop_last() =~= parties0);
            }
            assert forall|x: Seq<char>| has_name(parties0, x) implies has_name(parties1, x) by {
                let k = choose|k: int| 0 <= k < parties0.len() && (#[trigger] parties0[k])@ == x;
                assert(parties1[k]@ == x);
            }
            assert forall|signals: Seq<CircuitSignal>| #[trigger]
                old(self).wf(signals) implies self.wf(signals) by {
                assert forall|i: int, j: int| 0 <= i < j < parties1.len() implies (
                #[trigger] parties1[i])@ != (#[trigger] parties1[j])@ by {
                    assert(parties1[i] == parties0[i]);
                    if j < parties0.len() {
                        assert(parties1[j] == parties0[j]);
                    }
                }
                assert forall|i: int| 0 <= i < self.data.inputs@.len() implies has_name(
                    parties1,
                    (#[trigger] self.data.inputs@[i]).from@,
                ) by {
                    assert(has_name(parties0, old(self).data.inputs@[i].from@));
                }
            }
        }
        Ok(Val::Undefined)
    }

    /// The operation that the object has under the key `key`, if it has one.
    pub open spec fn spec_member(key: Val) -> Option<IoMethod> {
        match key {
            Val::String(s) => if s@ == "input"@ {
                Some(IoMethod::Input)
            } else if s@ == "inputPublic"@ {
                Some(IoMethod::InputPublic)
            } else if s@ == "output"@ {
                Some(IoMethod::Output)
            } else if s@ == "outputPublic"@ {
                Some(IoMethod::OutputPublic)
            } else if s@ == "addParty"@ {
                Some(IoMethod::AddParty)
            } else {
                None
            },
            _ => None,
        }
    }

    /// The operation that the object has under the key `key`, if it has one.
    pub fn member(key: &Val) -> (r: Option<IoMethod>)
        ensures
            r == Self::spec_member(*key),
    {
        match key {
            Val::String(s) => {
                if same_text(s, "input") {
                    Some(IoMethod::Input)
                } else if same_text(s, "inputPublic") {
                    Some(IoMethod::InputPublic)
                } else if same_text(s, "output") {
                    Some(IoMethod::Output)
                } else if same_text(s, "outputPublic") {
                    Some(IoMethod::OutputPublic)
                } else if same_text(s, "addParty") {
                    Some(IoMethod::AddParty)
                } else {
                    None
                }
            },
            _ => None,
        }
    }

    /// Whether the object has an operation under the key `key`.
    pub fn has(key: &Val) -> (r: bool)
        ensures
            r == (Self::spec_member(*key) is Some),
    {
        Self::member(key).is_some()
    }
}

/// Whether the string `s` is the text `t`.
fn same_text(s: &String, t: &str) -> (r: bool)
    ensures
        r == (s@ == t@),
{
    match crate::name_map::compare_names(s.as_str(), t) {
        crate::name_map::NameOrder::Same => true,
        crate::name_map::NameOrder::Before => {
            proof {
                crate::name_map::lemma_name_order_total(s@, s@);
            }
            false
        },
        crate::name_map::NameOrder::After => {
            proof {
                crate::name_map::lemma_name_order_total(s@, s@);
            }
            false
        },
    }
}

/// Where no name was found, no entry has the name.
proof fn lemma_find_named_none(entries: Seq<(String, Val)>, name: Seq<char>, n: int, k: int)
    requires
        0 <= k < n <= entries.len(),
        find_named(entries, name, n) is None,
    ensures
        entries[k].0@ != name,
    decreases n,
{
    if k < n - 1 {
        lemma_find_named_none(entries, name, n - 1, k);
    }
}

} // verus!
