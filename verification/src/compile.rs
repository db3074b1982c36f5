//! From what a program declared while it ran to its circuit.

use crate::circuit::{
    first_stray, inputs_of, spec_settings, Circuit, CircuitError, CircuitInput, ConstantValue,
    MpcSettings,
};
use crate::circuit_builder::{
    all_dependencies, dependencies, first_repeat, gate_ok, grows, has_wire, is_signal_with,
    last_named, wire_of,
    lemma_needs_bounds, lemma_needs_self, lemma_needs_step, listed_constants, needs, opens,
    output_values, seeded_state, signal_ids, spec_include_outputs, state_ok, BuilderError,
    BuilderState, CircuitBuilder, WireKind,
};
use crate::circuit_builder_laws::{
    covers, law_one_gate_for_each_signal, law_operands_defined_before, reachable,
};
use crate::circuit_signal::{signals_ok, CircuitSignal, CircuitSignalData, SignalArena};
use crate::diagnostics_by_path::{
    first_with_path, host_diagnostic, is_error_level, lemma_first_with_path, with_diagnostic,
    Diagnostic, DiagnosticLevel, DiagnosticView, DiagnosticsByPath, FileDiagnostics, Span,
};
use crate::name_map::NameMap;
use crate::ops::VsType;
use crate::summon_io::{
    has_input, missing_public_input, unused_names, HostError, HostErrorKind, InputDescriptor,
    SummonIO,
};
use crate::text::{append_number, decimal};
use crate::vs_value::Val;
use vstd::prelude::*;
use vstd::string::StringExecFns;

verus! {

/// The identifiers of the input signals.
pub open spec fn input_ids(inputs: Seq<InputDescriptor>) -> Seq<usize> {
    inputs.map_values(|d: InputDescriptor| d.id)
}

/// What is needed by something that is needed is needed.
proof fn lemma_needs_trans(
    signals: Seq<CircuitSignal>,
    included: Set<usize>,
    a: usize,
    b: usize,
    x: usize,
)
    requires
        needs(signals, included, a, b),
        needs(signals, included, b, x),
    ensures
        needs(signals, included, a, x),
    decreases a,
{
    if a != b && a != x {
        match signals[a as int].data {
            CircuitSignalData::Input => {},
            CircuitSignalData::UnaryOp(_, v) => {
                lemma_needs_trans(signals, included, v->Signal_0.id, b, x);
            },
            CircuitSignalData::BinaryOp(_, l, r) => {
                if l is Signal && l->Signal_0.id < a && needs(signals, included, l->Signal_0.id, b) {
                    lemma_needs_trans(signals, included, l->Signal_0.id, b, x);
                } else {
                    lemma_needs_trans(signals, included, r->Signal_0.id, b, x);
                }
            },
        }
    }
}

/// What the operands of the outputs need, the outputs need.
proof fn lemma_outputs_cover(
    st: BuilderState,
    signals: Seq<CircuitSignal>,
    outs: Seq<(String, Val)>,
)
    requires
        signals_ok(signals),
        covers(
            st,
            signals,
            Set::<usize>::empty().union(signal_ids(all_dependencies(signals, outs))).union(
                signal_ids(output_values(outs)),
            ),
        ),
        forall|x: usize|
            st.seeded.contains(x) && x < signals.len() ==> signals[x as int].data is Input,
    ensures
        covers(st, signals, signal_ids(output_values(outs))),
{
    let all = Set::<usize>::empty().union(signal_ids(all_dependencies(signals, outs))).union(
        signal_ids(output_values(outs)),
    );
    let roots = signal_ids(output_values(outs));
    assert forall|x: usize| #[trigger]
        st.order.contains(x) <==> exists|r: usize|
            roots.contains(r) && #[trigger] needs(signals, st.seeded, r, x) by {
        if st.order.contains(x) {
            let r = choose|r: usize| all.contains(r) && #[trigger] needs(signals, st.seeded, r, x);
            if !roots.contains(r) {
                assert(outs.take(outs.len() as int) =~= outs);
                assert(signal_ids(all_dependencies(signals, outs)).contains(r));
                lemma_dependency_owner(signals, outs, outs.len() as int, r);
                let k = choose|k: int|
                    0 <= k < outs.len() && signal_ids(dependencies(signals, outs[k].1)).contains(r);
                let o = outs[k].1->Signal_0.id;
                lemma_needs_bounds(signals, st.seeded, r, x);
                assert(needs(signals, st.seeded, r, r)) by {
                    reveal_with_fuel(needs, 2);
                }
                let deps = dependencies(signals, outs[k].1);
                let j = choose|j: int|
                    0 <= j < deps.len() && is_signal_with(
                        #[trigger] deps[j],
                        r,
                    );
                assert(!st.seeded.contains(o));
                assert(opens(signals, st.seeded, o, r));
                lemma_needs_self(signals, st.seeded, o);
                lemma_needs_step(signals, st.seeded, o, o, r);
                lemma_needs_trans(signals, st.seeded, o, r, x);
                assert(is_signal_with(output_values(outs)[k], o));
                assert(roots.contains(o));
            }
        }
        if exists|r: usize| roots.contains(r) && #[trigger] needs(signals, st.seeded, r, x) {
            let r = choose|r: usize| roots.contains(r) && #[trigger] needs(signals, st.seeded, r, x);
            assert(all.contains(r));
        }
    }
}

/// A signal among the operands of all outputs is an operand of one of them.
proof fn lemma_dependency_owner(
    signals: Seq<CircuitSignal>,
    outs: Seq<(String, Val)>,
    n: int,
    r: usize,
)
    requires
        0 <= n <= outs.len(),
        signal_ids(all_dependencies(signals, outs.take(n))).contains(r),
    ensures
        exists|k: int|
            0 <= k < n && signal_ids(dependencies(signals, #[trigger] outs[k].1)).contains(r),
    decreases n,
{
    let upto = outs.take(n);
    if n == 0 {
        let all = all_dependencies(signals, upto);
        let j = choose|j: int|
            0 <= j < all.len() && is_signal_with(#[trigger] all[j], r);
    } else {
        assert(upto.drop_last() =~= outs.take(n - 1));
        let front = all_dependencies(signals, outs.take(n - 1));
        let last = dependencies(signals, outs[n - 1].1);
        let all = all_dependencies(signals, upto);
        assert(all == front + last);
        let j = choose|j: int|
            0 <= j < all.len() && is_signal_with(#[trigger] all[j], r);
        if j < front.len() {
            assert(is_signal_with(front[j], r));
            lemma_dependency_owner(signals, outs, n - 1, r);
        } else {
            assert(is_signal_with(last[j - front.len()], r));
        }
    }
}

/// A list of distinct identifiers has no entry that is in it again.
proof fn lemma_no_repeat(ids: Seq<usize>, n: int)
    requires
        ids.no_duplicates(),
        0 <= n <= ids.len(),
    ensures
        first_repeat(ids, n) is None,
    decreases n,
{
    if n > 0 {
        lemma_no_repeat(ids, n - 1);
        let front = ids.take(n - 1);
        let last = ids[n - 1];
        if front.contains(last) {
            let k = choose|k: int| 0 <= k < front.len() && front[k] == last;
            assert(ids[k] == ids[n - 1]);
        }
    }
}

/// A copy of the inputs.
fn clone_inputs(inputs: &Vec<InputDescriptor>) -> (r: Vec<InputDescriptor>)
    ensures
        r@.len() == inputs@.len(),
        forall|i: int|
            0 <= i < inputs@.len() ==> (#[trigger] r@[i]).from@ == inputs@[i].from@ && r@[i].name@
                == inputs@[i].name@ && r@[i].id == inputs@[i].id,
{
    let mut r: Vec<InputDescriptor> = Vec::new();
    let mut i: usize = 0;
    while i < inputs.len()
        invariant
            i <= inputs@.len(),
            r@.len() == i,
            forall|k: int|
                0 <= k < i ==> (#[trigger] r@[k]).from@ == inputs@[k].from@ && r@[k].name@
                    == inputs@[k].name@ && r@[k].id == inputs@[k].id,
        decreases inputs@.len() - i,
    {
        r.push(
            InputDescriptor {
                from: inputs[i].from.clone(),
                name: inputs[i].name.clone(),
                id: inputs[i].id,
            },
        );
        i += 1;
    }
    r
}

/// Gives the inputs that a program declared their wires, in the order in
/// which they were declared, then includes its public outputs. Gives the
/// inputs, the wire of each output by name, and the builder that holds the
/// gates.
///
/// There is one gate for each signal that an output needs, which is each
/// signal that is reached from an output without passing an input.
pub fn build(io: &SummonIO, arena: &SignalArena) -> (r: Result<
    (Vec<InputDescriptor>, NameMap<usize>, CircuitBuilder),
    BuilderError,
>)
    requires
        io.wf(arena@),
        arena.wf(),
    ensures
        match r {
            Err(e) => spec_include_outputs(
                seeded_state(input_ids(io.data.inputs@)),
                arena@,
                io.data.public_outputs@,
            ).1 == Err::<Seq<usize>, BuilderError>(e),
            Ok((inputs, outputs, builder)) => {
                let after = spec_include_outputs(
                    seeded_state(input_ids(io.data.inputs@)),
                    arena@,
                    io.data.public_outputs@,
                );
                &&& inputs@.len() == io.data.inputs@.len()
                &&& forall|i: int|
                    0 <= i < inputs@.len() ==> (#[trigger] inputs@[i]).from@
                        == io.data.inputs@[i].from@ && inputs@[i].name@ == io.data.inputs@[i].name@
                        && inputs@[i].id == io.data.inputs@[i].id
                &&& builder.wf(arena@)
                &&& builder@ == after.0
                &&& after.1 is Ok
                &&& outputs.wf()
                &&& forall|name: Seq<char>|
                    outputs.has(name) <==> last_named(
                        io.data.public_outputs@,
                        name,
                        io.data.public_outputs@.len() as int,
                    ) is Some
                &&& forall|name: Seq<char>|
                    outputs.has(name) ==> outputs.value(name) == after.1->Ok_0[last_named(
                        io.data.public_outputs@,
                        name,
                        io.data.public_outputs@.len() as int,
                    )->0]
                &&& forall|i: int|
                    0 <= i < io.data.public_outputs@.len() ==> has_wire(
                        after.0,
                        (#[trigger] io.data.public_outputs@[i]).1,
                    ) && after.1->Ok_0[i] == wire_of(after.0, io.data.public_outputs@[i].1)
                &&& forall|i: int|
                    0 <= i < outputs@.len() ==> (#[trigger] outputs@[i]).1 < builder.wire_count
                &&& io.data.inputs@.len() <= builder.wire_count
                &&& builder@.seeded == input_ids(io.data.inputs@).to_set()
                &&& grows(seeded_state(input_ids(io.data.inputs@)), builder@)
                &&& builder.gates@.len() == reachable(
                    arena@,
                    builder@.seeded,
                    signal_ids(output_values(io.data.public_outputs@)),
                ).len()
            },
        },
{
    let ghost signals = arena@;
    let ids = io.input_ids();
    let mut builder = CircuitBuilder::new();
    proof {
        assert forall|i: int, j: int|
            0 <= i < ids@.len() && 0 <= j < ids@.len() && i != j implies ids@[i] != ids@[j] by {
            if i < j {
                assert(io.data.inputs@[i].id < io.data.inputs@[j].id);
            } else {
                assert(io.data.inputs@[j].id < io.data.inputs@[i].id);
            }
        }
        lemma_no_repeat(ids@, ids@.len() as int);
    }
    match builder.include_inputs(ids.as_slice()) {
        Ok(()) => {},
        Err(e) => {
            return Err(e);
        },
    }
    let ghost seeded = builder@;
    proof {
        assert(builder.wf(signals));
        assert(covers(seeded, signals, Set::<usize>::empty())) by {
            assert forall|x: usize| #[trigger]
                seeded.order.contains(x) <==> exists|r: usize|
                    Set::<usize>::empty().contains(r) && #[trigger] needs(
                        signals,
                        seeded.seeded,
                        r,
                        x,
                    ) by {}
        }
    }
    let outputs = match builder.include_outputs(arena, &io.data.public_outputs) {
        Ok(map) => map,
        Err(e) => {
            return Err(e);
        },
    };
    proof {
        let outs = io.data.public_outputs@;
        assert forall|x: usize|
            builder@.seeded.contains(x) && x < signals.len() implies signals[x as int].data
            is Input by {
            let k = choose|k: int| 0 <= k < ids@.len() && ids@[k] == x;
            assert(io.data.inputs@[k].id == x);
        }
        lemma_outputs_cover(builder@, signals, outs);
        law_one_gate_for_each_signal(builder@, signals, signal_ids(output_values(outs)));
    }
    let inputs = clone_inputs(&io.data.inputs);
    Ok((inputs, outputs, builder))
}

/// The constants that are listed have wires below the number of wires.
proof fn lemma_listed_below(kinds: Seq<WireKind>, i: int)
    requires
        0 <= i < listed_constants(kinds).len(),
        kinds.len() <= usize::MAX,
    ensures
        listed_constants(kinds)[i].0 < kinds.len(),
    decreases kinds.len(),
{
    if kinds.len() > 0 {
        let front = listed_constants(kinds.drop_last());
        if i < front.len() {
            lemma_listed_below(kinds.drop_last(), i);
        }
    }
}

/// Whether no two of the inputs have the same name.
pub open spec fn names_differ(inputs: Seq<InputDescriptor>) -> bool {
    forall|a: int, b: int|
        0 <= a < b < inputs.len() ==> (#[trigger] inputs[a]).name@ != (#[trigger] inputs[b]).name@
}

/// The inputs by name: each on the wire that is its position among the
/// inputs.
fn input_map(input_descriptors: &Vec<InputDescriptor>) -> (map: NameMap<CircuitInput>)
    ensures
        map.wf(),
        forall|name: Seq<char>| map.has(name) <==> has_input(input_descriptors@, name),
        forall|i: int|
            0 <= i < map@.len() ==> (#[trigger] map@[i]).1.wire_id < input_descriptors@.len()
                && map@[i].1.type_ == VsType::Number && input_descriptors@[map@[i].1.wire_id as int].name@
                == map@[i].0@,
        names_differ(input_descriptors@) ==> map@.len() == input_descriptors@.len(),
{
    let mut map: NameMap<CircuitInput> = NameMap::new();
    let mut i: usize = 0;
    while i < input_descriptors.len()
        invariant
            i <= input_descriptors@.len(),
            map.wf(),
            forall|name: Seq<char>|
                map.has(name) <==> has_input(input_descriptors@.take(i as int), name),
            forall|name: Seq<char>|
                map.has(name) ==> map.value(name).wire_id < i && map.value(name).type_
                    == VsType::Number && input_descriptors@[map.value(name).wire_id as int].name@
                    == name,
            names_differ(input_descriptors@) ==> map@.len() == i,
        decreases input_descriptors@.len() - i,
    {
        let ghost old_map = map;
        let ghost t0 = input_descriptors@.take(i as int);
        let ghost t1 = input_descriptors@.take(i + 1);
        proof {
            if names_differ(input_descriptors@) && has_input(t0, input_descriptors@[i as int].name@) {
                let k = choose|k: int|
                    0 <= k < t0.len() && (#[trigger] t0[k]).name@ == input_descriptors@[i as int].name@;
                assert(input_descriptors@[k].name@ != input_descriptors@[i as int].name@);
            }
        }
        map.insert(
            input_descriptors[i].name.clone(),
            CircuitInput { wire_id: i, type_: VsType::Number },
        );
        proof {
            let this = input_descriptors@[i as int].name@;
            assert forall|name: Seq<char>| has_input(t1, name) <==> has_input(t0, name) || name
                == this by {
                if has_input(t1, name) {
                    let k = choose|k: int| 0 <= k < t1.len() && (#[trigger] t1[k]).name@ == name;
                    if k < i {
                        assert(t0[k].name@ == name);
                    }
                }
                if has_input(t0, name) {
                    let k = choose|k: int| 0 <= k < t0.len() && (#[trigger] t0[k]).name@ == name;
                    assert(t1[k].name@ == name);
                }
                if name == this {
                    assert(t1[i as int].name@ == name);
                }
            }
            assert forall|name: Seq<char>| map.has(name) <==> has_input(t1, name) by {
                if name != this {
                    assert(map.has(name) <==> old_map.has(name));
                }
            }
            assert forall|name: Seq<char>| map.has(name) implies map.value(name).wire_id < i + 1
                && map.value(name).type_ == VsType::Number && input_descriptors@[map.value(
                name,
            ).wire_id as int].name@ == name by {
                if name != this {
                    assert(old_map.has(name));
                    assert(map.value(name) == old_map.value(name));
                }
            }
        }
        i += 1;
    }
    proof {
        assert(input_descriptors@.take(i as int) =~= input_descriptors@);
        assert forall|k: int| 0 <= k < map@.len() implies (#[trigger] map@[k]).1.wire_id
            < input_descriptors@.len() && map@[k].1.type_ == VsType::Number && input_descriptors@[map@[k].1.wire_id as int].name@
            == map@[k].0@ by {
            map.lemma_position(k);
        }
    }
    map
}

/// The names of named wires, in their order.
pub open spec fn names_of(entries: Seq<(String, usize)>) -> Seq<Seq<char>> {
    entries.map_values(|e: (String, usize)| e.0@)
}

/// The names of the outputs, in their order.
fn output_names(outputs: &NameMap<usize>) -> (names: Vec<String>)
    ensures
        names@.len() == outputs@.len(),
        forall|i: int| 0 <= i < names@.len() ==> (#[trigger] names@[i])@ == outputs@[i].0@,
        crate::text::string_views(names@) == names_of(outputs@),
{
    let mut names: Vec<String> = Vec::new();
    let mut i: usize = 0;
    while i < outputs.len()
        invariant
            i <= outputs@.len(),
            names@.len() == i,
            forall|k: int| 0 <= k < i ==> (#[trigger] names@[k])@ == outputs@[k].0@,
        decreases outputs@.len() - i,
    {
        names.push(outputs.entry(i).0.clone());
        i += 1;
    }
    assert(crate::text::string_views(names@) =~= names_of(outputs@));
    names
}

/// A copy of the constants with their wires.
fn clone_constants(list: &Vec<(usize, ConstantValue)>) -> (r: Vec<(usize, ConstantValue)>)
    ensures
        r@ == list@,
{
    let mut r: Vec<(usize, ConstantValue)> = Vec::new();
    let mut i: usize = 0;
    while i < list.len()
        invariant
            i <= list@.len(),
            r@ == list@.take(i as int),
        decreases list@.len() - i,
    {
        r.push(list[i]);
        assert(list@.take(i + 1) =~= list@.take(i as int).push(list@[i as int]));
        i += 1;
    }
    assert(list@.take(i as int) =~= list@);
    r
}

/// Puts the circuit together from what [`build`] gave: the inputs on the
/// wires that are their positions, the constants and the gates of the
/// builder, the outputs on their wires, and the settings of the parties.
/// Every input must come from one of the parties.
pub fn generate_circuit(
    input_descriptors: &Vec<InputDescriptor>,
    outputs: NameMap<usize>,
    builder: CircuitBuilder,
    parties: &Vec<String>,
    arena: &SignalArena,
) -> (r: Result<Circuit, CircuitError>)
    requires
        builder.wf(arena@),
        outputs.wf(),
        forall|i: int| 0 <= i < outputs@.len() ==> (#[trigger] outputs@[i]).1 < builder.wire_count,
        input_descriptors@.len() <= builder.wire_count,
    ensures
        match first_stray(
            crate::text::string_views(parties@),
            input_descriptors@,
            input_descriptors@.len() as int,
        ) {
            Some(i) => r == Err::<Circuit, CircuitError>(CircuitError::UnknownParty(i as usize)),
            None => {
                &&& r is Ok
                &&& r->Ok_0.wf()
                &&& r->Ok_0.size == builder.wire_count
                &&& r->Ok_0.gates@ == builder.gates@
                &&& r->Ok_0.constants@ == listed_constants(builder@.kinds)
                &&& r->Ok_0.outputs == outputs
                &&& forall|name: Seq<char>|
                    r->Ok_0.inputs.has(name) <==> has_input(input_descriptors@, name)
                &&& forall|i: int|
                    0 <= i < r->Ok_0.inputs@.len() ==> (#[trigger] r->Ok_0.inputs@[i]).1.wire_id
                        < input_descriptors@.len() && r->Ok_0.inputs@[i].1.type_ == VsType::Number
                        && input_descriptors@[r->Ok_0.inputs@[i].1.wire_id as int].name@
                        == r->Ok_0.inputs@[i].0@
                &&& names_differ(input_descriptors@) ==> r->Ok_0.inputs@.len()
                    == input_descriptors@.len()
                &&& r->Ok_0.mpc_settings@ == spec_settings(
                    crate::text::string_views(parties@),
                    input_descriptors@,
                    names_of(outputs@),
                )
                &&& r->Ok_0.mpc_settings@.len() == parties@.len()
                &&& forall|j: int|
                    0 <= j < parties@.len() ==> {
                        let p = #[trigger] r->Ok_0.mpc_settings@[j];
                        &&& p.name == parties@[j]@
                        &&& p.inputs == crate::circuit::inputs_of(
                            crate::text::string_views(parties@),
                            input_descriptors@,
                            j,
                            input_descriptors@.len() as int,
                        )
                        &&& p.outputs.len() == outputs@.len()
                        &&& forall|k: int|
                            0 <= k < outputs@.len() ==> #[trigger] p.outputs[k] == outputs@[k].0@
                    }
            },
        },
{
    let ghost signals = arena@;
    let ghost st = builder@;
    let inputs = input_map(input_descriptors);
    let names = output_names(&outputs);
    let ghost name_views = crate::text::string_views(names@);
    let mpc_settings = match MpcSettings::from_io(parties, input_descriptors, names) {
        Ok(settings) => settings,
        Err(e) => {
            return Err(e);
        },
    };
    let constants = clone_constants(&builder.constants.in_order);
    let circuit = Circuit {
        size: builder.wire_count,
        constants,
        inputs,
        outputs,
        mpc_settings,
        gates: builder.gates,
    };
    proof {
        assert forall|i: int| 0 <= i < circuit.constants@.len() implies (
        #[trigger] circuit.constants@[i]).0 < circuit.size by {
            lemma_listed_below(st.kinds, i);
        }
        assert forall|g: int| 0 <= g < circuit.gates@.len() implies (
        #[trigger] circuit.gates@[g]).spec_output() < circuit.size && forall|k: int|
            0 <= k < circuit.gates@[g].spec_operands().len()
                ==> #[trigger] circuit.gates@[g].spec_operands()[k] < circuit.size by {
            assert(gate_ok(st, signals, g));
            assert forall|k: int|
                0 <= k < circuit.gates@[g].spec_operands().len()
                    implies #[trigger] circuit.gates@[g].spec_operands()[k] < circuit.size by {
                law_operands_defined_before(st, signals, g, k);
            }
        }
        assert forall|j: int| 0 <= j < parties@.len() implies {
            let p = #[trigger] circuit.mpc_settings@[j];
            &&& p.outputs.len() == circuit.outputs@.len()
            &&& forall|k: int|
                0 <= k < circuit.outputs@.len() ==> #[trigger] p.outputs[k]
                    == circuit.outputs@[k].0@
        } by {
            let p = circuit.mpc_settings@[j];
            assert(p.outputs == name_views);
            assert forall|k: int| 0 <= k < circuit.outputs@.len() implies #[trigger] p.outputs[k]
                == circuit.outputs@[k].0@ by {
                assert(name_views[k] == names@[k]@);
            }
        }
    }
    Ok(circuit)
}

/// What a compilation gives where no error was found.
#[derive(Debug)]
pub struct CompileOk {
    pub circuit: Circuit,
    pub diagnostics: DiagnosticsByPath,
}

/// What a compilation gives where an error was found: the circuit, if one
/// could be made all the same.
#[derive(Debug)]
pub struct CompileErr {
    pub circuit: Option<Circuit>,
    pub diagnostics: DiagnosticsByPath,
}

/// What an error of the builder is called, and the signal that it names.
pub open spec fn builder_error_parts(e: BuilderError) -> (Seq<char>, Option<usize>) {
    match e {
        BuilderError::DuplicateInput(id) => ("Input signal given twice: "@, Some(id)),
        BuilderError::UnknownSignal(id) => ("Unknown signal: "@, Some(id)),
        BuilderError::UnseededInput(id) => ("Input should have been included earlier: "@, Some(id)),
        BuilderError::UnsupportedOperand(id) => (
            "Can't include unrecognized operand of signal: "@,
            Some(id),
        ),
        BuilderError::UnsupportedValue => ("Can't include unrecognized type"@, None),
        BuilderError::ConstantOutOfRange => ("Cannot use constant that does not fit a wire"@, None),
        BuilderError::NotIncluded(id) => ("Signal was not included: "@, Some(id)),
        BuilderError::AlreadyIncluded(id) => ("Signal was included already: "@, Some(id)),
        BuilderError::TooManyWires => ("Too many wires"@, None),
    }
}

/// The message for an error of the builder: what it is called, then the
/// signal that it names, if it names one.
pub open spec fn builder_error_text(e: BuilderError) -> Seq<char> {
    let (text, id) = builder_error_parts(e);
    match id {
        Some(id) => text + decimal(id as nat),
        None => text,
    }
}

/// The message for an error of the builder.
pub fn builder_error_message(e: BuilderError) -> (s: String)
    ensures
        s@ == builder_error_text(e),
{
    let (text, id): (&str, Option<usize>) = match e {
        BuilderError::DuplicateInput(id) => ("Input signal given twice: ", Some(id)),
        BuilderError::UnknownSignal(id) => ("Unknown signal: ", Some(id)),
        BuilderError::UnseededInput(id) => ("Input should have been included earlier: ", Some(id)),
        BuilderError::UnsupportedOperand(id) => (
            "Can't include unrecognized operand of signal: ",
            Some(id),
        ),
        BuilderError::UnsupportedValue => ("Can't include unrecognized type", None),
        BuilderError::ConstantOutOfRange => ("Cannot use constant that does not fit a wire", None),
        BuilderError::NotIncluded(id) => ("Signal was not included: ", Some(id)),
        BuilderError::AlreadyIncluded(id) => ("Signal was included already: ", Some(id)),
        BuilderError::TooManyWires => ("Too many wires", None),
    };
    let mut s = String::from_str(text);
    match id {
        Some(id) => {
            append_number(&mut s, id);
        },
        None => {},
    }
    s
}

/// The lint for a public input that the program did not ask for.
pub open spec fn unused_lint(name: Seq<char>) -> DiagnosticView {
    DiagnosticView {
        level: DiagnosticLevel::Lint,
        message: "Unused public input: "@ + name,
        span: Span { lo: 0, hi: 0 },
    }
}

/// The diagnostics with a lint for each of the first `n` names, all said of
/// the file `(public inputs)`.
pub open spec fn with_lints(entries: Seq<FileDiagnostics>, names: Seq<Seq<char>>, n: int) -> Seq<
    FileDiagnostics,
>
    decreases n,
{
    if n <= 0 {
        entries
    } else {
        with_diagnostic(
            with_lints(entries, names, n - 1),
            "(public inputs)"@,
            unused_lint(names[n - 1]),
        )
    }
}

/// The internal error for a circuit that could not be built.
pub open spec fn build_failure(e: BuilderError) -> DiagnosticView {
    DiagnosticView {
        level: DiagnosticLevel::InternalError,
        message: builder_error_text(e),
        span: Span { lo: 0, hi: 0 },
    }
}

/// The error for an entry point whose function takes `n` parameters, where
/// exactly one is asked for: the object that the program declares its
/// inputs and outputs with.
pub open spec fn wrong_parameter_count(n: usize) -> DiagnosticView {
    DiagnosticView {
        level: DiagnosticLevel::Error,
        message: "number of main function arguments ("@ + decimal(n as nat) + ") is not 1"@,
        span: Span { lo: 0, hi: 0 },
    }
}

/// Looks at the entry point before the program is run. The function that
/// the entry module exports must take exactly one parameter. Where it takes
/// `parameter_count` parameters and that is not one, an error is added for
/// the file at `path`, the program is not to be run, and there is no circuit;
/// else the diagnostics come back as they are.
pub fn check_entry_point(parameter_count: usize, path: &String, diagnostics: DiagnosticsByPath) -> (r:
    Result<DiagnosticsByPath, CompileErr>)
    ensures
        match r {
            Ok(d) => parameter_count == 1 && d == diagnostics,
            Err(e) => {
                &&& parameter_count != 1
                &&& e.circuit is None
                &&& e.diagnostics@ == with_diagnostic(
                    diagnostics@,
                    path@,
                    wrong_parameter_count(parameter_count),
                )
                &&& e.diagnostics.spec_has_errors()
            },
        },
{
    if parameter_count == 1 {
        return Ok(diagnostics);
    }
    let mut diagnostics = diagnostics;
    let mut message = String::from_str("number of main function arguments (");
    append_number(&mut message, parameter_count);
    message.append(") is not 1");
    diagnostics.add(
        path,
        Diagnostic { level: DiagnosticLevel::Error, message, span: Span { lo: 0, hi: 0 } },
    );
    Err(CompileErr { circuit: None, diagnostics })
}

/// What a compilation comes to where the run of the program ended with the
/// error `err`: there is no circuit, and the diagnostic of the error is added
/// for the file at `path`.
pub fn run_failure(path: &String, err: &HostError, diagnostics: DiagnosticsByPath) -> (e: CompileErr)
    ensures
        e.circuit is None,
        e.diagnostics@ == with_diagnostic(diagnostics@, path@, host_diagnostic(*err)),
        e.diagnostics.spec_has_errors(),
        e.diagnostics.spec_has_internal_errors() == (diagnostics.spec_has_internal_errors()
            || err.kind == HostErrorKind::InternalError),
{
    let mut diagnostics = diagnostics;
    diagnostics.add(path, Diagnostic::from_host_error(err));
    CompileErr { circuit: None, diagnostics }
}

/// A program that asks for a public input that was not given fails to
/// compile: the error that `inputPublic` gives for the name becomes a
/// diagnostic of the level `Error` for the entry file, with a message that
/// quotes the name, and a list with that diagnostic has an error, so that
/// the exit code is one.
pub proof fn law_missing_public_input_fails(
    err: HostError,
    name: Seq<char>,
    path: Seq<char>,
    diagnostics: DiagnosticsByPath,
    after: DiagnosticsByPath,
)
    requires
        err.kind == HostErrorKind::Error,
        err.message@ == missing_public_input(name),
        after@ == with_diagnostic(diagnostics@, path, host_diagnostic(err)),
    ensures
        host_diagnostic(err).level == DiagnosticLevel::Error,
        host_diagnostic(err).message == "Missing public input: \""@ + name + "\""@,
        exists|i: int, j: int|
            0 <= i < after@.len() && 0 <= j < after@[i].1.len() && after@[i].0 == path
                && #[trigger] after@[i].1[j] == host_diagnostic(err),
        after.spec_has_errors(),
{
    let entries = diagnostics@;
    let d = host_diagnostic(err);
    match first_with_path(entries, path, 0) {
        Some(i) => {
            lemma_first_with_path(entries, path, 0);
            let j = entries[i].1.len() as int;
            assert(after@[i].1[j] == d);
            assert(after@.len() == after.0@.len());
            let list = after.0@[i].1@.map_values(|d: Diagnostic| d@);
            assert(after@[i].1 =~= list);
            assert(list.len() == after.0@[i].1@.len());
            assert(list[j] == after.0@[i].1@[j]@);
            assert(is_error_level(after.0@[i].1@[j].level));
        },
        None => {
            let i = entries.len() as int;
            assert(after@[i].1[0] == d);
            assert(after@.len() == after.0@.len());
            assert(after@[i].1 =~= after.0@[i].1@.map_values(|d: Diagnostic| d@));
            assert(after.0@[i].1@[0]@ == d);
            assert(is_error_level(after.0@[i].1@[0].level));
        },
    }
}

/// What is made of the run of a program: its circuit, and what there is to
/// say of it.
///
/// A lint is added for each public input that the program did not ask for.
/// Then the circuit is built. Where it cannot be built, an internal error is
/// added for the file at `path`, and there is no circuit. The compilation
/// succeeds if the circuit was built and no diagnostic is an error.
pub fn compile(
    io: &SummonIO,
    arena: &SignalArena,
    path: &String,
    diagnostics: DiagnosticsByPath,
) -> (r: Result<CompileOk, CompileErr>)
    requires
        io.wf(arena@),
        arena.wf(),
    ensures
        r is Ok <==> !diagnostics.spec_has_errors() && spec_include_outputs(
            seeded_state(input_ids(io.data.inputs@)),
            arena@,
            io.data.public_outputs@,
        ).1 is Ok,
        match r {
            Ok(ok) => {
                &&& ok.circuit.wf()
                &&& !ok.diagnostics.spec_has_errors()
                &&& circuit_of(io, arena@, ok.circuit)
                &&& ok.diagnostics@ == with_lints(
                    diagnostics@,
                    unused_names(io.data, io.data.public_inputs@.len() as int),
                    unused_names(io.data, io.data.public_inputs@.len() as int).len() as int,
                )
            },
            Err(err) => {
                &&& err.diagnostics@ == {
                    let linted = with_lints(
                        diagnostics@,
                        unused_names(io.data, io.data.public_inputs@.len() as int),
                        unused_names(io.data, io.data.public_inputs@.len() as int).len() as int,
                    );
                    match spec_include_outputs(
                        seeded_state(input_ids(io.data.inputs@)),
                        arena@,
                        io.data.public_outputs@,
                    ).1 {
                        Err(e) => with_diagnostic(linted, path@, build_failure(e)),
                        Ok(_) => linted,
                    }
                }
                &&& err.diagnostics.spec_has_errors()
                &&& err.diagnostics.spec_has_internal_errors()
                    == (diagnostics.spec_has_internal_errors() || err.circuit is None)
                &&& match err.circuit {
                    Some(c) => c.wf() && circuit_of(io, arena@, c),
                    None => spec_include_outputs(
                        seeded_state(input_ids(io.data.inputs@)),
                        arena@,
                        io.data.public_outputs@,
                    ).1 is Err,
                }
            },
        },
{
    let mut diagnostics = diagnostics;
    let ghost given = diagnostics;
    let unused = io.unused_public_inputs();
    let ghost names = crate::text::string_views(unused@);
    let lint_path = String::from_str("(public inputs)");
    let mut i: usize = 0;
    while i < unused.len()
        invariant
            i <= unused@.len(),
            names == crate::text::string_views(unused@),
            lint_path@ == "(public inputs)"@,
            diagnostics@ == with_lints(given@, names, i as int),
            diagnostics.spec_has_errors() == given.spec_has_errors(),
            diagnostics.spec_has_internal_errors() == given.spec_has_internal_errors(),
        decreases unused@.len() - i,
    {
        let mut message = String::from_str("Unused public input: ");
        message.append(unused[i].as_str());
        assert(names[i as int] == unused@[i as int]@);
        diagnostics.add(
            &lint_path,
            Diagnostic { level: DiagnosticLevel::Lint, message, span: Span { lo: 0, hi: 0 } },
        );
        i += 1;
    }
    let (inputs, outputs, builder) = match build(io, arena) {
        Ok(parts) => parts,
        Err(e) => {
            diagnostics.add(
                path,
                Diagnostic {
                    level: DiagnosticLevel::InternalError,
                    message: builder_error_message(e),
                    span: Span { lo: 0, hi: 0 },
                },
            );
            return Err(CompileErr { circuit: None, diagnostics });
        },
    };
    let ghost after = spec_include_outputs(
        seeded_state(input_ids(io.data.inputs@)),
        arena@,
        io.data.public_outputs@,
    );
    proof {
        lemma_no_stray(io, inputs@, io.data.inputs@.len() as int);
        assert(names_differ(inputs@)) by {
            assert forall|a: int, b: int| 0 <= a < b < inputs@.len() implies (
            #[trigger] inputs@[a]).name@ != (#[trigger] inputs@[b]).name@ by {
                assert(io.data.inputs@[a].name@ != io.data.inputs@[b].name@);
            }
        }
    }
    let circuit = match generate_circuit(&inputs, outputs, builder, &io.data.parties, arena) {
        Ok(c) => c,
        Err(_) => {
            return Err(CompileErr { circuit: None, diagnostics });
        },
    };
    proof {
        assert forall|name: Seq<char>|
            circuit.inputs.has(name) <==> has_input(io.data.inputs@, name) by {
            assert(circuit.inputs.has(name) <==> has_input(inputs@, name));
            if has_input(inputs@, name) {
                let k = choose|k: int| 0 <= k < inputs@.len() && (#[trigger] inputs@[k]).name@ == name;
                assert(io.data.inputs@[k].name@ == name);
            }
            if has_input(io.data.inputs@, name) {
                let k = choose|k: int|
                    0 <= k < io.data.inputs@.len() && (#[trigger] io.data.inputs@[k]).name@ == name;
                assert(inputs@[k].name@ == name);
            }
        }
        let parties = crate::text::string_views(io.data.parties@);
        let names = names_of(circuit.outputs@);
        assert(spec_settings(parties, inputs@, names) =~= spec_settings(
            parties,
            io.data.inputs@,
            names,
        )) by {
            assert forall|j: int| 0 <= j < parties.len() implies inputs_of(
                parties,
                inputs@,
                j,
                inputs@.len() as int,
            ) == inputs_of(parties, io.data.inputs@, j, io.data.inputs@.len() as int) by {
                lemma_inputs_of_same(parties, inputs@, io.data.inputs@, j, inputs@.len() as int);
            }
        }
        let outs = io.data.public_outputs@;
        assert forall|name: Seq<char>| #[trigger] circuit.outputs.has(name) implies {
            let value = outs[last_named(outs, name, outs.len() as int)->0].1;
            has_wire(after.0, value) && circuit.outputs.value(name) == wire_of(after.0, value)
        } by {
            lemma_last_named(outs, name, outs.len() as int);
            let i = last_named(outs, name, outs.len() as int)->0;
            assert(has_wire(after.0, outs[i].1));
        }
    }
    if diagnostics.has_errors() {
        return Err(CompileErr { circuit: Some(circuit), diagnostics });
    }
    Ok(CompileOk { circuit, diagnostics })
}

/// Whether `c` is the circuit of what the program declared: it has the
/// wires, the constants and the gates that including the outputs gives, one
/// gate for each signal that an output needs, and the inputs keep the wires
/// that they were given; its inputs are the declared ones by name, each on
/// the wire that is its position; its outputs are the public outputs by
/// name, each on the wire of the value that was last given for the name; and
/// each party has the names of the inputs that come from it and the names of
/// all outputs.
pub open spec fn circuit_of(io: &SummonIO, signals: Seq<CircuitSignal>, c: Circuit) -> bool {
    let after = spec_include_outputs(
        seeded_state(input_ids(io.data.inputs@)),
        signals,
        io.data.public_outputs@,
    );
    let outs = io.data.public_outputs@;
    &&& after.1 is Ok
    &&& state_ok(after.0, signals)
    &&& grows(seeded_state(input_ids(io.data.inputs@)), after.0)
    &&& c.size == after.0.wire_count
    &&& c.gates@ == after.0.gates
    &&& c.inputs@.len() == io.data.inputs@.len()
    &&& c.constants@ == listed_constants(after.0.kinds)
    &&& c.gates@.len() == reachable(
        signals,
        input_ids(io.data.inputs@).to_set(),
        signal_ids(output_values(outs)),
    ).len()
    &&& forall|name: Seq<char>| c.inputs.has(name) <==> has_input(io.data.inputs@, name)
    &&& forall|i: int|
        0 <= i < c.inputs@.len() ==> (#[trigger] c.inputs@[i]).1.wire_id < io.data.inputs@.len()
            && io.data.inputs@[c.inputs@[i].1.wire_id as int].name@ == c.inputs@[i].0@
    &&& forall|name: Seq<char>|
        c.outputs.has(name) <==> last_named(outs, name, outs.len() as int) is Some
    &&& forall|name: Seq<char>|
        c.outputs.has(name) ==> c.outputs.value(name) == after.1->Ok_0[last_named(
            outs,
            name,
            outs.len() as int,
        )->0]
    &&& forall|name: Seq<char>| #[trigger]
        c.outputs.has(name) ==> {
            let value = outs[last_named(outs, name, outs.len() as int)->0].1;
            has_wire(after.0, value) && c.outputs.value(name) == wire_of(after.0, value)
        }
    &&& c.mpc_settings@ == spec_settings(
        crate::text::string_views(io.data.parties@),
        io.data.inputs@,
        names_of(c.outputs@),
    )
}

/// The last position of a name, where there is one, is a position.
proof fn lemma_last_named(outs: Seq<(String, Val)>, name: Seq<char>, n: int)
    requires
        0 <= n <= outs.len(),
    ensures
        last_named(outs, name, n) is Some ==> 0 <= last_named(outs, name, n)->0 < n,
    decreases n,
{
    if n > 0 && outs[n - 1].0@ != name {
        lemma_last_named(outs, name, n - 1);
    }
}

/// Inputs with the same parties and names give the parties the same names.
proof fn lemma_inputs_of_same(
    parties: Seq<Seq<char>>,
    a: Seq<InputDescriptor>,
    b: Seq<InputDescriptor>,
    at: int,
    n: int,
)
    requires
        0 <= n <= a.len() == b.len(),
        forall|i: int|
            0 <= i < a.len() ==> (#[trigger] a[i]).from@ == b[i].from@ && a[i].name@ == b[i].name@,
    ensures
        inputs_of(parties, a, at, n) == inputs_of(parties, b, at, n),
    decreases n,
{
    if n > 0 {
        lemma_inputs_of_same(parties, a, b, at, n - 1);
        assert(a[n - 1].from@ == b[n - 1].from@ && a[n - 1].name@ == b[n - 1].name@);
    }
}

/// Every input of an object that is sound comes from one of its parties.
proof fn lemma_no_stray(io: &SummonIO, inputs: Seq<InputDescriptor>, n: int)
    requires
        0 <= n <= inputs.len(),
        inputs.len() == io.data.inputs@.len(),
        forall|i: int|
            0 <= i < inputs.len() ==> (#[trigger] inputs[i]).from@ == io.data.inputs@[i].from@,
        forall|i: int|
            0 <= i < io.data.inputs@.len() ==> crate::summon_io::has_name(
                io.data.parties@,
                (#[trigger] io.data.inputs@[i]).from@,
            ),
    ensures
        first_stray(crate::text::string_views(io.data.parties@), inputs, n) is None,
    decreases n,
{
    if n > 0 {
        lemma_no_stray(io, inputs, n - 1);
        let names = crate::text::string_views(io.data.parties@);
        let from = inputs[n - 1].from@;
        assert(from == io.data.inputs@[n - 1].from@);
        let k = choose|k: int|
            0 <= k < io.data.parties@.len() && (#[trigger] io.data.parties@[k])@ == from;
        assert(names[k] == from);
        lemma_first_index_finds(names, from, 0, k);
    }
}

/// A name that stands at a position is found at or before it.
proof fn lemma_first_index_finds(names: Seq<Seq<char>>, name: Seq<char>, from: int, k: int)
    requires
        0 <= from <= k < names.len(),
        names[k] == name,
    ensures
        crate::circuit::first_index(names, name, from) is Some,
    decreases k - from,
{
    if names[from] != name {
        lemma_first_index_finds(names, name, from + 1, k);
    }
}

} // verus!
