//! What ties the circuit of a program to the recycling of its wires.

use crate::bristol::{
    checked_total, counted_lengths, parse_all, spec_input_len, spec_output_length, sum,
    BristolError,
};
use crate::circuit::{bristol_gate, io_line, Circuit};
use crate::circuit_builder::{
    gate_ok, kind_ok, listed_constants, seeded_state, spec_include_outputs, WireKind,
};
use crate::circuit_builder_laws::law_operands_defined_before;
use crate::circuit_signal::CircuitSignal;
use crate::compile::{circuit_of, input_ids};
use crate::recycle::{layout, spec_recycle};
use crate::recycle_laws::{
    law_no_more_wires, law_recycle_succeeds, well_formed, written_before,
};
use crate::summon_io::SummonIO;
use crate::text::{
    decimal, is_word, lemma_parse_decimal, lemma_tokens_of_joined, tokens, NumberError,
};
use vstd::prelude::*;

verus! {

/// The number one, `n` times.
spec fn ones(n: nat) -> Seq<usize> {
    Seq::new(n, |i: int| 1usize)
}

/// The word `1`, `n` times.
spec fn one_words(n: nat) -> Seq<Seq<char>> {
    Seq::new(n, |i: int| seq!['1'])
}

proof fn lemma_sum_ones(n: nat)
    ensures
        sum(ones(n)) == n,
    decreases n,
{
    if n > 0 {
        assert(ones(n).drop_last() =~= ones((n - 1) as nat));
        lemma_sum_ones((n - 1) as nat);
    }
}

proof fn lemma_parse_ones(n: nat)
    ensures
        parse_all(one_words(n)) == Ok::<Seq<usize>, NumberError>(ones(n)),
    decreases n,
{
    if n > 0 {
        assert(one_words(n).drop_last() =~= one_words((n - 1) as nat));
        lemma_parse_ones((n - 1) as nat);
        lemma_parse_decimal(1);
        assert(decimal(1) =~= seq!['1']);
        assert(one_words(n).last() == seq!['1']);
        assert(ones((n - 1) as nat).push(1usize) =~= ones(n));
    } else {
        assert(ones(0) =~= Seq::<usize>::empty());
    }
}

/// The header line for `n` inputs or outputs of one wire each is read as
/// `n` lengths of one.
proof fn lemma_io_line(n: usize, bad: BristolError, mismatch: BristolError)
    ensures
        counted_lengths(io_line(n as nat), bad, mismatch) == Ok::<Seq<usize>, BristolError>(
            ones(n as nat),
        ),
        checked_total(counted_lengths(io_line(n as nat), bad, mismatch)) == Ok::<
            usize,
            BristolError,
        >(n),
{
    let ws = seq![decimal(n as nat)] + one_words(n as nat);
    lemma_parse_decimal(n);
    lemma_parse_decimal(1);
    assert(decimal(1) =~= seq!['1']);
    assert forall|i: int| 0 <= i < ws.len() implies is_word(#[trigger] ws[i]) by {
        if i > 0 {
            assert(ws[i] == seq!['1']);
        }
    }
    lemma_tokens_of_joined(ws);
    assert(ws =~= seq![decimal(n as nat)] + Seq::new(n as nat, |i: int| seq!['1']));
    assert(tokens(io_line(n as nat)) == ws);
    assert(ws[0] == decimal(n as nat));
    assert(ws.skip(1) =~= one_words(n as nat));
    lemma_parse_ones(n as nat);
    lemma_sum_ones(n as nat);
}

/// The circuits whose wires can be recycled as they stand: the inputs and
/// the outputs together are not more than the wires; the gates write rising
/// wires above those of the inputs; and each wire that a gate reads is the
/// wire of an input or is written by an earlier gate.
pub open spec fn is_straight(c: Circuit) -> bool {
    let n_in = c.inputs@.len();
    &&& n_in + c.outputs@.len() <= c.size
    &&& forall|g: int|
        0 <= g < c.gates@.len() ==> n_in <= (#[trigger] c.gates@[g]).spec_output() < c.size
    &&& forall|g: int, k: int|
        0 <= g < c.gates@.len() && 0 <= k < c.gates@[g].spec_operands().len() ==> {
            let w = #[trigger] c.gates@[g].spec_operands()[k];
            w < n_in || exists|h: int| 0 <= h < g && (#[trigger] c.gates@[h]).spec_output() == w
        }
    &&& forall|g: int, h: int|
        0 <= g < h < c.gates@.len() ==> (#[trigger] c.gates@[g]).spec_output()
            < (#[trigger] c.gates@[h]).spec_output()
}

/// The Bristol form of a straight circuit is well-formed, so that what holds
/// of recycled circuits holds of it: its first wires are those of the
/// inputs, and as many of its last wires as it has outputs are taken as
/// those of the outputs.
pub proof fn law_straight_circuits_are_well_formed(c: Circuit)
    requires
        is_straight(c),
    ensures
        well_formed(c.spec_bristol()),
        layout(c.spec_bristol()) == Ok::<(usize, usize, usize), BristolError>(
            (
                c.inputs@.len() as usize,
                c.outputs@.len() as usize,
                (c.size - c.outputs@.len()) as usize,
            ),
        ),
{
    let b = c.spec_bristol();
    let n_in = c.inputs@.len() as usize;
    let n_out = c.outputs@.len() as usize;
    lemma_io_line(n_in, BristolError::BadInputHeader, BristolError::InputCountsMismatch);
    lemma_io_line(n_out, BristolError::BadOutputHeader, BristolError::OutputCountsMismatch);
    assert(b.header.raw[1] == io_line(n_in as nat));
    assert(b.header.raw[2] == io_line(n_out as nat));
    assert(spec_input_len(b.header) == Ok::<usize, BristolError>(n_in));
    assert(spec_output_length(b.header) == Ok::<usize, BristolError>(n_out));
    assert forall|g: int| 0 <= g < b.gates.len() implies #[trigger] b.gates[g] == bristol_gate(
        c.gates@[g],
    ) by {}
    assert forall|g: int| 0 <= g < b.gates.len() implies (#[trigger] b.gates[g]).outs == seq![
        c.gates@[g].spec_output(),
    ] && b.gates[g].ins == c.gates@[g].spec_operands() by {
        assert(b.gates[g] == bristol_gate(c.gates@[g]));
    }
    assert forall|g: int, j: int|
        0 <= g < b.gates.len() && 0 <= j < b.gates[g].ins.len() implies {
        let w = #[trigger] b.gates[g].ins[j];
        w < n_in || written_before(b.gates, g, w)
    } by {
        let w = b.gates[g].ins[j];
        assert(w == c.gates@[g].spec_operands()[j]);
        if w >= n_in {
            let h = choose|h: int| 0 <= h < g && (#[trigger] c.gates@[h]).spec_output() == w;
            assert(b.gates[h].outs[0] == w);
            assert(b.gates[h].outs.contains(w));
        }
    }
    assert forall|g1: int, j1: int, g2: int, j2: int|
        0 <= g1 < b.gates.len() && 0 <= j1 < b.gates[g1].outs.len() && 0 <= g2 < b.gates.len()
            && 0 <= j2 < b.gates[g2].outs.len() && #[trigger] b.gates[g1].outs[j1]
            == #[trigger] b.gates[g2].outs[j2] implies g1 == g2 && j1 == j2 by {
        if g1 < g2 {
            assert(c.gates@[g1].spec_output() < c.gates@[g2].spec_output());
        } else if g2 < g1 {
            assert(c.gates@[g2].spec_output() < c.gates@[g1].spec_output());
        }
    }
}

/// Where no constant is listed, no wire holds one.
proof fn lemma_no_constant(kinds: Seq<WireKind>, w: int)
    requires
        listed_constants(kinds).len() == 0,
        0 <= w < kinds.len(),
    ensures
        !(kinds[w] is Constant),
    decreases kinds.len(),
{
    if w < kinds.len() - 1 {
        lemma_no_constant(kinds.drop_last(), w);
    }
}

/// The circuit of a program that has no constant on a wire, and whose inputs
/// and outputs together are not more than its wires, is straight.
pub proof fn law_circuits_without_constants_are_straight(
    io: &SummonIO,
    signals: Seq<CircuitSignal>,
    c: Circuit,
)
    requires
        io.wf(signals),
        circuit_of(io, signals, c),
        c.constants@.len() == 0,
        c.inputs@.len() + c.outputs@.len() <= c.size,
    ensures
        is_straight(c),
{
    let ids = input_ids(io.data.inputs@);
    let start = seeded_state(ids);
    let st = spec_include_outputs(start, signals, io.data.public_outputs@).0;
    let n = ids.len();
    assert(ids.no_duplicates()) by {
        assert forall|i: int, j: int| 0 <= i < ids.len() && 0 <= j < ids.len() && i != j implies ids[i]
            != ids[j] by {
            if i < j {
                assert(io.data.inputs@[i].id < io.data.inputs@[j].id);
            } else {
                assert(io.data.inputs@[j].id < io.data.inputs@[i].id);
            }
        }
    }
    assert forall|w: int| 0 <= w < n implies #[trigger] st.kinds[w] is Input by {
        let id = ids[w];
        assert(ids.contains(id));
        assert(start.wires.contains_key(id));
        let j = ids.index_of(id);
        assert(0 <= j < ids.len() && ids[j] == id);
        assert(st.wires[id] == w);
        assert(st.seeded.contains(id));
    }
    assert forall|g: int| 0 <= g < c.gates@.len() implies n <= (
    #[trigger] c.gates@[g]).spec_output() < c.size by {
        assert(gate_ok(st, signals, g));
        let w = c.gates@[g].spec_output() as int;
        if w < n {
            assert(st.kinds[w] is Input);
        }
    }
    assert forall|g: int, k: int|
        0 <= g < c.gates@.len() && 0 <= k < c.gates@[g].spec_operands().len() implies {
        let w = #[trigger] c.gates@[g].spec_operands()[k];
        w < n || exists|h: int| 0 <= h < g && (#[trigger] c.gates@[h]).spec_output() == w
    } by {
        let w = c.gates@[g].spec_operands()[k];
        law_operands_defined_before(st, signals, g, k);
        lemma_no_constant(st.kinds, w as int);
        match st.kinds[w as int] {
            WireKind::Input(id) => {
                assert(kind_ok(st, w as int));
                assert(ids.contains(id));
                assert(start.wires.contains_key(id));
                let j = ids.index_of(id);
                assert(0 <= j < ids.len() && ids[j] == id);
            },
            WireKind::Constant(_) => {},
            WireKind::Gate(h) => {
                assert(c.gates@[h].spec_output() == w);
            },
        }
    }
}

/// The wires of the circuit of a program that has no constant on a wire,
/// and whose inputs and outputs together are not more than its wires, can
/// be recycled, and the recycled circuit has no more wires than the circuit
/// of the program.
pub proof fn law_circuits_without_constants_can_be_recycled(
    io: &SummonIO,
    signals: Seq<CircuitSignal>,
    c: Circuit,
)
    requires
        io.wf(signals),
        circuit_of(io, signals, c),
        c.constants@.len() == 0,
        c.inputs@.len() + c.outputs@.len() <= c.size,
    ensures
        well_formed(c.spec_bristol()),
        spec_recycle(c.spec_bristol()) is Ok,
        spec_recycle(c.spec_bristol())->Ok_0.header.nwires <= c.size,
        spec_recycle(c.spec_bristol())->Ok_0.gates.len() == c.gates@.len(),
{
    law_circuits_without_constants_are_straight(io, signals, c);
    law_straight_circuits_are_well_formed(c);
    law_recycle_succeeds(c.spec_bristol());
    law_no_more_wires(c.spec_bristol());
}

} // verus!
