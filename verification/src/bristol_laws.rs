//! What holds between the text of a circuit and the circuit read from it.

use crate::bristol::{
    count_line, emitted_lines, first_line_counts, gate_line, gate_lines, gate_words, later_lines,
    nonblank, read_wires, spec_parse, spec_parse_gate, spec_parse_gates, spec_split_sections,
    spec_text, tail_scan, BristolError, CircuitView, GateView, HeaderView,
};
use crate::text::{
    decimal, is_blank, is_plain_line, is_word, lemma_lines_of_text, lemma_parse_decimal,
    lemma_tokens_of_joined, lines,
};
use vstd::prelude::*;

verus! {

/// The gates whose line is read back as the same gate: `k` and `l` count the
/// wires, and the operator is one word.
pub open spec fn is_plain_gate(g: GateView) -> bool {
    &&& g.k == g.ins.len()
    &&& g.l == g.outs.len()
    &&& is_word(g.op)
}

/// The circuits whose text is read back as the same circuit: the header
/// announces as many gates as there are; its lines after the first, which
/// may be blank, hold no line feed and end with no carriage return; and
/// every gate is plain.
pub open spec fn is_plain_circuit(c: CircuitView) -> bool {
    &&& c.header.ngates == c.gates.len()
    &&& forall|i: int| 1 <= i < c.header.raw.len() ==> is_plain_line(#[trigger] c.header.raw[i])
    &&& forall|g: int| 0 <= g < c.gates.len() ==> is_plain_gate(#[trigger] c.gates[g])
}

proof fn lemma_gate_words(g: GateView)
    requires
        is_plain_gate(g),
    ensures
        forall|i: int| 0 <= i < gate_words(g).len() ==> is_word(#[trigger] gate_words(g)[i]),
        gate_words(g).len() == 2 + g.k + g.l + 1,
        gate_words(g)[0] == decimal(g.k as nat),
        gate_words(g)[1] == decimal(g.l as nat),
        forall|i: int| 0 <= i < g.k ==> #[trigger] gate_words(g)[2 + i] == decimal(g.ins[i] as nat),
        forall|i: int|
            0 <= i < g.l ==> #[trigger] gate_words(g)[2 + g.k + i] == decimal(g.outs[i] as nat),
        gate_words(g)[2 + g.k + g.l] == g.op,
{
    let t = gate_words(g);
    assert forall|i: int| 0 <= i < t.len() implies is_word(#[trigger] t[i]) by {
        if i == 0 {
            lemma_parse_decimal(g.k);
        } else if i == 1 {
            lemma_parse_decimal(g.l);
        } else if i < 2 + g.k {
            assert(t[i] == decimal(g.ins[i - 2] as nat));
            lemma_parse_decimal(g.ins[i - 2]);
        } else if i < 2 + g.k + g.l {
            assert(t[i] == decimal(g.outs[i - 2 - g.k] as nat));
            lemma_parse_decimal(g.outs[i - 2 - g.k]);
        } else {
            assert(t[i] == g.op);
        }
    }
}

/// Wires written in decimal are read back as they are.
proof fn lemma_read_wires_back(
    t: Seq<Seq<char>>,
    from: int,
    ws: Seq<usize>,
    n: nat,
    missing: BristolError,
)
    requires
        0 <= from,
        n <= ws.len(),
        from + ws.len() <= t.len(),
        forall|i: int| 0 <= i < ws.len() ==> #[trigger] t[from + i] == decimal(ws[i] as nat),
    ensures
        read_wires(t, from, n, missing) == Ok::<Seq<usize>, BristolError>(ws.take(n as int)),
    decreases n,
{
    if n > 0 {
        lemma_read_wires_back(t, from, ws, (n - 1) as nat, missing);
        assert(t[from + (n - 1)] == decimal(ws[n - 1] as nat));
        lemma_parse_decimal(ws[n - 1]);
        assert(ws.take(n as int) =~= ws.take(n - 1).push(ws[n - 1]));
    } else {
        assert(ws.take(0) =~= Seq::<usize>::empty());
    }
}

/// The line of a plain gate is read back as that gate.
pub proof fn lemma_gate_round_trip(g: GateView)
    requires
        is_plain_gate(g),
    ensures
        spec_parse_gate(gate_line(g)) == Ok::<GateView, BristolError>(g),
        !is_blank(gate_line(g)),
        is_plain_line(gate_line(g)),
{
    let t = gate_words(g);
    lemma_gate_words(g);
    lemma_tokens_of_joined(t);
    lemma_parse_decimal(g.k);
    lemma_parse_decimal(g.l);
    lemma_read_wires_back(t, 2, g.ins, g.k as nat, BristolError::MissingInWire);
    lemma_read_wires_back(t, 2 + g.k, g.outs, g.l as nat, BristolError::MissingOutWire);
    assert(g.ins.take(g.k as int) =~= g.ins);
    assert(g.outs.take(g.l as int) =~= g.outs);
}

proof fn lemma_gates_round_trip(gates: Seq<GateView>)
    requires
        forall|g: int| 0 <= g < gates.len() ==> is_plain_gate(#[trigger] gates[g]),
    ensures
        spec_parse_gates(gate_lines(gates)) == Ok::<Seq<GateView>, BristolError>(gates),
        nonblank(gate_lines(gates)) == gate_lines(gates),
        forall|a: Seq<Seq<char>>| #[trigger]
            tail_scan(a + gate_lines(gates), gates.len()) == (a.len() as int, gates.len()),
    decreases gates.len(),
{
    let ls = gate_lines(gates);
    if gates.len() > 0 {
        let front = gates.drop_last();
        assert forall|g: int| 0 <= g < front.len() implies is_plain_gate(#[trigger] front[g]) by {
            assert(front[g] == gates[g]);
        }
        lemma_gates_round_trip(front);
        assert(is_plain_gate(gates[gates.len() - 1]));
        lemma_gate_round_trip(gates.last());
        assert(ls.drop_last() =~= gate_lines(front));
        assert(ls.last() == gate_line(gates.last()));
        assert(front.push(gates.last()) =~= gates);
        assert(gate_lines(front).push(ls.last()) =~= ls);
        assert forall|a: Seq<Seq<char>>| #[trigger]
            tail_scan(a + ls, gates.len()) == (a.len() as int, gates.len()) by {
            assert((a + ls).drop_last() =~= a + gate_lines(front));
            assert((a + ls).last() == ls.last());
            assert(tail_scan(a + gate_lines(front), front.len()) == (a.len() as int, front.len()));
        }
    } else {
        assert(gates =~= Seq::<GateView>::empty());
        assert(ls =~= Seq::<Seq<char>>::empty());
        assert forall|a: Seq<Seq<char>>| #[trigger]
            tail_scan(a + ls, gates.len()) == (a.len() as int, gates.len()) by {
            assert(a + ls =~= a);
        }
    }
}

/// The first line is read back as the two counts that it was written from.
pub proof fn lemma_count_line(ngates: usize, nwires: usize)
    ensures
        first_line_counts(count_line(ngates, nwires)) == Ok::<(usize, usize), BristolError>(
            (ngates, nwires),
        ),
        !is_blank(count_line(ngates, nwires)),
        is_plain_line(count_line(ngates, nwires)),
{
    let ws = seq![decimal(ngates as nat), decimal(nwires as nat)];
    lemma_parse_decimal(ngates);
    lemma_parse_decimal(nwires);
    lemma_tokens_of_joined(ws);
}

/// The circuit that the text of `c` is read back as: `c` with its first
/// header line written anew.
pub open spec fn read_back(c: CircuitView) -> CircuitView {
    CircuitView {
        header: HeaderView {
            raw: seq![count_line(c.header.ngates, c.header.nwires)] + later_lines(c.header.raw),
            ..c.header
        },
        gates: c.gates,
    }
}

/// Reading the text of a plain circuit gives that circuit, with its first
/// header line written anew; and the text of what was read is the same
/// text again, character by character, the blank lines of the header too.
pub proof fn law_text_round_trip(c: CircuitView)
    requires
        is_plain_circuit(c),
    ensures
        spec_parse(spec_text(c)) == Ok::<CircuitView, BristolError>(read_back(c)),
        spec_text(read_back(c)) == spec_text(c),
        spec_text(spec_parse(spec_text(c))->Ok_0) == spec_text(c),
        is_plain_circuit(read_back(c)),
{
    let first = count_line(c.header.ngates, c.header.nwires);
    let h = later_lines(c.header.raw);
    let g = gate_lines(c.gates);
    let all = emitted_lines(c);
    let head = seq![first] + h;
    lemma_count_line(c.header.ngates, c.header.nwires);
    lemma_gates_round_trip(c.gates);
    assert forall|i: int| 0 <= i < all.len() implies is_plain_line(#[trigger] all[i]) by {
        if i == 0 {
        } else if i < 1 + h.len() {
            assert(all[i] == c.header.raw[i]);
        } else {
            let j = i - 1 - h.len();
            assert(all[i] == gate_line(c.gates[j]));
            assert(is_plain_gate(c.gates[j]));
            lemma_gate_round_trip(c.gates[j]);
        }
    }
    lemma_lines_of_text(all);
    assert(lines(spec_text(c)) == all);
    assert(all[0] == first);
    assert(all =~= head + g);
    assert(tail_scan(head + g, c.gates.len()) == (head.len() as int, c.gates.len()));
    assert(all.take(head.len() as int) =~= head);
    assert(all.skip(head.len() as int) =~= g);
    assert(spec_split_sections(spec_text(c)) == Ok::<
        (Seq<Seq<char>>, Seq<Seq<char>>),
        BristolError,
    >((head, g)));
    let back = read_back(c);
    assert(later_lines(back.header.raw) =~= h);
    assert(emitted_lines(back) =~= all);
    assert forall|i: int| 1 <= i < back.header.raw.len() implies is_plain_line(
        #[trigger] back.header.raw[i],
    ) by {
        assert(back.header.raw[i] == all[i]);
    }
}

} // verus!
