//! What recycling makes of a chain of additions: however long the chain,
//! five wires are enough.

use crate::bristol::{BristolError, CircuitView, GateView};
use crate::recycle::{
    alloc_one, alloc_outs, expire_ins, expire_one, expires_at, initial_state, layout, read_after,
    run, spec_recycle, step, unused_inputs, wire_map, with_outputs, RecycleState,
};
use crate::recycle_laws::{law_recycle_succeeds, well_formed, written_before};
use vstd::prelude::*;

verus! {

/// Gate `i` of a chain of additions on two inputs: the first adds the
/// inputs, which are the wires 0 and 1; every later one adds the sum before
/// it and one of the inputs, in turn. Gate `i` writes the wire `i + 2`.
pub open spec fn chain_gate(i: int) -> GateView {
    GateView {
        k: 2,
        l: 1,
        ins: if i == 0 {
            seq![0usize, 1usize]
        } else {
            seq![(i + 1) as usize, (i % 2) as usize]
        },
        outs: seq![(i + 2) as usize],
        op: "ADD"@,
    }
}

/// A chain of `n` additions.
pub open spec fn chain_gates(n: nat) -> Seq<GateView> {
    Seq::new(n, |i: int| chain_gate(i))
}

/// Whether `c` is a chain of `n` additions with two input wires and one
/// output wire, which is the last of its `n + 2` wires.
pub open spec fn is_chain(c: CircuitView, n: nat) -> bool {
    &&& n + 2 <= usize::MAX
    &&& c.gates == chain_gates(n)
    &&& c.header.nwires == n + 2
    &&& layout(c) == Ok::<(usize, usize, usize), BristolError>((2, 1, (n + 1) as usize))
}

/// The wire that gate `i` writes.
pub open spec fn sum_wire(i: int) -> usize {
    (i + 2) as usize
}

/// The new wire of the sum that gate `i` writes, where it is not the last.
pub open spec fn working_wire(i: int) -> usize {
    (2 + i % 2) as usize
}

/// What holds after the first `g` gates of a chain of `n`, for `g` from one
/// up to all but the last gate.
spec fn chain_inv(n: nat, g: int, st: RecycleState) -> bool {
    &&& st.next == if g == 1 {
        3nat
    } else {
        4nat
    }
    &&& st.pool == if g == 1 {
        Seq::<usize>::empty()
    } else {
        seq![working_wire(g)]
    }
    &&& st.map.contains_key(0) && st.map[0] == 0
    &&& st.map.contains_key(1) && st.map[1] == 1
    &&& forall|i: int|
        0 <= i < g ==> st.map.contains_key(#[trigger] sum_wire(i)) && st.map[sum_wire(i)]
            == working_wire(i)
}

/// The sum of a gate is read by its successor alone.
proof fn lemma_read_once(n: nat, g: int)
    requires
        1 <= g < n,
        n + 2 <= usize::MAX,
    ensures
        !read_after(chain_gates(n), g, (g + 1) as usize),
{
    let gates = chain_gates(n);
    let w = (g + 1) as usize;
    if read_after(gates, g, w) {
        let h = choose|h: int| g < h < gates.len() && #[trigger] gates[h].ins.contains(w);
        let j = choose|j: int| 0 <= j < gates[h].ins.len() && gates[h].ins[j] == w;
        assert(gates[h] == chain_gate(h));
        assert(j == 0 || j == 1);
    }
}

/// Both inputs are read.
proof fn lemma_inputs_read(n: nat)
    requires
        1 <= n,
    ensures
        read_after(chain_gates(n), -1, 0),
        read_after(chain_gates(n), -1, 1),
        unused_inputs(chain_gates(n), (n + 1) as usize, 2) == Seq::<usize>::empty(),
{
    let gates = chain_gates(n);
    assert(gates[0] == chain_gate(0));
    assert(gates[0].ins[0] == 0 && gates[0].ins[1] == 1);
    assert(gates[0].ins.contains(0));
    assert(gates[0].ins.contains(1));
    reveal_with_fuel(unused_inputs, 3);
}

/// The state after gate `g` of a chain, where `g` is not its last gate.
proof fn lemma_chain_step(n: nat, g: int, st: RecycleState)
    requires
        n + 2 <= usize::MAX,
        1 <= g < n - 1,
        chain_inv(n, g, st),
    ensures
        step(chain_gates(n), st, g, 2, (n + 1) as usize) is Ok,
        chain_inv(n, g + 1, step(chain_gates(n), st, g, 2, (n + 1) as usize)->Ok_0),
{
    let gates = chain_gates(n);
    let out_base = (n + 1) as usize;
    let gate = gates[g];
    assert(gate == chain_gate(g));
    let o = (g + 2) as usize;
    let w = (g + 1) as usize;
    reveal_with_fuel(alloc_outs, 2);
    reveal_with_fuel(expire_ins, 3);
    let s1 = alloc_one(st, o, out_base)->Ok_0;
    assert(alloc_outs(st, gate.outs, 1, out_base) == alloc_one(st, o, out_base));
    assert(s1.map == st.map.insert(o, working_wire(g)));
    assert(s1.pool == Seq::<usize>::empty()) by {
        if g > 1 {
            assert(st.pool.drop_first() =~= Seq::<usize>::empty());
        }
    }
    assert(s1.next == 4);
    lemma_read_once(n, g);
    assert(expires_at(gates, g, w, 2, out_base));
    assert(gate.ins.take(0) =~= Seq::<usize>::empty());
    assert(s1.map.contains_key(w) && s1.map[w] == working_wire(g - 1)) by {
        assert(st.map.contains_key(sum_wire(g - 1)));
    }
    let s2 = expire_one(gates, s1, g, 0, 2, out_base)->Ok_0;
    assert(s2.pool =~= seq![working_wire(g + 1)]) by {
        assert(working_wire(g - 1) == working_wire(g + 1));
    }
    assert(!expires_at(gates, g, gate.ins[1], 2, out_base));
    let s3 = expire_one(gates, s2, g, 1, 2, out_base)->Ok_0;
    assert(s3 == s2);
    assert(step(gates, st, g, 2, out_base) == Ok::<RecycleState, BristolError>(s3));
    assert forall|i: int| 0 <= i < g + 1 implies s3.map.contains_key(#[trigger] sum_wire(i))
        && s3.map[sum_wire(i)] == working_wire(i) by {
        if i < g {
            assert(st.map.contains_key(sum_wire(i)));
        }
    }
}

/// The state after the first `g` gates of a chain, where the last gate is
/// not among them.
proof fn lemma_chain_run(n: nat, g: nat)
    requires
        n + 2 <= usize::MAX,
        1 <= g <= n - 1,
    ensures
        run(chain_gates(n), g, 2, (n + 1) as usize) is Ok,
        chain_inv(n, g as int, run(chain_gates(n), g, 2, (n + 1) as usize)->Ok_0),
    decreases g,
{
    let gates = chain_gates(n);
    let out_base = (n + 1) as usize;
    if g == 1 {
        reveal_with_fuel(run, 2);
        lemma_inputs_read(n);
        let st = initial_state(gates, 2, out_base);
        let gate = gates[0];
        assert(gate == chain_gate(0));
        reveal_with_fuel(alloc_outs, 2);
        reveal_with_fuel(expire_ins, 3);
        let s1 = alloc_one(st, 2, out_base)->Ok_0;
        assert(alloc_outs(st, gate.outs, 1, out_base) == alloc_one(st, 2, out_base));
        assert(!expires_at(gates, 0, gate.ins[0], 2, out_base));
        assert(!expires_at(gates, 0, gate.ins[1], 2, out_base));
        assert(step(gates, st, 0, 2, out_base) == Ok::<RecycleState, BristolError>(s1));
        assert(s1.map[sum_wire(0)] == working_wire(0));
    } else {
        lemma_chain_run(n, (g - 1) as nat);
        let st = run(gates, (g - 1) as nat, 2, out_base)->Ok_0;
        lemma_chain_step(n, g - 1, st);
    }
}

/// A chain of three or more additions is recycled to five wires: the two
/// inputs keep theirs, the sums take turns on the wires 2 and 3, and the last
/// sum, which is the output, is on the wire 4.
pub proof fn law_a_chain_needs_five_wires(c: CircuitView, n: nat)
    requires
        3 <= n,
        is_chain(c, n),
    ensures
        wire_map(c) is Ok,
        wire_map(c)->Ok_0.1 == 5,
        ({
            let map = wire_map(c)->Ok_0.0;
            &&& map.contains_key(0) && map[0] == 0
            &&& map.contains_key(1) && map[1] == 1
            &&& forall|i: int|
                0 <= i < n - 1 ==> map.contains_key(#[trigger] sum_wire(i)) && map[sum_wire(i)]
                    == working_wire(i)
            &&& map.contains_key((n + 1) as usize) && map[(n + 1) as usize] == 4
        }),
{
    let gates = chain_gates(n);
    let out_base = (n + 1) as usize;
    lemma_chain_run(n, (n - 1) as nat);
    let st = run(gates, (n - 1) as nat, 2, out_base)->Ok_0;
    let g = n - 1;
    let gate = gates[g];
    assert(gate == chain_gate(g));
    reveal_with_fuel(alloc_outs, 2);
    reveal_with_fuel(expire_ins, 3);
    assert(alloc_outs(st, gate.outs, 1, out_base) == alloc_one(st, out_base, out_base));
    assert(alloc_one(st, out_base, out_base) == Ok::<RecycleState, BristolError>(st));
    let w = (g + 1) as usize;
    lemma_read_once(n, g);
    assert(gate.ins.take(0) =~= Seq::<usize>::empty());
    assert(st.map.contains_key(w)) by {
        assert(st.map.contains_key(sum_wire(g - 1)));
    }
    let s2 = expire_one(gates, st, g, 0, 2, out_base)->Ok_0;
    assert(!expires_at(gates, g, gate.ins[1], 2, out_base));
    assert(expire_one(gates, s2, g, 1, 2, out_base) == Ok::<RecycleState, BristolError>(s2));
    assert(step(gates, st, g, 2, out_base) == Ok::<RecycleState, BristolError>(s2));
    assert(run(gates, n, 2, out_base) == Ok::<RecycleState, BristolError>(s2));
    assert(s2.next == 4 && s2.map == st.map);
    let map = with_outputs(s2.map, out_base, 1, 4);
    assert(wire_map(c) == Ok::<(Map<usize, usize>, usize), BristolError>((map, 5)));
    assert forall|i: int| 0 <= i < n - 1 implies map.contains_key(#[trigger] sum_wire(i))
        && map[sum_wire(i)] == working_wire(i) by {
        assert(st.map.contains_key(sum_wire(i)));
    }
}

/// A chain is well-formed: every sum is written once, before it is read.
pub proof fn lemma_chain_is_well_formed(c: CircuitView, n: nat)
    requires
        1 <= n,
        is_chain(c, n),
    ensures
        well_formed(c),
{
    let gates = c.gates;
    assert forall|g: int, j: int| 0 <= g < gates.len() && 0 <= j < gates[g].outs.len() implies 2
        <= #[trigger] gates[g].outs[j] < c.header.nwires by {
        assert(gates[g] == chain_gate(g));
    }
    assert forall|g: int, j: int| 0 <= g < gates.len() && 0 <= j < gates[g].ins.len() implies {
        let w = #[trigger] gates[g].ins[j];
        w < 2 || written_before(gates, g, w)
    } by {
        assert(gates[g] == chain_gate(g));
        if g > 0 && j == 0 {
            assert(gates[g - 1] == chain_gate(g - 1));
            assert(gates[g - 1].outs[0] == gates[g].ins[0]);
            assert(gates[g - 1].outs.contains(gates[g].ins[0]));
        }
    }
    assert forall|g1: int, j1: int, g2: int, j2: int|
        0 <= g1 < gates.len() && 0 <= j1 < gates[g1].outs.len() && 0 <= g2 < gates.len() && 0
            <= j2 < gates[g2].outs.len() && #[trigger] gates[g1].outs[j1]
            == #[trigger] gates[g2].outs[j2] implies g1 == g2 && j1 == j2 by {
        assert(gates[g1] == chain_gate(g1));
        assert(gates[g2] == chain_gate(g2));
    }
}

/// The recycled chain of three or more additions: it has five wires, its
/// gates but the last write the wires 2 and 3 in turn, and the last writes the
/// wire 4.
pub proof fn law_the_recycled_chain(c: CircuitView, n: nat)
    requires
        3 <= n,
        is_chain(c, n),
    ensures
        spec_recycle(c) is Ok,
        spec_recycle(c)->Ok_0.header.nwires == 5,
        spec_recycle(c)->Ok_0.gates.len() == n,
        forall|i: int|
            0 <= i < n - 1 ==> (#[trigger] spec_recycle(c)->Ok_0.gates[i]).outs == seq![
                working_wire(i),
            ],
        spec_recycle(c)->Ok_0.gates[n - 1].outs == seq![4usize],
{
    lemma_chain_is_well_formed(c, n);
    law_recycle_succeeds(c);
    law_a_chain_needs_five_wires(c, n);
    let d = spec_recycle(c)->Ok_0;
    let map = wire_map(c)->Ok_0.0;
    assert forall|i: int| 0 <= i < n - 1 implies (#[trigger] d.gates[i]).outs == seq![
        working_wire(i),
    ] by {
        assert(c.gates[i] == chain_gate(i));
        assert(map.contains_key(sum_wire(i)));
        assert(d.gates[i].outs[0] == map[c.gates[i].outs[0]]);
        assert(d.gates[i].outs =~= seq![working_wire(i)]);
    }
    assert(c.gates[n - 1] == chain_gate(n - 1));
    assert(d.gates[n - 1].outs[0] == map[c.gates[n - 1].outs[0]]);
    assert(d.gates[n - 1].outs =~= seq![4usize]);
}

} // verus!
