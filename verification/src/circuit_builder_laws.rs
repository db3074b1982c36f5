//! What holds of the gates that a builder makes.

use crate::circuit::Gate;
use crate::circuit_builder::{
    gate_ok, kind_ok, lemma_needs_bounds, needs, state_ok, BuilderState, WireKind,
};
use crate::circuit_signal::{CircuitSignal, CircuitSignalData};
use vstd::prelude::*;

verus! {

/// Every wire that a gate reads lies below the wire that it writes, and holds
/// an input, a constant, or what an earlier gate wrote.
pub proof fn law_operands_defined_before(
    st: BuilderState,
    signals: Seq<CircuitSignal>,
    g: int,
    k: int,
)
    requires
        state_ok(st, signals),
        0 <= g < st.gates.len(),
        0 <= k < st.gates[g].spec_operands().len(),
    ensures
        ({
            let w = st.gates[g].spec_operands()[k];
            &&& w < st.gates[g].spec_output()
            &&& w < st.wire_count
            &&& match st.kinds[w as int] {
                WireKind::Input(_) => true,
                WireKind::Constant(_) => true,
                WireKind::Gate(h) => 0 <= h < g && st.gates[h].spec_output() == w,
            }
        }),
{
    assert(gate_ok(st, signals, g));
    let w = st.gates[g].spec_operands()[k];
    assert(w < st.gates[g].spec_output());
    assert(kind_ok(st, w as int));
    match st.kinds[w as int] {
        WireKind::Gate(h) => {
            if h >= g {
                if h > g {
                    assert(st.gates[g].spec_output() < st.gates[h].spec_output());
                }
            }
        },
        _ => {},
    }
}

/// Every wire below the number of wires holds exactly one thing: the input
/// that has this wire, the constant that has it, or what was written by a
/// gate that writes it; and the wires of the inputs come first.
pub proof fn law_wires_are_dense(st: BuilderState, signals: Seq<CircuitSignal>, w: int)
    requires
        state_ok(st, signals),
        0 <= w < st.wire_count,
    ensures
        match st.kinds[w] {
            WireKind::Input(id) => st.seeded.contains(id) && st.wires[id] == w,
            WireKind::Constant(c) => st.constants.contains_key(c) && st.constants[c] == w,
            WireKind::Gate(g) => 0 <= g < st.gates.len() && st.gates[g].spec_output() == w,
        },
        st.kinds[w] is Input ==> forall|v: int| 0 <= v < w ==> #[trigger] st.kinds[v] is Input,
{
    assert(kind_ok(st, w));
}

/// What a signal needs when more signals have wires, it needs when fewer
/// have.
pub proof fn lemma_needs_with_fewer(
    signals: Seq<CircuitSignal>,
    fewer: Set<usize>,
    more: Set<usize>,
    r: usize,
    x: usize,
)
    requires
        fewer.subset_of(more),
        needs(signals, more, r, x),
    ensures
        needs(signals, fewer, r, x),
    decreases r,
{
    if r != x {
        match signals[r as int].data {
            CircuitSignalData::Input => {},
            CircuitSignalData::UnaryOp(_, a) => {
                lemma_needs_with_fewer(signals, fewer, more, a->Signal_0.id, x);
            },
            CircuitSignalData::BinaryOp(_, l, rr) => {
                if l is Signal && l->Signal_0.id < r && needs(signals, more, l->Signal_0.id, x) {
                    lemma_needs_with_fewer(signals, fewer, more, l->Signal_0.id, x);
                } else {
                    lemma_needs_with_fewer(signals, fewer, more, rr->Signal_0.id, x);
                }
            },
        }
    }
}

/// What a signal with a gate needs has a gate.
proof fn lemma_gates_are_closed(st: BuilderState, signals: Seq<CircuitSignal>, q: usize, x: usize)
    requires
        state_ok(st, signals),
        st.order.contains(q),
        needs(signals, st.seeded, q, x),
    ensures
        st.order.contains(x),
    decreases q,
{
    if q != x {
        let g = choose|g: int| 0 <= g < st.order.len() && st.order[g] == q;
        assert(gate_ok(st, signals, g));
        match signals[q as int].data {
            CircuitSignalData::Input => {},
            CircuitSignalData::UnaryOp(_, a) => {
                let d = a->Signal_0.id;
                lemma_needs_bounds(signals, st.seeded, d, x);
                assert(needs(signals, st.seeded, d, d)) by {
                    reveal_with_fuel(needs, 2);
                }
                assert(st.wires.contains_key(d));
                lemma_gates_are_closed(st, signals, d, x);
            },
            CircuitSignalData::BinaryOp(_, l, r) => {
                if l is Signal && l->Signal_0.id < q && needs(signals, st.seeded, l->Signal_0.id, x) {
                    let d = l->Signal_0.id;
                    assert(!st.seeded.contains(d)) by {
                        reveal_with_fuel(needs, 2);
                    }
                    assert(st.wires.contains_key(d));
                    lemma_gates_are_closed(st, signals, d, x);
                } else {
                    let d = r->Signal_0.id;
                    assert(!st.seeded.contains(d)) by {
                        reveal_with_fuel(needs, 2);
                    }
                    assert(st.wires.contains_key(d));
                    lemma_gates_are_closed(st, signals, d, x);
                }
            },
        }
    }
}

/// What a signal needs when only the inputs have wires either has a gate
/// already or is needed still.
proof fn lemma_needed_still(st: BuilderState, signals: Seq<CircuitSignal>, r: usize, x: usize)
    requires
        state_ok(st, signals),
        needs(signals, st.seeded, r, x),
    ensures
        st.order.contains(x) || needs(signals, st.wires.dom(), r, x),
    decreases r,
{
    if st.order.contains(r) {
        lemma_gates_are_closed(st, signals, r, x);
    } else {
        assert(!st.wires.contains_key(r));
        if r != x {
            match signals[r as int].data {
                CircuitSignalData::Input => {},
                CircuitSignalData::UnaryOp(_, a) => {
                    lemma_needed_still(st, signals, a->Signal_0.id, x);
                },
                CircuitSignalData::BinaryOp(_, l, rr) => {
                    if l is Signal && l->Signal_0.id < r && needs(
                        signals,
                        st.seeded,
                        l->Signal_0.id,
                        x,
                    ) {
                        lemma_needed_still(st, signals, l->Signal_0.id, x);
                    } else {
                        lemma_needed_still(st, signals, rr->Signal_0.id, x);
                    }
                },
            }
        }
    }
}

/// Whether the signals with a gate are exactly those that the signals in
/// `roots` need when only the inputs have wires.
pub open spec fn covers(st: BuilderState, signals: Seq<CircuitSignal>, roots: Set<usize>) -> bool {
    forall|x: usize| #[trigger]
        st.order.contains(x) <==> exists|r: usize|
            roots.contains(r) && #[trigger] needs(signals, st.seeded, r, x)
}

/// After a signal was included with all that it needs, the signals with a
/// gate are those that it or one of the earlier roots needs.
pub proof fn lemma_covers_step(
    st: BuilderState,
    after: BuilderState,
    signals: Seq<CircuitSignal>,
    roots: Set<usize>,
    root: usize,
    ids: Seq<usize>,
)
    requires
        state_ok(st, signals),
        covers(st, signals, roots),
        after.seeded == st.seeded,
        after.order == st.order + ids,
        root < signals.len(),
        forall|x: usize| ids.contains(x) <==> needs(signals, st.wires.dom(), root, x),
    ensures
        covers(after, signals, roots.insert(root)),
{
    let more = roots.insert(root);
    assert(st.seeded.subset_of(st.wires.dom())) by {
        assert forall|x: usize| st.seeded.contains(x) implies st.wires.dom().contains(x) by {
            assert(st.wires.contains_key(x));
        }
    }
    assert forall|x: usize| #[trigger]
        after.order.contains(x) <==> exists|r: usize|
            more.contains(r) && #[trigger] needs(signals, after.seeded, r, x) by {
        if after.order.contains(x) {
            let k = choose|k: int| 0 <= k < after.order.len() && after.order[k] == x;
            if k < st.order.len() {
                assert(st.order[k] == x);
                assert(st.order.contains(x));
                let r = choose|r: usize|
                    roots.contains(r) && #[trigger] needs(signals, st.seeded, r, x);
                assert(more.contains(r));
            } else {
                assert(ids[k - st.order.len()] == x);
                assert(ids.contains(x));
                lemma_needs_with_fewer(signals, st.seeded, st.wires.dom(), root, x);
                assert(more.contains(root));
            }
        }
        if exists|r: usize| more.contains(r) && #[trigger] needs(signals, after.seeded, r, x) {
            let r = choose|r: usize|
                more.contains(r) && #[trigger] needs(signals, after.seeded, r, x);
            if r == root {
                lemma_needed_still(st, signals, root, x);
                if st.order.contains(x) {
                    let k = choose|k: int| 0 <= k < st.order.len() && st.order[k] == x;
                    assert(after.order[k] == x);
                } else {
                    assert(ids.contains(x));
                    let k = choose|k: int| 0 <= k < ids.len() && ids[k] == x;
                    assert(after.order[st.order.len() + k] == x);
                }
            } else {
                assert(roots.contains(r));
                assert(st.order.contains(x));
                let k = choose|k: int| 0 <= k < st.order.len() && st.order[k] == x;
                assert(after.order[k] == x);
            }
        }
    }
}

/// Nothing changes for what has a gate when a signal with a wire is named
/// as a root.
pub proof fn lemma_covers_included(
    st: BuilderState,
    signals: Seq<CircuitSignal>,
    roots: Set<usize>,
    root: usize,
)
    requires
        state_ok(st, signals),
        covers(st, signals, roots),
        st.wires.contains_key(root),
    ensures
        covers(st, signals, roots.insert(root)),
{
    let more = roots.insert(root);
    assert forall|x: usize| #[trigger]
        st.order.contains(x) <==> exists|r: usize|
            more.contains(r) && #[trigger] needs(signals, st.seeded, r, x) by {
        if st.order.contains(x) {
            let r = choose|r: usize|
                roots.contains(r) && #[trigger] needs(signals, st.seeded, r, x);
            assert(more.contains(r));
        }
        if exists|r: usize| more.contains(r) && #[trigger] needs(signals, st.seeded, r, x) {
            let r = choose|r: usize|
                more.contains(r) && #[trigger] needs(signals, st.seeded, r, x);
            if r == root {
                if st.order.contains(root) {
                    lemma_gates_are_closed(st, signals, root, x);
                }
            } else {
                assert(roots.contains(r));
            }
        }
    }
}

/// The signals that the signals in `roots` need when only the signals in
/// `seeded` have wires.
pub open spec fn reachable(signals: Seq<CircuitSignal>, seeded: Set<usize>, roots: Set<usize>) -> Set<
    usize,
> {
    Set::new(
        |x: usize| exists|r: usize| roots.contains(r) && #[trigger] needs(signals, seeded, r, x),
    )
}

/// There are as many gates as there are signals that the roots need: each
/// signal that is reached from a root without passing an input has one gate.
pub proof fn law_one_gate_for_each_signal(
    st: BuilderState,
    signals: Seq<CircuitSignal>,
    roots: Set<usize>,
)
    requires
        state_ok(st, signals),
        covers(st, signals, roots),
    ensures
        reachable(signals, st.seeded, roots).finite(),
        st.gates.len() == reachable(signals, st.seeded, roots).len(),
{
    st.order.unique_seq_to_set();
    assert(st.order.to_set() =~= reachable(signals, st.seeded, roots)) by {
        assert forall|x: usize|
            st.order.to_set().contains(x) == reachable(signals, st.seeded, roots).contains(x) by {
            assert(st.order.to_set().contains(x) == st.order.contains(x));
        }
    }
}

} // verus!
