//! Wire recycling: a circuit whose every gate writes a wire of its own is
//! renumbered so that a wire is used again once nothing reads its old value.
//!
//! The input wires `0 .. input_len` keep their numbers. The output wires, the
//! last `output_length` wires of the circuit, become the last wires of the
//! new circuit, in the same order. Every other wire that a gate writes gets the
//! wire that has been free for the longest time, or a new one where none is
//! free. A wire becomes free after the last gate that reads it; an input wire
//! is free from the start if no gate reads it, and never otherwise.

use crate::bristol::{
    count_line, gate_views, input_len, output_length, spec_input_len, spec_output_length,
    BristolCircuit, BristolError, CircuitView, Gate, GateView, Header, HeaderView,
};
use crate::text::{push_decimal, string_of, string_views};
use std::collections::HashMap;
use std::collections::VecDeque;
use vstd::prelude::*;

verus! {

/// Where the renumbering stands between two gates.
pub struct RecycleState {
    /// The new wire of each old wire that has one.
    pub map: Map<usize, usize>,
    /// The new wires that are free, the one that was freed first in front.
    pub pool: Seq<usize>,
    /// The number of new wires handed out so far.
    pub next: nat,
}

/// Whether a gate after position `g` reads the wire `w`.
pub open spec fn read_after(gates: Seq<GateView>, g: int, w: usize) -> bool {
    exists|h: int| g < h < gates.len() && #[trigger] gates[h].ins.contains(w)
}

/// The input wires below `n` that no gate reads and that are no output wires,
/// in rising order.
pub open spec fn unused_inputs(gates: Seq<GateView>, out_base: usize, n: nat) -> Seq<usize>
    decreases n,
{
    if n == 0 {
        Seq::empty()
    } else {
        let front = unused_inputs(gates, out_base, (n - 1) as nat);
        let w = (n - 1) as usize;
        if w < out_base && !read_after(gates, -1, w) {
            front.push(w)
        } else {
            front
        }
    }
}

/// The state before the first gate: the inputs stand for themselves, and the
/// unused ones are free.
pub open spec fn initial_state(gates: Seq<GateView>, in_len: usize, out_base: usize) -> RecycleState {
    RecycleState {
        map: Map::new(|w: usize| w < in_len, |w: usize| w),
        pool: unused_inputs(gates, out_base, in_len as nat),
        next: in_len as nat,
    }
}

/// Gives the wire `w`, written by a gate, its new wire. An output wire gets
/// none yet.
pub open spec fn alloc_one(st: RecycleState, w: usize, out_base: usize) -> Result<
    RecycleState,
    BristolError,
> {
    if w >= out_base {
        Ok(st)
    } else if st.pool.len() > 0 {
        Ok(RecycleState { map: st.map.insert(w, st.pool[0]), pool: st.pool.drop_first(), ..st })
    } else if st.next >= usize::MAX {
        Err(BristolError::Overflow)
    } else {
        Ok(RecycleState { map: st.map.insert(w, st.next as usize), next: st.next + 1, ..st })
    }
}

/// Gives the first `n` wires of `outs` their new wires, in order.
pub open spec fn alloc_outs(st: RecycleState, outs: Seq<usize>, n: nat, out_base: usize) -> Result<
    RecycleState,
    BristolError,
>
    decreases n,
{
    if n == 0 {
        Ok(st)
    } else {
        match alloc_outs(st, outs, (n - 1) as nat, out_base) {
            Err(e) => Err(e),
            Ok(s) => alloc_one(s, outs[n - 1], out_base),
        }
    }
}

/// Whether the wire `w`, read by gate `g`, becomes free after that
/// gate: it is neither an input nor an output wire, and no later gate reads it.
pub open spec fn expires_at(
    gates: Seq<GateView>,
    g: int,
    w: usize,
    in_len: usize,
    out_base: usize,
) -> bool {
    in_len <= w < out_base && !read_after(gates, g, w)
}

/// Frees the wire at position `j` of the inputs of gate `g`, if it
/// becomes free there and stands at no earlier position.
pub open spec fn expire_one(
    gates: Seq<GateView>,
    st: RecycleState,
    g: int,
    j: int,
    in_len: usize,
    out_base: usize,
) -> Result<RecycleState, BristolError> {
    let w = gates[g].ins[j];
    if expires_at(gates, g, w, in_len, out_base) && !gates[g].ins.take(j).contains(w) {
        if st.map.contains_key(w) {
            Ok(RecycleState { pool: st.pool.push(st.map[w]), ..st })
        } else {
            Err(BristolError::UndefinedWire(w))
        }
    } else {
        Ok(st)
    }
}

/// Frees what becomes free among the first `n` inputs of gate `g`.
pub open spec fn expire_ins(
    gates: Seq<GateView>,
    st: RecycleState,
    g: int,
    n: nat,
    in_len: usize,
    out_base: usize,
) -> Result<RecycleState, BristolError>
    decreases n,
{
    if n == 0 {
        Ok(st)
    } else {
        match expire_ins(gates, st, g, (n - 1) as nat, in_len, out_base) {
            Err(e) => Err(e),
            Ok(s) => expire_one(gates, s, g, n - 1, in_len, out_base),
        }
    }
}

/// The state after gate `g`: its outputs get their wires, then the
/// wires that it read for the last time become free.
pub open spec fn step(
    gates: Seq<GateView>,
    st: RecycleState,
    g: int,
    in_len: usize,
    out_base: usize,
) -> Result<RecycleState, BristolError> {
    match alloc_outs(st, gates[g].outs, gates[g].outs.len(), out_base) {
        Err(e) => Err(e),
        Ok(s) => expire_ins(gates, s, g, gates[g].ins.len(), in_len, out_base),
    }
}

/// The state after the first `n` gates.
pub open spec fn run(gates: Seq<GateView>, n: nat, in_len: usize, out_base: usize) -> Result<
    RecycleState,
    BristolError,
>
    decreases n,
{
    if n == 0 {
        Ok(initial_state(gates, in_len, out_base))
    } else {
        match run(gates, (n - 1) as nat, in_len, out_base) {
            Err(e) => Err(e),
            Ok(s) => step(gates, s, n - 1, in_len, out_base),
        }
    }
}

/// Gives the first `n` output wires the new wires from `base` on.
pub open spec fn with_outputs(map: Map<usize, usize>, out_base: usize, n: nat, base: nat) -> Map<
    usize,
    usize,
> {
    Map::new(
        |w: usize| map.contains_key(w) || out_base <= w < out_base + n,
        |w: usize|
            if out_base <= w < out_base + n {
                (base + (w - out_base)) as usize
            } else {
                map[w]
            },
    )
}

/// The new wires of `ws`, or the first of them that has none.
pub open spec fn map_wires(ws: Seq<usize>, map: Map<usize, usize>) -> Result<
    Seq<usize>,
    BristolError,
>
    decreases ws.len(),
{
    if ws.len() == 0 {
        Ok(Seq::empty())
    } else {
        match map_wires(ws.drop_last(), map) {
            Err(e) => Err(e),
            Ok(front) => if map.contains_key(ws.last()) {
                Ok(front.push(map[ws.last()]))
            } else {
                Err(BristolError::UndefinedWire(ws.last()))
            },
        }
    }
}

/// Gate `g` on the new wires.
pub open spec fn rewrite_gate(g: GateView, map: Map<usize, usize>) -> Result<
    GateView,
    BristolError,
> {
    match map_wires(g.ins, map) {
        Err(e) => Err(e),
        Ok(ins) => match map_wires(g.outs, map) {
            Err(e) => Err(e),
            Ok(outs) => Ok(GateView { ins, outs, ..g }),
        },
    }
}

/// The gates on the new wires.
pub open spec fn rewrite_gates(gates: Seq<GateView>, map: Map<usize, usize>) -> Result<
    Seq<GateView>,
    BristolError,
>
    decreases gates.len(),
{
    if gates.len() == 0 {
        Ok(Seq::empty())
    } else {
        match rewrite_gates(gates.drop_last(), map) {
            Err(e) => Err(e),
            Ok(front) => match rewrite_gate(gates.last(), map) {
                Err(e) => Err(e),
                Ok(g) => Ok(front.push(g)),
            },
        }
    }
}

/// The numbers that the renumbering of `c` rests on: the number of input
/// wires, the number of output wires and the first output wire.
pub open spec fn layout(c: CircuitView) -> Result<(usize, usize, usize), BristolError> {
    match spec_input_len(c.header) {
        Err(e) => Err(e),
        Ok(in_len) => match spec_output_length(c.header) {
            Err(e) => Err(e),
            Ok(out_len) => if out_len > c.header.nwires {
                Err(BristolError::TooFewWires)
            } else {
                Ok((in_len, out_len, (c.header.nwires - out_len) as usize))
            },
        },
    }
}

/// The new wire of each old wire of `c` and the number of new wires.
pub open spec fn wire_map(c: CircuitView) -> Result<(Map<usize, usize>, usize), BristolError> {
    match layout(c) {
        Err(e) => Err(e),
        Ok((in_len, out_len, out_base)) => match run(c.gates, c.gates.len(), in_len, out_base) {
            Err(e) => Err(e),
            Ok(st) => if st.next + out_len > usize::MAX {
                Err(BristolError::Overflow)
            } else {
                Ok(
                    (
                        with_outputs(st.map, out_base, out_len as nat, st.next),
                        (st.next + out_len) as usize,
                    ),
                )
            },
        },
    }
}

/// The circuit `c` with its wires recycled.
pub open spec fn spec_recycle(c: CircuitView) -> Result<CircuitView, BristolError> {
    match wire_map(c) {
        Err(e) => Err(e),
        Ok((map, nwires)) => match rewrite_gates(c.gates, map) {
            Err(e) => Err(e),
            Ok(gates) => Ok(
                CircuitView {
                    header: HeaderView {
                        raw: seq![count_line(gates.len() as usize, nwires)] + c.header.raw.skip(1),
                        ngates: gates.len() as usize,
                        nwires,
                    },
                    gates,
                },
            ),
        },
    }
}


/// What `lu` must hold to be the table of last reads of `gates`: for each wire
/// that a gate reads, the position of the last gate that reads it.
pub open spec fn is_last_use(gates: Seq<GateView>, lu: Map<usize, usize>) -> bool {
    &&& forall|w: usize| #[trigger]
        lu.contains_key(w) ==> lu[w] < gates.len() && gates[lu[w] as int].ins.contains(w)
            && !read_after(gates, lu[w] as int, w)
    &&& forall|h: int, w: usize|
        0 <= h < gates.len() && #[trigger] gates[h].ins.contains(w) ==> lu.contains_key(w)
}

/// The table of last reads while it is filled: the gates before `g` are in it,
/// and the first `j` inputs of gate `g`.
spec fn is_last_use_upto(gates: Seq<GateView>, lu: Map<usize, usize>, g: int, j: int) -> bool {
    &&& forall|w: usize| #[trigger]
        lu.contains_key(w) ==> {
            &&& lu[w] <= g
            &&& lu[w] < gates.len()
            &&& gates[lu[w] as int].ins.contains(w)
            &&& forall|h: int| lu[w] < h < g ==> !(#[trigger] gates[h].ins.contains(w))
            &&& lu[w] < g ==> !gates[g].ins.take(j).contains(w)
            &&& lu[w] == g ==> gates[g].ins.take(j).contains(w)
        }
    &&& forall|h: int, w: usize|
        0 <= h < g && #[trigger] gates[h].ins.contains(w) ==> lu.contains_key(w)
    &&& forall|i: int| 0 <= i < j ==> lu.contains_key(#[trigger] gates[g].ins[i])
}

/// The new wire of each old wire: the inputs stand for themselves unless
/// `overrides` says otherwise.
pub open spec fn full_map(overrides: Map<usize, usize>, in_len: usize) -> Map<usize, usize> {
    Map::new(
        |w: usize| w < in_len || overrides.contains_key(w),
        |w: usize|
            if overrides.contains_key(w) {
                overrides[w]
            } else {
                w
            },
    )
}

/// For each wire that a gate reads, the position of the last gate that reads
/// it.
fn last_uses(gates: &Vec<Gate>) -> (lu: HashMap<usize, usize>)
    ensures
        is_last_use(gate_views(gates@), lu@),
{
    broadcast use vstd::std_specs::hash::group_hash_axioms;

    let ghost gs = gate_views(gates@);
    let mut lu: HashMap<usize, usize> = HashMap::new();
    let mut g: usize = 0;
    while g < gates.len()
        invariant
            g <= gates.len(),
            gs == gate_views(gates@),
            g < gates.len() ==> is_last_use_upto(gs, lu@, g as int, 0),
            g == gates.len() ==> is_last_use(gs, lu@),
        decreases gates.len() - g,
    {
        let gate = &gates[g];
        assert(gs[g as int] == gate@);
        let mut j: usize = 0;
        while j < gate.ins.len()
            invariant
                g < gates.len(),
                j <= gate.ins.len(),
                gs == gate_views(gates@),
                gs[g as int] == gate@,
                is_last_use_upto(gs, lu@, g as int, j as int),
            decreases gate.ins.len() - j,
        {
            let w = gate.ins[j];
            let ghost before = lu@;
            lu.insert(w, g);
            proof {
                let ins = gs[g as int].ins;
                assert(ins.take(j + 1) =~= ins.take(j as int).push(w));
                assert(ins.take(j + 1).contains(w)) by {
                    assert(ins.take(j + 1)[j as int] == w);
                }
                assert(ins.contains(w)) by {
                    assert(ins[j as int] == w);
                }
                assert forall|x: usize| #[trigger] lu@.contains_key(x) implies {
                    &&& lu@[x] <= g
                    &&& lu@[x] < gs.len()
                    &&& gs[lu@[x] as int].ins.contains(x)
                    &&& forall|h: int| lu@[x] < h < g ==> !(#[trigger] gs[h].ins.contains(x))
                    &&& lu@[x] < g ==> !ins.take(j + 1).contains(x)
                    &&& lu@[x] == g ==> ins.take(j + 1).contains(x)
                } by {
                    if x != w {
                        assert(before.contains_key(x));
                        let t0 = ins.take(j as int);
                        let t1 = ins.take(j + 1);
                        if t1.contains(x) {
                            let i = choose|i: int| 0 <= i < t1.len() && t1[i] == x;
                            assert(t0[i] == x);
                        }
                        if t0.contains(x) {
                            let i = choose|i: int| 0 <= i < t0.len() && t0[i] == x;
                            assert(t1[i] == x);
                        }
                    }
                }
                assert forall|i: int| 0 <= i < j + 1 implies lu@.contains_key(
                    #[trigger] gs[g as int].ins[i],
                ) by {
                    if i < j {
                        assert(before.contains_key(gs[g as int].ins[i]));
                    }
                }
            }
            j += 1;
        }
        proof {
            let ins = gs[g as int].ins;
            assert(ins.take(j as int) =~= ins);
            if g + 1 < gates.len() {
                assert forall|x: usize| #[trigger] lu@.contains_key(x) implies {
                    &&& lu@[x] <= g + 1
                    &&& lu@[x] < gs.len()
                    &&& gs[lu@[x] as int].ins.contains(x)
                    &&& forall|h: int| lu@[x] < h < g + 1 ==> !(#[trigger] gs[h].ins.contains(x))
                    &&& lu@[x] < g + 1 ==> !gs[g + 1].ins.take(0).contains(x)
                    &&& lu@[x] == g + 1 ==> gs[g + 1].ins.take(0).contains(x)
                } by {
                    assert(gs[g + 1].ins.take(0) =~= Seq::<usize>::empty());
                }
                assert forall|h: int, x: usize|
                    0 <= h < g + 1 && #[trigger] gs[h].ins.contains(x) implies lu@.contains_key(
                    x,
                ) by {
                    if h == g {
                        let i = choose|i: int| 0 <= i < ins.len() && ins[i] == x;
                        assert(lu@.contains_key(gs[g as int].ins[i]));
                    }
                }
                assert(is_last_use_upto(gs, lu@, g + 1, 0));
            } else {
                assert forall|x: usize| #[trigger] lu@.contains_key(x) implies lu@[x] < gs.len()
                    && gs[lu@[x] as int].ins.contains(x) && !read_after(gs, lu@[x] as int, x) by {
                    if read_after(gs, lu@[x] as int, x) {
                        let h = choose|h: int|
                            lu@[x] < h < gs.len() && #[trigger] gs[h].ins.contains(x);
                        if h < g {
                        } else {
                            assert(h == g);
                        }
                    }
                }
                assert forall|h: int, x: usize|
                    0 <= h < gs.len() && #[trigger] gs[h].ins.contains(x) implies lu@.contains_key(
                    x,
                ) by {
                    if h == g {
                        let i = choose|i: int| 0 <= i < ins.len() && ins[i] == x;
                        assert(lu@.contains_key(gs[g as int].ins[i]));
                    }
                }
            }
        }
        g += 1;
    }
    lu
}

/// The unused input wires, in rising order.
fn free_inputs(
    in_len: usize,
    out_base: usize,
    lu: &HashMap<usize, usize>,
    Ghost(gs): Ghost<Seq<GateView>>,
) -> (pool: VecDeque<usize>)
    requires
        is_last_use(gs, lu@),
    ensures
        pool@ == unused_inputs(gs, out_base, in_len as nat),
{
    broadcast use vstd::std_specs::hash::group_hash_axioms;

    let mut pool: VecDeque<usize> = VecDeque::new();
    let mut i: usize = 0;
    while i < in_len
        invariant
            i <= in_len,
            is_last_use(gs, lu@),
            pool@ == unused_inputs(gs, out_base, i as nat),
        decreases in_len - i,
    {
        let read = lu.contains_key(&i);
        proof {
            if read {
                assert(gs[lu@[i] as int].ins.contains(i));
                assert(read_after(gs, -1, i));
            } else if read_after(gs, -1, i) {
                let h = choose|h: int| -1 < h < gs.len() && #[trigger] gs[h].ins.contains(i);
                assert(lu@.contains_key(i));
            }
        }
        if !read && i < out_base {
            pool.push_back(i);
        }
        i += 1;
    }
    pool
}

/// The new wire of `w`, if it has one.
fn lookup(overrides: &HashMap<usize, usize>, in_len: usize, w: usize) -> (r: Option<usize>)
    ensures
        r is Some <==> full_map(overrides@, in_len).contains_key(w),
        r is Some ==> r->0 == full_map(overrides@, in_len)[w],
{
    broadcast use vstd::std_specs::hash::group_hash_axioms;

    match overrides.get(&w) {
        Some(v) => Some(*v),
        None => if w < in_len {
            Some(w)
        } else {
            None
        },
    }
}

/// Whether `w` stands among the first `j` wires of `ws`.
fn seen_before(ws: &Vec<usize>, j: usize, w: usize) -> (r: bool)
    requires
        j <= ws.len(),
    ensures
        r == ws@.take(j as int).contains(w),
{
    let mut i: usize = 0;
    while i < j
        invariant
            i <= j <= ws.len(),
            forall|k: int| 0 <= k < i ==> ws@[k] != w,
        decreases j - i,
    {
        if ws[i] == w {
            assert(ws@.take(j as int)[i as int] == w);
            return true;
        }
        i += 1;
    }
    false
}

/// The wires `ws` on the new wires.
fn rewrite_wires(ws: &Vec<usize>, overrides: &HashMap<usize, usize>, in_len: usize) -> (r: Result<
    Vec<usize>,
    BristolError,
>)
    ensures
        match r {
            Ok(v) => map_wires(ws@, full_map(overrides@, in_len)) == Ok::<
                Seq<usize>,
                BristolError,
            >(v@),
            Err(e) => map_wires(ws@, full_map(overrides@, in_len)) == Err::<
                Seq<usize>,
                BristolError,
            >(e),
        },
{
    let ghost map = full_map(overrides@, in_len);
    let mut out: Vec<usize> = Vec::new();
    let mut i: usize = 0;
    while i < ws.len()
        invariant
            i <= ws.len(),
            map == full_map(overrides@, in_len),
            map_wires(ws@.take(i as int), map) == Ok::<Seq<usize>, BristolError>(out@),
        decreases ws.len() - i,
    {
        assert(ws@.take(i + 1).drop_last() =~= ws@.take(i as int));
        match lookup(overrides, in_len, ws[i]) {
            Some(v) => {
                out.push(v);
            },
            None => {
                proof {
                    lemma_map_wires_prefix_error(
                        ws@,
                        map,
                        i + 1,
                        BristolError::UndefinedWire(ws@[i as int]),
                    );
                }
                return Err(BristolError::UndefinedWire(ws[i]));
            },
        }
        i += 1;
    }
    assert(ws@.take(i as int) =~= ws@);
    Ok(out)
}

proof fn lemma_map_wires_prefix_error(
    ws: Seq<usize>,
    map: Map<usize, usize>,
    n: int,
    e: BristolError,
)
    requires
        0 <= n <= ws.len(),
        map_wires(ws.take(n), map) == Err::<Seq<usize>, BristolError>(e),
    ensures
        map_wires(ws, map) == Err::<Seq<usize>, BristolError>(e),
    decreases ws.len() - n,
{
    if n < ws.len() {
        assert(ws.take(n + 1).drop_last() =~= ws.take(n));
        lemma_map_wires_prefix_error(ws, map, n + 1, e);
    } else {
        assert(ws.take(n) =~= ws);
    }
}

proof fn lemma_rewrite_gates_prefix_error(
    gates: Seq<GateView>,
    map: Map<usize, usize>,
    n: int,
    e: BristolError,
)
    requires
        0 <= n <= gates.len(),
        rewrite_gates(gates.take(n), map) == Err::<Seq<GateView>, BristolError>(e),
    ensures
        rewrite_gates(gates, map) == Err::<Seq<GateView>, BristolError>(e),
    decreases gates.len() - n,
{
    if n < gates.len() {
        assert(gates.take(n + 1).drop_last() =~= gates.take(n));
        lemma_rewrite_gates_prefix_error(gates, map, n + 1, e);
    } else {
        assert(gates.take(n) =~= gates);
    }
}

/// The gates on the new wires.
fn rewrite(gates: &Vec<Gate>, overrides: &HashMap<usize, usize>, in_len: usize) -> (r: Result<
    Vec<Gate>,
    BristolError,
>)
    ensures
        match r {
            Ok(v) => rewrite_gates(gate_views(gates@), full_map(overrides@, in_len)) == Ok::<
                Seq<GateView>,
                BristolError,
            >(gate_views(v@)),
            Err(e) => rewrite_gates(gate_views(gates@), full_map(overrides@, in_len)) == Err::<
                Seq<GateView>,
                BristolError,
            >(e),
        },
{
    let ghost map = full_map(overrides@, in_len);
    let ghost gs = gate_views(gates@);
    let mut out: Vec<Gate> = Vec::new();
    let mut i: usize = 0;
    assert(gs.take(0) =~= Seq::<GateView>::empty());
    assert(gate_views(out@) =~= Seq::<GateView>::empty());
    while i < gates.len()
        invariant
            i <= gates.len(),
            map == full_map(overrides@, in_len),
            gs == gate_views(gates@),
            rewrite_gates(gs.take(i as int), map) == Ok::<Seq<GateView>, BristolError>(
                gate_views(out@),
            ),
        decreases gates.len() - i,
    {
        let gate = &gates[i];
        assert(gs.take(i + 1).drop_last() =~= gs.take(i as int));
        assert(gs.take(i + 1).last() == gate@);
        let ins = match rewrite_wires(&gate.ins, overrides, in_len) {
            Ok(ins) => ins,
            Err(e) => {
                proof {
                    lemma_rewrite_gates_prefix_error(gs, map, i + 1, e);
                }
                return Err(e);
            },
        };
        let outs = match rewrite_wires(&gate.outs, overrides, in_len) {
            Ok(outs) => outs,
            Err(e) => {
                proof {
                    lemma_rewrite_gates_prefix_error(gs, map, i + 1, e);
                }
                return Err(e);
            },
        };
        let ghost prev = gate_views(out@);
        let new_gate = Gate { k: gate.k, l: gate.l, ins, outs, op: gate.op.clone() };
        out.push(new_gate);
        assert(gate_views(out@) =~= prev.push(new_gate@));
        i += 1;
    }
    assert(gs.take(i as int) =~= gs);
    Ok(out)
}

/// The header of the recycled circuit: a new first line, the other lines as
/// they were.
fn new_header(old: &Header, ngates: usize, nwires: usize) -> (h: Header)
    requires
        old@.raw.len() >= 1,
    ensures
        h@ == (HeaderView {
            raw: seq![count_line(ngates, nwires)] + old@.raw.skip(1),
            ngates,
            nwires,
        }),
{
    let mut first: Vec<char> = Vec::new();
    push_decimal(&mut first, ngates);
    first.push(' ');
    push_decimal(&mut first, nwires);
    proof {
        reveal_with_fuel(crate::text::join_words, 3);
        assert(first@ =~= count_line(ngates, nwires));
    }
    let line = string_of(&first, 0, first.len());
    assert(first@.subrange(0, first@.len() as int) =~= first@);
    let old_raw = old.raw_lines();
    let mut raw: Vec<String> = Vec::new();
    raw.push(line);
    let mut i: usize = 1;
    assert(string_views(raw@) =~= seq![count_line(ngates, nwires)] + old@.raw.subrange(1, 1));
    while i < old_raw.len()
        invariant
            1 <= i <= old_raw.len(),
            string_views(old_raw@) == old@.raw,
            string_views(raw@) == seq![count_line(ngates, nwires)] + old@.raw.subrange(
                1,
                i as int,
            ),
        decreases old_raw.len() - i,
    {
        let ghost prev = string_views(raw@);
        let copy = old_raw[i].clone();
        raw.push(copy);
        assert(string_views(raw@) =~= prev.push(old_raw@[i as int]@));
        assert(old@.raw[i as int] == old_raw@[i as int]@);
        assert(old@.raw.subrange(1, i + 1) =~= old@.raw.subrange(1, i as int).push(
            old@.raw[i as int],
        ));
        i += 1;
    }
    assert(old@.raw.subrange(1, i as int) =~= old@.raw.skip(1));
    Header::new(raw, ngates, nwires)
}

/// Renumbers the wires of `circ` so that a wire is used again once its value
/// is no longer read. The input wires keep their numbers; the output wires
/// become the last wires of the result.
#[verifier::loop_isolation(false)]
pub fn recycle(circ: &BristolCircuit) -> (r: Result<BristolCircuit, BristolError>)
    ensures
        match r {
            Ok(c) => spec_recycle(circ@) == Ok::<CircuitView, BristolError>(c@),
            Err(e) => spec_recycle(circ@) == Err::<CircuitView, BristolError>(e),
        },
{
    broadcast use vstd::std_specs::hash::group_hash_axioms;

    let in_len = match input_len(&circ.header) {
        Ok(n) => n,
        Err(e) => {
            return Err(e);
        },
    };
    let out_len = match output_length(&circ.header) {
        Ok(n) => n,
        Err(e) => {
            return Err(e);
        },
    };
    let nwires = circ.header.nwires();
    if out_len > nwires {
        return Err(BristolError::TooFewWires);
    }
    let out_base: usize = nwires - out_len;
    let ghost gs = circ@.gates;
    assert(layout(circ@) == Ok::<(usize, usize, usize), BristolError>((in_len, out_len, out_base)));

    let lu = last_uses(&circ.gates);
    let mut pool = free_inputs(in_len, out_base, &lu, Ghost(gs));
    let mut overrides: HashMap<usize, usize> = HashMap::new();
    let mut next: usize = in_len;
    assert(full_map(overrides@, in_len) =~= initial_state(gs, in_len, out_base).map);

    let mut g: usize = 0;
    while g < circ.gates.len()
        invariant
            g <= circ.gates.len(),
            gs == gate_views(circ.gates@),
            is_last_use(gs, lu@),
            run(gs, g as nat, in_len, out_base) == Ok::<RecycleState, BristolError>(
                RecycleState {
                    map: full_map(overrides@, in_len),
                    pool: pool@,
                    next: next as nat,
                },
            ),
        decreases circ.gates.len() - g,
    {
        let gate = &circ.gates[g];
        assert(gs[g as int] == gate@);
        let ghost st0 = RecycleState {
            map: full_map(overrides@, in_len),
            pool: pool@,
            next: next as nat,
        };
        let mut j: usize = 0;
        while j < gate.outs.len()
            invariant
                j <= gate.outs.len(),
                gs[g as int] == gate@,
                alloc_outs(st0, gate.outs@, j as nat, out_base) == Ok::<
                    RecycleState,
                    BristolError,
                >(
                    RecycleState {
                        map: full_map(overrides@, in_len),
                        pool: pool@,
                        next: next as nat,
                    },
                ),
            decreases gate.outs.len() - j,
        {
            let w = gate.outs[j];
            if w < out_base {
                let ghost before = overrides@;
                let fresh = match pool.pop_front() {
                    Some(recycled) => recycled,
                    None => {
                        if next == usize::MAX {
                            proof {
                                lemma_alloc_outs_error(
                                    st0,
                                    gate.outs@,
                                    (j + 1) as nat,
                                    gate.outs@.len(),
                                    out_base,
                                    BristolError::Overflow,
                                );
                                lemma_run_error(
                                    gs,
                                    (g + 1) as nat,
                                    gs.len(),
                                    in_len,
                                    out_base,
                                    BristolError::Overflow,
                                );
                            }
                            return Err(BristolError::Overflow);
                        }
                        let id = next;
                        next = next + 1;
                        id
                    },
                };
                overrides.insert(w, fresh);
                assert(full_map(overrides@, in_len) =~= full_map(before, in_len).insert(w, fresh));
            }
            j += 1;
        }
        let ghost st1 = RecycleState {
            map: full_map(overrides@, in_len),
            pool: pool@,
            next: next as nat,
        };
        assert(alloc_outs(st0, gs[g as int].outs, gs[g as int].outs.len(), out_base) == Ok::<
            RecycleState,
            BristolError,
        >(st1));
        let mut j: usize = 0;
        while j < gate.ins.len()
            invariant
                j <= gate.ins.len(),
                g < gs.len(),
                gs[g as int] == gate@,
                is_last_use(gs, lu@),
                st1.map == full_map(overrides@, in_len),
                st1.next == next,
                expire_ins(gs, st1, g as int, j as nat, in_len, out_base) == Ok::<
                    RecycleState,
                    BristolError,
                >(RecycleState { pool: pool@, ..st1 }),
            decreases gate.ins.len() - j,
        {
            let w = gate.ins[j];
            let last = match lu.get(&w) {
                Some(h) => *h == g,
                None => false,
            };
            proof {
                assert(gs[g as int].ins.contains(w)) by {
                    assert(gs[g as int].ins[j as int] == w);
                }
                assert(lu@.contains_key(w));
                if last {
                    assert(!read_after(gs, g as int, w));
                } else {
                    assert(gs[lu@[w] as int].ins.contains(w));
                    if lu@[w] < g {
                        assert(read_after(gs, lu@[w] as int, w));
                    }
                    assert(read_after(gs, g as int, w));
                }
            }
            if last && in_len <= w && w < out_base && !seen_before(&gate.ins, j, w) {
                match lookup(&overrides, in_len, w) {
                    Some(mapped) => {
                        pool.push_back(mapped);
                    },
                    None => {
                        proof {
                            lemma_expire_ins_error(
                                gs,
                                st1,
                                g as int,
                                (j + 1) as nat,
                                gate.ins@.len(),
                                in_len,
                                out_base,
                                BristolError::UndefinedWire(w),
                            );
                            lemma_run_error(
                                gs,
                                (g + 1) as nat,
                                gs.len(),
                                in_len,
                                out_base,
                                BristolError::UndefinedWire(w),
                            );
                        }
                        return Err(BristolError::UndefinedWire(w));
                    },
                }
            }
            j += 1;
        }
        g += 1;
    }

    let ghost st = RecycleState {
        map: full_map(overrides@, in_len),
        pool: pool@,
        next: next as nat,
    };
    if out_len > usize::MAX - next {
        return Err(BristolError::Overflow);
    }
    let mut i: usize = 0;
    while i < out_len
        invariant
            i <= out_len,
            out_base + out_len == nwires,
            next + out_len <= usize::MAX,
            full_map(overrides@, in_len) == with_outputs(st.map, out_base, i as nat, next as nat),
        decreases out_len - i,
    {
        let ghost before = overrides@;
        overrides.insert(out_base + i, next + i);
        assert(full_map(overrides@, in_len) =~= full_map(before, in_len).insert(
            (out_base + i) as usize,
            (next + i) as usize,
        ));
        assert(full_map(overrides@, in_len) =~= with_outputs(
            st.map,
            out_base,
            (i + 1) as nat,
            next as nat,
        ));
        i += 1;
    }
    let total: usize = next + out_len;
    assert(wire_map(circ@) == Ok::<(Map<usize, usize>, usize), BristolError>(
        (full_map(overrides@, in_len), total),
    ));

    let new_gates = match rewrite(&circ.gates, &overrides, in_len) {
        Ok(gates) => gates,
        Err(e) => {
            return Err(e);
        },
    };
    let header = new_header(&circ.header, new_gates.len(), total);
    Ok(BristolCircuit { header, gates: new_gates })
}

/// Once giving out wires fails, it fails in the same way to the end.
proof fn lemma_alloc_outs_error(
    st: RecycleState,
    outs: Seq<usize>,
    n: nat,
    m: nat,
    out_base: usize,
    e: BristolError,
)
    requires
        n <= m,
        alloc_outs(st, outs, n, out_base) == Err::<RecycleState, BristolError>(e),
    ensures
        alloc_outs(st, outs, m, out_base) == Err::<RecycleState, BristolError>(e),
    decreases m - n,
{
    if n < m {
        lemma_alloc_outs_error(st, outs, n + 1, m, out_base, e);
    }
}

/// Once freeing wires fails, it fails in the same way to the end.
proof fn lemma_expire_ins_error(
    gates: Seq<GateView>,
    st: RecycleState,
    g: int,
    n: nat,
    m: nat,
    in_len: usize,
    out_base: usize,
    e: BristolError,
)
    requires
        n <= m,
        expire_ins(gates, st, g, n, in_len, out_base) == Err::<RecycleState, BristolError>(e),
    ensures
        expire_ins(gates, st, g, m, in_len, out_base) == Err::<RecycleState, BristolError>(e),
    decreases m - n,
{
    if n < m {
        lemma_expire_ins_error(gates, st, g, n + 1, m, in_len, out_base, e);
    }
}

/// Once a gate fails, the run fails in the same way to the end.
proof fn lemma_run_error(
    gates: Seq<GateView>,
    n: nat,
    m: nat,
    in_len: usize,
    out_base: usize,
    e: BristolError,
)
    requires
        n <= m,
        run(gates, n, in_len, out_base) == Err::<RecycleState, BristolError>(e),
    ensures
        run(gates, m, in_len, out_base) == Err::<RecycleState, BristolError>(e),
    decreases m - n,
{
    if n < m {
        lemma_run_error(gates, n + 1, m, in_len, out_base, e);
    }
}

} // verus!
