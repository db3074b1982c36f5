//! What holds of a recycled circuit, proved of every circuit in which each
//! wire is written once and before it is read.

use crate::bristol::{count_line, BristolError, CircuitView, GateView};
use crate::recycle::{
    alloc_one, alloc_outs, expire_ins, expires_at, initial_state, layout, map_wires, read_after,
    rewrite_gates, run, spec_recycle, unused_inputs, wire_map, with_outputs, RecycleState,
};
use vstd::prelude::*;

verus! {

/// Whether a gate before position `g` writes the wire `w`.
pub open spec fn written_before(gates: Seq<GateView>, g: int, w: usize) -> bool {
    exists|h: int| 0 <= h < g && h < gates.len() && #[trigger] gates[h].outs.contains(w)
}

/// The circuits that recycling is meant for: the header gives the numbers of
/// input and output wires, which do not overlap; every gate writes wires
/// that are no inputs and lie below the number of wires; every wire that a
/// gate reads is an input or is written by an earlier gate; and no wire is
/// written twice.
pub open spec fn well_formed(c: CircuitView) -> bool {
    match layout(c) {
        Err(_) => false,
        Ok((in_len, out_len, out_base)) => {
            &&& in_len <= out_base
            &&& forall|g: int, j: int|
                0 <= g < c.gates.len() && 0 <= j < c.gates[g].outs.len() ==> in_len
                    <= #[trigger] c.gates[g].outs[j] < c.header.nwires
            &&& forall|g: int, j: int|
                0 <= g < c.gates.len() && 0 <= j < c.gates[g].ins.len() ==> {
                    let w = #[trigger] c.gates[g].ins[j];
                    w < in_len || written_before(c.gates, g, w)
                }
            &&& forall|g1: int, j1: int, g2: int, j2: int|
                0 <= g1 < c.gates.len() && 0 <= j1 < c.gates[g1].outs.len() && 0 <= g2
                    < c.gates.len() && 0 <= j2 < c.gates[g2].outs.len()
                    && #[trigger] c.gates[g1].outs[j1] == #[trigger] c.gates[g2].outs[j2] ==> g1
                    == g2 && j1 == j2
        },
    }
}

/// The values on the wires after the first `n` wires of `outs` were written,
/// one after the other, with the values `vals(0)`, `vals(1)`, and so on.
pub open spec fn write_outs<V>(
    wires: spec_fn(usize) -> V,
    outs: Seq<usize>,
    vals: spec_fn(int) -> V,
    n: nat,
) -> spec_fn(usize) -> V
    decreases n,
{
    if n == 0 {
        wires
    } else {
        let prev = write_outs(wires, outs, vals, (n - 1) as nat);
        |w: usize|
            if w == outs[n - 1] {
                vals(n - 1)
            } else {
                prev(w)
            }
    }
}

/// The values that gate `g` reads.
pub open spec fn gate_inputs<V>(wires: spec_fn(usize) -> V, g: GateView) -> Seq<V> {
    Seq::new(g.ins.len(), |j: int| wires(g.ins[j]))
}

/// The values on the wires after gate `g`. What a gate computes is given
/// by `sem`: from `k`, `l`, the operator, the values read and a position
/// among the outputs to the value written there.
pub open spec fn eval_gate<V>(
    wires: spec_fn(usize) -> V,
    g: GateView,
    sem: spec_fn(usize, usize, Seq<char>, Seq<V>, int) -> V,
) -> spec_fn(usize) -> V {
    let vals = gate_inputs(wires, g);
    write_outs(wires, g.outs, |j: int| sem(g.k, g.l, g.op, vals, j), g.outs.len())
}

/// The values on the wires after the first `n` gates.
pub open spec fn eval_gates<V>(
    wires: spec_fn(usize) -> V,
    gates: Seq<GateView>,
    n: nat,
    sem: spec_fn(usize, usize, Seq<char>, Seq<V>, int) -> V,
) -> spec_fn(usize) -> V
    decreases n,
{
    if n == 0 {
        wires
    } else {
        eval_gate(eval_gates(wires, gates, (n - 1) as nat, sem), gates[n - 1], sem)
    }
}

/// The values on the wires before the first gate: the inputs on the first
/// wires, `blank` on all others.
pub open spec fn initial_wires<V>(inputs: Seq<V>, blank: V) -> spec_fn(usize) -> V {
    |w: usize|
        if w < inputs.len() {
            inputs[w as int]
        } else {
            blank
        }
}

/// The values on the output wires of `c` after all its gates, for the given
/// inputs.
pub open spec fn circuit_outputs<V>(
    c: CircuitView,
    inputs: Seq<V>,
    blank: V,
    sem: spec_fn(usize, usize, Seq<char>, Seq<V>, int) -> V,
) -> Seq<V> {
    match layout(c) {
        Err(_) => Seq::empty(),
        Ok((in_len, out_len, out_base)) => {
            let end = eval_gates(initial_wires(inputs, blank), c.gates, c.gates.len(), sem);
            Seq::new(out_len as nat, |i: int| end((out_base + i) as usize))
        },
    }
}

/// What holds between two steps of the renumbering. The wires in `freed` had
/// a new wire and gave it back; all others that have a new wire hold it alone,
/// and it is not free.
spec fn alloc_inv(st: RecycleState, freed: Set<usize>, in_len: usize) -> bool {
    &&& in_len <= st.next
    &&& forall|w: usize| #[trigger] freed.contains(w) ==> st.map.contains_key(w)
    &&& forall|w: usize| #[trigger] st.map.contains_key(w) ==> st.map[w] < st.next
    &&& st.pool.no_duplicates()
    &&& forall|i: int| 0 <= i < st.pool.len() ==> #[trigger] st.pool[i] < st.next
    &&& forall|w: usize, i: int|
        #[trigger] st.map.contains_key(w) && !freed.contains(w) && 0 <= i < st.pool.len()
            ==> #[trigger] st.pool[i] != st.map[w]
    &&& forall|w1: usize, w2: usize|
        #[trigger] st.map.contains_key(w1) && #[trigger] st.map.contains_key(w2)
            && !freed.contains(w1) && !freed.contains(w2) && w1 != w2 ==> st.map[w1]
            != st.map[w2]
}

/// Giving a new wire to a wire that has none keeps the invariant.
proof fn lemma_alloc_one(st: RecycleState, freed: Set<usize>, in_len: usize, w: usize, out_base: usize)
    requires
        alloc_inv(st, freed, in_len),
        !st.map.contains_key(w),
        w < out_base,
        st.next < usize::MAX,
    ensures
        alloc_one(st, w, out_base) is Ok,
        ({
            let s = alloc_one(st, w, out_base)->Ok_0;
            &&& alloc_inv(s, freed, in_len)
            &&& s.map.dom() == st.map.dom().insert(w)
            &&& forall|x: usize| st.map.contains_key(x) ==> s.map[x] == st.map[x]
            &&& st.next <= s.next <= st.next + 1
            &&& s.next == st.next + 1 ==> st.pool.len() == 0
            &&& s.pool.len() <= st.pool.len()
        }),
{
    let s = alloc_one(st, w, out_base)->Ok_0;
    assert(s.map.dom() =~= st.map.dom().insert(w));
    if st.pool.len() > 0 {
        let r = st.pool[0];
        assert(s.pool == st.pool.drop_first());
        assert forall|i: int| 0 <= i < s.pool.len() implies #[trigger] s.pool[i] < s.next by {
            assert(s.pool[i] == st.pool[i + 1]);
        }
        assert(s.pool.no_duplicates()) by {
            assert forall|i: int, j: int|
                0 <= i < s.pool.len() && 0 <= j < s.pool.len() && i != j implies s.pool[i]
                != s.pool[j] by {
                assert(s.pool[i] == st.pool[i + 1]);
                assert(s.pool[j] == st.pool[j + 1]);
            }
        }
        assert forall|x: usize, i: int|
            #[trigger] s.map.contains_key(x) && !freed.contains(x) && 0 <= i
                < s.pool.len() implies #[trigger] s.pool[i] != s.map[x] by {
            assert(s.pool[i] == st.pool[i + 1]);
            if x == w {
            } else {
                assert(st.map.contains_key(x));
            }
        }
        assert forall|w1: usize, w2: usize|
            #[trigger] s.map.contains_key(w1) && #[trigger] s.map.contains_key(w2)
                && !freed.contains(w1) && !freed.contains(w2) && w1 != w2 implies s.map[w1]
            != s.map[w2] by {
            if w1 == w {
                assert(st.map.contains_key(w2));
                assert(st.pool[0] != st.map[w2]);
            } else if w2 == w {
                assert(st.map.contains_key(w1));
                assert(st.pool[0] != st.map[w1]);
            } else {
                assert(st.map.contains_key(w1));
                assert(st.map.contains_key(w2));
            }
        }
        assert forall|x: usize| #[trigger] s.map.contains_key(x) implies s.map[x] < s.next by {
            if x != w {
                assert(st.map.contains_key(x));
            }
        }
    } else {
        assert forall|w1: usize, w2: usize|
            #[trigger] s.map.contains_key(w1) && #[trigger] s.map.contains_key(w2)
                && !freed.contains(w1) && !freed.contains(w2) && w1 != w2 implies s.map[w1]
            != s.map[w2] by {
            if w1 == w {
                assert(st.map.contains_key(w2));
            } else if w2 == w {
                assert(st.map.contains_key(w1));
            } else {
                assert(st.map.contains_key(w1));
                assert(st.map.contains_key(w2));
            }
        }
        assert forall|x: usize| #[trigger] s.map.contains_key(x) implies s.map[x] < s.next by {
            if x != w {
                assert(st.map.contains_key(x));
            }
        }
    }
}

/// Freeing the new wire of a wire that still holds one keeps the invariant.
proof fn lemma_free_one(st: RecycleState, freed: Set<usize>, in_len: usize, w: usize)
    requires
        alloc_inv(st, freed, in_len),
        st.map.contains_key(w),
        !freed.contains(w),
    ensures
        alloc_inv(
            RecycleState { pool: st.pool.push(st.map[w]), ..st },
            freed.insert(w),
            in_len,
        ),
{
    let s = RecycleState { pool: st.pool.push(st.map[w]), ..st };
    let f2 = freed.insert(w);
    assert(s.pool.no_duplicates()) by {
        assert forall|i: int, j: int|
            0 <= i < s.pool.len() && 0 <= j < s.pool.len() && i != j implies s.pool[i]
            != s.pool[j] by {
            if i < st.pool.len() && j < st.pool.len() {
            } else if i < st.pool.len() {
                assert(st.pool[i] != st.map[w]);
            } else {
                assert(st.pool[j] != st.map[w]);
            }
        }
    }
    assert forall|x: usize, i: int|
        #[trigger] s.map.contains_key(x) && !f2.contains(x) && 0 <= i
            < s.pool.len() implies #[trigger] s.pool[i] != s.map[x] by {
        if i < st.pool.len() {
            assert(s.pool[i] == st.pool[i]);
        } else {
            assert(st.map[x] != st.map[w]);
        }
    }
    assert forall|i: int| 0 <= i < s.pool.len() implies #[trigger] s.pool[i] < s.next by {
        if i < st.pool.len() {
            assert(s.pool[i] == st.pool[i]);
        }
    }
}

/// The wires below `out_base` among the first `n` of `outs`, in order.
pub open spec fn low_of(outs: Seq<usize>, out_base: usize, n: nat) -> Seq<usize>
    decreases n,
{
    if n == 0 {
        Seq::empty()
    } else {
        let front = low_of(outs, out_base, (n - 1) as nat);
        if outs[n - 1] < out_base {
            front.push(outs[n - 1])
        } else {
            front
        }
    }
}

/// The wires below `out_base` that the first `g` gates write, in order.
pub open spec fn low_seq(gates: Seq<GateView>, out_base: usize, g: nat) -> Seq<usize>
    decreases g,
{
    if g == 0 {
        Seq::empty()
    } else {
        low_seq(gates, out_base, (g - 1) as nat) + low_of(
            gates[g - 1].outs,
            out_base,
            gates[g - 1].outs.len(),
        )
    }
}

/// No wire is written twice, and every written wire lies in `lo .. hi`.
spec fn written_once(gates: Seq<GateView>, lo: usize, hi: usize) -> bool {
    &&& forall|g: int, j: int|
        0 <= g < gates.len() && 0 <= j < gates[g].outs.len() ==> lo <= #[trigger] gates[g].outs[j]
            < hi
    &&& forall|g1: int, j1: int, g2: int, j2: int|
        0 <= g1 < gates.len() && 0 <= j1 < gates[g1].outs.len() && 0 <= g2 < gates.len() && 0
            <= j2 < gates[g2].outs.len() && #[trigger] gates[g1].outs[j1]
            == #[trigger] gates[g2].outs[j2] ==> g1 == g2 && j1 == j2
}

proof fn lemma_low_of(gates: Seq<GateView>, lo: usize, hi: usize, out_base: usize, g: int, n: nat)
    requires
        written_once(gates, lo, hi),
        0 <= g < gates.len(),
        n <= gates[g].outs.len(),
    ensures
        low_of(gates[g].outs, out_base, n).no_duplicates(),
        forall|i: int|
            0 <= i < low_of(gates[g].outs, out_base, n).len() ==> {
                let x = #[trigger] low_of(gates[g].outs, out_base, n)[i];
                &&& lo <= x < out_base
                &&& gates[g].outs.take(n as int).contains(x)
            },
    decreases n,
{
    let outs = gates[g].outs;
    if n > 0 {
        lemma_low_of(gates, lo, hi, out_base, g, (n - 1) as nat);
        let front = low_of(outs, out_base, (n - 1) as nat);
        let cur = low_of(outs, out_base, n);
        let t0 = outs.take(n - 1);
        let t1 = outs.take(n as int);
        assert forall|i: int| 0 <= i < cur.len() implies {
            let x = #[trigger] cur[i];
            &&& lo <= x < out_base
            &&& t1.contains(x)
        } by {
            if i < front.len() {
                let x = front[i];
                assert(t0.contains(x));
                let k = choose|k: int| 0 <= k < t0.len() && t0[k] == x;
                assert(t1[k] == x);
            } else {
                assert(cur[i] == outs[n - 1]);
                assert(t1[n - 1] == outs[n - 1]);
            }
        }
        if outs[n - 1] < out_base {
            assert forall|i: int, j: int|
                0 <= i < cur.len() && 0 <= j < cur.len() && i != j implies cur[i] != cur[j] by {
                if i < front.len() && j < front.len() {
                } else if i < front.len() {
                    let x = front[i];
                    assert(t0.contains(x));
                    let k = choose|k: int| 0 <= k < t0.len() && t0[k] == x;
                    assert(outs[k] == x);
                } else {
                    let x = front[j];
                    assert(t0.contains(x));
                    let k = choose|k: int| 0 <= k < t0.len() && t0[k] == x;
                    assert(outs[k] == x);
                }
            }
        }
    }
}

proof fn lemma_low_seq(gates: Seq<GateView>, lo: usize, hi: usize, out_base: usize, g: nat)
    requires
        written_once(gates, lo, hi),
        g <= gates.len(),
    ensures
        low_seq(gates, out_base, g).no_duplicates(),
        forall|i: int|
            0 <= i < low_seq(gates, out_base, g).len() ==> {
                let x = #[trigger] low_seq(gates, out_base, g)[i];
                &&& lo <= x < out_base
                &&& written_before(gates, g as int, x)
            },
    decreases g,
{
    if g > 0 {
        lemma_low_seq(gates, lo, hi, out_base, (g - 1) as nat);
        let outs = gates[g - 1].outs;
        lemma_low_of(gates, lo, hi, out_base, g - 1, outs.len());
        let a = low_seq(gates, out_base, (g - 1) as nat);
        let b = low_of(outs, out_base, outs.len());
        let cur = low_seq(gates, out_base, g);
        assert(outs.take(outs.len() as int) =~= outs);
        assert forall|i: int| 0 <= i < cur.len() implies {
            let x = #[trigger] cur[i];
            &&& lo <= x < out_base
            &&& written_before(gates, g as int, x)
        } by {
            if i < a.len() {
                let x = a[i];
                assert(written_before(gates, g - 1, x));
                let h = choose|h: int|
                    0 <= h < g - 1 && h < gates.len() && #[trigger] gates[h].outs.contains(x);
                assert(gates[h].outs.contains(x));
            } else {
                let x = b[i - a.len()];
                assert(gates[g - 1].outs.contains(x));
            }
        }
        assert forall|i: int, j: int| 0 <= i < a.len() && 0 <= j < b.len() implies a[i]
            != b[j] by {
            let x = a[i];
            assert(written_before(gates, g - 1, x));
            let h = choose|h: int|
                0 <= h < g - 1 && h < gates.len() && #[trigger] gates[h].outs.contains(x);
            let k1 = choose|k: int| 0 <= k < gates[h].outs.len() && gates[h].outs[k] == x;
            let y = b[j];
            assert(outs.contains(y));
            let k2 = choose|k: int| 0 <= k < outs.len() && outs[k] == y;
            assert(gates[h].outs[k1] == x);
            assert(gates[g - 1].outs[k2] == y);
        }
        vstd::seq_lib::lemma_no_dup_in_concat(a, b);
    }
}

/// A list of distinct numbers from `lo .. hi` has at most `hi - lo` entries.
proof fn lemma_pigeonhole(s: Seq<usize>, lo: usize, hi: usize)
    requires
        s.no_duplicates(),
        forall|i: int| 0 <= i < s.len() ==> lo <= #[trigger] s[i] < hi,
        lo <= hi,
    ensures
        s.len() <= hi - lo,
{
    let f = |w: usize| w as int;
    let t = s.map_values(f);
    assert(t.no_duplicates()) by {
        assert forall|i: int, j: int| 0 <= i < t.len() && 0 <= j < t.len() && i != j implies t[
            i
        ] != t[j] by {
            assert(t[i] == s[i] as int);
            assert(t[j] == s[j] as int);
        }
    }
    t.unique_seq_to_set();
    let range = vstd::set_lib::set_int_range(lo as int, hi as int);
    vstd::set_lib::lemma_int_range(lo as int, hi as int);
    assert(t.to_set().subset_of(range)) by {
        assert forall|x: int| t.to_set().contains(x) implies range.contains(x) by {
            let i = choose|i: int| 0 <= i < t.len() && t[i] == x;
            assert(t[i] == s[i] as int);
        }
    }
    vstd::set_lib::lemma_len_subset(t.to_set(), range);
}

proof fn lemma_low_seq_grows(gates: Seq<GateView>, out_base: usize, g: nat, h: nat)
    requires
        g <= h,
    ensures
        low_seq(gates, out_base, g).len() <= low_seq(gates, out_base, h).len(),
    decreases h - g,
{
    if g < h {
        lemma_low_seq_grows(gates, out_base, g, (h - 1) as nat);
    }
}

proof fn lemma_low_of_grows(outs: Seq<usize>, out_base: usize, n: nat, m: nat)
    requires
        n <= m,
    ensures
        low_of(outs, out_base, n).len() <= low_of(outs, out_base, m).len(),
    decreases m - n,
{
    if n < m {
        lemma_low_of_grows(outs, out_base, n, (m - 1) as nat);
    }
}

/// The count of wires below `out_base` written so far never passes the
/// number of wires between the inputs and the outputs.
proof fn lemma_low_bound(gates: Seq<GateView>, lo: usize, hi: usize, out_base: usize, g: int, n: nat)
    requires
        written_once(gates, lo, hi),
        lo <= out_base,
        0 <= g < gates.len(),
        n <= gates[g].outs.len(),
    ensures
        lo + low_seq(gates, out_base, g as nat).len() + low_of(gates[g].outs, out_base, n).len()
            <= out_base,
{
    let all = low_seq(gates, out_base, gates.len());
    lemma_low_seq(gates, lo, hi, out_base, gates.len());
    lemma_pigeonhole(all, lo, out_base);
    lemma_low_seq_grows(gates, out_base, (g + 1) as nat, gates.len());
    lemma_low_of_grows(gates[g].outs, out_base, n, gates[g].outs.len());
}

proof fn lemma_low_bound_end(gates: Seq<GateView>, lo: usize, hi: usize, out_base: usize)
    requires
        written_once(gates, lo, hi),
        lo <= out_base,
    ensures
        lo + low_seq(gates, out_base, gates.len()).len() <= out_base,
{
    let all = low_seq(gates, out_base, gates.len());
    lemma_low_seq(gates, lo, hi, out_base, gates.len());
    lemma_pigeonhole(all, lo, out_base);
}

/// The wires whose new wire has been given back before gate `g`: the
/// inputs that no gate reads, and the wires between the inputs and the
/// outputs that were read, but are not read by gate `g` or later.
spec fn freed_before(gates: Seq<GateView>, in_len: usize, out_base: usize, g: int) -> Set<usize> {
    Set::new(
        |w: usize|
            w < out_base && if w < in_len {
                !read_after(gates, -1, w)
            } else {
                read_after(gates, -1, w) && !read_after(gates, g - 1, w)
            },
    )
}

/// The same after the first `j` inputs of gate `g` were looked at.
spec fn freed_within(
    gates: Seq<GateView>,
    in_len: usize,
    out_base: usize,
    g: int,
    j: int,
) -> Set<usize> {
    Set::new(
        |w: usize|
            freed_before(gates, in_len, out_base, g).contains(w) || (expires_at(
                gates,
                g,
                w,
                in_len,
                out_base,
            ) && gates[g].ins.take(j).contains(w)),
    )
}

/// What holds of the state after the first `n` outputs of gate `g`
/// got their wires and its first `j` inputs were looked at.
spec fn gate_inv(
    gates: Seq<GateView>,
    in_len: usize,
    out_base: usize,
    g: int,
    n: int,
    j: int,
    st: RecycleState,
) -> bool {
    &&& alloc_inv(st, freed_within(gates, in_len, out_base, g, j), in_len)
    &&& forall|w: usize| #[trigger]
        st.map.contains_key(w) <==> (w < in_len || (w < out_base && (written_before(gates, g, w)
            || gates[g].outs.take(n).contains(w))))
    &&& forall|w: usize| w < in_len ==> #[trigger] st.map[w] == w
    &&& st.next <= in_len + low_seq(gates, out_base, g as nat).len() + low_of(
        gates[g].outs,
        out_base,
        n as nat,
    ).len()
}

/// What holds of the state before gate `g`.
spec fn run_inv(
    gates: Seq<GateView>,
    in_len: usize,
    out_base: usize,
    g: int,
    st: RecycleState,
) -> bool {
    &&& alloc_inv(st, freed_before(gates, in_len, out_base, g), in_len)
    &&& forall|w: usize| #[trigger]
        st.map.contains_key(w) <==> (w < in_len || (w < out_base && written_before(gates, g, w)))
    &&& forall|w: usize| w < in_len ==> #[trigger] st.map[w] == w
    &&& st.next <= in_len + low_seq(gates, out_base, g as nat).len()
}

/// The part of well-formedness that speaks of the gates alone.
spec fn gates_ok(gates: Seq<GateView>, in_len: usize, out_base: usize, nwires: usize) -> bool {
    &&& in_len <= out_base <= nwires
    &&& written_once(gates, in_len, nwires)
    &&& forall|g: int, j: int|
        0 <= g < gates.len() && 0 <= j < gates[g].ins.len() ==> {
            let w = #[trigger] gates[g].ins[j];
            w < in_len || written_before(gates, g, w)
        }
}

proof fn lemma_unused_inputs(gates: Seq<GateView>, out_base: usize, n: nat)
    requires
        n <= usize::MAX,
    ensures
        forall|i: int|
            0 <= i < unused_inputs(gates, out_base, n).len() ==> {
                let x = #[trigger] unused_inputs(gates, out_base, n)[i];
                x < n && x < out_base && !read_after(gates, -1, x)
            },
        unused_inputs(gates, out_base, n).no_duplicates(),
    decreases n,
{
    if n > 0 {
        lemma_unused_inputs(gates, out_base, (n - 1) as nat);
    }
}

proof fn lemma_run_inv_start(gates: Seq<GateView>, in_len: usize, out_base: usize)
    requires
        in_len <= out_base,
    ensures
        run_inv(gates, in_len, out_base, 0, initial_state(gates, in_len, out_base)),
{
    let st = initial_state(gates, in_len, out_base);
    let freed = freed_before(gates, in_len, out_base, 0);
    lemma_unused_inputs(gates, out_base, in_len as nat);
    assert forall|w: usize, i: int|
        #[trigger] st.map.contains_key(w) && !freed.contains(w) && 0 <= i
            < st.pool.len() implies #[trigger] st.pool[i] != st.map[w] by {
        let x = st.pool[i];
        assert(x < in_len && x < out_base && !read_after(gates, -1, x));
        assert(freed.contains(x));
    }
    assert forall|w: usize| #[trigger]
        st.map.contains_key(w) <==> (w < in_len || (w < out_base && written_before(gates, 0, w))) by {
    }
}

/// Between two gates the two forms of the invariant say the same.
proof fn lemma_gate_inv_start(
    gates: Seq<GateView>,
    in_len: usize,
    out_base: usize,
    g: int,
    st: RecycleState,
)
    requires
        0 <= g < gates.len(),
        run_inv(gates, in_len, out_base, g, st),
    ensures
        gate_inv(gates, in_len, out_base, g, 0, 0, st),
{
    assert(gates[g].ins.take(0) =~= Seq::<usize>::empty());
    assert(gates[g].outs.take(0) =~= Seq::<usize>::empty());
    assert(freed_within(gates, in_len, out_base, g, 0) =~= freed_before(
        gates,
        in_len,
        out_base,
        g,
    ));
}

proof fn lemma_read_after_split(gates: Seq<GateView>, g: int, w: usize)
    requires
        0 <= g < gates.len(),
    ensures
        read_after(gates, g - 1, w) <==> (gates[g].ins.contains(w) || read_after(gates, g, w)),
        read_after(gates, g, w) ==> read_after(gates, -1, w),
        gates[g].ins.contains(w) ==> read_after(gates, -1, w),
{
    if read_after(gates, g - 1, w) {
        let h = choose|h: int| g - 1 < h < gates.len() && #[trigger] gates[h].ins.contains(w);
        if h != g {
            assert(read_after(gates, g, w));
        }
    }
    if gates[g].ins.contains(w) {
        assert(read_after(gates, g - 1, w));
        assert(read_after(gates, -1, w));
    }
    if read_after(gates, g, w) {
        let h = choose|h: int| g < h < gates.len() && #[trigger] gates[h].ins.contains(w);
        assert(read_after(gates, g - 1, w));
        assert(read_after(gates, -1, w));
    }
}

proof fn lemma_written_before_split(gates: Seq<GateView>, g: int, w: usize)
    requires
        0 <= g < gates.len(),
    ensures
        written_before(gates, g + 1, w) <==> (written_before(gates, g, w) || gates[g].outs.contains(
            w,
        )),
{
    if written_before(gates, g + 1, w) {
        let h = choose|h: int|
            0 <= h < g + 1 && h < gates.len() && #[trigger] gates[h].outs.contains(w);
        if h != g {
            assert(written_before(gates, g, w));
        }
    }
    if written_before(gates, g, w) {
        let h = choose|h: int| 0 <= h < g && h < gates.len() && #[trigger] gates[h].outs.contains(w);
        assert(written_before(gates, g + 1, w));
    }
    if gates[g].outs.contains(w) {
        assert(written_before(gates, g + 1, w));
    }
}

proof fn lemma_gate_inv_end(
    gates: Seq<GateView>,
    in_len: usize,
    out_base: usize,
    g: int,
    st: RecycleState,
)
    requires
        0 <= g < gates.len(),
        gate_inv(
            gates,
            in_len,
            out_base,
            g,
            gates[g].outs.len() as int,
            gates[g].ins.len() as int,
            st,
        ),
    ensures
        run_inv(gates, in_len, out_base, g + 1, st),
{
    let ins = gates[g].ins;
    let outs = gates[g].outs;
    assert(ins.take(ins.len() as int) =~= ins);
    assert(outs.take(outs.len() as int) =~= outs);
    assert(freed_within(gates, in_len, out_base, g, ins.len() as int) =~= freed_before(
        gates,
        in_len,
        out_base,
        g + 1,
    )) by {
        assert forall|w: usize|
            freed_within(gates, in_len, out_base, g, ins.len() as int).contains(w)
                == freed_before(gates, in_len, out_base, g + 1).contains(w) by {
            lemma_read_after_split(gates, g, w);
        }
    }
    assert forall|w: usize| #[trigger]
        st.map.contains_key(w) <==> (w < in_len || (w < out_base && written_before(
            gates,
            g + 1,
            w,
        ))) by {
        lemma_written_before_split(gates, g, w);
    }
}

/// The outputs of gate `g` get their wires without failure.
proof fn lemma_alloc_phase(
    gates: Seq<GateView>,
    in_len: usize,
    out_base: usize,
    nwires: usize,
    g: int,
    st: RecycleState,
    n: nat,
)
    requires
        gates_ok(gates, in_len, out_base, nwires),
        0 <= g < gates.len(),
        n <= gates[g].outs.len(),
        gate_inv(gates, in_len, out_base, g, 0, 0, st),
    ensures
        alloc_outs(st, gates[g].outs, n, out_base) is Ok,
        ({
            let s = alloc_outs(st, gates[g].outs, n, out_base)->Ok_0;
            &&& gate_inv(gates, in_len, out_base, g, n as int, 0, s)
            &&& forall|x: usize| st.map.contains_key(x) ==> s.map.contains_key(x) && s.map[x]
                == st.map[x]
            &&& st.next <= s.next
        }),
    decreases n,
{
    let outs = gates[g].outs;
    if n > 0 {
        lemma_alloc_phase(gates, in_len, out_base, nwires, g, st, (n - 1) as nat);
        let s0 = alloc_outs(st, outs, (n - 1) as nat, out_base)->Ok_0;
        let o = outs[n - 1];
        let t0 = outs.take(n - 1);
        let t1 = outs.take(n as int);
        assert(t1 =~= t0.push(o));
        assert forall|w: usize| t1.contains(w) <==> (t0.contains(w) || w == o) by {
            if t1.contains(w) {
                let k = choose|k: int| 0 <= k < t1.len() && t1[k] == w;
                if k < n - 1 {
                    assert(t0[k] == w);
                }
            }
            if t0.contains(w) {
                let k = choose|k: int| 0 <= k < t0.len() && t0[k] == w;
                assert(t1[k] == w);
            }
            if w == o {
                assert(t1[n - 1] == w);
            }
        }
        let freed = freed_within(gates, in_len, out_base, g, 0);
        if o < out_base {
            assert(!s0.map.contains_key(o)) by {
                assert(in_len <= gates[g].outs[n - 1]);
                if written_before(gates, g, o) {
                    let h = choose|h: int|
                        0 <= h < g && h < gates.len() && #[trigger] gates[h].outs.contains(o);
                    let k = choose|k: int| 0 <= k < gates[h].outs.len() && gates[h].outs[k] == o;
                    assert(gates[h].outs[k] == gates[g].outs[n - 1]);
                }
                if t0.contains(o) {
                    let k = choose|k: int| 0 <= k < t0.len() && t0[k] == o;
                    assert(gates[g].outs[k] == gates[g].outs[n - 1]);
                }
            }
            lemma_low_bound(gates, in_len, nwires, out_base, g, n);
            lemma_alloc_one(s0, freed, in_len, o, out_base);
            let s = alloc_one(s0, o, out_base)->Ok_0;
            assert forall|w: usize| #[trigger]
                s.map.contains_key(w) <==> (w < in_len || (w < out_base && (written_before(
                    gates,
                    g,
                    w,
                ) || t1.contains(w)))) by {
                assert(s.map.dom().contains(w) == s0.map.dom().insert(o).contains(w));
                assert(s0.map.contains_key(w) <==> (w < in_len || (w < out_base && (written_before(
                    gates,
                    g,
                    w,
                ) || t0.contains(w)))));
            }
            assert forall|w: usize| w < in_len implies #[trigger] s.map[w] == w by {
                assert(s0.map.contains_key(w));
            }
            assert forall|x: usize| st.map.contains_key(x) implies s.map.contains_key(x) && s.map[x]
                == st.map[x] by {
                assert(s0.map.contains_key(x));
                assert(s.map.dom().contains(x) == s0.map.dom().insert(o).contains(x));
            }
        } else {
            assert forall|w: usize| #[trigger]
                s0.map.contains_key(w) <==> (w < in_len || (w < out_base && (written_before(
                    gates,
                    g,
                    w,
                ) || t1.contains(w)))) by {
                assert(s0.map.contains_key(w) <==> (w < in_len || (w < out_base && (written_before(
                    gates,
                    g,
                    w,
                ) || t0.contains(w)))));
            }
        }
    }
}

/// The wires that gate `g` read for the last time are freed without
/// failure.
proof fn lemma_expire_phase(
    gates: Seq<GateView>,
    in_len: usize,
    out_base: usize,
    nwires: usize,
    g: int,
    st: RecycleState,
    j: nat,
)
    requires
        gates_ok(gates, in_len, out_base, nwires),
        0 <= g < gates.len(),
        j <= gates[g].ins.len(),
        gate_inv(gates, in_len, out_base, g, gates[g].outs.len() as int, 0, st),
    ensures
        expire_ins(gates, st, g, j, in_len, out_base) is Ok,
        ({
            let s = expire_ins(gates, st, g, j, in_len, out_base)->Ok_0;
            &&& gate_inv(gates, in_len, out_base, g, gates[g].outs.len() as int, j as int, s)
            &&& s.map == st.map
            &&& s.next == st.next
        }),
    decreases j,
{
    let ins = gates[g].ins;
    if j > 0 {
        lemma_expire_phase(gates, in_len, out_base, nwires, g, st, (j - 1) as nat);
        let s0 = expire_ins(gates, st, g, (j - 1) as nat, in_len, out_base)->Ok_0;
        let w = ins[j - 1];
        let t0 = ins.take(j - 1);
        let t1 = ins.take(j as int);
        assert(t1 =~= t0.push(w));
        assert forall|x: usize| t1.contains(x) <==> (t0.contains(x) || x == w) by {
            if t1.contains(x) {
                let k = choose|k: int| 0 <= k < t1.len() && t1[k] == x;
                if k < j - 1 {
                    assert(t0[k] == x);
                }
            }
            if t0.contains(x) {
                let k = choose|k: int| 0 <= k < t0.len() && t0[k] == x;
                assert(t1[k] == x);
            }
            if x == w {
                assert(t1[j - 1] == x);
            }
        }
        let f0 = freed_within(gates, in_len, out_base, g, j - 1);
        let f1 = freed_within(gates, in_len, out_base, g, j as int);
        assert(ins.contains(w)) by {
            assert(ins[j - 1] == w);
        }
        lemma_read_after_split(gates, g, w);
        if expires_at(gates, g, w, in_len, out_base) && !t0.contains(w) {
            assert(gates[g].ins[j - 1] == w);
            assert(written_before(gates, g, w));
            assert(s0.map.contains_key(w));
            assert(!f0.contains(w));
            lemma_free_one(s0, f0, in_len, w);
            assert(f0.insert(w) =~= f1);
        } else {
            assert(f0 =~= f1);
        }
    }
}

/// Every gate of a well-formed circuit is renumbered without failure, and
/// the invariant holds before each.
proof fn lemma_run(gates: Seq<GateView>, in_len: usize, out_base: usize, nwires: usize, g: nat)
    requires
        gates_ok(gates, in_len, out_base, nwires),
        g <= gates.len(),
    ensures
        run(gates, g, in_len, out_base) is Ok,
        run_inv(gates, in_len, out_base, g as int, run(gates, g, in_len, out_base)->Ok_0),
    decreases g,
{
    if g == 0 {
        lemma_run_inv_start(gates, in_len, out_base);
    } else {
        lemma_run(gates, in_len, out_base, nwires, (g - 1) as nat);
        let st = run(gates, (g - 1) as nat, in_len, out_base)->Ok_0;
        lemma_gate_inv_start(gates, in_len, out_base, g - 1, st);
        let outs = gates[g - 1].outs;
        let ins = gates[g - 1].ins;
        lemma_alloc_phase(gates, in_len, out_base, nwires, g - 1, st, outs.len());
        let s1 = alloc_outs(st, outs, outs.len(), out_base)->Ok_0;
        assert(gate_inv(gates, in_len, out_base, g - 1, outs.len() as int, 0, s1));
        lemma_expire_phase(gates, in_len, out_base, nwires, g - 1, s1, ins.len());
        let s2 = expire_ins(gates, s1, g - 1, ins.len(), in_len, out_base)->Ok_0;
        lemma_gate_inv_end(gates, in_len, out_base, g - 1, s2);
    }
}

/// A wire keeps the new wire that it once got.
proof fn lemma_run_keeps(
    gates: Seq<GateView>,
    in_len: usize,
    out_base: usize,
    nwires: usize,
    g: nat,
    h: nat,
)
    requires
        gates_ok(gates, in_len, out_base, nwires),
        g <= h <= gates.len(),
    ensures
        run(gates, g, in_len, out_base) is Ok,
        run(gates, h, in_len, out_base) is Ok,
        ({
            let a = run(gates, g, in_len, out_base)->Ok_0;
            let b = run(gates, h, in_len, out_base)->Ok_0;
            &&& a.next <= b.next
            &&& forall|x: usize| #[trigger]
                a.map.contains_key(x) ==> b.map.contains_key(x) && b.map[x] == a.map[x]
        }),
    decreases h - g,
{
    lemma_run(gates, in_len, out_base, nwires, g);
    lemma_run(gates, in_len, out_base, nwires, h);
    if g < h {
        lemma_run_keeps(gates, in_len, out_base, nwires, g, (h - 1) as nat);
        lemma_run(gates, in_len, out_base, nwires, (h - 1) as nat);
        let st = run(gates, (h - 1) as nat, in_len, out_base)->Ok_0;
        lemma_gate_inv_start(gates, in_len, out_base, h - 1, st);
        let outs = gates[h - 1].outs;
        let ins = gates[h - 1].ins;
        lemma_alloc_phase(gates, in_len, out_base, nwires, h - 1, st, outs.len());
        let s1 = alloc_outs(st, outs, outs.len(), out_base)->Ok_0;
        lemma_expire_phase(gates, in_len, out_base, nwires, h - 1, s1, ins.len());
    }
}

proof fn lemma_gates_ok(c: CircuitView)
    requires
        well_formed(c),
    ensures
        layout(c) is Ok,
        gates_ok(c.gates, layout(c)->Ok_0.0, layout(c)->Ok_0.2, c.header.nwires),
        layout(c)->Ok_0.2 + layout(c)->Ok_0.1 == c.header.nwires,
{
}

/// The new wires of the wires `ws`, where each of them has one.
proof fn lemma_map_wires(ws: Seq<usize>, map: Map<usize, usize>)
    requires
        forall|j: int| 0 <= j < ws.len() ==> map.contains_key(#[trigger] ws[j]),
    ensures
        map_wires(ws, map) is Ok,
        map_wires(ws, map)->Ok_0.len() == ws.len(),
        forall|j: int| 0 <= j < ws.len() ==> #[trigger] map_wires(ws, map)->Ok_0[j] == map[ws[j]],
    decreases ws.len(),
{
    if ws.len() > 0 {
        assert forall|j: int| 0 <= j < ws.drop_last().len() implies map.contains_key(
            #[trigger] ws.drop_last()[j],
        ) by {
            assert(ws.drop_last()[j] == ws[j]);
        }
        lemma_map_wires(ws.drop_last(), map);
        assert(map.contains_key(ws[ws.len() - 1]));
        let front = map_wires(ws.drop_last(), map)->Ok_0;
        let all = map_wires(ws, map)->Ok_0;
        assert forall|j: int| 0 <= j < ws.len() implies #[trigger] all[j] == map[ws[j]] by {
            if j < ws.len() - 1 {
                assert(all[j] == front[j]);
                assert(ws.drop_last()[j] == ws[j]);
            }
        }
    }
}

/// The gates on their new wires, where every wire of theirs has one.
proof fn lemma_rewrite_gates(gates: Seq<GateView>, map: Map<usize, usize>)
    requires
        forall|g: int, j: int|
            0 <= g < gates.len() && 0 <= j < gates[g].ins.len() ==> map.contains_key(
                #[trigger] gates[g].ins[j],
            ),
        forall|g: int, j: int|
            0 <= g < gates.len() && 0 <= j < gates[g].outs.len() ==> map.contains_key(
                #[trigger] gates[g].outs[j],
            ),
    ensures
        rewrite_gates(gates, map) is Ok,
        rewrite_gates(gates, map)->Ok_0.len() == gates.len(),
        forall|g: int|
            0 <= g < gates.len() ==> {
                let old = gates[g];
                let new = #[trigger] rewrite_gates(gates, map)->Ok_0[g];
                &&& new.k == old.k
                &&& new.l == old.l
                &&& new.op == old.op
                &&& new.ins.len() == old.ins.len()
                &&& new.outs.len() == old.outs.len()
                &&& forall|j: int| 0 <= j < old.ins.len() ==> #[trigger] new.ins[j] == map[old.ins[j]]
                &&& forall|j: int|
                    0 <= j < old.outs.len() ==> #[trigger] new.outs[j] == map[old.outs[j]]
            },
    decreases gates.len(),
{
    if gates.len() > 0 {
        let front = gates.drop_last();
        let last = gates.last();
        assert forall|g: int, j: int|
            0 <= g < front.len() && 0 <= j < front[g].ins.len() implies map.contains_key(
            #[trigger] front[g].ins[j],
        ) by {
            assert(front[g] == gates[g]);
            assert(map.contains_key(gates[g].ins[j]));
        }
        assert forall|g: int, j: int|
            0 <= g < front.len() && 0 <= j < front[g].outs.len() implies map.contains_key(
            #[trigger] front[g].outs[j],
        ) by {
            assert(front[g] == gates[g]);
            assert(map.contains_key(gates[g].outs[j]));
        }
        lemma_rewrite_gates(front, map);
        assert forall|j: int| 0 <= j < last.ins.len() implies map.contains_key(
            #[trigger] last.ins[j],
        ) by {
            assert(map.contains_key(gates[gates.len() - 1].ins[j]));
        }
        assert forall|j: int| 0 <= j < last.outs.len() implies map.contains_key(
            #[trigger] last.outs[j],
        ) by {
            assert(map.contains_key(gates[gates.len() - 1].outs[j]));
        }
        lemma_map_wires(last.ins, map);
        lemma_map_wires(last.outs, map);
        let res = rewrite_gates(gates, map)->Ok_0;
        let fres = rewrite_gates(front, map)->Ok_0;
        assert forall|g: int| 0 <= g < gates.len() implies {
            let old = gates[g];
            let new = #[trigger] res[g];
            &&& new.k == old.k
            &&& new.l == old.l
            &&& new.op == old.op
            &&& new.ins.len() == old.ins.len()
            &&& new.outs.len() == old.outs.len()
            &&& forall|j: int| 0 <= j < old.ins.len() ==> #[trigger] new.ins[j] == map[old.ins[j]]
            &&& forall|j: int| 0 <= j < old.outs.len() ==> #[trigger] new.outs[j] == map[old.outs[j]]
        } by {
            if g < gates.len() - 1 {
                assert(res[g] == fres[g]);
                assert(front[g] == gates[g]);
            }
        }
    }
}

/// What the renumbering of a well-formed circuit comes to: the state after
/// the last gate, the new wire of every wire, and the gates on them.
proof fn lemma_final(c: CircuitView)
    requires
        well_formed(c),
    ensures
        layout(c) is Ok,
        run(c.gates, c.gates.len(), layout(c)->Ok_0.0, layout(c)->Ok_0.2) is Ok,
        wire_map(c) is Ok,
        spec_recycle(c) is Ok,
        ({
            let (in_len, out_len, out_base) = layout(c)->Ok_0;
            let st = run(c.gates, c.gates.len(), in_len, out_base)->Ok_0;
            let (map, total) = wire_map(c)->Ok_0;
            let d = spec_recycle(c)->Ok_0;
            &&& in_len <= st.next
            &&& total == st.next + out_len
            &&& total <= c.header.nwires
            &&& map == with_outputs(st.map, out_base, out_len as nat, st.next)
            &&& d.header.nwires == total
            &&& d.header.ngates == c.gates.len() as usize
            &&& d.header.raw == seq![count_line(c.gates.len() as usize, total)] + c.header.raw.skip(
                1,
            )
            &&& d.gates == rewrite_gates(c.gates, map)->Ok_0
            &&& d.gates.len() == c.gates.len()
            &&& forall|g: int, j: int|
                0 <= g < c.gates.len() && 0 <= j < c.gates[g].ins.len() ==> map.contains_key(
                    #[trigger] c.gates[g].ins[j],
                )
            &&& forall|g: int, j: int|
                0 <= g < c.gates.len() && 0 <= j < c.gates[g].outs.len() ==> map.contains_key(
                    #[trigger] c.gates[g].outs[j],
                )
        }),
{
    lemma_gates_ok(c);
    let (in_len, out_len, out_base) = layout(c)->Ok_0;
    let gates = c.gates;
    let nwires = c.header.nwires;
    lemma_run(gates, in_len, out_base, nwires, gates.len());
    let st = run(gates, gates.len(), in_len, out_base)->Ok_0;
    lemma_low_bound_end(gates, in_len, nwires, out_base);
    let map = with_outputs(st.map, out_base, out_len as nat, st.next);
    assert forall|g: int, j: int|
        0 <= g < gates.len() && 0 <= j < gates[g].ins.len() implies map.contains_key(
        #[trigger] gates[g].ins[j],
    ) by {
        let w = gates[g].ins[j];
        if w >= in_len {
            assert(written_before(gates, g, w));
            let h = choose|h: int|
                0 <= h < g && h < gates.len() && #[trigger] gates[h].outs.contains(w);
            let k = choose|k: int| 0 <= k < gates[h].outs.len() && gates[h].outs[k] == w;
            assert(gates[h].outs[k] < nwires);
            assert(written_before(gates, gates.len() as int, w));
        }
    }
    assert forall|g: int, j: int|
        0 <= g < gates.len() && 0 <= j < gates[g].outs.len() implies map.contains_key(
        #[trigger] gates[g].outs[j],
    ) by {
        let w = gates[g].outs[j];
        assert(gates[g].outs.contains(w));
        assert(written_before(gates, gates.len() as int, w));
    }
    lemma_rewrite_gates(gates, map);
}

/// Recycling a well-formed circuit succeeds. The result has the same number
/// of gates, each with its `k`, `l` and operator as before and with every
/// wire replaced by its new wire, and the header lines after the first are
/// kept.
pub proof fn law_recycle_succeeds(c: CircuitView)
    requires
        well_formed(c),
    ensures
        spec_recycle(c) is Ok,
        wire_map(c) is Ok,
        ({
            let d = spec_recycle(c)->Ok_0;
            let (map, total) = wire_map(c)->Ok_0;
            &&& d.header.nwires == total
            &&& d.header.ngates == c.gates.len() as usize
            &&& d.header.raw.skip(1) == c.header.raw.skip(1)
            &&& d.gates.len() == c.gates.len()
            &&& forall|g: int|
                0 <= g < c.gates.len() ==> {
                    let old = c.gates[g];
                    let new = #[trigger] d.gates[g];
                    &&& new.k == old.k
                    &&& new.l == old.l
                    &&& new.op == old.op
                    &&& new.ins.len() == old.ins.len()
                    &&& new.outs.len() == old.outs.len()
                    &&& forall|j: int|
                        0 <= j < old.ins.len() ==> map.contains_key(old.ins[j])
                            && #[trigger] new.ins[j] == map[old.ins[j]]
                    &&& forall|j: int|
                        0 <= j < old.outs.len() ==> map.contains_key(old.outs[j])
                            && #[trigger] new.outs[j] == map[old.outs[j]]
                }
        }),
{
    lemma_final(c);
    let (map, total) = wire_map(c)->Ok_0;
    lemma_rewrite_gates(c.gates, map);
    let d = spec_recycle(c)->Ok_0;
    assert(d.header.raw.skip(1) =~= c.header.raw.skip(1));
    assert forall|g: int| 0 <= g < c.gates.len() implies {
        let old = c.gates[g];
        let new = #[trigger] d.gates[g];
        &&& forall|j: int|
            0 <= j < old.ins.len() ==> map.contains_key(old.ins[j]) && #[trigger] new.ins[j]
                == map[old.ins[j]]
        &&& forall|j: int|
            0 <= j < old.outs.len() ==> map.contains_key(old.outs[j]) && #[trigger] new.outs[j]
                == map[old.outs[j]]
    } by {
        let old = c.gates[g];
        let new = d.gates[g];
        assert forall|j: int| 0 <= j < old.ins.len() implies map.contains_key(old.ins[j])
            && #[trigger] new.ins[j] == map[old.ins[j]] by {
            assert(map.contains_key(c.gates[g].ins[j]));
        }
        assert forall|j: int| 0 <= j < old.outs.len() implies map.contains_key(old.outs[j])
            && #[trigger] new.outs[j] == map[old.outs[j]] by {
            assert(map.contains_key(c.gates[g].outs[j]));
        }
    }
}

/// After recycling, every input wire is mapped to itself.
pub proof fn law_inputs_keep_their_wires(c: CircuitView, w: usize)
    requires
        well_formed(c),
        w < layout(c)->Ok_0.0,
    ensures
        wire_map(c) is Ok,
        wire_map(c)->Ok_0.0.contains_key(w),
        wire_map(c)->Ok_0.0[w] == w,
{
    lemma_final(c);
    lemma_gates_ok(c);
    let (in_len, out_len, out_base) = layout(c)->Ok_0;
    lemma_run(c.gates, in_len, out_base, c.header.nwires, c.gates.len());
    let st = run(c.gates, c.gates.len(), in_len, out_base)->Ok_0;
    assert(st.map.contains_key(w));
    assert(st.map[w] == w);
}

/// After recycling, the output wires are the last wires of the circuit, in
/// the order that they had.
pub proof fn law_outputs_form_tail(c: CircuitView, i: nat)
    requires
        well_formed(c),
        i < layout(c)->Ok_0.1,
    ensures
        wire_map(c) is Ok,
        ({
            let (in_len, out_len, out_base) = layout(c)->Ok_0;
            let (map, total) = wire_map(c)->Ok_0;
            &&& out_len <= total
            &&& map.contains_key((out_base + i) as usize)
            &&& map[(out_base + i) as usize] == total - out_len + i
        }),
{
    lemma_final(c);
}

/// After recycling, the last wires hold the outputs alone: every wire below
/// the output wires, be it an input or written by a gate, has its new wire
/// below the last wires.
pub proof fn law_only_outputs_reach_the_tail(c: CircuitView, w: usize)
    requires
        well_formed(c),
        w < layout(c)->Ok_0.2,
        wire_map(c)->Ok_0.0.contains_key(w),
    ensures
        wire_map(c) is Ok,
        wire_map(c)->Ok_0.0[w] + layout(c)->Ok_0.1 < wire_map(c)->Ok_0.1,
{
    lemma_final(c);
    lemma_gates_ok(c);
    let (in_len, out_len, out_base) = layout(c)->Ok_0;
    lemma_run(c.gates, in_len, out_base, c.header.nwires, c.gates.len());
    let st = run(c.gates, c.gates.len(), in_len, out_base)->Ok_0;
    assert(st.map.contains_key(w));
    assert(st.map[w] < st.next);
}

/// A recycled circuit has at most as many wires as the circuit it was made
/// from.
pub proof fn law_no_more_wires(c: CircuitView)
    requires
        well_formed(c),
    ensures
        spec_recycle(c) is Ok,
        spec_recycle(c)->Ok_0.header.nwires <= c.header.nwires,
{
    lemma_final(c);
}

/// Writing distinct wires one after the other gives each its own value and
/// leaves the other wires as they were.
proof fn lemma_write_outs<V>(
    wires: spec_fn(usize) -> V,
    outs: Seq<usize>,
    vals: spec_fn(int) -> V,
    n: nat,
)
    requires
        n <= outs.len(),
        forall|i: int, j: int| 0 <= i < n && 0 <= j < n && i != j ==> outs[i] != outs[j],
    ensures
        forall|j: int|
            0 <= j < n ==> write_outs(wires, outs, vals, n)(#[trigger] outs[j]) == vals(j),
        forall|w: usize|
            !outs.take(n as int).contains(w) ==> #[trigger] write_outs(wires, outs, vals, n)(w)
                == wires(w),
    decreases n,
{
    if n > 0 {
        lemma_write_outs(wires, outs, vals, (n - 1) as nat);
        let t0 = outs.take(n - 1);
        let t1 = outs.take(n as int);
        assert forall|w: usize| !t1.contains(w) implies #[trigger] write_outs(
            wires,
            outs,
            vals,
            n,
        )(w) == wires(w) by {
            assert(t1[n - 1] == outs[n - 1]);
            assert(t1.contains(outs[n - 1]));
            if t0.contains(w) {
                let k = choose|k: int| 0 <= k < t0.len() && t0[k] == w;
                assert(t1[k] == w);
            }
            assert(w != outs[n - 1]);
            let prev = write_outs(wires, outs, vals, (n - 1) as nat);
            assert(prev(w) == wires(w));
            assert(write_outs(wires, outs, vals, n)(w) == prev(w));
        }
        assert forall|j: int| 0 <= j < n implies write_outs(wires, outs, vals, n)(
            #[trigger] outs[j],
        ) == vals(j) by {
            if j < n - 1 {
                assert(outs[j] != outs[n - 1]);
            }
        }
    }
}

/// Whether the value on the wire `x` is still needed after gate `g`:
/// the wire lies below the outputs, has a value, and is read later or was
/// just written.
pub open spec fn held_after(
    gates: Seq<GateView>,
    in_len: usize,
    out_base: usize,
    g: int,
    x: usize,
) -> bool {
    &&& x < out_base
    &&& x < in_len || written_before(gates, g + 1, x)
    &&& read_after(gates, g, x) || gates[g].outs.contains(x)
}

/// A wire that a gate writes is read by later gates only.
proof fn lemma_read_after_write(
    gates: Seq<GateView>,
    in_len: usize,
    out_base: usize,
    nwires: usize,
    g: int,
    o: usize,
)
    requires
        gates_ok(gates, in_len, out_base, nwires),
        0 <= g < gates.len(),
        gates[g].outs.contains(o),
    ensures
        read_after(gates, -1, o) ==> read_after(gates, g, o),
        in_len <= o < nwires,
        written_before(gates, g + 1, o),
{
    let k = choose|k: int| 0 <= k < gates[g].outs.len() && gates[g].outs[k] == o;
    assert(in_len <= gates[g].outs[k] < nwires);
    if read_after(gates, -1, o) {
        let h = choose|h: int| -1 < h < gates.len() && #[trigger] gates[h].ins.contains(o);
        let j = choose|j: int| 0 <= j < gates[h].ins.len() && gates[h].ins[j] == o;
        assert(gates[h].ins[j] == o);
        assert(written_before(gates, h, o));
        let h2 = choose|h2: int|
            0 <= h2 < h && h2 < gates.len() && #[trigger] gates[h2].outs.contains(o);
        let k2 = choose|k2: int| 0 <= k2 < gates[h2].outs.len() && gates[h2].outs[k2] == o;
        assert(gates[h2].outs[k2] == gates[g].outs[k]);
        assert(h2 == g);
    }
}

/// The new wire of a wire that gate `g` writes is the new wire of no
/// other wire whose value is needed after that gate, and of no other output
/// wire.
proof fn lemma_distinct_new_wires(c: CircuitView, g: int, x: usize, o: usize)
    requires
        well_formed(c),
        0 <= g < c.gates.len(),
        c.gates[g].outs.contains(o),
        x != o,
        layout(c)->Ok_0.2 <= x < c.header.nwires || held_after(
            c.gates,
            layout(c)->Ok_0.0,
            layout(c)->Ok_0.2,
            g,
            x,
        ),
    ensures
        wire_map(c) is Ok,
        wire_map(c)->Ok_0.0.contains_key(x),
        wire_map(c)->Ok_0.0.contains_key(o),
        wire_map(c)->Ok_0.0[x] != wire_map(c)->Ok_0.0[o],
{
    lemma_final(c);
    lemma_gates_ok(c);
    let (in_len, out_len, out_base) = layout(c)->Ok_0;
    let gates = c.gates;
    let nwires = c.header.nwires;
    lemma_run_keeps(gates, in_len, out_base, nwires, (g + 1) as nat, gates.len());
    lemma_run(gates, in_len, out_base, nwires, (g + 1) as nat);
    let st1 = run(gates, (g + 1) as nat, in_len, out_base)->Ok_0;
    let stf = run(gates, gates.len(), in_len, out_base)->Ok_0;
    let (map, total) = wire_map(c)->Ok_0;
    let freed = freed_before(gates, in_len, out_base, g + 1);
    lemma_read_after_write(gates, in_len, out_base, nwires, g, o);
    if o < out_base {
        assert(st1.map.contains_key(o));
        assert(!freed.contains(o));
        if x < out_base {
            assert(st1.map.contains_key(x));
            if c.gates[g].outs.contains(x) {
                lemma_read_after_write(gates, in_len, out_base, nwires, g, x);
            }
            if read_after(gates, g, x) {
                lemma_read_after_split(gates, g, x);
            }
            assert(!freed.contains(x));
            assert(st1.map[x] != st1.map[o]);
        } else {
            assert(st1.map[o] < st1.next);
        }
    } else {
        if x < out_base {
            assert(st1.map.contains_key(x));
            assert(st1.map[x] < st1.next);
        }
    }
}

/// No value is overwritten before it was read for the last time. Where gate
/// `g` reads a wire, and a gate `h` before it writes another wire at a time
/// when the wire that is read holds its value already, the two have different
/// new wires: in the recycled circuit, the last writer before `g` of a wire
/// that `g` reads is the same gate as in the circuit that was recycled, and
/// there is none where the wire is an input.
pub proof fn law_values_stay_until_read(c: CircuitView, g: int, j: int, h: int, k: int)
    requires
        well_formed(c),
        0 <= h < g < c.gates.len(),
        0 <= j < c.gates[g].ins.len(),
        0 <= k < c.gates[h].outs.len(),
        c.gates[h].outs[k] != c.gates[g].ins[j],
        c.gates[g].ins[j] < layout(c)->Ok_0.0 || written_before(c.gates, h + 1, c.gates[g].ins[j]),
    ensures
        wire_map(c) is Ok,
        wire_map(c)->Ok_0.0.contains_key(c.gates[g].ins[j]),
        wire_map(c)->Ok_0.0.contains_key(c.gates[h].outs[k]),
        wire_map(c)->Ok_0.0[c.gates[g].ins[j]] != wire_map(c)->Ok_0.0[c.gates[h].outs[k]],
{
    let x = c.gates[g].ins[j];
    let o = c.gates[h].outs[k];
    let (in_len, out_len, out_base) = layout(c)->Ok_0;
    lemma_final(c);
    lemma_gates_ok(c);
    assert(c.gates[h].outs.contains(o));
    assert(c.gates[g].ins.contains(x));
    assert(read_after(c.gates, h, x));
    if x >= out_base {
        if x >= c.header.nwires {
            assert(written_before(c.gates, h + 1, x));
            let h2 = choose|h2: int|
                0 <= h2 < h + 1 && h2 < c.gates.len() && #[trigger] c.gates[h2].outs.contains(x);
            let k2 = choose|k2: int| 0 <= k2 < c.gates[h2].outs.len() && c.gates[h2].outs[k2] == x;
            assert(c.gates[h2].outs[k2] < c.header.nwires);
        }
    }
    lemma_distinct_new_wires(c, h, x, o);
}

/// Whether the old and the new circuit hold the same values before gate
/// `g`, on the output wires and on every wire that a gate has still to
/// read.
spec fn same_values<V>(
    c: CircuitView,
    g: int,
    old_wires: spec_fn(usize) -> V,
    new_wires: spec_fn(usize) -> V,
) -> bool {
    let (in_len, out_len, out_base) = layout(c)->Ok_0;
    let map = wire_map(c)->Ok_0.0;
    &&& forall|w: usize|
        out_base <= w < c.header.nwires ==> new_wires(map[w]) == #[trigger] old_wires(w)
    &&& forall|w: usize|
        w < out_base && (w < in_len || written_before(c.gates, g, w)) && read_after(
            c.gates,
            g - 1,
            w,
        ) ==> new_wires(map[w]) == #[trigger] old_wires(w)
}

/// The old and the new circuit hold the same values before each gate.
proof fn lemma_same_values<V>(
    c: CircuitView,
    inputs: Seq<V>,
    blank: V,
    sem: spec_fn(usize, usize, Seq<char>, Seq<V>, int) -> V,
    g: nat,
)
    requires
        well_formed(c),
        inputs.len() == layout(c)->Ok_0.0,
        g <= c.gates.len(),
    ensures
        spec_recycle(c) is Ok,
        same_values(
            c,
            g as int,
            eval_gates(initial_wires(inputs, blank), c.gates, g, sem),
            eval_gates(initial_wires(inputs, blank), spec_recycle(c)->Ok_0.gates, g, sem),
        ),
    decreases g,
{
    lemma_final(c);
    lemma_gates_ok(c);
    law_recycle_succeeds(c);
    let (in_len, out_len, out_base) = layout(c)->Ok_0;
    let gates = c.gates;
    let nwires = c.header.nwires;
    let d = spec_recycle(c)->Ok_0;
    let (map, total) = wire_map(c)->Ok_0;
    let start = initial_wires(inputs, blank);
    let stf = run(gates, gates.len(), in_len, out_base)->Ok_0;
    if g == 0 {
        assert forall|w: usize|
            w < out_base && (w < in_len || written_before(gates, 0, w)) && read_after(
                gates,
                -1,
                w,
            ) implies start(map[w]) == #[trigger] start(w) by {
            law_inputs_keep_their_wires(c, w);
        }
    } else {
        lemma_same_values(c, inputs, blank, sem, (g - 1) as nat);
        let p = g - 1;
        let old0 = eval_gates(start, gates, p as nat, sem);
        let new0 = eval_gates(start, d.gates, p as nat, sem);
        let old1 = eval_gates(start, gates, g, sem);
        let new1 = eval_gates(start, d.gates, g, sem);
        let go = gates[p];
        let gn = d.gates[p];
        let vo = gate_inputs(old0, go);
        let vn = gate_inputs(new0, gn);
        assert(vo =~= vn) by {
            assert forall|j: int| 0 <= j < go.ins.len() implies vo[j] == vn[j] by {
                let w = go.ins[j];
                assert(gates[p].ins[j] == w);
                assert(gn.ins[j] == map[w]);
                assert(go.ins.contains(w));
                lemma_read_after_split(gates, p, w);
                if w >= in_len {
                    let h = choose|h: int|
                        0 <= h < p && h < gates.len() && #[trigger] gates[h].outs.contains(w);
                    lemma_read_after_write(gates, in_len, out_base, nwires, h, w);
                }
                assert(new0(map[w]) == old0(w));
            }
        }
        let vals = |j: int| sem(go.k, go.l, go.op, vo, j);
        assert(old1 == write_outs(old0, go.outs, vals, go.outs.len()));
        assert(new1 == write_outs(new0, gn.outs, vals, gn.outs.len()));
        assert forall|i: int, j: int|
            0 <= i < go.outs.len() && 0 <= j < go.outs.len() && i != j implies go.outs[i]
            != go.outs[j] by {
            assert(gates[p].outs[i] != gates[p].outs[j]);
        }
        assert forall|i: int, j: int|
            0 <= i < gn.outs.len() && 0 <= j < gn.outs.len() && i != j implies gn.outs[i]
            != gn.outs[j] by {
            let a = go.outs[i];
            let b = go.outs[j];
            assert(gates[p].outs[i] != gates[p].outs[j]);
            assert(go.outs.contains(a));
            assert(go.outs.contains(b));
            lemma_read_after_write(gates, in_len, out_base, nwires, p, a);
            lemma_distinct_new_wires(c, p, a, b);
            assert(gn.outs[i] == map[a]);
            assert(gn.outs[j] == map[b]);
        }
        lemma_write_outs(old0, go.outs, vals, go.outs.len());
        lemma_write_outs(new0, gn.outs, vals, gn.outs.len());
        assert(go.outs.take(go.outs.len() as int) =~= go.outs);
        assert(gn.outs.take(gn.outs.len() as int) =~= gn.outs);
        assert forall|w: usize|
            (out_base <= w < nwires) || (w < out_base && (w < in_len || written_before(
                gates,
                g as int,
                w,
            )) && read_after(gates, g - 1, w)) implies new1(map[w]) == #[trigger] old1(w) by {
            if go.outs.contains(w) {
                let j = choose|j: int| 0 <= j < go.outs.len() && go.outs[j] == w;
                assert(gn.outs[j] == map[w]);
                assert(old1(go.outs[j]) == vals(j));
                assert(new1(gn.outs[j]) == vals(j));
            } else {
                assert(old1(w) == old0(w));
                if gn.outs.contains(map[w]) {
                    let j = choose|j: int| 0 <= j < gn.outs.len() && gn.outs[j] == map[w];
                    let o = go.outs[j];
                    assert(go.outs.contains(o));
                    assert(gn.outs[j] == map[o]);
                    lemma_distinct_new_wires(c, p, w, o);
                }
                assert(new1(map[w]) == new0(map[w]));
                if w < out_base {
                    lemma_written_before_split(gates, p, w);
                    assert(read_after(gates, p - 1, w)) by {
                        let h = choose|h: int|
                            p < h < gates.len() && #[trigger] gates[h].ins.contains(w);
                        assert(p - 1 < h);
                    }
                }
                assert(new0(map[w]) == old0(w));
            }
        }
    }
}

/// The header lines that give the numbers of input and output wires are
/// those of the circuit before recycling.
proof fn lemma_layout_kept(c: CircuitView)
    requires
        well_formed(c),
    ensures
        spec_recycle(c) is Ok,
        layout(spec_recycle(c)->Ok_0) == Ok::<(usize, usize, usize), BristolError>(
            (
                layout(c)->Ok_0.0,
                layout(c)->Ok_0.1,
                (spec_recycle(c)->Ok_0.header.nwires - layout(c)->Ok_0.1) as usize,
            ),
        ),
        layout(c)->Ok_0.1 <= spec_recycle(c)->Ok_0.header.nwires,
{
    lemma_final(c);
    let d = spec_recycle(c)->Ok_0;
    assert(c.header.raw.len() >= 3);
    assert(d.header.raw.len() == c.header.raw.len());
    assert(d.header.raw[1] == c.header.raw[1]);
    assert(d.header.raw[2] == c.header.raw[2]);
}

/// For every assignment of values to the inputs, and whatever the gates
/// compute, the circuit before recycling and the circuit after it give the
/// same values on their output wires.
pub proof fn law_recycling_keeps_outputs<V>(
    c: CircuitView,
    inputs: Seq<V>,
    blank: V,
    sem: spec_fn(usize, usize, Seq<char>, Seq<V>, int) -> V,
)
    requires
        well_formed(c),
        inputs.len() == layout(c)->Ok_0.0,
    ensures
        spec_recycle(c) is Ok,
        circuit_outputs(spec_recycle(c)->Ok_0, inputs, blank, sem) == circuit_outputs(
            c,
            inputs,
            blank,
            sem,
        ),
{
    lemma_final(c);
    lemma_layout_kept(c);
    lemma_same_values(c, inputs, blank, sem, c.gates.len());
    let d = spec_recycle(c)->Ok_0;
    let (in_len, out_len, out_base) = layout(c)->Ok_0;
    let (map, total) = wire_map(c)->Ok_0;
    let start = initial_wires(inputs, blank);
    let old_end = eval_gates(start, c.gates, c.gates.len(), sem);
    let new_end = eval_gates(start, d.gates, d.gates.len(), sem);
    let a = circuit_outputs(d, inputs, blank, sem);
    let b = circuit_outputs(c, inputs, blank, sem);
    assert(a.len() == b.len());
    assert forall|i: int| 0 <= i < out_len implies a[i] == b[i] by {
        let w = (out_base + i) as usize;
        assert(new_end(map[w]) == old_end(w));
    }
    assert(a =~= b);
}

/// Whether no new wire is free before gate `g`: every input wire below the
/// outputs is read by some gate, and every wire between the inputs and the
/// outputs that any gate reads is read by gate `g` or by a later one.
pub open spec fn nothing_free_before(
    gates: Seq<GateView>,
    in_len: usize,
    out_base: usize,
    g: int,
) -> bool {
    forall|w: usize|
        w < out_base ==> if w < in_len {
            #[trigger] read_after(gates, -1, w)
        } else {
            read_after(gates, -1, w) ==> read_after(gates, g - 1, w)
        }
}

/// The circuits that recycling leaves as they are: those that are
/// well-formed, whose first header line gives their numbers of gates and of
/// wires, whose gates write the wires between the inputs and the outputs one
/// after the other without a gap, and in which no wire is free when a gate
/// needs one.
pub open spec fn is_packed(d: CircuitView) -> bool {
    &&& well_formed(d)
    &&& d.gates.len() <= usize::MAX
    &&& d.header.ngates == d.gates.len()
    &&& d.header.raw[0] == count_line(d.header.ngates, d.header.nwires)
    &&& {
        let (in_len, out_len, out_base) = layout(d)->Ok_0;
        &&& out_base == in_len + low_seq(d.gates, out_base, d.gates.len()).len()
        &&& forall|g: int, j: int|
            0 <= g < d.gates.len() && 0 <= j < d.gates[g].outs.len() && #[trigger] d.gates[g].outs[j]
                < out_base ==> {
                &&& d.gates[g].outs[j] == in_len + low_seq(d.gates, out_base, g as nat).len()
                    + low_of(d.gates[g].outs, out_base, j as nat).len()
                &&& nothing_free_before(d.gates, in_len, out_base, g)
            }
    }
}

/// Whether a gate at `g` or later writes a wire below the outputs.
spec fn writes_later(gates: Seq<GateView>, out_base: usize, g: int) -> bool {
    exists|h: int, j: int|
        g <= h < gates.len() && 0 <= j < gates[h].outs.len() && #[trigger] gates[h].outs[j]
            < out_base
}

/// What is free before a gate is free before every later gate.
proof fn lemma_free_stays(gates: Seq<GateView>, in_len: usize, out_base: usize, g: int, h: int)
    requires
        g <= h,
        nothing_free_before(gates, in_len, out_base, h),
    ensures
        nothing_free_before(gates, in_len, out_base, g),
{
    assert forall|w: usize| w < out_base implies if w < in_len {
        #[trigger] read_after(gates, -1, w)
    } else {
        read_after(gates, -1, w) ==> read_after(gates, g - 1, w)
    } by {
        if w >= in_len && read_after(gates, -1, w) {
            assert(read_after(gates, h - 1, w));
            let k = choose|k: int| h - 1 < k < gates.len() && #[trigger] gates[k].ins.contains(w);
            assert(g - 1 < k);
        }
    }
}

/// Where every input is read, no input is free at the start.
proof fn lemma_no_unused_inputs(gates: Seq<GateView>, in_len: usize, out_base: usize, n: nat)
    requires
        n <= in_len,
        nothing_free_before(gates, in_len, out_base, 0),
    ensures
        unused_inputs(gates, out_base, n).len() == 0,
    decreases n,
{
    if n > 0 {
        lemma_no_unused_inputs(gates, in_len, out_base, (n - 1) as nat);
        let w = (n - 1) as usize;
        if w < out_base {
            assert(read_after(gates, -1, w));
        }
    }
}

/// What holds of the renumbering of a packed circuit before gate `g`: every
/// wire stands for itself, the wires handed out are those written so far,
/// and no wire is free as long as a gate will need one.
spec fn packed_inv(
    gates: Seq<GateView>,
    in_len: usize,
    out_base: usize,
    g: int,
    n: int,
    st: RecycleState,
) -> bool {
    &&& forall|w: usize| #[trigger] st.map.contains_key(w) ==> st.map[w] == w
    &&& st.next == in_len + low_seq(gates, out_base, g as nat).len() + low_of(
        gates[g].outs,
        out_base,
        n as nat,
    ).len()
}

/// In a packed circuit the outputs of a gate get the wires that they have.
proof fn lemma_packed_alloc(d: CircuitView, g: int, st: RecycleState, n: nat)
    requires
        is_packed(d),
        0 <= g < d.gates.len(),
        n <= d.gates[g].outs.len(),
        gate_inv(d.gates, layout(d)->Ok_0.0, layout(d)->Ok_0.2, g, 0, 0, st),
        forall|w: usize| #[trigger] st.map.contains_key(w) ==> st.map[w] == w,
        st.next == layout(d)->Ok_0.0 + low_seq(d.gates, layout(d)->Ok_0.2, g as nat).len(),
        writes_later(d.gates, layout(d)->Ok_0.2, g) ==> st.pool.len() == 0,
    ensures
        alloc_outs(st, d.gates[g].outs, n, layout(d)->Ok_0.2) is Ok,
        ({
            let s = alloc_outs(st, d.gates[g].outs, n, layout(d)->Ok_0.2)->Ok_0;
            &&& packed_inv(d.gates, layout(d)->Ok_0.0, layout(d)->Ok_0.2, g, n as int, s)
            &&& s.pool == st.pool
        }),
    decreases n,
{
    lemma_gates_ok(d);
    let (in_len, out_len, out_base) = layout(d)->Ok_0;
    let gates = d.gates;
    let outs = gates[g].outs;
    lemma_alloc_phase(gates, in_len, out_base, d.header.nwires, g, st, n);
    if n > 0 {
        lemma_packed_alloc(d, g, st, (n - 1) as nat);
        lemma_alloc_phase(gates, in_len, out_base, d.header.nwires, g, st, (n - 1) as nat);
        let s0 = alloc_outs(st, outs, (n - 1) as nat, out_base)->Ok_0;
        let o = outs[n - 1];
        if o < out_base {
            assert(gates[g].outs[n - 1] < out_base);
            assert(writes_later(gates, out_base, g));
            assert(s0.pool.len() == 0);
            let s = alloc_outs(st, outs, n, out_base)->Ok_0;
            assert(s.map == s0.map.insert(o, s0.next as usize));
            assert forall|w: usize| #[trigger] s.map.contains_key(w) implies s.map[w] == w by {
                if w != o {
                    assert(s0.map.contains_key(w));
                }
            }
        }
    }
}

/// In a packed circuit no wire becomes free while a gate will still need
/// one.
proof fn lemma_packed_expire(d: CircuitView, g: int, st: RecycleState, n: nat)
    requires
        is_packed(d),
        0 <= g < d.gates.len(),
        n <= d.gates[g].ins.len(),
        writes_later(d.gates, layout(d)->Ok_0.2, g + 1),
    ensures
        expire_ins(d.gates, st, g, n, layout(d)->Ok_0.0, layout(d)->Ok_0.2) == Ok::<
            RecycleState,
            BristolError,
        >(st),
    decreases n,
{
    let (in_len, out_len, out_base) = layout(d)->Ok_0;
    let gates = d.gates;
    if n > 0 {
        lemma_packed_expire(d, g, st, (n - 1) as nat);
        let w = gates[g].ins[n - 1];
        if expires_at(gates, g, w, in_len, out_base) {
            let (h, j) = choose|h: int, j: int|
                g + 1 <= h < gates.len() && 0 <= j < gates[h].outs.len() && #[trigger] gates[h].outs[j]
                    < out_base;
            assert(nothing_free_before(gates, in_len, out_base, h));
            lemma_free_stays(gates, in_len, out_base, g + 1, h);
            assert(gates[g].ins.contains(w)) by {
                assert(gates[g].ins[n - 1] == w);
            }
            lemma_read_after_split(gates, g, w);
            assert(read_after(gates, g, w));
        }
    }
}

/// The renumbering of a packed circuit gives every wire itself.
proof fn lemma_packed_run(d: CircuitView, g: nat)
    requires
        is_packed(d),
        g <= d.gates.len(),
    ensures
        run(d.gates, g, layout(d)->Ok_0.0, layout(d)->Ok_0.2) is Ok,
        ({
            let (in_len, out_len, out_base) = layout(d)->Ok_0;
            let st = run(d.gates, g, in_len, out_base)->Ok_0;
            &&& forall|w: usize| #[trigger] st.map.contains_key(w) ==> st.map[w] == w
            &&& st.next == in_len + low_seq(d.gates, out_base, g).len()
            &&& writes_later(d.gates, out_base, g as int) ==> st.pool.len() == 0
        }),
    decreases g,
{
    lemma_gates_ok(d);
    let (in_len, out_len, out_base) = layout(d)->Ok_0;
    let gates = d.gates;
    let nwires = d.header.nwires;
    lemma_run(gates, in_len, out_base, nwires, g);
    if g == 0 {
        if writes_later(gates, out_base, 0) {
            let (h, j) = choose|h: int, j: int|
                0 <= h < gates.len() && 0 <= j < gates[h].outs.len() && #[trigger] gates[h].outs[j]
                    < out_base;
            assert(nothing_free_before(gates, in_len, out_base, h));
            lemma_free_stays(gates, in_len, out_base, 0, h);
            lemma_no_unused_inputs(gates, in_len, out_base, in_len as nat);
        }
    } else {
        let p = g - 1;
        lemma_packed_run(d, p as nat);
        lemma_run(gates, in_len, out_base, nwires, p as nat);
        let st = run(gates, p as nat, in_len, out_base)->Ok_0;
        lemma_gate_inv_start(gates, in_len, out_base, p, st);
        let outs = gates[p].outs;
        let ins = gates[p].ins;
        if writes_later(gates, out_base, g as int) {
            let (h, j) = choose|h: int, j: int|
                g <= h < gates.len() && 0 <= j < gates[h].outs.len() && #[trigger] gates[h].outs[j]
                    < out_base;
            assert(p <= h);
            assert(writes_later(gates, out_base, p));
        }
        lemma_packed_alloc(d, p, st, outs.len());
        let s1 = alloc_outs(st, outs, outs.len(), out_base)->Ok_0;
        lemma_alloc_phase(gates, in_len, out_base, nwires, p, st, outs.len());
        lemma_expire_phase(gates, in_len, out_base, nwires, p, s1, ins.len());
        if writes_later(gates, out_base, g as int) {
            lemma_packed_expire(d, p, s1, ins.len());
        }
    }
}

/// Recycling changes nothing of a packed circuit: every wire gets the number
/// that it has.
pub proof fn law_recycling_a_packed_circuit_changes_nothing(d: CircuitView)
    requires
        is_packed(d),
    ensures
        spec_recycle(d) == Ok::<CircuitView, BristolError>(d),
{
    lemma_final(d);
    law_recycle_succeeds(d);
    let (in_len, out_len, out_base) = layout(d)->Ok_0;
    let gates = d.gates;
    lemma_packed_run(d, gates.len());
    let (map, total) = wire_map(d)->Ok_0;
    let r = spec_recycle(d)->Ok_0;
    assert(total == d.header.nwires);
    assert forall|w: usize| #[trigger] map.contains_key(w) implies map[w] == w by {
        let st = run(gates, gates.len(), in_len, out_base)->Ok_0;
        if out_base <= w < out_base + out_len {
        } else {
            assert(st.map.contains_key(w));
        }
    }
    assert(r.gates =~= gates) by {
        assert forall|g: int| 0 <= g < gates.len() implies r.gates[g] == gates[g] by {
            let old = gates[g];
            let new = r.gates[g];
            assert(new.ins =~= old.ins) by {
                assert forall|j: int| 0 <= j < old.ins.len() implies new.ins[j] == old.ins[j] by {
                    assert(map.contains_key(old.ins[j]));
                }
            }
            assert(new.outs =~= old.outs) by {
                assert forall|j: int| 0 <= j < old.outs.len() implies new.outs[j]
                    == old.outs[j] by {
                    assert(map.contains_key(old.outs[j]));
                }
            }
        }
    }
    assert(d.header.raw.len() >= 3);
    assert(r.header.raw =~= d.header.raw);
}

} // verus!
