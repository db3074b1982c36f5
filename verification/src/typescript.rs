//! A boolean circuit written out as a TypeScript function.

use crate::bristol::{
    input_lengths, output_length, spec_input_lengths, spec_output_length, BristolCircuit,
    BristolError, CircuitView, GateView,
};
use crate::text::{append_number, decimal};
use vstd::prelude::*;
use vstd::string::StringExecFns;

verus! {

/// Whether a gate can be written: it is `INV` with one output and at least
/// one input, or `XOR` or `AND` with two inputs and one output.
pub open spec fn is_supported(g: GateView) -> bool {
    if g.op == "INV"@ {
        g.l == 1 && g.ins.len() >= 1 && g.outs.len() >= 1
    } else if g.op == "XOR"@ || g.op == "AND"@ {
        g.k == 2 && g.l == 1 && g.ins.len() >= 2 && g.outs.len() >= 1
    } else {
        false
    }
}

/// The line of a gate in the list of gates.
pub open spec fn gate_entry(g: GateView) -> Seq<char> {
    if g.op == "INV"@ {
        "  ["@ + decimal(g.outs[0] as nat) + ", 'INV', "@ + decimal(g.ins[0] as nat) + "],\n"@
    } else {
        "  ["@ + decimal(g.outs[0] as nat) + ", '"@ + g.op + "', "@ + decimal(g.ins[0] as nat)
            + ", "@ + decimal(g.ins[1] as nat) + "],\n"@
    }
}

/// The lines of the first `n` gates.
pub open spec fn gate_entries(gates: Seq<GateView>, n: int) -> Seq<char>
    decreases n,
{
    if n <= 0 {
        Seq::empty()
    } else {
        gate_entries(gates, n - 1) + gate_entry(gates[n - 1])
    }
}

/// The first of the first `n` gates that cannot be written, if there is
/// one.
pub open spec fn first_unsupported(gates: Seq<GateView>, n: int) -> Option<int>
    decreases n,
{
    if n <= 0 {
        None
    } else {
        match first_unsupported(gates, n - 1) {
            Some(i) => Some(i),
            None => if is_supported(gates[n - 1]) {
                None
            } else {
                Some(n - 1)
            },
        }
    }
}

/// The parameters of the function for the first `n` inputs.
pub open spec fn parameters(n: int) -> Seq<char>
    decreases n,
{
    if n <= 0 {
        Seq::empty()
    } else if n == 1 {
        "input"@ + decimal(0) + ": boolean[]"@
    } else {
        parameters(n - 1) + ", "@ + "input"@ + decimal((n - 1) as nat) + ": boolean[]"@
    }
}

/// The checks of the lengths of the first `n` inputs.
pub open spec fn length_checks(lens: Seq<usize>, n: int) -> Seq<char>
    decreases n,
{
    if n <= 0 {
        Seq::empty()
    } else {
        length_checks(lens, n - 1) + "  if (input"@ + decimal((n - 1) as nat) + ".length !== "@
            + decimal(lens[n - 1] as nat) + ") throw new Error(\"input"@ + decimal((n - 1) as nat)
            + " length\");\n"@
    }
}

/// The lines that copy the first `n` inputs to the wires.
pub open spec fn input_copies(lens: Seq<usize>, n: int) -> Seq<char>
    decreases n,
{
    if n <= 0 {
        Seq::empty()
    } else {
        input_copies(lens, n - 1) + "    for (let j = 0; j < "@ + decimal(lens[n - 1] as nat)
            + "; ++j) w[off + j] = input"@ + decimal((n - 1) as nat) + "[j];\n"@
            + "    off += "@ + decimal(lens[n - 1] as nat) + ";\n"@
    }
}

/// The TypeScript text for a circuit whose gates can all be written: the
/// list of the gates, then a function named `stem` that takes one array of
/// booleans for each input, checks their lengths, copies them to the first
/// wires, runs the gates, and gives the last wires as the outputs.
pub open spec fn typescript_text(
    gates: Seq<GateView>,
    lens: Seq<usize>,
    out_base: usize,
    out_len: usize,
    stem: Seq<char>,
) -> Seq<char> {
    "const gates = [\n"@ + gate_entries(gates, gates.len() as int) + "];\n\n"@
        + "export default function "@ + stem + "("@ + parameters(lens.len() as int)
        + "): boolean[] {\n"@ + length_checks(lens, lens.len() as int)
        + "  let w: boolean[] = [];\n"@ + "  {\n"@ + "    let off = 0;\n"@ + input_copies(
        lens,
        lens.len() as int,
    ) + "  }\n"@ + "  for (const [dst, op, in0, in1] of gates as any) {\n"@
        + "    switch (op) {\n"@ + "      case 'INV': w[dst] = !w[in0]; break;\n"@
        + "      case 'XOR': w[dst] = w[in0] !== w[in1]; break;\n"@
        + "      case 'AND': w[dst] = w[in0] && w[in1]; break;\n"@ + "    }\n"@ + "  }\n"@
        + "  return w.slice("@ + decimal(out_base as nat) + ", "@ + decimal(out_base as nat)
        + " + "@ + decimal(out_len as nat) + ");\n"@ + "}\n"@
}

/// The TypeScript text for the circuit `c`, or why there is none: the
/// header must give the inputs and the outputs, the outputs must not be more
/// than the wires, and every gate must be one that can be written.
pub open spec fn spec_typescript(c: CircuitView, stem: Seq<char>) -> Result<Seq<char>, BristolError> {
    match spec_input_lengths(c.header) {
        Err(e) => Err(e),
        Ok(lens) => match spec_output_length(c.header) {
            Err(e) => Err(e),
            Ok(out_len) => if out_len > c.header.nwires {
                Err(BristolError::TooFewWires)
            } else {
                match first_unsupported(c.gates, c.gates.len() as int) {
                    Some(i) => Err(BristolError::UnsupportedOp(i as usize)),
                    None => Ok(
                        typescript_text(
                            c.gates,
                            lens,
                            (c.header.nwires - out_len) as usize,
                            out_len,
                            stem,
                        ),
                    ),
                }
            },
        },
    }
}

/// Whether the string `s` is the text `t`.
fn is_text(s: &String, t: &str) -> (r: bool)
    ensures
        r == (s@ == t@),
{
    match crate::name_map::compare_names(s.as_str(), t) {
        crate::name_map::NameOrder::Same => true,
        _ => {
            proof {
                crate::name_map::lemma_name_order_total(s@, s@);
            }
            false
        },
    }
}

proof fn lemma_unsupported_stays(gates: Seq<GateView>, n: int, m: int)
    requires
        0 < n <= m <= gates.len(),
        first_unsupported(gates, n) == Some(n - 1),
    ensures
        first_unsupported(gates, m) == Some(n - 1),
    decreases m - n,
{
    if n < m {
        lemma_unsupported_stays(gates, n, m - 1);
    }
}

/// The lines of all gates.
fn gates_section(c: &BristolCircuit) -> (r: Result<String, BristolError>)
    ensures
        match r {
            Ok(s) => first_unsupported(c@.gates, c@.gates.len() as int) is None && s@
                == gate_entries(c@.gates, c@.gates.len() as int),
            Err(e) => first_unsupported(c@.gates, c@.gates.len() as int) is Some && e
                == BristolError::UnsupportedOp(
                first_unsupported(c@.gates, c@.gates.len() as int)->0 as usize,
            ),
        },
{
    let ghost gates = c@.gates;
    let mut ts = String::new();
    let mut g: usize = 0;
    assert(ts@ =~= gate_entries(gates, 0));
    while g < c.gates.len()
        invariant
            g <= c.gates@.len(),
            gates == c@.gates,
            gates.len() == c.gates@.len(),
            first_unsupported(gates, g as int) is None,
            ts@ == gate_entries(gates, g as int),
        decreases c.gates@.len() - g,
    {
        let gate = &c.gates[g];
        assert(gates[g as int] == gate@);
        let ghost before = ts@;
        if is_text(&gate.op, "INV") {
            if !(gate.l == 1 && gate.ins.len() >= 1 && gate.outs.len() >= 1) {
                proof {
                    lemma_unsupported_stays(gates, g + 1, gates.len() as int);
                }
                return Err(BristolError::UnsupportedOp(g));
            }
            ts.append("  [");
            append_number(&mut ts, gate.outs[0]);
            ts.append(", 'INV', ");
            append_number(&mut ts, gate.ins[0]);
            ts.append("],\n");
            assert(ts@ =~= before + gate_entry(gates[g as int]));
        } else if is_text(&gate.op, "XOR") || is_text(&gate.op, "AND") {
            if !(gate.k == 2 && gate.l == 1 && gate.ins.len() >= 2 && gate.outs.len() >= 1) {
                proof {
                    lemma_unsupported_stays(gates, g + 1, gates.len() as int);
                }
                return Err(BristolError::UnsupportedOp(g));
            }
            ts.append("  [");
            append_number(&mut ts, gate.outs[0]);
            ts.append(", '");
            ts.append(gate.op.as_str());
            ts.append("', ");
            append_number(&mut ts, gate.ins[0]);
            ts.append(", ");
            append_number(&mut ts, gate.ins[1]);
            ts.append("],\n");
            assert(ts@ =~= before + gate_entry(gates[g as int]));
        } else {
            proof {
                lemma_unsupported_stays(gates, g + 1, gates.len() as int);
            }
            return Err(BristolError::UnsupportedOp(g));
        }
        g += 1;
    }
    Ok(ts)
}

/// The parameters of the function for `n` inputs.
fn parameters_text(n: usize) -> (ts: String)
    ensures
        ts@ == parameters(n as int),
{
    let mut ts = String::new();
    let mut i: usize = 0;
    assert(ts@ =~= parameters(0));
    while i < n
        invariant
            i <= n,
            ts@ == parameters(i as int),
        decreases n - i,
    {
        let ghost before = ts@;
        if i > 0 {
            ts.append(", ");
        }
        ts.append("input");
        append_number(&mut ts, i);
        ts.append(": boolean[]");
        proof {
            if i == 0 {
                assert(ts@ =~= parameters(1));
            } else {
                assert(ts@ =~= parameters(i + 1));
            }
        }
        i += 1;
    }
    ts
}

/// The checks of the lengths of the inputs.
fn length_checks_text(inputs: &Vec<usize>) -> (ts: String)
    ensures
        ts@ == length_checks(inputs@, inputs@.len() as int),
{
    let mut ts = String::new();
    let mut i: usize = 0;
    assert(ts@ =~= length_checks(inputs@, 0));
    while i < inputs.len()
        invariant
            i <= inputs@.len(),
            ts@ == length_checks(inputs@, i as int),
        decreases inputs@.len() - i,
    {
        ts.append("  if (input");
        append_number(&mut ts, i);
        ts.append(".length !== ");
        append_number(&mut ts, inputs[i]);
        ts.append(") throw new Error(\"input");
        append_number(&mut ts, i);
        ts.append(" length\");\n");
        assert(ts@ =~= length_checks(inputs@, i + 1));
        i += 1;
    }
    ts
}

/// The lines that copy the inputs to the wires.
fn input_copies_text(inputs: &Vec<usize>) -> (ts: String)
    ensures
        ts@ == input_copies(inputs@, inputs@.len() as int),
{
    let mut ts = String::new();
    let mut i: usize = 0;
    assert(ts@ =~= input_copies(inputs@, 0));
    while i < inputs.len()
        invariant
            i <= inputs@.len(),
            ts@ == input_copies(inputs@, i as int),
        decreases inputs@.len() - i,
    {
        ts.append("    for (let j = 0; j < ");
        append_number(&mut ts, inputs[i]);
        ts.append("; ++j) w[off + j] = input");
        append_number(&mut ts, i);
        ts.append("[j];\n");
        ts.append("    off += ");
        append_number(&mut ts, inputs[i]);
        ts.append(";\n");
        assert(ts@ =~= input_copies(inputs@, i + 1));
        i += 1;
    }
    ts
}

/// The TypeScript function for the circuit `c`, named `stem`.
pub fn to_typescript(c: &BristolCircuit, stem: &str) -> (r: Result<String, BristolError>)
    ensures
        match r {
            Ok(s) => spec_typescript(c@, stem@) == Ok::<Seq<char>, BristolError>(s@),
            Err(e) => spec_typescript(c@, stem@) == Err::<Seq<char>, BristolError>(e),
        },
{
    let inputs = match input_lengths(&c.header) {
        Ok(lens) => lens,
        Err(e) => {
            return Err(e);
        },
    };
    let out_len = match output_length(&c.header) {
        Ok(n) => n,
        Err(e) => {
            return Err(e);
        },
    };
    let nwires = c.header.nwires();
    if out_len > nwires {
        return Err(BristolError::TooFewWires);
    }
    let out_base: usize = nwires - out_len;
    let entries = match gates_section(c) {
        Ok(s) => s,
        Err(e) => {
            return Err(e);
        },
    };
    let params = parameters_text(inputs.len());
    let checks = length_checks_text(&inputs);
    let copies = input_copies_text(&inputs);
    let mut ts = String::from_str("const gates = [\n");
    ts.append(entries.as_str());
    ts.append("];\n\n");
    ts.append("export default function ");
    ts.append(stem);
    ts.append("(");
    ts.append(params.as_str());
    ts.append("): boolean[] {\n");
    ts.append(checks.as_str());
    ts.append("  let w: boolean[] = [];\n");
    ts.append("  {\n");
    ts.append("    let off = 0;\n");
    ts.append(copies.as_str());
    ts.append("  }\n");
    ts.append("  for (const [dst, op, in0, in1] of gates as any) {\n");
    ts.append("    switch (op) {\n");
    ts.append("      case 'INV': w[dst] = !w[in0]; break;\n");
    ts.append("      case 'XOR': w[dst] = w[in0] !== w[in1]; break;\n");
    ts.append("      case 'AND': w[dst] = w[in0] && w[in1]; break;\n");
    ts.append("    }\n");
    ts.append("  }\n");
    ts.append("  return w.slice(");
    append_number(&mut ts, out_base);
    ts.append(", ");
    append_number(&mut ts, out_base);
    ts.append(" + ");
    append_number(&mut ts, out_len);
    ts.append(");\n");
    ts.append("}\n");
    assert(ts@ =~= typescript_text(c@.gates, inputs@, out_base, out_len, stem@));
    Ok(ts)
}

} // verus!
