use summon::bristol::{BristolCircuit, BristolError};
use summon::recycle::recycle;

fn adder_chain(depth: usize) -> String {
    // Two inputs on wires 0 and 1; gate i adds the previous sum and an input.
    let mut text = format!("{} {}\n2 1 1\n1 1\n\n", depth, depth + 2);
    let mut prev = 0usize;
    for i in 0..depth {
        let other = if i == 0 { 1 } else { i % 2 };
        text.push_str(&format!("2 1 {} {} {} ADD\n", prev, other, i + 2));
        prev = i + 2;
    }
    text
}

#[test]
fn recycling_a_long_adder_chain_needs_five_wires() {
    let circuit = BristolCircuit::parse(&adder_chain(1000)).unwrap();
    assert_eq!(circuit.header.nwires(), 1002);
    assert_eq!(circuit.gates.len(), 1000);
    let recycled = recycle(&circuit).unwrap();
    assert_eq!(recycled.header.nwires(), 5);
    assert_eq!(recycled.gates.len(), 1000);
    assert_eq!(recycled.gates[999].outs, vec![4]);
    // only the output is on the last wire; the sums before it take turns on two wires
    for (i, gate) in recycled.gates.iter().enumerate().take(999) {
        assert_eq!(gate.outs, vec![2 + i % 2]);
    }
    // each gate reads the sum of its predecessor
    for i in 1..1000 {
        assert_eq!(recycled.gates[i].ins[0], recycled.gates[i - 1].outs[0]);
        assert!(recycled.gates[i].ins[1] < 2);
    }
}

#[test]
fn recycling_keeps_inputs_and_moves_the_output_to_the_end() {
    let circuit = BristolCircuit::parse(&adder_chain(4)).unwrap();
    let recycled = recycle(&circuit).unwrap();
    let text = recycled.to_text();
    assert_eq!(
        text,
        "4 5\n2 1 1\n1 1\n\n2 1 0 1 2 ADD\n2 1 2 1 3 ADD\n2 1 3 0 2 ADD\n2 1 2 1 4 ADD\n"
    );
}

#[test]
fn a_wire_that_nothing_defines_is_reported() {
    let circuit = BristolCircuit::parse("1 4\n1 1\n1 1\n2 1 0 2 3 ADD\n").unwrap();
    assert_eq!(recycle(&circuit).unwrap_err(), BristolError::UndefinedWire(2));
}

fn circuit(text: &str) -> BristolCircuit {
    BristolCircuit::parse(text).unwrap()
}

#[test]
fn wires_are_reused_in_the_order_in_which_they_became_free() {
    // wires 3 and 4 are read for the last time by the third gate, as its second
    // and its first input: 4 becomes free before 3
    let text = "6 10\n1 3\n1 1\n\
        1 1 0 3 INV\n\
        1 1 1 4 INV\n\
        2 1 4 3 5 AND\n\
        1 1 5 6 INV\n\
        1 1 2 7 INV\n\
        2 1 6 7 9 AND\n";
    let recycled = recycle(&circuit(text)).unwrap();
    assert_eq!(
        recycled.to_text(),
        "6 7\n1 3\n1 1\n\
        1 1 0 3 INV\n\
        1 1 1 4 INV\n\
        2 1 4 3 5 AND\n\
        1 1 5 4 INV\n\
        1 1 2 3 INV\n\
        2 1 4 3 6 AND\n"
    );
}

#[test]
fn an_input_that_no_gate_reads_gives_its_wire() {
    let text = "2 5\n1 2\n1 1\n1 1 0 2 INV\n1 1 2 4 INV\n";
    let recycled = recycle(&circuit(text)).unwrap();
    // input 1 is not read: the first gate writes to its wire
    assert_eq!(recycled.to_text(), "2 3\n1 2\n1 1\n1 1 0 1 INV\n1 1 1 2 INV\n");
}

#[test]
fn inputs_that_are_read_keep_their_wires_to_the_end() {
    let text = "3 6\n1 2\n1 1\n2 1 0 1 2 AND\n1 1 2 3 INV\n1 1 3 5 INV\n";
    let recycled = recycle(&circuit(text)).unwrap();
    assert_eq!(recycled.to_text(), "3 5\n1 2\n1 1\n2 1 0 1 2 AND\n1 1 2 3 INV\n1 1 3 4 INV\n");
}

#[test]
fn a_wire_read_twice_by_one_gate_becomes_free_once() {
    let text = "4 7\n1 1\n1 1\n1 1 0 1 INV\n2 1 1 1 2 AND\n1 1 2 3 INV\n1 1 3 6 INV\n";
    let recycled = recycle(&circuit(text)).unwrap();
    assert_eq!(
        recycled.to_text(),
        "4 4\n1 1\n1 1\n1 1 0 1 INV\n2 1 1 1 2 AND\n1 1 2 1 INV\n1 1 1 3 INV\n"
    );
}

#[test]
fn several_outputs_stay_in_their_order_at_the_end() {
    let text = "3 7\n1 2\n2 1 1\n2 1 0 1 2 XOR\n2 1 0 1 5 AND\n1 1 2 6 INV\n";
    let recycled = recycle(&circuit(text)).unwrap();
    assert_eq!(recycled.to_text(), "3 5\n1 2\n2 1 1\n2 1 0 1 2 XOR\n2 1 0 1 3 AND\n1 1 2 4 INV\n");
}

#[test]
fn recycling_twice_changes_a_circuit_that_reuses_wires() {
    let once = recycle(&BristolCircuit::parse(&adder_chain(4)).unwrap()).unwrap();
    assert_eq!(once.header.nwires(), 5);
    let twice = recycle(&once).unwrap();
    assert_eq!(twice.header.nwires(), 6);
    // without reuse the second pass leaves the circuit as it is
    let plain = recycle(&BristolCircuit::parse(&adder_chain(2)).unwrap()).unwrap();
    assert_eq!(recycle(&plain).unwrap().to_text(), plain.to_text());
}

#[test]
fn circuits_that_cannot_be_recycled() {
    assert_eq!(recycle(&circuit("0 1\n")).unwrap_err(), BristolError::MissingInputHeader);
    assert_eq!(recycle(&circuit("0 1\n1 1\n")).unwrap_err(), BristolError::MissingOutputHeader);
    assert_eq!(recycle(&circuit("0 1\n1 1\n1 2\n")).unwrap_err(), BristolError::TooFewWires);
    assert_eq!(
        recycle(&circuit("1 9\n1 1\n1 1\n1 1 0 12 INV\n")).unwrap_err(),
        BristolError::UndefinedWire(12)
    );
    let huge = format!("1 5\n2 {} 1\n1 0\n1 1 0 7 INV\n", usize::MAX);
    assert_eq!(recycle(&circuit(&huge)).unwrap_err(), BristolError::Overflow);
}

/// The values on the output wires of a circuit of `INV`, `AND` and `XOR` gates.
fn outputs_of(c: &BristolCircuit, inputs: &[bool], n_outputs: usize) -> Vec<bool> {
    let mut wires = vec![false; c.header.nwires()];
    wires[..inputs.len()].copy_from_slice(inputs);
    for gate in &c.gates {
        let value = match gate.op.as_str() {
            "INV" => !wires[gate.ins[0]],
            "AND" => wires[gate.ins[0]] && wires[gate.ins[1]],
            "XOR" => wires[gate.ins[0]] != wires[gate.ins[1]],
            other => panic!("unknown operator {other}"),
        };
        wires[gate.outs[0]] = value;
    }
    wires[c.header.nwires() - n_outputs..].to_vec()
}

#[test]
fn a_recycled_circuit_computes_what_the_circuit_computed() {
    // a full adder: sum and carry of three bits
    let text = "5 10\n1 3\n1 2\n\
        2 1 0 1 3 XOR\n\
        2 1 0 1 4 AND\n\
        2 1 3 2 5 AND\n\
        2 1 3 2 8 XOR\n\
        2 1 4 5 9 XOR\n";
    let before = circuit(text);
    let after = recycle(&before).unwrap();
    assert!(after.header.nwires() < before.header.nwires());
    for bits in 0..8u8 {
        let inputs = [bits & 1 != 0, bits & 2 != 0, bits & 4 != 0];
        let expected = outputs_of(&before, &inputs, 2);
        assert_eq!(outputs_of(&after, &inputs, 2), expected);
        let ones = inputs.iter().filter(|b| **b).count();
        assert_eq!(expected, vec![ones % 2 == 1, ones >= 2]);
    }
}
