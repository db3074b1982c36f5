use summon::bristol::{
    input_len, input_lengths, output_length, parse_gates, split_sections, BristolCircuit,
    BristolError, Gate, Header,
};
use summon::name_map::{compare_names, NameMap, NameOrder};
use summon::text::{
    is_ws, line_ranges, parse_number, push_decimal, range_is_blank, str_chars, string_of,
    token_ranges, NumberError,
};
use summon::typescript::to_typescript;

const ADDER: &str = "2 5\n2 1 1\n1 1\n\n2 1 0 1 2 XOR\n2 1 0 1 3 AND\n1 1 3 4 INV\n";

fn parse(text: &str) -> Result<BristolCircuit, BristolError> {
    BristolCircuit::parse(text)
}

#[test]
fn reading_a_circuit() {
    let text = "3 5\n2 1 1\n1 1\n\n2 1 0 1 2 XOR\n2 1 0 1 3 AND\n1 1 3 4 INV\n";
    let circuit = parse(text).unwrap();
    assert_eq!(circuit.header.ngates(), 3);
    assert_eq!(circuit.header.nwires(), 5);
    assert_eq!(
        circuit.header.raw_lines(),
        &vec!["3 5".to_string(), "2 1 1".to_string(), "1 1".to_string(), "".to_string()]
    );
    assert_eq!(circuit.gates.len(), 3);
    assert_eq!(circuit.gates[0].k, 2);
    assert_eq!(circuit.gates[0].l, 1);
    assert_eq!(circuit.gates[0].ins, vec![0, 1]);
    assert_eq!(circuit.gates[0].outs, vec![2]);
    assert_eq!(circuit.gates[0].op, "XOR");
    assert_eq!(circuit.gates[2].ins, vec![3]);
    assert_eq!(circuit.gates[2].op, "INV");
    assert_eq!(input_lengths(&circuit.header).unwrap(), vec![1, 1]);
    assert_eq!(input_len(&circuit.header), Ok(2));
    assert_eq!(output_length(&circuit.header), Ok(1));
}

#[test]
fn writing_what_was_read_gives_the_same_text_again() {
    let text = "3 5\n2 1 1\n1 1\n\n2 1 0 1 2 XOR\n2 1 0 1 3 AND\n1 1 3 4 INV\n";
    let circuit = parse(text).unwrap();
    assert_eq!(circuit.header.raw_lines(), &vec!["3 5", "2 1 1", "1 1", ""]);
    let first = circuit.to_text();
    assert_eq!(first, text);
    let second = parse(&first).unwrap().to_text();
    assert_eq!(second, first);
}

#[test]
fn the_empty_line_after_the_header_is_kept() {
    let text = "1 3\n1 2\n1 1\n\n2 1 0 1 2 ADD\n";
    assert_eq!(text.len(), 27);
    let circuit = parse(text).unwrap();
    assert_eq!(circuit.header.raw_lines().len(), 4);
    assert_eq!(circuit.gates.len(), 1);
    assert_eq!(circuit.to_text(), text);

    // blank lines inside the header stay where they are
    let spread = "1 3\n\n1 2\n  \n1 1\n\n\n2 1 0 1 2 ADD\n";
    assert_eq!(parse(spread).unwrap().to_text(), spread);

    // a text without gates keeps the blank lines at its end
    let bare = "0 2\n1 1\n1 1\n\n";
    assert_eq!(parse(bare).unwrap().to_text(), bare);

    // blank lines between and after the gates are not kept
    let loose = "2 4\n1 2\n1 1\n\n2 1 0 1 2 AND\n\n1 1 2 3 INV\n\n";
    assert_eq!(
        parse(loose).unwrap().to_text(),
        "2 4\n1 2\n1 1\n\n2 1 0 1 2 AND\n1 1 2 3 INV\n"
    );
}

#[test]
fn odd_spacing_and_line_endings() {
    let text = "  +2\t 4 \r\n1 2\r\n1 1\r\n\r\n  1   1 0  2   INV  trailing words\n\n2 1 2 1 3 AND";
    let circuit = parse(text).unwrap();
    assert_eq!(circuit.header.ngates(), 2);
    assert_eq!(circuit.header.nwires(), 4);
    assert_eq!(circuit.header.raw_lines()[0], "  +2\t 4 ");
    assert_eq!(circuit.gates[0].op, "INV");
    assert_eq!(circuit.gates[1].ins, vec![2, 1]);
    assert_eq!(circuit.to_text(), "2 4\n1 2\n1 1\n\n1 1 0 2 INV\n2 1 2 1 3 AND\n");
    // other white space than that of ASCII separates words too
    let wide = "1\u{a0}3\n1 2\n1 1\n2\u{2003}1 0 1 2\u{3000}AND\n";
    assert_eq!(parse(wide).unwrap().gates[0].op, "AND");
}

#[test]
fn texts_that_are_no_circuits() {
    assert_eq!(parse("").unwrap_err(), BristolError::EmptyFile);
    assert_eq!(parse("\n1 1\n").unwrap_err(), BristolError::MissingGateCount);
    assert_eq!(parse("3\n").unwrap_err(), BristolError::MissingWireCount);
    assert_eq!(parse("x 3\n").unwrap_err(), BristolError::BadNumber(NumberError::InvalidDigit));
    assert_eq!(parse("1 -3\n").unwrap_err(), BristolError::BadNumber(NumberError::InvalidDigit));
    assert_eq!(parse("+ 3\n").unwrap_err(), BristolError::BadNumber(NumberError::InvalidDigit));
    assert_eq!(
        parse("1 99999999999999999999999999\n").unwrap_err(),
        BristolError::BadNumber(NumberError::Overflow)
    );
    assert_eq!(
        parse("3 5\n2 1 0 1 2 XOR\n").unwrap_err(),
        BristolError::GateCountMismatch { expected: 3, got: 2 }
    );
    assert_eq!(parse("1 5\nhead\n2\n").unwrap_err(), BristolError::GateMissingL);
    assert_eq!(parse("1 5\nhead\n2 1 0\n").unwrap_err(), BristolError::MissingInWire);
    assert_eq!(parse("1 5\nhead\n2 1 0 1\n").unwrap_err(), BristolError::MissingOutWire);
    assert_eq!(parse("1 5\nhead\n2 1 0 1 2\n").unwrap_err(), BristolError::MissingOp);
    assert_eq!(
        parse("1 5\nhead\n2 1 0 x 2 AND\n").unwrap_err(),
        BristolError::BadNumber(NumberError::InvalidDigit)
    );
    assert_eq!(
        parse("1 5\nhead\nk 1 0 1 2 AND\n").unwrap_err(),
        BristolError::BadNumber(NumberError::InvalidDigit)
    );
}

#[test]
fn sections_of_a_text() {
    let (header, gates) = split_sections("2 3\nin\nout\n\n\ng1\n\ng2\n\n").unwrap();
    assert_eq!(header, vec!["2 3", "in", "out", "", ""]);
    assert_eq!(gates, vec!["g1".to_string(), "g2".to_string()]);
    // without a line before the lines of the gates, all lines are the header
    let (header, gates) = split_sections("1 0 7 OP\n\n").unwrap();
    assert_eq!(header, vec!["1 0 7 OP".to_string(), "".to_string()]);
    assert_eq!(gates, vec!["1 0 7 OP".to_string()]);
    let (header, gates) = split_sections("0 3\nin\nout\n\n").unwrap();
    assert_eq!(header, vec!["0 3", "in", "out", ""]);
    assert!(gates.is_empty());
}

#[test]
fn gates_of_lines() {
    let lines = vec!["2 1 0 1 2 AND".to_string(), "   ".to_string(), "0 2 7 8 SPLIT".to_string()];
    let gates = parse_gates(&lines).unwrap();
    assert_eq!(gates.len(), 2);
    assert_eq!(gates[1].k, 0);
    assert_eq!(gates[1].l, 2);
    assert!(gates[1].ins.is_empty());
    assert_eq!(gates[1].outs, vec![7, 8]);
    assert_eq!(gates[1].op, "SPLIT");
    assert_eq!(
        parse_gates(&vec!["1 1 0 1 INV".to_string(), "1".to_string()]).unwrap_err(),
        BristolError::GateMissingL
    );
}

#[test]
fn header_lines_for_inputs_and_outputs() {
    let no_input_line = parse("0 1\n").unwrap();
    assert_eq!(input_lengths(&no_input_line.header).unwrap_err(), BristolError::MissingInputHeader);
    assert_eq!(input_len(&no_input_line.header), Err(BristolError::MissingInputHeader));
    let no_output_line = parse("0 1\n1 1\n").unwrap();
    assert_eq!(output_length(&no_output_line.header), Err(BristolError::MissingOutputHeader));
    let blank = parse("0 1\n \nx\n").unwrap();
    assert_eq!(input_lengths(&blank.header).unwrap_err(), BristolError::BadInputHeader);
    let blank = parse("0 1\n1 1\n \nx\n").unwrap();
    assert_eq!(output_length(&blank.header), Err(BristolError::BadOutputHeader));
    let short = parse("0 1\n2 1\n1 1 1\n").unwrap();
    assert_eq!(input_lengths(&short.header).unwrap_err(), BristolError::InputCountsMismatch);
    assert_eq!(output_length(&short.header), Err(BristolError::OutputCountsMismatch));
    let bad = parse("0 1\n1 x\n1 y\n").unwrap();
    assert_eq!(
        input_lengths(&bad.header).unwrap_err(),
        BristolError::BadNumber(NumberError::InvalidDigit)
    );
    assert_eq!(output_length(&bad.header), Err(BristolError::BadNumber(NumberError::InvalidDigit)));
    let huge = format!("0 1\n2 {} 1\n2 {} {}\n", usize::MAX, usize::MAX, usize::MAX);
    let huge = parse(&huge).unwrap();
    assert_eq!(input_lengths(&huge.header).unwrap(), vec![usize::MAX, 1]);
    assert_eq!(input_len(&huge.header), Err(BristolError::Overflow));
    assert_eq!(output_length(&huge.header), Err(BristolError::Overflow));
    let several = parse("0 9\n3 1 2 3\n2 4 5\n").unwrap();
    assert_eq!(input_len(&several.header), Ok(6));
    assert_eq!(output_length(&several.header), Ok(9));
}

#[test]
fn a_circuit_put_together_by_hand() {
    let header = Header::new(
        vec!["whatever".to_string(), "1 2".to_string(), "1 1".to_string()],
        7,
        9,
    );
    let circuit = BristolCircuit {
        header,
        gates: vec![Gate {
            k: 2,
            l: 1,
            ins: vec![0, 1],
            outs: vec![2],
            op: "AND".to_string(),
        }],
    };
    // the first line is written from the counts of the header
    assert_eq!(circuit.to_text(), "7 9\n1 2\n1 1\n2 1 0 1 2 AND\n");
}

#[test]
fn typescript_of_a_small_circuit() {
    let circuit = parse(ADDER_WITH_THREE_GATES).unwrap();
    let ts = to_typescript(&circuit, "adder").unwrap();
    let expected = concat_lines(&[
        "const gates = [",
        "  [2, 'XOR', 0, 1],",
        "  [3, 'AND', 0, 1],",
        "  [4, 'INV', 3],",
        "];",
        "",
        "export default function adder(input0: boolean[], input1: boolean[]): boolean[] {",
        "  if (input0.length !== 1) throw new Error(\"input0 length\");",
        "  if (input1.length !== 1) throw new Error(\"input1 length\");",
        "  let w: boolean[] = [];",
        "  {",
        "    let off = 0;",
        "    for (let j = 0; j < 1; ++j) w[off + j] = input0[j];",
        "    off += 1;",
        "    for (let j = 0; j < 1; ++j) w[off + j] = input1[j];",
        "    off += 1;",
        "  }",
        "  for (const [dst, op, in0, in1] of gates as any) {",
        "    switch (op) {",
        "      case 'INV': w[dst] = !w[in0]; break;",
        "      case 'XOR': w[dst] = w[in0] !== w[in1]; break;",
        "      case 'AND': w[dst] = w[in0] && w[in1]; break;",
        "    }",
        "  }",
        "  return w.slice(4, 4 + 1);",
        "}",
    ]);
    assert_eq!(ts, expected);
}

const ADDER_WITH_THREE_GATES: &str =
    "3 5\n2 1 1\n1 1\n\n2 1 0 1 2 XOR\n2 1 0 1 3 AND\n1 1 3 4 INV\n";

fn concat_lines(lines: &[&str]) -> String {
    let mut s = String::new();
    for line in lines {
        s.push_str(line);
        s.push('\n');
    }
    s
}

#[test]
fn typescript_needs_gates_that_it_knows() {
    assert!(ADDER.len() > 0);
    let circuit = parse("2 4\n1 2\n1 1\n2 1 0 1 2 AND\n2 1 0 2 3 ADD\n").unwrap();
    assert_eq!(to_typescript(&circuit, "f").unwrap_err(), BristolError::UnsupportedOp(1));
    let wide = parse("1 4\n1 2\n1 1\n2 2 0 1 2 3 AND\n").unwrap();
    assert_eq!(to_typescript(&wide, "f").unwrap_err(), BristolError::UnsupportedOp(0));
    let no_input = parse("1 4\n1 2\n1 1\n0 1 3 INV\n").unwrap();
    assert_eq!(to_typescript(&no_input, "f").unwrap_err(), BristolError::UnsupportedOp(0));
    let headless = parse("0 4\n").unwrap();
    assert_eq!(to_typescript(&headless, "f").unwrap_err(), BristolError::MissingInputHeader);
    let few = parse("0 1\n1 1\n1 5\n").unwrap();
    assert_eq!(to_typescript(&few, "f").unwrap_err(), BristolError::TooFewWires);
    let empty = parse("0 3\n0\n1 1\n").unwrap();
    assert_eq!(
        to_typescript(&empty, "none").unwrap(),
        concat_lines(&[
            "const gates = [",
            "];",
            "",
            "export default function none(): boolean[] {",
            "  let w: boolean[] = [];",
            "  {",
            "    let off = 0;",
            "  }",
            "  for (const [dst, op, in0, in1] of gates as any) {",
            "    switch (op) {",
            "      case 'INV': w[dst] = !w[in0]; break;",
            "      case 'XOR': w[dst] = w[in0] !== w[in1]; break;",
            "      case 'AND': w[dst] = w[in0] && w[in1]; break;",
            "    }",
            "  }",
            "  return w.slice(2, 2 + 1);",
            "}",
        ])
    );
}

#[test]
fn numbers_in_text() {
    let chars = str_chars("12 +7 x 018 ");
    assert_eq!(parse_number(&chars, 0, 2), Ok(12));
    assert_eq!(parse_number(&chars, 3, 5), Ok(7));
    assert_eq!(parse_number(&chars, 6, 7), Err(NumberError::InvalidDigit));
    assert_eq!(parse_number(&chars, 8, 11), Ok(18));
    assert_eq!(parse_number(&chars, 2, 2), Err(NumberError::Empty));
    assert_eq!(parse_number(&chars, 3, 4), Err(NumberError::InvalidDigit));
    let max = str_chars(&usize::MAX.to_string());
    assert_eq!(parse_number(&max, 0, max.len()), Ok(usize::MAX));
    let over = str_chars(&format!("{}0", usize::MAX));
    assert_eq!(parse_number(&over, 0, over.len()), Err(NumberError::Overflow));
    // the first thing that is wrong counts
    let both = str_chars("99999999999999999999999999x");
    assert_eq!(parse_number(&both, 0, both.len()), Err(NumberError::Overflow));
    let both = str_chars("9x99999999999999999999999999");
    assert_eq!(parse_number(&both, 0, both.len()), Err(NumberError::InvalidDigit));
    let mut out = vec!['n', '='];
    push_decimal(&mut out, 0);
    push_decimal(&mut out, 1203);
    assert_eq!(out.iter().collect::<String>(), "n=01203");
    let mut out = Vec::new();
    push_decimal(&mut out, usize::MAX);
    assert_eq!(out.iter().collect::<String>(), usize::MAX.to_string());
}

#[test]
fn lines_and_words_of_a_text() {
    let chars = str_chars("one two\r\n\n three\r");
    assert_eq!(line_ranges(&chars), vec![(0, 7), (9, 9), (10, 17)]);
    assert_eq!(string_of(&chars, 10, 17), " three\r");
    assert_eq!(token_ranges(&chars, 0, 7), vec![(0, 3), (4, 7)]);
    assert_eq!(token_ranges(&chars, 10, 17), vec![(11, 16)]);
    assert_eq!(token_ranges(&chars, 9, 9), vec![]);
    assert!(range_is_blank(&chars, 7, 10));
    assert!(!range_is_blank(&chars, 7, 12));
    assert_eq!(line_ranges(&str_chars("")), vec![]);
    assert_eq!(line_ranges(&str_chars("\n")), vec![(0, 0)]);
    assert_eq!(line_ranges(&str_chars("a")), vec![(0, 1)]);
    assert!(is_ws(' '));
    assert!(is_ws('\t'));
    assert!(is_ws('\u{2028}'));
    assert!(!is_ws('x'));
    assert!(!is_ws('\u{200b}'));
}

#[test]
fn names_in_order() {
    assert_eq!(compare_names("a", "b"), NameOrder::Before);
    assert_eq!(compare_names("b", "a"), NameOrder::After);
    assert_eq!(compare_names("ab", "ab"), NameOrder::Same);
    assert_eq!(compare_names("a", "ab"), NameOrder::Before);
    assert_eq!(compare_names("", "a"), NameOrder::Before);
    assert_eq!(compare_names("Z", "a"), NameOrder::Before);
    assert_eq!(compare_names("é", "z"), NameOrder::After);
    let mut map: NameMap<usize> = NameMap::new();
    map.insert("pear".to_string(), 1);
    map.insert("apple".to_string(), 2);
    map.insert("plum".to_string(), 3);
    map.insert("pear".to_string(), 4);
    assert_eq!(map.len(), 3);
    assert_eq!(map.get("pear"), Some(&4));
    assert_eq!(map.get("fig"), None);
    assert_eq!(map.entry(0), &("apple".to_string(), 2));
    assert_eq!(map.entry(1), &("pear".to_string(), 4));
    assert_eq!(map.entry(2), &("plum".to_string(), 3));
}
