//! Circuits in Extended-Bristol text form: a header of a few lines, then one
//! line per gate, `k l in_1 .. in_k out_1 .. out_l OP`.

use crate::text::{
    decimal, is_blank, join_words, line_ranges, lines, lines_text, parse_number, parse_usize,
    push_decimal, range_is_blank, str_chars, string_of, string_views, token_ranges, tokens,
    NumberError,
};
use vstd::prelude::*;

verus! {

/// Why a text is not a circuit, or why a circuit cannot be worked on.
#[derive(Debug, Clone, Copy, PartialEq, Eq, Structural)]
pub enum BristolError {
    /// The text has no line.
    EmptyFile,
    /// The first line has no token.
    MissingGateCount,
    /// The first line has one token only.
    MissingWireCount,
    /// A token that must be a number is none.
    BadNumber(NumberError),
    /// The first line announces more gates than there are lines with text.
    GateCountMismatch { expected: usize, got: usize },
    /// A gate line has no token.
    GateMissingK,
    /// A gate line has one token only.
    GateMissingL,
    /// A gate line ends before its `k` input wires.
    MissingInWire,
    /// A gate line ends before its `l` output wires.
    MissingOutWire,
    /// A gate line ends before its operator.
    MissingOp,
    /// The header has no second line.
    MissingInputHeader,
    /// The second header line has no token.
    BadInputHeader,
    /// The second header line does not hold as many lengths as it announces.
    InputCountsMismatch,
    /// The header has no third line.
    MissingOutputHeader,
    /// The third header line has no token.
    BadOutputHeader,
    /// The third header line does not hold as many lengths as it announces.
    OutputCountsMismatch,
    /// A count of wires does not fit in `usize`.
    Overflow,
    /// The header announces more output wires than wires.
    TooFewWires,
    /// A gate reads or writes a wire that nothing has defined.
    UndefinedWire(usize),
    /// A gate at this position has an operator, or a shape, that cannot be
    /// written as TypeScript.
    UnsupportedOp(usize),
}

/// One gate in Extended-Bristol order: `k l <ins..> <outs..> OP`.
#[derive(Debug, Clone)]
pub struct Gate {
    pub k: usize,
    pub l: usize,
    pub ins: Vec<usize>,
    pub outs: Vec<usize>,
    pub op: String,
}

/// What a [`Gate`] holds.
pub struct GateView {
    pub k: usize,
    pub l: usize,
    pub ins: Seq<usize>,
    pub outs: Seq<usize>,
    pub op: Seq<char>,
}

impl View for Gate {
    type V = GateView;

    open spec fn view(&self) -> GateView {
        GateView { k: self.k, l: self.l, ins: self.ins@, outs: self.outs@, op: self.op@ }
    }
}

/// The header lines of a circuit and the two counts of its first line.
#[derive(Debug, Clone)]
pub struct Header {
    /// The header lines as they were read, the first line included.
    raw: Vec<String>,
    ngates: usize,
    nwires: usize,
}

/// What a [`Header`] holds.
pub struct HeaderView {
    pub raw: Seq<Seq<char>>,
    pub ngates: usize,
    pub nwires: usize,
}

impl View for Header {
    type V = HeaderView;

    closed spec fn view(&self) -> HeaderView {
        HeaderView { raw: string_views(self.raw@), ngates: self.ngates, nwires: self.nwires }
    }
}

/// A circuit in Extended-Bristol form.
#[derive(Debug, Clone)]
pub struct BristolCircuit {
    pub header: Header,
    pub gates: Vec<Gate>,
}

/// What a [`BristolCircuit`] holds.
pub struct CircuitView {
    pub header: HeaderView,
    pub gates: Seq<GateView>,
}

/// The views of a list of gates.
pub open spec fn gate_views(gates: Seq<Gate>) -> Seq<GateView> {
    gates.map_values(|g: Gate| g@)
}

impl View for BristolCircuit {
    type V = CircuitView;

    open spec fn view(&self) -> CircuitView {
        CircuitView { header: self.header@, gates: gate_views(self.gates@) }
    }
}

impl Header {
    /// A header of the lines `raw` with the counts `ngates` and `nwires`.
    pub fn new(raw: Vec<String>, ngates: usize, nwires: usize) -> (h: Header)
        ensures
            h@ == (HeaderView { raw: string_views(raw@), ngates, nwires }),
    {
        Header { raw, ngates, nwires }
    }

    /// The number of gates that the header announces.
    pub fn ngates(&self) -> (n: usize)
        ensures
            n == self@.ngates,
    {
        self.ngates
    }

    /// The number of wires that the header announces.
    pub fn nwires(&self) -> (n: usize)
        ensures
            n == self@.nwires,
    {
        self.nwires
    }

    /// The header lines, the first line as it was read.
    pub fn raw_lines(&self) -> (lines: &Vec<String>)
        ensures
            string_views(lines@) == self@.raw,
    {
        &self.raw
    }
}

/// The sum of the numbers in `s`.
pub open spec fn sum(s: Seq<usize>) -> nat
    decreases s.len(),
{
    if s.len() == 0 {
        0
    } else {
        sum(s.drop_last()) + s.last() as nat
    }
}

/// The numbers that the tokens denote, or why the first token that is no
/// number is none.
pub open spec fn parse_all(toks: Seq<Seq<char>>) -> Result<Seq<usize>, NumberError>
    decreases toks.len(),
{
    if toks.len() == 0 {
        Ok(Seq::empty())
    } else {
        match parse_all(toks.drop_last()) {
            Err(e) => Err(e),
            Ok(front) => match parse_usize(toks.last()) {
                Err(e) => Err(e),
                Ok(n) => Ok(front.push(n)),
            },
        }
    }
}

/// The lengths on a header line of the form `p n_0 .. n_(p-1)`: the line must
/// hold exactly `p` numbers after `p`.
pub open spec fn counted_lengths(
    line: Seq<char>,
    bad: BristolError,
    mismatch: BristolError,
) -> Result<Seq<usize>, BristolError> {
    let parts = tokens(line);
    if parts.len() == 0 {
        Err(bad)
    } else {
        match parse_usize(parts[0]) {
            Err(e) => Err(BristolError::BadNumber(e)),
            Ok(p) => if parts.len() != p + 1 {
                Err(mismatch)
            } else {
                match parse_all(parts.skip(1)) {
                    Err(e) => Err(BristolError::BadNumber(e)),
                    Ok(lens) => Ok(lens),
                }
            },
        }
    }
}

/// The lengths of the inputs, from the second header line.
pub open spec fn spec_input_lengths(h: HeaderView) -> Result<Seq<usize>, BristolError> {
    if h.raw.len() < 2 {
        Err(BristolError::MissingInputHeader)
    } else {
        counted_lengths(
            h.raw[1],
            BristolError::BadInputHeader,
            BristolError::InputCountsMismatch,
        )
    }
}

/// The total of `lens`, where it fits in `usize`.
pub open spec fn checked_total(lens: Result<Seq<usize>, BristolError>) -> Result<
    usize,
    BristolError,
> {
    match lens {
        Err(e) => Err(e),
        Ok(lens) => if sum(lens) > usize::MAX {
            Err(BristolError::Overflow)
        } else {
            Ok(sum(lens) as usize)
        },
    }
}

/// The number of input wires: the total of the lengths on the second header
/// line.
pub open spec fn spec_input_len(h: HeaderView) -> Result<usize, BristolError> {
    checked_total(spec_input_lengths(h))
}

/// The number of output wires: the total of the lengths on the third header
/// line.
pub open spec fn spec_output_length(h: HeaderView) -> Result<usize, BristolError> {
    if h.raw.len() < 3 {
        Err(BristolError::MissingOutputHeader)
    } else {
        checked_total(
            counted_lengths(
                h.raw[2],
                BristolError::BadOutputHeader,
                BristolError::OutputCountsMismatch,
            ),
        )
    }
}

/// Reads a header line of the form `p n_0 .. n_(p-1)`.
fn read_counted_lengths(line: &String, bad: BristolError, mismatch: BristolError) -> (r: Result<
    Vec<usize>,
    BristolError,
>)
    ensures
        match r {
            Ok(v) => counted_lengths(line@, bad, mismatch) == Ok::<Seq<usize>, BristolError>(v@),
            Err(e) => counted_lengths(line@, bad, mismatch) == Err::<Seq<usize>, BristolError>(e),
        },
{
    let chars = str_chars(line.as_str());
    let parts = token_ranges(&chars, 0, chars.len());
    assert(chars@.subrange(0, chars@.len() as int) =~= line@);
    let ghost toks = tokens(line@);
    if parts.len() == 0 {
        return Err(bad);
    }
    let p = match parse_number(&chars, parts[0].0, parts[0].1) {
        Ok(p) => p,
        Err(e) => {
            return Err(BristolError::BadNumber(e));
        },
    };
    if parts.len() - 1 != p {
        return Err(mismatch);
    }
    let mut lens: Vec<usize> = Vec::new();
    let mut i: usize = 1;
    while i < parts.len()
        invariant
            1 <= i <= parts.len(),
            parts@.len() == toks.len(),
            toks == tokens(line@),
            toks.len() == p + 1,
            parse_usize(toks[0]) == Ok::<usize, NumberError>(p),
            forall|k: int|
                0 <= k < parts@.len() ==> (#[trigger] parts@[k]).0 < parts@[k].1 <= chars@.len()
                    && chars@.subrange(parts@[k].0 as int, parts@[k].1 as int) == toks[k],
            parse_all(toks.subrange(1, i as int)) == Ok::<Seq<usize>, NumberError>(lens@),
        decreases parts.len() - i,
    {
        let ghost upto = toks.subrange(1, i + 1);
        assert(upto.drop_last() =~= toks.subrange(1, i as int));
        assert(upto.last() == toks[i as int]);
        match parse_number(&chars, parts[i].0, parts[i].1) {
            Ok(n) => {
                lens.push(n);
            },
            Err(e) => {
                proof {
                    assert(toks.skip(1).take(i as int) =~= upto);
                    assert(parse_all(upto) == Err::<Seq<usize>, NumberError>(e));
                    lemma_parse_all_prefix_error(toks.skip(1), i as int, e);
                }
                return Err(BristolError::BadNumber(e));
            },
        }
        i += 1;
    }
    assert(toks.subrange(1, i as int) =~= toks.skip(1));
    Ok(lens)
}

/// Where a front part of the tokens fails, the whole fails in the same way.
proof fn lemma_parse_all_prefix_error(toks: Seq<Seq<char>>, n: int, e: NumberError)
    requires
        0 <= n <= toks.len(),
        parse_all(toks.take(n)) == Err::<Seq<usize>, NumberError>(e),
    ensures
        parse_all(toks) == Err::<Seq<usize>, NumberError>(e),
    decreases toks.len() - n,
{
    if n < toks.len() {
        assert(toks.take(n + 1).drop_last() =~= toks.take(n));
        lemma_parse_all_prefix_error(toks, n + 1, e);
    } else {
        assert(toks.take(n) =~= toks);
    }
}

/// Adds up `lens`, where the total fits in `usize`.
fn total(lens: &Vec<usize>) -> (r: Result<usize, BristolError>)
    ensures
        r == checked_total(Ok(lens@)),
{
    let mut acc: usize = 0;
    let mut i: usize = 0;
    while i < lens.len()
        invariant
            i <= lens.len(),
            acc == sum(lens@.take(i as int)),
        decreases lens.len() - i,
    {
        assert(lens@.take(i + 1).drop_last() =~= lens@.take(i as int));
        if lens[i] > usize::MAX - acc {
            proof {
                lemma_sum_monotone(lens@, i + 1);
            }
            return Err(BristolError::Overflow);
        }
        acc = acc + lens[i];
        i += 1;
    }
    assert(lens@.take(i as int) =~= lens@);
    Ok(acc)
}

/// The total of a front part is at most the total of the whole.
pub proof fn lemma_sum_monotone(s: Seq<usize>, n: int)
    requires
        0 <= n <= s.len(),
    ensures
        sum(s.take(n)) <= sum(s),
    decreases s.len() - n,
{
    if n < s.len() {
        assert(s.take(n + 1).drop_last() =~= s.take(n));
        lemma_sum_monotone(s, n + 1);
    } else {
        assert(s.take(n) =~= s);
    }
}

/// The lengths of the inputs, one for each party, from the second header
/// line `p n_0 n_1 ..`.
pub fn input_lengths(hdr: &Header) -> (r: Result<Vec<usize>, BristolError>)
    ensures
        match r {
            Ok(v) => spec_input_lengths(hdr@) == Ok::<Seq<usize>, BristolError>(v@),
            Err(e) => spec_input_lengths(hdr@) == Err::<Seq<usize>, BristolError>(e),
        },
{
    if hdr.raw.len() < 2 {
        return Err(BristolError::MissingInputHeader);
    }
    read_counted_lengths(
        &hdr.raw[1],
        BristolError::BadInputHeader,
        BristolError::InputCountsMismatch,
    )
}

/// The number of input wires: they are the wires `0 .. input_len`.
pub fn input_len(hdr: &Header) -> (r: Result<usize, BristolError>)
    ensures
        r == spec_input_len(hdr@),
{
    match input_lengths(hdr) {
        Ok(lens) => total(&lens),
        Err(e) => Err(e),
    }
}

/// The number of output wires, from the third header line `q m_0 m_1 ..`.
pub fn output_length(hdr: &Header) -> (r: Result<usize, BristolError>)
    ensures
        r == spec_output_length(hdr@),
{
    if hdr.raw.len() < 3 {
        return Err(BristolError::MissingOutputHeader);
    }
    match read_counted_lengths(
        &hdr.raw[2],
        BristolError::BadOutputHeader,
        BristolError::OutputCountsMismatch,
    ) {
        Ok(lens) => total(&lens),
        Err(e) => Err(e),
    }
}


/// The two counts on the first line of a circuit: gates, then wires.
pub open spec fn first_line_counts(line: Seq<char>) -> Result<(usize, usize), BristolError> {
    let t = tokens(line);
    if t.len() == 0 {
        Err(BristolError::MissingGateCount)
    } else {
        match parse_usize(t[0]) {
            Err(e) => Err(BristolError::BadNumber(e)),
            Ok(ngates) => if t.len() < 2 {
                Err(BristolError::MissingWireCount)
            } else {
                match parse_usize(t[1]) {
                    Err(e) => Err(BristolError::BadNumber(e)),
                    Ok(nwires) => Ok((ngates, nwires)),
                }
            },
        }
    }
}

/// Looks from the end of `ls` for the last `need` lines that are not blank.
/// Gives the position of the first of them and how many were found; fewer
/// than `need` were found if `ls` has fewer such lines.
pub open spec fn tail_scan(ls: Seq<Seq<char>>, need: nat) -> (int, nat)
    decreases ls.len(),
{
    if need == 0 {
        (ls.len() as int, 0)
    } else if ls.len() == 0 {
        (0, 0)
    } else if is_blank(ls.last()) {
        tail_scan(ls.drop_last(), need)
    } else {
        let (start, found) = tail_scan(ls.drop_last(), (need - 1) as nat);
        (start, found + 1)
    }
}

/// The lines of `ls` that are not blank, in order.
pub open spec fn nonblank(ls: Seq<Seq<char>>) -> Seq<Seq<char>>
    decreases ls.len(),
{
    if ls.len() == 0 {
        Seq::empty()
    } else if is_blank(ls.last()) {
        nonblank(ls.drop_last())
    } else {
        nonblank(ls.drop_last()).push(ls.last())
    }
}

/// The header lines and gate lines of a text. Gate lines are the last
/// lines that are not blank, as many as the first line announces. The header
/// is every line before the first of them, blank lines too; where the first
/// line of the text is itself one of them, all lines are taken for the header.
pub open spec fn spec_split_sections(text: Seq<char>) -> Result<
    (Seq<Seq<char>>, Seq<Seq<char>>),
    BristolError,
> {
    let ls = lines(text);
    if ls.len() == 0 {
        Err(BristolError::EmptyFile)
    } else {
        match first_line_counts(ls[0]) {
            Err(e) => Err(e),
            Ok((ngates, nwires)) => {
                let (start, found) = tail_scan(ls, ngates as nat);
                if found != ngates {
                    Err(BristolError::GateCountMismatch { expected: ngates, got: found as usize })
                } else {
                    let header = if start == 0 {
                        ls
                    } else {
                        ls.take(start)
                    };
                    Ok((header, nonblank(ls.skip(start))))
                }
            },
        }
    }
}

/// Reads `n` wires from the tokens `t`, the first at position `from`. A
/// token that is not there gives `missing`.
pub open spec fn read_wires(t: Seq<Seq<char>>, from: int, n: nat, missing: BristolError) -> Result<
    Seq<usize>,
    BristolError,
>
    decreases n,
{
    if n == 0 {
        Ok(Seq::empty())
    } else {
        match read_wires(t, from, (n - 1) as nat, missing) {
            Err(e) => Err(e),
            Ok(front) => if from + n - 1 >= t.len() {
                Err(missing)
            } else {
                match parse_usize(t[from + n - 1]) {
                    Err(e) => Err(BristolError::BadNumber(e)),
                    Ok(w) => Ok(front.push(w)),
                }
            },
        }
    }
}

/// A gate read from the line `k l in_1 .. in_k out_1 .. out_l OP`. What follows
/// the operator on the line is not read.
pub open spec fn spec_parse_gate(line: Seq<char>) -> Result<GateView, BristolError> {
    let t = tokens(line);
    if t.len() == 0 {
        Err(BristolError::GateMissingK)
    } else {
        match parse_usize(t[0]) {
            Err(e) => Err(BristolError::BadNumber(e)),
            Ok(k) => if t.len() < 2 {
                Err(BristolError::GateMissingL)
            } else {
                match parse_usize(t[1]) {
                    Err(e) => Err(BristolError::BadNumber(e)),
                    Ok(l) => match read_wires(t, 2, k as nat, BristolError::MissingInWire) {
                        Err(e) => Err(e),
                        Ok(ins) => match read_wires(
                            t,
                            2 + k,
                            l as nat,
                            BristolError::MissingOutWire,
                        ) {
                            Err(e) => Err(e),
                            Ok(outs) => if 2 + k + l >= t.len() {
                                Err(BristolError::MissingOp)
                            } else {
                                Ok(GateView { k, l, ins, outs, op: t[2 + k + l] })
                            },
                        },
                    },
                }
            },
        }
    }
}

/// All gates on the lines `ls`, blank lines left out.
pub open spec fn spec_parse_gates(ls: Seq<Seq<char>>) -> Result<Seq<GateView>, BristolError>
    decreases ls.len(),
{
    if ls.len() == 0 {
        Ok(Seq::empty())
    } else {
        match spec_parse_gates(ls.drop_last()) {
            Err(e) => Err(e),
            Ok(front) => if is_blank(ls.last()) {
                Ok(front)
            } else {
                match spec_parse_gate(ls.last()) {
                    Err(e) => Err(e),
                    Ok(g) => Ok(front.push(g)),
                }
            },
        }
    }
}

/// The circuit that a text holds.
pub open spec fn spec_parse(text: Seq<char>) -> Result<CircuitView, BristolError> {
    match spec_split_sections(text) {
        Err(e) => Err(e),
        Ok((header, gate_lines)) => match spec_parse_gates(gate_lines) {
            Err(e) => Err(e),
            Ok(gates) => match first_line_counts(header[0]) {
                Err(e) => Err(e),
                Ok((ngates, nwires)) => Ok(
                    CircuitView { header: HeaderView { raw: header, ngates, nwires }, gates },
                ),
            },
        },
    }
}

/// Reads the two counts of the first line, `s[from..to]`.
fn read_counts(s: &Vec<char>, from: usize, to: usize) -> (r: Result<(usize, usize), BristolError>)
    requires
        from <= to <= s.len(),
    ensures
        r == first_line_counts(s@.subrange(from as int, to as int)),
{
    let parts = token_ranges(s, from, to);
    if parts.len() == 0 {
        return Err(BristolError::MissingGateCount);
    }
    let ngates = match parse_number(s, parts[0].0, parts[0].1) {
        Ok(n) => n,
        Err(e) => {
            return Err(BristolError::BadNumber(e));
        },
    };
    if parts.len() < 2 {
        return Err(BristolError::MissingWireCount);
    }
    let nwires = match parse_number(s, parts[1].0, parts[1].1) {
        Ok(n) => n,
        Err(e) => {
            return Err(BristolError::BadNumber(e));
        },
    };
    Ok((ngates, nwires))
}

/// The lines `s[r[i].0..r[i].1]` for `i` in `from..to` as strings, the blank
/// ones left out if `skip_blank` is set.
fn collect_lines(
    s: &Vec<char>,
    ranges: &Vec<(usize, usize)>,
    from: usize,
    to: usize,
    skip_blank: bool,
    Ghost(ls): Ghost<Seq<Seq<char>>>,
) -> (out: Vec<String>)
    requires
        from <= to <= ranges.len(),
        ranges@.len() == ls.len(),
        forall|k: int|
            0 <= k < ranges@.len() ==> (#[trigger] ranges@[k]).0 <= ranges@[k].1 <= s@.len()
                && s@.subrange(ranges@[k].0 as int, ranges@[k].1 as int) == ls[k],
    ensures
        string_views(out@) == if skip_blank {
            nonblank(ls.subrange(from as int, to as int))
        } else {
            ls.subrange(from as int, to as int)
        },
{
    let mut out: Vec<String> = Vec::new();
    let mut i: usize = from;
    assert(ls.subrange(from as int, from as int) =~= Seq::<Seq<char>>::empty());
    assert(string_views(out@) =~= Seq::<Seq<char>>::empty());
    while i < to
        invariant
            from <= i <= to <= ranges.len(),
            ranges@.len() == ls.len(),
            forall|k: int|
                0 <= k < ranges@.len() ==> (#[trigger] ranges@[k]).0 <= ranges@[k].1 <= s@.len()
                    && s@.subrange(ranges@[k].0 as int, ranges@[k].1 as int) == ls[k],
            string_views(out@) == if skip_blank {
                nonblank(ls.subrange(from as int, i as int))
            } else {
                ls.subrange(from as int, i as int)
            },
        decreases to - i,
    {
        let (a, b) = ranges[i];
        let ghost upto = ls.subrange(from as int, i + 1);
        assert(upto.drop_last() =~= ls.subrange(from as int, i as int));
        assert(upto.last() == ls[i as int]);
        if !(skip_blank && range_is_blank(s, a, b)) {
            let ghost prev = string_views(out@);
            let line = string_of(s, a, b);
            out.push(line);
            assert(string_views(out@) =~= prev.push(ls[i as int]));
            assert(upto =~= ls.subrange(from as int, i as int).push(ls[i as int]));
        }
        i += 1;
    }
    out
}

/// Splits a text into its header lines and its gate lines.
pub fn split_sections(raw: &str) -> (r: Result<(Vec<String>, Vec<String>), BristolError>)
    ensures
        match r {
            Ok((header, gate_lines)) => spec_split_sections(raw@) == Ok::<
                (Seq<Seq<char>>, Seq<Seq<char>>),
                BristolError,
            >((string_views(header@), string_views(gate_lines@))),
            Err(e) => spec_split_sections(raw@) == Err::<
                (Seq<Seq<char>>, Seq<Seq<char>>),
                BristolError,
            >(e),
        },
{
    let chars = str_chars(raw);
    let ranges = line_ranges(&chars);
    let ghost ls = lines(raw@);
    let n = ranges.len();
    if n == 0 {
        return Err(BristolError::EmptyFile);
    }
    let (ngates, nwires) = match read_counts(&chars, ranges[0].0, ranges[0].1) {
        Ok(counts) => counts,
        Err(e) => {
            return Err(e);
        },
    };
    let mut i: usize = n;
    let mut found: usize = 0;
    assert(ls.take(n as int) =~= ls);
    while i > 0 && found < ngates
        invariant
            i <= n == ranges.len(),
            found <= ngates,
            ranges@.len() == ls.len(),
            forall|k: int|
                0 <= k < ranges@.len() ==> (#[trigger] ranges@[k]).0 <= ranges@[k].1 <= chars@.len()
                    && chars@.subrange(ranges@[k].0 as int, ranges@[k].1 as int) == ls[k],
            tail_scan(ls, ngates as nat) == ({
                let (start, more) = tail_scan(ls.take(i as int), (ngates - found) as nat);
                (start, (more + found) as nat)
            }),
        decreases i,
    {
        assert(ls.take(i as int).drop_last() =~= ls.take(i - 1));
        assert(ls.take(i as int).last() == ls[i - 1]);
        i -= 1;
        if !range_is_blank(&chars, ranges[i].0, ranges[i].1) {
            found += 1;
        }
    }
    if found < ngates {
        return Err(BristolError::GateCountMismatch { expected: ngates, got: found });
    }
    let start = i;
    assert(tail_scan(ls, ngates as nat) == (start as int, ngates as nat));
    let header_len = if start == 0 {
        n
    } else {
        start
    };
    let header = collect_lines(&chars, &ranges, 0, header_len, false, Ghost(ls));
    let gate_lines = collect_lines(&chars, &ranges, start, n, true, Ghost(ls));
    proof {
        assert(ls.subrange(0, header_len as int) =~= ls.take(header_len as int));
        assert(ls.subrange(start as int, n as int) =~= ls.skip(start as int));
    }
    Ok((header, gate_lines))
}

/// Reads `n` wires from the tokens `parts` of `s`, the first at `from`.
fn read_wire_list(
    s: &Vec<char>,
    parts: &Vec<(usize, usize)>,
    from: usize,
    n: usize,
    missing: BristolError,
    Ghost(t): Ghost<Seq<Seq<char>>>,
) -> (r: Result<Vec<usize>, BristolError>)
    requires
        parts@.len() == t.len(),
        forall|k: int|
            0 <= k < parts@.len() ==> (#[trigger] parts@[k]).0 <= parts@[k].1 <= s@.len()
                && s@.subrange(parts@[k].0 as int, parts@[k].1 as int) == t[k],
    ensures
        match r {
            Ok(v) => read_wires(t, from as int, n as nat, missing) == Ok::<
                Seq<usize>,
                BristolError,
            >(v@),
            Err(e) => read_wires(t, from as int, n as nat, missing) == Err::<
                Seq<usize>,
                BristolError,
            >(e),
        },
{
    let mut out: Vec<usize> = Vec::new();
    let mut i: usize = 0;
    while i < n
        invariant
            i <= n,
            parts@.len() == t.len(),
            forall|k: int|
                0 <= k < parts@.len() ==> (#[trigger] parts@[k]).0 <= parts@[k].1 <= s@.len()
                    && s@.subrange(parts@[k].0 as int, parts@[k].1 as int) == t[k],
            read_wires(t, from as int, i as nat, missing) == Ok::<Seq<usize>, BristolError>(out@),
        decreases n - i,
    {
        if parts.len() <= from || i >= parts.len() - from {
            proof {
                lemma_read_wires_error(t, from as int, (i + 1) as nat, n as nat, missing, missing);
            }
            return Err(missing);
        }
        let (a, b) = parts[from + i];
        match parse_number(s, a, b) {
            Ok(w) => {
                out.push(w);
            },
            Err(e) => {
                proof {
                    lemma_read_wires_error(
                        t,
                        from as int,
                        (i + 1) as nat,
                        n as nat,
                        missing,
                        BristolError::BadNumber(e),
                    );
                }
                return Err(BristolError::BadNumber(e));
            },
        }
        i += 1;
    }
    Ok(out)
}

/// Once reading wires fails, it fails in the same way for any larger count.
proof fn lemma_read_wires_error(
    t: Seq<Seq<char>>,
    from: int,
    n: nat,
    m: nat,
    missing: BristolError,
    e: BristolError,
)
    requires
        n <= m,
        read_wires(t, from, n, missing) == Err::<Seq<usize>, BristolError>(e),
    ensures
        read_wires(t, from, m, missing) == Err::<Seq<usize>, BristolError>(e),
    decreases m - n,
{
    if n < m {
        lemma_read_wires_error(t, from, n + 1, m, missing, e);
    }
}

/// Reads one gate line.
fn parse_gate(line: &String) -> (r: Result<Gate, BristolError>)
    ensures
        match r {
            Ok(g) => spec_parse_gate(line@) == Ok::<GateView, BristolError>(g@),
            Err(e) => spec_parse_gate(line@) == Err::<GateView, BristolError>(e),
        },
{
    let chars = str_chars(line.as_str());
    let parts = token_ranges(&chars, 0, chars.len());
    assert(chars@.subrange(0, chars@.len() as int) =~= line@);
    let ghost t = tokens(line@);
    if parts.len() == 0 {
        return Err(BristolError::GateMissingK);
    }
    let k = match parse_number(&chars, parts[0].0, parts[0].1) {
        Ok(n) => n,
        Err(e) => {
            return Err(BristolError::BadNumber(e));
        },
    };
    if parts.len() < 2 {
        return Err(BristolError::GateMissingL);
    }
    let l = match parse_number(&chars, parts[1].0, parts[1].1) {
        Ok(n) => n,
        Err(e) => {
            return Err(BristolError::BadNumber(e));
        },
    };
    let ins = match read_wire_list(&chars, &parts, 2, k, BristolError::MissingInWire, Ghost(t)) {
        Ok(ws) => ws,
        Err(e) => {
            return Err(e);
        },
    };
    proof {
        lemma_read_wires_fit(t, 2, k as nat, BristolError::MissingInWire);
    }
    let outs = match read_wire_list(
        &chars,
        &parts,
        2 + k,
        l,
        BristolError::MissingOutWire,
        Ghost(t),
    ) {
        Ok(ws) => ws,
        Err(e) => {
            return Err(e);
        },
    };
    proof {
        lemma_read_wires_fit(t, 2 + k, l as nat, BristolError::MissingOutWire);
    }
    if 2 + k + l >= parts.len() {
        return Err(BristolError::MissingOp);
    }
    let (a, b) = parts[2 + k + l];
    let op = string_of(&chars, a, b);
    Ok(Gate { k, l, ins, outs, op })
}

/// Where `n` wires were read from position `from` on, the tokens reach at
/// least to position `from + n`.
pub proof fn lemma_read_wires_fit(t: Seq<Seq<char>>, from: int, n: nat, missing: BristolError)
    requires
        read_wires(t, from, n, missing) is Ok,
        0 <= from,
    ensures
        n > 0 ==> from + n <= t.len(),
        read_wires(t, from, n, missing)->Ok_0.len() == n,
    decreases n,
{
    if n > 0 {
        lemma_read_wires_fit(t, from, (n - 1) as nat, missing);
    }
}

proof fn lemma_parse_gates_prefix_error(ls: Seq<Seq<char>>, n: int, e: BristolError)
    requires
        0 <= n <= ls.len(),
        spec_parse_gates(ls.take(n)) == Err::<Seq<GateView>, BristolError>(e),
    ensures
        spec_parse_gates(ls) == Err::<Seq<GateView>, BristolError>(e),
    decreases ls.len() - n,
{
    if n < ls.len() {
        assert(ls.take(n + 1).drop_last() =~= ls.take(n));
        lemma_parse_gates_prefix_error(ls, n + 1, e);
    } else {
        assert(ls.take(n) =~= ls);
    }
}

/// Reads all gates on the lines given, blank lines left out.
pub fn parse_gates(lines: &Vec<String>) -> (r: Result<Vec<Gate>, BristolError>)
    ensures
        match r {
            Ok(gates) => spec_parse_gates(string_views(lines@)) == Ok::<
                Seq<GateView>,
                BristolError,
            >(gate_views(gates@)),
            Err(e) => spec_parse_gates(string_views(lines@)) == Err::<Seq<GateView>, BristolError>(
                e,
            ),
        },
{
    let ghost ls = string_views(lines@);
    let mut gates: Vec<Gate> = Vec::new();
    let mut i: usize = 0;
    assert(ls.take(0) =~= Seq::<Seq<char>>::empty());
    assert(gate_views(gates@) =~= Seq::<GateView>::empty());
    while i < lines.len()
        invariant
            i <= lines.len(),
            ls == string_views(lines@),
            spec_parse_gates(ls.take(i as int)) == Ok::<Seq<GateView>, BristolError>(
                gate_views(gates@),
            ),
        decreases lines.len() - i,
    {
        let line = &lines[i];
        assert(ls.take(i + 1).drop_last() =~= ls.take(i as int));
        assert(ls.take(i + 1).last() == line@);
        let chars = str_chars(line.as_str());
        assert(chars@.subrange(0, chars@.len() as int) =~= line@);
        if !range_is_blank(&chars, 0, chars.len()) {
            match parse_gate(line) {
                Ok(g) => {
                    let ghost prev = gate_views(gates@);
                    gates.push(g);
                    assert(gate_views(gates@) =~= prev.push(g@));
                },
                Err(e) => {
                    proof {
                        lemma_parse_gates_prefix_error(ls, i + 1, e);
                    }
                    return Err(e);
                },
            }
        }
        i += 1;
    }
    assert(ls.take(i as int) =~= ls);
    Ok(gates)
}

pub proof fn lemma_tail_scan(ls: Seq<Seq<char>>, need: nat)
    ensures
        0 <= tail_scan(ls, need).0 <= ls.len(),
        tail_scan(ls, need).1 <= need,
    decreases ls.len(),
{
    if need > 0 && ls.len() > 0 {
        if is_blank(ls.last()) {
            lemma_tail_scan(ls.drop_last(), need);
        } else {
            lemma_tail_scan(ls.drop_last(), (need - 1) as nat);
        }
    }
}

/// The header of a text that splits has a first line: the first line of the
/// text.
pub proof fn lemma_split_header(text: Seq<char>)
    requires
        spec_split_sections(text) is Ok,
    ensures
        spec_split_sections(text)->Ok_0.0.len() >= 1,
        spec_split_sections(text)->Ok_0.0[0] == lines(text)[0],
        first_line_counts(lines(text)[0]) is Ok,
{
    let ls = lines(text);
    let (ngates, nwires) = first_line_counts(ls[0])->Ok_0;
    let (start, found) = tail_scan(ls, ngates as nat);
    lemma_tail_scan(ls, ngates as nat);
}

impl BristolCircuit {
    /// Reads a circuit from its text.
    pub fn parse(raw: &str) -> (r: Result<BristolCircuit, BristolError>)
        ensures
            match r {
                Ok(c) => spec_parse(raw@) == Ok::<CircuitView, BristolError>(c@),
                Err(e) => spec_parse(raw@) == Err::<CircuitView, BristolError>(e),
            },
    {
        let (header_lines, gate_lines) = match split_sections(raw) {
            Ok(parts) => parts,
            Err(e) => {
                return Err(e);
            },
        };
        let gates = match parse_gates(&gate_lines) {
            Ok(gates) => gates,
            Err(e) => {
                return Err(e);
            },
        };
        proof {
            lemma_split_header(raw@);
        }
        if header_lines.len() == 0 {
            return Err(BristolError::EmptyFile);
        }
        assert(string_views(header_lines@)[0] == header_lines@[0]@);
        let first = str_chars(header_lines[0].as_str());
        assert(first@.subrange(0, first@.len() as int) =~= header_lines@[0]@);
        let (ngates, nwires) = match read_counts(&first, 0, first.len()) {
            Ok(counts) => counts,
            Err(e) => {
                return Err(e);
            },
        };
        Ok(BristolCircuit { header: Header::new(header_lines, ngates, nwires), gates })
    }
}


/// The first line of a circuit with `ngates` gates and `nwires` wires.
pub open spec fn count_line(ngates: usize, nwires: usize) -> Seq<char> {
    join_words(seq![decimal(ngates as nat), decimal(nwires as nat)])
}

/// The decimal notations of the wires `ws`.
pub open spec fn wire_words(ws: Seq<usize>) -> Seq<Seq<char>> {
    ws.map_values(|w: usize| decimal(w as nat))
}

/// The words on the line of gate `g`.
pub open spec fn gate_words(g: GateView) -> Seq<Seq<char>> {
    seq![decimal(g.k as nat), decimal(g.l as nat)] + wire_words(g.ins) + wire_words(g.outs)
        + seq![g.op]
}

/// The line of gate `g`, without its line feed.
pub open spec fn gate_line(g: GateView) -> Seq<char> {
    join_words(gate_words(g))
}

/// The lines of the gates `gates`.
pub open spec fn gate_lines(gates: Seq<GateView>) -> Seq<Seq<char>> {
    gates.map_values(|g: GateView| gate_line(g))
}

/// The header lines after the first.
pub open spec fn later_lines(raw: Seq<Seq<char>>) -> Seq<Seq<char>> {
    if raw.len() == 0 {
        Seq::empty()
    } else {
        raw.skip(1)
    }
}

/// The lines of the text of `c`: a first line with the two counts of the
/// header, the header lines after the first as they are, and one line for
/// each gate.
pub open spec fn emitted_lines(c: CircuitView) -> Seq<Seq<char>> {
    seq![count_line(c.header.ngates, c.header.nwires)] + later_lines(c.header.raw) + gate_lines(
        c.gates,
    )
}

/// The text of the circuit `c`.
pub open spec fn spec_text(c: CircuitView) -> Seq<char> {
    lines_text(emitted_lines(c))
}

/// Appends the characters of `more` to `out`.
fn append_chars(out: &mut Vec<char>, more: &Vec<char>)
    ensures
        final(out)@ == old(out)@ + more@,
{
    let ghost before = out@;
    let mut i: usize = 0;
    while i < more.len()
        invariant
            i <= more.len(),
            out@ == before + more@.take(i as int),
        decreases more.len() - i,
    {
        out.push(more[i]);
        assert(more@.take(i + 1) =~= more@.take(i as int).push(more@[i as int]));
        assert(out@ =~= before + more@.take(i + 1));
        i += 1;
    }
    assert(more@.take(i as int) =~= more@);
}

/// Appends a space and the decimal notation of each wire of `ws` to `line`,
/// which holds the words `front` so far.
fn push_wires(line: &mut Vec<char>, ws: &Vec<usize>, Ghost(front): Ghost<Seq<Seq<char>>>)
    requires
        front.len() > 0,
        old(line)@ == join_words(front),
    ensures
        final(line)@ == join_words(front + wire_words(ws@)),
{
    let mut i: usize = 0;
    assert(front + wire_words(ws@.take(0)) =~= front);
    while i < ws.len()
        invariant
            i <= ws.len(),
            front.len() > 0,
            line@ == join_words(front + wire_words(ws@.take(i as int))),
        decreases ws.len() - i,
    {
        line.push(' ');
        push_decimal(line, ws[i]);
        proof {
            let a = front + wire_words(ws@.take(i as int));
            let b = front + wire_words(ws@.take(i + 1));
            assert(b =~= a.push(decimal(ws@[i as int] as nat)));
            assert(b.drop_last() =~= a);
            assert(line@ =~= join_words(b));
        }
        i += 1;
    }
    assert(ws@.take(i as int) =~= ws@);
}

/// The line of gate `g`, without its line feed.
fn gate_chars(g: &Gate) -> (line: Vec<char>)
    ensures
        line@ == gate_line(g@),
{
    let mut line: Vec<char> = Vec::new();
    push_decimal(&mut line, g.k);
    line.push(' ');
    push_decimal(&mut line, g.l);
    let ghost head = seq![decimal(g.k as nat), decimal(g.l as nat)];
    proof {
        reveal_with_fuel(join_words, 3);
        assert(line@ =~= join_words(head));
    }
    push_wires(&mut line, &g.ins, Ghost(head));
    push_wires(&mut line, &g.outs, Ghost(head + wire_words(g.ins@)));
    line.push(' ');
    let op = str_chars(g.op.as_str());
    append_chars(&mut line, &op);
    proof {
        let a = head + wire_words(g.ins@) + wire_words(g.outs@);
        let b = gate_words(g@);
        assert(b =~= a.push(g.op@));
        assert(b.drop_last() =~= a);
        assert(line@ =~= join_words(b));
    }
    line
}

impl BristolCircuit {
    /// The text of the circuit: the first line with the two counts of the
    /// header, the other header lines as they are, then one line for each
    /// gate.
    pub fn to_text(&self) -> (text: String)
        ensures
            text@ == spec_text(self@),
    {
        let mut out: Vec<char> = Vec::new();
        push_decimal(&mut out, self.header.ngates());
        out.push(' ');
        push_decimal(&mut out, self.header.nwires());
        out.push('\n');
        let ghost first = count_line(self@.header.ngates, self@.header.nwires);
        let ghost mut done: Seq<Seq<char>> = seq![first];
        proof {
            reveal_with_fuel(join_words, 3);
            reveal_with_fuel(lines_text, 2);
            assert(done.drop_last() =~= Seq::<Seq<char>>::empty());
            assert(out@ =~= lines_text(done));
        }
        let raw = self.header.raw_lines();
        let mut i: usize = 1;
        while i < raw.len()
            invariant
                1 <= i,
                i <= raw.len() || raw.len() == 0,
                string_views(raw@) == self@.header.raw,
                out@ == lines_text(done),
                done == seq![first] + if raw.len() == 0 {
                    Seq::<Seq<char>>::empty()
                } else {
                    self@.header.raw.subrange(1, i as int)
                },
            decreases raw.len() - i,
        {
            let line = str_chars(raw[i].as_str());
            append_chars(&mut out, &line);
            out.push('\n');
            proof {
                let l = self@.header.raw[i as int];
                assert(l == raw@[i as int]@);
                let next = done.push(l);
                assert(next.drop_last() =~= done);
                assert(out@ =~= lines_text(next));
                assert(next =~= seq![first] + self@.header.raw.subrange(1, i + 1));
                done = next;
            }
            i += 1;
        }
        proof {
            if raw.len() > 0 {
                assert(self@.header.raw.subrange(1, i as int) =~= self@.header.raw.skip(1));
            }
            assert(done =~= seq![first] + later_lines(self@.header.raw));
        }
        let ghost header_lines = done;
        let mut g: usize = 0;
        assert(gate_lines(self@.gates).take(0) =~= Seq::<Seq<char>>::empty());
        assert(done =~= header_lines + gate_lines(self@.gates).take(0));
        while g < self.gates.len()
            invariant
                g <= self.gates.len(),
                out@ == lines_text(done),
                done == header_lines + gate_lines(self@.gates).take(g as int),
            decreases self.gates.len() - g,
        {
            let line = gate_chars(&self.gates[g]);
            append_chars(&mut out, &line);
            out.push('\n');
            proof {
                let l = gate_line(self.gates@[g as int]@);
                assert(self@.gates[g as int] == self.gates@[g as int]@);
                assert(gate_lines(self@.gates)[g as int] == l);
                let next = done.push(l);
                assert(next.drop_last() =~= done);
                assert(out@ =~= lines_text(next));
                assert(next =~= header_lines + gate_lines(self@.gates).take(g + 1));
                done = next;
            }
            g += 1;
        }
        proof {
            assert(gate_lines(self@.gates).take(g as int) =~= gate_lines(self@.gates));
            assert(done =~= emitted_lines(self@));
            assert(out@.subrange(0, out@.len() as int) =~= out@);
        }
        string_of(&out, 0, out.len())
    }
}

} // verus!
