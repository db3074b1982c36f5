//! Characters, decimal numbers, lines and white-space separated tokens.
//!
//! Text is modelled as `Seq<char>`. The executable functions work on
//! `Vec<char>` so that every position can be reached in constant time.

use vstd::prelude::*;
use vstd::string::StringExecFns;

verus! {

/// Why a token is not a decimal number that fits in `usize`.
#[derive(Debug, Clone, Copy, PartialEq, Eq, Structural)]
pub enum NumberError {
    /// The token has no characters.
    Empty,
    /// A character is not a decimal digit, or only a sign is present.
    InvalidDigit,
    /// The digits denote a number above `usize::MAX`.
    Overflow,
}

/// Whether `c` is one of the Unicode white-space code points.
pub open spec fn is_whitespace(c: char) -> bool {
    let u = c as u32;
    ||| (0x9 <= u && u <= 0xd)
    ||| u == 0x20
    ||| u == 0x85
    ||| u == 0xa0
    ||| u == 0x1680
    ||| (0x2000 <= u && u <= 0x200a)
    ||| u == 0x2028
    ||| u == 0x2029
    ||| u == 0x202f
    ||| u == 0x205f
    ||| u == 0x3000
}

/// Whether every character of `s` is white space (true of the empty text).
pub open spec fn is_blank(s: Seq<char>) -> bool {
    forall|i: int| 0 <= i < s.len() ==> is_whitespace(#[trigger] s[i])
}

/// Whether no character of `s` is white space.
pub open spec fn has_no_whitespace(s: Seq<char>) -> bool {
    forall|i: int| 0 <= i < s.len() ==> !is_whitespace(#[trigger] s[i])
}

pub open spec fn is_digit(c: char) -> bool {
    0x30 <= c as u32 && c as u32 <= 0x39
}

pub open spec fn digit_value(c: char) -> nat {
    (c as u32 - 0x30) as nat
}

/// The character that writes the digit `d`, for `d < 10`.
pub open spec fn digit_char(d: nat) -> char {
    ((d + 0x30) as u8) as char
}

/// The decimal notation of `n`, without sign or leading zeros.
pub open spec fn decimal(n: nat) -> Seq<char>
    decreases n,
{
    if n < 10 {
        seq![digit_char(n)]
    } else {
        decimal(n / 10).push(digit_char(n % 10))
    }
}

/// Reads the digits of `d` from left to right, starting from the value `acc`.
/// The first character that is no digit, or the first digit that takes the
/// value above `usize::MAX`, ends the reading with an error.
pub open spec fn scan_digits(d: Seq<char>, acc: nat) -> Result<usize, NumberError>
    decreases d.len(),
{
    if d.len() == 0 {
        Ok(acc as usize)
    } else if !is_digit(d[0]) {
        Err(NumberError::InvalidDigit)
    } else if acc * 10 + digit_value(d[0]) > usize::MAX {
        Err(NumberError::Overflow)
    } else {
        scan_digits(d.drop_first(), acc * 10 + digit_value(d[0]))
    }
}

/// The number that the token `s` denotes: an optional `+`, then at least one
/// decimal digit, with a value of at most `usize::MAX`.
pub open spec fn parse_usize(s: Seq<char>) -> Result<usize, NumberError> {
    if s.len() == 0 {
        Err(NumberError::Empty)
    } else if s.len() == 1 && (s[0] == '+' || s[0] == '-') {
        Err(NumberError::InvalidDigit)
    } else if s[0] == '+' {
        scan_digits(s.drop_first(), 0)
    } else {
        scan_digits(s, 0)
    }
}

/// The first position at or after `i` that holds a line feed, or `s.len()`.
pub open spec fn find_newline(s: Seq<char>, i: int) -> int
    decreases s.len() - i,
{
    if i < 0 || i >= s.len() {
        s.len() as int
    } else if s[i] == '\n' {
        i
    } else {
        find_newline(s, i + 1)
    }
}

/// The text before a line feed without the carriage return that goes with
/// that line feed.
pub open spec fn strip_cr(body: Seq<char>) -> Seq<char> {
    if body.len() > 0 && body.last() == '\r' {
        body.drop_last()
    } else {
        body
    }
}

/// The lines of `s` that begin at or after position `i`.
pub open spec fn lines_from(s: Seq<char>, i: int) -> Seq<Seq<char>>
    decreases s.len() - i,
{
    let j = find_newline(s, i);
    if 0 <= i < s.len() && i <= j < s.len() {
        seq![strip_cr(s.subrange(i, j))] + lines_from(s, j + 1)
    } else if 0 <= i < s.len() {
        seq![s.subrange(i, s.len() as int)]
    } else {
        Seq::empty()
    }
}

/// The lines of `s`. Each ends at a line feed or at the end of the text; the
/// line feed, and a carriage return just before it, are not part of the line.
/// A text that ends with a line feed has no empty line after it.
pub open spec fn lines(s: Seq<char>) -> Seq<Seq<char>> {
    lines_from(s, 0)
}

/// The first position at or after `i` that holds no white space, or `s.len()`.
pub open spec fn skip_whitespace(s: Seq<char>, i: int) -> int
    decreases s.len() - i,
{
    if i < 0 || i >= s.len() {
        s.len() as int
    } else if !is_whitespace(s[i]) {
        i
    } else {
        skip_whitespace(s, i + 1)
    }
}

/// The first position at or after `i` that holds white space, or `s.len()`.
pub open spec fn token_end(s: Seq<char>, i: int) -> int
    decreases s.len() - i,
{
    if i < 0 || i >= s.len() {
        s.len() as int
    } else if is_whitespace(s[i]) {
        i
    } else {
        token_end(s, i + 1)
    }
}

/// The tokens of `s` that begin at or after position `i`.
pub open spec fn tokens_from(s: Seq<char>, i: int) -> Seq<Seq<char>>
    decreases s.len() - i,
{
    let a = skip_whitespace(s, i);
    if i < 0 || a >= s.len() {
        Seq::empty()
    } else {
        let b = token_end(s, a);
        if i <= a < b <= s.len() {
            seq![s.subrange(a, b)] + tokens_from(s, b)
        } else {
            Seq::empty()
        }
    }
}

/// The maximal runs of characters of `s` that are not white space, in order.
pub open spec fn tokens(s: Seq<char>) -> Seq<Seq<char>> {
    tokens_from(s, 0)
}

pub proof fn lemma_find_newline(s: Seq<char>, i: int)
    requires
        0 <= i <= s.len(),
    ensures
        i <= find_newline(s, i) <= s.len(),
        find_newline(s, i) < s.len() ==> s[find_newline(s, i)] == '\n',
        forall|k: int| i <= k < find_newline(s, i) ==> s[k] != '\n',
    decreases s.len() - i,
{
    if i < s.len() && s[i] != '\n' {
        lemma_find_newline(s, i + 1);
    }
}

pub proof fn lemma_skip_whitespace(s: Seq<char>, i: int)
    requires
        0 <= i <= s.len(),
    ensures
        i <= skip_whitespace(s, i) <= s.len(),
        skip_whitespace(s, i) < s.len() ==> !is_whitespace(s[skip_whitespace(s, i)]),
        forall|k: int| i <= k < skip_whitespace(s, i) ==> is_whitespace(s[k]),
    decreases s.len() - i,
{
    if i < s.len() && is_whitespace(s[i]) {
        lemma_skip_whitespace(s, i + 1);
    }
}

pub proof fn lemma_token_end(s: Seq<char>, i: int)
    requires
        0 <= i <= s.len(),
    ensures
        i <= token_end(s, i) <= s.len(),
        token_end(s, i) < s.len() ==> is_whitespace(s[token_end(s, i)]),
        forall|k: int| i <= k < token_end(s, i) ==> !is_whitespace(s[k]),
        i < s.len() && !is_whitespace(s[i]) ==> i < token_end(s, i),
    decreases s.len() - i,
{
    if i < s.len() && !is_whitespace(s[i]) {
        lemma_token_end(s, i + 1);
    }
}

/// Reading one more character after `s` continues from what `s` gave.
pub proof fn lemma_scan_digits_push(s: Seq<char>, c: char, acc: nat)
    requires
        acc <= usize::MAX,
    ensures
        scan_digits(s.push(c), acc) == match scan_digits(s, acc) {
            Ok(v) => scan_digits(seq![c], v as nat),
            Err(e) => Err(e),
        },
    decreases s.len(),
{
    if s.len() == 0 {
        assert(s.push(c) =~= seq![c]);
    } else {
        assert(s.push(c).drop_first() =~= s.drop_first().push(c));
        assert(s.push(c)[0] == s[0]);
        if is_digit(s[0]) && acc * 10 + digit_value(s[0]) <= usize::MAX {
            lemma_scan_digits_push(s.drop_first(), c, acc * 10 + digit_value(s[0]));
        }
    }
}

pub proof fn lemma_digit_char(d: nat)
    requires
        d < 10,
    ensures
        is_digit(digit_char(d)),
        digit_value(digit_char(d)) == d,
        !is_whitespace(digit_char(d)),
        digit_char(d) != '\n',
        digit_char(d) != '\r',
        digit_char(d) != '+',
        digit_char(d) != '-',
{
}

/// The decimal notation of a number is read back as that number.
pub proof fn lemma_parse_decimal(n: usize)
    ensures
        parse_usize(decimal(n as nat)) == Ok::<usize, NumberError>(n),
        decimal(n as nat).len() > 0,
        has_no_whitespace(decimal(n as nat)),
{
    lemma_scan_decimal(n as nat);
    lemma_digit_char(0);
    let s = decimal(n as nat);
    lemma_decimal_chars(n as nat);
    assert(is_digit(s[0]));
}

pub proof fn lemma_decimal_chars(n: nat)
    ensures
        decimal(n).len() > 0,
        forall|i: int| 0 <= i < decimal(n).len() ==> is_digit(#[trigger] decimal(n)[i]),
        has_no_whitespace(decimal(n)),
    decreases n,
{
    if n < 10 {
        lemma_digit_char(n);
    } else {
        lemma_decimal_chars(n / 10);
        lemma_digit_char(n % 10);
    }
}

proof fn lemma_scan_decimal(n: nat)
    requires
        n <= usize::MAX,
    ensures
        scan_digits(decimal(n), 0) == Ok::<usize, NumberError>(n as usize),
    decreases n,
{
    if n < 10 {
        lemma_digit_char(n);
        assert(decimal(n).drop_first() =~= Seq::<char>::empty());
        reveal_with_fuel(scan_digits, 2);
    } else {
        lemma_scan_decimal(n / 10);
        lemma_digit_char(n % 10);
        lemma_scan_digits_push(decimal(n / 10), digit_char(n % 10), 0);
        let c = digit_char(n % 10);
        assert(seq![c].drop_first() =~= Seq::<char>::empty());
        reveal_with_fuel(scan_digits, 2);
    }
}


/// The views of a list of texts.
pub open spec fn views(v: Seq<Vec<char>>) -> Seq<Seq<char>> {
    v.map_values(|l: Vec<char>| l@)
}

/// The views of a list of strings.
pub open spec fn string_views(v: Seq<String>) -> Seq<Seq<char>> {
    v.map_values(|l: String| l@)
}

/// Appends one character to a string, by `String::push`: the string's view
/// grows by that character at its end.
#[verifier::external_body]
pub(crate) fn push_char(s: &mut String, c: char)
    ensures
        final(s)@ == old(s)@.push(c),
{
    s.push(c)
}

pub fn is_ws(c: char) -> (r: bool)
    ensures
        r == is_whitespace(c),
{
    let u: u32 = c as u32;
    (0x9 <= u && u <= 0xd) || u == 0x20 || u == 0x85 || u == 0xa0 || u == 0x1680 || (0x2000 <= u
        && u <= 0x200a) || u == 0x2028 || u == 0x2029 || u == 0x202f || u == 0x205f || u == 0x3000
}

/// The characters of a string, one element each.
pub fn str_chars(s: &str) -> (v: Vec<char>)
    ensures
        v@ == s@,
{
    let mut v: Vec<char> = Vec::new();
    for c in it: s.chars()
        invariant
            it.seq() == s@,
            v@ == it.seq().take(it.index() as int),
    {
        v.push(c);
    }
    v
}

/// The string made of the characters `s[from..to]`.
pub fn string_of(s: &Vec<char>, from: usize, to: usize) -> (r: String)
    requires
        from <= to <= s.len(),
    ensures
        r@ == s@.subrange(from as int, to as int),
{
    let mut r = String::new();
    let mut i: usize = from;
    while i < to
        invariant
            from <= i <= to <= s.len(),
            r@ == s@.subrange(from as int, i as int),
        decreases to - i,
    {
        push_char(&mut r, s[i]);
        i += 1;
        assert(s@.subrange(from as int, i as int) =~= s@.subrange(from as int, i - 1).push(
            s@[i - 1],
        ));
    }
    r
}

/// Whether `s[from..to]` holds white space only.
pub fn range_is_blank(s: &Vec<char>, from: usize, to: usize) -> (r: bool)
    requires
        from <= to <= s.len(),
    ensures
        r == is_blank(s@.subrange(from as int, to as int)),
{
    let mut i: usize = from;
    while i < to
        invariant
            from <= i <= to <= s.len(),
            forall|k: int| from <= k < i ==> is_whitespace(#[trigger] s@[k]),
        decreases to - i,
    {
        if !is_ws(s[i]) {
            assert(!is_whitespace(s@.subrange(from as int, to as int)[i - from]));
            return false;
        }
        i += 1;
    }
    assert forall|k: int| 0 <= k < to - from implies is_whitespace(
        #[trigger] s@.subrange(from as int, to as int)[k],
    ) by {
        assert(is_whitespace(s@[k + from]));
    }
    true
}

/// Appends the decimal notation of `n` to `out`.
pub fn push_decimal(out: &mut Vec<char>, n: usize)
    ensures
        final(out)@ == old(out)@ + decimal(n as nat),
{
    let ghost before = out@;
    let mut low: Vec<char> = Vec::new();
    let mut m: usize = n;
    while m >= 10
        invariant
            decimal(n as nat) =~= decimal(m as nat) + Seq::new(
                low@.len(),
                |i: int| low@[low@.len() - 1 - i],
            ),
        decreases m,
    {
        let d: u8 = (m % 10) as u8;
        let ghost prev = low@;
        low.push((d + 0x30) as char);
        m = m / 10;
        assert(decimal((m as nat) * 10 + d as nat) == decimal(m as nat).push(
            digit_char(d as nat),
        )) by {
            assert(((m as nat) * 10 + d as nat) / 10 == m as nat);
            assert(((m as nat) * 10 + d as nat) % 10 == d as nat);
        }
        assert(Seq::new(low@.len(), |i: int| low@[low@.len() - 1 - i]) =~= seq![
            digit_char(d as nat),
        ] + Seq::new(prev.len(), |i: int| prev[prev.len() - 1 - i]));
    }
    let d: u8 = m as u8;
    out.push((d + 0x30) as char);
    let mut i: usize = low.len();
    while i > 0
        invariant
            i <= low.len(),
            out@ =~= before + seq![digit_char(m as nat)] + Seq::new(
                (low@.len() - i) as nat,
                |k: int| low@[low@.len() - 1 - k],
            ),
        decreases i,
    {
        i -= 1;
        out.push(low[i]);
    }
    assert(out@ =~= before + decimal(n as nat));
}

/// Appends the decimal notation of `n` to `s`.
pub fn append_number(s: &mut String, n: usize)
    ensures
        final(s)@ == old(s)@ + decimal(n as nat),
{
    let mut digits: Vec<char> = Vec::new();
    push_decimal(&mut digits, n);
    assert(digits@.subrange(0, digits@.len() as int) =~= digits@);
    let number = string_of(&digits, 0, digits.len());
    s.append(number.as_str());
}

/// Reads `s[from..to]` as a decimal number.
pub fn parse_number(s: &Vec<char>, from: usize, to: usize) -> (r: Result<usize, NumberError>)
    requires
        from <= to <= s.len(),
    ensures
        r == parse_usize(s@.subrange(from as int, to as int)),
{
    let ghost tok = s@.subrange(from as int, to as int);
    if from == to {
        return Err(NumberError::Empty);
    }
    let first = s[from];
    assert(tok[0] == first);
    if to - from == 1 && (first == '+' || first == '-') {
        return Err(NumberError::InvalidDigit);
    }
    let start: usize = if first == '+' {
        from + 1
    } else {
        from
    };
    let ghost digits = s@.subrange(start as int, to as int);
    assert(digits =~= if first == '+' {
        tok.drop_first()
    } else {
        tok
    });
    let mut acc: usize = 0;
    let mut i: usize = start;
    while i < to
        invariant
            from <= start <= i <= to <= s.len(),
            digits == s@.subrange(start as int, to as int),
            parse_usize(s@.subrange(from as int, to as int)) == scan_digits(digits, 0),
            scan_digits(digits, 0) == scan_digits(s@.subrange(i as int, to as int), acc as nat),
        decreases to - i,
    {
        let c = s[i];
        let ghost rest = s@.subrange(i as int, to as int);
        assert(rest[0] == c);
        assert(rest.drop_first() =~= s@.subrange(i + 1, to as int));
        let u: u32 = c as u32;
        if u < 0x30 || u > 0x39 {
            return Err(NumberError::InvalidDigit);
        }
        let next: u128 = (acc as u128) * 10 + ((u - 0x30) as u128);
        if next > usize::MAX as u128 {
            return Err(NumberError::Overflow);
        }
        acc = next as usize;
        i += 1;
    }
    assert(s@.subrange(i as int, to as int).len() == 0);
    Ok(acc)
}

/// The lines of `s` as ranges of positions: line `k` is `s[r[k].0..r[k].1]`.
pub fn line_ranges(s: &Vec<char>) -> (r: Vec<(usize, usize)>)
    ensures
        r@.len() == lines(s@).len(),
        forall|k: int|
            0 <= k < r@.len() ==> (#[trigger] r@[k]).0 <= r@[k].1 <= s@.len() && s@.subrange(
                r@[k].0 as int,
                r@[k].1 as int,
            ) == lines(s@)[k],
{
    let mut r: Vec<(usize, usize)> = Vec::new();
    let mut i: usize = 0;
    let n = s.len();
    let ghost mut done: Seq<Seq<char>> = Seq::empty();
    while i < n
        invariant
            i <= n == s@.len(),
            lines(s@) == done + lines_from(s@, i as int),
            r@.len() == done.len(),
            forall|k: int|
                0 <= k < r@.len() ==> (#[trigger] r@[k]).0 <= r@[k].1 <= s@.len() && s@.subrange(
                    r@[k].0 as int,
                    r@[k].1 as int,
                ) == done[k],
        decreases n - i,
    {
        let mut j: usize = i;
        while j < n && s[j] != '\n'
            invariant
                i <= j <= n == s@.len(),
                find_newline(s@, i as int) == find_newline(s@, j as int),
            decreases n - j,
        {
            j += 1;
        }
        proof {
            lemma_find_newline(s@, i as int);
        }
        let ghost rest = lines_from(s@, i as int);
        if j < n {
            let end: usize = if j > i && s[j - 1] == '\r' {
                j - 1
            } else {
                j
            };
            let ghost body = s@.subrange(i as int, j as int);
            assert(s@.subrange(i as int, end as int) =~= strip_cr(body));
            r.push((i, end));
            proof {
                assert(rest == seq![strip_cr(body)] + lines_from(s@, j + 1));
                assert(done + rest =~= done.push(strip_cr(body)) + lines_from(s@, j + 1));
                done = done.push(strip_cr(body));
            }
            i = j + 1;
        } else {
            r.push((i, n));
            proof {
                let body = s@.subrange(i as int, n as int);
                assert(rest == seq![body]);
                assert(lines_from(s@, n as int) =~= Seq::<Seq<char>>::empty());
                assert(done + rest =~= done.push(body) + lines_from(s@, n as int));
                done = done.push(body);
            }
            i = n;
        }
    }
    assert(lines_from(s@, i as int) =~= Seq::<Seq<char>>::empty());
    assert(lines(s@) =~= done);
    r
}

/// The tokens of `s[from..to]` as ranges of positions in `s`.
pub fn token_ranges(s: &Vec<char>, from: usize, to: usize) -> (r: Vec<(usize, usize)>)
    requires
        from <= to <= s.len(),
    ensures
        r@.len() == tokens(s@.subrange(from as int, to as int)).len(),
        forall|k: int|
            0 <= k < r@.len() ==> from <= (#[trigger] r@[k]).0 < r@[k].1 <= to && s@.subrange(
                r@[k].0 as int,
                r@[k].1 as int,
            ) == tokens(s@.subrange(from as int, to as int))[k],
{
    let ghost t = s@.subrange(from as int, to as int);
    let mut r: Vec<(usize, usize)> = Vec::new();
    let mut i: usize = from;
    let ghost mut done: Seq<Seq<char>> = Seq::empty();
    loop
        invariant
            from <= i <= to <= s.len(),
            t == s@.subrange(from as int, to as int),
            tokens(t) == done + tokens_from(t, i - from),
            r@.len() == done.len(),
            forall|k: int|
                0 <= k < r@.len() ==> from <= (#[trigger] r@[k]).0 < r@[k].1 <= to && s@.subrange(
                    r@[k].0 as int,
                    r@[k].1 as int,
                ) == done[k],
        ensures
            r@.len() == tokens(t).len(),
            forall|k: int|
                0 <= k < r@.len() ==> from <= (#[trigger] r@[k]).0 < r@[k].1 <= to && s@.subrange(
                    r@[k].0 as int,
                    r@[k].1 as int,
                ) == tokens(t)[k],
        decreases to - i,
    {
        let mut a: usize = i;
        while a < to && is_ws(s[a])
            invariant
                from <= i <= a <= to <= s.len(),
                t == s@.subrange(from as int, to as int),
                skip_whitespace(t, i - from) == skip_whitespace(t, a - from),
            decreases to - a,
        {
            assert(t[a - from] == s@[a as int]);
            a += 1;
        }
        proof {
            lemma_skip_whitespace(t, i - from);
            if a < to {
                assert(t[a - from] == s@[a as int]);
            }
        }
        if a >= to {
            assert(tokens_from(t, i - from) =~= Seq::<Seq<char>>::empty());
            assert(tokens(t) =~= done);
            break;
        }
        let mut b: usize = a;
        while b < to && !is_ws(s[b])
            invariant
                from <= a <= b <= to <= s.len(),
                t == s@.subrange(from as int, to as int),
                token_end(t, a - from) == token_end(t, b - from),
            decreases to - b,
        {
            assert(t[b - from] == s@[b as int]);
            b += 1;
        }
        proof {
            lemma_token_end(t, a - from);
            if b < to {
                assert(t[b - from] == s@[b as int]);
            }
            assert(a < b);
            let tok = t.subrange(a - from, b - from);
            assert(tok =~= s@.subrange(a as int, b as int));
            assert(tokens_from(t, i - from) == seq![tok] + tokens_from(t, b - from));
            assert(done + tokens_from(t, i - from) =~= done.push(tok) + tokens_from(t, b - from));
            done = done.push(tok);
        }
        r.push((a, b));
        i = b;
    }
    r
}


/// The words of `ws` with one space between each two.
pub open spec fn join_words(ws: Seq<Seq<char>>) -> Seq<char>
    decreases ws.len(),
{
    if ws.len() == 0 {
        Seq::empty()
    } else if ws.len() == 1 {
        ws[0]
    } else {
        join_words(ws.drop_last()) + seq![' '] + ws.last()
    }
}

/// The lines of `ls`, each followed by a line feed.
pub open spec fn lines_text(ls: Seq<Seq<char>>) -> Seq<char>
    decreases ls.len(),
{
    if ls.len() == 0 {
        Seq::empty()
    } else {
        lines_text(ls.drop_last()) + ls.last() + seq!['\n']
    }
}

/// Whether `w` can stand as a word: it has a character, and none of them is
/// white space.
pub open spec fn is_word(w: Seq<char>) -> bool {
    w.len() > 0 && has_no_whitespace(w)
}

/// Whether `l` can stand as a line that is read back as it is: it holds no
/// line feed and does not end with a carriage return.
pub open spec fn is_plain_line(l: Seq<char>) -> bool {
    &&& forall|i: int| 0 <= i < l.len() ==> #[trigger] l[i] != '\n'
    &&& l.len() > 0 ==> l.last() != '\r'
}

proof fn lemma_find_newline_run(s: Seq<char>, p: int, n: nat)
    requires
        0 <= p,
        p + n < s.len(),
        forall|i: int| p <= i < p + n ==> #[trigger] s[i] != '\n',
        s[p + n] == '\n',
    ensures
        find_newline(s, p) == p + n,
    decreases n,
{
    if n > 0 {
        lemma_find_newline_run(s, p + 1, (n - 1) as nat);
    }
}

proof fn lemma_token_end_run(s: Seq<char>, p: int, n: nat)
    requires
        0 <= p,
        p + n <= s.len(),
        forall|i: int| p <= i < p + n ==> !is_whitespace(#[trigger] s[i]),
        p + n < s.len() ==> is_whitespace(s[p + n]),
    ensures
        token_end(s, p) == p + n,
    decreases n,
{
    if n > 0 {
        lemma_token_end_run(s, p + 1, (n - 1) as nat);
    }
}

/// The text of the first `k` lines stands at the front of the text of all.
proof fn lemma_lines_text_prefix(ls: Seq<Seq<char>>, k: int)
    requires
        0 <= k <= ls.len(),
    ensures
        lines_text(ls.take(k)).len() <= lines_text(ls).len(),
        lines_text(ls).subrange(0, lines_text(ls.take(k)).len() as int) == lines_text(ls.take(k)),
    decreases ls.len() - k,
{
    if k < ls.len() {
        lemma_lines_text_prefix(ls, k + 1);
        assert(ls.take(k + 1).drop_last() =~= ls.take(k));
        let a = lines_text(ls.take(k));
        let b = lines_text(ls.take(k + 1));
        let t = lines_text(ls);
        assert(b == a + ls[k] + seq!['\n']);
        assert(t.subrange(0, a.len() as int) =~= b.subrange(0, a.len() as int));
        assert(b.subrange(0, a.len() as int) =~= a);
    } else {
        assert(ls.take(k) =~= ls);
        assert(lines_text(ls).subrange(0, lines_text(ls).len() as int) =~= lines_text(ls));
    }
}

proof fn lemma_lines_from_text(ls: Seq<Seq<char>>, k: int)
    requires
        0 <= k <= ls.len(),
        forall|i: int| 0 <= i < ls.len() ==> is_plain_line(#[trigger] ls[i]),
    ensures
        lines_from(lines_text(ls), lines_text(ls.take(k)).len() as int) == ls.skip(k),
    decreases ls.len() - k,
{
    let t = lines_text(ls);
    let a = lines_text(ls.take(k));
    lemma_lines_text_prefix(ls, k);
    if k < ls.len() {
        lemma_lines_from_text(ls, k + 1);
        lemma_lines_text_prefix(ls, k + 1);
        assert(ls.take(k + 1).drop_last() =~= ls.take(k));
        let b = lines_text(ls.take(k + 1));
        let l = ls[k];
        assert(b == a + l + seq!['\n']);
        let p = a.len() as int;
        assert(is_plain_line(l));
        assert forall|i: int| p <= i < p + l.len() implies #[trigger] t[i] != '\n' by {
            assert(t[i] == t.subrange(0, b.len() as int)[i]);
            assert(b[i] == l[i - p]);
        }
        assert(t[p + l.len()] == '\n') by {
            assert(t[p + l.len()] == t.subrange(0, b.len() as int)[p + l.len()]);
        }
        lemma_find_newline_run(t, p, l.len());
        assert(t.subrange(p, p + l.len()) =~= l) by {
            assert forall|i: int| 0 <= i < l.len() implies t.subrange(p, p + l.len())[i]
                == l[i] by {
                assert(t[p + i] == t.subrange(0, b.len() as int)[p + i]);
                assert(b[p + i] == l[i]);
            }
        }
        assert(strip_cr(l) == l);
        assert(ls.skip(k) =~= seq![l] + ls.skip(k + 1));
    } else {
        assert(ls.take(k) =~= ls);
        assert(ls.skip(k) =~= Seq::<Seq<char>>::empty());
    }
}

/// A text written line by line is read back as those lines, if each holds no
/// line feed and ends with no carriage return.
pub proof fn lemma_lines_of_text(ls: Seq<Seq<char>>)
    requires
        forall|i: int| 0 <= i < ls.len() ==> is_plain_line(#[trigger] ls[i]),
    ensures
        lines(lines_text(ls)) == ls,
{
    lemma_lines_from_text(ls, 0);
    assert(ls.take(0) =~= Seq::<Seq<char>>::empty());
    assert(ls.skip(0) =~= ls);
}

/// The first `k` words joined stand at the front of all words joined.
proof fn lemma_join_words_prefix(ws: Seq<Seq<char>>, k: int)
    requires
        1 <= k <= ws.len(),
    ensures
        join_words(ws.take(k)).len() <= join_words(ws).len(),
        join_words(ws).subrange(0, join_words(ws.take(k)).len() as int) == join_words(ws.take(k)),
    decreases ws.len() - k,
{
    if k < ws.len() {
        lemma_join_words_prefix(ws, k + 1);
        assert(ws.take(k + 1).drop_last() =~= ws.take(k));
        let a = join_words(ws.take(k));
        let b = join_words(ws.take(k + 1));
        let t = join_words(ws);
        assert(b == a + seq![' '] + ws[k]);
        assert(t.subrange(0, a.len() as int) =~= b.subrange(0, a.len() as int));
        assert(b.subrange(0, a.len() as int) =~= a);
    } else {
        assert(ws.take(k) =~= ws);
        assert(join_words(ws).subrange(0, join_words(ws).len() as int) =~= join_words(ws));
    }
}

proof fn lemma_tokens_from_joined(ws: Seq<Seq<char>>, k: int)
    requires
        1 <= k <= ws.len(),
        forall|i: int| 0 <= i < ws.len() ==> is_word(#[trigger] ws[i]),
    ensures
        tokens_from(join_words(ws), join_words(ws.take(k)).len() as int) == ws.skip(k),
    decreases ws.len() - k,
{
    let t = join_words(ws);
    let a = join_words(ws.take(k));
    lemma_join_words_prefix(ws, k);
    let p = a.len() as int;
    if k < ws.len() {
        lemma_tokens_from_joined(ws, k + 1);
        lemma_join_words_prefix(ws, k + 1);
        assert(ws.take(k + 1).drop_last() =~= ws.take(k));
        let b = join_words(ws.take(k + 1));
        let w = ws[k];
        assert(b == a + seq![' '] + w);
        assert(is_word(w));
        assert(t[p] == ' ') by {
            assert(t[p] == t.subrange(0, b.len() as int)[p]);
        }
        assert forall|i: int| p + 1 <= i < p + 1 + w.len() implies !is_whitespace(
            #[trigger] t[i],
        ) by {
            assert(t[i] == t.subrange(0, b.len() as int)[i]);
            assert(b[i] == w[i - p - 1]);
        }
        assert(is_whitespace(' '));
        assert(skip_whitespace(t, p) == p + 1) by {
            assert(!is_whitespace(t[p + 1]));
            reveal_with_fuel(skip_whitespace, 2);
        }
        if k + 1 < ws.len() {
            lemma_join_words_prefix(ws, k + 2);
            assert(ws.take(k + 2).drop_last() =~= ws.take(k + 1));
            let c = join_words(ws.take(k + 2));
            assert(c == b + seq![' '] + ws[k + 1]);
            assert(t[b.len() as int] == t.subrange(0, c.len() as int)[b.len() as int]);
        } else {
            assert(ws.take(k + 1) =~= ws);
        }
        lemma_token_end_run(t, p + 1, w.len());
        assert(t.subrange(p + 1, p + 1 + w.len()) =~= w) by {
            assert forall|i: int| 0 <= i < w.len() implies t.subrange(p + 1, p + 1 + w.len())[i]
                == w[i] by {
                assert(t[p + 1 + i] == t.subrange(0, b.len() as int)[p + 1 + i]);
                assert(b[p + 1 + i] == w[i]);
            }
        }
        assert(ws.skip(k) =~= seq![w] + ws.skip(k + 1));
    } else {
        assert(ws.take(k) =~= ws);
        assert(ws.skip(k) =~= Seq::<Seq<char>>::empty());
    }
}

/// Words joined by single spaces are read back as those words.
pub proof fn lemma_tokens_of_joined(ws: Seq<Seq<char>>)
    requires
        forall|i: int| 0 <= i < ws.len() ==> is_word(#[trigger] ws[i]),
    ensures
        tokens(join_words(ws)) == ws,
        ws.len() > 0 ==> !is_blank(join_words(ws)),
        forall|i: int| 0 <= i < join_words(ws).len() ==> #[trigger] join_words(ws)[i] != '\n',
        join_words(ws).len() > 0 ==> join_words(ws).last() != '\r',
{
    let t = join_words(ws);
    if ws.len() == 0 {
    } else {
        lemma_tokens_from_joined(ws, 1);
        lemma_join_words_prefix(ws, 1);
        let w = ws[0];
        assert(ws.take(1) =~= seq![w]);
        assert(join_words(ws.take(1)) == w);
        assert(is_word(w));
        assert forall|i: int| 0 <= i < w.len() implies !is_whitespace(#[trigger] t[i]) by {
            assert(t[i] == t.subrange(0, w.len() as int)[i]);
        }
        assert(skip_whitespace(t, 0) == 0);
        if ws.len() > 1 {
            lemma_join_words_prefix(ws, 2);
            assert(ws.take(2).drop_last() =~= ws.take(1));
            let c = join_words(ws.take(2));
            assert(c == w + seq![' '] + ws[1]);
            assert(t[w.len() as int] == t.subrange(0, c.len() as int)[w.len() as int]);
            assert(is_whitespace(' '));
        } else {
            assert(ws.take(1) =~= ws);
        }
        lemma_token_end_run(t, 0, w.len());
        assert(t.subrange(0, w.len() as int) =~= w);
        assert(ws =~= seq![w] + ws.skip(1));
        assert(!is_whitespace(t[0]));
    }
    lemma_joined_chars(ws);
}

/// Words joined by single spaces hold no line break, and end with the last
/// character of the last word.
proof fn lemma_joined_chars(ws: Seq<Seq<char>>)
    requires
        forall|i: int| 0 <= i < ws.len() ==> is_word(#[trigger] ws[i]),
    ensures
        forall|i: int|
            0 <= i < join_words(ws).len() ==> #[trigger] join_words(ws)[i] != '\n' && (
            join_words(ws)[i] == ' ' || !is_whitespace(join_words(ws)[i])),
        ws.len() > 0 ==> join_words(ws).len() > 0 && !is_whitespace(join_words(ws).last()),
    decreases ws.len(),
{
    if ws.len() == 1 {
        assert(is_word(ws[0]));
    } else if ws.len() > 1 {
        assert forall|i: int| 0 <= i < ws.drop_last().len() implies is_word(
            #[trigger] ws.drop_last()[i],
        ) by {
            assert(ws.drop_last()[i] == ws[i]);
        }
        lemma_joined_chars(ws.drop_last());
        assert(is_word(ws[ws.len() - 1]));
        let a = join_words(ws.drop_last());
        let t = join_words(ws);
        let w = ws.last();
        assert forall|i: int| 0 <= i < t.len() implies #[trigger] t[i] != '\n' && (t[i] == ' '
            || !is_whitespace(t[i])) by {
            if i < a.len() {
                assert(t[i] == a[i]);
            } else if i == a.len() {
            } else {
                assert(t[i] == w[i - a.len() - 1]);
            }
        }
        assert(t.last() == w.last());
    }
}

} // verus!
