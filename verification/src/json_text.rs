//! The words of the persisted index: spaces, numbers and strings of JSON
//! text, how they are written and how they are read.

use vstd::prelude::*;

verus! {

/// The text `t` stands in `s` at position `p`.
pub open spec fn has_at(s: Seq<char>, p: int, t: Seq<char>) -> bool {
    0 <= p && p + t.len() <= s.len() && s.subrange(p, p + t.len()) == t
}

/// The character `c` stands in `s` at position `p`.
pub open spec fn has_char(s: Seq<char>, p: int, c: char) -> bool {
    0 <= p < s.len() && s[p] == c
}

/// Where `t` stands in `s`, each of its characters stands.
pub proof fn lemma_has_at_index(s: Seq<char>, p: int, t: Seq<char>, k: int)
    requires
        has_at(s, p, t),
        0 <= k < t.len(),
    ensures
        s[p + k] == t[k],
{}

/// A text made of two parts stands where its first part stands and its
/// second part follows.
pub proof fn lemma_has_at_split(s: Seq<char>, p: int, t: Seq<char>, u: Seq<char>)
    ensures
        has_at(s, p, t + u) <==> has_at(s, p, t) && has_at(s, p + t.len(), u),
{
    if has_at(s, p, t + u) {
        assert forall|k: int| 0 <= k < t.len() implies s.subrange(p, p + t.len())[k] == t[k] by {
            lemma_has_at_index(s, p, t + u, k);
        }
        assert(s.subrange(p, p + t.len()) =~= t);
        assert forall|k: int| 0 <= k < u.len() implies s.subrange(
            p + t.len(),
            p + t.len() + u.len(),
        )[k] == u[k] by {
            lemma_has_at_index(s, p, t + u, t.len() + k);
        }
        assert(s.subrange(p + t.len(), p + t.len() + u.len()) =~= u);
    }
    if has_at(s, p, t) && has_at(s, p + t.len(), u) {
        assert forall|k: int| 0 <= k < (t + u).len() implies s.subrange(p, p + (t + u).len())[k]
            == (t + u)[k] by {
            if k < t.len() {
                lemma_has_at_index(s, p, t, k);
            } else {
                lemma_has_at_index(s, p + t.len(), u, k - t.len());
            }
        }
        assert(s.subrange(p, p + (t + u).len()) =~= t + u);
    }
}

/// A text that stands inside a text which stands in `s` stands in `s`.
pub proof fn lemma_has_at_inside(s: Seq<char>, p: int, t: Seq<char>, q: int, u: Seq<char>)
    requires
        has_at(s, p, t),
        has_at(t, q, u),
    ensures
        has_at(s, p + q, u),
{
    assert forall|k: int| 0 <= k < u.len() implies s.subrange(p + q, p + q + u.len())[k]
        == u[k] by {
        lemma_has_at_index(t, q, u, k);
        lemma_has_at_index(s, p, t, q + k);
    }
    assert(s.subrange(p + q, p + q + u.len()) =~= u);
}

/// The characters of `text`, one by one.
pub fn chars_of(text: &str) -> (v: Vec<char>)
    ensures
        v@ == text@,
{
    let mut v: Vec<char> = Vec::new();
    for c in it: text.chars()
        invariant
            it.seq() == text@,
            v@ == text@.take(it.index() as int),
    {
        v.push(c);
    }
    v
}

// ---------------------------------------------------------------- spaces

/// JSON's white space.
pub open spec fn is_space(c: char) -> bool {
    c == ' ' || c == '\t' || c == '\n' || c == '\r'
}

/// The first position from `p` on that holds no white space.
pub open spec fn skip_spaces(s: Seq<char>, p: int) -> int
    decreases s.len() - p,
{
    if 0 <= p < s.len() && is_space(s[p]) {
        skip_spaces(s, p + 1)
    } else {
        p
    }
}

/// The first position from `p` on that holds no white space.
pub fn skip_spaces_in(s: &Vec<char>, p: usize) -> (q: usize)
    ensures
        q == skip_spaces(s@, p as int),
        p <= q,
        p <= s.len() ==> q <= s.len(),
{
    let mut q: usize = p;
    while q < s.len() && (s[q] == ' ' || s[q] == '\t' || s[q] == '\n' || s[q] == '\r')
        invariant
            p <= q,
            p <= s.len() ==> q <= s.len(),
            skip_spaces(s@, p as int) == skip_spaces(s@, q as int),
        decreases s.len() - q,
    {
        q += 1;
    }
    q
}

// --------------------------------------------------------------- numbers

/// One of the ten digits.
pub open spec fn is_digit(c: char) -> bool {
    '0' <= c && c <= '9'
}

/// The value of a digit.
pub open spec fn digit_value(c: char) -> int {
    c as int - 48
}

/// The digit of a value below ten.
pub open spec fn digit_char(d: int) -> char {
    (48 + d) as char
}

/// A number in decimal digits, without leading zeros.
pub open spec fn decimal(n: nat) -> Seq<char>
    decreases n,
{
    if n < 10 {
        seq![digit_char(n as int)]
    } else {
        decimal(n / 10).push(digit_char((n % 10) as int))
    }
}

/// The value that the run of digits from `p` on gives to a number that
/// is `acc` so far, and where the run ends.
pub open spec fn scan_digits(s: Seq<char>, p: int, acc: int) -> (int, int)
    decreases s.len() - p,
{
    if 0 <= p < s.len() && is_digit(s[p]) {
        scan_digits(s, p + 1, acc * 10 + digit_value(s[p]))
    } else {
        (acc, p)
    }
}

/// The number that stands at `p`, and where it ends: a single `0`, or a
/// run of digits that starts with another digit. None where no digit
/// stands, or where the number is too large for a position.
pub open spec fn parse_number(s: Seq<char>, p: int) -> Option<(usize, int)> {
    if !(0 <= p < s.len()) || !is_digit(s[p]) {
        None
    } else if s[p] == '0' {
        Some((0usize, p + 1))
    } else {
        let (value, end) = scan_digits(s, p + 1, digit_value(s[p]));
        if value <= usize::MAX {
            Some((value as usize, end))
        } else {
            None
        }
    }
}

/// A run of digits makes a number no smaller, and ends no earlier than
/// it starts and no later than the text.
pub proof fn lemma_scan_digits_bounds(s: Seq<char>, p: int, acc: int)
    requires
        0 <= p <= s.len(),
        0 <= acc,
    ensures
        acc <= scan_digits(s, p, acc).0,
        p <= scan_digits(s, p, acc).1 <= s.len(),
    decreases s.len() - p,
{
    if p < s.len() && is_digit(s[p]) {
        lemma_scan_digits_bounds(s, p + 1, acc * 10 + digit_value(s[p]));
    }
}

/// Reads the number at `p`.
pub fn read_number(s: &Vec<char>, p: usize) -> (r: Option<(usize, usize)>)
    ensures
        match r {
            Some((value, end)) => parse_number(s@, p as int) == Some((value, end as int)) && p < end
                <= s.len(),
            None => parse_number(s@, p as int) is None,
        },
{
    if p >= s.len() {
        return None;
    }
    let first = s[p];
    if !(first >= '0' && first <= '9') {
        return None;
    }
    if first == '0' {
        return Some((0, p + 1));
    }
    let mut value: usize = (first as u32 - 48) as usize;
    let mut q: usize = p + 1;
    while q < s.len() && s[q] >= '0' && s[q] <= '9'
        invariant
            p < q <= s.len(),
            is_digit(s@[p as int]),
            s@[p as int] != '0',
            scan_digits(s@, p + 1, digit_value(s@[p as int])) == scan_digits(
                s@,
                q as int,
                value as int,
            ),
        decreases s.len() - q,
    {
        let d: usize = (s[q] as u32 - 48) as usize;
        let grown = match value.checked_mul(10) {
            Some(tenfold) => tenfold.checked_add(d),
            None => None,
        };
        match grown {
            Some(v) => {
                value = v;
            },
            None => {
                proof {
                    lemma_scan_digits_bounds(s@, q + 1, value * 10 + d);
                }
                return None;
            },
        }
        q += 1;
    }
    proof {
        lemma_scan_digits_bounds(s@, q as int, value as int);
    }
    Some((value, q))
}

/// Writes `n` in decimal digits at the end of `out`.
pub fn write_number(out: &mut String, n: usize)
    ensures
        final(out)@ == old(out)@ + decimal(n as nat),
    decreases n,
{
    if n >= 10 {
        write_number(out, n / 10);
    }
    let d: u8 = (n % 10) as u8;
    out.push((48u8 + d) as char);
}

/// The value of a run of digits.
pub open spec fn digits_value(t: Seq<char>) -> int
    decreases t.len(),
{
    if t.len() == 0 {
        0
    } else {
        digits_value(t.drop_last()) * 10 + digit_value(t.last())
    }
}

/// The decimal digits of a number are digits, give its value back, and
/// start with `0` only for zero.
pub proof fn lemma_decimal(n: nat)
    ensures
        decimal(n).len() >= 1,
        forall|k: int| 0 <= k < decimal(n).len() ==> is_digit(#[trigger] decimal(n)[k]),
        digits_value(decimal(n)) == n,
        decimal(n)[0] == '0' <==> n == 0,
        n == 0 ==> decimal(n).len() == 1,
    decreases n,
{
    reveal_with_fuel(digits_value, 2);
    if n >= 10 {
        lemma_decimal(n / 10);
        let head = decimal(n / 10);
        assert(decimal(n).drop_last() =~= head);
    }
}

/// Reading a run of digits from its digit `k` on, with the value of the
/// digits before it, gives the value of the whole run.
proof fn lemma_scan_run(s: Seq<char>, start: int, t: Seq<char>, k: int)
    requires
        has_at(s, start, t),
        forall|i: int| 0 <= i < t.len() ==> is_digit(#[trigger] t[i]),
        !(start + t.len() < s.len() && is_digit(s[start + t.len()])),
        0 <= k <= t.len(),
    ensures
        scan_digits(s, start + k, digits_value(t.take(k))) == (digits_value(t), start + t.len()),
    decreases t.len() - k,
{
    if k < t.len() {
        lemma_has_at_index(s, start, t, k);
        assert(t.take(k + 1).drop_last() =~= t.take(k));
        lemma_scan_run(s, start, t, k + 1);
    } else {
        assert(t.take(k) =~= t);
    }
}

/// A number that was written in decimal digits, and is followed by no
/// further digit, is read back as it was.
pub proof fn lemma_parse_decimal(s: Seq<char>, p: int, n: usize)
    requires
        has_at(s, p, decimal(n as nat)),
        !(p + decimal(n as nat).len() < s.len() && is_digit(s[p + decimal(n as nat).len()])),
    ensures
        parse_number(s, p) == Some((n, p + decimal(n as nat).len())),
{
    let t = decimal(n as nat);
    lemma_decimal(n as nat);
    lemma_has_at_index(s, p, t, 0);
    if n != 0 {
        reveal_with_fuel(digits_value, 2);
        lemma_scan_run(s, p, t, 1);
    }
}

// --------------------------------------------------------------- strings

/// One of the sixteen hexadecimal digits, in either case.
pub open spec fn is_hex(c: char) -> bool {
    is_digit(c) || ('a' <= c && c <= 'f') || ('A' <= c && c <= 'F')
}

/// The value of a hexadecimal digit.
pub open spec fn hex_value(c: char) -> int {
    if is_digit(c) {
        c as int - 48
    } else if 'a' <= c && c <= 'f' {
        c as int - 87
    } else {
        c as int - 55
    }
}

/// The hexadecimal digit, in lower case, of a value below sixteen.
pub open spec fn hex_char(d: int) -> char {
    if d < 10 {
        (48 + d) as char
    } else {
        (87 + d) as char
    }
}

/// The value of the four hexadecimal digits at `p`.
pub open spec fn hex4(s: Seq<char>, p: int) -> Option<int> {
    if 0 <= p && p + 4 <= s.len() && is_hex(s[p]) && is_hex(s[p + 1]) && is_hex(s[p + 2])
        && is_hex(s[p + 3]) {
        Some(
            hex_value(s[p]) * 4096 + hex_value(s[p + 1]) * 256 + hex_value(s[p + 2]) * 16
                + hex_value(s[p + 3]),
        )
    } else {
        None
    }
}

/// How one character of a string is written: a quote, a backslash and the
/// control characters behind a backslash, any other character as itself.
pub open spec fn escape(c: char) -> Seq<char> {
    if c == '"' {
        seq!['\\', '"']
    } else if c == '\\' {
        seq!['\\', '\\']
    } else if c == '\u{8}' {
        seq!['\\', 'b']
    } else if c == '\u{c}' {
        seq!['\\', 'f']
    } else if c == '\n' {
        seq!['\\', 'n']
    } else if c == '\r' {
        seq!['\\', 'r']
    } else if c == '\t' {
        seq!['\\', 't']
    } else if (c as int) < 32 {
        seq!['\\', 'u', '0', '0', hex_char(c as int / 16), hex_char(c as int % 16)]
    } else {
        seq![c]
    }
}

/// The characters of `t`, each written as `escape` says.
pub open spec fn escape_all(t: Seq<char>) -> Seq<char>
    decreases t.len(),
{
    if t.len() == 0 {
        Seq::empty()
    } else {
        escape_all(t.drop_last()) + escape(t.last())
    }
}

/// A string as it is written: between quotes.
pub open spec fn quoted(t: Seq<char>) -> Seq<char> {
    seq!['"'] + escape_all(t) + seq!['"']
}

/// The character that the escape at the backslash at `p` stands for, and
/// where the escape ends. A `\u` escape names a code point by four
/// hexadecimal digits, or by two such escapes that hold a pair of
/// surrogates; half a pair stands for nothing.
pub open spec fn parse_escape(s: Seq<char>, p: int) -> Option<(char, int)> {
    if !(0 <= p && p + 1 < s.len()) {
        None
    } else if s[p + 1] == '"' {
        Some(('"', p + 2))
    } else if s[p + 1] == '\\' {
        Some(('\\', p + 2))
    } else if s[p + 1] == '/' {
        Some(('/', p + 2))
    } else if s[p + 1] == 'b' {
        Some(('\u{8}', p + 2))
    } else if s[p + 1] == 'f' {
        Some(('\u{c}', p + 2))
    } else if s[p + 1] == 'n' {
        Some(('\n', p + 2))
    } else if s[p + 1] == 'r' {
        Some(('\r', p + 2))
    } else if s[p + 1] == 't' {
        Some(('\t', p + 2))
    } else if s[p + 1] == 'u' {
        match hex4(s, p + 2) {
            None => None,
            Some(unit) => {
                if 0xD800 <= unit <= 0xDBFF {
                    if has_char(s, p + 6, '\\') && has_char(s, p + 7, 'u') {
                        match hex4(s, p + 8) {
                            None => None,
                            Some(low) => {
                                if 0xDC00 <= low <= 0xDFFF {
                                    Some(
                                        (
                                            (0x10000 + (unit - 0xD800) * 0x400 + (low
                                                - 0xDC00)) as char,
                                            p + 12,
                                        ),
                                    )
                                } else {
                                    None
                                }
                            },
                        }
                    } else {
                        None
                    }
                } else if 0xDC00 <= unit <= 0xDFFF {
                    None
                } else {
                    Some((unit as char, p + 6))
                }
            },
        }
    } else {
        None
    }
}

/// The rest of a string from `p` on, whose characters so far are `acc`,
/// and where the string ends: behind its closing quote. A control
/// character that stands unescaped ends it badly.
pub open spec fn parse_string_rest(s: Seq<char>, p: int, acc: Seq<char>) -> Option<
    (Seq<char>, int),
>
    decreases s.len() - p,
{
    if !(0 <= p < s.len()) {
        None
    } else if s[p] == '"' {
        Some((acc, p + 1))
    } else if s[p] == '\\' {
        match parse_escape(s, p) {
            None => None,
            Some((c, next)) => {
                if p < next <= s.len() {
                    parse_string_rest(s, next, acc.push(c))
                } else {
                    None
                }
            },
        }
    } else if (s[p] as int) < 32 {
        None
    } else {
        parse_string_rest(s, p + 1, acc.push(s[p]))
    }
}

/// The string that stands at `p`, and where it ends.
pub open spec fn parse_string(s: Seq<char>, p: int) -> Option<(Seq<char>, int)> {
    if has_char(s, p, '"') {
        parse_string_rest(s, p + 1, Seq::empty())
    } else {
        None
    }
}

/// Whether `c` is a control character that a string must escape.
fn is_control(c: char) -> (r: bool)
    ensures
        r == ((c as int) < 32),
{
    (c as u32) < 32
}

/// The value of `c` as a hexadecimal digit.
fn read_hex(c: char) -> (r: Option<u32>)
    ensures
        match r {
            Some(v) => is_hex(c) && v == hex_value(c) && v < 16,
            None => !is_hex(c),
        },
{
    if c >= '0' && c <= '9' {
        Some(c as u32 - 48)
    } else if c >= 'a' && c <= 'f' {
        Some(c as u32 - 87)
    } else if c >= 'A' && c <= 'F' {
        Some(c as u32 - 55)
    } else {
        None
    }
}

/// The value of the four hexadecimal digits at `p`.
fn read_hex4(s: &Vec<char>, p: usize) -> (r: Option<u32>)
    requires
        p <= s.len(),
    ensures
        match r {
            Some(v) => hex4(s@, p as int) == Some(v as int) && v <= 0xFFFF,
            None => hex4(s@, p as int) is None,
        },
{
    if s.len() - p < 4 {
        return None;
    }
    let a = match read_hex(s[p]) {
        Some(v) => v,
        None => {
            return None;
        },
    };
    let b = match read_hex(s[p + 1]) {
        Some(v) => v,
        None => {
            return None;
        },
    };
    let c = match read_hex(s[p + 2]) {
        Some(v) => v,
        None => {
            return None;
        },
    };
    let d = match read_hex(s[p + 3]) {
        Some(v) => v,
        None => {
            return None;
        },
    };
    Some(a * 4096 + b * 256 + c * 16 + d)
}

/// Reads the escape whose backslash stands at `p`.
fn read_escape(s: &Vec<char>, p: usize) -> (r: Option<(char, usize)>)
    requires
        p < s.len(),
    ensures
        match r {
            Some((c, end)) => parse_escape(s@, p as int) == Some((c, end as int)) && p < end
                <= s.len(),
            None => parse_escape(s@, p as int) is None,
        },
{
    if s.len() - p < 2 {
        return None;
    }
    let kind = s[p + 1];
    if kind == '"' {
        Some(('"', p + 2))
    } else if kind == '\\' {
        Some(('\\', p + 2))
    } else if kind == '/' {
        Some(('/', p + 2))
    } else if kind == 'b' {
        Some(('\u{8}', p + 2))
    } else if kind == 'f' {
        Some(('\u{c}', p + 2))
    } else if kind == 'n' {
        Some(('\n', p + 2))
    } else if kind == 'r' {
        Some(('\r', p + 2))
    } else if kind == 't' {
        Some(('\t', p + 2))
    } else if kind == 'u' {
        let unit = match read_hex4(s, p + 2) {
            Some(v) => v,
            None => {
                return None;
            },
        };
        if 0xD800 <= unit && unit <= 0xDBFF {
            if s.len() - p < 8 || s[p + 6] != '\\' || s[p + 7] != 'u' {
                return None;
            }
            let low = match read_hex4(s, p + 8) {
                Some(v) => v,
                None => {
                    return None;
                },
            };
            if !(0xDC00 <= low && low <= 0xDFFF) {
                return None;
            }
            match char::from_u32(0x10000 + (unit - 0xD800) * 0x400 + (low - 0xDC00)) {
                Some(c) => Some((c, p + 12)),
                None => None,
            }
        } else {
            match char::from_u32(unit) {
                Some(c) => Some((c, p + 6)),
                None => None,
            }
        }
    } else {
        None
    }
}

/// Reads the string at `p`.
pub fn read_string(s: &Vec<char>, p: usize) -> (r: Option<(String, usize)>)
    ensures
        match r {
            Some((t, end)) => parse_string(s@, p as int) == Some((t@, end as int)) && p < end
                <= s.len(),
            None => parse_string(s@, p as int) is None,
        },
{
    if p >= s.len() || s[p] != '"' {
        return None;
    }
    let mut out = String::new();
    let mut q: usize = p + 1;
    loop
        invariant
            p < q <= s.len(),
            has_char(s@, p as int, '"'),
            parse_string(s@, p as int) == parse_string_rest(s@, q as int, out@),
        decreases s.len() - q,
    {
        if q >= s.len() {
            return None;
        }
        let c = s[q];
        if c == '"' {
            return Some((out, q + 1));
        }
        if c == '\\' {
            match read_escape(s, q) {
                Some((ch, next)) => {
                    out.push(ch);
                    q = next;
                },
                None => {
                    return None;
                },
            }
        } else if is_control(c) {
            return None;
        } else {
            out.push(c);
            q += 1;
        }
    }
}

/// The hexadecimal digit of `d`, in lower case.
fn hex_digit(d: u8) -> (c: char)
    requires
        d < 16,
    ensures
        c == hex_char(d as int),
{
    if d < 10 {
        (48u8 + d) as char
    } else {
        (87u8 + d) as char
    }
}

/// Writes `c` as a string holds it at the end of `out`.
fn write_char(out: &mut String, c: char)
    ensures
        final(out)@ == old(out)@ + escape(c),
{
    if c == '"' {
        out.push('\\');
        out.push('"');
    } else if c == '\\' {
        out.push('\\');
        out.push('\\');
    } else if c == '\u{8}' {
        out.push('\\');
        out.push('b');
    } else if c == '\u{c}' {
        out.push('\\');
        out.push('f');
    } else if c == '\n' {
        out.push('\\');
        out.push('n');
    } else if c == '\r' {
        out.push('\\');
        out.push('r');
    } else if c == '\t' {
        out.push('\\');
        out.push('t');
    } else if is_control(c) {
        let code: u8 = c as u8;
        out.push('\\');
        out.push('u');
        out.push('0');
        out.push('0');
        out.push(hex_digit(code / 16));
        out.push(hex_digit(code % 16));
    } else {
        out.push(c);
    }
}

/// Writes `t` as a string, between quotes, at the end of `out`.
pub fn write_string(out: &mut String, t: &str)
    ensures
        final(out)@ == old(out)@ + quoted(t@),
{
    let ghost start = out@;
    out.push('"');
    for c in it: t.chars()
        invariant
            it.seq() == t@,
            out@ == start + seq!['"'] + escape_all(t@.take(it.index() as int)),
    {
        proof {
            let k = it.index() as int;
            assert(t@.take(k + 1).drop_last() =~= t@.take(k));
        }
        write_char(out, c);
    }
    out.push('"');
    proof {
        assert(t@.take(t@.len() as int) =~= t@);
    }
}

/// The first characters of a text are written as the text begins.
proof fn lemma_escape_all_prefix(t: Seq<char>, k: int)
    requires
        0 <= k <= t.len(),
    ensures
        has_at(escape_all(t), 0, escape_all(t.take(k))),
    decreases t.len(),
{
    let whole = escape_all(t);
    assert(whole.subrange(0, whole.len() as int) =~= whole);
    if k == t.len() {
        assert(t.take(k) =~= t);
    } else {
        lemma_escape_all_prefix(t.drop_last(), k);
        assert(t.drop_last().take(k) =~= t.take(k));
        lemma_has_at_split(whole, 0, escape_all(t.drop_last()), escape(t.last()));
        lemma_has_at_inside(whole, 0, escape_all(t.drop_last()), 0, escape_all(t.take(k)));
    }
}

/// A character that was written is read back, and reading goes on
/// behind it.
proof fn lemma_parse_escaped_char(s: Seq<char>, p: int, c: char, acc: Seq<char>)
    requires
        has_at(s, p, escape(c)),
    ensures
        parse_string_rest(s, p, acc) == parse_string_rest(s, p + escape(c).len(), acc.push(c)),
{
    let e = escape(c);
    lemma_has_at_index(s, p, e, 0);
    if e.len() >= 2 {
        lemma_has_at_index(s, p, e, 1);
    }
    if e.len() == 6 {
        lemma_has_at_index(s, p, e, 2);
        lemma_has_at_index(s, p, e, 3);
        lemma_has_at_index(s, p, e, 4);
        lemma_has_at_index(s, p, e, 5);
    }
}

/// Reading a written text from its character `k` on, behind the characters
/// before it, gives the whole text.
proof fn lemma_parse_escaped(s: Seq<char>, start: int, t: Seq<char>, k: int)
    requires
        has_at(s, start, escape_all(t) + seq!['"']),
        0 <= k <= t.len(),
    ensures
        parse_string_rest(s, start + escape_all(t.take(k)).len(), t.take(k)) == Some(
            (t, start + escape_all(t).len() + 1),
        ),
    decreases t.len() - k,
{
    lemma_has_at_split(s, start, escape_all(t), seq!['"']);
    if k == t.len() {
        assert(t.take(k) =~= t);
        lemma_has_at_index(s, start + escape_all(t).len(), seq!['"'], 0);
    } else {
        let c = t[k];
        let pos = start + escape_all(t.take(k)).len();
        assert(t.take(k + 1).drop_last() =~= t.take(k));
        lemma_escape_all_prefix(t, k + 1);
        lemma_has_at_inside(s, start, escape_all(t), 0, escape_all(t.take(k + 1)));
        lemma_has_at_split(s, start, escape_all(t.take(k)), escape(c));
        lemma_parse_escaped_char(s, pos, c, t.take(k));
        assert(t.take(k).push(c) =~= t.take(k + 1));
        lemma_parse_escaped(s, start, t, k + 1);
    }
}

/// A string that was written is read back as it was.
pub proof fn lemma_parse_quoted(s: Seq<char>, p: int, t: Seq<char>)
    requires
        has_at(s, p, quoted(t)),
    ensures
        parse_string(s, p) == Some((t, p + quoted(t).len())),
        quoted(t).len() >= 2,
        quoted(t)[0] == '"',
{
    lemma_has_at_split(s, p, seq!['"'] + escape_all(t), seq!['"']);
    lemma_has_at_split(s, p, seq!['"'], escape_all(t));
    lemma_has_at_split(s, p + 1, escape_all(t), seq!['"']);
    lemma_has_at_index(s, p, seq!['"'], 0);
    assert(t.take(0) =~= Seq::<char>::empty());
    lemma_parse_escaped(s, p + 1, t, 0);
}

} // verus!
