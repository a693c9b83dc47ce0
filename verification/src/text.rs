use vstd::prelude::*;

verus! {

/// Collects the characters of a string slice into a vector.
pub fn chars_of(s: &str) -> (out: Vec<char>)
    ensures
        out@ == s@,
{
    let mut out: Vec<char> = Vec::new();
    for c in it: s.chars()
        invariant
            out@ == it.seq().take(it.index() as int),
            it.seq() == s@,
    {
        out.push(c);
    }
    out
}

/// Appends one character to a string, through `String::push`; std documents
/// that it appends the given `char` to the end of the string.
#[verifier::external_body]
pub(crate) fn push_char(s: &mut String, c: char)
    ensures
        final(s)@ == old(s)@.push(c),
{
    s.push(c)
}

/// Builds a string holding exactly the characters of `cs[from..to]`.
pub fn string_from_chars(cs: &Vec<char>, from: usize, to: usize) -> (out: String)
    requires
        from <= to <= cs@.len(),
    ensures
        out@ == cs@.subrange(from as int, to as int),
{
    let mut out = String::new();
    let mut i = from;
    while i < to
        invariant
            from <= i <= to <= cs@.len(),
            out@ == cs@.subrange(from as int, i as int),
        decreases to - i,
    {
        push_char(&mut out, cs[i]);
        assert(cs@.subrange(from as int, i + 1) == cs@.subrange(from as int, i as int).push(cs@[i as int]));
        i = i + 1;
    }
    out
}

/// Appends all characters of `tail` to `s`.
pub fn push_chars(s: &mut String, tail: &Vec<char>)
    ensures
        final(s)@ == old(s)@ + tail@,
{
    let mut i: usize = 0;
    while i < tail.len()
        invariant
            i <= tail@.len(),
            s@ == old(s)@ + tail@.take(i as int),
        decreases tail@.len() - i,
    {
        push_char(s, tail[i]);
        assert(tail@.take(i + 1) == tail@.take(i as int).push(tail@[i as int]));
        i = i + 1;
    }
    assert(tail@.take(tail@.len() as int) == tail@);
}

/// Compares two character vectors for equality.
pub fn chars_eq(a: &Vec<char>, b: &Vec<char>) -> (eq: bool)
    ensures
        eq == (a@ == b@),
{
    if a.len() != b.len() {
        return false;
    }
    let mut i: usize = 0;
    while i < a.len()
        invariant
            i <= a@.len(),
            a@.len() == b@.len(),
            forall|j: int| 0 <= j < i ==> a@[j] == b@[j],
        decreases a@.len() - i,
    {
        if a[i] != b[i] {
            return false;
        }
        i = i + 1;
    }
    assert(a@ =~= b@);
    true
}

/// The character of a digit below sixteen, in lower case.
pub open spec fn digit_char(d: int) -> char {
    if d == 0 { '0' } else if d == 1 { '1' } else if d == 2 { '2' } else if d == 3 { '3' }
    else if d == 4 { '4' } else if d == 5 { '5' } else if d == 6 { '6' } else if d == 7 { '7' }
    else if d == 8 { '8' } else if d == 9 { '9' } else if d == 10 { 'a' } else if d == 11 { 'b' }
    else if d == 12 { 'c' } else if d == 13 { 'd' } else if d == 14 { 'e' } else { 'f' }
}

/// The value of a hexadecimal digit, in either case.
pub open spec fn hex_value(c: char) -> Option<int> {
    if '0' <= c <= '9' {
        Some(c as int - '0' as int)
    } else if 'a' <= c <= 'f' {
        Some(c as int - 'a' as int + 10)
    } else if 'A' <= c <= 'F' {
        Some(c as int - 'A' as int + 10)
    } else {
        None
    }
}

/// Reading back a digit gives its value.
pub proof fn lemma_hex_value_digit(d: int)
    requires
        0 <= d < 16,
    ensures
        hex_value(digit_char(d)) == Some(d),
{
}

/// The value of a digit in the given radix (ten or sixteen), in either case.
pub open spec fn radix_value(c: char, radix: int) -> Option<int> {
    match hex_value(c) {
        Some(d) => if d < radix {
            Some(d)
        } else {
            None
        },
        None => None,
    }
}

/// Why text is not a number.
#[derive(Debug, Clone, Copy, PartialEq, Eq, Structural)]
pub enum IntErrorKind {
    /// The text is empty.
    Empty,
    /// The text holds a character that is not a digit.
    InvalidDigit,
    /// The number is too large for its type.
    PosOverflow,
}

/// Text that does not hold a number.
#[derive(Debug, Clone, Copy, PartialEq, Eq, Structural)]
pub struct ParseIntError {
    pub kind: IntErrorKind,
}

impl ParseIntError {
    /// The message this error is reported with.
    pub fn description(&self) -> (out: &'static str)
        ensures
            out@ == match self.kind {
                IntErrorKind::Empty => "cannot parse integer from empty string"@,
                IntErrorKind::InvalidDigit => "invalid digit found in string"@,
                IntErrorKind::PosOverflow => "number too large to fit in target type"@,
            },
    {
        match self.kind {
            IntErrorKind::Empty => "cannot parse integer from empty string",
            IntErrorKind::InvalidDigit => "invalid digit found in string",
            IntErrorKind::PosOverflow => "number too large to fit in target type",
        }
    }
}

/// The value of the digits `s`, read left to right; the first character that
/// is not a digit, or the first digit that takes the value past `max`,
/// decides the error.
pub open spec fn digits_value(s: Seq<char>, radix: int, max: int) -> Result<nat, IntErrorKind>
    decreases s.len(),
{
    if s.len() == 0 {
        Ok(0)
    } else {
        match digits_value(s.drop_last(), radix, max) {
            Err(e) => Err(e),
            Ok(v) => match radix_value(s.last(), radix) {
                None => Err(IntErrorKind::InvalidDigit),
                Some(d) => if v * radix + d > max {
                    Err(IntErrorKind::PosOverflow)
                } else {
                    Ok((v * radix + d) as nat)
                },
            },
        }
    }
}

/// An unsigned number no greater than `max` read from text in the given
/// radix, as the standard library's `from_str_radix` reads it: the text may
/// begin with one `+`.
pub open spec fn parse_unsigned(s: Seq<char>, radix: int, max: int) -> Result<nat, IntErrorKind> {
    if s.len() == 0 {
        Err(IntErrorKind::Empty)
    } else {
        let digits = if s[0] == '+' {
            s.drop_first()
        } else {
            s
        };
        if digits.len() == 0 {
            Err(IntErrorKind::InvalidDigit)
        } else {
            digits_value(digits, radix, max)
        }
    }
}

pub proof fn lemma_digits_value_bound(s: Seq<char>, radix: int, max: int)
    requires
        max >= 0,
    ensures
        digits_value(s, radix, max) matches Ok(v) ==> v <= max,
    decreases s.len(),
{
    if s.len() > 0 {
        lemma_digits_value_bound(s.drop_last(), radix, max);
    }
}

proof fn lemma_digits_err(s: Seq<char>, radix: int, max: int, i: int, e: IntErrorKind)
    requires
        0 < i <= s.len(),
        digits_value(s.take(i), radix, max) == Err::<nat, IntErrorKind>(e),
    ensures
        digits_value(s, radix, max) == Err::<nat, IntErrorKind>(e),
    decreases s.len() - i,
{
    if i < s.len() {
        assert(s.take(i + 1).drop_last() =~= s.take(i));
        lemma_digits_err(s, radix, max, i + 1, e);
    } else {
        assert(s.take(i) =~= s);
    }
}

/// Reads an unsigned number no greater than `max` from `cs[from..to]` in
/// radix ten or sixteen, as `from_str_radix` does.
pub fn parse_unsigned_chars(cs: &Vec<char>, from: usize, to: usize, radix: u64, max: u64) -> (out: Result<
    u64,
    ParseIntError,
>)
    requires
        from <= to <= cs@.len(),
        radix == 10 || radix == 16,
    ensures
        match parse_unsigned(cs@.subrange(from as int, to as int), radix as int, max as int) {
            Ok(v) => out == Ok::<u64, ParseIntError>(v as u64),
            Err(k) => out == Err::<u64, ParseIntError>(ParseIntError { kind: k }),
        },
{
    let ghost s = cs@.subrange(from as int, to as int);
    if from == to {
        return Err(ParseIntError { kind: IntErrorKind::Empty });
    }
    let first: usize = if cs[from] == '+' { from + 1 } else { from };
    let ghost digits = if s[0] == '+' { s.drop_first() } else { s };
    assert(digits =~= cs@.subrange(first as int, to as int));
    if first == to {
        return Err(ParseIntError { kind: IntErrorKind::InvalidDigit });
    }
    let mut value: u64 = 0;
    let mut i: usize = first;
    while i < to
        invariant
            first <= i <= to <= cs@.len(),
            from < to,
            s == cs@.subrange(from as int, to as int),
            digits == cs@.subrange(first as int, to as int),
            digits == (if s[0] == '+' { s.drop_first() } else { s }),
            digits.len() > 0,
            radix == 10 || radix == 16,
            digits_value(digits.take(i - first), radix as int, max as int) == Ok::<nat, IntErrorKind>(
                value as nat,
            ),
        decreases to - i,
    {
        let c = cs[i];
        assert(digits.take(i + 1 - first).drop_last() =~= digits.take(i - first));
        assert(digits.take(i + 1 - first).last() == c);
        let d: u64 = if '0' <= c && c <= '9' {
            (c as u64) - ('0' as u64)
        } else if 'a' <= c && c <= 'f' {
            (c as u64) - ('a' as u64) + 10
        } else if 'A' <= c && c <= 'F' {
            (c as u64) - ('A' as u64) + 10
        } else {
            proof {
                lemma_digits_err(digits, radix as int, max as int, (i + 1 - first) as int, IntErrorKind::InvalidDigit);
            }
            return Err(ParseIntError { kind: IntErrorKind::InvalidDigit });
        };
        if d >= radix {
            proof {
                lemma_digits_err(digits, radix as int, max as int, (i + 1 - first) as int, IntErrorKind::InvalidDigit);
            }
            return Err(ParseIntError { kind: IntErrorKind::InvalidDigit });
        }
        if d > max || value > (max - d) / radix {
            proof {
                assert(value * radix + d > max) by (nonlinear_arith)
                    requires
                        d > max || value > (max - d) / (radix as int),
                        d < radix,
                        radix > 0,
                        max >= 0,
                ;
                lemma_digits_err(digits, radix as int, max as int, (i + 1 - first) as int, IntErrorKind::PosOverflow);
            }
            return Err(ParseIntError { kind: IntErrorKind::PosOverflow });
        }
        assert(value * radix + d <= max) by (nonlinear_arith)
            requires
                value <= (max - d) / (radix as int),
                d < radix,
                d <= max,
                radix > 0,
        ;
        value = value * radix + d;
        i = i + 1;
    }
    assert(digits.take(to - first) =~= digits);
    proof {
        lemma_digits_value_bound(digits, radix as int, max as int);
    }
    Ok(value)
}

/// The first position at or after `i` that holds `c`.
pub open spec fn find_char(s: Seq<char>, c: char, i: int) -> Option<int>
    decreases s.len() - i,
{
    if !(0 <= i < s.len()) {
        None
    } else if s[i] == c {
        Some(i)
    } else {
        find_char(s, c, i + 1)
    }
}

pub proof fn lemma_find_char(s: Seq<char>, c: char, i: int)
    requires
        0 <= i,
    ensures
        find_char(s, c, i) matches Some(k) ==> i <= k < s.len() && s[k] == c,
    decreases s.len() - i,
{
    if 0 <= i < s.len() && s[i] != c {
        lemma_find_char(s, c, i + 1);
    }
}

/// The first position of `c` in `cs`, if any.
pub fn find_char_index(cs: &Vec<char>, c: char) -> (out: Option<usize>)
    ensures
        match out {
            Some(k) => find_char(cs@, c, 0) == Some(k as int),
            None => find_char(cs@, c, 0) is None,
        },
{
    let mut i: usize = 0;
    while i < cs.len()
        invariant
            i <= cs@.len(),
            find_char(cs@, c, 0) == find_char(cs@, c, i as int),
        decreases cs@.len() - i,
    {
        if cs[i] == c {
            return Some(i);
        }
        i = i + 1;
    }
    None
}

/// The pieces of `s` between commas, in order.
pub open spec fn split_commas(s: Seq<char>) -> Seq<Seq<char>>
    decreases s.len(),
{
    match first_comma(s, 0) {
        None => seq![s],
        Some(k) => {
            proof {
                lemma_first_comma(s, 0);
            }
            seq![s.take(k)] + split_commas(s.skip(k + 1))
        },
    }
}

/// The first position at or after `i` that holds a comma.
pub open spec fn first_comma(s: Seq<char>, i: int) -> Option<int>
    decreases s.len() - i,
{
    if !(0 <= i < s.len()) {
        None
    } else if s[i] == ',' {
        Some(i)
    } else {
        first_comma(s, i + 1)
    }
}

pub proof fn lemma_first_comma(s: Seq<char>, i: int)
    requires
        0 <= i,
    ensures
        first_comma(s, i) matches Some(k) ==> i <= k < s.len() && s[k] == ',' && forall|j: int|
            i <= j < k ==> s[j] != ',',
        first_comma(s, i) is None ==> forall|j: int| i <= j < s.len() ==> s[j] != ',',
    decreases s.len() - i,
{
    if 0 <= i < s.len() && s[i] != ',' {
        lemma_first_comma(s, i + 1);
    }
}

proof fn lemma_first_comma_from(s: Seq<char>, i: int, j: int)
    requires
        0 <= i <= j <= s.len(),
        forall|m: int| i <= m < j ==> s[m] != ',',
    ensures
        first_comma(s, i) == first_comma(s, j),
    decreases j - i,
{
    if i < j {
        lemma_first_comma_from(s, i + 1, j);
    }
}

/// Splits `s` at its commas.
pub fn split_at_commas(s: &str) -> (out: Vec<String>)
    ensures
        strings_view(out@) == split_commas(s@),
{
    let cs = chars_of(s);
    let mut out: Vec<String> = Vec::new();
    let mut start: usize = 0;
    assert(cs@.skip(0) =~= cs@);
    assert(strings_view(out@) + split_commas(cs@) =~= split_commas(cs@));
    loop
        invariant
            start <= cs@.len(),
            cs@ == s@,
            split_commas(s@) == strings_view(out@) + split_commas(cs@.skip(start as int)),
        decreases cs@.len() - start,
    {
        let mut k = start;
        while k < cs.len() && cs[k] != ','
            invariant
                start <= k <= cs@.len(),
                forall|j: int| start <= j < k ==> cs@[j] != ',',
            decreases cs@.len() - k,
        {
            k = k + 1;
        }
        let ghost rest = cs@.skip(start as int);
        proof {
            assert forall|m: int| 0 <= m < k - start implies rest[m] != ',' by {
                assert(rest[m] == cs@[start + m]);
            }
            lemma_first_comma_from(rest, 0, k - start);
            if k < cs.len() {
                assert(rest[k - start] == cs@[k as int]);
            }
        }
        let piece = string_from_chars(&cs, start, k);
        let ghost before = out@;
        out.push(piece);
        assert(strings_view(out@) =~= strings_view(before).push(piece@));
        if k == cs.len() {
            assert(rest.take(k - start) =~= rest);
            assert(split_commas(rest) == seq![rest]);
            assert(cs@.subrange(start as int, k as int) =~= rest);
            assert(split_commas(s@) =~= strings_view(out@));
            return out;
        }
        assert(rest.take(k - start) =~= cs@.subrange(start as int, k as int));
        assert(rest.skip(k - start + 1) =~= cs@.skip(k + 1));
        start = k + 1;
    }
}

pub open spec fn strings_view(v: Seq<String>) -> Seq<Seq<char>> {
    v.map_values(|s: String| s@)
}

/// The decimal digits of `n`, without leading zeros.
pub open spec fn decimal(n: nat) -> Seq<char>
    decreases n,
{
    if n < 10 {
        seq![digit_char(n as int)]
    } else {
        decimal(n / 10).push(digit_char((n % 10) as int))
    }
}

/// The lowest `width` hexadecimal digits of `n`, most significant first.
pub open spec fn hex_width(n: nat, width: nat) -> Seq<char>
    decreases width,
{
    if width == 0 {
        Seq::empty()
    } else {
        hex_width(n / 16, (width - 1) as nat).push(digit_char((n % 16) as int))
    }
}

/// The character of a digit below sixteen.
pub fn digit(d: u64) -> (c: char)
    requires
        d < 16,
    ensures
        c == digit_char(d as int),
{
    match d {
        0 => '0',
        1 => '1',
        2 => '2',
        3 => '3',
        4 => '4',
        5 => '5',
        6 => '6',
        7 => '7',
        8 => '8',
        9 => '9',
        10 => 'a',
        11 => 'b',
        12 => 'c',
        13 => 'd',
        14 => 'e',
        _ => 'f',
    }
}

/// Appends the decimal digits of `n`.
pub fn push_decimal(s: &mut String, n: u64)
    ensures
        final(s)@ == old(s)@ + decimal(n as nat),
    decreases n,
{
    if n >= 10 {
        push_decimal(s, n / 10);
    }
    push_char(s, digit(n % 10));
    proof {
        if n >= 10 {
            assert(decimal(n as nat) == decimal((n / 10) as nat).push(digit_char((n % 10) as int)));
        } else {
            assert(n % 10 == n);
        }
    }
}

/// Appends the lowest `width` hexadecimal digits of `n`.
pub fn push_hex(s: &mut String, n: u64, width: u64)
    ensures
        final(s)@ == old(s)@ + hex_width(n as nat, width as nat),
    decreases width,
{
    if width > 0 {
        push_hex(s, n / 16, width - 1);
        push_char(s, digit(n % 16));
    }
}

} // verus!
