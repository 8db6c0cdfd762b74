use vstd::prelude::*;
use vstd::string::StringSliceAdditionalSpecFns;
use vstd::string::StringExecFns;

verus! {

/// Why a decimal integer could not be read from a string.
#[derive(Clone, Copy, Debug, PartialEq, Eq, Structural)]
pub enum ParseFailure {
    /// The string was empty.
    Empty,
    /// A character other than a decimal digit (or a lone sign) was found.
    InvalidDigit,
    /// The number is larger than the target type allows.
    PosOverflow,
    /// The number is smaller than the target type allows.
    NegOverflow,
}

/// Whether the byte is an ASCII decimal digit.
pub open spec fn is_digit(c: u8) -> bool {
    48 <= c <= 57
}

/// Reads the decimal digits `d` after the sign, starting from the accumulated value `acc`,
/// failing at the first non-digit or at the first step that leaves `[lo, hi]`.
pub open spec fn scan_digits(d: Seq<u8>, acc: int, neg: bool, lo: int, hi: int) -> Result<int, ParseFailure>
    decreases d.len(),
{
    if d.len() == 0 {
        Ok(acc)
    } else if !is_digit(d[0]) {
        Err(ParseFailure::InvalidDigit)
    } else {
        let next = if neg { acc * 10 - (d[0] - 48) } else { acc * 10 + (d[0] - 48) };
        if next < lo {
            Err(ParseFailure::NegOverflow)
        } else if next > hi {
            Err(ParseFailure::PosOverflow)
        } else {
            scan_digits(d.drop_first(), next, neg, lo, hi)
        }
    }
}

/// The outcome of reading the bytes `b` as a decimal integer of the range `[lo, hi]`:
/// an optional `+` sign (or `-` where the range holds negative numbers), then digits.
pub open spec fn parse_decimal_spec(b: Seq<u8>, lo: int, hi: int) -> Result<int, ParseFailure> {
    if b.len() == 0 {
        Err(ParseFailure::Empty)
    } else if b.len() == 1 && (b[0] == 43 || b[0] == 45) {
        Err(ParseFailure::InvalidDigit)
    } else if b[0] == 43 {
        scan_digits(b.drop_first(), 0, false, lo, hi)
    } else if b[0] == 45 && lo < 0 {
        scan_digits(b.drop_first(), 0, true, lo, hi)
    } else {
        scan_digits(b, 0, false, lo, hi)
    }
}

/// The outcome of reading the string `s` as a decimal integer of the range `[lo, hi]`.
pub open spec fn parse_str_spec(s: &str, lo: int, hi: int) -> Result<int, ParseFailure> {
    parse_decimal_spec(s.spec_bytes(), lo, hi)
}

/// A successful scan stays within the range.
proof fn lemma_scan_in_range(d: Seq<u8>, acc: int, neg: bool, lo: int, hi: int)
    requires
        lo <= acc <= hi,
    ensures
        scan_digits(d, acc, neg, lo, hi) matches Ok(v) ==> lo <= v <= hi,
    decreases d.len(),
{
    if d.len() > 0 && is_digit(d[0]) {
        let next = if neg { acc * 10 - (d[0] - 48) } else { acc * 10 + (d[0] - 48) };
        if lo <= next <= hi {
            lemma_scan_in_range(d.drop_first(), next, neg, lo, hi);
        }
    }
}

/// Reads the digits `d[start..]` as `scan_digits` does.
fn scan_exec(d: &[u8], start: usize, neg: bool, lo: i128, hi: i128) -> (r: Result<i128, ParseFailure>)
    requires
        start <= d@.len(),
        lo <= 0 <= hi,
        -0x1_0000_0000_0000_0000 <= lo,
        hi <= 0x1_0000_0000_0000_0000,
    ensures
        match scan_digits(d@.skip(start as int), 0, neg, lo as int, hi as int) {
            Ok(v) => r == Ok::<i128, ParseFailure>(v as i128),
            Err(f) => r == Err::<i128, ParseFailure>(f),
        },
{
    let mut acc: i128 = 0;
    let mut i: usize = start;
    while i < d.len()
        invariant
            start <= i <= d@.len(),
            lo <= acc <= hi,
            lo <= 0 <= hi,
            -0x1_0000_0000_0000_0000 <= lo,
            hi <= 0x1_0000_0000_0000_0000,
            scan_digits(d@.skip(start as int), 0, neg, lo as int, hi as int) == scan_digits(
                d@.skip(i as int),
                acc as int,
                neg,
                lo as int,
                hi as int,
            ),
        decreases d@.len() - i,
    {
        let c = d[i];
        proof {
            assert(d@.skip(i as int)[0] == c);
            assert(d@.skip(i as int).drop_first() =~= d@.skip(i + 1));
        }
        if c < 48 || c > 57 {
            return Err(ParseFailure::InvalidDigit);
        }
        let x: i128 = (c - 48) as i128;
        let next: i128 = if neg { acc * 10 - x } else { acc * 10 + x };
        if next < lo {
            return Err(ParseFailure::NegOverflow);
        }
        if next > hi {
            return Err(ParseFailure::PosOverflow);
        }
        acc = next;
        i += 1;
    }
    proof {
        assert(d@.skip(i as int).len() == 0);
    }
    Ok(acc)
}

/// Reads `s` as a decimal integer of the range `[lo, hi]`, the way the standard
/// library reads integers from strings.
pub fn parse_decimal(s: &str, lo: i128, hi: i128) -> (r: Result<i128, ParseFailure>)
    requires
        lo <= 0 <= hi,
        -0x1_0000_0000_0000_0000 <= lo,
        hi <= 0x1_0000_0000_0000_0000,
    ensures
        match parse_str_spec(s, lo as int, hi as int) {
            Ok(v) => r == Ok::<i128, ParseFailure>(v as i128) && lo <= v <= hi,
            Err(f) => r == Err::<i128, ParseFailure>(f),
        },
{
    let b = s.as_bytes();
    proof {
        assert(b@.skip(0) =~= b@);
        if b@.len() > 0 {
            assert(b@.skip(1) =~= b@.drop_first());
        }
        lemma_scan_in_range(b@, 0, false, lo as int, hi as int);
        if b@.len() > 0 {
            lemma_scan_in_range(b@.drop_first(), 0, false, lo as int, hi as int);
            lemma_scan_in_range(b@.drop_first(), 0, true, lo as int, hi as int);
        }
    }
    if b.len() == 0 {
        return Err(ParseFailure::Empty);
    }
    if b.len() == 1 && (b[0] == 43 || b[0] == 45) {
        return Err(ParseFailure::InvalidDigit);
    }
    if b[0] == 43 {
        scan_exec(b, 1, false, lo, hi)
    } else if b[0] == 45 && lo < 0 {
        scan_exec(b, 1, true, lo, hi)
    } else {
        scan_exec(b, 0, false, lo, hi)
    }
}

/// The standard library's description of each failure.
pub open spec fn failure_text(f: ParseFailure) -> Seq<char> {
    match f {
        ParseFailure::Empty => "cannot parse integer from empty string"@,
        ParseFailure::InvalidDigit => "invalid digit found in string"@,
        ParseFailure::PosOverflow => "number too large to fit in target type"@,
        ParseFailure::NegOverflow => "number too small to fit in target type"@,
    }
}

impl ParseFailure {
    /// The standard library's description of this failure.
    pub fn text(&self) -> (r: &'static str)
        ensures
            r@ == failure_text(*self),
    {
        match self {
            ParseFailure::Empty => "cannot parse integer from empty string",
            ParseFailure::InvalidDigit => "invalid digit found in string",
            ParseFailure::PosOverflow => "number too large to fit in target type",
            ParseFailure::NegOverflow => "number too small to fit in target type",
        }
    }
}


/// The character of the decimal digit `d`.
pub open spec fn digit_char(d: nat) -> char {
    if d == 0 {
        '0'
    } else if d == 1 {
        '1'
    } else if d == 2 {
        '2'
    } else if d == 3 {
        '3'
    } else if d == 4 {
        '4'
    } else if d == 5 {
        '5'
    } else if d == 6 {
        '6'
    } else if d == 7 {
        '7'
    } else if d == 8 {
        '8'
    } else {
        '9'
    }
}

/// The decimal text of `n`: its digits, most significant first, without leading zeros.
pub open spec fn decimal_text(n: nat) -> Seq<char>
    decreases n,
{
    if n < 10 {
        seq![digit_char(n)]
    } else {
        decimal_text(n / 10).push(digit_char(n % 10))
    }
}

/// The text of the decimal digit `d`.
fn digit_text(d: u128) -> (r: &'static str)
    requires
        d < 10,
    ensures
        r@ == seq![digit_char(d as nat)],
{
    if d == 0 {
        proof { reveal_strlit("0"); }
        "0"
    } else if d == 1 {
        proof { reveal_strlit("1"); }
        "1"
    } else if d == 2 {
        proof { reveal_strlit("2"); }
        "2"
    } else if d == 3 {
        proof { reveal_strlit("3"); }
        "3"
    } else if d == 4 {
        proof { reveal_strlit("4"); }
        "4"
    } else if d == 5 {
        proof { reveal_strlit("5"); }
        "5"
    } else if d == 6 {
        proof { reveal_strlit("6"); }
        "6"
    } else if d == 7 {
        proof { reveal_strlit("7"); }
        "7"
    } else if d == 8 {
        proof { reveal_strlit("8"); }
        "8"
    } else {
        proof { reveal_strlit("9"); }
        "9"
    }
}

/// The decimal text of `n`.
pub fn decimal_string(n: u128) -> (r: String)
    ensures
        r@ == decimal_text(n as nat),
    decreases n,
{
    if n < 10 {
        digit_text(n).to_owned()
    } else {
        let mut s = decimal_string(n / 10);
        s.append(digit_text(n % 10));
        s
    }
}

/// The ASCII decimal digits of `n`, most significant first, without leading zeros: the
/// bytes of its decimal text.
pub open spec fn decimal_bytes(n: nat) -> Seq<u8>
    decreases n,
{
    if n < 10 {
        seq![(48 + n) as u8]
    } else {
        decimal_bytes(n / 10).push((48 + n % 10) as u8)
    }
}

/// Scanning a digit string with one more byte at its end scans the string, then that
/// byte from the value reached.
proof fn lemma_scan_push(d: Seq<u8>, x: u8, acc: int, neg: bool, lo: int, hi: int)
    ensures
        scan_digits(d.push(x), acc, neg, lo, hi) == match scan_digits(d, acc, neg, lo, hi) {
            Ok(v) => scan_digits(seq![x], v, neg, lo, hi),
            Err(f) => Err(f),
        },
    decreases d.len(),
{
    if d.len() == 0 {
        assert(d.push(x) =~= seq![x]);
    } else {
        assert(d.push(x)[0] == d[0]);
        assert(d.push(x).drop_first() =~= d.drop_first().push(x));
        if is_digit(d[0]) {
            let next = if neg { acc * 10 - (d[0] - 48) } else { acc * 10 + (d[0] - 48) };
            lemma_scan_push(d.drop_first(), x, next, neg, lo, hi);
        }
    }
}

/// The digits of `n` scanned with sign `neg` give `n` (or `-n`) when that lies in range.
proof fn lemma_scan_decimal(n: nat, neg: bool, lo: int, hi: int)
    requires
        lo <= 0 <= hi,
        neg ==> lo <= -n,
        !neg ==> n <= hi,
    ensures
        scan_digits(decimal_bytes(n), 0, neg, lo, hi) == Ok::<int, ParseFailure>(if neg { -n } else { n as int }),
    decreases n,
{
    if n < 10 {
        let b = decimal_bytes(n);
        assert(b[0] == (48 + n) as u8);
        assert(b[0] as int == 48 + n);
        assert(is_digit(b[0]));
        assert(b.drop_first() =~= Seq::<u8>::empty());
        assert(scan_digits(b.drop_first(), if neg { -n } else { n as int }, neg, lo, hi) == Ok::<int, ParseFailure>(if neg { -n } else { n as int }));
    } else {
        let q = n / 10;
        let r = n % 10;
        vstd::arithmetic::div_mod::lemma_fundamental_div_mod(n as int, 10);
        assert(q <= n);
        lemma_scan_decimal(q, neg, lo, hi);
        let x = (48 + r) as u8;
        lemma_scan_push(decimal_bytes(q), x, 0, neg, lo, hi);
        let v: int = if neg { -q } else { q as int };
        let next = if neg { v * 10 - (x - 48) } else { v * 10 + (x - 48) };
        assert(x as int == 48 + r);
        assert(next == if neg { -n } else { n as int });
        assert(seq![x].drop_first() =~= Seq::<u8>::empty());
        assert(seq![x][0] == x);
        assert(scan_digits(seq![x].drop_first(), next, neg, lo, hi) == Ok::<int, ParseFailure>(next));
    }
}

/// Reading the decimal text of a number gives that number back: the digits of any `n`
/// in `[0, hi]` read as `n`, and, where the range holds negative numbers, a minus sign
/// followed by the digits of any `n` with `-n` in range reads as `-n`.
pub proof fn law_parse_reads_decimal_text(n: nat, lo: int, hi: int)
    requires
        lo <= 0 <= hi,
    ensures
        n <= hi ==> parse_decimal_spec(decimal_bytes(n), lo, hi) == Ok::<int, ParseFailure>(n as int),
        lo < 0 && lo <= -n ==> parse_decimal_spec(seq![45u8] + decimal_bytes(n), lo, hi) == Ok::<int, ParseFailure>(-n),
{
    lemma_decimal_bytes_digits(n);
    if n <= hi {
        lemma_scan_decimal(n, false, lo, hi);
    }
    if lo < 0 && lo <= -n {
        lemma_scan_decimal(n, true, lo, hi);
        let b = seq![45u8] + decimal_bytes(n);
        assert(b.drop_first() =~= decimal_bytes(n));
        assert(b[0] == 45u8);
    }
}

/// The digits of `n` are a non-empty string that starts with a digit.
proof fn lemma_decimal_bytes_digits(n: nat)
    ensures
        decimal_bytes(n).len() >= 1,
        is_digit(decimal_bytes(n)[0]),
    decreases n,
{
    if n >= 10 {
        lemma_decimal_bytes_digits(n / 10);
        assert(decimal_bytes(n)[0] == decimal_bytes(n / 10)[0]);
    }
}

} // verus!
