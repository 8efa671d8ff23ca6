//! Decimal and hexadecimal text of register numbers and values, and the
//! decimal parser that register ranges are read with.
use vstd::prelude::*;
use vstd::string::*;

verus! {

/// Whether `c` is an ASCII decimal digit.
pub open spec fn is_digit(c: char) -> bool {
    '0' <= c && c <= '9'
}

/// The value of the decimal digit `c`.
pub open spec fn digit_value(c: char) -> int {
    c as int - '0' as int
}

/// The character of the decimal digit `d` (0 to 9).
pub open spec fn digit_char(d: int) -> char {
    (d + '0' as int) as char
}

/// Shortest decimal text of `n`, as `to_string` writes an unsigned integer.
pub open spec fn decimal(n: nat) -> Seq<char>
    decreases n,
{
    if n < 10 {
        seq![digit_char(n as int)]
    } else {
        decimal(n / 10).push(digit_char((n % 10) as int))
    }
}

/// Why a decimal number could not be read as a `u16`.
#[derive(Clone, Copy, Debug, PartialEq, Eq, Structural)]
pub enum NumberError {
    /// The text was empty.
    Empty,
    /// A character is not a digit (or the text is a lone sign).
    InvalidDigit,
    /// The number does not fit in 16 bits.
    TooLarge,
}

/// Reads the digits of `d` from left to right onto the accumulated value `acc`:
/// a non-digit stops with `InvalidDigit`, a value beyond 65535 with `TooLarge`,
/// whichever comes first.
pub open spec fn fold_digits(d: Seq<char>, acc: nat) -> Result<u16, NumberError>
    decreases d.len(),
{
    if d.len() == 0 {
        Ok(acc as u16)
    } else if !is_digit(d[0]) {
        Err(NumberError::InvalidDigit)
    } else if acc * 10 + digit_value(d[0]) > 65535 {
        Err(NumberError::TooLarge)
    } else {
        fold_digits(d.drop_first(), (acc * 10 + digit_value(d[0])) as nat)
    }
}

/// What reading `s` as a `u16` gives: an empty text is `Empty`, a lone `+` or `-`
/// is `InvalidDigit`, one leading `+` is skipped, and the rest must be digits.
pub open spec fn parse_u16_spec(s: Seq<char>) -> Result<u16, NumberError> {
    if s.len() == 0 {
        Err(NumberError::Empty)
    } else if (s[0] == '+' || s[0] == '-') && s.len() == 1 {
        Err(NumberError::InvalidDigit)
    } else if s[0] == '+' {
        fold_digits(s.drop_first(), 0)
    } else {
        fold_digits(s, 0)
    }
}

/// Appends `c` to `s` (std's `String::push`).
#[verifier::external_body]
pub(crate) fn push_char(s: &mut String, c: char)
    ensures
        final(s)@ == old(s)@.push(c),
{
    s.push(c);
}

/// Appends `t` to `s`.
pub(crate) fn push_str(s: &mut String, t: &str)
    ensures
        final(s)@ == old(s)@ + t@,
{
    s.append(t);
}

fn digit_to_char(d: u16) -> (c: char)
    requires
        d < 10,
    ensures
        c == digit_char(d as int),
{
    let b: u8 = 48u8 + (d as u8);
    b as char
}

/// Appends the decimal text of `n` to `s`.
pub fn push_decimal(s: &mut String, n: u16)
    ensures
        final(s)@ == old(s)@ + decimal(n as nat),
    decreases n,
{
    if n >= 10 {
        push_decimal(s, n / 10);
    }
    let c = digit_to_char(n % 10);
    push_char(s, c);
    proof {
        if n >= 10 {
            assert(decimal(n as nat) == decimal((n / 10) as nat).push(c));
        }
    }
}

/// The decimal text of `n`, as `n.to_string()` gives it.
pub fn decimal_string(n: u16) -> (s: String)
    ensures
        s@ == decimal(n as nat),
{
    let mut s = String::new();
    push_decimal(&mut s, n);
    s
}

/// Reads the characters `from..to` of `s` as a `u16`, as `str::parse::<u16>` does.
pub fn parse_u16_in(s: &str, from: usize, to: usize) -> (r: Result<u16, NumberError>)
    requires
        from <= to <= s@.len(),
    ensures
        r == parse_u16_spec(s@.subrange(from as int, to as int)),
{
    let ghost t = s@.subrange(from as int, to as int);
    if from == to {
        return Err(NumberError::Empty);
    }
    let c0 = s.get_char(from);
    if (c0 == '+' || c0 == '-') && to - from == 1 {
        return Err(NumberError::InvalidDigit);
    }
    let start = if c0 == '+' { from + 1 } else { from };
    proof {
        if c0 == '+' {
            assert(t.drop_first() =~= s@.subrange(start as int, to as int));
        } else {
            assert(t =~= s@.subrange(start as int, to as int));
        }
    }
    let mut acc: u32 = 0;
    let mut i = start;
    while i < to
        invariant
            from <= start <= i <= to <= s@.len(),
            acc <= 65535,
            t == s@.subrange(from as int, to as int),
            parse_u16_spec(t) == fold_digits(s@.subrange(i as int, to as int), acc as nat),
        decreases to - i,
    {
        let c = s.get_char(i);
        let ghost rest = s@.subrange(i as int, to as int);
        assert(rest[0] == c);
        assert(rest.drop_first() =~= s@.subrange(i + 1, to as int));
        if !('0' <= c && c <= '9') {
            return Err(NumberError::InvalidDigit);
        }
        let d = (c as u32) - 48;
        if acc * 10 + d > 65535 {
            return Err(NumberError::TooLarge);
        }
        acc = acc * 10 + d;
        i = i + 1;
    }
    assert(s@.subrange(i as int, to as int).len() == 0);
    Ok(acc as u16)
}

/// One step of `fold_digits`: the digit `c` appended to the value `m`.
pub open spec fn fold_step(m: nat, c: char) -> Result<u16, NumberError> {
    if !is_digit(c) {
        Err(NumberError::InvalidDigit)
    } else if m * 10 + digit_value(c) > 65535 {
        Err(NumberError::TooLarge)
    } else {
        Ok((m * 10 + digit_value(c)) as u16)
    }
}

proof fn lemma_fold_push(d: Seq<char>, c: char, acc: nat)
    requires
        acc <= 65535,
    ensures
        fold_digits(d.push(c), acc) == match fold_digits(d, acc) {
            Ok(m) => fold_step(m as nat, c),
            Err(e) => Err(e),
        },
    decreases d.len(),
{
    if d.len() == 0 {
        assert(d.push(c).drop_first() =~= Seq::<char>::empty());
        assert(d.push(c)[0] == c);
        reveal_with_fuel(fold_digits, 2);
    } else {
        assert(d.push(c)[0] == d[0]);
        assert(d.push(c).drop_first() =~= d.drop_first().push(c));
        if is_digit(d[0]) && acc * 10 + digit_value(d[0]) <= 65535 {
            lemma_fold_push(d.drop_first(), c, (acc * 10 + digit_value(d[0])) as nat);
        }
    }
}

/// Every character of `decimal(n)` is a digit, and there is at least one.
pub proof fn lemma_decimal_digits(n: nat)
    ensures
        decimal(n).len() >= 1,
        forall|i: int| 0 <= i < decimal(n).len() ==> is_digit(#[trigger] decimal(n)[i]),
    decreases n,
{
    if n >= 10 {
        lemma_decimal_digits(n / 10);
    }
}

/// The decimal text of a `u16` has at most five digits.
pub proof fn lemma_decimal_len(n: nat)
    ensures
        n < 10 ==> decimal(n).len() == 1,
        n < 100 ==> decimal(n).len() <= 2,
        n < 1000 ==> decimal(n).len() <= 3,
        n < 10000 ==> decimal(n).len() <= 4,
        n < 100000 ==> decimal(n).len() <= 5,
    decreases n,
{
    if n >= 10 {
        lemma_decimal_len(n / 10);
    }
}

proof fn lemma_digit_roundtrip(d: int)
    requires
        0 <= d < 10,
    ensures
        is_digit(digit_char(d)),
        digit_value(digit_char(d)) == d,
{
}

proof fn lemma_decimal_fold(n: nat)
    requires
        n <= 65535,
    ensures
        fold_digits(decimal(n), 0) == Ok::<u16, NumberError>(n as u16),
    decreases n,
{
    if n < 10 {
        lemma_digit_roundtrip(n as int);
        assert(decimal(n).drop_first() =~= Seq::<char>::empty());
        reveal_with_fuel(fold_digits, 2);
    } else {
        lemma_decimal_fold(n / 10);
        lemma_digit_roundtrip((n % 10) as int);
        lemma_fold_push(decimal(n / 10), digit_char((n % 10) as int), 0);
    }
}

/// Reading back the decimal text of a `u16` gives the number itself.
pub proof fn law_decimal_roundtrip(n: u16)
    ensures
        parse_u16_spec(decimal(n as nat)) == Ok::<u16, NumberError>(n),
{
    lemma_decimal_digits(n as nat);
    lemma_decimal_fold(n as nat);
    assert(is_digit(decimal(n as nat)[0]));
}

} // verus!
