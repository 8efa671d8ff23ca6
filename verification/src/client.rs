//! Register ranges as the command line names them ("40001-40010"), and the
//! numbering of values that a poll returns.
use vstd::prelude::*;
use vstd::string::*;
use crate::text::{decimal, is_digit, lemma_decimal_digits, law_decimal_roundtrip, parse_u16_in, parse_u16_spec, NumberError};

verus! {

/// The first register number of the holding-register bank (offset 0).
pub const FIRST_REGISTER: u16 = 40001;

/// Why a register range was refused.
#[derive(Clone, Copy, Debug, PartialEq, Eq, Structural)]
pub enum RangeError {
    /// The text holds no `-` between the two numbers.
    MissingSeparator,
    /// One of the two numbers is not a valid `u16`.
    BadNumber(NumberError),
    /// The range does not start at 40001 or above, or starts after it ends.
    OutOfRange,
}

/// What happened in one step of a polling loop.
pub enum PollEvent {
    /// The connection to the device was opened.
    Connected,
    /// The connection could not be opened; the error's text.
    ConnectFailed(String),
    /// A poll returned these (register, value) pairs.
    Polled(Vec<(u16, u16)>),
    /// A poll failed; the error's text.
    PollFailed(String),
}

/// What a polling loop does next.
#[derive(Clone, Copy, Debug, PartialEq, Eq, Structural)]
pub enum NextStep {
    /// Poll at once.
    Poll,
    /// Wait one poll interval, then poll.
    PollAfterInterval,
    /// Open a new connection at once.
    Reconnect,
    /// Wait one poll interval, then open a new connection.
    ReconnectAfterInterval,
    /// Wait `RETRY_DELAY_SECS` seconds, then open a new connection.
    ReconnectAfterRetryDelay,
}

/// Seconds the logger waits before it retries a failed connection.
pub const RETRY_DELAY_SECS: u64 = 2;

/// Index of the first `-` in `s`, if any.
pub open spec fn dash_index(s: Seq<char>) -> Option<int>
    decreases s.len(),
{
    if s.len() == 0 {
        None
    } else if s[0] == '-' {
        Some(0)
    } else {
        match dash_index(s.drop_first()) {
            Some(i) => Some(i + 1),
            None => None,
        }
    }
}

/// What reading `s` as a register range gives: the text is cut at its first
/// `-`, both halves are read as `u16`, and the start must be at least 40001 and
/// at most the end.
pub open spec fn register_range_spec(s: Seq<char>) -> Result<(u16, u16), RangeError> {
    match dash_index(s) {
        None => Err(RangeError::MissingSeparator),
        Some(i) => match parse_u16_spec(s.take(i)) {
            Err(e) => Err(RangeError::BadNumber(e)),
            Ok(start) => match parse_u16_spec(s.skip(i + 1)) {
                Err(e) => Err(RangeError::BadNumber(e)),
                Ok(end) => if start < FIRST_REGISTER || start > end {
                    Err(RangeError::OutOfRange)
                } else {
                    Ok((start, end))
                },
            },
        },
    }
}

/// `dash_index` is the position of the first `-`.
pub proof fn lemma_dash_index(s: Seq<char>)
    ensures
        match dash_index(s) {
            Some(i) => 0 <= i < s.len() && s[i] == '-' && forall|j: int| 0 <= j < i ==> s[j] != '-',
            None => forall|j: int| 0 <= j < s.len() ==> s[j] != '-',
        },
    decreases s.len(),
{
    if s.len() > 0 && s[0] != '-' {
        lemma_dash_index(s.drop_first());
        assert forall|j: int| 1 <= j < s.len() implies s[j] == s.drop_first()[j - 1] by {}
    }
}

/// Parse "40001-40010" into (40001, 40010).
pub fn parse_register_range(spec: &str) -> (r: Result<(u16, u16), RangeError>)
    ensures
        r == register_range_spec(spec@),
{
    let n = spec.unicode_len();
    let mut i: usize = 0;
    while i < n
        invariant
            n == spec@.len(),
            i <= n,
            forall|j: int| 0 <= j < i ==> spec@[j] != '-',
        ensures
            i <= n,
            forall|j: int| 0 <= j < i ==> spec@[j] != '-',
            i < n ==> spec@[i as int] == '-',
        decreases n - i,
    {
        if spec.get_char(i) == '-' {
            break;
        }
        i = i + 1;
    }
    proof {
        lemma_dash_index(spec@);
    }
    if i == n {
        return Err(RangeError::MissingSeparator);
    }
    proof {
        assert(dash_index(spec@) == Some(i as int)) by {
            match dash_index(spec@) {
                Some(k) => {
                    if k < i {
                    } else if k > i {
                    }
                },
                None => {},
            }
        }
        assert(spec@.take(i as int) =~= spec@.subrange(0, i as int));
        assert(spec@.skip(i + 1) =~= spec@.subrange(i + 1, n as int));
    }
    let start = match parse_u16_in(spec, 0, i) {
        Ok(v) => v,
        Err(e) => return Err(RangeError::BadNumber(e)),
    };
    let end = match parse_u16_in(spec, i + 1, n) {
        Ok(v) => v,
        Err(e) => return Err(RangeError::BadNumber(e)),
    };
    if start < FIRST_REGISTER || start > end {
        return Err(RangeError::OutOfRange);
    }
    Ok((start, end))
}

/// The text of a range, `start` and `end` in decimal around a `-`.
pub open spec fn range_text(start: u16, end: u16) -> Seq<char> {
    decimal(start as nat) + seq!['-'] + decimal(end as nat)
}

/// Writing a range as "START-END" and reading it back gives the range when it
/// starts at 40001 or above and no later than it ends, and `OutOfRange` else.
pub proof fn law_range_roundtrip(start: u16, end: u16)
    ensures
        register_range_spec(range_text(start, end)) == if start < FIRST_REGISTER || start > end {
            Err::<(u16, u16), RangeError>(RangeError::OutOfRange)
        } else {
            Ok((start, end))
        },
{
    let a = decimal(start as nat);
    let b = decimal(end as nat);
    let s = range_text(start, end);
    let l = a.len() as int;
    lemma_decimal_digits(start as nat);
    lemma_decimal_digits(end as nat);
    lemma_dash_index(s);
    assert(s[l] == '-');
    assert forall|j: int| 0 <= j < l implies s[j] != '-' by {
        assert(s[j] == a[j]);
        assert(is_digit(a[j]));
    }
    assert(dash_index(s) == Some(l)) by {
        match dash_index(s) {
            Some(k) => {
                if k < l {
                    assert(s[k] != '-');
                }
            },
            None => {},
        }
    }
    assert(s.take(l) =~= a);
    assert(s.skip(l + 1) =~= b);
    law_decimal_roundtrip(start);
    law_decimal_roundtrip(end);
}

/// Number of registers in the range `start..=end`.
pub fn register_count(start: u16, end: u16) -> (count: u16)
    requires
        start <= end,
        end - start < 65535,
    ensures
        count == end - start + 1,
{
    end - start + 1
}

/// Zero-based protocol address of a register number (40001 is address 0).
pub fn register_offset(register: u16) -> (address: u16)
    requires
        register >= FIRST_REGISTER,
    ensures
        address == register - FIRST_REGISTER,
{
    register - FIRST_REGISTER
}

/// The values read from `start_register` on, each paired with its register number.
pub open spec fn numbered(start_register: u16, values: Seq<u16>) -> Seq<(u16, u16)> {
    Seq::new(values.len(), |i: int| ((start_register + i) as u16, values[i]))
}

/// Pairs each polled value with its register number: the `i`-th value read
/// from `start_register` belongs to register `start_register + i`.
pub fn number_registers(start_register: u16, values: &[u16]) -> (pairs: Vec<(u16, u16)>)
    requires
        start_register + values@.len() <= 65536,
    ensures
        pairs@ == numbered(start_register, values@),
{
    let mut pairs: Vec<(u16, u16)> = Vec::new();
    let mut i: usize = 0;
    while i < values.len()
        invariant
            start_register + values@.len() <= 65536,
            i <= values@.len(),
            pairs@.len() == i,
            forall|k: int| 0 <= k < i ==> #[trigger] pairs@[k] == (
                (start_register + k) as u16,
                values@[k],
            ),
        decreases values@.len() - i,
    {
        pairs.push((start_register + i as u16, values[i]));
        i = i + 1;
    }
    assert(pairs@ =~= numbered(start_register, values@));
    pairs
}

} // verus!
