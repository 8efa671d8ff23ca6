//! CSV logging of polled registers: a header naming the registers, then one
//! timestamped row of values per poll.
use vstd::prelude::*;
use vstd::utf8::encode_utf8;
use crate::clock::{is_rfc3339_text, now_rfc3339};
use crate::text::{decimal, decimal_string, is_digit, lemma_decimal_digits};
use crate::client::{NextStep, PollEvent};

verus! {

/// The texts of `fields`.
pub open spec fn field_texts(fields: Seq<String>) -> Seq<Seq<char>> {
    fields.map_values(|f: String| f@)
}

/// Whether `f` holds none of the characters that make csv quote a field: the
/// delimiter `,`, the quote `"`, and the line ends `\n` and `\r`.
pub open spec fn plain_field(f: Seq<char>) -> bool {
    forall|i: int| 0 <= i < f.len() ==> f[i] != ',' && f[i] != '"' && f[i] != '\n' && f[i] != '\r'
}

/// `f` with every `"` doubled.
pub open spec fn double_quotes(f: Seq<char>) -> Seq<char>
    decreases f.len(),
{
    if f.len() == 0 {
        Seq::empty()
    } else {
        (if f[0] == '"' {
            seq!['"', '"']
        } else {
            seq![f[0]]
        }) + double_quotes(f.drop_first())
    }
}

/// One field as csv writes it by default: as it is where it needs no quotes,
/// else between quotes with its quotes doubled.
pub open spec fn csv_field(f: Seq<char>) -> Seq<char> {
    if plain_field(f) {
        f
    } else {
        seq!['"'] + double_quotes(f) + seq!['"']
    }
}

/// The text of one record as csv writes it by default (`,` between fields,
/// `"` quoting where necessary, `\n` at the end); a record that would write
/// nothing (no field, or one empty field) is written as an empty quoted field.
pub open spec fn csv_record_text(fields: Seq<Seq<char>>) -> Seq<char> {
    if fields.len() == 0 || (fields.len() == 1 && fields[0].len() == 0) {
        seq!['"', '"', '\n']
    } else {
        join_fields(fields.map_values(|f: Seq<char>| csv_field(f))) + seq!['\n']
    }
}

/// The bytes of one record as csv writes it by default: `csv_record_text`,
/// UTF-8 encoded.
pub open spec fn csv_record_bytes(fields: Seq<Seq<char>>) -> Seq<u8> {
    encode_utf8(csv_record_text(fields))
}

/// The fields joined by commas.
pub open spec fn join_fields(fields: Seq<Seq<char>>) -> Seq<char>
    decreases fields.len(),
{
    if fields.len() == 0 {
        Seq::empty()
    } else if fields.len() == 1 {
        fields[0]
    } else {
        join_fields(fields.drop_last()) + seq![','] + fields.last()
    }
}

/// Whether csv writes the record `fields` without any quotes: it has a field,
/// no field needs quoting, and it is not a single empty field.
pub open spec fn unquoted_record(fields: Seq<Seq<char>>) -> bool {
    &&& fields.len() >= 1
    &&& forall|i: int| 0 <= i < fields.len() ==> plain_field(#[trigger] fields[i])
    &&& !(fields.len() == 1 && fields[0].len() == 0)
}

/// Writes the record `fields` with a csv `Writer` (headers off, other settings
/// default) into memory and returns the bytes: `csv_record_bytes`, the quoting
/// rule of `QuoteStyle::Necessary` with doubled quotes and the `\n`
/// terminator. A writer into a `Vec` has no I/O error and a first record has no
/// length to disagree with, so the result is always `Some`.
#[verifier::external_body]
fn csv_encode(fields: &Vec<String>) -> (bytes: Option<Vec<u8>>)
    ensures
        bytes is Some,
        bytes matches Some(b) ==> b@ == csv_record_bytes(field_texts(fields@)),
{
    let mut writer = csv::WriterBuilder::new().has_headers(false).from_writer(Vec::new());
    match writer.write_record(fields) {
        Ok(()) => {},
        Err(_) => return None,
    }
    match writer.into_inner() {
        Ok(b) => Some(b),
        Err(_) => None,
    }
}

/// A record of fields that need no quotes is written as the fields joined by
/// commas and a `\n`.
pub proof fn lemma_unquoted_record(fields: Seq<Seq<char>>)
    requires
        unquoted_record(fields),
    ensures
        csv_record_text(fields) == join_fields(fields) + seq!['\n'],
{
    assert(fields.map_values(|f: Seq<char>| csv_field(f)) =~= fields) by {
        assert forall|i: int| 0 <= i < fields.len() implies fields.map_values(|f: Seq<char>| csv_field(f))[i]
            == fields[i] by {
            assert(plain_field(fields[i]));
        }
    }
}

/// The header fields of a log of `values`: "timestamp", then each register
/// number in decimal.
pub open spec fn header_fields(values: Seq<(u16, u16)>) -> Seq<Seq<char>> {
    seq![seq!['t', 'i', 'm', 'e', 's', 't', 'a', 'm', 'p']] + Seq::new(
        values.len(),
        |i: int| decimal(values[i].0 as nat),
    )
}

/// The fields of one logged row: the timestamp, then each value in decimal.
pub open spec fn row_fields(timestamp: Seq<char>, values: Seq<(u16, u16)>) -> Seq<Seq<char>> {
    seq![timestamp] + Seq::new(values.len(), |i: int| decimal(values[i].1 as nat))
}

/// The columns of the log line up: the header and every row have one field
/// for the timestamp and one per register, and column `k + 1` of the header
/// names the register whose value stands in column `k + 1` of the row.
pub proof fn law_log_columns_align(timestamp: Seq<char>, values: Seq<(u16, u16)>)
    ensures
        header_fields(values).len() == values.len() + 1,
        row_fields(timestamp, values).len() == values.len() + 1,
        row_fields(timestamp, values)[0] == timestamp,
        forall|k: int|
            0 <= k < values.len() ==> #[trigger] header_fields(values)[k + 1] == decimal(values[k].0 as nat)
                && row_fields(timestamp, values)[k + 1] == decimal(values[k].1 as nat),
{
}

proof fn lemma_header_unquoted(values: Seq<(u16, u16)>)
    ensures
        unquoted_record(header_fields(values)),
{
    let h = header_fields(values);
    assert forall|i: int| 0 <= i < h.len() implies plain_field(#[trigger] h[i]) by {
        if i > 0 {
            lemma_decimal_digits(values[i - 1].0 as nat);
            assert(h[i] == decimal(values[i - 1].0 as nat));
            assert forall|k: int| 0 <= k < h[i].len() implies is_digit(#[trigger] h[i][k]) by {}
        }
    }
}

/// The header record of a log of `values`.
pub fn header_record(values: &[(u16, u16)]) -> (fields: Vec<String>)
    ensures
        field_texts(fields@) == header_fields(values@),
{
    let mut fields: Vec<String> = Vec::new();
    let mut first = String::new();
    crate::text::push_str(&mut first, "timestamp");
    proof {
        reveal_strlit("timestamp");
    }
    fields.push(first);
    let mut i: usize = 0;
    while i < values.len()
        invariant
            i <= values@.len(),
            fields@.len() == i + 1,
            fields@[0]@ == seq!['t', 'i', 'm', 'e', 's', 't', 'a', 'm', 'p'],
            forall|k: int| 0 <= k < i ==> #[trigger] fields@[k + 1]@ == decimal(values@[k].0 as nat),
        decreases values@.len() - i,
    {
        fields.push(decimal_string(values[i].0));
        i = i + 1;
    }
    assert(field_texts(fields@) =~= header_fields(values@)) by {
        assert forall|k: int| 0 <= k < fields@.len() implies #[trigger] field_texts(fields@)[k] == header_fields(values@)[k] by {
            if k > 0 {
                assert(fields@[(k - 1) + 1]@ == decimal(values@[k - 1].0 as nat));
            }
        }
    }
    fields
}

/// The record of one poll of `values` at `timestamp`.
pub fn data_record(timestamp: &str, values: &[(u16, u16)]) -> (fields: Vec<String>)
    ensures
        field_texts(fields@) == row_fields(timestamp@, values@),
{
    let mut fields: Vec<String> = Vec::new();
    let mut first = String::new();
    crate::text::push_str(&mut first, timestamp);
    fields.push(first);
    let mut i: usize = 0;
    while i < values.len()
        invariant
            i <= values@.len(),
            fields@.len() == i + 1,
            fields@[0]@ == timestamp@,
            forall|k: int| 0 <= k < i ==> #[trigger] fields@[k + 1]@ == decimal(values@[k].1 as nat),
        decreases values@.len() - i,
    {
        fields.push(decimal_string(values[i].1));
        i = i + 1;
    }
    assert(field_texts(fields@) =~= row_fields(timestamp@, values@)) by {
        assert forall|k: int| 0 <= k < fields@.len() implies #[trigger] field_texts(fields@)[k] == row_fields(timestamp@, values@)[k] by {
            if k > 0 {
                assert(fields@[(k - 1) + 1]@ == decimal(values@[k - 1].1 as nat));
            }
        }
    }
    fields
}

/// The bytes that one poll of `values` at `timestamp` appends to the log: the
/// header record first when the log file is new, then the row.
pub open spec fn log_bytes_spec(write_header: bool, timestamp: Seq<char>, values: Seq<(u16, u16)>) -> Seq<u8> {
    (if write_header {
        csv_record_bytes(header_fields(values))
    } else {
        Seq::empty()
    }) + csv_record_bytes(row_fields(timestamp, values))
}

/// The bytes to append to the log for a poll of `values` at `timestamp`
/// (`write_header` when the file does not exist yet). Where the timestamp needs
/// no quoting, the row is the timestamp and the values joined by commas.
pub fn log_bytes_at(write_header: bool, timestamp: &str, values: &[(u16, u16)]) -> (bytes: Vec<u8>)
    ensures
        bytes@ == log_bytes_spec(write_header, timestamp@, values@),
        unquoted_record(row_fields(timestamp@, values@)) ==> bytes@ == (if write_header {
            encode_utf8(join_fields(header_fields(values@)) + seq!['\n'])
        } else {
            Seq::empty()
        }) + encode_utf8(join_fields(row_fields(timestamp@, values@)) + seq!['\n']),
{
    let mut bytes: Vec<u8> = Vec::new();
    if write_header {
        let header = header_record(values);
        bytes = csv_encode(&header).unwrap();
    }
    let row = data_record(timestamp, values);
    let mut row_bytes = csv_encode(&row).unwrap();
    bytes.append(&mut row_bytes);
    proof {
        if !write_header {
            assert(bytes@ =~= csv_record_bytes(row_fields(timestamp@, values@)));
        }
        if unquoted_record(row_fields(timestamp@, values@)) {
            lemma_unquoted_record(row_fields(timestamp@, values@));
            lemma_header_unquoted(values@);
            lemma_unquoted_record(header_fields(values@));
        }
    }
    bytes
}

/// One step of the logging loop, given the number of rows written so far and
/// what happened (a polled row is counted once it has been written): a new
/// connection is polled at once, a written row is followed by a poll after one
/// interval, a failed poll reconnects at once, and a failed connection is
/// retried after `RETRY_DELAY_SECS` seconds.
pub fn log_step(rows: u64, event: &PollEvent) -> (r: (u64, NextStep))
    requires
        event is Polled ==> rows < u64::MAX,
    ensures
        match event {
            PollEvent::Connected => r == (rows, NextStep::Poll),
            PollEvent::Polled(_) => r == ((rows + 1) as u64, NextStep::PollAfterInterval),
            PollEvent::PollFailed(_) => r == (rows, NextStep::Reconnect),
            PollEvent::ConnectFailed(_) => r == (rows, NextStep::ReconnectAfterRetryDelay),
        },
{
    match event {
        PollEvent::Connected => (rows, NextStep::Poll),
        PollEvent::Polled(_) => (rows + 1, NextStep::PollAfterInterval),
        PollEvent::PollFailed(_) => (rows, NextStep::Reconnect),
        PollEvent::ConnectFailed(_) => (rows, NextStep::ReconnectAfterRetryDelay),
    }
}

/// The bytes to append to the log for a poll of `values` now (UTC, RFC 3339):
/// the header when the file is new, then the timestamp and the values joined
/// by commas; no field needs quotes.
pub fn log_bytes(write_header: bool, values: &[(u16, u16)]) -> (bytes: Vec<u8>)
    ensures
        exists|timestamp: Seq<char>|
            is_rfc3339_text(timestamp) && bytes@ == #[trigger] log_bytes_spec(write_header, timestamp, values@)
                && bytes@ == (if write_header {
                encode_utf8(join_fields(header_fields(values@)) + seq!['\n'])
            } else {
                Seq::empty()
            }) + encode_utf8(join_fields(row_fields(timestamp, values@)) + seq!['\n']),
{
    let timestamp = now_rfc3339();
    proof {
        let r = row_fields(timestamp@, values@);
        assert forall|i: int| 0 <= i < r.len() implies plain_field(#[trigger] r[i]) by {
            if i == 0 {
                assert(r[0] == timestamp@);
                assert forall|k: int| 0 <= k < timestamp@.len() implies crate::clock::is_rfc3339_char(#[trigger] timestamp@[k]) by {}
            } else {
                lemma_decimal_digits(values@[i - 1].1 as nat);
                assert(r[i] == decimal(values@[i - 1].1 as nat));
                assert forall|k: int| 0 <= k < r[i].len() implies is_digit(#[trigger] r[i][k]) by {}
            }
        }
    }
    log_bytes_at(write_header, timestamp.as_str(), values)
}

} // verus!
