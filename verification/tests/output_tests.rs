use modbridge::client::{NextStep, PollEvent};
use modbridge::display::{header_line, hex_string, separator, table_lines, table_lines_at, table_row};
use modbridge::logger::{data_record, header_record, log_bytes, log_bytes_at, log_step};

/// The text with its ANSI SGR sequences taken out.
fn plain(s: &str) -> String {
    let mut out = String::new();
    let mut chars = s.chars();
    while let Some(c) = chars.next() {
        if c == '\x1b' {
            for d in chars.by_ref() {
                if d == 'm' {
                    break;
                }
            }
        } else {
            out.push(c);
        }
    }
    out
}

#[test]
fn hex_text_has_four_upper_digits() {
    assert_eq!(hex_string(0), "0x0000");
    assert_eq!(hex_string(0xBEEF), "0xBEEF");
    assert_eq!(hex_string(2341), format!("0x{:04X}", 2341));
}

#[test]
fn header_and_separator_layout() {
    assert_eq!(
        plain(&header_line()),
        format!("{:>12}  {:>14}  {:>12}", "Register", "Value (dec)", "Value (hex)")
    );
    assert_eq!(
        plain(&separator()),
        format!("{:->12}  {:->14}  {:->12}", "", "", "")
    );
}

#[test]
fn row_layout() {
    assert_eq!(
        plain(&table_row(40001, 2341)),
        format!("  {:>12}  {:>14}  {:>12}", 40001, 2341, "0x0925")
    );
}

#[test]
fn table_has_title_header_rows_and_closing_line() {
    let values = vec![(40001u16, 1u16), (40002, 65535)];
    let lines = table_lines_at("2026-05-18  14:22:01", &values);
    assert_eq!(lines.len(), 7);
    assert_eq!(plain(&lines[0]), "\n  ModBridge  2026-05-18  14:22:01");
    assert_eq!(lines[1], lines[3]);
    assert_eq!(lines[1], lines[6]);
    assert_eq!(plain(&lines[1]), format!("  {}", plain(&separator())));
    assert_eq!(plain(&lines[4]), plain(&table_row(40001, 1)));
    assert_eq!(plain(&lines[5]), plain(&table_row(40002, 65535)));
    assert_eq!(table_lines(&values).len(), 7);
}

#[test]
fn csv_records_line_up() {
    let values = vec![(40001u16, 12u16), (40002, 0)];
    assert_eq!(header_record(&values), vec!["timestamp", "40001", "40002"]);
    assert_eq!(data_record("T", &values), vec!["T", "12", "0"]);
}

#[test]
fn log_bytes_with_and_without_header() {
    let values = vec![(40001u16, 12u16), (40002, 0)];
    let first = log_bytes_at(true, "2026-05-18T14:22:01+00:00", &values);
    assert_eq!(
        String::from_utf8(first).unwrap(),
        "timestamp,40001,40002\n2026-05-18T14:22:01+00:00,12,0\n"
    );
    let next = log_bytes_at(false, "t", &values);
    assert_eq!(String::from_utf8(next).unwrap(), "t,12,0\n");
    let live = String::from_utf8(log_bytes(false, &values)).unwrap();
    assert!(live.ends_with(",12,0\n"));
    assert_eq!(live.matches('\n').count(), 1);
}

#[test]
fn csv_doubles_inner_quotes() {
    let quoted = log_bytes_at(false, "a\"b", &[(40001, 1)]);
    assert_eq!(String::from_utf8(quoted).unwrap(), "\"a\"\"b\",1\n");
}

#[test]
fn live_log_row_is_an_unquoted_rfc3339_row() {
    let live = String::from_utf8(log_bytes(true, &[(40001, 7)])).unwrap();
    let mut lines = live.lines();
    assert_eq!(lines.next(), Some("timestamp,40001"));
    let row = lines.next().unwrap();
    let (stamp, value) = row.split_once(',').unwrap();
    assert_eq!(value, "7");
    assert!(!stamp.is_empty());
    assert!(stamp.contains('T'));
    assert!(stamp.chars().all(|c| c.is_ascii_digit() || "-+:T.".contains(c)));
}

#[test]
fn header_separator_and_rows_share_columns() {
    let header = plain(&header_line());
    let sep = plain(&separator());
    let row = plain(&table_row(65535, 65535));
    let row = row.strip_prefix("  ").unwrap();
    for line in [header.as_str(), sep.as_str(), row] {
        assert_eq!(line.chars().count(), 42);
        assert_eq!(&line[12..14], "  ");
        assert_eq!(&line[28..30], "  ");
    }
}

#[test]
fn csv_quotes_fields_that_need_it() {
    let quoted = log_bytes_at(false, "a,b", &[(40001, 1)]);
    assert_eq!(String::from_utf8(quoted).unwrap(), "\"a,b\",1\n");
    let empty_only = log_bytes_at(false, "", &[]);
    assert_eq!(String::from_utf8(empty_only).unwrap(), "\"\"\n");
}

#[test]
fn log_steps() {
    assert_eq!(log_step(3, &PollEvent::Connected), (3, NextStep::Poll));
    assert_eq!(
        log_step(3, &PollEvent::Polled(vec![(40001, 1)])),
        (4, NextStep::PollAfterInterval)
    );
    assert_eq!(log_step(3, &PollEvent::PollFailed("e".into())), (3, NextStep::Reconnect));
    assert_eq!(
        log_step(3, &PollEvent::ConnectFailed("e".into())),
        (3, NextStep::ReconnectAfterRetryDelay)
    );
}

#[test]
fn styles_are_ansi_sequences_when_colors_are_on() {
    colored::control::set_override(true);
    assert_eq!(
        header_line(),
        "\x1b[1;36m    Register\x1b[0m  \x1b[1;36m   Value (dec)\x1b[0m  \x1b[1;36m Value (hex)\x1b[0m"
    );
    assert_eq!(
        separator(),
        "\x1b[2m------------  --------------  ------------\x1b[0m"
    );
    assert_eq!(
        table_row(40001, 10),
        "  \x1b[1m       40001\x1b[0m              10  \x1b[2m      0x000A\x1b[0m"
    );
}

#[test]
fn live_table_is_stamped_with_the_local_time() {
    let lines = table_lines(&[(40001, 1)]);
    let title = plain(&lines[0]);
    let stamp = title.strip_prefix("\n  ModBridge  ").unwrap();
    assert_eq!(stamp.len(), 20);
    let shape: String = stamp
        .chars()
        .map(|c| if c.is_ascii_digit() { '9' } else { c })
        .collect();
    assert_eq!(shape, "9999-99-99  99:99:99");
}
