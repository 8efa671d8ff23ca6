use modbridge::client::{
    number_registers, parse_register_range, register_count, register_offset, RangeError,
};
use modbridge::text::{decimal_string, parse_u16_in, NumberError};

#[test]
fn parses_a_plain_range() {
    assert_eq!(parse_register_range("40001-40010"), Ok((40001, 40010)));
}

#[test]
fn parses_a_single_register_range() {
    assert_eq!(parse_register_range("40005-40005"), Ok((40005, 40005)));
}

#[test]
fn accepts_a_plus_sign_like_str_parse() {
    assert_eq!(parse_register_range("+40001-+40002"), Ok((40001, 40002)));
}

#[test]
fn refuses_a_range_without_dash() {
    assert_eq!(parse_register_range("40001"), Err(RangeError::MissingSeparator));
    assert_eq!(parse_register_range(""), Err(RangeError::MissingSeparator));
}

#[test]
fn refuses_a_bad_start_number() {
    assert_eq!(
        parse_register_range("abc-40010"),
        Err(RangeError::BadNumber(NumberError::InvalidDigit))
    );
    assert_eq!(
        parse_register_range("-40010"),
        Err(RangeError::BadNumber(NumberError::Empty))
    );
}

#[test]
fn refuses_a_bad_end_number() {
    assert_eq!(
        parse_register_range("40001-"),
        Err(RangeError::BadNumber(NumberError::Empty))
    );
    assert_eq!(
        parse_register_range("40001-70000"),
        Err(RangeError::BadNumber(NumberError::TooLarge))
    );
    assert_eq!(
        parse_register_range("40001-40002-5"),
        Err(RangeError::BadNumber(NumberError::InvalidDigit))
    );
    assert_eq!(
        parse_register_range("40001--5"),
        Err(RangeError::BadNumber(NumberError::InvalidDigit))
    );
}

#[test]
fn refuses_out_of_range_bounds() {
    assert_eq!(parse_register_range("39999-40010"), Err(RangeError::OutOfRange));
    assert_eq!(parse_register_range("40010-40001"), Err(RangeError::OutOfRange));
}

#[test]
fn counts_offsets_and_numbers_registers() {
    assert_eq!(register_count(40001, 40010), 10);
    assert_eq!(register_count(40007, 40007), 1);
    assert_eq!(register_count(0, 65534), 65535);
    assert_eq!(register_offset(40001), 0);
    assert_eq!(register_offset(40015), 14);
    assert_eq!(
        number_registers(40003, &[7, 8, 9]),
        vec![(40003, 7), (40004, 8), (40005, 9)]
    );
    assert_eq!(number_registers(65535, &[1]), vec![(65535, 1)]);
}

#[test]
fn parses_u16_like_std() {
    let cases = ["0", "65535", "65536", "", "+", "-", "-1", "+12", "99999x", "6553x", "007"];
    for c in cases {
        let ours = parse_u16_in(c, 0, c.chars().count());
        let std_result = c.parse::<u16>();
        match (ours, std_result) {
            (Ok(a), Ok(b)) => assert_eq!(a, b, "{c}"),
            (Err(NumberError::Empty), Err(e)) => {
                assert_eq!(*e.kind(), std::num::IntErrorKind::Empty, "{c}")
            }
            (Err(NumberError::InvalidDigit), Err(e)) => {
                assert_eq!(*e.kind(), std::num::IntErrorKind::InvalidDigit, "{c}")
            }
            (Err(NumberError::TooLarge), Err(e)) => {
                assert_eq!(*e.kind(), std::num::IntErrorKind::PosOverflow, "{c}")
            }
            (a, b) => panic!("{c}: {a:?} vs {b:?}"),
        }
    }
}

#[test]
fn decimal_text_reads_back() {
    for n in [0u16, 7, 10, 40001, 65535] {
        let s = decimal_string(n);
        assert_eq!(s, n.to_string());
        assert_eq!(parse_u16_in(&s, 0, s.len()), Ok(n));
        let range = format!("{}-{}", n, 65535);
        let expected = if n < 40001 { Err(RangeError::OutOfRange) } else { Ok((n, 65535)) };
        assert_eq!(parse_register_range(&range), expected);
    }
}
