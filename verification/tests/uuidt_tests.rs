use uuidt::codec::{
    parse_integer_base36, render_integer_base36, string_to_fixed_field, timestamp_base36_parts,
};
use uuidt::decode::extract_timestamp;
use uuidt::errors::Error;
use uuidt::identifier::{create, create_from_parts, Uuidt};

const FIXED_TS: u128 = 1700000000000000000;

#[test]
fn render_small_values() {
    assert_eq!(render_integer_base36(0), "0");
    assert_eq!(render_integer_base36(9), "9");
    assert_eq!(render_integer_base36(10), "a");
    assert_eq!(render_integer_base36(35), "z");
    assert_eq!(render_integer_base36(36), "10");
    assert_eq!(render_integer_base36(655), "i7");
}

#[test]
fn render_large_values() {
    assert_eq!(render_integer_base36(u64::MAX), "3w5e11264sgsf");
    assert_eq!(render_integer_base36(4738381338321616896u64 - 1), "zzzzzzzzzzzz");
}

#[test]
fn parse_inverts_render() {
    for v in [0u64, 1, 35, 36, 1295, 655, 46655, 1700000000000000000] {
        let text = render_integer_base36(v);
        assert_eq!(parse_integer_base36(&text), Ok(v as u128));
    }
    assert_eq!(parse_integer_base36("zz"), Ok(1295));
    assert_eq!(parse_integer_base36("00i7"), Ok(655));
}

#[test]
fn parse_rejects_bad_text() {
    assert_eq!(parse_integer_base36(""), Err(Error::InvalidTimestampEncoding));
    assert_eq!(parse_integer_base36("A1"), Err(Error::InvalidTimestampEncoding));
    assert_eq!(parse_integer_base36("+12"), Err(Error::InvalidTimestampEncoding));
    assert_eq!(parse_integer_base36("1 2"), Err(Error::InvalidTimestampEncoding));
    let too_big = "z".repeat(25);
    assert_eq!(parse_integer_base36(&too_big), Err(Error::InvalidTimestampEncoding));
}

#[test]
fn fixed_field_golden_values() {
    assert_eq!(string_to_fixed_field("orders", 4), "00i7");
    assert_eq!(string_to_fixed_field("host1", 4), "00dr");
    assert_eq!(string_to_fixed_field("", 4), "0000");
}

#[test]
fn fixed_field_is_deterministic() {
    for input in ["orders", "host1", "", "a namespace with spaces", "\u{00e9}\u{4e16}"] {
        let first = string_to_fixed_field(input, 4);
        let second = string_to_fixed_field(input, 4);
        assert_eq!(first, second);
        assert_eq!(first.len(), 4);
    }
}

#[test]
fn fixed_field_widens_rather_than_truncates() {
    assert_eq!(string_to_fixed_field("orders", 1), "i7");
    assert_eq!(string_to_fixed_field("orders", 2), "i7");
    assert_eq!(string_to_fixed_field("orders", 6), "0000i7");
}

#[test]
fn timestamp_parts_golden() {
    let (p1, p2) = timestamp_base36_parts(FIXED_TS);
    assert_eq!(p1, "cwyvpelg");
    assert_eq!(p2, "pse8");
}

#[test]
fn timestamp_parts_pad_small_values() {
    let (p1, p2) = timestamp_base36_parts(0);
    assert_eq!(p1, "00000000");
    assert_eq!(p2, "0000");
    let (q1, q2) = timestamp_base36_parts(655);
    assert_eq!(q1, "00000000");
    assert_eq!(q2, "00i7");
}

#[test]
fn timestamp_parts_truncate_to_low_64_bits() {
    let (p1, p2) = timestamp_base36_parts(u64::MAX as u128);
    assert_eq!(p1, "3w5e1126");
    assert_eq!(p2, "4sgs");
    let high = (1u128 << 64) + 655;
    let (q1, q2) = timestamp_base36_parts(high);
    assert_eq!(q1, "00000000");
    assert_eq!(q2, "00i7");
}

#[test]
fn canonical_layout() {
    let id = create(String::from("orders")).unwrap();
    let s = id.to_string();
    assert_eq!(s.len(), 36);
    let parts: Vec<&str> = s.split('-').collect();
    assert_eq!(parts.len(), 5);
    assert_eq!(parts[0].len(), 8);
    assert_eq!(parts[1].len(), 4);
    assert_eq!(parts[2].len(), 4);
    assert_eq!(parts[3].len(), 4);
    assert_eq!(parts[4].len(), 12);
    for c in s.chars() {
        assert!(c == '-' || c.is_ascii_digit() || c.is_ascii_lowercase());
    }
}

#[test]
fn created_identifier_round_trips() {
    let id = create(String::from("orders")).unwrap();
    let s = id.to_string();
    let recovered = extract_timestamp(&s).unwrap();
    assert_eq!(recovered, (id.timestamp() as u64) as u128);
}

#[test]
fn create_rejects_empty_namespace() {
    assert!(matches!(create(String::new()), Err(Error::EmptyNamespace)));
}

#[test]
fn extract_rejects_empty_input() {
    assert_eq!(extract_timestamp(""), Err(Error::EmptyInput));
}

#[test]
fn extract_rejects_wrong_segment_count() {
    assert_eq!(extract_timestamp("a-b-c-d"), Err(Error::MalformedIdentifier));
    assert_eq!(extract_timestamp("abc"), Err(Error::MalformedIdentifier));
    assert_eq!(extract_timestamp("a-b-c-d-e-f"), Err(Error::MalformedIdentifier));
}

#[test]
fn extract_rejects_bad_timestamp_digits() {
    assert_eq!(
        extract_timestamp("!!!!!!!!-aaaa-bbbb-cccc-dddddddddddd"),
        Err(Error::InvalidTimestampEncoding)
    );
    assert_eq!(extract_timestamp("----"), Err(Error::InvalidTimestampEncoding));
    assert_eq!(
        extract_timestamp("CWYVPELG-pse8-00i7-00dr-abcdefghijkl"),
        Err(Error::InvalidTimestampEncoding)
    );
}

#[test]
fn extract_ignores_later_segments() {
    assert_eq!(
        extract_timestamp("cwyvpelg-pse8-!!!!-????-not12chars"),
        Ok(FIXED_TS)
    );
    assert_eq!(extract_timestamp("a-b-c-d-e"), Ok(371));
}

#[test]
fn direct_construction_is_refused() {
    assert!(matches!(Uuidt::new(), Err(Error::UnsupportedConstruction)));
}

#[test]
fn golden_fixture_orders_host1() {
    let id = create_from_parts(String::from("orders"), FIXED_TS, String::from("host1")).unwrap();
    assert_eq!(id.namespace().as_str(), "orders");
    assert_eq!(id.hostname().as_str(), "host1");
    assert_eq!(id.timestamp(), FIXED_TS);
    let s = id.to_string();
    assert_eq!(s.len(), 36);
    assert!(s.starts_with("cwyvpelg-pse8-00i7-00dr-"));
    assert_eq!(extract_timestamp(&s), Ok(FIXED_TS));
    let random = id.random_chars();
    assert_eq!(random.len(), 12);
    for c in random.chars() {
        assert!(c.is_ascii_digit() || c.is_ascii_lowercase());
    }
}

#[test]
fn empty_hostname_is_allowed() {
    let id = create_from_parts(String::from("ns"), 0, String::new()).unwrap();
    let s = id.to_string();
    assert_eq!(s.len(), 36);
    assert!(s.starts_with("00000000-0000-0069-0000-"));
    assert_eq!(extract_timestamp(&s), Ok(0));
}

#[test]
fn strings_sort_by_timestamp() {
    let early = create_from_parts(String::from("orders"), FIXED_TS, String::from("host1"))
        .unwrap()
        .to_string();
    let late = create_from_parts(String::from("orders"), FIXED_TS + 1, String::from("host1"))
        .unwrap()
        .to_string();
    assert!(early < late);
    let much_later = create_from_parts(String::from("orders"), FIXED_TS * 2, String::from("host1"))
        .unwrap()
        .to_string();
    assert!(late < much_later);
}

#[test]
fn successive_identifiers_differ() {
    let a = create(String::from("orders")).unwrap();
    let mut b = create(String::from("orders")).unwrap();
    let mut tries = 0;
    while b.timestamp() as u64 == a.timestamp() as u64 && tries < 1000 {
        b = create(String::from("orders")).unwrap();
        tries += 1;
    }
    assert_ne!(a.random_chars(), b.random_chars());
    if (a.timestamp() as u64) < (b.timestamp() as u64) {
        assert!(a.to_string() < b.to_string());
    }
}
