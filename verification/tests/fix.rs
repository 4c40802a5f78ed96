//! Tests of the FIX parser.

use dec::errors::EngineError;
use dec::fix::{bytes_to_u64, parse_fix_to_order, FixParser};
use dec::model::Side;

#[test]
fn test_zero_allocation_fix_parser() {
    let raw = b"8=FIX.4.4|9=124|35=D|49=SENDER|56=TARGET|11=9999|54=1|38=500|44=10250|10=223|";
    let mut parser = FixParser::new(raw);

    let mut count = 0;
    while let Some(res) = parser.next_tag() {
        let (tag, val) = res.unwrap();
        match tag {
            11 => assert_eq!(val, b"9999"),
            49 => assert_eq!(val, b"SENDER"),
            54 => assert_eq!(val, b"1"),
            38 => assert_eq!(val, b"500"),
            44 => assert_eq!(val, b"10250"),
            _ => {}
        }
        count += 1;
    }
    assert_eq!(count, 10);
}

#[test]
fn test_parse_fix_to_order() {
    let raw = b"8=FIX.4.4|35=D|11=9999|49=1001|54=2|38=500|44=10250|";
    let order = parse_fix_to_order(raw).unwrap();

    assert_eq!(order.order_id, 9999);
    assert_eq!(order.client_id, 1001);
    assert_eq!(order.quantity, 500);
    assert_eq!(order.price, 10250);
    assert_eq!(order.side(), Side::Sell);
}

#[test]
fn numbers_are_decimal_or_little_endian() {
    assert_eq!(bytes_to_u64(b""), 0);
    assert_eq!(bytes_to_u64(b"0"), 0);
    assert_eq!(bytes_to_u64(b"10250"), 10250);
    assert_eq!(bytes_to_u64(b"18446744073709551615"), u64::MAX);
    assert_eq!(bytes_to_u64(b"18446744073709551616"), 0);
    assert_eq!(bytes_to_u64(b"18446744073709551623"), 7);
    assert_eq!(bytes_to_u64(b"A"), 65);
    assert_eq!(bytes_to_u64(b"1A"), 0x4131);
    assert_eq!(bytes_to_u64(b"SENDER"), u64::from_le_bytes(*b"SENDER\0\0"));
    assert_eq!(bytes_to_u64(b"ABCDEFGHIJ"), u64::from_le_bytes(*b"ABCDEFGH"));
}

#[test]
fn tags_wrap_around() {
    let mut parser = FixParser::new(b"4294967307=x");
    assert_eq!(parser.next_tag(), Some(Ok((11, &b"x"[..]))));
    assert_eq!(parser.next_tag(), None);
}

#[test]
fn fields_may_be_empty() {
    let mut parser = FixParser::new(b"=|5=|6=a");
    assert_eq!(parser.next_tag(), Some(Ok((0, &b""[..]))));
    assert_eq!(parser.next_tag(), Some(Ok((5, &b""[..]))));
    assert_eq!(parser.next_tag(), Some(Ok((6, &b"a"[..]))));
    assert_eq!(parser.next_tag(), None);
    assert_eq!(parser.next_tag(), None);
    assert_eq!(FixParser::new(b"").next_tag(), None);
}

#[test]
fn a_malformed_field_is_not_passed() {
    let mut parser = FixParser::new(b"5=a|x6=b|7=c");
    assert_eq!(parser.next_tag(), Some(Ok((5, &b"a"[..]))));
    assert_eq!(parser.next_tag(), Some(Err(EngineError::InvalidSide)));
    assert_eq!(parser.next_tag(), Some(Err(EngineError::InvalidSide)));
    let mut parser = FixParser::new(b"55");
    assert_eq!(parser.next_tag(), Some(Err(EngineError::InvalidSide)));
}

#[test]
fn soh_takes_precedence() {
    let mut parser = FixParser::new(b"5=a|b\x016=c");
    assert_eq!(parser.next_tag(), Some(Ok((5, &b"a|b"[..]))));
    assert_eq!(parser.next_tag(), Some(Ok((6, &b"c"[..]))));
}

#[test]
fn both_delimiters_mean_the_same() {
    let piped = parse_fix_to_order(b"11=9|49=X|54=1|38=5|44=10|").unwrap();
    let soh = parse_fix_to_order(b"11=9\x0149=X\x0154=1\x0138=5\x0144=10\x01").unwrap();
    assert_eq!(piped.order_id, soh.order_id);
    assert_eq!(piped.client_id, soh.client_id);
    assert_eq!(piped.quantity, soh.quantity);
    assert_eq!(piped.price, soh.price);
    assert_eq!(piped.side(), soh.side());
    assert_eq!(soh.client_id, 88);
}

#[test]
fn the_last_delimiter_may_be_missing() {
    let order = parse_fix_to_order(b"11=9|49=3|54=1|38=5|44=10").unwrap();
    assert_eq!(order.price, 10);
    assert_eq!(order.side(), Side::Buy);
}

#[test]
fn the_last_value_of_a_tag_counts() {
    let order = parse_fix_to_order(b"11=9|11=8|49=3|54=2|54=1|38=5|44=10|44=11|").unwrap();
    assert_eq!(order.order_id, 8);
    assert_eq!(order.price, 11);
    assert_eq!(order.side(), Side::Buy);
}

#[test]
fn every_field_is_needed() {
    for message in [
        &b"49=3|54=1|38=5|44=10|"[..],
        &b"11=9|54=1|38=5|44=10|"[..],
        &b"11=9|49=3|38=5|44=10|"[..],
        &b"11=9|49=3|54=1|44=10|"[..],
        &b"11=9|49=3|54=1|38=5|"[..],
        &b""[..],
    ] {
        assert_eq!(
            parse_fix_to_order(message).err(),
            Some(EngineError::InvalidStateTransition)
        );
    }
}

#[test]
fn a_side_is_one_or_two() {
    for message in [
        &b"11=9|49=3|54=3|38=5|44=10|"[..],
        &b"11=9|49=3|54=|38=5|44=10|"[..],
        &b"11=9|49=3|54=11|38=5|44=10|"[..],
        &b"54=9|54=1|"[..],
    ] {
        assert_eq!(parse_fix_to_order(message).err(), Some(EngineError::InvalidSide));
    }
}

#[test]
fn a_message_with_a_malformed_field_is_refused() {
    let message = b"11=9|49=3|54=1|38=5|44=10|oops";
    assert_eq!(parse_fix_to_order(message).err(), Some(EngineError::InvalidSide));
}

#[test]
fn leading_zeros_add_nothing() {
    assert_eq!(bytes_to_u64(b"00010250"), 10250);
    assert_eq!(bytes_to_u64(b"000000000000000000000000000000"), 0);
    assert_eq!(bytes_to_u64(b"00018446744073709551615"), u64::MAX);
}

#[test]
fn encoded_fields_read_back() {
    let fields: [(u32, &[u8]); 4] = [(11, b"9=9"), (0, b""), (4294967295, b"x"), (54, b"1")];
    for delimiter in [1u8, b'|'] {
        let mut message = Vec::new();
        for (tag, value) in fields {
            message.extend_from_slice(tag.to_string().as_bytes());
            message.push(b'=');
            message.extend_from_slice(value);
            message.push(delimiter);
        }
        let mut parser = FixParser::new(&message);
        for (tag, value) in fields {
            assert_eq!(parser.next_tag(), Some(Ok((tag, value))));
        }
        assert_eq!(parser.next_tag(), None);
    }
}

#[test]
fn an_order_reads_back_from_its_fields() {
    let message = format!("11={}|38={}|44={}|49={}|54=2|", u64::MAX, 7, 0, 12);
    let order = parse_fix_to_order(message.as_bytes()).unwrap();
    assert_eq!((order.order_id, order.quantity), (u64::MAX, 7));
    assert_eq!((order.price, order.client_id), (0, 12));
    assert_eq!(order.side(), Side::Sell);
}

#[test]
fn encoded_fields_read_back_without_the_last_delimiter() {
    for message in [&b"11=9|0=|54=1"[..], &b"11=9\x010=\x0154=1"[..], &b"11=9|0=|54=1|"[..]] {
        let mut parser = FixParser::new(message);
        assert_eq!(parser.next_tag(), Some(Ok((11, &b"9"[..]))));
        assert_eq!(parser.next_tag(), Some(Ok((0, &b""[..]))));
        assert_eq!(parser.next_tag(), Some(Ok((54, &b"1"[..]))));
        assert_eq!(parser.next_tag(), None);
    }
}
