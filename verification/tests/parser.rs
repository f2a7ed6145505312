use cidr_merge::{parse_iprange, IPRange, ParseError};

#[test]
fn a_prefix_length_gives_start_and_length() {
    assert_eq!(parse_iprange("10.0.0.0/24"), Ok(IPRange { start: 0x0A00_0000, length: 256 }));
    assert_eq!(parse_iprange("192.168.1.0/24"), Ok(IPRange { start: 0xC0A8_0100, length: 256 }));
    assert_eq!(parse_iprange("10.0.0.128/25"), Ok(IPRange { start: 0x0A00_0080, length: 128 }));
    assert_eq!(
        parse_iprange("255.255.255.255/32"),
        Ok(IPRange { start: 0xFFFF_FFFF, length: 1 })
    );
}

#[test]
fn the_octets_are_read_highest_first() {
    assert_eq!(parse_iprange("1.2.3.4/32"), Ok(IPRange { start: 0x0102_0304, length: 1 }));
}

#[test]
fn a_prefix_length_of_zero_is_the_whole_address_space() {
    assert_eq!(parse_iprange("0.0.0.0/0"), Ok(IPRange { start: 0, length: 0x1_0000_0000 }));
    assert_eq!(parse_iprange("1.2.3.4/0"), Ok(IPRange { start: 0, length: 0x1_0000_0000 }));
}

#[test]
fn bits_outside_the_mask_are_dropped() {
    assert_eq!(parse_iprange("10.1.2.3/8"), Ok(IPRange { start: 0x0A00_0000, length: 0x100_0000 }));
    assert_eq!(parse_iprange("10.0.0.255/25"), Ok(IPRange { start: 0x0A00_0080, length: 128 }));
    assert_eq!(parse_iprange("10.0.0.1/31"), Ok(IPRange { start: 0x0A00_0000, length: 2 }));
}

#[test]
fn a_dotted_mask_gives_start_and_length() {
    assert_eq!(
        parse_iprange("192.168.1.77/255.255.255.0"),
        Ok(IPRange { start: 0xC0A8_0100, length: 256 })
    );
    assert_eq!(parse_iprange("0.0.0.0/255.0.0.0"), Ok(IPRange { start: 0, length: 0x100_0000 }));
    assert_eq!(
        parse_iprange("9.9.9.9/0.0.0.0"),
        Ok(IPRange { start: 0, length: 0x1_0000_0000 })
    );
    assert_eq!(
        parse_iprange("9.9.9.9/255.255.255.255"),
        Ok(IPRange { start: 0x0909_0909, length: 1 })
    );
}

#[test]
fn a_dotted_mask_with_gaps_is_taken_as_it_stands() {
    assert_eq!(
        parse_iprange("10.1.2.3/255.0.255.0"),
        Ok(IPRange { start: 0x0A00_0200, length: 0x00FF_0100 })
    );
}

#[test]
fn leading_zeros_are_read() {
    assert_eq!(
        parse_iprange("010.001.000.000/08"),
        Ok(IPRange { start: 0x0A00_0000, length: 0x100_0000 })
    );
    assert_eq!(
        parse_iprange("10.0.0.0/0000000000000000000024"),
        Ok(IPRange { start: 0x0A00_0000, length: 256 })
    );
}

#[test]
fn lines_of_neither_form_are_malformed() {
    for line in [
        "",
        "/",
        "10.0.0.0",
        "10.0.0.0/",
        "/24",
        "10.0.0/24",
        "10.0.0.0.0/24",
        "10.0.0.0/24/",
        "10.0.0.0/24/8",
        "10.0.0.0//24",
        "10..0.0/24",
        "10.0.0./24",
        ".10.0.0.0/24",
        "10.0.0.0/255.255.255",
        "10.0.0.0/255.255.255.0.0",
        "10.0.0.0/255.255..0",
        "10.0.0.0/.255.255.0",
        "1000.0.0.0/24",
        "10.0.0.0000/24",
        "10.0.0.0/0255.0.0.0",
        "a.0.0.0/24",
        "10.0.0.0/x",
        "10.0.0.0/-1",
        "10.0.0.0/+8",
        "10.0.0.0 /24",
        " 10.0.0.0/24",
        "10.0.0.0/24 ",
        "10.0.0.0/24\n",
        "10.0.0.0/2 4",
        "10,0,0,0/24",
        "１０.0.0.0/24",
        "10.0.0.0/٢٤",
    ] {
        assert_eq!(parse_iprange(line), Err(ParseError::Malformed), "{:?}", line);
    }
}

#[test]
fn numbers_beyond_their_range_are_out_of_range() {
    for line in [
        "999.0.0.0/24",
        "256.0.0.0/24",
        "10.0.0.256/24",
        "10.0.300.0/24",
        "10.0.0.0/33",
        "10.0.0.0/255",
        "10.0.0.0/99999999999999999999999999",
        "10.0.0.0/256.0.0.0",
        "10.0.0.0/255.255.255.999",
        "999.0.0.0/999",
    ] {
        assert_eq!(parse_iprange(line), Err(ParseError::OutOfRange), "{:?}", line);
    }
}

#[test]
fn the_largest_numbers_in_range_are_read() {
    assert_eq!(parse_iprange("255.255.255.255/32"), Ok(IPRange { start: u32::MAX, length: 1 }));
    assert_eq!(parse_iprange("0.0.0.0/32"), Ok(IPRange { start: 0, length: 1 }));
}

#[test]
fn a_malformed_line_is_malformed_whatever_its_numbers() {
    assert_eq!(parse_iprange("999.0.0/24"), Err(ParseError::Malformed));
    assert_eq!(parse_iprange("999.0.0.0/2x"), Err(ParseError::Malformed));
}
