use cidr_merge::{bit_count, check_two_subnets, parse_iprange, IPRange, Relation};

fn range(line: &str) -> IPRange {
    parse_iprange(line).unwrap()
}

#[test]
fn bit_count_counts_the_set_bits() {
    assert_eq!(bit_count(0), 0);
    assert_eq!(bit_count(1), 1);
    assert_eq!(bit_count(0x8000_0000), 1);
    assert_eq!(bit_count(0x8000_0001), 2);
    assert_eq!(bit_count(0xFFFF_FF00), 24);
    assert_eq!(bit_count(0xFFFF_FFFF), 32);
    assert_eq!(bit_count(0x5555_5555), 16);
    assert_eq!(bit_count(0xAAAA_AAAA), 16);
    assert_eq!(bit_count(0x0F0F_0F0F), 16);
    assert_eq!(bit_count(0x1234_5678), 13);
}

#[test]
fn bit_count_agrees_with_the_count_of_the_standard_library() {
    let mut y: u32 = 1;
    for _ in 0..10_000 {
        assert_eq!(bit_count(y) as u32, y.count_ones());
        y = y.wrapping_mul(1_664_525).wrapping_add(1_013_904_223);
    }
}

#[test]
fn a_range_is_written_as_cidr_text() {
    assert_eq!(IPRange { start: 0x0A00_0000, length: 256 }.to_string(), "10.0.0.0/24");
    assert_eq!(IPRange { start: 0xC0A8_0100, length: 256 }.to_string(), "192.168.1.0/24");
    assert_eq!(IPRange { start: 0, length: 0x1_0000_0000 }.to_string(), "0.0.0.0/0");
    assert_eq!(IPRange { start: 0xFFFF_FFFF, length: 1 }.to_string(), "255.255.255.255/32");
    assert_eq!(IPRange { start: 0x0102_0304, length: 1 }.to_string(), "1.2.3.4/32");
    assert_eq!(IPRange { start: 0x6409_0A00, length: 512 }.to_string(), "100.9.10.0/23");
    assert_eq!(IPRange { start: 0x8000_0000, length: 0x8000_0000 }.to_string(), "128.0.0.0/1");
}

#[test]
fn a_range_with_a_gapped_mask_is_written_with_the_count_of_its_mask_bits() {
    assert_eq!(range("10.1.2.3/255.0.255.0").to_string(), "10.0.2.0/16");
}

#[test]
fn writing_a_canonical_line_after_parsing_gives_the_line() {
    for line in [
        "0.0.0.0/0",
        "10.0.0.0/8",
        "10.0.0.0/24",
        "100.64.0.0/10",
        "192.168.1.0/24",
        "203.0.113.128/25",
        "255.255.255.255/32",
        "1.2.3.4/32",
        "128.0.0.0/1",
    ] {
        assert_eq!(range(line).to_string(), line);
    }
}

#[test]
fn writing_a_line_that_is_not_canonical_gives_its_canonical_form() {
    assert_eq!(range("010.0.0.0/8").to_string(), "10.0.0.0/8");
    assert_eq!(range("10.0.0.0/08").to_string(), "10.0.0.0/8");
    assert_eq!(range("10.0.0.1/8").to_string(), "10.0.0.0/8");
    assert_eq!(range("10.0.0.0/255.0.0.0").to_string(), "10.0.0.0/8");
}

#[test]
fn parsing_the_text_of_a_block_gives_the_block() {
    for prefix in 0..=32u32 {
        let length: u64 = 1u64 << (32 - prefix);
        for start in [0u64, length, 0x1_0000_0000 - length, (0x5A5A_5A5A / length) * length] {
            if start < 0x1_0000_0000 {
                let r = IPRange { start: start as u32, length };
                assert_eq!(parse_iprange(&r.to_string()), Ok(r));
            }
        }
    }
}

#[test]
fn a_range_that_reaches_into_the_next_overlaps_it() {
    let a = range("10.0.0.0/24");
    let b = range("10.0.0.128/25");
    assert_eq!(check_two_subnets(a, b), Relation::Overlap(a, b));
    assert_eq!(check_two_subnets(a, a), Relation::Overlap(a, a));
}

#[test]
fn the_halves_of_a_block_join() {
    let a = range("10.0.0.0/25");
    let b = range("10.0.0.128/25");
    assert_eq!(check_two_subnets(a, b), Relation::Join(IPRange { start: 0x0A00_0000, length: 256 }));
    let a = range("0.0.0.0/1");
    let b = range("128.0.0.0/1");
    assert_eq!(
        check_two_subnets(a, b),
        Relation::Join(IPRange { start: 0, length: 0x1_0000_0000 })
    );
    let a = range("10.0.0.6/32");
    let b = range("10.0.0.7/32");
    assert_eq!(check_two_subnets(a, b), Relation::Join(IPRange { start: 0x0A00_0006, length: 2 }));
}

#[test]
fn neighbours_that_are_no_halves_of_a_block_stand_beside_each_other() {
    let a = range("10.0.0.128/25");
    let b = range("10.0.1.0/25");
    assert_eq!(check_two_subnets(a, b), Relation::Beside(a, b));
    let a = range("10.0.0.0/24");
    let b = range("10.0.1.0/25");
    assert_eq!(check_two_subnets(a, b), Relation::Beside(a, b));
    let a = range("10.0.0.7/32");
    let b = range("10.0.0.8/32");
    assert_eq!(check_two_subnets(a, b), Relation::Beside(a, b));
}

#[test]
fn a_range_with_a_gap_behind_it_is_single() {
    let a = range("10.0.0.0/25");
    let b = range("10.0.1.0/25");
    assert_eq!(check_two_subnets(a, b), Relation::Single(a));
}

#[test]
fn every_range_overlaps_the_sentinel() {
    let sentinel = IPRange { start: 0, length: 0 };
    for line in ["0.0.0.0/0", "0.0.0.0/32", "10.0.0.0/8", "255.255.255.255/32"] {
        let a = range(line);
        assert_eq!(check_two_subnets(a, sentinel), Relation::Overlap(a, sentinel));
    }
}

#[test]
fn lengths_beyond_the_address_space_overlap() {
    let a = IPRange { start: 5, length: u64::MAX };
    let b = IPRange { start: 7, length: 1 };
    assert_eq!(check_two_subnets(a, b), Relation::Overlap(a, b));
}

#[test]
fn ranges_without_addresses_never_join() {
    let a = IPRange { start: 8, length: 0 };
    assert_eq!(check_two_subnets(a, a), Relation::Beside(a, a));
    let sentinel = IPRange { start: 0, length: 0 };
    assert_eq!(check_two_subnets(sentinel, sentinel), Relation::Beside(sentinel, sentinel));
}
