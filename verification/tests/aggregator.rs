use cidr_merge::{
    aggregate, any_join, classify_pairs, format_ranges, merge_ranges, order_by_start,
    parse_iprange, parse_lines, surviving_ranges, IPRange, LineError, ParseError, Relation,
};
use std::cmp::Ordering;

fn ranges(lines: &[&str]) -> Vec<IPRange> {
    lines.iter().map(|l| parse_iprange(l).unwrap()).collect()
}

fn texts(v: &[IPRange]) -> Vec<String> {
    v.iter().map(|r| r.to_string()).collect()
}

fn addresses(v: &[IPRange]) -> Vec<(u64, u64)> {
    let mut spans: Vec<(u64, u64)> =
        v.iter().map(|r| (r.start as u64, r.start as u64 + r.length)).collect();
    spans.sort();
    let mut out: Vec<(u64, u64)> = Vec::new();
    for (from, to) in spans {
        match out.last_mut() {
            Some(last) if last.1 >= from => last.1 = last.1.max(to),
            _ => out.push((from, to)),
        }
    }
    out
}

#[test]
fn pairs_are_classified_against_their_successor_and_the_sentinel() {
    let v = ranges(&["10.0.0.0/25", "10.0.0.128/25", "10.0.2.0/24"]);
    let sentinel = IPRange { start: 0, length: 0 };
    let t = classify_pairs(&v);
    assert_eq!(
        t,
        vec![
            Relation::Join(IPRange { start: 0x0A00_0000, length: 256 }),
            Relation::Single(v[1]),
            Relation::Overlap(v[2], sentinel),
        ]
    );
    assert!(any_join(&t));
    assert_eq!(texts(&surviving_ranges(&t)), vec!["10.0.0.0/24", "10.0.2.0/24"]);
}

#[test]
fn no_relations_hold_no_join_and_leave_nothing() {
    assert_eq!(classify_pairs(&Vec::new()), Vec::new());
    assert!(!any_join(&Vec::new()));
    assert_eq!(surviving_ranges(&Vec::new()), Vec::new());
}

#[test]
fn a_list_without_halves_holds_no_join() {
    let t = classify_pairs(&ranges(&["10.0.0.0/24", "10.0.0.128/25", "10.0.2.0/24"]));
    assert!(!any_join(&t));
}

#[test]
fn what_stands_behind_an_overlap_or_a_join_does_not_survive() {
    let a = IPRange { start: 0, length: 4 };
    let b = IPRange { start: 4, length: 4 };
    let c = IPRange { start: 16, length: 4 };
    let p = IPRange { start: 0, length: 8 };
    let t = vec![Relation::Overlap(a, b), Relation::Single(b), Relation::Single(c)];
    assert_eq!(surviving_ranges(&t), vec![a, c]);
    let t = vec![Relation::Join(p), Relation::Beside(b, c), Relation::Single(c)];
    assert_eq!(surviving_ranges(&t), vec![p, c]);
    let t = vec![Relation::Beside(a, b), Relation::Single(b), Relation::Overlap(c, a)];
    assert_eq!(surviving_ranges(&t), vec![a, b, c]);
    let t = vec![Relation::Overlap(a, b), Relation::Overlap(b, c), Relation::Single(c)];
    assert_eq!(surviving_ranges(&t), vec![a]);
}

#[test]
fn four_quarters_become_their_block_over_two_rounds() {
    let v = ranges(&["10.0.0.0/26", "10.0.0.64/26", "10.0.0.128/26", "10.0.0.192/26"]);
    assert_eq!(texts(&aggregate(v)), vec!["10.0.0.0/24"]);
}

#[test]
fn a_join_in_one_round_lets_the_next_round_join_again() {
    let v = ranges(&["10.0.0.0/26", "10.0.0.64/26", "10.0.0.128/25", "10.0.1.0/24"]);
    assert_eq!(texts(&aggregate(v)), vec!["10.0.0.0/23"]);
}

#[test]
fn two_hundred_fifty_six_single_addresses_become_one_block() {
    let v: Vec<IPRange> =
        (0u32..256).map(|i| IPRange { start: 0xC0A8_0100 + i, length: 1 }).collect();
    assert_eq!(texts(&aggregate(v)), vec!["192.168.1.0/24"]);
}

#[test]
fn ranges_that_stand_apart_are_returned_as_they_are() {
    let v = ranges(&["10.0.0.0/24", "10.0.2.0/24", "10.0.4.0/23", "172.16.0.0/12"]);
    assert_eq!(aggregate(v.clone()), v);
}

#[test]
fn aggregating_an_aggregate_of_separate_ranges_changes_nothing() {
    let v = ranges(&[
        "10.0.0.0/26",
        "10.0.0.64/26",
        "10.0.0.128/25",
        "10.0.3.0/24",
        "10.0.4.0/24",
        "10.0.5.0/24",
        "10.0.8.0/22",
    ]);
    let once = aggregate(v);
    assert_eq!(texts(&once), vec!["10.0.0.0/24", "10.0.3.0/24", "10.0.4.0/23", "10.0.8.0/22"]);
    assert_eq!(aggregate(once.clone()), once);
}

#[test]
fn an_absorbed_range_can_hide_a_join_until_the_next_call() {
    let v = ranges(&["10.0.0.0/24", "10.0.0.128/25", "10.0.1.0/24"]);
    let once = aggregate(v);
    assert_eq!(texts(&once), vec!["10.0.0.0/24", "10.0.1.0/24"]);
    assert_eq!(texts(&aggregate(once)), vec!["10.0.0.0/23"]);
}

#[test]
fn ranges_that_share_no_address_keep_their_addresses() {
    let v = ranges(&[
        "10.0.0.0/25",
        "10.0.0.128/25",
        "10.0.1.0/24",
        "10.0.2.0/25",
        "10.0.3.0/24",
        "192.168.0.0/17",
        "192.168.128.0/17",
    ]);
    let out = aggregate(v.clone());
    assert_eq!(texts(&out), vec!["10.0.0.0/23", "10.0.2.0/25", "10.0.3.0/24", "192.168.0.0/16"]);
    assert_eq!(addresses(&out), addresses(&v));
}

#[test]
fn of_two_ranges_of_one_start_the_first_is_kept() {
    let small_first = ranges(&["10.0.0.0/25", "10.0.0.0/24"]);
    assert_eq!(texts(&merge_ranges(small_first)), vec!["10.0.0.0/25"]);
    let large_first = ranges(&["10.0.0.0/24", "10.0.0.0/25"]);
    assert_eq!(texts(&merge_ranges(large_first)), vec!["10.0.0.0/24"]);
}

#[test]
fn ranges_are_sorted_by_start_before_they_are_aggregated() {
    let v = ranges(&["10.0.0.128/25", "192.168.1.0/24", "10.0.0.0/25", "172.16.0.0/16"]);
    assert_eq!(
        texts(&merge_ranges(v)),
        vec!["10.0.0.0/24", "172.16.0.0/16", "192.168.1.0/24"]
    );
}

#[test]
fn a_long_list_in_descending_order_is_merged() {
    let v: Vec<IPRange> =
        (0u32..4096).rev().map(|i| IPRange { start: 0x0A00_0000 + i * 256, length: 256 }).collect();
    assert_eq!(texts(&merge_ranges(v)), vec!["10.0.0.0/12"]);
}

#[test]
fn every_order_of_three_ranges_gives_the_same_merge() {
    let a = parse_iprange("10.0.0.0/25").unwrap();
    let b = parse_iprange("10.0.0.128/25").unwrap();
    let c = parse_iprange("10.0.1.0/24").unwrap();
    let expected = vec![IPRange { start: 0x0A00_0000, length: 512 }];
    for v in [[a, b, c], [a, c, b], [b, a, c], [b, c, a], [c, a, b], [c, b, a]] {
        assert_eq!(merge_ranges(v.to_vec()), expected);
    }
}

#[test]
fn ranges_are_ordered_by_their_starts_alone() {
    let a = IPRange { start: 1, length: 9 };
    let b = IPRange { start: 2, length: 1 };
    let c = IPRange { start: 2, length: 5 };
    assert_eq!(order_by_start(&a, &b), Ordering::Less);
    assert_eq!(order_by_start(&b, &a), Ordering::Greater);
    assert_eq!(order_by_start(&b, &c), Ordering::Equal);
}

#[test]
fn lines_are_parsed_until_one_is_no_range() {
    let good: Vec<String> = vec!["10.0.0.0/8".to_string(), "1.2.3.4/255.255.0.0".to_string()];
    assert_eq!(
        parse_lines(&good),
        Ok(vec![
            IPRange { start: 0x0A00_0000, length: 0x100_0000 },
            IPRange { start: 0x0102_0000, length: 0x1_0000 },
        ])
    );
    let bad: Vec<String> =
        vec!["10.0.0.0/8".to_string(), "10.0.0.0/8".to_string(), "300.0.0.0/8".to_string()];
    assert_eq!(parse_lines(&bad), Err(LineError { index: 2, error: ParseError::OutOfRange }));
}

#[test]
fn each_range_is_written_on_a_line_of_its_own() {
    let v = ranges(&["10.0.0.0/8", "1.2.3.4/255.255.0.0"]);
    assert_eq!(format_ranges(&v), vec!["10.0.0.0/8", "1.2.0.0/16"]);
    assert_eq!(format_ranges(&Vec::new()), Vec::<String>::new());
}
