use cidr_merge::{merge_lines, LineError, ParseError};

fn lines(text: &[&str]) -> Vec<String> {
    text.iter().map(|l| l.to_string()).collect()
}

#[test]
fn two_halves_become_their_parent() {
    let out = merge_lines(&lines(&["10.0.0.0/25", "10.0.0.128/25"]));
    assert_eq!(out, Ok(lines(&["10.0.0.0/24"])));
}

#[test]
fn two_aligned_neighbours_of_24_bits_become_one_of_23() {
    let out = merge_lines(&lines(&["10.0.0.0/24", "10.0.1.0/24"]));
    assert_eq!(out, Ok(lines(&["10.0.0.0/23"])));
}

#[test]
fn neighbours_across_a_parent_boundary_stay_as_they_are() {
    let out = merge_lines(&lines(&["10.0.1.0/24", "10.0.2.0/24"]));
    assert_eq!(out, Ok(lines(&["10.0.1.0/24", "10.0.2.0/24"])));
}

#[test]
fn neighbours_of_different_size_stay_as_they_are() {
    let out = merge_lines(&lines(&["10.0.0.0/24", "10.0.1.0/25"]));
    assert_eq!(out, Ok(lines(&["10.0.0.0/24", "10.0.1.0/25"])));
}

#[test]
fn a_range_inside_another_is_absorbed() {
    let out = merge_lines(&lines(&["10.0.0.0/24", "10.0.0.128/25"]));
    assert_eq!(out, Ok(lines(&["10.0.0.0/24"])));
}

#[test]
fn a_lone_range_is_kept() {
    let out = merge_lines(&lines(&["192.168.1.0/24"]));
    assert_eq!(out, Ok(lines(&["192.168.1.0/24"])));
}

#[test]
fn a_line_with_an_octet_of_999_stops_the_run() {
    let out = merge_lines(&lines(&["999.0.0.0/24"]));
    assert_eq!(out, Err(LineError { index: 0, error: ParseError::OutOfRange }));
}

#[test]
fn no_lines_give_no_lines() {
    assert_eq!(merge_lines(&Vec::new()), Ok(Vec::new()));
}

#[test]
fn the_first_bad_line_is_reported() {
    let out = merge_lines(&lines(&["10.0.0.0/8", "nonsense", "10.0.0.0/99", "also bad"]));
    assert_eq!(out, Err(LineError { index: 1, error: ParseError::Malformed }));
    let out = merge_lines(&lines(&["10.0.0.0/8", "10.0.0.0/99", "nonsense"]));
    assert_eq!(out, Err(LineError { index: 1, error: ParseError::OutOfRange }));
}

#[test]
fn a_blank_line_stops_the_run() {
    let out = merge_lines(&lines(&["10.0.0.0/8", ""]));
    assert_eq!(out, Err(LineError { index: 1, error: ParseError::Malformed }));
}

#[test]
fn lines_in_any_order_give_the_same_output_in_ascending_order() {
    let expected = Ok(lines(&["10.0.0.0/23", "10.0.4.0/24", "192.168.0.0/16"]));
    let a = ["10.0.0.0/24", "10.0.1.0/24", "10.0.4.0/24", "192.168.0.0/16"];
    let b = ["192.168.0.0/16", "10.0.4.0/24", "10.0.1.0/24", "10.0.0.0/24"];
    let c = ["10.0.1.0/24", "192.168.0.0/16", "10.0.0.0/24", "10.0.4.0/24"];
    assert_eq!(merge_lines(&lines(&a)), expected);
    assert_eq!(merge_lines(&lines(&b)), expected);
    assert_eq!(merge_lines(&lines(&c)), expected);
}

#[test]
fn dotted_masks_are_written_as_prefix_lengths() {
    let out = merge_lines(&lines(&["172.16.0.0/255.255.0.0", "172.17.9.9/255.255.0.0"]));
    assert_eq!(out, Ok(lines(&["172.16.0.0/15"])));
}

#[test]
fn the_halves_of_the_whole_address_space_become_it() {
    let out = merge_lines(&lines(&["128.0.0.0/1", "0.0.0.0/1"]));
    assert_eq!(out, Ok(lines(&["0.0.0.0/0"])));
}

#[test]
fn the_same_range_twice_is_written_once() {
    let out = merge_lines(&lines(&["10.0.0.0/24", "10.0.0.0/24"]));
    assert_eq!(out, Ok(lines(&["10.0.0.0/24"])));
}
