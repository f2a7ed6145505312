//! From the lines of an input to the lines of the output: every line is
//! parsed, the ranges are sorted and aggregated, and each range that is
//! left is written as CIDR text.

use crate::format::format_spec;
use crate::laws::{all_wf, lemma_aggregate_keeps_wf, lemma_sorted_keeps_wf};
use crate::parse::{parse_iprange, parse_spec, ParseError};
use crate::range::IPRange;
use crate::sort::{merge_ranges, merge_spec, sorted_by_start};
use vstd::prelude::*;

verus! {

/// The first line that is not a range, and why it is none.
#[derive(Clone, Copy, Debug, PartialEq, Eq, Structural)]
pub struct LineError {
    /// The position of the line, counted from zero.
    pub index: usize,
    pub error: ParseError,
}

/// The characters of each line.
pub open spec fn texts(lines: Seq<String>) -> Seq<Seq<char>> {
    lines.map_values(|s: String| s@)
}

/// Whether every line is a range.
pub open spec fn all_parse(lines: Seq<Seq<char>>) -> bool {
    forall|i: int| 0 <= i < lines.len() ==> parse_spec(#[trigger] lines[i]) is Ok
}

/// The ranges that the lines name, where every line is a range.
pub open spec fn parsed(lines: Seq<Seq<char>>) -> Seq<IPRange> {
    lines.map_values(|s: Seq<char>| parse_spec(s)->Ok_0)
}

/// Whether `e` tells the first line that is not a range.
pub open spec fn is_first_error(lines: Seq<Seq<char>>, e: LineError) -> bool {
    &&& e.index < lines.len()
    &&& parse_spec(lines[e.index as int]) == Err::<IPRange, ParseError>(e.error)
    &&& forall|i: int| 0 <= i < e.index ==> parse_spec(#[trigger] lines[i]) is Ok
}

/// The CIDR text of each range.
pub open spec fn formatted(v: Seq<IPRange>) -> Seq<Seq<char>> {
    v.map_values(|r: IPRange| format_spec(r))
}

/// Parses every line, and stops at the first that is not a range.
pub fn parse_lines(lines: &Vec<String>) -> (r: Result<Vec<IPRange>, LineError>)
    ensures
        match r {
            Ok(v) => all_parse(texts(lines@)) && v@ == parsed(texts(lines@)) && all_wf(v@),
            Err(e) => is_first_error(texts(lines@), e),
        },
{
    let ghost t = texts(lines@);
    let mut v: Vec<IPRange> = Vec::new();
    let mut i: usize = 0;
    while i < lines.len()
        invariant
            0 <= i <= lines.len(),
            t == texts(lines@),
            v.len() == i,
            all_wf(v@),
            forall|j: int| 0 <= j < i ==> parse_spec(#[trigger] t[j]) == Ok::<IPRange, ParseError>(
                v@[j],
            ),
        decreases lines.len() - i,
    {
        assert(t[i as int] == lines@[i as int]@);
        match parse_iprange(lines[i].as_str()) {
            Ok(r) => {
                v.push(r);
            },
            Err(e) => {
                return Err(LineError { index: i, error: e });
            },
        }
        i += 1;
    }
    assert(v@ =~= parsed(t));
    Ok(v)
}

/// Writes each range as CIDR text.
pub fn format_ranges(v: &Vec<IPRange>) -> (out: Vec<String>)
    requires
        all_wf(v@),
    ensures
        texts(out@) == formatted(v@),
{
    let mut out: Vec<String> = Vec::new();
    let mut i: usize = 0;
    while i < v.len()
        invariant
            0 <= i <= v.len(),
            all_wf(v@),
            out.len() == i,
            forall|j: int| 0 <= j < i ==> (#[trigger] out@[j])@ == format_spec(v@[j]),
        decreases v.len() - i,
    {
        assert(v@[i as int].wf());
        let s = v[i].to_string();
        out.push(s);
        i += 1;
    }
    assert(texts(out@) =~= formatted(v@));
    out
}

/// Merges the ranges that the lines name and writes what is left, or tells
/// the first line that is not a range.
pub fn merge_lines(lines: &Vec<String>) -> (r: Result<Vec<String>, LineError>)
    ensures
        match r {
            Ok(out) => all_parse(texts(lines@)) && texts(out@) == formatted(
                merge_spec(parsed(texts(lines@))),
            ),
            Err(e) => is_first_error(texts(lines@), e),
        },
{
    let ranges = match parse_lines(lines) {
        Ok(v) => v,
        Err(e) => {
            return Err(e);
        },
    };
    proof {
        lemma_sorted_keeps_wf(ranges@);
        lemma_aggregate_keeps_wf(sorted_by_start(ranges@));
    }
    let merged = merge_ranges(ranges);
    Ok(format_ranges(&merged))
}

} // verus!
