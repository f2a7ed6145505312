//! Merging of IPv4 CIDR ranges: ranges that overlap lose the later one, and
//! two neighbours that are the halves of a block become that block, round
//! after round, until no two neighbours join.

pub mod aggregate;
pub mod canonical;
pub mod format;
pub mod laws;
pub mod lines;
pub mod maximal;
pub mod parse;
pub mod range;
pub mod relation;
pub mod sort;
pub mod text;

pub use aggregate::{aggregate, any_join, classify_pairs, surviving_ranges};
pub use lines::{format_ranges, merge_lines, parse_lines, LineError};
pub use parse::{parse_iprange, ParseError};
pub use range::{bit_count, IPRange};
pub use relation::{check_two_subnets, Relation};
pub use sort::{merge_ranges, order_by_start};
