//! Section assignments: closed integer ranges, checked for containment
//! and overlap.
//!
//! An assignment line has the form `"<start>-<end>"`; a pair of elves
//! compares two such ranges.

use vstd::prelude::*;
use vstd::string::*;

use crate::text::{all_digits, digits_val, spec_split};

verus! {

/// An assignment line that is not two numbers joined by a dash.
#[derive(Clone, Copy, PartialEq, Eq, Debug, Structural)]
pub enum RangeError {
    /// The line is not exactly two dash-separated parts.
    InvalidShape,
    /// A part is not a decimal number that fits in 32 bits.
    InvalidNumber,
}

/// A closed range of section numbers.
#[derive(Debug, Clone, Copy, PartialEq, Eq, Structural)]
pub struct Assignment {
    pub start: u32,
    pub end: u32,
}

/// Whether range `a` contains all of range `b`.
pub open spec fn spec_contains(a: Assignment, b: Assignment) -> bool {
    a.start <= b.start && a.end >= b.end
}

/// Whether ranges `a` and `b` share at least a boundary point, or one
/// contains the other.
pub open spec fn spec_overlaps(a: Assignment, b: Assignment) -> bool {
    spec_contains(a, b) || spec_contains(b, a) || (a.start <= b.start && b.start <= a.end) || (
    b.start <= a.start && a.start <= b.end)
}

/// What parsing an assignment line yields: two dash-separated decimal
/// numbers, each fitting in 32 bits.
pub open spec fn spec_parse_assignment(s: Seq<char>) -> Result<Assignment, RangeError> {
    let parts = spec_split(s, '-');
    if parts.len() != 2 {
        Err(RangeError::InvalidShape)
    } else if parts[0].len() == 0 || !all_digits(parts[0]) || digits_val(parts[0]) > u32::MAX
        || parts[1].len() == 0 || !all_digits(parts[1]) || digits_val(parts[1]) > u32::MAX {
        Err(RangeError::InvalidNumber)
    } else {
        Ok(Assignment { start: digits_val(parts[0]) as u32, end: digits_val(parts[1]) as u32 })
    }
}

impl Assignment {
    /// The range from `start` to `end`, both included.
    pub fn new(start: u32, end: u32) -> (r: Self)
        ensures
            r == (Assignment { start, end }),
    {
        Assignment { start, end }
    }

    /// Whether this range contains all of `other`.
    pub fn contains(&self, other: &Self) -> (r: bool)
        ensures
            r == spec_contains(*self, *other),
    {
        self.start <= other.start && self.end >= other.end
    }

    /// Whether `a` and `b` overlap in at least one section.
    pub fn overlaps(a: &Self, b: &Self) -> (r: bool)
        ensures
            r == spec_overlaps(*a, *b),
    {
        a.contains(b) || b.contains(a) || (a.start <= b.start && b.start <= a.end) || (b.start
            <= a.start && a.start <= b.end)
    }

    /// Parses an assignment line `"<start>-<end>"`.
    pub fn parse(s: &str) -> (r: Result<Assignment, RangeError>)
        ensures
            r == spec_parse_assignment(s@),
    {
        let n: usize = s.unicode_len();
        let mut chars: Vec<char> = Vec::new();
        let mut i: usize = 0;
        while i < n
            invariant
                0 <= i <= n,
                n == s@.len(),
                chars@ == s@.take(i as int),
            decreases n - i,
        {
            chars.push(s.get_char(i));
            proof {
                assert(chars@ =~= s@.take(i + 1));
            }
            i = i + 1;
        }
        proof {
            assert(chars@ =~= s@);
        }
        let parts: Vec<Vec<char>> = crate::text::split_on(&chars, '-');
        if parts.len() != 2 {
            return Err(RangeError::InvalidShape);
        }
        let start: u32 = match crate::text::parse_u32(&parts[0]) {
            Some(v) => v,
            None => {
                return Err(RangeError::InvalidNumber);
            },
        };
        let end: u32 = match crate::text::parse_u32(&parts[1]) {
            Some(v) => v,
            None => {
                return Err(RangeError::InvalidNumber);
            },
        };
        Ok(Assignment { start, end })
    }
}

} // verus!
