//! Range parsing and validation shared by both trees, and the error taxonomy.
//!
//! Callers may describe a query or update interval as a half-open, closed,
//! prefix, suffix, or full range over `[0, size)`. [`parse_range`] normalizes
//! every form to a canonical `(start, end)` pair of leaf-space bounds and
//! [`validate_range`] decides whether such a pair lies within bounds.

use vstd::prelude::*;

verus! {

/// The ways a call on a tree can fail. All failures are detected before any
/// node is touched, so a failing call never mutates the tree.
#[derive(Clone, Copy, Debug, PartialEq, Eq, Structural)]
pub enum TreeError {
    /// Construction was requested with zero elements.
    InvalidSize,
    /// A point operation named an index at or beyond the logical size.
    IndexOutOfBounds,
    /// A range had start greater than end, or end greater than the logical size.
    InvalidRange,
}

/// An interval of logical indices, in any of the shapes a caller may use.
/// `Between(s, e)` denotes the half-open `[s, e)`; `BetweenInclusive(s, e)`
/// denotes `[s, e]`; `To`/`ToInclusive` are prefixes, `From` a suffix and
/// `Full` the whole index space.
#[derive(Clone, Copy, Debug, PartialEq, Eq, Structural)]
pub enum IndexRange {
    Full,
    From(usize),
    To(usize),
    ToInclusive(usize),
    Between(usize, usize),
    BetweenInclusive(usize, usize),
}

impl IndexRange {
    /// The lower bound this interval denotes.
    pub open spec fn start_spec(self) -> int {
        match self {
            IndexRange::Full => 0,
            IndexRange::From(s) => s as int,
            IndexRange::To(_) => 0,
            IndexRange::ToInclusive(_) => 0,
            IndexRange::Between(s, _) => s as int,
            IndexRange::BetweenInclusive(s, _) => s as int,
        }
    }

    /// The exclusive upper bound this interval denotes, against a tree of
    /// `size` logical elements. Inclusive forms denote one past their end.
    pub open spec fn end_spec(self, size: int) -> int {
        match self {
            IndexRange::Full => size,
            IndexRange::From(_) => size,
            IndexRange::To(e) => e as int,
            IndexRange::ToInclusive(e) => e + 1,
            IndexRange::Between(_, e) => e as int,
            IndexRange::BetweenInclusive(_, e) => e + 1,
        }
    }

    /// A range is valid for a tree of `size` elements when its canonical pair
    /// `(start, end)` satisfies `start <= end <= size`.
    pub open spec fn valid_for(self, size: int) -> bool {
        0 <= self.start_spec() <= self.end_spec(size) <= size
    }
}

/// Converts any [`IndexRange`] into a concrete `(start, end)` pair against a
/// tree of `size` logical elements. An inclusive end of `usize::MAX` cannot
/// be represented as an exclusive machine integer; it saturates, which is
/// harmless because such a range is invalid for every representable size.
pub fn parse_range(range: IndexRange, size: usize) -> (p: (usize, usize))
    ensures
        p.0 == range.start_spec(),
        p.1 == if range.end_spec(size as int) > usize::MAX {
            usize::MAX as int
        } else {
            range.end_spec(size as int)
        },
{
    let start: usize = match range {
        IndexRange::Full => 0,
        IndexRange::From(s) => s,
        IndexRange::To(_) => 0,
        IndexRange::ToInclusive(_) => 0,
        IndexRange::Between(s, _) => s,
        IndexRange::BetweenInclusive(s, _) => s,
    };
    let end: usize = match range {
        IndexRange::Full => size,
        IndexRange::From(_) => size,
        IndexRange::To(e) => e,
        IndexRange::ToInclusive(e) => if e == usize::MAX {
            usize::MAX
        } else {
            e + 1
        },
        IndexRange::Between(_, e) => e,
        IndexRange::BetweenInclusive(_, e) => if e == usize::MAX {
            usize::MAX
        } else {
            e + 1
        },
    };
    (start, end)
}

/// Decides whether the pair `[left, right)` is a valid range for a tree of
/// `size` logical elements.
pub fn validate_range(left: usize, right: usize, size: usize) -> (ok: bool)
    ensures
        ok == (left <= right && right <= size),
{
    left <= right && right <= size
}

/// The bounds check on the parsed pair agrees with `valid_for`, for every
/// size a tree can actually have (a tree of `size` elements stores at least
/// `2 * size` slots, so `size` never reaches `usize::MAX`).
pub proof fn lemma_parsed_validity(range: IndexRange, size: usize, l: usize, r: usize)
    requires
        size < usize::MAX,
        l == range.start_spec(),
        r == if range.end_spec(size as int) > usize::MAX {
            usize::MAX as int
        } else {
            range.end_spec(size as int)
        },
    ensures
        (l <= r && r <= size) == range.valid_for(size as int),
        range.valid_for(size as int) ==> l == range.start_spec() && r == range.end_spec(
            size as int,
        ),
{
}

} // verus!
