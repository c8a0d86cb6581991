//! What the containers ask of their elements: a faithful copy and an integer
//! rank that decides the order.

use vstd::prelude::*;

verus! {

/// A value that can hand out an equal copy of itself.
pub trait Replicate: Sized {
    /// Returns a value equal to `self`.
    fn replicate(&self) -> (copy: Self)
        ensures
            copy == *self,
    ;
}

/// An element ordered by an integer rank. Two elements of equal rank take the
/// same place in a container, whatever else they hold.
pub trait Ranked: Replicate {
    /// The rank that orders this element.
    spec fn rank(&self) -> int;

    /// Computes the rank.
    fn rank_of(&self) -> (r: i128)
        ensures
            r == self.rank(),
    ;
}

/// One end of a range of ranks.
pub enum Bound<T> {
    /// The range reaches this element and holds it.
    Included(T),
    /// The range reaches this element and leaves it out.
    Excluded(T),
    /// The range has no limit on this side.
    Unbounded,
}

/// Whether a range that starts at `start` holds the rank `r`, as far as its
/// start decides.
pub open spec fn above_start<Q: Ranked>(start: Bound<&Q>, r: int) -> bool {
    match start {
        Bound::Included(q) => q.rank() <= r,
        Bound::Excluded(q) => q.rank() < r,
        Bound::Unbounded => true,
    }
}

/// Whether a range that ends at `end` holds the rank `r`, as far as its end
/// decides.
pub open spec fn below_end<Q: Ranked>(end: Bound<&Q>, r: int) -> bool {
    match end {
        Bound::Included(q) => r <= q.rank(),
        Bound::Excluded(q) => r < q.rank(),
        Bound::Unbounded => true,
    }
}

/// Whether the range from `start` to `end` holds the rank `r`.
pub open spec fn within<Q: Ranked>(start: Bound<&Q>, end: Bound<&Q>, r: int) -> bool {
    above_start(start, r) && below_end(end, r)
}

impl Replicate for u8 {
    fn replicate(&self) -> (copy: Self) {
        *self
    }
}

impl Ranked for u8 {
    open spec fn rank(&self) -> int {
        *self as int
    }

    fn rank_of(&self) -> (r: i128) {
        *self as i128
    }
}

impl Replicate for u16 {
    fn replicate(&self) -> (copy: Self) {
        *self
    }
}

impl Ranked for u16 {
    open spec fn rank(&self) -> int {
        *self as int
    }

    fn rank_of(&self) -> (r: i128) {
        *self as i128
    }
}

impl Replicate for u32 {
    fn replicate(&self) -> (copy: Self) {
        *self
    }
}

impl Ranked for u32 {
    open spec fn rank(&self) -> int {
        *self as int
    }

    fn rank_of(&self) -> (r: i128) {
        *self as i128
    }
}

impl Replicate for u64 {
    fn replicate(&self) -> (copy: Self) {
        *self
    }
}

impl Ranked for u64 {
    open spec fn rank(&self) -> int {
        *self as int
    }

    fn rank_of(&self) -> (r: i128) {
        *self as i128
    }
}

impl Replicate for usize {
    fn replicate(&self) -> (copy: Self) {
        *self
    }
}

impl Ranked for usize {
    open spec fn rank(&self) -> int {
        *self as int
    }

    fn rank_of(&self) -> (r: i128) {
        *self as i128
    }
}

impl Replicate for i8 {
    fn replicate(&self) -> (copy: Self) {
        *self
    }
}

impl Ranked for i8 {
    open spec fn rank(&self) -> int {
        *self as int
    }

    fn rank_of(&self) -> (r: i128) {
        *self as i128
    }
}

impl Replicate for i16 {
    fn replicate(&self) -> (copy: Self) {
        *self
    }
}

impl Ranked for i16 {
    open spec fn rank(&self) -> int {
        *self as int
    }

    fn rank_of(&self) -> (r: i128) {
        *self as i128
    }
}

impl Replicate for i32 {
    fn replicate(&self) -> (copy: Self) {
        *self
    }
}

impl Ranked for i32 {
    open spec fn rank(&self) -> int {
        *self as int
    }

    fn rank_of(&self) -> (r: i128) {
        *self as i128
    }
}

impl Replicate for i64 {
    fn replicate(&self) -> (copy: Self) {
        *self
    }
}

impl Ranked for i64 {
    open spec fn rank(&self) -> int {
        *self as int
    }

    fn rank_of(&self) -> (r: i128) {
        *self as i128
    }
}

impl Replicate for i128 {
    fn replicate(&self) -> (copy: Self) {
        *self
    }
}

impl Ranked for i128 {
    open spec fn rank(&self) -> int {
        *self as int
    }

    fn rank_of(&self) -> (r: i128) {
        *self
    }
}

impl Replicate for isize {
    fn replicate(&self) -> (copy: Self) {
        *self
    }
}

impl Ranked for isize {
    open spec fn rank(&self) -> int {
        *self as int
    }

    fn rank_of(&self) -> (r: i128) {
        *self as i128
    }
}

impl Replicate for bool {
    fn replicate(&self) -> (copy: Self) {
        *self
    }
}

impl Replicate for char {
    fn replicate(&self) -> (copy: Self) {
        *self
    }
}

impl Replicate for () {
    fn replicate(&self) -> (copy: Self) {
        ()
    }
}

impl Replicate for String {
    fn replicate(&self) -> (copy: Self) {
        self.clone()
    }
}

impl<'a> Replicate for &'a str {
    fn replicate(&self) -> (copy: Self) {
        *self
    }
}

} // verus!
