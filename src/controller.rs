use vstd::prelude::*;

verus! {

/// What a decoded input asks a snake to do.
pub enum MoveOpt<T> {
    /// Turn to the given heading.
    Go(T),
    /// An input that maps to no heading.
    Same,
    /// No input at all.
    Idle,
}

/// The four headings of a snake.
#[derive(PartialEq, Eq, Structural, PartialOrd, Clone, Copy, Debug)]
pub enum Directions {
    UP,
    DOWN,
    LEFT,
    RIGHT,
}

} // verus!
