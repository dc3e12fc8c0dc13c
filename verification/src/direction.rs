use vstd::prelude::*;

verus! {

/// One of the eight compass directions a straight run of cells may follow.
#[derive(Clone, Copy, PartialEq, Eq, Structural, Debug)]
pub enum Direction {
    Up,
    Down,
    Left,
    Right,
    LeftUp,
    LeftDown,
    RightUp,
    RightDown,
}

/// The row component of a direction's unit offset.
pub open spec fn row_off(d: Direction) -> int {
    match d {
        Direction::Up => -1,
        Direction::Down => 1,
        Direction::Left => 0,
        Direction::Right => 0,
        Direction::LeftUp => -1,
        Direction::LeftDown => 1,
        Direction::RightUp => -1,
        Direction::RightDown => 1,
    }
}

/// The column component of a direction's unit offset.
pub open spec fn col_off(d: Direction) -> int {
    match d {
        Direction::Up => 0,
        Direction::Down => 0,
        Direction::Left => -1,
        Direction::Right => 1,
        Direction::LeftUp => -1,
        Direction::LeftDown => -1,
        Direction::RightUp => 1,
        Direction::RightDown => 1,
    }
}

/// The direction whose unit offset is the negation of `d`'s.
pub open spec fn opposite(d: Direction) -> Direction {
    match d {
        Direction::Up => Direction::Down,
        Direction::Down => Direction::Up,
        Direction::Left => Direction::Right,
        Direction::Right => Direction::Left,
        Direction::LeftUp => Direction::RightDown,
        Direction::LeftDown => Direction::RightUp,
        Direction::RightUp => Direction::LeftDown,
        Direction::RightDown => Direction::LeftUp,
    }
}

/// Walking one step in `opposite(d)` undoes a step in `d`.
pub proof fn lemma_opposite_off(d: Direction)
    ensures
        row_off(opposite(d)) == -row_off(d),
        col_off(opposite(d)) == -col_off(d),
{
}

impl Direction {
    /// All eight directions, each exactly once.
    pub fn get_dirs() -> (r: Vec<Direction>)
        ensures
            r@ =~= seq![
                Direction::Up,
                Direction::Down,
                Direction::Left,
                Direction::Right,
                Direction::LeftUp,
                Direction::LeftDown,
                Direction::RightUp,
                Direction::RightDown,
            ],
            forall|d: Direction| r@.contains(d),
    {
        let r: Vec<Direction> = vec![
            Direction::Up,
            Direction::Down,
            Direction::Left,
            Direction::Right,
            Direction::LeftUp,
            Direction::LeftDown,
            Direction::RightUp,
            Direction::RightDown,
        ];
        proof {
            assert forall|d: Direction| r@.contains(d) by {
                match d {
                    Direction::Up => assert(r@[0] == d),
                    Direction::Down => assert(r@[1] == d),
                    Direction::Left => assert(r@[2] == d),
                    Direction::Right => assert(r@[3] == d),
                    Direction::LeftUp => assert(r@[4] == d),
                    Direction::LeftDown => assert(r@[5] == d),
                    Direction::RightUp => assert(r@[6] == d),
                    Direction::RightDown => assert(r@[7] == d),
                }
            }
        }
        r
    }

    /// The unit offset `(row delta, column delta)` of this direction.
    pub fn dir_to_offset(&self) -> (r: (i32, i32))
        ensures
            r.0 as int == row_off(*self),
            r.1 as int == col_off(*self),
    {
        match self {
            Direction::Up => (-1, 0),
            Direction::Down => (1, 0),
            Direction::Left => (0, -1),
            Direction::Right => (0, 1),
            Direction::LeftDown => (1, -1),
            Direction::LeftUp => (-1, -1),
            Direction::RightDown => (1, 1),
            Direction::RightUp => (-1, 1),
        }
    }
}

} // verus!
