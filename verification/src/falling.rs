//! The falling pair of interactive play: its pose on the field, the moves
//! a player makes with it, and the hard drop that ends its fall.
//!
//! Rows 0 through 13 can hold the pair; row 13, above the hidden row, is
//! always free. The pair spawns with its axis on row 13.

use vstd::prelude::*;
use crate::board::{Board, Cell};
use crate::board;
use crate::game::{Placement, Rotation};
use crate::game;

verus! {

broadcast use board::lemma_board_len;

/// The axis cell of the falling pair and the direction of its child.
#[derive(Debug, Clone, Copy, PartialEq, Eq, Structural)]
pub struct Falling {
    pub x: i8,
    pub y: i8,
    pub rotation: Rotation,
}

/// The direction of the child from the axis.
pub open spec fn child_offset(r: Rotation) -> (int, int) {
    match r {
        Rotation::Right => (1, 0),
        Rotation::Down => (0, -1),
        Rotation::Left => (-1, 0),
        Rotation::Up => (0, 1),
    }
}

/// The cell `(x, y)` can hold a falling puyo: on the field and free, or on
/// the row above the field.
pub open spec fn cell_free(b: Seq<Cell>, x: int, y: int) -> bool {
    0 <= x < 6 && 0 <= y <= 13 && (y == 13 || b[y * 6 + x] == Cell::Empty)
}

/// Both cells of the pose are free.
pub open spec fn pose_free(b: Seq<Cell>, f: Falling) -> bool {
    &&& cell_free(b, f.x as int, f.y as int)
    &&& cell_free(b, f.x + child_offset(f.rotation).0, f.y + child_offset(f.rotation).1)
}

pub open spec fn fits_i8(v: int) -> bool {
    -128 <= v <= 127
}

/// The child's cell can be computed without leaving `i8`.
pub open spec fn child_in_range(f: Falling) -> bool {
    fits_i8(f.x + child_offset(f.rotation).0) && fits_i8(f.y + child_offset(f.rotation).1)
}

pub open spec fn turned_cw(r: Rotation) -> Rotation {
    match r {
        Rotation::Up => Rotation::Right,
        Rotation::Right => Rotation::Down,
        Rotation::Down => Rotation::Left,
        Rotation::Left => Rotation::Up,
    }
}

pub open spec fn turned_ccw(r: Rotation) -> Rotation {
    match r {
        Rotation::Up => Rotation::Left,
        Rotation::Left => Rotation::Down,
        Rotation::Down => Rotation::Right,
        Rotation::Right => Rotation::Up,
    }
}

pub open spec fn turned_half(r: Rotation) -> Rotation {
    match r {
        Rotation::Up => Rotation::Down,
        Rotation::Down => Rotation::Up,
        Rotation::Left => Rotation::Right,
        Rotation::Right => Rotation::Left,
    }
}

/// The shift tried when turning into `r` is blocked.
pub open spec fn kick(r: Rotation) -> (int, int) {
    match r {
        Rotation::Right => (-1, 0),
        Rotation::Down => (0, 1),
        Rotation::Left => (1, 0),
        Rotation::Up => (0, -1),
    }
}

/// The pose turned into `target`, if it fits directly or after its kick.
pub open spec fn turn_result(b: Seq<Cell>, f: Falling, target: Rotation) -> Option<Falling> {
    let direct = Falling { x: f.x, y: f.y, rotation: target };
    let kicked = Falling {
        x: (f.x + kick(target).0) as i8,
        y: (f.y + kick(target).1) as i8,
        rotation: target,
    };
    if pose_free(b, direct) {
        Some(direct)
    } else if pose_free(b, kicked) {
        Some(kicked)
    } else {
        None
    }
}

/// Every computation of a turn into `target` stays within `i8`.
pub open spec fn turn_in_range(f: Falling, target: Rotation) -> bool {
    let kicked_x = f.x + kick(target).0;
    let kicked_y = f.y + kick(target).1;
    &&& child_in_range(Falling { x: f.x, y: f.y, rotation: target })
    &&& fits_i8(kicked_x)
    &&& fits_i8(kicked_y)
    &&& fits_i8(kicked_x + child_offset(target).0)
    &&& fits_i8(kicked_y + child_offset(target).1)
}

impl Falling {
    /// The spawn pose: axis in column 2 on the row above the field, child
    /// above it.
    pub fn spawn() -> (r: Falling)
        ensures
            r == (Falling { x: 2, y: 13, rotation: Rotation::Up }),
    {
        Falling { x: 2, y: 13, rotation: Rotation::Up }
    }

    /// The axis cell and the child cell.
    pub fn cells(self) -> (r: [(i8, i8); 2])
        requires
            child_in_range(self),
        ensures
            r@[0] == (self.x, self.y),
            r@[1].0 == self.x + child_offset(self.rotation).0,
            r@[1].1 == self.y + child_offset(self.rotation).1,
    {
        let (dx, dy): (i8, i8) = match self.rotation {
            Rotation::Right => (1, 0),
            Rotation::Down => (0, -1),
            Rotation::Left => (-1, 0),
            Rotation::Up => (0, 1),
        };
        [(self.x, self.y), (self.x + dx, self.y + dy)]
    }

    /// The placement the pose locks into.
    pub fn placement(self) -> (r: Placement)
        ensures
            r.axis_column == self.x as u8,
            r.rotation == self.rotation,
    {
        Placement { axis_column: self.x as u8, rotation: self.rotation }
    }
}

/// Whether the cell `(x, y)` can hold a falling puyo.
pub fn valid(board: &Board, x: i8, y: i8) -> (r: bool)
    ensures
        r == cell_free(board@, x as int, y as int),
{
    x >= 0 && x < 6 && y >= 0 && y <= 13 && (y == 13 || board.get(x as usize, y as usize)
        == Cell::Empty)
}

/// Whether both cells of the pose can hold it.
pub fn valid_pose(board: &Board, pose: Falling) -> (r: bool)
    requires
        child_in_range(pose),
    ensures
        r == pose_free(board@, pose),
{
    let cells = pose.cells();
    valid(board, cells[0].0, cells[0].1) && valid(board, cells[1].0, cells[1].1)
}

/// Turns the pose into `target` where it fits, trying its kick when the
/// direct turn is blocked.
pub fn try_rotate(board: &Board, pose: Falling, target: Rotation) -> (r: Option<Falling>)
    requires
        turn_in_range(pose, target),
    ensures
        r == turn_result(board@, pose, target),
{
    let direct = Falling { x: pose.x, y: pose.y, rotation: target };
    if valid_pose(board, direct) {
        return Some(direct);
    }
    let (dx, dy): (i8, i8) = match target {
        Rotation::Right => (-1, 0),
        Rotation::Down => (0, 1),
        Rotation::Left => (1, 0),
        Rotation::Up => (0, -1),
    };
    let kicked = Falling { x: pose.x + dx, y: pose.y + dy, rotation: target };
    if valid_pose(board, kicked) {
        Some(kicked)
    } else {
        None
    }
}

pub fn rotate_cw(r: Rotation) -> (t: Rotation)
    ensures
        t == turned_cw(r),
{
    match r {
        Rotation::Up => Rotation::Right,
        Rotation::Right => Rotation::Down,
        Rotation::Down => Rotation::Left,
        Rotation::Left => Rotation::Up,
    }
}

pub fn rotate_ccw(r: Rotation) -> (t: Rotation)
    ensures
        t == turned_ccw(r),
{
    match r {
        Rotation::Up => Rotation::Left,
        Rotation::Left => Rotation::Down,
        Rotation::Down => Rotation::Right,
        Rotation::Right => Rotation::Up,
    }
}

pub fn rotate_180(r: Rotation) -> (t: Rotation)
    ensures
        t == turned_half(r),
{
    match r {
        Rotation::Up => Rotation::Down,
        Rotation::Down => Rotation::Up,
        Rotation::Left => Rotation::Right,
        Rotation::Right => Rotation::Left,
    }
}

/// A blocked turn is retried with the pair moved away from where its
/// child would go: when the turned pose does not fit and the turn
/// succeeds, the child takes the cell the axis left.
pub proof fn blocked_turns_kick_away_from_the_child(b: Seq<Cell>, f: Falling, target: Rotation)
    requires
        turn_in_range(f, target),
    ensures
        turn_result(b, f, target) matches Some(n) ==> n.rotation == target,
        !pose_free(b, Falling { x: f.x, y: f.y, rotation: target }) ==> (turn_result(b, f, target) matches Some(n)
            ==> n.x + child_offset(target).0 == f.x && n.y + child_offset(target).1 == f.y),
        pose_free(b, Falling { x: f.x, y: f.y, rotation: target }) ==> turn_result(b, f, target) == Some(
            Falling { x: f.x, y: f.y, rotation: target },
        ),
{
}

/// At the right wall, in the row above the field, a pair standing up turns
/// right by moving one column left, whatever the field holds.
pub proof fn right_wall_turn_moves_left(b: Seq<Cell>)
    requires
        b.len() == 78,
    ensures
        turn_result(b, Falling { x: 5, y: 13, rotation: Rotation::Up }, Rotation::Right) == Some(
            Falling { x: 4, y: 13, rotation: Rotation::Right },
        ),
        turn_result(b, Falling { x: 0, y: 13, rotation: Rotation::Up }, Rotation::Left) == Some(
            Falling { x: 1, y: 13, rotation: Rotation::Left },
        ),
{
}

/// A player's move of the falling pair.
#[derive(Debug, Clone, Copy, PartialEq, Eq, Structural)]
pub enum Control {
    Left,
    Right,
    SoftDrop,
    RotateCw,
    RotateCcw,
    Rotate180,
}

/// The pose after a move: a shift or soft drop happens only where the
/// moved pair fits, and a turn only where `try_rotate` finds room.
pub open spec fn controlled(b: Seq<Cell>, f: Falling, c: Control) -> Falling {
    let shifted = match c {
        Control::Left => Falling { x: (f.x - 1) as i8, ..f },
        Control::Right => Falling { x: (f.x + 1) as i8, ..f },
        _ => Falling { y: (f.y - 1) as i8, ..f },
    };
    match c {
        Control::RotateCw => match turn_result(b, f, turned_cw(f.rotation)) {
            Some(n) => n,
            None => f,
        },
        Control::RotateCcw => match turn_result(b, f, turned_ccw(f.rotation)) {
            Some(n) => n,
            None => f,
        },
        Control::Rotate180 => match turn_result(b, f, turned_half(f.rotation)) {
            Some(n) => n,
            None => f,
        },
        _ => if pose_free(b, shifted) {
            shifted
        } else {
            f
        },
    }
}

/// The pose moved to row `y`.
pub open spec fn at_row(f: Falling, y: int) -> Falling {
    Falling { y: y as i8, ..f }
}

/// The move can be worked out without leaving `i8`: the shifted or
/// lowered pose and its child cell, or for a turn the turned pose, its kick
/// and their child cells.
pub open spec fn control_in_range(f: Falling, c: Control) -> bool {
    match c {
        Control::Left => fits_i8(f.x - 1) && child_in_range(Falling { x: (f.x - 1) as i8, ..f }),
        Control::Right => fits_i8(f.x + 1) && child_in_range(Falling { x: (f.x + 1) as i8, ..f }),
        Control::SoftDrop => drop_in_range(f),
        Control::RotateCw => turn_in_range(f, turned_cw(f.rotation)),
        Control::RotateCcw => turn_in_range(f, turned_ccw(f.rotation)),
        Control::Rotate180 => turn_in_range(f, turned_half(f.rotation)),
    }
}

/// The pose one row lower and its child cell lie within `i8`.
pub open spec fn drop_in_range(f: Falling) -> bool {
    fits_i8(f.y - 1) && child_in_range(Falling { y: (f.y - 1) as i8, ..f })
}

/// Applies one move to the falling pair.
pub fn apply_control(board: &Board, falling: Falling, control: Control) -> (r: Falling)
    requires
        control_in_range(falling, control),
    ensures
        r == controlled(board@, falling, control),
{
    match control {
        Control::Left => {
            let next = Falling { x: falling.x - 1, ..falling };
            if valid_pose(board, next) {
                next
            } else {
                falling
            }
        },
        Control::Right => {
            let next = Falling { x: falling.x + 1, ..falling };
            if valid_pose(board, next) {
                next
            } else {
                falling
            }
        },
        Control::SoftDrop => {
            let next = Falling { y: falling.y - 1, ..falling };
            if valid_pose(board, next) {
                next
            } else {
                falling
            }
        },
        Control::RotateCw => match try_rotate(board, falling, rotate_cw(falling.rotation)) {
            Some(next) => next,
            None => falling,
        },
        Control::RotateCcw => match try_rotate(board, falling, rotate_ccw(falling.rotation)) {
            Some(next) => next,
            None => falling,
        },
        Control::Rotate180 => match try_rotate(board, falling, rotate_180(falling.rotation)) {
            Some(next) => next,
            None => falling,
        },
    }
}

/// Sinks the pair until the next row down no longer fits.
pub fn hard_drop(board: &Board, falling: Falling) -> (r: Falling)
    requires
        drop_in_range(falling),
    ensures
        r.x == falling.x,
        r.rotation == falling.rotation,
        r.y <= falling.y,
        forall|t: int|
            r.y <= t < falling.y ==> #[trigger] pose_free(board@, at_row(falling, t)),
        !pose_free(board@, at_row(falling, r.y - 1)),
{
    let mut pose = falling;
    loop
        invariant
            pose.x == falling.x,
            pose.rotation == falling.rotation,
            pose.y <= falling.y,
            pose.y == falling.y || pose.y >= 0,
            drop_in_range(falling),
            forall|t: int|
                pose.y <= t < falling.y ==> #[trigger] pose_free(board@, at_row(falling, t)),
        ensures
            !pose_free(board@, at_row(falling, pose.y - 1)),
        decreases pose.y + 128,
    {
        let next = Falling { y: pose.y - 1, ..pose };
        if !valid_pose(board, next) {
            break;
        }
        pose = next;
    }
    pose
}

} // verus!
