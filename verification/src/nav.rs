//! Navigation over a maze: the explorer's position and the pair of
//! dimensions currently projected onto a 2D view.
//!
//! The two projected dimensions (the focused axes) are always distinct and
//! in range; shifting an axis cycles through every dimension except the one
//! held by the other slot.  Movement is gated by the maze: a step is taken
//! exactly when the maze reports a walkable edge.

use vstd::prelude::*;

verus! {

use crate::grid::{cell_total, lengths_valid, coord_valid};
use crate::maze::{
    Maze,
    MazeMoveDir,
    WalkMaze,
    can_move_spec,
    gen_walks,
    generate_maze,
};

/// One of the two visible axis slots.
#[derive(PartialEq, Eq, Clone, Copy, Debug)]
pub enum Axis {
    X,
    Y,
}

/// The slot index (0 for X, 1 for Y) an `Axis` value selects.
pub open spec fn slot_of(axis: Axis) -> int {
    match axis {
        Axis::X => 0,
        Axis::Y => 1,
    }
}

impl Axis {
    /// The other slot.
    pub fn invert(&self) -> (r: Axis)
        ensures
            slot_of(r) == 1 - slot_of(*self),
    {
        match self {
            Axis::X => Axis::Y,
            Axis::Y => Axis::X,
        }
    }

    /// The component of a pair this slot selects.
    pub fn get<'a, T>(&self, v: &'a [T; 2]) -> (r: &'a T)
        ensures
            *r == v@[slot_of(*self)],
    {
        match self {
            Axis::X => &v[0],
            Axis::Y => &v[1],
        }
    }

    /// The component of a pair this slot selects, mutably.
    pub fn get_mut<'a, T>(&self, v: &'a mut [T; 2]) -> (r: &'a mut T)
        ensures
            *r == old(v)@[slot_of(*self)],
            final(v)@ == old(v)@.update(slot_of(*self), *final(r)),
    {
        match self {
            Axis::X => &mut v[0],
            Axis::Y => &mut v[1],
        }
    }
}

/// The direction of a step: towards higher or lower coordinates.
#[derive(PartialEq, Eq, Clone, Copy)]
pub enum Direction {
    Positive,
    Negative,
}

/// The dimension a shift moves a visible slot to: the dimensions other than
/// `other` form a cycle of length `d - 1`, and the slot advances one place
/// around it.
pub open spec fn shift_spec(d: int, cur: int, other: int, dir: Direction) -> int {
    let linear = if cur > other {
        cur - 1
    } else {
        cur
    };
    let moved = match dir {
        Direction::Positive => (linear + 1) % (d - 1),
        Direction::Negative => if linear == 0 {
            d - 2
        } else {
            linear - 1
        },
    };
    if moved >= other {
        moved + 1
    } else {
        moved
    }
}

/// Shifting keeps the two visible axes distinct and in range.
pub proof fn lemma_shift_in_range(d: int, cur: int, other: int, dir: Direction)
    requires
        d >= 2,
        0 <= cur < d,
        0 <= other < d,
        cur != other,
    ensures
        0 <= shift_spec(d, cur, other, dir) < d,
        shift_spec(d, cur, other, dir) != other,
{
    let linear = if cur > other {
        cur - 1
    } else {
        cur
    };
    assert(0 <= linear < d - 1);
    let moved = match dir {
        Direction::Positive => (linear + 1) % (d - 1),
        Direction::Negative => if linear == 0 {
            d - 2
        } else {
            linear - 1
        },
    };
    assert(0 <= moved < d - 1) by {
        vstd::arithmetic::div_mod::lemma_mod_pos_bound(linear + 1, d - 1);
    }
}

/// The explorer's state over a maze: the current coordinate and the two
/// dimensions mapped to the 2D view.
pub struct NavigationState {
    pub maze: WalkMaze,
    pub position: Vec<usize>,
    pub axis: [usize; 2],
}

impl NavigationState {
    /// The navigation invariant: a well-formed maze of at least two
    /// dimensions, an in-range position, and two distinct in-range visible
    /// axes.
    pub open spec fn wf(&self) -> bool {
        &&& self.maze.wf()
        &&& self.maze.lengths@.len() >= 2
        &&& coord_valid(self.maze.lengths@, self.position@)
        &&& self.axis@[0] < self.maze.lengths@.len()
        &&& self.axis@[1] < self.maze.lengths@.len()
        &&& self.axis@[0] != self.axis@[1]
    }

    /// The dimension bound to a visible slot.
    pub open spec fn slot_dim(&self, axis: Axis) -> int {
        self.axis@[slot_of(axis)] as int
    }

    /// Builds a maze from the lengths and seed and places the explorer at
    /// the origin, with dimensions 0 and 1 on the visible axes.
    pub fn new(lengths: &Vec<usize>, seed: u64) -> (nav: NavigationState)
        requires
            lengths@.len() >= 2,
            lengths_valid(lengths@),
            cell_total(lengths@) * lengths@.len() <= usize::MAX,
        ensures
            nav.wf(),
            nav.maze.lengths@ == lengths@,
            nav.maze.walks@ == gen_walks(lengths@, seed),
            nav.position@ == Seq::new(lengths@.len(), |i: int| 0usize),
            nav.axis@[0] == 0 && nav.axis@[1] == 1,
    {
        let maze = generate_maze(lengths, seed);
        let mut position: Vec<usize> = Vec::new();
        let mut i: usize = 0;
        while i < lengths.len()
            invariant
                position@.len() == i,
                i <= lengths@.len(),
                forall|m: int| 0 <= m < i ==> position@[m] == 0,
            decreases lengths@.len() - i,
        {
            position.push(0);
            i += 1;
        }
        proof {
            assert(position@ =~= Seq::new(lengths@.len(), |m: int| 0usize));
        }
        NavigationState { maze, position, axis: [0, 1] }
    }

    /// The two dimensions currently mapped to the visible axes.
    pub fn axis(&self) -> (r: [usize; 2])
        ensures
            r == self.axis,
    {
        self.axis
    }

    /// The full per-dimension lengths of the maze's grid.
    pub fn dims_limit(&self) -> (r: &Vec<usize>)
        ensures
            r@ == self.maze.lengths@,
    {
        &self.maze.lengths
    }

    /// The explorer's full coordinate, one component per dimension.
    pub fn dims(&self) -> (r: &Vec<usize>)
        ensures
            r@ == self.position@,
    {
        &self.position
    }

    /// The grid lengths of the two visible dimensions.
    pub fn pos_limit(&self) -> (r: [usize; 2])
        requires
            self.wf(),
        ensures
            r@[0] == self.maze.lengths@[self.axis@[0] as int],
            r@[1] == self.maze.lengths@[self.axis@[1] as int],
    {
        [self.maze.lengths[self.axis[0]], self.maze.lengths[self.axis[1]]]
    }

    /// The explorer's coordinate components along the two visible dimensions.
    pub fn pos(&self) -> (r: [usize; 2])
        requires
            self.wf(),
        ensures
            r@[0] == self.position@[self.axis@[0] as int],
            r@[1] == self.position@[self.axis@[1] as int],
    {
        [self.position[self.axis[0]], self.position[self.axis[1]]]
    }

    /// Rotates the dimension bound to the chosen visible slot one place
    /// through the dimensions not bound to the other slot.
    pub fn shift_axis(&mut self, axis: Axis, dir: Direction)
        requires
            old(self).wf(),
        ensures
            final(self).wf(),
            final(self).maze == old(self).maze,
            final(self).position == old(self).position,
            final(self).axis@[1 - slot_of(axis)] == old(self).axis@[1 - slot_of(axis)],
            final(self).axis@[slot_of(axis)] == shift_spec(
                old(self).maze.lengths@.len() as int,
                old(self).axis@[slot_of(axis)] as int,
                old(self).axis@[1 - slot_of(axis)] as int,
                dir,
            ),
    {
        let d = self.maze.lengths.len();
        let target_axis = *axis.get(&self.axis);
        let off_target_axis = *axis.invert().get(&self.axis);

        let linear_current = if target_axis > off_target_axis {
            target_axis - 1
        } else {
            target_axis
        };

        proof {
            lemma_shift_in_range(
                d as int,
                target_axis as int,
                off_target_axis as int,
                dir,
            );
        }
        let moved = match dir {
            Direction::Positive => (linear_current + 1) % (d - 1),
            Direction::Negative => if linear_current == 0 {
                d - 2
            } else {
                linear_current - 1
            },
        };
        let dest = if moved >= off_target_axis {
            moved + 1
        } else {
            moved
        };

        let slot = axis.get_mut(&mut self.axis);
        *slot = dest;
    }

    /// Whether the explorer can step along the dimension `dim` in the given
    /// direction: `Some(true)` for a walkable edge, `Some(false)` for a
    /// wall, `None` at the grid boundary.
    pub fn can_move(&self, dim: usize, dir: Direction) -> (r: Option<bool>)
        requires
            self.wf(),
        ensures
            r == can_move_spec(
                self.maze.lengths@,
                self.maze.walks@,
                self.position@,
                dim as int,
                nav_move_dir(dir),
            ),
    {
        match dir {
            Direction::Positive => self.maze.can_move(&self.position, dim, MazeMoveDir::Forward),
            Direction::Negative => self.maze.can_move(&self.position, dim, MazeMoveDir::Backward),
        }
    }

    /// Steps the explorer one unit along the dimension bound to the chosen
    /// visible slot, if and only if the maze reports a walkable edge there;
    /// anything else (wall or boundary) leaves the position unchanged.
    pub fn move_pos(&mut self, axis: Axis, dir: Direction)
        requires
            old(self).wf(),
        ensures
            final(self).wf(),
            final(self).maze == old(self).maze,
            final(self).axis == old(self).axis,
            ({
                let dim = old(self).slot_dim(axis);
                let gate = can_move_spec(
                    old(self).maze.lengths@,
                    old(self).maze.walks@,
                    old(self).position@,
                    dim,
                    nav_move_dir(dir),
                );
                if gate == Some(true) {
                    final(self).position@ == old(self).position@.update(
                        dim,
                        (old(self).position@[dim] + step_delta(dir)) as usize,
                    )
                } else {
                    final(self).position@ == old(self).position@
                }
            }),
    {
        let dim = *axis.get(&self.axis);
        let walkable = self.can_move(dim, dir);
        match walkable {
            Some(true) => {
                let cur = self.position[dim];
                match dir {
                    Direction::Positive => {
                        proof {
                            lemma_gate_bounds(
                                self.maze.lengths@,
                                self.maze.walks@,
                                self.position@,
                                dim as int,
                                MazeMoveDir::Forward,
                            );
                        }
                        self.position.set(dim, cur + 1);
                    },
                    Direction::Negative => {
                        proof {
                            lemma_gate_bounds(
                                self.maze.lengths@,
                                self.maze.walks@,
                                self.position@,
                                dim as int,
                                MazeMoveDir::Backward,
                            );
                        }
                        self.position.set(dim, cur - 1);
                    },
                }
            },
            _ => {},
        }
    }
}

/// Where the X and Y walls of one viewed cell land in a wall listing.
pub open spec fn cell_walls(nav: NavigationState, x: usize, y: usize) -> Seq<
    ([usize; 2], [usize; 2]),
> {
    let a: Seq<([usize; 2], [usize; 2])> = if nav.wall_in_view(x, y, Axis::X) {
        seq![([x, y], [(x + 1) as usize, y])]
    } else {
        Seq::empty()
    };
    let b: Seq<([usize; 2], [usize; 2])> = if nav.wall_in_view(x, y, Axis::Y) {
        seq![([x, y], [x, (y + 1) as usize])]
    } else {
        Seq::empty()
    };
    a + b
}

/// The walls of the first `y_end` cells of viewed column `x`.
pub open spec fn row_walls(nav: NavigationState, x: usize, y_end: int) -> Seq<
    ([usize; 2], [usize; 2]),
>
    decreases y_end,
{
    if y_end <= 0 {
        Seq::empty()
    } else {
        row_walls(nav, x, y_end - 1) + cell_walls(nav, x, (y_end - 1) as usize)
    }
}

/// The walls of the first `x_end` viewed columns.
pub open spec fn walls_upto(nav: NavigationState, x_end: int) -> Seq<([usize; 2], [usize; 2])>
    decreases x_end,
{
    if x_end <= 0 {
        Seq::empty()
    } else {
        walls_upto(nav, x_end - 1) + row_walls(
            nav,
            (x_end - 1) as usize,
            nav.maze.lengths@[nav.axis@[1] as int] as int,
        )
    }
}

/// Every wall segment of the current 2D view, cell by cell in column-major
/// order.
pub open spec fn walls_view(nav: NavigationState) -> Seq<([usize; 2], [usize; 2])> {
    walls_upto(nav, nav.maze.lengths@[nav.axis@[0] as int] as int)
}

impl NavigationState {
    /// The explorer's coordinate with the visible components replaced: the
    /// cell of the current 2D view that a viewed point denotes.
    pub open spec fn view_cursor(&self, px: usize, py: usize) -> Seq<usize> {
        self.position@.update(self.axis@[0] as int, px).update(self.axis@[1] as int, py)
    }

    /// Whether the viewed cell `(px, py)` has a wall on its upper side along
    /// the chosen visible axis.  The grid border is not a wall segment.
    pub open spec fn wall_in_view(&self, px: usize, py: usize, axis: Axis) -> bool {
        can_move_spec(
            self.maze.lengths@,
            self.maze.walks@,
            self.view_cursor(px, py),
            self.slot_dim(axis),
            MazeMoveDir::Forward,
        ) == Some(false)
    }

    /// Whether the viewed cell has a wall on its upper side along the chosen
    /// visible axis, holding all non-visible coordinates at the explorer's
    /// position.
    pub fn wall_in_current(&self, position: [usize; 2], axis: Axis) -> (r: bool)
        requires
            self.wf(),
        ensures
            r == self.wall_in_view(position[0], position[1], axis),
    {
        let mut cursor = self.position.clone();
        cursor.set(self.axis[0], position[0]);
        cursor.set(self.axis[1], position[1]);
        let dim = *axis.get(&self.axis);
        match self.maze.can_move(&cursor, dim, MazeMoveDir::Forward) {
            Some(walkable) => !walkable,
            None => false,
        }
    }

    /// Lists every wall segment of the current 2D view: for each viewed
    /// cell, its upper-X and upper-Y walls, as endpoint pairs in view
    /// coordinates.
    pub fn iter_walls(&self) -> (r: Vec<([usize; 2], [usize; 2])>)
        requires
            self.wf(),
        ensures
            r@ == walls_view(*self),
    {
        let length_x = self.maze.lengths[self.axis[0]];
        let length_y = self.maze.lengths[self.axis[1]];
        let mut r: Vec<([usize; 2], [usize; 2])> = Vec::new();
        let mut x: usize = 0;
        while x < length_x
            invariant
                self.wf(),
                x <= length_x,
                length_x == self.maze.lengths@[self.axis@[0] as int],
                length_y == self.maze.lengths@[self.axis@[1] as int],
                r@ == walls_upto(*self, x as int),
            decreases length_x - x,
        {
            let mut y: usize = 0;
            while y < length_y
                invariant
                    self.wf(),
                    x < length_x,
                    y <= length_y,
                    length_x == self.maze.lengths@[self.axis@[0] as int],
                    length_y == self.maze.lengths@[self.axis@[1] as int],
                    r@ == walls_upto(*self, x as int) + row_walls(*self, x, y as int),
                decreases length_y - y,
            {
                let ghost before = r@;
                if self.wall_in_current([x, y], Axis::X) {
                    r.push(([x, y], [x + 1, y]));
                }
                if self.wall_in_current([x, y], Axis::Y) {
                    r.push(([x, y], [x, y + 1]));
                }
                proof {
                    assert(r@ =~= before + cell_walls(*self, x, y));
                    assert(walls_upto(*self, x as int) + row_walls(*self, x, y as int + 1)
                        =~= before + cell_walls(*self, x, y));
                }
                y += 1;
            }
            proof {
                assert(walls_upto(*self, x as int + 1) =~= walls_upto(*self, x as int)
                    + row_walls(*self, x, length_y as int));
            }
            x += 1;
        }
        r
    }
}

/// The maze-level direction a navigation direction denotes.
pub open spec fn nav_move_dir(dir: Direction) -> MazeMoveDir {
    match dir {
        Direction::Positive => MazeMoveDir::Forward,
        Direction::Negative => MazeMoveDir::Backward,
    }
}

/// The coordinate change of a step in each direction.
pub open spec fn step_delta(dir: Direction) -> int {
    match dir {
        Direction::Positive => 1,
        Direction::Negative => -1,
    }
}

/// When a movement query answers `Some(true)`, both endpoints are in range,
/// so the stepped component neither overflows nor leaves the grid.
proof fn lemma_gate_bounds(
    lengths: Seq<usize>,
    walks: Seq<bool>,
    point: Seq<usize>,
    dim: int,
    mdir: MazeMoveDir,
)
    requires
        can_move_spec(lengths, walks, point, dim, mdir) == Some(true),
        0 <= dim < point.len(),
    ensures
        mdir is Forward ==> point[dim] + 1 < lengths[dim],
        mdir is Backward ==> point[dim] >= 1 && point[dim] - 1 < lengths[dim],
        coord_valid(lengths, point),
{
}

} // verus!

