use maze_nd::nav::{Axis, Direction, NavigationState};

#[test]
fn starts_at_origin_with_first_axes() {
    let nav = NavigationState::new(&vec![3, 4, 5], 77);
    assert_eq!(nav.axis(), [0, 1]);
    assert_eq!(nav.dims(), &vec![0, 0, 0]);
    assert_eq!(nav.dims_limit(), &vec![3, 4, 5]);
    assert_eq!(nav.pos(), [0, 0]);
    assert_eq!(nav.pos_limit(), [3, 4]);
}

#[test]
fn axis_accessors() {
    assert_eq!(Axis::X.invert(), Axis::Y);
    assert_eq!(Axis::Y.invert(), Axis::X);
    let mut pair = [10usize, 20usize];
    assert_eq!(*Axis::X.get(&pair), 10);
    assert_eq!(*Axis::Y.get(&pair), 20);
    *Axis::Y.get_mut(&mut pair) = 30;
    assert_eq!(pair, [10, 30]);
}

/// Shifting a slot cycles through the dimensions not held by the other
/// slot; the two visible axes stay distinct and in range throughout.
#[test]
fn shift_axis_cycles_and_keeps_axes_distinct() {
    let mut nav = NavigationState::new(&vec![2, 2, 2], 3);
    assert_eq!(nav.axis(), [0, 1]);
    nav.shift_axis(Axis::X, Direction::Positive);
    assert_eq!(nav.axis(), [2, 1]);
    nav.shift_axis(Axis::X, Direction::Positive);
    assert_eq!(nav.axis(), [0, 1]);
    nav.shift_axis(Axis::X, Direction::Negative);
    assert_eq!(nav.axis(), [2, 1]);
    nav.shift_axis(Axis::Y, Direction::Positive);
    assert_eq!(nav.axis(), [2, 0]);

    let d: usize = 4;
    let mut nav = NavigationState::new(&vec![2, 2, 2, 2], 3);
    let mut seen = [false; 4];
    for _ in 0..12 {
        nav.shift_axis(Axis::X, Direction::Positive);
        let [a, b] = nav.axis();
        assert!(a < d && b < d);
        assert!(a != b);
        seen[a] = true;
    }
    // every dimension but the one on the other slot is reachable
    assert!(seen[0] && seen[2] && seen[3]);
}

/// In two dimensions the only off-slot candidate is the current one: a
/// shift wraps back onto itself.
#[test]
fn shift_axis_two_dims_is_identity() {
    let mut nav = NavigationState::new(&vec![3, 3], 9);
    nav.shift_axis(Axis::X, Direction::Positive);
    assert_eq!(nav.axis(), [0, 1]);
    nav.shift_axis(Axis::Y, Direction::Negative);
    assert_eq!(nav.axis(), [0, 1]);
}

/// On a 5x1x1 grid the maze is the full corridor, so forward moves along
/// dimension 0 always succeed until the far wall.
#[test]
fn move_pos_walks_the_corridor() {
    let mut nav = NavigationState::new(&vec![5, 1, 1], 684153987);
    for expected in 1..5usize {
        nav.move_pos(Axis::X, Direction::Positive);
        assert_eq!(nav.pos()[0], expected);
    }
    // at the boundary: no change
    nav.move_pos(Axis::X, Direction::Positive);
    assert_eq!(nav.pos()[0], 4);
    // and back down
    for expected in (0..4usize).rev() {
        nav.move_pos(Axis::X, Direction::Negative);
        assert_eq!(nav.pos()[0], expected);
    }
    nav.move_pos(Axis::X, Direction::Negative);
    assert_eq!(nav.pos(), [0, 0]);
}

/// The Y slot of a 5x1x1 grid is a dimension of length one: every move
/// along it is absorbed as a no-op.
#[test]
fn move_pos_blocked_is_noop() {
    let mut nav = NavigationState::new(&vec![5, 1, 1], 684153987);
    nav.move_pos(Axis::Y, Direction::Positive);
    assert_eq!(nav.pos(), [0, 0]);
    nav.move_pos(Axis::Y, Direction::Negative);
    assert_eq!(nav.pos(), [0, 0]);
    assert_eq!(nav.can_move(1, Direction::Positive), None);
    assert_eq!(nav.can_move(0, Direction::Positive), Some(true));
}

/// A 2x2 view keeps three of its four inner edges, so exactly one inner
/// wall is listed; a 5x1 corridor view has no inner wall at all.
#[test]
fn iter_walls_lists_inner_walls() {
    let nav = NavigationState::new(&vec![2, 2], 11);
    let walls = nav.iter_walls();
    assert_eq!(walls.len(), 1);
    let (from, to) = walls[0];
    assert!(from[0] < 2 && from[1] < 2);
    assert!(to == [from[0] + 1, from[1]] || to == [from[0], from[1] + 1]);
    assert_eq!(nav.wall_in_current(from, if to[0] > from[0] { Axis::X } else { Axis::Y }), true);

    let corridor = NavigationState::new(&vec![5, 1, 1], 684153987);
    assert_eq!(corridor.iter_walls().len(), 0);
}

/// Wall queries outside the grid or into the border answer "no wall
/// segment": the border is drawn by the renderer, not listed as a wall.
#[test]
fn wall_in_current_border_is_not_a_wall() {
    let nav = NavigationState::new(&vec![2, 2], 11);
    assert_eq!(nav.wall_in_current([1, 0], Axis::X), false);
    assert_eq!(nav.wall_in_current([0, 1], Axis::Y), false);
    assert_eq!(nav.wall_in_current([7, 7], Axis::X), false);
}
