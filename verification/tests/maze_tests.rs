use maze_nd::cells::MazeGenCell;
use maze_nd::grid::unwrap_index;
use maze_nd::maze::{generate_maze, Maze, MazeMoveDir};

#[test]
fn maze_cell_ref_merge_roots() {
    let mut cells = vec![MazeGenCell::new(0), MazeGenCell::new(1), MazeGenCell::new(2)];

    assert_eq!(MazeGenCell::try_merge(&mut cells, 0, 1), true);
    assert_eq!(MazeGenCell::try_merge(&mut cells, 0, 1), false);
    assert_eq!(MazeGenCell::try_merge(&mut cells, 1, 0), false);

    assert_eq!(MazeGenCell::try_merge(&mut cells, 1, 2), true);
    assert_eq!(MazeGenCell::try_merge(&mut cells, 0, 2), false);
}

#[test]
fn maze_cell_ref_merge_roots_alternate() {
    let mut cells = vec![MazeGenCell::new(0), MazeGenCell::new(1), MazeGenCell::new(2)];

    assert_eq!(MazeGenCell::try_merge(&mut cells, 0, 1), true);
    assert_eq!(MazeGenCell::try_merge(&mut cells, 0, 1), false);
    assert_eq!(MazeGenCell::try_merge(&mut cells, 1, 0), false);

    assert_eq!(MazeGenCell::try_merge(&mut cells, 0, 2), true);
    assert_eq!(MazeGenCell::try_merge(&mut cells, 1, 2), false);
}

#[test]
fn unwrap_index_verify() {
    assert_eq!(unwrap_index(&vec![2], 0), Some(vec![0]));
    assert_eq!(unwrap_index(&vec![2], 1), Some(vec![1]));
    assert_eq!(unwrap_index(&vec![2], 2), None);
}

#[test]
fn verify_generates() {
    let maze = generate_maze(&vec![5, 5, 5, 5, 5], 684153987);

    assert_eq!(
        maze.can_move(&vec![1, 2, 3214, 2, 2], 2, MazeMoveDir::Forward),
        None
    );
}

#[test]
fn verify_generates_single() {
    let maze = generate_maze(&vec![5, 1, 1], 684153987);

    assert_eq!(
        maze.can_move(&vec![0, 0, 0], 0, MazeMoveDir::Forward),
        Some(true)
    );
    assert_eq!(
        maze.can_move(&vec![1, 0, 0], 0, MazeMoveDir::Forward),
        Some(true)
    );
    assert_eq!(
        maze.can_move(&vec![2, 0, 0], 0, MazeMoveDir::Forward),
        Some(true)
    );
    assert_eq!(
        maze.can_move(&vec![3, 0, 0], 0, MazeMoveDir::Forward),
        Some(true)
    );
    assert_eq!(maze.can_move(&vec![4, 0, 0], 0, MazeMoveDir::Forward), None);

    assert_eq!(maze.can_move(&vec![0, 0, 0], 0, MazeMoveDir::Backward), None);
    assert_eq!(
        maze.can_move(&vec![1, 0, 0], 0, MazeMoveDir::Backward),
        Some(true)
    );
    assert_eq!(
        maze.can_move(&vec![2, 0, 0], 0, MazeMoveDir::Backward),
        Some(true)
    );
    assert_eq!(
        maze.can_move(&vec![3, 0, 0], 0, MazeMoveDir::Backward),
        Some(true)
    );
    assert_eq!(
        maze.can_move(&vec![4, 0, 0], 0, MazeMoveDir::Backward),
        Some(true)
    );
}

/// A 3x3 maze keeps exactly 3*3 - 1 edges, and a breadth-first walk from
/// the origin along walkable edges visits all 9 cells exactly once.
#[test]
fn spanning_tree_three_by_three() {
    let lengths = vec![3usize, 3usize];
    let maze = generate_maze(&lengths, 42);

    let kept = maze.walks.iter().filter(|w| **w).count();
    assert_eq!(kept, 8);

    let mut visited = [[false; 3]; 3];
    let mut queue: Vec<[usize; 2]> = vec![[0, 0]];
    visited[0][0] = true;
    let mut seen: usize = 0;
    while let Some([x, y]) = queue.pop() {
        seen += 1;
        for dim in 0..2 {
            if maze.can_move(&vec![x, y], dim, MazeMoveDir::Forward) == Some(true) {
                let next = if dim == 0 { [x + 1, y] } else { [x, y + 1] };
                if !visited[next[0]][next[1]] {
                    visited[next[0]][next[1]] = true;
                    queue.push(next);
                }
            }
            if maze.can_move(&vec![x, y], dim, MazeMoveDir::Backward) == Some(true) {
                let next = if dim == 0 { [x - 1, y] } else { [x, y - 1] };
                if !visited[next[0]][next[1]] {
                    visited[next[0]][next[1]] = true;
                    queue.push(next);
                }
            }
        }
    }
    assert_eq!(seen, 9);
}

/// The same lengths and seed rebuild the identical maze: every query
/// answers the same.
#[test]
fn deterministic_per_seed() {
    let lengths = vec![4usize, 3usize, 2usize];
    let m1 = generate_maze(&lengths, 987654321);
    let m2 = generate_maze(&lengths, 987654321);

    assert_eq!(m1.walks, m2.walks);
    for x in 0..4 {
        for y in 0..3 {
            for z in 0..2 {
                for dim in 0..3 {
                    assert_eq!(
                        m1.can_move(&vec![x, y, z], dim, MazeMoveDir::Forward),
                        m2.can_move(&vec![x, y, z], dim, MazeMoveDir::Forward)
                    );
                }
            }
        }
    }
}

/// Different seeds shuffle the candidate edges differently: on a grid with
/// many spanning trees the kept edge sets come out different.
#[test]
fn seed_changes_the_maze() {
    let lengths = vec![5usize, 5usize];
    let m1 = generate_maze(&lengths, 1);
    let m2 = generate_maze(&lengths, 2);
    assert_ne!(m1.walks, m2.walks);
}

/// Edge presence reads the same from both endpoints: forward from a cell
/// and backward from its upward neighbor agree everywhere.
#[test]
fn symmetry_forward_backward() {
    let lengths = vec![4usize, 4usize];
    let maze = generate_maze(&lengths, 7);
    for x in 0..4usize {
        for y in 0..4usize {
            if x + 1 < 4 {
                assert_eq!(
                    maze.can_move(&vec![x, y], 0, MazeMoveDir::Forward),
                    maze.can_move(&vec![x + 1, y], 0, MazeMoveDir::Backward)
                );
            }
            if y + 1 < 4 {
                assert_eq!(
                    maze.can_move(&vec![x, y], 1, MazeMoveDir::Forward),
                    maze.can_move(&vec![x, y + 1], 1, MazeMoveDir::Backward)
                );
            }
        }
    }
}

/// Boundary cells have no forward neighbor: the query answers `None`, for
/// a bad dimension too.
#[test]
fn boundary_answers_none() {
    let lengths = vec![3usize, 2usize];
    let maze = generate_maze(&lengths, 5);
    for y in 0..2usize {
        assert_eq!(maze.can_move(&vec![2, y], 0, MazeMoveDir::Forward), None);
    }
    for x in 0..3usize {
        assert_eq!(maze.can_move(&vec![x, 1], 1, MazeMoveDir::Forward), None);
        assert_eq!(maze.can_move(&vec![x, 0], 1, MazeMoveDir::Backward), None);
    }
    assert_eq!(maze.can_move(&vec![0, 0], 2, MazeMoveDir::Forward), None);
    assert_eq!(maze.can_move(&vec![9, 0], 0, MazeMoveDir::Forward), None);
}

/// A pair check sees the same edge whichever endpoint comes first, and
/// answers `None` as soon as one endpoint lies outside the grid.
#[test]
fn check_pair_both_orders() {
    let lengths = vec![2usize, 2usize];
    let maze = generate_maze(&lengths, 11);
    let kept = maze.walks.iter().filter(|w| **w).count();
    assert_eq!(kept, 3);

    let a = vec![0usize, 0usize];
    let b = vec![1usize, 0usize];
    assert_eq!(maze.check_pair(&a, &b), maze.check_pair(&b, &a));
    assert_eq!(maze.check_pair(&vec![0, 0], &vec![1, 1]), Some(false));
    assert_eq!(maze.check_pair(&vec![0, 0], &vec![2, 0]), None);
}
