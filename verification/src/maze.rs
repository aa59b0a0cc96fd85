//! The maze proper: a spanning set of walkable edges over an N-dimensional
//! grid, with O(1) edge-presence queries.
//!
//! A candidate edge is identified by a single number `e`: it joins the cell
//! with linear index `e / D` to its `+1` neighbor along dimension `e % D`
//! (`D` is the dimension count).  The maze stores one boolean per candidate
//! edge number; a set bit means the two cells are connected (no wall).

use vstd::prelude::*;

verus! {

use crate::grid::{
    stride,
    cell_total,
    lengths_valid,
    coord_valid,
    index_of,
    digits,
    lemma_stride_pos,
    lemma_index_bounds,
    lemma_index_of_digits,
    lemma_index_update,
};
use crate::cells::{MazeGenCell, cells_wf, same_set, merge_spec};
use crate::rng::{SeededRng, rng_stream};
use vstd::arithmetic::mul::lemma_mul_inequality;
use vstd::arithmetic::div_mod::{lemma_mod_pos_bound, lemma_multiply_divide_lt};

/// The direction of a move along one dimension.
#[derive(PartialEq, Eq, Clone, Copy)]
pub enum MazeMoveDir {
    Forward,
    Backward,
}

/// The cell a candidate edge number starts from: its linear index.
pub open spec fn edge_cell(lengths: Seq<usize>, e: int) -> int {
    e / lengths.len() as int
}

/// The dimension a candidate edge number runs along.
pub open spec fn edge_dim(lengths: Seq<usize>, e: int) -> int {
    e % lengths.len() as int
}

/// The cell a candidate edge number leads to: the `+1` neighbor of its start
/// cell along its dimension.
pub open spec fn edge_other(lengths: Seq<usize>, e: int) -> int {
    edge_cell(lengths, e) + stride(lengths, edge_dim(lengths, e))
}

/// An edge number names an actual grid edge: it lies in range and its start
/// cell is not the last cell along the edge's dimension.
pub open spec fn edge_candidate(lengths: Seq<usize>, e: int) -> bool {
    let d = lengths.len() as int;
    &&& 0 <= e < cell_total(lengths) * d
    &&& digits(lengths, edge_cell(lengths, e))[edge_dim(lengths, e)] + 1 < lengths[edge_dim(
        lengths,
        e,
    )]
}

/// Coordinate `b` is coordinate `a` moved one step up along dimension `k`.
pub open spec fn coord_step_up(a: Seq<usize>, b: Seq<usize>, k: int) -> bool {
    &&& a[k] + 1 <= usize::MAX
    &&& b == a.update(k, (a[k] + 1) as usize)
}

/// The walkable-edge bit for the edge leaving coordinate `a` upward along
/// dimension `k`.
pub open spec fn walk_edge(lengths: Seq<usize>, walks: Seq<bool>, a: Seq<usize>, k: int) -> bool {
    walks[index_of(lengths, a) * lengths.len() + k]
}

/// Whether two coordinates are joined by a walkable edge, in either
/// orientation.
pub open spec fn pair_connected(
    lengths: Seq<usize>,
    walks: Seq<bool>,
    a: Seq<usize>,
    b: Seq<usize>,
) -> bool {
    exists|k: int|
        0 <= k < lengths.len() && ((coord_step_up(a, b, k) && walk_edge(lengths, walks, a, k)) || (
        coord_step_up(b, a, k) && walk_edge(lengths, walks, b, k)))
}

/// What an edge-presence query answers: `None` when either endpoint lies
/// outside the grid, otherwise whether a walkable edge joins the endpoints.
pub open spec fn check_pair_spec(
    lengths: Seq<usize>,
    walks: Seq<bool>,
    a: Seq<usize>,
    b: Seq<usize>,
) -> Option<bool> {
    if coord_valid(lengths, a) && coord_valid(lengths, b) {
        Some(pair_connected(lengths, walks, a, b))
    } else {
        None
    }
}

/// What a directed movement query answers: the edge between `point` and its
/// one-step neighbor along `dimension`, `None` when the neighbor does not
/// exist (bad dimension, numeric overflow, or either endpoint outside the
/// grid).
pub open spec fn can_move_spec(
    lengths: Seq<usize>,
    walks: Seq<bool>,
    point: Seq<usize>,
    dimension: int,
    direction: MazeMoveDir,
) -> Option<bool> {
    if 0 <= dimension < point.len() {
        match direction {
            MazeMoveDir::Forward => if point[dimension] < usize::MAX {
                check_pair_spec(
                    lengths,
                    walks,
                    point,
                    point.update(dimension, (point[dimension] + 1) as usize),
                )
            } else {
                None
            },
            MazeMoveDir::Backward => if point[dimension] >= 1 {
                check_pair_spec(
                    lengths,
                    walks,
                    point,
                    point.update(dimension, (point[dimension] - 1) as usize),
                )
            } else {
                None
            },
        }
    } else {
        None
    }
}

/// A maze with O(1) adjacency queries.
pub trait Maze {
    /// The per-dimension lengths of the grid the maze spans.
    spec fn dims_of(&self) -> Seq<usize>;

    /// The walkable-edge bits, one per candidate edge number.
    spec fn walks_of(&self) -> Seq<bool>;

    /// The maze's internal invariant.
    spec fn inv(&self) -> bool;

    /// Whether the explorer can move from `point` one step along `dimension`
    /// in `direction`: `Some(true)` for a walkable edge, `Some(false)` for a
    /// wall, `None` when the neighbor would lie outside the grid.
    fn can_move(&self, point: &Vec<usize>, dimension: usize, direction: MazeMoveDir) -> (r: Option<
        bool,
    >)
        requires
            self.inv(),
            point@.len() == self.dims_of().len(),
        ensures
            r == can_move_spec(self.dims_of(), self.walks_of(), point@, dimension as int, direction),
    ;
}

/// The concrete maze: dimension lengths plus one walkable bit per candidate
/// edge number.
pub struct WalkMaze {
    pub lengths: Vec<usize>,
    pub walks: Vec<bool>,
}

impl WalkMaze {
    /// The maze's invariant: a non-degenerate grid, one bit per edge number,
    /// and bits set only on edge numbers that name actual grid edges.
    pub open spec fn wf(&self) -> bool {
        &&& self.lengths@.len() >= 1
        &&& lengths_valid(self.lengths@)
        &&& self.walks@.len() == cell_total(self.lengths@) * self.lengths@.len()
        &&& forall|e: int|
            0 <= e < self.walks@.len() && self.walks@[e] ==> edge_candidate(self.lengths@, e)
    }

    /// Looks up the walkable bit for the edge leaving `a` upward along `k`.
    fn walk_lookup(&self, a: &Vec<usize>, k: usize) -> (r: bool)
        requires
            self.wf(),
            coord_valid(self.lengths@, a@),
            k < self.lengths@.len(),
        ensures
            r == walk_edge(self.lengths@, self.walks@, a@, k as int),
    {
        proof {
            let l = self.lengths@;
            let d = l.len() as int;
            vstd::std_specs::vec::axiom_spec_len(&self.walks);
            lemma_stride_pos(l, d);
            assert(cell_total(l) * 1 <= cell_total(l) * d) by {
                lemma_mul_inequality(1, d, cell_total(l));
                assert(1 * cell_total(l) == cell_total(l) * 1) by (nonlinear_arith);
                assert(d * cell_total(l) == cell_total(l) * d) by (nonlinear_arith);
            }
            assert(cell_total(l) * 1 == cell_total(l)) by (nonlinear_arith);
        }
        let idx = crate::grid::wrap_index(&self.lengths, a);
        proof {
            let l = self.lengths@;
            let d = l.len() as int;
            lemma_index_bounds(l, a@);
            assert((idx as int) * d + k < cell_total(l) * d) by {
                lemma_mul_inequality(idx as int + 1, cell_total(l), d);
                assert((idx as int + 1) * d == idx as int * d + d) by (nonlinear_arith);
            }
            assert(idx as int * d >= 0) by (nonlinear_arith)
                requires idx >= 0, d >= 0;
        }
        self.walks[idx * self.lengths.len() + k]
    }

    /// Answers whether coordinates `a` and `b` are joined by a walkable edge:
    /// `None` when either lies outside the grid, otherwise `Some` of the
    /// edge's presence checked in both orientations.
    pub fn check_pair(&self, a: &Vec<usize>, b: &Vec<usize>) -> (r: Option<bool>)
        requires
            self.wf(),
            a@.len() == self.lengths@.len(),
            b@.len() == self.lengths@.len(),
        ensures
            r == check_pair_spec(self.lengths@, self.walks@, a@, b@),
    {
        let n = self.lengths.len();
        let mut index: usize = 0;
        while index < n
            invariant
                n == self.lengths@.len(),
                a@.len() == n,
                b@.len() == n,
                index <= n,
                forall|i: int| 0 <= i < index ==> a@[i] < self.lengths@[i] && b@[i] < self.lengths@[i],
            decreases n - index,
        {
            let length = self.lengths[index];
            if a[index] >= length || b[index] >= length {
                return None;
            }
            index += 1;
        }
        // Check for either direction because it's cheaper to check twice
        // than store the same edge under both endpoint orders.
        let fwd_dim = step_up_dim(a, b);
        let forward = match fwd_dim {
            Some(k) => self.walk_lookup(a, k),
            None => false,
        };
        let bwd_dim = step_up_dim(b, a);
        let backward = match bwd_dim {
            Some(k) => self.walk_lookup(b, k),
            None => false,
        };
        proof {
            let l = self.lengths@;
            let w = self.walks@;
            if forward {
                let k = fwd_dim->Some_0 as int;
                assert(coord_step_up(a@, b@, k) && walk_edge(l, w, a@, k));
                assert(pair_connected(l, w, a@, b@));
            } else if backward {
                let k = bwd_dim->Some_0 as int;
                assert(coord_step_up(b@, a@, k) && walk_edge(l, w, b@, k));
                assert(pair_connected(l, w, a@, b@));
            } else {
                assert forall|k: int| 0 <= k < l.len() implies !((coord_step_up(a@, b@, k)
                    && walk_edge(l, w, a@, k)) || (coord_step_up(b@, a@, k) && walk_edge(
                    l,
                    w,
                    b@,
                    k,
                ))) by {
                    if coord_step_up(a@, b@, k) {
                        match fwd_dim {
                            Some(k1) => {
                                lemma_step_up_unique(a@, b@, k, k1 as int);
                                assert(!walk_edge(l, w, a@, k));
                            },
                            None => {},
                        }
                    }
                    if coord_step_up(b@, a@, k) {
                        match bwd_dim {
                            Some(k1) => {
                                lemma_step_up_unique(b@, a@, k, k1 as int);
                                assert(!walk_edge(l, w, b@, k));
                            },
                            None => {},
                        }
                    }
                }
                assert(!pair_connected(l, w, a@, b@));
            }
        }
        Some(forward || backward)
    }
}

impl Maze for WalkMaze {
    open spec fn dims_of(&self) -> Seq<usize> {
        self.lengths@
    }

    open spec fn walks_of(&self) -> Seq<bool> {
        self.walks@
    }

    open spec fn inv(&self) -> bool {
        self.wf()
    }

    fn can_move(&self, point: &Vec<usize>, dimension: usize, direction: MazeMoveDir) -> (r: Option<
        bool,
    >) {
        if dimension >= point.len() {
            return None;
        }
        let mut target = point.clone();
        let cur = target[dimension];
        match direction {
            MazeMoveDir::Forward => {
                if cur == usize::MAX {
                    return None;
                }
                target.set(dimension, cur + 1);
            },
            MazeMoveDir::Backward => {
                if cur == 0 {
                    return None;
                }
                target.set(dimension, cur - 1);
            },
        }
        self.check_pair(point, &target)
    }
}

/// The walkable bits before generation starts: none set.
pub open spec fn walks_init(lengths: Seq<usize>) -> Seq<bool> {
    Seq::new((cell_total(lengths) * lengths.len()) as nat, |e: int| false)
}

/// The disjoint-set arena before generation starts: one parentless cell per
/// grid cell, labelled with its linear index.
pub open spec fn cells_init(lengths: Seq<usize>) -> Seq<MazeGenCell> {
    Seq::new(cell_total(lengths) as nat, |i: int| MazeGenCell { id: i as usize, parent: None })
}

/// One generation step: a candidate edge whose endpoints lie in different
/// trees is kept (its bit is set) and the trees are merged; anything else is
/// discarded.
pub open spec fn gen_step(
    lengths: Seq<usize>,
    walks: Seq<bool>,
    cells: Seq<MazeGenCell>,
    e: int,
) -> (Seq<bool>, Seq<MazeGenCell>) {
    if edge_candidate(lengths, e) {
        let a = edge_cell(lengths, e);
        let b = edge_other(lengths, e);
        if same_set(cells, a, b) {
            (walks, cells)
        } else {
            (walks.update(e, true), merge_spec(cells, a, b))
        }
    } else {
        (walks, cells)
    }
}

/// Generation, run over a whole list of edge numbers.
pub open spec fn gen_run(
    lengths: Seq<usize>,
    walks: Seq<bool>,
    cells: Seq<MazeGenCell>,
    order: Seq<usize>,
) -> (Seq<bool>, Seq<MazeGenCell>)
    decreases order.len(),
{
    if order.len() == 0 {
        (walks, cells)
    } else {
        let st = gen_step(lengths, walks, cells, order[0] as int);
        gen_run(lengths, st.0, st.1, order.drop_first())
    }
}

/// A sequence with the values at positions `i` and `j` exchanged.
pub open spec fn swap_at(s: Seq<usize>, i: int, j: int) -> Seq<usize> {
    s.update(i, s[j]).update(j, s[i])
}

/// The Fisher-Yates shuffle driven by the seeded random stream, walking
/// position `i` down to `1`; `k` counts the values drawn so far.
pub open spec fn shuffle_rec(s: Seq<usize>, seed: u64, k: nat, i: int) -> Seq<usize>
    decreases i,
{
    if i <= 0 {
        s
    } else {
        let j = rng_stream(seed, k) as int % (i + 1);
        shuffle_rec(swap_at(s, i, j), seed, k + 1, i - 1)
    }
}

/// Every candidate edge number, in increasing order.
pub open spec fn edge_ids(lengths: Seq<usize>) -> Seq<usize> {
    Seq::new((cell_total(lengths) * lengths.len()) as nat, |i: int| i as usize)
}

/// The order in which generation examines edge numbers for a given seed.
pub open spec fn shuffled_edges(lengths: Seq<usize>, seed: u64) -> Seq<usize> {
    shuffle_rec(edge_ids(lengths), seed, 0, edge_ids(lengths).len() as int - 1)
}

/// The walkable bits of the maze generated for given lengths and seed: the
/// entire construction is a function of these two values alone.
pub open spec fn gen_walks(lengths: Seq<usize>, seed: u64) -> Seq<bool> {
    gen_run(lengths, walks_init(lengths), cells_init(lengths), shuffled_edges(lengths, seed)).0
}

/// Shuffling keeps the length and the set of values of a sequence.
pub proof fn lemma_shuffle_rec_elems(s: Seq<usize>, seed: u64, k: nat, i: int)
    requires
        i < s.len(),
    ensures
        shuffle_rec(s, seed, k, i).len() == s.len(),
        forall|v: usize| shuffle_rec(s, seed, k, i).contains(v) <==> s.contains(v),
    decreases i,
{
    if i <= 0 {
    } else {
        let j = rng_stream(seed, k) as int % (i + 1);
        lemma_mod_pos_bound(rng_stream(seed, k) as int, i + 1);
        let s2 = swap_at(s, i, j);
        assert forall|v: usize| s2.contains(v) <==> s.contains(v) by {
            if s2.contains(v) {
                let m = choose|m: int| 0 <= m < s2.len() && s2[m] == v;
                if m == j {
                    assert(s[i] == v);
                } else if m == i {
                    assert(s[j] == v);
                } else {
                    assert(s[m] == v);
                }
                assert(s.contains(v));
            }
            if s.contains(v) {
                let m = choose|m: int| 0 <= m < s.len() && s[m] == v;
                if m == j {
                    assert(s2[i] == v);
                } else if m == i {
                    assert(s2[j] == v);
                } else {
                    assert(s2[m] == v);
                }
                assert(s2.contains(v));
            }
        }
        lemma_shuffle_rec_elems(s2, seed, k + 1, i - 1);
    }
}

/// Shuffles the edge list in place, drawing one random value per position.
fn shuffle(order: &mut Vec<usize>, rng: &mut SeededRng)
    requires
        old(rng).drawn@ == 0,
    ensures
        final(order)@ == shuffle_rec(
            old(order)@,
            old(rng).seed,
            0,
            old(order)@.len() as int - 1,
        ),
        final(rng).seed == old(rng).seed,
{
    let n = order.len();
    if n == 0 {
        return ;
    }
    let mut i: usize = n - 1;
    while i > 0
        invariant
            order@.len() == n,
            i < n,
            rng.seed == old(rng).seed,
            shuffle_rec(order@, rng.seed, rng.drawn@, i as int) == shuffle_rec(
                old(order)@,
                old(rng).seed,
                0,
                n as int - 1,
            ),
        decreases i,
    {
        let ghost prev = order@;
        let ghost k = rng.drawn@;
        let r = rng.next_u64();
        let j = (r % (i as u64 + 1)) as usize;
        proof {
            lemma_mod_pos_bound(r as int, i as int + 1);
        }
        let oi = order[i];
        let oj = order[j];
        order.set(i, oj);
        order.set(j, oi);
        proof {
            assert(order@ =~= swap_at(prev, i as int, j as int));
            assert(shuffle_rec(prev, rng.seed, k, i as int) == shuffle_rec(
                order@,
                rng.seed,
                k + 1,
                i as int - 1,
            ));
        }
        i -= 1;
    }
}

/// Generate a maze with the provided number of side lengths: a uniformly
/// seeded spanning structure over the grid.  The result is a function of the
/// lengths and the seed alone, so equal inputs rebuild the identical maze.
#[verifier::rlimit(100)]
pub fn generate_maze(lengths: &Vec<usize>, seed: u64) -> (maze: WalkMaze)
    requires
        lengths@.len() >= 1,
        lengths_valid(lengths@),
        cell_total(lengths@) * lengths@.len() <= usize::MAX,
    ensures
        maze.wf(),
        maze.lengths@ == lengths@,
        maze.walks@ == gen_walks(lengths@, seed),
{
    let ghost l = lengths@;
    let dims = lengths.len();
    proof {
        lemma_stride_pos(l, l.len() as int);
        assert(cell_total(l) * 1 <= cell_total(l) * l.len()) by {
            lemma_mul_inequality(1, l.len() as int, cell_total(l));
            assert(1 * cell_total(l) == cell_total(l) * 1) by (nonlinear_arith);
            assert(l.len() as int * cell_total(l) == cell_total(l) * l.len())
                by (nonlinear_arith);
        }
        assert(cell_total(l) * 1 == cell_total(l)) by (nonlinear_arith);
    }
    let total = crate::grid::cell_count(lengths);
    let n_ids = total * dims;

    // Enumerate every edge number.
    let mut order: Vec<usize> = Vec::new();
    let mut e: usize = 0;
    while e < n_ids
        invariant
            order@.len() == e,
            e <= n_ids,
            forall|m: int| 0 <= m < e ==> order@[m] == m,
        decreases n_ids - e,
    {
        order.push(e);
        e += 1;
    }
    proof {
        assert(order@ =~= edge_ids(l));
    }

    // Shuffle them with the seeded source: the randomization point.
    let mut rng = SeededRng::new(seed);
    shuffle(&mut order, &mut rng);
    let ghost full = order@;
    proof {
        assert(full == shuffled_edges(l, seed));
        lemma_shuffle_rec_elems(edge_ids(l), seed, 0, edge_ids(l).len() as int - 1);
        assert forall|m: int| 0 <= m < full.len() implies full[m] < n_ids by {
            assert(full.contains(full[m]));
            assert(edge_ids(l).contains(full[m]));
            let w = choose|w: int| 0 <= w < edge_ids(l).len() && edge_ids(l)[w] == full[m];
        }
    }

    // Blank walk bits and fresh disjoint-set cells.
    let mut walks: Vec<bool> = Vec::new();
    let mut q: usize = 0;
    while q < n_ids
        invariant
            walks@.len() == q,
            q <= n_ids,
            forall|m: int| 0 <= m < q ==> !walks@[m],
        decreases n_ids - q,
    {
        walks.push(false);
        q += 1;
    }
    let mut cells: Vec<MazeGenCell> = Vec::new();
    let mut c: usize = 0;
    while c < total
        invariant
            cells@.len() == c,
            c <= total,
            forall|m: int| 0 <= m < c ==> cells@[m].id == m && cells@[m].parent is None,
        decreases total - c,
    {
        cells.push(MazeGenCell::new(c));
        c += 1;
    }
    proof {
        assert(walks@ =~= walks_init(l));
        assert(cells@ =~= cells_init(l));
        assert(full.skip(0) =~= full);
    }

    // Keep each edge whose endpoints are not yet connected.
    let mut pos: usize = 0;
    while pos < order.len()
        invariant
            lengths@ == l,
            lengths@.len() == dims >= 1,
            lengths_valid(l),
            cell_total(l) == total,
            cell_total(l) * dims == n_ids <= usize::MAX,
            order@ == full,
            full.len() == n_ids,
            forall|m: int| 0 <= m < full.len() ==> full[m] < n_ids,
            pos <= full.len(),
            walks@.len() == n_ids,
            cells@.len() == total,
            cells_wf(cells@),
            forall|t: int| 0 <= t < n_ids && walks@[t] ==> edge_candidate(l, t),
            gen_run(l, walks@, cells@, full.skip(pos as int)) == gen_run(
                l,
                walks_init(l),
                cells_init(l),
                full,
            ),
        decreases full.len() - pos,
    {
        let ghost w0 = walks@;
        let ghost c0 = cells@;
        let edge = order[pos];
        proof {
            assert(edge < n_ids);
            assert(dims as int * cell_total(l) == cell_total(l) * dims) by (nonlinear_arith);
            lemma_multiply_divide_lt(edge as int, dims as int, total as int);
            lemma_mod_pos_bound(edge as int, dims as int);
        }
        let cell = edge / dims;
        let dim = edge % dims;
        proof {
            crate::grid::lemma_index_of_digits(l, cell as int);
        }
        let a = crate::grid::unwrap_index(lengths, cell).unwrap();
        if a[dim] + 1 < lengths[dim] {
            proof {
                assert(edge_candidate(l, edge as int));
            }
            let mut b_coord = a.clone();
            b_coord.set(dim, a[dim] + 1);
            let b = crate::grid::wrap_index(lengths, &b_coord);
            proof {
                lemma_index_update(l, a@, dim as int, (a@[dim as int] + 1) as usize);
                assert(1 * stride(l, dim as int) == stride(l, dim as int)) by (nonlinear_arith);
                assert(b == edge_other(l, edge as int));
                lemma_index_bounds(l, b_coord@);
            }
            let merged = MazeGenCell::try_merge(&mut cells, cell, b);
            if merged {
                walks.set(edge, true);
            }
            proof {
                let st = gen_step(l, w0, c0, edge as int);
                assert(cells@ == merge_spec(c0, cell as int, b as int));
                assert(cells@.len() == c0.len());
                if merged {
                    assert(st.0 == w0.update(edge as int, true));
                    assert(walks@ == w0.update(edge as int, true));
                } else {
                    assert(st == (w0, c0));
                    assert(cells@ == c0);
                }
                assert(st.0 == walks@ && st.1 == cells@);
            }
        } else {
            proof {
                assert(!edge_candidate(l, edge as int));
                assert(gen_step(l, w0, c0, edge as int) == (w0, c0));
            }
        }
        proof {
            assert(full.skip(pos as int)[0] == full[pos as int]);
            assert(full.skip(pos as int).drop_first() =~= full.skip(pos as int + 1));
            assert(gen_run(l, w0, c0, full.skip(pos as int)) == gen_run(
                l,
                walks@,
                cells@,
                full.skip(pos as int + 1),
            ));
        }
        pos += 1;
    }
    proof {
        assert(full.skip(full.len() as int) =~= Seq::<usize>::empty());
        assert(gen_run(l, walks@, cells@, Seq::<usize>::empty()) == (walks@, cells@));
    }
    WalkMaze { lengths: lengths.clone(), walks }
}

/// Determinism: two mazes generated from the same lengths and the same
/// seed answer every movement query identically, because the whole
/// construction is a function of those two values alone.
pub proof fn lemma_determinism(m1: WalkMaze, m2: WalkMaze, lengths: Seq<usize>, seed: u64)
    requires
        m1.lengths@ == lengths,
        m2.lengths@ == lengths,
        m1.walks@ == gen_walks(lengths, seed),
        m2.walks@ == gen_walks(lengths, seed),
    ensures
        forall|point: Seq<usize>, dimension: int, direction: MazeMoveDir|
            can_move_spec(m1.lengths@, m1.walks@, point, dimension, direction)
                == #[trigger] can_move_spec(m2.lengths@, m2.walks@, point, dimension, direction),
{
}

/// Symmetry: the edge between a cell and its upward neighbor along `k`
/// reads the same from both sides - moving forward from `a` and moving
/// backward from that neighbor are the same query.
pub proof fn lemma_move_symmetry(lengths: Seq<usize>, walks: Seq<bool>, a: Seq<usize>, k: int)
    requires
        coord_valid(lengths, a),
        0 <= k < lengths.len(),
        a[k] + 1 < lengths[k],
    ensures
        can_move_spec(lengths, walks, a, k, MazeMoveDir::Forward) == can_move_spec(
            lengths,
            walks,
            a.update(k, (a[k] + 1) as usize),
            k,
            MazeMoveDir::Backward,
        ),
{
    let b = a.update(k, (a[k] + 1) as usize);
    assert(b.update(k, (b[k] - 1) as usize) =~= a);
    assert(pair_connected(lengths, walks, a, b) ==> pair_connected(lengths, walks, b, a)) by {
        if pair_connected(lengths, walks, a, b) {
            let kk = choose|kk: int|
                0 <= kk < lengths.len() && ((coord_step_up(a, b, kk) && walk_edge(
                    lengths,
                    walks,
                    a,
                    kk,
                )) || (coord_step_up(b, a, kk) && walk_edge(lengths, walks, b, kk)));
            assert(0 <= kk < lengths.len() && ((coord_step_up(b, a, kk) && walk_edge(
                lengths,
                walks,
                b,
                kk,
            )) || (coord_step_up(a, b, kk) && walk_edge(lengths, walks, a, kk))));
        }
    }
    assert(pair_connected(lengths, walks, b, a) ==> pair_connected(lengths, walks, a, b)) by {
        if pair_connected(lengths, walks, b, a) {
            let kk = choose|kk: int|
                0 <= kk < lengths.len() && ((coord_step_up(b, a, kk) && walk_edge(
                    lengths,
                    walks,
                    b,
                    kk,
                )) || (coord_step_up(a, b, kk) && walk_edge(lengths, walks, a, kk)));
            assert(0 <= kk < lengths.len() && ((coord_step_up(a, b, kk) && walk_edge(
                lengths,
                walks,
                a,
                kk,
            )) || (coord_step_up(b, a, kk) && walk_edge(lengths, walks, b, kk))));
        }
    }
}

/// Boundary: a forward query from the last cell along a dimension has no
/// in-grid neighbor there, so it answers `None` for every coordinate.
pub proof fn lemma_boundary(lengths: Seq<usize>, walks: Seq<bool>, a: Seq<usize>, k: int)
    requires
        a.len() == lengths.len(),
        0 <= k < a.len(),
        a[k] == lengths[k] - 1,
    ensures
        can_move_spec(lengths, walks, a, k, MazeMoveDir::Forward) is None,
{
    if a[k] < usize::MAX {
        let b = a.update(k, (a[k] + 1) as usize);
        assert(b[k] >= lengths[k]);
        assert(!coord_valid(lengths, b));
    }
}

/// A coordinate can be one step up from another along at most one dimension.
proof fn lemma_step_up_unique(a: Seq<usize>, b: Seq<usize>, k1: int, k2: int)
    requires
        0 <= k1 < a.len(),
        0 <= k2 < a.len(),
        coord_step_up(a, b, k1),
        coord_step_up(a, b, k2),
    ensures
        k1 == k2,
{
    if k1 != k2 {
        assert(b[k1] == a[k1] + 1);
        assert(b == a.update(k2, (a[k2] + 1) as usize));
        assert(b[k1] == a[k1]);
    }
}

/// Finds the one dimension along which `y` is `x` moved one step up, if any.
fn step_up_dim(x: &Vec<usize>, y: &Vec<usize>) -> (r: Option<usize>)
    requires
        x@.len() == y@.len(),
    ensures
        match r {
            Some(k) => k < x@.len() && coord_step_up(x@, y@, k as int),
            None => forall|k: int| 0 <= k < x@.len() ==> !coord_step_up(x@, y@, k),
        },
{
    let n = x.len();
    let mut i: usize = 0;
    while i < n && x[i] == y[i]
        invariant
            n == x@.len() == y@.len(),
            i <= n,
            forall|j: int| 0 <= j < i ==> x@[j] == y@[j],
        decreases n - i,
    {
        i += 1;
    }
    if i == n {
        // The coordinates are equal; a one-step move always changes one
        // component.
        proof {
            assert forall|k: int| 0 <= k < x@.len() implies !coord_step_up(x@, y@, k) by {
                if coord_step_up(x@, y@, k) {
                    assert(y@[k] == (x@[k] + 1) as usize);
                    assert(y@[k] == x@[k]);
                }
            }
        }
        return None;
    }
    // `i` is the first differing component, so any step-up dimension must be `i`.
    let ok = x[i] < usize::MAX && y[i] == x[i] + 1;
    if !ok {
        proof {
            assert forall|k: int| 0 <= k < x@.len() implies !coord_step_up(x@, y@, k) by {
                if coord_step_up(x@, y@, k) {
                    assert(y@[k] == (x@[k] + 1) as usize);
                    assert(forall|j: int| 0 <= j < x@.len() && j != k ==> y@[j] == x@[j]);
                    assert(k == i);
                }
            }
        }
        return None;
    }
    let mut j = i + 1;
    while j < n && x[j] == y[j]
        invariant
            n == x@.len() == y@.len(),
            i < j <= n,
            forall|m: int| i < m < j ==> x@[m] == y@[m],
        decreases n - j,
    {
        j += 1;
    }
    if j == n {
        proof {
            assert(y@ =~= x@.update(i as int, (x@[i as int] + 1) as usize));
        }
        Some(i)
    } else {
        // A second differing component rules out a single-dimension step.
        proof {
            assert forall|k: int| 0 <= k < x@.len() implies !coord_step_up(x@, y@, k) by {
                if coord_step_up(x@, y@, k) {
                    assert(forall|m: int| 0 <= m < x@.len() && m != k ==> y@[m] == x@[m]);
                    assert(k == i);
                    assert(y@[j as int] == x@[j as int]);
                }
            }
        }
        None
    }
}

} // verus!
