//! The spanning-tree guarantees of maze generation: the kept edge set has
//! exactly one edge less than there are cells, connects every cell to the
//! origin, and contains no cycle (every kept edge is a bridge).

use vstd::prelude::*;

verus! {

use crate::grid::{
    stride,
    cell_total,
    lengths_valid,
    coord_valid,
    index_of,
    digits,
    lemma_stride_pos,
    lemma_index_bounds,
    lemma_digits_of_index,
    lemma_index_of_digits,
    lemma_index_update,
};
use crate::maze::{
    edge_cell,
    edge_dim,
    edge_other,
    edge_candidate,
    gen_step,
    gen_run,
    gen_walks,
    walks_init,
    cells_init,
    edge_ids,
    shuffled_edges,
    lemma_shuffle_rec_elems,
};
use crate::cells::{
    MazeGenCell,
    cells_wf,
    root_of,
    same_set,
    lemma_root_props,
    lemma_root_after_attach,
};
use vstd::arithmetic::div_mod::{
    lemma_mod_pos_bound,
    lemma_multiply_divide_lt,
    lemma_fundamental_div_mod_converse,
};
use vstd::arithmetic::mul::lemma_mul_inequality;

/// Cells `x` and `y` are the two endpoints of one kept edge.
pub open spec fn adjacent(lengths: Seq<usize>, walks: Seq<bool>, x: int, y: int) -> bool {
    exists|e: int|
        0 <= e < walks.len() && walks[e] && ((x == edge_cell(lengths, e) && y == edge_other(
            lengths,
            e,
        )) || (y == edge_cell(lengths, e) && x == edge_other(lengths, e)))
}

/// Cell `y` is reachable from cell `x` through kept edges in at most `n`
/// steps.
pub open spec fn reach_n(lengths: Seq<usize>, walks: Seq<bool>, x: int, y: int, n: nat) -> bool
    decreases n,
{
    if x == y {
        true
    } else if n == 0 {
        false
    } else {
        exists|z: int|
            adjacent(lengths, walks, x, z) && reach_n(lengths, walks, z, y, (n - 1) as nat)
    }
}

/// Cell `y` is reachable from cell `x` through kept edges.
pub open spec fn connected(lengths: Seq<usize>, walks: Seq<bool>, x: int, y: int) -> bool {
    exists|n: nat| reach_n(lengths, walks, x, y, n)
}

/// The kept edges form a forest: removing any one of them disconnects its
/// own endpoints, so no kept edge lies on a cycle.
pub open spec fn forest(lengths: Seq<usize>, walks: Seq<bool>) -> bool {
    forall|e: int|
        0 <= e < walks.len() && walks[e] ==> !connected(
            lengths,
            #[trigger] walks.update(e, false),
            edge_cell(lengths, e),
            edge_other(lengths, e),
        )
}

/// The endpoints of a kept edge are connected, in one step.
pub proof fn lemma_connected_step(lengths: Seq<usize>, walks: Seq<bool>, x: int, y: int)
    requires
        adjacent(lengths, walks, x, y),
    ensures
        connected(lengths, walks, x, y),
{
    assert(reach_n(lengths, walks, x, y, 1)) by {
        assert(adjacent(lengths, walks, x, y) && reach_n(lengths, walks, y, y, 0));
    }
}

/// Connectivity is reflexive.
pub proof fn lemma_connected_refl(lengths: Seq<usize>, walks: Seq<bool>, x: int)
    ensures
        connected(lengths, walks, x, x),
{
    assert(reach_n(lengths, walks, x, x, 0));
}

proof fn lemma_reach_trans(lengths: Seq<usize>, walks: Seq<bool>, x: int, y: int, z: int, n1: nat, n2: nat)
    requires
        reach_n(lengths, walks, x, y, n1),
        reach_n(lengths, walks, y, z, n2),
    ensures
        reach_n(lengths, walks, x, z, n1 + n2),
    decreases n1,
{
    if x == y {
        lemma_reach_widen(lengths, walks, y, z, n2, n1 + n2);
    } else {
        let m = choose|m: int|
            adjacent(lengths, walks, x, m) && reach_n(lengths, walks, m, y, (n1 - 1) as nat);
        lemma_reach_trans(lengths, walks, m, y, z, (n1 - 1) as nat, n2);
        assert(adjacent(lengths, walks, x, m) && reach_n(
            lengths,
            walks,
            m,
            z,
            ((n1 + n2) - 1) as nat,
        ));
    }
}

/// A step bound can always be raised.
proof fn lemma_reach_widen(lengths: Seq<usize>, walks: Seq<bool>, x: int, y: int, n1: nat, n2: nat)
    requires
        reach_n(lengths, walks, x, y, n1),
        n1 <= n2,
    ensures
        reach_n(lengths, walks, x, y, n2),
    decreases n1,
{
    if x == y {
    } else {
        let m = choose|m: int|
            adjacent(lengths, walks, x, m) && reach_n(lengths, walks, m, y, (n1 - 1) as nat);
        lemma_reach_widen(lengths, walks, m, y, (n1 - 1) as nat, (n2 - 1) as nat);
        assert(adjacent(lengths, walks, x, m) && reach_n(lengths, walks, m, y, (n2 - 1) as nat));
    }
}

/// Connectivity is transitive.
pub proof fn lemma_connected_trans(lengths: Seq<usize>, walks: Seq<bool>, x: int, y: int, z: int)
    requires
        connected(lengths, walks, x, y),
        connected(lengths, walks, y, z),
    ensures
        connected(lengths, walks, x, z),
{
    let n1 = choose|n1: nat| reach_n(lengths, walks, x, y, n1);
    let n2 = choose|n2: nat| reach_n(lengths, walks, y, z, n2);
    lemma_reach_trans(lengths, walks, x, y, z, n1, n2);
}

proof fn lemma_reach_sym(lengths: Seq<usize>, walks: Seq<bool>, x: int, y: int, n: nat)
    requires
        reach_n(lengths, walks, x, y, n),
    ensures
        connected(lengths, walks, y, x),
    decreases n,
{
    if x == y {
        lemma_connected_refl(lengths, walks, x);
    } else {
        let m = choose|m: int|
            adjacent(lengths, walks, x, m) && reach_n(lengths, walks, m, y, (n - 1) as nat);
        lemma_reach_sym(lengths, walks, m, y, (n - 1) as nat);
        assert(adjacent(lengths, walks, m, x));
        lemma_connected_step(lengths, walks, m, x);
        lemma_connected_trans(lengths, walks, y, m, x);
    }
}

/// Connectivity is symmetric.
pub proof fn lemma_connected_sym(lengths: Seq<usize>, walks: Seq<bool>, x: int, y: int)
    requires
        connected(lengths, walks, x, y),
    ensures
        connected(lengths, walks, y, x),
{
    let n = choose|n: nat| reach_n(lengths, walks, x, y, n);
    lemma_reach_sym(lengths, walks, x, y, n);
}

proof fn lemma_reach_mono(
    lengths: Seq<usize>,
    walks1: Seq<bool>,
    walks2: Seq<bool>,
    x: int,
    y: int,
    n: nat,
)
    requires
        walks1.len() == walks2.len(),
        forall|t: int| 0 <= t < walks1.len() && walks1[t] ==> walks2[t],
        reach_n(lengths, walks1, x, y, n),
    ensures
        reach_n(lengths, walks2, x, y, n),
    decreases n,
{
    if x == y {
    } else {
        let m = choose|m: int|
            adjacent(lengths, walks1, x, m) && reach_n(lengths, walks1, m, y, (n - 1) as nat);
        lemma_reach_mono(lengths, walks1, walks2, m, y, (n - 1) as nat);
        let e = choose|e: int|
            0 <= e < walks1.len() && walks1[e] && ((x == edge_cell(lengths, e) && m == edge_other(
                lengths,
                e,
            )) || (m == edge_cell(lengths, e) && x == edge_other(lengths, e)));
        assert(walks2[e]);
        assert(adjacent(lengths, walks2, x, m));
        assert(reach_n(lengths, walks2, m, y, (n - 1) as nat));
    }
}

/// Keeping more edges never disconnects anything.
pub proof fn lemma_connected_mono(
    lengths: Seq<usize>,
    walks1: Seq<bool>,
    walks2: Seq<bool>,
    x: int,
    y: int,
)
    requires
        walks1.len() == walks2.len(),
        forall|t: int| 0 <= t < walks1.len() && walks1[t] ==> walks2[t],
        connected(lengths, walks1, x, y),
    ensures
        connected(lengths, walks2, x, y),
{
    let n = choose|n: nat| reach_n(lengths, walks1, x, y, n);
    lemma_reach_mono(lengths, walks1, walks2, x, y, n);
}

proof fn lemma_reach_decompose(
    lengths: Seq<usize>,
    walks: Seq<bool>,
    e: int,
    x: int,
    y: int,
    n: nat,
)
    requires
        0 <= e < walks.len(),
        reach_n(lengths, walks.update(e, true), x, y, n),
    ensures
        connected(lengths, walks, x, y) || (connected(lengths, walks, x, edge_cell(lengths, e))
            && connected(lengths, walks, edge_other(lengths, e), y)) || (connected(
            lengths,
            walks,
            x,
            edge_other(lengths, e),
        ) && connected(lengths, walks, edge_cell(lengths, e), y)),
    decreases n,
{
    let wplus = walks.update(e, true);
    let a = edge_cell(lengths, e);
    let b = edge_other(lengths, e);
    if x == y {
        lemma_connected_refl(lengths, walks, x);
    } else {
        let m = choose|m: int|
            adjacent(lengths, wplus, x, m) && reach_n(lengths, wplus, m, y, (n - 1) as nat);
        lemma_reach_decompose(lengths, walks, e, m, y, (n - 1) as nat);
        let f = choose|f: int|
            0 <= f < wplus.len() && wplus[f] && ((x == edge_cell(lengths, f) && m == edge_other(
                lengths,
                f,
            )) || (m == edge_cell(lengths, f) && x == edge_other(lengths, f)));
        if f != e {
            // The first step already exists without `e`.
            assert(walks[f]);
            assert(adjacent(lengths, walks, x, m));
            lemma_connected_step(lengths, walks, x, m);
            if connected(lengths, walks, m, y) {
                lemma_connected_trans(lengths, walks, x, m, y);
            } else if connected(lengths, walks, m, a) && connected(lengths, walks, b, y) {
                lemma_connected_trans(lengths, walks, x, m, a);
            } else {
                lemma_connected_trans(lengths, walks, x, m, b);
            }
        } else {
            // The first step crosses `e` itself, so x and m are its two
            // endpoints, in one order or the other.
            assert((x == a && m == b) || (x == b && m == a));
            lemma_connected_refl(lengths, walks, x);
            if connected(lengths, walks, m, y) {
                // x is one endpoint, and the other endpoint reaches y.
            } else if connected(lengths, walks, m, a) && connected(lengths, walks, b, y) {
                if x == a && m == b {
                    // b ~ a and b ~ y: x == a reaches y without e at all.
                    lemma_connected_sym(lengths, walks, m, a);
                    lemma_connected_trans(lengths, walks, a, b, y);
                } else {
                    // x == b and connected(b, y) holds directly.
                }
            } else {
                if x == a && m == b {
                    // connected(a, y) holds directly and x == a.
                } else {
                    // a ~ b and a ~ y: x == b reaches y without e at all.
                    lemma_connected_sym(lengths, walks, m, b);
                    lemma_connected_trans(lengths, walks, x, m, y);
                }
            }
        }
    }
}

/// Reaching across an added edge: either the endpoints were already
/// connected without it, or the path really crosses it, joining each side
/// to one of its endpoints.
pub proof fn lemma_connected_decompose(
    lengths: Seq<usize>,
    walks: Seq<bool>,
    e: int,
    x: int,
    y: int,
)
    requires
        0 <= e < walks.len(),
        connected(lengths, walks.update(e, true), x, y),
    ensures
        connected(lengths, walks, x, y) || (connected(lengths, walks, x, edge_cell(lengths, e))
            && connected(lengths, walks, edge_other(lengths, e), y)) || (connected(
            lengths,
            walks,
            x,
            edge_other(lengths, e),
        ) && connected(lengths, walks, edge_cell(lengths, e), y)),
{
    let n = choose|n: nat| reach_n(lengths, walks.update(e, true), x, y, n);
    lemma_reach_decompose(lengths, walks, e, x, y, n);
}

/// How many edge bits are set.
pub open spec fn count_true(s: Seq<bool>) -> int
    decreases s.len(),
{
    if s.len() == 0 {
        0
    } else {
        count_true(s.drop_last()) + if s.last() {
            1int
        } else {
            0int
        }
    }
}

/// How many disjoint-set cells are roots.
pub open spec fn count_roots(cells: Seq<crate::cells::MazeGenCell>) -> int
    decreases cells.len(),
{
    if cells.len() == 0 {
        0
    } else {
        count_roots(cells.drop_last()) + if cells.last().parent is None {
            1int
        } else {
            0int
        }
    }
}

/// The invariant generation maintains: well-formed state, bits only on real
/// edges, the disjoint-set partition mirrors connectivity exactly, kept
/// edges and remaining trees balance the cell count, and the kept edges
/// form a forest.
pub open spec fn gen_inv(lengths: Seq<usize>, walks: Seq<bool>, cells: Seq<MazeGenCell>) -> bool {
    let total = cell_total(lengths);
    &&& lengths.len() >= 1
    &&& lengths_valid(lengths)
    &&& total * lengths.len() <= usize::MAX
    &&& walks.len() == total * lengths.len()
    &&& cells.len() == total
    &&& cells_wf(cells)
    &&& forall|e: int| 0 <= e < walks.len() && walks[e] ==> edge_candidate(lengths, e)
    &&& forall|i: int, j: int|
        0 <= i < total && 0 <= j < total && #[trigger] same_set(cells, i, j) ==> connected(
            lengths,
            walks,
            i,
            j,
        )
    &&& forall|i: int, j: int|
        0 <= i < total && 0 <= j < total && #[trigger] connected(lengths, walks, i, j)
            ==> same_set(cells, i, j)
    &&& count_true(walks) + count_roots(cells) == total
    &&& forest(lengths, walks)
}

/// A real edge joins two distinct in-range cells, the second one stride
/// above the first along the edge's dimension.
pub proof fn lemma_edge_endpoints(lengths: Seq<usize>, e: int)
    requires
        lengths.len() >= 1,
        lengths_valid(lengths),
        edge_candidate(lengths, e),
    ensures
        0 <= edge_cell(lengths, e) < cell_total(lengths),
        0 <= edge_other(lengths, e) < cell_total(lengths),
        edge_cell(lengths, e) != edge_other(lengths, e),
        0 <= edge_dim(lengths, e) < lengths.len(),
{
    let d = lengths.len() as int;
    let total = cell_total(lengths);
    assert(d * total == total * d) by (nonlinear_arith);
    lemma_multiply_divide_lt(e, d, total);
    lemma_mod_pos_bound(e, d);
    vstd::arithmetic::div_mod::lemma_div_pos_is_pos(e, d);
    let cell = edge_cell(lengths, e);
    let dim = edge_dim(lengths, e);
    lemma_index_of_digits(lengths, cell);
    let c = digits(lengths, cell);
    let up = c.update(dim, (c[dim] + 1) as usize);
    lemma_index_update(lengths, c, dim, (c[dim] + 1) as usize);
    assert(1 * stride(lengths, dim) == stride(lengths, dim)) by (nonlinear_arith);
    assert(coord_valid(lengths, up));
    lemma_index_bounds(lengths, up);
    lemma_stride_pos(lengths, dim);
}

/// Over an edgeless graph nothing is reachable but the start cell.
proof fn lemma_reach_empty(lengths: Seq<usize>, walks: Seq<bool>, x: int, y: int, n: nat)
    requires
        forall|e: int| 0 <= e < walks.len() ==> !walks[e],
        reach_n(lengths, walks, x, y, n),
    ensures
        x == y,
    decreases n,
{
    if x != y {
        let m = choose|m: int|
            adjacent(lengths, walks, x, m) && reach_n(lengths, walks, m, y, (n - 1) as nat);
        assert(false);
    }
}

/// A sequence of unset bits counts zero.
proof fn lemma_count_true_none(s: Seq<bool>)
    requires
        forall|i: int| 0 <= i < s.len() ==> !s[i],
    ensures
        count_true(s) == 0,
    decreases s.len(),
{
    if s.len() > 0 {
        lemma_count_true_none(s.drop_last());
    }
}

/// A sequence of parentless cells counts all roots.
proof fn lemma_count_roots_all(cells: Seq<MazeGenCell>)
    requires
        forall|i: int| 0 <= i < cells.len() ==> cells[i].parent is None,
    ensures
        count_roots(cells) == cells.len(),
    decreases cells.len(),
{
    if cells.len() > 0 {
        lemma_count_roots_all(cells.drop_last());
    }
}

/// A sequence without parentless cells counts no roots.
proof fn lemma_count_roots_none(cells: Seq<MazeGenCell>)
    requires
        forall|i: int| 0 <= i < cells.len() ==> cells[i].parent is Some,
    ensures
        count_roots(cells) == 0,
    decreases cells.len(),
{
    if cells.len() > 0 {
        lemma_count_roots_none(cells.drop_last());
    }
}

/// A sequence with exactly one parentless cell counts one root.
proof fn lemma_count_roots_one(cells: Seq<MazeGenCell>, r: int)
    requires
        0 <= r < cells.len(),
        forall|i: int| 0 <= i < cells.len() ==> (cells[i].parent is None <==> i == r),
    ensures
        count_roots(cells) == 1,
    decreases cells.len(),
{
    if r == cells.len() - 1 {
        lemma_count_roots_none(cells.drop_last());
    } else {
        lemma_count_roots_one(cells.drop_last(), r);
    }
}

/// The invariant holds of the blank starting state.
pub proof fn lemma_gen_init_inv(lengths: Seq<usize>)
    requires
        lengths.len() >= 1,
        lengths_valid(lengths),
        cell_total(lengths) * lengths.len() <= usize::MAX,
    ensures
        gen_inv(lengths, walks_init(lengths), cells_init(lengths)),
{
    let total = cell_total(lengths);
    let w0 = walks_init(lengths);
    let c0 = cells_init(lengths);
    lemma_stride_pos(lengths, lengths.len() as int);
    assert(total * lengths.len() >= total * 1 >= 0) by (nonlinear_arith)
        requires total >= 1, lengths.len() >= 1;
    assert(cells_wf(c0));
    assert forall|i: int, j: int|
        0 <= i < total && 0 <= j < total && #[trigger] same_set(c0, i, j) implies connected(
        lengths,
        w0,
        i,
        j,
    ) by {
        assert(root_of(c0, i) == i);
        assert(root_of(c0, j) == j);
        lemma_connected_refl(lengths, w0, i);
    }
    assert forall|i: int, j: int|
        0 <= i < total && 0 <= j < total && #[trigger] connected(lengths, w0, i, j) implies
        same_set(c0, i, j) by {
        let n = choose|n: nat| reach_n(lengths, w0, i, j, n);
        lemma_reach_empty(lengths, w0, i, j, n);
    }
    lemma_count_true_none(w0);
    lemma_count_roots_all(c0);
}

/// Setting one bit from false to true raises the count by one.
pub proof fn lemma_count_true_set(s: Seq<bool>, e: int)
    requires
        0 <= e < s.len(),
        !s[e],
    ensures
        count_true(s.update(e, true)) == count_true(s) + 1,
    decreases s.len(),
{
    let s2 = s.update(e, true);
    if e == s.len() - 1 {
        assert(s2.drop_last() =~= s.drop_last());
        assert(s2.last());
        assert(!s.last());
    } else {
        assert(s2.drop_last() =~= s.drop_last().update(e, true));
        lemma_count_true_set(s.drop_last(), e);
        assert(s2.last() == s.last());
    }
}

/// One generation step preserves the invariant; tree equalities that
/// already hold persist, and a processed real edge leaves its endpoints in
/// one tree.
pub proof fn lemma_gen_step_inv(
    lengths: Seq<usize>,
    walks: Seq<bool>,
    cells: Seq<MazeGenCell>,
    e: int,
)
    requires
        gen_inv(lengths, walks, cells),
    ensures
        gen_inv(
            lengths,
            gen_step(lengths, walks, cells, e).0,
            gen_step(lengths, walks, cells, e).1,
        ),
        forall|i: int, j: int|
            0 <= i < cell_total(lengths) && 0 <= j < cell_total(lengths) && #[trigger] same_set(
                cells,
                i,
                j,
            ) ==> same_set(gen_step(lengths, walks, cells, e).1, i, j),
        edge_candidate(lengths, e) ==> same_set(
            gen_step(lengths, walks, cells, e).1,
            edge_cell(lengths, e),
            edge_other(lengths, e),
        ),
{
    let total = cell_total(lengths);
    let st = gen_step(lengths, walks, cells, e);
    if edge_candidate(lengths, e) {
        let a = edge_cell(lengths, e);
        let b = edge_other(lengths, e);
        lemma_edge_endpoints(lengths, e);
        let ra = root_of(cells, a);
        let rb = root_of(cells, b);
        lemma_root_props(cells, a);
        lemma_root_props(cells, b);
        if ra == rb {
            assert(same_set(cells, a, b));
            assert(st == (walks, cells));
        } else {
            let hi = if ra < rb {
                rb
            } else {
                ra
            };
            let lo = if ra < rb {
                ra
            } else {
                rb
            };
            let cnew = MazeGenCell { id: cells[hi].id, parent: Some(lo as usize) };
            let cells2 = cells.update(hi, cnew);
            let walks2 = walks.update(e, true);
            assert(!same_set(cells, a, b));
            assert(st.1 == cells2);
            assert(st.0 == walks2);
            assert(total * 1 <= total * lengths.len()) by {
                lemma_stride_pos(lengths, lengths.len() as int);
                lemma_mul_inequality(1, lengths.len() as int, total);
                assert(1 * total == total * 1) by (nonlinear_arith);
                assert(lengths.len() as int * total == total * lengths.len())
                    by (nonlinear_arith);
            }
            assert(total * 1 == total) by (nonlinear_arith);

            // How every root moves when hi is attached below lo.
            assert forall|i: int| 0 <= i < total implies #[trigger] root_of(cells2, i) == (
            if root_of(cells, i) == hi {
                lo
            } else {
                root_of(cells, i)
            }) by {
                lemma_root_after_attach(cells, hi, lo, i);
                assert(root_of(cells, lo) == lo);
            }
            assert(cells_wf(cells2)) by {
                lemma_root_after_attach(cells, hi, lo, 0);
            }

            // The processed edge's bit cannot be set yet: its endpoints
            // would already share a tree.
            assert(!walks[e]) by {
                if walks[e] {
                    assert(adjacent(lengths, walks, a, b));
                    lemma_connected_step(lengths, walks, a, b);
                    assert(same_set(cells, a, b));
                }
            }
            lemma_count_true_set(walks, e);
            lemma_count_roots_attach(cells, hi, cnew);

            assert forall|t: int| 0 <= t < walks2.len() && walks2[t] implies edge_candidate(
                lengths,
                t,
            ) by {
                if t != e {
                    assert(walks[t]);
                }
            }

            assert(walks2[e]);
            assert(adjacent(lengths, walks2, a, b));
            assert(root_of(cells2, a) == lo);
            assert(root_of(cells2, b) == lo);
            assert(same_set(cells2, a, b));

            // Equalities persist: equal roots stay equal under the mapping.
            assert forall|i: int, j: int|
                0 <= i < total && 0 <= j < total && #[trigger] same_set(cells, i, j) implies
                same_set(cells2, i, j) by {}

            // Forward: one tree in the new state means connected by new edges.
            assert forall|i: int, j: int|
                0 <= i < total && 0 <= j < total && #[trigger] same_set(cells2, i, j) implies
                connected(lengths, walks2, i, j) by {
                let ri = root_of(cells, i);
                let rj = root_of(cells, j);
                if ri == rj {
                    assert(same_set(cells, i, j));
                    assert(connected(lengths, walks, i, j));
                    lemma_connected_mono(lengths, walks, walks2, i, j);
                } else {
                    // Exactly one of the two old roots was hi, the other lo.
                    assert((ri == hi && rj == lo) || (ri == lo && rj == hi));
                    let pp = if ra == hi {
                        a
                    } else {
                        b
                    };
                    let qq = if ra == hi {
                        b
                    } else {
                        a
                    };
                    let mi = if ri == hi {
                        pp
                    } else {
                        qq
                    };
                    let mj = if ri == hi {
                        qq
                    } else {
                        pp
                    };
                    assert(same_set(cells, i, mi));
                    assert(same_set(cells, j, mj));
                    assert(connected(lengths, walks, i, mi));
                    assert(connected(lengths, walks, j, mj));
                    lemma_connected_mono(lengths, walks, walks2, i, mi);
                    lemma_connected_mono(lengths, walks, walks2, j, mj);
                    lemma_connected_step(lengths, walks2, a, b);
                    lemma_connected_sym(lengths, walks2, a, b);
                    lemma_connected_trans(lengths, walks2, i, mi, mj);
                    lemma_connected_sym(lengths, walks2, j, mj);
                    lemma_connected_trans(lengths, walks2, i, mj, j);
                }
            }

            // Backward: a new connection either existed before or crosses
            // the new edge, whose sides the merge has just united.
            assert forall|i: int, j: int|
                0 <= i < total && 0 <= j < total && #[trigger] connected(lengths, walks2, i, j)
                implies same_set(cells2, i, j) by {
                lemma_connected_decompose(lengths, walks, e, i, j);
                if connected(lengths, walks, i, j) {
                    assert(same_set(cells, i, j));
                    assert(same_set(cells2, i, j));
                } else if connected(lengths, walks, i, a) && connected(lengths, walks, b, j) {
                    assert(same_set(cells, i, a));
                    assert(same_set(cells, b, j));
                    assert(same_set(cells2, i, j));
                } else {
                    assert(connected(lengths, walks, i, b) && connected(lengths, walks, a, j));
                    assert(same_set(cells, i, b));
                    assert(same_set(cells, a, j));
                    assert(same_set(cells2, i, j));
                }
            }

            // Every kept edge, the new one included, is still a bridge.
            assert forall|f: int| 0 <= f < walks2.len() && walks2[f] implies !connected(
                lengths,
                #[trigger] walks2.update(f, false),
                edge_cell(lengths, f),
                edge_other(lengths, f),
            ) by {
                let af = edge_cell(lengths, f);
                let bf = edge_other(lengths, f);
                if f == e {
                    assert(walks2.update(e, false) =~= walks);
                    if connected(lengths, walks, a, b) {
                        assert(same_set(cells, a, b));
                    }
                } else {
                    assert(walks[f]);
                    lemma_edge_endpoints(lengths, f);
                    let base = walks.update(f, false);
                    assert(walks2.update(f, false) =~= base.update(e, true));
                    if connected(lengths, walks2.update(f, false), af, bf) {
                        assert(connected(lengths, base.update(e, true), af, bf));
                        lemma_connected_decompose(lengths, base, e, af, bf);
                        if connected(lengths, base, af, bf) {
                            assert(false);
                        } else if connected(lengths, base, af, a) && connected(
                            lengths,
                            base,
                            b,
                            bf,
                        ) {
                            lemma_connected_mono(lengths, base, walks, af, a);
                            lemma_connected_mono(lengths, base, walks, b, bf);
                            lemma_connected_sym(lengths, walks, af, a);
                            assert(adjacent(lengths, walks, af, bf));
                            lemma_connected_step(lengths, walks, af, bf);
                            lemma_connected_sym(lengths, walks, b, bf);
                            lemma_connected_trans(lengths, walks, a, af, bf);
                            lemma_connected_trans(lengths, walks, a, bf, b);
                            assert(same_set(cells, a, b));
                            assert(false);
                        } else {
                            assert(connected(lengths, base, af, b) && connected(
                                lengths,
                                base,
                                a,
                                bf,
                            ));
                            lemma_connected_mono(lengths, base, walks, af, b);
                            lemma_connected_mono(lengths, base, walks, a, bf);
                            lemma_connected_sym(lengths, walks, af, b);
                            assert(adjacent(lengths, walks, af, bf));
                            lemma_connected_step(lengths, walks, af, bf);
                            lemma_connected_trans(lengths, walks, b, af, bf);
                            lemma_connected_sym(lengths, walks, a, bf);
                            lemma_connected_trans(lengths, walks, b, bf, a);
                            lemma_connected_sym(lengths, walks, b, a);
                            assert(same_set(cells, a, b));
                            assert(false);
                        }
                    }
                }
            }
        }
    }
}

/// Attaching a root under another lowers the root count by one.
pub proof fn lemma_count_roots_attach(
    cells: Seq<crate::cells::MazeGenCell>,
    hi: int,
    c: crate::cells::MazeGenCell,
)
    requires
        0 <= hi < cells.len(),
        cells[hi].parent is None,
        c.parent is Some,
    ensures
        count_roots(cells.update(hi, c)) == count_roots(cells) - 1,
    decreases cells.len(),
{
    let s2 = cells.update(hi, c);
    if hi == cells.len() - 1 {
        assert(s2.drop_last() =~= cells.drop_last());
    } else {
        assert(s2.drop_last() =~= cells.drop_last().update(hi, c));
        lemma_count_roots_attach(cells.drop_last(), hi, c);
        assert(s2.last() == cells.last());
    }
}

/// Running generation over any edge list preserves the invariant, keeps
/// existing tree equalities, and unites the endpoints of every real edge in
/// the list.
pub proof fn lemma_gen_run_inv(
    lengths: Seq<usize>,
    walks: Seq<bool>,
    cells: Seq<MazeGenCell>,
    order: Seq<usize>,
)
    requires
        gen_inv(lengths, walks, cells),
    ensures
        gen_inv(
            lengths,
            gen_run(lengths, walks, cells, order).0,
            gen_run(lengths, walks, cells, order).1,
        ),
        forall|i: int, j: int|
            0 <= i < cell_total(lengths) && 0 <= j < cell_total(lengths) && #[trigger] same_set(
                cells,
                i,
                j,
            ) ==> same_set(gen_run(lengths, walks, cells, order).1, i, j),
        forall|m: int|
            0 <= m < order.len() && edge_candidate(lengths, #[trigger] order[m] as int)
                ==> same_set(
                gen_run(lengths, walks, cells, order).1,
                edge_cell(lengths, order[m] as int),
                edge_other(lengths, order[m] as int),
            ),
    decreases order.len(),
{
    if order.len() == 0 {
    } else {
        let total = cell_total(lengths);
        let e = order[0] as int;
        let st = gen_step(lengths, walks, cells, e);
        lemma_gen_step_inv(lengths, walks, cells, e);
        lemma_gen_run_inv(lengths, st.0, st.1, order.drop_first());
        let fin = gen_run(lengths, walks, cells, order);
        assert(fin == gen_run(lengths, st.0, st.1, order.drop_first()));
        assert forall|m: int|
            0 <= m < order.len() && edge_candidate(lengths, #[trigger] order[m] as int) implies
            same_set(
            fin.1,
            edge_cell(lengths, order[m] as int),
            edge_other(lengths, order[m] as int),
        ) by {
            if m == 0 {
                lemma_edge_endpoints(lengths, e);
                assert(same_set(st.1, edge_cell(lengths, e), edge_other(lengths, e)));
            } else {
                assert(order.drop_first()[m - 1] == order[m]);
            }
        }
    }
}

/// A coordinate of zeros has linear index zero.
proof fn lemma_index_of_zero(lengths: Seq<usize>, c: Seq<usize>)
    requires
        forall|i: int| 0 <= i < c.len() ==> c[i] == 0,
        c.len() == lengths.len(),
    ensures
        index_of(lengths, c) == 0,
    decreases lengths.len(),
{
    if lengths.len() > 0 {
        lemma_index_of_zero(lengths.drop_first(), c.drop_first());
        assert(c[0] == 0);
    }
}

/// When every real edge has its endpoints in one tree, every cell shares
/// the origin's tree: each cell is one real edge away from a cell with a
/// smaller linear index.
proof fn lemma_origin_reaches(lengths: Seq<usize>, cells: Seq<MazeGenCell>, idx: int)
    requires
        lengths.len() >= 1,
        lengths_valid(lengths),
        cells_wf(cells),
        forall|f: int|
            edge_candidate(lengths, f) ==> same_set(
                cells,
                edge_cell(lengths, f),
                edge_other(lengths, f),
            ),
        0 <= idx < cell_total(lengths),
    ensures
        same_set(cells, 0, idx),
    decreases idx,
{
    if idx == 0 {
    } else {
        let total = cell_total(lengths);
        let d = lengths.len() as int;
        lemma_index_of_digits(lengths, idx);
        let cd = digits(lengths, idx);
        assert(exists|t: int| 0 <= t < cd.len() && cd[t] != 0) by {
            if forall|t: int| 0 <= t < cd.len() ==> cd[t] == 0 {
                lemma_index_of_zero(lengths, cd);
                assert(false);
            }
        }
        let dd = choose|dd: int| 0 <= dd < cd.len() && cd[dd] != 0;
        let prev_c = cd.update(dd, (cd[dd] - 1) as usize);
        lemma_index_update(lengths, cd, dd, (cd[dd] - 1) as usize);
        assert((-1) * stride(lengths, dd) == -stride(lengths, dd)) by (nonlinear_arith);
        lemma_stride_pos(lengths, dd);
        let prev = index_of(lengths, prev_c);
        assert(prev == idx - stride(lengths, dd));
        assert(coord_valid(lengths, prev_c));
        lemma_index_bounds(lengths, prev_c);
        lemma_digits_of_index(lengths, prev_c);
        let f = prev * d + dd;
        lemma_fundamental_div_mod_converse(f, d, prev, dd);
        assert(0 <= f < total * d) by {
            assert(prev * d >= 0) by (nonlinear_arith)
                requires prev >= 0, d >= 0;
            lemma_mul_inequality(prev + 1, total, d);
            assert((prev + 1) * d == prev * d + d) by (nonlinear_arith);
            assert(total * d == d * total) by (nonlinear_arith);
        }
        assert(edge_cell(lengths, f) == prev);
        assert(edge_dim(lengths, f) == dd);
        assert(digits(lengths, prev) == prev_c);
        assert(prev_c[dd] + 1 == cd[dd]);
        assert(cd[dd] < lengths[dd]);
        assert(edge_candidate(lengths, f));
        assert(edge_other(lengths, f) == idx);
        assert(same_set(cells, prev, idx));
        lemma_origin_reaches(lengths, cells, prev);
    }
}

/// The spanning-tree theorem: for any valid lengths and any seed, the
/// generated edge set has exactly one edge less than there are cells,
/// connects every cell to the origin, and is a forest (no kept edge lies on
/// a cycle) - together, a spanning tree of the grid.
pub proof fn lemma_spanning_tree(lengths: Seq<usize>, seed: u64)
    requires
        lengths.len() >= 1,
        lengths_valid(lengths),
        cell_total(lengths) * lengths.len() <= usize::MAX,
    ensures
        count_true(gen_walks(lengths, seed)) == cell_total(lengths) - 1,
        forall|c: int|
            0 <= c < cell_total(lengths) ==> connected(lengths, gen_walks(lengths, seed), 0, c),
        forest(lengths, gen_walks(lengths, seed)),
{
    let total = cell_total(lengths);
    let d = lengths.len() as int;
    let order = shuffled_edges(lengths, seed);
    lemma_gen_init_inv(lengths);
    lemma_gen_run_inv(lengths, walks_init(lengths), cells_init(lengths), order);
    let fin = gen_run(lengths, walks_init(lengths), cells_init(lengths), order);
    let w = fin.0;
    let c = fin.1;
    assert(w == gen_walks(lengths, seed));
    lemma_stride_pos(lengths, d);
    assert(total * d >= total * 1 >= 1) by (nonlinear_arith)
        requires total >= 1, d >= 1;
    lemma_shuffle_rec_elems(edge_ids(lengths), seed, 0, edge_ids(lengths).len() as int - 1);
    assert forall|f: int| edge_candidate(lengths, f) implies same_set(
        c,
        edge_cell(lengths, f),
        edge_other(lengths, f),
    ) by {
        assert(edge_ids(lengths)[f] == f as usize);
        assert(edge_ids(lengths).contains(f as usize));
        assert(order.contains(f as usize));
        let m = choose|m: int| 0 <= m < order.len() && order[m] == f as usize;
        assert(edge_candidate(lengths, order[m] as int));
    }
    assert forall|cc: int| 0 <= cc < total implies connected(lengths, w, 0, cc) by {
        lemma_origin_reaches(lengths, c, cc);
        assert(same_set(c, 0, cc));
    }
    let r0 = root_of(c, 0);
    lemma_root_props(c, 0);
    assert forall|i: int| 0 <= i < total implies (c[i].parent is None <==> i == r0) by {
        lemma_origin_reaches(lengths, c, i);
        if c[i].parent is None {
            assert(root_of(c, i) == i);
        }
    }
    lemma_count_roots_one(c, r0);
}

} // verus!
