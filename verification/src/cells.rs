//! Disjoint-set (union-find) cells used to reject cycle-forming edges during
//! maze generation.
//!
//! The cells live in a flat arena (a vector); each cell's parent link is a
//! plain index into that arena.  A merge always attaches the higher-indexed
//! root below the lower-indexed one, so parent links strictly decrease and
//! every chain of links reaches a root.

use vstd::prelude::*;

verus! {

/// One disjoint-set node: a caller-chosen label and an optional parent link.
/// A cell without a parent is the root of its tree.
#[derive(Clone, Copy)]
pub struct MazeGenCell {
    pub id: usize,
    pub parent: Option<usize>,
}

/// Parent links always point to a strictly lower arena index.
pub open spec fn cells_wf(cells: Seq<MazeGenCell>) -> bool {
    forall|i: int|
        0 <= i < cells.len() ==> match #[trigger] cells[i].parent {
            Some(p) => p < i,
            None => true,
        }
}

/// The root of the tree containing cell `i`: follow parent links until a cell
/// without a parent is reached.
pub open spec fn root_of(cells: Seq<MazeGenCell>, i: int) -> int
    decreases i when cells_wf(cells)
{
    if 0 <= i < cells.len() {
        match cells[i].parent {
            Some(p) => root_of(cells, p as int),
            None => i,
        }
    } else {
        i
    }
}

/// Two cells are in the same tree exactly when they share a root.
pub open spec fn same_set(cells: Seq<MazeGenCell>, a: int, b: int) -> bool {
    root_of(cells, a) == root_of(cells, b)
}

/// The arena after merging the trees of `a` and `b`: the higher-indexed root
/// is attached below the lower-indexed one; nothing changes if the trees
/// already coincide.
pub open spec fn merge_spec(cells: Seq<MazeGenCell>, a: int, b: int) -> Seq<MazeGenCell> {
    let ra = root_of(cells, a);
    let rb = root_of(cells, b);
    if ra == rb {
        cells
    } else {
        let hi = if ra < rb {
            rb
        } else {
            ra
        };
        let lo = if ra < rb {
            ra
        } else {
            rb
        };
        cells.update(hi, MazeGenCell { id: cells[hi].id, parent: Some(lo as usize) })
    }
}

/// A cell's root lies in the arena, at or below the cell, and is itself a
/// root.
pub proof fn lemma_root_props(cells: Seq<MazeGenCell>, i: int)
    requires
        cells_wf(cells),
        0 <= i < cells.len(),
    ensures
        0 <= root_of(cells, i) <= i,
        cells[root_of(cells, i)].parent is None,
    decreases i,
{
    match cells[i].parent {
        Some(p) => lemma_root_props(cells, p as int),
        None => {},
    }
}

/// Root chains never climb: a chain starting below an untouched index cannot
/// observe a change made at that index.
proof fn lemma_root_below_update(cells: Seq<MazeGenCell>, hi: int, c: MazeGenCell, j: int)
    requires
        cells_wf(cells),
        cells_wf(cells.update(hi, c)),
        0 <= hi < cells.len(),
        0 <= j < hi,
    ensures
        root_of(cells.update(hi, c), j) == root_of(cells, j),
    decreases j,
{
    match cells[j].parent {
        Some(p) => lemma_root_below_update(cells, hi, c, p as int),
        None => {},
    }
}

/// How every root moves when the root `hi` is attached below `lo`: trees
/// rooted at `hi` become rooted at `lo`'s root, all others keep their root.
pub proof fn lemma_root_after_attach(cells: Seq<MazeGenCell>, hi: int, lo: int, i: int)
    requires
        cells_wf(cells),
        cells.len() <= usize::MAX,
        0 <= lo < hi < cells.len(),
        cells[hi].parent is None,
        0 <= i < cells.len(),
    ensures
        cells_wf(cells.update(hi, MazeGenCell { id: cells[hi].id, parent: Some(lo as usize) })),
        root_of(
            cells.update(hi, MazeGenCell { id: cells[hi].id, parent: Some(lo as usize) }),
            i,
        ) == if root_of(cells, i) == hi {
            root_of(cells, lo)
        } else {
            root_of(cells, i)
        },
    decreases i,
{
    let c = MazeGenCell { id: cells[hi].id, parent: Some(lo as usize) };
    let cells2 = cells.update(hi, c);
    assert(cells_wf(cells2));
    if i == hi {
        assert(root_of(cells, hi) == hi);
        assert(root_of(cells2, hi) == root_of(cells2, lo));
        lemma_root_below_update(cells, hi, c, lo);
        assert(root_of(cells2, lo) == root_of(cells, lo));
    } else {
        match cells[i].parent {
            Some(p) => {
                lemma_root_after_attach(cells, hi, lo, p as int);
                assert(cells2[i].parent == Some(p));
                assert(root_of(cells2, i) == root_of(cells2, p as int));
                assert(root_of(cells, i) == root_of(cells, p as int));
            },
            None => {
                assert(root_of(cells, i) == i);
                assert(cells2[i].parent is None);
                assert(root_of(cells2, i) == i);
            },
        }
    }
}

impl MazeGenCell {
    /// A fresh, parentless cell carrying the given label.
    pub fn new(id: usize) -> (c: MazeGenCell)
        ensures
            c.id == id,
            c.parent is None,
    {
        MazeGenCell { id, parent: None }
    }

    /// Gets the root of the particular cell tree.
    pub fn get_root(cells: &Vec<MazeGenCell>, i: usize) -> (r: usize)
        requires
            cells_wf(cells@),
            i < cells@.len(),
        ensures
            r == root_of(cells@, i as int),
    {
        let mut cur = i;
        while cells[cur].parent.is_some()
            invariant
                cells_wf(cells@),
                cur < cells@.len(),
                root_of(cells@, cur as int) == root_of(cells@, i as int),
            decreases cur,
        {
            cur = cells[cur].parent.unwrap();
        }
        cur
    }

    /// Attempts to merge both cells' trees, returning true if they were
    /// different trees previously.
    pub fn try_merge(cells: &mut Vec<MazeGenCell>, a: usize, b: usize) -> (merged: bool)
        requires
            cells_wf(old(cells)@),
            a < old(cells)@.len(),
            b < old(cells)@.len(),
        ensures
            cells_wf(final(cells)@),
            final(cells)@.len() == old(cells)@.len(),
            final(cells)@ == merge_spec(old(cells)@, a as int, b as int),
            merged == !same_set(old(cells)@, a as int, b as int),
    {
        let ra = Self::get_root(cells, a);
        let rb = Self::get_root(cells, b);
        if ra == rb {
            false
        } else {
            let hi = if ra < rb {
                rb
            } else {
                ra
            };
            let lo = if ra < rb {
                ra
            } else {
                rb
            };
            proof {
                vstd::std_specs::vec::axiom_spec_len(cells);
                lemma_root_props(cells@, a as int);
                lemma_root_props(cells@, b as int);
                lemma_root_after_attach(cells@, hi as int, lo as int, 0);
            }
            let attached = MazeGenCell { id: cells[hi].id, parent: Some(lo) };
            cells.set(hi, attached);
            true
        }
    }
}

} // verus!
