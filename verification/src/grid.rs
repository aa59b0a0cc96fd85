//! Linear indexing of the cells of an N-dimensional grid.
//!
//! A grid is described by one positive length per dimension.  A cell is a
//! coordinate vector with one component per dimension, each below that
//! dimension's length.  Cells are numbered in mixed-radix order: coordinate
//! component `d` contributes `c[d] * stride(d)` to the cell's linear index,
//! where `stride(d)` is the product of the lengths of dimensions `0..d`.

use vstd::prelude::*;

verus! {

use vstd::arithmetic::div_mod::{
    lemma_fundamental_div_mod,
    lemma_fundamental_div_mod_converse,
};
use vstd::arithmetic::mul::lemma_mul_inequality;

/// Product of the lengths of dimensions `0..d`: the distance in linear-index
/// space between two cells one step apart along dimension `d`.
pub open spec fn stride(lengths: Seq<usize>, d: int) -> int
    decreases d,
{
    if d <= 0 {
        1
    } else {
        stride(lengths, d - 1) * lengths[d - 1]
    }
}

/// Total number of cells of the grid: the product of all dimension lengths.
pub open spec fn cell_total(lengths: Seq<usize>) -> int {
    stride(lengths, lengths.len() as int)
}

/// Every dimension length is positive.
pub open spec fn lengths_valid(lengths: Seq<usize>) -> bool {
    forall|i: int| 0 <= i < lengths.len() ==> lengths[i] >= 1
}

/// `c` is a coordinate inside the grid: one component per dimension, each
/// below that dimension's length.
pub open spec fn coord_valid(lengths: Seq<usize>, c: Seq<usize>) -> bool {
    &&& c.len() == lengths.len()
    &&& forall|i: int| 0 <= i < c.len() ==> c[i] < lengths[i]
}

/// Linear index of coordinate `c`: the mixed-radix value of its components.
pub open spec fn index_of(lengths: Seq<usize>, c: Seq<usize>) -> int
    decreases lengths.len(),
{
    if lengths.len() == 0 {
        0
    } else {
        c[0] + lengths[0] * index_of(lengths.drop_first(), c.drop_first())
    }
}

/// Coordinate of the cell with linear index `idx`: the mixed-radix digits of
/// `idx`, least-significant dimension first.
pub open spec fn digits(lengths: Seq<usize>, idx: int) -> Seq<usize>
    decreases lengths.len(),
{
    if lengths.len() == 0 {
        Seq::empty()
    } else {
        seq![(idx % lengths[0] as int) as usize] + digits(
            lengths.drop_first(),
            idx / lengths[0] as int,
        )
    }
}

/// The stride of dimension `d` seen from the tail of the length list.
pub proof fn lemma_stride_tail(lengths: Seq<usize>, d: int)
    requires
        lengths.len() >= 1,
        1 <= d <= lengths.len(),
    ensures
        stride(lengths, d) == lengths[0] * stride(lengths.drop_first(), d - 1),
    decreases d,
{
    if d == 1 {
        assert(stride(lengths, 0) == 1);
        assert(stride(lengths.drop_first(), 0) == 1);
        assert(stride(lengths, 1) == 1 * lengths[0]);
    } else {
        lemma_stride_tail(lengths, d - 1);
        let l0 = lengths[0] as int;
        let a = stride(lengths.drop_first(), d - 2);
        let b = lengths.drop_first()[d - 2] as int;
        assert(stride(lengths.drop_first(), d - 1) == a * b);
        assert(b == lengths[d - 1]);
        assert((l0 * a) * b == l0 * (a * b)) by (nonlinear_arith);
    }
}

/// Strides are positive when all lengths are.
pub proof fn lemma_stride_pos(lengths: Seq<usize>, d: int)
    requires
        lengths_valid(lengths),
        d <= lengths.len(),
    ensures
        stride(lengths, d) >= 1,
    decreases d,
{
    if d > 0 {
        lemma_stride_pos(lengths, d - 1);
        assert(stride(lengths, d - 1) * lengths[d - 1] >= stride(lengths, d - 1) * 1) by {
            lemma_mul_inequality(1, lengths[d - 1] as int, stride(lengths, d - 1));
        }
    }
}

/// A valid coordinate's linear index lies inside the grid.
pub proof fn lemma_index_bounds(lengths: Seq<usize>, c: Seq<usize>)
    requires
        lengths_valid(lengths),
        coord_valid(lengths, c),
    ensures
        0 <= index_of(lengths, c) < cell_total(lengths),
    decreases lengths.len(),
{
    if lengths.len() == 0 {
    } else {
        let lt = lengths.drop_first();
        let ct = c.drop_first();
        assert(lengths_valid(lt));
        assert(coord_valid(lt, ct));
        lemma_index_bounds(lt, ct);
        let rest = index_of(lt, ct);
        // index_of(c) = c[0] + lengths[0] * rest
        //            <= (lengths[0] - 1) + lengths[0] * (cell_total(tail) - 1)
        //             < lengths[0] * cell_total(tail) = cell_total
        assert(lengths[0] * rest <= lengths[0] * (cell_total(lt) - 1)) by {
            lemma_mul_inequality(rest, cell_total(lt) - 1, lengths[0] as int);
        }
        assert(lengths[0] * (cell_total(lt) - 1) == lengths[0] * cell_total(lt) - lengths[0])
            by (nonlinear_arith);
        assert(lengths[0] * rest >= 0) by (nonlinear_arith)
            requires rest >= 0, lengths[0] >= 1;
        lemma_stride_tail(lengths, lengths.len() as int);
        assert(cell_total(lengths) == lengths[0] * cell_total(lt));
    }
}

/// Decoding the linear index of a valid coordinate yields that coordinate.
pub proof fn lemma_digits_of_index(lengths: Seq<usize>, c: Seq<usize>)
    requires
        lengths_valid(lengths),
        coord_valid(lengths, c),
    ensures
        digits(lengths, index_of(lengths, c)) == c,
    decreases lengths.len(),
{
    if lengths.len() == 0 {
        assert(digits(lengths, index_of(lengths, c)) =~= c);
    } else {
        let lt = lengths.drop_first();
        let ct = c.drop_first();
        let rest = index_of(lt, ct);
        let idx = index_of(lengths, c);
        assert(lengths_valid(lt));
        assert(coord_valid(lt, ct));
        lemma_index_bounds(lt, ct);
        assert(c[0] < lengths[0]);
        assert(idx == rest * lengths[0] as int + c[0]) by (nonlinear_arith)
            requires idx == c[0] + lengths[0] * rest;
        lemma_fundamental_div_mod_converse(idx, lengths[0] as int, rest, c[0] as int);
        assert(idx % lengths[0] as int == c[0]);
        assert(idx / lengths[0] as int == rest);
        lemma_digits_of_index(lt, ct);
        assert(digits(lengths, idx) =~= c);
    }
}

/// Every linear index inside the grid decodes to a valid coordinate that
/// encodes back to it.
pub proof fn lemma_index_of_digits(lengths: Seq<usize>, idx: int)
    requires
        lengths_valid(lengths),
        0 <= idx < cell_total(lengths),
    ensures
        coord_valid(lengths, digits(lengths, idx)),
        index_of(lengths, digits(lengths, idx)) == idx,
    decreases lengths.len(),
{
    if lengths.len() == 0 {
        assert(coord_valid(lengths, digits(lengths, idx)));
    } else {
        let lt = lengths.drop_first();
        let l0 = lengths[0] as int;
        let q = idx / l0;
        let r = idx % l0;
        lemma_fundamental_div_mod(idx, l0);
        assert(0 <= r < l0);
        assert(0 <= q) by (nonlinear_arith)
            requires idx >= 0, l0 >= 1, idx == l0 * q + r, 0 <= r < l0;
        lemma_stride_tail(lengths, lengths.len() as int);
        assert(cell_total(lengths) == l0 * cell_total(lt));
        assert(q < cell_total(lt)) by (nonlinear_arith)
            requires
                idx == l0 * q + r,
                idx < l0 * cell_total(lt),
                0 <= r,
                l0 >= 1,
                q >= 0;
        lemma_index_of_digits(lt, q);
        let d = digits(lengths, idx);
        assert(d.drop_first() =~= digits(lt, q));
        assert(d[0] == r);
        assert(coord_valid(lengths, d));
        assert(index_of(lengths, d) == r + l0 * q);
    }
}

/// Replacing one coordinate component moves the linear index by the change
/// times that dimension's stride.
pub proof fn lemma_index_update(lengths: Seq<usize>, c: Seq<usize>, k: int, v: usize)
    requires
        c.len() == lengths.len(),
        0 <= k < c.len(),
    ensures
        index_of(lengths, c.update(k, v)) == index_of(lengths, c) + (v - c[k]) * stride(
            lengths,
            k,
        ),
    decreases k,
{
    let cu = c.update(k, v);
    if k == 0 {
        assert(cu.drop_first() =~= c.drop_first());
        assert(index_of(lengths, cu) == v + lengths[0] * index_of(
            lengths.drop_first(),
            c.drop_first(),
        ));
    } else {
        let lt = lengths.drop_first();
        let ct = c.drop_first();
        assert(cu.drop_first() =~= ct.update(k - 1, v));
        assert(cu[0] == c[0]);
        lemma_index_update(lt, ct, k - 1, v);
        lemma_stride_tail(lengths, k);
        assert(lengths[0] * (index_of(lt, ct) + (v - ct[k - 1]) * stride(lt, k - 1)) == lengths[0]
            * index_of(lt, ct) + (v - ct[k - 1]) * (lengths[0] * stride(lt, k - 1)))
            by (nonlinear_arith);
        assert(ct[k - 1] == c[k]);
    }
}

/// A stride seen from partway through the length list: the strides of the
/// dimensions past `i` pick up where `stride(lengths, i)` left off.
pub proof fn lemma_stride_split(lengths: Seq<usize>, i: int, d: int)
    requires
        0 <= i <= d <= lengths.len(),
    ensures
        stride(lengths, d) == stride(lengths, i) * stride(lengths.skip(i), d - i),
    decreases d - i,
{
    if d == i {
        assert(stride(lengths.skip(i), 0) == 1);
        assert(stride(lengths, i) * 1 == stride(lengths, i)) by (nonlinear_arith);
    } else {
        lemma_stride_split(lengths, i, d - 1);
        let s = lengths.skip(i);
        assert(stride(s, d - i) == stride(s, d - i - 1) * s[d - i - 1]);
        assert(s[d - i - 1] == lengths[d - 1]);
        assert((stride(lengths, i) * stride(s, d - 1 - i)) * lengths[d - 1] as int == stride(
            lengths,
            i,
        ) * (stride(s, d - 1 - i) * lengths[d - 1] as int)) by (nonlinear_arith);
    }
}

/// Computes the total number of grid cells: the product of all lengths.
pub fn cell_count(lengths: &Vec<usize>) -> (t: usize)
    requires
        lengths_valid(lengths@),
        cell_total(lengths@) <= usize::MAX,
    ensures
        t == cell_total(lengths@),
{
    let mut t: usize = 1;
    let mut i: usize = 0;
    while i < lengths.len()
        invariant
            lengths_valid(lengths@),
            cell_total(lengths@) <= usize::MAX,
            i <= lengths@.len(),
            t == stride(lengths@, i as int),
        decreases lengths@.len() - i,
    {
        proof {
            let l = lengths@;
            let n = l.len() as int;
            lemma_stride_split(l, i as int + 1, n);
            lemma_stride_pos(l, i as int + 1);
            let rest = stride(l.skip(i as int + 1), n - i - 1);
            assert(lengths_valid(l.skip(i as int + 1)));
            lemma_stride_pos(l.skip(i as int + 1), n - i - 1);
            assert(stride(l, i as int + 1) * 1 <= stride(l, i as int + 1) * rest) by {
                lemma_mul_inequality(1, rest, stride(l, i as int + 1));
                assert(1 * stride(l, i as int + 1) == stride(l, i as int + 1) * 1)
                    by (nonlinear_arith);
                assert(rest * stride(l, i as int + 1) == stride(l, i as int + 1) * rest)
                    by (nonlinear_arith);
            }
            assert(stride(l, i as int + 1) * 1 == stride(l, i as int + 1)) by (nonlinear_arith);
        }
        t = t * lengths[i];
        i += 1;
    }
    t
}

/// Encodes a grid coordinate as its linear index.
pub fn wrap_index(lengths: &Vec<usize>, c: &Vec<usize>) -> (idx: usize)
    requires
        lengths_valid(lengths@),
        coord_valid(lengths@, c@),
        cell_total(lengths@) <= usize::MAX,
    ensures
        idx == index_of(lengths@, c@),
{
    let mut idx: usize = 0;
    let mut i: usize = lengths.len();
    proof {
        assert(lengths@.skip(lengths@.len() as int) =~= Seq::<usize>::empty());
        assert(c@.skip(c@.len() as int) =~= Seq::<usize>::empty());
    }
    while i > 0
        invariant
            lengths_valid(lengths@),
            coord_valid(lengths@, c@),
            cell_total(lengths@) <= usize::MAX,
            i <= lengths@.len(),
            idx == index_of(lengths@.skip(i as int), c@.skip(i as int)),
        decreases i,
    {
        i -= 1;
        let ghost l = lengths@;
        let ghost ls = l.skip(i as int);
        let ghost cs = c@.skip(i as int);
        proof {
            assert(lengths_valid(ls));
            assert(coord_valid(ls, cs));
            assert(ls.drop_first() =~= l.skip(i as int + 1));
            assert(cs.drop_first() =~= c@.skip(i as int + 1));
            lemma_index_bounds(ls, cs);
            lemma_stride_split(l, i as int, l.len() as int);
            lemma_stride_pos(l, i as int);
            // cell_total(skip(i)) fits: it divides the full cell count
            assert(1 * cell_total(ls) <= stride(l, i as int) * cell_total(ls)) by {
                lemma_mul_inequality(1, stride(l, i as int), cell_total(ls));
                assert(stride(l, i as int) * cell_total(ls) == cell_total(ls) * stride(
                    l,
                    i as int,
                )) by (nonlinear_arith);
                assert(1 * cell_total(ls) == cell_total(ls) * 1) by (nonlinear_arith);
            }
            assert(index_of(ls, cs) == cs[0] + ls[0] * index_of(ls.drop_first(), cs.drop_first()));
        }
        idx = c[i] + lengths[i] * idx;
    }
    proof {
        assert(lengths@.skip(0) =~= lengths@);
        assert(c@.skip(0) =~= c@);
    }
    idx
}

/// Decodes a linear index into a grid coordinate: the inverse of mixed-radix
/// numbering.  Returns `None` when the index lies outside the grid.
pub fn unwrap_index(lengths: &Vec<usize>, index: usize) -> (r: Option<Vec<usize>>)
    requires
        lengths_valid(lengths@),
    ensures
        match r {
            Some(c) => index < cell_total(lengths@) && c@ == digits(lengths@, index as int),
            None => index >= cell_total(lengths@),
        },
{
    let mut result: Vec<usize> = Vec::new();
    let mut remaining: usize = index;
    let mut i: usize = 0;
    proof {
        assert(lengths@.skip(0) =~= lengths@);
        assert(Seq::<usize>::empty() + digits(lengths@, index as int) =~= digits(
            lengths@,
            index as int,
        ));
    }
    while i < lengths.len()
        invariant
            lengths_valid(lengths@),
            i <= lengths@.len(),
            result@.len() == i,
            result@ + digits(lengths@.skip(i as int), remaining as int) == digits(
                lengths@,
                index as int,
            ),
            remaining as int * stride(lengths@, i as int) <= index,
            index < (remaining + 1) * stride(lengths@, i as int),
        decreases lengths@.len() - i,
    {
        proof {
            lemma_stride_pos(lengths@, i as int);
            let ls = lengths@.skip(i as int);
            assert(ls[0] == lengths@[i as int]);
            assert(ls.drop_first() =~= lengths@.skip(i as int + 1));
        }
        let length = lengths[i];
        let digit = remaining % length;
        let ghost old_remaining = remaining as int;
        remaining = remaining / length;
        result.push(digit);
        proof {
            let l = lengths@;
            let ii = i as int;
            let st = stride(l, ii);
            let ll = length as int;
            let q = remaining as int;
            lemma_fundamental_div_mod(old_remaining, ll);
            assert(stride(l, ii + 1) == st * ll);
            // lower bound: q * (st * ll) <= old_remaining * st <= index
            assert(q * (st * ll) == (ll * q) * st) by (nonlinear_arith);
            assert((ll * q) * st <= old_remaining * st) by {
                lemma_mul_inequality(ll * q, old_remaining, st);
            }
            // upper bound: old_remaining + 1 <= (q + 1) * ll, so
            // index < (old_remaining + 1) * st <= (q + 1) * ll * st
            assert((old_remaining + 1) * st <= ((q + 1) * ll) * st) by {
                assert(old_remaining + 1 <= (q + 1) * ll) by (nonlinear_arith)
                    requires old_remaining == ll * q + old_remaining % ll, old_remaining % ll < ll;
                lemma_mul_inequality(old_remaining + 1, (q + 1) * ll, st);
            }
            assert(((q + 1) * ll) * st == (q + 1) * (st * ll)) by (nonlinear_arith);
            assert(result@ + digits(l.skip(ii + 1), q) =~= (result@.drop_last() + digits(
                l.skip(ii),
                old_remaining,
            )));
        }
        i = i + 1;
    }
    proof {
        assert(digits(lengths@.skip(lengths@.len() as int), remaining as int) =~= Seq::<
            usize,
        >::empty());
        assert(result@ + Seq::<usize>::empty() =~= result@);
        assert(stride(lengths@, lengths@.len() as int) == cell_total(lengths@));
        lemma_stride_pos(lengths@, lengths@.len() as int);
        if remaining >= 1 {
            assert(cell_total(lengths@) <= remaining as int * cell_total(lengths@))
                by (nonlinear_arith)
                requires remaining >= 1, cell_total(lengths@) >= 0;
        }
    }
    if remaining == 0 {
        proof {
            assert((remaining + 1) * cell_total(lengths@) == 1 * cell_total(lengths@));
            assert(1 * cell_total(lengths@) == cell_total(lengths@)) by (nonlinear_arith);
        }
        Some(result)
    } else {
        None
    }
}

} // verus!
