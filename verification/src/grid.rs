//! The coordinate space of a grid: its lattice points in row-major order and
//! the index that each of them has in that order.

use vstd::prelude::*;
use vstd::arithmetic::div_mod::{lemma_fundamental_div_mod, lemma_fundamental_div_mod_converse};

use crate::combinatorics::{lemma_product_len, product_count, product_spec};

verus! {

/// The indices `0, 1, .., size - 1` of one axis.
pub open spec fn axis_spec(size: usize) -> Seq<usize> {
    Seq::new(size as nat, |j: int| j as usize)
}

/// The axes of a grid of the given shape.
pub open spec fn axes_spec(shape: Seq<usize>) -> Seq<Seq<usize>> {
    Seq::new(shape.len(), |i: int| axis_spec(shape[i]))
}

/// Every lattice point of a grid of the given shape, in row-major order: the
/// last axis varies fastest.
pub open spec fn coords_spec(shape: Seq<usize>) -> Seq<Seq<usize>> {
    product_spec(axes_spec(shape))
}

/// The number of lattice points of a grid of the given shape.
pub open spec fn volume(shape: Seq<usize>) -> nat
    decreases shape.len(),
{
    if shape.len() == 0 {
        1
    } else {
        volume(shape.drop_last()) * (shape.last() as nat)
    }
}

/// Whether `coord` names a lattice point of a grid of the given shape.
pub open spec fn in_bounds(shape: Seq<usize>, coord: Seq<usize>) -> bool {
    &&& coord.len() == shape.len()
    &&& forall|a: int| 0 <= a < shape.len() ==> #[trigger] coord[a] < shape[a]
}

/// The position of `coord` in the row-major order of the grid.
pub open spec fn flat_index(shape: Seq<usize>, coord: Seq<usize>) -> int
    decreases shape.len(),
{
    if shape.len() == 0 {
        0
    } else {
        flat_index(shape.drop_last(), coord.drop_last()) * (shape.last() as int) + (
        coord.last() as int)
    }
}

/// The shape of the cubic grid of side `n` in `m` dimensions.
pub open spec fn cube_shape(n: usize, m: usize) -> Seq<usize> {
    Seq::new(m as nat, |i: int| n)
}

/// A coordinate of a grid has an index below the volume of the grid.
pub proof fn lemma_flat_index_range(shape: Seq<usize>, coord: Seq<usize>)
    requires
        in_bounds(shape, coord),
    ensures
        0 <= flat_index(shape, coord) < volume(shape),
    decreases shape.len(),
{
    if shape.len() > 0 {
        let init = shape.drop_last();
        let rest = coord.drop_last();
        assert(in_bounds(init, rest)) by {
            assert forall|a: int| 0 <= a < init.len() implies #[trigger] rest[a] < init[a] by {
                assert(coord[a] < shape[a]);
            }
        }
        lemma_flat_index_range(init, rest);
        let f = flat_index(init, rest);
        let l = shape.last() as int;
        let c = coord.last() as int;
        let v = volume(init) as int;
        assert(coord[shape.len() - 1] < shape[shape.len() - 1]);
        assert(0 <= f * l + c < v * l) by (nonlinear_arith)
            requires
                0 <= f < v,
                0 <= c < l,
        ;
    }
}

/// The volume of a grid with a coordinate bounds the volume of each of its
/// leading sub-grids.
pub proof fn lemma_volume_of_prefix(shape: Seq<usize>, j: int)
    requires
        0 <= j <= shape.len(),
        forall|a: int| 0 <= a < shape.len() ==> shape[a] > 0,
    ensures
        0 < volume(shape.take(j)) <= volume(shape),
    decreases shape.len() - j,
{
    if j == shape.len() {
        assert(shape.take(j) =~= shape);
        lemma_volume_positive(shape);
    } else {
        lemma_volume_of_prefix(shape, j + 1);
        assert(shape.take(j + 1).drop_last() =~= shape.take(j));
        let v = volume(shape.take(j)) as int;
        let l = shape[j] as int;
        lemma_volume_positive(shape.take(j));
        assert(v <= v * l) by (nonlinear_arith)
            requires
                0 < v,
                0 < l,
        ;
    }
}

/// A grid whose sides are all positive has a positive volume.
pub proof fn lemma_volume_positive(shape: Seq<usize>)
    requires
        forall|a: int| 0 <= a < shape.len() ==> shape[a] > 0,
    ensures
        volume(shape) > 0,
    decreases shape.len(),
{
    if shape.len() > 0 {
        lemma_volume_positive(shape.drop_last());
        let v = volume(shape.drop_last()) as int;
        let l = shape.last() as int;
        assert(0 < v * l) by (nonlinear_arith)
            requires
                0 < v,
                0 < l,
        ;
    }
}

proof fn lemma_axes_count(shape: Seq<usize>)
    ensures
        product_count(axes_spec(shape)) == volume(shape),
    decreases shape.len(),
{
    if shape.len() > 0 {
        lemma_axes_count(shape.drop_last());
        assert(axes_spec(shape).drop_last() =~= axes_spec(shape.drop_last()));
    }
}

/// A grid has as many coordinates as its volume says.
pub proof fn lemma_coords_len(shape: Seq<usize>)
    ensures
        coords_spec(shape).len() == volume(shape),
{
    lemma_product_len(axes_spec(shape));
    lemma_axes_count(shape);
}

/// The coordinate at position `k` of the row-major order lies in the grid
/// and has index `k`.
pub proof fn lemma_coords_at(shape: Seq<usize>, k: int)
    requires
        0 <= k < volume(shape),
    ensures
        coords_spec(shape).len() == volume(shape),
        in_bounds(shape, coords_spec(shape)[k]),
        flat_index(shape, coords_spec(shape)[k]) == k,
    decreases shape.len(),
{
    lemma_coords_len(shape);
    if shape.len() > 0 {
        let init = shape.drop_last();
        let l = shape.last() as int;
        let v = volume(init) as int;
        assert(axes_spec(shape).drop_last() =~= axes_spec(init));
        let prev = coords_spec(init);
        lemma_coords_len(init);
        assert(l > 0) by (nonlinear_arith)
            requires
                0 <= k < v * l,
                0 <= v,
        ;
        lemma_fundamental_div_mod(k, l);
        assert(0 <= k / l < v) by (nonlinear_arith)
            requires
                0 <= k < v * l,
                0 < l,
                k == l * (k / l) + k % l,
                0 <= k % l < l,
        ;
        lemma_coords_at(init, k / l);
        let coord = coords_spec(shape)[k];
        assert(coord == prev[k / l].push(axis_spec(shape.last())[k % l]));
        assert(coord.drop_last() =~= prev[k / l]);
        assert(coord.last() == k % l);
        assert(in_bounds(shape, coord)) by {
            assert forall|a: int| 0 <= a < shape.len() implies #[trigger] coord[a] < shape[a] by {
                if a < init.len() {
                    assert(prev[k / l][a] < init[a]);
                }
            }
        }
        assert((k / l) * l + k % l == k) by (nonlinear_arith)
            requires
                k == l * (k / l) + k % l,
        ;
    } else {
        assert(coords_spec(shape)[0] =~= Seq::<usize>::empty());
    }
}

/// A coordinate of the grid stands at its own index in the row-major order.
pub proof fn lemma_coords_of_flat_index(shape: Seq<usize>, coord: Seq<usize>)
    requires
        in_bounds(shape, coord),
    ensures
        0 <= flat_index(shape, coord) < coords_spec(shape).len(),
        coords_spec(shape)[flat_index(shape, coord)] == coord,
    decreases shape.len(),
{
    lemma_flat_index_range(shape, coord);
    lemma_coords_len(shape);
    if shape.len() > 0 {
        let init = shape.drop_last();
        let rest = coord.drop_last();
        assert(in_bounds(init, rest)) by {
            assert forall|a: int| 0 <= a < init.len() implies #[trigger] rest[a] < init[a] by {
                assert(coord[a] < shape[a]);
            }
        }
        lemma_coords_of_flat_index(init, rest);
        lemma_flat_index_range(init, rest);
        let l = shape.last() as int;
        let f = flat_index(init, rest);
        let c = coord.last() as int;
        assert(coord[shape.len() - 1] < shape[shape.len() - 1]);
        lemma_fundamental_div_mod_converse(f * l + c, l, f, c);
        assert(axes_spec(shape).drop_last() =~= axes_spec(init));
        let found = coords_spec(shape)[f * l + c];
        assert(found == coords_spec(init)[f].push(axis_spec(shape.last())[c]));
        assert(found =~= coord);
    } else {
        assert(coords_spec(shape)[0] =~= coord);
    }
}

/// Two coordinates of a grid with the same index are the same coordinate.
pub proof fn lemma_flat_index_injective(shape: Seq<usize>, a: Seq<usize>, b: Seq<usize>)
    requires
        in_bounds(shape, a),
        in_bounds(shape, b),
        flat_index(shape, a) == flat_index(shape, b),
    ensures
        a == b,
{
    lemma_coords_of_flat_index(shape, a);
    lemma_coords_of_flat_index(shape, b);
}

/// One step back along an axis leads to a coordinate with a smaller index.
pub proof fn lemma_step_back_index(shape: Seq<usize>, coord: Seq<usize>, a: int)
    requires
        in_bounds(shape, coord),
        0 <= a < shape.len(),
        coord[a] > 0,
    ensures
        in_bounds(shape, coord.update(a, (coord[a] - 1) as usize)),
        flat_index(shape, coord.update(a, (coord[a] - 1) as usize)) < flat_index(shape, coord),
    decreases shape.len(),
{
    let back = coord.update(a, (coord[a] - 1) as usize);
    assert(in_bounds(shape, back)) by {
        assert forall|x: int| 0 <= x < shape.len() implies #[trigger] back[x] < shape[x] by {
            assert(coord[x] < shape[x]);
        }
    }
    let init = shape.drop_last();
    let l = shape.last() as int;
    if a == shape.len() - 1 {
        assert(back.drop_last() =~= coord.drop_last());
    } else {
        let rest = coord.drop_last();
        assert(in_bounds(init, rest)) by {
            assert forall|x: int| 0 <= x < init.len() implies #[trigger] rest[x] < init[x] by {
                assert(coord[x] < shape[x]);
            }
        }
        lemma_step_back_index(init, rest, a);
        assert(back.drop_last() =~= rest.update(a, (rest[a] - 1) as usize));
        assert(coord[shape.len() - 1] < shape[shape.len() - 1]);
        let x = flat_index(init, back.drop_last());
        let y = flat_index(init, rest);
        assert(x * l < y * l) by (nonlinear_arith)
            requires
                x < y,
                0 < l,
        ;
    }
}

} // verus!
