//! The test of the slice counters under the symmetries of the grid: whether
//! all the bricks of an assignment pass it is the same for every image of
//! the assignment.

use vstd::prelude::*;

use crate::grid::{
    coords_spec, cube_shape, flat_index, in_bounds, lemma_coords_at, lemma_coords_of_flat_index,
    lemma_flat_index_range,
};
use crate::lines::assignment_of;
use crate::recipe::{is_symmetry_of, symmetries_spec, symmetry_spec, transform_coord, Assignment};
use crate::recipe_builder::{count_cells, counts_here, lemma_count_bound, subgrid_ok, BuilderState};
use crate::symmetry::{
    inverse_dirs, inverse_perm, is_assignment, is_permutation, lemma_inverse_dirs,
    lemma_inverse_perm, lemma_listed_symmetry, lemma_symmetry_cells, lemma_symmetry_undone,
    lemma_transform_back,
};

verus! {

/// In every slice through `c`, no edge length is used along the axis of the
/// slice more often than the limit allows.
pub open spec fn slice_clear_at(a: Assignment, limit: usize, c: Seq<usize>) -> bool {
    forall|x: int, k: int|
        0 <= x < a.m && 0 <= k < a.n ==> #[trigger] count_cells(
            a.n,
            a.m,
            a.cells,
            x,
            c[x] as int,
            k,
            a.cells.len(),
        ) <= limit
}

/// Whether every brick of the assignment passes the test of the slice
/// counters.
pub open spec fn slices_clear(a: Assignment, limit: usize) -> bool {
    forall|i: int|
        0 <= i < a.cells.len() && (#[trigger] a.cells[i]).is_some() ==> slice_clear_at(
            a,
            limit,
            coords_spec(cube_shape(a.n, a.m))[i],
        )
}

/// The test of a builder on the slice counters reads the assignment and
/// the limit alone.
pub proof fn lemma_slice_test(s: BuilderState, c: Seq<usize>)
    requires
        s.wf(),
        s.cells.len() <= usize::MAX,
        in_bounds(s.shape(), c),
    ensures
        subgrid_ok(s, c) == slice_clear_at(assignment_of(s), s.limit, c),
{
    let a = assignment_of(s);
    assert forall|x: int, k: int| 0 <= x < s.m && 0 <= k < s.n implies #[trigger] s.counts[x][c[x] as int][k]
        == count_cells(s.n, s.m, s.cells, x, c[x] as int, k, s.cells.len()) by {
        assert(c[x] < s.shape()[x]);
        lemma_count_bound(s.n, s.m, s.cells, x, c[x] as int, k, s.cells.len());
    }
    if subgrid_ok(s, c) {
        assert forall|x: int, k: int| 0 <= x < a.m && 0 <= k < a.n implies #[trigger] count_cells(
            a.n,
            a.m,
            a.cells,
            x,
            c[x] as int,
            k,
            a.cells.len(),
        ) <= s.limit by {
            assert(s.counts[x][c[x] as int][k] <= s.limit);
        }
    }
    if slice_clear_at(a, s.limit, c) {
        assert forall|x: int, k: int| 0 <= x < s.m && 0 <= k < s.n implies #[trigger] s.counts[x][c[x] as int][k]
            <= s.limit by {
            assert(count_cells(a.n, a.m, a.cells, x, c[x] as int, k, a.cells.len()) <= s.limit);
        }
    }
}

/// The cells among the first `upto` that count for edge length `k` on level
/// `l` of axis `x`.
pub open spec fn counted(a: Assignment, x: int, l: int, k: int, upto: nat) -> Set<int> {
    Set::new(
        |i: int|
            0 <= i < upto && counts_here(a.cells[i], coords_spec(cube_shape(a.n, a.m))[i], x, l, k),
    )
}

/// A counter holds the number of the cells that count for it.
pub proof fn lemma_count_is_counted(a: Assignment, x: int, l: int, k: int, upto: nat)
    ensures
        counted(a, x, l, k, upto).finite(),
        count_cells(a.n, a.m, a.cells, x, l, k, upto) == counted(a, x, l, k, upto).len(),
    decreases upto,
{
    if upto == 0 {
        assert(counted(a, x, l, k, upto) =~= Set::<int>::empty());
    } else {
        let last = upto - 1;
        lemma_count_is_counted(a, x, l, k, last as nat);
        let before = counted(a, x, l, k, last as nat);
        if counts_here(a.cells[last], coords_spec(cube_shape(a.n, a.m))[last], x, l, k) {
            assert(counted(a, x, l, k, upto) =~= before.insert(last));
        } else {
            assert(counted(a, x, l, k, upto) =~= before);
        }
    }
}

/// The level of a slice of the grid before a symmetry takes it to level `l`
/// along an axis in direction `forward`.
pub open spec fn level_before(n: usize, forward: bool, l: int) -> int {
    if forward {
        l
    } else {
        n - 1 - l
    }
}

/// A symmetry takes slices to slices: the counter of an image for edge
/// length `k` on level `l` of axis `x` is the counter of the assignment for
/// `k` on the level and the axis that the symmetry takes there.
pub proof fn lemma_slice_count(a: Assignment, p: Seq<usize>, d: Seq<bool>, x: int, l: int, k: int)
    requires
        is_assignment(a),
        is_permutation(p, a.m),
        d.len() == a.m,
        0 <= x < a.m,
        0 <= l < a.n,
    ensures
        count_cells(a.n, a.m, symmetry_spec(a, p, d).cells, x, l, k, a.cells.len()) == count_cells(
            a.n,
            a.m,
            a.cells,
            p[x] as int,
            level_before(a.n, d[x], l),
            k,
            a.cells.len(),
        ),
{
    let n = a.n;
    let m = a.m;
    let shape = cube_shape(n, m);
    let q = inverse_perm(p);
    let e = inverse_dirs(p, d);
    let b = symmetry_spec(a, p, d);
    let y = p[x] as int;
    let l0 = level_before(n, d[x], l);
    let len = a.cells.len() as int;
    lemma_inverse_perm(p, m);
    lemma_inverse_dirs(p, d, m);
    lemma_symmetry_cells(n, m, p, d, a.cells, a.cells.len());
    let from = counted(a, y, l0, k, a.cells.len());
    let onto = counted(b, x, l, k, a.cells.len());
    lemma_count_is_counted(a, y, l0, k, a.cells.len());
    lemma_count_is_counted(b, x, l, k, a.cells.len());
    let to = |i: int| flat_index(shape, transform_coord(n, p, d, coords_spec(shape)[i]));
    let back_of = |j: int| flat_index(shape, transform_coord(n, q, e, coords_spec(shape)[j]));
    assert forall|i: int| 0 <= i < len implies 0 <= #[trigger] to(i) < len && back_of(to(i)) == i
        && onto.contains(to(i)) == from.contains(i) by {
        lemma_coords_at(shape, i);
        let ci = coords_spec(shape)[i];
        let image = transform_coord(n, p, d, ci);
        lemma_transform_back(n, m, p, d, ci);
        lemma_flat_index_range(shape, image);
        lemma_coords_of_flat_index(shape, image);
        let j = to(i);
        assert(coords_spec(shape)[j] == image);
        assert(b.cells[j] == match a.cells[i] {
            Some(o) => Some(crate::recipe::transform_orientation(p, o)),
            None => None,
        });
        assert(ci[y] < shape[y]);
        assert((image[x] == l) == (ci[y] == l0));
    }
    assert forall|j: int| 0 <= j < len implies 0 <= #[trigger] back_of(j) < len && to(back_of(j))
        == j by {
        lemma_coords_at(shape, j);
        let cj = coords_spec(shape)[j];
        let back = transform_coord(n, q, e, cj);
        lemma_transform_back(n, m, q, e, cj);
        lemma_flat_index_range(shape, back);
        lemma_coords_of_flat_index(shape, back);
    }
    assert(vstd::relations::injective_on(to, from)) by {
        assert forall|i1: int, i2: int|
            from.contains(i1) && from.contains(i2) && #[trigger] to(i1) == #[trigger] to(
                i2,
            ) implies i1 == i2 by {
            assert(back_of(to(i1)) == i1);
            assert(back_of(to(i2)) == i2);
        }
    }
    assert(from.map(to) =~= onto) by {
        assert forall|j: int| onto.contains(j) implies from.map(to).contains(j) by {
            let i = back_of(j);
            assert(to(i) == j);
            assert(from.contains(i));
        }
        assert forall|j: int| from.map(to).contains(j) implies onto.contains(j) by {
            let i = choose|i: int| from.contains(i) && j == to(i);
            assert(0 <= to(i) < len);
        }
    }
    vstd::set_lib::lemma_map_size(from, onto, to);
}

/// Where every brick of an assignment passes the test of the slice
/// counters, so does every brick of its image under a symmetry.
pub proof fn lemma_slices_kept(a: Assignment, p: Seq<usize>, d: Seq<bool>, limit: usize)
    requires
        is_assignment(a),
        is_permutation(p, a.m),
        d.len() == a.m,
        slices_clear(a, limit),
    ensures
        slices_clear(symmetry_spec(a, p, d), limit),
{
    let n = a.n;
    let m = a.m;
    let shape = cube_shape(n, m);
    let q = inverse_perm(p);
    let e = inverse_dirs(p, d);
    let b = symmetry_spec(a, p, d);
    lemma_inverse_perm(p, m);
    lemma_inverse_dirs(p, d, m);
    lemma_symmetry_cells(n, m, p, d, a.cells, a.cells.len());
    assert forall|j: int| 0 <= j < b.cells.len() && (#[trigger] b.cells[j]).is_some() implies slice_clear_at(
        b,
        limit,
        coords_spec(shape)[j],
    ) by {
        lemma_coords_at(shape, j);
        let cj = coords_spec(shape)[j];
        lemma_transform_back(n, m, q, e, cj);
        let c0 = transform_coord(n, q, e, cj);
        let i = flat_index(shape, c0);
        lemma_flat_index_range(shape, c0);
        lemma_coords_of_flat_index(shape, c0);
        assert(a.cells[i].is_some());
        assert(slice_clear_at(a, limit, coords_spec(shape)[i]));
        assert forall|x: int, k: int| 0 <= x < b.m && 0 <= k < b.n implies #[trigger] count_cells(
            b.n,
            b.m,
            b.cells,
            x,
            cj[x] as int,
            k,
            b.cells.len(),
        ) <= limit by {
            assert(cj[x] < shape[x]);
            lemma_slice_count(a, p, d, x, cj[x] as int, k);
            let y = p[x] as int;
            assert(q[y] == x);
            assert(c0[y] == level_before(n, d[x], cj[x] as int));
            assert(count_cells(a.n, a.m, a.cells, y, c0[y] as int, k, a.cells.len()) <= limit);
        }
    }
}

/// The test of the slice counters does not tell an assignment from its
/// images under the symmetries of the grid: every brick of an image passes
/// it if and only if every brick of the assignment does.
pub proof fn lemma_slices_of_symmetries(a: Assignment, b: Assignment, limit: usize)
    requires
        is_assignment(a),
        is_symmetry_of(b, a),
    ensures
        slices_clear(b, limit) == slices_clear(a, limit),
{
    let i = choose|i: int| 0 <= i < symmetries_spec(a).len() && #[trigger] symmetries_spec(a)[i] == b;
    let g = lemma_listed_symmetry(a, i);
    lemma_symmetry_undone(a, g.0, g.1);
    lemma_inverse_perm(g.0, a.m);
    lemma_inverse_dirs(g.0, g.1, a.m);
    if slices_clear(a, limit) {
        lemma_slices_kept(a, g.0, g.1, limit);
    }
    if slices_clear(b, limit) {
        lemma_slices_kept(b, inverse_perm(g.0), inverse_dirs(g.0, g.1), limit);
    }
}

} // verus!
