//! The test along the grid lines under the symmetries of the grid: whether
//! all the bricks of an assignment pass it is the same for every image of
//! the assignment.

use vstd::prelude::*;

use crate::grid::{
    coords_spec, cube_shape, flat_index, in_bounds, lemma_coords_at, lemma_coords_of_flat_index,
    lemma_flat_index_range,
};
use crate::recipe::{is_symmetry_of, symmetries_spec, symmetry_spec, transform_coord, Assignment};
use crate::recipe_builder::{line_ok, on_line, BuilderState};
use crate::symmetry::{
    inverse_dirs, inverse_perm, is_assignment, is_permutation, lemma_inverse_dirs,
    lemma_inverse_perm, lemma_listed_symmetry, lemma_symmetry_cells, lemma_symmetry_undone,
    lemma_transform_back,
};

verus! {

/// The assignment that a builder holds.
pub open spec fn assignment_of(s: BuilderState) -> Assignment {
    Assignment { n: s.n, m: s.m, cells: s.cells }
}

/// No brick before the one at `c` on a grid line through `c` has, along
/// that line, the edge length that the brick at `c` has along it.
pub open spec fn line_clear_at(a: Assignment, c: Seq<usize>) -> bool {
    forall|x: int, j: int|
        0 <= x < a.m && 0 <= j < c[x] ==> (a.cells[flat_index(
            cube_shape(a.n, a.m),
            #[trigger] on_line(c, x, j),
        )] matches Some(other) ==> other[x] != a.cells[flat_index(
            cube_shape(a.n, a.m),
            c,
        )].unwrap()[x])
}

/// Whether every brick of the assignment passes the test along the grid
/// lines.
pub open spec fn lines_clear(a: Assignment) -> bool {
    forall|i: int|
        0 <= i < a.cells.len() && (#[trigger] a.cells[i]).is_some() ==> line_clear_at(
            a,
            coords_spec(cube_shape(a.n, a.m))[i],
        )
}

/// The test of a builder along the grid lines reads the assignment alone.
pub proof fn lemma_line_test(s: BuilderState, c: Seq<usize>)
    ensures
        line_ok(s, c) == line_clear_at(assignment_of(s), c),
{
}

/// Where every brick of an assignment passes the test along the grid lines,
/// so does every brick of its image under a symmetry.
pub proof fn lemma_lines_kept(a: Assignment, p: Seq<usize>, d: Seq<bool>)
    requires
        is_assignment(a),
        is_permutation(p, a.m),
        d.len() == a.m,
        lines_clear(a),
    ensures
        lines_clear(symmetry_spec(a, p, d)),
{
    let n = a.n;
    let m = a.m;
    let shape = cube_shape(n, m);
    let q = inverse_perm(p);
    let e = inverse_dirs(p, d);
    let b = symmetry_spec(a, p, d);
    lemma_inverse_perm(p, m);
    lemma_inverse_dirs(p, d, m);
    lemma_symmetry_cells(n, m, p, d, a.cells, a.cells.len());
    assert forall|i: int| 0 <= i < b.cells.len() && (#[trigger] b.cells[i]).is_some() implies line_clear_at(
        b,
        coords_spec(shape)[i],
    ) by {
        lemma_coords_at(shape, i);
        let ci = coords_spec(shape)[i];
        lemma_transform_back(n, m, q, e, ci);
        let c0 = transform_coord(n, q, e, ci);
        let fc = flat_index(shape, c0);
        lemma_flat_index_range(shape, c0);
        lemma_coords_of_flat_index(shape, c0);
        assert(a.cells[fc].is_some());
        let o = a.cells[fc].unwrap();
        assert forall|x: int, j: int| 0 <= x < m && 0 <= j < ci[x] implies (b.cells[flat_index(
            shape,
            #[trigger] on_line(ci, x, j),
        )] matches Some(other) ==> other[x] != b.cells[flat_index(shape, ci)].unwrap()[x]) by {
            let di = on_line(ci, x, j);
            assert(in_bounds(shape, di)) by {
                assert forall|z: int| 0 <= z < shape.len() implies #[trigger] di[z] < shape[z] by {
                    assert(ci[z] < shape[z]);
                }
            }
            lemma_flat_index_range(shape, di);
            lemma_coords_of_flat_index(shape, di);
            let k = flat_index(shape, di);
            if b.cells[k].is_some() {
                lemma_transform_back(n, m, q, e, di);
                let d0 = transform_coord(n, q, e, di);
                let fd = flat_index(shape, d0);
                lemma_flat_index_range(shape, d0);
                lemma_coords_of_flat_index(shape, d0);
                assert(a.cells[fd].is_some());
                let other = a.cells[fd].unwrap();
                let y = p[x] as int;
                assert(q[y] == x);
                assert(c0[y] != d0[y]);
                assert forall|z: int| 0 <= z < m && z != y implies c0[z] == d0[z] by {
                    assert(p[q[z] as int] == z);
                }
                if d0[y] < c0[y] {
                    assert(on_line(c0, y, d0[y] as int) =~= d0);
                    assert(line_clear_at(a, coords_spec(shape)[fc]));
                    assert(other[y] != o[y]);
                } else {
                    assert(on_line(d0, y, c0[y] as int) =~= c0);
                    assert(line_clear_at(a, coords_spec(shape)[fd]));
                    assert(o[y] != other[y]);
                }
            }
        }
    }
}

/// The test along the grid lines does not tell an assignment from its
/// images under the symmetries of the grid: every brick of an image passes
/// it if and only if every brick of the assignment does.
pub proof fn lemma_lines_of_symmetries(a: Assignment, b: Assignment)
    requires
        is_assignment(a),
        is_symmetry_of(b, a),
    ensures
        lines_clear(b) == lines_clear(a),
{
    let i = choose|i: int| 0 <= i < symmetries_spec(a).len() && #[trigger] symmetries_spec(a)[i] == b;
    let g = lemma_listed_symmetry(a, i);
    lemma_symmetry_undone(a, g.0, g.1);
    lemma_inverse_perm(g.0, a.m);
    lemma_inverse_dirs(g.0, g.1, a.m);
    if lines_clear(a) {
        lemma_lines_kept(a, g.0, g.1);
    }
    if lines_clear(b) {
        lemma_lines_kept(b, inverse_perm(g.0), inverse_dirs(g.0, g.1));
    }
}

} // verus!
