//! The symmetries of the grid form a group: what follows from that for the
//! images of an assignment, for the orbit representatives and for the
//! distance between assignments.

use vstd::prelude::*;

use crate::combinatorics::{
    lemma_combinations_with_repetition_members, lemma_permutations_first,
    lemma_permutations_only_first, lemma_product_first, lemma_product_only_first,
    lemma_full_permutations_hold_all, lemma_permutations_complete,
    lemma_permutations_members, lemma_product_complete,
};
use crate::grid::{
    axis_spec, coords_spec, cube_shape, flat_index, in_bounds, lemma_coords_at,
    lemma_coords_of_flat_index, lemma_flat_index_range, volume,
};
use crate::recipe::{
    axis_permutations, differing_views, direction_choices, distance_spec, find_unique_spec,
    is_symmetry_of, least_difference, symmetries_spec, symmetry_cells, symmetry_spec,
    transform_coord, transform_orientation, Assignment, Recipe,
};

verus! {

/// Whether `p` arranges the `m` axes: every axis occurs in it once.
pub open spec fn is_permutation(p: Seq<usize>, m: usize) -> bool {
    &&& p.len() == m
    &&& forall|j: int| 0 <= j < m ==> #[trigger] p[j] < m
    &&& p.no_duplicates()
    &&& forall|i: usize| i < m ==> #[trigger] p.contains(i)
}

/// The arrangement that undoes `p`: it holds at `i` the position of `i` in
/// `p`.
pub open spec fn inverse_perm(p: Seq<usize>) -> Seq<usize> {
    Seq::new(p.len(), |i: int| p.index_of(i as usize) as usize)
}

/// The directions that undo `d` after the axes have been arranged by `p`.
pub open spec fn inverse_dirs(p: Seq<usize>, d: Seq<bool>) -> Seq<bool> {
    Seq::new(d.len(), |i: int| d[inverse_perm(p)[i] as int])
}

/// The arrangement that does `first` and then `second`.
pub open spec fn compose_perm(first: Seq<usize>, second: Seq<usize>) -> Seq<usize> {
    Seq::new(second.len(), |j: int| first[second[j] as int])
}

/// The directions of the symmetry that does the symmetry with `pa`, `da`
/// and then the one with `pb`, `db`.
pub open spec fn compose_dirs(da: Seq<bool>, pb: Seq<usize>, db: Seq<bool>) -> Seq<bool> {
    Seq::new(db.len(), |j: int| db[j] == da[pb[j] as int])
}

/// Whether an assignment has a cell for each coordinate of its grid, and in
/// each filled cell an orientation of as many components as there are axes.
pub open spec fn is_assignment(a: Assignment) -> bool {
    &&& a.cells.len() == volume(cube_shape(a.n, a.m))
    &&& forall|k: int|
        0 <= k < a.cells.len() ==> (#[trigger] a.cells[k] matches Some(o) ==> o.len() == a.m)
}

/// The arrangement that undoes an arrangement is one, and each undoes the
/// other.
pub proof fn lemma_inverse_perm(p: Seq<usize>, m: usize)
    requires
        is_permutation(p, m),
    ensures
        is_permutation(inverse_perm(p), m),
        forall|i: int| 0 <= i < m ==> #[trigger] p[inverse_perm(p)[i] as int] == i,
        forall|j: int| 0 <= j < m ==> #[trigger] inverse_perm(p)[p[j] as int] == j,
        inverse_perm(inverse_perm(p)) == p,
{
    let q = inverse_perm(p);
    assert forall|i: int| 0 <= i < m implies 0 <= #[trigger] q[i] < m && p[q[i] as int] == i by {
        assert(p.contains(i as usize));
        let x = p.index_of(i as usize);
        assert(0 <= x < m && p[x] == i);
    }
    assert forall|i: int| 0 <= i < m implies #[trigger] p[q[i] as int] == i by {}
    assert forall|j: int| 0 <= j < m implies #[trigger] q[p[j] as int] == j by {
        let i = p[j] as int;
        assert(p[q[i] as int] == i);
    }
    assert(q.no_duplicates()) by {
        assert forall|x: int, y: int| 0 <= x < q.len() && 0 <= y < q.len() && x != y implies q[x]
            != q[y] by {
            assert(p[q[x] as int] == x && p[q[y] as int] == y);
        }
    }
    assert forall|i: usize| i < m implies #[trigger] q.contains(i) by {
        assert(q[p[i as int] as int] == i);
    }
    assert forall|j: int| 0 <= j < m implies #[trigger] q[j] < m by {}
    let back = inverse_perm(q);
    assert forall|j: int| 0 <= j < m implies back[j] == p[j] by {
        assert(q.contains(j as usize));
        let x = q.index_of(j as usize);
        assert(q[x] == j);
        assert(q[p[j] as int] == j);
    }
    assert(back =~= p);
}

/// Undoing the directions twice gives the directions.
pub proof fn lemma_inverse_dirs(p: Seq<usize>, d: Seq<bool>, m: usize)
    requires
        is_permutation(p, m),
        d.len() == m,
    ensures
        inverse_dirs(p, d).len() == m,
        inverse_dirs(inverse_perm(p), inverse_dirs(p, d)) == d,
{
    lemma_inverse_perm(p, m);
    let q = inverse_perm(p);
    let e = inverse_dirs(p, d);
    let back = inverse_dirs(q, e);
    assert forall|j: int| 0 <= j < m implies back[j] == d[j] by {
        assert(inverse_perm(q)[j] == p[j]);
        assert(q[p[j] as int] == j);
    }
    assert(back =~= d);
}

/// A symmetry takes a cell of the grid to a cell of the grid, and the
/// symmetry that undoes it takes it back.
pub proof fn lemma_transform_back(n: usize, m: usize, p: Seq<usize>, d: Seq<bool>, c: Seq<usize>)
    requires
        is_permutation(p, m),
        d.len() == m,
        in_bounds(cube_shape(n, m), c),
    ensures
        in_bounds(cube_shape(n, m), transform_coord(n, p, d, c)),
        transform_coord(n, inverse_perm(p), inverse_dirs(p, d), transform_coord(n, p, d, c)) == c,
{
    let shape = cube_shape(n, m);
    let image = transform_coord(n, p, d, c);
    lemma_inverse_perm(p, m);
    let q = inverse_perm(p);
    let e = inverse_dirs(p, d);
    assert forall|a: int| 0 <= a < m implies #[trigger] image[a] < shape[a] by {
        assert(c[p[a] as int] < shape[p[a] as int]);
    }
    let back = transform_coord(n, q, e, image);
    assert forall|i: int| 0 <= i < m implies back[i] == c[i] by {
        assert(p[q[i] as int] == i);
        assert(c[i] < shape[i]);
    }
    assert(back =~= c);
}

/// The image of an assignment under a symmetry, cell by cell: the cell that
/// a cell is taken to holds the orientation of that cell, transformed.
pub proof fn lemma_symmetry_cells(
    n: usize,
    m: usize,
    p: Seq<usize>,
    d: Seq<bool>,
    src: Seq<Option<Seq<usize>>>,
    upto: nat,
)
    requires
        is_permutation(p, m),
        d.len() == m,
        src.len() == volume(cube_shape(n, m)),
        upto <= src.len(),
    ensures
        symmetry_cells(n, m, p, d, src, upto).len() == src.len(),
        forall|j: int|
            0 <= j < src.len() ==> #[trigger] symmetry_cells(n, m, p, d, src, upto)[j] == {
                let from = flat_index(
                    cube_shape(n, m),
                    transform_coord(
                        n,
                        inverse_perm(p),
                        inverse_dirs(p, d),
                        coords_spec(cube_shape(n, m))[j],
                    ),
                );
                if from < upto {
                    match src[from] {
                        Some(o) => Some(transform_orientation(p, o)),
                        None => None,
                    }
                } else {
                    None
                }
            },
    decreases upto,
{
    let shape = cube_shape(n, m);
    let q = inverse_perm(p);
    let e = inverse_dirs(p, d);
    lemma_inverse_perm(p, m);
    lemma_inverse_dirs(p, d, m);
    let here = symmetry_cells(n, m, p, d, src, upto);
    if upto > 0 {
        let k = upto - 1;
        lemma_symmetry_cells(n, m, p, d, src, k as nat);
        lemma_coords_at(shape, k);
        let ck = coords_spec(shape)[k];
        lemma_transform_back(n, m, p, d, ck);
        let target = flat_index(shape, transform_coord(n, p, d, ck));
        lemma_flat_index_range(shape, transform_coord(n, p, d, ck));
        lemma_coords_of_flat_index(shape, transform_coord(n, p, d, ck));
        assert forall|j: int| 0 <= j < src.len() implies #[trigger] here[j] == {
            let from = flat_index(shape, transform_coord(n, q, e, coords_spec(shape)[j]));
            if from < upto {
                match src[from] {
                    Some(o) => Some(transform_orientation(p, o)),
                    None => None,
                }
            } else {
                None
            }
        } by {
            lemma_coords_at(shape, j);
            let cj = coords_spec(shape)[j];
            let back = transform_coord(n, q, e, cj);
            lemma_transform_back(n, m, q, e, cj);
            lemma_flat_index_range(shape, back);
            lemma_coords_of_flat_index(shape, back);
            let from = flat_index(shape, back);
            if from == k {
                assert(back == ck);
                assert(transform_coord(n, p, d, back) == cj);
                assert(target == j);
            } else {
                if target == j {
                    assert(transform_coord(n, p, d, ck) == cj);
                    assert(back == ck);
                }
            }
        }
    } else {
        assert forall|j: int| 0 <= j < src.len() implies #[trigger] here[j] == {
            let from = flat_index(shape, transform_coord(n, q, e, coords_spec(shape)[j]));
            if from < upto {
                match src[from] {
                    Some(o) => Some(transform_orientation(p, o)),
                    None => None,
                }
            } else {
                None
            }
        } by {
            lemma_coords_at(shape, j);
            let cj = coords_spec(shape)[j];
            lemma_transform_back(n, m, q, e, cj);
            lemma_flat_index_range(shape, transform_coord(n, q, e, cj));
        }
    }
}

proof fn lemma_axes_distinct(m: usize)
    ensures
        axis_spec(m).no_duplicates(),
        axis_spec(m).len() == m,
{
}

/// The choice of directions that reads every axis forwards.
pub open spec fn all_forward(m: usize) -> Seq<bool> {
    Seq::new(m as nat, |j: int| true)
}

/// Whether the arrangement and the directions are those of the symmetry
/// that moves nothing.
pub open spec fn is_identity(p: Seq<usize>, d: Seq<bool>, m: usize) -> bool {
    p == axis_spec(m) && d == all_forward(m)
}

/// For each axis the two directions, forwards first.
pub open spec fn direction_lists(m: usize) -> Seq<Seq<bool>> {
    Seq::new(m as nat, |j: int| seq![true, false])
}

proof fn lemma_directions(m: usize)
    ensures
        direction_choices(m) == crate::combinatorics::product_spec(direction_lists(m)),
        forall|j: int|
            0 <= j < m ==> (#[trigger] direction_lists(m)[j]).len() > 0 && direction_lists(
                m,
            )[j].no_duplicates(),
        Seq::new(direction_lists(m).len(), |j: int| direction_lists(m)[j][0]) == all_forward(m),
{
    let lists = direction_lists(m);
    assert(Seq::new(m as nat, |i: int| seq![true, false]) =~= lists);
    assert(Seq::new(lists.len(), |j: int| lists[j][0]) =~= all_forward(m));
}

/// Every image in the list of the symmetries of an assignment is its image
/// under an arrangement of the axes and a choice of directions; only for the
/// first image these are the arrangement and the directions that move
/// nothing.
pub proof fn lemma_listed_symmetry(a: Assignment, i: int) -> (g: (Seq<usize>, Seq<bool>))
    requires
        0 <= i < symmetries_spec(a).len(),
    ensures
        is_permutation(g.0, a.m),
        g.1.len() == a.m,
        symmetries_spec(a)[i] == symmetry_spec(a, g.0, g.1),
        is_identity(g.0, g.1, a.m) == (i == 0),
{
    let m = a.m;
    let perms = axis_permutations(m);
    let dirs = direction_choices(m);
    let len = dirs.len() as int;
    assert(len > 0) by (nonlinear_arith)
        requires
            0 <= i < perms.len() * len,
    ;
    vstd::arithmetic::div_mod::lemma_fundamental_div_mod(i, len);
    let pi = i / len;
    let di = i % len;
    assert(0 <= pi < perms.len()) by (nonlinear_arith)
        requires
            0 <= i < perms.len() * len,
            0 < len,
            i == len * pi + di,
            0 <= di < len,
    ;
    let p = perms[pi];
    let d = dirs[di];
    lemma_axes_distinct(m);
    lemma_permutations_members(axis_spec(m), m as nat, pi);
    lemma_full_permutations_hold_all(axis_spec(m), pi);
    lemma_combinations_with_repetition_members(seq![true, false], m as nat, di);
    assert forall|j: int| 0 <= j < m implies #[trigger] p[j] < m by {
        assert(axis_spec(m).contains(p[j]));
    }
    assert forall|x: usize| x < m implies #[trigger] p.contains(x) by {
        assert(axis_spec(m)[x as int] == x);
    }
    let lists = direction_lists(m);
    lemma_directions(m);
    if is_identity(p, d, m) {
        lemma_permutations_only_first(axis_spec(m), pi);
        lemma_product_only_first(lists, di);
        assert(i == 0) by (nonlinear_arith)
            requires
                i == len * pi + di,
                pi == 0,
                di == 0,
        ;
    }
    if i == 0 {
        assert(pi == 0 && di == 0) by (nonlinear_arith)
            requires
                0 == len * pi + di,
                0 <= pi,
                0 <= di,
                0 < len,
        ;
        lemma_permutations_first(axis_spec(m));
        lemma_product_first(lists);
    }
    (p, d)
}

/// The image of an assignment under any arrangement of the axes and any
/// choice of directions is in the list of its symmetries, and is the first
/// in the list only if the arrangement and the directions move nothing.
pub proof fn lemma_symmetry_is_listed(a: Assignment, p: Seq<usize>, d: Seq<bool>) -> (i: int)
    requires
        is_permutation(p, a.m),
        d.len() == a.m,
    ensures
        0 <= i < symmetries_spec(a).len(),
        symmetries_spec(a)[i] == symmetry_spec(a, p, d),
        is_symmetry_of(symmetry_spec(a, p, d), a),
        i == 0 ==> is_identity(p, d, a.m),
{
    let m = a.m;
    let perms = axis_permutations(m);
    let dirs = direction_choices(m);
    let len = dirs.len() as int;
    lemma_axes_distinct(m);
    assert forall|j: int| 0 <= j < p.len() implies axis_spec(m).contains(#[trigger] p[j]) by {
        assert(axis_spec(m)[p[j] as int] == p[j]);
    }
    let pi = lemma_permutations_complete(axis_spec(m), p);
    let lists = direction_lists(m);
    lemma_directions(m);
    assert forall|j: int| 0 <= j < lists.len() implies lists[j].contains(#[trigger] d[j]) by {
        if d[j] {
            assert(lists[j][0] == d[j]);
        } else {
            assert(lists[j][1] == d[j]);
        }
    }
    let di = lemma_product_complete(lists, d);
    let i = pi * len + di;
    vstd::arithmetic::div_mod::lemma_fundamental_div_mod_converse(i, len, pi, di);
    assert(0 <= i < perms.len() * len) by (nonlinear_arith)
        requires
            0 <= pi < perms.len(),
            0 <= di < len,
            i == pi * len + di,
    ;
    assert(symmetries_spec(a)[i] == symmetry_spec(a, p, d));
    if i == 0 {
        assert(pi == 0 && di == 0) by (nonlinear_arith)
            requires
                0 == pi * len + di,
                0 <= pi,
                0 <= di,
                0 < len,
        ;
        lemma_permutations_first(axis_spec(m));
        lemma_directions(m);
        lemma_product_first(lists);
    }
    i
}

/// The image of an assignment under a symmetry is an assignment, and the
/// symmetry that undoes the symmetry takes it back.
pub proof fn lemma_symmetry_undone(a: Assignment, p: Seq<usize>, d: Seq<bool>)
    requires
        is_assignment(a),
        is_permutation(p, a.m),
        d.len() == a.m,
    ensures
        is_assignment(symmetry_spec(a, p, d)),
        symmetry_spec(symmetry_spec(a, p, d), inverse_perm(p), inverse_dirs(p, d)) == a,
{
    let n = a.n;
    let m = a.m;
    let shape = cube_shape(n, m);
    let q = inverse_perm(p);
    let e = inverse_dirs(p, d);
    let b = symmetry_spec(a, p, d);
    lemma_inverse_perm(p, m);
    lemma_inverse_dirs(p, d, m);
    lemma_symmetry_cells(n, m, p, d, a.cells, a.cells.len());
    assert(is_assignment(b)) by {
        assert forall|k: int| 0 <= k < b.cells.len() implies (#[trigger] b.cells[k] matches Some(
            o,
        ) ==> o.len() == m) by {}
    }
    lemma_symmetry_cells(n, m, q, e, b.cells, b.cells.len());
    let back = symmetry_spec(b, q, e);
    assert forall|j: int| 0 <= j < a.cells.len() implies back.cells[j] == a.cells[j] by {
        lemma_coords_at(shape, j);
        let cj = coords_spec(shape)[j];
        let mid = transform_coord(n, p, d, cj);
        lemma_transform_back(n, m, p, d, cj);
        lemma_flat_index_range(shape, mid);
        lemma_coords_of_flat_index(shape, mid);
        let from = flat_index(shape, mid);
        assert(b.cells[from] == match a.cells[j] {
            Some(o) => Some(transform_orientation(p, o)),
            None => None,
        });
        match a.cells[j] {
            Some(o) => {
                let twice = transform_orientation(q, transform_orientation(p, o));
                assert forall|x: int| 0 <= x < m implies twice[x] == o[x] by {
                    assert(p[q[x] as int] == x);
                }
                assert(twice =~= o);
            },
            None => {},
        }
    }
    assert(back.cells =~= a.cells);
}

/// What is a symmetry of an assignment has that assignment as a symmetry of
/// its own.
pub proof fn lemma_symmetry_is_mutual(a: Assignment, b: Assignment)
    requires
        is_assignment(a),
        is_symmetry_of(b, a),
    ensures
        is_assignment(b),
        is_symmetry_of(a, b),
{
    let i = choose|i: int| 0 <= i < symmetries_spec(a).len() && #[trigger] symmetries_spec(a)[i] == b;
    let g = lemma_listed_symmetry(a, i);
    lemma_symmetry_undone(a, g.0, g.1);
    lemma_inverse_perm(g.0, a.m);
    lemma_inverse_dirs(g.0, g.1, a.m);
    let at = lemma_symmetry_is_listed(b, inverse_perm(g.0), inverse_dirs(g.0, g.1));
}

/// Every assignment is a symmetry of itself.
pub proof fn lemma_symmetry_of_itself(a: Assignment)
    requires
        is_assignment(a),
    ensures
        is_symmetry_of(a, a),
{
    lemma_identity_moves_nothing(a);
    let i = lemma_symmetry_is_listed(a, axis_spec(a.m), all_forward(a.m));
}

/// Two symmetries, one after the other, are a symmetry.
pub proof fn lemma_symmetries_compose(
    a: Assignment,
    pa: Seq<usize>,
    da: Seq<bool>,
    pb: Seq<usize>,
    db: Seq<bool>,
)
    requires
        is_assignment(a),
        is_permutation(pa, a.m),
        da.len() == a.m,
        is_permutation(pb, a.m),
        db.len() == a.m,
    ensures
        is_permutation(compose_perm(pa, pb), a.m),
        symmetry_spec(symmetry_spec(a, pa, da), pb, db) == symmetry_spec(
            a,
            compose_perm(pa, pb),
            compose_dirs(da, pb, db),
        ),
{
    let n = a.n;
    let m = a.m;
    let shape = cube_shape(n, m);
    let pc = compose_perm(pa, pb);
    let dc = compose_dirs(da, pb, db);
    lemma_inverse_perm(pa, m);
    lemma_inverse_perm(pb, m);
    let qa = inverse_perm(pa);
    let qb = inverse_perm(pb);
    assert(is_permutation(pc, m)) by {
        assert forall|j: int| 0 <= j < m implies #[trigger] pc[j] < m by {
            assert(pb[j] < m);
        }
        assert forall|x: int, y: int| 0 <= x < pc.len() && 0 <= y < pc.len() && x
            != y implies pc[x] != pc[y] by {
            assert(pb[x] != pb[y]);
        }
        assert forall|i: usize| i < m implies #[trigger] pc.contains(i) by {
            let x = qa[i as int];
            assert(pa[x as int] == i);
            let y = qb[x as int];
            assert(pb[y as int] == x);
            assert(pc[y as int] == i);
        }
    }
    lemma_inverse_perm(pc, m);
    lemma_inverse_dirs(pa, da, m);
    lemma_inverse_dirs(pb, db, m);
    lemma_inverse_dirs(pc, dc, m);
    let ea = inverse_dirs(pa, da);
    let eb = inverse_dirs(pb, db);
    let qc = inverse_perm(pc);
    let ec = inverse_dirs(pc, dc);
    let b = symmetry_spec(a, pa, da);
    lemma_symmetry_undone(a, pa, da);
    lemma_symmetry_cells(n, m, pa, da, a.cells, a.cells.len());
    lemma_symmetry_cells(n, m, pb, db, b.cells, b.cells.len());
    lemma_symmetry_cells(n, m, pc, dc, a.cells, a.cells.len());
    let left = symmetry_spec(b, pb, db);
    let right = symmetry_spec(a, pc, dc);
    assert forall|j: int| 0 <= j < a.cells.len() implies left.cells[j] == right.cells[j] by {
        lemma_coords_at(shape, j);
        let cj = coords_spec(shape)[j];
        let mid = transform_coord(n, qb, eb, cj);
        lemma_transform_back(n, m, qb, eb, cj);
        lemma_flat_index_range(shape, mid);
        lemma_coords_of_flat_index(shape, mid);
        let origin = transform_coord(n, qa, ea, mid);
        lemma_transform_back(n, m, qa, ea, mid);
        lemma_flat_index_range(shape, origin);
        let direct = transform_coord(n, qc, ec, cj);
        lemma_transform_back(n, m, qc, ec, cj);
        // The composed symmetry takes `origin` to `cj`, as it takes `direct`.
        let forward = transform_coord(n, pc, dc, origin);
        assert(transform_coord(n, pa, da, origin) == mid);
        assert(transform_coord(n, pb, db, mid) == cj);
        assert forall|x: int| 0 <= x < m implies forward[x] == cj[x] by {
            assert(pb[x] < m);
            assert(origin[pc[x] as int] < shape[pc[x] as int]);
            assert(mid[pb[x] as int] == transform_coord(n, pa, da, origin)[pb[x] as int]);
        }
        assert(forward =~= cj);
        lemma_transform_back(n, m, pc, dc, origin);
        assert(direct == origin);
        let from = flat_index(shape, origin);
        match a.cells[from] {
            Some(o) => {
                assert(transform_orientation(pb, transform_orientation(pa, o))
                    =~= transform_orientation(pc, o)) by {
                    assert forall|x: int| 0 <= x < m implies transform_orientation(
                        pb,
                        transform_orientation(pa, o),
                    )[x] == transform_orientation(pc, o)[x] by {
                        assert(pb[x] < m);
                    }
                }
            },
            None => {},
        }
    }
    assert(left.cells =~= right.cells);
}

/// A symmetry of a symmetry of an assignment is a symmetry of the
/// assignment.
pub proof fn lemma_symmetry_of_symmetry(a: Assignment, b: Assignment, c: Assignment)
    requires
        is_assignment(a),
        is_symmetry_of(b, a),
        is_symmetry_of(c, b),
    ensures
        is_symmetry_of(c, a),
{
    let i = choose|i: int| 0 <= i < symmetries_spec(a).len() && #[trigger] symmetries_spec(a)[i] == b;
    let g = lemma_listed_symmetry(a, i);
    let j = choose|j: int| 0 <= j < symmetries_spec(b).len() && #[trigger] symmetries_spec(b)[j] == c;
    let h = lemma_listed_symmetry(b, j);
    lemma_symmetries_compose(a, g.0, g.1, h.0, h.1);
    let at = lemma_symmetry_is_listed(a, compose_perm(g.0, h.0), compose_dirs(g.1, h.0, h.1));
}

impl Recipe {
    /// A well-formed recipe stands for an assignment.
    pub proof fn lemma_is_assignment(&self)
        requires
            self.wf(),
        ensures
            is_assignment(self@),
    {
        assert forall|k: int| 0 <= k < self@.cells.len() implies (
        #[trigger] self@.cells[k] matches Some(o) ==> o.len() == self@.m) by {
            assert(self.map.cells()[k] matches Some(o) ==> crate::recipe::is_orientation(
                o@,
                self.n,
                self.m,
            ));
        }
    }
}

/// Every recipe that the greedy scan keeps is one of the recipes scanned.
pub proof fn lemma_unique_are_inputs(recipes: Seq<Assignment>, j: int) -> (r: int)
    requires
        0 <= j < find_unique_spec(recipes).len(),
    ensures
        0 <= r < recipes.len(),
        recipes[r] == find_unique_spec(recipes)[j],
    decreases recipes.len(),
{
    let before = find_unique_spec(recipes.drop_last());
    if j < before.len() {
        lemma_unique_are_inputs(recipes.drop_last(), j)
    } else {
        recipes.len() - 1
    }
}

proof fn lemma_unique_later(recipes: Seq<Assignment>, i: int, j: int)
    requires
        0 <= i < j < find_unique_spec(recipes).len(),
    ensures
        !is_symmetry_of(find_unique_spec(recipes)[i], find_unique_spec(recipes)[j]),
    decreases recipes.len(),
{
    let before = find_unique_spec(recipes.drop_last());
    if j < before.len() {
        lemma_unique_later(recipes.drop_last(), i, j);
    } else {
        assert(find_unique_spec(recipes)[i] == before[i]);
    }
}

/// The greedy scan never keeps two recipes that are symmetries of each
/// other.
pub proof fn lemma_unique_no_two_symmetric(recipes: Seq<Assignment>, i: int, j: int)
    requires
        forall|k: int| 0 <= k < recipes.len() ==> is_assignment(#[trigger] recipes[k]),
        0 <= i < find_unique_spec(recipes).len(),
        0 <= j < find_unique_spec(recipes).len(),
        i != j,
    ensures
        !is_symmetry_of(find_unique_spec(recipes)[i], find_unique_spec(recipes)[j]),
{
    let kept = find_unique_spec(recipes);
    if i < j {
        lemma_unique_later(recipes, i, j);
    } else {
        lemma_unique_later(recipes, j, i);
        let r = lemma_unique_are_inputs(recipes, j);
        if is_symmetry_of(kept[i], kept[j]) {
            lemma_symmetry_is_mutual(kept[j], kept[i]);
        }
    }
}

/// The greedy scan keeps a symmetry of every recipe that it scans.
pub proof fn lemma_unique_represent_all(recipes: Seq<Assignment>, r: int) -> (j: int)
    requires
        forall|k: int| 0 <= k < recipes.len() ==> is_assignment(#[trigger] recipes[k]),
        0 <= r < recipes.len(),
    ensures
        0 <= j < find_unique_spec(recipes).len(),
        is_symmetry_of(find_unique_spec(recipes)[j], recipes[r]),
    decreases recipes.len(),
{
    let before = find_unique_spec(recipes.drop_last());
    let kept = find_unique_spec(recipes);
    if r < recipes.len() - 1 {
        let j = lemma_unique_represent_all(recipes.drop_last(), r);
        assert(kept[j] == before[j]);
        j
    } else {
        if exists|j: int| 0 <= j < before.len() && is_symmetry_of(#[trigger] before[j], recipes.last()) {
            choose|j: int| 0 <= j < before.len() && is_symmetry_of(#[trigger] before[j], recipes.last())
        } else {
            lemma_symmetry_of_itself(recipes[r]);
            before.len() as int
        }
    }
}

/// Of every orbit the greedy scan keeps at most one recipe: two recipes
/// that it keeps are not both symmetries of one assignment.
pub proof fn lemma_unique_represent_once(recipes: Seq<Assignment>, a: Assignment, i: int, j: int)
    requires
        forall|k: int| 0 <= k < recipes.len() ==> is_assignment(#[trigger] recipes[k]),
        is_assignment(a),
        0 <= i < find_unique_spec(recipes).len(),
        0 <= j < find_unique_spec(recipes).len(),
        is_symmetry_of(find_unique_spec(recipes)[i], a),
        is_symmetry_of(find_unique_spec(recipes)[j], a),
    ensures
        i == j,
{
    let kept = find_unique_spec(recipes);
    if i != j {
        lemma_symmetry_is_mutual(a, kept[j]);
        lemma_symmetry_of_symmetry(kept[j], a, kept[i]);
        lemma_unique_no_two_symmetric(recipes, i, j);
    }
}

/// The positions at which two rows of cells differ.
pub open spec fn differing_set(x: Seq<Option<Seq<usize>>>, y: Seq<Option<Seq<usize>>>) -> Set<int> {
    Set::new(|k: int| 0 <= k < x.len() && x[k] != y[k])
}

/// The number of cells at which two assignments differ is the number of the
/// positions at which they differ.
pub proof fn lemma_differing_is_count(x: Seq<Option<Seq<usize>>>, y: Seq<Option<Seq<usize>>>)
    requires
        x.len() == y.len(),
    ensures
        differing_set(x, y).finite(),
        differing_views(x, y) == differing_set(x, y).len(),
    decreases x.len(),
{
    if x.len() == 0 {
        assert(differing_set(x, y) =~= Set::<int>::empty());
    } else {
        let k = x.len() - 1;
        lemma_differing_is_count(x.drop_last(), y.drop_last());
        let before = differing_set(x.drop_last(), y.drop_last());
        if x.last() != y.last() {
            assert(differing_set(x, y) =~= before.insert(k));
        } else {
            assert(differing_set(x, y) =~= before);
        }
    }
}

/// Two assignments differ from each other at the same cells.
pub proof fn lemma_differing_is_mutual(x: Seq<Option<Seq<usize>>>, y: Seq<Option<Seq<usize>>>)
    requires
        x.len() == y.len(),
    ensures
        differing_views(x, y) == differing_views(y, x),
    decreases x.len(),
{
    if x.len() > 0 {
        lemma_differing_is_mutual(x.drop_last(), y.drop_last());
    }
}

/// An image of `a` differs from `b` at as many cells as `a` differs from the
/// image of `b` under the symmetry that undoes the first one.
pub proof fn lemma_difference_moves(a: Assignment, b: Assignment, p: Seq<usize>, d: Seq<bool>)
    requires
        is_assignment(a),
        is_assignment(b),
        a.n == b.n,
        a.m == b.m,
        is_permutation(p, a.m),
        d.len() == a.m,
    ensures
        differing_views(symmetry_spec(a, p, d).cells, b.cells) == differing_views(
            a.cells,
            symmetry_spec(b, inverse_perm(p), inverse_dirs(p, d)).cells,
        ),
{
    let n = a.n;
    let m = a.m;
    let shape = cube_shape(n, m);
    let q = inverse_perm(p);
    let e = inverse_dirs(p, d);
    lemma_inverse_perm(p, m);
    lemma_inverse_dirs(p, d, m);
    let x = symmetry_spec(a, p, d).cells;
    let y = b.cells;
    let x2 = a.cells;
    let y2 = symmetry_spec(b, q, e).cells;
    lemma_symmetry_cells(n, m, p, d, a.cells, a.cells.len());
    lemma_symmetry_cells(n, m, q, e, b.cells, b.cells.len());
    let len = a.cells.len() as int;
    let to = |k: int| flat_index(shape, transform_coord(n, p, d, coords_spec(shape)[k]));
    assert forall|k: int| 0 <= k < len implies 0 <= #[trigger] to(k) < len && flat_index(
        shape,
        transform_coord(n, q, e, coords_spec(shape)[to(k)]),
    ) == k && (x[to(k)] != y[to(k)]) == (x2[k] != y2[k]) by {
        lemma_coords_at(shape, k);
        let ck = coords_spec(shape)[k];
        let image = transform_coord(n, p, d, ck);
        lemma_transform_back(n, m, p, d, ck);
        lemma_flat_index_range(shape, image);
        lemma_coords_of_flat_index(shape, image);
        let j = to(k);
        assert(coords_spec(shape)[j] == image);
        assert(x[j] == match a.cells[k] {
            Some(o) => Some(transform_orientation(p, o)),
            None => None,
        });
        assert(y2[k] == match b.cells[j] {
            Some(o) => Some(transform_orientation(q, o)),
            None => None,
        });
        match (a.cells[k], b.cells[j]) {
            (Some(o), Some(o2)) => {
                let there = transform_orientation(q, transform_orientation(p, o));
                assert forall|i: int| 0 <= i < m implies there[i] == o[i] by {
                    assert(p[q[i] as int] == i);
                }
                assert(there =~= o);
                let back = transform_orientation(p, transform_orientation(q, o2));
                assert forall|i: int| 0 <= i < m implies back[i] == o2[i] by {
                    assert(q[p[i] as int] == i);
                }
                assert(back =~= o2);
            },
            _ => {},
        }
    }
    let back_of = |j: int| flat_index(shape, transform_coord(n, q, e, coords_spec(shape)[j]));
    assert forall|j: int| 0 <= j < len implies 0 <= #[trigger] back_of(j) < len && to(back_of(j))
        == j by {
        lemma_coords_at(shape, j);
        let cj = coords_spec(shape)[j];
        let back = transform_coord(n, q, e, cj);
        lemma_transform_back(n, m, q, e, cj);
        lemma_flat_index_range(shape, back);
        lemma_coords_of_flat_index(shape, back);
    }
    lemma_differing_is_count(x, y);
    lemma_differing_is_count(x2, y2);
    let from = differing_set(x2, y2);
    let onto = differing_set(x, y);
    assert(vstd::relations::injective_on(to, from)) by {
        assert forall|k1: int, k2: int|
            from.contains(k1) && from.contains(k2) && #[trigger] to(k1) == #[trigger] to(
                k2,
            ) implies k1 == k2 by {}
    }
    assert(from.map(to) =~= onto) by {
        assert forall|j: int| onto.contains(j) implies from.map(to).contains(j) by {
            let k = back_of(j);
            assert(to(k) == j);
            assert(from.contains(k));
        }
        assert forall|j: int| from.map(to).contains(j) implies onto.contains(j) by {
            let k = choose|k: int| from.contains(k) && j == to(k);
            assert(0 <= to(k) < len);
        }
    }
    vstd::set_lib::lemma_map_size(from, onto, to);
}

/// The least of some differences is one of them, and none of them is less.
pub proof fn lemma_least_difference(
    images: Seq<Assignment>,
    b: Seq<Option<Seq<usize>>>,
    upto: nat,
) -> (at: int)
    requires
        0 < upto <= images.len(),
    ensures
        0 <= at < upto,
        least_difference(images, b, upto) == differing_views(images[at].cells, b),
        forall|i: int|
            0 <= i < upto ==> least_difference(images, b, upto) <= differing_views(
                #[trigger] images[i].cells,
                b,
            ),
    decreases upto,
{
    if upto <= 1 {
        0
    } else {
        let before = lemma_least_difference(images, b, (upto - 1) as nat);
        if differing_views(images[upto - 1].cells, b) < least_difference(
            images,
            b,
            (upto - 1) as nat,
        ) {
            upto - 1
        } else {
            before
        }
    }
}

proof fn lemma_distance_bound(a: Assignment, b: Assignment)
    requires
        is_assignment(a),
        is_assignment(b),
        a.n == b.n,
        a.m == b.m,
    ensures
        distance_spec(b, a) <= distance_spec(a, b),
{
    crate::recipe::lemma_symmetries_nonempty(a);
    crate::recipe::lemma_symmetries_nonempty(b);
    let images = symmetries_spec(a);
    let at = lemma_least_difference(images, b.cells, images.len());
    let g = lemma_listed_symmetry(a, at);
    lemma_difference_moves(a, b, g.0, g.1);
    lemma_inverse_perm(g.0, a.m);
    lemma_inverse_dirs(g.0, g.1, a.m);
    let back = symmetry_spec(b, inverse_perm(g.0), inverse_dirs(g.0, g.1));
    let listed = lemma_symmetry_is_listed(b, inverse_perm(g.0), inverse_dirs(g.0, g.1));
    let i = choose|i: int| 0 <= i < symmetries_spec(b).len() && #[trigger] symmetries_spec(b)[i] == back;
    let least = lemma_least_difference(symmetries_spec(b), a.cells, symmetries_spec(b).len());
    lemma_symmetry_undone(b, inverse_perm(g.0), inverse_dirs(g.0, g.1));
    lemma_symmetry_cells(
        b.n,
        b.m,
        inverse_perm(g.0),
        inverse_dirs(g.0, g.1),
        b.cells,
        b.cells.len(),
    );
    lemma_differing_is_mutual(a.cells, back.cells);
    assert(differing_views(symmetries_spec(b)[i].cells, a.cells) == differing_views(
        images[at].cells,
        b.cells,
    ));
}

/// The distance between two assignments of one grid is the same in both
/// directions.
pub proof fn lemma_distance_is_mutual(a: Assignment, b: Assignment)
    requires
        is_assignment(a),
        is_assignment(b),
        a.n == b.n,
        a.m == b.m,
    ensures
        distance_spec(a, b) == distance_spec(b, a),
{
    lemma_distance_bound(a, b);
    lemma_distance_bound(b, a);
}

/// Whether some symmetry other than the one that moves nothing takes the
/// assignment to itself.
pub open spec fn is_own_image(a: Assignment) -> bool {
    exists|p: Seq<usize>, d: Seq<bool>|
        is_permutation(p, a.m) && d.len() == a.m && !is_identity(p, d, a.m)
            && #[trigger] symmetry_spec(a, p, d) == a
}

/// The first image in the list of the symmetries of an assignment is the
/// assignment itself.
pub proof fn lemma_first_symmetry(a: Assignment)
    requires
        is_assignment(a),
    ensures
        symmetries_spec(a).len() > 0,
        symmetries_spec(a)[0] == a,
{
    crate::recipe::lemma_symmetries_nonempty(a);
    let g = lemma_listed_symmetry(a, 0);
    lemma_identity_moves_nothing(a);
}

/// The symmetry that keeps the axes in place and reads each forwards takes
/// every assignment to itself.
pub proof fn lemma_identity_moves_nothing(a: Assignment)
    requires
        is_assignment(a),
    ensures
        is_permutation(axis_spec(a.m), a.m),
        symmetry_spec(a, axis_spec(a.m), all_forward(a.m)) == a,
{
    let m = a.m;
    let shape = cube_shape(a.n, m);
    let p = axis_spec(m);
    let d = all_forward(m);
    assert(is_permutation(p, m)) by {
        assert forall|x: usize| x < m implies #[trigger] p.contains(x) by {
            assert(p[x as int] == x);
        }
    }
    lemma_inverse_perm(p, m);
    let q = inverse_perm(p);
    let e = inverse_dirs(p, d);
    lemma_symmetry_cells(a.n, m, p, d, a.cells, a.cells.len());
    let image = symmetry_spec(a, p, d);
    assert forall|j: int| 0 <= j < a.cells.len() implies image.cells[j] == a.cells[j] by {
        lemma_coords_at(shape, j);
        let cj = coords_spec(shape)[j];
        let back = transform_coord(a.n, q, e, cj);
        assert forall|x: int| 0 <= x < m implies back[x] == cj[x] by {
            assert(p[q[x] as int] == x);
        }
        assert(back =~= cj);
        match a.cells[j] {
            Some(o) => {
                assert(transform_orientation(p, o) =~= o);
            },
            None => {},
        }
    }
    assert(image.cells =~= a.cells);
}

/// An image other than the first in the list of its symmetries is the
/// assignment itself exactly when some symmetry other than the one that
/// moves nothing takes the assignment to itself.
pub proof fn lemma_self_symmetric(a: Assignment)
    requires
        is_assignment(a),
    ensures
        (exists|i: int| 1 <= i < symmetries_spec(a).len() && #[trigger] symmetries_spec(a)[i] == a)
            == is_own_image(a),
{
    if exists|i: int| 1 <= i < symmetries_spec(a).len() && #[trigger] symmetries_spec(a)[i] == a {
        let i = choose|i: int| 1 <= i < symmetries_spec(a).len() && #[trigger] symmetries_spec(a)[i] == a;
        let g = lemma_listed_symmetry(a, i);
        assert(symmetry_spec(a, g.0, g.1) == a);
    }
    if is_own_image(a) {
        let (p, d) = choose|p: Seq<usize>, d: Seq<bool>|
            is_permutation(p, a.m) && d.len() == a.m && !is_identity(p, d, a.m)
                && #[trigger] symmetry_spec(a, p, d) == a;
        let i = lemma_symmetry_is_listed(a, p, d);
        assert(symmetries_spec(a)[i] == a);
    }
}

} // verus!
