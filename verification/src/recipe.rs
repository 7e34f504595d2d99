//! Assignments of an orientation to the cells of a cubic grid, and the
//! symmetry group of the grid acting on them.

use vstd::prelude::*;
use vstd::arithmetic::power::pow;
use vstd::std_specs::cmp::PartialEqSpec;

use crate::combinatorics::{
    combinations_with_repetition, combinations_with_repetition_spec,
    lemma_combinations_with_repetition_len, lemma_combinations_with_repetition_members,
    lemma_permutation_count_full, lemma_permutations_len, lemma_permutations_members,
    factorial_spec, permutations, permutations_spec, rows,
};
use crate::grid::{
    axis_spec, coords_spec, cube_shape, flat_index, in_bounds, lemma_coords_at,
    lemma_flat_index_range, volume,
};
use crate::ndarray::{
    cell_differs, cloned_cell, differing_cells, outputs_of, stored_outputs, NdArray,
};
use crate::{Coord, Orientation};

verus! {

/// An assignment of an orientation to some cells of the cubic grid of side
/// `n` in `m` dimensions.
pub struct Recipe {
    pub n: usize,
    pub m: usize,
    pub map: NdArray<Orientation>,
}

/// What a `Recipe` stands for: the side and the dimension of its grid, and
/// for each cell in row-major order its orientation, if it has one.
pub struct Assignment {
    pub n: usize,
    pub m: usize,
    pub cells: Seq<Option<Seq<usize>>>,
}

/// The cells of a store of vectors, each vector taken as a sequence.
pub open spec fn cell_views<T>(cells: Seq<Option<Vec<T>>>) -> Seq<Option<Seq<T>>> {
    Seq::new(
        cells.len(),
        |i: int|
            match cells[i] {
                Some(v) => Some(v@),
                None => None,
            },
    )
}

/// Whether `o` names, for each of `m` axes, one of `n` edge lengths.
pub open spec fn is_orientation(o: Seq<usize>, n: usize, m: usize) -> bool {
    &&& o.len() == m
    &&& forall|a: int| 0 <= a < m ==> #[trigger] o[a] < n
}

/// Where a symmetry of the grid takes the coordinate `coord`: axis `j` of
/// the image is axis `perm[j]` of `coord`, read backwards where `dirs[j]` is
/// false.
pub open spec fn transform_coord(
    n: usize,
    perm: Seq<usize>,
    dirs: Seq<bool>,
    coord: Seq<usize>,
) -> Seq<usize> {
    Seq::new(
        perm.len(),
        |j: int|
            if dirs[j] {
                coord[perm[j] as int]
            } else {
                (n - 1 - coord[perm[j] as int]) as usize
            },
    )
}

/// What a symmetry of the grid makes of the orientation `o`: component `j`
/// of the image is component `perm[j]` of `o`.
pub open spec fn transform_orientation(perm: Seq<usize>, o: Seq<usize>) -> Seq<usize> {
    Seq::new(perm.len(), |j: int| o[perm[j] as int])
}

/// The grid built from the first `upto` cells of `src` under a symmetry:
/// each filled cell in turn is stored, with its orientation transformed, at
/// the image of its coordinate.
pub open spec fn symmetry_cells(
    n: usize,
    m: usize,
    perm: Seq<usize>,
    dirs: Seq<bool>,
    src: Seq<Option<Seq<usize>>>,
    upto: nat,
) -> Seq<Option<Seq<usize>>>
    decreases upto,
{
    let shape = cube_shape(n, m);
    if upto == 0 {
        Seq::new(volume(shape), |i: int| None)
    } else {
        let prev = symmetry_cells(n, m, perm, dirs, src, (upto - 1) as nat);
        match src[upto - 1] {
            None => prev,
            Some(o) => prev.update(
                flat_index(shape, transform_coord(n, perm, dirs, coords_spec(shape)[upto - 1])),
                Some(transform_orientation(perm, o)),
            ),
        }
    }
}

/// The image of an assignment under the symmetry given by an axis
/// permutation and a direction for each axis.
pub open spec fn symmetry_spec(a: Assignment, perm: Seq<usize>, dirs: Seq<bool>) -> Assignment {
    Assignment { n: a.n, m: a.m, cells: symmetry_cells(a.n, a.m, perm, dirs, a.cells, a.cells.len()) }
}

/// The axis permutations of a grid of `m` dimensions, in lexicographic
/// order.
pub open spec fn axis_permutations(m: usize) -> Seq<Seq<usize>> {
    permutations_spec(axis_spec(m), m as nat)
}

/// The choices of a direction for each of `m` axes; forward comes first.
pub open spec fn direction_choices(m: usize) -> Seq<Seq<bool>> {
    combinations_with_repetition_spec(seq![true, false], m as nat)
}

/// The images of an assignment under all symmetries of the grid: for each
/// axis permutation in turn, one image for each choice of directions.
pub open spec fn symmetries_spec(a: Assignment) -> Seq<Assignment> {
    let perms = axis_permutations(a.m);
    let dirs = direction_choices(a.m);
    Seq::new(
        perms.len() * dirs.len(),
        |i: int| symmetry_spec(a, perms[i / (dirs.len() as int)], dirs[i % (dirs.len() as int)]),
    )
}

/// Whether `b` is the image of `a` under some symmetry of the grid.
pub open spec fn is_symmetry_of(b: Assignment, a: Assignment) -> bool {
    exists|i: int| 0 <= i < symmetries_spec(a).len() && #[trigger] symmetries_spec(a)[i] == b
}

/// The number of cells at which two assignments differ; a filled cell
/// differs from an empty one.
pub open spec fn differing_views(a: Seq<Option<Seq<usize>>>, b: Seq<Option<Seq<usize>>>) -> nat
    decreases a.len(),
{
    if a.len() == 0 {
        0
    } else {
        differing_views(a.drop_last(), b.drop_last()) + if a.last() != b.last() {
            1nat
        } else {
            0nat
        }
    }
}

/// The least number of cells at which one of the first `upto` of `images`
/// differs from `b`.
pub open spec fn least_difference(
    images: Seq<Assignment>,
    b: Seq<Option<Seq<usize>>>,
    upto: nat,
) -> nat
    decreases upto,
{
    if upto <= 1 {
        differing_views(images[0].cells, b)
    } else {
        let before = least_difference(images, b, (upto - 1) as nat);
        let here = differing_views(images[upto - 1].cells, b);
        if here < before {
            here
        } else {
            before
        }
    }
}

/// The distance from `a` to `b`: the least number of cells at which an image
/// of `a` under a symmetry differs from `b`.
pub open spec fn distance_spec(a: Assignment, b: Assignment) -> nat {
    least_difference(symmetries_spec(a), b.cells, symmetries_spec(a).len())
}

/// The orbit representatives that a greedy scan of `recipes` keeps: a recipe
/// is kept unless one of its images is among those kept before it.
pub open spec fn find_unique_spec(recipes: Seq<Assignment>) -> Seq<Assignment>
    decreases recipes.len(),
{
    if recipes.len() == 0 {
        Seq::empty()
    } else {
        let kept = find_unique_spec(recipes.drop_last());
        if exists|j: int| 0 <= j < kept.len() && is_symmetry_of(#[trigger] kept[j], recipes.last()) {
            kept
        } else {
            kept.push(recipes.last())
        }
    }
}

/// The orientation `o` with each component `i` replaced by `permutation[i]`.
pub open spec fn relabel(permutation: Seq<usize>, o: Seq<usize>) -> Seq<usize> {
    Seq::new(o.len(), |j: int| permutation[o[j] as int])
}

/// The assignments that a vector of recipes stands for.
pub open spec fn assignments(recipes: Seq<Recipe>) -> Seq<Assignment> {
    Seq::new(recipes.len(), |i: int| recipes[i]@)
}

impl View for Recipe {
    type V = Assignment;

    open spec fn view(&self) -> Assignment {
        Assignment { n: self.n, m: self.m, cells: cell_views(self.map.cells()) }
    }
}

proof fn lemma_transform_in_bounds(
    n: usize,
    m: usize,
    perm: Seq<usize>,
    dirs: Seq<bool>,
    coord: Seq<usize>,
)
    requires
        in_bounds(cube_shape(n, m), coord),
        perm.len() == m,
        forall|j: int| 0 <= j < m ==> #[trigger] perm[j] < m,
    ensures
        in_bounds(cube_shape(n, m), transform_coord(n, perm, dirs, coord)),
{
    let image = transform_coord(n, perm, dirs, coord);
    assert forall|a: int| 0 <= a < m implies #[trigger] image[a] < cube_shape(n, m)[a] by {
        let i = perm[a] as int;
        assert(coord[i] < cube_shape(n, m)[i]);
    }
}

proof fn lemma_symmetry_outputs(
    n: usize,
    m: usize,
    perm: Seq<usize>,
    dirs: Seq<bool>,
    coords: Seq<Coord>,
    src: Seq<Option<Orientation>>,
    outs: Seq<(Coord, Orientation)>,
)
    requires
        outs.len() <= src.len(),
        src.len() == volume(cube_shape(n, m)),
        rows(coords) == coords_spec(cube_shape(n, m)),
        perm.len() == m,
        forall|j: int| 0 <= j < m ==> #[trigger] perm[j] < m,
        forall|k: int|
            0 <= k < src.len() ==> (#[trigger] src[k] matches Some(o) ==> is_orientation(o@, n, m)),
        forall|k: int|
            0 <= k < outs.len() && src[k].is_some() ==> {
                &&& (#[trigger] outs[k]).0@ == transform_coord(n, perm, dirs, coords[k]@)
                &&& outs[k].1@ == transform_orientation(perm, src[k].unwrap()@)
            },
    ensures
        stored_outputs(cube_shape(n, m), src, outs).len() == volume(cube_shape(n, m)),
        cell_views(stored_outputs(cube_shape(n, m), src, outs)) == symmetry_cells(
            n,
            m,
            perm,
            dirs,
            cell_views(src),
            outs.len(),
        ),
        forall|i: int|
            0 <= i < volume(cube_shape(n, m)) ==> (#[trigger] stored_outputs(
                cube_shape(n, m),
                src,
                outs,
            )[i] matches Some(o) ==> is_orientation(o@, n, m)),
    decreases outs.len(),
{
    let shape = cube_shape(n, m);
    let stored = stored_outputs(shape, src, outs);
    let folded = symmetry_cells(n, m, perm, dirs, cell_views(src), outs.len());
    if outs.len() == 0 {
        assert(cell_views(stored) =~= folded);
    } else {
        let k = outs.len() - 1;
        lemma_symmetry_outputs(n, m, perm, dirs, coords, src, outs.drop_last());
        if src[k].is_some() {
            let o = src[k].unwrap();
            lemma_coords_at(shape, k);
            assert(rows(coords)[k] == coords[k]@);
            lemma_transform_in_bounds(n, m, perm, dirs, coords[k]@);
            let image = transform_coord(n, perm, dirs, coords[k]@);
            lemma_flat_index_range(shape, image);
            assert(outs.last() == outs[k]);
            assert(cell_views(src)[k] == Some(o@));
            assert(cell_views(stored) =~= folded);
            assert(is_orientation(o@, n, m));
            assert(is_orientation(outs[k].1@, n, m)) by {
                assert forall|a: int| 0 <= a < m implies #[trigger] outs[k].1@[a] < n by {
                    assert(o@[perm[a] as int] < n);
                }
            }
        } else {
            assert(cell_views(src)[k] is None);
            assert(cell_views(stored) =~= folded);
        }
    }
}

fn transformed_coord(n: usize, perm: &Vec<usize>, dirs: &Vec<bool>, coord: &Coord) -> (image: Coord)
    requires
        perm@.len() == dirs@.len(),
        forall|j: int| 0 <= j < perm@.len() ==> #[trigger] perm@[j] < coord@.len(),
        forall|a: int| 0 <= a < coord@.len() ==> #[trigger] coord@[a] < n,
    ensures
        image@ == transform_coord(n, perm@, dirs@, coord@),
{
    let mut image: Coord = Vec::new();
    let mut j: usize = 0;
    while j < perm.len()
        invariant
            j <= perm@.len(),
            perm@.len() == dirs@.len(),
            forall|j: int| 0 <= j < perm@.len() ==> #[trigger] perm@[j] < coord@.len(),
            forall|a: int| 0 <= a < coord@.len() ==> #[trigger] coord@[a] < n,
            image@ == transform_coord(n, perm@, dirs@, coord@).take(j as int),
        decreases perm@.len() - j,
    {
        let i = perm[j];
        let c = coord[i];
        let v = if dirs[j] {
            c
        } else {
            (n - 1) - c
        };
        image.push(v);
        assert(image@ =~= transform_coord(n, perm@, dirs@, coord@).take(j + 1));
        j += 1;
    }
    assert(transform_coord(n, perm@, dirs@, coord@).take(perm@.len() as int) =~= transform_coord(
        n,
        perm@,
        dirs@,
        coord@,
    ));
    image
}

fn transformed_orientation(perm: &Vec<usize>, o: &Orientation) -> (image: Orientation)
    requires
        forall|j: int| 0 <= j < perm@.len() ==> #[trigger] perm@[j] < o@.len(),
    ensures
        image@ == transform_orientation(perm@, o@),
{
    let mut image: Orientation = Vec::new();
    let mut j: usize = 0;
    while j < perm.len()
        invariant
            j <= perm@.len(),
            forall|j: int| 0 <= j < perm@.len() ==> #[trigger] perm@[j] < o@.len(),
            image@ == transform_orientation(perm@, o@).take(j as int),
        decreases perm@.len() - j,
    {
        image.push(o[perm[j]]);
        assert(image@ =~= transform_orientation(perm@, o@).take(j + 1));
        j += 1;
    }
    assert(transform_orientation(perm@, o@).take(perm@.len() as int) =~= transform_orientation(
        perm@,
        o@,
    ));
    image
}

fn relabelled(permutation: &Orientation, o: &Orientation) -> (image: Orientation)
    requires
        forall|j: int| 0 <= j < o@.len() ==> #[trigger] o@[j] < permutation@.len(),
    ensures
        image@ == relabel(permutation@, o@),
{
    let mut image: Orientation = Vec::new();
    let mut j: usize = 0;
    while j < o.len()
        invariant
            j <= o@.len(),
            forall|j: int| 0 <= j < o@.len() ==> #[trigger] o@[j] < permutation@.len(),
            image@ == relabel(permutation@, o@).take(j as int),
        decreases o@.len() - j,
    {
        image.push(permutation[o[j]]);
        assert(image@ =~= relabel(permutation@, o@).take(j + 1));
        j += 1;
    }
    assert(relabel(permutation@, o@).take(o@.len() as int) =~= relabel(permutation@, o@));
    image
}

fn copied_coord(coord: &Coord) -> (copy: Coord)
    ensures
        copy@ == coord@,
{
    let mut copy: Coord = Vec::new();
    let mut j: usize = 0;
    while j < coord.len()
        invariant
            j <= coord@.len(),
            copy@ == coord@.take(j as int),
        decreases coord@.len() - j,
    {
        copy.push(coord[j]);
        j += 1;
    }
    assert(coord@.take(coord@.len() as int) =~= coord@);
    copy
}

/// Whether `coord` names a cell of the cubic grid of side `n` in `m`
/// dimensions.
pub fn is_cell(n: usize, m: usize, coord: &Coord) -> (valid: bool)
    ensures
        valid == in_bounds(cube_shape(n, m), coord@),
{
    if coord.len() != m {
        return false;
    }
    let mut a: usize = 0;
    while a < m
        invariant
            a <= m,
            coord@.len() == m,
            forall|j: int| 0 <= j < a ==> #[trigger] coord@[j] < n,
        decreases m - a,
    {
        if coord[a] >= n {
            assert(!(coord@[a as int] < cube_shape(n, m)[a as int]));
            return false;
        }
        a += 1;
    }
    assert forall|j: int| 0 <= j < cube_shape(n, m).len() implies #[trigger] coord@[j] < cube_shape(
        n,
        m,
    )[j] by {}
    true
}

/// Whether `orientation` names, for each of `m` axes, one of `n` edge
/// lengths.
pub fn is_orientation_for(n: usize, m: usize, orientation: &Orientation) -> (valid: bool)
    ensures
        valid == is_orientation(orientation@, n, m),
{
    if orientation.len() != m {
        return false;
    }
    let mut a: usize = 0;
    while a < m
        invariant
            a <= m,
            orientation@.len() == m,
            forall|j: int| 0 <= j < a ==> #[trigger] orientation@[j] < n,
        decreases m - a,
    {
        if orientation[a] >= n {
            return false;
        }
        a += 1;
    }
    true
}

impl Recipe {
    /// The grid is the cube of side `n` in `m` dimensions, and every filled
    /// cell holds an orientation for it.
    pub open spec fn wf(&self) -> bool {
        &&& self.map.wf()
        &&& self.map.spec_shape() == cube_shape(self.n, self.m)
        &&& forall|i: int|
            0 <= i < self.map.cells().len() ==> (#[trigger] self.map.cells()[i] matches Some(o)
                ==> is_orientation(o@, self.n, self.m))
    }

    /// Whether every cell is filled.
    pub open spec fn is_complete(&self) -> bool {
        forall|i: int| 0 <= i < self.map.cells().len() ==> (#[trigger] self.map.cells()[i]).is_some()
    }

    /// Whether the recipe is well-formed.
    pub fn is_well_formed(&self) -> (well_formed: bool)
        ensures
            well_formed == self.wf(),
    {
        if !self.map.is_well_formed() {
            return false;
        }
        let shape = self.map.shape();
        if shape.len() != self.m {
            assert(cube_shape(self.n, self.m).len() != shape@.len());
            return false;
        }
        let mut a: usize = 0;
        while a < self.m
            invariant
                a <= self.m,
                shape@.len() == self.m,
                shape@ == self.map.spec_shape(),
                forall|j: int| 0 <= j < a ==> #[trigger] shape@[j] == self.n,
            decreases self.m - a,
        {
            if shape[a] != self.n {
                assert(cube_shape(self.n, self.m)[a as int] != shape@[a as int]);
                return false;
            }
            a += 1;
        }
        assert(shape@ =~= cube_shape(self.n, self.m));
        let coords = self.map.coords();
        let mut i: usize = 0;
        while i < coords.len()
            invariant
                i <= coords@.len(),
                self.map.wf(),
                self.map.spec_shape() == cube_shape(self.n, self.m),
                coords@ == self.map.spec_coords(),
                forall|j: int|
                    0 <= j < i ==> (#[trigger] self.map.cells()[j] matches Some(o) ==> is_orientation(
                        o@,
                        self.n,
                        self.m,
                    )),
            decreases coords@.len() - i,
        {
            proof {
                lemma_coords_at(self.map.spec_shape(), i as int);
                assert(rows(coords@)[i as int] == coords@[i as int]@);
            }
            match self.map.get(&coords[i]) {
                Some(o) => {
                    if !is_orientation_for(self.n, self.m, o) {
                        assert(self.map.cells()[i as int] == Some(*o));
                        return false;
                    }
                },
                None => {},
            }
            i += 1;
        }
        true
    }

    /// The recipe for the cubic grid of side `n` in `m` dimensions that fills
    /// no cell.
    pub fn new(n: usize, m: usize) -> (recipe: Recipe)
        ensures
            recipe.wf(),
            recipe.n == n,
            recipe.m == m,
            recipe@.cells == Seq::new(volume(cube_shape(n, m)), |i: int| None::<Seq<usize>>),
    {
        let mut shape: Vec<usize> = Vec::new();
        let mut i: usize = 0;
        while i < m
            invariant
                i <= m,
                shape@.len() == i,
                forall|a: int| 0 <= a < i ==> #[trigger] shape@[a] == n,
            decreases m - i,
        {
            shape.push(n);
            i += 1;
        }
        assert(shape@ =~= cube_shape(n, m));
        let map = NdArray::new(&shape);
        let recipe = Recipe { n, m, map };
        assert(recipe@.cells =~= Seq::new(volume(cube_shape(n, m)), |i: int| None::<Seq<usize>>));
        recipe
    }

    /// Whether a symmetry of the grid other than the one that moves nothing
    /// takes the recipe to itself.
    pub fn is_self_symmetric(&self) -> (symmetric: bool)
        requires
            self.wf(),
        ensures
            symmetric == exists|i: int|
                1 <= i < symmetries_spec(self@).len() && #[trigger] symmetries_spec(self@)[i]
                    == self@,
            symmetric == crate::symmetry::is_own_image(self@),
    {
        proof {
            self.lemma_is_assignment();
            crate::symmetry::lemma_self_symmetric(self@);
        }
        let symmetries = self.symmetries();
        let mut i: usize = 1;
        while i < symmetries.len()
            invariant
                1 <= i,
                self.wf(),
                assignments(symmetries@) == symmetries_spec(self@),
                forall|j: int| 0 <= j < symmetries@.len() ==> (#[trigger] symmetries@[j]).wf(),
                forall|j: int| 1 <= j < i ==> #[trigger] symmetries_spec(self@)[j] != self@,
                crate::symmetry::is_own_image(self@) == exists|i: int|
                    1 <= i < symmetries_spec(self@).len() && #[trigger] symmetries_spec(self@)[i]
                        == self@,
            decreases symmetries@.len() - i,
        {
            proof {
                symmetries[i as int].lemma_eq(self);
                assert(assignments(symmetries@)[i as int] == symmetries@[i as int]@);
            }
            if symmetries[i] == *self {
                return true;
            }
            i += 1;
        }
        false
    }

    /// The images of the recipe under all symmetries of the grid: for each
    /// arrangement of the axes, in lexicographic order, one image for each
    /// choice of directions. The first image is the recipe itself.
    pub fn symmetries(&self) -> (symmetries: Vec<Recipe>)
        requires
            self.wf(),
        ensures
            assignments(symmetries@) == symmetries_spec(self@),
            symmetries@.len() == factorial_spec(self.m as nat) * pow(2, self.m as nat),
            forall|i: int| 0 <= i < symmetries@.len() ==> (#[trigger] symmetries@[i]).wf(),
            symmetries@.len() > 0,
            symmetries@[0]@ == self@,
    {
        proof {
            self.lemma_is_assignment();
            crate::symmetry::lemma_first_symmetry(self@);
        }
        let mut symmetries: Vec<Recipe> = Vec::new();
        let mut dims: Vec<usize> = Vec::new();
        let mut a: usize = 0;
        while a < self.m
            invariant
                a <= self.m,
                dims@ == axis_spec(self.m).take(a as int),
            decreases self.m - a,
        {
            dims.push(a);
            assert(dims@ =~= axis_spec(self.m).take(a + 1));
            a += 1;
        }
        assert(axis_spec(self.m).take(self.m as int) =~= axis_spec(self.m));
        let mut directions: Vec<bool> = Vec::new();
        directions.push(true);
        directions.push(false);
        assert(directions@ =~= seq![true, false]);
        let choices = combinations_with_repetition(directions.as_slice(), self.m);
        let arrangements = permutations(dims.as_slice(), self.m);
        let ghost perms = axis_permutations(self.m);
        let ghost dirs = direction_choices(self.m);
        proof {
            lemma_permutations_len(axis_spec(self.m), self.m as nat);
            lemma_permutation_count_full(self.m as nat);
            lemma_combinations_with_repetition_len(seq![true, false], self.m as nat);
        }
        let mut p: usize = 0;
        while p < arrangements.len()
            invariant
                p <= arrangements@.len(),
                self.wf(),
                perms == axis_permutations(self.m),
                dirs == direction_choices(self.m),
                rows(arrangements@) == perms,
                rows(choices@) == dirs,
                symmetries@.len() == p * dirs.len(),
                forall|i: int|
                    0 <= i < symmetries@.len() ==> {
                        &&& (#[trigger] symmetries@[i]).wf()
                        &&& symmetries@[i]@ == symmetries_spec(self@)[i]
                    },
            decreases arrangements@.len() - p,
        {
            let mut d: usize = 0;
            while d < choices.len()
                invariant
                    p < arrangements@.len(),
                    d <= choices@.len(),
                    self.wf(),
                    perms == axis_permutations(self.m),
                    dirs == direction_choices(self.m),
                    rows(arrangements@) == perms,
                    rows(choices@) == dirs,
                    symmetries@.len() == p * dirs.len() + d,
                    forall|i: int|
                        0 <= i < symmetries@.len() ==> {
                            &&& (#[trigger] symmetries@[i]).wf()
                            &&& symmetries@[i]@ == symmetries_spec(self@)[i]
                        },
                decreases choices@.len() - d,
            {
                proof {
                    lemma_permutations_members(axis_spec(self.m), self.m as nat, p as int);
                    lemma_combinations_with_repetition_members(
                        seq![true, false],
                        self.m as nat,
                        d as int,
                    );
                    assert(rows(arrangements@)[p as int] == arrangements@[p as int]@);
                    assert(rows(choices@)[d as int] == choices@[d as int]@);
                    let perm = perms[p as int];
                    assert forall|j: int| 0 <= j < self.m implies #[trigger] perm[j] < self.m by {
                        assert(axis_spec(self.m).contains(perm[j]));
                    }
                    let i = symmetries@.len() as int;
                    let len = dirs.len() as int;
                    vstd::arithmetic::div_mod::lemma_fundamental_div_mod_converse(
                        i,
                        len,
                        p as int,
                        d as int,
                    );
                    assert(i < perms.len() * len) by (nonlinear_arith)
                        requires
                            i == p * len + d,
                            d < len,
                            p < perms.len(),
                    ;
                }
                let image = self.symmetry(&arrangements[p], &choices[d]);
                symmetries.push(image);
                d += 1;
            }
            p += 1;
            assert(p * dirs.len() == (p - 1) * dirs.len() + dirs.len()) by (nonlinear_arith);
        }
        assert(assignments(symmetries@) =~= symmetries_spec(self@));
        assert(assignments(symmetries@)[0] == symmetries@[0]@);
        symmetries
    }

    /// The image of the recipe under one symmetry of its grid.
    pub fn symmetry(&self, axis_permutation: &Vec<usize>, axis_directions: &Vec<bool>) -> (image:
        Recipe)
        requires
            self.wf(),
            axis_permutation@.len() == self.m,
            axis_directions@.len() == self.m,
            forall|j: int| 0 <= j < self.m ==> #[trigger] axis_permutation@[j] < self.m,
        ensures
            image.wf(),
            image@ == symmetry_spec(self@, axis_permutation@, axis_directions@),
    {
        let n = self.n;
        let ghost m = self.m;
        let f = |cell: (&Coord, &Orientation)| -> (out: (Coord, Orientation))
            requires
                cell.0@.len() == m,
                cell.1@.len() == m,
                forall|a: int| 0 <= a < m ==> #[trigger] cell.0@[a] < n,
            ensures
                out.0@ == transform_coord(n, axis_permutation@, axis_directions@, cell.0@),
                out.1@ == transform_orientation(axis_permutation@, cell.1@),
            {
                (
                    transformed_coord(n, axis_permutation, axis_directions, cell.0),
                    transformed_orientation(axis_permutation, cell.1),
                )
            };
        let ghost shape = cube_shape(self.n, self.m);
        proof {
            assert forall|k: int|
                0 <= k < self.map.cells().len()
                    && self.map.cells()[k].is_some() implies call_requires(
                f,
                ((&#[trigger] self.map.spec_coords()[k], &self.map.cells()[k].unwrap()),),
            ) by {
                lemma_coords_at(shape, k);
                assert(rows(self.map.spec_coords())[k] == self.map.spec_coords()[k]@);
                let c = self.map.spec_coords()[k]@;
                assert forall|a: int| 0 <= a < m implies #[trigger] c[a] < n by {
                    assert(c[a] < shape[a]);
                }
                assert(self.map.cells()[k] matches Some(o) ==> is_orientation(o@, n, self.m));
            }
            assert forall|k: int, out: (Coord, Orientation)|
                0 <= k < self.map.cells().len() && self.map.cells()[k].is_some()
                    && #[trigger] call_ensures(
                    f,
                    ((&self.map.spec_coords()[k], &self.map.cells()[k].unwrap()),),
                    out,
                ) implies in_bounds(self.map.spec_shape(), out.0@) by {
                lemma_coords_at(shape, k);
                assert(rows(self.map.spec_coords())[k] == self.map.spec_coords()[k]@);
                lemma_transform_in_bounds(
                    n,
                    self.m,
                    axis_permutation@,
                    axis_directions@,
                    self.map.spec_coords()[k]@,
                );
            }
        }
        let map = self.map.map(f);
        proof {
            let outs = choose|outs: Seq<(Coord, Orientation)>|
                {
                    &&& outs.len() == self.map.cells().len()
                    &&& outputs_of(self.map.spec_coords(), self.map.cells(), f, outs)
                    &&& map.cells() == #[trigger] stored_outputs(
                        self.map.spec_shape(),
                        self.map.cells(),
                        outs,
                    )
                };
            lemma_symmetry_outputs(
                n,
                self.m,
                axis_permutation@,
                axis_directions@,
                self.map.spec_coords(),
                self.map.cells(),
                outs,
            );
        }
        Recipe { n: self.n, m: self.m, map }
    }

    /// Orbit representatives: the recipes are scanned in their order, and one
    /// is kept unless an image of it under a symmetry has been kept before.
    pub fn find_unique(recipes: Vec<Recipe>) -> (unique: Vec<Recipe>)
        requires
            forall|i: int| 0 <= i < recipes@.len() ==> (#[trigger] recipes@[i]).wf(),
        ensures
            assignments(unique@) == find_unique_spec(assignments(recipes@)),
            forall|i: int| 0 <= i < unique@.len() ==> (#[trigger] unique@[i]).wf(),
            forall|i: int, j: int|
                0 <= i < unique@.len() && 0 <= j < unique@.len() && i != j ==> !is_symmetry_of(
                    (#[trigger] unique@[i])@,
                    (#[trigger] unique@[j])@,
                ),
            forall|r: int|
                0 <= r < recipes@.len() ==> exists|j: int|
                    0 <= j < unique@.len() && is_symmetry_of(
                        (#[trigger] unique@[j])@,
                        (#[trigger] recipes@[r])@,
                    ),
    {
        let ghost all = assignments(recipes@);
        let ghost inputs = recipes@;
        proof {
            assert forall|k: int| 0 <= k < all.len() implies crate::symmetry::is_assignment(
                #[trigger] all[k],
            ) by {
                recipes@[k].lemma_is_assignment();
            }
        }
        let total = recipes.len();
        let mut recipes = recipes;
        let mut stack: Vec<Recipe> = Vec::new();
        while recipes.len() > 0
            invariant
                recipes@.len() + stack@.len() == total,
                all.len() == total,
                forall|i: int| 0 <= i < recipes@.len() ==> (#[trigger] recipes@[i]).wf(),
                forall|i: int| 0 <= i < stack@.len() ==> (#[trigger] stack@[i]).wf(),
                forall|i: int| 0 <= i < recipes@.len() ==> (#[trigger] recipes@[i])@ == all[i],
                forall|i: int|
                    0 <= i < stack@.len() ==> (#[trigger] stack@[i])@ == all[total - 1 - i],
            decreases recipes@.len(),
        {
            let last = recipes.pop().unwrap();
            stack.push(last);
        }
        let mut unique: Vec<Recipe> = Vec::new();
        let mut done: usize = 0;
        assert(all.take(0) =~= Seq::<Assignment>::empty());
        while stack.len() > 0
            invariant
                done + stack@.len() == total,
                all.len() == total,
                forall|i: int| 0 <= i < stack@.len() ==> (#[trigger] stack@[i]).wf(),
                forall|i: int|
                    0 <= i < stack@.len() ==> (#[trigger] stack@[i])@ == all[total - 1 - i],
                forall|i: int| 0 <= i < unique@.len() ==> (#[trigger] unique@[i]).wf(),
                assignments(unique@) == find_unique_spec(all.take(done as int)),
            decreases stack@.len(),
        {
            let suspect = stack.pop().unwrap();
            let symmetries = suspect.symmetries();
            let ghost kept = assignments(unique@);
            assert(suspect@ == all[done as int]);
            let mut known = false;
            let mut u: usize = 0;
            while u < unique.len() && !known
                invariant
                    u <= unique@.len(),
                    suspect.wf(),
                    kept == assignments(unique@),
                    forall|i: int| 0 <= i < unique@.len() ==> (#[trigger] unique@[i]).wf(),
                    assignments(symmetries@) == symmetries_spec(suspect@),
                    forall|i: int| 0 <= i < symmetries@.len() ==> (#[trigger] symmetries@[i]).wf(),
                    known ==> exists|j: int|
                        0 <= j < kept.len() && is_symmetry_of(#[trigger] kept[j], suspect@),
                    !known ==> forall|j: int|
                        0 <= j < u ==> !is_symmetry_of(#[trigger] kept[j], suspect@),
                decreases unique@.len() - u, if known { 0int } else { 1int },
            {
                let mut s: usize = 0;
                let mut found = false;
                while s < symmetries.len() && !found
                    invariant
                        s <= symmetries@.len(),
                        u < unique@.len(),
                        unique@[u as int].wf(),
                        kept == assignments(unique@),
                        assignments(symmetries@) == symmetries_spec(suspect@),
                        forall|i: int|
                            0 <= i < symmetries@.len() ==> (#[trigger] symmetries@[i]).wf(),
                        found ==> is_symmetry_of(kept[u as int], suspect@),
                        !found ==> forall|i: int|
                            0 <= i < s ==> #[trigger] symmetries_spec(suspect@)[i] != kept[u as int],
                    decreases symmetries@.len() - s, if found { 0int } else { 1int },
                {
                    proof {
                        symmetries@[s as int].lemma_eq(&unique@[u as int]);
                        assert(assignments(symmetries@)[s as int] == symmetries@[s as int]@);
                        assert(kept[u as int] == unique@[u as int]@);
                    }
                    if symmetries[s] == unique[u] {
                        found = true;
                    } else {
                        s += 1;
                    }
                }
                if found {
                    known = true;
                } else {
                    u += 1;
                }
            }
            proof {
                assert(all.take(done + 1).drop_last() =~= all.take(done as int));
                assert(all.take(done + 1).last() == suspect@);
            }
            if !known {
                proof {
                    assert(assignments(unique@.push(suspect)) =~= kept.push(suspect@));
                }
                unique.push(suspect);
            }
            done += 1;
        }
        assert(all.take(total as int) =~= all);
        proof {
            let kept = find_unique_spec(all);
            assert forall|i: int, j: int|
                0 <= i < unique@.len() && 0 <= j < unique@.len() && i != j implies !is_symmetry_of(
                (#[trigger] unique@[i])@,
                (#[trigger] unique@[j])@,
            ) by {
                assert(kept[i] == unique@[i]@ && kept[j] == unique@[j]@);
                crate::symmetry::lemma_unique_no_two_symmetric(all, i, j);
            }
            assert forall|r: int| 0 <= r < inputs.len() implies exists|j: int|
                0 <= j < unique@.len() && is_symmetry_of(
                    (#[trigger] unique@[j])@,
                    (#[trigger] inputs[r])@,
                ) by {
                let j = crate::symmetry::lemma_unique_represent_all(all, r);
                assert(kept[j] == unique@[j]@);
                assert(all[r] == inputs[r]@);
                assert(is_symmetry_of(unique@[j]@, inputs[r]@));
            }
        }
        unique
    }

    /// The least number of cells at which an image of the recipe under a
    /// symmetry differs from `other`.
    pub fn distance_to(&self, other: &Recipe) -> (distance: usize)
        requires
            self.wf(),
            other.wf(),
            self.n == other.n,
            self.m == other.m,
        ensures
            distance == distance_spec(self@, other@),
            distance == distance_spec(other@, self@),
    {
        let symmetries = self.symmetries();
        proof {
            self.lemma_is_assignment();
            other.lemma_is_assignment();
            crate::symmetry::lemma_distance_is_mutual(self@, other@);
            lemma_symmetries_nonempty(self@);
            assert(assignments(symmetries@)[0] == symmetries@[0]@);
            assert(symmetries@[0]@ == symmetries_spec(self@)[0]);
            assert(symmetries@[0].n == self.n && symmetries@[0].m == self.m);
            symmetries@[0].lemma_differences(other);
        }
        let mut least = symmetries[0].map.differences(&other.map);
        let mut i: usize = 1;
        while i < symmetries.len()
            invariant
                1 <= i <= symmetries@.len(),
                other.wf(),
                self.n == other.n,
                self.m == other.m,
                assignments(symmetries@) == symmetries_spec(self@),
                forall|j: int| 0 <= j < symmetries@.len() ==> (#[trigger] symmetries@[j]).wf(),
                least == least_difference(symmetries_spec(self@), other@.cells, i as nat),
            decreases symmetries@.len() - i,
        {
            proof {
                assert(assignments(symmetries@)[i as int] == symmetries@[i as int]@);
                assert(symmetries@[i as int]@ == symmetries_spec(self@)[i as int]);
                assert(symmetries_spec(self@).len() == symmetries@.len());
                assert(symmetries_spec(self@)[i as int].n == self@.n);
                assert(symmetries_spec(self@)[i as int].m == self@.m);
                assert(symmetries@[i as int].n == self.n && symmetries@[i as int].m == self.m);
                symmetries@[i as int].lemma_differences(other);
            }
            let here = symmetries[i].map.differences(&other.map);
            if here < least {
                least = here;
            }
            i += 1;
        }
        least
    }

    /// The recipe in which every component `i` of every orientation is
    /// replaced by `permutation[i]`; the cells stay where they are.
    pub fn pre_permute(&self, permutation: &Orientation) -> (relabelled: Recipe)
        requires
            self.wf(),
            permutation@.len() == self.n,
            forall|i: int| 0 <= i < self.n ==> #[trigger] permutation@[i] < self.n,
        ensures
            relabelled.wf(),
            relabelled.n == self.n,
            relabelled.m == self.m,
            relabelled@.cells.len() == self@.cells.len(),
            forall|k: int|
                0 <= k < self@.cells.len() ==> #[trigger] relabelled@.cells[k] == match self@.cells[k] {
                    Some(o) => Some(relabel(permutation@, o)),
                    None => None,
                },
    {
        let ghost n = self.n;
        let f = |cell: (&Coord, &Orientation)| -> (out: (Coord, Orientation))
            requires
                forall|j: int| 0 <= j < cell.1@.len() ==> #[trigger] cell.1@[j] < permutation@.len(),
            ensures
                out.0@ == cell.0@,
                out.1@ == relabel(permutation@, cell.1@),
            { (copied_coord(cell.0), relabelled(permutation, cell.1)) };
        let ghost shape = cube_shape(self.n, self.m);
        proof {
            assert forall|k: int, out: (Coord, Orientation)|
                0 <= k < self.map.cells().len() && self.map.cells()[k].is_some()
                    && #[trigger] call_ensures(
                    f,
                    ((&self.map.spec_coords()[k], &self.map.cells()[k].unwrap()),),
                    out,
                ) implies in_bounds(self.map.spec_shape(), out.0@) by {
                lemma_coords_at(shape, k);
                assert(rows(self.map.spec_coords())[k] == self.map.spec_coords()[k]@);
            }
            assert forall|k: int|
                0 <= k < self.map.cells().len()
                    && self.map.cells()[k].is_some() implies call_requires(
                f,
                ((&#[trigger] self.map.spec_coords()[k], &self.map.cells()[k].unwrap()),),
            ) by {
                assert(self.map.cells()[k] matches Some(o) ==> is_orientation(o@, self.n, self.m));
            }
        }
        let map = self.map.map(f);
        proof {
            let outs = choose|outs: Seq<(Coord, Orientation)>|
                {
                    &&& outs.len() == self.map.cells().len()
                    &&& outputs_of(self.map.spec_coords(), self.map.cells(), f, outs)
                    &&& map.cells() == #[trigger] stored_outputs(
                        self.map.spec_shape(),
                        self.map.cells(),
                        outs,
                    )
                };
            lemma_relabel_outputs(
                self.n,
                self.m,
                permutation@,
                self.map.spec_coords(),
                self.map.cells(),
                outs,
            );
        }
        Recipe { n: self.n, m: self.m, map }
    }

    /// Between two well-formed recipes, `==` holds exactly when they stand
    /// for the same assignment.
    pub proof fn lemma_eq(&self, other: &Recipe)
        requires
            self.wf(),
            other.wf(),
        ensures
            self.eq_spec(other) == (self@ == other@),
    {
        self.map.lemma_same_as(&other.map);
        let a = self.map.cells();
        let b = other.map.cells();
        if self.n == other.n && self.m == other.m {
            assert(a.len() == b.len());
            assert forall|i: int| 0 <= i < a.len() implies cell_differs(a[i], b[i]) == (cell_views(
                a,
            )[i] != cell_views(b)[i]) by {
                lemma_cell_differs(a[i], b[i]);
            }
            if self@ == other@ {
                assert forall|i: int| 0 <= i < a.len() implies !cell_differs(#[trigger] a[i], b[i]) by {
                    assert(cell_views(a)[i] == cell_views(b)[i]);
                }
            }
            if self.eq_spec(other) {
                assert(cell_views(a) =~= cell_views(b)) by {
                    assert forall|i: int| 0 <= i < a.len() implies cell_views(a)[i] == cell_views(
                        b,
                    )[i] by {
                        assert(!cell_differs(a[i], b[i]));
                    }
                }
            }
        }
    }

    /// What `differences` counts between the stores of two recipes of the
    /// same grid is the number of cells at which the assignments differ.
    pub proof fn lemma_differences(&self, other: &Recipe)
        requires
            self.wf(),
            other.wf(),
            self.n == other.n,
            self.m == other.m,
        ensures
            differing_cells(self.map.cells(), other.map.cells()) == differing_views(
                self@.cells,
                other@.cells,
            ),
    {
        lemma_differing(self.map.cells(), other.map.cells());
    }
}

proof fn lemma_cell_differs(a: Option<Orientation>, b: Option<Orientation>)
    ensures
        cell_differs(a, b) == (cell_views(seq![a])[0] != cell_views(seq![b])[0]),
{
    match (a, b) {
        (Some(x), Some(y)) => {
            if x.eq_spec(&y) {
                assert(x@ =~= y@);
            }
        },
        _ => {},
    }
}

proof fn lemma_differing(a: Seq<Option<Orientation>>, b: Seq<Option<Orientation>>)
    requires
        a.len() == b.len(),
    ensures
        differing_cells(a, b) == differing_views(cell_views(a), cell_views(b)),
    decreases a.len(),
{
    if a.len() > 0 {
        lemma_differing(a.drop_last(), b.drop_last());
        assert(cell_views(a).drop_last() =~= cell_views(a.drop_last()));
        assert(cell_views(b).drop_last() =~= cell_views(b.drop_last()));
        lemma_cell_differs(a.last(), b.last());
    }
}

proof fn lemma_relabel_outputs(
    n: usize,
    m: usize,
    permutation: Seq<usize>,
    coords: Seq<Coord>,
    src: Seq<Option<Orientation>>,
    outs: Seq<(Coord, Orientation)>,
)
    requires
        outs.len() <= src.len(),
        src.len() == volume(cube_shape(n, m)),
        rows(coords) == coords_spec(cube_shape(n, m)),
        permutation.len() == n,
        forall|i: int| 0 <= i < n ==> #[trigger] permutation[i] < n,
        forall|k: int|
            0 <= k < src.len() ==> (#[trigger] src[k] matches Some(o) ==> is_orientation(o@, n, m)),
        forall|k: int|
            0 <= k < outs.len() && src[k].is_some() ==> {
                &&& (#[trigger] outs[k]).0@ == coords[k]@
                &&& outs[k].1@ == relabel(permutation, src[k].unwrap()@)
            },
    ensures
        stored_outputs(cube_shape(n, m), src, outs).len() == src.len(),
        forall|k: int|
            0 <= k < src.len() ==> #[trigger] cell_views(
                stored_outputs(cube_shape(n, m), src, outs),
            )[k] == (if k < outs.len() {
                match src[k] {
                    Some(o) => Some(relabel(permutation, o@)),
                    None => None,
                }
            } else {
                None
            }),
        forall|i: int|
            0 <= i < src.len() ==> (#[trigger] stored_outputs(cube_shape(n, m), src, outs)[i] matches Some(
                o,
            ) ==> is_orientation(o@, n, m)),
    decreases outs.len(),
{
    let shape = cube_shape(n, m);
    let stored = stored_outputs(shape, src, outs);
    if outs.len() > 0 {
        let k = outs.len() - 1;
        lemma_relabel_outputs(n, m, permutation, coords, src, outs.drop_last());
        let prev = stored_outputs(shape, src, outs.drop_last());
        if src[k].is_some() {
            let o = src[k].unwrap();
            lemma_coords_at(shape, k);
            assert(rows(coords)[k] == coords[k]@);
            assert(outs.last() == outs[k]);
            assert(flat_index(shape, outs[k].0@) == k);
            assert(stored == prev.update(k, Some(outs[k].1)));
            assert(is_orientation(o@, n, m));
            assert(is_orientation(outs[k].1@, n, m)) by {
                assert forall|a: int| 0 <= a < m implies #[trigger] outs[k].1@[a] < n by {
                    assert(o@[a] < n);
                }
            }
        } else {
            assert(stored == prev);
        }
        assert forall|j: int| 0 <= j < src.len() implies #[trigger] cell_views(stored)[j] == (if j
            < outs.len() {
            match src[j] {
                Some(o) => Some(relabel(permutation, o@)),
                None => None,
            }
        } else {
            None
        }) by {
            if j != k {
                assert(cell_views(stored)[j] == cell_views(prev)[j]);
            }
        }
    } else {
        assert forall|j: int| 0 <= j < src.len() implies #[trigger] cell_views(stored)[j]
            == None::<Seq<usize>> by {}
    }
}

/// Every grid has at least one symmetry.
pub proof fn lemma_symmetries_nonempty(a: Assignment)
    ensures
        symmetries_spec(a).len() == factorial_spec(a.m as nat) * pow(2, a.m as nat),
        symmetries_spec(a).len() > 0,
{
    lemma_permutations_len(axis_spec(a.m), a.m as nat);
    lemma_permutation_count_full(a.m as nat);
    lemma_combinations_with_repetition_len(seq![true, false], a.m as nat);
    vstd::arithmetic::power::lemma_pow_positive(2, a.m as nat);
    lemma_factorial_positive(a.m as nat);
    let f = factorial_spec(a.m as nat) as int;
    let p = pow(2, a.m as nat);
    assert(f * p > 0) by (nonlinear_arith)
        requires
            f > 0,
            p > 0,
    ;
}

/// `n!` is positive.
pub proof fn lemma_factorial_positive(n: nat)
    ensures
        factorial_spec(n) > 0,
    decreases n,
{
    if n > 1 {
        lemma_factorial_positive((n - 1) as nat);
        let f = factorial_spec((n - 1) as nat) as int;
        assert(n * f > 0) by (nonlinear_arith)
            requires
                n > 0,
                f > 0,
        ;
    }
}

impl Clone for Recipe {
    fn clone(&self) -> (copy: Recipe)
        ensures
            copy@ == self@,
            self.wf() ==> copy.wf(),
    {
        let map = self.map.clone();
        proof {
            assert forall|i: int| 0 <= i < self.map.cells().len() implies cell_views(map.cells())[i]
                == cell_views(self.map.cells())[i] && (map.cells()[i] matches Some(o)
                ==> self.map.cells()[i].is_some() && o@ == self.map.cells()[i].unwrap()@) by {
                assert(cloned_cell(self.map.cells()[i], map.cells()[i]));
                match (self.map.cells()[i], map.cells()[i]) {
                    (Some(x), Some(y)) => {
                        assert(cloned::<Orientation>(x, y));
                        assert(x@ =~= y@);
                    },
                    _ => {},
                }
            }
            assert(cell_views(map.cells()) =~= cell_views(self.map.cells()));
        }
        Recipe { n: self.n, m: self.m, map }
    }
}

impl PartialEq for Recipe {
    fn eq(&self, other: &Recipe) -> (equal: bool) {
        self.n == other.n && self.m == other.m && self.map == other.map
    }
}

impl vstd::std_specs::cmp::PartialEqSpecImpl for Recipe {
    open spec fn obeys_eq_spec() -> bool {
        true
    }

    open spec fn eq_spec(&self, other: &Recipe) -> bool {
        self.n == other.n && self.m == other.m && self.map.same_as(&other.map)
    }
}

} // verus!
