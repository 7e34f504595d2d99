//! The incremental constraint engine: a recipe under construction, the
//! brick footprints that follow from it for each dimension tuple, and the
//! occupancy of every grid slice by every edge length.

use std::collections::HashMap;

use vstd::prelude::*;
use vstd::arithmetic::power::pow;

use crate::combinatorics::{
    combinations, combinations_spec, is_increasing, lemma_combinations_complete,
    lemma_combinations_increasing, lemma_combinations_members, rows,
};
use crate::grid::{
    axis_spec, coords_spec, cube_shape, flat_index, in_bounds, lemma_coords_at, lemma_coords_of_flat_index,
    lemma_flat_index_range, lemma_step_back_index, volume,
};
use crate::interval::Interval;
use crate::ndarray::{empty_cells, NdArray};
use crate::plot::Rectangle;
use crate::utils::{is_excluded, lemma_except_len, lemma_filter_members, list_except};
use crate::recipe::{cell_views, is_orientation, Recipe};
use crate::{Coord, DimensionTuple, HyperRectangle, IntType, Orientation};

verus! {

broadcast use vstd::std_specs::hash::group_hash_axioms;

/// A recipe under construction, with what follows from it: the footprint of
/// every brick for each dimension tuple, and the counters of the slices.
pub struct RecipeBuilder {
    n: usize,
    m: usize,
    dimension_tuples: Vec<DimensionTuple>,
    recipe: Recipe,
    packings: Vec<NdArray<HyperRectangle>>,
    subgrid_counts: Vec<Vec<HashMap<usize, usize>>>,
    subgrid_limit: usize,
}

/// What a `RecipeBuilder` stands for.
pub struct BuilderState {
    /// The side of the grid.
    pub n: usize,
    /// The number of axes.
    pub m: usize,
    /// The dimension tuples that are tested jointly.
    pub tuples: Seq<Seq<IntType>>,
    /// The orientation of each cell in row-major order, if it has one.
    pub cells: Seq<Option<Seq<usize>>>,
    /// For each dimension tuple, the footprint of the brick in each cell.
    pub rects: Seq<Seq<Option<Seq<Interval>>>>,
    /// For each axis and each level, how often each edge length is used
    /// along that axis among the cells of that level.
    pub counts: Seq<Seq<Seq<usize>>>,
    /// The most that one edge length may be used in one slice.
    pub limit: usize,
}

/// The dimension tuples, as sequences.
pub open spec fn tuple_views(tuples: Seq<DimensionTuple>) -> Seq<Seq<IntType>> {
    Seq::new(tuples.len(), |t: int| tuples[t]@)
}

/// What a counter map holds for edge length `k`: an edge length that was
/// never counted stands at zero.
pub open spec fn counter(map: Map<usize, usize>, k: int) -> usize {
    if map.contains_key(k as usize) {
        map[k as usize]
    } else {
        0
    }
}

/// The counter for edge length `k` on level `l` of axis `a`.
pub open spec fn counter_at(counts: Seq<Vec<HashMap<usize, usize>>>, a: int, l: int, k: int) -> usize {
    counter(counts[a]@[l]@, k)
}

/// The counters, as sequences: for each axis and each level, one counter for
/// each edge length.
pub open spec fn count_views(counts: Seq<Vec<HashMap<usize, usize>>>) -> Seq<Seq<Seq<usize>>> {
    Seq::new(
        counts.len(),
        |a: int|
            Seq::new(
                counts[a]@.len(),
                |l: int| Seq::new(counts[a]@.len(), |k: int| counter_at(counts, a, l, k)),
            ),
    )
}

/// The footprint stores, as sequences.
pub open spec fn packing_views(packings: Seq<NdArray<HyperRectangle>>) -> Seq<
    Seq<Option<Seq<Interval>>>,
> {
    Seq::new(packings.len(), |t: int| cell_views(packings[t].cells()))
}

/// Every tuple has `n` positive edge lengths, and `n` times any of them fits
/// the integer type, so that no brick reaches beyond it.
pub open spec fn valid_tuples(n: usize, tuples: Seq<Seq<IntType>>) -> bool {
    &&& forall|t: int| 0 <= t < tuples.len() ==> (#[trigger] tuples[t]).len() == n
    &&& forall|t: int, k: int|
        0 <= t < tuples.len() && 0 <= k < n ==> 0 < #[trigger] tuples[t][k] && fits_times(
            tuples[t][k] as int,
            n,
        )
}

/// Whether `n` times `edge` fits the integer type.
pub open spec fn fits_times(edge: int, n: usize) -> bool {
    edge * n <= IntType::MAX
}

/// `n` to the power `n - 2`, or as much of it as the machine word holds: the
/// bound on the use of one edge length in one slice.
pub open spec fn default_limit(n: usize) -> usize {
    let exponent = if n >= 2 {
        (n - 2) as nat
    } else {
        0nat
    };
    if pow(n as int, exponent) <= usize::MAX {
        pow(n as int, exponent) as usize
    } else {
        usize::MAX
    }
}

/// The coordinate one step before `c` along axis `a`.
pub open spec fn step_back(c: Seq<usize>, a: int) -> Seq<usize> {
    c.update(a, (c[a] - 1) as usize)
}

/// Where the brick at `c` begins along axis `a`: at the end of its
/// foundation, the brick one step back along that axis, and at 0 where there
/// is no such brick.
pub open spec fn foundation_end(
    n: usize,
    m: usize,
    rects: Seq<Option<Seq<Interval>>>,
    c: Seq<usize>,
    a: int,
) -> int {
    if c[a] == 0 {
        0
    } else {
        match rects[flat_index(cube_shape(n, m), step_back(c, a))] {
            Some(r) => r[a].end as int,
            None => 0,
        }
    }
}

/// The footprint of a brick put at `c` with orientation `o`, given the
/// footprints `rects` of the bricks that are there.
pub open spec fn placed_rect(
    n: usize,
    m: usize,
    tuple: Seq<IntType>,
    rects: Seq<Option<Seq<Interval>>>,
    c: Seq<usize>,
    o: Seq<usize>,
) -> Seq<Interval> {
    Seq::new(
        m as nat,
        |a: int|
            Interval {
                begin: foundation_end(n, m, rects, c, a) as IntType,
                end: (foundation_end(n, m, rects, c, a) + tuple[o[a] as int]) as IntType,
            },
    )
}

/// Whether a cell counts for edge length `k` on level `l` of axis `a`.
pub open spec fn counts_here(
    cell: Option<Seq<usize>>,
    coord: Seq<usize>,
    a: int,
    l: int,
    k: int,
) -> bool {
    cell matches Some(o) && coord[a] == l && o[a] == k
}

/// Among the first `upto` cells, the number of those on level `l` of axis
/// `a` whose orientation takes edge length `k` for that axis.
pub open spec fn count_cells(
    n: usize,
    m: usize,
    cells: Seq<Option<Seq<usize>>>,
    a: int,
    l: int,
    k: int,
    upto: nat,
) -> nat
    decreases upto,
{
    if upto == 0 {
        0
    } else {
        count_cells(n, m, cells, a, l, k, (upto - 1) as nat) + if counts_here(
            cells[upto - 1],
            coords_spec(cube_shape(n, m))[upto - 1],
            a,
            l,
            k,
        ) {
            1nat
        } else {
            0nat
        }
    }
}

/// The occupancy counters that belong to an assignment.
pub open spec fn counts_of(n: usize, m: usize, cells: Seq<Option<Seq<usize>>>) -> Seq<
    Seq<Seq<usize>>,
> {
    Seq::new(
        m as nat,
        |a: int|
            Seq::new(
                n as nat,
                |l: int|
                    Seq::new(
                        n as nat,
                        |k: int| count_cells(n, m, cells, a, l, k, cells.len()) as usize,
                    ),
            ),
    )
}

/// Whether `r` can be the footprint of a brick with orientation `o` at
/// `coord`: along each axis its width is the edge length that `o` names, and
/// it begins no further out than the bricks before it can reach.
pub open spec fn fits(
    n: usize,
    m: usize,
    tuple: Seq<IntType>,
    coord: Seq<usize>,
    o: Seq<usize>,
    r: Seq<Interval>,
) -> bool {
    &&& r.len() == m
    &&& forall|a: int|
        0 <= a < m ==> {
            &&& 0 <= (#[trigger] r[a]).begin
            &&& within_reach(r[a].begin as int, coord[a], n)
            &&& r[a].end == r[a].begin + tuple[o[a] as int]
        }
}

/// Whether `level` bricks of the largest size admitted can reach `begin`.
pub open spec fn within_reach(begin: int, level: usize, n: usize) -> bool {
    begin * n <= level * IntType::MAX
}

/// The state after a brick with orientation `o` has been put at `c`.
pub open spec fn after_insert(s: BuilderState, c: Seq<usize>, o: Seq<usize>) -> BuilderState {
    let index = flat_index(cube_shape(s.n, s.m), c);
    let cells = s.cells.update(index, Some(o));
    BuilderState {
        n: s.n,
        m: s.m,
        tuples: s.tuples,
        cells,
        rects: Seq::new(
            s.rects.len(),
            |t: int|
                s.rects[t].update(index, Some(placed_rect(s.n, s.m, s.tuples[t], s.rects[t], c, o))),
        ),
        counts: counts_of(s.n, s.m, cells),
        limit: s.limit,
    }
}

/// The state after the brick at `c` has been taken away.
pub open spec fn after_remove(s: BuilderState, c: Seq<usize>) -> BuilderState {
    let index = flat_index(cube_shape(s.n, s.m), c);
    let cells = s.cells.update(index, None);
    BuilderState {
        n: s.n,
        m: s.m,
        tuples: s.tuples,
        cells,
        rects: Seq::new(s.rects.len(), |t: int| s.rects[t].update(index, None)),
        counts: counts_of(s.n, s.m, cells),
        limit: s.limit,
    }
}

impl BuilderState {
    /// The grid.
    pub open spec fn shape(self) -> Seq<usize> {
        cube_shape(self.n, self.m)
    }

    /// The state is one that a builder can be in.
    pub open spec fn wf(self) -> bool {
        &&& valid_tuples(self.n, self.tuples)
        &&& self.cells.len() == volume(self.shape())
        &&& forall|i: int|
            0 <= i < self.cells.len() ==> (#[trigger] self.cells[i] matches Some(o)
                ==> is_orientation(o, self.n, self.m))
        &&& self.rects.len() == self.tuples.len()
        &&& forall|t: int|
            0 <= t < self.rects.len() ==> (#[trigger] self.rects[t]).len() == self.cells.len()
        &&& forall|t: int, i: int|
            0 <= t < self.rects.len() && 0 <= i < self.cells.len() ==> (
            #[trigger] self.rects[t][i]).is_some() == self.cells[i].is_some()
        &&& forall|t: int, i: int|
            0 <= t < self.rects.len() && 0 <= i < self.cells.len() ==> (
            #[trigger] self.rects[t][i] matches Some(r) ==> fits(
                self.n,
                self.m,
                self.tuples[t],
                coords_spec(self.shape())[i],
                self.cells[i].unwrap(),
                r,
            ))
        &&& self.counts == counts_of(self.n, self.m, self.cells)
    }

    /// The orientation at `c`, if the cell is filled.
    pub open spec fn orientation_at(self, c: Seq<usize>) -> Option<Seq<usize>> {
        self.cells[flat_index(self.shape(), c)]
    }

    /// The footprint at `c` for dimension tuple `t`, if the cell is filled.
    pub open spec fn rect_at(self, t: int, c: Seq<usize>) -> Option<Seq<Interval>> {
        self.rects[t][flat_index(self.shape(), c)]
    }

    /// Whether the cell at `c` is filled.
    pub open spec fn filled(self, c: Seq<usize>) -> bool {
        self.orientation_at(c).is_some()
    }
}

/// Among the first `upto` cells at most `upto` count.
pub proof fn lemma_count_bound(
    n: usize,
    m: usize,
    cells: Seq<Option<Seq<usize>>>,
    a: int,
    l: int,
    k: int,
    upto: nat,
)
    ensures
        count_cells(n, m, cells, a, l, k, upto) <= upto,
    decreases upto,
{
    if upto > 0 {
        lemma_count_bound(n, m, cells, a, l, k, (upto - 1) as nat);
    }
}

/// Changing one cell changes a count by what the old cell and the new cell
/// contribute to it.
pub proof fn lemma_count_update(
    n: usize,
    m: usize,
    cells: Seq<Option<Seq<usize>>>,
    index: int,
    cell: Option<Seq<usize>>,
    a: int,
    l: int,
    k: int,
    upto: nat,
)
    requires
        0 <= index < cells.len(),
        upto <= cells.len(),
    ensures
        count_cells(n, m, cells.update(index, cell), a, l, k, upto) + (if index < upto
            && counts_here(cells[index], coords_spec(cube_shape(n, m))[index], a, l, k) {
            1nat
        } else {
            0nat
        }) == count_cells(n, m, cells, a, l, k, upto) + (if index < upto && counts_here(
            cell,
            coords_spec(cube_shape(n, m))[index],
            a,
            l,
            k,
        ) {
            1nat
        } else {
            0nat
        }),
    decreases upto,
{
    if upto > 0 {
        lemma_count_update(n, m, cells, index, cell, a, l, k, (upto - 1) as nat);
    }
}

/// No cell of the empty assignment counts.
pub proof fn lemma_count_empty(n: usize, m: usize, len: nat, a: int, l: int, k: int, upto: nat)
    requires
        upto <= len,
    ensures
        count_cells(n, m, Seq::new(len, |i: int| None::<Seq<usize>>), a, l, k, upto) == 0,
    decreases upto,
{
    if upto > 0 {
        lemma_count_empty(n, m, len, a, l, k, (upto - 1) as nat);
    }
}

/// The state of a builder in which no brick has been placed.
pub open spec fn initial_state(n: usize, m: usize, tuples: Seq<Seq<IntType>>) -> BuilderState {
    let cells = Seq::new(volume(cube_shape(n, m)), |i: int| None::<Seq<usize>>);
    BuilderState {
        n,
        m,
        tuples,
        cells,
        rects: Seq::new(
            tuples.len(),
            |t: int| Seq::new(volume(cube_shape(n, m)), |i: int| None::<Seq<Interval>>),
        ),
        counts: counts_of(n, m, cells),
        limit: default_limit(n),
    }
}

/// Whether the footprints of one packing fit the assignment: a footprint
/// stands exactly where a cell is filled, and fits the orientation there.
pub open spec fn packing_fits(
    n: usize,
    m: usize,
    tuple: Seq<IntType>,
    cells: Seq<Option<Seq<usize>>>,
    rects: Seq<Option<Seq<Interval>>>,
) -> bool {
    &&& rects.len() == cells.len()
    &&& forall|i: int|
        0 <= i < cells.len() ==> (#[trigger] rects[i] matches Some(r) ==> cells[i].is_some() && fits(
            n,
            m,
            tuple,
            coords_spec(cube_shape(n, m))[i],
            cells[i].unwrap(),
            r,
        ))
}

pub(crate) fn copy_of(v: &Vec<usize>) -> (copy: Vec<usize>)
    ensures
        copy@ == v@,
{
    let mut copy: Vec<usize> = Vec::new();
    let mut j: usize = 0;
    while j < v.len()
        invariant
            j <= v@.len(),
            copy@ == v@.take(j as int),
        decreases v@.len() - j,
    {
        copy.push(v[j]);
        j += 1;
    }
    assert(v@.take(v@.len() as int) =~= v@);
    copy
}

fn limit_for(n: usize) -> (limit: usize)
    ensures
        limit == default_limit(n),
{
    let mut limit: usize = 1;
    let mut i: usize = 2;
    proof {
        reveal(pow);
        assert(pow(n as int, 0) == 1);
    }
    if n < 2 {
        return limit;
    }
    while i < n
        invariant
            2 <= i <= n,
            pow(n as int, (i - 2) as nat) >= 1,
            limit == if pow(n as int, (i - 2) as nat) <= usize::MAX {
                pow(n as int, (i - 2) as nat) as usize
            } else {
                usize::MAX
            },
        decreases n - i,
    {
        proof {
            reveal(pow);
            let before = pow(n as int, (i - 2) as nat);
            assert(pow(n as int, (i - 1) as nat) == n * before);
            assert(n * before >= before) by (nonlinear_arith)
                requires
                    n >= 1,
                    before >= 1,
            ;
            assert(limit * n == n * limit) by (nonlinear_arith);
            if limit == usize::MAX {
                assert(limit * n > usize::MAX) by (nonlinear_arith)
                    requires
                        limit == usize::MAX,
                        n >= 2,
                ;
            }
        }
        limit = match limit.checked_mul(n) {
            Some(v) => v,
            None => usize::MAX,
        };
        i += 1;
    }
    limit
}

fn place(
    packing: &mut NdArray<HyperRectangle>,
    n: usize,
    m: usize,
    tuple: &DimensionTuple,
    coord: &Coord,
    orientation: &Orientation,
    Ghost(cells): Ghost<Seq<Option<Seq<usize>>>>,
)
    requires
        old(packing).wf(),
        old(packing).spec_shape() == cube_shape(n, m),
        in_bounds(cube_shape(n, m), coord@),
        is_orientation(orientation@, n, m),
        tuple@.len() == n,
        forall|k: int| 0 <= k < n ==> 0 < #[trigger] tuple@[k] && fits_times(tuple@[k] as int, n),
        forall|i: int|
            0 <= i < cells.len() ==> (#[trigger] cells[i] matches Some(o) ==> is_orientation(o, n, m)),
        packing_fits(n, m, tuple@, cells, cell_views(old(packing).cells())),
    ensures
        final(packing).wf(),
        final(packing).spec_shape() == cube_shape(n, m),
        cell_views(final(packing).cells()) == cell_views(old(packing).cells()).update(
            flat_index(cube_shape(n, m), coord@),
            Some(
                placed_rect(n, m, tuple@, cell_views(old(packing).cells()), coord@, orientation@),
            ),
        ),
        fits(
            n,
            m,
            tuple@,
            coord@,
            orientation@,
            placed_rect(n, m, tuple@, cell_views(old(packing).cells()), coord@, orientation@),
        ),
{
    let ghost shape = cube_shape(n, m);
    let ghost rects = cell_views(packing.cells());
    let ghost target = placed_rect(n, m, tuple@, rects, coord@, orientation@);
    let mut rect: HyperRectangle = Vec::new();
    let mut dim: usize = 0;
    proof {
        lemma_flat_index_range(shape, coord@);
    }
    while dim < m
        invariant
            dim <= m,
            packing.wf(),
            packing.spec_shape() == shape,
            shape == cube_shape(n, m),
            rects == cell_views(packing.cells()),
            target == placed_rect(n, m, tuple@, rects, coord@, orientation@),
            in_bounds(shape, coord@),
            is_orientation(orientation@, n, m),
            tuple@.len() == n,
            forall|k: int| 0 <= k < n ==> 0 < #[trigger] tuple@[k] && fits_times(tuple@[k] as int, n),
            forall|i: int|
                0 <= i < cells.len() ==> (#[trigger] cells[i] matches Some(o) ==> is_orientation(
                    o,
                    n,
                    m,
                )),
            packing_fits(n, m, tuple@, cells, rects),
            rect@ == target.take(dim as int),
            forall|a: int|
                0 <= a < dim ==> {
                    &&& 0 <= (#[trigger] target[a]).begin
                    &&& within_reach(target[a].begin as int, coord@[a], n)
                    &&& target[a].end == target[a].begin + tuple@[orientation@[a] as int]
                },
        decreases m - dim,
    {
        let level = coord[dim];
        assert(coord@[dim as int] < shape[dim as int]);
        let mut begin: IntType = 0;
        if level > 0 {
            let mut index = copy_of(coord);
            index[dim] = level - 1;
            proof {
                assert(index@ =~= step_back(coord@, dim as int));
                assert(in_bounds(shape, index@)) by {
                    assert forall|a: int| 0 <= a < shape.len() implies #[trigger] index@[a]
                        < shape[a] by {
                        assert(coord@[a] < shape[a]);
                    }
                }
                lemma_flat_index_range(shape, index@);
                lemma_coords_of_flat_index(shape, index@);
            }
            match packing.get(&index) {
                Some(found) => {
                    proof {
                        let i = flat_index(shape, index@);
                        assert(rects[i] == Some(found@));
                        let o = cells[i].unwrap();
                        assert(fits(n, m, tuple@, index@, o, found@));
                        assert(is_orientation(o, n, m));
                        let b = found@[dim as int].begin as int;
                        let e = tuple@[o[dim as int] as int] as int;
                        assert(fits_times(e, n));
                        assert(within_reach(b, index@[dim as int], n));
                        assert((b + e) * n <= level * IntType::MAX) by (nonlinear_arith)
                            requires
                                b * n <= (level - 1) * IntType::MAX,
                                e * n <= IntType::MAX,
                        ;
                    }
                    begin = found[dim].end;
                },
                None => {},
            }
        }
        let edge = tuple[orientation[dim]];
        proof {
            let b = begin as int;
            let e = edge as int;
            assert(b == foundation_end(n, m, rects, coord@, dim as int));
            assert(fits_times(e, n));
            assert(0 <= b);
            assert(b * n <= level * IntType::MAX) by (nonlinear_arith)
                requires
                    level == 0 ==> b == 0,
                    level > 0 ==> b * n <= level * IntType::MAX,
                    0 <= b,
                    0 <= n,
            ;
            assert(b + e <= IntType::MAX) by (nonlinear_arith)
                requires
                    b * n <= level * IntType::MAX,
                    e * n <= IntType::MAX,
                    level + 1 <= n,
                    0 <= b,
                    0 < e,
            ;
        }
        rect.push(Interval { begin, end: begin + edge });
        proof {
            assert(rect@ =~= target.take(dim + 1));
        }
        dim += 1;
    }
    proof {
        assert(target.take(m as int) =~= target);
        assert(cell_views(packing.cells().update(flat_index(shape, coord@), Some(rect))) =~= rects.update(
            flat_index(shape, coord@),
            Some(target),
        ));
    }
    packing.insert(coord, rect);
}

/// Whether the counters for the axes from `from` up to `to` are those of the
/// assignment `cells`.
pub open spec fn counters_match(
    counts: Seq<Vec<HashMap<usize, usize>>>,
    n: usize,
    m: usize,
    cells: Seq<Option<Seq<usize>>>,
    from: int,
    to: int,
) -> bool {
    forall|a: int, l: int, k: int|
        from <= a < to && 0 <= l < n && 0 <= k < n ==> #[trigger] counter_at(counts, a, l, k) == count_cells(
            n,
            m,
            cells,
            a,
            l,
            k,
            cells.len(),
        )
}

/// Whether there is a counter map for each axis and level.
pub open spec fn counters_shaped(counts: Seq<Vec<HashMap<usize, usize>>>, n: usize, m: usize) -> bool {
    &&& counts.len() == m
    &&& forall|a: int| 0 <= a < m ==> (#[trigger] counts[a])@.len() == n
}

proof fn lemma_counters(counts: Seq<Vec<HashMap<usize, usize>>>, n: usize, m: usize, cells: Seq<Option<Seq<usize>>>)
    requires
        cells.len() <= usize::MAX,
    ensures
        (counters_shaped(counts, n, m) && counters_match(counts, n, m, cells, 0, m as int)) == (
        count_views(counts) == counts_of(n, m, cells)),
{
    let expected = counts_of(n, m, cells);
    let views = count_views(counts);
    assert forall|a: int, l: int, k: int| 0 <= a < m && 0 <= l < n && 0 <= k < n implies (
    #[trigger] expected[a][l][k]) == count_cells(n, m, cells, a, l, k, cells.len()) by {
        lemma_count_bound(n, m, cells, a, l, k, cells.len());
    }
    if counters_shaped(counts, n, m) && counters_match(counts, n, m, cells, 0, m as int) {
        assert forall|a: int| 0 <= a < m implies #[trigger] views[a] == expected[a] by {
            assert(counts[a]@.len() == n);
            assert forall|l: int| 0 <= l < n implies #[trigger] views[a][l] == expected[a][l] by {
                assert forall|k: int| 0 <= k < n implies #[trigger] views[a][l][k]
                    == expected[a][l][k] by {
                    assert(counter_at(counts, a, l, k) == count_cells(n, m, cells, a, l, k, cells.len()));
                }
                assert(views[a][l] =~= expected[a][l]);
            }
            assert(views[a] =~= expected[a]);
        }
        assert(views =~= expected);
    }
    if views == expected {
        assert(views.len() == expected.len());
        assert(counts.len() == m);
        assert forall|a: int| 0 <= a < m implies (#[trigger] counts[a])@.len() == n by {
            assert(views[a].len() == expected[a].len());
        }
        assert forall|a: int, l: int, k: int|
            0 <= a < m && 0 <= l < n && 0 <= k < n implies #[trigger] counter_at(counts, a, l, k)
            == count_cells(n, m, cells, a, l, k, cells.len()) by {
            assert(views[a][l][k] == expected[a][l][k]);
        }
    }
}

/// Putting a brick into an empty cell of a well-formed state, with
/// footprints that fit, gives a well-formed state.
pub proof fn lemma_insert_preserves_wf(s: BuilderState, c: Seq<usize>, o: Seq<usize>)
    requires
        s.wf(),
        in_bounds(s.shape(), c),
        !s.filled(c),
        is_orientation(o, s.n, s.m),
        forall|t: int|
            0 <= t < s.rects.len() ==> fits(
                s.n,
                s.m,
                s.tuples[t],
                c,
                o,
                #[trigger] placed_rect(s.n, s.m, s.tuples[t], s.rects[t], c, o),
            ),
    ensures
        after_insert(s, c, o).wf(),
{
    let post = after_insert(s, c, o);
    let index = flat_index(s.shape(), c);
    lemma_flat_index_range(s.shape(), c);
    lemma_coords_of_flat_index(s.shape(), c);
    assert forall|t: int, i: int|
        0 <= t < post.rects.len() && 0 <= i < post.cells.len() implies (
    #[trigger] post.rects[t][i]).is_some() == post.cells[i].is_some() by {
        assert(s.rects[t].len() == s.cells.len());
        if i != index {
            assert(s.rects[t][i].is_some() == s.cells[i].is_some());
        }
    }
    assert forall|t: int, i: int|
        0 <= t < post.rects.len() && 0 <= i < post.cells.len() implies (
    #[trigger] post.rects[t][i] matches Some(r) ==> fits(
        post.n,
        post.m,
        post.tuples[t],
        coords_spec(post.shape())[i],
        post.cells[i].unwrap(),
        r,
    )) by {
        assert(s.rects[t].len() == s.cells.len());
        if i != index {
            assert(s.rects[t][i] matches Some(r) ==> fits(
                s.n,
                s.m,
                s.tuples[t],
                coords_spec(s.shape())[i],
                s.cells[i].unwrap(),
                r,
            ));
        } else {
            assert(fits(s.n, s.m, s.tuples[t], c, o, placed_rect(s.n, s.m, s.tuples[t], s.rects[t], c, o)));
        }
    }
    assert forall|t: int| 0 <= t < post.rects.len() implies (#[trigger] post.rects[t]).len()
        == post.cells.len() by {
        assert(s.rects[t].len() == s.cells.len());
    }
}

/// Taking the brick out of a cell of a well-formed state gives a well-formed
/// state.
pub proof fn lemma_remove_preserves_wf(s: BuilderState, c: Seq<usize>)
    requires
        s.wf(),
        in_bounds(s.shape(), c),
    ensures
        after_remove(s, c).wf(),
{
    let post = after_remove(s, c);
    let index = flat_index(s.shape(), c);
    lemma_flat_index_range(s.shape(), c);
    assert forall|t: int, i: int|
        0 <= t < post.rects.len() && 0 <= i < post.cells.len() implies (
    #[trigger] post.rects[t][i]).is_some() == post.cells[i].is_some() by {
        assert(s.rects[t].len() == s.cells.len());
        if i != index {
            assert(s.rects[t][i].is_some() == s.cells[i].is_some());
        }
    }
    assert forall|t: int, i: int|
        0 <= t < post.rects.len() && 0 <= i < post.cells.len() implies (
    #[trigger] post.rects[t][i] matches Some(r) ==> fits(
        post.n,
        post.m,
        post.tuples[t],
        coords_spec(post.shape())[i],
        post.cells[i].unwrap(),
        r,
    )) by {
        assert(s.rects[t].len() == s.cells.len());
        if i != index {
            assert(s.rects[t][i] matches Some(r) ==> fits(
                s.n,
                s.m,
                s.tuples[t],
                coords_spec(s.shape())[i],
                s.cells[i].unwrap(),
                r,
            ));
        }
    }
    assert forall|t: int| 0 <= t < post.rects.len() implies (#[trigger] post.rects[t]).len()
        == post.cells.len() by {
        assert(s.rects[t].len() == s.cells.len());
    }
}

/// Undoing a placement restores the state: after a brick has been put into
/// an empty cell and taken out again, the assignment, the footprints and the
/// counters are what they were.
pub proof fn lemma_remove_undoes_insert(s: BuilderState, c: Seq<usize>, o: Seq<usize>)
    requires
        s.wf(),
        in_bounds(s.shape(), c),
        !s.filled(c),
    ensures
        after_remove(after_insert(s, c, o), c) == s,
{
    let mid = after_insert(s, c, o);
    let post = after_remove(mid, c);
    lemma_flat_index_range(s.shape(), c);
    let index = flat_index(s.shape(), c);
    assert(post.cells =~= s.cells);
    assert(post.rects =~= s.rects) by {
        assert forall|t: int| 0 <= t < s.rects.len() implies #[trigger] post.rects[t]
            == s.rects[t] by {
            assert(s.rects[t].len() == s.cells.len());
            assert(s.rects[t][index].is_some() == s.cells[index].is_some());
            assert(post.rects[t] =~= s.rects[t]);
        }
    }
}

/// The coordinate on the line through `c` along axis `a` at level `j`.
pub open spec fn on_line(c: Seq<usize>, a: int, j: int) -> Seq<usize> {
    c.update(a, j as usize)
}

/// No brick before the one at `c` on a grid line through `c` has, along
/// that line, the edge length that the brick at `c` has along it.
pub open spec fn line_ok(s: BuilderState, c: Seq<usize>) -> bool {
    forall|a: int, j: int|
        0 <= a < s.m && 0 <= j < c[a] ==> (s.orientation_at(#[trigger] on_line(c, a, j)) matches Some(
            other,
        ) ==> other[a] != s.orientation_at(c).unwrap()[a])
}

/// Whether `nb` is a cell of the grid no further than one step from `c`
/// along every axis.
pub open spec fn is_near(shape: Seq<usize>, c: Seq<usize>, nb: Seq<usize>) -> bool {
    &&& in_bounds(shape, nb)
    &&& forall|a: int| 0 <= a < shape.len() ==> c[a] <= #[trigger] nb[a] + 1 && nb[a] <= c[a] + 1
}

/// Whether `this` meets `other` along every axis.
pub open spec fn rects_intersect(this: Seq<Interval>, other: Seq<Interval>) -> bool {
    forall|a: int| 0 <= a < this.len() ==> (#[trigger] this[a]).spec_intersects(other[a])
}

/// Whether, for dimension tuple `t`, the brick at `c` meets the brick at
/// the neighbouring cell `nb` along every axis.
pub open spec fn overlap_with(s: BuilderState, t: int, c: Seq<usize>, nb: Seq<usize>) -> bool {
    &&& is_near(s.shape(), c, nb)
    &&& nb != c
    &&& s.rect_at(t, nb) matches Some(other)
    &&& rects_intersect(s.rect_at(t, c).unwrap(), other)
}

/// Whether, for one of the dimension tuples, the brick at `c` overlaps the
/// brick of a neighbouring cell.
pub open spec fn overlaps(s: BuilderState, c: Seq<usize>) -> bool {
    exists|t: int, nb: Seq<usize>| 0 <= t < s.rects.len() && #[trigger] overlap_with(s, t, c, nb)
}

/// In every slice through `c`, no edge length is used along the axis of the
/// slice more often than the limit allows.
pub open spec fn subgrid_ok(s: BuilderState, c: Seq<usize>) -> bool {
    forall|a: int, k: int|
        0 <= a < s.m && 0 <= k < s.n ==> #[trigger] s.counts[a][c[a] as int][k] <= s.limit
}

/// Whether `dirs` is a set of axes, written in increasing order and not
/// empty, along each of which `c` has a cell before it.
pub open spec fn is_direction_set(c: Seq<usize>, m: usize, dirs: Seq<usize>) -> bool {
    &&& dirs.len() > 0
    &&& is_increasing(dirs)
    &&& forall|i: int| 0 <= i < dirs.len() ==> (#[trigger] dirs[i]) < m && c[dirs[i] as int] > 0
}

/// The coordinate one step before `c` along every axis in `dirs`.
pub open spec fn stepped_back(c: Seq<usize>, dirs: Seq<usize>) -> Seq<usize> {
    Seq::new(
        c.len(),
        |a: int|
            if dirs.contains(a as usize) {
                (c[a] - 1) as usize
            } else {
                c[a]
            },
    )
}

/// The coordinate one step after `c` along axis `d` and one step before it
/// along axis `dir`.
pub open spec fn corner_coord(c: Seq<usize>, d: int, dir: int) -> Seq<usize> {
    c.update(d, (c[d] + 1) as usize).update(dir, (c[dir] - 1) as usize)
}

/// Whether, for dimension tuple `t`, the brick at `c` closes a sharp corner
/// with the brick one step back along the axes `dirs`, seen along the axis
/// `d` outside `dirs`: that brick, the foundation, reaches further along `d`
/// than the brick at `c`, and further along each axis of `dirs` than the
/// brick that lies one step on along `d` and one step back along that axis;
/// all these bricks are there.
pub open spec fn corner_at(s: BuilderState, t: int, c: Seq<usize>, dirs: Seq<usize>, d: int) -> bool {
    &&& !dirs.contains(d as usize)
    &&& c[d] + 1 < s.n
    &&& s.rect_at(t, stepped_back(c, dirs)).is_some()
    &&& s.rect_at(t, stepped_back(c, dirs)).unwrap()[d].end > s.rect_at(t, c).unwrap()[d].end
    &&& forall|i: int|
        0 <= i < dirs.len() ==> corner_beyond(s, t, c, dirs, d, #[trigger] dirs[i] as int)
}

/// Whether the brick at the corner cell for the axis `dir` is there and ends,
/// along `dir`, before the foundation does.
pub open spec fn corner_beyond(
    s: BuilderState,
    t: int,
    c: Seq<usize>,
    dirs: Seq<usize>,
    d: int,
    dir: int,
) -> bool {
    &&& s.rect_at(t, corner_coord(c, d, dir)).is_some()
    &&& s.rect_at(t, stepped_back(c, dirs)).unwrap()[dir].end > s.rect_at(
        t,
        corner_coord(c, d, dir),
    ).unwrap()[dir].end
}

/// Whether, for one of the dimension tuples, the brick at `c` closes a
/// sharp corner with the brick one step back along some set of axes.
pub open spec fn sharp_corner(s: BuilderState, c: Seq<usize>) -> bool {
    exists|t: int, dirs: Seq<usize>, d: int|
        0 <= t < s.rects.len() && is_direction_set(c, s.m, dirs) && 0 <= d < s.m
            && #[trigger] corner_at(s, t, c, dirs, d)
}

/// Whether the brick at `c` passes all four tests.
pub open spec fn is_valid_spec(s: BuilderState, c: Seq<usize>) -> bool {
    line_ok(s, c) && !overlaps(s, c) && !sharp_corner(s, c) && subgrid_ok(s, c)
}

/// Whether every brick that is there passes all four tests.
pub open spec fn validate_spec(s: BuilderState) -> bool {
    forall|i: int|
        0 <= i < s.cells.len() && (#[trigger] s.cells[i]).is_some() ==> is_valid_spec(
            s,
            coords_spec(s.shape())[i],
        )
}

fn contains_axis(list: &Vec<usize>, a: usize) -> (found: bool)
    ensures
        found == list@.contains(a),
{
    let mut i: usize = 0;
    while i < list.len()
        invariant
            i <= list@.len(),
            forall|j: int| 0 <= j < i ==> list@[j] != a,
        decreases list@.len() - i,
    {
        if list[i] == a {
            return true;
        }
        i += 1;
    }
    false
}

fn same_coord(a: &Coord, b: &Coord) -> (same: bool)
    ensures
        same == (a@ == b@),
{
    if a.len() != b.len() {
        return false;
    }
    let mut i: usize = 0;
    while i < a.len()
        invariant
            i <= a@.len(),
            a@.len() == b@.len(),
            forall|j: int| 0 <= j < i ==> a@[j] == b@[j],
        decreases a@.len() - i,
    {
        if a[i] != b[i] {
            return false;
        }
        i += 1;
    }
    assert(a@ =~= b@);
    true
}

fn all_intersect(this: &HyperRectangle, other: &HyperRectangle) -> (all: bool)
    requires
        this@.len() == other@.len(),
    ensures
        all == rects_intersect(this@, other@),
{
    let mut a: usize = 0;
    while a < this.len()
        invariant
            a <= this@.len(),
            this@.len() == other@.len(),
            forall|j: int| 0 <= j < a ==> (#[trigger] this@[j]).spec_intersects(other@[j]),
        decreases this@.len() - a,
    {
        if !this[a].intersects(&other[a]) {
            return false;
        }
        a += 1;
    }
    true
}

/// Whether every brick stands against its foundations: its footprint is
/// what `insert` would derive for it from the bricks that are there now.
pub open spec fn abuts(s: BuilderState) -> bool {
    forall|t: int, i: int|
        0 <= t < s.rects.len() && 0 <= i < s.cells.len() ==> (#[trigger] s.rects[t][i] matches Some(
            r,
        ) ==> r == placed_rect(
            s.n,
            s.m,
            s.tuples[t],
            s.rects[t],
            coords_spec(s.shape())[i],
            s.cells[i].unwrap(),
        ))
}

/// Whether no cell from index `from` on is filled.
pub open spec fn empty_from(s: BuilderState, from: int) -> bool {
    forall|i: int| from <= i < s.cells.len() ==> (#[trigger] s.cells[i]).is_none()
}

/// Where the brick at `c` begins along axis `a`, derived from the assignment
/// alone: the edge lengths of the bricks before it on the line through `c`
/// along `a`, added up from the last gap on.
pub open spec fn derived_begin(
    n: usize,
    m: usize,
    tuple: Seq<IntType>,
    cells: Seq<Option<Seq<usize>>>,
    c: Seq<usize>,
    a: int,
) -> int
    decreases c[a],
    when 0 <= a < c.len()
{
    if c[a] == 0 {
        0
    } else {
        match cells[flat_index(cube_shape(n, m), step_back(c, a))] {
            Some(o) => derived_begin(n, m, tuple, cells, step_back(c, a), a) + tuple[o[a] as int],
            None => 0,
        }
    }
}

/// The footprint of the brick at `c`, derived from the assignment alone.
pub open spec fn derived_rect(
    n: usize,
    m: usize,
    tuple: Seq<IntType>,
    cells: Seq<Option<Seq<usize>>>,
    c: Seq<usize>,
) -> Seq<Interval> {
    let o = cells[flat_index(cube_shape(n, m), c)].unwrap();
    Seq::new(
        m as nat,
        |a: int|
            Interval {
                begin: derived_begin(n, m, tuple, cells, c, a) as IntType,
                end: (derived_begin(n, m, tuple, cells, c, a) + tuple[o[a] as int]) as IntType,
            },
    )
}

/// The state that belongs to an assignment when every footprint and every
/// counter is derived from the assignment alone.
pub open spec fn derived_state(
    n: usize,
    m: usize,
    tuples: Seq<Seq<IntType>>,
    cells: Seq<Option<Seq<usize>>>,
    limit: usize,
) -> BuilderState {
    BuilderState {
        n,
        m,
        tuples,
        cells,
        rects: Seq::new(
            tuples.len(),
            |t: int|
                Seq::new(
                    cells.len(),
                    |i: int|
                        match cells[i] {
                            Some(o) => Some(
                                derived_rect(n, m, tuples[t], cells, coords_spec(cube_shape(n, m))[i]),
                            ),
                            None => None,
                        },
                ),
        ),
        counts: counts_of(n, m, cells),
        limit,
    }
}

/// A brick put behind all the bricks that are there, in row-major order,
/// leaves every brick standing against its foundations.
pub proof fn lemma_insert_preserves_abuts(s: BuilderState, c: Seq<usize>, o: Seq<usize>)
    requires
        s.wf(),
        abuts(s),
        in_bounds(s.shape(), c),
        empty_from(s, flat_index(s.shape(), c)),
    ensures
        abuts(after_insert(s, c, o)),
{
    let post = after_insert(s, c, o);
    let shape = s.shape();
    let index = flat_index(shape, c);
    lemma_flat_index_range(shape, c);
    lemma_coords_of_flat_index(shape, c);
    assert forall|t: int, i: int|
        0 <= t < post.rects.len() && 0 <= i < post.cells.len() implies (
    #[trigger] post.rects[t][i] matches Some(r) ==> r == placed_rect(
        post.n,
        post.m,
        post.tuples[t],
        post.rects[t],
        coords_spec(post.shape())[i],
        post.cells[i].unwrap(),
    )) by {
        assert(s.rects[t].len() == s.cells.len());
        if post.rects[t][i].is_some() {
            let ci = coords_spec(shape)[i];
            let oi = post.cells[i].unwrap();
            lemma_coords_at(shape, i);
            if i != index {
                assert(s.rects[t][i].is_some() == s.cells[i].is_some());
                assert(i < index);
            }
            assert forall|a: int| 0 <= a < s.m implies foundation_end(
                s.n,
                s.m,
                post.rects[t],
                ci,
                a,
            ) == foundation_end(s.n, s.m, s.rects[t], ci, a) by {
                if ci[a] > 0 {
                    lemma_step_back_index(shape, ci, a);
                    lemma_flat_index_range(shape, step_back(ci, a));
                }
            }
            assert(placed_rect(s.n, s.m, s.tuples[t], post.rects[t], ci, oi) =~= placed_rect(
                s.n,
                s.m,
                s.tuples[t],
                s.rects[t],
                ci,
                oi,
            ));
            if i != index {
                assert(s.rects[t][i] matches Some(r) ==> r == placed_rect(
                    s.n,
                    s.m,
                    s.tuples[t],
                    s.rects[t],
                    ci,
                    s.cells[i].unwrap(),
                ));
            }
        }
    }
}

/// Taking away the last brick in row-major order leaves every brick
/// standing against its foundations.
pub proof fn lemma_remove_preserves_abuts(s: BuilderState, c: Seq<usize>)
    requires
        s.wf(),
        abuts(s),
        in_bounds(s.shape(), c),
        empty_from(s, flat_index(s.shape(), c) + 1),
    ensures
        abuts(after_remove(s, c)),
{
    let post = after_remove(s, c);
    let shape = s.shape();
    let index = flat_index(shape, c);
    lemma_flat_index_range(shape, c);
    assert forall|t: int, i: int|
        0 <= t < post.rects.len() && 0 <= i < post.cells.len() implies (
    #[trigger] post.rects[t][i] matches Some(r) ==> r == placed_rect(
        post.n,
        post.m,
        post.tuples[t],
        post.rects[t],
        coords_spec(post.shape())[i],
        post.cells[i].unwrap(),
    )) by {
        assert(s.rects[t].len() == s.cells.len());
        if post.rects[t][i].is_some() {
            let ci = coords_spec(shape)[i];
            let oi = post.cells[i].unwrap();
            lemma_coords_at(shape, i);
            assert(i != index);
            assert(s.rects[t][i].is_some() == s.cells[i].is_some());
            assert(i < index);
            assert forall|a: int| 0 <= a < s.m implies foundation_end(
                s.n,
                s.m,
                post.rects[t],
                ci,
                a,
            ) == foundation_end(s.n, s.m, s.rects[t], ci, a) by {
                if ci[a] > 0 {
                    lemma_step_back_index(shape, ci, a);
                    lemma_flat_index_range(shape, step_back(ci, a));
                }
            }
            assert(placed_rect(s.n, s.m, s.tuples[t], post.rects[t], ci, oi) =~= placed_rect(
                s.n,
                s.m,
                s.tuples[t],
                s.rects[t],
                ci,
                oi,
            ));
            assert(s.rects[t][i] matches Some(r) ==> r == placed_rect(
                s.n,
                s.m,
                s.tuples[t],
                s.rects[t],
                ci,
                s.cells[i].unwrap(),
            ));
        }
    }
}

proof fn lemma_derived_begin(s: BuilderState, t: int, c: Seq<usize>, a: int)
    requires
        s.wf(),
        abuts(s),
        0 <= t < s.rects.len(),
        in_bounds(s.shape(), c),
        s.filled(c),
        0 <= a < s.m,
    ensures
        s.rect_at(t, c).unwrap()[a].begin == derived_begin(s.n, s.m, s.tuples[t], s.cells, c, a),
    decreases c[a],
{
    let shape = s.shape();
    let i = flat_index(shape, c);
    lemma_flat_index_range(shape, c);
    lemma_coords_of_flat_index(shape, c);
    assert(s.rects[t].len() == s.cells.len());
    assert(s.rects[t][i].is_some() == s.cells[i].is_some());
    let r = s.rects[t][i].unwrap();
    assert(r == placed_rect(s.n, s.m, s.tuples[t], s.rects[t], c, s.cells[i].unwrap()));
    if c[a] > 0 {
        let before = step_back(c, a);
        lemma_step_back_index(shape, c, a);
        let f = flat_index(shape, before);
        lemma_flat_index_range(shape, before);
        lemma_coords_of_flat_index(shape, before);
        assert(s.rects[t][f].is_some() == s.cells[f].is_some());
        if s.cells[f].is_some() {
            lemma_derived_begin(s, t, before, a);
            let rf = s.rects[t][f].unwrap();
            assert(fits(s.n, s.m, s.tuples[t], before, s.cells[f].unwrap(), rf));
            assert(rf[a].end == rf[a].begin + s.tuples[t][s.cells[f].unwrap()[a] as int]);
        }
    }
}

/// Replaying an assignment and deriving it from scratch agree: a
/// well-formed state in which every brick stands against its foundations is
/// the state derived from its assignment alone. So every test on it is the
/// test on the derived footprints and counters.
pub proof fn lemma_abutting_state_is_derived(s: BuilderState)
    requires
        s.wf(),
        abuts(s),
    ensures
        s == derived_state(s.n, s.m, s.tuples, s.cells, s.limit),
        validate_spec(s) == validate_spec(derived_state(s.n, s.m, s.tuples, s.cells, s.limit)),
{
    let d = derived_state(s.n, s.m, s.tuples, s.cells, s.limit);
    let shape = s.shape();
    assert forall|t: int| 0 <= t < s.rects.len() implies #[trigger] s.rects[t] == d.rects[t] by {
        assert(s.rects[t].len() == s.cells.len());
        assert forall|i: int| 0 <= i < s.cells.len() implies #[trigger] s.rects[t][i]
            == d.rects[t][i] by {
            assert(s.rects[t][i].is_some() == s.cells[i].is_some());
            if s.cells[i].is_some() {
                let c = coords_spec(shape)[i];
                lemma_coords_at(shape, i);
                let r = s.rects[t][i].unwrap();
                let o = s.cells[i].unwrap();
                assert(fits(s.n, s.m, s.tuples[t], c, o, r));
                assert forall|a: int| 0 <= a < s.m implies #[trigger] r[a] == derived_rect(
                    s.n,
                    s.m,
                    s.tuples[t],
                    s.cells,
                    c,
                )[a] by {
                    lemma_derived_begin(s, t, c, a);
                }
                assert(r =~= derived_rect(s.n, s.m, s.tuples[t], s.cells, c));
            }
        }
        assert(s.rects[t] =~= d.rects[t]);
    }
    assert(s.rects =~= d.rects);
}

/// The axes that a cross-section leaves free: those of the `m` axes that
/// are not among `fixed`, in increasing order.
pub open spec fn varying_axes(m: usize, fixed: Seq<usize>) -> Seq<usize> {
    axis_spec(m).filter(|v: usize| !is_excluded(fixed, v))
}

/// The axes that `fixed` names.
pub open spec fn fixed_axes(fixed: Seq<(usize, usize)>) -> Seq<usize> {
    Seq::new(fixed.len(), |k: int| fixed[k].0)
}

/// The coordinate of the cell of a cross-section: `i` and `j`, with the
/// level of each of the first `upto` fixed axes put in at the position of
/// that axis, one after the other.
pub open spec fn section_coord(fixed: Seq<(usize, usize)>, i: usize, j: usize, upto: nat) -> Seq<
    usize,
>
    decreases upto,
{
    if upto == 0 {
        seq![i, j]
    } else {
        section_coord(fixed, i, j, (upto - 1) as nat).insert(
            fixed[upto - 1].0 as int,
            fixed[upto - 1].1,
        )
    }
}

/// The brick with footprint `r`, seen along the two axes `first` and
/// `second`.
pub open spec fn rectangle_of(r: Seq<Interval>, first: int, second: int) -> Rectangle {
    Rectangle {
        x: r[first].begin,
        y: r[second].begin,
        width: (r[first].end - r[first].begin) as IntType,
        height: (r[second].end - r[second].begin) as IntType,
    }
}

/// The bricks of the first `count` cells of a cross-section, row by row,
/// for the first dimension tuple.
pub open spec fn section_upto(s: BuilderState, fixed: Seq<(usize, usize)>, count: nat) -> Seq<
    Rectangle,
>
    decreases count,
{
    if count == 0 {
        Seq::empty()
    } else {
        let before = section_upto(s, fixed, (count - 1) as nat);
        let i = ((count - 1) / (s.n as int)) as usize;
        let j = ((count - 1) % (s.n as int)) as usize;
        let varying = varying_axes(s.m, fixed_axes(fixed));
        match s.rect_at(0, section_coord(fixed, i, j, fixed.len())) {
            Some(r) => before.push(rectangle_of(r, varying[0] as int, varying[1] as int)),
            None => before,
        }
    }
}

/// The bricks of the two-dimensional cross-section in which every axis of
/// `fixed` is held at its level, for the first dimension tuple: row by row,
/// the first free axis varying slowest.
pub open spec fn cross_section(s: BuilderState, fixed: Seq<(usize, usize)>) -> Seq<Rectangle> {
    section_upto(s, fixed, (s.n * s.n) as nat)
}

/// Whether the dimension tuples are valid for a grid of side `n`.
pub fn are_valid_tuples(n: usize, tuples: &Vec<DimensionTuple>) -> (valid: bool)
    ensures
        valid == valid_tuples(n, tuple_views(tuples@)),
{
    let ghost views = tuple_views(tuples@);
    let mut t: usize = 0;
    while t < tuples.len()
        invariant
            t <= tuples@.len(),
            views == tuple_views(tuples@),
            forall|u: int| 0 <= u < t ==> (#[trigger] views[u]).len() == n,
            forall|u: int, k: int|
                0 <= u < t && 0 <= k < n ==> 0 < #[trigger] views[u][k] && fits_times(
                    views[u][k] as int,
                    n,
                ),
        decreases tuples@.len() - t,
    {
        let tuple = &tuples[t];
        assert(views[t as int] == tuple@);
        if tuple.len() != n {
            return false;
        }
        let mut k: usize = 0;
        while k < n
            invariant
                k <= n,
                tuple@.len() == n,
                t < tuples@.len(),
                views == tuple_views(tuples@),
                views[t as int] == tuple@,
                forall|j: int| 0 <= j < k ==> 0 < #[trigger] tuple@[j] && fits_times(tuple@[j] as int, n),
            decreases n - k,
        {
            let edge = tuple[k];
            if edge <= 0 {
                assert(!(0 < views[t as int][k as int]));
                return false;
            }
            let fits = match (edge as u128).checked_mul(n as u128) {
                Some(reach) => reach <= 0x7fff_ffff,
                None => false,
            };
            if !fits {
                assert(!fits_times(views[t as int][k as int] as int, n));
                return false;
            }
            k += 1;
        }
        t += 1;
    }
    true
}

impl View for RecipeBuilder {
    type V = BuilderState;

    closed spec fn view(&self) -> BuilderState {
        BuilderState {
            n: self.n,
            m: self.m,
            tuples: tuple_views(self.dimension_tuples@),
            cells: self.recipe@.cells,
            rects: packing_views(self.packings@),
            counts: count_views(self.subgrid_counts@),
            limit: self.subgrid_limit,
        }
    }
}

impl RecipeBuilder {
    /// The recipe, the footprints and the counters belong together.
    pub closed spec fn wf(&self) -> bool {
        &&& self@.wf()
        &&& self.recipe.wf()
        &&& self.recipe.n == self.n
        &&& self.recipe.m == self.m
        &&& self.packings@.len() == self.dimension_tuples@.len()
        &&& forall|t: int|
            0 <= t < self.packings@.len() ==> (#[trigger] self.packings@[t]).wf()
                && self.packings@[t].spec_shape() == cube_shape(self.n, self.m)
    }

    /// The recipe under construction.
    pub closed spec fn spec_recipe(&self) -> Recipe {
        self.recipe
    }

    /// The state of a well-formed builder is well-formed, and its cells are
    /// those of its recipe.
    pub proof fn lemma_wf(&self)
        requires
            self.wf(),
        ensures
            self@.wf(),
            self.spec_recipe().wf(),
            self.spec_recipe()@.cells == self@.cells,
            self.spec_recipe().n == self@.n,
            self.spec_recipe().m == self@.m,
    {
    }

    /// The builder for the cubic grid of side `n` in `m` dimensions in which no
    /// brick has been placed; the bound on the use of one edge length in one
    /// slice is `n` to the power `n - 2`.
    pub fn new(n: usize, m: usize, dimension_tuples: Vec<DimensionTuple>) -> (builder:
        RecipeBuilder)
        requires
            valid_tuples(n, tuple_views(dimension_tuples@)),
        ensures
            builder.wf(),
            builder@ == initial_state(n, m, tuple_views(dimension_tuples@)),
    {
        let recipe = Recipe::new(n, m);
        let ghost cells = recipe@.cells;
        let mut shape: Vec<usize> = Vec::new();
        let mut i: usize = 0;
        while i < m
            invariant
                i <= m,
                shape@.len() == i,
                forall|a: int| 0 <= a < i ==> #[trigger] shape@[a] == n,
            decreases m - i,
        {
            shape.push(n);
            i += 1;
        }
        assert(shape@ =~= cube_shape(n, m));
        let mut packings: Vec<NdArray<HyperRectangle>> = Vec::new();
        let mut t: usize = 0;
        while t < dimension_tuples.len()
            invariant
                t <= dimension_tuples@.len(),
                shape@ == cube_shape(n, m),
                packings@.len() == t,
                forall|u: int|
                    0 <= u < t ==> {
                        &&& (#[trigger] packings@[u]).wf()
                        &&& packings@[u].spec_shape() == cube_shape(n, m)
                        &&& packings@[u].cells() == empty_cells::<HyperRectangle>(cube_shape(n, m))
                    },
            decreases dimension_tuples@.len() - t,
        {
            packings.push(NdArray::new(&shape));
            t += 1;
        }
        let mut subgrid_counts: Vec<Vec<HashMap<usize, usize>>> = Vec::new();
        let mut a: usize = 0;
        while a < m
            invariant
                a <= m,
                subgrid_counts@.len() == a,
                forall|x: int|
                    0 <= x < a ==> {
                        &&& (#[trigger] subgrid_counts@[x])@.len() == n
                        &&& forall|l: int|
                            0 <= l < n ==> (#[trigger] subgrid_counts@[x]@[l])@ == Map::<
                                usize,
                                usize,
                            >::empty()
                    },
            decreases m - a,
        {
            let mut levels: Vec<HashMap<usize, usize>> = Vec::new();
            let mut l: usize = 0;
            while l < n
                invariant
                    l <= n,
                    levels@.len() == l,
                    forall|y: int|
                        0 <= y < l ==> (#[trigger] levels@[y])@ == Map::<usize, usize>::empty(),
                decreases n - l,
            {
                levels.push(HashMap::new());
                l += 1;
            }
            subgrid_counts.push(levels);
            a += 1;
        }
        let subgrid_limit = limit_for(n);
        let builder = RecipeBuilder {
            n,
            m,
            dimension_tuples,
            recipe,
            packings,
            subgrid_counts,
            subgrid_limit,
        };
        proof {
            let start = initial_state(n, m, tuple_views(dimension_tuples@));
            assert(builder@.cells =~= start.cells);
            assert(builder@.rects =~= start.rects) by {
                assert forall|u: int| 0 <= u < start.rects.len() implies #[trigger] builder@.rects[u]
                    == start.rects[u] by {
                    assert(builder.packings@[u].cells() == empty_cells::<HyperRectangle>(
                        cube_shape(n, m),
                    ));
                    assert(builder@.rects[u] =~= start.rects[u]);
                }
            }
            assert(builder@.counts =~= start.counts) by {
                assert forall|x: int, l: int, k: int|
                    0 <= x < m && 0 <= l < n && 0 <= k < n implies #[trigger] start.counts[x][l][k]
                    == 0 by {
                    lemma_count_empty(n, m, start.cells.len(), x, l, k, start.cells.len());
                }
                assert forall|x: int| 0 <= x < m implies #[trigger] builder@.counts[x]
                    == start.counts[x] by {
                    assert forall|l: int| 0 <= l < n implies #[trigger] builder@.counts[x][l]
                        == start.counts[x][l] by {
                        assert(builder.subgrid_counts@[x]@[l]@ == Map::<usize, usize>::empty());
                        assert forall|k: int| 0 <= k < n implies #[trigger] builder@.counts[x][l][k]
                            == start.counts[x][l][k] by {
                            assert(counter_at(builder.subgrid_counts@, x, l, k) == 0);
                        }
                        assert(builder@.counts[x][l] =~= start.counts[x][l]);
                    }
                    assert(builder@.counts[x] =~= start.counts[x]);
                }
            }
        }
        builder
    }

    fn increment_subgrid_count(&mut self, coord: &Coord, orientation: &Orientation)
        requires
            in_bounds(cube_shape(old(self).n, old(self).m), coord@),
            is_orientation(orientation@, old(self).n, old(self).m),
            old(self).recipe@.cells.len() == volume(cube_shape(old(self).n, old(self).m)),
            old(self).recipe@.cells.len() <= usize::MAX,
            old(self).recipe@.cells[flat_index(cube_shape(old(self).n, old(self).m), coord@)]
                == Some(orientation@),
            count_views(old(self).subgrid_counts@) == counts_of(
                old(self).n,
                old(self).m,
                old(self).recipe@.cells.update(
                    flat_index(cube_shape(old(self).n, old(self).m), coord@),
                    None,
                ),
            ),
        ensures
            count_views(final(self).subgrid_counts@) == counts_of(
                old(self).n,
                old(self).m,
                old(self).recipe@.cells,
            ),
            final(self).n == old(self).n,
            final(self).m == old(self).m,
            final(self).dimension_tuples == old(self).dimension_tuples,
            final(self).recipe == old(self).recipe,
            final(self).packings == old(self).packings,
            final(self).subgrid_limit == old(self).subgrid_limit,
    {
        let ghost n = self.n;
        let ghost m = self.m;
        let ghost shape = cube_shape(n, m);
        let ghost index = flat_index(shape, coord@);
        let ghost full = self.recipe@.cells;
        let ghost base = full.update(index, None);
        proof {
            lemma_flat_index_range(shape, coord@);
            lemma_coords_of_flat_index(shape, coord@);
            lemma_counters(self.subgrid_counts@, n, m, base);
            assert(base.update(index, Some(orientation@)) =~= full);
        }
        let mut dim: usize = 0;
        while dim < self.m
            invariant
                dim <= m,
                self.n == n,
                self.m == m,
                self.n == old(self).n,
                self.m == old(self).m,
                self.dimension_tuples == old(self).dimension_tuples,
                self.recipe == old(self).recipe,
                self.packings == old(self).packings,
                self.subgrid_limit == old(self).subgrid_limit,
                shape == cube_shape(n, m),
                index == flat_index(shape, coord@),
                0 <= index < full.len(),
                full.len() <= usize::MAX,
                coords_spec(shape)[index] == coord@,
                base == full.update(index, None),
                base.update(index, Some(orientation@)) == full,
                in_bounds(shape, coord@),
                is_orientation(orientation@, n, m),
                counters_shaped(self.subgrid_counts@, n, m),
                counters_match(self.subgrid_counts@, n, m, full, 0, dim as int),
                counters_match(self.subgrid_counts@, n, m, base, dim as int, m as int),
            decreases m - dim,
        {
            let level = coord[dim];
            let edge = orientation[dim];
            let ghost before = self.subgrid_counts@;
            proof {
                assert(coord@[dim as int] < shape[dim as int]);
                assert forall|l: int, k: int| 0 <= l < n && 0 <= k < n implies count_cells(
                    n,
                    m,
                    full,
                    dim as int,
                    l,
                    k,
                    full.len(),
                ) == count_cells(n, m, base, dim as int, l, k, base.len()) + (if l == level && k
                    == edge {
                    1nat
                } else {
                    0nat
                }) by {
                    lemma_count_update(
                        n,
                        m,
                        base,
                        index,
                        Some(orientation@),
                        dim as int,
                        l,
                        k,
                        base.len(),
                    );
                }
                lemma_count_bound(n, m, full, dim as int, level as int, edge as int, full.len());
                assert(counter_at(before, dim as int, level as int, edge as int) == count_cells(
                    n,
                    m,
                    base,
                    dim as int,
                    level as int,
                    edge as int,
                    base.len(),
                ));
            }
            let count = match self.subgrid_counts[dim][level].get(&edge) {
                Some(held) => *held,
                None => 0,
            };
            assert(count == counter_at(before, dim as int, level as int, edge as int));
            self.subgrid_counts[dim][level].insert(edge, count + 1);
            proof {
                let after = self.subgrid_counts@;
                assert(after.len() == before.len());
                assert forall|a: int| 0 <= a < m && a != dim implies #[trigger] after[a]
                    == before[a] by {}
                assert(after[dim as int]@.len() == n);
                assert forall|l: int| 0 <= l < n && l != level implies #[trigger] after[dim as int]@[l]
                    == before[dim as int]@[l] by {}
                assert(after[dim as int]@[level as int]@ == before[dim as int]@[level as int]@.insert(
                    edge,
                    (count + 1) as usize,
                ));
                assert forall|k: int| 0 <= k < n && k != edge implies #[trigger] counter_at(after, dim as int, level as int, k)
                    == counter_at(before, dim as int, level as int, k) by {}
                assert(counters_shaped(after, n, m));
                assert forall|a: int, l: int, k: int|
                    0 <= a < dim + 1 && 0 <= l < n && 0 <= k < n implies #[trigger] counter_at(after, a, l, k)
                    == count_cells(n, m, full, a, l, k, full.len()) by {
                    if a < dim {
                        assert(counter_at(before, a, l, k) == count_cells(n, m, full, a, l, k, full.len()));
                    } else {
                        assert(counter_at(before, a, l, k) == count_cells(n, m, base, a, l, k, base.len()));
                    }
                }
                assert forall|a: int, l: int, k: int|
                    dim + 1 <= a < m && 0 <= l < n && 0 <= k < n implies #[trigger] counter_at(after, a, l, k)
                    == count_cells(n, m, base, a, l, k, base.len()) by {
                    assert(counter_at(before, a, l, k) == count_cells(n, m, base, a, l, k, base.len()));
                }
            }
            dim += 1;
        }
        proof {
            lemma_counters(self.subgrid_counts@, n, m, full);
        }
    }

    fn decrement_subgrid_count(&mut self, coord: &Coord, orientation: &Orientation)
        requires
            in_bounds(cube_shape(old(self).n, old(self).m), coord@),
            is_orientation(orientation@, old(self).n, old(self).m),
            old(self).recipe@.cells.len() == volume(cube_shape(old(self).n, old(self).m)),
            old(self).recipe@.cells.len() <= usize::MAX,
            old(self).recipe@.cells[flat_index(cube_shape(old(self).n, old(self).m), coord@)]
                is None,
            count_views(old(self).subgrid_counts@) == counts_of(
                old(self).n,
                old(self).m,
                old(self).recipe@.cells.update(
                    flat_index(cube_shape(old(self).n, old(self).m), coord@),
                    Some(orientation@),
                ),
            ),
        ensures
            count_views(final(self).subgrid_counts@) == counts_of(
                old(self).n,
                old(self).m,
                old(self).recipe@.cells,
            ),
            final(self).n == old(self).n,
            final(self).m == old(self).m,
            final(self).dimension_tuples == old(self).dimension_tuples,
            final(self).recipe == old(self).recipe,
            final(self).packings == old(self).packings,
            final(self).subgrid_limit == old(self).subgrid_limit,
    {
        let ghost n = self.n;
        let ghost m = self.m;
        let ghost shape = cube_shape(n, m);
        let ghost index = flat_index(shape, coord@);
        let ghost base = self.recipe@.cells;
        let ghost full = base.update(index, Some(orientation@));
        proof {
            lemma_flat_index_range(shape, coord@);
            lemma_coords_of_flat_index(shape, coord@);
            lemma_counters(self.subgrid_counts@, n, m, full);
        }
        let mut dim: usize = 0;
        while dim < self.m
            invariant
                dim <= m,
                self.n == n,
                self.m == m,
                self.n == old(self).n,
                self.m == old(self).m,
                self.dimension_tuples == old(self).dimension_tuples,
                self.recipe == old(self).recipe,
                self.packings == old(self).packings,
                self.subgrid_limit == old(self).subgrid_limit,
                shape == cube_shape(n, m),
                index == flat_index(shape, coord@),
                0 <= index < base.len(),
                base.len() <= usize::MAX,
                coords_spec(shape)[index] == coord@,
                base[index] is None,
                full == base.update(index, Some(orientation@)),
                in_bounds(shape, coord@),
                is_orientation(orientation@, n, m),
                counters_shaped(self.subgrid_counts@, n, m),
                counters_match(self.subgrid_counts@, n, m, base, 0, dim as int),
                counters_match(self.subgrid_counts@, n, m, full, dim as int, m as int),
            decreases m - dim,
        {
            let level = coord[dim];
            let edge = orientation[dim];
            let ghost before = self.subgrid_counts@;
            proof {
                assert(coord@[dim as int] < shape[dim as int]);
                assert forall|l: int, k: int| 0 <= l < n && 0 <= k < n implies count_cells(
                    n,
                    m,
                    full,
                    dim as int,
                    l,
                    k,
                    full.len(),
                ) == count_cells(n, m, base, dim as int, l, k, base.len()) + (if l == level && k
                    == edge {
                    1nat
                } else {
                    0nat
                }) by {
                    lemma_count_update(
                        n,
                        m,
                        base,
                        index,
                        Some(orientation@),
                        dim as int,
                        l,
                        k,
                        base.len(),
                    );
                }
                assert(counter_at(before, dim as int, level as int, edge as int) == count_cells(
                    n,
                    m,
                    full,
                    dim as int,
                    level as int,
                    edge as int,
                    full.len(),
                ));
            }
            let count = match self.subgrid_counts[dim][level].get(&edge) {
                Some(held) => *held,
                None => 0,
            };
            assert(count == counter_at(before, dim as int, level as int, edge as int));
            self.subgrid_counts[dim][level].insert(edge, count - 1);
            proof {
                let after = self.subgrid_counts@;
                assert(after.len() == before.len());
                assert forall|a: int| 0 <= a < m && a != dim implies #[trigger] after[a]
                    == before[a] by {}
                assert(after[dim as int]@.len() == n);
                assert forall|l: int| 0 <= l < n && l != level implies #[trigger] after[dim as int]@[l]
                    == before[dim as int]@[l] by {}
                assert(after[dim as int]@[level as int]@ == before[dim as int]@[level as int]@.insert(
                    edge,
                    (count - 1) as usize,
                ));
                assert forall|k: int| 0 <= k < n && k != edge implies #[trigger] counter_at(after, dim as int, level as int, k)
                    == counter_at(before, dim as int, level as int, k) by {}
                assert(counters_shaped(after, n, m));
                assert forall|a: int, l: int, k: int|
                    0 <= a < dim + 1 && 0 <= l < n && 0 <= k < n implies #[trigger] counter_at(after, a, l, k)
                    == count_cells(n, m, base, a, l, k, base.len()) by {
                    if a < dim {
                        assert(counter_at(before, a, l, k) == count_cells(n, m, base, a, l, k, base.len()));
                    } else {
                        assert(counter_at(before, a, l, k) == count_cells(n, m, full, a, l, k, full.len()));
                    }
                }
                assert forall|a: int, l: int, k: int|
                    dim + 1 <= a < m && 0 <= l < n && 0 <= k < n implies #[trigger] counter_at(after, a, l, k)
                    == count_cells(n, m, full, a, l, k, full.len()) by {
                    assert(counter_at(before, a, l, k) == count_cells(n, m, full, a, l, k, full.len()));
                }
            }
            dim += 1;
        }
        proof {
            lemma_counters(self.subgrid_counts@, n, m, base);
        }
    }

    /// Puts a brick with the given orientation into the empty cell at
    /// `coord`: the orientation is recorded, the footprint of the brick is
    /// derived for every dimension tuple from the bricks one step back, and
    /// the counters of the slices through `coord` are raised.
    pub fn insert(&mut self, coord: &Coord, orientation: &Orientation)
        requires
            old(self).wf(),
            in_bounds(old(self)@.shape(), coord@),
            !old(self)@.filled(coord@),
            is_orientation(orientation@, old(self)@.n, old(self)@.m),
        ensures
            final(self).wf(),
            final(self)@ == after_insert(old(self)@, coord@, orientation@),
    {
        let ghost s = self@;
        let ghost shape = s.shape();
        let ghost index = flat_index(shape, coord@);
        let ghost expected = after_insert(s, coord@, orientation@);
        proof {
            lemma_flat_index_range(shape, coord@);
            lemma_coords_of_flat_index(shape, coord@);
            assert(s.cells.update(index, Some(orientation@)).update(index, None) =~= s.cells);
        }
        self.recipe.map.insert(coord, copy_of(orientation));
        proof {
            assert(self.recipe@.cells =~= s.cells.update(index, Some(orientation@)));
            assert(self.recipe.wf()) by {
                assert forall|i: int| 0 <= i < self.recipe.map.cells().len() implies (
                #[trigger] self.recipe.map.cells()[i] matches Some(o) ==> is_orientation(
                    o@,
                    self.recipe.n,
                    self.recipe.m,
                )) by {
                    if i != index {
                        assert(self.recipe.map.cells()[i] == old(self).recipe.map.cells()[i]);
                    }
                }
            }
        }
        self.increment_subgrid_count(coord, orientation);
        let mut t: usize = 0;
        while t < self.packings.len()
            invariant
                t <= self.packings@.len(),
                old(self).wf(),
                s == old(self)@,
                shape == s.shape(),
                index == flat_index(shape, coord@),
                0 <= index < s.cells.len(),
                in_bounds(shape, coord@),
                is_orientation(orientation@, s.n, s.m),
                expected == after_insert(s, coord@, orientation@),
                self.n == old(self).n,
                self.m == old(self).m,
                self.dimension_tuples == old(self).dimension_tuples,
                self.subgrid_limit == old(self).subgrid_limit,
                self.recipe.wf(),
                self.recipe.n == self.n,
                self.recipe.m == self.m,
                self.recipe@.cells == s.cells.update(index, Some(orientation@)),
                count_views(self.subgrid_counts@) == counts_of(s.n, s.m, self.recipe@.cells),
                self.packings@.len() == old(self).packings@.len(),
                s.rects.len() == self.packings@.len(),
                s.tuples.len() == self.packings@.len(),
                expected.rects.len() == self.packings@.len(),
                forall|u: int|
                    0 <= u < self.packings@.len() ==> (#[trigger] self.packings@[u]).wf()
                        && self.packings@[u].spec_shape() == shape,
                forall|u: int|
                    t <= u < self.packings@.len() ==> #[trigger] self.packings@[u] == old(
                        self,
                    ).packings@[u],
                forall|u: int|
                    0 <= u < t ==> {
                        &&& cell_views((#[trigger] self.packings@[u]).cells()) == expected.rects[u]
                        &&& fits(
                            s.n,
                            s.m,
                            s.tuples[u],
                            coord@,
                            orientation@,
                            placed_rect(s.n, s.m, s.tuples[u], s.rects[u], coord@, orientation@),
                        )
                    },
            decreases self.packings@.len() - t,
        {
            proof {
                assert(s.rects[t as int] == cell_views(old(self).packings@[t as int].cells()));
                assert(s.tuples[t as int] == self.dimension_tuples@[t as int]@);
                assert(packing_fits(s.n, s.m, s.tuples[t as int], s.cells, s.rects[t as int])) by {
                    assert(s.rects[t as int].len() == s.cells.len());
                    assert forall|i: int| 0 <= i < s.cells.len() implies (
                    #[trigger] s.rects[t as int][i] matches Some(r) ==> s.cells[i].is_some() && fits(
                        s.n,
                        s.m,
                        s.tuples[t as int],
                        coords_spec(cube_shape(s.n, s.m))[i],
                        s.cells[i].unwrap(),
                        r,
                    )) by {
                        assert(s.rects[t as int][i].is_some() == s.cells[i].is_some());
                    }
                }
                assert forall|k: int| 0 <= k < s.n implies 0 < #[trigger] s.tuples[t as int][k]
                    && fits_times(s.tuples[t as int][k] as int, s.n) by {}
            }
            let ghost before = self.packings@;
            place(
                &mut self.packings[t],
                self.n,
                self.m,
                &self.dimension_tuples[t],
                coord,
                orientation,
                Ghost(s.cells),
            );
            proof {
                assert forall|u: int| 0 <= u < self.packings@.len() && u != t implies (
                #[trigger] self.packings@[u]) == before[u] by {}
                assert(before[t as int] == old(self).packings@[t as int]);
                let placed = placed_rect(
                    s.n,
                    s.m,
                    s.tuples[t as int],
                    s.rects[t as int],
                    coord@,
                    orientation@,
                );
                assert(cell_views(self.packings@[t as int].cells()) == s.rects[t as int].update(
                    index,
                    Some(placed),
                ));
                assert(expected.rects[t as int] == s.rects[t as int].update(index, Some(placed)));
            }
            t += 1;
        }
        proof {
            assert(self@.rects =~= expected.rects);
            assert(self@.cells == expected.cells);
            assert(self@.counts == expected.counts);
            assert(self@ == expected);
            assert forall|u: int| 0 <= u < s.rects.len() implies fits(
                s.n,
                s.m,
                s.tuples[u],
                coord@,
                orientation@,
                #[trigger] placed_rect(s.n, s.m, s.tuples[u], s.rects[u], coord@, orientation@),
            ) by {
                assert(self.packings@[u].wf());
            }
            lemma_insert_preserves_wf(s, coord@, orientation@);
        }
    }

    /// Takes the brick at `coord` away again: the orientation, the
    /// footprints and the counts that `insert` added for it.
    pub fn remove(&mut self, coord: &Coord)
        requires
            old(self).wf(),
            in_bounds(old(self)@.shape(), coord@),
            old(self)@.filled(coord@),
        ensures
            final(self).wf(),
            final(self)@ == after_remove(old(self)@, coord@),
    {
        let ghost s = self@;
        let ghost shape = s.shape();
        let ghost index = flat_index(shape, coord@);
        let ghost expected = after_remove(s, coord@);
        proof {
            lemma_flat_index_range(shape, coord@);
            lemma_coords_of_flat_index(shape, coord@);
        }
        let orientation = self.recipe.map.remove(coord).unwrap();
        proof {
            assert(self.recipe@.cells =~= s.cells.update(index, None));
            assert(old(self).recipe.map.cells()[index] == Some(orientation));
            assert(is_orientation(orientation@, s.n, s.m));
            assert(self.recipe@.cells.update(index, Some(orientation@)) =~= s.cells);
            assert(self.recipe.wf()) by {
                assert forall|i: int| 0 <= i < self.recipe.map.cells().len() implies (
                #[trigger] self.recipe.map.cells()[i] matches Some(o) ==> is_orientation(
                    o@,
                    self.recipe.n,
                    self.recipe.m,
                )) by {
                    if i != index {
                        assert(self.recipe.map.cells()[i] == old(self).recipe.map.cells()[i]);
                    }
                }
            }
        }
        self.decrement_subgrid_count(coord, &orientation);
        let mut t: usize = 0;
        while t < self.packings.len()
            invariant
                t <= self.packings@.len(),
                old(self).wf(),
                s == old(self)@,
                shape == s.shape(),
                index == flat_index(shape, coord@),
                0 <= index < s.cells.len(),
                in_bounds(shape, coord@),
                expected == after_remove(s, coord@),
                self.n == old(self).n,
                self.m == old(self).m,
                self.dimension_tuples == old(self).dimension_tuples,
                self.subgrid_limit == old(self).subgrid_limit,
                self.recipe.wf(),
                self.recipe.n == self.n,
                self.recipe.m == self.m,
                self.recipe@.cells == s.cells.update(index, None),
                count_views(self.subgrid_counts@) == counts_of(s.n, s.m, self.recipe@.cells),
                self.packings@.len() == old(self).packings@.len(),
                s.rects.len() == self.packings@.len(),
                s.tuples.len() == self.packings@.len(),
                expected.rects.len() == self.packings@.len(),
                forall|u: int|
                    0 <= u < self.packings@.len() ==> (#[trigger] self.packings@[u]).wf()
                        && self.packings@[u].spec_shape() == shape,
                forall|u: int|
                    t <= u < self.packings@.len() ==> #[trigger] self.packings@[u] == old(
                        self,
                    ).packings@[u],
                forall|u: int|
                    0 <= u < t ==> cell_views((#[trigger] self.packings@[u]).cells())
                        == expected.rects[u],
            decreases self.packings@.len() - t,
        {
            let ghost before = self.packings@;
            self.packings[t].remove(coord);
            proof {
                assert forall|u: int| 0 <= u < self.packings@.len() && u != t implies (
                #[trigger] self.packings@[u]) == before[u] by {}
                assert(before[t as int] == old(self).packings@[t as int]);
                assert(s.rects[t as int] == cell_views(old(self).packings@[t as int].cells()));
                assert(s.rects[t as int].len() == s.cells.len());
                assert(expected.rects[t as int] == s.rects[t as int].update(index, None));
                assert(self.packings@[t as int].cells() == before[t as int].cells().update(
                    index,
                    None,
                ));
                assert(cell_views(self.packings@[t as int].cells()) =~= s.rects[t as int].update(
                    index,
                    None,
                ));
            }
            t += 1;
        }
        proof {
            assert(self@.rects =~= expected.rects);
            assert(self@ == expected);
            lemma_remove_preserves_wf(s, coord@);
        }
    }

    proof fn lemma_packing(&self, t: int, c: Seq<usize>)
        requires
            self.wf(),
            0 <= t < self@.rects.len(),
            in_bounds(self@.shape(), c),
        ensures
            t < self.packings@.len(),
            self.packings@[t].wf(),
            self.packings@[t].spec_shape() == self@.shape(),
            cell_views(self.packings@[t].cells()) == self@.rects[t],
            0 <= flat_index(self@.shape(), c) < self@.cells.len(),
            self.packings@[t].cells().len() == self@.cells.len(),
            self.packings@[t].at(c).is_some() == self@.filled(c),
            self.packings@[t].at(c) matches Some(r) ==> self@.rect_at(t, c) == Some(r@) && r@.len()
                == self@.m,
            coords_spec(self@.shape())[flat_index(self@.shape(), c)] == c,
    {
        lemma_flat_index_range(self@.shape(), c);
        lemma_coords_of_flat_index(self@.shape(), c);
        let i = flat_index(self@.shape(), c);
        assert(self@.rects[t].len() == self@.cells.len());
        assert(self@.rects[t][i].is_some() == self@.cells[i].is_some());
        assert(self@.rects[t][i] matches Some(r) ==> fits(
            self@.n,
            self@.m,
            self@.tuples[t],
            coords_spec(self@.shape())[i],
            self@.cells[i].unwrap(),
            r,
        ));
    }

    proof fn lemma_cell(&self, c: Seq<usize>)
        requires
            self.wf(),
            in_bounds(self@.shape(), c),
        ensures
            self.recipe.map.wf(),
            self.recipe.map.spec_shape() == self@.shape(),
            0 <= flat_index(self@.shape(), c) < self@.cells.len(),
            self.recipe.map.at(c).is_some() == self@.filled(c),
            self.recipe.map.at(c) matches Some(o) ==> self@.orientation_at(c) == Some(o@)
                && is_orientation(o@, self@.n, self@.m),
    {
        lemma_flat_index_range(self@.shape(), c);
    }

    /// Whether no brick before the one at `coord` on a grid line through
    /// `coord` has, along that line, the same edge length as the brick at
    /// `coord`.
    pub fn satisfies_line_criterion(&self, coord: &Coord) -> (satisfied: bool)
        requires
            self.wf(),
            in_bounds(self@.shape(), coord@),
            self@.filled(coord@),
        ensures
            satisfied == line_ok(self@, coord@),
    {
        let ghost s = self@;
        proof {
            self.lemma_cell(coord@);
        }
        let orientation = self.recipe.map.get(coord).unwrap();
        let mut dim: usize = 0;
        while dim < self.m
            invariant
                dim <= self.m,
                self.wf(),
                s == self@,
                self.m == s.m,
                in_bounds(s.shape(), coord@),
                s.orientation_at(coord@) == Some(orientation@),
                is_orientation(orientation@, s.n, s.m),
                forall|a: int, j: int|
                    0 <= a < dim && 0 <= j < coord@[a] ==> (s.orientation_at(
                        #[trigger] on_line(coord@, a, j),
                    ) matches Some(other) ==> other[a] != orientation@[a]),
            decreases self.m - dim,
        {
            let level = coord[dim];
            let mut index = copy_of(coord);
            let mut j: usize = 0;
            while j < level
                invariant
                    j <= level,
                    dim < self.m,
                    level == coord@[dim as int],
                    self.wf(),
                    s == self@,
                    self.m == s.m,
                    in_bounds(s.shape(), coord@),
                    s.orientation_at(coord@) == Some(orientation@),
                    is_orientation(orientation@, s.n, s.m),
                    index@.len() == coord@.len(),
                    forall|a: int| 0 <= a < index@.len() && a != dim ==> index@[a] == coord@[a],
                    forall|i: int|
                        0 <= i < j ==> (s.orientation_at(#[trigger] on_line(coord@, dim as int, i)) matches Some(
                            other,
                        ) ==> other[dim as int] != orientation@[dim as int]),
                decreases level - j,
            {
                index[dim] = j;
                proof {
                    assert(index@ =~= on_line(coord@, dim as int, j as int));
                    assert(in_bounds(s.shape(), index@)) by {
                        assert forall|a: int| 0 <= a < s.shape().len() implies #[trigger] index@[a]
                            < s.shape()[a] by {
                            assert(coord@[a] < s.shape()[a]);
                        }
                    }
                    self.lemma_cell(index@);
                }
                match self.recipe.map.get(&index) {
                    Some(other) => {
                        if other[dim] == orientation[dim] {
                            return false;
                        }
                    },
                    None => {},
                }
                j += 1;
            }
            dim += 1;
        }
        true
    }

    /// Whether in every slice through `coord` no edge length is used, along the
    /// axis of the slice, more often than the limit allows.
    pub fn satisfies_subgrid_criterion(&self, coord: &Coord) -> (satisfied: bool)
        requires
            self.wf(),
            in_bounds(self@.shape(), coord@),
        ensures
            satisfied == subgrid_ok(self@, coord@),
    {
        let ghost s = self@;
        proof {
            lemma_flat_index_range(s.shape(), coord@);
            lemma_counters(self.subgrid_counts@, s.n, s.m, s.cells);
        }
        let mut dim: usize = 0;
        while dim < self.m
            invariant
                dim <= self.m,
                self.wf(),
                s == self@,
                self.m == s.m,
                self.n == s.n,
                self.subgrid_limit == s.limit,
                in_bounds(s.shape(), coord@),
                counters_shaped(self.subgrid_counts@, s.n, s.m),
                s.counts == count_views(self.subgrid_counts@),
                forall|a: int, k: int|
                    0 <= a < dim && 0 <= k < s.n ==> #[trigger] s.counts[a][coord@[a] as int][k]
                        <= s.limit,
            decreases self.m - dim,
        {
            let level = coord[dim];
            assert(coord@[dim as int] < s.shape()[dim as int]);
            let mut k: usize = 0;
            while k < self.n
                invariant
                    k <= self.n,
                    dim < self.m,
                    s == self@,
                    in_bounds(s.shape(), coord@),
                    level == coord@[dim as int],
                    level < self.n,
                    self.m == s.m,
                    self.n == s.n,
                    self.subgrid_limit == s.limit,
                    counters_shaped(self.subgrid_counts@, s.n, s.m),
                    s.counts == count_views(self.subgrid_counts@),
                    forall|i: int|
                        0 <= i < k ==> #[trigger] s.counts[dim as int][level as int][i] <= s.limit,
                decreases self.n - k,
            {
                assert(self.subgrid_counts@[dim as int]@.len() == s.n);
                let count = match self.subgrid_counts[dim][level].get(&k) {
                    Some(held) => *held,
                    None => 0,
                };
                assert(count == counter_at(self.subgrid_counts@, dim as int, level as int, k as int));
                if count > self.subgrid_limit {
                    assert(s.counts[dim as int][coord@[dim as int] as int][k as int] > s.limit);
                    return false;
                }
                k += 1;
            }
            dim += 1;
        }
        true
    }

    /// Whether, for one of the dimension tuples, the brick at `coord` meets the
    /// brick of one of the cells around it along every axis.
    pub fn has_overlaps(&self, coord: &Coord) -> (overlapping: bool)
        requires
            self.wf(),
            in_bounds(self@.shape(), coord@),
            self@.filled(coord@),
        ensures
            overlapping == overlaps(self@, coord@),
    {
        let ghost s = self@;
        let ghost shape = s.shape();
        let mut neighbourhood: Vec<Vec<usize>> = Vec::new();
        let mut dim: usize = 0;
        while dim < self.m
            invariant
                dim <= self.m,
                self.m == s.m,
                self.n == s.n,
                shape == cube_shape(s.n, s.m),
                in_bounds(shape, coord@),
                neighbourhood@.len() == dim,
                forall|a: int, v: usize|
                    0 <= a < dim ==> (#[trigger] neighbourhood@[a]@.contains(v) <==> v < s.n
                        && coord@[a] <= v + 1 && v <= coord@[a] + 1),
            decreases self.m - dim,
        {
            let v = coord[dim];
            assert(coord@[dim as int] < shape[dim as int]);
            let before = if v == 0 {
                0
            } else {
                v - 1
            };
            let after = if v + 1 < self.n {
                v + 2
            } else {
                self.n
            };
            let mut range: Vec<usize> = Vec::new();
            let mut x: usize = before;
            while x < after
                invariant
                    before <= x <= after,
                    range@.len() == x - before,
                    forall|i: int| 0 <= i < range@.len() ==> #[trigger] range@[i] == before + i,
                decreases after - x,
            {
                range.push(x);
                x += 1;
            }
            proof {
                assert forall|w: usize| range@.contains(w) <==> w < s.n && v <= w + 1 && w <= v
                    + 1 by {
                    if w < s.n && v <= w + 1 && w <= v + 1 {
                        assert(range@[w - before] == w);
                    }
                }
            }
            neighbourhood.push(range);
            dim += 1;
        }
        let neighbours = crate::combinatorics::product(neighbourhood.as_slice());
        let ghost lists = rows(neighbourhood@);
        let ghost found = rows(neighbours@);
        proof {
            assert forall|q: int| 0 <= q < found.len() implies is_near(shape, coord@, #[trigger] found[q]) by {
                crate::combinatorics::lemma_product_members(lists, q);
                assert forall|a: int| 0 <= a < shape.len() implies coord@[a] <= (
                #[trigger] found[q][a]) + 1 && found[q][a] <= coord@[a] + 1 && found[q][a]
                    < shape[a] by {
                    assert(lists[a].contains(found[q][a]));
                    assert(neighbourhood@[a]@.contains(found[q][a]));
                }
            }
        }
        let mut t: usize = 0;
        while t < self.packings.len()
            invariant
                t <= self.packings@.len(),
                self.wf(),
                s == self@,
                shape == s.shape(),
                self.m == s.m,
                in_bounds(shape, coord@),
                s.filled(coord@),
                self.packings@.len() == s.rects.len(),
                found == rows(neighbours@),
                lists == rows(neighbourhood@),
                found == crate::combinatorics::product_spec(lists),
                lists.len() == s.m,
                forall|a: int, v: usize|
                    0 <= a < s.m ==> (#[trigger] neighbourhood@[a]@.contains(v) <==> v < s.n
                        && coord@[a] <= v + 1 && v <= coord@[a] + 1),
                forall|q: int| 0 <= q < found.len() ==> is_near(shape, coord@, #[trigger] found[q]),
                forall|u: int, nb: Seq<usize>| 0 <= u < t ==> !#[trigger] overlap_with(s, u, coord@, nb),
            decreases self.packings@.len() - t,
        {
            proof {
                self.lemma_packing(t as int, coord@);
            }
            let this = self.packings[t].get(coord).unwrap();
            let mut q: usize = 0;
            while q < neighbours.len()
                invariant
                    q <= neighbours@.len(),
                    t < self.packings@.len(),
                    self.wf(),
                    s == self@,
                    shape == s.shape(),
                    self.m == s.m,
                    in_bounds(shape, coord@),
                    self.packings@.len() == s.rects.len(),
                    s.rect_at(t as int, coord@) == Some(this@),
                    this@.len() == s.m,
                    found == rows(neighbours@),
                    forall|q: int|
                        0 <= q < found.len() ==> is_near(shape, coord@, #[trigger] found[q]),
                    forall|i: int| 0 <= i < q ==> !overlap_with(s, t as int, coord@, #[trigger] found[i]),
                decreases neighbours@.len() - q,
            {
                let neighbour = &neighbours[q];
                proof {
                    assert(found[q as int] == neighbour@);
                    assert(is_near(shape, coord@, found[q as int]));
                    self.lemma_packing(t as int, neighbour@);
                }
                if !same_coord(neighbour, coord) {
                    match self.packings[t].get(neighbour) {
                        Some(other) => {
                            if all_intersect(this, other) {
                                assert(overlap_with(s, t as int, coord@, neighbour@));
                                return true;
                            }
                        },
                        None => {},
                    }
                }
                q += 1;
            }
            proof {
                assert forall|nb: Seq<usize>| !#[trigger] overlap_with(s, t as int, coord@, nb) by {
                    if is_near(shape, coord@, nb) {
                        assert forall|a: int| 0 <= a < lists.len() implies lists[a].contains(
                            #[trigger] nb[a],
                        ) by {
                            assert(nb[a] < shape[a]);
                            assert(neighbourhood@[a]@.contains(nb[a]));
                        }
                        let at = crate::combinatorics::lemma_product_complete(lists, nb);
                        assert(found[at] == nb);
                    }
                }
            }
            t += 1;
        }
        false
    }

    fn corner_along(&self, t: usize, coord: &Coord, directions: &Vec<usize>) -> (found: bool)
        requires
            self.wf(),
            t < self@.rects.len(),
            in_bounds(self@.shape(), coord@),
            self@.filled(coord@),
            is_direction_set(coord@, self@.m, directions@),
        ensures
            found == exists|d: int|
                0 <= d < self@.m && #[trigger] corner_at(self@, t as int, coord@, directions@, d),
    {
        let ghost s = self@;
        let ghost shape = s.shape();
        let ghost dirs = directions@;
        proof {
            self.lemma_packing(t as int, coord@);
        }
        let this = self.packings[t].get(coord).unwrap();
        let mut foundation_coord = copy_of(coord);
        let mut j: usize = 0;
        assert(foundation_coord@ =~= stepped_back(coord@, dirs.take(0)));
        while j < directions.len()
            invariant
                j <= directions@.len(),
                dirs == directions@,
                is_direction_set(coord@, s.m, dirs),
                coord@.len() == s.m,
                foundation_coord@ == stepped_back(coord@, dirs.take(j as int)),
            decreases directions@.len() - j,
        {
            let direction = directions[j];
            proof {
                assert(dirs[j as int] < s.m && coord@[dirs[j as int] as int] > 0);
                assert(!dirs.take(j as int).contains(direction)) by {
                    if dirs.take(j as int).contains(direction) {
                        let i = choose|i: int|
                            0 <= i < dirs.take(j as int).len() && dirs.take(j as int)[i]
                                == direction;
                        assert(dirs[i] < dirs[j as int]);
                    }
                }
            }
            foundation_coord[direction] -= 1;
            proof {
                let before = dirs.take(j as int);
                let after = dirs.take(j + 1);
                assert(after =~= before.push(direction));
                assert forall|a: int| 0 <= a < coord@.len() implies foundation_coord@[a]
                    == stepped_back(coord@, after)[a] by {
                    if a == direction {
                        assert(after[j as int] == direction);
                    } else {
                        if after.contains(a as usize) {
                            let i = choose|i: int| 0 <= i < after.len() && after[i] == a as usize;
                            assert(before[i] == a as usize);
                        }
                        if before.contains(a as usize) {
                            let i = choose|i: int| 0 <= i < before.len() && before[i] == a as usize;
                            assert(after[i] == a as usize);
                        }
                    }
                }
                assert(foundation_coord@ =~= stepped_back(coord@, after));
            }
            j += 1;
        }
        proof {
            assert(dirs.take(dirs.len() as int) =~= dirs);
            assert(in_bounds(shape, foundation_coord@)) by {
                assert forall|a: int| 0 <= a < shape.len() implies #[trigger] foundation_coord@[a]
                    < shape[a] by {
                    assert(coord@[a] < shape[a]);
                }
            }
            self.lemma_packing(t as int, foundation_coord@);
        }
        let foundation = match self.packings[t].get(&foundation_coord) {
            Some(r) => r,
            None => {
                return false;
            },
        };
        let mut d: usize = 0;
        while d < self.m
            invariant
                d <= self.m,
                self.wf(),
                s == self@,
                shape == s.shape(),
                self.m == s.m,
                self.n == s.n,
                t < s.rects.len(),
                dirs == directions@,
                in_bounds(shape, coord@),
                is_direction_set(coord@, s.m, dirs),
                s.rect_at(t as int, coord@) == Some(this@),
                this@.len() == s.m,
                s.rect_at(t as int, stepped_back(coord@, dirs)) == Some(foundation@),
                foundation@.len() == s.m,
                forall|x: int| 0 <= x < d ==> !#[trigger] corner_at(s, t as int, coord@, dirs, x),
            decreases self.m - d,
        {
            assert(coord@[d as int] < shape[d as int]);
            if !contains_axis(directions, d) && coord[d] + 1 < self.n {
                let mut beyond = foundation[d].end > this[d].end;
                let mut i: usize = 0;
                while beyond && i < directions.len()
                    invariant
                        i <= directions@.len(),
                        d < self.m,
                        self.wf(),
                        s == self@,
                        shape == s.shape(),
                        self.m == s.m,
                        self.n == s.n,
                        t < s.rects.len(),
                        dirs == directions@,
                        in_bounds(shape, coord@),
                        is_direction_set(coord@, s.m, dirs),
                        !dirs.contains(d),
                        coord@[d as int] + 1 < s.n,
                        s.rect_at(t as int, stepped_back(coord@, dirs)) == Some(foundation@),
                        foundation@.len() == s.m,
                        s.rect_at(t as int, coord@) == Some(this@),
                        this@.len() == s.m,
                        beyond ==> foundation@[d as int].end > this@[d as int].end,
                        beyond ==> forall|x: int|
                            0 <= x < i ==> corner_beyond(
                                s,
                                t as int,
                                coord@,
                                dirs,
                                d as int,
                                #[trigger] dirs[x] as int,
                            ),
                        !beyond ==> !corner_at(s, t as int, coord@, dirs, d as int),
                    decreases directions@.len() - i, if beyond { 1int } else { 0int },
                {
                    let direction = directions[i];
                    assert(dirs[i as int] < s.m && coord@[dirs[i as int] as int] > 0);
                    let mut other_coord = copy_of(coord);
                    other_coord[d] += 1;
                    other_coord[direction] -= 1;
                    proof {
                        assert(direction != d);
                        assert(other_coord@ =~= corner_coord(coord@, d as int, direction as int));
                        assert(in_bounds(shape, other_coord@)) by {
                            assert forall|a: int| 0 <= a < shape.len() implies #[trigger] other_coord@[a]
                                < shape[a] by {
                                assert(coord@[a] < shape[a]);
                            }
                        }
                        self.lemma_packing(t as int, other_coord@);
                    }
                    match self.packings[t].get(&other_coord) {
                        Some(other) => {
                            if !(foundation[direction].end > other[direction].end) {
                                beyond = false;
                            }
                        },
                        None => {
                            beyond = false;
                        },
                    }
                    proof {
                        if !beyond {
                            assert(!corner_beyond(
                                s,
                                t as int,
                                coord@,
                                dirs,
                                d as int,
                                dirs[i as int] as int,
                            ));
                        }
                    }
                    if beyond {
                        i += 1;
                    }
                }
                if beyond {
                    assert(corner_at(s, t as int, coord@, dirs, d as int));
                    return true;
                }
            }
            d += 1;
        }
        false
    }

    /// Whether, for one of the dimension tuples, the brick at `coord` closes a
    /// sharp corner with the brick one step back along some set of axes.
    pub fn is_sharp_corner(&self, coord: &Coord) -> (sharp: bool)
        requires
            self.wf(),
            in_bounds(self@.shape(), coord@),
            self@.filled(coord@),
        ensures
            sharp == sharp_corner(self@, coord@),
    {
        let ghost s = self@;
        let ghost shape = s.shape();
        let mut possible: Vec<usize> = Vec::new();
        let mut a: usize = 0;
        while a < self.m
            invariant
                a <= self.m,
                self.m == s.m,
                in_bounds(shape, coord@),
                shape == cube_shape(s.n, s.m),
                is_increasing(possible@),
                forall|v: usize| #[trigger] possible@.contains(v) <==> v < a && coord@[v as int] > 0,
            decreases self.m - a,
        {
            if coord[a] > 0 {
                let ghost before = possible@;
                possible.push(a);
                proof {
                    assert forall|i: int, j: int| 0 <= i < j < possible@.len() implies possible@[i]
                        < possible@[j] by {
                        if j == before.len() {
                            assert(before.contains(before[i]));
                        }
                    }
                    assert forall|v: usize| #[trigger] possible@.contains(v) <==> v < a + 1
                        && coord@[v as int] > 0 by {
                        if possible@.contains(v) {
                            let i = choose|i: int| 0 <= i < possible@.len() && possible@[i] == v;
                            if i < before.len() {
                                assert(before.contains(v));
                            }
                        }
                        if v < a + 1 && coord@[v as int] > 0 {
                            if v == a {
                                assert(possible@[before.len() as int] == v);
                            } else {
                                assert(before.contains(v));
                                let i = choose|i: int| 0 <= i < before.len() && before[i] == v;
                                assert(possible@[i] == v);
                            }
                        }
                    }
                }
            }
            a += 1;
        }
        let count = possible.len();
        let mut t: usize = 0;
        while t < self.packings.len()
            invariant
                t <= self.packings@.len(),
                self.wf(),
                s == self@,
                shape == s.shape(),
                self.m == s.m,
                in_bounds(shape, coord@),
                s.filled(coord@),
                self.packings@.len() == s.rects.len(),
                count == possible@.len(),
                is_increasing(possible@),
                forall|v: usize| #[trigger] possible@.contains(v) <==> v < s.m && coord@[v as int] > 0,
                forall|u: int, dirs: Seq<usize>, d: int|
                    0 <= u < t && is_direction_set(coord@, s.m, dirs) && 0 <= d < s.m
                        ==> !#[trigger] corner_at(s, u, coord@, dirs, d),
            decreases self.packings@.len() - t,
        {
            let mut size: usize = 0;
            while size < count
                invariant
                    size <= count,
                    t < self.packings@.len(),
                    self.wf(),
                    s == self@,
                    shape == s.shape(),
                    self.m == s.m,
                    in_bounds(shape, coord@),
                    s.filled(coord@),
                    self.packings@.len() == s.rects.len(),
                    count == possible@.len(),
                    is_increasing(possible@),
                    forall|v: usize|
                        #[trigger] possible@.contains(v) <==> v < s.m && coord@[v as int] > 0,
                    forall|dirs: Seq<usize>, d: int|
                        is_direction_set(coord@, s.m, dirs) && dirs.len() <= size && 0 <= d < s.m
                            ==> !#[trigger] corner_at(s, t as int, coord@, dirs, d),
                decreases count - size,
            {
                size += 1;
                let chosen = combinations(possible.as_slice(), size);
                let ghost all = combinations_spec(possible@, size as nat);
                let mut q: usize = 0;
                while q < chosen.len()
                    invariant
                        q <= chosen@.len(),
                        1 <= size <= count,
                        t < self.packings@.len(),
                        self.wf(),
                        s == self@,
                        shape == s.shape(),
                        self.m == s.m,
                        in_bounds(shape, coord@),
                        s.filled(coord@),
                        self.packings@.len() == s.rects.len(),
                        count == possible@.len(),
                        is_increasing(possible@),
                        forall|v: usize|
                            #[trigger] possible@.contains(v) <==> v < s.m && coord@[v as int] > 0,
                        all == combinations_spec(possible@, size as nat),
                        rows(chosen@) == all,
                        forall|i: int, d: int|
                            0 <= i < q && 0 <= d < s.m ==> !#[trigger] corner_at(
                                s,
                                t as int,
                                coord@,
                                all[i],
                                d,
                            ),
                    decreases chosen@.len() - q,
                {
                    let directions = &chosen[q];
                    proof {
                        assert(all[q as int] == directions@);
                        lemma_combinations_members(possible@, size as nat, q as int);
                        lemma_combinations_increasing(possible@, size as nat, q as int);
                        assert forall|i: int| 0 <= i < directions@.len() implies (
                        #[trigger] directions@[i]) < s.m && coord@[directions@[i] as int] > 0 by {
                            assert(possible@.contains(directions@[i]));
                        }
                    }
                    if self.corner_along(t, coord, directions) {
                        return true;
                    }
                    q += 1;
                }
                proof {
                    assert forall|dirs: Seq<usize>, d: int|
                        is_direction_set(coord@, s.m, dirs) && dirs.len() <= size && 0 <= d
                            < s.m implies !#[trigger] corner_at(s, t as int, coord@, dirs, d) by {
                        if dirs.len() == size {
                            assert forall|i: int| 0 <= i < dirs.len() implies possible@.contains(
                                #[trigger] dirs[i],
                            ) by {}
                            let at = lemma_combinations_complete(possible@, dirs);
                            assert(all[at] == dirs);
                        }
                    }
                }
            }
            proof {
                assert forall|dirs: Seq<usize>, d: int|
                    is_direction_set(coord@, s.m, dirs) && 0 <= d < s.m implies !#[trigger] corner_at(
                    s,
                    t as int,
                    coord@,
                    dirs,
                    d,
                ) by {
                    assert forall|i: int| 0 <= i < dirs.len() implies possible@.contains(
                        #[trigger] dirs[i],
                    ) by {}
                    let at = lemma_combinations_complete(possible@, dirs);
                }
            }
            t += 1;
        }
        false
    }

    /// Whether the brick at `coord` passes all four tests.
    pub fn is_valid(&self, coord: &Coord) -> (valid: bool)
        requires
            self.wf(),
            in_bounds(self@.shape(), coord@),
            self@.filled(coord@),
        ensures
            valid == is_valid_spec(self@, coord@),
    {
        self.satisfies_line_criterion(coord) && !self.has_overlaps(coord) && !self.is_sharp_corner(
            coord,
        ) && self.satisfies_subgrid_criterion(coord)
    }

    /// Whether every brick that has been placed passes the four tests.
    pub fn validate(&self) -> (valid: bool)
        requires
            self.wf(),
        ensures
            valid == validate_spec(self@),
    {
        let ghost s = self@;
        let coords = self.recipe.map.coords();
        let mut i: usize = 0;
        proof {
            crate::grid::lemma_coords_len(s.shape());
        }
        while i < coords.len()
            invariant
                i <= coords@.len(),
                self.wf(),
                s == self@,
                coords@ == self.recipe.map.spec_coords(),
                coords@.len() == s.cells.len(),
                forall|j: int|
                    0 <= j < i && (#[trigger] s.cells[j]).is_some() ==> is_valid_spec(
                        s,
                        coords_spec(s.shape())[j],
                    ),
            decreases coords@.len() - i,
        {
            let coord = &coords[i];
            proof {
                lemma_coords_at(s.shape(), i as int);
                assert(rows(coords@)[i as int] == coord@);
                self.lemma_cell(coord@);
            }
            if self.recipe.map.contains_key(coord) {
                if !self.is_valid(coord) {
                    return false;
                }
            }
            i += 1;
        }
        true
    }

    /// The builder that comes of placing the bricks of `recipe` one after
    /// the other, in row-major order.
    pub fn generate(recipe: &Recipe, dimension_tuples: Vec<DimensionTuple>) -> (builder:
        RecipeBuilder)
        requires
            recipe.wf(),
            valid_tuples(recipe.n, tuple_views(dimension_tuples@)),
        ensures
            builder.wf(),
            builder@.n == recipe.n,
            builder@.m == recipe.m,
            builder@.tuples == tuple_views(dimension_tuples@),
            builder@.limit == default_limit(recipe.n),
            builder@.cells == recipe@.cells,
            abuts(builder@),
    {
        let mut builder = RecipeBuilder::new(recipe.n, recipe.m, dimension_tuples);
        let ghost shape = cube_shape(recipe.n, recipe.m);
        let ghost target = recipe@.cells;
        let coords = recipe.map.coords();
        let mut i: usize = 0;
        proof {
            crate::grid::lemma_coords_len(shape);
        }
        while i < coords.len()
            invariant
                i <= coords@.len(),
                recipe.wf(),
                shape == cube_shape(recipe.n, recipe.m),
                target == recipe@.cells,
                coords@ == recipe.map.spec_coords(),
                coords@.len() == target.len(),
                builder.wf(),
                builder@.n == recipe.n,
                builder@.m == recipe.m,
                builder@.tuples == tuple_views(dimension_tuples@),
                builder@.limit == default_limit(recipe.n),
                builder@.cells.len() == target.len(),
                forall|j: int| 0 <= j < i ==> #[trigger] builder@.cells[j] == target[j],
                empty_from(builder@, i as int),
                abuts(builder@),
            decreases coords@.len() - i,
        {
            let coord = &coords[i];
            proof {
                lemma_coords_at(shape, i as int);
                assert(rows(coords@)[i as int] == coord@);
                builder.lemma_wf();
            }
            match recipe.map.get(coord) {
                Some(orientation) => {
                    let ghost before = builder@;
                    proof {
                        assert(recipe.map.cells()[i as int] == Some(*orientation));
                        assert(before.cells[i as int].is_none());
                        lemma_insert_preserves_abuts(before, coord@, orientation@);
                    }
                    builder.insert(coord, orientation);
                    proof {
                        assert(target[i as int] == Some(orientation@));
                    }
                },
                None => {
                    proof {
                        assert(target[i as int].is_none());
                    }
                },
            }
            i += 1;
        }
        proof {
            builder.lemma_wf();
            assert(builder@.cells =~= target);
        }
        builder
    }

    /// A builder like the one that `new` makes, but with the given bound on
    /// the use of one edge length in one slice.
    pub fn with_subgrid_limit(
        n: usize,
        m: usize,
        dimension_tuples: Vec<DimensionTuple>,
        limit: usize,
    ) -> (builder: RecipeBuilder)
        requires
            valid_tuples(n, tuple_views(dimension_tuples@)),
        ensures
            builder.wf(),
            builder@ == (BuilderState { limit, ..initial_state(n, m, tuple_views(dimension_tuples@)) }),
    {
        let mut builder = RecipeBuilder::new(n, m, dimension_tuples);
        builder.subgrid_limit = limit;
        builder
    }

    /// The bricks of a two-dimensional cross-section for the first dimension
    /// tuple: every axis but two is held at a level. `fixed` names these
    /// axes and levels; each axis is given as the position at which its
    /// level is put into the coordinate built so far.
    pub fn get_rectangles_at(&self, fixed: Vec<(usize, usize)>) -> (rects: Vec<Rectangle>)
        requires
            self.wf(),
            fixed@.len() + 2 == self@.m,
            self@.tuples.len() > 0,
            forall|k: int|
                0 <= k < fixed@.len() ==> (#[trigger] fixed@[k]).0 <= k + 2 && fixed@[k].1 < self@.n,
        ensures
            rects@ == cross_section(self@, fixed@),
    {
        let ghost s = self@;
        let ghost shape = s.shape();
        let mut rects: Vec<Rectangle> = Vec::new();
        let mut fixed_dims: Vec<usize> = Vec::new();
        let mut k: usize = 0;
        while k < fixed.len()
            invariant
                k <= fixed@.len(),
                fixed_dims@ == fixed_axes(fixed@).take(k as int),
            decreases fixed@.len() - k,
        {
            fixed_dims.push(fixed[k].0);
            assert(fixed_dims@ =~= fixed_axes(fixed@).take(k + 1));
            k += 1;
        }
        assert(fixed_axes(fixed@).take(fixed@.len() as int) =~= fixed_axes(fixed@));
        let mut dims: Vec<usize> = Vec::new();
        let mut a: usize = 0;
        while a < self.m
            invariant
                a <= self.m,
                dims@ == axis_spec(self.m).take(a as int),
            decreases self.m - a,
        {
            dims.push(a);
            assert(dims@ =~= axis_spec(self.m).take(a + 1));
            a += 1;
        }
        assert(axis_spec(self.m).take(self.m as int) =~= axis_spec(self.m));
        let varying_dims = list_except(dims.as_slice(), fixed_dims.as_slice());
        let ghost varying = varying_axes(s.m, fixed_axes(fixed@));
        assert(varying_dims@ == varying);
        proof {
            lemma_except_len(axis_spec(s.m), fixed_axes(fixed@));
        }
        let first = varying_dims[0];
        let second = varying_dims[1];
        proof {
            let keep = |v: usize| !is_excluded(fixed_axes(fixed@), v);
            lemma_filter_members(axis_spec(s.m), keep, 0);
            lemma_filter_members(axis_spec(s.m), keep, 1);
            assert(first < s.m && second < s.m);
        }
        let mut i: usize = 0;
        while i < self.n
            invariant
                i <= self.n,
                self.wf(),
                s == self@,
                shape == s.shape(),
                self.n == s.n,
                self.m == s.m,
                self.packings@.len() == s.rects.len(),
                s.rects.len() > 0,
                fixed@.len() + 2 == s.m,
                forall|k: int|
                    0 <= k < fixed@.len() ==> (#[trigger] fixed@[k]).0 <= k + 2 && fixed@[k].1 < s.n,
                varying == varying_axes(s.m, fixed_axes(fixed@)),
                varying.len() >= 2,
                first == varying[0],
                second == varying[1],
                first < s.m,
                second < s.m,
                0 <= i * s.n <= s.n * s.n,
                rects@ == section_upto(s, fixed@, (i * s.n) as nat),
            decreases self.n - i,
        {
            let mut j: usize = 0;
            while j < self.n
                invariant
                    j <= self.n,
                    i < self.n,
                    self.wf(),
                    s == self@,
                    shape == s.shape(),
                    self.n == s.n,
                    self.m == s.m,
                    self.packings@.len() == s.rects.len(),
                    s.rects.len() > 0,
                    fixed@.len() + 2 == s.m,
                    forall|k: int|
                        0 <= k < fixed@.len() ==> (#[trigger] fixed@[k]).0 <= k + 2 && fixed@[k].1
                            < s.n,
                    varying == varying_axes(s.m, fixed_axes(fixed@)),
                    varying.len() >= 2,
                    first == varying[0],
                    second == varying[1],
                    first < s.m,
                    second < s.m,
                    0 <= i * s.n + j <= s.n * s.n,
                    rects@ == section_upto(s, fixed@, (i * s.n + j) as nat),
                decreases self.n - j,
            {
                let mut index: Vec<usize> = Vec::new();
                index.push(i);
                index.push(j);
                assert(index@ =~= section_coord(fixed@, i, j, 0));
                let mut f: usize = 0;
                while f < fixed.len()
                    invariant
                        f <= fixed@.len(),
                        i < s.n,
                        j < s.n,
                        forall|k: int|
                            0 <= k < fixed@.len() ==> (#[trigger] fixed@[k]).0 <= k + 2
                                && fixed@[k].1 < s.n,
                        index@ == section_coord(fixed@, i, j, f as nat),
                        index@.len() == f + 2,
                        forall|x: int| 0 <= x < index@.len() ==> #[trigger] index@[x] < s.n,
                    decreases fixed@.len() - f,
                {
                    let (dim, level) = fixed[f];
                    assert(fixed@[f as int].0 <= f + 2 && fixed@[f as int].1 < s.n);
                    let ghost before = index@;
                    index.insert(dim, level);
                    proof {
                        assert forall|x: int| 0 <= x < index@.len() implies #[trigger] index@[x]
                            < s.n by {
                            if x < dim {
                                assert(index@[x] == before[x]);
                            } else if x > dim {
                                assert(index@[x] == before[x - 1]);
                            }
                        }
                    }
                    f += 1;
                }
                proof {
                    let count = (i * s.n + j + 1) as nat;
                    vstd::arithmetic::div_mod::lemma_fundamental_div_mod_converse(
                        count - 1,
                        s.n as int,
                        i as int,
                        j as int,
                    );
                    assert(in_bounds(shape, index@)) by {
                        assert forall|x: int| 0 <= x < shape.len() implies #[trigger] index@[x]
                            < shape[x] by {}
                    }
                    self.lemma_packing(0, index@);
                    assert(i * s.n + j + 1 <= s.n * s.n) by (nonlinear_arith)
                        requires
                            i < s.n,
                            j < s.n,
                    ;
                }
                match self.packings[0].get(&index) {
                    Some(hyper_rectangle) => {
                        proof {
                            let t = s.tuples[0];
                            let c = index@;
                            let o = s.orientation_at(c).unwrap();
                            let r = hyper_rectangle@;
                            lemma_coords_of_flat_index(shape, c);
                            assert(fits(s.n, s.m, t, c, o, r));
                            assert(r[first as int].end == r[first as int].begin + t[o[first as int] as int]);
                            assert(r[second as int].end == r[second as int].begin + t[o[second as int] as int]);
                            assert(is_orientation(o, s.n, s.m));
                            assert(o[first as int] < s.n && o[second as int] < s.n);
                            assert(0 < t[o[first as int] as int] && 0 < t[o[second as int] as int]);
                        }
                        let rectangle = Rectangle {
                            x: hyper_rectangle[first].begin,
                            y: hyper_rectangle[second].begin,
                            width: hyper_rectangle[first].width(),
                            height: hyper_rectangle[second].width(),
                        };
                        rects.push(rectangle);
                    },
                    None => {},
                }
                j += 1;
            }
            proof {
                assert(i * s.n + s.n == (i + 1) * s.n) by (nonlinear_arith);
            }
            i += 1;
        }
        proof {
            assert(i * s.n == s.n * s.n) by (nonlinear_arith)
                requires
                    i == s.n,
            ;
        }
        rects
    }

    /// The recipe under construction.
    pub fn get_recipe(&self) -> (recipe: &Recipe)
        ensures
            *recipe == self.spec_recipe(),
    {
        &self.recipe
    }

    /// The footprint of the brick at `coord` for each dimension tuple.
    pub fn get_hyper_rectangles(&self, coord: &Coord) -> (rects: Vec<&HyperRectangle>)
        requires
            self.wf(),
            in_bounds(self@.shape(), coord@),
            self@.filled(coord@),
        ensures
            rects@.len() == self@.tuples.len(),
            forall|t: int|
                0 <= t < rects@.len() ==> self@.rect_at(t, coord@) == Some((#[trigger] rects@[t])@),
    {
        let mut rects: Vec<&HyperRectangle> = Vec::new();
        let mut t: usize = 0;
        proof {
            lemma_flat_index_range(self@.shape(), coord@);
        }
        while t < self.packings.len()
            invariant
                t <= self.packings@.len(),
                self.wf(),
                in_bounds(self@.shape(), coord@),
                self@.filled(coord@),
                0 <= flat_index(self@.shape(), coord@) < self@.cells.len(),
                rects@.len() == t,
                forall|u: int|
                    0 <= u < t ==> self@.rect_at(u, coord@) == Some((#[trigger] rects@[u])@),
            decreases self.packings@.len() - t,
        {
            proof {
                let i = flat_index(self@.shape(), coord@);
                assert(self@.rects[t as int][i].is_some() == self@.cells[i].is_some());
                assert(self@.rects[t as int] == cell_views(self.packings@[t as int].cells()));
            }
            let rect = self.packings[t].get(coord).unwrap();
            rects.push(rect);
            t += 1;
        }
        rects
    }
}

} // verus!
