//! The depth-first search for assignments: cells are filled one after the
//! other, each with the first orientation that passes the tests of the
//! builder, and unfilled again when none is left to try. What a search
//! hands back is stated twice: as the outcome of its walk, step by step,
//! and as the assignments that it accepts, in the order of the search.

use vstd::prelude::*;

use crate::combinatorics::{lemma_permutations_members, permutations, permutations_spec, rows};
use crate::grid::{
    axis_spec, coords_spec, cube_shape, flat_index, in_bounds, lemma_coords_at, lemma_coords_len,
    lemma_flat_index_injective, lemma_flat_index_range, volume,
};
use crate::recipe::{is_orientation, Recipe};
use crate::recipe_builder::{
    abuts, default_limit, derived_state, empty_from, is_valid_spec, line_ok,
    lemma_abutting_state_is_derived, lemma_insert_preserves_abuts, lemma_remove_preserves_abuts,
    tuple_views, valid_tuples, RecipeBuilder,
};
use crate::{Coord, DimensionTuple, IntType};

verus! {

/// What a search has found.
pub struct Search {
    /// The complete assignments that were accepted, in the order in which
    /// the search came upon them.
    pub recipes: Vec<Recipe>,
    /// Whether the search tree was walked to its end: if not, the search
    /// stopped at one of its caps.
    pub exhausted: bool,
    /// The steps that the search has made.
    pub steps: usize,
}

/// The orientations that a search tries, in the order in which it tries
/// them: the arrangements of `m` of the `n` edge lengths.
pub open spec fn candidates(n: usize, m: usize) -> Seq<Seq<usize>> {
    permutations_spec(axis_spec(n), m as nat)
}

/// The first `upto` cells of an assignment, the others left empty.
pub open spec fn prefix_cells(cells: Seq<Option<Seq<usize>>>, upto: int) -> Seq<
    Option<Seq<usize>>,
> {
    Seq::new(
        cells.len(),
        |i: int|
            if i < upto {
                cells[i]
            } else {
                None
            },
    )
}

/// Whether the brick in cell `k` passes the four tests when it is placed
/// behind the bricks of the cells before it, in row-major order.
pub open spec fn placed_valid(
    n: usize,
    m: usize,
    tuples: Seq<Seq<IntType>>,
    limit: usize,
    cells: Seq<Option<Seq<usize>>>,
    k: int,
) -> bool {
    is_valid_spec(
        derived_state(n, m, tuples, prefix_cells(cells, k + 1), limit),
        coords_spec(cube_shape(n, m))[k],
    )
}

/// The kernel that fixes no cell of the grid.
pub open spec fn no_kernel(n: usize, m: usize) -> Seq<Option<Seq<usize>>> {
    Seq::new(volume(cube_shape(n, m)), |k: int| None)
}

/// The orientations that a search tries at cell `k`, in the order in which
/// it tries them: the one that the kernel fixes there, or else all the
/// candidates; none where the grid has more axes than edge lengths.
pub open spec fn choices_at(
    n: usize,
    m: usize,
    kernel: Seq<Option<Seq<usize>>>,
    k: int,
) -> Seq<Seq<usize>> {
    match kernel[k] {
        Some(o) => seq![o],
        None => if m <= n {
            candidates(n, m)
        } else {
            Seq::empty()
        },
    }
}

/// Whether a search around the kernel accepts the assignment: every cell is
/// filled with one of the orientations that the search tries there, and
/// every brick passes the tests when it is placed.
pub open spec fn accepted(
    n: usize,
    m: usize,
    tuples: Seq<Seq<IntType>>,
    limit: usize,
    kernel: Seq<Option<Seq<usize>>>,
    cells: Seq<Option<Seq<usize>>>,
) -> bool {
    &&& cells.len() == volume(cube_shape(n, m))
    &&& forall|k: int|
        0 <= k < cells.len() ==> {
            &&& (#[trigger] cells[k]).is_some()
            &&& choices_at(n, m, kernel, k).contains(cells[k].unwrap())
            &&& placed_valid(n, m, tuples, limit, cells, k)
        }
}

/// The assignment that fills every cell `k` with the orientation of index
/// `picks[k]` among those that the search tries there.
pub open spec fn chosen(
    n: usize,
    m: usize,
    kernel: Seq<Option<Seq<usize>>>,
    picks: Seq<int>,
) -> Seq<Option<Seq<usize>>> {
    Seq::new(picks.len(), |k: int| Some(choices_at(n, m, kernel, k)[picks[k]]))
}

/// Whether `picks` names, for every cell of the grid, one of the
/// orientations that the search tries there.
pub open spec fn is_choice(
    n: usize,
    m: usize,
    kernel: Seq<Option<Seq<usize>>>,
    picks: Seq<int>,
) -> bool {
    &&& picks.len() == volume(cube_shape(n, m))
    &&& forall|k: int|
        0 <= k < picks.len() ==> 0 <= #[trigger] picks[k] < choices_at(n, m, kernel, k).len()
}

/// Where a search stands when cell `i` is the cell to be filled and
/// `records` tells how many candidates have been tried at each cell: the
/// choice that it looks at next.
pub open spec fn frontier(records: Seq<usize>, i: int) -> Seq<int> {
    Seq::new(
        records.len(),
        |k: int|
            if k < i {
                records[k] - 1
            } else if k == i {
                records[k] as int
            } else {
                0
            },
    )
}

/// Whether a choice comes before another in the order of the search: the
/// lexicographic order.
pub open spec fn comes_before(picks: Seq<int>, other: Seq<int>) -> bool {
    exists|k: int|
        0 <= k < picks.len() && #[trigger] picks[k] < other[k] && forall|j: int|
            0 <= j < k ==> picks[j] == other[j]
}

/// Whether one of the recipes stands for the assignment `cells`.
pub open spec fn recorded(recipes: Seq<Recipe>, cells: Seq<Option<Seq<usize>>>) -> bool {
    exists|r: int| 0 <= r < recipes.len() && (#[trigger] recipes[r])@.cells == cells
}

/// Whether a choice is one that the search accepts and has passed when it
/// stands at `front`.
pub open spec fn is_due(
    n: usize,
    m: usize,
    tuples: Seq<Seq<IntType>>,
    limit: usize,
    kernel: Seq<Option<Seq<usize>>>,
    picks: Seq<int>,
    front: Seq<int>,
) -> bool {
    &&& is_choice(n, m, kernel, picks)
    &&& accepted(n, m, tuples, limit, kernel, chosen(n, m, kernel, picks))
    &&& comes_before(picks, front)
}

/// Whether the recipes are the assignments of the choices `picks`, one
/// after the other in the order of the search, with no accepted assignment
/// left out before any of them.
pub open spec fn in_search_order(
    n: usize,
    m: usize,
    tuples: Seq<Seq<IntType>>,
    limit: usize,
    kernel: Seq<Option<Seq<usize>>>,
    recipes: Seq<Recipe>,
    picks: Seq<Seq<int>>,
) -> bool {
    &&& picks.len() == recipes.len()
    &&& forall|r: int|
        0 <= r < picks.len() ==> is_choice(n, m, kernel, #[trigger] picks[r]) && chosen(
            n,
            m,
            kernel,
            picks[r],
        ) == recipes[r]@.cells
    &&& forall|q: int, r: int|
        0 <= q < r < picks.len() ==> comes_before(#[trigger] picks[q], #[trigger] picks[r])
    &&& forall|r: int, other: Seq<int>|
        0 <= r < picks.len() && #[trigger] is_due(n, m, tuples, limit, kernel, other, picks[r])
            ==> recorded(recipes, chosen(n, m, kernel, other))
}

/// What a search is asked to do: the grid, the dimension tuples, the limit
/// of the slice counters, the cells that a kernel fixes, the cells that the
/// search fills, in the order in which it fills them, and whether each
/// brick has to pass all four tests or the test along the grid lines only.
pub struct Task {
    pub n: usize,
    pub m: usize,
    pub tuples: Seq<Seq<IntType>>,
    pub limit: usize,
    pub kernel: Seq<Option<Seq<usize>>>,
    pub spots: Seq<Seq<usize>>,
    pub whole: bool,
}

/// Where a search stands: how many orientations it has tried at each of its
/// cells, which of them it fills next, the assignment as it stands, the
/// assignments found so far, and whether the tree has been walked to its
/// end.
pub struct Walk {
    pub tries: Seq<usize>,
    pub at: int,
    pub cells: Seq<Option<Seq<usize>>>,
    pub found: Seq<Seq<Option<Seq<usize>>>>,
    pub exhausted: bool,
}

/// Whether the brick at `spot` passes the tests that the task asks for,
/// when the grid holds `cells`.
pub open spec fn passes(task: Task, cells: Seq<Option<Seq<usize>>>, spot: Seq<usize>) -> bool {
    let state = derived_state(task.n, task.m, task.tuples, cells, task.limit);
    if task.whole {
        is_valid_spec(state, spot)
    } else {
        line_ok(state, spot)
    }
}

/// Where a search begins: nothing tried, at its first cell, the grid empty.
pub open spec fn walk_start(task: Task) -> Walk {
    Walk {
        tries: Seq::new(task.spots.len(), |k: int| 0usize),
        at: 0,
        cells: Seq::new(volume(cube_shape(task.n, task.m)), |k: int| None),
        found: Seq::empty(),
        exhausted: false,
    }
}

/// One step of a search. Where an orientation is left to try at the cell
/// where the search stands, the brick is put there: if it fails the tests
/// it is taken away again; if it passes and the cell is the last one, the
/// assignment is found and the brick taken away again; if it passes
/// elsewhere, the search goes on to the next cell. Where none is left, the
/// search goes back one cell and empties it, or has come to its end at the
/// first cell.
pub open spec fn walk_step(task: Task, w: Walk) -> Walk {
    let shape = cube_shape(task.n, task.m);
    let spot = task.spots[w.at];
    let here = flat_index(shape, spot);
    let choices = choices_at(task.n, task.m, task.kernel, here);
    let tried = w.tries[w.at];
    if tried < choices.len() {
        let filled = w.cells.update(here, Some(choices[tried as int]));
        let tries = w.tries.update(w.at, (tried + 1) as usize);
        if !passes(task, filled, spot) {
            Walk { tries, at: w.at, cells: w.cells, found: w.found, exhausted: false }
        } else if w.at == task.spots.len() - 1 {
            Walk { tries, at: w.at, cells: w.cells, found: w.found.push(filled), exhausted: false }
        } else {
            Walk { tries, at: w.at + 1, cells: filled, found: w.found, exhausted: false }
        }
    } else if w.at == 0 {
        Walk { tries: w.tries, at: w.at, cells: w.cells, found: w.found, exhausted: true }
    } else {
        let last = flat_index(shape, task.spots[w.at - 1]);
        Walk {
            tries: w.tries.update(w.at, 0usize),
            at: w.at - 1,
            cells: w.cells.update(last, None),
            found: w.found,
            exhausted: false,
        }
    }
}

/// Where a search stands after `steps` steps.
pub open spec fn walk(task: Task, steps: nat) -> Walk
    decreases steps,
{
    if steps == 0 {
        walk_start(task)
    } else {
        walk_step(task, walk(task, (steps - 1) as nat))
    }
}

/// Whether a search makes no step after its first `steps` steps: it has
/// walked the whole tree, found `max_recipes` assignments or made
/// `max_iterations` steps.
pub open spec fn stops(task: Task, max_recipes: usize, max_iterations: usize, steps: nat) -> bool {
    let w = walk(task, steps);
    w.exhausted || w.found.len() >= max_recipes || steps >= max_iterations
}

/// The choice that a search looks at next after `steps` steps.
pub open spec fn reached(task: Task, steps: nat) -> Seq<int> {
    frontier(walk(task, steps).tries, walk(task, steps).at)
}

/// The assignments that the recipes stand for, one after the other.
pub open spec fn found_cells(recipes: Seq<Recipe>) -> Seq<Seq<Option<Seq<usize>>>> {
    Seq::new(recipes.len(), |r: int| recipes[r]@.cells)
}

/// Whether a search with the given caps makes `steps` steps and then hands
/// back `found`, with `exhausted` telling whether it walked the whole tree.
/// A search with cells to fill stops at the first step count at which it
/// has walked the whole tree or met a cap, and hands back what the walk has
/// found by then. A search with no cell to fill makes no step: the grid as
/// it stands is its one assignment, handed back where `max_recipes` admits
/// one.
pub open spec fn is_outcome(
    task: Task,
    max_recipes: usize,
    max_iterations: usize,
    steps: nat,
    exhausted: bool,
    found: Seq<Seq<Option<Seq<usize>>>>,
) -> bool {
    if task.spots.len() == 0 {
        &&& steps == 0
        &&& exhausted == (max_recipes > 0)
        &&& found == if max_recipes > 0 {
            seq![walk_start(task).cells]
        } else {
            Seq::empty()
        }
    } else {
        &&& stops(task, max_recipes, max_iterations, steps)
        &&& forall|s: nat| s < steps ==> !#[trigger] stops(task, max_recipes, max_iterations, s)
        &&& exhausted == walk(task, steps).exhausted
        &&& found == walk(task, steps).found
    }
}

/// The task of a search of the whole grid around a kernel.
pub open spec fn whole_task(
    n: usize,
    m: usize,
    tuples: Seq<Seq<IntType>>,
    kernel: Seq<Option<Seq<usize>>>,
) -> Task {
    Task {
        n,
        m,
        tuples,
        limit: default_limit(n),
        kernel,
        spots: coords_spec(cube_shape(n, m)),
        whole: true,
    }
}

/// The task of a search that fills the listed cells only and tests each
/// brick along the grid lines only.
pub open spec fn cells_task(
    n: usize,
    m: usize,
    tuples: Seq<Seq<IntType>>,
    spots: Seq<Seq<usize>>,
) -> Task {
    Task {
        n,
        m,
        tuples,
        limit: default_limit(n),
        kernel: no_kernel(n, m),
        spots,
        whole: false,
    }
}

/// The outcome of a search is one: two outcomes of one task with the same
/// caps agree in the steps made, in what was found and in whether the tree
/// was walked to its end.
pub proof fn lemma_outcome_is_one(
    task: Task,
    max_recipes: usize,
    max_iterations: usize,
    steps: nat,
    exhausted: bool,
    found: Seq<Seq<Option<Seq<usize>>>>,
    other_steps: nat,
    other_exhausted: bool,
    other_found: Seq<Seq<Option<Seq<usize>>>>,
)
    requires
        is_outcome(task, max_recipes, max_iterations, steps, exhausted, found),
        is_outcome(task, max_recipes, max_iterations, other_steps, other_exhausted, other_found),
    ensures
        steps == other_steps,
        exhausted == other_exhausted,
        found == other_found,
{
    if task.spots.len() > 0 {
        if steps < other_steps {
            assert(!stops(task, max_recipes, max_iterations, steps));
        }
        if other_steps < steps {
            assert(!stops(task, max_recipes, max_iterations, other_steps));
        }
    }
}

/// A choice that comes before a choice that comes before a third one comes
/// before the third one.
pub proof fn lemma_comes_before_twice(a: Seq<int>, b: Seq<int>, c: Seq<int>)
    requires
        a.len() == b.len(),
        b.len() == c.len(),
        comes_before(a, b),
        comes_before(b, c),
    ensures
        comes_before(a, c),
{
    let k = choose|k: int|
        0 <= k < a.len() && #[trigger] a[k] < b[k] && forall|j: int| 0 <= j < k ==> a[j] == b[j];
    let l = choose|l: int|
        0 <= l < b.len() && #[trigger] b[l] < c[l] && forall|j: int| 0 <= j < l ==> b[j] == c[j];
    let first = if k <= l {
        k
    } else {
        l
    };
    assert(a[first] < c[first]);
    assert forall|j: int| 0 <= j < first implies a[j] == c[j] by {
        assert(a[j] == b[j] && b[j] == c[j]);
    }
}

/// Every accepted assignment is the assignment of a choice.
pub proof fn lemma_accepted_is_chosen(
    n: usize,
    m: usize,
    tuples: Seq<Seq<IntType>>,
    limit: usize,
    kernel: Seq<Option<Seq<usize>>>,
    cells: Seq<Option<Seq<usize>>>,
) -> (picks: Seq<int>)
    requires
        accepted(n, m, tuples, limit, kernel, cells),
    ensures
        is_choice(n, m, kernel, picks),
        chosen(n, m, kernel, picks) == cells,
{
    let picks = Seq::new(
        cells.len(),
        |k: int| choices_at(n, m, kernel, k).index_of(cells[k].unwrap()),
    );
    assert forall|k: int| 0 <= k < picks.len() implies 0 <= #[trigger] picks[k] < choices_at(
        n,
        m,
        kernel,
        k,
    ).len() && choices_at(n, m, kernel, k)[picks[k]] == cells[k].unwrap() by {
        assert(cells[k].is_some());
        assert(choices_at(n, m, kernel, k).contains(cells[k].unwrap()));
    }
    assert(chosen(n, m, kernel, picks) =~= cells) by {
        assert forall|k: int| 0 <= k < cells.len() implies chosen(n, m, kernel, picks)[k]
            == cells[k] by {
            assert(cells[k].is_some());
            assert(choices_at(n, m, kernel, k)[picks[k]] == cells[k].unwrap());
        }
    }
    picks
}

/// Searches the cubic grid of side `n` in `m` dimensions for assignments
/// that are valid for all the dimension tuples at once. The search stops
/// when it has walked the whole tree, when it has found `max_recipes`
/// assignments, or after `max_iterations` steps, whichever comes first, and
/// tells how many steps it made. What it returns are accepted assignments,
/// all those that come before the place where it stopped; where it has
/// walked the whole tree, they are all the accepted assignments.
pub fn backtrack(
    n: usize,
    m: usize,
    dimension_tuples: Vec<DimensionTuple>,
    max_recipes: usize,
    max_iterations: usize,
) -> (found: Search)
    requires
        valid_tuples(n, tuple_views(dimension_tuples@)),
    ensures
        found.recipes@.len() <= max_recipes,
        forall|r: int|
            0 <= r < found.recipes@.len() ==> {
                &&& (#[trigger] found.recipes@[r]).wf()
                &&& found.recipes@[r].n == n
                &&& found.recipes@[r].m == m
                &&& found.recipes@[r].is_complete()
                &&& accepted(
                    n,
                    m,
                    tuple_views(dimension_tuples@),
                    default_limit(n),
                    no_kernel(n, m),
                    found.recipes@[r]@.cells,
                )
            },
        found.exhausted ==> forall|cells: Seq<Option<Seq<usize>>>|
            #[trigger] accepted(
                n,
                m,
                tuple_views(dimension_tuples@),
                default_limit(n),
                no_kernel(n, m),
                cells,
            ) ==> recorded(found.recipes@, cells),
        exists|picks: Seq<Seq<int>>| #[trigger]
            in_search_order(
                n,
                m,
                tuple_views(dimension_tuples@),
                default_limit(n),
                no_kernel(n, m),
                found.recipes@,
                picks,
            ),
        found.steps <= max_iterations,
        !found.exhausted ==> found.recipes@.len() == max_recipes || found.steps == max_iterations,
        is_outcome(
            whole_task(n, m, tuple_views(dimension_tuples@), no_kernel(n, m)),
            max_recipes,
            max_iterations,
            found.steps as nat,
            found.exhausted,
            found_cells(found.recipes@),
        ),
        forall|picks: Seq<int>| #[trigger]
            is_due(
                n,
                m,
                tuple_views(dimension_tuples@),
                default_limit(n),
                no_kernel(n, m),
                picks,
                reached(
                    whole_task(n, m, tuple_views(dimension_tuples@), no_kernel(n, m)),
                    found.steps as nat,
                ),
            ) ==> recorded(found.recipes@, chosen(n, m, no_kernel(n, m), picks)),
{
    let kernel = Recipe::new(n, m);
    assert(kernel@.cells =~= no_kernel(n, m));
    backtrack_around(&kernel, dimension_tuples, max_recipes, max_iterations)
}

/// Searches the grid of the kernel for assignments that are valid for all
/// the dimension tuples at once and agree with the kernel in every cell that
/// the kernel fills. The search stops when it has walked the whole tree,
/// when it has found `max_recipes` assignments, or after `max_iterations`
/// steps, whichever comes first, and tells how many steps it made. What it
/// returns are accepted assignments, all those that come before the place
/// where it stopped; where it has walked the whole tree, they are all the
/// accepted assignments.
#[verifier::rlimit(60)]
pub fn backtrack_around(
    kernel: &Recipe,
    dimension_tuples: Vec<DimensionTuple>,
    max_recipes: usize,
    max_iterations: usize,
) -> (found: Search)
    requires
        kernel.wf(),
        valid_tuples(kernel.n, tuple_views(dimension_tuples@)),
    ensures
        found.recipes@.len() <= max_recipes,
        forall|r: int|
            0 <= r < found.recipes@.len() ==> {
                &&& (#[trigger] found.recipes@[r]).wf()
                &&& found.recipes@[r].n == kernel.n
                &&& found.recipes@[r].m == kernel.m
                &&& found.recipes@[r].is_complete()
                &&& accepted(
                    kernel.n,
                    kernel.m,
                    tuple_views(dimension_tuples@),
                    default_limit(kernel.n),
                    kernel@.cells,
                    found.recipes@[r]@.cells,
                )
            },
        found.exhausted ==> forall|cells: Seq<Option<Seq<usize>>>|
            #[trigger] accepted(
                kernel.n,
                kernel.m,
                tuple_views(dimension_tuples@),
                default_limit(kernel.n),
                kernel@.cells,
                cells,
            ) ==> recorded(found.recipes@, cells),
        exists|picks: Seq<Seq<int>>| #[trigger]
            in_search_order(
                kernel.n,
                kernel.m,
                tuple_views(dimension_tuples@),
                default_limit(kernel.n),
                kernel@.cells,
                found.recipes@,
                picks,
            ),
        found.steps <= max_iterations,
        !found.exhausted ==> found.recipes@.len() == max_recipes || found.steps == max_iterations,
        is_outcome(
            whole_task(kernel.n, kernel.m, tuple_views(dimension_tuples@), kernel@.cells),
            max_recipes,
            max_iterations,
            found.steps as nat,
            found.exhausted,
            found_cells(found.recipes@),
        ),
        forall|picks: Seq<int>| #[trigger]
            is_due(
                kernel.n,
                kernel.m,
                tuple_views(dimension_tuples@),
                default_limit(kernel.n),
                kernel@.cells,
                picks,
                reached(
                    whole_task(kernel.n, kernel.m, tuple_views(dimension_tuples@), kernel@.cells),
                    found.steps as nat,
                ),
            ) ==> recorded(found.recipes@, chosen(kernel.n, kernel.m, kernel@.cells, picks)),
{
    let n = kernel.n;
    let m = kernel.m;
    let ghost fixed = kernel@.cells;
    let ghost tuples = tuple_views(dimension_tuples@);
    let ghost limit = default_limit(n);
    let ghost shape = cube_shape(n, m);
    let ghost task = whole_task(n, m, tuples, fixed);
    let mut recipes: Vec<Recipe> = Vec::new();
    let mut builder = RecipeBuilder::new(n, m, dimension_tuples);
    let mut indices: Vec<usize> = Vec::new();
    let mut a: usize = 0;
    while a < n
        invariant
            a <= n,
            indices@ == axis_spec(n).take(a as int),
        decreases n - a,
    {
        indices.push(a);
        assert(indices@ =~= axis_spec(n).take(a + 1));
        a += 1;
    }
    assert(axis_spec(n).take(n as int) =~= axis_spec(n));
    let perms = permutations(indices.as_slice(), m);
    let max_tries = perms.len();
    proof {
        builder.lemma_wf();
        lemma_coords_len(shape);
    }
    let total = builder.get_recipe().map.coords().len();
    if total == 0 {
        // The grid has no cell: the one assignment is complete as it is.
        let exhausted = max_recipes > 0;
        let ghost mut picks: Seq<Seq<int>> = Seq::empty();
        if exhausted {
            let recipe = builder.get_recipe().clone();
            recipes.push(recipe);
            proof {
                assert(recipes@[0].map.cells().len() == 0);
                assert forall|cells: Seq<Option<Seq<usize>>>| #[trigger]
                    accepted(n, m, tuples, limit, fixed, cells) implies recorded(recipes@, cells) by {
                    assert(recipes@[0]@.cells =~= cells);
                }
                let nothing = Seq::<int>::empty();
                picks = seq![nothing];
                assert(chosen(n, m, fixed, nothing) =~= recipes@[0]@.cells);
                assert forall|r: int, other: Seq<int>|
                    0 <= r < picks.len() && #[trigger] is_due(
                        n,
                        m,
                        tuples,
                        limit,
                        fixed,
                        other,
                        picks[r],
                    ) implies recorded(recipes@, chosen(n, m, fixed, other)) by {
                    assert(chosen(n, m, fixed, other) =~= recipes@[0]@.cells);
                }
            }
        }
        let found = Search { recipes, exhausted, steps: 0 };
        assert(in_search_order(n, m, tuples, limit, fixed, found.recipes@, picks));
        proof {
            if exhausted {
                assert(found.recipes@[0]@.cells =~= walk_start(task).cells);
                assert(found_cells(found.recipes@) =~= seq![walk_start(task).cells]);
            } else {
                assert(found_cells(found.recipes@) =~= Seq::empty());
            }
        }
        return found;
    }
    let free_tries = if m <= n {
        max_tries
    } else {
        0
    };
    let mut records: Vec<usize> = Vec::new();
    let mut z: usize = 0;
    while z < total
        invariant
            z <= total,
            records@.len() == z,
            forall|j: int| 0 <= j < z ==> #[trigger] records@[j] == 0,
        decreases total - z,
    {
        records.push(0);
        z += 1;
    }
    let mut i: usize = 0;
    let mut iteration: usize = 0;
    let mut exhausted = false;
    let ghost mut listed: Seq<Seq<int>> = Seq::empty();
    proof {
        assert(walk(task, 0).tries =~= records@);
        assert(walk(task, 0).cells =~= builder@.cells);
        assert(walk(task, 0).found =~= found_cells(recipes@));
    }
    while iteration < max_iterations && recipes.len() < max_recipes
        invariant_except_break
            !exhausted,
            !walk(task, iteration as nat).exhausted,
        invariant
            iteration <= max_iterations,
            task == whole_task(n, m, tuples, fixed),
            walk(task, iteration as nat).tries == records@,
            walk(task, iteration as nat).at == i,
            walk(task, iteration as nat).cells == builder@.cells,
            walk(task, iteration as nat).found == found_cells(recipes@),
            forall|s: nat|
                s < iteration ==> !#[trigger] stops(task, max_recipes, max_iterations, s),
            i < total,
            kernel.wf(),
            n == kernel.n,
            m == kernel.m,
            fixed == kernel@.cells,
            free_tries == (if m <= n {
                max_tries
            } else {
                0
            }),
            total == volume(shape),
            shape == cube_shape(n, m),
            tuples == tuple_views(dimension_tuples@),
            limit == default_limit(n),
            max_tries == perms@.len(),
            rows(perms@) == candidates(n, m),
            records@.len() == total,
            forall|j: int|
                0 <= j < total ==> #[trigger] records@[j] <= choices_at(n, m, fixed, j).len(),
            forall|j: int|
                0 <= j < i ==> 1 <= #[trigger] records@[j] && builder@.cells[j] == Some(
                    choices_at(n, m, fixed, j)[records@[j] - 1],
                ),
            forall|j: int| i < j < total ==> #[trigger] records@[j] == 0,
            builder.wf(),
            builder@.n == n,
            builder@.m == m,
            builder@.tuples == tuples,
            builder@.limit == limit,
            builder@.cells.len() == total,
            forall|j: int|
                0 <= j < i ==> (#[trigger] builder@.cells[j]).is_some() && choices_at(
                    n,
                    m,
                    fixed,
                    j,
                ).contains(builder@.cells[j].unwrap()),
            empty_from(builder@, i as int),
            abuts(builder@),
            forall|j: int|
                0 <= j < i ==> #[trigger] placed_valid(n, m, tuples, limit, builder@.cells, j),
            recipes@.len() <= max_recipes,
            forall|r: int|
                0 <= r < recipes@.len() ==> {
                    &&& (#[trigger] recipes@[r]).wf()
                    &&& recipes@[r].n == n
                    &&& recipes@[r].m == m
                    &&& recipes@[r].is_complete()
                    &&& accepted(n, m, tuples, limit, fixed, recipes@[r]@.cells)
                },
            forall|picks: Seq<int>| #[trigger]
                is_due(n, m, tuples, limit, fixed, picks, frontier(records@, i as int)) ==> recorded(
                    recipes@,
                    chosen(n, m, fixed, picks),
                ),
            in_search_order(n, m, tuples, limit, fixed, recipes@, listed),
            forall|r: int|
                0 <= r < listed.len() ==> comes_before(
                    #[trigger] listed[r],
                    frontier(records@, i as int),
                ),
        ensures
            iteration <= max_iterations,
            forall|picks: Seq<int>| #[trigger]
                is_due(n, m, tuples, limit, fixed, picks, reached(task, iteration as nat))
                    ==> recorded(recipes@, chosen(n, m, fixed, picks)),
            is_outcome(
                task,
                max_recipes,
                max_iterations,
                iteration as nat,
                exhausted,
                found_cells(recipes@),
            ),
            in_search_order(n, m, tuples, limit, fixed, recipes@, listed),
            exhausted ==> forall|cells: Seq<Option<Seq<usize>>>| #[trigger]
                accepted(n, m, tuples, limit, fixed, cells) ==> recorded(recipes@, cells),
            recipes@.len() <= max_recipes,
            forall|r: int|
                0 <= r < recipes@.len() ==> {
                    &&& (#[trigger] recipes@[r]).wf()
                    &&& recipes@[r].n == n
                    &&& recipes@[r].m == m
                    &&& recipes@[r].is_complete()
                    &&& accepted(n, m, tuples, limit, fixed, recipes@[r]@.cells)
                },
        decreases max_iterations - iteration,
    {
        let ghost w = walk(task, iteration as nat);
        proof {
            assert(!stops(task, max_recipes, max_iterations, iteration as nat));
            assert(walk(task, (iteration + 1) as nat) == walk_step(task, w));
        }
        iteration += 1;
        let ghost before = builder@;
        let ghost front = frontier(records@, i as int);
        let ghost known = recipes@;
        let ghost tries = records@;
        proof {
            builder.lemma_wf();
            lemma_coords_at(shape, i as int);
        }
        let recipe_coords = builder.get_recipe().map.coords();
        let coord = crate::recipe_builder::copy_of(&recipe_coords[i]);
        proof {
            assert(rows(recipe_coords@)[i as int] == recipe_coords@[i as int]@);
            kernel.lemma_is_assignment();
        }
        let inside = kernel.map.get(&coord);
        let max_here = match inside {
            Some(_) => 1,
            None => free_tries,
        };
        assert(max_here == choices_at(n, m, fixed, i as int).len());
        if records[i] < max_here {
            let tried = records[i];
            let orientation = match inside {
                Some(o) => o,
                None => &perms[tried],
            };
            proof {
                assert(orientation@ == choices_at(n, m, fixed, i as int)[tried as int]);
                if inside.is_none() {
                    lemma_permutations_members(axis_spec(n), m as nat, tried as int);
                    assert(rows(perms@)[tried as int] == orientation@);
                    assert forall|x: int| 0 <= x < m implies #[trigger] orientation@[x] < n by {
                        assert(axis_spec(n).contains(orientation@[x]));
                    }
                } else {
                    assert(kernel.map.cells()[i as int] matches Some(o) ==> is_orientation(
                        o@,
                        n,
                        m,
                    ));
                }
                assert(is_orientation(orientation@, n, m));
                assert(before.cells[i as int].is_none());
                lemma_insert_preserves_abuts(
                    before,
                    coords_spec(shape)[i as int],
                    orientation@,
                );
            }
            builder.insert(&coord, orientation);
            records[i] = tried + 1;
            let ghost placed = builder@;
            proof {
                builder.lemma_wf();
                lemma_abutting_state_is_derived(placed);
                assert(prefix_cells(placed.cells, i + 1) =~= placed.cells);
                assert forall|j: int| 0 <= j < i implies #[trigger] placed_valid(
                    n,
                    m,
                    tuples,
                    limit,
                    placed.cells,
                    j,
                ) by {
                    assert(placed_valid(n, m, tuples, limit, before.cells, j));
                    assert(prefix_cells(placed.cells, j + 1) =~= prefix_cells(before.cells, j + 1));
                }
                assert(choices_at(n, m, fixed, i as int).contains(orientation@));
                assert(frontier(records@, i + 1) =~= front);
            }
            let valid = builder.is_valid(&coord);
            if valid {
                proof {
                    assert(placed_valid(n, m, tuples, limit, placed.cells, i as int));
                }
                if i == total - 1 {
                    let recipe = builder.get_recipe().clone();
                    proof {
                        assert(accepted(n, m, tuples, limit, fixed, recipe@.cells));
                        assert forall|k: int| 0 <= k < recipe.map.cells().len() implies (
                        #[trigger] recipe.map.cells()[k]).is_some() by {
                            assert(recipe@.cells[k].is_some());
                        }
                    }
                    recipes.push(recipe);
                    proof {
                        assert(recipes@[known.len() as int]@.cells == placed.cells);
                        let earlier = listed;
                        assert(is_choice(n, m, fixed, front)) by {
                            assert forall|k: int| 0 <= k < front.len() implies 0 <= #[trigger] front[k]
                                < choices_at(n, m, fixed, k).len() by {
                                if k < i {
                                    assert(1 <= tries[k]);
                                }
                            }
                        }
                        assert(chosen(n, m, fixed, front) =~= placed.cells) by {
                            assert forall|k: int| 0 <= k < total implies chosen(n, m, fixed, front)[k]
                                == placed.cells[k] by {
                                if k < i {
                                    assert(before.cells[k] == Some(
                                        choices_at(n, m, fixed, k)[tries[k] - 1],
                                    ));
                                }
                            }
                        }
                        listed = earlier.push(front);
                        assert forall|r: int, other: Seq<int>|
                            0 <= r < listed.len() && #[trigger] is_due(
                                n,
                                m,
                                tuples,
                                limit,
                                fixed,
                                other,
                                listed[r],
                            ) implies recorded(recipes@, chosen(n, m, fixed, other)) by {
                            if r < earlier.len() {
                                assert(is_due(n, m, tuples, limit, fixed, other, earlier[r]));
                            }
                            let at = choose|at: int|
                                0 <= at < known.len() && (#[trigger] known[at])@.cells == chosen(
                                    n,
                                    m,
                                    fixed,
                                    other,
                                );
                            assert(recipes@[at] == known[at]);
                        }
                        assert forall|r: int| 0 <= r < listed.len() implies is_choice(
                            n,
                            m,
                            fixed,
                            #[trigger] listed[r],
                        ) && chosen(n, m, fixed, listed[r]) == recipes@[r]@.cells by {
                            if r < earlier.len() {
                                assert(recipes@[r] == known[r]);
                            }
                        }
                        assert(in_search_order(n, m, tuples, limit, fixed, recipes@, listed));
                    }
                } else {
                    i += 1;
                    continue ;
                }
            }
            proof {
                assert(walk_step(task, w).found =~= found_cells(recipes@));
            }
            proof {
                lemma_remove_preserves_abuts(placed, coord@);
                // Every choice that has come to stand before the search is
                // recorded, or is not accepted.
                let next = frontier(records@, i as int);
                assert forall|r: int| 0 <= r < listed.len() implies comes_before(
                    #[trigger] listed[r],
                    next,
                ) by {
                    let pick = listed[r];
                    if r < known.len() {
                        let k = choose|k: int|
                            0 <= k < pick.len() && #[trigger] pick[k] < front[k] && forall|j: int|
                                0 <= j < k ==> pick[j] == front[j];
                        assert(pick[k] < next[k]);
                        assert forall|j: int| 0 <= j < k implies pick[j] == next[j] by {
                            assert(pick[j] == front[j]);
                        }
                    } else {
                        assert(pick == front);
                        assert(pick[i as int] < next[i as int]);
                    }
                }
                assert forall|picks: Seq<int>| #[trigger]
                    is_due(n, m, tuples, limit, fixed, picks, next) implies recorded(
                    recipes@,
                    chosen(n, m, fixed, picks),
                ) by {
                    let k = choose|k: int|
                        0 <= k < picks.len() && #[trigger] picks[k] < next[k] && forall|j: int|
                            0 <= j < k ==> picks[j] == next[j];
                    if k < i || (k == i && picks[k] < tried) {
                        assert(picks[k] < front[k]);
                        assert forall|j: int| 0 <= j < k implies picks[j] == front[j] by {
                            assert(picks[j] == next[j]);
                        }
                        assert(comes_before(picks, front));
                        assert(is_due(n, m, tuples, limit, fixed, picks, front));
                        let r = choose|r: int|
                            0 <= r < known.len() && (#[trigger] known[r])@.cells == chosen(n, m, fixed, picks);
                        assert(recipes@[r] == known[r]);
                    } else {
                        assert(k == i && picks[i as int] == tried);
                        let cells = chosen(n, m, fixed, picks);
                        assert(prefix_cells(cells, i + 1) =~= placed.cells) by {
                            assert forall|j: int| 0 <= j < total implies prefix_cells(cells, i + 1)[j]
                                == placed.cells[j] by {
                                if j < i {
                                    assert(picks[j] == next[j]);
                                    assert(before.cells[j] == Some(
                                        choices_at(n, m, fixed, j)[tries[j] - 1],
                                    ));
                                } else if j > i {
                                    assert(before.cells[j].is_none());
                                }
                            }
                        }
                        assert(cells[i as int].is_some());
                        assert(placed_valid(n, m, tuples, limit, cells, i as int));
                        assert(valid);
                        assert(i == total - 1);
                        assert(cells =~= prefix_cells(cells, i + 1));
                    }
                }
            }
            builder.remove(&coord);
            proof {
                builder.lemma_wf();
                assert(builder@.cells =~= before.cells);
                assert forall|j: int| 0 <= j < i implies #[trigger] placed_valid(
                    n,
                    m,
                    tuples,
                    limit,
                    builder@.cells,
                    j,
                ) by {
                    assert(placed_valid(n, m, tuples, limit, before.cells, j));
                }
            }
        } else {
            if i == 0 {
                proof {
                    assert forall|cells: Seq<Option<Seq<usize>>>| #[trigger]
                        accepted(n, m, tuples, limit, fixed, cells) implies recorded(recipes@, cells) by {
                        let picks = lemma_accepted_is_chosen(n, m, tuples, limit, fixed, cells);
                        assert(picks[0] < front[0]);
                        assert(comes_before(picks, front));
                        assert(is_due(n, m, tuples, limit, fixed, picks, front));
                    }
                }
                exhausted = true;
                break ;
            }
            records[i] = 0;
            i -= 1;
            let placed_coords = builder.get_recipe().map.coords();
            let last = crate::recipe_builder::copy_of(&placed_coords[i]);
            proof {
                lemma_coords_at(shape, i as int);
                assert(rows(placed_coords@)[i as int] == placed_coords@[i as int]@);
                lemma_remove_preserves_abuts(before, last@);
                let next = frontier(records@, i as int);
                assert forall|r: int| 0 <= r < listed.len() implies comes_before(
                    #[trigger] listed[r],
                    next,
                ) by {
                    let pick = listed[r];
                    let k = choose|k: int|
                        0 <= k < pick.len() && #[trigger] pick[k] < front[k] && forall|j: int|
                            0 <= j < k ==> pick[j] == front[j];
                    assert(is_choice(n, m, fixed, pick));
                    if k < i {
                        assert(pick[k] < next[k]);
                        assert forall|j: int| 0 <= j < k implies pick[j] == next[j] by {
                            assert(pick[j] == front[j]);
                        }
                    } else if k == i {
                        assert(pick[k] < next[k]);
                        assert forall|j: int| 0 <= j < k implies pick[j] == next[j] by {
                            assert(pick[j] == front[j]);
                        }
                    } else {
                        assert(pick[i as int] == front[i as int]);
                        assert(pick[i as int] < next[i as int]);
                        assert forall|j: int| 0 <= j < i implies pick[j] == next[j] by {
                            assert(pick[j] == front[j]);
                        }
                    }
                }
                assert forall|picks: Seq<int>| #[trigger]
                    is_due(n, m, tuples, limit, fixed, picks, next) implies recorded(
                    recipes@,
                    chosen(n, m, fixed, picks),
                ) by {
                    let k = choose|k: int|
                        0 <= k < picks.len() && #[trigger] picks[k] < next[k] && forall|j: int|
                            0 <= j < k ==> picks[j] == next[j];
                    assert(k <= i);
                    if k < i || picks[k] < front[k] {
                        assert(picks[k] < front[k]);
                        assert forall|j: int| 0 <= j < k implies picks[j] == front[j] by {
                            assert(picks[j] == next[j]);
                        }
                        assert(comes_before(picks, front));
                    } else {
                        assert(picks[i as int] == front[i as int]);
                        assert(picks[i + 1] < front[i + 1]);
                        assert forall|j: int| 0 <= j < i + 1 implies picks[j] == front[j] by {
                            if j < i {
                                assert(picks[j] == next[j]);
                            }
                        }
                        assert(comes_before(picks, front));
                    }
                    assert(is_due(n, m, tuples, limit, fixed, picks, front));
                }
            }
            builder.remove(&last);
            proof {
                builder.lemma_wf();
                assert forall|j: int| 0 <= j < i implies #[trigger] placed_valid(
                    n,
                    m,
                    tuples,
                    limit,
                    builder@.cells,
                    j,
                ) by {
                    assert(placed_valid(n, m, tuples, limit, before.cells, j));
                    assert(prefix_cells(builder@.cells, j + 1) =~= prefix_cells(before.cells, j + 1));
                }
            }
        }
    }
    let found = Search { recipes, exhausted, steps: iteration };
    assert(in_search_order(n, m, tuples, limit, fixed, found.recipes@, listed));
    found
}

/// The orientations that a search tries at the cell of position `p` in its
/// list of cells.
pub open spec fn options(task: Task, p: int) -> Seq<Seq<usize>> {
    choices_at(task.n, task.m, task.kernel, flat_index(cube_shape(task.n, task.m), task.spots[p]))
}

/// The grid when the first `upto` cells of the list have been filled, the
/// cell of position `p` with the orientation of index `picks[p]` among
/// those that the search tries there.
pub open spec fn laid(task: Task, picks: Seq<int>, upto: int) -> Seq<Option<Seq<usize>>>
    decreases upto,
{
    if upto <= 0 {
        Seq::new(volume(cube_shape(task.n, task.m)), |k: int| None)
    } else {
        laid(task, picks, upto - 1).update(
            flat_index(cube_shape(task.n, task.m), task.spots[upto - 1]),
            Some(options(task, upto - 1)[picks[upto - 1]]),
        )
    }
}

/// Whether `picks` names, for every cell of the list, one of the
/// orientations that the search tries there.
pub open spec fn is_laying(task: Task, picks: Seq<int>) -> bool {
    &&& picks.len() == task.spots.len()
    &&& forall|p: int| 0 <= p < picks.len() ==> 0 <= #[trigger] picks[p] < options(task, p).len()
}

/// Whether the brick of position `p` passes the tests of the task when it
/// is placed behind the bricks of the positions before it.
pub open spec fn laid_ok(task: Task, picks: Seq<int>, p: int) -> bool {
    passes(task, laid(task, picks, p + 1), task.spots[p])
}

/// Whether the search admits the choice: it names an orientation for every
/// cell of the list, and every brick passes the tests when it is placed.
pub open spec fn admitted(task: Task, picks: Seq<int>) -> bool {
    &&& is_laying(task, picks)
    &&& forall|p: int| 0 <= p < picks.len() ==> #[trigger] laid_ok(task, picks, p)
}

/// Whether a choice is one that the search admits and has passed when it
/// stands at `front`.
pub open spec fn is_owed(task: Task, picks: Seq<int>, front: Seq<int>) -> bool {
    admitted(task, picks) && comes_before(picks, front)
}

/// The assignment that a choice stands for.
pub open spec fn laid_whole(task: Task, picks: Seq<int>) -> Seq<Option<Seq<usize>>> {
    laid(task, picks, task.spots.len() as int)
}

/// Whether the recipes are the assignments of the choices `listed`, one
/// after the other in the order of the search, each of them admitted, with
/// no admitted choice left out before any of them.
pub open spec fn in_laying_order(task: Task, recipes: Seq<Recipe>, listed: Seq<Seq<int>>) -> bool {
    &&& listed.len() == recipes.len()
    &&& forall|r: int|
        0 <= r < listed.len() ==> admitted(task, #[trigger] listed[r]) && laid_whole(
            task,
            listed[r],
        ) == recipes[r]@.cells
    &&& forall|q: int, r: int|
        0 <= q < r < listed.len() ==> comes_before(#[trigger] listed[q], #[trigger] listed[r])
    &&& forall|r: int, other: Seq<int>|
        0 <= r < listed.len() && #[trigger] is_owed(task, other, listed[r]) ==> recorded(
            recipes,
            laid_whole(task, other),
        )
}

/// Whether the cells of the list are cells of the grid, none of them listed
/// twice.
pub open spec fn spots_fit(task: Task) -> bool {
    &&& forall|p: int|
        0 <= p < task.spots.len() ==> in_bounds(cube_shape(task.n, task.m), #[trigger] task.spots[p])
    &&& forall|p: int, q: int|
        0 <= p < q < task.spots.len() ==> #[trigger] task.spots[p] != #[trigger] task.spots[q]
}

/// The grid that is laid has the size of the grid, and holds nothing in a
/// cell that is none of the first `upto` cells of the list.
pub proof fn lemma_laid_cells(task: Task, picks: Seq<int>, upto: int)
    requires
        spots_fit(task),
        0 <= upto <= task.spots.len(),
    ensures
        laid(task, picks, upto).len() == volume(cube_shape(task.n, task.m)),
        forall|q: int|
            upto <= q < task.spots.len() ==> laid(task, picks, upto)[flat_index(
                cube_shape(task.n, task.m),
                #[trigger] task.spots[q],
            )].is_none(),
    decreases upto,
{
    let shape = cube_shape(task.n, task.m);
    assert forall|q: int| 0 <= q < task.spots.len() implies 0 <= flat_index(
        shape,
        #[trigger] task.spots[q],
    ) < volume(shape) by {
        lemma_flat_index_range(shape, task.spots[q]);
    }
    if upto > 0 {
        lemma_laid_cells(task, picks, upto - 1);
        assert forall|q: int| upto <= q < task.spots.len() implies laid(task, picks, upto)[flat_index(
            shape,
            #[trigger] task.spots[q],
        )].is_none() by {
            if flat_index(shape, task.spots[q]) == flat_index(shape, task.spots[upto - 1]) {
                lemma_flat_index_injective(shape, task.spots[q], task.spots[upto - 1]);
            }
        }
    }
}

/// What is laid in the first `upto` cells depends on the picks for these
/// cells only.
pub proof fn lemma_laid_alike(task: Task, picks: Seq<int>, other: Seq<int>, upto: int)
    requires
        0 <= upto,
        forall|p: int| 0 <= p < upto ==> picks[p] == other[p],
    ensures
        laid(task, picks, upto) == laid(task, other, upto),
    decreases upto,
{
    if upto > 0 {
        lemma_laid_alike(task, picks, other, upto - 1);
    }
}

/// Whether an assignment fills the listed cells and no other cell of the
/// grid.
pub open spec fn fills_only(
    n: usize,
    m: usize,
    spots: Seq<Seq<usize>>,
    cells: Seq<Option<Seq<usize>>>,
) -> bool {
    &&& cells.len() == volume(cube_shape(n, m))
    &&& forall|j: int|
        0 <= j < spots.len() ==> cells[flat_index(cube_shape(n, m), #[trigger] spots[j])].is_some()
    &&& forall|k: int|
        0 <= k < cells.len() && (forall|j: int|
            0 <= j < spots.len() ==> flat_index(cube_shape(n, m), #[trigger] spots[j]) != k)
            ==> (#[trigger] cells[k]).is_none()
}

/// Searches for assignments that fill the listed cells of the cubic grid
/// of side `n` in `m` dimensions, and no other cell, such that every brick
/// passes the test along the grid lines when it is placed. The cells are
/// filled in the order of the list. The search stops when it has walked the
/// whole tree, when it has found `max_recipes` assignments, or after
/// `max_iterations` steps, whichever comes first, and tells how many steps
/// it made. What it returns are admitted choices, all those that come
/// before the place where it stopped; where it has walked the whole tree,
/// they are all the admitted choices.
#[verifier::rlimit(100)]
pub fn backtrack_cells(
    n: usize,
    m: usize,
    cells: &Vec<Coord>,
    dimension_tuples: Vec<DimensionTuple>,
    max_recipes: usize,
    max_iterations: usize,
) -> (found: Search)
    requires
        valid_tuples(n, tuple_views(dimension_tuples@)),
        forall|k: int| 0 <= k < cells@.len() ==> in_bounds(cube_shape(n, m), #[trigger] cells@[k]@),
        forall|j: int, k: int|
            0 <= j < k < cells@.len() ==> #[trigger] cells@[j]@ != #[trigger] cells@[k]@,
    ensures
        found.recipes@.len() <= max_recipes,
        found.steps <= max_iterations,
        !found.exhausted ==> found.recipes@.len() == max_recipes || found.steps == max_iterations,
        is_outcome(
            cells_task(n, m, tuple_views(dimension_tuples@), rows(cells@)),
            max_recipes,
            max_iterations,
            found.steps as nat,
            found.exhausted,
            found_cells(found.recipes@),
        ),
        forall|r: int|
            0 <= r < found.recipes@.len() ==> {
                &&& (#[trigger] found.recipes@[r]).wf()
                &&& found.recipes@[r].n == n
                &&& found.recipes@[r].m == m
                &&& fills_only(n, m, rows(cells@), found.recipes@[r]@.cells)
            },
        exists|listed: Seq<Seq<int>>| #[trigger]
            in_laying_order(
                cells_task(n, m, tuple_views(dimension_tuples@), rows(cells@)),
                found.recipes@,
                listed,
            ),
        found.exhausted ==> forall|picks: Seq<int>| #[trigger]
            admitted(cells_task(n, m, tuple_views(dimension_tuples@), rows(cells@)), picks)
                ==> recorded(
                found.recipes@,
                laid_whole(cells_task(n, m, tuple_views(dimension_tuples@), rows(cells@)), picks),
            ),
        forall|picks: Seq<int>| #[trigger]
            is_owed(
                cells_task(n, m, tuple_views(dimension_tuples@), rows(cells@)),
                picks,
                reached(
                    cells_task(n, m, tuple_views(dimension_tuples@), rows(cells@)),
                    found.steps as nat,
                ),
            ) ==> recorded(
                found.recipes@,
                laid_whole(cells_task(n, m, tuple_views(dimension_tuples@), rows(cells@)), picks),
            ),
{
    let ghost tuples = tuple_views(dimension_tuples@);
    let ghost limit = default_limit(n);
    let ghost shape = cube_shape(n, m);
    let ghost spots = rows(cells@);
    let ghost task = cells_task(n, m, tuples, spots);
    let mut recipes: Vec<Recipe> = Vec::new();
    let mut builder = RecipeBuilder::new(n, m, dimension_tuples);
    let mut indices: Vec<usize> = Vec::new();
    let mut a: usize = 0;
    while a < n
        invariant
            a <= n,
            indices@ == axis_spec(n).take(a as int),
        decreases n - a,
    {
        indices.push(a);
        assert(indices@ =~= axis_spec(n).take(a + 1));
        a += 1;
    }
    assert(axis_spec(n).take(n as int) =~= axis_spec(n));
    let perms = permutations(indices.as_slice(), m);
    let max_tries = perms.len();
    proof {
        builder.lemma_wf();
    }
    let total = cells.len();
    if total == 0 {
        // No cell is listed: the empty grid is the one assignment.
        let exhausted = max_recipes > 0;
        if exhausted {
            let recipe = builder.get_recipe().clone();
            recipes.push(recipe);
        }
        let found = Search { recipes, exhausted, steps: 0 };
        let ghost mut listed: Seq<Seq<int>> = Seq::empty();
        proof {
            if exhausted {
                assert(found.recipes@[0]@.cells =~= walk_start(task).cells);
                assert(found_cells(found.recipes@) =~= seq![walk_start(task).cells]);
                let nothing = Seq::<int>::empty();
                listed = seq![nothing];
                assert(laid_whole(task, nothing) =~= found.recipes@[0]@.cells);
                assert forall|picks: Seq<int>| #[trigger] admitted(task, picks) implies recorded(
                    found.recipes@,
                    laid_whole(task, picks),
                ) by {
                    assert(laid_whole(task, picks) =~= found.recipes@[0]@.cells);
                }
            } else {
                assert(found_cells(found.recipes@) =~= Seq::empty());
            }
            assert(in_laying_order(task, found.recipes@, listed));
        }
        return found;
    }
    let free_tries = if m <= n {
        max_tries
    } else {
        0
    };
    let mut records: Vec<usize> = Vec::new();
    let mut z: usize = 0;
    while z < total
        invariant
            z <= total,
            records@.len() == z,
            forall|j: int| 0 <= j < z ==> #[trigger] records@[j] == 0,
        decreases total - z,
    {
        records.push(0);
        z += 1;
    }
    let mut i: usize = 0;
    let mut iteration: usize = 0;
    let mut exhausted = false;
    let ghost mut listed: Seq<Seq<int>> = Seq::empty();
    proof {
        assert forall|p: int| 0 <= p < total implies (#[trigger] options(task, p)).len()
            == free_tries by {
            assert(task.spots[p] == cells@[p]@);
            lemma_flat_index_range(shape, cells@[p]@);
        }
        assert(spots_fit(task)) by {
            assert forall|p: int| 0 <= p < task.spots.len() implies in_bounds(
                cube_shape(task.n, task.m),
                #[trigger] task.spots[p],
            ) by {
                assert(task.spots[p] == cells@[p]@);
            }
            assert forall|p: int, q: int| 0 <= p < q < task.spots.len() implies #[trigger] task.spots[p]
                != #[trigger] task.spots[q] by {
                assert(task.spots[p] == cells@[p]@);
                assert(task.spots[q] == cells@[q]@);
            }
        }
        assert(builder@.cells =~= laid(task, frontier(records@, 0), 0));
        assert(walk(task, 0).tries =~= records@);
        assert(walk(task, 0).cells =~= builder@.cells);
        assert(walk(task, 0).found =~= found_cells(recipes@));
        assert forall|j: int| 0 <= j < total implies 0 <= flat_index(shape, #[trigger] cells@[j]@)
            < volume(shape) by {
            lemma_flat_index_range(shape, cells@[j]@);
        }
    }
    while iteration < max_iterations && recipes.len() < max_recipes
        invariant_except_break
            !exhausted,
            !walk(task, iteration as nat).exhausted,
        invariant
            iteration <= max_iterations,
            task == cells_task(n, m, tuples, spots),
            spots == rows(cells@),
            shape == cube_shape(n, m),
            total == cells@.len(),
            forall|k: int| 0 <= k < cells@.len() ==> in_bounds(shape, #[trigger] cells@[k]@),
            forall|j: int, k: int|
                0 <= j < k < cells@.len() ==> #[trigger] cells@[j]@ != #[trigger] cells@[k]@,
            forall|j: int|
                0 <= j < total ==> 0 <= flat_index(shape, #[trigger] cells@[j]@) < volume(shape),
            spots_fit(task),
            forall|p: int| 0 <= p < total ==> (#[trigger] options(task, p)).len() == free_tries,
            builder@.cells == laid(task, frontier(records@, i as int), i as int),
            forall|p: int| 0 <= p < i ==> #[trigger] laid_ok(task, frontier(records@, i as int), p),
            forall|j: int| 0 <= j < i ==> 1 <= #[trigger] records@[j],
            forall|j: int| i < j < total ==> #[trigger] records@[j] == 0,
            forall|picks: Seq<int>| #[trigger]
                is_owed(task, picks, frontier(records@, i as int)) ==> recorded(
                    recipes@,
                    laid_whole(task, picks),
                ),
            in_laying_order(task, recipes@, listed),
            forall|r: int|
                0 <= r < listed.len() ==> comes_before(
                    #[trigger] listed[r],
                    frontier(records@, i as int),
                ),
            walk(task, iteration as nat).tries == records@,
            walk(task, iteration as nat).at == i,
            walk(task, iteration as nat).cells == builder@.cells,
            walk(task, iteration as nat).found == found_cells(recipes@),
            forall|s: nat|
                s < iteration ==> !#[trigger] stops(task, max_recipes, max_iterations, s),
            i < total,
            free_tries == (if m <= n {
                max_tries
            } else {
                0
            }),
            max_tries == perms@.len(),
            rows(perms@) == candidates(n, m),
            records@.len() == total,
            forall|j: int| 0 <= j < total ==> #[trigger] records@[j] <= free_tries,
            builder.wf(),
            builder@.n == n,
            builder@.m == m,
            builder@.tuples == tuples,
            builder@.limit == limit,
            builder@.cells.len() == volume(shape),
            forall|j: int|
                0 <= j < i ==> builder@.cells[flat_index(shape, #[trigger] cells@[j]@)].is_some(),
            forall|j: int|
                i <= j < total ==> builder@.cells[flat_index(shape, #[trigger] cells@[j]@)].is_none(),
            forall|k: int|
                0 <= k < builder@.cells.len() && (forall|j: int|
                    0 <= j < spots.len() ==> flat_index(shape, #[trigger] spots[j]) != k) ==> (
                #[trigger] builder@.cells[k]).is_none(),
            recipes@.len() <= max_recipes,
            forall|r: int|
                0 <= r < recipes@.len() ==> {
                    &&& (#[trigger] recipes@[r]).wf()
                    &&& recipes@[r].n == n
                    &&& recipes@[r].m == m
                    &&& fills_only(n, m, spots, recipes@[r]@.cells)
                },
        ensures
            iteration <= max_iterations,
            is_outcome(
                task,
                max_recipes,
                max_iterations,
                iteration as nat,
                exhausted,
                found_cells(recipes@),
            ),
            in_laying_order(task, recipes@, listed),
            exhausted ==> forall|picks: Seq<int>| #[trigger]
                admitted(task, picks) ==> recorded(recipes@, laid_whole(task, picks)),
            forall|picks: Seq<int>| #[trigger]
                is_owed(task, picks, reached(task, iteration as nat)) ==> recorded(
                    recipes@,
                    laid_whole(task, picks),
                ),
            recipes@.len() <= max_recipes,
            forall|r: int|
                0 <= r < recipes@.len() ==> {
                    &&& (#[trigger] recipes@[r]).wf()
                    &&& recipes@[r].n == n
                    &&& recipes@[r].m == m
                    &&& fills_only(n, m, spots, recipes@[r]@.cells)
                },
        decreases max_iterations - iteration,
    {
        let ghost w = walk(task, iteration as nat);
        let ghost before = builder@;
        let ghost known = recipes@;
        let ghost here = flat_index(shape, spots[i as int]);
        let ghost front = frontier(records@, i as int);
        let ghost tries = records@;
        proof {
            assert(!stops(task, max_recipes, max_iterations, iteration as nat));
            assert(walk(task, (iteration + 1) as nat) == walk_step(task, w));
            builder.lemma_wf();
            assert(spots[i as int] == cells@[i as int]@);
            lemma_flat_index_range(shape, spots[i as int]);
            assert forall|j: int| 0 <= j < total && j != i implies flat_index(
                shape,
                #[trigger] cells@[j]@,
            ) != here by {
                if flat_index(shape, cells@[j]@) == here {
                    lemma_flat_index_injective(shape, cells@[j]@, cells@[i as int]@);
                }
            }
            assert(choices_at(n, m, task.kernel, here).len() == free_tries);
        }
        iteration += 1;
        let coord = &cells[i];
        if records[i] < free_tries {
            let tried = records[i];
            let orientation = &perms[tried];
            proof {
                assert(orientation@ == choices_at(n, m, task.kernel, here)[tried as int]);
                lemma_permutations_members(axis_spec(n), m as nat, tried as int);
                assert(rows(perms@)[tried as int] == orientation@);
                assert forall|x: int| 0 <= x < m implies #[trigger] orientation@[x] < n by {
                    assert(axis_spec(n).contains(orientation@[x]));
                }
                assert(is_orientation(orientation@, n, m));
            }
            builder.insert(coord, orientation);
            records[i] = tried + 1;
            let ghost placed = builder@;
            proof {
                builder.lemma_wf();
                assert(placed.cells == before.cells.update(here, Some(orientation@)));
                assert(line_ok(placed, coord@) == passes(task, placed.cells, coord@));
                assert(front[i as int] == tried);
                assert(options(task, i as int)[tried as int] == orientation@);
                assert(placed.cells == laid(task, front, i + 1));
                assert(frontier(records@, i + 1) =~= front);
                assert(laid_ok(task, front, i as int) == line_ok(placed, coord@));
            }
            let satisfied = builder.satisfies_line_criterion(coord);
            if satisfied {
                if i == total - 1 {
                    let recipe = builder.get_recipe().clone();
                    proof {
                        assert(fills_only(n, m, spots, recipe@.cells)) by {
                            assert forall|j: int| 0 <= j < spots.len() implies recipe@.cells[flat_index(
                                shape,
                                #[trigger] spots[j],
                            )].is_some() by {
                                assert(spots[j] == cells@[j]@);
                            }
                        }
                    }
                    recipes.push(recipe);
                    proof {
                        assert(found_cells(recipes@) =~= found_cells(known).push(placed.cells));
                        assert(recipes@[known.len() as int]@.cells == placed.cells);
                        let earlier = listed;
                        assert(is_laying(task, front)) by {
                            assert forall|p: int| 0 <= p < front.len() implies 0 <= #[trigger] front[p]
                                < options(task, p).len() by {
                                if p < i {
                                    assert(1 <= tries[p]);
                                }
                            }
                        }
                        assert(admitted(task, front));
                        assert(laid_whole(task, front) == placed.cells);
                        listed = earlier.push(front);
                        assert forall|r: int, other: Seq<int>|
                            0 <= r < listed.len() && #[trigger] is_owed(
                                task,
                                other,
                                listed[r],
                            ) implies recorded(recipes@, laid_whole(task, other)) by {
                            if r < earlier.len() {
                                assert(is_owed(task, other, earlier[r]));
                            }
                            let at = choose|at: int|
                                0 <= at < known.len() && (#[trigger] known[at])@.cells == laid_whole(
                                    task,
                                    other,
                                );
                            assert(recipes@[at] == known[at]);
                        }
                        assert forall|r: int| 0 <= r < listed.len() implies admitted(
                            task,
                            #[trigger] listed[r],
                        ) && laid_whole(task, listed[r]) == recipes@[r]@.cells by {
                            if r < earlier.len() {
                                assert(recipes@[r] == known[r]);
                            }
                        }
                        assert(in_laying_order(task, recipes@, listed));
                    }
                } else {
                    i += 1;
                    continue ;
                }
            }
            proof {
                let next = frontier(records@, i as int);
                assert forall|r: int| 0 <= r < listed.len() implies comes_before(
                    #[trigger] listed[r],
                    next,
                ) by {
                    let pick = listed[r];
                    if r < known.len() {
                        let k = choose|k: int|
                            0 <= k < pick.len() && #[trigger] pick[k] < front[k] && forall|j: int|
                                0 <= j < k ==> pick[j] == front[j];
                        assert(pick[k] < next[k]);
                        assert forall|j: int| 0 <= j < k implies pick[j] == next[j] by {
                            assert(pick[j] == front[j]);
                        }
                    } else {
                        assert(pick == front);
                        assert(pick[i as int] < next[i as int]);
                    }
                }
                assert forall|picks: Seq<int>| #[trigger] is_owed(task, picks, next) implies recorded(
                    recipes@,
                    laid_whole(task, picks),
                ) by {
                    let k = choose|k: int|
                        0 <= k < picks.len() && #[trigger] picks[k] < next[k] && forall|j: int|
                            0 <= j < k ==> picks[j] == next[j];
                    if k < i || (k == i && picks[k] < tried) {
                        assert(picks[k] < front[k]);
                        assert forall|j: int| 0 <= j < k implies picks[j] == front[j] by {
                            assert(picks[j] == next[j]);
                        }
                        assert(comes_before(picks, front));
                        assert(is_owed(task, picks, front));
                        let r = choose|r: int|
                            0 <= r < known.len() && (#[trigger] known[r])@.cells == laid_whole(
                                task,
                                picks,
                            );
                        assert(recipes@[r] == known[r]);
                    } else {
                        assert(k == i && picks[i as int] == tried);
                        assert forall|j: int| 0 <= j < i + 1 implies picks[j] == front[j] by {
                            if j < i {
                                assert(picks[j] == next[j]);
                            }
                        }
                        lemma_laid_alike(task, picks, front, i + 1);
                        assert(laid_ok(task, picks, i as int));
                        assert(satisfied);
                        assert(i == total - 1);
                        assert(laid_whole(task, picks) == placed.cells);
                        assert(recipes@[known.len() as int]@.cells == placed.cells);
                    }
                }
                assert forall|p: int| 0 <= p < i implies #[trigger] laid_ok(task, next, p) by {
                    assert(laid_ok(task, front, p));
                    lemma_laid_alike(task, next, front, p + 1);
                }
                lemma_laid_alike(task, next, front, i as int);
            }
            builder.remove(coord);
            proof {
                builder.lemma_wf();
                assert(builder@.cells =~= before.cells);
            }
        } else {
            if i == 0 {
                proof {
                    assert forall|picks: Seq<int>| #[trigger] admitted(task, picks) implies recorded(
                        recipes@,
                        laid_whole(task, picks),
                    ) by {
                        assert(picks[0] < options(task, 0).len());
                        assert(picks[0] < front[0]);
                        assert(comes_before(picks, front));
                        assert(is_owed(task, picks, front));
                    }
                }
                exhausted = true;
                break ;
            }
            records[i] = 0;
            i -= 1;
            let last = &cells[i];
            proof {
                let next = frontier(records@, i as int);
                assert forall|r: int| 0 <= r < listed.len() implies comes_before(
                    #[trigger] listed[r],
                    next,
                ) by {
                    let pick = listed[r];
                    let k = choose|k: int|
                        0 <= k < pick.len() && #[trigger] pick[k] < front[k] && forall|j: int|
                            0 <= j < k ==> pick[j] == front[j];
                    assert(is_laying(task, pick));
                    if k <= i {
                        assert(pick[k] < next[k]);
                        assert forall|j: int| 0 <= j < k implies pick[j] == next[j] by {
                            assert(pick[j] == front[j]);
                        }
                    } else {
                        assert(pick[i as int] == front[i as int]);
                        assert(pick[i as int] < next[i as int]);
                        assert forall|j: int| 0 <= j < i implies pick[j] == next[j] by {
                            assert(pick[j] == front[j]);
                        }
                    }
                }
                assert forall|picks: Seq<int>| #[trigger] is_owed(task, picks, next) implies recorded(
                    recipes@,
                    laid_whole(task, picks),
                ) by {
                    let k = choose|k: int|
                        0 <= k < picks.len() && #[trigger] picks[k] < next[k] && forall|j: int|
                            0 <= j < k ==> picks[j] == next[j];
                    assert(k <= i);
                    if k < i || picks[k] < front[k] {
                        assert(picks[k] < front[k]);
                        assert forall|j: int| 0 <= j < k implies picks[j] == front[j] by {
                            assert(picks[j] == next[j]);
                        }
                        assert(comes_before(picks, front));
                    } else {
                        assert(picks[i as int] == front[i as int]);
                        assert(picks[i + 1] < options(task, i + 1).len());
                        assert(picks[i + 1] < front[i + 1]);
                        assert forall|j: int| 0 <= j < i + 1 implies picks[j] == front[j] by {
                            if j < i {
                                assert(picks[j] == next[j]);
                            }
                        }
                        assert(comes_before(picks, front));
                    }
                    assert(is_owed(task, picks, front));
                }
                assert forall|p: int| 0 <= p < i implies #[trigger] laid_ok(task, next, p) by {
                    assert(laid_ok(task, front, p));
                    lemma_laid_alike(task, next, front, p + 1);
                }
                lemma_laid_alike(task, next, front, i as int);
                lemma_laid_cells(task, front, i as int);
                assert(laid(task, front, i + 1).update(flat_index(shape, spots[i as int]), None)
                    =~= laid(task, front, i as int));
                assert(spots[i as int] == cells@[i as int]@);
                lemma_flat_index_range(shape, spots[i as int]);
                let back = flat_index(shape, spots[i as int]);
                assert forall|j: int| 0 <= j < total && j != i implies flat_index(
                    shape,
                    #[trigger] cells@[j]@,
                ) != back by {
                    if flat_index(shape, cells@[j]@) == back {
                        lemma_flat_index_injective(shape, cells@[j]@, cells@[i as int]@);
                    }
                }
            }
            builder.remove(last);
            proof {
                builder.lemma_wf();
            }
        }
    }
    let found = Search { recipes, exhausted, steps: iteration };
    assert(in_laying_order(task, found.recipes@, listed));
    found
}

} // verus!
