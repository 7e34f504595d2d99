use hoffman::interval::Interval;
use hoffman::plot::Rectangle;
use hoffman::recipe::Recipe;
use hoffman::recipe_builder::RecipeBuilder;
use hoffman::search::{backtrack, backtrack_around, backtrack_cells};

fn coords_2d() -> Vec<Vec<usize>> {
    vec![vec![0, 0], vec![0, 1], vec![1, 0], vec![1, 1]]
}

fn orientations_2d() -> Vec<Vec<usize>> {
    vec![vec![0, 1], vec![1, 0]]
}

fn recipe_2d(choice: [usize; 4]) -> Recipe {
    let mut recipe = Recipe::new(2, 2);
    for (coord, pick) in coords_2d().iter().zip(choice.iter()) {
        recipe.map.insert(coord, orientations_2d()[*pick].clone());
    }
    recipe
}

fn cubes() -> Vec<Recipe> {
    let found = backtrack(3, 3, vec![vec![4, 5, 6]], usize::MAX, usize::MAX);
    assert!(found.exhausted);
    found.recipes
}

#[test]
fn small_scenario_verdicts() {
    // For each choice of an orientation for the four cells, in row-major
    // order: how many bricks are accepted one after the other, and whether
    // the whole assignment validates.
    let expected: [([usize; 4], usize, bool); 16] = [
        ([0, 0, 0, 0], 1, false),
        ([0, 0, 0, 1], 1, false),
        ([0, 0, 1, 0], 1, false),
        ([0, 0, 1, 1], 1, false),
        ([0, 1, 0, 0], 2, false),
        ([0, 1, 0, 1], 2, false),
        ([0, 1, 1, 0], 4, true),
        ([0, 1, 1, 1], 3, false),
        ([1, 0, 0, 0], 3, false),
        ([1, 0, 0, 1], 4, true),
        ([1, 0, 1, 0], 2, false),
        ([1, 0, 1, 1], 2, false),
        ([1, 1, 0, 0], 1, false),
        ([1, 1, 0, 1], 1, false),
        ([1, 1, 1, 0], 1, false),
        ([1, 1, 1, 1], 1, false),
    ];
    for (choice, accepted, valid) in expected.iter() {
        let mut builder = RecipeBuilder::new(2, 2, vec![vec![3, 5]]);
        let mut count = 0;
        let mut going = true;
        for (coord, pick) in coords_2d().iter().zip(choice.iter()) {
            builder.insert(coord, &orientations_2d()[*pick]);
            if going && builder.is_valid(coord) {
                count += 1;
            } else {
                going = false;
            }
        }
        assert_eq!(count, *accepted);
        assert_eq!(builder.validate(), *valid);
        let replayed = RecipeBuilder::generate(&recipe_2d(*choice), vec![vec![3, 5]]);
        assert_eq!(replayed.validate(), *valid);
    }
}

#[test]
fn small_scenario_footprints() {
    let builder = RecipeBuilder::generate(&recipe_2d([0, 1, 1, 0]), vec![vec![3, 5]]);
    let at = |coord: Vec<usize>| -> Vec<Interval> { builder.get_hyper_rectangles(&coord)[0].clone() };
    assert_eq!(at(vec![0, 0]), vec![Interval { begin: 0, end: 3 }, Interval { begin: 0, end: 5 }]);
    assert_eq!(at(vec![0, 1]), vec![Interval { begin: 0, end: 5 }, Interval { begin: 5, end: 8 }]);
    assert_eq!(at(vec![1, 0]), vec![Interval { begin: 3, end: 8 }, Interval { begin: 0, end: 3 }]);
    assert_eq!(at(vec![1, 1]), vec![Interval { begin: 5, end: 8 }, Interval { begin: 3, end: 8 }]);
}

#[test]
fn single_tests_on_a_rejected_brick() {
    let mut builder = RecipeBuilder::new(2, 2, vec![vec![3, 5]]);
    builder.insert(&vec![0, 0], &vec![0, 1]);
    builder.insert(&vec![0, 1], &vec![0, 1]);
    assert!(!builder.satisfies_line_criterion(&vec![0, 1]));
    assert!(!builder.satisfies_subgrid_criterion(&vec![0, 1]));
    assert!(!builder.has_overlaps(&vec![0, 1]));
    assert!(!builder.is_sharp_corner(&vec![0, 1]));
    assert!(!builder.is_valid(&vec![0, 1]));
    assert!(builder.is_valid(&vec![0, 0]) == false);
}

fn replay(n: usize, m: usize, tuples: Vec<Vec<i32>>, orientations: Vec<Vec<usize>>) -> (RecipeBuilder, Vec<[bool; 4]>) {
    let mut builder = RecipeBuilder::new(n, m, tuples);
    let coords = builder.get_recipe().map.coords().clone();
    let mut verdicts = Vec::new();
    for (coord, orientation) in coords.iter().zip(orientations.iter()) {
        builder.insert(coord, orientation);
        verdicts.push([
            builder.satisfies_line_criterion(coord),
            builder.has_overlaps(coord),
            builder.is_sharp_corner(coord),
            builder.satisfies_subgrid_criterion(coord),
        ]);
    }
    (builder, verdicts)
}

const OK: [bool; 4] = [true, false, false, true];

#[test]
fn overlap_is_found() {
    let (builder, verdicts) = replay(
        2,
        2,
        vec![vec![3, 5]],
        vec![vec![1, 1], vec![0, 1], vec![1, 0], vec![1, 0]],
    );
    assert_eq!(
        verdicts,
        vec![
            OK,
            [false, false, false, true],
            [false, false, true, true],
            [false, true, false, false],
        ]
    );
    assert_eq!(
        *builder.get_hyper_rectangles(&vec![1, 1])[0],
        vec![Interval { begin: 3, end: 8 }, Interval { begin: 3, end: 6 }]
    );
    assert!(!builder.validate());
    let (builder, verdicts) = replay(
        3,
        2,
        vec![vec![4, 5, 6]],
        vec![vec![1, 0], vec![1, 2], vec![2, 1], vec![0, 1], vec![1, 2]],
    );
    assert_eq!(verdicts, vec![OK, OK, OK, OK, [false, true, false, true]]);
    assert_eq!(
        *builder.get_hyper_rectangles(&vec![1, 1])[0],
        vec![Interval { begin: 5, end: 10 }, Interval { begin: 5, end: 11 }]
    );
    assert!(!builder.is_valid(&vec![1, 1]));
}

#[test]
fn sharp_corner_is_found() {
    let (builder, verdicts) = replay(
        3,
        2,
        vec![vec![4, 5, 6]],
        vec![
            vec![0, 1], vec![1, 0], vec![1, 2], vec![1, 0], vec![1, 2], vec![0, 2], vec![1, 0],
            vec![0, 1],
        ],
    );
    let no_line = [false, false, false, true];
    assert_eq!(
        verdicts,
        vec![OK, OK, OK, OK, no_line, no_line, no_line, [true, false, true, true]]
    );
    assert_eq!(
        *builder.get_hyper_rectangles(&vec![2, 1])[0],
        vec![Interval { begin: 10, end: 14 }, Interval { begin: 4, end: 9 }]
    );
    assert!(!builder.is_valid(&vec![2, 1]));
}

#[test]
fn sharp_corner_in_three_dimensions() {
    let (builder, verdicts) = replay(
        3,
        3,
        vec![vec![4, 5, 6]],
        vec![
            vec![2, 1, 0], vec![0, 1, 2], vec![1, 2, 0], vec![2, 1, 0], vec![2, 0, 1],
            vec![1, 0, 2], vec![2, 1, 0], vec![2, 1, 0], vec![1, 2, 0], vec![0, 1, 2],
            vec![2, 1, 0], vec![1, 0, 2], vec![0, 2, 1], vec![0, 2, 1], vec![0, 1, 2],
            vec![1, 0, 2], vec![0, 1, 2], vec![0, 1, 2], vec![1, 0, 2], vec![1, 0, 2],
            vec![2, 1, 0], vec![0, 2, 1], vec![1, 2, 0],
        ],
    );
    assert_eq!(verdicts[21], [false, false, false, true]);
    assert_eq!(verdicts[22], [true, false, true, false]);
    assert_eq!(verdicts[10], [true, false, false, false]);
    assert_eq!(
        *builder.get_hyper_rectangles(&vec![2, 1, 1])[0],
        vec![
            Interval { begin: 10, end: 15 },
            Interval { begin: 4, end: 10 },
            Interval { begin: 5, end: 9 },
        ]
    );
}

#[test]
fn joint_search_rejects_what_one_tuple_rejects() {
    let orientations = vec![
        vec![0, 1], vec![0, 2], vec![2, 0], vec![2, 1], vec![1, 2], vec![2, 0], vec![0, 2],
        vec![1, 2],
    ];
    let (both, verdicts) =
        replay(3, 2, vec![vec![4, 5, 6], vec![1, 2, 10]], orientations.clone());
    assert_eq!(verdicts[7], [false, true, false, true]);
    let rects = both.get_hyper_rectangles(&vec![2, 1]);
    assert_eq!(*rects[0], vec![Interval { begin: 9, end: 14 }, Interval { begin: 6, end: 12 }]);
    assert_eq!(*rects[1], vec![Interval { begin: 3, end: 5 }, Interval { begin: 10, end: 20 }]);
    let (_, first) = replay(3, 2, vec![vec![4, 5, 6]], orientations.clone());
    assert_eq!(first[7], [false, true, false, true]);
    let (_, second) = replay(3, 2, vec![vec![1, 2, 10]], orientations);
    assert_eq!(second[7], [false, false, false, true]);
}

#[test]
fn undo_restores_the_builder() {
    let mut builder = RecipeBuilder::new(2, 2, vec![vec![3, 5], vec![2, 7]]);
    builder.insert(&vec![0, 0], &vec![0, 1]);
    builder.insert(&vec![0, 1], &vec![1, 0]);
    let recipe = builder.get_recipe().clone();
    let first: Vec<Vec<Interval>> =
        builder.get_hyper_rectangles(&vec![0, 1]).into_iter().cloned().collect();
    let line = builder.satisfies_line_criterion(&vec![0, 1]);
    let balance = builder.satisfies_subgrid_criterion(&vec![0, 1]);
    builder.insert(&vec![1, 0], &vec![0, 1]);
    assert!(!(*builder.get_recipe() == recipe));
    assert!(!builder.satisfies_subgrid_criterion(&vec![1, 0]));
    builder.remove(&vec![1, 0]);
    assert!(*builder.get_recipe() == recipe);
    let again: Vec<Vec<Interval>> =
        builder.get_hyper_rectangles(&vec![0, 1]).into_iter().cloned().collect();
    assert_eq!(first, again);
    assert_eq!(builder.satisfies_line_criterion(&vec![0, 1]), line);
    assert_eq!(builder.satisfies_subgrid_criterion(&vec![0, 1]), balance);
    assert!(builder.validate());
    builder.insert(&vec![1, 0], &vec![1, 0]);
    assert!(builder.is_valid(&vec![1, 0]));
}

#[test]
fn joint_search_keeps_a_footprint_for_each_tuple() {
    let mut builder = RecipeBuilder::new(2, 2, vec![vec![3, 5], vec![2, 7]]);
    builder.insert(&vec![0, 0], &vec![0, 1]);
    builder.insert(&vec![1, 0], &vec![1, 0]);
    let rects = builder.get_hyper_rectangles(&vec![1, 0]);
    assert_eq!(rects.len(), 2);
    assert_eq!(*rects[0], vec![Interval { begin: 3, end: 8 }, Interval { begin: 0, end: 3 }]);
    assert_eq!(*rects[1], vec![Interval { begin: 2, end: 9 }, Interval { begin: 0, end: 2 }]);
}

#[test]
fn search_of_the_small_grid() {
    let found = backtrack(2, 2, vec![vec![3, 5]], usize::MAX, usize::MAX);
    assert!(found.exhausted);
    assert_eq!(found.recipes.len(), 2);
    assert!(found.recipes[0] == recipe_2d([0, 1, 1, 0]));
    assert!(found.recipes[1] == recipe_2d([1, 0, 0, 1]));
}

#[test]
fn search_stops_at_its_caps() {
    let found = backtrack(2, 2, vec![vec![3, 5]], 1, usize::MAX);
    assert!(!found.exhausted);
    assert_eq!(found.recipes.len(), 1);
    let found = backtrack(2, 2, vec![vec![3, 5]], usize::MAX, 20);
    assert!(!found.exhausted);
    assert_eq!(found.recipes.len(), 2);
    let found = backtrack(2, 2, vec![vec![3, 5]], usize::MAX, 21);
    assert!(found.exhausted);
    let found = backtrack(2, 2, vec![vec![3, 5]], usize::MAX, 3);
    assert!(!found.exhausted);
    assert_eq!(found.recipes.len(), 0);
    let found = backtrack(0, 2, vec![vec![]], usize::MAX, usize::MAX);
    assert!(found.exhausted);
    assert_eq!(found.recipes.len(), 1);
    assert!(found.recipes[0] == Recipe::new(0, 2));
    let found = backtrack(0, 2, vec![vec![]], 0, usize::MAX);
    assert!(!found.exhausted);
    assert_eq!(found.recipes.len(), 0);
    let found = backtrack(3, 0, vec![vec![4, 5, 6]], usize::MAX, usize::MAX);
    assert!(found.exhausted);
    assert_eq!(found.recipes.len(), 1);
    let none: Vec<usize> = vec![];
    assert_eq!(found.recipes[0].map.get(&vec![]), Some(&none));
    let found = backtrack(2, 3, vec![vec![3, 5]], usize::MAX, usize::MAX);
    assert!(found.exhausted);
    assert_eq!(found.recipes.len(), 0);
}

#[test]
fn search_of_the_cube() {
    let recipes = cubes();
    assert_eq!(recipes.len(), 1008);
    let first: Vec<Vec<usize>> = vec![
        vec![0, 1, 2], vec![0, 2, 1], vec![1, 2, 0], vec![0, 2, 1], vec![1, 0, 2], vec![2, 1, 0],
        vec![1, 0, 2], vec![2, 1, 0], vec![2, 0, 1], vec![1, 0, 2], vec![2, 0, 1], vec![2, 1, 0],
        vec![1, 2, 0], vec![0, 1, 2], vec![0, 2, 1], vec![2, 1, 0], vec![0, 2, 1], vec![1, 0, 2],
        vec![2, 1, 0], vec![1, 0, 2], vec![0, 2, 1], vec![2, 0, 1], vec![2, 1, 0], vec![1, 0, 2],
        vec![0, 2, 1], vec![1, 2, 0], vec![0, 1, 2],
    ];
    for (coord, orientation) in recipes[0].map.coords().iter().zip(first.iter()) {
        assert_eq!(recipes[0].map.get(coord), Some(orientation));
    }
    for recipe in recipes.iter().take(50) {
        assert!(RecipeBuilder::generate(recipe, vec![vec![4, 5, 6]]).validate());
    }
}

#[test]
fn symmetries_are_as_many_as_the_group() {
    assert_eq!(Recipe::new(3, 0).symmetries().len(), 1);
    assert_eq!(Recipe::new(3, 1).symmetries().len(), 2);
    assert_eq!(recipe_2d([0, 1, 1, 0]).symmetries().len(), 8);
    assert_eq!(Recipe::new(3, 3).symmetries().len(), 48);
    assert_eq!(Recipe::new(2, 4).symmetries().len(), 384);
}

#[test]
fn first_symmetry_is_the_identity() {
    let recipe = recipe_2d([0, 1, 1, 1]);
    let symmetries = recipe.symmetries();
    assert!(symmetries[0] == recipe);
    assert!(recipe.symmetry(&vec![0, 1], &vec![true, true]) == recipe);
}

#[test]
fn symmetry_moves_cells_and_permutes_orientations() {
    let mut recipe = Recipe::new(3, 2);
    recipe.map.insert(&vec![0, 1], vec![2, 0]);
    let swapped = recipe.symmetry(&vec![1, 0], &vec![true, true]);
    assert_eq!(swapped.map.get(&vec![1, 0]), Some(&vec![0, 2]));
    assert_eq!(swapped.map.get(&vec![0, 1]), None);
    let mirrored = recipe.symmetry(&vec![0, 1], &vec![false, true]);
    assert_eq!(mirrored.map.get(&vec![2, 1]), Some(&vec![2, 0]));
    let both = recipe.symmetry(&vec![1, 0], &vec![true, false]);
    assert_eq!(both.map.get(&vec![1, 2]), Some(&vec![0, 2]));
    assert_eq!(both.n, 3);
    assert_eq!(both.m, 2);
}

#[test]
fn self_symmetry() {
    assert!(Recipe::new(2, 2).is_self_symmetric());
    assert!(!Recipe::new(2, 0).is_self_symmetric());
    assert!(recipe_2d([0, 1, 1, 0]).is_self_symmetric());
    let mut lone = Recipe::new(2, 2);
    lone.map.insert(&vec![0, 1], vec![0, 1]);
    assert!(!lone.is_self_symmetric());
    for recipe in cubes().iter().take(20) {
        assert!(!recipe.is_self_symmetric());
    }
}

#[test]
fn unique_recipes_of_the_cube() {
    let recipes = cubes();
    let unique = Recipe::find_unique(recipes);
    assert_eq!(unique.len(), 21);
    for (i, a) in unique.iter().enumerate() {
        for (j, b) in unique.iter().enumerate() {
            if i != j {
                assert!(!a.symmetries().contains(b));
            }
        }
    }
}

#[test]
fn unique_keeps_the_first_of_each_orbit() {
    let a = recipe_2d([0, 1, 1, 0]);
    let b = recipe_2d([1, 0, 0, 1]);
    let c = recipe_2d([0, 0, 0, 0]);
    let unique = Recipe::find_unique(vec![a.clone(), c.clone(), b.clone(), a.clone()]);
    assert_eq!(unique.len(), 2);
    assert!(unique[0] == a);
    assert!(unique[1] == c);
    assert_eq!(Recipe::find_unique(vec![]).len(), 0);
}

#[test]
fn distances_between_cubes() {
    let unique = Recipe::find_unique(cubes());
    assert_eq!(unique[0].distance_to(&unique[1]), 6);
    assert_eq!(unique[1].distance_to(&unique[0]), 6);
    assert_eq!(unique[0].distance_to(&unique[0]), 0);
    assert_eq!(unique[2].distance_to(&unique[5]), 8);
    assert_eq!(unique[5].distance_to(&unique[2]), 8);
}

#[test]
fn distance_is_the_least_over_the_symmetries() {
    let a = recipe_2d([0, 1, 1, 0]);
    let b = recipe_2d([1, 0, 0, 1]);
    assert_eq!(a.map.differences(&b.map), 4);
    assert_eq!(a.distance_to(&b), 0);
    let c = recipe_2d([0, 0, 0, 0]);
    assert_eq!(a.distance_to(&c), 2);
    assert_eq!(c.distance_to(&a), 2);
    let mut partial = Recipe::new(2, 2);
    partial.map.insert(&vec![1, 1], vec![1, 0]);
    assert_eq!(partial.distance_to(&c), 3);
    assert_eq!(a.distance_to(&partial), 3);
}

#[test]
fn validity_survives_the_symmetries() {
    let unique = Recipe::find_unique(cubes());
    for recipe in unique.iter().take(5) {
        for image in recipe.symmetries().iter() {
            assert!(RecipeBuilder::generate(image, vec![vec![4, 5, 6]]).validate());
        }
    }
    for image in recipe_2d([0, 0, 1, 1]).symmetries().iter() {
        assert!(!RecipeBuilder::generate(image, vec![vec![3, 5]]).validate());
    }
}

#[test]
fn pre_permute_relabels_every_orientation() {
    let recipe = recipe_2d([0, 1, 1, 0]);
    let flipped = recipe.pre_permute(&vec![1, 0]);
    assert!(flipped == recipe_2d([1, 0, 0, 1]));
    assert!(recipe.pre_permute(&vec![0, 1]) == recipe);
    let mut partial = Recipe::new(3, 2);
    partial.map.insert(&vec![2, 0], vec![0, 2]);
    let relabelled = partial.pre_permute(&vec![1, 2, 0]);
    assert_eq!(relabelled.map.get(&vec![2, 0]), Some(&vec![1, 0]));
    assert_eq!(relabelled.map.get(&vec![0, 0]), None);
}

#[test]
fn dual_cubes_validate() {
    let unique = Recipe::find_unique(cubes());
    let duals = unique
        .iter()
        .filter(|recipe| {
            RecipeBuilder::generate(&recipe.pre_permute(&vec![2, 1, 0]), vec![vec![4, 5, 6]])
                .validate()
        })
        .count();
    assert_eq!(duals, DUALS);
}

const DUALS: usize = 17;

#[test]
fn rectangle_is_plain_data() {
    let r = Rectangle { x: 1, y: 2, width: 3, height: 4 };
    assert_eq!(r, r.clone());
}

fn square_kernel(cells: Vec<(Vec<usize>, Vec<usize>)>) -> Recipe {
    let mut kernel = Recipe::new(3, 2);
    for (coord, orientation) in cells {
        kernel.map.insert(&coord, orientation);
    }
    kernel
}

#[test]
fn search_around_a_kernel() {
    let all = backtrack(3, 2, vec![vec![4, 5, 6]], usize::MAX, usize::MAX);
    assert!(all.exhausted);
    assert_eq!(all.recipes.len(), 624);
    let kernels = vec![
        (square_kernel(vec![(vec![1, 1], vec![0, 1])]), 96),
        (square_kernel(vec![(vec![0, 0], vec![2, 0])]), 92),
        (square_kernel(vec![(vec![0, 0], vec![0, 1]), (vec![2, 2], vec![0, 1])]), 22),
        (square_kernel(vec![(vec![0, 0], vec![0, 1]), (vec![0, 1], vec![0, 2])]), 32),
        (square_kernel(vec![]), 624),
    ];
    for (kernel, count) in kernels.iter() {
        let found = backtrack_around(kernel, vec![vec![4, 5, 6]], usize::MAX, usize::MAX);
        assert!(found.exhausted);
        assert_eq!(found.recipes.len(), *count);
        let expected: Vec<&Recipe> = all
            .recipes
            .iter()
            .filter(|recipe| {
                kernel.map.coords().iter().all(|coord| match kernel.map.get(coord) {
                    Some(orientation) => recipe.map.get(coord) == Some(orientation),
                    None => true,
                })
            })
            .collect();
        assert_eq!(expected.len(), *count);
        for (recipe, wanted) in found.recipes.iter().zip(expected.iter()) {
            assert!(recipe == *wanted);
        }
    }
    let odd = square_kernel(vec![(vec![1, 1], vec![0, 0])]);
    let found = backtrack_around(&odd, vec![vec![4, 5, 6]], usize::MAX, usize::MAX);
    assert_eq!(found.recipes.len(), 96);
    assert_eq!(found.recipes[0].map.get(&vec![1, 1]), Some(&vec![0, 0]));
    assert_eq!(found.recipes[0].map.get(&vec![2, 2]), Some(&vec![2, 1]));
}

#[test]
fn search_around_most_of_a_cube() {
    let first = backtrack(3, 3, vec![vec![4, 5, 6]], 1, usize::MAX).recipes.remove(0);
    let coords = first.map.coords().clone();
    let mut head = Recipe::new(3, 3);
    for coord in coords.iter().take(20) {
        head.map.insert(coord, first.map.get(coord).unwrap().clone());
    }
    let found = backtrack_around(&head, vec![vec![4, 5, 6]], usize::MAX, usize::MAX);
    assert!(found.exhausted);
    assert_eq!(found.recipes.len(), 1);
    assert!(found.recipes[0] == first);
    let mut tail = Recipe::new(3, 3);
    for coord in coords.iter().skip(7) {
        tail.map.insert(coord, first.map.get(coord).unwrap().clone());
    }
    let found = backtrack_around(&tail, vec![vec![4, 5, 6]], usize::MAX, 9137);
    assert!(found.exhausted);
    assert_eq!(found.recipes.len(), 1);
    assert!(found.recipes[0] == first);
    let found = backtrack_around(&tail, vec![vec![4, 5, 6]], usize::MAX, 9136);
    assert!(!found.exhausted);
    let found = backtrack_around(&first, vec![vec![4, 5, 6]], usize::MAX, usize::MAX);
    assert_eq!(found.recipes.len(), 1);
    assert!(found.recipes[0] == first);
}

#[test]
fn search_where_axes_outnumber_edge_lengths() {
    let mut full = Recipe::new(2, 3);
    for coord in full.map.coords().clone().iter() {
        full.map.insert(coord, vec![0, 1, 0]);
    }
    let found = backtrack_around(&full, vec![vec![3, 5]], usize::MAX, usize::MAX);
    assert!(found.exhausted);
    assert_eq!(found.recipes.len(), 0);
    let mut one = Recipe::new(1, 3);
    one.map.insert(&vec![0, 0, 0], vec![0, 0, 0]);
    let found = backtrack_around(&one, vec![vec![3]], usize::MAX, usize::MAX);
    assert!(found.exhausted);
    assert_eq!(found.recipes.len(), 1);
    assert!(found.recipes[0] == one);
    let found = backtrack(1, 3, vec![vec![3]], usize::MAX, usize::MAX);
    assert!(found.exhausted);
    assert_eq!(found.recipes.len(), 0);
    let found = backtrack(1, 1, vec![vec![3]], usize::MAX, usize::MAX);
    assert!(found.exhausted);
    assert_eq!(found.recipes.len(), 1);
}

#[test]
fn replayed_footprints_are_the_derived_ones() {
    let tuples = vec![vec![4, 5, 6], vec![7, 9, 20]];
    let recipe = backtrack(3, 3, vec![vec![4, 5, 6]], 1, usize::MAX).recipes.remove(0);
    let builder = RecipeBuilder::generate(&recipe, tuples.clone());
    for coord in recipe.map.coords().iter() {
        let rects = builder.get_hyper_rectangles(coord);
        for (tuple, rect) in tuples.iter().zip(rects.iter()) {
            for axis in 0..3 {
                let mut begin = 0;
                for level in 0..coord[axis] {
                    let mut before = coord.clone();
                    before[axis] = level;
                    begin += tuple[recipe.map.get(&before).unwrap()[axis]];
                }
                let width = tuple[recipe.map.get(coord).unwrap()[axis]];
                assert_eq!(rect[axis], Interval { begin, end: begin + width });
            }
        }
    }
    assert!(RecipeBuilder::generate(&recipe, vec![vec![4, 5, 6]]).validate());
}

#[test]
fn a_slice_takes_an_edge_length_three_times_in_a_cube_of_side_three() {
    let mut builder = RecipeBuilder::new(3, 3, vec![vec![4, 5, 6]]);
    let cells = vec![vec![0, 0, 0], vec![0, 0, 1], vec![0, 0, 2], vec![0, 1, 0]];
    let mut verdicts = Vec::new();
    for coord in cells.iter() {
        builder.insert(coord, &vec![1, 0, 2]);
        verdicts.push(builder.satisfies_subgrid_criterion(coord));
    }
    assert_eq!(verdicts, vec![true, true, true, false]);
    builder.remove(&vec![0, 1, 0]);
    assert!(builder.satisfies_subgrid_criterion(&vec![0, 0, 2]));
    builder.insert(&vec![1, 1, 0], &vec![1, 0, 2]);
    assert!(builder.satisfies_subgrid_criterion(&vec![1, 1, 0]));
    builder.insert(&vec![0, 1, 0], &vec![2, 0, 1]);
    assert!(builder.satisfies_subgrid_criterion(&vec![0, 1, 0]));
}

#[test]
fn search_counts_its_steps() {
    let found = backtrack(2, 2, vec![vec![3, 5]], usize::MAX, usize::MAX);
    assert!(found.exhausted);
    assert_eq!(found.steps, 21);
    let found = backtrack(2, 2, vec![vec![3, 5]], 1, usize::MAX);
    assert!(!found.exhausted);
    assert_eq!(found.steps, 6);
    let found = backtrack(2, 2, vec![vec![3, 5]], usize::MAX, 20);
    assert!(!found.exhausted);
    assert_eq!(found.steps, 20);
    let found = backtrack(2, 2, vec![vec![3, 5]], usize::MAX, 3);
    assert_eq!(found.steps, 3);
    let found = backtrack(2, 2, vec![vec![3, 5]], usize::MAX, 0);
    assert!(!found.exhausted);
    assert_eq!(found.steps, 0);
    assert_eq!(found.recipes.len(), 0);
    let found = backtrack(2, 2, vec![vec![3, 5]], 0, usize::MAX);
    assert!(!found.exhausted);
    assert_eq!(found.steps, 0);
    let found = backtrack(0, 2, vec![vec![]], usize::MAX, usize::MAX);
    assert_eq!(found.steps, 0);
    let found = backtrack(2, 3, vec![vec![3, 5]], usize::MAX, usize::MAX);
    assert!(found.exhausted);
    assert_eq!(found.steps, 1);
    let found = backtrack(3, 3, vec![vec![4, 5, 6]], 1, usize::MAX);
    assert_eq!(found.steps, 152);
    let found = backtrack(3, 3, vec![vec![4, 5, 6]], 3, usize::MAX);
    assert_eq!(found.steps, 544);
    assert_eq!(found.recipes.len(), 3);
    let found = backtrack(3, 2, vec![vec![4, 5, 6]], usize::MAX, usize::MAX);
    assert!(found.exhausted);
    assert_eq!(found.steps, 20965);
    assert_eq!(found.recipes.len(), 624);
}

#[test]
fn search_of_the_cube_counts_its_steps() {
    let found = backtrack(3, 3, vec![vec![4, 5, 6]], usize::MAX, usize::MAX);
    assert!(found.exhausted);
    assert_eq!(found.recipes.len(), 1008);
    assert_eq!(found.steps, 371560);
}

#[test]
fn search_of_listed_cells() {
    let inner: Vec<Vec<usize>> = vec![vec![1, 1], vec![1, 2], vec![2, 1], vec![2, 2]];
    let found = backtrack_cells(3, 2, &inner, vec![vec![4, 5, 6]], usize::MAX, usize::MAX);
    assert!(found.exhausted);
    assert_eq!(found.steps, 889);
    assert_eq!(found.recipes.len(), 258);
    let first = &found.recipes[0];
    assert_eq!(first.n, 3);
    assert_eq!(first.m, 2);
    assert_eq!(first.map.get(&vec![1, 1]), Some(&vec![0, 1]));
    assert_eq!(first.map.get(&vec![1, 2]), Some(&vec![0, 2]));
    assert_eq!(first.map.get(&vec![2, 1]), Some(&vec![1, 0]));
    assert_eq!(first.map.get(&vec![2, 2]), Some(&vec![1, 2]));
    let last = &found.recipes[257];
    assert_eq!(last.map.get(&vec![1, 1]), Some(&vec![2, 1]));
    assert_eq!(last.map.get(&vec![1, 2]), Some(&vec![2, 0]));
    assert_eq!(last.map.get(&vec![2, 1]), Some(&vec![1, 2]));
    assert_eq!(last.map.get(&vec![2, 2]), Some(&vec![1, 0]));
    for recipe in found.recipes.iter() {
        for x in 0..3usize {
            for y in 0..3usize {
                assert_eq!(recipe.map.contains_key(&vec![x, y]), x >= 1 && y >= 1);
            }
        }
    }
}

#[test]
fn search_of_listed_cells_stops_at_its_caps() {
    let inner: Vec<Vec<usize>> = vec![vec![1, 1], vec![1, 2], vec![2, 1], vec![2, 2]];
    let found = backtrack_cells(3, 2, &inner, vec![vec![4, 5, 6]], 1, usize::MAX);
    assert!(!found.exhausted);
    assert_eq!(found.steps, 10);
    assert_eq!(found.recipes.len(), 1);
    assert_eq!(found.recipes[0].map.get(&vec![2, 2]), Some(&vec![1, 2]));
    let found = backtrack_cells(3, 2, &inner, vec![vec![4, 5, 6]], usize::MAX, 50);
    assert!(!found.exhausted);
    assert_eq!(found.steps, 50);
    assert_eq!(found.recipes.len(), 13);
    let found = backtrack_cells(3, 2, &inner, vec![vec![4, 5, 6]], 0, usize::MAX);
    assert!(!found.exhausted);
    assert_eq!(found.steps, 0);
    assert_eq!(found.recipes.len(), 0);
}

#[test]
fn search_of_listed_cells_in_any_order() {
    let cells: Vec<Vec<usize>> = vec![vec![2, 2], vec![0, 0], vec![0, 2]];
    let found = backtrack_cells(3, 2, &cells, vec![vec![4, 5, 6]], usize::MAX, usize::MAX);
    assert!(found.exhausted);
    assert_eq!(found.steps, 301);
    assert_eq!(found.recipes.len(), 144);
    assert_eq!(found.recipes[0].map.get(&vec![2, 2]), Some(&vec![0, 1]));
    assert_eq!(found.recipes[0].map.get(&vec![0, 0]), Some(&vec![0, 1]));
    assert_eq!(found.recipes[0].map.get(&vec![0, 2]), Some(&vec![0, 2]));
    assert_eq!(found.recipes[1].map.get(&vec![0, 2]), Some(&vec![1, 0]));
    assert_eq!(found.recipes[143].map.get(&vec![2, 2]), Some(&vec![2, 1]));
    assert_eq!(found.recipes[143].map.get(&vec![0, 0]), Some(&vec![2, 1]));
    assert_eq!(found.recipes[143].map.get(&vec![0, 2]), Some(&vec![2, 0]));
    assert_eq!(found.recipes[0].map.get(&vec![1, 1]), None);
}

#[test]
fn search_of_listed_cells_on_the_edges() {
    let row: Vec<Vec<usize>> = vec![vec![0, 0], vec![0, 1]];
    let found = backtrack_cells(2, 2, &row, vec![vec![3, 5]], usize::MAX, usize::MAX);
    assert!(found.exhausted);
    assert_eq!(found.steps, 9);
    assert_eq!(found.recipes.len(), 2);
    assert_eq!(found.recipes[0].map.get(&vec![0, 0]), Some(&vec![0, 1]));
    assert_eq!(found.recipes[0].map.get(&vec![0, 1]), Some(&vec![1, 0]));
    assert_eq!(found.recipes[1].map.get(&vec![0, 0]), Some(&vec![1, 0]));
    assert_eq!(found.recipes[1].map.get(&vec![0, 1]), Some(&vec![0, 1]));
    let none: Vec<Vec<usize>> = vec![];
    let found = backtrack_cells(2, 2, &none, vec![vec![3, 5]], usize::MAX, usize::MAX);
    assert!(found.exhausted);
    assert_eq!(found.steps, 0);
    assert_eq!(found.recipes.len(), 1);
    assert!(found.recipes[0] == Recipe::new(2, 2));
    let one: Vec<Vec<usize>> = vec![vec![0, 0, 0]];
    let found = backtrack_cells(2, 3, &one, vec![vec![3, 5]], usize::MAX, usize::MAX);
    assert!(found.exhausted);
    assert_eq!(found.steps, 1);
    assert_eq!(found.recipes.len(), 0);
}

#[test]
fn kernel_of_the_tesseract_cells() {
    let mut inner: Vec<Vec<usize>> = Vec::new();
    for x in 1..4usize {
        for y in 1..4usize {
            for z in 1..4usize {
                inner.push(vec![x, y, z]);
            }
        }
    }
    let found = backtrack_cells(4, 3, &inner, vec![vec![4, 5, 6, 7]], 1, usize::MAX);
    assert!(!found.exhausted);
    assert_eq!(found.steps, 573);
    assert_eq!(found.recipes.len(), 1);
    let kernel = &found.recipes[0];
    assert_eq!(kernel.map.get(&vec![1, 1, 1]), Some(&vec![0, 1, 2]));
    assert_eq!(kernel.map.get(&vec![1, 1, 3]), Some(&vec![0, 2, 1]));
    assert_eq!(kernel.map.get(&vec![1, 3, 3]), Some(&vec![1, 0, 3]));
    assert_eq!(kernel.map.get(&vec![2, 3, 3]), Some(&vec![0, 1, 3]));
    assert_eq!(kernel.map.get(&vec![3, 2, 3]), Some(&vec![2, 3, 1]));
    assert_eq!(kernel.map.get(&vec![3, 3, 3]), Some(&vec![2, 0, 3]));
    assert_eq!(kernel.map.get(&vec![0, 1, 1]), None);
}

fn lines_are_clear(recipe: &Recipe) -> bool {
    let builder = RecipeBuilder::generate(recipe, vec![vec![4, 5, 6]]);
    let mut clear = true;
    for x in 0..3usize {
        for y in 0..3usize {
            let coord = vec![x, y];
            if recipe.map.contains_key(&coord) && !builder.satisfies_line_criterion(&coord) {
                clear = false;
            }
        }
    }
    clear
}

#[test]
fn line_test_survives_the_symmetries() {
    let found = backtrack(3, 2, vec![vec![4, 5, 6]], 5, usize::MAX);
    for recipe in found.recipes.iter() {
        assert!(lines_are_clear(recipe));
        for image in recipe.symmetries().iter() {
            assert!(lines_are_clear(image));
        }
    }
    let mut clash = found.recipes[0].clone();
    let taken = clash.map.get(&vec![0, 0]).unwrap().clone();
    clash.map.insert(&vec![0, 2], taken);
    assert!(!lines_are_clear(&clash));
    for image in clash.symmetries().iter() {
        assert!(!lines_are_clear(image));
    }
    let mut partial = Recipe::new(3, 2);
    partial.map.insert(&vec![0, 1], vec![0, 1]);
    partial.map.insert(&vec![2, 1], vec![0, 2]);
    assert!(!lines_are_clear(&partial));
    for image in partial.symmetries().iter() {
        assert!(!lines_are_clear(image));
    }
    partial.map.insert(&vec![2, 1], vec![1, 2]);
    assert!(lines_are_clear(&partial));
    for image in partial.symmetries().iter() {
        assert!(lines_are_clear(image));
    }
}

fn slices_are_clear(recipe: &Recipe, limit: usize) -> bool {
    let mut builder = RecipeBuilder::with_subgrid_limit(3, 2, vec![vec![4, 5, 6]], limit);
    for x in 0..3usize {
        for y in 0..3usize {
            let coord = vec![x, y];
            if let Some(orientation) = recipe.map.get(&coord) {
                builder.insert(&coord, orientation);
            }
        }
    }
    let mut clear = true;
    for x in 0..3usize {
        for y in 0..3usize {
            let coord = vec![x, y];
            if recipe.map.contains_key(&coord) && !builder.satisfies_subgrid_criterion(&coord) {
                clear = false;
            }
        }
    }
    clear
}

#[test]
fn slice_test_survives_the_symmetries() {
    let found = backtrack(3, 2, vec![vec![4, 5, 6]], 5, usize::MAX);
    for recipe in found.recipes.iter() {
        assert!(slices_are_clear(recipe, 3));
        for image in recipe.symmetries().iter() {
            assert!(slices_are_clear(image, 3));
        }
    }
    let mut crowded = Recipe::new(3, 2);
    crowded.map.insert(&vec![0, 0], vec![0, 1]);
    crowded.map.insert(&vec![0, 1], vec![0, 2]);
    crowded.map.insert(&vec![2, 2], vec![1, 2]);
    assert!(slices_are_clear(&crowded, 2));
    assert!(!slices_are_clear(&crowded, 1));
    for image in crowded.symmetries().iter() {
        assert!(slices_are_clear(image, 2));
        assert!(!slices_are_clear(image, 1));
    }
    let mut spread = Recipe::new(3, 2);
    spread.map.insert(&vec![0, 0], vec![0, 1]);
    spread.map.insert(&vec![1, 1], vec![0, 2]);
    spread.map.insert(&vec![2, 2], vec![1, 2]);
    assert!(slices_are_clear(&spread, 1));
    assert!(!slices_are_clear(&spread, 0));
    for image in spread.symmetries().iter() {
        assert!(slices_are_clear(image, 1));
        assert!(!slices_are_clear(image, 0));
    }
}
