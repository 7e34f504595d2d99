use hoffman::comparisons::{all_selections, compare, comparison_table, count_unknown_comparisions, Order};
use hoffman::ndarray::NdArray;
use hoffman::recipe::{is_cell, is_orientation_for, Recipe};
use hoffman::recipe_builder::are_valid_tuples;
use hoffman::tuples::{
    are_too_close, check_overlap_inequalities, compare_coords, distance_coords, ordering_str,
    satisfies_hoffmans_inequality, Relation,
};

fn row_text(row: &Vec<Option<Order>>) -> String {
    row.iter()
        .map(|cell| match cell {
            None => '?',
            Some(Order::Less) => '<',
            Some(Order::Equal) => '=',
            Some(Order::Greater) => '>',
            Some(Order::NA) => '.',
        })
        .collect()
}

#[test]
fn selections_come_by_size() {
    assert_eq!(
        all_selections(3),
        vec![vec![], vec![0], vec![1], vec![2], vec![0, 1], vec![0, 2], vec![1, 2], vec![0, 1, 2]]
    );
    let none: [[usize; 0]; 1] = [[]];
    assert_eq!(all_selections(0), none);
    assert_eq!(all_selections(5).len(), 32);
}

#[test]
fn selections_are_compared_member_by_member() {
    assert_eq!(compare(&vec![0, 2], &vec![1, 2]), Some(Order::Less));
    assert_eq!(compare(&vec![1, 2], &vec![0, 2]), Some(Order::Greater));
    assert_eq!(compare(&vec![1, 2], &vec![1, 2]), Some(Order::Equal));
    assert_eq!(compare(&vec![0, 3], &vec![1, 2]), None);
    assert_eq!(compare(&vec![0], &vec![1, 2]), Some(Order::NA));
    assert_eq!(compare(&vec![], &vec![]), Some(Order::Equal));
}

#[test]
fn comparison_tables() {
    let rows: Vec<String> = comparison_table(3).iter().map(row_text).collect();
    assert_eq!(
        rows,
        vec![
            "=.......", ".=<<....", ".>=<....", ".>>=....", "....=<<.", "....>=<.", "....>>=.",
            ".......=",
        ]
    );
    assert_eq!(row_text(&comparison_table(4)[6]), ".....>=<<<<.....");
    let unknowns: Vec<usize> =
        (0..7).map(|n| count_unknown_comparisions(&comparison_table(n))).collect();
    assert_eq!(unknowns, vec![0, 0, 0, 0, 2, 20, 130]);
}

#[test]
fn tuple_inequalities() {
    assert!(satisfies_hoffmans_inequality(&[4, 5, 6]));
    assert!(!satisfies_hoffmans_inequality(&[1, 2, 3]));
    assert!(!satisfies_hoffmans_inequality(&[3, 4, 5]));
    assert!(satisfies_hoffmans_inequality(&[8, 9, 10, 12]));
    assert!(satisfies_hoffmans_inequality(&[7]));
    assert!(!satisfies_hoffmans_inequality(&[0]));
    assert!(satisfies_hoffmans_inequality(&[usize::MAX, usize::MAX]));
    assert!(!satisfies_hoffmans_inequality(&[1, usize::MAX]));
    assert_eq!(check_overlap_inequalities(&[8, 9, 10, 12], &([1, 4], [2, 3])), Relation::Greater);
    assert_eq!(check_overlap_inequalities(&[8, 9, 10, 11], &([1, 4], [2, 3])), Relation::Equal);
    assert_eq!(check_overlap_inequalities(&[8, 10, 10, 11], &([1, 4], [2, 3])), Relation::Less);
    assert_eq!(
        check_overlap_inequalities(&[usize::MAX, usize::MAX, 1], &([1, 2], [3, 3])),
        Relation::Greater
    );
    assert_eq!(ordering_str(Relation::Less), '<');
    assert_eq!(ordering_str(Relation::Equal), '=');
    assert_eq!(ordering_str(Relation::Greater), '>');
}

#[test]
fn coordinates_are_compared() {
    assert_eq!(compare_coords(&vec![1, 2, 3], &vec![1, 3, 0]), Relation::Less);
    assert_eq!(compare_coords(&vec![2, 0, 0], &vec![1, 3, 3]), Relation::Greater);
    assert_eq!(compare_coords(&vec![1, 2], &vec![1, 2]), Relation::Equal);
    assert_eq!(compare_coords(&vec![], &vec![]), Relation::Equal);
    assert_eq!(distance_coords(&vec![1, 5, 3], &vec![2, 2, 3]), 3);
    assert_eq!(distance_coords(&vec![4], &vec![4]), 0);
    assert_eq!(distance_coords(&vec![0, usize::MAX], &vec![1, 0]), usize::MAX);
    assert!(are_too_close(&vec![1, 2, 3], &vec![1, 9, 3]));
    assert!(are_too_close(&vec![1, 2, 3], &vec![1, 2, 3]));
    assert!(!are_too_close(&vec![1, 2, 3], &vec![2, 2, 4]));
    assert!(are_too_close(&vec![1, 2, 3], &vec![1, 5]));
    assert!(are_too_close(&vec![], &vec![4]));
    assert_eq!(distance_coords(&vec![1, 9, 9], &vec![4]), 3);
}

#[test]
fn well_formedness_is_tested() {
    let store: NdArray<u8> = NdArray::new(&vec![2, 3]);
    assert!(store.is_well_formed());
    let mut recipe = Recipe::new(3, 2);
    assert!(recipe.is_well_formed());
    recipe.map.insert(&vec![1, 1], vec![0, 2]);
    assert!(recipe.is_well_formed());
    recipe.map.insert(&vec![1, 2], vec![0, 3]);
    assert!(!recipe.is_well_formed());
    recipe.map.insert(&vec![1, 2], vec![0]);
    assert!(!recipe.is_well_formed());
    recipe.map.remove(&vec![1, 2]);
    assert!(recipe.is_well_formed());
    recipe.n = 4;
    assert!(!recipe.is_well_formed());
    recipe.n = 3;
    recipe.m = 1;
    assert!(!recipe.is_well_formed());
    recipe.m = 2;
    recipe.map = NdArray::new(&vec![3, 4]);
    assert!(!recipe.is_well_formed());
}

#[test]
fn cells_and_orientations_are_tested() {
    assert!(is_cell(3, 2, &vec![2, 0]));
    assert!(!is_cell(3, 2, &vec![3, 0]));
    assert!(!is_cell(3, 2, &vec![0]));
    assert!(is_cell(3, 0, &vec![]));
    assert!(is_orientation_for(3, 2, &vec![2, 2]));
    assert!(!is_orientation_for(3, 2, &vec![0, 3]));
    assert!(!is_orientation_for(3, 2, &vec![0, 1, 2]));
}

#[test]
fn dimension_tuples_are_tested() {
    assert!(are_valid_tuples(3, &vec![vec![4, 5, 6]]));
    assert!(are_valid_tuples(3, &vec![]));
    assert!(are_valid_tuples(0, &vec![vec![]]));
    assert!(!are_valid_tuples(3, &vec![vec![4, 5, 6], vec![4, 5]]));
    assert!(!are_valid_tuples(3, &vec![vec![4, 0, 6]]));
    assert!(!are_valid_tuples(3, &vec![vec![4, -5, 6]]));
    assert!(are_valid_tuples(3, &vec![vec![1, 2, 715827882]]));
    assert!(!are_valid_tuples(3, &vec![vec![1, 2, 715827883]]));
    assert!(are_valid_tuples(1, &vec![vec![i32::MAX]]));
}
