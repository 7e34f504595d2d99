use hoffman::combinatorics::{
    combinations, combinations_with_repetition, factorial, permutations, product,
};
use hoffman::interval::Interval;
use hoffman::utils::{
    list_except, list_has_unique_sums, make_coords, permute_at, projection,
};

#[test]
fn interval_is_zero() {
    let a = Interval { begin: 2, end: 7 };
    let b = Interval { begin: 7, end: 2 };
    let c = Interval { begin: 5, end: 5 };
    let z = Interval { begin: 0, end: 0 };
    let z1 = Interval { begin: 0, end: 2 };
    let z2 = Interval { begin: 2, end: 0 };

    assert!(!a.is_zero());
    assert!(!b.is_zero());
    assert!(!c.is_zero());
    assert!(z.is_zero());
    assert!(!z1.is_zero());
    assert!(!z2.is_zero());
}

#[test]
fn interval_is_degenerate() {
    let a = Interval { begin: 2, end: 7 };
    let b = Interval { begin: 7, end: 2 };
    let c = Interval { begin: 5, end: 5 };
    let z = Interval { begin: 0, end: 0 };
    let z1 = Interval { begin: 0, end: 2 };
    let z2 = Interval { begin: 2, end: 0 };

    assert!(!a.is_degenerate());
    assert!(b.is_degenerate());
    assert!(c.is_degenerate());
    assert!(z.is_degenerate());
    assert!(!z1.is_degenerate());
    assert!(z2.is_degenerate());
}

#[test]
fn product_test() {
    let a = vec!(1, 2, 3, 4);
    let b = vec!(76, 76, 0);
    let c = vec!(0, 1);
    assert!(product(&vec!(a.clone()).as_slice()).len() == 4);
    assert!(product(&vec!(a.clone(), b.clone()).as_slice()).len() == 12);
    assert!(product(&vec!(c.clone(), b.clone(), a.clone()).as_slice()).len() == 24);
    assert!(product(&vec!(c.clone()).as_slice()).len() == 2);

    let expected = vec!(vec!(0, 1), vec!(0, 2), vec!(0, 3), vec!(0, 4),
                        vec!(1, 1), vec!(1, 2), vec!(1, 3), vec!(1, 4));
    for (x, y) in product(&vec!(c.clone(), a.clone()).as_slice()).iter().zip(expected.iter()) {
        assert_eq!(x, y);
    }

    let expected = vec!(vec!(0, 0), vec!(0, 1), vec!(1, 0), vec!(1, 1));
    for (x, y) in product(&vec!(c.clone(), c.clone()).as_slice()).iter().zip(expected.iter()) {
        assert_eq!(x, y);
    }

    let expected = vec!(vec!(0), vec!(1));
    for (x, y) in product(&vec!(c.clone()).as_slice()).iter().zip(expected.iter()) {
        assert_eq!(x, y);
    }

    let expected: Vec<Vec<usize>> = vec!(vec!());
    let input: Vec<Vec<usize>> = vec!(vec!());

    for (x, y) in product(&input.as_slice()).iter().zip(expected.iter()) {
        assert_eq!(x, y);
    }
}

#[test]
fn permutations_test() {
    let a = [1, 2, 3, 4];
    let b = [76, 76, 0];
    assert!(permutations(&a, 4).len() == 4 * 3 * 2 * 1);
    assert!(permutations(&a, 3).len() == 4 * 3 * 2);
    assert!(permutations(&a, 2).len() == 4 * 3);
    assert!(permutations(&a, 1).len() == 4);
    assert_eq!(permutations(&a, 2), [[1, 2], [1, 3], [1, 4], [2, 1], [2, 3], [2, 4], [3, 1], [3, 2], [3, 4], [4, 1], [4, 2], [4, 3]]);

    assert!(permutations(&b, 1).len() == 3);
    assert_eq!(permutations(&b, 1), [[76], [76], [0]]);
    let none: [[i32; 0]; 1] = [[]];
    assert_eq!(permutations(&b, 0), none);
}

#[test]
fn combinations_test() {
    let a = [1, 2, 3, 4];
    let b = [76, 76, 0];
    assert!(combinations(&a, 4).len() == 1);
    assert!(combinations(&a, 3).len() == 4);
    assert!(combinations(&a, 2).len() == 6);
    assert!(combinations(&a, 1).len() == 4);
    assert_eq!(combinations(&a, 2), [[1, 2], [1, 3], [1, 4], [2, 3], [2, 4], [3, 4]]);

    assert!(combinations(&b, 0).len() == 1);
    assert!(combinations(&b, 1).len() == 3);
    assert!(combinations(&b, 2).len() == 3);
    assert!(combinations(&b, 3).len() == 1);
    let none: [[i32; 0]; 1] = [[]];
    assert_eq!(combinations(&b, 0), none);
    assert_eq!(combinations(&b, 1), [[76], [76], [0]]);
    assert_eq!(combinations(&b, 2), [[76, 76], [76, 0], [76, 0]]);
    assert_eq!(combinations(&b, 3), [[76, 76, 0]]);
}

#[test]
fn combinations_with_repetition_test() {
    let a = [1, 2, 3, 4];
    let b = [76, 76, 0];
    let c = [0, 1];
    assert!(combinations_with_repetition(&a, 4).len() == 256);
    assert!(combinations_with_repetition(&a, 3).len() == 64);
    assert!(combinations_with_repetition(&a, 2).len() == 16);
    assert!(combinations_with_repetition(&a, 1).len() == 4);
    assert_eq!(combinations_with_repetition(&a, 2), [[1, 1], [1, 2], [1, 3], [1, 4],
                                                     [2, 1], [2, 2], [2, 3], [2, 4],
                                                     [3, 1], [3, 2], [3, 3], [3, 4],
                                                     [4, 1], [4, 2], [4, 3], [4, 4]]);

    assert!(combinations_with_repetition(&b, 0).len() == 1);
    assert!(combinations_with_repetition(&b, 1).len() == 3);
    assert!(combinations_with_repetition(&b, 2).len() == 9);
    assert!(combinations_with_repetition(&b, 3).len() == 27);
    let none: [[i32; 0]; 1] = [[]];
    assert_eq!(combinations_with_repetition(&c, 0), none);
    assert_eq!(combinations_with_repetition(&c, 1), [[0], [1]]);
    assert_eq!(combinations_with_repetition(&c, 2), [[0, 0], [0, 1], [1, 0], [1, 1]]);
    assert_eq!(combinations_with_repetition(&c, 3), [[0, 0, 0], [0, 0, 1], [0, 1, 0], [0, 1, 1],
                                                     [1, 0, 0], [1, 0, 1], [1, 1, 0], [1, 1, 1]]);
}

#[test]
fn list_except_test() {
    let a = [1, 2, 3, 4];
    let b = [76, 76, 0];
    let c = [2, 4, 6];
    assert_eq!(list_except(&a, &b), a);
    assert_eq!(list_except(&a, &c), [1, 3]);
    assert_eq!(list_except(&c, &a), [6]);
}

#[test]
fn permutations_of_more_than_the_list_holds() {
    let a = [1, 2];
    let none: [[i32; 0]; 1] = [[]];
    assert_eq!(permutations(&a, 3), none);
    assert_eq!(combinations(&a, 3), none);
}

#[test]
fn product_with_an_empty_list_is_empty() {
    let a: Vec<usize> = vec![1, 2];
    let e: Vec<usize> = vec![];
    assert_eq!(product(&[a, e]).len(), 0);
}

#[test]
fn factorial_values() {
    assert_eq!(factorial(0), 1);
    assert_eq!(factorial(1), 1);
    assert_eq!(factorial(5), 120);
    assert_eq!(factorial(10), 3628800);
}

#[test]
fn make_coords_is_row_major() {
    let coords = make_coords(&vec![2, 3]);
    assert_eq!(coords, [[0, 0], [0, 1], [0, 2], [1, 0], [1, 1], [1, 2]]);
    let origin: [[usize; 0]; 1] = [[]];
    assert_eq!(make_coords(&vec![]), origin);
    assert_eq!(make_coords(&vec![3, 0]).len(), 0);
}

#[test]
fn unique_sums() {
    assert!(list_has_unique_sums(&[4, 5, 6]));
    assert!(list_has_unique_sums(&[8, 9, 10, 12]));
    assert!(!list_has_unique_sums(&[1, 2, 3]));
    assert!(!list_has_unique_sums(&[5, 5]));
    assert!(list_has_unique_sums(&[]));
    assert!(!list_has_unique_sums(&[0]));
    assert!(list_has_unique_sums(&[i32::MAX, i32::MAX - 1]));
}

#[test]
fn enumerations_of_values_that_are_cloned() {
    let words = vec![String::from("a"), String::from("b"), String::from("c")];
    let pairs = permutations(&words, 2);
    assert_eq!(pairs.len(), 6);
    assert_eq!(pairs[0], vec![String::from("a"), String::from("b")]);
    assert_eq!(pairs[5], vec![String::from("c"), String::from("b")]);
    let picked = combinations(&words, 2);
    assert_eq!(picked.len(), 3);
    assert_eq!(picked[2], vec![String::from("b"), String::from("c")]);
    let lists = vec![vec![vec![1], vec![2, 3]], vec![vec![4]]];
    let all = product(&lists);
    assert_eq!(all, vec![vec![vec![1], vec![4]], vec![vec![2, 3], vec![4]]]);
    let twice = combinations_with_repetition(&words, 2);
    assert_eq!(twice.len(), 9);
    assert_eq!(twice[1], vec![String::from("a"), String::from("b")]);
    let rest = list_except(&words, &[String::from("b")]);
    assert_eq!(rest, vec![String::from("a"), String::from("c")]);
}

#[test]
fn projection_picks_components_in_order() {
    assert_eq!(projection(&vec![5, 6, 7, 8], &vec![3, 1]), vec![8, 6]);
    assert_eq!(projection(&vec![5, 6, 7, 8], &vec![2, 2, 0]), vec![7, 7, 5]);
    let none: Vec<usize> = vec![];
    assert_eq!(projection(&vec![5, 6, 7, 8], &vec![]), none);
}

#[test]
fn permute_at_rearranges_the_listed_locations() {
    assert_eq!(permute_at(&vec![5, 6, 7, 8], &vec![1, 0], &vec![0, 2]), vec![7, 6, 5, 8]);
    assert_eq!(permute_at(&vec![5, 6, 7, 8], &vec![0, 1], &vec![0, 2]), vec![5, 6, 7, 8]);
    assert_eq!(permute_at(&vec![5, 6, 7, 8], &vec![2, 0, 1], &vec![3, 0, 1]), vec![8, 5, 7, 6]);
    assert_eq!(permute_at(&vec![5, 6, 7, 8], &vec![], &vec![]), vec![5, 6, 7, 8]);
    assert_eq!(permute_at(&vec![5, 6, 7, 8], &vec![1, 1], &vec![0, 2]), vec![7, 6, 7, 8]);
    assert_eq!(permute_at(&vec![5, 6, 7, 8], &vec![1, 0], &vec![3, 3]), vec![5, 6, 7, 8]);
}
