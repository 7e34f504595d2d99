use hoffman::export::{export, Brick, Export};
use hoffman::json::Json;
use hoffman::plot::Rectangle;
use hoffman::recipe::Recipe;
use hoffman::recipe_builder::RecipeBuilder;
use hoffman::recipe_json::LoadError;
use hoffman::search::backtrack;

fn pinwheel() -> Recipe {
    let mut recipe = Recipe::new(2, 2);
    recipe.map.insert(&vec![0, 0], vec![0, 1]);
    recipe.map.insert(&vec![0, 1], vec![1, 0]);
    recipe.map.insert(&vec![1, 0], vec![1, 0]);
    recipe.map.insert(&vec![1, 1], vec![0, 1]);
    recipe
}

fn word(text: &str) -> Vec<char> {
    text.chars().collect()
}

#[test]
fn recipe_is_written_as_json() {
    let expected = "{ \"n\": 2, \"m\": 2, \"map\": [{ \"coord\": [0, 0], \"permutation\": [0, 1] },\n\
{ \"coord\": [0, 1], \"permutation\": [1, 0] },\n\
{ \"coord\": [1, 0], \"permutation\": [1, 0] },\n\
{ \"coord\": [1, 1], \"permutation\": [0, 1] }] }";
    assert_eq!(pinwheel().to_json(), expected);
    assert_eq!(Recipe::new(3, 2).to_json(), "{ \"n\": 3, \"m\": 2, \"map\": [] }");
    let mut partial = Recipe::new(12, 1);
    partial.map.insert(&vec![10], vec![11]);
    assert_eq!(
        partial.to_json(),
        "{ \"n\": 12, \"m\": 1, \"map\": [{ \"coord\": [10], \"permutation\": [11] }] }"
    );
}

#[test]
fn written_recipe_reads_back() {
    let recipe = pinwheel();
    let read = Recipe::from_json(&recipe.to_json());
    assert!(read.is_ok());
    assert!(read.unwrap() == recipe);
    let mut partial = Recipe::new(3, 3);
    partial.map.insert(&vec![2, 0, 1], vec![1, 2, 0]);
    let read = Recipe::from_json(&partial.to_json()).unwrap();
    assert!(read == partial);
    assert_eq!(read.map.get(&vec![2, 0, 1]), Some(&vec![1, 2, 0]));
    let found = backtrack(3, 3, vec![vec![4, 5, 6]], 3, usize::MAX);
    for recipe in found.recipes.iter() {
        assert!(Recipe::from_json(&recipe.to_json()).unwrap() == *recipe);
        assert!(Recipe::from_document(&recipe.to_document()).unwrap() == *recipe);
    }
}

#[test]
fn recipe_is_read_from_any_json_layout() {
    let text = "{\"map\":[{\"permutation\":[1,0],\"coord\":[0,1]}],\n \"m\": 2,\t\"n\": 2}";
    let recipe = Recipe::from_json(text).unwrap();
    assert_eq!(recipe.n, 2);
    assert_eq!(recipe.m, 2);
    assert_eq!(recipe.map.get(&vec![0, 1]), Some(&vec![1, 0]));
    assert_eq!(recipe.map.get(&vec![0, 0]), None);
    let twice = "{ \"n\": 2, \"m\": 1, \"map\": [{ \"coord\": [1], \"permutation\": [0] }, { \"coord\": [1], \"permutation\": [1] }] }";
    assert_eq!(Recipe::from_json(twice).unwrap().map.get(&vec![1]), Some(&vec![1]));
}

fn error_of(text: &str) -> LoadError {
    match Recipe::from_json(text) {
        Ok(_) => panic!("read a recipe"),
        Err(e) => e,
    }
}

#[test]
fn unreadable_recipes() {
    assert_eq!(error_of("{ \"n\": 2, "), LoadError::Syntax);
    assert_eq!(error_of(""), LoadError::Syntax);
    assert_eq!(error_of("[]"), LoadError::Structure);
    assert_eq!(error_of("{ \"m\": 2, \"map\": [] }"), LoadError::Structure);
    assert_eq!(error_of("{ \"n\": \"2\", \"m\": 2, \"map\": [] }"), LoadError::Structure);
    assert_eq!(error_of("{ \"n\": -2, \"m\": 2, \"map\": [] }"), LoadError::Structure);
    assert_eq!(error_of("{ \"n\": 2.5, \"m\": 2, \"map\": [] }"), LoadError::Structure);
    assert_eq!(error_of("{ \"n\": 2, \"map\": [] }"), LoadError::Structure);
    assert_eq!(error_of("{ \"n\": 2, \"m\": 2 }"), LoadError::Structure);
    assert_eq!(error_of("{ \"n\": 2, \"m\": 2, \"map\": {} }"), LoadError::Structure);
    assert_eq!(error_of("{ \"n\": 2, \"m\": 2, \"map\": [1] }"), LoadError::Structure);
    assert_eq!(
        error_of("{ \"n\": 2, \"m\": 2, \"map\": [{ \"coord\": [0, 0] }] }"),
        LoadError::Structure
    );
    assert_eq!(
        error_of("{ \"n\": 2, \"m\": 2, \"map\": [{ \"coord\": [0, \"0\"], \"permutation\": [0, 1] }] }"),
        LoadError::Structure
    );
    assert_eq!(
        error_of("{ \"n\": 2, \"m\": 2, \"map\": [{ \"coord\": [0, 2], \"permutation\": [0, 1] }] }"),
        LoadError::OutOfGrid
    );
    assert_eq!(
        error_of("{ \"n\": 2, \"m\": 2, \"map\": [{ \"coord\": [0], \"permutation\": [0, 1] }] }"),
        LoadError::OutOfGrid
    );
    assert_eq!(
        error_of("{ \"n\": 2, \"m\": 2, \"map\": [{ \"coord\": [0, 1], \"permutation\": [0, 1, 1] }] }"),
        LoadError::OutOfGrid
    );
    assert_eq!(
        error_of("{ \"n\": 2, \"m\": 2, \"map\": [{ \"coord\": [0, 1], \"permutation\": [0, 2] }] }"),
        LoadError::OutOfGrid
    );
}

#[test]
fn documents_are_parsed() {
    let doc = Json::parse("{\"b\": [1, true, null, \"x\\\"y\", -3, 1.5], \"a\": {\"c\": 18446744073709551615}}").unwrap();
    let b = doc.member(&word("b")).unwrap();
    let items = b.as_list().unwrap();
    assert_eq!(items.len(), 6);
    assert_eq!(items[0].as_number(), Some(1));
    assert_eq!(items[1].as_number(), None);
    assert!(matches!(items[1], Json::Bool(true)));
    assert!(matches!(items[2], Json::Null));
    assert!(matches!(&items[3], Json::Text(t) if *t == word("x\"y")));
    assert!(matches!(items[4], Json::Number(None)));
    assert!(matches!(items[5], Json::Number(None)));
    assert!(b.member(&word("b")).is_none());
    assert!(doc.as_list().is_none());
    assert!(doc.member(&word("z")).is_none());
    let a = doc.member(&word("a")).unwrap();
    assert_eq!(a.member(&word("c")).unwrap().as_number(), Some(u64::MAX));
    assert!(matches!(&doc, Json::Object(members) if members[0].0 == word("a") && members[1].0 == word("b")));
    assert!(Json::parse("{").is_none());
    assert!(Json::parse("nul").is_none());
    assert!(matches!(Json::parse(" null ").unwrap(), Json::Null));
}

#[test]
fn documents_are_rendered() {
    let doc = Json::List(vec![
        Json::Number(Some(0)),
        Json::Number(Some(9)),
        Json::Number(Some(10)),
        Json::Number(Some(1234567890)),
        Json::Number(Some(u64::MAX)),
        Json::Number(None),
        Json::Null,
        Json::Bool(true),
        Json::Bool(false),
        Json::text("a\"b\\c"),
        Json::List(vec![]),
        Json::Object(vec![]),
    ]);
    assert_eq!(
        doc.render(),
        "[0, 9, 10, 1234567890, 18446744073709551615, null, null, true, false, \"a\\\"b\\\\c\", [], {  }]"
    );
    let objects = Json::List(vec![
        Json::Object(vec![(word("k"), Json::Number(Some(1))), (word("l"), Json::text("v"))]),
        Json::Object(vec![(word("k"), Json::Number(Some(2)))]),
    ]);
    assert_eq!(objects.render(), "[{ \"k\": 1, \"l\": \"v\" },\n{ \"k\": 2 }]");
    let back = Json::parse(&doc.render()).unwrap();
    assert_eq!(back.as_list().unwrap().len(), 12);
    assert!(matches!(&back.as_list().unwrap()[9], Json::Text(t) if *t == word("a\"b\\c")));
}

#[test]
fn packing_is_exported() {
    let packing = export(&pinwheel(), &vec![3, 5], Some(String::from("pinwheel")));
    assert_eq!(packing.dimensions, 2);
    assert_eq!(packing.brick, vec![3, 5]);
    assert_eq!(packing.name, Some(String::from("pinwheel")));
    let bricks: Vec<(Vec<usize>, Vec<i32>, Vec<i32>)> = packing
        .bricks
        .iter()
        .map(|b| (b.coord.clone(), b.position.clone(), b.size.clone()))
        .collect();
    assert_eq!(
        bricks,
        vec![
            (vec![0, 0], vec![0, 0], vec![3, 5]),
            (vec![0, 1], vec![0, 5], vec![5, 3]),
            (vec![1, 0], vec![3, 0], vec![5, 3]),
            (vec![1, 1], vec![5, 3], vec![3, 5]),
        ]
    );
    assert_eq!(packing.bricks[1].permutation(&packing.brick), Some(vec![1, 0]));
    let expected = "{ \"name\": \"pinwheel\", \"dimensions\": 2, \"brick\": [3, 5], \"bricks\": [\
{ \"coord\": [0, 0], \"position\": [0, 0], \"size\": [3, 5], \"permutation\": [0, 1] },\n\
{ \"coord\": [0, 1], \"position\": [0, 5], \"size\": [5, 3], \"permutation\": [1, 0] },\n\
{ \"coord\": [1, 0], \"position\": [3, 0], \"size\": [5, 3], \"permutation\": [1, 0] },\n\
{ \"coord\": [1, 1], \"position\": [5, 3], \"size\": [3, 5], \"permutation\": [0, 1] }] }";
    assert_eq!(packing.to_json(), Some(String::from(expected)));
    assert!(Json::parse(expected).is_some());
}

#[test]
fn partial_packing_and_odd_bricks() {
    let mut recipe = Recipe::new(2, 2);
    recipe.map.insert(&vec![1, 0], vec![1, 1]);
    let packing = export(&recipe, &vec![3, 5], None);
    assert_eq!(packing.bricks.len(), 1);
    assert_eq!(packing.bricks[0].position, vec![0, 0]);
    assert_eq!(packing.bricks[0].size, vec![5, 5]);
    assert_eq!(
        packing.to_json(),
        Some(String::from(
            "{ \"name\": \"\", \"dimensions\": 2, \"brick\": [3, 5], \"bricks\": [{ \"coord\": [1, 0], \"position\": [0, 0], \"size\": [5, 5], \"permutation\": [1, 1] }] }"
        ))
    );
    let odd = Brick { coord: vec![0], position: vec![0], size: vec![4] };
    assert_eq!(odd.permutation(&vec![3, 5]), None);
    assert!(odd.to_document(&vec![3, 5]).is_none());
    assert_eq!(odd.permutation(&vec![4, 4]), Some(vec![0]));
    let negative = Brick { coord: vec![0], position: vec![-1], size: vec![3] };
    assert!(negative.to_document(&vec![3, 5]).is_none());
    let holder = Export { name: None, dimensions: 1, brick: vec![3, 5], bricks: vec![odd] };
    assert_eq!(holder.to_json(), None);
}

#[test]
fn cross_sections() {
    let builder = RecipeBuilder::generate(&pinwheel(), vec![vec![3, 5]]);
    let r = |x, y, width, height| Rectangle { x, y, width, height };
    assert_eq!(
        builder.get_rectangles_at(vec![]),
        vec![r(0, 0, 3, 5), r(0, 5, 5, 3), r(3, 0, 5, 3), r(5, 3, 3, 5)]
    );
    let mut fewer = RecipeBuilder::generate(&pinwheel(), vec![vec![3, 5]]);
    fewer.remove(&vec![0, 1]);
    assert_eq!(
        fewer.get_rectangles_at(vec![]),
        vec![r(0, 0, 3, 5), r(3, 0, 5, 3), r(5, 3, 3, 5)]
    );
    let found = backtrack(3, 3, vec![vec![4, 5, 6]], 1, usize::MAX);
    let cube = RecipeBuilder::generate(&found.recipes[0], vec![vec![4, 5, 6]]);
    assert_eq!(
        cube.get_rectangles_at(vec![(0, 0)]),
        vec![
            r(0, 0, 5, 6), r(0, 6, 6, 5), r(0, 11, 6, 4), r(5, 0, 6, 5), r(6, 5, 4, 6),
            r(6, 11, 5, 4), r(11, 0, 4, 6), r(10, 6, 5, 4), r(11, 10, 4, 5),
        ]
    );
    assert_eq!(
        cube.get_rectangles_at(vec![(1, 2)]),
        vec![
            r(0, 0, 5, 6), r(0, 6, 6, 4), r(0, 10, 6, 5), r(5, 0, 6, 4), r(6, 4, 4, 5),
            r(6, 9, 5, 6), r(11, 0, 4, 5), r(10, 5, 5, 4), r(11, 9, 4, 6),
        ]
    );
    assert_eq!(
        cube.get_rectangles_at(vec![(2, 1)]),
        vec![
            r(0, 0, 4, 6), r(0, 6, 5, 4), r(0, 10, 6, 5), r(4, 0, 6, 4), r(5, 4, 4, 5),
            r(6, 9, 4, 6), r(10, 0, 5, 4), r(9, 4, 6, 5), r(10, 9, 5, 6),
        ]
    );
}

#[test]
fn configured_limit() {
    let mut strict = RecipeBuilder::with_subgrid_limit(3, 2, vec![vec![4, 5, 6]], 1);
    strict.insert(&vec![0, 0], &vec![0, 1]);
    strict.insert(&vec![0, 1], &vec![0, 2]);
    assert!(!strict.satisfies_subgrid_criterion(&vec![0, 1]));
    let mut usual = RecipeBuilder::new(3, 2, vec![vec![4, 5, 6]]);
    usual.insert(&vec![0, 0], &vec![0, 1]);
    usual.insert(&vec![0, 1], &vec![0, 2]);
    assert!(usual.satisfies_subgrid_criterion(&vec![0, 1]));
    usual.insert(&vec![0, 2], &vec![0, 1]);
    assert!(usual.satisfies_subgrid_criterion(&vec![0, 2]));
    let mut wide = RecipeBuilder::new(4, 1, vec![vec![1, 2, 3, 4]]);
    for level in 0..4 {
        wide.insert(&vec![level], &vec![2]);
        assert!(wide.satisfies_subgrid_criterion(&vec![level]));
    }
}
