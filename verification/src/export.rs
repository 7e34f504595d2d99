//! Packings as flat records: for every brick its cell, its position and its
//! size.

use vstd::prelude::*;

use crate::combinatorics::rows;
use crate::grid::{coords_spec, cube_shape, lemma_coords_at, lemma_coords_len};
use crate::interval::Interval;
use crate::json::{documents, Document, Json};
use crate::recipe::Recipe;
use crate::recipe_builder::{
    derived_rect, derived_state, fits, lemma_abutting_state_is_derived,
    valid_tuples, RecipeBuilder,
};
use crate::recipe_json::{key_coord, key_permutation, number_list};
use crate::{DimensionTuple, IntType};

verus! {

/// One brick of a packing.
pub struct Brick {
    /// The cell of the brick.
    pub coord: Vec<usize>,
    /// Where the brick begins along each axis.
    pub position: Vec<IntType>,
    /// The extent of the brick along each axis.
    pub size: Vec<IntType>,
}

/// A packing: the bricks that an assignment gives for one dimension tuple.
pub struct Export {
    pub name: Option<String>,
    /// The number of axes.
    pub dimensions: usize,
    /// The dimension tuple.
    pub brick: Vec<IntType>,
    /// The bricks, in row-major order of their cells.
    pub bricks: Vec<Brick>,
}

/// What a `Brick` stands for.
pub struct BrickView {
    pub coord: Seq<usize>,
    pub position: Seq<IntType>,
    pub size: Seq<IntType>,
}

impl View for Brick {
    type V = BrickView;

    open spec fn view(&self) -> BrickView {
        BrickView { coord: self.coord@, position: self.position@, size: self.size@ }
    }
}

/// The bricks that a vector of bricks stands for.
pub open spec fn brick_views(bricks: Seq<Brick>) -> Seq<BrickView> {
    Seq::new(bricks.len(), |i: int| bricks[i]@)
}

/// The brick with the given cell and footprint.
pub open spec fn brick_of(coord: Seq<usize>, rect: Seq<Interval>) -> BrickView {
    BrickView {
        coord,
        position: Seq::new(rect.len(), |a: int| rect[a].begin),
        size: Seq::new(rect.len(), |a: int| (rect[a].end - rect[a].begin) as IntType),
    }
}

/// The bricks of the filled cells among the first `upto`, in row-major
/// order, each with the footprint derived from the assignment.
pub open spec fn bricks_upto(
    n: usize,
    m: usize,
    tuple: Seq<IntType>,
    cells: Seq<Option<Seq<usize>>>,
    upto: nat,
) -> Seq<BrickView>
    decreases upto,
{
    if upto == 0 {
        Seq::empty()
    } else {
        let before = bricks_upto(n, m, tuple, cells, (upto - 1) as nat);
        let coord = coords_spec(cube_shape(n, m))[upto - 1];
        match cells[upto - 1] {
            Some(_) => before.push(brick_of(coord, derived_rect(n, m, tuple, cells, coord))),
            None => before,
        }
    }
}

/// The index of the first member of `brick` that equals `size`.
pub open spec fn edge_index(brick: Seq<IntType>, size: IntType, from: int) -> Option<usize>
    decreases brick.len() - from,
{
    if from < 0 || from >= brick.len() {
        None
    } else if brick[from] == size {
        Some(from as usize)
    } else {
        edge_index(brick, size, from + 1)
    }
}

/// For each of the first `upto` sizes the index of the edge length that it
/// is, if every one of them is an edge length of `brick`.
pub open spec fn permutation_spec(brick: Seq<IntType>, sizes: Seq<IntType>, upto: nat) -> Option<
    Seq<usize>,
>
    decreases upto,
{
    if upto == 0 {
        Some(Seq::empty())
    } else {
        match (
            permutation_spec(brick, sizes, (upto - 1) as nat),
            edge_index(brick, sizes[upto - 1], 0),
        ) {
            (Some(before), Some(index)) => Some(before.push(index)),
            _ => None,
        }
    }
}

fn copy_numbers(values: &Vec<usize>) -> (copy: Vec<usize>)
    ensures
        copy@ == values@,
{
    let mut copy: Vec<usize> = Vec::new();
    let mut i: usize = 0;
    while i < values.len()
        invariant
            i <= values@.len(),
            copy@ == values@.take(i as int),
        decreases values@.len() - i,
    {
        copy.push(values[i]);
        i += 1;
    }
    assert(values@.take(values@.len() as int) =~= values@);
    copy
}

fn copy_lengths(values: &Vec<IntType>) -> (copy: Vec<IntType>)
    ensures
        copy@ == values@,
{
    let mut copy: Vec<IntType> = Vec::new();
    let mut i: usize = 0;
    while i < values.len()
        invariant
            i <= values@.len(),
            copy@ == values@.take(i as int),
        decreases values@.len() - i,
    {
        copy.push(values[i]);
        i += 1;
    }
    assert(values@.take(values@.len() as int) =~= values@);
    copy
}

/// The packing that a recipe gives for a dimension tuple: for every filled
/// cell, in row-major order, the brick with its position and its size.
pub fn export(recipe: &Recipe, dimension_tuple: &DimensionTuple, name: Option<String>) -> (packing:
    Export)
    requires
        recipe.wf(),
        valid_tuples(recipe.n, seq![dimension_tuple@]),
    ensures
        packing.name == name,
        packing.dimensions == recipe.m,
        packing.brick@ == dimension_tuple@,
        brick_views(packing.bricks@) == bricks_upto(
            recipe.n,
            recipe.m,
            dimension_tuple@,
            recipe@.cells,
            recipe@.cells.len(),
        ),
{
    let ghost n = recipe.n;
    let ghost m = recipe.m;
    let ghost tuple = dimension_tuple@;
    let ghost cells = recipe@.cells;
    let ghost shape = cube_shape(n, m);
    let mut tuples: Vec<DimensionTuple> = Vec::new();
    tuples.push(copy_lengths(dimension_tuple));
    assert(crate::recipe_builder::tuple_views(tuples@) =~= seq![tuple]);
    let builder = RecipeBuilder::generate(recipe, tuples);
    let ghost s = builder@;
    proof {
        builder.lemma_wf();
        lemma_abutting_state_is_derived(s);
        lemma_coords_len(shape);
    }
    let coords = recipe.map.coords();
    let mut bricks: Vec<Brick> = Vec::new();
    let mut i: usize = 0;
    while i < coords.len()
        invariant
            i <= coords@.len(),
            recipe.wf(),
            n == recipe.n,
            m == recipe.m,
            shape == cube_shape(n, m),
            cells == recipe@.cells,
            coords@ == recipe.map.spec_coords(),
            coords@.len() == cells.len(),
            builder.wf(),
            s == builder@,
            s.wf(),
            s.n == n,
            s.m == m,
            s.cells == cells,
            s.tuples == seq![tuple],
            s == derived_state(n, m, seq![tuple], cells, s.limit),
            brick_views(bricks@) == bricks_upto(n, m, tuple, cells, i as nat),
        decreases coords@.len() - i,
    {
        let coord = &coords[i];
        proof {
            lemma_coords_at(shape, i as int);
            assert(rows(coords@)[i as int] == coord@);
        }
        if recipe.map.contains_key(coord) {
            let rects = builder.get_hyper_rectangles(coord);
            let rect = rects[0];
            let ghost derived = derived_rect(n, m, tuple, cells, coord@);
            proof {
                assert(s.rect_at(0, coord@) == Some(rect@));
                assert(s.rects[0][i as int] == Some(derived));
                assert(rect@ == derived);
                let o = s.cells[i as int].unwrap();
                assert(fits(n, m, tuple, coord@, o, rect@));
            }
            let mut position: Vec<IntType> = Vec::new();
            let mut size: Vec<IntType> = Vec::new();
            let mut a: usize = 0;
            while a < rect.len()
                invariant
                    a <= rect@.len(),
                    rect@.len() == m,
                    position@ == brick_of(coord@, rect@).position.take(a as int),
                    size@ == brick_of(coord@, rect@).size.take(a as int),
                    forall|x: int|
                        0 <= x < m ==> 0 <= (#[trigger] rect@[x]).begin && rect@[x].begin
                            <= rect@[x].end,
                decreases rect@.len() - a,
            {
                assert(0 <= rect@[a as int].begin && rect@[a as int].begin <= rect@[a as int].end);
                position.push(rect[a].begin);
                size.push(rect[a].width());
                proof {
                    assert(position@ =~= brick_of(coord@, rect@).position.take(a + 1));
                    assert(size@ =~= brick_of(coord@, rect@).size.take(a + 1));
                }
                a += 1;
            }
            proof {
                let whole = brick_of(coord@, rect@);
                assert(whole.position.take(m as int) =~= whole.position);
                assert(whole.size.take(m as int) =~= whole.size);
            }
            let brick = Brick { coord: copy_numbers(coord), position, size };
            proof {
                assert(brick@ == brick_of(coord@, derived));
                assert(brick_views(bricks@.push(brick)) =~= bricks_upto(
                    n,
                    m,
                    tuple,
                    cells,
                    (i + 1) as nat,
                ));
            }
            bricks.push(brick);
        }
        i += 1;
    }
    Export { name, dimensions: recipe.m, brick: copy_lengths(dimension_tuple), bricks }
}

impl Brick {
    /// For each axis the index of the edge length that the brick has along
    /// it; nothing where a size of the brick is no edge length of `brick`.
    pub fn permutation(&self, brick: &Vec<IntType>) -> (indices: Option<Vec<usize>>)
        ensures
            match indices {
                Some(found) => permutation_spec(brick@, self.size@, self.size@.len()) == Some(
                    found@,
                ),
                None => permutation_spec(brick@, self.size@, self.size@.len()).is_none(),
            },
    {
        let mut indices: Vec<usize> = Vec::new();
        let mut a: usize = 0;
        while a < self.size.len()
            invariant
                a <= self.size@.len(),
                permutation_spec(brick@, self.size@, a as nat) == Some(indices@),
            decreases self.size@.len() - a,
        {
            let size = self.size[a];
            let mut k: usize = 0;
            let mut found: Option<usize> = None;
            while k < brick.len() && found.is_none()
                invariant
                    k <= brick@.len(),
                    size == self.size@[a as int],
                    match found {
                        Some(index) => edge_index(brick@, size, 0) == Some(index),
                        None => edge_index(brick@, size, 0) == edge_index(brick@, size, k as int),
                    },
                decreases brick@.len() - k, if found.is_none() { 1int } else { 0int },
            {
                if brick[k] == size {
                    found = Some(k);
                } else {
                    k += 1;
                }
            }
            match found {
                Some(index) => {
                    indices.push(index);
                },
                None => {
                    proof {
                        lemma_permutation_fails(brick@, self.size@, (a + 1) as nat, self.size@.len());
                    }
                    return None;
                },
            }
            a += 1;
        }
        Some(indices)
    }
}

proof fn lemma_permutation_fails(brick: Seq<IntType>, sizes: Seq<IntType>, at: nat, upto: nat)
    requires
        at <= upto,
        permutation_spec(brick, sizes, at).is_none(),
    ensures
        permutation_spec(brick, sizes, upto).is_none(),
    decreases upto,
{
    if at < upto {
        lemma_permutation_fails(brick, sizes, at, (upto - 1) as nat);
    }
}

/// The key of the name of a packing.
pub open spec fn key_name() -> Seq<char> {
    seq!['n', 'a', 'm', 'e']
}

/// The key of the number of axes.
pub open spec fn key_dimensions() -> Seq<char> {
    seq!['d', 'i', 'm', 'e', 'n', 's', 'i', 'o', 'n', 's']
}

/// The key of the dimension tuple.
pub open spec fn key_brick() -> Seq<char> {
    seq!['b', 'r', 'i', 'c', 'k']
}

/// The key of the list of bricks.
pub open spec fn key_bricks() -> Seq<char> {
    seq!['b', 'r', 'i', 'c', 'k', 's']
}

/// The key of the position of a brick.
pub open spec fn key_position() -> Seq<char> {
    seq!['p', 'o', 's', 'i', 't', 'i', 'o', 'n']
}

/// The key of the size of a brick.
pub open spec fn key_size() -> Seq<char> {
    seq!['s', 'i', 'z', 'e']
}

fn word_name() -> (key: Vec<char>)
    ensures
        key@ == key_name(),
{
    let mut key: Vec<char> = Vec::new();
    key.push('n');
    key.push('a');
    key.push('m');
    key.push('e');
    assert(key@ =~= key_name());
    key
}

fn word_dimensions() -> (key: Vec<char>)
    ensures
        key@ == key_dimensions(),
{
    let mut key: Vec<char> = Vec::new();
    key.push('d');
    key.push('i');
    key.push('m');
    key.push('e');
    key.push('n');
    key.push('s');
    key.push('i');
    key.push('o');
    key.push('n');
    key.push('s');
    assert(key@ =~= key_dimensions());
    key
}

fn word_brick() -> (key: Vec<char>)
    ensures
        key@ == key_brick(),
{
    let mut key: Vec<char> = Vec::new();
    key.push('b');
    key.push('r');
    key.push('i');
    key.push('c');
    key.push('k');
    assert(key@ =~= key_brick());
    key
}

fn word_bricks() -> (key: Vec<char>)
    ensures
        key@ == key_bricks(),
{
    let mut key: Vec<char> = Vec::new();
    key.push('b');
    key.push('r');
    key.push('i');
    key.push('c');
    key.push('k');
    key.push('s');
    assert(key@ =~= key_bricks());
    key
}

fn word_position() -> (key: Vec<char>)
    ensures
        key@ == key_position(),
{
    let mut key: Vec<char> = Vec::new();
    key.push('p');
    key.push('o');
    key.push('s');
    key.push('i');
    key.push('t');
    key.push('i');
    key.push('o');
    key.push('n');
    assert(key@ =~= key_position());
    key
}

fn word_size() -> (key: Vec<char>)
    ensures
        key@ == key_size(),
{
    let mut key: Vec<char> = Vec::new();
    key.push('s');
    key.push('i');
    key.push('z');
    key.push('e');
    assert(key@ =~= key_size());
    key
}

/// A list of lengths as a document, if none of them is negative.
pub open spec fn length_list(values: Seq<IntType>) -> Option<Document> {
    if forall|i: int| 0 <= i < values.len() ==> values[i] >= 0 {
        Some(Document::List(Seq::new(values.len(), |i: int| Document::Number(Some(values[i] as u64)))))
    } else {
        None
    }
}

/// The document of a brick of a packing with the dimension tuple `brick`:
/// its cell, its position, its size, and for each axis the index of the edge
/// length that it has along it. There is none where a position or a size is
/// negative, or a size is no edge length of `brick`.
pub open spec fn brick_document(b: BrickView, brick: Seq<IntType>) -> Option<Document> {
    match (length_list(b.position), length_list(b.size), permutation_spec(brick, b.size, b.size.len())) {
        (Some(position), Some(size), Some(indices)) => Some(
            Document::Object(
                seq![
                    (key_coord(), number_list(b.coord)),
                    (key_position(), position),
                    (key_size(), size),
                    (key_permutation(), number_list(indices)),
                ],
            ),
        ),
        _ => None,
    }
}

/// The documents of the first `upto` bricks, if each of them has one.
pub open spec fn brick_documents(bricks: Seq<BrickView>, brick: Seq<IntType>, upto: nat) -> Option<
    Seq<Document>,
>
    decreases upto,
{
    if upto == 0 {
        Some(Seq::empty())
    } else {
        match (
            brick_documents(bricks, brick, (upto - 1) as nat),
            brick_document(bricks[upto - 1], brick),
        ) {
            (Some(before), Some(doc)) => Some(before.push(doc)),
            _ => None,
        }
    }
}

/// The text of a name: the name, or the empty text where there is none.
pub open spec fn name_text(name: Option<String>) -> Seq<char> {
    match name {
        Some(text) => text@,
        None => Seq::empty(),
    }
}

/// The document of a packing, if each of its bricks has one and no edge
/// length is negative.
pub open spec fn export_document(
    name: Option<String>,
    dimensions: usize,
    brick: Seq<IntType>,
    bricks: Seq<BrickView>,
) -> Option<Document> {
    match (length_list(brick), brick_documents(bricks, brick, bricks.len())) {
        (Some(lengths), Some(docs)) => Some(
            Document::Object(
                seq![
                    (key_name(), Document::Text(name_text(name))),
                    (key_dimensions(), Document::Number(Some(dimensions as u64))),
                    (key_brick(), lengths),
                    (key_bricks(), Document::List(docs)),
                ],
            ),
        ),
        _ => None,
    }
}

proof fn lemma_brick_documents_fail(bricks: Seq<BrickView>, brick: Seq<IntType>, at: nat, upto: nat)
    requires
        at <= upto,
        brick_documents(bricks, brick, at).is_none(),
    ensures
        brick_documents(bricks, brick, upto).is_none(),
    decreases upto,
{
    if at < upto {
        lemma_brick_documents_fail(bricks, brick, at, (upto - 1) as nat);
    }
}

fn lengths(values: &Vec<IntType>) -> (json: Option<Json>)
    ensures
        match json {
            Some(list) => length_list(values@) == Some(list@),
            None => length_list(values@).is_none(),
        },
{
    let mut items: Vec<Json> = Vec::new();
    let mut i: usize = 0;
    while i < values.len()
        invariant
            i <= values@.len(),
            items@.len() == i,
            forall|j: int| 0 <= j < i ==> values@[j] >= 0,
            forall|j: int|
                0 <= j < i ==> (#[trigger] items@[j])@ == Document::Number(Some(values@[j] as u64)),
        decreases values@.len() - i,
    {
        if values[i] < 0 {
            return None;
        }
        items.push(Json::Number(Some(values[i] as u64)));
        i += 1;
    }
    let json = Json::List(items);
    assert(json@->List_0 =~= length_list(values@).unwrap()->List_0);
    Some(json)
}

fn indices(values: &Vec<usize>) -> (json: Json)
    ensures
        json@ == number_list(values@),
{
    let mut items: Vec<Json> = Vec::new();
    let mut i: usize = 0;
    while i < values.len()
        invariant
            i <= values@.len(),
            items@.len() == i,
            forall|j: int|
                0 <= j < i ==> (#[trigger] items@[j])@ == Document::Number(Some(values@[j] as u64)),
        decreases values@.len() - i,
    {
        items.push(Json::Number(Some(values[i] as u64)));
        i += 1;
    }
    let json = Json::List(items);
    assert(json@->List_0 =~= number_list(values@)->List_0);
    json
}

impl Brick {
    /// The brick as a document, for a packing with the dimension tuple
    /// `brick`.
    pub fn to_document(&self, brick: &Vec<IntType>) -> (doc: Option<Json>)
        ensures
            match doc {
                Some(json) => brick_document(self@, brick@) == Some(json@),
                None => brick_document(self@, brick@).is_none(),
            },
    {
        let position = match lengths(&self.position) {
            Some(list) => list,
            None => {
                return None;
            },
        };
        let size = match lengths(&self.size) {
            Some(list) => list,
            None => {
                return None;
            },
        };
        let permutation = match self.permutation(brick) {
            Some(found) => indices(&found),
            None => {
                return None;
            },
        };
        let coord = indices(&self.coord);
        let ghost wanted = brick_document(self@, brick@).unwrap()->Object_0;
        let mut members: Vec<(Vec<char>, Json)> = Vec::new();
        members.push((crate::recipe_json::word_coord(), coord));
        members.push((word_position(), position));
        members.push((word_size(), size));
        members.push((crate::recipe_json::word_permutation(), permutation));
        let doc = Json::Object(members);
        proof {
            let made = doc@->Object_0;
            assert(made.len() == 4);
            assert(made[0] == wanted[0]);
            assert(made[1] == wanted[1]);
            assert(made[2] == wanted[2]);
            assert(made[3] == wanted[3]);
            assert(made =~= wanted);
        }
        Some(doc)
    }
}

impl Export {
    /// The packing as a document: its name, the number of axes, the
    /// dimension tuple, and its bricks.
    pub fn to_document(&self) -> (doc: Option<Json>)
        ensures
            match doc {
                Some(json) => export_document(
                    self.name,
                    self.dimensions,
                    self.brick@,
                    brick_views(self.bricks@),
                ) == Some(json@),
                None => export_document(
                    self.name,
                    self.dimensions,
                    self.brick@,
                    brick_views(self.bricks@),
                ).is_none(),
            },
    {
        let tuple = match lengths(&self.brick) {
            Some(list) => list,
            None => {
                return None;
            },
        };
        let ghost all = brick_views(self.bricks@);
        let mut items: Vec<Json> = Vec::new();
        let mut i: usize = 0;
        while i < self.bricks.len()
            invariant
                i <= self.bricks@.len(),
                all == brick_views(self.bricks@),
                brick_documents(all, self.brick@, i as nat) == Some(documents(items@)),
            decreases self.bricks@.len() - i,
        {
            assert(all[i as int] == self.bricks@[i as int]@);
            match self.bricks[i].to_document(&self.brick) {
                Some(doc) => {
                    proof {
                        assert(documents(items@.push(doc)) =~= documents(items@).push(doc@));
                    }
                    items.push(doc);
                },
                None => {
                    proof {
                        lemma_brick_documents_fail(all, self.brick@, (i + 1) as nat, all.len());
                    }
                    return None;
                },
            }
            i += 1;
        }
        let name = match &self.name {
            Some(text) => Json::text(text.as_str()),
            None => Json::Text(Vec::new()),
        };
        let list = Json::List(items);
        let ghost wanted = export_document(self.name, self.dimensions, self.brick@, all).unwrap()->Object_0;
        proof {
            assert(list@->List_0 =~= brick_documents(all, self.brick@, all.len()).unwrap());
            assert(name@ == Document::Text(name_text(self.name)));
        }
        let mut members: Vec<(Vec<char>, Json)> = Vec::new();
        members.push((word_name(), name));
        members.push((word_dimensions(), Json::Number(Some(self.dimensions as u64))));
        members.push((word_brick(), tuple));
        members.push((word_bricks(), list));
        let doc = Json::Object(members);
        proof {
            let made = doc@->Object_0;
            assert(made.len() == 4);
            assert(members@[1].1@ == Document::Number(Some(self.dimensions as u64)));
            assert(made[0] == wanted[0]);
            assert(made[1] == wanted[1]);
            assert(made[2] == wanted[2]);
            assert(made[3] == wanted[3]);
            assert(made =~= wanted);
        }
        Some(doc)
    }

    /// The packing as a JSON text.
    pub fn to_json(&self) -> (text: Option<String>)
        ensures
            match text {
                Some(t) => export_document(
                    self.name,
                    self.dimensions,
                    self.brick@,
                    brick_views(self.bricks@),
                ) matches Some(doc) && t@ == crate::json::render_spec(doc),
                None => export_document(
                    self.name,
                    self.dimensions,
                    self.brick@,
                    brick_views(self.bricks@),
                ).is_none(),
            },
    {
        match self.to_document() {
            Some(doc) => Some(doc.render()),
            None => None,
        }
    }
}

} // verus!
