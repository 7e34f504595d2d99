//! Recipes as JSON documents: the grid, and for every filled cell its
//! coordinate and its orientation.

use vstd::prelude::*;

use crate::combinatorics::rows;
use crate::grid::{
    coords_spec, cube_shape, flat_index, in_bounds, lemma_coords_at, lemma_coords_len,
    lemma_flat_index_range, volume,
};
use crate::json::{documents, entries, first_member, json_document, member_spec, Document, Json};
use crate::recipe::{is_cell, is_orientation, is_orientation_for, Assignment, Recipe};

verus! {

/// Why a recipe could not be read.
#[derive(Clone, Copy, Debug, PartialEq, Eq, Structural)]
pub enum LoadError {
    /// The text is not JSON.
    Syntax,
    /// A member is missing, or is not what it has to be: `n` and `m` natural
    /// numbers, `map` a list, `coord` and `permutation` lists of natural
    /// numbers.
    Structure,
    /// A number is too large for the machine.
    TooLarge,
    /// An entry names no cell of the grid, or its permutation is no
    /// orientation for the grid.
    OutOfGrid,
}

/// The key of the side of the grid.
pub open spec fn key_n() -> Seq<char> {
    seq!['n']
}

/// The key of the number of axes.
pub open spec fn key_m() -> Seq<char> {
    seq!['m']
}

/// The key of the list of entries.
pub open spec fn key_map() -> Seq<char> {
    seq!['m', 'a', 'p']
}

/// The key of the coordinate of an entry.
pub open spec fn key_coord() -> Seq<char> {
    seq!['c', 'o', 'o', 'r', 'd']
}

/// The key of the orientation of an entry.
pub open spec fn key_permutation() -> Seq<char> {
    seq!['p', 'e', 'r', 'm', 'u', 't', 'a', 't', 'i', 'o', 'n']
}

/// A list of numbers as a document.
pub open spec fn number_list(values: Seq<usize>) -> Document {
    Document::List(Seq::new(values.len(), |i: int| Document::Number(Some(values[i] as u64))))
}

/// The entry for one cell.
pub open spec fn entry_document(coord: Seq<usize>, orientation: Seq<usize>) -> Document {
    Document::Object(
        seq![(key_coord(), number_list(coord)), (key_permutation(), number_list(orientation))],
    )
}

/// The entries for the filled cells among the first `upto`, in row-major
/// order.
pub open spec fn entry_documents(a: Assignment, upto: nat) -> Seq<Document>
    decreases upto,
{
    if upto == 0 {
        Seq::empty()
    } else {
        let before = entry_documents(a, (upto - 1) as nat);
        match a.cells[upto - 1] {
            Some(o) => before.push(entry_document(coords_spec(cube_shape(a.n, a.m))[upto - 1], o)),
            None => before,
        }
    }
}

/// The document that an assignment is written as.
pub open spec fn recipe_document(a: Assignment) -> Document {
    Document::Object(
        seq![
            (key_n(), Document::Number(Some(a.n as u64))),
            (key_m(), Document::Number(Some(a.m as u64))),
            (key_map(), Document::List(entry_documents(a, a.cells.len()))),
        ],
    )
}

/// The size that a member of a document gives.
pub open spec fn read_size(doc: Document, key: Seq<char>) -> Result<usize, LoadError> {
    match member_spec(doc, key) {
        Some(Document::Number(Some(v))) => if v <= usize::MAX {
            Ok(v as usize)
        } else {
            Err(LoadError::TooLarge)
        },
        _ => Err(LoadError::Structure),
    }
}

/// The numbers that the first `upto` items of a list give.
pub open spec fn read_items(items: Seq<Document>, upto: nat) -> Result<Seq<usize>, LoadError>
    decreases upto,
{
    if upto == 0 {
        Ok(Seq::empty())
    } else {
        match read_items(items, (upto - 1) as nat) {
            Err(e) => Err(e),
            Ok(before) => match items[upto - 1] {
                Document::Number(Some(v)) => if v <= usize::MAX {
                    Ok(before.push(v as usize))
                } else {
                    Err(LoadError::TooLarge)
                },
                _ => Err(LoadError::Structure),
            },
        }
    }
}

/// The numbers that a member gives which has to be a list of numbers.
pub open spec fn read_numbers(doc: Option<Document>) -> Result<Seq<usize>, LoadError> {
    match doc {
        Some(Document::List(items)) => read_items(items, items.len()),
        _ => Err(LoadError::Structure),
    }
}

/// The cell and the orientation that an entry gives for the grid of side `n`
/// in `m` dimensions.
pub open spec fn read_entry(n: usize, m: usize, entry: Document) -> Result<
    (Seq<usize>, Seq<usize>),
    LoadError,
> {
    match read_numbers(member_spec(entry, key_coord())) {
        Err(e) => Err(e),
        Ok(coord) => match read_numbers(member_spec(entry, key_permutation())) {
            Err(e) => Err(e),
            Ok(orientation) => if in_bounds(cube_shape(n, m), coord) && is_orientation(
                orientation,
                n,
                m,
            ) {
                Ok((coord, orientation))
            } else {
                Err(LoadError::OutOfGrid)
            },
        },
    }
}

/// The cells that the first `upto` entries fill, one after the other; a
/// later entry for a cell replaces an earlier one.
pub open spec fn read_entries(n: usize, m: usize, items: Seq<Document>, upto: nat) -> Result<
    Seq<Option<Seq<usize>>>,
    LoadError,
>
    decreases upto,
{
    if upto == 0 {
        Ok(Seq::new(volume(cube_shape(n, m)), |i: int| None))
    } else {
        match read_entries(n, m, items, (upto - 1) as nat) {
            Err(e) => Err(e),
            Ok(cells) => match read_entry(n, m, items[upto - 1]) {
                Err(e) => Err(e),
                Ok((coord, orientation)) => Ok(
                    cells.update(flat_index(cube_shape(n, m), coord), Some(orientation)),
                ),
            },
        }
    }
}

/// The assignment that a document gives.
pub open spec fn loaded(doc: Document) -> Result<Assignment, LoadError> {
    match read_size(doc, key_n()) {
        Err(e) => Err(e),
        Ok(n) => match read_size(doc, key_m()) {
            Err(e) => Err(e),
            Ok(m) => match member_spec(doc, key_map()) {
                Some(Document::List(items)) => match read_entries(n, m, items, items.len()) {
                    Err(e) => Err(e),
                    Ok(cells) => Ok(Assignment { n, m, cells }),
                },
                _ => Err(LoadError::Structure),
            },
        },
    }
}

/// The assignment that a text gives.
pub open spec fn loaded_text(text: Seq<char>) -> Result<Assignment, LoadError> {
    match json_document(text) {
        Some(doc) => loaded(doc),
        None => Err(LoadError::Syntax),
    }
}

fn word_n() -> (key: Vec<char>)
    ensures
        key@ == key_n(),
{
    let mut key: Vec<char> = Vec::new();
    key.push('n');
    assert(key@ =~= key_n());
    key
}

fn word_m() -> (key: Vec<char>)
    ensures
        key@ == key_m(),
{
    let mut key: Vec<char> = Vec::new();
    key.push('m');
    assert(key@ =~= key_m());
    key
}

fn word_map() -> (key: Vec<char>)
    ensures
        key@ == key_map(),
{
    let mut key: Vec<char> = Vec::new();
    key.push('m');
    key.push('a');
    key.push('p');
    assert(key@ =~= key_map());
    key
}

pub(crate) fn word_coord() -> (key: Vec<char>)
    ensures
        key@ == key_coord(),
{
    let mut key: Vec<char> = Vec::new();
    key.push('c');
    key.push('o');
    key.push('o');
    key.push('r');
    key.push('d');
    assert(key@ =~= key_coord());
    key
}

pub(crate) fn word_permutation() -> (key: Vec<char>)
    ensures
        key@ == key_permutation(),
{
    let mut key: Vec<char> = Vec::new();
    key.push('p');
    key.push('e');
    key.push('r');
    key.push('m');
    key.push('u');
    key.push('t');
    key.push('a');
    key.push('t');
    key.push('i');
    key.push('o');
    key.push('n');
    assert(key@ =~= key_permutation());
    key
}

fn numbers(values: &Vec<usize>) -> (json: Json)
    ensures
        json@ == number_list(values@),
{
    let mut items: Vec<Json> = Vec::new();
    let mut i: usize = 0;
    while i < values.len()
        invariant
            i <= values@.len(),
            items@.len() == i,
            forall|j: int|
                0 <= j < i ==> (#[trigger] items@[j])@ == Document::Number(Some(values@[j] as u64)),
        decreases values@.len() - i,
    {
        items.push(Json::Number(Some(values[i] as u64)));
        i += 1;
    }
    let json = Json::List(items);
    assert(json@->List_0 =~= number_list(values@)->List_0);
    json
}

fn size_of(doc: &Json, key: &Vec<char>) -> (size: Result<usize, LoadError>)
    ensures
        size == read_size(doc@, key@),
{
    match doc.member(key) {
        Some(found) => match found.as_number() {
            Some(v) => {
                if v <= usize::MAX as u64 {
                    Ok(v as usize)
                } else {
                    Err(LoadError::TooLarge)
                }
            },
            None => Err(LoadError::Structure),
        },
        None => Err(LoadError::Structure),
    }
}

fn numbers_of(doc: Option<&Json>) -> (values: Result<Vec<usize>, LoadError>)
    ensures
        match values {
            Ok(v) => read_numbers(
                match doc {
                    Some(d) => Some(d@),
                    None => None,
                },
            ) == Ok::<Seq<usize>, LoadError>(v@),
            Err(e) => read_numbers(
                match doc {
                    Some(d) => Some(d@),
                    None => None,
                },
            ) == Err::<Seq<usize>, LoadError>(e),
        },
{
    let items = match doc {
        Some(found) => match found.as_list() {
            Some(items) => items,
            None => {
                return Err(LoadError::Structure);
            },
        },
        None => {
            return Err(LoadError::Structure);
        },
    };
    let ghost all = documents(items@);
    let mut values: Vec<usize> = Vec::new();
    let mut i: usize = 0;
    while i < items.len()
        invariant
            i <= items@.len(),
            all == documents(items@),
            doc matches Some(d) && d@ == Document::List(all),
            read_items(all, i as nat) == Ok::<Seq<usize>, LoadError>(values@),
        decreases items@.len() - i,
    {
        assert(all[i as int] == items@[i as int]@);
        match items[i].as_number() {
            Some(v) => {
                if v <= usize::MAX as u64 {
                    values.push(v as usize);
                } else {
                    assert(read_items(all, (i + 1) as nat) == Err::<Seq<usize>, LoadError>(
                        LoadError::TooLarge,
                    ));
                    proof {
                        lemma_read_items_fails(all, (i + 1) as nat, all.len());
                    }
                    return Err(LoadError::TooLarge);
                }
            },
            None => {
                assert(read_items(all, (i + 1) as nat) == Err::<Seq<usize>, LoadError>(
                    LoadError::Structure,
                ));
                proof {
                    lemma_read_items_fails(all, (i + 1) as nat, all.len());
                }
                return Err(LoadError::Structure);
            },
        }
        i += 1;
    }
    Ok(values)
}

proof fn lemma_read_items_fails(items: Seq<Document>, at: nat, upto: nat)
    requires
        at <= upto,
        read_items(items, at) is Err,
    ensures
        read_items(items, upto) == read_items(items, at),
    decreases upto,
{
    if at < upto {
        lemma_read_items_fails(items, at, (upto - 1) as nat);
    }
}

proof fn lemma_read_entries_fails(n: usize, m: usize, items: Seq<Document>, at: nat, upto: nat)
    requires
        at <= upto,
        read_entries(n, m, items, at) is Err,
    ensures
        read_entries(n, m, items, upto) == read_entries(n, m, items, at),
    decreases upto,
{
    if at < upto {
        lemma_read_entries_fails(n, m, items, at, (upto - 1) as nat);
    }
}

impl Recipe {
    /// The recipe as a document: `n`, `m`, and under `map` an entry with
    /// `coord` and `permutation` for every filled cell, in row-major order.
    pub fn to_document(&self) -> (doc: Json)
        requires
            self.wf(),
        ensures
            doc@ == recipe_document(self@),
    {
        let ghost a = self@;
        let ghost shape = cube_shape(self.n, self.m);
        let coords = self.map.coords();
        let mut items: Vec<Json> = Vec::new();
        let mut i: usize = 0;
        proof {
            lemma_coords_len(shape);
        }
        while i < coords.len()
            invariant
                i <= coords@.len(),
                self.wf(),
                a == self@,
                shape == cube_shape(self.n, self.m),
                coords@ == self.map.spec_coords(),
                coords@.len() == a.cells.len(),
                documents(items@) == entry_documents(a, i as nat),
            decreases coords@.len() - i,
        {
            let coord = &coords[i];
            proof {
                lemma_coords_at(shape, i as int);
                assert(rows(coords@)[i as int] == coord@);
            }
            match self.map.get(coord) {
                Some(orientation) => {
                    let mut members: Vec<(Vec<char>, Json)> = Vec::new();
                    members.push((word_coord(), numbers(coord)));
                    members.push((word_permutation(), numbers(orientation)));
                    let entry = Json::Object(members);
                    proof {
                        assert(entry@->Object_0 =~= entry_document(coord@, orientation@)->Object_0);
                        assert(a.cells[i as int] == Some(orientation@));
                        assert(documents(items@.push(entry)) =~= entry_documents(a, (i + 1) as nat));
                    }
                    items.push(entry);
                },
                None => {
                    proof {
                        assert(a.cells[i as int].is_none());
                    }
                },
            }
            i += 1;
        }
        let list = Json::List(items);
        assert(list@->List_0 =~= entry_documents(a, a.cells.len()));
        assert(list@ == Document::List(entry_documents(a, a.cells.len())));
        let mut members: Vec<(Vec<char>, Json)> = Vec::new();
        members.push((word_n(), Json::Number(Some(self.n as u64))));
        members.push((word_m(), Json::Number(Some(self.m as u64))));
        members.push((word_map(), list));
        let doc = Json::Object(members);
        proof {
            let made = doc@->Object_0;
            let wanted = recipe_document(a)->Object_0;
            assert(made.len() == 3);
            assert(members@[0].1@ == Document::Number(Some(a.n as u64)));
            assert(members@[1].1@ == Document::Number(Some(a.m as u64)));
            assert(made[0] == wanted[0]);
            assert(made[1] == wanted[1]);
            assert(made[2] == wanted[2]);
            assert(made =~= wanted);
        }
        doc
    }

    /// The recipe that a document holds.
    pub fn from_document(doc: &Json) -> (read: Result<Recipe, LoadError>)
        ensures
            match read {
                Ok(recipe) => recipe.wf() && loaded(doc@) == Ok::<Assignment, LoadError>(recipe@),
                Err(e) => loaded(doc@) == Err::<Assignment, LoadError>(e),
            },
    {
        let n = match size_of(doc, &word_n()) {
            Ok(n) => n,
            Err(e) => {
                return Err(e);
            },
        };
        let m = match size_of(doc, &word_m()) {
            Ok(m) => m,
            Err(e) => {
                return Err(e);
            },
        };
        let items = match doc.member(&word_map()) {
            Some(found) => match found.as_list() {
                Some(items) => items,
                None => {
                    return Err(LoadError::Structure);
                },
            },
            None => {
                return Err(LoadError::Structure);
            },
        };
        let ghost all = documents(items@);
        let ghost shape = cube_shape(n, m);
        let mut recipe = Recipe::new(n, m);
        let mut i: usize = 0;
        while i < items.len()
            invariant
                i <= items@.len(),
                all == documents(items@),
                shape == cube_shape(n, m),
                recipe.wf(),
                recipe.n == n,
                recipe.m == m,
                read_size(doc@, key_n()) == Ok::<usize, LoadError>(n),
                read_size(doc@, key_m()) == Ok::<usize, LoadError>(m),
                member_spec(doc@, key_map()) == Some(Document::List(all)),
                read_entries(n, m, all, i as nat) == Ok::<Seq<Option<Seq<usize>>>, LoadError>(
                    recipe@.cells,
                ),
            decreases items@.len() - i,
        {
            let entry = &items[i];
            assert(all[i as int] == entry@);
            let ghost before = recipe@.cells;
            let coord = match numbers_of(entry.member(&word_coord())) {
                Ok(coord) => coord,
                Err(e) => {
                    proof {
                        assert(read_entries(n, m, all, (i + 1) as nat) is Err);
                        lemma_read_entries_fails(n, m, all, (i + 1) as nat, all.len());
                    }
                    return Err(e);
                },
            };
            let orientation = match numbers_of(entry.member(&word_permutation())) {
                Ok(orientation) => orientation,
                Err(e) => {
                    proof {
                        assert(read_entries(n, m, all, (i + 1) as nat) is Err);
                        lemma_read_entries_fails(n, m, all, (i + 1) as nat, all.len());
                    }
                    return Err(e);
                },
            };
            if !is_cell(n, m, &coord) || !is_orientation_for(n, m, &orientation) {
                proof {
                    assert(read_entries(n, m, all, (i + 1) as nat) is Err);
                    lemma_read_entries_fails(n, m, all, (i + 1) as nat, all.len());
                }
                return Err(LoadError::OutOfGrid);
            }
            proof {
                lemma_flat_index_range(shape, coord@);
            }
            let ghost index = flat_index(shape, coord@);
            let ghost stored = orientation@;
            recipe.map.insert(&coord, orientation);
            proof {
                assert(recipe@.cells =~= before.update(index, Some(stored)));
                assert(recipe.wf()) by {
                    assert forall|j: int| 0 <= j < recipe.map.cells().len() implies (
                    #[trigger] recipe.map.cells()[j] matches Some(o) ==> is_orientation(
                        o@,
                        recipe.n,
                        recipe.m,
                    )) by {
                        if j != index {
                            assert(before[j] == recipe@.cells[j]);
                        }
                    }
                }
            }
            i += 1;
        }
        Ok(recipe)
    }

    /// The recipe as a JSON text.
    pub fn to_json(&self) -> (text: String)
        requires
            self.wf(),
        ensures
            text@ == crate::json::render_spec(recipe_document(self@)),
    {
        self.to_document().render()
    }

    /// The recipe that a JSON text holds.
    pub fn from_json(text: &str) -> (read: Result<Recipe, LoadError>)
        ensures
            match read {
                Ok(recipe) => recipe.wf() && loaded_text(text@) == Ok::<Assignment, LoadError>(
                    recipe@,
                ),
                Err(e) => loaded_text(text@) == Err::<Assignment, LoadError>(e),
            },
    {
        match Json::parse(text) {
            Some(doc) => Recipe::from_document(&doc),
            None => Err(LoadError::Syntax),
        }
    }
}

proof fn lemma_read_number_list(values: Seq<usize>, upto: nat)
    requires
        upto <= values.len(),
    ensures
        read_items(number_list(values)->List_0, upto) == Ok::<Seq<usize>, LoadError>(
            values.take(upto as int),
        ),
    decreases upto,
{
    let items = number_list(values)->List_0;
    if upto == 0 {
        assert(values.take(0) =~= Seq::<usize>::empty());
    } else {
        lemma_read_number_list(values, (upto - 1) as nat);
        let v = values[upto - 1];
        assert(items[upto - 1] == Document::Number(Some(v as u64)));
        assert((v as u64) as usize == v);
        assert(values.take(upto - 1).push(v) =~= values.take(upto as int));
    }
}

proof fn lemma_read_entries_prefix(
    n: usize,
    m: usize,
    items: Seq<Document>,
    longer: Seq<Document>,
    upto: nat,
)
    requires
        upto <= items.len() <= longer.len(),
        forall|i: int| 0 <= i < items.len() ==> items[i] == longer[i],
    ensures
        read_entries(n, m, longer, upto) == read_entries(n, m, items, upto),
    decreases upto,
{
    if upto > 0 {
        lemma_read_entries_prefix(n, m, items, longer, (upto - 1) as nat);
    }
}

proof fn lemma_read_entry_documents(a: Assignment, upto: nat)
    requires
        upto <= a.cells.len(),
        a.cells.len() == volume(cube_shape(a.n, a.m)),
        forall|i: int|
            0 <= i < a.cells.len() ==> (#[trigger] a.cells[i] matches Some(o) ==> is_orientation(
                o,
                a.n,
                a.m,
            )),
    ensures
        read_entries(a.n, a.m, entry_documents(a, upto), entry_documents(a, upto).len()) == Ok::<
            Seq<Option<Seq<usize>>>,
            LoadError,
        >(
            Seq::new(
                a.cells.len(),
                |i: int|
                    if i < upto {
                        a.cells[i]
                    } else {
                        None
                    },
            ),
        ),
    decreases upto,
{
    let shape = cube_shape(a.n, a.m);
    let here = Seq::new(
        a.cells.len(),
        |i: int|
            if i < upto {
                a.cells[i]
            } else {
                None
            },
    );
    if upto == 0 {
        assert(here =~= Seq::new(volume(shape), |i: int| None::<Seq<usize>>));
    } else {
        let k = upto - 1;
        lemma_read_entry_documents(a, k as nat);
        let before = entry_documents(a, k as nat);
        let earlier = Seq::new(
            a.cells.len(),
            |i: int|
                if i < k {
                    a.cells[i]
                } else {
                    None
                },
        );
        match a.cells[k] {
            None => {
                assert(here =~= earlier);
            },
            Some(o) => {
                let coord = coords_spec(shape)[k];
                lemma_coords_at(shape, k);
                let entry = entry_document(coord, o);
                let all = before.push(entry);
                assert(entry_documents(a, upto) == all);
                lemma_read_entries_prefix(a.n, a.m, before, all, before.len());
                assert(is_orientation(o, a.n, a.m));
                assert(read_entry(a.n, a.m, entry) == Ok::<(Seq<usize>, Seq<usize>), LoadError>(
                    (coord, o),
                )) by {
                    reveal_with_fuel(first_member, 3);
                    let members = entry->Object_0;
                    assert(members[0].0 == key_coord());
                    assert(key_coord() != key_permutation()) by {
                        assert(key_coord().len() != key_permutation().len());
                    }
                    assert(members[1].0 == key_permutation());
                    assert(member_spec(entry, key_coord()) == Some(number_list(coord)));
                    assert(member_spec(entry, key_permutation()) == Some(number_list(o)));
                    lemma_read_number_list(coord, coord.len());
                    lemma_read_number_list(o, o.len());
                    assert(coord.take(coord.len() as int) =~= coord);
                    assert(o.take(o.len() as int) =~= o);
                }
                assert(all[before.len() as int] == entry);
                assert(earlier.update(k, Some(o)) =~= here);
            },
        }
    }
}

/// Writing and reading again gives the same assignment: the document of a
/// well-formed recipe reads as that recipe.
pub proof fn lemma_document_round_trip(a: Assignment)
    requires
        a.cells.len() == volume(cube_shape(a.n, a.m)),
        forall|i: int|
            0 <= i < a.cells.len() ==> (#[trigger] a.cells[i] matches Some(o) ==> is_orientation(
                o,
                a.n,
                a.m,
            )),
    ensures
        loaded(recipe_document(a)) == Ok::<Assignment, LoadError>(a),
{
    let doc = recipe_document(a);
    let members = doc->Object_0;
    reveal_with_fuel(first_member, 4);
    assert(key_n() != key_m()) by {
        assert(key_n()[0] != key_m()[0]);
    }
    assert(key_n() != key_map()) by {
        assert(key_n().len() != key_map().len());
    }
    assert(key_m() != key_map()) by {
        assert(key_m().len() != key_map().len());
    }
    assert(members[0].0 == key_n() && members[1].0 == key_m() && members[2].0 == key_map());
    assert(member_spec(doc, key_n()) == Some(Document::Number(Some(a.n as u64))));
    assert(member_spec(doc, key_m()) == Some(Document::Number(Some(a.m as u64))));
    assert(member_spec(doc, key_map()) == Some(
        Document::List(entry_documents(a, a.cells.len())),
    ));
    assert((a.n as u64) as usize == a.n && (a.m as u64) as usize == a.m);
    lemma_read_entry_documents(a, a.cells.len());
    assert(Seq::new(
        a.cells.len(),
        |i: int|
            if i < a.cells.len() {
                a.cells[i]
            } else {
                None
            },
    ) =~= a.cells);
}

} // verus!
