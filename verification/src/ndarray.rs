//! A sparse store over a grid: every coordinate holds a value or nothing.
//! Cells are addressed by their index in row-major order.

use vstd::prelude::*;
use vstd::std_specs::cmp::PartialEqSpec;

use crate::combinatorics::rows;
use crate::grid::{
    coords_spec, flat_index, in_bounds, lemma_coords_at, lemma_coords_len,
    lemma_flat_index_range, lemma_volume_of_prefix, volume,
};
use crate::utils::make_coords;
use crate::{Coord, Shape};

verus! {

/// A grid of a fixed shape in which every cell holds a value or nothing.
pub struct NdArray<T> {
    n: usize,
    shape: Shape,
    coords: Vec<Coord>,
    array: Vec<Option<T>>,
}

/// Whether two cells differ: one is filled and the other is not, or both are
/// filled with values that `==` tells apart.
pub open spec fn cell_differs<T: PartialEq>(a: Option<T>, b: Option<T>) -> bool {
    match (a, b) {
        (Some(x), Some(y)) => !x.eq_spec(&y),
        (None, None) => false,
        _ => true,
    }
}

/// The number of positions at which two rows of cells differ.
pub open spec fn differing_cells<T: PartialEq>(a: Seq<Option<T>>, b: Seq<Option<T>>) -> nat
    decreases a.len(),
{
    if a.len() == 0 {
        0
    } else {
        differing_cells(a.drop_last(), b.drop_last()) + if cell_differs(a.last(), b.last()) {
            1nat
        } else {
            0nat
        }
    }
}

/// A grid of the given shape with no cell filled.
pub open spec fn empty_cells<T>(shape: Seq<usize>) -> Seq<Option<T>> {
    Seq::new(volume(shape), |i: int| None)
}

/// The empty grid after storing, for each filled cell of `src` in turn, the
/// value of the matching member of `outs` at the coordinate of that member.
/// The members of `outs` that match empty cells are not looked at.
pub open spec fn stored_outputs<T>(
    shape: Seq<usize>,
    src: Seq<Option<T>>,
    outs: Seq<(Coord, T)>,
) -> Seq<Option<T>>
    decreases outs.len(),
{
    if outs.len() == 0 {
        empty_cells::<T>(shape)
    } else {
        let prev = stored_outputs(shape, src, outs.drop_last());
        if src[outs.len() - 1].is_some() {
            prev.update(flat_index(shape, outs.last().0@), Some(outs.last().1))
        } else {
            prev
        }
    }
}

/// Whether `outs` holds, for each filled cell among the first `outs.len()`
/// cells of `src`, something that `f` can return for that cell and its
/// coordinate.
pub open spec fn outputs_of<T, F: Fn((&Coord, &T)) -> (Coord, T)>(
    coords: Seq<Coord>,
    src: Seq<Option<T>>,
    f: F,
    outs: Seq<(Coord, T)>,
) -> bool {
    forall|k: int|
        0 <= k < outs.len() && src[k].is_some() ==> call_ensures(
            f,
            ((&coords[k], &src[k].unwrap()),),
            #[trigger] outs[k],
        )
}

impl<T> NdArray<T> {
    /// The number of axes.
    pub closed spec fn spec_n(&self) -> usize {
        self.n
    }

    /// The size of the grid along each axis.
    pub closed spec fn spec_shape(&self) -> Seq<usize> {
        self.shape@
    }

    /// The coordinates that the store keeps, in canonical order.
    pub closed spec fn spec_coords(&self) -> Seq<Coord> {
        self.coords@
    }

    /// The cells of the grid in row-major order.
    pub closed spec fn cells(&self) -> Seq<Option<T>> {
        self.array@
    }

    /// What the store holds at `coord`.
    pub open spec fn at(&self, coord: Seq<usize>) -> Option<T> {
        self.cells()[flat_index(self.spec_shape(), coord)]
    }

    /// The store keeps one cell for each coordinate of its grid, and the
    /// coordinates in row-major order.
    pub open spec fn wf(&self) -> bool {
        &&& self.spec_n() == self.spec_shape().len()
        &&& rows(self.spec_coords()) == coords_spec(self.spec_shape())
        &&& self.spec_coords().len() == self.cells().len()
        &&& self.cells().len() == volume(self.spec_shape())
        &&& self.cells().len() <= usize::MAX
    }

    /// The store of the given shape with no cell filled.
    pub fn new(shape: &Shape) -> (store: Self)
        ensures
            store.wf(),
            store.spec_shape() == shape@,
            store.cells() == empty_cells::<T>(shape@),
    {
        let coords = make_coords(shape);
        proof {
            lemma_coords_len(shape@);
        }
        let mut copy: Shape = Vec::new();
        let mut i: usize = 0;
        while i < shape.len()
            invariant
                i <= shape.len(),
                copy@ == shape@.take(i as int),
            decreases shape.len() - i,
        {
            copy.push(shape[i]);
            i += 1;
        }
        assert(shape@.take(shape@.len() as int) =~= shape@);
        let mut array: Vec<Option<T>> = Vec::new();
        let mut k: usize = 0;
        while k < coords.len()
            invariant
                k <= coords.len(),
                array@.len() == k,
                forall|j: int| 0 <= j < k ==> #[trigger] array@[j] is None,
            decreases coords.len() - k,
        {
            array.push(None);
            k += 1;
        }
        assert(array@ =~= empty_cells::<T>(shape@));
        NdArray { n: shape.len(), shape: copy, coords, array }
    }

    /// Whether the store is well-formed.
    pub fn is_well_formed(&self) -> (well_formed: bool)
        ensures
            well_formed == self.wf(),
    {
        if self.n != self.shape.len() || self.coords.len() != self.array.len() {
            return false;
        }
        let fresh = make_coords(&self.shape);
        proof {
            lemma_coords_len(self.shape@);
        }
        if fresh.len() != self.coords.len() {
            assert(rows(self.coords@).len() != coords_spec(self.shape@).len());
            return false;
        }
        let mut i: usize = 0;
        while i < fresh.len()
            invariant
                i <= fresh@.len(),
                fresh@.len() == self.coords@.len(),
                rows(fresh@) == coords_spec(self.shape@),
                forall|j: int| 0 <= j < i ==> (#[trigger] self.coords@[j])@ == fresh@[j]@,
            decreases fresh@.len() - i,
        {
            let a = &fresh[i];
            let b = &self.coords[i];
            let mut same = a.len() == b.len();
            let mut k: usize = 0;
            while same && k < a.len()
                invariant
                    k <= a@.len(),
                    same ==> a@.len() == b@.len() && forall|x: int| 0 <= x < k ==> a@[x] == b@[x],
                    !same ==> a@ != b@,
                decreases a@.len() - k, if same { 1int } else { 0int },
            {
                if a[k] != b[k] {
                    same = false;
                } else {
                    k += 1;
                }
            }
            if !same {
                assert(rows(self.coords@)[i as int] != rows(fresh@)[i as int]);
                return false;
            }
            assert(a@ =~= b@);
            i += 1;
        }
        assert(rows(self.coords@) =~= rows(fresh@));
        true
    }

    /// The index of a coordinate in row-major order.
    pub fn index(&self, coord: &Coord) -> (index: usize)
        requires
            self.wf(),
            in_bounds(self.spec_shape(), coord@),
        ensures
            index == flat_index(self.spec_shape(), coord@),
            index < self.cells().len(),
    {
        let mut acc: usize = 0;
        let mut j: usize = 0;
        let total = self.array.len();
        proof {
            lemma_flat_index_range(self.shape@, coord@);
            assert forall|a: int| 0 <= a < self.shape@.len() implies self.shape@[a] > 0 by {
                assert(coord@[a] < self.shape@[a]);
            }
        }
        while j < self.shape.len()
            invariant
                j <= self.shape@.len(),
                self.wf(),
                total == volume(self.shape@),
                in_bounds(self.shape@, coord@),
                forall|a: int| 0 <= a < self.shape@.len() ==> self.shape@[a] > 0,
                acc == flat_index(self.shape@.take(j as int), coord@.take(j as int)),
                acc < volume(self.shape@.take(j as int)),
            decreases self.shape@.len() - j,
        {
            proof {
                let s = self.shape@.take(j + 1);
                let c = coord@.take(j + 1);
                assert(s.drop_last() =~= self.shape@.take(j as int));
                assert(c.drop_last() =~= coord@.take(j as int));
                assert(in_bounds(s, c));
                lemma_flat_index_range(s, c);
                lemma_volume_of_prefix(self.shape@, j + 1);
                assert(s.last() == self.shape@[j as int] && c.last() == coord@[j as int]);
                assert(flat_index(s, c) == acc * self.shape@[j as int] + coord@[j as int]);
                assert(0 <= acc * self.shape@[j as int]) by (nonlinear_arith)
                    requires
                        0 <= acc,
                        0 <= self.shape@[j as int],
                ;
            }
            acc = acc * self.shape[j] + coord[j];
            j += 1;
        }
        proof {
            assert(self.shape@.take(j as int) =~= self.shape@);
            assert(coord@.take(j as int) =~= coord@);
        }
        acc
    }

    /// The coordinate with the given index in row-major order.
    pub fn coord(&self, index: usize) -> (coord: &Coord)
        requires
            self.wf(),
            index < self.cells().len(),
        ensures
            coord@ == coords_spec(self.spec_shape())[index as int],
            in_bounds(self.spec_shape(), coord@),
            flat_index(self.spec_shape(), coord@) == index,
    {
        proof {
            lemma_coords_at(self.shape@, index as int);
            assert(rows(self.coords@)[index as int] == self.coords@[index as int]@);
        }
        &self.coords[index]
    }

    /// Whether the cell at `coord` is filled.
    pub fn contains_key(&self, coord: &Coord) -> (filled: bool)
        requires
            self.wf(),
            in_bounds(self.spec_shape(), coord@),
        ensures
            filled == self.at(coord@).is_some(),
    {
        self.array[self.index(coord)].is_some()
    }

    /// What the cell at `coord` holds.
    pub fn get(&self, coord: &Coord) -> (value: Option<&T>)
        requires
            self.wf(),
            in_bounds(self.spec_shape(), coord@),
        ensures
            match value {
                Some(v) => self.at(coord@) == Some(*v),
                None => self.at(coord@).is_none(),
            },
    {
        self.array[self.index(coord)].as_ref()
    }

    /// Fills the cell at `coord` with `value`, in place of what it held.
    pub fn insert(&mut self, coord: &Coord, value: T)
        requires
            old(self).wf(),
            in_bounds(old(self).spec_shape(), coord@),
        ensures
            final(self).wf(),
            final(self).spec_shape() == old(self).spec_shape(),
            final(self).cells() == old(self).cells().update(
                flat_index(old(self).spec_shape(), coord@),
                Some(value),
            ),
    {
        let index = self.index(coord);
        self.array.set(index, Some(value));
    }

    /// Empties the cell at `coord` and hands out what it held.
    pub fn remove(&mut self, coord: &Coord) -> (value: Option<T>)
        requires
            old(self).wf(),
            in_bounds(old(self).spec_shape(), coord@),
        ensures
            final(self).wf(),
            final(self).spec_shape() == old(self).spec_shape(),
            value == old(self).at(coord@),
            final(self).cells() == old(self).cells().update(
                flat_index(old(self).spec_shape(), coord@),
                None,
            ),
    {
        let index = self.index(coord);
        self.array.push(None);
        let value = self.array.swap_remove(index);
        assert(self.array@ =~= old(self).array@.update(index as int, None));
        value
    }

    /// The number of axes.
    pub fn n(&self) -> (n: usize)
        ensures
            n == self.spec_n(),
    {
        self.n
    }

    /// The size of the grid along each axis.
    pub fn shape(&self) -> (shape: &Shape)
        ensures
            shape@ == self.spec_shape(),
    {
        &self.shape
    }

    /// The coordinates of the grid in row-major order.
    pub fn coords(&self) -> (coords: &Vec<Coord>)
        ensures
            coords@ == self.spec_coords(),
    {
        &self.coords
    }

    /// A walk over the filled cells, from the first cell on.
    pub fn iter(&self) -> (iter: NdArrayIter<'_, T>)
        ensures
            iter.store() == *self,
            iter.position() == 0,
    {
        NdArrayIter { array: self, current_index: 0 }
    }

    /// The number of cells at which the two stores differ; a filled cell
    /// differs from an empty one.
    pub fn differences(&self, other: &Self) -> (count: usize) where T: PartialEq
        requires
            self.wf(),
            other.wf(),
            self.spec_shape() == other.spec_shape(),
            T::obeys_eq_spec(),
        ensures
            count == differing_cells(self.cells(), other.cells()),
    {
        let mut count: usize = 0;
        let mut i: usize = 0;
        while i < self.array.len()
            invariant
                i <= self.array@.len(),
                self.array@.len() == other.array@.len(),
                T::obeys_eq_spec(),
                count <= i,
                count == differing_cells(self.array@.take(i as int), other.array@.take(i as int)),
            decreases self.array@.len() - i,
        {
            let differs = match (&self.array[i], &other.array[i]) {
                (Some(x), Some(y)) => x != y,
                (None, None) => false,
                _ => true,
            };
            proof {
                assert(self.array@.take(i + 1).drop_last() =~= self.array@.take(i as int));
                assert(other.array@.take(i + 1).drop_last() =~= other.array@.take(i as int));
                assert(differs == cell_differs(self.array@[i as int], other.array@[i as int]));
            }
            if differs {
                count += 1;
            }
            i += 1;
        }
        proof {
            assert(self.array@.take(i as int) =~= self.array@);
            assert(other.array@.take(i as int) =~= other.array@);
        }
        count
    }

    /// A store of the same shape, built from the empty one: every filled cell,
    /// in row-major order, is handed to `f` with its coordinate, and what `f`
    /// returns is stored at the coordinate that `f` returns.
    pub fn map<F: Fn((&Coord, &T)) -> (Coord, T)>(&self, f: F) -> (mapped: Self)
        requires
            self.wf(),
            forall|k: int|
                0 <= k < self.cells().len() && self.cells()[k].is_some() ==> call_requires(
                    f,
                    ((&#[trigger] self.spec_coords()[k], &self.cells()[k].unwrap()),),
                ),
            forall|k: int, out: (Coord, T)|
                0 <= k < self.cells().len() && self.cells()[k].is_some() && #[trigger] call_ensures(
                    f,
                    ((&self.spec_coords()[k], &self.cells()[k].unwrap()),),
                    out,
                ) ==> in_bounds(self.spec_shape(), out.0@),
        ensures
            mapped.wf(),
            mapped.spec_shape() == self.spec_shape(),
            exists|outs: Seq<(Coord, T)>|
                {
                    &&& outs.len() == self.cells().len()
                    &&& outputs_of(self.spec_coords(), self.cells(), f, outs)
                    &&& mapped.cells() == #[trigger] stored_outputs(
                        self.spec_shape(),
                        self.cells(),
                        outs,
                    )
                },
    {
        let mut res = Self::new(&self.shape);
        let mut k: usize = 0;
        let ghost mut outs: Seq<(Coord, T)> = Seq::empty();
        while k < self.array.len()
            invariant
                k <= self.array@.len(),
                self.wf(),
                res.wf(),
                res.spec_shape() == self.spec_shape(),
                forall|k: int|
                    0 <= k < self.cells().len() && self.cells()[k].is_some() ==> call_requires(
                        f,
                        ((&#[trigger] self.spec_coords()[k], &self.cells()[k].unwrap()),),
                    ),
                forall|k: int, out: (Coord, T)|
                    0 <= k < self.cells().len() && self.cells()[k].is_some()
                        && #[trigger] call_ensures(
                        f,
                        ((&self.spec_coords()[k], &self.cells()[k].unwrap()),),
                        out,
                    ) ==> in_bounds(self.spec_shape(), out.0@),
                outs.len() == k,
                outputs_of(self.spec_coords(), self.cells(), f, outs),
                res.cells() == stored_outputs(self.spec_shape(), self.cells(), outs),
            decreases self.array@.len() - k,
        {
            let ghost before = outs;
            match &self.array[k] {
                Some(v) => {
                    let out = f((&self.coords[k], v));
                    proof {
                        outs = before.push(out);
                        assert(outs.drop_last() =~= before);
                    }
                    let (coord, value) = out;
                    res.insert(&coord, value);
                },
                None => {
                    proof {
                        outs = before.push(arbitrary());
                        assert(outs.drop_last() =~= before);
                    }
                },
            }
            k += 1;
        }
        res
    }
}

/// Whether `b` can be a clone of the cell `a`.
pub open spec fn cloned_cell<T: Clone>(a: Option<T>, b: Option<T>) -> bool {
    match (a, b) {
        (Some(x), Some(y)) => cloned::<T>(x, y),
        (None, None) => true,
        _ => false,
    }
}

impl<T: Clone> Clone for NdArray<T> {
    fn clone(&self) -> (copy: Self)
        ensures
            self.wf() ==> copy.wf(),
            copy.spec_n() == self.spec_n(),
            copy.spec_shape() == self.spec_shape(),
            copy.cells().len() == self.cells().len(),
            forall|i: int|
                0 <= i < self.cells().len() ==> cloned_cell(
                    self.cells()[i],
                    #[trigger] copy.cells()[i],
                ),
    {
        let shape = self.shape.clone();
        let coords = self.coords.clone();
        let array = self.array.clone();
        proof {
            assert(shape@ =~= self.shape@);
            assert forall|i: int| 0 <= i < self.coords@.len() implies #[trigger] coords@[i]@
                == self.coords@[i]@ by {
                assert(cloned::<Coord>(self.coords@[i], coords@[i]));
                assert(coords@[i]@ =~= self.coords@[i]@);
            }
            assert(rows(coords@) =~= rows(self.coords@));
            assert forall|i: int| 0 <= i < self.array@.len() implies cloned_cell(
                self.array@[i],
                #[trigger] array@[i],
            ) by {
                assert(cloned::<Option<T>>(self.array@[i], array@[i]));
            }
        }
        NdArray { n: self.n, shape, coords, array }
    }
}

impl<T: PartialEq> NdArray<T> {
    /// What `==` compares: the two grids have the same shape, and no cell of
    /// one differs from the same cell of the other.
    pub closed spec fn same_as(&self, other: &Self) -> bool {
        &&& self.n == other.n
        &&& self.shape.eq_spec(&other.shape)
        &&& self.coords.eq_spec(&other.coords)
        &&& self.array.eq_spec(&other.array)
    }

    /// Between two well-formed stores, `==` holds exactly when the shapes are
    /// the same and no cell differs.
    pub proof fn lemma_same_as(&self, other: &Self)
        requires
            self.wf(),
            other.wf(),
        ensures
            self.same_as(other) == {
                &&& self.spec_shape() == other.spec_shape()
                &&& forall|i: int|
                    0 <= i < self.cells().len() ==> !cell_differs(
                        #[trigger] self.cells()[i],
                        other.cells()[i],
                    )
            },
    {
        if self.spec_shape() == other.spec_shape() {
            assert(self.shape.eq_spec(&other.shape));
            assert(self.coords.eq_spec(&other.coords)) by {
                assert forall|i: int| 0 <= i < self.coords@.len() implies (
                #[trigger] self.coords@[i]).eq_spec(&other.coords@[i]) by {
                    assert(rows(self.coords@)[i] == rows(other.coords@)[i]);
                }
            }
            if forall|i: int|
                0 <= i < self.cells().len() ==> !cell_differs(
                    #[trigger] self.cells()[i],
                    other.cells()[i],
                ) {
                assert forall|i: int| 0 <= i < self.array@.len() implies (
                #[trigger] self.array@[i]).eq_spec(&other.array@[i]) by {
                    assert(!cell_differs(self.cells()[i], other.cells()[i]));
                }
            }
            if self.same_as(other) {
                assert forall|i: int| 0 <= i < self.cells().len() implies !cell_differs(
                    #[trigger] self.cells()[i],
                    other.cells()[i],
                ) by {
                    assert(self.array@[i].eq_spec(&other.array@[i]));
                }
            }
        } else {
            if self.shape.eq_spec(&other.shape) {
                assert(self.shape@ =~= other.shape@);
            }
        }
    }
}

impl<T: PartialEq> PartialEq for NdArray<T> {
    fn eq(&self, other: &Self) -> (equal: bool) {
        self.n == other.n && self.shape == other.shape && self.coords == other.coords
            && self.array == other.array
    }
}

impl<T: PartialEq> vstd::std_specs::cmp::PartialEqSpecImpl for NdArray<T> {
    open spec fn obeys_eq_spec() -> bool {
        T::obeys_eq_spec()
    }

    open spec fn eq_spec(&self, other: &Self) -> bool {
        self.same_as(other)
    }
}

/// A walk over the filled cells of a store, in canonical order.
pub struct NdArrayIter<'a, T> {
    array: &'a NdArray<T>,
    current_index: usize,
}

impl<'a, T> NdArrayIter<'a, T> {
    /// The store that is walked.
    pub closed spec fn store(&self) -> NdArray<T> {
        *self.array
    }

    /// The index of the first cell not yet visited.
    pub closed spec fn position(&self) -> usize {
        self.current_index
    }

    /// The next filled cell at or after the current position, with its
    /// coordinate; nothing when no filled cell is left.
    pub fn next(&mut self) -> (item: Option<(&'a Coord, &'a T)>)
        requires
            old(self).store().wf(),
        ensures
            final(self).store() == old(self).store(),
            old(self).position() <= final(self).position(),
            match item {
                Some((coord, value)) => {
                    let found = final(self).position() - 1;
                    &&& old(self).position() <= found < old(self).store().cells().len()
                    &&& coord@ == coords_spec(old(self).store().spec_shape())[found]
                    &&& old(self).store().cells()[found] == Some(*value)
                    &&& forall|i: int|
                        old(self).position() <= i < found ==> old(self).store().cells()[i].is_none()
                },
                None => {
                    &&& old(self).store().cells().len() <= final(self).position()
                    &&& forall|i: int|
                        old(self).position() <= i < old(self).store().cells().len() ==> old(
                            self,
                        ).store().cells()[i].is_none()
                },
            },
    {
        let store: &'a NdArray<T> = self.array;
        let length = store.array.len();
        while self.current_index < length
            invariant
                self.array == old(self).array,
                store == self.array,
                store.wf(),
                length == store.array@.len(),
                old(self).current_index <= self.current_index,
                forall|i: int|
                    old(self).current_index <= i < self.current_index && i < length
                        ==> store.array@[i].is_none(),
            decreases length - self.current_index,
        {
            let at = self.current_index;
            let coord = store.coord(at);
            let entry = &store.array[at];
            self.current_index += 1;
            if let Some(v) = entry {
                return Some((coord, v));
            }
        }
        None
    }
}

} // verus!
