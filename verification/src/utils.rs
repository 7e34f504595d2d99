//! Grid coordinates in canonical order, and two helpers on lists.

use std::collections::HashSet;
use vstd::prelude::*;
use vstd::std_specs::cmp::PartialEqSpec;

use crate::combinatorics::{
    clone_is_exact, combinations, combinations_spec, duplicate, is_increasing,
    lemma_combinations_map, product, rows,
};
use crate::grid::{axes_spec, axis_spec, coords_spec};
use crate::{Coord, IntType, Shape};

verus! {

/// The sum of the members of `s`.
pub open spec fn sum_spec(s: Seq<IntType>) -> int
    decreases s.len(),
{
    if s.len() == 0 {
        0
    } else {
        sum_spec(s.drop_last()) + s.last()
    }
}

/// The selections of fewer than `upto` members of `list`, by size and then in
/// the order of `combinations_spec`.
pub open spec fn sub_tuples(list: Seq<IntType>, upto: nat) -> Seq<Seq<IntType>>
    decreases upto,
{
    if upto == 0 {
        Seq::empty()
    } else {
        sub_tuples(list, (upto - 1) as nat) + combinations_spec(list, (upto - 1) as nat)
    }
}

/// No two selections of members of `list`, the empty one included, have the
/// same sum.
pub open spec fn has_unique_sums(list: Seq<IntType>) -> bool {
    let tuples = sub_tuples(list, list.len() + 1);
    forall|i: int, j: int|
        0 <= i < j < tuples.len() ==> sum_spec(#[trigger] tuples[i]) != sum_spec(
            #[trigger] tuples[j],
        )
}

/// Whether `exclude` holds a member equal to `v`.
pub open spec fn is_excluded<T: PartialEq>(exclude: Seq<T>, v: T) -> bool {
    exists|i: int| 0 <= i < exclude.len() && #[trigger] exclude[i].eq_spec(&v)
}

/// The members of `list` at the given positions.
pub open spec fn picked(list: Seq<IntType>, positions: Seq<usize>) -> Seq<IntType> {
    positions.map_values(|i: usize| list[i as int])
}

/// Whether `positions` selects members of a list of `n`: it names positions
/// of the list in increasing order.
pub open spec fn is_selection(n: nat, positions: Seq<usize>) -> bool {
    &&& is_increasing(positions)
    &&& forall|i: int| 0 <= i < positions.len() ==> #[trigger] positions[i] < n
}

/// The selections of fewer than `upto` positions of a list of `n`, by size
/// and then in lexicographic order.
pub open spec fn position_tuples(n: usize, upto: nat) -> Seq<Seq<usize>>
    decreases upto,
{
    if upto == 0 {
        Seq::empty()
    } else {
        position_tuples(n, (upto - 1) as nat) + combinations_spec(axis_spec(n), (upto - 1) as nat)
    }
}

/// Whether any two different selections of members of `list`, each given by
/// the positions that it takes, have different sums.
pub open spec fn selections_differ(list: Seq<IntType>) -> bool {
    forall|s: Seq<usize>, t: Seq<usize>|
        is_selection(list.len(), s) && is_selection(list.len(), t) && s != t ==> sum_spec(
            #[trigger] picked(list, s),
        ) != sum_spec(#[trigger] picked(list, t))
}

proof fn lemma_sub_tuples_by_position(list: Seq<IntType>, upto: nat)
    requires
        list.len() <= usize::MAX,
    ensures
        sub_tuples(list, upto).len() == position_tuples(list.len() as usize, upto).len(),
        forall|q: int|
            0 <= q < sub_tuples(list, upto).len() ==> #[trigger] sub_tuples(list, upto)[q] == picked(
                list,
                position_tuples(list.len() as usize, upto)[q],
            ),
    decreases upto,
{
    if upto > 0 {
        let n = list.len() as usize;
        let k = (upto - 1) as nat;
        lemma_sub_tuples_by_position(list, k);
        let f = |i: usize| list[i as int];
        lemma_combinations_map(axis_spec(n), f, k);
        assert(axis_spec(n).map_values(f) =~= list);
    }
}

proof fn lemma_position_tuples(n: usize, upto: nat, q: int)
    requires
        0 <= q < position_tuples(n, upto).len(),
        upto <= n + 1,
    ensures
        is_selection(n as nat, position_tuples(n, upto)[q]),
        position_tuples(n, upto)[q].len() < upto,
        forall|r: int|
            0 <= r < position_tuples(n, upto).len() && r != q ==> position_tuples(n, upto)[r]
                != position_tuples(n, upto)[q],
    decreases upto,
{
    let k = (upto - 1) as nat;
    let before = position_tuples(n, k);
    let here = position_tuples(n, upto)[q];
    assert(is_increasing(axis_spec(n)));
    if q < before.len() {
        lemma_position_tuples(n, k, q);
    } else {
        let t = q - before.len();
        crate::combinatorics::lemma_combinations_increasing(axis_spec(n), k, t);
        crate::combinatorics::lemma_combinations_members(axis_spec(n), k, t);
        assert forall|i: int| 0 <= i < here.len() implies #[trigger] here[i] < n by {
            assert(axis_spec(n).contains(here[i]));
        }
    }
    assert forall|r: int|
        0 <= r < position_tuples(n, upto).len() && r != q implies position_tuples(n, upto)[r]
        != here by {
        if r < before.len() {
            lemma_position_tuples(n, k, r);
            if q >= before.len() {
                crate::combinatorics::lemma_combinations_members(axis_spec(n), k, q - before.len());
                lemma_selection_size(n, k, q - before.len());
            }
        } else {
            let u = r - before.len();
            crate::combinatorics::lemma_combinations_members(axis_spec(n), k, u);
            lemma_selection_size(n, k, u);
            if q >= before.len() {
                crate::combinatorics::lemma_combinations_distinct(
                    axis_spec(n),
                    k,
                    q - before.len(),
                    u,
                );
            }
        }
    }
}

proof fn lemma_selection_size(n: usize, k: nat, t: int)
    requires
        0 <= t < combinations_spec(axis_spec(n), k).len(),
        k <= n,
    ensures
        combinations_spec(axis_spec(n), k)[t].len() == k,
{
    crate::combinatorics::lemma_combinations_members(axis_spec(n), k, t);
}

proof fn lemma_position_tuples_complete(n: usize, positions: Seq<usize>) -> (q: int)
    requires
        is_selection(n as nat, positions),
    ensures
        0 <= q < position_tuples(n, (n + 1) as nat).len(),
        position_tuples(n, (n + 1) as nat)[q] == positions,
{
    assert(is_increasing(axis_spec(n)));
    assert forall|i: int| 0 <= i < positions.len() implies axis_spec(n).contains(
        #[trigger] positions[i],
    ) by {
        assert(axis_spec(n)[positions[i] as int] == positions[i]);
    }
    let t = crate::combinatorics::lemma_combinations_complete(axis_spec(n), positions);
    let k = positions.len();
    lemma_position_tuples_grow(n, (k + 1) as nat, (n + 1) as nat);
    position_tuples(n, k).len() + t
}

proof fn lemma_position_tuples_grow(n: usize, a: nat, b: nat)
    requires
        a <= b,
    ensures
        position_tuples(n, a).len() <= position_tuples(n, b).len(),
        forall|q: int|
            0 <= q < position_tuples(n, a).len() ==> #[trigger] position_tuples(n, b)[q]
                == position_tuples(n, a)[q],
    decreases b,
{
    if a < b {
        lemma_position_tuples_grow(n, a, (b - 1) as nat);
    }
}

/// A list has unique sums exactly when any two different selections of its
/// members, each given by the positions that it takes, have different
/// sums.
pub proof fn lemma_unique_sums(list: Seq<IntType>)
    requires
        list.len() <= usize::MAX,
    ensures
        has_unique_sums(list) == selections_differ(list),
{
    let n = list.len() as usize;
    let all = sub_tuples(list, (n + 1) as nat);
    let places = position_tuples(n, (n + 1) as nat);
    lemma_sub_tuples_by_position(list, (n + 1) as nat);
    if has_unique_sums(list) {
        assert forall|s: Seq<usize>, t: Seq<usize>|
            is_selection(list.len(), s) && is_selection(list.len(), t) && s != t implies sum_spec(
            #[trigger] picked(list, s),
        ) != sum_spec(#[trigger] picked(list, t)) by {
            let i = lemma_position_tuples_complete(n, s);
            let j = lemma_position_tuples_complete(n, t);
            assert(all[i] == picked(list, s) && all[j] == picked(list, t));
            if i < j {
                assert(sum_spec(all[i]) != sum_spec(all[j]));
            } else {
                assert(sum_spec(all[j]) != sum_spec(all[i]));
            }
        }
    }
    if forall|s: Seq<usize>, t: Seq<usize>|
        is_selection(list.len(), s) && is_selection(list.len(), t) && s != t ==> sum_spec(
            #[trigger] picked(list, s),
        ) != sum_spec(#[trigger] picked(list, t)) {
        assert forall|i: int, j: int| 0 <= i < j < all.len() implies sum_spec(#[trigger] all[i])
            != sum_spec(#[trigger] all[j]) by {
            lemma_position_tuples(n, (n + 1) as nat, i);
            lemma_position_tuples(n, (n + 1) as nat, j);
            assert(all[i] == picked(list, places[i]) && all[j] == picked(list, places[j]));
        }
    }
}

proof fn lemma_positive_sum(s: Seq<IntType>)
    requires
        forall|i: int| 0 <= i < s.len() ==> #[trigger] s[i] > 0,
    ensures
        s.len() > 0 ==> sum_spec(s) > 0,
        s.len() == 0 ==> sum_spec(s) == 0,
    decreases s.len(),
{
    if s.len() > 0 {
        lemma_positive_sum(s.drop_last());
    }
}

/// A list of positive numbers has unique sums exactly when any two
/// different selections of its members that are not empty have different
/// sums.
pub proof fn lemma_unique_sums_of_positive(list: Seq<IntType>)
    requires
        list.len() <= usize::MAX,
        forall|k: int| 0 <= k < list.len() ==> #[trigger] list[k] > 0,
    ensures
        has_unique_sums(list) == forall|s: Seq<usize>, t: Seq<usize>|
            is_selection(list.len(), s) && is_selection(list.len(), t) && s.len() > 0 && t.len()
                > 0 && s != t ==> sum_spec(#[trigger] picked(list, s)) != sum_spec(
                #[trigger] picked(list, t),
            ),
{
    lemma_unique_sums(list);
    if forall|s: Seq<usize>, t: Seq<usize>|
        is_selection(list.len(), s) && is_selection(list.len(), t) && s.len() > 0 && t.len() > 0
            && s != t ==> sum_spec(#[trigger] picked(list, s)) != sum_spec(
            #[trigger] picked(list, t),
        ) {
        assert forall|s: Seq<usize>, t: Seq<usize>|
            is_selection(list.len(), s) && is_selection(list.len(), t) && s != t implies sum_spec(
            #[trigger] picked(list, s),
        ) != sum_spec(#[trigger] picked(list, t)) by {
            lemma_positive_sum(picked(list, s));
            lemma_positive_sum(picked(list, t));
            if s.len() == 0 && t.len() == 0 {
                assert(s =~= t);
            }
        }
    }
}

/// Every lattice point of a grid of the given shape, in row-major order.
pub fn make_coords(shape: &Shape) -> (coords: Vec<Coord>)
    ensures
        rows(coords@) == coords_spec(shape@),
{
    let mut axes: Vec<Vec<usize>> = Vec::new();
    let mut i: usize = 0;
    while i < shape.len()
        invariant
            i <= shape.len(),
            axes@.len() == i,
            forall|a: int| 0 <= a < i ==> (#[trigger] axes@[a])@ == axis_spec(shape@[a]),
        decreases shape.len() - i,
    {
        let size = shape[i];
        let mut axis: Vec<usize> = Vec::new();
        let mut j: usize = 0;
        while j < size
            invariant
                j <= size,
                axis@.len() == j,
                forall|b: int| 0 <= b < j ==> #[trigger] axis@[b] == b,
            decreases size - j,
        {
            axis.push(j);
            j += 1;
        }
        assert(axis@ =~= axis_spec(size));
        axes.push(axis);
        i += 1;
    }
    assert(rows(axes@) =~= axes_spec(shape@));
    product(axes.as_slice())
}

fn sum_of(tuple: &Vec<IntType>) -> (s: i128)
    ensures
        s == sum_spec(tuple@),
{
    let mut s: i128 = 0;
    let mut i: usize = 0;
    while i < tuple.len()
        invariant
            i <= tuple.len(),
            s == sum_spec(tuple@.take(i as int)),
            -0x8000_0000 * i <= s <= 0x8000_0000 * i,
        decreases tuple.len() - i,
    {
        assert(tuple@.take(i + 1).drop_last() =~= tuple@.take(i as int));
        s = s + tuple[i] as i128;
        i += 1;
    }
    assert(tuple@.take(tuple@.len() as int) =~= tuple@);
    s
}

proof fn lemma_sub_tuples_prefix(list: Seq<IntType>, a: nat, b: nat)
    requires
        a <= b,
    ensures
        sub_tuples(list, a).len() <= sub_tuples(list, b).len(),
        sub_tuples(list, b).take(sub_tuples(list, a).len() as int) == sub_tuples(list, a),
    decreases b,
{
    if a < b {
        lemma_sub_tuples_prefix(list, a, (b - 1) as nat);
        assert(sub_tuples(list, b).take(sub_tuples(list, a).len() as int) =~= sub_tuples(
            list,
            (b - 1) as nat,
        ).take(sub_tuples(list, a).len() as int));
    } else {
        assert(sub_tuples(list, b).take(sub_tuples(list, a).len() as int) =~= sub_tuples(list, a));
    }
}

/// Whether no two selections of members of the list have the same sum; the
/// empty selection counts, so that no selection of a list with unique sums
/// adds up to 0.
pub fn list_has_unique_sums(list: &[IntType]) -> (unique: bool)
    ensures
        unique == has_unique_sums(list@),
        unique == selections_differ(list@),
{
    broadcast use vstd::std_specs::hash::group_hash_axioms;

    let n = list.len();
    proof {
        lemma_unique_sums(list@);
    }
    let ghost all = sub_tuples(list@, (n + 1) as nat);
    let mut seen: HashSet<i128> = HashSet::new();
    let ghost mut done: Seq<Seq<IntType>> = Seq::empty();
    let mut k: usize = 0;
    loop
        invariant_except_break
            done == sub_tuples(list@, k as nat),
        invariant
            n == list@.len(),
            k <= n,
            all == sub_tuples(list@, (n + 1) as nat),
            has_unique_sums(list@) == selections_differ(list@),
            forall|i: int, j: int|
                0 <= i < j < done.len() ==> sum_spec(#[trigger] done[i]) != sum_spec(
                    #[trigger] done[j],
                ),
            forall|s: i128|
                seen@.contains(s) <==> exists|i: int|
                    0 <= i < done.len() && sum_spec(#[trigger] done[i]) == s,
        ensures
            done == all,
            has_unique_sums(list@) == selections_differ(list@),
        decreases n - k,
    {
        let combs = combinations(list, k);
        let ghost base = done;
        let mut c: usize = 0;
        while c < combs.len()
            invariant
                c <= combs.len(),
                n == list@.len(),
                k <= n,
                all == sub_tuples(list@, (n + 1) as nat),
                has_unique_sums(list@) == selections_differ(list@),
                base == sub_tuples(list@, k as nat),
                rows(combs@) == combinations_spec(list@, k as nat),
                done == base + rows(combs@).take(c as int),
                forall|i: int, j: int|
                    0 <= i < j < done.len() ==> sum_spec(#[trigger] done[i]) != sum_spec(
                        #[trigger] done[j],
                    ),
                forall|s: i128|
                    seen@.contains(s) <==> exists|i: int|
                        0 <= i < done.len() && sum_spec(#[trigger] done[i]) == s,
            decreases combs.len() - c,
        {
            let s = sum_of(&combs[c]);
            let ghost next = done.push(combs@[c as int]@);
            proof {
                assert(next =~= base + rows(combs@).take(c + 1));
                lemma_sub_tuples_prefix(list@, (k + 1) as nat, (n + 1) as nat);
                let longer = sub_tuples(list@, (k + 1) as nat);
                assert(longer == base + rows(combs@));
                assert(next =~= longer.take(next.len() as int));
                assert(forall|i: int| 0 <= i < next.len() ==> next[i] == all[i]);
            }
            if seen.contains(&s) {
                proof {
                    let i = choose|i: int| 0 <= i < done.len() && sum_spec(#[trigger] done[i]) == s;
                    let j = done.len() as int;
                    assert(all[i] == next[i] && all[j] == next[j]);
                    assert(sum_spec(all[i]) == sum_spec(all[j]));
                }
                return false;
            }
            seen.insert(s);
            proof {
                assert forall|t: i128| seen@.contains(t) <==> exists|i: int|
                    0 <= i < next.len() && sum_spec(#[trigger] next[i]) == t by {
                    if seen@.contains(t) {
                        if t == s {
                            assert(sum_spec(next[done.len() as int]) == t);
                        } else {
                            let i = choose|i: int|
                                0 <= i < done.len() && sum_spec(#[trigger] done[i]) == t;
                            assert(sum_spec(next[i]) == t);
                        }
                    }
                    if exists|i: int| 0 <= i < next.len() && sum_spec(#[trigger] next[i]) == t {
                        let i = choose|i: int|
                            0 <= i < next.len() && sum_spec(#[trigger] next[i]) == t;
                        if i < done.len() {
                            assert(sum_spec(done[i]) == t);
                        }
                    }
                }
                assert forall|i: int, j: int| 0 <= i < j < next.len() implies sum_spec(
                    #[trigger] next[i],
                ) != sum_spec(#[trigger] next[j]) by {
                    if j == done.len() {
                        assert(next[i] == done[i]);
                    } else {
                        assert(next[i] == done[i] && next[j] == done[j]);
                    }
                }
                done = next;
            }
            c += 1;
        }
        proof {
            assert(rows(combs@).take(combs@.len() as int) =~= rows(combs@));
        }
        if k == n {
            break ;
        }
        k += 1;
    }
    true
}

/// What a filter keeps comes from the list and passes the filter.
pub proof fn lemma_filter_members<T>(list: Seq<T>, keep: spec_fn(T) -> bool, i: int)
    requires
        0 <= i < list.filter(keep).len(),
    ensures
        list.contains(list.filter(keep)[i]),
        keep(list.filter(keep)[i]),
    decreases list.len(),
{
    reveal(Seq::filter);
    if list.len() > 0 {
        let before = list.drop_last().filter(keep);
        if i < before.len() {
            lemma_filter_members(list.drop_last(), keep, i);
            let at = choose|at: int|
                0 <= at < list.drop_last().len() && list.drop_last()[at] == before[i];
            assert(list[at] == before[i]);
        } else {
            assert(list[list.len() - 1] == list.last());
        }
    }
}

/// The number of members of `list` for which `keep` does not hold.
pub open spec fn dropped<T>(list: Seq<T>, keep: spec_fn(T) -> bool) -> nat
    decreases list.len(),
{
    if list.len() == 0 {
        0
    } else {
        dropped(list.drop_last(), keep) + if keep(list.last()) {
            0nat
        } else {
            1nat
        }
    }
}

/// A filter keeps what it does not drop.
pub proof fn lemma_filter_len<T>(list: Seq<T>, keep: spec_fn(T) -> bool)
    ensures
        list.filter(keep).len() + dropped(list, keep) == list.len(),
    decreases list.len(),
{
    reveal(Seq::filter);
    if list.len() > 0 {
        lemma_filter_len(list.drop_last(), keep);
    }
}

proof fn lemma_dropped_one(list: Seq<usize>, v: usize)
    requires
        list.no_duplicates(),
    ensures
        dropped(list, |x: usize| x != v) <= 1,
        !list.contains(v) ==> dropped(list, |x: usize| x != v) == 0,
    decreases list.len(),
{
    if list.len() > 0 {
        let init = list.drop_last();
        assert(init.no_duplicates()) by {
            assert forall|i: int, j: int| 0 <= i < init.len() && 0 <= j < init.len() && i
                != j implies init[i] != init[j] by {
                assert(init[i] == list[i] && init[j] == list[j]);
            }
        }
        lemma_dropped_one(init, v);
        if list.last() == v {
            assert(!init.contains(v)) by {
                if init.contains(v) {
                    let i = choose|i: int| 0 <= i < init.len() && init[i] == v;
                    assert(list[i] == list[list.len() - 1]);
                }
            }
        } else {
            if !list.contains(v) {
                assert(!init.contains(v)) by {
                    if init.contains(v) {
                        let i = choose|i: int| 0 <= i < init.len() && init[i] == v;
                        assert(list[i] == v);
                    }
                }
            }
        }
    }
}

proof fn lemma_dropped_more(list: Seq<usize>, exclude: Seq<usize>, v: usize)
    ensures
        dropped(list, |x: usize| !is_excluded(exclude.push(v), x)) <= dropped(
            list,
            |x: usize| !is_excluded(exclude, x),
        ) + dropped(list, |x: usize| x != v),
    decreases list.len(),
{
    if list.len() > 0 {
        lemma_dropped_more(list.drop_last(), exclude, v);
        let x = list.last();
        if is_excluded(exclude.push(v), x) {
            let i = choose|i: int|
                0 <= i < exclude.push(v).len() && #[trigger] exclude.push(v)[i].eq_spec(&x);
            if i < exclude.len() {
                assert(exclude[i].eq_spec(&x));
            }
        }
    }
}

/// Excluding some numbers from a list of different numbers drops no more
/// members than there are numbers to exclude.
pub proof fn lemma_except_len(list: Seq<usize>, exclude: Seq<usize>)
    requires
        list.no_duplicates(),
    ensures
        list.filter(|v: usize| !is_excluded(exclude, v)).len() + exclude.len() >= list.len(),
    decreases exclude.len(),
{
    let keep = |v: usize| !is_excluded(exclude, v);
    lemma_filter_len(list, keep);
    if exclude.len() == 0 {
        lemma_nothing_dropped(list, exclude);
    } else {
        let init = exclude.drop_last();
        let v = exclude.last();
        lemma_except_len(list, init);
        lemma_filter_len(list, |x: usize| !is_excluded(init, x));
        lemma_dropped_more(list, init, v);
        lemma_dropped_one(list, v);
        assert(init.push(v) =~= exclude);
    }
}

proof fn lemma_nothing_dropped(list: Seq<usize>, exclude: Seq<usize>)
    requires
        exclude.len() == 0,
    ensures
        dropped(list, |v: usize| !is_excluded(exclude, v)) == 0,
    decreases list.len(),
{
    if list.len() > 0 {
        lemma_nothing_dropped(list.drop_last(), exclude);
    }
}

/// The members of `list` that equal no member of `exclude`, in their order.
pub fn list_except<T: PartialEq + Clone>(list: &[T], exclude: &[T]) -> (kept: Vec<T>)
    requires
        T::obeys_eq_spec(),
        clone_is_exact::<T>(),
    ensures
        kept@ == list@.filter(|v: T| !is_excluded(exclude@, v)),
{
    let ghost keep = |v: T| !is_excluded(exclude@, v);
    let mut kept: Vec<T> = Vec::new();
    let mut i: usize = 0;
    assert(list@.take(0).filter(keep) =~= Seq::<T>::empty());
    while i < list.len()
        invariant
            i <= list.len(),
            T::obeys_eq_spec(),
            clone_is_exact::<T>(),
            keep == (|v: T| !is_excluded(exclude@, v)),
            kept@ == list@.take(i as int).filter(keep),
        decreases list.len() - i,
    {
        let v = duplicate(&list[i]);
        let mut found = false;
        let mut j: usize = 0;
        while j < exclude.len()
            invariant
                j <= exclude.len(),
                T::obeys_eq_spec(),
                found == exists|e: int| 0 <= e < j && #[trigger] exclude@[e].eq_spec(&v),
            decreases exclude.len() - j,
        {
            if exclude[j] == v {
                found = true;
            }
            j += 1;
        }
        proof {
            assert(list@.take(i + 1).drop_last() =~= list@.take(i as int));
            assert(list@.take(i + 1).last() == v);
            reveal(Seq::filter);
            assert(found == is_excluded(exclude@, v));
        }
        if !found {
            kept.push(v);
        }
        i += 1;
    }
    assert(list@.take(list@.len() as int) =~= list@);
    kept
}

/// The components of `coord` at the positions that `picked` lists, in the
/// order of the list.
pub open spec fn projection_spec(coord: Seq<usize>, picked: Seq<usize>) -> Seq<usize> {
    Seq::new(picked.len(), |i: int| coord[picked[i] as int])
}

/// The components of `coord` at the positions that `picked` lists, in the
/// order of the list.
pub fn projection(coord: &Coord, picked: &Vec<usize>) -> (projected: Vec<usize>)
    requires
        forall|i: int| 0 <= i < picked@.len() ==> #[trigger] picked@[i] < coord@.len(),
    ensures
        projected@ == projection_spec(coord@, picked@),
{
    let mut projected: Vec<usize> = Vec::new();
    let mut i: usize = 0;
    while i < picked.len()
        invariant
            i <= picked@.len(),
            forall|i: int| 0 <= i < picked@.len() ==> #[trigger] picked@[i] < coord@.len(),
            projected@ == projection_spec(coord@, picked@).take(i as int),
        decreases picked.len() - i,
    {
        projected.push(coord[picked[i]]);
        assert(projected@ =~= projection_spec(coord@, picked@).take(i + 1));
        i += 1;
    }
    assert(projection_spec(coord@, picked@).take(picked@.len() as int) =~= projection_spec(
        coord@,
        picked@,
    ));
    projected
}

/// `coord` after the first `upto` steps of a rearrangement among the listed
/// locations: step `i` puts, at location `i` of the list, what `coord` holds
/// at the location that `permutation[i]` names.
pub open spec fn permuted_upto(
    coord: Seq<usize>,
    permutation: Seq<usize>,
    locations: Seq<usize>,
    upto: int,
) -> Seq<usize>
    decreases upto,
{
    if upto <= 0 {
        coord
    } else {
        permuted_upto(coord, permutation, locations, upto - 1).update(
            locations[upto - 1] as int,
            coord[locations[permutation[upto - 1] as int] as int],
        )
    }
}

/// Whether a rearrangement among the listed locations can be made of a
/// sequence of the given length: it names a location of the list for each
/// of them, and each location is a position of the sequence.
pub open spec fn rearranges(permutation: Seq<usize>, locations: Seq<usize>, len: nat) -> bool {
    &&& permutation.len() == locations.len()
    &&& forall|i: int| 0 <= i < permutation.len() ==> #[trigger] permutation[i] < locations.len()
    &&& forall|i: int| 0 <= i < locations.len() ==> #[trigger] locations[i] < len
}

/// A rearrangement keeps the length, and where no location is listed twice,
/// it holds at each listed location what the sequence held at the location
/// that the permutation names, and elsewhere what the sequence held there.
pub proof fn lemma_permuted(
    coord: Seq<usize>,
    permutation: Seq<usize>,
    locations: Seq<usize>,
    upto: int,
)
    requires
        rearranges(permutation, locations, coord.len()),
        0 <= upto <= locations.len(),
    ensures
        permuted_upto(coord, permutation, locations, upto).len() == coord.len(),
        locations.no_duplicates() ==> forall|i: int|
            0 <= i < upto ==> permuted_upto(coord, permutation, locations, upto)[#[trigger] locations[i] as int]
                == coord[locations[permutation[i] as int] as int],
        forall|x: int|
            0 <= x < coord.len() && (forall|i: int| 0 <= i < upto ==> #[trigger] locations[i] != x)
                ==> #[trigger] permuted_upto(coord, permutation, locations, upto)[x] == coord[x],
    decreases upto,
{
    if upto > 0 {
        lemma_permuted(coord, permutation, locations, upto - 1);
        let before = permuted_upto(coord, permutation, locations, upto - 1);
        let after = permuted_upto(coord, permutation, locations, upto);
        assert(permutation[upto - 1] < locations.len());
        assert(locations[upto - 1] < coord.len());
        if locations.no_duplicates() {
            assert forall|i: int| 0 <= i < upto implies after[#[trigger] locations[i] as int]
                == coord[locations[permutation[i] as int] as int] by {
                if i < upto - 1 {
                    assert(locations[i] != locations[upto - 1]);
                }
            }
        }
    }
}

/// `coord`, rearranged among the listed locations: location `i` of the list
/// gets what `coord` holds at the location that `permutation[i]` names; a
/// location that is listed twice keeps what it got last.
pub fn permute_at(coord: &Coord, permutation: &Vec<usize>, locations: &Vec<usize>) -> (result: Coord)
    requires
        rearranges(permutation@, locations@, coord@.len()),
    ensures
        result@ == permuted_upto(coord@, permutation@, locations@, locations@.len() as int),
{
    let mut result: Vec<usize> = Vec::new();
    let mut k: usize = 0;
    while k < coord.len()
        invariant
            k <= coord@.len(),
            result@ == coord@.take(k as int),
        decreases coord.len() - k,
    {
        result.push(coord[k]);
        assert(result@ =~= coord@.take(k + 1));
        k += 1;
    }
    assert(coord@.take(coord@.len() as int) =~= coord@);
    let mut i: usize = 0;
    while i < permutation.len()
        invariant
            i <= permutation@.len(),
            rearranges(permutation@, locations@, coord@.len()),
            result@ == permuted_upto(coord@, permutation@, locations@, i as int),
        decreases permutation.len() - i,
    {
        proof {
            lemma_permuted(coord@, permutation@, locations@, i as int);
        }
        let p = permutation[i];
        let value = coord[locations[p]];
        result[locations[i]] = value;
        i += 1;
    }
    result
}

} // verus!
