//! Tests on dimension tuples and on pairs of coordinates that the studies
//! around the search use.

use vstd::prelude::*;

verus! {

/// How one number stands to another.
#[derive(Clone, Copy, Debug, PartialEq, Eq, Structural)]
pub enum Relation {
    Less,
    Equal,
    Greater,
}

/// The sum of the members of `s`.
pub open spec fn total(s: Seq<usize>) -> int
    decreases s.len(),
{
    if s.len() == 0 {
        0
    } else {
        total(s.drop_last()) + s.last()
    }
}

/// How `a` stands to `b`.
pub open spec fn relation_spec(a: int, b: int) -> Relation {
    if a < b {
        Relation::Less
    } else if a == b {
        Relation::Equal
    } else {
        Relation::Greater
    }
}

/// The largest distance between two coordinates along one of the first
/// `upto` axes.
pub open spec fn largest_gap(a: Seq<usize>, b: Seq<usize>, upto: nat) -> int
    decreases upto,
{
    if upto == 0 {
        0
    } else {
        let before = largest_gap(a, b, (upto - 1) as nat);
        let here = if a[upto - 1] <= b[upto - 1] {
            b[upto - 1] - a[upto - 1]
        } else {
            a[upto - 1] - b[upto - 1]
        };
        if here > before {
            here
        } else {
            before
        }
    }
}

/// The number of the first `upto` axes along which two coordinates differ.
pub open spec fn differing_axes(a: Seq<usize>, b: Seq<usize>, upto: nat) -> nat
    decreases upto,
{
    if upto == 0 {
        0
    } else {
        differing_axes(a, b, (upto - 1) as nat) + if a[upto - 1] != b[upto - 1] {
            1nat
        } else {
            0nat
        }
    }
}

/// The first axis along which two coordinates differ, from axis `from` on.
pub open spec fn first_difference(a: Seq<usize>, b: Seq<usize>, from: int) -> Option<int>
    decreases a.len() - from,
{
    if from < 0 || from >= a.len() {
        None
    } else if a[from] != b[from] {
        Some(from)
    } else {
        first_difference(a, b, from + 1)
    }
}

/// How `a` stands to `b` in lexicographic order.
pub open spec fn compare_coords_spec(a: Seq<usize>, b: Seq<usize>) -> Relation {
    match first_difference(a, b, 0) {
        Some(axis) => relation_spec(a[axis] as int, b[axis] as int),
        None => Relation::Equal,
    }
}

/// The character that stands for a relation.
pub fn ordering_str(v: Relation) -> (c: char)
    ensures
        c == match v {
            Relation::Less => '<',
            Relation::Equal => '=',
            Relation::Greater => '>',
        },
{
    match v {
        Relation::Less => '<',
        Relation::Equal => '=',
        Relation::Greater => '>',
    }
}

/// Whether the edge lengths are so close together that their sum is less
/// than the smallest of them taken once more than there are.
pub fn satisfies_hoffmans_inequality(dimension_tuple: &[usize]) -> (satisfied: bool)
    requires
        dimension_tuple@.len() > 0,
    ensures
        satisfied == (total(dimension_tuple@) < (dimension_tuple@.len() + 1) * dimension_tuple@[0]),
{
    let mut sum: u128 = 0;
    let mut i: usize = 0;
    while i < dimension_tuple.len()
        invariant
            i <= dimension_tuple@.len(),
            sum == total(dimension_tuple@.take(i as int)),
            sum <= i * usize::MAX,
        decreases dimension_tuple@.len() - i,
    {
        assert(dimension_tuple@.take(i + 1).drop_last() =~= dimension_tuple@.take(i as int));
        assert(i * usize::MAX + usize::MAX == (i + 1) * usize::MAX) by (nonlinear_arith);
        assert((i + 1) * usize::MAX <= usize::MAX * usize::MAX) by (nonlinear_arith)
            requires
                i + 1 <= usize::MAX,
        ;
        sum = sum + dimension_tuple[i] as u128;
        i += 1;
    }
    assert(dimension_tuple@.take(dimension_tuple@.len() as int) =~= dimension_tuple@);
    let count = dimension_tuple.len() as u128 + 1;
    let first = dimension_tuple[0] as u128;
    assert(count * first <= 0x1_0000_0000_0000_0000 * 0xffff_ffff_ffff_ffff) by (nonlinear_arith)
        requires
            count <= 0x1_0000_0000_0000_0000,
            first <= 0xffff_ffff_ffff_ffff,
    ;
    sum < count * first
}

/// How the sum of the two edge lengths named on the left of an inequality
/// stands to the sum of the two named on the right; the edge lengths are
/// named by their place in the tuple, counted from 1.
pub fn check_overlap_inequalities(
    dimension_tuple: &[usize],
    inequality: &([usize; 2], [usize; 2]),
) -> (relation: Relation)
    requires
        forall|k: int|
            0 <= k < 2 ==> 1 <= #[trigger] inequality.0@[k] <= dimension_tuple@.len() && 1
                <= inequality.1@[k] <= dimension_tuple@.len(),
    ensures
        relation == relation_spec(
            dimension_tuple@[inequality.0@[0] - 1] + dimension_tuple@[inequality.0@[1] - 1],
            dimension_tuple@[inequality.1@[0] - 1] + dimension_tuple@[inequality.1@[1] - 1],
        ),
{
    assert(1 <= inequality.0@[0] <= dimension_tuple@.len());
    assert(1 <= inequality.0@[1] <= dimension_tuple@.len());
    let lhs: u128 = dimension_tuple[inequality.0[0] - 1] as u128 + dimension_tuple[inequality.0[1]
        - 1] as u128;
    let rhs: u128 = dimension_tuple[inequality.1[0] - 1] as u128 + dimension_tuple[inequality.1[1]
        - 1] as u128;
    if lhs < rhs {
        Relation::Less
    } else if lhs == rhs {
        Relation::Equal
    } else {
        Relation::Greater
    }
}

/// How `a` stands to `b` in lexicographic order.
pub fn compare_coords(a: &Vec<usize>, b: &Vec<usize>) -> (relation: Relation)
    requires
        a@.len() == b@.len(),
    ensures
        relation == compare_coords_spec(a@, b@),
{
    let mut i: usize = 0;
    while i < a.len()
        invariant
            i <= a@.len(),
            a@.len() == b@.len(),
            first_difference(a@, b@, 0) == first_difference(a@, b@, i as int),
        decreases a@.len() - i,
    {
        if a[i] != b[i] {
            return if a[i] < b[i] {
                Relation::Less
            } else {
                Relation::Greater
            };
        }
        i += 1;
    }
    Relation::Equal
}

/// The number of axes that two coordinates share: the length of the shorter
/// one.
pub open spec fn shared_axes(a: Seq<usize>, b: Seq<usize>) -> nat {
    if a.len() <= b.len() {
        a.len()
    } else {
        b.len()
    }
}

/// The largest distance between two coordinates along an axis that they
/// share.
pub fn distance_coords(a: &Vec<usize>, b: &Vec<usize>) -> (distance: usize)
    requires
        shared_axes(a@, b@) > 0,
    ensures
        distance == largest_gap(a@, b@, shared_axes(a@, b@)),
{
    let shared = if a.len() <= b.len() {
        a.len()
    } else {
        b.len()
    };
    let mut distance: usize = 0;
    let mut i: usize = 0;
    while i < shared
        invariant
            i <= shared,
            shared == shared_axes(a@, b@),
            distance == largest_gap(a@, b@, i as nat),
        decreases shared - i,
    {
        let here = if a[i] <= b[i] {
            b[i] - a[i]
        } else {
            a[i] - b[i]
        };
        if here > distance {
            distance = here;
        }
        i += 1;
    }
    distance
}

/// Whether two coordinates differ along one at most of the axes that they
/// share.
pub fn are_too_close(a: &Vec<usize>, b: &Vec<usize>) -> (close: bool)
    ensures
        close == (differing_axes(a@, b@, shared_axes(a@, b@)) <= 1),
{
    let shared = if a.len() <= b.len() {
        a.len()
    } else {
        b.len()
    };
    let mut count: usize = 0;
    let mut i: usize = 0;
    while i < shared
        invariant
            i <= shared,
            shared == shared_axes(a@, b@),
            count == differing_axes(a@, b@, i as nat),
            count <= i,
        decreases shared - i,
    {
        if a[i] != b[i] {
            count += 1;
        }
        i += 1;
    }
    count <= 1
}

} // verus!
