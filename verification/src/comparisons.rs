//! What the order of the edge lengths alone tells about sums of edge
//! lengths: a table that compares every selection of edge lengths with every
//! other, entry by entry.

use vstd::prelude::*;

use crate::combinatorics::{combinations, combinations_spec, rows};
use crate::grid::axis_spec;

verus! {

/// How one selection compares with another of the same size.
#[derive(Clone, Copy, Debug, PartialEq, Eq, Structural)]
pub enum Order {
    /// No member is larger than its counterpart, and one is smaller.
    Less,
    /// Each member equals its counterpart.
    Equal,
    /// No member is smaller than its counterpart, and one is larger.
    Greater,
    /// The two selections are not of the same size.
    NA,
}

/// The selections of fewer than `upto` of the `n` edge lengths, by size and
/// then in the order of `combinations_spec`; an edge length is written as
/// its rank.
pub open spec fn selections(n: usize, upto: nat) -> Seq<Seq<usize>>
    decreases upto,
{
    if upto == 0 {
        Seq::empty()
    } else {
        selections(n, (upto - 1) as nat) + combinations_spec(axis_spec(n), (upto - 1) as nat)
    }
}

/// Whether no member of `a` is larger than its counterpart in `b`.
pub open spec fn none_larger(a: Seq<usize>, b: Seq<usize>) -> bool {
    forall|i: int| 0 <= i < a.len() && i < b.len() ==> a[i] <= b[i]
}

/// How `a` compares with `b`: nothing where some member of `a` is smaller
/// and some other is larger than its counterpart.
pub open spec fn compare_spec(a: Seq<usize>, b: Seq<usize>) -> Option<Order> {
    if a.len() != b.len() {
        Some(Order::NA)
    } else if none_larger(a, b) && none_larger(b, a) {
        Some(Order::Equal)
    } else if none_larger(a, b) {
        Some(Order::Less)
    } else if none_larger(b, a) {
        Some(Order::Greater)
    } else {
        None
    }
}

/// The number of entries among the first `upto` of a row that are unknown.
pub open spec fn unknown_in_row(row: Seq<Option<Order>>, upto: nat) -> nat
    decreases upto,
{
    if upto == 0 {
        0
    } else {
        unknown_in_row(row, (upto - 1) as nat) + if row[upto - 1].is_none() {
            1nat
        } else {
            0nat
        }
    }
}

/// The number of unknown entries in the first `upto` rows of a table.
pub open spec fn unknown_in_table(table: Seq<Vec<Option<Order>>>, upto: nat) -> nat
    decreases upto,
{
    if upto == 0 {
        0
    } else {
        unknown_in_table(table, (upto - 1) as nat) + unknown_in_row(
            table[upto - 1]@,
            table[upto - 1]@.len(),
        )
    }
}

fn no_member_larger(a: &Vec<usize>, b: &Vec<usize>) -> (none: bool)
    ensures
        none == none_larger(a@, b@),
{
    let mut i: usize = 0;
    while i < a.len() && i < b.len()
        invariant
            forall|j: int| 0 <= j < i ==> a@[j] <= b@[j],
            i <= a@.len(),
            i <= b@.len(),
        decreases a@.len() - i,
    {
        if a[i] > b[i] {
            return false;
        }
        i += 1;
    }
    true
}

/// How one selection compares with another, member by member.
pub fn compare(a: &Vec<usize>, b: &Vec<usize>) -> (order: Option<Order>)
    ensures
        order == compare_spec(a@, b@),
{
    if a.len() != b.len() {
        return Some(Order::NA);
    }
    let lt = no_member_larger(a, b);
    let gt = no_member_larger(b, a);
    if lt && gt {
        Some(Order::Equal)
    } else if lt {
        Some(Order::Less)
    } else if gt {
        Some(Order::Greater)
    } else {
        None
    }
}

/// The selections of the `n` edge lengths, the empty one first.
pub fn all_selections(n: usize) -> (tuples: Vec<Vec<usize>>)
    ensures
        rows(tuples@) == selections(n, (n + 1) as nat),
{
    let mut symbols: Vec<usize> = Vec::new();
    let mut a: usize = 0;
    while a < n
        invariant
            a <= n,
            symbols@ == axis_spec(n).take(a as int),
        decreases n - a,
    {
        symbols.push(a);
        assert(symbols@ =~= axis_spec(n).take(a + 1));
        a += 1;
    }
    assert(axis_spec(n).take(n as int) =~= axis_spec(n));
    let mut tuples: Vec<Vec<usize>> = Vec::new();
    let mut k: usize = 0;
    assert(rows(tuples@) =~= selections(n, 0));
    loop
        invariant_except_break
            rows(tuples@) == selections(n, k as nat),
        invariant
            k <= n,
            symbols@ == axis_spec(n),
        ensures
            rows(tuples@) == selections(n, (n + 1) as nat),
        decreases n - k,
    {
        let mut chosen = combinations(symbols.as_slice(), k);
        let ghost before = rows(tuples@);
        let ghost block = rows(chosen@);
        tuples.append(&mut chosen);
        assert(rows(tuples@) =~= before + block);
        if k == n {
            break ;
        }
        k += 1;
    }
    tuples
}

/// The table that compares every selection of `n` edge lengths with every
/// other.
pub fn comparison_table(n: usize) -> (table: Vec<Vec<Option<Order>>>)
    ensures
        table@.len() == selections(n, (n + 1) as nat).len(),
        forall|a: int| 0 <= a < table@.len() ==> (#[trigger] table@[a])@.len() == table@.len(),
        forall|a: int, b: int|
            0 <= a < table@.len() && 0 <= b < table@.len() ==> #[trigger] table@[a]@[b]
                == compare_spec(
                selections(n, (n + 1) as nat)[a],
                selections(n, (n + 1) as nat)[b],
            ),
{
    let tuples = all_selections(n);
    let ghost all = selections(n, (n + 1) as nat);
    let mut table: Vec<Vec<Option<Order>>> = Vec::new();
    let mut a: usize = 0;
    while a < tuples.len()
        invariant
            a <= tuples@.len(),
            all == rows(tuples@),
            all == selections(n, (n + 1) as nat),
            table@.len() == a,
            forall|x: int| 0 <= x < a ==> (#[trigger] table@[x])@.len() == tuples@.len(),
            forall|x: int, y: int|
                0 <= x < a && 0 <= y < tuples@.len() ==> #[trigger] table@[x]@[y] == compare_spec(
                    all[x],
                    all[y],
                ),
        decreases tuples@.len() - a,
    {
        let mut row: Vec<Option<Order>> = Vec::new();
        let mut b: usize = 0;
        while b < tuples.len()
            invariant
                b <= tuples@.len(),
                a < tuples@.len(),
                all == rows(tuples@),
                row@.len() == b,
                forall|y: int| 0 <= y < b ==> #[trigger] row@[y] == compare_spec(all[a as int], all[y]),
            decreases tuples@.len() - b,
        {
            assert(all[a as int] == tuples@[a as int]@ && all[b as int] == tuples@[b as int]@);
            row.push(compare(&tuples[a], &tuples[b]));
            b += 1;
        }
        let ghost before = table@;
        table.push(row);
        proof {
            assert forall|x: int| 0 <= x < a + 1 implies (#[trigger] table@[x])@.len()
                == tuples@.len() by {
                if x < a {
                    assert(table@[x] == before[x]);
                }
            }
            assert forall|x: int, y: int| 0 <= x < a + 1 && 0 <= y < tuples@.len() implies (
            #[trigger] table@[x]@[y]) == compare_spec(all[x], all[y]) by {
                if x < a {
                    assert(table@[x] == before[x]);
                    assert(before[x]@[y] == compare_spec(all[x], all[y]));
                }
            }
        }
        a += 1;
    }
    assert(table@.len() == all.len());
    table
}

/// The number of entries of a table that are unknown.
pub fn count_unknown_comparisions(table: &Vec<Vec<Option<Order>>>) -> (unknowns: usize)
    requires
        unknown_in_table(table@, table@.len()) <= usize::MAX,
    ensures
        unknowns == unknown_in_table(table@, table@.len()),
{
    let mut unknowns: usize = 0;
    let mut r: usize = 0;
    while r < table.len()
        invariant
            r <= table@.len(),
            unknowns == unknown_in_table(table@, r as nat),
            unknown_in_table(table@, table@.len()) <= usize::MAX,
        decreases table@.len() - r,
    {
        let row = &table[r];
        let mut c: usize = 0;
        proof {
            lemma_unknown_grows(table@, (r + 1) as nat, table@.len());
        }
        while c < row.len()
            invariant
                c <= row@.len(),
                r < table@.len(),
                row@ == table@[r as int]@,
                unknowns == unknown_in_table(table@, r as nat) + unknown_in_row(row@, c as nat),
                unknown_in_table(table@, (r + 1) as nat) <= usize::MAX,
            decreases row@.len() - c,
        {
            proof {
                lemma_unknown_in_row_grows(row@, (c + 1) as nat, row@.len());
            }
            if row[c].is_none() {
                unknowns += 1;
            }
            c += 1;
        }
        r += 1;
    }
    unknowns
}

proof fn lemma_unknown_in_row_grows(row: Seq<Option<Order>>, a: nat, b: nat)
    requires
        a <= b,
    ensures
        unknown_in_row(row, a) <= unknown_in_row(row, b),
    decreases b,
{
    if a < b {
        lemma_unknown_in_row_grows(row, a, (b - 1) as nat);
    }
}

proof fn lemma_unknown_grows(table: Seq<Vec<Option<Order>>>, a: nat, b: nat)
    requires
        a <= b,
    ensures
        unknown_in_table(table, a) <= unknown_in_table(table, b),
    decreases b,
{
    if a < b {
        lemma_unknown_grows(table, a, (b - 1) as nat);
    }
}

} // verus!
