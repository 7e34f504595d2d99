//! Enumerations of tuples drawn from lists: Cartesian products,
//! k-permutations, k-combinations and k-tuples with repetition.
//!
//! Every enumeration is a sequence in a fixed order; the spec functions say
//! which sequence, and the lemmas say what its members are.

use vstd::prelude::*;
use vstd::arithmetic::div_mod::{lemma_fundamental_div_mod, lemma_fundamental_div_mod_converse};
use vstd::arithmetic::power::pow;

verus! {

/// The rows of a vector of vectors, as sequences.
pub open spec fn rows<T>(v: Seq<Vec<T>>) -> Seq<Seq<T>> {
    Seq::new(v.len(), |i: int| v[i]@)
}

/// `n!`.
pub open spec fn factorial_spec(n: nat) -> nat
    decreases n,
{
    if n <= 1 {
        1
    } else {
        n * factorial_spec((n - 1) as nat)
    }
}

/// Every member of `prefixes` followed by every member of `last`; the prefix
/// varies slowest.
pub open spec fn extend_each<T>(prefixes: Seq<Seq<T>>, last: Seq<T>) -> Seq<Seq<T>> {
    Seq::new(
        prefixes.len() * last.len(),
        |k: int| prefixes[k / (last.len() as int)].push(last[k % (last.len() as int)]),
    )
}

/// The Cartesian product of the lists, in lexicographic order of the
/// positions chosen, the first list being the most significant.
pub open spec fn product_spec<T>(lists: Seq<Seq<T>>) -> Seq<Seq<T>>
    decreases lists.len(),
{
    if lists.len() == 0 {
        seq![Seq::empty()]
    } else {
        extend_each(product_spec(lists.drop_last()), lists.last())
    }
}

/// `head` put in front of every member of `tails`.
pub open spec fn prepend_each<T>(head: T, tails: Seq<Seq<T>>) -> Seq<Seq<T>> {
    Seq::new(tails.len(), |i: int| seq![head] + tails[i])
}

/// The k-permutations of `list` whose first element stands at a position
/// below `upto` in `list`.
pub open spec fn permutations_upto<T>(list: Seq<T>, k: nat, upto: nat) -> Seq<Seq<T>>
    decreases k, 0int, upto,
{
    if upto == 0 || k == 0 {
        Seq::empty()
    } else {
        permutations_upto(list, k, (upto - 1) as nat) + prepend_each(
            list[upto - 1],
            permutations_spec(list.remove(upto - 1), (k - 1) as nat),
        )
    }
}

/// The k-permutations of `list`: the arrangements of `k` elements taken at
/// distinct positions, in lexicographic order of the positions. For `k == 0`
/// and for `k` above the length of the list the result is the one empty
/// arrangement.
pub open spec fn permutations_spec<T>(list: Seq<T>, k: nat) -> Seq<Seq<T>>
    decreases k, 1int, 0nat,
{
    if k == 0 || k > list.len() {
        seq![Seq::empty()]
    } else {
        permutations_upto(list, k, list.len())
    }
}

/// The k-combinations of `list`: the selections of `k` elements at
/// increasing positions, in lexicographic order of the positions. For
/// `k == 0` and for `k` above the length of the list the result is the one
/// empty selection.
pub open spec fn combinations_spec<T>(list: Seq<T>, k: nat) -> Seq<Seq<T>>
    decreases list.len(),
{
    if k == 0 || k > list.len() {
        seq![Seq::empty()]
    } else if k == list.len() {
        seq![list]
    } else {
        prepend_each(list[0], combinations_spec(list.skip(1), (k - 1) as nat))
            + combinations_spec(list.skip(1), k)
    }
}

/// The k-tuples over `list`, repetition allowed: the product of `k` copies of
/// the list.
pub open spec fn combinations_with_repetition_spec<T>(list: Seq<T>, k: nat) -> Seq<Seq<T>> {
    product_spec(Seq::new(k, |i: int| list))
}

/// The number of k-permutations of a list of `n` elements, as
/// `permutations_spec` counts them.
pub open spec fn permutation_count(n: nat, k: nat) -> nat
    decreases k,
{
    if k == 0 || k > n {
        1
    } else {
        n * permutation_count((n - 1) as nat, (k - 1) as nat)
    }
}

/// The product of the lengths of the lists.
pub open spec fn product_count<T>(lists: Seq<Seq<T>>) -> nat
    decreases lists.len(),
{
    if lists.len() == 0 {
        1
    } else {
        product_count(lists.drop_last()) * lists.last().len()
    }
}

/// The product of some lists has as many members as the product of their
/// lengths.
pub proof fn lemma_product_len<T>(lists: Seq<Seq<T>>)
    ensures
        product_spec(lists).len() == product_count(lists),
    decreases lists.len(),
{
    if lists.len() > 0 {
        lemma_product_len(lists.drop_last());
    }
}

/// Every member of a product takes one element from each list, in the order
/// of the lists.
pub proof fn lemma_product_members<T>(lists: Seq<Seq<T>>, q: int)
    requires
        0 <= q < product_spec(lists).len(),
    ensures
        product_spec(lists)[q].len() == lists.len(),
        forall|j: int|
            0 <= j < lists.len() ==> lists[j].contains(#[trigger] product_spec(lists)[q][j]),
    decreases lists.len(),
{
    if lists.len() > 0 {
        let prev = product_spec(lists.drop_last());
        let last = lists.last();
        let len = last.len() as int;
        assert(len > 0) by (nonlinear_arith)
            requires
                0 <= q < prev.len() * len,
        ;
        lemma_fundamental_div_mod(q, len);
        assert(0 <= q / len < prev.len()) by (nonlinear_arith)
            requires
                0 <= q < prev.len() * len,
                0 < len,
                q == len * (q / len) + q % len,
                0 <= q % len < len,
        ;
        lemma_product_members(lists.drop_last(), q / len);
        let member = product_spec(lists)[q];
        assert(member == prev[q / len].push(last[q % len]));
        assert forall|j: int| 0 <= j < lists.len() implies lists[j].contains(
            #[trigger] member[j],
        ) by {
            if j < lists.len() - 1 {
                assert(lists.drop_last()[j].contains(prev[q / len][j]));
                assert(member[j] == prev[q / len][j]);
            } else {
                assert(last[q % len] == member[j]);
            }
        }
    }
}

/// Whatever is chosen from each list, in the order of the lists, is a member
/// of the product.
pub proof fn lemma_product_complete<T>(lists: Seq<Seq<T>>, pick: Seq<T>) -> (q: int)
    requires
        pick.len() == lists.len(),
        forall|j: int| 0 <= j < lists.len() ==> lists[j].contains(#[trigger] pick[j]),
    ensures
        0 <= q < product_spec(lists).len(),
        product_spec(lists)[q] == pick,
    decreases lists.len(),
{
    if lists.len() == 0 {
        assert(product_spec(lists)[0] =~= pick);
        0
    } else {
        let last = lists.last();
        let len = last.len() as int;
        let init = pick.drop_last();
        assert forall|j: int| 0 <= j < lists.drop_last().len() implies lists.drop_last()[j].contains(
            #[trigger] init[j],
        ) by {
            assert(lists[j].contains(pick[j]));
        }
        let before = lemma_product_complete(lists.drop_last(), init);
        assert(last.contains(pick[lists.len() - 1]));
        let r = choose|r: int| 0 <= r < last.len() && last[r] == pick[lists.len() - 1];
        let q = before * len + r;
        let prev = product_spec(lists.drop_last());
        lemma_fundamental_div_mod_converse(q, len, before, r);
        assert(0 <= q < prev.len() * len) by (nonlinear_arith)
            requires
                0 <= before < prev.len(),
                0 <= r < len,
                q == before * len + r,
        ;
        assert(product_spec(lists)[q] =~= pick);
        q
    }
}

/// The k-tuples over a list of `n` elements are `n` to the power `k` in
/// number.
pub proof fn lemma_combinations_with_repetition_len<T>(list: Seq<T>, k: nat)
    ensures
        combinations_with_repetition_spec(list, k).len() == pow(list.len() as int, k),
{
    let copies = Seq::new(k, |i: int| list);
    lemma_product_len(copies);
    lemma_copies_count(list, k);
}

proof fn lemma_copies_count<T>(list: Seq<T>, k: nat)
    ensures
        product_count(Seq::new(k, |i: int| list)) == pow(list.len() as int, k),
    decreases k,
{
    reveal(pow);
    if k > 0 {
        lemma_copies_count(list, (k - 1) as nat);
        assert(Seq::new(k, |i: int| list).drop_last() =~= Seq::new((k - 1) as nat, |i: int| list));
        let a = pow(list.len() as int, (k - 1) as nat);
        let b = list.len() as int;
        assert(a * b == b * a) by (nonlinear_arith);
    }
}

/// Every k-tuple over a list has `k` members, each of them from the list.
pub proof fn lemma_combinations_with_repetition_members<T>(list: Seq<T>, k: nat, q: int)
    requires
        0 <= q < combinations_with_repetition_spec(list, k).len(),
    ensures
        combinations_with_repetition_spec(list, k)[q].len() == k,
        forall|j: int|
            0 <= j < k ==> list.contains(#[trigger] combinations_with_repetition_spec(list, k)[q][j]),
{
    let copies = Seq::new(k, |i: int| list);
    lemma_product_members(copies, q);
    assert forall|j: int| 0 <= j < k implies list.contains(
        #[trigger] combinations_with_repetition_spec(list, k)[q][j],
    ) by {
        assert(copies[j].contains(product_spec(copies)[q][j]));
    }
}

proof fn lemma_permutations_upto_len<T>(list: Seq<T>, k: nat, upto: nat)
    requires
        0 < k <= list.len(),
        upto <= list.len(),
    ensures
        permutations_upto(list, k, upto).len() == upto * permutation_count(
            (list.len() - 1) as nat,
            (k - 1) as nat,
        ),
    decreases k, 0int, upto,
{
    let c = permutation_count((list.len() - 1) as nat, (k - 1) as nat) as int;
    if upto > 0 {
        lemma_permutations_upto_len(list, k, (upto - 1) as nat);
        let rest = list.remove(upto - 1);
        lemma_permutations_len(rest, (k - 1) as nat);
        let tails = permutations_spec(rest, (k - 1) as nat);
        assert(rest.len() == list.len() - 1);
        assert(tails.len() == c);
        assert(prepend_each(list[upto - 1], tails).len() == c);
        assert((upto - 1) * c + c == upto * c) by (nonlinear_arith);
    } else {
        assert(0 * c == 0) by (nonlinear_arith);
    }
}

/// A list of `n` elements has `n (n-1) .. (n-k+1)` k-permutations.
pub proof fn lemma_permutations_len<T>(list: Seq<T>, k: nat)
    ensures
        permutations_spec(list, k).len() == permutation_count(list.len(), k),
    decreases k, 1int, 0nat,
{
    if !(k == 0 || k > list.len()) {
        lemma_permutations_upto_len(list, k, list.len());
    }
}

/// Of `n` elements there are `n!` arrangements of all of them.
pub proof fn lemma_permutation_count_full(n: nat)
    ensures
        permutation_count(n, n) == factorial_spec(n),
    decreases n,
{
    if n > 1 {
        lemma_permutation_count_full((n - 1) as nat);
    } else if n == 1 {
        assert(permutation_count(0, 0) == 1);
        assert(permutation_count(1, 1) == 1 * permutation_count(0, 0));
    }
}

proof fn lemma_permutations_upto_members<T>(list: Seq<T>, k: nat, upto: nat, q: int)
    requires
        0 < k <= list.len(),
        upto <= list.len(),
        0 <= q < permutations_upto(list, k, upto).len(),
    ensures
        permutations_upto(list, k, upto)[q].len() == k,
        forall|a: int|
            0 <= a < k ==> list.contains(#[trigger] permutations_upto(list, k, upto)[q][a]),
        list.no_duplicates() ==> permutations_upto(list, k, upto)[q].no_duplicates(),
    decreases k, 0int, upto,
{
    let before = permutations_upto(list, k, (upto - 1) as nat);
    if q < before.len() {
        lemma_permutations_upto_members(list, k, (upto - 1) as nat, q);
    } else {
        let j = upto - 1;
        let rest = list.remove(j);
        let tails = permutations_spec(rest, (k - 1) as nat);
        let t = q - before.len();
        let tail = tails[t];
        lemma_permutations_members(rest, (k - 1) as nat, t);
        let member = permutations_upto(list, k, upto)[q];
        assert(member == seq![list[j]] + tail);
        assert forall|a: int| 0 <= a < k implies list.contains(#[trigger] member[a]) by {
            if a == 0 {
                assert(list[j] == member[0]);
            } else {
                assert(member[a] == tail[a - 1]);
                assert(rest.contains(tail[a - 1]));
                let i = choose|i: int| 0 <= i < rest.len() && rest[i] == tail[a - 1];
                if i < j {
                    assert(list[i] == rest[i]);
                } else {
                    assert(list[i + 1] == rest[i]);
                }
            }
        }
        if list.no_duplicates() {
            assert(rest.no_duplicates()) by {
                assert forall|x: int, y: int| 0 <= x < rest.len() && 0 <= y < rest.len() && x
                    != y implies rest[x] != rest[y] by {
                    let x2 = if x < j { x } else { x + 1 };
                    let y2 = if y < j { y } else { y + 1 };
                    assert(rest[x] == list[x2] && rest[y] == list[y2]);
                }
            }
            assert forall|x: int, y: int| 0 <= x < member.len() && 0 <= y < member.len() && x
                != y implies member[x] != member[y] by {
                if x > 0 && y > 0 {
                    assert(member[x] == tail[x - 1] && member[y] == tail[y - 1]);
                } else {
                    let z = if x > 0 { x } else { y };
                    assert(member[z] == tail[z - 1]);
                    assert(rest.contains(tail[z - 1]));
                    let i = choose|i: int| 0 <= i < rest.len() && rest[i] == tail[z - 1];
                    let i2 = if i < j { i } else { i + 1 };
                    assert(rest[i] == list[i2]);
                }
            }
        }
    }
}

/// A k-permutation of a list, for `k` from 1 to the length of the list, has
/// `k` members, each of them from the list; where no element occurs twice in
/// the list, none occurs twice in the permutation.
pub proof fn lemma_permutations_members<T>(list: Seq<T>, k: nat, q: int)
    requires
        0 <= q < permutations_spec(list, k).len(),
    ensures
        permutations_spec(list, k)[q].len() == (if k > list.len() { 0 } else { k }),
        forall|a: int|
            0 <= a < permutations_spec(list, k)[q].len() ==> list.contains(
                #[trigger] permutations_spec(list, k)[q][a],
            ),
        list.no_duplicates() ==> permutations_spec(list, k)[q].no_duplicates(),
    decreases k, 1int, 0nat,
{
    if !(k == 0 || k > list.len()) {
        lemma_permutations_upto_members(list, k, list.len(), q);
    }
}

/// A k-combination of a list, for `k` from 1 to the length of the list, has
/// `k` members, each of them from the list; where no element occurs twice in
/// the list, none occurs twice in the combination.
pub proof fn lemma_combinations_members<T>(list: Seq<T>, k: nat, q: int)
    requires
        0 <= q < combinations_spec(list, k).len(),
    ensures
        combinations_spec(list, k)[q].len() == (if k > list.len() { 0 } else { k }),
        forall|a: int|
            0 <= a < combinations_spec(list, k)[q].len() ==> list.contains(
                #[trigger] combinations_spec(list, k)[q][a],
            ),
        list.no_duplicates() ==> combinations_spec(list, k)[q].no_duplicates(),
    decreases list.len(),
{
    if k == 0 || k > list.len() {
    } else if k == list.len() {
    } else {
        let rest = list.skip(1);
        let with_first = prepend_each(list[0], combinations_spec(rest, (k - 1) as nat));
        let member = combinations_spec(list, k)[q];
        if q < with_first.len() {
            let tail = combinations_spec(rest, (k - 1) as nat)[q];
            lemma_combinations_members(rest, (k - 1) as nat, q);
            assert(member == seq![list[0]] + tail);
            assert forall|a: int| 0 <= a < member.len() implies list.contains(
                #[trigger] member[a],
            ) by {
                if a == 0 {
                    assert(list[0] == member[0]);
                } else {
                    assert(member[a] == tail[a - 1]);
                    assert(rest.contains(tail[a - 1]));
                    let i = choose|i: int| 0 <= i < rest.len() && rest[i] == tail[a - 1];
                    assert(list[i + 1] == rest[i]);
                }
            }
            if list.no_duplicates() {
                assert(rest.no_duplicates()) by {
                    assert forall|x: int, y: int| 0 <= x < rest.len() && 0 <= y < rest.len() && x
                        != y implies rest[x] != rest[y] by {
                        assert(rest[x] == list[x + 1] && rest[y] == list[y + 1]);
                    }
                }
                assert forall|x: int, y: int| 0 <= x < member.len() && 0 <= y < member.len()
                    && x != y implies member[x] != member[y] by {
                    if x > 0 && y > 0 {
                        assert(member[x] == tail[x - 1] && member[y] == tail[y - 1]);
                    } else {
                        let z = if x > 0 { x } else { y };
                        assert(member[z] == tail[z - 1]);
                        assert(rest.contains(tail[z - 1]));
                        let i = choose|i: int| 0 <= i < rest.len() && rest[i] == tail[z - 1];
                        assert(rest[i] == list[i + 1]);
                    }
                }
            }
        } else {
            let t = q - with_first.len();
            lemma_combinations_members(rest, k, t);
            let other = combinations_spec(rest, k)[t];
            assert(member == other);
            assert forall|a: int| 0 <= a < member.len() implies list.contains(
                #[trigger] member[a],
            ) by {
                assert(rest.contains(other[a]));
                let i = choose|i: int| 0 <= i < rest.len() && rest[i] == other[a];
                assert(list[i + 1] == rest[i]);
            }
            if list.no_duplicates() {
                assert(rest.no_duplicates()) by {
                    assert forall|x: int, y: int| 0 <= x < rest.len() && 0 <= y < rest.len() && x
                        != y implies rest[x] != rest[y] by {
                        assert(rest[x] == list[x + 1] && rest[y] == list[y + 1]);
                    }
                }
            }
        }
    }
}

/// Whether each member of `s` is smaller than the next.
pub open spec fn is_increasing(s: Seq<usize>) -> bool {
    forall|i: int, j: int| 0 <= i < j < s.len() ==> s[i] < s[j]
}

/// The combinations of an increasing list are increasing.
pub proof fn lemma_combinations_increasing(list: Seq<usize>, k: nat, q: int)
    requires
        is_increasing(list),
        0 <= q < combinations_spec(list, k).len(),
    ensures
        is_increasing(combinations_spec(list, k)[q]),
    decreases list.len(),
{
    if k == 0 || k > list.len() {
    } else if k == list.len() {
    } else {
        let rest = list.skip(1);
        assert(is_increasing(rest)) by {
            assert forall|i: int, j: int| 0 <= i < j < rest.len() implies rest[i] < rest[j] by {
                assert(list[i + 1] < list[j + 1]);
            }
        }
        let with_first = prepend_each(list[0], combinations_spec(rest, (k - 1) as nat));
        let member = combinations_spec(list, k)[q];
        if q < with_first.len() {
            let tail = combinations_spec(rest, (k - 1) as nat)[q];
            lemma_combinations_increasing(rest, (k - 1) as nat, q);
            lemma_combinations_members(rest, (k - 1) as nat, q);
            assert(member == seq![list[0]] + tail);
            assert forall|i: int, j: int| 0 <= i < j < member.len() implies member[i]
                < member[j] by {
                assert(member[j] == tail[j - 1]);
                if i == 0 {
                    assert(rest.contains(tail[j - 1]));
                    let x = choose|x: int| 0 <= x < rest.len() && rest[x] == tail[j - 1];
                    assert(list[0] < list[x + 1]);
                } else {
                    assert(member[i] == tail[i - 1]);
                }
            }
        } else {
            lemma_combinations_increasing(rest, k, q - with_first.len());
        }
    }
}

/// Every increasing selection from an increasing list is one of its
/// combinations, and is no longer than the list.
pub proof fn lemma_combinations_complete(list: Seq<usize>, pick: Seq<usize>) -> (q: int)
    requires
        is_increasing(list),
        is_increasing(pick),
        forall|i: int| 0 <= i < pick.len() ==> list.contains(#[trigger] pick[i]),
    ensures
        pick.len() <= list.len(),
        0 <= q < combinations_spec(list, pick.len()).len(),
        combinations_spec(list, pick.len())[q] == pick,
    decreases list.len(),
{
    let k = pick.len();
    if k == 0 {
        assert(pick =~= Seq::<usize>::empty());
        0
    } else {
        assert(list.contains(pick[0]));
        let rest = list.skip(1);
        assert(is_increasing(rest)) by {
            assert forall|i: int, j: int| 0 <= i < j < rest.len() implies rest[i] < rest[j] by {
                assert(list[i + 1] < list[j + 1]);
            }
        }
        if pick[0] == list[0] {
            let tail = pick.skip(1);
            assert(is_increasing(tail)) by {
                assert forall|i: int, j: int| 0 <= i < j < tail.len() implies tail[i]
                    < tail[j] by {
                    assert(pick[i + 1] < pick[j + 1]);
                }
            }
            assert forall|i: int| 0 <= i < tail.len() implies rest.contains(#[trigger] tail[i]) by {
                assert(pick[0] < pick[i + 1]);
                assert(list.contains(pick[i + 1]));
                let x = choose|x: int| 0 <= x < list.len() && list[x] == pick[i + 1];
                assert(rest[x - 1] == tail[i]);
            }
            let at = lemma_combinations_complete(rest, tail);
            if k == list.len() {
                assert(combinations_spec(rest, tail.len())[at] == rest);
                assert(tail == rest);
                assert forall|i: int| 0 <= i < pick.len() implies pick[i] == list[i] by {
                    if i > 0 {
                        assert(pick[i] == tail[i - 1]);
                        assert(list[i] == rest[i - 1]);
                    }
                }
                assert(pick =~= list);
                0
            } else {
                assert(seq![list[0]] + tail =~= pick);
                at
            }
        } else {
            let first = choose|x: int| 0 <= x < list.len() && list[x] == pick[0];
            assert(list[0] < list[first]);
            assert forall|i: int| 0 <= i < pick.len() implies rest.contains(#[trigger] pick[i]) by {
                if i > 0 {
                    assert(pick[0] < pick[i]);
                }
                assert(list.contains(pick[i]));
                let x = choose|x: int| 0 <= x < list.len() && list[x] == pick[i];
                assert(rest[x - 1] == pick[i]);
            }
            let at = lemma_combinations_complete(rest, pick);
            let with_first = prepend_each(list[0], combinations_spec(rest, (k - 1) as nat));
            with_first.len() + at
        }
    }
}

proof fn lemma_permutations_upto_at<T>(list: Seq<T>, k: nat, upto: nat, j: int, t: int)
    requires
        0 < k <= list.len(),
        upto <= list.len(),
        0 <= j < upto,
        0 <= t < permutation_count((list.len() - 1) as nat, (k - 1) as nat),
    ensures
        0 <= j * permutation_count((list.len() - 1) as nat, (k - 1) as nat) + t
            < permutations_upto(list, k, upto).len(),
        permutations_upto(list, k, upto)[j * permutation_count(
            (list.len() - 1) as nat,
            (k - 1) as nat,
        ) + t] == seq![list[j]] + permutations_spec(list.remove(j), (k - 1) as nat)[t],
    decreases upto,
{
    let b = permutation_count((list.len() - 1) as nat, (k - 1) as nat) as int;
    lemma_permutations_upto_len(list, k, upto);
    lemma_permutations_upto_len(list, k, (upto - 1) as nat);
    assert(0 <= j * b) by (nonlinear_arith)
        requires
            0 <= j,
            0 <= b,
    ;
    if j == upto - 1 {
        let rest = list.remove(j);
        lemma_permutations_len(rest, (k - 1) as nat);
        assert(j * b + t < upto * b) by (nonlinear_arith)
            requires
                j == upto - 1,
                t < b,
        ;
        assert(permutations_upto(list, k, upto)[j * b + t] == prepend_each(
            list[j],
            permutations_spec(rest, (k - 1) as nat),
        )[t]);
    } else {
        lemma_permutations_upto_at(list, k, (upto - 1) as nat, j, t);
        assert(j * b + t < (upto - 1) * b) by (nonlinear_arith)
            requires
                j < upto - 1,
                0 <= t < b,
        ;
        assert((upto - 1) * b <= upto * b) by (nonlinear_arith)
            requires
                0 <= b,
        ;
    }
}

/// An arrangement of all the elements of a list holds each of them.
pub proof fn lemma_full_permutations_hold_all<T>(list: Seq<T>, q: int)
    requires
        0 <= q < permutations_spec(list, list.len()).len(),
    ensures
        forall|i: int|
            0 <= i < list.len() ==> permutations_spec(list, list.len())[q].contains(
                #[trigger] list[i],
            ),
    decreases list.len(),
{
    let n = list.len();
    if n > 0 {
        let member = permutations_spec(list, n)[q];
        let b = permutation_count((n - 1) as nat, (n - 1) as nat) as int;
        lemma_permutations_upto_len(list, n, n);
        lemma_permutation_count_full((n - 1) as nat);
        assert(b > 0) by {
            lemma_permutation_count_positive((n - 1) as nat, (n - 1) as nat);
        }
        lemma_fundamental_div_mod(q, b);
        let j = q / b;
        let t = q % b;
        assert(0 <= j < n) by (nonlinear_arith)
            requires
                0 <= q < n * b,
                0 < b,
                q == b * j + t,
                0 <= t < b,
        ;
        lemma_permutations_upto_at(list, n, n, j, t);
        assert(j * b + t == q) by (nonlinear_arith)
            requires
                q == b * j + t,
        ;
        let rest = list.remove(j);
        lemma_permutations_len(rest, (n - 1) as nat);
        let tail = permutations_spec(rest, (n - 1) as nat)[t];
        lemma_full_permutations_hold_all(rest, t);
        assert(member == seq![list[j]] + tail);
        assert forall|i: int| 0 <= i < n implies member.contains(#[trigger] list[i]) by {
            if i == j {
                assert(member[0] == list[i]);
            } else {
                let x = if i < j {
                    i
                } else {
                    i - 1
                };
                assert(rest[x] == list[i]);
                assert(tail.contains(rest[x]));
                let y = choose|y: int| 0 <= y < tail.len() && tail[y] == rest[x];
                assert(member[y + 1] == list[i]);
            }
        }
    }
}

/// There is at least one k-permutation.
pub proof fn lemma_permutation_count_positive(n: nat, k: nat)
    ensures
        permutation_count(n, k) > 0,
    decreases k,
{
    if !(k == 0 || k > n) {
        lemma_permutation_count_positive((n - 1) as nat, (k - 1) as nat);
        let c = permutation_count((n - 1) as nat, (k - 1) as nat) as int;
        assert(n * c > 0) by (nonlinear_arith)
            requires
                n > 0,
                c > 0,
        ;
    }
}

/// Every arrangement of all the elements of a list without repetitions is
/// among the permutations of the list.
pub proof fn lemma_permutations_complete<T>(list: Seq<T>, pick: Seq<T>) -> (q: int)
    requires
        list.no_duplicates(),
        pick.no_duplicates(),
        pick.len() == list.len(),
        forall|i: int| 0 <= i < pick.len() ==> list.contains(#[trigger] pick[i]),
    ensures
        0 <= q < permutations_spec(list, list.len()).len(),
        permutations_spec(list, list.len())[q] == pick,
    decreases list.len(),
{
    let n = list.len();
    if n == 0 {
        assert(pick =~= Seq::<T>::empty());
        0
    } else {
        assert(list.contains(pick[0]));
        let j = choose|j: int| 0 <= j < list.len() && list[j] == pick[0];
        let rest = list.remove(j);
        let tail = pick.skip(1);
        assert(rest.no_duplicates()) by {
            assert forall|x: int, y: int| 0 <= x < rest.len() && 0 <= y < rest.len() && x
                != y implies rest[x] != rest[y] by {
                let x2 = if x < j { x } else { x + 1 };
                let y2 = if y < j { y } else { y + 1 };
                assert(rest[x] == list[x2] && rest[y] == list[y2]);
            }
        }
        assert(tail.no_duplicates()) by {
            assert forall|x: int, y: int| 0 <= x < tail.len() && 0 <= y < tail.len() && x
                != y implies tail[x] != tail[y] by {
                assert(tail[x] == pick[x + 1] && tail[y] == pick[y + 1]);
            }
        }
        assert forall|i: int| 0 <= i < tail.len() implies rest.contains(#[trigger] tail[i]) by {
            assert(tail[i] == pick[i + 1]);
            assert(list.contains(pick[i + 1]));
            let x = choose|x: int| 0 <= x < list.len() && list[x] == pick[i + 1];
            assert(pick[i + 1] != pick[0]);
            if x < j {
                assert(rest[x] == list[x]);
            } else {
                assert(rest[x - 1] == list[x]);
            }
        }
        let t = lemma_permutations_complete(rest, tail);
        let b = permutation_count((n - 1) as nat, (n - 1) as nat) as int;
        lemma_permutations_len(rest, (n - 1) as nat);
        lemma_permutations_upto_at(list, n, n, j, t);
        assert(seq![list[j]] + tail =~= pick);
        j * b + t
    }
}

/// The first arrangement of all the elements of a list is the list itself.
pub proof fn lemma_permutations_first<T>(list: Seq<T>)
    ensures
        permutations_spec(list, list.len()).len() > 0,
        permutations_spec(list, list.len())[0] == list,
    decreases list.len(),
{
    let n = list.len();
    if n == 0 {
        assert(permutations_spec(list, 0)[0] =~= list);
    } else {
        let rest = list.remove(0);
        lemma_permutations_first(rest);
        lemma_permutation_count_positive((n - 1) as nat, (n - 1) as nat);
        lemma_permutations_upto_at(list, n, n, 0, 0);
        assert(seq![list[0]] + rest =~= list);
    }
}

/// Among the arrangements of all the elements of a list without
/// repetitions, only the first is the list itself.
pub proof fn lemma_permutations_only_first<T>(list: Seq<T>, q: int)
    requires
        list.no_duplicates(),
        0 <= q < permutations_spec(list, list.len()).len(),
        permutations_spec(list, list.len())[q] == list,
    ensures
        q == 0,
    decreases list.len(),
{
    let n = list.len();
    if n > 0 {
        let b = permutation_count((n - 1) as nat, (n - 1) as nat) as int;
        lemma_permutations_upto_len(list, n, n);
        lemma_permutation_count_positive((n - 1) as nat, (n - 1) as nat);
        lemma_fundamental_div_mod(q, b);
        let j = q / b;
        let t = q % b;
        assert(0 <= j < n) by (nonlinear_arith)
            requires
                0 <= q < n * b,
                0 < b,
                q == b * j + t,
                0 <= t < b,
        ;
        lemma_permutations_upto_at(list, n, n, j, t);
        assert(j * b + t == q) by (nonlinear_arith)
            requires
                q == b * j + t,
        ;
        let tail = permutations_spec(list.remove(j), (n - 1) as nat)[t];
        let member = seq![list[j]] + tail;
        assert(member[0] == list[0]);
        assert(j == 0);
        let rest = list.remove(0);
        assert(tail =~= rest) by {
            assert forall|x: int| 0 <= x < rest.len() implies tail[x] == rest[x] by {
                assert(member[x + 1] == list[x + 1]);
            }
            lemma_permutations_len(rest, (n - 1) as nat);
            lemma_permutations_members(rest, (n - 1) as nat, t);
        }
        assert(rest.no_duplicates()) by {
            assert forall|x: int, y: int| 0 <= x < rest.len() && 0 <= y < rest.len() && x
                != y implies rest[x] != rest[y] by {
                assert(rest[x] == list[x + 1] && rest[y] == list[y + 1]);
            }
        }
        lemma_permutations_len(rest, (n - 1) as nat);
        lemma_permutations_only_first(rest, t);
        assert(q == 0) by (nonlinear_arith)
            requires
                q == b * j + t,
                j == 0,
                t == 0,
        ;
    }
}

/// The first member of a product of lists that are not empty takes the
/// first element of each list.
pub proof fn lemma_product_first<T>(lists: Seq<Seq<T>>)
    requires
        forall|j: int| 0 <= j < lists.len() ==> (#[trigger] lists[j]).len() > 0,
    ensures
        product_spec(lists).len() > 0,
        product_spec(lists)[0] == Seq::new(lists.len(), |j: int| lists[j][0]),
    decreases lists.len(),
{
    let firsts = Seq::new(lists.len(), |j: int| lists[j][0]);
    if lists.len() == 0 {
        assert(product_spec(lists)[0] =~= firsts);
    } else {
        let init = lists.drop_last();
        lemma_product_first(init);
        let len = lists.last().len() as int;
        let prev = product_spec(init);
        assert(0 < prev.len() * len) by (nonlinear_arith)
            requires
                0 < prev.len(),
                0 < len,
        ;
        assert(0int / len == 0 && 0int % len == 0) by {
            lemma_fundamental_div_mod_converse(0, len, 0, 0);
        }
        assert(product_spec(lists)[0] =~= firsts);
    }
}

/// Only the first member of a product of lists without repetitions takes
/// the first element of each list.
pub proof fn lemma_product_only_first<T>(lists: Seq<Seq<T>>, q: int)
    requires
        forall|j: int|
            0 <= j < lists.len() ==> (#[trigger] lists[j]).len() > 0 && lists[j].no_duplicates(),
        0 <= q < product_spec(lists).len(),
        product_spec(lists)[q] == Seq::new(lists.len(), |j: int| lists[j][0]),
    ensures
        q == 0,
    decreases lists.len(),
{
    let firsts = Seq::new(lists.len(), |j: int| lists[j][0]);
    if lists.len() > 0 {
        let init = lists.drop_last();
        let last = lists.last();
        let len = last.len() as int;
        let prev = product_spec(init);
        lemma_fundamental_div_mod(q, len);
        assert(0 <= q / len < prev.len()) by (nonlinear_arith)
            requires
                0 <= q < prev.len() * len,
                0 < len,
                q == len * (q / len) + q % len,
                0 <= q % len < len,
        ;
        let member = product_spec(lists)[q];
        assert(member == prev[q / len].push(last[q % len]));
        assert(member[lists.len() - 1] == firsts[lists.len() - 1]);
        assert(last[q % len] == last[0]);
        assert(q % len == 0);
        assert(prev[q / len] =~= Seq::new(init.len(), |j: int| init[j][0])) by {
            lemma_product_members(init, q / len);
            assert forall|j: int| 0 <= j < init.len() implies prev[q / len][j] == init[j][0] by {
                assert(member[j] == firsts[j]);
            }
        }
        lemma_product_only_first(init, q / len);
        assert(q == 0) by (nonlinear_arith)
            requires
                q == len * (q / len) + q % len,
                q / len == 0,
                q % len == 0,
        ;
    }
}

/// The selections from a list are the selections of positions, with the
/// element of the list at each position: selecting commutes with changing
/// every element of the list in the same way.
pub proof fn lemma_combinations_map<T, U>(list: Seq<T>, f: spec_fn(T) -> U, k: nat)
    ensures
        combinations_spec(list.map_values(f), k).len() == combinations_spec(list, k).len(),
        forall|q: int|
            0 <= q < combinations_spec(list, k).len() ==> #[trigger] combinations_spec(
                list.map_values(f),
                k,
            )[q] == combinations_spec(list, k)[q].map_values(f),
    decreases list.len(),
{
    let changed = list.map_values(f);
    if k == 0 || k > list.len() {
        assert(combinations_spec(changed, k)[0] =~= combinations_spec(list, k)[0].map_values(f));
    } else if k == list.len() {
    } else {
        lemma_combinations_map(list.skip(1), f, (k - 1) as nat);
        lemma_combinations_map(list.skip(1), f, k);
        assert(changed.skip(1) =~= list.skip(1).map_values(f));
        let tails = combinations_spec(list.skip(1), (k - 1) as nat);
        let first = prepend_each(list[0], tails);
        assert forall|q: int| 0 <= q < combinations_spec(list, k).len() implies (
        #[trigger] combinations_spec(changed, k)[q]) == combinations_spec(list, k)[q].map_values(
            f,
        ) by {
            if q < first.len() {
                assert(combinations_spec(changed, k)[q] =~= combinations_spec(
                    list,
                    k,
                )[q].map_values(f));
            }
        }
    }
}

/// The selections from an increasing list are all different.
pub proof fn lemma_combinations_distinct(list: Seq<usize>, k: nat, q: int, r: int)
    requires
        is_increasing(list),
        0 <= q < combinations_spec(list, k).len(),
        0 <= r < combinations_spec(list, k).len(),
        q != r,
    ensures
        combinations_spec(list, k)[q] != combinations_spec(list, k)[r],
    decreases list.len(),
{
    if k == 0 || k > list.len() {
    } else if k == list.len() {
    } else {
        let rest = list.skip(1);
        assert(is_increasing(rest)) by {
            assert forall|i: int, j: int| 0 <= i < j < rest.len() implies rest[i] < rest[j] by {
                assert(list[i + 1] < list[j + 1]);
            }
        }
        let tails = combinations_spec(rest, (k - 1) as nat);
        let first = prepend_each(list[0], tails);
        let a = combinations_spec(list, k)[q];
        let b = combinations_spec(list, k)[r];
        if q < first.len() && r < first.len() {
            lemma_combinations_distinct(rest, (k - 1) as nat, q, r);
            lemma_combinations_members(rest, (k - 1) as nat, q);
            lemma_combinations_members(rest, (k - 1) as nat, r);
            assert(a == seq![list[0]] + tails[q] && b == seq![list[0]] + tails[r]);
            if a == b {
                assert(tails[q] =~= tails[r]) by {
                    assert forall|i: int| 0 <= i < tails[q].len() implies tails[q][i]
                        == tails[r][i] by {
                        assert(a[i + 1] == tails[q][i] && b[i + 1] == tails[r][i]);
                    }
                    assert(a.len() == b.len());
                }
            }
        } else if q >= first.len() && r >= first.len() {
            lemma_combinations_distinct(rest, k, q - first.len(), r - first.len());
        } else {
            let inside = if q < first.len() { q } else { r };
            let outside = if q < first.len() { r } else { q };
            let with = combinations_spec(list, k)[inside];
            let without = combinations_spec(list, k)[outside];
            lemma_combinations_members(rest, k, outside - first.len());
            assert(with[0] == list[0]);
            assert(rest.contains(without[0]));
            let x = choose|x: int| 0 <= x < rest.len() && rest[x] == without[0];
            assert(list[0] < list[x + 1]);
        }
    }
}

proof fn lemma_rows_push<T>(v: Seq<Vec<T>>, x: Vec<T>)
    ensures
        rows(v.push(x)) == rows(v).push(x@),
{
    assert(rows(v.push(x)) =~= rows(v).push(x@));
}

/// Whether a clone of a value of the type is equal to the value, as it is
/// for the integers.
pub open spec fn clone_is_exact<T: Clone>() -> bool {
    forall|a: T, b: T| #[trigger] cloned::<T>(a, b) ==> a == b
}

/// A clone of the value.
pub(crate) fn duplicate<T: Clone>(value: &T) -> (copy: T)
    requires
        clone_is_exact::<T>(),
    ensures
        copy == *value,
{
    let copy = value.clone();
    assert(cloned::<T>(*value, copy));
    copy
}

fn copy_vec<T: Clone>(v: &Vec<T>) -> (r: Vec<T>)
    requires
        clone_is_exact::<T>(),
    ensures
        r@ == v@,
{
    let mut r: Vec<T> = Vec::new();
    let mut i: usize = 0;
    while i < v.len()
        invariant
            clone_is_exact::<T>(),
            i <= v.len(),
            r@ == v@.take(i as int),
        decreases v.len() - i,
    {
        r.push(duplicate(&v[i]));
        i += 1;
    }
    r
}

/// The Cartesian product of the lists: every way to take one element from
/// each list, in lexicographic order of the positions taken.
pub fn product<T: Clone>(list: &[Vec<T>]) -> (prods: Vec<Vec<T>>)
    requires
        clone_is_exact::<T>(),
    ensures
        rows(prods@) == product_spec(rows(list@)),
{
    let ghost lists = rows(list@);
    let mut prods: Vec<Vec<T>> = Vec::new();
    prods.push(Vec::new());
    assert(rows(prods@) =~= product_spec(lists.take(0)));
    let mut i: usize = 0;
    while i < list.len()
        invariant
            clone_is_exact::<T>(),
            i <= list.len(),
            lists == rows(list@),
            rows(prods@) == product_spec(lists.take(i as int)),
        decreases list.len() - i,
    {
        let axis = &list[i];
        let ghost before = rows(prods@);
        let mut next: Vec<Vec<T>> = Vec::new();
        let mut p: usize = 0;
        while p < prods.len()
            invariant
                clone_is_exact::<T>(),
                p <= prods.len(),
                before == rows(prods@),
                next@.len() == p * axis@.len(),
                forall|q: int|
                    0 <= q < next@.len() ==> (#[trigger] next@[q])@ == extend_each(
                        before,
                        axis@,
                    )[q],
            decreases prods.len() - p,
        {
            let mut v: usize = 0;
            while v < axis.len()
                invariant
                    clone_is_exact::<T>(),
                    p < prods.len(),
                    v <= axis.len(),
                    before == rows(prods@),
                    next@.len() == p * axis@.len() + v,
                    forall|q: int|
                        0 <= q < next@.len() ==> (#[trigger] next@[q])@ == extend_each(
                            before,
                            axis@,
                        )[q],
                decreases axis.len() - v,
            {
                let mut row = copy_vec(&prods[p]);
                row.push(duplicate(&axis[v]));
                proof {
                    let q = next@.len() as int;
                    let len = axis@.len() as int;
                    lemma_fundamental_div_mod_converse(q, len, p as int, v as int);
                    assert(q < (p + 1) * len) by (nonlinear_arith)
                        requires
                            q == p * len + v,
                            v < len,
                    ;
                    assert((p + 1) * len <= prods@.len() * len) by (nonlinear_arith)
                        requires
                            p + 1 <= prods@.len(),
                            0 <= len,
                    ;
                    assert(before[p as int] == prods@[p as int]@);
                }
                next.push(row);
                v += 1;
            }
            p += 1;
            assert(p * axis@.len() == (p - 1) * axis@.len() + axis@.len()) by (nonlinear_arith);
        }
        proof {
            assert(lists.take(i + 1).drop_last() =~= lists.take(i as int));
            assert(lists.take(i + 1).last() == axis@);
            assert(rows(next@) =~= extend_each(before, axis@));
        }
        prods = next;
        i += 1;
    }
    assert(lists.take(list@.len() as int) =~= lists);
    prods
}

fn remove_at<T: Clone>(list: &[T], j: usize) -> (rest: Vec<T>)
    requires
        clone_is_exact::<T>(),
        j < list@.len(),
    ensures
        rest@ == list@.remove(j as int),
{
    let mut rest: Vec<T> = Vec::new();
    let mut i: usize = 0;
    while i < list.len()
        invariant
            clone_is_exact::<T>(),
            i <= list.len(),
            j < list@.len(),
            rest@ == if i <= j {
                list@.take(i as int)
            } else {
                list@.remove(j as int).take(i - 1)
            },
        decreases list.len() - i,
    {
        if i != j {
            rest.push(duplicate(&list[i]));
        }
        i += 1;
    }
    assert(list@.remove(j as int).take(list@.len() - 1) =~= list@.remove(j as int));
    rest
}

fn prepend<T: Clone>(head: T, tail: &Vec<T>) -> (r: Vec<T>)
    requires
        clone_is_exact::<T>(),
    ensures
        r@ == seq![head] + tail@,
{
    let mut r: Vec<T> = Vec::new();
    r.push(head);
    let mut i: usize = 0;
    while i < tail.len()
        invariant
            clone_is_exact::<T>(),
            i <= tail.len(),
            r@ == seq![head] + tail@.take(i as int),
        decreases tail.len() - i,
    {
        r.push(duplicate(&tail[i]));
        i += 1;
    }
    assert(tail@.take(tail@.len() as int) =~= tail@);
    r
}

/// The arrangements of `k` elements of the list taken at different
/// positions, in lexicographic order of the positions; the one empty
/// arrangement where `k` is 0 or more than the list holds.
pub fn permutations<T: Clone>(list: &[T], k: usize) -> (perms: Vec<Vec<T>>)
    requires
        clone_is_exact::<T>(),
    ensures
        rows(perms@) == permutations_spec(list@, k as nat),
    decreases k,
{
    let n = list.len();
    let mut perms: Vec<Vec<T>> = Vec::new();
    if k == 0 || k > n {
        perms.push(Vec::new());
        assert(rows(perms@) =~= seq![Seq::<T>::empty()]);
        return perms;
    }
    assert(rows(perms@) =~= permutations_upto(list@, k as nat, 0));
    let mut j: usize = 0;
    while j < n
        invariant
            clone_is_exact::<T>(),
            j <= n,
            n == list@.len(),
            0 < k <= n,
            rows(perms@) == permutations_upto(list@, k as nat, j as nat),
        decreases n - j,
    {
        let rest = remove_at(list, j);
        let tails = permutations(rest.as_slice(), k - 1);
        let ghost before = rows(perms@);
        let ghost block = prepend_each(list@[j as int], rows(tails@));
        let mut t: usize = 0;
        while t < tails.len()
            invariant
                clone_is_exact::<T>(),
                t <= tails.len(),
                j < list@.len(),
                block == prepend_each(list@[j as int], rows(tails@)),
                rows(perms@) == before + block.take(t as int),
            decreases tails.len() - t,
        {
            let row = prepend(duplicate(&list[j]), &tails[t]);
            proof {
                lemma_rows_push(perms@, row);
                assert(row@ == block[t as int]);
                assert((before + block.take(t as int)).push(block[t as int]) =~= before
                    + block.take(t + 1));
            }
            perms.push(row);
            t += 1;
        }
        assert(block.take(tails@.len() as int) =~= block);
        j += 1;
    }
    perms
}

fn combinations_from<T: Clone>(list: &[T], start: usize, k: usize) -> (combs: Vec<Vec<T>>)
    requires
        clone_is_exact::<T>(),
        start <= list@.len(),
    ensures
        rows(combs@) == combinations_spec(list@.skip(start as int), k as nat),
    decreases list@.len() - start,
{
    let n = list.len() - start;
    let ghost tail = list@.skip(start as int);
    let mut combs: Vec<Vec<T>> = Vec::new();
    if k == 0 || k > n {
        combs.push(Vec::new());
        assert(rows(combs@) =~= seq![Seq::<T>::empty()]);
        return combs;
    }
    if k == n {
        let mut whole: Vec<T> = Vec::new();
        let mut i: usize = start;
        while i < list.len()
            invariant
                clone_is_exact::<T>(),
                start <= i <= list.len(),
                whole@ == list@.subrange(start as int, i as int),
            decreases list.len() - i,
        {
            whole.push(duplicate(&list[i]));
            i += 1;
        }
        assert(list@.subrange(start as int, list@.len() as int) =~= tail);
        combs.push(whole);
        assert(rows(combs@) =~= seq![tail]);
        return combs;
    }
    assert(tail.skip(1) =~= list@.skip(start + 1));
    let with_first = combinations_from(list, start + 1, k - 1);
    let ghost block = prepend_each(tail[0], rows(with_first@));
    let mut t: usize = 0;
    while t < with_first.len()
        invariant
            clone_is_exact::<T>(),
            t <= with_first.len(),
            start < list@.len(),
            tail == list@.skip(start as int),
            block == prepend_each(tail[0], rows(with_first@)),
            rows(combs@) == block.take(t as int),
        decreases with_first.len() - t,
    {
        let row = prepend(duplicate(&list[start]), &with_first[t]);
        proof {
            lemma_rows_push(combs@, row);
            assert(row@ == block[t as int]);
            assert(block.take(t as int).push(block[t as int]) =~= block.take(t + 1));
        }
        combs.push(row);
        t += 1;
    }
    assert(block.take(with_first@.len() as int) =~= block);
    let without_first = combinations_from(list, start + 1, k);
    let ghost others = rows(without_first@);
    let mut u: usize = 0;
    while u < without_first.len()
        invariant
            clone_is_exact::<T>(),
            u <= without_first.len(),
            others == rows(without_first@),
            rows(combs@) == block + others.take(u as int),
        decreases without_first.len() - u,
    {
        let row = copy_vec(&without_first[u]);
        proof {
            lemma_rows_push(combs@, row);
            assert(row@ == others[u as int]);
            assert((block + others.take(u as int)).push(others[u as int]) =~= block
                + others.take(u + 1));
        }
        combs.push(row);
        u += 1;
    }
    assert(others.take(without_first@.len() as int) =~= others);
    combs
}

/// The selections of `k` elements of the list at increasing positions, in
/// lexicographic order of the positions; the one empty selection where `k`
/// is 0 or more than the list holds.
pub fn combinations<T: Clone>(list: &[T], k: usize) -> (combs: Vec<Vec<T>>)
    requires
        clone_is_exact::<T>(),
    ensures
        rows(combs@) == combinations_spec(list@, k as nat),
{
    assert(list@.skip(0) =~= list@);
    combinations_from(list, 0, k)
}

/// The tuples of `k` elements of the list, repetition allowed, in
/// lexicographic order of the positions.
pub fn combinations_with_repetition<T: Clone>(list: &[T], k: usize) -> (combs: Vec<Vec<T>>)
    requires
        clone_is_exact::<T>(),
    ensures
        rows(combs@) == combinations_with_repetition_spec(list@, k as nat),
{
    let mut copies: Vec<Vec<T>> = Vec::new();
    let mut i: usize = 0;
    while i < k
        invariant
            clone_is_exact::<T>(),
            i <= k,
            copies@.len() == i,
            forall|j: int| 0 <= j < i ==> (#[trigger] copies@[j])@ == list@,
        decreases k - i,
    {
        let mut copy: Vec<T> = Vec::new();
        let mut c: usize = 0;
        while c < list.len()
            invariant
                clone_is_exact::<T>(),
                c <= list.len(),
                copy@ == list@.take(c as int),
            decreases list.len() - c,
        {
            copy.push(duplicate(&list[c]));
            c += 1;
        }
        assert(list@.take(list@.len() as int) =~= list@);
        copies.push(copy);
        i += 1;
    }
    assert(rows(copies@) =~= Seq::new(k as nat, |i: int| list@));
    product(copies.as_slice())
}

/// `n!`, where it fits the machine word.
pub fn factorial(n: usize) -> (r: usize)
    requires
        factorial_spec(n as nat) <= usize::MAX,
    ensures
        r == factorial_spec(n as nat),
    decreases n,
{
    if n <= 1 {
        1
    } else {
        assert(factorial_spec((n - 1) as nat) <= factorial_spec(n as nat)) by (nonlinear_arith)
            requires
                n >= 2,
                factorial_spec(n as nat) == n * factorial_spec((n - 1) as nat),
        ;
        n * factorial(n - 1)
    }
}

} // verus!
