//! Tables as lists of rows: searching, aggregating, changing, removing and sorting.
use vstd::prelude::*;

use crate::json::{items_model, Json, JsonView};

verus! {

/// The models of a list of rows.
pub open spec fn views<R: View>(rows: Seq<R>) -> Seq<R::V> {
    rows.map_values(|r: R| r@)
}

/// Whether some row satisfies `p`.
pub open spec fn any<V>(rows: Seq<V>, p: spec_fn(V) -> bool) -> bool {
    exists|i: int| 0 <= i < rows.len() && p(#[trigger] rows[i])
}

/// Whether row `i` is the first that satisfies `p`.
pub open spec fn is_first<V>(rows: Seq<V>, p: spec_fn(V) -> bool, i: int) -> bool {
    &&& 0 <= i < rows.len()
    &&& p(rows[i])
    &&& forall|j: int| 0 <= j < i ==> !p(#[trigger] rows[j])
}

/// The first row that satisfies `p`.
pub open spec fn first<V>(rows: Seq<V>, p: spec_fn(V) -> bool) -> Option<V> {
    if any(rows, p) {
        Some(rows[choose|i: int| is_first(rows, p, i)])
    } else {
        None
    }
}

/// The greatest of the numbers that `key` gives for rows, where it gives one.
pub open spec fn greatest<V>(rows: Seq<V>, key: spec_fn(V) -> Option<i64>) -> Option<i64>
    decreases rows.len(),
{
    if rows.len() == 0 {
        None
    } else {
        match (greatest(rows.drop_last(), key), key(rows.last())) {
            (Some(a), Some(b)) => Some(if a < b { b } else { a }),
            (None, b) => b,
            (a, None) => a,
        }
    }
}

/// The least of the numbers that `key` gives for rows, where it gives one.
pub open spec fn least<V>(rows: Seq<V>, key: spec_fn(V) -> Option<i64>) -> Option<i64>
    decreases rows.len(),
{
    if rows.len() == 0 {
        None
    } else {
        match (least(rows.drop_last(), key), key(rows.last())) {
            (Some(a), Some(b)) => Some(if b < a { b } else { a }),
            (None, b) => b,
            (a, None) => a,
        }
    }
}

/// The row put among sorted rows, behind those whose key is not greater than its own.
pub open spec fn insert_sorted<V>(rows: Seq<V>, row: V, key: spec_fn(V) -> i64) -> Seq<V>
    decreases rows.len(),
{
    if rows.len() == 0 || key(rows.last()) <= key(row) {
        rows.push(row)
    } else {
        insert_sorted(rows.drop_last(), row, key).push(rows.last())
    }
}

/// The rows in the order of their keys; rows with the same key keep their order.
pub open spec fn sorted_by<V>(rows: Seq<V>, key: spec_fn(V) -> i64) -> Seq<V>
    decreases rows.len(),
{
    if rows.len() == 0 {
        Seq::empty()
    } else {
        insert_sorted(sorted_by(rows.drop_last(), key), rows.last(), key)
    }
}

/// Whether the keys of the rows never fall.
pub open spec fn is_sorted<V>(rows: Seq<V>, key: spec_fn(V) -> i64) -> bool {
    forall|i: int, j: int|
        0 <= i < j < rows.len() ==> key(#[trigger] rows[i]) <= key(#[trigger] rows[j])
}

pub proof fn lemma_first_is<V>(rows: Seq<V>, p: spec_fn(V) -> bool, i: int)
    requires
        is_first(rows, p, i),
    ensures
        first(rows, p) == Some(rows[i]),
{
    let k = choose|k: int| is_first(rows, p, k);
    assert(is_first(rows, p, k));
    if k < i {
        assert(!p(rows[k]));
    }
    if i < k {
        assert(!p(rows[i]));
    }
}

/// The first row that satisfies `p` is a row and satisfies it.
pub proof fn lemma_first_holds<V>(rows: Seq<V>, p: spec_fn(V) -> bool)
    ensures
        first(rows, p) is Some == any(rows, p),
        first(rows, p) matches Some(r) ==> p(r) && rows.contains(r),
    decreases rows.len(),
{
    if any(rows, p) {
        let at = choose|i: int| 0 <= i < rows.len() && p(#[trigger] rows[i]);
        lemma_first_exists(rows, p, at);
        let i = choose|i: int| is_first(rows, p, i);
        assert(is_first(rows, p, i));
    }
}

proof fn lemma_first_exists<V>(rows: Seq<V>, p: spec_fn(V) -> bool, at: int)
    requires
        0 <= at < rows.len(),
        p(rows[at]),
    ensures
        exists|i: int| is_first(rows, p, i),
    decreases at,
{
    if forall|j: int| 0 <= j < at ==> !p(#[trigger] rows[j]) {
        assert(is_first(rows, p, at));
    } else {
        let j = choose|j: int| 0 <= j < at && p(#[trigger] rows[j]);
        lemma_first_exists(rows, p, j);
    }
}

/// The first row that satisfies `p`, of rows that were changed without changing
/// whether they do, is the changed first row.
pub proof fn lemma_first_of_map<V>(rows: Seq<V>, p: spec_fn(V) -> bool, g: spec_fn(V) -> V)
    requires
        forall|r: V| #[trigger] p(g(r)) == p(r),
    ensures
        first(rows.map_values(g), p) == match first(rows, p) {
            Some(r) => Some(g(r)),
            None => None,
        },
{
    let new = rows.map_values(g);
    lemma_first_holds(rows, p);
    lemma_first_holds(new, p);
    if any(rows, p) {
        let at = choose|i: int| 0 <= i < rows.len() && p(#[trigger] rows[i]);
        lemma_first_exists(rows, p, at);
        let i = choose|i: int| is_first(rows, p, i);
        lemma_first_is(rows, p, i);
        assert(p(g(rows[i])));
        assert forall|j: int| 0 <= j < i implies !p(#[trigger] new[j]) by {
            assert(!p(rows[j]));
            assert(new[j] == g(rows[j]));
        }
        assert(is_first(new, p, i));
        lemma_first_is(new, p, i);
    } else if any(new, p) {
        let i = choose|i: int| 0 <= i < new.len() && p(#[trigger] new[i]);
        assert(new[i] == g(rows[i]));
        assert(p(rows[i]));
    }
}

/// The greatest number is one that a row has, and no row has a greater one.
pub proof fn lemma_greatest<V>(rows: Seq<V>, key: spec_fn(V) -> Option<i64>)
    ensures
        match greatest(rows, key) {
            Some(m) => (exists|i: int| 0 <= i < rows.len() && key(#[trigger] rows[i]) == Some(m))
                && forall|i: int|
                0 <= i < rows.len() && key(#[trigger] rows[i]) is Some ==> key(rows[i]).unwrap()
                    <= m,
            None => forall|i: int| 0 <= i < rows.len() ==> key(#[trigger] rows[i]) is None,
        },
    decreases rows.len(),
{
    if rows.len() > 0 {
        let before = rows.drop_last();
        lemma_greatest(before, key);
        assert(forall|i: int| 0 <= i < before.len() ==> before[i] == #[trigger] rows[i]);
        let last = rows.len() - 1;
        if let Some(m) = greatest(before, key) {
            let i = choose|i: int| 0 <= i < before.len() && key(#[trigger] before[i]) == Some(m);
            assert(key(rows[i]) == Some(m));
        }
        assert(rows[last] == rows.last());
    }
}

/// The least number is one that a row has, and no row has a smaller one.
pub proof fn lemma_least<V>(rows: Seq<V>, key: spec_fn(V) -> Option<i64>)
    ensures
        match least(rows, key) {
            Some(m) => (exists|i: int| 0 <= i < rows.len() && key(#[trigger] rows[i]) == Some(m))
                && forall|i: int|
                0 <= i < rows.len() && key(#[trigger] rows[i]) is Some ==> m <= key(
                    rows[i],
                ).unwrap(),
            None => forall|i: int| 0 <= i < rows.len() ==> key(#[trigger] rows[i]) is None,
        },
    decreases rows.len(),
{
    if rows.len() > 0 {
        let before = rows.drop_last();
        lemma_least(before, key);
        assert(forall|i: int| 0 <= i < before.len() ==> before[i] == #[trigger] rows[i]);
        let last = rows.len() - 1;
        if let Some(m) = least(before, key) {
            let i = choose|i: int| 0 <= i < before.len() && key(#[trigger] before[i]) == Some(m);
            assert(key(rows[i]) == Some(m));
        }
        assert(rows[last] == rows.last());
    }
}

proof fn lemma_insert_sorted<V>(rows: Seq<V>, row: V, key: spec_fn(V) -> i64)
    requires
        is_sorted(rows, key),
    ensures
        is_sorted(insert_sorted(rows, row, key), key),
        insert_sorted(rows, row, key).to_multiset() == rows.to_multiset().insert(row),
        forall|i: int|
            0 <= i < insert_sorted(rows, row, key).len() ==> (#[trigger] insert_sorted(
                rows,
                row,
                key,
            )[i] == row || rows.contains(insert_sorted(rows, row, key)[i])),
    decreases rows.len(),
{
    broadcast use vstd::seq_lib::group_to_multiset_ensures;

    let out = insert_sorted(rows, row, key);
    if rows.len() == 0 || key(rows.last()) <= key(row) {
        assert forall|i: int| 0 <= i < out.len() implies (#[trigger] out[i] == row || rows.contains(
            out[i],
        )) by {
            if i < rows.len() {
                assert(rows[i] == out[i]);
            }
        }
        assert forall|i: int, j: int| 0 <= i < j < out.len() implies key(#[trigger] out[i]) <= key(
            #[trigger] out[j],
        ) by {
            if j == rows.len() {
                if i < rows.len() - 1 {
                    assert(key(rows[i]) <= key(rows[rows.len() - 1]));
                }
            } else {
                assert(key(rows[i]) <= key(rows[j]));
            }
        }
    } else {
        let before = rows.drop_last();
        assert forall|i: int, j: int| 0 <= i < j < before.len() implies key(#[trigger] before[i])
            <= key(#[trigger] before[j]) by {
            assert(key(rows[i]) <= key(rows[j]));
        }
        lemma_insert_sorted(before, row, key);
        let inner = insert_sorted(before, row, key);
        assert forall|i: int| 0 <= i < inner.len() implies key(#[trigger] inner[i]) <= key(
            rows.last(),
        ) by {
            if inner[i] != row {
                assert(before.contains(inner[i]));
                let k = choose|k: int| 0 <= k < before.len() && before[k] == inner[i];
                assert(key(rows[k]) <= key(rows[rows.len() - 1]));
            }
        }
        assert forall|i: int| 0 <= i < out.len() implies (#[trigger] out[i] == row || rows.contains(
            out[i],
        )) by {
            if i < inner.len() {
                assert(out[i] == inner[i]);
                if inner[i] != row {
                    let k = choose|k: int| 0 <= k < before.len() && before[k] == inner[i];
                    assert(rows[k] == out[i]);
                }
            } else {
                assert(rows[rows.len() - 1] == out[i]);
            }
        }
        assert(rows == before.push(rows.last()));
        assert(out.to_multiset() =~= rows.to_multiset().insert(row));
    }
}

/// Sorting gives the same rows in the order of their keys.
pub proof fn law_sorted_by<V>(rows: Seq<V>, key: spec_fn(V) -> i64)
    ensures
        is_sorted(sorted_by(rows, key), key),
        sorted_by(rows, key).to_multiset() == rows.to_multiset(),
    decreases rows.len(),
{
    broadcast use vstd::seq_lib::group_to_multiset_ensures;

    if rows.len() > 0 {
        law_sorted_by(rows.drop_last(), key);
        lemma_insert_sorted(sorted_by(rows.drop_last(), key), rows.last(), key);
        assert(rows == rows.drop_last().push(rows.last()));
    }
}

/// Whether some row satisfies `p`, which `f` decides.
pub(crate) fn any_row<R: View, F: Fn(&R) -> bool>(
    rows: &Vec<R>,
    f: F,
    Ghost(p): Ghost<spec_fn(R::V) -> bool>,
) -> (found: bool)
    requires
        forall|r: &R| call_requires(f, (r,)),
        forall|r: &R, b: bool| call_ensures(f, (r,), b) ==> b == p(r@),
    ensures
        found == any(views(rows@), p),
{
    let mut i: usize = 0;
    while i < rows.len()
        invariant
            i <= rows.len(),
            forall|r: &R| call_requires(f, (r,)),
            forall|r: &R, b: bool| call_ensures(f, (r,), b) ==> b == p(r@),
            forall|j: int| 0 <= j < i ==> !p(#[trigger] views(rows@)[j]),
        decreases rows.len() - i,
    {
        let r = &rows[i];
        assert(views(rows@)[i as int] == r@);
        if f(r) {
            return true;
        }
        i += 1;
    }
    false
}

/// The first row that satisfies `p`, which `f` decides.
pub(crate) fn find_row<'a, R: View, F: Fn(&R) -> bool>(
    rows: &'a Vec<R>,
    f: F,
    Ghost(p): Ghost<spec_fn(R::V) -> bool>,
) -> (found: Option<&'a R>)
    requires
        forall|r: &R| call_requires(f, (r,)),
        forall|r: &R, b: bool| call_ensures(f, (r,), b) ==> b == p(r@),
    ensures
        first(views(rows@), p) == match found {
            Some(r) => Some(r@),
            None => None,
        },
{
    let mut i: usize = 0;
    while i < rows.len()
        invariant
            i <= rows.len(),
            forall|r: &R| call_requires(f, (r,)),
            forall|r: &R, b: bool| call_ensures(f, (r,), b) ==> b == p(r@),
            forall|j: int| 0 <= j < i ==> !p(#[trigger] views(rows@)[j]),
        decreases rows.len() - i,
    {
        let r = &rows[i];
        assert(views(rows@)[i as int] == r@);
        if f(r) {
            proof {
                lemma_first_is(views(rows@), p, i as int);
                assert(any(views(rows@), p));
            }
            return Some(r);
        }
        i += 1;
    }
    None
}

/// The greatest of the numbers that `f` gives for rows.
pub(crate) fn max_row<R: View, F: Fn(&R) -> Option<i64>>(
    rows: &Vec<R>,
    f: F,
    Ghost(key): Ghost<spec_fn(R::V) -> Option<i64>>,
) -> (max: Option<i64>)
    requires
        forall|r: &R| call_requires(f, (r,)),
        forall|r: &R, k: Option<i64>| call_ensures(f, (r,), k) ==> k == key(r@),
    ensures
        max == greatest(views(rows@), key),
{
    let ghost all = views(rows@);
    let mut max: Option<i64> = None;
    let mut i: usize = 0;
    while i < rows.len()
        invariant
            i <= rows.len(),
            all == views(rows@),
            forall|r: &R| call_requires(f, (r,)),
            forall|r: &R, k: Option<i64>| call_ensures(f, (r,), k) ==> k == key(r@),
            max == greatest(all.take(i as int), key),
        decreases rows.len() - i,
    {
        proof {
            assert(all.take(i + 1).drop_last() == all.take(i as int));
            assert(all.take(i + 1).last() == rows@[i as int]@);
        }
        let k = f(&rows[i]);
        max = match (max, k) {
            (Some(a), Some(b)) => Some(if a < b { b } else { a }),
            (None, b) => b,
            (a, None) => a,
        };
        i += 1;
    }
    assert(all.take(i as int) == all);
    max
}

/// The least of the numbers that `f` gives for rows.
pub(crate) fn min_row<R: View, F: Fn(&R) -> Option<i64>>(
    rows: &Vec<R>,
    f: F,
    Ghost(key): Ghost<spec_fn(R::V) -> Option<i64>>,
) -> (min: Option<i64>)
    requires
        forall|r: &R| call_requires(f, (r,)),
        forall|r: &R, k: Option<i64>| call_ensures(f, (r,), k) ==> k == key(r@),
    ensures
        min == least(views(rows@), key),
{
    let ghost all = views(rows@);
    let mut min: Option<i64> = None;
    let mut i: usize = 0;
    while i < rows.len()
        invariant
            i <= rows.len(),
            all == views(rows@),
            forall|r: &R| call_requires(f, (r,)),
            forall|r: &R, k: Option<i64>| call_ensures(f, (r,), k) ==> k == key(r@),
            min == least(all.take(i as int), key),
        decreases rows.len() - i,
    {
        proof {
            assert(all.take(i + 1).drop_last() == all.take(i as int));
            assert(all.take(i + 1).last() == rows@[i as int]@);
        }
        let k = f(&rows[i]);
        min = match (min, k) {
            (Some(a), Some(b)) => Some(if b < a { b } else { a }),
            (None, b) => b,
            (a, None) => a,
        };
        i += 1;
    }
    assert(all.take(i as int) == all);
    min
}

/// The numbers that `key` gives for rows which satisfy `p`.
pub open spec fn restricted<V>(p: spec_fn(V) -> bool, key: spec_fn(V) -> Option<i64>) -> spec_fn(
    V,
) -> Option<i64> {
    |r: V|
        if p(r) {
            key(r)
        } else {
            None
        }
}

/// Both of two conditions on a row.
pub open spec fn both<V>(p: spec_fn(V) -> bool, q: spec_fn(V) -> bool) -> spec_fn(V) -> bool {
    |r: V| p(r) && q(r)
}

/// A row that was kept is one of the rows, and satisfies `p`.
pub proof fn lemma_kept_are_rows<V>(rows: Seq<V>, p: spec_fn(V) -> bool, i: int)
    requires
        0 <= i < rows.filter(p).len(),
    ensures
        p(rows.filter(p)[i]),
        rows.contains(rows.filter(p)[i]),
    decreases rows.len(),
{
    reveal(Seq::filter);
    let front = rows.drop_last();
    if i < front.filter(p).len() {
        lemma_kept_are_rows(front, p, i);
        let k = choose|k: int| 0 <= k < front.len() && front[k] == front.filter(p)[i];
        assert(rows[k] == rows.filter(p)[i]);
    } else {
        assert(rows[rows.len() - 1] == rows.filter(p)[i]);
    }
}

/// The greatest number among the rows that were kept is the greatest among all
/// rows, those left aside that were not.
pub proof fn lemma_greatest_of_kept<V>(
    rows: Seq<V>,
    p: spec_fn(V) -> bool,
    key: spec_fn(V) -> Option<i64>,
)
    ensures
        greatest(rows.filter(p), key) == greatest(rows, restricted(p, key)),
    decreases rows.len(),
{
    reveal(Seq::filter);
    if rows.len() > 0 {
        lemma_greatest_of_kept(rows.drop_last(), p, key);
        let kept = rows.drop_last().filter(p);
        if p(rows.last()) {
            assert(rows.filter(p).drop_last() =~= kept);
        }
    }
}

/// A row that was kept satisfies `q` if and only if some row satisfies both.
pub proof fn lemma_any_of_kept<V>(rows: Seq<V>, p: spec_fn(V) -> bool, q: spec_fn(V) -> bool)
    ensures
        any(rows.filter(p), q) == any(rows, both(p, q)),
    decreases rows.len(),
{
    reveal(Seq::filter);
    if rows.len() > 0 {
        let front = rows.drop_last();
        lemma_any_of_kept(front, p, q);
        lemma_any_last(rows, both(p, q));
        if p(rows.last()) {
            assert(rows.filter(p) =~= front.filter(p).push(rows.last()));
            lemma_any_last(rows.filter(p), q);
            assert(rows.filter(p).drop_last() =~= front.filter(p));
        }
    }
}

proof fn lemma_any_last<V>(rows: Seq<V>, p: spec_fn(V) -> bool)
    requires
        rows.len() > 0,
    ensures
        any(rows, p) == (any(rows.drop_last(), p) || p(rows.last())),
{
    let front = rows.drop_last();
    if any(front, p) {
        let i = choose|i: int| 0 <= i < front.len() && p(#[trigger] front[i]);
        assert(p(rows[i]));
    }
    if p(rows.last()) {
        assert(p(rows[rows.len() - 1]));
    }
    if any(rows, p) && !p(rows.last()) {
        let i = choose|i: int| 0 <= i < rows.len() && p(#[trigger] rows[i]);
        assert(p(front[i]));
    }
}

/// Replaces each row by what `f` makes of it.
pub(crate) fn change_rows<R: View, F: Fn(R) -> R>(
    rows: &mut Vec<R>,
    f: F,
    Ghost(g): Ghost<spec_fn(R::V) -> R::V>,
)
    requires
        forall|r: R| old(rows)@.contains(r) ==> #[trigger] call_requires(f, (r,)),
        forall|r: R, out: R| call_ensures(f, (r,), out) ==> out@ == g(r@),
    ensures
        views(final(rows)@) == views(old(rows)@).map_values(g),
{
    let mut taken: Vec<R> = Vec::new();
    std::mem::swap(&mut taken, rows);
    let ghost all = taken@;
    for row in it: taken
        invariant
            it.seq() == all,
            forall|r: R| all.contains(r) ==> #[trigger] call_requires(f, (r,)),
            forall|r: R, out: R| call_ensures(f, (r,), out) ==> out@ == g(r@),
            rows@.len() == it.index(),
            forall|j: int| 0 <= j < rows@.len() ==> (#[trigger] rows@[j])@ == g(all[j]@),
    {
        assert(all[it.index() as int] == row);
        rows.push(f(row));
    }
    assert(views(rows@) =~= views(all).map_values(g));
}

/// The values that `f` makes of rows, as an array.
pub(crate) fn json_of_rows<R: View, F: Fn(&R) -> Json>(
    rows: &Vec<R>,
    f: F,
    Ghost(g): Ghost<spec_fn(R::V) -> JsonView>,
) -> (json: Json)
    requires
        forall|r: &R| call_requires(f, (r,)),
        forall|r: &R, out: Json| call_ensures(f, (r,), out) ==> out@ == g(r@),
    ensures
        json@ == JsonView::Array(views(rows@).map_values(g)),
{
    let mut items: Vec<Json> = Vec::new();
    let mut i: usize = 0;
    while i < rows.len()
        invariant
            i <= rows@.len(),
            items@.len() == i,
            forall|r: &R| call_requires(f, (r,)),
            forall|r: &R, out: Json| call_ensures(f, (r,), out) ==> out@ == g(r@),
            forall|j: int| 0 <= j < i ==> (#[trigger] items@[j])@ == g(rows@[j]@),
        decreases rows@.len() - i,
    {
        items.push(f(&rows[i]));
        i += 1;
    }
    assert(items_model(items@) =~= views(rows@).map_values(g));
    Json::Array(items)
}

/// Keeps the rows that satisfy `p`, which `f` decides.
pub(crate) fn keep_rows<R: View, F: Fn(&R) -> bool>(
    rows: &mut Vec<R>,
    f: F,
    Ghost(p): Ghost<spec_fn(R::V) -> bool>,
)
    requires
        forall|r: &R| call_requires(f, (r,)),
        forall|r: &R, b: bool| call_ensures(f, (r,), b) ==> b == p(r@),
    ensures
        views(final(rows)@) == views(old(rows)@).filter(p),
{
    let mut taken: Vec<R> = Vec::new();
    std::mem::swap(&mut taken, rows);
    let ghost all = taken@;
    proof {
        reveal(Seq::filter);
        assert(views(rows@) =~= views(all).take(0).filter(p));
    }
    for row in it: taken
        invariant
            it.seq() == all,
            forall|r: &R| call_requires(f, (r,)),
            forall|r: &R, b: bool| call_ensures(f, (r,), b) ==> b == p(r@),
            views(rows@) == views(all).take(it.index() as int).filter(p),
    {
        let ghost i = it.index() as int;
        let ghost before = views(rows@);
        proof {
            assert(views(all).take(i + 1) == views(all).take(i).push(row@));
            views(all).take(i).lemma_filter_push(row@, p);
        }
        if f(&row) {
            rows.push(row);
            assert(views(rows@) =~= before.push(row@));
        }
    }
    assert(views(all).take(all.len() as int) == views(all));
}

/// The rows that satisfy `p`, which `f` decides.
pub(crate) fn select_rows<'a, R: View, F: Fn(&R) -> bool>(
    rows: &'a Vec<R>,
    f: F,
    Ghost(p): Ghost<spec_fn(R::V) -> bool>,
) -> (selected: Vec<&'a R>)
    requires
        forall|r: &R| call_requires(f, (r,)),
        forall|r: &R, b: bool| call_ensures(f, (r,), b) ==> b == p(r@),
    ensures
        views(selected@) == views(rows@).filter(p),
{
    let ghost all = views(rows@);
    let mut selected: Vec<&'a R> = Vec::new();
    let mut i: usize = 0;
    proof {
        reveal(Seq::filter);
        assert(views(selected@) =~= all.take(0).filter(p));
    }
    while i < rows.len()
        invariant
            i <= rows.len(),
            all == views(rows@),
            forall|r: &R| call_requires(f, (r,)),
            forall|r: &R, b: bool| call_ensures(f, (r,), b) ==> b == p(r@),
            views(selected@) == all.take(i as int).filter(p),
        decreases rows.len() - i,
    {
        let r: &'a R = &rows[i];
        let ghost before = views(selected@);
        proof {
            assert(all.take(i + 1) == all.take(i as int).push(r@));
            all.take(i as int).lemma_filter_push(r@, p);
        }
        if f(r) {
            selected.push(r);
            assert(views(selected@) =~= before.push(r@));
        }
        i += 1;
    }
    assert(all.take(i as int) == all);
    selected
}

proof fn lemma_insert_position<V>(rows: Seq<V>, row: V, key: spec_fn(V) -> i64, at: int)
    requires
        0 <= at <= rows.len(),
        forall|j: int| at <= j < rows.len() ==> key(#[trigger] rows[j]) > key(row),
        at > 0 ==> key(rows[at - 1]) <= key(row),
    ensures
        insert_sorted(rows, row, key) == rows.insert(at, row),
    decreases rows.len() - at,
{
    if at < rows.len() {
        assert(key(rows[rows.len() - 1]) > key(row));
        let before = rows.drop_last();
        assert forall|j: int| at <= j < before.len() implies key(#[trigger] before[j]) > key(row) by {
            assert(before[j] == rows[j]);
        }
        lemma_insert_position(before, row, key, at);
        assert(rows.insert(at, row) =~= before.insert(at, row).push(rows.last()));
    } else {
        assert(rows.insert(at, row) =~= rows.push(row));
    }
}

/// Sorts rows by the key that `f` gives for them.
pub(crate) fn sort_rows<R: View, F: Fn(&R) -> i64>(
    rows: Vec<R>,
    f: F,
    Ghost(key): Ghost<spec_fn(R::V) -> i64>,
) -> (sorted: Vec<R>)
    requires
        forall|r: &R| call_requires(f, (r,)),
        forall|r: &R, k: i64| call_ensures(f, (r,), k) ==> k == key(r@),
    ensures
        views(sorted@) == sorted_by(views(rows@), key),
{
    let ghost all = rows@;
    let mut sorted: Vec<R> = Vec::new();
    assert(views(sorted@) =~= sorted_by(views(all).take(0), key));
    for row in it: rows
        invariant
            it.seq() == all,
            forall|r: &R| call_requires(f, (r,)),
            forall|r: &R, k: i64| call_ensures(f, (r,), k) ==> k == key(r@),
            views(sorted@) == sorted_by(views(all).take(it.index() as int), key),
    {
        let ghost i = it.index() as int;
        let ghost before = views(sorted@);
        let k = f(&row);
        let mut at: usize = sorted.len();
        let mut placed = false;
        while at > 0 && !placed
            invariant
                at <= sorted@.len(),
                before == views(sorted@),
                k == key(row@),
                forall|r: &R| call_requires(f, (r,)),
                forall|r: &R, k: i64| call_ensures(f, (r,), k) ==> k == key(r@),
                forall|j: int| at <= j < before.len() ==> key(#[trigger] before[j]) > key(row@),
                placed ==> at > 0 && key(before[at - 1]) <= key(row@),
            decreases at, (if placed { 0int } else { 1int }),
        {
            let other = f(&sorted[at - 1]);
            assert(before[at - 1] == sorted@[at - 1]@);
            if other <= k {
                placed = true;
            } else {
                at -= 1;
            }
        }
        proof {
            lemma_insert_position(before, row@, key, at as int);
            assert(views(all).take(i + 1).drop_last() == views(all).take(i));
            assert(views(all).take(i + 1).last() == row@);
        }
        sorted.insert(at, row);
        assert(views(sorted@) =~= before.insert(at as int, row@));
    }
    assert(views(all).take(all.len() as int) == views(all));
    sorted
}

/// Choosing rows takes all that satisfy the condition, and no others.
pub proof fn lemma_kept<V>(rows: Seq<V>, p: spec_fn(V) -> bool)
    ensures
        forall|i: int|
            0 <= i < rows.len() && p(#[trigger] rows[i]) ==> rows.filter(p).contains(rows[i]),
        forall|i: int|
            0 <= i < rows.filter(p).len() ==> p(#[trigger] rows.filter(p)[i]) && rows.contains(
                rows.filter(p)[i],
            ),
{
    assert forall|i: int| 0 <= i < rows.len() && p(#[trigger] rows[i]) implies rows.filter(
        p,
    ).contains(rows[i]) by {
        rows.lemma_filter_contains(p, i);
    }
    assert forall|i: int| 0 <= i < rows.filter(p).len() implies p(#[trigger] rows.filter(p)[i])
        && rows.contains(rows.filter(p)[i]) by {
        lemma_kept_are_rows(rows, p, i);
    }
}

/// Sorting moves no row past another with the same key: the rows of one key stand
/// in the order in which they were given.
pub proof fn law_sorting_is_stable<V>(rows: Seq<V>, key: spec_fn(V) -> i64, k: i64)
    ensures
        sorted_by(rows, key).filter(|r: V| key(r) == k) == rows.filter(|r: V| key(r) == k),
    decreases rows.len(),
{
    let p = |r: V| key(r) == k;
    reveal(Seq::filter);
    if rows.len() > 0 {
        let front = rows.drop_last();
        law_sorting_is_stable(front, key, k);
        law_sorted_by(front, key);
        lemma_insert_is_stable(sorted_by(front, key), rows.last(), key, k);
    }
}

proof fn lemma_insert_is_stable<V>(rows: Seq<V>, row: V, key: spec_fn(V) -> i64, k: i64)
    requires
        is_sorted(rows, key),
    ensures
        insert_sorted(rows, row, key).filter(|r: V| key(r) == k) == if key(row) == k {
            rows.filter(|r: V| key(r) == k).push(row)
        } else {
            rows.filter(|r: V| key(r) == k)
        },
    decreases rows.len(),
{
    let p = |r: V| key(r) == k;
    reveal(Seq::filter);
    if rows.len() == 0 || key(rows.last()) <= key(row) {
        assert(rows.push(row).drop_last() =~= rows);
    } else {
        let before = rows.drop_last();
        let inner = insert_sorted(before, row, key);
        assert forall|i: int, j: int| 0 <= i < j < before.len() implies key(#[trigger] before[i])
            <= key(#[trigger] before[j]) by {
            assert(key(rows[i]) <= key(rows[j]));
        }
        lemma_insert_is_stable(before, row, key, k);
        assert(inner.push(rows.last()).drop_last() =~= inner);
        if key(row) == k {
            assert(!p(rows.last()));
        }
    }
}

} // verus!
