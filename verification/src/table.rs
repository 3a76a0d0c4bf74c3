//! Rows in table order: the first row that meets a condition, the rows that
//! are kept by one, and rows that differ pairwise in their key.
use vstd::prelude::*;

verus! {

/// The first row of `rows` that meets `pred`.
pub open spec fn first_where<T>(rows: Seq<T>, pred: spec_fn(T) -> bool) -> Option<T>
    decreases rows.len(),
{
    if rows.len() == 0 {
        None
    } else if pred(rows[0]) {
        Some(rows[0])
    } else {
        first_where(rows.drop_first(), pred)
    }
}

/// The rows of `rows` that meet `pred`, in their order.
pub open spec fn keep_where<T>(rows: Seq<T>, pred: spec_fn(T) -> bool) -> Seq<T>
    decreases rows.len(),
{
    if rows.len() == 0 {
        Seq::empty()
    } else if pred(rows.last()) {
        keep_where(rows.drop_last(), pred).push(rows.last())
    } else {
        keep_where(rows.drop_last(), pred)
    }
}

/// Whether no two rows of `rows` have the same key.
pub open spec fn distinct_by<T, K>(rows: Seq<T>, key: spec_fn(T) -> K) -> bool {
    forall|i: int, j: int| 0 <= i < j < rows.len() ==> key(#[trigger] rows[i]) != key(#[trigger] rows[j])
}

/// Whether some row of `rows` meets `pred`.
pub open spec fn any_where<T>(rows: Seq<T>, pred: spec_fn(T) -> bool) -> bool {
    exists|i: int| 0 <= i < rows.len() && pred(#[trigger] rows[i])
}

pub proof fn lemma_first_where_found<T>(rows: Seq<T>, pred: spec_fn(T) -> bool, i: int)
    requires
        0 <= i < rows.len(),
        pred(rows[i]),
        forall|j: int| 0 <= j < i ==> !pred(#[trigger] rows[j]),
    ensures
        first_where(rows, pred) == Some(rows[i]),
    decreases i,
{
    if i > 0 {
        let rest = rows.drop_first();
        assert(!pred(rows[0]));
        assert forall|j: int| 0 <= j < i - 1 implies !pred(#[trigger] rest[j]) by {
            assert(rest[j] == rows[j + 1]);
        }
        lemma_first_where_found(rest, pred, i - 1);
    }
}

pub proof fn lemma_first_where_missing<T>(rows: Seq<T>, pred: spec_fn(T) -> bool)
    requires
        forall|j: int| 0 <= j < rows.len() ==> !pred(#[trigger] rows[j]),
    ensures
        first_where(rows, pred) is None,
    decreases rows.len(),
{
    if rows.len() > 0 {
        let rest = rows.drop_first();
        assert(!pred(rows[0]));
        assert forall|j: int| 0 <= j < rest.len() implies !pred(#[trigger] rest[j]) by {
            assert(rest[j] == rows[j + 1]);
        }
        lemma_first_where_missing(rest, pred);
    }
}

/// The first row that meets a condition is a row of the table and meets it;
/// there is none exactly when no row does.
pub proof fn lemma_first_where<T>(rows: Seq<T>, pred: spec_fn(T) -> bool)
    ensures
        first_where(rows, pred) is Some <==> any_where(rows, pred),
        first_where(rows, pred) matches Some(r) ==> pred(r) && rows.contains(r),
    decreases rows.len(),
{
    if rows.len() > 0 {
        let rest = rows.drop_first();
        lemma_first_where(rest, pred);
        if pred(rows[0]) {
            assert(rows.contains(rows[0]));
        } else {
            if any_where(rest, pred) {
                let i = choose|i: int| 0 <= i < rest.len() && pred(#[trigger] rest[i]);
                assert(rest[i] == rows[i + 1]);
            }
            if any_where(rows, pred) {
                let i = choose|i: int| 0 <= i < rows.len() && pred(#[trigger] rows[i]);
                assert(rest[i - 1] == rows[i]);
            }
            if first_where(rest, pred) is Some {
                let r = first_where(rest, pred)->0;
                let i = choose|i: int| 0 <= i < rest.len() && rest[i] == r;
                assert(rows[i + 1] == r);
            }
        }
    }
}

/// A row added at the end is the first to meet a condition only where no
/// earlier row meets it.
pub proof fn lemma_first_where_push<T>(rows: Seq<T>, row: T, pred: spec_fn(T) -> bool)
    ensures
        first_where(rows.push(row), pred) == match first_where(rows, pred) {
            Some(r) => Some(r),
            None => if pred(row) {
                Some(row)
            } else {
                None
            },
        },
    decreases rows.len(),
{
    let pushed = rows.push(row);
    if rows.len() == 0 {
        assert(pushed[0] == row);
        assert(pushed.drop_first() =~= Seq::<T>::empty());
        assert(first_where(pushed.drop_first(), pred) is None);
        assert(first_where(rows, pred) is None);
    } else {
        assert(pushed[0] == rows[0]);
        assert(pushed.drop_first() =~= rows.drop_first().push(row));
        lemma_first_where_push(rows.drop_first(), row, pred);
        if !pred(rows[0]) {
            assert(first_where(pushed, pred) == first_where(pushed.drop_first(), pred));
            assert(first_where(rows, pred) == first_where(rows.drop_first(), pred));
        }
    }
}

/// Changing rows in a way that a condition cannot tell leaves the first row
/// that meets it in place, changed.
pub proof fn lemma_first_where_map<T>(rows: Seq<T>, f: spec_fn(T) -> T, pred: spec_fn(T) -> bool)
    requires
        forall|r: T| pred(#[trigger] f(r)) == pred(r),
    ensures
        first_where(rows.map_values(f), pred) == match first_where(rows, pred) {
            Some(r) => Some(f(r)),
            None => None,
        },
    decreases rows.len(),
{
    let mapped = rows.map_values(f);
    if rows.len() > 0 {
        assert(mapped[0] == f(rows[0]));
        assert(mapped.drop_first() =~= rows.drop_first().map_values(f));
        lemma_first_where_map(rows.drop_first(), f, pred);
        if !pred(rows[0]) {
            assert(first_where(mapped, pred) == first_where(mapped.drop_first(), pred));
            assert(first_where(rows, pred) == first_where(rows.drop_first(), pred));
        }
    }
}

/// Keeping the rows that meet a condition keeps all of a table whose rows
/// all meet it.
pub proof fn lemma_keep_where_all<T>(rows: Seq<T>, pred: spec_fn(T) -> bool)
    requires
        forall|i: int| 0 <= i < rows.len() ==> pred(#[trigger] rows[i]),
    ensures
        keep_where(rows, pred) == rows,
    decreases rows.len(),
{
    if rows.len() > 0 {
        let front = rows.drop_last();
        assert(pred(rows[rows.len() - 1]));
        assert forall|i: int| 0 <= i < front.len() implies pred(#[trigger] front[i]) by {
            assert(front[i] == rows[i]);
        }
        lemma_keep_where_all(front, pred);
        assert(front.push(rows.last()) =~= rows);
    } else {
        assert(rows =~= Seq::<T>::empty());
    }
}

/// Every kept row is a row of the table and meets the condition.
pub proof fn lemma_keep_where_rows<T>(rows: Seq<T>, pred: spec_fn(T) -> bool)
    ensures
        forall|i: int|
            0 <= i < keep_where(rows, pred).len() ==> pred(#[trigger] keep_where(rows, pred)[i])
                && rows.contains(keep_where(rows, pred)[i]),
    decreases rows.len(),
{
    if rows.len() > 0 {
        let front = rows.drop_last();
        lemma_keep_where_rows(front, pred);
        let kept_front = keep_where(front, pred);
        assert forall|i: int| 0 <= i < keep_where(rows, pred).len() implies pred(
            #[trigger] keep_where(rows, pred)[i],
        ) && rows.contains(keep_where(rows, pred)[i]) by {
            if i < kept_front.len() {
                assert(keep_where(rows, pred)[i] == kept_front[i]);
                let k = choose|k: int| 0 <= k < front.len() && front[k] == kept_front[i];
                assert(rows[k] == kept_front[i]);
            } else {
                assert(keep_where(rows, pred)[i] == rows[rows.len() - 1]);
            }
        }
    }
}

/// Keeping some rows of a table whose keys differ leaves a table whose keys
/// differ.
pub proof fn lemma_keep_where_distinct<T, K>(
    rows: Seq<T>,
    pred: spec_fn(T) -> bool,
    key: spec_fn(T) -> K,
)
    requires
        distinct_by(rows, key),
    ensures
        distinct_by(keep_where(rows, pred), key),
    decreases rows.len(),
{
    if rows.len() > 0 {
        let front = rows.drop_last();
        assert forall|i: int, j: int| 0 <= i < j < front.len() implies key(#[trigger] front[i])
            != key(#[trigger] front[j]) by {
            assert(front[i] == rows[i] && front[j] == rows[j]);
        }
        lemma_keep_where_distinct(front, pred, key);
        lemma_keep_where_rows(front, pred);
        let kept_front = keep_where(front, pred);
        let kept = keep_where(rows, pred);
        assert forall|i: int, j: int| 0 <= i < j < kept.len() implies key(#[trigger] kept[i])
            != key(#[trigger] kept[j]) by {
            if j < kept_front.len() {
                assert(kept[i] == kept_front[i] && kept[j] == kept_front[j]);
            } else {
                assert(kept[i] == kept_front[i]);
                assert(kept[j] == rows[rows.len() - 1]);
                let k = choose|k: int| 0 <= k < front.len() && front[k] == kept_front[i];
                assert(rows[k] == kept_front[i]);
            }
        }
    }
}

/// The rows that `f` has a result for, each replaced by that result.
pub open spec fn filter_map<T>(rows: Seq<T>, f: spec_fn(T) -> Option<T>) -> Seq<T>
    decreases rows.len(),
{
    if rows.len() == 0 {
        Seq::empty()
    } else {
        match f(rows.last()) {
            Some(row) => filter_map(rows.drop_last(), f).push(row),
            None => filter_map(rows.drop_last(), f),
        }
    }
}

/// Changing every row is replacing every row by a result.
pub proof fn lemma_map_is_filter_map<T>(rows: Seq<T>, f: spec_fn(T) -> T, g: spec_fn(T) -> Option<T>)
    requires
        forall|r: T| #[trigger] g(r) == Some(f(r)),
    ensures
        rows.map_values(f) == filter_map(rows, g),
    decreases rows.len(),
{
    if rows.len() == 0 {
        assert(rows.map_values(f) =~= Seq::<T>::empty());
    } else {
        lemma_map_is_filter_map(rows.drop_last(), f, g);
        assert(g(rows.last()) == Some(f(rows.last())));
        assert(rows.map_values(f) =~= rows.drop_last().map_values(f).push(f(rows.last())));
    }
}

/// Keeping some rows is replacing each of them by itself and the others by
/// nothing.
pub proof fn lemma_keep_is_filter_map<T>(
    rows: Seq<T>,
    pred: spec_fn(T) -> bool,
    g: spec_fn(T) -> Option<T>,
)
    requires
        forall|r: T|
            #[trigger] g(r) == if pred(r) {
                Some(r)
            } else {
                None
            },
    ensures
        keep_where(rows, pred) == filter_map(rows, g),
    decreases rows.len(),
{
    if rows.len() > 0 {
        lemma_keep_is_filter_map(rows.drop_last(), pred, g);
        assert(g(rows.last()) == if pred(rows.last()) {
            Some(rows.last())
        } else {
            None
        });
    }
}

/// Replacing rows twice is replacing them once by the combined result.
pub proof fn lemma_filter_map_twice<T>(
    rows: Seq<T>,
    f: spec_fn(T) -> Option<T>,
    g: spec_fn(T) -> Option<T>,
    h: spec_fn(T) -> Option<T>,
)
    requires
        forall|r: T|
            #[trigger] h(r) == match f(r) {
                Some(x) => g(x),
                None => None,
            },
    ensures
        filter_map(filter_map(rows, f), g) == filter_map(rows, h),
    decreases rows.len(),
{
    if rows.len() > 0 {
        let front = rows.drop_last();
        lemma_filter_map_twice(front, f, g, h);
        let last = rows.last();
        assert(h(last) == match f(last) {
            Some(x) => g(x),
            None => None,
        });
        match f(last) {
            Some(x) => {
                let once = filter_map(front, f).push(x);
                assert(once.drop_last() =~= filter_map(front, f));
                assert(once.last() == x);
            },
            None => {},
        }
    }
}

/// Whether `f` turns some row of `rows` into `row`.
pub open spec fn comes_from<T>(rows: Seq<T>, f: spec_fn(T) -> Option<T>, row: T) -> bool {
    exists|k: int| 0 <= k < rows.len() && f(#[trigger] rows[k]) == Some(row)
}

/// Every row after a replacement is the result for some row before it.
pub proof fn lemma_filter_map_rows<T>(rows: Seq<T>, f: spec_fn(T) -> Option<T>)
    ensures
        forall|i: int|
            0 <= i < filter_map(rows, f).len() ==> comes_from(
                rows,
                f,
                #[trigger] filter_map(rows, f)[i],
            ),
    decreases rows.len(),
{
    if rows.len() > 0 {
        let front = rows.drop_last();
        lemma_filter_map_rows(front, f);
        let after_front = filter_map(front, f);
        let after = filter_map(rows, f);
        assert forall|i: int| 0 <= i < after.len() implies comes_from(rows, f, #[trigger] after[i]) by {
            if i < after_front.len() {
                assert(after[i] == after_front[i]);
                assert(comes_from(front, f, after_front[i]));
                let k = choose|k: int|
                    0 <= k < front.len() && f(#[trigger] front[k]) == Some(after_front[i]);
                assert(rows[k] == front[k]);
            } else {
                assert(f(rows[rows.len() - 1]) == Some(after[i]));
            }
        }
    }
}

/// Changing rows without changing their keys leaves keys that differ.
pub proof fn lemma_map_distinct<T, K>(rows: Seq<T>, f: spec_fn(T) -> T, key: spec_fn(T) -> K)
    requires
        distinct_by(rows, key),
        forall|r: T| key(#[trigger] f(r)) == key(r),
    ensures
        distinct_by(rows.map_values(f), key),
{
    let mapped = rows.map_values(f);
    assert forall|i: int, j: int| 0 <= i < j < mapped.len() implies key(#[trigger] mapped[i])
        != key(#[trigger] mapped[j]) by {
        assert(mapped[i] == f(rows[i]) && mapped[j] == f(rows[j]));
        assert(key(rows[i]) != key(rows[j]));
    }
}

/// Adding a row whose key no row has leaves keys that differ.
pub proof fn lemma_push_distinct<T, K>(rows: Seq<T>, row: T, key: spec_fn(T) -> K)
    requires
        distinct_by(rows, key),
        forall|i: int| 0 <= i < rows.len() ==> key(#[trigger] rows[i]) != key(row),
    ensures
        distinct_by(rows.push(row), key),
{
    let pushed = rows.push(row);
    assert forall|i: int, j: int| 0 <= i < j < pushed.len() implies key(#[trigger] pushed[i])
        != key(#[trigger] pushed[j]) by {
        if j < rows.len() {
            assert(pushed[i] == rows[i] && pushed[j] == rows[j]);
        } else {
            assert(pushed[i] == rows[i]);
        }
    }
}

} // verus!
