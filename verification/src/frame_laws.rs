//! Laws of the frame operations and of the schema comparison.

use crate::frame::{
    cells_constant, column_all_null, column_constant, column_of, columns_without, count_column,
    drop_named, dupe_rows, get_dupes_spec, group_count, key_of, lemma_columns_without,
    lemma_names_where_distinct, names_where, remove_constant_spec, remove_empty_cols_spec,
    remove_empty_rows_spec, row_has_any, rows_where, select_rows, ColumnModel, FrameModel,
};
use crate::schema::{
    all_column_names, column_matches, compare_frame, compared_names, dtype_name_spec, first_dtype,
    first_occurrences,
    wanted, CompareReturn, SchemaModel,
};
use crate::text::decimal;
use vstd::prelude::*;

verus! {

/// The rows where a predicate holds are exactly those rows, in increasing order.
pub proof fn lemma_rows_where(height: nat, p: spec_fn(int) -> bool)
    ensures
        forall|k: int| 0 <= k < rows_where(height, p).len() ==> 0 <= #[trigger] rows_where(height, p)[k] < height
            && p(rows_where(height, p)[k]),
        forall|a: int, b: int|
            0 <= a < b < rows_where(height, p).len() ==> #[trigger] rows_where(height, p)[a]
                < #[trigger] rows_where(height, p)[b],
        forall|r: int| 0 <= r < height && #[trigger] p(r) ==> rows_where(height, p).contains(r),
    decreases height,
{
    if height > 0 {
        let h = (height - 1) as nat;
        lemma_rows_where(h, p);
        let prev = rows_where(h, p);
        let cur = rows_where(height, p);
        assert forall|r: int| 0 <= r < height && #[trigger] p(r) implies cur.contains(r) by {
            if r < h {
                assert(prev.contains(r));
                let k = choose|k: int| 0 <= k < prev.len() && prev[k] == r;
                assert(cur[k] == r);
            } else {
                assert(cur[cur.len() - 1] == r);
            }
        }
        assert forall|a: int, b: int| 0 <= a < b < cur.len() implies #[trigger] cur[a] < #[trigger] cur[b] by {
            if b == prev.len() {
                assert(cur[a] == prev[a]);
            }
        }
    }
}

/// What `get_dupes` keeps: exactly the rows whose key occurs more than
/// once, in their order and with their cells, each with its group size.
pub proof fn law_get_dupes_rows(
    m: FrameModel,
    keys: Seq<Seq<char>>,
    include_count: bool,
    count_name: Seq<char>,
)
    requires
        m.wf(),
    ensures
        ({
            let t = get_dupes_spec(m, keys, include_count, count_name);
            let d = dupe_rows(m, keys);
            &&& t.height == d.len()
            &&& forall|r: int| 0 <= r < m.height ==> (d.contains(r) <==> group_count(m, keys, r) > 1)
            &&& forall|a: int, b: int| 0 <= a < b < d.len() ==> #[trigger] d[a] < #[trigger] d[b]
            &&& forall|i: int| 0 <= i < d.len() ==> group_count(m, keys, #[trigger] d[i]) > 1
            &&& include_count ==> forall|i: int|
                0 <= i < d.len() ==> t.columns[m.columns.len() as int].cells[i] == Some(
                    decimal(group_count(m, keys, #[trigger] d[i])),
                )
            &&& forall|c: int, i: int|
                0 <= c < m.columns.len() && 0 <= i < d.len() && m.columns[c].name != count_name
                    ==> #[trigger] t.columns[c].cells[i] == m.columns[c].cells[d[i]]
        }),
{
    let p = |r: int| group_count(m, keys, r) > 1;
    lemma_rows_where(m.height, p);
    let d = dupe_rows(m, keys);
    assert forall|r: int| 0 <= r < m.height implies (d.contains(r) <==> group_count(m, keys, r) > 1) by {
        if d.contains(r) {
            let k = choose|k: int| 0 <= k < d.len() && d[k] == r;
            assert(p(d[k]));
        } else {
            if p(r) {
                assert(d.contains(r));
            }
        }
    }
    assert forall|i: int| 0 <= i < d.len() implies group_count(m, keys, #[trigger] d[i]) > 1 by {
        assert(p(d[i]));
    }
}

/// Every row counts itself: a row's group has at least one row.
pub proof fn law_group_counts_itself(m: FrameModel, keys: Seq<Seq<char>>, r: int)
    requires
        0 <= r < m.height,
    ensures
        group_count(m, keys, r) >= 1,
{
    let p = |q: int| key_of(m, keys, q) == key_of(m, keys, r);
    lemma_rows_where(m.height, p);
    assert(p(r));
    assert(rows_where(m.height, p).contains(r));
}

/// After removing empty rows, every row has a value in some selected
/// column, and every row of the frame that had one is still there.
pub proof fn law_remove_empty_rows(m: FrameModel, selected: Seq<Seq<char>>)
    requires
        m.wf(),
        selected.len() > 0,
    ensures
        ({
            let kept = rows_where(m.height, |r: int| row_has_any(m, selected, r));
            &&& remove_empty_rows_spec(m, selected) == select_rows(m, kept)
            &&& forall|k: int| 0 <= k < kept.len() ==> row_has_any(m, selected, #[trigger] kept[k])
            &&& forall|r: int| 0 <= r < m.height && row_has_any(m, selected, r) ==> kept.contains(r)
        }),
{
    let p = |r: int| row_has_any(m, selected, r);
    lemma_rows_where(m.height, p);
    let kept = rows_where(m.height, p);
    assert forall|k: int| 0 <= k < kept.len() implies row_has_any(m, selected, #[trigger] kept[k]) by {
        assert(p(kept[k]));
    }
    assert forall|r: int| 0 <= r < m.height && row_has_any(m, selected, r) implies kept.contains(r) by {
        assert(p(r));
    }
}

proof fn lemma_first_occurrences_distinct(names: Seq<Seq<char>>)
    requires
        names.no_duplicates(),
    ensures
        first_occurrences(names) == names,
    decreases names.len(),
{
    if names.len() > 0 {
        let d = names.drop_last();
        lemma_first_occurrences_distinct(d);
        if d.contains(names.last()) {
            let k = choose|k: int| 0 <= k < d.len() && d[k] == names.last();
            assert(names[k] == names[names.len() - 1]);
        }
        assert(d.push(names.last()) =~= names);
    }
}

proof fn lemma_first_occurrences_contains(names: Seq<Seq<char>>)
    ensures
        forall|x: Seq<char>| first_occurrences(names).contains(x) <==> names.contains(x),
    decreases names.len(),
{
    if names.len() > 0 {
        let d = names.drop_last();
        let l = names.last();
        lemma_first_occurrences_contains(d);
        assert forall|x: Seq<char>| names.contains(x) <==> (d.contains(x) || x == l) by {
            if names.contains(x) {
                let k = choose|k: int| 0 <= k < names.len() && names[k] == x;
                if k < d.len() {
                    assert(d[k] == x);
                }
            }
            if d.contains(x) {
                let k = choose|k: int| 0 <= k < d.len() && d[k] == x;
                assert(names[k] == x);
            }
            if x == l {
                assert(names[names.len() - 1] == x);
            }
        }
        let f = first_occurrences(d);
        assert forall|x: Seq<char>| f.push(l).contains(x) <==> (f.contains(x) || x == l) by {
            if f.push(l).contains(x) {
                let k = choose|k: int| 0 <= k < f.push(l).len() && f.push(l)[k] == x;
                if k < f.len() {
                    assert(f[k] == x);
                }
            }
            if f.contains(x) {
                let k = choose|k: int| 0 <= k < f.len() && f[k] == x;
                assert(f.push(l)[k] == x);
            }
            if x == l {
                assert(f.push(l)[f.len() as int] == x);
            }
        }
    }
}

proof fn lemma_first_dtype_present(columns: Seq<(Seq<char>, Seq<char>)>, name: Seq<char>)
    requires
        columns.map_values(|c: (Seq<char>, Seq<char>)| c.0).contains(name),
    ensures
        first_dtype(columns, name) is Some,
    decreases columns.len(),
{
    let names = columns.map_values(|c: (Seq<char>, Seq<char>)| c.0);
    if columns[0].0 != name {
        let k = choose|k: int| 0 <= k < names.len() && names[k] == name;
        assert(k > 0);
        let rest = columns.drop_first();
        assert(rest.map_values(|c: (Seq<char>, Seq<char>)| c.0)[k - 1] == name);
        lemma_first_dtype_present(rest, name);
    }
}

proof fn lemma_all_names_of_same_columns(schemas: Seq<SchemaModel>, names: Seq<Seq<char>>)
    requires
        schemas.len() >= 1,
        forall|i: int| 0 <= i < schemas.len() ==> (#[trigger] schemas[i]).columns == schemas[0].columns,
        names == schemas[0].columns.map_values(|c: (Seq<char>, Seq<char>)| c.0),
    ensures
        first_occurrences(all_column_names(schemas)) == first_occurrences(names),
        forall|x: Seq<char>| all_column_names(schemas).contains(x) ==> names.contains(x),
    decreases schemas.len(),
{
    let d = schemas.drop_last();
    assert(schemas.last().columns == schemas[0].columns);
    if schemas.len() == 1 {
        assert(d =~= Seq::<SchemaModel>::empty());
        assert(all_column_names(d) =~= Seq::<Seq<char>>::empty());
        assert(all_column_names(schemas) == all_column_names(d) + names);
        assert(all_column_names(schemas) =~= names);
    } else {
        assert forall|i: int| 0 <= i < d.len() implies (#[trigger] d[i]).columns == d[0].columns by {
            assert(d[i] == schemas[i]);
        }
        lemma_all_names_of_same_columns(d, names);
        let all_d = all_column_names(d);
        assert(all_column_names(schemas) == all_d + names);
        assert forall|k: int| 0 <= k < names.len() implies all_d.contains(#[trigger] names[k]) by {
            lemma_all_names_contain(d, names, k);
        }
        lemma_first_occurrences_append_seen(all_d, names);
        assert forall|x: Seq<char>| all_column_names(schemas).contains(x) implies names.contains(x) by {
            let j = choose|j: int| 0 <= j < (all_d + names).len() && (all_d + names)[j] == x;
            if j < all_d.len() {
                assert(all_d.contains(x));
            } else {
                assert(names[j - all_d.len()] == x);
            }
        }
    }
}

proof fn lemma_all_names_contain(schemas: Seq<SchemaModel>, names: Seq<Seq<char>>, k: int)
    requires
        schemas.len() >= 1,
        forall|i: int| 0 <= i < schemas.len() ==> (#[trigger] schemas[i]).columns == schemas[0].columns,
        names == schemas[0].columns.map_values(|c: (Seq<char>, Seq<char>)| c.0),
        0 <= k < names.len(),
    ensures
        all_column_names(schemas).contains(names[k]),
{
    let d = schemas.drop_last();
    assert(schemas.last().columns == schemas[0].columns);
    let all = all_column_names(schemas);
    assert(all == all_column_names(d) + names);
    assert(all[all_column_names(d).len() + k] == names[k]);
}

/// Frames that all have the same columns compare as the same: every
/// compared column matches, and, with distinct column names, there are as
/// many compared columns as columns.
pub proof fn law_identical_schemas_match(schemas: Seq<SchemaModel>)
    requires
        schemas.len() >= 1,
        forall|i: int| 0 <= i < schemas.len() ==> (#[trigger] schemas[i]).columns == schemas[0].columns,
    ensures
        forall|k: int|
            0 <= k < compared_names(schemas).len() ==> column_matches(
                schemas,
                #[trigger] compared_names(schemas)[k],
            ),
        schemas[0].columns.map_values(|c: (Seq<char>, Seq<char>)| c.0).no_duplicates() ==> compared_names(
            schemas,
        ).len() == schemas[0].columns.len(),
{
    let names = schemas[0].columns.map_values(|c: (Seq<char>, Seq<char>)| c.0);
    lemma_all_names_of_same_columns(schemas, names);
    lemma_first_occurrences_contains(all_column_names(schemas));
    assert forall|k: int| 0 <= k < compared_names(schemas).len() implies column_matches(
        schemas,
        #[trigger] compared_names(schemas)[k],
    ) by {
        let n = compared_names(schemas)[k];
        assert(compared_names(schemas).contains(n));
        assert(all_column_names(schemas).contains(n));
        assert(names.contains(n));
        lemma_first_dtype_present(schemas[0].columns, n);
        assert forall|i: int| 0 <= i < schemas.len() implies (#[trigger] first_dtype(schemas[i].columns, n)) is Some
            && first_dtype(schemas[i].columns, n) == first_dtype(schemas[0].columns, n) by {
            assert(schemas[i].columns == schemas[0].columns);
        }
    }
    if names.no_duplicates() {
        lemma_first_occurrences_distinct(names);
    }
}

proof fn lemma_first_occurrences_append_seen(x: Seq<Seq<char>>, y: Seq<Seq<char>>)
    requires
        forall|k: int| 0 <= k < y.len() ==> x.contains(#[trigger] y[k]),
    ensures
        first_occurrences(x + y) == first_occurrences(x),
    decreases y.len(),
{
    if y.len() == 0 {
        assert(x + y =~= x);
    } else {
        let yd = y.drop_last();
        lemma_first_occurrences_append_seen(x, yd);
        assert((x + y).drop_last() =~= x + yd);
        lemma_first_occurrences_contains(x);
        assert(x.contains(y[y.len() - 1]));
    }
}

/// Two predicates that are each other's negation split the names: the
/// names each accepts are together as many as all names, and the first
/// accepts none exactly when it refuses every name.
proof fn lemma_names_where_split(
    names: Seq<Seq<char>>,
    p: spec_fn(Seq<char>) -> bool,
    q: spec_fn(Seq<char>) -> bool,
)
    requires
        forall|n: Seq<char>| #[trigger] q(n) == !p(n),
    ensures
        names_where(names, p).len() + names_where(names, q).len() == names.len(),
        names_where(names, p).len() == 0 <==> forall|k: int| 0 <= k < names.len() ==> !p(#[trigger] names[k]),
    decreases names.len(),
{
    if names.len() > 0 {
        let d = names.drop_last();
        lemma_names_where_split(d, p, q);
        assert(q(names.last()) == !p(names.last()));
        if names_where(names, p).len() == 0 {
            assert forall|k: int| 0 <= k < names.len() implies !p(#[trigger] names[k]) by {
                if k < d.len() {
                    assert(d[k] == names[k]);
                }
            }
        }
        if forall|k: int| 0 <= k < names.len() ==> !p(#[trigger] names[k]) {
            assert forall|k: int| 0 <= k < d.len() implies !p(#[trigger] d[k]) by {
                assert(d[k] == names[k]);
            }
            assert(!p(names[names.len() - 1]));
        }
    }
}

/// The frames compare as the same exactly when the `mismatch` table has no
/// rows, and the `match` and `mismatch` tables together have as many rows
/// as the full table.
pub proof fn law_same_iff_no_mismatch(schemas: Seq<SchemaModel>)
    ensures
        (forall|k: int|
            0 <= k < compared_names(schemas).len() ==> column_matches(
                schemas,
                #[trigger] compared_names(schemas)[k],
            )) <==> compare_frame(schemas, CompareReturn::Mismatch).height == 0,
        compare_frame(schemas, CompareReturn::Match).height + compare_frame(
            schemas,
            CompareReturn::Mismatch,
        ).height == compare_frame(schemas, CompareReturn::All).height,
{
    let names = compared_names(schemas);
    let matches = |n: Seq<char>| column_matches(schemas, n);
    let differs = |n: Seq<char>| !column_matches(schemas, n);
    let all = |n: Seq<char>| true;
    let none = |n: Seq<char>| false;
    lemma_names_where_split(names, differs, matches);
    lemma_names_where_split(names, matches, differs);
    lemma_names_where_split(names, none, all);
    assert(names_where(names, none).len() == 0);
    assert(compare_frame(schemas, CompareReturn::Match).height == names_where(names, matches).len()) by {
        assert((|n: Seq<char>| wanted(schemas, CompareReturn::Match, n)) =~= matches);
    }
    assert(compare_frame(schemas, CompareReturn::Mismatch).height == names_where(names, differs).len()) by {
        assert((|n: Seq<char>| wanted(schemas, CompareReturn::Mismatch, n)) =~= differs);
    }
    assert(compare_frame(schemas, CompareReturn::All).height == names_where(names, all).len()) by {
        assert((|n: Seq<char>| wanted(schemas, CompareReturn::All, n)) =~= all);
    }
}

/// Each name that `names_where` gives is one of the names and accepted by
/// `p`, and each accepted name is among those it gives.
proof fn lemma_names_where_members(names: Seq<Seq<char>>, p: spec_fn(Seq<char>) -> bool)
    ensures
        forall|k: int|
            0 <= k < names_where(names, p).len() ==> names.contains(#[trigger] names_where(names, p)[k])
                && p(names_where(names, p)[k]),
        forall|x: Seq<char>| names.contains(x) && p(x) ==> #[trigger] names_where(names, p).contains(x),
    decreases names.len(),
{
    if names.len() > 0 {
        let d = names.drop_last();
        lemma_names_where_members(d, p);
        let r = names_where(names, p);
        let q = names_where(d, p);
        assert forall|k: int| 0 <= k < r.len() implies names.contains(#[trigger] r[k]) && p(r[k]) by {
            if k < q.len() {
                assert(r[k] == q[k]);
                let j = choose|j: int| 0 <= j < d.len() && d[j] == q[k];
                assert(names[j] == q[k]);
            } else {
                assert(r[k] == names[names.len() - 1]);
            }
        }
        assert forall|x: Seq<char>| names.contains(x) && p(x) implies #[trigger] r.contains(x) by {
            let j = choose|j: int| 0 <= j < names.len() && names[j] == x;
            if j < d.len() {
                assert(d[j] == x);
                assert(q.contains(x));
                let k = choose|k: int| 0 <= k < q.len() && q[k] == x;
                assert(r[k] == x);
            } else {
                assert(r[r.len() - 1] == x);
            }
        }
    }
}

/// Dropping no names keeps every column.
proof fn lemma_columns_without_nothing(columns: Seq<ColumnModel>, drop: Seq<Seq<char>>)
    requires
        drop.len() == 0,
    ensures
        columns_without(columns, drop) == columns,
    decreases columns.len(),
{
    if columns.len() > 0 {
        lemma_columns_without_nothing(columns.drop_last(), drop);
        assert(!drop.contains(columns.last().name));
        assert(columns.drop_last().push(columns.last()) =~= columns);
    }
}

/// In a frame with distinct names, the column called by the name of its
/// column `k` is that column.
proof fn lemma_column_of_at(m: FrameModel, k: int)
    requires
        m.names().no_duplicates(),
        0 <= k < m.columns.len(),
    ensures
        column_of(m, m.columns[k].name) == m.columns[k],
{
    let name = m.columns[k].name;
    assert(0 <= k < m.columns.len() && m.columns[k].name == name);
    let i = crate::frame::column_index(m, name);
    assert(m.names()[i] == m.names()[k]);
}

/// Dropping the columns that a test on columns picks leaves a well-formed
/// frame of columns of the frame, none of which the test picks; dropping
/// the picked columns of that frame again changes nothing.
proof fn lemma_drop_picked(m: FrameModel, pick: spec_fn(ColumnModel) -> bool)
    requires
        m.wf(),
    ensures
        ({
            let t = drop_named(m, names_where(m.names(), |s: Seq<char>| pick(column_of(m, s))));
            &&& t.wf()
            &&& t.height == m.height
            &&& forall|k: int| 0 <= k < t.columns.len() ==> !pick(#[trigger] t.columns[k])
            &&& forall|k: int| 0 <= k < t.columns.len() ==> column_of(t, t.columns[k].name) == t.columns[k]
            &&& drop_named(t, names_where(t.names(), |s: Seq<char>| pick(column_of(t, s)))) == t
        }),
{
    let drop = names_where(m.names(), |s: Seq<char>| pick(column_of(m, s)));
    let t = drop_named(m, drop);
    lemma_columns_without(m.columns, drop);
    lemma_names_where_distinct(m.names(), |x: Seq<char>| !drop.contains(x));
    lemma_names_where_members(m.names(), |x: Seq<char>| !drop.contains(x));
    lemma_names_where_members(m.names(), |s: Seq<char>| pick(column_of(m, s)));
    assert(t.names() =~= columns_without(m.columns, drop).map_values(|c: ColumnModel| c.name));
    assert forall|k: int| 0 <= k < t.columns.len() implies #[trigger] t.columns[k].cells.len() == t.height by {
        assert(m.columns.contains(t.columns[k]));
    }
    assert forall|k: int| 0 <= k < t.columns.len() implies column_of(t, t.columns[k].name) == t.columns[k] by {
        lemma_column_of_at(t, k);
    }
    assert forall|k: int| 0 <= k < t.columns.len() implies !pick(#[trigger] t.columns[k]) by {
        let c = t.columns[k];
        assert(m.columns.contains(c));
        let j = choose|j: int| 0 <= j < m.columns.len() && m.columns[j] == c;
        lemma_column_of_at(m, j);
        assert(t.names()[k] == c.name);
        assert(!drop.contains(c.name));
        assert(m.names()[j] == c.name);
        assert(m.names().contains(c.name));
    }
    let again = names_where(t.names(), |s: Seq<char>| pick(column_of(t, s)));
    lemma_names_where_members(t.names(), |s: Seq<char>| pick(column_of(t, s)));
    if again.len() > 0 {
        let x = again[0];
        assert(t.names().contains(x));
        let k = choose|k: int| 0 <= k < t.names().len() && t.names()[k] == x;
        assert(t.columns[k].name == x);
        assert(!pick(t.columns[k]));
    }
    lemma_columns_without_nothing(t.columns, again);
}

/// Removing the constant columns, over all columns, leaves no constant
/// column, and doing it again changes nothing.
pub proof fn law_remove_constant_idempotent(m: FrameModel, ignore_nulls: bool)
    requires
        m.wf(),
    ensures
        ({
            let t = remove_constant_spec(m, m.names(), ignore_nulls);
            &&& t.wf()
            &&& forall|k: int|
                0 <= k < t.columns.len() ==> !column_constant(t, #[trigger] t.columns[k].name, ignore_nulls)
            &&& remove_constant_spec(t, t.names(), ignore_nulls) == t
        }),
{
    let pick = |c: ColumnModel| cells_constant(c.cells, ignore_nulls);
    assert((|s: Seq<char>| column_constant(m, s, ignore_nulls)) =~= (|s: Seq<char>| pick(column_of(m, s))));
    lemma_drop_picked(m, pick);
    let t = remove_constant_spec(m, m.names(), ignore_nulls);
    assert((|s: Seq<char>| column_constant(t, s, ignore_nulls)) =~= (|s: Seq<char>| pick(column_of(t, s))));
    assert forall|k: int| 0 <= k < t.columns.len() implies !column_constant(
        t,
        #[trigger] t.columns[k].name,
        ignore_nulls,
    ) by {
        assert(!pick(t.columns[k]));
    }
}

/// Removing the columns without a value, over all columns, leaves only
/// columns with a value, and doing it again changes nothing.
pub proof fn law_remove_empty_cols_idempotent(m: FrameModel)
    requires
        m.wf(),
    ensures
        ({
            let t = remove_empty_cols_spec(m, m.names());
            &&& t.wf()
            &&& forall|k: int| 0 <= k < t.columns.len() ==> !column_all_null(t, #[trigger] t.columns[k].name)
            &&& remove_empty_cols_spec(t, t.names()) == t
        }),
{
    let h = m.height;
    let pick = |c: ColumnModel| forall|r: int| 0 <= r < h ==> (#[trigger] c.cells[r]) is None;
    assert((|s: Seq<char>| column_all_null(m, s)) =~= (|s: Seq<char>| pick(column_of(m, s))));
    lemma_drop_picked(m, pick);
    let t = remove_empty_cols_spec(m, m.names());
    assert((|s: Seq<char>| column_all_null(t, s)) =~= (|s: Seq<char>| pick(column_of(t, s))));
    assert forall|k: int| 0 <= k < t.columns.len() implies !column_all_null(t, #[trigger] t.columns[k].name) by {
        assert(!pick(t.columns[k]));
    }
}

/// When every row passes, the rows where the test holds are all rows.
proof fn lemma_rows_where_all(height: nat, p: spec_fn(int) -> bool)
    requires
        forall|r: int| 0 <= r < height ==> #[trigger] p(r),
    ensures
        rows_where(height, p) == Seq::new(height, |i: int| i),
    decreases height,
{
    if height > 0 {
        lemma_rows_where_all((height - 1) as nat, p);
        assert(p(height - 1));
        assert(Seq::new((height - 1) as nat, |i: int| i).push(height - 1) =~= Seq::new(height, |i: int| i));
    } else {
        assert(rows_where(0, p) =~= Seq::new(0, |i: int| i));
    }
}

/// Removing the rows without a value, over all columns, keeps the columns'
/// names, leaves (in a frame with columns) only rows with a value, and doing
/// it again changes nothing.
pub proof fn law_remove_empty_rows_idempotent(m: FrameModel)
    requires
        m.wf(),
    ensures
        ({
            let t = remove_empty_rows_spec(m, m.names());
            &&& t.wf()
            &&& t.names() == m.names()
            &&& m.columns.len() > 0 ==> forall|r: int| 0 <= r < t.height ==> row_has_any(t, t.names(), r)
            &&& remove_empty_rows_spec(t, t.names()) == t
        }),
{
    let names = m.names();
    if names.len() == 0 {
        return;
    }
    let p = |r: int| row_has_any(m, names, r);
    let kept = rows_where(m.height, p);
    lemma_rows_where(m.height, p);
    let t = select_rows(m, kept);
    assert(t.names() =~= names);
    assert forall|i: int| 0 <= i < names.len() implies #[trigger] column_of(t, names[i]) == crate::frame::column_rows(
        column_of(m, names[i]),
        kept,
    ) by {
        assert(m.columns[i].name == names[i]);
        lemma_column_of_at(m, i);
        lemma_column_of_at(t, i);
    }
    assert forall|r: int| 0 <= r < t.height implies row_has_any(t, t.names(), r) by {
        assert(p(kept[r]));
        let s = choose|s: int| 0 <= s < names.len() && (#[trigger] column_of(m, names[s])).cells[kept[r]] is Some;
        assert(column_of(t, names[s]).cells[r] == column_of(m, names[s]).cells[kept[r]]);
    }
    let q = |r: int| row_has_any(t, t.names(), r);
    assert forall|r: int| 0 <= r < t.height implies #[trigger] q(r) by {}
    lemma_rows_where_all(t.height, q);
    let again = select_rows(t, Seq::new(t.height, |i: int| i));
    assert forall|k: int| 0 <= k < t.columns.len() implies #[trigger] again.columns[k] == t.columns[k] by {
        assert(t.columns[k].cells.len() == t.height);
        assert(again.columns[k].cells =~= t.columns[k].cells);
    }
    assert(again.columns =~= t.columns);
}

} // verus!
verus! {

/// A header cell's text is its value with the white space at both ends
/// trimmed, and a missing value gives no text; a row of a header search
/// holds the value `v` in column `c` exactly when that cell has a value
/// whose trimmed text is not empty and equals `v` trimmed; and the rows of
/// a header row read as the trimmed texts of its cells.
pub proof fn law_header_cells_are_trimmed(m: FrameModel, c: int, r: int, v: Seq<char>, t: Seq<char>)
    requires
        0 <= c < m.columns.len(),
    ensures
        crate::frame::header_text(Some(t)) == crate::text::trim(t),
        crate::frame::header_text(None) == Seq::<char>::empty(),
        crate::frame::row_has_value(m, c, r, crate::text::trim(v)) <==> (m.columns[c].cells[r] matches Some(
            x,
        ) && crate::text::trim(x).len() > 0 && crate::text::trim(x) == crate::text::trim(v)),
        crate::frame::header_row(m, r)[c] == (match m.columns[c].cells[r] {
            Some(x) => crate::text::trim(x),
            None => Seq::<char>::empty(),
        }),
{
}

/// The row that a header search by value finds has, in the searched
/// column, a value whose trimmed text is the searched value trimmed (and not
/// empty), and no earlier row has one; when no row has one, the search is
/// refused.
pub proof fn law_header_search_by_value(
    m: FrameModel,
    c: int,
    v: Seq<char>,
    res: Result<usize, crate::frame::JanitorError>,
)
    requires
        0 <= c < m.columns.len(),
        crate::frame::first_row_result(
            res,
            m.height,
            |k: int| crate::frame::row_has_value(m, c, k, crate::text::trim(v)),
        ),
    ensures
        res matches Ok(r) ==> r < m.height && (m.columns[c].cells[r as int] matches Some(x)
            && crate::text::trim(x).len() > 0 && crate::text::trim(x) == crate::text::trim(v)),
        res matches Ok(r) ==> forall|k: int|
            0 <= k < r ==> !(#[trigger] m.columns[c].cells[k] matches Some(x) && crate::text::trim(x).len()
                > 0 && crate::text::trim(x) == crate::text::trim(v)),
        res is Err ==> forall|k: int|
            0 <= k < m.height ==> !(#[trigger] m.columns[c].cells[k] matches Some(x) && crate::text::trim(
                x,
            ).len() > 0 && crate::text::trim(x) == crate::text::trim(v)),
{
    let p = |k: int| crate::frame::row_has_value(m, c, k, crate::text::trim(v));
    if res is Err {
        assert forall|k: int| 0 <= k < m.height implies !(#[trigger] m.columns[c].cells[k] matches Some(x)
            && crate::text::trim(x).len() > 0 && crate::text::trim(x) == crate::text::trim(v)) by {
            if m.columns[c].cells[k] matches Some(x) && crate::text::trim(x).len() > 0 && crate::text::trim(x)
                == crate::text::trim(v) {
                assert(p(k));
            }
        }
    } else {
        let r = res->Ok_0;
        assert(p(r as int));
        assert forall|k: int| 0 <= k < r implies !(#[trigger] m.columns[c].cells[k] matches Some(x)
            && crate::text::trim(x).len() > 0 && crate::text::trim(x) == crate::text::trim(v)) by {
            assert(!p(k));
        }
    }
}

} // verus!
verus! {

/// The name under which each Polars short type name is reported: `bool`
/// Boolean, `str` String, `i8`..`i128` Int8..Int128, `u8`..`u128`
/// UInt8..UInt128, `f32` Float32, `f64` Float64, `null` Null; distinct
/// short names get distinct names, and any other type keeps its display
/// name.
pub proof fn law_dtype_names(display: Seq<char>)
    ensures
        dtype_name_spec("bool"@) == "Boolean"@,
        dtype_name_spec("str"@) == "String"@,
        dtype_name_spec("i8"@) == "Int8"@,
        dtype_name_spec("i16"@) == "Int16"@,
        dtype_name_spec("i32"@) == "Int32"@,
        dtype_name_spec("i64"@) == "Int64"@,
        dtype_name_spec("i128"@) == "Int128"@,
        dtype_name_spec("u8"@) == "UInt8"@,
        dtype_name_spec("u16"@) == "UInt16"@,
        dtype_name_spec("u32"@) == "UInt32"@,
        dtype_name_spec("u64"@) == "UInt64"@,
        dtype_name_spec("u128"@) == "UInt128"@,
        dtype_name_spec("f32"@) == "Float32"@,
        dtype_name_spec("f64"@) == "Float64"@,
        dtype_name_spec("null"@) == "Null"@,
        !(display == "bool"@ || display == "str"@ || display == "i8"@ || display == "i16"@ || display == "i32"@ || display == "i64"@ || display == "i128"@ || display == "u8"@ || display == "u16"@ || display == "u32"@ || display == "u64"@ || display == "u128"@ || display == "f32"@ || display == "f64"@ || display == "null"@) ==> dtype_name_spec(display) == display,
{
    reveal_strlit("bool");
    reveal_strlit("Boolean");
    reveal_strlit("str");
    reveal_strlit("String");
    reveal_strlit("i8");
    reveal_strlit("Int8");
    reveal_strlit("i16");
    reveal_strlit("Int16");
    reveal_strlit("i32");
    reveal_strlit("Int32");
    reveal_strlit("i64");
    reveal_strlit("Int64");
    reveal_strlit("i128");
    reveal_strlit("Int128");
    reveal_strlit("u8");
    reveal_strlit("UInt8");
    reveal_strlit("u16");
    reveal_strlit("UInt16");
    reveal_strlit("u32");
    reveal_strlit("UInt32");
    reveal_strlit("u64");
    reveal_strlit("UInt64");
    reveal_strlit("u128");
    reveal_strlit("UInt128");
    reveal_strlit("f32");
    reveal_strlit("Float32");
    reveal_strlit("f64");
    reveal_strlit("Float64");
    reveal_strlit("null");
    reveal_strlit("Null");
    assert("bool"@ =~= seq!['b', 'o', 'o', 'l']);
    assert("str"@ =~= seq!['s', 't', 'r']);
    assert("i8"@ =~= seq!['i', '8']);
    assert("i16"@ =~= seq!['i', '1', '6']);
    assert("i32"@ =~= seq!['i', '3', '2']);
    assert("i64"@ =~= seq!['i', '6', '4']);
    assert("i128"@ =~= seq!['i', '1', '2', '8']);
    assert("u8"@ =~= seq!['u', '8']);
    assert("u16"@ =~= seq!['u', '1', '6']);
    assert("u32"@ =~= seq!['u', '3', '2']);
    assert("u64"@ =~= seq!['u', '6', '4']);
    assert("u128"@ =~= seq!['u', '1', '2', '8']);
    assert("f32"@ =~= seq!['f', '3', '2']);
    assert("f64"@ =~= seq!['f', '6', '4']);
    assert("null"@ =~= seq!['n', 'u', 'l', 'l']);
}

} // verus!
verus! {

/// Every counted cell (every cell, or every present cell when missing
/// values are ignored) holds `v`.
pub open spec fn counted_cells_are(cells: Seq<Option<Seq<char>>>, ignore_nulls: bool, v: Option<Seq<char>>) -> bool {
    forall|i: int| 0 <= i < cells.len() && (!ignore_nulls || cells[i] is Some) ==> #[trigger] cells[i] == v
}

/// A column counts as constant exactly when one value is shared by all its
/// counted cells (every cell, or only the present ones when missing values
/// are ignored), wherever the missing cells sit.
pub proof fn law_constant_cells(cells: Seq<Option<Seq<char>>>, ignore_nulls: bool)
    ensures
        cells_constant(cells, ignore_nulls) <==> exists|v: Option<Seq<char>>|
            #[trigger] counted_cells_are(cells, ignore_nulls, v),
{
    if cells_constant(cells, ignore_nulls) {
        if exists|i: int| 0 <= i < cells.len() && (!ignore_nulls || #[trigger] cells[i] is Some) {
            let i0 = choose|i: int| 0 <= i < cells.len() && (!ignore_nulls || #[trigger] cells[i] is Some);
            let v = cells[i0];
            assert forall|i: int| 0 <= i < cells.len() && (!ignore_nulls || cells[i] is Some) implies #[trigger] cells[i] == v by {
                assert(crate::frame::counted(cells[i], ignore_nulls));
                assert(crate::frame::counted(cells[i0], ignore_nulls));
            }
            assert(counted_cells_are(cells, ignore_nulls, v));
        } else {
            let v: Option<Seq<char>> = None;
            assert(counted_cells_are(cells, ignore_nulls, v));
        }
    }
}

proof fn lemma_columns_without_members(columns: Seq<ColumnModel>, drop: Seq<Seq<char>>)
    ensures
        forall|c: ColumnModel|
            #[trigger] columns_without(columns, drop).contains(c) <==> columns.contains(c) && !drop.contains(c.name),
    decreases columns.len(),
{
    if columns.len() > 0 {
        let d = columns.drop_last();
        lemma_columns_without_members(d, drop);
        let r = columns_without(columns, drop);
        let q = columns_without(d, drop);
        assert forall|c: ColumnModel| #[trigger] r.contains(c) <==> columns.contains(c) && !drop.contains(c.name) by {
            if r.contains(c) {
                let k = choose|k: int| 0 <= k < r.len() && r[k] == c;
                if k < q.len() {
                    assert(r[k] == q[k]);
                    assert(q.contains(c));
                    let j = choose|j: int| 0 <= j < d.len() && d[j] == c;
                    assert(columns[j] == c);
                } else {
                    assert(c == columns.last());
                    assert(columns[columns.len() - 1] == c);
                }
            }
            if columns.contains(c) && !drop.contains(c.name) {
                let j = choose|j: int| 0 <= j < columns.len() && columns[j] == c;
                if j < d.len() {
                    assert(d[j] == c);
                    assert(q.contains(c));
                    let k = choose|k: int| 0 <= k < q.len() && q[k] == c;
                    assert(r[k] == c);
                } else {
                    assert(r[r.len() - 1] == c);
                }
            }
        }
    }
}

/// Removing constant columns keeps exactly the columns of the frame that
/// are not selected or whose counted cells do not all share one value:
/// with missing values ignored, a selected column whose present cells are
/// all equal is removed, whatever lies in its missing cells.
pub proof fn law_remove_constant_columns(m: FrameModel, selected: Seq<Seq<char>>, ignore_nulls: bool, k: int)
    requires
        m.wf(),
        0 <= k < m.columns.len(),
    ensures
        ({
            let t = remove_constant_spec(m, selected, ignore_nulls);
            let col = m.columns[k];
            &&& forall|j: int| 0 <= j < t.columns.len() ==> m.columns.contains(#[trigger] t.columns[j])
            &&& t.columns.contains(col) <==> !(selected.contains(col.name) && exists|v: Option<Seq<char>>|
                #[trigger] counted_cells_are(col.cells, ignore_nulls, v))
        }),
{
    let p = |s: Seq<char>| column_constant(m, s, ignore_nulls);
    let drop = names_where(selected, p);
    let col = m.columns[k];
    lemma_columns_without(m.columns, drop);
    lemma_columns_without_members(m.columns, drop);
    lemma_names_where_members(selected, p);
    lemma_column_of_at(m, k);
    law_constant_cells(col.cells, ignore_nulls);
    assert(m.columns.contains(col));
    assert(drop.contains(col.name) <==> selected.contains(col.name) && p(col.name));
}

} // verus!
verus! {

/// Row `q` agrees with row `r` on every key column.
pub open spec fn agree_on_keys(m: FrameModel, keys: Seq<Seq<char>>, q: int, r: int) -> bool {
    forall|k: int| 0 <= k < keys.len() ==> #[trigger] column_of(m, keys[k]).cells[q] == column_of(m, keys[k]).cells[r]
}

/// Two rows are in the same group exactly when they agree on every key
/// column: a row's key has one entry per key column, that column's cell.
pub proof fn law_key_of_rows(m: FrameModel, keys: Seq<Seq<char>>, q: int, r: int)
    ensures
        key_of(m, keys, r).len() == keys.len(),
        forall|k: int| 0 <= k < keys.len() ==> #[trigger] key_of(m, keys, r)[k] == column_of(m, keys[k]).cells[r],
        key_of(m, keys, q) == key_of(m, keys, r) <==> agree_on_keys(m, keys, q, r),
{
    if agree_on_keys(m, keys, q, r) {
        assert(key_of(m, keys, q) =~= key_of(m, keys, r));
    }
    if key_of(m, keys, q) == key_of(m, keys, r) {
        assert forall|k: int| 0 <= k < keys.len() implies #[trigger] column_of(m, keys[k]).cells[q] == column_of(
            m,
            keys[k],
        ).cells[r] by {
            assert(key_of(m, keys, q)[k] == key_of(m, keys, r)[k]);
        }
    }
}

/// The size of a row's group is the number of rows that agree with it on
/// every key column, and `get_dupes` keeps a row exactly when some other
/// row agrees with it on every key column.
pub proof fn law_dupe_groups(m: FrameModel, keys: Seq<Seq<char>>, r: int)
    requires
        0 <= r < m.height,
    ensures
        group_count(m, keys, r) == rows_where(m.height, |q: int| agree_on_keys(m, keys, q, r)).len(),
        dupe_rows(m, keys).contains(r) <==> exists|q: int|
            0 <= q < m.height && q != r && #[trigger] agree_on_keys(m, keys, q, r),
{
    let same = |q: int| key_of(m, keys, q) == key_of(m, keys, r);
    let agree = |q: int| agree_on_keys(m, keys, q, r);
    assert forall|q: int| #[trigger] same(q) == agree(q) by {
        law_key_of_rows(m, keys, q, r);
    }
    assert(same =~= agree);
    let rows = rows_where(m.height, same);
    lemma_rows_where(m.height, same);
    assert(same(r));
    assert(rows.contains(r));
    let p = |x: int| group_count(m, keys, x) > 1;
    lemma_rows_where(m.height, p);
    if exists|q: int| 0 <= q < m.height && q != r && #[trigger] agree_on_keys(m, keys, q, r) {
        let q = choose|q: int| 0 <= q < m.height && q != r && #[trigger] agree_on_keys(m, keys, q, r);
        assert(same(q));
        assert(rows.contains(q));
        let a = choose|a: int| 0 <= a < rows.len() && rows[a] == q;
        let b = choose|b: int| 0 <= b < rows.len() && rows[b] == r;
        assert(a != b);
        assert(rows.len() > 1);
        assert(p(r));
    }
    if dupe_rows(m, keys).contains(r) {
        let k = choose|k: int| 0 <= k < dupe_rows(m, keys).len() && dupe_rows(m, keys)[k] == r;
        assert(p(dupe_rows(m, keys)[k]));
        assert(rows.len() > 1);
        let q = if rows[0] != r { rows[0] } else { rows[1] };
        assert(same(q));
        assert(agree_on_keys(m, keys, q, r));
        assert(0 <= q < m.height && q != r);
    }
}

} // verus!
verus! {

/// The names each option is chosen by: the case styles `snake`, `camel`,
/// `pascal`, `constant`; the axes `rows`, `cols`, `both`; the comparison
/// returns `all`, `match`, `mismatch`.
pub proof fn law_option_names()
    ensures
        crate::names::case_style_of("snake"@) == Some(crate::names::CaseStyle::Snake),
        crate::names::case_style_of("camel"@) == Some(crate::names::CaseStyle::Camel),
        crate::names::case_style_of("pascal"@) == Some(crate::names::CaseStyle::Pascal),
        crate::names::case_style_of("constant"@) == Some(crate::names::CaseStyle::Constant),
        crate::names::case_style_of("kebab"@) is None,
        crate::frame::axis_of("rows"@) == Some(crate::frame::Axis::Rows),
        crate::frame::axis_of("cols"@) == Some(crate::frame::Axis::Cols),
        crate::frame::axis_of("both"@) == Some(crate::frame::Axis::Both),
        crate::schema::compare_return_of("all"@) == Some(CompareReturn::All),
        crate::schema::compare_return_of("match"@) == Some(CompareReturn::Match),
        crate::schema::compare_return_of("mismatch"@) == Some(CompareReturn::Mismatch),
{
    reveal_strlit("snake");
    reveal_strlit("camel");
    reveal_strlit("pascal");
    reveal_strlit("constant");
    reveal_strlit("kebab");
    reveal_strlit("rows");
    reveal_strlit("cols");
    reveal_strlit("both");
    reveal_strlit("all");
    reveal_strlit("match");
    reveal_strlit("mismatch");
    assert("snake"@ =~= seq!['s', 'n', 'a', 'k', 'e']);
    assert("camel"@ =~= seq!['c', 'a', 'm', 'e', 'l']);
    assert("pascal"@ =~= seq!['p', 'a', 's', 'c', 'a', 'l']);
    assert("constant"@ =~= seq!['c', 'o', 'n', 's', 't', 'a', 'n', 't']);
    assert("kebab"@ =~= seq!['k', 'e', 'b', 'a', 'b']);
    assert("rows"@ =~= seq!['r', 'o', 'w', 's']);
    assert("cols"@ =~= seq!['c', 'o', 'l', 's']);
    assert("both"@ =~= seq!['b', 'o', 't', 'h']);
    assert("all"@ =~= seq!['a', 'l', 'l']);
    assert("match"@ =~= seq!['m', 'a', 't', 'c', 'h']);
    assert("mismatch"@ =~= seq!['m', 'i', 's', 'm', 'a', 't', 'c', 'h']);
}

} // verus!
