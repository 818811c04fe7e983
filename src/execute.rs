//! Query execution: an index lookup where the condition's column has an
//! index and the operator maps to a key range, a full scan otherwise.

use vstd::prelude::*;
use vstd::seq_lib::lemma_no_dup_in_concat;
use vstd::string::StringExecFns;
use crate::value::{Value, ValueView, value_lt, lemma_value_order};
use crate::index::{Index, KeyBound, RowId, bucket_of, ids_in_range, in_lower, in_upper, sorted_keys, lemma_bucket_at};
use crate::table::{Row, Table, Database, RowsView, index_consistent};
use crate::parser::{Condition, ConditionView, Operator, Query};

verus! {

/// Whether a stored value `v` satisfies `v op target`. Equality and
/// inequality compare any two values; the ordering operators hold only
/// between two integers.
pub open spec fn value_matches(v: ValueView, op: Operator, target: ValueView) -> bool {
    match op {
        Operator::Eq => v == target,
        Operator::Neq => v != target,
        _ => match (v, target) {
            (ValueView::Integer(a), ValueView::Integer(b)) => match op {
                Operator::Gt => a > b,
                Operator::Gte => a >= b,
                Operator::Lt => a < b,
                _ => a <= b,
            },
            _ => false,
        },
    }
}

/// A row satisfies a condition when it has a value in the condition's
/// column and that value satisfies the comparison.
pub open spec fn row_matches(row: Map<Seq<char>, ValueView>, cond: ConditionView) -> bool {
    row.contains_key(cond.column) && value_matches(row[cond.column], cond.operator, cond.value)
}

/// The ids of the rows that a query with condition `cond` selects.
pub open spec fn matching_ids(rows: RowsView, cond: Option<ConditionView>) -> Set<RowId> {
    Set::new(
        |id: RowId|
            id < rows.len() && match cond {
                Some(c) => row_matches(rows[id as int], c),
                None => true,
            },
    )
}

/// `ids` lists each selected row id exactly once, in some order.
pub open spec fn selects(rows: RowsView, cond: Option<ConditionView>, ids: Seq<RowId>) -> bool {
    ids.no_duplicates() && ids.to_set() == matching_ids(rows, cond)
}

/// The models of a sequence of rows.
pub open spec fn views_of(rows: Seq<Row>) -> RowsView {
    rows.map_values(|x: Row| x@)
}

/// The rows with the given ids, in the order of `ids`.
pub open spec fn rows_by_id(rows: RowsView, ids: Seq<RowId>) -> RowsView {
    ids.map_values(|id: RowId| rows[id as int])
}

/// The key range that an ordering operator against the integer `n` reads.
pub open spec fn range_for(op: Operator, n: i64) -> (KeyBound, KeyBound) {
    match op {
        Operator::Gt => (KeyBound::Excluded(Value::Integer(n)), KeyBound::Included(Value::Integer(i64::MAX))),
        Operator::Gte => (KeyBound::Included(Value::Integer(n)), KeyBound::Included(Value::Integer(i64::MAX))),
        Operator::Lt => (KeyBound::Unbounded, KeyBound::Excluded(Value::Integer(n))),
        _ => (KeyBound::Unbounded, KeyBound::Included(Value::Integer(n))),
    }
}

/// The row ids that the index path reads for `cond`: the bucket of the value
/// for `=`; for an ordering operator against an integer, the ids of the
/// integer keys in range; none for an ordering operator against a text.
pub open spec fn index_path_ids(idx: Seq<(ValueView, Seq<RowId>)>, cond: Condition) -> Seq<RowId> {
    match cond.operator {
        Operator::Eq => bucket_of(idx, cond.value@),
        _ => match cond.value {
            Value::Integer(n) => {
                let (lo, hi) = range_for(cond.operator, n);
                ids_in_range(idx, lo, hi)
            },
            Value::Text(_) => Seq::empty(),
        },
    }
}

/// Over consistent sorted entries, the first `p` entries' ids in range are
/// distinct, and are the ids of the rows whose value in `column` is in range
/// and is the key of one of those entries.
pub proof fn lemma_range_ids(
    rows: RowsView,
    column: Seq<char>,
    idx: Seq<(ValueView, Seq<RowId>)>,
    lower: KeyBound,
    upper: KeyBound,
    p: int,
)
    requires
        index_consistent(rows, column, idx),
        sorted_keys(idx),
        0 <= p <= idx.len(),
    ensures
        ids_in_range(idx.take(p), lower, upper).no_duplicates(),
        forall|id: RowId|
            #[trigger] ids_in_range(idx.take(p), lower, upper).contains(id) <==> {
                &&& id < rows.len()
                &&& rows[id as int].contains_key(column)
                &&& in_lower(rows[id as int][column], lower)
                &&& in_upper(rows[id as int][column], upper)
                &&& exists|i: int| 0 <= i < p && idx[i].0 == rows[id as int][column]
            },
    decreases p,
{
    let t = idx.take(p);
    if p == 0 {
        assert(t =~= Seq::<(ValueView, Seq<RowId>)>::empty());
    } else {
        lemma_range_ids(rows, column, idx, lower, upper, p - 1);
        assert(t.drop_last() =~= idx.take(p - 1));
        let a = ids_in_range(idx.take(p - 1), lower, upper);
        let key = idx[p - 1].0;
        let b = idx[p - 1].1;
        lemma_bucket_at(idx, p - 1);
        assert(b == bucket_of(idx, key));
        let inside = in_lower(key, lower) && in_upper(key, upper);
        assert(ids_in_range(t, lower, upper) == if inside { a + b } else { a });
        assert forall|id: RowId| b.contains(id) <==> {
            &&& id < rows.len()
            &&& rows[id as int].contains_key(column)
            &&& rows[id as int][column] == key
        } by {
            if b.contains(id) {
                let m = choose|m: int| 0 <= m < b.len() && b[m] == id;
                assert(bucket_of(idx, key)[m] == id);
            }
            if id < rows.len() && rows[id as int].contains_key(column) && rows[id as int][column] == key {
                assert(bucket_of(idx, rows[id as int][column]).contains(id as RowId));
            }
        }
        if inside {
            assert forall|i: int, j: int| 0 <= i < a.len() && 0 <= j < b.len() implies a[i] != b[j] by {
                let x = a[i];
                assert(a.contains(x));
                assert(b.contains(b[j]));
                if x == b[j] {
                    let i0 = choose|i0: int| 0 <= i0 < p - 1 && idx[i0].0 == rows[x as int][column];
                    assert(value_lt(idx[i0].0, key));
                    lemma_value_order(key, key, key);
                }
            }
            assert(bucket_of(idx, key).no_duplicates());
            lemma_no_dup_in_concat(a, b);
            assert forall|id: RowId| #[trigger] (a + b).contains(id) <==> (a.contains(id) || b.contains(id)) by {
                if (a + b).contains(id) {
                    let m = choose|m: int| 0 <= m < (a + b).len() && (a + b)[m] == id;
                    if m >= a.len() {
                        assert(b[m - a.len()] == id);
                    }
                }
                if b.contains(id) {
                    let m = choose|m: int| 0 <= m < b.len() && b[m] == id;
                    assert((a + b)[a.len() + m] == id);
                }
                if a.contains(id) {
                    let m = choose|m: int| 0 <= m < a.len() && a[m] == id;
                    assert((a + b)[m] == id);
                }
            }
        }
        assert forall|id: RowId| #[trigger] ids_in_range(t, lower, upper).contains(id) <==> {
            &&& id < rows.len()
            &&& rows[id as int].contains_key(column)
            &&& in_lower(rows[id as int][column], lower)
            &&& in_upper(rows[id as int][column], upper)
            &&& exists|i: int| 0 <= i < p && idx[i].0 == rows[id as int][column]
        } by {
            if id < rows.len() && rows[id as int].contains_key(column) {
                let v = rows[id as int][column];
                if exists|i: int| 0 <= i < p && idx[i].0 == v {
                    let i = choose|i: int| 0 <= i < p && idx[i].0 == v;
                    if i < p - 1 {
                        assert(exists|i: int| 0 <= i < p - 1 && idx[i].0 == v);
                    }
                }
                if exists|i: int| 0 <= i < p - 1 && idx[i].0 == v {
                    let i = choose|i: int| 0 <= i < p - 1 && idx[i].0 == v;
                    assert(0 <= i < p && idx[i].0 == v);
                }
            }
        }
    }
}

/// Over an index on the condition's column that is consistent with the
/// rows, the ids that the index path reads are exactly the ids of the rows
/// that satisfy the condition, each once; this holds for every operator but
/// `!=`, which the index does not serve.
pub proof fn lemma_index_path_selects(rows: RowsView, idx: Seq<(ValueView, Seq<RowId>)>, cond: Condition)
    requires
        index_consistent(rows, cond.column@, idx),
        sorted_keys(idx),
        cond.operator != Operator::Neq,
    ensures
        selects(rows, Some(cond@), index_path_ids(idx, cond)),
{
    let column = cond.column@;
    let ids = index_path_ids(idx, cond);
    let want = matching_ids(rows, Some(cond@));
    match cond.operator {
        Operator::Eq => {
            let v = cond.value@;
            assert forall|id: RowId| ids.contains(id) <==> #[trigger] want.contains(id) by {
                if ids.contains(id) {
                    let m = choose|m: int| 0 <= m < ids.len() && ids[m] == id;
                    assert(bucket_of(idx, v)[m] == id);
                }
                if want.contains(id) {
                    assert(bucket_of(idx, rows[id as int][column]).contains(id as RowId));
                }
            }
            assert(ids.to_set() =~= want);
        },
        _ => match cond.value {
            Value::Integer(n) => {
                let (lo, hi) = range_for(cond.operator, n);
                lemma_range_ids(rows, column, idx, lo, hi, idx.len() as int);
                assert(idx.take(idx.len() as int) =~= idx);
                assert forall|id: RowId| ids.contains(id) <==> #[trigger] want.contains(id) by {
                    if want.contains(id) {
                        let v = rows[id as int][column];
                        assert(bucket_of(idx, v).contains(id as RowId));
                        assert(exists|i: int| 0 <= i < idx.len() && idx[i].0 == v);
                    }
                }
                assert(ids.to_set() =~= want);
            },
            Value::Text(_) => {
                assert(ids.to_set() =~= want);
            },
        },
    }
}

/// A table's index on a column, when one exists, selects the same rows for
/// a condition on that column as a full scan of the table does.
pub proof fn lemma_index_scan_equivalence(table: Table, cond: Condition)
    requires
        table.wf(),
        table.index_on(cond.column@) is Some,
        cond.operator != Operator::Neq,
    ensures
        index_path_ids(table.index_on(cond.column@)->0@, cond).to_set() == matching_ids(
            table.row_views(),
            Some(cond@),
        ),
        index_path_ids(table.index_on(cond.column@)->0@, cond).no_duplicates(),
{
    let s = table.indexes@;
    let i = choose|i: int| 0 <= i < s.len() && s[i].0@ == cond.column@;
    assert(s[i].1.wf());
    lemma_index_path_selects(table.row_views(), s[i].1@, cond);
}

/// Whether `row` satisfies `cond`.
fn row_satisfies(row: &Row, cond: &Condition) -> (r: bool)
    ensures
        r == row_matches(row@, cond@),
{
    match row.get_value(cond.column.as_str()) {
        None => false,
        Some(v) => match cond.operator {
            Operator::Eq => v.equals(&cond.value),
            Operator::Neq => !v.equals(&cond.value),
            _ => match (v, &cond.value) {
                (Value::Integer(a), Value::Integer(b)) => match cond.operator {
                    Operator::Gt => *a > *b,
                    Operator::Gte => *a >= *b,
                    Operator::Lt => *a < *b,
                    _ => *a <= *b,
                },
                _ => false,
            },
        },
    }
}

/// The ids of the rows that satisfy `cond`, in ascending order, found by
/// testing every row.
pub fn full_scan(rows: &Vec<Row>, cond: &Condition) -> (r: Vec<RowId>)
    requires
        rows@.len() <= u64::MAX,
    ensures
        selects(rows@.map_values(|x: Row| x@), Some(cond@), r@),
{
    let ghost rv = rows@.map_values(|x: Row| x@);
    let mut ids: Vec<RowId> = Vec::new();
    for j in 0..rows.len()
        invariant
            rows@.len() <= u64::MAX,
            rv == rows@.map_values(|x: Row| x@),
            forall|m: int| 0 <= m < ids@.len() ==> (#[trigger] ids@[m]) < j,
            ids@.no_duplicates(),
            forall|id: RowId| #[trigger] ids@.contains(id) <==> (id < j && row_matches(rv[id as int], cond@)),
    {
        let ghost before = ids@;
        assert(forall|id: RowId| #[trigger] before.contains(id) <==> (id < j && row_matches(rv[id as int], cond@)));
        assert(forall|m: int| 0 <= m < before.len() ==> (#[trigger] before[m]) < j);
        let hit = row_satisfies(&rows[j], cond);
        assert(rv[j as int] == rows@[j as int]@);
        if hit {
            ids.push(j as RowId);
        }
        proof {
            assert forall|id: RowId| #[trigger] ids@.contains(id) <==> (id < j + 1 && row_matches(rv[id as int], cond@)) by {
                if ids@.contains(id) {
                    let m = choose|m: int| 0 <= m < ids@.len() && ids@[m] == id;
                    if m < before.len() {
                        assert(before[m] == id);
                        assert(before.contains(id));
                    }
                }
                if id < j && row_matches(rv[id as int], cond@) {
                    assert(before.contains(id));
                    let m = choose|m: int| 0 <= m < before.len() && before[m] == id;
                    assert(ids@[m] == id);
                }
                if id == j && hit {
                    assert(ids@[before.len() as int] == id);
                }
                if id == j && !hit && ids@.contains(id) {
                    let m = choose|m: int| 0 <= m < ids@.len() && ids@[m] == id;
                    assert(before[m] < j);
                }
            }
        }
    }
    assert(ids@.to_set() =~= matching_ids(rv, Some(cond@)));
    ids
}

/// The ids that the index serves for `cond`; `cond` must not use `!=`.
fn index_lookup(index: &Index, cond: &Condition) -> (r: Vec<RowId>)
    requires
        index.wf(),
        cond.operator != Operator::Neq,
    ensures
        r@ == index_path_ids(index@, *cond),
{
    match cond.operator {
        Operator::Eq => index.lookup_eq(&cond.value),
        _ => match &cond.value {
            Value::Integer(n) => {
                let (lower, upper) = match cond.operator {
                    Operator::Gt => (KeyBound::Excluded(Value::Integer(*n)), KeyBound::Included(Value::Integer(i64::MAX))),
                    Operator::Gte => (KeyBound::Included(Value::Integer(*n)), KeyBound::Included(Value::Integer(i64::MAX))),
                    Operator::Lt => (KeyBound::Unbounded, KeyBound::Excluded(Value::Integer(*n))),
                    _ => (KeyBound::Unbounded, KeyBound::Included(Value::Integer(*n))),
                };
                index.lookup_range(&lower, &upper)
            },
            Value::Text(_) => Vec::new(),
        },
    }
}

/// The ids of the rows of `table` that `cond` selects (every row where there
/// is no condition), each once. An index on the condition's column serves
/// every operator but `!=`; otherwise every row is tested.
pub fn select_ids(table: &Table, cond: &Option<Condition>) -> (r: Vec<RowId>)
    requires
        table.wf(),
    ensures
        selects(
            table.row_views(),
            match cond {
                Some(c) => Some(c@),
                None => None,
            },
            r@,
        ),
{
    assert(table.rows@.map_values(|x: Row| x@) == table.row_views());
    match cond {
        None => {
            let mut ids: Vec<RowId> = Vec::new();
            for j in 0..table.rows.len()
                invariant
                    table.rows@.len() <= u64::MAX,
                    ids@ == Seq::new(j as nat, |m: int| m as RowId),
            {
                ids.push(j as RowId);
                assert(ids@ =~= Seq::new((j + 1) as nat, |m: int| m as RowId));
            }
            assert forall|id: RowId| #[trigger] ids@.contains(id) <==> id < table.rows@.len() by {
                if id < table.rows@.len() {
                    assert(ids@[id as int] == id);
                }
            }
            assert(ids@.to_set() =~= matching_ids(table.row_views(), None));
            ids
        },
        Some(c) => match table.find_index(&c.column) {
            Some(index) => {
                if c.operator == Operator::Neq {
                    full_scan(&table.rows, c)
                } else {
                    proof {
                        lemma_index_path_selects(table.row_views(), index@, *c);
                    }
                    index_lookup(index, c)
                }
            },
            None => full_scan(&table.rows, c),
        },
    }
}

/// Copies of the rows with the given ids, in the order of `ids`.
pub fn fetch_rows(table: &Table, ids: &Vec<RowId>) -> (r: Vec<Row>)
    requires
        forall|m: int| 0 <= m < ids@.len() ==> (#[trigger] ids@[m]) < table.rows@.len(),
    ensures
        views_of(r@) == rows_by_id(table.row_views(), ids@),
{
    let mut out: Vec<Row> = Vec::new();
    let n = table.rows.len();
    for m in 0..ids.len()
        invariant
            n == table.rows@.len(),
            forall|k: int| 0 <= k < ids@.len() ==> (#[trigger] ids@[k]) < table.rows@.len(),
            out@.len() == m,
            views_of(out@) == rows_by_id(table.row_views(), ids@.take(m as int)),
    {
        let id = ids[m];
        let k = id as usize;
        let row = table.rows[k].duplicate();
        assert(table.row_views()[id as int] == table.rows@[id as int]@);
        let ghost before = out@;
        out.push(row);
        assert forall|i: int| 0 <= i < m + 1 implies #[trigger] views_of(out@)[i] == rows_by_id(
            table.row_views(),
            ids@.take(m + 1),
        )[i] by {
            if i < m {
                assert(views_of(before)[i] == rows_by_id(table.row_views(), ids@.take(m as int))[i]);
                assert(out@[i] == before[i]);
            }
        }
        assert(views_of(out@) =~= rows_by_id(table.row_views(), ids@.take(m + 1)));
    }
    assert(ids@.take(ids@.len() as int) =~= ids@);
    out
}

/// Runs `query` against `db`: fails when the table does not exist, and
/// otherwise returns each row that the query selects exactly once, in no
/// particular order.
pub fn execute_query(query: &Query, db: &Database) -> (r: Result<Vec<Row>, String>)
    requires
        db.wf(),
    ensures
        db.table(query.table_name@) is None <==> r is Err,
        r matches Err(e) ==> e@ == "Table '"@ + query.table_name@ + "' not found."@,
        r matches Ok(rows) ==> exists|ids: Seq<RowId>| {
            &&& selects(db.table(query.table_name@)->0.row_views(), query@.condition, ids)
            &&& views_of(rows@) == rows_by_id(db.table(query.table_name@)->0.row_views(), ids)
        },
{
    match db.get_table(query.table_name.as_str()) {
        None => {
            let mut e = String::from_str("Table '");
            e.append(query.table_name.as_str());
            e.append("' not found.");
            Err(e)
        },
        Some(table) => {
            let ids = select_ids(table, &query.condition);
            assert forall|m: int| 0 <= m < ids@.len() implies (#[trigger] ids@[m]) < table.rows@.len() by {
                assert(ids@.to_set().contains(ids@[m]));
            }
            let rows = fetch_rows(table, &ids);
            assert(selects(table.row_views(), query@.condition, ids@));
            assert(db.table(query.table_name@)->0 == *table);
            assert(views_of(rows@) == rows_by_id(db.table(query.table_name@)->0.row_views(), ids@));
            Ok(rows)
        },
    }
}

/// The ids of the rows that have a value in `column`, in ascending order.
pub open spec fn ids_with(rows: RowsView, column: Seq<char>) -> Seq<RowId>
    decreases rows.len(),
{
    if rows.len() == 0 {
        Seq::empty()
    } else {
        let rest = ids_with(rows.drop_last(), column);
        if rows.last().contains_key(column) {
            rest.push((rows.len() - 1) as RowId)
        } else {
            rest
        }
    }
}

proof fn lemma_ids_with(rows: RowsView, column: Seq<char>)
    requires
        rows.len() <= u64::MAX,
    ensures
        ids_with(rows, column).no_duplicates(),
        forall|id: RowId|
            #[trigger] ids_with(rows, column).contains(id) <==> (id < rows.len() && rows[id as int].contains_key(
                column,
            )),
        forall|m: int| 0 <= m < ids_with(rows, column).len() ==> #[trigger] ids_with(rows, column)[m] < rows.len(),
    decreases rows.len(),
{
    if rows.len() > 0 {
        let init = rows.drop_last();
        lemma_ids_with(init, column);
        let rest = ids_with(init, column);
        let last = (rows.len() - 1) as RowId;
        assert forall|id: RowId| #[trigger] ids_with(rows, column).contains(id) <==> (id < rows.len()
            && rows[id as int].contains_key(column)) by {
            if id < init.len() {
                assert(rows[id as int] == init[id as int]);
            }
            if rows.last().contains_key(column) {
                if rest.push(last).contains(id) {
                    let m = choose|m: int| 0 <= m < rest.push(last).len() && rest.push(last)[m] == id;
                    if m < rest.len() {
                        assert(rest[m] == id);
                    }
                }
                if rest.contains(id) {
                    let m = choose|m: int| 0 <= m < rest.len() && rest[m] == id;
                    assert(rest.push(last)[m] == id);
                }
                if id == last {
                    assert(rest.push(last)[rest.len() as int] == id);
                }
            }
        }
        if rows.last().contains_key(column) {
            assert forall|i: int, j: int| 0 <= i < j < rest.push(last).len() implies rest.push(last)[i]
                != rest.push(last)[j] by {
                if j == rest.len() {
                    assert(rest[i] < init.len());
                }
            }
        }
    }
}

/// After an index on `column` exists, the number of row ids stored across
/// all of its keys equals the number of rows that have a value in `column`.
pub proof fn lemma_index_counts_rows(table: Table, column: Seq<char>)
    requires
        table.wf(),
        table.index_on(column) is Some,
    ensures
        ids_in_range(table.index_on(column)->0@, KeyBound::Unbounded, KeyBound::Unbounded).len() == ids_with(
            table.row_views(),
            column,
        ).len(),
{
    let s = table.indexes@;
    let i = choose|i: int| 0 <= i < s.len() && s[i].0@ == column;
    let idx = s[i].1@;
    let rows = table.row_views();
    assert(s[i].1.wf());
    lemma_range_ids(rows, column, idx, KeyBound::Unbounded, KeyBound::Unbounded, idx.len() as int);
    assert(idx.take(idx.len() as int) =~= idx);
    lemma_ids_with(rows, column);
    let all = ids_in_range(idx, KeyBound::Unbounded, KeyBound::Unbounded);
    let with = ids_with(rows, column);
    assert forall|id: RowId| #[trigger] all.contains(id) <==> with.contains(id) by {
        if with.contains(id) {
            let v = rows[id as int][column];
            assert(bucket_of(idx, v).contains(id as RowId));
            assert(exists|j: int| 0 <= j < idx.len() && idx[j].0 == v);
        }
    }
    assert(all.to_set() =~= with.to_set());
    all.unique_seq_to_set();
    with.unique_seq_to_set();
}

} // verus!
