//! Rows, tables with their secondary indexes, and the database.

use vstd::prelude::*;
use vstd::string::StringExecFns;
use crate::value::{Value, ValueView};
use crate::index::{Index, RowId, bucket_of, lemma_bucket_at};

verus! {

/// A row: column names mapped to values. Later fields override earlier
/// fields of the same column.
#[derive(Debug, Clone)]
pub struct Row {
    pub data: Vec<(String, Value)>,
}

/// The map that a sequence of fields denotes, the last field of a column
/// winning.
pub open spec fn fields_map(s: Seq<(String, Value)>) -> Map<Seq<char>, ValueView>
    decreases s.len(),
{
    if s.len() == 0 {
        Map::empty()
    } else {
        fields_map(s.drop_last()).insert(s.last().0@, s.last().1@)
    }
}

impl View for Row {
    type V = Map<Seq<char>, ValueView>;

    open spec fn view(&self) -> Map<Seq<char>, ValueView> {
        fields_map(self.data@)
    }
}

/// Fields from `j` on that name another column do not change what `k` maps to.
proof fn lemma_fields_suffix(s: Seq<(String, Value)>, j: int, k: Seq<char>)
    requires
        0 <= j <= s.len(),
        forall|m: int| j <= m < s.len() ==> (#[trigger] s[m]).0@ != k,
    ensures
        fields_map(s).contains_key(k) == fields_map(s.take(j)).contains_key(k),
        fields_map(s)[k] == fields_map(s.take(j))[k],
    decreases s.len(),
{
    if s.len() > j {
        lemma_fields_suffix(s.drop_last(), j, k);
        assert(s.drop_last().take(j) =~= s.take(j));
    } else {
        assert(s.take(j) =~= s);
    }
}

impl Row {
    /// A row with no columns.
    pub fn new() -> (r: Row)
        ensures
            r@ == Map::<Seq<char>, ValueView>::empty(),
    {
        Row { data: Vec::new() }
    }

    /// Sets `column` to `value`, replacing any earlier value of it.
    pub fn put(&mut self, column: &str, value: Value)
        ensures
            final(self)@ == old(self)@.insert(column@, value@),
    {
        let name = String::from_str(column);
        self.data.push((name, value));
        assert(self.data@.drop_last() =~= old(self).data@);
    }

    /// The value of `column`, if the row has one.
    pub fn get_value(&self, column: &str) -> (r: Option<&Value>)
        ensures
            r is None <==> !self@.contains_key(column@),
            r matches Some(v) ==> self@[column@] == v@,
    {
        let name = String::from_str(column);
        let mut j: usize = self.data.len();
        while j > 0
            invariant
                j <= self.data@.len(),
                name@ == column@,
                forall|m: int| j <= m < self.data@.len() ==> (#[trigger] self.data@[m]).0@ != column@,
            decreases j,
        {
            if self.data[j - 1].0 == name {
                proof {
                    lemma_fields_suffix(self.data@, j as int, column@);
                    assert(self.data@.take(j as int).drop_last() =~= self.data@.take(j - 1));
                }
                return Some(&self.data[j - 1].1);
            }
            j = j - 1;
        }
        proof {
            lemma_fields_suffix(self.data@, 0, column@);
            assert(self.data@.take(0) =~= Seq::<(String, Value)>::empty());
        }
        None
    }

    /// A copy of this row.
    pub fn duplicate(&self) -> (r: Row)
        ensures
            r@ == self@,
    {
        let mut data: Vec<(String, Value)> = Vec::new();
        for j in 0..self.data.len()
            invariant
                data@.len() == j,
                forall|m: int| 0 <= m < j ==> (#[trigger] data@[m]).0@ == self.data@[m].0@
                    && data@[m].1@ == self.data@[m].1@,
        {
            let name = self.data[j].0.clone();
            let value = self.data[j].1.duplicate();
            data.push((name, value));
        }
        let r = Row { data };
        proof {
            lemma_fields_map_same(r.data@, self.data@);
        }
        r
    }
}

/// Field sequences that agree on every name and value denote the same map.
proof fn lemma_fields_map_same(a: Seq<(String, Value)>, b: Seq<(String, Value)>)
    requires
        a.len() == b.len(),
        forall|m: int| 0 <= m < a.len() ==> (#[trigger] a[m]).0@ == b[m].0@ && a[m].1@ == b[m].1@,
    ensures
        fields_map(a) == fields_map(b),
    decreases a.len(),
{
    if a.len() > 0 {
        lemma_fields_map_same(a.drop_last(), b.drop_last());
    }
}

/// The model of a table's rows: row `id` sits at position `id`.
pub type RowsView = Seq<Map<Seq<char>, ValueView>>;

/// An index on `column` agrees with `rows`: every stored id names a row
/// whose value in `column` is the key it is stored under, every row with a
/// value in `column` is stored under that value, and no key holds an id twice.
pub open spec fn index_consistent(
    rows: RowsView,
    column: Seq<char>,
    idx: Seq<(ValueView, Seq<RowId>)>,
) -> bool {
    &&& forall|k: ValueView, m: int|
        0 <= m < bucket_of(idx, k).len() ==> {
            let id = #[trigger] bucket_of(idx, k)[m];
            &&& id < rows.len()
            &&& rows[id as int].contains_key(column)
            &&& rows[id as int][column] == k
        }
    &&& forall|id: int|
        0 <= id < rows.len() && (#[trigger] rows[id]).contains_key(column) ==> bucket_of(
            idx,
            rows[id][column],
        ).contains(id as RowId)
    &&& forall|k: ValueView| (#[trigger] bucket_of(idx, k)).no_duplicates()
}

/// Adding a row and storing its id under its value keeps an index consistent.
pub proof fn lemma_consistent_push(
    rows: RowsView,
    column: Seq<char>,
    idx0: Seq<(ValueView, Seq<RowId>)>,
    idx1: Seq<(ValueView, Seq<RowId>)>,
    row: Map<Seq<char>, ValueView>,
)
    requires
        index_consistent(rows, column, idx0),
        rows.len() <= u64::MAX,
        forall|k: ValueView|
            #[trigger] bucket_of(idx1, k) == if row.contains_key(column) && k == row[column] {
                bucket_of(idx0, k).push(rows.len() as RowId)
            } else {
                bucket_of(idx0, k)
            },
    ensures
        index_consistent(rows.push(row), column, idx1),
{
    let rows1 = rows.push(row);
    let id = rows.len() as RowId;
    assert forall|k: ValueView, m: int| 0 <= m < bucket_of(idx1, k).len() implies {
        let x = #[trigger] bucket_of(idx1, k)[m];
        &&& x < rows1.len()
        &&& rows1[x as int].contains_key(column)
        &&& rows1[x as int][column] == k
    } by {
        assert(bucket_of(idx1, k) == if row.contains_key(column) && k == row[column] {
            bucket_of(idx0, k).push(id)
        } else {
            bucket_of(idx0, k)
        });
        if m < bucket_of(idx0, k).len() {
            assert(bucket_of(idx1, k)[m] == bucket_of(idx0, k)[m]);
        }
    }
    assert forall|x: int| 0 <= x < rows1.len() && (#[trigger] rows1[x]).contains_key(column) implies bucket_of(
        idx1,
        rows1[x][column],
    ).contains(x as RowId) by {
        let k = rows1[x][column];
        assert(bucket_of(idx1, k) == if row.contains_key(column) && k == row[column] {
            bucket_of(idx0, k).push(id)
        } else {
            bucket_of(idx0, k)
        });
        if x < rows.len() {
            assert(rows1[x] == rows[x]);
            let j = choose|j: int| 0 <= j < bucket_of(idx0, k).len() && bucket_of(idx0, k)[j] == x as RowId;
            if row.contains_key(column) && k == row[column] {
                assert(bucket_of(idx1, k)[j] == x as RowId);
            }
        } else {
            assert(bucket_of(idx1, k)[bucket_of(idx0, k).len() as int] == x as RowId);
        }
    }
    assert forall|k: ValueView| (#[trigger] bucket_of(idx1, k)).no_duplicates() by {
        assert(bucket_of(idx1, k) == if row.contains_key(column) && k == row[column] {
            bucket_of(idx0, k).push(id)
        } else {
            bucket_of(idx0, k)
        });
        if row.contains_key(column) && k == row[column] {
            let b = bucket_of(idx0, k);
            assert forall|i: int, j: int| 0 <= i < j < b.push(id).len() implies b.push(id)[i] != b.push(id)[j] by {
                if j == b.len() {
                    assert(b[i] < rows.len());
                }
            }
        }
    }
}

/// The ids, ascending, of the rows whose value in `column` is `k`.
pub open spec fn ids_where(rows: RowsView, column: Seq<char>, k: ValueView) -> Seq<RowId>
    decreases rows.len(),
{
    if rows.len() == 0 {
        Seq::empty()
    } else {
        let rest = ids_where(rows.drop_last(), column, k);
        if rows.last().contains_key(column) && rows.last()[column] == k {
            rest.push((rows.len() - 1) as RowId)
        } else {
            rest
        }
    }
}

/// A table: rows addressed by their position, plus named indexes.
#[derive(Debug, Clone)]
pub struct Table {
    pub rows: Vec<Row>,
    pub indexes: Vec<(String, Index)>,
}

/// The entry named `name` of a list of named entries, if any.
pub open spec fn named<T>(s: Seq<(String, T)>, name: Seq<char>) -> Option<T> {
    if exists|i: int| 0 <= i < s.len() && s[i].0@ == name {
        Some(s[choose|i: int| 0 <= i < s.len() && s[i].0@ == name].1)
    } else {
        None
    }
}

/// Names are pairwise distinct.
pub open spec fn names_distinct<T>(s: Seq<(String, T)>) -> bool {
    forall|i: int, j: int| 0 <= i < j < s.len() ==> s[i].0@ != s[j].0@
}

/// With distinct names, the entry named at position `i` is that entry.
pub proof fn lemma_named_at<T>(s: Seq<(String, T)>, i: int)
    requires
        names_distinct(s),
        0 <= i < s.len(),
    ensures
        named(s, s[i].0@) == Some(s[i].1),
{
    let c = choose|j: int| 0 <= j < s.len() && s[j].0@ == s[i].0@;
    assert(c == i);
}

/// Replacing the entry at `p`, or appending one at `p == s.len()`, under
/// the name `name` leaves every other name's entry unchanged.
pub proof fn lemma_named_others<T>(s0: Seq<(String, T)>, s1: Seq<(String, T)>, p: int, name: Seq<char>)
    requires
        names_distinct(s0),
        names_distinct(s1),
        0 <= p <= s0.len(),
        p == s0.len() ==> s1.len() == s0.len() + 1,
        p < s0.len() ==> s1.len() == s0.len(),
        s1[p].0@ == name,
        forall|i: int| 0 <= i < s0.len() && i != p ==> s1[i] == s0[i],
        p < s0.len() ==> s0[p].0@ == name,
    ensures
        named(s1, name) == Some(s1[p].1),
        forall|c: Seq<char>| c != name ==> #[trigger] named(s1, c) == named(s0, c),
{
    lemma_named_at(s1, p);
    assert forall|c: Seq<char>| c != name implies #[trigger] named(s1, c) == named(s0, c) by {
        if exists|i: int| 0 <= i < s0.len() && s0[i].0@ == c {
            let i = choose|i: int| 0 <= i < s0.len() && s0[i].0@ == c;
            lemma_named_at(s0, i);
            lemma_named_at(s1, i);
        } else {
            assert(!exists|i: int| 0 <= i < s1.len() && s1[i].0@ == c);
        }
    }
}

impl Table {
    /// The rows' models, by row id.
    pub open spec fn row_views(&self) -> RowsView {
        self.rows@.map_values(|r: Row| r@)
    }

    /// The index on `column`, if one exists.
    pub open spec fn index_on(&self, column: Seq<char>) -> Option<Index> {
        named(self.indexes@, column)
    }

    /// Row ids fit in a `RowId`, index names are distinct, and every index is
    /// well formed and consistent with the rows.
    pub open spec fn wf(&self) -> bool {
        &&& self.rows@.len() <= u64::MAX
        &&& names_distinct(self.indexes@)
        &&& forall|i: int|
            0 <= i < self.indexes@.len() ==> {
                &&& (#[trigger] self.indexes@[i]).1.wf()
                &&& index_consistent(self.row_views(), self.indexes@[i].0@, self.indexes@[i].1@)
            }
    }

    /// An empty table without indexes.
    pub fn new() -> (r: Table)
        ensures
            r.wf(),
            r.row_views() == Seq::<Map<Seq<char>, ValueView>>::empty(),
            forall|c: Seq<char>| r.index_on(c) is None,
    {
        let r = Table { rows: Vec::new(), indexes: Vec::new() };
        assert(r.row_views() =~= Seq::<Map<Seq<char>, ValueView>>::empty());
        r
    }
    /// What an `insert` of `row` into `before` produced: `after` and the id `id`.
    pub open spec fn inserted(before: &Table, row: Map<Seq<char>, ValueView>, after: &Table, id: RowId) -> bool {
        &&& id == before.rows@.len()
        &&& after.row_views() == before.row_views().push(row)
        &&& after.indexes@.len() == before.indexes@.len()
        &&& forall|q: int| 0 <= q < after.indexes@.len() ==> {
            &&& (#[trigger] after.indexes@[q]).0@ == before.indexes@[q].0@
            &&& forall|k: ValueView|
                #[trigger] bucket_of(after.indexes@[q].1@, k) == if row.contains_key(after.indexes@[q].0@)
                    && k == row[after.indexes@[q].0@] {
                    bucket_of(before.indexes@[q].1@, k).push(id)
                } else {
                    bucket_of(before.indexes@[q].1@, k)
                }
        }
    }

    /// Stores `row` under the next row id and records it in every index whose
    /// column the row has a value for; returns that id.
    pub fn insert(&mut self, row: Row) -> (r: RowId)
        requires
            old(self).wf(),
            old(self).rows@.len() < u64::MAX,
        ensures
            final(self).wf(),
            Table::inserted(old(self), row@, final(self), r),
    {
        let ghost rows0 = self.row_views();
        let ghost idxs0 = self.indexes@;
        let row_id = self.rows.len() as RowId;
        self.rows.push(row);
        let ghost rows1 = self.row_views();
        assert(rows1 =~= rows0.push(row@));
        let last = self.rows.len() - 1;
        let n = self.indexes.len();
        for q in 0..n
            invariant
                n == self.indexes@.len(),
                n == idxs0.len(),
                self.rows@.len() == rows1.len(),
                last == rows0.len(),
                row_id == rows0.len(),
                rows0.len() < u64::MAX,
                self.row_views() == rows1,
                rows1 == rows0.push(row@),
                names_distinct(idxs0),
                forall|i: int|
                    0 <= i < n ==> {
                        &&& (#[trigger] idxs0[i]).1.wf()
                        &&& index_consistent(rows0, idxs0[i].0@, idxs0[i].1@)
                    },
                forall|i: int| 0 <= i < n ==> (#[trigger] self.indexes@[i]).0@ == idxs0[i].0@,
                forall|i: int| q <= i < n ==> #[trigger] self.indexes@[i] == idxs0[i],
                forall|i: int|
                    0 <= i < q ==> {
                        &&& (#[trigger] self.indexes@[i]).1.wf()
                        &&& index_consistent(rows1, self.indexes@[i].0@, self.indexes@[i].1@)
                        &&& forall|k: ValueView|
                            #[trigger] bucket_of(self.indexes@[i].1@, k) == if row@.contains_key(idxs0[i].0@)
                                && k == row@[idxs0[i].0@] {
                                bucket_of(idxs0[i].1@, k).push(row_id)
                            } else {
                                bucket_of(idxs0[i].1@, k)
                            }
                    },
        {
            let found = match self.rows[last].get_value(self.indexes[q].0.as_str()) {
                Some(v) => Some(v.duplicate()),
                None => None,
            };
            assert(self.row_views()[last as int] == self.rows@[last as int]@);
            assert(self.rows@[last as int]@ == row@);
            match found {
                Some(v) => {
                    self.indexes[q].1.insert(v, row_id);
                },
                None => {},
            }
            proof {
                lemma_consistent_push(rows0, idxs0[q as int].0@, idxs0[q as int].1@, self.indexes@[q as int].1@, row@);
            }
        }
        proof {
            assert forall|i: int, j: int| 0 <= i < j < self.indexes@.len() implies self.indexes@[i].0@ != self.indexes@[j].0@ by {
                assert(self.indexes@[i].0@ == idxs0[i].0@);
                assert(self.indexes@[j].0@ == idxs0[j].0@);
            }
        }
        row_id
    }

    /// Builds an index on `column` from every current row, replacing any
    /// earlier index of that name.
    pub fn create_index(&mut self, column: &str)
        requires
            old(self).wf(),
        ensures
            final(self).wf(),
            final(self).row_views() == old(self).row_views(),
            final(self).index_on(column@) is Some,
            forall|k: ValueView|
                #[trigger] bucket_of(final(self).index_on(column@)->0@, k) == ids_where(
                    final(self).row_views(),
                    column@,
                    k,
                ),
            forall|c: Seq<char>| c != column@ ==> final(self).index_on(c) == old(self).index_on(c),
    {
        let ghost rows = self.row_views();
        let mut index = Index::new();
        let n = self.rows.len();
        for j in 0..n
            invariant
                n == self.rows@.len(),
                rows == self.row_views(),
                rows.len() <= u64::MAX,
                index.wf(),
                index_consistent(rows.take(j as int), column@, index@),
                forall|k: ValueView| #[trigger] bucket_of(index@, k) == ids_where(rows.take(j as int), column@, k),
        {
            let found = match self.rows[j].get_value(column) {
                Some(v) => Some(v.duplicate()),
                None => None,
            };
            let ghost before = index@;
            assert(self.row_views()[j as int] == self.rows@[j as int]@);
            assert(self.rows@[j as int]@ == rows[j as int]);
            match found {
                Some(v) => {
                    index.insert(v, j as RowId);
                },
                None => {},
            }
            proof {
                lemma_consistent_push(rows.take(j as int), column@, before, index@, rows[j as int]);
                assert(rows.take(j as int).push(rows[j as int]) =~= rows.take(j + 1));
                assert(rows.take(j + 1).drop_last() =~= rows.take(j as int));
                assert forall|k: ValueView| #[trigger] bucket_of(index@, k) == ids_where(rows.take(j + 1), column@, k) by {
                    assert(bucket_of(before, k) == ids_where(rows.take(j as int), column@, k));
                }
            }
        }
        assert(rows.take(n as int) =~= rows);
        let ghost built = index@;
        let ghost idxs0 = self.indexes@;
        let name = String::from_str(column);
        let mut p: usize = 0;
        while p < self.indexes.len() && !(self.indexes[p].0 == name)
            invariant
                p <= self.indexes@.len(),
                self.indexes@ == idxs0,
                name@ == column@,
                forall|i: int| 0 <= i < p ==> (#[trigger] idxs0[i]).0@ != column@,
            decreases self.indexes@.len() - p,
        {
            p = p + 1;
        }
        if p < self.indexes.len() {
            self.indexes[p].1 = index;
        } else {
            self.indexes.push((name, index));
        }
        proof {
            lemma_named_others(idxs0, self.indexes@, p as int, column@);
            assert(self.indexes@[p as int].1@ == built);
        }
    }

    /// The index on `column`, if one exists.
    pub fn find_index(&self, column: &String) -> (r: Option<&Index>)
        requires
            self.wf(),
        ensures
            r is None <==> self.index_on(column@) is None,
            r matches Some(i) ==> {
                &&& self.index_on(column@) == Some(*i)
                &&& i.wf()
                &&& index_consistent(self.row_views(), column@, i@)
            },
    {
        let mut p: usize = 0;
        while p < self.indexes.len() && !(self.indexes[p].0 == *column)
            invariant
                p <= self.indexes@.len(),
                forall|i: int| 0 <= i < p ==> (#[trigger] self.indexes@[i]).0@ != column@,
            decreases self.indexes@.len() - p,
        {
            p = p + 1;
        }
        if p < self.indexes.len() {
            proof {
                lemma_named_at(self.indexes@, p as int);
            }
            Some(&self.indexes[p].1)
        } else {
            None
        }
    }
}

/// A database: tables by name.
#[derive(Debug, Clone)]
pub struct Database {
    pub tables: Vec<(String, Table)>,
}

impl Database {
    /// Table names are distinct and every table is well formed.
    pub open spec fn wf(&self) -> bool {
        &&& names_distinct(self.tables@)
        &&& forall|i: int| 0 <= i < self.tables@.len() ==> (#[trigger] self.tables@[i]).1.wf()
    }

    /// The table named `name`, if any.
    pub open spec fn table(&self, name: Seq<char>) -> Option<Table> {
        named(self.tables@, name)
    }

    /// A database without tables.
    pub fn new() -> (r: Database)
        ensures
            r.wf(),
            forall|name: Seq<char>| r.table(name) is None,
    {
        Database { tables: Vec::new() }
    }

    /// Stores `table` under `name`, replacing any table of that name.
    pub fn add_table(&mut self, name: &str, table: Table)
        requires
            old(self).wf(),
            table.wf(),
        ensures
            final(self).wf(),
            final(self).table(name@) == Some(table),
            forall|c: Seq<char>| c != name@ ==> final(self).table(c) == old(self).table(c),
    {
        let ghost ts0 = self.tables@;
        let key = String::from_str(name);
        let p = self.position(&key);
        if p < self.tables.len() {
            self.tables[p].1 = table;
        } else {
            self.tables.push((key, table));
        }
        proof {
            assert forall|i: int, j: int| 0 <= i < j < self.tables@.len() implies self.tables@[i].0@ != self.tables@[j].0@ by {
                if j == p {
                    assert(ts0[i].0@ != name@);
                } else if i == p && p < ts0.len() {
                    assert(ts0[p as int].0@ == name@);
                }
            }
            lemma_named_others(ts0, self.tables@, p as int, name@);
        }
    }

    /// The table named `name`, if any.
    pub fn get_table(&self, name: &str) -> (r: Option<&Table>)
        requires
            self.wf(),
        ensures
            r is None <==> self.table(name@) is None,
            r matches Some(t) ==> self.table(name@) == Some(*t) && t.wf(),
    {
        let key = String::from_str(name);
        let p = self.position(&key);
        if p < self.tables.len() {
            proof {
                lemma_named_at(self.tables@, p as int);
            }
            Some(&self.tables[p].1)
        } else {
            None
        }
    }

    /// Position of the table named `key`, or the number of tables if none.
    fn position(&self, key: &String) -> (p: usize)
        ensures
            p <= self.tables@.len(),
            p < self.tables@.len() ==> self.tables@[p as int].0@ == key@,
            forall|i: int| 0 <= i < p ==> (#[trigger] self.tables@[i]).0@ != key@,
    {
        let mut p: usize = 0;
        while p < self.tables.len() && !(self.tables[p].0 == *key)
            invariant
                p <= self.tables@.len(),
                forall|i: int| 0 <= i < p ==> (#[trigger] self.tables@[i]).0@ != key@,
            decreases self.tables@.len() - p,
        {
            p = p + 1;
        }
        p
    }
}

/// Row ids handed out by two successive inserts into a table strictly
/// increase, and each is at least the number of rows already stored (the
/// ids in use are exactly the smaller ones), so an id is never handed out
/// twice.
pub proof fn lemma_insert_ids_increase(
    t0: Table,
    a: Map<Seq<char>, ValueView>,
    t1: Table,
    r1: RowId,
    b: Map<Seq<char>, ValueView>,
    t2: Table,
    r2: RowId,
)
    requires
        Table::inserted(&t0, a, &t1, r1),
        Table::inserted(&t1, b, &t2, r2),
    ensures
        r1 < r2,
        t0.rows@.len() <= r1,
        t1.rows@.len() <= r2,
{
    assert(t1.row_views().len() == t1.rows@.len());
    assert(t0.row_views().len() == t0.rows@.len());
}

} // verus!
