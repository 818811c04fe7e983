//! A secondary index: an ordered map from values to the row ids that hold
//! them, kept as a vector of entries sorted strictly by key.

use vstd::prelude::*;
use crate::value::{Value, ValueView, value_lt, lemma_value_order};

verus! {

/// Identifier of a row within its table.
pub type RowId = u64;

/// One end of a key range.
#[derive(Debug, Clone)]
pub enum KeyBound {
    Included(Value),
    Excluded(Value),
    Unbounded,
}

/// Entries `(key, row ids)` of an index, sorted strictly by key, each list
/// of row ids in insertion order.
#[derive(Debug, Clone)]
pub struct Index {
    pub entries: Vec<(Value, Vec<RowId>)>,
}

impl View for Index {
    type V = Seq<(ValueView, Seq<RowId>)>;

    open spec fn view(&self) -> Seq<(ValueView, Seq<RowId>)> {
        self.entries@.map_values(|e: (Value, Vec<RowId>)| (e.0@, e.1@))
    }
}

/// Keys strictly increase along the entries.
pub open spec fn sorted_keys(s: Seq<(ValueView, Seq<RowId>)>) -> bool {
    forall|i: int, j: int| 0 <= i < j < s.len() ==> value_lt(s[i].0, s[j].0)
}

/// The row ids stored under key `k`; empty where no entry has that key.
pub open spec fn bucket_of(s: Seq<(ValueView, Seq<RowId>)>, k: ValueView) -> Seq<RowId> {
    if exists|i: int| 0 <= i < s.len() && s[i].0 == k {
        s[choose|i: int| 0 <= i < s.len() && s[i].0 == k].1
    } else {
        Seq::empty()
    }
}

/// Whether key `k` lies on the allowed side of the lower bound.
pub open spec fn in_lower(k: ValueView, lower: KeyBound) -> bool {
    match lower {
        KeyBound::Included(v) => !value_lt(k, v@),
        KeyBound::Excluded(v) => value_lt(v@, k),
        KeyBound::Unbounded => true,
    }
}

/// Whether key `k` lies on the allowed side of the upper bound.
pub open spec fn in_upper(k: ValueView, upper: KeyBound) -> bool {
    match upper {
        KeyBound::Included(v) => !value_lt(v@, k),
        KeyBound::Excluded(v) => value_lt(k, v@),
        KeyBound::Unbounded => true,
    }
}

/// The concatenation, in entry order, of the row ids of every entry whose
/// key lies within both bounds.
pub open spec fn ids_in_range(
    s: Seq<(ValueView, Seq<RowId>)>,
    lower: KeyBound,
    upper: KeyBound,
) -> Seq<RowId>
    decreases s.len(),
{
    if s.len() == 0 {
        Seq::empty()
    } else {
        let rest = ids_in_range(s.drop_last(), lower, upper);
        if in_lower(s.last().0, lower) && in_upper(s.last().0, upper) {
            rest + s.last().1
        } else {
            rest
        }
    }
}

/// In sorted entries, the bucket of a key that occurs is that entry's ids.
pub proof fn lemma_bucket_at(s: Seq<(ValueView, Seq<RowId>)>, i: int)
    requires
        sorted_keys(s),
        0 <= i < s.len(),
    ensures
        bucket_of(s, s[i].0) == s[i].1,
{
    let k = s[i].0;
    assert(exists|j: int| 0 <= j < s.len() && s[j].0 == k);
    let c = choose|j: int| 0 <= j < s.len() && s[j].0 == k;
    lemma_value_order(k, k, k);
    if c < i {
        assert(value_lt(s[c].0, s[i].0));
    } else if i < c {
        assert(value_lt(s[i].0, s[c].0));
    }
}

/// Entries that all fall outside the bounds contribute no ids.
pub proof fn lemma_range_none(s: Seq<(ValueView, Seq<RowId>)>, lower: KeyBound, upper: KeyBound)
    requires
        forall|i: int| 0 <= i < s.len() ==> !(in_lower(s[i].0, lower) && in_upper(s[i].0, upper)),
    ensures
        ids_in_range(s, lower, upper) == Seq::<RowId>::empty(),
    decreases s.len(),
{
    if s.len() > 0 {
        lemma_range_none(s.drop_last(), lower, upper);
    }
}

/// Entries from `j` on that all fall outside the bounds contribute no ids.
pub proof fn lemma_range_prefix(
    s: Seq<(ValueView, Seq<RowId>)>,
    j: int,
    lower: KeyBound,
    upper: KeyBound,
)
    requires
        0 <= j <= s.len(),
        forall|i: int| j <= i < s.len() ==> !(in_lower(s[i].0, lower) && in_upper(s[i].0, upper)),
    ensures
        ids_in_range(s, lower, upper) == ids_in_range(s.take(j), lower, upper),
    decreases s.len(),
{
    if s.len() > j {
        lemma_range_prefix(s.drop_last(), j, lower, upper);
        assert(s.drop_last().take(j) =~= s.take(j));
    } else {
        assert(s.take(j) =~= s);
    }
}

/// Appends a copy of `ids` to `out`.
fn append_ids(out: &mut Vec<RowId>, ids: &Vec<RowId>)
    ensures
        final(out)@ == old(out)@ + ids@,
{
    let ghost start = out@;
    for j in 0..ids.len()
        invariant
            out@ == start + ids@.take(j as int),
    {
        out.push(ids[j]);
        assert(ids@.take(j + 1) =~= ids@.take(j as int).push(ids@[j as int]));
    }
    assert(ids@.take(ids@.len() as int) =~= ids@);
}

/// Whether `k` lies on the allowed side of `upper`.
fn within_upper(k: &Value, upper: &KeyBound) -> (r: bool)
    ensures
        r == in_upper(k@, *upper),
{
    match upper {
        KeyBound::Included(v) => !v.less_than(k),
        KeyBound::Excluded(v) => k.less_than(v),
        KeyBound::Unbounded => true,
    }
}

impl Index {
    /// Keys strictly sorted and no entry without row ids.
    pub open spec fn wf(&self) -> bool {
        &&& sorted_keys(self@)
        &&& forall|i: int| 0 <= i < self@.len() ==> self@[i].1.len() > 0
    }

    /// The row ids stored under `k`, in insertion order.
    pub open spec fn bucket(&self, k: ValueView) -> Seq<RowId> {
        bucket_of(self@, k)
    }

    /// An index with no entries.
    pub fn new() -> (r: Index)
        ensures
            r.wf(),
            r@ == Seq::<(ValueView, Seq<RowId>)>::empty(),
    {
        Index { entries: Vec::new() }
    }

    /// Binary search for `v`: `Ok` with its position, or `Err` with the
    /// position where it would be inserted.
    fn find(&self, v: &Value) -> (r: Result<usize, usize>)
        requires
            self.wf(),
        ensures
            r matches Ok(i) ==> i < self@.len() && self@[i as int].0 == v@,
            r matches Err(i) ==> {
                &&& i <= self@.len()
                &&& forall|j: int| 0 <= j < i ==> value_lt(#[trigger] self@[j].0, v@)
                &&& forall|j: int| i <= j < self@.len() ==> value_lt(v@, #[trigger] self@[j].0)
            },
    {
        let mut lo: usize = 0;
        let mut hi: usize = self.entries.len();
        while lo < hi
            invariant
                self.wf(),
                0 <= lo <= hi <= self@.len(),
                self@.len() == self.entries@.len(),
                forall|j: int| 0 <= j < lo ==> value_lt(#[trigger] self@[j].0, v@),
                forall|j: int| hi <= j < self@.len() ==> value_lt(v@, #[trigger] self@[j].0),
            decreases hi - lo,
        {
            let mid = lo + (hi - lo) / 2;
            let k = &self.entries[mid].0;
            assert(k@ == self@[mid as int].0);
            if k.less_than(v) {
                assert forall|j: int| 0 <= j < mid + 1 implies value_lt(#[trigger] self@[j].0, v@) by {
                    lemma_value_order(self@[j].0, k@, v@);
                }
                lo = mid + 1;
            } else if v.less_than(k) {
                assert forall|j: int| mid <= j < self@.len() implies value_lt(v@, #[trigger] self@[j].0) by {
                    lemma_value_order(v@, k@, self@[j].0);
                }
                hi = mid;
            } else {
                proof {
                    lemma_value_order(k@, v@, v@);
                }
                return Ok(mid);
            }
        }
        Err(lo)
    }
    /// Appends `row_id` to the row ids of `value`, adding an entry for
    /// `value` when it has none.
    pub fn insert(&mut self, value: Value, row_id: RowId)
        requires
            old(self).wf(),
        ensures
            final(self).wf(),
            forall|k: ValueView|
                #[trigger] bucket_of(final(self)@, k) == if k == value@ {
                    bucket_of(old(self)@, k).push(row_id)
                } else {
                    bucket_of(old(self)@, k)
                },
    {
        let ghost s0 = self@;
        match self.find(&value) {
            Ok(i) => {
                self.entries[i].1.push(row_id);
                let ghost s1 = self@;
                assert(s1 =~= s0.update(i as int, (s0[i as int].0, s0[i as int].1.push(row_id))));
                assert forall|k: ValueView| #[trigger] bucket_of(s1, k) == if k == value@ {
                    bucket_of(s0, k).push(row_id)
                } else {
                    bucket_of(s0, k)
                } by {
                    lemma_bucket_at(s0, i as int);
                    lemma_bucket_at(s1, i as int);
                    if exists|j: int| 0 <= j < s0.len() && s0[j].0 == k {
                        let j = choose|j: int| 0 <= j < s0.len() && s0[j].0 == k;
                        lemma_bucket_at(s0, j);
                        lemma_bucket_at(s1, j);
                    } else {
                        assert(!exists|j: int| 0 <= j < s1.len() && s1[j].0 == k);
                    }
                }
            },
            Err(i) => {
                let mut ids: Vec<RowId> = Vec::new();
                ids.push(row_id);
                let ghost kv = value@;
                self.entries.insert(i, (value, ids));
                let ghost s1 = self@;
                assert(s1 =~= s0.insert(i as int, (kv, seq![row_id])));
                assert forall|k: ValueView| #[trigger] bucket_of(s1, k) == if k == kv {
                    bucket_of(s0, k).push(row_id)
                } else {
                    bucket_of(s0, k)
                } by {
                    lemma_bucket_at(s1, i as int);
                    assert(bucket_of(s0, kv) == Seq::<RowId>::empty()) by {
                        lemma_value_order(kv, kv, kv);
                    }
                    if exists|j: int| 0 <= j < s0.len() && s0[j].0 == k {
                        let j = choose|j: int| 0 <= j < s0.len() && s0[j].0 == k;
                        lemma_bucket_at(s0, j);
                        if j < i {
                            lemma_bucket_at(s1, j);
                        } else {
                            lemma_bucket_at(s1, j + 1);
                        }
                    } else if k != kv {
                        assert(!exists|j: int| 0 <= j < s1.len() && s1[j].0 == k);
                    }
                }
            },
        }
    }

    /// Removes `row_id` from the row ids of `value`, dropping the entry once
    /// it holds none; nothing happens where the pair is absent.
    pub fn remove(&mut self, value: &Value, row_id: RowId)
        requires
            old(self).wf(),
        ensures
            final(self).wf(),
            forall|k: ValueView|
                #[trigger] bucket_of(final(self)@, k) == if k == value@ {
                    bucket_of(old(self)@, k).filter(|x: RowId| x != row_id)
                } else {
                    bucket_of(old(self)@, k)
                },
    {
        let ghost s0 = self@;
        let ghost keep = |x: RowId| x != row_id;
        match self.find(value) {
            Ok(i) => {
                let mut kept: Vec<RowId> = Vec::new();
                let n = self.entries[i].1.len();
                for j in 0..n
                    invariant
                        self@ == s0,
                        self.entries@.len() == s0.len(),
                        i < s0.len(),
                        n == s0[i as int].1.len(),
                        keep == (|x: RowId| x != row_id),
                        kept@ == s0[i as int].1.take(j as int).filter(keep),
                {
                    let x = self.entries[i].1[j];
                    if x != row_id {
                        kept.push(x);
                    }
                    proof {
                        let t = s0[i as int].1.take(j + 1);
                        assert(x == s0[i as int].1[j as int]);
                        assert(t.drop_last() =~= s0[i as int].1.take(j as int));
                        assert(t.last() == x);
                        reveal(Seq::filter);
                        assert(kept@ == t.filter(keep));
                    }
                }
                assert(s0[i as int].1.take(n as int) =~= s0[i as int].1);
                proof {
                    lemma_bucket_at(s0, i as int);
                }
                if kept.len() == 0 {
                    self.entries.remove(i);
                    let ghost s1 = self@;
                    assert(s1 =~= s0.remove(i as int));
                    assert forall|k: ValueView| #[trigger] bucket_of(s1, k) == if k == value@ {
                        bucket_of(s0, k).filter(keep)
                    } else {
                        bucket_of(s0, k)
                    } by {
                        lemma_value_order(k, k, k);
                        assert(s0[i as int].0 == value@);
                        if exists|j: int| 0 <= j < s0.len() && s0[j].0 == k {
                            let j = choose|j: int| 0 <= j < s0.len() && s0[j].0 == k;
                            lemma_bucket_at(s0, j);
                            if j < i {
                                lemma_bucket_at(s1, j);
                            } else if j > i {
                                lemma_bucket_at(s1, j - 1);
                            } else {
                                assert forall|m: int| 0 <= m < s1.len() implies s1[m].0 != k by {
                                    lemma_value_order(k, k, k);
                                    if m < i {
                                        assert(value_lt(s0[m].0, s0[i as int].0));
                                    } else {
                                        assert(value_lt(s0[i as int].0, s0[m + 1].0));
                                    }
                                }
                            }
                        } else {
                            assert(!exists|j: int| 0 <= j < s1.len() && s1[j].0 == k);
                        }
                    }
                } else {
                    self.entries[i].1 = kept;
                    let ghost s1 = self@;
                    assert(s1 =~= s0.update(i as int, (s0[i as int].0, s0[i as int].1.filter(keep))));
                    assert forall|k: ValueView| #[trigger] bucket_of(s1, k) == if k == value@ {
                        bucket_of(s0, k).filter(keep)
                    } else {
                        bucket_of(s0, k)
                    } by {
                        lemma_bucket_at(s1, i as int);
                        if exists|j: int| 0 <= j < s0.len() && s0[j].0 == k {
                            let j = choose|j: int| 0 <= j < s0.len() && s0[j].0 == k;
                            lemma_bucket_at(s0, j);
                            lemma_bucket_at(s1, j);
                        } else {
                            assert(!exists|j: int| 0 <= j < s1.len() && s1[j].0 == k);
                        }
                    }
                }
            },
            Err(_) => {
                proof {
                    assert(bucket_of(s0, value@) == Seq::<RowId>::empty()) by {
                        lemma_value_order(value@, value@, value@);
                    }
                    reveal(Seq::filter);
                    assert(Seq::<RowId>::empty().filter(keep) =~= Seq::<RowId>::empty());
                }
            },
        }
    }

    /// The row ids stored under `value`, in insertion order; empty where
    /// the key is absent.
    pub fn lookup_eq(&self, value: &Value) -> (r: Vec<RowId>)
        requires
            self.wf(),
        ensures
            r@ == self.bucket(value@),
    {
        let mut out: Vec<RowId> = Vec::new();
        match self.find(value) {
            Ok(i) => {
                proof {
                    lemma_bucket_at(self@, i as int);
                }
                append_ids(&mut out, &self.entries[i].1);
                assert(out@ =~= self.bucket(value@));
            },
            Err(_) => {
                proof {
                    lemma_value_order(value@, value@, value@);
                }
                assert(out@ =~= self.bucket(value@));
            },
        }
        out
    }

    /// The row ids of every key within the two bounds, key by key in
    /// ascending key order.
    pub fn lookup_range(&self, lower: &KeyBound, upper: &KeyBound) -> (r: Vec<RowId>)
        requires
            self.wf(),
        ensures
            r@ == ids_in_range(self@, *lower, *upper),
    {
        let ghost s = self@;
        let n = self.entries.len();
        assert(s.len() == n);
        let start: usize = match lower {
            KeyBound::Unbounded => 0,
            KeyBound::Included(v) => match self.find(v) {
                Ok(i) => i,
                Err(i) => i,
            },
            KeyBound::Excluded(v) => match self.find(v) {
                Ok(i) => i + 1,
                Err(i) => i,
            },
        };
        proof {
            assert forall|j: int| 0 <= j < s.len() implies (j < start <==> !in_lower(
                #[trigger] s[j].0,
                *lower,
            )) by {
                match lower {
                    KeyBound::Included(v) => {
                        lemma_value_order(s[j].0, v@, v@);
                        if j < start && start < s.len() {
                            lemma_value_order(s[j].0, s[start as int].0, v@);
                        }
                        if j >= start && start < s.len() {
                            lemma_value_order(v@, s[start as int].0, s[j].0);
                            lemma_value_order(s[j].0, v@, s[start as int].0);
                        }
                    },
                    KeyBound::Excluded(v) => {
                        lemma_value_order(s[j].0, v@, v@);
                        if start > 0 && j < start {
                            lemma_value_order(s[j].0, s[start - 1].0, v@);
                            lemma_value_order(v@, s[start - 1].0, s[j].0);
                        }
                        if j >= start && start < s.len() {
                            lemma_value_order(v@, s[start as int].0, s[j].0);
                        }
                    },
                    KeyBound::Unbounded => {},
                }
            }
            lemma_range_none(s.take(start as int), *lower, *upper);
        }
        let mut out: Vec<RowId> = Vec::new();
        let mut j: usize = start;
        while j < self.entries.len() && within_upper(&self.entries[j].0, upper)
            invariant
                self@ == s,
                self.wf(),
                self.entries@.len() == s.len(),
                start <= j <= s.len(),
                forall|m: int| 0 <= m < s.len() ==> (m < start <==> !in_lower(#[trigger] s[m].0, *lower)),
                forall|m: int| start <= m < j ==> in_upper(#[trigger] s[m].0, *upper),
                out@ == ids_in_range(s.take(j as int), *lower, *upper),
            decreases s.len() - j,
        {
            assert(s.take(j + 1).drop_last() =~= s.take(j as int));
            append_ids(&mut out, &self.entries[j].1);
            j = j + 1;
        }
        proof {
            if j < s.len() {
                assert forall|m: int| j <= m < s.len() implies !in_upper(#[trigger] s[m].0, *upper) by {
                    match upper {
                        KeyBound::Included(v) => {
                            lemma_value_order(v@, s[j as int].0, s[m].0);
                        },
                        KeyBound::Excluded(v) => {
                            lemma_value_order(s[j as int].0, s[m].0, v@);
                            lemma_value_order(s[m].0, v@, v@);
                            lemma_value_order(s[j as int].0, v@, s[m].0);
                        },
                        KeyBound::Unbounded => {},
                    }
                }
            }
            lemma_range_prefix(s, j as int, *lower, *upper);
        }
        out
    }
}

} // verus!
