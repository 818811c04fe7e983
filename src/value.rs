//! Typed scalar values and their total order.
//!
//! The order puts every `Integer` before every `Text`; integers compare
//! numerically and texts compare by code point, character by character
//! (the order of Rust's `str`).

use vstd::prelude::*;
use crate::text::chars_of;

verus! {

/// A typed value stored in a column.
#[derive(Debug, Clone)]
pub enum Value {
    Integer(i64),
    Text(String),
}

/// The mathematical model of a [`Value`].
pub ghost enum ValueView {
    Integer(i64),
    Text(Seq<char>),
}

impl View for Value {
    type V = ValueView;

    open spec fn view(&self) -> ValueView {
        match self {
            Value::Integer(n) => ValueView::Integer(*n),
            Value::Text(s) => ValueView::Text(s@),
        }
    }
}

/// Strict lexicographic order on character sequences, by code point.
pub open spec fn text_lt(a: Seq<char>, b: Seq<char>) -> bool
    decreases a.len(),
{
    if a.len() == 0 {
        b.len() > 0
    } else if b.len() == 0 {
        false
    } else if a[0] != b[0] {
        (a[0] as int) < (b[0] as int)
    } else {
        text_lt(a.drop_first(), b.drop_first())
    }
}

/// Strict total order on values: integers first, then texts.
pub open spec fn value_lt(a: ValueView, b: ValueView) -> bool {
    match (a, b) {
        (ValueView::Integer(x), ValueView::Integer(y)) => x < y,
        (ValueView::Integer(_), ValueView::Text(_)) => true,
        (ValueView::Text(_), ValueView::Integer(_)) => false,
        (ValueView::Text(s), ValueView::Text(t)) => text_lt(s, t),
    }
}

/// Comparing past a common prefix does not change the text order.
pub proof fn lemma_text_lt_skip(a: Seq<char>, b: Seq<char>, i: int)
    requires
        0 <= i <= a.len(),
        i <= b.len(),
        forall|j: int| 0 <= j < i ==> a[j] == b[j],
    ensures
        text_lt(a, b) == text_lt(a.skip(i), b.skip(i)),
    decreases i,
{
    if i > 0 {
        lemma_text_lt_skip(a.drop_first(), b.drop_first(), i - 1);
        assert(a.drop_first().skip(i - 1) =~= a.skip(i));
        assert(b.drop_first().skip(i - 1) =~= b.skip(i));
    } else {
        assert(a.skip(0) =~= a);
        assert(b.skip(0) =~= b);
    }
}

pub proof fn lemma_text_lt_irreflexive(a: Seq<char>)
    ensures
        !text_lt(a, a),
    decreases a.len(),
{
    if a.len() > 0 {
        lemma_text_lt_irreflexive(a.drop_first());
    }
}

pub proof fn lemma_text_lt_transitive(a: Seq<char>, b: Seq<char>, c: Seq<char>)
    requires
        text_lt(a, b),
        text_lt(b, c),
    ensures
        text_lt(a, c),
    decreases a.len(),
{
    if a.len() > 0 && a[0] == b[0] && b[0] == c[0] {
        lemma_text_lt_transitive(a.drop_first(), b.drop_first(), c.drop_first());
    }
}

pub proof fn lemma_text_lt_total(a: Seq<char>, b: Seq<char>)
    ensures
        a == b || text_lt(a, b) || text_lt(b, a),
    decreases a.len(),
{
    if a.len() > 0 && b.len() > 0 && a[0] == b[0] {
        lemma_text_lt_total(a.drop_first(), b.drop_first());
        if a.drop_first() == b.drop_first() {
            assert(a =~= seq![a[0]] + a.drop_first());
            assert(b =~= seq![b[0]] + b.drop_first());
        }
    } else if a.len() > 0 && b.len() > 0 {
        assert((a[0] as int) != (b[0] as int));
    } else if a.len() == 0 && b.len() == 0 {
        assert(a =~= b);
    }
}

pub proof fn lemma_text_lt_asymmetric(a: Seq<char>, b: Seq<char>)
    requires
        text_lt(a, b),
    ensures
        !text_lt(b, a),
{
    if text_lt(b, a) {
        lemma_text_lt_transitive(a, b, a);
        lemma_text_lt_irreflexive(a);
    }
}

/// The value order is irreflexive, transitive and total.
pub proof fn lemma_value_order(a: ValueView, b: ValueView, c: ValueView)
    ensures
        !value_lt(a, a),
        value_lt(a, b) && value_lt(b, c) ==> value_lt(a, c),
        a == b || value_lt(a, b) || value_lt(b, a),
        value_lt(a, b) ==> !value_lt(b, a),
{
    match (a, b, c) {
        (ValueView::Text(s), ValueView::Text(t), ValueView::Text(u)) => {
            lemma_text_lt_irreflexive(s);
            lemma_text_lt_total(s, t);
            if text_lt(s, t) && text_lt(t, u) {
                lemma_text_lt_transitive(s, t, u);
            }
            if text_lt(s, t) {
                lemma_text_lt_asymmetric(s, t);
            }
        },
        (ValueView::Text(s), ValueView::Text(t), _) => {
            lemma_text_lt_irreflexive(s);
            lemma_text_lt_total(s, t);
            if text_lt(s, t) {
                lemma_text_lt_asymmetric(s, t);
            }
        },
        (ValueView::Text(s), _, _) => {
            lemma_text_lt_irreflexive(s);
        },
        _ => {},
    }
}

/// Code-point order on two character vectors.
fn chars_lt(a: &Vec<char>, b: &Vec<char>) -> (r: bool)
    ensures
        r == text_lt(a@, b@),
{
    let mut i: usize = 0;
    while i < a.len() && i < b.len() && a[i] == b[i]
        invariant
            i <= a.len(),
            i <= b.len(),
            forall|j: int| 0 <= j < i ==> a@[j] == b@[j],
        decreases a.len() - i,
    {
        i = i + 1;
    }
    proof {
        lemma_text_lt_skip(a@, b@, i as int);
    }
    if i == a.len() {
        i < b.len()
    } else if i == b.len() {
        false
    } else {
        a[i] < b[i]
    }
}

impl Value {
    /// A copy of this value.
    pub fn duplicate(&self) -> (r: Value)
        ensures
            r@ == self@,
    {
        match self {
            Value::Integer(n) => Value::Integer(*n),
            Value::Text(s) => Value::Text(s.clone()),
        }
    }

    /// Whether `self` comes strictly before `other` in the value order.
    pub fn less_than(&self, other: &Value) -> (r: bool)
        ensures
            r == value_lt(self@, other@),
    {
        match (self, other) {
            (Value::Integer(x), Value::Integer(y)) => *x < *y,
            (Value::Integer(_), Value::Text(_)) => true,
            (Value::Text(_), Value::Integer(_)) => false,
            (Value::Text(s), Value::Text(t)) => {
                let a = chars_of(s.as_str());
                let b = chars_of(t.as_str());
                chars_lt(&a, &b)
            },
        }
    }

    /// Whether the two values are equal: same variant, same payload.
    pub fn equals(&self, other: &Value) -> (r: bool)
        ensures
            r == (self@ == other@),
    {
        match (self, other) {
            (Value::Integer(x), Value::Integer(y)) => *x == *y,
            (Value::Text(s), Value::Text(t)) => *s == *t,
            _ => false,
        }
    }
}

impl PartialEq for Value {
    fn eq(&self, other: &Value) -> (r: bool) {
        self.equals(other)
    }
}

impl vstd::std_specs::cmp::PartialEqSpecImpl for Value {
    open spec fn obeys_eq_spec() -> bool {
        true
    }

    open spec fn eq_spec(&self, other: &Value) -> bool {
        self@ == other@
    }
}

} // verus!
