//! The query parser.
//!
//! Grammar, over words separated by Unicode white space, keywords matched
//! without regard to ASCII case:
//!
//! `SELECT * FROM <table> [WHERE <column> <operator> <literal>] [;]`
//!
//! A `;` ending the last word is dropped before anything else. Words after
//! the ones the grammar reads are ignored. Words are split on white space
//! only, so a quoted literal cannot hold a space: `'Bob Smith'` splits into
//! `'Bob` and `Smith'`, and `'Bob` is rejected as an unterminated literal.

use vstd::prelude::*;
use vstd::string::StringExecFns;
use crate::value::{Value, ValueView};
use crate::text::{chars_of, split_words, word_spans};

verus! {

/// Comparison operators of a condition.
#[derive(Debug, Clone, Copy, PartialEq, Eq, Structural)]
pub enum Operator {
    Eq,
    Neq,
    Gt,
    Lt,
    Gte,
    Lte,
}

/// The single predicate of a query: `column operator value`.
#[derive(Debug, Clone)]
pub struct Condition {
    pub column: String,
    pub operator: Operator,
    pub value: Value,
}

/// A query: the table to read and an optional condition.
#[derive(Debug, Clone)]
pub struct Query {
    pub table_name: String,
    pub condition: Option<Condition>,
}

/// The model of a [`Condition`].
pub ghost struct ConditionView {
    pub column: Seq<char>,
    pub operator: Operator,
    pub value: ValueView,
}

/// The model of a [`Query`].
pub ghost struct QueryView {
    pub table_name: Seq<char>,
    pub condition: Option<ConditionView>,
}

impl View for Condition {
    type V = ConditionView;

    open spec fn view(&self) -> ConditionView {
        ConditionView { column: self.column@, operator: self.operator, value: self.value@ }
    }
}

impl View for Query {
    type V = QueryView;

    open spec fn view(&self) -> QueryView {
        QueryView {
            table_name: self.table_name@,
            condition: match self.condition {
                Some(c) => Some(c@),
                None => None,
            },
        }
    }
}

/// The words of a statement: its white-space separated words, with a `;`
/// ending the last word removed (and the word with it, if nothing is left).
pub open spec fn statement_words(s: Seq<char>) -> Seq<Seq<char>> {
    let w = split_words(s);
    if w.len() > 0 && w.last().len() > 0 && w.last().last() == ';' {
        if w.last().len() == 1 {
            w.drop_last()
        } else {
            w.update(w.len() - 1, w.last().drop_last())
        }
    } else {
        w
    }
}

/// `c` is the upper-case ASCII letter `upper`, or its lower-case form; any
/// other `upper` must match exactly.
pub open spec fn same_letter(c: char, upper: char) -> bool {
    c == upper || ('A' <= upper && upper <= 'Z' && (c as u32) as int == (upper as u32) as int + 32)
}

/// `word` spells the keyword `kw` (written in upper case), ignoring ASCII case.
pub open spec fn keyword_match(word: Seq<char>, kw: Seq<char>) -> bool {
    word.len() == kw.len() && forall|i: int| 0 <= i < kw.len() ==> same_letter(word[i], kw[i])
}

/// The operator that `word` spells, if any.
pub open spec fn operator_of(word: Seq<char>) -> Option<Operator> {
    if word == "="@ {
        Some(Operator::Eq)
    } else if word == "!="@ {
        Some(Operator::Neq)
    } else if word == ">"@ {
        Some(Operator::Gt)
    } else if word == "<"@ {
        Some(Operator::Lt)
    } else if word == ">="@ {
        Some(Operator::Gte)
    } else if word == "<="@ {
        Some(Operator::Lte)
    } else {
        None
    }
}

pub open spec fn is_digit(c: char) -> bool {
    '0' <= c && c <= '9'
}

/// A non-empty run of ASCII decimal digits.
pub open spec fn all_digits(d: Seq<char>) -> bool {
    d.len() > 0 && forall|i: int| 0 <= i < d.len() ==> is_digit(d[i])
}

/// The number that a run of decimal digits denotes.
pub open spec fn digits_value(d: Seq<char>) -> int
    decreases d.len(),
{
    if d.len() == 0 {
        0
    } else {
        digits_value(d.drop_last()) * 10 + ((d.last() as u32) as int - ('0' as u32) as int)
    }
}

/// The 64-bit signed integer that `word` spells: an optional sign, then
/// decimal digits, with a value in range.
pub open spec fn int_literal(word: Seq<char>) -> Option<int> {
    if word.len() > 0 && word[0] == '-' && all_digits(word.drop_first()) {
        let v = -digits_value(word.drop_first());
        if v >= i64::MIN { Some(v) } else { None }
    } else if word.len() > 0 && word[0] == '+' && all_digits(word.drop_first()) {
        let v = digits_value(word.drop_first());
        if v <= i64::MAX { Some(v) } else { None }
    } else if all_digits(word) {
        let v = digits_value(word);
        if v <= i64::MAX { Some(v) } else { None }
    } else {
        None
    }
}

pub open spec fn is_quote(c: char) -> bool {
    c == '\'' || c == '"'
}

/// Starts like a number: a digit, or a sign followed by a digit.
pub open spec fn numeric_start(word: Seq<char>) -> bool {
    word.len() > 0 && (is_digit(word[0]) || ((word[0] == '-' || word[0] == '+') && word.len() > 1
        && is_digit(word[1])))
}

/// The value that a literal word denotes: an integer; or text between
/// matching single or double quotes; or the word itself as text when it
/// neither starts like a number nor starts or ends with a quote.
pub open spec fn literal_of(word: Seq<char>) -> Option<ValueView> {
    match int_literal(word) {
        Some(n) => Some(ValueView::Integer(n as i64)),
        None => if word.len() >= 2 && is_quote(word[0]) && word.last() == word[0] {
            Some(ValueView::Text(word.subrange(1, word.len() - 1)))
        } else if numeric_start(word) || (word.len() > 0 && (is_quote(word[0]) || is_quote(
            word.last(),
        ))) {
            None
        } else {
            Some(ValueView::Text(word))
        },
    }
}

/// What parsing `s` yields: the query, or the error message.
pub open spec fn parse_spec(s: Seq<char>) -> Result<QueryView, Seq<char>> {
    let w = statement_words(s);
    if w.len() < 4 {
        Err("Query too short"@)
    } else if !keyword_match(w[0], "SELECT"@) || w[1] != "*"@ || !keyword_match(w[2], "FROM"@) {
        Err("Invalid SELECT syntax"@)
    } else if w.len() > 4 && keyword_match(w[4], "WHERE"@) {
        if w.len() < 8 {
            Err("Incomplete WHERE clause"@)
        } else {
            match operator_of(w[6]) {
                None => Err("Unknown operator '"@ + w[6] + "'"@),
                Some(op) => match literal_of(w[7]) {
                    None => Err("Invalid value '"@ + w[7] + "'"@),
                    Some(v) => Ok(
                        QueryView {
                            table_name: w[3],
                            condition: Some(ConditionView { column: w[5], operator: op, value: v }),
                        },
                    ),
                },
            }
        }
    } else {
        Ok(QueryView { table_name: w[3], condition: None })
    }
}

/// The model of a parse outcome.
pub open spec fn outcome_view(r: Result<Query, String>) -> Result<QueryView, Seq<char>> {
    match r {
        Ok(q) => Ok(q@),
        Err(e) => Err(e@),
    }
}

/// Whether `chars[a..b]` spells `kw`, ignoring ASCII case.
fn keyword_at(chars: &Vec<char>, a: usize, b: usize, kw: &str) -> (r: bool)
    requires
        a <= b <= chars@.len(),
    ensures
        r == keyword_match(chars@.subrange(a as int, b as int), kw@),
{
    let k = chars_of(kw);
    let ghost w = chars@.subrange(a as int, b as int);
    if b - a != k.len() {
        return false;
    }
    let mut i: usize = 0;
    while i < k.len()
        invariant
            b - a == k@.len(),
            a <= b <= chars@.len(),
            k@ == kw@,
            w == chars@.subrange(a as int, b as int),
            i <= k@.len(),
            forall|j: int| 0 <= j < i ==> same_letter(w[j], k@[j]),
        decreases k@.len() - i,
    {
        let c = chars[a + i];
        let u = k[i];
        let same = c == u || ('A' <= u && u <= 'Z' && (c as u32) == (u as u32) + 32);
        if !same {
            return false;
        }
        i = i + 1;
    }
    true
}

/// Whether `chars[a..b]` is exactly `lit`.
fn span_is(chars: &Vec<char>, a: usize, b: usize, lit: &str) -> (r: bool)
    requires
        a <= b <= chars@.len(),
    ensures
        r == (chars@.subrange(a as int, b as int) == lit@),
{
    let k = chars_of(lit);
    let ghost w = chars@.subrange(a as int, b as int);
    if b - a != k.len() {
        return false;
    }
    let mut i: usize = 0;
    while i < k.len()
        invariant
            b - a == k@.len(),
            a <= b <= chars@.len(),
            k@ == lit@,
            w == chars@.subrange(a as int, b as int),
            i <= k@.len(),
            forall|j: int| 0 <= j < i ==> w[j] == k@[j],
        decreases k@.len() - i,
    {
        if chars[a + i] != k[i] {
            return false;
        }
        i = i + 1;
    }
    assert(w =~= lit@);
    true
}

/// Digits past `k` only make the number larger.
proof fn lemma_digits_grow(d: Seq<char>, k: int)
    requires
        0 <= k <= d.len(),
        forall|i: int| 0 <= i < d.len() ==> is_digit(d[i]),
    ensures
        digits_value(d.take(k)) <= digits_value(d),
        0 <= digits_value(d.take(k)),
    decreases d.len(),
{
    if d.len() > k {
        lemma_digits_grow(d.drop_last(), k);
        assert(d.drop_last().take(k) =~= d.take(k));
    } else {
        assert(d.take(k) =~= d);
        if d.len() > 0 {
            lemma_digits_grow(d.drop_last(), d.len() - 1);
            assert(d.drop_last().take(d.len() - 1) =~= d.drop_last());
        }
    }
}

/// The 64-bit signed integer that `d` spells, if it spells one.
fn parse_int(d: &Vec<char>) -> (r: Option<i64>)
    ensures
        r is Some <==> int_literal(d@) is Some,
        r matches Some(n) ==> int_literal(d@) == Some(n as int),
{
    let n = d.len();
    if n == 0 {
        return None;
    }
    let mut start: usize = 0;
    let mut negative = false;
    if d[0] == '-' {
        negative = true;
        start = 1;
    } else if d[0] == '+' {
        start = 1;
    }
    if start == n {
        return None;
    }
    let ghost body = d@.subrange(start as int, n as int);
    proof {
        if start == 1 {
            assert(body =~= d@.drop_first());
        } else {
            assert(body =~= d@);
        }
    }
    let limit: u128 = 9223372036854775808;
    let mut acc: u128 = 0;
    let mut big = false;
    for j in start..n
        invariant
            n == d@.len(),
            0 <= start < n,
            start <= 1,
            negative ==> start == 1 && d@[0] == '-',
            !negative && start == 1 ==> d@[0] == '+',
            start == 0 ==> d@[0] != '-' && d@[0] != '+',
            limit == 9223372036854775808u128,
            body == d@.subrange(start as int, n as int),
            forall|i: int| 0 <= i < j - start ==> is_digit(body[i]),
            big ==> digits_value(body.take(j - start)) > limit,
            !big ==> acc == digits_value(body.take(j - start)) && acc <= limit,
    {
        let c = d[j];
        if !('0' <= c && c <= '9') {
            proof {
                assert(body[j - start] == c);
                assert(!is_digit(body[j - start]));
                assert(!all_digits(body));
                if start == 1 {
                    assert(!is_digit(d@[0]));
                }
                assert(!all_digits(d@));
            }
            return None;
        }
        let digit = ((c as u32) - ('0' as u32)) as u128;
        assert(digit <= 9);
        proof {
            let t = body.take(j - start + 1);
            assert(t.drop_last() =~= body.take(j - start));
            assert(t.last() == c);
            assert(digits_value(t) == digits_value(body.take(j - start)) * 10 + digit);
            assert(0 <= digits_value(body.take(j - start))) by {
                lemma_digits_grow(body.take(j - start), 0);
                assert(body.take(j - start).take(0) =~= Seq::<char>::empty());
            }
        }
        if !big {
            assert(acc * 10 <= limit * 10) by (nonlinear_arith)
                requires
                    acc <= limit,
            ;
            let next = acc * 10 + digit;
            if next > limit {
                big = true;
            } else {
                acc = next;
            }
        }
    }
    proof {
        assert(body.take(n - start) =~= body);
    }
    if big {
        return None;
    }
    if negative {
        if acc == limit {
            Some(i64::MIN)
        } else {
            Some(-(acc as i64))
        }
    } else if acc < limit {
        Some(acc as i64)
    } else {
        None
    }
}

/// Parses a literal word: an integer, a quoted text, or a bare text.
pub fn parse_value(token: &str) -> (r: Result<Value, String>)
    ensures
        r matches Ok(v) ==> literal_of(token@) == Some(v@),
        r matches Err(e) ==> literal_of(token@) is None && e@ == "Invalid value '"@ + token@ + "'"@,
{
    let d = chars_of(token);
    let n = d.len();
    match parse_int(&d) {
        Some(v) => {
            return Ok(Value::Integer(v));
        },
        None => {},
    }
    let quoted_start = n > 0 && (d[0] == '\'' || d[0] == '"');
    if n >= 2 && quoted_start && d[n - 1] == d[0] {
        let inner = token.substring_char(1, n - 1);
        return Ok(Value::Text(String::from_str(inner)));
    }
    let numeric = n > 0 && (('0' <= d[0] && d[0] <= '9') || ((d[0] == '-' || d[0] == '+') && n > 1
        && '0' <= d[1] && d[1] <= '9'));
    let quote_end = n > 0 && (d[n - 1] == '\'' || d[n - 1] == '"');
    if numeric || quoted_start || quote_end {
        let mut e = String::from_str("Invalid value '");
        e.append(token);
        e.append("'");
        return Err(e);
    }
    Ok(Value::Text(String::from_str(token)))
}

/// Parses a query; on failure the message names the problem.
pub fn parse_query(sql: &str) -> (r: Result<Query, String>)
    ensures
        outcome_view(r) == parse_spec(sql@),
{
    let chars = chars_of(sql);
    let mut spans = word_spans(&chars);
    let ghost w = statement_words(sql@);
    let ns = spans.len();
    if ns > 0 {
        let (a, b) = spans[ns - 1];
        if chars[b - 1] == ';' {
            if b - 1 == a {
                spans.pop();
            } else {
                spans.set(ns - 1, (a, b - 1));
            }
        }
    }
    assert(spans@.len() == w.len());
    assert forall|k: int| 0 <= k < spans@.len() implies {
        &&& (#[trigger] spans@[k]).0 <= spans@[k].1 <= chars@.len()
        &&& chars@.subrange(spans@[k].0 as int, spans@[k].1 as int) == w[k]
    } by {
        if k == ns - 1 && spans@.len() == ns {
            assert(chars@.subrange(spans@[k].0 as int, spans@[k].1 as int) =~= w[k]);
        }
    }
    if spans.len() < 4 {
        return Err(String::from_str("Query too short"));
    }
    let (a0, b0) = spans[0];
    let (a1, b1) = spans[1];
    let (a2, b2) = spans[2];
    let (a3, b3) = spans[3];
    if !keyword_at(&chars, a0, b0, "SELECT") || !span_is(&chars, a1, b1, "*") || !keyword_at(&chars, a2, b2, "FROM") {
        return Err(String::from_str("Invalid SELECT syntax"));
    }
    let table_name = String::from_str(sql.substring_char(a3, b3));
    if spans.len() > 4 && keyword_at(&chars, spans[4].0, spans[4].1, "WHERE") {
        if spans.len() < 8 {
            return Err(String::from_str("Incomplete WHERE clause"));
        }
        let (a5, b5) = spans[5];
        let (a6, b6) = spans[6];
        let (a7, b7) = spans[7];
        let column = String::from_str(sql.substring_char(a5, b5));
        let operator = if span_is(&chars, a6, b6, "=") {
            Operator::Eq
        } else if span_is(&chars, a6, b6, "!=") {
            Operator::Neq
        } else if span_is(&chars, a6, b6, ">") {
            Operator::Gt
        } else if span_is(&chars, a6, b6, "<") {
            Operator::Lt
        } else if span_is(&chars, a6, b6, ">=") {
            Operator::Gte
        } else if span_is(&chars, a6, b6, "<=") {
            Operator::Lte
        } else {
            let mut e = String::from_str("Unknown operator '");
            e.append(sql.substring_char(a6, b6));
            e.append("'");
            return Err(e);
        };
        let value = match parse_value(sql.substring_char(a7, b7)) {
            Ok(v) => v,
            Err(e) => {
                return Err(e);
            },
        };
        Ok(Query { table_name, condition: Some(Condition { column, operator, value }) })
    } else {
        Ok(Query { table_name, condition: None })
    }
}

} // verus!
