//! Queries in the hands of callers.
use vstd::prelude::*;
use vstd::string::*;

use crate::document::value::{items_view, parts_view, Val, Value};
use crate::ffi::documents::{FL_Array, FL_Doc};
use crate::ffi::last_error::{arg_text, cstr_to_string, failed, succeeded, told, LastError};
use crate::query::{get_anchor_values, sort_values, AggregateOp, Filter, Operator, OrderBy, Query};

verus! {

/// A query that is being put together.
#[allow(non_camel_case_types)]
pub struct FL_Query {
    pub query: Query,
}

/// A condition with the given parts.
pub open spec fn filter_is(f: Filter, field: Seq<char>, op: Operator, value: Val) -> bool {
    f.field@ == field && f.op == op && f.value@ == value
}

/// `b` is the query `a` with one more condition.
pub open spec fn filtered(a: Query, b: Query, field: Seq<char>, op: Operator, value: Val) -> bool {
    &&& b == (Query { filters: b.filters, ..a })
    &&& b.filters@.len() == a.filters@.len() + 1
    &&& b.filters@.drop_last() == a.filters@
    &&& filter_is(b.filters@.last(), field, op, value)
}

/// `b` is the query `a` with one more condition of which it is enough to meet one.
pub open spec fn widened(a: Query, b: Query, field: Seq<char>, value: Val) -> bool {
    &&& b == (Query { or_groups: b.or_groups, ..a })
    &&& b.or_groups@.len() == a.or_groups@.len() + 1
    &&& b.or_groups@.drop_last() == a.or_groups@
    &&& b.or_groups@.last()@.len() == 1
    &&& filter_is(b.or_groups@.last()@[0], field, Operator::Eq, value)
}

/// A query for every document of a collection.
pub fn fl_query_new(last: &mut LastError, collection: Option<&[u8]>) -> (r: Option<FL_Query>)
    ensures
        match arg_text(collection) {
            Err(m) => r is None && final(last)@ == Some(told(m)),
            Ok(c) => {
                &&& final(last)@ is None
                &&& r matches Some(q) && q.query.collection@ == c && q.query.filters@.len() == 0
                    && q.query.or_groups@.len() == 0 && q.query.order_by@.len() == 0 && q.query.projection@.len() == 0
                    && q.query.limit is None && q.query.offset is None && !q.query.defer_blobs
                    && q.query.aggregations@.len() == 0 && q.query.start_at is None && q.query.start_after is None
                    && q.query.end_at is None && q.query.end_before is None
            },
        },
{
    match cstr_to_string(collection) {
        Err(e) => {
            let n: i32 = last.set_last_error(e.as_str());
            None
        },
        Ok(c) => {
            last.clear_last_error();
            Some(FL_Query { query: Query::new(c.as_str()) })
        },
    }
}

/// Appends a condition.
fn push_filter(q: &mut Query, field: String, op: Operator, value: Value)
    ensures
        filtered(*old(q), *final(q), field@, op, value@),
{
    let ghost before = q.filters@;
    q.filters.push(Filter { field, op, value });
    proof {
        assert(q.filters@.drop_last() =~= before);
    }
}

/// Adds a condition on a field that holds a text.
pub fn apply_string_filter(
    last: &mut LastError,
    query: Option<&mut FL_Query>,
    field: Option<&[u8]>,
    value: Option<&[u8]>,
    op: Operator,
) -> (n: i32)
    ensures
        query is None ==> failed(n, final(last)@, "null query handle"@),
        query matches Some(q) ==> match (arg_text(field), arg_text(value)) {
            (Err(m), _) => failed(n, final(last)@, m) && *final(q) == *q,
            (_, Err(m)) => failed(n, final(last)@, m) && *final(q) == *q,
            (Ok(f), Ok(v)) => succeeded(n, final(last)@) && filtered(q.query, final(q).query, f, op, Val::String(v)),
        },
{
    match query {
        None => last.set_last_error("null query handle"),
        Some(q) => match cstr_to_string(field) {
            Err(e) => last.set_last_error(e.as_str()),
            Ok(f) => match cstr_to_string(value) {
                Err(e) => last.set_last_error(e.as_str()),
                Ok(v) => {
                    push_filter(&mut q.query, f, op, Value::String(v));
                    last.clear_last_error();
                    0
                },
            },
        },
    }
}

/// Adds a condition on a field that holds an integer.
pub fn apply_int_filter(last: &mut LastError, query: Option<&mut FL_Query>, field: Option<&[u8]>, value: i64, op: Operator) -> (n:
    i32)
    ensures
        query is None ==> failed(n, final(last)@, "null query handle"@),
        query matches Some(q) ==> match arg_text(field) {
            Err(m) => failed(n, final(last)@, m) && *final(q) == *q,
            Ok(f) => succeeded(n, final(last)@) && filtered(q.query, final(q).query, f, op, Val::Int(value)),
        },
{
    match query {
        None => last.set_last_error("null query handle"),
        Some(q) => match cstr_to_string(field) {
            Err(e) => last.set_last_error(e.as_str()),
            Ok(f) => {
                push_filter(&mut q.query, f, op, Value::Int(value));
                last.clear_last_error();
                0
            },
        },
    }
}

/// Asks that a field holds a truth value.
pub fn fl_query_where_eq_bool(last: &mut LastError, query: Option<&mut FL_Query>, field: Option<&[u8]>, value: bool) -> (n: i32)
    ensures
        query is None ==> failed(n, final(last)@, "null query handle"@),
        query matches Some(q) ==> match arg_text(field) {
            Err(m) => failed(n, final(last)@, m) && *final(q) == *q,
            Ok(f) => succeeded(n, final(last)@) && filtered(q.query, final(q).query, f, Operator::Eq, Val::Bool(value)),
        },
{
    match query {
        None => last.set_last_error("null query handle"),
        Some(q) => match cstr_to_string(field) {
            Err(e) => last.set_last_error(e.as_str()),
            Ok(f) => {
                push_filter(&mut q.query, f, Operator::Eq, Value::Bool(value));
                last.clear_last_error();
                0
            },
        },
    }
}

/// Asks that a field is a text.
pub fn fl_query_where_eq_str(last: &mut LastError, query: Option<&mut FL_Query>, field: Option<&[u8]>, value: Option<&[u8]>) -> (n: i32)
    ensures
        query is None ==> failed(n, final(last)@, "null query handle"@),
        query matches Some(q) ==> match (arg_text(field), arg_text(value)) {
            (Err(m), _) => failed(n, final(last)@, m) && *final(q) == *q,
            (_, Err(m)) => failed(n, final(last)@, m) && *final(q) == *q,
            (Ok(f), Ok(v)) => {
                &&& succeeded(n, final(last)@)
                &&& filtered(q.query, final(q).query, f, Operator::Eq, Val::String(v))
            },
        },
{
    apply_string_filter(last, query, field, value, Operator::Eq)
}

/// Asks that a field is an integer.
pub fn fl_query_where_eq_int(last: &mut LastError, query: Option<&mut FL_Query>, field: Option<&[u8]>, value: i64) -> (n: i32)
    ensures
        query is None ==> failed(n, final(last)@, "null query handle"@),
        query matches Some(q) ==> match arg_text(field) {
            Err(m) => failed(n, final(last)@, m) && *final(q) == *q,
            Ok(f) => succeeded(n, final(last)@) && filtered(q.query, final(q).query, f, Operator::Eq, Val::Int(value)),
        },
{
    apply_int_filter(last, query, field, value, Operator::Eq)
}

/// Asks that a field is not a text.
pub fn fl_query_where_ne_str(last: &mut LastError, query: Option<&mut FL_Query>, field: Option<&[u8]>, value: Option<&[u8]>) -> (n: i32)
    ensures
        query is None ==> failed(n, final(last)@, "null query handle"@),
        query matches Some(q) ==> match (arg_text(field), arg_text(value)) {
            (Err(m), _) => failed(n, final(last)@, m) && *final(q) == *q,
            (_, Err(m)) => failed(n, final(last)@, m) && *final(q) == *q,
            (Ok(f), Ok(v)) => {
                &&& succeeded(n, final(last)@)
                &&& filtered(q.query, final(q).query, f, Operator::Ne, Val::String(v))
            },
        },
{
    apply_string_filter(last, query, field, value, Operator::Ne)
}

/// Asks that a field is not an integer.
pub fn fl_query_where_ne_int(last: &mut LastError, query: Option<&mut FL_Query>, field: Option<&[u8]>, value: i64) -> (n: i32)
    ensures
        query is None ==> failed(n, final(last)@, "null query handle"@),
        query matches Some(q) ==> match arg_text(field) {
            Err(m) => failed(n, final(last)@, m) && *final(q) == *q,
            Ok(f) => succeeded(n, final(last)@) && filtered(q.query, final(q).query, f, Operator::Ne, Val::Int(value)),
        },
{
    apply_int_filter(last, query, field, value, Operator::Ne)
}

/// Asks that a field is greater than a text.
pub fn fl_query_where_gt_str(last: &mut LastError, query: Option<&mut FL_Query>, field: Option<&[u8]>, value: Option<&[u8]>) -> (n: i32)
    ensures
        query is None ==> failed(n, final(last)@, "null query handle"@),
        query matches Some(q) ==> match (arg_text(field), arg_text(value)) {
            (Err(m), _) => failed(n, final(last)@, m) && *final(q) == *q,
            (_, Err(m)) => failed(n, final(last)@, m) && *final(q) == *q,
            (Ok(f), Ok(v)) => {
                &&& succeeded(n, final(last)@)
                &&& filtered(q.query, final(q).query, f, Operator::Gt, Val::String(v))
            },
        },
{
    apply_string_filter(last, query, field, value, Operator::Gt)
}

/// Asks that a field is greater than an integer.
pub fn fl_query_where_gt_int(last: &mut LastError, query: Option<&mut FL_Query>, field: Option<&[u8]>, value: i64) -> (n: i32)
    ensures
        query is None ==> failed(n, final(last)@, "null query handle"@),
        query matches Some(q) ==> match arg_text(field) {
            Err(m) => failed(n, final(last)@, m) && *final(q) == *q,
            Ok(f) => succeeded(n, final(last)@) && filtered(q.query, final(q).query, f, Operator::Gt, Val::Int(value)),
        },
{
    apply_int_filter(last, query, field, value, Operator::Gt)
}

/// Asks that a field is no less than a text.
pub fn fl_query_where_gte_str(last: &mut LastError, query: Option<&mut FL_Query>, field: Option<&[u8]>, value: Option<&[u8]>) -> (n: i32)
    ensures
        query is None ==> failed(n, final(last)@, "null query handle"@),
        query matches Some(q) ==> match (arg_text(field), arg_text(value)) {
            (Err(m), _) => failed(n, final(last)@, m) && *final(q) == *q,
            (_, Err(m)) => failed(n, final(last)@, m) && *final(q) == *q,
            (Ok(f), Ok(v)) => {
                &&& succeeded(n, final(last)@)
                &&& filtered(q.query, final(q).query, f, Operator::Gte, Val::String(v))
            },
        },
{
    apply_string_filter(last, query, field, value, Operator::Gte)
}

/// Asks that a field is no less than an integer.
pub fn fl_query_where_gte_int(last: &mut LastError, query: Option<&mut FL_Query>, field: Option<&[u8]>, value: i64) -> (n: i32)
    ensures
        query is None ==> failed(n, final(last)@, "null query handle"@),
        query matches Some(q) ==> match arg_text(field) {
            Err(m) => failed(n, final(last)@, m) && *final(q) == *q,
            Ok(f) => succeeded(n, final(last)@) && filtered(q.query, final(q).query, f, Operator::Gte, Val::Int(value)),
        },
{
    apply_int_filter(last, query, field, value, Operator::Gte)
}

/// Asks that a field is less than a text.
pub fn fl_query_where_lt_str(last: &mut LastError, query: Option<&mut FL_Query>, field: Option<&[u8]>, value: Option<&[u8]>) -> (n: i32)
    ensures
        query is None ==> failed(n, final(last)@, "null query handle"@),
        query matches Some(q) ==> match (arg_text(field), arg_text(value)) {
            (Err(m), _) => failed(n, final(last)@, m) && *final(q) == *q,
            (_, Err(m)) => failed(n, final(last)@, m) && *final(q) == *q,
            (Ok(f), Ok(v)) => {
                &&& succeeded(n, final(last)@)
                &&& filtered(q.query, final(q).query, f, Operator::Lt, Val::String(v))
            },
        },
{
    apply_string_filter(last, query, field, value, Operator::Lt)
}

/// Asks that a field is less than an integer.
pub fn fl_query_where_lt_int(last: &mut LastError, query: Option<&mut FL_Query>, field: Option<&[u8]>, value: i64) -> (n: i32)
    ensures
        query is None ==> failed(n, final(last)@, "null query handle"@),
        query matches Some(q) ==> match arg_text(field) {
            Err(m) => failed(n, final(last)@, m) && *final(q) == *q,
            Ok(f) => succeeded(n, final(last)@) && filtered(q.query, final(q).query, f, Operator::Lt, Val::Int(value)),
        },
{
    apply_int_filter(last, query, field, value, Operator::Lt)
}

/// Asks that a field is no greater than a text.
pub fn fl_query_where_lte_str(last: &mut LastError, query: Option<&mut FL_Query>, field: Option<&[u8]>, value: Option<&[u8]>) -> (n: i32)
    ensures
        query is None ==> failed(n, final(last)@, "null query handle"@),
        query matches Some(q) ==> match (arg_text(field), arg_text(value)) {
            (Err(m), _) => failed(n, final(last)@, m) && *final(q) == *q,
            (_, Err(m)) => failed(n, final(last)@, m) && *final(q) == *q,
            (Ok(f), Ok(v)) => {
                &&& succeeded(n, final(last)@)
                &&& filtered(q.query, final(q).query, f, Operator::Lte, Val::String(v))
            },
        },
{
    apply_string_filter(last, query, field, value, Operator::Lte)
}

/// Asks that a field is no greater than an integer.
pub fn fl_query_where_lte_int(last: &mut LastError, query: Option<&mut FL_Query>, field: Option<&[u8]>, value: i64) -> (n: i32)
    ensures
        query is None ==> failed(n, final(last)@, "null query handle"@),
        query matches Some(q) ==> match arg_text(field) {
            Err(m) => failed(n, final(last)@, m) && *final(q) == *q,
            Ok(f) => succeeded(n, final(last)@) && filtered(q.query, final(q).query, f, Operator::Lte, Val::Int(value)),
        },
{
    apply_int_filter(last, query, field, value, Operator::Lte)
}

/// Asks that a field holds words.
pub fn fl_query_where_match(last: &mut LastError, query: Option<&mut FL_Query>, field: Option<&[u8]>, value: Option<&[u8]>) -> (n: i32)
    ensures
        query is None ==> failed(n, final(last)@, "null query handle"@),
        query matches Some(q) ==> match (arg_text(field), arg_text(value)) {
            (Err(m), _) => failed(n, final(last)@, m) && *final(q) == *q,
            (_, Err(m)) => failed(n, final(last)@, m) && *final(q) == *q,
            (Ok(f), Ok(v)) => {
                &&& succeeded(n, final(last)@)
                &&& filtered(q.query, final(q).query, f, Operator::Match, Val::String(v))
            },
        },
{
    apply_string_filter(last, query, field, value, Operator::Match)
}

/// Asks that a field holds words that begin so.
pub fn fl_query_where_match_prefix(last: &mut LastError, query: Option<&mut FL_Query>, field: Option<&[u8]>, value: Option<&[u8]>) -> (n: i32)
    ensures
        query is None ==> failed(n, final(last)@, "null query handle"@),
        query matches Some(q) ==> match (arg_text(field), arg_text(value)) {
            (Err(m), _) => failed(n, final(last)@, m) && *final(q) == *q,
            (_, Err(m)) => failed(n, final(last)@, m) && *final(q) == *q,
            (Ok(f), Ok(v)) => {
                &&& succeeded(n, final(last)@)
                &&& filtered(q.query, final(q).query, f, Operator::MatchPrefix, Val::String(v))
            },
        },
{
    apply_string_filter(last, query, field, value, Operator::MatchPrefix)
}

/// Asks that a field contains a text.
pub fn fl_query_where_contains(last: &mut LastError, query: Option<&mut FL_Query>, field: Option<&[u8]>, value: Option<&[u8]>) -> (n: i32)
    ensures
        query is None ==> failed(n, final(last)@, "null query handle"@),
        query matches Some(q) ==> match (arg_text(field), arg_text(value)) {
            (Err(m), _) => failed(n, final(last)@, m) && *final(q) == *q,
            (_, Err(m)) => failed(n, final(last)@, m) && *final(q) == *q,
            (Ok(f), Ok(v)) => {
                &&& succeeded(n, final(last)@)
                &&& filtered(q.query, final(q).query, f, Operator::Contains, Val::String(v))
            },
        },
{
    apply_string_filter(last, query, field, value, Operator::Contains)
}

/// Asks that a field starts with a text.
pub fn fl_query_where_starts_with(last: &mut LastError, query: Option<&mut FL_Query>, field: Option<&[u8]>, value: Option<&[u8]>) -> (n: i32)
    ensures
        query is None ==> failed(n, final(last)@, "null query handle"@),
        query matches Some(q) ==> match (arg_text(field), arg_text(value)) {
            (Err(m), _) => failed(n, final(last)@, m) && *final(q) == *q,
            (_, Err(m)) => failed(n, final(last)@, m) && *final(q) == *q,
            (Ok(f), Ok(v)) => {
                &&& succeeded(n, final(last)@)
                &&& filtered(q.query, final(q).query, f, Operator::StartsWith, Val::String(v))
            },
        },
{
    apply_string_filter(last, query, field, value, Operator::StartsWith)
}

/// Asks that a list in a field holds a text.
pub fn fl_query_where_array_contains(last: &mut LastError, query: &mut FL_Query, field: Option<&[u8]>, value: Option<&[u8]>) -> (n:
    i32)
    ensures
        match (arg_text(field), arg_text(value)) {
            (Err(m), _) => failed(n, final(last)@, m) && *final(query) == *old(query),
            (_, Err(m)) => failed(n, final(last)@, m) && *final(query) == *old(query),
            (Ok(f), Ok(v)) => {
                &&& n == 0
                &&& final(last)@ == old(last)@
                &&& filtered(old(query).query, final(query).query, f, Operator::ArrayContains, Val::String(v))
            },
        },
{
    match cstr_to_string(field) {
        Err(e) => last.set_last_error(e.as_str()),
        Ok(f) => match cstr_to_string(value) {
            Err(e) => last.set_last_error(e.as_str()),
            Ok(v) => {
                push_filter(&mut query.query, f, Operator::ArrayContains, Value::String(v));
                0
            },
        },
    }
}

/// A condition with a list of values. The list is used up where the condition is added.
fn list_filter(
    last: &mut LastError,
    query: Option<&mut FL_Query>,
    field: Option<&[u8]>,
    array: Option<FL_Array>,
    op: Operator,
) -> (n: i32)
    ensures
        query is None || array is None ==> n == -1 && final(last)@ == old(last)@,
        query matches Some(q) ==> match (array, arg_text(field)) {
            (None, _) => *final(q) == *q,
            (Some(_), Err(m)) => failed(n, final(last)@, m) && *final(q) == *q,
            (Some(a), Ok(f)) => {
                &&& n == 0
                &&& final(last)@ == old(last)@
                &&& filtered(q.query, final(q).query, f, op, Val::Array(items_view(a.items@)))
            },
        },
{
    match (query, array) {
        (Some(q), Some(a)) => match cstr_to_string(field) {
            Err(e) => last.set_last_error(e.as_str()),
            Ok(f) => {
                let v = Value::Array(a.items);
                proof {
                    parts_view(v);
                }
                push_filter(&mut q.query, f, op, v);
                0
            },
        },
        _ => -1,
    }
}

/// Asks that a list in a field holds one of the values.
pub fn fl_query_where_array_contains_any(last: &mut LastError, query: Option<&mut FL_Query>, field: Option<&[u8]>, array: Option<FL_Array>) -> (n: i32)
    ensures
        query is None || array is None ==> n == -1 && final(last)@ == old(last)@,
        query matches Some(q) ==> match (array, arg_text(field)) {
            (None, _) => *final(q) == *q,
            (Some(_), Err(m)) => failed(n, final(last)@, m) && *final(q) == *q,
            (Some(a), Ok(f)) => {
                &&& n == 0
                &&& final(last)@ == old(last)@
                &&& filtered(q.query, final(q).query, f, Operator::ArrayContainsAny, Val::Array(items_view(a.items@)))
            },
        },
{
    list_filter(last, query, field, array, Operator::ArrayContainsAny)
}

/// Asks that a field holds none of the values.
pub fn fl_query_where_not_in(last: &mut LastError, query: Option<&mut FL_Query>, field: Option<&[u8]>, array: Option<FL_Array>) -> (n: i32)
    ensures
        query is None || array is None ==> n == -1 && final(last)@ == old(last)@,
        query matches Some(q) ==> match (array, arg_text(field)) {
            (None, _) => *final(q) == *q,
            (Some(_), Err(m)) => failed(n, final(last)@, m) && *final(q) == *q,
            (Some(a), Ok(f)) => {
                &&& n == 0
                &&& final(last)@ == old(last)@
                &&& filtered(q.query, final(q).query, f, Operator::NotIn, Val::Array(items_view(a.items@)))
            },
        },
{
    list_filter(last, query, field, array, Operator::NotIn)
}

/// Asks that a field holds one of the values.
pub fn fl_query_where_in(last: &mut LastError, query: Option<&mut FL_Query>, field: Option<&[u8]>, array: Option<FL_Array>) -> (n: i32)
    ensures
        query is None || array is None ==> n == -1 && final(last)@ == old(last)@,
        query matches Some(q) ==> match (array, arg_text(field)) {
            (None, _) => *final(q) == *q,
            (Some(_), Err(m)) => failed(n, final(last)@, m) && *final(q) == *q,
            (Some(a), Ok(f)) => {
                &&& n == 0
                &&& final(last)@ == old(last)@
                &&& filtered(q.query, final(q).query, f, Operator::In, Val::Array(items_view(a.items@)))
            },
        },
{
    list_filter(last, query, field, array, Operator::In)
}

/// Adds a text as one of the conditions of which it is enough to meet one.
pub fn fl_query_where_or_str(last: &mut LastError, query: &mut FL_Query, field: Option<&[u8]>, value: Option<&[u8]>) -> (n: i32)
    ensures
        match (arg_text(field), arg_text(value)) {
            (Err(m), _) => failed(n, final(last)@, m) && *final(query) == *old(query),
            (_, Err(m)) => failed(n, final(last)@, m) && *final(query) == *old(query),
            (Ok(f), Ok(v)) => {
                &&& n == 0
                &&& final(last)@ == old(last)@
                &&& widened(old(query).query, final(query).query, f, Val::String(v))
            },
        },
{
    match cstr_to_string(field) {
        Err(e) => last.set_last_error(e.as_str()),
        Ok(f) => match cstr_to_string(value) {
            Err(e) => last.set_last_error(e.as_str()),
            Ok(v) => {
                push_group(&mut query.query, f, Value::String(v));
                0
            },
        },
    }
}

/// Adds an integer as one of the conditions of which it is enough to meet one.
pub fn fl_query_where_or_int(last: &mut LastError, query: &mut FL_Query, field: Option<&[u8]>, value: i64) -> (n: i32)
    ensures
        match arg_text(field) {
            Err(m) => failed(n, final(last)@, m) && *final(query) == *old(query),
            Ok(f) => {
                &&& n == 0
                &&& final(last)@ == old(last)@
                &&& widened(old(query).query, final(query).query, f, Val::Int(value))
            },
        },
{
    match cstr_to_string(field) {
        Err(e) => last.set_last_error(e.as_str()),
        Ok(f) => {
            push_group(&mut query.query, f, Value::Int(value));
            0
        },
    }
}

/// Appends a group of one condition.
fn push_group(q: &mut Query, field: String, value: Value)
    ensures
        widened(*old(q), *final(q), field@, value@),
{
    let ghost before = q.or_groups@;
    let mut group: Vec<Filter> = Vec::new();
    group.push(Filter { field, op: Operator::Eq, value });
    q.or_groups.push(group);
    proof {
        assert(q.or_groups@.drop_last() =~= before);
    }
}

/// Sorts by one more field.
pub fn fl_query_order_by(last: &mut LastError, query: Option<&mut FL_Query>, field: Option<&[u8]>, ascending: bool) -> (n: i32)
    ensures
        query is None ==> failed(n, final(last)@, "null query handle"@),
        query matches Some(q) ==> match arg_text(field) {
            Err(m) => failed(n, final(last)@, m) && *final(q) == *q,
            Ok(f) => {
                &&& succeeded(n, final(last)@)
                &&& final(q).query == (Query { order_by: final(q).query.order_by, ..q.query })
                &&& final(q).query.order_by@.len() == q.query.order_by@.len() + 1
                &&& final(q).query.order_by@.drop_last() == q.query.order_by@
                &&& final(q).query.order_by@.last().field@ == f
                &&& final(q).query.order_by@.last().ascending == ascending
            },
        },
{
    match query {
        None => last.set_last_error("null query handle"),
        Some(q) => match cstr_to_string(field) {
            Err(e) => last.set_last_error(e.as_str()),
            Ok(field) => {
                let ghost before = q.query.order_by@;
                q.query.order_by.push(OrderBy { field, ascending });
                proof {
                    assert(q.query.order_by@.drop_last() =~= before);
                }
                last.clear_last_error();
                0
            },
        },
    }
}

/// Asks for no more than a number of documents.
pub fn fl_query_limit(query: Option<&mut FL_Query>, limit: usize) -> (n: i32)
    ensures
        query is None ==> n == -1,
        query matches Some(q) ==> n == 0 && final(q).query == (Query { limit: Some(limit), ..q.query }),
{
    match query {
        None => -1,
        Some(q) => {
            q.query.limit = Some(limit);
            0
        },
    }
}

/// Passes over the first documents.
pub fn fl_query_offset(query: Option<&mut FL_Query>, offset: usize) -> (n: i32)
    ensures
        query is None ==> n == -1,
        query matches Some(q) ==> n == 0 && final(q).query == (Query { offset: Some(offset), ..q.query }),
{
    match query {
        None => -1,
        Some(q) => {
            q.query.offset = Some(offset);
            0
        },
    }
}

/// Leaves the values of blob files out for now, or not.
pub fn fl_query_defer_blobs(query: Option<&mut FL_Query>, defer: i32) -> (n: i32)
    ensures
        query is None ==> n == -1,
        query matches Some(q) ==> n == 0 && final(q).query == (Query { defer_blobs: defer != 0, ..q.query }),
{
    match query {
        None => -1,
        Some(q) => {
            q.query.defer_blobs = defer != 0;
            0
        },
    }
}

/// Asks for one more field.
pub fn fl_query_select_field(last: &mut LastError, query: Option<&mut FL_Query>, field: Option<&[u8]>) -> (n: i32)
    ensures
        query is None ==> failed(n, final(last)@, "null query handle"@),
        query matches Some(q) ==> match arg_text(field) {
            Err(m) => failed(n, final(last)@, m) && *final(q) == *q,
            Ok(f) => {
                &&& succeeded(n, final(last)@)
                &&& final(q).query == (Query { projection: final(q).query.projection, ..q.query })
                &&& final(q).query.projection@.len() == q.query.projection@.len() + 1
                &&& final(q).query.projection@.drop_last() == q.query.projection@
                &&& final(q).query.projection@.last()@ == f
            },
        },
{
    match query {
        None => last.set_last_error("null query handle"),
        Some(q) => match cstr_to_string(field) {
            Err(e) => last.set_last_error(e.as_str()),
            Ok(f) => {
                let ghost before = q.query.projection@;
                q.query.projection.push(f);
                proof {
                    assert(q.query.projection@.drop_last() =~= before);
                }
                last.clear_last_error();
                0
            },
        },
    }
}

/// `b` is the query `a` with one more number to compute.
pub open spec fn aggregated(a: Query, b: Query) -> bool {
    &&& b == (Query { aggregations: b.aggregations, ..a })
    &&& b.aggregations@.len() == a.aggregations@.len() + 1
    &&& b.aggregations@.drop_last() == a.aggregations@
}

/// Appends a number to compute.
fn push_aggregate(q: &mut Query, op: AggregateOp)
    ensures
        aggregated(*old(q), *final(q)),
        final(q).aggregations@.last() == op,
{
    let ghost before = q.aggregations@;
    q.aggregations.push(op);
    proof {
        assert(q.aggregations@.drop_last() =~= before);
    }
}

/// Asks how many documents there are.
pub fn fl_query_aggregate_count(last: &mut LastError, query: Option<&mut FL_Query>) -> (n: i32)
    ensures
        query is None ==> failed(n, final(last)@, "null query handle"@),
        query matches Some(q) ==> {
            &&& succeeded(n, final(last)@)
            &&& aggregated(q.query, final(q).query)
            &&& final(q).query.aggregations@.last() is Count
        },
{
    match query {
        None => last.set_last_error("null query handle"),
        Some(q) => {
            push_aggregate(&mut q.query, AggregateOp::Count);
            last.clear_last_error();
            0
        },
    }
}

/// Asks for the sum of a field.
pub fn fl_query_aggregate_sum(last: &mut LastError, query: Option<&mut FL_Query>, field: Option<&[u8]>) -> (n: i32)
    ensures
        query is None ==> failed(n, final(last)@, "null query handle"@),
        query matches Some(q) ==> match arg_text(field) {
            Err(m) => failed(n, final(last)@, m) && *final(q) == *q,
            Ok(f) => {
                &&& succeeded(n, final(last)@)
                &&& aggregated(q.query, final(q).query)
                &&& final(q).query.aggregations@.last() matches AggregateOp::Sum(g) && g@ == f
            },
        },
{
    match query {
        None => last.set_last_error("null query handle"),
        Some(q) => match cstr_to_string(field) {
            Err(e) => last.set_last_error(e.as_str()),
            Ok(f) => {
                push_aggregate(&mut q.query, AggregateOp::Sum(f));
                last.clear_last_error();
                0
            },
        },
    }
}

/// Asks for the mean of a field.
pub fn fl_query_aggregate_avg(last: &mut LastError, query: Option<&mut FL_Query>, field: Option<&[u8]>) -> (n: i32)
    ensures
        query is None ==> failed(n, final(last)@, "null query handle"@),
        query matches Some(q) ==> match arg_text(field) {
            Err(m) => failed(n, final(last)@, m) && *final(q) == *q,
            Ok(f) => {
                &&& succeeded(n, final(last)@)
                &&& aggregated(q.query, final(q).query)
                &&& final(q).query.aggregations@.last() matches AggregateOp::Avg(g) && g@ == f
            },
        },
{
    match query {
        None => last.set_last_error("null query handle"),
        Some(q) => match cstr_to_string(field) {
            Err(e) => last.set_last_error(e.as_str()),
            Ok(f) => {
                push_aggregate(&mut q.query, AggregateOp::Avg(f));
                last.clear_last_error();
                0
            },
        },
    }
}

/// The values at which a document stands in the order of a query.
pub open spec fn anchor(q: Query, d: FL_Doc) -> Option<Seq<Val>> {
    if q.order_by@.len() == 0 {
        None
    } else {
        sort_values(q.order_by@, d.id@, d.doc@)
    }
}

/// The values of an end of a query.
pub open spec fn bound_is(b: Option<Vec<Value>>, values: Seq<Val>) -> bool {
    b matches Some(v) && items_view(v@) == values
}

/// Begins behind a document.
pub fn fl_query_start_after(last: &mut LastError, query: Option<&mut FL_Query>, anchor_doc: Option<&FL_Doc>) -> (n: i32)
    ensures
        query is None || anchor_doc is None ==> n == -1 && final(last)@ == old(last)@,
        query matches Some(q) ==> match anchor_doc {
            None => *final(q) == *q,
            Some(d) => match anchor(q.query, *d) {
                None => failed(n, final(last)@, "Anchor document missing one or more fields from sort chain"@) && *final(q) == *q,
                Some(values) => {
                    &&& n == 0
                    &&& final(last)@ == old(last)@
                    &&& final(q).query == (Query { start_after: final(q).query.start_after, ..q.query })
                    &&& bound_is(final(q).query.start_after, values)
                },
            },
        },
{
    match (query, anchor_doc) {
        (Some(q), Some(d)) => match get_anchor_values(&q.query, d.id.as_str(), &d.doc) {
            Some(values) => {
                q.query.start_after = Some(values);
                0
            },
            None => last.set_last_error("Anchor document missing one or more fields from sort chain"),
        },
        _ => -1,
    }
}

/// Begins at a document.
pub fn fl_query_start_at(last: &mut LastError, query: Option<&mut FL_Query>, anchor_doc: Option<&FL_Doc>) -> (n: i32)
    ensures
        query is None || anchor_doc is None ==> n == -1 && final(last)@ == old(last)@,
        query matches Some(q) ==> match anchor_doc {
            None => *final(q) == *q,
            Some(d) => match anchor(q.query, *d) {
                None => failed(n, final(last)@, "Anchor document missing one or more fields from sort chain"@) && *final(q) == *q,
                Some(values) => {
                    &&& n == 0
                    &&& final(last)@ == old(last)@
                    &&& final(q).query == (Query { start_at: final(q).query.start_at, ..q.query })
                    &&& bound_is(final(q).query.start_at, values)
                },
            },
        },
{
    match (query, anchor_doc) {
        (Some(q), Some(d)) => match get_anchor_values(&q.query, d.id.as_str(), &d.doc) {
            Some(values) => {
                q.query.start_at = Some(values);
                0
            },
            None => last.set_last_error("Anchor document missing one or more fields from sort chain"),
        },
        _ => -1,
    }
}

/// Ends at a document.
pub fn fl_query_end_at(last: &mut LastError, query: Option<&mut FL_Query>, anchor_doc: Option<&FL_Doc>) -> (n: i32)
    ensures
        query is None || anchor_doc is None ==> n == -1 && final(last)@ == old(last)@,
        query matches Some(q) ==> match anchor_doc {
            None => *final(q) == *q,
            Some(d) => match anchor(q.query, *d) {
                None => failed(n, final(last)@, "Anchor document missing sort field"@) && *final(q) == *q,
                Some(values) => {
                    &&& n == 0
                    &&& final(last)@ == old(last)@
                    &&& final(q).query == (Query { end_at: final(q).query.end_at, ..q.query })
                    &&& bound_is(final(q).query.end_at, values)
                },
            },
        },
{
    match (query, anchor_doc) {
        (Some(q), Some(d)) => match get_anchor_values(&q.query, d.id.as_str(), &d.doc) {
            Some(values) => {
                q.query.end_at = Some(values);
                0
            },
            None => last.set_last_error("Anchor document missing sort field"),
        },
        _ => -1,
    }
}

/// Ends before a document.
pub fn fl_query_end_before(last: &mut LastError, query: Option<&mut FL_Query>, anchor_doc: Option<&FL_Doc>) -> (n: i32)
    ensures
        query is None || anchor_doc is None ==> n == -1 && final(last)@ == old(last)@,
        query matches Some(q) ==> match anchor_doc {
            None => *final(q) == *q,
            Some(d) => match anchor(q.query, *d) {
                None => failed(n, final(last)@, "Anchor document missing sort field"@) && *final(q) == *q,
                Some(values) => {
                    &&& n == 0
                    &&& final(last)@ == old(last)@
                    &&& final(q).query == (Query { end_before: final(q).query.end_before, ..q.query })
                    &&& bound_is(final(q).query.end_before, values)
                },
            },
        },
{
    match (query, anchor_doc) {
        (Some(q), Some(d)) => match get_anchor_values(&q.query, d.id.as_str(), &d.doc) {
            Some(values) => {
                q.query.end_before = Some(values);
                0
            },
            None => last.set_last_error("Anchor document missing sort field"),
        },
        _ => -1,
    }
}

} // verus!
