//! What a query asks for.
use vstd::prelude::*;

use crate::document::firelite_doc::{names_contain, names_view, Doc, FireLiteDoc};
use crate::document::format::keeps;
use crate::document::value::{fields_view, items_view, Val, Value};
use crate::index::composite::composite_index::{column_value, docs_view};
use crate::text::same_text;

verus! {

/// How a filter compares a field with its value.
#[derive(Debug, Clone, Copy, PartialEq, Eq, Structural)]
pub enum Operator {
    Eq,
    Ne,
    Gt,
    Gte,
    Lt,
    Lte,
    In,
    NotIn,
    Match,
    MatchPrefix,
    Contains,
    StartsWith,
    ArrayContains,
    ArrayContainsAny,
}

/// A condition on a field.
pub struct Filter {
    pub field: String,
    pub op: Operator,
    pub value: Value,
}

/// A field to sort by.
pub struct OrderBy {
    pub field: String,
    pub ascending: bool,
}

/// A number that is computed over the matching documents.
pub enum AggregateOp {
    Count,
    Sum(String),
    Avg(String),
}

/// A query over a collection.
pub struct Query {
    pub collection: String,
    pub filters: Vec<Filter>,
    pub or_groups: Vec<Vec<Filter>>,
    pub order_by: Vec<OrderBy>,
    pub projection: Vec<String>,
    pub limit: Option<usize>,
    pub offset: Option<usize>,
    pub defer_blobs: bool,
    pub aggregations: Vec<AggregateOp>,
    pub start_at: Option<Vec<Value>>,
    pub start_after: Option<Vec<Value>>,
    pub end_at: Option<Vec<Value>>,
    pub end_before: Option<Vec<Value>>,
}

impl Query {
    /// A query for every document of a collection.
    pub fn new(collection: &str) -> (q: Query)
        ensures
            q.collection@ == collection@,
            q.filters@.len() == 0,
            q.or_groups@.len() == 0,
            q.order_by@.len() == 0,
            q.projection@.len() == 0,
            q.limit is None,
            q.offset is None,
            !q.defer_blobs,
            q.aggregations@.len() == 0,
            q.start_at is None,
            q.start_after is None,
            q.end_at is None,
            q.end_before is None,
    {
        Query {
            collection: collection.to_owned(),
            filters: Vec::new(),
            or_groups: Vec::new(),
            order_by: Vec::new(),
            projection: Vec::new(),
            limit: None,
            offset: None,
            defer_blobs: false,
            aggregations: Vec::new(),
            start_at: None,
            start_after: None,
            end_at: None,
            end_before: None,
        }
    }
}

/// The part of a list that a query asks for: what is behind its offset, up to its limit.
pub open spec fn page_of<T>(rows: Seq<T>, offset: Option<usize>, limit: Option<usize>) -> Seq<T> {
    let from = match offset {
        Some(n) => if n < rows.len() {
            n as int
        } else {
            rows.len() as int
        },
        None => 0,
    };
    let rest = rows.skip(from);
    match limit {
        Some(n) => if n < rest.len() {
            rest.take(n as int)
        } else {
            rest
        },
        None => rest,
    }
}

/// The fields that a projection keeps.
pub open spec fn projected(fields: Seq<(Seq<char>, Val)>, projection: Seq<Seq<char>>) -> Seq<(Seq<char>, Val)>
    decreases fields.len(),
{
    if fields.len() == 0 {
        fields
    } else {
        let before = projected(fields.drop_last(), projection);
        if keeps(projection, fields.last().0) {
            before.push(fields.last())
        } else {
            before
        }
    }
}

impl Query {
    /// Whether a query sets no condition, order or cursor.
    pub open spec fn plain(&self) -> bool {
        &&& self.filters@.len() == 0
        &&& self.or_groups@.len() == 0
        &&& self.order_by@.len() == 0
        &&& self.start_at is None
        &&& self.start_after is None
        &&& self.end_at is None
        &&& self.end_before is None
    }

    /// Whether the query asks for all documents of its collection.
    pub fn is_plain(&self) -> (r: bool)
        ensures
            r == self.plain(),
    {
        self.filters.len() == 0 && self.or_groups.len() == 0 && self.order_by.len() == 0 && self.start_at.is_none()
            && self.start_after.is_none() && self.end_at.is_none() && self.end_before.is_none()
    }

    /// The part of the documents found that the query asks for.
    pub fn page(&self, rows: &Vec<(String, FireLiteDoc)>) -> (r: Vec<(String, FireLiteDoc)>)
        ensures
            docs_view(r@) == page_of(docs_view(rows@), self.offset, self.limit),
    {
        let total: usize = rows.len();
        let from: usize = match self.offset {
            Some(n) => if n < total {
                n
            } else {
                total
            },
            None => 0,
        };
        let end: usize = match self.limit {
            Some(n) => if n < total - from {
                from + n
            } else {
                total
            },
            None => total,
        };
        let ghost all = docs_view(rows@);
        let mut r: Vec<(String, FireLiteDoc)> = Vec::new();
        let mut i: usize = from;
        while i < end
            invariant
                all == docs_view(rows@),
                from <= i <= end <= rows@.len(),
                docs_view(r@) =~= all.subrange(from as int, i as int),
            decreases end - i,
        {
            let ghost before = r@;
            r.push((rows[i].0.clone(), rows[i].1.clone()));
            proof {
                assert(docs_view(r@) =~= docs_view(before).push(all[i as int]));
            }
            i = i + 1;
        }
        proof {
            assert(docs_view(r@) =~= page_of(all, self.offset, self.limit));
        }
        r
    }

    /// A document with the fields that the query asks for.
    pub fn project(&self, doc: &FireLiteDoc) -> (r: FireLiteDoc)
        ensures
            r@ == (Doc { fields: projected(doc@.fields, names_view(self.projection@)), time: doc@.time }),
    {
        let ghost p = names_view(self.projection@);
        let ghost all = doc@.fields;
        let mut fields: Vec<(String, Value)> = Vec::new();
        let mut i: usize = 0;
        proof {
            assert(all.take(0) =~= Seq::empty());
            assert(fields_view(fields@) =~= Seq::empty());
        }
        while i < doc.fields.len()
            invariant
                p == names_view(self.projection@),
                all == doc@.fields,
                i <= doc.fields@.len(),
                fields_view(fields@) == projected(all.take(i as int), p),
            decreases doc.fields@.len() - i,
        {
            proof {
                assert(all.take(i + 1).drop_last() =~= all.take(i as int));
                assert(all.take(i + 1).last() == all[i as int]);
            }
            if self.projection.len() == 0 || names_contain(&self.projection, doc.fields[i].0.as_str()) {
                let ghost before = fields@;
                fields.push((doc.fields[i].0.clone(), doc.fields[i].1.clone()));
                proof {
                    assert(fields_view(fields@) =~= fields_view(before).push(all[i as int]));
                }
            }
            i = i + 1;
        }
        proof {
            assert(all.take(i as int) =~= all);
        }
        FireLiteDoc { fields, _time: doc._time }
    }
}

/// What a document holds for the fields of a sort order; nothing where it lacks one.
pub open spec fn sort_values(order: Seq<OrderBy>, doc_id: Seq<char>, doc: Doc) -> Option<Seq<Val>>
    decreases order.len(),
{
    if order.len() == 0 {
        Some(Seq::empty())
    } else {
        match (sort_values(order.drop_last(), doc_id, doc), column_value(order.last().field@, doc_id, doc)) {
            (Some(vs), Some(v)) => Some(vs.push(v)),
            _ => None,
        }
    }
}

proof fn missing_sort_value(order: Seq<OrderBy>, i: int, doc_id: Seq<char>, doc: Doc)
    requires
        0 <= i < order.len(),
        column_value(order[i].field@, doc_id, doc) is None,
    ensures
        sort_values(order, doc_id, doc) is None,
    decreases order.len(),
{
    if i < order.len() - 1 {
        assert(order.drop_last()[i] == order[i]);
        missing_sort_value(order.drop_last(), i, doc_id, doc);
    }
}

/// The values at which a document stands in the order of a query: what it holds for each
/// field to sort by, `id` and `_time` being its id and its time. Nothing where the query
/// has no order, or where the document lacks a field of it.
pub fn get_anchor_values(q: &Query, doc_id: &str, doc: &FireLiteDoc) -> (r: Option<Vec<Value>>)
    ensures
        match r {
            Some(vs) => q.order_by@.len() > 0 && sort_values(q.order_by@, doc_id@, doc@) == Some(items_view(vs@)),
            None => q.order_by@.len() == 0 || sort_values(q.order_by@, doc_id@, doc@) is None,
        },
{
    if q.order_by.len() == 0 {
        return None;
    }
    let ghost order = q.order_by@;
    let mut values: Vec<Value> = Vec::new();
    let mut i: usize = 0;
    proof {
        assert(items_view(values@) =~= Seq::empty());
        assert(order.take(0) =~= Seq::empty());
    }
    while i < q.order_by.len()
        invariant
            order == q.order_by@,
            i <= order.len(),
            sort_values(order.take(i as int), doc_id@, doc@) == Some(items_view(values@)),
        decreases order.len() - i,
    {
        let name = q.order_by[i].field.as_str();
        proof {
            assert(order.take(i + 1).drop_last() =~= order.take(i as int));
            assert(order.take(i + 1).last() == order[i as int]);
        }
        let v = if same_text(name, "id") {
            Value::String(doc_id.to_owned())
        } else if same_text(name, "_time") {
            Value::Int(doc._time)
        } else {
            match doc.get(name) {
                Some(v) => v.clone(),
                None => {
                    proof {
                        missing_sort_value(order, i as int, doc_id@, doc@);
                    }
                    return None;
                },
            }
        };
        proof {
            assert(items_view(values@.push(v)) =~= items_view(values@).push(v@));
        }
        values.push(v);
        i = i + 1;
    }
    proof {
        assert(order.take(order.len() as int) =~= order);
    }
    Some(values)
}

/// A page holds the rows behind the offset, in their order: as many as the limit allows, and
/// fewer only where there are no more.
pub proof fn page_is_of_rows<T>(rows: Seq<T>, offset: Option<usize>, limit: Option<usize>, i: int)
    ensures
        ({
            let from: int = match offset {
                Some(n) => n as int,
                None => 0,
            };
            let page = page_of(rows, offset, limit);
            &&& 0 <= i < page.len() ==> from + i < rows.len() && page[i] == rows[from + i]
            &&& limit matches Some(n) ==> page.len() <= n
            &&& from >= rows.len() ==> page.len() == 0
            &&& from < rows.len() ==> page.len() == rows.len() - from || limit == Some(page.len() as usize)
            &&& from + page.len() <= rows.len() || page.len() == 0
        }),
{
}

/// A projection keeps the fields that it names, every field where it names none, and each as
/// it stands.
pub proof fn projection_keeps_named(f: (Seq<char>, Val), projection: Seq<Seq<char>>)
    ensures
        projection.len() == 0 || projection.contains(f.0) ==> projected(seq![f], projection) == seq![f],
        projection.len() > 0 && !projection.contains(f.0) ==> projected(seq![f], projection).len() == 0,
        projected(Seq::empty(), projection).len() == 0,
{
    assert(seq![f].drop_last() =~= Seq::empty());
    assert(projected(Seq::empty(), projection) =~= Seq::empty());
    assert(Seq::<(Seq<char>, Val)>::empty().push(f) =~= seq![f]);
}

/// Fields are kept or left out one by one, and keep their order.
pub proof fn projection_keeps_order(a: Seq<(Seq<char>, Val)>, b: Seq<(Seq<char>, Val)>, projection: Seq<Seq<char>>)
    ensures
        projected(a + b, projection) == projected(a, projection) + projected(b, projection),
    decreases b.len(),
{
    if b.len() == 0 {
        assert(a + b =~= a);
    } else {
        projection_keeps_order(a, b.drop_last(), projection);
        assert((a + b).drop_last() =~= a + b.drop_last());
        assert((a + b).last() == b.last());
        assert(projected(a + b, projection) =~= projected(a, projection) + projected(b, projection));
    }
}

/// A document stands in an order at the values of the fields to sort by, one for each: its id
/// under `id`, its time under `_time`, and what it holds under any other name. It stands
/// nowhere exactly where it lacks one.
pub proof fn anchor_is_of_the_document(order: Seq<OrderBy>, id: Seq<char>, doc: Doc, i: int)
    requires
        0 <= i < order.len(),
    ensures
        sort_values(order, id, doc) matches Some(vs) ==> vs.len() == order.len() && (if order[i].field@ == "id"@ {
            vs[i] == Val::String(id)
        } else if order[i].field@ == "_time"@ {
            vs[i] == Val::Int(doc.time)
        } else {
            doc.map().contains_key(order[i].field@) && vs[i] == doc.map()[order[i].field@]
        }),
        sort_values(order, id, doc) is None ==> exists|k: int|
            0 <= k < order.len() && (#[trigger] order[k]).field@ != "id"@ && order[k].field@ != "_time"@
                && !doc.map().contains_key(order[k].field@),
    decreases order.len(),
{
    let pre = order.drop_last();
    let n = order.len() - 1;
    assert(order[n] == order.last());
    if i < n {
        assert(pre[i] == order[i]);
        anchor_is_of_the_document(pre, id, doc, i);
    } else if n > 0 {
        anchor_is_of_the_document(pre, id, doc, 0);
    } else {
        assert(sort_values(pre, id, doc) is Some);
    }
    if sort_values(pre, id, doc) is None {
        let k = choose|k: int|
            0 <= k < pre.len() && (#[trigger] pre[k]).field@ != "id"@ && pre[k].field@ != "_time"@
                && !doc.map().contains_key(pre[k].field@);
        assert(order[k] == pre[k]);
    } else {
        sort_values_len(pre, id, doc);
    }
}

proof fn sort_values_len(order: Seq<OrderBy>, id: Seq<char>, doc: Doc)
    ensures
        sort_values(order, id, doc) matches Some(vs) ==> vs.len() == order.len(),
    decreases order.len(),
{
    if order.len() > 0 {
        sort_values_len(order.drop_last(), id, doc);
    }
}

} // verus!
