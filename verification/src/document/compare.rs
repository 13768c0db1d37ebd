//! How values compare: values of different types by the weight of the type, values of
//! one type by what they hold.
use vstd::prelude::*;

use crate::document::number::{bits_of_int, signed_to_bits, total_place};
use crate::document::value::{fields_view, items_view, parts_view, Val, Value};
use crate::order::{byte_codes, char_codes, compare_bytes, int_order, lex, lex_flip, Order};
use crate::text::compare_text;

verus! {

/// The weight of a value's type.
pub open spec fn weight(v: Val) -> int {
    match v {
        Val::Null => 0,
        Val::Bool(_) => 1,
        Val::Int(_) => 2,
        Val::Float(_) => 2,
        Val::Timestamp(_) => 3,
        Val::String(_) => 4,
        Val::Binary(_) => 5,
        Val::BlobLink { .. } => 5,
        Val::Reference { .. } => 6,
        Val::Array(_) => 7,
        Val::Object(_) => 8,
        Val::ServerTimestamp => 9,
    }
}

/// The first outcome, or where that is `Equal` the second.
pub open spec fn and_next(a: Order, b: Order) -> Order {
    if a == Order::Equal {
        b
    } else {
        a
    }
}

/// How two texts compare.
pub open spec fn text_order(a: Seq<char>, b: Seq<char>) -> Order {
    lex(char_codes(a), char_codes(b))
}

/// How two values compare.
pub open spec fn val_order(a: Val, b: Val) -> Order
    decreases a,
{
    if weight(a) != weight(b) {
        int_order(weight(a), weight(b))
    } else {
        match (a, b) {
            (Val::Bool(x), Val::Bool(y)) => int_order(
                if x {
                    1int
                } else {
                    0int
                },
                if y {
                    1int
                } else {
                    0int
                },
            ),
            (Val::Int(x), Val::Int(y)) => int_order(x as int, y as int),
            (Val::Float(x), Val::Float(y)) => int_order(total_place(x), total_place(y)),
            (Val::Int(x), Val::Float(y)) => int_order(total_place(bits_of_int(x as int) as u64), total_place(y)),
            (Val::Float(x), Val::Int(y)) => int_order(total_place(x), total_place(bits_of_int(y as int) as u64)),
            (Val::String(x), Val::String(y)) => text_order(x, y),
            (Val::Binary(x), Val::Binary(y)) => lex(byte_codes(x), byte_codes(y)),
            (Val::Timestamp(x), Val::Timestamp(y)) => int_order(x as int, y as int),
            (Val::Reference { collection: c, doc_id: i }, Val::Reference { collection: d, doc_id: j }) => and_next(
                text_order(c, d),
                text_order(i, j),
            ),
            (Val::Object(x), Val::Object(y)) => and_next(
                int_order(x.len() as int, y.len() as int),
                fields_order(x, y),
            ),
            (Val::Array(x), Val::Array(y)) => and_next(int_order(x.len() as int, y.len() as int), items_order(x, y)),
            _ => Order::Equal,
        }
    }
}

/// How two lists of fields compare: by the first pair that differs.
pub open spec fn fields_order(a: Seq<(Seq<char>, Val)>, b: Seq<(Seq<char>, Val)>) -> Order
    decreases a,
{
    if a.len() == 0 || b.len() == 0 {
        Order::Equal
    } else {
        and_next(
            text_order(a[0].0, b[0].0),
            and_next(val_order(a[0].1, b[0].1), fields_order(a.drop_first(), b.drop_first())),
        )
    }
}

/// How two lists of values compare: by the first pair that differs.
pub open spec fn items_order(a: Seq<Val>, b: Seq<Val>) -> Order
    decreases a,
{
    if a.len() == 0 || b.len() == 0 {
        Order::Equal
    } else {
        and_next(val_order(a[0], b[0]), items_order(a.drop_first(), b.drop_first()))
    }
}

/// Exchanging two values flips how they compare.
pub proof fn val_order_flips(a: Val, b: Val)
    ensures
        val_order(b, a) == val_order(a, b).flip(),
    decreases a,
{
    match (a, b) {
        (Val::String(x), Val::String(y)) => {
            lex_flip(char_codes(x), char_codes(y));
        },
        (Val::Binary(x), Val::Binary(y)) => {
            lex_flip(byte_codes(x), byte_codes(y));
        },
        (Val::Reference { collection: c, doc_id: i }, Val::Reference { collection: d, doc_id: j }) => {
            lex_flip(char_codes(c), char_codes(d));
            lex_flip(char_codes(i), char_codes(j));
        },
        (Val::Object(x), Val::Object(y)) => {
            fields_order_flips(x, y);
        },
        (Val::Array(x), Val::Array(y)) => {
            items_order_flips(x, y);
        },
        _ => {},
    }
}

proof fn fields_order_flips(a: Seq<(Seq<char>, Val)>, b: Seq<(Seq<char>, Val)>)
    ensures
        fields_order(b, a) == fields_order(a, b).flip(),
    decreases a,
{
    if a.len() > 0 && b.len() > 0 {
        lex_flip(char_codes(a[0].0), char_codes(b[0].0));
        val_order_flips(a[0].1, b[0].1);
        fields_order_flips(a.drop_first(), b.drop_first());
    }
}

proof fn items_order_flips(a: Seq<Val>, b: Seq<Val>)
    ensures
        items_order(b, a) == items_order(a, b).flip(),
    decreases a,
{
    if a.len() > 0 && b.len() > 0 {
        val_order_flips(a[0], b[0]);
        items_order_flips(a.drop_first(), b.drop_first());
    }
}

/// Every value compares as equal to itself.
pub proof fn val_order_reflexive(a: Val)
    ensures
        val_order(a, a) == Order::Equal,
{
    val_order_flips(a, a);
}

/// Whether two values are equal: where their order puts neither above the other.
pub open spec fn val_eq(a: Val, b: Val) -> bool {
    val_order(a, b) == Order::Equal
}

/// Every value equals itself.
pub proof fn val_eq_reflexive(a: Val)
    ensures
        val_eq(a, a),
{
    val_order_reflexive(a);
}

/// Equality is symmetric.
pub proof fn val_eq_symmetric(a: Val, b: Val)
    ensures
        val_eq(a, b) == val_eq(b, a),
{
    val_order_flips(a, b);
}

fn compare_usize(a: usize, b: usize) -> (o: Order)
    ensures
        o == int_order(a as int, b as int),
{
    if a < b {
        Order::Less
    } else if a == b {
        Order::Equal
    } else {
        Order::Greater
    }
}

fn compare_i64(a: i64, b: i64) -> (o: Order)
    ensures
        o == int_order(a as int, b as int),
{
    if a < b {
        Order::Less
    } else if a == b {
        Order::Equal
    } else {
        Order::Greater
    }
}

/// How two numbers compare in the total order of their bits.
fn compare_bits(a: u64, b: u64) -> (o: Order)
    ensures
        o == int_order(total_place(a), total_place(b)),
{
    let top: u64 = 0x8000_0000_0000_0000;
    if a == b {
        Order::Equal
    } else if a < top && b < top {
        if a < b {
            Order::Less
        } else {
            Order::Greater
        }
    } else if a < top {
        Order::Greater
    } else if b < top {
        Order::Less
    } else if a < b {
        Order::Greater
    } else {
        Order::Less
    }
}

fn first_of(a: Order, b: Order) -> (o: Order)
    ensures
        o == and_next(a, b),
{
    match a {
        Order::Equal => b,
        _ => a,
    }
}

impl Value {
    /// The weight of the type, by which values of different types are sorted.
    pub fn type_weight(&self) -> (w: u8)
        ensures
            w as int == weight(self@),
    {
        match self {
            Value::Null => 0,
            Value::Bool(_) => 1,
            Value::Int(_) => 2,
            Value::Float(_) => 2,
            Value::Timestamp(_) => 3,
            Value::String(_) => 4,
            Value::Binary(_) => 5,
            Value::BlobLink { .. } => 5,
            Value::Reference { .. } => 6,
            Value::Array(_) => 7,
            Value::Object(_) => 8,
            Value::ServerTimestamp => 9,
        }
    }

    /// How the value compares with another.
    pub fn compare(&self, other: &Value) -> (o: Order)
        ensures
            o == val_order(self@, other@),
        decreases self,
    {
        proof {
            parts_view(*self);
            parts_view(*other);
        }
        let w1: u8 = self.type_weight();
        let w2: u8 = other.type_weight();
        if w1 < w2 {
            return Order::Less;
        }
        if w1 > w2 {
            return Order::Greater;
        }
        match (self, other) {
            (Value::Bool(x), Value::Bool(y)) => if *x == *y {
                Order::Equal
            } else if *y {
                Order::Less
            } else {
                Order::Greater
            },
            (Value::Int(x), Value::Int(y)) => compare_i64(*x, *y),
            (Value::Float(x), Value::Float(y)) => compare_bits(*x, *y),
            (Value::Int(x), Value::Float(y)) => compare_bits(signed_to_bits(*x), *y),
            (Value::Float(x), Value::Int(y)) => compare_bits(*x, signed_to_bits(*y)),
            (Value::String(x), Value::String(y)) => compare_text(x.as_str(), y.as_str()),
            (Value::Binary(x), Value::Binary(y)) => compare_bytes(x.as_slice(), y.as_slice()),
            (Value::Timestamp(x), Value::Timestamp(y)) => compare_i64(*x, *y),
            (Value::Reference { collection: c, doc_id: i }, Value::Reference { collection: d, doc_id: j }) => first_of(
                compare_text(c.as_str(), d.as_str()),
                compare_text(i.as_str(), j.as_str()),
            ),
            (Value::Object(x), Value::Object(y)) => first_of(
                compare_usize(x.len(), y.len()),
                compare_fields(x, y),
            ),
            (Value::Array(x), Value::Array(y)) => first_of(compare_usize(x.len(), y.len()), compare_items(x, y)),
            _ => Order::Equal,
        }
    }

    /// Whether the value equals another: where neither is above the other.
    pub fn equals(&self, other: &Value) -> (r: bool)
        ensures
            r == val_eq(self@, other@),
    {
        match self.compare(other) {
            Order::Equal => true,
            _ => false,
        }
    }

    /// The number of bytes of a text or a binary, and 0 for any other value.
    pub fn len_bytes(&self) -> (n: usize)
        ensures
            n as nat == (match self@ {
                Val::String(s) => vstd::utf8::encode_utf8(s).len(),
                Val::Binary(b) => b.len(),
                _ => 0,
            }),
    {
        match self {
            Value::String(s) => s.as_str().as_bytes().len(),
            Value::Binary(b) => b.len(),
            _ => 0,
        }
    }
}

fn compare_fields(a: &Vec<(String, Value)>, b: &Vec<(String, Value)>) -> (o: Order)
    ensures
        o == fields_order(fields_view(a@), fields_view(b@)),
    decreases a,
{
    let ghost x = fields_view(a@);
    let ghost y = fields_view(b@);
    let mut i: usize = 0;
    proof {
        assert(x.skip(0) =~= x);
        assert(y.skip(0) =~= y);
    }
    while i < a.len() && i < b.len()
        invariant
            i <= a@.len(),
            i <= b@.len(),
            x == fields_view(a@),
            y == fields_view(b@),
            fields_order(x, y) == fields_order(x.skip(i as int), y.skip(i as int)),
        decreases a@.len() - i,
    {
        let o = first_of(compare_text(a[i].0.as_str(), b[i].0.as_str()), a[i].1.compare(&b[i].1));
        proof {
            assert(x.skip(i as int)[0] == x[i as int]);
            assert(y.skip(i as int)[0] == y[i as int]);
            assert(x.skip(i as int).drop_first() =~= x.skip(i + 1));
            assert(y.skip(i as int).drop_first() =~= y.skip(i + 1));
        }
        match o {
            Order::Equal => {},
            _ => {
                return o;
            },
        }
        i = i + 1;
    }
    Order::Equal
}

fn compare_items(a: &Vec<Value>, b: &Vec<Value>) -> (o: Order)
    ensures
        o == items_order(items_view(a@), items_view(b@)),
    decreases a,
{
    let ghost x = items_view(a@);
    let ghost y = items_view(b@);
    let mut i: usize = 0;
    proof {
        assert(x.skip(0) =~= x);
        assert(y.skip(0) =~= y);
    }
    while i < a.len() && i < b.len()
        invariant
            i <= a@.len(),
            i <= b@.len(),
            x == items_view(a@),
            y == items_view(b@),
            items_order(x, y) == items_order(x.skip(i as int), y.skip(i as int)),
        decreases a@.len() - i,
    {
        let o = a[i].compare(&b[i]);
        proof {
            assert(x.skip(i as int)[0] == x[i as int]);
            assert(y.skip(i as int)[0] == y[i as int]);
            assert(x.skip(i as int).drop_first() =~= x.skip(i + 1));
            assert(y.skip(i as int).drop_first() =~= y.skip(i + 1));
        }
        match o {
            Order::Equal => {},
            _ => {
                return o;
            },
        }
        i = i + 1;
    }
    Order::Equal
}

impl PartialEq for Value {
    fn eq(&self, other: &Value) -> (r: bool) {
        self.equals(other)
    }
}

impl Eq for Value {
}

impl vstd::std_specs::cmp::PartialEqSpecImpl for Value {
    open spec fn obeys_eq_spec() -> bool {
        true
    }

    open spec fn eq_spec(&self, other: &Value) -> bool {
        val_eq(self@, other@)
    }
}

} // verus!
