use vstd::prelude::*;

use crate::json::JsonNumber;

verus! {

/// A value bound to a schema type.  Floating-point values are carried as
/// their IEEE 754 bits.
#[derive(Debug)]
pub enum Value {
    Void,
    Bool(bool),
    /// Any signed integer width.
    Int(i64),
    /// Any unsigned integer width.
    UInt(u64),
    Float32(u32),
    Float64(u64),
    /// A number read from JSON for a floating-point field, as JSON gave it;
    /// the caller converts it to the field's width.
    Number(JsonNumber),
    Text(String),
    Data(Vec<u8>),
    List(Vec<Value>),
    /// An enum ordinal, which the schema may not define.
    Enum(u16),
    Struct(StructValue),
    /// An unset pointer: text, data, list, struct, interface or any pointer.
    Null,
}

/// The active member of a struct's union.
#[derive(Debug)]
pub struct UnionValue {
    /// Position of the member in the struct's union fields.
    pub which: usize,
    pub value: Box<Value>,
}

#[derive(Debug)]
pub struct StructValue {
    /// Values of the non-union fields, in the schema's field order.
    pub fields: Vec<Value>,
    /// The union's active member; `None` for a struct without a union.
    pub union: Option<UnionValue>,
}

/// A value with its strings and byte arrays as sequences.
pub enum ValueView {
    Void,
    Bool(bool),
    Int(i64),
    UInt(u64),
    Float32(u32),
    Float64(u64),
    Number(JsonNumber),
    Text(Seq<char>),
    Data(Seq<u8>),
    List(Seq<ValueView>),
    Enum(u16),
    Struct(StructView),
    Null,
}

pub struct StructView {
    pub fields: Seq<ValueView>,
    pub union: Option<(usize, Box<ValueView>)>,
}

impl Value {
    pub open spec fn view(self) -> ValueView
        decreases self, 1int,
    {
        match self {
            Value::Void => ValueView::Void,
            Value::Bool(b) => ValueView::Bool(b),
            Value::Int(i) => ValueView::Int(i),
            Value::UInt(u) => ValueView::UInt(u),
            Value::Float32(b) => ValueView::Float32(b),
            Value::Float64(b) => ValueView::Float64(b),
            Value::Number(n) => ValueView::Number(n),
            Value::Text(t) => ValueView::Text(t@),
            Value::Data(d) => ValueView::Data(d@),
            Value::List(vs) => ValueView::List(Value::views(vs@, vs@.len() as int)),
            Value::Enum(o) => ValueView::Enum(o),
            Value::Struct(sv) => ValueView::Struct(sv.view()),
            Value::Null => ValueView::Null,
        }
    }

    /// The views of the first `n` values.
    pub open spec fn views(vs: Seq<Value>, n: int) -> Seq<ValueView>
        decreases vs, n,
    {
        if n <= 0 || n > vs.len() {
            Seq::empty()
        } else {
            Value::views(vs, n - 1).push(vs[n - 1].view())
        }
    }

    pub proof fn lemma_views_agree(a: Seq<Value>, b: Seq<Value>, n: int)
        requires
            0 <= n <= a.len(),
            n <= b.len(),
            forall|k: int| 0 <= k < n ==> (#[trigger] a[k]).view() == b[k].view(),
        ensures
            Value::views(a, n) == Value::views(b, n),
        decreases n,
    {
        if n > 0 {
            Value::lemma_views_agree(a, b, n - 1);
        }
    }

    pub proof fn lemma_views_index(vs: Seq<Value>, n: int, k: int)
        requires
            0 <= k < n <= vs.len(),
        ensures
            Value::views(vs, n).len() == n,
            Value::views(vs, n)[k] == vs[k].view(),
        decreases n,
    {
        if k < n - 1 {
            Value::lemma_views_index(vs, n - 1, k);
        }
        Value::lemma_views_len(vs, n - 1);
    }

    pub proof fn lemma_views_update(vs: Seq<Value>, k: int, v: Value)
        requires
            0 <= k < vs.len(),
        ensures
            Value::views(vs.update(k, v), vs.len() as int) == Value::views(
                vs,
                vs.len() as int,
            ).update(k, v.view()),
    {
        let n = vs.len() as int;
        let a = Value::views(vs.update(k, v), n);
        let b = Value::views(vs, n).update(k, v.view());
        Value::lemma_views_len(vs.update(k, v), n);
        Value::lemma_views_len(vs, n);
        assert forall|q: int| 0 <= q < n implies a[q] == b[q] by {
            Value::lemma_views_index(vs.update(k, v), n, q);
            Value::lemma_views_index(vs, n, q);
        }
        assert(a =~= b);
    }

    pub proof fn lemma_views_len(vs: Seq<Value>, n: int)
        requires
            0 <= n <= vs.len(),
        ensures
            Value::views(vs, n).len() == n,
        decreases n,
    {
        if n > 0 {
            Value::lemma_views_len(vs, n - 1);
        }
    }
}

impl StructValue {
    pub open spec fn view(self) -> StructView
        decreases self, 0int,
    {
        StructView {
            fields: Value::views(self.fields@, self.fields@.len() as int),
            union: match self.union {
                Some(u) => Some((u.which, Box::new(u.value.view()))),
                None => None,
            },
        }
    }
}

} // verus!
