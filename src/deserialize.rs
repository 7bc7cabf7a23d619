use vstd::prelude::*;

use crate::annots::{
    data_format, discriminator_of, enumerant_value, field_name, has_flatten, opt_view, read_annots,
    read_discriminator, resolved_name,
};
use crate::data::{
    base64_decode, base64_of, decode_base64, decode_hex, hex_decode, hex_of,
    lemma_base64_round_trip, lemma_hex_round_trip,
};
use crate::serialize::{ser, OnEnumerantNotInSchema, Opts};
use crate::typescript::type_text;
use crate::error::Error;
use crate::json::{Json, JsonNumber, JsonView};
use crate::schema::{DataFormat, Enumerant, FieldSchema, SchemaSet, TypeSchema};
use crate::serialize::{has_json_form, refs_ok};
use crate::text::chars_of;
use crate::typescript::{field_type_text, fields_clean, variant_key};
use crate::value::{StructValue, StructView, UnionValue, Value, ValueView};

verus! {

/// The position of the first entry of `es` at or after `i` whose key is `k`,
/// or -1.
pub open spec fn find_from(es: Seq<(Seq<char>, JsonView)>, k: Seq<char>, i: int) -> int
    decreases es.len() - i,
{
    if i < 0 || i >= es.len() {
        -1
    } else if es[i].0 == k {
        i
    } else {
        find_from(es, k, i + 1)
    }
}

pub open spec fn find_key(es: Seq<(Seq<char>, JsonView)>, k: Seq<char>) -> int {
    find_from(es, k, 0)
}

/// Whether integer `x` fits the integer type `ty`.
pub open spec fn int_fits(ty: TypeSchema, x: int) -> bool {
    match ty {
        TypeSchema::Int8 => i8::MIN <= x <= i8::MAX,
        TypeSchema::Int16 => i16::MIN <= x <= i16::MAX,
        TypeSchema::Int32 => i32::MIN <= x <= i32::MAX,
        TypeSchema::Int64 => i64::MIN <= x <= i64::MAX,
        TypeSchema::UInt8 => 0 <= x <= u8::MAX,
        TypeSchema::UInt16 => 0 <= x <= u16::MAX,
        TypeSchema::UInt32 => 0 <= x <= u32::MAX,
        TypeSchema::UInt64 => 0 <= x <= u64::MAX,
        _ => false,
    }
}

pub open spec fn num_int(n: JsonNumber) -> Option<int> {
    match n {
        JsonNumber::Int(i) => Some(i as int),
        JsonNumber::UInt(u) => Some(u as int),
        _ => None,
    }
}

/// The value a field of type `ty` holds in a freshly created struct.
pub open spec fn default_of(ty: TypeSchema) -> ValueView {
    match ty {
        TypeSchema::Void => ValueView::Void,
        TypeSchema::Bool => ValueView::Bool(false),
        TypeSchema::Int8 | TypeSchema::Int16 | TypeSchema::Int32 | TypeSchema::Int64 => ValueView::Int(0),
        TypeSchema::UInt8 | TypeSchema::UInt16 | TypeSchema::UInt32 | TypeSchema::UInt64 => ValueView::UInt(0),
        TypeSchema::Float32 => ValueView::Float32(0),
        TypeSchema::Float64 => ValueView::Float64(0),
        TypeSchema::Enum(_) => ValueView::Enum(0),
        _ => ValueView::Null,
    }
}

/// A freshly created value of struct `i`: every field at its default and
/// the union, if any, at its first member.
pub open spec fn default_struct(s: SchemaSet, i: int) -> StructView {
    let st = s.structs@[i];
    StructView {
        fields: st.fields@.map_values(|f: FieldSchema| default_of(f.ty)),
        union: if st.union_fields@.len() > 0 {
            Some((0usize, Box::new(default_of(st.union_fields@[0].ty))))
        } else {
            None
        },
    }
}

/// The ordinal of the first enumerant at or after `m` whose JSON name is `t`,
/// or -1.
pub open spec fn enum_find(es: Seq<Enumerant>, t: Seq<char>, m: int) -> Result<int, Error>
    decreases es.len() - m,
{
    if m < 0 || m >= es.len() {
        Ok(-1)
    } else if has_flatten(es[m].annotations@) {
        Err(Error::FlattenUnsupported)
    } else if resolved_name(es[m].name@, es[m].annotations@) == t {
        Ok(m)
    } else {
        enum_find(es, t, m + 1)
    }
}

/// The value of type `ty` that JSON `j` describes, where `fmt` is the data
/// format of the field that holds it.
pub open spec fn de(s: SchemaSet, ty: TypeSchema, fmt: Option<DataFormat>, j: JsonView) -> Result<
    ValueView,
    Error,
>
    decreases j, 2int, 0int,
{
    if !ty.refs_in(s) {
        Err(Error::BadReference)
    } else {
        match ty {
            TypeSchema::Void => if j is Null {
                Ok(ValueView::Void)
            } else {
                Err(Error::ShapeMismatch)
            },
            TypeSchema::Bool => match j {
                JsonView::Bool(b) => Ok(ValueView::Bool(b)),
                _ => Err(Error::ShapeMismatch),
            },
            TypeSchema::Int8 | TypeSchema::Int16 | TypeSchema::Int32 | TypeSchema::Int64 => match j {
                JsonView::Number(n) => match num_int(n) {
                    Some(x) => if int_fits(ty, x) {
                        Ok(ValueView::Int(x as i64))
                    } else {
                        Err(Error::ShapeMismatch)
                    },
                    None => Err(Error::ShapeMismatch),
                },
                _ => Err(Error::ShapeMismatch),
            },
            TypeSchema::UInt8 | TypeSchema::UInt16 | TypeSchema::UInt32 | TypeSchema::UInt64 => match j {
                JsonView::Number(n) => match num_int(n) {
                    Some(x) => if int_fits(ty, x) {
                        Ok(ValueView::UInt(x as u64))
                    } else {
                        Err(Error::ShapeMismatch)
                    },
                    None => Err(Error::ShapeMismatch),
                },
                _ => Err(Error::ShapeMismatch),
            },
            TypeSchema::Float32 => match j {
                JsonView::Number(JsonNumber::Float32Bits(b)) => Ok(ValueView::Float32(b)),
                JsonView::Number(n) => Ok(ValueView::Number(n)),
                _ => Err(Error::ShapeMismatch),
            },
            TypeSchema::Float64 => match j {
                JsonView::Number(JsonNumber::Float64Bits(b)) => Ok(ValueView::Float64(b)),
                JsonView::Number(n) => Ok(ValueView::Number(n)),
                _ => Err(Error::ShapeMismatch),
            },
            TypeSchema::Text => match j {
                JsonView::Null => Ok(ValueView::Null),
                JsonView::Str(t) => Ok(ValueView::Text(t)),
                _ => Err(Error::ShapeMismatch),
            },
            TypeSchema::Data => match j {
                JsonView::Null => Ok(ValueView::Null),
                JsonView::Str(t) => match fmt {
                    Some(DataFormat::Hex) => if hex_of(hex_decode(t)) == t {
                        Ok(ValueView::Data(hex_decode(t)))
                    } else {
                        Err(Error::BadEncoding)
                    },
                    Some(DataFormat::Base64) => if base64_of(base64_decode(t)) == t {
                        Ok(ValueView::Data(base64_decode(t)))
                    } else {
                        Err(Error::BadEncoding)
                    },
                    None => Err(Error::ShapeMismatch),
                },
                _ => Err(Error::ShapeMismatch),
            },
            TypeSchema::Enum(k) => match j {
                JsonView::Str(t) => match enum_find(s.enums@[k as int].enumerants@, t, 0) {
                    Ok(m) => if 0 <= m <= u16::MAX {
                        Ok(ValueView::Enum(m as u16))
                    } else {
                        Err(Error::UnknownEnumerant)
                    },
                    Err(e) => Err(e),
                },
                _ => Err(Error::ShapeMismatch),
            },
            TypeSchema::List(e) => match j {
                JsonView::Null => Ok(ValueView::Null),
                JsonView::Array(js) => match de_list(s, *e, fmt, js, js.len() as int) {
                    Ok(vs) => Ok(ValueView::List(vs)),
                    Err(x) => Err(x),
                },
                _ => Err(Error::ShapeMismatch),
            },
            TypeSchema::Struct(i) => match j {
                JsonView::Null => Ok(ValueView::Null),
                JsonView::Object(_) => match de_struct(s, i as int, default_struct(s, i as int), j) {
                    Ok(sv) => Ok(ValueView::Struct(sv)),
                    Err(x) => Err(x),
                },
                _ => Err(Error::ShapeMismatch),
            },
            _ => Err(Error::ShapeMismatch),
        }
    }
}

/// The values of the first `n` elements of a JSON array; the first error
/// wins.
pub open spec fn de_list(
    s: SchemaSet,
    ety: TypeSchema,
    fmt: Option<DataFormat>,
    js: Seq<JsonView>,
    n: int,
) -> Result<Seq<ValueView>, Error>
    decreases js, 0int, n,
{
    if n <= 0 || n > js.len() {
        Ok(Seq::empty())
    } else {
        match de_list(s, ety, fmt, js, n - 1) {
            Err(e) => Err(e),
            Ok(vs) => match de(s, ety, fmt, js[n - 1]) {
                Err(e) => Err(e),
                Ok(v) => Ok(vs.push(v)),
            },
        }
    }
}

/// `vals` with each of the first `n` fields of `fs` that has a JSON form and
/// whose key is present in `es` replaced by the value read from it.
pub open spec fn de_fields(
    s: SchemaSet,
    fs: Seq<FieldSchema>,
    es: Seq<(Seq<char>, JsonView)>,
    vals: Seq<ValueView>,
    n: int,
) -> Result<Seq<ValueView>, Error>
    decreases es, 0int, n,
{
    if n <= 0 || n > fs.len() {
        Ok(vals)
    } else {
        match de_fields(s, fs, es, vals, n - 1) {
            Err(e) => Err(e),
            Ok(vs) => {
                let f = fs[n - 1];
                let p = find_key(es, resolved_name(f.name@, f.annotations@));
                if field_type_text(s, f) is None || p < 0 || p >= es.len() {
                    Ok(vs)
                } else {
                    match de(s, f.ty, data_format(f.annotations@), es[p].1) {
                        Err(e) => Err(e),
                        Ok(v) => Ok(vs.update(n - 1, v)),
                    }
                }
            },
        }
    }
}

/// The first union member at or after position `m`, in declaration order,
/// whose key is present in `es`, with the value read from it; `None` where
/// no member's key is present.
pub open spec fn de_union(
    s: SchemaSet,
    us: Seq<FieldSchema>,
    es: Seq<(Seq<char>, JsonView)>,
    value_name: Option<Seq<char>>,
    m: int,
) -> Result<Option<(usize, ValueView)>, Error>
    decreases es, 0int, us.len() - m,
{
    if m < 0 || m >= us.len() {
        Ok(None)
    } else {
        let f = us[m];
        let p = find_key(es, variant_key(f, value_name));
        if field_type_text(s, f) is None || p < 0 || p >= es.len() {
            de_union(s, us, es, value_name, m + 1)
        } else {
            match de(s, f.ty, data_format(f.annotations@), es[p].1) {
                Err(e) => Err(e),
                Ok(v) => Ok(Some((m as usize, v))),
            }
        }
    }
}

/// Struct value `t` of struct `i` with what JSON object `j` describes written
/// into it.  Absent keys leave fields as they are; the union takes the first
/// member whose key is present, looked up inside the object under the
/// discriminator's name where the struct has one.
pub open spec fn de_struct(s: SchemaSet, i: int, t: StructView, j: JsonView) -> Result<
    StructView,
    Error,
>
    decreases j, 1int, 0int,
{
    match j {
        JsonView::Object(es) => {
            let st = s.structs@[i];
            if t.fields.len() != st.fields@.len() {
                Err(Error::ValueMismatch)
            } else if !fields_clean(st.fields@) || !fields_clean(st.union_fields@) {
                Err(Error::FlattenUnsupported)
            } else {
                match de_fields(s, st.fields@, es, t.fields, st.fields@.len() as int) {
                    Err(e) => Err(e),
                    Ok(fv) => if st.union_fields@.len() == 0 {
                        Ok(StructView { fields: fv, union: t.union })
                    } else {
                        let vn = discriminator_of(st).1;
                        let sel = match discriminator_of(st).0 {
                            None => de_union(s, st.union_fields@, es, vn, 0),
                            Some(w) => {
                                let p = find_key(es, w);
                                if p < 0 || p >= es.len() {
                                    Ok(None)
                                } else {
                                    match es[p].1 {
                                        JsonView::Object(inner) => de_union(
                                            s,
                                            st.union_fields@,
                                            inner,
                                            vn,
                                            0,
                                        ),
                                        _ => Err(Error::ShapeMismatch),
                                    }
                                }
                            },
                        };
                        match sel {
                            Err(e) => Err(e),
                            Ok(None) => Ok(StructView { fields: fv, union: t.union }),
                            Ok(Some((m, v))) => Ok(
                                StructView { fields: fv, union: Some((m, Box::new(v))) },
                            ),
                        }
                    },
                }
            }
        },
        _ => Err(Error::ShapeMismatch),
    }
}

pub open spec fn obj_view(es: Seq<(String, Json)>) -> Seq<(Seq<char>, JsonView)> {
    Json::entry_views(es, es.len() as int)
}

/// The position of the entry of `es` with key `key`.
fn find_key_in(es: &Vec<(String, Json)>, key: &String) -> (r: Option<usize>)
    ensures
        match r {
            Some(p) => p < es@.len() && p as int == find_key(obj_view(es@), key@),
            None => find_key(obj_view(es@), key@) == -1,
        },
{
    let ghost v = obj_view(es@);
    proof {
        Json::lemma_entry_views_len(es@, es@.len() as int);
    }
    let mut i: usize = 0;
    while i < es.len()
        invariant
            i <= es@.len(),
            v == obj_view(es@),
            v.len() == es@.len(),
            find_key(v, key@) == find_from(v, key@, i as int),
        decreases es@.len() - i,
    {
        proof {
            Json::lemma_entry_views_index(es@, es@.len() as int, i as int);
        }
        if es[i].0 == *key {
            return Some(i);
        }
        i = i + 1;
    }
    None
}

/// The ordinal of the enumerant whose JSON name is `t`.
fn enum_find_in(es: &Vec<Enumerant>, t: &String) -> (r: Result<Option<usize>, Error>)
    ensures
        r matches Ok(Some(p)) ==> p < es@.len() && enum_find(es@, t@, 0) == Ok::<int, Error>(
            p as int,
        ),
        r matches Ok(None) ==> enum_find(es@, t@, 0) == Ok::<int, Error>(-1),
        r matches Err(e) ==> enum_find(es@, t@, 0) == Err::<int, Error>(e),
{
    let mut m: usize = 0;
    while m < es.len()
        invariant
            m <= es@.len(),
            enum_find(es@, t@, 0) == enum_find(es@, t@, m as int),
        decreases es@.len() - m,
    {
        match enumerant_value(&es[m]) {
            Err(e) => return Err(e),
            Ok(name) => {
                if name == *t {
                    return Ok(Some(m));
                }
            },
        }
        m = m + 1;
    }
    Ok(None)
}

fn default_value(ty: &TypeSchema) -> (r: Value)
    ensures
        r.view() == default_of(*ty),
{
    match ty {
        TypeSchema::Void => Value::Void,
        TypeSchema::Bool => Value::Bool(false),
        TypeSchema::Int8 | TypeSchema::Int16 | TypeSchema::Int32 | TypeSchema::Int64 => Value::Int(0),
        TypeSchema::UInt8 | TypeSchema::UInt16 | TypeSchema::UInt32 | TypeSchema::UInt64 => Value::UInt(0),
        TypeSchema::Float32 => Value::Float32(0),
        TypeSchema::Float64 => Value::Float64(0),
        TypeSchema::Enum(_) => Value::Enum(0),
        _ => Value::Null,
    }
}

/// A freshly created value of struct `i` of `schema`: every field at its
/// default and the union, if any, at its first member.
pub fn new_struct_value(schema: &SchemaSet, i: usize) -> (r: StructValue)
    requires
        i < schema.structs@.len(),
    ensures
        r.view() == default_struct(*schema, i as int),
{
    let st = &schema.structs[i];
    let mut fields: Vec<Value> = Vec::new();
    let mut k: usize = 0;
    while k < st.fields.len()
        invariant
            k <= st.fields@.len(),
            fields@.len() == k,
            forall|q: int| 0 <= q < k ==> (#[trigger] fields@[q]).view() == default_of(st.fields@[q].ty),
        decreases st.fields@.len() - k,
    {
        fields.push(default_value(&st.fields[k].ty));
        k = k + 1;
    }
    let union = if st.union_fields.len() > 0 {
        Some(UnionValue { which: 0, value: Box::new(default_value(&st.union_fields[0].ty)) })
    } else {
        None
    };
    let r = StructValue { fields, union };
    proof {
        let a = Value::views(r.fields@, r.fields@.len() as int);
        let b = st.fields@.map_values(|f: FieldSchema| default_of(f.ty));
        Value::lemma_views_len(r.fields@, r.fields@.len() as int);
        assert forall|q: int| 0 <= q < a.len() implies a[q] == b[q] by {
            Value::lemma_views_index(r.fields@, r.fields@.len() as int, q);
        }
        assert(a =~= b);
    }
    r
}

proof fn lemma_de_list_sticky(
    s: SchemaSet,
    ety: TypeSchema,
    fmt: Option<DataFormat>,
    js: Seq<JsonView>,
    n: int,
    m: int,
)
    requires
        0 < n <= m <= js.len(),
        de_list(s, ety, fmt, js, n) is Err,
    ensures
        de_list(s, ety, fmt, js, m) == de_list(s, ety, fmt, js, n),
    decreases m - n,
{
    if m > n {
        lemma_de_list_sticky(s, ety, fmt, js, n, m - 1);
    }
}

proof fn lemma_de_fields_sticky(
    s: SchemaSet,
    fs: Seq<FieldSchema>,
    es: Seq<(Seq<char>, JsonView)>,
    vals: Seq<ValueView>,
    n: int,
    m: int,
)
    requires
        0 < n <= m <= fs.len(),
        de_fields(s, fs, es, vals, n) is Err,
    ensures
        de_fields(s, fs, es, vals, m) == de_fields(s, fs, es, vals, n),
    decreases m - n,
{
    if m > n {
        lemma_de_fields_sticky(s, fs, es, vals, n, m - 1);
    }
}

/// A struct value with fields `fv` and the union as `u`, or as chosen by
/// `sel`.
pub open spec fn finish_struct(
    fv: Seq<ValueView>,
    u: Option<(usize, Box<ValueView>)>,
    sel: Result<Option<(usize, ValueView)>, Error>,
) -> Result<StructView, Error> {
    match sel {
        Err(e) => Err(e),
        Ok(None) => Ok(StructView { fields: fv, union: u }),
        Ok(Some((m, v))) => Ok(StructView { fields: fv, union: Some((m, Box::new(v))) }),
    }
}

pub open spec fn value_res_view(r: Result<Value, Error>) -> Result<ValueView, Error> {
    match r {
        Ok(v) => Ok(v.view()),
        Err(e) => Err(e),
    }
}

fn int_value(ty: &TypeSchema, n: &JsonNumber) -> (r: Result<Value, Error>)
    requires
        is_integer(*ty),
    ensures
        value_res_view(r) == de_int(*ty, *n),
{
    let signed = match ty {
        TypeSchema::Int8 | TypeSchema::Int16 | TypeSchema::Int32 | TypeSchema::Int64 => true,
        _ => false,
    };
    let (neg, mag): (bool, u64) = match n {
        JsonNumber::Int(x) => if *x < 0 {
            (true, (-(*x as i128)) as u64)
        } else {
            (false, *x as u64)
        },
        JsonNumber::UInt(u) => (false, *u),
        _ => return Err(Error::ShapeMismatch),
    };
    let (lo, hi): (u64, u64) = match ty {
        TypeSchema::Int8 => (128, 127),
        TypeSchema::Int16 => (32768, 32767),
        TypeSchema::Int32 => (2147483648, 2147483647),
        TypeSchema::Int64 => (9223372036854775808, 9223372036854775807),
        TypeSchema::UInt8 => (0, 255),
        TypeSchema::UInt16 => (0, 65535),
        TypeSchema::UInt32 => (0, 4294967295),
        _ => (0, 18446744073709551615),
    };
    if (neg && mag > lo) || (!neg && mag > hi) {
        return Err(Error::ShapeMismatch);
    }
    if signed {
        if neg {
            Ok(Value::Int((-(mag as i128)) as i64))
        } else {
            Ok(Value::Int(mag as i64))
        }
    } else {
        Ok(Value::UInt(mag))
    }
}

pub open spec fn is_integer(ty: TypeSchema) -> bool {
    ty is Int8 || ty is Int16 || ty is Int32 || ty is Int64 || ty is UInt8 || ty is UInt16
        || ty is UInt32 || ty is UInt64
}

/// The integer value of type `ty` that JSON number `n` gives.
pub open spec fn de_int(ty: TypeSchema, n: JsonNumber) -> Result<ValueView, Error> {
    match num_int(n) {
        Some(x) => if int_fits(ty, x) {
            if ty is Int8 || ty is Int16 || ty is Int32 || ty is Int64 {
                Ok(ValueView::Int(x as i64))
            } else {
                Ok(ValueView::UInt(x as u64))
            }
        } else {
            Err(Error::ShapeMismatch)
        },
        None => Err(Error::ShapeMismatch),
    }
}

fn de_value(s: &SchemaSet, ty: &TypeSchema, fmt: Option<DataFormat>, j: &Json) -> (r: Result<
    Value,
    Error,
>)
    ensures
        value_res_view(r) == de(*s, *ty, fmt, j.view()),
    decreases j, 1int,
{
    if !refs_ok(s, ty) {
        return Err(Error::BadReference);
    }
    match ty {
        TypeSchema::Void => match j {
            Json::Null => Ok(Value::Void),
            _ => Err(Error::ShapeMismatch),
        },
        TypeSchema::Bool => match j {
            Json::Bool(b) => Ok(Value::Bool(*b)),
            _ => Err(Error::ShapeMismatch),
        },
        TypeSchema::Int8 | TypeSchema::Int16 | TypeSchema::Int32 | TypeSchema::Int64
        | TypeSchema::UInt8 | TypeSchema::UInt16 | TypeSchema::UInt32 | TypeSchema::UInt64 => match j {
            Json::Number(n) => int_value(ty, n),
            _ => Err(Error::ShapeMismatch),
        },
        TypeSchema::Float32 => match j {
            Json::Number(JsonNumber::Float32Bits(b)) => Ok(Value::Float32(*b)),
            Json::Number(n) => Ok(Value::Number(*n)),
            _ => Err(Error::ShapeMismatch),
        },
        TypeSchema::Float64 => match j {
            Json::Number(JsonNumber::Float64Bits(b)) => Ok(Value::Float64(*b)),
            Json::Number(n) => Ok(Value::Number(*n)),
            _ => Err(Error::ShapeMismatch),
        },
        TypeSchema::Text => match j {
            Json::Null => Ok(Value::Null),
            Json::String(t) => Ok(Value::Text(t.clone())),
            _ => Err(Error::ShapeMismatch),
        },
        TypeSchema::Data => match j {
            Json::Null => Ok(Value::Null),
            Json::String(t) => {
                let cs = chars_of(t.as_str());
                match fmt {
                    Some(DataFormat::Hex) => match decode_hex(&cs) {
                        Some(b) => Ok(Value::Data(b)),
                        None => Err(Error::BadEncoding),
                    },
                    Some(DataFormat::Base64) => match decode_base64(&cs) {
                        Some(b) => Ok(Value::Data(b)),
                        None => Err(Error::BadEncoding),
                    },
                    None => Err(Error::ShapeMismatch),
                }
            },
            _ => Err(Error::ShapeMismatch),
        },
        TypeSchema::Enum(k) => match j {
            Json::String(t) => match enum_find_in(&s.enums[*k].enumerants, t) {
                Ok(Some(m)) => if m <= 65535 {
                    Ok(Value::Enum(m as u16))
                } else {
                    Err(Error::UnknownEnumerant)
                },
                Ok(None) => Err(Error::UnknownEnumerant),
                Err(e) => Err(e),
            },
            _ => Err(Error::ShapeMismatch),
        },
        TypeSchema::List(e) => match j {
            Json::Null => Ok(Value::Null),
            Json::Array(js) => {
                let mut out: Vec<Value> = Vec::new();
                let mut i: usize = 0;
                while i < js.len()
                    invariant
                        i <= js@.len(),
                        *j == Json::Array(*js),
                        *ty == TypeSchema::List(*e),
                        ty.refs_in(*s),
                        de_list(*s, **e, fmt, Json::views(js@, js@.len() as int), i as int) == Ok::<
                            Seq<ValueView>,
                            Error,
                        >(Value::views(out@, out@.len() as int)),
                    decreases js@.len() - i,
                {
                    proof {
                        assert(decreases_to!(*j => j->Array_0));
                        vstd::std_specs::vec::axiom_vec_index_decreases(*js, i as int);
                        Json::lemma_views_index(js@, js@.len() as int, i as int);
                    }
                    match de_value(s, e, fmt, &js[i]) {
                        Err(err) => {
                            proof {
                                let jv = Json::views(js@, js@.len() as int);
                                assert(de_list(*s, **e, fmt, jv, i + 1) == Err::<
                                    Seq<ValueView>,
                                    Error,
                                >(err));
                                lemma_de_list_sticky(*s, **e, fmt, jv, i + 1, js@.len() as int);
                            }
                            return Err(err);
                        },
                        Ok(v) => {
                            let ghost prev = out@;
                            out.push(v);
                            proof {
                                Value::lemma_views_agree(out@, prev, prev.len() as int);
                            }
                        },
                    }
                    i = i + 1;
                }
                proof {
                    Json::lemma_views_len(js@, js@.len() as int);
                }
                Ok(Value::List(out))
            },
            _ => Err(Error::ShapeMismatch),
        },
        TypeSchema::Struct(i) => match j {
            Json::Null => Ok(Value::Null),
            Json::Object(_) => {
                let mut sv = new_struct_value(s, *i);
                match de_struct_into(s, *i, &mut sv, j) {
                    Ok(()) => Ok(Value::Struct(sv)),
                    Err(e) => Err(e),
                }
            },
            _ => Err(Error::ShapeMismatch),
        },
        _ => Err(Error::ShapeMismatch),
    }
}

/// Checks every field of `fs` for a `flatten` annotation.
fn check_no_flatten(fs: &Vec<FieldSchema>) -> (r: bool)
    ensures
        r == fields_clean(fs@),
{
    let mut k: usize = 0;
    while k < fs.len()
        invariant
            k <= fs@.len(),
            forall|q: int| 0 <= q < k ==> !has_flatten((#[trigger] fs@[q]).annotations@),
        decreases fs@.len() - k,
    {
        if read_annots(&fs[k].annotations).is_err() {
            return false;
        }
        k = k + 1;
    }
    true
}

fn de_struct_into(s: &SchemaSet, i: usize, target: &mut StructValue, j: &Json) -> (r: Result<
    (),
    Error,
>)
    requires
        i < s.structs@.len(),
    ensures
        match de_struct(*s, i as int, old(target).view(), j.view()) {
            Ok(sv) => r is Ok && final(target).view() == sv,
            Err(e) => r == Err::<(), Error>(e),
        },
    decreases j, 0int,
{
    let es = match j {
        Json::Object(es) => es,
        _ => return Err(Error::ShapeMismatch),
    };
    let ghost esv = obj_view(es@);
    let ghost t0 = target.view();
    let st = &s.structs[i];
    if target.fields.len() != st.fields.len() {
        proof {
            Value::lemma_views_len(target.fields@, target.fields@.len() as int);
        }
        return Err(Error::ValueMismatch);
    }
    if !check_no_flatten(&st.fields) || !check_no_flatten(&st.union_fields) {
        proof {
            Value::lemma_views_len(target.fields@, target.fields@.len() as int);
        }
        return Err(Error::FlattenUnsupported);
    }
    let ghost n = st.fields@.len() as int;
    proof {
        Value::lemma_views_len(target.fields@, n);
        Json::lemma_entry_views_len(es@, es@.len() as int);
    }
    let mut k: usize = 0;
    while k < st.fields.len()
        invariant
            k <= n,
            n == st.fields@.len(),
            *st == s.structs@[i as int],
            i < s.structs@.len(),
            *j == Json::Object(*es),
            esv == obj_view(es@),
            esv.len() == es@.len(),
            target.fields@.len() == n,
            target.union == old(target).union,
            t0 == old(target).view(),
            t0.fields.len() == n,
            fields_clean(st.fields@),
            fields_clean(st.union_fields@),
            de_fields(*s, st.fields@, esv, t0.fields, k as int) == Ok::<Seq<ValueView>, Error>(
                Value::views(target.fields@, n),
            ),
        decreases n - k,
    {
        let f = &st.fields[k];
        let annots = match read_annots(&f.annotations) {
            Ok(a) => a,
            Err(err) => return Err(err),
        };
        if has_json_form(s, &f.ty, annots.data_format) {
            let key = field_name(f, &annots);
            match find_key_in(es, key) {
                Some(p) => {
                    proof {
                        assert(decreases_to!(*j => j->Object_0));
                        vstd::std_specs::vec::axiom_vec_index_decreases(*es, p as int);
                        assert(decreases_to!(es[p as int] => es[p as int].1));
                        Json::lemma_entry_views_index(es@, es@.len() as int, p as int);
                    }
                    match de_value(s, &f.ty, annots.data_format, &es[p].1) {
                        Err(err) => {
                            proof {
                                assert(de_fields(*s, st.fields@, esv, t0.fields, k + 1) == Err::<
                                    Seq<ValueView>,
                                    Error,
                                >(err));
                                lemma_de_fields_sticky(*s, st.fields@, esv, t0.fields, k + 1, n);
                            }
                            return Err(err);
                        },
                        Ok(v) => {
                            let ghost before = target.fields@;
                            target.fields.set(k, v);
                            proof {
                                Value::lemma_views_update(before, k as int, v);
                            }
                        },
                    }
                },
                None => {},
            }
        }
        k = k + 1;
    }
    let ghost fv = Value::views(target.fields@, n);
    if st.union_fields.len() == 0 {
        return Ok(());
    }
    let d = read_discriminator(st);
    proof {
        assert(de_fields(*s, st.fields@, esv, t0.fields, n) == Ok::<Seq<ValueView>, Error>(fv));
    }
    let ghost vn = discriminator_of(*st).1;
    let src: &Vec<(String, Json)> = match &d.name {
        None => {
            proof {
                assert(de_struct(*s, i as int, t0, j.view()) == finish_struct(
                    fv,
                    t0.union,
                    de_union(*s, st.union_fields@, obj_view(es@), vn, 0),
                ));
            }
            es
        },
        Some(w) => match find_key_in(es, w) {
            None => return Ok(()),
            Some(p) => {
                proof {
                    Json::lemma_entry_views_index(es@, es@.len() as int, p as int);
                }
                match &es[p].1 {
                    Json::Object(inner) => {
                        proof {
                            assert(decreases_to!(*j => j->Object_0));
                            vstd::std_specs::vec::axiom_vec_index_decreases(*es, p as int);
                            assert(decreases_to!(es[p as int] => es[p as int].1));
                            assert(decreases_to!(es[p as int].1 => es[p as int].1->Object_0));
                            assert(decreases_to!(*j => *inner));
                            assert(es[p as int].1.view() == JsonView::Object(obj_view(inner@)));
                            assert(de_struct(*s, i as int, t0, j.view()) == finish_struct(
                                fv,
                                t0.union,
                                de_union(*s, st.union_fields@, obj_view(inner@), vn, 0),
                            ));
                        }
                        inner
                    },
                    _ => return Err(Error::ShapeMismatch),
                }
            },
        },
    };
    let ghost srcv = obj_view(src@);
    proof {
        Json::lemma_entry_views_len(src@, src@.len() as int);
        if d.name is None {
            assert(decreases_to!(*j => j->Object_0));
        }
    }
    let us = &st.union_fields;
    let mut m: usize = 0;
    while m < us.len()
        invariant
            m <= us@.len(),
            *us == st.union_fields,
            *st == s.structs@[i as int],
            i < s.structs@.len(),
            decreases_to!(*j => *src),
            srcv == obj_view(src@),
            srcv.len() == src@.len(),
            (opt_view(d.name), opt_view(d.value_name)) == discriminator_of(*st),
            vn == discriminator_of(*st).1,
            fields_clean(st.union_fields@),
            de_union(*s, us@, srcv, vn, 0) == de_union(*s, us@, srcv, vn, m as int),
            de_struct(*s, i as int, t0, j.view()) == finish_struct(
                fv,
                t0.union,
                de_union(*s, us@, srcv, vn, 0),
            ),
            t0 == old(target).view(),
            target.fields@.len() == n,
            Value::views(target.fields@, n) == fv,
            target.union == old(target).union,
        decreases us@.len() - m,
    {
        let f = &us[m];
        let annots = match read_annots(&f.annotations) {
            Ok(a) => a,
            Err(err) => return Err(err),
        };
        if has_json_form(s, &f.ty, annots.data_format) {
            let key = match &d.value_name {
                Some(v) => v.clone(),
                None => field_name(f, &annots).clone(),
            };
            match find_key_in(src, &key) {
                Some(p) => {
                    proof {
                        vstd::std_specs::vec::axiom_vec_index_decreases(*src, p as int);
                        assert(decreases_to!(src[p as int] => src[p as int].1));
                        Json::lemma_entry_views_index(src@, src@.len() as int, p as int);
                    }
                    match de_value(s, &f.ty, annots.data_format, &src[p].1) {
                        Err(err) => return Err(err),
                        Ok(v) => {
                            target.union = Some(UnionValue { which: m, value: Box::new(v) });
                            return Ok(());
                        },
                    }
                },
                None => {},
            }
        }
        m = m + 1;
    }
    Ok(())
}

/// Writes what JSON object `json` describes into `target`, a value of
/// struct `i` of `schema`.  Keys that are absent leave their fields as they
/// are; of several union members present, the first declared wins.  On an
/// error, `target` may be partly written.
pub fn deserialize_into(schema: &SchemaSet, i: usize, target: &mut StructValue, json: &Json) -> (r:
    Result<(), Error>)
    ensures
        i >= schema.structs@.len() ==> r == Err::<(), Error>(Error::BadReference),
        i < schema.structs@.len() ==> match de_struct(
            *schema,
            i as int,
            old(target).view(),
            json.view(),
        ) {
            Ok(sv) => r is Ok && final(target).view() == sv,
            Err(e) => r == Err::<(), Error>(e),
        },
{
    if i >= schema.structs.len() {
        return Err(Error::BadReference);
    }
    de_struct_into(schema, i, target, json)
}

proof fn lemma_find_from_bound(es: Seq<(Seq<char>, JsonView)>, k: Seq<char>, i: int)
    requires
        0 <= i,
    ensures
        find_from(es, k, i) == -1 || (i <= find_from(es, k, i) < es.len() && es[find_from(
            es,
            k,
            i,
        )].0 == k),
    decreases es.len() - i,
{
    if i < es.len() && es[i].0 != k {
        lemma_find_from_bound(es, k, i + 1);
    }
}

proof fn lemma_de_union_skip(
    s: SchemaSet,
    us: Seq<FieldSchema>,
    es: Seq<(Seq<char>, JsonView)>,
    vn: Option<Seq<char>>,
    m0: int,
    m1: int,
)
    requires
        0 <= m0 <= m1 <= us.len(),
        forall|m: int|
            m0 <= m < m1 ==> field_type_text(s, #[trigger] us[m]) is None || find_key(
                es,
                variant_key(us[m], vn),
            ) < 0,
    ensures
        de_union(s, us, es, vn, m0) == de_union(s, us, es, vn, m1),
    decreases m1 - m0,
{
    if m0 < m1 {
        lemma_de_union_skip(s, us, es, vn, m0 + 1, m1);
    }
}

/// Of several union members whose keys are present, the one declared first
/// is read and the others are ignored: the result depends only on the first
/// member with a JSON form whose key is present.
pub proof fn lemma_union_first_match(
    s: SchemaSet,
    us: Seq<FieldSchema>,
    es: Seq<(Seq<char>, JsonView)>,
    vn: Option<Seq<char>>,
    m1: int,
)
    requires
        0 <= m1 < us.len(),
        field_type_text(s, us[m1]) is Some,
        find_key(es, variant_key(us[m1], vn)) >= 0,
        forall|m: int|
            0 <= m < m1 ==> field_type_text(s, #[trigger] us[m]) is None || find_key(
                es,
                variant_key(us[m], vn),
            ) < 0,
    ensures
        ({
            let p = find_key(es, variant_key(us[m1], vn));
            de_union(s, us, es, vn, 0) == match de(
                s,
                us[m1].ty,
                data_format(us[m1].annotations@),
                es[p].1,
            ) {
                Ok(v) => Ok(Some((m1 as usize, v))),
                Err(e) => Err(e),
            }
        }),
{
    lemma_de_union_skip(s, us, es, vn, 0, m1);
    lemma_find_from_bound(es, variant_key(us[m1], vn), 0);
}

proof fn lemma_de_fields_empty(s: SchemaSet, fs: Seq<FieldSchema>, vals: Seq<ValueView>, n: int)
    requires
        0 <= n <= fs.len(),
    ensures
        de_fields(s, fs, Seq::empty(), vals, n) == Ok::<Seq<ValueView>, Error>(vals),
    decreases n,
{
    if n > 0 {
        lemma_de_fields_empty(s, fs, vals, n - 1);
    }
}

proof fn lemma_de_union_empty(
    s: SchemaSet,
    us: Seq<FieldSchema>,
    vn: Option<Seq<char>>,
    m: int,
)
    requires
        0 <= m <= us.len(),
    ensures
        de_union(s, us, Seq::empty(), vn, m) == Ok::<Option<(usize, ValueView)>, Error>(None),
    decreases us.len() - m,
{
    if m < us.len() {
        lemma_de_union_empty(s, us, vn, m + 1);
    }
}

/// Reading the empty object into a struct value changes nothing: every field
/// keeps its value and the union keeps its member, unset or not.
pub proof fn lemma_empty_object_keeps_value(s: SchemaSet, i: int, t: StructView)
    requires
        0 <= i < s.structs@.len(),
        t.fields.len() == s.structs@[i].fields@.len(),
        fields_clean(s.structs@[i].fields@),
        fields_clean(s.structs@[i].union_fields@),
    ensures
        de_struct(s, i, t, JsonView::Object(Seq::empty())) == Ok::<StructView, Error>(t),
{
    let st = s.structs@[i];
    lemma_de_fields_empty(s, st.fields@, t.fields, st.fields@.len() as int);
    lemma_de_union_empty(s, st.union_fields@, discriminator_of(st).1, 0);
}

/// `Data` written as hex or base64 reads back to the same bytes.
pub proof fn lemma_data_round_trip(s: SchemaSet, fmt: DataFormat, b: Seq<u8>)
    ensures
        de(
            s,
            TypeSchema::Data,
            Some(fmt),
            JsonView::Str(
                match fmt {
                    DataFormat::Hex => hex_of(b),
                    DataFormat::Base64 => base64_of(b),
                },
            ),
        ) == Ok::<ValueView, Error>(ValueView::Data(b)),
{
    lemma_hex_round_trip(b);
    lemma_base64_round_trip(b);
}

/// `Data` without a data format has no JSON form: it is never written.
pub proof fn lemma_unformatted_data_omitted(s: SchemaSet, opts: Opts, v: Value)
    ensures
        ser(s, opts, TypeSchema::Data, None, v) == Ok::<Option<JsonView>, Error>(None),
{
}

/// An enum ordinal that the schema does not define is written as that number
/// when unknown ordinals are written as numbers, and fails the call
/// otherwise.
pub proof fn lemma_enum_fallback(
    s: SchemaSet,
    opts: Opts,
    k: usize,
    o: u16,
    fmt: Option<DataFormat>,
)
    requires
        k < s.enums@.len(),
        o as int >= s.enums@[k as int].enumerants@.len(),
    ensures
        ser(s, opts, TypeSchema::Enum(k), fmt, Value::Enum(o)) == if opts.on_enumerant_not_in_schema
            == OnEnumerantNotInSchema::UseNumber {
            Ok::<Option<JsonView>, Error>(Some(JsonView::Number(JsonNumber::UInt(o as u64))))
        } else {
            Err(Error::EnumerantNotInSchema(o))
        },
{
}

/// A name override is the only name a node goes by: its JSON key is the
/// override, whatever the declared name.
pub proof fn lemma_name_override_used(declared: Seq<char>, annots: Seq<crate::schema::Annotation>, n: Seq<char>)
    requires
        crate::annots::name_override(annots) == Some(n),
    ensures
        resolved_name(declared, annots) == n,
{
}

/// Whether value `v` is a well-formed value of the leaf type `ty` whose JSON
/// names it unambiguously: integers fit the width and an enum ordinal is
/// defined and is the first enumerant going by its JSON name.
pub open spec fn leaf_fits(s: SchemaSet, ty: TypeSchema, v: Value) -> bool {
    match v {
        Value::Void => ty is Void,
        Value::Bool(_) => ty is Bool,
        Value::Int(i) => (ty is Int8 || ty is Int16 || ty is Int32 || ty is Int64) && int_fits(
            ty,
            i as int,
        ),
        Value::UInt(u) => (ty is UInt8 || ty is UInt16 || ty is UInt32 || ty is UInt64) && int_fits(
            ty,
            u as int,
        ),
        Value::Float32(_) => ty is Float32,
        Value::Float64(_) => ty is Float64,
        Value::Text(_) => ty is Text,
        Value::Data(_) => ty is Data,
        Value::Enum(o) => match ty {
            TypeSchema::Enum(k) => {
                let es = s.enums@[k as int].enumerants@;
                &&& (o as int) < es.len()
                &&& forall|m: int| 0 <= m <= o ==> !has_flatten((#[trigger] es[m]).annotations@)
                &&& forall|m: int|
                    0 <= m < o ==> resolved_name((#[trigger] es[m]).name@, es[m].annotations@)
                        != resolved_name(es[o as int].name@, es[o as int].annotations@)
            },
            _ => false,
        },
        Value::Null => ty is Text || ty is Data,
        _ => false,
    }
}

proof fn lemma_enum_find_first(es: Seq<Enumerant>, o: int, m: int)
    requires
        0 <= m <= o < es.len(),
        forall|q: int| 0 <= q <= o ==> !has_flatten((#[trigger] es[q]).annotations@),
        forall|q: int|
            0 <= q < o ==> resolved_name((#[trigger] es[q]).name@, es[q].annotations@)
                != resolved_name(es[o].name@, es[o].annotations@),
    ensures
        enum_find(es, resolved_name(es[o].name@, es[o].annotations@), m) == Ok::<int, Error>(o),
    decreases o - m,
{
    if m < o {
        lemma_enum_find_first(es, o, m + 1);
    }
}

/// Writing a well-formed value of a leaf type (anything but a list or a
/// struct) and reading the JSON back gives the value again.
pub proof fn lemma_round_trip_leaf(
    s: SchemaSet,
    opts: Opts,
    ty: TypeSchema,
    fmt: Option<DataFormat>,
    v: Value,
)
    requires
        ty.refs_in(s),
        type_text(s, ty, fmt) is Some,
        leaf_fits(s, ty, v),
    ensures
        ser(s, opts, ty, fmt, v) matches Ok(Some(j)) && de(s, ty, fmt, j) == Ok::<
            ValueView,
            Error,
        >(v.view()),
{
    match v {
        Value::Data(d) => {
            lemma_hex_round_trip(d@);
            lemma_base64_round_trip(d@);
        },
        Value::Enum(o) => {
            if let TypeSchema::Enum(k) = ty {
                lemma_enum_find_first(s.enums@[k as int].enumerants@, o as int, 0);
            }
        },
        _ => {},
    }
}

proof fn lemma_round_trip_leaves(
    s: SchemaSet,
    opts: Opts,
    ety: TypeSchema,
    fmt: Option<DataFormat>,
    vs: Seq<Value>,
    n: int,
)
    requires
        0 <= n <= vs.len(),
        ety.refs_in(s),
        type_text(s, ety, fmt) is Some,
        forall|k: int| 0 <= k < vs.len() ==> leaf_fits(s, ety, #[trigger] vs[k]),
    ensures
        crate::serialize::ser_list(s, opts, ety, fmt, vs, n) matches Ok(js) && js.len() == n
            && de_list(s, ety, fmt, js, n) == Ok::<Seq<ValueView>, Error>(Value::views(vs, n)),
    decreases n,
{
    if n > 0 {
        lemma_round_trip_leaves(s, opts, ety, fmt, vs, n - 1);
        lemma_round_trip_leaf(s, opts, ety, fmt, vs[n - 1]);
        let js = crate::serialize::ser_list(s, opts, ety, fmt, vs, n - 1)->Ok_0;
        let j = ser(s, opts, ety, fmt, vs[n - 1])->Ok_0->Some_0;
        assert(js.push(j).drop_last() == js);
        lemma_de_list_prefix(s, ety, fmt, js.push(j), js, n - 1);
    }
}

proof fn lemma_de_list_prefix(
    s: SchemaSet,
    ety: TypeSchema,
    fmt: Option<DataFormat>,
    a: Seq<JsonView>,
    b: Seq<JsonView>,
    n: int,
)
    requires
        0 <= n <= a.len(),
        n <= b.len(),
        forall|k: int| 0 <= k < n ==> a[k] == b[k],
    ensures
        de_list(s, ety, fmt, a, n) == de_list(s, ety, fmt, b, n),
    decreases n,
{
    if n > 0 {
        lemma_de_list_prefix(s, ety, fmt, a, b, n - 1);
    }
}

/// Writing a list of well-formed leaf values (see `leaf_fits`) and reading
/// the JSON back gives the list again.
pub proof fn lemma_round_trip_leaf_list(
    s: SchemaSet,
    opts: Opts,
    ety: TypeSchema,
    fmt: Option<DataFormat>,
    vs: Vec<Value>,
)
    requires
        ety.refs_in(s),
        type_text(s, ety, fmt) is Some,
        forall|k: int| 0 <= k < vs@.len() ==> leaf_fits(s, ety, #[trigger] vs@[k]),
    ensures
        ser(s, opts, TypeSchema::List(Box::new(ety)), fmt, Value::List(vs)) matches Ok(Some(j))
            && de(s, TypeSchema::List(Box::new(ety)), fmt, j) == Ok::<ValueView, Error>(
            Value::List(vs).view(),
        ),
{
    lemma_round_trip_leaves(s, opts, ety, fmt, vs@, vs@.len() as int);
}

} // verus!
