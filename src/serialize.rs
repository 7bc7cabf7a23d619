use vstd::prelude::*;

use crate::annots::{
    data_format, discriminator_of, enumerant_value, field_name, has_flatten, read_annots,
    read_discriminator, resolved_name,
};
use crate::data::{base64_of, encode_base64, encode_hex, hex_of};
use crate::error::Error;
use crate::json::{Json, JsonNumber, JsonView};
use crate::schema::{code_order, code_order_of, DataFormat, FieldSchema, SchemaSet, TypeSchema};
use crate::text::string_of;
use crate::typescript::{type_text, variant_key};
use crate::value::{StructValue, Value};

verus! {

/// What to do with an enum value whose ordinal the reading schema does not
/// define.
#[derive(Debug, Clone, Copy, PartialEq, Eq, Structural)]
pub enum OnEnumerantNotInSchema {
    /// Write the raw ordinal as a JSON number.
    UseNumber,
    /// Fail the whole call.
    Error,
}

#[derive(Debug, Clone, Copy, PartialEq, Eq, Structural)]
pub struct Opts {
    pub on_enumerant_not_in_schema: OnEnumerantNotInSchema,
}

impl Default for Opts {
    /// Unknown enum ordinals are written as numbers.
    fn default() -> (r: Opts)
        ensures
            r.on_enumerant_not_in_schema == OnEnumerantNotInSchema::UseNumber,
    {
        Opts { on_enumerant_not_in_schema: OnEnumerantNotInSchema::UseNumber }
    }
}

pub open spec fn is_signed(ty: TypeSchema) -> bool {
    ty is Int8 || ty is Int16 || ty is Int32 || ty is Int64
}

pub open spec fn is_unsigned(ty: TypeSchema) -> bool {
    ty is UInt8 || ty is UInt16 || ty is UInt32 || ty is UInt64
}

/// Types whose unset pointer is written as `null`.
pub open spec fn is_pointer(ty: TypeSchema) -> bool {
    ty is Text || ty is Data || ty is List || ty is Struct
}

/// The JSON of enum ordinal `o` of enum `k`: the enumerant's name, or, for an
/// ordinal the schema does not define, what `opts` asks for.
pub open spec fn enum_json(s: SchemaSet, k: int, o: u16, opts: Opts) -> Result<JsonView, Error> {
    let es = s.enums@[k].enumerants@;
    if (o as int) < es.len() {
        if has_flatten(es[o as int].annotations@) {
            Err(Error::FlattenUnsupported)
        } else {
            Ok(JsonView::Str(resolved_name(es[o as int].name@, es[o as int].annotations@)))
        }
    } else if opts.on_enumerant_not_in_schema == OnEnumerantNotInSchema::UseNumber {
        Ok(JsonView::Number(JsonNumber::UInt(o as u64)))
    } else {
        Err(Error::EnumerantNotInSchema(o))
    }
}

/// The JSON of value `v` of type `ty`, where `fmt` is the data format of the
/// field holding it; `Ok(None)` where the type has no JSON form.
pub open spec fn ser(s: SchemaSet, opts: Opts, ty: TypeSchema, fmt: Option<DataFormat>, v: Value) -> Result<
    Option<JsonView>,
    Error,
>
    decreases v, 0int,
{
    if !ty.refs_in(s) {
        Err(Error::BadReference)
    } else if type_text(s, ty, fmt) is None {
        Ok(None)
    } else {
        match v {
            Value::Null => if is_pointer(ty) {
                Ok(Some(JsonView::Null))
            } else {
                Err(Error::ValueMismatch)
            },
            Value::Void => if ty is Void {
                Ok(Some(JsonView::Null))
            } else {
                Err(Error::ValueMismatch)
            },
            Value::Bool(b) => if ty is Bool {
                Ok(Some(JsonView::Bool(b)))
            } else {
                Err(Error::ValueMismatch)
            },
            Value::Int(i) => if is_signed(ty) {
                Ok(Some(JsonView::Number(JsonNumber::Int(i))))
            } else {
                Err(Error::ValueMismatch)
            },
            Value::UInt(u) => if is_unsigned(ty) {
                Ok(Some(JsonView::Number(JsonNumber::UInt(u))))
            } else {
                Err(Error::ValueMismatch)
            },
            Value::Float32(b) => if ty is Float32 {
                Ok(Some(JsonView::Number(JsonNumber::Float32Bits(b))))
            } else {
                Err(Error::ValueMismatch)
            },
            Value::Float64(b) => if ty is Float64 {
                Ok(Some(JsonView::Number(JsonNumber::Float64Bits(b))))
            } else {
                Err(Error::ValueMismatch)
            },
            Value::Number(n) => if ty is Float32 || ty is Float64 {
                Ok(Some(JsonView::Number(n)))
            } else {
                Err(Error::ValueMismatch)
            },
            Value::Text(t) => if ty is Text {
                Ok(Some(JsonView::Str(t@)))
            } else {
                Err(Error::ValueMismatch)
            },
            Value::Data(d) => if ty is Data {
                match fmt {
                    Some(DataFormat::Hex) => Ok(Some(JsonView::Str(hex_of(d@)))),
                    Some(DataFormat::Base64) => Ok(Some(JsonView::Str(base64_of(d@)))),
                    None => Ok(None),
                }
            } else {
                Err(Error::ValueMismatch)
            },
            Value::Enum(o) => match ty {
                TypeSchema::Enum(k) => match enum_json(s, k as int, o, opts) {
                    Ok(j) => Ok(Some(j)),
                    Err(e) => Err(e),
                },
                _ => Err(Error::ValueMismatch),
            },
            Value::List(vs) => match ty {
                TypeSchema::List(e) => match ser_list(s, opts, *e, fmt, vs@, vs@.len() as int) {
                    Ok(js) => Ok(Some(JsonView::Array(js))),
                    Err(e) => Err(e),
                },
                _ => Err(Error::ValueMismatch),
            },
            Value::Struct(sv) => match ty {
                TypeSchema::Struct(i) => match ser_struct(s, opts, i as int, sv) {
                    Ok(es) => Ok(Some(JsonView::Object(es))),
                    Err(e) => Err(e),
                },
                _ => Err(Error::ValueMismatch),
            },
        }
    }
}

/// The JSON of the first `n` elements of a list; the first error wins.
pub open spec fn ser_list(
    s: SchemaSet,
    opts: Opts,
    ety: TypeSchema,
    fmt: Option<DataFormat>,
    vs: Seq<Value>,
    n: int,
) -> Result<Seq<JsonView>, Error>
    decreases vs, n,
{
    if n <= 0 || n > vs.len() {
        Ok(Seq::empty())
    } else {
        match ser_list(s, opts, ety, fmt, vs, n - 1) {
            Err(e) => Err(e),
            Ok(js) => match ser(s, opts, ety, fmt, vs[n - 1]) {
                Err(e) => Err(e),
                Ok(Some(j)) => Ok(js.push(j)),
                Ok(None) => Ok(js),
            },
        }
    }
}

/// The object entries of the first `n` fields in `order`, taking field
/// `fs[k]`'s value from `vals[k]`; fields without a JSON form are skipped.
pub open spec fn ser_entries(
    s: SchemaSet,
    opts: Opts,
    fs: Seq<FieldSchema>,
    vals: Seq<Value>,
    order: Seq<usize>,
    n: int,
) -> Result<Seq<(Seq<char>, JsonView)>, Error>
    decreases vals, n,
{
    if n <= 0 || n > order.len() {
        Ok(Seq::empty())
    } else {
        match ser_entries(s, opts, fs, vals, order, n - 1) {
            Err(e) => Err(e),
            Ok(es) => {
                let k = order[n - 1] as int;
                if k >= vals.len() || k >= fs.len() {
                    Err(Error::ValueMismatch)
                } else if has_flatten(fs[k].annotations@) {
                    Err(Error::FlattenUnsupported)
                } else {
                    match ser(s, opts, fs[k].ty, data_format(fs[k].annotations@), vals[k]) {
                        Err(e) => Err(e),
                        Ok(Some(j)) => Ok(es.push((resolved_name(fs[k].name@, fs[k].annotations@), j))),
                        Ok(None) => Ok(es),
                    }
                }
            },
        }
    }
}

/// The object entries of struct value `sv` of struct `i`: the non-union
/// fields in code order, then the active union member, flat or, where the
/// struct carries a discriminator, wrapped in an object under its name.
pub open spec fn ser_struct(s: SchemaSet, opts: Opts, i: int, sv: StructValue) -> Result<
    Seq<(Seq<char>, JsonView)>,
    Error,
>
    decreases sv, 0int,
{
    let st = s.structs@[i];
    let n = st.fields@.len() as int;
    if sv.fields@.len() != n {
        Err(Error::ValueMismatch)
    } else {
        match ser_entries(s, opts, st.fields@, sv.fields@, code_order_of(st.fields@, n), n) {
            Err(e) => Err(e),
            Ok(es) => if st.union_fields@.len() == 0 {
                if sv.union is None {
                    Ok(es)
                } else {
                    Err(Error::ValueMismatch)
                }
            } else {
                match sv.union {
                    None => Err(Error::ValueMismatch),
                    Some(u) => if u.which >= st.union_fields@.len() {
                        Err(Error::ValueMismatch)
                    } else {
                        let f = st.union_fields@[u.which as int];
                        if has_flatten(f.annotations@) {
                            Err(Error::FlattenUnsupported)
                        } else {
                            match ser(s, opts, f.ty, data_format(f.annotations@), *u.value) {
                                Err(e) => Err(e),
                                Ok(None) => Ok(es),
                                Ok(Some(j)) => {
                                    let key = variant_key(f, discriminator_of(st).1);
                                    match discriminator_of(st).0 {
                                        Some(w) => Ok(es.push((w, JsonView::Object(seq![(key, j)])))),
                                        None => Ok(es.push((key, j))),
                                    }
                                },
                            }
                        }
                    },
                }
            },
        }
    }
}

pub open spec fn res_view(r: Result<Option<Json>, Error>) -> Result<Option<JsonView>, Error> {
    match r {
        Ok(Some(j)) => Ok(Some(j.view())),
        Ok(None) => Ok(None),
        Err(e) => Err(e),
    }
}

pub open spec fn entries_res_view(r: Result<Vec<(String, Json)>, Error>) -> Result<
    Seq<(Seq<char>, JsonView)>,
    Error,
> {
    match r {
        Ok(v) => Ok(Json::entry_views(v@, v@.len() as int)),
        Err(e) => Err(e),
    }
}

proof fn lemma_ser_list_sticky(
    s: SchemaSet,
    opts: Opts,
    ety: TypeSchema,
    fmt: Option<DataFormat>,
    vs: Seq<Value>,
    n: int,
    m: int,
)
    requires
        0 < n <= m <= vs.len(),
        ser_list(s, opts, ety, fmt, vs, n) is Err,
    ensures
        ser_list(s, opts, ety, fmt, vs, m) == ser_list(s, opts, ety, fmt, vs, n),
    decreases m - n,
{
    if m > n {
        lemma_ser_list_sticky(s, opts, ety, fmt, vs, n, m - 1);
    }
}

proof fn lemma_ser_entries_sticky(
    s: SchemaSet,
    opts: Opts,
    fs: Seq<FieldSchema>,
    vals: Seq<Value>,
    order: Seq<usize>,
    n: int,
    m: int,
)
    requires
        0 < n <= m <= order.len(),
        ser_entries(s, opts, fs, vals, order, n) is Err,
    ensures
        ser_entries(s, opts, fs, vals, order, m) == ser_entries(s, opts, fs, vals, order, n),
    decreases m - n,
{
    if m > n {
        lemma_ser_entries_sticky(s, opts, fs, vals, order, n, m - 1);
    }
}

pub(crate) fn refs_ok(s: &SchemaSet, ty: &TypeSchema) -> (r: bool)
    ensures
        r == ty.refs_in(*s),
    decreases ty,
{
    match ty {
        TypeSchema::Struct(i) => *i < s.structs.len(),
        TypeSchema::Enum(i) => *i < s.enums.len(),
        TypeSchema::List(e) => refs_ok(s, e),
        _ => true,
    }
}

pub(crate) fn has_json_form(s: &SchemaSet, ty: &TypeSchema, fmt: Option<DataFormat>) -> (r: bool)
    ensures
        r == type_text(*s, *ty, fmt) is Some,
    decreases ty,
{
    match ty {
        TypeSchema::Data => fmt.is_some(),
        TypeSchema::List(e) => has_json_form(s, e, fmt),
        TypeSchema::AnyPointer => false,
        TypeSchema::Capability => false,
        _ => true,
    }
}

fn ser_value(s: &SchemaSet, opts: Opts, ty: &TypeSchema, fmt: Option<DataFormat>, v: &Value) -> (r:
    Result<Option<Json>, Error>)
    ensures
        res_view(r) == ser(*s, opts, *ty, fmt, *v),
    decreases v,
{
    if !refs_ok(s, ty) {
        return Err(Error::BadReference);
    }
    if !has_json_form(s, ty, fmt) {
        return Ok(None);
    }
    match v {
        Value::Null => match ty {
            TypeSchema::Text | TypeSchema::Data | TypeSchema::List(_) | TypeSchema::Struct(_) => Ok(
                Some(Json::Null),
            ),
            _ => Err(Error::ValueMismatch),
        },
        Value::Void => match ty {
            TypeSchema::Void => Ok(Some(Json::Null)),
            _ => Err(Error::ValueMismatch),
        },
        Value::Bool(b) => match ty {
            TypeSchema::Bool => Ok(Some(Json::Bool(*b))),
            _ => Err(Error::ValueMismatch),
        },
        Value::Int(i) => match ty {
            TypeSchema::Int8 | TypeSchema::Int16 | TypeSchema::Int32 | TypeSchema::Int64 => Ok(
                Some(Json::Number(JsonNumber::Int(*i))),
            ),
            _ => Err(Error::ValueMismatch),
        },
        Value::UInt(u) => match ty {
            TypeSchema::UInt8 | TypeSchema::UInt16 | TypeSchema::UInt32 | TypeSchema::UInt64 => Ok(
                Some(Json::Number(JsonNumber::UInt(*u))),
            ),
            _ => Err(Error::ValueMismatch),
        },
        Value::Float32(b) => match ty {
            TypeSchema::Float32 => Ok(Some(Json::Number(JsonNumber::Float32Bits(*b)))),
            _ => Err(Error::ValueMismatch),
        },
        Value::Float64(b) => match ty {
            TypeSchema::Float64 => Ok(Some(Json::Number(JsonNumber::Float64Bits(*b)))),
            _ => Err(Error::ValueMismatch),
        },
        Value::Number(n) => match ty {
            TypeSchema::Float32 | TypeSchema::Float64 => Ok(Some(Json::Number(*n))),
            _ => Err(Error::ValueMismatch),
        },
        Value::Text(t) => match ty {
            TypeSchema::Text => Ok(Some(Json::String(t.clone()))),
            _ => Err(Error::ValueMismatch),
        },
        Value::Data(d) => match ty {
            TypeSchema::Data => match fmt {
                Some(DataFormat::Hex) => Ok(Some(Json::String(string_of(&encode_hex(d))))),
                Some(DataFormat::Base64) => Ok(Some(Json::String(string_of(&encode_base64(d))))),
                None => Ok(None),
            },
            _ => Err(Error::ValueMismatch),
        },
        Value::Enum(o) => match ty {
            TypeSchema::Enum(k) => {
                let e = &s.enums[*k];
                if (*o as usize) < e.enumerants.len() {
                    match enumerant_value(&e.enumerants[*o as usize]) {
                        Ok(name) => Ok(Some(Json::String(name))),
                        Err(err) => Err(err),
                    }
                } else {
                    match opts.on_enumerant_not_in_schema {
                        OnEnumerantNotInSchema::UseNumber => Ok(
                            Some(Json::Number(JsonNumber::UInt(*o as u64))),
                        ),
                        OnEnumerantNotInSchema::Error => Err(Error::EnumerantNotInSchema(*o)),
                    }
                }
            },
            _ => Err(Error::ValueMismatch),
        },
        Value::List(vs) => match ty {
            TypeSchema::List(e) => {
                let mut out: Vec<Json> = Vec::new();
                let mut i: usize = 0;
                while i < vs.len()
                    invariant
                        i <= vs@.len(),
                        *v == Value::List(*vs),
                        *ty == TypeSchema::List(*e),
                        ty.refs_in(*s),
                        type_text(*s, *ty, fmt) is Some,
                        ser_list(*s, opts, **e, fmt, vs@, i as int) == Ok::<Seq<JsonView>, Error>(
                            Json::views(out@, out@.len() as int),
                        ),
                    decreases vs@.len() - i,
                {
                    proof {
                        assert(decreases_to!(*v => v->List_0));
                        vstd::std_specs::vec::axiom_vec_index_decreases(*vs, i as int);
                    }
                    let r = ser_value(s, opts, e, fmt, &vs[i]);
                    match r {
                        Err(err) => {
                            proof {
                                assert(ser_list(*s, opts, **e, fmt, vs@, i + 1) == Err::<
                                    Seq<JsonView>,
                                    Error,
                                >(err));
                                lemma_ser_list_sticky(*s, opts, **e, fmt, vs@, i + 1, vs@.len() as int);
                            }
                            return Err(err);
                        },
                        Ok(Some(j)) => {
                            let ghost prev = out@;
                            out.push(j);
                            proof {
                                Json::lemma_views_agree(out@, prev, prev.len() as int);
                            }
                        },
                        Ok(None) => {},
                    }
                    i = i + 1;
                }
                Ok(Some(Json::Array(out)))
            },
            _ => Err(Error::ValueMismatch),
        },
        Value::Struct(sv) => match ty {
            TypeSchema::Struct(i) => match ser_struct_value(s, opts, *i, sv) {
                Ok(es) => Ok(Some(Json::Object(es))),
                Err(err) => Err(err),
            },
            _ => Err(Error::ValueMismatch),
        },
    }
}

fn ser_struct_value(s: &SchemaSet, opts: Opts, i: usize, sv: &StructValue) -> (r: Result<
    Vec<(String, Json)>,
    Error,
>)
    requires
        i < s.structs@.len(),
    ensures
        entries_res_view(r) == ser_struct(*s, opts, i as int, *sv),
    decreases sv,
{
    let st = &s.structs[i];
    if sv.fields.len() != st.fields.len() {
        return Err(Error::ValueMismatch);
    }
    let order = code_order(&st.fields);
    let ghost n = st.fields@.len() as int;
    let mut out: Vec<(String, Json)> = Vec::new();
    let mut k: usize = 0;
    while k < order.len()
        invariant
            k <= order@.len(),
            order@ == code_order_of(st.fields@, n),
            *st == s.structs@[i as int],
            i < s.structs@.len(),
            order@.len() == n,
            n == st.fields@.len(),
            sv.fields@.len() == n,
            forall|q: int| 0 <= q < order@.len() ==> order@[q] < n,
            ser_entries(*s, opts, st.fields@, sv.fields@, order@, k as int) == Ok::<
                Seq<(Seq<char>, JsonView)>,
                Error,
            >(Json::entry_views(out@, out@.len() as int)),
        decreases order@.len() - k,
    {
        let idx = order[k];
        let f = &st.fields[idx];
        let annots = match read_annots(&f.annotations) {
            Ok(a) => a,
            Err(err) => {
                proof {
                    assert(ser_entries(*s, opts, st.fields@, sv.fields@, order@, k + 1) == Err::<
                        Seq<(Seq<char>, JsonView)>,
                        Error,
                    >(err));
                    lemma_ser_entries_sticky(*s, opts, st.fields@, sv.fields@, order@, k + 1, n);
                }
                return Err(err);
            },
        };
        proof {
            assert(decreases_to!(*sv => sv.fields));
            vstd::std_specs::vec::axiom_vec_index_decreases(sv.fields, idx as int);
        }
        let r = ser_value(s, opts, &f.ty, annots.data_format, &sv.fields[idx]);
        match r {
            Err(err) => {
                proof {
                    assert(ser_entries(*s, opts, st.fields@, sv.fields@, order@, k + 1) == Err::<
                        Seq<(Seq<char>, JsonView)>,
                        Error,
                    >(err));
                    lemma_ser_entries_sticky(*s, opts, st.fields@, sv.fields@, order@, k + 1, n);
                }
                return Err(err);
            },
            Ok(Some(j)) => {
                let ghost prev = out@;
                out.push((field_name(f, &annots).clone(), j));
                proof {
                    Json::lemma_entry_views_agree(out@, prev, prev.len() as int);
                }
            },
            Ok(None) => {},
        }
        k = k + 1;
    }
    assert(ser_entries(*s, opts, st.fields@, sv.fields@, order@, n) == Ok::<
        Seq<(Seq<char>, JsonView)>,
        Error,
    >(Json::entry_views(out@, out@.len() as int)));
    if st.union_fields.len() == 0 {
        return match &sv.union {
            None => Ok(out),
            Some(_) => Err(Error::ValueMismatch),
        };
    }
    match &sv.union {
        None => Err(Error::ValueMismatch),
        Some(u) => {
            if u.which >= st.union_fields.len() {
                return Err(Error::ValueMismatch);
            }
            let f = &st.union_fields[u.which];
            let annots = match read_annots(&f.annotations) {
                Ok(a) => a,
                Err(err) => return Err(err),
            };
            proof {
                assert(decreases_to!(*sv => sv.union));
                assert(decreases_to!(sv.union => u));
                assert(decreases_to!(*u => *u.value));
            }
            let r = ser_value(s, opts, &f.ty, annots.data_format, &u.value);
            match r {
                Err(err) => Err(err),
                Ok(None) => Ok(out),
                Ok(Some(j)) => {
                    let d = read_discriminator(st);
                    let key = match &d.value_name {
                        Some(v) => v.clone(),
                        None => field_name(f, &annots).clone(),
                    };
                    let ghost prev = out@;
                    match d.name {
                        Some(w) => {
                            let ghost kv = key@;
                            let ghost jv = j.view();
                            let mut inner: Vec<(String, Json)> = Vec::new();
                            inner.push((key, j));
                            assert(inner@.len() == 1);
                            assert(inner@[0].0@ == kv && inner@[0].1.view() == jv);
                            assert(Json::entry_views(inner@, 0) == Seq::<(Seq<char>, JsonView)>::empty());
                            assert(Json::entry_views(inner@, 1) =~= seq![(kv, jv)]);
                            let ghost wv = w@;
                            out.push((w, Json::Object(inner)));
                            proof {
                                Json::lemma_entry_views_agree(out@, prev, prev.len() as int);
                                assert(out@.last().1.view() == JsonView::Object(seq![(kv, jv)]));
                                assert(Json::entry_views(out@, out@.len() as int) == Json::entry_views(
                                    prev,
                                    prev.len() as int,
                                ).push((wv, JsonView::Object(seq![(kv, jv)]))));
                            }
                        },
                        None => {
                            out.push((key, j));
                        },
                    }
                    proof {
                        Json::lemma_entry_views_agree(out@, prev, prev.len() as int);
                    }
                    Ok(out)
                },
            }
        },
    }
}

/// Writes `value`, a value of type `ty` in `schema`, as JSON.  A value whose
/// type has no JSON form is written as `null`.
pub fn serialize(schema: &SchemaSet, ty: &TypeSchema, value: &Value, opts: Opts) -> (r: Result<
    Json,
    Error,
>)
    ensures
        match ser(*schema, opts, *ty, None, *value) {
            Ok(Some(j)) => r matches Ok(x) && x.view() == j,
            Ok(None) => r matches Ok(x) && x.view() == JsonView::Null,
            Err(e) => r == Err::<Json, Error>(e),
        },
{
    match ser_value(schema, opts, ty, None, value) {
        Ok(Some(j)) => Ok(j),
        Ok(None) => Ok(Json::Null),
        Err(e) => Err(e),
    }
}

} // verus!
