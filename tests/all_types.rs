use capnp_json::deserialize::{deserialize_into, new_struct_value};
use capnp_json::json::{Json, JsonNumber};
use capnp_json::schema::{EnumSchema, Enumerant, FieldSchema, SchemaSet, StructSchema, TypeSchema};
use capnp_json::serialize::{serialize, Opts};
use capnp_json::value::{StructValue, Value};

const ALL: usize = 0;

fn s(x: &str) -> String {
    String::from(x)
}

fn schema() -> SchemaSet {
    let scalars: Vec<(&str, TypeSchema)> = vec![
        ("void", TypeSchema::Void),
        ("bool", TypeSchema::Bool),
        ("int8", TypeSchema::Int8),
        ("int16", TypeSchema::Int16),
        ("int32", TypeSchema::Int32),
        ("int64", TypeSchema::Int64),
        ("uInt8", TypeSchema::UInt8),
        ("uInt16", TypeSchema::UInt16),
        ("uInt32", TypeSchema::UInt32),
        ("uInt64", TypeSchema::UInt64),
        ("float32", TypeSchema::Float32),
        ("float64", TypeSchema::Float64),
        ("text", TypeSchema::Text),
        ("data", TypeSchema::Data),
        ("struct", TypeSchema::Struct(ALL)),
        ("enum", TypeSchema::Enum(0)),
        ("interface", TypeSchema::Capability),
    ];
    let mut fields = Vec::new();
    for (name, ty) in &scalars {
        let ty = clone_type(ty);
        fields.push(FieldSchema { name: format!("{}Field", name), code_order: fields.len() as u16, ty, annotations: vec![] });
    }
    for (name, ty) in &scalars {
        let ty = TypeSchema::List(Box::new(clone_type(ty)));
        fields.push(FieldSchema { name: format!("{}List", name), code_order: fields.len() as u16, ty, annotations: vec![] });
    }
    let enumerants = ["foo", "bar", "baz", "qux", "quux", "corge", "grault", "garply"]
        .iter()
        .map(|n| Enumerant { name: s(n), annotations: vec![] })
        .collect();
    SchemaSet {
        structs: vec![StructSchema {
            display_name: s("test.capnp:TestAllTypes"),
            name: s("TestAllTypes"),
            fields,
            union_fields: vec![],
            annotations: vec![],
        }],
        enums: vec![EnumSchema { display_name: s("test.capnp:TestEnum"), enumerants }],
    }
}

fn clone_type(t: &TypeSchema) -> TypeSchema {
    match t {
        TypeSchema::Void => TypeSchema::Void,
        TypeSchema::Bool => TypeSchema::Bool,
        TypeSchema::Int8 => TypeSchema::Int8,
        TypeSchema::Int16 => TypeSchema::Int16,
        TypeSchema::Int32 => TypeSchema::Int32,
        TypeSchema::Int64 => TypeSchema::Int64,
        TypeSchema::UInt8 => TypeSchema::UInt8,
        TypeSchema::UInt16 => TypeSchema::UInt16,
        TypeSchema::UInt32 => TypeSchema::UInt32,
        TypeSchema::UInt64 => TypeSchema::UInt64,
        TypeSchema::Float32 => TypeSchema::Float32,
        TypeSchema::Float64 => TypeSchema::Float64,
        TypeSchema::Text => TypeSchema::Text,
        TypeSchema::Data => TypeSchema::Data,
        TypeSchema::Struct(i) => TypeSchema::Struct(*i),
        TypeSchema::Enum(i) => TypeSchema::Enum(*i),
        TypeSchema::List(e) => TypeSchema::List(Box::new(clone_type(e))),
        TypeSchema::AnyPointer => TypeSchema::AnyPointer,
        TypeSchema::Capability => TypeSchema::Capability,
    }
}

fn index_of(schema: &SchemaSet, name: &str) -> usize {
    schema.structs[ALL].fields.iter().position(|f| f.name == name).unwrap()
}

fn set(schema: &SchemaSet, v: &mut StructValue, name: &str, value: Value) {
    v.fields[index_of(schema, name)] = value;
}

/// A message with a value in most scalar fields and a few lists.
fn populated(schema: &SchemaSet) -> StructValue {
    let mut v = new_struct_value(schema, ALL);
    set(schema, &mut v, "boolField", Value::Bool(true));
    set(schema, &mut v, "int8Field", Value::Int(-123));
    set(schema, &mut v, "int16Field", Value::Int(-12345));
    set(schema, &mut v, "int32Field", Value::Int(-12345678));
    set(schema, &mut v, "int64Field", Value::Int(-123456789012345));
    set(schema, &mut v, "uInt8Field", Value::UInt(234));
    set(schema, &mut v, "uInt16Field", Value::UInt(45678));
    set(schema, &mut v, "uInt32Field", Value::UInt(3456789012));
    set(schema, &mut v, "uInt64Field", Value::UInt(12345678901234567890));
    set(schema, &mut v, "float32Field", Value::Float32(1234.5f32.to_bits()));
    set(schema, &mut v, "float64Field", Value::Float64((-1.23e47f64).to_bits()));
    set(schema, &mut v, "textField", Value::Text(s("foo")));
    set(schema, &mut v, "dataField", Value::Data(b"bar".to_vec()));
    let mut sub = new_struct_value(schema, ALL);
    set(schema, &mut sub, "boolField", Value::Bool(true));
    set(schema, &mut sub, "int8Field", Value::Int(-12));
    set(schema, &mut sub, "int16Field", Value::Int(3456));
    set(schema, &mut v, "structField", Value::Struct(sub));
    set(schema, &mut v, "enumField", Value::Enum(5));
    set(schema, &mut v, "voidList", Value::List(vec![Value::Void, Value::Void, Value::Void]));
    set(
        schema,
        &mut v,
        "boolList",
        Value::List(vec![Value::Bool(true), Value::Bool(false), Value::Bool(false), Value::Bool(true)]),
    );
    set(schema, &mut v, "int8List", Value::List(vec![Value::Int(111), Value::Int(-111)]));
    set(
        schema,
        &mut v,
        "textList",
        Value::List(vec![Value::Text(s("plugh")), Value::Text(s("xyzzy")), Value::Text(s("thud"))]),
    );
    let mut items = Vec::new();
    for k in 1..=3 {
        let mut item = new_struct_value(schema, ALL);
        set(schema, &mut item, "textField", Value::Text(format!("structlist {}", k)));
        items.push(Value::Struct(item));
    }
    set(schema, &mut v, "structList", Value::List(items));
    v
}

fn to_json(schema: &SchemaSet, v: StructValue) -> Json {
    serialize(schema, &TypeSchema::Struct(ALL), &Value::Struct(v), Opts::default()).unwrap()
}

fn lookup<'a>(j: &'a Json, key: &str) -> Option<&'a Json> {
    match j {
        Json::Object(es) => es.iter().find(|(k, _)| k == key).map(|(_, v)| v),
        _ => None,
    }
}

fn keys(j: &Json) -> Vec<String> {
    match j {
        Json::Object(es) => es.iter().map(|(k, _)| k.clone()).collect(),
        _ => vec![],
    }
}

fn num_i(i: i64) -> Json {
    Json::Number(JsonNumber::Int(i))
}

fn num_u(u: u64) -> Json {
    Json::Number(JsonNumber::UInt(u))
}

fn same(a: &Json, b: &Json) -> bool {
    match (a, b) {
        (Json::Null, Json::Null) => true,
        (Json::Bool(x), Json::Bool(y)) => x == y,
        (Json::Number(x), Json::Number(y)) => x == y,
        (Json::String(x), Json::String(y)) => x == y,
        (Json::Array(x), Json::Array(y)) => x.len() == y.len() && x.iter().zip(y).all(|(p, q)| same(p, q)),
        (Json::Object(x), Json::Object(y)) => {
            x.len() == y.len() && x.iter().all(|(k, v)| lookup(b, k).is_some_and(|w| same(v, w)))
        }
        _ => false,
    }
}

/// The JSON of a struct with every field at its default; `Data` fields carry
/// no data format and interface fields no JSON form, so both are absent.
fn empty_json(overrides: Vec<(&str, Json)>) -> Json {
    let base: Vec<(&str, Json)> = vec![
        ("voidField", Json::Null),
        ("boolField", Json::Bool(false)),
        ("int8Field", num_i(0)),
        ("int16Field", num_i(0)),
        ("int32Field", num_i(0)),
        ("int64Field", num_i(0)),
        ("uInt8Field", num_u(0)),
        ("uInt16Field", num_u(0)),
        ("uInt32Field", num_u(0)),
        ("uInt64Field", num_u(0)),
        ("float32Field", Json::Number(JsonNumber::Float32Bits(0))),
        ("float64Field", Json::Number(JsonNumber::Float64Bits(0))),
        ("textField", Json::Null),
        ("structField", Json::Null),
        ("enumField", Json::String(s("foo"))),
        ("voidList", Json::Null),
        ("boolList", Json::Null),
        ("int8List", Json::Null),
        ("int16List", Json::Null),
        ("int32List", Json::Null),
        ("int64List", Json::Null),
        ("uInt8List", Json::Null),
        ("uInt16List", Json::Null),
        ("uInt32List", Json::Null),
        ("uInt64List", Json::Null),
        ("float32List", Json::Null),
        ("float64List", Json::Null),
        ("textList", Json::Null),
        ("structList", Json::Null),
        ("enumList", Json::Null),
    ];
    let mut entries: Vec<(String, Json)> = Vec::new();
    for (k, v) in base {
        entries.push((s(k), v));
    }
    for (k, v) in overrides {
        let slot = entries.iter_mut().find(|(n, _)| n == k).unwrap();
        slot.1 = v;
    }
    Json::Object(entries)
}

#[test]
fn serialize_empty_all_types() {
    let schema = schema();
    let actual = to_json(&schema, new_struct_value(&schema, ALL));
    assert!(same(&actual, &empty_json(vec![])), "{:?}", actual);
    assert!(!keys(&actual).iter().any(|k| k == "dataField" || k == "interfaceField"));
}

#[test]
fn serialize_populated_all_types() {
    let schema = schema();
    let actual = to_json(&schema, populated(&schema));
    let sub = empty_json(vec![
        ("boolField", Json::Bool(true)),
        ("int8Field", num_i(-12)),
        ("int16Field", num_i(3456)),
    ]);
    let items: Vec<Json> = (1..=3)
        .map(|k| empty_json(vec![("textField", Json::String(format!("structlist {}", k)))]))
        .collect();
    let expected = empty_json(vec![
        ("boolField", Json::Bool(true)),
        ("boolList", Json::Array(vec![Json::Bool(true), Json::Bool(false), Json::Bool(false), Json::Bool(true)])),
        ("enumField", Json::String(s("corge"))),
        ("float32Field", Json::Number(JsonNumber::Float32Bits(1234.5f32.to_bits()))),
        ("float64Field", Json::Number(JsonNumber::Float64Bits((-1.23e47f64).to_bits()))),
        ("int16Field", num_i(-12345)),
        ("int32Field", num_i(-12345678)),
        ("int64Field", num_i(-123456789012345)),
        ("int8Field", num_i(-123)),
        ("int8List", Json::Array(vec![num_i(111), num_i(-111)])),
        ("structField", sub),
        ("structList", Json::Array(items)),
        ("textField", Json::String(s("foo"))),
        (
            "textList",
            Json::Array(vec![Json::String(s("plugh")), Json::String(s("xyzzy")), Json::String(s("thud"))]),
        ),
        ("uInt16Field", num_u(45678)),
        ("uInt32Field", num_u(3456789012)),
        ("uInt64Field", num_u(12345678901234567890)),
        ("uInt8Field", num_u(234)),
        ("voidList", Json::Array(vec![Json::Null, Json::Null, Json::Null])),
    ]);
    assert!(same(&actual, &expected), "{:?}", actual);
}

fn value_eq(a: &Value, b: &Value) -> bool {
    match (a, b) {
        (Value::Void, Value::Void) | (Value::Null, Value::Null) => true,
        (Value::Bool(x), Value::Bool(y)) => x == y,
        (Value::Int(x), Value::Int(y)) => x == y,
        (Value::UInt(x), Value::UInt(y)) => x == y,
        (Value::Float32(x), Value::Float32(y)) => x == y,
        (Value::Float64(x), Value::Float64(y)) => x == y,
        (Value::Text(x), Value::Text(y)) => x == y,
        (Value::Data(x), Value::Data(y)) => x == y,
        (Value::Enum(x), Value::Enum(y)) => x == y,
        (Value::List(x), Value::List(y)) => x.len() == y.len() && x.iter().zip(y).all(|(p, q)| value_eq(p, q)),
        (Value::Struct(x), Value::Struct(y)) => struct_eq(x, y),
        _ => false,
    }
}

fn struct_eq(a: &StructValue, b: &StructValue) -> bool {
    a.fields.len() == b.fields.len()
        && a.fields.iter().zip(&b.fields).all(|(p, q)| value_eq(p, q))
        && a.union.is_none()
        && b.union.is_none()
}

#[test]
fn round_trip_all_types() {
    let schema = schema();
    let json = to_json(&schema, populated(&schema));
    let mut back = new_struct_value(&schema, ALL);
    deserialize_into(&schema, ALL, &mut back, &json).unwrap();
    let mut expected = populated(&schema);
    // `dataField` carries no data format, so it is never written and reads
    // back as unset.
    set(&schema, &mut expected, "dataField", Value::Null);
    assert!(struct_eq(&back, &expected), "{:?}", back);
    let again = to_json(&schema, back);
    assert!(same(&json, &again), "{:?}\n{:?}", json, again);
}

#[test]
fn float_fields_take_any_json_number() {
    let schema = schema();
    let json = Json::Object(vec![(s("float32Field"), num_u(1)), (s("float64Field"), num_i(-2))]);
    let mut back = new_struct_value(&schema, ALL);
    deserialize_into(&schema, ALL, &mut back, &json).unwrap();
    assert!(matches!(back.fields[index_of(&schema, "float32Field")], Value::Number(JsonNumber::UInt(1))));
    assert!(matches!(back.fields[index_of(&schema, "float64Field")], Value::Number(JsonNumber::Int(-2))));
}
