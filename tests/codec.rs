use capnp_json::deserialize::{deserialize_into, new_struct_value};
use capnp_json::error::Error;
use capnp_json::json::{Json, JsonNumber};
use capnp_json::schema::{
    Annotation, EnumSchema, Enumerant, FieldSchema, SchemaSet, StructSchema, TypeSchema,
};
use capnp_json::serialize::{serialize, OnEnumerantNotInSchema, Opts};
use capnp_json::value::{StructValue, UnionValue, Value};

const SIMPLE_UNNAMED_UNION: usize = 2;
const SIMPLE_NAMED_UNION: usize = 3;
const TEST_STRUCT_LIST: usize = 5;
const SIMPLE_NESTED_STRUCT: usize = 7;
const JSON_DATA: usize = 9;
const JSON_RENAME: usize = 10;
const UNRECOGNIZED_ENUM: usize = 13;
const UNION_ONLY: usize = 14;
const NAMED_UNION_ONLY: usize = 15;
const DISCRIMINATED: usize = 16;

fn s(x: &str) -> String {
    String::from(x)
}

fn field(name: &str, code: u16, ty: TypeSchema, annotations: Vec<Annotation>) -> FieldSchema {
    FieldSchema { name: s(name), code_order: code, ty, annotations }
}

fn node(
    display: &str,
    name: &str,
    fields: Vec<FieldSchema>,
    union_fields: Vec<FieldSchema>,
    annotations: Vec<Annotation>,
) -> StructSchema {
    StructSchema { display_name: s(display), name: s(name), fields, union_fields, annotations }
}

fn schema() -> SchemaSet {
    let structs = vec![
        node(
            "test.capnp:SimpleStruct",
            "SimpleStruct",
            vec![
                field("field", 0, TypeSchema::UInt32, vec![]),
                field("textField", 1, TypeSchema::Text, vec![]),
                field("dataField", 2, TypeSchema::Data, vec![Annotation::Hex]),
            ],
            vec![],
            vec![],
        ),
        node(
            "test.capnp:SimpleList",
            "SimpleList",
            vec![field("field", 0, TypeSchema::List(Box::new(TypeSchema::Struct(0))), vec![])],
            vec![],
            vec![],
        ),
        node(
            "test.capnp:SimpleUnnamedUnion",
            "SimpleUnnamedUnion",
            vec![field("common", 0, TypeSchema::Text, vec![])],
            vec![
                field("unset", 1, TypeSchema::Void, vec![]),
                field("variant", 2, TypeSchema::UInt16, vec![]),
            ],
            vec![],
        ),
        node(
            "test.capnp:SimpleNamedUnion",
            "SimpleNamedUnion",
            vec![
                field("common", 0, TypeSchema::Text, vec![]),
                field("value", 1, TypeSchema::Struct(4), vec![]),
            ],
            vec![],
            vec![],
        ),
        node(
            "test.capnp:SimpleNamedUnion.value",
            "value",
            vec![],
            vec![
                field("unset", 0, TypeSchema::Void, vec![]),
                field("variant", 1, TypeSchema::UInt16, vec![]),
                field("otherVariant", 2, TypeSchema::UInt16, vec![]),
            ],
            vec![],
        ),
        node(
            "test.capnp:TestStructList",
            "TestStructList",
            vec![field("structList", 0, TypeSchema::List(Box::new(TypeSchema::Struct(6))), vec![])],
            vec![],
            vec![],
        ),
        node(
            "test.capnp:TestUint8List",
            "TestUint8List",
            vec![field("uint8List", 0, TypeSchema::List(Box::new(TypeSchema::UInt8)), vec![])],
            vec![],
            vec![],
        ),
        node(
            "test.capnp:SimpleNestedStruct",
            "SimpleNestedStruct",
            vec![field("field", 0, TypeSchema::Struct(8), vec![])],
            vec![],
            vec![],
        ),
        node(
            "test.capnp:SimpleNestedStruct.Nested",
            "Nested",
            vec![field("nested", 0, TypeSchema::Bool, vec![])],
            vec![],
            vec![],
        ),
        node(
            "test.capnp:JsonData",
            "JsonData",
            vec![
                field("hex", 0, TypeSchema::Data, vec![Annotation::Hex]),
                field("base64", 1, TypeSchema::Data, vec![Annotation::Base64]),
                field("hexList", 2, TypeSchema::List(Box::new(TypeSchema::Data)), vec![Annotation::Hex]),
            ],
            vec![],
            vec![],
        ),
        node(
            "test.capnp:JsonRename",
            "JsonRename",
            vec![
                field("group", 0, TypeSchema::Struct(11), vec![Annotation::Name(s("renamed-group"))]),
                field("aUnion", 1, TypeSchema::Struct(12), vec![Annotation::Name(s("renamed-union"))]),
            ],
            vec![],
            vec![],
        ),
        node(
            "test.capnp:JsonRename.group",
            "group",
            vec![field("field", 0, TypeSchema::Enum(0), vec![Annotation::Name(s("renamed-field"))])],
            vec![],
            vec![],
        ),
        node(
            "test.capnp:JsonRename.aUnion",
            "aUnion",
            vec![],
            vec![
                field("unset", 0, TypeSchema::Void, vec![]),
                field("set", 1, TypeSchema::UInt16, vec![]),
            ],
            vec![],
        ),
        node(
            "test.capnp:UnrecognizedEnum",
            "UnrecognizedEnum",
            vec![field("field", 0, TypeSchema::Enum(1), vec![])],
            vec![],
            vec![],
        ),
        node(
            "test.capnp:UnionOnly",
            "UnionOnly",
            vec![],
            vec![
                field("unset", 0, TypeSchema::Void, vec![]),
                field("variant", 1, TypeSchema::UInt16, vec![]),
                field("otherVariant", 2, TypeSchema::UInt16, vec![]),
            ],
            vec![],
        ),
        node(
            "test.capnp:NamedUnionOnly",
            "NamedUnionOnly",
            vec![field("value", 0, TypeSchema::Struct(4), vec![])],
            vec![],
            vec![],
        ),
        node(
            "test.capnp:Discriminated",
            "Discriminated",
            vec![field("id", 1, TypeSchema::Int32, vec![])],
            vec![
                field("first", 0, TypeSchema::Text, vec![]),
                field("second", 2, TypeSchema::Bool, vec![]),
            ],
            vec![Annotation::Discriminator { name: None, value_name: None }],
        ),
    ];
    let enums = vec![
        EnumSchema {
            display_name: s("test.capnp:JsonRename.Enum"),
            enumerants: vec![Enumerant {
                name: s("set"),
                annotations: vec![Annotation::Name(s("renamed-enumerant"))],
            }],
        },
        EnumSchema {
            display_name: s("test.capnp:UnrecognizedEnum.Enum"),
            enumerants: vec![Enumerant { name: s("foo"), annotations: vec![] }],
        },
    ];
    SchemaSet { structs, enums }
}

fn num(u: u64) -> Json {
    Json::Number(JsonNumber::UInt(u))
}

fn obj(entries: Vec<(&str, Json)>) -> Json {
    Json::Object(entries.into_iter().map(|(k, v)| (s(k), v)).collect())
}

fn json_eq(a: &Json, b: &Json) -> bool {
    match (a, b) {
        (Json::Null, Json::Null) => true,
        (Json::Bool(x), Json::Bool(y)) => x == y,
        (Json::Number(x), Json::Number(y)) => x == y,
        (Json::String(x), Json::String(y)) => x == y,
        (Json::Array(x), Json::Array(y)) => {
            x.len() == y.len() && x.iter().zip(y.iter()).all(|(p, q)| json_eq(p, q))
        }
        (Json::Object(x), Json::Object(y)) => {
            x.len() == y.len()
                && x.iter().zip(y.iter()).all(|(p, q)| p.0 == q.0 && json_eq(&p.1, &q.1))
        }
        _ => false,
    }
}

fn check_ser(schema: &SchemaSet, root: usize, value: &StructValue, opts: Opts, expected: Json) {
    let actual = serialize(
        schema,
        &TypeSchema::Struct(root),
        &Value::Struct(clone_struct(value)),
        opts,
    )
    .unwrap();
    assert!(json_eq(&actual, &expected), "actual: {:?}\nexpected: {:?}", actual, expected);
}

fn clone_value(v: &Value) -> Value {
    match v {
        Value::Void => Value::Void,
        Value::Bool(b) => Value::Bool(*b),
        Value::Int(i) => Value::Int(*i),
        Value::UInt(u) => Value::UInt(*u),
        Value::Float32(b) => Value::Float32(*b),
        Value::Float64(b) => Value::Float64(*b),
        Value::Number(n) => Value::Number(*n),
        Value::Text(t) => Value::Text(t.clone()),
        Value::Data(d) => Value::Data(d.clone()),
        Value::List(vs) => Value::List(vs.iter().map(clone_value).collect()),
        Value::Enum(o) => Value::Enum(*o),
        Value::Struct(sv) => Value::Struct(clone_struct(sv)),
        Value::Null => Value::Null,
    }
}

fn clone_struct(sv: &StructValue) -> StructValue {
    StructValue {
        fields: sv.fields.iter().map(clone_value).collect(),
        union: sv.union.as_ref().map(|u| UnionValue { which: u.which, value: Box::new(clone_value(&u.value)) }),
    }
}

fn de(schema: &SchemaSet, root: usize, json: &Json) -> StructValue {
    let mut target = new_struct_value(schema, root);
    deserialize_into(schema, root, &mut target, json).unwrap();
    target
}

fn union_of(sv: &StructValue) -> (usize, &Value) {
    let u = sv.union.as_ref().unwrap();
    (u.which, &u.value)
}

#[test]
fn deserialize_struct_list() {
    let schema = schema();
    let json = obj(vec![("structList", Json::Array(vec![obj(vec![(
        "uint8List",
        Json::Array(vec![num(1), num(2), num(3)]),
    )])]))]);
    let v = de(&schema, TEST_STRUCT_LIST, &json);
    let Value::List(items) = &v.fields[0] else { panic!("structList not set") };
    assert_eq!(items.len(), 1);
    let Value::Struct(inner) = &items[0] else { panic!("element not a struct") };
    let Value::List(bytes) = &inner.fields[0] else { panic!("uint8List not set") };
    let got: Vec<u64> = bytes
        .iter()
        .map(|b| match b {
            Value::UInt(u) => *u,
            _ => panic!("not an integer"),
        })
        .collect();
    assert_eq!(got, vec![1, 2, 3]);
}

#[test]
fn deserialize_unnamed_union_with_variant() {
    let schema = schema();
    let v = de(&schema, SIMPLE_UNNAMED_UNION, &obj(vec![("variant", num(42))]));
    let (which, value) = union_of(&v);
    assert_eq!(which, 1);
    assert!(matches!(value, Value::UInt(42)));
}

#[test]
fn deserialize_named_union_with_variant() {
    let schema = schema();
    let v = de(&schema, SIMPLE_NAMED_UNION, &obj(vec![("value", obj(vec![("variant", num(42))]))]));
    let Value::Struct(inner) = &v.fields[1] else { panic!("value not set") };
    let (which, value) = union_of(inner);
    assert_eq!(which, 1);
    assert!(matches!(value, Value::UInt(42)));
}

#[test]
fn deserialize_unnamed_union_no_fields() {
    let schema = schema();
    let v = de(&schema, SIMPLE_UNNAMED_UNION, &obj(vec![]));
    let (which, value) = union_of(&v);
    assert_eq!(which, 0);
    assert!(matches!(value, Value::Void));
}

#[test]
fn deserialize_named_union_no_fields() {
    let schema = schema();
    let v = de(&schema, SIMPLE_NAMED_UNION, &obj(vec![("value", obj(vec![]))]));
    let Value::Struct(inner) = &v.fields[1] else { panic!("value not set") };
    let (which, value) = union_of(inner);
    assert_eq!(which, 0);
    assert!(matches!(value, Value::Void));
}

#[test]
fn deserialize_unnamed_union_multiple_variants() {
    let schema = schema();
    let v = de(
        &schema,
        UNION_ONLY,
        &obj(vec![("variant", num(42)), ("otherVariant", num(43))]),
    );
    let (which, value) = union_of(&v);
    assert_eq!(which, 1);
    assert!(matches!(value, Value::UInt(42)));
}

#[test]
fn deserialize_named_union_multiple_variants() {
    let schema = schema();
    let v = de(
        &schema,
        SIMPLE_NAMED_UNION,
        &obj(vec![("value", obj(vec![("variant", num(42)), ("otherVariant", num(43))]))]),
    );
    let Value::Struct(inner) = &v.fields[1] else { panic!("value not set") };
    let (which, value) = union_of(inner);
    assert_eq!(which, 1);
    assert!(matches!(value, Value::UInt(42)));
}

#[test]
fn union_tie_break_ignores_key_order() {
    let schema = schema();
    let v = de(
        &schema,
        UNION_ONLY,
        &obj(vec![("otherVariant", num(43)), ("variant", num(42))]),
    );
    let (which, value) = union_of(&v);
    assert_eq!(which, 1);
    assert!(matches!(value, Value::UInt(42)));
}

#[test]
fn serialize_unnamed_union() {
    let schema = schema();
    let mut subject = new_struct_value(&schema, UNION_ONLY);
    subject.union = Some(UnionValue { which: 1, value: Box::new(Value::UInt(42)) });
    check_ser(&schema, UNION_ONLY, &subject, Opts::default(), obj(vec![("variant", num(42))]));
}

#[test]
fn serialize_unset_union_is_first_member() {
    let schema = schema();
    let subject = new_struct_value(&schema, UNION_ONLY);
    check_ser(&schema, UNION_ONLY, &subject, Opts::default(), obj(vec![("unset", Json::Null)]));
    let back = de(&schema, UNION_ONLY, &obj(vec![]));
    let (which, value) = union_of(&back);
    assert_eq!(which, 0);
    assert!(matches!(value, Value::Void));
}

#[test]
fn serialize_named_union_nests() {
    let schema = schema();
    let mut inner = new_struct_value(&schema, 4);
    inner.union = Some(UnionValue { which: 1, value: Box::new(Value::UInt(42)) });
    let mut subject = new_struct_value(&schema, NAMED_UNION_ONLY);
    subject.fields[0] = Value::Struct(inner);
    check_ser(
        &schema,
        NAMED_UNION_ONLY,
        &subject,
        Opts::default(),
        obj(vec![("value", obj(vec![("variant", num(42))]))]),
    );
}

#[test]
fn serialize_discriminator_wraps_union() {
    let schema = schema();
    let mut subject = new_struct_value(&schema, DISCRIMINATED);
    subject.fields[0] = Value::Int(-7);
    subject.union = Some(UnionValue { which: 1, value: Box::new(Value::Bool(true)) });
    let expected = obj(vec![
        ("id", Json::Number(JsonNumber::Int(-7))),
        ("Discriminated", obj(vec![("second", Json::Bool(true))])),
    ]);
    check_ser(&schema, DISCRIMINATED, &subject, Opts::default(), expected);
    let back = de(
        &schema,
        DISCRIMINATED,
        &obj(vec![("Discriminated", obj(vec![("second", Json::Bool(true))]))]),
    );
    let (which, value) = union_of(&back);
    assert_eq!(which, 1);
    assert!(matches!(value, Value::Bool(true)));
}

#[test]
fn serialize_simple_nested_struct() {
    let schema = schema();
    let mut subject = new_struct_value(&schema, SIMPLE_NESTED_STRUCT);
    check_ser(&schema, SIMPLE_NESTED_STRUCT, &subject, Opts::default(), obj(vec![("field", Json::Null)]));
    subject.fields[0] = Value::Struct(new_struct_value(&schema, 8));
    check_ser(
        &schema,
        SIMPLE_NESTED_STRUCT,
        &subject,
        Opts::default(),
        obj(vec![("field", obj(vec![("nested", Json::Bool(false))]))]),
    );
}

#[test]
fn serialize_data_format_annotations() {
    let schema = schema();
    let mut subject = new_struct_value(&schema, JSON_DATA);
    subject.fields[0] = Value::Data(b"hex value".to_vec());
    subject.fields[1] = Value::Data(b"base64 val".to_vec());
    subject.fields[2] = Value::List(vec![
        Value::Data(b"value 0".to_vec()),
        Value::Data(b"value 1".to_vec()),
    ]);
    check_ser(
        &schema,
        JSON_DATA,
        &subject,
        Opts::default(),
        obj(vec![
            ("hex", Json::String(s("6865782076616c7565"))),
            ("base64", Json::String(s("YmFzZTY0IHZhbA=="))),
            (
                "hexList",
                Json::Array(vec![
                    Json::String(s("76616c75652030")),
                    Json::String(s("76616c75652031")),
                ]),
            ),
        ]),
    );
}

#[test]
fn deserialize_data_format_annotations() {
    let schema = schema();
    let v = de(
        &schema,
        JSON_DATA,
        &obj(vec![
            ("hex", Json::String(s("6865782076616c7565"))),
            ("base64", Json::String(s("YmFzZTY0IHZhbA=="))),
            (
                "hexList",
                Json::Array(vec![
                    Json::String(s("76616c75652030")),
                    Json::String(s("76616c75652031")),
                ]),
            ),
        ]),
    );
    assert!(matches!(&v.fields[0], Value::Data(d) if d.as_slice() == b"hex value"));
    assert!(matches!(&v.fields[1], Value::Data(d) if d.as_slice() == b"base64 val"));
    let Value::List(items) = &v.fields[2] else { panic!("hexList not set") };
    assert!(matches!(&items[0], Value::Data(d) if d.as_slice() == b"value 0"));
    assert!(matches!(&items[1], Value::Data(d) if d.as_slice() == b"value 1"));
}

#[test]
fn unformatted_data_is_omitted() {
    let mut schema = schema();
    schema.structs.push(node(
        "test.capnp:Raw",
        "Raw",
        vec![field("raw", 0, TypeSchema::Data, vec![]), field("n", 1, TypeSchema::UInt8, vec![])],
        vec![],
        vec![],
    ));
    let root = schema.structs.len() - 1;
    let mut subject = new_struct_value(&schema, root);
    subject.fields[0] = Value::Data(vec![1, 2, 3]);
    subject.fields[1] = Value::UInt(5);
    check_ser(&schema, root, &subject, Opts::default(), obj(vec![("n", num(5))]));
}

#[test]
fn malformed_data_is_an_error() {
    let schema = schema();
    for text in ["6865782", "68zz", "6865782076616C7565"] {
        let mut target = new_struct_value(&schema, JSON_DATA);
        let r = deserialize_into(&schema, JSON_DATA, &mut target, &obj(vec![("hex", Json::String(s(text)))]));
        assert_eq!(r, Err(Error::BadEncoding));
    }
    for text in ["YmFzZTY0IHZhbA=", "YmFz!TY0", "YmFzZTY0IHZhbB=="] {
        let mut target = new_struct_value(&schema, JSON_DATA);
        let r = deserialize_into(&schema, JSON_DATA, &mut target, &obj(vec![("base64", Json::String(s(text)))]));
        assert_eq!(r, Err(Error::BadEncoding));
    }
}

#[test]
fn base64_padding_lengths() {
    let schema = schema();
    for (bytes, text) in [
        (&b""[..], ""),
        (&b"f"[..], "Zg=="),
        (&b"fo"[..], "Zm8="),
        (&b"foo"[..], "Zm9v"),
        (&b"foob"[..], "Zm9vYg=="),
        (&[0xffu8, 0xfe, 0x00][..], "//4A"),
    ] {
        let mut subject = new_struct_value(&schema, JSON_DATA);
        subject.fields[1] = Value::Data(bytes.to_vec());
        check_ser(
            &schema,
            JSON_DATA,
            &subject,
            Opts::default(),
            obj(vec![("hex", Json::Null), ("base64", Json::String(s(text))), ("hexList", Json::Null)]),
        );
        let back = de(&schema, JSON_DATA, &obj(vec![("base64", Json::String(s(text)))]));
        assert!(matches!(&back.fields[1], Value::Data(d) if d.as_slice() == bytes));
    }
}

#[test]
fn serialize_name_annotation() {
    let schema = schema();
    let mut group = new_struct_value(&schema, 11);
    group.fields[0] = Value::Enum(0);
    let mut a_union = new_struct_value(&schema, 12);
    a_union.union = Some(UnionValue { which: 1, value: Box::new(Value::UInt(42)) });
    let mut subject = new_struct_value(&schema, JSON_RENAME);
    subject.fields[0] = Value::Struct(group);
    subject.fields[1] = Value::Struct(a_union);
    check_ser(
        &schema,
        JSON_RENAME,
        &subject,
        Opts::default(),
        obj(vec![
            ("renamed-group", obj(vec![("renamed-field", Json::String(s("renamed-enumerant")))])),
            ("renamed-union", obj(vec![("set", num(42))])),
        ]),
    );
}

#[test]
fn deserialize_name_annotation() {
    let schema = schema();
    let v = de(
        &schema,
        JSON_RENAME,
        &obj(vec![
            ("renamed-group", obj(vec![("renamed-field", Json::String(s("renamed-enumerant")))])),
            ("renamed-union", obj(vec![("set", num(42))])),
        ]),
    );
    let Value::Struct(group) = &v.fields[0] else { panic!("group not set") };
    assert!(matches!(group.fields[0], Value::Enum(0)));
    let Value::Struct(a_union) = &v.fields[1] else { panic!("aUnion not set") };
    let (which, value) = union_of(a_union);
    assert_eq!(which, 1);
    assert!(matches!(value, Value::UInt(42)));
}

#[test]
fn declared_name_is_ignored_under_override() {
    let schema = schema();
    let v = de(&schema, JSON_RENAME, &obj(vec![("group", obj(vec![("field", Json::String(s("set")))]))]));
    assert!(matches!(v.fields[0], Value::Null));
    let mut target = new_struct_value(&schema, 11);
    let r = deserialize_into(&schema, 11, &mut target, &obj(vec![("renamed-field", Json::String(s("set")))]));
    assert_eq!(r, Err(Error::UnknownEnumerant));
}

#[test]
fn serialize_unrecognized_enum_field() {
    let schema = schema();
    let mut subject = new_struct_value(&schema, UNRECOGNIZED_ENUM);
    subject.fields[0] = Value::Enum(1);
    check_ser(
        &schema,
        UNRECOGNIZED_ENUM,
        &subject,
        Opts { on_enumerant_not_in_schema: OnEnumerantNotInSchema::UseNumber },
        obj(vec![("field", num(1))]),
    );
    let actual_error = serialize(
        &schema,
        &TypeSchema::Struct(UNRECOGNIZED_ENUM),
        &Value::Struct(clone_struct(&subject)),
        Opts { on_enumerant_not_in_schema: OnEnumerantNotInSchema::Error },
    );
    assert!(actual_error.is_err());
    assert!(matches!(actual_error, Err(Error::EnumerantNotInSchema(1))));
}

#[test]
fn recognized_enum_uses_its_name() {
    let schema = schema();
    let subject = new_struct_value(&schema, UNRECOGNIZED_ENUM);
    check_ser(&schema, UNRECOGNIZED_ENUM, &subject, Opts::default(), obj(vec![("field", Json::String(s("foo")))]));
}

#[test]
fn round_trip_struct_value() {
    let schema = schema();
    let mut subject = new_struct_value(&schema, SIMPLE_UNNAMED_UNION);
    subject.fields[0] = Value::Text(s("shared"));
    subject.union = Some(UnionValue { which: 1, value: Box::new(Value::UInt(65535)) });
    let json = serialize(
        &schema,
        &TypeSchema::Struct(SIMPLE_UNNAMED_UNION),
        &Value::Struct(clone_struct(&subject)),
        Opts::default(),
    )
    .unwrap();
    let back = de(&schema, SIMPLE_UNNAMED_UNION, &json);
    assert!(matches!(&back.fields[0], Value::Text(t) if t == "shared"));
    let (which, value) = union_of(&back);
    assert_eq!(which, 1);
    assert!(matches!(value, Value::UInt(65535)));
}

#[test]
fn shape_and_range_errors() {
    let schema = schema();
    let mut target = new_struct_value(&schema, UNION_ONLY);
    assert_eq!(
        deserialize_into(&schema, UNION_ONLY, &mut target, &Json::Array(vec![])),
        Err(Error::ShapeMismatch)
    );
    let mut target = new_struct_value(&schema, UNION_ONLY);
    assert_eq!(
        deserialize_into(&schema, UNION_ONLY, &mut target, &obj(vec![("variant", num(65536))])),
        Err(Error::ShapeMismatch)
    );
    let mut target = new_struct_value(&schema, UNION_ONLY);
    assert_eq!(
        deserialize_into(&schema, UNION_ONLY, &mut target, &obj(vec![("variant", Json::String(s("1")))])),
        Err(Error::ShapeMismatch)
    );
    let mut target = new_struct_value(&schema, UNION_ONLY);
    assert_eq!(deserialize_into(&schema, 99, &mut target, &obj(vec![])), Err(Error::BadReference));
}

#[test]
fn value_that_does_not_fit_its_type() {
    let schema = schema();
    let r = serialize(&schema, &TypeSchema::Bool, &Value::UInt(1), Opts::default());
    assert!(matches!(r, Err(Error::ValueMismatch)));
    let r = serialize(&schema, &TypeSchema::Struct(42), &Value::Null, Opts::default());
    assert!(matches!(r, Err(Error::BadReference)));
}

#[test]
fn flatten_is_refused() {
    let mut schema = schema();
    schema.structs.push(node(
        "test.capnp:Flat",
        "Flat",
        vec![field("inner", 0, TypeSchema::Struct(8), vec![Annotation::Flatten { prefix: None }])],
        vec![],
        vec![],
    ));
    let root = schema.structs.len() - 1;
    let subject = new_struct_value(&schema, root);
    let r = serialize(&schema, &TypeSchema::Struct(root), &Value::Struct(subject), Opts::default());
    assert!(matches!(r, Err(Error::FlattenUnsupported)));
    let mut target = new_struct_value(&schema, root);
    assert_eq!(
        deserialize_into(&schema, root, &mut target, &obj(vec![])),
        Err(Error::FlattenUnsupported)
    );
}

#[test]
fn fields_follow_code_order() {
    let mut schema = schema();
    schema.structs.push(node(
        "test.capnp:Ordered",
        "Ordered",
        vec![
            field("b", 2, TypeSchema::UInt8, vec![]),
            field("c", 0, TypeSchema::UInt8, vec![]),
            field("a", 1, TypeSchema::UInt8, vec![]),
        ],
        vec![],
        vec![],
    ));
    let root = schema.structs.len() - 1;
    let mut subject = new_struct_value(&schema, root);
    subject.fields[0] = Value::UInt(2);
    subject.fields[1] = Value::UInt(0);
    subject.fields[2] = Value::UInt(1);
    check_ser(&schema, root, &subject, Opts::default(), obj(vec![("c", num(0)), ("a", num(1)), ("b", num(2))]));
}

#[test]
fn large_integers_are_not_narrowed() {
    let schema = schema();
    let r = serialize(&schema, &TypeSchema::UInt64, &Value::UInt(u64::MAX), Opts::default()).unwrap();
    assert!(json_eq(&r, &num(u64::MAX)));
    let r = serialize(&schema, &TypeSchema::Int64, &Value::Int(i64::MIN), Opts::default()).unwrap();
    assert!(json_eq(&r, &Json::Number(JsonNumber::Int(i64::MIN))));
}
