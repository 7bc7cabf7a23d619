use capnp_json::error::Error;
use capnp_json::schema::{
    Annotation, DataFormat, EnumSchema, Enumerant, FieldSchema, SchemaSet, StructSchema, TypeSchema,
};
use capnp_json::serialize::{OnEnumerantNotInSchema, Opts};
use capnp_json::text::display_name_to_ident;
use capnp_json::typescript::{Context, Item, TypeIdent};

fn s(x: &str) -> String {
    String::from(x)
}

fn field(name: &str, code: u16, ty: TypeSchema, annotations: Vec<Annotation>) -> FieldSchema {
    FieldSchema { name: s(name), code_order: code, ty, annotations }
}

fn node(display: &str, name: &str, fields: Vec<FieldSchema>, union_fields: Vec<FieldSchema>) -> StructSchema {
    StructSchema { display_name: s(display), name: s(name), fields, union_fields, annotations: vec![] }
}

fn schema() -> SchemaSet {
    let structs = vec![
        node(
            "test.capnp:SimpleStruct",
            "SimpleStruct",
            vec![
                field("field", 0, TypeSchema::UInt32, vec![]),
                field("textField", 1, TypeSchema::Text, vec![]),
                field("dataField", 2, TypeSchema::Data, vec![Annotation::Hex]),
            ],
            vec![],
        ),
        node(
            "test.capnp:SimpleList",
            "SimpleList",
            vec![field("field", 0, TypeSchema::List(Box::new(TypeSchema::Struct(0))), vec![])],
            vec![],
        ),
        node(
            "test.capnp:SimpleUnnamedUnion",
            "SimpleUnnamedUnion",
            vec![field("common", 0, TypeSchema::Text, vec![])],
            vec![
                field("unset", 1, TypeSchema::Void, vec![]),
                field("variant", 2, TypeSchema::UInt16, vec![]),
            ],
        ),
        node(
            "test.capnp:SimpleNamedUnion",
            "SimpleNamedUnion",
            vec![
                field("common", 0, TypeSchema::Text, vec![]),
                field("value", 1, TypeSchema::Struct(4), vec![]),
            ],
            vec![],
        ),
        node(
            "test.capnp:SimpleNamedUnion.value",
            "value",
            vec![],
            vec![
                field("unset", 0, TypeSchema::Void, vec![]),
                field("variant", 1, TypeSchema::UInt16, vec![]),
                field("otherVariant", 2, TypeSchema::UInt16, vec![]),
            ],
        ),
        node(
            "test.capnp:WithEnum",
            "WithEnum",
            vec![
                field("kind", 0, TypeSchema::Enum(0), vec![]),
                field("any", 1, TypeSchema::AnyPointer, vec![]),
                field("raw", 2, TypeSchema::Data, vec![]),
                field("self", 3, TypeSchema::List(Box::new(TypeSchema::Struct(5))), vec![]),
                field("b64", 4, TypeSchema::Data, vec![Annotation::Base64]),
            ],
            vec![],
        ),
        node("caf\u{e9}.capnp:Bad", "Bad", vec![], vec![]),
        StructSchema {
            display_name: s("test.capnp:Discriminated"),
            name: s("Discriminated"),
            fields: vec![field("id", 1, TypeSchema::Int32, vec![])],
            union_fields: vec![
                field("first", 0, TypeSchema::Text, vec![]),
                field("second", 2, TypeSchema::Bool, vec![]),
            ],
            annotations: vec![Annotation::Discriminator { name: None, value_name: None }],
        },
        node("test.capnp:RefBad", "RefBad", vec![field("bad", 0, TypeSchema::Struct(6), vec![])], vec![]),
        node(
            "a:S",
            "S",
            vec![],
            vec![
                field("unset", 0, TypeSchema::Void, vec![]),
                field("g", 1, TypeSchema::Struct(10), vec![]),
            ],
        ),
        node("a:S.g", "g", vec![field("x", 0, TypeSchema::Bool, vec![])], vec![]),
    ];
    let enums = vec![EnumSchema {
        display_name: s("test.capnp:Kind"),
        enumerants: vec![
            Enumerant { name: s("foo"), annotations: vec![] },
            Enumerant { name: s("bar"), annotations: vec![Annotation::Name(s("bar-renamed"))] },
            Enumerant { name: s("q"), annotations: vec![Annotation::Name(s("say \"hi\" \\o/"))] },
        ],
    }];
    SchemaSet { structs, enums }
}

#[test]
fn test_typescript_basic() {
    let schema = schema();
    let mut ctx = Context::new(Default::default());
    ctx.add(&schema, 1).unwrap();
    ctx.add(&schema, 2).unwrap();
    ctx.add(&schema, 3).unwrap();
    let actual = ctx.write();

    let expected = r#"
type HexData = string;

interface TestCapnpSimpleStruct {
    field: number;
    textField: string;
    dataField: HexData;
}

interface TestCapnpSimpleList {
    field: Array<TestCapnpSimpleStruct>;
}

interface TestCapnpSimpleUnnamedUnionUnset {
    common: string;
    unset: null;
}

interface TestCapnpSimpleUnnamedUnionVariant {
    common: string;
    variant: number;
}

type TestCapnpSimpleUnnamedUnion = TestCapnpSimpleUnnamedUnionUnset | TestCapnpSimpleUnnamedUnionVariant;

interface TestCapnpSimpleNamedUnionValueUnset {
    unset: null;
}

interface TestCapnpSimpleNamedUnionValueVariant {
    variant: number;
}

interface TestCapnpSimpleNamedUnionValueOtherVariant {
    otherVariant: number;
}

type TestCapnpSimpleNamedUnionValue = TestCapnpSimpleNamedUnionValueUnset | TestCapnpSimpleNamedUnionValueVariant | TestCapnpSimpleNamedUnionValueOtherVariant;

interface TestCapnpSimpleNamedUnion {
    common: string;
    value: TestCapnpSimpleNamedUnionValue;
}
"#;

    assert_eq!(expected, actual);
}

#[test]
fn adding_twice_declares_once() {
    let schema = schema();
    let mut ctx = Context::new(Default::default());
    ctx.add(&schema, 1).unwrap();
    let once = ctx.write();
    ctx.add(&schema, 1).unwrap();
    ctx.add(&schema, 0).unwrap();
    assert_eq!(once, ctx.write());
    assert_eq!(once.matches("interface TestCapnpSimpleStruct ").count(), 1);
    assert_eq!(once.matches("type HexData").count(), 1);
}

#[test]
fn two_variant_union_declares_two_interfaces_and_an_alias() {
    let schema = schema();
    let mut ctx = Context::new(Default::default());
    ctx.add(&schema, 2).unwrap();
    let out = ctx.write();
    assert_eq!(out.matches("interface ").count(), 2);
    assert_eq!(out.matches("type ").count(), 1);
    assert!(out.contains(
        "type TestCapnpSimpleUnnamedUnion = TestCapnpSimpleUnnamedUnionUnset | TestCapnpSimpleUnnamedUnionVariant;"
    ));
}

#[test]
fn enum_alias_and_recursion() {
    let schema = schema();
    let mut ctx = Context::new(Default::default());
    ctx.add(&schema, 5).unwrap();
    let expected = "
type TestCapnpKind = \"foo\" | \"bar-renamed\" | \"say \\\"hi\\\" \\\\o/\" | number;

type Base64Data = string;

interface TestCapnpWithEnum {
    kind: TestCapnpKind;
    self: Array<TestCapnpWithEnum>;
    b64: Base64Data;
}
";
    assert_eq!(expected, ctx.write());
}

#[test]
fn enum_alias_without_number() {
    let schema = schema();
    let mut ctx = Context::new(Opts { on_enumerant_not_in_schema: OnEnumerantNotInSchema::Error });
    ctx.add(&schema, 5).unwrap();
    assert!(ctx.write().contains("type TestCapnpKind = \"foo\" | \"bar-renamed\" | \"say \\\"hi\\\" \\\\o/\";\n"));
}

#[test]
fn generator_errors() {
    let schema = schema();
    let mut ctx = Context::new(Default::default());
    assert_eq!(ctx.add(&schema, 6), Err(Error::NonAsciiName));
    assert_eq!(ctx.add(&schema, 60), Err(Error::BadReference));
    assert_eq!(ctx.write(), "");
}

#[test]
fn identifiers_from_display_names() {
    let id = display_name_to_ident(&"foo/bar.capnp:Some_struct.inner9x".chars().collect()).unwrap();
    assert_eq!(id.iter().collect::<String>(), "FooBarCapnpSomeStructInner9x");
    assert_eq!(display_name_to_ident(&"\u{e9}t\u{e9}".chars().collect()), None);
    assert_eq!(display_name_to_ident(&"".chars().collect()).unwrap().len(), 0);
}

#[test]
fn type_text_rendering() {
    let t = TypeIdent::Union(vec![
        TypeIdent::Literal(s("a")),
        TypeIdent::ArrayOf(Box::new(TypeIdent::Struct(s("X")))),
        TypeIdent::Null,
    ]);
    assert_eq!(t.to_text(), "\"a\" | Array<X> | null");
    assert_eq!(t.duplicate().to_text(), "\"a\" | Array<X> | null");
    assert!(matches!(TypeIdent::for_data(DataFormat::Hex), TypeIdent::HexData));
    assert!(matches!(TypeIdent::for_data(DataFormat::Base64), TypeIdent::Base64Data));
    let mut out = Vec::new();
    Item::Alias(TypeIdent::Enum(s("E")), TypeIdent::Number).write_to(&mut out);
    assert_eq!(out.iter().collect::<String>(), "\ntype E = number;\n");
}

#[test]
fn discriminator_wraps_variant_member() {
    let schema = schema();
    let mut ctx = Context::new(Default::default());
    ctx.add(&schema, 7).unwrap();
    let expected = "
interface TestCapnpDiscriminatedFirst {
    id: number;
    Discriminated: { first: string };
}

interface TestCapnpDiscriminatedSecond {
    id: number;
    Discriminated: { second: boolean };
}

type TestCapnpDiscriminated = TestCapnpDiscriminatedFirst | TestCapnpDiscriminatedSecond;
";
    assert_eq!(expected, ctx.write());
}

#[test]
fn reachable_non_ascii_name_fails() {
    let schema = schema();
    let mut ctx = Context::new(Default::default());
    assert_eq!(ctx.add(&schema, 8), Err(Error::NonAsciiName));
}

#[test]
fn variant_identifier_clash_is_refused() {
    let schema = schema();
    let mut ctx = Context::new(Default::default());
    assert_eq!(ctx.add(&schema, 9), Err(Error::DuplicateIdentifier));
    assert_eq!(ctx.write().matches("interface ASG ").count(), 1);
}
