//! Type declarations describing the JSON that the serializer writes and the
//! deserializer reads, as TypeScript source text.
use vstd::prelude::*;

use crate::annots::{
    data_format, discriminator_of, field_name, has_flatten, read_annots, read_discriminator,
    resolved_name, enumerant_value,
};
use crate::error::Error;
use crate::schema::{
    code_order, code_sorted, pick, DataFormat, EnumSchema, Enumerant, FieldSchema, SchemaSet,
    StructSchema, TypeSchema,
};
use crate::serialize::{OnEnumerantNotInSchema, Opts};
use crate::text::{
    all_ascii, append_capitalized, append_escaped, append_str, escaped, capitalized, chars_of, display_name_to_ident, ident_of,
    string_of,
};

verus! {

/// A TypeScript type expression.
#[derive(Debug)]
pub enum TypeIdent {
    Null,
    Bool,
    Number,
    String,
    /// A string literal type; its text is written with `"` and `\` escaped.
    Literal(String),
    Base64Data,
    HexData,
    Enum(String),
    Struct(String),
    Union(Vec<TypeIdent>),
    ArrayOf(Box<TypeIdent>),
    /// An object type of one member: `{ key: Type }`.
    Wrapped(String, Box<TypeIdent>),
}

/// `names` joined by ` | `.
pub open spec fn join_bar(names: Seq<Seq<char>>) -> Seq<char>
    decreases names.len(),
{
    if names.len() == 0 {
        Seq::empty()
    } else if names.len() == 1 {
        names[0]
    } else {
        join_bar(names.drop_last()) + " | "@ + names.last()
    }
}

impl TypeIdent {
    /// The TypeScript text of this type.
    pub open spec fn text(self) -> Seq<char>
        decreases self, 0int,
    {
        match self {
            TypeIdent::Null => "null"@,
            TypeIdent::Bool => "boolean"@,
            TypeIdent::Number => "number"@,
            TypeIdent::String => "string"@,
            TypeIdent::Literal(s) => "\""@ + escaped(s@) + "\""@,
            TypeIdent::Base64Data => "Base64Data"@,
            TypeIdent::HexData => "HexData"@,
            TypeIdent::Enum(n) => n@,
            TypeIdent::Struct(n) => n@,
            TypeIdent::Union(vs) => join_bar(TypeIdent::texts(vs@, vs@.len() as int)),
            TypeIdent::ArrayOf(e) => "Array<"@ + e.text() + ">"@,
            TypeIdent::Wrapped(k, t) => "{ "@ + k@ + ": "@ + t.text() + " }"@,
        }
    }

    /// The texts of the first `n` types of `vs`.
    pub open spec fn texts(vs: Seq<TypeIdent>, n: int) -> Seq<Seq<char>>
        decreases vs, n,
    {
        if n <= 0 || n > vs.len() {
            Seq::empty()
        } else {
            TypeIdent::texts(vs, n - 1).push(vs[n - 1].text())
        }
    }

    /// A copy of this type.
    pub fn duplicate(&self) -> (r: TypeIdent)
        ensures
            r.text() == self.text(),
        decreases self,
    {
        match self {
            TypeIdent::Null => TypeIdent::Null,
            TypeIdent::Bool => TypeIdent::Bool,
            TypeIdent::Number => TypeIdent::Number,
            TypeIdent::String => TypeIdent::String,
            TypeIdent::Literal(s) => TypeIdent::Literal(s.clone()),
            TypeIdent::Base64Data => TypeIdent::Base64Data,
            TypeIdent::HexData => TypeIdent::HexData,
            TypeIdent::Enum(n) => TypeIdent::Enum(n.clone()),
            TypeIdent::Struct(n) => TypeIdent::Struct(n.clone()),
            TypeIdent::Union(vs) => {
                let mut out: Vec<TypeIdent> = Vec::new();
                let mut i: usize = 0;
                while i < vs.len()
                    invariant
                        i <= vs@.len(),
                        out@.len() == i,
                        *self == TypeIdent::Union(*vs),
                        forall|k: int| 0 <= k < i ==> (#[trigger] out@[k]).text() == vs@[k].text(),
                    decreases vs@.len() - i,
                {
                    proof {
                        assert(decreases_to!(*self => self->Union_0));
                        vstd::std_specs::vec::axiom_vec_index_decreases(*vs, i as int);
                    }
                    out.push(vs[i].duplicate());
                    i = i + 1;
                }
                proof {
                    TypeIdent::lemma_texts_agree(out@, vs@, vs@.len() as int);
                }
                TypeIdent::Union(out)
            },
            TypeIdent::ArrayOf(e) => TypeIdent::ArrayOf(Box::new(e.duplicate())),
            TypeIdent::Wrapped(k, t) => TypeIdent::Wrapped(k.clone(), Box::new(t.duplicate())),
        }
    }

    pub proof fn lemma_texts_agree(a: Seq<TypeIdent>, b: Seq<TypeIdent>, n: int)
        requires
            0 <= n <= a.len(),
            n <= b.len(),
            forall|k: int| 0 <= k < n ==> (#[trigger] a[k]).text() == b[k].text(),
        ensures
            TypeIdent::texts(a, n) == TypeIdent::texts(b, n),
        decreases n,
    {
        if n > 0 {
            TypeIdent::lemma_texts_agree(a, b, n - 1);
        }
    }

    /// The named string type for data in `format`.
    pub fn for_data(format: DataFormat) -> (r: TypeIdent)
        ensures
            r == match format {
                DataFormat::Hex => TypeIdent::HexData,
                DataFormat::Base64 => TypeIdent::Base64Data,
            },
    {
        match format {
            DataFormat::Hex => TypeIdent::HexData,
            DataFormat::Base64 => TypeIdent::Base64Data,
        }
    }

    /// The identifier of a schema display name: each alphanumeric run in
    /// upper camel case, every other character dropped.  A name that is not
    /// ASCII is refused.
    pub fn capnp_display_name_to_ident(name: &String) -> (r: Result<String, Error>)
        ensures
            r is Ok <==> all_ascii(name@),
            r is Err ==> r == Err::<String, Error>(Error::NonAsciiName),
            r matches Ok(id) ==> id@ == ident_of(name@),
    {
        let cs = chars_of(name.as_str());
        match display_name_to_ident(&cs) {
            Some(id) => Ok(string_of(&id)),
            None => Err(Error::NonAsciiName),
        }
    }

    /// The type that names struct `schema`.
    pub fn from_struct(schema: &StructSchema) -> (r: Result<TypeIdent, Error>)
        ensures
            r is Ok <==> all_ascii(schema.display_name@),
            r is Err ==> r == Err::<TypeIdent, Error>(Error::NonAsciiName),
            r matches Ok(t) ==> t is Struct && t.text() == ident_of(schema.display_name@),
    {
        match TypeIdent::capnp_display_name_to_ident(&schema.display_name) {
            Ok(id) => Ok(TypeIdent::Struct(id)),
            Err(e) => Err(e),
        }
    }

    /// The type that names the interface of union member `variant` of
    /// struct `schema`: the struct's identifier, then the member's name with
    /// its first letter in upper case.
    pub fn from_union_variant(schema: &StructSchema, variant: &FieldSchema) -> (r: Result<
        TypeIdent,
        Error,
    >)
        ensures
            r is Ok <==> all_ascii(schema.display_name@),
            r is Err ==> r == Err::<TypeIdent, Error>(Error::NonAsciiName),
            r matches Ok(t) ==> t is Struct && t.text() == ident_of(schema.display_name@)
                + capitalized(variant.name@),
    {
        match TypeIdent::capnp_display_name_to_ident(&schema.display_name) {
            Ok(base) => {
                let mut out = chars_of(base.as_str());
                append_capitalized(&mut out, variant.name.as_str());
                Ok(TypeIdent::Struct(string_of(&out)))
            },
            Err(e) => Err(e),
        }
    }

    /// The type that names enum `schema`.
    pub fn from_enum(schema: &EnumSchema) -> (r: Result<TypeIdent, Error>)
        ensures
            r is Ok <==> all_ascii(schema.display_name@),
            r is Err ==> r == Err::<TypeIdent, Error>(Error::NonAsciiName),
            r matches Ok(t) ==> t is Enum && t.text() == ident_of(schema.display_name@),
    {
        match TypeIdent::capnp_display_name_to_ident(&schema.display_name) {
            Ok(id) => Ok(TypeIdent::Enum(id)),
            Err(e) => Err(e),
        }
    }

    /// The text of this type as a `String`.
    pub fn to_text(&self) -> (r: String)
        ensures
            r@ == self.text(),
    {
        let mut out: Vec<char> = Vec::new();
        self.render(&mut out);
        string_of(&out)
    }

    /// Appends the text of this type to `out`.
    pub fn render(&self, out: &mut Vec<char>)
        ensures
            final(out)@ == old(out)@ + self.text(),
        decreases self,
    {
        match self {
            TypeIdent::Null => append_str(out, "null"),
            TypeIdent::Bool => append_str(out, "boolean"),
            TypeIdent::Number => append_str(out, "number"),
            TypeIdent::String => append_str(out, "string"),
            TypeIdent::Literal(s) => {
                append_str(out, "\"");
                append_escaped(out, s.as_str());
                append_str(out, "\"");
            },
            TypeIdent::Base64Data => append_str(out, "Base64Data"),
            TypeIdent::HexData => append_str(out, "HexData"),
            TypeIdent::Enum(n) => append_str(out, n.as_str()),
            TypeIdent::Struct(n) => append_str(out, n.as_str()),
            TypeIdent::Union(vs) => {
                let ghost start = out@;
                let mut i: usize = 0;
                while i < vs.len()
                    invariant
                        i <= vs@.len(),
                        *self == TypeIdent::Union(*vs),
                        out@ == start + join_bar(TypeIdent::texts(vs@, i as int)),
                    decreases vs@.len() - i,
                {
                    if i > 0 {
                        append_str(out, " | ");
                    }
                    proof {
                        assert(decreases_to!(*self => self->Union_0));
                        vstd::std_specs::vec::axiom_vec_index_decreases(*vs, i as int);
                        assert(decreases_to!(*self => vs[i as int]));
                    }
                    vs[i].render(out);
                    i = i + 1;
                    assert(TypeIdent::texts(vs@, i as int).drop_last() == TypeIdent::texts(
                        vs@,
                        i - 1,
                    ));
                }
            },
            TypeIdent::ArrayOf(e) => {
                append_str(out, "Array<");
                e.render(out);
                append_str(out, ">");
            },
            TypeIdent::Wrapped(k, t) => {
                append_str(out, "{ ");
                append_str(out, k.as_str());
                append_str(out, ": ");
                t.render(out);
                append_str(out, " }");
            },
        }
    }
}

/// The TypeScript type of `ty`, or `None` where the type has no JSON form;
/// `fmt` is the data format annotated on the field that holds it.
pub open spec fn type_text(s: SchemaSet, ty: TypeSchema, fmt: Option<DataFormat>) -> Option<
    Seq<char>,
>
    decreases ty,
{
    match ty {
        TypeSchema::Void => Some("null"@),
        TypeSchema::Bool => Some("boolean"@),
        TypeSchema::Text => Some("string"@),
        TypeSchema::Data => match fmt {
            Some(DataFormat::Hex) => Some("HexData"@),
            Some(DataFormat::Base64) => Some("Base64Data"@),
            None => None,
        },
        TypeSchema::Struct(i) => Some(struct_ident(s, i as int)),
        TypeSchema::Enum(i) => Some(ident_of(s.enums@[i as int].display_name@)),
        TypeSchema::List(e) => match type_text(s, *e, fmt) {
            Some(t) => Some("Array<"@ + t + ">"@),
            None => None,
        },
        TypeSchema::AnyPointer => None,
        TypeSchema::Capability => None,
        _ => Some("number"@),
    }
}

pub open spec fn struct_ident(s: SchemaSet, j: int) -> Seq<char> {
    ident_of(s.structs@[j].display_name@)
}

pub open spec fn field_type_text(s: SchemaSet, f: FieldSchema) -> Option<Seq<char>> {
    type_text(s, f.ty, data_format(f.annotations@))
}

/// The interface members of `fs`, skipping fields without a JSON form.
pub open spec fn entries(s: SchemaSet, fs: Seq<FieldSchema>) -> Seq<(Seq<char>, Seq<char>)>
    decreases fs.len(),
{
    if fs.len() == 0 {
        Seq::empty()
    } else {
        let e = entries(s, fs.drop_last());
        match field_type_text(s, fs.last()) {
            Some(t) => e.push((resolved_name(fs.last().name@, fs.last().annotations@), t)),
            None => e,
        }
    }
}

/// The JSON key of a union variant.
pub open spec fn variant_key(f: FieldSchema, value_name: Option<Seq<char>>) -> Seq<char> {
    match value_name {
        Some(v) => v,
        None => resolved_name(f.name@, f.annotations@),
    }
}

/// One interface per union variant with a JSON form: the shared members,
/// then the variant's own.
pub open spec fn variant_decls(
    s: SchemaSet,
    base_ident: Seq<char>,
    us: Seq<FieldSchema>,
    base: Seq<(Seq<char>, Seq<char>)>,
    disc: (Option<Seq<char>>, Option<Seq<char>>),
) -> Seq<ItemView>
    decreases us.len(),
{
    if us.len() == 0 {
        Seq::empty()
    } else {
        let d = variant_decls(s, base_ident, us.drop_last(), base, disc);
        match field_type_text(s, us.last()) {
            Some(t) => d.push(
                ItemView::Interface(
                    base_ident + capitalized(us.last().name@),
                    base.push(variant_entry(us.last(), disc, t)),
                ),
            ),
            None => d,
        }
    }
}

/// The member that union member `f` of type text `t` adds to its variant
/// interface: under its key, or, where the struct has a discriminator, an
/// object holding it under the discriminator's name.
pub open spec fn variant_entry(
    f: FieldSchema,
    disc: (Option<Seq<char>>, Option<Seq<char>>),
    t: Seq<char>,
) -> (Seq<char>, Seq<char>) {
    let key = variant_key(f, disc.1);
    match disc.0 {
        Some(w) => (w, "{ "@ + key + ": "@ + t + " }"@),
        None => (key, t),
    }
}

/// The identifiers of the interfaces of `variant_decls`.
pub open spec fn variant_names(s: SchemaSet, base_ident: Seq<char>, us: Seq<FieldSchema>) -> Seq<
    Seq<char>,
>
    decreases us.len(),
{
    if us.len() == 0 {
        Seq::empty()
    } else {
        let d = variant_names(s, base_ident, us.drop_last());
        match field_type_text(s, us.last()) {
            Some(t) => d.push(base_ident + capitalized(us.last().name@)),
            None => d,
        }
    }
}

/// The declarations that struct `j` itself contributes: one interface, or,
/// for a struct with a union, one interface per variant and an alias naming
/// their union.
pub open spec fn struct_decls(s: SchemaSet, j: int) -> Seq<ItemView> {
    let st = s.structs@[j];
    let base = entries(s, code_sorted(st.fields@));
    let id = struct_ident(s, j);
    if st.union_fields@.len() == 0 {
        seq![ItemView::Interface(id, base)]
    } else {
        variant_decls(s, id, st.union_fields@, base, discriminator_of(st)).push(
            ItemView::Alias(id, join_bar(variant_names(s, id, st.union_fields@))),
        )
    }
}

/// The string literal types of the enumerants.
pub open spec fn enum_literals(es: Seq<Enumerant>) -> Seq<Seq<char>>
    decreases es.len(),
{
    if es.len() == 0 {
        Seq::empty()
    } else {
        enum_literals(es.drop_last()).push(
            "\""@ + escaped(resolved_name(es.last().name@, es.last().annotations@)) + "\""@,
        )
    }
}

/// The declaration of enum `k`: an alias of the union of its enumerants'
/// names, with `number` added where unknown ordinals are written as numbers.
pub open spec fn enum_decl(s: SchemaSet, k: int, opts: Opts) -> ItemView {
    let e = s.enums@[k];
    let lits = enum_literals(e.enumerants@);
    ItemView::Alias(
        ident_of(e.display_name@),
        join_bar(
            if opts.on_enumerant_not_in_schema == OnEnumerantNotInSchema::UseNumber {
                lits.push("number"@)
            } else {
                lits
            },
        ),
    )
}

pub open spec fn fields_clean(fs: Seq<FieldSchema>) -> bool {
    forall|k: int| 0 <= k < fs.len() ==> !has_flatten((#[trigger] fs[k]).annotations@)
}

/// A schema set that every generation succeeds on: its references are in
/// bounds, its display names are ASCII and nothing in it is flattened.
pub open spec fn clean(s: SchemaSet) -> bool {
    &&& s.wf()
    &&& forall|i: int|
        0 <= i < s.structs@.len() ==> {
            &&& all_ascii((#[trigger] s.structs@[i]).display_name@)
            &&& fields_clean(s.structs@[i].fields@)
            &&& fields_clean(s.structs@[i].union_fields@)
        }
    &&& forall|k: int|
        0 <= k < s.enums@.len() ==> {
            &&& all_ascii((#[trigger] s.enums@[k]).display_name@)
            &&& forall|m: int|
                0 <= m < s.enums@[k].enumerants@.len() ==> !has_flatten(
                    (#[trigger] s.enums@[k].enumerants@[m]).annotations@,
                )
        }
}

pub open spec fn all_struct_idents(s: SchemaSet) -> Seq<Seq<char>> {
    Seq::new(s.structs@.len(), |i: int| struct_ident(s, i))
}

/// How many of `names` are not in `visited`.
pub open spec fn count_missing(names: Seq<Seq<char>>, visited: Seq<Seq<char>>) -> nat
    decreases names.len(),
{
    if names.len() == 0 {
        0
    } else {
        count_missing(names.drop_last(), visited) + if visited.contains(names.last()) {
            0nat
        } else {
            1nat
        }
    }
}

proof fn lemma_count_missing_mono(names: Seq<Seq<char>>, v1: Seq<Seq<char>>, v2: Seq<Seq<char>>)
    requires
        forall|x: Seq<char>| v1.contains(x) ==> v2.contains(x),
    ensures
        count_missing(names, v2) <= count_missing(names, v1),
    decreases names.len(),
{
    if names.len() > 0 {
        lemma_count_missing_mono(names.drop_last(), v1, v2);
    }
}

proof fn lemma_count_missing_strict(
    names: Seq<Seq<char>>,
    v1: Seq<Seq<char>>,
    v2: Seq<Seq<char>>,
    j: int,
)
    requires
        forall|x: Seq<char>| v1.contains(x) ==> v2.contains(x),
        0 <= j < names.len(),
        !v1.contains(names[j]),
        v2.contains(names[j]),
    ensures
        count_missing(names, v2) < count_missing(names, v1),
    decreases names.len(),
{
    if j == names.len() - 1 {
        lemma_count_missing_mono(names.drop_last(), v1, v2);
    } else {
        lemma_count_missing_strict(names.drop_last(), v1, v2, j);
    }
}

/// `c1` holds the same declarations, identifiers and options as `c0`.
pub open spec fn same_session(c0: Context, c1: Context) -> bool {
    &&& c1.decls() == c0.decls()
    &&& c1.visited_names() == c0.visited_names()
    &&& c1.options() == c0.options()
}

/// The name of the string type for data in format `f`.
pub open spec fn data_name(f: DataFormat) -> Seq<char> {
    match f {
        DataFormat::Hex => "HexData"@,
        DataFormat::Base64 => "Base64Data"@,
    }
}

/// Declaring the data type for `f`: its alias to `string` is added the first
/// time only.
pub open spec fn data_post(c0: Context, c1: Context, f: DataFormat) -> bool {
    if c0.visited_names().contains(data_name(f)) {
        same_session(c0, c1)
    } else {
        &&& c1.visited_names() == c0.visited_names().push(data_name(f))
        &&& c1.decls() == c0.decls().push(ItemView::Alias(data_name(f), "string"@))
        &&& c1.options() == c0.options()
    }
}

/// Declaring enum `k` of `s`: refused on a non-ASCII name, nothing done when
/// already declared, else its alias is added after its name is marked.
pub open spec fn enum_post(c0: Context, c1: Context, s: SchemaSet, k: int, r: Result<(), Error>) -> bool {
    let e = s.enums@[k];
    let id = ident_of(e.display_name@);
    if !all_ascii(e.display_name@) {
        r == Err::<(), Error>(Error::NonAsciiName) && same_session(c0, c1)
    } else if c0.visited_names().contains(id) {
        r is Ok && same_session(c0, c1)
    } else {
        &&& c1.visited_names() == c0.visited_names().push(id)
        &&& c1.options() == c0.options()
        &&& r is Ok ==> c1.decls() == c0.decls().push(enum_decl(s, k, c0.options()))
        &&& r is Err ==> r == Err::<(), Error>(Error::FlattenUnsupported) && c1.decls()
            == c0.decls()
        &&& (forall|m: int|
            0 <= m < e.enumerants@.len() ==> !has_flatten(
                (#[trigger] e.enumerants@[m]).annotations@,
            )) ==> r is Ok
    }
}

/// Declaring struct `j` of `s`: refused on a non-ASCII name, nothing done
/// when already declared, else its name is marked and its own declarations
/// end the list, after those of the types it refers to.
pub open spec fn struct_post(c0: Context, c1: Context, s: SchemaSet, j: int, r: Result<(), Error>) -> bool {
    let st = s.structs@[j];
    let id = struct_ident(s, j);
    if !all_ascii(st.display_name@) {
        r == Err::<(), Error>(Error::NonAsciiName) && same_session(c0, c1)
    } else if c0.visited_names().contains(id) {
        r is Ok && same_session(c0, c1)
    } else {
        &&& c1.extends(c0)
        &&& c1.visited_names().contains(id)
        &&& r is Ok ==> c1.ends_with(struct_decls(s, j), c0.decls().len() as int)
    }
}

pub open spec fn unit_res(r: Result<Option<Seq<char>>, Error>) -> Result<(), Error> {
    match r {
        Ok(_) => Ok(()),
        Err(e) => Err(e),
    }
}

/// The type text and session effect of visiting type `ty`, where `fmt` is
/// the data format of the field holding it.
pub open spec fn type_post(
    c0: Context,
    c1: Context,
    s: SchemaSet,
    ty: TypeSchema,
    fmt: Option<DataFormat>,
    r: Result<Option<Seq<char>>, Error>,
) -> bool
    decreases ty,
{
    match ty {
        TypeSchema::Data => match fmt {
            Some(f) => r == Ok::<Option<Seq<char>>, Error>(Some(data_name(f))) && data_post(
                c0,
                c1,
                f,
            ),
            None => r == Ok::<Option<Seq<char>>, Error>(None) && same_session(c0, c1),
        },
        TypeSchema::Struct(i) => if i >= s.structs@.len() {
            r == Err::<Option<Seq<char>>, Error>(Error::BadReference) && same_session(c0, c1)
        } else {
            &&& struct_post(c0, c1, s, i as int, unit_res(r))
            &&& r is Ok ==> r == Ok::<Option<Seq<char>>, Error>(Some(struct_ident(s, i as int)))
        },
        TypeSchema::Enum(k) => if k >= s.enums@.len() {
            r == Err::<Option<Seq<char>>, Error>(Error::BadReference) && same_session(c0, c1)
        } else {
            &&& enum_post(c0, c1, s, k as int, unit_res(r))
            &&& r is Ok ==> r == Ok::<Option<Seq<char>>, Error>(
                Some(ident_of(s.enums@[k as int].display_name@)),
            )
        },
        TypeSchema::List(e) => type_post(c0, c1, s, *e, fmt, element_res(r)) && r == array_res(
            element_res(r),
        ),
        _ => r == Ok::<Option<Seq<char>>, Error>(type_text(s, ty, fmt)) && same_session(c0, c1),
    }
}

/// The result for a list type, from the result for its element type.
pub open spec fn array_res(r: Result<Option<Seq<char>>, Error>) -> Result<Option<Seq<char>>, Error> {
    match r {
        Ok(Some(t)) => Ok(Some("Array<"@ + t + ">"@)),
        Ok(None) => Ok(None),
        Err(x) => Err(x),
    }
}

/// The result for the element type, from the result for a list type.
pub open spec fn element_res(r: Result<Option<Seq<char>>, Error>) -> Result<
    Option<Seq<char>>,
    Error,
> {
    match r {
        Ok(Some(t)) => Ok(Some(t.subrange(6, t.len() - 1))),
        Ok(None) => Ok(None),
        Err(x) => Err(x),
    }
}

pub open spec fn text_res(r: Result<Option<TypeIdent>, Error>) -> Result<Option<Seq<char>>, Error> {
    match r {
        Ok(o) => Ok(opt_text(o)),
        Err(e) => Err(e),
    }
}

/// The declarations and declared identifiers of a session.
pub struct Session {
    pub decls: Seq<ItemView>,
    pub visited: Seq<Seq<char>>,
}

/// Declaring the data type for `f` in session `c`.
pub open spec fn gen_data(c: Session, f: DataFormat) -> Session {
    if c.visited.contains(data_name(f)) {
        c
    } else {
        Session {
            decls: c.decls.push(ItemView::Alias(data_name(f), "string"@)),
            visited: c.visited.push(data_name(f)),
        }
    }
}

/// Declaring enum `k` of `s` in session `c`.
pub open spec fn gen_enum(c: Session, s: SchemaSet, opts: Opts, k: int) -> (Session, Result<(), Error>) {
    let e = s.enums@[k];
    let id = ident_of(e.display_name@);
    if !all_ascii(e.display_name@) {
        (c, Err(Error::NonAsciiName))
    } else if c.visited.contains(id) {
        (c, Ok(()))
    } else {
        let marked = Session { decls: c.decls, visited: c.visited.push(id) };
        if exists|m: int|
            0 <= m < e.enumerants@.len() && has_flatten(
                (#[trigger] e.enumerants@[m]).annotations@,
            ) {
            (marked, Err(Error::FlattenUnsupported))
        } else {
            (Session { decls: c.decls.push(enum_decl(s, k, opts)), visited: marked.visited }, Ok(()))
        }
    }
}

/// Visiting type `ty` (held by a field with data format `fmt`) in session
/// `c`: the session after, and the type's text or the error.  `fuel` bounds
/// the nesting of struct declarations; any value above the number of
/// undeclared structs suffices.
pub open spec fn gen_type(
    fuel: nat,
    c: Session,
    s: SchemaSet,
    opts: Opts,
    ty: TypeSchema,
    fmt: Option<DataFormat>,
) -> (Session, Result<Option<Seq<char>>, Error>)
    decreases fuel, 1nat, ty.depth(),
{
    match ty {
        TypeSchema::Data => match fmt {
            Some(f) => (gen_data(c, f), Ok(Some(data_name(f)))),
            None => (c, Ok(None)),
        },
        TypeSchema::Struct(i) => if i >= s.structs@.len() {
            (c, Err(Error::BadReference))
        } else {
            let (c2, r) = gen_struct(fuel, c, s, opts, i as int);
            (
                c2,
                match r {
                    Ok(_) => Ok(Some(struct_ident(s, i as int))),
                    Err(e) => Err(e),
                },
            )
        },
        TypeSchema::Enum(k) => if k >= s.enums@.len() {
            (c, Err(Error::BadReference))
        } else {
            let (c2, r) = gen_enum(c, s, opts, k as int);
            (
                c2,
                match r {
                    Ok(_) => Ok(Some(ident_of(s.enums@[k as int].display_name@))),
                    Err(e) => Err(e),
                },
            )
        },
        TypeSchema::List(e) => {
            let (c2, r) = gen_type(fuel, c, s, opts, *e, fmt);
            (c2, array_res(r))
        },
        _ => (c, Ok(type_text(s, ty, fmt))),
    }
}

/// Visiting the types of the first `n` fields of `fs` in order, stopping at
/// the first error.
pub open spec fn gen_fields(
    fuel: nat,
    c: Session,
    s: SchemaSet,
    opts: Opts,
    fs: Seq<FieldSchema>,
    n: int,
) -> (Session, Result<(), Error>)
    decreases fuel, 2nat, n,
{
    if n <= 0 || n > fs.len() {
        (c, Ok(()))
    } else {
        let (c1, r1) = gen_fields(fuel, c, s, opts, fs, n - 1);
        match r1 {
            Err(e) => (c1, Err(e)),
            Ok(_) => if has_flatten(fs[n - 1].annotations@) {
                (c1, Err(Error::FlattenUnsupported))
            } else {
                let (c2, r2) = gen_type(
                    fuel,
                    c1,
                    s,
                    opts,
                    fs[n - 1].ty,
                    data_format(fs[n - 1].annotations@),
                );
                (c2, unit_res(r2))
            },
        }
    }
}

/// Declaring the variant interfaces of the first `m` union members of struct
/// `j`, each under an identifier not yet declared in the session.
pub open spec fn gen_variants(c: Session, s: SchemaSet, j: int, m: int) -> (Session, Result<(), Error>)
    decreases m,
{
    let st = s.structs@[j];
    let us = st.union_fields@;
    if m <= 0 || m > us.len() {
        (c, Ok(()))
    } else {
        let (c1, r1) = gen_variants(c, s, j, m - 1);
        match r1 {
            Err(e) => (c1, Err(e)),
            Ok(_) => match field_type_text(s, us[m - 1]) {
                None => (c1, Ok(())),
                Some(t) => {
                    let name = struct_ident(s, j) + capitalized(us[m - 1].name@);
                    if c1.visited.contains(name) {
                        (c1, Err(Error::DuplicateIdentifier))
                    } else {
                        (
                            Session {
                                decls: c1.decls.push(
                                    ItemView::Interface(
                                        name,
                                        entries(s, code_sorted(st.fields@)).push(
                                            variant_entry(us[m - 1], discriminator_of(st), t),
                                        ),
                                    ),
                                ),
                                visited: c1.visited.push(name),
                            },
                            Ok(()),
                        )
                    }
                },
            },
        }
    }
}

proof fn lemma_gen_variants_sticky(c: Session, s: SchemaSet, j: int, n: int, m: int)
    requires
        0 < n <= m <= s.structs@[j].union_fields@.len(),
        gen_variants(c, s, j, n).1 is Err,
    ensures
        gen_variants(c, s, j, m) == gen_variants(c, s, j, n),
    decreases m - n,
{
    if m > n {
        lemma_gen_variants_sticky(c, s, j, n, m - 1);
    }
}

/// Declaring struct `j` of `s` in session `c`: its name is marked, the types
/// of its fields (in code order) and then of its union members are visited,
/// and its own declarations follow.
pub open spec fn gen_struct(fuel: nat, c: Session, s: SchemaSet, opts: Opts, j: int) -> (
    Session,
    Result<(), Error>,
)
    decreases fuel, 0nat, 0nat,
{
    let st = s.structs@[j];
    let id = struct_ident(s, j);
    if fuel == 0 {
        (c, Err(Error::BadReference))
    } else if !all_ascii(st.display_name@) {
        (c, Err(Error::NonAsciiName))
    } else if c.visited.contains(id) {
        (c, Ok(()))
    } else {
        let marked = Session { decls: c.decls, visited: c.visited.push(id) };
        let fs = code_sorted(st.fields@);
        let (c2, r2) = gen_fields((fuel - 1) as nat, marked, s, opts, fs, fs.len() as int);
        match r2 {
            Err(e) => (c2, Err(e)),
            Ok(_) => {
                let us = st.union_fields@;
                let (c3, r3) = gen_fields((fuel - 1) as nat, c2, s, opts, us, us.len() as int);
                match r3 {
                    Err(e) => (c3, Err(e)),
                    Ok(_) => if us.len() == 0 {
                        (Session { decls: c3.decls + struct_decls(s, j), visited: c3.visited }, Ok(()))
                    } else {
                        let (c4, r4) = gen_variants(c3, s, j, us.len() as int);
                        match r4 {
                            Err(e) => (c4, Err(e)),
                            Ok(_) => (
                                Session {
                                    decls: c4.decls.push(
                                        ItemView::Alias(id, join_bar(variant_names(s, id, us))),
                                    ),
                                    visited: c4.visited,
                                },
                                Ok(()),
                            ),
                        }
                    },
                }
            },
        }
    }
}

/// The session after `Context::add(s, j)` on session `c0`, and its result.
pub open spec fn add_result(c0: Context, s: SchemaSet, j: int) -> (Session, Result<(), Error>) {
    if !(0 <= j < s.structs@.len()) {
        (c0.session(), Err(Error::BadReference))
    } else {
        gen_struct(
            count_missing(all_struct_idents(s), c0.visited_names()) + 1,
            c0.session(),
            s,
            c0.options(),
            j,
        )
    }
}

proof fn lemma_gen_fields_sticky(
    fuel: nat,
    c: Session,
    s: SchemaSet,
    opts: Opts,
    fs: Seq<FieldSchema>,
    n: int,
    m: int,
)
    requires
        0 < n <= m <= fs.len(),
        gen_fields(fuel, c, s, opts, fs, n).1 is Err,
    ensures
        gen_fields(fuel, c, s, opts, fs, m) == gen_fields(fuel, c, s, opts, fs, n),
    decreases m - n,
{
    if m > n {
        lemma_gen_fields_sticky(fuel, c, s, opts, fs, n, m - 1);
    }
}

/// `Data` without a data format has no declared type: visiting it succeeds
/// with no type and leaves the session as it is.
pub proof fn lemma_unformatted_data_declares_nothing(fuel: nat, c: Session, s: SchemaSet, opts: Opts)
    ensures
        gen_type(fuel, c, s, opts, TypeSchema::Data, None) == (c, Ok::<Option<Seq<char>>, Error>(
            None,
        )),
{
}

/// Declaring an enum for the first time adds one alias of the union of its
/// enumerants' quoted names, in order, followed by `number` exactly when
/// unknown ordinals are written as numbers.
pub proof fn lemma_enum_declaration(c: Session, s: SchemaSet, opts: Opts, k: int)
    requires
        0 <= k < s.enums@.len(),
        all_ascii(s.enums@[k].display_name@),
        !c.visited.contains(ident_of(s.enums@[k].display_name@)),
        forall|m: int|
            0 <= m < s.enums@[k].enumerants@.len() ==> !has_flatten(
                (#[trigger] s.enums@[k].enumerants@[m]).annotations@,
            ),
    ensures
        ({
            let id = ident_of(s.enums@[k].display_name@);
            let lits = enum_literals(s.enums@[k].enumerants@);
            gen_enum(c, s, opts, k) == (
                Session {
                    decls: c.decls.push(
                        ItemView::Alias(
                            id,
                            join_bar(
                                if opts.on_enumerant_not_in_schema
                                    == OnEnumerantNotInSchema::UseNumber {
                                    lits.push("number"@)
                                } else {
                                    lits
                                },
                            ),
                        ),
                    ),
                    visited: c.visited.push(id),
                },
                Ok::<(), Error>(()),
            )
        }),
{
}

/// The identifier a declaration declares.
pub open spec fn decl_ident(v: ItemView) -> Seq<char> {
    match v {
        ItemView::Alias(n, _) => n,
        ItemView::Interface(n, _) => n,
    }
}

/// No two declarations of `c` declare the same identifier, and every
/// declared identifier is marked in `c`.
pub open spec fn unique_decls(c: Context) -> bool {
    &&& forall|k: int|
        0 <= k < c.decls().len() ==> c.visited_names().contains(
            decl_ident(#[trigger] c.decls()[k]),
        )
    &&& forall|k1: int, k2: int|
        0 <= k1 < k2 < c.decls().len() ==> decl_ident(#[trigger] c.decls()[k1]) != decl_ident(
            #[trigger] c.decls()[k2],
        )
}

/// `c1` came from `c0` by adding declarations only, and the declarations
/// added declare distinct identifiers, none marked in `c0`, all marked in
/// `c1`.
pub open spec fn fresh_since(c0: Context, c1: Context) -> bool {
    &&& c0.decls().len() <= c1.decls().len()
    &&& forall|k: int| 0 <= k < c0.decls().len() ==> c1.decls()[k] == c0.decls()[k]
    &&& forall|x: Seq<char>|
        c0.visited_names().contains(x) ==> #[trigger] c1.visited_names().contains(x)
    &&& forall|k: int|
        c0.decls().len() <= k < c1.decls().len() ==> !c0.visited_names().contains(
            decl_ident(#[trigger] c1.decls()[k]),
        ) && c1.visited_names().contains(decl_ident(c1.decls()[k]))
    &&& forall|k1: int, k2: int|
        c0.decls().len() <= k1 < k2 < c1.decls().len() ==> decl_ident(#[trigger] c1.decls()[k1])
            != decl_ident(#[trigger] c1.decls()[k2])
}

proof fn lemma_fresh_trans(c0: Context, c1: Context, c2: Context)
    requires
        fresh_since(c0, c1),
        fresh_since(c1, c2),
    ensures
        fresh_since(c0, c2),
{
    assert forall|k1: int, k2: int|
        c0.decls().len() <= k1 < k2 < c2.decls().len() implies decl_ident(
        #[trigger] c2.decls()[k1],
    ) != decl_ident(#[trigger] c2.decls()[k2]) by {
        if k1 < c1.decls().len() && k2 >= c1.decls().len() {
            assert(c2.decls()[k1] == c1.decls()[k1]);
            assert(c1.visited_names().contains(decl_ident(c1.decls()[k1])));
        } else if k2 < c1.decls().len() {
            assert(c2.decls()[k1] == c1.decls()[k1]);
            assert(c2.decls()[k2] == c1.decls()[k2]);
        }
    }
    assert forall|k: int|
        c0.decls().len() <= k < c2.decls().len() implies !c0.visited_names().contains(
        decl_ident(#[trigger] c2.decls()[k]),
    ) && c2.visited_names().contains(decl_ident(c2.decls()[k])) by {
        if k < c1.decls().len() {
            assert(c2.decls()[k] == c1.decls()[k]);
        }
    }
}

/// Adding one declaration of an identifier not marked yet, and marking it,
/// keeps the added declarations fresh.
proof fn lemma_fresh_declare(c0: Context, c1: Context, c2: Context, v: ItemView)
    requires
        fresh_since(c0, c1),
        !c1.visited_names().contains(decl_ident(v)),
        c2.decls() == c1.decls().push(v),
        c2.visited_names() == c1.visited_names().push(decl_ident(v)),
    ensures
        fresh_since(c0, c2),
{
    let x = decl_ident(v);
    assert(c2.visited_names()[c1.visited_names().len() as int] == x);
    assert forall|y: Seq<char>| c1.visited_names().contains(y) implies #[trigger] c2.visited_names().contains(y) by {
        let q = choose|q: int| 0 <= q < c1.visited_names().len() && c1.visited_names()[q] == y;
        assert(c2.visited_names()[q] == y);
    }
    assert forall|k: int| 0 <= k < c1.decls().len() implies c2.decls()[k] == c1.decls()[k] by {}
    assert forall|k: int|
        c0.decls().len() <= k < c1.decls().len() implies decl_ident(#[trigger] c2.decls()[k]) != x by {
        assert(c1.visited_names().contains(decl_ident(c1.decls()[k])));
    }
}

/// A struct's own declaration, of the identifier it marked on entry, keeps
/// the declarations added since entry fresh.
proof fn lemma_fresh_close(entry: Context, marked: Context, c1: Context, c2: Context, v: ItemView)
    requires
        fresh_since(marked, c1),
        marked.decls() == entry.decls(),
        marked.visited_names() == entry.visited_names().push(decl_ident(v)),
        !entry.visited_names().contains(decl_ident(v)),
        c2.decls() == c1.decls().push(v),
        c2.visited_names() == c1.visited_names(),
    ensures
        fresh_since(entry, c2),
{
    let x = decl_ident(v);
    assert(marked.visited_names()[entry.visited_names().len() as int] == x);
    assert forall|y: Seq<char>| entry.visited_names().contains(y) implies #[trigger] marked.visited_names().contains(y) by {
        let q = choose|q: int| 0 <= q < entry.visited_names().len() && entry.visited_names()[q] == y;
        assert(marked.visited_names()[q] == y);
    }
    assert forall|k: int| 0 <= k < c1.decls().len() implies c2.decls()[k] == c1.decls()[k] by {}
}

/// A session with unique declarations keeps them unique when fresh
/// declarations are added.
pub proof fn lemma_fresh_keeps_unique(c0: Context, c1: Context)
    requires
        unique_decls(c0),
        fresh_since(c0, c1),
    ensures
        unique_decls(c1),
{
    assert forall|k1: int, k2: int|
        0 <= k1 < k2 < c1.decls().len() implies decl_ident(#[trigger] c1.decls()[k1]) != decl_ident(
        #[trigger] c1.decls()[k2],
    ) by {
        if k2 < c0.decls().len() {
            assert(c1.decls()[k1] == c0.decls()[k1]);
            assert(c1.decls()[k2] == c0.decls()[k2]);
        } else if k1 < c0.decls().len() {
            assert(c1.decls()[k1] == c0.decls()[k1]);
            assert(c0.visited_names().contains(decl_ident(c0.decls()[k1])));
        }
    }
    assert forall|k: int| 0 <= k < c1.decls().len() implies c1.visited_names().contains(
        decl_ident(#[trigger] c1.decls()[k]),
    ) by {
        if k < c0.decls().len() {
            assert(c1.decls()[k] == c0.decls()[k]);
            assert(c0.visited_names().contains(decl_ident(c0.decls()[k])));
        }
    }
}

/// What `Context::add` promises of the session before (`c0`) and after
/// (`c1`) it declares struct `j` of `s`, returning `r`.
pub open spec fn added(c0: Context, c1: Context, s: SchemaSet, j: int, r: Result<(), Error>) -> bool {
    let id = struct_ident(s, j);
    &&& c1.extends(c0)
    &&& !(0 <= j < s.structs@.len()) ==> r == Err::<(), Error>(Error::BadReference)
    &&& r is Ok ==> {
        &&& 0 <= j < s.structs@.len()
        &&& c1.visited_names().contains(id)
        &&& c0.visited_names().contains(id) ==> c1.decls() == c0.decls()
        &&& !c0.visited_names().contains(id) ==> c1.ends_with(
            struct_decls(s, j),
            c0.decls().len() as int,
        )
    }
    &&& 0 <= j < s.structs@.len() ==> struct_post(c0, c1, s, j, r)
}

/// Adding the same struct a second time in one session declares nothing
/// more.
pub proof fn lemma_add_twice_declares_once(
    c0: Context,
    c1: Context,
    c2: Context,
    s: SchemaSet,
    j: int,
)
    requires
        added(c0, c1, s, j, Ok(())),
        added(c1, c2, s, j, Ok(())),
    ensures
        c2.decls() == c1.decls(),
{
}

/// Once a struct has been added, adding it again succeeds and leaves the
/// session as it is, whatever the schema set holds.
pub proof fn lemma_readd_changes_nothing(c0: Context, c1: Context, s: SchemaSet, j: int)
    requires
        added(c0, c1, s, j, Ok(())),
    ensures
        add_result(c1, s, j) == (c1.session(), Ok::<(), Error>(())),
{
}

/// A struct whose union has two variants, both with a JSON form, declares
/// exactly one interface per variant followed by one alias naming their
/// union.
pub proof fn lemma_two_variant_union_decls(c0: Context, c1: Context, s: SchemaSet, j: int)
    requires
        added(c0, c1, s, j, Ok(())),
        !c0.visited_names().contains(struct_ident(s, j)),
        s.structs@[j].union_fields@.len() == 2,
        field_type_text(s, s.structs@[j].union_fields@[0]) is Some,
        field_type_text(s, s.structs@[j].union_fields@[1]) is Some,
    ensures
        ({
            let d = struct_decls(s, j);
            &&& d.len() == 3
            &&& d[0] is Interface
            &&& d[1] is Interface
            &&& d[2] is Alias
            &&& c1.decls().len() >= c0.decls().len() + 3
            &&& c1.decls().skip(c1.decls().len() - 3) == d
        }),
{
    let st = s.structs@[j];
    let us = st.union_fields@;
    let id = struct_ident(s, j);
    let base = entries(s, code_sorted(st.fields@));
    let vn = discriminator_of(st);
    assert(us.drop_last().drop_last().len() == 0);
    assert(us.drop_last().last() == us[0]);
    assert(us.last() == us[1]);
    assert(variant_decls(s, id, us.drop_last().drop_last(), base, vn).len() == 0);
    assert(variant_decls(s, id, us.drop_last(), base, vn).len() == 1);
    assert(variant_decls(s, id, us, base, vn).len() == 2);
}

/// One emitted declaration.
#[derive(Debug)]
pub enum Item {
    /// `type Name = Type;`
    Alias(TypeIdent, TypeIdent),
    /// `interface Name { key: Type; ... }`
    Interface { ident: TypeIdent, fields: Vec<(String, TypeIdent)> },
}

/// A declaration with every type written out as text.
pub enum ItemView {
    Alias(Seq<char>, Seq<char>),
    Interface(Seq<char>, Seq<(Seq<char>, Seq<char>)>),
}

pub open spec fn entry_view(p: (String, TypeIdent)) -> (Seq<char>, Seq<char>) {
    (p.0@, p.1.text())
}

pub open spec fn entries_view(v: Seq<(String, TypeIdent)>) -> Seq<(Seq<char>, Seq<char>)> {
    v.map_values(|p: (String, TypeIdent)| entry_view(p))
}

pub open spec fn opt_text(o: Option<TypeIdent>) -> Option<Seq<char>> {
    match o {
        Some(t) => Some(t.text()),
        None => None,
    }
}

fn dup_entries(v: &Vec<(String, TypeIdent)>) -> (r: Vec<(String, TypeIdent)>)
    ensures
        entries_view(r@) == entries_view(v@),
{
    let mut out: Vec<(String, TypeIdent)> = Vec::new();
    let mut i: usize = 0;
    while i < v.len()
        invariant
            i <= v@.len(),
            entries_view(out@) == entries_view(v@.take(i as int)),
        decreases v@.len() - i,
    {
        let ghost prev = out@;
        let e = (v[i].0.clone(), v[i].1.duplicate());
        assert(entry_view(e) == entry_view(v@[i as int]));
        out.push(e);
        assert(entries_view(out@) =~= entries_view(prev).push(entry_view(e)));
        assert(v@.take(i + 1) =~= v@.take(i as int).push(v@[i as int]));
        assert(entries_view(v@.take(i + 1)) =~= entries_view(v@.take(i as int)).push(
            entry_view(v@[i as int]),
        ));
        i = i + 1;
    }
    assert(v@.take(v@.len() as int) == v@);
    out
}

/// The member lines of an interface body.
pub open spec fn fields_text(fs: Seq<(Seq<char>, Seq<char>)>) -> Seq<char>
    decreases fs.len(),
{
    if fs.len() == 0 {
        Seq::empty()
    } else {
        fields_text(fs.drop_last()) + "\n    "@ + fs.last().0 + ": "@ + fs.last().1 + ";"@
    }
}

/// The text of one declaration, preceded by a line break and followed by a
/// blank line.
pub open spec fn item_text(v: ItemView) -> Seq<char> {
    match v {
        ItemView::Alias(n, t) => "\ntype "@ + n + " = "@ + t + ";\n"@,
        ItemView::Interface(n, fs) => "\ninterface "@ + n + " {"@ + fields_text(fs) + "\n}\n"@,
    }
}

/// The text of a sequence of declarations, in order.
pub open spec fn items_text(vs: Seq<ItemView>) -> Seq<char>
    decreases vs.len(),
{
    if vs.len() == 0 {
        Seq::empty()
    } else {
        items_text(vs.drop_last()) + item_text(vs.last())
    }
}

impl Item {
    pub open spec fn view(self) -> ItemView {
        match self {
            Item::Alias(n, t) => ItemView::Alias(n.text(), t.text()),
            Item::Interface { ident, fields } => ItemView::Interface(
                ident.text(),
                fields@.map_values(|p: (String, TypeIdent)| entry_view(p)),
            ),
        }
    }

    /// Appends the text of this declaration to `out`.
    pub fn write_to(&self, out: &mut Vec<char>)
        ensures
            final(out)@ == old(out)@ + item_text(self.view()),
    {
        match self {
            Item::Interface { ident, fields } => {
                append_str(out, "\ninterface ");
                ident.render(out);
                append_str(out, " {");
                let ghost start = out@;
                let ghost fs = fields@.map_values(|p: (String, TypeIdent)| entry_view(p));
                let mut i: usize = 0;
                while i < fields.len()
                    invariant
                        i <= fields@.len(),
                        fs == fields@.map_values(|p: (String, TypeIdent)| entry_view(p)),
                        out@ == start + fields_text(fs.take(i as int)),
                    decreases fields@.len() - i,
                {
                    append_str(out, "\n    ");
                    append_str(out, fields[i].0.as_str());
                    append_str(out, ": ");
                    fields[i].1.render(out);
                    append_str(out, ";");
                    i = i + 1;
                    assert(fs.take(i as int).drop_last() == fs.take(i - 1));
                }
                assert(fs.take(fields@.len() as int) == fs);
                append_str(out, "\n}\n");
            },
            Item::Alias(name, value) => {
                append_str(out, "\ntype ");
                name.render(out);
                append_str(out, " = ");
                value.render(out);
                append_str(out, ";\n");
            },
        }
    }
}

/// One session of declaration generation.  Each type is declared once,
/// however often it is reached.
#[derive(Debug)]
pub struct Context {
    opts: Opts,
    items: Vec<Item>,
    /// Identifiers already declared or being declared.
    visited: Vec<String>,
}

impl Context {
    pub closed spec fn options(&self) -> Opts {
        self.opts
    }

    pub open spec fn session(&self) -> Session {
        Session { decls: self.decls(), visited: self.visited_names() }
    }

    /// The declarations emitted so far, in order.
    pub closed spec fn decls(&self) -> Seq<ItemView> {
        self.items@.map_values(|i: Item| i.view())
    }

    /// The identifiers already declared.
    pub closed spec fn visited_names(&self) -> Seq<Seq<char>> {
        self.visited@.map_values(|s: String| s@)
    }

    pub fn new(opts: Opts) -> (r: Self)
        ensures
            r.options() == opts,
            r.decls() == Seq::<ItemView>::empty(),
            r.visited_names() == Seq::<Seq<char>>::empty(),
            unique_decls(r),
    {
        let r = Context { opts, visited: Vec::new(), items: Vec::new() };
        assert(r.decls() =~= Seq::<ItemView>::empty());
        assert(r.visited_names() =~= Seq::<Seq<char>>::empty());
        r
    }

    /// `self` came from `prev` by adding declarations and identifiers only.
    pub closed spec fn extends(self, prev: Context) -> bool {
        &&& self.opts == prev.opts
        &&& prev.items@.len() <= self.items@.len()
        &&& forall|k: int| 0 <= k < prev.items@.len() ==> self.items@[k] == prev.items@[k]
        &&& forall|x: Seq<char>|
            prev.visited_names().contains(x) ==> #[trigger] self.visited_names().contains(x)
    }

    /// The declarations end with `tail`, after the first `n` ones.
    pub open spec fn ends_with(self, tail: Seq<ItemView>, n: int) -> bool {
        &&& n + tail.len() <= self.decls().len()
        &&& self.decls().skip(self.decls().len() - tail.len()) == tail
    }

    /// A session that extends another keeps its declarations as a prefix, its
    /// options, and every identifier it had declared.
    pub proof fn lemma_extends_prefix(self, prev: Context)
        requires
            self.extends(prev),
        ensures
            prev.decls().len() <= self.decls().len(),
            self.decls().take(prev.decls().len() as int) == prev.decls(),
            self.options() == prev.options(),
            forall|x: Seq<char>|
                prev.visited_names().contains(x) ==> #[trigger] self.visited_names().contains(x),
    {
        assert(self.decls().take(prev.decls().len() as int) =~= prev.decls());
    }

    fn is_visited(&self, name: &String) -> (r: bool)
        ensures
            r == self.visited_names().contains(name@),
    {
        let mut i: usize = 0;
        while i < self.visited.len()
            invariant
                i <= self.visited@.len(),
                forall|k: int| 0 <= k < i ==> self.visited_names()[k] != name@,
            decreases self.visited@.len() - i,
        {
            if self.visited[i] == *name {
                assert(self.visited_names()[i as int] == name@);
                return true;
            }
            i = i + 1;
        }
        false
    }

    fn mark(&mut self, name: String)
        ensures
            final(self).visited_names() == old(self).visited_names().push(name@),
            final(self).items@ == old(self).items@,
            final(self).opts == old(self).opts,
            final(self).extends(*old(self)),
    {
        self.visited.push(name);
        assert(self.visited_names() =~= old(self).visited_names().push(name@));
        assert forall|x: Seq<char>| old(self).visited_names().contains(x) implies #[trigger] self.visited_names().contains(x) by {
            let k = choose|k: int| 0 <= k < old(self).visited_names().len() && old(self).visited_names()[k] == x;
            assert(self.visited_names()[k] == x);
        }
    }

    fn push_item(&mut self, item: Item)
        ensures
            final(self).decls() == old(self).decls().push(item.view()),
            final(self).items@ == old(self).items@.push(item),
            final(self).visited == old(self).visited,
            final(self).opts == old(self).opts,
            final(self).extends(*old(self)),
    {
        self.items.push(item);
        assert(self.decls() =~= old(self).decls().push(item.view()));
    }

    /// Declares the string type for data in `format` once.
    fn visit_data(&mut self, format: DataFormat) -> (r: TypeIdent)
        ensures
            r == match format {
                DataFormat::Hex => TypeIdent::HexData,
                DataFormat::Base64 => TypeIdent::Base64Data,
            },
            final(self).extends(*old(self)),
            data_post(*old(self), *final(self), format),
            final(self).session() == gen_data(old(self).session(), format),
            fresh_since(*old(self), *final(self)),
    {
        let ident = TypeIdent::for_data(format);
        let name = ident.to_text();
        if !self.is_visited(&name) {
            self.mark(name);
            self.push_item(Item::Alias(TypeIdent::for_data(format), TypeIdent::String));
            proof {
                lemma_fresh_declare(*old(self), *old(self), *self, self.decls().last());
            }
        }
        ident
    }

    fn visit_type(
        &mut self,
        s: &SchemaSet,
        ty: &TypeSchema,
        fmt: Option<DataFormat>,
        fuel: Ghost<nat>,
    ) -> (r: Result<Option<TypeIdent>, Error>)
        requires
            fuel@ > count_missing(all_struct_idents(*s), old(self).visited_names()),
        ensures
            (final(self).session(), text_res(r)) == gen_type(
                fuel@,
                old(self).session(),
                *s,
                old(self).options(),
                *ty,
                fmt,
            ),
            final(self).extends(*old(self)),
            r matches Ok(o) ==> opt_text(o) == type_text(*s, *ty, fmt),
            type_post(*old(self), *final(self), *s, *ty, fmt, text_res(r)),
            fresh_since(*old(self), *final(self)),
        decreases count_missing(all_struct_idents(*s), old(self).visited_names()), ty.depth() + 1,
    {
        match ty {
            TypeSchema::Void => Ok(Some(TypeIdent::Null)),
            TypeSchema::Bool => Ok(Some(TypeIdent::Bool)),
            TypeSchema::Int8 | TypeSchema::Int16 | TypeSchema::Int32 | TypeSchema::Int64
            | TypeSchema::UInt8 | TypeSchema::UInt16 | TypeSchema::UInt32 | TypeSchema::UInt64
            | TypeSchema::Float32 | TypeSchema::Float64 => Ok(Some(TypeIdent::Number)),
            TypeSchema::Text => Ok(Some(TypeIdent::String)),
            TypeSchema::Data => match fmt {
                Some(f) => Ok(Some(self.visit_data(f))),
                None => Ok(None),
            },
            TypeSchema::Struct(i) => {
                if *i < s.structs.len() {
                    match self.visit_struct(s, *i, fuel) {
                        Ok(t) => Ok(Some(t)),
                        Err(e) => Err(e),
                    }
                } else {
                    Err(Error::BadReference)
                }
            },
            TypeSchema::Enum(i) => {
                if *i < s.enums.len() {
                    match self.visit_enum(s, *i) {
                        Ok(t) => Ok(Some(t)),
                        Err(e) => Err(e),
                    }
                } else {
                    Err(Error::BadReference)
                }
            },
            TypeSchema::List(e) => {
                let er = self.visit_type(s, e, fmt, fuel);
                let ghost w = text_res(er);
                assert(type_post(*old(self), *self, *s, **e, fmt, w));
                let r = match er {
                    Ok(Some(t)) => Ok(Some(TypeIdent::ArrayOf(Box::new(t)))),
                    Ok(None) => Ok(None),
                    Err(x) => Err(x),
                };
                assert(text_res(r) == array_res(w));
                proof {
                    reveal_strlit("Array<");
                    reveal_strlit(">");
                    if let Ok(Some(t)) = w {
                        assert(("Array<"@ + t + ">"@).subrange(6, t.len() + 6 as int) =~= t);
                    }
                    assert(element_res(array_res(w)) == w);
                }
                assert(*ty == TypeSchema::List(*e));
                r
            },
            TypeSchema::AnyPointer => Ok(None),
            TypeSchema::Capability => Ok(None),
        }
    }

    /// Declares enum `k` once: an alias of the union of its enumerants' names.
    fn visit_enum(&mut self, s: &SchemaSet, k: usize) -> (r: Result<TypeIdent, Error>)
        requires
            k < s.enums@.len(),
        ensures
            final(self).extends(*old(self)),
            r matches Ok(t) ==> {
                let id = ident_of(s.enums@[k as int].display_name@);
                &&& t.text() == id
                &&& final(self).visited_names().contains(id)
                &&& old(self).visited_names().contains(id) ==> final(self).decls()
                    == old(self).decls()
                &&& !old(self).visited_names().contains(id) ==> final(self).decls()
                    == old(self).decls().push(enum_decl(*s, k as int, old(self).options()))
            },
            clean(*s) ==> r is Ok,
            enum_post(*old(self), *final(self), *s, k as int, match r {
                Ok(_) => Ok(()),
                Err(e) => Err(e),
            }),
            r matches Ok(t) ==> t.text() == ident_of(s.enums@[k as int].display_name@),
            (final(self).session(), match r {
                Ok(_) => Ok(()),
                Err(e) => Err(e),
            }) == gen_enum(old(self).session(), *s, old(self).options(), k as int),
            fresh_since(*old(self), *final(self)),
    {
        let e = &s.enums[k];
        let ident = match TypeIdent::from_enum(e) {
            Ok(t) => t.to_text(),
            Err(err) => return Err(err),
        };
        if self.is_visited(&ident) {
            return Ok(TypeIdent::Enum(ident));
        }
        self.mark(ident.clone());
        assert(self.visited_names()[self.visited_names().len() - 1] == ident@);
        let ghost marked = *self;
        let mut variants: Vec<TypeIdent> = Vec::new();
        let mut m: usize = 0;
        while m < e.enumerants.len()
            invariant
                m <= e.enumerants@.len(),
                variants@.len() == m,
                TypeIdent::texts(variants@, m as int) == enum_literals(
                    e.enumerants@.take(m as int),
                ),
                *e == s.enums@[k as int],
                k < s.enums@.len(),
                *self == marked,
                marked.extends(*old(self)),
                marked.items@ == old(self).items@,
                marked.visited_names().contains(ident@),
                marked.visited_names() == old(self).visited_names().push(ident@),
                forall|q: int|
                    0 <= q < m ==> !has_flatten((#[trigger] e.enumerants@[q]).annotations@),
                marked.opts == old(self).opts,
                all_ascii(e.display_name@),
                ident@ == ident_of(e.display_name@),
                !old(self).visited_names().contains(ident@),
                clean(*s) ==> forall|q: int|
                    0 <= q < e.enumerants@.len() ==> !has_flatten(
                        (#[trigger] e.enumerants@[q]).annotations@,
                    ),
            decreases e.enumerants@.len() - m,
        {
            let v = match enumerant_value(&e.enumerants[m]) {
                Ok(v) => v,
                Err(err) => {
                    assert(self.decls() == old(self).decls());
                    return Err(err);
                },
            };
            let ghost prev = variants@;
            variants.push(TypeIdent::Literal(v));
            proof {
                TypeIdent::lemma_texts_agree(variants@, prev, m as int);
                assert(e.enumerants@.take(m + 1).drop_last() == e.enumerants@.take(m as int));
                assert(e.enumerants@.take(m + 1).last() == e.enumerants@[m as int]);
                assert(TypeIdent::texts(variants@, m + 1) == TypeIdent::texts(prev, m as int).push(
                    variants@[m as int].text(),
                ));
            }
            m = m + 1;
        }
        assert(e.enumerants@.take(m as int) == e.enumerants@);
        let ghost lits = TypeIdent::texts(variants@, m as int);
        assert(lits == enum_literals(e.enumerants@));
        match self.opts.on_enumerant_not_in_schema {
            OnEnumerantNotInSchema::UseNumber => {
                let ghost prev = variants@;
                variants.push(TypeIdent::Number);
                proof {
                    TypeIdent::lemma_texts_agree(variants@, prev, m as int);
                    assert(variants@[m as int] == TypeIdent::Number);
                    assert(variants@[m as int].text() == "number"@);
                    assert(TypeIdent::texts(variants@, m + 1) == TypeIdent::texts(
                        variants@,
                        m as int,
                    ).push(variants@[m as int].text()));
                    assert(TypeIdent::texts(variants@, m + 1) == lits.push("number"@));
                }
            },
            OnEnumerantNotInSchema::Error => {},
        }
        assert(self.decls() == old(self).decls());
        self.push_item(Item::Alias(TypeIdent::Enum(ident.clone()), TypeIdent::Union(variants)));
        proof {
            lemma_fresh_declare(*old(self), *old(self), *self, self.decls().last());
        }
        Ok(TypeIdent::Enum(ident))
    }

    /// Declares struct `j` once, after the types it refers to.  The order is:
    /// the types of the fields outside the union, in code order; then the
    /// types of the union members, in declaration order; then the struct's
    /// own declarations (one interface, or one interface per union member
    /// followed by the alias of their union).  A member interface whose
    /// identifier is already declared in the session is refused.
    fn visit_struct(&mut self, s: &SchemaSet, j: usize, fuel: Ghost<nat>) -> (r: Result<
        TypeIdent,
        Error,
    >)
        requires
            j < s.structs@.len(),
            fuel@ > count_missing(all_struct_idents(*s), old(self).visited_names()),
        ensures
            final(self).extends(*old(self)),
            r matches Ok(t) ==> {
                let id = struct_ident(*s, j as int);
                &&& t.text() == id
                &&& final(self).visited_names().contains(id)
                &&& old(self).visited_names().contains(id) ==> final(self).decls()
                    == old(self).decls()
                &&& !old(self).visited_names().contains(id) ==> final(self).ends_with(
                    struct_decls(*s, j as int),
                    old(self).decls().len() as int,
                )
            },
            struct_post(*old(self), *final(self), *s, j as int, match r {
                Ok(_) => Ok(()),
                Err(e) => Err(e),
            }),
            (final(self).session(), match r {
                Ok(_) => Ok(()),
                Err(e) => Err(e),
            }) == gen_struct(fuel@, old(self).session(), *s, old(self).options(), j as int),
            fresh_since(*old(self), *final(self)),
        decreases count_missing(all_struct_idents(*s), old(self).visited_names()), 0nat,
    {
        let ghost entry = *self;
        let ghost names = all_struct_idents(*s);
        let st = &s.structs[j];
        let ident = match TypeIdent::from_struct(st) {
            Ok(t) => t.to_text(),
            Err(err) => return Err(err),
        };
        if self.is_visited(&ident) {
            return Ok(TypeIdent::Struct(ident));
        }
        self.mark(ident.clone());
        proof {
            assert(self.visited_names()[self.visited_names().len() - 1] == ident@);
            lemma_count_missing_strict(
                names,
                entry.visited_names(),
                self.visited_names(),
                j as int,
            );
        }
        let ghost marked = *self;
        let order = code_order(&st.fields);
        let ghost sorted = code_sorted(st.fields@);
        let mut base: Vec<(String, TypeIdent)> = Vec::new();
        let mut k: usize = 0;
        while k < order.len()
            invariant
                k <= order@.len(),
                forall|q: int| 0 <= q < order@.len() ==> order@[q] < st.fields@.len(),
                pick(st.fields@, order@) == sorted,
                sorted == code_sorted(st.fields@),
                *st == s.structs@[j as int],
                j < s.structs@.len(),
                names == all_struct_idents(*s),
                self.extends(marked),
                marked.extends(entry),
                count_missing(names, marked.visited_names()) < count_missing(
                    names,
                    entry.visited_names(),
                ),
                entry == *old(self),
                entries_view(base@) == entries(*s, sorted.take(k as int)),
                fuel@ > count_missing(names, entry.visited_names()),
                fresh_since(marked, *self),
                fresh_since(entry, *self),
                marked.session() == (Session {
                    decls: entry.decls(),
                    visited: entry.visited_names().push(ident@),
                }),
                gen_fields((fuel@ - 1) as nat, marked.session(), *s, entry.options(), sorted, k as int)
                    == (self.session(), Ok::<(), Error>(())),
                all_ascii(st.display_name@),
                ident@ == struct_ident(*s, j as int),
                !entry.visited_names().contains(ident@),
                marked.visited_names().contains(ident@),
            decreases order@.len() - k,
        {
            let f = &st.fields[order[k]];
            assert(*f == sorted[k as int]);
            let annots = match read_annots(&f.annotations) {
                Ok(a) => a,
                Err(err) => {
                    proof {
                        assert(gen_fields((fuel@ - 1) as nat, marked.session(), *s, entry.options(), sorted, k + 1) == (self.session(), Err::<(), Error>(err)));
                        lemma_gen_fields_sticky((fuel@ - 1) as nat, marked.session(), *s, entry.options(), sorted, k + 1, sorted.len() as int);
                    }
                    return Err(err);
                },
            };
            let key = field_name(f, &annots).clone();
            let ghost before = *self;
            proof {
                lemma_count_missing_mono(names, marked.visited_names(), self.visited_names());
            }
            let t = match self.visit_type(
                s,
                &f.ty,
                annots.data_format,
                Ghost((fuel@ - 1) as nat),
            ) {
                Ok(t) => t,
                Err(err) => {
                    proof {
                        lemma_fresh_trans(entry, before, *self);
                        assert(gen_fields((fuel@ - 1) as nat, marked.session(), *s, entry.options(), sorted, k + 1) == (self.session(), Err::<(), Error>(err)));
                        lemma_gen_fields_sticky((fuel@ - 1) as nat, marked.session(), *s, entry.options(), sorted, k + 1, sorted.len() as int);
                    }
                    return Err(err);
                },
            };
            proof {
                lemma_fresh_trans(marked, before, *self);
                lemma_fresh_trans(entry, before, *self);
            }
            let ghost prev = base@;
            match t {
                Some(t) => {
                    base.push((key, t));
                    assert(entries_view(base@) =~= entries_view(prev).push(
                        entry_view(base@.last()),
                    ));
                },
                None => {},
            }
            assert(sorted.take(k + 1).drop_last() == sorted.take(k as int));
            k = k + 1;
        }
        assert(sorted.take(order@.len() as int) == sorted);
        assert(sorted.len() == order@.len());
        proof {
            lemma_count_missing_mono(names, marked.visited_names(), self.visited_names());
        }
        let ghost base_view = entries_view(base@);
        if st.union_fields.len() > 0 {
            let opts = read_discriminator(st);
            let us = &st.union_fields;
            let ghost after_fields = *self;
            let mut tys: Vec<Option<TypeIdent>> = Vec::new();
            let mut keys: Vec<String> = Vec::new();
            let mut m: usize = 0;
            while m < us.len()
                invariant
                    m <= us@.len(),
                    tys@.len() == m,
                    keys@.len() == m,
                    forall|q: int|
                        0 <= q < m ==> opt_text(#[trigger] tys@[q]) == field_type_text(
                            *s,
                            us@[q],
                        ),
                    forall|q: int|
                        0 <= q < m ==> (#[trigger] keys@[q])@ == variant_key(
                            us@[q],
                            discriminator_of(*st).1,
                        ),
                    (crate::annots::opt_view(opts.name), crate::annots::opt_view(opts.value_name))
                        == discriminator_of(*st),
                    *us == st.union_fields,
                    *st == s.structs@[j as int],
                    j < s.structs@.len(),
                    names == all_struct_idents(*s),
                    self.extends(marked),
                    marked.extends(entry),
                    count_missing(names, self.visited_names()) < count_missing(
                        names,
                        entry.visited_names(),
                    ),
                    entry == *old(self),
                    fuel@ > count_missing(names, entry.visited_names()),
                fresh_since(marked, *self),
                fresh_since(entry, *self),
                    gen_fields((fuel@ - 1) as nat, after_fields.session(), *s, entry.options(), us@, m as int)
                        == (self.session(), Ok::<(), Error>(())),
                    gen_fields((fuel@ - 1) as nat, marked.session(), *s, entry.options(), sorted, sorted.len() as int) == (after_fields.session(), Ok::<(), Error>(())),
                    sorted == code_sorted(st.fields@),
                    marked.session() == (Session {
                        decls: entry.decls(),
                        visited: entry.visited_names().push(ident@),
                    }),
                    all_ascii(st.display_name@),
                    ident@ == struct_ident(*s, j as int),
                    !entry.visited_names().contains(ident@),
                    marked.visited_names().contains(ident@),
                decreases us@.len() - m,
            {
                let f = &us[m];
                let annots = match read_annots(&f.annotations) {
                    Ok(a) => a,
                    Err(err) => {
                        proof {
                            assert(gen_fields((fuel@ - 1) as nat, after_fields.session(), *s, entry.options(), us@, m + 1) == (self.session(), Err::<(), Error>(err)));
                            lemma_gen_fields_sticky((fuel@ - 1) as nat, after_fields.session(), *s, entry.options(), us@, m + 1, us@.len() as int);
                        }
                        return Err(err);
                    },
                };
                let key = match &opts.value_name {
                    Some(v) => v.clone(),
                    None => field_name(f, &annots).clone(),
                };
                let ghost before = *self;
                let t = match self.visit_type(
                s,
                &f.ty,
                annots.data_format,
                Ghost((fuel@ - 1) as nat),
            ) {
                Ok(t) => t,
                Err(err) => {
                    proof {
                        lemma_fresh_trans(entry, before, *self);
                        assert(gen_fields((fuel@ - 1) as nat, after_fields.session(), *s, entry.options(), us@, m + 1) == (self.session(), Err::<(), Error>(err)));
                        lemma_gen_fields_sticky((fuel@ - 1) as nat, after_fields.session(), *s, entry.options(), us@, m + 1, us@.len() as int);
                    }
                    return Err(err);
                },
            };
                proof {
                    lemma_count_missing_mono(names, before.visited_names(), self.visited_names());
                    lemma_fresh_trans(marked, before, *self);
                    lemma_fresh_trans(entry, before, *self);
                }
                tys.push(t);
                keys.push(key);
                m = m + 1;
            }
            let ghost mid = *self;
            let mut variants: Vec<TypeIdent> = Vec::new();
            let mut m: usize = 0;
            while m < us.len()
                invariant
                    m <= us@.len(),
                    tys@.len() == us@.len(),
                    keys@.len() == us@.len(),
                    forall|q: int|
                        0 <= q < us@.len() ==> opt_text(#[trigger] tys@[q]) == field_type_text(
                            *s,
                            us@[q],
                        ),
                    forall|q: int|
                        0 <= q < us@.len() ==> (#[trigger] keys@[q])@ == variant_key(
                            us@[q],
                            discriminator_of(*st).1,
                        ),
                    ident@ == struct_ident(*s, j as int),
                    all_ascii(st.display_name@),
                    *st == s.structs@[j as int],
                    j < s.structs@.len(),
                    *us == st.union_fields,
                    entries_view(base@) == base_view,
                    self.extends(mid),
                    mid.extends(entry),
                    entry == *old(self),
                    fuel@ > count_missing(names, entry.visited_names()),
                fresh_since(marked, *self),
                fresh_since(entry, *self),
                    sorted == code_sorted(st.fields@),
                    marked.session() == (Session {
                        decls: entry.decls(),
                        visited: entry.visited_names().push(ident@),
                    }),
                    gen_fields((fuel@ - 1) as nat, marked.session(), *s, entry.options(), sorted, sorted.len() as int)
                        == (after_fields.session(), Ok::<(), Error>(())),
                    gen_fields((fuel@ - 1) as nat, after_fields.session(), *s, entry.options(), us@, us@.len() as int)
                        == (mid.session(), Ok::<(), Error>(())),
                    !entry.visited_names().contains(ident@),
                    mid.visited_names().contains(ident@),
                    self.opts == mid.opts,
                    self.visited_names() == mid.visited_names() + variant_names(
                        *s,
                        ident@,
                        us@.take(m as int),
                    ),
                    gen_variants(mid.session(), *s, j as int, m as int) == (
                        self.session(),
                        Ok::<(), Error>(()),
                    ),
                    base_view == entries(*s, code_sorted(st.fields@)),
                    self.decls() == mid.decls() + variant_decls(
                        *s,
                        ident@,
                        us@.take(m as int),
                        base_view,
                        discriminator_of(*st),
                    ),
                    (crate::annots::opt_view(opts.name), crate::annots::opt_view(opts.value_name))
                        == discriminator_of(*st),
                    TypeIdent::texts(variants@, variants@.len() as int) == variant_names(
                        *s,
                        ident@,
                        us@.take(m as int),
                    ),
                decreases us@.len() - m,
            {
                assert(us@.take(m + 1).drop_last() == us@.take(m as int));
                match &tys[m] {
                    Some(t) => {
                        let vname = match TypeIdent::from_union_variant(st, &us[m]) {
                            Ok(vt) => vt.to_text(),
                            Err(err) => return Err(err),
                        };
                        if self.is_visited(&vname) {
                            proof {
                                assert(gen_variants(mid.session(), *s, j as int, m + 1) == (
                                    self.session(),
                                    Err::<(), Error>(Error::DuplicateIdentifier),
                                ));
                                lemma_gen_variants_sticky(
                                    mid.session(),
                                    *s,
                                    j as int,
                                    m + 1,
                                    us@.len() as int,
                                );
                            }
                            return Err(Error::DuplicateIdentifier);
                        }
                        let ghost pre = *self;
                        self.mark(vname.clone());
                        let mut fields = dup_entries(&base);
                        let ghost fprev = fields@;
                        let member = match &opts.name {
                            Some(w) => (
                                w.clone(),
                                TypeIdent::Wrapped(keys[m].clone(), Box::new(t.duplicate())),
                            ),
                            None => (keys[m].clone(), t.duplicate()),
                        };
                        fields.push(member);
                        assert(entries_view(fields@) =~= entries_view(fprev).push(
                            entry_view(fields@.last()),
                        ));
                        self.push_item(
                            Item::Interface { ident: TypeIdent::Struct(vname.clone()), fields },
                        );
                        proof {
                            lemma_fresh_declare(marked, pre, *self, self.decls().last());
                            lemma_fresh_declare(entry, pre, *self, self.decls().last());
                        }
                        let ghost vprev = variants@;
                        variants.push(TypeIdent::Struct(vname));
                        proof {
                            TypeIdent::lemma_texts_agree(
                                variants@,
                                vprev,
                                vprev.len() as int,
                            );
                        }
                    },
                    None => {},
                }
                m = m + 1;
            }
            assert(us@.take(us@.len() as int) == us@);
            let ghost pre = *self;
            self.push_item(
                Item::Alias(TypeIdent::Struct(ident.clone()), TypeIdent::Union(variants)),
            );
            proof {
                lemma_fresh_close(entry, marked, pre, *self, self.decls().last());
                mid.lemma_extends_prefix(entry);
                assert(self.decls() == mid.decls() + struct_decls(*s, j as int));
                assert(self.decls().skip(self.decls().len() - struct_decls(*s, j as int).len())
                    =~= struct_decls(*s, j as int));
            }
        } else {
            let ghost mid = *self;
            self.push_item(Item::Interface { ident: TypeIdent::Struct(ident.clone()), fields: base });
            proof {
                lemma_fresh_close(entry, marked, mid, *self, self.decls().last());
                mid.lemma_extends_prefix(entry);
                assert(self.decls() =~= mid.decls() + struct_decls(*s, j as int));
                assert(gen_fields((fuel@ - 1) as nat, marked.session(), *s, entry.options(), sorted, sorted.len() as int) == (mid.session(), Ok::<(), Error>(())));
                assert(self.decls().skip(self.decls().len() - 1) =~= struct_decls(*s, j as int));
            }
        }
        Ok(TypeIdent::Struct(ident))
    }

    /// Declares struct `j` of `s` and, first, every type it refers to that
    /// this session has not declared yet.  A struct already declared adds
    /// nothing.
    pub fn add(&mut self, s: &SchemaSet, j: usize) -> (r: Result<(), Error>)
        ensures
            added(*old(self), *final(self), *s, j as int, r),
            (final(self).session(), r) == add_result(*old(self), *s, j as int),
            fresh_since(*old(self), *final(self)),
            unique_decls(*old(self)) ==> unique_decls(*final(self)),
    {
        if j >= s.structs.len() {
            return Err(Error::BadReference);
        }
        let r = self.visit_struct(
            s,
            j,
            Ghost(count_missing(all_struct_idents(*s), self.visited_names()) + 1),
        );
        proof {
            if unique_decls(*old(self)) {
                lemma_fresh_keeps_unique(*old(self), *self);
            }
        }
        match r {
            Ok(_) => Ok(()),
            Err(e) => Err(e),
        }
    }

    /// The generated code: a blank line, then every declaration in the order
    /// it was emitted.
    pub fn write(&self) -> (r: String)
        ensures
            r@ == items_text(self.decls()),
    {
        let mut out: Vec<char> = Vec::new();
        let mut i: usize = 0;
        while i < self.items.len()
            invariant
                i <= self.items@.len(),
                out@ == items_text(self.decls().take(i as int)),
            decreases self.items@.len() - i,
        {
            self.items[i].write_to(&mut out);
            i = i + 1;
            assert(self.decls().take(i as int).drop_last() == self.decls().take(i - 1));
        }
        assert(self.decls().take(self.items@.len() as int) == self.decls());
        string_of(&out)
    }
}

} // verus!
