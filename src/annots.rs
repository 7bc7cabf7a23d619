use vstd::prelude::*;

use crate::error::Error;
use crate::schema::{Annotation, DataFormat, Enumerant, FieldSchema, StructSchema};

verus! {

/// The JSON-related directives attached to one schema node.
#[derive(Debug)]
pub struct JsonAnnots {
    pub name: Option<String>,
    pub data_format: Option<DataFormat>,
}

/// How a struct's union is named in JSON.
#[derive(Debug)]
pub struct DiscriminatorOptions {
    /// The key wrapping the selected variant; `None` when the struct carries
    /// no discriminator annotation.
    pub name: Option<String>,
    /// A key that replaces every variant's own name.
    pub value_name: Option<String>,
}

pub open spec fn opt_view(o: Option<String>) -> Option<Seq<char>> {
    match o {
        Some(s) => Some(s@),
        None => None,
    }
}

/// The payload of the first `name` annotation at or after position `i`.
pub open spec fn name_from(a: Seq<Annotation>, i: int) -> Option<Seq<char>>
    decreases a.len() - i,
{
    if i < 0 || i >= a.len() {
        None
    } else {
        match a[i] {
            Annotation::Name(n) => Some(n@),
            _ => name_from(a, i + 1),
        }
    }
}

/// The first `hex` or `base64` annotation at or after position `i`.
pub open spec fn format_from(a: Seq<Annotation>, i: int) -> Option<DataFormat>
    decreases a.len() - i,
{
    if i < 0 || i >= a.len() {
        None
    } else {
        match a[i] {
            Annotation::Hex => Some(DataFormat::Hex),
            Annotation::Base64 => Some(DataFormat::Base64),
            _ => format_from(a, i + 1),
        }
    }
}

/// The first discriminator annotation at or after position `i`, as its
/// optional name and value name.
pub open spec fn discriminator_from(a: Seq<Annotation>, i: int) -> Option<
    (Option<Seq<char>>, Option<Seq<char>>),
>
    decreases a.len() - i,
{
    if i < 0 || i >= a.len() {
        None
    } else {
        match a[i] {
            Annotation::Discriminator { name, value_name } => Some(
                (opt_view(name), opt_view(value_name)),
            ),
            _ => discriminator_from(a, i + 1),
        }
    }
}

pub open spec fn name_override(a: Seq<Annotation>) -> Option<Seq<char>> {
    name_from(a, 0)
}

pub open spec fn data_format(a: Seq<Annotation>) -> Option<DataFormat> {
    format_from(a, 0)
}

pub open spec fn has_flatten(a: Seq<Annotation>) -> bool {
    exists|k: int| 0 <= k < a.len() && (#[trigger] a[k]) is Flatten
}

/// The name a node goes by in JSON: its override if it has one, else the
/// declared name.
pub open spec fn resolved_name(declared: Seq<char>, a: Seq<Annotation>) -> Seq<char> {
    match name_override(a) {
        Some(n) => n,
        None => declared,
    }
}

/// The discriminator options of a struct: the wrapper name falls back from
/// the annotation's own name to the struct's `name` annotation, then to the
/// struct's declared name.
pub open spec fn discriminator_of(s: StructSchema) -> (Option<Seq<char>>, Option<Seq<char>>) {
    match discriminator_from(s.annotations@, 0) {
        None => (None, None),
        Some((n, v)) => (
            Some(
                match n {
                    Some(n) => n,
                    None => resolved_name(s.name@, s.annotations@),
                },
            ),
            v,
        ),
    }
}

/// Resolves the annotations of one node; the first `name` and the first data
/// format win, unknown annotations are ignored, and `flatten` is refused.
pub fn read_annots(list: &Vec<Annotation>) -> (r: Result<JsonAnnots, Error>)
    ensures
        r is Err <==> has_flatten(list@),
        r is Err ==> r == Err::<JsonAnnots, Error>(Error::FlattenUnsupported),
        r matches Ok(a) ==> opt_view(a.name) == name_override(list@) && a.data_format
            == data_format(list@),
{
    let mut name: Option<String> = None;
    let mut format: Option<DataFormat> = None;
    let mut i: usize = 0;
    while i < list.len()
        invariant
            i <= list@.len(),
            forall|k: int| 0 <= k < i ==> !(#[trigger] list@[k] is Flatten),
            name_override(list@) == match name {
                Some(n) => Some(n@),
                None => name_from(list@, i as int),
            },
            data_format(list@) == match format {
                Some(f) => Some(f),
                None => format_from(list@, i as int),
            },
        decreases list@.len() - i,
    {
        match &list[i] {
            Annotation::Name(n) => {
                if name.is_none() {
                    name = Some(n.clone());
                }
            },
            Annotation::Hex => {
                if format.is_none() {
                    format = Some(DataFormat::Hex);
                }
            },
            Annotation::Base64 => {
                if format.is_none() {
                    format = Some(DataFormat::Base64);
                }
            },
            Annotation::Flatten { .. } => {
                return Err(Error::FlattenUnsupported);
            },
            _ => {},
        }
        i = i + 1;
    }
    Ok(JsonAnnots { name, data_format: format })
}

fn clone_opt(o: &Option<String>) -> (r: Option<String>)
    ensures
        opt_view(r) == opt_view(*o),
{
    match o {
        Some(s) => Some(s.clone()),
        None => None,
    }
}

/// The first `name` annotation in `list`, copied.
fn find_name(list: &Vec<Annotation>) -> (r: Option<String>)
    ensures
        opt_view(r) == name_override(list@),
{
    let mut i: usize = 0;
    while i < list.len()
        invariant
            i <= list@.len(),
            name_override(list@) == name_from(list@, i as int),
        decreases list@.len() - i,
    {
        if let Annotation::Name(n) = &list[i] {
            return Some(n.clone());
        }
        i = i + 1;
    }
    None
}

/// Reads how the union of `schema` is named in JSON.
pub fn read_discriminator(schema: &StructSchema) -> (r: DiscriminatorOptions)
    ensures
        (opt_view(r.name), opt_view(r.value_name)) == discriminator_of(*schema),
{
    let list = &schema.annotations;
    let mut i: usize = 0;
    while i < list.len()
        invariant
            i <= list@.len(),
            list@ == schema.annotations@,
            discriminator_from(list@, 0) == discriminator_from(list@, i as int),
        decreases list@.len() - i,
    {
        if let Annotation::Discriminator { name, value_name } = &list[i] {
            let wrapper = match name {
                Some(n) => n.clone(),
                None => match find_name(list) {
                    Some(n) => n,
                    None => schema.name.clone(),
                },
            };
            return DiscriminatorOptions { name: Some(wrapper), value_name: clone_opt(value_name) };
        }
        i = i + 1;
    }
    DiscriminatorOptions { name: None, value_name: None }
}

/// The JSON key of a field: its name override, else its declared name.
pub fn field_name<'a>(field: &'a FieldSchema, annots: &'a JsonAnnots) -> (r: &'a String)
    ensures
        r@ == match annots.name {
            Some(n) => n@,
            None => field.name@,
        },
{
    match &annots.name {
        Some(n) => n,
        None => &field.name,
    }
}

/// The JSON string of an enumerant: its name override, else its declared name.
pub fn enumerant_value(enumerant: &Enumerant) -> (r: Result<String, Error>)
    ensures
        r is Err <==> has_flatten(enumerant.annotations@),
        r is Err ==> r == Err::<String, Error>(Error::FlattenUnsupported),
        r matches Ok(s) ==> s@ == resolved_name(enumerant.name@, enumerant.annotations@),
{
    let annots = match read_annots(&enumerant.annotations) {
        Ok(a) => a,
        Err(e) => return Err(e),
    };
    match annots.name {
        Some(n) => Ok(n),
        None => Ok(enumerant.name.clone()),
    }
}

} // verus!
