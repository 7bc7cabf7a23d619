use vstd::prelude::*;

verus! {

/// How the bytes of a `Data` value are written as JSON text.
#[derive(Debug, Clone, Copy, PartialEq, Eq, Structural)]
pub enum DataFormat {
    Hex,
    Base64,
}

/// One annotation attached to a schema node, already decoded by kind.
#[derive(Debug, Clone)]
pub enum Annotation {
    /// Overrides the JSON name of a field, group, union or enumerant.
    Name(String),
    /// `Data` is written as lowercase hex digits.
    Hex,
    /// `Data` is written as standard base64.
    Base64,
    /// Inline a nested struct's fields into the parent; not supported.
    Flatten { prefix: Option<String> },
    /// Naming options for a struct's union.
    Discriminator { name: Option<String>, value_name: Option<String> },
    /// Any annotation this library does not interpret, by its id.
    Unknown(u64),
}

/// The shape of a type in a schema.  Structs and enums are referred to by
/// their index in the `SchemaSet`, so shared and recursive schemas are
/// plain values.
#[derive(Debug)]
pub enum TypeSchema {
    Void,
    Bool,
    Int8,
    Int16,
    Int32,
    Int64,
    UInt8,
    UInt16,
    UInt32,
    UInt64,
    Float32,
    Float64,
    Text,
    Data,
    Struct(usize),
    Enum(usize),
    List(Box<TypeSchema>),
    AnyPointer,
    Capability,
}

#[derive(Debug)]
pub struct FieldSchema {
    /// The declared name.
    pub name: String,
    /// Position of the field in the source text, relative to its siblings.
    pub code_order: u16,
    pub ty: TypeSchema,
    pub annotations: Vec<Annotation>,
}

#[derive(Debug)]
pub struct StructSchema {
    /// Fully qualified name, such as `test.capnp:SimpleStruct`.
    pub display_name: String,
    /// The declared (unqualified) name.
    pub name: String,
    /// Fields outside the union, in ordinal order.
    pub fields: Vec<FieldSchema>,
    /// Members of the struct's union, in discriminant order.
    pub union_fields: Vec<FieldSchema>,
    pub annotations: Vec<Annotation>,
}

#[derive(Debug, Clone)]
pub struct Enumerant {
    pub name: String,
    pub annotations: Vec<Annotation>,
}

#[derive(Debug, Clone)]
pub struct EnumSchema {
    pub display_name: String,
    /// Enumerants by ordinal.
    pub enumerants: Vec<Enumerant>,
}

/// All struct and enum nodes that a traversal may reach.
#[derive(Debug)]
pub struct SchemaSet {
    pub structs: Vec<StructSchema>,
    pub enums: Vec<EnumSchema>,
}

impl TypeSchema {
    /// Every struct and enum that this type names exists in `s`.
    pub open spec fn refs_in(self, s: SchemaSet) -> bool
        decreases self,
    {
        match self {
            TypeSchema::Struct(i) => i < s.structs@.len(),
            TypeSchema::Enum(i) => i < s.enums@.len(),
            TypeSchema::List(e) => e.refs_in(s),
            _ => true,
        }
    }

    /// Nesting depth of list types.
    pub open spec fn depth(self) -> nat
        decreases self,
    {
        match self {
            TypeSchema::List(e) => e.depth() + 1,
            _ => 0,
        }
    }
}

impl SchemaSet {
    pub open spec fn fields_wf(self, fs: Seq<FieldSchema>) -> bool {
        forall|k: int| 0 <= k < fs.len() ==> (#[trigger] fs[k]).ty.refs_in(self)
    }

    /// Every reference between nodes of the set is in bounds.
    pub open spec fn wf(self) -> bool {
        forall|i: int|
            0 <= i < self.structs@.len() ==> {
                &&& self.fields_wf((#[trigger] self.structs@[i]).fields@)
                &&& self.fields_wf(self.structs@[i].union_fields@)
            }
    }
}

/// Position `k` inserted into the positions `sorted` before the first one
/// whose field has a larger code order.
pub open spec fn insert_by_code(fs: Seq<FieldSchema>, sorted: Seq<usize>, k: usize) -> Seq<usize>
    decreases sorted.len(),
{
    if sorted.len() == 0 {
        seq![k]
    } else if fs[k as int].code_order < fs[sorted[0] as int].code_order {
        seq![k] + sorted
    } else {
        seq![sorted[0]] + insert_by_code(fs, sorted.drop_first(), k)
    }
}

/// The positions of the first `n` fields in code order; fields with equal
/// code order keep their order.
pub open spec fn code_order_of(fs: Seq<FieldSchema>, n: int) -> Seq<usize>
    decreases n,
{
    if n <= 0 {
        Seq::empty()
    } else {
        insert_by_code(fs, code_order_of(fs, n - 1), (n - 1) as usize)
    }
}

pub open spec fn pick(fs: Seq<FieldSchema>, idx: Seq<usize>) -> Seq<FieldSchema> {
    idx.map_values(|k: usize| fs[k as int])
}

/// The fields in code order.
pub open spec fn code_sorted(fs: Seq<FieldSchema>) -> Seq<FieldSchema> {
    pick(fs, code_order_of(fs, fs.len() as int))
}

proof fn lemma_insert_at(fs: Seq<FieldSchema>, sorted: Seq<usize>, k: usize, p: int)
    requires
        0 <= p <= sorted.len(),
        forall|q: int|
            0 <= q < p ==> !(fs[k as int].code_order < fs[(#[trigger] sorted[q]) as int].code_order),
        p == sorted.len() || fs[k as int].code_order < fs[sorted[p] as int].code_order,
    ensures
        insert_by_code(fs, sorted, k) == sorted.insert(p, k),
    decreases p,
{
    if p == 0 {
        assert(sorted.insert(0, k) =~= seq![k] + sorted);
    } else {
        let rest = sorted.drop_first();
        assert forall|q: int| 0 <= q < p - 1 implies !(fs[k as int].code_order < fs[(
        #[trigger] rest[q]) as int].code_order) by {
            assert(rest[q] == sorted[q + 1]);
        }
        lemma_insert_at(fs, rest, k, p - 1);
        assert(sorted.insert(p, k) =~= seq![sorted[0]] + rest.insert(p - 1, k));
    }
}

/// Positions of `fields` listed in code order.
pub fn code_order(fields: &Vec<FieldSchema>) -> (r: Vec<usize>)
    ensures
        r@ == code_order_of(fields@, fields@.len() as int),
        r@.len() == fields@.len(),
        forall|k: int| 0 <= k < r@.len() ==> r@[k] < fields@.len(),
{
    let mut idx: Vec<usize> = Vec::new();
    let mut i: usize = 0;
    while i < fields.len()
        invariant
            i <= fields@.len(),
            idx@.len() == i,
            forall|k: int| 0 <= k < idx@.len() ==> idx@[k] < i,
            idx@ == code_order_of(fields@, i as int),
        decreases fields@.len() - i,
    {
        let code = fields[i].code_order;
        let mut p: usize = 0;
        while p < idx.len() && !(code < fields[idx[p]].code_order)
            invariant
                p <= idx@.len(),
                forall|k: int| 0 <= k < idx@.len() ==> idx@[k] < i,
                i < fields@.len(),
                code == fields@[i as int].code_order,
                forall|q: int|
                    0 <= q < p ==> !(code < fields@[(#[trigger] idx@[q]) as int].code_order),
            decreases idx@.len() - p,
        {
            p = p + 1;
        }
        proof {
            lemma_insert_at(fields@, idx@, i, p as int);
        }
        idx.insert(p, i);
        i = i + 1;
    }
    idx
}

} // verus!
