use vstd::prelude::*;

verus! {

/// A JSON number as the schema value it came from.  Floating-point values
/// are carried as their IEEE 754 bits.
#[derive(Debug, Clone, Copy, PartialEq, Eq, Structural)]
pub enum JsonNumber {
    Int(i64),
    UInt(u64),
    Float32Bits(u32),
    Float64Bits(u64),
}

/// A JSON value; object keys keep their insertion order.
#[derive(Debug)]
pub enum Json {
    Null,
    Bool(bool),
    Number(JsonNumber),
    String(String),
    Array(Vec<Json>),
    Object(Vec<(String, Json)>),
}

/// A JSON value with its strings as character sequences.
pub enum JsonView {
    Null,
    Bool(bool),
    Number(JsonNumber),
    Str(Seq<char>),
    Array(Seq<JsonView>),
    Object(Seq<(Seq<char>, JsonView)>),
}

impl Json {
    pub open spec fn view(self) -> JsonView
        decreases self, 0int,
    {
        match self {
            Json::Null => JsonView::Null,
            Json::Bool(b) => JsonView::Bool(b),
            Json::Number(n) => JsonView::Number(n),
            Json::String(s) => JsonView::Str(s@),
            Json::Array(vs) => JsonView::Array(Json::views(vs@, vs@.len() as int)),
            Json::Object(es) => JsonView::Object(Json::entry_views(es@, es@.len() as int)),
        }
    }

    /// The views of the first `n` values.
    pub open spec fn views(vs: Seq<Json>, n: int) -> Seq<JsonView>
        decreases vs, n,
    {
        if n <= 0 || n > vs.len() {
            Seq::empty()
        } else {
            Json::views(vs, n - 1).push(vs[n - 1].view())
        }
    }

    /// The views of the first `n` object entries.
    pub open spec fn entry_views(es: Seq<(String, Json)>, n: int) -> Seq<(Seq<char>, JsonView)>
        decreases es, n,
    {
        if n <= 0 || n > es.len() {
            Seq::empty()
        } else {
            Json::entry_views(es, n - 1).push((es[n - 1].0@, es[n - 1].1.view()))
        }
    }

    pub proof fn lemma_entry_views_index(es: Seq<(String, Json)>, n: int, k: int)
        requires
            0 <= k < n <= es.len(),
        ensures
            Json::entry_views(es, n).len() == n,
            Json::entry_views(es, n)[k] == (es[k].0@, es[k].1.view()),
        decreases n,
    {
        if k < n - 1 {
            Json::lemma_entry_views_index(es, n - 1, k);
        }
        Json::lemma_entry_views_len(es, n - 1);
    }

    pub proof fn lemma_entry_views_len(es: Seq<(String, Json)>, n: int)
        requires
            0 <= n <= es.len(),
        ensures
            Json::entry_views(es, n).len() == n,
        decreases n,
    {
        if n > 0 {
            Json::lemma_entry_views_len(es, n - 1);
        }
    }

    pub proof fn lemma_views_index(vs: Seq<Json>, n: int, k: int)
        requires
            0 <= k < n <= vs.len(),
        ensures
            Json::views(vs, n).len() == n,
            Json::views(vs, n)[k] == vs[k].view(),
        decreases n,
    {
        if k < n - 1 {
            Json::lemma_views_index(vs, n - 1, k);
        }
        Json::lemma_views_len(vs, n - 1);
    }

    pub proof fn lemma_views_len(vs: Seq<Json>, n: int)
        requires
            0 <= n <= vs.len(),
        ensures
            Json::views(vs, n).len() == n,
        decreases n,
    {
        if n > 0 {
            Json::lemma_views_len(vs, n - 1);
        }
    }

    pub proof fn lemma_views_agree(a: Seq<Json>, b: Seq<Json>, n: int)
        requires
            0 <= n <= a.len(),
            n <= b.len(),
            forall|k: int| 0 <= k < n ==> (#[trigger] a[k]).view() == b[k].view(),
        ensures
            Json::views(a, n) == Json::views(b, n),
        decreases n,
    {
        if n > 0 {
            Json::lemma_views_agree(a, b, n - 1);
        }
    }

    pub proof fn lemma_entry_views_agree(a: Seq<(String, Json)>, b: Seq<(String, Json)>, n: int)
        requires
            0 <= n <= a.len(),
            n <= b.len(),
            forall|k: int|
                0 <= k < n ==> (#[trigger] a[k]).0@ == b[k].0@ && a[k].1.view() == b[k].1.view(),
        ensures
            Json::entry_views(a, n) == Json::entry_views(b, n),
        decreases n,
    {
        if n > 0 {
            Json::lemma_entry_views_agree(a, b, n - 1);
        }
    }
}

} // verus!
