use vstd::prelude::*;

verus! {

broadcast use vstd::std_specs::vec::axiom_vec_index_decreases;

/// A number as it appears in a document.
#[derive(Debug)]
pub enum JsonNumber {
    /// A literal with no `.`, `e` or `E`, read as a 64-bit signed integer.
    Integer(i64),
    /// A literal with a `.`, an `e` or an `E`, kept as its text once it has been
    /// checked against the floating-point literal grammar.
    Decimal(String),
}

/// A parsed JSON value. Each object and array owns its children.
#[derive(Debug)]
pub enum JsonValue {
    /// Members in document order; keys may repeat.
    Object(Vec<(String, JsonValue)>),
    Array(Vec<JsonValue>),
    /// The text between the quotes, escape sequences kept as written.
    String(String),
    Number(JsonNumber),
    Boolean(bool),
    Null,
}

/// The mathematical model of a value.
pub enum JsonTree {
    Object(Seq<(Seq<char>, JsonTree)>),
    Array(Seq<JsonTree>),
    String(Seq<char>),
    Integer(int),
    Decimal(Seq<char>),
    Boolean(bool),
    Null,
}

impl JsonNumber {
    pub open spec fn tree(&self) -> JsonTree {
        match self {
            JsonNumber::Integer(v) => JsonTree::Integer(*v as int),
            JsonNumber::Decimal(t) => JsonTree::Decimal(t@),
        }
    }
}

impl JsonValue {
    pub open spec fn tree(&self) -> JsonTree
        decreases self,
    {
        match self {
            JsonValue::Object(m) => JsonTree::Object(
                Seq::new(
                    m.len() as nat,
                    |k: int|
                        if 0 <= k < m.len() {
                            (m[k].0@, m[k].1.tree())
                        } else {
                            (Seq::empty(), JsonTree::Null)
                        },
                ),
            ),
            JsonValue::Array(a) => JsonTree::Array(
                Seq::new(
                    a.len() as nat,
                    |k: int|
                        if 0 <= k < a.len() {
                            a[k].tree()
                        } else {
                            JsonTree::Null
                        },
                ),
            ),
            JsonValue::String(t) => JsonTree::String(t@),
            JsonValue::Number(n) => n.tree(),
            JsonValue::Boolean(b) => JsonTree::Boolean(*b),
            JsonValue::Null => JsonTree::Null,
        }
    }
}

impl View for JsonValue {
    type V = JsonTree;

    open spec fn view(&self) -> JsonTree {
        self.tree()
    }
}

/// The model of a list of members.
pub open spec fn members_view(m: Seq<(String, JsonValue)>) -> Seq<(Seq<char>, JsonTree)> {
    Seq::new(m.len(), |k: int| (m[k].0@, m[k].1@))
}

/// The model of a list of elements.
pub open spec fn elements_view(a: Seq<JsonValue>) -> Seq<JsonTree> {
    Seq::new(a.len(), |k: int| a[k]@)
}

pub proof fn lemma_object_view(m: Vec<(String, JsonValue)>)
    ensures
        JsonValue::Object(m)@ == JsonTree::Object(members_view(m@)),
{
    let t = JsonValue::Object(m)@;
    assert(t->Object_0 =~= members_view(m@));
}

pub proof fn lemma_array_view(a: Vec<JsonValue>)
    ensures
        JsonValue::Array(a)@ == JsonTree::Array(elements_view(a@)),
{
    let t = JsonValue::Array(a)@;
    assert(t->Array_0 =~= elements_view(a@));
}

} // verus!
