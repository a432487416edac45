//! Catalog schema domain types.

use crate::order::{stable_sort, stable_sort_of, views, Named, Ranked};
use crate::text::{opt_text, str_lt, text_lt};
use vstd::prelude::*;

verus! {

#[derive(Debug, PartialEq)]
pub struct Catalog {
    pub name: String,
    pub description: Option<String>,
    pub fields: Vec<CatalogField>,
}

#[derive(Debug, PartialEq, Eq, Hash)]
pub struct CatalogField {
    pub name: String,
    pub field_type: CatalogFieldType,
}

#[derive(Debug, Clone, Copy, PartialEq, Eq, Hash, Structural)]
pub enum CatalogFieldType {
    String,
    Number,
    Boolean,
    Time,
    Object,
    Array,
    /// Catch-all for field types this version does not know. Keeps a
    /// workspace readable when Braze adds a type; the original type name
    /// is not preserved.
    Unknown,
}

/// What a catalog is.
#[verifier::ext_equal]
pub struct CatalogView {
    pub name: Seq<char>,
    pub description: Option<Seq<char>>,
    pub fields: Seq<CatalogFieldView>,
}

/// What a catalog field is.
#[verifier::ext_equal]
pub struct CatalogFieldView {
    pub name: Seq<char>,
    pub field_type: CatalogFieldType,
}

impl View for CatalogField {
    type V = CatalogFieldView;

    open spec fn view(&self) -> CatalogFieldView {
        CatalogFieldView { name: self.name@, field_type: self.field_type }
    }
}

impl View for Catalog {
    type V = CatalogView;

    open spec fn view(&self) -> CatalogView {
        CatalogView {
            name: self.name@,
            description: opt_text(self.description),
            fields: views(self.fields@),
        }
    }
}

impl Clone for CatalogField {
    fn clone(&self) -> (r: Self)
        ensures
            r@ == self@,
    {
        CatalogField { name: self.name.clone(), field_type: self.field_type }
    }
}

impl Clone for Catalog {
    fn clone(&self) -> (r: Self)
        ensures
            r@ == self@,
    {
        let r = Catalog {
            name: self.name.clone(),
            description: clone_opt(&self.description),
            fields: clone_fields(&self.fields),
        };
        assert(r@ =~= self@);
        r
    }
}

/// A copy of an optional string.
pub fn clone_opt(o: &Option<String>) -> (r: Option<String>)
    ensures
        opt_text(r) == opt_text(*o),
{
    match o {
        Some(s) => Some(s.clone()),
        None => None,
    }
}

/// A copy of a list of fields.
pub fn clone_fields(v: &Vec<CatalogField>) -> (r: Vec<CatalogField>)
    ensures
        views(r@) == views(v@),
{
    let mut out: Vec<CatalogField> = Vec::new();
    let mut i: usize = 0;
    while i < v.len()
        invariant
            i <= v@.len(),
            out@.len() == i,
            forall|j: int| 0 <= j < i ==> (#[trigger] out@[j])@ == v@[j]@,
        decreases v@.len() - i,
    {
        out.push(v[i].clone());
        i = i + 1;
    }
    assert(views(out@) =~= views(v@));
    out
}

impl Named for CatalogField {
    open spec fn name_of(v: CatalogFieldView) -> Seq<char> {
        v.name
    }

    fn name_ref(&self) -> (r: &String) {
        &self.name
    }
}

impl Named for Catalog {
    open spec fn name_of(v: CatalogView) -> Seq<char> {
        v.name
    }

    fn name_ref(&self) -> (r: &String) {
        &self.name
    }
}

impl Ranked for CatalogField {
    open spec fn lt(a: CatalogFieldView, b: CatalogFieldView) -> bool {
        text_lt(a.name, b.name)
    }

    proof fn lt_irreflexive(a: CatalogFieldView) {
        crate::text::lemma_text_lt_irreflexive(a.name);
    }

    proof fn lt_transitive(a: CatalogFieldView, b: CatalogFieldView, c: CatalogFieldView) {
        crate::text::lemma_text_lt_transitive(a.name, b.name, c.name);
    }

    proof fn lt_splits(a: CatalogFieldView, b: CatalogFieldView, c: CatalogFieldView) {
        crate::text::lemma_text_lt_splits(a.name, b.name, c.name);
    }

    fn precedes(&self, other: &Self) -> (r: bool) {
        str_lt(self.name.as_str(), other.name.as_str())
    }
}

impl Ranked for Catalog {
    open spec fn lt(a: CatalogView, b: CatalogView) -> bool {
        text_lt(a.name, b.name)
    }

    proof fn lt_irreflexive(a: CatalogView) {
        crate::text::lemma_text_lt_irreflexive(a.name);
    }

    proof fn lt_transitive(a: CatalogView, b: CatalogView, c: CatalogView) {
        crate::text::lemma_text_lt_transitive(a.name, b.name, c.name);
    }

    proof fn lt_splits(a: CatalogView, b: CatalogView, c: CatalogView) {
        crate::text::lemma_text_lt_splits(a.name, b.name, c.name);
    }

    fn precedes(&self, other: &Self) -> (r: bool) {
        str_lt(self.name.as_str(), other.name.as_str())
    }
}

impl CatalogFieldType {
    /// The wire word for the type.
    pub open spec fn word(self) -> Seq<char> {
        match self {
            CatalogFieldType::String => "string"@,
            CatalogFieldType::Number => "number"@,
            CatalogFieldType::Boolean => "boolean"@,
            CatalogFieldType::Time => "time"@,
            CatalogFieldType::Object => "object"@,
            CatalogFieldType::Array => "array"@,
            CatalogFieldType::Unknown => "unknown"@,
        }
    }

    /// The lowercase wire word for this field type.
    pub fn as_str(self) -> (r: &'static str)
        ensures
            r@ == self.word(),
    {
        match self {
            CatalogFieldType::String => "string",
            CatalogFieldType::Number => "number",
            CatalogFieldType::Boolean => "boolean",
            CatalogFieldType::Time => "time",
            CatalogFieldType::Object => "object",
            CatalogFieldType::Array => "array",
            CatalogFieldType::Unknown => "unknown",
        }
    }
}

/// Different types have different words.
pub proof fn lemma_words_distinct(a: CatalogFieldType, b: CatalogFieldType)
    requires
        a.word() == b.word(),
    ensures
        a == b,
{
    reveal_strlit("string");
    reveal_strlit("number");
    reveal_strlit("boolean");
    reveal_strlit("time");
    reveal_strlit("object");
    reveal_strlit("array");
    reveal_strlit("unknown");
    assert("string"@[0] == 's' && "number"@[0] == 'n' && "boolean"@[0] == 'b');
    assert("time"@[0] == 't' && "object"@[0] == 'o' && "array"@[0] == 'a');
    assert("unknown"@[0] == 'u');
    assert(a.word()[0] == b.word()[0]);
}

impl Catalog {
    /// A copy with the fields sorted by name. Keeps what is written and
    /// compared independent of the order the API answers in.
    pub fn normalized(&self) -> (r: Self)
        ensures
            r@.name == self@.name,
            r@.description == self@.description,
            stable_sort_of::<CatalogField>(self@.fields, r@.fields),
    {
        Catalog {
            name: self.name.clone(),
            description: clone_opt(&self.description),
            fields: stable_sort(clone_fields(&self.fields)),
        }
    }
}

} // verus!
