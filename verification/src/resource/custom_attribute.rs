//! Custom attributes are managed in registry mode.
//!
//! Braze creates an attribute when traffic first carries its name; there is
//! no call that declares one. The only change that can be pushed is the
//! deprecation flag.

use crate::braze::custom_attribute::{attribute_type, first_word_tells_the_type, unknown_word};
use crate::order::{stable_sort, stable_sort_of, views, Named, Ranked};
use crate::resource::catalog::{clone_opt, CatalogFieldType};
use crate::text::{
    is_white, lower, opt_text, str_lt, text_lt, unparted_text_is_one_word, words, Strip,
};
use vstd::prelude::*;

verus! {

#[derive(Debug, PartialEq)]
pub struct CustomAttributeRegistry {
    pub attributes: Vec<CustomAttribute>,
}

#[derive(Debug, PartialEq)]
pub struct CustomAttribute {
    pub name: String,
    pub attribute_type: CustomAttributeType,
    pub description: Option<String>,
    /// Marks the attribute deprecated. The only change `apply` performs.
    pub deprecated: bool,
}

#[derive(Debug, Clone, Copy, PartialEq, Eq, Structural)]
pub enum CustomAttributeType {
    String,
    Number,
    Boolean,
    Time,
    Array,
    Object,
    ObjectArray,
}

/// What a custom attribute is.
#[verifier::ext_equal]
pub struct CustomAttributeView {
    pub name: Seq<char>,
    pub attribute_type: CustomAttributeType,
    pub description: Option<Seq<char>>,
    pub deprecated: bool,
}

impl View for CustomAttribute {
    type V = CustomAttributeView;

    open spec fn view(&self) -> CustomAttributeView {
        CustomAttributeView {
            name: self.name@,
            attribute_type: self.attribute_type,
            description: opt_text(self.description),
            deprecated: self.deprecated,
        }
    }
}

/// A registry is the sequence of its attributes.
impl View for CustomAttributeRegistry {
    type V = Seq<CustomAttributeView>;

    open spec fn view(&self) -> Seq<CustomAttributeView> {
        views(self.attributes@)
    }
}

impl Clone for CustomAttribute {
    fn clone(&self) -> (r: Self)
        ensures
            r@ == self@,
    {
        CustomAttribute {
            name: self.name.clone(),
            attribute_type: self.attribute_type,
            description: clone_opt(&self.description),
            deprecated: self.deprecated,
        }
    }
}

impl Clone for CustomAttributeRegistry {
    fn clone(&self) -> (r: Self)
        ensures
            r@ == self@,
    {
        CustomAttributeRegistry { attributes: clone_attributes(&self.attributes) }
    }
}

/// A copy of a list of attributes.
pub fn clone_attributes(v: &Vec<CustomAttribute>) -> (r: Vec<CustomAttribute>)
    ensures
        views(r@) == views(v@),
{
    let mut out: Vec<CustomAttribute> = Vec::new();
    let mut i: usize = 0;
    while i < v.len()
        invariant
            i <= v@.len(),
            out@.len() == i,
            forall|j: int| 0 <= j < i ==> (#[trigger] out@[j])@ == v@[j]@,
        decreases v@.len() - i,
    {
        out.push(v[i].clone());
        i = i + 1;
    }
    assert(views(out@) =~= views(v@));
    out
}

impl Named for CustomAttribute {
    open spec fn name_of(v: CustomAttributeView) -> Seq<char> {
        v.name
    }

    fn name_ref(&self) -> (r: &String) {
        &self.name
    }
}

impl Ranked for CustomAttribute {
    open spec fn lt(a: CustomAttributeView, b: CustomAttributeView) -> bool {
        text_lt(a.name, b.name)
    }

    proof fn lt_irreflexive(a: CustomAttributeView) {
        crate::text::lemma_text_lt_irreflexive(a.name);
    }

    proof fn lt_transitive(
        a: CustomAttributeView,
        b: CustomAttributeView,
        c: CustomAttributeView,
    ) {
        crate::text::lemma_text_lt_transitive(a.name, b.name, c.name);
    }

    proof fn lt_splits(a: CustomAttributeView, b: CustomAttributeView, c: CustomAttributeView) {
        crate::text::lemma_text_lt_splits(a.name, b.name, c.name);
    }

    fn precedes(&self, other: &Self) -> (r: bool) {
        str_lt(self.name.as_str(), other.name.as_str())
    }
}

impl CustomAttributeType {
    /// The word for the type in registries and reports.
    pub open spec fn word(self) -> Seq<char> {
        match self {
            CustomAttributeType::String => "string"@,
            CustomAttributeType::Number => "number"@,
            CustomAttributeType::Boolean => "boolean"@,
            CustomAttributeType::Time => "time"@,
            CustomAttributeType::Array => "array"@,
            CustomAttributeType::Object => "object"@,
            CustomAttributeType::ObjectArray => "object_array"@,
        }
    }

    /// The lowercase word for this attribute type.
    pub fn as_str(self) -> (r: &'static str)
        ensures
            r@ == self.word(),
    {
        match self {
            CustomAttributeType::String => "string",
            CustomAttributeType::Number => "number",
            CustomAttributeType::Boolean => "boolean",
            CustomAttributeType::Time => "time",
            CustomAttributeType::Array => "array",
            CustomAttributeType::Object => "object",
            CustomAttributeType::ObjectArray => "object_array",
        }
    }
}

impl CustomAttributeRegistry {
    /// A copy with the attributes sorted by name.
    pub fn normalized(&self) -> (r: Self)
        ensures
            stable_sort_of::<CustomAttribute>(self@, r@),
    {
        CustomAttributeRegistry { attributes: stable_sort(clone_attributes(&self.attributes)) }
    }
}

/// The word for a type is read back as that type where it comes as a data
/// type from Braze, and fields of catalogs use the same words.
pub proof fn type_words_are_read_back(t: CustomAttributeType)
    ensures
        attribute_type(t.word()) == t,
        unknown_word(t.word()) is None,
        CatalogFieldType::String.word() == CustomAttributeType::String.word(),
        CatalogFieldType::Number.word() == CustomAttributeType::Number.word(),
        CatalogFieldType::Boolean.word() == CustomAttributeType::Boolean.word(),
        CatalogFieldType::Time.word() == CustomAttributeType::Time.word(),
        CatalogFieldType::Array.word() == CustomAttributeType::Array.word(),
        CatalogFieldType::Object.word() == CustomAttributeType::Object.word(),
{
    reveal_strlit("string");
    reveal_strlit("number");
    reveal_strlit("boolean");
    reveal_strlit("time");
    reveal_strlit("array");
    reveal_strlit("object");
    reveal_strlit("object_array");
    reveal_strlit("object array");
    let w = t.word();
    assert(lower(w) =~= w);
    assert(forall|i: int| 0 <= i < w.len() ==> !is_white(#[trigger] w[i]));
    unparted_text_is_one_word(w, Strip::White);
    assert(words(lower(w), Strip::White)[0] == w);
    if t is ObjectArray {
        assert("object_array"@ =~= w.take(12));
    } else {
        assert(w.len() < 12);
        first_word_tells_the_type(w, w);
        assert(w == "string"@ || w == "number"@ || w == "boolean"@ || w == "time"@ || w
            == "array"@ || w == "object"@);
        assert("string"@[0] == 's');
        assert("number"@[0] == 'n');
        assert("boolean"@[0] == 'b');
        assert("time"@[0] == 't');
        assert("array"@[0] == 'a');
        assert("object"@[0] == 'o');
        match t {
            CustomAttributeType::String => {
                assert(w[0] == 's');
                lemma_string_is_no_other_word();
            },
            _ => {},
        }
    }
}

proof fn lemma_string_is_no_other_word()
    ensures
        "string"@ != "integer"@,
        "string"@ != "float"@,
        "string"@ != "bool"@,
        "string"@ != "date"@,
{
    reveal_strlit("string");
    reveal_strlit("integer");
    reveal_strlit("float");
    reveal_strlit("bool");
    reveal_strlit("date");
    assert("string"@.len() == 6);
    assert("integer"@.len() == 7);
    assert("float"@.len() == 5);
    assert("bool"@.len() == 4);
    assert("date"@.len() == 4);
}

} // verus!
