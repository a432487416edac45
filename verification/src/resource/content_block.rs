//! Content block domain type. Liquid bodies are opaque text.

use crate::order::{Named, Ranked};
use crate::resource::catalog::clone_opt;
use crate::text::{clone_strs, opt_text, str_lt, strs, text_lt};
use vstd::prelude::*;

verus! {

#[derive(Debug, PartialEq)]
pub struct ContentBlock {
    pub name: String,
    pub description: Option<String>,
    /// Liquid template body. Opaque text.
    pub content: String,
    pub tags: Vec<String>,
    pub state: ContentBlockState,
}

#[derive(Debug, Clone, Copy, PartialEq, Eq, Structural)]
pub enum ContentBlockState {
    Active,
    Draft,
}

/// What a content block is.
#[verifier::ext_equal]
pub struct ContentBlockView {
    pub name: Seq<char>,
    pub description: Option<Seq<char>>,
    pub content: Seq<char>,
    pub tags: Seq<Seq<char>>,
    pub state: ContentBlockState,
}

impl View for ContentBlock {
    type V = ContentBlockView;

    open spec fn view(&self) -> ContentBlockView {
        ContentBlockView {
            name: self.name@,
            description: opt_text(self.description),
            content: self.content@,
            tags: strs(self.tags@),
            state: self.state,
        }
    }
}

impl Clone for ContentBlock {
    fn clone(&self) -> (r: Self)
        ensures
            r@ == self@,
    {
        ContentBlock {
            name: self.name.clone(),
            description: clone_opt(&self.description),
            content: self.content.clone(),
            tags: clone_strs(&self.tags),
            state: self.state,
        }
    }
}

impl Named for ContentBlock {
    open spec fn name_of(v: ContentBlockView) -> Seq<char> {
        v.name
    }

    fn name_ref(&self) -> (r: &String) {
        &self.name
    }
}

impl Ranked for ContentBlock {
    open spec fn lt(a: ContentBlockView, b: ContentBlockView) -> bool {
        text_lt(a.name, b.name)
    }

    proof fn lt_irreflexive(a: ContentBlockView) {
        crate::text::lemma_text_lt_irreflexive(a.name);
    }

    proof fn lt_transitive(a: ContentBlockView, b: ContentBlockView, c: ContentBlockView) {
        crate::text::lemma_text_lt_transitive(a.name, b.name, c.name);
    }

    proof fn lt_splits(a: ContentBlockView, b: ContentBlockView, c: ContentBlockView) {
        crate::text::lemma_text_lt_splits(a.name, b.name, c.name);
    }

    fn precedes(&self, other: &Self) -> (r: bool) {
        str_lt(self.name.as_str(), other.name.as_str())
    }
}

} // verus!
