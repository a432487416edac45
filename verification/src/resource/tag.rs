//! Tags are managed in registry mode, derived from references on other
//! resources.
//!
//! Braze exposes no call that lists or creates workspace tags. The registry
//! declares which tags resources may reference, so that `apply` can refuse
//! an undeclared one before it writes anything.

use crate::order::{find_last_named, names_of, stable_sort, stable_sort_of, views, Named, Ranked};
use crate::resource::catalog::clone_opt;
use crate::text::{opt_text, str_lt, text_lt};
use vstd::prelude::*;

verus! {

#[derive(Debug, PartialEq)]
pub struct TagRegistry {
    pub tags: Vec<Tag>,
}

#[derive(Debug, PartialEq)]
pub struct Tag {
    pub name: String,
    pub description: Option<String>,
}

/// What a declared tag is.
#[verifier::ext_equal]
pub struct TagView {
    pub name: Seq<char>,
    pub description: Option<Seq<char>>,
}

impl View for Tag {
    type V = TagView;

    open spec fn view(&self) -> TagView {
        TagView { name: self.name@, description: opt_text(self.description) }
    }
}

/// A registry is the sequence of its tags.
impl View for TagRegistry {
    type V = Seq<TagView>;

    open spec fn view(&self) -> Seq<TagView> {
        views(self.tags@)
    }
}

impl Clone for Tag {
    fn clone(&self) -> (r: Self)
        ensures
            r@ == self@,
    {
        Tag { name: self.name.clone(), description: clone_opt(&self.description) }
    }
}

impl Clone for TagRegistry {
    fn clone(&self) -> (r: Self)
        ensures
            r@ == self@,
    {
        let mut out: Vec<Tag> = Vec::new();
        let mut i: usize = 0;
        while i < self.tags.len()
            invariant
                i <= self.tags@.len(),
                out@.len() == i,
                forall|j: int| 0 <= j < i ==> (#[trigger] out@[j])@ == self.tags@[j]@,
            decreases self.tags@.len() - i,
        {
            out.push(self.tags[i].clone());
            i = i + 1;
        }
        assert(views(out@) =~= self@);
        TagRegistry { tags: out }
    }
}

impl Named for Tag {
    open spec fn name_of(v: TagView) -> Seq<char> {
        v.name
    }

    fn name_ref(&self) -> (r: &String) {
        &self.name
    }
}

impl Ranked for Tag {
    open spec fn lt(a: TagView, b: TagView) -> bool {
        text_lt(a.name, b.name)
    }

    proof fn lt_irreflexive(a: TagView) {
        crate::text::lemma_text_lt_irreflexive(a.name);
    }

    proof fn lt_transitive(a: TagView, b: TagView, c: TagView) {
        crate::text::lemma_text_lt_transitive(a.name, b.name, c.name);
    }

    proof fn lt_splits(a: TagView, b: TagView, c: TagView) {
        crate::text::lemma_text_lt_splits(a.name, b.name, c.name);
    }

    fn precedes(&self, other: &Self) -> (r: bool) {
        str_lt(self.name.as_str(), other.name.as_str())
    }
}

impl TagRegistry {
    /// A copy with the tags sorted by name.
    pub fn normalized(&self) -> (r: Self)
        ensures
            stable_sort_of::<Tag>(self@, r@),
    {
        let copy = self.clone();
        TagRegistry { tags: stable_sort(copy.tags) }
    }

    /// Whether the registry declares the name.
    pub fn contains(&self, name: &str) -> (r: bool)
        ensures
            r == names_of::<Tag>(self@).contains(name@),
    {
        proof {
            crate::order::lemma_last_named_some::<Tag>(self@, name@);
        }
        find_last_named(&self.tags, name).is_some()
    }
}

} // verus!
