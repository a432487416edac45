//! Tag diff.
//!
//! Braze has no call for tags. The local registry is compared with the tags
//! that local resources reference.

use crate::order::{contains_str, insert_name, insert_names, names_of, ordered, views};
use crate::resource::tag::TagView;
use crate::resource::{Tag, TagRegistry};
use crate::text::strs;
use vstd::prelude::*;

verus! {

#[derive(Debug)]
pub struct TagDiff {
    pub name: String,
    pub op: TagOp,
    pub hints: Vec<String>,
}

#[derive(Debug, Clone, Copy, PartialEq, Eq, Structural)]
pub enum TagOp {
    /// Referenced by at least one local resource but missing from the
    /// registry. Blocks `apply`.
    ReferencedButUnregistered,
    /// Declared in the registry but no local resource references it.
    RegisteredButUnreferenced,
    Unchanged,
}

/// What a tag diff is.
#[verifier::ext_equal]
pub struct TagDiffView {
    pub name: Seq<char>,
    pub op: TagOp,
    pub hints: Seq<Seq<char>>,
}

impl View for TagDiff {
    type V = TagDiffView;

    open spec fn view(&self) -> TagDiffView {
        TagDiffView { name: self.name@, op: self.op, hints: strs(self.hints@) }
    }
}

impl TagDiff {
    pub fn has_changes(&self) -> (r: bool)
        ensures
            r == (self@.op != TagOp::Unchanged),
    {
        self.op != TagOp::Unchanged
    }
}

/// The tags a registry declares; none where there is no registry.
pub open spec fn declared(local: Option<&TagRegistry>) -> Seq<TagView> {
    match local {
        Some(r) => r@,
        None => Seq::empty(),
    }
}

/// The names of the declared tags.
pub open spec fn declared_names(local: Option<&TagRegistry>) -> Set<Seq<char>> {
    names_of::<Tag>(declared(local)).to_set()
}

/// The diff of one tag name.
pub open spec fn diff_of(
    registered: Set<Seq<char>>,
    referenced: Set<Seq<char>>,
    name: Seq<char>,
) -> TagDiffView {
    TagDiffView {
        name,
        op: if !registered.contains(name) {
            TagOp::ReferencedButUnregistered
        } else if !referenced.contains(name) {
            TagOp::RegisteredButUnreferenced
        } else {
            TagOp::Unchanged
        },
        hints: Seq::empty(),
    }
}

/// Compares the registry with the tags that local resources reference: one
/// diff for each name that is declared or referenced, in ascending order.
pub fn diff(local: Option<&TagRegistry>, referenced: &Vec<String>) -> (r: Vec<TagDiff>)
    ensures
        views(r@) == ordered(declared_names(local).union(strs(referenced@).to_set())).map_values(
            |n: Seq<char>| diff_of(declared_names(local), strs(referenced@).to_set(), n),
        ),
{
    let ghost reg = declared_names(local);
    let ghost refs = strs(referenced@);
    let mut names: Vec<String> = Vec::new();
    assert(strs(names@) =~= Seq::empty());
    if let Some(r) = local {
        insert_names(&mut names, &r.tags);
    }
    assert(strs(names@).to_set() =~= reg);
    let mut i: usize = 0;
    assert(reg.union(refs.take(0).to_set()) =~= reg);
    while i < referenced.len()
        invariant
            i <= referenced@.len(),
            refs == strs(referenced@),
            crate::order::ascending(strs(names@)),
            strs(names@).to_set() == reg.union(refs.take(i as int).to_set()),
        decreases referenced@.len() - i,
    {
        insert_name(&mut names, referenced[i].as_str());
        proof {
            let t = refs.take(i as int);
            assert(refs.take(i + 1) =~= t.push(refs[i as int]));
            crate::order::lemma_push_to_set(t, refs[i as int]);
            assert(reg.union(refs.take(i + 1).to_set()) =~= reg.union(t.to_set()).insert(
                refs[i as int],
            ));
        }
        i = i + 1;
    }
    assert(refs.take(i as int) =~= refs);
    proof {
        crate::order::lemma_ordered_unique(strs(names@), reg.union(refs.to_set()));
    }
    let mut out: Vec<TagDiff> = Vec::new();
    let mut k: usize = 0;
    while k < names.len()
        invariant
            k <= names@.len(),
            out@.len() == k,
            reg == declared_names(local),
            refs == strs(referenced@),
            strs(names@).to_set() == reg.union(refs.to_set()),
            forall|j: int|
                0 <= j < k ==> (#[trigger] out@[j])@ == diff_of(
                    reg,
                    refs.to_set(),
                    strs(names@)[j],
                ),
        decreases names@.len() - k,
    {
        let name = names[k].as_str();
        let in_registry = match local {
            Some(r) => r.contains(name),
            None => false,
        };
        let is_referenced = contains_str(referenced, name);
        assert(strs(names@)[k as int] == name@);
        assert(strs(names@).to_set().contains(name@));
        assert(in_registry == reg.contains(name@));
        assert(is_referenced == refs.to_set().contains(name@));
        let op = if !in_registry {
            TagOp::ReferencedButUnregistered
        } else if !is_referenced {
            TagOp::RegisteredButUnreferenced
        } else {
            TagOp::Unchanged
        };
        let d = TagDiff { name: names[k].clone(), op, hints: Vec::new() };
        assert(d@ =~= diff_of(reg, refs.to_set(), name@));
        out.push(d);
        k = k + 1;
    }
    assert(views(out@) =~= ordered(reg.union(refs.to_set())).map_values(
        |n: Seq<char>| diff_of(reg, refs.to_set(), n),
    ));
    out
}

/// No tag is reported exactly when the registry declares the tags that local
/// resources reference, and no others.
pub proof fn in_sync_exactly_when_equal(registered: Set<Seq<char>>, referenced: Set<Seq<char>>)
    ensures
        (forall|n: Seq<char>|
            registered.union(referenced).contains(n) ==> (#[trigger] diff_of(
                registered,
                referenced,
                n,
            )).op is Unchanged) <==> registered == referenced,
{
    if forall|n: Seq<char>|
        registered.union(referenced).contains(n) ==> (#[trigger] diff_of(
            registered,
            referenced,
            n,
        )).op is Unchanged {
        assert forall|n: Seq<char>| registered.contains(n) == referenced.contains(n) by {
            let d = diff_of(registered, referenced, n);
        }
        assert(registered =~= referenced);
    }
}

/// A tag in use that is not declared blocks, one that is declared and not in
/// use is reported, and one that is both is in order.
pub proof fn report_follows_the_sides(
    registered: Set<Seq<char>>,
    referenced: Set<Seq<char>>,
    name: Seq<char>,
)
    requires
        registered.contains(name) || referenced.contains(name),
    ensures
        diff_of(registered, referenced, name).name == name,
        diff_of(registered, referenced, name).hints.len() == 0,
        diff_of(registered, referenced, name).op is ReferencedButUnregistered
            <==> referenced.contains(name) && !registered.contains(name),
        diff_of(registered, referenced, name).op is RegisteredButUnreferenced
            <==> registered.contains(name) && !referenced.contains(name),
        diff_of(registered, referenced, name).op is Unchanged <==> registered.contains(name)
            && referenced.contains(name),
{
}

} // verus!
