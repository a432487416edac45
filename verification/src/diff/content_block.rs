//! Content block diff.
//!
//! `state` takes no part in the comparison: Braze does not report it, so a
//! local `state: draft` would otherwise be drift forever.

use crate::diff::{compute_text_diff, opt_str_eq, tags_eq_unordered, text_diff_of, DiffOp, TextDiffSummary};
use crate::resource::content_block::ContentBlockView;
use crate::resource::{ContentBlock, ContentBlockState};
use crate::text::{owned, text_or_empty};
use vstd::prelude::*;

verus! {

#[derive(Debug)]
pub struct ContentBlockDiff {
    pub name: String,
    pub op: DiffOp<ContentBlock>,
    pub text_diff: Option<TextDiffSummary>,
    /// True when present in Braze but missing from Git.
    pub orphan: bool,
}

/// What a content block diff is.
#[verifier::ext_equal]
pub struct ContentBlockDiffView {
    pub name: Seq<char>,
    pub op: DiffOp<ContentBlockView>,
    pub text_diff: Option<TextDiffSummary>,
    pub orphan: bool,
}

impl View for ContentBlockDiff {
    type V = ContentBlockDiffView;

    open spec fn view(&self) -> ContentBlockDiffView {
        ContentBlockDiffView {
            name: self.name@,
            op: self.op@,
            text_diff: self.text_diff,
            orphan: self.orphan,
        }
    }
}

impl ContentBlockDiffView {
    pub open spec fn has_changes(self) -> bool {
        self.op !is Unchanged || self.orphan
    }

    /// The diff of a block that only Braze has.
    pub open spec fn orphaned(name: Seq<char>) -> ContentBlockDiffView {
        ContentBlockDiffView { name, op: DiffOp::Unchanged, text_diff: None, orphan: true }
    }
}

impl ContentBlockDiff {
    pub fn has_changes(&self) -> (r: bool)
        ensures
            r == self@.has_changes(),
    {
        self.op.is_change() || self.orphan
    }

    pub fn is_orphan(&self) -> (r: bool)
        ensures
            r == self@.orphan,
    {
        self.orphan
    }

    /// The diff of a block that only Braze has. Braze cannot delete a block,
    /// so `op` stays `Unchanged` and the flag carries the meaning.
    pub fn orphan(name: &str) -> (r: Self)
        ensures
            r@ == ContentBlockDiffView::orphaned(name@),
    {
        ContentBlockDiff { name: owned(name), op: DiffOp::Unchanged, text_diff: None, orphan: true }
    }
}

/// Two blocks agree in everything braze-sync can push: tags as a multiset, an
/// absent description as an empty one, `state` not at all.
pub open spec fn syncable_eq(a: ContentBlockView, b: ContentBlockView) -> bool {
    &&& a.name == b.name
    &&& text_or_empty(a.description) == text_or_empty(b.description)
    &&& a.content == b.content
    &&& a.tags.to_multiset() == b.tags.to_multiset()
}

/// `d` is what comparing the desired block with the block in Braze gives.
pub open spec fn is_diff(
    local: Option<ContentBlockView>,
    remote: Option<ContentBlockView>,
    d: Option<ContentBlockDiffView>,
) -> bool {
    match (local, remote) {
        (None, None) => d is None,
        (Some(l), None) => d == Some(
            ContentBlockDiffView {
                name: l.name,
                op: DiffOp::Added(l),
                text_diff: None,
                orphan: false,
            },
        ),
        (None, Some(r)) => d == Some(ContentBlockDiffView::orphaned(r.name)),
        (Some(l), Some(r)) => if syncable_eq(l, r) {
            d == Some(
                ContentBlockDiffView {
                    name: l.name,
                    op: DiffOp::Unchanged,
                    text_diff: None,
                    orphan: false,
                },
            )
        } else {
            &&& d is Some
            &&& d->0.name == l.name
            &&& d->0.op == DiffOp::Modified { from: r, to: l }
            &&& !d->0.orphan
            &&& if l.content == r.content {
                d->0.text_diff is None
            } else {
                d->0.text_diff is Some && text_diff_of(r.content, l.content, d->0.text_diff->0)
            }
        },
    }
}

/// The model of an optional block.
pub open spec fn opt_view(o: Option<&ContentBlock>) -> Option<ContentBlockView> {
    match o {
        Some(c) => Some(c@),
        None => None,
    }
}

/// The model of an optional diff.
pub open spec fn opt_diff_view(o: Option<ContentBlockDiff>) -> Option<ContentBlockDiffView> {
    match o {
        Some(d) => Some(d@),
        None => None,
    }
}

/// Compares the desired block with the block in Braze. `None` only when both
/// are absent.
pub fn diff(local: Option<&ContentBlock>, remote: Option<&ContentBlock>) -> (r: Option<
    ContentBlockDiff,
>)
    ensures
        is_diff(opt_view(local), opt_view(remote), opt_diff_view(r)),
{
    match (local, remote) {
        (None, None) => None,
        (Some(l), None) => Some(
            ContentBlockDiff {
                name: l.name.clone(),
                op: DiffOp::Added(l.clone()),
                text_diff: None,
                orphan: false,
            },
        ),
        (None, Some(r)) => Some(ContentBlockDiff::orphan(r.name.as_str())),
        (Some(l), Some(r)) => {
            if is_syncable_eq(l, r) {
                Some(
                    ContentBlockDiff {
                        name: l.name.clone(),
                        op: DiffOp::Unchanged,
                        text_diff: None,
                        orphan: false,
                    },
                )
            } else {
                let text_diff = if l.content != r.content {
                    Some(compute_text_diff(r.content.as_str(), l.content.as_str()))
                } else {
                    None
                };
                Some(
                    ContentBlockDiff {
                        name: l.name.clone(),
                        op: DiffOp::Modified { from: r.clone(), to: l.clone() },
                        text_diff,
                        orphan: false,
                    },
                )
            }
        },
    }
}

/// Equality in the fields braze-sync can push.
pub fn is_syncable_eq(a: &ContentBlock, b: &ContentBlock) -> (r: bool)
    ensures
        r == syncable_eq(a@, b@),
{
    a.name == b.name && opt_str_eq(&a.description, &b.description) && a.content == b.content
        && tags_eq_unordered(&a.tags, &b.tags)
}

/// A block on both sides is changed exactly when the sides differ in what
/// braze-sync can push.
pub proof fn changed_exactly_when_different(
    l: ContentBlockView,
    r: ContentBlockView,
    d: ContentBlockDiffView,
)
    requires
        is_diff(Some(l), Some(r), Some(d)),
    ensures
        d.has_changes() == !syncable_eq(l, r),
        !d.orphan,
{
}

/// The states of two blocks have no part in whether they are changed.
pub proof fn state_is_not_drift(
    l: ContentBlockView,
    r: ContentBlockView,
    ls: ContentBlockState,
    rs: ContentBlockState,
    d: ContentBlockDiffView,
    e: ContentBlockDiffView,
)
    requires
        is_diff(Some(l), Some(r), Some(d)),
        is_diff(
            Some(ContentBlockView { state: ls, ..l }),
            Some(ContentBlockView { state: rs, ..r }),
            Some(e),
        ),
    ensures
        d.has_changes() == e.has_changes(),
        d.text_diff is Some == e.text_diff is Some,
{
}

/// The same tags in another order are no change.
pub proof fn tag_order_is_not_drift(
    block: ContentBlockView,
    tags: Seq<Seq<char>>,
    d: ContentBlockDiffView,
)
    requires
        tags.to_multiset() == block.tags.to_multiset(),
        is_diff(Some(ContentBlockView { tags, ..block }), Some(block), Some(d)),
    ensures
        !d.has_changes(),
{
}

/// An empty description and none are the same.
pub proof fn empty_description_is_no_description(
    block: ContentBlockView,
    d: ContentBlockDiffView,
    e: ContentBlockDiffView,
)
    requires
        is_diff(
            Some(ContentBlockView { description: Some(Seq::empty()), ..block }),
            Some(ContentBlockView { description: None, ..block }),
            Some(d),
        ),
        is_diff(
            Some(ContentBlockView { description: None, ..block }),
            Some(ContentBlockView { description: Some(Seq::empty()), ..block }),
            Some(e),
        ),
    ensures
        !d.has_changes(),
        !e.has_changes(),
{
}

/// A block that only Braze has is reported and never written.
pub proof fn remote_only_is_an_orphan(r: ContentBlockView, d: ContentBlockDiffView)
    requires
        is_diff(None, Some(r), Some(d)),
    ensures
        d.orphan,
        d.has_changes(),
        d.op is Unchanged,
{
}

/// Every field that braze-sync can push counts: blocks that differ in one of
/// them are updated from what Braze has to what Git has, and blocks that
/// agree in all of them are left alone.
pub proof fn every_pushed_field_counts(
    l: ContentBlockView,
    r: ContentBlockView,
    d: ContentBlockDiffView,
)
    requires
        is_diff(Some(l), Some(r), Some(d)),
        l.name == r.name,
    ensures
        d.name == l.name,
        !d.orphan,
        (l.content != r.content || l.tags.to_multiset() != r.tags.to_multiset() || text_or_empty(
            l.description,
        ) != text_or_empty(r.description)) ==> d.op == (DiffOp::Modified { from: r, to: l }),
        (l.content == r.content && l.tags.to_multiset() == r.tags.to_multiset() && text_or_empty(
            l.description,
        ) == text_or_empty(r.description)) ==> d.op is Unchanged && d.text_diff is None,
        d.text_diff is Some <==> l.content != r.content,
        d.text_diff matches Some(t) ==> t.additions == crate::diff::count_changes(
            crate::diff::line_changes_between(r.content, l.content),
            crate::diff::LineChange::Inserted,
        ) && t.deletions == crate::diff::count_changes(
            crate::diff::line_changes_between(r.content, l.content),
            crate::diff::LineChange::Deleted,
        ),
{
}

/// A block that only Git has is created as it is there.
pub proof fn local_only_is_added(l: ContentBlockView, d: ContentBlockDiffView)
    requires
        is_diff(Some(l), None, Some(d)),
    ensures
        d.name == l.name,
        d.op == DiffOp::Added(l),
        !d.orphan,
        d.has_changes(),
{
}

/// A diff has changes exactly where the block is to be written or is an
/// orphan.
pub proof fn changes_are_writes_or_orphans(d: ContentBlockDiffView)
    ensures
        d.has_changes() <==> d.orphan || d.op is Added || d.op is Modified || d.op is Removed,
        ContentBlockDiffView::orphaned(d.name).orphan,
        ContentBlockDiffView::orphaned(d.name).name == d.name,
        ContentBlockDiffView::orphaned(d.name).op is Unchanged,
{
}

} // verus!
