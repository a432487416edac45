//! Email template diff.
//!
//! `description` takes no part in the comparison: Braze returns it but
//! neither create nor update can set it, so a local one would otherwise be
//! drift forever.

use crate::diff::{compute_text_diff, opt_str_eq, tags_eq_unordered, text_diff_of, DiffOp, TextDiffSummary};
use crate::resource::email_template::EmailTemplateView;
use crate::resource::EmailTemplate;
use crate::text::{owned, text_or_empty};
use vstd::prelude::*;

verus! {

#[derive(Debug)]
pub struct EmailTemplateDiff {
    pub name: String,
    pub op: DiffOp<EmailTemplate>,
    pub subject_changed: bool,
    pub body_html_diff: Option<TextDiffSummary>,
    pub body_plaintext_diff: Option<TextDiffSummary>,
    pub metadata_changed: bool,
    /// True when present in Braze but missing from Git.
    pub orphan: bool,
}

/// What an email template diff is.
#[verifier::ext_equal]
pub struct EmailTemplateDiffView {
    pub name: Seq<char>,
    pub op: DiffOp<EmailTemplateView>,
    pub subject_changed: bool,
    pub body_html_diff: Option<TextDiffSummary>,
    pub body_plaintext_diff: Option<TextDiffSummary>,
    pub metadata_changed: bool,
    pub orphan: bool,
}

impl View for EmailTemplateDiff {
    type V = EmailTemplateDiffView;

    open spec fn view(&self) -> EmailTemplateDiffView {
        EmailTemplateDiffView {
            name: self.name@,
            op: self.op@,
            subject_changed: self.subject_changed,
            body_html_diff: self.body_html_diff,
            body_plaintext_diff: self.body_plaintext_diff,
            metadata_changed: self.metadata_changed,
            orphan: self.orphan,
        }
    }
}

impl EmailTemplateDiffView {
    pub open spec fn has_changes(self) -> bool {
        ||| self.op !is Unchanged
        ||| self.subject_changed
        ||| self.body_html_diff is Some
        ||| self.body_plaintext_diff is Some
        ||| self.metadata_changed
        ||| self.orphan
    }

    /// A diff that only says what happens to the template as a whole.
    pub open spec fn plain(
        name: Seq<char>,
        op: DiffOp<EmailTemplateView>,
        orphan: bool,
    ) -> EmailTemplateDiffView {
        EmailTemplateDiffView {
            name,
            op,
            subject_changed: false,
            body_html_diff: None,
            body_plaintext_diff: None,
            metadata_changed: false,
            orphan,
        }
    }

    /// The diff of a template that only Braze has.
    pub open spec fn orphaned(name: Seq<char>) -> EmailTemplateDiffView {
        EmailTemplateDiffView::plain(name, DiffOp::Unchanged, true)
    }
}

impl EmailTemplateDiff {
    pub fn has_changes(&self) -> (r: bool)
        ensures
            r == self@.has_changes(),
    {
        self.op.is_change() || self.subject_changed || self.body_html_diff.is_some()
            || self.body_plaintext_diff.is_some() || self.metadata_changed || self.orphan
    }

    pub fn is_orphan(&self) -> (r: bool)
        ensures
            r == self@.orphan,
    {
        self.orphan
    }

    /// The diff of a template that only Braze has. Braze cannot delete a
    /// template, so `op` stays `Unchanged` and the flag carries the meaning.
    pub fn orphan(name: &str) -> (r: Self)
        ensures
            r@ == EmailTemplateDiffView::orphaned(name@),
    {
        EmailTemplateDiff {
            name: owned(name),
            op: DiffOp::Unchanged,
            subject_changed: false,
            body_html_diff: None,
            body_plaintext_diff: None,
            metadata_changed: false,
            orphan: true,
        }
    }
}

/// Two templates agree in preheader, CSS inlining and tags.
pub open spec fn metadata_eq(a: EmailTemplateView, b: EmailTemplateView) -> bool {
    &&& text_or_empty(a.preheader) == text_or_empty(b.preheader)
    &&& a.should_inline_css == b.should_inline_css
    &&& a.tags.to_multiset() == b.tags.to_multiset()
}

/// Two templates agree in everything braze-sync can push: tags as a
/// multiset, an absent preheader as an empty one, `description` not at all.
pub open spec fn syncable_eq(a: EmailTemplateView, b: EmailTemplateView) -> bool {
    &&& a.name == b.name
    &&& a.subject == b.subject
    &&& a.body_html == b.body_html
    &&& a.body_plaintext == b.body_plaintext
    &&& metadata_eq(a, b)
}

/// `d` is the line summary of a body, present exactly when it changed.
pub open spec fn is_body_diff(
    from: Seq<char>,
    to: Seq<char>,
    d: Option<TextDiffSummary>,
) -> bool {
    if from == to {
        d is None
    } else {
        d is Some && text_diff_of(from, to, d->0)
    }
}

/// `d` is what comparing the desired template with the one in Braze gives.
pub open spec fn is_diff(
    local: Option<EmailTemplateView>,
    remote: Option<EmailTemplateView>,
    d: Option<EmailTemplateDiffView>,
) -> bool {
    match (local, remote) {
        (None, None) => d is None,
        (Some(l), None) => d == Some(EmailTemplateDiffView::plain(l.name, DiffOp::Added(l), false)),
        (None, Some(r)) => d == Some(EmailTemplateDiffView::orphaned(r.name)),
        (Some(l), Some(r)) => if syncable_eq(l, r) {
            d == Some(EmailTemplateDiffView::plain(l.name, DiffOp::Unchanged, false))
        } else {
            &&& d is Some
            &&& d->0.name == l.name
            &&& d->0.op == DiffOp::Modified { from: r, to: l }
            &&& d->0.subject_changed == (l.subject != r.subject)
            &&& is_body_diff(r.body_html, l.body_html, d->0.body_html_diff)
            &&& is_body_diff(r.body_plaintext, l.body_plaintext, d->0.body_plaintext_diff)
            &&& d->0.metadata_changed == !metadata_eq(l, r)
            &&& !d->0.orphan
        },
    }
}

/// The model of an optional template.
pub open spec fn opt_view(o: Option<&EmailTemplate>) -> Option<EmailTemplateView> {
    match o {
        Some(c) => Some(c@),
        None => None,
    }
}

/// The model of an optional diff.
pub open spec fn opt_diff_view(o: Option<EmailTemplateDiff>) -> Option<EmailTemplateDiffView> {
    match o {
        Some(d) => Some(d@),
        None => None,
    }
}

/// Compares the desired template with the template in Braze. `None` only when
/// both are absent.
pub fn diff(local: Option<&EmailTemplate>, remote: Option<&EmailTemplate>) -> (r: Option<
    EmailTemplateDiff,
>)
    ensures
        is_diff(opt_view(local), opt_view(remote), opt_diff_view(r)),
{
    match (local, remote) {
        (None, None) => None,
        (Some(l), None) => Some(
            EmailTemplateDiff {
                name: l.name.clone(),
                op: DiffOp::Added(l.clone()),
                subject_changed: false,
                body_html_diff: None,
                body_plaintext_diff: None,
                metadata_changed: false,
                orphan: false,
            },
        ),
        (None, Some(r)) => Some(EmailTemplateDiff::orphan(r.name.as_str())),
        (Some(l), Some(r)) => {
            if is_syncable_eq(l, r) {
                Some(
                    EmailTemplateDiff {
                        name: l.name.clone(),
                        op: DiffOp::Unchanged,
                        subject_changed: false,
                        body_html_diff: None,
                        body_plaintext_diff: None,
                        metadata_changed: false,
                        orphan: false,
                    },
                )
            } else {
                Some(
                    EmailTemplateDiff {
                        name: l.name.clone(),
                        op: DiffOp::Modified { from: r.clone(), to: l.clone() },
                        subject_changed: l.subject != r.subject,
                        body_html_diff: body_diff(&r.body_html, &l.body_html),
                        body_plaintext_diff: body_diff(&r.body_plaintext, &l.body_plaintext),
                        metadata_changed: !is_metadata_eq(l, r),
                        orphan: false,
                    },
                )
            }
        },
    }
}

fn body_diff(from: &String, to: &String) -> (r: Option<TextDiffSummary>)
    ensures
        is_body_diff(from@, to@, r),
{
    if *from != *to {
        Some(compute_text_diff(from.as_str(), to.as_str()))
    } else {
        None
    }
}

/// Equality in the fields braze-sync can push.
pub fn is_syncable_eq(a: &EmailTemplate, b: &EmailTemplate) -> (r: bool)
    ensures
        r == syncable_eq(a@, b@),
{
    a.name == b.name && a.subject == b.subject && a.body_html == b.body_html && a.body_plaintext
        == b.body_plaintext && is_metadata_eq(a, b)
}

/// Equality in preheader, CSS inlining and tags.
pub fn is_metadata_eq(a: &EmailTemplate, b: &EmailTemplate) -> (r: bool)
    ensures
        r == metadata_eq(a@, b@),
{
    opt_str_eq(&a.preheader, &b.preheader) && opt_bool_eq(a.should_inline_css, b.should_inline_css)
        && tags_eq_unordered(&a.tags, &b.tags)
}

fn opt_bool_eq(a: Option<bool>, b: Option<bool>) -> (r: bool)
    ensures
        r == (a == b),
{
    match (a, b) {
        (Some(x), Some(y)) => x == y,
        (None, None) => true,
        _ => false,
    }
}

/// A template on both sides is changed exactly when the sides differ in what
/// braze-sync can push.
pub proof fn changed_exactly_when_different(
    l: EmailTemplateView,
    r: EmailTemplateView,
    d: EmailTemplateDiffView,
)
    requires
        is_diff(Some(l), Some(r), Some(d)),
    ensures
        d.has_changes() == !syncable_eq(l, r),
        !d.orphan,
{
}

/// The descriptions of two templates have no part in whether they are
/// changed.
pub proof fn description_is_not_drift(
    l: EmailTemplateView,
    r: EmailTemplateView,
    ld: Option<Seq<char>>,
    rd: Option<Seq<char>>,
    d: EmailTemplateDiffView,
    e: EmailTemplateDiffView,
)
    requires
        is_diff(Some(l), Some(r), Some(d)),
        is_diff(
            Some(EmailTemplateView { description: ld, ..l }),
            Some(EmailTemplateView { description: rd, ..r }),
            Some(e),
        ),
    ensures
        d.has_changes() == e.has_changes(),
        d.metadata_changed == e.metadata_changed,
{
}

/// The same tags in another order are no change.
pub proof fn tag_order_is_not_drift(
    template: EmailTemplateView,
    tags: Seq<Seq<char>>,
    d: EmailTemplateDiffView,
)
    requires
        tags.to_multiset() == template.tags.to_multiset(),
        is_diff(Some(EmailTemplateView { tags, ..template }), Some(template), Some(d)),
    ensures
        !d.has_changes(),
{
}

/// An empty preheader and none are the same.
pub proof fn empty_preheader_is_no_preheader(
    template: EmailTemplateView,
    d: EmailTemplateDiffView,
    e: EmailTemplateDiffView,
)
    requires
        is_diff(
            Some(EmailTemplateView { preheader: Some(Seq::empty()), ..template }),
            Some(EmailTemplateView { preheader: None, ..template }),
            Some(d),
        ),
        is_diff(
            Some(EmailTemplateView { preheader: None, ..template }),
            Some(EmailTemplateView { preheader: Some(Seq::empty()), ..template }),
            Some(e),
        ),
    ensures
        !d.has_changes(),
        !e.has_changes(),
{
}

/// A template that only Braze has is reported and never written.
pub proof fn remote_only_is_an_orphan(r: EmailTemplateView, d: EmailTemplateDiffView)
    requires
        is_diff(None, Some(r), Some(d)),
    ensures
        d.orphan,
        d.has_changes(),
        d.op is Unchanged,
{
}

/// Every field that braze-sync can push counts: templates that differ in one
/// of them are updated from what Braze has to what Git has, with a note of
/// which part differs, and templates that agree in all of them are left alone.
pub proof fn every_pushed_field_counts(
    l: EmailTemplateView,
    r: EmailTemplateView,
    d: EmailTemplateDiffView,
)
    requires
        is_diff(Some(l), Some(r), Some(d)),
        l.name == r.name,
    ensures
        d.name == l.name,
        !d.orphan,
        d.subject_changed <==> l.subject != r.subject,
        d.body_html_diff is Some <==> l.body_html != r.body_html,
        d.body_plaintext_diff is Some <==> l.body_plaintext != r.body_plaintext,
        d.metadata_changed <==> text_or_empty(l.preheader) != text_or_empty(r.preheader)
            || l.should_inline_css != r.should_inline_css || l.tags.to_multiset()
            != r.tags.to_multiset(),
        d.op is Unchanged <==> !d.subject_changed && d.body_html_diff is None
            && d.body_plaintext_diff is None && !d.metadata_changed,
        d.op !is Unchanged ==> d.op == (DiffOp::Modified { from: r, to: l }),
        d.body_html_diff matches Some(t) ==> t.additions == crate::diff::count_changes(
            crate::diff::line_changes_between(r.body_html, l.body_html),
            crate::diff::LineChange::Inserted,
        ) && t.deletions == crate::diff::count_changes(
            crate::diff::line_changes_between(r.body_html, l.body_html),
            crate::diff::LineChange::Deleted,
        ),
        d.body_plaintext_diff matches Some(t) ==> t.additions == crate::diff::count_changes(
            crate::diff::line_changes_between(r.body_plaintext, l.body_plaintext),
            crate::diff::LineChange::Inserted,
        ) && t.deletions == crate::diff::count_changes(
            crate::diff::line_changes_between(r.body_plaintext, l.body_plaintext),
            crate::diff::LineChange::Deleted,
        ),
{
}

/// A template that only Git has is created as it is there.
pub proof fn local_only_is_added(l: EmailTemplateView, d: EmailTemplateDiffView)
    requires
        is_diff(Some(l), None, Some(d)),
    ensures
        d.name == l.name,
        d.op == DiffOp::Added(l),
        !d.orphan,
        d.has_changes(),
{
}

/// A diff has changes exactly where one of its parts says so.
pub proof fn changes_are_parts_or_orphans(d: EmailTemplateDiffView)
    ensures
        d.has_changes() <==> d.orphan || d.op is Added || d.op is Modified || d.op is Removed
            || d.subject_changed || d.body_html_diff is Some || d.body_plaintext_diff is Some
            || d.metadata_changed,
        EmailTemplateDiffView::orphaned(d.name).orphan,
        EmailTemplateDiffView::orphaned(d.name).name == d.name,
        EmailTemplateDiffView::orphaned(d.name).op is Unchanged,
{
}

} // verus!
