//! The table: one indented block for each resource, and a summary.

use crate::diff::catalog::{CatalogSchemaDiff, CatalogSchemaDiffView};
use crate::diff::content_block::{ContentBlockDiff, ContentBlockDiffView};
use crate::diff::custom_attribute::{
    CustomAttributeDiff, CustomAttributeDiffView, CustomAttributeOp,
};
use crate::diff::email_template::{EmailTemplateDiff, EmailTemplateDiffView};
use crate::diff::tag::{TagDiff, TagDiffView, TagOp};
use crate::diff::{
    changed_count, destructive_count, in_sync_count, orphan_count, DiffOp, DiffSummary,
    ResourceDiff, ResourceDiffView, TextDiffSummary,
};
use crate::order::views;
use crate::resource::catalog::CatalogFieldView;
use crate::resource::{CatalogField, ResourceKind};
use crate::text::{decimal, decimal_text, occurs_at, occurs_in, owned, str_eq, strs};
use vstd::prelude::*;

verus! {

/// All there is to say of a resource that is in sync.
pub open spec fn no_drift() -> Seq<char> {
    "   no drift\n"@
}

pub open spec fn icon(kind: ResourceKind) -> Seq<char> {
    match kind {
        ResourceKind::CatalogSchema => "📋"@,
        ResourceKind::ContentBlock => "📝"@,
        ResourceKind::EmailTemplate => "📧"@,
        ResourceKind::CustomAttribute => "🏷 "@,
        ResourceKind::Tag => "🔖"@,
    }
}

pub open spec fn label(kind: ResourceKind) -> Seq<char> {
    match kind {
        ResourceKind::CatalogSchema => "Catalog Schema"@,
        ResourceKind::ContentBlock => "Content Block"@,
        ResourceKind::EmailTemplate => "Email Template"@,
        ResourceKind::CustomAttribute => "Custom Attribute"@,
        ResourceKind::Tag => "Tag"@,
    }
}

/// The first line of a block.
pub open spec fn header(d: ResourceDiffView) -> Seq<char> {
    (if d.has_changes() {
        icon(d.kind())
    } else {
        "✅"@
    }) + " "@ + label(d.kind()) + ": "@ + d.name() + "\n"@
}

/// A field with its type.
pub open spec fn field_text(f: CatalogFieldView) -> Seq<char> {
    f.name + " ("@ + f.field_type.word() + ")"@
}

/// The line of a field change.
pub open spec fn field_line(op: DiffOp<CatalogFieldView>) -> Seq<char> {
    match op {
        DiffOp::Added(f) => "   + field: "@ + field_text(f) + "\n"@,
        DiffOp::Removed(f) => "   - field: "@ + field_text(f) + "\n"@,
        DiffOp::Modified { from, to } => "   ~ field: "@ + to.name + " ("@
            + from.field_type.word() + " → "@ + to.field_type.word() + ")\n"@,
        DiffOp::Unchanged => Seq::empty(),
    }
}

/// The lines of field changes.
pub open spec fn field_lines(ops: Seq<DiffOp<CatalogFieldView>>) -> Seq<char>
    decreases ops.len(),
{
    if ops.len() == 0 {
        Seq::empty()
    } else {
        field_lines(ops.drop_last()) + field_line(ops.last())
    }
}

pub open spec fn catalog_lines(d: CatalogSchemaDiffView) -> Seq<char> {
    (match d.op {
        DiffOp::Added(_) => "   + new catalog\n"@,
        DiffOp::Removed(_) => "   - removed catalog (destructive)\n"@,
        _ => Seq::empty(),
    }) + field_lines(d.field_diffs)
}

/// How many lines were added and deleted.
pub open spec fn counts(t: TextDiffSummary) -> Seq<char> {
    " (+"@ + decimal(t.additions as nat) + " -"@ + decimal(t.deletions as nat) + ")\n"@
}

pub open spec fn orphan_line() -> Seq<char> {
    "   ⚠ orphaned (exists in Braze, not in Git)\n"@
}

pub open spec fn block_lines(d: ContentBlockDiffView) -> Seq<char> {
    if d.orphan {
        orphan_line()
    } else {
        match d.op {
            DiffOp::Added(_) => "   + new content block\n"@,
            DiffOp::Removed(_) => "   - removed content block\n"@,
            DiffOp::Modified { .. } => match d.text_diff {
                Some(t) => "   ~ content changed"@ + counts(t),
                None => "   ~ content changed\n"@,
            },
            DiffOp::Unchanged => Seq::empty(),
        }
    }
}

/// The line of a body that changed.
pub open spec fn body_line(what: Seq<char>, t: Option<TextDiffSummary>) -> Seq<char> {
    match t {
        Some(t) => what + counts(t),
        None => Seq::empty(),
    }
}

pub open spec fn template_lines(d: EmailTemplateDiffView) -> Seq<char> {
    if d.orphan {
        orphan_line()
    } else {
        (match d.op {
            DiffOp::Added(_) => "   + new email template\n"@,
            DiffOp::Removed(_) => "   - removed email template\n"@,
            _ => Seq::empty(),
        }) + (if d.subject_changed {
            "   ~ subject changed\n"@
        } else {
            Seq::empty()
        }) + body_line("   ~ body_html changed"@, d.body_html_diff) + body_line(
            "   ~ body_plaintext changed"@,
            d.body_plaintext_diff,
        ) + (if d.metadata_changed {
            "   ~ metadata changed\n"@
        } else {
            Seq::empty()
        })
    }
}

/// The lines of the notes on a resource.
pub open spec fn hint_lines(hints: Seq<Seq<char>>) -> Seq<char>
    decreases hints.len(),
{
    if hints.len() == 0 {
        Seq::empty()
    } else {
        hint_lines(hints.drop_last()) + "   ℹ "@ + hints.last() + "\n"@
    }
}

pub open spec fn flag(b: bool) -> Seq<char> {
    if b {
        "true"@
    } else {
        "false"@
    }
}

pub open spec fn attribute_lines(d: CustomAttributeDiffView) -> Seq<char> {
    (match d.op {
        CustomAttributeOp::DeprecationToggled { from, to } => "   ~ deprecated: "@ + flag(from)
            + " → "@ + flag(to) + "\n"@,
        CustomAttributeOp::UnregisteredInGit =>
        "   ⚠ exists in Braze but not in Git registry (run export)\n"@,
        CustomAttributeOp::PresentInGitOnly =>
        "   ⚠ in Git registry but not in Braze (likely a typo)\n"@,
        CustomAttributeOp::MetadataOnly => "   ~ metadata-only change (no API to apply)\n"@,
        CustomAttributeOp::Unchanged => Seq::empty(),
    }) + hint_lines(d.hints)
}

pub open spec fn tag_lines(d: TagDiffView) -> Seq<char> {
    (match d.op {
        TagOp::ReferencedButUnregistered =>
        "   ⚠ referenced by a resource but not in tags/registry.yaml (apply will fail until added + created in Braze dashboard)\n"@,
        TagOp::RegisteredButUnreferenced =>
        "   ℹ in tags/registry.yaml but no local resource references it\n"@,
        TagOp::Unchanged => Seq::empty(),
    }) + hint_lines(d.hints)
}

/// The lines under the header of a block. A custom attribute can have notes
/// even where it is in sync.
pub open spec fn body(d: ResourceDiffView) -> Seq<char> {
    if !d.has_changes() {
        no_drift() + (match d {
            ResourceDiffView::CustomAttribute(a) => attribute_lines(a),
            _ => Seq::empty(),
        })
    } else {
        match d {
            ResourceDiffView::CatalogSchema(c) => catalog_lines(c),
            ResourceDiffView::ContentBlock(c) => block_lines(c),
            ResourceDiffView::EmailTemplate(c) => template_lines(c),
            ResourceDiffView::CustomAttribute(c) => attribute_lines(c),
            ResourceDiffView::Tag(c) => tag_lines(c),
        }
    }
}

/// The blocks, without those that say nothing but that there is no drift
/// where only drift is asked for.
pub open spec fn blocks(diffs: Seq<ResourceDiffView>, only_drift: bool) -> Seq<char>
    decreases diffs.len(),
{
    if diffs.len() == 0 {
        Seq::empty()
    } else {
        let before = blocks(diffs.drop_last(), only_drift);
        let d = diffs.last();
        if only_drift && body(d) == no_drift() {
            before
        } else {
            before + header(d) + body(d) + "\n"@
        }
    }
}

/// The summary line. It counts every resource, shown or not.
pub open spec fn summary_line(diffs: Seq<ResourceDiffView>) -> Seq<char> {
    "Summary: "@ + decimal(changed_count(diffs)) + " changed, "@ + decimal(in_sync_count(diffs))
        + " in sync, "@ + decimal(orphan_count(diffs)) + " orphan, "@ + decimal(
        destructive_count(diffs),
    ) + " destructive\n"@
}

/// What is said where there are orphans.
pub open spec fn orphan_note(diffs: Seq<ResourceDiffView>) -> Seq<char> {
    if orphan_count(diffs) > 0 {
        "\nℹ "@ + decimal(orphan_count(diffs))
            + " Braze resource(s) not present in Git. Archive them in the Braze dashboard if intended, or add them to exclude_patterns to keep them.\n"@
    } else {
        Seq::empty()
    }
}

/// The whole table.
pub open spec fn rendered(diffs: Seq<ResourceDiffView>, only_drift: bool) -> Seq<char> {
    blocks(diffs, only_drift) + summary_line(diffs) + orphan_note(diffs)
}

fn kind_icon(kind: ResourceKind) -> (r: &'static str)
    ensures
        r@ == icon(kind),
{
    match kind {
        ResourceKind::CatalogSchema => "📋",
        ResourceKind::ContentBlock => "📝",
        ResourceKind::EmailTemplate => "📧",
        ResourceKind::CustomAttribute => "🏷 ",
        ResourceKind::Tag => "🔖",
    }
}

fn kind_label(kind: ResourceKind) -> (r: &'static str)
    ensures
        r@ == label(kind),
{
    match kind {
        ResourceKind::CatalogSchema => "Catalog Schema",
        ResourceKind::ContentBlock => "Content Block",
        ResourceKind::EmailTemplate => "Email Template",
        ResourceKind::CustomAttribute => "Custom Attribute",
        ResourceKind::Tag => "Tag",
    }
}

fn render_header(d: &ResourceDiff) -> (r: String)
    ensures
        r@ == header(d@),
{
    let mut out = owned(
        if d.has_changes() {
            kind_icon(d.kind())
        } else {
            "✅"
        },
    );
    out.push_str(" ");
    out.push_str(kind_label(d.kind()));
    out.push_str(": ");
    out.push_str(d.name());
    out.push_str("\n");
    out
}

fn fmt_field(f: &CatalogField) -> (r: String)
    ensures
        r@ == field_text(f@),
{
    let mut out = f.name.clone();
    out.push_str(" (");
    out.push_str(f.field_type.as_str());
    out.push_str(")");
    out
}

fn render_field(op: &DiffOp<CatalogField>) -> (r: String)
    ensures
        r@ == field_line(op@),
{
    match op {
        DiffOp::Added(f) => {
            let mut out = owned("   + field: ");
            out.push_str(fmt_field(f).as_str());
            out.push_str("\n");
            out
        },
        DiffOp::Removed(f) => {
            let mut out = owned("   - field: ");
            out.push_str(fmt_field(f).as_str());
            out.push_str("\n");
            out
        },
        DiffOp::Modified { from, to } => {
            let mut out = owned("   ~ field: ");
            out.push_str(to.name.as_str());
            out.push_str(" (");
            out.push_str(from.field_type.as_str());
            out.push_str(" → ");
            out.push_str(to.field_type.as_str());
            out.push_str(")\n");
            out
        },
        DiffOp::Unchanged => String::new(),
    }
}

fn render_catalog_schema(d: &CatalogSchemaDiff) -> (r: String)
    ensures
        r@ == catalog_lines(d@),
{
    let mut out = match &d.op {
        DiffOp::Added(_) => owned("   + new catalog\n"),
        DiffOp::Removed(_) => owned("   - removed catalog (destructive)\n"),
        _ => String::new(),
    };
    let ghost head = out@;
    let ghost ops = views(d.field_diffs@);
    let mut i: usize = 0;
    assert(field_lines(ops.take(0)) =~= Seq::empty());
    assert(head + Seq::empty() =~= head);
    while i < d.field_diffs.len()
        invariant
            i <= d.field_diffs@.len(),
            ops == views(d.field_diffs@),
            out@ == head + field_lines(ops.take(i as int)),
        decreases d.field_diffs@.len() - i,
    {
        let line = render_field(&d.field_diffs[i]);
        proof {
            assert(ops.take(i + 1).drop_last() =~= ops.take(i as int));
            assert(ops.take(i + 1).last() == d.field_diffs@[i as int]@);
        }
        out.push_str(line.as_str());
        assert(out@ =~= head + field_lines(ops.take(i + 1)));
        i = i + 1;
    }
    assert(ops.take(i as int) =~= ops);
    out
}

fn render_counts(t: TextDiffSummary) -> (r: String)
    ensures
        r@ == counts(t),
{
    let mut out = owned(" (+");
    out.push_str(decimal_text(t.additions as u64).as_str());
    out.push_str(" -");
    out.push_str(decimal_text(t.deletions as u64).as_str());
    out.push_str(")\n");
    out
}

fn render_content_block(d: &ContentBlockDiff) -> (r: String)
    ensures
        r@ == block_lines(d@),
{
    if d.orphan {
        return owned("   ⚠ orphaned (exists in Braze, not in Git)\n");
    }
    match &d.op {
        DiffOp::Added(_) => owned("   + new content block\n"),
        DiffOp::Removed(_) => owned("   - removed content block\n"),
        DiffOp::Modified { .. } => match d.text_diff {
            Some(t) => {
                let mut out = owned("   ~ content changed");
                out.push_str(render_counts(t).as_str());
                out
            },
            None => owned("   ~ content changed\n"),
        },
        DiffOp::Unchanged => String::new(),
    }
}

fn render_body_line(what: &str, t: Option<TextDiffSummary>) -> (r: String)
    ensures
        r@ == body_line(what@, t),
{
    match t {
        Some(t) => {
            let mut out = owned(what);
            out.push_str(render_counts(t).as_str());
            out
        },
        None => String::new(),
    }
}

fn render_email_template(d: &EmailTemplateDiff) -> (r: String)
    ensures
        r@ == template_lines(d@),
{
    if d.orphan {
        return owned("   ⚠ orphaned (exists in Braze, not in Git)\n");
    }
    let mut out = match &d.op {
        DiffOp::Added(_) => owned("   + new email template\n"),
        DiffOp::Removed(_) => owned("   - removed email template\n"),
        _ => String::new(),
    };
    let subject = if d.subject_changed {
        owned("   ~ subject changed\n")
    } else {
        String::new()
    };
    out.push_str(subject.as_str());
    out.push_str(render_body_line("   ~ body_html changed", d.body_html_diff).as_str());
    out.push_str(render_body_line("   ~ body_plaintext changed", d.body_plaintext_diff).as_str());
    let metadata = if d.metadata_changed {
        owned("   ~ metadata changed\n")
    } else {
        String::new()
    };
    out.push_str(metadata.as_str());
    out
}

fn render_hints(hints: &Vec<String>) -> (r: String)
    ensures
        r@ == hint_lines(strs(hints@)),
{
    let ghost hs = strs(hints@);
    let mut out = String::new();
    let mut i: usize = 0;
    assert(hint_lines(hs.take(0)) =~= Seq::empty());
    while i < hints.len()
        invariant
            i <= hints@.len(),
            hs == strs(hints@),
            out@ == hint_lines(hs.take(i as int)),
        decreases hints@.len() - i,
    {
        proof {
            assert(hs.take(i + 1).drop_last() =~= hs.take(i as int));
            assert(hs.take(i + 1).last() == hints@[i as int]@);
        }
        out.push_str("   ℹ ");
        out.push_str(hints[i].as_str());
        out.push_str("\n");
        i = i + 1;
    }
    assert(hs.take(i as int) =~= hs);
    out
}

fn flag_text(b: bool) -> (r: &'static str)
    ensures
        r@ == flag(b),
{
    if b {
        "true"
    } else {
        "false"
    }
}

fn render_custom_attribute(d: &CustomAttributeDiff) -> (r: String)
    ensures
        r@ == attribute_lines(d@),
{
    let mut out = match d.op {
        CustomAttributeOp::DeprecationToggled { from, to } => {
            let mut out = owned("   ~ deprecated: ");
            out.push_str(flag_text(from));
            out.push_str(" → ");
            out.push_str(flag_text(to));
            out.push_str("\n");
            out
        },
        CustomAttributeOp::UnregisteredInGit => owned(
            "   ⚠ exists in Braze but not in Git registry (run export)\n",
        ),
        CustomAttributeOp::PresentInGitOnly => owned(
            "   ⚠ in Git registry but not in Braze (likely a typo)\n",
        ),
        CustomAttributeOp::MetadataOnly => owned("   ~ metadata-only change (no API to apply)\n"),
        CustomAttributeOp::Unchanged => String::new(),
    };
    out.push_str(render_hints(&d.hints).as_str());
    out
}

fn render_tag(d: &TagDiff) -> (r: String)
    ensures
        r@ == tag_lines(d@),
{
    let mut out = match d.op {
        TagOp::ReferencedButUnregistered => owned(
            "   ⚠ referenced by a resource but not in tags/registry.yaml (apply will fail until added + created in Braze dashboard)\n",
        ),
        TagOp::RegisteredButUnreferenced => owned(
            "   ℹ in tags/registry.yaml but no local resource references it\n",
        ),
        TagOp::Unchanged => String::new(),
    };
    out.push_str(render_hints(&d.hints).as_str());
    out
}

fn render_body(d: &ResourceDiff) -> (r: String)
    ensures
        r@ == body(d@),
{
    if !d.has_changes() {
        let mut out = owned("   no drift\n");
        let more = match d {
            ResourceDiff::CustomAttribute(a) => render_custom_attribute(a),
            _ => String::new(),
        };
        out.push_str(more.as_str());
        return out;
    }
    match d {
        ResourceDiff::CatalogSchema(c) => render_catalog_schema(c),
        ResourceDiff::ContentBlock(c) => render_content_block(c),
        ResourceDiff::EmailTemplate(c) => render_email_template(c),
        ResourceDiff::CustomAttribute(c) => render_custom_attribute(c),
        ResourceDiff::Tag(c) => render_tag(c),
    }
}

/// Shows a summary as a table.
pub fn render(summary: &DiffSummary, only_drift: bool) -> (r: String)
    ensures
        r@ == rendered(summary@, only_drift),
{
    let ghost ds = summary@;
    let mut out = String::new();
    let mut i: usize = 0;
    assert(blocks(ds.take(0), only_drift) =~= Seq::empty());
    while i < summary.diffs.len()
        invariant
            i <= summary.diffs@.len(),
            ds == views(summary.diffs@),
            out@ == blocks(ds.take(i as int), only_drift),
        decreases summary.diffs@.len() - i,
    {
        let d = &summary.diffs[i];
        let lines = render_body(d);
        proof {
            assert(ds.take(i + 1).drop_last() =~= ds.take(i as int));
            assert(ds.take(i + 1).last() == d@);
        }
        if !(only_drift && str_eq(lines.as_str(), "   no drift\n")) {
            out.push_str(render_header(d).as_str());
            out.push_str(lines.as_str());
            out.push_str("\n");
        }
        i = i + 1;
    }
    assert(ds.take(i as int) =~= ds);
    let orphans: usize = summary.orphan_count();
    let mut line = owned("Summary: ");
    line.push_str(decimal_text(summary.changed_count() as u64).as_str());
    line.push_str(" changed, ");
    line.push_str(decimal_text(summary.in_sync_count() as u64).as_str());
    line.push_str(" in sync, ");
    line.push_str(decimal_text(orphans as u64).as_str());
    line.push_str(" orphan, ");
    line.push_str(decimal_text(summary.destructive_count() as u64).as_str());
    line.push_str(" destructive\n");
    out.push_str(line.as_str());
    let note = if orphans > 0 {
        let mut note = owned("\nℹ ");
        note.push_str(decimal_text(orphans as u64).as_str());
        note.push_str(
            " Braze resource(s) not present in Git. Archive them in the Braze dashboard if intended, or add them to exclude_patterns to keep them.\n",
        );
        note
    } else {
        String::new()
    };
    out.push_str(note.as_str());
    out
}

/// Empty, or a line that does not begin as the line on the absence of drift
/// does.
spec fn other_line(s: Seq<char>) -> bool {
    s.len() == 0 || (s.len() > 3 && s[3] != 'n')
}

proof fn lemma_other_lines(a: Seq<char>, b: Seq<char>)
    requires
        other_line(a),
        other_line(b),
    ensures
        other_line(a + b),
{
    if a.len() == 0 {
        assert(a + b =~= b);
    }
}

proof fn lemma_field_lines(ops: Seq<DiffOp<CatalogFieldView>>)
    ensures
        other_line(field_lines(ops)),
    decreases ops.len(),
{
    if ops.len() > 0 {
        lemma_field_lines(ops.drop_last());
        reveal_strlit("   + field: ");
        reveal_strlit("   - field: ");
        reveal_strlit("   ~ field: ");
        lemma_other_lines(field_lines(ops.drop_last()), field_line(ops.last()));
    }
}

proof fn lemma_hint_lines(hints: Seq<Seq<char>>)
    ensures
        other_line(hint_lines(hints)),
    decreases hints.len(),
{
    if hints.len() > 0 {
        let before = hint_lines(hints.drop_last());
        lemma_hint_lines(hints.drop_last());
        reveal_strlit("   ℹ ");
        lemma_other_lines(before, "   ℹ "@ + hints.last() + "\n"@);
        assert(hint_lines(hints) =~= before + ("   ℹ "@ + hints.last() + "\n"@));
    }
}

proof fn lemma_catalog_lines(d: CatalogSchemaDiffView)
    ensures
        other_line(catalog_lines(d)),
{
    reveal_strlit("   + new catalog\n");
    reveal_strlit("   - removed catalog (destructive)\n");
    lemma_field_lines(d.field_diffs);
    let head = match d.op {
        DiffOp::Added(_) => "   + new catalog\n"@,
        DiffOp::Removed(_) => "   - removed catalog (destructive)\n"@,
        _ => Seq::empty(),
    };
    lemma_other_lines(head, field_lines(d.field_diffs));
}

proof fn lemma_block_lines(d: ContentBlockDiffView)
    ensures
        other_line(block_lines(d)),
{
    reveal_strlit("   ⚠ orphaned (exists in Braze, not in Git)\n");
    reveal_strlit("   + new content block\n");
    reveal_strlit("   - removed content block\n");
    reveal_strlit("   ~ content changed");
    reveal_strlit("   ~ content changed\n");
}

proof fn lemma_template_lines(d: EmailTemplateDiffView)
    ensures
        other_line(template_lines(d)),
{
    reveal_strlit("   ⚠ orphaned (exists in Braze, not in Git)\n");
    reveal_strlit("   + new email template\n");
    reveal_strlit("   - removed email template\n");
    reveal_strlit("   ~ subject changed\n");
    reveal_strlit("   ~ body_html changed");
    reveal_strlit("   ~ body_plaintext changed");
    reveal_strlit("   ~ metadata changed\n");
    let a = match d.op {
        DiffOp::Added(_) => "   + new email template\n"@,
        DiffOp::Removed(_) => "   - removed email template\n"@,
        _ => Seq::empty(),
    };
    let b = if d.subject_changed {
        "   ~ subject changed\n"@
    } else {
        Seq::empty()
    };
    let c = body_line("   ~ body_html changed"@, d.body_html_diff);
    let e = body_line("   ~ body_plaintext changed"@, d.body_plaintext_diff);
    let f = if d.metadata_changed {
        "   ~ metadata changed\n"@
    } else {
        Seq::empty()
    };
    lemma_other_lines(a, b);
    lemma_other_lines(a + b, c);
    lemma_other_lines(a + b + c, e);
    lemma_other_lines(a + b + c + e, f);
}

proof fn lemma_attribute_lines(d: CustomAttributeDiffView)
    ensures
        other_line(attribute_lines(d)),
{
    reveal_strlit("   ~ deprecated: ");
    reveal_strlit("   ⚠ exists in Braze but not in Git registry (run export)\n");
    reveal_strlit("   ⚠ in Git registry but not in Braze (likely a typo)\n");
    reveal_strlit("   ~ metadata-only change (no API to apply)\n");
    lemma_hint_lines(d.hints);
    let head = match d.op {
        CustomAttributeOp::DeprecationToggled { from, to } => "   ~ deprecated: "@ + flag(from)
            + " → "@ + flag(to) + "\n"@,
        CustomAttributeOp::UnregisteredInGit =>
        "   ⚠ exists in Braze but not in Git registry (run export)\n"@,
        CustomAttributeOp::PresentInGitOnly =>
        "   ⚠ in Git registry but not in Braze (likely a typo)\n"@,
        CustomAttributeOp::MetadataOnly => "   ~ metadata-only change (no API to apply)\n"@,
        CustomAttributeOp::Unchanged => Seq::empty(),
    };
    lemma_other_lines(head, hint_lines(d.hints));
}

proof fn lemma_tag_lines(d: TagDiffView)
    ensures
        other_line(tag_lines(d)),
{
    reveal_strlit(
        "   ⚠ referenced by a resource but not in tags/registry.yaml (apply will fail until added + created in Braze dashboard)\n",
    );
    reveal_strlit("   ℹ in tags/registry.yaml but no local resource references it\n");
    lemma_hint_lines(d.hints);
    let head = match d.op {
        TagOp::ReferencedButUnregistered =>
        "   ⚠ referenced by a resource but not in tags/registry.yaml (apply will fail until added + created in Braze dashboard)\n"@,
        TagOp::RegisteredButUnreferenced =>
        "   ℹ in tags/registry.yaml but no local resource references it\n"@,
        TagOp::Unchanged => Seq::empty(),
    };
    lemma_other_lines(head, hint_lines(d.hints));
}

/// The block of a resource whose two sides disagree is not left out.
proof fn lemma_drift_has_lines(d: ResourceDiffView)
    requires
        d.has_changes(),
    ensures
        body(d) != no_drift(),
{
    reveal_strlit("   no drift\n");
    match d {
        ResourceDiffView::CatalogSchema(c) => lemma_catalog_lines(c),
        ResourceDiffView::ContentBlock(c) => lemma_block_lines(c),
        ResourceDiffView::EmailTemplate(c) => lemma_template_lines(c),
        ResourceDiffView::CustomAttribute(c) => lemma_attribute_lines(c),
        ResourceDiffView::Tag(c) => lemma_tag_lines(c),
    }
    assert(no_drift()[3] == 'n');
}

/// Asking for drift only hides no drift: a resource whose two sides disagree
/// keeps its block.
pub proof fn drift_is_never_hidden(diffs: Seq<ResourceDiffView>, i: int)
    requires
        0 <= i < diffs.len(),
        diffs[i].has_changes(),
    ensures
        occurs_in(header(diffs[i]) + body(diffs[i]) + "\n"@, blocks(diffs, true)),
    decreases diffs.len(),
{
    let before = blocks(diffs.drop_last(), true);
    let whole = blocks(diffs, true);
    let block = header(diffs[i]) + body(diffs[i]) + "\n"@;
    if i == diffs.len() - 1 {
        lemma_drift_has_lines(diffs[i]);
        assert(whole =~= before + block);
        assert(whole.subrange(before.len() as int, (before.len() + block.len()) as int) =~= block);
        assert(occurs_at(block, whole, before.len() as int));
    } else {
        assert(diffs.drop_last()[i] == diffs[i]);
        drift_is_never_hidden(diffs.drop_last(), i);
        let k = choose|k: int| #[trigger] occurs_at(block, before, k);
        assert(before =~= whole.take(before.len() as int));
        assert(whole.subrange(k, k + block.len()) =~= before.subrange(k, k + block.len()));
        assert(occurs_at(block, whole, k));
    }
}

/// Resources that are in sync but have a note keep their block too: with
/// drift only, a resource in sync is left out exactly where it has no note.
pub proof fn notes_are_never_hidden(a: CustomAttributeDiffView)
    requires
        a.op is Unchanged,
    ensures
        (body(ResourceDiffView::CustomAttribute(a)) == no_drift()) <==> a.hints.len() == 0,
{
    reveal_strlit("   no drift\n");
    reveal_strlit("   ℹ ");
    assert(Seq::<char>::empty() + hint_lines(a.hints) =~= hint_lines(a.hints));
    if a.hints.len() == 0 {
        assert(no_drift() + attribute_lines(a) =~= no_drift());
    } else {
        assert(attribute_lines(a).len() > 0);
        assert((no_drift() + attribute_lines(a)).len() > no_drift().len());
    }
}

} // verus!
