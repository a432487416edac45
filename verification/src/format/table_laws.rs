//! What the table promises: which line each state of a resource has, and that
//! nothing that was found out is left out.

use crate::diff::custom_attribute::{CustomAttributeDiffView, CustomAttributeOp};
use crate::diff::tag::TagDiffView;
use crate::diff::{DiffOp, ResourceDiffView, TextDiffSummary};
use crate::format::table::{
    attribute_lines, block_lines, blocks, body, catalog_lines, counts, field_line, field_lines,
    header, hint_lines, orphan_note, rendered, summary_line, tag_lines, template_lines,
};
use crate::resource::catalog::CatalogFieldView;
use crate::text::{decimal, is_shown, lemma_shown_between, lemma_shown_through};
use vstd::prelude::*;

verus! {

/// The first line of a block tells drift from the absence of drift, and names
/// the kind and the resource.
pub proof fn header_tells_drift(d: ResourceDiffView)
    ensures
        ({
            let label = match d {
                ResourceDiffView::CatalogSchema(_) => "Catalog Schema"@,
                ResourceDiffView::ContentBlock(_) => "Content Block"@,
                ResourceDiffView::EmailTemplate(_) => "Email Template"@,
                ResourceDiffView::CustomAttribute(_) => "Custom Attribute"@,
                ResourceDiffView::Tag(_) => "Tag"@,
            };
            let icon = match d {
                ResourceDiffView::CatalogSchema(_) => "📋"@,
                ResourceDiffView::ContentBlock(_) => "📝"@,
                ResourceDiffView::EmailTemplate(_) => "📧"@,
                ResourceDiffView::CustomAttribute(_) => "🏷 "@,
                ResourceDiffView::Tag(_) => "🔖"@,
            };
            let name = match d {
                ResourceDiffView::CatalogSchema(c) => c.name,
                ResourceDiffView::ContentBlock(c) => c.name,
                ResourceDiffView::EmailTemplate(c) => c.name,
                ResourceDiffView::CustomAttribute(c) => c.name,
                ResourceDiffView::Tag(c) => c.name,
            };
            &&& d.has_changes() ==> header(d) == icon + " "@ + label + ": "@ + name + "\n"@
            &&& !d.has_changes() ==> header(d) == "✅"@ + " "@ + label + ": "@ + name + "\n"@
        }),
{
}

/// A field that is added stands behind a plus, one that is removed behind a
/// minus, and one whose type changes is shown with the type it has in Braze
/// and then the type it has in Git.
pub proof fn field_lines_tell_the_change(f: CatalogFieldView, g: CatalogFieldView)
    ensures
        field_line(DiffOp::Added(f)) == "   + field: "@ + (f.name + " ("@ + f.field_type.word()
            + ")"@) + "\n"@,
        field_line(DiffOp::Removed(f)) == "   - field: "@ + (f.name + " ("@ + f.field_type.word()
            + ")"@) + "\n"@,
        field_line(DiffOp::Modified { from: f, to: g }) == "   ~ field: "@ + g.name + " ("@
            + f.field_type.word() + " → "@ + g.field_type.word() + ")\n"@,
{
}

/// Every change to a field is shown.
pub proof fn every_field_change_is_shown(ops: Seq<DiffOp<CatalogFieldView>>, i: int)
    requires
        0 <= i < ops.len(),
    ensures
        is_shown(field_line(ops[i]), field_lines(ops)),
    decreases ops.len(),
{
    let before = field_lines(ops.drop_last());
    let last = field_line(ops.last());
    if i == ops.len() - 1 {
        lemma_shown_between(before, last, Seq::empty());
        assert(field_lines(ops) =~= before + last + Seq::empty());
    } else {
        every_field_change_is_shown(ops.drop_last(), i);
        assert(ops.drop_last()[i] == ops[i]);
        lemma_shown_between(Seq::empty(), before, last);
        assert(field_lines(ops) =~= Seq::empty() + before + last);
        lemma_shown_through(field_line(ops[i]), before, field_lines(ops));
    }
}

/// What happens to a catalog as a whole stands in front of its fields.
pub proof fn catalog_lines_tell_the_change(d: crate::diff::catalog::CatalogSchemaDiffView)
    ensures
        d.op is Added ==> catalog_lines(d) == "   + new catalog\n"@ + field_lines(d.field_diffs),
        d.op is Removed ==> catalog_lines(d) == "   - removed catalog (destructive)\n"@
            + field_lines(d.field_diffs),
        d.op is Modified ==> catalog_lines(d) == field_lines(d.field_diffs),
{
    assert(Seq::<char>::empty() + field_lines(d.field_diffs) =~= field_lines(d.field_diffs));
}

/// Added lines are counted behind the plus and deleted ones behind the minus.
pub proof fn counts_tell_additions_from_deletions(t: TextDiffSummary)
    ensures
        counts(t) == " (+"@ + decimal(t.additions as nat) + " -"@ + decimal(t.deletions as nat)
            + ")\n"@,
{
}

/// The lines of a block: an orphan is named as such whatever else holds, and
/// otherwise what is done about the block.
pub proof fn block_lines_tell_the_change(d: crate::diff::content_block::ContentBlockDiffView)
    ensures
        d.orphan ==> block_lines(d) == "   ⚠ orphaned (exists in Braze, not in Git)\n"@,
        !d.orphan && d.op is Added ==> block_lines(d) == "   + new content block\n"@,
        !d.orphan && d.op is Removed ==> block_lines(d) == "   - removed content block\n"@,
        !d.orphan && d.op is Modified ==> block_lines(d) == match d.text_diff {
            Some(t) => "   ~ content changed"@ + counts(t),
            None => "   ~ content changed\n"@,
        },
        !d.orphan && d.op is Unchanged ==> block_lines(d).len() == 0,
{
}

proof fn lemma_five_parts(
    a: Seq<char>,
    b: Seq<char>,
    c: Seq<char>,
    e: Seq<char>,
    f: Seq<char>,
)
    ensures
        is_shown(a, a + b + c + e + f),
        is_shown(b, a + b + c + e + f),
        is_shown(c, a + b + c + e + f),
        is_shown(e, a + b + c + e + f),
        is_shown(f, a + b + c + e + f),
        a.len() == 0 && b.len() == 0 && c.len() == 0 && e.len() == 0 && f.len() == 0 ==> (a + b
            + c + e + f).len() == 0,
{
    let t = a + b + c + e + f;
    lemma_shown_between(Seq::empty(), a, b + c + e + f);
    assert(t =~= Seq::empty() + a + (b + c + e + f));
    lemma_shown_between(a, b, c + e + f);
    assert(t =~= a + b + (c + e + f));
    lemma_shown_between(a + b, c, e + f);
    assert(t =~= a + b + c + (e + f));
    lemma_shown_between(a + b + c, e, f);
    lemma_shown_between(a + b + c + e, f, Seq::empty());
    assert(t =~= a + b + c + e + f + Seq::empty());
}

/// The lines of a template: an orphan is named as such, and otherwise every
/// part that differs is, with the line counts of its own body.
pub proof fn template_lines_tell_every_part(d: crate::diff::email_template::EmailTemplateDiffView)
    ensures
        d.orphan ==> template_lines(d) == "   ⚠ orphaned (exists in Braze, not in Git)\n"@,
        !d.orphan ==> {
            let t = template_lines(d);
            &&& d.op is Added ==> is_shown("   + new email template\n"@, t)
            &&& d.subject_changed ==> is_shown("   ~ subject changed\n"@, t)
            &&& d.body_html_diff matches Some(c) ==> is_shown(
                "   ~ body_html changed"@ + counts(c),
                t,
            )
            &&& d.body_plaintext_diff matches Some(c) ==> is_shown(
                "   ~ body_plaintext changed"@ + counts(c),
                t,
            )
            &&& d.metadata_changed ==> is_shown("   ~ metadata changed\n"@, t)
            &&& !d.subject_changed && d.body_html_diff is None && d.body_plaintext_diff is None
                && !d.metadata_changed && (d.op is Unchanged || d.op is Modified) ==> t.len() == 0
        },
{
    if !d.orphan {
        let a = match d.op {
            DiffOp::Added(_) => "   + new email template\n"@,
            DiffOp::Removed(_) => "   - removed email template\n"@,
            _ => Seq::empty(),
        };
        let b = if d.subject_changed {
            "   ~ subject changed\n"@
        } else {
            Seq::empty()
        };
        let c = match d.body_html_diff {
            Some(t) => "   ~ body_html changed"@ + counts(t),
            None => Seq::empty(),
        };
        let e = match d.body_plaintext_diff {
            Some(t) => "   ~ body_plaintext changed"@ + counts(t),
            None => Seq::empty(),
        };
        let f = if d.metadata_changed {
            "   ~ metadata changed\n"@
        } else {
            Seq::empty()
        };
        assert(template_lines(d) == a + b + c + e + f);
        lemma_five_parts(a, b, c, e, f);
    }
}

/// The line of a custom attribute tells which side has it, or how its flag
/// goes: from what Braze has to what Git has.
pub proof fn attribute_lines_tell_the_state(d: CustomAttributeDiffView)
    ensures
        d.op is UnregisteredInGit ==> attribute_lines(d)
            == "   ⚠ exists in Braze but not in Git registry (run export)\n"@ + hint_lines(
            d.hints,
        ),
        d.op is PresentInGitOnly ==> attribute_lines(d)
            == "   ⚠ in Git registry but not in Braze (likely a typo)\n"@ + hint_lines(d.hints),
        d.op is MetadataOnly ==> attribute_lines(d)
            == "   ~ metadata-only change (no API to apply)\n"@ + hint_lines(d.hints),
        d.op is Unchanged ==> attribute_lines(d) == hint_lines(d.hints),
        d.op == (CustomAttributeOp::DeprecationToggled { from: false, to: true })
            ==> attribute_lines(d) == "   ~ deprecated: "@ + "false"@ + " → "@ + "true"@ + "\n"@
            + hint_lines(d.hints),
        d.op == (CustomAttributeOp::DeprecationToggled { from: true, to: false })
            ==> attribute_lines(d) == "   ~ deprecated: "@ + "true"@ + " → "@ + "false"@ + "\n"@
            + hint_lines(d.hints),
{
    assert(Seq::<char>::empty() + hint_lines(d.hints) =~= hint_lines(d.hints));
}

/// The line of a tag tells which side lacks it.
pub proof fn tag_lines_tell_the_state(d: TagDiffView)
    ensures
        d.op is ReferencedButUnregistered ==> tag_lines(d)
            == "   ⚠ referenced by a resource but not in tags/registry.yaml (apply will fail until added + created in Braze dashboard)\n"@
            + hint_lines(d.hints),
        d.op is RegisteredButUnreferenced ==> tag_lines(d)
            == "   ℹ in tags/registry.yaml but no local resource references it\n"@ + hint_lines(
            d.hints,
        ),
        d.op is Unchanged ==> tag_lines(d) == hint_lines(d.hints),
{
    assert(Seq::<char>::empty() + hint_lines(d.hints) =~= hint_lines(d.hints));
}

/// Every note is shown.
pub proof fn every_note_is_shown(hints: Seq<Seq<char>>, i: int)
    requires
        0 <= i < hints.len(),
    ensures
        is_shown("   ℹ "@ + hints[i] + "\n"@, hint_lines(hints)),
    decreases hints.len(),
{
    let line = "   ℹ "@ + hints[i] + "\n"@;
    let before = hint_lines(hints.drop_last());
    let last = "   ℹ "@ + hints.last() + "\n"@;
    if i == hints.len() - 1 {
        lemma_shown_between(before, line, Seq::empty());
        assert(hint_lines(hints) =~= before + line + Seq::empty());
    } else {
        every_note_is_shown(hints.drop_last(), i);
        assert(hints.drop_last()[i] == hints[i]);
        lemma_shown_between(Seq::empty(), before, last);
        assert(hint_lines(hints) =~= Seq::empty() + before + last);
        lemma_shown_through(line, before, hint_lines(hints));
    }
}

/// A resource in sync is said to have no drift, and one with drift has the
/// lines of its kind.
pub proof fn body_follows_the_kind(d: ResourceDiffView)
    ensures
        !d.has_changes() ==> body(d) == "   no drift\n"@ + match d {
            ResourceDiffView::CustomAttribute(a) => attribute_lines(a),
            _ => Seq::empty(),
        },
        d.has_changes() ==> body(d) == match d {
            ResourceDiffView::CatalogSchema(c) => catalog_lines(c),
            ResourceDiffView::ContentBlock(c) => block_lines(c),
            ResourceDiffView::EmailTemplate(c) => template_lines(c),
            ResourceDiffView::CustomAttribute(c) => attribute_lines(c),
            ResourceDiffView::Tag(c) => tag_lines(c),
        },
{
}

/// Unless only drift is asked for, every resource has its block; with it,
/// those that say nothing but that there is no drift are left out, and no
/// others. Blocks stand in the order of the diffs.
pub proof fn blocks_keep_the_order(diffs: Seq<ResourceDiffView>, d: ResourceDiffView)
    ensures
        blocks(diffs.push(d), false) == blocks(diffs, false) + (header(d) + body(d) + "\n"@),
        blocks(diffs.push(d), true) == blocks(diffs, true) + (if body(d) == "   no drift\n"@ {
            Seq::empty()
        } else {
            header(d) + body(d) + "\n"@
        }),
        blocks(Seq::empty(), false).len() == 0,
        blocks(Seq::empty(), true).len() == 0,
{
    assert(diffs.push(d).drop_last() =~= diffs);
    assert(blocks(diffs.push(d), false) =~= blocks(diffs, false) + (header(d) + body(d)
        + "\n"@));
    assert(blocks(diffs.push(d), true) =~= blocks(diffs, true) + (if body(d)
        == "   no drift\n"@ {
        Seq::empty()
    } else {
        header(d) + body(d) + "\n"@
    }));
}

/// The summary counts every resource, shown or not, each under its word; a
/// note on orphans stands behind it exactly where there are any.
pub proof fn summary_counts_every_resource(diffs: Seq<ResourceDiffView>, only_drift: bool)
    ensures
        ({
            let changed = diffs.filter(|d: ResourceDiffView| d.has_changes()).len();
            let same = diffs.filter(|d: ResourceDiffView| !d.has_changes()).len();
            let orphans = diffs.filter(|d: ResourceDiffView| d.is_orphan()).len();
            let losses = diffs.filter(|d: ResourceDiffView| d.has_destructive()).len();
            let line = "Summary: "@ + decimal(changed) + " changed, "@ + decimal(same)
                + " in sync, "@ + decimal(orphans) + " orphan, "@ + decimal(losses)
                + " destructive\n"@;
            &&& summary_line(diffs) == line
            &&& is_shown(line, rendered(diffs, only_drift))
            &&& is_shown(blocks(diffs, only_drift), rendered(diffs, only_drift))
            &&& orphans == 0 <==> orphan_note(diffs).len() == 0
            &&& orphans > 0 ==> is_shown(
                decimal(orphans) + " Braze resource(s) not present in Git."@,
                rendered(diffs, only_drift),
            )
        }),
{
    let b = blocks(diffs, only_drift);
    let line = summary_line(diffs);
    let note = orphan_note(diffs);
    let orphans = diffs.filter(|d: ResourceDiffView| d.is_orphan()).len();
    lemma_shown_between(b, line, note);
    lemma_shown_between(Seq::empty(), b, line + note);
    assert(rendered(diffs, only_drift) =~= Seq::empty() + b + (line + note));
    if orphans > 0 {
        let full =
            " Braze resource(s) not present in Git. Archive them in the Braze dashboard if intended, or add them to exclude_patterns to keep them.\n"@;
        let start = " Braze resource(s) not present in Git."@;
        reveal_strlit(
            " Braze resource(s) not present in Git. Archive them in the Braze dashboard if intended, or add them to exclude_patterns to keep them.\n",
        );
        reveal_strlit(" Braze resource(s) not present in Git.");
        let rest = full.subrange(start.len() as int, full.len() as int);
        assert(full =~= start + rest);
        reveal_strlit("\nℹ ");
        let head = "\nℹ "@;
        lemma_shown_between(b + line + head, decimal(orphans) + start, rest);
        assert(rendered(diffs, only_drift) =~= b + line + head + (decimal(orphans) + start)
            + rest);
        assert(note.len() > 0);
    }
}

} // verus!
