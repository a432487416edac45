//! What `apply` promises as a whole: which writes a diff leads to, when a run
//! is refused, and what its reports show.

use crate::braze::content_block::{ContentBlockSummary, ContentBlockSummaryView};
use crate::braze::email_template::{EmailTemplateSummary, EmailTemplateSummaryView};
use crate::cli::apply::{
    abort_report, age_warning, all_writes, applied_order, cycle_refusal,
    data_loss_needs_permission, decision, diff_writes, direct_writes, drift_lines, drift_report,
    field_writes, first_type_change, first_unsupported, free, is_problem, loses_data, op_lines,
    op_section, plan_warnings, scope_problem, scope_version_problem, step, tag_lines, tag_refusal,
    toggle_write, toggled, undeclared, undeclared_in, user_lines, write_changes, write_label,
    write_lines, written_tags, ApplyDecision, PlannedWritesView, Problem, TagUse, TagUseView,
    WriteStepView, WriteView,
};
use crate::config::schema::ApplyOrder;
use crate::diff::custom_attribute::CustomAttributeOp;
use crate::diff::plan::{PlanFile, PlanOpView, PlanOpsDiffView, PreconditionView};
use crate::diff::{
    actionable_count, changed_count, destructive_count, DiffOp, ResourceDiffView,
};
use crate::error::Error;
use crate::order::{names_of, ordered, Named};
use crate::pattern::{excluded, NamePattern};
use crate::resource::catalog::CatalogFieldView;
use crate::resource::tag::TagView;
use crate::resource::{ResourceKind, Tag};
use crate::text::{
    decimal, is_shown, join, lemma_shown_between, lemma_shown_joined, lemma_shown_through,
    opt_text,
};
use vstd::prelude::*;

verus! {

/// When a run writes, and what it says otherwise: nothing to apply comes
/// first, then a missing confirmation, then a missing permission to lose data,
/// then what the API cannot do.
pub proof fn decision_follows_the_flags(
    diffs: Seq<ResourceDiffView>,
    confirm: bool,
    allow_destructive: bool,
)
    ensures
        decision(diffs, confirm, allow_destructive) matches Ok(ApplyDecision::Nothing { drift })
            <==> actionable_count(diffs) == 0,
        actionable_count(diffs) == 0 ==> decision(diffs, confirm, allow_destructive) == Ok::<
            ApplyDecision,
            Problem,
        >(ApplyDecision::Nothing { drift: changed_count(diffs) > 0 }),
        decision(diffs, confirm, allow_destructive) == Ok::<ApplyDecision, Problem>(
            ApplyDecision::DryRun,
        ) <==> actionable_count(diffs) > 0 && !confirm,
        decision(diffs, confirm, allow_destructive) == Err::<ApplyDecision, Problem>(
            Problem::LosesData,
        ) <==> actionable_count(diffs) > 0 && confirm && destructive_count(diffs) > 0
            && !allow_destructive,
        decision(diffs, confirm, allow_destructive) == Ok::<ApplyDecision, Problem>(
            ApplyDecision::Write,
        ) <==> actionable_count(diffs) > 0 && confirm && (destructive_count(diffs) == 0
            || allow_destructive) && first_unsupported(diffs) is None,
{
}

proof fn lemma_type_change(catalog: Seq<char>, ops: Seq<DiffOp<CatalogFieldView>>)
    ensures
        first_type_change(catalog, ops) is Some <==> exists|i: int|
            0 <= i < ops.len() && #[trigger] ops[i] is Modified,
    decreases ops.len(),
{
    if ops.len() > 0 {
        let rest = ops.drop_first();
        lemma_type_change(catalog, rest);
        if exists|i: int| 0 <= i < ops.len() && #[trigger] ops[i] is Modified {
            let i = choose|i: int| 0 <= i < ops.len() && #[trigger] ops[i] is Modified;
            if i > 0 {
                assert(rest[i - 1] is Modified);
            }
        }
        if exists|i: int| 0 <= i < rest.len() && #[trigger] rest[i] is Modified {
            let i = choose|i: int| 0 <= i < rest.len() && #[trigger] rest[i] is Modified;
            assert(ops[i + 1] is Modified);
        }
    }
}

/// A run is refused for what the API cannot do exactly where the type of a
/// field of some catalog would have to change.
pub proof fn unsupported_means_a_type_change(diffs: Seq<ResourceDiffView>)
    ensures
        first_unsupported(diffs) is Some <==> exists|i: int, j: int|
            0 <= i < diffs.len() && #[trigger] diffs[i] is CatalogSchema && 0 <= j
                < diffs[i]->CatalogSchema_0.field_diffs.len()
                && #[trigger] diffs[i]->CatalogSchema_0.field_diffs[j] is Modified,
    decreases diffs.len(),
{
    if diffs.len() > 0 {
        let rest = diffs.drop_first();
        unsupported_means_a_type_change(rest);
        if let ResourceDiffView::CatalogSchema(c) = diffs[0] {
            lemma_type_change(c.name, c.field_diffs);
            if first_type_change(c.name, c.field_diffs) is Some {
                let j = choose|j: int|
                    0 <= j < c.field_diffs.len() && #[trigger] c.field_diffs[j] is Modified;
                assert(diffs[0]->CatalogSchema_0.field_diffs[j] is Modified);
            }
        }
        if first_unsupported(rest) is Some {
            let (i, j) = choose|i: int, j: int|
                0 <= i < rest.len() && #[trigger] rest[i] is CatalogSchema && 0 <= j
                    < rest[i]->CatalogSchema_0.field_diffs.len()
                    && #[trigger] rest[i]->CatalogSchema_0.field_diffs[j] is Modified;
            assert(diffs[i + 1] == rest[i]);
            assert(diffs[i + 1]->CatalogSchema_0.field_diffs[j] is Modified);
        }
        if exists|i: int, j: int|
            0 <= i < diffs.len() && #[trigger] diffs[i] is CatalogSchema && 0 <= j
                < diffs[i]->CatalogSchema_0.field_diffs.len()
                && #[trigger] diffs[i]->CatalogSchema_0.field_diffs[j] is Modified {
            let (i, j) = choose|i: int, j: int|
                0 <= i < diffs.len() && #[trigger] diffs[i] is CatalogSchema && 0 <= j
                    < diffs[i]->CatalogSchema_0.field_diffs.len()
                    && #[trigger] diffs[i]->CatalogSchema_0.field_diffs[j] is Modified;
            if i > 0 {
                assert(rest[i - 1] == diffs[i]);
                assert(rest[i - 1]->CatalogSchema_0.field_diffs[j] is Modified);
            } else {
                lemma_type_change(diffs[0]->CatalogSchema_0.name, diffs[0]->CatalogSchema_0.field_diffs);
            }
        }
    }
}

/// What is sent for a block or template is what Git has, under the id that
/// Braze lists for its name; orphans, tags and what is in sync lead to no
/// write.
pub proof fn writes_send_the_local_side(
    d: ResourceDiffView,
    blocks: Seq<ContentBlockSummaryView>,
    templates: Seq<EmailTemplateSummaryView>,
    k: int,
)
    ensures
        d matches ResourceDiffView::ContentBlock(c) ==> {
            let w = diff_writes(d, Some(blocks), Some(templates));
            &&& c.orphan || c.op is Unchanged ==> w == free(Seq::empty())
            &&& !c.orphan ==> (c.op matches DiffOp::Added(local) ==> w.stop is None && w.writes
                == seq![WriteView::CreateBlock(local)])
            &&& !c.orphan ==> (c.op matches DiffOp::Modified { from, to } ==> (0 <= k
                < blocks.len() && blocks[k].name == to.name && (forall|j: int|
                k < j < blocks.len() ==> (#[trigger] blocks[j]).name != to.name) ==> w.stop is None
                && w.writes == seq![
                WriteView::UpdateBlock { id: blocks[k].content_block_id, block: to },
            ]))
        },
        d matches ResourceDiffView::EmailTemplate(c) ==> {
            let w = diff_writes(d, Some(blocks), Some(templates));
            &&& c.orphan || c.op is Unchanged ==> w == free(Seq::empty())
            &&& !c.orphan ==> (c.op matches DiffOp::Added(local) ==> w.stop is None && w.writes
                == seq![WriteView::CreateTemplate(local)])
            &&& !c.orphan ==> (c.op matches DiffOp::Modified { from, to } ==> (0 <= k
                < templates.len() && templates[k].name == to.name && (forall|j: int|
                k < j < templates.len() ==> (#[trigger] templates[j]).name != to.name) ==> w.stop
                is None && w.writes == seq![
                WriteView::UpdateTemplate { id: templates[k].email_template_id, template: to },
            ]))
        },
        d matches ResourceDiffView::CatalogSchema(c) ==> {
            let w = diff_writes(d, Some(blocks), Some(templates));
            &&& c.op matches DiffOp::Added(local) ==> w == free(
                seq![WriteView::CreateCatalog(local)],
            )
            &&& c.op is Removed ==> w == free(seq![WriteView::DeleteCatalog(c.name)])
            &&& c.op is Modified ==> w == field_writes(c.name, c.field_diffs)
        },
        d is Tag || d is CustomAttribute ==> diff_writes(d, Some(blocks), Some(templates)) == free(
            Seq::empty(),
        ),
{
    if let ResourceDiffView::ContentBlock(c) = d {
        if let DiffOp::Modified { from, to } = c.op {
            if 0 <= k < blocks.len() && blocks[k].name == to.name && forall|j: int|
                k < j < blocks.len() ==> (#[trigger] blocks[j]).name != to.name {
                assert forall|j: int| k < j < blocks.len() implies ContentBlockSummary::name_of(
                    #[trigger] blocks[j],
                ) != ContentBlockSummary::name_of(blocks[k]) by {}
                crate::order::lemma_last_named_at::<ContentBlockSummary>(blocks, k);
            }
        }
    }
    if let ResourceDiffView::EmailTemplate(c) = d {
        if let DiffOp::Modified { from, to } = c.op {
            if 0 <= k < templates.len() && templates[k].name == to.name && forall|j: int|
                k < j < templates.len() ==> (#[trigger] templates[j]).name != to.name {
                assert forall|j: int| k < j < templates.len() implies EmailTemplateSummary::name_of(
                    #[trigger] templates[j],
                ) != EmailTemplateSummary::name_of(templates[k]) by {}
                crate::order::lemma_last_named_at::<EmailTemplateSummary>(templates, k);
            }
        }
    }
}

/// Every change to a field leads to its write, in the order of the changes: an
/// added field is added as Git has it, and a removed one is deleted by name.
pub proof fn field_changes_lead_to_their_writes(
    catalog: Seq<char>,
    ops: Seq<DiffOp<CatalogFieldView>>,
)
    requires
        forall|i: int| 0 <= i < ops.len() ==> #[trigger] ops[i] is Added || ops[i] is Removed,
    ensures
        field_writes(catalog, ops).stop is None,
        field_writes(catalog, ops).writes.len() == ops.len(),
        forall|i: int|
            0 <= i < ops.len() ==> #[trigger] field_writes(catalog, ops).writes[i] == match ops[i] {
                DiffOp::Added(f) => WriteView::AddField { catalog, field: f },
                DiffOp::Removed(f) => WriteView::DeleteField { catalog, name: f.name },
                _ => arbitrary(),
            },
    decreases ops.len(),
{
    if ops.len() > 0 {
        let front = ops.drop_last();
        assert forall|i: int| 0 <= i < front.len() implies #[trigger] front[i] is Added
            || front[i] is Removed by {
            assert(front[i] == ops[i]);
        }
        field_changes_lead_to_their_writes(catalog, front);
        assert(ops.last() == ops[ops.len() - 1]);
        let before = field_writes(catalog, front).writes;
        let all = field_writes(catalog, ops).writes;
        assert forall|i: int| 0 <= i < ops.len() implies #[trigger] all[i] == match ops[i] {
            DiffOp::Added(f) => WriteView::AddField { catalog, field: f },
            DiffOp::Removed(f) => WriteView::DeleteField { catalog, name: f.name },
            _ => arbitrary(),
        } by {
            if i < front.len() {
                assert(all[i] == before[i]);
                assert(front[i] == ops[i]);
            }
        }
    }
}

/// A field whose type would have to change ends a run where it stands: the
/// changes before it are written and none behind it is.
pub proof fn type_change_ends_the_writes(
    catalog: Seq<char>,
    before: Seq<DiffOp<CatalogFieldView>>,
    op: DiffOp<CatalogFieldView>,
    after: Seq<DiffOp<CatalogFieldView>>,
)
    requires
        op is Modified,
        field_writes(catalog, before).stop is None,
    ensures
        field_writes(catalog, before.push(op) + after).writes == field_writes(
            catalog,
            before,
        ).writes,
        field_writes(catalog, before.push(op) + after).stop is Some,
    decreases after.len(),
{
    let all = before.push(op) + after;
    if after.len() == 0 {
        assert(all =~= before.push(op));
        assert(all.drop_last() =~= before);
        assert(field_writes(catalog, before).writes + Seq::<WriteView>::empty() =~= field_writes(
            catalog,
            before,
        ).writes);
    } else {
        type_change_ends_the_writes(catalog, before, op, after.drop_last());
        assert(all.drop_last() =~= before.push(op) + after.drop_last());
    }
}

/// Writes keep the order of the diffs: those of the first diffs come before
/// those of the others, and what stands in the way of the first keeps the
/// others from being reached.
pub proof fn writes_keep_the_order_of_diffs(
    a: Seq<ResourceDiffView>,
    b: Seq<ResourceDiffView>,
    blocks: Option<Seq<ContentBlockSummaryView>>,
    templates: Option<Seq<EmailTemplateSummaryView>>,
)
    ensures
        direct_writes(a, blocks, templates).stop is None ==> direct_writes(
            a + b,
            blocks,
            templates,
        ).writes == direct_writes(a, blocks, templates).writes + direct_writes(
            b,
            blocks,
            templates,
        ).writes && direct_writes(a + b, blocks, templates).stop == direct_writes(
            b,
            blocks,
            templates,
        ).stop,
        direct_writes(a, blocks, templates).stop is Some ==> direct_writes(
            a + b,
            blocks,
            templates,
        ) == direct_writes(a, blocks, templates),
    decreases b.len(),
{
    let x = direct_writes(a, blocks, templates);
    if b.len() == 0 {
        assert(a + b =~= a);
        assert(x.writes + Seq::<WriteView>::empty() =~= x.writes);
    } else {
        writes_keep_the_order_of_diffs(a, b.drop_last(), blocks, templates);
        assert((a + b).drop_last() =~= a + b.drop_last());
        assert((a + b).last() == b.last());
        let y = direct_writes(b.drop_last(), blocks, templates);
        let z = diff_writes(b.last(), blocks, templates);
        assert(x.writes + (y.writes + z.writes) =~= x.writes + y.writes + z.writes);
    }
}

/// Flags are set at the end, once for each value, of exactly the attributes
/// whose flag goes to that value.
pub proof fn flags_are_set_the_way_they_go(
    diffs: Seq<ResourceDiffView>,
    deprecated: bool,
    name: Seq<char>,
)
    ensures
        toggled(diffs, deprecated).contains(name) <==> exists|i: int|
            0 <= i < diffs.len() && (#[trigger] diffs[i] matches ResourceDiffView::CustomAttribute(
                a,
            ) && a.name == name && (a.op matches CustomAttributeOp::DeprecationToggled { from, to }
                && to == deprecated)),
    decreases diffs.len(),
{
    if diffs.len() > 0 {
        let front = diffs.drop_last();
        let n = diffs.len() - 1;
        flags_are_set_the_way_they_go(front, deprecated, name);
        let before = toggled(front, deprecated);
        let all = toggled(diffs, deprecated);
        if all.contains(name) {
            let k = choose|k: int| 0 <= k < all.len() && all[k] == name;
            if k < before.len() {
                assert(before[k] == name);
                let i = choose|i: int|
                    0 <= i < front.len() && (
                    #[trigger] front[i] matches ResourceDiffView::CustomAttribute(a) && a.name
                        == name && (a.op matches CustomAttributeOp::DeprecationToggled { from, to }
                        && to == deprecated));
                assert(diffs[i] == front[i]);
            } else {
                assert(diffs[n] == diffs.last());
            }
        }
        if exists|i: int|
            0 <= i < diffs.len() && (#[trigger] diffs[i] matches ResourceDiffView::CustomAttribute(
                a,
            ) && a.name == name && (a.op matches CustomAttributeOp::DeprecationToggled { from, to }
                && to == deprecated)) {
            let i = choose|i: int|
                0 <= i < diffs.len() && (
                #[trigger] diffs[i] matches ResourceDiffView::CustomAttribute(a) && a.name == name
                    && (a.op matches CustomAttributeOp::DeprecationToggled { from, to } && to
                    == deprecated));
            if i < n {
                assert(front[i] == diffs[i]);
                let k = choose|k: int| 0 <= k < before.len() && before[k] == name;
                assert(all[k] == name);
            } else {
                assert(all[all.len() - 1] == name);
            }
        }
    }
}

/// The writes of a run are those of its diffs, then at most two that set
/// flags: first the attributes that are deprecated, then those that are
/// reactivated. With something in the way no flag is set.
pub proof fn flags_come_last(
    diffs: Seq<ResourceDiffView>,
    blocks: Option<Seq<ContentBlockSummaryView>>,
    templates: Option<Seq<EmailTemplateSummaryView>>,
)
    ensures
        ({
            let own = direct_writes(diffs, blocks, templates);
            let all = all_writes(diffs, blocks, templates);
            let on = toggled(diffs, true);
            let off = toggled(diffs, false);
            &&& own.stop is Some ==> all == own
            &&& own.stop is None ==> all.stop is None && all.writes == own.writes + (if on.len()
                > 0 {
                seq![WriteView::SetDeprecated { names: on, deprecated: true }]
            } else {
                Seq::empty()
            }) + (if off.len() > 0 {
                seq![WriteView::SetDeprecated { names: off, deprecated: false }]
            } else {
                Seq::empty()
            })
        }),
{
    let own = direct_writes(diffs, blocks, templates);
    assert(own.writes + (toggle_write(diffs, true) + toggle_write(diffs, false)) =~= own.writes
        + toggle_write(diffs, true) + toggle_write(diffs, false));
}

/// Each write counts as one change, and one that sets flags as one for each
/// attribute; reports name the resource that is written.
pub proof fn writes_are_named_and_counted(w: WriteView)
    ensures
        write_changes(w) == (if w is SetDeprecated {
            w->SetDeprecated_names.len()
        } else {
            1
        }),
        w matches WriteView::CreateCatalog(c) ==> write_label(w) == "catalog_schema '"@ + c.name
            + "'"@,
        w matches WriteView::DeleteCatalog(n) ==> write_label(w) == "catalog_schema '"@ + n + "'"@,
        w matches WriteView::AddField { catalog, field } ==> is_shown(catalog, write_label(w))
            && is_shown(field.name, write_label(w)),
        w matches WriteView::DeleteField { catalog, name } ==> is_shown(catalog, write_label(w))
            && is_shown(name, write_label(w)),
        w matches WriteView::CreateBlock(b) ==> write_label(w) == "content_block '"@ + b.name
            + "'"@,
        w matches WriteView::UpdateBlock { id, block } ==> write_label(w) == "content_block '"@
            + block.name + "'"@,
        w matches WriteView::CreateTemplate(t) ==> write_label(w) == "email_template '"@ + t.name
            + "'"@,
        w matches WriteView::UpdateTemplate { id, template } ==> write_label(w)
            == "email_template '"@ + template.name + "'"@,
        w matches WriteView::SetDeprecated { names, deprecated } ==> forall|i: int|
            0 <= i < names.len() ==> is_shown(#[trigger] names[i], write_label(w)),
{
    match w {
        WriteView::AddField { catalog, field } => {  
            lemma_shown_between("catalog_schema '"@, catalog, "' field '"@ + field.name + "'"@);
            lemma_shown_between("catalog_schema '"@ + catalog + "' field '"@, field.name, "'"@);
            assert(write_label(w) =~= "catalog_schema '"@ + catalog + ("' field '"@ + field.name
                + "'"@));
        },
        WriteView::DeleteField { catalog, name } => {  
            lemma_shown_between("catalog_schema '"@, catalog, "' field '"@ + name + "'"@);
            lemma_shown_between("catalog_schema '"@ + catalog + "' field '"@, name, "'"@);
            assert(write_label(w) =~= "catalog_schema '"@ + catalog + ("' field '"@ + name
                + "'"@));
        },
        WriteView::SetDeprecated { names, deprecated } => {
            assert forall|i: int| 0 <= i < names.len() implies is_shown(
                #[trigger] names[i],
                write_label(w),
            ) by {
                lemma_shown_joined(names, "', '"@, i);
                lemma_shown_between("custom_attribute '"@, join(names, "', '"@), "'"@);
                lemma_shown_through(names[i], join(names, "', '"@), "custom_attribute '"@ + join(names, "', '"@) + ("'"@));
            }
        },
        _ => {},
    }
}

proof fn lemma_write_line(writes: Seq<WriteView>, i: int)
    requires
        0 <= i < writes.len(),
    ensures
        is_shown("    - "@ + write_label(writes[i]) + "\n"@, write_lines(writes)),
    decreases writes.len(),
{
    let line = "    - "@ + write_label(writes[i]) + "\n"@;
    let before = write_lines(writes.drop_last()); 
    if i == writes.len() - 1 {
        lemma_shown_between(before, line, Seq::empty());
        assert(write_lines(writes) =~= before + line + Seq::empty());
    } else {
        lemma_write_line(writes.drop_last(), i);
        assert(writes.drop_last()[i] == writes[i]);
        let last = "    - "@ + write_label(writes.last()) + "\n"@;
        lemma_shown_between(Seq::empty(), before, last);
        lemma_shown_through(line, before, Seq::empty() + before + (last));
        assert(write_lines(writes) =~= Seq::empty() + before + last);
    }
}

/// What stands in front of the failed write.
spec fn abort_head(writes: Seq<WriteView>, failed: int) -> Seq<char> {
    if failed > 0 {
        "✗ apply aborted — partial state left in Braze (no cross-resource rollback):\n  applied ("@
            + decimal(failed as nat) + "):\n"@ + write_lines(writes.take(failed))
    } else {
        "✗ apply aborted — the first write failed, so there is no earlier write to roll back:\n"@
    }
}

spec fn abort_failure(writes: Seq<WriteView>, failed: int, problem: Seq<char>) -> Seq<char> {
    "  failed (may or may not have landed):\n    - "@ + write_label(writes[failed]) + ": "@
        + problem
}

/// What stands behind the writes that were not attempted.
spec fn abort_tail(failed: int, plan_locked: bool) -> Seq<char> {
    (if failed > 0 {
        "  → the applied writes above are live and are not rolled back.\n"@
    } else {
        Seq::empty()
    })
        + "  → a failed write is not proof that nothing changed: Braze can\n    commit a write whose response never reaches the client.\n    Run `braze-sync diff` to confirm the current remote state, then\n"@
        + (if plan_locked {
        "    regenerate the plan with `diff --plan-out` before re-running\n    `apply --plan`.\n"@
    } else {
        "    re-run `apply` with the same flags to pick up the changes that\n    were not attempted.\n"@
    })
}

proof fn lemma_abort_split(
    writes: Seq<WriteView>,
    failed: int,
    problem: Seq<char>,
    plan_locked: bool,
)
    requires
        0 <= failed < writes.len(),
    ensures
        abort_report(writes, failed, problem, plan_locked) == abort_head(writes, failed)
            + abort_failure(writes, failed, problem) + seq!['\n'] + ("  not attempted ("@ + decimal(
            writes.skip(failed + 1).len(),
        ) + "):\n"@) + write_lines(writes.skip(failed + 1)) + abort_tail(failed, plan_locked),
{
    reveal_strlit("\n  not attempted (");
    reveal_strlit("  not attempted (");
    assert("\n  not attempted ("@ =~= seq!['\n'] + "  not attempted ("@);
    let rest = writes.skip(failed + 1);
    assert(abort_report(writes, failed, problem, plan_locked) =~= abort_head(writes, failed)
        + abort_failure(writes, failed, problem) + ("\n  not attempted ("@ + decimal(rest.len())
        + "):\n"@) + write_lines(rest) + abort_tail(failed, plan_locked));
    assert("\n  not attempted ("@ + decimal(rest.len()) + "):\n"@ =~= seq!['\n'] + (
    "  not attempted ("@ + decimal(rest.len()) + "):\n"@));
    let x = abort_head(writes, failed) + abort_failure(writes, failed, problem);
    let y = "  not attempted ("@ + decimal(rest.len()) + "):\n"@;
    assert(x + (seq!['\n'] + y) =~= x + seq!['\n'] + y);
}

proof fn lemma_abort_advice(failed: int, plan_locked: bool)
    ensures
        plan_locked ==> is_shown(
            "regenerate the plan with `diff --plan-out`"@,
            abort_tail(failed, plan_locked),
        ),
        !plan_locked ==> is_shown(
            "re-run `apply` with the same flags"@,
            abort_tail(failed, plan_locked),
        ),
{
    let front = (if failed > 0 {
        "  → the applied writes above are live and are not rolled back.\n"@
    } else {
        Seq::empty()
    })
        + "  → a failed write is not proof that nothing changed: Braze can\n    commit a write whose response never reaches the client.\n    Run `braze-sync diff` to confirm the current remote state, then\n"@;
    if plan_locked {
        let end =
            "    regenerate the plan with `diff --plan-out` before re-running\n    `apply --plan`.\n"@;
        let advice = "regenerate the plan with `diff --plan-out`"@;
        reveal_strlit("regenerate the plan with `diff --plan-out`");
        reveal_strlit(
            "    regenerate the plan with `diff --plan-out` before re-running\n    `apply --plan`.\n",
        );
        let a = end.subrange(0, 4);
        let b = end.subrange(4 + advice.len() as int, end.len() as int);
        assert(end =~= a + advice + b);
        lemma_shown_between(front + a, advice, b);
        assert(abort_tail(failed, plan_locked) =~= front + a + advice + b);
    } else {
        let end =
            "    re-run `apply` with the same flags to pick up the changes that\n    were not attempted.\n"@;
        let advice = "re-run `apply` with the same flags"@;
        reveal_strlit("re-run `apply` with the same flags");
        reveal_strlit(
            "    re-run `apply` with the same flags to pick up the changes that\n    were not attempted.\n",
        );
        let a = end.subrange(0, 4);
        let b = end.subrange(4 + advice.len() as int, end.len() as int);
        assert(end =~= a + advice + b);
        lemma_shown_between(front + a, advice, b);
        assert(abort_tail(failed, plan_locked) =~= front + a + advice + b);
    }
}

proof fn lemma_abort_count(writes: Seq<WriteView>, failed: int)
    requires
        0 < failed < writes.len(),
    ensures
        is_shown("  applied ("@ + decimal(failed as nat) + "):\n"@, abort_head(writes, failed)),
{
    let head =
        "✗ apply aborted — partial state left in Braze (no cross-resource rollback):\n  applied ("@;
    reveal_strlit(
        "✗ apply aborted — partial state left in Braze (no cross-resource rollback):\n  applied (",
    );
    reveal_strlit("  applied (");
    let count = "  applied ("@ + decimal(failed as nat) + "):\n"@;
    let a = head.subrange(0, head.len() - "  applied ("@.len());
    assert(head =~= a + "  applied ("@);
    let lines = write_lines(writes.take(failed));
    lemma_shown_between(a, count, lines);
    assert(abort_head(writes, failed) =~= a + count + lines);
}

proof fn lemma_abort_live(writes: Seq<WriteView>, failed: int, i: int)
    requires
        0 <= i < failed < writes.len(),
    ensures
        is_shown("    - "@ + write_label(writes[i]) + "\n"@, abort_head(writes, failed)),
{
    let head =
        "✗ apply aborted — partial state left in Braze (no cross-resource rollback):\n  applied ("@
        + decimal(failed as nat) + "):\n"@;
    let done = writes.take(failed);
    assert(done[i] == writes[i]);
    lemma_write_line(done, i);
    lemma_shown_between(head, write_lines(done), Seq::empty());
    assert(abort_head(writes, failed) =~= head + write_lines(done) + Seq::empty());
    lemma_shown_through(
        "    - "@ + write_label(writes[i]) + "\n"@,
        write_lines(done),
        abort_head(writes, failed),
    );
}

/// The report on a run that was cut short shows the failed write with its
/// problem, the number of writes that are live and of those that were not
/// attempted, and each of these by name; a run bound to a plan is told to make
/// a new one.
pub proof fn abort_report_shows_every_write(
    writes: Seq<WriteView>,
    failed: int,
    problem: Seq<char>,
    plan_locked: bool,
    i: int,
)
    requires
        0 <= failed < writes.len(),
    ensures
        ({
            let report = abort_report(writes, failed, problem, plan_locked);
            &&& is_shown(
                "  failed (may or may not have landed):\n    - "@ + write_label(writes[failed])
                    + ": "@ + problem,
                report,
            )
            &&& failed > 0 ==> is_shown("  applied ("@ + decimal(failed as nat) + "):\n"@, report)
            &&& is_shown(
                "  not attempted ("@ + decimal((writes.len() - failed - 1) as nat) + "):\n"@,
                report,
            )
            &&& 0 <= i < writes.len() && i != failed ==> is_shown(
                "    - "@ + write_label(writes[i]) + "\n"@,
                report,
            )
            &&& plan_locked ==> is_shown("regenerate the plan with `diff --plan-out`"@, report)
            &&& !plan_locked ==> is_shown("re-run `apply` with the same flags"@, report)
        }),
{
    lemma_abort_split(writes, failed, problem, plan_locked);
    let report = abort_report(writes, failed, problem, plan_locked);
    let rest = writes.skip(failed + 1);
    let head = abort_head(writes, failed);
    let bad = abort_failure(writes, failed, problem);
    let count = "  not attempted ("@ + decimal(rest.len()) + "):\n"@;
    let lines = write_lines(rest);
    let tail = abort_tail(failed, plan_locked);
    let after = seq!['\n'] + count + lines + tail;
    lemma_shown_between(head, bad, after);
    assert(report =~= head + bad + after);
    lemma_shown_between(head + bad + seq!['\n'], count, lines + tail);
    assert(report =~= head + bad + seq!['\n'] + count + (lines + tail));
    lemma_shown_between(Seq::empty(), head, bad + after);
    assert(report =~= Seq::empty() + head + (bad + after));
    lemma_shown_between(head + bad + seq!['\n'] + count, lines, tail);
    assert(report =~= head + bad + seq!['\n'] + count + lines + tail);
    lemma_shown_between(head + bad + seq!['\n'] + count + lines, tail, Seq::empty());
    assert(report =~= head + bad + seq!['\n'] + count + lines + tail + Seq::empty());
    lemma_abort_advice(failed, plan_locked);
    if plan_locked {
        lemma_shown_through("regenerate the plan with `diff --plan-out`"@, tail, report);
    } else {
        lemma_shown_through("re-run `apply` with the same flags"@, tail, report);
    }
    if failed > 0 {
        lemma_abort_count(writes, failed);
        lemma_shown_through("  applied ("@ + decimal(failed as nat) + "):\n"@, head, report);
    }
    if 0 <= i < writes.len() && i != failed {
        let line = "    - "@ + write_label(writes[i]) + "\n"@;
        if i < failed {
            lemma_abort_live(writes, failed, i);
            lemma_shown_through(line, head, report);
        } else {
            assert(rest[i - failed - 1] == writes[i]);
            lemma_write_line(rest, i - failed - 1);
            lemma_shown_through(line, lines, report);
        }
    }
}

/// Whether a tag is declared.
proof fn lemma_tag_listed(registry: Seq<TagView>, tag: Seq<char>)
    ensures
        names_of::<Tag>(registry).contains(tag) <==> exists|j: int|
            0 <= j < registry.len() && (#[trigger] registry[j]).name == tag,
{
    let ns = names_of::<Tag>(registry);
    if ns.contains(tag) {
        let j = choose|j: int| 0 <= j < ns.len() && ns[j] == tag;
        assert(registry[j].name == tag);
    }
    if exists|j: int| 0 <= j < registry.len() && (#[trigger] registry[j]).name == tag {
        let j = choose|j: int| 0 <= j < registry.len() && (#[trigger] registry[j]).name == tag;
        assert(ns[j] == tag);
    }
}

proof fn lemma_undeclared_in(
    user: Seq<char>,
    tags: Seq<Seq<char>>,
    registry: Seq<TagView>,
    excludes: Seq<NamePattern>,
    use_: TagUseView,
)
    ensures
        undeclared_in(user, tags, registry, excludes).contains(use_) <==> use_.user == user
            && tags.contains(use_.tag) && !excluded(use_.tag, excludes) && !names_of::<Tag>(
            registry,
        ).contains(use_.tag),
    decreases tags.len(),
{
    let all = undeclared_in(user, tags, registry, excludes);
    if tags.len() > 0 {
        let front = tags.drop_last();
        let before = undeclared_in(user, front, registry, excludes);
        lemma_undeclared_in(user, front, registry, excludes, use_);
        if before.contains(use_) {
            let k = choose|k: int| 0 <= k < before.len() && before[k] == use_;
            assert(all[k] == use_);
            let j = choose|j: int| 0 <= j < front.len() && front[j] == use_.tag;
            assert(tags[j] == use_.tag);
        }
        if all.contains(use_) && !before.contains(use_) {
            let k = choose|k: int| 0 <= k < all.len() && all[k] == use_;
            if k < before.len() {
                assert(before[k] == use_);
            }
            assert(tags[tags.len() - 1] == use_.tag);
        }
        if use_.user == user && tags.contains(use_.tag) && !before.contains(use_) && !excluded(
            use_.tag,
            excludes,
        ) && !names_of::<Tag>(registry).contains(use_.tag) {
            let j = choose|j: int| 0 <= j < tags.len() && tags[j] == use_.tag;
            if j < front.len() {
                assert(front[j] == use_.tag);
            }
            assert(all[all.len() - 1] == use_);
        }
    }
}

/// The tags that stop a run are exactly those that a block or template is sent
/// with and that are neither declared nor managed elsewhere; each is listed
/// with the resource that has it.
pub proof fn undeclared_tags_are_those_sent(
    diffs: Seq<ResourceDiffView>,
    registry: Seq<TagView>,
    excludes: Seq<NamePattern>,
    tag: Seq<char>,
    user: Seq<char>,
)
    ensures
        undeclared(diffs, registry, excludes).contains(TagUseView { tag, user }) <==> !excluded(
            tag,
            excludes,
        ) && (forall|j: int| 0 <= j < registry.len() ==> (#[trigger] registry[j]).name != tag)
            && exists|i: int|
            0 <= i < diffs.len() && match #[trigger] diffs[i] {
                ResourceDiffView::ContentBlock(c) => match c.op {
                    DiffOp::Added(local) => local.tags.contains(tag) && user == "content_block '"@
                        + local.name + "'"@,
                    DiffOp::Modified { from, to } => to.tags.contains(tag) && user
                        == "content_block '"@ + to.name + "'"@,
                    _ => false,
                },
                ResourceDiffView::EmailTemplate(c) => match c.op {
                    DiffOp::Added(local) => local.tags.contains(tag) && user == "email_template '"@
                        + local.name + "'"@,
                    DiffOp::Modified { from, to } => to.tags.contains(tag) && user
                        == "email_template '"@ + to.name + "'"@,
                    _ => false,
                },
                _ => false,
            },
    decreases diffs.len(),
{
    let use_ = TagUseView { tag, user };
    lemma_tag_listed(registry, tag);
    if diffs.len() > 0 {
        let front = diffs.drop_last();
        let n = diffs.len() - 1;
        let d = diffs.last();
        let before = undeclared(front, registry, excludes);
        let all = undeclared(diffs, registry, excludes);
        undeclared_tags_are_those_sent(front, registry, excludes, tag, user);
        assert(diffs[n] == d);
        let own = match written_tags(d) {
            Some((u, tags)) => undeclared_in(u, tags, registry, excludes),
            None => Seq::empty(),
        };
        if let Some((u, tags)) = written_tags(d) {
            lemma_undeclared_in(u, tags, registry, excludes, use_);
        }
        assert(all =~= before + own);
        assert(all.contains(use_) <==> before.contains(use_) || own.contains(use_)) by {
            if before.contains(use_) {
                let k = choose|k: int| 0 <= k < before.len() && before[k] == use_;
                assert(all[k] == use_);
            }
            if own.contains(use_) {
                let k = choose|k: int| 0 <= k < own.len() && own[k] == use_;
                assert(all[before.len() + k] == use_);
            }
        }
        assert forall|i: int| 0 <= i < n implies front[i] == #[trigger] diffs[i] by {}
        if before.contains(use_) {
            let i = choose|i: int|
                0 <= i < front.len() && match #[trigger] front[i] {
                    ResourceDiffView::ContentBlock(c) => match c.op {
                        DiffOp::Added(local) => local.tags.contains(tag) && user
                            == "content_block '"@ + local.name + "'"@,
                        DiffOp::Modified { from, to } => to.tags.contains(tag) && user
                            == "content_block '"@ + to.name + "'"@,
                        _ => false,
                    },
                    ResourceDiffView::EmailTemplate(c) => match c.op {
                        DiffOp::Added(local) => local.tags.contains(tag) && user
                            == "email_template '"@ + local.name + "'"@,
                        DiffOp::Modified { from, to } => to.tags.contains(tag) && user
                            == "email_template '"@ + to.name + "'"@,
                        _ => false,
                    },
                    _ => false,
                };
            assert(diffs[i] == front[i]);
        }
    }
}

proof fn lemma_user_line(uses: Seq<TagUseView>, k: int)
    requires
        0 <= k < uses.len(),
    ensures
        is_shown("      - "@ + uses[k].user + "\n"@, user_lines(uses, uses[k].tag)),
    decreases uses.len(),
{
    let tag = uses[k].tag;
    let line = "      - "@ + uses[k].user + "\n"@;
    let before = user_lines(uses.drop_last(), tag); 
    if k == uses.len() - 1 {
        lemma_shown_between(before, line, Seq::empty());
        assert(user_lines(uses, tag) =~= before + line + Seq::empty());
    } else {
        lemma_user_line(uses.drop_last(), k);
        assert(uses.drop_last()[k] == uses[k]);
        let last = if uses.last().tag == tag {
            "      - "@ + uses.last().user + "\n"@
        } else {
            Seq::empty()
        };
        lemma_shown_between(Seq::empty(), before, last);
        lemma_shown_through(line, before, Seq::empty() + before + (last));
        assert(user_lines(uses, tag) =~= Seq::empty() + before + last);
    }
}

proof fn lemma_tag_lines(uses: Seq<TagUseView>, tags: Seq<Seq<char>>, j: int)
    requires
        0 <= j < tags.len(),
    ensures
        is_shown(
            "  • '"@ + tags[j] + "' — referenced by:\n"@ + user_lines(uses, tags[j]),
            tag_lines(uses, tags),
        ),
    decreases tags.len(),
{
    let part = "  • '"@ + tags[j] + "' — referenced by:\n"@ + user_lines(uses, tags[j]);
    let before = tag_lines(uses, tags.drop_last()); 
    if j == tags.len() - 1 {
        lemma_shown_between(before, part, Seq::empty());
        assert(tag_lines(uses, tags) =~= before + part + Seq::empty());
    } else {
        lemma_tag_lines(uses, tags.drop_last(), j);
        assert(tags.drop_last()[j] == tags[j]);
        let last = "  • '"@ + tags.last() + "' — referenced by:\n"@ + user_lines(
            uses,
            tags.last(),
        );
        lemma_shown_between(Seq::empty(), before, last);
        lemma_shown_through(part, before, Seq::empty() + before + (last));
        assert(tag_lines(uses, tags) =~= Seq::empty() + before + last);
    }
}

/// A refusal for the sake of tags names each of them and each resource that
/// has it.
pub proof fn tag_refusal_names_every_use(uses: Seq<TagUseView>, k: int)
    requires
        0 <= k < uses.len(),
    ensures
        is_shown("  • '"@ + uses[k].tag + "' — referenced by:\n"@, tag_refusal(uses)),
        is_shown("      - "@ + uses[k].user + "\n"@, tag_refusal(uses)),
{
    let ns = names_of::<TagUse>(uses);
    let tags = ordered(ns.to_set());
    crate::order::lemma_ordered_exists(ns);
    assert(ns[k] == uses[k].tag);
    assert(ns.to_set().contains(uses[k].tag));
    assert(tags.to_set().contains(uses[k].tag));
    let j = choose|j: int| 0 <= j < tags.len() && tags[j] == uses[k].tag;
    let head = "  • '"@ + tags[j] + "' — referenced by:\n"@;
    let part = head + user_lines(uses, tags[j]);
    let line = "      - "@ + uses[k].user + "\n"@;
    let first =
        "tag pre-flight: refusing to apply — the following tags are referenced by resources that would be created/updated, but are not declared in tags/registry.yaml:\n"@;
    let last =
        "\nFix: create each missing tag in the Braze dashboard (Settings → Tags), then add it to tags/registry.yaml and re-run apply. Braze does not expose a tag creation API."@;
    lemma_tag_lines(uses, tags, j);
    lemma_user_line(uses, k); 
    lemma_shown_between(Seq::empty(), head, user_lines(uses, tags[j]));
    assert(part =~= Seq::empty() + head + user_lines(uses, tags[j]));
    lemma_shown_between(head, user_lines(uses, tags[j]), Seq::empty());
    lemma_shown_through(line, user_lines(uses, tags[j]), head + user_lines(uses, tags[j]) + (Seq::empty()));
    assert(part =~= head + user_lines(uses, tags[j]) + Seq::empty());
    let all = tag_lines(uses, tags);
    lemma_shown_between(first, all, last);
    lemma_shown_through(head, part, all);
    lemma_shown_through(line, part, all);
    lemma_shown_through(head, all, tag_refusal(uses));
    lemma_shown_through(line, all, tag_refusal(uses));
}

/// By name the diffs stay as they are; a circle of blocks is refused with the
/// name of each of them.
pub proof fn order_is_by_name_or_by_dependency(diffs: Seq<ResourceDiffView>, path: Seq<Seq<char>>, i: int)
    ensures
        applied_order(diffs, ApplyOrder::Alphabetical) == Ok::<
            Seq<ResourceDiffView>,
            Seq<Seq<char>>,
        >(diffs),
        applied_order(diffs, ApplyOrder::Dependency)
            == crate::diff::content_block_order::reordered(
            diffs,
            crate::diff::content_block_order::references_of(diffs),
        ),
        0 <= i < path.len() ==> is_shown(path[i], cycle_refusal(path)),
{
    if 0 <= i < path.len() {
        lemma_shown_joined(path, " → "@, i);
        lemma_shown_between("content_block dependency cycle detected\n       "@, join(path, " → "@), "\n       resolve by removing one of these references and try again"@);
        lemma_shown_through(path[i], join(path, " → "@), "content_block dependency cycle detected\n       "@ + join(path, " → "@) + ("\n       resolve by removing one of these references and try again"@));
    }
}

/// A plan is for a run exactly where it was made for the same environment,
/// endpoint, kind and name, by this version of the format.
pub proof fn plan_is_for_its_scope_only(
    plan: PlanFile,
    environment: Seq<char>,
    endpoint: Seq<char>,
    resource: Option<ResourceKind>,
    name: Option<Seq<char>>,
)
    ensures
        scope_problem(plan, environment, endpoint, resource, name) is None
            <==> plan.scope.environment@ == environment && plan.scope.api_endpoint@ == endpoint
            && plan.scope.resource == resource && opt_text(plan.scope.name) == name,
        plan.scope.environment@ != environment ==> scope_problem(
            plan,
            environment,
            endpoint,
            resource,
            name,
        ) == Some(
            "✗ plan drift: plan was generated for environment '"@ + plan.scope.environment@
                + "' but apply targets '"@ + environment + "'"@,
        ),
        scope_version_problem(plan.version) is None <==> plan.version == 2,
{
}

/// A plan draws a warning where another version of the tool made it, and
/// another where it is more than a day old, with its age in full hours.
pub proof fn old_plans_draw_warnings(plan: PlanFile, current: Seq<char>, now: int)
    ensures
        ({
            let age = now - plan.generated_at@;
            let other = plan.braze_sync_version@ != current;
            let stale = age > 86_400_000_000_000;
            let w = plan_warnings(plan, current, now);
            &&& w.len() == (if other {
                1int
            } else {
                0int
            }) + (if stale {
                1int
            } else {
                0int
            })
            &&& other ==> is_shown(plan.braze_sync_version@, w[0]) && is_shown(current, w[0])
            &&& stale ==> w.last() == age_warning(age) && is_shown(
                decimal((age / 3_600_000_000_000) as nat),
                w.last(),
            )
        }),
{
    let made = plan.braze_sync_version@;
    if made != current {
        let a = "⚠ plan was generated by braze-sync "@;
        let b = " (current: "@;
        let c = "). Proceeding — pass `diff --plan-out` again if op semantics changed."@;  
        lemma_shown_between(a, made, b + current + c);
        lemma_shown_between(a + made + b, current, c);
        assert(a + made + (b + current + c) =~= a + made + b + current + c);
    }
    let age = now - plan.generated_at@;
    let hours = decimal((age / 3_600_000_000_000) as nat); 
    lemma_shown_between("⚠ plan is "@, hours, " hour(s) old — Braze may have drifted; consider regenerating with `diff --plan-out`."@);
}

proof fn lemma_op_line(ops: Seq<PlanOpView>, i: int)
    requires
        0 <= i < ops.len(),
    ensures
        is_shown(crate::cli::apply::op_line(ops[i]) + "\n"@, op_lines(ops)),
    decreases ops.len(),
{
    let line = crate::cli::apply::op_line(ops[i]) + "\n"@;
    let before = op_lines(ops.drop_last()); 
    if i == ops.len() - 1 {
        lemma_shown_between(before, line, Seq::empty());
        assert(op_lines(ops) =~= before + line + Seq::empty());
    } else {
        lemma_op_line(ops.drop_last(), i);
        assert(ops.drop_last()[i] == ops[i]);
        let last = crate::cli::apply::op_line(ops.last()) + "\n"@;
        lemma_shown_between(Seq::empty(), before, last);
        lemma_shown_through(line, before, Seq::empty() + before + (last));
        assert(op_lines(ops) =~= Seq::empty() + before + last);
    }
}

/// The report on a plan that no longer holds lists, under a heading of their
/// own, every operation that is gone and every one that is new.
pub proof fn drift_report_lists_every_operation(d: PlanOpsDiffView, i: int)
    ensures
        0 <= i < d.missing.len() ==> is_shown(
            "    - "@ + d.missing[i].kind.word() + " '"@ + d.missing[i].name + "' ["@,
            drift_report(d),
        ) && is_shown(
            "  ops in saved plan but not in fresh plan (resolved or absorbed remotely):\n"@
                + op_lines(d.missing),
            drift_report(d),
        ),
        0 <= i < d.extra.len() ==> is_shown(
            "    - "@ + d.extra[i].kind.word() + " '"@ + d.extra[i].name + "' ["@,
            drift_report(d),
        ) && is_shown(
            "  ops in fresh plan but not in saved plan (new drift since plan):\n"@ + op_lines(
                d.extra,
            ),
            drift_report(d),
        ),
        d.precondition_drift.len() > 0 ==> is_shown(
            "  ops whose remote side moved since the plan:\n"@ + drift_lines(d.precondition_drift),
            drift_report(d),
        ),
{
    let head = "✗ plan drift: saved plan and fresh plan differ\n"@;
    let ha = "  ops in saved plan but not in fresh plan (resolved or absorbed remotely):\n"@;
    let hb = "  ops in fresh plan but not in saved plan (new drift since plan):\n"@;
    let a = op_section(ha, d.missing);
    let b = op_section(hb, d.extra);
    let c = if d.precondition_drift.len() == 0 {
        Seq::empty()
    } else {
        "  ops whose remote side moved since the plan:\n"@ + drift_lines(d.precondition_drift)
    };
    let end = "  → regenerate with `diff --plan-out` and review before re-applying"@;
    let report = drift_report(d);
    assert(report =~= head + a + (b + c + end));
    assert(report =~= head + a + b + (c + end));
    assert(report =~= head + a + b + c + end);   
    lemma_shown_between(head, a, b + c + end);
    lemma_shown_between(head + a, b, c + end);
    lemma_shown_between(head + a + b, c, end);
    if 0 <= i < d.missing.len() {
        lemma_named_line(ha, d.missing, i);
        lemma_shown_between(head, a, b + c + end);
        lemma_shown_through("    - "@ + d.missing[i].kind.word() + " '"@ + d.missing[i].name + "' ["@, a, head + a + (b + c + end));
    }
    if 0 <= i < d.extra.len() {
        lemma_named_line(hb, d.extra, i);
        lemma_shown_between(head + a, b, c + end);
        lemma_shown_through("    - "@ + d.extra[i].kind.word() + " '"@ + d.extra[i].name + "' ["@, b, head + a + b + (c + end));
    }
}

proof fn lemma_named_line(heading: Seq<char>, ops: Seq<PlanOpView>, i: int)
    requires
        0 <= i < ops.len(),
    ensures
        is_shown(
            "    - "@ + ops[i].kind.word() + " '"@ + ops[i].name + "' ["@,
            op_section(heading, ops),
        ),
{
    let line = crate::cli::apply::op_line(ops[i]) + "\n"@;
    let part = "    - "@ + ops[i].kind.word() + " '"@ + ops[i].name + "' ["@;
    lemma_op_line(ops, i); 
    let rest = crate::cli::apply::op_name(ops[i].op) + "]"@ + "\n"@;
    lemma_shown_between(Seq::empty(), part, rest);
    assert(line =~= Seq::empty() + part + rest);
    let all = op_lines(ops);
    lemma_shown_through(part, line, all);
    lemma_shown_between(heading, all, Seq::empty());
    assert(op_section(heading, ops) =~= heading + all + Seq::empty());
    lemma_shown_through(part, all, op_section(heading, ops));
}

/// A moved remote is shown with what the plan expected and what was found, in
/// this order.
pub proof fn drift_shows_expected_and_found(d: PlanOpsDiffView, i: int)
    requires
        0 <= i < d.precondition_drift.len(),
        d.precondition_drift[i].expected is Digest,
        d.precondition_drift[i].found is Digest,
    ensures
        ({
            let x = d.precondition_drift[i];
            let short = |h: Seq<char>|
                if h.len() <= 12 {
                    h
                } else {
                    h.take(12)
                };
            is_shown(
                ": expected digest "@ + short(x.expected->Digest_0) + "…, found digest "@ + short(
                    x.found->Digest_0,
                ) + "…\n"@,
                drift_lines(d.precondition_drift),
            )
        }),
{
    lemma_drift_line(d.precondition_drift, i);
}

proof fn lemma_drift_line(
    drifts: Seq<crate::diff::plan::PreconditionDriftView>,
    i: int,
)
    requires
        0 <= i < drifts.len(),
        drifts[i].expected is Digest,
        drifts[i].found is Digest,
    ensures
        ({
            let short = |h: Seq<char>|
                if h.len() <= 12 {
                    h
                } else {
                    h.take(12)
                };
            is_shown(
                ": expected digest "@ + short(drifts[i].expected->Digest_0) + "…, found digest "@
                    + short(drifts[i].found->Digest_0) + "…\n"@,
                drift_lines(drifts),
            )
        }),
    decreases drifts.len(),
{
    let short = |h: Seq<char>|
        if h.len() <= 12 {
            h
        } else {
            h.take(12)
        };
    let e = short(drifts[i].expected->Digest_0);
    let f = short(drifts[i].found->Digest_0);
    let part = ": expected digest "@ + e + "…, found digest "@ + f + "…\n"@;
    let before = drift_lines(drifts.drop_last());
    let l = drifts.last();
    let last = crate::cli::apply::op_line(l.op) + ": expected "@ + crate::cli::apply::described(
        l.expected,
    ) + ", found "@ + crate::cli::apply::described(l.found) + "\n"@;
    assert(drift_lines(drifts) =~= before + last); 
    if i == drifts.len() - 1 {
        reveal_strlit(": expected digest ");
        reveal_strlit(": expected ");
        reveal_strlit("digest ");
        reveal_strlit("…, found digest ");
        reveal_strlit("…");
        reveal_strlit(", found ");
        reveal_strlit("\n");
        reveal_strlit("…\n");
        assert(": expected digest "@ =~= ": expected "@ + "digest "@);
        assert("…, found digest "@ =~= "…"@ + ", found "@ + "digest "@);
        assert("…\n"@ =~= "…"@ + "\n"@);
        let front = before + crate::cli::apply::op_line(l.op);
        lemma_shown_between(front, part, Seq::empty());
        assert(drift_lines(drifts) =~= front + part + Seq::empty());
    } else {
        lemma_drift_line(drifts.drop_last(), i);
        assert(drifts.drop_last()[i] == drifts[i]);
        lemma_shown_between(Seq::empty(), before, last);
        lemma_shown_through(part, before, Seq::empty() + before + (last));
        assert(drift_lines(drifts) =~= Seq::empty() + before + last);
    }
}

/// The names of operations and states are those of reports.
pub proof fn operations_are_shown_by_name(op: PlanOpView, h: Seq<char>)
    ensures
        crate::cli::apply::op_name(crate::diff::plan::PlanOpType::Add) == "Add"@,
        crate::cli::apply::op_name(crate::diff::plan::PlanOpType::Modify) == "Modify"@,
        crate::cli::apply::op_name(crate::diff::plan::PlanOpType::DestructiveDelete)
            == "DestructiveDelete"@,
        crate::cli::apply::op_name(crate::diff::plan::PlanOpType::Orphan) == "Orphan"@,
        crate::cli::apply::op_name(crate::diff::plan::PlanOpType::Deprecate) == "Deprecate"@,
        crate::cli::apply::op_name(crate::diff::plan::PlanOpType::Reactivate) == "Reactivate"@,
        crate::cli::apply::op_line(op) == "    - "@ + op.kind.word() + " '"@ + op.name + "' ["@
            + crate::cli::apply::op_name(op.op) + "]"@,
        crate::cli::apply::described(PreconditionView::Absent) == "absent"@,
{
}

/// A run goes on with the write behind those attempted, ends with a report
/// where the last one failed, and otherwise ends with what stands in the way
/// or as done.
pub proof fn run_goes_on_one_by_one(
    plan: PlannedWritesView,
    attempted: int,
    failure: Option<Seq<char>>,
    plan_locked: bool,
)
    requires
        0 <= attempted <= plan.writes.len(),
        failure is Some ==> attempted > 0,
    ensures
        step(plan, attempted, failure, plan_locked) is Issue <==> failure is None && attempted
            < plan.writes.len(),
        step(plan, attempted, failure, plan_locked) matches WriteStepView::Issue(i) ==> i
            == attempted,
        step(plan, attempted, failure, plan_locked) is Abort <==> failure is Some,
        step(plan, attempted, failure, plan_locked) is Stop <==> failure is None && attempted
            == plan.writes.len() && plan.stop is Some,
        step(plan, attempted, failure, plan_locked) is Done <==> failure is None && attempted
            == plan.writes.len() && plan.stop is None,
        failure matches Some(m) ==> step(plan, attempted, failure, plan_locked)
            == WriteStepView::Abort(abort_report(plan.writes, attempted - 1, m, plan_locked)),
{
}

/// Where no diff is destructive, no write removes a catalog or a field of
/// one.
pub proof fn removals_need_a_destructive_diff(
    diffs: Seq<ResourceDiffView>,
    blocks: Option<Seq<ContentBlockSummaryView>>,
    templates: Option<Seq<EmailTemplateSummaryView>>,
    i: int,
)
    requires
        destructive_count(diffs) == 0,
        0 <= i < all_writes(diffs, blocks, templates).writes.len(),
    ensures
        all_writes(diffs, blocks, templates).writes[i] !is DeleteCatalog,
        all_writes(diffs, blocks, templates).writes[i] !is DeleteField,
{
    data_loss_needs_permission(diffs, blocks, templates);
    assert(!loses_data(all_writes(diffs, blocks, templates).writes[i]));
}

/// A run that would lose data ends with the error for that, and one that asks
/// for what the API cannot do ends with the text that says what it is.
pub proof fn refused_runs_end_with_their_error(
    p: Problem,
    e: Error,
)
    requires
        is_problem(p, e),
    ensures
        p is LosesData <==> e is DestructiveBlocked,
        p matches Problem::Unsupported(m) ==> (
        e matches Error::Other(t) && t@ == m),
{
}

} // verus!
