//! `apply`: the only command that changes anything in Braze.
//!
//! The diff is computed and shown first. Nothing is written unless that is
//! confirmed, what would lose data needs permission of its own, and what the
//! API cannot do is refused before the first write. Braze has no transactions,
//! so a write that fails leaves the earlier ones in place; the report names
//! them.

use crate::braze::content_block::{ContentBlockSummary, ContentBlockSummaryView};
use crate::braze::email_template::{EmailTemplateSummary, EmailTemplateSummaryView};
use crate::braze::error::{quoted, quoted_text};
use crate::braze::opt_str;
use crate::config::schema::ApplyOrder;
use crate::diff::content_block_order::{
    reorder_content_block_diffs_by_dependency, reordered, references_of,
};
use crate::diff::custom_attribute::CustomAttributeOp;
use crate::diff::plan::{
    collect_ops, content_problem, is_ops_diff, planned, PlanFile, PlanOp, PlanOpType, PlanOpView,
    PlanOpsDiff, PlanOpsDiffView, PreconditionDriftView, PreconditionView, CURRENT_PLAN_VERSION,
    STALE_PLAN_WARN_THRESHOLD_NANOS,
};
use crate::diff::{
    actionable_count, changed_count, destructive_count, DiffOp, DiffSummary, ResourceDiff,
    ResourceDiffView,
};
use crate::error::Error;
use crate::order::{
    find_last_named, insert_names, last_named, lemma_ordered_unique, names_of, ordered,
    stable_sort_of, views, Named,
};
use crate::pattern::{excluded, is_excluded, NamePattern};
use crate::resource::catalog::{CatalogFieldView, CatalogView};
use crate::resource::content_block::ContentBlockView;
use crate::resource::email_template::EmailTemplateView;
use crate::resource::tag::TagView;
use crate::resource::{
    Catalog, CatalogField, ContentBlock, EmailTemplate, ResourceKind, Tag, TagRegistry,
};
use crate::text::{decimal, decimal_text, join, join_text, opt_text, owned, str_eq, strs};
use crate::time::{Moment, Span};
use vstd::prelude::*;

verus! {

#[derive(Debug)]
pub struct ApplyArgs {
    pub resource: Option<ResourceKind>,
    /// Only this resource. Goes with a kind.
    pub name: Option<String>,
    /// Write to Braze. Without it nothing is written.
    pub confirm: bool,
    /// Permit what loses data in Braze.
    pub allow_destructive: bool,
    /// Refuse to apply what differs from the plan there.
    pub plan: Option<String>,
    /// Refuse a plan that is older.
    pub max_plan_age: Option<Span>,
}

/// What to do with a summary.
#[derive(Debug, Clone, Copy, PartialEq, Eq, Structural)]
pub enum ApplyDecision {
    /// There is nothing to write, though there may be drift.
    Nothing { drift: bool },
    /// There is something to write, but that was not confirmed.
    DryRun,
    Write,
}

/// What is said of a field whose type changed. Changing it in place is not
/// possible, and dropping it first would lose what it holds.
pub open spec fn type_change_refusal(
    catalog: Seq<char>,
    from: CatalogFieldView,
    to: CatalogFieldView,
) -> Seq<char> {
    "modifying field '"@ + to.name + "' on catalog '"@ + catalog + "' (type "@
        + from.field_type.word() + " → "@ + to.field_type.word()
        + ") is not supported by braze-sync; the change would be data-losing on the field. Drop the field manually in the Braze dashboard and re-run `braze-sync apply`"@
}

/// The first field change that cannot be made.
pub open spec fn first_type_change(
    catalog: Seq<char>,
    ops: Seq<DiffOp<CatalogFieldView>>,
) -> Option<Seq<char>>
    decreases ops.len(),
{
    if ops.len() == 0 {
        None
    } else {
        match ops[0] {
            DiffOp::Modified { from, to } => Some(type_change_refusal(catalog, from, to)),
            _ => first_type_change(catalog, ops.drop_first()),
        }
    }
}

/// The first change that the API cannot make.
pub open spec fn first_unsupported(diffs: Seq<ResourceDiffView>) -> Option<Seq<char>>
    decreases diffs.len(),
{
    if diffs.len() == 0 {
        None
    } else {
        let rest = first_unsupported(diffs.drop_first());
        match diffs[0] {
            ResourceDiffView::CatalogSchema(d) => match first_type_change(d.name, d.field_diffs) {
                Some(m) => Some(m),
                None => rest,
            },
            _ => rest,
        }
    }
}

fn field_type_change(catalog: &str, ops: &Vec<DiffOp<CatalogField>>) -> (r: Option<String>)
    ensures
        opt_text(r) == first_type_change(catalog@, views(ops@)),
{
    let ghost os = views(ops@);
    let mut i: usize = 0;
    assert(os.skip(0) =~= os);
    while i < ops.len()
        invariant
            i <= ops@.len(),
            os == views(ops@),
            first_type_change(catalog@, os) == first_type_change(catalog@, os.skip(i as int)),
        decreases ops@.len() - i,
    {
        proof {
            assert(os.skip(i as int)[0] == ops@[i as int]@);
            assert(os.skip(i as int).drop_first() =~= os.skip(i + 1));
        }
        if let DiffOp::Modified { from, to } = &ops[i] {
            let mut m = owned("modifying field '");
            m.push_str(to.name.as_str());
            m.push_str("' on catalog '");
            m.push_str(catalog);
            m.push_str("' (type ");
            m.push_str(from.field_type.as_str());
            m.push_str(" → ");
            m.push_str(to.field_type.as_str());
            m.push_str(
                ") is not supported by braze-sync; the change would be data-losing on the field. Drop the field manually in the Braze dashboard and re-run `braze-sync apply`",
            );
            return Some(m);
        }
        i = i + 1;
    }
    None
}

/// Refuses what the API cannot do, before anything is written.
pub fn check_for_unsupported_ops(summary: &DiffSummary) -> (r: Result<(), Error>)
    ensures
        match r {
            Ok(_) => first_unsupported(summary@) is None,
            Err(Error::Other(m)) => first_unsupported(summary@) == Some(m@),
            Err(_) => false,
        },
{
    let ghost ds = summary@;
    let mut i: usize = 0;
    assert(ds.skip(0) =~= ds);
    while i < summary.diffs.len()
        invariant
            i <= summary.diffs@.len(),
            ds == views(summary.diffs@),
            ds == summary@,
            first_unsupported(ds) == first_unsupported(ds.skip(i as int)),
        decreases summary.diffs@.len() - i,
    {
        proof {
            assert(ds.skip(i as int)[0] == summary.diffs@[i as int]@);
            assert(ds.skip(i as int).drop_first() =~= ds.skip(i + 1));
        }
        if let ResourceDiff::CatalogSchema(d) = &summary.diffs[i] {
            if let Some(m) = field_type_change(d.name.as_str(), &d.field_diffs) {
                return Err(Error::Other(m));
            }
        }
        i = i + 1;
    }
    Ok(())
}

/// Why nothing is written though it was asked for.
pub enum Problem {
    /// Data would be lost.
    LosesData,
    /// The API cannot do it.
    Unsupported(Seq<char>),
}

/// Whether to write. What loses data needs permission, and what the API
/// cannot do is refused.
pub open spec fn decision(
    diffs: Seq<ResourceDiffView>,
    confirm: bool,
    allow_destructive: bool,
) -> Result<ApplyDecision, Problem> {
    if actionable_count(diffs) == 0 {
        Ok(ApplyDecision::Nothing { drift: changed_count(diffs) > 0 })
    } else if !confirm {
        Ok(ApplyDecision::DryRun)
    } else if destructive_count(diffs) > 0 && !allow_destructive {
        Err(Problem::LosesData)
    } else {
        match first_unsupported(diffs) {
            Some(m) => Err(Problem::Unsupported(m)),
            None => Ok(ApplyDecision::Write),
        }
    }
}

/// The error of a problem.
pub open spec fn is_problem(p: Problem, e: Error) -> bool {
    match p {
        Problem::LosesData => e == Error::DestructiveBlocked,
        Problem::Unsupported(m) => e matches Error::Other(t) && t@ == m,
    }
}

/// Decides whether to write. What loses data needs permission, and what the
/// API cannot do is refused.
pub fn decide(summary: &DiffSummary, confirm: bool, allow_destructive: bool) -> (r: Result<
    ApplyDecision,
    Error,
>)
    ensures
        decision(summary@, confirm, allow_destructive) matches Ok(d) ==> r == Ok::<
            ApplyDecision,
            Error,
        >(d),
        decision(summary@, confirm, allow_destructive) matches Err(p) ==> (r matches Err(e)
            && is_problem(p, e)),
{
    if summary.actionable_count() == 0 {
        return Ok(ApplyDecision::Nothing { drift: summary.changed_count() > 0 });
    }
    if !confirm {
        return Ok(ApplyDecision::DryRun);
    }
    if summary.destructive_count() > 0 && !allow_destructive {
        return Err(Error::DestructiveBlocked);
    }
    match check_for_unsupported_ops(summary) {
        Ok(_) => Ok(ApplyDecision::Write),
        Err(e) => Err(e),
    }
}

impl ApplyDecision {
    /// What is said where nothing is written.
    pub fn message(self) -> (r: Option<&'static str>)
        ensures
            opt_str(r) == match self {
                ApplyDecision::Nothing { drift } => Some(
                    if drift {
                        "No actionable changes to apply (informational drift above can be reconciled with `export`)."@
                    } else {
                        "No changes to apply."@
                    },
                ),
                ApplyDecision::DryRun => Some(
                    "DRY RUN — pass --confirm to apply these changes."@,
                ),
                ApplyDecision::Write => None,
            },
    {
        match self {
            ApplyDecision::Nothing { drift } => if drift {
                Some(
                    "No actionable changes to apply (informational drift above can be reconciled with `export`).",
                )
            } else {
                Some("No changes to apply.")
            },
            ApplyDecision::DryRun => Some("DRY RUN — pass --confirm to apply these changes."),
            ApplyDecision::Write => None,
        }
    }
}

/// A tag in use by a resource that would be written.
#[derive(Debug)]
pub struct TagUse {
    pub tag: String,
    pub user: String,
}

/// What the use of a tag is.
#[verifier::ext_equal]
pub struct TagUseView {
    pub tag: Seq<char>,
    pub user: Seq<char>,
}

impl View for TagUse {
    type V = TagUseView;

    open spec fn view(&self) -> TagUseView {
        TagUseView { tag: self.tag@, user: self.user@ }
    }
}

impl Named for TagUse {
    open spec fn name_of(v: TagUseView) -> Seq<char> {
        v.tag
    }

    fn name_ref(&self) -> (r: &String) {
        &self.tag
    }
}

/// The resource that would be written, and its tags.
pub open spec fn written_tags(d: ResourceDiffView) -> Option<(Seq<char>, Seq<Seq<char>>)> {
    match d {
        ResourceDiffView::ContentBlock(c) => match c.op {
            DiffOp::Added(cb) => Some(("content_block '"@ + cb.name + "'"@, cb.tags)),
            DiffOp::Modified { to, .. } => Some(("content_block '"@ + to.name + "'"@, to.tags)),
            _ => None,
        },
        ResourceDiffView::EmailTemplate(c) => match c.op {
            DiffOp::Added(et) => Some(("email_template '"@ + et.name + "'"@, et.tags)),
            DiffOp::Modified { to, .. } => Some(("email_template '"@ + to.name + "'"@, to.tags)),
            _ => None,
        },
        _ => None,
    }
}

/// A tag that is neither declared nor managed elsewhere.
pub open spec fn is_undeclared(
    tag: Seq<char>,
    registry: Seq<TagView>,
    excludes: Seq<NamePattern>,
) -> bool {
    !excluded(tag, excludes) && !names_of::<Tag>(registry).contains(tag)
}

/// The uses of undeclared tags among the tags of one resource.
pub open spec fn undeclared_in(
    user: Seq<char>,
    tags: Seq<Seq<char>>,
    registry: Seq<TagView>,
    excludes: Seq<NamePattern>,
) -> Seq<TagUseView>
    decreases tags.len(),
{
    if tags.len() == 0 {
        Seq::empty()
    } else {
        let before = undeclared_in(user, tags.drop_last(), registry, excludes);
        if is_undeclared(tags.last(), registry, excludes) {
            before.push(TagUseView { tag: tags.last(), user })
        } else {
            before
        }
    }
}

/// The uses of undeclared tags by resources that would be written.
pub open spec fn undeclared(
    diffs: Seq<ResourceDiffView>,
    registry: Seq<TagView>,
    excludes: Seq<NamePattern>,
) -> Seq<TagUseView>
    decreases diffs.len(),
{
    if diffs.len() == 0 {
        Seq::empty()
    } else {
        let before = undeclared(diffs.drop_last(), registry, excludes);
        match written_tags(diffs.last()) {
            Some((user, tags)) => before + undeclared_in(user, tags, registry, excludes),
            None => before,
        }
    }
}

/// The lines that name the users of a tag.
pub open spec fn user_lines(uses: Seq<TagUseView>, tag: Seq<char>) -> Seq<char>
    decreases uses.len(),
{
    if uses.len() == 0 {
        Seq::empty()
    } else {
        let before = user_lines(uses.drop_last(), tag);
        if uses.last().tag == tag {
            before + "      - "@ + uses.last().user + "\n"@
        } else {
            before
        }
    }
}

/// The lines for the tags, each with its users.
pub open spec fn tag_lines(uses: Seq<TagUseView>, tags: Seq<Seq<char>>) -> Seq<char>
    decreases tags.len(),
{
    if tags.len() == 0 {
        Seq::empty()
    } else {
        tag_lines(uses, tags.drop_last()) + "  • '"@ + tags.last() + "' — referenced by:\n"@
            + user_lines(uses, tags.last())
    }
}

/// What is said where undeclared tags are in use.
pub open spec fn tag_refusal(uses: Seq<TagUseView>) -> Seq<char> {
    "tag pre-flight: refusing to apply — the following tags are referenced by resources that would be created/updated, but are not declared in tags/registry.yaml:\n"@
        + tag_lines(uses, ordered(names_of::<TagUse>(uses).to_set()))
        + "\nFix: create each missing tag in the Braze dashboard (Settings → Tags), then add it to tags/registry.yaml and re-run apply. Braze does not expose a tag creation API."@
}

fn block_label(name: &str) -> (r: String)
    ensures
        r@ == "content_block '"@ + name@ + "'"@,
{
    let mut out = owned("content_block '");
    out.push_str(name);
    out.push_str("'");
    out
}

fn template_label(name: &str) -> (r: String)
    ensures
        r@ == "email_template '"@ + name@ + "'"@,
{
    let mut out = owned("email_template '");
    out.push_str(name);
    out.push_str("'");
    out
}

/// The model of tags that would be written.
pub open spec fn tags_view(o: Option<(String, &Vec<String>)>) -> Option<
    (Seq<char>, Seq<Seq<char>>),
> {
    match o {
        Some((user, tags)) => Some((user@, strs(tags@))),
        None => None,
    }
}

fn tags_to_write(d: &ResourceDiff) -> (r: Option<(String, &Vec<String>)>)
    ensures
        tags_view(r) == written_tags(d@),
{
    match d {
        ResourceDiff::ContentBlock(c) => match &c.op {
            DiffOp::Added(cb) => Some((block_label(cb.name.as_str()), &cb.tags)),
            DiffOp::Modified { to, .. } => Some((block_label(to.name.as_str()), &to.tags)),
            _ => None,
        },
        ResourceDiff::EmailTemplate(c) => match &c.op {
            DiffOp::Added(et) => Some((template_label(et.name.as_str()), &et.tags)),
            DiffOp::Modified { to, .. } => Some((template_label(to.name.as_str()), &to.tags)),
            _ => None,
        },
        _ => None,
    }
}

fn push_undeclared(
    out: &mut Vec<TagUse>,
    user: &String,
    tags: &Vec<String>,
    registry: &TagRegistry,
    excludes: &Vec<NamePattern>,
)
    ensures
        views(final(out)@) == views(old(out)@) + undeclared_in(
            user@,
            strs(tags@),
            registry@,
            excludes@,
        ),
{
    let ghost ts = strs(tags@);
    let ghost start = views(out@);
    let mut i: usize = 0;
    assert(undeclared_in(user@, ts.take(0), registry@, excludes@) =~= Seq::empty());
    assert(start + Seq::empty() =~= start);
    while i < tags.len()
        invariant
            i <= tags@.len(),
            ts == strs(tags@),
            views(out@) == start + undeclared_in(user@, ts.take(i as int), registry@, excludes@),
        decreases tags@.len() - i,
    {
        proof {
            assert(ts.take(i + 1).drop_last() =~= ts.take(i as int));
            assert(ts.take(i + 1).last() == tags@[i as int]@);
        }
        if !is_excluded(tags[i].as_str(), excludes) && !registry.contains(tags[i].as_str()) {
            let ghost before = out@;
            out.push(TagUse { tag: tags[i].clone(), user: user.clone() });
            assert(views(out@) =~= views(before).push(
                TagUseView { tag: tags@[i as int]@, user: user@ },
            ));
            assert(views(out@) =~= start + undeclared_in(
                user@,
                ts.take(i + 1),
                registry@,
                excludes@,
            ));
        }
        i = i + 1;
    }
    assert(ts.take(i as int) =~= ts);
}

fn undeclared_uses(summary: &DiffSummary, registry: &TagRegistry, excludes: &Vec<NamePattern>) -> (r:
    Vec<TagUse>)
    ensures
        views(r@) == undeclared(summary@, registry@, excludes@),
{
    let ghost ds = summary@;
    let mut out: Vec<TagUse> = Vec::new();
    let mut i: usize = 0;
    assert(views(out@) =~= undeclared(ds.take(0), registry@, excludes@));
    while i < summary.diffs.len()
        invariant
            i <= summary.diffs@.len(),
            ds == views(summary.diffs@),
            views(out@) == undeclared(ds.take(i as int), registry@, excludes@),
        decreases summary.diffs@.len() - i,
    {
        proof {
            assert(ds.take(i + 1).drop_last() =~= ds.take(i as int));
            assert(ds.take(i + 1).last() == summary.diffs@[i as int]@);
        }
        if let Some((user, tags)) = tags_to_write(&summary.diffs[i]) {
            push_undeclared(&mut out, &user, tags, registry, excludes);
        }
        i = i + 1;
    }
    assert(ds.take(i as int) =~= ds);
    out
}

fn render_users(uses: &Vec<TagUse>, tag: &str) -> (r: String)
    ensures
        r@ == user_lines(views(uses@), tag@),
{
    let ghost us = views(uses@);
    let mut out = String::new();
    let mut i: usize = 0;
    assert(user_lines(us.take(0), tag@) =~= Seq::empty());
    while i < uses.len()
        invariant
            i <= uses@.len(),
            us == views(uses@),
            out@ == user_lines(us.take(i as int), tag@),
        decreases uses@.len() - i,
    {
        proof {
            assert(us.take(i + 1).drop_last() =~= us.take(i as int));
            assert(us.take(i + 1).last() == uses@[i as int]@);
        }
        if str_eq(uses[i].tag.as_str(), tag) {
            out.push_str("      - ");
            out.push_str(uses[i].user.as_str());
            out.push_str("\n");
        }
        i = i + 1;
    }
    assert(us.take(i as int) =~= us);
    out
}

/// Refuses to write where a resource that would be written has a tag that is
/// not declared: Braze would refuse it and everything behind it. Nothing is
/// refused where tags are not managed or there is no registry.
pub fn enforce_tag_preflight(
    enabled: bool,
    registry: Option<&TagRegistry>,
    excludes: &Vec<NamePattern>,
    summary: &DiffSummary,
) -> (r: Result<(), Error>)
    ensures
        if !enabled || registry is None {
            r is Ok
        } else {
            let uses = undeclared(summary@, registry->0@, excludes@);
            if uses.len() == 0 {
                r is Ok
            } else {
                r matches Err(Error::Other(m)) && m@ == tag_refusal(uses)
            }
        },
{
    if !enabled {
        return Ok(());
    }
    let registry = match registry {
        Some(r) => r,
        None => return Ok(()),
    };
    let uses = undeclared_uses(summary, registry, excludes);
    if uses.len() == 0 {
        return Ok(());
    }
    let mut names: Vec<String> = Vec::new();
    assert(strs(names@) =~= Seq::empty());
    insert_names(&mut names, &uses);
    let ghost us = views(uses@);
    let ghost tags = ordered(names_of::<TagUse>(us).to_set());
    proof {
        assert(strs(names@).to_set() =~= names_of::<TagUse>(us).to_set());
        lemma_ordered_unique(strs(names@), names_of::<TagUse>(us).to_set());
    }
    let mut lines = String::new();
    let mut i: usize = 0;
    assert(tag_lines(us, tags.take(0)) =~= Seq::empty());
    while i < names.len()
        invariant
            i <= names@.len(),
            us == views(uses@),
            tags == strs(names@),
            lines@ == tag_lines(us, tags.take(i as int)),
        decreases names@.len() - i,
    {
        proof {
            assert(tags.take(i + 1).drop_last() =~= tags.take(i as int));
            assert(tags.take(i + 1).last() == names@[i as int]@);
        }
        lines.push_str("  • '");
        lines.push_str(names[i].as_str());
        lines.push_str("' — referenced by:\n");
        lines.push_str(render_users(&uses, names[i].as_str()).as_str());
        i = i + 1;
    }
    assert(tags.take(i as int) =~= tags);
    let mut m = owned(
        "tag pre-flight: refusing to apply — the following tags are referenced by resources that would be created/updated, but are not declared in tags/registry.yaml:\n",
    );
    m.push_str(lines.as_str());
    m.push_str(
        "\nFix: create each missing tag in the Braze dashboard (Settings → Tags), then add it to tags/registry.yaml and re-run apply. Braze does not expose a tag creation API.",
    );
    Err(Error::Other(m))
}

/// What is said of content blocks that refer to each other in a circle.
pub open spec fn cycle_refusal(path: Seq<Seq<char>>) -> Seq<char> {
    "content_block dependency cycle detected\n       "@ + join(path, " → "@)
        + "\n       resolve by removing one of these references and try again"@
}

/// The diffs in the order in which they are applied.
pub open spec fn applied_order(diffs: Seq<ResourceDiffView>, order: ApplyOrder) -> Result<
    Seq<ResourceDiffView>,
    Seq<Seq<char>>,
> {
    match order {
        ApplyOrder::Dependency => reordered(diffs, references_of(diffs)),
        ApplyOrder::Alphabetical => Ok(diffs),
    }
}

/// Puts the diffs into the order in which they are applied. Braze refuses a
/// content block that refers to one it does not have yet, so unless names are
/// to decide, what is referred to comes first.
pub fn order_diffs(diffs: Vec<ResourceDiff>, order: ApplyOrder) -> (r: Result<
    Vec<ResourceDiff>,
    Error,
>)
    ensures
        match applied_order(views(diffs@), order) {
            Ok(v) => r matches Ok(d) && views(d@) == v,
            Err(p) => r matches Err(Error::Other(m)) && m@ == cycle_refusal(p),
        },
{
    match order {
        ApplyOrder::Alphabetical => Ok(diffs),
        ApplyOrder::Dependency => match reorder_content_block_diffs_by_dependency(diffs) {
            Ok(v) => Ok(v),
            Err(cycle) => {
                let mut m = owned("content_block dependency cycle detected\n       ");
                m.push_str(cycle.to_string().as_str());
                m.push_str("\n       resolve by removing one of these references and try again");
                Err(Error::Other(m))
            },
        },
    }
}

/// What stands in front of the diffs.
pub fn heading(confirm: bool) -> (r: &'static str)
    ensures
        r@ == if confirm {
            "Plan:"@
        } else {
            "Plan (dry-run, pass --confirm to apply):"@
        },
{
    if confirm {
        "Plan:"
    } else {
        "Plan (dry-run, pass --confirm to apply):"
    }
}

/// Settles what is shown and applied, before anything is: tags first, then
/// the order.
pub fn prepare(
    diffs: Vec<ResourceDiff>,
    order: ApplyOrder,
    tags_enabled: bool,
    registry: Option<&TagRegistry>,
    tag_excludes: &Vec<NamePattern>,
) -> (r: Result<DiffSummary, Error>)
    ensures
        ({
            let uses = if tags_enabled && registry is Some {
                undeclared(views(diffs@), registry->0@, tag_excludes@)
            } else {
                Seq::empty()
            };
            if uses.len() > 0 {
                r matches Err(Error::Other(m)) && m@ == tag_refusal(uses)
            } else {
                match applied_order(views(diffs@), order) {
                    Ok(v) => r matches Ok(s) && s@ == v,
                    Err(p) => r matches Err(Error::Other(m)) && m@ == cycle_refusal(p),
                }
            }
        }),
{
    let summary = DiffSummary { diffs };
    match enforce_tag_preflight(tags_enabled, registry, tag_excludes, &summary) {
        Err(e) => Err(e),
        Ok(_) => match order_diffs(summary.diffs, order) {
            Ok(diffs) => Ok(DiffSummary { diffs }),
            Err(e) => Err(e),
        },
    }
}

/// One call that changes something in Braze.
#[derive(Debug)]
pub enum Write {
    CreateCatalog(Catalog),
    DeleteCatalog(String),
    AddField { catalog: String, field: CatalogField },
    DeleteField { catalog: String, name: String },
    CreateBlock(ContentBlock),
    UpdateBlock { id: String, block: ContentBlock },
    CreateTemplate(EmailTemplate),
    UpdateTemplate { id: String, template: EmailTemplate },
    SetDeprecated { names: Vec<String>, deprecated: bool },
}

/// What a write is.
#[verifier::ext_equal]
pub enum WriteView {
    CreateCatalog(CatalogView),
    DeleteCatalog(Seq<char>),
    AddField { catalog: Seq<char>, field: CatalogFieldView },
    DeleteField { catalog: Seq<char>, name: Seq<char> },
    CreateBlock(ContentBlockView),
    UpdateBlock { id: Seq<char>, block: ContentBlockView },
    CreateTemplate(EmailTemplateView),
    UpdateTemplate { id: Seq<char>, template: EmailTemplateView },
    SetDeprecated { names: Seq<Seq<char>>, deprecated: bool },
}

impl View for Write {
    type V = WriteView;

    open spec fn view(&self) -> WriteView {
        match self {
            Write::CreateCatalog(c) => WriteView::CreateCatalog(c@),
            Write::DeleteCatalog(n) => WriteView::DeleteCatalog(n@),
            Write::AddField { catalog, field } => WriteView::AddField {
                catalog: catalog@,
                field: field@,
            },
            Write::DeleteField { catalog, name } => WriteView::DeleteField {
                catalog: catalog@,
                name: name@,
            },
            Write::CreateBlock(b) => WriteView::CreateBlock(b@),
            Write::UpdateBlock { id, block } => WriteView::UpdateBlock {
                id: id@,
                block: block@,
            },
            Write::CreateTemplate(t) => WriteView::CreateTemplate(t@),
            Write::UpdateTemplate { id, template } => WriteView::UpdateTemplate {
                id: id@,
                template: template@,
            },
            Write::SetDeprecated { names, deprecated } => WriteView::SetDeprecated {
                names: strs(names@),
                deprecated: *deprecated,
            },
        }
    }
}

/// The writes of a run in their order, and what stands in the way once they
/// are made, if anything does.
#[derive(Debug)]
pub struct PlannedWrites {
    pub writes: Vec<Write>,
    pub stop: Option<String>,
}

/// What the writes of a run are.
#[verifier::ext_equal]
pub struct PlannedWritesView {
    pub writes: Seq<WriteView>,
    pub stop: Option<Seq<char>>,
}

impl View for PlannedWrites {
    type V = PlannedWritesView;

    open spec fn view(&self) -> PlannedWritesView {
        PlannedWritesView { writes: views(self.writes@), stop: opt_text(self.stop) }
    }
}

/// Writes with nothing in the way.
pub open spec fn free(writes: Seq<WriteView>) -> PlannedWritesView {
    PlannedWritesView { writes, stop: None }
}

/// Nothing but what stands in the way.
pub open spec fn blocked(problem: Seq<char>) -> PlannedWritesView {
    PlannedWritesView { writes: Seq::empty(), stop: Some(problem) }
}

/// The one after the other. What stands in the way of the first keeps the
/// second from being reached.
pub open spec fn chained(a: PlannedWritesView, b: PlannedWritesView) -> PlannedWritesView {
    if a.stop is Some {
        a
    } else {
        PlannedWritesView { writes: a.writes + b.writes, stop: b.stop }
    }
}

/// The write of a field change. A type change has none.
pub open spec fn field_write(
    catalog: Seq<char>,
    op: DiffOp<CatalogFieldView>,
) -> PlannedWritesView {
    match op {
        DiffOp::Added(f) => free(seq![WriteView::AddField { catalog, field: f }]),
        DiffOp::Removed(f) => free(seq![WriteView::DeleteField { catalog, name: f.name }]),
        DiffOp::Modified { .. } => blocked(
            "internal: Modified field op should have been rejected by check_for_unsupported_ops"@,
        ),
        DiffOp::Unchanged => free(Seq::empty()),
    }
}

pub open spec fn field_writes(
    catalog: Seq<char>,
    ops: Seq<DiffOp<CatalogFieldView>>,
) -> PlannedWritesView
    decreases ops.len(),
{
    if ops.len() == 0 {
        free(Seq::empty())
    } else {
        chained(field_writes(catalog, ops.drop_last()), field_write(catalog, ops.last()))
    }
}

/// The writes of one diff. A catalog is created and deleted as a whole.
/// Orphans are never written. Custom attributes are written together at the
/// end. A block or template can only be updated where its id is known.
pub open spec fn diff_writes(
    d: ResourceDiffView,
    blocks: Option<Seq<ContentBlockSummaryView>>,
    templates: Option<Seq<EmailTemplateSummaryView>>,
) -> PlannedWritesView {
    match d {
        ResourceDiffView::CatalogSchema(c) => match c.op {
            DiffOp::Added(cat) => free(seq![WriteView::CreateCatalog(cat)]),
            DiffOp::Removed(_) => free(seq![WriteView::DeleteCatalog(c.name)]),
            _ => field_writes(c.name, c.field_diffs),
        },
        ResourceDiffView::ContentBlock(c) => if c.orphan {
            free(Seq::empty())
        } else {
            match c.op {
                DiffOp::Added(cb) => free(seq![WriteView::CreateBlock(cb)]),
                DiffOp::Modified { to, .. } => match blocks {
                    None => blocked(
                        "internal: content_block id index missing for modified apply path"@,
                    ),
                    Some(ids) => match last_named::<ContentBlockSummary>(ids, to.name) {
                        Some(s) => free(
                            seq![WriteView::UpdateBlock { id: s.content_block_id, block: to }],
                        ),
                        None => blocked(
                            "internal: modified content block '"@ + to.name
                                + "' missing from id index"@,
                        ),
                    },
                },
                _ => free(Seq::empty()),
            }
        },
        ResourceDiffView::EmailTemplate(c) => if c.orphan {
            free(Seq::empty())
        } else {
            match c.op {
                DiffOp::Added(et) => free(seq![WriteView::CreateTemplate(et)]),
                DiffOp::Modified { to, .. } => match templates {
                    None => blocked(
                        "internal: email_template id index missing for modified apply path"@,
                    ),
                    Some(ids) => match last_named::<EmailTemplateSummary>(ids, to.name) {
                        Some(s) => free(
                            seq![
                                WriteView::UpdateTemplate {
                                    id: s.email_template_id,
                                    template: to,
                                },
                            ],
                        ),
                        None => blocked(
                            "internal: modified email template '"@ + to.name
                                + "' missing from id index"@,
                        ),
                    },
                },
                _ => free(Seq::empty()),
            }
        },
        ResourceDiffView::CustomAttribute(_) => free(Seq::empty()),
        ResourceDiffView::Tag(_) => free(Seq::empty()),
    }
}

/// The writes of all diffs but those of custom attributes, up to the first
/// diff with something in its way.
pub open spec fn direct_writes(
    diffs: Seq<ResourceDiffView>,
    blocks: Option<Seq<ContentBlockSummaryView>>,
    templates: Option<Seq<EmailTemplateSummaryView>>,
) -> PlannedWritesView
    decreases diffs.len(),
{
    if diffs.len() == 0 {
        free(Seq::empty())
    } else {
        chained(
            direct_writes(diffs.drop_last(), blocks, templates),
            diff_writes(diffs.last(), blocks, templates),
        )
    }
}

/// The custom attributes whose flag changes to the given value.
pub open spec fn toggled(diffs: Seq<ResourceDiffView>, deprecated: bool) -> Seq<Seq<char>>
    decreases diffs.len(),
{
    if diffs.len() == 0 {
        Seq::empty()
    } else {
        let before = toggled(diffs.drop_last(), deprecated);
        match diffs.last() {
            ResourceDiffView::CustomAttribute(a) => match a.op {
                CustomAttributeOp::DeprecationToggled { to, .. } => if to == deprecated {
                    before.push(a.name)
                } else {
                    before
                },
                _ => before,
            },
            _ => before,
        }
    }
}

/// The write that sets the flag of custom attributes, where there are any.
pub open spec fn toggle_write(diffs: Seq<ResourceDiffView>, deprecated: bool) -> Seq<WriteView> {
    if toggled(diffs, deprecated).len() == 0 {
        Seq::empty()
    } else {
        seq![WriteView::SetDeprecated { names: toggled(diffs, deprecated), deprecated }]
    }
}

/// All writes in their order.
pub open spec fn all_writes(
    diffs: Seq<ResourceDiffView>,
    blocks: Option<Seq<ContentBlockSummaryView>>,
    templates: Option<Seq<EmailTemplateSummaryView>>,
) -> PlannedWritesView {
    chained(
        direct_writes(diffs, blocks, templates),
        free(toggle_write(diffs, true) + toggle_write(diffs, false)),
    )
}

/// The model of an optional list.
pub open spec fn opt_views<T: View>(o: Option<&Vec<T>>) -> Option<Seq<T::V>> {
    match o {
        Some(v) => Some(views(v@)),
        None => None,
    }
}

/// No content block or email template is to be removed: one that is only
/// remote is an orphan.
pub open spec fn removes_nothing_but_catalogs(diffs: Seq<ResourceDiffView>) -> bool {
    forall|i: int|
        0 <= i < diffs.len() ==> match #[trigger] diffs[i] {
            ResourceDiffView::ContentBlock(c) => c.orphan || c.op !is Removed,
            ResourceDiffView::EmailTemplate(c) => c.orphan || c.op !is Removed,
            _ => true,
        }
}

/// Whether no content block or email template is to be removed.
pub fn is_applicable(summary: &DiffSummary) -> (r: bool)
    ensures
        r == removes_nothing_but_catalogs(summary@),
{
    let mut i: usize = 0;
    while i < summary.diffs.len()
        invariant
            i <= summary.diffs@.len(),
            forall|j: int|
                0 <= j < i ==> match #[trigger] summary@[j] {
                    ResourceDiffView::ContentBlock(c) => c.orphan || c.op !is Removed,
                    ResourceDiffView::EmailTemplate(c) => c.orphan || c.op !is Removed,
                    _ => true,
                },
        decreases summary.diffs@.len() - i,
    {
        assert(summary@[i as int] == summary.diffs@[i as int]@);
        match &summary.diffs[i] {
            ResourceDiff::ContentBlock(c) => {
                if !c.orphan && matches!(c.op, DiffOp::Removed(_)) {
                    return false;
                }
            },
            ResourceDiff::EmailTemplate(c) => {
                if !c.orphan && matches!(c.op, DiffOp::Removed(_)) {
                    return false;
                }
            },
            _ => {},
        }
        i = i + 1;
    }
    true
}

/// Appends the writes of the field changes, or those up to one that cannot be
/// made.
fn push_field_writes(
    out: &mut Vec<Write>,
    catalog: &String,
    ops: &Vec<DiffOp<CatalogField>>,
) -> (r: Option<String>)
    ensures
        views(final(out)@) == views(old(out)@) + field_writes(catalog@, views(ops@)).writes,
        opt_text(r) == field_writes(catalog@, views(ops@)).stop,
{
    let ghost os = views(ops@);
    let ghost start = views(out@);
    let mut i: usize = 0;
    assert(start + field_writes(catalog@, os.take(0)).writes =~= start);
    while i < ops.len()
        invariant
            i <= ops@.len(),
            os == views(ops@),
            start == views(old(out)@),
            views(out@) == start + field_writes(catalog@, os.take(i as int)).writes,
            field_writes(catalog@, os.take(i as int)).stop is None,
        decreases ops@.len() - i,
    {
        let ghost before = out@;
        proof {
            assert(os.take(i + 1).drop_last() =~= os.take(i as int));
            assert(os.take(i + 1).last() == ops@[i as int]@);
        }
        match &ops[i] {
            DiffOp::Added(f) => {
                out.push(Write::AddField { catalog: catalog.clone(), field: f.clone() });
            },
            DiffOp::Removed(f) => {
                out.push(Write::DeleteField { catalog: catalog.clone(), name: f.name.clone() });
            },
            DiffOp::Modified { .. } => {
                proof {
                    assert(views(out@) =~= start + field_writes(catalog@, os.take(i + 1)).writes);
                    lemma_field_stop(catalog@, os, i + 1);
                }
                return Some(
                    owned(
                        "internal: Modified field op should have been rejected by check_for_unsupported_ops",
                    ),
                );
            },
            DiffOp::Unchanged => {},
        }
        assert(views(out@) =~= views(before) + field_write(catalog@, ops@[i as int]@).writes);
        assert(views(out@) =~= start + field_writes(catalog@, os.take(i + 1)).writes);
        i = i + 1;
    }
    assert(os.take(i as int) =~= os);
    None
}

/// What stands in the way of the first field changes stands in the way of
/// all.
proof fn lemma_field_stop(catalog: Seq<char>, ops: Seq<DiffOp<CatalogFieldView>>, i: int)
    requires
        0 <= i <= ops.len(),
        field_writes(catalog, ops.take(i)).stop is Some,
    ensures
        field_writes(catalog, ops) == field_writes(catalog, ops.take(i)),
    decreases ops.len(),
{
    if i == ops.len() {
        assert(ops.take(i) =~= ops);
    } else {
        assert(ops.drop_last().take(i) =~= ops.take(i));
        lemma_field_stop(catalog, ops.drop_last(), i);
    }
}

/// Appends the writes of one diff, and says what stands in the way after
/// them.
fn push_writes(
    out: &mut Vec<Write>,
    d: &ResourceDiff,
    blocks: Option<&Vec<ContentBlockSummary>>,
    templates: Option<&Vec<EmailTemplateSummary>>,
) -> (r: Option<String>)
    ensures
        views(final(out)@) == views(old(out)@) + diff_writes(
            d@,
            opt_views(blocks),
            opt_views(templates),
        ).writes,
        opt_text(r) == diff_writes(d@, opt_views(blocks), opt_views(templates)).stop,
{
    let ghost before = views(out@);
    let ghost own = diff_writes(d@, opt_views(blocks), opt_views(templates));
    let mut stop: Option<String> = None;
    match d {
        ResourceDiff::CatalogSchema(c) => match &c.op {
            DiffOp::Added(cat) => {
                out.push(Write::CreateCatalog(cat.clone()));
            },
            DiffOp::Removed(_) => {
                out.push(Write::DeleteCatalog(c.name.clone()));
            },
            _ => {
                stop = push_field_writes(out, &c.name, &c.field_diffs);
            },
        },
        ResourceDiff::ContentBlock(c) => {
            if !c.orphan {
                match &c.op {
                    DiffOp::Added(cb) => {
                        out.push(Write::CreateBlock(cb.clone()));
                    },
                    DiffOp::Modified { to, .. } => match blocks {
                        None => {
                            stop = Some(
                                owned(
                                    "internal: content_block id index missing for modified apply path",
                                ),
                            );
                        },
                        Some(ids) => match find_last_named(ids, to.name.as_str()) {
                            Some(i) => {
                                let id = ids[i].content_block_id.clone();
                                assert(id@ == ids@[i as int]@.content_block_id);
                                out.push(Write::UpdateBlock { id, block: to.clone() });
                            },
                            None => {
                                let mut m = owned("internal: modified content block '");
                                m.push_str(to.name.as_str());
                                m.push_str("' missing from id index");
                                stop = Some(m);
                            },
                        },
                    },
                    _ => {},
                }
            }
        },
        ResourceDiff::EmailTemplate(c) => {
            if !c.orphan {
                match &c.op {
                    DiffOp::Added(et) => {
                        out.push(Write::CreateTemplate(et.clone()));
                    },
                    DiffOp::Modified { to, .. } => match templates {
                        None => {
                            stop = Some(
                                owned(
                                    "internal: email_template id index missing for modified apply path",
                                ),
                            );
                        },
                        Some(ids) => match find_last_named(ids, to.name.as_str()) {
                            Some(i) => {
                                let id = ids[i].email_template_id.clone();
                                assert(id@ == ids@[i as int]@.email_template_id);
                                out.push(Write::UpdateTemplate { id, template: to.clone() });
                            },
                            None => {
                                let mut m = owned("internal: modified email template '");
                                m.push_str(to.name.as_str());
                                m.push_str("' missing from id index");
                                stop = Some(m);
                            },
                        },
                    },
                    _ => {},
                }
            }
        },
        _ => {},
    }
    assert(views(out@) =~= before + own.writes);
    stop
}

fn toggled_names(summary: &DiffSummary, deprecated: bool) -> (r: Vec<String>)
    ensures
        strs(r@) == toggled(summary@, deprecated),
{
    let ghost ds = summary@;
    let mut out: Vec<String> = Vec::new();
    let mut i: usize = 0;
    assert(strs(out@) =~= toggled(ds.take(0), deprecated));
    while i < summary.diffs.len()
        invariant
            i <= summary.diffs@.len(),
            ds == views(summary.diffs@),
            strs(out@) == toggled(ds.take(i as int), deprecated),
        decreases summary.diffs@.len() - i,
    {
        proof {
            assert(ds.take(i + 1).drop_last() =~= ds.take(i as int));
            assert(ds.take(i + 1).last() == summary.diffs@[i as int]@);
        }
        if let ResourceDiff::CustomAttribute(a) = &summary.diffs[i] {
            if let CustomAttributeOp::DeprecationToggled { to, .. } = a.op {
                if to == deprecated {
                    let ghost before = out@;
                    out.push(a.name.clone());
                    assert(strs(out@) =~= strs(before).push(a.name@));
                }
            }
        }
        i = i + 1;
    }
    assert(ds.take(i as int) =~= ds);
    out
}

fn push_toggle(out: &mut Vec<Write>, summary: &DiffSummary, deprecated: bool)
    ensures
        views(final(out)@) == views(old(out)@) + toggle_write(summary@, deprecated),
{
    let ghost before = views(out@);
    let names = toggled_names(summary, deprecated);
    assert(strs(names@).len() == names@.len());
    if names.len() > 0 {
        let ghost listed = strs(names@);
        out.push(Write::SetDeprecated { names, deprecated });
        assert(views(out@) =~= before + seq![
            WriteView::SetDeprecated { names: listed, deprecated },
        ]);
    } else {
        assert(views(out@) =~= before + Seq::empty());
    }
}

/// The writes that bring Braze to what the summary wants, in their order: the
/// diffs in theirs, and the flags of custom attributes at the end, in at most
/// two calls. Ids are only known of kinds that were compared. An update with
/// no id ends the run when its turn comes, after the writes before it.
pub fn planned_writes(
    summary: &DiffSummary,
    blocks: Option<&Vec<ContentBlockSummary>>,
    templates: Option<&Vec<EmailTemplateSummary>>,
) -> (r: PlannedWrites)
    requires
        removes_nothing_but_catalogs(summary@),
    ensures
        r@ == all_writes(summary@, opt_views(blocks), opt_views(templates)),
{
    let ghost ds = summary@;
    let ghost bs = opt_views(blocks);
    let ghost ts = opt_views(templates);
    let mut out: Vec<Write> = Vec::new();
    let mut i: usize = 0;
    assert(views(out@) =~= Seq::empty());
    while i < summary.diffs.len()
        invariant
            i <= summary.diffs@.len(),
            ds == views(summary.diffs@),
            ds == summary@,
            bs == opt_views(blocks),
            ts == opt_views(templates),
            direct_writes(ds.take(i as int), bs, ts) == free(views(out@)),
        decreases summary.diffs@.len() - i,
    {
        proof {
            assert(ds.take(i + 1).drop_last() =~= ds.take(i as int));
            assert(ds.take(i + 1).last() == summary.diffs@[i as int]@);
        }
        if let Some(m) = push_writes(&mut out, &summary.diffs[i], blocks, templates) {
            proof {
                lemma_direct_stop(ds, bs, ts, i + 1);
            }
            return PlannedWrites { writes: out, stop: Some(m) };
        }
        i = i + 1;
    }
    assert(ds.take(i as int) =~= ds);
    let ghost own = views(out@);
    push_toggle(&mut out, summary, true);
    push_toggle(&mut out, summary, false);
    assert(views(out@) =~= own + (toggle_write(ds, true) + toggle_write(ds, false)));
    PlannedWrites { writes: out, stop: None }
}

/// What stands in the way of the first diffs stands in the way of all.
proof fn lemma_direct_stop(
    diffs: Seq<ResourceDiffView>,
    blocks: Option<Seq<ContentBlockSummaryView>>,
    templates: Option<Seq<EmailTemplateSummaryView>>,
    i: int,
)
    requires
        0 <= i <= diffs.len(),
        direct_writes(diffs.take(i), blocks, templates).stop is Some,
    ensures
        direct_writes(diffs, blocks, templates) == direct_writes(
            diffs.take(i),
            blocks,
            templates,
        ),
    decreases diffs.len(),
{
    if i == diffs.len() {
        assert(diffs.take(i) =~= diffs);
    } else {
        assert(diffs.drop_last().take(i) =~= diffs.take(i));
        lemma_direct_stop(diffs.drop_last(), blocks, templates, i);
    }
}

/// How a write is named in reports.
pub open spec fn write_label(w: WriteView) -> Seq<char> {
    match w {
        WriteView::CreateCatalog(c) => "catalog_schema '"@ + c.name + "'"@,
        WriteView::DeleteCatalog(n) => "catalog_schema '"@ + n + "'"@,
        WriteView::AddField { catalog, field } => "catalog_schema '"@ + catalog + "' field '"@
            + field.name + "'"@,
        WriteView::DeleteField { catalog, name } => "catalog_schema '"@ + catalog + "' field '"@
            + name + "'"@,
        WriteView::CreateBlock(b) => "content_block '"@ + b.name + "'"@,
        WriteView::UpdateBlock { block, .. } => "content_block '"@ + block.name + "'"@,
        WriteView::CreateTemplate(t) => "email_template '"@ + t.name + "'"@,
        WriteView::UpdateTemplate { template, .. } => "email_template '"@ + template.name + "'"@,
        WriteView::SetDeprecated { names, .. } => "custom_attribute '"@ + join(names, "', '"@)
            + "'"@,
    }
}

/// How many changes a write makes.
pub open spec fn write_changes(w: WriteView) -> nat {
    match w {
        WriteView::SetDeprecated { names, .. } => names.len(),
        _ => 1,
    }
}

fn field_label(catalog: &str, field: &str) -> (r: String)
    ensures
        r@ == "catalog_schema '"@ + catalog@ + "' field '"@ + field@ + "'"@,
{
    let mut out = owned("catalog_schema '");
    out.push_str(catalog);
    out.push_str("' field '");
    out.push_str(field);
    out.push_str("'");
    out
}

fn catalog_label(name: &str) -> (r: String)
    ensures
        r@ == "catalog_schema '"@ + name@ + "'"@,
{
    let mut out = owned("catalog_schema '");
    out.push_str(name);
    out.push_str("'");
    out
}

impl Write {
    /// How the write is named in reports.
    pub fn label(&self) -> (r: String)
        ensures
            r@ == write_label(self@),
    {
        match self {
            Write::CreateCatalog(c) => catalog_label(c.name.as_str()),
            Write::DeleteCatalog(n) => catalog_label(n.as_str()),
            Write::AddField { catalog, field } => field_label(
                catalog.as_str(),
                field.name.as_str(),
            ),
            Write::DeleteField { catalog, name } => field_label(catalog.as_str(), name.as_str()),
            Write::CreateBlock(b) => block_label(b.name.as_str()),
            Write::UpdateBlock { block, .. } => block_label(block.name.as_str()),
            Write::CreateTemplate(t) => template_label(t.name.as_str()),
            Write::UpdateTemplate { template, .. } => template_label(template.name.as_str()),
            Write::SetDeprecated { names, .. } => {
                let mut out = owned("custom_attribute '");
                out.push_str(join_text(names, "', '").as_str());
                out.push_str("'");
                out
            },
        }
    }

    /// How many changes the write makes.
    pub fn changes(&self) -> (r: usize)
        ensures
            r == write_changes(self@),
    {
        match self {
            Write::SetDeprecated { names, .. } => names.len(),
            _ => 1,
        }
    }
}

/// One line for each write.
pub open spec fn write_lines(writes: Seq<WriteView>) -> Seq<char>
    decreases writes.len(),
{
    if writes.len() == 0 {
        Seq::empty()
    } else {
        write_lines(writes.drop_last()) + "    - "@ + write_label(writes.last()) + "\n"@
    }
}

/// The report on a run that was cut short by a write that failed. Every write
/// is in it: those before the failed one are live, those behind it were not
/// attempted.
pub open spec fn abort_report(
    writes: Seq<WriteView>,
    failed: int,
    problem: Seq<char>,
    plan_locked: bool,
) -> Seq<char> {
    let rest = writes.skip(failed + 1);
    (if failed > 0 {
        "✗ apply aborted — partial state left in Braze (no cross-resource rollback):\n  applied ("@
            + decimal(failed as nat) + "):\n"@ + write_lines(writes.take(failed))
    } else {
        "✗ apply aborted — the first write failed, so there is no earlier write to roll back:\n"@
    }) + "  failed (may or may not have landed):\n    - "@ + write_label(writes[failed]) + ": "@
        + problem + "\n  not attempted ("@ + decimal(rest.len()) + "):\n"@ + write_lines(rest)
        + (if failed > 0 {
        "  → the applied writes above are live and are not rolled back.\n"@
    } else {
        Seq::empty()
    }) + "  → a failed write is not proof that nothing changed: Braze can\n    commit a write whose response never reaches the client.\n    Run `braze-sync diff` to confirm the current remote state, then\n"@
        + (if plan_locked {
        "    regenerate the plan with `diff --plan-out` before re-running\n    `apply --plan`.\n"@
    } else {
        "    re-run `apply` with the same flags to pick up the changes that\n    were not attempted.\n"@
    })
}

fn render_writes(writes: &Vec<Write>, from: usize, to: usize) -> (r: String)
    requires
        from <= to <= writes@.len(),
    ensures
        r@ == write_lines(views(writes@).subrange(from as int, to as int)),
{
    let ghost ws = views(writes@);
    let mut out = String::new();
    let mut i: usize = from;
    assert(write_lines(ws.subrange(from as int, from as int)) =~= Seq::empty());
    while i < to
        invariant
            from <= i <= to,
            to <= writes@.len(),
            ws == views(writes@),
            out@ == write_lines(ws.subrange(from as int, i as int)),
        decreases to - i,
    {
        proof {
            assert(ws.subrange(from as int, i + 1).drop_last() =~= ws.subrange(
                from as int,
                i as int,
            ));
            assert(ws.subrange(from as int, i + 1).last() == writes@[i as int]@);
        }
        out.push_str("    - ");
        out.push_str(writes[i].label().as_str());
        out.push_str("\n");
        i = i + 1;
    }
    out
}

/// Reports on a run that was cut short by a write that failed.
pub fn report_abort(writes: &Vec<Write>, failed: usize, problem: &str, plan_locked: bool) -> (r:
    String)
    requires
        failed < writes@.len(),
    ensures
        r@ == abort_report(views(writes@), failed as int, problem@, plan_locked),
{
    let n: usize = writes.len();
    let ghost ws = views(writes@);
    assert(ws.subrange(0, failed as int) =~= ws.take(failed as int));
    assert(ws.subrange(failed + 1, n as int) =~= ws.skip(failed + 1));
    let mut out = if failed > 0 {
        let mut head = owned(
            "✗ apply aborted — partial state left in Braze (no cross-resource rollback):\n  applied (",
        );
        head.push_str(decimal_text(failed as u64).as_str());
        head.push_str("):\n");
        head.push_str(render_writes(writes, 0, failed).as_str());
        head
    } else {
        owned(
            "✗ apply aborted — the first write failed, so there is no earlier write to roll back:\n",
        )
    };
    out.push_str("  failed (may or may not have landed):\n    - ");
    out.push_str(writes[failed].label().as_str());
    out.push_str(": ");
    out.push_str(problem);
    out.push_str("\n  not attempted (");
    out.push_str(decimal_text((n - failed - 1) as u64).as_str());
    out.push_str("):\n");
    out.push_str(render_writes(writes, failed + 1, n).as_str());
    let live = if failed > 0 {
        owned("  → the applied writes above are live and are not rolled back.\n")
    } else {
        String::new()
    };
    out.push_str(live.as_str());
    out.push_str(
        "  → a failed write is not proof that nothing changed: Braze can\n    commit a write whose response never reaches the client.\n    Run `braze-sync diff` to confirm the current remote state, then\n",
    );
    out.push_str(
        if plan_locked {
            "    regenerate the plan with `diff --plan-out` before re-running\n    `apply --plan`.\n"
        } else {
            "    re-run `apply` with the same flags to pick up the changes that\n    were not attempted.\n"
        },
    );
    out
}

/// How a run goes on.
#[derive(Debug, PartialEq)]
pub enum WriteStep {
    /// The write at this place is made next.
    Issue(usize),
    /// A write failed. The run ends with this report.
    Abort(String),
    /// Something stands in the way of the next diff. The run ends.
    Stop(String),
    /// All writes are made.
    Done,
}

/// What a step is.
pub enum WriteStepView {
    Issue(int),
    Abort(Seq<char>),
    Stop(Seq<char>),
    Done,
}

impl View for WriteStep {
    type V = WriteStepView;

    open spec fn view(&self) -> WriteStepView {
        match self {
            WriteStep::Issue(i) => WriteStepView::Issue(*i as int),
            WriteStep::Abort(m) => WriteStepView::Abort(m@),
            WriteStep::Stop(m) => WriteStepView::Stop(m@),
            WriteStep::Done => WriteStepView::Done,
        }
    }
}

/// How a run goes on after so many attempts, the last of which may have
/// failed: writes are made one at a time in their order, and the first that
/// fails ends the run.
pub open spec fn step(
    plan: PlannedWritesView,
    attempted: int,
    failure: Option<Seq<char>>,
    plan_locked: bool,
) -> WriteStepView {
    match failure {
        Some(problem) => WriteStepView::Abort(
            abort_report(plan.writes, attempted - 1, problem, plan_locked),
        ),
        None => if attempted < plan.writes.len() {
            WriteStepView::Issue(attempted)
        } else {
            match plan.stop {
                Some(m) => WriteStepView::Stop(m),
                None => WriteStepView::Done,
            }
        },
    }
}

/// Decides how a run goes on, given how many writes were attempted and what
/// went wrong with the last of them.
pub fn next_write(
    plan: &PlannedWrites,
    attempted: usize,
    failure: Option<&str>,
    plan_locked: bool,
) -> (r: WriteStep)
    requires
        attempted <= plan.writes@.len(),
        failure is Some ==> attempted > 0,
    ensures
        r@ == step(plan@, attempted as int, opt_str(failure), plan_locked),
{
    match failure {
        Some(problem) => WriteStep::Abort(
            report_abort(&plan.writes, attempted - 1, problem, plan_locked),
        ),
        None => if attempted < plan.writes.len() {
            WriteStep::Issue(attempted)
        } else {
            match &plan.stop {
                Some(m) => WriteStep::Stop(m.clone()),
                None => WriteStep::Done,
            }
        },
    }
}

/// The places of the writes that a run makes from so many attempts on, where
/// `outcome` tells what becomes of each.
pub open spec fn issued(
    plan: PlannedWritesView,
    outcome: spec_fn(int) -> Option<Seq<char>>,
    attempted: int,
    failure: Option<Seq<char>>,
    plan_locked: bool,
) -> Seq<int>
    decreases plan.writes.len() - attempted,
{
    match step(plan, attempted, failure, plan_locked) {
        WriteStepView::Issue(i) => if attempted < plan.writes.len() {
            seq![i] + issued(plan, outcome, attempted + 1, outcome(i), plan_locked)
        } else {
            Seq::empty()
        },
        _ => Seq::empty(),
    }
}

/// A run makes its writes one after the other and stops at the first that
/// fails: those before it were made, it was tried once, and none behind it
/// is tried. The run then ends with the report on that write.
pub proof fn run_stops_at_first_failure(
    plan: PlannedWritesView,
    outcome: spec_fn(int) -> Option<Seq<char>>,
    failed: int,
    plan_locked: bool,
)
    requires
        0 <= failed < plan.writes.len(),
        outcome(failed) is Some,
        forall|i: int| 0 <= i < failed ==> #[trigger] outcome(i) is None,
    ensures
        issued(plan, outcome, 0, None, plan_locked) == Seq::new((failed + 1) as nat, |i: int| i),
        step(plan, failed + 1, outcome(failed), plan_locked) == WriteStepView::Abort(
            abort_report(plan.writes, failed, outcome(failed)->0, plan_locked),
        ),
{
    lemma_issued_up_to(plan, outcome, 0, failed, plan_locked);
    assert(issued(plan, outcome, failed + 1, outcome(failed), plan_locked) =~= Seq::empty());
    assert(issued(plan, outcome, failed, None, plan_locked) =~= seq![failed]);
    assert(issued(plan, outcome, 0, None, plan_locked) =~= Seq::new(
        (failed + 1) as nat,
        |i: int| i,
    ));
}

/// A run in which nothing fails makes every write once, in order, and is then
/// done, unless something stands in the way of what follows.
pub proof fn run_makes_every_write(
    plan: PlannedWritesView,
    outcome: spec_fn(int) -> Option<Seq<char>>,
    plan_locked: bool,
)
    requires
        forall|i: int| 0 <= i < plan.writes.len() ==> #[trigger] outcome(i) is None,
    ensures
        issued(plan, outcome, 0, None, plan_locked) == Seq::new(
            plan.writes.len(),
            |i: int| i,
        ),
        step(plan, plan.writes.len() as int, None, plan_locked) == match plan.stop {
            Some(m) => WriteStepView::Stop(m),
            None => WriteStepView::Done,
        },
{
    let n = plan.writes.len() as int;
    lemma_issued_up_to(plan, outcome, 0, n, plan_locked);
    assert(issued(plan, outcome, n, None, plan_locked) =~= Seq::empty());
    assert(issued(plan, outcome, 0, None, plan_locked) =~= Seq::new(n as nat, |i: int| i));
}

proof fn lemma_issued_up_to(
    plan: PlannedWritesView,
    outcome: spec_fn(int) -> Option<Seq<char>>,
    from: int,
    to: int,
    plan_locked: bool,
)
    requires
        0 <= from <= to <= plan.writes.len(),
        forall|i: int| from <= i < to ==> #[trigger] outcome(i) is None,
    ensures
        issued(plan, outcome, from, None, plan_locked) == Seq::new(
            (to - from) as nat,
            |i: int| from + i,
        ) + issued(plan, outcome, to, None, plan_locked),
    decreases to - from,
{
    let rest = issued(plan, outcome, to, None, plan_locked);
    if from == to {
        assert(Seq::new(0, |i: int| from + i) + rest =~= rest);
    } else {
        lemma_issued_up_to(plan, outcome, from + 1, to, plan_locked);
        assert(outcome(from) is None);
        assert(issued(plan, outcome, from, None, plan_locked) == seq![from] + issued(
            plan,
            outcome,
            from + 1,
            None,
            plan_locked,
        ));
        assert(issued(plan, outcome, from, None, plan_locked) =~= Seq::new(
            (to - from) as nat,
            |i: int| from + i,
        ) + rest);
    }
}

/// Why a plan is refused: lines for the operator, and the error.
#[derive(Debug)]
pub struct PlanRefusal {
    pub notice: String,
    pub error: Error,
}

/// An optional text with its `Some` or `None`.
pub open spec fn shown_option(o: Option<Seq<char>>) -> Seq<char> {
    match o {
        Some(t) => "Some("@ + quoted(t) + ")"@,
        None => "None"@,
    }
}

fn option_text(o: Option<&str>) -> (r: String)
    ensures
        r@ == shown_option(opt_str(o)),
{
    match o {
        Some(t) => {
            let mut out = owned("Some(");
            out.push_str(quoted_text(t).as_str());
            out.push_str(")");
            out
        },
        None => owned("None"),
    }
}

/// The word of a kind, if there is a kind.
pub open spec fn kind_word(k: Option<ResourceKind>) -> Option<Seq<char>> {
    match k {
        Some(k) => Some(k.word()),
        None => None,
    }
}

/// The first way in which a plan is not for what is to be applied.
pub open spec fn scope_problem(
    plan: PlanFile,
    environment: Seq<char>,
    endpoint: Seq<char>,
    resource: Option<ResourceKind>,
    name: Option<Seq<char>>,
) -> Option<Seq<char>> {
    if plan.scope.environment@ != environment {
        Some(
            "✗ plan drift: plan was generated for environment '"@ + plan.scope.environment@
                + "' but apply targets '"@ + environment + "'"@,
        )
    } else if plan.scope.api_endpoint@ != endpoint {
        Some(
            "✗ plan drift: plan was generated for endpoint '"@ + plan.scope.api_endpoint@
                + "' but apply targets '"@ + endpoint + "'"@,
        )
    } else if plan.scope.resource != resource {
        Some(
            "✗ plan drift: plan scope --resource="@ + shown_option(kind_word(plan.scope.resource))
                + " but apply --resource="@ + shown_option(kind_word(resource)),
        )
    } else if opt_text(plan.scope.name) != name {
        Some(
            "✗ plan drift: plan scope --name="@ + shown_option(opt_text(plan.scope.name))
                + " but apply --name="@ + shown_option(name),
        )
    } else {
        None
    }
}

fn kind_text(k: Option<ResourceKind>) -> (r: Option<&'static str>)
    ensures
        opt_str(r) == kind_word(k),
{
    match k {
        Some(k) => Some(k.as_str()),
        None => None,
    }
}

fn same_kind(a: Option<ResourceKind>, b: Option<ResourceKind>) -> (r: bool)
    ensures
        r == (a == b),
{
    match (a, b) {
        (Some(x), Some(y)) => x == y,
        (None, None) => true,
        _ => false,
    }
}

fn opt_ref(o: &Option<String>) -> (r: Option<&str>)
    ensures
        opt_str(r) == opt_text(*o),
{
    match o {
        Some(s) => Some(s.as_str()),
        None => None,
    }
}

fn same_text(a: Option<&str>, b: Option<&str>) -> (r: bool)
    ensures
        r == (opt_str(a) == opt_str(b)),
{
    match (a, b) {
        (Some(x), Some(y)) => str_eq(x, y),
        (None, None) => true,
        _ => false,
    }
}

/// What is said of a plan of another version when it is held to a run.
pub open spec fn scope_version_problem(version: u32) -> Option<Seq<char>> {
    if version == CURRENT_PLAN_VERSION {
        None
    } else {
        Some(
            "plan file version "@ + decimal(version as nat)
                + " is not supported by this binary (expected "@ + decimal(
                CURRENT_PLAN_VERSION as nat,
            ) + "). Regenerate with `diff --plan-out`."@,
        )
    }
}

/// Refuses a plan that is not for what is to be applied, before anything is
/// asked of Braze.
pub fn check_plan_scope(
    plan: &PlanFile,
    environment: &str,
    endpoint: &str,
    resource: Option<ResourceKind>,
    name: Option<&str>,
) -> (r: Result<(), PlanRefusal>)
    ensures
        match scope_version_problem(plan.version) {
            Some(m) => r matches Err(e) && e.notice@.len() == 0 && (e.error matches Error::Other(
                t,
            ) && t@ == m),
            None => match scope_problem(*plan, environment@, endpoint@, resource, opt_str(name)) {
                Some(m) => r matches Err(e) && e.notice@ == m && e.error == Error::PlanDrift,
                None => r is Ok,
            },
        },
{
    if plan.version != CURRENT_PLAN_VERSION {
        let mut m = owned("plan file version ");
        m.push_str(decimal_text(plan.version as u64).as_str());
        m.push_str(" is not supported by this binary (expected ");
        m.push_str(decimal_text(CURRENT_PLAN_VERSION as u64).as_str());
        m.push_str("). Regenerate with `diff --plan-out`.");
        return Err(PlanRefusal { notice: String::new(), error: Error::Other(m) });
    }
    let mut notice = String::new();
    if !str_eq(plan.scope.environment.as_str(), environment) {
        notice = owned("✗ plan drift: plan was generated for environment '");
        notice.push_str(plan.scope.environment.as_str());
        notice.push_str("' but apply targets '");
        notice.push_str(environment);
        notice.push_str("'");
    } else if !str_eq(plan.scope.api_endpoint.as_str(), endpoint) {
        notice = owned("✗ plan drift: plan was generated for endpoint '");
        notice.push_str(plan.scope.api_endpoint.as_str());
        notice.push_str("' but apply targets '");
        notice.push_str(endpoint);
        notice.push_str("'");
    } else if !same_kind(plan.scope.resource, resource) {
        notice = owned("✗ plan drift: plan scope --resource=");
        notice.push_str(option_text(kind_text(plan.scope.resource)).as_str());
        notice.push_str(" but apply --resource=");
        notice.push_str(option_text(kind_text(resource)).as_str());
    } else if !same_text(opt_ref(&plan.scope.name), name) {
        notice = owned("✗ plan drift: plan scope --name=");
        notice.push_str(option_text(opt_ref(&plan.scope.name)).as_str());
        notice.push_str(" but apply --name=");
        notice.push_str(option_text(name).as_str());
    } else {
        return Ok(());
    }
    Err(PlanRefusal { notice, error: Error::PlanDrift })
}

/// Nanoseconds in an hour.
pub const HOUR_NANOS: i128 = 3_600_000_000_000;

/// What is said of a plan of another version of the tool.
pub open spec fn version_warning(made: Seq<char>, current: Seq<char>) -> Seq<char> {
    "⚠ plan was generated by braze-sync "@ + made + " (current: "@ + current
        + "). Proceeding — pass `diff --plan-out` again if op semantics changed."@
}

/// What is said of a plan that is old.
pub open spec fn age_warning(age: int) -> Seq<char> {
    "⚠ plan is "@ + decimal((age / HOUR_NANOS as int) as nat)
        + " hour(s) old — Braze may have drifted; consider regenerating with `diff --plan-out`."@
}

/// What is said of a plan that is used all the same.
pub open spec fn plan_warnings(plan: PlanFile, current: Seq<char>, now: int) -> Seq<Seq<char>> {
    (if plan.braze_sync_version@ != current {
        seq![version_warning(plan.braze_sync_version@, current)]
    } else {
        Seq::empty()
    }) + (if now - plan.generated_at@ > STALE_PLAN_WARN_THRESHOLD_NANOS {
        seq![age_warning(now - plan.generated_at@)]
    } else {
        Seq::empty()
    })
}

/// What to say of a plan that is used all the same: that it is of another
/// version of the tool, and that it is old.
pub fn warn_on_plan_metadata(plan: &PlanFile, current_version: &str, now: Moment) -> (r: Vec<
    String,
>)
    ensures
        strs(r@) == plan_warnings(*plan, current_version@, now@),
{
    let mut out: Vec<String> = Vec::new();
    if !str_eq(plan.braze_sync_version.as_str(), current_version) {
        let mut m = owned("⚠ plan was generated by braze-sync ");
        m.push_str(plan.braze_sync_version.as_str());
        m.push_str(" (current: ");
        m.push_str(current_version);
        m.push_str("). Proceeding — pass `diff --plan-out` again if op semantics changed.");
        out.push(m);
    }
    let ghost first = strs(out@);
    let age: i128 = now.since(plan.generated_at).as_nanos();
    if age > STALE_PLAN_WARN_THRESHOLD_NANOS {
        let hours: i128 = age / HOUR_NANOS;
        let mut m = owned("⚠ plan is ");
        m.push_str(decimal_text(hours as u64).as_str());
        m.push_str(
            " hour(s) old — Braze may have drifted; consider regenerating with `diff --plan-out`.",
        );
        out.push(m);
    }
    assert(strs(out@) =~= plan_warnings(*plan, current_version@, now@));
    out
}

/// The name of an operation as reports show it.
pub open spec fn op_name(op: PlanOpType) -> Seq<char> {
    match op {
        PlanOpType::Add => "Add"@,
        PlanOpType::Modify => "Modify"@,
        PlanOpType::DestructiveDelete => "DestructiveDelete"@,
        PlanOpType::Orphan => "Orphan"@,
        PlanOpType::Deprecate => "Deprecate"@,
        PlanOpType::Reactivate => "Reactivate"@,
    }
}

fn op_text(op: PlanOpType) -> (r: &'static str)
    ensures
        r@ == op_name(op),
{
    match op {
        PlanOpType::Add => "Add",
        PlanOpType::Modify => "Modify",
        PlanOpType::DestructiveDelete => "DestructiveDelete",
        PlanOpType::Orphan => "Orphan",
        PlanOpType::Deprecate => "Deprecate",
        PlanOpType::Reactivate => "Reactivate",
    }
}

pub open spec fn op_line(op: PlanOpView) -> Seq<char> {
    "    - "@ + op.kind.word() + " '"@ + op.name + "' ["@ + op_name(op.op) + "]"@
}

pub open spec fn op_lines(ops: Seq<PlanOpView>) -> Seq<char>
    decreases ops.len(),
{
    if ops.len() == 0 {
        Seq::empty()
    } else {
        op_lines(ops.drop_last()) + op_line(ops.last()) + "\n"@
    }
}

/// A list of operations under its heading; nothing where there are none.
pub open spec fn op_section(heading: Seq<char>, ops: Seq<PlanOpView>) -> Seq<char> {
    if ops.len() == 0 {
        Seq::empty()
    } else {
        heading + op_lines(ops)
    }
}

pub open spec fn described(p: PreconditionView) -> Seq<char> {
    match p {
        PreconditionView::Absent => "absent"@,
        PreconditionView::Digest(d) => "digest "@ + crate::diff::plan::first_chars(d, 12) + "…"@,
    }
}

pub open spec fn drift_lines(drifts: Seq<PreconditionDriftView>) -> Seq<char>
    decreases drifts.len(),
{
    if drifts.len() == 0 {
        Seq::empty()
    } else {
        drift_lines(drifts.drop_last()) + op_line(drifts.last().op) + ": expected "@ + described(
            drifts.last().expected,
        ) + ", found "@ + described(drifts.last().found) + "\n"@
    }
}

/// The report on a plan that does not match.
pub open spec fn drift_report(d: PlanOpsDiffView) -> Seq<char> {
    "✗ plan drift: saved plan and fresh plan differ\n"@ + op_section(
        "  ops in saved plan but not in fresh plan (resolved or absorbed remotely):\n"@,
        d.missing,
    ) + op_section(
        "  ops in fresh plan but not in saved plan (new drift since plan):\n"@,
        d.extra,
    ) + (if d.precondition_drift.len() == 0 {
        Seq::empty()
    } else {
        "  ops whose remote side moved since the plan:\n"@ + drift_lines(d.precondition_drift)
    }) + "  → regenerate with `diff --plan-out` and review before re-applying"@
}

fn render_op(op: &PlanOp) -> (r: String)
    ensures
        r@ == op_line(op@),
{
    let mut out = owned("    - ");
    out.push_str(op.kind.as_str());
    out.push_str(" '");
    out.push_str(op.name.as_str());
    out.push_str("' [");
    out.push_str(op_text(op.op));
    out.push_str("]");
    out
}

fn render_section(heading: &str, ops: &Vec<PlanOp>) -> (r: String)
    ensures
        r@ == op_section(heading@, views(ops@)),
{
    if ops.len() == 0 {
        return String::new();
    }
    let ghost os = views(ops@);
    let mut lines = String::new();
    let mut i: usize = 0;
    assert(op_lines(os.take(0)) =~= Seq::empty());
    while i < ops.len()
        invariant
            i <= ops@.len(),
            os == views(ops@),
            lines@ == op_lines(os.take(i as int)),
        decreases ops@.len() - i,
    {
        proof {
            assert(os.take(i + 1).drop_last() =~= os.take(i as int));
            assert(os.take(i + 1).last() == ops@[i as int]@);
        }
        lines.push_str(render_op(&ops[i]).as_str());
        lines.push_str("\n");
        i = i + 1;
    }
    assert(os.take(i as int) =~= os);
    let mut out = owned(heading);
    out.push_str(lines.as_str());
    out
}

fn render_drift(d: &PlanOpsDiff) -> (r: String)
    ensures
        r@ == drift_report(d@),
{
    let ghost ps = views(d.precondition_drift@);
    let mut moved = String::new();
    let mut i: usize = 0;
    assert(drift_lines(ps.take(0)) =~= Seq::empty());
    while i < d.precondition_drift.len()
        invariant
            i <= d.precondition_drift@.len(),
            ps == views(d.precondition_drift@),
            moved@ == drift_lines(ps.take(i as int)),
        decreases d.precondition_drift@.len() - i,
    {
        let p = &d.precondition_drift[i];
        proof {
            assert(ps.take(i + 1).drop_last() =~= ps.take(i as int));
            assert(ps.take(i + 1).last() == p@);
        }
        moved.push_str(render_op(&p.op).as_str());
        moved.push_str(": expected ");
        moved.push_str(p.expected.describe().as_str());
        moved.push_str(", found ");
        moved.push_str(p.found.describe().as_str());
        moved.push_str("\n");
        i = i + 1;
    }
    assert(ps.take(i as int) =~= ps);
    let mut out = owned("✗ plan drift: saved plan and fresh plan differ\n");
    out.push_str(
        render_section(
            "  ops in saved plan but not in fresh plan (resolved or absorbed remotely):\n",
            &d.missing,
        ).as_str(),
    );
    out.push_str(
        render_section(
            "  ops in fresh plan but not in saved plan (new drift since plan):\n",
            &d.extra,
        ).as_str(),
    );
    let section = if d.precondition_drift.len() == 0 {
        String::new()
    } else {
        let mut s = owned("  ops whose remote side moved since the plan:\n");
        s.push_str(moved.as_str());
        s
    };
    out.push_str(section.as_str());
    out.push_str("  → regenerate with `diff --plan-out` and review before re-applying");
    out
}

/// Refuses to apply what differs from a saved plan: other operations, or a
/// remote side that is no longer what the plan recorded.
pub fn check_plan_ops(saved: &PlanFile, fresh: &DiffSummary) -> (r: Result<(), PlanRefusal>)
    ensures
        plan_verdict(views(saved.ops@), fresh@, r),
{
    let ops = collect_ops(fresh);
    let d = saved.diff_ops(&ops);
    assert(is_ops_diff(views(saved.ops@), views(ops@), d@));
    if d.is_match() {
        return Ok(());
    }
    Err(PlanRefusal { notice: render_drift(&d), error: Error::PlanDrift })
}

/// Whether a saved plan still holds for a fresh summary.
pub open spec fn plan_verdict(
    saved: Seq<PlanOpView>,
    fresh: Seq<ResourceDiffView>,
    r: Result<(), PlanRefusal>,
) -> bool {
    exists|ops: Seq<PlanOpView>, d: PlanOpsDiffView|
        {
            &&& stable_sort_of::<PlanOp>(planned(fresh), ops)
            &&& #[trigger] is_ops_diff(saved, ops, d)
            &&& match r {
                Ok(_) => d.matches(),
                Err(e) => !d.matches() && e.notice@ == drift_report(d) && e.error
                    == Error::PlanDrift,
            }
        }
}

/// A decision as it is reported.
pub open spec fn is_decision(
    diffs: Seq<ResourceDiffView>,
    confirm: bool,
    allow_destructive: bool,
    r: Result<ApplyDecision, PlanRefusal>,
) -> bool {
    match decision(diffs, confirm, allow_destructive) {
        Ok(d) => r == Ok::<ApplyDecision, PlanRefusal>(d),
        Err(p) => r matches Err(e) && e.notice@.len() == 0 && is_problem(p, e.error),
    }
}

/// A decision where the run may be bound to a plan. A plan that no longer
/// holds comes before everything else.
pub open spec fn is_run_decision(
    saved: Option<PlanFile>,
    diffs: Seq<ResourceDiffView>,
    confirm: bool,
    allow_destructive: bool,
    r: Result<ApplyDecision, PlanRefusal>,
) -> bool {
    match saved {
        Some(p) => exists|v: Result<(), PlanRefusal>|
            {
                &&& #[trigger] plan_verdict(views(p.ops@), diffs, v)
                &&& v is Err ==> r == Err::<ApplyDecision, PlanRefusal>(v->Err_0)
                &&& v is Ok ==> is_decision(diffs, confirm, allow_destructive, r)
            },
        None => is_decision(diffs, confirm, allow_destructive, r),
    }
}

/// The plan itself, where there is one.
pub open spec fn plan_of(saved: Option<&PlanFile>) -> Option<PlanFile> {
    match saved {
        Some(p) => Some(*p),
        None => None,
    }
}

/// Decides whether to write where the run may be bound to a plan. A plan that
/// no longer holds comes before everything else.
pub fn decide_run(
    saved: Option<&PlanFile>,
    summary: &DiffSummary,
    confirm: bool,
    allow_destructive: bool,
) -> (r: Result<ApplyDecision, PlanRefusal>)
    ensures
        is_run_decision(plan_of(saved), summary@, confirm, allow_destructive, r),
{
    if let Some(p) = saved {
        let v = check_plan_ops(p, summary);
        assert(plan_verdict(views(p.ops@), summary@, v));
        if let Err(e) = v {
            return Err(e);
        }
    }
    match decide(summary, confirm, allow_destructive) {
        Ok(d) => Ok(d),
        Err(error) => Err(PlanRefusal { notice: String::new(), error }),
    }
}

/// What a run comes to: the decision, and the writes that follow from it.
#[derive(Debug)]
pub struct PlannedRun {
    pub decision: ApplyDecision,
    pub plan: PlannedWrites,
}

/// The writes that follow from a decision: those of the summary where it is to
/// write, and none otherwise.
pub open spec fn decided_writes(
    d: ApplyDecision,
    diffs: Seq<ResourceDiffView>,
    blocks: Option<Seq<ContentBlockSummaryView>>,
    templates: Option<Seq<EmailTemplateSummaryView>>,
) -> PlannedWritesView {
    if d == ApplyDecision::Write {
        all_writes(diffs, blocks, templates)
    } else {
        free(Seq::empty())
    }
}

/// What the problem with the contents of a plan is, where there is a plan and
/// it has one.
pub open spec fn plan_problem(saved: Option<PlanFile>) -> Option<Seq<char>> {
    match saved {
        Some(p) => content_problem(p),
        None => None,
    }
}

/// What a run comes to, from the plan it is bound to up to its writes.
pub open spec fn is_planned_run(
    saved: Option<PlanFile>,
    diffs: Seq<ResourceDiffView>,
    confirm: bool,
    allow_destructive: bool,
    blocks: Option<Seq<ContentBlockSummaryView>>,
    templates: Option<Seq<EmailTemplateSummaryView>>,
    r: Result<PlannedRun, PlanRefusal>,
) -> bool {
    match plan_problem(saved) {
        Some(m) => r matches Err(e) && e.notice@.len() == 0 && (e.error matches Error::Other(t)
            && t@ == m),
        None => exists|d: Result<ApplyDecision, PlanRefusal>|
            {
                &&& #[trigger] is_run_decision(saved, diffs, confirm, allow_destructive, d)
                &&& match d {
                    Ok(v) => r matches Ok(run) && run.decision == v && run.plan@
                        == decided_writes(v, diffs, blocks, templates),
                    Err(e) => r == Err::<PlannedRun, PlanRefusal>(e),
                }
            },
    }
}

/// Plans a run. A plan whose contents cannot be checked is refused, then one
/// that no longer holds; only a decision to write has writes.
pub fn plan_run(
    saved: Option<&PlanFile>,
    summary: &DiffSummary,
    confirm: bool,
    allow_destructive: bool,
    blocks: Option<&Vec<ContentBlockSummary>>,
    templates: Option<&Vec<EmailTemplateSummary>>,
) -> (r: Result<PlannedRun, PlanRefusal>)
    requires
        removes_nothing_but_catalogs(summary@),
    ensures
        is_planned_run(
            plan_of(saved),
            summary@,
            confirm,
            allow_destructive,
            opt_views(blocks),
            opt_views(templates),
            r,
        ),
{
    if let Some(p) = saved {
        if let Err(m) = p.check_contents() {
            return Err(PlanRefusal { notice: String::new(), error: Error::Other(m) });
        }
    }
    let decided = decide_run(saved, summary, confirm, allow_destructive);
    assert(is_run_decision(plan_of(saved), summary@, confirm, allow_destructive, decided));
    match decided {
        Err(e) => Err(e),
        Ok(decision) => {
            let plan = match decision {
                ApplyDecision::Write => planned_writes(summary, blocks, templates),
                _ => {
                    let writes: Vec<Write> = Vec::new();
                    assert(views(writes@) =~= Seq::empty());
                    PlannedWrites { writes, stop: None }
                },
            };
            Ok(PlannedRun { decision, plan })
        },
    }
}

/// Nothing is written but by a decision to write: a run with a write was
/// confirmed, has something to apply, was permitted what loses data where it
/// would, and asks nothing that the API cannot do. Where it is bound to a
/// plan, that plan could be checked and still holds.
pub proof fn writes_were_decided(
    saved: Option<PlanFile>,
    diffs: Seq<ResourceDiffView>,
    confirm: bool,
    allow_destructive: bool,
    blocks: Option<Seq<ContentBlockSummaryView>>,
    templates: Option<Seq<EmailTemplateSummaryView>>,
    run: PlannedRun,
)
    requires
        is_planned_run(
            saved,
            diffs,
            confirm,
            allow_destructive,
            blocks,
            templates,
            Ok(run),
        ),
        run.plan@.writes.len() > 0 || run.plan@.stop is Some,
    ensures
        run.decision == ApplyDecision::Write,
        run.plan@ == all_writes(diffs, blocks, templates),
        confirm,
        actionable_count(diffs) > 0,
        destructive_count(diffs) > 0 ==> allow_destructive,
        first_unsupported(diffs) is None,
        saved matches Some(p) ==> content_problem(p) is None && plan_verdict(
            views(p.ops@),
            diffs,
            Ok(()),
        ),
{
    let d = choose|d: Result<ApplyDecision, PlanRefusal>|
        {
            &&& #[trigger] is_run_decision(saved, diffs, confirm, allow_destructive, d)
            &&& match d {
                Ok(v) => run.decision == v && run.plan@ == decided_writes(
                    v,
                    diffs,
                    blocks,
                    templates,
                ),
                Err(e) => false,
            }
        };
    assert(is_run_decision(saved, diffs, confirm, allow_destructive, d));
    assert(d == Ok::<ApplyDecision, PlanRefusal>(run.decision));
    if let Some(p) = saved {
        let v = choose|v: Result<(), PlanRefusal>|
            {
                &&& #[trigger] plan_verdict(views(p.ops@), diffs, v)
                &&& v is Err ==> d == Err::<ApplyDecision, PlanRefusal>(v->Err_0)
                &&& v is Ok ==> is_decision(diffs, confirm, allow_destructive, d)
            };
        assert(v is Ok);
        let (ops, diff) = choose|ops: Seq<PlanOpView>, diff: PlanOpsDiffView|
            {
                &&& stable_sort_of::<PlanOp>(planned(diffs), ops)
                &&& #[trigger] is_ops_diff(views(p.ops@), ops, diff)
                &&& diff.matches()
            };
        assert(is_ops_diff(views(p.ops@), ops, diff));
    }
    assert(is_decision(diffs, confirm, allow_destructive, d));
}

/// A run that was not decided to write is over before it begins: it makes no
/// write, whatever would have become of one.
pub proof fn undecided_run_issues_nothing(
    saved: Option<PlanFile>,
    diffs: Seq<ResourceDiffView>,
    confirm: bool,
    allow_destructive: bool,
    blocks: Option<Seq<ContentBlockSummaryView>>,
    templates: Option<Seq<EmailTemplateSummaryView>>,
    run: PlannedRun,
    outcome: spec_fn(int) -> Option<Seq<char>>,
    plan_locked: bool,
)
    requires
        is_planned_run(
            saved,
            diffs,
            confirm,
            allow_destructive,
            blocks,
            templates,
            Ok(run),
        ),
        run.decision != ApplyDecision::Write,
    ensures
        issued(run.plan@, outcome, 0, None, plan_locked) == Seq::<int>::empty(),
        step(run.plan@, 0, None, plan_locked) == WriteStepView::Done,
{
}

/// Field changes that change nothing have no writes.
proof fn lemma_idle_fields(catalog: Seq<char>, ops: Seq<DiffOp<CatalogFieldView>>)
    requires
        forall|i: int| 0 <= i < ops.len() ==> #[trigger] ops[i] is Unchanged,
    ensures
        field_writes(catalog, ops) == free(Seq::empty()),
    decreases ops.len(),
{
    if ops.len() > 0 {
        assert forall|i: int| 0 <= i < ops.drop_last().len() implies #[trigger]
            ops.drop_last()[i] is Unchanged by {
            assert(ops.drop_last()[i] == ops[i]);
        }
        lemma_idle_fields(catalog, ops.drop_last());
        assert(ops.last() == ops[ops.len() - 1]);
        assert(field_writes(catalog, ops).writes =~= Seq::empty());
    }
}

/// A diff that is not actionable has no writes.
proof fn lemma_idle_diff(
    d: ResourceDiffView,
    blocks: Option<Seq<ContentBlockSummaryView>>,
    templates: Option<Seq<EmailTemplateSummaryView>>,
)
    requires
        !d.is_actionable(),
    ensures
        diff_writes(d, blocks, templates) == free(Seq::empty()),
{
    if let ResourceDiffView::CatalogSchema(c) = d {
        assert forall|i: int| 0 <= i < c.field_diffs.len() implies #[trigger]
            c.field_diffs[i] is Unchanged by {}
        lemma_idle_fields(c.name, c.field_diffs);
    }
}

/// Only what is actionable is written: the writes of a summary are those of
/// its actionable diffs, so that orphans, tags, descriptions of custom
/// attributes and what is in sync are never touched.
pub proof fn only_actionable_diffs_are_written(
    diffs: Seq<ResourceDiffView>,
    blocks: Option<Seq<ContentBlockSummaryView>>,
    templates: Option<Seq<EmailTemplateSummaryView>>,
)
    ensures
        all_writes(diffs, blocks, templates) == all_writes(
            diffs.filter(|d: ResourceDiffView| d.is_actionable()),
            blocks,
            templates,
        ),
{
    lemma_idle_diffs(diffs, blocks, templates);
}

proof fn lemma_idle_diffs(
    diffs: Seq<ResourceDiffView>,
    blocks: Option<Seq<ContentBlockSummaryView>>,
    templates: Option<Seq<EmailTemplateSummaryView>>,
)
    ensures
        ({
            let acting = diffs.filter(|d: ResourceDiffView| d.is_actionable());
            &&& direct_writes(diffs, blocks, templates) == direct_writes(
                acting,
                blocks,
                templates,
            )
            &&& toggled(diffs, true) == toggled(acting, true)
            &&& toggled(diffs, false) == toggled(acting, false)
        }),
    decreases diffs.len(),
{
    reveal(Seq::filter);
    let f = |d: ResourceDiffView| d.is_actionable();
    let acting = diffs.filter(f);
    if diffs.len() > 0 {
        let d = diffs.last();
        let front = diffs.drop_last();
        lemma_idle_diffs(front, blocks, templates);
        if d.is_actionable() {
            assert(acting == front.filter(f).push(d));
            assert(acting.drop_last() =~= front.filter(f));
        } else {
            assert(acting == front.filter(f));
            lemma_idle_diff(d, blocks, templates);
            let before = direct_writes(front, blocks, templates);
            assert(before.writes + Seq::<WriteView>::empty() =~= before.writes);
        }
    }
}

/// The write deletes something in Braze.
pub open spec fn loses_data(w: WriteView) -> bool {
    w is DeleteCatalog || w is DeleteField
}

/// None of the writes deletes anything.
pub open spec fn keeps_data(writes: Seq<WriteView>) -> bool {
    forall|i: int| 0 <= i < writes.len() ==> !loses_data(#[trigger] writes[i])
}

proof fn lemma_chained_keeps_data(a: PlannedWritesView, b: PlannedWritesView)
    requires
        keeps_data(a.writes),
        keeps_data(b.writes),
    ensures
        keeps_data(chained(a, b).writes),
{
    let all = chained(a, b).writes;
    assert forall|i: int| 0 <= i < all.len() implies !loses_data(#[trigger] all[i]) by {
        if i < a.writes.len() {
            assert(all[i] == a.writes[i]);
        } else {
            assert(all[i] == b.writes[i - a.writes.len()]);
        }
    }
}

proof fn lemma_kept_fields(catalog: Seq<char>, ops: Seq<DiffOp<CatalogFieldView>>)
    requires
        forall|i: int| 0 <= i < ops.len() ==> #[trigger] ops[i] !is Removed,
    ensures
        keeps_data(field_writes(catalog, ops).writes),
    decreases ops.len(),
{
    if ops.len() > 0 {
        assert forall|i: int| 0 <= i < ops.drop_last().len() implies #[trigger]
            ops.drop_last()[i] !is Removed by {
            assert(ops.drop_last()[i] == ops[i]);
        }
        lemma_kept_fields(catalog, ops.drop_last());
        assert(ops.last() == ops[ops.len() - 1]);
        lemma_chained_keeps_data(
            field_writes(catalog, ops.drop_last()),
            field_write(catalog, ops.last()),
        );
    }
}

proof fn lemma_direct_keeps_data(
    diffs: Seq<ResourceDiffView>,
    blocks: Option<Seq<ContentBlockSummaryView>>,
    templates: Option<Seq<EmailTemplateSummaryView>>,
)
    requires
        forall|i: int| 0 <= i < diffs.len() ==> !(#[trigger] diffs[i]).has_destructive(),
    ensures
        keeps_data(direct_writes(diffs, blocks, templates).writes),
    decreases diffs.len(),
{
    if diffs.len() > 0 {
        assert forall|i: int| 0 <= i < diffs.drop_last().len() implies !(#[trigger]
        diffs.drop_last()[i]).has_destructive() by {
            assert(diffs.drop_last()[i] == diffs[i]);
        }
        lemma_direct_keeps_data(diffs.drop_last(), blocks, templates);
        let d = diffs.last();
        assert(d == diffs[diffs.len() - 1]);
        if let ResourceDiffView::CatalogSchema(c) = d {
            assert forall|i: int| 0 <= i < c.field_diffs.len() implies #[trigger]
                c.field_diffs[i] !is Removed by {}
            lemma_kept_fields(c.name, c.field_diffs);
        }
        lemma_chained_keeps_data(
            direct_writes(diffs.drop_last(), blocks, templates),
            diff_writes(d, blocks, templates),
        );
    }
}

/// What deletes data in Braze counts as destructive, and so is not written
/// without permission: where nothing destructive is counted, no write
/// deletes anything.
pub proof fn data_loss_needs_permission(
    diffs: Seq<ResourceDiffView>,
    blocks: Option<Seq<ContentBlockSummaryView>>,
    templates: Option<Seq<EmailTemplateSummaryView>>,
)
    requires
        destructive_count(diffs) == 0,
    ensures
        keeps_data(all_writes(diffs, blocks, templates).writes),
{
    assert forall|i: int| 0 <= i < diffs.len() implies !(#[trigger] diffs[i]).has_destructive() by {
        if diffs[i].has_destructive() {
            let f = |d: ResourceDiffView| d.has_destructive();
            diffs.lemma_filter_contains(f, i);
            assert(diffs.filter(f).contains(diffs[i]));
        }
    }
    lemma_direct_keeps_data(diffs, blocks, templates);
    lemma_chained_keeps_data(
        direct_writes(diffs, blocks, templates),
        free(toggle_write(diffs, true) + toggle_write(diffs, false)),
    );
}

/// Where what the API cannot do was refused and the ids of what is updated are
/// known, nothing stands in the way of the writes.
pub proof fn checked_run_is_not_stopped(
    diffs: Seq<ResourceDiffView>,
    blocks: Seq<ContentBlockSummaryView>,
    templates: Seq<EmailTemplateSummaryView>,
)
    requires
        first_unsupported(diffs) is None,
        forall|i: int|
            0 <= i < diffs.len() ==> match #[trigger] diffs[i] {
                ResourceDiffView::ContentBlock(c) => c.op matches DiffOp::Modified { to, .. }
                    ==> names_of::<ContentBlockSummary>(blocks).contains(to.name),
                ResourceDiffView::EmailTemplate(c) => c.op matches DiffOp::Modified { to, .. }
                    ==> names_of::<EmailTemplateSummary>(templates).contains(to.name),
                _ => true,
            },
    ensures
        all_writes(diffs, Some(blocks), Some(templates)).stop is None,
{
    lemma_direct_free(diffs, blocks, templates, diffs.len() as int);
    assert(diffs.take(diffs.len() as int) =~= diffs);
}

proof fn lemma_direct_free(
    diffs: Seq<ResourceDiffView>,
    blocks: Seq<ContentBlockSummaryView>,
    templates: Seq<EmailTemplateSummaryView>,
    k: int,
)
    requires
        first_unsupported(diffs) is None,
        forall|i: int|
            0 <= i < diffs.len() ==> match #[trigger] diffs[i] {
                ResourceDiffView::ContentBlock(c) => c.op matches DiffOp::Modified { to, .. }
                    ==> names_of::<ContentBlockSummary>(blocks).contains(to.name),
                ResourceDiffView::EmailTemplate(c) => c.op matches DiffOp::Modified { to, .. }
                    ==> names_of::<EmailTemplateSummary>(templates).contains(to.name),
                _ => true,
            },
        0 <= k <= diffs.len(),
    ensures
        direct_writes(diffs.take(k), Some(blocks), Some(templates)).stop is None,
    decreases k,
{
    if k > 0 {
        lemma_direct_free(diffs, blocks, templates, k - 1);
        assert(diffs.take(k).drop_last() =~= diffs.take(k - 1));
        let d = diffs[k - 1];
        assert(diffs.take(k).last() == d);
        match d {
            ResourceDiffView::CatalogSchema(c) => {
                lemma_supported_each(diffs, k - 1);
                lemma_fields_free(c.name, c.field_diffs);
            },
            ResourceDiffView::ContentBlock(c) => {
                if let DiffOp::Modified { to, .. } = c.op {
                    crate::order::lemma_last_named_some::<ContentBlockSummary>(blocks, to.name);
                }
            },
            ResourceDiffView::EmailTemplate(c) => {
                if let DiffOp::Modified { to, .. } = c.op {
                    crate::order::lemma_last_named_some::<EmailTemplateSummary>(
                        templates,
                        to.name,
                    );
                }
            },
            _ => {},
        }
    }
}

proof fn lemma_supported_each(diffs: Seq<ResourceDiffView>, i: int)
    requires
        first_unsupported(diffs) is None,
        0 <= i < diffs.len(),
    ensures
        diffs[i] matches ResourceDiffView::CatalogSchema(c) ==> first_type_change(
            c.name,
            c.field_diffs,
        ) is None,
    decreases diffs.len(),
{
    if i > 0 {
        lemma_supported_each(diffs.drop_first(), i - 1);
        assert(diffs.drop_first()[i - 1] == diffs[i]);
    }
}

proof fn lemma_fields_free(catalog: Seq<char>, ops: Seq<DiffOp<CatalogFieldView>>)
    requires
        first_type_change(catalog, ops) is None,
    ensures
        field_writes(catalog, ops).stop is None,
{
    lemma_no_type_change(catalog, ops);
    lemma_fields_free_up_to(catalog, ops, ops.len() as int);
    assert(ops.take(ops.len() as int) =~= ops);
}

proof fn lemma_no_type_change(catalog: Seq<char>, ops: Seq<DiffOp<CatalogFieldView>>)
    requires
        first_type_change(catalog, ops) is None,
    ensures
        forall|i: int| 0 <= i < ops.len() ==> #[trigger] ops[i] !is Modified,
    decreases ops.len(),
{
    if ops.len() > 0 {
        lemma_no_type_change(catalog, ops.drop_first());
        assert forall|i: int| 0 <= i < ops.len() implies #[trigger] ops[i] !is Modified by {
            if i > 0 {
                assert(ops.drop_first()[i - 1] == ops[i]);
            }
        }
    }
}

proof fn lemma_fields_free_up_to(
    catalog: Seq<char>,
    ops: Seq<DiffOp<CatalogFieldView>>,
    k: int,
)
    requires
        forall|i: int| 0 <= i < ops.len() ==> #[trigger] ops[i] !is Modified,
        0 <= k <= ops.len(),
    ensures
        field_writes(catalog, ops.take(k)).stop is None,
    decreases k,
{
    if k > 0 {
        lemma_fields_free_up_to(catalog, ops, k - 1);
        assert(ops.take(k).drop_last() =~= ops.take(k - 1));
        assert(ops.take(k).last() == ops[k - 1]);
    }
}

/// A content block that was written is in sync when it is read back: Braze
/// returns what was sent, and the state, which it does not return, does not
/// count.
pub proof fn written_block_is_in_sync(
    cb: ContentBlockView,
    w: crate::braze::content_block::ContentBlockWrite,
    info: crate::braze::content_block::ContentBlockInfo,
    back: ContentBlockView,
)
    requires
        crate::braze::content_block::carries(w, cb),
        info.name@ == w.name@,
        opt_text(info.description) == opt_text(w.description),
        info.content@ == w.content@,
        strs(info.tags@) == strs(w.tags@),
        back == (ContentBlockView {
            name: info.name@,
            description: opt_text(info.description),
            content: info.content@,
            tags: strs(info.tags@),
            state: crate::resource::ContentBlockState::Active,
        }),
    ensures
        crate::diff::content_block::syncable_eq(cb, back),
{
}

/// An email template that was written is in sync when it is read back: Braze
/// returns what was sent, and the description, which cannot be sent, does not
/// count.
pub proof fn written_template_is_in_sync(
    t: EmailTemplateView,
    w: crate::braze::email_template::EmailTemplateWrite,
    back: EmailTemplateView,
)
    requires
        crate::braze::email_template::carries(w, t),
        back.name == w.template_name@,
        back.subject == w.subject@,
        back.body_html == w.body@,
        back.body_plaintext == w.plaintext_body@,
        back.preheader == opt_text(w.preheader),
        back.should_inline_css == w.should_inline_css,
        back.tags == strs(w.tags@),
    ensures
        crate::diff::email_template::syncable_eq(t, back),
{
}

/// A run that is cut short accounts for every write: it is live, failed or
/// not attempted, and it is exactly one of these.
pub proof fn abort_report_names_every_write(writes: Seq<WriteView>, failed: int)
    requires
        0 <= failed < writes.len(),
    ensures
        writes.take(failed) + seq![writes[failed]] + writes.skip(failed + 1) == writes,
{
    assert(writes.take(failed) + seq![writes[failed]] + writes.skip(failed + 1) =~= writes);
}

} // verus!
