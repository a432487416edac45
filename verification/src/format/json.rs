//! JSON for programs. The shape is version 1 and frozen: members may be
//! added, but none renamed or taken away without a new version.

use crate::diff::catalog::CatalogSchemaDiff;
use crate::diff::catalog_items::{CatalogItemsDiff, CatalogItemsDiffView};
use crate::diff::content_block::ContentBlockDiff;
use crate::diff::custom_attribute::{
    CustomAttributeDiff, CustomAttributeDiffView, CustomAttributeOp,
};
use crate::diff::email_template::EmailTemplateDiff;
use crate::diff::tag::{TagDiff, TagOp};
use crate::diff::{
    changed_count, destructive_count, in_sync_count, orphan_count, DiffOp, DiffSummary,
    ResourceDiff, ResourceDiffView, TextDiffSummary,
};
use crate::order::{names_of, views};
use crate::resource::catalog::CatalogFieldView;
use crate::resource::custom_attribute::CustomAttributeView;
use crate::resource::{CatalogField, CustomAttribute};
use crate::text::{decimal, decimal_text, join, join_text, opt_text, owned, strs};
use vstd::prelude::*;

verus! {

/// A digit to the base sixteen.
pub open spec fn hex_digit(n: int) -> char {
    "0123456789abcdef"@[n]
}

/// A character inside a JSON string. Quotes, backslashes and control characters
/// are escaped, the common ones by a letter and the rest by number.
pub open spec fn json_char(c: char) -> Seq<char> {
    if c == '"' || c == '\\' {
        seq!['\\', c]
    } else if c == '\u{8}' {
        "\\b"@
    } else if c == '\t' {
        "\\t"@
    } else if c == '\n' {
        "\\n"@
    } else if c == '\u{c}' {
        "\\f"@
    } else if c == '\r' {
        "\\r"@
    } else if (c as int) < 32 {
        "\\u00"@ + seq![hex_digit(c as int / 16), hex_digit(c as int % 16)]
    } else {
        seq![c]
    }
}

/// The characters of a text as they stand inside a JSON string.
pub open spec fn json_chars(s: Seq<char>) -> Seq<char>
    decreases s.len(),
{
    if s.len() == 0 {
        Seq::empty()
    } else {
        json_chars(s.drop_last()) + json_char(s.last())
    }
}

/// A text as a JSON string, with quotes and escapes.
pub open spec fn json_string(s: Seq<char>) -> Seq<char> {
    "\""@ + json_chars(s) + "\""@
}

/// The `Display` of a string as `serde_json::Value`: the text between quotes,
/// with quotes, backslashes and the characters below the space escaped and all
/// others as they are.
#[verifier::external_body]
pub(crate) fn string_text(s: &str) -> (r: String)
    ensures
        r@ == json_string(s@),
{
    serde_json::Value::from(s).to_string()
}

/// A JSON document laid out over several lines, as `serde_json` does it;
/// `None` where the text is no JSON document.
pub uninterp spec fn pretty_json(text: Seq<char>) -> Option<Seq<char>>;

/// `serde_json::from_str` to a `Value`, in which members keep their order,
/// and `serde_json::to_string_pretty` of it.
#[verifier::external_body]
fn pretty_text(text: &str) -> (r: Option<String>)
    ensures
        opt_text(r) == pretty_json(text@),
{
    let value: serde_json::Value = serde_json::from_str(text).ok()?;
    serde_json::to_string_pretty(&value).ok()
}

/// A member of an object.
pub open spec fn member(key: Seq<char>, value: Seq<char>) -> Seq<char> {
    "\""@ + key + "\":"@ + value
}

pub open spec fn object(members: Seq<Seq<char>>) -> Seq<char> {
    "{"@ + join(members, ","@) + "}"@
}

pub open spec fn array(items: Seq<Seq<char>>) -> Seq<char> {
    "["@ + join(items, ","@) + "]"@
}

pub open spec fn flag(b: bool) -> Seq<char> {
    if b {
        "true"@
    } else {
        "false"@
    }
}

/// The word for what became of a resource.
pub open spec fn op_word<T>(op: DiffOp<T>) -> Seq<char> {
    match op {
        DiffOp::Added(_) => "added"@,
        DiffOp::Removed(_) => "removed"@,
        DiffOp::Modified { .. } => "modified"@,
        DiffOp::Unchanged => "unchanged"@,
    }
}

pub open spec fn field_json(f: CatalogFieldView) -> Seq<char> {
    object(
        seq![
            member("name"@, json_string(f.name)),
            member("type"@, json_string(f.field_type.word())),
        ],
    )
}

/// A field change; nothing for a field that did not change.
pub open spec fn field_diff_json(op: DiffOp<CatalogFieldView>) -> Option<Seq<char>> {
    match op {
        DiffOp::Added(f) => Some(
            object(
                seq![member("op"@, json_string("added"@)), member("field"@, field_json(f))],
            ),
        ),
        DiffOp::Removed(f) => Some(
            object(
                seq![member("op"@, json_string("removed"@)), member("field"@, field_json(f))],
            ),
        ),
        DiffOp::Modified { from, to } => Some(
            object(
                seq![
                    member("op"@, json_string("modified"@)),
                    member("from"@, field_json(from)),
                    member("to"@, field_json(to)),
                ],
            ),
        ),
        DiffOp::Unchanged => None,
    }
}

pub open spec fn field_diffs_json(ops: Seq<DiffOp<CatalogFieldView>>) -> Seq<Seq<char>>
    decreases ops.len(),
{
    if ops.len() == 0 {
        Seq::empty()
    } else {
        let before = field_diffs_json(ops.drop_last());
        match field_diff_json(ops.last()) {
            Some(t) => before.push(t),
            None => before,
        }
    }
}

pub open spec fn text_diff_json(t: TextDiffSummary) -> Seq<char> {
    object(
        seq![
            member("additions"@, decimal(t.additions as nat)),
            member("deletions"@, decimal(t.deletions as nat)),
        ],
    )
}

/// A member for a text diff, where there is one.
pub open spec fn text_diff_member(key: Seq<char>, t: Option<TextDiffSummary>) -> Seq<Seq<char>> {
    match t {
        Some(t) => seq![member(key, text_diff_json(t))],
        None => Seq::empty(),
    }
}

/// A member for notes, where there are any.
pub open spec fn hints_member(hints: Seq<Seq<char>>) -> Seq<Seq<char>> {
    if hints.len() == 0 {
        Seq::empty()
    } else {
        seq![member("hints"@, array(hints.map_values(|h: Seq<char>| json_string(h))))]
    }
}

/// The first two members of every entry.
pub open spec fn heading(kind: Seq<char>, name: Seq<char>) -> Seq<Seq<char>> {
    seq![member("kind"@, json_string(kind)), member("name"@, json_string(name))]
}

pub open spec fn attribute_change(op: CustomAttributeOp) -> Seq<Seq<char>> {
    match op {
        CustomAttributeOp::DeprecationToggled { from, to } => seq![
            member("op"@, json_string("deprecation_toggled"@)),
            member("from"@, flag(from)),
            member("to"@, flag(to)),
        ],
        CustomAttributeOp::UnregisteredInGit => seq![
            member("op"@, json_string("unregistered_in_git"@)),
        ],
        CustomAttributeOp::PresentInGitOnly => seq![
            member("op"@, json_string("present_in_git_only"@)),
        ],
        CustomAttributeOp::MetadataOnly => seq![member("op"@, json_string("metadata_only"@))],
        CustomAttributeOp::Unchanged => seq![member("op"@, json_string("unchanged"@))],
    }
}

pub open spec fn tag_word(op: TagOp) -> Seq<char> {
    match op {
        TagOp::ReferencedButUnregistered => "referenced_but_unregistered"@,
        TagOp::RegisteredButUnreferenced => "registered_but_unreferenced"@,
        TagOp::Unchanged => "unchanged"@,
    }
}

/// The members of an entry.
pub open spec fn entry_members(d: ResourceDiffView) -> Seq<Seq<char>> {
    match d {
        ResourceDiffView::CatalogSchema(c) => heading("catalog_schema"@, c.name) + seq![
            member("op"@, json_string(op_word(c.op))),
            member("field_diffs"@, array(field_diffs_json(c.field_diffs))),
        ],
        ResourceDiffView::ContentBlock(c) => heading("content_block"@, c.name) + seq![
            member("op"@, json_string(op_word(c.op))),
            member("orphan"@, flag(c.orphan)),
        ] + text_diff_member("text_diff"@, c.text_diff),
        ResourceDiffView::EmailTemplate(c) => heading("email_template"@, c.name) + seq![
            member("op"@, json_string(op_word(c.op))),
            member("subject_changed"@, flag(c.subject_changed)),
        ] + text_diff_member("body_html_diff"@, c.body_html_diff) + text_diff_member(
            "body_plaintext_diff"@,
            c.body_plaintext_diff,
        ) + seq![
            member("metadata_changed"@, flag(c.metadata_changed)),
            member("orphan"@, flag(c.orphan)),
        ],
        ResourceDiffView::CustomAttribute(c) => heading("custom_attribute"@, c.name)
            + attribute_change(c.op) + hints_member(c.hints),
        ResourceDiffView::Tag(c) => heading("tag"@, c.name) + seq![
            member("op"@, json_string(tag_word(c.op))),
        ] + hints_member(c.hints),
    }
}

/// The entry for the rows of a catalog: how many of each kind, not which.
pub open spec fn items_json(c: CatalogItemsDiffView) -> Seq<char> {
    object(
        seq![
            member("kind"@, json_string("catalog_items"@)),
            member("catalog_name"@, json_string(c.catalog_name)),
            member("added"@, decimal(c.added_ids.len())),
            member("modified"@, decimal(c.modified_ids.len())),
            member("removed"@, decimal(c.removed_ids.len())),
            member("unchanged"@, decimal(c.unchanged_count)),
        ],
    )
}

/// The document for a summary.
pub open spec fn document(diffs: Seq<ResourceDiffView>) -> Seq<char> {
    object(
        seq![
            member("version"@, "1"@),
            member(
                "summary"@,
                object(
                    seq![
                        member("changed"@, decimal(changed_count(diffs))),
                        member("in_sync"@, decimal(in_sync_count(diffs))),
                        member("destructive"@, decimal(destructive_count(diffs))),
                        member("orphan"@, decimal(orphan_count(diffs))),
                    ],
                ),
            ),
            member(
                "diffs"@,
                array(diffs.map_values(|d: ResourceDiffView| object(entry_members(d)))),
            ),
        ],
    )
}

/// What is shown of a document, given its layout over several lines: that
/// layout, and a line break at its end.
pub open spec fn rendered(document: Seq<char>, pretty: Option<Seq<char>>) -> Seq<char> {
    (match pretty {
        Some(p) => p,
        None => document,
    }) + "\n"@
}

fn member_text(key: &str, value: &str) -> (r: String)
    ensures
        r@ == member(key@, value@),
{
    let mut out = owned("\"");
    out.push_str(key);
    out.push_str("\":");
    out.push_str(value);
    out
}

pub(crate) fn object_text(members: &Vec<String>) -> (r: String)
    ensures
        r@ == object(strs(members@)),
{
    let mut out = owned("{");
    out.push_str(join_text(members, ",").as_str());
    out.push_str("}");
    out
}

pub(crate) fn array_text(items: &Vec<String>) -> (r: String)
    ensures
        r@ == array(strs(items@)),
{
    let mut out = owned("[");
    out.push_str(join_text(items, ",").as_str());
    out.push_str("]");
    out
}

fn push_member(out: &mut Vec<String>, key: &str, value: &str)
    ensures
        strs(final(out)@) == strs(old(out)@).push(member(key@, value@)),
{
    let ghost before = strs(out@);
    out.push(member_text(key, value));
    assert(strs(out@) =~= before.push(member(key@, value@)));
}

pub(crate) fn flag_text(b: bool) -> (r: &'static str)
    ensures
        r@ == flag(b),
{
    if b {
        "true"
    } else {
        "false"
    }
}

fn top_op<T: View>(op: &DiffOp<T>) -> (r: &'static str)
    ensures
        r@ == op_word(op@),
{
    match op {
        DiffOp::Added(_) => "added",
        DiffOp::Removed(_) => "removed",
        DiffOp::Modified { .. } => "modified",
        DiffOp::Unchanged => "unchanged",
    }
}

fn json_field(f: &CatalogField) -> (r: String)
    ensures
        r@ == field_json(f@),
{
    let mut m: Vec<String> = Vec::new();
    push_member(&mut m, "name", string_text(f.name.as_str()).as_str());
    push_member(&mut m, "type", string_text(f.field_type.as_str()).as_str());
    assert(strs(m@) =~= seq![
        member("name"@, json_string(f@.name)),
        member("type"@, json_string(f@.field_type.word())),
    ]);
    object_text(&m)
}

/// Renders the changes to the rows of a catalog.
pub fn catalog_items_entry(c: &CatalogItemsDiff) -> (r: String)
    ensures
        r@ == items_json(c@),
{
    let mut m: Vec<String> = Vec::new();
    push_member(&mut m, "kind", string_text("catalog_items").as_str());
    push_member(&mut m, "catalog_name", string_text(c.catalog_name.as_str()).as_str());
    push_member(&mut m, "added", decimal_text(c.added_ids.len() as u64).as_str());
    push_member(&mut m, "modified", decimal_text(c.modified_ids.len() as u64).as_str());
    push_member(&mut m, "removed", decimal_text(c.removed_ids.len() as u64).as_str());
    push_member(&mut m, "unchanged", decimal_text(c.unchanged_count as u64).as_str());
    assert(strs(m@) =~= seq![
        member("kind"@, json_string("catalog_items"@)),
        member("catalog_name"@, json_string(c@.catalog_name)),
        member("added"@, decimal(c@.added_ids.len())),
        member("modified"@, decimal(c@.modified_ids.len())),
        member("removed"@, decimal(c@.removed_ids.len())),
        member("unchanged"@, decimal(c@.unchanged_count)),
    ]);
    object_text(&m)
}

fn json_field_diff(op: &DiffOp<CatalogField>) -> (r: Option<String>)
    ensures
        opt_text(r) == field_diff_json(op@),
{
    let mut m: Vec<String> = Vec::new();
    assert(strs(m@) =~= Seq::empty());
    match op {
        DiffOp::Added(f) => {
            push_member(&mut m, "op", string_text("added").as_str());
            push_member(&mut m, "field", json_field(f).as_str());
            assert(strs(m@) =~= seq![
                member("op"@, json_string("added"@)),
                member("field"@, field_json(f@)),
            ]);
        },
        DiffOp::Removed(f) => {
            push_member(&mut m, "op", string_text("removed").as_str());
            push_member(&mut m, "field", json_field(f).as_str());
            assert(strs(m@) =~= seq![
                member("op"@, json_string("removed"@)),
                member("field"@, field_json(f@)),
            ]);
        },
        DiffOp::Modified { from, to } => {
            push_member(&mut m, "op", string_text("modified").as_str());
            push_member(&mut m, "from", json_field(from).as_str());
            push_member(&mut m, "to", json_field(to).as_str());
            assert(strs(m@) =~= seq![
                member("op"@, json_string("modified"@)),
                member("from"@, field_json(from@)),
                member("to"@, field_json(to@)),
            ]);
        },
        DiffOp::Unchanged => {
            return None;
        },
    }
    Some(object_text(&m))
}

fn json_field_diffs(ops: &Vec<DiffOp<CatalogField>>) -> (r: Vec<String>)
    ensures
        strs(r@) == field_diffs_json(views(ops@)),
{
    let ghost os = views(ops@);
    let mut out: Vec<String> = Vec::new();
    let mut i: usize = 0;
    assert(strs(out@) =~= field_diffs_json(os.take(0)));
    while i < ops.len()
        invariant
            i <= ops@.len(),
            os == views(ops@),
            strs(out@) == field_diffs_json(os.take(i as int)),
        decreases ops@.len() - i,
    {
        proof {
            assert(os.take(i + 1).drop_last() =~= os.take(i as int));
            assert(os.take(i + 1).last() == ops@[i as int]@);
        }
        let ghost before = strs(out@);
        if let Some(t) = json_field_diff(&ops[i]) {
            let ghost text = t@;
            out.push(t);
            assert(strs(out@) =~= before.push(text));
        }
        i = i + 1;
    }
    assert(os.take(i as int) =~= os);
    out
}

fn json_text_diff(t: TextDiffSummary) -> (r: String)
    ensures
        r@ == text_diff_json(t),
{
    let mut m: Vec<String> = Vec::new();
    push_member(&mut m, "additions", decimal_text(t.additions as u64).as_str());
    push_member(&mut m, "deletions", decimal_text(t.deletions as u64).as_str());
    assert(strs(m@) =~= seq![
        member("additions"@, decimal(t.additions as nat)),
        member("deletions"@, decimal(t.deletions as nat)),
    ]);
    object_text(&m)
}

fn push_text_diff(out: &mut Vec<String>, key: &str, t: Option<TextDiffSummary>)
    ensures
        strs(final(out)@) == strs(old(out)@) + text_diff_member(key@, t),
{
    let ghost before = strs(out@);
    if let Some(t) = t {
        push_member(out, key, json_text_diff(t).as_str());
    }
    assert(strs(out@) =~= before + text_diff_member(key@, t));
}

fn push_hints(out: &mut Vec<String>, hints: &Vec<String>)
    ensures
        strs(final(out)@) == strs(old(out)@) + hints_member(strs(hints@)),
{
    let ghost before = strs(out@);
    if hints.len() > 0 {
        let mut items: Vec<String> = Vec::new();
        let mut i: usize = 0;
        while i < hints.len()
            invariant
                i <= hints@.len(),
                items@.len() == i,
                forall|j: int| 0 <= j < i ==> (#[trigger] items@[j])@ == json_string(hints@[j]@),
            decreases hints@.len() - i,
        {
            items.push(string_text(hints[i].as_str()));
            i = i + 1;
        }
        assert(strs(items@) =~= strs(hints@).map_values(|h: Seq<char>| json_string(h)));
        push_member(out, "hints", array_text(&items).as_str());
    }
    assert(strs(out@) =~= before + hints_member(strs(hints@)));
}

fn start_entry(kind: &str, name: &str) -> (r: Vec<String>)
    ensures
        strs(r@) == heading(kind@, name@),
{
    let mut m: Vec<String> = Vec::new();
    push_member(&mut m, "kind", string_text(kind).as_str());
    push_member(&mut m, "name", string_text(name).as_str());
    assert(strs(m@) =~= heading(kind@, name@));
    m
}

fn json_catalog_schema(c: &CatalogSchemaDiff) -> (r: Vec<String>)
    ensures
        strs(r@) == entry_members(ResourceDiffView::CatalogSchema(c@)),
{
    let mut m = start_entry("catalog_schema", c.name.as_str());
    push_member(&mut m, "op", string_text(top_op(&c.op)).as_str());
    let fields = json_field_diffs(&c.field_diffs);
    push_member(&mut m, "field_diffs", array_text(&fields).as_str());
    assert(strs(m@) =~= entry_members(ResourceDiffView::CatalogSchema(c@)));
    m
}

fn json_content_block(c: &ContentBlockDiff) -> (r: Vec<String>)
    ensures
        strs(r@) == entry_members(ResourceDiffView::ContentBlock(c@)),
{
    let mut m = start_entry("content_block", c.name.as_str());
    push_member(&mut m, "op", string_text(top_op(&c.op)).as_str());
    push_member(&mut m, "orphan", flag_text(c.orphan));
    push_text_diff(&mut m, "text_diff", c.text_diff);
    assert(strs(m@) =~= entry_members(ResourceDiffView::ContentBlock(c@)));
    m
}

fn json_email_template(c: &EmailTemplateDiff) -> (r: Vec<String>)
    ensures
        strs(r@) == entry_members(ResourceDiffView::EmailTemplate(c@)),
{
    let mut m = start_entry("email_template", c.name.as_str());
    push_member(&mut m, "op", string_text(top_op(&c.op)).as_str());
    push_member(&mut m, "subject_changed", flag_text(c.subject_changed));
    push_text_diff(&mut m, "body_html_diff", c.body_html_diff);
    push_text_diff(&mut m, "body_plaintext_diff", c.body_plaintext_diff);
    push_member(&mut m, "metadata_changed", flag_text(c.metadata_changed));
    push_member(&mut m, "orphan", flag_text(c.orphan));
    assert(strs(m@) =~= entry_members(ResourceDiffView::EmailTemplate(c@)));
    m
}

fn json_custom_attribute(c: &CustomAttributeDiff) -> (r: Vec<String>)
    ensures
        strs(r@) == entry_members(ResourceDiffView::CustomAttribute(c@)),
{
    let mut m = start_entry("custom_attribute", c.name.as_str());
    match c.op {
        CustomAttributeOp::DeprecationToggled { from, to } => {
            push_member(&mut m, "op", string_text("deprecation_toggled").as_str());
            push_member(&mut m, "from", flag_text(from));
            push_member(&mut m, "to", flag_text(to));
        },
        CustomAttributeOp::UnregisteredInGit => {
            push_member(&mut m, "op", string_text("unregistered_in_git").as_str());
        },
        CustomAttributeOp::PresentInGitOnly => {
            push_member(&mut m, "op", string_text("present_in_git_only").as_str());
        },
        CustomAttributeOp::MetadataOnly => {
            push_member(&mut m, "op", string_text("metadata_only").as_str());
        },
        CustomAttributeOp::Unchanged => {
            push_member(&mut m, "op", string_text("unchanged").as_str());
        },
    }
    assert(strs(m@) =~= heading("custom_attribute"@, c@.name) + attribute_change(c.op));
    push_hints(&mut m, &c.hints);
    m
}

fn json_tag(c: &TagDiff) -> (r: Vec<String>)
    ensures
        strs(r@) == entry_members(ResourceDiffView::Tag(c@)),
{
    let mut m = start_entry("tag", c.name.as_str());
    let word = match c.op {
        TagOp::ReferencedButUnregistered => "referenced_but_unregistered",
        TagOp::RegisteredButUnreferenced => "registered_but_unreferenced",
        TagOp::Unchanged => "unchanged",
    };
    push_member(&mut m, "op", string_text(word).as_str());
    assert(strs(m@) =~= heading("tag"@, c@.name) + seq![
        member("op"@, json_string(tag_word(c.op))),
    ]);
    push_hints(&mut m, &c.hints);
    m
}

fn json_entry(d: &ResourceDiff) -> (r: String)
    ensures
        r@ == object(entry_members(d@)),
{
    let m = match d {
        ResourceDiff::CatalogSchema(c) => json_catalog_schema(c),
        ResourceDiff::ContentBlock(c) => json_content_block(c),
        ResourceDiff::EmailTemplate(c) => json_email_template(c),
        ResourceDiff::CustomAttribute(c) => json_custom_attribute(c),
        ResourceDiff::Tag(c) => json_tag(c),
    };
    object_text(&m)
}

/// The document for a summary, on one line.
pub fn compact(summary: &DiffSummary) -> (r: String)
    ensures
        r@ == document(summary@),
{
    let ghost ds = summary@;
    let mut counts: Vec<String> = Vec::new();
    push_member(&mut counts, "changed", decimal_text(summary.changed_count() as u64).as_str());
    push_member(&mut counts, "in_sync", decimal_text(summary.in_sync_count() as u64).as_str());
    push_member(
        &mut counts,
        "destructive",
        decimal_text(summary.destructive_count() as u64).as_str(),
    );
    push_member(&mut counts, "orphan", decimal_text(summary.orphan_count() as u64).as_str());
    assert(strs(counts@) =~= seq![
        member("changed"@, decimal(changed_count(ds))),
        member("in_sync"@, decimal(in_sync_count(ds))),
        member("destructive"@, decimal(destructive_count(ds))),
        member("orphan"@, decimal(orphan_count(ds))),
    ]);
    let mut entries: Vec<String> = Vec::new();
    let mut i: usize = 0;
    while i < summary.diffs.len()
        invariant
            i <= summary.diffs@.len(),
            entries@.len() == i,
            forall|j: int|
                0 <= j < i ==> (#[trigger] entries@[j])@ == object(
                    entry_members(summary.diffs@[j]@),
                ),
        decreases summary.diffs@.len() - i,
    {
        entries.push(json_entry(&summary.diffs[i]));
        i = i + 1;
    }
    assert(strs(entries@) =~= ds.map_values(|d: ResourceDiffView| object(entry_members(d))));
    let mut root: Vec<String> = Vec::new();
    push_member(&mut root, "version", "1");
    push_member(&mut root, "summary", object_text(&counts).as_str());
    push_member(&mut root, "diffs", array_text(&entries).as_str());
    assert(strs(root@) =~= seq![
        member("version"@, "1"@),
        member("summary"@, object(strs(counts@))),
        member("diffs"@, array(strs(entries@))),
    ]);
    object_text(&root)
}

/// What is shown of a document, given its layout over several lines.
pub fn finish(document: String, pretty: Option<String>) -> (r: String)
    ensures
        r@ == rendered(document@, opt_text(pretty)),
{
    let mut out = match pretty {
        Some(p) => p,
        None => document,
    };
    out.push_str("\n");
    out
}

/// Shows a summary as JSON.
pub fn render(summary: &DiffSummary) -> (r: String)
    ensures
        r@ == rendered(document(summary@), pretty_json(document(summary@))),
{
    let document = compact(summary);
    let pretty = pretty_text(document.as_str());
    finish(document, pretty)
}

/// The entry of a custom attribute holds the frozen word of its state, and for
/// a flag that is toggled the way it goes.
pub proof fn attribute_entry_holds_its_state(c: CustomAttributeDiffView)
    ensures
        ({
            let m = entry_members(ResourceDiffView::CustomAttribute(c));
            &&& m.len() >= 3
            &&& m[0] == member("kind"@, json_string("custom_attribute"@))
            &&& m[1] == member("name"@, json_string(c.name))
            &&& c.op is PresentInGitOnly ==> m[2] == member(
                "op"@,
                json_string("present_in_git_only"@),
            )
            &&& c.op is UnregisteredInGit ==> m[2] == member(
                "op"@,
                json_string("unregistered_in_git"@),
            )
            &&& c.op is MetadataOnly ==> m[2] == member("op"@, json_string("metadata_only"@))
            &&& c.op is Unchanged ==> m[2] == member("op"@, json_string("unchanged"@))
            &&& c.op matches CustomAttributeOp::DeprecationToggled { from, to } ==> m.len() >= 5
                && m[2] == member("op"@, json_string("deprecation_toggled"@)) && m[3] == member(
                "from"@,
                if from {
                    "true"@
                } else {
                    "false"@
                },
            ) && m[4] == member(
                "to"@,
                if to {
                    "true"@
                } else {
                    "false"@
                },
            )
            &&& c.hints.len() == 0 <==> m.len() == (if c.op is DeprecationToggled {
                5nat
            } else {
                3nat
            })
            &&& c.hints.len() > 0 ==> m.last() == member(
                "hints"@,
                array(c.hints.map_values(|h: Seq<char>| json_string(h))),
            )
        }),
{
}

/// A name that only the registry has is reported as present in Git only, and
/// one that only Braze has as not registered in Git.
pub proof fn attribute_entry_names_the_side_that_has_it(
    local: Seq<CustomAttributeView>,
    remote: Seq<CustomAttributeView>,
    name: Seq<char>,
)
    ensures
        ({
            let here = exists|i: int| 0 <= i < local.len() && (#[trigger] local[i]).name == name;
            let there = exists|i: int| 0 <= i < remote.len() && (#[trigger] remote[i]).name == name;
            let m = entry_members(
                ResourceDiffView::CustomAttribute(
                    crate::diff::custom_attribute::diff_of(local, remote, name),
                ),
            );
            &&& m[1] == member("name"@, json_string(name))
            &&& here && !there ==> m[2] == member("op"@, json_string("present_in_git_only"@))
            &&& !here && there ==> m[2] == member("op"@, json_string("unregistered_in_git"@))
        }),
{
    crate::order::lemma_last_named_some::<CustomAttribute>(local, name);
    crate::order::lemma_last_named_some::<CustomAttribute>(remote, name);
    lemma_attribute_listed(local, name);
    lemma_attribute_listed(remote, name);
}

proof fn lemma_attribute_listed(s: Seq<CustomAttributeView>, name: Seq<char>)
    ensures
        names_of::<CustomAttribute>(s).contains(name) <==> exists|i: int|
            0 <= i < s.len() && (#[trigger] s[i]).name == name,
{
    let ns = names_of::<CustomAttribute>(s);
    if ns.contains(name) {
        let i = choose|i: int| 0 <= i < ns.len() && ns[i] == name;
        assert(s[i].name == name);
    }
    if exists|i: int| 0 <= i < s.len() && (#[trigger] s[i]).name == name {
        let i = choose|i: int| 0 <= i < s.len() && (#[trigger] s[i]).name == name;
        assert(ns[i] == name);
    }
}

/// The entries of the other kinds hold the frozen members in the frozen order,
/// each with what the diff says.
pub proof fn entries_hold_the_frozen_members(d: ResourceDiffView)
    ensures
        ({
            let m = entry_members(d);
            match d {
                ResourceDiffView::CatalogSchema(c) => {
                    &&& m.len() == 4
                    &&& m[0] == member("kind"@, json_string("catalog_schema"@))
                    &&& m[1] == member("name"@, json_string(c.name))
                    &&& c.op is Added ==> m[2] == member("op"@, json_string("added"@))
                    &&& c.op is Removed ==> m[2] == member("op"@, json_string("removed"@))
                    &&& c.op is Modified ==> m[2] == member("op"@, json_string("modified"@))
                    &&& c.op is Unchanged ==> m[2] == member("op"@, json_string("unchanged"@))
                    &&& m[3] == member("field_diffs"@, array(field_diffs_json(c.field_diffs)))
                },
                ResourceDiffView::ContentBlock(c) => {
                    &&& m[0] == member("kind"@, json_string("content_block"@))
                    &&& m[1] == member("name"@, json_string(c.name))
                    &&& c.op is Added ==> m[2] == member("op"@, json_string("added"@))
                    &&& c.op is Modified ==> m[2] == member("op"@, json_string("modified"@))
                    &&& c.op is Unchanged ==> m[2] == member("op"@, json_string("unchanged"@))
                    &&& m[3] == member(
                        "orphan"@,
                        if c.orphan {
                            "true"@
                        } else {
                            "false"@
                        },
                    )
                    &&& match c.text_diff {
                        None => m.len() == 4,
                        Some(t) => m.len() == 5 && m[4] == member("text_diff"@, text_diff_json(t)),
                    }
                },
                ResourceDiffView::EmailTemplate(c) => {
                    let html = if c.body_html_diff is Some {
                        1int
                    } else {
                        0int
                    };
                    let txt = if c.body_plaintext_diff is Some {
                        1int
                    } else {
                        0int
                    };
                    &&& m.len() == 6 + html + txt
                    &&& m[0] == member("kind"@, json_string("email_template"@))
                    &&& m[1] == member("name"@, json_string(c.name))
                    &&& c.op is Added ==> m[2] == member("op"@, json_string("added"@))
                    &&& c.op is Modified ==> m[2] == member("op"@, json_string("modified"@))
                    &&& c.op is Unchanged ==> m[2] == member("op"@, json_string("unchanged"@))
                    &&& m[3] == member(
                        "subject_changed"@,
                        if c.subject_changed {
                            "true"@
                        } else {
                            "false"@
                        },
                    )
                    &&& c.body_html_diff matches Some(t) ==> m[4] == member(
                        "body_html_diff"@,
                        text_diff_json(t),
                    )
                    &&& c.body_plaintext_diff matches Some(t) ==> m[4 + html] == member(
                        "body_plaintext_diff"@,
                        text_diff_json(t),
                    )
                    &&& m[4 + html + txt] == member(
                        "metadata_changed"@,
                        if c.metadata_changed {
                            "true"@
                        } else {
                            "false"@
                        },
                    )
                    &&& m[5 + html + txt] == member(
                        "orphan"@,
                        if c.orphan {
                            "true"@
                        } else {
                            "false"@
                        },
                    )
                },
                ResourceDiffView::CustomAttribute(c) => true,
                ResourceDiffView::Tag(c) => {
                    &&& m[0] == member("kind"@, json_string("tag"@))
                    &&& m[1] == member("name"@, json_string(c.name))
                    &&& c.op is ReferencedButUnregistered ==> m[2] == member(
                        "op"@,
                        json_string("referenced_but_unregistered"@),
                    )
                    &&& c.op is RegisteredButUnreferenced ==> m[2] == member(
                        "op"@,
                        json_string("registered_but_unreferenced"@),
                    )
                    &&& c.op is Unchanged ==> m[2] == member("op"@, json_string("unchanged"@))
                    &&& c.hints.len() == 0 <==> m.len() == 3
                },
            }
        }),
{
}

/// Line counts and field changes are shown under the frozen names, and no
/// change to a field is left out.
pub proof fn changes_are_shown_in_full(t: TextDiffSummary, ops: Seq<DiffOp<CatalogFieldView>>)
    ensures
        text_diff_json(t) == object(
            seq![
                member("additions"@, decimal(t.additions as nat)),
                member("deletions"@, decimal(t.deletions as nat)),
            ],
        ),
        field_diffs_json(ops).len() == ops.filter(
            |op: DiffOp<CatalogFieldView>| op !is Unchanged,
        ).len(),
        forall|i: int|
            0 <= i < field_diffs_json(ops).len() ==> #[trigger] field_diffs_json(ops)[i]
                == match ops.filter(|op: DiffOp<CatalogFieldView>| op !is Unchanged)[i] {
                DiffOp::Added(f) => object(
                    seq![
                        member("op"@, json_string("added"@)),
                        member(
                            "field"@,
                            object(
                                seq![
                                    member("name"@, json_string(f.name)),
                                    member("type"@, json_string(f.field_type.word())),
                                ],
                            ),
                        ),
                    ],
                ),
                DiffOp::Removed(f) => object(
                    seq![
                        member("op"@, json_string("removed"@)),
                        member(
                            "field"@,
                            object(
                                seq![
                                    member("name"@, json_string(f.name)),
                                    member("type"@, json_string(f.field_type.word())),
                                ],
                            ),
                        ),
                    ],
                ),
                DiffOp::Modified { from, to } => object(
                    seq![
                        member("op"@, json_string("modified"@)),
                        member(
                            "from"@,
                            object(
                                seq![
                                    member("name"@, json_string(from.name)),
                                    member("type"@, json_string(from.field_type.word())),
                                ],
                            ),
                        ),
                        member(
                            "to"@,
                            object(
                                seq![
                                    member("name"@, json_string(to.name)),
                                    member("type"@, json_string(to.field_type.word())),
                                ],
                            ),
                        ),
                    ],
                ),
                DiffOp::Unchanged => arbitrary(),
            },
    decreases ops.len(),
{
    reveal(Seq::filter);
    if ops.len() > 0 {
        let front = ops.drop_last();
        changes_are_shown_in_full(t, front);
        let f = |op: DiffOp<CatalogFieldView>| op !is Unchanged;
        if ops.last() !is Unchanged {
            assert(ops.filter(f) == front.filter(f).push(ops.last()));
            assert(field_diffs_json(ops) == field_diffs_json(front).push(
                field_diff_json(ops.last())->0,
            ));
        }
    }
}

/// The document has version 1, counts what differs, what agrees, what loses
/// data and what is orphaned, and has one entry for each diff in its order.
pub proof fn document_counts_and_lists_every_diff(diffs: Seq<ResourceDiffView>)
    ensures
        exists|entries: Seq<Seq<char>>|
            {
                &&& #[trigger] array(entries).len() >= 0
                &&& entries.len() == diffs.len()
                &&& forall|i: int|
                    0 <= i < diffs.len() ==> #[trigger] entries[i] == object(
                        entry_members(diffs[i]),
                    )
                &&& document(diffs) == object(
                    seq![
                        member("version"@, "1"@),
                        member(
                            "summary"@,
                            object(
                                seq![
                                    member(
                                        "changed"@,
                                        decimal(
                                            diffs.filter(
                                                |d: ResourceDiffView| d.has_changes(),
                                            ).len(),
                                        ),
                                    ),
                                    member(
                                        "in_sync"@,
                                        decimal(
                                            diffs.filter(
                                                |d: ResourceDiffView| !d.has_changes(),
                                            ).len(),
                                        ),
                                    ),
                                    member(
                                        "destructive"@,
                                        decimal(
                                            diffs.filter(
                                                |d: ResourceDiffView| d.has_destructive(),
                                            ).len(),
                                        ),
                                    ),
                                    member(
                                        "orphan"@,
                                        decimal(
                                            diffs.filter(
                                                |d: ResourceDiffView| d.is_orphan(),
                                            ).len(),
                                        ),
                                    ),
                                ],
                            ),
                        ),
                        member("diffs"@, array(entries)),
                    ],
                )
            },
{
    let entries = diffs.map_values(|d: ResourceDiffView| object(entry_members(d)));
    assert(array(entries).len() >= 0);
}

/// The entry for the rows of a catalog counts each kind of change under its
/// name.
pub proof fn items_entry_counts_each_kind(c: CatalogItemsDiffView)
    ensures
        items_json(c) == object(
            seq![
                member("kind"@, json_string("catalog_items"@)),
                member("catalog_name"@, json_string(c.catalog_name)),
                member("added"@, decimal(c.added_ids.len())),
                member("modified"@, decimal(c.modified_ids.len())),
                member("removed"@, decimal(c.removed_ids.len())),
                member("unchanged"@, decimal(c.unchanged_count)),
            ],
        ),
{
}

/// A JSON string can be read back: no two texts are written alike.
pub proof fn strings_are_told_apart(a: Seq<char>, b: Seq<char>)
    requires
        json_string(a) == json_string(b),
    ensures
        a == b,
{
    let q = "\""@;
    let x = json_chars(a);
    let y = json_chars(b);
    reveal_strlit("\"");
    assert(json_string(a).len() == x.len() + 2);
    assert(json_string(b).len() == y.len() + 2);
    assert(x =~= json_string(a).subrange(1, x.len() + 1int));
    assert(y =~= json_string(b).subrange(1, y.len() + 1int));
    lemma_json_chars_from_front(a);
    lemma_json_chars_from_front(b);
    lemma_front_chars_apart(a, b);
}

/// The same characters, taken from the front.
spec fn front_chars(s: Seq<char>) -> Seq<char>
    decreases s.len(),
{
    if s.len() == 0 {
        Seq::empty()
    } else {
        json_char(s[0]) + front_chars(s.drop_first())
    }
}

proof fn lemma_front_push(s: Seq<char>, c: char)
    ensures
        front_chars(s.push(c)) == front_chars(s) + json_char(c),
    decreases s.len(),
{
    let t = s.push(c);
    if s.len() == 0 {
        assert(t.drop_first() =~= Seq::empty());
        reveal_with_fuel(front_chars, 2);
        assert(front_chars(t) =~= json_char(c) + Seq::empty());
        assert(front_chars(s) + json_char(c) =~= json_char(c));
    } else {
        assert(t.drop_first() =~= s.drop_first().push(c));
        lemma_front_push(s.drop_first(), c);
        assert(front_chars(t) =~= json_char(s[0]) + (front_chars(s.drop_first()) + json_char(c)));
        assert(front_chars(s) + json_char(c) =~= json_char(s[0]) + (front_chars(s.drop_first())
            + json_char(c)));
    }
}

proof fn lemma_json_chars_from_front(s: Seq<char>)
    ensures
        json_chars(s) == front_chars(s),
    decreases s.len(),
{
    if s.len() > 0 {
        lemma_json_chars_from_front(s.drop_last());
        lemma_front_push(s.drop_last(), s.last());
        assert(s.drop_last().push(s.last()) =~= s);
    }
}

/// What a character is written as tells where it ends and which it is.
proof fn lemma_json_char_apart(a: char, b: char, x: Seq<char>, y: Seq<char>)
    requires
        json_char(a) + x == json_char(b) + y,
    ensures
        a == b,
        x == y,
{
    reveal_strlit("\\b");
    reveal_strlit("\\t");
    reveal_strlit("\\n");
    reveal_strlit("\\f");
    reveal_strlit("\\r");
    reveal_strlit("\\u00");
    reveal_strlit("0123456789abcdef");
    let s = json_char(a) + x;
    let t = json_char(b) + y;
    assert(s[0] == json_char(a)[0] && t[0] == json_char(b)[0]);
    if json_char(a).len() > 1 {
        assert(s[1] == json_char(a)[1]);
    }
    if json_char(b).len() > 1 {
        assert(t[1] == json_char(b)[1]);
    }
    if json_char(a).len() == 6 && json_char(b).len() == 6 {
        assert(s[4] == json_char(a)[4] && t[4] == json_char(b)[4]);
        assert(s[5] == json_char(a)[5] && t[5] == json_char(b)[5]);
        lemma_hex_digits_apart(a as int / 16, b as int / 16);
        lemma_hex_digits_apart(a as int % 16, b as int % 16);
    }
    assert(a == b);
    assert(x =~= s.subrange(json_char(a).len() as int, s.len() as int));
    assert(y =~= t.subrange(json_char(b).len() as int, t.len() as int));
}

proof fn lemma_hex_digits_apart(m: int, n: int)
    requires
        0 <= m < 16,
        0 <= n < 16,
        hex_digit(m) == hex_digit(n),
    ensures
        m == n,
{
    reveal_strlit("0123456789abcdef");
}

proof fn lemma_front_chars_apart(a: Seq<char>, b: Seq<char>)
    requires
        front_chars(a) == front_chars(b),
    ensures
        a == b,
    decreases a.len(),
{
    lemma_json_char_is_some(a);
    lemma_json_char_is_some(b);
    if a.len() == 0 || b.len() == 0 {
        assert(a =~= b);
    } else {
        lemma_json_char_apart(
            a[0],
            b[0],
            front_chars(a.drop_first()),
            front_chars(b.drop_first()),
        );
        lemma_front_chars_apart(a.drop_first(), b.drop_first());
        assert(a =~= seq![a[0]] + a.drop_first());
        assert(b =~= seq![b[0]] + b.drop_first());
    }
}

proof fn lemma_json_char_is_some(s: Seq<char>)
    ensures
        s.len() == 0 <==> front_chars(s).len() == 0,
{
    reveal_strlit("\\b");
    reveal_strlit("\\t");
    reveal_strlit("\\n");
    reveal_strlit("\\f");
    reveal_strlit("\\r");
    reveal_strlit("\\u00");
}

/// A member of an object begins with its key between quotes and ends with its
/// value, so members of different keys of one length are told apart.
pub proof fn members_begin_with_their_key(key: Seq<char>, other: Seq<char>, value: Seq<char>)
    ensures
        ("\""@ + key + "\""@).is_prefix_of(member(key, value)),
        value.is_suffix_of(member(key, value)),
        key.len() == other.len() && member(key, value) == member(other, value) ==> key == other,
{
    reveal_strlit("\"");
    reveal_strlit("\":");
    let m = member(key, value);
    let o = member(other, value);
    let h = "\""@ + key + "\""@;
    assert(m.take(h.len() as int) =~= h);
    assert(m.skip(m.len() - value.len()) =~= value);
    assert(m.subrange(1, (1 + key.len()) as int) =~= key);
    assert(o.subrange(1, (1 + other.len()) as int) =~= other);
}

} // verus!
