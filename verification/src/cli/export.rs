//! `export`: what is written to local files of what Braze returned.

use crate::cli::templatize::{holds_placeholder, is_templated};
use crate::cli::{select, takes_part};
use crate::diff::custom_attribute::{diff_of, CustomAttributeDiffView, CustomAttributeOp};
use crate::error::Error;
use crate::order::{
    ascending, find_last_named, insert_name, insert_names, last_named, lemma_last_named_some,
    lemma_ordered_exists, lemma_ordered_unique, lemma_push_to_set, names_of, ordered, stable_sort,
    stable_sort_of, views,
};
use crate::pattern::{excluded, is_excluded, NamePattern};
use crate::resource::content_block::ContentBlockView;
use crate::resource::custom_attribute::CustomAttributeView;
use crate::resource::email_template::EmailTemplateView;
use crate::resource::tag::TagView;
use crate::resource::{
    ContentBlock, CustomAttribute, CustomAttributeRegistry, EmailTemplate, ResourceKind, Tag,
    TagRegistry,
};
use crate::text::{
    decimal, decimal_text, is_shown, lemma_shown_between, opt_text, owned, strs,
};
use vstd::prelude::*;

verus! {

#[derive(Debug)]
pub struct ExportArgs {
    pub resource: Option<ResourceKind>,
    /// Only this resource. Goes with a kind.
    pub name: Option<String>,
    /// Rebuild the registry of custom attributes from Braze alone. Without
    /// it, entries that Braze did not return are kept.
    pub prune: bool,
}

impl Default for ExportArgs {
    fn default() -> (r: Self)
        ensures
            r.resource is None,
            r.name is None,
            !r.prune,
    {
        ExportArgs { resource: None, name: None, prune: false }
    }
}

/// Whether pruning was asked for where it means nothing.
pub fn prune_is_idle(prune: bool, kinds: &Vec<ResourceKind>) -> (r: bool)
    ensures
        r == (prune && !kinds@.contains(ResourceKind::CustomAttribute)),
{
    let mut i: usize = 0;
    while i < kinds.len()
        invariant
            i <= kinds@.len(),
            forall|j: int| 0 <= j < i ==> #[trigger] kinds@[j] != ResourceKind::CustomAttribute,
        decreases kinds@.len() - i,
    {
        if kinds[i] == ResourceKind::CustomAttribute {
            assert(kinds@.contains(kinds@[i as int]));
            return false;
        }
        i = i + 1;
    }
    prune
}

/// What is said where the resource that was asked for is not there.
pub fn missing_notice(label: &str, wanted: Option<&str>, found: usize) -> (r: Option<String>)
    ensures
        opt_text(r) == match wanted {
            Some(n) => if found == 0 {
                Some("⚠ "@ + label@ + ": '"@ + n@ + "' not found in Braze"@)
            } else {
                None
            },
            None => None,
        },
{
    match wanted {
        Some(n) => {
            if found != 0 {
                return None;
            }
            let mut m = owned("⚠ ");
            m.push_str(label);
            m.push_str(": '");
            m.push_str(n);
            m.push_str("' not found in Braze");
            Some(m)
        },
        None => None,
    }
}

/// What an export did to the registry of custom attributes.
#[derive(Debug, Clone, Copy, PartialEq, Eq, Structural)]
pub struct RegistryExport {
    /// Entries that Braze returned.
    pub refreshed: usize,
    /// Entries that were kept though Braze did not return them.
    pub kept: usize,
    /// Entries that were dropped since Braze did not return them.
    pub removed: usize,
}

/// The ending of "entry" or "entries".
pub open spec fn entry_ending(n: usize) -> Seq<char> {
    if n == 1 {
        "y"@
    } else {
        "ies"@
    }
}

fn ending(n: usize) -> (r: &'static str)
    ensures
        r@ == entry_ending(n),
{
    if n == 1 {
        "y"
    } else {
        "ies"
    }
}

impl RegistryExport {
    /// How many entries are in the file afterwards.
    pub fn written(&self) -> (r: usize)
        requires
            self.refreshed + self.kept <= usize::MAX,
        ensures
            r == self.refreshed + self.kept,
    {
        self.refreshed + self.kept
    }

    /// What the operator is told.
    pub open spec fn line(self) -> Seq<char> {
        if self.removed > 0 {
            "✓ custom_attribute: refreshed "@ + decimal(self.refreshed as nat)
                + " from Braze, removed "@ + decimal(self.removed as nat) + " registry entr"@
                + entry_ending(self.removed) + " this workspace does not have (--prune)"@
        } else if self.kept > 0 {
            "✓ custom_attribute: refreshed "@ + decimal(self.refreshed as nat)
                + " from Braze, kept "@ + decimal(self.kept as nat) + " registry-only entr"@
                + entry_ending(self.kept)
        } else {
            "✓ custom_attribute: exported "@ + decimal(self.refreshed as nat)
                + " attribute(s)"@
        }
    }

    pub fn summary_line(&self) -> (r: String)
        ensures
            r@ == self.line(),
    {
        if self.removed > 0 {
            let mut out = owned("✓ custom_attribute: refreshed ");
            out.push_str(decimal_text(self.refreshed as u64).as_str());
            out.push_str(" from Braze, removed ");
            out.push_str(decimal_text(self.removed as u64).as_str());
            out.push_str(" registry entr");
            out.push_str(ending(self.removed));
            out.push_str(" this workspace does not have (--prune)");
            out
        } else if self.kept > 0 {
            let mut out = owned("✓ custom_attribute: refreshed ");
            out.push_str(decimal_text(self.refreshed as u64).as_str());
            out.push_str(" from Braze, kept ");
            out.push_str(decimal_text(self.kept as u64).as_str());
            out.push_str(" registry-only entr");
            out.push_str(ending(self.kept));
            out
        } else {
            let mut out = owned("✓ custom_attribute: exported ");
            out.push_str(decimal_text(self.refreshed as u64).as_str());
            out.push_str(" attribute(s)");
            out
        }
    }
}

/// The names that only the local registry has, in ascending order.
pub open spec fn local_only(
    local: Seq<CustomAttributeView>,
    remote: Seq<CustomAttributeView>,
) -> Seq<Seq<char>> {
    ordered(names_of::<CustomAttribute>(local).to_set()).filter(
        |n: Seq<char>| last_named::<CustomAttribute>(remote, n) is None,
    )
}

/// The entries after an export: what Braze returned, and unless it is to be
/// rebuilt what only the registry had. Of local entries with the same name
/// the last one counts.
pub open spec fn merged(
    local: Seq<CustomAttributeView>,
    remote: Seq<CustomAttributeView>,
    prune: bool,
) -> Seq<CustomAttributeView> {
    if prune {
        remote
    } else {
        remote + local_only(local, remote).map_values(
            |n: Seq<char>| last_named::<CustomAttribute>(local, n)->0,
        )
    }
}

/// The local entries; none where the registry is missing or unreadable.
pub open spec fn loaded_entries(loaded: Result<Option<CustomAttributeRegistry>, Error>) -> Seq<
    CustomAttributeView,
> {
    match loaded {
        Ok(Some(r)) => views(r.attributes@),
        _ => Seq::empty(),
    }
}

fn local_only_names(local: &Vec<CustomAttribute>, remote: &Vec<CustomAttribute>) -> (r: Vec<
    String,
>)
    ensures
        strs(r@) == local_only(views(local@), views(remote@)),
        forall|i: int|
            0 <= i < r@.len() ==> last_named::<CustomAttribute>(
                views(local@),
                (#[trigger] r@[i])@,
            ) is Some,
{
    let mut names: Vec<String> = Vec::new();
    assert(strs(names@) =~= Seq::empty());
    insert_names(&mut names, local);
    let ghost s = names_of::<CustomAttribute>(views(local@)).to_set();
    proof {
        assert(strs(names@).to_set() =~= s);
        lemma_ordered_unique(strs(names@), s);
    }
    let ghost all = strs(names@);
    let ghost keep = |n: Seq<char>| last_named::<CustomAttribute>(views(remote@), n) is None;
    let mut out: Vec<String> = Vec::new();
    let mut i: usize = 0;
    reveal(Seq::filter);
    assert(all.take(0).filter(keep) =~= Seq::empty());
    assert(strs(out@) =~= Seq::empty());
    while i < names.len()
        invariant
            i <= names@.len(),
            all == strs(names@),
            all.to_set() == s,
            s == names_of::<CustomAttribute>(views(local@)).to_set(),
            keep == (|n: Seq<char>| last_named::<CustomAttribute>(views(remote@), n) is None),
            strs(out@) == all.take(i as int).filter(keep),
            forall|k: int|
                0 <= k < out@.len() ==> last_named::<CustomAttribute>(
                    views(local@),
                    (#[trigger] out@[k])@,
                ) is Some,
        decreases names@.len() - i,
    {
        reveal(Seq::filter);
        assert(all.take(i + 1).drop_last() =~= all.take(i as int));
        assert(all.take(i + 1).last() == names@[i as int]@);
        if find_last_named(remote, names[i].as_str()).is_none() {
            proof {
                assert(all[i as int] == names@[i as int]@);
                assert(all.contains(names@[i as int]@));
                assert(all.to_set().contains(names@[i as int]@));
                lemma_last_named_some::<CustomAttribute>(views(local@), names@[i as int]@);
            }
            let ghost before = out@;
            out.push(names[i].clone());
            assert(strs(out@) =~= strs(before).push(names@[i as int]@));
        }
        i = i + 1;
    }
    assert(all.take(i as int) =~= all);
    out
}

/// Refreshes the registry of custom attributes. An attribute exists in Braze
/// once it was used, so one that Braze does not return is not wrong: its
/// entry is kept, unless the registry is to be rebuilt. A registry that
/// cannot be read ends the export, unless it is to be rebuilt anyway.
pub fn export_custom_attributes(
    returned: Vec<CustomAttribute>,
    excludes: &Vec<NamePattern>,
    loaded: Result<Option<CustomAttributeRegistry>, Error>,
    prune: bool,
) -> (r: Result<(CustomAttributeRegistry, RegistryExport), Error>)
    ensures
        if loaded is Err && !prune {
            r == Err::<(CustomAttributeRegistry, RegistryExport), Error>(loaded->Err_0)
        } else {
            let remote = views(returned@).filter(
                |v: CustomAttributeView| takes_part(v.name, None, excludes@),
            );
            let local = loaded_entries(loaded);
            let only = local_only(local, remote).len();
            &&& r matches Ok(p)
            &&& stable_sort_of::<CustomAttribute>(
                merged(local, remote, prune),
                views(p.0.attributes@),
            )
            &&& p.1.refreshed == remote.len()
            &&& p.1.kept == if prune {
                0
            } else {
                only
            }
            &&& p.1.removed == if prune {
                only
            } else {
                0
            }
            &&& p.1.refreshed + p.1.kept <= usize::MAX
        },
{
    let ghost seen = views(returned@);
    let remote = select(returned, None, excludes);
    let ghost wanted = seen.filter(
        |v: CustomAttributeView| takes_part(v.name, None, excludes@),
    );
    assert(views(remote@) == wanted) by {
        let f = |v: CustomAttributeView|
            takes_part(
                <CustomAttribute as crate::order::Named>::name_of(v),
                crate::braze::opt_str(None),
                excludes@,
            );
        let g = |v: CustomAttributeView| takes_part(v.name, None, excludes@);
        assert(f =~= g);
    }
    let ghost known = loaded_entries(loaded);
    let local: Vec<CustomAttribute> = match loaded {
        Ok(Some(r)) => r.attributes,
        Ok(None) => Vec::new(),
        Err(e) => {
            if !prune {
                return Err(e);
            }
            Vec::new()
        },
    };
    assert(views(local@) =~= known);
    let only = local_only_names(&local, &remote);
    let refreshed: usize = remote.len();
    let count: usize = only.len();
    let ghost base = views(remote@);
    assert(strs(only@).len() == only@.len());
    assert(base.len() == remote@.len());
    let mut attributes = remote;
    if !prune {
        let mut i: usize = 0;
        while i < only.len()
            invariant
                i <= only@.len(),
                base.len() == refreshed,
                attributes@.len() == refreshed + i,
                forall|k: int|
                    0 <= k < only@.len() ==> last_named::<CustomAttribute>(
                        views(local@),
                        (#[trigger] only@[k])@,
                    ) is Some,
                forall|k: int| 0 <= k < refreshed ==> (#[trigger] attributes@[k])@ == base[k],
                forall|k: int|
                    refreshed <= k < attributes@.len() ==> (#[trigger] attributes@[k])@
                        == last_named::<CustomAttribute>(
                        views(local@),
                        only@[k - refreshed]@,
                    )->0,
            decreases only@.len() - i,
        {
            if let Some(k) = find_last_named(&local, only[i].as_str()) {
                attributes.push(local[k].clone());
            }
            i = i + 1;
        }
        assert(views(attributes@) =~= merged(known, wanted, prune)) by {
            let tail = local_only(known, wanted).map_values(
                |n: Seq<char>| last_named::<CustomAttribute>(known, n)->0,
            );
            assert forall|k: int| 0 <= k < attributes@.len() implies views(attributes@)[k] == (
            wanted + tail)[k] by {
                if k >= refreshed {
                    assert(tail[k - refreshed] == last_named::<CustomAttribute>(
                        known,
                        strs(only@)[k - refreshed],
                    )->0);
                    assert(views(attributes@)[k] == attributes@[k]@);
                } else {
                    assert(views(attributes@)[k] == attributes@[k]@);
                }
            }
        }
    }
    let total: usize = attributes.len();
    let registry = CustomAttributeRegistry { attributes: stable_sort(attributes) };
    Ok(
        (
            registry,
            RegistryExport {
                refreshed,
                kept: if prune {
                    0
                } else {
                    count
                },
                removed: if prune {
                    count
                } else {
                    0
                },
            },
        ),
    )
}

/// Unless the registry is rebuilt, an export drops no name: every entry of
/// the registry is still there under its name.
pub proof fn export_keeps_registry_names(
    local: Seq<CustomAttributeView>,
    remote: Seq<CustomAttributeView>,
    name: Seq<char>,
)
    requires
        names_of::<CustomAttribute>(local).contains(name),
    ensures
        names_of::<CustomAttribute>(merged(local, remote, false)).contains(name),
{
    let m = merged(local, remote, false);
    lemma_last_named_some::<CustomAttribute>(remote, name);
    if last_named::<CustomAttribute>(remote, name) is Some {
        let rs = names_of::<CustomAttribute>(remote);
        let k = choose|k: int| 0 <= k < rs.len() && rs[k] == name;
        assert(names_of::<CustomAttribute>(m)[k] == name);
    } else {
        let all = ordered(names_of::<CustomAttribute>(local).to_set());
        let keep = |n: Seq<char>| last_named::<CustomAttribute>(remote, n) is None;
        lemma_ordered_exists(names_of::<CustomAttribute>(local));
        assert(names_of::<CustomAttribute>(local).to_set().contains(name));
        assert(all.to_set().contains(name));
        let k = choose|k: int| 0 <= k < all.len() && all[k] == name;
        all.lemma_filter_contains(keep, k);
        let only = local_only(local, remote);
        assert(only.contains(name));
        let j = choose|j: int| 0 <= j < only.len() && only[j] == name;
        lemma_last_named_some::<CustomAttribute>(local, name);
        assert(m[remote.len() + j] == last_named::<CustomAttribute>(local, name)->0);
        assert(names_of::<CustomAttribute>(m)[remote.len() + j] == name);
    }
}

/// What is put behind a list under other names does not change what is found
/// in it.
proof fn lemma_found_in_front(
    front: Seq<CustomAttributeView>,
    back: Seq<CustomAttributeView>,
    name: Seq<char>,
)
    requires
        forall|i: int| 0 <= i < back.len() ==> (#[trigger] back[i]).name != name,
    ensures
        last_named::<CustomAttribute>(front + back, name) == last_named::<CustomAttribute>(
            front,
            name,
        ),
    decreases back.len(),
{
    if back.len() == 0 {
        assert(front + back =~= front);
    } else {
        let all = front + back;
        assert(all.last() == back[back.len() - 1]);
        assert(all.drop_last() =~= front + back.drop_last());
        assert forall|i: int| 0 <= i < back.drop_last().len() implies (#[trigger]
        back.drop_last()[i]).name != name by {
            assert(back.drop_last()[i] == back[i]);
        }
        lemma_found_in_front(front, back.drop_last(), name);
    }
}

/// After an export every attribute that Braze returned is in sync with the
/// registry: a stale type, description or flag was corrected.
pub proof fn export_brings_registry_in_sync(
    local: Seq<CustomAttributeView>,
    remote: Seq<CustomAttributeView>,
    prune: bool,
    name: Seq<char>,
)
    requires
        names_of::<CustomAttribute>(remote).contains(name),
    ensures
        diff_of(merged(local, remote, prune), remote, name) == (CustomAttributeDiffView {
            name,
            op: CustomAttributeOp::Unchanged,
            hints: Seq::empty(),
        }),
{
    lemma_last_named_some::<CustomAttribute>(remote, name);
    if !prune {
        let only = local_only(local, remote);
        let f = |n: Seq<char>| last_named::<CustomAttribute>(local, n)->0;
        let all = ordered(names_of::<CustomAttribute>(local).to_set());
        let keep = |n: Seq<char>| last_named::<CustomAttribute>(remote, n) is None;
        lemma_ordered_exists(names_of::<CustomAttribute>(local));
        let back = only.map_values(f);
        assert forall|i: int| 0 <= i < back.len() implies (#[trigger] back[i]).name != name by {
            all.lemma_filter_pred(keep, i);
            assert(keep(only[i]));
            assert(only.contains(only[i]));
            all.lemma_filter_contains_rev(keep, only[i]);
            assert(all.contains(only[i]));
            assert(all.to_set().contains(only[i]));
            lemma_last_named_some::<CustomAttribute>(local, only[i]);
            assert(back[i].name == only[i]);
        }
        lemma_found_in_front(remote, back, name);
    }
}

/// The tags of content blocks, one block after the other.
pub open spec fn block_tags(blocks: Seq<ContentBlockView>) -> Seq<Seq<char>>
    decreases blocks.len(),
{
    if blocks.len() == 0 {
        Seq::empty()
    } else {
        block_tags(blocks.drop_last()) + blocks.last().tags
    }
}

/// The tags of email templates, one template after the other.
pub open spec fn template_tags(templates: Seq<EmailTemplateView>) -> Seq<Seq<char>>
    decreases templates.len(),
{
    if templates.len() == 0 {
        Seq::empty()
    } else {
        template_tags(templates.drop_last()) + templates.last().tags
    }
}

fn insert_texts(v: &mut Vec<String>, texts: &Vec<String>)
    requires
        ascending(strs(old(v)@)),
    ensures
        ascending(strs(final(v)@)),
        strs(final(v)@).to_set() == strs(old(v)@).to_set().union(strs(texts@).to_set()),
{
    let ghost start = strs(v@).to_set();
    let ghost ts = strs(texts@);
    let mut i: usize = 0;
    assert(start.union(ts.take(0).to_set()) =~= start) by {
        assert(ts.take(0) =~= Seq::empty());
    }
    while i < texts.len()
        invariant
            i <= texts@.len(),
            ts == strs(texts@),
            ascending(strs(v@)),
            strs(v@).to_set() == start.union(ts.take(i as int).to_set()),
        decreases texts@.len() - i,
    {
        insert_name(v, texts[i].as_str());
        proof {
            assert(ts.take(i + 1) =~= ts.take(i as int).push(texts@[i as int]@));
            lemma_push_to_set(ts.take(i as int), texts@[i as int]@);
            assert(strs(v@).to_set() =~= start.union(ts.take(i + 1).to_set()));
        }
        i = i + 1;
    }
    assert(ts.take(i as int) =~= ts);
}

proof fn lemma_concat_to_set(a: Seq<Seq<char>>, b: Seq<Seq<char>>)
    ensures
        (a + b).to_set() == a.to_set().union(b.to_set()),
{
    assert forall|x: Seq<char>|
        (a + b).to_set().contains(x) <==> a.to_set().union(b.to_set()).contains(x) by {
        if a.contains(x) {
            let k = choose|k: int| 0 <= k < a.len() && a[k] == x;
            assert((a + b)[k] == x);
        }
        if b.contains(x) {
            let k = choose|k: int| 0 <= k < b.len() && b[k] == x;
            assert((a + b)[a.len() + k] == x);
        }
        if (a + b).contains(x) {
            let k = choose|k: int| 0 <= k < (a + b).len() && (a + b)[k] == x;
            if k < a.len() {
                assert(a[k] == x);
            } else {
                assert(b[k - a.len()] == x);
            }
        }
    }
    assert((a + b).to_set() =~= a.to_set().union(b.to_set()));
}

/// The tags that local resources use, in ascending order. Braze has no call
/// that lists tags, so this is where they come from.
pub fn collect_local_tag_references(blocks: &Vec<ContentBlock>, templates: &Vec<EmailTemplate>) -> (r:
    Vec<String>)
    ensures
        strs(r@) == ordered(
            (block_tags(views(blocks@)) + template_tags(views(templates@))).to_set(),
        ),
{
    let ghost bs = views(blocks@);
    let ghost ts = views(templates@);
    let mut out: Vec<String> = Vec::new();
    let mut i: usize = 0;
    assert(strs(out@) =~= Seq::empty());
    assert(block_tags(bs.take(0)) =~= Seq::empty());
    assert(strs(out@).to_set() =~= block_tags(bs.take(0)).to_set());
    while i < blocks.len()
        invariant
            i <= blocks@.len(),
            bs == views(blocks@),
            ascending(strs(out@)),
            strs(out@).to_set() == block_tags(bs.take(i as int)).to_set(),
        decreases blocks@.len() - i,
    {
        insert_texts(&mut out, &blocks[i].tags);
        proof {
            assert(bs.take(i + 1).drop_last() =~= bs.take(i as int));
            assert(bs.take(i + 1).last() == blocks@[i as int]@);
            lemma_concat_to_set(block_tags(bs.take(i as int)), strs(blocks@[i as int].tags@));
        }
        i = i + 1;
    }
    assert(bs.take(i as int) =~= bs);
    let ghost first = block_tags(bs);
    let mut j: usize = 0;
    assert(template_tags(ts.take(0)) =~= Seq::empty());
    assert(first + template_tags(ts.take(0)) =~= first);
    while j < templates.len()
        invariant
            j <= templates@.len(),
            ts == views(templates@),
            ascending(strs(out@)),
            strs(out@).to_set() == (first + template_tags(ts.take(j as int))).to_set(),
        decreases templates@.len() - j,
    {
        insert_texts(&mut out, &templates[j].tags);
        proof {
            let before = first + template_tags(ts.take(j as int));
            assert(ts.take(j + 1).drop_last() =~= ts.take(j as int));
            assert(ts.take(j + 1).last() == templates@[j as int]@);
            lemma_concat_to_set(before, strs(templates@[j as int].tags@));
            assert(before + strs(templates@[j as int].tags@) =~= first + template_tags(
                ts.take(j + 1),
            ));
        }
        j = j + 1;
    }
    assert(ts.take(j as int) =~= ts);
    proof {
        lemma_ordered_unique(strs(out@), (first + template_tags(ts)).to_set());
    }
    out
}

/// The registry of tags in use, without those that are managed elsewhere.
pub fn export_tags(references: &Vec<String>, excludes: &Vec<NamePattern>) -> (r: TagRegistry)
    ensures
        r@ == strs(references@).filter(|n: Seq<char>| !excluded(n, excludes@)).map_values(
            |n: Seq<char>| TagView { name: n, description: None },
        ),
{
    let ghost rs = strs(references@);
    let ghost keep = |n: Seq<char>| !excluded(n, excludes@);
    let ghost make = |n: Seq<char>| TagView { name: n, description: None };
    let mut tags: Vec<Tag> = Vec::new();
    let mut i: usize = 0;
    reveal(Seq::filter);
    assert(views(tags@) =~= rs.take(0).filter(keep).map_values(make));
    while i < references.len()
        invariant
            i <= references@.len(),
            rs == strs(references@),
            keep == (|n: Seq<char>| !excluded(n, excludes@)),
            make == (|n: Seq<char>| TagView { name: n, description: None }),
            views(tags@) == rs.take(i as int).filter(keep).map_values(make),
        decreases references@.len() - i,
    {
        reveal(Seq::filter);
        assert(rs.take(i + 1).drop_last() =~= rs.take(i as int));
        assert(rs.take(i + 1).last() == references@[i as int]@);
        if !is_excluded(references[i].as_str(), excludes) {
            let ghost before = tags@;
            tags.push(Tag { name: references[i].clone(), description: None });
            assert(views(tags@) =~= views(before).push(make(references@[i as int]@)));
            assert(rs.take(i + 1).filter(keep) == rs.take(i as int).filter(keep).push(
                references@[i as int]@,
            ));
            assert(views(tags@) =~= rs.take(i + 1).filter(keep).map_values(make));
        }
        i = i + 1;
    }
    assert(rs.take(i as int) =~= rs);
    TagRegistry { tags }
}

/// Identifiers in a text are rewritten to placeholders where there is no
/// local text yet, or where the local one has placeholders. A local text
/// without any is left alone on purpose.
pub open spec fn rewrites(local_has_placeholders: Option<bool>) -> bool {
    local_has_placeholders is None || local_has_placeholders->0
}

/// Whether identifiers in a text are rewritten to placeholders.
pub fn should_templatize(local_has_placeholders: Option<bool>) -> (r: bool)
    ensures
        r == rewrites(local_has_placeholders),
{
    match local_has_placeholders {
        Some(b) => b,
        None => true,
    }
}

/// The block to save, given whether the local one has placeholders, if there
/// is one, and the body with its identifiers rewritten.
pub fn block_to_save(
    remote: &ContentBlock,
    local_has_placeholders: Option<bool>,
    rewritten: String,
) -> (r: ContentBlock)
    ensures
        r@ == (ContentBlockView {
            content: if rewrites(local_has_placeholders) {
                rewritten@
            } else {
                remote@.content
            },
            ..remote@
        }),
{
    let mut out = remote.clone();
    if should_templatize(local_has_placeholders) {
        out.content = rewritten;
    }
    out
}

/// Which texts of a local template have placeholders.
#[derive(Debug, Clone, Copy, PartialEq, Eq, Structural)]
pub struct TemplatePlaceholders {
    pub subject: bool,
    pub body_html: bool,
    pub body_plaintext: bool,
    /// Absent where the local template has no preheader.
    pub preheader: Option<bool>,
}

/// Finds out which texts of a local template have placeholders.
pub fn placeholders_in(t: &EmailTemplate) -> (r: TemplatePlaceholders)
    ensures
        r == (TemplatePlaceholders {
            subject: is_templated(t@.subject),
            body_html: is_templated(t@.body_html),
            body_plaintext: is_templated(t@.body_plaintext),
            preheader: match t@.preheader {
                Some(p) => Some(is_templated(p)),
                None => None,
            },
        }),
{
    TemplatePlaceholders {
        subject: holds_placeholder(t.subject.as_str()),
        body_html: holds_placeholder(t.body_html.as_str()),
        body_plaintext: holds_placeholder(t.body_plaintext.as_str()),
        preheader: match &t.preheader {
            Some(p) => Some(holds_placeholder(p.as_str())),
            None => None,
        },
    }
}

/// The texts of a template with their identifiers rewritten.
#[derive(Debug)]
pub struct RewrittenTexts {
    pub subject: String,
    pub body_html: String,
    pub body_plaintext: String,
    pub preheader: Option<String>,
}

/// The template to save, given which texts of the local one have
/// placeholders, if there is one, and the texts with their identifiers
/// rewritten.
pub fn template_to_save(
    remote: &EmailTemplate,
    local: Option<TemplatePlaceholders>,
    rewritten: RewrittenTexts,
) -> (r: EmailTemplate)
    ensures
        r@ == (EmailTemplateView {
            subject: if local is None || local->0.subject {
                rewritten.subject@
            } else {
                remote@.subject
            },
            body_html: if local is None || local->0.body_html {
                rewritten.body_html@
            } else {
                remote@.body_html
            },
            body_plaintext: if local is None || local->0.body_plaintext {
                rewritten.body_plaintext@
            } else {
                remote@.body_plaintext
            },
            preheader: if local is None || rewrites(local->0.preheader) {
                opt_text(rewritten.preheader)
            } else {
                remote@.preheader
            },
            ..remote@
        }),
{
    let (subject, body_html, body_plaintext, preheader) = match local {
        None => (true, true, true, true),
        Some(p) => (p.subject, p.body_html, p.body_plaintext, should_templatize(p.preheader)),
    };
    let mut out = remote.clone();
    if subject {
        out.subject = rewritten.subject;
    }
    if body_html {
        out.body_html = rewritten.body_html;
    }
    if body_plaintext {
        out.body_plaintext = rewritten.body_plaintext;
    }
    if preheader {
        out.preheader = rewritten.preheader;
    }
    out
}

/// After an export the registry holds what Braze returned, as Braze returned
/// it. An entry that Braze did not return is there exactly if the registry is
/// not rebuilt, and then as it was.
pub proof fn exported_entries_have_their_source(
    local: Seq<CustomAttributeView>,
    remote: Seq<CustomAttributeView>,
    prune: bool,
    v: CustomAttributeView,
)
    ensures
        merged(local, remote, prune).contains(v) <==> (remote.contains(v) || (!prune && !(exists|
            i: int,
        |
            0 <= i < remote.len() && (#[trigger] remote[i]).name == v.name) && last_named::<
            CustomAttribute,
        >(local, v.name) == Some(v))),
        merged(local, remote, prune).take(remote.len() as int) == remote,
{
    let only = local_only(local, remote);
    let keep = |n: Seq<char>| last_named::<CustomAttribute>(remote, n) is None;
    let all = ordered(names_of::<CustomAttribute>(local).to_set());
    let tail = only.map_values(|n: Seq<char>| last_named::<CustomAttribute>(local, n)->0);
    let m = merged(local, remote, prune);
    assert(m.take(remote.len() as int) =~= remote);
    kept_or_removed_are_not_in_braze(local, remote, v.name);
    lemma_last_named_some::<CustomAttribute>(local, v.name);
    let here = exists|i: int| 0 <= i < remote.len() && (#[trigger] remote[i]).name == v.name;
    assert(names_of::<CustomAttribute>(remote).contains(v.name) <==> here) by {
        if here {
            let i = choose|i: int| 0 <= i < remote.len() && (#[trigger] remote[i]).name == v.name;
            assert(names_of::<CustomAttribute>(remote)[i] == v.name);
        }
        if names_of::<CustomAttribute>(remote).contains(v.name) {
            let i = choose|i: int|
                0 <= i < remote.len() && names_of::<CustomAttribute>(remote)[i] == v.name;
            assert(remote[i].name == v.name);
        }
    }
    if remote.contains(v) {
        let i = choose|i: int| 0 <= i < remote.len() && remote[i] == v;
        assert(m[i] == v);
    }
    if !prune && !here && last_named::<CustomAttribute>(local, v.name) == Some(v) {
        let i = choose|i: int| 0 <= i < only.len() && only[i] == v.name;
        assert(tail[i] == v);
        assert(m[remote.len() + i] == v);
    }
    if m.contains(v) && !remote.contains(v) {
        let i = choose|i: int| 0 <= i < m.len() && m[i] == v;
        assert(i >= remote.len()) by {
            if i < remote.len() {
                assert(remote[i] == v);
            }
        }
        let k = i - remote.len();
        assert(tail[k] == v);
        assert(only.contains(only[k]));
        kept_or_removed_are_not_in_braze(local, remote, only[k]);
        lemma_last_named_some::<CustomAttribute>(local, only[k]);
        assert(v.name == only[k]);
    }
}

/// The names that count as kept or removed are those that the registry has
/// and Braze did not return, each once.
pub proof fn kept_or_removed_are_not_in_braze(
    local: Seq<CustomAttributeView>,
    remote: Seq<CustomAttributeView>,
    name: Seq<char>,
)
    ensures
        local_only(local, remote).contains(name) <==> names_of::<CustomAttribute>(
            local,
        ).contains(name) && !names_of::<CustomAttribute>(remote).contains(name),
{
    let all = ordered(names_of::<CustomAttribute>(local).to_set());
    let keep = |n: Seq<char>| last_named::<CustomAttribute>(remote, n) is None;
    lemma_ordered_exists(names_of::<CustomAttribute>(local));
    lemma_last_named_some::<CustomAttribute>(remote, name);
    assert(all.contains(name) <==> all.to_set().contains(name));
    assert(names_of::<CustomAttribute>(local).contains(name) <==> names_of::<CustomAttribute>(
        local,
    ).to_set().contains(name));
    if all.filter(keep).contains(name) {
        all.lemma_filter_contains_rev(keep, name);
        let i = choose|i: int| 0 <= i < all.filter(keep).len() && all.filter(keep)[i] == name;
        all.lemma_filter_pred(keep, i);
    }
    if all.contains(name) && keep(name) {
        let i = choose|i: int| 0 <= i < all.len() && all[i] == name;
        all.lemma_filter_contains(keep, i);
    }
}

/// What the operator is told after an export gives the number of entries that
/// Braze returned, and the number of those removed or kept where there are
/// any.
pub proof fn export_line_gives_the_counts(e: RegistryExport)
    ensures
        is_shown(decimal(e.refreshed as nat), e.line()),
        e.removed > 0 ==> is_shown("removed "@ + decimal(e.removed as nat), e.line()),
        e.removed == 0 && e.kept > 0 ==> is_shown("kept "@ + decimal(e.kept as nat), e.line()),
        e.removed == 1 ==> is_shown("1 registry entry"@, e.line()),
        e.removed > 1 ==> is_shown("registry entries"@, e.line()),
{
    let n = decimal(e.refreshed as nat);
    if e.removed > 0 {
        let m = decimal(e.removed as nat);
        reveal_strlit(" from Braze, removed ");
        reveal_strlit("removed ");
        reveal_strlit(" registry entr");
        reveal_strlit("registry entries");
        reveal_strlit("1 registry entry");
        reveal_strlit("ies");
        reveal_strlit("y");
        let a = "✓ custom_attribute: refreshed "@;
        let b = " from Braze, removed "@;
        let c = " registry entr"@;
        let d = entry_ending(e.removed);
        let z = " this workspace does not have (--prune)"@;
        assert(e.line() =~= a + n + (b + m + c + d + z));
        lemma_shown_between(a, n, b + m + c + d + z);
        let head = b.take(13);
        assert(b =~= head + "removed "@);
        assert(e.line() =~= (a + n + head) + ("removed "@ + m) + (c + d + z));
        lemma_shown_between(a + n + head, "removed "@ + m, c + d + z);
        if e.removed == 1 {
            assert(m =~= seq!['1']) by {
                reveal_with_fuel(decimal, 2);
            }
            let w = "1 registry entry"@;
            assert(w =~= m + c + d);
            assert(e.line() =~= (a + n + b) + w + z);
            lemma_shown_between(a + n + b, w, z);
        } else {
            let w = "registry entries"@;
            assert(c + d =~= seq![' '] + w);
            assert(e.line() =~= (a + n + b + m + seq![' ']) + w + z);
            lemma_shown_between(a + n + b + m + seq![' '], w, z);
        }
    } else if e.kept > 0 {
        let m = decimal(e.kept as nat);
        reveal_strlit(" from Braze, kept ");
        reveal_strlit("kept ");
        let a = "✓ custom_attribute: refreshed "@;
        let b = " from Braze, kept "@;
        let z = " registry-only entr"@ + entry_ending(e.kept);
        assert(e.line() =~= a + n + (b + m + z));
        lemma_shown_between(a, n, b + m + z);
        let head = b.take(13);
        assert(b =~= head + "kept "@);
        assert(e.line() =~= (a + n + head) + ("kept "@ + m) + z);
        lemma_shown_between(a + n + head, "kept "@ + m, z);
    } else {
        lemma_shown_between("✓ custom_attribute: exported "@, n, " attribute(s)"@);
    }
}

/// A registry that is there is read in full; one that is missing or cannot
/// be read has no entries.
pub proof fn unreadable_registry_has_no_entries(
    registry: CustomAttributeRegistry,
    e: Error,
)
    ensures
        loaded_entries(Ok(Some(registry))) == views(registry.attributes@),
        loaded_entries(Ok(None)).len() == 0,
        loaded_entries(Err(e)).len() == 0,
{
}

/// A tag is collected from content blocks exactly if one of them has it.
pub proof fn block_tags_are_those_in_use(blocks: Seq<ContentBlockView>, tag: Seq<char>)
    ensures
        block_tags(blocks).contains(tag) <==> exists|i: int|
            0 <= i < blocks.len() && (#[trigger] blocks[i]).tags.contains(tag),
    decreases blocks.len(),
{
    if blocks.len() > 0 {
        let before = blocks.drop_last();
        block_tags_are_those_in_use(before, tag);
        lemma_contained_in_sum(block_tags(before), blocks.last().tags, tag);
        if block_tags(before).contains(tag) {
            let i = choose|i: int|
                0 <= i < before.len() && (#[trigger] before[i]).tags.contains(tag);
            assert(blocks[i] == before[i]);
        }
        if blocks.last().tags.contains(tag) {
            assert(blocks[blocks.len() - 1].tags.contains(tag));
        }
        if exists|i: int| 0 <= i < blocks.len() && (#[trigger] blocks[i]).tags.contains(tag) {
            let i = choose|i: int|
                0 <= i < blocks.len() && (#[trigger] blocks[i]).tags.contains(tag);
            if i < blocks.len() - 1 {
                assert(before[i] == blocks[i]);
            }
        }
    }
}

/// A tag is collected from email templates exactly if one of them has it.
pub proof fn template_tags_are_those_in_use(templates: Seq<EmailTemplateView>, tag: Seq<char>)
    ensures
        template_tags(templates).contains(tag) <==> exists|i: int|
            0 <= i < templates.len() && (#[trigger] templates[i]).tags.contains(tag),
    decreases templates.len(),
{
    if templates.len() > 0 {
        let before = templates.drop_last();
        template_tags_are_those_in_use(before, tag);
        lemma_contained_in_sum(template_tags(before), templates.last().tags, tag);
        if template_tags(before).contains(tag) {
            let i = choose|i: int|
                0 <= i < before.len() && (#[trigger] before[i]).tags.contains(tag);
            assert(templates[i] == before[i]);
        }
        if templates.last().tags.contains(tag) {
            assert(templates[templates.len() - 1].tags.contains(tag));
        }
        if exists|i: int| 0 <= i < templates.len() && (#[trigger] templates[i]).tags.contains(
            tag,
        ) {
            let i = choose|i: int|
                0 <= i < templates.len() && (#[trigger] templates[i]).tags.contains(tag);
            if i < templates.len() - 1 {
                assert(before[i] == templates[i]);
            }
        }
    }
}

proof fn lemma_contained_in_sum(a: Seq<Seq<char>>, b: Seq<Seq<char>>, x: Seq<char>)
    ensures
        (a + b).contains(x) <==> a.contains(x) || b.contains(x),
{
    if a.contains(x) {
        let i = choose|i: int| 0 <= i < a.len() && a[i] == x;
        assert((a + b)[i] == x);
    }
    if b.contains(x) {
        let i = choose|i: int| 0 <= i < b.len() && b[i] == x;
        assert((a + b)[a.len() + i] == x);
    }
}

/// A text that was written without placeholders keeps its identifiers; one
/// that has placeholders, or that is new, gets them.
pub proof fn texts_without_placeholders_are_left_alone()
    ensures
        rewrites(None),
        rewrites(Some(true)),
        !rewrites(Some(false)),
{
}

} // verus!
