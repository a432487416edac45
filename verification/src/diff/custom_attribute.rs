//! Custom attribute diff.
//!
//! The only change `apply` can push is the deprecation flag.

use crate::diff::{opt_str_eq, DriftTier};
use crate::order::{
    contains_str, find_last_named, insert_names, last_named, lemma_last_named_some, names_of,
    ordered, views,
};
use crate::resource::custom_attribute::CustomAttributeView;
use crate::resource::{CustomAttribute, CustomAttributeRegistry, CustomAttributeType};
use crate::text::{owned, strs, text_or_empty};
use vstd::prelude::*;

verus! {

#[derive(Debug)]
pub struct CustomAttributeDiff {
    pub name: String,
    pub op: CustomAttributeOp,
    /// Notes shown in diff output. They do not count as changes.
    pub hints: Vec<String>,
}

#[derive(Debug, Clone, Copy, PartialEq, Eq, Structural)]
pub enum CustomAttributeOp {
    /// Present in Braze but missing from the local registry.
    UnregisteredInGit,
    /// Present in the local registry but not in Braze.
    PresentInGitOnly,
    /// The `deprecated` flag changed. The only write `apply` performs.
    DeprecationToggled { from: bool, to: bool },
    /// Only the description changed. There is no call that updates it.
    MetadataOnly,
    Unchanged,
}

/// What a custom attribute diff is.
#[verifier::ext_equal]
pub struct CustomAttributeDiffView {
    pub name: Seq<char>,
    pub op: CustomAttributeOp,
    pub hints: Seq<Seq<char>>,
}

impl View for CustomAttributeDiff {
    type V = CustomAttributeDiffView;

    open spec fn view(&self) -> CustomAttributeDiffView {
        CustomAttributeDiffView { name: self.name@, op: self.op, hints: strs(self.hints@) }
    }
}

impl CustomAttributeDiff {
    pub fn has_changes(&self) -> (r: bool)
        ensures
            r == (self@.op !is Unchanged),
    {
        !matches!(self.op, CustomAttributeOp::Unchanged)
    }

    /// Whether the state asks something of the operator before `apply`: a
    /// toggle is written, a registry-only entry is pointed out. Metadata-only
    /// and unregistered entries are reconciled by `export`.
    pub fn is_actionable(&self) -> (r: bool)
        ensures
            r == (self@.op is DeprecationToggled || self@.op is PresentInGitOnly),
    {
        matches!(
            self.op,
            CustomAttributeOp::DeprecationToggled { .. } | CustomAttributeOp::PresentInGitOnly
        )
    }

    /// A registry-only entry is reported and no more: an
    /// attribute exists only once traffic has carried it, so a correct
    /// registry produces that state. On every other change one has to act.
    pub fn drift_tier(&self) -> (r: DriftTier)
        ensures
            r == match self@.op {
                CustomAttributeOp::Unchanged => DriftTier::InSync,
                CustomAttributeOp::PresentInGitOnly => DriftTier::ReportOnly,
                _ => DriftTier::Gating,
            },
    {
        match self.op {
            CustomAttributeOp::Unchanged => DriftTier::InSync,
            CustomAttributeOp::PresentInGitOnly => DriftTier::ReportOnly,
            _ => DriftTier::Gating,
        }
    }
}

/// The hint about a type that the registry has wrong.
pub open spec fn type_hint(local: CustomAttributeView, remote: CustomAttributeView) -> Seq<char> {
    "type mismatch: local "@ + local.attribute_type.word() + " vs Braze "@
        + remote.attribute_type.word() + " (run export to update)"@
}

/// What comparing one attribute on both sides gives. The flag comes first,
/// then the description; a type difference is only hinted at, since Braze
/// alone decides types.
pub open spec fn attribute_op(local: CustomAttributeView, remote: CustomAttributeView) -> (
    CustomAttributeOp,
    Seq<Seq<char>>,
) {
    let same_description = text_or_empty(local.description) == text_or_empty(remote.description);
    if local.deprecated != remote.deprecated {
        (
            CustomAttributeOp::DeprecationToggled {
                from: remote.deprecated,
                to: local.deprecated,
            },
            if same_description {
                Seq::empty()
            } else {
                seq!["description also differs; will be reconciled on next export"@]
            },
        )
    } else if !same_description {
        (CustomAttributeOp::MetadataOnly, Seq::empty())
    } else if local.attribute_type != remote.attribute_type {
        (CustomAttributeOp::Unchanged, seq![type_hint(local, remote)])
    } else {
        (CustomAttributeOp::Unchanged, Seq::empty())
    }
}

/// The diff of one attribute name. Where a name is repeated on a side the
/// last entry counts.
pub open spec fn diff_of(
    local: Seq<CustomAttributeView>,
    remote: Seq<CustomAttributeView>,
    name: Seq<char>,
) -> CustomAttributeDiffView {
    match (
        last_named::<CustomAttribute>(local, name),
        last_named::<CustomAttribute>(remote, name),
    ) {
        (Some(l), Some(r)) => CustomAttributeDiffView {
            name,
            op: attribute_op(l, r).0,
            hints: attribute_op(l, r).1,
        },
        (Some(_), None) => CustomAttributeDiffView {
            name,
            op: CustomAttributeOp::PresentInGitOnly,
            hints: Seq::empty(),
        },
        _ => CustomAttributeDiffView {
            name,
            op: CustomAttributeOp::UnregisteredInGit,
            hints: Seq::empty(),
        },
    }
}

/// The attributes a registry lists; none where there is no registry.
pub open spec fn listed(local: Option<&CustomAttributeRegistry>) -> Seq<CustomAttributeView> {
    match local {
        Some(r) => r@,
        None => Seq::empty(),
    }
}

/// The names of a list of attributes.
pub open spec fn attribute_names(s: Seq<CustomAttributeView>) -> Set<Seq<char>> {
    names_of::<CustomAttribute>(s).to_set()
}

/// The names that stand behind an entry of the same name, whose last entry
/// counts.
pub open spec fn repeated(names: Seq<Seq<char>>) -> Seq<Seq<char>>
    decreases names.len(),
{
    if names.len() == 0 {
        Seq::empty()
    } else {
        let before = repeated(names.drop_last());
        if names.drop_last().contains(names.last()) {
            before.push(names.last())
        } else {
            before
        }
    }
}

/// The names that a registry lists again, once for each time.
pub fn repeated_names(registry: &CustomAttributeRegistry) -> (r: Vec<String>)
    ensures
        strs(r@) == repeated(names_of::<CustomAttribute>(registry@)),
{
    let ghost ns = names_of::<CustomAttribute>(registry@);
    let mut seen: Vec<String> = Vec::new();
    let mut out: Vec<String> = Vec::new();
    let mut i: usize = 0;
    assert(strs(seen@) =~= ns.take(0));
    assert(strs(out@) =~= repeated(ns.take(0)));
    while i < registry.attributes.len()
        invariant
            i <= registry.attributes@.len(),
            ns == names_of::<CustomAttribute>(registry@),
            strs(seen@) == ns.take(i as int),
            strs(out@) == repeated(ns.take(i as int)),
        decreases registry.attributes@.len() - i,
    {
        let name = &registry.attributes[i].name;
        proof {
            assert(ns[i as int] == name@);
            assert(ns.take(i + 1).drop_last() =~= ns.take(i as int));
            assert(ns.take(i + 1).last() == name@);
        }
        let ghost listed = strs(seen@);
        let ghost before = strs(out@);
        if contains_str(&seen, name.as_str()) {
            out.push(name.clone());
            assert(strs(out@) =~= before.push(name@));
        }
        seen.push(name.clone());
        assert(strs(seen@) =~= listed.push(name@));
        assert(strs(seen@) =~= ns.take(i + 1));
        i = i + 1;
    }
    assert(ns.take(i as int) =~= ns);
    out
}

/// Compares the registry with the attributes in Braze: one diff for each name
/// on either side, in ascending order.
pub fn diff_registry(
    local: Option<&CustomAttributeRegistry>,
    remote: &Vec<CustomAttribute>,
) -> (r: Vec<CustomAttributeDiff>)
    ensures
        views(r@) == ordered(
            attribute_names(listed(local)).union(attribute_names(views(remote@))),
        ).map_values(|n: Seq<char>| diff_of(listed(local), views(remote@), n)),
{
    let ghost lv = listed(local);
    let ghost rv = views(remote@);
    let ghost all = attribute_names(lv).union(attribute_names(rv));
    let mut names: Vec<String> = Vec::new();
    assert(strs(names@) =~= Seq::empty());
    if let Some(r) = local {
        insert_names(&mut names, &r.attributes);
    }
    assert(strs(names@).to_set() =~= attribute_names(lv));
    insert_names(&mut names, remote);
    proof {
        assert(strs(names@).to_set() =~= all);
        crate::order::lemma_ordered_unique(strs(names@), all);
    }
    let mut out: Vec<CustomAttributeDiff> = Vec::new();
    let mut i: usize = 0;
    while i < names.len()
        invariant
            i <= names@.len(),
            out@.len() == i,
            lv == listed(local),
            rv == views(remote@),
            all == attribute_names(lv).union(attribute_names(rv)),
            strs(names@).to_set() == all,
            forall|j: int|
                0 <= j < i ==> (#[trigger] out@[j])@ == diff_of(lv, rv, strs(names@)[j]),
        decreases names@.len() - i,
    {
        let name = names[i].as_str();
        proof {
            assert(strs(names@)[i as int] == name@);
            assert(strs(names@).to_set().contains(name@));
            lemma_last_named_some::<CustomAttribute>(lv, name@);
            lemma_last_named_some::<CustomAttribute>(rv, name@);
        }
        let l: Option<usize> = match local {
            Some(r) => find_last_named(&r.attributes, name),
            None => None,
        };
        let (op, hints) = match (local, l, find_last_named(remote, name)) {
            (Some(reg), Some(li), Some(ri)) => diff_single_attribute(
                &reg.attributes[li],
                &remote[ri],
            ),
            (_, Some(_), _) => (CustomAttributeOp::PresentInGitOnly, Vec::new()),
            (_, None, _) => (CustomAttributeOp::UnregisteredInGit, Vec::new()),
        };
        let d = CustomAttributeDiff { name: names[i].clone(), op, hints };
        assert(d@ =~= diff_of(lv, rv, name@));
        out.push(d);
        i = i + 1;
    }
    assert(views(out@) =~= ordered(all).map_values(|n: Seq<char>| diff_of(lv, rv, n)));
    out
}

/// Compares a single attribute present on both sides.
pub fn diff_single_attribute(local: &CustomAttribute, remote: &CustomAttribute) -> (r: (
    CustomAttributeOp,
    Vec<String>,
))
    ensures
        r.0 == attribute_op(local@, remote@).0,
        strs(r.1@) == attribute_op(local@, remote@).1,
{
    let mut hints: Vec<String> = Vec::new();
    assert(strs(hints@) =~= Seq::empty());
    let same_description = opt_str_eq(&local.description, &remote.description);
    if local.deprecated != remote.deprecated {
        if !same_description {
            hints.push(owned("description also differs; will be reconciled on next export"));
            assert(strs(hints@) =~= attribute_op(local@, remote@).1);
        }
        return (
            CustomAttributeOp::DeprecationToggled {
                from: remote.deprecated,
                to: local.deprecated,
            },
            hints,
        );
    }
    if !same_description {
        return (CustomAttributeOp::MetadataOnly, hints);
    }
    if local.attribute_type != remote.attribute_type {
        let mut hint = owned("type mismatch: local ");
        hint.push_str(local.attribute_type.as_str());
        hint.push_str(" vs Braze ");
        hint.push_str(remote.attribute_type.as_str());
        hint.push_str(" (run export to update)");
        hints.push(hint);
        assert(strs(hints@) =~= attribute_op(local@, remote@).1);
    }
    (CustomAttributeOp::Unchanged, hints)
}

/// Types have no part in what is done about an attribute.
pub proof fn types_are_not_drift(
    l: CustomAttributeView,
    r: CustomAttributeView,
    t: CustomAttributeType,
)
    ensures
        attribute_op(CustomAttributeView { attribute_type: t, ..l }, r).0 == attribute_op(l, r).0,
{
}

/// A flag that differs is toggled to what the registry says, whatever else
/// differs, and nothing else is ever written.
pub proof fn flag_decides_what_is_written(l: CustomAttributeView, r: CustomAttributeView)
    ensures
        attribute_op(l, r).0 is DeprecationToggled <==> l.deprecated != r.deprecated,
        l.deprecated != r.deprecated ==> attribute_op(l, r).0
            == (CustomAttributeOp::DeprecationToggled { from: r.deprecated, to: l.deprecated }),
{
}

/// A registry that lists what Braze has is in sync and draws no remark.
pub proof fn same_attributes_are_in_sync(s: Seq<CustomAttributeView>, name: Seq<char>)
    requires
        attribute_names(s).contains(name),
    ensures
        diff_of(s, s, name).op is Unchanged,
        diff_of(s, s, name).hints.len() == 0,
{
    lemma_last_named_some::<CustomAttribute>(s, name);
}

/// What is reported of an attribute depends on which side has it: only the
/// registry, only Braze, or both; and of both, first on the flag and then on
/// the description.
pub proof fn report_follows_the_sides(
    local: Seq<CustomAttributeView>,
    remote: Seq<CustomAttributeView>,
    name: Seq<char>,
)
    ensures
        diff_of(local, remote, name).name == name,
        attribute_names(local).contains(name) && !attribute_names(remote).contains(name)
            ==> diff_of(local, remote, name).op is PresentInGitOnly,
        !attribute_names(local).contains(name) && attribute_names(remote).contains(name)
            ==> diff_of(local, remote, name).op is UnregisteredInGit,
        attribute_names(local).contains(name) && attribute_names(remote).contains(name) ==> {
            let l = last_named::<CustomAttribute>(local, name)->0;
            let r = last_named::<CustomAttribute>(remote, name)->0;
            let d = diff_of(local, remote, name);
            let told_apart = text_or_empty(l.description) != text_or_empty(r.description);
            &&& l.name == name && r.name == name
            &&& d.op == (CustomAttributeOp::DeprecationToggled { from: false, to: true })
                <==> l.deprecated && !r.deprecated
            &&& d.op == (CustomAttributeOp::DeprecationToggled { from: true, to: false })
                <==> !l.deprecated && r.deprecated
            &&& d.op is MetadataOnly <==> l.deprecated == r.deprecated && told_apart
            &&& d.op is Unchanged <==> l.deprecated == r.deprecated && !told_apart
            &&& d.hints.len() == (if (d.op is DeprecationToggled && told_apart) || (d.op
                is Unchanged && l.attribute_type != r.attribute_type) {
                1nat
            } else {
                0nat
            })
            &&& d.op is Unchanged && l.attribute_type != r.attribute_type ==> d.hints[0]
                == "type mismatch: local "@ + l.attribute_type.word() + " vs Braze "@
                + r.attribute_type.word() + " (run export to update)"@
        },
{
    lemma_last_named_some::<CustomAttribute>(local, name);
    lemma_last_named_some::<CustomAttribute>(remote, name);
}

/// A name is reported as repeated as often as it stands behind an entry of the
/// same name.
pub proof fn repeated_names_stand_again(names: Seq<Seq<char>>)
    ensures
        repeated(names).len() == 0 <==> names.no_duplicates(),
        forall|x: Seq<char>| #[trigger]
            repeated(names).contains(x) ==> exists|i: int, j: int|
                0 <= i < j < names.len() && #[trigger] names[i] == x && #[trigger] names[j] == x,
    decreases names.len(),
{
    if names.len() > 0 {
        let front = names.drop_last();
        let n = names.len() - 1;
        repeated_names_stand_again(front);
        if names.no_duplicates() {
            assert(front.no_duplicates());
            assert(!front.contains(names.last())) by {
                if front.contains(names.last()) {
                    let i = choose|i: int| 0 <= i < front.len() && front[i] == names.last();
                    assert(names[i] == names[n]);
                }
            }
        }
        if repeated(names).len() == 0 {
            assert(front.no_duplicates());
            assert forall|i: int, j: int| 0 <= i < names.len() && 0 <= j < names.len() && i
                != j implies names[i] != names[j] by {
                if i < n && j < n {
                    assert(front[i] != front[j]);
                } else if i < n {
                    assert(front.contains(front[i]));
                } else {
                    assert(front.contains(front[j]));
                }
            }
        }
        assert forall|x: Seq<char>| #[trigger] repeated(names).contains(x) implies exists|
            i: int,
            j: int,
        |
            0 <= i < j < names.len() && #[trigger] names[i] == x && #[trigger] names[j] == x by {
            if repeated(front).contains(x) {
                let (i, j) = choose|i: int, j: int|
                    0 <= i < j < front.len() && #[trigger] front[i] == x && #[trigger] front[j]
                        == x;
                assert(names[i] == x && names[j] == x);
            } else {
                let k = choose|k: int| 0 <= k < repeated(names).len() && repeated(names)[k] == x;
                if k < repeated(front).len() {
                    assert(repeated(front)[k] == x);
                }
                let i = choose|i: int| 0 <= i < front.len() && front[i] == names.last();
                assert(names[i] == x && names[n] == x);
            }
        }
    }
}

} // verus!
