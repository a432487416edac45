//! `diff`: pairs local resources with remote ones and compares them.

use crate::braze::content_block::ContentBlockSummary;
use crate::braze::email_template::EmailTemplateSummary;
use crate::diff::catalog::{diff_schema, schema_diff};
use crate::diff::content_block::{
    diff as diff_content_block, is_diff as is_block_diff, ContentBlockDiff, ContentBlockDiffView,
};
use crate::diff::email_template::{
    diff as diff_email_template, is_diff as is_template_diff, EmailTemplateDiff,
    EmailTemplateDiffView,
};
use crate::diff::{gating_drift_count, DiffSummary, ResourceDiff, ResourceDiffView};
use crate::error::Error;
use crate::order::{
    ascending, contains_str, find_last_named, insert_names, last_named, lemma_last_named_some,
    lemma_ordered_unique, names_of, ordered, views, Named,
};
use crate::resource::{Catalog, ContentBlock, EmailTemplate, ResourceKind};
use crate::text::strs;
use vstd::prelude::*;

verus! {

#[derive(Debug)]
pub struct DiffArgs {
    pub resource: Option<ResourceKind>,
    /// Only this resource. Goes with a kind.
    pub name: Option<String>,
    /// Exit with an error where there is drift.
    pub fail_on_drift: bool,
    /// Leave out what is in sync.
    pub only_drift: bool,
    /// Write a plan there.
    pub plan_out: Option<String>,
}

/// The names on either side, in ascending order.
pub open spec fn all_names<A: Named, B: Named>(a: Seq<A::V>, b: Seq<B::V>) -> Seq<Seq<char>> {
    ordered(names_of::<A>(a).to_set().union(names_of::<B>(b).to_set()))
}

fn union_names<A: Named, B: Named>(a: &Vec<A>, b: &Vec<B>) -> (r: Vec<String>)
    ensures
        strs(r@) == all_names::<A, B>(views(a@), views(b@)),
        forall|i: int|
            #![trigger r@[i]]
            0 <= i < r@.len() ==> last_named::<A>(views(a@), r@[i]@) is Some || last_named::<B>(
                views(b@),
                r@[i]@,
            ) is Some,
{
    let mut names: Vec<String> = Vec::new();
    assert(strs(names@) =~= Seq::empty());
    insert_names(&mut names, a);
    insert_names(&mut names, b);
    proof {
        let s = names_of::<A>(views(a@)).to_set().union(names_of::<B>(views(b@)).to_set());
        assert(strs(names@).to_set() =~= s);
        lemma_ordered_unique(strs(names@), s);
        assert forall|i: int| #![trigger names@[i]] 0 <= i < names@.len() implies last_named::<A>(
            views(a@),
            names@[i]@,
        ) is Some || last_named::<B>(views(b@), names@[i]@) is Some by {
            assert(strs(names@)[i] == names@[i]@);
            assert(strs(names@).contains(names@[i]@));
            assert(strs(names@).to_set().contains(names@[i]@));
            lemma_last_named_some::<A>(views(a@), names@[i]@);
            lemma_last_named_some::<B>(views(b@), names@[i]@);
        }
    }
    names
}

/// Compares the catalogs of both sides, in order of name.
pub fn compute_catalog_schema_diffs(local: &Vec<Catalog>, remote: &Vec<Catalog>) -> (r: Vec<
    ResourceDiff,
>)
    ensures
        views(r@) == all_names::<Catalog, Catalog>(views(local@), views(remote@)).map_values(
            |n: Seq<char>|
                ResourceDiffView::CatalogSchema(
                    schema_diff(
                        last_named::<Catalog>(views(local@), n),
                        last_named::<Catalog>(views(remote@), n),
                    )->0,
                ),
        ),
{
    let names = union_names(local, remote);
    let mut out: Vec<ResourceDiff> = Vec::new();
    let mut i: usize = 0;
    while i < names.len()
        invariant
            i <= names@.len(),
            out@.len() == i,
            forall|k: int|
                #![trigger names@[k]]
                0 <= k < names@.len() ==> last_named::<Catalog>(views(local@), names@[k]@) is Some
                    || last_named::<Catalog>(views(remote@), names@[k]@) is Some,
            forall|k: int|
                0 <= k < i ==> (#[trigger] out@[k])@ == ResourceDiffView::CatalogSchema(
                    schema_diff(
                        last_named::<Catalog>(views(local@), names@[k]@),
                        last_named::<Catalog>(views(remote@), names@[k]@),
                    )->0,
                ),
        decreases names@.len() - i,
    {
        let name = names[i].as_str();
        assert(name@ == names@[i as int]@);
        let l = match find_last_named(local, name) {
            Some(k) => Some(&local[k]),
            None => None,
        };
        let r = match find_last_named(remote, name) {
            Some(k) => Some(&remote[k]),
            None => None,
        };
        if let Some(d) = diff_schema(l, r) {
            out.push(ResourceDiff::CatalogSchema(d));
        }
        i = i + 1;
    }
    proof {
        let all = all_names::<Catalog, Catalog>(views(local@), views(remote@));
        let f = |n: Seq<char>|
            ResourceDiffView::CatalogSchema(
                schema_diff(
                    last_named::<Catalog>(views(local@), n),
                    last_named::<Catalog>(views(remote@), n),
                )->0,
            );
        assert forall|k: int| 0 <= k < out@.len() implies views(out@)[k] == all.map_values(f)[k] by {
            assert(all[k] == strs(names@)[k]);
            assert(views(out@)[k] == out@[k]@);
        }
        assert(views(out@) =~= all.map_values(f));
    }
    out
}

/// A resource that was fetched under a name.
#[derive(Debug)]
pub struct Fetched<T> {
    pub name: String,
    pub value: T,
}

/// What a fetched resource is.
#[verifier::ext_equal]
pub struct FetchedView<V> {
    pub name: Seq<char>,
    pub value: V,
}

impl<T: View> View for Fetched<T> {
    type V = FetchedView<T::V>;

    open spec fn view(&self) -> FetchedView<T::V> {
        FetchedView { name: self.name@, value: self.value@ }
    }
}

impl<T: View> Named for Fetched<T> {
    open spec fn name_of(v: FetchedView<T::V>) -> Seq<char> {
        v.name
    }

    fn name_ref(&self) -> (r: &String) {
        &self.name
    }
}

/// The names on both sides, which is where the details have to be fetched.
pub open spec fn is_shared<A: Named, B: Named>(
    local: Seq<A::V>,
    listed: Seq<B::V>,
    name: Seq<char>,
) -> bool {
    last_named::<A>(local, name) is Some && last_named::<B>(listed, name) is Some
}

/// The names on both sides, in ascending order.
pub fn shared_names<A: Named, B: Named>(local: &Vec<A>, listed: &Vec<B>) -> (r: Vec<String>)
    ensures
        strs(r@) == all_names::<A, B>(views(local@), views(listed@)).filter(
            |n: Seq<char>| is_shared::<A, B>(views(local@), views(listed@), n),
        ),
{
    let names = union_names(local, listed);
    let ghost all = strs(names@);
    let ghost keep = |n: Seq<char>| is_shared::<A, B>(views(local@), views(listed@), n);
    let mut out: Vec<String> = Vec::new();
    let mut i: usize = 0;
    reveal(Seq::filter);
    assert(all.take(0).filter(keep) =~= Seq::empty());
    assert(strs(out@) =~= Seq::empty());
    while i < names.len()
        invariant
            i <= names@.len(),
            all == strs(names@),
            keep == (|n: Seq<char>| is_shared::<A, B>(views(local@), views(listed@), n)),
            strs(out@) == all.take(i as int).filter(keep),
        decreases names@.len() - i,
    {
        reveal(Seq::filter);
        assert(all.take(i + 1).drop_last() =~= all.take(i as int));
        assert(all.take(i + 1).last() == names@[i as int]@);
        let name = names[i].as_str();
        if find_last_named(local, name).is_some() && find_last_named(listed, name).is_some() {
            let ghost before = out@;
            out.push(names[i].clone());
            assert(strs(out@) =~= strs(before).push(name@));
        }
        i = i + 1;
    }
    assert(all.take(i as int) =~= all);
    out
}

/// The details of exactly the names on both sides were fetched.
pub open spec fn fetch_is_complete<A: Named, B: Named>(
    local: Seq<A::V>,
    listed: Seq<B::V>,
    fetched: Seq<FetchedView<A::V>>,
) -> bool {
    forall|n: Seq<char>|
        is_shared::<A, B>(local, listed, n) <==> #[trigger] last_named::<Fetched<A>>(
            fetched,
            n,
        ) is Some
}

/// What became of a content block. A block that is only listed is an orphan;
/// its details are not needed.
pub open spec fn is_block_entry(
    local: Seq<crate::resource::content_block::ContentBlockView>,
    fetched: Seq<FetchedView<crate::resource::content_block::ContentBlockView>>,
    name: Seq<char>,
    d: ResourceDiffView,
) -> bool {
    &&& d is ContentBlock
    &&& match last_named::<ContentBlock>(local, name) {
        None => d->ContentBlock_0 == ContentBlockDiffView::orphaned(name),
        Some(l) => is_block_diff(
            Some(l),
            match last_named::<Fetched<ContentBlock>>(fetched, name) {
                Some(f) => Some(f.value),
                None => None,
            },
            Some(d->ContentBlock_0),
        ),
    }
}

/// Compares the content blocks of both sides, in order of name, given the
/// details of those that are on both.
pub fn compute_content_block_plan(
    local: &Vec<ContentBlock>,
    listed: &Vec<ContentBlockSummary>,
    fetched: &Vec<Fetched<ContentBlock>>,
) -> (r: Vec<ResourceDiff>)
    requires
        fetch_is_complete::<ContentBlock, ContentBlockSummary>(
            views(local@),
            views(listed@),
            views(fetched@),
        ),
    ensures
        ({
            let names = all_names::<ContentBlock, ContentBlockSummary>(
                views(local@),
                views(listed@),
            );
            &&& r@.len() == names.len()
            &&& forall|i: int|
                0 <= i < names.len() ==> is_block_entry(
                    views(local@),
                    views(fetched@),
                    #[trigger] names[i],
                    views(r@)[i],
                )
        }),
{
    let names = union_names(local, listed);
    let mut out: Vec<ResourceDiff> = Vec::new();
    let mut i: usize = 0;
    while i < names.len()
        invariant
            i <= names@.len(),
            out@.len() == i,
            forall|k: int|
                0 <= k < i ==> is_block_entry(
                    views(local@),
                    views(fetched@),
                    #[trigger] strs(names@)[k],
                    out@[k]@,
                ),
        decreases names@.len() - i,
    {
        let name = names[i].as_str();
        assert(strs(names@)[i as int] == name@);
        let d = match find_last_named(local, name) {
            None => ContentBlockDiff::orphan(name),
            Some(k) => {
                let remote = match find_last_named(fetched, name) {
                    Some(j) => Some(&fetched[j].value),
                    None => None,
                };
                match diff_content_block(Some(&local[k]), remote) {
                    Some(d) => d,
                    None => ContentBlockDiff::orphan(name),
                }
            },
        };
        out.push(ResourceDiff::ContentBlock(d));
        i = i + 1;
    }
    out
}

/// What became of an email template. A template that is only listed is an
/// orphan; its details are not needed.
pub open spec fn is_template_entry(
    local: Seq<crate::resource::email_template::EmailTemplateView>,
    fetched: Seq<FetchedView<crate::resource::email_template::EmailTemplateView>>,
    name: Seq<char>,
    d: ResourceDiffView,
) -> bool {
    &&& d is EmailTemplate
    &&& match last_named::<EmailTemplate>(local, name) {
        None => d->EmailTemplate_0 == EmailTemplateDiffView::orphaned(name),
        Some(l) => is_template_diff(
            Some(l),
            match last_named::<Fetched<EmailTemplate>>(fetched, name) {
                Some(f) => Some(f.value),
                None => None,
            },
            Some(d->EmailTemplate_0),
        ),
    }
}

/// Compares the email templates of both sides, in order of name, given the
/// details of those that are on both.
pub fn compute_email_template_plan(
    local: &Vec<EmailTemplate>,
    listed: &Vec<EmailTemplateSummary>,
    fetched: &Vec<Fetched<EmailTemplate>>,
) -> (r: Vec<ResourceDiff>)
    requires
        fetch_is_complete::<EmailTemplate, EmailTemplateSummary>(
            views(local@),
            views(listed@),
            views(fetched@),
        ),
    ensures
        ({
            let names = all_names::<EmailTemplate, EmailTemplateSummary>(
                views(local@),
                views(listed@),
            );
            &&& r@.len() == names.len()
            &&& forall|i: int|
                0 <= i < names.len() ==> is_template_entry(
                    views(local@),
                    views(fetched@),
                    #[trigger] names[i],
                    views(r@)[i],
                )
        }),
{
    let names = union_names(local, listed);
    let mut out: Vec<ResourceDiff> = Vec::new();
    let mut i: usize = 0;
    while i < names.len()
        invariant
            i <= names@.len(),
            out@.len() == i,
            forall|k: int|
                0 <= k < i ==> is_template_entry(
                    views(local@),
                    views(fetched@),
                    #[trigger] strs(names@)[k],
                    out@[k]@,
                ),
        decreases names@.len() - i,
    {
        let name = names[i].as_str();
        assert(strs(names@)[i as int] == name@);
        let d = match find_last_named(local, name) {
            None => EmailTemplateDiff::orphan(name),
            Some(k) => {
                let remote = match find_last_named(fetched, name) {
                    Some(j) => Some(&fetched[j].value),
                    None => None,
                };
                match diff_email_template(Some(&local[k]), remote) {
                    Some(d) => d,
                    None => EmailTemplateDiff::orphan(name),
                }
            },
        };
        out.push(ResourceDiff::EmailTemplate(d));
        i = i + 1;
    }
    out
}

/// Whether the details of exactly the names on both sides were fetched.
pub fn is_fetch_complete<A: Named, B: Named>(
    local: &Vec<A>,
    listed: &Vec<B>,
    fetched: &Vec<Fetched<A>>,
) -> (r: bool)
    ensures
        r == fetch_is_complete::<A, B>(views(local@), views(listed@), views(fetched@)),
{
    let shared = shared_names(local, listed);
    let ghost all = all_names::<A, B>(views(local@), views(listed@));
    let ghost keep = |n: Seq<char>| is_shared::<A, B>(views(local@), views(listed@), n);
    proof {
        lemma_shared_names::<A, B>(views(local@), views(listed@));
    }
    let mut i: usize = 0;
    while i < shared.len()
        invariant
            i <= shared@.len(),
            forall|n: Seq<char>|
                strs(shared@).contains(n) <==> #[trigger] is_shared::<A, B>(
                    views(local@),
                    views(listed@),
                    n,
                ),
            forall|k: int|
                0 <= k < i ==> last_named::<Fetched<A>>(
                    views(fetched@),
                    #[trigger] strs(shared@)[k],
                ) is Some,
        decreases shared@.len() - i,
    {
        assert(strs(shared@)[i as int] == shared@[i as int]@);
        if find_last_named(fetched, shared[i].as_str()).is_none() {
            assert(strs(shared@).contains(shared@[i as int]@));
            assert(is_shared::<A, B>(views(local@), views(listed@), shared@[i as int]@));
            return false;
        }
        i = i + 1;
    }
    let mut j: usize = 0;
    while j < fetched.len()
        invariant
            j <= fetched@.len(),
            i == shared@.len(),
            forall|n: Seq<char>|
                strs(shared@).contains(n) <==> #[trigger] is_shared::<A, B>(
                    views(local@),
                    views(listed@),
                    n,
                ),
            forall|k: int|
                0 <= k < j ==> is_shared::<A, B>(
                    views(local@),
                    views(listed@),
                    (#[trigger] fetched@[k])@.name,
                ),
        decreases fetched@.len() - j,
    {
        if !contains_str(&shared, fetched[j].name.as_str()) {
            proof {
                let n = fetched@[j as int]@.name;
                lemma_last_named_some::<Fetched<A>>(views(fetched@), n);
                assert(names_of::<Fetched<A>>(views(fetched@))[j as int] == n);
                assert(!is_shared::<A, B>(views(local@), views(listed@), n));
                assert(last_named::<Fetched<A>>(views(fetched@), n) is Some);
            }
            return false;
        }
        j = j + 1;
    }
    proof {
        assert forall|n: Seq<char>|
            is_shared::<A, B>(views(local@), views(listed@), n) <==> #[trigger] last_named::<
                Fetched<A>,
            >(views(fetched@), n) is Some by {
            if is_shared::<A, B>(views(local@), views(listed@), n) {
                assert(strs(shared@).contains(n));
                let k = choose|k: int| 0 <= k < strs(shared@).len() && strs(shared@)[k] == n;
                assert(last_named::<Fetched<A>>(views(fetched@), strs(shared@)[k]) is Some);
            }
            if last_named::<Fetched<A>>(views(fetched@), n) is Some {
                lemma_last_named_some::<Fetched<A>>(views(fetched@), n);
                let names = names_of::<Fetched<A>>(views(fetched@));
                assert(names.contains(n));
                let k = choose|k: int| 0 <= k < names.len() && names[k] == n;
                assert(fetched@[k]@.name == n);
            }
        }
    }
    true
}

/// The names on both sides are among all names, each shared one once.
proof fn lemma_shared_names<A: Named, B: Named>(local: Seq<A::V>, listed: Seq<B::V>)
    ensures
        forall|n: Seq<char>|
            all_names::<A, B>(local, listed).filter(
                |m: Seq<char>| is_shared::<A, B>(local, listed, m),
            ).contains(n) <==> #[trigger] is_shared::<A, B>(local, listed, n),
{
    broadcast use vstd::seq_lib::group_filter_ensures;

    let all = all_names::<A, B>(local, listed);
    let keep = |m: Seq<char>| is_shared::<A, B>(local, listed, m);
    let listing = names_of::<A>(local) + names_of::<B>(listed);
    let s = names_of::<A>(local).to_set().union(names_of::<B>(listed).to_set());
    crate::order::lemma_ordered_exists(listing);
    assert(listing.to_set() =~= s) by {
        assert forall|x: Seq<char>| listing.to_set().contains(x) <==> s.contains(x) by {
            if s.contains(x) {
                if names_of::<A>(local).contains(x) {
                    let k = choose|k: int|
                        0 <= k < names_of::<A>(local).len() && names_of::<A>(local)[k] == x;
                    assert(listing[k] == x);
                } else {
                    let k = choose|k: int|
                        0 <= k < names_of::<B>(listed).len() && names_of::<B>(listed)[k] == x;
                    assert(listing[names_of::<A>(local).len() + k] == x);
                }
                assert(listing.contains(x));
            }
            if listing.to_set().contains(x) {
                let k = choose|k: int| 0 <= k < listing.len() && listing[k] == x;
                if k < names_of::<A>(local).len() {
                    assert(names_of::<A>(local)[k] == x);
                } else {
                    assert(names_of::<B>(listed)[k - names_of::<A>(local).len()] == x);
                }
            }
        }
    }
    assert forall|n: Seq<char>|
        all.filter(keep).contains(n) <==> #[trigger] is_shared::<A, B>(local, listed, n) by {
        if is_shared::<A, B>(local, listed, n) {
            lemma_last_named_some::<A>(local, n);
            assert(s.contains(n));
            assert(all.to_set().contains(n));
            assert(all.contains(n));
            assert(keep(n));
            let k = choose|k: int| 0 <= k < all.len() && all[k] == n;
            all.lemma_filter_contains(keep, k);
        }
        if all.filter(keep).contains(n) {
            let k = choose|k: int| 0 <= k < all.filter(keep).len() && all.filter(keep)[k] == n;
            all.lemma_filter_pred(keep, k);
        }
    }
}

/// Refuses drift that should not pass, where that is asked for. Drift that is
/// only reported does not count.
pub fn check_drift(summary: &DiffSummary, fail_on_drift: bool) -> (r: Result<(), Error>)
    ensures
        match r {
            Ok(_) => !fail_on_drift || gating_drift_count(summary@) == 0,
            Err(Error::DriftDetected { count }) => fail_on_drift && count == gating_drift_count(
                summary@,
            ) && count > 0,
            Err(_) => false,
        },
{
    let count: usize = summary.gating_drift_count();
    if fail_on_drift && count > 0 {
        return Err(Error::DriftDetected { count });
    }
    Ok(())
}

/// Every name of either side is compared, once, and the names come in
/// ascending order.
pub proof fn every_name_is_compared_once<A: Named, B: Named>(
    a: Seq<A::V>,
    b: Seq<B::V>,
    name: Seq<char>,
)
    ensures
        all_names::<A, B>(a, b).contains(name) <==> names_of::<A>(a).contains(name)
            || names_of::<B>(b).contains(name),
        ascending(all_names::<A, B>(a, b)),
        all_names::<A, B>(a, b).no_duplicates(),
{
    let x = names_of::<A>(a);
    let y = names_of::<B>(b);
    let s = x + y;
    let o = all_names::<A, B>(a, b);
    assert forall|n: Seq<char>| s.contains(n) <==> x.contains(n) || y.contains(n) by {
        if x.contains(n) {
            let i = choose|i: int| 0 <= i < x.len() && x[i] == n;
            assert(s[i] == n);
        }
        if y.contains(n) {
            let i = choose|i: int| 0 <= i < y.len() && y[i] == n;
            assert(s[x.len() + i] == n);
        }
    }
    assert(s.to_set() =~= x.to_set().union(y.to_set()));
    crate::order::lemma_ordered_exists(s);
    assert(o.contains(name) <==> o.to_set().contains(name));
    assert forall|i: int, j: int| 0 <= i < o.len() && 0 <= j < o.len() && i != j implies o[i]
        != o[j] by {
        if o[i] == o[j] {
            if i < j {
                assert(crate::text::text_lt(o[i], o[j]));
            } else {
                assert(crate::text::text_lt(o[j], o[i]));
            }
            crate::text::lemma_text_lt_irreflexive(o[i]);
        }
    }
}

/// Details are fetched of what both sides have and of nothing else.
pub proof fn details_are_fetched_of_shared_names<A: Named, B: Named>(
    local: Seq<A::V>,
    listed: Seq<B::V>,
    fetched: Seq<FetchedView<A::V>>,
    name: Seq<char>,
)
    ensures
        is_shared::<A, B>(local, listed, name) <==> names_of::<A>(local).contains(name)
            && names_of::<B>(listed).contains(name),
        fetch_is_complete::<A, B>(local, listed, fetched) ==> (names_of::<Fetched<A>>(
            fetched,
        ).contains(name) <==> names_of::<A>(local).contains(name) && names_of::<B>(
            listed,
        ).contains(name)),
{
    lemma_last_named_some::<A>(local, name);
    lemma_last_named_some::<B>(listed, name);
    lemma_last_named_some::<Fetched<A>>(fetched, name);
}

/// A content block is reported according to where it is: one that is only
/// listed is an orphan and never written, one that is only local is created
/// as it is, and one on both sides is taken from what was fetched to what is
/// local.
pub proof fn block_report_follows_the_sides(
    local: Seq<crate::resource::content_block::ContentBlockView>,
    fetched: Seq<FetchedView<crate::resource::content_block::ContentBlockView>>,
    name: Seq<char>,
    d: ResourceDiffView,
)
    requires
        is_block_entry(local, fetched, name, d),
    ensures
        d is ContentBlock,
        d->ContentBlock_0.name == name,
        d->ContentBlock_0.orphan <==> !names_of::<ContentBlock>(local).contains(name),
        d->ContentBlock_0.orphan ==> d->ContentBlock_0.op is Unchanged,
        names_of::<ContentBlock>(local).contains(name) && !names_of::<Fetched<ContentBlock>>(
            fetched,
        ).contains(name) ==> (d->ContentBlock_0.op matches crate::diff::DiffOp::Added(c)
            && local.contains(c) && c.name == name),
        d->ContentBlock_0.op matches crate::diff::DiffOp::Modified { from, to } ==> (
        local.contains(to) && to.name == name && (exists|i: int|
            0 <= i < fetched.len() && (#[trigger] fetched[i]).name == name && fetched[i].value
                == from)),
        d->ContentBlock_0.op !is Removed,
{
    lemma_last_named_some::<ContentBlock>(local, name);
    lemma_last_named_some::<Fetched<ContentBlock>>(fetched, name);
    if let Some(f) = last_named::<Fetched<ContentBlock>>(fetched, name) {
        let i = choose|i: int| 0 <= i < fetched.len() && fetched[i] == f;
        assert(fetched[i].name == name);
    }
}

/// An email template is reported according to where it is, as a content
/// block is.
pub proof fn template_report_follows_the_sides(
    local: Seq<crate::resource::email_template::EmailTemplateView>,
    fetched: Seq<FetchedView<crate::resource::email_template::EmailTemplateView>>,
    name: Seq<char>,
    d: ResourceDiffView,
)
    requires
        is_template_entry(local, fetched, name, d),
    ensures
        d is EmailTemplate,
        d->EmailTemplate_0.name == name,
        d->EmailTemplate_0.orphan <==> !names_of::<EmailTemplate>(local).contains(name),
        d->EmailTemplate_0.orphan ==> d->EmailTemplate_0.op is Unchanged,
        names_of::<EmailTemplate>(local).contains(name) && !names_of::<Fetched<EmailTemplate>>(
            fetched,
        ).contains(name) ==> (d->EmailTemplate_0.op matches crate::diff::DiffOp::Added(c)
            && local.contains(c) && c.name == name),
        d->EmailTemplate_0.op matches crate::diff::DiffOp::Modified { from, to } ==> (
        local.contains(to) && to.name == name && (exists|i: int|
            0 <= i < fetched.len() && (#[trigger] fetched[i]).name == name && fetched[i].value
                == from)),
        d->EmailTemplate_0.op !is Removed,
{
    lemma_last_named_some::<EmailTemplate>(local, name);
    lemma_last_named_some::<Fetched<EmailTemplate>>(fetched, name);
    if let Some(f) = last_named::<Fetched<EmailTemplate>>(fetched, name) {
        let i = choose|i: int| 0 <= i < fetched.len() && fetched[i] == f;
        assert(fetched[i].name == name);
    }
}

} // verus!
