//! Pure structural diff layer. No I/O.
//!
//! Every comparison in the crate is expressed with [`DiffOp`] and
//! [`ResourceDiff`].

pub mod catalog;
pub mod catalog_items;
pub mod content_block;
pub mod content_block_order;
pub mod custom_attribute;
pub mod digest;
pub mod email_template;
pub mod orphan;
pub mod plan;
pub mod tag;

use crate::order::{stable_sort, views, Ranked};
use crate::resource::ResourceKind;
use crate::text::{clone_strs, opt_text, str_lt, strs, text_lt, text_or_empty};
use vstd::prelude::*;

verus! {

/// How many lines a text gained and lost.
#[derive(Debug, Clone, Copy, PartialEq, Eq, Structural)]
pub struct TextDiffSummary {
    pub additions: usize,
    pub deletions: usize,
}

/// What became of one line between two texts.
#[derive(Debug, Clone, Copy, PartialEq, Eq, Structural)]
pub enum LineChange {
    Kept,
    Deleted,
    Inserted,
}

/// The line changes `similar` reports between two texts.
pub uninterp spec fn line_changes_between(from: Seq<char>, to: Seq<char>) -> Seq<LineChange>;

/// `similar::TextDiff::from_lines`, walked with `iter_all_changes`: one entry
/// for each line change between the two texts, in order. Which changes are
/// found is a function of the two texts alone: no deadline is set.
#[verifier::external_body]
fn line_changes(from: &str, to: &str) -> (r: Vec<LineChange>)
    ensures
        r@ == line_changes_between(from@, to@),
{
    similar::TextDiff::from_lines(from, to)
        .iter_all_changes()
        .map(|c| match c.tag() {
            similar::ChangeTag::Equal => LineChange::Kept,
            similar::ChangeTag::Delete => LineChange::Deleted,
            similar::ChangeTag::Insert => LineChange::Inserted,
        })
        .collect()
}

/// How often a change occurs among the changes.
pub open spec fn count_changes(s: Seq<LineChange>, c: LineChange) -> nat {
    s.filter(|x: LineChange| x == c).len()
}

/// Counts the inserted and the deleted lines.
pub fn summarize_changes(changes: &Vec<LineChange>) -> (r: TextDiffSummary)
    ensures
        r.additions == count_changes(changes@, LineChange::Inserted),
        r.deletions == count_changes(changes@, LineChange::Deleted),
{
    let mut additions: usize = 0;
    let mut deletions: usize = 0;
    let mut i: usize = 0;
    proof {
        reveal(Seq::filter);
    }
    while i < changes.len()
        invariant
            i <= changes@.len(),
            additions == count_changes(changes@.take(i as int), LineChange::Inserted),
            deletions == count_changes(changes@.take(i as int), LineChange::Deleted),
            additions <= i,
            deletions <= i,
        decreases changes@.len() - i,
    {
        proof {
            reveal(Seq::filter);
            assert(changes@.take(i + 1).drop_last() =~= changes@.take(i as int));
            assert(changes@.take(i + 1).last() == changes@[i as int]);
        }
        match changes[i] {
            LineChange::Inserted => {
                additions = additions + 1;
            },
            LineChange::Deleted => {
                deletions = deletions + 1;
            },
            LineChange::Kept => {},
        }
        i = i + 1;
    }
    assert(changes@.take(i as int) =~= changes@);
    TextDiffSummary { additions, deletions }
}

/// The summary of the line changes from one text to another.
pub open spec fn text_diff_of(from: Seq<char>, to: Seq<char>, s: TextDiffSummary) -> bool {
    let changes = line_changes_between(from, to);
    &&& s.additions == count_changes(changes, LineChange::Inserted)
    &&& s.deletions == count_changes(changes, LineChange::Deleted)
}

/// Counts the lines that `to` has over `from` and those it lacks.
pub fn compute_text_diff(from: &str, to: &str) -> (r: TextDiffSummary)
    ensures
        text_diff_of(from@, to@, r),
{
    let changes = line_changes(from, to);
    summarize_changes(&changes)
}

/// Treats `None` and `Some("")` as equal: Braze may omit a field or return
/// an empty string interchangeably.
pub fn opt_str_eq(a: &Option<String>, b: &Option<String>) -> (r: bool)
    ensures
        r == (text_or_empty(opt_text(*a)) == text_or_empty(opt_text(*b))),
{
    match (a, b) {
        (Some(x), Some(y)) => *x == *y,
        (Some(x), None) => {
            let r = x.as_str().is_empty();
            assert(r == (x@ =~= Seq::<char>::empty()));
            r
        },
        (None, Some(y)) => {
            let r = y.as_str().is_empty();
            assert(r == (y@ =~= Seq::<char>::empty()));
            r
        },
        (None, None) => true,
    }
}

impl Ranked for String {
    open spec fn lt(a: Seq<char>, b: Seq<char>) -> bool {
        text_lt(a, b)
    }

    proof fn lt_irreflexive(a: Seq<char>) {
        crate::text::lemma_text_lt_irreflexive(a);
    }

    proof fn lt_transitive(a: Seq<char>, b: Seq<char>, c: Seq<char>) {
        crate::text::lemma_text_lt_transitive(a, b, c);
    }

    proof fn lt_splits(a: Seq<char>, b: Seq<char>, c: Seq<char>) {
        crate::text::lemma_text_lt_splits(a, b, c);
    }

    fn precedes(&self, other: &Self) -> (r: bool) {
        str_lt(self.as_str(), other.as_str())
    }
}

/// The order of strings is total.
pub proof fn lemma_text_order()
    ensures
        vstd::relations::total_ordering(
            |x: Seq<char>, y: Seq<char>| crate::text::text_le(x, y),
        ),
{
    let leq = |x: Seq<char>, y: Seq<char>| crate::text::text_le(x, y);
    assert forall|x: Seq<char>, y: Seq<char>|
        #[trigger] leq(x, y) && #[trigger] leq(y, x) implies x == y by {
        if x != y {
            crate::text::lemma_text_lt_asymmetric(x, y);
        }
    }
    assert forall|x: Seq<char>, y: Seq<char>, z: Seq<char>|
        #[trigger] leq(x, y) && #[trigger] leq(y, z) implies leq(x, z) by {
        if x != y && y != z {
            crate::text::lemma_text_lt_transitive(x, y, z);
        }
    }
    assert forall|x: Seq<char>, y: Seq<char>| #[trigger] leq(x, y) || leq(y, x) by {
        crate::text::lemma_text_lt_total(x, y);
    }
}

/// Sorted strings that hold the same texts are the same sequence.
pub proof fn lemma_sorted_texts_unique(a: Seq<Seq<char>>, b: Seq<Seq<char>>)
    requires
        crate::order::in_order::<String>(a),
        crate::order::in_order::<String>(b),
        a.to_multiset() == b.to_multiset(),
    ensures
        a == b,
{
    let leq = |x: Seq<char>, y: Seq<char>| crate::text::text_le(x, y);
    lemma_text_order();
    assert forall|i: int, j: int| 0 <= i < j < a.len() implies leq(a[i], a[j]) by {
        crate::text::lemma_text_lt_total(a[i], a[j]);
        assert(!<String as Ranked>::lt(a[j], a[i]));
    }
    assert forall|i: int, j: int| 0 <= i < j < b.len() implies leq(b[i], b[j]) by {
        crate::text::lemma_text_lt_total(b[i], b[j]);
        assert(!<String as Ranked>::lt(b[j], b[i]));
    }
    vstd::seq_lib::lemma_sorted_unique(a, b, leq);
}

/// A sorted copy of a list of strings.
pub fn sorted_strs(v: &Vec<String>) -> (r: Vec<String>)
    ensures
        crate::order::in_order::<String>(strs(r@)),
        strs(r@).to_multiset() == strs(v@).to_multiset(),
{
    let copy = clone_strs(v);
    let ghost c = copy@;
    let r = stable_sort(copy);
    proof {
        lemma_views_multiset(c, r@);
        assert(views(r@) =~= strs(r@));
        assert(views(c) =~= strs(c));
    }
    r
}

/// Rearranging values rearranges their models.
pub proof fn lemma_views_multiset<T: View>(a: Seq<T>, b: Seq<T>)
    requires
        a.to_multiset() == b.to_multiset(),
    ensures
        views(a).to_multiset() == views(b).to_multiset(),
    decreases a.len(),
{
    broadcast use vstd::seq_lib::group_to_multiset_ensures;

    assert(a.len() == b.len()) by {
        vstd::seq_lib::to_multiset_len(a);
        vstd::seq_lib::to_multiset_len(b);
    }
    if a.len() == 0 {
        assert(views(a) =~= views(b));
    } else {
        let x = a.last();
        assert(a.contains(x)) by {
            assert(a[a.len() - 1] == x);
        }
        assert(b.to_multiset().count(x) > 0);
        assert(b.contains(x));
        let k = choose|k: int| 0 <= k < b.len() && b[k] == x;
        let a1 = a.drop_last();
        let b1 = b.remove(k);
        assert(a =~= a1.push(x));
        vstd::seq_lib::to_multiset_build(a1, x);
        vstd::seq_lib::to_multiset_remove(b, k);
        assert(a1.to_multiset() =~= b1.to_multiset()) by {
            assert(a.to_multiset() == a1.to_multiset().insert(x));
            assert(a1.to_multiset() =~= a.to_multiset().remove(x));
        }
        lemma_views_multiset(a1, b1);
        assert(views(a) =~= views(a1).push(x@));
        vstd::seq_lib::to_multiset_build(views(a1), x@);
        assert(views(b1) =~= views(b).remove(k));
        vstd::seq_lib::to_multiset_remove(views(b), k);
        assert(views(b)[k] == x@);
        assert(views(b).contains(x@));
        assert(views(b).to_multiset().count(x@) > 0);
        assert(views(a).to_multiset() =~= views(b).to_multiset());
    }
}

/// Equality of two tag lists in which order does not count but repetition
/// does.
pub fn tags_eq_unordered(a: &Vec<String>, b: &Vec<String>) -> (r: bool)
    ensures
        r == (strs(a@).to_multiset() == strs(b@).to_multiset()),
{
    broadcast use vstd::seq_lib::group_to_multiset_ensures;

    if a.len() != b.len() {
        proof {
            assert(strs(a@).to_multiset().len() == a@.len());
            assert(strs(b@).to_multiset().len() == b@.len());
        }
        return false;
    }
    let x = sorted_strs(a);
    let y = sorted_strs(b);
    let r = strs_eq(&x, &y);
    proof {
        if strs(a@).to_multiset() == strs(b@).to_multiset() {
            lemma_sorted_texts_unique(strs(x@), strs(y@));
        }
    }
    r
}

/// Whether two lists hold the same texts in the same order.
pub fn strs_eq(a: &Vec<String>, b: &Vec<String>) -> (r: bool)
    ensures
        r == (strs(a@) == strs(b@)),
{
    if a.len() != b.len() {
        assert(strs(a@).len() != strs(b@).len());
        return false;
    }
    let mut i: usize = 0;
    while i < a.len()
        invariant
            i <= a@.len(),
            a@.len() == b@.len(),
            forall|j: int| 0 <= j < i ==> (#[trigger] a@[j])@ == b@[j]@,
        decreases a@.len() - i,
    {
        if a[i] != b[i] {
            assert(strs(a@)[i as int] != strs(b@)[i as int]);
            return false;
        }
        i = i + 1;
    }
    assert(strs(a@) =~= strs(b@));
    true
}

/// A diff operation on a single entity.
#[derive(Debug, PartialEq)]
pub enum DiffOp<T> {
    Added(T),
    Removed(T),
    Modified { from: T, to: T },
    Unchanged,
}

impl<T: View> View for DiffOp<T> {
    type V = DiffOp<T::V>;

    open spec fn view(&self) -> DiffOp<T::V> {
        match self {
            DiffOp::Added(t) => DiffOp::Added(t@),
            DiffOp::Removed(t) => DiffOp::Removed(t@),
            DiffOp::Modified { from, to } => DiffOp::Modified { from: from@, to: to@ },
            DiffOp::Unchanged => DiffOp::Unchanged,
        }
    }
}

impl<T> DiffOp<T> {
    pub fn is_change(&self) -> (r: bool)
        ensures
            r == (self !is Unchanged),
    {
        !matches!(self, DiffOp::Unchanged)
    }

    pub fn is_destructive(&self) -> (r: bool)
        ensures
            r == (self is Removed),
    {
        matches!(self, DiffOp::Removed(_))
    }
}

/// How a changed diff is treated by `diff --fail-on-drift`.
#[derive(Debug, Clone, Copy, PartialEq, Eq, Structural)]
pub enum DriftTier {
    /// No change. Not drift at all.
    InSync,
    /// Real disagreement, but one a correct setup produces. Listed in every
    /// output, and no reason for `diff --fail-on-drift` to fail.
    ReportOnly,
    /// Drift a human must act on.
    Gating,
}

/// Diff result of one resource.
#[derive(Debug)]
pub enum ResourceDiff {
    CatalogSchema(catalog::CatalogSchemaDiff),
    ContentBlock(content_block::ContentBlockDiff),
    EmailTemplate(email_template::EmailTemplateDiff),
    CustomAttribute(custom_attribute::CustomAttributeDiff),
    Tag(tag::TagDiff),
}

/// What the diff result of one resource is.
pub enum ResourceDiffView {
    CatalogSchema(catalog::CatalogSchemaDiffView),
    ContentBlock(content_block::ContentBlockDiffView),
    EmailTemplate(email_template::EmailTemplateDiffView),
    CustomAttribute(custom_attribute::CustomAttributeDiffView),
    Tag(tag::TagDiffView),
}

impl View for ResourceDiff {
    type V = ResourceDiffView;

    open spec fn view(&self) -> ResourceDiffView {
        match self {
            ResourceDiff::CatalogSchema(d) => ResourceDiffView::CatalogSchema(d@),
            ResourceDiff::ContentBlock(d) => ResourceDiffView::ContentBlock(d@),
            ResourceDiff::EmailTemplate(d) => ResourceDiffView::EmailTemplate(d@),
            ResourceDiff::CustomAttribute(d) => ResourceDiffView::CustomAttribute(d@),
            ResourceDiff::Tag(d) => ResourceDiffView::Tag(d@),
        }
    }
}

impl ResourceDiffView {
    pub open spec fn kind(self) -> ResourceKind {
        match self {
            ResourceDiffView::CatalogSchema(_) => ResourceKind::CatalogSchema,
            ResourceDiffView::ContentBlock(_) => ResourceKind::ContentBlock,
            ResourceDiffView::EmailTemplate(_) => ResourceKind::EmailTemplate,
            ResourceDiffView::CustomAttribute(_) => ResourceKind::CustomAttribute,
            ResourceDiffView::Tag(_) => ResourceKind::Tag,
        }
    }

    pub open spec fn name(self) -> Seq<char> {
        match self {
            ResourceDiffView::CatalogSchema(d) => d.name,
            ResourceDiffView::ContentBlock(d) => d.name,
            ResourceDiffView::EmailTemplate(d) => d.name,
            ResourceDiffView::CustomAttribute(d) => d.name,
            ResourceDiffView::Tag(d) => d.name,
        }
    }

    /// The two sides disagree, or the resource is an orphan.
    pub open spec fn has_changes(self) -> bool {
        match self {
            ResourceDiffView::CatalogSchema(d) => d.has_changes(),
            ResourceDiffView::ContentBlock(d) => d.has_changes(),
            ResourceDiffView::EmailTemplate(d) => d.has_changes(),
            ResourceDiffView::CustomAttribute(d) => d.op !is Unchanged,
            ResourceDiffView::Tag(d) => d.op !is Unchanged,
        }
    }

    /// Present in Braze but not in Git, of a kind that cannot be deleted.
    pub open spec fn is_orphan(self) -> bool {
        match self {
            ResourceDiffView::ContentBlock(d) => d.orphan,
            ResourceDiffView::EmailTemplate(d) => d.orphan,
            _ => false,
        }
    }

    /// `apply` has a write for this diff.
    pub open spec fn is_actionable(self) -> bool {
        match self {
            ResourceDiffView::CatalogSchema(d) => d.has_changes(),
            ResourceDiffView::ContentBlock(d) => !d.orphan && d.has_changes(),
            ResourceDiffView::EmailTemplate(d) => !d.orphan && d.has_changes(),
            ResourceDiffView::CustomAttribute(d) => d.op is DeprecationToggled,
            ResourceDiffView::Tag(_) => false,
        }
    }

    /// Writing this diff would lose data in Braze.
    pub open spec fn has_destructive(self) -> bool {
        match self {
            ResourceDiffView::CatalogSchema(d) => d.has_destructive(),
            _ => false,
        }
    }

    pub open spec fn drift_tier(self) -> DriftTier {
        if !self.has_changes() {
            DriftTier::InSync
        } else if self matches ResourceDiffView::CustomAttribute(d) && d.op is PresentInGitOnly {
            DriftTier::ReportOnly
        } else {
            DriftTier::Gating
        }
    }
}

impl ResourceDiff {
    pub fn kind(&self) -> (r: ResourceKind)
        ensures
            r == self@.kind(),
    {
        match self {
            ResourceDiff::CatalogSchema(_) => ResourceKind::CatalogSchema,
            ResourceDiff::ContentBlock(_) => ResourceKind::ContentBlock,
            ResourceDiff::EmailTemplate(_) => ResourceKind::EmailTemplate,
            ResourceDiff::CustomAttribute(_) => ResourceKind::CustomAttribute,
            ResourceDiff::Tag(_) => ResourceKind::Tag,
        }
    }

    pub fn name(&self) -> (r: &str)
        ensures
            r@ == self@.name(),
    {
        match self {
            ResourceDiff::CatalogSchema(d) => d.name.as_str(),
            ResourceDiff::ContentBlock(d) => d.name.as_str(),
            ResourceDiff::EmailTemplate(d) => d.name.as_str(),
            ResourceDiff::CustomAttribute(d) => d.name.as_str(),
            ResourceDiff::Tag(d) => d.name.as_str(),
        }
    }

    pub fn has_changes(&self) -> (r: bool)
        ensures
            r == self@.has_changes(),
    {
        match self {
            ResourceDiff::CatalogSchema(d) => d.has_changes(),
            ResourceDiff::ContentBlock(d) => d.has_changes(),
            ResourceDiff::EmailTemplate(d) => d.has_changes(),
            ResourceDiff::CustomAttribute(d) => d.has_changes(),
            ResourceDiff::Tag(d) => d.has_changes(),
        }
    }

    /// Whether `apply` can act on this diff. Orphans never are: Braze has no
    /// call that deletes them. Of the custom attribute states only a
    /// deprecation toggle is a write; registry-only entries are expected and
    /// must not block `apply`. Tags have no write at all.
    pub fn is_actionable(&self) -> (r: bool)
        ensures
            r == self@.is_actionable(),
    {
        if self.is_orphan() {
            return false;
        }
        match self {
            ResourceDiff::CustomAttribute(d) => {
                matches!(d.op, custom_attribute::CustomAttributeOp::DeprecationToggled { .. })
            },
            ResourceDiff::Tag(_) => false,
            other => other.has_changes(),
        }
    }

    /// Whether writing this diff would lose data in Braze. Only catalogs can:
    /// content blocks and email templates have no deletion call, a custom
    /// attribute is only flagged, and tags cannot be written.
    pub fn has_destructive(&self) -> (r: bool)
        ensures
            r == self@.has_destructive(),
    {
        match self {
            ResourceDiff::CatalogSchema(d) => d.has_destructive(),
            ResourceDiff::ContentBlock(_) => false,
            ResourceDiff::EmailTemplate(_) => false,
            ResourceDiff::CustomAttribute(_) => false,
            ResourceDiff::Tag(_) => false,
        }
    }

    pub fn is_orphan(&self) -> (r: bool)
        ensures
            r == self@.is_orphan(),
    {
        match self {
            ResourceDiff::ContentBlock(d) => d.is_orphan(),
            ResourceDiff::EmailTemplate(d) => d.is_orphan(),
            _ => false,
        }
    }

    /// Which drift tier this diff falls in.
    pub fn drift_tier(&self) -> (r: DriftTier)
        ensures
            r == self@.drift_tier(),
    {
        if !self.has_changes() {
            return DriftTier::InSync;
        }
        match self {
            ResourceDiff::CustomAttribute(d) => d.drift_tier(),
            _ => DriftTier::Gating,
        }
    }
}

#[derive(Debug)]
pub struct DiffSummary {
    pub diffs: Vec<ResourceDiff>,
}

/// A summary is the sequence of its diffs.
impl View for DiffSummary {
    type V = Seq<ResourceDiffView>;

    open spec fn view(&self) -> Seq<ResourceDiffView> {
        views(self.diffs@)
    }
}

impl Default for DiffSummary {
    fn default() -> (r: Self)
        ensures
            r@ == Seq::<ResourceDiffView>::empty(),
    {
        let r = DiffSummary { diffs: Vec::new() };
        assert(r@ =~= Seq::<ResourceDiffView>::empty());
        r
    }
}

/// What is counted of a summary.
#[derive(Clone, Copy, PartialEq, Eq, Structural)]
enum Counted {
    Changed,
    Actionable,
    Destructive,
    Orphan,
    InSync,
    Gating,
    ReportOnly,
}

spec fn counts(c: Counted, d: ResourceDiffView) -> bool {
    match c {
        Counted::Changed => d.has_changes(),
        Counted::Actionable => d.is_actionable(),
        Counted::Destructive => d.has_destructive(),
        Counted::Orphan => d.is_orphan(),
        Counted::InSync => !d.has_changes(),
        Counted::Gating => d.drift_tier() == DriftTier::Gating,
        Counted::ReportOnly => d.drift_tier() == DriftTier::ReportOnly,
    }
}

fn is_counted(c: Counted, d: &ResourceDiff) -> (r: bool)
    ensures
        r == counts(c, d@),
{
    match c {
        Counted::Changed => d.has_changes(),
        Counted::Actionable => d.is_actionable(),
        Counted::Destructive => d.has_destructive(),
        Counted::Orphan => d.is_orphan(),
        Counted::InSync => !d.has_changes(),
        Counted::Gating => d.drift_tier() == DriftTier::Gating,
        Counted::ReportOnly => d.drift_tier() == DriftTier::ReportOnly,
    }
}

fn count(c: Counted, diffs: &Vec<ResourceDiff>) -> (r: usize)
    ensures
        r == views(diffs@).filter(|d: ResourceDiffView| counts(c, d)).len(),
{
    let ghost f = |d: ResourceDiffView| counts(c, d);
    let ghost s = views(diffs@);
    let mut n: usize = 0;
    let mut i: usize = 0;
    proof {
        reveal(Seq::filter);
    }
    while i < diffs.len()
        invariant
            i <= diffs@.len(),
            n <= i,
            s == views(diffs@),
            f == |d: ResourceDiffView| counts(c, d),
            n == s.take(i as int).filter(f).len(),
        decreases diffs@.len() - i,
    {
        proof {
            reveal(Seq::filter);
            assert(s.take(i + 1).drop_last() =~= s.take(i as int));
            assert(s.take(i + 1).last() == diffs@[i as int]@);
        }
        if is_counted(c, &diffs[i]) {
            n = n + 1;
        }
        i = i + 1;
    }
    assert(s.take(i as int) =~= s);
    n
}

/// The number of diffs that disagree.
pub open spec fn changed_count(s: Seq<ResourceDiffView>) -> nat {
    s.filter(|d: ResourceDiffView| d.has_changes()).len()
}

/// The number of diffs that `apply` has a write for.
pub open spec fn actionable_count(s: Seq<ResourceDiffView>) -> nat {
    s.filter(|d: ResourceDiffView| d.is_actionable()).len()
}

/// The number of diffs whose write would lose data.
pub open spec fn destructive_count(s: Seq<ResourceDiffView>) -> nat {
    s.filter(|d: ResourceDiffView| d.has_destructive()).len()
}

/// The number of orphans.
pub open spec fn orphan_count(s: Seq<ResourceDiffView>) -> nat {
    s.filter(|d: ResourceDiffView| d.is_orphan()).len()
}

/// The number of diffs that agree.
pub open spec fn in_sync_count(s: Seq<ResourceDiffView>) -> nat {
    s.filter(|d: ResourceDiffView| !d.has_changes()).len()
}

/// The number of diffs on which `diff --fail-on-drift` fails.
pub open spec fn gating_drift_count(s: Seq<ResourceDiffView>) -> nat {
    s.filter(|d: ResourceDiffView| d.drift_tier() == DriftTier::Gating).len()
}

/// The number of changed diffs that are only reported.
pub open spec fn report_only_drift_count(s: Seq<ResourceDiffView>) -> nat {
    s.filter(|d: ResourceDiffView| d.drift_tier() == DriftTier::ReportOnly).len()
}

proof fn lemma_same_filter<A>(s: Seq<A>, f: spec_fn(A) -> bool, g: spec_fn(A) -> bool)
    requires
        forall|x: A| #[trigger] f(x) == g(x),
    ensures
        s.filter(f) == s.filter(g),
{
    assert(f =~= g);
}

impl DiffSummary {
    pub fn changed_count(&self) -> (r: usize)
        ensures
            r == changed_count(self@),
    {
        proof {
            lemma_same_filter(
                self@,
                |d: ResourceDiffView| counts(Counted::Changed, d),
                |d: ResourceDiffView| d.has_changes(),
            );
        }
        count(Counted::Changed, &self.diffs)
    }

    /// Count of diffs that `apply` can actually act on.
    pub fn actionable_count(&self) -> (r: usize)
        ensures
            r == actionable_count(self@),
    {
        proof {
            lemma_same_filter(
                self@,
                |d: ResourceDiffView| counts(Counted::Actionable, d),
                |d: ResourceDiffView| d.is_actionable(),
            );
        }
        count(Counted::Actionable, &self.diffs)
    }

    pub fn destructive_count(&self) -> (r: usize)
        ensures
            r == destructive_count(self@),
    {
        proof {
            lemma_same_filter(
                self@,
                |d: ResourceDiffView| counts(Counted::Destructive, d),
                |d: ResourceDiffView| d.has_destructive(),
            );
        }
        count(Counted::Destructive, &self.diffs)
    }

    pub fn orphan_count(&self) -> (r: usize)
        ensures
            r == orphan_count(self@),
    {
        proof {
            lemma_same_filter(
                self@,
                |d: ResourceDiffView| counts(Counted::Orphan, d),
                |d: ResourceDiffView| d.is_orphan(),
            );
        }
        count(Counted::Orphan, &self.diffs)
    }

    pub fn in_sync_count(&self) -> (r: usize)
        ensures
            r == in_sync_count(self@),
    {
        proof {
            lemma_same_filter(
                self@,
                |d: ResourceDiffView| counts(Counted::InSync, d),
                |d: ResourceDiffView| !d.has_changes(),
            );
        }
        count(Counted::InSync, &self.diffs)
    }

    /// Count of diffs that fail the build under `--fail-on-drift`.
    pub fn gating_drift_count(&self) -> (r: usize)
        ensures
            r == gating_drift_count(self@),
    {
        proof {
            lemma_same_filter(
                self@,
                |d: ResourceDiffView| counts(Counted::Gating, d),
                |d: ResourceDiffView| d.drift_tier() == DriftTier::Gating,
            );
        }
        count(Counted::Gating, &self.diffs)
    }

    /// Count of changed diffs that are listed but do not fail the build.
    pub fn report_only_drift_count(&self) -> (r: usize)
        ensures
            r == report_only_drift_count(self@),
    {
        proof {
            lemma_same_filter(
                self@,
                |d: ResourceDiffView| counts(Counted::ReportOnly, d),
                |d: ResourceDiffView| d.drift_tier() == DriftTier::ReportOnly,
            );
        }
        count(Counted::ReportOnly, &self.diffs)
    }
}

/// Every diff is either changed or in sync, and every changed diff is either
/// gating or report-only.
pub proof fn counts_partition(s: Seq<ResourceDiffView>)
    ensures
        changed_count(s) + in_sync_count(s) == s.len(),
        gating_drift_count(s) + report_only_drift_count(s) == changed_count(s),
    decreases s.len(),
{
    reveal(Seq::filter);
    if s.len() > 0 {
        counts_partition(s.drop_last());
    }
}

/// What `apply` can write is changed, and what is destructive or an orphan
/// is changed too: no count exceeds the number of changed diffs. What is
/// destructive is among what `apply` can write.
pub proof fn counts_bounded_by_changed(s: Seq<ResourceDiffView>)
    ensures
        actionable_count(s) <= changed_count(s),
        destructive_count(s) <= changed_count(s),
        destructive_count(s) <= actionable_count(s),
        orphan_count(s) + actionable_count(s) <= changed_count(s),
        gating_drift_count(s) >= orphan_count(s),
    decreases s.len(),
{
    reveal(Seq::filter);
    if s.len() > 0 {
        counts_bounded_by_changed(s.drop_last());
    }
}

/// Only a catalog diff can lose data, and every orphan is drift to act on
/// though nothing can be written for it.
pub proof fn only_catalogs_lose_data(d: ResourceDiffView)
    ensures
        d.has_destructive() ==> d.kind() is CatalogSchema,
        d.is_orphan() ==> d.drift_tier() is Gating && !d.is_actionable(),
        d.is_actionable() ==> d.has_changes(),
{
}

/// What counts as drift, as something to write and as a loss of data, kind by
/// kind: an orphan is drift but never written, of a custom attribute only the
/// flag is written, tags are never written, and an attribute that only the
/// registry has does not fail a build.
pub proof fn tiers_follow_the_kinds(d: ResourceDiffView)
    ensures
        d matches ResourceDiffView::CatalogSchema(c) ==> {
            &&& d.kind() == ResourceKind::CatalogSchema && d.name() == c.name && !d.is_orphan()
            &&& d.has_changes() <==> c.op !is Unchanged || exists|i: int|
                0 <= i < c.field_diffs.len() && #[trigger] c.field_diffs[i] !is Unchanged
            &&& d.is_actionable() <==> d.has_changes()
            &&& d.has_destructive() <==> c.op is Removed || exists|i: int|
                0 <= i < c.field_diffs.len() && #[trigger] c.field_diffs[i] is Removed
        },
        d matches ResourceDiffView::ContentBlock(c) ==> {
            &&& d.kind() == ResourceKind::ContentBlock && d.name() == c.name
            &&& d.is_orphan() == c.orphan && !d.has_destructive()
            &&& d.has_changes() <==> c.orphan || c.op !is Unchanged
            &&& d.is_actionable() <==> !c.orphan && c.op !is Unchanged
        },
        d matches ResourceDiffView::EmailTemplate(c) ==> {
            &&& d.kind() == ResourceKind::EmailTemplate && d.name() == c.name
            &&& d.is_orphan() == c.orphan && !d.has_destructive()
            &&& c.orphan || c.op !is Unchanged ==> d.has_changes()
            &&& d.is_actionable() <==> !c.orphan && d.has_changes()
        },
        d matches ResourceDiffView::CustomAttribute(c) ==> {
            &&& d.kind() == ResourceKind::CustomAttribute && d.name() == c.name
            &&& !d.is_orphan() && !d.has_destructive()
            &&& d.has_changes() <==> c.op !is Unchanged
            &&& d.is_actionable() <==> c.op is DeprecationToggled
            &&& d.drift_tier() is ReportOnly <==> c.op is PresentInGitOnly
        },
        d matches ResourceDiffView::Tag(c) ==> {
            &&& d.kind() == ResourceKind::Tag && d.name() == c.name
            &&& !d.is_orphan() && !d.has_destructive() && !d.is_actionable()
            &&& d.has_changes() <==> c.op !is Unchanged
        },
        d.drift_tier() is InSync <==> !d.has_changes(),
        d.drift_tier() is ReportOnly ==> d is CustomAttribute,
{
}

/// The counts of a summary are the numbers of diffs of each sort.
pub proof fn counts_count_the_diffs(s: Seq<ResourceDiffView>, d: ResourceDiffView)
    ensures
        changed_count(s.push(d)) == changed_count(s) + (if d.has_changes() {
            1nat
        } else {
            0nat
        }),
        in_sync_count(s.push(d)) == in_sync_count(s) + (if d.has_changes() {
            0nat
        } else {
            1nat
        }),
        actionable_count(s.push(d)) == actionable_count(s) + (if d.is_actionable() {
            1nat
        } else {
            0nat
        }),
        destructive_count(s.push(d)) == destructive_count(s) + (if d.has_destructive() {
            1nat
        } else {
            0nat
        }),
        orphan_count(s.push(d)) == orphan_count(s) + (if d.is_orphan() {
            1nat
        } else {
            0nat
        }),
        gating_drift_count(s.push(d)) == gating_drift_count(s) + (if d.drift_tier() is Gating {
            1nat
        } else {
            0nat
        }),
        report_only_drift_count(s.push(d)) == report_only_drift_count(s) + (if d.drift_tier()
            is ReportOnly {
            1nat
        } else {
            0nat
        }),
        changed_count(Seq::empty()) == 0,
        actionable_count(Seq::empty()) == 0,
        destructive_count(Seq::empty()) == 0,
        orphan_count(Seq::empty()) == 0,
{
    reveal(Seq::filter);
    assert(s.push(d).drop_last() =~= s);
}

/// Added lines are those that the new text has over the old one: the summary
/// counts insertions as additions and deletions as deletions, and nothing
/// else.
pub proof fn line_counts_follow_the_changes(
    from: Seq<char>,
    to: Seq<char>,
    s: TextDiffSummary,
    changes: Seq<LineChange>,
    c: LineChange,
)
    ensures
        text_diff_of(from, to, s) <==> s.additions == count_changes(
            line_changes_between(from, to),
            LineChange::Inserted,
        ) && s.deletions == count_changes(line_changes_between(from, to), LineChange::Deleted),
        count_changes(Seq::empty(), c) == 0,
        count_changes(changes.push(c), LineChange::Inserted) == count_changes(
            changes,
            LineChange::Inserted,
        ) + (if c == LineChange::Inserted {
            1nat
        } else {
            0nat
        }),
        count_changes(changes.push(c), LineChange::Deleted) == count_changes(
            changes,
            LineChange::Deleted,
        ) + (if c == LineChange::Deleted {
            1nat
        } else {
            0nat
        }),
{
    reveal(Seq::filter);
    assert(changes.push(c).drop_last() =~= changes);
}

} // verus!
