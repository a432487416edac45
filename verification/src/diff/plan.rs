//! Saved plans: what `diff --plan-out` records and `apply --plan` checks.
//!
//! A saved plan authorizes applying the current local intent, provided that
//! the set of operations still has the shape the plan recorded, and that the
//! remote side of every operation that would overwrite a remote body is still
//! what `diff` observed.
//!
//! The plan pins the remote side, not the bytes that get written: local edits
//! that leave the shapes alone are still applied. A plan does not expire by
//! itself; [`check_validity_window`] adds an expiry where one is wanted.

use crate::diff::custom_attribute::CustomAttributeOp;
use crate::diff::digest::{
    self, blake3_hex, catalog_texts, content_block_texts, email_template_texts, fields,
    is_digest_text, is_hex_char,
};
use crate::diff::{DiffOp, DiffSummary, ResourceDiff, ResourceDiffView};
use crate::order::{in_order, stable_sort, stable_sort_of, tied, tied_with, views, Ranked};
use crate::resource::catalog::CatalogView;
use crate::resource::ResourceKind;
use crate::text::{
    chars_of, decimal, decimal_text, join, join_text, opt_text, owned, str_lt, string_of, strs,
    text_lt,
};
use crate::time::{duration_notation, duration_text, magnitude, Moment, Span};
use vstd::prelude::*;

verus! {

/// Bumped whenever the operations or a digest projection change. Older plans
/// are rejected rather than migrated.
pub const CURRENT_PLAN_VERSION: u32 = 2;

/// `apply` warns about a plan older than this: 24 hours.
pub const STALE_PLAN_WARN_THRESHOLD_NANOS: i128 = 86_400_000_000_000;

/// How far a plan's clock may run ahead of the clock at apply time: 5 minutes.
pub const PLAN_CLOCK_SKEW_TOLERANCE_NANOS: i128 = 300_000_000_000;

/// Why a plan lies outside the validity window.
#[derive(Debug, Clone, Copy, PartialEq, Eq, Structural)]
pub enum OutsideValidityWindow {
    Expired { age: Span, max_age: Span },
    AheadOfClock { ahead: Span },
}

/// The whole seconds of a configured limit.
pub open spec fn limit_secs(nanos: int) -> u64 {
    (magnitude(nanos) / 1_000_000_000) as u64
}

/// The seconds of a measured span, rounded up from its whole milliseconds.
pub open spec fn measured_secs(nanos: int) -> u64 {
    ((magnitude(nanos) / 1_000_000 + 999) / 1000) as u64
}

impl OutsideValidityWindow {
    pub fn to_string(&self) -> (r: String)
        ensures
            r@ == match *self {
                OutsideValidityWindow::Expired { age, max_age } => "generated "@
                    + duration_notation(measured_secs(age@)) + " ago, but --max-plan-age is "@
                    + duration_notation(limit_secs(max_age@)),
                OutsideValidityWindow::AheadOfClock { ahead } => "generated_at is "@
                    + duration_notation(measured_secs(ahead@)) + " in the future (tolerance "@
                    + duration_notation(limit_secs(PLAN_CLOCK_SKEW_TOLERANCE_NANOS as int))
                    + ") — check the clock on the machine that ran `diff`"@,
            },
    {
        match *self {
            OutsideValidityWindow::Expired { age, max_age } => {
                let mut out = owned("generated ");
                out.push_str(fmt_measured(age).as_str());
                out.push_str(" ago, but --max-plan-age is ");
                out.push_str(fmt_limit(max_age.as_nanos()).as_str());
                out
            },
            OutsideValidityWindow::AheadOfClock { ahead } => {
                let mut out = owned("generated_at is ");
                out.push_str(fmt_measured(ahead).as_str());
                out.push_str(" in the future (tolerance ");
                out.push_str(fmt_limit(PLAN_CLOCK_SKEW_TOLERANCE_NANOS).as_str());
                out.push_str(") — check the clock on the machine that ran `diff`");
                out
            },
        }
    }
}

/// Writes a configured limit. Limits are typed by a person, so dropping what
/// is below a second restates what was asked for.
fn fmt_limit(nanos: i128) -> (r: String)
    requires
        -crate::time::SPAN_LIMIT_NANOS <= nanos <= crate::time::SPAN_LIMIT_NANOS,
    ensures
        r@ == duration_notation(limit_secs(nanos as int)),
{
    let n: u128 = abs(nanos);
    duration_text((n / 1_000_000_000) as u64)
}

/// Writes a measured span, rounded up to the next whole second, so that it
/// does not read like the limit it exceeds.
fn fmt_measured(d: Span) -> (r: String)
    ensures
        r@ == duration_notation(measured_secs(d@)),
{
    let n: u128 = abs(d.as_nanos());
    let millis: u64 = (n / 1_000_000) as u64;
    let secs: u64 = millis / 1000 + if millis % 1000 != 0 {
        1
    } else {
        0
    };
    assert(secs == (millis + 999) / 1000);
    duration_text(secs)
}

fn abs(n: i128) -> (r: u128)
    requires
        -crate::time::SPAN_LIMIT_NANOS <= n <= crate::time::SPAN_LIMIT_NANOS,
    ensures
        r == magnitude(n as int),
{
    if n < 0 {
        (-n) as u128
    } else {
        n as u128
    }
}

/// Checks when a plan was generated against the window that a maximal age
/// allows: from the skew tolerance before it was generated to the maximal age
/// after.
pub fn check_validity_window(generated_at: Moment, now: Moment, max_age: Span) -> (r: Result<
    (),
    OutsideValidityWindow,
>)
    ensures
        ({
            let age = now@ - generated_at@;
            match r {
                Ok(_) => -PLAN_CLOCK_SKEW_TOLERANCE_NANOS <= age <= max_age@,
                Err(OutsideValidityWindow::AheadOfClock { ahead }) => age
                    < -PLAN_CLOCK_SKEW_TOLERANCE_NANOS && ahead@ == -age,
                Err(OutsideValidityWindow::Expired { age: a, max_age: m }) => age
                    >= -PLAN_CLOCK_SKEW_TOLERANCE_NANOS && age > max_age@ && a@ == age && m
                    == max_age,
            }
        }),
{
    let age = now.since(generated_at);
    if age.as_nanos() < -PLAN_CLOCK_SKEW_TOLERANCE_NANOS {
        return Err(OutsideValidityWindow::AheadOfClock { ahead: age.negated() });
    }
    if age.as_nanos() > max_age.as_nanos() {
        return Err(OutsideValidityWindow::Expired { age, max_age });
    }
    Ok(())
}

/// An age that exceeds the limit by a millisecond or more reads as longer
/// than the limit.
pub proof fn measured_age_exceeds_limit(age: int, max_age: int)
    requires
        0 <= max_age,
        max_age + 1_000_000 <= age <= crate::time::SPAN_LIMIT_NANOS,
    ensures
        limit_secs(max_age) < measured_secs(age),
{
}

/// The state the remote side of an operation must still be in.
#[derive(Debug, PartialEq, Eq)]
pub enum RemotePrecondition {
    /// The resource must still not exist.
    Absent,
    /// The remote object must still have this digest.
    Digest(String),
}

/// What a precondition is.
pub enum PreconditionView {
    Absent,
    Digest(Seq<char>),
}

impl View for RemotePrecondition {
    type V = PreconditionView;

    open spec fn view(&self) -> PreconditionView {
        match self {
            RemotePrecondition::Absent => PreconditionView::Absent,
            RemotePrecondition::Digest(d) => PreconditionView::Digest(d@),
        }
    }
}

impl Clone for RemotePrecondition {
    fn clone(&self) -> (r: Self)
        ensures
            r@ == self@,
    {
        match self {
            RemotePrecondition::Absent => RemotePrecondition::Absent,
            RemotePrecondition::Digest(d) => RemotePrecondition::Digest(d.clone()),
        }
    }
}

/// The first characters of a text.
pub open spec fn first_chars(s: Seq<char>, n: int) -> Seq<char> {
    if s.len() <= n {
        s
    } else {
        s.take(n)
    }
}

impl RemotePrecondition {
    /// Short form for reports: the first twelve characters of the digest.
    pub fn describe(&self) -> (r: String)
        ensures
            r@ == match self@ {
                PreconditionView::Absent => "absent"@,
                PreconditionView::Digest(d) => "digest "@ + first_chars(d, 12) + "…"@,
            },
    {
        match self {
            RemotePrecondition::Absent => owned("absent"),
            RemotePrecondition::Digest(d) => {
                let c = chars_of(d.as_str());
                let n: usize = if c.len() < 12 {
                    c.len()
                } else {
                    12
                };
                let mut out = owned("digest ");
                out.push_str(string_of(&c, 0, n).as_str());
                out.push_str("…");
                assert(first_chars(d@, 12) =~= c@.subrange(0, n as int));
                out
            },
        }
    }
}

/// What a plan does to one resource.
#[derive(Debug, Clone, Copy, PartialEq, Eq, Hash, Structural)]
pub enum PlanOpType {
    Add,
    Modify,
    DestructiveDelete,
    Orphan,
    Deprecate,
    Reactivate,
}

impl PlanOpType {
    /// The word for the operation in plans and reports.
    pub open spec fn word(self) -> Seq<char> {
        match self {
            PlanOpType::Add => "add"@,
            PlanOpType::Modify => "modify"@,
            PlanOpType::DestructiveDelete => "destructive_delete"@,
            PlanOpType::Orphan => "orphan"@,
            PlanOpType::Deprecate => "deprecate"@,
            PlanOpType::Reactivate => "reactivate"@,
        }
    }

    /// The place of the operation in the fixed order of operations.
    pub open spec fn rank(self) -> int {
        match self {
            PlanOpType::Add => 0,
            PlanOpType::Modify => 1,
            PlanOpType::DestructiveDelete => 2,
            PlanOpType::Orphan => 3,
            PlanOpType::Deprecate => 4,
            PlanOpType::Reactivate => 5,
        }
    }

    /// The operation needs evidence about the remote side.
    pub open spec fn needs_precondition(self) -> bool {
        self == PlanOpType::Add || self == PlanOpType::Modify || self
            == PlanOpType::DestructiveDelete
    }

    pub fn as_str(self) -> (r: &'static str)
        ensures
            r@ == self.word(),
    {
        match self {
            PlanOpType::Add => "add",
            PlanOpType::Modify => "modify",
            PlanOpType::DestructiveDelete => "destructive_delete",
            PlanOpType::Orphan => "orphan",
            PlanOpType::Deprecate => "deprecate",
            PlanOpType::Reactivate => "reactivate",
        }
    }

    /// Whether an operation of this type must carry a precondition. An orphan
    /// is only reported; a toggle states the prior value by its direction.
    pub fn requires_precondition(self) -> (r: bool)
        ensures
            r == self.needs_precondition(),
    {
        match self {
            PlanOpType::Add | PlanOpType::Modify | PlanOpType::DestructiveDelete => true,
            PlanOpType::Orphan | PlanOpType::Deprecate | PlanOpType::Reactivate => false,
        }
    }

    fn ordinal(self) -> (r: u8)
        ensures
            r == self.rank(),
    {
        match self {
            PlanOpType::Add => 0,
            PlanOpType::Modify => 1,
            PlanOpType::DestructiveDelete => 2,
            PlanOpType::Orphan => 3,
            PlanOpType::Deprecate => 4,
            PlanOpType::Reactivate => 5,
        }
    }
}

/// One operation of a plan.
#[derive(Debug, PartialEq, Eq)]
pub struct PlanOp {
    pub kind: ResourceKind,
    pub name: String,
    pub op: PlanOpType,
    /// `None` only for operations that overwrite no remote body.
    pub precondition: Option<RemotePrecondition>,
}

/// What an operation of a plan is.
#[verifier::ext_equal]
pub struct PlanOpView {
    pub kind: ResourceKind,
    pub name: Seq<char>,
    pub op: PlanOpType,
    pub precondition: Option<PreconditionView>,
}

/// The model of an optional precondition.
pub open spec fn opt_precondition(o: Option<RemotePrecondition>) -> Option<PreconditionView> {
    match o {
        Some(p) => Some(p@),
        None => None,
    }
}

impl View for PlanOp {
    type V = PlanOpView;

    open spec fn view(&self) -> PlanOpView {
        PlanOpView {
            kind: self.kind,
            name: self.name@,
            op: self.op,
            precondition: opt_precondition(self.precondition),
        }
    }
}

impl Clone for PlanOp {
    fn clone(&self) -> (r: Self)
        ensures
            r@ == self@,
    {
        PlanOp {
            kind: self.kind,
            name: self.name.clone(),
            op: self.op,
            precondition: match &self.precondition {
                Some(p) => Some(p.clone()),
                None => None,
            },
        }
    }
}

/// Two operations have the same shape: the same kind, name and type,
/// whatever their preconditions.
pub open spec fn same_shape(a: PlanOpView, b: PlanOpView) -> bool {
    a.kind == b.kind && a.name == b.name && a.op == b.op
}

/// Operations are ordered by shape: by kind, then name, then type.
impl Ranked for PlanOp {
    open spec fn lt(a: PlanOpView, b: PlanOpView) -> bool {
        if a.kind != b.kind {
            a.kind.rank() < b.kind.rank()
        } else if a.name != b.name {
            text_lt(a.name, b.name)
        } else {
            a.op.rank() < b.op.rank()
        }
    }

    proof fn lt_irreflexive(a: PlanOpView) {
    }

    proof fn lt_transitive(a: PlanOpView, b: PlanOpView, c: PlanOpView) {
        if a.kind == b.kind && b.kind == c.kind {
            if a.name != b.name && b.name != c.name {
                crate::text::lemma_text_lt_transitive(a.name, b.name, c.name);
                crate::text::lemma_text_lt_irreflexive(a.name);
            }
        }
    }

    proof fn lt_splits(a: PlanOpView, b: PlanOpView, c: PlanOpView) {
        if a.kind == b.kind && b.kind == c.kind {
            crate::text::lemma_text_lt_total(a.name, b.name);
            crate::text::lemma_text_lt_total(b.name, c.name);
            if text_lt(a.name, c.name) {
                crate::text::lemma_text_lt_splits(a.name, b.name, c.name);
                crate::text::lemma_text_lt_irreflexive(a.name);
            }
        }
    }

    fn precedes(&self, other: &Self) -> (r: bool) {
        if self.kind != other.kind {
            self.kind.ordinal() < other.kind.ordinal()
        } else if self.name != other.name {
            str_lt(self.name.as_str(), other.name.as_str())
        } else {
            self.op.ordinal() < other.op.ordinal()
        }
    }
}

/// Operations are tied exactly when they have the same shape.
pub proof fn lemma_tied_is_same_shape(a: PlanOpView, b: PlanOpView)
    ensures
        tied::<PlanOp>(a, b) <==> same_shape(a, b),
{
    crate::text::lemma_text_lt_total(a.name, b.name);
}

/// Where a plan applies.
#[derive(Debug, PartialEq, Eq)]
pub struct PlanScope {
    pub environment: String,
    /// The endpoint `diff` talked to: an environment name alone could be
    /// repointed between plan and apply.
    pub api_endpoint: String,
    pub resource: Option<ResourceKind>,
    pub name: Option<String>,
}

#[derive(Debug)]
pub struct PlanFile {
    pub version: u32,
    pub generated_at: Moment,
    pub braze_sync_version: String,
    pub scope: PlanScope,
    pub ops: Vec<PlanOp>,
}

/// The digest of the remote side.
pub open spec fn digest_of(texts: Seq<Seq<char>>) -> Option<PreconditionView> {
    Some(PreconditionView::Digest(blake3_hex(fields(texts))))
}

/// What `apply` does for a diff and which remote state that presupposes. The
/// remote state always comes from the remote side: local intent is not bound.
pub open spec fn classification(d: ResourceDiffView) -> Option<
    (PlanOpType, Option<PreconditionView>),
> {
    match d {
        ResourceDiffView::CatalogSchema(c) => match c.op {
            DiffOp::Added(_) => Some((PlanOpType::Add, Some(PreconditionView::Absent))),
            DiffOp::Removed(r) => Some(
                (PlanOpType::DestructiveDelete, digest_of(catalog_texts(r))),
            ),
            DiffOp::Modified { from, .. } => Some(
                (
                    if c.has_destructive() {
                        PlanOpType::DestructiveDelete
                    } else {
                        PlanOpType::Modify
                    },
                    digest_of(catalog_texts(from)),
                ),
            ),
            DiffOp::Unchanged => None,
        },
        ResourceDiffView::ContentBlock(c) => if c.orphan {
            Some((PlanOpType::Orphan, None))
        } else {
            match c.op {
                DiffOp::Added(_) => Some((PlanOpType::Add, Some(PreconditionView::Absent))),
                DiffOp::Modified { from, .. } => Some(
                    (PlanOpType::Modify, digest_of(content_block_texts(from))),
                ),
                _ => None,
            }
        },
        ResourceDiffView::EmailTemplate(c) => if c.orphan {
            Some((PlanOpType::Orphan, None))
        } else {
            match c.op {
                DiffOp::Added(_) => Some((PlanOpType::Add, Some(PreconditionView::Absent))),
                DiffOp::Modified { from, .. } => Some(
                    (PlanOpType::Modify, digest_of(email_template_texts(from))),
                ),
                _ => None,
            }
        },
        ResourceDiffView::CustomAttribute(c) => match c.op {
            CustomAttributeOp::DeprecationToggled { to: true, .. } => Some(
                (PlanOpType::Deprecate, None),
            ),
            CustomAttributeOp::DeprecationToggled { to: false, .. } => Some(
                (PlanOpType::Reactivate, None),
            ),
            _ => None,
        },
        ResourceDiffView::Tag(_) => None,
    }
}

/// The operations of a list of diffs, in the order of the diffs.
pub open spec fn planned(diffs: Seq<ResourceDiffView>) -> Seq<PlanOpView>
    decreases diffs.len(),
{
    if diffs.len() == 0 {
        Seq::empty()
    } else {
        let before = planned(diffs.drop_last());
        let d = diffs.last();
        match classification(d) {
            None => before,
            Some((op, precondition)) => before.push(
                PlanOpView { kind: d.kind(), name: d.name(), op, precondition },
            ),
        }
    }
}

/// What is wrong with an operation, if anything: its precondition does not
/// fit its type.
pub open spec fn op_problem(op: PlanOpView) -> Option<Seq<char>> {
    let head = op.kind.word() + " "@ + op.name + ": op `"@ + op.op.word();
    if !op.op.needs_precondition() {
        if op.precondition is Some {
            Some(head + "` must not carry a remote precondition"@)
        } else {
            None
        }
    } else if op.op == PlanOpType::Add {
        match op.precondition {
            Some(PreconditionView::Absent) => None,
            None => Some(head + "` requires absent precondition, found none"@),
            Some(PreconditionView::Digest(_)) => Some(
                head + "` requires absent precondition, found a digest"@,
            ),
        }
    } else {
        match op.precondition {
            Some(PreconditionView::Digest(d)) => if is_digest_text(d) {
                None
            } else {
                Some(
                    head
                        + "` carries a malformed digest (expected 64 lowercase hex characters)"@,
                )
            },
            None => Some(head + "` requires a digest precondition, found none"@),
            Some(PreconditionView::Absent) => Some(
                head + "` requires a digest precondition, found absent"@,
            ),
        }
    }
}

/// What is wrong with a list of operations, in their order.
pub open spec fn op_problems(ops: Seq<PlanOpView>) -> Seq<Seq<char>>
    decreases ops.len(),
{
    if ops.len() == 0 {
        Seq::empty()
    } else {
        let before = op_problems(ops.drop_last());
        match op_problem(ops.last()) {
            None => before,
            Some(p) => before.push(p),
        }
    }
}

/// Whether a text is written like a digest.
pub fn is_digest_hex(s: &str) -> (r: bool)
    ensures
        r == is_digest_text(s@),
{
    let c = chars_of(s);
    if c.len() != 64 {
        return false;
    }
    let mut i: usize = 0;
    while i < 64
        invariant
            i <= 64,
            c@.len() == 64,
            c@ == s@,
            forall|j: int| 0 <= j < i ==> is_hex_char(#[trigger] c@[j]),
        decreases 64 - i,
    {
        let x = c[i];
        if !((x >= '0' && x <= '9') || (x >= 'a' && x <= 'f')) {
            assert(!is_hex_char(c@[i as int]));
            return false;
        }
        i = i + 1;
    }
    true
}

fn check_op(op: &PlanOp) -> (r: Option<String>)
    ensures
        opt_text(r) == op_problem(op@),
{
    let mut head = owned(op.kind.as_str());
    head.push_str(" ");
    head.push_str(op.name.as_str());
    head.push_str(": op `");
    head.push_str(op.op.as_str());
    if !op.op.requires_precondition() {
        if op.precondition.is_some() {
            head.push_str("` must not carry a remote precondition");
            return Some(head);
        }
        return None;
    }
    if op.op == PlanOpType::Add {
        match &op.precondition {
            Some(RemotePrecondition::Absent) => None,
            None => {
                head.push_str("` requires absent precondition, found none");
                Some(head)
            },
            Some(RemotePrecondition::Digest(_)) => {
                head.push_str("` requires absent precondition, found a digest");
                Some(head)
            },
        }
    } else {
        match &op.precondition {
            Some(RemotePrecondition::Digest(d)) => {
                if is_digest_hex(d.as_str()) {
                    None
                } else {
                    head.push_str(
                        "` carries a malformed digest (expected 64 lowercase hex characters)",
                    );
                    Some(head)
                }
            },
            None => {
                head.push_str("` requires a digest precondition, found none");
                Some(head)
            },
            Some(RemotePrecondition::Absent) => {
                head.push_str("` requires a digest precondition, found absent");
                Some(head)
            },
        }
    }
}

pub fn classify(diff: &ResourceDiff) -> (r: Option<(PlanOpType, Option<RemotePrecondition>)>)
    ensures
        match r {
            None => classification(diff@) is None,
            Some((op, p)) => classification(diff@) == Some((op, opt_precondition(p))),
        },
        r matches Some((op, p)) ==> op_problem(
            PlanOpView { kind: diff@.kind(), name: diff@.name(), op, precondition: opt_precondition(p) },
        ) is None,
{
    match diff {
        ResourceDiff::CatalogSchema(d) => match &d.op {
            DiffOp::Added(_) => Some((PlanOpType::Add, Some(RemotePrecondition::Absent))),
            DiffOp::Removed(r) => Some(
                (
                    PlanOpType::DestructiveDelete,
                    Some(RemotePrecondition::Digest(digest::catalog(r))),
                ),
            ),
            DiffOp::Modified { from, .. } => {
                let op = if d.has_destructive() {
                    PlanOpType::DestructiveDelete
                } else {
                    PlanOpType::Modify
                };
                Some((op, Some(RemotePrecondition::Digest(digest::catalog(from)))))
            },
            DiffOp::Unchanged => None,
        },
        ResourceDiff::ContentBlock(d) => {
            if d.orphan {
                return Some((PlanOpType::Orphan, None));
            }
            match &d.op {
                DiffOp::Added(_) => Some((PlanOpType::Add, Some(RemotePrecondition::Absent))),
                DiffOp::Modified { from, .. } => Some(
                    (
                        PlanOpType::Modify,
                        Some(RemotePrecondition::Digest(digest::content_block(from))),
                    ),
                ),
                DiffOp::Removed(_) | DiffOp::Unchanged => None,
            }
        },
        ResourceDiff::EmailTemplate(d) => {
            if d.orphan {
                return Some((PlanOpType::Orphan, None));
            }
            match &d.op {
                DiffOp::Added(_) => Some((PlanOpType::Add, Some(RemotePrecondition::Absent))),
                DiffOp::Modified { from, .. } => Some(
                    (
                        PlanOpType::Modify,
                        Some(RemotePrecondition::Digest(digest::email_template(from))),
                    ),
                ),
                DiffOp::Removed(_) | DiffOp::Unchanged => None,
            }
        },
        ResourceDiff::CustomAttribute(d) => match &d.op {
            CustomAttributeOp::DeprecationToggled { to, .. } => {
                if *to {
                    Some((PlanOpType::Deprecate, None))
                } else {
                    Some((PlanOpType::Reactivate, None))
                }
            },
            _ => None,
        },
        ResourceDiff::Tag(_) => None,
    }
}

/// The operations of a summary, sorted by shape. Diffs that `apply` has
/// nothing to do for are left out. Every operation carries the precondition
/// its type asks for.
pub fn collect_ops(summary: &DiffSummary) -> (r: Vec<PlanOp>)
    ensures
        stable_sort_of::<PlanOp>(planned(summary@), views(r@)),
        forall|i: int| 0 <= i < r@.len() ==> op_problem((#[trigger] r@[i])@) is None,
{
    let ghost all = summary@;
    let mut out: Vec<PlanOp> = Vec::new();
    let mut i: usize = 0;
    assert(views(out@) =~= planned(all.take(0)));
    while i < summary.diffs.len()
        invariant
            i <= summary.diffs@.len(),
            all == views(summary.diffs@),
            views(out@) == planned(all.take(i as int)),
            forall|j: int| 0 <= j < out@.len() ==> op_problem((#[trigger] out@[j])@) is None,
        decreases summary.diffs@.len() - i,
    {
        let diff = &summary.diffs[i];
        let ghost before = out@;
        proof {
            assert(all.take(i + 1).drop_last() =~= all.take(i as int));
            assert(all.take(i + 1).last() == diff@);
        }
        if let Some((op, precondition)) = classify(diff) {
            let ghost p = opt_precondition(precondition);
            let entry = PlanOp {
                kind: diff.kind(),
                name: owned(diff.name()),
                op,
                precondition,
            };
            assert(entry@ =~= PlanOpView {
                kind: diff@.kind(),
                name: diff@.name(),
                op,
                precondition: p,
            });
            out.push(entry);
            assert(views(out@) =~= views(before).push(out@.last()@));
        }
        i = i + 1;
    }
    assert(all.take(i as int) =~= all);
    let ghost unsorted = out@;
    let r = stable_sort(out);
    proof {
        assert forall|k: int| 0 <= k < r@.len() implies op_problem((#[trigger] r@[k])@) is None by {
            vstd::seq_lib::to_multiset_contains(r@, r@[k]);
            vstd::seq_lib::to_multiset_contains(unsorted, r@[k]);
            assert(r@.contains(r@[k]));
            let j = choose|j: int| 0 <= j < unsorted.len() && unsorted[j] == r@[k];
            assert(op_problem(unsorted[j]@) is None);
        }
    }
    r
}

/// A pair of operations of the same shape whose remote precondition no longer
/// holds.
#[derive(Debug)]
pub struct PreconditionDrift {
    pub op: PlanOp,
    pub expected: RemotePrecondition,
    pub found: RemotePrecondition,
}

/// What a precondition drift is.
#[verifier::ext_equal]
pub struct PreconditionDriftView {
    pub op: PlanOpView,
    pub expected: PreconditionView,
    pub found: PreconditionView,
}

impl View for PreconditionDrift {
    type V = PreconditionDriftView;

    open spec fn view(&self) -> PreconditionDriftView {
        PreconditionDriftView { op: self.op@, expected: self.expected@, found: self.found@ }
    }
}

/// Result of comparing a saved plan's operations with fresh ones.
#[derive(Debug)]
pub struct PlanOpsDiff {
    /// In the saved plan but not fresh.
    pub missing: Vec<PlanOp>,
    /// Fresh but not in the saved plan.
    pub extra: Vec<PlanOp>,
    /// Same shape, but the remote is no longer what the plan observed.
    pub precondition_drift: Vec<PreconditionDrift>,
}

/// What the comparison of two lists of operations is.
#[verifier::ext_equal]
pub struct PlanOpsDiffView {
    pub missing: Seq<PlanOpView>,
    pub extra: Seq<PlanOpView>,
    pub precondition_drift: Seq<PreconditionDriftView>,
}

impl View for PlanOpsDiff {
    type V = PlanOpsDiffView;

    open spec fn view(&self) -> PlanOpsDiffView {
        PlanOpsDiffView {
            missing: views(self.missing@),
            extra: views(self.extra@),
            precondition_drift: views(self.precondition_drift@),
        }
    }
}

impl PlanOpsDiffView {
    pub open spec fn matches(self) -> bool {
        self.missing.len() == 0 && self.extra.len() == 0 && self.precondition_drift.len() == 0
    }
}

impl PlanOpsDiff {
    pub fn is_match(&self) -> (r: bool)
        ensures
            r == self@.matches(),
    {
        self.missing.len() == 0 && self.extra.len() == 0 && self.precondition_drift.len() == 0
    }
}

/// What two paired operations say about the remote side.
pub open spec fn pair_drift(s: PlanOpView, f: PlanOpView) -> Seq<PreconditionDriftView> {
    match (s.precondition, f.precondition) {
        (Some(expected), Some(found)) => if expected == found {
            Seq::empty()
        } else {
            seq![PreconditionDriftView { op: s, expected, found }]
        },
        _ => Seq::empty(),
    }
}

/// The drift of operations paired one by one, up to the shorter list.
pub open spec fn paired_drift(
    saved: Seq<PlanOpView>,
    fresh: Seq<PlanOpView>,
) -> Seq<PreconditionDriftView>
    decreases saved.len(),
{
    if saved.len() == 0 || fresh.len() == 0 {
        Seq::empty()
    } else {
        pair_drift(saved[0], fresh[0]) + paired_drift(saved.drop_first(), fresh.drop_first())
    }
}

/// What is left of the first list after pairing.
pub open spec fn surplus(a: Seq<PlanOpView>, b: Seq<PlanOpView>) -> Seq<PlanOpView> {
    if a.len() <= b.len() {
        Seq::empty()
    } else {
        a.skip(b.len() as int)
    }
}

/// The drifts of one shape.
pub open spec fn drifts_of(
    s: Seq<PreconditionDriftView>,
    k: PlanOpView,
) -> Seq<PreconditionDriftView> {
    s.filter(|d: PreconditionDriftView| tied::<PlanOp>(d.op, k))
}

/// `d` compares the operations shape by shape: operations of one shape are
/// paired in order; what is left over on a side is missing or extra; a pair
/// whose preconditions differ is a drift. Each list is in the order of
/// shapes.
pub open spec fn is_ops_diff(
    saved: Seq<PlanOpView>,
    fresh: Seq<PlanOpView>,
    d: PlanOpsDiffView,
) -> bool {
    &&& in_order::<PlanOp>(d.missing)
    &&& in_order::<PlanOp>(d.extra)
    &&& in_order::<PlanOp>(d.precondition_drift.map_values(|x: PreconditionDriftView| x.op))
    &&& forall|k: PlanOpView| #[trigger]
        tied_with::<PlanOp>(d.missing, k) == surplus(
            tied_with::<PlanOp>(saved, k),
            tied_with::<PlanOp>(fresh, k),
        )
    &&& forall|k: PlanOpView| #[trigger]
        tied_with::<PlanOp>(d.extra, k) == surplus(
            tied_with::<PlanOp>(fresh, k),
            tied_with::<PlanOp>(saved, k),
        )
    &&& forall|k: PlanOpView| #[trigger]
        drifts_of(d.precondition_drift, k) == paired_drift(
            tied_with::<PlanOp>(saved, k),
            tied_with::<PlanOp>(fresh, k),
        )
}

/// The comparison of two sorted lists of operations.
spec fn merged(a: Seq<PlanOpView>, b: Seq<PlanOpView>) -> PlanOpsDiffView
    decreases a.len() + b.len(),
{
    if a.len() == 0 {
        PlanOpsDiffView { missing: Seq::empty(), extra: b, precondition_drift: Seq::empty() }
    } else if b.len() == 0 {
        PlanOpsDiffView { missing: a, extra: Seq::empty(), precondition_drift: Seq::empty() }
    } else if PlanOp::lt(a[0], b[0]) {
        let r = merged(a.drop_first(), b);
        PlanOpsDiffView {
            missing: seq![a[0]] + r.missing,
            extra: r.extra,
            precondition_drift: r.precondition_drift,
        }
    } else if PlanOp::lt(b[0], a[0]) {
        let r = merged(a, b.drop_first());
        PlanOpsDiffView {
            missing: r.missing,
            extra: seq![b[0]] + r.extra,
            precondition_drift: r.precondition_drift,
        }
    } else {
        let r = merged(a.drop_first(), b.drop_first());
        PlanOpsDiffView {
            missing: r.missing,
            extra: r.extra,
            precondition_drift: pair_drift(a[0], b[0]) + r.precondition_drift,
        }
    }
}

/// Something stands behind each entry of a comparison.
spec fn drawn_from(a: Seq<PlanOpView>, b: Seq<PlanOpView>, d: PlanOpsDiffView) -> bool {
    &&& forall|i: int| 0 <= i < d.missing.len() ==> a.contains(#[trigger] d.missing[i])
    &&& forall|i: int| 0 <= i < d.extra.len() ==> b.contains(#[trigger] d.extra[i])
    &&& forall|i: int|
        0 <= i < d.precondition_drift.len() ==> a.contains(
            (#[trigger] d.precondition_drift[i]).op,
        )
}

proof fn lemma_tail_contains(s: Seq<PlanOpView>, x: PlanOpView)
    requires
        s.len() > 0,
        s.drop_first().contains(x),
    ensures
        s.contains(x),
{
    let k = choose|k: int| 0 <= k < s.drop_first().len() && s.drop_first()[k] == x;
    assert(s[k + 1] == x);
}

proof fn lemma_in_order_tail(s: Seq<PlanOpView>)
    requires
        in_order::<PlanOp>(s),
        s.len() > 0,
    ensures
        in_order::<PlanOp>(s.drop_first()),
{
    let t = s.drop_first();
    assert forall|i: int, j: int| 0 <= i < j < t.len() implies !PlanOp::lt(
        #[trigger] t[j],
        #[trigger] t[i],
    ) by {
        assert(!PlanOp::lt(s[j + 1], s[i + 1]));
    }
}

/// The first of a list in order stands before no element of the list.
proof fn lemma_head_is_least(s: Seq<PlanOpView>, x: PlanOpView)
    requires
        in_order::<PlanOp>(s),
        s.len() > 0,
        s.contains(x),
    ensures
        !PlanOp::lt(x, s[0]),
{
    let k = choose|k: int| 0 <= k < s.len() && s[k] == x;
    PlanOp::lt_irreflexive(s[0]);
    if k > 0 {
        assert(!PlanOp::lt(s[k], s[0]));
    }
}

proof fn lemma_cons_in_order(x: PlanOpView, s: Seq<PlanOpView>)
    requires
        in_order::<PlanOp>(s),
        forall|i: int| 0 <= i < s.len() ==> !PlanOp::lt(#[trigger] s[i], x),
    ensures
        in_order::<PlanOp>(seq![x] + s),
{
    let t = seq![x] + s;
    assert forall|i: int, j: int| 0 <= i < j < t.len() implies !PlanOp::lt(
        #[trigger] t[j],
        #[trigger] t[i],
    ) by {
        assert(t[j] == s[j - 1]);
        if i > 0 {
            assert(t[i] == s[i - 1]);
        }
    }
}

proof fn lemma_tied_cons(x: PlanOpView, s: Seq<PlanOpView>, k: PlanOpView)
    ensures
        tied_with::<PlanOp>(seq![x] + s, k) == if tied::<PlanOp>(x, k) {
            seq![x] + tied_with::<PlanOp>(s, k)
        } else {
            tied_with::<PlanOp>(s, k)
        },
{
    let f = |y: PlanOpView| tied::<PlanOp>(y, k);
    Seq::filter_distributes_over_add(seq![x], s, f);
    crate::order::lemma_filter_one(x, f);
    if !tied::<PlanOp>(x, k) {
        assert(seq![x].filter(f) + s.filter(f) =~= s.filter(f));
    }
}

proof fn lemma_drifts_cons(
    d: Seq<PreconditionDriftView>,
    s: Seq<PreconditionDriftView>,
    k: PlanOpView,
)
    requires
        d.len() <= 1,
    ensures
        drifts_of(d + s, k) == if d.len() == 1 && tied::<PlanOp>(d[0].op, k) {
            d + drifts_of(s, k)
        } else {
            drifts_of(s, k)
        },
{
    let f = |y: PreconditionDriftView| tied::<PlanOp>(y.op, k);
    Seq::filter_distributes_over_add(d, s, f);
    if d.len() == 1 {
        assert(d =~= seq![d[0]]);
        crate::order::lemma_filter_one(d[0], f);
        if !tied::<PlanOp>(d[0].op, k) {
            assert(d.filter(f) + s.filter(f) =~= s.filter(f));
        }
    } else {
        assert(d =~= Seq::empty());
        assert(d + s =~= s);
    }
}

/// Where everything in a list stands after `x`, nothing in it is tied with
/// what `x` is tied with.
proof fn lemma_none_tied_after(x: PlanOpView, s: Seq<PlanOpView>, k: PlanOpView)
    requires
        tied::<PlanOp>(x, k),
        forall|i: int| 0 <= i < s.len() ==> PlanOp::lt(x, #[trigger] s[i]),
    ensures
        tied_with::<PlanOp>(s, k) == Seq::<PlanOpView>::empty(),
    decreases s.len(),
{
    reveal(Seq::filter);
    if s.len() > 0 {
        let p = s.drop_last();
        assert forall|i: int| 0 <= i < p.len() implies PlanOp::lt(x, #[trigger] p[i]) by {
            assert(p[i] == s[i]);
        }
        lemma_none_tied_after(x, p, k);
        assert(PlanOp::lt(x, s[s.len() - 1]));
        PlanOp::lt_splits(x, k, s.last());
    }
}

proof fn lemma_all_after(x: PlanOpView, s: Seq<PlanOpView>)
    requires
        in_order::<PlanOp>(s),
        s.len() > 0,
        PlanOp::lt(x, s[0]),
    ensures
        forall|i: int| 0 <= i < s.len() ==> PlanOp::lt(x, #[trigger] s[i]),
{
    assert forall|i: int| 0 <= i < s.len() implies PlanOp::lt(x, #[trigger] s[i]) by {
        if i > 0 {
            assert(!PlanOp::lt(s[i], s[0]));
            PlanOp::lt_splits(x, s[i], s[0]);
        }
    }
}

/// Being tied carries over.
proof fn lemma_tied_transfers(a: PlanOpView, b: PlanOpView, k: PlanOpView)
    requires
        tied::<PlanOp>(a, b),
    ensures
        tied::<PlanOp>(a, k) == tied::<PlanOp>(b, k),
{
    lemma_tied_is_same_shape(a, b);
    lemma_tied_is_same_shape(a, k);
    lemma_tied_is_same_shape(b, k);
}

/// Where one side is at its end.
proof fn lemma_merged_end(a: Seq<PlanOpView>, b: Seq<PlanOpView>)
    requires
        in_order::<PlanOp>(a),
        in_order::<PlanOp>(b),
        a.len() == 0 || b.len() == 0,
    ensures
        is_ops_diff(a, b, merged(a, b)),
        drawn_from(a, b, merged(a, b)),
{
    let m = merged(a, b);
    let none = Seq::<PlanOpView>::empty();
    assert forall|k: PlanOpView| #[trigger] tied_with::<PlanOp>(none, k) == none by {
        reveal(Seq::filter);
    }
    assert forall|k: PlanOpView| #[trigger] drifts_of(m.precondition_drift, k) == Seq::<
        PreconditionDriftView,
    >::empty() by {
        reveal(Seq::filter);
    }
    if a.len() == 0 {
        assert(a =~= none);
    } else {
        assert(b =~= none);
    }
    assert forall|k: PlanOpView| #[trigger] tied_with::<PlanOp>(m.missing, k) == surplus(
        tied_with::<PlanOp>(a, k),
        tied_with::<PlanOp>(b, k),
    ) by {
        assert(tied_with::<PlanOp>(none, k) == none);
        assert(tied_with::<PlanOp>(a, k).skip(0) =~= tied_with::<PlanOp>(a, k));
    }
    assert forall|k: PlanOpView| #[trigger] tied_with::<PlanOp>(m.extra, k) == surplus(
        tied_with::<PlanOp>(b, k),
        tied_with::<PlanOp>(a, k),
    ) by {
        assert(tied_with::<PlanOp>(none, k) == none);
        assert(tied_with::<PlanOp>(b, k).skip(0) =~= tied_with::<PlanOp>(b, k));
    }
}

/// Where the next operation is on the first side only.
proof fn lemma_merged_first(a: Seq<PlanOpView>, b: Seq<PlanOpView>)
    requires
        in_order::<PlanOp>(a),
        in_order::<PlanOp>(b),
        a.len() > 0 && b.len() > 0,
        PlanOp::lt(a[0], b[0]),
        is_ops_diff(a.drop_first(), b, merged(a.drop_first(), b)),
        drawn_from(a.drop_first(), b, merged(a.drop_first(), b)),
    ensures
        is_ops_diff(a, b, merged(a, b)),
        drawn_from(a, b, merged(a, b)),
{
    let m = merged(a, b);
    let x = a[0];
    let t = a.drop_first();
    assert(a =~= seq![x] + t);
    lemma_in_order_tail(a);
    let r = merged(t, b);
    lemma_all_after(x, b);
    assert forall|i: int| 0 <= i < r.missing.len() implies a.contains(
        #[trigger] r.missing[i],
    ) && !PlanOp::lt(r.missing[i], x) by {
        lemma_tail_contains(a, r.missing[i]);
        lemma_head_is_least(a, r.missing[i]);
    }
    lemma_cons_in_order(x, r.missing);
    assert forall|i: int| 0 <= i < m.missing.len() implies a.contains(
        #[trigger] m.missing[i],
    ) by {
        if i > 0 {
            assert(m.missing[i] == r.missing[i - 1]);
        } else {
            assert(a[0] == m.missing[i]);
        }
    }
    assert forall|i: int| 0 <= i < m.precondition_drift.len() implies a.contains(
        (#[trigger] m.precondition_drift[i]).op,
    ) by {
        lemma_tail_contains(a, r.precondition_drift[i].op);
    }
    assert forall|k: PlanOpView| #[trigger] tied_with::<PlanOp>(m.missing, k) == surplus(
        tied_with::<PlanOp>(a, k),
        tied_with::<PlanOp>(b, k),
    ) by {
        lemma_tied_cons(x, t, k);
        lemma_tied_cons(x, r.missing, k);
        assert(tied_with::<PlanOp>(r.missing, k) == surplus(
            tied_with::<PlanOp>(t, k),
            tied_with::<PlanOp>(b, k),
        ));
        if tied::<PlanOp>(x, k) {
            lemma_none_tied_after(x, b, k);
            assert(tied_with::<PlanOp>(t, k).skip(0) =~= tied_with::<PlanOp>(t, k));
            assert(tied_with::<PlanOp>(a, k).skip(0) =~= tied_with::<PlanOp>(a, k));
            assert(surplus(tied_with::<PlanOp>(t, k), Seq::empty()) =~= tied_with::<PlanOp>(
                t,
                k,
            ));
        }
    }
    assert forall|k: PlanOpView| #[trigger] tied_with::<PlanOp>(m.extra, k) == surplus(
        tied_with::<PlanOp>(b, k),
        tied_with::<PlanOp>(a, k),
    ) by {
        lemma_tied_cons(x, t, k);
        assert(tied_with::<PlanOp>(r.extra, k) == surplus(
            tied_with::<PlanOp>(b, k),
            tied_with::<PlanOp>(t, k),
        ));
        if tied::<PlanOp>(x, k) {
            lemma_none_tied_after(x, b, k);
        }
    }
    assert forall|k: PlanOpView| #[trigger] drifts_of(m.precondition_drift, k)
        == paired_drift(tied_with::<PlanOp>(a, k), tied_with::<PlanOp>(b, k)) by {
        lemma_tied_cons(x, t, k);
        assert(drifts_of(r.precondition_drift, k) == paired_drift(
            tied_with::<PlanOp>(t, k),
            tied_with::<PlanOp>(b, k),
        ));
        if tied::<PlanOp>(x, k) {
            lemma_none_tied_after(x, b, k);
        }
    }
}

/// Where the next operation is on the second side only.
proof fn lemma_merged_second(a: Seq<PlanOpView>, b: Seq<PlanOpView>)
    requires
        in_order::<PlanOp>(a),
        in_order::<PlanOp>(b),
        a.len() > 0 && b.len() > 0,
        PlanOp::lt(b[0], a[0]),
        !PlanOp::lt(a[0], b[0]),
        is_ops_diff(a, b.drop_first(), merged(a, b.drop_first())),
        drawn_from(a, b.drop_first(), merged(a, b.drop_first())),
    ensures
        is_ops_diff(a, b, merged(a, b)),
        drawn_from(a, b, merged(a, b)),
{
    let m = merged(a, b);
    let x = b[0];
    let t = b.drop_first();
    assert(b =~= seq![x] + t);
    lemma_in_order_tail(b);
    let r = merged(a, t);
    lemma_all_after(x, a);
    assert forall|i: int| 0 <= i < r.extra.len() implies b.contains(#[trigger] r.extra[i])
        && !PlanOp::lt(r.extra[i], x) by {
        lemma_tail_contains(b, r.extra[i]);
        lemma_head_is_least(b, r.extra[i]);
    }
    lemma_cons_in_order(x, r.extra);
    assert forall|i: int| 0 <= i < m.extra.len() implies b.contains(#[trigger] m.extra[i]) by {
        if i > 0 {
            assert(m.extra[i] == r.extra[i - 1]);
        } else {
            assert(b[0] == m.extra[i]);
        }
    }
    assert forall|k: PlanOpView| #[trigger] tied_with::<PlanOp>(m.extra, k) == surplus(
        tied_with::<PlanOp>(b, k),
        tied_with::<PlanOp>(a, k),
    ) by {
        lemma_tied_cons(x, t, k);
        lemma_tied_cons(x, r.extra, k);
        assert(tied_with::<PlanOp>(r.extra, k) == surplus(
            tied_with::<PlanOp>(t, k),
            tied_with::<PlanOp>(a, k),
        ));
        if tied::<PlanOp>(x, k) {
            lemma_none_tied_after(x, a, k);
            assert(tied_with::<PlanOp>(t, k).skip(0) =~= tied_with::<PlanOp>(t, k));
            assert(tied_with::<PlanOp>(b, k).skip(0) =~= tied_with::<PlanOp>(b, k));
            assert(surplus(tied_with::<PlanOp>(t, k), Seq::empty()) =~= tied_with::<PlanOp>(
                t,
                k,
            ));
        }
    }
    assert forall|k: PlanOpView| #[trigger] tied_with::<PlanOp>(m.missing, k) == surplus(
        tied_with::<PlanOp>(a, k),
        tied_with::<PlanOp>(b, k),
    ) by {
        lemma_tied_cons(x, t, k);
        assert(tied_with::<PlanOp>(r.missing, k) == surplus(
            tied_with::<PlanOp>(a, k),
            tied_with::<PlanOp>(t, k),
        ));
        if tied::<PlanOp>(x, k) {
            lemma_none_tied_after(x, a, k);
        }
    }
    assert forall|k: PlanOpView| #[trigger] drifts_of(m.precondition_drift, k)
        == paired_drift(tied_with::<PlanOp>(a, k), tied_with::<PlanOp>(b, k)) by {
        lemma_tied_cons(x, t, k);
        assert(drifts_of(r.precondition_drift, k) == paired_drift(
            tied_with::<PlanOp>(a, k),
            tied_with::<PlanOp>(t, k),
        ));
        if tied::<PlanOp>(x, k) {
            lemma_none_tied_after(x, a, k);
        }
    }
}

/// Where the next operation is on both sides.
proof fn lemma_merged_pair(a: Seq<PlanOpView>, b: Seq<PlanOpView>)
    requires
        in_order::<PlanOp>(a),
        in_order::<PlanOp>(b),
        a.len() > 0 && b.len() > 0,
        tied::<PlanOp>(a[0], b[0]),
        is_ops_diff(a.drop_first(), b.drop_first(), merged(a.drop_first(), b.drop_first())),
        drawn_from(a.drop_first(), b.drop_first(), merged(a.drop_first(), b.drop_first())),
    ensures
        is_ops_diff(a, b, merged(a, b)),
        drawn_from(a, b, merged(a, b)),
{
    let m = merged(a, b);
    let ops = |x: PreconditionDriftView| x.op;
    let x = a[0];
    let y = b[0];
    let t = a.drop_first();
    let u = b.drop_first();
    assert(a =~= seq![x] + t);
    assert(b =~= seq![y] + u);
    lemma_in_order_tail(a);
    lemma_in_order_tail(b);
    let r = merged(t, u);
    let head = pair_drift(x, y);
    assert forall|i: int| 0 <= i < r.missing.len() implies a.contains(
        #[trigger] r.missing[i],
    ) by {
        lemma_tail_contains(a, r.missing[i]);
    }
    assert forall|i: int| 0 <= i < r.extra.len() implies b.contains(#[trigger] r.extra[i]) by {
        lemma_tail_contains(b, r.extra[i]);
    }
    assert forall|i: int| 0 <= i < r.precondition_drift.len() implies a.contains(
        (#[trigger] r.precondition_drift[i]).op,
    ) && !PlanOp::lt(r.precondition_drift[i].op, x) by {
        lemma_tail_contains(a, r.precondition_drift[i].op);
        lemma_head_is_least(a, r.precondition_drift[i].op);
    }
    assert forall|i: int| 0 <= i < m.precondition_drift.len() implies a.contains(
        (#[trigger] m.precondition_drift[i]).op,
    ) by {
        if i < head.len() {
            assert(m.precondition_drift[i].op == x);
            assert(a[0] == x);
        } else {
            assert(m.precondition_drift[i] == r.precondition_drift[i - head.len()]);
        }
    }
    let tail_ops = r.precondition_drift.map_values(ops);
    if head.len() == 1 {
        assert forall|i: int| 0 <= i < tail_ops.len() implies !PlanOp::lt(
            #[trigger] tail_ops[i],
            x,
        ) by {
            assert(tail_ops[i] == r.precondition_drift[i].op);
        }
        lemma_cons_in_order(x, tail_ops);
        assert(m.precondition_drift.map_values(ops) =~= seq![x] + tail_ops);
    } else {
        assert(m.precondition_drift =~= r.precondition_drift);
    }
    assert forall|k: PlanOpView| #[trigger] tied_with::<PlanOp>(m.missing, k) == surplus(
        tied_with::<PlanOp>(a, k),
        tied_with::<PlanOp>(b, k),
    ) by {
        lemma_pair_surplus(x, t, y, u, k);
        assert(tied_with::<PlanOp>(r.missing, k) == surplus(
            tied_with::<PlanOp>(t, k),
            tied_with::<PlanOp>(u, k),
        ));
    }
    assert forall|k: PlanOpView| #[trigger] tied_with::<PlanOp>(m.extra, k) == surplus(
        tied_with::<PlanOp>(b, k),
        tied_with::<PlanOp>(a, k),
    ) by {
        lemma_pair_surplus(y, u, x, t, k);
        assert(tied_with::<PlanOp>(r.extra, k) == surplus(
            tied_with::<PlanOp>(u, k),
            tied_with::<PlanOp>(t, k),
        ));
    }
    assert forall|k: PlanOpView| #[trigger] drifts_of(m.precondition_drift, k)
        == paired_drift(tied_with::<PlanOp>(a, k), tied_with::<PlanOp>(b, k)) by {
        lemma_tied_cons(x, t, k);
        lemma_tied_cons(y, u, k);
        lemma_tied_transfers(x, y, k);
        lemma_drifts_cons(head, r.precondition_drift, k);
        assert(drifts_of(r.precondition_drift, k) == paired_drift(
            tied_with::<PlanOp>(t, k),
            tied_with::<PlanOp>(u, k),
        ));
        if tied::<PlanOp>(x, k) {
            let p = tied_with::<PlanOp>(t, k);
            let q = tied_with::<PlanOp>(u, k);
            assert((seq![x] + p).drop_first() =~= p);
            assert((seq![y] + q).drop_first() =~= q);
            if head.len() == 0 {
                assert(head + paired_drift(p, q) =~= paired_drift(p, q));
            }
        }
    }
}

proof fn lemma_merged(a: Seq<PlanOpView>, b: Seq<PlanOpView>)
    requires
        in_order::<PlanOp>(a),
        in_order::<PlanOp>(b),
    ensures
        is_ops_diff(a, b, merged(a, b)),
        drawn_from(a, b, merged(a, b)),
    decreases a.len() + b.len(),
{
    if a.len() == 0 || b.len() == 0 {
        lemma_merged_end(a, b);
    } else if PlanOp::lt(a[0], b[0]) {
        lemma_in_order_tail(a);
        lemma_merged(a.drop_first(), b);
        lemma_merged_first(a, b);
    } else if PlanOp::lt(b[0], a[0]) {
        lemma_in_order_tail(b);
        lemma_merged(a, b.drop_first());
        lemma_merged_second(a, b);
    } else {
        lemma_in_order_tail(a);
        lemma_in_order_tail(b);
        lemma_merged(a.drop_first(), b.drop_first());
        lemma_merged_pair(a, b);
    }
}

proof fn lemma_pair_surplus(
    x: PlanOpView,
    t: Seq<PlanOpView>,
    y: PlanOpView,
    u: Seq<PlanOpView>,
    k: PlanOpView,
)
    requires
        tied::<PlanOp>(x, y),
    ensures
        surplus(tied_with::<PlanOp>(seq![x] + t, k), tied_with::<PlanOp>(seq![y] + u, k))
            == surplus(tied_with::<PlanOp>(t, k), tied_with::<PlanOp>(u, k)),
{
    lemma_tied_cons(x, t, k);
    lemma_tied_cons(y, u, k);
    lemma_tied_transfers(x, y, k);
    let p = tied_with::<PlanOp>(t, k);
    let q = tied_with::<PlanOp>(u, k);
    assert(surplus(seq![x] + p, seq![y] + q) =~= surplus(p, q));
}

fn precondition_eq(a: &RemotePrecondition, b: &RemotePrecondition) -> (r: bool)
    ensures
        r == (a@ == b@),
{
    match (a, b) {
        (RemotePrecondition::Absent, RemotePrecondition::Absent) => true,
        (RemotePrecondition::Digest(x), RemotePrecondition::Digest(y)) => *x == *y,
        _ => false,
    }
}

fn clone_ops(v: &Vec<PlanOp>) -> (r: Vec<PlanOp>)
    ensures
        views(r@) == views(v@),
{
    let mut out: Vec<PlanOp> = Vec::new();
    let mut i: usize = 0;
    while i < v.len()
        invariant
            i <= v@.len(),
            out@.len() == i,
            forall|j: int| 0 <= j < i ==> (#[trigger] out@[j])@ == v@[j]@,
        decreases v@.len() - i,
    {
        out.push(v[i].clone());
        i = i + 1;
    }
    assert(views(out@) =~= views(v@));
    out
}

/// What lies before the walk and what lies ahead of it, put together.
spec fn continued(d: PlanOpsDiffView, rest: PlanOpsDiffView) -> PlanOpsDiffView {
    PlanOpsDiffView {
        missing: d.missing + rest.missing,
        extra: d.extra + rest.extra,
        precondition_drift: d.precondition_drift + rest.precondition_drift,
    }
}

/// Compares saved operations with fresh ones.
pub fn compare_ops(saved: &Vec<PlanOp>, fresh: &Vec<PlanOp>) -> (r: PlanOpsDiff)
    ensures
        is_ops_diff(views(saved@), views(fresh@), r@),
{
    let s = stable_sort(clone_ops(saved));
    let f = stable_sort(clone_ops(fresh));
    let ghost a = views(s@);
    let ghost b = views(f@);
    let mut d = PlanOpsDiff {
        missing: Vec::new(),
        extra: Vec::new(),
        precondition_drift: Vec::new(),
    };
    let mut i: usize = 0;
    let mut j: usize = 0;
    proof {
        assert(a.skip(0) =~= a);
        assert(b.skip(0) =~= b);
        assert(continued(d@, merged(a, b)) =~= merged(a, b));
    }
    while i < s.len() && j < f.len()
        invariant
            i <= s@.len(),
            j <= f@.len(),
            a == views(s@),
            b == views(f@),
            continued(d@, merged(a.skip(i as int), b.skip(j as int))) == merged(a, b),
        decreases s@.len() - i + f@.len() - j,
    {
        let ghost before = d@;
        let ghost missing0 = d.missing@;
        let ghost extra0 = d.extra@;
        let ghost drift0 = d.precondition_drift@;
        proof {
            assert(a.skip(i as int)[0] == s@[i as int]@);
            assert(b.skip(j as int)[0] == f@[j as int]@);
            assert(a.skip(i as int).drop_first() =~= a.skip(i + 1));
            assert(b.skip(j as int).drop_first() =~= b.skip(j + 1));
        }
        if s[i].precedes(&f[j]) {
            d.missing.push(s[i].clone());
            proof {
                assert(views(d.missing@) =~= views(missing0).push(s@[i as int]@));
                assert(continued(d@, merged(a.skip(i + 1), b.skip(j as int))) =~= continued(
                    before,
                    merged(a.skip(i as int), b.skip(j as int)),
                ));
            }
            i = i + 1;
        } else if f[j].precedes(&s[i]) {
            d.extra.push(f[j].clone());
            proof {
                assert(views(d.extra@) =~= views(extra0).push(f@[j as int]@));
                assert(continued(d@, merged(a.skip(i as int), b.skip(j + 1))) =~= continued(
                    before,
                    merged(a.skip(i as int), b.skip(j as int)),
                ));
            }
            j = j + 1;
        } else {
            if let (Some(expected), Some(found)) = (&s[i].precondition, &f[j].precondition) {
                if !precondition_eq(expected, found) {
                    d.precondition_drift.push(
                        PreconditionDrift {
                            op: s[i].clone(),
                            expected: expected.clone(),
                            found: found.clone(),
                        },
                    );
                }
            }
            proof {
                let p = pair_drift(s@[i as int]@, f@[j as int]@);
                assert(views(d.precondition_drift@) =~= views(drift0) + p);
                assert(continued(d@, merged(a.skip(i + 1), b.skip(j + 1))) =~= continued(
                    before,
                    merged(a.skip(i as int), b.skip(j as int)),
                ));
            }
            i = i + 1;
            j = j + 1;
        }
    }
    let ghost at_i = i as int;
    let ghost at_j = j as int;
    let ghost before = d@;
    let ghost rest = merged(a.skip(at_i), b.skip(at_j));
    let ghost missing0 = d.missing@;
    let ghost extra0 = d.extra@;
    while i < s.len()
        invariant
            at_i <= i <= s@.len(),
            0 <= at_i,
            a == views(s@),
            views(d.missing@) == views(missing0) + a.subrange(at_i, i as int),
            d.extra@ == extra0,
            views(d.precondition_drift@) == before.precondition_drift,
        decreases s@.len() - i,
    {
        let ghost m = d.missing@;
        d.missing.push(s[i].clone());
        i = i + 1;
        assert(views(d.missing@) =~= views(m).push(s@[i - 1]@));
        assert(a.subrange(at_i, i as int) =~= a.subrange(at_i, i - 1).push(a[i - 1]));
        assert(views(d.missing@) =~= views(missing0) + a.subrange(at_i, i as int));
    }
    while j < f.len()
        invariant
            at_j <= j <= f@.len(),
            0 <= at_j,
            b == views(f@),
            views(d.missing@) == views(missing0) + a.subrange(at_i, a.len() as int),
            views(d.extra@) == views(extra0) + b.subrange(at_j, j as int),
            views(d.precondition_drift@) == before.precondition_drift,
        decreases f@.len() - j,
    {
        let ghost m = d.extra@;
        d.extra.push(f[j].clone());
        j = j + 1;
        assert(views(d.extra@) =~= views(m).push(f@[j - 1]@));
        assert(b.subrange(at_j, j as int) =~= b.subrange(at_j, j - 1).push(b[j - 1]));
        assert(views(d.extra@) =~= views(extra0) + b.subrange(at_j, j as int));
    }
    proof {
        assert(a.subrange(at_i, a.len() as int) =~= a.skip(at_i));
        assert(b.subrange(at_j, b.len() as int) =~= b.skip(at_j));
        assert(rest.missing =~= a.skip(at_i));
        assert(rest.extra =~= b.skip(at_j));
        assert(rest.precondition_drift =~= Seq::empty());
        assert(d@ =~= continued(before, rest));
        lemma_merged(a, b);
        lemma_diff_of_sorted(views(saved@), views(fresh@), a, b, d@);
    }
    d
}

proof fn lemma_diff_of_sorted(
    saved: Seq<PlanOpView>,
    fresh: Seq<PlanOpView>,
    a: Seq<PlanOpView>,
    b: Seq<PlanOpView>,
    d: PlanOpsDiffView,
)
    requires
        stable_sort_of::<PlanOp>(saved, a),
        stable_sort_of::<PlanOp>(fresh, b),
        is_ops_diff(a, b, d),
    ensures
        is_ops_diff(saved, fresh, d),
{
    assert forall|k: PlanOpView| #[trigger] tied_with::<PlanOp>(d.missing, k) == surplus(
        tied_with::<PlanOp>(saved, k),
        tied_with::<PlanOp>(fresh, k),
    ) by {
        assert(tied_with::<PlanOp>(a, k) == tied_with::<PlanOp>(saved, k));
        assert(tied_with::<PlanOp>(b, k) == tied_with::<PlanOp>(fresh, k));
    }
    assert forall|k: PlanOpView| #[trigger] tied_with::<PlanOp>(d.extra, k) == surplus(
        tied_with::<PlanOp>(fresh, k),
        tied_with::<PlanOp>(saved, k),
    ) by {
        assert(tied_with::<PlanOp>(a, k) == tied_with::<PlanOp>(saved, k));
        assert(tied_with::<PlanOp>(b, k) == tied_with::<PlanOp>(fresh, k));
    }
    assert forall|k: PlanOpView| #[trigger] drifts_of(d.precondition_drift, k) == paired_drift(
        tied_with::<PlanOp>(saved, k),
        tied_with::<PlanOp>(fresh, k),
    ) by {
        assert(tied_with::<PlanOp>(a, k) == tied_with::<PlanOp>(saved, k));
        assert(tied_with::<PlanOp>(b, k) == tied_with::<PlanOp>(fresh, k));
    }
}

/// What is said of a plan whose version this binary cannot check.
pub open spec fn version_problem(version: u32) -> Option<Seq<char>> {
    if version == CURRENT_PLAN_VERSION {
        None
    } else {
        Some(
            "plan file version "@ + decimal(version as nat)
                + " is not supported by this binary (expected "@ + decimal(
                CURRENT_PLAN_VERSION as nat,
            )
                + "). Regenerate with `diff --plan-out` and review the new plan — an older plan carries no evidence this binary can check."@,
        )
    }
}

/// Checks the version of a plan before anything else of it is read.
pub fn check_version(version: u32) -> (r: Result<(), String>)
    ensures
        match r {
            Ok(_) => version_problem(version) is None,
            Err(e) => version_problem(version) == Some(e@),
        },
{
    if version == CURRENT_PLAN_VERSION {
        return Ok(());
    }
    let mut out = owned("plan file version ");
    out.push_str(decimal_text(version as u64).as_str());
    out.push_str(" is not supported by this binary (expected ");
    out.push_str(decimal_text(CURRENT_PLAN_VERSION as u64).as_str());
    out.push_str(
        "). Regenerate with `diff --plan-out` and review the new plan — an older plan carries no evidence this binary can check.",
    );
    Err(out)
}

/// What is wrong with the contents of a plan: its version, or else the
/// operations that carry no evidence, one line each.
pub open spec fn content_problem(plan: PlanFile) -> Option<Seq<char>> {
    match version_problem(plan.version) {
        Some(m) => Some(m),
        None => if op_problems(views(plan.ops@)).len() == 0 {
            None
        } else {
            Some(join(op_problems(views(plan.ops@)), "\n"@))
        },
    }
}

impl PlanFile {
    /// The plan of a summary, generated now by this version of the tool.
    pub fn from_summary(
        summary: &DiffSummary,
        environment: &str,
        api_endpoint: &str,
        resource: Option<ResourceKind>,
        name: Option<String>,
        generated_at: Moment,
        braze_sync_version: &str,
    ) -> (r: Self)
        ensures
            r.version == CURRENT_PLAN_VERSION,
            r.generated_at == generated_at,
            r.braze_sync_version@ == braze_sync_version@,
            r.scope.environment@ == environment@,
            r.scope.api_endpoint@ == api_endpoint@,
            r.scope.resource == resource,
            r.scope.name == name,
            stable_sort_of::<PlanOp>(planned(summary@), views(r.ops@)),
            op_problems(views(r.ops@)).len() == 0,
    {
        let ops = collect_ops(summary);
        proof {
            assert forall|i: int| 0 <= i < ops@.len() implies op_problem(
                #[trigger] views(ops@)[i],
            ) is None by {
                assert(views(ops@)[i] == ops@[i]@);
            }
            lemma_no_problems(views(ops@));
        }
        PlanFile {
            version: CURRENT_PLAN_VERSION,
            generated_at,
            braze_sync_version: owned(braze_sync_version),
            scope: PlanScope {
                environment: owned(environment),
                api_endpoint: owned(api_endpoint),
                resource,
                name,
            },
            ops,
        }
    }

    /// Compares the saved operations with fresh ones, whatever their order,
    /// and then the preconditions of those that have the same shape.
    pub fn diff_ops(&self, fresh: &Vec<PlanOp>) -> (r: PlanOpsDiff)
        ensures
            is_ops_diff(views(self.ops@), views(fresh@), r@),
    {
        compare_ops(&self.ops, fresh)
    }

    /// Rejects a plan this binary cannot check: an operation that overwrites
    /// a remote body without evidence about it is malformed, never unchecked.
    pub fn validate(&self) -> (r: Result<(), Vec<String>>)
        ensures
            match r {
                Ok(_) => op_problems(views(self.ops@)).len() == 0,
                Err(p) => p@.len() > 0 && strs(p@) == op_problems(views(self.ops@)),
            },
    {
        let ghost ops = views(self.ops@);
        let mut problems: Vec<String> = Vec::new();
        let mut i: usize = 0;
        assert(strs(problems@) =~= op_problems(ops.take(0)));
        while i < self.ops.len()
            invariant
                i <= self.ops@.len(),
                ops == views(self.ops@),
                strs(problems@) == op_problems(ops.take(i as int)),
            decreases self.ops@.len() - i,
        {
            let ghost before = problems@;
            proof {
                assert(ops.take(i + 1).drop_last() =~= ops.take(i as int));
                assert(ops.take(i + 1).last() == self.ops@[i as int]@);
            }
            if let Some(p) = check_op(&self.ops[i]) {
                problems.push(p);
                assert(strs(problems@) =~= strs(before).push(problems@.last()@));
            }
            i = i + 1;
        }
        assert(ops.take(i as int) =~= ops);
        assert(strs(problems@).len() == problems@.len());
        if problems.len() == 0 {
            Ok(())
        } else {
            Err(problems)
        }
    }

    /// Rejects a plan whose contents this binary cannot check.
    pub fn check_contents(&self) -> (r: Result<(), String>)
        ensures
            match r {
                Ok(_) => content_problem(*self) is None,
                Err(e) => content_problem(*self) == Some(e@),
            },
    {
        match check_version(self.version) {
            Err(m) => Err(m),
            Ok(_) => match self.validate() {
                Ok(_) => Ok(()),
                Err(problems) => Err(join_text(&problems, "\n")),
            },
        }
    }
}

proof fn lemma_no_problems(ops: Seq<PlanOpView>)
    requires
        forall|i: int| 0 <= i < ops.len() ==> op_problem(#[trigger] ops[i]) is None,
    ensures
        op_problems(ops).len() == 0,
    decreases ops.len(),
{
    if ops.len() > 0 {
        let p = ops.drop_last();
        assert forall|i: int| 0 <= i < p.len() implies op_problem(#[trigger] p[i]) is None by {
            assert(p[i] == ops[i]);
        }
        lemma_no_problems(p);
        assert(op_problem(ops[ops.len() - 1]) is None);
    }
}

proof fn lemma_no_self_drift(s: Seq<PlanOpView>)
    ensures
        paired_drift(s, s).len() == 0,
    decreases s.len(),
{
    if s.len() > 0 {
        lemma_no_self_drift(s.drop_first());
    }
}

/// Where nothing of any shape is left, nothing is left.
proof fn lemma_nothing_tied(s: Seq<PlanOpView>)
    requires
        forall|k: PlanOpView| (#[trigger] tied_with::<PlanOp>(s, k)).len() == 0,
    ensures
        s.len() == 0,
{
    if s.len() > 0 {
        let x = s[0];
        let f = |y: PlanOpView| tied::<PlanOp>(y, x);
        PlanOp::lt_irreflexive(x);
        broadcast use vstd::seq_lib::group_filter_ensures;

        assert(f(s[0]));
        assert(s.filter(f).contains(s[0]));
        assert(tied_with::<PlanOp>(s, x).len() == 0);
    }
}

proof fn lemma_no_drifts(s: Seq<PreconditionDriftView>)
    requires
        forall|k: PlanOpView| (#[trigger] drifts_of(s, k)).len() == 0,
    ensures
        s.len() == 0,
{
    if s.len() > 0 {
        let x = s[0].op;
        let f = |y: PreconditionDriftView| tied::<PlanOp>(y.op, x);
        PlanOp::lt_irreflexive(x);
        broadcast use vstd::seq_lib::group_filter_ensures;

        assert(f(s[0]));
        assert(s.filter(f).contains(s[0]));
        assert(drifts_of(s, x).len() == 0);
    }
}

/// A saved plan matches exactly when, of every shape, there are as many
/// operations on both sides and no pair of them disagrees about the remote.
pub proof fn match_means_same_ops(
    saved: Seq<PlanOpView>,
    fresh: Seq<PlanOpView>,
    d: PlanOpsDiffView,
)
    requires
        is_ops_diff(saved, fresh, d),
    ensures
        d.matches() <==> forall|k: PlanOpView|
            #![trigger tied_with::<PlanOp>(saved, k)]
            tied_with::<PlanOp>(saved, k).len() == tied_with::<PlanOp>(fresh, k).len()
                && paired_drift(
                tied_with::<PlanOp>(saved, k),
                tied_with::<PlanOp>(fresh, k),
            ).len() == 0,
{
    if d.matches() {
        assert forall|k: PlanOpView|
            #![trigger tied_with::<PlanOp>(saved, k)]
            tied_with::<PlanOp>(saved, k).len() == tied_with::<PlanOp>(fresh, k).len()
                && paired_drift(
                tied_with::<PlanOp>(saved, k),
                tied_with::<PlanOp>(fresh, k),
            ).len() == 0 by {
            reveal(Seq::filter);
            assert(tied_with::<PlanOp>(d.missing, k).len() == 0);
            assert(tied_with::<PlanOp>(d.extra, k).len() == 0);
            assert(drifts_of(d.precondition_drift, k).len() == 0);
        }
    }
    if forall|k: PlanOpView|
        #![trigger tied_with::<PlanOp>(saved, k)]
        tied_with::<PlanOp>(saved, k).len() == tied_with::<PlanOp>(fresh, k).len()
            && paired_drift(tied_with::<PlanOp>(saved, k), tied_with::<PlanOp>(fresh, k)).len()
            == 0 {
        assert forall|k: PlanOpView| (#[trigger] tied_with::<PlanOp>(d.missing, k)).len() == 0 by {
            assert(tied_with::<PlanOp>(saved, k).len() == tied_with::<PlanOp>(fresh, k).len());
        }
        assert forall|k: PlanOpView| (#[trigger] tied_with::<PlanOp>(d.extra, k)).len() == 0 by {
            assert(tied_with::<PlanOp>(saved, k).len() == tied_with::<PlanOp>(fresh, k).len());
        }
        assert forall|k: PlanOpView| (#[trigger] drifts_of(d.precondition_drift, k)).len()
            == 0 by {
            assert(tied_with::<PlanOp>(saved, k).len() == tied_with::<PlanOp>(fresh, k).len());
        }
        lemma_nothing_tied(d.missing);
        lemma_nothing_tied(d.extra);
        lemma_no_drifts(d.precondition_drift);
    }
}

/// A plan matches the operations it was made of.
pub proof fn plan_matches_itself(ops: Seq<PlanOpView>, d: PlanOpsDiffView)
    requires
        is_ops_diff(ops, ops, d),
    ensures
        d.matches(),
{
    match_means_same_ops(ops, ops, d);
    assert forall|k: PlanOpView|
        #![trigger tied_with::<PlanOp>(ops, k)]
        paired_drift(tied_with::<PlanOp>(ops, k), tied_with::<PlanOp>(ops, k)).len() == 0 by {
        lemma_no_self_drift(tied_with::<PlanOp>(ops, k));
    }
}

/// A plan and fresh operations that were collected from diffs with the same
/// operations match.
pub proof fn unchanged_world_matches_plan(
    diffs: Seq<ResourceDiffView>,
    saved: Seq<PlanOpView>,
    fresh: Seq<PlanOpView>,
    d: PlanOpsDiffView,
)
    requires
        stable_sort_of::<PlanOp>(planned(diffs), saved),
        stable_sort_of::<PlanOp>(planned(diffs), fresh),
        is_ops_diff(saved, fresh, d),
    ensures
        d.matches(),
{
    crate::order::lemma_stable_sort_unique::<PlanOp>(planned(diffs), saved, fresh);
    plan_matches_itself(saved, d);
}

/// No two operations have the same shape.
pub open spec fn distinct_shapes(s: Seq<PlanOpView>) -> bool {
    forall|i: int, j: int|
        0 <= i < j < s.len() ==> !same_shape(#[trigger] s[i], #[trigger] s[j])
}

proof fn lemma_tied_single(s: Seq<PlanOpView>, k: PlanOpView)
    requires
        distinct_shapes(s),
    ensures
        tied_with::<PlanOp>(s, k).len() <= 1,
        tied_with::<PlanOp>(s, k).len() == 1 ==> s.contains(tied_with::<PlanOp>(s, k)[0])
            && same_shape(tied_with::<PlanOp>(s, k)[0], k),
        forall|x: PlanOpView|
            s.contains(x) && same_shape(x, k) ==> tied_with::<PlanOp>(s, k) == seq![x],
    decreases s.len(),
{
    reveal(Seq::filter);
    if s.len() > 0 {
        let p = s.drop_last();
        let x = s.last();
        assert forall|i: int, j: int| 0 <= i < j < p.len() implies !same_shape(
            #[trigger] p[i],
            #[trigger] p[j],
        ) by {
            assert(p[i] == s[i] && p[j] == s[j]);
        }
        lemma_tied_single(p, k);
        lemma_tied_is_same_shape(x, k);
        let before = tied_with::<PlanOp>(p, k);
        let after = tied_with::<PlanOp>(s, k);
        if before.len() == 1 {
            let y = before[0];
            let i = choose|i: int| 0 <= i < p.len() && p[i] == y;
            assert(s[i] == y);
            assert(!same_shape(s[i], s[s.len() - 1]));
            assert(!same_shape(x, k));
            assert(after == before);
        } else {
            assert(before =~= Seq::empty());
            if same_shape(x, k) {
                assert(after =~= seq![x]);
                assert(s[s.len() - 1] == x);
            }
        }
        assert forall|z: PlanOpView| s.contains(z) && same_shape(z, k) implies after == seq![z] by {
            let i = choose|i: int| 0 <= i < s.len() && s[i] == z;
            if i < p.len() {
                assert(p[i] == z);
                assert(p.contains(z));
            } else {
                assert(z == x);
            }
        }
    } else {
        assert(tied_with::<PlanOp>(s, k) =~= Seq::empty());
    }
}

/// The order of the operations does not matter: a saved plan with its
/// operations rearranged compares in the same way.
pub proof fn op_order_does_not_matter(
    saved: Seq<PlanOpView>,
    rearranged: Seq<PlanOpView>,
    fresh: Seq<PlanOpView>,
    d: PlanOpsDiffView,
)
    requires
        distinct_shapes(saved),
        distinct_shapes(rearranged),
        saved.to_multiset() == rearranged.to_multiset(),
        is_ops_diff(saved, fresh, d),
    ensures
        is_ops_diff(rearranged, fresh, d),
{
    assert forall|k: PlanOpView| tied_with::<PlanOp>(saved, k) == tied_with::<PlanOp>(
        rearranged,
        k,
    ) by {
        lemma_tied_single(saved, k);
        lemma_tied_single(rearranged, k);
        let a = tied_with::<PlanOp>(saved, k);
        let b = tied_with::<PlanOp>(rearranged, k);
        if a.len() == 1 {
            vstd::seq_lib::to_multiset_contains(saved, a[0]);
            vstd::seq_lib::to_multiset_contains(rearranged, a[0]);
            assert(rearranged.contains(a[0]));
            assert(a =~= seq![a[0]]);
        } else if b.len() == 1 {
            vstd::seq_lib::to_multiset_contains(saved, b[0]);
            vstd::seq_lib::to_multiset_contains(rearranged, b[0]);
            assert(saved.contains(b[0]));
        } else {
            assert(a =~= b);
        }
    }
    assert forall|k: PlanOpView| #[trigger] tied_with::<PlanOp>(d.missing, k) == surplus(
        tied_with::<PlanOp>(rearranged, k),
        tied_with::<PlanOp>(fresh, k),
    ) by {
        assert(tied_with::<PlanOp>(saved, k) == tied_with::<PlanOp>(rearranged, k));
    }
    assert forall|k: PlanOpView| #[trigger] tied_with::<PlanOp>(d.extra, k) == surplus(
        tied_with::<PlanOp>(fresh, k),
        tied_with::<PlanOp>(rearranged, k),
    ) by {
        assert(tied_with::<PlanOp>(saved, k) == tied_with::<PlanOp>(rearranged, k));
    }
    assert forall|k: PlanOpView| #[trigger] drifts_of(d.precondition_drift, k) == paired_drift(
        tied_with::<PlanOp>(rearranged, k),
        tied_with::<PlanOp>(fresh, k),
    ) by {
        assert(tied_with::<PlanOp>(saved, k) == tied_with::<PlanOp>(rearranged, k));
    }
}

/// A remote that moved under an operation is drift: where a saved and a fresh
/// operation of one shape carry different preconditions, the plan does not
/// match.
pub proof fn moved_remote_is_drift(
    saved: Seq<PlanOpView>,
    fresh: Seq<PlanOpView>,
    s: PlanOpView,
    f: PlanOpView,
    d: PlanOpsDiffView,
)
    requires
        distinct_shapes(saved),
        distinct_shapes(fresh),
        saved.contains(s),
        fresh.contains(f),
        same_shape(s, f),
        s.precondition is Some,
        f.precondition is Some,
        s.precondition != f.precondition,
        is_ops_diff(saved, fresh, d),
    ensures
        !d.matches(),
        d.precondition_drift.contains(
            PreconditionDriftView {
                op: s,
                expected: s.precondition->0,
                found: f.precondition->0,
            },
        ),
{
    lemma_tied_single(saved, s);
    lemma_tied_single(fresh, s);
    let drift = PreconditionDriftView {
        op: s,
        expected: s.precondition->0,
        found: f.precondition->0,
    };
    assert(tied_with::<PlanOp>(saved, s) == seq![s]);
    assert(tied_with::<PlanOp>(fresh, s) == seq![f]);
    reveal_with_fuel(paired_drift, 2);
    assert(paired_drift(seq![s], seq![f]) =~= seq![drift]);
    assert(drifts_of(d.precondition_drift, s) == seq![drift]);
    assert(seq![drift][0] == drift);
    assert(drifts_of(d.precondition_drift, s).contains(drift));
    let g = |x: PreconditionDriftView| tied::<PlanOp>(x.op, s);
    d.precondition_drift.lemma_filter_contains_rev(g, drift);
}

/// What is at the place where a plan is to be written.
#[derive(Debug, Clone, Copy, PartialEq, Eq, Structural)]
pub enum Destination {
    /// Nothing, or a link to nothing.
    Absent,
    /// A device, pipe or socket.
    Stream,
    /// A file or directory.
    File,
    /// It could not be found out.
    Unknown,
}

/// How a plan is written.
#[derive(Debug, Clone, Copy, PartialEq, Eq, Structural)]
pub enum WriteRoute {
    /// A new file is moved to the place that was named.
    Replace,
    /// A new file is moved to the place that a link points at, so that the
    /// link stays.
    ReplaceTarget,
    /// Written to what is there.
    Through,
    /// Not at all: the error is passed on.
    Fail,
}

/// Decides how a plan is written. A stream is never replaced: moving a file
/// there would put an end to it. A link stays where its target is known for
/// sure.
pub fn write_route(destination: Destination, is_symlink: bool, target_agrees: bool) -> (r:
    WriteRoute)
    ensures
        r == match destination {
            Destination::Absent => WriteRoute::Replace,
            Destination::Unknown => WriteRoute::Fail,
            Destination::Stream => WriteRoute::Through,
            Destination::File => if !is_symlink {
                WriteRoute::Replace
            } else if target_agrees {
                WriteRoute::ReplaceTarget
            } else {
                WriteRoute::Through
            },
        },
{
    match destination {
        Destination::Absent => WriteRoute::Replace,
        Destination::Unknown => WriteRoute::Fail,
        Destination::Stream => WriteRoute::Through,
        Destination::File => if !is_symlink {
            WriteRoute::Replace
        } else if target_agrees {
            WriteRoute::ReplaceTarget
        } else {
            WriteRoute::Through
        },
    }
}

/// How often a name for the temporary file is tried.
pub const TEMP_NAME_ATTEMPTS: u32 = 8;

/// The directory of the temporary file: that of the plan, which for a bare
/// file name is the current one. A path that has no parent names no file.
pub fn temp_sibling_dir(path: &str, parent: Option<&str>) -> (r: Result<String, String>)
    ensures
        match parent {
            Some(p) => r matches Ok(d) && d@ == if p@.len() == 0 {
                "."@
            } else {
                p@
            },
            None => r matches Err(m) && m@ == path@ + " has no parent directory"@,
        },
{
    match parent {
        Some(p) => if p.is_empty() {
            Ok(owned("."))
        } else {
            Ok(owned(p))
        },
        None => {
            let mut m = owned(path);
            m.push_str(" has no parent directory");
            Err(m)
        },
    }
}

/// The digit for a number below sixteen.
pub open spec fn hex_digit(d: nat) -> char {
    if d < 10 {
        (48 + d) as u8 as char
    } else {
        (87 + d) as u8 as char
    }
}

/// The last digits of a number to base sixteen.
pub open spec fn hex(n: nat, width: nat) -> Seq<char>
    decreases width,
{
    if width == 0 {
        Seq::empty()
    } else {
        hex(n / 16, (width - 1) as nat).push(hex_digit(n % 16))
    }
}

fn hex_text(n: u64, width: u32) -> (r: String)
    ensures
        r@ == hex(n as nat, width as nat),
    decreases width,
{
    if width == 0 {
        return String::new();
    }
    let mut out = hex_text(n / 16, width - 1);
    let d: u8 = (n % 16) as u8;
    let c: char = if d < 10 {
        (48u8 + d) as char
    } else {
        (87u8 + d) as char
    };
    out.push(c);
    out
}

/// The name of the temporary file of a plan, given a number drawn at random.
pub fn plan_temp_name(file_name: &str, process_id: u32, drawn: u64) -> (r: String)
    ensures
        r@ == file_name@ + ".tmp."@ + decimal(process_id as nat) + "."@ + hex(drawn as nat, 16),
{
    let mut out = owned(file_name);
    out.push_str(".tmp.");
    out.push_str(decimal_text(process_id as u64).as_str());
    out.push_str(".");
    out.push_str(hex_text(drawn, 16).as_str());
    out
}

/// No two of the diffs are of the same resource.
pub open spec fn one_diff_each(diffs: Seq<ResourceDiffView>) -> bool {
    forall|i: int, j: int|
        0 <= i < j < diffs.len() ==> (#[trigger] diffs[i]).kind() != (#[trigger] diffs[j]).kind()
            || diffs[i].name() != diffs[j].name()
}

/// The operation of a diff that has one.
spec fn op_of(d: ResourceDiffView) -> PlanOpView {
    PlanOpView {
        kind: d.kind(),
        name: d.name(),
        op: classification(d).unwrap().0,
        precondition: classification(d).unwrap().1,
    }
}

/// The operations of diffs come from the diffs, and no two have the same shape
/// where each resource has one diff.
proof fn lemma_planned(diffs: Seq<ResourceDiffView>)
    requires
        one_diff_each(diffs),
    ensures
        distinct_shapes(planned(diffs)),
        forall|i: int|
            0 <= i < diffs.len() && classification(#[trigger] diffs[i]) is Some ==> planned(
                diffs,
            ).contains(op_of(diffs[i])),
        forall|x: PlanOpView| #[trigger]
            planned(diffs).contains(x) ==> exists|i: int|
                0 <= i < diffs.len() && classification(#[trigger] diffs[i]) is Some && op_of(
                    diffs[i],
                ) == x,
    decreases diffs.len(),
{
    if diffs.len() > 0 {
        let p = diffs.drop_last();
        let d = diffs.last();
        let n = diffs.len() - 1;
        assert forall|i: int, j: int| 0 <= i < j < p.len() implies (#[trigger] p[i]).kind() != (
        #[trigger] p[j]).kind() || p[i].name() != p[j].name() by {
            assert(p[i] == diffs[i] && p[j] == diffs[j]);
        }
        lemma_planned(p);
        let before = planned(p);
        let after = planned(diffs);
        if classification(d) is Some {
            assert(after == before.push(op_of(d)));
            assert(after[after.len() - 1] == op_of(d));
            assert forall|i: int, j: int| 0 <= i < j < after.len() implies !same_shape(
                #[trigger] after[i],
                #[trigger] after[j],
            ) by {
                if j < before.len() {
                    assert(before[i] == after[i] && before[j] == after[j]);
                } else {
                    assert(before.contains(before[i]));
                    let k = choose|k: int|
                        0 <= k < p.len() && classification(#[trigger] p[k]) is Some && op_of(p[k])
                            == before[i];
                    assert(diffs[k] == p[k] && diffs[n] == d);
                }
            }
        } else {
            assert(after == before);
        }
        assert forall|i: int|
            0 <= i < diffs.len() && classification(#[trigger] diffs[i]) is Some implies after.contains(
            op_of(diffs[i]),
        ) by {
            if i < n {
                assert(p[i] == diffs[i]);
                let k = choose|k: int| 0 <= k < before.len() && before[k] == op_of(p[i]);
                assert(after[k] == op_of(diffs[i]));
            }
        }
        assert forall|x: PlanOpView| #[trigger] after.contains(x) implies exists|i: int|
            0 <= i < diffs.len() && classification(#[trigger] diffs[i]) is Some && op_of(diffs[i])
                == x by {
            if before.contains(x) {
                let k = choose|k: int|
                    0 <= k < p.len() && classification(#[trigger] p[k]) is Some && op_of(p[k])
                        == x;
                assert(diffs[k] == p[k]);
            } else {
                let k = choose|k: int| 0 <= k < after.len() && after[k] == x;
                if k < before.len() {
                    assert(before[k] == x);
                }
                assert(diffs[n] == d);
            }
        }
    }
}

/// What a saved and a fresh list say about the operation of a diff.
proof fn lemma_held_to_plan(
    then: Seq<ResourceDiffView>,
    now: Seq<ResourceDiffView>,
    saved: Seq<PlanOpView>,
    fresh: Seq<PlanOpView>,
    d: PlanOpsDiffView,
    i: int,
)
    requires
        one_diff_each(then),
        one_diff_each(now),
        stable_sort_of::<PlanOp>(planned(then), saved),
        stable_sort_of::<PlanOp>(planned(now), fresh),
        is_ops_diff(saved, fresh, d),
        0 <= i < then.len(),
        classification(then[i]) is Some,
        d.matches(),
    ensures
        exists|j: int|
            0 <= j < now.len() && (#[trigger] now[j]).kind() == then[i].kind() && now[j].name()
                == then[i].name() && classification(now[j]) is Some && classification(now[j]).unwrap().0
                == classification(then[i]).unwrap().0 && (classification(now[j]).unwrap().1 is Some
                && classification(then[i]).unwrap().1 is Some ==> classification(now[j]).unwrap().1
                == classification(then[i]).unwrap().1),
{
    lemma_planned(then);
    lemma_planned(now);
    let s = op_of(then[i]);
    lemma_tied_single(planned(then), s);
    lemma_tied_single(planned(now), s);
    assert(tied_with::<PlanOp>(saved, s) == seq![s]);
    match_means_same_ops(saved, fresh, d);
    let f = tied_with::<PlanOp>(fresh, s);
    assert(f == tied_with::<PlanOp>(planned(now), s));
    assert(f.len() == 1);
    let x = f[0];
    assert(planned(now).contains(x) && same_shape(x, s));
    let j = choose|j: int|
        0 <= j < now.len() && classification(#[trigger] now[j]) is Some && op_of(now[j]) == x;
    assert(f =~= seq![x]);
    reveal_with_fuel(paired_drift, 2);
    assert(paired_drift(seq![s], seq![x]) =~= pair_drift(s, x));
    assert(now[j].kind() == then[i].kind());
}

/// A template that moved in Braze stops a run that is bound to a plan: where
/// it was to be updated when the plan was made, and what Braze holds is since
/// different to the diff, the plan no longer matches. Digests are taken to
/// tell the two apart.
pub proof fn moved_template_is_refused(
    then: Seq<ResourceDiffView>,
    now: Seq<ResourceDiffView>,
    saved: Seq<PlanOpView>,
    fresh: Seq<PlanOpView>,
    d: PlanOpsDiffView,
    i: int,
    j: int,
)
    requires
        one_diff_each(then),
        one_diff_each(now),
        stable_sort_of::<PlanOp>(planned(then), saved),
        stable_sort_of::<PlanOp>(planned(now), fresh),
        is_ops_diff(saved, fresh, d),
        0 <= i < then.len(),
        0 <= j < now.len(),
        then[i] is EmailTemplate && !then[i]->EmailTemplate_0.orphan
            && then[i]->EmailTemplate_0.op is Modified,
        now[j] is EmailTemplate && !now[j]->EmailTemplate_0.orphan
            && now[j]->EmailTemplate_0.op is Modified,
        then[i]->EmailTemplate_0.name == now[j]->EmailTemplate_0.name,
        ({
            let seen = then[i]->EmailTemplate_0.op->from;
            let found = now[j]->EmailTemplate_0.op->from;
            &&& !crate::diff::email_template::syncable_eq(seen, found)
            &&& digest::fits(email_template_texts(seen))
            &&& digest::fits(email_template_texts(found))
            &&& blake3_hex(fields(email_template_texts(seen))) == blake3_hex(
                fields(email_template_texts(found)),
            ) ==> fields(email_template_texts(seen)) == fields(email_template_texts(found))
        }),
    ensures
        !d.matches(),
{
    let seen = then[i]->EmailTemplate_0.op->from;
    let found = now[j]->EmailTemplate_0.op->from;
    digest::email_template_projection_matches_diff(seen, found);
    if d.matches() {
        lemma_held_to_plan(then, now, saved, fresh, d, i);
        lemma_only_diff(now, j);
    }
}

/// A block that moved in Braze stops a run that is bound to a plan.
pub proof fn moved_block_is_refused(
    then: Seq<ResourceDiffView>,
    now: Seq<ResourceDiffView>,
    saved: Seq<PlanOpView>,
    fresh: Seq<PlanOpView>,
    d: PlanOpsDiffView,
    i: int,
    j: int,
)
    requires
        one_diff_each(then),
        one_diff_each(now),
        stable_sort_of::<PlanOp>(planned(then), saved),
        stable_sort_of::<PlanOp>(planned(now), fresh),
        is_ops_diff(saved, fresh, d),
        0 <= i < then.len(),
        0 <= j < now.len(),
        then[i] is ContentBlock && !then[i]->ContentBlock_0.orphan
            && then[i]->ContentBlock_0.op is Modified,
        now[j] is ContentBlock && !now[j]->ContentBlock_0.orphan
            && now[j]->ContentBlock_0.op is Modified,
        then[i]->ContentBlock_0.name == now[j]->ContentBlock_0.name,
        ({
            let seen = then[i]->ContentBlock_0.op->from;
            let found = now[j]->ContentBlock_0.op->from;
            &&& !crate::diff::content_block::syncable_eq(seen, found)
            &&& digest::fits(content_block_texts(seen))
            &&& digest::fits(content_block_texts(found))
            &&& blake3_hex(fields(content_block_texts(seen))) == blake3_hex(
                fields(content_block_texts(found)),
            ) ==> fields(content_block_texts(seen)) == fields(content_block_texts(found))
        }),
    ensures
        !d.matches(),
{
    let seen = then[i]->ContentBlock_0.op->from;
    let found = now[j]->ContentBlock_0.op->from;
    digest::content_block_projection_matches_diff(seen, found);
    if d.matches() {
        lemma_held_to_plan(then, now, saved, fresh, d, i);
        lemma_only_diff(now, j);
    }
}

/// A catalog whose fields moved in Braze stops a run that is bound to a plan,
/// be it updated or deleted.
pub proof fn moved_catalog_is_refused(
    then: Seq<ResourceDiffView>,
    now: Seq<ResourceDiffView>,
    saved: Seq<PlanOpView>,
    fresh: Seq<PlanOpView>,
    d: PlanOpsDiffView,
    i: int,
    j: int,
    seen: CatalogView,
    found: CatalogView,
)
    requires
        one_diff_each(then),
        one_diff_each(now),
        stable_sort_of::<PlanOp>(planned(then), saved),
        stable_sort_of::<PlanOp>(planned(now), fresh),
        is_ops_diff(saved, fresh, d),
        0 <= i < then.len(),
        0 <= j < now.len(),
        then[i] matches ResourceDiffView::CatalogSchema(c) && match c.op {
            DiffOp::Modified { from, to } => from == seen,
            DiffOp::Removed(gone) => gone == seen,
            _ => false,
        },
        now[j] matches ResourceDiffView::CatalogSchema(c) && match c.op {
            DiffOp::Modified { from, to } => from == found,
            DiffOp::Removed(gone) => gone == found,
            _ => false,
        },
        then[i]->CatalogSchema_0.name == now[j]->CatalogSchema_0.name,
        crate::diff::catalog::field_ops(seen.fields, found.fields).len() > 0,
        digest::fits(catalog_texts(seen)),
        digest::fits(catalog_texts(found)),
        blake3_hex(fields(catalog_texts(seen))) == blake3_hex(fields(catalog_texts(found)))
            ==> fields(catalog_texts(seen)) == fields(catalog_texts(found)),
    ensures
        !d.matches(),
{
    digest::catalog_projection_matches_diff(seen, found);
    if d.matches() {
        lemma_held_to_plan(then, now, saved, fresh, d, i);
        lemma_only_diff(now, j);
    }
}

proof fn lemma_only_diff(diffs: Seq<ResourceDiffView>, j: int)
    requires
        one_diff_each(diffs),
        0 <= j < diffs.len(),
    ensures
        forall|k: int|
            0 <= k < diffs.len() && (#[trigger] diffs[k]).kind() == diffs[j].kind()
                && diffs[k].name() == diffs[j].name() ==> k == j,
{
    assert forall|k: int|
        0 <= k < diffs.len() && (#[trigger] diffs[k]).kind() == diffs[j].kind() && diffs[k].name()
            == diffs[j].name() implies k == j by {
        if k < j {
            assert(diffs[k].kind() != diffs[j].kind() || diffs[k].name() != diffs[j].name());
        } else if j < k {
            assert(diffs[j].kind() != diffs[k].kind() || diffs[j].name() != diffs[k].name());
        }
    }
}

/// A plan holds through local edits: an update of the same resource whose
/// remote side is the same presupposes the same, whatever is to be written.
pub proof fn local_edits_do_not_move_a_plan(a: ResourceDiffView, b: ResourceDiffView)
    requires
        match (a, b) {
            (ResourceDiffView::EmailTemplate(x), ResourceDiffView::EmailTemplate(y)) => !x.orphan
                && !y.orphan && x.op is Modified && y.op is Modified && x.op->from == y.op->from,
            (ResourceDiffView::ContentBlock(x), ResourceDiffView::ContentBlock(y)) => !x.orphan
                && !y.orphan && x.op is Modified && y.op is Modified && x.op->from == y.op->from,
            (ResourceDiffView::CatalogSchema(x), ResourceDiffView::CatalogSchema(y)) =>
                x.op is Modified && y.op is Modified && x.op->from == y.op->from && x.field_diffs
                == y.field_diffs,
            _ => false,
        },
    ensures
        classification(a) == classification(b),
        classification(a) is Some,
        classification(a).unwrap().1 matches Some(PreconditionView::Digest(_)),
{
}

/// An operation that a plan has is drift once there is no diff of the same
/// resource that asks for it.
pub proof fn vanished_operation_is_refused(
    then: Seq<ResourceDiffView>,
    now: Seq<ResourceDiffView>,
    saved: Seq<PlanOpView>,
    fresh: Seq<PlanOpView>,
    d: PlanOpsDiffView,
    i: int,
)
    requires
        one_diff_each(then),
        one_diff_each(now),
        stable_sort_of::<PlanOp>(planned(then), saved),
        stable_sort_of::<PlanOp>(planned(now), fresh),
        is_ops_diff(saved, fresh, d),
        0 <= i < then.len(),
        then[i].is_actionable() || then[i].is_orphan(),
        then[i] matches ResourceDiffView::CatalogSchema(c) ==> c.op !is Unchanged,
        then[i] matches ResourceDiffView::ContentBlock(c) ==> c.op !is Removed,
        then[i] matches ResourceDiffView::EmailTemplate(c) ==> c.op !is Removed && (c.op
            is Unchanged ==> c.orphan),
        forall|j: int|
            0 <= j < now.len() && (#[trigger] now[j]).kind() == then[i].kind() && now[j].name()
                == then[i].name() ==> !now[j].is_actionable() && !now[j].is_orphan(),
    ensures
        !d.matches(),
{
    if d.matches() {
        lemma_held_to_plan(then, now, saved, fresh, d, i);
    }
}

/// The operations of a plan are those that `apply` writes, and the orphans:
/// what is new presupposes that it is not there, what loses data is marked as
/// such, and a flag goes the way it is written.
pub proof fn plan_lists_what_apply_writes(d: ResourceDiffView)
    ensures
        classification(d) matches Some((op, p)) ==> d.is_actionable() || d.is_orphan(),
        d.is_orphan() ==> classification(d) == Some(
            (PlanOpType::Orphan, None::<PreconditionView>),
        ),
        classification(d) matches Some((op, p)) && op == PlanOpType::Orphan ==> d.is_orphan(),
        d matches ResourceDiffView::CatalogSchema(c) ==> match c.op {
            DiffOp::Added(_) => classification(d) == Some(
                (PlanOpType::Add, Some(PreconditionView::Absent)),
            ),
            DiffOp::Unchanged => classification(d) is None,
            _ => classification(d) matches Some((op, Some(PreconditionView::Digest(h)))) && op == (
            if d.has_destructive() {
                PlanOpType::DestructiveDelete
            } else {
                PlanOpType::Modify
            }),
        },
        d matches ResourceDiffView::ContentBlock(c) ==> (c.op is Added && !c.orphan
            ==> classification(d) == Some((PlanOpType::Add, Some(PreconditionView::Absent)))) && (
        c.op is Modified && !c.orphan ==> (classification(d) matches Some((op, p)) && op
            == PlanOpType::Modify && p matches Some(PreconditionView::Digest(h)))),
        d matches ResourceDiffView::EmailTemplate(c) ==> (c.op is Added && !c.orphan
            ==> classification(d) == Some((PlanOpType::Add, Some(PreconditionView::Absent)))) && (
        c.op is Modified && !c.orphan ==> (classification(d) matches Some((op, p)) && op
            == PlanOpType::Modify && p matches Some(PreconditionView::Digest(h)))),
        d matches ResourceDiffView::CustomAttribute(c) ==> match c.op {
            CustomAttributeOp::DeprecationToggled { from, to } => classification(d) == Some(
                (
                    if to {
                        PlanOpType::Deprecate
                    } else {
                        PlanOpType::Reactivate
                    },
                    None::<PreconditionView>,
                ),
            ),
            _ => classification(d) is None,
        },
        d is Tag ==> classification(d) is None,
{
}

/// Only an operation that overwrites nothing may come without evidence: one
/// that adds must presuppose absence, one that overwrites or deletes must name
/// a digest of 64 lowercase hexadecimal characters, and the others must name
/// nothing.
pub proof fn evidence_is_required(op: PlanOpView)
    ensures
        op_problem(op) is None <==> match op.op {
            PlanOpType::Add => op.precondition == Some(PreconditionView::Absent),
            PlanOpType::Modify | PlanOpType::DestructiveDelete => op.precondition matches Some(
                PreconditionView::Digest(h),
            ) && h.len() == 64 && forall|i: int|
                0 <= i < 64 ==> ('0' <= #[trigger] h[i] <= '9' || 'a' <= h[i] <= 'f'),
            PlanOpType::Orphan | PlanOpType::Deprecate | PlanOpType::Reactivate => op.precondition
                is None,
        },
{
}

/// A plan passes its check exactly where its version is the current one and
/// each of its operations carries its evidence.
pub proof fn checked_plan_carries_evidence(plan: PlanFile)
    ensures
        content_problem(plan) is None <==> plan.version == 2 && forall|i: int|
            0 <= i < plan.ops@.len() ==> op_problem((#[trigger] plan.ops@[i])@) is None,
{
    let ops = views(plan.ops@);
    lemma_problems_each(ops);
    assert forall|i: int| 0 <= i < ops.len() implies ops[i] == (#[trigger] plan.ops@[i])@ by {}
    if plan.version == 2 && op_problems(ops).len() == 0 {
        assert forall|i: int| 0 <= i < plan.ops@.len() implies op_problem(
            (#[trigger] plan.ops@[i])@,
        ) is None by {
            assert(ops[i] == plan.ops@[i]@);
        }
    }
}

proof fn lemma_problems_each(ops: Seq<PlanOpView>)
    ensures
        op_problems(ops).len() == 0 <==> forall|i: int|
            0 <= i < ops.len() ==> op_problem(#[trigger] ops[i]) is None,
    decreases ops.len(),
{
    if ops.len() > 0 {
        let p = ops.drop_last();
        lemma_problems_each(p);
        assert forall|i: int| 0 <= i < p.len() implies p[i] == #[trigger] ops[i] by {}
        if op_problems(ops).len() == 0 {
            assert forall|i: int| 0 <= i < ops.len() implies op_problem(
                #[trigger] ops[i],
            ) is None by {
                if i < p.len() {
                    assert(p[i] == ops[i]);
                }
            }
        }
        if forall|i: int| 0 <= i < ops.len() ==> op_problem(#[trigger] ops[i]) is None {
            assert forall|i: int| 0 <= i < p.len() implies op_problem(#[trigger] p[i]) is None by {
                assert(p[i] == ops[i]);
            }
            assert(ops[ops.len() - 1] == ops.last());
        }
    }
}

} // verus!
