//! `templatize`: rewrites raw identifiers in local files to placeholders. What
//! the rewriting of a text gives is taken as an argument here.

use crate::resource::content_block::ContentBlockView;
use crate::resource::email_template::EmailTemplateView;
use crate::resource::{ContentBlock, EmailTemplate};
use crate::text::{
    contains_text, decimal, decimal_text, is_shown, lemma_shown_between, lemma_shown_through,
    occurs_in, owned, strs,
};
use vstd::prelude::*;

verus! {

#[derive(Debug)]
pub struct TemplatizeArgs {
    /// Only say what would change.
    pub dry_run: bool,
}

/// What rewriting a text gave.
#[derive(Debug)]
pub struct Rewrite {
    pub new_body: String,
    pub lid_rewrites: usize,
    pub cb_id_rewrites: usize,
    pub warnings: Vec<String>,
}

impl Rewrite {
    /// How many identifiers were rewritten.
    pub open spec fn total(self) -> int {
        self.lid_rewrites + self.cb_id_rewrites
    }
}

/// What a run has done so far.
#[derive(Debug)]
pub struct RunSummary {
    pub touched_resources: usize,
    pub lid_rewrites: usize,
    pub cb_id_rewrites: usize,
    pub skipped: Vec<String>,
    pub warnings: Vec<String>,
}

/// What a summary is.
#[verifier::ext_equal]
pub struct RunSummaryView {
    pub touched_resources: int,
    pub lid_rewrites: int,
    pub cb_id_rewrites: int,
    pub skipped: Seq<Seq<char>>,
    pub warnings: Seq<Seq<char>>,
}

impl View for RunSummary {
    type V = RunSummaryView;

    open spec fn view(&self) -> RunSummaryView {
        RunSummaryView {
            touched_resources: self.touched_resources as int,
            lid_rewrites: self.lid_rewrites as int,
            cb_id_rewrites: self.cb_id_rewrites as int,
            skipped: strs(self.skipped@),
            warnings: strs(self.warnings@),
        }
    }
}

impl Default for RunSummary {
    fn default() -> (r: Self)
        ensures
            r@ == (RunSummaryView {
                touched_resources: 0,
                lid_rewrites: 0,
                cb_id_rewrites: 0,
                skipped: Seq::empty(),
                warnings: Seq::empty(),
            }),
    {
        let r = RunSummary {
            touched_resources: 0,
            lid_rewrites: 0,
            cb_id_rewrites: 0,
            skipped: Vec::new(),
            warnings: Vec::new(),
        };
        assert(r@.skipped =~= Seq::empty());
        assert(r@.warnings =~= Seq::empty());
        r
    }
}

/// The text holds placeholders.
pub open spec fn is_templated(text: Seq<char>) -> bool {
    occurs_in("__BRAZESYNC."@, text)
}

/// Whether the text holds placeholders.
pub fn holds_placeholder(text: &str) -> (r: bool)
    ensures
        r == is_templated(text@),
{
    contains_text(text, "__BRAZESYNC.")
}

/// Texts with something before each of them.
pub open spec fn prefixed(prefix: Seq<char>, texts: Seq<Seq<char>>) -> Seq<Seq<char>> {
    texts.map_values(|t: Seq<char>| prefix + t)
}

fn push_prefixed(out: &mut Vec<String>, prefix: &str, texts: &Vec<String>)
    ensures
        strs(final(out)@) == strs(old(out)@) + prefixed(prefix@, strs(texts@)),
{
    let ghost start = out@;
    let n: usize = out.len();
    let mut i: usize = 0;
    while i < texts.len()
        invariant
            i <= texts@.len(),
            n == start.len(),
            out@.len() == n + i,
            forall|j: int| 0 <= j < n ==> #[trigger] out@[j] == start[j],
            forall|j: int| 0 <= j < i ==> #[trigger] out@[n + j]@ == prefix@ + texts@[j]@,
        decreases texts@.len() - i,
    {
        let mut line = owned(prefix);
        line.push_str(texts[i].as_str());
        out.push(line);
        i = i + 1;
    }
    assert forall|j: int| 0 <= j < out@.len() implies strs(out@)[j] == (strs(start) + prefixed(
        prefix@,
        strs(texts@),
    ))[j] by {
        if j >= n {
            assert(out@[n + (j - n)]@ == prefix@ + texts@[j - n]@);
        }
    }
    assert(strs(out@) =~= strs(start) + prefixed(prefix@, strs(texts@)));
}

/// The summary after a content block.
pub open spec fn after_block(
    s: RunSummaryView,
    cb: ContentBlockView,
    r: Rewrite,
) -> RunSummaryView {
    if r.total() == 0 {
        if is_templated(cb.content) {
            RunSummaryView {
                skipped: s.skipped.push(
                    "content_block '"@ + cb.name + "' already templated — skipping"@,
                ),
                ..s
            }
        } else {
            s
        }
    } else {
        RunSummaryView {
            touched_resources: s.touched_resources + 1,
            lid_rewrites: s.lid_rewrites + r.lid_rewrites,
            cb_id_rewrites: s.cb_id_rewrites + r.cb_id_rewrites,
            skipped: s.skipped,
            warnings: s.warnings + prefixed(
                "content_block '"@ + cb.name + "': "@,
                strs(r.warnings@),
            ),
        }
    }
}

fn push_skip(summary: &mut RunSummary, kind: &str, name: &str)
    ensures
        final(summary)@ == (RunSummaryView {
            skipped: old(summary)@.skipped.push(
                kind@ + name@ + "' already templated — skipping"@,
            ),
            ..old(summary)@
        }),
{
    let ghost before = summary@;
    let mut line = owned(kind);
    line.push_str(name);
    line.push_str("' already templated — skipping");
    let ghost text = line@;
    summary.skipped.push(line);
    assert(summary@.skipped =~= before.skipped.push(text));
}

/// Takes a content block, given what rewriting its body gave. The block to
/// save is returned, if there is anything to save.
pub fn templatize_block(summary: &mut RunSummary, cb: ContentBlock, rewrite: Rewrite) -> (r: Option<
    ContentBlock,
>)
    requires
        old(summary).touched_resources < usize::MAX,
        rewrite.total() <= usize::MAX,
        old(summary).lid_rewrites + rewrite.lid_rewrites <= usize::MAX,
        old(summary).cb_id_rewrites + rewrite.cb_id_rewrites <= usize::MAX,
    ensures
        final(summary)@ == after_block(old(summary)@, cb@, rewrite),
        match r {
            None => rewrite.total() == 0,
            Some(b) => rewrite.total() > 0 && b@ == (ContentBlockView {
                content: rewrite.new_body@,
                ..cb@
            }),
        },
{
    if rewrite.lid_rewrites + rewrite.cb_id_rewrites == 0 {
        if holds_placeholder(cb.content.as_str()) {
            push_skip(summary, "content_block '", cb.name.as_str());
        }
        return None;
    }
    let mut prefix = owned("content_block '");
    prefix.push_str(cb.name.as_str());
    prefix.push_str("': ");
    push_prefixed(&mut summary.warnings, prefix.as_str(), &rewrite.warnings);
    summary.touched_resources = summary.touched_resources + 1;
    summary.lid_rewrites = summary.lid_rewrites + rewrite.lid_rewrites;
    summary.cb_id_rewrites = summary.cb_id_rewrites + rewrite.cb_id_rewrites;
    let mut out = cb;
    out.content = rewrite.new_body;
    Some(out)
}

/// What rewriting the texts of a template gave.
#[derive(Debug)]
pub struct TemplateRewrites {
    pub subject: Rewrite,
    pub body_html: Rewrite,
    pub body_plaintext: Rewrite,
    /// Absent where the template has no preheader.
    pub preheader: Option<Rewrite>,
}

impl TemplateRewrites {
    pub open spec fn lids(self) -> int {
        self.subject.lid_rewrites + self.body_html.lid_rewrites + self.body_plaintext.lid_rewrites
            + match self.preheader {
            Some(p) => p.lid_rewrites as int,
            None => 0,
        }
    }

    pub open spec fn cb_ids(self) -> int {
        self.subject.cb_id_rewrites + self.body_html.cb_id_rewrites
            + self.body_plaintext.cb_id_rewrites + match self.preheader {
            Some(p) => p.cb_id_rewrites as int,
            None => 0,
        }
    }
}

/// One of the texts of a template holds placeholders.
pub open spec fn template_templated(t: EmailTemplateView) -> bool {
    is_templated(t.subject) || is_templated(t.body_html) || is_templated(t.body_plaintext)
        || t.preheader is Some && is_templated(t.preheader->0)
}

/// The warnings about a template.
pub open spec fn template_warnings(name: Seq<char>, r: TemplateRewrites) -> Seq<Seq<char>> {
    let head = "email_template '"@ + name;
    prefixed(head + "' (subject): "@, strs(r.subject.warnings@)) + prefixed(
        head + "' (body_html): "@,
        strs(r.body_html.warnings@),
    ) + prefixed(head + "' (body_plaintext): "@, strs(r.body_plaintext.warnings@)) + (
    match r.preheader {
        Some(p) => prefixed(head + "' (preheader): "@, strs(p.warnings@)),
        None => Seq::empty(),
    })
}

/// The summary after an email template.
pub open spec fn after_template(
    s: RunSummaryView,
    t: EmailTemplateView,
    r: TemplateRewrites,
) -> RunSummaryView {
    if r.lids() + r.cb_ids() == 0 {
        if template_templated(t) {
            RunSummaryView {
                skipped: s.skipped.push(
                    "email_template '"@ + t.name + "' already templated — skipping"@,
                ),
                ..s
            }
        } else {
            s
        }
    } else {
        RunSummaryView {
            touched_resources: s.touched_resources + 1,
            lid_rewrites: s.lid_rewrites + r.lids(),
            cb_id_rewrites: s.cb_id_rewrites + r.cb_ids(),
            skipped: s.skipped,
            warnings: s.warnings + template_warnings(t.name, r),
        }
    }
}

/// The rewritten preheader; the old one where there is no rewriting.
pub open spec fn new_preheader(t: EmailTemplateView, r: TemplateRewrites) -> Option<Seq<char>> {
    match r.preheader {
        Some(p) => Some(p.new_body@),
        None => t.preheader,
    }
}

fn field_prefix(name: &str, field: &str) -> (r: String)
    ensures
        r@ == "email_template '"@ + name@ + field@,
{
    let mut out = owned("email_template '");
    out.push_str(name);
    out.push_str(field);
    out
}

/// Takes an email template, given what rewriting its texts gave. The template
/// to save is returned, if there is anything to save.
pub fn templatize_template(
    summary: &mut RunSummary,
    et: EmailTemplate,
    rewrites: TemplateRewrites,
) -> (r: Option<EmailTemplate>)
    requires
        old(summary).touched_resources < usize::MAX,
        rewrites.lids() + rewrites.cb_ids() <= usize::MAX,
        old(summary).lid_rewrites + rewrites.lids() <= usize::MAX,
        old(summary).cb_id_rewrites + rewrites.cb_ids() <= usize::MAX,
    ensures
        final(summary)@ == after_template(old(summary)@, et@, rewrites),
        match r {
            None => rewrites.lids() + rewrites.cb_ids() == 0,
            Some(t) => rewrites.lids() + rewrites.cb_ids() > 0 && t@ == (EmailTemplateView {
                subject: rewrites.subject.new_body@,
                body_html: rewrites.body_html.new_body@,
                body_plaintext: rewrites.body_plaintext.new_body@,
                preheader: new_preheader(et@, rewrites),
                ..et@
            }),
        },
        r matches Some(t) ==> {
            &&& rewrites.preheader matches Some(p) ==> t@.preheader == Some(p.new_body@)
            &&& rewrites.preheader is None ==> t@.preheader == et@.preheader
        },
{
    let (pre_lids, pre_cb_ids): (usize, usize) = match &rewrites.preheader {
        Some(p) => (p.lid_rewrites, p.cb_id_rewrites),
        None => (0, 0),
    };
    let lids: usize = rewrites.subject.lid_rewrites + rewrites.body_html.lid_rewrites
        + rewrites.body_plaintext.lid_rewrites + pre_lids;
    let cb_ids: usize = rewrites.subject.cb_id_rewrites + rewrites.body_html.cb_id_rewrites
        + rewrites.body_plaintext.cb_id_rewrites + pre_cb_ids;
    if lids + cb_ids == 0 {
        let in_preheader = match &et.preheader {
            Some(p) => holds_placeholder(p.as_str()),
            None => false,
        };
        if holds_placeholder(et.subject.as_str()) || holds_placeholder(et.body_html.as_str())
            || holds_placeholder(et.body_plaintext.as_str()) || in_preheader {
            push_skip(summary, "email_template '", et.name.as_str());
        }
        return None;
    }
    let ghost before = summary@;
    let name = et.name.as_str();
    push_prefixed(
        &mut summary.warnings,
        field_prefix(name, "' (subject): ").as_str(),
        &rewrites.subject.warnings,
    );
    push_prefixed(
        &mut summary.warnings,
        field_prefix(name, "' (body_html): ").as_str(),
        &rewrites.body_html.warnings,
    );
    push_prefixed(
        &mut summary.warnings,
        field_prefix(name, "' (body_plaintext): ").as_str(),
        &rewrites.body_plaintext.warnings,
    );
    if let Some(p) = &rewrites.preheader {
        push_prefixed(
            &mut summary.warnings,
            field_prefix(name, "' (preheader): ").as_str(),
            &p.warnings,
        );
    }
    assert(summary@.warnings =~= before.warnings + template_warnings(et@.name, rewrites));
    summary.touched_resources = summary.touched_resources + 1;
    summary.lid_rewrites = summary.lid_rewrites + lids;
    summary.cb_id_rewrites = summary.cb_id_rewrites + cb_ids;
    let preheader = match rewrites.preheader {
        Some(p) => Some(p.new_body),
        None => et.preheader,
    };
    Some(
        EmailTemplate {
            name: et.name,
            subject: rewrites.subject.new_body,
            body_html: rewrites.body_html.new_body,
            body_plaintext: rewrites.body_plaintext.new_body,
            description: et.description,
            preheader,
            should_inline_css: et.should_inline_css,
            tags: et.tags,
        },
    )
}

/// One line for each text.
pub open spec fn bullet_lines(bullet: Seq<char>, texts: Seq<Seq<char>>) -> Seq<char>
    decreases texts.len(),
{
    if texts.len() == 0 {
        Seq::empty()
    } else {
        bullet_lines(bullet, texts.drop_last()) + bullet + texts.last() + "\n"@
    }
}

fn render_bullets(bullet: &str, texts: &Vec<String>) -> (r: String)
    ensures
        r@ == bullet_lines(bullet@, strs(texts@)),
{
    let ghost ts = strs(texts@);
    let mut out = String::new();
    let mut i: usize = 0;
    assert(bullet_lines(bullet@, ts.take(0)) =~= Seq::empty());
    while i < texts.len()
        invariant
            i <= texts@.len(),
            ts == strs(texts@),
            out@ == bullet_lines(bullet@, ts.take(i as int)),
        decreases texts@.len() - i,
    {
        proof {
            assert(ts.take(i + 1).drop_last() =~= ts.take(i as int));
            assert(ts.take(i + 1).last() == texts@[i as int]@);
        }
        out.push_str(bullet);
        out.push_str(texts[i].as_str());
        out.push_str("\n");
        i = i + 1;
    }
    assert(ts.take(i as int) =~= ts);
    out
}

/// What the operator is told of a run.
pub open spec fn run_report(s: RunSummaryView) -> Seq<char> {
    "templatize summary:\n  • touched "@ + decimal(s.touched_resources as nat)
        + " resource(s); "@ + decimal(s.lid_rewrites as nat) + " lid + "@ + decimal(
        s.cb_id_rewrites as nat,
    ) + " cb_id rewrite(s)\n"@ + bullet_lines("  • "@, s.skipped) + bullet_lines(
        "  ⚠ "@,
        s.warnings,
    )
}

impl RunSummary {
    /// Tells the operator of a run.
    pub fn report(&self) -> (r: String)
        ensures
            r@ == run_report(self@),
    {
        let mut out = owned("templatize summary:\n  • touched ");
        out.push_str(decimal_text(self.touched_resources as u64).as_str());
        out.push_str(" resource(s); ");
        out.push_str(decimal_text(self.lid_rewrites as u64).as_str());
        out.push_str(" lid + ");
        out.push_str(decimal_text(self.cb_id_rewrites as u64).as_str());
        out.push_str(" cb_id rewrite(s)\n");
        out.push_str(render_bullets("  • ", &self.skipped).as_str());
        out.push_str(render_bullets("  ⚠ ", &self.warnings).as_str());
        out
    }
}

/// What a run ends with.
pub open spec fn closing(touched: nat, dry_run: bool, files: nat) -> Seq<char> {
    if touched == 0 {
        "nothing to templatize."@
    } else if dry_run {
        "(dry-run) would rewrite "@ + decimal(files) + " resource file(s) in place"@
    } else {
        "✓ templatize: rewrote "@ + decimal(files) + " resource file(s)"@
    }
}

/// Tells the operator how a run ended.
pub fn closing_line(summary: &RunSummary, dry_run: bool, files: usize) -> (r: String)
    ensures
        r@ == closing(summary.touched_resources as nat, dry_run, files as nat),
{
    if summary.touched_resources == 0 {
        return owned("nothing to templatize.");
    }
    let mut out = owned(
        if dry_run {
            "(dry-run) would rewrite "
        } else {
            "✓ templatize: rewrote "
        },
    );
    out.push_str(decimal_text(files as u64).as_str());
    out.push_str(
        if dry_run {
            " resource file(s) in place"
        } else {
            " resource file(s)"
        },
    );
    out
}

/// What is saved of a template is what rewriting gave, text by text: a rewrite
/// of the preheader becomes the preheader, and where there is none to rewrite
/// there is none to save.
pub proof fn rewritten_preheader_is_saved(t: EmailTemplateView, r: TemplateRewrites)
    ensures
        r.preheader matches Some(p) ==> new_preheader(t, r) == Some(p.new_body@),
        r.preheader is None ==> new_preheader(t, r) == t.preheader,
{
}

/// A resource counts as touched exactly where one of its texts was rewritten,
/// and every rewrite of every text is counted once, under its kind.
pub proof fn every_rewrite_is_counted(s: RunSummaryView, t: EmailTemplateView, r: TemplateRewrites)
    ensures
        ({
            let p = match r.preheader {
                Some(p) => (p.lid_rewrites as int, p.cb_id_rewrites as int),
                None => (0int, 0int),
            };
            let lids = r.subject.lid_rewrites + r.body_html.lid_rewrites
                + r.body_plaintext.lid_rewrites + p.0;
            let ids = r.subject.cb_id_rewrites + r.body_html.cb_id_rewrites
                + r.body_plaintext.cb_id_rewrites + p.1;
            let after = after_template(s, t, r);
            &&& r.lids() == lids
            &&& r.cb_ids() == ids
            &&& after.lid_rewrites == s.lid_rewrites + lids
            &&& after.cb_id_rewrites == s.cb_id_rewrites + ids
            &&& after.touched_resources == s.touched_resources + (if lids > 0 || ids > 0 {
                1int
            } else {
                0int
            })
        }),
{
}

/// The same of a content block.
pub proof fn every_block_rewrite_is_counted(s: RunSummaryView, cb: ContentBlockView, r: Rewrite)
    ensures
        ({
            let after = after_block(s, cb, r);
            &&& r.total() == r.lid_rewrites + r.cb_id_rewrites
            &&& after.lid_rewrites == s.lid_rewrites + r.lid_rewrites
            &&& after.cb_id_rewrites == s.cb_id_rewrites + r.cb_id_rewrites
            &&& after.touched_resources == s.touched_resources + (if r.lid_rewrites > 0
                || r.cb_id_rewrites > 0 {
                1int
            } else {
                0int
            })
        }),
{
}

/// A resource is named as already templated exactly where nothing of it was
/// rewritten and one of its texts holds a placeholder.
pub proof fn skipped_resources_hold_placeholders(
    s: RunSummaryView,
    cb: ContentBlockView,
    b: Rewrite,
    t: EmailTemplateView,
    r: TemplateRewrites,
)
    ensures
        after_block(s, cb, b).skipped == (if b.lid_rewrites == 0 && b.cb_id_rewrites == 0
            && occurs_in("__BRAZESYNC."@, cb.content) {
            s.skipped.push("content_block '"@ + cb.name + "' already templated — skipping"@)
        } else {
            s.skipped
        }),
        after_template(s, t, r).skipped == (if r.lids() == 0 && r.cb_ids() == 0 && (occurs_in(
            "__BRAZESYNC."@,
            t.subject,
        ) || occurs_in("__BRAZESYNC."@, t.body_html) || occurs_in(
            "__BRAZESYNC."@,
            t.body_plaintext,
        ) || (t.preheader matches Some(p) && occurs_in("__BRAZESYNC."@, p))) {
            s.skipped.push("email_template '"@ + t.name + "' already templated — skipping"@)
        } else {
            s.skipped
        }),
{
}

/// No warning is lost: each warning about a text of a template is handed on
/// with the name of the template and of the text.
pub proof fn template_warnings_are_handed_on(
    s: RunSummaryView,
    t: EmailTemplateView,
    r: TemplateRewrites,
    k: int,
)
    requires
        r.lids() + r.cb_ids() > 0,
    ensures
        0 <= k < r.subject.warnings@.len() ==> after_template(s, t, r).warnings.contains(
            "email_template '"@ + t.name + "' (subject): "@ + r.subject.warnings@[k]@,
        ),
        0 <= k < r.body_html.warnings@.len() ==> after_template(s, t, r).warnings.contains(
            "email_template '"@ + t.name + "' (body_html): "@ + r.body_html.warnings@[k]@,
        ),
        0 <= k < r.body_plaintext.warnings@.len() ==> after_template(s, t, r).warnings.contains(
            "email_template '"@ + t.name + "' (body_plaintext): "@
                + r.body_plaintext.warnings@[k]@,
        ),
        r.preheader matches Some(p) ==> (0 <= k < p.warnings@.len() ==> after_template(
            s,
            t,
            r,
        ).warnings.contains("email_template '"@ + t.name + "' (preheader): "@ + p.warnings@[k]@)),
        forall|i: int|
            0 <= i < s.warnings.len() ==> #[trigger] after_template(s, t, r).warnings[i]
                == s.warnings[i],
{
    let out = after_template(s, t, r).warnings;
    let head = "email_template '"@ + t.name;
    let a = prefixed(head + "' (subject): "@, strs(r.subject.warnings@));
    let b = prefixed(head + "' (body_html): "@, strs(r.body_html.warnings@));
    let c = prefixed(head + "' (body_plaintext): "@, strs(r.body_plaintext.warnings@));
    let n = s.warnings.len() as int;
    if 0 <= k < r.subject.warnings@.len() {
        assert(out[n + k] == a[k]);
    }
    if 0 <= k < r.body_html.warnings@.len() {
        assert(out[n + a.len() + k] == b[k]);
    }
    if 0 <= k < r.body_plaintext.warnings@.len() {
        assert(out[n + a.len() + b.len() + k] == c[k]);
    }
    if let Some(p) = r.preheader {
        if 0 <= k < p.warnings@.len() {
            let d = prefixed(head + "' (preheader): "@, strs(p.warnings@));
            assert(out[n + a.len() + b.len() + c.len() + k] == d[k]);
        }
    }
}

/// The same of a content block.
pub proof fn block_warnings_are_handed_on(
    s: RunSummaryView,
    cb: ContentBlockView,
    r: Rewrite,
    k: int,
)
    requires
        r.total() > 0,
        0 <= k < r.warnings@.len(),
    ensures
        after_block(s, cb, r).warnings.len() == s.warnings.len() + r.warnings@.len(),
        after_block(s, cb, r).warnings[s.warnings.len() + k] == "content_block '"@ + cb.name
            + "': "@ + r.warnings@[k]@,
{
}

proof fn lemma_bullet_is_shown(bullet: Seq<char>, texts: Seq<Seq<char>>, k: int)
    requires
        0 <= k < texts.len(),
    ensures
        is_shown(bullet + texts[k] + "\n"@, bullet_lines(bullet, texts)),
    decreases texts.len(),
{
    let front = texts.drop_last();
    let before = bullet_lines(bullet, front);
    let last = bullet + texts.last() + "\n"@;
    let all = bullet_lines(bullet, texts);
    assert(all =~= before + last + Seq::<char>::empty());
    if k == texts.len() - 1 {
        lemma_shown_between(before, last, Seq::empty());
    } else {
        lemma_bullet_is_shown(bullet, front, k);
        assert(front[k] == texts[k]);
        assert(all =~= Seq::<char>::empty() + before + last);
        lemma_shown_between(Seq::empty(), before, last);
        lemma_shown_through(bullet + texts[k] + "\n"@, before, all);
    }
}

/// The report of a run gives the number of resources touched and of
/// identifiers rewritten, each behind its label, and lists every resource
/// that was skipped and every warning.
pub proof fn report_lists_counts_and_notes(s: RunSummaryView, k: int)
    ensures
        is_shown(
            "touched "@ + decimal(s.touched_resources as nat) + " resource(s); "@,
            run_report(s),
        ),
        is_shown(
            " resource(s); "@ + decimal(s.lid_rewrites as nat) + " lid + "@ + decimal(
                s.cb_id_rewrites as nat,
            ) + " cb_id rewrite(s)\n"@,
            run_report(s),
        ),
        0 <= k < s.skipped.len() ==> is_shown("  • "@ + s.skipped[k] + "\n"@, run_report(s)),
        0 <= k < s.warnings.len() ==> is_shown("  ⚠ "@ + s.warnings[k] + "\n"@, run_report(s)),
{
    reveal_strlit("templatize summary:\n  • touched ");
    reveal_strlit("touched ");
    let e = Seq::<char>::empty();
    let h = "templatize summary:\n  • touched "@;
    let a = h.take(h.len() - 8);
    assert(h =~= a + "touched "@);
    let t = decimal(s.touched_resources as nat);
    let r = " resource(s); "@;
    let l = decimal(s.lid_rewrites as nat);
    let c = decimal(s.cb_id_rewrites as nat);
    let z = " cb_id rewrite(s)\n"@;
    let w = " lid + "@;
    let skipped = bullet_lines("  • "@, s.skipped);
    let warned = bullet_lines("  ⚠ "@, s.warnings);
    let report = run_report(s);
    let counts = r + l + w + c + z;
    assert(report =~= a + ("touched "@ + t + r) + (l + w + c + z + skipped + warned));
    lemma_shown_between(a, "touched "@ + t + r, l + w + c + z + skipped + warned);
    assert(report =~= (h + t) + counts + (skipped + warned));
    lemma_shown_between(h + t, counts, skipped + warned);
    assert(report =~= (h + t + counts) + skipped + warned);
    lemma_shown_between(h + t + counts, skipped, warned);
    assert(report =~= (h + t + counts + skipped) + warned + e);
    lemma_shown_between(h + t + counts + skipped, warned, e);
    if 0 <= k < s.skipped.len() {
        lemma_bullet_is_shown("  • "@, s.skipped, k);
        lemma_shown_through("  • "@ + s.skipped[k] + "\n"@, skipped, report);
    }
    if 0 <= k < s.warnings.len() {
        lemma_bullet_is_shown("  ⚠ "@, s.warnings, k);
        lemma_shown_through("  ⚠ "@ + s.warnings[k] + "\n"@, warned, report);
    }
}

/// A run closes by saying how many files were rewritten, and a dry run by
/// saying that they would be; where nothing was touched it says so.
pub proof fn closing_tells_dry_runs_apart(touched: nat, files: nat)
    requires
        touched > 0,
    ensures
        is_shown("rewrote "@ + decimal(files), closing(touched, false, files)),
        is_shown("would rewrite "@ + decimal(files), closing(touched, true, files)),
        "(dry-run)"@.is_prefix_of(closing(touched, true, files)),
        closing(0, true, files) == closing(0, false, files),
{
    reveal_strlit("rewrote ");
    reveal_strlit("would rewrite ");
    reveal_strlit("(dry-run)");
    reveal_strlit("(dry-run) would rewrite ");
    reveal_strlit("✓ templatize: rewrote ");
    let n = decimal(files);
    let d = "(dry-run) would rewrite "@;
    let r = "✓ templatize: rewrote "@;
    let dz = " resource file(s) in place"@;
    let rz = " resource file(s)"@;
    let da = d.take(d.len() - 14);
    let ra = r.take(r.len() - 8);
    assert(d =~= da + "would rewrite "@);
    assert(r =~= ra + "rewrote "@);
    assert(closing(touched, true, files) =~= da + ("would rewrite "@ + n) + dz);
    lemma_shown_between(da, "would rewrite "@ + n, dz);
    assert(closing(touched, false, files) =~= ra + ("rewrote "@ + n) + rz);
    lemma_shown_between(ra, "rewrote "@ + n, rz);
    assert("(dry-run)"@ =~= closing(touched, true, files).take(9));
}

} // verus!
