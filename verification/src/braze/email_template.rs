//! What answers about email templates mean, and what is sent.
//!
//! Braze knows email templates by id and gives them a name. There is no
//! deletion call.

use crate::braze::content_block::LIST_LIMIT;
use crate::braze::error::BrazeApiError;
use crate::braze::{
    check_duplicate_names, check_pagination, classify_info_message, first_repeated,
    says_not_found, says_success, truncation, Call, CallView, InfoMessageClass, Method,
};
use crate::order::{names_of, views, Named};
use crate::resource::catalog::clone_opt;
use crate::resource::email_template::EmailTemplateView;
use crate::resource::EmailTemplate;
use crate::text::{clone_strs, decimal, decimal_text, opt_text, owned, strs, text_or_empty};
use vstd::prelude::*;

verus! {

#[derive(Debug, PartialEq)]
pub struct EmailTemplateSummary {
    pub email_template_id: String,
    pub name: String,
}

/// What an entry of a list is.
#[verifier::ext_equal]
pub struct EmailTemplateSummaryView {
    pub email_template_id: Seq<char>,
    pub name: Seq<char>,
}

impl View for EmailTemplateSummary {
    type V = EmailTemplateSummaryView;

    open spec fn view(&self) -> EmailTemplateSummaryView {
        EmailTemplateSummaryView { email_template_id: self.email_template_id@, name: self.name@ }
    }
}

impl Named for EmailTemplateSummary {
    open spec fn name_of(v: EmailTemplateSummaryView) -> Seq<char> {
        v.name
    }

    fn name_ref(&self) -> (r: &String) {
        &self.name
    }
}

/// Takes a list of email templates: refused where it is, or may be, cut off,
/// and where a name is repeated.
pub fn list_email_templates(
    entries: Vec<EmailTemplateSummary>,
    count: Option<usize>,
) -> (r: Result<Vec<EmailTemplateSummary>, BrazeApiError>)
    ensures
        match r {
            Ok(v) => v == entries && truncation(count, entries.len(), LIST_LIMIT) is None
                && first_repeated(names_of::<EmailTemplateSummary>(views(entries@))) is None,
            Err(BrazeApiError::PaginationNotImplemented { endpoint, detail }) => endpoint@
                == "/templates/email/list"@ && truncation(count, entries.len(), LIST_LIMIT)
                == Some(detail@),
            Err(BrazeApiError::DuplicateNameInListResponse { endpoint, name }) => endpoint@
                == "/templates/email/list"@ && truncation(count, entries.len(), LIST_LIMIT) is None
                && first_repeated(names_of::<EmailTemplateSummary>(views(entries@))) == Some(
                name@,
            ),
            Err(_) => false,
        },
{
    if let Err(e) = check_pagination(count, entries.len(), LIST_LIMIT, "/templates/email/list") {
        return Err(e);
    }
    if let Err(e) = check_duplicate_names(&entries, "/templates/email/list") {
        return Err(e);
    }
    Ok(entries)
}

/// The answer with the details of an email template.
#[derive(Debug, PartialEq)]
pub struct EmailTemplateInfo {
    pub template_name: String,
    pub subject: Option<String>,
    pub body: Option<String>,
    pub plaintext_body: Option<String>,
    pub description: Option<String>,
    pub preheader: Option<String>,
    pub should_inline_css: Option<bool>,
    pub tags: Option<Vec<String>>,
    pub message: Option<String>,
}

/// How a template that does not exist is named.
pub open spec fn template_label(id: Seq<char>) -> Seq<char> {
    "email_template id '"@ + id + "'"@
}

/// The tags of an answer; none where it has none.
pub open spec fn opt_tags(o: Option<Vec<String>>) -> Seq<Seq<char>> {
    match o {
        Some(v) => strs(v@),
        None => Seq::empty(),
    }
}

fn or_empty(o: Option<String>) -> (r: String)
    ensures
        r@ == text_or_empty(opt_text(o)),
{
    match o {
        Some(s) => s,
        None => String::new(),
    }
}

/// Takes the details of an email template. Bodies and subject that Braze
/// leaves out are empty.
pub fn get_email_template(id: &str, info: EmailTemplateInfo) -> (r: Result<
    EmailTemplate,
    BrazeApiError,
>)
    ensures
        ({
            let missing = info.message is Some && !says_success(info.message->0@)
                && says_not_found(info.message->0@, "no email template"@);
            let fine = info.message is None || says_success(info.message->0@);
            &&& fine ==> (r matches Ok(t) && t@ == (EmailTemplateView {
                name: info.template_name@,
                subject: text_or_empty(opt_text(info.subject)),
                body_html: text_or_empty(opt_text(info.body)),
                body_plaintext: text_or_empty(opt_text(info.plaintext_body)),
                description: opt_text(info.description),
                preheader: opt_text(info.preheader),
                should_inline_css: info.should_inline_css,
                tags: opt_tags(info.tags),
            }))
            &&& missing ==> (r matches Err(BrazeApiError::NotFound { resource }) && resource@
                == template_label(id@))
            &&& !fine && !missing ==> (r matches Err(
                BrazeApiError::UnexpectedApiMessage { endpoint, message },
            ) && endpoint@ == "/templates/email/info"@ && message@ == info.message->0@)
        }),
{
    let class = match &info.message {
        Some(m) => classify_info_message(Some(m.as_str()), "no email template"),
        None => classify_info_message(None, "no email template"),
    };
    match class {
        InfoMessageClass::Success => {
            let tags = match info.tags {
                Some(v) => v,
                None => Vec::new(),
            };
            assert(strs(tags@) =~= opt_tags(info.tags));
            Ok(
                EmailTemplate {
                    name: info.template_name,
                    subject: or_empty(info.subject),
                    body_html: or_empty(info.body),
                    body_plaintext: or_empty(info.plaintext_body),
                    description: info.description,
                    preheader: info.preheader,
                    should_inline_css: info.should_inline_css,
                    tags,
                },
            )
        },
        InfoMessageClass::NotFound => {
            let mut resource = owned("email_template id '");
            resource.push_str(id);
            resource.push_str("'");
            Err(BrazeApiError::NotFound { resource })
        },
        InfoMessageClass::Unexpected(message) => Err(
            BrazeApiError::UnexpectedApiMessage { endpoint: "/templates/email/info", message },
        ),
    }
}

/// What is sent to create or update an email template. The description is not
/// part of it: Braze cannot set it.
#[derive(Debug, PartialEq)]
pub struct EmailTemplateWrite {
    pub email_template_id: Option<String>,
    pub template_name: String,
    pub subject: String,
    pub body: String,
    pub plaintext_body: String,
    pub preheader: Option<String>,
    pub should_inline_css: Option<bool>,
    pub tags: Vec<String>,
}

/// The request says of the template all that braze-sync manages.
pub open spec fn carries(w: EmailTemplateWrite, t: EmailTemplateView) -> bool {
    &&& w.template_name@ == t.name
    &&& w.subject@ == t.subject
    &&& w.body@ == t.body_html
    &&& w.plaintext_body@ == t.body_plaintext
    &&& opt_text(w.preheader) == t.preheader
    &&& w.should_inline_css == t.should_inline_css
    &&& strs(w.tags@) == t.tags
}

fn write_body(id: Option<String>, t: &EmailTemplate) -> (r: EmailTemplateWrite)
    ensures
        carries(r, t@),
        r.email_template_id == id,
{
    EmailTemplateWrite {
        email_template_id: id,
        template_name: t.name.clone(),
        subject: t.subject.clone(),
        body: t.body_html.clone(),
        plaintext_body: t.body_plaintext.clone(),
        preheader: clone_opt(&t.preheader),
        should_inline_css: t.should_inline_css,
        tags: clone_strs(&t.tags),
    }
}

/// The request that creates a template.
pub fn create_email_template(et: &EmailTemplate) -> (r: EmailTemplateWrite)
    ensures
        carries(r, et@),
        r.email_template_id is None,
{
    write_body(None, et)
}

/// The request that updates a template.
pub fn update_email_template(id: &str, et: &EmailTemplate) -> (r: EmailTemplateWrite)
    ensures
        carries(r, et@),
        r.email_template_id matches Some(i) && i@ == id@,
{
    write_body(Some(owned(id)), et)
}

/// The call that lists email templates.
pub fn list_email_templates_call() -> (r: Call)
    ensures
        r@ == (CallView {
            method: Method::Get,
            segments: seq!["templates"@, "email"@, "list"@],
            query: seq![("limit"@, decimal(LIST_LIMIT as nat))],
        }),
{
    let segments = vec![owned("templates"), owned("email"), owned("list")];
    assert(strs(segments@) =~= seq!["templates"@, "email"@, "list"@]);
    let call = Call::new(Method::Get, segments);
    let r = call.with_query("limit", decimal_text(LIST_LIMIT as u64).as_str());
    assert(r@.query =~= seq![("limit"@, decimal(LIST_LIMIT as nat))]);
    r
}

/// The call that fetches the details of a template.
pub fn get_email_template_call(id: &str) -> (r: Call)
    ensures
        r@ == (CallView {
            method: Method::Get,
            segments: seq!["templates"@, "email"@, "info"@],
            query: seq![("email_template_id"@, id@)],
        }),
{
    let segments = vec![owned("templates"), owned("email"), owned("info")];
    assert(strs(segments@) =~= seq!["templates"@, "email"@, "info"@]);
    let call = Call::new(Method::Get, segments);
    let r = call.with_query("email_template_id", id);
    assert(r@.query =~= seq![("email_template_id"@, id@)]);
    r
}

/// The call that creates a template.
pub fn create_email_template_call() -> (r: Call)
    ensures
        r@ == (CallView {
            method: Method::Post,
            segments: seq!["templates"@, "email"@, "create"@],
            query: Seq::empty(),
        }),
{
    let segments = vec![owned("templates"), owned("email"), owned("create")];
    assert(strs(segments@) =~= seq!["templates"@, "email"@, "create"@]);
    Call::new(Method::Post, segments)
}

/// The call that updates a template.
pub fn update_email_template_call() -> (r: Call)
    ensures
        r@ == (CallView {
            method: Method::Post,
            segments: seq!["templates"@, "email"@, "update"@],
            query: Seq::empty(),
        }),
{
    let segments = vec![owned("templates"), owned("email"), owned("update")];
    assert(strs(segments@) =~= seq!["templates"@, "email"@, "update"@]);
    Call::new(Method::Post, segments)
}

/// A request holds of a template all that Braze can set, each part as the
/// template has it; so it fits no template that differs in one of them.
pub proof fn requests_hold_every_managed_part(
    w: EmailTemplateWrite,
    a: EmailTemplateView,
    b: EmailTemplateView,
)
    requires
        carries(w, a),
    ensures
        w.template_name@ == a.name,
        w.subject@ == a.subject,
        w.body@ == a.body_html,
        w.plaintext_body@ == a.body_plaintext,
        opt_text(w.preheader) == a.preheader,
        w.should_inline_css == a.should_inline_css,
        strs(w.tags@) == a.tags,
        carries(w, b) <==> a.name == b.name && a.subject == b.subject && a.body_html == b.body_html
            && a.body_plaintext == b.body_plaintext && a.preheader == b.preheader
            && a.should_inline_css == b.should_inline_css && a.tags == b.tags,
{
}

/// A template that does not exist is named by its id, and no two ids give the
/// same name.
pub proof fn missing_template_is_named_by_id(id: Seq<char>, other: Seq<char>)
    ensures
        template_label(id) == "email_template id '"@ + id + "'"@,
        template_label(id) == template_label(other) ==> id == other,
{
    let a = "email_template id '"@;
    let n = a.len() as int;
    assert(template_label(id).subrange(n, n + id.len()) =~= id);
    assert(template_label(other).subrange(n, n + other.len()) =~= other);
    assert(template_label(id).len() == n + id.len() + "'"@.len());
    assert(template_label(other).len() == n + other.len() + "'"@.len());
}

/// The tags of an answer are taken as they are; an answer without any has
/// none.
pub proof fn tags_left_out_are_none(tags: Vec<String>)
    ensures
        opt_tags(Some(tags)) == strs(tags@),
        opt_tags(None).len() == 0,
{
}

} // verus!
