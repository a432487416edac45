//! Failures of the Braze API.

use crate::error::labelled;
use crate::text::{decimal, decimal_text, is_shown, lemma_shown_between, opt_text, owned};
use vstd::prelude::*;

verus! {

#[derive(Debug, PartialEq)]
pub enum BrazeApiError {
    /// A status that no other variant stands for, with the body.
    Http { status: u16, body: String },
    /// The request did not get through, or the answer could not be read.
    Network(String),
    /// The API key was refused.
    Unauthorized,
    /// The one resource that was asked for does not exist.
    NotFound { resource: String },
    /// Too many refusals for going too fast.
    RateLimitExhausted,
    /// A list was cut off. Going on with part of it would create what is on
    /// the part that is missing a second time.
    PaginationNotImplemented { endpoint: &'static str, detail: String },
    /// A successful answer with a message that is not understood.
    UnexpectedApiMessage { endpoint: &'static str, message: String },
    /// A list in which two entries share a name.
    DuplicateNameInListResponse { endpoint: &'static str, name: String },
}

/// How the HTTP library writes a status code with its reason phrase.
pub uninterp spec fn status_notation(code: u16) -> Option<Seq<char>>;

/// `reqwest::StatusCode::from_u16` and its `Display`: the code and its reason
/// phrase; `None` for a number that is no status code.
#[verifier::external_body]
fn status_text(code: u16) -> (r: Option<String>)
    ensures
        opt_text(r) == status_notation(code),
{
    reqwest::StatusCode::from_u16(code).ok().map(|s| s.to_string())
}

/// How a text is written between double quotes with escapes.
pub uninterp spec fn quoted(s: Seq<char>) -> Seq<char>;

/// The `Debug` notation of a string: between double quotes, with escapes.
#[verifier::external_body]
pub(crate) fn quoted_text(s: &str) -> (r: String)
    ensures
        r@ == quoted(s@),
{
    format!("{s:?}")
}

/// A status as it is shown: with its reason phrase, or as the bare number
/// where it is no status code.
pub open spec fn shown_status(code: u16, notation: Option<Seq<char>>) -> Seq<char> {
    match notation {
        Some(t) => t,
        None => decimal(code as nat),
    }
}

/// Shows a status, given its notation.
pub fn show_status(code: u16, notation: Option<String>) -> (r: String)
    ensures
        r@ == shown_status(code, opt_text(notation)),
{
    match notation {
        Some(t) => t,
        None => decimal_text(code as u64),
    }
}

impl BrazeApiError {
    /// What is shown to the operator.
    pub open spec fn text(self) -> Seq<char> {
        match self {
            BrazeApiError::Http { status, body } => "HTTP "@ + shown_status(
                status,
                status_notation(status),
            ) + ": "@ + body@,
            BrazeApiError::Network(m) => "network error: "@ + m@,
            BrazeApiError::Unauthorized => "authentication failed (invalid api key)"@,
            BrazeApiError::NotFound { resource } => "Braze resource not found: "@ + resource@,
            BrazeApiError::RateLimitExhausted => "rate limit retries exhausted"@,
            BrazeApiError::PaginationNotImplemented { endpoint, detail } => "Braze "@ + endpoint@
                + ": pagination not implemented in v0.2.0 ("@ + detail@
                + "); aborting to prevent duplicate-create or silent orphan loss"@,
            BrazeApiError::UnexpectedApiMessage { endpoint, message } => "Braze "@ + endpoint@
                + ": unexpected message in 200 response: "@ + message@,
            BrazeApiError::DuplicateNameInListResponse { endpoint, name } => "Braze "@ + endpoint@
                + ": duplicate name "@ + quoted(name@) + " in list response"@,
        }
    }

    pub fn to_string(&self) -> (r: String)
        ensures
            r@ == self.text(),
    {
        match self {
            BrazeApiError::Http { status, body } => {
                let mut out = labelled("HTTP ", show_status(*status, status_text(*status)).as_str());
                out.push_str(": ");
                out.push_str(body.as_str());
                out
            },
            BrazeApiError::Network(m) => labelled("network error: ", m.as_str()),
            BrazeApiError::Unauthorized => owned("authentication failed (invalid api key)"),
            BrazeApiError::NotFound { resource } => labelled(
                "Braze resource not found: ",
                resource.as_str(),
            ),
            BrazeApiError::RateLimitExhausted => owned("rate limit retries exhausted"),
            BrazeApiError::PaginationNotImplemented { endpoint, detail } => {
                let mut out = labelled("Braze ", endpoint);
                out.push_str(": pagination not implemented in v0.2.0 (");
                out.push_str(detail.as_str());
                out.push_str("); aborting to prevent duplicate-create or silent orphan loss");
                out
            },
            BrazeApiError::UnexpectedApiMessage { endpoint, message } => {
                let mut out = labelled("Braze ", endpoint);
                out.push_str(": unexpected message in 200 response: ");
                out.push_str(message.as_str());
                out
            },
            BrazeApiError::DuplicateNameInListResponse { endpoint, name } => {
                let mut out = labelled("Braze ", endpoint);
                out.push_str(": duplicate name ");
                out.push_str(quoted_text(name.as_str()).as_str());
                out.push_str(" in list response");
                out
            },
        }
    }
}

/// What is shown of a failure holds what is known about it: the status before
/// the body, the path of the call before what is wrong with the answer.
pub proof fn failures_are_shown_in_full(e: BrazeApiError)
    ensures
        e matches BrazeApiError::Http { status, body } ==> (shown_status(
            status,
            status_notation(status),
        ) + ": "@ + body@).is_suffix_of(e.text()),
        e matches BrazeApiError::Network(m) ==> m@.is_suffix_of(e.text()),
        e matches BrazeApiError::NotFound { resource } ==> resource@.is_suffix_of(e.text()),
        e matches BrazeApiError::PaginationNotImplemented { endpoint, detail } ==> (("Braze "@
            + endpoint@ + ":"@).is_prefix_of(e.text()) && is_shown(
            "("@ + detail@ + ")"@,
            e.text(),
        )),
        e matches BrazeApiError::UnexpectedApiMessage { endpoint, message } ==> (("Braze "@
            + endpoint@ + ":"@).is_prefix_of(e.text()) && message@.is_suffix_of(e.text())),
        e matches BrazeApiError::DuplicateNameInListResponse { endpoint, name } ==> (("Braze "@
            + endpoint@ + ":"@).is_prefix_of(e.text()) && is_shown(quoted(name@), e.text())),
{
    let t = e.text();
    match e {
        BrazeApiError::Http { status, body } => {
            let w = shown_status(status, status_notation(status)) + ": "@ + body@;
            assert(t.skip(t.len() - w.len()) =~= w);
        },
        BrazeApiError::Network(m) => {
            assert(t.skip(t.len() - m@.len()) =~= m@);
        },
        BrazeApiError::NotFound { resource } => {
            assert(t.skip(t.len() - resource@.len()) =~= resource@);
        },
        BrazeApiError::PaginationNotImplemented { endpoint, detail } => {
            reveal_strlit(":");
            reveal_strlit("(");
            reveal_strlit(")");
            reveal_strlit(": pagination not implemented in v0.2.0 (");
            reveal_strlit("); aborting to prevent duplicate-create or silent orphan loss");
            let h = "Braze "@ + endpoint@ + ":"@;
            assert(t.take(h.len() as int) =~= h);
            let b = ": pagination not implemented in v0.2.0 ("@;
            let z = "); aborting to prevent duplicate-create or silent orphan loss"@;
            let w = "("@ + detail@ + ")"@;
            let front = "Braze "@ + endpoint@ + b.drop_last();
            assert(t =~= front + w + z.drop_first());
            lemma_shown_between(front, w, z.drop_first());
        },
        BrazeApiError::UnexpectedApiMessage { endpoint, message } => {
            reveal_strlit(":");
            reveal_strlit(": unexpected message in 200 response: ");
            let h = "Braze "@ + endpoint@ + ":"@;
            assert(t.take(h.len() as int) =~= h);
            assert(t.skip(t.len() - message@.len()) =~= message@);
        },
        BrazeApiError::DuplicateNameInListResponse { endpoint, name } => {
            reveal_strlit(":");
            reveal_strlit(": duplicate name ");
            let h = "Braze "@ + endpoint@ + ":"@;
            assert(t.take(h.len() as int) =~= h);
            lemma_shown_between(
                "Braze "@ + endpoint@ + ": duplicate name "@,
                quoted(name@),
                " in list response"@,
            );
        },
        _ => {},
    }
}

/// A status is shown with its reason phrase, and as a bare number where it
/// has none.
pub proof fn status_without_phrase_is_a_number(code: u16, notation: Seq<char>)
    ensures
        shown_status(code, Some(notation)) == notation,
        shown_status(code, None) == decimal(code as nat),
{
}

} // verus!
