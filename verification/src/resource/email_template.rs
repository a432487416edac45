//! Email template domain type.
//!
//! `body_plaintext` is always present; the empty string is the legitimate
//! value for HTML-only templates.

use crate::order::{Named, Ranked};
use crate::resource::catalog::clone_opt;
use crate::text::{clone_strs, opt_text, str_lt, strs, text_lt};
use vstd::prelude::*;

verus! {

#[derive(Debug, PartialEq)]
pub struct EmailTemplate {
    pub name: String,
    pub subject: String,
    /// HTML body. May contain Liquid; opaque text.
    pub body_html: String,
    /// Plaintext fallback. Empty is allowed; the field is always present.
    pub body_plaintext: String,
    /// Returned by Braze but not settable through create or update.
    pub description: Option<String>,
    pub preheader: Option<String>,
    /// CSS inlining toggle.
    pub should_inline_css: Option<bool>,
    pub tags: Vec<String>,
}

/// What an email template is.
#[verifier::ext_equal]
pub struct EmailTemplateView {
    pub name: Seq<char>,
    pub subject: Seq<char>,
    pub body_html: Seq<char>,
    pub body_plaintext: Seq<char>,
    pub description: Option<Seq<char>>,
    pub preheader: Option<Seq<char>>,
    pub should_inline_css: Option<bool>,
    pub tags: Seq<Seq<char>>,
}

impl View for EmailTemplate {
    type V = EmailTemplateView;

    open spec fn view(&self) -> EmailTemplateView {
        EmailTemplateView {
            name: self.name@,
            subject: self.subject@,
            body_html: self.body_html@,
            body_plaintext: self.body_plaintext@,
            description: opt_text(self.description),
            preheader: opt_text(self.preheader),
            should_inline_css: self.should_inline_css,
            tags: strs(self.tags@),
        }
    }
}

impl Clone for EmailTemplate {
    fn clone(&self) -> (r: Self)
        ensures
            r@ == self@,
    {
        EmailTemplate {
            name: self.name.clone(),
            subject: self.subject.clone(),
            body_html: self.body_html.clone(),
            body_plaintext: self.body_plaintext.clone(),
            description: clone_opt(&self.description),
            preheader: clone_opt(&self.preheader),
            should_inline_css: self.should_inline_css,
            tags: clone_strs(&self.tags),
        }
    }
}

impl Named for EmailTemplate {
    open spec fn name_of(v: EmailTemplateView) -> Seq<char> {
        v.name
    }

    fn name_ref(&self) -> (r: &String) {
        &self.name
    }
}

impl Ranked for EmailTemplate {
    open spec fn lt(a: EmailTemplateView, b: EmailTemplateView) -> bool {
        text_lt(a.name, b.name)
    }

    proof fn lt_irreflexive(a: EmailTemplateView) {
        crate::text::lemma_text_lt_irreflexive(a.name);
    }

    proof fn lt_transitive(a: EmailTemplateView, b: EmailTemplateView, c: EmailTemplateView) {
        crate::text::lemma_text_lt_transitive(a.name, b.name, c.name);
    }

    proof fn lt_splits(a: EmailTemplateView, b: EmailTemplateView, c: EmailTemplateView) {
        crate::text::lemma_text_lt_splits(a.name, b.name, c.name);
    }

    fn precedes(&self, other: &Self) -> (r: bool) {
        str_lt(self.name.as_str(), other.name.as_str())
    }
}

} // verus!
