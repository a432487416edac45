//! Top-level error type.

use crate::braze::error::BrazeApiError;
use crate::text::{decimal, decimal_text, is_shown, lemma_shown_between, owned};
use vstd::prelude::*;

verus! {

/// Why a run failed. Failures of the outside world are carried as the text
/// that describes them.
#[derive(Debug, PartialEq)]
pub enum Error {
    Api(BrazeApiError),
    Config(String),
    MissingEnv(String),
    Io(String),
    YamlParse { path: String, source: String },
    CsvParse { path: String, source: String },
    InvalidFormat { path: String, message: String },
    DriftDetected { count: usize },
    DestructiveBlocked,
    PlanDrift,
    RateLimitExhausted { retries: u32 },
    FallbackGated { count: usize },
    /// Any other failure, described by its message.
    Other(String),
}

impl Error {
    /// What is shown to the operator.
    pub open spec fn text(self) -> Seq<char> {
        match self {
            Error::Api(e) => "Braze API error: "@ + e.text(),
            Error::Config(m) => "Configuration error: "@ + m@,
            Error::MissingEnv(v) => "Missing environment variable: "@ + v@,
            Error::Io(m) => "I/O error: "@ + m@,
            Error::YamlParse { path, source } => "YAML parse error in "@ + path@ + ": "@
                + source@,
            Error::CsvParse { path, source } => "CSV parse error in "@ + path@ + ": "@ + source@,
            Error::InvalidFormat { path, message } => "Invalid file format in "@ + path@ + ": "@
                + message@,
            Error::DriftDetected { count } => "Drift detected in "@ + decimal(count as nat)
                + " resource(s)"@,
            Error::DestructiveBlocked =>
            "Destructive change blocked: pass --allow-destructive to proceed"@,
            Error::PlanDrift =>
            "Plan drift: saved plan does not match the freshly-computed plan"@,
            Error::RateLimitExhausted { retries } => "Rate limit exhausted after "@ + decimal(
                retries as nat,
            ) + " retries"@,
            Error::FallbackGated { count } => "Fallback gate: "@ + decimal(count as nat)
                + " lid value(s) resolved with unmatched placeholder(s) and unconsumed remote value(s) both present (see Notice above) — `apply` requires --allow-fallback to proceed"@,
            Error::Other(m) => m@,
        }
    }

    pub fn to_string(&self) -> (r: String)
        ensures
            r@ == self.text(),
    {
        match self {
            Error::Api(e) => labelled("Braze API error: ", e.to_string().as_str()),
            Error::Config(m) => labelled("Configuration error: ", m.as_str()),
            Error::MissingEnv(v) => labelled("Missing environment variable: ", v.as_str()),
            Error::Io(m) => labelled("I/O error: ", m.as_str()),
            Error::YamlParse { path, source } => {
                let mut out = labelled("YAML parse error in ", path.as_str());
                out.push_str(": ");
                out.push_str(source.as_str());
                out
            },
            Error::CsvParse { path, source } => {
                let mut out = labelled("CSV parse error in ", path.as_str());
                out.push_str(": ");
                out.push_str(source.as_str());
                out
            },
            Error::InvalidFormat { path, message } => {
                let mut out = labelled("Invalid file format in ", path.as_str());
                out.push_str(": ");
                out.push_str(message.as_str());
                out
            },
            Error::DriftDetected { count } => {
                let mut out = labelled(
                    "Drift detected in ",
                    decimal_text(*count as u64).as_str(),
                );
                out.push_str(" resource(s)");
                out
            },
            Error::DestructiveBlocked => owned(
                "Destructive change blocked: pass --allow-destructive to proceed",
            ),
            Error::PlanDrift => owned(
                "Plan drift: saved plan does not match the freshly-computed plan",
            ),
            Error::RateLimitExhausted { retries } => {
                let mut out = labelled(
                    "Rate limit exhausted after ",
                    decimal_text(*retries as u64).as_str(),
                );
                out.push_str(" retries");
                out
            },
            Error::FallbackGated { count } => {
                let mut out = labelled("Fallback gate: ", decimal_text(*count as u64).as_str());
                out.push_str(
                    " lid value(s) resolved with unmatched placeholder(s) and unconsumed remote value(s) both present (see Notice above) — `apply` requires --allow-fallback to proceed",
                );
                out
            },
            Error::Other(m) => m.clone(),
        }
    }
}

/// A label and what it labels.
pub fn labelled(label: &str, rest: &str) -> (r: String)
    ensures
        r@ == label@ + rest@,
{
    let mut out = owned(label);
    out.push_str(rest);
    out
}

/// What is shown of a failure holds what is known about it: the file before
/// what is wrong with it, the message, the variable or the count.
pub proof fn failures_are_shown_in_full(e: Error)
    ensures
        e matches Error::Api(x) ==> x.text().is_suffix_of(e.text()),
        e matches Error::Config(m) ==> m@.is_suffix_of(e.text()),
        e matches Error::MissingEnv(v) ==> v@.is_suffix_of(e.text()),
        e matches Error::Io(m) ==> m@.is_suffix_of(e.text()),
        e matches Error::YamlParse { path, source } ==> (path@ + ": "@ + source@).is_suffix_of(
            e.text(),
        ),
        e matches Error::CsvParse { path, source } ==> (path@ + ": "@ + source@).is_suffix_of(
            e.text(),
        ),
        e matches Error::InvalidFormat { path, message } ==> (path@ + ": "@
            + message@).is_suffix_of(e.text()),
        e matches Error::DriftDetected { count } ==> is_shown(decimal(count as nat), e.text()),
        e matches Error::RateLimitExhausted { retries } ==> is_shown(
            decimal(retries as nat),
            e.text(),
        ),
        e matches Error::FallbackGated { count } ==> is_shown(decimal(count as nat), e.text()),
        e matches Error::Other(m) ==> e.text() == m@,
{
    let t = e.text();
    match e {
        Error::Api(x) => {
            assert(t.skip(t.len() - x.text().len()) =~= x.text());
        },
        Error::Config(m) => {
            assert(t.skip(t.len() - m@.len()) =~= m@);
        },
        Error::MissingEnv(v) => {
            assert(t.skip(t.len() - v@.len()) =~= v@);
        },
        Error::Io(m) => {
            assert(t.skip(t.len() - m@.len()) =~= m@);
        },
        Error::YamlParse { path, source } => {
            let w = path@ + ": "@ + source@;
            assert(t.skip(t.len() - w.len()) =~= w);
        },
        Error::CsvParse { path, source } => {
            let w = path@ + ": "@ + source@;
            assert(t.skip(t.len() - w.len()) =~= w);
        },
        Error::InvalidFormat { path, message } => {
            let w = path@ + ": "@ + message@;
            assert(t.skip(t.len() - w.len()) =~= w);
        },
        Error::DriftDetected { count } => {
            lemma_shown_between("Drift detected in "@, decimal(count as nat), " resource(s)"@);
        },
        Error::RateLimitExhausted { retries } => {
            lemma_shown_between(
                "Rate limit exhausted after "@,
                decimal(retries as nat),
                " retries"@,
            );
        },
        Error::FallbackGated { count } => {
            let a = "Fallback gate: "@;
            let n = decimal(count as nat);
            let z = t.skip((a.len() + n.len()) as int);
            assert(t =~= a + n + z);
            lemma_shown_between(a, n, z);
        },
        _ => {},
    }
}

} // verus!
