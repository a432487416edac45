//! Output formats for diff results: a table for people and JSON for
//! programs.

pub mod json;
pub mod table;
pub mod table_laws;

use crate::diff::{DiffSummary, ResourceDiffView};
use vstd::prelude::*;

verus! {

#[derive(Debug, Clone, Copy, PartialEq, Eq, Structural)]
pub enum OutputFormat {
    Table,
    Json,
}

impl Default for OutputFormat {
    fn default() -> (r: Self)
        ensures
            r == OutputFormat::Table,
    {
        OutputFormat::Table
    }
}

/// Shows a summary.
pub trait DiffFormatter {
    /// The text for the diffs of a summary.
    spec fn text(&self, diffs: Seq<ResourceDiffView>) -> Seq<char>;

    fn format(&self, summary: &DiffSummary) -> (r: String)
        ensures
            r@ == self.text(summary@),
    ;
}

#[derive(Debug, Clone, Copy, PartialEq, Eq, Structural)]
pub struct TableFormatter {
    /// Leave resources out that are in sync and have nothing else to say.
    pub only_drift: bool,
}

#[derive(Debug, Clone, Copy, PartialEq, Eq, Structural)]
pub struct JsonFormatter;

impl DiffFormatter for TableFormatter {
    open spec fn text(&self, diffs: Seq<ResourceDiffView>) -> Seq<char> {
        table::rendered(diffs, self.only_drift)
    }

    fn format(&self, summary: &DiffSummary) -> (r: String) {
        table::render(summary, self.only_drift)
    }
}

impl DiffFormatter for JsonFormatter {
    open spec fn text(&self, diffs: Seq<ResourceDiffView>) -> Seq<char> {
        json::rendered(json::document(diffs), json::pretty_json(json::document(diffs)))
    }

    fn format(&self, summary: &DiffSummary) -> (r: String) {
        json::render(summary)
    }
}

/// The formatter of an output format.
#[derive(Debug, Clone, Copy, PartialEq, Eq, Structural)]
pub enum Formatter {
    Table(TableFormatter),
    Json(JsonFormatter),
}

impl DiffFormatter for Formatter {
    open spec fn text(&self, diffs: Seq<ResourceDiffView>) -> Seq<char> {
        match self {
            Formatter::Table(t) => t.text(diffs),
            Formatter::Json(j) => j.text(diffs),
        }
    }

    fn format(&self, summary: &DiffSummary) -> (r: String) {
        match self {
            Formatter::Table(t) => t.format(summary),
            Formatter::Json(j) => j.format(summary),
        }
    }
}

impl OutputFormat {
    /// Picks the formatter. The settings of the table mean nothing to JSON,
    /// which always shows every resource.
    pub fn formatter(self, table: TableFormatter) -> (r: Formatter)
        ensures
            r == match self {
                OutputFormat::Table => Formatter::Table(table),
                OutputFormat::Json => Formatter::Json(JsonFormatter),
            },
    {
        match self {
            OutputFormat::Table => Formatter::Table(table),
            OutputFormat::Json => Formatter::Json(JsonFormatter),
        }
    }
}

} // verus!
