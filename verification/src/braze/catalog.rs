//! What answers about catalogs mean.

use crate::braze::error::BrazeApiError;
use crate::braze::{Call, CallView, Method};
use crate::order::views;
use crate::resource::{Catalog, CatalogField, CatalogFieldType};
use crate::text::{decimal, decimal_text, is_shown, lemma_shown_between, owned, strs};
use vstd::prelude::*;

verus! {

/// What is said of a list of catalogs that goes on.
pub open spec fn more_catalogs(n: nat) -> Seq<char> {
    "got "@ + decimal(n)
        + " catalog(s) plus a non-empty next_cursor; aborting to prevent silent truncation"@
}

/// Takes the answer to a request for all catalogs. A list that goes on is
/// refused rather than cut off.
pub fn list_catalogs(catalogs: Vec<Catalog>, next_cursor: Option<&str>) -> (r: Result<
    Vec<Catalog>,
    BrazeApiError,
>)
    ensures
        match r {
            Ok(v) => v == catalogs && (next_cursor is None || next_cursor->0@.len() == 0),
            Err(BrazeApiError::PaginationNotImplemented { endpoint, detail }) => endpoint@
                == "/catalogs"@ && detail@ == more_catalogs(catalogs@.len()) && next_cursor is Some
                && next_cursor->0@.len() > 0,
            Err(_) => false,
        },
{
    if let Some(cursor) = next_cursor {
        if !cursor.is_empty() {
            let mut detail = owned("got ");
            detail.push_str(decimal_text(catalogs.len() as u64).as_str());
            detail.push_str(
                " catalog(s) plus a non-empty next_cursor; aborting to prevent silent truncation",
            );
            return Err(BrazeApiError::PaginationNotImplemented { endpoint: "/catalogs", detail });
        }
    }
    Ok(catalogs)
}

/// How a catalog that does not exist is named.
pub open spec fn catalog_label(name: Seq<char>) -> Seq<char> {
    "catalog '"@ + name + "'"@
}

fn missing_catalog(name: &str) -> (r: BrazeApiError)
    ensures
        r matches BrazeApiError::NotFound { resource } && resource@ == catalog_label(name@),
{
    let mut resource = owned("catalog '");
    resource.push_str(name);
    resource.push_str("'");
    BrazeApiError::NotFound { resource }
}

/// Takes the answer to a request for one catalog. An empty answer and a
/// missing page both mean that there is no such catalog.
pub fn get_catalog(name: &str, answer: Result<Vec<Catalog>, BrazeApiError>) -> (r: Result<
    Catalog,
    BrazeApiError,
>)
    ensures
        match answer {
            Ok(v) => if v@.len() > 0 {
                r matches Ok(c) && c@ == v@[0]@
            } else {
                r matches Err(BrazeApiError::NotFound { resource }) && resource@ == catalog_label(
                    name@,
                )
            },
            Err(e) => if e matches BrazeApiError::Http { status, .. } && status == 404 {
                r matches Err(BrazeApiError::NotFound { resource }) && resource@ == catalog_label(
                    name@,
                )
            } else {
                r == Err::<Catalog, BrazeApiError>(e)
            },
        },
{
    match answer {
        Ok(v) => {
            if v.len() > 0 {
                Ok(v[0].clone())
            } else {
                Err(missing_catalog(name))
            }
        },
        Err(BrazeApiError::Http { status, body }) => {
            if status == 404 {
                Err(missing_catalog(name))
            } else {
                Err(BrazeApiError::Http { status, body })
            }
        },
        Err(e) => Err(e),
    }
}

/// Takes what asking for one catalog gave as a list: a catalog that does not
/// exist is none, and any other failure stays one.
pub fn one_catalog(answer: Result<Catalog, BrazeApiError>) -> (r: Result<
    Vec<Catalog>,
    BrazeApiError,
>)
    ensures
        match answer {
            Ok(c) => r matches Ok(v) && views(v@) == seq![c@],
            Err(BrazeApiError::NotFound { .. }) => r matches Ok(v) && v@.len() == 0,
            Err(e) => r == Err::<Vec<Catalog>, BrazeApiError>(e),
        },
{
    match answer {
        Ok(c) => {
            let v = vec![c];
            assert(views(v@) =~= seq![c@]);
            Ok(v)
        },
        Err(BrazeApiError::NotFound { .. }) => Ok(Vec::new()),
        Err(e) => Err(e),
    }
}

/// The call that lists all catalogs.
pub fn list_catalogs_call() -> (r: Call)
    ensures
        r@ == (CallView {
            method: Method::Get,
            segments: seq!["catalogs"@],
            query: Seq::empty(),
        }),
{
    let segments = vec![owned("catalogs")];
    assert(strs(segments@) =~= seq!["catalogs"@]);
    Call::new(Method::Get, segments)
}

/// The call that fetches one catalog.
pub fn get_catalog_call(name: &str) -> (r: Call)
    ensures
        r@ == (CallView {
            method: Method::Get,
            segments: seq!["catalogs"@, name@],
            query: Seq::empty(),
        }),
{
    let segments = vec![owned("catalogs"), owned(name)];
    assert(strs(segments@) =~= seq!["catalogs"@, name@]);
    Call::new(Method::Get, segments)
}

/// What is sent of a field that is to be added: nothing but its name and
/// type.
#[derive(Debug, PartialEq)]
pub struct WireField {
    pub name: String,
    pub field_type: CatalogFieldType,
}

/// The call that adds one field to a catalog, and the fields in its body.
pub fn add_catalog_field(catalog_name: &str, field: &CatalogField) -> (r: (Call, Vec<WireField>))
    ensures
        r.0@ == (CallView {
            method: Method::Post,
            segments: seq!["catalogs"@, catalog_name@, "fields"@],
            query: Seq::empty(),
        }),
        r.1@.len() == 1,
        r.1@[0].name@ == field@.name,
        r.1@[0].field_type == field@.field_type,
{
    let segments = vec![owned("catalogs"), owned(catalog_name), owned("fields")];
    assert(strs(segments@) =~= seq!["catalogs"@, catalog_name@, "fields"@]);
    let body = vec![WireField { name: field.name.clone(), field_type: field.field_type }];
    (Call::new(Method::Post, segments), body)
}

/// The call that removes a field from a catalog, with the data in it. An
/// answer that the field does not exist is an error like any other: the
/// operator should see that the catalog has moved on.
pub fn delete_catalog_field(catalog_name: &str, field_name: &str) -> (r: Call)
    ensures
        r@ == (CallView {
            method: Method::Delete,
            segments: seq!["catalogs"@, catalog_name@, "fields"@, field_name@],
            query: Seq::empty(),
        }),
{
    let segments = vec![
        owned("catalogs"),
        owned(catalog_name),
        owned("fields"),
        owned(field_name),
    ];
    assert(strs(segments@) =~= seq!["catalogs"@, catalog_name@, "fields"@, field_name@]);
    Call::new(Method::Delete, segments)
}

/// The call that makes a catalog, and the catalogs in its body: the one
/// catalog with its whole schema.
pub fn create_catalog(catalog: &Catalog) -> (r: (Call, Vec<Catalog>))
    ensures
        r.0@ == (CallView {
            method: Method::Post,
            segments: seq!["catalogs"@],
            query: Seq::empty(),
        }),
        views(r.1@) == seq![catalog@],
{
    let segments = vec![owned("catalogs")];
    assert(strs(segments@) =~= seq!["catalogs"@]);
    let body = vec![catalog.clone()];
    assert(views(body@) =~= seq![catalog@]);
    (Call::new(Method::Post, segments), body)
}

/// The call that removes a catalog, with its schema and all its items.
pub fn delete_catalog(name: &str) -> (r: Call)
    ensures
        r@ == (CallView {
            method: Method::Delete,
            segments: seq!["catalogs"@, name@],
            query: Seq::empty(),
        }),
{
    let segments = vec![owned("catalogs"), owned(name)];
    assert(strs(segments@) =~= seq!["catalogs"@, name@]);
    Call::new(Method::Delete, segments)
}

/// A refusal over a list of catalogs that goes on says how many came, and a
/// catalog that does not exist is named.
pub proof fn catalog_refusals_name_their_subject(n: nat, name: Seq<char>)
    ensures
        is_shown("got "@ + decimal(n) + " catalog(s)"@, more_catalogs(n)),
        is_shown("next_cursor"@, more_catalogs(n)),
        is_shown("'"@ + name + "'"@, catalog_label(name)),
{
    reveal_strlit("catalog '");
    reveal_strlit("'");
    reveal_strlit(" catalog(s)");
    reveal_strlit("next_cursor");
    let w = " catalog(s) plus a non-empty next_cursor; aborting to prevent silent truncation";
    reveal_strlit(
        " catalog(s) plus a non-empty next_cursor; aborting to prevent silent truncation",
    );
    let c = " catalog(s)"@;
    let k = c.len() as int;
    let g = "got "@ + decimal(n);
    assert(w@.take(k) =~= c);
    assert(more_catalogs(n) =~= Seq::<char>::empty() + (g + c) + w@.skip(k));
    lemma_shown_between(Seq::empty(), g + c, w@.skip(k));
    let nc = "next_cursor"@;
    assert(w@.subrange(29, 40) =~= nc);
    assert(more_catalogs(n) =~= (g + w@.take(29)) + nc + w@.skip(40));
    lemma_shown_between(g + w@.take(29), nc, w@.skip(40));
    let q = "'"@ + name + "'"@;
    let a = "catalog '"@.take(8);
    assert("catalog '"@ =~= a + "'"@);
    assert(catalog_label(name) =~= a + q + Seq::<char>::empty());
    lemma_shown_between(a, q, Seq::empty());
}

} // verus!
