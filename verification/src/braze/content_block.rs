//! What answers about content blocks mean, and what is sent.
//!
//! Braze knows content blocks by id, templates refer to them by name, so
//! names are looked up in a list first. There is no deletion call.

use crate::braze::error::BrazeApiError;
use crate::braze::{
    check_duplicate_names, check_pagination, classify_info_message, first_repeated,
    says_not_found, says_success, truncation, Call, CallView, InfoMessageClass, Method,
};
use crate::order::{names_of, views, Named};
use crate::resource::catalog::clone_opt;
use crate::resource::content_block::ContentBlockView;
use crate::resource::{ContentBlock, ContentBlockState};
use crate::text::{clone_strs, decimal, decimal_text, opt_text, owned, strs};
use vstd::prelude::*;

verus! {

/// The most entries one list holds.
pub const LIST_LIMIT: usize = 100;

#[derive(Debug, PartialEq)]
pub struct ContentBlockSummary {
    pub content_block_id: String,
    pub name: String,
}

/// What an entry of a list is.
#[verifier::ext_equal]
pub struct ContentBlockSummaryView {
    pub content_block_id: Seq<char>,
    pub name: Seq<char>,
}

impl View for ContentBlockSummary {
    type V = ContentBlockSummaryView;

    open spec fn view(&self) -> ContentBlockSummaryView {
        ContentBlockSummaryView { content_block_id: self.content_block_id@, name: self.name@ }
    }
}

impl Named for ContentBlockSummary {
    open spec fn name_of(v: ContentBlockSummaryView) -> Seq<char> {
        v.name
    }

    fn name_ref(&self) -> (r: &String) {
        &self.name
    }
}

/// Takes a list of content blocks: refused where it is, or may be, cut off,
/// and where a name is repeated.
pub fn list_content_blocks(entries: Vec<ContentBlockSummary>, count: Option<usize>) -> (r: Result<
    Vec<ContentBlockSummary>,
    BrazeApiError,
>)
    ensures
        match r {
            Ok(v) => v == entries && truncation(count, entries.len(), LIST_LIMIT) is None
                && first_repeated(names_of::<ContentBlockSummary>(views(entries@))) is None,
            Err(BrazeApiError::PaginationNotImplemented { endpoint, detail }) => endpoint@
                == "/content_blocks/list"@ && truncation(count, entries.len(), LIST_LIMIT) == Some(
                detail@,
            ),
            Err(BrazeApiError::DuplicateNameInListResponse { endpoint, name }) => endpoint@
                == "/content_blocks/list"@ && truncation(count, entries.len(), LIST_LIMIT) is None
                && first_repeated(names_of::<ContentBlockSummary>(views(entries@))) == Some(name@),
            Err(_) => false,
        },
{
    if let Err(e) = check_pagination(count, entries.len(), LIST_LIMIT, "/content_blocks/list") {
        return Err(e);
    }
    if let Err(e) = check_duplicate_names(&entries, "/content_blocks/list") {
        return Err(e);
    }
    Ok(entries)
}

/// The answer with the details of a content block.
#[derive(Debug, PartialEq)]
pub struct ContentBlockInfo {
    pub name: String,
    pub description: Option<String>,
    pub content: String,
    pub tags: Vec<String>,
    pub message: Option<String>,
}

/// How a block that does not exist is named.
pub open spec fn block_label(id: Seq<char>) -> Seq<char> {
    "content_block id '"@ + id + "'"@
}

/// Takes the details of a content block. Braze reports no state, so a block
/// counts as active.
pub fn get_content_block(id: &str, info: ContentBlockInfo) -> (r: Result<
    ContentBlock,
    BrazeApiError,
>)
    ensures
        ({
            let missing = info.message is Some && !says_success(info.message->0@)
                && says_not_found(info.message->0@, "no content block"@);
            let fine = info.message is None || says_success(info.message->0@);
            &&& fine ==> (r matches Ok(cb) && cb@ == (ContentBlockView {
                name: info.name@,
                description: opt_text(info.description),
                content: info.content@,
                tags: strs(info.tags@),
                state: ContentBlockState::Active,
            }))
            &&& missing ==> (r matches Err(BrazeApiError::NotFound { resource }) && resource@
                == block_label(id@))
            &&& !fine && !missing ==> (r matches Err(
                BrazeApiError::UnexpectedApiMessage { endpoint, message },
            ) && endpoint@ == "/content_blocks/info"@ && message@ == info.message->0@)
        }),
{
    let class = match &info.message {
        Some(m) => classify_info_message(Some(m.as_str()), "no content block"),
        None => classify_info_message(None, "no content block"),
    };
    match class {
        InfoMessageClass::Success => Ok(
            ContentBlock {
                name: info.name,
                description: info.description,
                content: info.content,
                tags: info.tags,
                state: ContentBlockState::Active,
            },
        ),
        InfoMessageClass::NotFound => {
            let mut resource = owned("content_block id '");
            resource.push_str(id);
            resource.push_str("'");
            Err(BrazeApiError::NotFound { resource })
        },
        InfoMessageClass::Unexpected(message) => Err(
            BrazeApiError::UnexpectedApiMessage { endpoint: "/content_blocks/info", message },
        ),
    }
}

/// What is sent to create or update a content block.
#[derive(Debug, PartialEq)]
pub struct ContentBlockWrite {
    pub content_block_id: Option<String>,
    pub name: String,
    pub description: Option<String>,
    pub content: String,
    pub tags: Vec<String>,
    pub state: Option<ContentBlockState>,
}

/// The request says of the block all that braze-sync manages.
pub open spec fn carries(w: ContentBlockWrite, cb: ContentBlockView) -> bool {
    &&& w.name@ == cb.name
    &&& opt_text(w.description) == cb.description
    &&& w.content@ == cb.content
    &&& strs(w.tags@) == cb.tags
}

/// The request that creates a block. Only creation says which state it is in.
pub fn create_content_block(cb: &ContentBlock) -> (r: ContentBlockWrite)
    ensures
        carries(r, cb@),
        r.content_block_id is None,
        r.state == Some(cb.state),
{
    ContentBlockWrite {
        content_block_id: None,
        name: cb.name.clone(),
        description: clone_opt(&cb.description),
        content: cb.content.clone(),
        tags: clone_strs(&cb.tags),
        state: Some(cb.state),
    }
}

/// The request that updates a block. It says nothing of the state: what Braze
/// does not report must not be overwritten.
pub fn update_content_block(id: &str, cb: &ContentBlock) -> (r: ContentBlockWrite)
    ensures
        carries(r, cb@),
        r.content_block_id matches Some(i) && i@ == id@,
        r.state is None,
{
    ContentBlockWrite {
        content_block_id: Some(owned(id)),
        name: cb.name.clone(),
        description: clone_opt(&cb.description),
        content: cb.content.clone(),
        tags: clone_strs(&cb.tags),
        state: None,
    }
}

/// The call that lists content blocks.
pub fn list_content_blocks_call() -> (r: Call)
    ensures
        r@ == (CallView {
            method: Method::Get,
            segments: seq!["content_blocks"@, "list"@],
            query: seq![("limit"@, decimal(LIST_LIMIT as nat))],
        }),
{
    let segments = vec![owned("content_blocks"), owned("list")];
    assert(strs(segments@) =~= seq!["content_blocks"@, "list"@]);
    let call = Call::new(Method::Get, segments);
    let r = call.with_query("limit", decimal_text(LIST_LIMIT as u64).as_str());
    assert(r@.query =~= seq![("limit"@, decimal(LIST_LIMIT as nat))]);
    r
}

/// The call that fetches the details of a block.
pub fn get_content_block_call(id: &str) -> (r: Call)
    ensures
        r@ == (CallView {
            method: Method::Get,
            segments: seq!["content_blocks"@, "info"@],
            query: seq![("content_block_id"@, id@)],
        }),
{
    let segments = vec![owned("content_blocks"), owned("info")];
    assert(strs(segments@) =~= seq!["content_blocks"@, "info"@]);
    let call = Call::new(Method::Get, segments);
    let r = call.with_query("content_block_id", id);
    assert(r@.query =~= seq![("content_block_id"@, id@)]);
    r
}

/// The call that creates a block.
pub fn create_content_block_call() -> (r: Call)
    ensures
        r@ == (CallView {
            method: Method::Post,
            segments: seq!["content_blocks"@, "create"@],
            query: Seq::empty(),
        }),
{
    let segments = vec![owned("content_blocks"), owned("create")];
    assert(strs(segments@) =~= seq!["content_blocks"@, "create"@]);
    Call::new(Method::Post, segments)
}

/// The call that updates a block.
pub fn update_content_block_call() -> (r: Call)
    ensures
        r@ == (CallView {
            method: Method::Post,
            segments: seq!["content_blocks"@, "update"@],
            query: Seq::empty(),
        }),
{
    let segments = vec![owned("content_blocks"), owned("update")];
    assert(strs(segments@) =~= seq!["content_blocks"@, "update"@]);
    Call::new(Method::Post, segments)
}

/// A request holds of a block the name, the description, the content and the
/// tags, each as the block has it; so it fits no block that differs in one.
pub proof fn requests_hold_every_managed_part(
    w: ContentBlockWrite,
    a: ContentBlockView,
    b: ContentBlockView,
)
    requires
        carries(w, a),
    ensures
        w.name@ == a.name,
        w.content@ == a.content,
        opt_text(w.description) == a.description,
        strs(w.tags@) == a.tags,
        carries(w, b) <==> a.name == b.name && a.content == b.content && a.description
            == b.description && a.tags == b.tags,
{
}

/// A block that does not exist is named by its id, and no two ids give the
/// same name.
pub proof fn missing_block_is_named_by_id(id: Seq<char>, other: Seq<char>)
    ensures
        block_label(id) == "content_block id '"@ + id + "'"@,
        block_label(id) == block_label(other) ==> id == other,
{
    let a = "content_block id '"@;
    let n = a.len() as int;
    assert(block_label(id).subrange(n, n + id.len()) =~= id);
    assert(block_label(other).subrange(n, n + other.len()) =~= other);
    assert(block_label(id).len() == n + id.len() + "'"@.len());
    assert(block_label(other).len() == n + other.len() + "'"@.len());
}

} // verus!
