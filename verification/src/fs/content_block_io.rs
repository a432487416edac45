//! Content block files: one `<name>.liquid` per block, with a header and the
//! Liquid body behind it.

use crate::error::Error;
use crate::fs::frontmatter::{document_round_trip, ended, is_header, parsed, render, rendered};
use crate::fs::{
    first_bad, is_safe_name, no_directory, read_values, split_file_name, stem_and_extension,
    take_found, try_read_resource_dir, unsafe_name, validate_resource_name, FileWrite, Found,
    RootListing,
};
use crate::order::{
    lemma_stable_sort_unique, names_of, sorting_ignores_given_order, stable_sort_of, tied, views,
    Named,
};
use crate::resource::catalog::clone_opt;
use crate::resource::content_block::ContentBlockView;
use crate::resource::{ContentBlock, ContentBlockState};
use crate::text::{clone_strs, opt_text, str_eq, strs};
use vstd::prelude::*;

verus! {

/// The header of a content block file: all of the block but its body.
#[derive(Debug, PartialEq)]
pub struct ContentBlockHeader {
    pub name: String,
    pub description: Option<String>,
    pub tags: Vec<String>,
    /// Left out where the state is not known.
    pub state: Option<ContentBlockState>,
}

/// The block of a header and a body. A block whose header names no state is
/// active.
pub open spec fn block_of(h: ContentBlockHeader, body: Seq<char>) -> ContentBlockView {
    ContentBlockView {
        name: h.name@,
        description: opt_text(h.description),
        content: body,
        tags: strs(h.tags@),
        state: match h.state {
            Some(s) => s,
            None => ContentBlockState::Active,
        },
    }
}

/// Puts a block together from what its file holds.
pub fn read_content_block(header: ContentBlockHeader, body: String) -> (r: ContentBlock)
    ensures
        r@ == block_of(header, body@),
{
    let state = match header.state {
        Some(s) => s,
        None => ContentBlockState::Active,
    };
    ContentBlock {
        name: header.name,
        description: header.description,
        content: body,
        tags: header.tags,
        state,
    }
}

/// The header of a block whose state was written by hand.
pub fn header_of(cb: &ContentBlock) -> (r: ContentBlockHeader)
    ensures
        block_of(r, cb@.content) == cb@,
        r.state == Some(cb.state),
{
    ContentBlockHeader {
        name: cb.name.clone(),
        description: clone_opt(&cb.description),
        tags: clone_strs(&cb.tags),
        state: Some(cb.state),
    }
}

/// The header of a block that was fetched from Braze. Braze reports no state,
/// so none is written.
pub fn exported_header_of(cb: &ContentBlock) -> (r: ContentBlockHeader)
    ensures
        block_of(r, cb@.content) == (ContentBlockView { state: ContentBlockState::Active, ..cb@ }),
        r.state is None,
{
    ContentBlockHeader {
        name: cb.name.clone(),
        description: clone_opt(&cb.description),
        tags: clone_strs(&cb.tags),
        state: None,
    }
}

/// The file of a block: its header as YAML and its body, with a line break at
/// the end.
pub open spec fn saved_file(cb: ContentBlockView, yaml: Seq<char>, w: FileWrite) -> bool {
    &&& w.directory is None
    &&& w.file_name@ == cb.name + ".liquid"@
    &&& w.contents@ == ended(rendered(yaml, cb.content))
}

/// The file of a block, given its header as YAML. A name that is not safe is
/// refused.
pub fn save_content_block(cb: &ContentBlock, yaml: &str) -> (r: Result<FileWrite, Error>)
    ensures
        match r {
            Ok(w) => is_safe_name(cb@.name) && saved_file(cb@, yaml@, w),
            Err(Error::InvalidFormat { path, message }) => !is_safe_name(cb@.name) && path@
                == cb@.name && message@ == unsafe_name("content block"@, cb@.name),
            Err(_) => false,
        },
{
    if let Err(e) = validate_resource_name("content block", cb.name.as_str()) {
        return Err(e);
    }
    let mut file_name = cb.name.clone();
    file_name.push_str(".liquid");
    let mut contents = render(yaml, cb.content.as_str());
    let c = crate::text::chars_of(contents.as_str());
    let n: usize = c.len();
    if n == 0 || c[n - 1] != '\n' {
        contents.push_str("\n");
    }
    Ok(FileWrite { directory: None, file_name, contents })
}

/// What a body is once it was saved: it gains a line break at its end where it
/// has none and is not empty.
pub open spec fn stored_body(content: Seq<char>) -> Seq<char> {
    if content.len() == 0 {
        content
    } else {
        ended(content)
    }
}

/// What is written of a block can be read back: the header as YAML, and the
/// body, which gains a line break at its end where it has none and is not
/// empty.
pub proof fn saved_block_reads_back(yaml: Seq<char>, content: Seq<char>)
    requires
        is_header(yaml),
    ensures
        parsed(ended(rendered(yaml, content))) == Ok::<(Seq<char>, Seq<char>), Seq<char>>(
            (ended(yaml), stored_body(content)),
        ),
{
    reveal_strlit("---\n");
    reveal_strlit("\n");
    let text = rendered(yaml, content);
    let body = stored_body(content);
    if content.len() == 0 {
        assert(text =~= "---\n"@ + ended(yaml) + "---\n"@);
        assert(text.last() == '\n');
    } else {
        assert(text.last() == content.last());
    }
    assert(ended(text) =~= rendered(yaml, body));
    document_round_trip(yaml, body);
}

/// A file in the directory of content blocks.
#[derive(Debug)]
pub struct BlockFile {
    pub path: String,
    pub file_name: String,
    pub is_file: bool,
    /// What reading the file as a block gave. Looked at for block files only.
    pub block: Result<ContentBlock, Error>,
}

/// The entry is a content block file.
pub open spec fn is_block_file(is_file: bool, file_name: Seq<char>) -> bool {
    is_file && stem_and_extension(file_name).1 == Some("liquid"@)
}

/// Whether an entry is a content block file.
pub fn holds_content_block(is_file: bool, file_name: &str) -> (r: bool)
    ensures
        r == is_block_file(is_file, file_name@),
{
    if !is_file {
        return false;
    }
    match split_file_name(file_name).1 {
        Some(e) => str_eq(e.as_str(), "liquid"),
        None => false,
    }
}

/// What the block files among the entries hold.
pub open spec fn found_blocks(entries: Seq<BlockFile>, found: Seq<Found<ContentBlock>>) -> bool
    decreases entries.len(),
{
    if entries.len() == 0 {
        found.len() == 0
    } else {
        let e = entries.last();
        if is_block_file(e.is_file, e.file_name@) {
            &&& found.len() > 0
            &&& found.last().path@ == e.path@
            &&& found.last().expected_name@ == stem_and_extension(e.file_name@).0
            &&& found.last().value == e.block
            &&& found_blocks(entries.drop_last(), found.drop_last())
        } else {
            found_blocks(entries.drop_last(), found)
        }
    }
}

/// The outcome of taking over what was found.
pub open spec fn taken_blocks(
    found: Seq<Found<ContentBlock>>,
    r: Result<Vec<ContentBlock>, Error>,
) -> bool {
    match first_bad(found) {
        None => r matches Ok(v) && stable_sort_of::<ContentBlock>(read_values(found), views(v@)),
        Some(i) => 0 <= i < found.len() && match found[i].value {
            Err(e) => r == Err::<Vec<ContentBlock>, Error>(e),
            Ok(t) => r matches Err(Error::InvalidFormat { path, message }) && path@
                == found[i].path@ && message@ == crate::fs::misnamed(
                "content block"@,
                "file stem"@,
                t@.name,
                found[i].expected_name@,
            ),
        },
    }
}

/// What loading the content blocks under a root gives.
pub open spec fn is_loaded(
    root: Seq<char>,
    listing: RootListing<BlockFile>,
    r: Result<Vec<ContentBlock>, Error>,
) -> bool {
    match listing {
        RootListing::Missing => r matches Ok(v) && v@.len() == 0,
        RootListing::NotADirectory => r matches Err(Error::InvalidFormat { path, message })
            && path@ == root && message@ == no_directory("content_blocks"@),
        RootListing::Unreadable(m) => r == Err::<Vec<ContentBlock>, Error>(Error::Io(m)),
        RootListing::Entries(v) => exists|found: Seq<Found<ContentBlock>>| #[trigger]
            found_blocks(v@, found) && taken_blocks(found, r),
    }
}

/// Takes all content blocks of a directory over, in order of name. Files that
/// are no block files are passed over. The name of a block has to be that of
/// its file.
pub fn load_all_content_blocks(root: &str, listing: RootListing<BlockFile>) -> (r: Result<
    Vec<ContentBlock>,
    Error,
>)
    ensures
        is_loaded(root@, listing, r),
{
    if let RootListing::Missing = listing {
        return Ok(Vec::new());
    }
    let entries = match try_read_resource_dir(root, "content_blocks", listing) {
        Ok(v) => v,
        Err(e) => return Err(e),
    };
    let mut found: Vec<Found<ContentBlock>> = Vec::new();
    let ghost all = entries@;
    let n: usize = entries.len();
    let mut i: usize = 0;
    for e in it: entries
        invariant
            i == it.index(),
            it.seq() == all,
            n == all.len(),
            found_blocks(all.take(i as int), found@),
    {
        proof {
            assert(all.take(i + 1).drop_last() =~= all.take(i as int));
            assert(all.take(i + 1).last() == e);
        }
        let ghost before = found@;
        if holds_content_block(e.is_file, e.file_name.as_str()) {
            let stem = split_file_name(e.file_name.as_str()).0;
            found.push(Found { path: e.path, expected_name: stem, value: e.block });
            assert(found@.drop_last() =~= before);
        }
        i = i + 1;
    }
    assert(all.take(i as int) =~= all);
    let ghost gathered = found@;
    let r = take_found(found, "content block", "file stem");
    proof {
        assert(found_blocks(all, gathered));
        assert(taken_blocks(gathered, r));
    }
    r
}

/// A header that is read back as that of the block.
pub open spec fn is_header_of(header: ContentBlockHeader, cb: ContentBlockView) -> bool {
    block_of(header, cb.content) == cb
}

/// The entry is the file that a block was saved to, and what was read there is
/// what the file holds, its header read back as it was written.
pub open spec fn holds_saved(e: BlockFile, cb: ContentBlockView) -> bool {
    &&& e.is_file
    &&& exists|yaml: Seq<char>, w: FileWrite, h: ContentBlockHeader|
        {
            &&& is_header(yaml)
            &&& #[trigger] saved_file(cb, yaml, w)
            &&& #[trigger] is_header_of(h, cb)
            &&& e.file_name@ == w.file_name@
            &&& e.block matches Ok(read) && parsed(w.contents@) matches Ok(p) && read@ == block_of(
                h,
                p.1,
            )
        }
}

/// The entries are the files that the blocks were saved to, each once, listed
/// in whatever order.
pub open spec fn hold_saved(entries: Seq<BlockFile>, cbs: Seq<ContentBlockView>) -> bool {
    exists|order: Seq<ContentBlockView>|
        {
            &&& #[trigger] order.to_set() == cbs.to_set()
            &&& order.no_duplicates()
            &&& order.len() == entries.len()
            &&& forall|i: int| 0 <= i < entries.len() ==> holds_saved(#[trigger] entries[i], order[i])
        }
}

/// What a block is once it was saved.
pub open spec fn stored(cb: ContentBlockView) -> ContentBlockView {
    ContentBlockView { content: stored_body(cb.content), ..cb }
}

/// What was saved is loaded: blocks of distinct names that were saved to an
/// empty root are loaded as they were, but for the line break at the end of a
/// body, in order of name. A root that is missing holds none.
pub proof fn saved_blocks_load_back(
    cbs: Seq<ContentBlockView>,
    root: Seq<char>,
    listing: RootListing<BlockFile>,
    r: Result<Vec<ContentBlock>, Error>,
)
    requires
        names_of::<ContentBlock>(cbs).no_duplicates(),
        forall|i: int| 0 <= i < cbs.len() ==> is_safe_name((#[trigger] cbs[i]).name),
        match listing {
            RootListing::Missing => cbs.len() == 0,
            RootListing::Entries(entries) => hold_saved(entries@, cbs),
            _ => false,
        },
        is_loaded(root, listing, r),
    ensures
        r matches Ok(v) && stable_sort_of::<ContentBlock>(
            cbs.map_values(|cb: ContentBlockView| stored(cb)),
            views(v@),
        ) && (cbs.len() == 0 ==> v@.len() == 0),
{
    let keep = |cb: ContentBlockView| stored(cb);
    let wanted = cbs.map_values(keep);
    let out = views(r->Ok_0@);
    match listing {
        RootListing::Entries(v) => {
            let entries = v@;
            let order = choose|order: Seq<ContentBlockView>|
                {
                    &&& #[trigger] order.to_set() == cbs.to_set()
                    &&& order.no_duplicates()
                    &&& order.len() == entries.len()
                    &&& forall|i: int|
                        0 <= i < entries.len() ==> holds_saved(#[trigger] entries[i], order[i])
                };
            let found = choose|found: Seq<Found<ContentBlock>>| #[trigger]
                found_blocks(entries, found) && taken_blocks(found, r);
            let listed = order.map_values(keep);
            assert forall|i: int| 0 <= i < order.len() implies is_safe_name(
                (#[trigger] order[i]).name,
            ) by {
                assert(order.to_set().contains(order[i]));
                assert(cbs.to_set().contains(order[i]));
            }
            lemma_saved_are_found(entries, order, found);
            crate::fs::lemma_nothing_bad::<ContentBlock>(found, listed);
            let nc = names_of::<ContentBlock>(cbs);
            let nw = names_of::<ContentBlock>(wanted);
            let nl = names_of::<ContentBlock>(listed);
            assert(nw =~= nc);
            assert forall|a: int, b: int| 0 <= a < nl.len() && 0 <= b < nl.len() && a
                != b implies nl[a] != nl[b] by {
                assert(order.to_set().contains(order[a]) && order.to_set().contains(order[b]));
                assert(cbs.to_set().contains(order[a]) && cbs.to_set().contains(order[b]));
                let i = choose|i: int| 0 <= i < cbs.len() && cbs[i] == order[a];
                let j = choose|j: int| 0 <= j < cbs.len() && cbs[j] == order[b];
                assert(order[a] != order[b]);
                assert(nc[i] != nc[j]);
            }
            assert forall|x: ContentBlockView| listed.to_set().contains(x)
                == wanted.to_set().contains(x) by {
                if listed.contains(x) {
                    let i = choose|i: int| 0 <= i < listed.len() && listed[i] == x;
                    assert(order.to_set().contains(order[i]));
                    assert(cbs.to_set().contains(order[i]));
                    let j = choose|j: int| 0 <= j < cbs.len() && cbs[j] == order[i];
                    assert(wanted[j] == x);
                }
                if wanted.contains(x) {
                    let i = choose|i: int| 0 <= i < wanted.len() && wanted[i] == x;
                    assert(cbs.to_set().contains(cbs[i]));
                    assert(order.to_set().contains(cbs[i]));
                    let j = choose|j: int| 0 <= j < order.len() && order[j] == cbs[i];
                    assert(listed[j] == x);
                }
            }
            assert(listed.to_set() =~= wanted.to_set());
            assert forall|x: ContentBlockView, y: ContentBlockView| #[trigger]
                tied::<ContentBlock>(x, y) implies ContentBlock::name_of(x)
                == ContentBlock::name_of(y) by {
                crate::text::lemma_text_lt_total(x.name, y.name);
            }
            sorting_ignores_given_order::<ContentBlock>(listed, wanted, out);
            if cbs.len() == 0 {
                lemma_stable_sort_unique::<ContentBlock>(wanted, wanted, out);
            }
        },
        _ => {
            assert(wanted =~= out);
        },
    }
}

proof fn lemma_saved_are_found(
    entries: Seq<BlockFile>,
    order: Seq<ContentBlockView>,
    found: Seq<Found<ContentBlock>>,
)
    requires
        order.len() == entries.len(),
        forall|i: int| 0 <= i < entries.len() ==> holds_saved(#[trigger] entries[i], order[i]),
        forall|i: int| 0 <= i < order.len() ==> is_safe_name((#[trigger] order[i]).name),
        found_blocks(entries, found),
    ensures
        found.len() == order.len(),
        forall|i: int|
            0 <= i < found.len() ==> (#[trigger] found[i]).value is Ok && found[i].value->Ok_0@
                == stored(order[i]) && order[i].name == found[i].expected_name@,
    decreases entries.len(),
{
    if entries.len() > 0 {
        let n = entries.len() - 1;
        let e = entries.last();
        assert(entries[n] == e);
        assert(holds_saved(e, order[n]));
        let (yaml, w, h) = choose|yaml: Seq<char>, w: FileWrite, h: ContentBlockHeader|
            {
                &&& is_header(yaml)
                &&& #[trigger] saved_file(order[n], yaml, w)
                &&& #[trigger] is_header_of(h, order[n])
                &&& e.file_name@ == w.file_name@
                &&& e.block matches Ok(read) && parsed(w.contents@) matches Ok(p) && read@
                    == block_of(h, p.1)
            };
        saved_block_reads_back(yaml, order[n].content);
        lemma_block_file_name(order[n].name);
        let p = entries.drop_last();
        let q = order.drop_last();
        assert forall|i: int| 0 <= i < p.len() implies holds_saved(#[trigger] p[i], q[i]) by {
            assert(p[i] == entries[i]);
        }
        assert forall|i: int| 0 <= i < q.len() implies is_safe_name((#[trigger] q[i]).name) by {
            assert(q[i] == order[i]);
        }
        lemma_saved_are_found(p, q, found.drop_last());
        assert forall|i: int| 0 <= i < found.len() implies (#[trigger] found[i]).value is Ok
            && found[i].value->Ok_0@ == stored(order[i]) && order[i].name
            == found[i].expected_name@ by {
            if i < n {
                assert(found.drop_last()[i] == found[i]);
            }
        }
    }
}

/// The file name of a block gives its name back.
proof fn lemma_block_file_name(name: Seq<char>)
    requires
        name.len() > 0,
    ensures
        stem_and_extension(name + ".liquid"@) == (name, Some("liquid"@)),
{
    reveal_strlit(".liquid");
    reveal_strlit("liquid");
    let f = name + ".liquid"@;
    let n = name.len() as int;
    assert(f[n] == '.');
    assert(f.contains('.'));
    f.index_of_last_ensures('.');
    let i = f.index_of_last('.')->0;
    assert(forall|j: int| n < j < f.len() ==> f[j] != '.');
    assert(i == n);
    assert(f.take(n) =~= name);
    assert(f.skip(n + 1) =~= "liquid"@);
}

/// A block takes each part from where it stands in its file, and one whose
/// header names no state is active.
pub proof fn block_is_made_of_header_and_body(h: ContentBlockHeader, body: Seq<char>)
    ensures
        block_of(h, body).name == h.name@,
        block_of(h, body).description == opt_text(h.description),
        block_of(h, body).content == body,
        block_of(h, body).tags == strs(h.tags@),
        h.state matches Some(s) ==> block_of(h, body).state == s,
        h.state is None ==> block_of(h, body).state == ContentBlockState::Active,
{
}

/// A block is saved to a file that is loaded as a block of that name: the
/// stem of the file is the name.
pub proof fn saved_file_is_named_after_its_block(
    cb: ContentBlockView,
    yaml: Seq<char>,
    w: FileWrite,
)
    requires
        saved_file(cb, yaml, w),
        is_safe_name(cb.name),
    ensures
        w.directory is None,
        is_block_file(true, w.file_name@),
        !is_block_file(false, w.file_name@),
        stem_and_extension(w.file_name@) == (cb.name, Some("liquid"@)),
        cb.content.len() > 0 && cb.content.last() == '\n' ==> cb.content.is_suffix_of(w.contents@),
{
    reveal_strlit(".liquid");
    reveal_strlit("liquid");
    assert(w.file_name@ =~= cb.name + seq!['.'] + "liquid"@);
    assert(!"liquid"@.contains('.'));
    crate::fs::extension_follows_the_last_dot(cb.name, "liquid"@);
    if cb.content.len() > 0 && cb.content.last() == '\n' {
        let t = rendered(yaml, cb.content);
        assert(t.last() == '\n');
        assert(t.skip(t.len() - cb.content.len()) =~= cb.content);
    }
}

/// Every block file among the entries is found, with its path, its stem for
/// a name and what was read there.
pub proof fn block_file_is_found(
    entries: Seq<BlockFile>,
    found: Seq<Found<ContentBlock>>,
    i: int,
) -> (k: int)
    requires
        found_blocks(entries, found),
        0 <= i < entries.len(),
        entries[i].is_file,
        stem_and_extension(entries[i].file_name@).1 == Some("liquid"@),
    ensures
        0 <= k < found.len(),
        found[k].path@ == entries[i].path@,
        found[k].expected_name@ == stem_and_extension(entries[i].file_name@).0,
        found[k].value == entries[i].block,
    decreases entries.len(),
{
    let e = entries.last();
    if i == entries.len() - 1 {
        found.len() - 1
    } else if is_block_file(e.is_file, e.file_name@) {
        block_file_is_found(entries.drop_last(), found.drop_last(), i)
    } else {
        block_file_is_found(entries.drop_last(), found, i)
    }
}

/// Whatever is found was read from a block file among the entries.
pub proof fn found_block_has_its_file(
    entries: Seq<BlockFile>,
    found: Seq<Found<ContentBlock>>,
    k: int,
) -> (i: int)
    requires
        found_blocks(entries, found),
        0 <= k < found.len(),
    ensures
        0 <= i < entries.len(),
        entries[i].is_file,
        stem_and_extension(entries[i].file_name@).1 == Some("liquid"@),
        found[k].path@ == entries[i].path@,
        found[k].value == entries[i].block,
    decreases entries.len(),
{
    let e = entries.last();
    if is_block_file(e.is_file, e.file_name@) {
        if k == found.len() - 1 {
            entries.len() - 1
        } else {
            found_block_has_its_file(entries.drop_last(), found.drop_last(), k)
        }
    } else {
        found_block_has_its_file(entries.drop_last(), found, k)
    }
}

/// Blocks are loaded exactly if each was read and has the name of its file.
pub proof fn misnamed_blocks_are_not_loaded(
    found: Seq<Found<ContentBlock>>,
    r: Result<Vec<ContentBlock>, Error>,
)
    requires
        taken_blocks(found, r),
    ensures
        r is Ok <==> forall|i: int|
            0 <= i < found.len() ==> (#[trigger] found[i]).value is Ok
                && found[i].value->Ok_0@.name == found[i].expected_name@,
{
    crate::fs::first_bad_resource_stops_loading(found);
    if r is Ok {
        assert forall|i: int| 0 <= i < found.len() implies (#[trigger] found[i]).value is Ok
            && found[i].value->Ok_0@.name == found[i].expected_name@ by {
            assert(<ContentBlock as Named>::name_of(found[i].value->Ok_0@)
                == found[i].value->Ok_0@.name);
        }
    } else if first_bad(found) is Some {
        let k = first_bad(found)->0;
        assert(found[k].value is Ok ==> <ContentBlock as Named>::name_of(found[k].value->Ok_0@)
            == found[k].value->Ok_0@.name);
    }
}

/// A root that is missing holds no block; one that is no directory, or that
/// cannot be listed, is an error.
pub proof fn missing_root_holds_no_block(
    root: Seq<char>,
    listing: RootListing<BlockFile>,
    r: Result<Vec<ContentBlock>, Error>,
)
    requires
        is_loaded(root, listing, r),
    ensures
        listing is Missing ==> r is Ok && r->Ok_0@.len() == 0,
        listing is NotADirectory ==> (r matches Err(Error::InvalidFormat { path, .. }) && path@
            == root),
        listing matches RootListing::Unreadable(m) ==> (r matches Err(Error::Io(t)) && t == m),
{
}

} // verus!
