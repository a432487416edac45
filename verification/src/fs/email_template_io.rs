//! Email template directories: `template.yaml` with everything but the
//! bodies, `body.html` and `body.txt`.

use crate::error::Error;
use crate::fs::{
    first_bad, is_safe_name, no_directory, read_values, take_found, try_read_resource_dir,
    unsafe_name, validate_resource_name, FileWrite, Found, RootListing,
};
use crate::order::{
    lemma_stable_sort_unique, names_of, sorting_ignores_given_order, stable_sort_of, tied, views,
    Named,
};
use crate::resource::catalog::clone_opt;
use crate::resource::email_template::EmailTemplateView;
use crate::resource::EmailTemplate;
use crate::text::{clone_strs, opt_text, owned, strs, text_or_empty};
use vstd::prelude::*;

verus! {

/// What `template.yaml` holds: all of the template but its bodies.
#[derive(Debug, PartialEq)]
pub struct EmailTemplateHeader {
    pub name: String,
    pub subject: String,
    pub description: Option<String>,
    pub preheader: Option<String>,
    pub should_inline_css: Option<bool>,
    pub tags: Vec<String>,
}

/// The template of a header and two bodies.
pub open spec fn template_of(
    h: EmailTemplateHeader,
    html: Seq<char>,
    plain: Seq<char>,
) -> EmailTemplateView {
    EmailTemplateView {
        name: h.name@,
        subject: h.subject@,
        body_html: html,
        body_plaintext: plain,
        description: opt_text(h.description),
        preheader: opt_text(h.preheader),
        should_inline_css: h.should_inline_css,
        tags: strs(h.tags@),
    }
}

fn or_empty(o: Option<String>) -> (r: String)
    ensures
        r@ == text_or_empty(opt_text(o)),
{
    match o {
        Some(s) => s,
        None => String::new(),
    }
}

/// Puts a template together from what its directory holds. A body whose file
/// is missing is empty.
pub fn read_email_template_dir(
    header: EmailTemplateHeader,
    body_html: Option<String>,
    body_txt: Option<String>,
) -> (r: EmailTemplate)
    ensures
        r@ == template_of(
            header,
            text_or_empty(opt_text(body_html)),
            text_or_empty(opt_text(body_txt)),
        ),
{
    EmailTemplate {
        name: header.name,
        subject: header.subject,
        body_html: or_empty(body_html),
        body_plaintext: or_empty(body_txt),
        description: header.description,
        preheader: header.preheader,
        should_inline_css: header.should_inline_css,
        tags: header.tags,
    }
}

/// The header of a template. With the two bodies it is the whole template.
pub fn header_of(et: &EmailTemplate) -> (r: EmailTemplateHeader)
    ensures
        template_of(r, et@.body_html, et@.body_plaintext) == et@,
{
    EmailTemplateHeader {
        name: et.name.clone(),
        subject: et.subject.clone(),
        description: clone_opt(&et.description),
        preheader: clone_opt(&et.preheader),
        should_inline_css: et.should_inline_css,
        tags: clone_strs(&et.tags),
    }
}

fn in_directory(directory: &String, file_name: &str, contents: String) -> (r: FileWrite)
    ensures
        opt_text(r.directory) == Some(directory@),
        r.file_name@ == file_name@,
        r.contents@ == contents@,
{
    FileWrite { directory: Some(directory.clone()), file_name: owned(file_name), contents }
}

/// The file of the given name and contents in the given directory.
pub open spec fn is_file_in(
    w: FileWrite,
    directory: Seq<char>,
    file_name: Seq<char>,
    contents: Seq<char>,
) -> bool {
    opt_text(w.directory) == Some(directory) && w.file_name@ == file_name && w.contents@
        == contents
}

/// The three files of a template: its header as YAML, and its bodies as they
/// are.
pub open spec fn saved_files(et: EmailTemplateView, yaml: Seq<char>, w: Seq<FileWrite>) -> bool {
    &&& w.len() == 3
    &&& is_file_in(w[0], et.name, "template.yaml"@, "# Generated by braze-sync.\n"@ + yaml)
    &&& is_file_in(w[1], et.name, "body.html"@, et.body_html)
    &&& is_file_in(w[2], et.name, "body.txt"@, et.body_plaintext)
}

/// The files of a template, given its header as YAML. The bodies are written
/// as they are. A name that is not safe is refused.
pub fn save_email_template(et: &EmailTemplate, yaml: &str) -> (r: Result<Vec<FileWrite>, Error>)
    ensures
        match r {
            Ok(w) => is_safe_name(et@.name) && saved_files(et@, yaml@, w@),
            Err(Error::InvalidFormat { path, message }) => !is_safe_name(et@.name) && path@
                == et@.name && message@ == unsafe_name("email template"@, et@.name),
            Err(_) => false,
        },
{
    if let Err(e) = validate_resource_name("email template", et.name.as_str()) {
        return Err(e);
    }
    let mut text = owned("# Generated by braze-sync.\n");
    text.push_str(yaml);
    let mut out: Vec<FileWrite> = Vec::new();
    out.push(in_directory(&et.name, "template.yaml", text));
    out.push(in_directory(&et.name, "body.html", et.body_html.clone()));
    out.push(in_directory(&et.name, "body.txt", et.body_plaintext.clone()));
    Ok(out)
}

/// A header that is read back as that of the template.
pub open spec fn is_header_of(header: EmailTemplateHeader, et: EmailTemplateView) -> bool {
    template_of(header, et.body_html, et.body_plaintext) == et
}

/// A template that was saved is read back as it was where its header is: both
/// bodies are written as they are.
pub proof fn saved_template_reads_back(
    et: EmailTemplateView,
    yaml: Seq<char>,
    w: Seq<FileWrite>,
    header: EmailTemplateHeader,
)
    requires
        saved_files(et, yaml, w),
        is_header_of(header, et),
    ensures
        template_of(header, w[1].contents@, w[2].contents@) == et,
{
}

/// A directory, or something else, in the directory of email templates.
#[derive(Debug)]
pub struct TemplateDir {
    /// Where its `template.yaml` is.
    pub path: String,
    pub dir_name: String,
    pub is_dir: bool,
    /// Whether it has a `template.yaml`.
    pub has_yaml: bool,
    /// What reading the directory gave. Looked at for template directories
    /// only.
    pub template: Result<EmailTemplate, Error>,
}

/// What the template directories among the entries hold.
pub open spec fn found_templates(
    entries: Seq<TemplateDir>,
    found: Seq<Found<EmailTemplate>>,
) -> bool
    decreases entries.len(),
{
    if entries.len() == 0 {
        found.len() == 0
    } else {
        let e = entries.last();
        if e.is_dir && e.has_yaml {
            &&& found.len() > 0
            &&& found.last().path@ == e.path@
            &&& found.last().expected_name@ == e.dir_name@
            &&& found.last().value == e.template
            &&& found_templates(entries.drop_last(), found.drop_last())
        } else {
            found_templates(entries.drop_last(), found)
        }
    }
}

/// The outcome of taking over what was found.
pub open spec fn taken_templates(
    found: Seq<Found<EmailTemplate>>,
    r: Result<Vec<EmailTemplate>, Error>,
) -> bool {
    match first_bad(found) {
        None => r matches Ok(v) && stable_sort_of::<EmailTemplate>(read_values(found), views(v@)),
        Some(i) => 0 <= i < found.len() && match found[i].value {
            Err(e) => r == Err::<Vec<EmailTemplate>, Error>(e),
            Ok(t) => r matches Err(Error::InvalidFormat { path, message }) && path@
                == found[i].path@ && message@ == crate::fs::misnamed(
                "email template"@,
                "directory"@,
                t@.name,
                found[i].expected_name@,
            ),
        },
    }
}

/// What loading the email templates under a root gives.
pub open spec fn is_loaded(
    root: Seq<char>,
    listing: RootListing<TemplateDir>,
    r: Result<Vec<EmailTemplate>, Error>,
) -> bool {
    match listing {
        RootListing::Missing => r matches Ok(v) && v@.len() == 0,
        RootListing::NotADirectory => r matches Err(Error::InvalidFormat { path, message })
            && path@ == root && message@ == no_directory("email_templates"@),
        RootListing::Unreadable(m) => r == Err::<Vec<EmailTemplate>, Error>(Error::Io(m)),
        RootListing::Entries(v) => exists|found: Seq<Found<EmailTemplate>>| #[trigger]
            found_templates(v@, found) && taken_templates(found, r),
    }
}

/// Takes all email templates of a directory over, in order of name. What is
/// no directory, or has no `template.yaml`, is passed over. The name of a
/// template has to be that of its directory.
pub fn load_all_email_templates(root: &str, listing: RootListing<TemplateDir>) -> (r: Result<
    Vec<EmailTemplate>,
    Error,
>)
    ensures
        is_loaded(root@, listing, r),
{
    if let RootListing::Missing = listing {
        return Ok(Vec::new());
    }
    let entries = match try_read_resource_dir(root, "email_templates", listing) {
        Ok(v) => v,
        Err(e) => return Err(e),
    };
    let mut found: Vec<Found<EmailTemplate>> = Vec::new();
    let ghost all = entries@;
    let n: usize = entries.len();
    let mut i: usize = 0;
    for e in it: entries
        invariant
            i == it.index(),
            it.seq() == all,
            n == all.len(),
            found_templates(all.take(i as int), found@),
    {
        proof {
            assert(all.take(i + 1).drop_last() =~= all.take(i as int));
            assert(all.take(i + 1).last() == e);
        }
        let ghost before = found@;
        if e.is_dir && e.has_yaml {
            found.push(Found { path: e.path, expected_name: e.dir_name, value: e.template });
            assert(found@.drop_last() =~= before);
        }
        i = i + 1;
    }
    assert(all.take(i as int) =~= all);
    let ghost gathered = found@;
    let r = take_found(found, "email template", "directory");
    proof {
        assert(found_templates(all, gathered));
        assert(taken_templates(gathered, r));
    }
    r
}

/// The entry is the directory that a template was saved to, and what was read
/// there is what its files hold, its header read back as it was written.
pub open spec fn holds_saved(e: TemplateDir, t: EmailTemplateView) -> bool {
    &&& e.is_dir
    &&& e.has_yaml
    &&& exists|yaml: Seq<char>, w: Seq<FileWrite>, h: EmailTemplateHeader|
        {
            &&& #[trigger] saved_files(t, yaml, w)
            &&& #[trigger] is_header_of(h, t)
            &&& opt_text(w[0].directory) == Some(e.dir_name@)
            &&& e.template matches Ok(read) && read@ == template_of(
                h,
                w[1].contents@,
                w[2].contents@,
            )
        }
}

/// The entries are the directories that the templates were saved to, each
/// once, listed in whatever order.
pub open spec fn hold_saved(entries: Seq<TemplateDir>, ts: Seq<EmailTemplateView>) -> bool {
    exists|order: Seq<EmailTemplateView>|
        {
            &&& #[trigger] order.to_set() == ts.to_set()
            &&& order.no_duplicates()
            &&& order.len() == entries.len()
            &&& forall|i: int| 0 <= i < entries.len() ==> holds_saved(#[trigger] entries[i], order[i])
        }
}

/// What was saved is loaded: templates of distinct names that were saved to an
/// empty root are loaded as they were, every field and both bodies, in order
/// of name. A root that is missing holds none.
pub proof fn saved_templates_load_back(
    ts: Seq<EmailTemplateView>,
    root: Seq<char>,
    listing: RootListing<TemplateDir>,
    r: Result<Vec<EmailTemplate>, Error>,
)
    requires
        names_of::<EmailTemplate>(ts).no_duplicates(),
        match listing {
            RootListing::Missing => ts.len() == 0,
            RootListing::Entries(entries) => hold_saved(entries@, ts),
            _ => false,
        },
        is_loaded(root, listing, r),
    ensures
        r matches Ok(v) && stable_sort_of::<EmailTemplate>(ts, views(v@)) && (ts.len() == 0
            ==> v@.len() == 0),
{
    match listing {
        RootListing::Entries(v) => {
            let entries = v@;
            let order = choose|order: Seq<EmailTemplateView>|
                {
                    &&& #[trigger] order.to_set() == ts.to_set()
                    &&& order.no_duplicates()
                    &&& order.len() == entries.len()
                    &&& forall|i: int|
                        0 <= i < entries.len() ==> holds_saved(#[trigger] entries[i], order[i])
                };
            let found = choose|found: Seq<Found<EmailTemplate>>| #[trigger]
                found_templates(entries, found) && taken_templates(found, r);
            lemma_saved_are_found(entries, order, found);
            crate::fs::lemma_nothing_bad::<EmailTemplate>(found, order);
            let ns = names_of::<EmailTemplate>(ts);
            let no = names_of::<EmailTemplate>(order);
            assert forall|a: int, b: int| 0 <= a < no.len() && 0 <= b < no.len() && a
                != b implies no[a] != no[b] by {
                assert(order.to_set().contains(order[a]) && order.to_set().contains(order[b]));
                assert(ts.to_set().contains(order[a]) && ts.to_set().contains(order[b]));
                let i = choose|i: int| 0 <= i < ts.len() && ts[i] == order[a];
                let j = choose|j: int| 0 <= j < ts.len() && ts[j] == order[b];
                assert(order[a] != order[b]);
                assert(ns[i] != ns[j]);
            }
            assert forall|x: EmailTemplateView, y: EmailTemplateView| #[trigger]
                tied::<EmailTemplate>(x, y) implies EmailTemplate::name_of(x)
                == EmailTemplate::name_of(y) by {
                crate::text::lemma_text_lt_total(x.name, y.name);
            }
            let out = views(r->Ok_0@);
            sorting_ignores_given_order::<EmailTemplate>(order, ts, out);
            if ts.len() == 0 {
                lemma_stable_sort_unique::<EmailTemplate>(ts, ts, out);
            }
        },
        _ => {
            let out = views(r->Ok_0@);
            assert(ts =~= out);
        },
    }
}

proof fn lemma_saved_are_found(
    entries: Seq<TemplateDir>,
    order: Seq<EmailTemplateView>,
    found: Seq<Found<EmailTemplate>>,
)
    requires
        order.len() == entries.len(),
        forall|i: int| 0 <= i < entries.len() ==> holds_saved(#[trigger] entries[i], order[i]),
        found_templates(entries, found),
    ensures
        found.len() == order.len(),
        forall|i: int|
            0 <= i < found.len() ==> (#[trigger] found[i]).value is Ok && found[i].value->Ok_0@
                == order[i] && order[i].name == found[i].expected_name@,
    decreases entries.len(),
{
    if entries.len() > 0 {
        let n = entries.len() - 1;
        let e = entries.last();
        assert(entries[n] == e);
        assert(holds_saved(e, order[n]));
        let p = entries.drop_last();
        assert forall|i: int| 0 <= i < p.len() implies holds_saved(
            #[trigger] p[i],
            order.drop_last()[i],
        ) by {
            assert(p[i] == entries[i]);
        }
        lemma_saved_are_found(p, order.drop_last(), found.drop_last());
        assert forall|i: int| 0 <= i < found.len() implies (#[trigger] found[i]).value is Ok
            && found[i].value->Ok_0@ == order[i] && order[i].name == found[i].expected_name@ by {
            if i < n {
                assert(found.drop_last()[i] == found[i]);
            }
        }
    }
}

/// A template takes each part from where it stands in its directory.
pub proof fn template_is_made_of_header_and_bodies(
    h: EmailTemplateHeader,
    html: Seq<char>,
    plain: Seq<char>,
)
    ensures
        template_of(h, html, plain).name == h.name@,
        template_of(h, html, plain).subject == h.subject@,
        template_of(h, html, plain).body_html == html,
        template_of(h, html, plain).body_plaintext == plain,
        template_of(h, html, plain).description == opt_text(h.description),
        template_of(h, html, plain).preheader == opt_text(h.preheader),
        template_of(h, html, plain).should_inline_css == h.should_inline_css,
        template_of(h, html, plain).tags == strs(h.tags@),
{
}

/// A template is saved to a directory of its name: one file with the header,
/// one with the HTML body and one with the plain text body.
pub proof fn saved_files_lie_in_the_directory_of_the_template(
    t: EmailTemplateView,
    yaml: Seq<char>,
    w: Seq<FileWrite>,
)
    requires
        saved_files(t, yaml, w),
    ensures
        w.len() == 3,
        forall|i: int| 0 <= i < 3 ==> opt_text((#[trigger] w[i]).directory) == Some(t.name),
        w[0].file_name@ == "template.yaml"@,
        w[1].file_name@ == "body.html"@,
        w[2].file_name@ == "body.txt"@,
        yaml.is_suffix_of(w[0].contents@),
        w[1].contents@ == t.body_html,
        w[2].contents@ == t.body_plaintext,
{
    let c = w[0].contents@;
    assert(c.skip(c.len() - yaml.len()) =~= yaml);
    assert forall|i: int| 0 <= i < 3 implies opt_text((#[trigger] w[i]).directory) == Some(
        t.name,
    ) by {
        if i == 1 {
            assert(is_file_in(w[1], t.name, "body.html"@, t.body_html));
        } else if i == 2 {
            assert(is_file_in(w[2], t.name, "body.txt"@, t.body_plaintext));
        }
    }
}

/// Every directory with a header among the entries is found, under its name
/// and with what was read there.
pub proof fn template_directory_is_found(
    entries: Seq<TemplateDir>,
    found: Seq<Found<EmailTemplate>>,
    i: int,
) -> (k: int)
    requires
        found_templates(entries, found),
        0 <= i < entries.len(),
        entries[i].is_dir,
        entries[i].has_yaml,
    ensures
        0 <= k < found.len(),
        found[k].path@ == entries[i].path@,
        found[k].expected_name@ == entries[i].dir_name@,
        found[k].value == entries[i].template,
    decreases entries.len(),
{
    let e = entries.last();
    if i == entries.len() - 1 {
        found.len() - 1
    } else if e.is_dir && e.has_yaml {
        template_directory_is_found(entries.drop_last(), found.drop_last(), i)
    } else {
        template_directory_is_found(entries.drop_last(), found, i)
    }
}

/// Whatever is found was read from a directory with a header among the
/// entries.
pub proof fn found_template_has_its_directory(
    entries: Seq<TemplateDir>,
    found: Seq<Found<EmailTemplate>>,
    k: int,
) -> (i: int)
    requires
        found_templates(entries, found),
        0 <= k < found.len(),
    ensures
        0 <= i < entries.len(),
        entries[i].is_dir,
        entries[i].has_yaml,
        found[k].path@ == entries[i].path@,
        found[k].value == entries[i].template,
    decreases entries.len(),
{
    let e = entries.last();
    if e.is_dir && e.has_yaml {
        if k == found.len() - 1 {
            entries.len() - 1
        } else {
            found_template_has_its_directory(entries.drop_last(), found.drop_last(), k)
        }
    } else {
        found_template_has_its_directory(entries.drop_last(), found, k)
    }
}

/// Templates are loaded exactly if each was read and has the name of its
/// directory.
pub proof fn misnamed_templates_are_not_loaded(
    found: Seq<Found<EmailTemplate>>,
    r: Result<Vec<EmailTemplate>, Error>,
)
    requires
        taken_templates(found, r),
    ensures
        r is Ok <==> forall|i: int|
            0 <= i < found.len() ==> (#[trigger] found[i]).value is Ok
                && found[i].value->Ok_0@.name == found[i].expected_name@,
{
    crate::fs::first_bad_resource_stops_loading(found);
    if r is Ok {
        assert forall|i: int| 0 <= i < found.len() implies (#[trigger] found[i]).value is Ok
            && found[i].value->Ok_0@.name == found[i].expected_name@ by {
            assert(<EmailTemplate as Named>::name_of(found[i].value->Ok_0@)
                == found[i].value->Ok_0@.name);
        }
    } else if first_bad(found) is Some {
        let k = first_bad(found)->0;
        assert(found[k].value is Ok ==> <EmailTemplate as Named>::name_of(found[k].value->Ok_0@)
            == found[k].value->Ok_0@.name);
    }
}

/// A root that is missing holds no template; one that is no directory, or
/// that cannot be listed, is an error.
pub proof fn missing_root_holds_no_template(
    root: Seq<char>,
    listing: RootListing<TemplateDir>,
    r: Result<Vec<EmailTemplate>, Error>,
)
    requires
        is_loaded(root, listing, r),
    ensures
        listing is Missing ==> r is Ok && r->Ok_0@.len() == 0,
        listing is NotADirectory ==> (r matches Err(Error::InvalidFormat { path, .. }) && path@
            == root),
        listing matches RootListing::Unreadable(m) ==> (r matches Err(Error::Io(t)) && t == m),
{
}

} // verus!
