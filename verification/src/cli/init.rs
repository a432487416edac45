//! `init`: sets up a new workspace.

use crate::config::schema::usual_config;
use crate::resource::ResourceKind;
use crate::text::{
    chars_of, is_shown, lemma_shown_between, lemma_split_line, lemma_split_parts, opt_text, owned,
    split, split_text, str_eq, strip_end, strip_start, strs, trim, trim_text, Strip,
};
use vstd::prelude::*;

verus! {

#[derive(Debug)]
pub struct InitArgs {
    /// Overwrite a configuration that is there.
    pub force: bool,
    /// Pull the current state from Braze afterwards.
    pub from_existing: bool,
}

/// What to do where there is a configuration already.
#[derive(Debug, Clone, Copy, PartialEq, Eq, Structural)]
pub enum OnExisting {
    Overwrite,
    /// It was edited on purpose and is kept.
    Keep,
    Fail,
}

impl InitArgs {
    /// What to do where there is a configuration already. Overwriting has to
    /// be asked for.
    pub fn on_existing(&self) -> (r: OnExisting)
        ensures
            r == if self.force {
                OnExisting::Overwrite
            } else if self.from_existing {
                OnExisting::Keep
            } else {
                OnExisting::Fail
            },
    {
        if self.force {
            OnExisting::Overwrite
        } else if self.from_existing {
            OnExisting::Keep
        } else {
            OnExisting::Fail
        }
    }
}

/// What is done about the configuration.
#[derive(Debug, PartialEq, Eq)]
pub enum ConfigAction {
    /// There is none, and one is written.
    Write,
    /// One is written over the one that is there, with a warning.
    Overwrite { warning: String },
    Keep,
    Refuse { message: String },
}

/// Decides what is done about the configuration. One that is there is only
/// overwritten where that was asked for.
pub fn config_action(path: &str, exists: bool, on_existing: OnExisting) -> (r: ConfigAction)
    ensures
        !exists <==> r is Write,
        exists ==> match on_existing {
            OnExisting::Overwrite => r matches ConfigAction::Overwrite { warning } && warning@
                == "⚠ "@ + path@ + " exists; overwriting (--force)"@,
            OnExisting::Keep => r is Keep,
            OnExisting::Fail => r matches ConfigAction::Refuse { message } && message@ == path@
                + " already exists; pass --force to overwrite"@,
        },
{
    if !exists {
        return ConfigAction::Write;
    }
    match on_existing {
        OnExisting::Overwrite => {
            let mut warning = owned("⚠ ");
            warning.push_str(path);
            warning.push_str(" exists; overwriting (--force)");
            ConfigAction::Overwrite { warning }
        },
        OnExisting::Keep => ConfigAction::Keep,
        OnExisting::Fail => {
            let mut message = owned(path);
            message.push_str(" already exists; pass --force to overwrite");
            ConfigAction::Refuse { message }
        },
    }
}

/// The directories of a workspace.
pub open spec fn subdirs() -> Seq<Seq<char>> {
    seq!["catalogs"@, "content_blocks"@, "email_templates"@, "custom_attributes"@]
}

/// The directories of a workspace.
pub fn workspace_dirs() -> (r: Vec<String>)
    ensures
        strs(r@) == subdirs(),
{
    let r = vec![
        owned("catalogs"),
        owned("content_blocks"),
        owned("email_templates"),
        owned("custom_attributes"),
    ];
    assert(strs(r@) =~= subdirs());
    r
}

/// The directories that are missing and have to be made.
pub fn scaffold_resource_dirs(existing: &Vec<String>) -> (r: Vec<String>)
    ensures
        strs(r@) == subdirs().filter(|d: Seq<char>| !strs(existing@).contains(d)),
{
    let all = workspace_dirs();
    let ghost ds = subdirs();
    let ghost keep = |d: Seq<char>| !strs(existing@).contains(d);
    let mut out: Vec<String> = Vec::new();
    let mut i: usize = 0;
    reveal(Seq::filter);
    assert(strs(out@) =~= ds.take(0).filter(keep));
    while i < all.len()
        invariant
            i <= all@.len(),
            ds == strs(all@),
            keep == (|d: Seq<char>| !strs(existing@).contains(d)),
            strs(out@) == ds.take(i as int).filter(keep),
        decreases all@.len() - i,
    {
        reveal(Seq::filter);
        assert(ds.take(i + 1).drop_last() =~= ds.take(i as int));
        assert(ds.take(i + 1).last() == all@[i as int]@);
        if !crate::order::contains_str(existing, all[i].as_str()) {
            let ghost before = out@;
            out.push(all[i].clone());
            assert(strs(out@) =~= strs(before).push(all@[i as int]@));
        }
        i = i + 1;
    }
    assert(ds.take(i as int) =~= ds);
    out
}

/// Setting up a workspace that is there makes no directory.
pub proof fn scaffolding_twice_makes_nothing(existing: Seq<Seq<char>>)
    requires
        forall|i: int| 0 <= i < subdirs().len() ==> existing.contains(#[trigger] subdirs()[i]),
    ensures
        subdirs().filter(|d: Seq<char>| !existing.contains(d)).len() == 0,
{
    let f = |d: Seq<char>| !existing.contains(d);
    if subdirs().filter(f).len() > 0 {
        let x = subdirs().filter(f)[0];
        subdirs().lemma_filter_pred(f, 0);
        assert(subdirs().filter(f).contains(x));
        subdirs().lemma_filter_contains_rev(f, x);
        let i = choose|i: int| 0 <= i < subdirs().len() && subdirs()[i] == x;
        assert(existing.contains(subdirs()[i]));
    }
}

/// The file has a line with the given text.
pub open spec fn has_line(file: Seq<char>, text: Seq<char>) -> bool {
    exists|i: int|
        0 <= i < split(file, '\n').len() && trim(#[trigger] split(file, '\n')[i]) == text
}

/// The lines that keep keys out of the repository, without those that the
/// file has.
pub open spec fn missing_lines(file: Seq<char>) -> Seq<char> {
    (if has_line(file, ".env"@) {
        Seq::empty()
    } else {
        ".env\n"@
    }) + (if has_line(file, ".env.*"@) {
        Seq::empty()
    } else {
        ".env.*\n"@
    })
}

/// The heading of the lines, set apart from what is before them.
pub open spec fn section_heading(file: Seq<char>) -> Seq<char> {
    if file.len() == 0 {
        "# braze-sync\n"@
    } else if file.last() == '\n' {
        "\n# braze-sync\n"@
    } else {
        "\n\n# braze-sync\n"@
    }
}

/// What is appended to the file, if anything is.
pub open spec fn gitignore_addition(file: Seq<char>) -> Option<Seq<char>> {
    if has_line(file, ".env"@) && has_line(file, ".env.*"@) {
        None
    } else {
        Some(section_heading(file) + missing_lines(file))
    }
}

fn holds_line(file: &str, text: &str) -> (r: bool)
    ensures
        r == has_line(file@, text@),
{
    let lines = split_text(file, '\n');
    let ghost ls = split(file@, '\n');
    let mut i: usize = 0;
    assert(ls.len() == lines@.len());
    while i < lines.len()
        invariant
            i <= lines@.len(),
            ls == strs(lines@),
            ls == split(file@, '\n'),
            forall|j: int| 0 <= j < i ==> trim(#[trigger] ls[j]) != text@,
        decreases lines@.len() - i,
    {
        if str_eq(trim_text(lines[i].as_str()).as_str(), text) {
            assert(ls[i as int] == lines@[i as int]@);
            assert(trim(split(file@, '\n')[i as int]) == text@);
            return true;
        }
        assert(ls[i as int] == lines@[i as int]@);
        i = i + 1;
    }
    false
}

/// What to append to `.gitignore` so that it keeps keys out of the
/// repository; nothing where it does already.
pub fn update_gitignore(existing: &str) -> (r: Option<String>)
    ensures
        opt_text(r) == gitignore_addition(existing@),
{
    let env = holds_line(existing, ".env");
    let env_star = holds_line(existing, ".env.*");
    if env && env_star {
        return None;
    }
    let c = chars_of(existing);
    let n: usize = c.len();
    let mut out = owned(
        if n == 0 {
            "# braze-sync\n"
        } else if c[n - 1] == '\n' {
            "\n# braze-sync\n"
        } else {
            "\n\n# braze-sync\n"
        },
    );
    let ghost heading = out@;
    if !env {
        out.push_str(".env\n");
    }
    if !env_star {
        out.push_str(".env.*\n");
    }
    assert(out@ =~= heading + missing_lines(existing@));
    Some(out)
}

/// A line put behind a text is a line of the whole, and so are the lines of
/// what was there.
proof fn lemma_line_behind(before: Seq<char>, line: Seq<char>, after: Seq<char>)
    requires
        !line.contains('\n'),
        before.len() == 0 || before.last() == '\n',
    ensures
        ({
            let whole = before + line + seq!['\n'] + after;
            &&& has_line(whole, trim(line))
            &&& forall|t: Seq<char>| has_line(after, t) ==> #[trigger] has_line(whole, t)
            &&& forall|t: Seq<char>| t.len() > 0 && has_line(before, t) ==> #[trigger] has_line(
                whole,
                t,
            )
        }),
{
    let whole = before + line + seq!['\n'] + after;
    let tail = line + seq!['\n'] + after;
    lemma_split_parts(line, after, '\n');
    lemma_split_line(line, '\n');
    let ts = split(tail, '\n');
    assert(ts =~= seq![line] + split(after, '\n'));
    let ws = split(whole, '\n');
    if before.len() == 0 {
        assert(whole =~= tail);
        assert(ws[0] == line);
        assert forall|t: Seq<char>| has_line(after, t) implies #[trigger] has_line(whole, t) by {
            let i = choose|i: int|
                0 <= i < split(after, '\n').len() && trim(#[trigger] split(after, '\n')[i]) == t;
            assert(ws[i + 1] == split(after, '\n')[i]);
        }
        assert forall|t: Seq<char>| t.len() > 0 && has_line(before, t) implies #[trigger] has_line(
            whole,
            t,
        ) by {
            lemma_split_line(before, '\n');
            let i = choose|i: int|
                0 <= i < split(before, '\n').len() && trim(#[trigger] split(before, '\n')[i]) == t;
            assert(split(before, '\n')[i] == before);
            assert(strip_start(before, Strip::White) =~= before);
            assert(strip_end(before, Strip::White) =~= before);
        }
    } else {
        let bare = before.drop_last();
        assert(before =~= bare + seq!['\n'] + Seq::empty());
        assert(whole =~= bare + seq!['\n'] + tail);
        lemma_split_parts(bare, tail, '\n');
        lemma_split_parts(bare, Seq::empty(), '\n');
        lemma_split_line(Seq::empty(), '\n');
        let bs = split(bare, '\n');
        assert(ws =~= bs + seq![line] + split(after, '\n'));
        assert(ws[bs.len() as int] == line);
        assert(split(before, '\n') =~= bs + seq![Seq::empty()]);
        assert forall|t: Seq<char>| has_line(after, t) implies #[trigger] has_line(whole, t) by {
            let i = choose|i: int|
                0 <= i < split(after, '\n').len() && trim(#[trigger] split(after, '\n')[i]) == t;
            assert(ws[bs.len() + 1 + i] == split(after, '\n')[i]);
        }
        assert forall|t: Seq<char>| t.len() > 0 && has_line(before, t) implies #[trigger] has_line(
            whole,
            t,
        ) by {
            let i = choose|i: int|
                0 <= i < split(before, '\n').len() && trim(#[trigger] split(before, '\n')[i]) == t;
            if i < bs.len() {
                assert(ws[i] == split(before, '\n')[i]);
            } else {
                assert(split(before, '\n')[i] =~= Seq::empty());
                assert(strip_start(Seq::<char>::empty(), Strip::White) =~= Seq::empty());
                assert(strip_end(Seq::<char>::empty(), Strip::White) =~= Seq::empty());
            }
        }
    }
}

/// Lines without white space around them are not changed by trimming.
proof fn lemma_entries_trimmed()
    ensures
        trim(".env"@) == ".env"@,
        trim(".env.*"@) == ".env.*"@,
        !".env"@.contains('\n'),
        !".env.*"@.contains('\n'),
        ".env"@.len() > 0,
        ".env.*"@.len() > 0,
{
    reveal_strlit(".env");
    reveal_strlit(".env.*");
    assert(strip_start(".env"@, Strip::White) == ".env"@);
    assert(strip_end(".env"@, Strip::White) == ".env"@);
    assert(strip_start(".env.*"@, Strip::White) == ".env.*"@);
    assert(strip_end(".env.*"@, Strip::White) == ".env.*"@);
}

/// A file to which a section was added ends in a line break before the lines.
proof fn lemma_heading_ends_line(file: Seq<char>)
    ensures
        (file + section_heading(file)).last() == '\n',
        (file + section_heading(file)).len() > 0,
        file.len() > 0 ==> exists|rest: Seq<char>|
            #![trigger file + seq!['\n'] + rest]
            section_heading(file) == seq!['\n'] + rest,
{
    reveal_strlit("# braze-sync\n");
    reveal_strlit("\n# braze-sync\n");
    reveal_strlit("\n\n# braze-sync\n");
    if file.len() > 0 {
        let h = section_heading(file);
        let rest = h.drop_first();
        assert(h =~= seq!['\n'] + rest);
        let ghost_whole = file + seq!['\n'] + rest;
    }
}

/// The lines of a file stay lines when a section is added behind it.
proof fn lemma_lines_stay(file: Seq<char>, t: Seq<char>)
    requires
        t.len() > 0,
        has_line(file, t),
    ensures
        has_line(file + section_heading(file), t),
{
    let i = choose|i: int|
        0 <= i < split(file, '\n').len() && trim(#[trigger] split(file, '\n')[i]) == t;
    if file.len() == 0 {
        file.index_of_first_ensures('\n');
        assert(split(file, '\n')[i] == file);
        assert(strip_start(file, Strip::White) =~= file);
        assert(strip_end(file, Strip::White) =~= file);
    } else {
        lemma_heading_ends_line(file);
        let rest = section_heading(file).drop_first();
        reveal_strlit("\n# braze-sync\n");
        reveal_strlit("\n\n# braze-sync\n");
        assert(section_heading(file) =~= seq!['\n'] + rest);
        let whole = file + section_heading(file);
        assert(whole =~= file + seq!['\n'] + rest);
        lemma_split_parts(file, rest, '\n');
        assert(split(whole, '\n')[i] == split(file, '\n')[i]);
    }
}

/// Once the lines were added there is nothing to add: running `init` again
/// leaves the file as it is.
pub proof fn gitignore_update_is_idempotent(file: Seq<char>)
    requires
        gitignore_addition(file) is Some,
    ensures
        gitignore_addition(file + gitignore_addition(file)->0) is None,
{
    lemma_entries_trimmed();
    lemma_heading_ends_line(file);
    let base = file + section_heading(file);
    let added = file + gitignore_addition(file)->0;
    reveal_strlit(".env\n");
    reveal_strlit(".env.*\n");
    reveal_strlit(".env");
    reveal_strlit(".env.*");
    let env = has_line(file, ".env"@);
    let star = has_line(file, ".env.*"@);
    assert(".env\n"@ =~= ".env"@ + seq!['\n']);
    assert(".env.*\n"@ =~= ".env.*"@ + seq!['\n']);
    if env {
        lemma_lines_stay(file, ".env"@);
        lemma_line_behind(base, ".env.*"@, Seq::empty());
        assert(added =~= base + ".env.*"@ + seq!['\n'] + Seq::empty());
    } else if star {
        lemma_lines_stay(file, ".env.*"@);
        lemma_line_behind(base, ".env"@, Seq::empty());
        assert(added =~= base + ".env"@ + seq!['\n'] + Seq::empty());
    } else {
        let rest = ".env.*"@ + seq!['\n'] + Seq::empty();
        lemma_line_behind(Seq::empty(), ".env.*"@, Seq::empty());
        assert(Seq::<char>::empty() + ".env.*"@ + seq!['\n'] + Seq::empty() =~= rest);
        lemma_line_behind(base, ".env"@, rest);
        assert(added =~= base + ".env"@ + seq!['\n'] + rest);
    }
}

/// Nothing that is in the file is taken away or changed.
pub proof fn gitignore_update_only_appends(file: Seq<char>)
    requires
        gitignore_addition(file) is Some,
    ensures
        file.is_prefix_of(file + gitignore_addition(file)->0),
{
    assert((file + gitignore_addition(file)->0).take(file.len() as int) =~= file);
}

/// The configuration of a new workspace.
pub const CONFIG_TEMPLATE: &'static str =
    "# braze-sync configuration (v1 schema, frozen at v1.0).\n# Reference: https://github.com/uny/braze-sync#configuration\n\nversion: 1\n\n# Environment picked when --env is not passed.\ndefault_environment: dev\n\nenvironments:\n  dev:\n    # Braze REST endpoint for your instance. See:\n    # https://www.braze.com/docs/api/basics/#endpoints\n    api_endpoint: https://rest.fra-02.braze.eu\n    # Name of the env var holding the API key — NEVER put the key itself\n    # in this file.\n    api_key_env: BRAZE_DEV_API_KEY\n  # prod:\n  #   api_endpoint: https://rest.fra-02.braze.eu\n  #   api_key_env: BRAZE_PROD_API_KEY\n\nresources:\n  catalog_schema:\n    enabled: true\n    path: catalogs/\n  content_block:\n    enabled: true\n    path: content_blocks/\n  email_template:\n    enabled: true\n    path: email_templates/\n  custom_attribute:\n    enabled: true\n    path: custom_attributes/registry.yaml\n\n# Optional name validators enforced by `braze-sync validate`.\n# naming:\n#   catalog_name_pattern: \"^[a-z][a-z0-9_]*$\"\n#   content_block_name_pattern: \"^[a-zA-Z0-9_]+$\"\n#   custom_attribute_name_pattern: \"^[a-z][a-z0-9_]*$\"\n";

/// However the file looked before, after the update it has both lines that
/// keep keys out of the repository, and it is not touched where it has them.
pub proof fn updated_gitignore_keeps_keys_out(file: Seq<char>)
    ensures
        gitignore_addition(file) matches Some(t) ==> has_line(file + t, ".env"@) && has_line(
            file + t,
            ".env.*"@,
        ),
        gitignore_addition(file) is None <==> has_line(file, ".env"@) && has_line(
            file,
            ".env.*"@,
        ),
{
    if gitignore_addition(file) is Some {
        gitignore_update_is_idempotent(file);
    }
}

/// What is added stands under a heading of its own, with a blank line before
/// it where the file had anything in it, and adds no line that is there.
pub proof fn gitignore_section_is_set_apart(file: Seq<char>)
    requires
        gitignore_addition(file) is Some,
    ensures
        file.len() == 0 ==> "# braze-sync\n"@.is_prefix_of(gitignore_addition(file)->0),
        file.len() > 0 ==> is_shown(
            "\n\n# braze-sync\n"@,
            file + gitignore_addition(file)->0,
        ),
        has_line(file, ".env"@) ==> "# braze-sync\n.env.*\n"@.is_suffix_of(
            gitignore_addition(file)->0,
        ),
        has_line(file, ".env.*"@) ==> "# braze-sync\n.env\n"@.is_suffix_of(
            gitignore_addition(file)->0,
        ),
        !has_line(file, ".env"@) && !has_line(file, ".env.*"@)
            ==> "# braze-sync\n.env\n.env.*\n"@.is_suffix_of(gitignore_addition(file)->0),
{
    reveal_strlit("# braze-sync\n");
    reveal_strlit("\n# braze-sync\n");
    reveal_strlit("\n\n# braze-sync\n");
    reveal_strlit(".env\n");
    reveal_strlit(".env.*\n");
    reveal_strlit("# braze-sync\n.env\n");
    reveal_strlit("# braze-sync\n.env.*\n");
    reveal_strlit("# braze-sync\n.env\n.env.*\n");
    let t = gitignore_addition(file)->0;
    let h = section_heading(file);
    let m = missing_lines(file);
    let head = "# braze-sync\n"@;
    assert(t =~= h + m);
    assert(h.skip(h.len() - head.len()) =~= head);
    assert(t.skip(h.len() - head.len()) =~= head + m);
    if has_line(file, ".env"@) {
        assert(head + m =~= "# braze-sync\n.env.*\n"@);
        assert(t.skip(t.len() - (head + m).len()) =~= head + m);
    } else if has_line(file, ".env.*"@) {
        assert(head + m =~= "# braze-sync\n.env\n"@);
        assert(t.skip(t.len() - (head + m).len()) =~= head + m);
    } else {
        assert(head + m =~= "# braze-sync\n.env\n.env.*\n"@);
        assert(t.skip(t.len() - (head + m).len()) =~= head + m);
    }
    let w = "\n\n# braze-sync\n"@;
    if file.len() == 0 {
        assert(t.take(head.len() as int) =~= head);
    } else if file.last() == '\n' {
        assert(file + t =~= file.drop_last() + w + m);
        lemma_shown_between(file.drop_last(), w, m);
    } else {
        assert(file + t =~= file + w + m);
        lemma_shown_between(file, w, m);
    }
}

/// A workspace has a directory for every kind that is managed as a matter of
/// course, at its usual place.
pub proof fn workspace_has_the_usual_places(kind: ResourceKind)
    requires
        kind != ResourceKind::Tag,
    ensures
        exists|i: int|
            0 <= i < subdirs().len() && (#[trigger] subdirs()[i] + "/"@).is_prefix_of(
                usual_config(kind).path,
            ),
{
    reveal_strlit("catalogs");
    reveal_strlit("content_blocks");
    reveal_strlit("email_templates");
    reveal_strlit("custom_attributes");
    reveal_strlit("catalogs/");
    reveal_strlit("content_blocks/");
    reveal_strlit("email_templates/");
    reveal_strlit("custom_attributes/registry.yaml");
    reveal_strlit("/");
    let p = usual_config(kind).path;
    match kind {
        ResourceKind::CatalogSchema => {
            let d = subdirs()[0] + "/"@;
            assert(d =~= p.take(d.len() as int));
        },
        ResourceKind::ContentBlock => {
            let d = subdirs()[1] + "/"@;
            assert(d =~= p.take(d.len() as int));
        },
        ResourceKind::EmailTemplate => {
            let d = subdirs()[2] + "/"@;
            assert(d =~= p.take(d.len() as int));
        },
        _ => {
            let d = subdirs()[3] + "/"@;
            assert(d =~= p.take(d.len() as int));
        },
    }
}

} // verus!
