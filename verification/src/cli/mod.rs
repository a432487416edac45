//! What the commands decide. Parsing arguments, reading files, talking to
//! Braze and printing happen elsewhere.

pub mod apply;
pub mod apply_laws;
pub mod diff;
pub mod export;
pub mod init;
pub mod templatize;
pub mod validate;

use crate::braze::error::BrazeApiError;
use crate::braze::opt_str;
use crate::config::ResourcesConfig;
use crate::error::Error;
use crate::format::OutputFormat;
use crate::order::{views, Named};
use crate::pattern::{excluded, is_excluded, NamePattern};
use crate::resource::ResourceKind;
use crate::text::{opt_text, owned, str_eq};
use vstd::prelude::*;

verus! {

/// The command line.
#[derive(Debug)]
pub struct Cli {
    /// Path to the configuration file.
    pub config: String,
    /// The environment, if not the usual one.
    pub env: Option<String>,
    /// Say more in the log.
    pub verbose: bool,
    /// No colors in the log.
    pub no_color: bool,
    pub format: Option<OutputFormat>,
    pub command: Command,
}

#[derive(Debug)]
pub enum Command {
    /// Pull state from Braze into local files.
    Export(export::ExportArgs),
    /// Show drift between local files and Braze.
    Diff(diff::DiffArgs),
    /// Apply local intent to Braze.
    Apply(apply::ApplyArgs),
    /// Check local files.
    Validate(validate::ValidateArgs),
    /// Set up a new workspace.
    Init(init::InitArgs),
    /// Rewrite raw identifiers to placeholders.
    Templatize(templatize::TemplatizeArgs),
}

impl Command {
    /// Whether the command talks to Braze, and so needs an API key. Setting
    /// up a workspace resolves the environment itself where it has to.
    pub fn needs_api_key(&self) -> (r: bool)
        ensures
            r == (self is Export || self is Diff || self is Apply),
    {
        matches!(self, Command::Export(_) | Command::Diff(_) | Command::Apply(_))
    }
}

/// The exit code of an error. The codes are frozen: scripts rely on them.
pub open spec fn exit_code(err: Error) -> int {
    match err {
        Error::DriftDetected { .. } => 2,
        Error::Config(_) => 3,
        Error::MissingEnv(_) => 3,
        Error::Api(BrazeApiError::Unauthorized) => 4,
        Error::Api(BrazeApiError::RateLimitExhausted) => 5,
        Error::RateLimitExhausted { .. } => 5,
        Error::DestructiveBlocked => 6,
        Error::PlanDrift => 7,
        Error::FallbackGated { .. } => 8,
        _ => 1,
    }
}

/// The exit code of an error.
pub fn exit_code_for(err: &Error) -> (r: i32)
    ensures
        r == exit_code(*err),
{
    match err {
        Error::DriftDetected { .. } => 2,
        Error::Config(_) => 3,
        Error::MissingEnv(_) => 3,
        Error::Api(BrazeApiError::Unauthorized) => 4,
        Error::Api(BrazeApiError::RateLimitExhausted) => 5,
        Error::RateLimitExhausted { .. } => 5,
        Error::DestructiveBlocked => 6,
        Error::PlanDrift => 7,
        Error::FallbackGated { .. } => 8,
        _ => 1,
    }
}

/// A failure is never reported as success.
pub proof fn failures_have_exit_codes(err: Error)
    ensures
        1 <= exit_code(err) <= 8,
{
}

/// The kinds a command is about: the one asked for, else all that are
/// enabled, in their fixed order.
pub open spec fn kinds_of(wanted: Option<ResourceKind>, resources: ResourcesConfig) -> Seq<
    ResourceKind,
> {
    match wanted {
        Some(k) => seq![k],
        None => all_kinds().filter(|k: ResourceKind| resources.of_kind(k).enabled),
    }
}

/// All kinds, in their fixed order.
pub open spec fn all_kinds() -> Seq<ResourceKind> {
    seq![
        ResourceKind::CatalogSchema,
        ResourceKind::ContentBlock,
        ResourceKind::EmailTemplate,
        ResourceKind::CustomAttribute,
        ResourceKind::Tag,
    ]
}

/// The kinds a command is about.
pub fn selected_kinds(wanted: Option<ResourceKind>, resources: &ResourcesConfig) -> (r: Vec<
    ResourceKind,
>)
    ensures
        r@ == kinds_of(wanted, *resources),
{
    let mut out: Vec<ResourceKind> = Vec::new();
    if let Some(k) = wanted {
        out.push(k);
        assert(out@ =~= seq![k]);
        return out;
    }
    let all = ResourceKind::all();
    let ghost keep = |k: ResourceKind| resources.of_kind(k).enabled;
    let ghost kinds = all_kinds();
    assert(all@ =~= kinds);
    let mut i: usize = 0;
    reveal(Seq::filter);
    assert(kinds.take(0).filter(keep) =~= Seq::empty());
    while i < 5
        invariant
            i <= 5,
            all@ == kinds,
            kinds.len() == 5,
            keep == (|k: ResourceKind| resources.of_kind(k).enabled),
            out@ == kinds.take(i as int).filter(keep),
        decreases 5 - i,
    {
        reveal(Seq::filter);
        assert(kinds.take(i + 1).drop_last() =~= kinds.take(i as int));
        assert(kinds.take(i + 1).last() == kinds[i as int]);
        if resources.is_enabled(all[i]) {
            out.push(all[i]);
        }
        i = i + 1;
    }
    assert(kinds.take(5) =~= kinds);
    out
}

/// A command is limited to a name that is managed elsewhere.
pub open spec fn name_excluded(name: Option<Seq<char>>, excludes: Seq<NamePattern>) -> bool {
    name is Some && excluded(name->0, excludes)
}

/// Whether a command is limited to a name that is managed elsewhere. The kind
/// is then skipped.
pub fn is_name_excluded(name: Option<&str>, excludes: &Vec<NamePattern>) -> (r: bool)
    ensures
        r == name_excluded(opt_str(name), excludes@),
{
    match name {
        Some(n) => is_excluded(n, excludes),
        None => false,
    }
}

/// What is said where a kind is skipped because the name that the command is
/// limited to is managed elsewhere; nothing where it is not skipped.
pub fn warn_if_name_excluded(
    kind: ResourceKind,
    name: Option<&str>,
    excludes: &Vec<NamePattern>,
) -> (r: Option<String>)
    ensures
        opt_text(r) == if name_excluded(opt_str(name), excludes@) {
            Some(
                "⚠ "@ + kind.word() + ": '"@ + name->0@ + "' matches exclude_patterns; skipping"@,
            )
        } else {
            None
        },
{
    match name {
        Some(n) => {
            if !is_excluded(n, excludes) {
                return None;
            }
            let mut m = owned("⚠ ");
            m.push_str(kind.as_str());
            m.push_str(": '");
            m.push_str(n);
            m.push_str("' matches exclude_patterns; skipping");
            Some(m)
        },
        None => None,
    }
}

/// A resource of this name takes part in a command.
pub open spec fn takes_part(
    name: Seq<char>,
    wanted: Option<Seq<char>>,
    excludes: Seq<NamePattern>,
) -> bool {
    (wanted is None || name == wanted->0) && !excluded(name, excludes)
}

/// The resources that take part in a command: those of the name it is limited
/// to, if it is, without those that are managed elsewhere.
pub fn select<T: Named>(items: Vec<T>, wanted: Option<&str>, excludes: &Vec<NamePattern>) -> (r:
    Vec<T>)
    ensures
        views(r@) == views(items@).filter(
            |v: T::V| takes_part(T::name_of(v), opt_str(wanted), excludes@),
        ),
{
    let ghost all = items@;
    let ghost keep = |v: T::V| takes_part(T::name_of(v), opt_str(wanted), excludes@);
    let n: usize = items.len();
    let mut out: Vec<T> = Vec::new();
    let mut i: usize = 0;
    reveal(Seq::filter);
    assert(views(all).take(0).filter(keep) =~= Seq::empty());
    assert(views(out@) =~= Seq::empty());
    for item in it: items
        invariant
            i == it.index(),
            it.seq() == all,
            n == all.len(),
            keep == (|v: T::V| takes_part(T::name_of(v), opt_str(wanted), excludes@)),
            views(out@) == views(all).take(i as int).filter(keep),
    {
        reveal(Seq::filter);
        assert(views(all).take(i + 1).drop_last() =~= views(all).take(i as int));
        assert(views(all).take(i + 1).last() == item@);
        let named = match wanted {
            Some(w) => str_eq(item.name_ref().as_str(), w),
            None => true,
        };
        if named && !is_excluded(item.name_ref().as_str(), excludes) {
            let ghost before = out@;
            out.push(item);
            assert(views(out@) =~= views(before).push(item@));
        }
        i = i + 1;
    }
    assert(views(all).take(i as int) =~= views(all));
    out
}

/// The codes that scripts rely on are each for one kind of failure, and every
/// failure of that kind has its code.
pub proof fn exit_codes_tell_failures_apart(err: Error)
    ensures
        exit_code(err) == 2 <==> err is DriftDetected,
        exit_code(err) == 3 <==> err is Config || err is MissingEnv,
        exit_code(err) == 4 <==> (err matches Error::Api(e) && e is Unauthorized),
        exit_code(err) == 5 <==> (err is RateLimitExhausted || (err matches Error::Api(e) && e
            is RateLimitExhausted)),
        exit_code(err) == 6 <==> err is DestructiveBlocked,
        exit_code(err) == 7 <==> err is PlanDrift,
        exit_code(err) == 8 <==> err is FallbackGated,
        err is Io || err is YamlParse || err is CsvParse || err is InvalidFormat || err is Other
            ==> exit_code(err) == 1,
{
}

/// A command that names a kind is about that kind, be it enabled or not. One
/// that names none is about the kinds that are enabled, schemas first and
/// tags last.
pub proof fn commands_are_about_enabled_kinds(k: ResourceKind, resources: ResourcesConfig)
    ensures
        kinds_of(Some(k), resources) == seq![k],
        kinds_of(None, resources) == (if resources.catalog_schema.enabled {
            seq![ResourceKind::CatalogSchema]
        } else {
            seq![]
        }) + (if resources.content_block.enabled {
            seq![ResourceKind::ContentBlock]
        } else {
            seq![]
        }) + (if resources.email_template.enabled {
            seq![ResourceKind::EmailTemplate]
        } else {
            seq![]
        }) + (if resources.custom_attribute.enabled {
            seq![ResourceKind::CustomAttribute]
        } else {
            seq![]
        }) + (if resources.tag.enabled {
            seq![ResourceKind::Tag]
        } else {
            seq![]
        }),
{
    let f = |k: ResourceKind| resources.of_kind(k).enabled;
    let a = seq![
        ResourceKind::CatalogSchema,
        ResourceKind::ContentBlock,
        ResourceKind::EmailTemplate,
        ResourceKind::CustomAttribute,
        ResourceKind::Tag,
    ];
    assert(all_kinds() =~= a);
    reveal_with_fuel(Seq::filter, 6);
    assert(a.drop_last() =~= a.take(4));
    assert(a.take(4).drop_last() =~= a.take(3));
    assert(a.take(3).drop_last() =~= a.take(2));
    assert(a.take(2).drop_last() =~= a.take(1));
    assert(a.take(1).drop_last() =~= a.take(0));
    assert(a.take(0).filter(f) =~= seq![]);
    assert(a.filter(f) =~= kinds_of(None, resources));
}

/// What is managed elsewhere takes part in no command. Of the rest everything
/// takes part, or only what bears the name that a command is limited to.
pub proof fn managed_elsewhere_takes_no_part(
    name: Seq<char>,
    other: Seq<char>,
    excludes: Seq<NamePattern>,
    i: int,
)
    ensures
        0 <= i < excludes.len() && crate::pattern::pattern_matches(excludes[i].text(), name)
            ==> !takes_part(name, None, excludes) && !takes_part(name, Some(name), excludes)
            && name_excluded(Some(name), excludes),
        takes_part(name, Some(name), excludes) == takes_part(name, None, excludes),
        other != name ==> !takes_part(name, Some(other), excludes),
        takes_part(name, None, Seq::empty()),
        name_excluded(Some(name), excludes) == !takes_part(name, None, excludes),
        !name_excluded(None, excludes),
{
    if 0 <= i < excludes.len() && crate::pattern::pattern_matches(excludes[i].text(), name) {
        assert(excluded(name, excludes));
    }
}

/// Commands go through the kinds in the order in which kinds are ranked.
pub proof fn kinds_are_gone_through_by_rank(k: ResourceKind)
    ensures
        all_kinds().len() == 5,
        all_kinds()[k.rank()] == k,
{
}

} // verus!
