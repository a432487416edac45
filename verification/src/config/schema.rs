//! The contents of `braze-sync.config.yaml`.

use crate::endpoint::{Endpoint, EndpointView};
use crate::error::Error;
use crate::order::{
    ascending, find_last_named, is_map_of, last_named, map_by_name, names_of, views, Named,
};
use crate::pattern::{
    compile_patterns, first_problem, listed_problem, pattern_texts, NamePattern,
};
use crate::resource::catalog::clone_opt;
use crate::resource::ResourceKind;
use crate::text::{clone_strs, opt_text, owned, strs};
use vstd::prelude::*;

verus! {

#[derive(Debug, PartialEq)]
pub struct ConfigFile {
    /// Schema version. Only version 1 is understood.
    pub version: u32,
    pub default_environment: String,
    pub defaults: Defaults,
    pub environments: Environments,
    pub resources: ResourcesConfig,
    pub naming: NamingConfig,
}

#[derive(Debug, PartialEq, Eq)]
pub struct Defaults {}

/// An environment under its name.
#[derive(Debug, PartialEq, Eq)]
pub struct Environment {
    pub name: String,
    pub config: EnvironmentConfig,
}

#[derive(Debug, PartialEq, Eq)]
pub struct EnvironmentConfig {
    pub api_endpoint: Endpoint,
    /// Name of the environment variable that holds the API key. The key
    /// itself does not live in the file.
    pub api_key_env: String,
    /// Where the values of the environment are, if not in the usual place.
    pub values_file: Option<String>,
}

/// What an environment is.
#[verifier::ext_equal]
pub struct EnvironmentView {
    pub name: Seq<char>,
    pub api_endpoint: EndpointView,
    pub api_key_env: Seq<char>,
    pub values_file: Option<Seq<char>>,
}

impl View for Environment {
    type V = EnvironmentView;

    open spec fn view(&self) -> EnvironmentView {
        EnvironmentView {
            name: self.name@,
            api_endpoint: self.config.api_endpoint@,
            api_key_env: self.config.api_key_env@,
            values_file: opt_text(self.config.values_file),
        }
    }
}

impl Named for Environment {
    open spec fn name_of(v: EnvironmentView) -> Seq<char> {
        v.name
    }

    fn name_ref(&self) -> (r: &String) {
        &self.name
    }
}

/// The environments of a configuration, each name once and the names in
/// ascending order.
#[derive(Debug, PartialEq, Eq)]
pub struct Environments {
    entries: Vec<Environment>,
}

impl View for Environments {
    type V = Seq<EnvironmentView>;

    closed spec fn view(&self) -> Seq<EnvironmentView> {
        views(self.entries@)
    }
}

impl Environments {
    #[verifier::type_invariant]
    spec fn is_sorted(self) -> bool {
        ascending(names_of::<Environment>(views(self.entries@)))
    }

    /// The environments of a list. Of those with the same name the last counts.
    pub fn from_list(list: Vec<Environment>) -> (r: Environments)
        ensures
            is_map_of::<Environment>(views(list@), r@),
    {
        Environments { entries: map_by_name(list) }
    }

    pub fn len(&self) -> (r: usize)
        ensures
            r == self@.len(),
            ascending(names_of::<Environment>(self@)),
    {
        proof {
            use_type_invariant(self);
        }
        self.entries.len()
    }

    /// The environment at a place in the order of names.
    pub fn entry(&self, i: usize) -> (r: &Environment)
        requires
            i < self@.len(),
        ensures
            r@ == self@[i as int],
    {
        &self.entries[i]
    }

    /// The environment of a name.
    pub fn get(&self, name: &str) -> (r: Option<&Environment>)
        ensures
            match r {
                Some(e) => last_named::<Environment>(self@, name@) == Some(e@),
                None => last_named::<Environment>(self@, name@) is None,
            },
    {
        match find_last_named(&self.entries, name) {
            Some(i) => Some(&self.entries[i]),
            None => None,
        }
    }
}

#[derive(Debug, PartialEq, Eq)]
pub struct ResourcesConfig {
    pub catalog_schema: ResourceConfig,
    pub content_block: ResourceConfig,
    pub email_template: ResourceConfig,
    pub custom_attribute: ResourceConfig,
    pub tag: ResourceConfig,
}

#[derive(Debug, PartialEq, Eq)]
pub struct ResourceConfig {
    pub enabled: bool,
    pub path: String,
    /// Patterns of names that are managed elsewhere. Every command skips
    /// what matches one of them.
    pub exclude_patterns: Vec<String>,
    /// In which order changes are applied. Only content blocks heed it.
    pub apply_order: ApplyOrder,
}

/// What a resource configuration is.
#[verifier::ext_equal]
pub struct ResourceConfigView {
    pub enabled: bool,
    pub path: Seq<char>,
    pub exclude_patterns: Seq<Seq<char>>,
    pub apply_order: ApplyOrder,
}

impl View for ResourceConfig {
    type V = ResourceConfigView;

    open spec fn view(&self) -> ResourceConfigView {
        ResourceConfigView {
            enabled: self.enabled,
            path: self.path@,
            exclude_patterns: strs(self.exclude_patterns@),
            apply_order: self.apply_order,
        }
    }
}

impl Clone for ResourceConfig {
    fn clone(&self) -> (r: Self)
        ensures
            r@ == self@,
    {
        ResourceConfig {
            enabled: self.enabled,
            path: self.path.clone(),
            exclude_patterns: clone_strs(&self.exclude_patterns),
            apply_order: self.apply_order,
        }
    }
}

/// In which order content blocks are applied: targets of references before
/// the blocks that refer to them, or by name.
#[derive(Debug, Clone, Copy, PartialEq, Eq, Structural)]
pub enum ApplyOrder {
    Dependency,
    Alphabetical,
}

impl Default for ApplyOrder {
    fn default() -> (r: Self)
        ensures
            r == ApplyOrder::Dependency,
    {
        ApplyOrder::Dependency
    }
}

impl Default for Defaults {
    fn default() -> (r: Self)
        ensures
            r == (Defaults {  }),
    {
        Defaults {  }
    }
}

/// The usual configuration of a kind: on, at its usual place, with nothing
/// excluded. Tags are off until asked for, since without a registry every tag
/// in use would be reported.
pub open spec fn usual_config(kind: ResourceKind) -> ResourceConfigView {
    ResourceConfigView {
        enabled: kind != ResourceKind::Tag,
        path: match kind {
            ResourceKind::CatalogSchema => "catalogs/"@,
            ResourceKind::ContentBlock => "content_blocks/"@,
            ResourceKind::EmailTemplate => "email_templates/"@,
            ResourceKind::CustomAttribute => "custom_attributes/registry.yaml"@,
            ResourceKind::Tag => "tags/registry.yaml"@,
        },
        exclude_patterns: Seq::empty(),
        apply_order: ApplyOrder::Dependency,
    }
}

/// The usual configuration of a kind.
pub fn default_resource(kind: ResourceKind) -> (r: ResourceConfig)
    ensures
        r@ == usual_config(kind),
{
    let path = match kind {
        ResourceKind::CatalogSchema => "catalogs/",
        ResourceKind::ContentBlock => "content_blocks/",
        ResourceKind::EmailTemplate => "email_templates/",
        ResourceKind::CustomAttribute => "custom_attributes/registry.yaml",
        ResourceKind::Tag => "tags/registry.yaml",
    };
    let r = ResourceConfig {
        enabled: kind != ResourceKind::Tag,
        path: owned(path),
        exclude_patterns: Vec::new(),
        apply_order: ApplyOrder::Dependency,
    };
    assert(strs(r.exclude_patterns@) =~= Seq::empty());
    r
}

impl ResourcesConfig {
    /// The configuration of a kind.
    pub open spec fn of_kind(self, kind: ResourceKind) -> ResourceConfigView {
        match kind {
            ResourceKind::CatalogSchema => self.catalog_schema@,
            ResourceKind::ContentBlock => self.content_block@,
            ResourceKind::EmailTemplate => self.email_template@,
            ResourceKind::CustomAttribute => self.custom_attribute@,
            ResourceKind::Tag => self.tag@,
        }
    }

    pub fn for_kind(&self, kind: ResourceKind) -> (r: &ResourceConfig)
        ensures
            r@ == self.of_kind(kind),
    {
        match kind {
            ResourceKind::CatalogSchema => &self.catalog_schema,
            ResourceKind::ContentBlock => &self.content_block,
            ResourceKind::EmailTemplate => &self.email_template,
            ResourceKind::CustomAttribute => &self.custom_attribute,
            ResourceKind::Tag => &self.tag,
        }
    }

    pub fn is_enabled(&self, kind: ResourceKind) -> (r: bool)
        ensures
            r == self.of_kind(kind).enabled,
    {
        self.for_kind(kind).enabled
    }

    /// The patterns of the names of a kind that every command leaves alone.
    /// One that does not compile makes the configuration wrong.
    pub fn excludes_for(&self, kind: ResourceKind) -> (r: Result<Vec<NamePattern>, Error>)
        ensures
            match first_problem(self.of_kind(kind).exclude_patterns) {
                None => r matches Ok(v) && pattern_texts(v@) == self.of_kind(
                    kind,
                ).exclude_patterns,
                Some((p, e)) => r matches Err(Error::Config(m)) && m@ == listed_problem(
                    "resources."@ + kind.word() + ".exclude_patterns"@,
                    p,
                    e,
                ),
            },
    {
        let mut key = owned("resources.");
        key.push_str(kind.as_str());
        key.push_str(".exclude_patterns");
        compile_patterns(&self.for_kind(kind).exclude_patterns, key.as_str())
    }
}

impl Default for ResourcesConfig {
    fn default() -> (r: Self)
        ensures
            forall|kind: ResourceKind| #[trigger] r.of_kind(kind) == usual_config(kind),
    {
        ResourcesConfig {
            catalog_schema: default_resource(ResourceKind::CatalogSchema),
            content_block: default_resource(ResourceKind::ContentBlock),
            email_template: default_resource(ResourceKind::EmailTemplate),
            custom_attribute: default_resource(ResourceKind::CustomAttribute),
            tag: default_resource(ResourceKind::Tag),
        }
    }
}

/// Patterns that names have to match.
#[derive(Debug, PartialEq, Eq)]
pub struct NamingConfig {
    pub catalog_name_pattern: Option<String>,
    pub content_block_name_pattern: Option<String>,
    pub custom_attribute_name_pattern: Option<String>,
    pub tag_name_pattern: Option<String>,
}

impl NamingConfig {
    /// The pattern for the names of a kind.
    pub open spec fn of_kind(self, kind: ResourceKind) -> Option<Seq<char>> {
        match kind {
            ResourceKind::CatalogSchema => opt_text(self.catalog_name_pattern),
            ResourceKind::ContentBlock => opt_text(self.content_block_name_pattern),
            ResourceKind::EmailTemplate => None,
            ResourceKind::CustomAttribute => opt_text(self.custom_attribute_name_pattern),
            ResourceKind::Tag => opt_text(self.tag_name_pattern),
        }
    }

    /// The pattern for the names of a kind. Email templates have none.
    pub fn for_kind(&self, kind: ResourceKind) -> (r: Option<String>)
        ensures
            opt_text(r) == self.of_kind(kind),
    {
        match kind {
            ResourceKind::CatalogSchema => clone_opt(&self.catalog_name_pattern),
            ResourceKind::ContentBlock => clone_opt(&self.content_block_name_pattern),
            ResourceKind::EmailTemplate => None,
            ResourceKind::CustomAttribute => clone_opt(&self.custom_attribute_name_pattern),
            ResourceKind::Tag => clone_opt(&self.tag_name_pattern),
        }
    }
}

impl Default for NamingConfig {
    fn default() -> (r: Self)
        ensures
            forall|kind: ResourceKind| #[trigger] r.of_kind(kind) is None,
    {
        NamingConfig {
            catalog_name_pattern: None,
            content_block_name_pattern: None,
            custom_attribute_name_pattern: None,
            tag_name_pattern: None,
        }
    }
}

/// Each kind has its own place in the configuration.
pub proof fn kinds_have_their_own_configuration(r: ResourcesConfig, n: NamingConfig)
    ensures
        r.of_kind(ResourceKind::CatalogSchema) == r.catalog_schema@,
        r.of_kind(ResourceKind::ContentBlock) == r.content_block@,
        r.of_kind(ResourceKind::EmailTemplate) == r.email_template@,
        r.of_kind(ResourceKind::CustomAttribute) == r.custom_attribute@,
        r.of_kind(ResourceKind::Tag) == r.tag@,
        n.of_kind(ResourceKind::CatalogSchema) == opt_text(n.catalog_name_pattern),
        n.of_kind(ResourceKind::ContentBlock) == opt_text(n.content_block_name_pattern),
        n.of_kind(ResourceKind::EmailTemplate) is None,
        n.of_kind(ResourceKind::CustomAttribute) == opt_text(n.custom_attribute_name_pattern),
        n.of_kind(ResourceKind::Tag) == opt_text(n.tag_name_pattern),
{
}

/// As a matter of course every kind but tags is managed, nothing is excluded
/// and references are applied before what refers to them.
pub proof fn usual_configuration_excludes_nothing(kind: ResourceKind)
    ensures
        usual_config(kind).enabled <==> kind != ResourceKind::Tag,
        usual_config(kind).exclude_patterns.len() == 0,
        usual_config(kind).apply_order == ApplyOrder::Dependency,
        kind is CustomAttribute || kind is Tag ==> "/registry.yaml"@.is_suffix_of(
            usual_config(kind).path,
        ),
        !(kind is CustomAttribute || kind is Tag) ==> usual_config(kind).path.last() == '/',
{
    reveal_strlit("/registry.yaml");
    reveal_strlit("custom_attributes/registry.yaml");
    reveal_strlit("tags/registry.yaml");
    reveal_strlit("catalogs/");
    reveal_strlit("content_blocks/");
    reveal_strlit("email_templates/");
    let p = usual_config(kind).path;
    let w = "/registry.yaml"@;
    if kind is CustomAttribute || kind is Tag {
        assert(p.skip(p.len() - w.len()) =~= w);
    }
}

} // verus!
