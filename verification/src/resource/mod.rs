//! Domain types for the five resources braze-sync manages.

pub mod catalog;
pub mod catalog_items;
pub mod content_block;
pub mod custom_attribute;
pub mod email_template;
pub mod tag;

pub use catalog::{Catalog, CatalogField, CatalogFieldType};
pub use catalog_items::{CatalogItemRow, CatalogItems};
pub use content_block::{ContentBlock, ContentBlockState};
pub use custom_attribute::{CustomAttribute, CustomAttributeRegistry, CustomAttributeType};
pub use email_template::EmailTemplate;
pub use tag::{Tag, TagRegistry};

use crate::config::schema::usual_config;
use vstd::prelude::*;

verus! {

/// Every resource type braze-sync manages, as a single sum type.
#[derive(Debug, PartialEq)]
pub enum Resource {
    CatalogSchema(Catalog),
    ContentBlock(ContentBlock),
    EmailTemplate(EmailTemplate),
    CustomAttributeRegistry(CustomAttributeRegistry),
    TagRegistry(TagRegistry),
}

/// Lightweight tag for filtering and command-line arguments. Mirrors
/// [`Resource`] but without the payload.
#[derive(Debug, Clone, Copy, PartialEq, Eq, Hash, Structural)]
pub enum ResourceKind {
    CatalogSchema,
    ContentBlock,
    EmailTemplate,
    CustomAttribute,
    Tag,
}

impl ResourceKind {
    /// The word for the kind in plans, flags and reports.
    pub open spec fn word(self) -> Seq<char> {
        match self {
            ResourceKind::CatalogSchema => "catalog_schema"@,
            ResourceKind::ContentBlock => "content_block"@,
            ResourceKind::EmailTemplate => "email_template"@,
            ResourceKind::CustomAttribute => "custom_attribute"@,
            ResourceKind::Tag => "tag"@,
        }
    }

    /// The place of the kind in the fixed order of kinds.
    pub open spec fn rank(self) -> int {
        match self {
            ResourceKind::CatalogSchema => 0,
            ResourceKind::ContentBlock => 1,
            ResourceKind::EmailTemplate => 2,
            ResourceKind::CustomAttribute => 3,
            ResourceKind::Tag => 4,
        }
    }

    pub fn as_str(&self) -> (r: &'static str)
        ensures
            r@ == self.word(),
    {
        match self {
            ResourceKind::CatalogSchema => "catalog_schema",
            ResourceKind::ContentBlock => "content_block",
            ResourceKind::EmailTemplate => "email_template",
            ResourceKind::CustomAttribute => "custom_attribute",
            ResourceKind::Tag => "tag",
        }
    }

    /// Every kind, in the fixed order of kinds.
    pub fn all() -> (r: [ResourceKind; 5])
        ensures
            forall|i: int| 0 <= i < 5 ==> (#[trigger] r@[i]).rank() == i,
            forall|k: ResourceKind| #[trigger] r@.contains(k),
    {
        let r = [
            ResourceKind::CatalogSchema,
            ResourceKind::ContentBlock,
            ResourceKind::EmailTemplate,
            ResourceKind::CustomAttribute,
            ResourceKind::Tag,
        ];
        assert forall|k: ResourceKind| #[trigger] r@.contains(k) by {
            assert(r@[k.rank()] == k);
        }
        r
    }

    /// The place of the kind in the fixed order of kinds.
    pub fn ordinal(self) -> (r: u8)
        ensures
            r == self.rank(),
    {
        match self {
            ResourceKind::CatalogSchema => 0,
            ResourceKind::ContentBlock => 1,
            ResourceKind::EmailTemplate => 2,
            ResourceKind::CustomAttribute => 3,
            ResourceKind::Tag => 4,
        }
    }
}

impl Resource {
    pub fn kind(&self) -> (r: ResourceKind)
        ensures
            r == match self {
                Resource::CatalogSchema(_) => ResourceKind::CatalogSchema,
                Resource::ContentBlock(_) => ResourceKind::ContentBlock,
                Resource::EmailTemplate(_) => ResourceKind::EmailTemplate,
                Resource::CustomAttributeRegistry(_) => ResourceKind::CustomAttribute,
                Resource::TagRegistry(_) => ResourceKind::Tag,
            },
    {
        match self {
            Resource::CatalogSchema(_) => ResourceKind::CatalogSchema,
            Resource::ContentBlock(_) => ResourceKind::ContentBlock,
            Resource::EmailTemplate(_) => ResourceKind::EmailTemplate,
            Resource::CustomAttributeRegistry(_) => ResourceKind::CustomAttribute,
            Resource::TagRegistry(_) => ResourceKind::Tag,
        }
    }
}

/// The word for a kind is the one its resources are kept under: with an `s`
/// it begins their usual place. Catalogs are kept by their schemas.
pub proof fn kinds_are_kept_under_their_words(kind: ResourceKind)
    ensures
        kind != ResourceKind::CatalogSchema ==> (kind.word() + "s/"@).is_prefix_of(
            usual_config(kind).path,
        ),
        kind == ResourceKind::CatalogSchema ==> kind.word() == "catalog_schema"@,
{
    reveal_strlit("s/");
    reveal_strlit("content_block");
    reveal_strlit("email_template");
    reveal_strlit("custom_attribute");
    reveal_strlit("tag");
    reveal_strlit("content_blocks/");
    reveal_strlit("email_templates/");
    reveal_strlit("custom_attributes/registry.yaml");
    reveal_strlit("tags/registry.yaml");
    let p = usual_config(kind).path;
    if kind != ResourceKind::CatalogSchema {
        let w = kind.word() + "s/"@;
        assert(w =~= p.take(w.len() as int));
    }
}

/// The kinds follow one another in a fixed order, each in its own place.
pub proof fn kinds_have_their_places(a: ResourceKind, b: ResourceKind)
    ensures
        0 <= a.rank() < 5,
        a.rank() == b.rank() ==> a == b,
        ResourceKind::CatalogSchema.rank() < ResourceKind::ContentBlock.rank(),
        ResourceKind::ContentBlock.rank() < ResourceKind::EmailTemplate.rank(),
        ResourceKind::EmailTemplate.rank() < ResourceKind::CustomAttribute.rank(),
        ResourceKind::CustomAttribute.rank() < ResourceKind::Tag.rank(),
{
}

} // verus!
