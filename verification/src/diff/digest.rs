//! Digests of the remote side of a resource, for the precondition check of a
//! saved plan.
//!
//! A digest covers exactly what the diff compares: two resources have the
//! same projection if and only if the diff sees no difference between them.
//! Fields that braze-sync never writes take no part.
//!
//! The byte encoding is part of the plan format: changing it invalidates
//! every saved plan.

use crate::diff::catalog::{field_names, field_ops, ordered_field_names};
use crate::diff::{content_block, email_template, lemma_sorted_texts_unique, sorted_strs};
use crate::order::{find_last_named, in_order, last_named, lemma_last_named_some, ordered, views};
use crate::resource::catalog::{CatalogFieldView, CatalogView};
use crate::resource::content_block::ContentBlockView;
use crate::resource::email_template::EmailTemplateView;
use crate::resource::{Catalog, CatalogField, ContentBlock, EmailTemplate};
use crate::text::{decimal, decimal_text, strs, text_or_empty};
use vstd::bytes::{spec_u64_to_le_bytes, u64_to_le_bytes};
use vstd::prelude::*;
use vstd::utf8::encode_utf8;

verus! {

/// The lowercase hexadecimal notation of the BLAKE3 hash of the bytes.
pub uninterp spec fn blake3_hex(bytes: Seq<u8>) -> Seq<char>;

/// A decimal digit or a letter from `a` to `f`.
pub open spec fn is_hex_char(c: char) -> bool {
    ('0' <= c && c <= '9') || ('a' <= c && c <= 'f')
}

/// The notation of a digest: 64 lowercase hexadecimal characters.
pub open spec fn is_digest_text(s: Seq<char>) -> bool {
    s.len() == 64 && forall|i: int| 0 <= i < 64 ==> is_hex_char(#[trigger] s[i])
}

/// `blake3::hash` and `blake3::Hash::to_hex`: the hash of the bytes in
/// lowercase hexadecimal. A hash has 32 bytes, each written as two
/// characters.
#[verifier::external_body]
pub(crate) fn hash_hex(bytes: &Vec<u8>) -> (r: String)
    ensures
        r@ == blake3_hex(bytes@),
        is_digest_text(r@),
{
    blake3::hash(bytes).to_hex().to_string()
}

/// One text in a projection: its length in bytes as a little-endian `u64`,
/// then its bytes.
pub open spec fn field(t: Seq<char>) -> Seq<u8> {
    spec_u64_to_le_bytes(encode_utf8(t).len() as u64) + encode_utf8(t)
}

/// The texts of a projection one after the other.
pub open spec fn fields(s: Seq<Seq<char>>) -> Seq<u8>
    decreases s.len(),
{
    if s.len() == 0 {
        Seq::empty()
    } else {
        field(s[0]) + fields(s.drop_first())
    }
}

/// The texts in sorted order.
pub open spec fn sorted(s: Seq<Seq<char>>) -> Seq<Seq<char>> {
    choose|o: Seq<Seq<char>>| in_order::<String>(o) && o.to_multiset() == s.to_multiset()
}

/// The number of tags, then the tags in sorted order.
pub open spec fn tag_texts(tags: Seq<Seq<char>>) -> Seq<Seq<char>> {
    seq![decimal(tags.len())] + sorted(tags)
}

/// The word for a flag that may be unset.
pub open spec fn flag_word(b: Option<bool>) -> Seq<char> {
    match b {
        None => "unset"@,
        Some(true) => "true"@,
        Some(false) => "false"@,
    }
}

/// What the projection of a content block holds.
pub open spec fn content_block_texts(cb: ContentBlockView) -> Seq<Seq<char>> {
    seq!["content_block/v2"@, cb.name, text_or_empty(cb.description), cb.content] + tag_texts(
        cb.tags,
    )
}

/// What the projection of an email template holds.
pub open spec fn email_template_texts(t: EmailTemplateView) -> Seq<Seq<char>> {
    seq![
        "email_template/v2"@,
        t.name,
        t.subject,
        t.body_html,
        t.body_plaintext,
        text_or_empty(t.preheader),
        flag_word(t.should_inline_css),
    ] + tag_texts(t.tags)
}

/// The type of a field as the catalog has it last.
pub open spec fn type_word(fields: Seq<CatalogFieldView>, name: Seq<char>) -> Seq<char> {
    last_named::<CatalogField>(fields, name)->0.field_type.word()
}

/// Name and type of each field, in ascending order of names.
pub open spec fn field_texts(fields: Seq<CatalogFieldView>) -> Seq<Seq<char>> {
    let names = ordered(field_names(fields));
    Seq::new(
        (2 * names.len()) as nat,
        |i: int|
            if i % 2 == 0 {
                names[i / 2]
            } else {
                type_word(fields, names[i / 2])
            },
    )
}

/// What the projection of a catalog holds.
pub open spec fn catalog_texts(c: CatalogView) -> Seq<Seq<char>> {
    seq!["catalog_schema/v2"@, c.name, decimal(ordered(field_names(c.fields)).len())]
        + field_texts(c.fields)
}

/// A projection under construction.
struct Projection {
    bytes: Vec<u8>,
    texts: Ghost<Seq<Seq<char>>>,
}

impl Projection {
    spec fn wf(self) -> bool {
        self.bytes@ == fields(self.texts@)
    }

    /// `tag` names the projected type, so that resources of different types
    /// never share a projection.
    fn new(tag: &str) -> (r: Self)
        ensures
            r.wf(),
            r.texts@ == seq![tag@],
    {
        let mut p = Projection { bytes: Vec::new(), texts: Ghost(Seq::empty()) };
        assert(p.bytes@ =~= fields(p.texts@));
        p.str_field(tag);
        assert(p.texts@ =~= seq![tag@]);
        p
    }

    fn str_field(&mut self, value: &str)
        requires
            old(self).wf(),
        ensures
            final(self).wf(),
            final(self).texts@ == old(self).texts@.push(value@),
    {
        let bytes = value.as_bytes();
        let prefix = u64_to_le_bytes(bytes.len() as u64);
        push_bytes(&mut self.bytes, prefix.as_slice());
        push_bytes(&mut self.bytes, bytes);
        proof {
            lemma_fields_push(self.texts@, value@);
            assert(self.bytes@ =~= fields(self.texts@) + field(value@));
        }
        self.texts = Ghost(self.texts@.push(value@));
    }

    /// An absent text counts as an empty one.
    fn opt_str_field(&mut self, value: &Option<String>)
        requires
            old(self).wf(),
        ensures
            final(self).wf(),
            final(self).texts@ == old(self).texts@.push(
                text_or_empty(crate::text::opt_text(*value)),
            ),
    {
        match value {
            Some(s) => self.str_field(s.as_str()),
            None => {
                proof {
                    reveal_strlit("");
                    assert(""@ =~= Seq::empty());
                }
                self.str_field("");
            },
        }
    }

    /// Absence is told apart from `false`.
    fn opt_bool_field(&mut self, value: Option<bool>)
        requires
            old(self).wf(),
        ensures
            final(self).wf(),
            final(self).texts@ == old(self).texts@.push(flag_word(value)),
    {
        match value {
            None => self.str_field("unset"),
            Some(true) => self.str_field("true"),
            Some(false) => self.str_field("false"),
        }
    }

    /// Tag order does not matter.
    fn tags_field(&mut self, tags: &Vec<String>)
        requires
            old(self).wf(),
        ensures
            final(self).wf(),
            final(self).texts@ == old(self).texts@ + tag_texts(strs(tags@)),
    {
        let ghost before = self.texts@;
        let v = sorted_strs(tags);
        proof {
            lemma_sorted_is(strs(tags@), strs(v@));
            vstd::seq_lib::to_multiset_len(strs(tags@));
            vstd::seq_lib::to_multiset_len(strs(v@));
        }
        self.str_field(decimal_text(v.len() as u64).as_str());
        let ghost head = self.texts@;
        let mut i: usize = 0;
        assert(head =~= head + strs(v@).take(0));
        while i < v.len()
            invariant
                i <= v@.len(),
                self.wf(),
                self.texts@ == head + strs(v@).take(i as int),
            decreases v@.len() - i,
        {
            self.str_field(v[i].as_str());
            i = i + 1;
            assert(self.texts@ =~= head + strs(v@).take(i as int));
        }
        assert(strs(v@).take(i as int) =~= strs(v@));
        assert(self.texts@ =~= before + tag_texts(strs(tags@)));
    }

    fn finish(&self) -> (r: String)
        requires
            self.wf(),
        ensures
            r@ == blake3_hex(fields(self.texts@)),
            is_digest_text(r@),
    {
        hash_hex(&self.bytes)
    }
}

pub(crate) fn push_bytes(out: &mut Vec<u8>, bytes: &[u8])
    ensures
        final(out)@ == old(out)@ + bytes@,
{
    let ghost before = out@;
    let mut i: usize = 0;
    assert(out@ =~= before + bytes@.take(0));
    while i < bytes.len()
        invariant
            i <= bytes@.len(),
            out@ == before + bytes@.take(i as int),
        decreases bytes@.len() - i,
    {
        out.push(bytes[i]);
        i = i + 1;
        assert(out@ =~= before + bytes@.take(i as int));
    }
    assert(bytes@.take(i as int) =~= bytes@);
}

proof fn lemma_fields_push(s: Seq<Seq<char>>, x: Seq<char>)
    ensures
        fields(s.push(x)) == fields(s) + field(x),
    decreases s.len(),
{
    let t = s.push(x);
    if s.len() == 0 {
        assert(t.drop_first() =~= Seq::empty());
        assert(fields(t.drop_first()) =~= Seq::empty());
        assert(fields(t) =~= fields(s) + field(x));
    } else {
        assert(t.drop_first() =~= s.drop_first().push(x));
        lemma_fields_push(s.drop_first(), x);
        assert(fields(t) =~= fields(s) + field(x));
    }
}

/// A sorted rearrangement of the texts is their sorted order.
proof fn lemma_sorted_is(s: Seq<Seq<char>>, o: Seq<Seq<char>>)
    requires
        in_order::<String>(o),
        o.to_multiset() == s.to_multiset(),
    ensures
        o == sorted(s),
{
    let p = sorted(s);
    assert(in_order::<String>(p) && p.to_multiset() == s.to_multiset());
    lemma_sorted_texts_unique(o, p);
}

/// Digest of what the content block diff compares.
pub fn content_block(cb: &ContentBlock) -> (r: String)
    ensures
        r@ == blake3_hex(fields(content_block_texts(cb@))),
        is_digest_text(r@),
{
    let mut p = Projection::new("content_block/v2");
    p.str_field(cb.name.as_str());
    p.opt_str_field(&cb.description);
    p.str_field(cb.content.as_str());
    p.tags_field(&cb.tags);
    assert(p.texts@ =~= content_block_texts(cb@));
    p.finish()
}

/// Digest of what the email template diff compares.
pub fn email_template(tpl: &EmailTemplate) -> (r: String)
    ensures
        r@ == blake3_hex(fields(email_template_texts(tpl@))),
        is_digest_text(r@),
{
    let mut p = Projection::new("email_template/v2");
    p.str_field(tpl.name.as_str());
    p.str_field(tpl.subject.as_str());
    p.str_field(tpl.body_html.as_str());
    p.str_field(tpl.body_plaintext.as_str());
    p.opt_str_field(&tpl.preheader);
    p.opt_bool_field(tpl.should_inline_css);
    p.tags_field(&tpl.tags);
    assert(p.texts@ =~= email_template_texts(tpl@));
    p.finish()
}

/// Digest of the catalog's name and of what the catalog diff compares: the
/// fields by name, each with its type. Where a name is repeated the last
/// entry counts, as it does in the diff.
pub fn catalog(cat: &Catalog) -> (r: String)
    ensures
        r@ == blake3_hex(fields(catalog_texts(cat@))),
        is_digest_text(r@),
{
    let ghost fv = cat@.fields;
    let names = ordered_field_names(&cat.fields);
    let ghost ns = ordered(field_names(fv));
    assert(strs(names@).len() == names@.len());
    let mut p = Projection::new("catalog_schema/v2");
    p.str_field(cat.name.as_str());
    p.str_field(decimal_text(names.len() as u64).as_str());
    let ghost head = p.texts@;
    let ghost all = field_texts(fv);
    proof {
        crate::diff::catalog::lemma_ordered_members(fv);
        assert(head =~= head + all.take(0));
    }
    let mut i: usize = 0;
    while i < names.len()
        invariant
            i <= names@.len(),
            p.wf(),
            fv == views(cat.fields@),
            ns == ordered(field_names(fv)),
            ns == strs(names@),
            ns.len() == names@.len(),
            forall|j: int| 0 <= j < ns.len() ==> field_names(fv).contains(#[trigger] ns[j]),
            all == field_texts(fv),
            p.texts@ == head + all.take(2 * i),
        decreases names@.len() - i,
    {
        let name = names[i].as_str();
        proof {
            assert(ns[i as int] == name@);
            lemma_last_named_some::<CatalogField>(fv, name@);
            assert(all[2 * i] == name@);
            assert(all[2 * i + 1] == type_word(fv, name@)) by {
                assert((2 * i + 1) / 2 == i);
            }
        }
        let found = find_last_named(&cat.fields, name);
        let at = found.unwrap();
        p.str_field(name);
        p.str_field(cat.fields[at].field_type.as_str());
        i = i + 1;
        assert(p.texts@ =~= head + all.take(2 * i));
    }
    assert(all.take(2 * i) =~= all);
    assert(p.texts@ =~= catalog_texts(cat@));
    p.finish()
}

/// The texts are short enough for their lengths to be written down.
pub open spec fn fits(s: Seq<Seq<char>>) -> bool {
    forall|i: int| 0 <= i < s.len() ==> encode_utf8(#[trigger] s[i]).len() <= u64::MAX
}

proof fn lemma_field_prefix(x: Seq<char>, y: Seq<char>, r: Seq<u8>, q: Seq<u8>)
    requires
        field(x) + r == field(y) + q,
        encode_utf8(x).len() <= u64::MAX,
        encode_utf8(y).len() <= u64::MAX,
    ensures
        x == y,
        r == q,
{
    vstd::bytes::lemma_auto_spec_u64_to_from_le_bytes();
    let a = encode_utf8(x);
    let b = encode_utf8(y);
    let n = spec_u64_to_le_bytes(a.len() as u64);
    let m = spec_u64_to_le_bytes(b.len() as u64);
    let l = field(x) + r;
    let k = field(y) + q;
    assert(n =~= l.take(8));
    assert(m =~= k.take(8));
    assert(a.len() == b.len());
    assert(a =~= l.subrange(8, 8 + a.len() as int));
    assert(b =~= k.subrange(8, 8 + b.len() as int));
    vstd::utf8::encode_utf8_decode_utf8(x);
    vstd::utf8::encode_utf8_decode_utf8(y);
    assert(r =~= l.skip(8 + a.len() as int));
    assert(q =~= k.skip(8 + b.len() as int));
}

/// A projection can be read back: two lists of texts with the same encoding
/// are the same list.
pub proof fn fields_are_unambiguous(s: Seq<Seq<char>>, t: Seq<Seq<char>>)
    requires
        fields(s) == fields(t),
        fits(s),
        fits(t),
    ensures
        s == t,
    decreases s.len(),
{
    vstd::bytes::lemma_auto_spec_u64_to_from_le_bytes();
    if s.len() == 0 {
        if t.len() > 0 {
            assert(field(t[0]).len() >= 8);
            assert(fields(t).len() >= 8);
        }
        assert(s =~= t);
    } else if t.len() == 0 {
        assert(field(s[0]).len() >= 8);
        assert(fields(s).len() >= 8);
    } else {
        let p = s.drop_first();
        let q = t.drop_first();
        lemma_field_prefix(s[0], t[0], fields(p), fields(q));
        assert forall|i: int| 0 <= i < p.len() implies encode_utf8(#[trigger] p[i]).len()
            <= u64::MAX by {
            assert(p[i] == s[i + 1]);
        }
        assert forall|i: int| 0 <= i < q.len() implies encode_utf8(#[trigger] q[i]).len()
            <= u64::MAX by {
            assert(q[i] == t[i + 1]);
        }
        fields_are_unambiguous(p, q);
        assert(s =~= seq![s[0]] + p);
        assert(t =~= seq![t[0]] + q);
    }
}

proof fn lemma_sorted_of(s: Seq<Seq<char>>)
    ensures
        in_order::<String>(sorted(s)),
        sorted(s).to_multiset() == s.to_multiset(),
{
    let leq = |x: Seq<char>, y: Seq<char>| crate::text::text_le(x, y);
    crate::diff::lemma_text_order();
    s.lemma_sort_by_ensures(leq);
    let o = s.sort_by(leq);
    assert forall|i: int, j: int| 0 <= i < j < o.len() implies !<String as crate::order::Ranked>::lt(
        #[trigger] o[j],
        #[trigger] o[i],
    ) by {
        assert(leq(o[i], o[j]));
        if crate::text::text_lt(o[j], o[i]) {
            crate::text::lemma_text_lt_asymmetric(o[j], o[i]);
        }
    }
    assert(in_order::<String>(o) && o.to_multiset() == s.to_multiset());
}

/// Tag lists project alike exactly when they hold the same tags.
proof fn lemma_tag_texts(a: Seq<Seq<char>>, b: Seq<Seq<char>>)
    ensures
        tag_texts(a) == tag_texts(b) <==> a.to_multiset() == b.to_multiset(),
{
    lemma_sorted_of(a);
    lemma_sorted_of(b);
    vstd::seq_lib::to_multiset_len(a);
    vstd::seq_lib::to_multiset_len(b);
    if tag_texts(a) == tag_texts(b) {
        assert(sorted(a) =~= tag_texts(a).skip(1));
        assert(sorted(b) =~= tag_texts(b).skip(1));
    }
    if a.to_multiset() == b.to_multiset() {
        lemma_sorted_texts_unique(sorted(a), sorted(b));
    }
}

/// Two content blocks have the same projection exactly when the diff sees no
/// difference between them.
pub proof fn content_block_projection_matches_diff(a: ContentBlockView, b: ContentBlockView)
    requires
        fits(content_block_texts(a)),
        fits(content_block_texts(b)),
    ensures
        fields(content_block_texts(a)) == fields(content_block_texts(b))
            <==> content_block::syncable_eq(a, b),
{
    let x = content_block_texts(a);
    let y = content_block_texts(b);
    lemma_tag_texts(a.tags, b.tags);
    if fields(x) == fields(y) {
        fields_are_unambiguous(x, y);
        assert(x[1] == y[1] && x[2] == y[2] && x[3] == y[3]);
        assert(tag_texts(a.tags) =~= x.skip(4));
        assert(tag_texts(b.tags) =~= y.skip(4));
    }
}

proof fn lemma_flag_words(a: Option<bool>, b: Option<bool>)
    ensures
        flag_word(a) == flag_word(b) <==> a == b,
{
    reveal_strlit("unset");
    reveal_strlit("true");
    reveal_strlit("false");
    if flag_word(a) == flag_word(b) {
        assert(flag_word(a).len() == flag_word(b).len());
        assert(flag_word(a)[0] == flag_word(b)[0]);
    }
}

/// Two email templates have the same projection exactly when the diff sees no
/// difference between them.
pub proof fn email_template_projection_matches_diff(a: EmailTemplateView, b: EmailTemplateView)
    requires
        fits(email_template_texts(a)),
        fits(email_template_texts(b)),
    ensures
        fields(email_template_texts(a)) == fields(email_template_texts(b))
            <==> email_template::syncable_eq(a, b),
{
    let x = email_template_texts(a);
    let y = email_template_texts(b);
    lemma_tag_texts(a.tags, b.tags);
    lemma_flag_words(a.should_inline_css, b.should_inline_css);
    if fields(x) == fields(y) {
        fields_are_unambiguous(x, y);
        assert(x[1] == y[1] && x[2] == y[2] && x[3] == y[3]);
        assert(x[4] == y[4] && x[5] == y[5] && x[6] == y[6]);
        assert(tag_texts(a.tags) =~= x.skip(7));
        assert(tag_texts(b.tags) =~= y.skip(7));
    }
}

/// Two catalogs have the same projection exactly when they have the same name
/// and the diff sees no difference between their fields.
pub proof fn catalog_projection_matches_diff(a: CatalogView, b: CatalogView)
    requires
        fits(catalog_texts(a)),
        fits(catalog_texts(b)),
    ensures
        fields(catalog_texts(a)) == fields(catalog_texts(b)) <==> a.name == b.name && field_ops(
            a.fields,
            b.fields,
        ).len() == 0,
{
    let x = catalog_texts(a);
    let y = catalog_texts(b);
    let m = ordered(field_names(a.fields));
    let n = ordered(field_names(b.fields));
    crate::diff::catalog::lemma_no_field_ops(a.fields, b.fields);
    crate::diff::catalog::lemma_ordered_members(a.fields);
    crate::diff::catalog::lemma_ordered_members(b.fields);
    if fields(x) == fields(y) {
        fields_are_unambiguous(x, y);
        assert(x[1] == y[1]);
        assert(x.len() == y.len());
        assert(m.len() == n.len());
        assert forall|i: int| 0 <= i < m.len() implies m[i] == n[i] && type_word(a.fields, m[i])
            == type_word(b.fields, m[i]) by {
            assert((2 * i) / 2 == i && (2 * i + 1) / 2 == i);
            assert(x[3 + 2 * i] == field_texts(a.fields)[2 * i]);
            assert(y[3 + 2 * i] == field_texts(b.fields)[2 * i]);
            assert(x[4 + 2 * i] == field_texts(a.fields)[2 * i + 1]);
            assert(y[4 + 2 * i] == field_texts(b.fields)[2 * i + 1]);
        }
        assert(m =~= n);
        assert forall|k: Seq<char>| #[trigger] last_named::<CatalogField>(a.fields, k)
            == last_named::<CatalogField>(b.fields, k) by {
            lemma_last_named_some::<CatalogField>(a.fields, k);
            lemma_last_named_some::<CatalogField>(b.fields, k);
            if field_names(a.fields).contains(k) {
                assert(m.to_set().contains(k));
                let i = choose|i: int| 0 <= i < m.len() && m[i] == k;
                assert(type_word(a.fields, m[i]) == type_word(b.fields, m[i]));
                assert(field_names(b.fields).contains(n[i]));
                let u = last_named::<CatalogField>(a.fields, k)->0;
                let v = last_named::<CatalogField>(b.fields, k)->0;
                crate::resource::catalog::lemma_words_distinct(u.field_type, v.field_type);
                assert(u =~= v);
            } else {
                assert(!m.to_set().contains(k));
                assert(!field_names(b.fields).contains(k));
            }
        }
    }
    if a.name == b.name && field_ops(a.fields, b.fields).len() == 0 {
        assert forall|k: Seq<char>| field_names(a.fields).contains(k) == field_names(
            b.fields,
        ).contains(k) by {
            lemma_last_named_some::<CatalogField>(a.fields, k);
            lemma_last_named_some::<CatalogField>(b.fields, k);
            assert(last_named::<CatalogField>(a.fields, k) == last_named::<CatalogField>(
                b.fields,
                k,
            ));
        }
        assert(field_names(a.fields) =~= field_names(b.fields));
        assert(field_texts(a.fields) =~= field_texts(b.fields)) by {
            assert forall|i: int| 0 <= i < 2 * m.len() implies field_texts(a.fields)[i]
                == field_texts(b.fields)[i] by {
                assert(last_named::<CatalogField>(a.fields, m[i / 2]) == last_named::<
                    CatalogField,
                >(b.fields, m[i / 2]));
            }
        }
    }
}

/// Resources of different types never share a projection.
pub proof fn projections_are_domain_separated(
    cb: ContentBlockView,
    et: EmailTemplateView,
    cat: CatalogView,
)
    requires
        fits(content_block_texts(cb)),
        fits(email_template_texts(et)),
        fits(catalog_texts(cat)),
    ensures
        fields(content_block_texts(cb)) != fields(email_template_texts(et)),
        fields(content_block_texts(cb)) != fields(catalog_texts(cat)),
        fields(email_template_texts(et)) != fields(catalog_texts(cat)),
{
    reveal_strlit("content_block/v2");
    reveal_strlit("email_template/v2");
    reveal_strlit("catalog_schema/v2");
    let x = content_block_texts(cb);
    let y = email_template_texts(et);
    let z = catalog_texts(cat);
    assert(x[0] == "content_block/v2"@);
    assert(y[0] == "email_template/v2"@);
    assert(z[0] == "catalog_schema/v2"@);
    assert(x[0].len() == 16 && y[0].len() == 17 && z[0].len() == 17);
    assert(y[0][0] != z[0][0]);
    if fields(x) == fields(y) {
        fields_are_unambiguous(x, y);
    }
    if fields(x) == fields(z) {
        fields_are_unambiguous(x, z);
    }
    if fields(y) == fields(z) {
        fields_are_unambiguous(y, z);
    }
}

/// A projection begins with the word for its type and holds every part that
/// the diff compares in a place of its own: only the tags are put in order.
pub proof fn projections_hold_every_part(
    cb: ContentBlockView,
    t: EmailTemplateView,
    cat: CatalogView,
)
    ensures
        content_block_texts(cb).take(4) == seq![
            "content_block/v2"@,
            cb.name,
            text_or_empty(cb.description),
            cb.content,
        ],
        email_template_texts(t).take(6) == seq![
            "email_template/v2"@,
            t.name,
            t.subject,
            t.body_html,
            t.body_plaintext,
            text_or_empty(t.preheader),
        ],
        t.should_inline_css is None ==> email_template_texts(t)[6] == "unset"@,
        t.should_inline_css == Some(true) ==> email_template_texts(t)[6] == "true"@,
        t.should_inline_css == Some(false) ==> email_template_texts(t)[6] == "false"@,
        content_block_texts(cb)[4] == decimal(cb.tags.len()),
        content_block_texts(cb).skip(5).to_multiset() == cb.tags.to_multiset(),
        email_template_texts(t)[7] == decimal(t.tags.len()),
        email_template_texts(t).skip(8).to_multiset() == t.tags.to_multiset(),
        catalog_texts(cat)[0] == "catalog_schema/v2"@,
        catalog_texts(cat)[1] == cat.name,
{
    lemma_sorted_of(cb.tags);
    lemma_sorted_of(t.tags);
    assert(content_block_texts(cb).take(4) =~= seq![
        "content_block/v2"@,
        cb.name,
        text_or_empty(cb.description),
        cb.content,
    ]);
    assert(email_template_texts(t).take(6) =~= seq![
        "email_template/v2"@,
        t.name,
        t.subject,
        t.body_html,
        t.body_plaintext,
        text_or_empty(t.preheader),
    ]);
    assert(content_block_texts(cb).skip(5) =~= sorted(cb.tags));
    assert(email_template_texts(t).skip(8) =~= sorted(t.tags));
}

} // verus!
