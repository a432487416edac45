//! Rows of catalogs, and how their contents are told apart.
//!
//! A value in a row can be anything that JSON can hold. Two values are the same
//! where they differ in nothing but the order of the members of objects, at
//! whatever depth.

use crate::diff::digest::{blake3_hex, hash_hex, push_bytes};
use crate::format::json::{
    array, array_text, flag, flag_text, json_string, object, object_text, string_text,
};
use crate::order::{
    find_last_named, insert_names, last_named, lemma_last_named_some, lemma_ordered_unique,
    names_of, ordered, views, Named,
};
use crate::text::{
    is_shown, join, lemma_shown_between, lemma_shown_joined, lemma_shown_through, owned, strs,
};
use vstd::prelude::*;
use vstd::utf8::encode_utf8;

verus! {

/// What a field of a row can hold.
#[derive(Debug, PartialEq, Eq)]
pub enum ItemValue {
    Null,
    Bool(bool),
    /// A number as `serde_json` writes it.
    Number(String),
    Text(String),
    List(Vec<ItemValue>),
    /// The members of an object, in any order. Of two members of the same
    /// name the last counts.
    Object(Vec<ItemField>),
}

/// One field of a row, or one member of an object in it.
#[derive(Debug, PartialEq, Eq)]
pub struct ItemField {
    pub name: String,
    pub value: ItemValue,
}

/// What a field of a row is: its name, and the canonical JSON of its value.
#[verifier::ext_equal]
pub struct ItemFieldView {
    pub name: Seq<char>,
    pub value: Seq<char>,
}

/// The canonical JSON of a value: compact, with the members of every object
/// in order of name.
pub open spec fn value_json(v: ItemValue) -> Seq<char>
    decreases v,
{
    match v {
        ItemValue::Null => "null"@,
        ItemValue::Bool(b) => flag(b),
        ItemValue::Number(n) => n@,
        ItemValue::Text(t) => json_string(t@),
        ItemValue::List(l) => array(values_json(l@)),
        ItemValue::Object(m) => canonical(fields_json(m@)),
    }
}

/// The canonical JSON of the values of a list.
pub open spec fn values_json(l: Seq<ItemValue>) -> Seq<Seq<char>>
    decreases l,
{
    Seq::new(
        l.len(),
        |i: int|
            if 0 <= i < l.len() {
                value_json(l[i])
            } else {
                arbitrary()
            },
    )
}

/// What the members of an object are.
pub open spec fn fields_json(m: Seq<ItemField>) -> Seq<ItemFieldView>
    decreases m,
{
    Seq::new(
        m.len(),
        |i: int|
            if 0 <= i < m.len() {
                ItemFieldView { name: m[i].name@, value: value_json(m[i].value) }
            } else {
                arbitrary()
            },
    )
}

impl View for ItemField {
    type V = ItemFieldView;

    open spec fn view(&self) -> ItemFieldView {
        ItemFieldView { name: self.name@, value: value_json(self.value) }
    }
}

/// A member of an object whose value is canonical JSON already.
pub struct Member {
    pub name: String,
    pub text: String,
}

impl View for Member {
    type V = ItemFieldView;

    open spec fn view(&self) -> ItemFieldView {
        ItemFieldView { name: self.name@, value: self.text@ }
    }
}

impl Named for Member {
    open spec fn name_of(v: ItemFieldView) -> Seq<char> {
        v.name
    }

    fn name_ref(&self) -> (r: &String) {
        &self.name
    }
}

#[derive(Debug, PartialEq, Eq)]
pub struct CatalogItemRow {
    pub id: String,
    /// The fields but the id.
    pub fields: Vec<ItemField>,
}

/// The hash of the contents of a row.
#[derive(Debug, Clone, PartialEq, Eq)]
pub struct ItemHash {
    pub id: String,
    pub hash: String,
}

#[derive(Debug, PartialEq, Eq)]
pub struct CatalogItems {
    pub catalog_name: String,
    pub item_hashes: Vec<ItemHash>,
    /// The rows, where they were read.
    pub rows: Option<Vec<CatalogItemRow>>,
}

/// What the hash of a row is.
#[verifier::ext_equal]
pub struct ItemHashView {
    pub id: Seq<char>,
    pub hash: Seq<char>,
}

impl View for ItemHash {
    type V = ItemHashView;

    open spec fn view(&self) -> ItemHashView {
        ItemHashView { id: self.id@, hash: self.hash@ }
    }
}

impl Named for ItemHash {
    open spec fn name_of(v: ItemHashView) -> Seq<char> {
        v.id
    }

    fn name_ref(&self) -> (r: &String) {
        &self.id
    }
}

/// What the rows of a catalog come to.
#[verifier::ext_equal]
pub struct CatalogItemsView {
    pub catalog_name: Seq<char>,
    pub item_hashes: Seq<ItemHashView>,
}

impl View for CatalogItems {
    type V = CatalogItemsView;

    open spec fn view(&self) -> CatalogItemsView {
        CatalogItemsView {
            catalog_name: self.catalog_name@,
            item_hashes: views(self.item_hashes@),
        }
    }
}

impl Named for CatalogItems {
    open spec fn name_of(v: CatalogItemsView) -> Seq<char> {
        v.catalog_name
    }

    fn name_ref(&self) -> (r: &String) {
        &self.catalog_name
    }
}

/// The members of the canonical JSON: in order of name, each name once.
pub open spec fn members(fields: Seq<ItemFieldView>) -> Seq<Seq<char>> {
    ordered(names_of::<Member>(fields).to_set()).map_values(
        |n: Seq<char>| json_string(n) + ":"@ + last_named::<Member>(fields, n)->0.value,
    )
}

/// The canonical JSON of the fields of a row.
pub open spec fn canonical(fields: Seq<ItemFieldView>) -> Seq<char> {
    object(members(fields))
}

impl ItemValue {
    /// The canonical JSON of the value.
    pub fn canonical_text(&self) -> (r: String)
        ensures
            r@ == value_json(*self),
        decreases *self, 1nat,
    {
        match self {
            ItemValue::Null => owned("null"),
            ItemValue::Bool(b) => owned(flag_text(*b)),
            ItemValue::Number(n) => n.clone(),
            ItemValue::Text(t) => string_text(t.as_str()),
            ItemValue::List(l) => array_text(&list_texts(l)),
            ItemValue::Object(m) => {
                let r = fields_text(m);
                assert(views(m@) =~= fields_json(m@));
                r
            },
        }
    }
}

/// The canonical JSON of the values of a list.
fn list_texts(l: &Vec<ItemValue>) -> (r: Vec<String>)
    ensures
        strs(r@) == values_json(l@),
    decreases *l, 0nat,
{
    let mut out: Vec<String> = Vec::new();
    let mut i: usize = 0;
    while i < l.len()
        invariant
            i <= l@.len(),
            out@.len() == i,
            forall|k: int| 0 <= k < i ==> (#[trigger] out@[k])@ == value_json(l@[k]),
        decreases l@.len() - i,
    {
        out.push(l[i].canonical_text());
        i = i + 1;
    }
    assert(strs(out@) =~= values_json(l@));
    out
}

/// The canonical JSON of fields.
fn fields_text(fields: &Vec<ItemField>) -> (r: String)
    ensures
        r@ == canonical(views(fields@)),
    decreases *fields, 0nat,
{
    let mut out: Vec<Member> = Vec::new();
    let mut i: usize = 0;
    while i < fields.len()
        invariant
            i <= fields@.len(),
            out@.len() == i,
            forall|k: int| 0 <= k < i ==> (#[trigger] out@[k])@ == fields@[k]@,
        decreases fields@.len() - i,
    {
        let text = fields[i].value.canonical_text();
        out.push(Member { name: fields[i].name.clone(), text });
        i = i + 1;
    }
    assert(views(out@) =~= views(fields@));
    members_text(&out)
}

/// The object of the members, in order of name, each name once.
fn members_text(list: &Vec<Member>) -> (r: String)
    ensures
        r@ == canonical(views(list@)),
{
    let ghost fs = views(list@);
    let mut names: Vec<String> = Vec::new();
    assert(strs(names@) =~= Seq::empty());
    insert_names(&mut names, list);
    let ghost s = names_of::<Member>(fs).to_set();
    proof {
        assert(strs(names@).to_set() =~= s);
        lemma_ordered_unique(strs(names@), s);
    }
    let ghost all = ordered(s);
    let ghost make = |n: Seq<char>| json_string(n) + ":"@ + last_named::<Member>(fs, n)->0.value;
    let mut out: Vec<String> = Vec::new();
    let mut i: usize = 0;
    while i < names.len()
        invariant
            i <= names@.len(),
            fs == views(list@),
            s == names_of::<Member>(fs).to_set(),
            all == strs(names@),
            all.to_set() == s,
            out@.len() == i,
            forall|k: int|
                0 <= k < i ==> (#[trigger] out@[k])@ == json_string(names@[k]@) + ":"@
                    + last_named::<Member>(fs, names@[k]@)->0.value,
        decreases names@.len() - i,
    {
        proof {
            assert(all[i as int] == names@[i as int]@);
            assert(all.contains(names@[i as int]@));
            assert(all.to_set().contains(names@[i as int]@));
            lemma_last_named_some::<Member>(fs, names@[i as int]@);
        }
        if let Some(k) = find_last_named(list, names[i].as_str()) {
            let mut m = string_text(names[i].as_str());
            m.push_str(":");
            m.push_str(list[k].text.as_str());
            out.push(m);
        }
        i = i + 1;
    }
    assert(strs(out@) =~= members(fs)) by {
        assert forall|k: int| 0 <= k < out@.len() implies strs(out@)[k] == all.map_values(
            make,
        )[k] by {
            assert(all[k] == names@[k]@);
            assert(strs(out@)[k] == out@[k]@);
        }
        assert(members(fs) =~= all.map_values(make));
    }
    object_text(&out)
}

impl CatalogItemRow {
    /// The canonical JSON of the fields.
    pub fn canonical_text(&self) -> (r: String)
        ensures
            r@ == canonical(views(self.fields@)),
    {
        fields_text(&self.fields)
    }

    /// The hash of the contents. It does not depend on the order of the
    /// fields, nor on that of the members of an object in one of them.
    pub fn content_hash(&self) -> (r: String)
        ensures
            r@ == blake3_hex(encode_utf8(canonical(views(self.fields@)))),
    {
        let text = self.canonical_text();
        let mut bytes: Vec<u8> = Vec::new();
        push_bytes(&mut bytes, text.as_str().as_bytes());
        assert(bytes@ =~= encode_utf8(text@));
        hash_hex(&bytes)
    }
}

/// The hashes of rows, in their order.
pub fn hash_rows(rows: &Vec<CatalogItemRow>) -> (r: Vec<ItemHash>)
    ensures
        views(r@) == rows@.map_values(
            |row: CatalogItemRow|
                ItemHashView {
                    id: row.id@,
                    hash: blake3_hex(encode_utf8(canonical(views(row.fields@)))),
                },
        ),
{
    let mut out: Vec<ItemHash> = Vec::new();
    let mut i: usize = 0;
    while i < rows.len()
        invariant
            i <= rows@.len(),
            out@.len() == i,
            forall|k: int|
                0 <= k < i ==> (#[trigger] out@[k])@ == (ItemHashView {
                    id: rows@[k].id@,
                    hash: blake3_hex(encode_utf8(canonical(views(rows@[k].fields@)))),
                }),
        decreases rows@.len() - i,
    {
        out.push(ItemHash { id: rows[i].id.clone(), hash: rows[i].content_hash() });
        i = i + 1;
    }
    assert(views(out@) =~= rows@.map_values(
        |row: CatalogItemRow|
            ItemHashView {
                id: row.id@,
                hash: blake3_hex(encode_utf8(canonical(views(row.fields@)))),
            },
    ));
    out
}

/// Rows with the same fields have the same contents, in whatever order the
/// fields are.
pub proof fn field_order_does_not_matter(a: Seq<ItemFieldView>, b: Seq<ItemFieldView>)
    requires
        names_of::<Member>(a).no_duplicates(),
        names_of::<Member>(b).no_duplicates(),
        a.to_set() == b.to_set(),
    ensures
        canonical(a) == canonical(b),
{
    let na = names_of::<Member>(a).to_set();
    let nb = names_of::<Member>(b).to_set();
    assert forall|n: Seq<char>| na.contains(n) implies nb.contains(n) by {
        lemma_names_follow(a, b, n);
    }
    assert forall|n: Seq<char>| nb.contains(n) implies na.contains(n) by {
        lemma_names_follow(b, a, n);
    }
    assert(na =~= nb);
    crate::order::lemma_ordered_exists(names_of::<Member>(a));
    let all = ordered(na);
    assert forall|k: int| 0 <= k < all.len() implies #[trigger] members(a)[k] == members(b)[k] by {
        let n = all[k];
        assert(all.contains(n));
        assert(all.to_set().contains(n));
        lemma_names_follow(a, b, n);
    }
    assert(members(a) =~= members(b));
}

/// The order of the members of an object in a value does not matter either.
/// Since what a value is rests on the canonical JSON of what it holds, this
/// goes for objects at any depth.
pub proof fn member_order_does_not_matter(a: Vec<ItemField>, b: Vec<ItemField>)
    requires
        names_of::<Member>(views(a@)).no_duplicates(),
        names_of::<Member>(views(b@)).no_duplicates(),
        views(a@).to_set() == views(b@).to_set(),
    ensures
        value_json(ItemValue::Object(a)) == value_json(ItemValue::Object(b)),
{
    assert(views(a@) =~= fields_json(a@));
    assert(views(b@) =~= fields_json(b@));
    field_order_does_not_matter(views(a@), views(b@));
}

/// A field of the one row is found in the other.
proof fn lemma_names_follow(a: Seq<ItemFieldView>, b: Seq<ItemFieldView>, n: Seq<char>)
    requires
        names_of::<Member>(a).contains(n),
        names_of::<Member>(b).no_duplicates(),
        a.to_set() == b.to_set(),
    ensures
        names_of::<Member>(b).contains(n),
        last_named::<Member>(a, n) == last_named::<Member>(b, n),
{
    lemma_last_named_some::<Member>(a, n);
    let v = last_named::<Member>(a, n)->0;
    assert(a.contains(v));
    assert(a.to_set().contains(v));
    assert(b.to_set().contains(v));
    let k = choose|k: int| 0 <= k < b.len() && b[k] == v;
    assert(names_of::<Member>(b)[k] == n);
    assert forall|j: int| k < j < b.len() implies Member::name_of(#[trigger] b[j])
        != Member::name_of(b[k]) by {
        assert(names_of::<Member>(b)[j] != names_of::<Member>(b)[k]);
    }
    crate::order::lemma_last_named_at::<Member>(b, k);
}

/// The canonical JSON of a row holds every field once, by its name and with
/// its value; of fields of the same name it holds the last.
pub proof fn canonical_rows_hold_every_field(fields: Seq<ItemFieldView>, i: int)
    requires
        0 <= i < fields.len(),
        forall|j: int| i < j < fields.len() ==> (#[trigger] fields[j]).name != fields[i].name,
    ensures
        is_shown(json_string(fields[i].name) + ":"@ + fields[i].value, canonical(fields)),
        canonical(fields).len() >= 2,
        canonical(fields)[0] == '{',
        canonical(fields).last() == '}',
{
    reveal_strlit("{");
    reveal_strlit("}");
    let n = fields[i].name;
    let names = names_of::<Member>(fields);
    let o = ordered(names.to_set());
    crate::order::lemma_ordered_exists(names);
    assert(names[i] == n);
    assert(names.to_set().contains(n));
    assert(o.to_set().contains(n));
    let k = choose|k: int| 0 <= k < o.len() && o[k] == n;
    crate::order::lemma_last_named_at::<Member>(fields, i);
    let m = members(fields);
    assert(m[k] == json_string(n) + ":"@ + fields[i].value);
    lemma_shown_joined(m, ","@, k);
    let j = join(m, ","@);
    lemma_shown_between("{"@, j, "}"@);
    lemma_shown_through(m[k], j, canonical(fields));
}

/// The value of a field is written as JSON writes it: each kind of value in
/// its own way, and a list with all its values.
pub proof fn values_are_written_as_json(v: ItemValue)
    ensures
        v is Null ==> value_json(v) == "null"@,
        v == ItemValue::Bool(true) ==> value_json(v) == "true"@,
        v == ItemValue::Bool(false) ==> value_json(v) == "false"@,
        v matches ItemValue::Number(n) ==> value_json(v) == n@,
        v matches ItemValue::Text(t) ==> value_json(v) == json_string(t@),
        v matches ItemValue::List(l) ==> forall|i: int|
            0 <= i < l@.len() ==> is_shown(value_json(#[trigger] l@[i]), value_json(v)),
{
    if let ItemValue::List(l) = v {
        let t = values_json(l@);
        let j = join(t, ","@);
        lemma_shown_between("["@, j, "]"@);
        assert forall|i: int| 0 <= i < l@.len() implies is_shown(
            value_json(#[trigger] l@[i]),
            value_json(v),
        ) by {
            assert(t[i] == value_json(l@[i]));
            lemma_shown_joined(t, ","@, i);
            lemma_shown_through(t[i], j, value_json(v));
        }
    }
}

} // verus!
