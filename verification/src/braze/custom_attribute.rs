//! What answers about custom attributes mean.
//!
//! Attributes are listed page by page; each page names the next one in a
//! header. The only change that can be sent is the deprecation flag.

use crate::braze::error::BrazeApiError;
use crate::braze::{opt_str, Call, CallView, Method};
use crate::order::{find_last_named, names_of, views};
use crate::resource::custom_attribute::CustomAttributeView;
use crate::resource::{CustomAttribute, CustomAttributeType};
use crate::text::{
    clone_strs, decimal, decimal_text, eq_ignore_case, lower, lower_text, opt_text, owned,
    starts_with_text, str_eq, strip_start, strs, text_or_empty, words, words_text, Strip,
};
use vstd::prelude::*;

verus! {

/// The most pages that are followed. At 50 attributes a page this makes ten
/// thousand.
pub const SAFETY_CAP_PAGES: usize = 200;

/// An attribute as Braze lists it.
#[derive(Debug, PartialEq)]
pub struct CustomAttributeWire {
    pub name: String,
    pub description: Option<String>,
    pub data_type: Option<String>,
    /// `Active` or `Blocklisted`. Absent for older workspaces.
    pub status: Option<String>,
}

/// The attribute type a data type stands for. Braze appends a remark to it,
/// so only the first word counts; what is not known is taken for a string.
pub open spec fn attribute_type(raw: Seq<char>) -> CustomAttributeType {
    let l = lower(raw);
    let w = words(l, Strip::White);
    if "object array"@.is_prefix_of(l) || "object_array"@.is_prefix_of(l) {
        CustomAttributeType::ObjectArray
    } else if w.len() == 0 {
        CustomAttributeType::String
    } else if w[0] == "number"@ || w[0] == "integer"@ || w[0] == "float"@ {
        CustomAttributeType::Number
    } else if w[0] == "boolean"@ || w[0] == "bool"@ {
        CustomAttributeType::Boolean
    } else if w[0] == "time"@ || w[0] == "date"@ {
        CustomAttributeType::Time
    } else if w[0] == "array"@ {
        CustomAttributeType::Array
    } else if w[0] == "object"@ {
        CustomAttributeType::Object
    } else {
        CustomAttributeType::String
    }
}

/// Reads a data type. One that is absent is taken for a string.
pub fn wire_data_type_to_domain(raw: Option<&str>) -> (r: CustomAttributeType)
    ensures
        r == attribute_type(text_or_empty(opt_str(raw))),
{
    let l = match raw {
        Some(t) => lower_text(t),
        None => {
            proof {
                reveal_strlit("");
                assert(""@ =~= Seq::empty());
            }
            lower_text("")
        },
    };
    if starts_with_text(l.as_str(), "object array") || starts_with_text(
        l.as_str(),
        "object_array",
    ) {
        return CustomAttributeType::ObjectArray;
    }
    let w = words_text(l.as_str(), Strip::White);
    assert(crate::text::strs(w@).len() == w@.len());
    if w.len() == 0 {
        return CustomAttributeType::String;
    }
    assert(crate::text::strs(w@)[0] == w@[0]@);
    let first = w[0].as_str();
    if str_eq(first, "number") || str_eq(first, "integer") || str_eq(first, "float") {
        CustomAttributeType::Number
    } else if str_eq(first, "boolean") || str_eq(first, "bool") {
        CustomAttributeType::Boolean
    } else if str_eq(first, "time") || str_eq(first, "date") {
        CustomAttributeType::Time
    } else if str_eq(first, "array") {
        CustomAttributeType::Array
    } else if str_eq(first, "object") {
        CustomAttributeType::Object
    } else {
        CustomAttributeType::String
    }
}

/// The first word of a data type that is not known. One that is absent is not
/// unknown.
pub open spec fn unknown_word(raw: Seq<char>) -> Option<Seq<char>> {
    let w = words(lower(raw), Strip::White);
    if attribute_type(raw) != CustomAttributeType::String || w.len() == 0 || w[0] == "string"@ {
        None
    } else {
        Some(w[0])
    }
}

/// The first word of a data type where it is taken for a string for want of a
/// better reading.
pub fn unknown_data_type(raw: Option<&str>) -> (r: Option<String>)
    ensures
        opt_text(r) == unknown_word(text_or_empty(opt_str(raw))),
{
    let text = match raw {
        Some(t) => t,
        None => {
            proof {
                reveal_strlit("");
                assert(""@ =~= Seq::empty());
            }
            ""
        },
    };
    if wire_data_type_to_domain(Some(text)) != CustomAttributeType::String {
        return None;
    }
    let mut w = words_text(lower_text(text).as_str(), Strip::White);
    let ghost ws = crate::text::strs(w@);
    assert(ws.len() == w@.len());
    if w.len() == 0 {
        return None;
    }
    assert(ws[0] == w@[0]@);
    if str_eq(w[0].as_str(), "string") {
        None
    } else {
        Some(w.remove(0))
    }
}

/// The attribute an entry of a list stands for.
pub open spec fn attribute_of(w: CustomAttributeWire) -> CustomAttributeView {
    CustomAttributeView {
        name: w.name@,
        attribute_type: attribute_type(text_or_empty(opt_text(w.data_type))),
        description: opt_text(w.description),
        deprecated: w.status is Some && lower(w.status->0@) == lower("Blocklisted"@),
    }
}

/// Takes an entry of a list over. It is deprecated where its status says that
/// it is blocklisted.
pub fn wire_to_domain(w: CustomAttributeWire) -> (r: CustomAttribute)
    ensures
        r@ == attribute_of(w),
{
    let attribute_type = match &w.data_type {
        Some(t) => wire_data_type_to_domain(Some(t.as_str())),
        None => wire_data_type_to_domain(None),
    };
    let deprecated = match &w.status {
        Some(s) => eq_ignore_case(s.as_str(), "Blocklisted"),
        None => false,
    };
    CustomAttribute { name: w.name, attribute_type, description: w.description, deprecated }
}

/// A listing under way: what came so far and where the next page is.
#[derive(Debug)]
pub struct AttributeListing {
    pub attributes: Vec<CustomAttribute>,
    pub next_url: Option<String>,
    pub pages: usize,
}

/// What follows a page.
#[derive(Debug)]
pub enum ListingStep {
    /// There is another page to fetch.
    Continue(AttributeListing),
    /// These are all attributes.
    Complete(Vec<CustomAttribute>),
    Fail(BrazeApiError),
}

/// The entries of a page as attributes.
pub open spec fn attributes_of(page: Seq<CustomAttributeWire>) -> Seq<CustomAttributeView> {
    page.map_values(|w: CustomAttributeWire| attribute_of(w))
}

/// The first name of a page that occurred before, on this page or an earlier
/// one.
pub open spec fn repeated_name(
    before: Seq<CustomAttributeView>,
    page: Seq<CustomAttributeView>,
) -> Option<Seq<char>>
    decreases page.len(),
{
    if page.len() == 0 {
        None
    } else {
        match repeated_name(before, page.drop_last()) {
            Some(n) => Some(n),
            None => if names_of::<CustomAttribute>(before + page.drop_last()).contains(
                page.last().name,
            ) {
                Some(page.last().name)
            } else {
                None
            },
        }
    }
}

impl AttributeListing {
    pub fn start() -> (r: AttributeListing)
        ensures
            views(r.attributes@) == Seq::<CustomAttributeView>::empty(),
            r.next_url is None,
            r.pages == 0,
    {
        let r = AttributeListing { attributes: Vec::new(), next_url: None, pages: 0 };
        assert(views(r.attributes@) =~= Seq::<CustomAttributeView>::empty());
        r
    }

    /// Takes a page. A repeated name, a page that names itself as the next
    /// one and too many pages end the listing with an error.
    pub fn on_page(self, page: Vec<CustomAttributeWire>, next: Option<String>) -> (r: ListingStep)
        requires
            self.pages < SAFETY_CAP_PAGES,
        ensures
            ({
                let before = views(self.attributes@);
                let fresh = attributes_of(page@);
                let echo = next is Some && opt_text(next) == opt_text(self.next_url);
                match repeated_name(before, fresh) {
                    Some(n) => r matches ListingStep::Fail(
                        BrazeApiError::DuplicateNameInListResponse { endpoint, name },
                    ) && endpoint@ == "/custom_attributes"@ && name@ == n,
                    None => if next is None {
                        r matches ListingStep::Complete(v) && views(v@) == before + fresh
                    } else if echo {
                        r matches ListingStep::Fail(
                            BrazeApiError::PaginationNotImplemented { endpoint, detail },
                        ) && endpoint@ == "/custom_attributes"@ && detail@
                            == "server returned same next link twice: "@ + next->0@
                    } else if self.pages + 1 >= SAFETY_CAP_PAGES {
                        r matches ListingStep::Fail(
                            BrazeApiError::PaginationNotImplemented { endpoint, detail },
                        ) && endpoint@ == "/custom_attributes"@ && detail@ == "exceeded "@
                            + decimal(SAFETY_CAP_PAGES as nat) + " page safety cap"@
                    } else {
                        r matches ListingStep::Continue(l) && views(l.attributes@) == before
                            + fresh && opt_text(l.next_url) == opt_text(next) && l.pages
                            == self.pages + 1
                    },
                }
            }),
    {
        let ghost before = views(self.attributes@);
        let ghost fresh = attributes_of(page@);
        let pages = self.pages;
        let previous = self.next_url;
        let mut all = self.attributes;
        let mut i: usize = 0;
        let ghost wires = page@;
        let n: usize = page.len();
        assert(views(all@) =~= before + fresh.take(0));
        for w in it: page
            invariant
                i == it.index(),
                it.seq() == wires,
                wires == page@,
                n == wires.len(),
                before == views(self.attributes@),
                fresh == attributes_of(wires),
                views(all@) == before + fresh.take(i as int),
                repeated_name(before, fresh.take(i as int)) is None,
        {
            proof {
                assert(fresh[i as int] == attribute_of(w));
                assert(fresh.take(i + 1).drop_last() =~= fresh.take(i as int));
                assert(fresh.take(i + 1).last() == fresh[i as int]);
                crate::order::lemma_last_named_some::<CustomAttribute>(views(all@), w.name@);
            }
            if find_last_named(&all, w.name.as_str()).is_some() {
                proof {
                    lemma_repeated_early(before, fresh, i + 1);
                }
                return ListingStep::Fail(
                    BrazeApiError::DuplicateNameInListResponse {
                        endpoint: "/custom_attributes",
                        name: w.name,
                    },
                );
            }
            let ghost all0 = all@;
            all.push(wire_to_domain(w));
            assert(views(all@) =~= views(all0).push(fresh[i as int]));
            assert(views(all@) =~= before + fresh.take(i + 1));
            i = i + 1;
        }
        assert(fresh.take(i as int) =~= fresh);
        match next {
            None => ListingStep::Complete(all),
            Some(url) => {
                let echo = match &previous {
                    Some(p) => *p == url,
                    None => false,
                };
                if echo {
                    let mut detail = owned("server returned same next link twice: ");
                    detail.push_str(url.as_str());
                    return ListingStep::Fail(
                        BrazeApiError::PaginationNotImplemented {
                            endpoint: "/custom_attributes",
                            detail,
                        },
                    );
                }
                if pages + 1 >= SAFETY_CAP_PAGES {
                    let mut detail = owned("exceeded ");
                    detail.push_str(decimal_text(SAFETY_CAP_PAGES as u64).as_str());
                    detail.push_str(" page safety cap");
                    return ListingStep::Fail(
                        BrazeApiError::PaginationNotImplemented {
                            endpoint: "/custom_attributes",
                            detail,
                        },
                    );
                }
                ListingStep::Continue(
                    AttributeListing { attributes: all, next_url: Some(url), pages: pages + 1 },
                )
            },
        }
    }
}

/// What is repeated early on a page is what is repeated first.
proof fn lemma_repeated_early(
    before: Seq<CustomAttributeView>,
    page: Seq<CustomAttributeView>,
    i: int,
)
    requires
        0 <= i <= page.len(),
        repeated_name(before, page.take(i)) is Some,
    ensures
        repeated_name(before, page) == repeated_name(before, page.take(i)),
    decreases page.len(),
{
    if i == page.len() {
        assert(page.take(i) =~= page);
    } else {
        assert(page.drop_last().take(i) =~= page.take(i));
        lemma_repeated_early(before, page.drop_last(), i);
    }
}

/// The call that fetches the first page of attributes.
pub fn list_custom_attributes_call() -> (r: Call)
    ensures
        r@ == (CallView {
            method: Method::Get,
            segments: seq!["custom_attributes"@],
            query: Seq::empty(),
        }),
{
    let segments = vec![owned("custom_attributes")];
    assert(strs(segments@) =~= seq!["custom_attributes"@]);
    Call::new(Method::Get, segments)
}

/// What is sent to deprecate attributes, or to take the deprecation back.
#[derive(Debug, PartialEq)]
pub struct BlocklistRequest {
    pub custom_attribute_names: Vec<String>,
    pub blocklisted: bool,
}

/// The call that sets the deprecation flag, and its body. It is the only
/// change that is ever sent for attributes.
pub fn set_custom_attribute_blocklist(names: &Vec<String>, blocklisted: bool) -> (r: (
    Call,
    BlocklistRequest,
))
    ensures
        r.0@ == (CallView {
            method: Method::Post,
            segments: seq!["custom_attributes"@, "blocklist"@],
            query: Seq::empty(),
        }),
        strs(r.1.custom_attribute_names@) == strs(names@),
        r.1.blocklisted == blocklisted,
{
    let segments = vec![owned("custom_attributes"), owned("blocklist")];
    assert(strs(segments@) =~= seq!["custom_attributes"@, "blocklist"@]);
    let body = BlocklistRequest { custom_attribute_names: clone_strs(names), blocklisted };
    (Call::new(Method::Post, segments), body)
}

proof fn lemma_type_words()
    ensures
        "number"@.len() == 6,
        "integer"@.len() == 7,
        "float"@.len() == 5,
        "boolean"@.len() == 7,
        "bool"@.len() == 4,
        "time"@.len() == 4,
        "date"@.len() == 4,
        "array"@.len() == 5,
        "object"@.len() == 6,
        "string"@.len() == 6,
        "number"@[0] == 'n',
        "integer"@[0] == 'i',
        "float"@[0] == 'f',
        "boolean"@[0] == 'b',
        "bool"@[0] == 'b',
        "time"@[0] == 't',
        "date"@[0] == 'd',
        "array"@[0] == 'a',
        "object"@[0] == 'o',
        "string"@[0] == 's',
{
    reveal_strlit("number");
    reveal_strlit("integer");
    reveal_strlit("float");
    reveal_strlit("boolean");
    reveal_strlit("bool");
    reveal_strlit("time");
    reveal_strlit("date");
    reveal_strlit("array");
    reveal_strlit("object");
    reveal_strlit("string");
}

/// The first word of a data type says what it is, whatever its case and
/// whatever remark follows. A word that is not known stands for a string and
/// is reported; a word that is known is not.
pub proof fn first_word_tells_the_type(raw: Seq<char>, first: Seq<char>)
    requires
        words(lower(raw), Strip::White).len() > 0,
        words(lower(raw), Strip::White)[0] == first,
        !"object array"@.is_prefix_of(lower(raw)),
        !"object_array"@.is_prefix_of(lower(raw)),
    ensures
        first == "number"@ || first == "integer"@ || first == "float"@ <==> attribute_type(raw)
            == CustomAttributeType::Number,
        first == "boolean"@ || first == "bool"@ <==> attribute_type(raw)
            == CustomAttributeType::Boolean,
        first == "time"@ || first == "date"@ <==> attribute_type(raw)
            == CustomAttributeType::Time,
        first == "array"@ <==> attribute_type(raw) == CustomAttributeType::Array,
        first == "object"@ <==> attribute_type(raw) == CustomAttributeType::Object,
        attribute_type(raw) != CustomAttributeType::ObjectArray,
        first == "string"@ ==> attribute_type(raw) == CustomAttributeType::String,
        unknown_word(raw) is Some <==> attribute_type(raw) == CustomAttributeType::String && first
            != "string"@,
        unknown_word(raw) matches Some(u) ==> u == first,
{
    lemma_type_words();
}

/// Arrays of objects are told by how the data type begins, and a data type
/// without a word stands for a string and is not reported.
pub proof fn object_arrays_and_blank_types(raw: Seq<char>)
    ensures
        "object array"@.is_prefix_of(lower(raw)) || "object_array"@.is_prefix_of(lower(raw)) <==>
            attribute_type(raw) == CustomAttributeType::ObjectArray,
        attribute_type(raw) == CustomAttributeType::ObjectArray ==> unknown_word(raw) is None,
        words(lower(raw), Strip::White).len() == 0 && attribute_type(raw)
            != CustomAttributeType::ObjectArray ==> attribute_type(raw)
            == CustomAttributeType::String && unknown_word(raw) is None,
{
}

/// The case of a data type does not matter.
pub proof fn case_does_not_change_the_type(a: Seq<char>, b: Seq<char>)
    requires
        lower(a) == lower(b),
    ensures
        attribute_type(a) == attribute_type(b),
        unknown_word(a) == unknown_word(b),
{
}

/// An attribute keeps the name and the description it is listed with. It is
/// deprecated exactly if its status is the word for blocklisted, in whatever
/// case; one without a status is not.
pub proof fn listed_attribute_is_taken_over(w: CustomAttributeWire)
    ensures
        attribute_of(w).name == w.name@,
        attribute_of(w).description == opt_text(w.description),
        w.data_type matches Some(t) ==> attribute_of(w).attribute_type == attribute_type(t@),
        w.data_type is None ==> attribute_of(w).attribute_type == CustomAttributeType::String,
        attribute_of(w).deprecated <==> (w.status matches Some(s) && lower(s@)
            == "blocklisted"@),
{
    reveal_strlit("Blocklisted");
    reveal_strlit("blocklisted");
    assert(lower("Blocklisted"@) =~= "blocklisted"@);
    if w.data_type is None {
        let e = Seq::<char>::empty();
        reveal_strlit("object array");
        reveal_strlit("object_array");
        assert(lower(e) =~= e);
        assert(text_or_empty(opt_text(w.data_type)) =~= e);
        reveal_with_fuel(words, 2);
        reveal_with_fuel(strip_start, 2);
        assert(words(e, Strip::White) =~= Seq::empty());
    }
}

/// A name that ends a listing is on the page, and it came before on the page
/// or on an earlier one. Where no name ends it, every name of the page is
/// new.
pub proof fn repeated_attribute_came_before(
    before: Seq<CustomAttributeView>,
    page: Seq<CustomAttributeView>,
)
    ensures
        repeated_name(before, page) matches Some(n) ==> exists|i: int|
            0 <= i < page.len() && (#[trigger] page[i]).name == n && names_of::<CustomAttribute>(
                before + page.take(i),
            ).contains(n),
        repeated_name(before, page) is None ==> forall|i: int|
            0 <= i < page.len() ==> !names_of::<CustomAttribute>(before + page.take(i)).contains(
                (#[trigger] page[i]).name,
            ),
    decreases page.len(),
{
    if page.len() > 0 {
        let rest = page.drop_last();
        let last = page.len() - 1;
        repeated_attribute_came_before(before, rest);
        assert(page.take(last) =~= rest);
        assert forall|i: int| 0 <= i < rest.len() implies #[trigger] rest[i] == page[i]
            && rest.take(i) == page.take(i) by {
            assert(rest.take(i) =~= page.take(i));
        }
        if let Some(n) = repeated_name(before, rest) {
            let i = choose|i: int|
                0 <= i < rest.len() && (#[trigger] rest[i]).name == n && names_of::<
                    CustomAttribute,
                >(before + rest.take(i)).contains(n);
            assert(page[i].name == n);
        } else if names_of::<CustomAttribute>(before + rest).contains(page.last().name) {
            assert(page[last].name == page.last().name);
        } else {
            assert forall|i: int| 0 <= i < page.len() implies !names_of::<CustomAttribute>(
                before + page.take(i),
            ).contains((#[trigger] page[i]).name) by {
                if i < last {
                    assert(rest[i] == page[i]);
                }
            }
        }
    }
}

} // verus!
